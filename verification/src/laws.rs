//! What the parts of the library add up to.

use crate::arena::Node;
use crate::edge::{Edge, EdgeKey};
use crate::ir::{lemma_with_input, IRModel, MaintainOrderJoin, Plan, SinkPlan};
use crate::ir_graph::{
    caches_agree, fresh_graph, has_graph, lemma_below_listed, lemma_links, lemma_reachable,
    lemma_step_at, reachable, EdgeKeysModel,
};
use crate::orders::{ExprReply, ObservableOrders};
use crate::pass::{
    aggs_of, lemma_repeats, lemma_step_inv, lemma_up, started, PassState, Reply, Wanted,
};
use crate::rules::{arity_fits, none_ordered, outcome};
use crate::simplify::{edges_at, GraphState};
use crate::traversal::{
    caches, children, expands, hop_input, hops, is_copy, last_at, lemma_at_hits, lemma_complete,
    lemma_expands_once, lemma_last_at, lemma_listing, lemma_woven, listing, seen, traversal, web_of,
    Web,
};
use crate::wiring::{
    feeds, held_below, lemma_apart, lemma_can_unlink, lemma_fresh_wired, lemma_outcome_shape,
    lemma_same_heads, lemma_visited_shape, lemma_visited_wired, placed, same_caches, simplifiable,
    tied, wired,
};
use vstd::prelude::*;

verus! {

////////////////////////////////////////////////////////////////////////////////////////////////
// Traversals
////////////////////////////////////////////////////////////////////////////////////////////////

/// All paths down from the roots stay inside the plan and end.
pub open spec fn ends(plan: Seq<IRModel>, roots: Seq<Node>) -> bool {
    &&& plan.len() <= usize::MAX
    &&& web_of(plan, roots).inside()
    &&& web_of(plan, roots).acyclic()
}

/// Consumers come before their inputs: each step of the traversal leads from a node to one of
/// its inputs, further down the list.
pub proof fn law_consumers_first(plan: Seq<IRModel>, roots: Seq<Node>, q: int)
    requires
        ends(plan, roots),
        0 <= q < hops(
            web_of(plan, roots),
            traversal(plan, roots),
            traversal(plan, roots).len(),
        ).len(),
    ensures
        ({
            let web = web_of(plan, roots);
            let list = traversal(plan, roots);
            let step = hops(web, list, list.len())[q];
            &&& 0 <= step.consumer_at < roots.len() + q < list.len()
            &&& list[roots.len() + q] == hop_input(web, list, step)
        }),
{
    lemma_woven(plan, roots);
    lemma_listing(web_of(plan, roots));
}

/// Each node that is listed, cache or not, is visited on to its inputs exactly once: at the last
/// position where it, or another node that stands for the same result, is listed.
pub proof fn law_visited_on_once(plan: Seq<IRModel>, roots: Seq<Node>, r: int) -> (p: int)
    requires
        ends(plan, roots),
        0 <= r < traversal(plan, roots).len(),
    ensures
        ({
            let web = web_of(plan, roots);
            let list = traversal(plan, roots);
            &&& r <= p < list.len()
            &&& web.head(list[p]) == web.head(list[r])
            &&& expands(web, list, p)
            &&& forall|other: int|
                0 <= other < list.len() && web.head(#[trigger] list[other]) == web.head(list[r])
                    ==> other <= p && (expands(web, list, other) ==> other == p)
        }),
{
    let web = web_of(plan, roots);
    let list = traversal(plan, roots);
    lemma_woven(plan, roots);
    lemma_listing(web);
    lemma_complete(web);
    let head = web.head(list[r]);
    assert(web.opened.contains(web.head(list[r])));
    let p = last_at(web, head);
    lemma_last_at(web, head, r);
    assert forall|other: int|
        0 <= other < list.len() && web.head(#[trigger] list[other]) == head implies other <= p && (
    expands(web, list, other) ==> other == p) by {
        lemma_last_at(web, head, other);
        if expands(web, list, other) && other < p {
            lemma_expands_once(web, list, other, p);
        }
    }
    p
}

/// Cache nodes with one id stand for one result.
proof fn lemma_one_head(plan: Seq<IRModel>, roots: Seq<Node>, id: u128, p: int, r: int)
    requires
        ends(plan, roots),
        0 <= p < traversal(plan, roots).len(),
        0 <= r < traversal(plan, roots).len(),
        caches(plan[traversal(plan, roots)[p] as int], id),
        caches(plan[traversal(plan, roots)[r] as int], id),
    ensures
        web_of(plan, roots).head(traversal(plan, roots)[p]) == web_of(plan, roots).head(
            traversal(plan, roots)[r],
        ),
{
    let web = web_of(plan, roots);
    let list = traversal(plan, roots);
    lemma_woven(plan, roots);
    lemma_listing(web);
    assert(web.opened.contains(web.head(list[p])));
    assert(web.opened.contains(web.head(list[r])));
}

/// A cache is visited on to its input exactly once, also below another cache, and only after every
/// other visit of a cache with its id.
pub proof fn law_caches_wait(plan: Seq<IRModel>, roots: Seq<Node>, id: u128, r: int) -> (p: int)
    requires
        ends(plan, roots),
        0 <= r < traversal(plan, roots).len(),
        caches(plan[traversal(plan, roots)[r] as int], id),
    ensures
        ({
            let web = web_of(plan, roots);
            let list = traversal(plan, roots);
            &&& 0 <= p < list.len()
            &&& caches(plan[list[p] as int], id)
            &&& expands(web, list, p)
            &&& forall|other: int|
                0 <= other < list.len() && caches(plan[#[trigger] list[other] as int], id)
                    ==> other <= p && (expands(web, list, other) ==> other == p)
        }),
{
    let web = web_of(plan, roots);
    let list = traversal(plan, roots);
    lemma_woven(plan, roots);
    lemma_listing(web);
    let p = law_visited_on_once(plan, roots, r);
    assert(web.opened.contains(web.head(list[r])));
    assert(web.opened.contains(web.head(list[p])));
    assert forall|other: int|
        0 <= other < list.len() && caches(plan[#[trigger] list[other] as int], id) implies other
        <= p && (expands(web, list, other) ==> other == p) by {
        lemma_one_head(plan, roots, id, r, other);
    }
    p
}

/// Of the cache nodes with one id, the one that is listed last is the one that is visited on to its
/// input, whatever the others read.
pub proof fn law_last_listed_leads(plan: Seq<IRModel>, roots: Seq<Node>, p: int)
    requires
        plan.len() <= usize::MAX,
        has_graph(plan, roots),
        0 <= p < traversal(plan, roots).len(),
        expands(web_of(plan, roots), traversal(plan, roots), p),
    ensures
        web_of(plan, roots).head(traversal(plan, roots)[p]) == traversal(plan, roots)[p],
        children(web_of(plan, roots), traversal(plan, roots), p)
            == plan[traversal(plan, roots)[p] as int].inputs(),
{
}

/// A cache is visited on to its input only after all consumers of caches with its id have been
/// visited.
pub proof fn law_caches_wait_for_consumers(
    plan: Seq<IRModel>,
    roots: Seq<Node>,
    id: u128,
    p: int,
    q: int,
)
    requires
        ends(plan, roots),
        0 <= p < traversal(plan, roots).len(),
        caches(plan[traversal(plan, roots)[p] as int], id),
        expands(web_of(plan, roots), traversal(plan, roots), p),
        0 <= q < hops(
            web_of(plan, roots),
            traversal(plan, roots),
            traversal(plan, roots).len(),
        ).len(),
        caches(plan[traversal(plan, roots)[roots.len() + q] as int], id),
    ensures
        hops(
            web_of(plan, roots),
            traversal(plan, roots),
            traversal(plan, roots).len(),
        )[q].consumer_at < p,
{
    law_consumers_first(plan, roots, q);
    let last = law_caches_wait(plan, roots, id, p);
}

/// Each node is listed as often as it is used: once for each place among the roots, and once for
/// each input that it is of a node that is visited on. A cache counts together with its copies.
/// So the list is as long as there are roots and such inputs.
pub proof fn law_listed_per_use(plan: Seq<IRModel>, roots: Seq<Node>, node: Node)
    requires
        ends(plan, roots),
        web_of(plan, roots).opened.contains(node),
    ensures
        ({
            let web = web_of(plan, roots);
            let list = traversal(plan, roots);
            &&& seen(web, list, list.len(), node) == web.uses(node)
            &&& list.len() == web.size()
        }),
{
    lemma_woven(plan, roots);
    lemma_complete(web_of(plan, roots));
}

/// The nodes that are listed are those that can be reached from the roots.
///
/// Where cache nodes share an id and yet read different inputs, only the input of one of them is
/// followed, and what lies below the other inputs alone is not listed.
pub proof fn law_reachable_listed(plan: Seq<IRModel>, roots: Seq<Node>, node: Node)
    requires
        ends(plan, roots),
        caches_agree(plan),
    ensures
        reachable(plan, roots, node) <==> traversal(plan, roots).contains(node),
{
    let web = web_of(plan, roots);
    lemma_woven(plan, roots);
    lemma_complete(web);
    lemma_below_listed(web, node);
    lemma_reachable(web, node);
}

////////////////////////////////////////////////////////////////////////////////////////////////
// New graphs
////////////////////////////////////////////////////////////////////////////////////////////////

/// A new graph holds every node that is listed and no other. A node that is visited on has one in
/// edge for each of its inputs; the other cache nodes of an id have none.
pub proof fn law_every_node_has_its_edges(
    plan: Seq<IRModel>,
    roots: Seq<Node>,
    keys: Seq<EdgeKey>,
    links: Map<Node, EdgeKeysModel>,
    edges: Map<EdgeKey, Edge>,
    node: Node,
)
    requires
        plan.len() <= usize::MAX,
        has_graph(plan, roots),
        fresh_graph(web_of(plan, roots), keys, links, edges),
    ensures
        links.contains_key(node) <==> traversal(plan, roots).contains(node),
        links.contains_key(node) && !is_copy(plan, web_of(plan, roots).leads, node)
            ==> links[node].in_edges.len() == plan[node as int].inputs().len(),
        links.contains_key(node) && is_copy(plan, web_of(plan, roots).leads, node)
            ==> links[node].in_edges.len() == 0,
        caches_agree(plan) ==> (links.contains_key(node) <==> reachable(plan, roots, node)),
{
    lemma_woven(plan, roots);
    lemma_links(web_of(plan, roots), keys, links, edges);
    if caches_agree(plan) {
        law_reachable_listed(plan, roots, node);
    }
}

/// Every node is listed as often as it is a root, and once more for each of its out edges. So there
/// are as many nodes on the list as there are roots and edges.
pub proof fn law_listed_per_edge(
    plan: Seq<IRModel>,
    roots: Seq<Node>,
    keys: Seq<EdgeKey>,
    links: Map<Node, EdgeKeysModel>,
    edges: Map<EdgeKey, Edge>,
    node: Node,
)
    requires
        plan.len() <= usize::MAX,
        has_graph(plan, roots),
        fresh_graph(web_of(plan, roots), keys, links, edges),
        links.contains_key(node),
    ensures
        traversal(plan, roots).to_multiset().count(node) == roots.to_multiset().count(node)
            + links[node].out_edges.len(),
        traversal(plan, roots).len() == roots.len() + edges.dom().len(),
{
    lemma_woven(plan, roots);
    lemma_links(web_of(plan, roots), keys, links, edges);
}

/// Every edge of a new graph is ordered.
pub proof fn law_new_edges_ordered(
    web: Web,
    keys: Seq<EdgeKey>,
    links: Map<Node, EdgeKeysModel>,
    edges: Map<EdgeKey, Edge>,
    key: EdgeKey,
)
    requires
        fresh_graph(web, keys, links, edges),
    ensures
        edges.contains_key(key) <==> keys.contains(key),
        edges.contains_key(key) ==> edges[key] == Edge::Ordered,
{
}

////////////////////////////////////////////////////////////////////////////////////////////////
// Visits
////////////////////////////////////////////////////////////////////////////////////////////////

/// Whether a join follows the order of its left side.
pub open spec fn follows_left(order: MaintainOrderJoin) -> bool {
    order is Left || order is LeftRight || order is RightLeft
}

/// Whether a join follows the order of its right side.
pub open spec fn follows_right(order: MaintainOrderJoin) -> bool {
    order is Right || order is LeftRight || order is RightLeft
}

/// `after` is the order `order`, or what is left of it without one side or both.
pub open spec fn lessened(order: MaintainOrderJoin, after: MaintainOrderJoin) -> bool {
    &&& follows_left(after) ==> follows_left(order)
    &&& follows_right(after) ==> follows_right(order)
    &&& follows_left(after) && follows_right(after) ==> after == order
}

/// `after` is the node `ir`, or differs from it only in that it maintains less order.
pub open spec fn eased(ir: IRModel, after: IRModel) -> bool {
    ir == after || match (ir, after) {
        (
            Plan::Sort { input, by_column, has_slice, .. },
            Plan::Sort { maintain_order, .. },
        ) => !maintain_order && after == (Plan::Sort {
            input,
            by_column,
            has_slice,
            maintain_order,
        }),
        (
            Plan::GroupBy { input, keys, aggs, is_dynamic, is_rolling, has_apply, .. },
            Plan::GroupBy { maintain_order, .. },
        ) => !maintain_order && after == (Plan::GroupBy {
            input,
            keys,
            aggs,
            maintain_order,
            is_dynamic,
            is_rolling,
            has_apply,
        }),
        (
            Plan::Distinct { input, keep_strategy, .. },
            Plan::Distinct { maintain_order, .. },
        ) => !maintain_order && after == (Plan::<Seq<Node>>::Distinct {
            input,
            maintain_order,
            keep_strategy,
        }),
        (
            Plan::Join {
                input_left,
                input_right,
                left_on,
                right_on,
                is_asof,
                maintain_order: order,
            },
            Plan::Join { maintain_order, .. },
        ) => {
            &&& lessened(order, maintain_order)
            &&& !is_asof
            &&& after == (Plan::Join {
                input_left,
                input_right,
                left_on,
                right_on,
                is_asof,
                maintain_order,
            })
        },
        (Plan::Union { inputs, .. }, Plan::Union { maintain_order, .. }) => !maintain_order
            && after == (Plan::Union { inputs, maintain_order }),
        (
            Plan::MergeSorted { input_left, input_right },
            Plan::Union { maintain_order, .. },
        ) => !maintain_order && after == (Plan::Union {
            inputs: seq![input_left, input_right],
            maintain_order,
        }),
        (Plan::Sink { input, payload }, Plan::Sink { payload: payload_after, .. }) => match (
            payload,
            payload_after,
        ) {
            (
                SinkPlan::Partitioned { key_exprs, .. },
                SinkPlan::Partitioned { maintain_order, .. },
            ) => !maintain_order && after == (Plan::Sink {
                input,
                payload: SinkPlan::Partitioned { key_exprs, maintain_order },
            }),
            (SinkPlan::Single { .. }, SinkPlan::Single { maintain_order }) => !maintain_order
                && after == (Plan::Sink::<Seq<Node>> {
                input,
                payload: SinkPlan::Single { maintain_order },
            }),
            _ => false,
        },
        _ => false,
    }
}

/// No edge becomes ordered again.
pub open spec fn relaxed(before: Map<EdgeKey, Edge>, after: Map<EdgeKey, Edge>) -> bool {
    &&& after.dom() == before.dom()
    &&& forall|key: EdgeKey|
        before.contains_key(key) && before[key] is Unordered ==> #[trigger] after[key] is Unordered
}

/// The rules only ever take order away.
proof fn lemma_outcome_eased(
    ir: IRModel,
    ins: Seq<Edge>,
    outs: Seq<Edge>,
    reply: Option<ExprReply>,
)
    requires
        arity_fits(ir, ins.len(), outs.len()),
    ensures
        ({
            let end = outcome(ir, ins, outs, reply);
            &&& end.ins.len() == ins.len()
            &&& end.outs.len() == outs.len()
            &&& forall|j: int|
                0 <= j < ins.len() && ins[j] is Unordered ==> #[trigger] end.ins[j] is Unordered
            &&& forall|i: int|
                0 <= i < outs.len() && outs[i] is Unordered ==> #[trigger] end.outs[i] is Unordered
            &&& eased(ir, end.ir)
        }),
{
}

/// A visit only takes order away: no edge becomes ordered, and of the node that it leaves in the
/// plan it changes nothing but options that ask for an order, which it switches off. A merge of
/// sorted inputs may become a union of them.
pub proof fn law_visits_only_relax(
    before: GraphState,
    node: Node,
    reply: Option<ExprReply>,
    after: GraphState,
    deleted: bool,
)
    requires
        before.can_visit(node),
        before.visited(node, reply, after, deleted),
    ensures
        relaxed(before.edges, after.edges),
        after.plan.len() == before.plan.len(),
        !deleted ==> eased(before.plan[node as int], after.plan[node as int]),
        !deleted ==> after.links == before.links,
        forall|other: int|
            0 <= other < before.plan.len() && other != node && !(deleted && other
                == before.consumer(node)) ==> #[trigger] after.plan[other] == before.plan[other],
{
    let keys = before.links[node];
    if deleted {
        assert(after.edges.dom() =~= before.edges.dom());
    } else {
        let ins = before.ins(node);
        let outs = before.outs(node);
        lemma_outcome_eased(before.plan[node as int], ins, outs, reply);
        assert forall|key: EdgeKey|
            before.edges.contains_key(key) && before.edges[key] is Unordered implies
        #[trigger] after.edges[key] is Unordered by {
            if keys.in_edges.contains(key) {
                let j = choose|j: int| 0 <= j < keys.in_edges.len() && keys.in_edges[j] == key;
                assert(edges_at(after.edges, keys.in_edges)[j] == after.edges[key]);
            } else if keys.out_edges.contains(key) {
                let i = choose|i: int| 0 <= i < keys.out_edges.len() && keys.out_edges[i] == key;
                assert(edges_at(after.edges, keys.out_edges)[i] == after.edges[key]);
            }
        }
    }
}

/// Whether the node `ir` observes the order in which the rows of its input number `j` come: its
/// own work depends on it, or it hands it on to somebody who does.
pub open spec fn observes(ir: IRModel, outs: Seq<Edge>, reply: Option<ExprReply>, j: int) -> bool {
    let orders = reply->0;
    match ir {
        Plan::Select { .. } => orders.internal.column || (orders.first.column
            && outs[0] is Ordered),
        Plan::HStack { exprs, schema_len, .. } => orders.internal.column || (orders.first.column
            && outs[0] is Ordered) || (orders.first.independent && schema_len != exprs.len()),
        Plan::Sort { maintain_order, .. } => maintain_order || orders.internal.column
            || orders.first.independent,
        Plan::Filter { .. } => orders.internal.column || orders.first.independent
            || outs[0] is Ordered,
        Plan::GroupBy { maintain_order, is_dynamic, is_rolling, has_apply, .. } => has_apply
            || is_dynamic || is_rolling || orders.internal.column || orders.first.independent || (
        orders.first.column && maintain_order),
        Plan::Distinct { maintain_order, keep_strategy, .. } => keep_strategy is First
            || keep_strategy is Last || (maintain_order && outs[0] is Ordered),
        Plan::Join { is_asof, maintain_order, .. } => is_asof || (outs[0] is Ordered && if j == 0 {
            follows_left(maintain_order)
        } else {
            follows_right(maintain_order)
        }),
        Plan::Union { maintain_order, .. } => maintain_order && outs[0] is Ordered,
        Plan::MergeSorted { .. } => outs[0] is Ordered,
        Plan::MapFunction { function, .. } => function.observes_input_order || (
        function.has_equal_order && outs[0] is Ordered),
        Plan::Cache { .. } => !none_ordered(outs),
        Plan::Sink { payload: SinkPlan::Partitioned { maintain_order, .. }, .. } => maintain_order,
        Plan::Sink { payload: SinkPlan::Single { maintain_order }, .. } => maintain_order,
        _ => true,
    }
}

/// An order that is observed is kept: a visit leaves an in edge ordered if it was and the node
/// observes the order of that input.
pub proof fn law_observed_order_kept(
    ir: IRModel,
    ins: Seq<Edge>,
    outs: Seq<Edge>,
    reply: Option<ExprReply>,
    j: int,
)
    requires
        arity_fits(ir, ins.len(), outs.len()),
        0 <= j < ins.len(),
        ins[j] is Ordered,
        observes(ir, outs, reply, j),
    ensures
        outcome(ir, ins, outs, reply).ins[j] is Ordered,
{
}

/// An order that is not observed is taken away: a visit leaves an in edge ordered only if the node
/// observes the order of that input.
///
/// A join that follows its left side, whose rows come in no order, gives up following it first and
/// lets go of the order of its right side at the next visit only.
pub proof fn law_unobserved_order_taken(
    ir: IRModel,
    ins: Seq<Edge>,
    outs: Seq<Edge>,
    reply: Option<ExprReply>,
    j: int,
)
    requires
        arity_fits(ir, ins.len(), outs.len()),
        0 <= j < ins.len(),
        !(ir matches Plan::Join { maintain_order, .. } && maintain_order is Left
            && ins[0] is Unordered && j == 1),
        !observes(ir, outs, reply, j),
    ensures
        outcome(ir, ins, outs, reply).ins[j] is Unordered,
{
}

/// Whether the rows that the node `ir` hands on can come in an order that carries information,
/// when its inputs come over the edges `ins`.
pub open spec fn supplies(ir: IRModel, ins: Seq<Edge>, reply: Option<ExprReply>) -> bool {
    let orders = reply->0;
    match ir {
        Plan::Select { .. } => orders.first.independent || (orders.first.column
            && ins[0] is Ordered),
        Plan::HStack { .. } => orders.first.independent || (orders.first.column
            && ins[0] is Ordered),
        Plan::Filter { .. } => ins[0] is Ordered,
        Plan::GroupBy { maintain_order, is_dynamic, is_rolling, has_apply, .. } => ins[0] is Ordered
            && (maintain_order || has_apply || is_dynamic || is_rolling),
        Plan::Distinct { maintain_order, .. } => maintain_order,
        Plan::Join { is_asof, maintain_order, .. } => is_asof || !(maintain_order is Neither),
        Plan::Union { maintain_order, .. } => maintain_order,
        Plan::MergeSorted { .. } => !none_ordered(ins),
        Plan::MapFunction { function, .. } => function.produces_order(ins[0] is Ordered) || (
        function.has_equal_order && ins[0] is Ordered),
        Plan::HConcat { .. }
        | Plan::SimpleProjection { .. }
        | Plan::Slice { .. }
        | Plan::ExtContext { .. }
        | Plan::Cache { .. } => !none_ordered(ins),
        _ => true,
    }
}

/// A visit leaves an out edge ordered exactly if it was and the node has an order to hand on.
pub proof fn law_out_edges_by_supply(
    ir: IRModel,
    ins: Seq<Edge>,
    outs: Seq<Edge>,
    reply: Option<ExprReply>,
    i: int,
)
    requires
        arity_fits(ir, ins.len(), outs.len()),
        0 <= i < outs.len(),
    ensures
        ({
            let end = outcome(ir, ins, outs, reply);
            end.outs[i] is Ordered <==> outs[i] is Ordered && supplies(ir, end.ins, reply)
        }),
{
}

/// An option that asks for an order outlasts a visit only where there is an order to maintain:
/// the rows come in ordered or, for a union, are to go out ordered.
pub proof fn law_options_backed(
    ir: IRModel,
    ins: Seq<Edge>,
    outs: Seq<Edge>,
    reply: Option<ExprReply>,
)
    requires
        arity_fits(ir, ins.len(), outs.len()),
    ensures
        ({
            let end = outcome(ir, ins, outs, reply);
            match end.ir {
                Plan::Sort { maintain_order, .. } => maintain_order ==> end.ins[0] is Ordered,
                Plan::GroupBy { maintain_order, .. } => maintain_order ==> end.ins[0] is Ordered,
                Plan::Distinct { maintain_order, .. } => maintain_order ==> end.ins[0] is Ordered,
                Plan::Join { is_asof, maintain_order, .. } => {
                    &&& !is_asof && follows_left(maintain_order) ==> end.ins[0] is Ordered
                    &&& !is_asof && follows_right(maintain_order) ==> end.ins[1] is Ordered
                },
                Plan::Union { maintain_order, .. } => maintain_order ==> end.outs[0] is Ordered,
                Plan::Sink { payload, .. } => match payload {
                    SinkPlan::Partitioned { maintain_order, .. } => maintain_order
                        ==> end.ins[0] is Ordered,
                    SinkPlan::Single { maintain_order } => maintain_order
                        ==> end.ins[0] is Ordered,
                },
                _ => true,
            }
        }),
{
}

/// A union whose order is wanted keeps it even if none of its inputs is ordered: the rows of each
/// input still stand before those of the next.
pub proof fn law_union_stays_ordered(inputs: Seq<Node>, ins: Seq<Edge>, outs: Seq<Edge>)
    requires
        outs.len() == 1,
        outs[0] is Ordered,
    ensures
        ({
            let ir = Plan::Union { inputs, maintain_order: true };
            let end = outcome(ir, ins, outs, None);
            end.ir == ir && end.ins == ins && end.outs == outs
        }),
{
}

/// When a visit deletes a node, its consumer reads from the node's input instead, over the edge
/// over which it read from the node, and no node that stays in the plan reads from the deleted one
/// over any edge.
pub proof fn law_deletion_bypasses(
    before: GraphState,
    leads: Map<u128, Node>,
    live: Set<Node>,
    node: Node,
    reply: Option<ExprReply>,
    after: GraphState,
)
    requires
        wired(before, leads, live),
        live.contains(node),
        before.visited(node, reply, after, true),
    ensures
        ({
            let input = before.plan[node as int].inputs()[0];
            let consumer = before.consumer(node);
            let slot = before.consumer_slot(node);
            let key = before.links[consumer].in_edges[slot];
            &&& live.contains(consumer) && live.contains(input)
            &&& key == before.links[node].out_edges[0]
            &&& after.links[consumer].in_edges == before.links[consumer].in_edges
            &&& after.edges[key] == before.edges[key]
            &&& after.plan[consumer as int].inputs()
                == before.plan[consumer as int].inputs().update(slot, input)
            &&& exists|i: int| #[trigger] tied(after, leads, consumer, slot, input, i)
        }),
        forall|other: Node, j: int|
            live.contains(other) && other != node && 0 <= j < after.links[other].in_edges.len()
                ==> #[trigger] feeds(after.plan, leads, other)[j] != node,
{
    let input = before.plan[node as int].inputs()[0];
    let consumer = before.consumer(node);
    let slot = before.consumer_slot(node);
    let rest = live.remove(node);
    lemma_can_unlink(before, leads, live, node);
    lemma_visited_wired(before, leads, live, node, reply, after, true);
    lemma_with_input(before.plan[consumer as int], slot, input);
    lemma_apart(before, leads, live, node);
    assert(held_below(after, leads, rest, consumer, slot));
    assert forall|other: Node, j: int|
        live.contains(other) && other != node && 0 <= j < after.links[other].in_edges.len()
            implies #[trigger] feeds(after.plan, leads, other)[j] != node by {
        assert(held_below(after, leads, rest, other, j));
    }
}

////////////////////////////////////////////////////////////////////////////////////////////////
// Passes
////////////////////////////////////////////////////////////////////////////////////////////////

/// The step that is next visits a node.
pub open spec fn visits(pass: PassState) -> bool {
    !pass.finished() && !pass.skips() && !pass.has_aggs()
}

/// The orders that a reply tells of.
pub open spec fn orders_in(reply: Reply) -> Option<ExprReply> {
    match reply {
        Reply::Orders(orders) => Some(orders),
        _ => None,
    }
}

/// How many steps the positions from `pos` on can take: for each of them one, and two for each
/// aggregation.
pub open spec fn span(plan: Seq<IRModel>, nodes: Seq<Node>, pos: nat) -> nat
    decreases 2 * nodes.len() - pos,
{
    if pos >= 2 * nodes.len() {
        0
    } else {
        let at = if pos < nodes.len() {
            pos as int
        } else {
            2 * nodes.len() - 1 - pos
        };
        1 + 2 * aggs_of(plan[nodes[at] as int]).len() + span(plan, nodes, pos + 1)
    }
}

/// How many steps a pass can still take.
pub open spec fn effort(pass: PassState) -> int {
    span(pass.graph.plan, pass.nodes, pass.pos) - 2 * pass.aggs_done - if pass.implode {
        1int
    } else {
        0int
    }
}

proof fn lemma_span_same(
    plan: Seq<IRModel>,
    after: Seq<IRModel>,
    nodes: Seq<Node>,
    pos: nat,
)
    requires
        forall|p: int| 0 <= p < nodes.len() ==> (#[trigger] nodes[p]) < plan.len(),
        forall|other: int|
            0 <= other < plan.len() ==> aggs_of(#[trigger] after[other]).len() == aggs_of(
                plan[other],
            ).len(),
    ensures
        span(plan, nodes, pos) == span(after, nodes, pos),
    decreases 2 * nodes.len() - pos,
{
    if pos < 2 * nodes.len() {
        lemma_span_same(plan, after, nodes, pos + 1);
    }
}

proof fn lemma_aggs_kept(
    before: GraphState,
    leads: Map<u128, Node>,
    live: Set<Node>,
    node: Node,
    reply: Option<ExprReply>,
    after: GraphState,
    deleted: bool,
)
    requires
        wired(before, leads, live),
        live.contains(node),
        before.visited(node, reply, after, deleted),
    ensures
        forall|other: int|
            0 <= other < before.plan.len() ==> aggs_of(#[trigger] after.plan[other]).len()
                == aggs_of(before.plan[other]).len(),
{
    if deleted {
        lemma_can_unlink(before, leads, live, node);
    } else {
        lemma_outcome_eased(
            before.plan[node as int],
            before.ins(node),
            before.outs(node),
            reply,
        );
    }
}

/// Every step brings a pass nearer to its end.
pub proof fn law_steps_descend(pass: PassState, reply: Reply, after: PassState)
    requires
        pass.inv(),
        pass.takes(reply),
        pass.stepped(reply, after),
    ensures
        0 <= effort(after) < effort(pass),
{
    let plan = pass.graph.plan;
    lemma_step_inv(pass, reply, after);
    if !pass.skips() {
        lemma_up(pass);
        if pass.has_aggs() {
            lemma_span_same(plan, after.graph.plan, pass.nodes, pass.pos);
        } else {
            lemma_aggs_kept(
                pass.graph,
                pass.leads,
                pass.live,
                pass.node(),
                orders_in(reply),
                after.graph,
                pass.graph.removes(pass.node()),
            );
            lemma_span_same(plan, after.graph.plan, pass.nodes, pass.pos);
        }
    }
}

/// A pass that has not ended can go on: there is an answer that it takes. One that has ended takes
/// none.
pub proof fn law_never_stuck(pass: PassState)
    requires
        pass.inv(),
    ensures
        pass.finished() <==> !exists|reply: Reply| #[trigger] pass.takes(reply),
{
    if !pass.finished() {
        let none = ObservableOrders { independent: false, column: false };
        let reply = match pass.request() {
            Wanted::IsScalar(_) => Reply::IsScalar(true),
            Wanted::AddImplode(_) => Reply::Added(0),
            Wanted::Simplify(_) => Reply::Orders(
                ExprReply { first: none, second: none, internal: none },
            ),
            _ => Reply::Proceed,
        };
        assert(pass.takes(reply));
    }
}

/// `passes` are the states that a pass goes through when it gets `replies` for answers.
pub open spec fn is_run(passes: Seq<PassState>, replies: Seq<Reply>) -> bool {
    &&& passes.len() == replies.len() + 1
    &&& passes[0].inv()
    &&& forall|i: int|
        0 <= i < replies.len() ==> (#[trigger] passes[i]).takes(replies[i]) && passes[i].stepped(
            replies[i],
            passes[i + 1],
        )
}

/// Whatever the answers, all along a run the edges have two ends that fit, and each node that is
/// visited is in the plan.
pub proof fn law_runs_stay_wired(passes: Seq<PassState>, replies: Seq<Reply>, i: int)
    requires
        is_run(passes, replies),
        0 <= i < passes.len(),
    ensures
        passes[i].inv(),
        wired(passes[i].graph, passes[i].leads, passes[i].live),
        visits(passes[i]) ==> passes[i].live.contains(passes[i].node()),
    decreases i,
{
    if i > 0 {
        law_runs_stay_wired(passes, replies, i - 1);
        let before = passes[i - 1];
        lemma_step_inv(before, replies[i - 1], passes[i]);
    }
    if visits(passes[i]) {
        lemma_up(passes[i]);
    }
}

/// Whether a node other than a join is to bring its rows into an order, or to keep them in one.
pub open spec fn maintains(ir: IRModel) -> bool {
    match ir {
        Plan::Sort { maintain_order, .. } => maintain_order,
        Plan::GroupBy { maintain_order, .. } => maintain_order,
        Plan::Distinct { maintain_order, .. } => maintain_order,
        Plan::Union { maintain_order, .. } => maintain_order,
        Plan::MergeSorted { .. } => true,
        Plan::Sink { payload: SinkPlan::Partitioned { maintain_order, .. }, .. } => maintain_order,
        Plan::Sink { payload: SinkPlan::Single { maintain_order }, .. } => maintain_order,
        _ => false,
    }
}

/// What `after` is to do about the order of rows, `ir` is to do as well: a join follows no side
/// that it did not follow, nor another side first, and of other nodes none is to maintain an order
/// that was not.
pub open spec fn asks_no_more(ir: IRModel, after: IRModel) -> bool {
    match (ir, after) {
        (Plan::Join { maintain_order: order, .. }, Plan::Join { maintain_order, .. }) => {
            lessened(order, maintain_order)
        },
        (_, Plan::Join { .. }) => false,
        _ => maintains(after) ==> maintains(ir),
    }
}

/// All along a run no edge becomes ordered again, no option that asks for an order is switched
/// on, no node comes back into the plan, and the list of nodes stays what it was.
pub proof fn law_runs_only_relax(passes: Seq<PassState>, replies: Seq<Reply>, i: int, j: int)
    requires
        is_run(passes, replies),
        0 <= i <= j < passes.len(),
    ensures
        relaxed(passes[i].graph.edges, passes[j].graph.edges),
        passes[j].graph.plan.len() == passes[i].graph.plan.len(),
        forall|n: int|
            0 <= n < passes[i].graph.plan.len() ==> asks_no_more(
                passes[i].graph.plan[n],
                #[trigger] passes[j].graph.plan[n],
            ),
        passes[j].live.subset_of(passes[i].live),
        passes[j].nodes == passes[i].nodes,
        passes[i].pos <= passes[j].pos,
        i < j && !(passes[i].has_aggs() && !passes[i].skips()) ==> passes[i].pos < passes[j].pos,
    decreases j - i,
{
    if i < j {
        law_runs_stay_wired(passes, replies, i);
        law_runs_only_relax(passes, replies, i + 1, j);
        let pass = passes[i];
        let after = passes[i + 1];
        let reply = replies[i];
        if visits(pass) {
            lemma_up(pass);
            law_visits_only_relax(
                pass.graph,
                pass.node(),
                orders_in(reply),
                after.graph,
                pass.graph.removes(pass.node()),
            );
            if pass.graph.removes(pass.node()) {
                lemma_can_unlink(pass.graph, pass.leads, pass.live, pass.node());
            }
        }
    }
}

/// The step from `pass` to `after` visits a node at one end of the edge `key` which does not
/// observe the order of that input, has no order to hand on, or leaves the plan.
pub open spec fn lets_go(pass: PassState, reply: Reply, after: PassState, key: EdgeKey) -> bool {
    let node = pass.node();
    let keys = pass.graph.links[node];
    let outs = pass.graph.outs(node);
    &&& visits(pass)
    &&& {
        ||| exists|j: int|
            0 <= j < keys.in_edges.len() && #[trigger] keys.in_edges[j] == key && (
            pass.graph.removes(node) || !observes(pass.ir(), outs, orders_in(reply), j))
        ||| exists|i: int|
            0 <= i < keys.out_edges.len() && #[trigger] keys.out_edges[i] == key && !supplies(
                pass.ir(),
                after.graph.ins(node),
                orders_in(reply),
            )
    }
}

proof fn lemma_lets_go(pass: PassState, reply: Reply, after: PassState, key: EdgeKey)
    requires
        pass.inv(),
        pass.takes(reply),
        pass.stepped(reply, after),
        pass.graph.edges.contains_key(key),
        pass.graph.edges[key] is Ordered,
        after.graph.edges[key] is Unordered,
    ensures
        lets_go(pass, reply, after, key),
{
    if !pass.skips() && !pass.has_aggs() {
        lemma_up(pass);
        let node = pass.node();
        let keys = pass.graph.links[node];
        let ins = pass.graph.ins(node);
        let outs = pass.graph.outs(node);
        if pass.graph.removes(node) {
            assert(keys.in_edges[0] == key);
        } else if keys.in_edges.contains(key) {
            let j = choose|j: int| 0 <= j < keys.in_edges.len() && keys.in_edges[j] == key;
            assert(edges_at(after.graph.edges, keys.in_edges)[j] == after.graph.edges[key]);
            if observes(pass.ir(), outs, orders_in(reply), j) {
                law_observed_order_kept(pass.ir(), ins, outs, orders_in(reply), j);
            }
        } else {
            assert(keys.out_edges.contains(key));
            let i = choose|i: int| 0 <= i < keys.out_edges.len() && keys.out_edges[i] == key;
            assert(edges_at(after.graph.edges, keys.out_edges)[i] == after.graph.edges[key]);
            law_out_edges_by_supply(pass.ir(), ins, outs, orders_in(reply), i);
        }
    }
}

/// A run takes an order away only where nobody observes it or where there is none: if an edge is
/// ordered at first and unordered later, a visit in between let go of it.
pub proof fn law_runs_take_only_unobserved_order(
    passes: Seq<PassState>,
    replies: Seq<Reply>,
    i: int,
    j: int,
    key: EdgeKey,
) -> (k: int)
    requires
        is_run(passes, replies),
        0 <= i <= j < passes.len(),
        passes[i].graph.edges.contains_key(key),
        passes[i].graph.edges[key] is Ordered,
        passes[j].graph.edges[key] is Unordered,
    ensures
        i <= k < j,
        lets_go(passes[k], replies[k], passes[k + 1], key),
    decreases j - i,
{
    law_runs_only_relax(passes, replies, i, j - 1);
    law_runs_stay_wired(passes, replies, j - 1);
    if passes[j - 1].graph.edges[key] is Unordered {
        law_runs_take_only_unobserved_order(passes, replies, i, j - 1, key)
    } else {
        lemma_lets_go(passes[j - 1], replies[j - 1], passes[j], key);
        j - 1
    }
}

/// A node that a visit deletes is never visited again.
pub proof fn law_deleted_for_good(passes: Seq<PassState>, replies: Seq<Reply>, i: int, j: int)
    requires
        is_run(passes, replies),
        0 <= i < j < passes.len(),
        visits(passes[i]),
        passes[i].graph.removes(passes[i].node()),
        visits(passes[j]),
    ensures
        passes[j].node() != passes[i].node(),
{
    law_runs_stay_wired(passes, replies, j);
    law_runs_only_relax(passes, replies, i + 1, j);
}

/// A run is no longer than the effort that its start announces.
pub proof fn law_runs_end(passes: Seq<PassState>, replies: Seq<Reply>)
    requires
        is_run(passes, replies),
    ensures
        replies.len() <= effort(passes[0]),
{
    lemma_run_effort(passes, replies, replies.len() as int);
}

proof fn lemma_run_effort(passes: Seq<PassState>, replies: Seq<Reply>, i: int)
    requires
        is_run(passes, replies),
        0 <= i < passes.len(),
    ensures
        i + effort(passes[i]) <= effort(passes[0]),
        effort(passes[i]) >= 0,
    decreases i,
{
    if i > 0 {
        lemma_run_effort(passes, replies, i - 1);
        law_runs_stay_wired(passes, replies, i - 1);
        let before = passes[i - 1];
        law_steps_descend(before, replies[i - 1], passes[i]);
    }
}

/// In each direction a position is visited at most once.
pub proof fn law_no_second_visit(passes: Seq<PassState>, replies: Seq<Reply>, i: int, j: int)
    requires
        is_run(passes, replies),
        0 <= i < j < passes.len(),
        visits(passes[i]),
        visits(passes[j]),
        passes[i].pos < passes[i].nodes.len() <==> passes[j].pos < passes[j].nodes.len(),
    ensures
        passes[i].idx() != passes[j].idx(),
{
    law_runs_only_relax(passes, replies, i, j);
}

/// A run leaves no position out: each that it has come past was visited, its node being in the
/// plan, or its node had been deleted.
pub proof fn law_no_position_left_out(passes: Seq<PassState>, replies: Seq<Reply>, pos: nat) -> (i:
    int)
    requires
        is_run(passes, replies),
        passes[0].pos <= pos < passes.last().pos,
    ensures
        0 <= i < replies.len(),
        passes[i].pos == pos,
        visits(passes[i]) && passes[i].live.contains(passes[i].node()) || passes[i].skips()
            && !passes[i].live.contains(passes[i].node()),
{
    let i = lemma_pos_left(passes, replies, pos, replies.len() as int);
    law_runs_stay_wired(passes, replies, i);
    i
}

/// The step with which a run leaves a position.
proof fn lemma_pos_left(passes: Seq<PassState>, replies: Seq<Reply>, pos: nat, upto: int) -> (i:
    int)
    requires
        is_run(passes, replies),
        0 <= upto < passes.len(),
        passes[0].pos <= pos < passes[upto].pos,
    ensures
        0 <= i < upto,
        passes[i].pos == pos,
        passes[i + 1].pos > pos,
    decreases upto,
{
    let before = passes[upto - 1];
    if before.pos > pos {
        lemma_pos_left(passes, replies, pos, upto - 1)
    } else {
        upto - 1
    }
}

////////////////////////////////////////////////////////////////////////////////////////////////
// What becomes of a plan
////////////////////////////////////////////////////////////////////////////////////////////////

/// Whether a node is a sort of all rows.
pub open spec fn sorts_all(ir: IRModel) -> bool {
    ir matches Plan::Sort { has_slice, .. } && !has_slice
}

/// As many nodes, told apart no longer.
pub open spec fn blank(nodes: Seq<Node>) -> Seq<Node> {
    Seq::new(nodes.len(), |i: int| 0usize)
}

/// What a pass leaves alone of a node: its kind, and all that it holds but its inputs, the options
/// that ask for an order, and its aggregations.
pub open spec fn lasting(ir: IRModel) -> IRModel {
    match ir {
        Plan::Select { expr, .. } => Plan::Select { input: 0, expr },
        Plan::HStack { exprs, schema_len, .. } => Plan::HStack { input: 0, exprs, schema_len },
        Plan::Sort { by_column, has_slice, .. } => Plan::Sort {
            input: 0,
            by_column,
            has_slice,
            maintain_order: false,
        },
        Plan::Filter { predicate, .. } => Plan::Filter { input: 0, predicate },
        Plan::GroupBy { keys, aggs, is_dynamic, is_rolling, has_apply, .. } => Plan::GroupBy {
            input: 0,
            keys,
            aggs: blank(aggs),
            maintain_order: false,
            is_dynamic,
            is_rolling,
            has_apply,
        },
        Plan::Distinct { keep_strategy, .. } => Plan::Distinct {
            input: 0,
            maintain_order: false,
            keep_strategy,
        },
        Plan::Join { left_on, right_on, is_asof, .. } => Plan::Join {
            input_left: 0,
            input_right: 0,
            left_on,
            right_on,
            is_asof,
            maintain_order: MaintainOrderJoin::Neither,
        },
        Plan::Union { inputs, .. } => Plan::Union { inputs: blank(inputs), maintain_order: false },
        Plan::MergeSorted { .. } => Plan::MergeSorted { input_left: 0, input_right: 0 },
        Plan::MapFunction { function, .. } => Plan::MapFunction { input: 0, function },
        Plan::HConcat { inputs } => Plan::HConcat { inputs: blank(inputs) },
        Plan::SimpleProjection { .. } => Plan::SimpleProjection { input: 0 },
        Plan::Slice { .. } => Plan::Slice { input: 0 },
        Plan::ExtContext { inputs } => Plan::ExtContext { inputs: blank(inputs) },
        Plan::Cache { id, .. } => Plan::Cache { input: 0, id },
        Plan::Sink { payload: SinkPlan::Partitioned { key_exprs, .. }, .. } => Plan::Sink {
            input: 0,
            payload: SinkPlan::Partitioned { key_exprs, maintain_order: false },
        },
        Plan::Sink { payload: SinkPlan::Single { .. }, .. } => Plan::Sink {
            input: 0,
            payload: SinkPlan::Single { maintain_order: false },
        },
        Plan::SinkMultiple { inputs } => Plan::SinkMultiple { inputs: blank(inputs) },
        Plan::Scan | Plan::DataFrameScan | Plan::PythonScan | Plan::Invalid => ir,
    }
}

/// `after` is of the kind of `ir` and holds the same but for inputs, options that ask for an order,
/// and aggregations; or `ir` merges two sorted inputs and `after` is a union of two.
pub open spec fn keeps_kind(ir: IRModel, after: IRModel) -> bool {
    lasting(after) == lasting(ir) || (ir is MergeSorted && lasting(after) == lasting(
        Plan::Union { inputs: ir.inputs(), maintain_order: false },
    ))
}

/// `path` leads from each node but the last, all of which are `gone`, to its input.
pub open spec fn passes_over(plan: Seq<IRModel>, gone: Set<Node>, path: Seq<Node>) -> bool {
    &&& path.len() > 0
    &&& forall|t: int|
        0 <= t < path.len() - 1 ==> gone.contains(#[trigger] path[t])
            && plan[path[t] as int].inputs()[0] == path[t + 1]
}

/// `to` is `from` or, as far as that is `gone`, the first node below it that is not.
pub open spec fn stands_in(
    plan: Seq<IRModel>,
    gone: Set<Node>,
    from: Node,
    to: Node,
) -> bool {
    !gone.contains(to) && exists|path: Seq<Node>| #[trigger]
        passes_over(plan, gone, path) && path[0] == from && path.last() == to
}

/// What one step does to the plan: it deletes the node `gone`, whose consumer then reads from its
/// input, or it leaves all inputs as they are.
spec fn shifted(before: PassState, after: PassState, deletes: bool) -> bool {
    let node = before.node();
    let consumer = before.graph.consumer(node);
    let slot = before.graph.consumer_slot(node);
    let plan = before.graph.plan;
    &&& after.leads == before.leads
    &&& after.graph.plan.len() == plan.len()
    &&& same_caches(plan, after.graph.plan)
    &&& forall|n: int|
        0 <= n < plan.len() ==> keeps_kind(plan[n], #[trigger] after.graph.plan[n])
    &&& forall|n: Node|
        n < plan.len() && !before.live.contains(n) ==> #[trigger] after.graph.plan[n as int]
            == plan[n as int]
    &&& if deletes {
        &&& after.live == before.live.remove(node)
        &&& before.live.contains(node)
        &&& node < plan.len()
        &&& sorts_all(plan[node as int])
        &&& consumer != node
        &&& 0 <= slot < plan[consumer as int].inputs().len()
        &&& plan[consumer as int].inputs()[slot] == node
        &&& !is_copy(plan, before.leads, consumer)
        &&& forall|n: int|
            0 <= n < plan.len() ==> (#[trigger] after.graph.plan[n]).inputs() == if n == consumer {
                plan[n].inputs().update(slot, plan[node as int].inputs()[0])
            } else {
                plan[n].inputs()
            }
    } else {
        &&& after.live == before.live
        &&& forall|n: int|
            0 <= n < plan.len() ==> (#[trigger] after.graph.plan[n]).inputs() == plan[n].inputs()
    }
}

proof fn lemma_outcome_kind(
    ir: IRModel,
    ins: Seq<Edge>,
    outs: Seq<Edge>,
    reply: Option<ExprReply>,
)
    ensures
        keeps_kind(ir, outcome(ir, ins, outs, reply).ir),
{
}

proof fn lemma_shifted(pass: PassState, reply: Reply, after: PassState) -> (deletes: bool)
    requires
        pass.inv(),
        pass.takes(reply),
        pass.stepped(reply, after),
    ensures
        shifted(pass, after, deletes),
        deletes == (visits(pass) && pass.graph.removes(pass.node())),
{
    if pass.skips() {
        false
    } else {
        lemma_up(pass);
        let plan = pass.graph.plan;
        let node = pass.node();
        if pass.has_aggs() {
            false
        } else {
            let deletes = pass.graph.removes(node);
            lemma_visited_shape(
                pass.graph,
                pass.leads,
                pass.live,
                node,
                orders_in(reply),
                after.graph,
                deletes,
            );
            if deletes {
                let consumer = pass.graph.consumer(node);
                let slot = pass.graph.consumer_slot(node);
                let input = plan[node as int].inputs()[0];
                assert(placed(pass.graph, pass.leads, node));
                lemma_can_unlink(pass.graph, pass.leads, pass.live, node);
                assert(placed(pass.graph, pass.leads, consumer));
                lemma_with_input(plan[consumer as int], slot, input);
            } else {
                lemma_outcome_shape(
                    plan[node as int],
                    pass.graph.ins(node),
                    pass.graph.outs(node),
                    orders_in(reply),
                );
                lemma_outcome_kind(
                    plan[node as int],
                    pass.graph.ins(node),
                    pass.graph.outs(node),
                    orders_in(reply),
                );
            }
            deletes
        }
    }
}

/// What a run makes of a plan: every node that has left it was a sort of all rows; every other
/// keeps its kind and what it holds apart from inputs, options that ask for an order and
/// aggregations, or was a merge of sorted inputs and is a union; and it reads from its old inputs,
/// or from what those that have left the plan read from. Nodes outside the plan stay what they
/// were.
///
/// A copy of a cache has no edge to its input, which stays.
pub proof fn law_runs_drop_only_sorts(passes: Seq<PassState>, replies: Seq<Reply>, i: int, j: int)
    requires
        is_run(passes, replies),
        0 <= i <= j < passes.len(),
    ensures
        ({
            let plan = passes[i].graph.plan;
            let after = passes[j].graph.plan;
            let leads = passes[i].leads;
            let gone = passes[i].live.difference(passes[j].live);
            &&& after.len() == plan.len()
            &&& passes[j].leads == leads
            &&& passes[j].live.subset_of(passes[i].live)
            &&& forall|n: Node| #[trigger] gone.contains(n) ==> sorts_all(plan[n as int])
            &&& forall|n: Node|
                n < plan.len() && !passes[i].live.contains(n) ==> #[trigger] after[n as int]
                    == plan[n as int]
            &&& forall|n: int| 0 <= n < plan.len() ==> keeps_kind(plan[n], #[trigger] after[n])
            &&& forall|n: int|
                0 <= n < plan.len() ==> (#[trigger] after[n]).inputs().len()
                    == plan[n].inputs().len()
            &&& forall|n: Node, k: int|
                passes[j].live.contains(n) && 0 <= k < plan[n as int].inputs().len() ==> {
                    let old_input = plan[n as int].inputs()[k];
                    let input = #[trigger] after[n as int].inputs()[k];
                    if is_copy(plan, leads, n) {
                        input == old_input
                    } else {
                        passes[j].live.contains(input) && stands_in(plan, gone, old_input, input)
                    }
                }
        }),
{
    lemma_became(passes, replies, i, j);
    let plan = passes[i].graph.plan;
    let after = passes[j].graph.plan;
    let leads = passes[i].leads;
    let gone = passes[i].live.difference(passes[j].live);
    law_runs_stay_wired(passes, replies, j);
    assert forall|n: Node, k: int|
        passes[j].live.contains(n) && 0 <= k < plan[n as int].inputs().len() implies {
        let old_input = plan[n as int].inputs()[k];
        let input = #[trigger] after[n as int].inputs()[k];
        if is_copy(plan, leads, n) {
            input == old_input
        } else {
            passes[j].live.contains(input) && stands_in(plan, gone, old_input, input)
        }
    } by {
        assert(placed(passes[j].graph, leads, n));
        lemma_same_heads(plan, after, leads, n);
        assert(input_traced(passes[i], passes[j], n, k));
        if !is_copy(plan, leads, n) {
            assert(held_below(passes[j].graph, leads, passes[j].live, n, k));
        }
    }
}

/// Some path leads from `from`, over nodes that are `gone`, to `to`.
spec fn is_traced(plan: Seq<IRModel>, gone: Set<Node>, from: Node, to: Node) -> bool {
    exists|path: Seq<Node>| #[trigger]
        passes_over(plan, gone, path) && path[0] == from && path.last() == to
}

/// What becomes of the input number `k` of the node `n`.
spec fn input_traced(first: PassState, last: PassState, n: Node, k: int) -> bool {
    let from = first.graph.plan[n as int].inputs()[k];
    let to = last.graph.plan[n as int].inputs()[k];
    &&& is_traced(first.graph.plan, first.live.difference(last.live), from, to)
    &&& is_copy(first.graph.plan, first.leads, n) ==> to == from
}

/// What becomes of a plan between two states of a run.
spec fn became(first: PassState, last: PassState) -> bool {
    let plan = first.graph.plan;
    let after = last.graph.plan;
    &&& last.leads == first.leads
    &&& same_caches(plan, after)
    &&& last.live.subset_of(first.live)
    &&& forall|n: Node|
        first.live.contains(n) && !#[trigger] last.live.contains(n) ==> sorts_all(plan[n as int])
    &&& forall|n: Node|
        n < plan.len() && !first.live.contains(n) ==> #[trigger] after[n as int] == plan[n as int]
    &&& forall|n: int| 0 <= n < plan.len() ==> keeps_kind(plan[n], #[trigger] after[n])
    &&& forall|n: int|
        0 <= n < plan.len() ==> (#[trigger] after[n]).inputs().len() == plan[n].inputs().len()
    &&& forall|n: Node, k: int|
        n < plan.len() && 0 <= k < plan[n as int].inputs().len() ==> #[trigger] input_traced(
            first,
            last,
            n,
            k,
        )
}

proof fn lemma_traced_more(
    plan: Seq<IRModel>,
    some: Set<Node>,
    more: Set<Node>,
    from: Node,
    to: Node,
)
    requires
        some.subset_of(more),
        is_traced(plan, some, from, to),
    ensures
        is_traced(plan, more, from, to),
{
    let path = choose|path: Seq<Node>| #[trigger]
        passes_over(plan, some, path) && path[0] == from && path.last() == to;
    assert(passes_over(plan, more, path));
}

/// A path to a node that is gone goes on below it.
proof fn lemma_traced_on(plan: Seq<IRModel>, gone: Set<Node>, from: Node, node: Node, to: Node)
    requires
        gone.contains(node),
        is_traced(plan, gone, from, node),
        is_traced(plan, gone, plan[node as int].inputs()[0], to),
    ensures
        is_traced(plan, gone, from, to),
{
    let above = choose|path: Seq<Node>| #[trigger]
        passes_over(plan, gone, path) && path[0] == from && path.last() == node;
    let below = choose|path: Seq<Node>| #[trigger]
        passes_over(plan, gone, path) && path[0] == plan[node as int].inputs()[0] && path.last()
            == to;
    let path = above + below;
    assert forall|t: int| 0 <= t < path.len() - 1 implies gone.contains(#[trigger] path[t])
        && plan[path[t] as int].inputs()[0] == path[t + 1] by {
        if t < above.len() {
            assert(path[t] == above[t]);
            if t + 1 < above.len() {
                assert(path[t + 1] == above[t + 1]);
            }
        } else {
            assert(path[t] == below[t - above.len()]);
            assert(path[t + 1] == below[t + 1 - above.len()]);
        }
    }
    assert(passes_over(plan, gone, path));
    assert(path[0] == above[0]);
    assert(path.last() == below.last());
}

proof fn lemma_input_traced(
    first: PassState,
    mid: PassState,
    last: PassState,
    deletes: bool,
    n: Node,
    k: int,
)
    requires
        became(first, mid),
        shifted(mid, last, deletes),
        n < first.graph.plan.len(),
        0 <= k < first.graph.plan[n as int].inputs().len(),
    ensures
        input_traced(first, last, n, k),
{
    let plan = first.graph.plan;
    let node = mid.node();
    let earlier = first.live.difference(mid.live);
    let gone = first.live.difference(last.live);
    let from = plan[n as int].inputs()[k];
    let between = mid.graph.plan[n as int].inputs()[k];
    assert(input_traced(first, mid, n, k));
    assert(last.graph.plan[n as int].inputs().len() == mid.graph.plan[n as int].inputs().len());
    lemma_same_heads(plan, mid.graph.plan, first.leads, n);
    lemma_traced_more(plan, earlier, gone, from, between);
    if deletes && n == mid.graph.consumer(node) && k == mid.graph.consumer_slot(node) {
        assert(keeps_kind(plan[node as int], mid.graph.plan[node as int]));
        assert(input_traced(first, mid, node, 0));
        let to = mid.graph.plan[node as int].inputs()[0];
        lemma_traced_more(plan, earlier, gone, plan[node as int].inputs()[0], to);
        lemma_traced_on(plan, gone, from, node, to);
    } else {
        assert(last.graph.plan[n as int].inputs()[k] == between);
    }
}

proof fn lemma_became_on(first: PassState, mid: PassState, last: PassState, deletes: bool)
    requires
        became(first, mid),
        shifted(mid, last, deletes),
    ensures
        became(first, last),
{
    let plan = first.graph.plan;
    assert forall|n: Node, k: int|
        n < plan.len() && 0 <= k < plan[n as int].inputs().len() implies #[trigger] input_traced(
        first,
        last,
        n,
        k,
    ) by {
        lemma_input_traced(first, mid, last, deletes, n, k);
    }
    assert forall|n: int| 0 <= n < plan.len() implies keeps_kind(
        plan[n],
        #[trigger] last.graph.plan[n],
    ) && last.graph.plan[n].inputs().len() == plan[n].inputs().len() by {
        assert(keeps_kind(plan[n], mid.graph.plan[n]));
        assert(keeps_kind(mid.graph.plan[n], last.graph.plan[n]));
    }
    assert(same_caches(plan, last.graph.plan)) by {
        assert forall|n: int, id: u128| 0 <= n < plan.len() implies (#[trigger] caches(
            last.graph.plan[n],
            id,
        ) <==> caches(plan[n], id)) by {
            assert(caches(mid.graph.plan[n], id) <==> caches(plan[n], id));
        }
    }
    assert forall|n: Node|
        first.live.contains(n) && !#[trigger] last.live.contains(n) implies sorts_all(
        plan[n as int],
    ) by {
        if mid.live.contains(n) {
            assert(keeps_kind(plan[n as int], mid.graph.plan[n as int]));
        }
    }
}

proof fn lemma_became(passes: Seq<PassState>, replies: Seq<Reply>, i: int, j: int)
    requires
        is_run(passes, replies),
        0 <= i <= j < passes.len(),
    ensures
        became(passes[i], passes[j]),
    decreases j - i,
{
    if i == j {
        let plan = passes[i].graph.plan;
        assert forall|n: Node, k: int|
            n < plan.len() && 0 <= k < plan[n as int].inputs().len() implies #[trigger]
        input_traced(passes[i], passes[j], n, k) by {
            let path = seq![plan[n as int].inputs()[k]];
            assert(passes_over(plan, passes[i].live.difference(passes[j].live), path));
            assert(path.last() == path[0]);
        }
    } else {
        lemma_became(passes, replies, i, j - 1);
        law_runs_stay_wired(passes, replies, j - 1);
        let deletes = lemma_shifted(passes[j - 1], replies[j - 1], passes[j]);
        lemma_became_on(passes[i], passes[j - 1], passes[j], deletes);
    }
}

/// No root leaves the plan.
pub proof fn law_roots_stay(
    plan: Seq<IRModel>,
    roots: Seq<Node>,
    passes: Seq<PassState>,
    replies: Seq<Reply>,
    j: int,
    r: int,
)
    requires
        plan.len() <= usize::MAX,
        simplifiable(plan, roots),
        is_run(passes, replies),
        started(plan, roots, passes[0]),
        0 <= j < passes.len(),
        0 <= r < roots.len(),
    ensures
        passes[j].live.contains(roots[r]),
{
    let web = web_of(plan, roots);
    let root = roots[r];
    let first = passes[0];
    lemma_woven(plan, roots);
    let keys = choose|keys: Seq<EdgeKey>| #[trigger]
        fresh_graph(web, keys, first.graph.links, first.graph.edges);
    lemma_fresh_wired(web, keys, first.graph.links, first.graph.edges);
    lemma_listing(web);
    assert(listing(web)[r] == root);
    assert(first.graph.links.contains_key(root));
    lemma_became(passes, replies, 0, j);
    if !passes[j].live.contains(root) {
        let gone = first.live.difference(passes[j].live);
        assert(gone.contains(root));
        assert(web.opened.contains(web.head(web.roots[r])));
        lemma_at_hits(web, roots, root, r);
        assert(web.uses(root) <= 1);
    }
}

////////////////////////////////////////////////////////////////////////////////////////////////
// What a finished pass leaves behind
////////////////////////////////////////////////////////////////////////////////////////////////

/// Whether the order of its inputs makes no difference to a node, whoever reads from it.
pub open spec fn asks_nothing(ir: IRModel) -> bool {
    match ir {
        Plan::Distinct { maintain_order, keep_strategy, .. } => !maintain_order && !(
        keep_strategy is First || keep_strategy is Last),
        Plan::Join { is_asof, maintain_order, .. } => !is_asof && maintain_order is Neither,
        Plan::Union { maintain_order, .. } => !maintain_order,
        Plan::Sink { payload: SinkPlan::Partitioned { maintain_order, .. }, .. } => !maintain_order,
        Plan::Sink { payload: SinkPlan::Single { maintain_order }, .. } => !maintain_order,
        _ => false,
    }
}

/// A visit takes the order of all inputs away from a node that asks for none.
proof fn lemma_asks_nothing(ir: IRModel, ins: Seq<Edge>, outs: Seq<Edge>, reply: Option<ExprReply>)
    requires
        asks_nothing(ir),
        arity_fits(ir, ins.len(), outs.len()),
    ensures
        none_ordered(outcome(ir, ins, outs, reply).ins),
        asks_nothing(outcome(ir, ins, outs, reply).ir),
{
}

/// On the list a sort stands behind every node that reads from it.
spec fn sorts_behind(pass: PassState) -> bool {
    forall|c: Node, k: int, p: int, q: int|
        #![trigger pass.graph.plan[c as int].inputs()[k], pass.nodes[p], pass.nodes[q]]
        pass.live.contains(c) && !is_copy(pass.graph.plan, pass.leads, c) && 0 <= k
            < pass.graph.plan[c as int].inputs().len() && sorts_all(
            pass.graph.plan[pass.graph.plan[c as int].inputs()[k] as int],
        ) && 0 <= p < pass.nodes.len() && pass.nodes[p] == c && 0 <= q < pass.nodes.len()
            && pass.nodes[q] == pass.graph.plan[c as int].inputs()[k] ==> p < q
}

/// No sort that the node `n` reads from has been visited, or could have been.
spec fn unvisited_below(pass: PassState, n: Node) -> bool {
    forall|k: int, q: int|
        #![trigger pass.graph.plan[n as int].inputs()[k], pass.nodes[q]]
        0 <= k < pass.graph.plan[n as int].inputs().len() && sorts_all(
            pass.graph.plan[pass.graph.plan[n as int].inputs()[k] as int],
        ) && 0 <= q < pass.nodes.len() && pass.nodes[q] == pass.graph.plan[n as int].inputs()[k]
            ==> pass.pos <= q
}

/// What holds all along a run of a node at position `p` that asks for no order.
spec fn tidy(pass: PassState, n: Node, p: int) -> bool {
    &&& 0 <= p < pass.nodes.len()
    &&& pass.nodes[p] == n
    &&& pass.live.subset_of(pass.nodes.to_set())
    &&& sorts_behind(pass)
    &&& pass.live.contains(n) ==> {
        &&& asks_nothing(pass.graph.plan[n as int])
        &&& pass.pos > p ==> none_ordered(pass.graph.ins(n))
        &&& unvisited_below(pass, n)
    }
}

proof fn lemma_sorts_behind(pass: PassState, reply: Reply, after: PassState)
    requires
        pass.inv(),
        pass.takes(reply),
        pass.stepped(reply, after),
        sorts_behind(pass),
    ensures
        sorts_behind(after),
{
    let deletes = lemma_shifted(pass, reply, after);
    let plan = pass.graph.plan;
    let node = pass.node();
    assert(after.nodes == pass.nodes);
    assert forall|c: Node, k: int, p: int, q: int|
        #![trigger after.graph.plan[c as int].inputs()[k], after.nodes[p], after.nodes[q]]
        after.live.contains(c) && !is_copy(after.graph.plan, after.leads, c) && 0 <= k
            < after.graph.plan[c as int].inputs().len() && sorts_all(
            after.graph.plan[after.graph.plan[c as int].inputs()[k] as int],
        ) && 0 <= p < after.nodes.len() && after.nodes[p] == c && 0 <= q < after.nodes.len()
            && after.nodes[q] == after.graph.plan[c as int].inputs()[k] implies p < q by {
        let input = after.graph.plan[c as int].inputs()[k];
        assert(pass.nodes[p] < plan.len() && pass.nodes[q] < plan.len());
        lemma_same_heads(plan, after.graph.plan, pass.leads, c);
        assert(keeps_kind(plan[input as int], after.graph.plan[input as int]));
        assert(sorts_all(plan[input as int]));
        if deletes && c == pass.graph.consumer(node) && k == pass.graph.consumer_slot(node) {
            lemma_up(pass);
            let r = pass.idx();
            assert(pass.nodes[r] == node);
            assert(plan[c as int].inputs()[k] == node);
            assert(plan[node as int].inputs()[0] == input);
        } else {
            assert(plan[c as int].inputs()[k] == input);
        }
    }
}

/// A sort that is read over an unordered edge is deleted by its visit.
proof fn lemma_read_unordered(pass: PassState, n: Node, k: int)
    requires
        pass.inv(),
        pass.live.contains(n),
        !is_copy(pass.graph.plan, pass.leads, n),
        0 <= k < pass.graph.plan[n as int].inputs().len(),
        sorts_all(pass.graph.plan[pass.graph.plan[n as int].inputs()[k] as int]),
    ensures
        ({
            let input = pass.graph.plan[n as int].inputs()[k];
            &&& pass.live.contains(input)
            &&& none_ordered(pass.graph.ins(n)) ==> pass.graph.removes(input)
            &&& pass.graph.consumer(input) == n
            &&& pass.graph.consumer_slot(input) == k
        }),
{
    let graph = pass.graph;
    let input = graph.plan[n as int].inputs()[k];
    assert(placed(graph, pass.leads, n));
    assert(held_below(graph, pass.leads, pass.live, n, k));
    let i = choose|i: int| #[trigger] tied(graph, pass.leads, n, k, input, i);
    assert(placed(graph, pass.leads, input));
    assert(graph.ins(n)[k] == graph.outs(input)[0]);
    lemma_can_unlink(graph, pass.leads, pass.live, input);
}

proof fn lemma_unvisited_below(
    pass: PassState,
    reply: Reply,
    after: PassState,
    n: Node,
    p: int,
)
    requires
        pass.inv(),
        pass.takes(reply),
        pass.stepped(reply, after),
        tidy(pass, n, p),
        after.live.contains(n),
    ensures
        unvisited_below(after, n),
{
    let deletes = lemma_shifted(pass, reply, after);
    let plan = pass.graph.plan;
    let node = pass.node();
    assert(pass.live.contains(n));
    assert(placed(pass.graph, pass.leads, n));
    assert forall|k: int, q: int|
        #![trigger after.graph.plan[n as int].inputs()[k], after.nodes[q]]
        0 <= k < after.graph.plan[n as int].inputs().len() && sorts_all(
            after.graph.plan[after.graph.plan[n as int].inputs()[k] as int],
        ) && 0 <= q < after.nodes.len() && after.nodes[q] == after.graph.plan[n as int].inputs()[k]
            implies after.pos <= q by {
        let input = after.graph.plan[n as int].inputs()[k];
        assert(pass.nodes[q] < plan.len());
        assert(keeps_kind(plan[input as int], after.graph.plan[input as int]));
        assert(sorts_all(plan[input as int]));
        let before = plan[n as int].inputs()[k];
        if deletes && n == pass.graph.consumer(node) && k == pass.graph.consumer_slot(node) {
            lemma_up(pass);
            let r = pass.idx();
            assert(pass.nodes[r] == node);
            assert(before == node);
            assert(plan[node as int].inputs()[0] == input);
        } else {
            assert(before == input);
            lemma_read_unordered(pass, n, k);
            if pass.pos == q && visits(pass) {
                assert(pass.nodes[q] == node);
            }
        }
    }
}

proof fn lemma_tidy_step(pass: PassState, reply: Reply, after: PassState, n: Node, p: int)
    requires
        pass.inv(),
        pass.takes(reply),
        pass.stepped(reply, after),
        tidy(pass, n, p),
    ensures
        tidy(after, n, p),
{
    let deletes = lemma_shifted(pass, reply, after);
    lemma_sorts_behind(pass, reply, after);
    if after.live.contains(n) {
        lemma_unvisited_below(pass, reply, after, n, p);
        assert(placed(pass.graph, pass.leads, n));
        if visits(pass) {
            lemma_up(pass);
            let node = pass.node();
            law_visits_only_relax(pass.graph, node, orders_in(reply), after.graph, deletes);
            if node == n {
                lemma_asks_nothing(
                    pass.ir(),
                    pass.graph.ins(n),
                    pass.graph.outs(n),
                    orders_in(reply),
                );
                assert(after.graph.ins(n) == outcome(
                    pass.ir(),
                    pass.graph.ins(n),
                    pass.graph.outs(n),
                    orders_in(reply),
                ).ins);
            } else {
                if deletes {
                    lemma_can_unlink(pass.graph, pass.leads, pass.live, node);
                }
                assert(after.graph.links[n].in_edges == pass.graph.links[n].in_edges);
                if pass.pos > p {
                    assert forall|j: int| 0 <= j < after.graph.ins(n).len() implies #[trigger]
                    after.graph.ins(n)[j] is Unordered by {
                        assert(pass.graph.ins(n)[j] is Unordered);
                    }
                }
            }
        }
    }
}

proof fn lemma_tidy(passes: Seq<PassState>, replies: Seq<Reply>, i: int, n: Node, p: int)
    requires
        is_run(passes, replies),
        0 <= i < passes.len(),
        tidy(passes[0], n, p),
    ensures
        tidy(passes[i], n, p),
    decreases i,
{
    if i > 0 {
        lemma_tidy(passes, replies, i - 1, n, p);
        law_runs_stay_wired(passes, replies, i - 1);
        lemma_tidy_step(passes[i - 1], replies[i - 1], passes[i], n, p);
    }
}

/// At the start of a pass every sort stands on the list behind the nodes that read from it.
proof fn lemma_starts_behind(plan: Seq<IRModel>, roots: Seq<Node>, pass: PassState)
    requires
        plan.len() <= usize::MAX,
        simplifiable(plan, roots),
        started(plan, roots, pass),
    ensures
        sorts_behind(pass),
        pass.live.subset_of(pass.nodes.to_set()),
{
    let web = web_of(plan, roots);
    let list = listing(web);
    lemma_woven(plan, roots);
    lemma_listing(web);
    lemma_complete(web);
    let keys = choose|keys: Seq<EdgeKey>| #[trigger]
        fresh_graph(web, keys, pass.graph.links, pass.graph.edges);
    lemma_links(web, keys, pass.graph.links, pass.graph.edges);
    assert forall|n: Node| pass.live.contains(n) implies list.to_set().contains(n) by {
        assert(pass.graph.links.contains_key(n));
    }
    assert forall|c: Node, k: int, p: int, q: int|
        #![trigger pass.graph.plan[c as int].inputs()[k], pass.nodes[p], pass.nodes[q]]
        pass.live.contains(c) && !is_copy(pass.graph.plan, pass.leads, c) && 0 <= k
            < pass.graph.plan[c as int].inputs().len() && sorts_all(
            pass.graph.plan[pass.graph.plan[c as int].inputs()[k] as int],
        ) && 0 <= p < pass.nodes.len() && pass.nodes[p] == c && 0 <= q < pass.nodes.len()
            && pass.nodes[q] == pass.graph.plan[c as int].inputs()[k] implies p < q by {
        let input = plan[c as int].inputs()[k];
        assert(web.opened.contains(web.head(list[p])));
        lemma_last_at(web, c, p);
        let last = last_at(web, c);
        lemma_step_at(web, last, k);
        let r = web.roots.len() + hops(web, list, last as nat).len() + k;
        assert(list[r] == input);
        if q < r {
            lemma_repeats(web, q, r);
        } else if r < q {
            lemma_repeats(web, r, q);
        }
    }
}

/// A finished pass leaves no sort of all rows as an input of a node to which the order of its
/// inputs makes no difference from the start.
pub proof fn law_no_unobserved_sort_stays(
    plan: Seq<IRModel>,
    roots: Seq<Node>,
    passes: Seq<PassState>,
    replies: Seq<Reply>,
    n: Node,
    k: int,
)
    requires
        plan.len() <= usize::MAX,
        simplifiable(plan, roots),
        is_run(passes, replies),
        started(plan, roots, passes[0]),
        passes.last().finished(),
        passes.last().live.contains(n),
        asks_nothing(plan[n as int]),
        0 <= k < passes.last().graph.plan[n as int].inputs().len(),
    ensures
        !sorts_all(
            passes.last().graph.plan[passes.last().graph.plan[n as int].inputs()[k] as int],
        ),
{
    let first = passes[0];
    let end = passes.last();
    lemma_starts_behind(plan, roots, first);
    law_runs_only_relax(passes, replies, 0, passes.len() - 1);
    law_runs_stay_wired(passes, replies, passes.len() - 1);
    assert(first.live.contains(n));
    assert(first.nodes.to_set().contains(n));
    let p = choose|p: int| 0 <= p < first.nodes.len() && first.nodes[p] == n;
    assert(tidy(first, n, p));
    lemma_tidy(passes, replies, passes.len() - 1, n, p);
    if sorts_all(end.graph.plan[end.graph.plan[n as int].inputs()[k] as int]) {
        let input = end.graph.plan[n as int].inputs()[k];
        lemma_read_unordered(end, n, k);
        assert(end.nodes.to_set().contains(input));
        let q = choose|q: int| 0 <= q < end.nodes.len() && end.nodes[q] == input;
        assert(end.nodes[q] == end.graph.plan[n as int].inputs()[k]);
    }
}

} // verus!
