//! What holds of a plan and its edges at all times.

use crate::arena::Node;
use crate::edge::{Edge, EdgeKey};
use crate::ir::{lemma_with_input, IRModel, Plan};
use crate::ir_graph::{
    apart, entry_of, fresh_graph, froms, has_graph, in_edges_of, known, lemma_in_edges_len,
    lemma_in_edges_visit, lemma_links, lemma_step_at, out_edges_of, out_nodes_of, EdgeKeysModel,
};
use crate::orders::ExprReply;
use crate::rules::{arity_fits, outcome};
use crate::simplify::{position, GraphState};
use crate::traversal::{
    caches, children, complete, expands, head_of, hop_consumer, hops, is_copy, last_at,
    lemma_complete, lemma_expands_once, lemma_last_at, lemma_listing, lemma_seen_append,
    lemma_seen_prefix, listing, seen, web_of, well_led, woven, Web,
};
use vstd::prelude::*;

verus! {

/// The nodes that `node` reads from over edges: its inputs or, for a copy of a cache, none.
pub open spec fn feeds(plan: Seq<IRModel>, leads: Map<u128, Node>, node: Node) -> Seq<Node> {
    if is_copy(plan, leads, node) {
        Seq::empty()
    } else {
        plan[node as int].inputs()
    }
}

/// The in edge number `j` of `node` and the out edge number `i` of `input` are one edge, and each
/// end knows the other.
pub open spec fn tied(
    state: GraphState,
    leads: Map<u128, Node>,
    node: Node,
    j: int,
    input: Node,
    i: int,
) -> bool {
    &&& 0 <= j < state.links[node].in_edges.len()
    &&& 0 <= i < state.links[input].out_edges.len()
    &&& feeds(state.plan, leads, node)[j] == input
    &&& state.links[node].in_edges[j] == state.links[input].out_edges[i]
    &&& state.links[input].out_nodes[i] == node
}

/// `rank` falls along every edge.
pub open spec fn descends(
    state: GraphState,
    leads: Map<u128, Node>,
    live: Set<Node>,
    rank: spec_fn(Node) -> nat,
) -> bool {
    forall|node: Node, j: int|
        live.contains(node) && 0 <= j < feeds(state.plan, leads, node).len() ==> rank(
            #[trigger] feeds(state.plan, leads, node)[j],
        ) < rank(node)
}

/// What is known of a single node of the plan.
pub open spec fn placed(state: GraphState, leads: Map<u128, Node>, node: Node) -> bool {
    let keys = state.links[node];
    &&& node < state.plan.len()
    &&& state.links.contains_key(node)
    &&& keys.in_edges.len() == feeds(state.plan, leads, node).len()
    &&& keys.out_nodes.len() == keys.out_edges.len()
    &&& keys.out_edges.no_duplicates()
    &&& known(keys.in_edges, state.edges)
    &&& known(keys.out_edges, state.edges)
    &&& arity_fits(
        state.plan[node as int],
        state.plan[node as int].inputs().len(),
        keys.out_edges.len(),
    )
}

/// The in edge number `j` of `node` is an out edge of the input there.
pub open spec fn held_below(
    state: GraphState,
    leads: Map<u128, Node>,
    live: Set<Node>,
    node: Node,
    j: int,
) -> bool {
    let input = feeds(state.plan, leads, node)[j];
    live.contains(input) && exists|i: int| #[trigger] tied(state, leads, node, j, input, i)
}

/// The out edge number `i` of `node` is an in edge of the consumer there.
pub open spec fn held_above(
    state: GraphState,
    leads: Map<u128, Node>,
    live: Set<Node>,
    node: Node,
    i: int,
) -> bool {
    let consumer = state.links[node].out_nodes[i];
    live.contains(consumer) && exists|j: int| #[trigger] tied(state, leads, consumer, j, node, i)
}

/// No edge is an in edge twice.
pub open spec fn ins_differ(state: GraphState, live: Set<Node>) -> bool {
    forall|a: Node, j: int, b: Node, k: int|
        #![trigger state.links[a].in_edges[j], state.links[b].in_edges[k]]
        live.contains(a) && live.contains(b) && 0 <= j < state.links[a].in_edges.len() && 0 <= k
            < state.links[b].in_edges.len() && state.links[a].in_edges[j]
            == state.links[b].in_edges[k] ==> a == b && j == k
}

/// The edges around the nodes `live` have two ends that fit.
pub open spec fn joined(state: GraphState, leads: Map<u128, Node>, live: Set<Node>) -> bool {
    &&& forall|node: Node, j: int|
        live.contains(node) && 0 <= j < state.links[node].in_edges.len() ==> #[trigger] held_below(
            state,
            leads,
            live,
            node,
            j,
        )
    &&& forall|node: Node, i: int|
        live.contains(node) && 0 <= i < state.links[node].out_edges.len()
            ==> #[trigger] held_above(state, leads, live, node, i)
    &&& ins_differ(state, live)
}

/// The nodes `live` and the edges around them make up a plan: each edge has two ends that fit,
/// there are as many edges as each node needs, and no node lies below itself.
pub open spec fn wired(state: GraphState, leads: Map<u128, Node>, live: Set<Node>) -> bool {
    &&& forall|node: Node| #[trigger] live.contains(node) ==> placed(state, leads, node)
    &&& joined(state, leads, live)
    &&& well_led(state.plan, leads)
    &&& exists|rank: spec_fn(Node) -> nat| #[trigger] descends(state, leads, live, rank)
}

/// No edge leads from a node to itself, so all edges around a node differ.
pub proof fn lemma_apart(state: GraphState, leads: Map<u128, Node>, live: Set<Node>, node: Node)
    requires
        wired(state, leads, live),
        live.contains(node),
    ensures
        apart(state.links[node], state.edges),
{
    let keys = state.links[node];
    let ins = keys.in_edges;
    let outs = keys.out_edges;
    assert forall|a: int, b: int|
        0 <= a < (ins + outs).len() && 0 <= b < (ins + outs).len() && a != b implies (ins
        + outs)[a] != (ins + outs)[b] by {
        if (ins + outs)[a] == (ins + outs)[b] && (a < ins.len()) != (b < ins.len()) {
            let i = if a < ins.len() {
                b - ins.len()
            } else {
                a - ins.len()
            };
            assert(held_above(state, leads, live, node, i));
        }
    }
}

/// The same nodes are caches, with the same ids.
pub open spec fn same_caches(before: Seq<IRModel>, after: Seq<IRModel>) -> bool {
    &&& after.len() == before.len()
    &&& forall|node: int, id: u128|
        0 <= node < before.len() ==> (#[trigger] caches(after[node], id) <==> caches(
            before[node],
            id,
        ))
}

/// Which node stands for which is a matter of ids alone.
pub proof fn lemma_same_heads(
    before: Seq<IRModel>,
    after: Seq<IRModel>,
    leads: Map<u128, Node>,
    node: Node,
)
    requires
        same_caches(before, after),
        node < before.len(),
    ensures
        head_of(after, leads, node) == head_of(before, leads, node),
{
    if let Plan::Cache { id, .. } = before[node as int] {
        assert(caches(after[node as int], id));
    }
    if let Plan::Cache { id, .. } = after[node as int] {
        assert(caches(after[node as int], id));
    }
}

/// A node with one in edge and one out edge can be bypassed.
pub proof fn lemma_can_unlink(
    state: GraphState,
    leads: Map<u128, Node>,
    live: Set<Node>,
    node: Node,
)
    requires
        !(state.plan[node as int] is Cache),
        wired(state, leads, live),
        live.contains(node),
        state.links[node].in_edges.len() == 1,
        state.links[node].out_edges.len() == 1,
        state.plan[node as int].inputs().len() == 1,
    ensures
        state.can_unlink(node, state.plan[node as int].inputs()[0]),
        live.contains(state.plan[node as int].inputs()[0]),
        live.contains(state.consumer(node)),
        tied(state, leads, state.consumer(node), state.consumer_slot(node), node, 0),
        state.consumer(node) != node,
        state.plan[node as int].inputs()[0] != node,
{
    let consumer = state.consumer(node);
    assert(feeds(state.plan, leads, node) == state.plan[node as int].inputs());
    assert(held_below(state, leads, live, node, 0));
    assert(held_above(state, leads, live, node, 0));
    let j = choose|j: int| tied(state, leads, consumer, j, node, 0);
    assert(placed(state, leads, consumer));
    let inputs = state.plan[consumer as int].inputs();
    assert forall|k: int| 0 <= k < inputs.len() && inputs[k] == node implies k == j by {
        assert(held_below(state, leads, live, consumer, k));
    }
}

/// Every node of the plan can be visited.
pub proof fn lemma_can_visit(state: GraphState, leads: Map<u128, Node>, live: Set<Node>, node: Node)
    requires
        wired(state, leads, live),
        live.contains(node),
    ensures
        state.can_visit(node),
{
    lemma_apart(state, leads, live, node);
    if state.removes(node) {
        lemma_can_unlink(state, leads, live, node);
    }
}

/// A visit that leaves a node in the plan changes neither its inputs nor how many edges it needs.
pub proof fn lemma_outcome_shape(
    ir: IRModel,
    ins: Seq<Edge>,
    outs: Seq<Edge>,
    reply: Option<ExprReply>,
)
    ensures
        outcome(ir, ins, outs, reply).ir.inputs() == ir.inputs(),
        arity_fits(ir, ins.len(), outs.len()) ==> arity_fits(
            outcome(ir, ins, outs, reply).ir,
            ins.len(),
            outs.len(),
        ),
        ir is Cache ==> outcome(ir, ins, outs, reply).ir == ir,
        outcome(ir, ins, outs, reply).ir is Cache ==> ir is Cache,
{
}

/// A visit changes neither how many inputs a node has nor whether it is a cache.
pub proof fn lemma_visited_shape(
    before: GraphState,
    leads: Map<u128, Node>,
    live: Set<Node>,
    node: Node,
    reply: Option<ExprReply>,
    after: GraphState,
    deleted: bool,
)
    requires
        wired(before, leads, live),
        live.contains(node),
        before.visited(node, reply, after, deleted),
    ensures
        after.plan.len() == before.plan.len(),
        forall|other: int|
            0 <= other < before.plan.len() ==> {
                &&& (#[trigger] after.plan[other]).inputs().len()
                    == before.plan[other].inputs().len()
                &&& after.plan[other] is Cache <==> before.plan[other] is Cache
            },
        same_caches(before.plan, after.plan),
{
    if deleted {
        lemma_can_unlink(before, leads, live, node);
        let input = before.plan[node as int].inputs()[0];
        lemma_with_input(
            before.plan[before.consumer(node) as int],
            before.consumer_slot(node),
            input,
        );
    } else {
        lemma_outcome_shape(
            before.plan[node as int],
            before.ins(node),
            before.outs(node),
            reply,
        );
    }
}

/// Bypassing a node leaves the other nodes a plan.
pub proof fn lemma_unlinked_wired(
    state: GraphState,
    leads: Map<u128, Node>,
    live: Set<Node>,
    node: Node,
)
    requires
        !(state.plan[node as int] is Cache),
        wired(state, leads, live),
        live.contains(node),
        state.links[node].in_edges.len() == 1,
        state.links[node].out_edges.len() == 1,
        state.plan[node as int].inputs().len() == 1,
    ensures
        wired(
            state.unlinked(node, state.plan[node as int].inputs()[0]),
            leads,
            live.remove(node),
        ),
{
    lemma_can_unlink(state, leads, live, node);
    let input = state.plan[node as int].inputs()[0];
    let consumer = state.consumer(node);
    let slot = state.consumer_slot(node);
    let key = state.links[node].in_edges[0];
    let up = state.links[consumer].in_edges[slot];
    let at = position(state.links[input].out_edges, key);
    let after = state.unlinked(node, input);
    let rest = live.remove(node);
    let ir = state.plan[consumer as int];
    lemma_with_input(ir, slot, input);
    assert(feeds(state.plan, leads, node) == state.plan[node as int].inputs());
    assert(same_caches(state.plan, after.plan));
    assert forall|n: Node| #[trigger] rest.contains(n) implies feeds(after.plan, leads, n) == (if n
        == consumer {
        ir.inputs().update(slot, input)
    } else {
        feeds(state.plan, leads, n)
    }) by {
        assert(placed(state, leads, n));
        lemma_same_heads(state.plan, after.plan, leads, n);
    }
    // The edge that now leads to the input did not before.
    assert(!state.links[input].out_edges.contains(up)) by {
        if state.links[input].out_edges.contains(up) {
            let i = choose|i: int|
                0 <= i < state.links[input].out_edges.len() && state.links[input].out_edges[i]
                    == up;
            let other = state.links[input].out_nodes[i];
            assert(held_above(state, leads, live, input, i));
            let j = choose|j: int| tied(state, leads, other, j, input, i);
        }
    }
    assert forall|n: Node| #[trigger] rest.contains(n) implies placed(after, leads, n) by {
        if n == input {
            assert(known(after.links[n].out_edges, after.edges)) by {
                assert(state.edges.contains_key(state.links[consumer].in_edges[slot]));
            }
        }
    }
    assert(after.links[consumer].in_edges == state.links[consumer].in_edges);
    assert forall|n: Node, j: int|
        rest.contains(n) && 0 <= j < after.links[n].in_edges.len() implies #[trigger] held_below(
        after,
        leads,
        rest,
        n,
        j,
    ) by {
        assert(after.links[n].in_edges == state.links[n].in_edges);
        let below = feeds(state.plan, leads, n)[j];
        assert(held_below(state, leads, live, n, j));
        let i = choose|i: int| tied(state, leads, n, j, below, i);
        if n == consumer && j == slot {
            assert(tied(after, leads, n, j, input, at));
        } else {
            assert(tied(after, leads, n, j, below, i));
        }
    }
    assert forall|n: Node, i: int|
        rest.contains(n) && 0 <= i < after.links[n].out_edges.len() implies #[trigger] held_above(
        after,
        leads,
        rest,
        n,
        i,
    ) by {
        if n == input && i == at {
            assert(tied(after, leads, consumer, slot, input, at));
        } else {
            let above = state.links[n].out_nodes[i];
            assert(held_above(state, leads, live, n, i));
            let j = choose|j: int| tied(state, leads, above, j, n, i);
            assert(tied(after, leads, above, j, n, i));
        }
    }
    let rank = choose|rank: spec_fn(Node) -> nat| #[trigger] descends(state, leads, live, rank);
    assert(descends(after, leads, rest, rank));
    assert(ins_differ(after, rest));
}

/// Whether nodes and edges make up a plan depends neither on which edges are ordered nor on what
/// the nodes hold besides their inputs, as long as they need as many edges.
pub proof fn lemma_same_wired(
    before: GraphState,
    after: GraphState,
    leads: Map<u128, Node>,
    live: Set<Node>,
)
    requires
        wired(before, leads, live),
        after.links == before.links,
        after.edges.dom() == before.edges.dom(),
        after.plan.len() == before.plan.len(),
        forall|node: Node| #[trigger]
            live.contains(node) ==> after.plan[node as int].inputs()
                == before.plan[node as int].inputs() && arity_fits(
                after.plan[node as int],
                after.links[node].in_edges.len(),
                after.links[node].out_edges.len(),
            ),
        same_caches(before.plan, after.plan),
    ensures
        wired(after, leads, live),
{
    assert forall|node: Node| #[trigger] live.contains(node) implies feeds(after.plan, leads, node)
        == feeds(before.plan, leads, node) by {
        assert(placed(before, leads, node));
        lemma_same_heads(before.plan, after.plan, leads, node);
    }
    assert forall|node: Node, j: int|
        live.contains(node) && 0 <= j < after.links[node].in_edges.len() implies #[trigger]
    held_below(after, leads, live, node, j) by {
        let input = feeds(before.plan, leads, node)[j];
        assert(held_below(before, leads, live, node, j));
        let i = choose|i: int| tied(before, leads, node, j, input, i);
        assert(tied(after, leads, node, j, input, i));
    }
    assert forall|node: Node, i: int|
        live.contains(node) && 0 <= i < after.links[node].out_edges.len() implies #[trigger]
    held_above(after, leads, live, node, i) by {
        let consumer = before.links[node].out_nodes[i];
        assert(held_above(before, leads, live, node, i));
        let j = choose|j: int| tied(before, leads, consumer, j, node, i);
        assert(tied(after, leads, consumer, j, node, i));
    }
    let rank = choose|rank: spec_fn(Node) -> nat| #[trigger] descends(before, leads, live, rank);
    assert(descends(after, leads, live, rank));
}

/// A visit leaves a plan behind: of all nodes, or of all but the one that it took out.
pub proof fn lemma_visited_wired(
    before: GraphState,
    leads: Map<u128, Node>,
    live: Set<Node>,
    node: Node,
    reply: Option<ExprReply>,
    after: GraphState,
    deleted: bool,
)
    requires
        wired(before, leads, live),
        live.contains(node),
        before.visited(node, reply, after, deleted),
    ensures
        wired(
            after,
            leads,
            if deleted {
                live.remove(node)
            } else {
                live
            },
        ),
{
    let ir = before.plan[node as int];
    let keys = before.links[node];
    if deleted {
        let key = keys.in_edges[0];
        let loose = GraphState { edges: before.edges.insert(key, Edge::Unordered), ..before };
        assert(loose.edges.dom() =~= before.edges.dom());
        lemma_same_wired(before, loose, leads, live);
        lemma_unlinked_wired(loose, leads, live, node);
    } else {
        lemma_outcome_shape(ir, before.ins(node), before.outs(node), reply);
        lemma_same_wired(before, after, leads, live);
    }
}

////////////////////////////////////////////////////////////////////////////////////////////////
// New graphs
////////////////////////////////////////////////////////////////////////////////////////////////

/// Every node of the plan below `roots` can be visited: the plan has a graph, and each node has as
/// many inputs and consumers as its kind asks for.
pub open spec fn simplifiable(plan: Seq<IRModel>, roots: Seq<Node>) -> bool {
    let web = web_of(plan, roots);
    &&& has_graph(plan, roots)
    &&& forall|node: Node| #[trigger]
        web.opened.contains(node) ==> arity_fits(
            plan[node as int],
            plan[node as int].inputs().len(),
            web.consumers(node),
        )
}

/// The step number `q` is where the visit that takes it says.
pub proof fn lemma_hop_from(web: Web, list: Seq<Node>, upto: nat, q: int)
    requires
        0 <= q < hops(web, list, upto).len(),
    ensures
        ({
            let step = hops(web, list, upto)[q];
            &&& 0 <= step.consumer_at < upto
            &&& expands(web, list, step.consumer_at)
            &&& 0 <= step.slot < web.below(list[step.consumer_at]).len()
            &&& q == hops(web, list, step.consumer_at as nat).len() + step.slot
        }),
    decreases upto,
{
    let before = hops(web, list, (upto - 1) as nat);
    if q < before.len() {
        lemma_hop_from(web, list, (upto - 1) as nat, q);
        assert(hops(web, list, upto)[q] == before[q]);
    }
}

proof fn lemma_out_len(
    roots: Seq<Node>,
    list: Seq<Node>,
    keys: Seq<EdgeKey>,
    froms: Seq<Node>,
    node: Node,
    upto: nat,
)
    ensures
        out_edges_of(roots, list, keys, node, upto).len() == out_nodes_of(
            roots,
            list,
            froms,
            node,
            upto,
        ).len(),
    decreases upto,
{
    if upto > 0 {
        lemma_out_len(roots, list, keys, froms, node, (upto - 1) as nat);
    }
}

/// The out edge of `node` that belongs to the step number `q`.
proof fn lemma_out_slot(
    roots: Seq<Node>,
    list: Seq<Node>,
    keys: Seq<EdgeKey>,
    froms: Seq<Node>,
    node: Node,
    upto: nat,
    q: int,
) -> (i: int)
    requires
        0 <= q < upto,
        list[roots.len() + q] == node,
    ensures
        0 <= i < out_edges_of(roots, list, keys, node, upto).len(),
        out_edges_of(roots, list, keys, node, upto)[i] == keys[q],
        out_nodes_of(roots, list, froms, node, upto)[i] == froms[q],
    decreases upto,
{
    lemma_out_len(roots, list, keys, froms, node, (upto - 1) as nat);
    if q == upto - 1 {
        out_edges_of(roots, list, keys, node, (upto - 1) as nat).len() as int
    } else {
        lemma_out_slot(roots, list, keys, froms, node, (upto - 1) as nat, q)
    }
}

/// The step that the out edge number `i` of `node` belongs to.
pub proof fn lemma_out_step(
    roots: Seq<Node>,
    list: Seq<Node>,
    keys: Seq<EdgeKey>,
    froms: Seq<Node>,
    node: Node,
    upto: nat,
    i: int,
) -> (q: int)
    requires
        0 <= i < out_edges_of(roots, list, keys, node, upto).len(),
    ensures
        0 <= q < upto,
        list[roots.len() + q] == node,
        out_edges_of(roots, list, keys, node, upto)[i] == keys[q],
        out_nodes_of(roots, list, froms, node, upto)[i] == froms[q],
    decreases upto,
{
    lemma_out_len(roots, list, keys, froms, node, (upto - 1) as nat);
    if i < out_edges_of(roots, list, keys, node, (upto - 1) as nat).len() {
        lemma_out_step(roots, list, keys, froms, node, (upto - 1) as nat, i)
    } else {
        upto - 1
    }
}

proof fn lemma_out_distinct(
    roots: Seq<Node>,
    list: Seq<Node>,
    keys: Seq<EdgeKey>,
    node: Node,
    upto: nat,
)
    requires
        upto <= keys.len(),
        keys.no_duplicates(),
    ensures
        out_edges_of(roots, list, keys, node, upto).no_duplicates(),
    decreases upto,
{
    if upto > 0 {
        lemma_out_distinct(roots, list, keys, node, (upto - 1) as nat);
        let before = out_edges_of(roots, list, keys, node, (upto - 1) as nat);
        assert forall|i: int| 0 <= i < before.len() implies before[i] != keys[upto - 1] by {
            let q = lemma_out_step(
                roots,
                list,
                keys,
                Seq::empty(),
                node,
                (upto - 1) as nat,
                i,
            );
        }
    }
}

/// A node that is no cache has an out edge for each time that it is read.
proof fn lemma_out_count(web: Web, keys: Seq<EdgeKey>, node: Node)
    requires
        woven(web),
        web.inside(),
        complete(web),
        web.opened.contains(node),
        !(web.plan[node as int] is Cache),
        keys.len() == hops(web, listing(web), listing(web).len()).len(),
    ensures
        out_edges_of(web.roots, listing(web), keys, node, keys.len()).len() == web.consumers(node),
{
    let list = listing(web);
    lemma_listing(web);
    lemma_out_seen(web, keys, node, keys.len());
    lemma_seen_append(web, Seq::empty(), web.roots, node);
    assert(Seq::<Node>::empty() + web.roots =~= web.roots);
    lemma_seen_prefix(web, web.roots, list, web.roots.len(), node);
    assert(seen(web, list, list.len(), node) == web.uses(node));
}

proof fn lemma_out_seen(web: Web, keys: Seq<EdgeKey>, node: Node, upto: nat)
    requires
        woven(web),
        web.inside(),
        web.opened.contains(node),
        !(web.plan[node as int] is Cache),
        web.roots.len() + upto <= listing(web).len(),
    ensures
        out_edges_of(web.roots, listing(web), keys, node, upto).len() == seen(
            web,
            listing(web),
            web.roots.len() + upto,
            node,
        ) - seen(web, listing(web), web.roots.len(), node),
    decreases upto,
{
    if upto > 0 {
        lemma_out_seen(web, keys, node, (upto - 1) as nat);
        lemma_listing(web);
        let other = listing(web)[web.roots.len() + upto - 1];
        if let Plan::Cache { id, .. } = web.plan[other as int] {
            if web.leads.contains_key(id) {
                assert(caches(web.plan[web.leads[id] as int], id));
            }
        }
    }
}

/// What the links say of a node.
pub proof fn lemma_node_links(
    web: Web,
    keys: Seq<EdgeKey>,
    links: Map<Node, EdgeKeysModel>,
    edges: Map<EdgeKey, Edge>,
    node: Node,
)
    requires
        woven(web),
        has_graph(web.plan, web.roots),
        web == web_of(web.plan, web.roots),
        fresh_graph(web, keys, links, edges),
        links.contains_key(node),
    ensures
        ({
            let list = listing(web);
            &&& links[node].in_edges == in_edges_of(web, list, keys, node, list.len())
            &&& links[node].out_edges == out_edges_of(web.roots, list, keys, node, keys.len())
            &&& links[node].out_nodes == out_nodes_of(
                web.roots,
                list,
                froms(web, list, list.len()),
                node,
                keys.len(),
            )
        }),
        web.opened.contains(web.head(node)),
        links[node].out_nodes.len() == links[node].out_edges.len(),
        known(links[node].in_edges, edges),
        known(links[node].out_edges, edges),
        simplifiable(web.plan, web.roots) ==> placed(
            GraphState { plan: web.plan, links, edges },
            web.leads,
            node,
        ),
{
    let list = listing(web);
    lemma_listing(web);
    lemma_complete(web);
    lemma_links(web, keys, links, edges);
    assert(entry_of(links, node) == links[node]);
    let ins = links[node].in_edges;
    let outs = links[node].out_edges;
    let from = froms(web, list, list.len());
    let p = choose|p: int| 0 <= p < list.len() && list[p] == node;
    assert(web.opened.contains(web.head(list[p])));
    lemma_out_len(web.roots, list, keys, from, node, keys.len());
    lemma_out_distinct(web.roots, list, keys, node, keys.len());
    assert forall|i: int| 0 <= i < outs.len() implies edges.contains_key(#[trigger] outs[i]) by {
        let q = lemma_out_step(web.roots, list, keys, from, node, keys.len(), i);
        assert(keys.to_set().contains(keys[q]));
    }
    if ins.len() > 0 {
        let v = lemma_in_edges_visit(web, list, keys, node, list.len());
        assert(web.opened.contains(web.head(list[v])));
        lemma_last_hops(web, list, v, list.len());
        assert forall|j: int| 0 <= j < ins.len() implies edges.contains_key(#[trigger] ins[j]) by {
            assert(ins[j] == keys[hops(web, list, v as nat).len() + j]);
            assert(keys.to_set().contains(ins[j]));
        }
    }
    if !(web.plan[node as int] is Cache) {
        lemma_out_count(web, keys, node);
    }
}

pub proof fn lemma_last_hops(web: Web, list: Seq<Node>, p: int, upto: nat)
    requires
        0 <= p < upto,
    ensures
        hops(web, list, (p + 1) as nat).len() <= hops(web, list, upto).len(),
        hops(web, list, (p + 1) as nat).len() == hops(web, list, p as nat).len()
            + children(web, list, p).len(),
    decreases upto,
{
    if p < upto - 1 {
        lemma_last_hops(web, list, p, (upto - 1) as nat);
    }
}

/// The step that an in edge belongs to.
pub proof fn lemma_in_edge(
    web: Web,
    keys: Seq<EdgeKey>,
    links: Map<Node, EdgeKeysModel>,
    edges: Map<EdgeKey, Edge>,
    node: Node,
    j: int,
) -> (q: int)
    requires
        woven(web),
        has_graph(web.plan, web.roots),
        web == web_of(web.plan, web.roots),
        fresh_graph(web, keys, links, edges),
        links.contains_key(node),
        0 <= j < links[node].in_edges.len(),
    ensures
        ({
            let list = listing(web);
            let steps = hops(web, list, list.len());
            &&& 0 <= q < steps.len()
            &&& links[node].in_edges[j] == keys[q]
            &&& hop_consumer(web, list, steps[q]) == node
            &&& steps[q].slot == j
            &&& list[web.roots.len() + q] == web.plan[node as int].inputs()[j]
        }),
{
    let list = listing(web);
    lemma_listing(web);
    lemma_node_links(web, keys, links, edges, node);
    let p = lemma_in_edges_visit(web, list, keys, node, list.len());
    lemma_last_hops(web, list, p, list.len());
    assert(web.opened.contains(web.head(list[p])));
    lemma_step_at(web, p, j);
    hops(web, list, p as nat).len() + j
}

/// All edges of a new graph have two ends that fit.
pub proof fn lemma_fresh_joined(
    web: Web,
    keys: Seq<EdgeKey>,
    links: Map<Node, EdgeKeysModel>,
    edges: Map<EdgeKey, Edge>,
)
    requires
        woven(web),
        has_graph(web.plan, web.roots),
        web == web_of(web.plan, web.roots),
        fresh_graph(web, keys, links, edges),
    ensures
        joined(GraphState { plan: web.plan, links, edges }, web.leads, links.dom()),
{
    let state = GraphState { plan: web.plan, links, edges };
    let live = links.dom();
    let list = listing(web);
    let steps = hops(web, list, list.len());
    let from = froms(web, list, list.len());
    lemma_listing(web);
    lemma_complete(web);
    lemma_links(web, keys, links, edges);
    assert forall|node: Node, j: int|
        live.contains(node) && 0 <= j < state.links[node].in_edges.len() implies #[trigger]
    held_below(state, web.leads, live, node, j) by {
        let q = lemma_in_edge(web, keys, links, edges, node, j);
        lemma_node_links(web, keys, links, edges, node);
        let input = web.plan[node as int].inputs()[j];
        assert(list[web.roots.len() + q] == input);
        assert(links.contains_key(input));
        lemma_node_links(web, keys, links, edges, input);
        let i = lemma_out_slot(web.roots, list, keys, from, input, keys.len(), q);
        assert(tied(state, web.leads, node, j, input, i));
    }
    assert forall|node: Node, i: int|
        live.contains(node) && 0 <= i < state.links[node].out_edges.len() implies #[trigger]
    held_above(state, web.leads, live, node, i) by {
        lemma_node_links(web, keys, links, edges, node);
        let q = lemma_out_step(web.roots, list, keys, from, node, keys.len(), i);
        lemma_hop_from(web, list, list.len(), q);
        let p = steps[q].consumer_at;
        let j = steps[q].slot;
        let consumer = web.head(list[p]);
        assert(web.opened.contains(web.head(list[p])));
        assert(consumer == list[p]);
        assert(links.contains_key(consumer));
        lemma_node_links(web, keys, links, edges, consumer);
        lemma_in_edges_len(web, list, keys, p, list.len());
        let v = lemma_in_edges_visit(web, list, keys, consumer, list.len());
        if v < p {
            lemma_expands_once(web, list, v, p);
        } else if p < v {
            lemma_expands_once(web, list, p, v);
        }
        lemma_last_hops(web, list, p, list.len());
        assert(tied(state, web.leads, consumer, j, node, i));
    }
    assert forall|a: Node, j: int, b: Node, k: int|
        #![trigger state.links[a].in_edges[j], state.links[b].in_edges[k]]
        live.contains(a) && live.contains(b) && 0 <= j < state.links[a].in_edges.len() && 0 <= k
            < state.links[b].in_edges.len() && state.links[a].in_edges[j]
            == state.links[b].in_edges[k] implies a == b && j == k by {
        let q = lemma_in_edge(web, keys, links, edges, a, j);
        let r = lemma_in_edge(web, keys, links, edges, b, k);
    }
}

/// The place of a node in the order of visits: all nodes that it reads from have lower ones.
spec fn place(web: Web, node: Node) -> nat {
    (listing(web).len() - last_at(web, web.head(node))) as nat
}

proof fn lemma_place(web: Web, node: Node, j: int)
    requires
        woven(web),
        web.inside(),
        complete(web),
        web.opened.contains(web.head(node)),
        0 <= j < feeds(web.plan, web.leads, node).len(),
    ensures
        place(web, feeds(web.plan, web.leads, node)[j]) < place(web, node),
{
    let list = listing(web);
    lemma_listing(web);
    lemma_last_at(web, node, 0);
    let p = last_at(web, node);
    let input = web.plan[node as int].inputs()[j];
    lemma_step_at(web, p, j);
    let q = hops(web, list, p as nat).len() + j;
    assert(list[web.roots.len() + q] == input);
    assert(web.opened.contains(web.head(list[web.roots.len() + q])));
    lemma_last_at(web, web.head(input), web.roots.len() + q);
}

/// The new graph of a plan makes up a plan.
pub proof fn lemma_fresh_wired(
    web: Web,
    keys: Seq<EdgeKey>,
    links: Map<Node, EdgeKeysModel>,
    edges: Map<EdgeKey, Edge>,
)
    requires
        woven(web),
        simplifiable(web.plan, web.roots),
        web == web_of(web.plan, web.roots),
        fresh_graph(web, keys, links, edges),
    ensures
        wired(GraphState { plan: web.plan, links, edges }, web.leads, links.dom()),
        forall|node: Node| #[trigger]
            links.contains_key(node) <==> listing(web).contains(node),
{
    let state = GraphState { plan: web.plan, links, edges };
    lemma_listing(web);
    lemma_complete(web);
    lemma_links(web, keys, links, edges);
    lemma_fresh_joined(web, keys, links, edges);
    assert forall|node: Node| #[trigger] links.dom().contains(node) implies placed(
        state,
        web.leads,
        node,
    ) by {
        lemma_node_links(web, keys, links, edges, node);
    }
    let rank = |node: Node| place(web, node);
    assert(descends(state, web.leads, links.dom(), rank)) by {
        assert forall|node: Node, j: int|
            links.dom().contains(node) && 0 <= j < feeds(web.plan, web.leads, node).len() implies
        rank(#[trigger] feeds(web.plan, web.leads, node)[j]) < rank(node) by {
            lemma_node_links(web, keys, links, edges, node);
            lemma_place(web, node, j);
        }
    }
    assert(well_led(web.plan, web.leads)) by {
        assert forall|id: u128| #[trigger] web.leads.contains_key(id) implies web.leads[id]
            < web.plan.len() && caches(web.plan[web.leads[id] as int], id) by {
            assert(web.opened.contains(web.leads[id]));
        }
    }
}

} // verus!
