//! What a visit of each kind of node is for.

use crate::arena::Node;
use crate::edge::{Edge, EdgeKey};
use crate::ir::{IRModel, MaintainOrderJoin, Plan, SinkPlan, UniqueKeepStrategy};
use crate::ir_graph::EdgeKeysModel;
use crate::orders::{ExprReply, ObservableOrders};
use crate::rules::{arity_fits, none_ordered, outcome, reply_fits};
use crate::simplify::{edges_at, position, GraphState};
use vstd::prelude::*;

verus! {

/// Whether the in edge number `j` of `node` is ordered.
pub open spec fn in_ordered(state: GraphState, node: Node, j: int) -> bool {
    state.edges[state.links[node].in_edges[j]] == Edge::Ordered
}

/// Whether the out edge number `i` of `node` is ordered.
pub open spec fn out_ordered(state: GraphState, node: Node, i: int) -> bool {
    state.edges[state.links[node].out_edges[i]] == Edge::Ordered
}

/// A visit of `node` takes `before` to `after` and leaves the node in the plan.
pub open spec fn stays(
    before: GraphState,
    node: Node,
    reply: Option<ExprReply>,
    after: GraphState,
) -> bool {
    before.can_visit(node) && before.visited(node, reply, after, false)
}

/// What a visit leaves of the node and of the edges around it.
proof fn lemma_stays(before: GraphState, node: Node, reply: Option<ExprReply>, after: GraphState)
    requires
        stays(before, node, reply, after),
    ensures
        ({
            let (num_ins, num_outs) = (
                before.links[node].in_edges.len(),
                before.links[node].out_edges.len(),
            );
            let end = outcome(before.plan[node as int], before.ins(node), before.outs(node), reply);
            &&& arity_fits(before.plan[node as int], num_ins, num_outs)
            &&& after.links == before.links
            &&& after.plan[node as int] == end.ir
            &&& before.ins(node).len() == num_ins && before.outs(node).len() == num_outs
            &&& end.ins.len() == num_ins && end.outs.len() == num_outs
            &&& forall|j: int|
                0 <= j < num_ins ==> (#[trigger] in_ordered(before, node, j) <==> before.ins(
                    node,
                )[j] is Ordered)
            &&& forall|i: int|
                0 <= i < num_outs ==> (#[trigger] out_ordered(before, node, i) <==> before.outs(
                    node,
                )[i] is Ordered)
            &&& forall|j: int|
                0 <= j < num_ins ==> (#[trigger] in_ordered(after, node, j)
                    <==> end.ins[j] is Ordered)
            &&& forall|i: int|
                0 <= i < num_outs ==> (#[trigger] out_ordered(after, node, i)
                    <==> end.outs[i] is Ordered)
        }),
{
    let keys = before.links[node];
    let end = outcome(before.plan[node as int], before.ins(node), before.outs(node), reply);
    assert(edges_at(after.edges, keys.in_edges) == end.ins);
    assert(edges_at(after.edges, keys.out_edges) == end.outs);
    assert forall|j: int| 0 <= j < keys.in_edges.len() implies (#[trigger] in_ordered(
        after,
        node,
        j,
    ) <==> end.ins[j] is Ordered) by {
        assert(edges_at(after.edges, keys.in_edges)[j] == end.ins[j]);
    }
    assert forall|i: int| 0 <= i < keys.out_edges.len() implies (#[trigger] out_ordered(
        after,
        node,
        i,
    ) <==> end.outs[i] is Ordered) by {
        assert(edges_at(after.edges, keys.out_edges)[i] == end.outs[i]);
    }
}

/// A selection keeps the order of its input exactly where its expressions observe it, inside
/// themselves or for the sake of an ordered output. Its output stays ordered exactly where some
/// order shows in it: one that the expressions make, or that of an ordered input.
pub proof fn law_select(before: GraphState, node: Node, orders: ExprReply, after: GraphState)
    requires
        stays(before, node, Some(orders), after),
        before.plan[node as int] is Select,
    ensures
        after.plan[node as int] == before.plan[node as int],
        in_ordered(after, node, 0) <==> in_ordered(before, node, 0) && (orders.internal.column || (
        orders.first.column && out_ordered(before, node, 0))),
        out_ordered(after, node, 0) <==> out_ordered(before, node, 0) && (orders.first.independent
            || (orders.first.column && in_ordered(after, node, 0))),
{
    lemma_stays(before, node, Some(orders), after);
}

/// A column extension does the same as a selection. If it passes input columns on next to columns
/// in an order of their own, it needs the order of its input as well.
pub proof fn law_hstack(before: GraphState, node: Node, orders: ExprReply, after: GraphState)
    requires
        stays(before, node, Some(orders), after),
        before.plan[node as int] is HStack,
    ensures
        after.plan[node as int] == before.plan[node as int],
        before.plan[node as int] matches Plan::HStack { exprs, schema_len, .. } ==> (in_ordered(
            after,
            node,
            0,
        ) <==> in_ordered(before, node, 0) && (orders.internal.column || (orders.first.column
            && out_ordered(before, node, 0)) || (orders.first.independent && exprs.len()
            != schema_len))),
        out_ordered(after, node, 0) <==> out_ordered(before, node, 0) && (orders.first.independent
            || (orders.first.column && in_ordered(after, node, 0))),
{
    lemma_stays(before, node, Some(orders), after);
}

/// A sort that stays keeps the order of its input exactly where that shows in the output: where
/// equal rows are to stay as they were, or the keys depend on it. It goes on keeping equal rows as
/// they were exactly if their order is still there. Its output stays as it is.
pub proof fn law_sort(before: GraphState, node: Node, orders: ExprReply, after: GraphState)
    requires
        stays(before, node, Some(orders), after),
        before.plan[node as int] is Sort,
    ensures
        (before.plan[node as int], after.plan[node as int]) matches (
            Plan::Sort { input, by_column, has_slice, maintain_order },
            Plan::Sort {
                input: input2,
                by_column: by_column2,
                has_slice: has_slice2,
                maintain_order: maintain_order2,
            },
        ) && {
            &&& input2 == input && by_column2 == by_column && has_slice2 == has_slice
            &&& in_ordered(after, node, 0) <==> in_ordered(before, node, 0) && (maintain_order
                || orders.internal.column || orders.first.independent)
            &&& maintain_order2 <==> maintain_order && in_ordered(before, node, 0)
        },
        out_ordered(after, node, 0) <==> out_ordered(before, node, 0),
{
    lemma_stays(before, node, Some(orders), after);
}

/// A filter keeps the order of its input exactly where somebody observes it: whoever reads the rows
/// that pass, or the predicate. Rows come out in order exactly if they come in so and are wanted
/// so.
pub proof fn law_filter(before: GraphState, node: Node, orders: ExprReply, after: GraphState)
    requires
        stays(before, node, Some(orders), after),
        before.plan[node as int] is Filter,
    ensures
        after.plan[node as int] == before.plan[node as int],
        in_ordered(after, node, 0) <==> in_ordered(before, node, 0) && (out_ordered(before, node, 0)
            || orders.internal.column || orders.first.independent),
        out_ordered(after, node, 0) <==> out_ordered(before, node, 0) && in_ordered(
            before,
            node,
            0,
        ),
{
    lemma_stays(before, node, Some(orders), after);
}

/// A grouping keeps the order of its input exactly where it is observed: by the grouping as such,
/// by its expressions, or by groups that come in the order of their keys. It goes on maintaining
/// order exactly if the order of the input stays. Its output stays ordered exactly if the order of
/// the input stays and the grouping hands it on.
pub proof fn law_group_by(before: GraphState, node: Node, orders: ExprReply, after: GraphState)
    requires
        stays(before, node, Some(orders), after),
        before.plan[node as int] is GroupBy,
    ensures
        (before.plan[node as int], after.plan[node as int]) matches (
            Plan::GroupBy { input, keys, aggs, maintain_order, is_dynamic, is_rolling, has_apply },
            Plan::GroupBy {
                input: input2,
                keys: keys2,
                aggs: aggs2,
                maintain_order: maintain_order2,
                is_dynamic: is_dynamic2,
                is_rolling: is_rolling2,
                has_apply: has_apply2,
            },
        ) && {
            let observing = is_dynamic || is_rolling || has_apply;
            &&& input2 == input && keys2 == keys && aggs2 == aggs
            &&& is_dynamic2 == is_dynamic && is_rolling2 == is_rolling && has_apply2 == has_apply
            &&& in_ordered(after, node, 0) <==> in_ordered(before, node, 0) && (observing
                || orders.internal.column || orders.first.independent || (maintain_order
                && orders.first.column))
            &&& maintain_order2 <==> maintain_order && in_ordered(after, node, 0)
            &&& out_ordered(after, node, 0) <==> out_ordered(before, node, 0) && in_ordered(
                after,
                node,
                0,
            ) && (maintain_order || observing)
        },
{
    lemma_stays(before, node, Some(orders), after);
}

/// A distinct goes on maintaining order exactly if it did, rows come in ordered and are wanted so,
/// whichever rows it keeps. It needs the order of its input then, and where it keeps rows by their
/// position. Its output stays ordered exactly if it maintains order and somebody wants it.
pub proof fn law_distinct(
    before: GraphState,
    node: Node,
    reply: Option<ExprReply>,
    after: GraphState,
)
    requires
        stays(before, node, reply, after),
        before.plan[node as int] is Distinct,
    ensures
        (before.plan[node as int], after.plan[node as int]) matches (
            Plan::Distinct { input, maintain_order, keep_strategy },
            Plan::Distinct {
                input: input2,
                maintain_order: maintain_order2,
                keep_strategy: keep_strategy2,
            },
        ) && {
            &&& input2 == input && keep_strategy2 == keep_strategy
            &&& maintain_order2 <==> maintain_order && in_ordered(before, node, 0) && out_ordered(
                before,
                node,
                0,
            )
            &&& in_ordered(after, node, 0) <==> in_ordered(before, node, 0) && (keep_strategy
                == UniqueKeepStrategy::First || keep_strategy == UniqueKeepStrategy::Last || (
            maintain_order && out_ordered(before, node, 0)))
            &&& out_ordered(after, node, 0) <==> out_ordered(before, node, 0) && maintain_order
        },
{
    lemma_stays(before, node, reply, after);
}

/// The sides that a join follows: left, then right.
pub open spec fn sides(order: MaintainOrderJoin) -> (bool, bool) {
    match order {
        MaintainOrderJoin::Neither => (false, false),
        MaintainOrderJoin::Left => (true, false),
        MaintainOrderJoin::Right => (false, true),
        MaintainOrderJoin::LeftRight => (true, true),
        MaintainOrderJoin::RightLeft => (true, true),
    }
}

/// A join goes on following a side exactly if it did, that side comes in ordered and the rows are
/// wanted in order; where it goes on following both, the same one leads. It needs the order of the
/// sides that it follows, as far as the rows are wanted in order, and a side that it does not
/// follow loses its order. Its output stays ordered exactly if it followed some side.
///
/// A join that followed its left side only, whose rows come in no order, leaves its right side
/// alone this time.
pub proof fn law_join(before: GraphState, node: Node, reply: Option<ExprReply>, after: GraphState)
    requires
        stays(before, node, reply, after),
        before.plan[node as int] matches Plan::Join { is_asof, .. } && !is_asof,
    ensures
        (before.plan[node as int], after.plan[node as int]) matches (
            Plan::Join { input_left, input_right, left_on, right_on, is_asof, maintain_order },
            Plan::Join {
                input_left: input_left2,
                input_right: input_right2,
                left_on: left_on2,
                right_on: right_on2,
                is_asof: is_asof2,
                maintain_order: maintain_order2,
            },
        ) && {
            let (left, right) = sides(maintain_order);
            let (left2, right2) = sides(maintain_order2);
            let wanted = out_ordered(before, node, 0);
            &&& input_left2 == input_left && input_right2 == input_right
            &&& left_on2 == left_on && right_on2 == right_on && is_asof2 == is_asof
            &&& left2 <==> left && wanted && in_ordered(before, node, 0)
            &&& right2 <==> right && wanted && in_ordered(before, node, 1)
            &&& left2 && right2 ==> maintain_order2 == maintain_order
            &&& in_ordered(after, node, 0) <==> in_ordered(before, node, 0) && wanted && left
            &&& in_ordered(after, node, 1) <==> in_ordered(before, node, 1) && wanted && (right || (
            left && !in_ordered(before, node, 0)))
            &&& out_ordered(after, node, 0) <==> wanted && (left || right)
        },
{
    lemma_stays(before, node, reply, after);
}

/// A join by nearest keys is left alone, with all edges around it.
pub proof fn law_asof_join(
    before: GraphState,
    node: Node,
    reply: Option<ExprReply>,
    after: GraphState,
)
    requires
        stays(before, node, reply, after),
        before.plan[node as int] matches Plan::Join { is_asof, .. } && is_asof,
    ensures
        after.plan[node as int] == before.plan[node as int],
        in_ordered(after, node, 0) <==> in_ordered(before, node, 0),
        in_ordered(after, node, 1) <==> in_ordered(before, node, 1),
        out_ordered(after, node, 0) <==> out_ordered(before, node, 0),
{
    lemma_stays(before, node, reply, after);
}

/// A union goes on maintaining order exactly if it did and the rows are wanted in order. Then all
/// edges around it stay what they are; otherwise none of them is ordered.
pub proof fn law_union(before: GraphState, node: Node, reply: Option<ExprReply>, after: GraphState)
    requires
        stays(before, node, reply, after),
        before.plan[node as int] is Union,
    ensures
        (before.plan[node as int], after.plan[node as int]) matches (
            Plan::Union { inputs, maintain_order },
            Plan::Union { inputs: inputs2, maintain_order: maintain_order2 },
        ) && {
            &&& inputs2 == inputs
            &&& maintain_order2 <==> maintain_order && out_ordered(before, node, 0)
            &&& out_ordered(after, node, 0) <==> maintain_order2
            &&& forall|j: int|
                0 <= j < before.links[node].in_edges.len() ==> (#[trigger] in_ordered(
                    after,
                    node,
                    j,
                ) <==> in_ordered(before, node, j) && maintain_order2)
        },
{
    lemma_stays(before, node, reply, after);
}

/// A merge of sorted inputs stays one, with all edges as they are, exactly if its rows are wanted
/// in order and some input comes in order. Otherwise it becomes a union of the same inputs, left
/// before right, that maintains no order, and no edge around it is ordered.
pub proof fn law_merge_sorted(
    before: GraphState,
    node: Node,
    reply: Option<ExprReply>,
    after: GraphState,
)
    requires
        stays(before, node, reply, after),
        before.plan[node as int] is MergeSorted,
    ensures
        ({
            let kept = out_ordered(before, node, 0) && (in_ordered(before, node, 0) || in_ordered(
                before,
                node,
                1,
            ));
            &&& kept ==> after.plan[node as int] == before.plan[node as int]
            &&& !kept ==> match before.plan[node as int] {
                Plan::MergeSorted { input_left, input_right } => after.plan[node as int] == (
                Plan::Union { inputs: seq![input_left, input_right], maintain_order: false }),
                _ => false,
            }
            &&& in_ordered(after, node, 0) <==> kept && in_ordered(before, node, 0)
            &&& in_ordered(after, node, 1) <==> kept && in_ordered(before, node, 1)
            &&& out_ordered(after, node, 0) <==> kept
        }),
{
    lemma_stays(before, node, reply, after);
}

/// A function over whole frames keeps the order of its input exactly where it observes it, or hands
/// it on to somebody who wants it. Its output stays ordered exactly where it is wanted so and the
/// function makes an order or hands one on.
pub proof fn law_map_function(
    before: GraphState,
    node: Node,
    reply: Option<ExprReply>,
    after: GraphState,
)
    requires
        stays(before, node, reply, after),
        before.plan[node as int] is MapFunction,
    ensures
        after.plan[node as int] == before.plan[node as int],
        before.plan[node as int] matches Plan::MapFunction { function, .. } ==> {
            &&& in_ordered(after, node, 0) <==> in_ordered(before, node, 0) && (
            function.observes_input_order || (function.has_equal_order && out_ordered(
                before,
                node,
                0,
            )))
            &&& in_ordered(after, node, 0) ==> (out_ordered(after, node, 0) <==> out_ordered(
                before,
                node,
                0,
            ) && (function.order_producing_if_ordered || function.has_equal_order))
            &&& !in_ordered(after, node, 0) ==> (out_ordered(after, node, 0) <==> out_ordered(
                before,
                node,
                0,
            ) && function.order_producing_if_unordered)
        },
{
    lemma_stays(before, node, reply, after);
}

/// Some edge over which `node` reads is ordered.
pub open spec fn some_in_ordered(state: GraphState, node: Node) -> bool {
    exists|j: int|
        0 <= j < state.links[node].in_edges.len() && #[trigger] in_ordered(state, node, j)
}

/// Some edge over which `node` is read is ordered.
pub open spec fn some_out_ordered(state: GraphState, node: Node) -> bool {
    exists|i: int|
        0 <= i < state.links[node].out_edges.len() && #[trigger] out_ordered(state, node, i)
}

proof fn lemma_some_ordered(state: GraphState, node: Node)
    ensures
        some_in_ordered(state, node) <==> !none_ordered(state.ins(node)),
        some_out_ordered(state, node) <==> !none_ordered(state.outs(node)),
{
    let keys = state.links[node];
    assert forall|j: int| 0 <= j < keys.in_edges.len() implies (#[trigger] in_ordered(
        state,
        node,
        j,
    ) <==> !(state.ins(node)[j] is Unordered)) by {
        assert(state.ins(node)[j] == state.edges[keys.in_edges[j]]);
    }
    assert forall|i: int| 0 <= i < keys.out_edges.len() implies (#[trigger] out_ordered(
        state,
        node,
        i,
    ) <==> !(state.outs(node)[i] is Unordered)) by {
        assert(state.outs(node)[i] == state.edges[keys.out_edges[i]]);
    }
    if !none_ordered(state.ins(node)) {
        let j = choose|j: int|
            0 <= j < state.ins(node).len() && !(#[trigger] state.ins(node)[j] is Unordered);
        assert(in_ordered(state, node, j));
    }
    if !none_ordered(state.outs(node)) {
        let i = choose|i: int|
            0 <= i < state.outs(node).len() && !(#[trigger] state.outs(node)[i] is Unordered);
        assert(out_ordered(state, node, i));
    }
}

/// Nodes that put rows next to each other, pick columns or cut rows out by their position need the
/// order of all their inputs. Their outputs stay ordered exactly where some input is.
pub proof fn law_passing_on(
    before: GraphState,
    node: Node,
    reply: Option<ExprReply>,
    after: GraphState,
)
    requires
        stays(before, node, reply, after),
        before.plan[node as int] is HConcat || before.plan[node as int] is SimpleProjection
            || before.plan[node as int] is Slice || before.plan[node as int] is ExtContext,
    ensures
        after.plan[node as int] == before.plan[node as int],
        forall|j: int|
            0 <= j < before.links[node].in_edges.len() ==> (#[trigger] in_ordered(after, node, j)
                <==> in_ordered(before, node, j)),
        forall|i: int|
            0 <= i < before.links[node].out_edges.len() ==> (#[trigger] out_ordered(after, node, i)
                <==> out_ordered(before, node, i) && some_in_ordered(before, node)),
{
    lemma_stays(before, node, reply, after);
    lemma_some_ordered(before, node);
}

/// A cache needs the order of its input exactly as long as one of its consumers wants it, and each
/// of its outputs stays ordered exactly where its input is ordered.
pub proof fn law_cache(before: GraphState, node: Node, reply: Option<ExprReply>, after: GraphState)
    requires
        stays(before, node, reply, after),
        before.plan[node as int] is Cache,
    ensures
        after.plan[node as int] == before.plan[node as int],
        forall|j: int|
            0 <= j < before.links[node].in_edges.len() ==> (#[trigger] in_ordered(after, node, j)
                <==> in_ordered(before, node, j) && some_out_ordered(before, node)),
        forall|i: int|
            0 <= i < before.links[node].out_edges.len() ==> (#[trigger] out_ordered(after, node, i)
                <==> out_ordered(before, node, i) && some_in_ordered(before, node)),
{
    lemma_stays(before, node, reply, after);
    lemma_some_ordered(before, node);
}

/// A sink goes on maintaining order exactly if it did and its rows come in ordered, whether it
/// writes to one target or to several. It needs the order of its input exactly then.
pub proof fn law_sink(before: GraphState, node: Node, reply: Option<ExprReply>, after: GraphState)
    requires
        stays(before, node, reply, after),
        before.plan[node as int] is Sink,
    ensures
        (before.plan[node as int], after.plan[node as int]) matches (
            Plan::Sink { input, payload },
            Plan::Sink { input: input2, payload: payload2 },
        ) && input2 == input && match (payload, payload2) {
            (
                SinkPlan::Partitioned { key_exprs, maintain_order },
                SinkPlan::Partitioned { key_exprs: key_exprs2, maintain_order: maintain_order2 },
            ) => {
                &&& key_exprs2 == key_exprs
                &&& maintain_order2 <==> maintain_order && in_ordered(before, node, 0)
                &&& in_ordered(after, node, 0) <==> maintain_order2
            },
            (
                SinkPlan::Single { maintain_order },
                SinkPlan::Single { maintain_order: maintain_order2 },
            ) => {
                &&& maintain_order2 <==> maintain_order && in_ordered(before, node, 0)
                &&& in_ordered(after, node, 0) <==> maintain_order2
            },
            _ => false,
        },
{
    lemma_stays(before, node, reply, after);
}

/// A source is left alone, with all edges around it.
pub proof fn law_source(before: GraphState, node: Node, reply: Option<ExprReply>, after: GraphState)
    requires
        stays(before, node, reply, after),
        before.plan[node as int] is Scan || before.plan[node as int] is DataFrameScan
            || before.plan[node as int] is PythonScan,
    ensures
        after.plan[node as int] == before.plan[node as int],
        forall|j: int|
            0 <= j < before.links[node].in_edges.len() ==> (#[trigger] in_ordered(after, node, j)
                <==> in_ordered(before, node, j)),
        forall|i: int|
            0 <= i < before.links[node].out_edges.len() ==> (#[trigger] out_ordered(after, node, i)
                <==> out_ordered(before, node, i)),
{
    lemma_stays(before, node, reply, after);
}

/// A visit touches nothing but its node and the edges around it.
pub proof fn law_visits_are_local(
    before: GraphState,
    node: Node,
    reply: Option<ExprReply>,
    after: GraphState,
    key: EdgeKey,
    other: Node,
)
    requires
        stays(before, node, reply, after),
        before.edges.contains_key(key),
        forall|j: int|
            0 <= j < before.links[node].in_edges.len() ==> #[trigger] before.links[node].in_edges[j]
                != key,
        forall|i: int|
            0 <= i < before.links[node].out_edges.len()
                ==> #[trigger] before.links[node].out_edges[i] != key,
        other < before.plan.len(),
        other != node,
    ensures
        after.edges.dom() == before.edges.dom(),
        after.edges[key] == before.edges[key],
        after.plan.len() == before.plan.len(),
        after.plan[other as int] == before.plan[other as int],
        after.links == before.links,
{
}

////////////////////////////////////////////////////////////////////////////////////////////////
// Deletions
////////////////////////////////////////////////////////////////////////////////////////////////

/// A visit deletes a node exactly if it is a sort of all rows and the edge over which it is read is
/// unordered, so that nobody observes the order.
pub proof fn law_deletes_unobserved_sorts(
    before: GraphState,
    node: Node,
    reply: Option<ExprReply>,
    after: GraphState,
    deleted: bool,
)
    requires
        before.can_visit(node),
        before.visited(node, reply, after, deleted),
    ensures
        deleted <==> match before.plan[node as int] {
            Plan::Sort { has_slice, .. } => !has_slice && before.edges[before.links[node].out_edges[
                0]] == Edge::Unordered,
            _ => false,
        },
        deleted ==> before.links[node].out_edges.len() == 1,
{
}

proof fn lemma_first<T>(list: Seq<T>, value: T, k: int)
    requires
        0 <= k < list.len(),
        list[k] == value,
    ensures
        0 <= position(list, value) < list.len(),
        list[position(list, value)] == value,
        forall|j: int| 0 <= j < position(list, value) ==> list[j] != value,
    decreases k,
{
    if exists|j: int| 0 <= j < k && list[j] == value {
        let j = choose|j: int| 0 <= j < k && list[j] == value;
        lemma_first(list, value, j);
    }
}

/// `after` is `state` with `node` bypassed: its reader has `input` in its place, and with the node
/// put back it is what it was. At `input` the reader takes the place of the node, over the edge
/// over which it read from the node. All else stays as it is.
pub open spec fn bypassed(state: GraphState, node: Node, input: Node, after: GraphState) -> bool {
    let reader = state.links[node].out_nodes[0];
    let below = state.links[node].in_edges[0];
    let ir = state.plan[reader as int];
    &&& after.edges == state.edges
    &&& after.plan.len() == state.plan.len()
    &&& forall|n: int|
        0 <= n < state.plan.len() && n != reader ==> #[trigger] after.plan[n] == state.plan[n]
    &&& after.links.dom() == state.links.dom()
    &&& forall|n: Node|
        state.links.contains_key(n) && n != input ==> #[trigger] after.links[n] == state.links[n]
    &&& exists|k: int, i: int|
        {
            &&& 0 <= k < ir.inputs().len()
            &&& #[trigger] ir.inputs()[k] == node
            &&& after.plan[reader as int].inputs() == ir.inputs().update(k, input)
            &&& after.plan[reader as int].with_input(k, node) == ir
            &&& 0 <= i < state.links[input].out_edges.len()
            &&& #[trigger] state.links[input].out_edges[i] == below
            &&& forall|h: int| 0 <= h < i ==> state.links[input].out_edges[h] != below
            &&& after.links[input] == (EdgeKeysModel {
                in_edges: state.links[input].in_edges,
                out_edges: state.links[input].out_edges.update(
                    i,
                    state.links[reader].in_edges[k],
                ),
                out_nodes: state.links[input].out_nodes.update(i, reader),
            })
        }
}

/// Unlinking a node bypasses it.
pub proof fn law_unlinked(state: GraphState, node: Node, input: Node)
    requires
        state.can_unlink(node, input),
    ensures
        bypassed(state, node, input, state.unlinked(node, input)),
{
    let after = state.unlinked(node, input);
    let reader = state.consumer(node);
    let ir = state.plan[reader as int];
    let below = state.links[node].in_edges[0];
    let outs = state.links[input].out_edges;
    let some = choose|k: int| 0 <= k < ir.inputs().len() && ir.inputs()[k] == node;
    lemma_first(ir.inputs(), node, some);
    let other = choose|i: int| 0 <= i < outs.len() && outs[i] == below;
    lemma_first(outs, below, other);
    let k = state.consumer_slot(node);
    let i = position(outs, below);
    law_inputs_exchanged(ir, k, input, node);
    assert(after.links.dom() =~= state.links.dom());
    assert(ir.inputs()[k] == node && outs[i] == below);
}

/// A deletion bypasses the node, with the input that it read from, and takes the order away from
/// the edge over which it read. The edge over which it was read stays as it is, and now leads to
/// that input.
pub proof fn law_deletion(
    before: GraphState,
    node: Node,
    reply: Option<ExprReply>,
    after: GraphState,
)
    requires
        before.can_visit(node),
        before.visited(node, reply, after, true),
    ensures
        ({
            let below = before.links[node].in_edges[0];
            let taken = GraphState {
                edges: before.edges.insert(below, Edge::Unordered),
                ..before
            };
            &&& before.plan[node as int] matches Plan::Sort { input, .. }
            &&& bypassed(taken, node, input, after)
        }),
        before.edges.contains_key(before.links[node].in_edges[0]),
{
    let taken = GraphState {
        edges: before.edges.insert(before.links[node].in_edges[0], Edge::Unordered),
        ..before
    };
    let input = before.plan[node as int].inputs()[0];
    assert(taken.can_unlink(node, input));
    law_unlinked(taken, node, input);
}

/// Exchanging an input touches that input and nothing else: with the old input put back the node is
/// what it was, an input exchanged for itself changes nothing, and of two exchanges the last
/// counts.
pub proof fn law_inputs_exchanged(ir: IRModel, at: int, a: Node, b: Node)
    requires
        0 <= at < ir.inputs().len(),
    ensures
        ir.with_input(at, a).inputs() == ir.inputs().update(at, a),
        ir.with_input(at, a).with_input(at, ir.inputs()[at]) == ir,
        ir.with_input(at, ir.inputs()[at]) == ir,
        ir.with_input(at, a).with_input(at, b) == ir.with_input(at, b),
{
    match ir {
        Plan::Union { inputs, .. }
        | Plan::HConcat { inputs }
        | Plan::ExtContext { inputs }
        | Plan::SinkMultiple { inputs } => {
            assert(inputs.update(at, a).update(at, inputs[at]) =~= inputs);
            assert(inputs.update(at, inputs[at]) =~= inputs);
            assert(inputs.update(at, a).update(at, b) =~= inputs.update(at, b));
        },
        _ => {},
    }
}

/// The inputs of a node are those that it names, and the left one comes before the right one.
pub proof fn law_inputs_named(ir: IRModel)
    ensures
        match ir {
            Plan::Join { input_left, input_right, .. } | Plan::MergeSorted {
                input_left,
                input_right,
            } => ir.inputs() == seq![input_left, input_right],
            Plan::Union { inputs, .. }
            | Plan::HConcat { inputs }
            | Plan::ExtContext { inputs }
            | Plan::SinkMultiple { inputs } => ir.inputs() == inputs,
            Plan::Scan | Plan::DataFrameScan | Plan::PythonScan | Plan::Invalid => ir.inputs().len()
                == 0,
            Plan::Select { input, .. }
            | Plan::HStack { input, .. }
            | Plan::Sort { input, .. }
            | Plan::Filter { input, .. }
            | Plan::GroupBy { input, .. }
            | Plan::Distinct { input, .. }
            | Plan::MapFunction { input, .. }
            | Plan::SimpleProjection { input }
            | Plan::Slice { input }
            | Plan::Cache { input, .. }
            | Plan::Sink { input, .. } => ir.inputs() == seq![input],
        },
{
}

////////////////////////////////////////////////////////////////////////////////////////////////
// Questions and answers
////////////////////////////////////////////////////////////////////////////////////////////////

/// A query says that its results may come in any order exactly if the node is read over an
/// unordered edge and every column that it hands on is one of those results.
pub proof fn law_query_output_order(state: GraphState, node: Node)
    requires
        state.can_visit(node),
        state.query(node) is Some,
    ensures
        state.query(node)->0.unordered_output <==> {
            &&& match state.plan[node as int] {
                Plan::Select { .. } => true,
                Plan::HStack { exprs, schema_len, .. } => exprs.len() == schema_len,
                _ => false,
            }
            &&& state.edges[state.links[node].out_edges[0]] == Edge::Unordered
        },
{
}

/// A query asks about the expressions of the node, all of them and in order. A node without
/// expressions asks nothing, nor does a sort that nobody needs.
pub proof fn law_query_exprs(state: GraphState, node: Node)
    requires
        state.can_visit(node),
    ensures
        match state.plan[node as int] {
            Plan::Select { expr, .. } => {
                &&& state.query(node) matches Some(q)
                &&& q.first == expr
                &&& q.second is None
            },
            Plan::HStack { exprs, .. } => {
                &&& state.query(node) matches Some(q)
                &&& q.first == exprs
                &&& q.second is None
            },
            Plan::Sort { by_column, has_slice, .. } => {
                &&& state.query(node) is None <==> !has_slice
                    && state.edges[state.links[node].out_edges[0]] == Edge::Unordered
                &&& state.query(node) matches Some(q) ==> q.first == by_column && q.second is None
            },
            Plan::Filter { predicate, .. } => {
                &&& state.query(node) matches Some(q)
                &&& q.first == seq![predicate]
                &&& q.second is None
            },
            Plan::GroupBy { keys, aggs, .. } => {
                &&& state.query(node) matches Some(q)
                &&& q.first == keys
                &&& q.second == Some(aggs)
            },
            Plan::Join { left_on, right_on, .. } => {
                &&& state.query(node) matches Some(q)
                &&& q.first == left_on
                &&& q.second == Some(right_on)
            },
            Plan::Sink { payload: SinkPlan::Partitioned { key_exprs, .. }, .. } => {
                &&& state.query(node) matches Some(q)
                &&& q.first == key_exprs
                &&& q.second is None
            },
            _ => state.query(node) is None,
        },
{
}

/// An answer is refused exactly if it is none to the query, or if it says that keys of a join or of
/// a partitioned sink depend on more than the row that they are computed for.
pub proof fn law_answers_refused(state: GraphState, node: Node, orders: ExprReply)
    requires
        state.can_visit(node),
    ensures
        reply_fits(state.plan[node as int], state.outs(node), None) <==> state.query(node) is None,
        reply_fits(state.plan[node as int], state.outs(node), Some(orders)) <==> {
            &&& state.query(node) is Some
            &&& match state.plan[node as int] {
                Plan::Join { .. } => !orders.first.independent && !orders.second.independent
                    && !orders.internal.column,
                Plan::Sink { payload: SinkPlan::Partitioned { .. }, .. } => {
                    !orders.first.independent && !orders.internal.column
                },
                _ => true,
            }
        },
{
}

/// Of three things exactly one holds: no order is observable, that of the input columns alone, or
/// one that the expressions make.
pub proof fn law_orders_told_apart(orders: ObservableOrders)
    ensures
        orders.none() ==> !orders.column && !orders.independent,
        orders.column_only() ==> orders.column && !orders.independent,
        orders.none() || orders.column_only() || orders.independent,
{
}

/// Expressions are evaluated row by row exactly if they make no order of their own, as far as they
/// belong to a group that there is, and observe none of their input.
pub proof fn law_elementwise(reply: ExprReply)
    ensures
        reply.elementwise(false) <==> !reply.first.independent && !reply.internal.column,
        reply.elementwise(true) <==> reply.elementwise(false) && !reply.second.independent,
{
}

/// How many edges a node can be visited with: nodes that turn one input into one output need one of
/// each, those with two sides two in edges and one out edge, a union one out edge, and a sink one
/// in edge and no out edge. Several sinks in one, and nodes that are not valid, cannot be visited,
/// and all others can with any number of edges.
pub proof fn law_edges_needed(ir: IRModel, num_ins: nat, num_outs: nat)
    ensures
        arity_fits(ir, num_ins, num_outs) <==> match ir {
            Plan::Select { .. }
            | Plan::HStack { .. }
            | Plan::Sort { .. }
            | Plan::Filter { .. }
            | Plan::GroupBy { .. }
            | Plan::Distinct { .. }
            | Plan::MapFunction { .. } => num_ins == 1 && num_outs == 1,
            Plan::Join { .. } | Plan::MergeSorted { .. } => num_ins == 2 && num_outs == 1,
            Plan::Union { .. } => num_outs == 1,
            Plan::Sink { .. } => num_ins == 1 && num_outs == 0,
            Plan::SinkMultiple { .. } | Plan::Invalid => false,
            _ => true,
        },
{
}

} // verus!
