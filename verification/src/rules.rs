//! What a visit of a plan node does to the edges around it and to its own options.
//!
//! Each kind of node has a rule, stated as a spec function from the edges before the visit to
//! the edges after it, and a function that applies it.

use crate::edge::Edge;
use crate::ir::{FunctionIR, IRModel, MaintainOrderJoin, Plan, SinkPlan, UniqueKeepStrategy};
use crate::orders::{ExprQueryModel, ExprReply};
use vstd::prelude::*;

verus! {

/// The edge that is unordered exactly if `unordered`.
pub open spec fn edge_if(unordered: bool) -> Edge {
    if unordered {
        Edge::Unordered
    } else {
        Edge::Ordered
    }
}

/// Selections and column extensions: in edge and out edge.
///
/// `full` says that every output column comes from the expressions; otherwise some input columns
/// are passed on next to them.
pub open spec fn projection_rule(
    in_edge: Edge,
    out_edge: Edge,
    full: bool,
    reply: ExprReply,
) -> (Edge, Edge) {
    let observed = (out_edge is Ordered && reply.first.column) || (!full
        && reply.first.independent) || reply.internal.column;
    let in_after = edge_if(in_edge is Unordered || !observed);
    let out_after = edge_if(
        out_edge is Unordered || reply.first.none() || (reply.first.column_only()
            && in_after is Unordered),
    );
    (in_after, out_after)
}

/// Applies [`projection_rule`].
pub fn simplify_projection(in_edge: &mut Edge, out_edge: &mut Edge, full: bool, reply: &ExprReply)
    ensures
        (*final(in_edge), *final(out_edge)) == projection_rule(
            *old(in_edge),
            *old(out_edge),
            full,
            *reply,
        ),
{
    let observed_by_consumer = !out_edge.is_unordered() && reply.first.column;
    // Columns in an order of their own stand next to columns in the order of the input.
    let observed_by_mixed_order = !full && reply.first.independent;

    if !(observed_by_consumer || observed_by_mixed_order || reply.internal.column) {
        *in_edge = Edge::Unordered;
    }
    if reply.first.is_empty() || (reply.first.is_column() && in_edge.is_unordered()) {
        *out_edge = Edge::Unordered;
    }
}

/// Sorts that stay: in edge and `maintain_order`.
pub open spec fn sort_rule(in_edge: Edge, maintain_order: bool, reply: ExprReply) -> (Edge, bool) {
    let needed = in_edge is Ordered && (maintain_order || reply.internal.column
        || reply.first.independent);
    (edge_if(!needed), maintain_order && needed)
}

/// Applies [`sort_rule`].
pub fn simplify_sort(in_edge: &mut Edge, maintain_order: &mut bool, reply: &ExprReply)
    ensures
        (*final(in_edge), *final(maintain_order)) == sort_rule(
            *old(in_edge),
            *old(maintain_order),
            *reply,
        ),
{
    if in_edge.is_unordered() || !(*maintain_order || reply.internal.column
        || reply.first.independent) {
        *in_edge = Edge::Unordered;
        *maintain_order = false;
    }
}

/// Filters: in edge and out edge.
pub open spec fn filter_rule(in_edge: Edge, out_edge: Edge, reply: ExprReply) -> (Edge, Edge) {
    let in_after = edge_if(
        in_edge is Unordered || (out_edge is Unordered && !reply.internal.column
            && !reply.first.independent),
    );
    (in_after, edge_if(out_edge is Unordered || in_after is Unordered))
}

/// Applies [`filter_rule`].
pub fn simplify_filter(in_edge: &mut Edge, out_edge: &mut Edge, reply: &ExprReply)
    ensures
        (*final(in_edge), *final(out_edge)) == filter_rule(*old(in_edge), *old(out_edge), *reply),
{
    if out_edge.is_unordered() && !(reply.internal.column || reply.first.independent) {
        *in_edge = Edge::Unordered;
    }
    if in_edge.is_unordered() {
        *out_edge = Edge::Unordered;
    }
}

/// Groupings: in edge, out edge and `maintain_order`.
///
/// `observing` says that the grouping looks at the order of its rows whatever its expressions.
pub open spec fn group_by_rule(
    in_edge: Edge,
    out_edge: Edge,
    maintain_order: bool,
    observing: bool,
    reply: ExprReply,
) -> (Edge, Edge, bool) {
    let observed = observing || reply.first.independent || reply.internal.column || (maintain_order
        && reply.first.column);
    let in_after = edge_if(in_edge is Unordered || !observed);
    let out_after = edge_if(
        out_edge is Unordered || in_after is Unordered || !(maintain_order || observing),
    );
    (in_after, out_after, maintain_order && in_after is Ordered)
}

/// Applies [`group_by_rule`].
pub fn simplify_group_by(
    in_edge: &mut Edge,
    out_edge: &mut Edge,
    maintain_order: &mut bool,
    observing: bool,
    reply: &ExprReply,
)
    ensures
        (*final(in_edge), *final(out_edge), *final(maintain_order)) == group_by_rule(
            *old(in_edge),
            *old(out_edge),
            *old(maintain_order),
            observing,
            *reply,
        ),
{
    if !(observing || reply.first.independent || reply.internal.column || (*maintain_order
        && reply.first.column)) {
        *maintain_order = false;
        *in_edge = Edge::Unordered;
    }
    if in_edge.is_unordered() || !(*maintain_order || observing) {
        *maintain_order = false;
        *out_edge = Edge::Unordered;
    }
}

/// Removals of duplicates: in edge, out edge and `maintain_order`.
pub open spec fn distinct_rule(
    in_edge: Edge,
    out_edge: Edge,
    maintain_order: bool,
    keep_strategy: UniqueKeepStrategy,
) -> (Edge, Edge, bool) {
    let wanted = maintain_order && out_edge is Ordered;
    let by_position = keep_strategy is First || keep_strategy is Last;
    (
        edge_if(in_edge is Unordered || !(wanted || by_position)),
        edge_if(!wanted),
        wanted && in_edge is Ordered,
    )
}

/// Applies [`distinct_rule`].
pub fn simplify_distinct(
    in_edge: &mut Edge,
    out_edge: &mut Edge,
    maintain_order: &mut bool,
    keep_strategy: UniqueKeepStrategy,
)
    ensures
        (*final(in_edge), *final(out_edge), *final(maintain_order)) == distinct_rule(
            *old(in_edge),
            *old(out_edge),
            *old(maintain_order),
            keep_strategy,
        ),
{
    if !*maintain_order || out_edge.is_unordered() {
        *maintain_order = false;
        *out_edge = Edge::Unordered;
    }
    if in_edge.is_unordered() || !(*maintain_order || matches!(
        keep_strategy,
        UniqueKeepStrategy::First | UniqueKeepStrategy::Last
    )) {
        *maintain_order = false;
        *in_edge = Edge::Unordered;
    }
}

/// The order that is left when the rows of the left side come in no particular order.
pub open spec fn without_left(order: MaintainOrderJoin) -> MaintainOrderJoin {
    match order {
        MaintainOrderJoin::Left => MaintainOrderJoin::Neither,
        MaintainOrderJoin::LeftRight | MaintainOrderJoin::RightLeft => MaintainOrderJoin::Right,
        MaintainOrderJoin::Neither | MaintainOrderJoin::Right => order,
    }
}

/// The order that is left when the rows of the right side come in no particular order.
pub open spec fn without_right(order: MaintainOrderJoin) -> MaintainOrderJoin {
    match order {
        MaintainOrderJoin::Right => MaintainOrderJoin::Neither,
        MaintainOrderJoin::LeftRight | MaintainOrderJoin::RightLeft => MaintainOrderJoin::Left,
        MaintainOrderJoin::Neither | MaintainOrderJoin::Left => order,
    }
}

/// Joins: left in edge, right in edge, out edge and the sides whose order is maintained.
pub open spec fn join_rule(
    in_edge_lhs: Edge,
    in_edge_rhs: Edge,
    out_edge: Edge,
    order: MaintainOrderJoin,
) -> (Edge, Edge, Edge, MaintainOrderJoin) {
    if out_edge is Unordered || order is Neither {
        (Edge::Unordered, Edge::Unordered, Edge::Unordered, MaintainOrderJoin::Neither)
    } else {
        let lhs_after = edge_if(in_edge_lhs is Unordered || order is Right);
        let left_settled = if lhs_after is Unordered {
            without_left(order)
        } else {
            order
        };
        let rhs_after = edge_if(in_edge_rhs is Unordered || left_settled is Left);
        let both_settled = if rhs_after is Unordered {
            without_right(left_settled)
        } else {
            left_settled
        };
        (lhs_after, rhs_after, out_edge, both_settled)
    }
}

/// Applies [`join_rule`].
pub fn simplify_join(
    in_edge_lhs: &mut Edge,
    in_edge_rhs: &mut Edge,
    out_edge: &mut Edge,
    order: &mut MaintainOrderJoin,
)
    ensures
        (*final(in_edge_lhs), *final(in_edge_rhs), *final(out_edge), *final(order)) == join_rule(
            *old(in_edge_lhs),
            *old(in_edge_rhs),
            *old(out_edge),
            *old(order),
        ),
{
    if out_edge.is_unordered() || *order == MaintainOrderJoin::Neither {
        *out_edge = Edge::Unordered;
        *in_edge_lhs = Edge::Unordered;
        *in_edge_rhs = Edge::Unordered;
        *order = MaintainOrderJoin::Neither;
    }
    if in_edge_lhs.is_unordered() || *order == MaintainOrderJoin::Right {
        *in_edge_lhs = Edge::Unordered;
        match *order {
            MaintainOrderJoin::Left => *order = MaintainOrderJoin::Neither,
            MaintainOrderJoin::LeftRight | MaintainOrderJoin::RightLeft => {
                *order = MaintainOrderJoin::Right
            },
            MaintainOrderJoin::Neither | MaintainOrderJoin::Right => {},
        }
    }
    if in_edge_rhs.is_unordered() || *order == MaintainOrderJoin::Left {
        *in_edge_rhs = Edge::Unordered;
        match *order {
            MaintainOrderJoin::Right => *order = MaintainOrderJoin::Neither,
            MaintainOrderJoin::RightLeft | MaintainOrderJoin::LeftRight => {
                *order = MaintainOrderJoin::Left
            },
            MaintainOrderJoin::Neither | MaintainOrderJoin::Left => {},
        }
    }
}

/// Whether the rows of a merge of sorted inputs may come in any order, so that putting the inputs
/// one after the other is as good.
pub open spec fn merge_is_union(in_edge_lhs: Edge, in_edge_rhs: Edge, out_edge: Edge) -> bool {
    out_edge is Unordered || (in_edge_lhs is Unordered && in_edge_rhs is Unordered)
}

/// Functions over whole frames: in edge and out edge.
pub open spec fn map_function_rule(
    in_edge: Edge,
    out_edge: Edge,
    function: FunctionIR,
) -> (Edge, Edge) {
    let in_after = edge_if(
        in_edge is Unordered || (!function.observes_input_order && (!function.has_equal_order
            || out_edge is Unordered)),
    );
    let out_after = edge_if(
        out_edge is Unordered || (!function.produces_order(in_after is Ordered) && (
        in_after is Unordered || !function.has_equal_order)),
    );
    (in_after, out_after)
}

/// Applies [`map_function_rule`].
pub fn simplify_map_function(in_edge: &mut Edge, out_edge: &mut Edge, function: &FunctionIR)
    ensures
        (*final(in_edge), *final(out_edge)) == map_function_rule(
            *old(in_edge),
            *old(out_edge),
            *function,
        ),
{
    if !function.observes_input_order && (!function.has_equal_order || out_edge.is_unordered()) {
        *in_edge = Edge::Unordered;
    }
    if !function.is_order_producing(!in_edge.is_unordered()) && (in_edge.is_unordered()
        || !function.has_equal_order) {
        *out_edge = Edge::Unordered;
    }
}

/// Sinks: in edge and `maintain_order`.
pub open spec fn sink_rule(in_edge: Edge, maintain_order: bool) -> (Edge, bool) {
    let needed = maintain_order && in_edge is Ordered;
    (edge_if(!needed), needed)
}

/// Applies [`sink_rule`].
pub fn simplify_sink(in_edge: &mut Edge, maintain_order: &mut bool)
    ensures
        (*final(in_edge), *final(maintain_order)) == sink_rule(
            *old(in_edge),
            *old(maintain_order),
        ),
{
    if !*maintain_order || in_edge.is_unordered() {
        *in_edge = Edge::Unordered;
        *maintain_order = false;
    }
}

/// None of the edges is ordered.
pub open spec fn none_ordered(edges: Seq<Edge>) -> bool {
    forall|i: int| 0 <= i < edges.len() ==> #[trigger] edges[i] is Unordered
}

/// As many edges, all of them unordered.
pub open spec fn unordered(edges: Seq<Edge>) -> Seq<Edge> {
    Seq::new(edges.len(), |i: int| Edge::Unordered)
}

/// A node and the edges around it after a visit.
#[verifier::ext_equal]
pub struct Outcome {
    pub ir: IRModel,
    pub ins: Seq<Edge>,
    pub outs: Seq<Edge>,
}

/// What a visit that leaves the node in the plan makes of the node `ir`, its in edges `ins` and
/// its out edges `outs`. `reply` is the answer to the visit's query, where it has one.
pub open spec fn outcome(
    ir: IRModel,
    ins: Seq<Edge>,
    outs: Seq<Edge>,
    reply: Option<ExprReply>,
) -> Outcome {
    match ir {
        Plan::Select { .. } => {
            let (i, o) = projection_rule(ins[0], outs[0], true, reply->0);
            Outcome { ir, ins: seq![i], outs: seq![o] }
        },
        Plan::HStack { exprs, schema_len, .. } => {
            let (i, o) = projection_rule(ins[0], outs[0], schema_len == exprs.len(), reply->0);
            Outcome { ir, ins: seq![i], outs: seq![o] }
        },
        Plan::Sort { input, by_column, has_slice, maintain_order } => {
            let (i, m) = sort_rule(ins[0], maintain_order, reply->0);
            Outcome {
                ir: Plan::Sort { input, by_column, has_slice, maintain_order: m },
                ins: seq![i],
                outs,
            }
        },
        Plan::Filter { .. } => {
            let (i, o) = filter_rule(ins[0], outs[0], reply->0);
            Outcome { ir, ins: seq![i], outs: seq![o] }
        },
        Plan::GroupBy { input, keys, aggs, maintain_order, is_dynamic, is_rolling, has_apply } => {
            let observing = has_apply || is_dynamic || is_rolling;
            let (i, o, m) = group_by_rule(ins[0], outs[0], maintain_order, observing, reply->0);
            Outcome {
                ir: Plan::GroupBy {
                    input,
                    keys,
                    aggs,
                    maintain_order: m,
                    is_dynamic,
                    is_rolling,
                    has_apply,
                },
                ins: seq![i],
                outs: seq![o],
            }
        },
        Plan::Distinct { input, maintain_order, keep_strategy } => {
            let (i, o, m) = distinct_rule(ins[0], outs[0], maintain_order, keep_strategy);
            Outcome {
                ir: Plan::Distinct { input, maintain_order: m, keep_strategy },
                ins: seq![i],
                outs: seq![o],
            }
        },
        Plan::Join { input_left, input_right, left_on, right_on, is_asof, maintain_order } => {
            if is_asof {
                Outcome { ir, ins, outs }
            } else {
                let (l, r, o, m) = join_rule(ins[0], ins[1], outs[0], maintain_order);
                Outcome {
                    ir: Plan::Join {
                        input_left,
                        input_right,
                        left_on,
                        right_on,
                        is_asof,
                        maintain_order: m,
                    },
                    ins: seq![l, r],
                    outs: seq![o],
                }
            }
        },
        // Even without ordered inputs the rows of each input stand before those of the next.
        Plan::Union { inputs, maintain_order } => {
            if !maintain_order || outs[0] is Unordered {
                Outcome {
                    ir: Plan::Union { inputs, maintain_order: false },
                    ins: unordered(ins),
                    outs: unordered(outs),
                }
            } else {
                Outcome { ir, ins, outs }
            }
        },
        Plan::MergeSorted { input_left, input_right } => {
            if merge_is_union(ins[0], ins[1], outs[0]) {
                Outcome {
                    ir: Plan::Union {
                        inputs: seq![input_left, input_right],
                        maintain_order: false,
                    },
                    ins: unordered(ins),
                    outs: unordered(outs),
                }
            } else {
                Outcome { ir, ins, outs }
            }
        },
        Plan::MapFunction { function, .. } => {
            let (i, o) = map_function_rule(ins[0], outs[0], function);
            Outcome { ir, ins: seq![i], outs: seq![o] }
        },
        Plan::HConcat { .. }
        | Plan::SimpleProjection { .. }
        | Plan::Slice { .. }
        | Plan::ExtContext { .. } => {
            Outcome { ir, ins, outs: if none_ordered(ins) { unordered(outs) } else { outs } }
        },
        Plan::Cache { .. } => {
            if none_ordered(outs) {
                Outcome { ir, ins: unordered(ins), outs }
            } else if none_ordered(ins) {
                Outcome { ir, ins, outs: unordered(outs) }
            } else {
                Outcome { ir, ins, outs }
            }
        },
        Plan::Sink { input, payload } => match payload {
            SinkPlan::Partitioned { key_exprs, maintain_order } => {
                let (i, m) = sink_rule(ins[0], maintain_order);
                Outcome {
                    ir: Plan::Sink {
                        input,
                        payload: SinkPlan::Partitioned { key_exprs, maintain_order: m },
                    },
                    ins: seq![i],
                    outs,
                }
            },
            SinkPlan::Single { maintain_order } => {
                let (i, m) = sink_rule(ins[0], maintain_order);
                Outcome {
                    ir: Plan::Sink { input, payload: SinkPlan::Single { maintain_order: m } },
                    ins: seq![i],
                    outs,
                }
            },
        },
        Plan::Scan
        | Plan::DataFrameScan
        | Plan::PythonScan
        | Plan::SinkMultiple { .. }
        | Plan::Invalid => Outcome { ir, ins, outs },
    }
}

/// Whether a visit takes the node out of the plan: it is a sort of all rows, and nobody observes
/// their order.
pub open spec fn is_removed(ir: IRModel, outs: Seq<Edge>) -> bool {
    ir matches Plan::Sort { has_slice, .. } && !has_slice && outs[0] is Unordered
}

/// What a visit of the node `ir` has to know about its expressions before it can do anything.
pub open spec fn query_of(ir: IRModel, outs: Seq<Edge>) -> Option<ExprQueryModel> {
    match ir {
        Plan::Select { expr, .. } => Some(
            ExprQueryModel {
                first: expr,
                second: None,
                unordered_output: outs[0] is Unordered,
            },
        ),
        Plan::HStack { exprs, schema_len, .. } => Some(
            ExprQueryModel {
                first: exprs,
                second: None,
                unordered_output: outs[0] is Unordered && schema_len == exprs.len(),
            },
        ),
        Plan::Sort { by_column, .. } => if is_removed(ir, outs) {
            None
        } else {
            Some(ExprQueryModel { first: by_column, second: None, unordered_output: false })
        },
        Plan::Filter { predicate, .. } => Some(
            ExprQueryModel { first: seq![predicate], second: None, unordered_output: false },
        ),
        Plan::GroupBy { keys, aggs, .. } => Some(
            ExprQueryModel { first: keys, second: Some(aggs), unordered_output: false },
        ),
        Plan::Join { left_on, right_on, .. } => Some(
            ExprQueryModel { first: left_on, second: Some(right_on), unordered_output: false },
        ),
        Plan::Sink { payload: SinkPlan::Partitioned { key_exprs, .. }, .. } => Some(
            ExprQueryModel { first: key_exprs, second: None, unordered_output: false },
        ),
        _ => None,
    }
}

/// Whether `reply` answers the visit's query: there is one exactly if there is a query, and the
/// keys of joins and of partitioned sinks are elementwise.
pub open spec fn reply_fits(ir: IRModel, outs: Seq<Edge>, reply: Option<ExprReply>) -> bool {
    &&& reply is Some <==> query_of(ir, outs) is Some
    &&& ir is Join ==> (reply->0).elementwise(true)
    &&& ir matches Plan::Sink { payload: SinkPlan::Partitioned { .. }, .. } ==> (
    reply->0).elementwise(false)
}

/// Nodes whose visit counts on one in edge and one out edge.
pub open spec fn one_to_one(ir: IRModel) -> bool {
    match ir {
        Plan::Select { .. }
        | Plan::HStack { .. }
        | Plan::Sort { .. }
        | Plan::Filter { .. }
        | Plan::GroupBy { .. }
        | Plan::Distinct { .. }
        | Plan::MapFunction { .. } => true,
        _ => false,
    }
}

/// Nodes whose visit counts on two in edges and one out edge.
pub open spec fn two_to_one(ir: IRModel) -> bool {
    ir is Join || ir is MergeSorted
}

/// How many edges a visit of the node `ir` counts on.
pub open spec fn arity_fits(ir: IRModel, num_ins: nat, num_outs: nat) -> bool {
    &&& one_to_one(ir) ==> num_ins == 1 && num_outs == 1
    &&& two_to_one(ir) ==> num_ins == 2 && num_outs == 1
    &&& ir is Union ==> num_outs == 1
    &&& ir is Sink ==> num_ins == 1 && num_outs == 0
    &&& !(ir is SinkMultiple)
    &&& !(ir is Invalid)
}

} // verus!
