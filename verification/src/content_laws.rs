//! What the mathematical contents of values say about the values themselves.

use crate::arena::{Arena, Node};
use crate::ir::{IR, Plan, SinkPlan};
use crate::ir_graph::{links_of, NodeEdges};
use crate::orders::ExprQuery;
use crate::pass::{OrderingPass, Request, Wanted};
use crate::simplify::SimplifyIRNodeOrder;
use vstd::prelude::*;

verus! {

/// The content of a node is of its kind and has its inputs, its expressions and its options, each
/// under its own name.
pub proof fn law_node_content(ir: IR)
    ensures
        match (ir, ir@) {
            (Plan::Select { input, expr }, Plan::Select { input: i, expr: e }) => i == input && e
                == expr@,
            (
                Plan::HStack { input, exprs, schema_len },
                Plan::HStack { input: i, exprs: e, schema_len: l },
            ) => i == input && e == exprs@ && l == schema_len,
            (
                Plan::Sort { input, by_column, has_slice, maintain_order },
                Plan::Sort { input: i, by_column: b, has_slice: s, maintain_order: m },
            ) => i == input && b == by_column@ && s == has_slice && m == maintain_order,
            (Plan::Filter { input, predicate }, Plan::Filter { input: i, predicate: p }) => i
                == input && p == predicate,
            (
                Plan::GroupBy {
                    input,
                    keys,
                    aggs,
                    maintain_order,
                    is_dynamic,
                    is_rolling,
                    has_apply,
                },
                Plan::GroupBy {
                    input: i,
                    keys: k,
                    aggs: a,
                    maintain_order: m,
                    is_dynamic: d,
                    is_rolling: r,
                    has_apply: h,
                },
            ) => i == input && k == keys@ && a == aggs@ && m == maintain_order && d == is_dynamic
                && r == is_rolling && h == has_apply,
            (
                Plan::Distinct { input, maintain_order, keep_strategy },
                Plan::Distinct { input: i, maintain_order: m, keep_strategy: k },
            ) => i == input && m == maintain_order && k == keep_strategy,
            (
                Plan::Join { input_left, input_right, left_on, right_on, is_asof, maintain_order },
                Plan::Join {
                    input_left: l,
                    input_right: r,
                    left_on: lo,
                    right_on: ro,
                    is_asof: a,
                    maintain_order: m,
                },
            ) => l == input_left && r == input_right && lo == left_on@ && ro == right_on@ && a
                == is_asof && m == maintain_order,
            (
                Plan::Union { inputs, maintain_order },
                Plan::Union { inputs: i, maintain_order: m },
            ) => i == inputs@ && m == maintain_order,
            (
                Plan::MergeSorted { input_left, input_right },
                Plan::MergeSorted { input_left: l, input_right: r },
            ) => l == input_left && r == input_right,
            (
                Plan::MapFunction { input, function },
                Plan::MapFunction { input: i, function: f },
            ) => i == input && f == function,
            (Plan::HConcat { inputs }, Plan::HConcat { inputs: i }) => i == inputs@,
            (Plan::SimpleProjection { input }, Plan::SimpleProjection { input: i }) => i == input,
            (Plan::Slice { input }, Plan::Slice { input: i }) => i == input,
            (Plan::ExtContext { inputs }, Plan::ExtContext { inputs: i }) => i == inputs@,
            (Plan::Cache { input, id }, Plan::Cache { input: i, id: d }) => i == input && d == id,
            (
                Plan::Sink {
                    input,
                    payload: SinkPlan::Partitioned { key_exprs, maintain_order },
                },
                Plan::Sink {
                    input: i,
                    payload: SinkPlan::Partitioned { key_exprs: k, maintain_order: m },
                },
            ) => i == input && k == key_exprs@ && m == maintain_order,
            (
                Plan::Sink { input, payload: SinkPlan::Single { maintain_order } },
                Plan::Sink { input: i, payload: SinkPlan::Single { maintain_order: m } },
            ) => i == input && m == maintain_order,
            (Plan::SinkMultiple { inputs }, Plan::SinkMultiple { inputs: i }) => i == inputs@,
            (Plan::Scan, Plan::Scan) => true,
            (Plan::DataFrameScan, Plan::DataFrameScan) => true,
            (Plan::PythonScan, Plan::PythonScan) => true,
            (Plan::Invalid, Plan::Invalid) => true,
            _ => false,
        },
{
}

/// A plan holds the contents of the nodes of its arena, each under its own index.
pub proof fn law_plan_content(arena: Arena<IR>)
    ensures
        arena.plan().len() == arena.items@.len(),
        forall|n: int|
            0 <= n < arena.items@.len() ==> #[trigger] arena.plan()[n] == arena.items@[n]@,
{
}

/// The content of the edges around all nodes has those of each node under that node.
pub proof fn law_links_content(map: NodeEdges, node: Node)
    ensures
        links_of(map).contains_key(node) <==> map@.contains_key(node),
        map@.contains_key(node) ==> {
            &&& links_of(map)[node].in_edges == map@[node].in_edges@
            &&& links_of(map)[node].out_edges == map@[node].out_edges@
            &&& links_of(map)[node].out_nodes == map@[node].out_nodes@
        },
{
}

/// The content of a query has the groups of expressions of the query, and says of their output what
/// the query says.
pub proof fn law_query_content(query: ExprQuery)
    ensures
        query@.first == query.first@,
        query@.second is Some <==> query.second is Some,
        query.second matches Some(exprs) ==> query@.second == Some(exprs@),
        query@.unordered_output == query.unordered_output,
{
}

/// The content of a request is of its kind and speaks of the same expressions.
pub proof fn law_request_content(request: Request)
    ensures
        match (request, request@) {
            (Wanted::Finished, Wanted::Finished) => true,
            (Wanted::Proceed, Wanted::Proceed) => true,
            (Wanted::IsScalar(expr), Wanted::IsScalar(e)) => e == expr,
            (Wanted::AddImplode(expr), Wanted::AddImplode(e)) => e == expr,
            (Wanted::Simplify(query), Wanted::Simplify(q)) => q == query@,
            _ => false,
        },
{
}

/// The content of a plan with its edges has the plan of its arena, the edges around its nodes, and
/// all edges under their keys.
pub proof fn law_graph_content(graph: SimplifyIRNodeOrder)
    ensures
        graph@.plan == graph.ir_arena.plan(),
        graph@.links == links_of(graph.ir_node_to_edges_map),
        graph@.edges == graph.all_edges_map@,
{
}

/// The content of a pass has its graph, its list of nodes and its place on it.
pub proof fn law_pass_content(pass: OrderingPass)
    ensures
        pass@.graph == pass.simplifier@,
        pass@.nodes == pass.ir_nodes_stack@,
        pass@.deleted == pass.deleted_idxs@,
        pass@.pos == pass.pos,
        pass@.aggs_done == pass.aggs_done,
        pass@.implode == pass.implode,
{
}

} // verus!
