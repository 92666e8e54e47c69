//! Visits of single plan nodes.

use crate::arena::{copy_nodes, Arena, Node};
use crate::edge::{same_key, Edge, EdgeKey, EdgesMap};
use crate::ir::{IR, IRModel, Plan, SinkPlan};
use crate::ir_graph::{
    apart, known, links_of, unpack_edges_mut, EdgeKeysModel, IRNodeEdgeKeys, NodeEdges,
};
use crate::orders::{ExprQuery, ExprQueryModel, ExprReply};
use crate::rules::{
    arity_fits, is_removed, none_ordered, one_to_one, outcome, query_of, reply_fits,
    simplify_distinct, simplify_filter, simplify_group_by, simplify_join, simplify_map_function,
    simplify_projection, simplify_sink, simplify_sort, two_to_one, unordered, Outcome,
};
use vstd::prelude::*;

verus! {

broadcast use vstd::std_specs::hash::group_hash_axioms;

/// A plan and the edges between its nodes, together with the access that visits need.
pub struct SimplifyIRNodeOrder {
    pub ir_node_to_edges_map: NodeEdges,
    pub all_edges_map: EdgesMap,
    pub ir_arena: Arena<IR>,
}

/// The mathematical content of a [`SimplifyIRNodeOrder`].
#[verifier::ext_equal]
pub struct GraphState {
    pub plan: Seq<IRModel>,
    pub links: Map<Node, EdgeKeysModel>,
    pub edges: Map<EdgeKey, Edge>,
}

impl View for SimplifyIRNodeOrder {
    type V = GraphState;

    open spec fn view(&self) -> GraphState {
        GraphState {
            plan: self.ir_arena.plan(),
            links: links_of(self.ir_node_to_edges_map),
            edges: self.all_edges_map@,
        }
    }
}

/// The edges that `keys` name.
pub open spec fn edges_at(edges: Map<EdgeKey, Edge>, keys: Seq<EdgeKey>) -> Seq<Edge> {
    Seq::new(keys.len(), |i: int| edges[keys[i]])
}

/// The first position of `value`.
pub open spec fn position<T>(list: Seq<T>, value: T) -> int {
    choose|i: int|
        0 <= i < list.len() && list[i] == value && forall|j: int| 0 <= j < i ==> list[j] != value
}

/// The edges around the node `ir` are such that a visit can get at them.
pub open spec fn edges_fit(
    ir: IRModel,
    keys: EdgeKeysModel,
    edges: Map<EdgeKey, Edge>,
) -> bool {
    match ir {
        Plan::Union { .. }
        | Plan::HConcat { .. }
        | Plan::SimpleProjection { .. }
        | Plan::Slice { .. }
        | Plan::ExtContext { .. }
        | Plan::Cache { .. } => known(keys.in_edges, edges) && known(keys.out_edges, edges),
        Plan::Scan | Plan::DataFrameScan | Plan::PythonScan => true,
        _ => apart(keys, edges),
    }
}

/// `ir_after` and `edges_after` are what a visit that leaves the node `ir` in the plan makes of
/// the node and of all edges.
pub open spec fn applied(
    ir: IRModel,
    keys: EdgeKeysModel,
    edges: Map<EdgeKey, Edge>,
    reply: Option<ExprReply>,
    ir_after: IRModel,
    edges_after: Map<EdgeKey, Edge>,
) -> bool {
    let end = outcome(
        ir,
        edges_at(edges, keys.in_edges),
        edges_at(edges, keys.out_edges),
        reply,
    );
    &&& ir_after == end.ir
    &&& edges_after.dom() == edges.dom()
    &&& edges_at(edges_after, keys.in_edges) == end.ins
    &&& edges_at(edges_after, keys.out_edges) == end.outs
    &&& forall|key: EdgeKey|
        edges.contains_key(key) && !keys.in_edges.contains(key) && !keys.out_edges.contains(key)
            ==> #[trigger] edges_after[key] == edges[key]
}

impl GraphState {
    /// The edges over which `node` reads its inputs.
    pub open spec fn ins(self, node: Node) -> Seq<Edge> {
        edges_at(self.edges, self.links[node].in_edges)
    }

    /// The edges over which `node` is read.
    pub open spec fn outs(self, node: Node) -> Seq<Edge> {
        edges_at(self.edges, self.links[node].out_edges)
    }

    /// What a visit of `node` has to know about its expressions.
    pub open spec fn query(self, node: Node) -> Option<ExprQueryModel> {
        query_of(self.plan[node as int], self.outs(node))
    }

    /// Whether a visit of `node` takes it out of the plan.
    pub open spec fn removes(self, node: Node) -> bool {
        is_removed(self.plan[node as int], self.outs(node))
    }

    /// The consumer of a node that has exactly one.
    pub open spec fn consumer(self, node: Node) -> Node {
        self.links[node].out_nodes[0]
    }

    /// Which input of its consumer `node` is.
    pub open spec fn consumer_slot(self, node: Node) -> int {
        position(self.plan[self.consumer(node) as int].inputs(), node)
    }

    /// `node` can be bypassed: it has one consumer, which reads from it once, and one in edge,
    /// at whose other end `input` stands.
    pub open spec fn can_unlink(self, node: Node, input: Node) -> bool {
        let inputs = self.plan[self.consumer(node) as int].inputs();
        &&& self.links.contains_key(node)
        &&& self.links[node].out_nodes.len() == 1
        &&& self.links[node].in_edges.len() == 1
        &&& self.consumer(node) < self.plan.len()
        &&& inputs.contains(node)
        &&& forall|j: int| 0 <= j < inputs.len() && inputs[j] == node ==> j == self.consumer_slot(
            node,
        )
        &&& self.consumer(node) != input
        &&& self.links.contains_key(self.consumer(node))
        &&& self.consumer_slot(node) < self.links[self.consumer(node)].in_edges.len()
        &&& self.links.contains_key(input)
        &&& self.links[input].out_edges.contains(self.links[node].in_edges[0])
        &&& position(self.links[input].out_edges, self.links[node].in_edges[0])
            < self.links[input].out_nodes.len()
    }

    /// The plan with `node` bypassed: its consumer reads from `input` instead, over the edge over
    /// which it read from `node`.
    pub open spec fn unlinked(self, node: Node, input: Node) -> Self {
        let consumer = self.consumer(node);
        let slot = self.consumer_slot(node);
        let at = position(self.links[input].out_edges, self.links[node].in_edges[0]);
        GraphState {
            plan: self.plan.update(
                consumer as int,
                self.plan[consumer as int].with_input(slot, input),
            ),
            links: self.links.insert(
                input,
                EdgeKeysModel {
                    in_edges: self.links[input].in_edges,
                    out_edges: self.links[input].out_edges.update(
                        at,
                        self.links[consumer].in_edges[slot],
                    ),
                    out_nodes: self.links[input].out_nodes.update(at, consumer),
                },
            ),
            edges: self.edges,
        }
    }

    /// A visit finds everything it needs around `node`.
    pub open spec fn can_visit(self, node: Node) -> bool {
        let keys = self.links[node];
        &&& node < self.plan.len()
        &&& self.links.contains_key(node)
        &&& arity_fits(self.plan[node as int], keys.in_edges.len(), keys.out_edges.len())
        &&& edges_fit(self.plan[node as int], keys, self.edges)
        &&& self.removes(node) ==> self.can_unlink(node, self.plan[node as int].inputs()[0])
    }

    /// `after` is what a visit of `node` makes of the plan and its edges, with `reply` for an
    /// answer to the visit's query; `deleted` says whether the node was taken out of the plan.
    pub open spec fn visited(
        self,
        node: Node,
        reply: Option<ExprReply>,
        after: Self,
        deleted: bool,
    ) -> bool {
        let ir = self.plan[node as int];
        let keys = self.links[node];
        &&& deleted == self.removes(node)
        &&& deleted ==> after == (GraphState {
            edges: self.edges.insert(keys.in_edges[0], Edge::Unordered),
            ..self
        }).unlinked(node, ir.inputs()[0])
        &&& !deleted ==> {
            &&& after.plan.len() == self.plan.len()
            &&& forall|other: int|
                0 <= other < self.plan.len() && other != node ==> #[trigger] after.plan[other]
                    == self.plan[other]
            &&& after.links == self.links
            &&& applied(ir, keys, self.edges, reply, after.plan[node as int], after.edges)
        }
    }
}

/// Applies the rule of a node with one in edge and one out edge.
fn decide_one_to_one(
    ir: &mut IR,
    in_edge: &mut Edge,
    out_edge: &mut Edge,
    reply: Option<ExprReply>,
)
    requires
        one_to_one(old(ir)@),
        !is_removed(old(ir)@, seq![*old(out_edge)]),
        reply_fits(old(ir)@, seq![*old(out_edge)], reply),
    ensures
        outcome(old(ir)@, seq![*old(in_edge)], seq![*old(out_edge)], reply) == (Outcome {
            ir: final(ir)@,
            ins: seq![*final(in_edge)],
            outs: seq![*final(out_edge)],
        }),
{
    match ir {
        Plan::Select { .. } => {
            simplify_projection(in_edge, out_edge, true, &reply.unwrap());
        },
        Plan::HStack { exprs, schema_len, .. } => {
            let full = *schema_len == exprs.len();
            simplify_projection(in_edge, out_edge, full, &reply.unwrap());
        },
        Plan::Sort { maintain_order, .. } => {
            simplify_sort(in_edge, maintain_order, &reply.unwrap());
        },
        Plan::Filter { .. } => {
            simplify_filter(in_edge, out_edge, &reply.unwrap());
        },
        Plan::GroupBy { maintain_order, is_dynamic, is_rolling, has_apply, .. } => {
            let observing = *has_apply || *is_dynamic || *is_rolling;
            simplify_group_by(in_edge, out_edge, maintain_order, observing, &reply.unwrap());
        },
        Plan::Distinct { maintain_order, keep_strategy, .. } => {
            simplify_distinct(in_edge, out_edge, maintain_order, *keep_strategy);
        },
        Plan::MapFunction { function, .. } => {
            simplify_map_function(in_edge, out_edge, function);
        },
        _ => {},
    }
}

/// Visits a node with one in edge and one out edge.
fn visit_one_to_one(
    ir: &mut IR,
    node_edge_keys: &IRNodeEdgeKeys,
    all_edges_map: &mut EdgesMap,
    reply: Option<ExprReply>,
)
    requires
        one_to_one(old(ir)@),
        node_edge_keys@.in_edges.len() == 1,
        node_edge_keys@.out_edges.len() == 1,
        apart(node_edge_keys@, old(all_edges_map)@),
        !is_removed(old(ir)@, edges_at(old(all_edges_map)@, node_edge_keys@.out_edges)),
        reply_fits(old(ir)@, edges_at(old(all_edges_map)@, node_edge_keys@.out_edges), reply),
    ensures
        applied(
            old(ir)@,
            node_edge_keys@,
            old(all_edges_map)@,
            reply,
            final(ir)@,
            final(all_edges_map)@,
        ),
{
    let ghost ins = edges_at(all_edges_map@, node_edge_keys@.in_edges);
    let ghost outs = edges_at(all_edges_map@, node_edge_keys@.out_edges);
    let mut edges = unpack_edges_mut::<1, 1, 2>(node_edge_keys, all_edges_map).unwrap();
    let mut in_edge = *edges[0];
    let mut out_edge = *edges[1];
    assert(ins =~= seq![in_edge]);
    assert(outs =~= seq![out_edge]);
    decide_one_to_one(ir, &mut in_edge, &mut out_edge, reply);
    *edges[0] = in_edge;
    *edges[1] = out_edge;
    proof {
        assert(has_resolved(edges@[0]));
        assert(has_resolved(edges@[1]));
        assert(edges_at(all_edges_map@, node_edge_keys@.in_edges) =~= seq![in_edge]);
        assert(edges_at(all_edges_map@, node_edge_keys@.out_edges) =~= seq![out_edge]);
        lemma_others_kept(node_edge_keys@, old(all_edges_map)@, all_edges_map@);
    }
}

/// Visits a node with two in edges and one out edge.
fn visit_two_to_one(
    ir: &mut IR,
    node_edge_keys: &IRNodeEdgeKeys,
    all_edges_map: &mut EdgesMap,
    reply: Option<ExprReply>,
)
    requires
        two_to_one(old(ir)@),
        node_edge_keys@.in_edges.len() == 2,
        node_edge_keys@.out_edges.len() == 1,
        apart(node_edge_keys@, old(all_edges_map)@),
    ensures
        applied(
            old(ir)@,
            node_edge_keys@,
            old(all_edges_map)@,
            reply,
            final(ir)@,
            final(all_edges_map)@,
        ),
{
    let ghost ins = edges_at(all_edges_map@, node_edge_keys@.in_edges);
    let ghost outs = edges_at(all_edges_map@, node_edge_keys@.out_edges);
    let mut edges = unpack_edges_mut::<2, 1, 3>(node_edge_keys, all_edges_map).unwrap();
    let mut in_edge_lhs = *edges[0];
    let mut in_edge_rhs = *edges[1];
    let mut out_edge = *edges[2];
    let ghost end = outcome(ir@, ins, outs, reply);
    let mut union_of: Option<(Node, Node)> = None;
    match ir {
        Plan::Join { is_asof, maintain_order, .. } => {
            if !*is_asof {
                simplify_join(&mut in_edge_lhs, &mut in_edge_rhs, &mut out_edge, maintain_order);
            }
        },
        Plan::MergeSorted { input_left, input_right } => {
            if out_edge.is_unordered() || (in_edge_lhs.is_unordered()
                && in_edge_rhs.is_unordered()) {
                out_edge = Edge::Unordered;
                in_edge_lhs = Edge::Unordered;
                in_edge_rhs = Edge::Unordered;
                union_of = Some((*input_left, *input_right));
            }
        },
        _ => {},
    }
    if let Some((input_left, input_right)) = union_of {
        let mut inputs: Vec<Node> = Vec::new();
        inputs.push(input_left);
        inputs.push(input_right);
        assert(inputs@ =~= seq![input_left, input_right]);
        *ir = Plan::Union { inputs, maintain_order: false };
    }
    assert(end.ins =~= seq![in_edge_lhs, in_edge_rhs]);
    assert(end.outs =~= seq![out_edge]);
    *edges[0] = in_edge_lhs;
    *edges[1] = in_edge_rhs;
    *edges[2] = out_edge;
    proof {
        assert(has_resolved(edges@[0]));
        assert(has_resolved(edges@[1]));
        assert(has_resolved(edges@[2]));
        assert(edges_at(all_edges_map@, node_edge_keys@.in_edges) =~= seq![
            in_edge_lhs,
            in_edge_rhs,
        ]);
        assert(edges_at(all_edges_map@, node_edge_keys@.out_edges) =~= seq![out_edge]);
        lemma_others_kept(node_edge_keys@, old(all_edges_map)@, all_edges_map@);
    }
}

/// Visits a sink.
fn visit_sink(
    ir: &mut IR,
    node_edge_keys: &IRNodeEdgeKeys,
    all_edges_map: &mut EdgesMap,
    reply: Option<ExprReply>,
)
    requires
        old(ir)@ is Sink,
        node_edge_keys@.in_edges.len() == 1,
        node_edge_keys@.out_edges.len() == 0,
        apart(node_edge_keys@, old(all_edges_map)@),
    ensures
        applied(
            old(ir)@,
            node_edge_keys@,
            old(all_edges_map)@,
            reply,
            final(ir)@,
            final(all_edges_map)@,
        ),
{
    let ghost outs = edges_at(all_edges_map@, node_edge_keys@.out_edges);
    let ghost keys = node_edge_keys@.in_edges + node_edge_keys@.out_edges;
    let mut edges = unpack_edges_mut::<1, 0, 1>(node_edge_keys, all_edges_map).unwrap();
    let mut in_edge = *edges[0];
    if let Plan::Sink { payload, .. } = ir {
        match payload {
            SinkPlan::Partitioned { maintain_order, .. } => simplify_sink(
                &mut in_edge,
                maintain_order,
            ),
            SinkPlan::Single { maintain_order } => simplify_sink(&mut in_edge, maintain_order),
        }
    }
    *edges[0] = in_edge;
    proof {
        assert(has_resolved(edges@[0]));
        assert(edges_at(all_edges_map@, node_edge_keys@.in_edges) =~= seq![in_edge]);
        assert(edges_at(all_edges_map@, node_edge_keys@.out_edges) =~= outs);
        lemma_others_kept(node_edge_keys@, old(all_edges_map)@, all_edges_map@);
    }
}

/// What is kept of all edges but those under a list of keys is kept of all edges but those around
/// a node.
proof fn lemma_others_kept(
    keys: EdgeKeysModel,
    before: Map<EdgeKey, Edge>,
    after: Map<EdgeKey, Edge>,
)
    requires
        forall|key: EdgeKey|
            before.contains_key(key) && !(keys.in_edges + keys.out_edges).contains(key)
                ==> #[trigger] after[key] == before[key],
    ensures
        forall|key: EdgeKey|
            before.contains_key(key) && !keys.in_edges.contains(key) && !keys.out_edges.contains(
                key,
            ) ==> #[trigger] after[key] == before[key],
{
}

/// Whether none of the edges is ordered.
fn all_unordered(keys: &Vec<EdgeKey>, all_edges_map: &EdgesMap) -> (all: bool)
    requires
        known(keys@, all_edges_map@),
    ensures
        all == none_ordered(edges_at(all_edges_map@, keys@)),
{
    let ghost edges = edges_at(all_edges_map@, keys@);
    let mut i: usize = 0;
    while i < keys.len()
        invariant
            i <= keys@.len(),
            known(keys@, all_edges_map@),
            edges == edges_at(all_edges_map@, keys@),
            forall|j: int| 0 <= j < i ==> #[trigger] edges[j] is Unordered,
        decreases keys@.len() - i,
    {
        assert(edges[i as int] == all_edges_map@[keys@[i as int]]);
        if !all_edges_map.get(keys[i]).unwrap().is_unordered() {
            return false;
        }
        i = i + 1;
    }
    true
}

/// Takes the order away from each of the edges.
fn set_unordered(keys: &Vec<EdgeKey>, all_edges_map: &mut EdgesMap)
    requires
        known(keys@, old(all_edges_map)@),
    ensures
        final(all_edges_map)@.dom() == old(all_edges_map)@.dom(),
        forall|key: EdgeKey|
            old(all_edges_map)@.contains_key(key) ==> #[trigger] final(all_edges_map)@[key] == (
            if keys@.contains(key) {
                Edge::Unordered
            } else {
                old(all_edges_map)@[key]
            }),
{
    let ghost before = all_edges_map@;
    let mut i: usize = 0;
    while i < keys.len()
        invariant
            i <= keys@.len(),
            known(keys@, before),
            all_edges_map@.dom() == before.dom(),
            forall|key: EdgeKey|
                before.contains_key(key) ==> #[trigger] all_edges_map@[key] == (
                if keys@.take(i as int).contains(key) {
                    Edge::Unordered
                } else {
                    before[key]
                }),
        decreases keys@.len() - i,
    {
        let key = keys[i];
        let edge = all_edges_map.get_mut(key).unwrap();
        *edge = Edge::Unordered;
        assert forall|k: EdgeKey|
            keys@.take(i + 1).contains(k) <==> (keys@.take(i as int).contains(k) || k == key) by {
            assert(keys@.take(i + 1)[i as int] == key);
        }
        i = i + 1;
    }
    assert(keys@.take(i as int) =~= keys@);
}

/// Visits a node with any number of in edges and out edges.
fn visit_many(ir: &mut IR, node_edge_keys: &IRNodeEdgeKeys, all_edges_map: &mut EdgesMap)
    requires
        !one_to_one(old(ir)@),
        !two_to_one(old(ir)@),
        !(old(ir)@ is Sink),
        arity_fits(
            old(ir)@,
            node_edge_keys@.in_edges.len(),
            node_edge_keys@.out_edges.len(),
        ),
        edges_fit(old(ir)@, node_edge_keys@, old(all_edges_map)@),
    ensures
        applied(
            old(ir)@,
            node_edge_keys@,
            old(all_edges_map)@,
            None,
            final(ir)@,
            final(all_edges_map)@,
        ),
{
    let ghost in_keys = node_edge_keys@.in_edges;
    let ghost out_keys = node_edge_keys@.out_edges;
    let ghost before = all_edges_map@;
    match ir {
        Plan::Union { maintain_order, .. } => {
            let out_edge_key = node_edge_keys.out_edges[0];
            if !*maintain_order || all_edges_map.get(out_edge_key).unwrap().is_unordered() {
                *maintain_order = false;
                set_unordered(&node_edge_keys.out_edges, all_edges_map);
                set_unordered(&node_edge_keys.in_edges, all_edges_map);
            }
            // Without ordered inputs the out edge stays ordered still: the rows of each input
            // appear in full before those of the next.
        },
        Plan::HConcat { .. }
        | Plan::SimpleProjection { .. }
        | Plan::Slice { .. }
        | Plan::ExtContext { .. } => {
            if all_unordered(&node_edge_keys.in_edges, all_edges_map) {
                set_unordered(&node_edge_keys.out_edges, all_edges_map);
            }
        },
        Plan::Cache { .. } => {
            if all_unordered(&node_edge_keys.out_edges, all_edges_map) {
                set_unordered(&node_edge_keys.in_edges, all_edges_map);
            } else if all_unordered(&node_edge_keys.in_edges, all_edges_map) {
                set_unordered(&node_edge_keys.out_edges, all_edges_map);
            }
        },
        _ => {},
    }
    proof {
        let end = outcome(
            old(ir)@,
            edges_at(before, in_keys),
            edges_at(before, out_keys),
            None,
        );
        let after = all_edges_map@;
        assert(edges_at(after, in_keys) =~= end.ins);
        assert(edges_at(after, out_keys) =~= end.outs);
    }
}

/// Whether the first of the edges is unordered.
fn first_unordered(keys: &Vec<EdgeKey>, all_edges_map: &EdgesMap) -> (first: bool)
    requires
        keys@.len() > 0,
        known(keys@, all_edges_map@),
    ensures
        first == (edges_at(all_edges_map@, keys@)[0] is Unordered),
{
    all_edges_map.get(keys[0]).unwrap().is_unordered()
}

impl SimplifyIRNodeOrder {
    /// The edge under `key`, if there is one.
    pub fn edge(&self, key: EdgeKey) -> (edge: Option<Edge>)
        ensures
            edge is Some <==> self@.edges.contains_key(key),
            edge matches Some(edge) ==> edge == self@.edges[key],
    {
        match self.all_edges_map.get(key) {
            Some(edge) => Some(*edge),
            None => None,
        }
    }

    /// What a visit of `current_ir_node` has to know about its expressions, if anything.
    pub fn expr_query(&self, current_ir_node: Node) -> (query: Option<ExprQuery>)
        requires
            self@.can_visit(current_ir_node),
        ensures
            match query {
                Some(query) => self@.query(current_ir_node) == Some(query@),
                None => self@.query(current_ir_node) is None,
            },
    {
        let node_edge_keys = self.ir_node_to_edges_map.get(&current_ir_node).unwrap();
        let ir = self.ir_arena.get(current_ir_node);
        match ir {
            Plan::Select { expr, .. } => {
                let out_unordered = first_unordered(&node_edge_keys.out_edges, &self.all_edges_map);
                Some(
                    ExprQuery {
                        first: copy_nodes(expr.as_slice()),
                        second: None,
                        unordered_output: out_unordered,
                    },
                )
            },
            Plan::HStack { exprs, schema_len, .. } => {
                let out_unordered = first_unordered(&node_edge_keys.out_edges, &self.all_edges_map);
                Some(
                    ExprQuery {
                        first: copy_nodes(exprs.as_slice()),
                        second: None,
                        unordered_output: out_unordered && *schema_len == exprs.len(),
                    },
                )
            },
            Plan::Sort { by_column, has_slice, .. } => {
                if !*has_slice && first_unordered(
                    &node_edge_keys.out_edges,
                    &self.all_edges_map,
                ) {
                    None
                } else {
                    Some(
                        ExprQuery {
                            first: copy_nodes(by_column.as_slice()),
                            second: None,
                            unordered_output: false,
                        },
                    )
                }
            },
            Plan::Filter { predicate, .. } => {
                let mut exprs: Vec<Node> = Vec::new();
                exprs.push(*predicate);
                Some(ExprQuery { first: exprs, second: None, unordered_output: false })
            },
            Plan::GroupBy { keys, aggs, .. } => Some(
                ExprQuery {
                    first: copy_nodes(keys.as_slice()),
                    second: Some(copy_nodes(aggs.as_slice())),
                    unordered_output: false,
                },
            ),
            Plan::Join { left_on, right_on, .. } => Some(
                ExprQuery {
                    first: copy_nodes(left_on.as_slice()),
                    second: Some(copy_nodes(right_on.as_slice())),
                    unordered_output: false,
                },
            ),
            Plan::Sink { payload: SinkPlan::Partitioned { key_exprs, .. }, .. } => Some(
                ExprQuery {
                    first: copy_nodes(key_exprs.as_slice()),
                    second: None,
                    unordered_output: false,
                },
            ),
            _ => None,
        }
    }

    /// Visits `current_ir_node`. `reply` is the answer to [`Self::expr_query`], where that is not
    /// `None`.
    ///
    /// Returns if the node was deleted.
    pub fn simplify_ir_node_orders(
        &mut self,
        current_ir_node: Node,
        reply: Option<ExprReply>,
    ) -> (deleted: bool)
        requires
            old(self)@.can_visit(current_ir_node),
            reply_fits(
                old(self)@.plan[current_ir_node as int],
                old(self)@.outs(current_ir_node),
                reply,
            ),
        ensures
            old(self)@.visited(current_ir_node, reply, final(self)@, deleted),
    {
        let node_edge_keys = self.ir_node_to_edges_map.get(&current_ir_node).unwrap();

        if let Plan::Sort { input, has_slice: false, .. } = self.ir_arena.get(current_ir_node) {
            if first_unordered(&node_edge_keys.out_edges, &self.all_edges_map) {
                let input = *input;
                let in_edge = self.all_edges_map.get_mut(node_edge_keys.in_edges[0]).unwrap();
                *in_edge = Edge::Unordered;
                return self.unlink_node(current_ir_node, input);
            }
        }
        let ir = self.ir_arena.get_mut(current_ir_node);
        match ir {
            Plan::Select { .. }
            | Plan::HStack { .. }
            | Plan::Sort { .. }
            | Plan::Filter { .. }
            | Plan::GroupBy { .. }
            | Plan::Distinct { .. }
            | Plan::MapFunction { .. } => {
                visit_one_to_one(ir, node_edge_keys, &mut self.all_edges_map, reply)
            },
            Plan::Join { .. } | Plan::MergeSorted { .. } => {
                visit_two_to_one(ir, node_edge_keys, &mut self.all_edges_map, reply)
            },
            Plan::Sink { .. } => {
                visit_sink(ir, node_edge_keys, &mut self.all_edges_map, reply)
            },
            _ => visit_many(ir, node_edge_keys, &mut self.all_edges_map),
        }
        false
    }

    /// Takes `current_ir_node` out of the plan: its consumer reads from
    /// `input_to_current_ir_node` instead.
    ///
    /// Returns that the node was deleted.
    pub fn unlink_node(
        &mut self,
        current_ir_node: Node,
        input_to_current_ir_node: Node,
    ) -> (deleted: bool)
        requires
            old(self)@.can_unlink(current_ir_node, input_to_current_ir_node),
        ensures
            final(self)@ == old(self)@.unlinked(current_ir_node, input_to_current_ir_node),
            deleted,
    {
        let current_ir_node_edges = self.ir_node_to_edges_map.get(&current_ir_node).unwrap();
        let current_in_edge_key = current_ir_node_edges.in_edges[0];
        let consumer_node = current_ir_node_edges.out_nodes[0];

        let mut inputs: Vec<Node> = Vec::new();
        let consumer = self.ir_arena.get_mut(consumer_node);
        consumer.copy_inputs(&mut inputs);
        let mut slot: usize = 0;
        while inputs[slot] != current_ir_node
            invariant
                slot < inputs@.len(),
                inputs@.contains(current_ir_node),
                forall|j: int| 0 <= j < slot ==> inputs@[j] != current_ir_node,
            decreases inputs@.len() - slot,
        {
            assert(slot < inputs.len());
            slot = slot + 1;
        }
        consumer.set_input(slot, input_to_current_ir_node);

        let key = self.ir_node_to_edges_map.get(&consumer_node).unwrap().in_edges[slot];
        let new_input = self.ir_node_to_edges_map.entry(input_to_current_ir_node).or_insert(
            IRNodeEdgeKeys::default(),
        );
        let mut at: usize = 0;
        while !same_key(new_input.out_edges[at], current_in_edge_key)
            invariant
                at < new_input.out_edges@.len(),
                new_input.out_edges@.contains(current_in_edge_key),
                forall|j: int| 0 <= j < at ==> new_input.out_edges@[j] != current_in_edge_key,
            decreases new_input.out_edges@.len() - at,
        {
            assert(at < new_input.out_edges.len());
            at = at + 1;
        }
        new_input.out_edges.set(at, key);
        new_input.out_nodes.set(at, consumer_node);
        true
    }
}

} // verus!
