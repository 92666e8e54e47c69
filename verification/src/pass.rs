//! The pass over a whole plan.
//!
//! The pass visits every node from sinks to sources, and then once more on the way back. What it
//! has to know about expressions it asks for: [`OrderingPass::request`] says what is wanted next,
//! and [`OrderingPass::resume`] takes the answer and goes on.

use crate::arena::{Arena, Node};
use crate::edge::EdgeKey;
use crate::ir::{IR, IRModel, Plan};
use crate::ir_graph::{build_ir_traversal_graph, fresh_graph, links_of, single_use};
use crate::orders::{ExprQuery, ExprQueryModel, ExprReply};
use crate::rules::reply_fits;
use crate::simplify::{GraphState, SimplifyIRNodeOrder};
use crate::traversal::{
    complete, lemma_complete, lemma_listing, lemma_seen_mono, lemma_woven, listing, traversal,
    web_of, woven, Web,
};
use crate::wiring::{
    lemma_can_visit, lemma_fresh_wired, lemma_same_wired, lemma_visited_shape, lemma_visited_wired,
    simplifiable, wired,
};
use vstd::prelude::*;

verus! {

/// What a pass wants to know before it goes on. `Q` is the type of queries.
#[derive(Debug, PartialEq, Eq)]
pub enum Wanted<Q> {
    /// Nothing; the pass is over.
    Finished,
    /// Nothing; the next step needs no answer.
    Proceed,
    /// Whether this expression gives a single value.
    IsScalar(Node),
    /// A new expression that collects the values of this one into a list, in their order.
    AddImplode(Node),
    /// The orders that these expressions observe, once they are simplified.
    Simplify(Q),
}

pub type Request = Wanted<ExprQuery>;

/// The mathematical content of a [`Request`].
pub type RequestModel = Wanted<ExprQueryModel>;

impl View for Wanted<ExprQuery> {
    type V = Wanted<ExprQueryModel>;

    open spec fn view(&self) -> Wanted<ExprQueryModel> {
        match *self {
            Wanted::Finished => Wanted::Finished,
            Wanted::Proceed => Wanted::Proceed,
            Wanted::IsScalar(expr) => Wanted::IsScalar(expr),
            Wanted::AddImplode(expr) => Wanted::AddImplode(expr),
            Wanted::Simplify(query) => Wanted::Simplify(query@),
        }
    }
}

/// The answer to a [`Request`].
#[derive(Clone, Copy, PartialEq, Eq, Structural, Debug)]
pub enum Reply {
    Proceed,
    IsScalar(bool),
    /// The new expression.
    Added(Node),
    Orders(ExprReply),
}

/// A pass over a plan that is under way.
pub struct OrderingPass {
    pub simplifier: SimplifyIRNodeOrder,
    /// The nodes in sink to source order.
    pub ir_nodes_stack: Vec<Node>,
    /// The positions whose nodes were deleted on the way to the sources, as far as the way back
    /// has not come past them.
    pub deleted_idxs: Vec<usize>,
    /// How many positions are done, on the way to the sources and on the way back.
    pub pos: usize,
    /// How many aggregations of the current node are settled.
    pub aggs_done: usize,
    /// Whether the next aggregation of the current node needs an implode.
    pub implode: bool,
    /// The nodes that are still in the plan.
    pub live: Ghost<Set<Node>>,
    /// The leading node of each cache id.
    pub leads: Ghost<Map<u128, Node>>,
}

/// The mathematical content of an [`OrderingPass`].
#[verifier::ext_equal]
pub struct PassState {
    pub graph: GraphState,
    pub nodes: Seq<Node>,
    pub deleted: Seq<usize>,
    pub pos: nat,
    pub aggs_done: nat,
    pub implode: bool,
    pub live: Set<Node>,
    pub leads: Map<u128, Node>,
}

impl View for OrderingPass {
    type V = PassState;

    open spec fn view(&self) -> PassState {
        PassState {
            graph: self.simplifier@,
            nodes: self.ir_nodes_stack@,
            deleted: self.deleted_idxs@,
            pos: self.pos as nat,
            aggs_done: self.aggs_done as nat,
            implode: self.implode,
            live: self.live@,
            leads: self.leads@,
        }
    }
}

/// The aggregations of a node; none if it is no grouping.
pub open spec fn aggs_of(ir: IRModel) -> Seq<Node> {
    match ir {
        Plan::GroupBy { aggs, .. } => aggs,
        _ => Seq::empty(),
    }
}

/// The node with the aggregation number `at` exchanged for `expr`.
pub open spec fn with_agg(ir: IRModel, at: int, expr: Node) -> IRModel {
    match ir {
        Plan::GroupBy { input, keys, aggs, maintain_order, is_dynamic, is_rolling, has_apply } =>
        Plan::GroupBy {
            input,
            keys,
            aggs: aggs.update(at, expr),
            maintain_order,
            is_dynamic,
            is_rolling,
            has_apply,
        },
        _ => ir,
    }
}

/// Nodes that may stand on a list of nodes more than once.
pub open spec fn repeatable(ir: IRModel) -> bool {
    ir is Cache || ir.inputs().len() == 0
}

impl PassState {
    /// The position that is up: first all of them in order, then all of them in reverse.
    pub open spec fn idx(self) -> int {
        if self.pos < self.nodes.len() {
            self.pos as int
        } else {
            2 * self.nodes.len() - 1 - self.pos
        }
    }

    pub open spec fn finished(self) -> bool {
        self.pos >= 2 * self.nodes.len()
    }

    /// The position that is up is not visited, as its node was deleted before.
    pub open spec fn skips(self) -> bool {
        &&& self.nodes.len() <= self.pos < 2 * self.nodes.len()
        &&& self.deleted.len() > 0
        &&& self.deleted.last() == self.idx()
    }

    /// The node that is up.
    pub open spec fn node(self) -> Node {
        self.nodes[self.idx()]
    }

    pub open spec fn ir(self) -> IRModel {
        self.graph.plan[self.node() as int]
    }

    /// The visit of the node that is up has aggregations to settle first.
    pub open spec fn has_aggs(self) -> bool {
        self.aggs_done < aggs_of(self.ir()).len()
    }

    /// What the next step needs.
    pub open spec fn request(self) -> RequestModel {
        if self.finished() {
            Wanted::Finished
        } else if self.skips() {
            Wanted::Proceed
        } else if self.has_aggs() {
            let agg = aggs_of(self.ir())[self.aggs_done as int];
            if self.implode {
                Wanted::AddImplode(agg)
            } else {
                Wanted::IsScalar(agg)
            }
        } else {
            match self.graph.query(self.node()) {
                Some(query) => Wanted::Simplify(query),
                None => Wanted::Proceed,
            }
        }
    }

    /// Whether `reply` answers what the next step needs.
    pub open spec fn takes(self, reply: Reply) -> bool {
        match (self.request(), reply) {
            (Wanted::Proceed, Reply::Proceed) => true,
            (Wanted::IsScalar(_), Reply::IsScalar(_)) => true,
            (Wanted::AddImplode(_), Reply::Added(_)) => true,
            (Wanted::Simplify(_), Reply::Orders(orders)) => reply_fits(
                self.ir(),
                self.graph.outs(self.node()),
                Some(orders),
            ),
            _ => false,
        }
    }

    /// `after` is what the next step makes of the pass, with `reply` for an answer.
    pub open spec fn stepped(self, reply: Reply, after: Self) -> bool {
        if self.skips() {
            after == (PassState { deleted: self.deleted.drop_last(), pos: self.pos + 1, ..self })
        } else if self.has_aggs() {
            after == match reply {
                Reply::IsScalar(true) => PassState { aggs_done: self.aggs_done + 1, ..self },
                Reply::Added(expr) => PassState {
                    graph: GraphState {
                        plan: self.graph.plan.update(
                            self.node() as int,
                            with_agg(self.ir(), self.aggs_done as int, expr),
                        ),
                        ..self.graph
                    },
                    aggs_done: self.aggs_done + 1,
                    implode: false,
                    ..self
                },
                _ => PassState { implode: true, ..self },
            }
        } else {
            let orders = match reply {
                Reply::Orders(orders) => Some(orders),
                _ => None,
            };
            let deletes = self.graph.removes(self.node());
            &&& self.graph.visited(self.node(), orders, after.graph, deletes)
            &&& after == (PassState {
                graph: after.graph,
                deleted: if deletes && self.pos < self.nodes.len() {
                    self.deleted.push(self.idx() as usize)
                } else {
                    self.deleted
                },
                pos: self.pos + 1,
                aggs_done: 0,
                live: if deletes {
                    self.live.remove(self.node())
                } else {
                    self.live
                },
                ..self
            })
        }
    }

    /// The position `p` is still to be looked at.
    pub open spec fn pending(self, p: int) -> bool {
        0 <= p < self.nodes.len() && (self.pos < self.nodes.len() || p <= self.idx())
    }

    /// What holds of a pass at all times.
    pub open spec fn inv(self) -> bool {
        let n = self.nodes.len();
        &&& wired(self.graph, self.leads, self.live)
        &&& 2 * n <= usize::MAX
        &&& self.pos <= 2 * n
        &&& forall|p: int| 0 <= p < n ==> (#[trigger] self.nodes[p]) < self.graph.plan.len()
        &&& forall|p: int, r: int|
            0 <= p < r < n && #[trigger] self.nodes[p] == #[trigger] self.nodes[r] ==> repeatable(
                self.graph.plan[self.nodes[p] as int],
            )
        &&& forall|a: int, b: int|
            0 <= a < b < self.deleted.len() ==> #[trigger] self.deleted[a]
                < #[trigger] self.deleted[b]
        &&& forall|a: int|
            0 <= a < self.deleted.len() ==> (#[trigger] self.deleted[a]) < n && (if self.pos < n {
                self.deleted[a] < self.pos
            } else {
                self.deleted[a] <= self.idx()
            })
        &&& forall|a: int|
            0 <= a < self.deleted.len() ==> !self.live.contains(
                self.nodes[#[trigger] self.deleted[a] as int],
            )
        &&& forall|p: int|
            self.pending(p) && !self.deleted.contains(p as usize) ==> self.live.contains(
                #[trigger] self.nodes[p],
            )
        &&& self.finished() || self.skips() ==> self.aggs_done == 0 && !self.implode
        &&& !self.finished() ==> self.aggs_done <= aggs_of(self.ir()).len()
        &&& self.implode ==> self.has_aggs()
    }
}

/// The node that is up is in the plan and can be visited.
pub proof fn lemma_up(pass: PassState)
    requires
        pass.inv(),
        !pass.finished(),
        !pass.skips(),
    ensures
        0 <= pass.idx() < pass.nodes.len(),
        !pass.deleted.contains(pass.idx() as usize),
        pass.live.contains(pass.node()),
        pass.graph.can_visit(pass.node()),
{
    let at = pass.idx();
    if pass.deleted.contains(at as usize) {
        let a = choose|a: int|
            0 <= a < pass.deleted.len() && pass.deleted[a] == at as usize;
    }
    lemma_can_visit(pass.graph, pass.leads, pass.live, pass.node());
}

/// A step that passes over a deleted node keeps what holds of a pass.
proof fn lemma_skip_inv(pass: PassState, after: PassState)
    requires
        pass.inv(),
        pass.skips(),
        after == (PassState { deleted: pass.deleted.drop_last(), pos: pass.pos + 1, ..pass }),
    ensures
        after.inv(),
{
    assert forall|p: int|
        after.pending(p) && !after.deleted.contains(p as usize) implies after.live.contains(
        #[trigger] after.nodes[p],
    ) by {
        if pass.deleted.contains(p as usize) {
            let a = choose|a: int|
                0 <= a < pass.deleted.len() && pass.deleted[a] == p as usize;
            assert(after.deleted[a] == p as usize);
        }
    }
}

/// A step that settles an aggregation keeps what holds of a pass.
proof fn lemma_agg_inv(pass: PassState, reply: Reply, after: PassState)
    requires
        pass.inv(),
        !pass.finished(),
        !pass.skips(),
        pass.has_aggs(),
        pass.takes(reply),
        pass.stepped(reply, after),
    ensures
        after.inv(),
{
    lemma_up(pass);
    let node = pass.node();
    lemma_same_wired(pass.graph, after.graph, pass.leads, pass.live);
}

/// A visit keeps what holds of a pass.
proof fn lemma_visit_inv(pass: PassState, reply: Reply, after: PassState)
    requires
        pass.inv(),
        !pass.finished(),
        !pass.skips(),
        !pass.has_aggs(),
        pass.stepped(reply, after),
    ensures
        after.inv(),
{
    lemma_up(pass);
    let at = pass.idx();
    let node = pass.node();
    let deletes = pass.graph.removes(node);
    let orders = match reply {
        Reply::Orders(orders) => Some(orders),
        _ => None,
    };
    lemma_visited_wired(
        pass.graph,
        pass.leads,
        pass.live,
        node,
        orders,
        after.graph,
        deletes,
    );
    lemma_visited_shape(
        pass.graph,
        pass.leads,
        pass.live,
        node,
        orders,
        after.graph,
        deletes,
    );
    assert forall|p: int|
        after.pending(p) && !after.deleted.contains(p as usize) implies after.live.contains(
        #[trigger] after.nodes[p],
    ) by {
        if pass.deleted.contains(p as usize) {
            let a = choose|a: int|
                0 <= a < pass.deleted.len() && pass.deleted[a] == p as usize;
            assert(after.deleted[a] == p as usize);
        }
        if deletes {
            if p == at {
                assert(after.deleted[pass.deleted.len() as int] == p as usize);
            }
        }
    }
}

/// What holds of a pass at all times holds after each of its steps.
pub proof fn lemma_step_inv(pass: PassState, reply: Reply, after: PassState)
    requires
        pass.inv(),
        pass.takes(reply),
        pass.stepped(reply, after),
    ensures
        after.inv(),
{
    if pass.skips() {
        lemma_skip_inv(pass, after);
    } else if pass.has_aggs() {
        lemma_agg_inv(pass, reply, after);
    } else {
        lemma_visit_inv(pass, reply, after);
    }
}

/// A node that stands on the list of nodes twice is a cache or has no inputs.
pub proof fn lemma_repeats(web: Web, p: int, r: int)
    requires
        woven(web),
        web.inside(),
        complete(web),
        single_use(web),
        0 <= p < r < listing(web).len(),
        listing(web)[p] == listing(web)[r],
    ensures
        repeatable(web.plan[listing(web)[p] as int]),
{
    let list = listing(web);
    let node = list[p];
    lemma_listing(web);
    assert(web.opened.contains(web.head(list[p])));
    if !repeatable(web.plan[node as int]) {
        assert(web.uses(node) <= 1);
        lemma_seen_mono(web, list, (p + 1) as nat, r as nat, node);
        lemma_seen_mono(web, list, (r + 1) as nat, list.len(), node);
    }
}

/// `pass` is at its start: nothing is visited yet, and every edge is ordered.
pub open spec fn started(plan: Seq<IRModel>, roots: Seq<Node>, pass: PassState) -> bool {
    &&& pass.graph.plan == plan
    &&& pass.nodes == traversal(plan, roots)
    &&& exists|keys: Seq<EdgeKey>| #[trigger]
        fresh_graph(web_of(plan, roots), keys, pass.graph.links, pass.graph.edges)
    &&& pass.deleted.len() == 0
    &&& pass.pos == 0
    &&& pass.aggs_done == 0
    &&& !pass.implode
    &&& pass.live == pass.graph.links.dom()
    &&& pass.leads == web_of(plan, roots).leads
}

/// What holds of a pass at its start.
proof fn lemma_started(plan: Seq<IRModel>, roots: Seq<Node>, pass: PassState)
    requires
        plan.len() <= usize::MAX,
        simplifiable(plan, roots),
        started(plan, roots, pass),
    ensures
        pass.inv(),
{
    let web = web_of(plan, roots);
    let list = listing(web);
    let links = pass.graph.links;
    let edges = pass.graph.edges;
    let keys = choose|keys: Seq<EdgeKey>| #[trigger] fresh_graph(web, keys, links, edges);
    lemma_woven(plan, roots);
    lemma_fresh_wired(web, keys, links, edges);
    assert(pass.graph =~= GraphState { plan, links, edges });
    lemma_listing(web);
    lemma_complete(web);
    assert forall|p: int| 0 <= p < list.len() implies links.contains_key(#[trigger] list[p]) by {
        assert(list.contains(list[p]));
    }
    assert forall|p: int, r: int|
        0 <= p < r < list.len() && #[trigger] list[p] == #[trigger] list[r] implies repeatable(
        plan[list[p] as int],
    ) by {
        lemma_repeats(web, p, r);
    }
}

/// Starts a pass over the plan below `roots`.
pub fn simplify_ir_ordering(roots: &[Node], ir_arena: Arena<IR>) -> (pass: OrderingPass)
    requires
        simplifiable(ir_arena.plan(), roots@),
    ensures
        started(ir_arena.plan(), roots@, pass@),
        pass@.inv(),
{
    let ghost plan = ir_arena.plan();
    let (ir_nodes_stack, ir_node_to_edges_map, all_edges_map) = build_ir_traversal_graph(
        roots,
        &ir_arena,
    );
    let ghost links = links_of(ir_node_to_edges_map);
    let ghost edges = all_edges_map@;
    let ghost keys = choose|keys: Seq<EdgeKey>| #[trigger]
        fresh_graph(web_of(plan, roots@), keys, links, edges);
    let pass = OrderingPass {
        simplifier: SimplifyIRNodeOrder { ir_node_to_edges_map, all_edges_map, ir_arena },
        ir_nodes_stack,
        deleted_idxs: Vec::new(),
        pos: 0,
        aggs_done: 0,
        implode: false,
        live: Ghost(links.dom()),
        leads: Ghost(web_of(plan, roots@).leads),
    };
    proof {
        assert(fresh_graph(web_of(plan, roots@), keys, pass@.graph.links, pass@.graph.edges));
        assert(plan.len() == ir_arena.items.len());
        lemma_started(plan, roots@, pass@);
    }
    pass
}

impl OrderingPass {
    /// The position that is up.
    fn current_idx(&self) -> (idx: usize)
        requires
            self@.inv(),
            !self@.finished(),
        ensures
            idx == self@.idx(),
            idx < self@.nodes.len(),
    {
        let len: usize = self.ir_nodes_stack.len();
        if self.pos < len {
            self.pos
        } else {
            2 * len - 1 - self.pos
        }
    }

    pub fn is_finished(&self) -> (finished: bool)
        requires
            self@.inv(),
        ensures
            finished == self@.finished(),
    {
        let len: usize = self.ir_nodes_stack.len();
        self.pos >= 2 * len
    }

    /// Whether the way back comes past a position whose node was deleted.
    fn is_skipping(&self, idx: usize) -> (skipping: bool)
        requires
            self@.inv(),
            !self@.finished(),
            idx == self@.idx(),
        ensures
            skipping == self@.skips(),
    {
        let len: usize = self.deleted_idxs.len();
        self.pos >= self.ir_nodes_stack.len() && len > 0 && self.deleted_idxs[len - 1] == idx
    }

    /// The next aggregation that is not settled yet.
    fn pending_agg(&self, node: Node) -> (agg: Option<Node>)
        requires
            self@.inv(),
            !self@.finished(),
            node == self@.node(),
            node < self@.graph.plan.len(),
        ensures
            agg is Some <==> self@.has_aggs(),
            agg matches Some(agg) ==> agg == aggs_of(self@.ir())[self@.aggs_done as int]
                && self.aggs_done < usize::MAX,
    {
        let ir = self.simplifier.ir_arena.get(node);
        match ir {
            Plan::GroupBy { aggs, .. } => {
                if self.aggs_done < aggs.len() {
                    Some(aggs[self.aggs_done])
                } else {
                    None
                }
            },
            _ => None,
        }
    }

    /// What the next step needs.
    pub fn request(&self) -> (request: Request)
        requires
            self@.inv(),
        ensures
            request@ == self@.request(),
    {
        if self.is_finished() {
            return Wanted::Finished;
        }
        let idx = self.current_idx();
        if self.is_skipping(idx) {
            return Wanted::Proceed;
        }
        proof {
            lemma_up(self@);
        }
        let node = self.ir_nodes_stack[idx];
        if let Some(agg) = self.pending_agg(node) {
            if self.implode {
                return Wanted::AddImplode(agg);
            }
            return Wanted::IsScalar(agg);
        }
        match self.simplifier.expr_query(node) {
            Some(query) => Wanted::Simplify(query),
            None => Wanted::Proceed,
        }
    }

    /// Whether `reply` answers what the next step needs.
    pub fn accepts(&self, reply: &Reply) -> (accepted: bool)
        requires
            self@.inv(),
        ensures
            accepted == self@.takes(*reply),
    {
        let request = self.request();
        match (request, reply) {
            (Wanted::Proceed, Reply::Proceed) => true,
            (Wanted::IsScalar(_), Reply::IsScalar(_)) => true,
            (Wanted::AddImplode(_), Reply::Added(_)) => true,
            (Wanted::Simplify(_), Reply::Orders(orders)) => {
                proof {
                    lemma_up(self@);
                }
                let node = self.ir_nodes_stack[self.current_idx()];
                let ir = self.simplifier.ir_arena.get(node);
                match ir {
                    Plan::Join { .. } => orders.is_elementwise(true),
                    Plan::Sink { .. } => orders.is_elementwise(false),
                    _ => true,
                }
            },
            _ => false,
        }
    }

    /// Takes the next step, with `reply` for an answer to [`Self::request`].
    pub fn resume(&mut self, reply: Reply)
        requires
            old(self)@.inv(),
            old(self)@.takes(reply),
        ensures
            old(self)@.stepped(reply, final(self)@),
            final(self)@.inv(),
    {
        let ghost before = self@;
        let idx = self.current_idx();
        if self.is_skipping(idx) {
            self.deleted_idxs.pop();
            self.pos = self.pos + 1;
            proof {
                lemma_step_inv(before, reply, self@);
            }
            return;
        }
        proof {
            lemma_up(before);
        }
        let node = self.ir_nodes_stack[idx];
        if let Some(_) = self.pending_agg(node) {
            match reply {
                Reply::IsScalar(true) => {
                    self.aggs_done = self.aggs_done + 1;
                },
                Reply::Added(expr) => {
                    let at: usize = self.aggs_done;
                    let ir = self.simplifier.ir_arena.get_mut(node);
                    set_agg(ir, at, expr);
                    self.aggs_done = at + 1;
                    self.implode = false;
                    assert(self@.graph.plan =~= before.graph.plan.update(
                        node as int,
                        with_agg(before.ir(), at as int, expr),
                    ));
                },
                _ => {
                    self.implode = true;
                },
            }
            proof {
                lemma_step_inv(before, reply, self@);
            }
            return;
        }
        let orders = match reply {
            Reply::Orders(orders) => Some(orders),
            _ => None,
        };
        let deleted = self.simplifier.simplify_ir_node_orders(node, orders);
        if deleted && self.pos < self.ir_nodes_stack.len() {
            self.deleted_idxs.push(idx);
        }
        self.pos = self.pos + 1;
        self.aggs_done = 0;
        proof {
            if deleted {
                self.live@ = self.live@.remove(node);
            }
            lemma_step_inv(before, reply, self@);
        }
    }
}

/// Exchanges the aggregation number `at` for `expr`.
fn set_agg(ir: &mut IR, at: usize, expr: Node)
    requires
        at < aggs_of(old(ir)@).len(),
    ensures
        final(ir)@ == with_agg(old(ir)@, at as int, expr),
{
    if let Plan::GroupBy { aggs, .. } = ir {
        aggs.set(at, expr);
    }
}

} // verus!
