//! What a pass asks for, what it does with the answers, and how it gets through a plan.

use crate::arena::Node;
use crate::edge::Edge;
use crate::ir::{IRModel, Plan, SinkPlan};
use crate::laws::{is_run, law_runs_stay_wired, orders_in, visits};
use crate::orders::ExprQueryModel;
use crate::pass::{lemma_step_inv, lemma_up, PassState, Reply, Wanted};
use crate::visit_laws::{
    in_ordered, law_deletion, law_distinct, law_group_by, law_sink, law_sort, law_union,
    out_ordered, stays,
};
use crate::wiring::placed;
use vstd::prelude::*;

verus! {

////////////////////////////////////////////////////////////////////////////////////////////////
// Single steps
////////////////////////////////////////////////////////////////////////////////////////////////

/// The aggregation number `k` of the grouping `ir`.
pub open spec fn agg(ir: IRModel, k: int) -> Node {
    match ir {
        Plan::GroupBy { aggs, .. } => aggs[k],
        _ => arbitrary(),
    }
}

/// How many aggregations `ir` has; none if it is no grouping.
pub open spec fn num_aggs(ir: IRModel) -> nat {
    match ir {
        Plan::GroupBy { aggs, .. } => aggs.len(),
        _ => 0,
    }
}

/// On the way to the sources the position that is up is the number of positions done. On the way
/// back the same nodes come up in reverse.
pub proof fn law_there_and_back_in_order(there: PassState, back: PassState)
    requires
        there.nodes == back.nodes,
        there.pos < there.nodes.len(),
        there.pos + back.pos == 2 * there.nodes.len() - 1,
    ensures
        there.node() == there.nodes[there.pos as int],
        back.node() == there.node(),
        !there.finished(),
        !back.finished(),
{
}

/// A position is passed over exactly if its node has left the plan.
pub proof fn law_passed_over(pass: PassState)
    requires
        pass.inv(),
        !pass.finished(),
    ensures
        pass.skips() <==> !pass.live.contains(pass.node()),
{
    if !pass.skips() {
        lemma_up(pass);
    }
}

/// A pass is over exactly if every position was up twice. Until then a node that has left the plan
/// needs no answer, and a node that has not needs answers about its aggregations, one after the
/// other, and then the answer to the query of its visit.
pub proof fn law_requests(pass: PassState)
    requires
        pass.inv(),
    ensures
        pass.request() is Finished <==> pass.pos == 2 * pass.nodes.len(),
        pass.finished() <==> pass.pos == 2 * pass.nodes.len(),
        pass.request() !is Finished ==> pass.request() == if !pass.live.contains(pass.node()) {
            Wanted::Proceed
        } else {
            let ir = pass.graph.plan[pass.node() as int];
            if pass.aggs_done < num_aggs(ir) {
                if pass.implode {
                    Wanted::AddImplode(agg(ir, pass.aggs_done as int))
                } else {
                    Wanted::IsScalar(agg(ir, pass.aggs_done as int))
                }
            } else {
                match pass.graph.query(pass.node()) {
                    Some(query) => Wanted::Simplify(query),
                    None => Wanted::Proceed,
                }
            }
        },
{
    if !pass.finished() {
        law_passed_over(pass);
    }
}

/// An answer is taken exactly if it is of the kind that was asked for and, for the keys of a join
/// or of a partitioned sink, does not say that they depend on more than the row that they are
/// computed for.
pub proof fn law_answers_taken(pass: PassState, reply: Reply)
    requires
        pass.inv(),
    ensures
        pass.takes(reply) <==> match reply {
            Reply::Proceed => pass.request() is Proceed,
            Reply::IsScalar(_) => pass.request() is IsScalar,
            Reply::Added(_) => pass.request() is AddImplode,
            Reply::Orders(orders) => pass.request() is Simplify
                && match pass.graph.plan[pass.node() as int] {
                Plan::Join { .. } => !orders.first.independent && !orders.second.independent
                    && !orders.internal.column,
                Plan::Sink { payload: SinkPlan::Partitioned { .. }, .. } => {
                    !orders.first.independent && !orders.internal.column
                },
                _ => true,
            },
        },
{
}

/// Passing over a position changes nothing in the plan.
pub proof fn law_passing_over_changes_nothing(pass: PassState, reply: Reply, after: PassState)
    requires
        pass.inv(),
        pass.takes(reply),
        pass.stepped(reply, after),
        !pass.live.contains(pass.node()),
    ensures
        after.graph == pass.graph,
        after.live == pass.live,
        after.nodes == pass.nodes,
        after.pos == pass.pos + 1,
{
    law_passed_over(pass);
}

/// An aggregation that gives a single value is settled as it is.
pub proof fn law_scalar_settled(pass: PassState, after: PassState)
    requires
        pass.inv(),
        pass.request() is IsScalar,
        pass.stepped(Reply::IsScalar(true), after),
    ensures
        after == (PassState { aggs_done: pass.aggs_done + 1, ..pass }),
{
}

/// For an aggregation that does not give a single value, and for no other, a new expression is
/// asked for next.
pub proof fn law_no_scalar_imploded(pass: PassState, after: PassState)
    requires
        pass.inv(),
        pass.request() is IsScalar,
        pass.stepped(Reply::IsScalar(false), after),
    ensures
        after.request() == Wanted::<ExprQueryModel>::AddImplode(
            pass.request()->IsScalar_0,
        ),
        after.graph == pass.graph,
        after.live == pass.live,
        after.nodes == pass.nodes,
        after.pos == pass.pos,
        after.aggs_done == pass.aggs_done,
{
}

/// A new expression takes the place of the aggregation that it was asked for. All other
/// aggregations and all else stay as they are, and the aggregation is settled.
pub proof fn law_added_in_place(pass: PassState, expr: Node, after: PassState)
    requires
        pass.inv(),
        pass.request() is AddImplode,
        pass.stepped(Reply::Added(expr), after),
    ensures
        ({
            let node = pass.node() as int;
            let k = pass.aggs_done as int;
            &&& pass.request() == Wanted::<ExprQueryModel>::AddImplode(
                agg(pass.graph.plan[node], k),
            )
            &&& after.graph.plan.len() == pass.graph.plan.len()
            &&& forall|n: int|
                0 <= n < pass.graph.plan.len() && n != node ==> #[trigger] after.graph.plan[n]
                    == pass.graph.plan[n]
            &&& (pass.graph.plan[node], after.graph.plan[node]) matches (
                Plan::GroupBy {
                    input,
                    keys,
                    aggs,
                    maintain_order,
                    is_dynamic,
                    is_rolling,
                    has_apply,
                },
                Plan::GroupBy {
                    input: input2,
                    keys: keys2,
                    aggs: aggs2,
                    maintain_order: maintain_order2,
                    is_dynamic: is_dynamic2,
                    is_rolling: is_rolling2,
                    has_apply: has_apply2,
                },
            )
            &&& aggs2.len() == aggs.len()
            &&& aggs2[k] == expr
            &&& forall|other: int|
                0 <= other < aggs.len() && other != k ==> #[trigger] aggs2[other] == aggs[other]
            &&& input2 == input && keys2 == keys && maintain_order2 == maintain_order
            &&& is_dynamic2 == is_dynamic && is_rolling2 == is_rolling && has_apply2 == has_apply
            &&& after.graph.links == pass.graph.links
            &&& after.graph.edges == pass.graph.edges
            &&& after.live == pass.live
            &&& after.nodes == pass.nodes
            &&& after.pos == pass.pos
            &&& after.aggs_done == pass.aggs_done + 1
            &&& !after.implode
        }),
{
    lemma_up(pass);
}

/// Once its aggregations are settled, a node is visited with the answer to the query of the visit,
/// and the next position is up. The node leaves the plan exactly if the visit deletes it.
pub proof fn law_visit_after_aggs(pass: PassState, reply: Reply, after: PassState)
    requires
        pass.inv(),
        pass.takes(reply),
        pass.stepped(reply, after),
        pass.live.contains(pass.node()),
        pass.aggs_done >= num_aggs(pass.graph.plan[pass.node() as int]),
    ensures
        ({
            let orders = match reply {
                Reply::Orders(orders) => Some(orders),
                _ => None,
            };
            pass.graph.visited(
                pass.node(),
                orders,
                after.graph,
                !after.live.contains(pass.node()),
            )
        }),
        forall|n: Node|
            n != pass.node() ==> (#[trigger] after.live.contains(n) <==> pass.live.contains(n)),
        after.nodes == pass.nodes,
        after.pos == pass.pos + 1,
        after.aggs_done == 0,
        !after.implode,
{
    law_passed_over(pass);
}

////////////////////////////////////////////////////////////////////////////////////////////////
// Runs
////////////////////////////////////////////////////////////////////////////////////////////////

/// A step keeps the list of nodes and moves on by one position at most.
proof fn lemma_step_on(pass: PassState, reply: Reply, after: PassState)
    requires
        pass.stepped(reply, after),
    ensures
        after.nodes == pass.nodes,
        pass.pos <= after.pos <= pass.pos + 1,
{
}

/// The list of nodes stays the same, and positions come up in turn.
pub proof fn law_positions_in_turn(passes: Seq<PassState>, replies: Seq<Reply>, i: int, j: int)
    requires
        is_run(passes, replies),
        0 <= i <= j < passes.len(),
    ensures
        passes[j].nodes == passes[i].nodes,
        passes[i].pos <= passes[j].pos <= passes[i].pos + (j - i),
    decreases j - i,
{
    if i < j {
        law_positions_in_turn(passes, replies, i, j - 1);
        lemma_step_on(passes[j - 1], replies[j - 1], passes[j]);
    }
}

/// A position that was up and is no longer was left at some step.
proof fn lemma_left_at(passes: Seq<PassState>, replies: Seq<Reply>, pos: nat, upto: int) -> (i: int)
    requires
        is_run(passes, replies),
        0 <= upto < passes.len(),
        passes[0].pos <= pos < passes[upto].pos,
    ensures
        0 <= i < upto,
        passes[i].pos == pos,
        passes[i + 1].pos == pos + 1,
    decreases upto,
{
    lemma_step_on(passes[upto - 1], replies[upto - 1], passes[upto]);
    if pos < passes[upto - 1].pos {
        lemma_left_at(passes, replies, pos, upto - 1)
    } else {
        upto - 1
    }
}

/// A whole pass visits every node that is listed at each position on the way to the sources and,
/// unless it has left the plan by then, on the way back.
pub proof fn law_visited_both_ways(passes: Seq<PassState>, replies: Seq<Reply>, p: int) -> (steps: (
    int,
    int,
))
    requires
        is_run(passes, replies),
        passes[0].pos == 0,
        passes.last().finished(),
        0 <= p < passes[0].nodes.len(),
    ensures
        ({
            let (there, back) = steps;
            let node = passes[0].nodes[p];
            &&& 0 <= there < back < replies.len()
            &&& passes[there].pos == p
            &&& passes[there].node() == node
            &&& visits(passes[there])
            &&& passes[there].live.contains(node)
            &&& passes[back].pos == 2 * passes[0].nodes.len() - 1 - p
            &&& passes[back].node() == node
            &&& visits(passes[back]) <==> passes[back].live.contains(node)
        }),
{
    let n = passes[0].nodes.len();
    let last = passes.len() - 1;
    law_positions_in_turn(passes, replies, 0, last);
    let there = lemma_left_at(passes, replies, p as nat, last);
    let back = lemma_left_at(passes, replies, (2 * n - 1 - p) as nat, last);
    law_positions_in_turn(passes, replies, 0, there);
    law_positions_in_turn(passes, replies, 0, back);
    if back <= there {
        law_positions_in_turn(passes, replies, back, there);
    }
    law_runs_stay_wired(passes, replies, there);
    law_runs_stay_wired(passes, replies, back);
    law_passed_over(passes[there]);
    law_passed_over(passes[back]);
    assert(passes[there].stepped(replies[there], passes[there + 1]));
    assert(passes[back].stepped(replies[back], passes[back + 1]));
    (there, back)
}

/// `pass` is about to visit `n`, a sort of all rows that is read over a single edge, and that edge
/// is unordered.
pub open spec fn visits_unobserved_sort(pass: PassState, n: Node) -> bool {
    &&& visits(pass)
    &&& pass.node() == n
    &&& match pass.graph.plan[n as int] {
        Plan::Sort { has_slice, .. } => !has_slice,
        _ => false,
    }
    &&& pass.graph.links[n].out_edges.len() == 1
    &&& pass.graph.edges[pass.graph.links[n].out_edges[0]] == Edge::Unordered
}

/// A step takes a node out of the plan exactly if it visits an unobserved sort.
pub proof fn law_step_drops_unobserved_sorts(
    pass: PassState,
    reply: Reply,
    after: PassState,
    n: Node,
)
    requires
        pass.inv(),
        pass.takes(reply),
        pass.stepped(reply, after),
    ensures
        after.live.contains(n) ==> pass.live.contains(n),
        pass.live.contains(n) && !after.live.contains(n) <==> visits_unobserved_sort(pass, n),
{
    if !pass.skips() {
        lemma_up(pass);
    }
}

/// Whoever leaves the plan in a run does so at a visit of its own, as a sort of all rows that is
/// read over a single edge, and that edge is unordered then.
pub proof fn law_leaves_unobserved(
    passes: Seq<PassState>,
    replies: Seq<Reply>,
    i: int,
    j: int,
    n: Node,
) -> (k: int)
    requires
        is_run(passes, replies),
        0 <= i <= j < passes.len(),
        passes[i].live.contains(n),
        !passes[j].live.contains(n),
    ensures
        i <= k < j,
        passes[k].live.contains(n),
        !passes[k + 1].live.contains(n),
        visits_unobserved_sort(passes[k], n),
    decreases j - i,
{
    if passes[j - 1].live.contains(n) {
        law_runs_stay_wired(passes, replies, j - 1);
        law_step_drops_unobserved_sorts(passes[j - 1], replies[j - 1], passes[j], n);
        j - 1
    } else {
        law_leaves_unobserved(passes, replies, i, j - 1, n)
    }
}

/// The option of `ir` to maintain order is on; a join has several and is not meant here.
pub open spec fn option_on(ir: IRModel) -> bool {
    match ir {
        Plan::Sort { maintain_order, .. }
        | Plan::GroupBy { maintain_order, .. }
        | Plan::Distinct { maintain_order, .. }
        | Plan::Union { maintain_order, .. } => maintain_order,
        Plan::Sink { payload: SinkPlan::Partitioned { maintain_order, .. }, .. } => maintain_order,
        Plan::Sink { payload: SinkPlan::Single { maintain_order }, .. } => maintain_order,
        _ => false,
    }
}

/// `pass` is about to visit `n`, and there is no use in maintaining order there: the rows of a
/// sort, a sink, a distinct or a grouping come in no order, those of a distinct or a union are not
/// wanted in order, or nothing in a grouping observes the order.
pub open spec fn useless_at(pass: PassState, reply: Reply, n: Node) -> bool {
    &&& visits(pass)
    &&& pass.node() == n
    &&& match pass.graph.plan[n as int] {
        Plan::Sort { .. } | Plan::Sink { .. } => !in_ordered(pass.graph, n, 0),
        Plan::Distinct { .. } => !in_ordered(pass.graph, n, 0) || !out_ordered(pass.graph, n, 0),
        Plan::Union { .. } => !out_ordered(pass.graph, n, 0),
        Plan::GroupBy { is_dynamic, is_rolling, has_apply, .. } => {
            ||| !in_ordered(pass.graph, n, 0)
            ||| match reply {
                Reply::Orders(orders) => !is_dynamic && !is_rolling && !has_apply
                    && !orders.internal.column && !orders.first.independent && !orders.first.column,
                _ => false,
            }
        },
        _ => false,
    }
}

/// A step switches an option to maintain order off exactly where there is no use in it, and never
/// switches one on. The option of a node that leaves the plan is left alone.
pub proof fn law_step_switches_useless_options(
    pass: PassState,
    reply: Reply,
    after: PassState,
    n: Node,
)
    requires
        pass.inv(),
        pass.takes(reply),
        pass.stepped(reply, after),
        n < pass.graph.plan.len(),
        after.live.contains(n) || !pass.live.contains(n),
    ensures
        after.graph.plan.len() == pass.graph.plan.len(),
        option_on(after.graph.plan[n as int]) <==> option_on(pass.graph.plan[n as int])
            && !useless_at(pass, reply, n),
{
    if !pass.skips() {
        lemma_up(pass);
        if visits(pass) && pass.graph.removes(pass.node()) {
            law_deletion(pass.graph, pass.node(), orders_in(reply), after.graph);
        } else if visits(pass) {
            lemma_option_visit(pass, reply, after);
        }
    }
}

/// What a visit makes of the option of its node.
proof fn lemma_option_visit(pass: PassState, reply: Reply, after: PassState)
    requires
        pass.takes(reply),
        visits(pass),
        stays(pass.graph, pass.node(), orders_in(reply), after.graph),
    ensures
        option_on(after.graph.plan[pass.node() as int]) <==> option_on(
            pass.graph.plan[pass.node() as int],
        ) && !useless_at(pass, reply, pass.node()),
{
    let graph = pass.graph;
    let node = pass.node();
    match graph.plan[node as int] {
        Plan::Sort { .. } => law_sort(graph, node, orders_in(reply)->0, after.graph),
        Plan::GroupBy { .. } => law_group_by(graph, node, orders_in(reply)->0, after.graph),
        Plan::Distinct { .. } => law_distinct(graph, node, orders_in(reply), after.graph),
        Plan::Union { .. } => law_union(graph, node, orders_in(reply), after.graph),
        Plan::Sink { .. } => law_sink(graph, node, orders_in(reply), after.graph),
        _ => {},
    }
}

/// An option to maintain order of a node that stays in the plan is off at the end of a run only if
/// it was off at the start, or there was no use in it at some visit of the node.
pub proof fn law_options_off_for_a_reason(
    passes: Seq<PassState>,
    replies: Seq<Reply>,
    i: int,
    j: int,
    n: Node,
) -> (k: int)
    requires
        is_run(passes, replies),
        0 <= i <= j < passes.len(),
        n < passes[j].graph.plan.len(),
        passes[j].live.contains(n),
        n < passes[i].graph.plan.len(),
        option_on(passes[i].graph.plan[n as int]),
        !option_on(passes[j].graph.plan[n as int]),
    ensures
        i <= k < j,
        useless_at(passes[k], replies[k], n),
    decreases j - i,
{
    law_runs_stay_wired(passes, replies, j - 1);
    law_step_drops_unobserved_sorts(passes[j - 1], replies[j - 1], passes[j], n);
    assert(passes[j - 1].live.contains(n));
    lemma_live_in_plan(passes[j - 1], n);
    law_step_switches_useless_options(passes[j - 1], replies[j - 1], passes[j], n);
    if option_on(passes[j - 1].graph.plan[n as int]) {
        j - 1
    } else {
        law_options_off_for_a_reason(passes, replies, i, j - 1, n)
    }
}

proof fn lemma_live_in_plan(pass: PassState, n: Node)
    requires
        pass.inv(),
        pass.live.contains(n),
    ensures
        n < pass.graph.plan.len(),
{
    assert(placed(pass.graph, pass.leads, n));
}

////////////////////////////////////////////////////////////////////////////////////////////////
// Aggregations
////////////////////////////////////////////////////////////////////////////////////////////////

/// The step from `pass` to `after` asks for a new expression for the aggregation number `k` of `n`
/// and puts the answer in its place.
pub open spec fn replaces(
    pass: PassState,
    reply: Reply,
    after: PassState,
    n: Node,
    k: int,
) -> bool {
    &&& pass.node() == n
    &&& pass.aggs_done == k
    &&& pass.request() == Wanted::<ExprQueryModel>::AddImplode(agg(pass.graph.plan[n as int], k))
    &&& reply == Reply::Added(agg(after.graph.plan[n as int], k))
}

/// The step number `t` puts a new expression in the place of the aggregation number `k` of `n`.
pub open spec fn replaced_at(
    passes: Seq<PassState>,
    replies: Seq<Reply>,
    t: int,
    n: Node,
    k: int,
) -> bool {
    replaces(passes[t], replies[t], passes[t + 1], n, k)
}

/// How a single step leaves the aggregation number `k` of `n`.
proof fn lemma_agg_step(pass: PassState, reply: Reply, after: PassState, n: Node, k: int)
    requires
        pass.inv(),
        pass.takes(reply),
        pass.stepped(reply, after),
        n < pass.graph.plan.len(),
        0 <= k < num_aggs(pass.graph.plan[n as int]),
    ensures
        after.graph.plan.len() == pass.graph.plan.len(),
        num_aggs(after.graph.plan[n as int]) == num_aggs(pass.graph.plan[n as int]),
        agg(after.graph.plan[n as int], k) == agg(pass.graph.plan[n as int], k) || replaces(
            pass,
            reply,
            after,
            n,
            k,
        ),
{
    if !pass.skips() {
        lemma_up(pass);
    }
}

/// In a run each aggregation stays what it is, or is what was added for the aggregation that stood
/// in its place.
pub proof fn law_aggs_kept_or_imploded(
    passes: Seq<PassState>,
    replies: Seq<Reply>,
    i: int,
    j: int,
    n: Node,
    k: int,
)
    requires
        is_run(passes, replies),
        0 <= i <= j < passes.len(),
        n < passes[i].graph.plan.len(),
        0 <= k < num_aggs(passes[i].graph.plan[n as int]),
    ensures
        passes[j].graph.plan.len() == passes[i].graph.plan.len(),
        num_aggs(passes[j].graph.plan[n as int]) == num_aggs(passes[i].graph.plan[n as int]),
        agg(passes[j].graph.plan[n as int], k) == agg(passes[i].graph.plan[n as int], k) || exists|
            t: int,
        |
            i <= t < j && #[trigger] replaced_at(passes, replies, t, n, k) && agg(
                passes[t + 1].graph.plan[n as int],
                k,
            ) == agg(passes[j].graph.plan[n as int], k),
    decreases j - i,
{
    if i < j {
        law_aggs_kept_or_imploded(passes, replies, i, j - 1, n, k);
        law_runs_stay_wired(passes, replies, j - 1);
        lemma_agg_step(passes[j - 1], replies[j - 1], passes[j], n, k);
        if replaces(passes[j - 1], replies[j - 1], passes[j], n, k) {
            assert(replaced_at(passes, replies, j - 1, n, k));
        }
    }
}

/// A new expression is asked for only after the answer that the aggregation gives no single value.
pub proof fn law_imploded_if_no_scalar(pass: PassState, reply: Reply, after: PassState)
    requires
        pass.inv(),
        pass.takes(reply),
        pass.stepped(reply, after),
        after.request() is AddImplode,
    ensures
        reply == Reply::IsScalar(false),
        pass.request() == Wanted::<ExprQueryModel>::IsScalar(after.request()->AddImplode_0),
        after.pos == pass.pos,
        after.aggs_done == pass.aggs_done,
        after.graph == pass.graph,
{
    lemma_step_inv(pass, reply, after);
    if !pass.skips() {
        lemma_up(pass);
    }
}

/// The step from `pass` settles the aggregation number `k` of the node that is up as `expr`: it is
/// found to give a single value, or is added in the place of one that does not.
pub open spec fn settles(pass: PassState, reply: Reply, k: int, expr: Node) -> bool {
    &&& pass.aggs_done == k
    &&& (pass.request() == Wanted::<ExprQueryModel>::IsScalar(expr) && reply == Reply::IsScalar(
        true,
    )) || (pass.request() is AddImplode && reply == Reply::Added(expr))
}

/// What a step makes of the aggregations that are done after it.
proof fn lemma_settled_step(pass: PassState, reply: Reply, after: PassState, k: int)
    requires
        pass.inv(),
        pass.takes(reply),
        pass.stepped(reply, after),
        0 <= k < after.aggs_done,
    ensures
        after.pos == pass.pos,
        after.nodes == pass.nodes,
        k <= pass.aggs_done,
        k < pass.aggs_done ==> agg(after.graph.plan[after.node() as int], k) == agg(
            pass.graph.plan[pass.node() as int],
            k,
        ),
        k == pass.aggs_done ==> settles(
            pass,
            reply,
            k,
            agg(after.graph.plan[after.node() as int], k),
        ),
{
    lemma_up(pass);
}

/// The aggregations that are done are settled, at this visit of their node.
proof fn lemma_aggs_settled(passes: Seq<PassState>, replies: Seq<Reply>, t: int, k: int) -> (s: int)
    requires
        is_run(passes, replies),
        passes[0].aggs_done == 0,
        0 <= t < passes.len(),
        0 <= k < passes[t].aggs_done,
    ensures
        0 <= s < t,
        passes[s].pos == passes[t].pos,
        settles(
            passes[s],
            replies[s],
            k,
            agg(passes[t].graph.plan[passes[t].node() as int], k),
        ),
    decreases t,
{
    law_runs_stay_wired(passes, replies, t - 1);
    lemma_settled_step(passes[t - 1], replies[t - 1], passes[t], k);
    if k < passes[t - 1].aggs_done {
        lemma_aggs_settled(passes, replies, t - 1, k)
    } else {
        t - 1
    }
}

/// A grouping is visited only when each of its aggregations is settled at this visit.
pub proof fn law_visited_when_settled(
    passes: Seq<PassState>,
    replies: Seq<Reply>,
    t: int,
    k: int,
) -> (s: int)
    requires
        is_run(passes, replies),
        passes[0].aggs_done == 0,
        0 <= t < passes.len(),
        visits(passes[t]),
        0 <= k < num_aggs(passes[t].graph.plan[passes[t].node() as int]),
    ensures
        0 <= s < t,
        passes[s].pos == passes[t].pos,
        settles(
            passes[s],
            replies[s],
            k,
            agg(passes[t].graph.plan[passes[t].node() as int], k),
        ),
{
    lemma_aggs_settled(passes, replies, t, k)
}

} // verus!
