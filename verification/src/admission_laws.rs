//! Which plans can be simplified.

use crate::arena::Node;
use crate::ir::{IRModel, Plan};
use crate::laws::ends;
use crate::leaders::{law_leaders_settle, layered};
use crate::list_laws::{is_last, law_list_unfolds, lemma_goes_on, unfolded};
use crate::rules::arity_fits;
use crate::traversal::{
    hop_input, hops, led, lemma_complete, lemma_done_at, lemma_listing, lemma_woven, listing,
    traversal, web_of, width, Web,
};
use crate::wiring::{lemma_hop_from, simplifiable};
use vstd::prelude::*;

verus! {

/// How many inputs the first `upto` nodes have.
pub open spec fn num_inputs(plan: Seq<IRModel>, upto: nat) -> nat
    decreases upto,
{
    if upto == 0 {
        0
    } else {
        num_inputs(plan, (upto - 1) as nat) + plan[upto - 1].inputs().len()
    }
}

/// How often those of the first `upto` nodes that are in `nodes` read from `node`.
pub open spec fn num_reads(plan: Seq<IRModel>, nodes: Set<Node>, node: Node, upto: nat) -> nat
    decreases upto,
{
    if upto == 0 {
        0
    } else {
        num_reads(plan, nodes, node, (upto - 1) as nat) + if nodes.contains((upto - 1) as usize) {
            plan[upto - 1].inputs().to_multiset().count(node)
        } else {
            0
        }
    }
}

/// The node `n` is a root or an input of one of `nodes`.
pub open spec fn is_needed(
    plan: Seq<IRModel>,
    roots: Seq<Node>,
    nodes: Set<Node>,
    n: Node,
) -> bool {
    roots.contains(n) || exists|reader: Node| #[trigger]
        nodes.contains(reader) && plan[reader as int].inputs().contains(n)
}

/// No two of `nodes` are caches with one id.
pub open spec fn ids_differ(plan: Seq<IRModel>, nodes: Set<Node>) -> bool {
    forall|a: Node, b: Node|
        #![trigger nodes.contains(a), nodes.contains(b)]
        nodes.contains(a) && nodes.contains(b) && a != b ==> match (
            plan[a as int],
            plan[b as int],
        ) {
            (Plan::Cache { id: one, .. }, Plan::Cache { id: other, .. }) => one != other,
            _ => true,
        }
}

/// A node that has `num_ins` inputs, is read `num_reads` times and stands among the roots
/// `num_roots` times can be visited: what turns one input into one output has one of each; a join
/// or a merge has two inputs and is read once; a union is read once; a sink has one input and is
/// not read. Caches and nodes without inputs may be used any number of times, all others once.
pub open spec fn is_used_well(
    ir: IRModel,
    num_ins: nat,
    num_reads: nat,
    num_roots: nat,
) -> bool {
    &&& match ir {
        Plan::Select { .. }
        | Plan::HStack { .. }
        | Plan::Sort { .. }
        | Plan::Filter { .. }
        | Plan::GroupBy { .. }
        | Plan::Distinct { .. }
        | Plan::MapFunction { .. } => num_ins == 1 && num_reads == 1,
        Plan::Join { .. } | Plan::MergeSorted { .. } => num_ins == 2 && num_reads == 1,
        Plan::Union { .. } => num_reads == 1,
        Plan::Sink { .. } => num_ins == 1 && num_reads == 0,
        Plan::SinkMultiple { .. } | Plan::Invalid => false,
        Plan::HConcat { .. }
        | Plan::SimpleProjection { .. }
        | Plan::Slice { .. }
        | Plan::ExtContext { .. }
        | Plan::Cache { .. }
        | Plan::Scan
        | Plan::DataFrameScan
        | Plan::PythonScan => true,
    }
    &&& ir is Cache || num_ins == 0 || num_roots + num_reads <= 1
}

proof fn lemma_width(plan: Seq<IRModel>, nodes: Set<Node>, upto: nat)
    ensures
        width(plan, nodes, upto) <= num_inputs(plan, upto),
        width(plan, Set::full(), upto) == num_inputs(plan, upto),
    decreases upto,
{
    if upto > 0 {
        lemma_width(plan, nodes, (upto - 1) as nat);
    }
}

/// Whatever is listed is among `nodes`.
proof fn lemma_among(
    plan: Seq<IRModel>,
    roots: Seq<Node>,
    nodes: Set<Node>,
    rank: spec_fn(Node) -> nat,
    p: int,
)
    requires
        plan.len() <= usize::MAX,
        layered(plan, roots, nodes, rank),
        led(web_of(plan, roots)),
        web_of(plan, roots).inside(),
        0 <= p < listing(web_of(plan, roots)).len(),
    ensures
        nodes.contains(listing(web_of(plan, roots))[p]),
    decreases p,
{
    let web = web_of(plan, roots);
    let list = listing(web);
    lemma_woven(plan, roots);
    lemma_listing(web);
    if p < roots.len() {
        assert(list.take(roots.len() as int)[p] == list[p]);
    } else {
        let q = p - roots.len();
        let step = hops(web, list, list.len())[q];
        lemma_hop_from(web, list, list.len(), q);
        assert(list[roots.len() + q] == hop_input(web, list, step));
        lemma_among(plan, roots, nodes, rank, step.consumer_at);
        let reader = list[step.consumer_at];
        assert(nodes.contains(plan[reader as int].inputs()[step.slot]));
    }
}

/// The nodes whose inputs are followed are `nodes`, and each of them stands for itself.
proof fn lemma_opened(
    plan: Seq<IRModel>,
    roots: Seq<Node>,
    nodes: Set<Node>,
    rank: spec_fn(Node) -> nat,
)
    requires
        plan.len() <= usize::MAX,
        layered(plan, roots, nodes, rank),
        ids_differ(plan, nodes),
        forall|n: Node| #[trigger] nodes.contains(n) ==> is_needed(plan, roots, nodes, n),
        led(web_of(plan, roots)),
        web_of(plan, roots).inside(),
        web_of(plan, roots).acyclic(),
    ensures
        web_of(plan, roots).opened == nodes,
        forall|n: Node| #[trigger] nodes.contains(n) ==> web_of(plan, roots).head(n) == n,
{
    let web = web_of(plan, roots);
    let list = listing(web);
    lemma_woven(plan, roots);
    lemma_listing(web);
    lemma_complete(web);
    assert forall|n: Node| #[trigger] web.opened.contains(n) implies nodes.contains(n) by {
        let p = lemma_done_at(web, list, list.len(), n);
        lemma_among(plan, roots, nodes, rank, p);
    }
    assert forall|n: Node| #[trigger] nodes.contains(n) implies web.head(n) == n by {
        if let Plan::Cache { id, .. } = plan[n as int] {
            if web.leads.contains_key(id) {
                assert(nodes.contains(web.leads[id]));
            }
        }
    }
    assert forall|n: Node| #[trigger] nodes.contains(n) implies web.opened.contains(n) by {
        lemma_needed_opened(plan, roots, nodes, rank, n);
    }
    assert(web.opened =~= nodes);
}

proof fn lemma_needed_opened(
    plan: Seq<IRModel>,
    roots: Seq<Node>,
    nodes: Set<Node>,
    rank: spec_fn(Node) -> nat,
    n: Node,
)
    requires
        plan.len() <= usize::MAX,
        layered(plan, roots, nodes, rank),
        forall|n: Node| #[trigger] nodes.contains(n) ==> is_needed(plan, roots, nodes, n),
        forall|n: Node| #[trigger] nodes.contains(n) ==> web_of(plan, roots).head(n) == n,
        nodes.contains(n),
    ensures
        web_of(plan, roots).opened.contains(n),
    decreases plan.len() - rank(n),
{
    let web = web_of(plan, roots);
    lemma_woven(plan, roots);
    assert(is_needed(plan, roots, nodes, n));
    if roots.contains(n) {
        let i = choose|i: int| 0 <= i < roots.len() && roots[i] == n;
        assert(web.opened.contains(web.head(web.roots[i])));
    } else {
        let reader = choose|reader: Node| #[trigger]
            nodes.contains(reader) && plan[reader as int].inputs().contains(n);
        let inputs = plan[reader as int].inputs();
        let j = choose|j: int| 0 <= j < inputs.len() && inputs[j] == n;
        assert(rank(plan[reader as int].inputs()[j]) < rank(reader));
        lemma_needed_opened(plan, roots, nodes, rank, reader);
        assert(web.opened.contains(web.head(web.plan[reader as int].inputs()[j])));
    }
}

/// A node that stands for itself alone is hit wherever it occurs.
proof fn lemma_hits_count(web: Web, list: Seq<Node>, node: Node)
    requires
        forall|n: Node| #[trigger] web.head(n) == node <==> n == node,
    ensures
        web.hits(list, node) == list.to_multiset().count(node),
    decreases list.len(),
{
    list.to_multiset_ensures();
    if list.len() > 0 {
        let rest = list.drop_last();
        lemma_hits_count(web, rest, node);
        rest.to_multiset_ensures();
        assert(list =~= rest.push(list.last()));
        assert(web.head(list.last()) == node <==> list.last() == node);
    }
}

proof fn lemma_reads_count(web: Web, nodes: Set<Node>, node: Node, upto: nat)
    requires
        forall|n: Node| #[trigger] web.head(n) == node <==> n == node,
    ensures
        web.reads(nodes, node, upto) == num_reads(web.plan, nodes, node, upto),
    decreases upto,
{
    if upto > 0 {
        lemma_reads_count(web, nodes, node, (upto - 1) as nat);
        lemma_hits_count(web, web.plan[upto - 1].inputs(), node);
    }
}

/// The nodes that are the last ones on `list` with their results.
pub open spec fn followed(plan: Seq<IRModel>, list: Seq<Node>) -> Set<Node> {
    Set::new(
        |n: Node|
            exists|p: int| 0 <= p < list.len() && #[trigger] list[p] == n && is_last(plan, list, p),
    )
}

proof fn lemma_followed(plan: Seq<IRModel>, roots: Seq<Node>)
    requires
        ends(plan, roots),
        led(web_of(plan, roots)),
    ensures
        web_of(plan, roots).opened == followed(plan, traversal(plan, roots)),
{
    let web = web_of(plan, roots);
    let list = traversal(plan, roots);
    lemma_woven(plan, roots);
    lemma_listing(web);
    lemma_complete(web);
    assert forall|n: Node| web.opened.contains(n) <==> #[trigger] followed(plan, list).contains(
        n,
    ) by {
        if web.opened.contains(n) {
            let p = lemma_done_at(web, list, list.len(), n);
            lemma_goes_on(plan, roots, p);
            assert(list[p] == n);
        }
        if followed(plan, list).contains(n) {
            let p = choose|p: int|
                0 <= p < list.len() && #[trigger] list[p] == n && is_last(plan, list, p);
            lemma_goes_on(plan, roots, p);
            assert(web.opened.contains(web.head(list[p])));
        }
    }
    assert(web.opened =~= followed(plan, list));
}

/// A plan of moderate size whose nodes lie in layers has a list of nodes that unfolds it. It can be
/// simplified exactly if each node that is followed is used as its kind asks for, by the roots and
/// by the nodes that are followed.
pub proof fn law_admitted(
    plan: Seq<IRModel>,
    roots: Seq<Node>,
    nodes: Set<Node>,
    rank: spec_fn(Node) -> nat,
)
    requires
        plan.len() <= usize::MAX,
        roots.len() + num_inputs(plan, plan.len()) < isize::MAX as int / 16,
        num_inputs(plan, plan.len()) < u32::MAX,
        layered(plan, roots, nodes, rank),
    ensures
        ({
            let list = traversal(plan, roots);
            let within = followed(plan, list);
            &&& list == roots + unfolded(plan, list, list.len())
            &&& simplifiable(plan, roots) <==> forall|n: Node| #[trigger]
                within.contains(n) ==> is_used_well(
                    plan[n as int],
                    plan[n as int].inputs().len(),
                    num_reads(plan, within, n, plan.len()),
                    roots.to_multiset().count(n),
                )
        }),
{
    let web = web_of(plan, roots);
    let within = followed(plan, traversal(plan, roots));
    lemma_width(plan, web.opened, plan.len());
    law_leaders_settle(plan, roots, nodes, rank);
    law_list_unfolds(plan, roots);
    lemma_followed(plan, roots);
    lemma_woven(plan, roots);
    assert forall|n: Node| within.contains(n) && !(plan[n as int] is Cache) implies #[trigger]
    web.uses(n) == roots.to_multiset().count(n) + num_reads(plan, within, n, plan.len())
        && web.consumers(n) == num_reads(plan, within, n, plan.len()) by {
        assert forall|m: Node| #[trigger] web.head(m) == n <==> m == n by {
            if let Plan::Cache { id, .. } = plan[m as int] {
                if web.leads.contains_key(id) {
                    assert(web.opened.contains(web.leads[id]));
                }
            }
        }
        lemma_reads_count(web, within, n, plan.len());
        lemma_hits_count(web, roots, n);
    }
    assert forall|n: Node| #[trigger] within.contains(n) implies (is_used_well(
        plan[n as int],
        plan[n as int].inputs().len(),
        num_reads(plan, within, n, plan.len()),
        roots.to_multiset().count(n),
    ) <==> {
        let ir = plan[n as int];
        &&& arity_fits(ir, ir.inputs().len(), web.consumers(n))
        &&& !(ir is Cache) && ir.inputs().len() > 0 ==> web.uses(n) <= 1
    }) by {
        if !(plan[n as int] is Cache) {
            assert(web.uses(n) == roots.to_multiset().count(n) + web.consumers(n));
        }
    }
}

/// Where each cache id is at one node, all nodes below the roots are followed. So a plan of
/// moderate size can then be simplified exactly if each of its nodes is used as its kind asks for.
pub proof fn law_admitted_without_copies(
    plan: Seq<IRModel>,
    roots: Seq<Node>,
    nodes: Set<Node>,
    rank: spec_fn(Node) -> nat,
)
    requires
        plan.len() <= usize::MAX,
        roots.len() + num_inputs(plan, plan.len()) < isize::MAX as int / 16,
        num_inputs(plan, plan.len()) < u32::MAX,
        layered(plan, roots, nodes, rank),
        ids_differ(plan, nodes),
        forall|n: Node| #[trigger] nodes.contains(n) ==> is_needed(plan, roots, nodes, n),
    ensures
        simplifiable(plan, roots) <==> forall|n: Node| #[trigger]
            nodes.contains(n) ==> is_used_well(
                plan[n as int],
                plan[n as int].inputs().len(),
                num_reads(plan, nodes, n, plan.len()),
                roots.to_multiset().count(n),
            ),
{
    lemma_width(plan, nodes, plan.len());
    law_leaders_settle(plan, roots, nodes, rank);
    lemma_followed(plan, roots);
    lemma_opened(plan, roots, nodes, rank);
    law_admitted(plan, roots, nodes, rank);
}

} // verus!
