//! Cache ids come to be led by the nodes that are listed last.

use crate::arena::Node;
use crate::ir::{IRModel, Plan};
use crate::ir_graph::{lemma_listed, lemma_step_at};
use crate::traversal::{
    caches, complete, expands, head_of, hops, is_known, is_met, is_origin, last_at, last_of, lasts,
    led, lemma_acyclic, lemma_complete, lemma_expands_once, lemma_last_at, lemma_lasts,
    lemma_listing, lemma_reads_mono, lemma_web_with, listable, listing, settled, survey, web_of,
    web_with, well_led, width, with_opened, woven, Found, Web,
};
use crate::wiring::lemma_hop_from;
use vstd::prelude::*;

verus! {

/// `nodes` holds the roots and with each node its inputs, and no node lies below itself, where
/// cache nodes with one id count as one: `rank` falls from each node to its inputs, and is the same
/// for all cache nodes with one id.
pub open spec fn layered(
    plan: Seq<IRModel>,
    roots: Seq<Node>,
    nodes: Set<Node>,
    rank: spec_fn(Node) -> nat,
) -> bool {
    &&& forall|i: int| 0 <= i < roots.len() ==> nodes.contains(#[trigger] roots[i])
    &&& forall|n: Node| #[trigger] nodes.contains(n) ==> n < plan.len() && rank(n) < plan.len()
    &&& forall|n: Node, j: int|
        nodes.contains(n) && 0 <= j < plan[n as int].inputs().len() ==> nodes.contains(
            #[trigger] plan[n as int].inputs()[j],
        ) && rank(plan[n as int].inputs()[j]) < rank(n)
    &&& forall|a: Node, b: Node, id: u128|
        nodes.contains(a) && nodes.contains(b) && #[trigger] caches(plan[a as int], id)
            && #[trigger] caches(plan[b as int], id) ==> rank(a) == rank(b)
}

////////////////////////////////////////////////////////////////////////////////////////////////
// Searches
////////////////////////////////////////////////////////////////////////////////////////////////

/// What a search has found lies among `nodes`, and the ids for which there are picks are led by
/// them.
spec fn picked(picks: Map<u128, Node>, nodes: Set<Node>, found: Found) -> bool {
    &&& found.opened.subset_of(nodes)
    &&& forall|id: u128| #[trigger]
        found.leads.contains_key(id) && picks.contains_key(id) ==> found.leads[id] == picks[id]
}

proof fn lemma_survey_picked(
    plan: Seq<IRModel>,
    roots: Seq<Node>,
    nodes: Set<Node>,
    rank: spec_fn(Node) -> nat,
    picks: Map<u128, Node>,
    stack: Seq<Node>,
    found: Found,
    fuel: nat,
)
    requires
        layered(plan, roots, nodes, rank),
        well_led(plan, picks),
        forall|id: u128| #[trigger] picks.contains_key(id) ==> nodes.contains(picks[id]),
        forall|i: int| 0 <= i < stack.len() ==> nodes.contains(#[trigger] stack[i]),
        picked(picks, nodes, found),
    ensures
        picked(picks, nodes, survey(plan, picks, stack, found, fuel)),
    decreases fuel,
{
    if fuel > 0 && stack.len() > 0 {
        let node = stack[stack.len() - 1];
        let rest = stack.drop_last();
        if node >= plan.len() || is_known(plan, found, node) {
            lemma_survey_picked(
                plan,
                roots,
                nodes,
                rank,
                picks,
                rest,
                found,
                (fuel - 1) as nat,
            );
        } else {
            let lead = head_of(plan, picks, node);
            let next = with_opened(plan, found, lead);
            let inputs = plan[lead as int].inputs();
            let more = rest + inputs;
            if let Plan::Cache { id, .. } = plan[node as int] {
                if picks.contains_key(id) {
                    assert(caches(plan[picks[id] as int], id));
                }
            }
            assert(nodes.contains(lead));
            assert forall|i: int| 0 <= i < more.len() implies nodes.contains(
                #[trigger] more[i],
            ) by {
                if i < rest.len() {
                    assert(more[i] == stack[i]);
                } else {
                    assert(more[i] == plan[lead as int].inputs()[i - rest.len()]);
                }
            }
            lemma_survey_picked(
                plan,
                roots,
                nodes,
                rank,
                picks,
                more,
                next,
                (fuel - 1) as nat,
            );
        }
    }
}

/// A web that lies among `nodes`.
spec fn sound(web: Web, nodes: Set<Node>, rank: spec_fn(Node) -> nat) -> bool {
    &&& layered(web.plan, web.roots, nodes, rank)
    &&& woven(web)
    &&& web.inside()
    &&& complete(web)
    &&& web.opened.subset_of(nodes)
}

/// The roots and all inputs together can be listed.
pub open spec fn is_modest(plan: Seq<IRModel>, roots: Seq<Node>) -> bool {
    plan.len() <= usize::MAX && roots.len() + width(plan, Set::full(), plan.len())
        < isize::MAX as int / 16
}

/// The node that stands for a node has its rank.
proof fn lemma_head_rank(web: Web, nodes: Set<Node>, rank: spec_fn(Node) -> nat, node: Node)
    requires
        layered(web.plan, web.roots, nodes, rank),
        woven(web),
        web.opened.subset_of(nodes),
        nodes.contains(node),
    ensures
        rank(web.head(node)) == rank(node),
{
    if let Plan::Cache { id, .. } = web.plan[node as int] {
        if web.leads.contains_key(id) {
            assert(web.opened.contains(web.leads[id]));
            assert(caches(web.plan[web.leads[id] as int], id));
            assert(caches(web.plan[node as int], id));
        }
    }
}

proof fn lemma_sound(
    plan: Seq<IRModel>,
    roots: Seq<Node>,
    nodes: Set<Node>,
    rank: spec_fn(Node) -> nat,
    picks: Map<u128, Node>,
)
    requires
        layered(plan, roots, nodes, rank),
        is_modest(plan, roots),
        well_led(plan, picks),
        forall|id: u128| #[trigger] picks.contains_key(id) ==> nodes.contains(picks[id]),
    ensures
        sound(web_with(plan, roots, picks), nodes, rank),
        listable(web_with(plan, roots, picks)),
        forall|id: u128| #[trigger]
            web_with(plan, roots, picks).leads.contains_key(id) && picks.contains_key(id)
                ==> web_with(plan, roots, picks).leads[id] == picks[id],
{
    let web = web_with(plan, roots, picks);
    let none = Found { leads: Map::empty(), opened: Set::empty() };
    lemma_web_with(plan, roots, picks);
    lemma_survey_picked(
        plan,
        roots,
        nodes,
        rank,
        picks,
        roots,
        none,
        roots.len() + width(plan, Set::full(), plan.len()),
    );
    assert(web.inside());
    assert(web.falls(rank)) by {
        assert forall|node: Node, j: int|
            web.opened.contains(node) && 0 <= j < plan[node as int].inputs().len() implies rank(
            web.head(#[trigger] plan[node as int].inputs()[j]),
        ) < rank(node) by {
            lemma_head_rank(web, nodes, rank, plan[node as int].inputs()[j]);
        }
    }
    lemma_complete(web);
    lemma_reads_mono(web, web.opened, Set::full(), 0, plan.len());
}

/// What is listed lies among `nodes`.
proof fn lemma_listed_among(web: Web, nodes: Set<Node>, rank: spec_fn(Node) -> nat, p: int)
    requires
        sound(web, nodes, rank),
        0 <= p < listing(web).len(),
    ensures
        nodes.contains(listing(web)[p]),
        web.opened.contains(web.head(listing(web)[p])),
        rank(web.head(listing(web)[p])) == rank(listing(web)[p]),
{
    let list = listing(web);
    lemma_listing(web);
    assert(web.opened.contains(web.head(list[p])));
    if p < web.roots.len() {
        assert(web.roots[p] == list[p]);
    } else {
        let step = hops(web, list, list.len())[p - web.roots.len()];
        assert(web.opened.contains(web.head(list[step.consumer_at])));
        let reader = web.head(list[step.consumer_at]);
        assert(web.plan[reader as int].inputs()[step.slot] == list[p]);
    }
    lemma_head_rank(web, nodes, rank, list[p]);
}

////////////////////////////////////////////////////////////////////////////////////////////////
// Places on the list
////////////////////////////////////////////////////////////////////////////////////////////////

/// The way from a root to the position `p` of the list: which root, and then which inputs.
spec fn way(web: Web, p: int) -> Seq<int>
    decreases p,
{
    let step = hops(web, listing(web), listing(web).len())[p - web.roots.len()];
    if p < web.roots.len() || !(0 <= step.consumer_at < p) {
        seq![p]
    } else {
        way(web, step.consumer_at).push(step.slot)
    }
}

/// Short ways come before long ones, and among ways of one length the first difference decides.
spec fn comes_before(a: Seq<int>, b: Seq<int>) -> bool
    decreases a.len(),
{
    if a.len() != b.len() {
        a.len() < b.len()
    } else if a.len() == 0 {
        false
    } else if a.drop_last() == b.drop_last() {
        a.last() < b.last()
    } else {
        comes_before(a.drop_last(), b.drop_last())
    }
}

proof fn lemma_comes_before(a: Seq<int>, b: Seq<int>)
    requires
        comes_before(a, b),
    ensures
        a != b,
        !comes_before(b, a),
    decreases a.len(),
{
    if a.len() == b.len() && a.drop_last() != b.drop_last() {
        lemma_comes_before(a.drop_last(), b.drop_last());
    }
}

proof fn lemma_hops_sorted(web: Web, list: Seq<Node>, upto: nat, a: int, b: int)
    requires
        0 <= a < b < hops(web, list, upto).len(),
    ensures
        ({
            let s = hops(web, list, upto)[a];
            let t = hops(web, list, upto)[b];
            s.consumer_at < t.consumer_at || (s.consumer_at == t.consumer_at && s.slot < t.slot)
        }),
    decreases upto,
{
    let before = hops(web, list, (upto - 1) as nat);
    if b < before.len() {
        lemma_hops_sorted(web, list, (upto - 1) as nat, a, b);
        assert(hops(web, list, upto)[a] == before[a]);
        assert(hops(web, list, upto)[b] == before[b]);
    } else if a < before.len() {
        lemma_hop_from(web, list, (upto - 1) as nat, a);
        assert(hops(web, list, upto)[a] == before[a]);
    }
}

/// The list is sorted by the ways to its positions.
proof fn lemma_ways_sorted(web: Web, p: int, q: int)
    requires
        woven(web),
        web.inside(),
        0 <= p < q < listing(web).len(),
    ensures
        comes_before(way(web, p), way(web, q)),
    decreases q,
{
    let list = listing(web);
    let steps = hops(web, list, list.len());
    let len = web.roots.len() as int;
    lemma_listing(web);
    if q < len {
        assert(way(web, p).drop_last() =~= way(web, q).drop_last());
    } else {
        let t = steps[q - len];
        assert(0 <= t.consumer_at < q);
        let b = way(web, t.consumer_at);
        assert(way(web, q) == b.push(t.slot));
        assert(b.len() > 0);
        if p >= len {
            let s = steps[p - len];
            assert(0 <= s.consumer_at < p);
            let a = way(web, s.consumer_at);
            assert(way(web, p) == a.push(s.slot));
            assert(a.push(s.slot).drop_last() =~= a);
            assert(b.push(t.slot).drop_last() =~= b);
            lemma_hops_sorted(web, list, list.len(), p - len, q - len);
            if s.consumer_at < t.consumer_at {
                lemma_ways_sorted(web, s.consumer_at, t.consumer_at);
                lemma_comes_before(a, b);
            }
        }
    }
}

////////////////////////////////////////////////////////////////////////////////////////////////
// Webs that agree
////////////////////////////////////////////////////////////////////////////////////////////////

/// Both webs open the same nodes, as far as these have at least rank `least`.
spec fn agree(one: Web, other: Web, rank: spec_fn(Node) -> nat, least: nat) -> bool {
    &&& other.plan == one.plan
    &&& other.roots == one.roots
    &&& forall|node: Node|
        rank(node) >= least ==> (#[trigger] one.opened.contains(node) <==> other.opened.contains(
            node,
        ))
}

/// Nodes for which one node stands in one web have one node that stands for them in the other too.
proof fn lemma_same_class(one: Web, other: Web, a: Node, b: Node)
    requires
        woven(one),
        woven(other),
        other.plan == one.plan,
        one.opened.contains(one.head(a)),
        one.head(a) == one.head(b),
        other.opened.contains(other.head(b)),
    ensures
        other.head(a) == other.head(b),
{
    let head = one.head(a);
    assert(one.opened.contains(head));
    assert(other.opened.contains(other.head(b)));
    if let Plan::Cache { id, .. } = one.plan[a as int] {
        if one.leads.contains_key(id) {
            assert(caches(one.plan[one.leads[id] as int], id));
        } else {
            assert(head == a);
        }
    }
    if let Plan::Cache { id, .. } = one.plan[b as int] {
        if one.leads.contains_key(id) {
            assert(caches(one.plan[one.leads[id] as int], id));
        } else {
            assert(head == b);
        }
    }
}

/// Webs that agree have the same nodes stand for nodes of higher rank.
proof fn lemma_agreed_head(
    one: Web,
    other: Web,
    nodes: Set<Node>,
    rank: spec_fn(Node) -> nat,
    least: nat,
    node: Node,
)
    requires
        sound(one, nodes, rank),
        sound(other, nodes, rank),
        agree(one, other, rank, least),
        nodes.contains(node),
        rank(node) >= least,
        one.opened.contains(one.head(node)),
    ensures
        other.head(node) == one.head(node),
{
    lemma_head_rank(one, nodes, rank, node);
    let head = one.head(node);
    assert(other.opened.contains(head));
    if let Plan::Cache { id, .. } = one.plan[node as int] {
        if one.leads.contains_key(id) {
            assert(caches(one.plan[one.leads[id] as int], id));
        } else {
            assert(head == node);
        }
    }
}

proof fn lemma_root_at(web: Web, p: int)
    requires
        woven(web),
        web.inside(),
        0 <= p < web.roots.len(),
    ensures
        p < listing(web).len(),
        listing(web)[p] == web.roots[p],
        way(web, p) == seq![p],
{
    lemma_listing(web);
    assert(web.roots[p] == listing(web).take(web.roots.len() as int)[p]);
}

/// Where the way to a position comes from.
proof fn lemma_way_back(web: Web, p: int) -> (from: (int, int))
    requires
        woven(web),
        web.inside(),
        complete(web),
        web.roots.len() <= p < listing(web).len(),
    ensures
        ({
            let (at, slot) = from;
            let head = web.head(listing(web)[at]);
            &&& 0 <= at < p
            &&& web.opened.contains(head)
            &&& at == last_at(web, head)
            &&& 0 <= slot < web.plan[head as int].inputs().len()
            &&& web.plan[head as int].inputs()[slot] == listing(web)[p]
            &&& way(web, p) == way(web, at).push(slot)
        }),
{
    let list = listing(web);
    let step = hops(web, list, list.len())[p - web.roots.len()];
    let at = step.consumer_at;
    lemma_listing(web);
    lemma_hop_from(web, list, list.len(), p - web.roots.len());
    let head = web.head(list[at]);
    assert(web.opened.contains(web.head(list[at])));
    lemma_last_at(web, head, at);
    if at < last_at(web, head) {
        lemma_expands_once(web, list, at, last_at(web, head));
    }
    (at, step.slot)
}

/// Where the way goes on to an input of a node.
proof fn lemma_way_on(web: Web, head: Node, slot: int) -> (q: int)
    requires
        woven(web),
        web.inside(),
        complete(web),
        web.opened.contains(head),
        0 <= slot < web.plan[head as int].inputs().len(),
    ensures
        0 <= q < listing(web).len(),
        listing(web)[q] == web.plan[head as int].inputs()[slot],
        way(web, q) == way(web, last_at(web, head)).push(slot),
{
    lemma_listing(web);
    lemma_last_at(web, head, 0);
    let last = last_at(web, head);
    lemma_step_at(web, last, slot);
    web.roots.len() + hops(web, listing(web), last as nat).len() + slot
}

/// What one web lists, a web that agrees lists in a place to which the same way leads.
proof fn lemma_same_entry(
    one: Web,
    other: Web,
    nodes: Set<Node>,
    rank: spec_fn(Node) -> nat,
    least: nat,
    p: int,
) -> (q: int)
    requires
        sound(one, nodes, rank),
        sound(other, nodes, rank),
        agree(one, other, rank, least),
        0 <= p < listing(one).len(),
        rank(listing(one)[p]) + 1 >= least,
    ensures
        0 <= q < listing(other).len(),
        listing(other)[q] == listing(one)[p],
        way(other, q) == way(one, p),
    decreases one.plan.len() - rank(listing(one)[p]), 0int,
{
    if p < one.roots.len() {
        lemma_root_at(one, p);
        lemma_root_at(other, p);
        p
    } else {
        let (at, slot) = lemma_way_back(one, p);
        let reader = listing(one)[at];
        lemma_listed_among(one, nodes, rank, at);
        assert(nodes.contains(one.head(reader)));
        assert(rank(one.plan[one.head(reader) as int].inputs()[slot]) < rank(one.head(reader)));
        lemma_agreed_head(one, other, nodes, rank, least, reader);
        lemma_same_last(one, other, nodes, rank, least, at);
        lemma_way_on(other, one.head(reader), slot)
    }
}

/// The node that is listed last for a result is the same in webs that agree, and the same way leads
/// to it.
proof fn lemma_same_last(
    one: Web,
    other: Web,
    nodes: Set<Node>,
    rank: spec_fn(Node) -> nat,
    least: nat,
    p: int,
)
    requires
        sound(one, nodes, rank),
        sound(other, nodes, rank),
        agree(one, other, rank, least),
        0 <= p < listing(one).len(),
        rank(listing(one)[p]) + 1 >= least,
    ensures
        ({
            let node = listing(one)[p];
            let a = last_at(one, one.head(node));
            let b = last_at(other, other.head(node));
            &&& listing(other).contains(node)
            &&& other.opened.contains(other.head(node))
            &&& listing(one)[a] == listing(other)[b]
            &&& way(one, a) == way(other, b)
        }),
    decreases one.plan.len() - rank(listing(one)[p]), 1int,
{
    let node = listing(one)[p];
    let h = one.head(node);
    lemma_listed_among(one, nodes, rank, p);
    lemma_last_at(one, h, p);
    let a = last_at(one, h);
    lemma_listed_among(one, nodes, rank, a);
    let a2 = lemma_same_entry(one, other, nodes, rank, least, a);
    lemma_listed_among(other, nodes, rank, a2);
    lemma_same_class(one, other, node, listing(one)[a]);
    let g = other.head(node);
    lemma_last_at(other, g, a2);
    let b = last_at(other, g);
    lemma_listed_among(other, nodes, rank, b);
    assert(agree(other, one, rank, least));
    let b2 = lemma_same_entry(other, one, nodes, rank, least, b);
    lemma_same_class(other, one, listing(other)[b], listing(other)[a2]);
    lemma_last_at(one, h, b2);
    if b2 < a {
        lemma_ways_sorted(one, b2, a);
        lemma_comes_before(way(one, b2), way(one, a));
        if a2 < b {
            lemma_ways_sorted(other, a2, b);
        }
    }
    let q = lemma_same_entry(one, other, nodes, rank, least, p);
    assert(listing(other)[q] == node);
}

/// The node that is listed last, where the list is complete.
proof fn lemma_last_is(web: Web, head: Node)
    requires
        woven(web),
        web.inside(),
        complete(web),
        web.opened.contains(head),
    ensures
        last_of(web, listing(web), listing(web).len(), head) == listing(web)[last_at(web, head)],
{
    let list = listing(web);
    lemma_last_at(web, head, 0);
    assert forall|r: int| last_at(web, head) < r < list.len() implies web.head(#[trigger] list[r])
        != head by {
        lemma_last_at(web, head, r);
    }
    lemma_of_last(web, list, list.len(), last_at(web, head));
}

proof fn lemma_of_last(web: Web, list: Seq<Node>, upto: nat, p: int)
    requires
        0 <= p < upto,
        forall|r: int| p < r < upto ==> web.head(#[trigger] list[r]) != web.head(list[p]),
    ensures
        last_of(web, list, upto, web.head(list[p])) == list[p],
    decreases upto,
{
    if p < upto - 1 {
        assert(web.head(list[upto - 1]) != web.head(list[p]));
        lemma_of_last(web, list, (upto - 1) as nat, p);
    }
}

/// In `web` the nodes that `before` lists last lead, as far as they are met.
spec fn follows(before: Web, web: Web) -> bool {
    forall|id: u128| #[trigger]
        web.leads.contains_key(id) && before.leads.contains_key(id) ==> web.leads[id] == lasts(
            before,
        )[id]
}

/// The webs of three rounds in turn, of which the first two agree.
spec fn in_turn(
    before: Web,
    one: Web,
    other: Web,
    nodes: Set<Node>,
    rank: spec_fn(Node) -> nat,
    least: nat,
) -> bool {
    &&& sound(before, nodes, rank)
    &&& sound(one, nodes, rank)
    &&& sound(other, nodes, rank)
    &&& agree(before, one, rank, least)
    &&& other.plan == one.plan
    &&& other.roots == one.roots
    &&& follows(before, one)
    &&& follows(one, other)
}

/// What one of two webs opens, the next opens too, as far as it has nearly the rank down to which
/// the web before agrees.
proof fn lemma_next_opens(
    before: Web,
    one: Web,
    other: Web,
    nodes: Set<Node>,
    rank: spec_fn(Node) -> nat,
    least: nat,
    node: Node,
)
    requires
        in_turn(before, one, other, nodes, rank, least),
        rank(node) + 1 >= least,
    ensures
        one.opened.contains(node) <==> other.opened.contains(node),
    decreases one.plan.len() - rank(node), 1int,
{
    if one.opened.contains(node) {
        let used = lemma_use(one, nodes, rank, node);
        lemma_origin_kept(before, one, other, nodes, rank, least, one, other, used);
        lemma_next_head(before, one, other, nodes, rank, least, used);
    }
    if other.opened.contains(node) {
        let used = lemma_use(other, nodes, rank, node);
        lemma_origin_kept(before, one, other, nodes, rank, least, other, one, used);
        lemma_next_head(before, one, other, nodes, rank, least, used);
    }
}

/// A node that is opened stands for some use.
proof fn lemma_use(web: Web, nodes: Set<Node>, rank: spec_fn(Node) -> nat, node: Node) -> (used:
    Node)
    requires
        sound(web, nodes, rank),
        web.opened.contains(node),
    ensures
        is_origin(web.plan, web.roots, web.opened, used),
        web.head(used) == node,
        nodes.contains(used),
        rank(used) == rank(node),
{
    let found = Found { leads: web.leads, opened: web.opened };
    assert(is_met(web.plan, web.roots, found, node));
    let used = choose|used: Node| #[trigger]
        is_origin(web.plan, web.roots, found.opened, used) && used < web.plan.len() && head_of(
            web.plan,
            found.leads,
            used,
        ) == node;
    if web.roots.contains(used) {
        let i = choose|i: int| 0 <= i < web.roots.len() && web.roots[i] == used;
        assert(nodes.contains(web.roots[i]));
    } else {
        let reader = choose|reader: Node| #[trigger]
            web.opened.contains(reader) && web.plan[reader as int].inputs().contains(used);
        let j = choose|j: int|
            0 <= j < web.plan[reader as int].inputs().len() && web.plan[reader as int].inputs()[j]
                == used;
        assert(nodes.contains(web.plan[reader as int].inputs()[j]));
    }
    lemma_head_rank(web, nodes, rank, used);
    used
}

/// A use in one of two webs, `from`, is one in the other, `to`.
proof fn lemma_origin_kept(
    before: Web,
    one: Web,
    other: Web,
    nodes: Set<Node>,
    rank: spec_fn(Node) -> nat,
    least: nat,
    from: Web,
    to: Web,
    used: Node,
)
    requires
        in_turn(before, one, other, nodes, rank, least),
        from == one && to == other || from == other && to == one,
        is_origin(from.plan, from.roots, from.opened, used),
        nodes.contains(used),
        rank(used) + 1 >= least,
    ensures
        is_origin(to.plan, to.roots, to.opened, used),
        to.opened.contains(to.head(used)),
    decreases one.plan.len() - rank(used), 0int,
{
    if from.roots.contains(used) {
        let i = choose|i: int| 0 <= i < to.roots.len() && to.roots[i] == used;
        assert(to.opened.contains(to.head(to.roots[i])));
    } else {
        let reader = choose|reader: Node| #[trigger]
            from.opened.contains(reader) && from.plan[reader as int].inputs().contains(used);
        let inputs = from.plan[reader as int].inputs();
        let j = choose|j: int| 0 <= j < inputs.len() && inputs[j] == used;
        assert(rank(from.plan[reader as int].inputs()[j]) < rank(reader));
        lemma_next_opens(before, one, other, nodes, rank, least, reader);
        assert(to.opened.contains(reader));
        assert(to.opened.contains(to.head(to.plan[reader as int].inputs()[j])));
    }
}

/// Both webs have the same node stand for a use that they share.
proof fn lemma_next_head(
    before: Web,
    one: Web,
    other: Web,
    nodes: Set<Node>,
    rank: spec_fn(Node) -> nat,
    least: nat,
    used: Node,
)
    requires
        in_turn(before, one, other, nodes, rank, least),
        is_origin(one.plan, one.roots, one.opened, used),
        one.opened.contains(one.head(used)),
        other.opened.contains(other.head(used)),
        nodes.contains(used),
        rank(used) + 1 >= least,
    ensures
        other.head(used) == one.head(used),
{
    if let Plan::Cache { id, .. } = one.plan[used as int] {
        lemma_listed(one, used);
        let p = choose|p: int| 0 <= p < listing(one).len() && listing(one)[p] == used;
        assert(agree(one, before, rank, least));
        lemma_same_last(one, before, nodes, rank, least, p);
        assert(before.opened.contains(before.head(used)));
        lemma_has_lead(before, used, id);
        lemma_has_lead(one, used, id);
        lemma_has_lead(other, used, id);
        lemma_last_is(before, before.leads[id]);
        lemma_last_is(one, one.leads[id]);
        assert(lasts(before)[id] == lasts(one)[id]);
    }
}

/// The id of a cache that is met is led.
proof fn lemma_has_lead(web: Web, node: Node, id: u128)
    requires
        woven(web),
        caches(web.plan[node as int], id),
        web.opened.contains(web.head(node)),
    ensures
        web.leads.contains_key(id),
        web.head(node) == web.leads[id],
        web.opened.contains(web.leads[id]),
{
    if !web.leads.contains_key(id) {
        assert(web.head(node) == node);
    }
}

////////////////////////////////////////////////////////////////////////////////////////////////
// Rounds
////////////////////////////////////////////////////////////////////////////////////////////////

proof fn lemma_lasts_among(web: Web, nodes: Set<Node>, rank: spec_fn(Node) -> nat)
    requires
        sound(web, nodes, rank),
    ensures
        well_led(web.plan, lasts(web)),
        forall|id: u128| #[trigger] lasts(web).contains_key(id) ==> nodes.contains(lasts(web)[id]),
{
    lemma_lasts(web);
    assert forall|id: u128| #[trigger] lasts(web).contains_key(id) implies nodes.contains(
        lasts(web)[id],
    ) by {
        assert(web.opened.contains(web.leads[id]));
        lemma_last_is(web, web.leads[id]);
        lemma_last_at(web, web.leads[id], 0);
        lemma_listed_among(web, nodes, rank, last_at(web, web.leads[id]));
    }
}

/// A web that its own last nodes lead is led.
proof fn lemma_led(web: Web)
    requires
        woven(web),
        web.inside(),
        complete(web),
        forall|id: u128| #[trigger]
            web.leads.contains_key(id) ==> web.leads[id] == lasts(web)[id],
    ensures
        led(web),
{
    let list = listing(web);
    lemma_listing(web);
    assert forall|p: int| 0 <= p < list.len() && #[trigger] expands(web, list, p) implies web.head(
        list[p],
    ) == list[p] by {
        let head = web.head(list[p]);
        assert(web.opened.contains(web.head(list[p])));
        lemma_last_at(web, head, p);
        if p < last_at(web, head) {
            lemma_expands_once(web, list, p, last_at(web, head));
        }
        lemma_last_is(web, head);
        if let Plan::Cache { id, .. } = web.plan[list[p] as int] {
            lemma_has_lead(web, list[p], id);
        }
    }
}

/// Each further round settles the leaders down to a lower rank.
proof fn lemma_rounds(
    plan: Seq<IRModel>,
    roots: Seq<Node>,
    nodes: Set<Node>,
    rank: spec_fn(Node) -> nat,
    before: Web,
    rounds: nat,
)
    requires
        layered(plan, roots, nodes, rank),
        is_modest(plan, roots),
        before.plan == plan,
        before.roots == roots,
        sound(before, nodes, rank),
        agree(before, web_with(plan, roots, lasts(before)), rank, rounds + 1),
    ensures
        led(web_with(plan, roots, settled(plan, roots, lasts(before), rounds))),
    decreases rounds,
{
    let one = web_with(plan, roots, lasts(before));
    let other = web_with(plan, roots, lasts(one));
    lemma_lasts_among(before, nodes, rank);
    lemma_sound(plan, roots, nodes, rank, lasts(before));
    lemma_lasts_among(one, nodes, rank);
    lemma_sound(plan, roots, nodes, rank, lasts(one));
    assert(agree(one, other, rank, rounds)) by {
        assert forall|node: Node| rank(node) >= rounds implies (#[trigger] one.opened.contains(node)
            <==> other.opened.contains(node)) by {
            lemma_next_opens(before, one, other, nodes, rank, rounds + 1, node);
        }
    }
    if !led(one) {
        if rounds == 0 {
            assert forall|id: u128| #[trigger] one.leads.contains_key(id) implies one.leads[id]
                == lasts(one)[id] by {
                let lead = one.leads[id];
                assert(one.opened.contains(lead));
                assert(other.opened.contains(lead));
                assert(caches(one.plan[lead as int], id));
                lemma_has_lead(other, lead, id);
            }
            lemma_led(one);
        } else {
            lemma_rounds(plan, roots, nodes, rank, one, (rounds - 1) as nat);
        }
    }
}

/// Where no cache lies below one with its id, whichever inputs are followed, each cache id comes to
/// be led by the node that is listed last.
pub proof fn law_leaders_settle(
    plan: Seq<IRModel>,
    roots: Seq<Node>,
    nodes: Set<Node>,
    rank: spec_fn(Node) -> nat,
)
    requires
        is_modest(plan, roots),
        layered(plan, roots, nodes, rank),
    ensures
        led(web_of(plan, roots)),
        listable(web_of(plan, roots)),
        web_of(plan, roots).acyclic(),
{
    let none = Map::<u128, Node>::empty();
    let first = web_with(plan, roots, none);
    lemma_sound(plan, roots, nodes, rank, none);
    if !led(first) {
        if plan.len() == 0 {
            lemma_listing(first);
        } else {
            let next = web_with(plan, roots, lasts(first));
            lemma_lasts_among(first, nodes, rank);
            lemma_sound(plan, roots, nodes, rank, lasts(first));
            assert(agree(first, next, rank, plan.len()));
            lemma_rounds(plan, roots, nodes, rank, first, (plan.len() - 1) as nat);
        }
    }
    lemma_settled_sound(plan, roots, nodes, rank, none, plan.len());
}

/// Whatever the rounds settle on can be listed.
proof fn lemma_settled_sound(
    plan: Seq<IRModel>,
    roots: Seq<Node>,
    nodes: Set<Node>,
    rank: spec_fn(Node) -> nat,
    picks: Map<u128, Node>,
    rounds: nat,
)
    requires
        layered(plan, roots, nodes, rank),
        is_modest(plan, roots),
        well_led(plan, picks),
        forall|id: u128| #[trigger] picks.contains_key(id) ==> nodes.contains(picks[id]),
    ensures
        ({
            let web = web_with(plan, roots, settled(plan, roots, picks, rounds));
            listable(web) && web.acyclic()
        }),
    decreases rounds,
{
    let web = web_with(plan, roots, picks);
    lemma_sound(plan, roots, nodes, rank, picks);
    if rounds == 0 || led(web) {
        lemma_acyclic(web);
    } else {
        lemma_lasts_among(web, nodes, rank);
        lemma_settled_sound(plan, roots, nodes, rank, lasts(web), (rounds - 1) as nat);
    }
}

} // verus!
