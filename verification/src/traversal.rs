//! The order in which the nodes of a plan are visited, and what it is made of.

use crate::arena::Node;
use crate::ir::{IRModel, Plan};
use vstd::prelude::*;

verus! {

////////////////////////////////////////////////////////////////////////////////////////////////
// What a plan is made of
////////////////////////////////////////////////////////////////////////////////////////////////

/// Whether `ir` is a cache with this id.
pub open spec fn caches(ir: IRModel, wanted: u128) -> bool {
    ir matches Plan::Cache { id, .. } && id == wanted
}

/// What a search of a plan has come across.
#[verifier::ext_equal]
pub struct Found {
    /// For each cache id the node that was found first.
    pub leads: Map<u128, Node>,
    /// The nodes whose inputs were looked at.
    pub opened: Set<Node>,
}

/// The search needs to look no further at `node`: it was opened before or, for a cache, another
/// node with its id was.
pub open spec fn is_known(plan: Seq<IRModel>, found: Found, node: Node) -> bool {
    match plan[node as int] {
        Plan::Cache { id, .. } => found.leads.contains_key(id),
        _ => found.opened.contains(node),
    }
}

/// The nodes that lead cache ids are caches with those ids.
pub open spec fn well_led(plan: Seq<IRModel>, leads: Map<u128, Node>) -> bool {
    forall|id: u128| #[trigger]
        leads.contains_key(id) ==> leads[id] < plan.len() && caches(plan[leads[id] as int], id)
}

/// What is found after `node` is opened.
pub open spec fn with_opened(plan: Seq<IRModel>, found: Found, node: Node) -> Found {
    Found {
        leads: match plan[node as int] {
            Plan::Cache { id, .. } => found.leads.insert(id, node),
            _ => found.leads,
        },
        opened: found.opened.insert(node),
    }
}

/// Continues a search whose next nodes are on `stack`, the top one last, for at most `fuel` nodes.
///
/// When the search first meets a cache id, it opens the node that `picks` names for it, or else the
/// node that it met.
pub open spec fn survey(
    plan: Seq<IRModel>,
    picks: Map<u128, Node>,
    stack: Seq<Node>,
    found: Found,
    fuel: nat,
) -> Found
    decreases fuel,
{
    if fuel == 0 || stack.len() == 0 {
        found
    } else {
        let node = stack.last();
        let rest = stack.drop_last();
        if node >= plan.len() || is_known(plan, found, node) {
            survey(plan, picks, rest, found, (fuel - 1) as nat)
        } else {
            let lead = head_of(plan, picks, node);
            survey(
                plan,
                picks,
                rest + plan[lead as int].inputs(),
                with_opened(plan, found, lead),
                (fuel - 1) as nat,
            )
        }
    }
}

/// How many inputs those of the first `upto` nodes have that are in `nodes`.
pub open spec fn width(plan: Seq<IRModel>, nodes: Set<Node>, upto: nat) -> nat
    decreases upto,
{
    if upto == 0 {
        0
    } else {
        width(plan, nodes, (upto - 1) as nat) + if nodes.contains((upto - 1) as usize) {
            plan[upto - 1].inputs().len()
        } else {
            0
        }
    }
}

/// The node that stands for `node`: for a cache the one that leads its id.
pub open spec fn head_of(plan: Seq<IRModel>, leads: Map<u128, Node>, node: Node) -> Node {
    match plan[node as int] {
        Plan::Cache { id, .. } => if leads.contains_key(id) {
            leads[id]
        } else {
            node
        },
        _ => node,
    }
}

/// Whether `node` is a cache whose id another node leads.
pub open spec fn is_copy(plan: Seq<IRModel>, leads: Map<u128, Node>, node: Node) -> bool {
    head_of(plan, leads, node) != node
}

/// The part of a plan that lies below some nodes.
///
/// Cache nodes that share an id stand for one result. One of them leads: its input is followed
/// for all of them, and the others are copies of it, whose own inputs are not followed.
#[verifier::ext_equal]
pub struct Web {
    pub plan: Seq<IRModel>,
    pub roots: Seq<Node>,
    /// The leading node of each cache id.
    pub leads: Map<u128, Node>,
    /// The nodes whose inputs are followed: all but the copies.
    pub opened: Set<Node>,
}

/// The part of `plan` that lies below `roots`, where the nodes `picks` lead their cache ids.
pub open spec fn web_with(plan: Seq<IRModel>, roots: Seq<Node>, picks: Map<u128, Node>) -> Web {
    let found = survey(
        plan,
        picks,
        roots,
        Found { leads: Map::empty(), opened: Set::empty() },
        roots.len() + width(plan, Set::full(), plan.len()),
    );
    Web { plan, roots, leads: found.leads, opened: found.opened }
}

impl Web {
    /// The node that stands for `node`.
    pub open spec fn head(self, node: Node) -> Node {
        head_of(self.plan, self.leads, node)
    }

    /// The inputs that are followed from `node`.
    pub open spec fn below(self, node: Node) -> Seq<Node> {
        self.plan[self.head(node) as int].inputs()
    }

    /// How many of `nodes` the node `head` stands for.
    pub open spec fn hits(self, nodes: Seq<Node>, head: Node) -> nat
        decreases nodes.len(),
    {
        if nodes.len() == 0 {
            0
        } else {
            self.hits(nodes.drop_last(), head) + if self.head(nodes.last()) == head {
                1nat
            } else {
                0nat
            }
        }
    }

    /// How many inputs of those of the first `upto` nodes that are in `nodes` the node `head`
    /// stands for.
    pub open spec fn reads(self, nodes: Set<Node>, head: Node, upto: nat) -> nat
        decreases upto,
    {
        if upto == 0 {
            0
        } else {
            self.reads(nodes, head, (upto - 1) as nat) + if nodes.contains((upto - 1) as usize) {
                self.hits(self.plan[upto - 1].inputs(), head)
            } else {
                0
            }
        }
    }

    /// How often `head`, or a copy of it, is read by the nodes that are followed.
    pub open spec fn consumers(self, head: Node) -> nat {
        self.reads(self.opened, head, self.plan.len())
    }

    /// How often `head`, or a copy of it, is used: as a root, and by the nodes that are followed.
    pub open spec fn uses(self, head: Node) -> nat {
        self.hits(self.roots, head) + self.consumers(head)
    }

    /// How many roots there are and inputs of nodes that are followed.
    pub open spec fn size(self) -> nat {
        self.roots.len() + width(self.plan, self.opened, self.plan.len())
    }

    /// All roots, and all inputs that are followed, are nodes of the plan.
    pub open spec fn inside(self) -> bool {
        &&& forall|i: int|
            0 <= i < self.roots.len() ==> (#[trigger] self.roots[i]) < self.plan.len()
        &&& forall|node: Node, j: int|
            self.opened.contains(node) && 0 <= j < self.plan[node as int].inputs().len() ==> (
            #[trigger] self.plan[node as int].inputs()[j]) < self.plan.len()
    }

    /// `rank` falls from each node to the inputs that are followed.
    pub open spec fn falls(self, rank: spec_fn(Node) -> nat) -> bool {
        forall|node: Node, j: int|
            self.opened.contains(node) && 0 <= j < self.plan[node as int].inputs().len() ==> rank(
                self.head(#[trigger] self.plan[node as int].inputs()[j]),
            ) < rank(node)
    }

    /// No node lies below itself.
    pub open spec fn acyclic(self) -> bool {
        exists|rank: spec_fn(Node) -> nat| #[trigger] self.falls(rank)
    }
}

/// What holds of a search at all times.
pub open spec fn surveyed(
    plan: Seq<IRModel>,
    roots: Seq<Node>,
    stack: Seq<Node>,
    found: Found,
) -> bool {
    &&& forall|node: Node| #[trigger]
        found.opened.contains(node) ==> {
            &&& node < plan.len()
            &&& plan[node as int] matches Plan::Cache { id, .. } ==> found.leads.contains_key(id)
                && found.leads[id] == node
        }
    &&& forall|id: u128| #[trigger]
        found.leads.contains_key(id) ==> found.opened.contains(found.leads[id])
            && caches(plan[found.leads[id] as int], id)
    &&& forall|i: int|
        0 <= i < stack.len() ==> is_origin(plan, roots, found.opened, #[trigger] stack[i])
    &&& forall|node: Node| #[trigger]
        found.opened.contains(node) ==> is_met(plan, roots, found, node)
    &&& forall|i: int|
        0 <= i < roots.len() ==> is_pending(plan, stack, found, #[trigger] roots[i])
    &&& forall|node: Node, j: int|
        found.opened.contains(node) && 0 <= j < plan[node as int].inputs().len() ==> is_pending(
            plan,
            stack,
            found,
            #[trigger] plan[node as int].inputs()[j],
        )
}

/// `node` is a root or an input of one of the nodes `opened`.
pub open spec fn is_origin(
    plan: Seq<IRModel>,
    roots: Seq<Node>,
    opened: Set<Node>,
    node: Node,
) -> bool {
    roots.contains(node) || exists|reader: Node| #[trigger]
        opened.contains(reader) && plan[reader as int].inputs().contains(node)
}

/// `node` stands for a root or for an input of one of the nodes opened.
pub open spec fn is_met(plan: Seq<IRModel>, roots: Seq<Node>, found: Found, node: Node) -> bool {
    exists|used: Node| #[trigger]
        is_origin(plan, roots, found.opened, used) && used < plan.len() && head_of(
            plan,
            found.leads,
            used,
        ) == node
}

/// `node` is settled, or the search will come to it.
pub open spec fn is_pending(
    plan: Seq<IRModel>,
    stack: Seq<Node>,
    found: Found,
    node: Node,
) -> bool {
    node >= plan.len() || is_known(plan, found, node) || stack.contains(node)
}

pub proof fn lemma_width_insert(plan: Seq<IRModel>, nodes: Set<Node>, node: Node, upto: nat)
    requires
        !nodes.contains(node),
        upto <= plan.len() <= usize::MAX,
    ensures
        width(plan, nodes.insert(node), upto) == width(plan, nodes, upto) + if node < upto {
            plan[node as int].inputs().len()
        } else {
            0
        },
    decreases upto,
{
    if upto > 0 {
        lemma_width_insert(plan, nodes, node, (upto - 1) as nat);
    }
}

/// What a search does next.
pub proof fn lemma_survey_step(
    plan: Seq<IRModel>,
    picks: Map<u128, Node>,
    roots: Seq<Node>,
    stack: Seq<Node>,
    found: Found,
)
    requires
        well_led(plan, picks),
        surveyed(plan, roots, stack, found),
        stack.len() > 0,
        plan.len() <= usize::MAX,
    ensures
        ({
            let node = stack.last();
            let rest = stack.drop_last();
            if node >= plan.len() || is_known(plan, found, node) {
                surveyed(plan, roots, rest, found)
            } else {
                let lead = head_of(plan, picks, node);
                let next = with_opened(plan, found, lead);
                &&& lead < plan.len()
                &&& surveyed(plan, roots, rest + plan[lead as int].inputs(), next)
                &&& !found.opened.contains(lead)
                &&& width(plan, found.opened.complement(), plan.len()) == width(
                    plan,
                    next.opened.complement(),
                    plan.len(),
                ) + plan[lead as int].inputs().len()
            }
        }),
{
    let node = stack.last();
    let rest = stack.drop_last();
    if node >= plan.len() || is_known(plan, found, node) {
        assert forall|m: Node| is_pending(plan, stack, found, m) implies is_pending(
            plan,
            rest,
            found,
            m,
        ) by {
            if stack.contains(m) && m != node {
                let i = choose|i: int| 0 <= i < stack.len() && stack[i] == m;
                assert(rest[i] == m);
            }
        }
    } else {
        let lead = head_of(plan, picks, node);
        let inputs = plan[lead as int].inputs();
        let next = with_opened(plan, found, lead);
        let more = rest + inputs;
        if let Plan::Cache { id, .. } = plan[node as int] {
            if picks.contains_key(id) {
                assert(caches(plan[picks[id] as int], id));
            }
            assert(next.leads == found.leads.insert(id, lead));
        }
        assert(!found.opened.contains(lead));
        assert(found.opened.complement() =~= next.opened.complement().insert(lead));
        lemma_width_insert(plan, next.opened.complement(), lead, plan.len());
        assert(is_origin(plan, roots, found.opened, stack[stack.len() - 1]));
        assert forall|m: Node| is_origin(plan, roots, found.opened, m) implies is_origin(
            plan,
            roots,
            next.opened,
            m,
        ) by {
            if !roots.contains(m) {
                let reader = choose|reader: Node| #[trigger]
                    found.opened.contains(reader) && plan[reader as int].inputs().contains(m);
                assert(next.opened.contains(reader));
            }
        }
        assert forall|m: Node| #[trigger] next.opened.contains(m) implies is_met(
            plan,
            roots,
            next,
            m,
        ) by {
            if m == lead {
                assert(is_origin(plan, roots, next.opened, node));
                assert(head_of(plan, next.leads, node) == lead);
            } else {
                let used = choose|used: Node| #[trigger]
                    is_origin(plan, roots, found.opened, used) && used < plan.len() && head_of(
                        plan,
                        found.leads,
                        used,
                    ) == m;
                assert(is_origin(plan, roots, next.opened, used));
                assert(head_of(plan, next.leads, used) == m);
            }
        }
        assert forall|i: int| 0 <= i < more.len() implies is_origin(
            plan,
            roots,
            next.opened,
            #[trigger] more[i],
        ) by {
            if i < rest.len() {
                assert(more[i] == stack[i]);
            } else {
                assert(inputs.contains(more[i])) by {
                    assert(more[i] == inputs[i - rest.len()]);
                }
                assert(next.opened.contains(lead));
            }
        }
        assert forall|m: Node| is_pending(plan, stack, found, m) implies is_pending(
            plan,
            more,
            next,
            m,
        ) by {
            if stack.contains(m) && m != node {
                let i = choose|i: int| 0 <= i < stack.len() && stack[i] == m;
                assert(more[i] == m);
            }
        }
        assert forall|n: Node, j: int|
            next.opened.contains(n) && 0 <= j < plan[n as int].inputs().len() implies is_pending(
            plan,
            more,
            next,
            #[trigger] plan[n as int].inputs()[j],
        ) by {
            if n == lead {
                assert(more[rest.len() + j] == inputs[j]);
            }
        }
    }
}

/// A search with enough fuel looks at everything.
proof fn lemma_survey(
    plan: Seq<IRModel>,
    picks: Map<u128, Node>,
    roots: Seq<Node>,
    stack: Seq<Node>,
    found: Found,
    fuel: nat,
)
    requires
        well_led(plan, picks),
        surveyed(plan, roots, stack, found),
        stack.len() + width(plan, found.opened.complement(), plan.len()) <= fuel,
        plan.len() <= usize::MAX,
    ensures
        surveyed(plan, roots, Seq::empty(), survey(plan, picks, stack, found, fuel)),
    decreases fuel,
{
    if stack.len() == 0 {
        assert(stack =~= Seq::<Node>::empty());
    } else {
        let node = stack.last();
        let rest = stack.drop_last();
        lemma_survey_step(plan, picks, roots, stack, found);
        if node >= plan.len() || is_known(plan, found, node) {
            lemma_survey(plan, picks, roots, rest, found, (fuel - 1) as nat);
        } else {
            let lead = head_of(plan, picks, node);
            lemma_survey(
                plan,
                picks,
                roots,
                rest + plan[lead as int].inputs(),
                with_opened(plan, found, lead),
                (fuel - 1) as nat,
            );
        }
    }
}

/// What holds of the part of a plan below some roots.
pub open spec fn woven(web: Web) -> bool {
    &&& web.plan.len() <= usize::MAX
    &&& forall|node: Node| #[trigger]
        web.opened.contains(node) ==> {
            &&& node < web.plan.len()
            &&& web.head(node) == node
            &&& is_met(
                web.plan,
                web.roots,
                Found { leads: web.leads, opened: web.opened },
                node,
            )
            &&& web.plan[node as int] matches Plan::Cache { id, .. } ==> web.leads.contains_key(id)
        }
    &&& forall|id: u128| #[trigger]
        web.leads.contains_key(id) ==> web.opened.contains(web.leads[id])
            && caches(web.plan[web.leads[id] as int], id)
    &&& forall|i: int|
        0 <= i < web.roots.len() && web.roots[i] < web.plan.len() ==> web.opened.contains(
            web.head(#[trigger] web.roots[i]),
        )
    &&& forall|node: Node, j: int|
        web.opened.contains(node) && 0 <= j < web.plan[node as int].inputs().len()
            && web.plan[node as int].inputs()[j] < web.plan.len() ==> web.opened.contains(
            web.head(#[trigger] web.plan[node as int].inputs()[j]),
        )
}

pub proof fn lemma_web_with(plan: Seq<IRModel>, roots: Seq<Node>, picks: Map<u128, Node>)
    requires
        plan.len() <= usize::MAX,
        well_led(plan, picks),
    ensures
        woven(web_with(plan, roots, picks)),
{
    let none = Found { leads: Map::empty(), opened: Set::empty() };
    assert(none.opened.complement() =~= Set::full());
    assert forall|i: int| 0 <= i < roots.len() implies is_origin(
        plan,
        roots,
        none.opened,
        #[trigger] roots[i],
    ) && is_pending(plan, roots, none, roots[i]) by {
        assert(roots.contains(roots[i]));
    }
    let fuel = roots.len() + width(plan, Set::full(), plan.len());
    lemma_survey(plan, picks, roots, roots, none, fuel);
    let found = survey(plan, picks, roots, none, fuel);
    let web = web_with(plan, roots, picks);
    assert(Found { leads: web.leads, opened: web.opened } == found);
    assert forall|m: Node| m < plan.len() && is_pending(plan, Seq::empty(), found, m) implies
    web.opened.contains(web.head(m)) by {
        assert(is_known(plan, found, m));
    }
}

////////////////////////////////////////////////////////////////////////////////////////////////
// The list of visits
////////////////////////////////////////////////////////////////////////////////////////////////

/// How many of the first `upto` nodes of `list` the node `head` stands for.
pub open spec fn seen(web: Web, list: Seq<Node>, upto: nat, head: Node) -> nat
    decreases upto,
{
    if upto == 0 {
        0
    } else {
        seen(web, list, (upto - 1) as nat, head) + if web.head(list[upto - 1]) == head {
            1nat
        } else {
            0nat
        }
    }
}

/// Whether the visit at position `i` of `list` goes on to the inputs of the node there.
///
/// It does so when the node, and its copies, have been listed as often as they are used.
pub open spec fn expands(web: Web, list: Seq<Node>, i: int) -> bool {
    seen(web, list, (i + 1) as nat, web.head(list[i])) == web.uses(web.head(list[i]))
}

/// The nodes that the visit at position `i` puts on the list.
pub open spec fn children(web: Web, list: Seq<Node>, i: int) -> Seq<Node> {
    if expands(web, list, i) {
        web.below(list[i])
    } else {
        Seq::empty()
    }
}

/// Continues a traversal whose next visit is at position `i`, for at most `fuel` visits.
pub open spec fn traverse(web: Web, list: Seq<Node>, i: nat, fuel: nat) -> Seq<Node>
    decreases fuel,
{
    if fuel == 0 || i >= list.len() {
        list
    } else {
        traverse(web, list + children(web, list, i as int), i + 1, (fuel - 1) as nat)
    }
}

/// The nodes in the order in which they are visited, consumers before their inputs.
pub open spec fn listing(web: Web) -> Seq<Node> {
    traverse(web, web.roots, 0, web.size())
}

/// One step from a consumer to one of its inputs.
pub struct Hop {
    /// Where the consumer, or a copy of it, stands in the list.
    pub consumer_at: int,
    /// Which input of the consumer this is.
    pub slot: int,
}

/// The steps that the first `upto` visits take, in order.
pub open spec fn hops(web: Web, list: Seq<Node>, upto: nat) -> Seq<Hop>
    decreases upto,
{
    if upto == 0 {
        Seq::empty()
    } else {
        hops(web, list, (upto - 1) as nat) + Seq::new(
            children(web, list, upto - 1).len(),
            |k: int| Hop { consumer_at: upto - 1, slot: k },
        )
    }
}

/// The node that a step comes from.
pub open spec fn hop_consumer(web: Web, list: Seq<Node>, hop: Hop) -> Node {
    web.head(list[hop.consumer_at])
}

/// The node that a step arrives at.
pub open spec fn hop_input(web: Web, list: Seq<Node>, hop: Hop) -> Node {
    web.below(list[hop.consumer_at])[hop.slot]
}

/// The nodes from which the first `upto` visits went on.
pub open spec fn done(web: Web, list: Seq<Node>, upto: nat) -> Set<Node>
    decreases upto,
{
    if upto == 0 {
        Set::empty()
    } else {
        let before = done(web, list, (upto - 1) as nat);
        if expands(web, list, upto - 1) {
            before.insert(web.head(list[upto - 1]))
        } else {
            before
        }
    }
}

/// What holds of the list before the visit at position `i`.
pub open spec fn progress(web: Web, list: Seq<Node>, i: nat) -> bool {
    let steps = hops(web, list, i);
    &&& i <= list.len()
    &&& list.len() == web.roots.len() + steps.len()
    &&& web.roots == list.take(web.roots.len() as int)
    &&& forall|p: int|
        0 <= p < list.len() ==> (#[trigger] list[p]) < web.plan.len() && web.opened.contains(
            web.head(list[p]),
        )
    &&& forall|q: int|
        0 <= q < steps.len() ==> {
            &&& 0 <= (#[trigger] steps[q]).consumer_at < i
            &&& steps[q].consumer_at < web.roots.len() + q
            &&& 0 <= steps[q].slot < web.below(list[steps[q].consumer_at]).len()
            &&& list[web.roots.len() + q] == hop_input(web, list, steps[q])
        }
    &&& done(web, list, i).subset_of(web.opened)
    &&& steps.len() == width(web.plan, done(web, list, i), web.plan.len())
    &&& forall|head: Node| #[trigger]
        seen(web, list, list.len(), head) == web.hits(web.roots, head) + web.reads(
            done(web, list, i),
            head,
            web.plan.len(),
        )
}

pub proof fn lemma_seen_mono(web: Web, list: Seq<Node>, a: nat, b: nat, head: Node)
    requires
        a <= b,
    ensures
        seen(web, list, a, head) <= seen(web, list, b, head),
    decreases b,
{
    if a < b {
        lemma_seen_mono(web, list, a, (b - 1) as nat, head);
    }
}

pub proof fn lemma_seen_prefix(
    web: Web,
    list: Seq<Node>,
    longer: Seq<Node>,
    upto: nat,
    head: Node,
)
    requires
        upto <= list.len() <= longer.len(),
        list == longer.take(list.len() as int),
    ensures
        seen(web, list, upto, head) == seen(web, longer, upto, head),
    decreases upto,
{
    if upto > 0 {
        assert(list[upto - 1] == longer[upto - 1]);
        lemma_seen_prefix(web, list, longer, (upto - 1) as nat, head);
    }
}

/// What a visit does is settled by the list up to it.
pub proof fn lemma_expands_prefix(web: Web, list: Seq<Node>, longer: Seq<Node>, i: int)
    requires
        0 <= i < list.len() <= longer.len(),
        list == longer.take(list.len() as int),
    ensures
        list[i] == longer[i],
        expands(web, list, i) == expands(web, longer, i),
        children(web, list, i) == children(web, longer, i),
{
    assert(list[i] == longer[i]);
    lemma_seen_prefix(web, list, longer, (i + 1) as nat, web.head(list[i]));
}

pub proof fn lemma_hops_prefix(web: Web, list: Seq<Node>, longer: Seq<Node>, upto: nat)
    requires
        upto <= list.len() <= longer.len(),
        list == longer.take(list.len() as int),
    ensures
        hops(web, list, upto) == hops(web, longer, upto),
        done(web, list, upto) == done(web, longer, upto),
    decreases upto,
{
    if upto > 0 {
        lemma_hops_prefix(web, list, longer, (upto - 1) as nat);
        lemma_expands_prefix(web, list, longer, upto - 1);
    }
}

/// A node from which a visit went on has a position.
pub proof fn lemma_done_at(web: Web, list: Seq<Node>, upto: nat, head: Node) -> (p: int)
    requires
        done(web, list, upto).contains(head),
    ensures
        0 <= p < upto,
        web.head(list[p]) == head,
        expands(web, list, p),
    decreases upto,
{
    if expands(web, list, upto - 1) && web.head(list[upto - 1]) == head {
        upto - 1
    } else {
        lemma_done_at(web, list, (upto - 1) as nat, head)
    }
}

pub proof fn lemma_at_done(web: Web, list: Seq<Node>, upto: nat, p: int)
    requires
        0 <= p < upto,
        expands(web, list, p),
    ensures
        done(web, list, upto).contains(web.head(list[p])),
    decreases upto,
{
    if p < upto - 1 {
        lemma_at_done(web, list, (upto - 1) as nat, p);
    }
}

/// No two visits go on from the same node.
pub proof fn lemma_expands_once(web: Web, list: Seq<Node>, p: int, r: int)
    requires
        0 <= p < r,
        web.head(list[p]) == web.head(list[r]),
        expands(web, list, p),
    ensures
        !expands(web, list, r),
{
    lemma_seen_mono(web, list, (p + 1) as nat, r as nat, web.head(list[p]));
}

pub proof fn lemma_reads_insert(web: Web, nodes: Set<Node>, node: Node, head: Node, upto: nat)
    requires
        !nodes.contains(node),
        upto <= web.plan.len() <= usize::MAX,
    ensures
        web.reads(nodes.insert(node), head, upto) == web.reads(nodes, head, upto) + if node < upto {
            web.hits(web.plan[node as int].inputs(), head)
        } else {
            0
        },
    decreases upto,
{
    if upto > 0 {
        lemma_reads_insert(web, nodes, node, head, (upto - 1) as nat);
    }
}

pub proof fn lemma_reads_mono(web: Web, some: Set<Node>, more: Set<Node>, head: Node, upto: nat)
    requires
        some.subset_of(more),
    ensures
        web.reads(some, head, upto) <= web.reads(more, head, upto),
        width(web.plan, some, upto) <= width(web.plan, more, upto),
    decreases upto,
{
    if upto > 0 {
        lemma_reads_mono(web, some, more, head, (upto - 1) as nat);
    }
}

pub proof fn lemma_seen_append(web: Web, list: Seq<Node>, more: Seq<Node>, head: Node)
    ensures
        seen(web, list + more, (list + more).len(), head) == seen(web, list, list.len(), head)
            + web.hits(more, head),
    decreases more.len(),
{
    let all = list + more;
    if more.len() == 0 {
        assert(all =~= list);
    } else {
        let shorter = list + more.drop_last();
        lemma_seen_append(web, list, more.drop_last(), head);
        assert(shorter =~= all.take(shorter.len() as int));
        lemma_seen_prefix(web, shorter, all, shorter.len(), head);
    }
}

pub proof fn lemma_progress_start(web: Web)
    requires
        woven(web),
        web.inside(),
    ensures
        progress(web, web.roots, 0),
{
    assert(web.roots.take(web.roots.len() as int) =~= web.roots);
    let none = Set::<Node>::empty();
    lemma_none(web, none, web.plan.len());
    assert forall|head: Node| #[trigger]
        seen(web, web.roots, web.roots.len(), head) == web.hits(web.roots, head) + web.reads(
            none,
            head,
            web.plan.len(),
        ) by {
        lemma_seen_append(web, Seq::empty(), web.roots, head);
        assert(Seq::<Node>::empty() + web.roots =~= web.roots);
        lemma_none(web, none, web.plan.len());
    }
}

proof fn lemma_none(web: Web, none: Set<Node>, upto: nat)
    requires
        none == Set::<Node>::empty(),
    ensures
        width(web.plan, none, upto) == 0,
        forall|head: Node| #[trigger] web.reads(none, head, upto) == 0,
    decreases upto,
{
    if upto > 0 {
        lemma_none(web, none, (upto - 1) as nat);
        assert forall|head: Node| #[trigger] web.reads(none, head, upto) == 0 by {
            assert(web.reads(none, head, (upto - 1) as nat) == 0);
        }
    }
}

/// One visit keeps what holds of the list.
pub proof fn lemma_progress_step(web: Web, list: Seq<Node>, i: nat)
    requires
        woven(web),
        web.inside(),
        progress(web, list, i),
        i < list.len(),
    ensures
        progress(web, list + children(web, list, i as int), i + 1),
        seen(web, list, i + 1, web.head(list[i as int])) <= web.uses(web.head(list[i as int])),
{
    let more = children(web, list, i as int);
    let next = list + more;
    let head = web.head(list[i as int]);
    let before = done(web, list, i);
    let after = done(web, next, i + 1);
    assert(list =~= next.take(list.len() as int));
    assert(web.roots =~= next.take(web.roots.len() as int));
    lemma_hops_prefix(web, list, next, i);
    lemma_expands_prefix(web, list, next, i as int);
    lemma_seen_mono(web, list, i + 1, list.len(), head);
    lemma_reads_mono(web, before, web.opened, head, web.plan.len());
    let steps = hops(web, list, i);
    let all = hops(web, next, i + 1);
    assert forall|q: int| 0 <= q < all.len() implies {
        &&& 0 <= (#[trigger] all[q]).consumer_at < i + 1
        &&& all[q].consumer_at < web.roots.len() + q
        &&& 0 <= all[q].slot < web.below(next[all[q].consumer_at]).len()
        &&& next[web.roots.len() + q] == hop_input(web, next, all[q])
    } by {
        if q < steps.len() {
            assert(all[q] == steps[q]);
            assert(next[web.roots.len() + q] == list[web.roots.len() + q]);
        }
    }
    assert forall|p: int| 0 <= p < next.len() implies (#[trigger] next[p]) < web.plan.len()
        && web.opened.contains(web.head(next[p])) by {
        if p < list.len() {
            assert(next[p] == list[p]);
        } else {
            assert(next[p] == web.plan[head as int].inputs()[p - list.len()]);
        }
    }
    if expands(web, list, i as int) {
        if before.contains(head) {
            let p = lemma_done_at(web, list, i, head);
            lemma_expands_once(web, list, p, i as int);
        }
        lemma_width_insert(web.plan, before, head, web.plan.len());
        assert forall|w: Node| #[trigger]
            seen(web, next, next.len(), w) == web.hits(web.roots, w) + web.reads(
                after,
                w,
                web.plan.len(),
            ) by {
            lemma_seen_append(web, list, more, w);
            lemma_reads_insert(web, before, head, w, web.plan.len());
            assert(seen(web, list, list.len(), w) == web.hits(web.roots, w) + web.reads(
                before,
                w,
                web.plan.len(),
            ));
        }
    } else {
        assert(next =~= list);
    }
}

/// The list is never longer than all uses together.
pub proof fn lemma_progress_room(web: Web, list: Seq<Node>, i: nat)
    requires
        progress(web, list, i),
    ensures
        list.len() <= web.size(),
{
    lemma_reads_mono(web, done(web, list, i), web.opened, 0, web.plan.len());
}

/// A traversal only ever adds to its list, and what holds of the list before it holds after it.
pub proof fn lemma_traverse(web: Web, list: Seq<Node>, i: nat, fuel: nat)
    requires
        woven(web),
        web.inside(),
        progress(web, list, i),
        i + fuel == web.size(),
    ensures
        ({
            let whole = traverse(web, list, i, fuel);
            &&& list.len() <= whole.len()
            &&& list == whole.take(list.len() as int)
            &&& progress(web, whole, whole.len())
        }),
    decreases fuel,
{
    lemma_progress_room(web, list, i);
    let whole = traverse(web, list, i, fuel);
    if i < list.len() {
        let next = list + children(web, list, i as int);
        lemma_progress_step(web, list, i);
        lemma_traverse(web, next, i + 1, (fuel - 1) as nat);
        assert(list =~= whole.take(list.len() as int));
    } else {
        assert(list =~= whole.take(list.len() as int));
    }
}

/// What holds of the finished list.
pub proof fn lemma_listing(web: Web)
    requires
        woven(web),
        web.inside(),
    ensures
        progress(web, listing(web), listing(web).len()),
        listing(web).len() <= web.size(),
{
    lemma_progress_start(web);
    lemma_traverse(web, web.roots, 0, web.size());
    lemma_progress_room(web, listing(web), listing(web).len());
}

////////////////////////////////////////////////////////////////////////////////////////////////
// Completeness
////////////////////////////////////////////////////////////////////////////////////////////////

/// The visit at which a count is reached.
proof fn lemma_last_seen(web: Web, list: Seq<Node>, upto: nat, head: Node, count: nat) -> (p:
    int)
    requires
        0 < count <= seen(web, list, upto, head),
    ensures
        0 <= p < upto,
        web.head(list[p]) == head,
        seen(web, list, (p + 1) as nat, head) == count,
    decreases upto,
{
    if seen(web, list, (upto - 1) as nat, head) >= count {
        lemma_last_seen(web, list, (upto - 1) as nat, head, count)
    } else {
        upto - 1
    }
}

pub proof fn lemma_hits_at(web: Web, nodes: Seq<Node>, head: Node) -> (i: int)
    requires
        web.hits(nodes, head) > 0,
    ensures
        0 <= i < nodes.len(),
        web.head(nodes[i]) == head,
    decreases nodes.len(),
{
    if web.head(nodes.last()) == head {
        nodes.len() - 1
    } else {
        lemma_hits_at(web, nodes.drop_last(), head)
    }
}

pub proof fn lemma_at_hits(web: Web, nodes: Seq<Node>, head: Node, i: int)
    requires
        0 <= i < nodes.len(),
        web.head(nodes[i]) == head,
    ensures
        web.hits(nodes, head) > 0,
    decreases nodes.len(),
{
    if i < nodes.len() - 1 {
        lemma_at_hits(web, nodes.drop_last(), head, i);
    }
}

/// Where more nodes read more often, one of them is new.
proof fn lemma_reads_more(web: Web, some: Set<Node>, more: Set<Node>, head: Node, upto: nat) -> (n:
    Node)
    requires
        some.subset_of(more),
        web.reads(some, head, upto) < web.reads(more, head, upto),
        upto <= web.plan.len() <= usize::MAX,
    ensures
        n < upto,
        more.contains(n),
        !some.contains(n),
        web.hits(web.plan[n as int].inputs(), head) > 0,
    decreases upto,
{
    let last = (upto - 1) as usize;
    if more.contains(last) && !some.contains(last) && web.hits(
        web.plan[last as int].inputs(),
        head,
    ) > 0 {
        last
    } else {
        lemma_reads_more(web, some, more, head, (upto - 1) as nat)
    }
}

pub proof fn lemma_reads_at(web: Web, nodes: Set<Node>, n: Node, head: Node, upto: nat)
    requires
        n < upto <= web.plan.len() <= usize::MAX,
        nodes.contains(n),
    ensures
        web.hits(web.plan[n as int].inputs(), head) <= web.reads(nodes, head, upto),
    decreases upto,
{
    if n < upto - 1 {
        lemma_reads_at(web, nodes, n, head, (upto - 1) as nat);
    }
}

/// What is opened is used.
pub proof fn lemma_used(web: Web, head: Node)
    requires
        woven(web),
        web.opened.contains(head),
    ensures
        web.uses(head) > 0,
{
    let found = Found { leads: web.leads, opened: web.opened };
    assert(is_met(web.plan, web.roots, found, head));
    let used = choose|used: Node| #[trigger]
        is_origin(web.plan, web.roots, found.opened, used) && used < web.plan.len() && head_of(
            web.plan,
            found.leads,
            used,
        ) == head;
    if web.roots.contains(used) {
        let i = choose|i: int| 0 <= i < web.roots.len() && web.roots[i] == used;
        lemma_at_hits(web, web.roots, head, i);
    } else {
        let reader = choose|reader: Node| #[trigger]
            web.opened.contains(reader) && web.plan[reader as int].inputs().contains(used);
        let inputs = web.plan[reader as int].inputs();
        let j = choose|j: int| 0 <= j < inputs.len() && inputs[j] == used;
        lemma_at_hits(web, inputs, head, j);
        lemma_reads_at(web, web.opened, reader, head, web.plan.len());
    }
}

spec fn top(rank: spec_fn(Node) -> nat, upto: nat) -> nat
    decreases upto,
{
    if upto == 0 {
        0
    } else {
        let before = top(rank, (upto - 1) as nat);
        let last = rank((upto - 1) as usize);
        if last > before {
            last
        } else {
            before
        }
    }
}

proof fn lemma_top(rank: spec_fn(Node) -> nat, upto: nat, node: Node)
    requires
        node < upto <= usize::MAX,
    ensures
        rank(node) <= top(rank, upto),
    decreases upto,
{
    if node < upto - 1 {
        lemma_top(rank, (upto - 1) as nat, node);
    }
}

/// Some visit goes on from each node that is opened.
proof fn lemma_reached(web: Web, rank: spec_fn(Node) -> nat, head: Node)
    requires
        woven(web),
        web.inside(),
        web.falls(rank),
        web.opened.contains(head),
    ensures
        done(web, listing(web), listing(web).len()).contains(head),
        seen(web, listing(web), listing(web).len(), head) == web.uses(head),
    decreases top(rank, web.plan.len()) - rank(head),
{
    let list = listing(web);
    let all = done(web, list, list.len());
    lemma_listing(web);
    lemma_reads_mono(web, all, web.opened, head, web.plan.len());
    assert(seen(web, list, list.len(), head) == web.hits(web.roots, head) + web.reads(
        all,
        head,
        web.plan.len(),
    ));
    if web.reads(all, head, web.plan.len()) < web.consumers(head) {
        let n = lemma_reads_more(web, all, web.opened, head, web.plan.len());
        let j = lemma_hits_at(web, web.plan[n as int].inputs(), head);
        assert(rank(web.head(web.plan[n as int].inputs()[j])) < rank(n));
        lemma_top(rank, web.plan.len(), n);
        lemma_reached(web, rank, n);
    }
    lemma_used(web, head);
    let p = lemma_last_seen(web, list, list.len(), head, web.uses(head));
    lemma_at_done(web, list, list.len(), p);
}

/// Every node that is opened is listed as often as it is used, and some visit goes on from it.
pub open spec fn complete(web: Web) -> bool {
    let list = listing(web);
    &&& done(web, list, list.len()) == web.opened
    &&& list.len() == web.size()
    &&& forall|head: Node|
        web.opened.contains(head) ==> #[trigger] seen(web, list, list.len(), head) == web.uses(head)
}

pub proof fn lemma_complete(web: Web)
    requires
        woven(web),
        web.inside(),
        web.acyclic(),
    ensures
        complete(web),
{
    let list = listing(web);
    let rank = choose|rank: spec_fn(Node) -> nat| #[trigger] web.falls(rank);
    lemma_listing(web);
    assert forall|head: Node| web.opened.contains(head) implies done(
        web,
        list,
        list.len(),
    ).contains(head) && #[trigger] seen(web, list, list.len(), head) == web.uses(head) by {
        lemma_reached(web, rank, head);
    }
    assert forall|head: Node| web.opened.contains(head) implies done(
        web,
        list,
        list.len(),
    ).contains(head) by {
        lemma_reached(web, rank, head);
    }
    assert(done(web, list, list.len()) =~= web.opened);
}

/// The last position of a node or a copy of it; the visit that goes on from it is there.
pub open spec fn last_at(web: Web, head: Node) -> int {
    let list = listing(web);
    choose|p: int|
        0 <= p < list.len() && web.head(#[trigger] list[p]) == head && expands(web, list, p)
}

/// Where the visit goes on from a node, and that it is listed no later.
pub proof fn lemma_last_at(web: Web, head: Node, p: int)
    requires
        woven(web),
        web.inside(),
        done(web, listing(web), listing(web).len()).contains(head),
    ensures
        0 <= last_at(web, head) < listing(web).len(),
        web.head(listing(web)[last_at(web, head)]) == head,
        expands(web, listing(web), last_at(web, head)),
        0 <= p < listing(web).len() && web.head(listing(web)[p]) == head ==> p <= last_at(
            web,
            head,
        ),
{
    let list = listing(web);
    lemma_listing(web);
    let r = lemma_done_at(web, list, list.len(), head);
    assert(web.head(list[r]) == head);
    let last = last_at(web, head);
    let all = done(web, list, list.len());
    lemma_reads_mono(web, all, web.opened, head, web.plan.len());
    assert(seen(web, list, list.len(), head) == web.hits(web.roots, head) + web.reads(
        all,
        head,
        web.plan.len(),
    ));
    if last < p < list.len() && web.head(list[p]) == head {
        lemma_seen_mono(web, list, (last + 1) as nat, p as nat, head);
        lemma_seen_mono(web, list, (p + 1) as nat, list.len(), head);
    }
}

/// If some visit goes on from each node that is opened, no node lies below itself.
pub proof fn lemma_acyclic(web: Web)
    requires
        woven(web),
        web.inside(),
        done(web, listing(web), listing(web).len()) == web.opened,
    ensures
        web.acyclic(),
{
    let list = listing(web);
    lemma_listing(web);
    let rank = |node: Node| (list.len() - last_at(web, node)) as nat;
    assert forall|node: Node, j: int|
        web.opened.contains(node) && 0 <= j < web.plan[node as int].inputs().len() implies rank(
        web.head(#[trigger] web.plan[node as int].inputs()[j]),
    ) < rank(node) by {
        let input = web.plan[node as int].inputs()[j];
        lemma_last_at(web, node, 0);
        let p = last_at(web, node);
        lemma_hop_at(web, list, list.len(), p, j);
        let q = hops(web, list, p as nat).len() + j;
        let steps = hops(web, list, list.len());
        assert(steps[q] == Hop { consumer_at: p, slot: j });
        lemma_last_at(web, web.head(input), web.roots.len() + q);
    }
    assert(web.falls(rank));
}

/// The visit at position `p` takes one step for each of the nodes that it puts on the list.
pub proof fn lemma_hop_at(web: Web, list: Seq<Node>, upto: nat, p: int, k: int)
    requires
        0 <= p < upto,
        0 <= k < children(web, list, p).len(),
    ensures
        hops(web, list, p as nat).len() + k < hops(web, list, upto).len(),
        hops(web, list, upto)[hops(web, list, p as nat).len() + k] == (Hop {
            consumer_at: p,
            slot: k,
        }),
    decreases upto,
{
    if p < upto - 1 {
        lemma_hop_at(web, list, (upto - 1) as nat, p, k);
    }
}

////////////////////////////////////////////////////////////////////////////////////////////////
// Who leads
////////////////////////////////////////////////////////////////////////////////////////////////

/// The last of the first `upto` nodes of `list` that `head` stands for; `head` if there is none.
pub open spec fn last_of(web: Web, list: Seq<Node>, upto: nat, head: Node) -> Node
    decreases upto,
{
    if upto == 0 {
        head
    } else if web.head(list[upto - 1]) == head {
        list[upto - 1]
    } else {
        last_of(web, list, (upto - 1) as nat, head)
    }
}

/// For each cache id the node that is listed last.
pub open spec fn lasts(web: Web) -> Map<u128, Node> {
    web.leads.map_values(|lead: Node| last_of(web, listing(web), listing(web).len(), lead))
}

/// Wherever one of the first `upto` visits goes on, the node that is listed there leads.
pub open spec fn led_until(web: Web, list: Seq<Node>, upto: nat) -> bool {
    forall|p: int|
        0 <= p < upto && #[trigger] expands(web, list, p) ==> web.head(list[p]) == list[p]
}

/// Each cache id is led by the node that is listed last: wherever a visit goes on, the node that is
/// listed there leads.
pub open spec fn led(web: Web) -> bool {
    led_until(web, listing(web), listing(web).len())
}

/// The nodes of the web can be listed: they are nodes of the plan, and the list fits into memory.
pub open spec fn listable(web: Web) -> bool {
    web.inside() && web.size() < isize::MAX as int / 16
}

/// The leading node of each cache id, settled in at most `rounds` rounds: as long as some id is not
/// led by the node that is listed last, those that are listed last take over.
pub open spec fn settled(
    plan: Seq<IRModel>,
    roots: Seq<Node>,
    picks: Map<u128, Node>,
    rounds: nat,
) -> Map<u128, Node>
    decreases rounds,
{
    let web = web_with(plan, roots, picks);
    if rounds == 0 || !listable(web) || led(web) {
        picks
    } else {
        settled(plan, roots, lasts(web), (rounds - 1) as nat)
    }
}

/// The part of `plan` that lies below `roots`.
pub open spec fn web_of(plan: Seq<IRModel>, roots: Seq<Node>) -> Web {
    web_with(plan, roots, settled(plan, roots, Map::empty(), plan.len()))
}

/// The nodes below `roots` in the order in which they are visited.
pub open spec fn traversal(plan: Seq<IRModel>, roots: Seq<Node>) -> Seq<Node> {
    listing(web_of(plan, roots))
}

proof fn lemma_last_of(web: Web, list: Seq<Node>, upto: nat, head: Node) -> (p: int)
    requires
        last_of(web, list, upto, head) != head,
    ensures
        0 <= p < upto,
        list[p] == last_of(web, list, upto, head),
        web.head(list[p]) == head,
    decreases upto,
{
    if web.head(list[upto - 1]) == head {
        upto - 1
    } else {
        lemma_last_of(web, list, (upto - 1) as nat, head)
    }
}

/// The nodes that are listed last can lead.
pub proof fn lemma_lasts(web: Web)
    requires
        woven(web),
        web.inside(),
    ensures
        well_led(web.plan, lasts(web)),
{
    let list = listing(web);
    lemma_listing(web);
    assert forall|id: u128| #[trigger] lasts(web).contains_key(id) implies lasts(web)[id]
        < web.plan.len() && caches(web.plan[lasts(web)[id] as int], id) by {
        let lead = web.leads[id];
        assert(web.opened.contains(web.leads[id]));
        assert(caches(web.plan[lead as int], id));
        if lasts(web)[id] != lead {
            let p = lemma_last_of(web, list, list.len(), lead);
            if let Plan::Cache { id: other, .. } = web.plan[list[p] as int] {
                if web.leads.contains_key(other) {
                    assert(caches(web.plan[web.leads[other] as int], other));
                }
            }
        }
    }
}

proof fn lemma_settled(
    plan: Seq<IRModel>,
    roots: Seq<Node>,
    picks: Map<u128, Node>,
    rounds: nat,
)
    requires
        plan.len() <= usize::MAX,
        well_led(plan, picks),
    ensures
        well_led(plan, settled(plan, roots, picks, rounds)),
    decreases rounds,
{
    let web = web_with(plan, roots, picks);
    if !(rounds == 0 || !listable(web) || led(web)) {
        lemma_web_with(plan, roots, picks);
        lemma_lasts(web);
        lemma_settled(plan, roots, lasts(web), (rounds - 1) as nat);
    }
}

pub proof fn lemma_woven(plan: Seq<IRModel>, roots: Seq<Node>)
    requires
        plan.len() <= usize::MAX,
    ensures
        woven(web_of(plan, roots)),
{
    lemma_settled(plan, roots, Map::empty(), plan.len());
    lemma_web_with(plan, roots, settled(plan, roots, Map::empty(), plan.len()));
}

} // verus!
