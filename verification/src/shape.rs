//! What there is to visit below the roots of a plan.

use crate::arena::{copy_nodes, Arena, Node};
use crate::ir::{IR, IRModel, Plan};
use crate::traversal::{
    children, done, expands, head_of, is_known, is_origin, last_of, lasts, led, led_until,
    lemma_expands_prefix, lemma_hops_prefix, lemma_lasts, lemma_listing, lemma_progress_room,
    lemma_progress_start, lemma_progress_step, lemma_seen_prefix, lemma_survey_step, lemma_web_with,
    listing, progress, seen, settled, survey, surveyed, traverse, web_of, web_with, well_led, width,
    with_opened, woven, Found, Web,
};
use std::collections::HashMap;
use vstd::prelude::*;

verus! {

broadcast use vstd::std_specs::hash::group_hash_axioms;

/// What a search of a plan found.
pub(crate) struct Shape {
    /// For each node whether its inputs are followed.
    pub(crate) opened: Vec<bool>,
    /// The leading node of each cache id.
    pub(crate) leads: HashMap<u128, Node>,
}

/// `shape` holds what was found below the roots of `web`.
pub(crate) open spec fn shows(shape: Shape, web: Web) -> bool {
    &&& shape.opened@.len() == web.plan.len()
    &&& forall|n: int|
        0 <= n < web.plan.len() ==> #[trigger] shape.opened@[n] == web.opened.contains(n as usize)
    &&& shape.leads@ == web.leads
}

/// Searches the plan below `roots`, where the nodes `picks` lead their cache ids.
fn search_with(roots: &[Node], ir_arena: &Arena<IR>, picks: &HashMap<u128, Node>) -> (shape: Shape)
    requires
        well_led(ir_arena.plan(), picks@),
    ensures
        shows(shape, web_with(ir_arena.plan(), roots@, picks@)),
        woven(web_with(ir_arena.plan(), roots@, picks@)),
{
    let ghost plan = ir_arena.plan();
    let len: usize = ir_arena.len();
    let mut opened: Vec<bool> = no_marks(len);
    let mut leads: HashMap<u128, Node> = HashMap::new();
    let mut stack: Vec<Node> = copy_nodes(roots);
    let ghost mut found = Found { leads: Map::empty(), opened: Set::empty() };
    let ghost mut fuel = roots@.len() + width(plan, Set::full(), plan.len());
    let ghost whole = survey(plan, picks@, roots@, found, fuel);
    proof {
        lemma_web_with(plan, roots@, picks@);
        assert(found.opened.complement() =~= Set::full());
        assert forall|i: int| 0 <= i < roots@.len() implies is_origin(
            plan,
            roots@,
            found.opened,
            #[trigger] roots@[i],
        ) by {
            assert(roots@.contains(roots@[i]));
        }
        assert(leads@ =~= found.leads);
    }
    while stack.len() > 0
        invariant
            plan == ir_arena.plan(),
            len == plan.len(),
            well_led(plan, picks@),
            surveyed(plan, roots@, stack@, found),
            survey(plan, picks@, stack@, found, fuel) == whole,
            stack@.len() + width(plan, found.opened.complement(), plan.len()) <= fuel,
            opened@.len() == len,
            forall|n: int|
                0 <= n < len ==> #[trigger] opened@[n] == found.opened.contains(n as usize),
            leads@ == found.leads,
        decreases fuel,
    {
        proof {
            lemma_survey_step(plan, picks@, roots@, stack@, found);
        }
        let ghost before = stack@;
        let node = stack.pop().unwrap();
        if node < len {
            let ir = ir_arena.get(node);
            assert(ir@ == plan[node as int]);
            let known = match ir {
                Plan::Cache { id, .. } => leads.contains_key(id),
                _ => opened[node],
            };
            assert(known == is_known(plan, found, node));
            if !known {
                let lead = head_node(ir_arena, picks, node);
                let ir = ir_arena.get(lead);
                assert(ir@ == plan[lead as int]);
                if let Plan::Cache { id, .. } = ir {
                    leads.insert(*id, lead);
                }
                opened.set(lead, true);
                ir.copy_inputs(&mut stack);
                proof {
                    found = with_opened(plan, found, lead);
                    assert(stack@ =~= before.drop_last() + plan[lead as int].inputs());
                }
            }
        }
        proof {
            fuel = (fuel - 1) as nat;
        }
    }
    Shape { opened, leads }
}

/// A mark for each node, none of them set.
pub(crate) fn no_marks(len: usize) -> (marks: Vec<bool>)
    ensures
        marks@.len() == len,
        forall|n: int| 0 <= n < len ==> !(#[trigger] marks@[n]),
{
    let mut marks: Vec<bool> = Vec::new();
    let mut n: usize = 0;
    while n < len
        invariant
            n <= len,
            marks@.len() == n,
            forall|k: int| 0 <= k < n ==> !(#[trigger] marks@[k]),
        decreases len - n,
    {
        marks.push(false);
        n = n + 1;
    }
    marks
}

/// The node that stands for `node`.
pub(crate) fn head_node(
    ir_arena: &Arena<IR>,
    leads: &HashMap<u128, Node>,
    node: Node,
) -> (head: Node)
    requires
        node < ir_arena@.len(),
    ensures
        head == head_of(ir_arena.plan(), leads@, node),
{
    let ir = ir_arena.get(node);
    assert(ir@ == ir_arena.plan()[node as int]);
    match ir {
        Plan::Cache { id, .. } => match leads.get(id) {
            Some(lead) => *lead,
            None => node,
        },
        _ => node,
    }
}

proof fn lemma_hits_len(web: Web, nodes: Seq<Node>, head: Node)
    ensures
        web.hits(nodes, head) <= nodes.len(),
    decreases nodes.len(),
{
    if nodes.len() > 0 {
        lemma_hits_len(web, nodes.drop_last(), head);
    }
}

proof fn lemma_reads_width(web: Web, nodes: Set<Node>, head: Node, upto: nat)
    ensures
        web.reads(nodes, head, upto) <= width(web.plan, nodes, upto),
    decreases upto,
{
    if upto > 0 {
        lemma_reads_width(web, nodes, head, (upto - 1) as nat);
        lemma_hits_len(web, web.plan[upto - 1].inputs(), head);
    }
}

proof fn lemma_width_mono(plan: Seq<IRModel>, nodes: Set<Node>, a: nat, b: nat)
    requires
        a <= b,
    ensures
        width(plan, nodes, a) <= width(plan, nodes, b),
    decreases b,
{
    if a < b {
        lemma_width_mono(plan, nodes, a, (b - 1) as nat);
    }
}

/// Counts each of `nodes` at the node that stands for it.
fn count_nodes(
    counts: &mut Vec<usize>,
    nodes: &[Node],
    ir_arena: &Arena<IR>,
    leads: &HashMap<u128, Node>,
    Ghost(web): Ghost<Web>,
    Ghost(limit): Ghost<nat>,
)
    requires
        woven(web),
        ir_arena.plan() == web.plan,
        leads@ == web.leads,
        old(counts)@.len() == web.plan.len(),
        forall|i: int| 0 <= i < nodes@.len() ==> (#[trigger] nodes@[i]) < web.plan.len(),
        forall|n: int| 0 <= n < web.plan.len() ==> (#[trigger] old(counts)@[n]) <= limit,
        limit + nodes@.len() <= usize::MAX,
    ensures
        final(counts)@.len() == web.plan.len(),
        forall|n: int|
            0 <= n < web.plan.len() ==> #[trigger] final(counts)@[n] == old(counts)@[n] + web.hits(
                nodes@,
                n as usize,
            ),
{
    let ghost before = counts@;
    let mut i: usize = 0;
    while i < nodes.len()
        invariant
            woven(web),
            ir_arena.plan() == web.plan,
            leads@ == web.leads,
            counts@.len() == web.plan.len(),
            before.len() == web.plan.len(),
            i <= nodes@.len(),
            forall|k: int| 0 <= k < nodes@.len() ==> (#[trigger] nodes@[k]) < web.plan.len(),
            forall|n: int| 0 <= n < web.plan.len() ==> (#[trigger] before[n]) <= limit,
            limit + nodes@.len() <= usize::MAX,
            forall|n: int|
                0 <= n < web.plan.len() ==> #[trigger] counts@[n] == before[n] + web.hits(
                    nodes@.take(i as int),
                    n as usize,
                ),
        decreases nodes@.len() - i,
    {
        let node = nodes[i];
        let head = head_node(ir_arena, leads, node);
        proof {
            assert(head < web.plan.len()) by {
                if let Plan::Cache { id, .. } = web.plan[node as int] {
                    if web.leads.contains_key(id) {
                        assert(web.opened.contains(web.leads[id]));
                    }
                }
            }
            lemma_hits_len(web, nodes@.take(i as int), head);
            assert(before[head as int] <= limit);
        }
        let count = counts[head];
        counts.set(head, count + 1);
        proof {
            let shorter = nodes@.take(i as int);
            let longer = nodes@.take(i + 1);
            assert(longer.drop_last() =~= shorter);
            assert forall|n: int| 0 <= n < web.plan.len() implies #[trigger] counts@[n] == before[n]
                + web.hits(longer, n as usize) by {
                assert(longer.last() == node);
            }
        }
        i = i + 1;
    }
    assert(nodes@.take(i as int) =~= nodes@);
}

/// How often each node is read by the nodes that are followed, itself or by a copy, and how often
/// it is used.
pub(crate) fn count_uses(
    roots: &[Node],
    ir_arena: &Arena<IR>,
    shape: &Shape,
    Ghost(web): Ghost<Web>,
) -> (counts: (Vec<usize>, Vec<usize>))
    requires
        web.plan == ir_arena.plan(),
        web.roots == roots@,
        shows(*shape, web),
        woven(web),
        web.inside(),
        web.size() <= usize::MAX,
    ensures
        counts.0@.len() == ir_arena@.len(),
        counts.1@.len() == ir_arena@.len(),
        forall|n: int|
            0 <= n < ir_arena@.len() ==> #[trigger] counts.0@[n] == web.consumers(n as usize),
        forall|n: int|
            0 <= n < ir_arena@.len() ==> #[trigger] counts.1@[n] == web.uses(n as usize),
{
    let ghost plan = ir_arena.plan();
    let len: usize = ir_arena.len();
    let mut consumers: Vec<usize> = Vec::new();
    let mut n: usize = 0;
    while n < len
        invariant
            n <= len,
            consumers@.len() == n,
            forall|k: int| 0 <= k < n ==> #[trigger] consumers@[k] == 0,
        decreases len - n,
    {
        consumers.push(0);
        n = n + 1;
    }
    let mut n: usize = 0;
    while n < len
        invariant
            plan == ir_arena.plan(),
            web.plan == plan,
            len == plan.len(),
            woven(web),
            shows(*shape, web),
            web.inside(),
            web.size() <= usize::MAX,
            n <= len,
            consumers@.len() == len,
            forall|k: int|
                0 <= k < len ==> #[trigger] consumers@[k] == web.reads(
                    web.opened,
                    k as usize,
                    n as nat,
                ),
        decreases len - n,
    {
        let ghost before = consumers@;
        if shape.opened[n] {
            let mut inputs: Vec<Node> = Vec::new();
            let ir = ir_arena.get(n);
            ir.copy_inputs(&mut inputs);
            assert(inputs@ =~= plan[n as int].inputs());
            let ghost limit = width(plan, web.opened, n as nat);
            proof {
                assert forall|k: int| 0 <= k < len implies (#[trigger] consumers@[k]) <= limit by {
                    lemma_reads_width(web, web.opened, k as usize, n as nat);
                }
                lemma_width_mono(plan, web.opened, (n + 1) as nat, plan.len());
                assert forall|i: int| 0 <= i < inputs@.len() implies (#[trigger] inputs@[i])
                    < plan.len() by {
                    assert(web.opened.contains(n));
                    assert(plan[n as int].inputs()[i] == inputs@[i]);
                }
            }
            count_nodes(
                &mut consumers,
                inputs.as_slice(),
                ir_arena,
                &shape.leads,
                Ghost(web),
                Ghost(limit),
            );
        }
        assert forall|k: int| 0 <= k < len implies #[trigger] consumers@[k] == web.reads(
            web.opened,
            k as usize,
            (n + 1) as nat,
        ) by {
            assert(before[k] == web.reads(web.opened, k as usize, n as nat));
        }
        n = n + 1;
    }
    let mut uses: Vec<usize> = copy_nodes(consumers.as_slice());
    let ghost limit = width(plan, web.opened, plan.len());
    proof {
        assert forall|k: int| 0 <= k < len implies (#[trigger] uses@[k]) <= limit by {
            assert(consumers@[k] == web.reads(web.opened, k as usize, len as nat));
            lemma_reads_width(web, web.opened, k as usize, len as nat);
        }
    }
    count_nodes(&mut uses, roots, ir_arena, &shape.leads, Ghost(web), Ghost(limit));
    assert forall|k: int| 0 <= k < len implies #[trigger] uses@[k] == web.uses(k as usize) by {
        assert(consumers@[k] == web.reads(web.opened, k as usize, len as nat));
    }
    (consumers, uses)
}

/// `left` says how often each node is still to be listed before a visit goes on from it.
pub(crate) open spec fn uses_left(web: Web, list: Seq<Node>, i: nat, left: Seq<usize>) -> bool {
    &&& left.len() == web.plan.len()
    &&& forall|n: int|
        0 <= n < web.plan.len() ==> #[trigger] left[n] == web.uses(n as usize) - seen(
            web,
            list,
            i,
            n as usize,
        ) || !web.opened.contains(n as usize)
}

/// Takes a visit of `node` off the count of the node that stands for it; returns whether it was
/// the last one.
pub(crate) fn count_visit(
    left: &mut Vec<usize>,
    head: Node,
    Ghost(web): Ghost<Web>,
    Ghost(list): Ghost<Seq<Node>>,
    Ghost(i): Ghost<nat>,
) -> (last: bool)
    requires
        woven(web),
        web.inside(),
        progress(web, list, i),
        i < list.len(),
        head == web.head(list[i as int]),
        uses_left(web, list, i, old(left)@),
    ensures
        last == expands(web, list, i as int),
        uses_left(web, list + children(web, list, i as int), i + 1, final(left)@),
{
    let ghost before = left@;
    let ghost next = list + children(web, list, i as int);
    proof {
        lemma_progress_step(web, list, i);
        assert(web.opened.contains(web.head(list[i as int])));
        assert(list =~= next.take(list.len() as int));
        assert(before[head as int] == web.uses(head) - seen(web, list, i, head));
    }
    let count = left[head] - 1;
    left.set(head, count);
    assert forall|n: int| 0 <= n < web.plan.len() implies #[trigger] left@[n] == web.uses(
        n as usize,
    ) - seen(web, next, i + 1, n as usize) || !web.opened.contains(n as usize) by {
        lemma_seen_prefix(web, list, next, i + 1, n as usize);
        assert(before[n] == web.uses(n as usize) - seen(web, list, i, n as usize)
            || !web.opened.contains(n as usize));
    }
    count == 0
}

/// The nodes in visiting order, for each node of the plan whether some visit goes on from it, and
/// whether the node that is listed last leads each cache id.
#[verifier::rlimit(30)]
pub(crate) fn list_nodes(
    roots: &[Node],
    ir_arena: &Arena<IR>,
    shape: &Shape,
    uses: Vec<usize>,
    Ghost(web): Ghost<Web>,
) -> (nodes: (Vec<Node>, Vec<bool>, bool))
    requires
        web.plan == ir_arena.plan(),
        web.roots == roots@,
        shows(*shape, web),
        woven(web),
        web.inside(),
        web.size() <= usize::MAX,
        uses@.len() == ir_arena@.len(),
        forall|n: int|
            0 <= n < ir_arena@.len() ==> #[trigger] uses@[n] == web.uses(n as usize),
    ensures
        nodes.0@ == listing(web),
        nodes.1@.len() == ir_arena@.len(),
        forall|n: int|
            0 <= n < ir_arena@.len() ==> #[trigger] nodes.1@[n] == done(
                web,
                nodes.0@,
                nodes.0@.len(),
            ).contains(n as usize),
        nodes.2 == led(web),
{
    let ghost plan = ir_arena.plan();
    let ghost whole = listing(web);
    let ghost size = web.size();
    let mut left = uses;
    let mut nodes: Vec<Node> = copy_nodes(roots);
    let mut went_on: Vec<bool> = no_marks(ir_arena.len());
    let mut all_led = true;
    proof {
        lemma_progress_start(web);
    }
    let mut i: usize = 0;
    while i < nodes.len()
        invariant
            plan == ir_arena.plan(),
            web.plan == plan,
            woven(web),
            web.inside(),
            shows(*shape, web),
            whole == listing(web),
            size == web.size(),
            size <= usize::MAX,
            progress(web, nodes@, i as nat),
            i <= size,
            traverse(web, nodes@, i as nat, (size - i) as nat) == whole,
            uses_left(web, nodes@, i as nat, left@),
            went_on@.len() == plan.len(),
            forall|n: int|
                0 <= n < plan.len() ==> #[trigger] went_on@[n] == done(
                    web,
                    nodes@,
                    i as nat,
                ).contains(n as usize),
            all_led == led_until(web, nodes@, i as nat),
        decreases size - i,
    {
        let ghost list = nodes@;
        let ghost next = list + children(web, list, i as int);
        let ghost before = went_on@;
        proof {
            lemma_progress_room(web, list, i as nat);
            lemma_progress_step(web, list, i as nat);
            assert(web.opened.contains(web.head(list[i as int])));
            assert(list =~= next.take(list.len() as int));
            lemma_hops_prefix(web, list, next, i as nat);
            lemma_expands_prefix(web, list, next, i as int);
        }
        let node = nodes[i];
        let head = head_node(ir_arena, &shape.leads, node);
        let last = count_visit(&mut left, head, Ghost(web), Ghost(list), Ghost(i as nat));
        if last {
            let ir = ir_arena.get(head);
            assert(ir@ == plan[head as int]);
            ir.copy_inputs(&mut nodes);
            went_on.set(head, true);
            all_led = all_led && head == node;
        }
        assert(nodes@ =~= next);
        assert forall|n: int| 0 <= n < plan.len() implies #[trigger] went_on@[n] == done(
            web,
            nodes@,
            (i + 1) as nat,
        ).contains(n as usize) by {
            assert(before[n] == done(web, list, i as nat).contains(n as usize));
        }
        proof {
            lemma_led_step(web, list, next, i as nat);
        }
        i = i + 1;
    }
    (nodes, went_on, all_led)
}

/// Whether the first visits are led by the nodes that are listed last is settled by the list up to
/// them.
proof fn lemma_led_step(web: Web, list: Seq<Node>, next: Seq<Node>, i: nat)
    requires
        i < list.len() <= next.len(),
        list == next.take(list.len() as int),
    ensures
        led_until(web, next, i + 1) <==> led_until(web, list, i) && (expands(web, list, i as int)
            ==> web.head(list[i as int]) == list[i as int]),
{
    assert forall|p: int| 0 <= p <= i implies list[p] == next[p] && expands(web, list, p)
        == expands(web, next, p) by {
        lemma_expands_prefix(web, list, next, p);
    }
    if led_until(web, next, i + 1) {
        assert forall|p: int| 0 <= p < i && #[trigger] expands(web, list, p) implies web.head(
            list[p],
        ) == list[p] by {
            assert(expands(web, next, p));
        }
        assert(expands(web, list, i as int) ==> expands(web, next, i as int));
    }
}

/// For each node the last one on the list that it stands for; the node itself if there is none.
fn find_last(
    nodes: &Vec<Node>,
    ir_arena: &Arena<IR>,
    shape: &Shape,
    Ghost(web): Ghost<Web>,
) -> (lasts: Vec<Node>)
    requires
        web.plan == ir_arena.plan(),
        shows(*shape, web),
        woven(web),
        forall|p: int|
            0 <= p < nodes@.len() ==> (#[trigger] nodes@[p]) < web.plan.len()
                && web.opened.contains(web.head(nodes@[p])),
    ensures
        lasts@.len() == ir_arena@.len(),
        forall|n: int|
            0 <= n < ir_arena@.len() ==> #[trigger] lasts@[n] == last_of(
                web,
                nodes@,
                nodes@.len(),
                n as usize,
            ) && lasts@[n] < ir_arena@.len(),
{
    let len: usize = ir_arena.len();
    let mut lasts: Vec<Node> = Vec::new();
    let mut n: usize = 0;
    while n < len
        invariant
            n <= len,
            lasts@.len() == n,
            forall|k: int| 0 <= k < n ==> #[trigger] lasts@[k] == k,
        decreases len - n,
    {
        lasts.push(n);
        n = n + 1;
    }
    let mut i: usize = 0;
    while i < nodes.len()
        invariant
            web.plan == ir_arena.plan(),
            len == web.plan.len(),
            shows(*shape, web),
            woven(web),
            forall|p: int|
                0 <= p < nodes@.len() ==> (#[trigger] nodes@[p]) < web.plan.len()
                    && web.opened.contains(web.head(nodes@[p])),
            i <= nodes@.len(),
            lasts@.len() == len,
            forall|n: int|
                0 <= n < len ==> #[trigger] lasts@[n] == last_of(
                    web,
                    nodes@,
                    i as nat,
                    n as usize,
                ) && lasts@[n] < len,
        decreases nodes@.len() - i,
    {
        let ghost before = lasts@;
        let node = nodes[i];
        let head = head_node(ir_arena, &shape.leads, node);
        assert(web.opened.contains(web.head(nodes@[i as int])));
        lasts.set(head, node);
        assert forall|n: int| 0 <= n < len implies #[trigger] lasts@[n] == last_of(
            web,
            nodes@,
            (i + 1) as nat,
            n as usize,
        ) && lasts@[n] < len by {
            assert(before[n] == last_of(web, nodes@, i as nat, n as usize));
        }
        i = i + 1;
    }
    lasts
}

/// How many nodes will be listed.
pub(crate) fn count_size(
    roots: &[Node],
    ir_arena: &Arena<IR>,
    shape: &Shape,
    Ghost(web): Ghost<Web>,
) -> (size: usize)
    requires
        web.plan == ir_arena.plan(),
        web.roots == roots@,
        shows(*shape, web),
        web.size() <= usize::MAX,
    ensures
        size == web.size(),
{
    let ghost plan = ir_arena.plan();
    let len: usize = ir_arena.len();
    let mut size: usize = roots.len();
    let mut n: usize = 0;
    while n < len
        invariant
            plan == ir_arena.plan(),
            web.plan == plan,
            len == plan.len(),
            shows(*shape, web),
            web.size() <= usize::MAX,
            n <= len,
            size == roots@.len() + width(plan, web.opened, n as nat),
            web.roots == roots@,
        decreases len - n,
    {
        if shape.opened[n] {
            let mut inputs: Vec<Node> = Vec::new();
            let ir = ir_arena.get(n);
            ir.copy_inputs(&mut inputs);
            assert(inputs@ =~= plan[n as int].inputs());
            proof {
                lemma_width_mono(plan, web.opened, (n + 1) as nat, plan.len());
            }
            size = size + inputs.len();
        }
        n = n + 1;
    }
    size
}

/// Whether all of `nodes` are nodes of a plan of `len` nodes.
fn are_below(nodes: &[Node], len: usize) -> (all: bool)
    ensures
        all == forall|i: int| 0 <= i < nodes@.len() ==> (#[trigger] nodes@[i]) < len,
{
    let mut i: usize = 0;
    while i < nodes.len()
        invariant
            i <= nodes@.len(),
            forall|k: int| 0 <= k < i ==> (#[trigger] nodes@[k]) < len,
        decreases nodes@.len() - i,
    {
        if nodes[i] >= len {
            return false;
        }
        i = i + 1;
    }
    true
}

/// Whether all roots, and all inputs that are followed, are nodes of the plan.
pub(crate) fn is_inside(
    roots: &[Node],
    ir_arena: &Arena<IR>,
    shape: &Shape,
    Ghost(web): Ghost<Web>,
) -> (inside: bool)
    requires
        web.plan == ir_arena.plan(),
        web.roots == roots@,
        shows(*shape, web),
        woven(web),
    ensures
        inside == web.inside(),
{
    let ghost plan = ir_arena.plan();
    let len: usize = ir_arena.len();
    if !are_below(roots, len) {
        proof {
            let i = choose|i: int| 0 <= i < roots@.len() && (#[trigger] roots@[i]) >= len;
            assert(web.roots[i] >= plan.len());
        }
        return false;
    }
    let mut n: usize = 0;
    while n < len
        invariant
            plan == ir_arena.plan(),
            web.plan == plan,
            len == plan.len(),
            shows(*shape, web),
            n <= len,
            forall|node: Node, j: int|
                web.opened.contains(node) && node < n && 0 <= j < plan[node as int].inputs().len()
                    ==> (#[trigger] plan[node as int].inputs()[j]) < len,
        decreases len - n,
    {
        if shape.opened[n] {
            let mut inputs: Vec<Node> = Vec::new();
            let ir = ir_arena.get(n);
            ir.copy_inputs(&mut inputs);
            assert(inputs@ =~= plan[n as int].inputs());
            if !are_below(inputs.as_slice(), len) {
                assert(web.opened.contains(n));
                return false;
            }
        }
        n = n + 1;
    }
    true
}

/// Whether there are fewer than `cap` roots and inputs that are followed.
pub(crate) fn is_small(
    roots: &[Node],
    ir_arena: &Arena<IR>,
    shape: &Shape,
    cap: usize,
    Ghost(web): Ghost<Web>,
) -> (small: bool)
    requires
        web.plan == ir_arena.plan(),
        web.roots == roots@,
        shows(*shape, web),
    ensures
        small == (web.size() < cap),
{
    let ghost plan = ir_arena.plan();
    let len: usize = ir_arena.len();
    if roots.len() >= cap {
        return false;
    }
    let mut size: usize = roots.len();
    let mut n: usize = 0;
    while n < len
        invariant
            plan == ir_arena.plan(),
            web.plan == plan,
            web.roots == roots@,
            len == plan.len(),
            shows(*shape, web),
            n <= len,
            size == roots@.len() + width(plan, web.opened, n as nat),
            size < cap,
        decreases len - n,
    {
        if shape.opened[n] {
            let mut inputs: Vec<Node> = Vec::new();
            let ir = ir_arena.get(n);
            ir.copy_inputs(&mut inputs);
            assert(inputs@ =~= plan[n as int].inputs());
            if inputs.len() >= cap - size {
                proof {
                    lemma_width_mono(plan, web.opened, (n + 1) as nat, plan.len());
                }
                return false;
            }
            size = size + inputs.len();
        }
        n = n + 1;
    }
    true
}

/// For each cache id the node that is listed last.
fn pick_last(
    nodes: &Vec<Node>,
    ir_arena: &Arena<IR>,
    shape: &Shape,
    Ghost(web): Ghost<Web>,
) -> (picks: HashMap<u128, Node>)
    requires
        web.plan == ir_arena.plan(),
        shows(*shape, web),
        woven(web),
        web.inside(),
        nodes@ == listing(web),
    ensures
        picks@ == lasts(web),
{
    let ghost plan = ir_arena.plan();
    let len: usize = ir_arena.len();
    proof {
        lemma_listing(web);
    }
    let last_nodes = find_last(nodes, ir_arena, shape, Ghost(web));
    let mut picks: HashMap<u128, Node> = HashMap::new();
    let mut n: usize = 0;
    while n < len
        invariant
            plan == ir_arena.plan(),
            web.plan == plan,
            len == plan.len(),
            woven(web),
            shows(*shape, web),
            nodes@ == listing(web),
            last_nodes@.len() == len,
            forall|k: int|
                0 <= k < len ==> #[trigger] last_nodes@[k] == last_of(
                    web,
                    nodes@,
                    nodes@.len(),
                    k as usize,
                ),
            n <= len,
            forall|id: u128|
                #![trigger picks@.contains_key(id)]
                picks@.contains_key(id) <==> web.leads.contains_key(id) && web.leads[id] < n,
            forall|id: u128| #[trigger]
                picks@.contains_key(id) ==> picks@[id] == lasts(web)[id],
        decreases len - n,
    {
        if shape.opened[n] {
            assert(web.opened.contains(n));
            let ir = ir_arena.get(n);
            assert(ir@ == plan[n as int]);
            if let Plan::Cache { id, .. } = ir {
                picks.insert(*id, last_nodes[n]);
            }
        }
        n = n + 1;
    }
    assert(picks@ =~= lasts(web));
    picks
}

/// Searches the plan below `roots` and settles which nodes lead.
pub(crate) fn search(roots: &[Node], ir_arena: &Arena<IR>) -> (shape: Shape)
    ensures
        shows(shape, web_of(ir_arena.plan(), roots@)),
        woven(web_of(ir_arena.plan(), roots@)),
{
    let ghost plan = ir_arena.plan();
    let cap: usize = (isize::MAX / 16) as usize;
    let mut picks: HashMap<u128, Node> = HashMap::new();
    let mut rounds: usize = ir_arena.len();
    assert(picks@ =~= Map::empty());
    loop
        invariant
            plan == ir_arena.plan(),
            cap == isize::MAX as int / 16,
            well_led(plan, picks@),
            web_of(plan, roots@) == web_with(
                plan,
                roots@,
                settled(plan, roots@, picks@, rounds as nat),
            ),
        decreases rounds,
    {
        let ghost web = web_with(plan, roots@, picks@);
        let shape = search_with(roots, ir_arena, &picks);
        if rounds == 0 || !is_inside(roots, ir_arena, &shape, Ghost(web)) || !is_small(
            roots,
            ir_arena,
            &shape,
            cap,
            Ghost(web),
        ) {
            return shape;
        }
        let (_, uses) = count_uses(roots, ir_arena, &shape, Ghost(web));
        let (nodes, _, all_led) = list_nodes(roots, ir_arena, &shape, uses, Ghost(web));
        if all_led {
            return shape;
        }
        proof {
            lemma_lasts(web);
        }
        picks = pick_last(&nodes, ir_arena, &shape, Ghost(web));
        rounds = rounds - 1;
    }
}

} // verus!
