//! The graph of a plan: its nodes in visiting order and the edges between them.

use crate::arena::{copy_nodes, Arena, Node};
use crate::edge::{Edge, EdgeKey, EdgesMap};
use crate::ir::{IR, IRModel, Plan};
use crate::shape::{count_size, count_uses, count_visit, head_node, search, shows, uses_left, Shape};
use crate::traversal::{
    caches, children, complete, done, expands, hop_consumer, hops, is_copy, is_origin, last_at, led,
    lemma_complete, lemma_done_at, lemma_expands_once, lemma_expands_prefix, lemma_hop_at,
    lemma_hops_prefix, lemma_last_at, lemma_listing, lemma_progress_room, lemma_progress_start,
    lemma_progress_step, listable, listing, progress, traversal, traverse, web_of, width, woven,
    Hop, Web,
};
use std::collections::HashMap;
use vstd::prelude::*;

verus! {

broadcast use vstd::std_specs::hash::group_hash_axioms;

/// The edges around one node.
#[derive(Debug)]
pub struct IRNodeEdgeKeys {
    /// One edge for each input, in the order of the inputs; none if the node is a cache and another
    /// node with its id leads.
    pub in_edges: Vec<EdgeKey>,
    /// One edge for each use of this node as an input.
    pub out_edges: Vec<EdgeKey>,
    /// The consumer at the other end of each out edge.
    pub out_nodes: Vec<Node>,
}

/// The mathematical content of an [`IRNodeEdgeKeys`].
#[verifier::ext_equal]
pub struct EdgeKeysModel {
    pub in_edges: Seq<EdgeKey>,
    pub out_edges: Seq<EdgeKey>,
    pub out_nodes: Seq<Node>,
}

impl EdgeKeysModel {
    /// A node without any edges.
    pub open spec fn bare() -> Self {
        EdgeKeysModel { in_edges: Seq::empty(), out_edges: Seq::empty(), out_nodes: Seq::empty() }
    }
}

impl View for IRNodeEdgeKeys {
    type V = EdgeKeysModel;

    open spec fn view(&self) -> EdgeKeysModel {
        EdgeKeysModel {
            in_edges: self.in_edges@,
            out_edges: self.out_edges@,
            out_nodes: self.out_nodes@,
        }
    }
}

impl Default for IRNodeEdgeKeys {
    fn default() -> (keys: Self)
        ensures
            keys@ == EdgeKeysModel::bare(),
    {
        let keys = IRNodeEdgeKeys {
            in_edges: Vec::new(),
            out_edges: Vec::new(),
            out_nodes: Vec::new(),
        };
        keys
    }
}

/// The edges around each node.
pub type NodeEdges = HashMap<Node, IRNodeEdgeKeys>;

/// The mathematical content of a [`NodeEdges`].
pub open spec fn links_of(map: NodeEdges) -> Map<Node, EdgeKeysModel> {
    map@.map_values(|keys: IRNodeEdgeKeys| keys@)
}

/// The edges around `node`; none if it has no entry.
pub open spec fn entry_of(links: Map<Node, EdgeKeysModel>, node: Node) -> EdgeKeysModel {
    if links.contains_key(node) {
        links[node]
    } else {
        EdgeKeysModel::bare()
    }
}

/// Records that `consumer` reads from `input` over the edge `key`.
fn add_consumer(map: &mut NodeEdges, input: Node, key: EdgeKey, consumer: Node)
    ensures
        links_of(*final(map)) == links_of(*old(map)).insert(
            input,
            (EdgeKeysModel {
                in_edges: entry_of(links_of(*old(map)), input).in_edges,
                out_edges: entry_of(links_of(*old(map)), input).out_edges.push(key),
                out_nodes: entry_of(links_of(*old(map)), input).out_nodes.push(consumer),
            }),
        ),
{
    let entry = map.entry(input).or_insert(IRNodeEdgeKeys::default());
    entry.out_edges.push(key);
    entry.out_nodes.push(consumer);
}

/// Records the edges over which `node` reads its inputs.
fn set_in_edges(map: &mut NodeEdges, node: Node, in_edges: Vec<EdgeKey>)
    requires
        entry_of(links_of(*old(map)), node).in_edges.len() == 0,
    ensures
        links_of(*final(map)) == links_of(*old(map)).insert(
            node,
            (EdgeKeysModel {
                in_edges: in_edges@,
                out_edges: entry_of(links_of(*old(map)), node).out_edges,
                out_nodes: entry_of(links_of(*old(map)), node).out_nodes,
            }),
        ),
{
    let entry = map.entry(node).or_insert(IRNodeEdgeKeys::default());
    entry.in_edges = in_edges;
}

////////////////////////////////////////////////////////////////////////////////////////////////
// The graph
////////////////////////////////////////////////////////////////////////////////////////////////

/// The edges over which `node` reads its inputs, as the first `upto` visits set them up.
///
/// The step number `q` of the traversal gets the edge `keys[q]`.
pub open spec fn in_edges_of(
    web: Web,
    list: Seq<Node>,
    keys: Seq<EdgeKey>,
    node: Node,
    upto: nat,
) -> Seq<EdgeKey>
    decreases upto,
{
    if upto == 0 {
        Seq::empty()
    } else if web.head(list[upto - 1]) == node && expands(web, list, upto - 1) {
        keys.subrange(
            hops(web, list, (upto - 1) as nat).len() as int,
            hops(web, list, upto).len() as int,
        )
    } else {
        in_edges_of(web, list, keys, node, (upto - 1) as nat)
    }
}

/// The edges of those of the first `upto` steps that arrive at `node`.
pub open spec fn out_edges_of(
    roots: Seq<Node>,
    list: Seq<Node>,
    keys: Seq<EdgeKey>,
    node: Node,
    upto: nat,
) -> Seq<EdgeKey>
    decreases upto,
{
    if upto == 0 {
        Seq::empty()
    } else {
        let before = out_edges_of(roots, list, keys, node, (upto - 1) as nat);
        if list[roots.len() + upto - 1] == node {
            before.push(keys[upto - 1])
        } else {
            before
        }
    }
}

/// The consumers from which those of the first `upto` steps come that arrive at `node`.
///
/// The step number `q` of the traversal comes from `froms[q]`.
pub open spec fn out_nodes_of(
    roots: Seq<Node>,
    list: Seq<Node>,
    froms: Seq<Node>,
    node: Node,
    upto: nat,
) -> Seq<Node>
    decreases upto,
{
    if upto == 0 {
        Seq::empty()
    } else {
        let before = out_nodes_of(roots, list, froms, node, (upto - 1) as nat);
        if list[roots.len() + upto - 1] == node {
            before.push(froms[upto - 1])
        } else {
            before
        }
    }
}

/// The nodes that the first `upto` visits take their steps from.
pub open spec fn froms(web: Web, list: Seq<Node>, upto: nat) -> Seq<Node> {
    hops(web, list, upto).map_values(|hop: Hop| hop_consumer(web, list, hop))
}

/// Whether `node` is known once the visits before position `i` are done: it was visited, some step
/// arrived at it, or a visit went on to its inputs.
pub open spec fn entered(web: Web, list: Seq<Node>, i: nat, node: Node) -> bool {
    done(web, list, i).contains(node) || exists|p: int|
        0 <= p < list.len() && (p < i || web.roots.len() <= p) && #[trigger] list[p] == node
}

/// `links` describes the edges of the visits before position `i`.
pub open spec fn described(
    web: Web,
    list: Seq<Node>,
    i: nat,
    keys: Seq<EdgeKey>,
    links: Map<Node, EdgeKeysModel>,
) -> bool {
    &&& keys.len() == hops(web, list, i).len()
    &&& keys.no_duplicates()
    &&& forall|node: Node|
        #![trigger entry_of(links, node)]
        entry_of(links, node) == (EdgeKeysModel {
            in_edges: in_edges_of(web, list, keys, node, i),
            out_edges: out_edges_of(web.roots, list, keys, node, keys.len()),
            out_nodes: out_nodes_of(web.roots, list, froms(web, list, i), node, keys.len()),
        })
}

/// All of `keys`, and nothing else, is in `edges`, and every edge is ordered.
pub open spec fn all_ordered(keys: Seq<EdgeKey>, edges: Map<EdgeKey, Edge>) -> bool {
    &&& edges.dom() == keys.to_set()
    &&& forall|key: EdgeKey| #[trigger] edges.contains_key(key) ==> edges[key] == Edge::Ordered
}

/// `links` holds the nodes that are known once the visits before position `i` are done.
pub open spec fn covered(
    web: Web,
    list: Seq<Node>,
    i: nat,
    links: Map<Node, EdgeKeysModel>,
) -> bool {
    forall|node: Node| #[trigger] links.contains_key(node) <==> entered(web, list, i, node)
}

/// `links` and `edges` are the graph of the plan, with every edge still ordered. The step number
/// `q` of the traversal has the edge `keys[q]`.
pub open spec fn fresh_graph(
    web: Web,
    keys: Seq<EdgeKey>,
    links: Map<Node, EdgeKeysModel>,
    edges: Map<EdgeKey, Edge>,
) -> bool {
    let list = listing(web);
    &&& described(web, list, list.len(), keys, links)
    &&& covered(web, list, list.len(), links)
    &&& all_ordered(keys, edges)
}

/// Nodes that are no caches and have inputs are used once.
pub open spec fn single_use(web: Web) -> bool {
    forall|node: Node|
        web.opened.contains(node) && !(web.plan[node as int] is Cache)
            && web.plan[node as int].inputs().len() > 0 ==> #[trigger] web.uses(node) <= 1
}

/// The plan below the roots of `web` has a graph, and the graph fits into memory.
///
/// The bounds are those of the storage of the edges: how much of it can be asked for at once, and
/// how many slots it can count. That each cache id is led by the node that is listed last cannot
/// fail unless a cache lies below one with its id.
pub open spec fn drawable(web: Web) -> bool {
    &&& listable(web)
    &&& led(web)
    &&& web.acyclic()
    &&& single_use(web)
    &&& width(web.plan, web.opened, web.plan.len()) < u32::MAX
}

/// The plan below `roots` has a graph, and the graph fits into memory.
pub open spec fn has_graph(plan: Seq<IRModel>, roots: Seq<Node>) -> bool {
    drawable(web_of(plan, roots))
}

/// `path` leads down from a root. From a copy of a cache it goes on where the cache does.
pub open spec fn is_path(web: Web, path: Seq<Node>) -> bool {
    &&& path.len() > 0
    &&& web.roots.contains(path[0])
    &&& forall|k: int|
        0 <= k < path.len() - 1 ==> web.below(#[trigger] path[k]).contains(path[k + 1])
}

/// Some path leads down from a root to `node`.
pub open spec fn is_below(web: Web, node: Node) -> bool {
    exists|path: Seq<Node>| #[trigger] is_path(web, path) && path.last() == node
}

/// `path` leads down from a root, from each node to one of its inputs.
pub open spec fn is_descent(plan: Seq<IRModel>, roots: Seq<Node>, path: Seq<Node>) -> bool {
    &&& path.len() > 0
    &&& roots.contains(path[0])
    &&& forall|k: int|
        0 <= k < path.len() - 1 ==> plan[#[trigger] path[k] as int].inputs().contains(path[k + 1])
}

/// Some path of inputs leads down from a root to `node`.
pub open spec fn reachable(plan: Seq<IRModel>, roots: Seq<Node>, node: Node) -> bool {
    exists|path: Seq<Node>| #[trigger] is_descent(plan, roots, path) && path.last() == node
}

/// Cache nodes that share an id read the same input.
pub open spec fn caches_agree(plan: Seq<IRModel>) -> bool {
    forall|a: int, b: int, id: u128|
        0 <= a < plan.len() && 0 <= b < plan.len() && #[trigger] caches(plan[a], id)
            && #[trigger] caches(plan[b], id) ==> plan[a].inputs() == plan[b].inputs()
}

proof fn lemma_in_edges_prefix(
    web: Web,
    list: Seq<Node>,
    longer: Seq<Node>,
    keys: Seq<EdgeKey>,
    more: Seq<EdgeKey>,
    node: Node,
    upto: nat,
)
    requires
        upto <= list.len() <= longer.len(),
        list == longer.take(list.len() as int),
        hops(web, list, upto).len() <= keys.len(),
    ensures
        in_edges_of(web, list, keys, node, upto) == in_edges_of(
            web,
            longer,
            keys + more,
            node,
            upto,
        ),
    decreases upto,
{
    if upto > 0 {
        lemma_expands_prefix(web, list, longer, upto - 1);
        lemma_hops_prefix(web, list, longer, upto);
        lemma_hops_prefix(web, list, longer, (upto - 1) as nat);
        lemma_in_edges_prefix(web, list, longer, keys, more, node, (upto - 1) as nat);
    }
}

proof fn lemma_out_prefix(
    roots: Seq<Node>,
    list: Seq<Node>,
    longer: Seq<Node>,
    keys: Seq<EdgeKey>,
    more: Seq<EdgeKey>,
    froms: Seq<Node>,
    further: Seq<Node>,
    node: Node,
    upto: nat,
)
    requires
        list.len() <= longer.len(),
        list == longer.take(list.len() as int),
        roots.len() + upto <= list.len(),
        upto <= keys.len(),
        upto <= froms.len(),
    ensures
        out_edges_of(roots, list, keys, node, upto) == out_edges_of(
            roots,
            longer,
            keys + more,
            node,
            upto,
        ),
        out_nodes_of(roots, list, froms, node, upto) == out_nodes_of(
            roots,
            longer,
            froms + further,
            node,
            upto,
        ),
    decreases upto,
{
    if upto > 0 {
        lemma_out_prefix(
            roots,
            list,
            longer,
            keys,
            more,
            froms,
            further,
            node,
            (upto - 1) as nat,
        );
    }
}

/// A node that has edges to its inputs was visited on to them.
pub proof fn lemma_in_edges_visit(
    web: Web,
    list: Seq<Node>,
    keys: Seq<EdgeKey>,
    node: Node,
    upto: nat,
) -> (p: int)
    requires
        in_edges_of(web, list, keys, node, upto).len() > 0,
        upto <= list.len(),
        hops(web, list, upto).len() <= keys.len(),
    ensures
        0 <= p < upto,
        web.head(list[p]) == node,
        expands(web, list, p),
        web.plan[node as int].inputs().len() > 0,
        in_edges_of(web, list, keys, node, upto) == keys.subrange(
            hops(web, list, p as nat).len() as int,
            hops(web, list, (p + 1) as nat).len() as int,
        ),
    decreases upto,
{
    if web.head(list[upto - 1]) == node && expands(web, list, upto - 1) {
        upto - 1
    } else {
        lemma_in_edges_visit(web, list, keys, node, (upto - 1) as nat)
    }
}

/// Adds `count` ordered edges.
fn open_edges(all_edges_map: &mut EdgesMap, count: usize) -> (keys: Vec<EdgeKey>)
    requires
        old(all_edges_map)@.dom().finite(),
        old(all_edges_map)@.len() + count < u32::MAX,
        old(all_edges_map)@.len() + count <= isize::MAX as int / 16,
    ensures
        keys@.len() == count,
        keys@.no_duplicates(),
        forall|i: int|
            0 <= i < count ==> !old(all_edges_map)@.contains_key(#[trigger] keys@[i]),
        final(all_edges_map)@.dom() == old(all_edges_map)@.dom() + keys@.to_set(),
        final(all_edges_map)@.dom().finite(),
        final(all_edges_map)@.len() == old(all_edges_map)@.len() + count,
        forall|key: EdgeKey|
            old(all_edges_map)@.contains_key(key) ==> #[trigger] final(all_edges_map)@[key] == old(
                all_edges_map,
            )@[key],
        forall|i: int|
            0 <= i < count ==> final(all_edges_map)@[#[trigger] keys@[i]] == Edge::Ordered,
{
    let mut keys: Vec<EdgeKey> = Vec::new();
    let ghost before = all_edges_map@;
    while keys.len() < count
        invariant
            before.len() + count < u32::MAX,
            before.len() + count <= isize::MAX as int / 16,
            keys@.len() <= count,
            keys@.no_duplicates(),
            forall|i: int| 0 <= i < keys@.len() ==> !before.contains_key(#[trigger] keys@[i]),
            all_edges_map@.dom() == before.dom() + keys@.to_set(),
            all_edges_map@.dom().finite(),
            all_edges_map@.len() == before.len() + keys@.len(),
            forall|key: EdgeKey|
                before.contains_key(key) ==> #[trigger] all_edges_map@[key] == before[key],
            forall|i: int|
                0 <= i < keys@.len() ==> all_edges_map@[#[trigger] keys@[i]] == Edge::Ordered,
        decreases count - keys@.len(),
    {
        let ghost earlier = keys@;
        let key = all_edges_map.insert(Edge::default());
        keys.push(key);
        proof {
            assert forall|k: EdgeKey| keys@.to_set().contains(k) <==> (earlier.to_set().contains(k)
                || k == key) by {
                if earlier.contains(k) {
                    let i = choose|i: int| 0 <= i < earlier.len() && earlier[i] == k;
                    assert(keys@[i] == k);
                }
                assert(keys@[earlier.len() as int] == key);
            }
        }
    }
    keys
}

/// Records `consumer` with each of the nodes from position `inputs_start_idx` on, over the edges
/// `in_edges`.
fn connect_inputs(
    ir_node_to_edges_map: &mut NodeEdges,
    ir_nodes_stack: &Vec<Node>,
    inputs_start_idx: usize,
    consumer: Node,
    in_edges: &Vec<EdgeKey>,
    Ghost(roots): Ghost<Seq<Node>>,
    Ghost(grown): Ghost<Seq<EdgeKey>>,
    Ghost(all): Ghost<Seq<Node>>,
)
    requires
        roots.len() <= inputs_start_idx,
        ir_nodes_stack@.len() == inputs_start_idx + in_edges@.len(),
        grown.len() == all.len(),
        roots.len() + grown.len() == ir_nodes_stack@.len(),
        grown.skip(inputs_start_idx - roots.len()) == in_edges@,
        forall|q: int|
            inputs_start_idx - roots.len() <= q < all.len() ==> #[trigger] all[q] == consumer,
        forall|node: Node|
            #![trigger entry_of(links_of(*old(ir_node_to_edges_map)), node)]
            {
                let before = (inputs_start_idx - roots.len()) as nat;
                let entry = entry_of(links_of(*old(ir_node_to_edges_map)), node);
                &&& entry.out_edges == out_edges_of(roots, ir_nodes_stack@, grown, node, before)
                &&& entry.out_nodes == out_nodes_of(roots, ir_nodes_stack@, all, node, before)
            },
    ensures
        forall|node: Node| #[trigger]
            links_of(*final(ir_node_to_edges_map)).contains_key(node) <==> (links_of(
                *old(ir_node_to_edges_map),
            ).contains_key(node) || exists|p: int|
                inputs_start_idx <= p < ir_nodes_stack@.len() && #[trigger] ir_nodes_stack@[p]
                    == node),
        forall|node: Node|
            #![trigger entry_of(links_of(*final(ir_node_to_edges_map)), node)]
            entry_of(links_of(*final(ir_node_to_edges_map)), node) == (EdgeKeysModel {
                in_edges: entry_of(links_of(*old(ir_node_to_edges_map)), node).in_edges,
                out_edges: out_edges_of(roots, ir_nodes_stack@, grown, node, grown.len()),
                out_nodes: out_nodes_of(roots, ir_nodes_stack@, all, node, all.len()),
            }),
{
    let ghost links = links_of(*ir_node_to_edges_map);
    let ghost next = ir_nodes_stack@;
    let ghost before = (inputs_start_idx - roots.len()) as nat;
    let num_inputs = in_edges.len();
    assert(inputs_start_idx + num_inputs == ir_nodes_stack.len());
    let mut k: usize = 0;
    while k < num_inputs
        invariant
            k <= num_inputs,
            in_edges@.len() == num_inputs,
            inputs_start_idx == roots.len() + before,
            ir_nodes_stack@ == next,
            next.len() == inputs_start_idx + num_inputs,
            inputs_start_idx + num_inputs <= usize::MAX,
            grown.len() == all.len(),
            roots.len() + grown.len() == next.len(),
            grown.skip(before as int) == in_edges@,
            forall|q: int|
                before <= q < all.len() ==> #[trigger] all[q] == consumer,
            forall|node: Node| #[trigger]
                links_of(*ir_node_to_edges_map).contains_key(node) <==> (links.contains_key(node)
                    || exists|p: int|
                    inputs_start_idx <= p < inputs_start_idx + k && #[trigger] next[p] == node),
            forall|node: Node|
                #![trigger entry_of(links_of(*ir_node_to_edges_map), node)]
                entry_of(links_of(*ir_node_to_edges_map), node) == (EdgeKeysModel {
                    in_edges: entry_of(links, node).in_edges,
                    out_edges: out_edges_of(roots, next, grown, node, (before + k) as nat),
                    out_nodes: out_nodes_of(roots, next, all, node, (before + k) as nat),
                }),
        decreases num_inputs - k,
    {
        let ghost held = links_of(*ir_node_to_edges_map);
        let input_node = ir_nodes_stack[k + inputs_start_idx];
        add_consumer(ir_node_to_edges_map, input_node, in_edges[k], consumer);
        proof {
            let now = links_of(*ir_node_to_edges_map);
            let q = before + k;
            assert forall|node: Node|
                #![trigger entry_of(now, node)]
                entry_of(now, node) == (EdgeKeysModel {
                    in_edges: entry_of(links, node).in_edges,
                    out_edges: out_edges_of(roots, next, grown, node, (q + 1) as nat),
                    out_nodes: out_nodes_of(roots, next, all, node, (q + 1) as nat),
                }) by {
                assert(entry_of(held, node).in_edges == entry_of(links, node).in_edges);
            }
        }
        k = k + 1;
    }
}

/// The visit at position `i` goes on to the inputs of the node there: lists them and draws the
/// edges to them. Returns the keys of all edges so far.
fn visit_inputs(
    ir_arena: &Arena<IR>,
    head: Node,
    ir_nodes_stack: &mut Vec<Node>,
    ir_node_to_edges_map: &mut NodeEdges,
    all_edges_map: &mut EdgesMap,
    Ghost(web): Ghost<Web>,
    Ghost(i): Ghost<nat>,
    Ghost(keys): Ghost<Seq<EdgeKey>>,
) -> (grown: Ghost<Seq<EdgeKey>>)
    requires
        woven(web),
        drawable(web),
        ir_arena.plan() == web.plan,
        i < old(ir_nodes_stack)@.len(),
        head == web.head(old(ir_nodes_stack)@[i as int]),
        progress(web, old(ir_nodes_stack)@, i),
        expands(web, old(ir_nodes_stack)@, i as int),
        described(web, old(ir_nodes_stack)@, i, keys, links_of(*old(ir_node_to_edges_map))),
        covered(web, old(ir_nodes_stack)@, i, links_of(*old(ir_node_to_edges_map))),
        all_ordered(keys, old(all_edges_map)@),
        old(all_edges_map)@.dom().finite(),
        old(all_edges_map)@.len() == keys.len(),
    ensures
        final(ir_nodes_stack)@ == old(ir_nodes_stack)@ + children(
            web,
            old(ir_nodes_stack)@,
            i as int,
        ),
        described(
            web,
            final(ir_nodes_stack)@,
            i + 1,
            grown@,
            links_of(*final(ir_node_to_edges_map)),
        ),
        forall|node: Node| #[trigger]
            links_of(*final(ir_node_to_edges_map)).contains_key(node) <==> (links_of(
                *old(ir_node_to_edges_map),
            ).contains_key(node) || node == head || exists|p: int|
                old(ir_nodes_stack)@.len() <= p < final(ir_nodes_stack)@.len()
                    && #[trigger] final(ir_nodes_stack)@[p] == node),
        all_ordered(grown@, final(all_edges_map)@),
        final(all_edges_map)@.dom().finite(),
        final(all_edges_map)@.len() == grown@.len(),
{
    let ghost list = ir_nodes_stack@;
    let ghost next = list + children(web, list, i as int);
    let ghost steps = hops(web, list, i);
    proof {
        lemma_progress_step(web, list, i);
        lemma_progress_room(web, next, i + 1);
        assert(web.opened.contains(web.head(list[i as int])));
        assert(list =~= next.take(list.len() as int));
    }
    let inputs_start_idx = ir_nodes_stack.len();
    let ir = ir_arena.get(head);
    assert(ir@ == web.plan[head as int]);
    ir.copy_inputs(ir_nodes_stack);
    assert(ir_nodes_stack@ =~= next);
    let num_inputs = ir_nodes_stack.len() - inputs_start_idx;
    let in_edges = open_edges(all_edges_map, num_inputs);
    let ghost grown = keys + in_edges@;
    let ghost before = froms(web, list, i);
    let ghost all = froms(web, next, i + 1);
    let ghost links = links_of(*ir_node_to_edges_map);
    proof {
        lemma_keys_grown(keys, in_edges@, all_edges_map@);
        lemma_hops_prefix(web, list, next, i);
        lemma_expands_prefix(web, list, next, i as int);
        let further = all.skip(steps.len() as int);
        assert forall|q: int| 0 <= q < steps.len() implies before[q] == all[q] by {
            assert(hops(web, next, i + 1)[q] == steps[q]);
            assert(list[steps[q].consumer_at] == next[steps[q].consumer_at]);
        }
        assert(all =~= before + further);
        assert forall|q: int| steps.len() <= q < all.len() implies #[trigger] all[q] == head by {
            assert(hops(web, next, i + 1)[q].consumer_at == i);
            assert(next[i as int] == list[i as int]);
        }
        assert forall|node: Node|
            #![trigger entry_of(links, node)]
            entry_of(links, node).out_edges == out_edges_of(
                web.roots,
                next,
                grown,
                node,
                keys.len(),
            ) && entry_of(links, node).out_nodes == out_nodes_of(
                web.roots,
                next,
                all,
                node,
                keys.len(),
            ) by {
            lemma_out_prefix(
                web.roots,
                list,
                next,
                keys,
                in_edges@,
                before,
                further,
                node,
                keys.len(),
            );
        }
        assert(grown.skip(steps.len() as int) =~= in_edges@);
    }
    connect_inputs(
        ir_node_to_edges_map,
        ir_nodes_stack,
        inputs_start_idx,
        head,
        &in_edges,
        Ghost(web.roots),
        Ghost(grown),
        Ghost(all),
    );
    let ghost held = links_of(*ir_node_to_edges_map);
    assert(entry_of(held, head).in_edges.len() == 0) by {
        assert(entry_of(held, head).in_edges == entry_of(links, head).in_edges);
        if in_edges_of(web, list, keys, head, i).len() > 0 {
            let p = lemma_in_edges_visit(web, list, keys, head, i);
            lemma_expands_once(web, list, p, i as int);
        }
    }
    set_in_edges(ir_node_to_edges_map, head, in_edges);
    proof {
        let now = links_of(*ir_node_to_edges_map);
        assert forall|node: Node|
            #![trigger entry_of(now, node)]
            entry_of(now, node) == (EdgeKeysModel {
                in_edges: in_edges_of(web, next, grown, node, i + 1),
                out_edges: out_edges_of(web.roots, next, grown, node, grown.len()),
                out_nodes: out_nodes_of(web.roots, next, all, node, grown.len()),
            }) by {
            assert(entry_of(held, node).in_edges == entry_of(links, node).in_edges);
            lemma_in_edges_prefix(web, list, next, keys, in_edges@, node, i);
        }
    }
    Ghost(grown)
}

/// Makes `node` known.
fn touch(map: &mut NodeEdges, node: Node)
    ensures
        links_of(*final(map)) == links_of(*old(map)).insert(
            node,
            entry_of(links_of(*old(map)), node),
        ),
{
    let _ = map.entry(node).or_insert(IRNodeEdgeKeys::default());
}

/// A visit makes known its node, and if it goes on, the node that leads and the inputs.
proof fn lemma_entered_grown(web: Web, list: Seq<Node>, next: Seq<Node>, i: nat, node: Node)
    requires
        i < list.len() <= next.len(),
        web.roots.len() <= list.len(),
        list == next.take(list.len() as int),
    ensures
        entered(web, next, i + 1, node) <==> (entered(web, list, i, node) || list[i as int] == node
            || (expands(web, list, i as int) && web.head(list[i as int]) == node) || exists|p: int|
            list.len() <= p < next.len() && #[trigger] next[p] == node),
{
    lemma_expands_prefix(web, list, next, i as int);
    lemma_hops_prefix(web, list, next, i);
    if exists|p: int|
        0 <= p < list.len() && (p < i || web.roots.len() <= p) && #[trigger] list[p] == node {
        let p = choose|p: int|
            0 <= p < list.len() && (p < i || web.roots.len() <= p) && #[trigger] list[p] == node;
        assert(next[p] == node);
    }
    assert(next[i as int] == list[i as int]);
    if exists|p: int|
        0 <= p < next.len() && (p < i + 1 || web.roots.len() <= p) && #[trigger] next[p] == node {
        let p = choose|p: int|
            0 <= p < next.len() && (p < i + 1 || web.roots.len() <= p) && #[trigger] next[p]
                == node;
        if p < list.len() {
            assert(list[p] == node);
        }
    }
}

/// Lists the nodes and draws the edges between them. Also returns the keys of the edges, in the
/// order in which they were drawn.
fn draw(roots: &[Node], ir_arena: &Arena<IR>, shape: &Shape, Ghost(web): Ghost<Web>) -> (graph: (
    Vec<Node>,
    NodeEdges,
    EdgesMap,
    Ghost<Seq<EdgeKey>>,
))
    requires
        web.plan == ir_arena.plan(),
        web.roots == roots@,
        shows(*shape, web),
        woven(web),
        drawable(web),
    ensures
        graph.0@ == listing(web),
        fresh_graph(web, graph.3@, links_of(graph.1), graph.2@),
{
    let ghost plan = ir_arena.plan();
    let ghost whole = listing(web);
    let ghost size = web.size();
    let (_, mut left) = count_uses(roots, ir_arena, shape, Ghost(web));
    let num_nodes: usize = count_size(roots, ir_arena, shape, Ghost(web));

    let mut all_edges_map = EdgesMap::with_capacity_and_key(num_nodes);
    let mut ir_node_to_edges_map: NodeEdges = HashMap::with_capacity(num_nodes);
    let mut ir_nodes_stack: Vec<Node> = copy_nodes(roots);
    let ghost mut keys: Seq<EdgeKey> = Seq::empty();
    proof {
        lemma_progress_start(web);
        assert(all_edges_map@.dom() =~= keys.to_set());
    }

    let mut i: usize = 0;
    while i < ir_nodes_stack.len()
        invariant
            plan == ir_arena.plan(),
            web.plan == plan,
            woven(web),
            drawable(web),
            shows(*shape, web),
            whole == listing(web),
            size == web.size(),
            progress(web, ir_nodes_stack@, i as nat),
            i <= size,
            traverse(web, ir_nodes_stack@, i as nat, (size - i) as nat) == whole,
            described(web, ir_nodes_stack@, i as nat, keys, links_of(ir_node_to_edges_map)),
            covered(web, ir_nodes_stack@, i as nat, links_of(ir_node_to_edges_map)),
            all_ordered(keys, all_edges_map@),
            all_edges_map@.dom().finite(),
            all_edges_map@.len() == keys.len(),
            uses_left(web, ir_nodes_stack@, i as nat, left@),
        decreases size - i,
    {
        let ghost list = ir_nodes_stack@;
        let ghost next = list + children(web, list, i as int);
        let ghost links = links_of(ir_node_to_edges_map);
        proof {
            lemma_progress_room(web, list, i as nat);
            lemma_progress_step(web, list, i as nat);
            assert(list =~= next.take(list.len() as int));
        }
        let current_node = ir_nodes_stack[i];
        let head = head_node(ir_arena, &shape.leads, current_node);
        let last = count_visit(&mut left, head, Ghost(web), Ghost(list), Ghost(i as nat));
        if last {
            let grown = visit_inputs(
                ir_arena,
                head,
                &mut ir_nodes_stack,
                &mut ir_node_to_edges_map,
                &mut all_edges_map,
                Ghost(web),
                Ghost(i as nat),
                Ghost(keys),
            );
            proof {
                keys = grown@;
            }
        } else {
            assert(next =~= list);
            assert(hops(web, list, (i + 1) as nat) =~= hops(web, list, i as nat));
        }
        let ghost held = links_of(ir_node_to_edges_map);
        touch(&mut ir_node_to_edges_map, current_node);
        proof {
            let now = links_of(ir_node_to_edges_map);
            assert(forall|node: Node| entry_of(now, node) == entry_of(held, node));
            assert forall|node: Node| #[trigger]
                now.contains_key(node) <==> entered(web, next, (i + 1) as nat, node) by {
                lemma_entered_grown(web, list, next, i as nat, node);
                assert(links.contains_key(node) <==> entered(web, list, i as nat, node));
            }
        }
        i = i + 1;
    }
    (ir_nodes_stack, ir_node_to_edges_map, all_edges_map, Ghost(keys))
}

/// Builds an IR traversal graph where caches are visited only after all of their consumers are
/// visited.
///
/// Returns the nodes in sink to source order, the edge keys of each node, and the edges.
///
/// Cache nodes that share an id stand for one result: the visits go on from the one that is listed
/// last, and the others have no edges to their inputs.
pub fn build_ir_traversal_graph(roots: &[Node], ir_arena: &Arena<IR>) -> (graph: (
    Vec<Node>,
    NodeEdges,
    EdgesMap,
))
    requires
        has_graph(ir_arena.plan(), roots@),
    ensures
        graph.0@ == traversal(ir_arena.plan(), roots@),
        exists|keys: Seq<EdgeKey>| #[trigger]
            fresh_graph(
                web_of(ir_arena.plan(), roots@),
                keys,
                links_of(graph.1),
                graph.2@,
            ),
        forall|node: Node| #[trigger]
            links_of(graph.1).contains_key(node) <==> graph.0@.contains(node),
        forall|node: Node| #[trigger]
            links_of(graph.1).contains_key(node) <==> is_below(
                web_of(ir_arena.plan(), roots@),
                node,
            ),
        caches_agree(ir_arena.plan()) ==> forall|node: Node| #[trigger]
            links_of(graph.1).contains_key(node) <==> reachable(ir_arena.plan(), roots@, node),
        forall|node: Node| #[trigger]
            links_of(graph.1).contains_key(node) ==> links_of(graph.1)[node].in_edges.len() == if (
            is_copy(ir_arena.plan(), web_of(ir_arena.plan(), roots@).leads, node)) {
                0
            } else {
                ir_arena.plan()[node as int].inputs().len()
            },
        graph.0@.len() == roots@.len() + graph.2@.dom().len(),
        forall|node: Node| #[trigger]
            links_of(graph.1).contains_key(node) ==> graph.0@.to_multiset().count(node)
                == roots@.to_multiset().count(node) + links_of(graph.1)[node].out_edges.len(),
{
    let ghost web = web_of(ir_arena.plan(), roots@);
    let shape = search(roots, ir_arena);
    let (nodes, links, edges, keys) = draw(roots, ir_arena, &shape, Ghost(web));
    let graph = (nodes, links, edges);
    proof {
        assert(fresh_graph(web, keys@, links_of(graph.1), graph.2@));
        lemma_links(web, keys@, links_of(graph.1), graph.2@);
        lemma_links_reachable(web, links_of(graph.1));
    }
    graph
}

/// Adding ordered edges under new keys leaves all edges ordered.
proof fn lemma_keys_grown(keys: Seq<EdgeKey>, more: Seq<EdgeKey>, edges: Map<EdgeKey, Edge>)
    requires
        keys.no_duplicates(),
        more.no_duplicates(),
        forall|i: int| 0 <= i < more.len() ==> !keys.to_set().contains(#[trigger] more[i]),
        edges.dom() == keys.to_set() + more.to_set(),
        forall|key: EdgeKey|
            keys.to_set().contains(key) ==> #[trigger] edges[key] == Edge::Ordered,
        forall|i: int| 0 <= i < more.len() ==> edges[#[trigger] more[i]] == Edge::Ordered,
    ensures
        (keys + more).no_duplicates(),
        all_ordered(keys + more, edges),
{
    let both = keys + more;
    assert forall|key: EdgeKey| both.to_set().contains(key) <==> (keys.to_set().contains(key)
        || more.to_set().contains(key)) by {
        if keys.contains(key) {
            let i = choose|i: int| 0 <= i < keys.len() && keys[i] == key;
            assert(both[i] == key);
        }
        if more.contains(key) {
            let i = choose|i: int| 0 <= i < more.len() && more[i] == key;
            assert(both[keys.len() + i] == key);
        }
    }
    assert(edges.dom() =~= both.to_set());
}

////////////////////////////////////////////////////////////////////////////////////////////////
// What a new graph holds
////////////////////////////////////////////////////////////////////////////////////////////////

/// The step that the visit at position `p` takes to the input number `j`.
pub proof fn lemma_step_at(web: Web, p: int, j: int)
    requires
        woven(web),
        web.inside(),
        0 <= p < listing(web).len(),
        expands(web, listing(web), p),
        0 <= j < web.below(listing(web)[p]).len(),
    ensures
        ({
            let list = listing(web);
            let q = hops(web, list, p as nat).len() + j;
            let steps = hops(web, list, list.len());
            &&& 0 <= q < steps.len()
            &&& steps[q] == (Hop { consumer_at: p, slot: j })
            &&& p < web.roots.len() + q < list.len()
            &&& list[web.roots.len() + q] == web.below(list[p])[j]
        }),
{
    let list = listing(web);
    lemma_listing(web);
    lemma_hop_at(web, list, list.len(), p, j);
}

/// Every use of a node is listed.
pub proof fn lemma_listed(web: Web, node: Node)
    requires
        woven(web),
        web.inside(),
        complete(web),
        is_origin(web.plan, web.roots, web.opened, node),
    ensures
        listing(web).contains(node),
{
    let list = listing(web);
    lemma_listing(web);
    if web.roots.contains(node) {
        let p = choose|p: int| 0 <= p < web.roots.len() && web.roots[p] == node;
        assert(list[p] == node);
    } else {
        let reader = choose|reader: Node| #[trigger]
            web.opened.contains(reader) && web.plan[reader as int].inputs().contains(node);
        let inputs = web.plan[reader as int].inputs();
        let j = choose|j: int| 0 <= j < inputs.len() && inputs[j] == node;
        lemma_last_at(web, reader, 0);
        lemma_step_at(web, last_at(web, reader), j);
    }
}

/// A path can go on to each node that is followed from its end.
proof fn lemma_path_on(web: Web, path: Seq<Node>, node: Node)
    requires
        is_path(web, path),
        web.below(path.last()).contains(node),
    ensures
        is_path(web, path.push(node)),
{
    let longer = path.push(node);
    assert forall|k: int| 0 <= k < longer.len() - 1 implies web.below(
        #[trigger] longer[k],
    ).contains(longer[k + 1]) by {
        if k < path.len() - 1 {
            assert(longer[k] == path[k] && longer[k + 1] == path[k + 1]);
        }
    }
}

proof fn lemma_listed_below(web: Web, p: int)
    requires
        woven(web),
        web.inside(),
        0 <= p < listing(web).len(),
    ensures
        is_below(web, listing(web)[p]),
    decreases p,
{
    let list = listing(web);
    let steps = hops(web, list, list.len());
    lemma_listing(web);
    if p < web.roots.len() {
        let path = seq![list[p]];
        assert(web.roots[p] == list[p]);
        assert(is_path(web, path));
        assert(path.last() == list[p]);
    } else {
        let q = p - web.roots.len();
        let at = steps[q].consumer_at;
        lemma_listed_below(web, at);
        let path = choose|path: Seq<Node>| #[trigger]
            is_path(web, path) && path.last() == list[at];
        assert(web.below(list[at])[steps[q].slot] == list[p]);
        lemma_path_on(web, path, list[p]);
        assert(path.push(list[p]).last() == list[p]);
    }
}

pub proof fn lemma_path_listed(web: Web, path: Seq<Node>)
    requires
        woven(web),
        web.inside(),
        complete(web),
        is_path(web, path),
    ensures
        listing(web).contains(path.last()),
    decreases path.len(),
{
    let list = listing(web);
    lemma_listing(web);
    if path.len() == 1 {
        lemma_listed(web, path[0]);
    } else {
        let before = path.drop_last();
        assert(is_path(web, before)) by {
            assert forall|k: int| 0 <= k < before.len() - 1 implies web.below(
                #[trigger] before[k],
            ).contains(before[k + 1]) by {
                assert(before[k] == path[k]);
            }
        }
        lemma_path_listed(web, before);
        let p = choose|p: int| 0 <= p < list.len() && list[p] == before.last();
        assert(web.opened.contains(web.head(list[p])));
        assert(web.below(path[path.len() - 2]).contains(path[path.len() - 1]));
        lemma_listed(web, path.last());
    }
}

/// The nodes below the roots are those that are listed.
pub proof fn lemma_below_listed(web: Web, node: Node)
    requires
        woven(web),
        web.inside(),
        complete(web),
    ensures
        is_below(web, node) <==> listing(web).contains(node),
{
    let list = listing(web);
    if is_below(web, node) {
        let path = choose|path: Seq<Node>| #[trigger] is_path(web, path) && path.last() == node;
        lemma_path_listed(web, path);
    }
    if list.contains(node) {
        let p = choose|p: int| 0 <= p < list.len() && list[p] == node;
        lemma_listed_below(web, p);
    }
}

/// Where cache nodes that share an id read the same input, each node is followed to its own inputs.
pub proof fn lemma_same_below(web: Web, node: Node)
    requires
        woven(web),
        caches_agree(web.plan),
        node < web.plan.len(),
    ensures
        web.below(node) == web.plan[node as int].inputs(),
{
    if let Plan::Cache { id, .. } = web.plan[node as int] {
        if web.leads.contains_key(id) {
            assert(web.opened.contains(web.leads[id]));
            assert(caches(web.plan[web.leads[id] as int], id));
            assert(caches(web.plan[node as int], id));
        }
    }
}

/// The nodes along a path are nodes of the plan.
proof fn lemma_path_inside(web: Web, path: Seq<Node>, k: int)
    requires
        woven(web),
        web.inside(),
        is_path(web, path),
        0 <= k < path.len(),
    ensures
        path[k] < web.plan.len(),
        web.opened.contains(web.head(path[k])),
    decreases k,
{
    if k == 0 {
        let i = choose|i: int| 0 <= i < web.roots.len() && web.roots[i] == path[0];
        assert(web.opened.contains(web.head(web.roots[i])));
    } else {
        lemma_path_inside(web, path, k - 1);
        let reader = web.head(path[k - 1]);
        let inputs = web.plan[reader as int].inputs();
        assert(web.below(path[k - 1]).contains(path[k - 1 + 1]));
        let j = choose|j: int| 0 <= j < inputs.len() && inputs[j] == path[k];
        assert(web.opened.contains(web.head(web.plan[reader as int].inputs()[j])));
    }
}

proof fn lemma_descent_path(web: Web, path: Seq<Node>)
    requires
        woven(web),
        web.inside(),
        caches_agree(web.plan),
        is_descent(web.plan, web.roots, path),
    ensures
        is_path(web, path),
    decreases path.len(),
{
    if path.len() > 1 {
        let before = path.drop_last();
        assert(is_descent(web.plan, web.roots, before)) by {
            assert forall|k: int| 0 <= k < before.len() - 1 implies web.plan[#[trigger] before[
                k] as int].inputs().contains(before[k + 1]) by {
                assert(before[k] == path[k]);
            }
        }
        lemma_descent_path(web, before);
        lemma_path_inside(web, before, before.len() - 1);
        lemma_same_below(web, before.last());
        assert forall|k: int| 0 <= k < path.len() - 1 implies web.below(
            #[trigger] path[k],
        ).contains(path[k + 1]) by {
            if k < before.len() - 1 {
                assert(before[k] == path[k]);
            } else {
                assert(web.plan[path[k] as int].inputs().contains(path[k + 1]));
            }
        }
    }
}

/// Where cache nodes that share an id read the same input, what lies below the roots is what can be
/// reached from them.
pub proof fn lemma_reachable(web: Web, node: Node)
    requires
        woven(web),
        web.inside(),
        caches_agree(web.plan),
    ensures
        reachable(web.plan, web.roots, node) <==> is_below(web, node),
{
    if reachable(web.plan, web.roots, node) {
        let path = choose|path: Seq<Node>| #[trigger]
            is_descent(web.plan, web.roots, path) && path.last() == node;
        lemma_descent_path(web, path);
    }
    if is_below(web, node) {
        let path = choose|path: Seq<Node>| #[trigger] is_path(web, path) && path.last() == node;
        assert forall|k: int| 0 <= k < path.len() - 1 implies web.plan[#[trigger] path[
            k] as int].inputs().contains(path[k + 1]) by {
            lemma_path_inside(web, path, k);
            lemma_same_below(web, path[k]);
            assert(web.below(path[k]).contains(path[k + 1]));
        }
        assert(is_descent(web.plan, web.roots, path));
    }
}

/// A node that visits go on from has an edge for each of its inputs.
pub proof fn lemma_in_edges_len(web: Web, list: Seq<Node>, keys: Seq<EdgeKey>, p: int, upto: nat)
    requires
        woven(web),
        0 <= p < upto,
        web.opened.contains(web.head(list[p])),
        expands(web, list, p),
        hops(web, list, upto).len() <= keys.len(),
    ensures
        in_edges_of(web, list, keys, web.head(list[p]), upto).len() == web.plan[web.head(
            list[p],
        ) as int].inputs().len(),
    decreases upto,
{
    if !(web.head(list[upto - 1]) == web.head(list[p]) && expands(web, list, upto - 1)) {
        assert(hops(web, list, (upto - 1) as nat).len() <= hops(web, list, upto).len());
        lemma_in_edges_len(web, list, keys, p, (upto - 1) as nat);
    }
}

/// Where cache nodes that share an id read the same input, a new graph holds what can be reached
/// from the roots.
proof fn lemma_links_reachable(web: Web, links: Map<Node, EdgeKeysModel>)
    requires
        woven(web),
        web.inside(),
        forall|node: Node| #[trigger] links.contains_key(node) <==> is_below(web, node),
    ensures
        caches_agree(web.plan) ==> forall|node: Node| #[trigger]
            links.contains_key(node) <==> reachable(web.plan, web.roots, node),
{
    if caches_agree(web.plan) {
        assert forall|node: Node| #[trigger]
            links.contains_key(node) <==> reachable(web.plan, web.roots, node) by {
            lemma_reachable(web, node);
        }
    }
}

/// The places where a node is listed are those of the roots that it is and those of the steps that
/// arrive at it.
proof fn lemma_arrivals(
    roots: Seq<Node>,
    list: Seq<Node>,
    keys: Seq<EdgeKey>,
    node: Node,
    upto: nat,
)
    requires
        roots.len() + upto <= list.len(),
        roots == list.take(roots.len() as int),
    ensures
        list.take((roots.len() + upto) as int).to_multiset().count(node)
            == roots.to_multiset().count(node) + out_edges_of(
            roots,
            list,
            keys,
            node,
            upto,
        ).len(),
    decreases upto,
{
    broadcast use vstd::seq_lib::group_to_multiset_ensures;

    if upto == 0 {
        assert(list.take(roots.len() as int) =~= roots);
    } else {
        lemma_arrivals(roots, list, keys, node, (upto - 1) as nat);
        let shorter = list.take(roots.len() + upto - 1);
        assert(list.take((roots.len() + upto) as int) =~= shorter.push(
            list[roots.len() + upto - 1],
        ));
    }
}

/// A new graph holds the nodes below the roots. Each of them has one in edge for each of its
/// inputs, unless it is a copy, and is listed once for each root that it is and for each of its out
/// edges.
pub proof fn lemma_links(
    web: Web,
    keys: Seq<EdgeKey>,
    links: Map<Node, EdgeKeysModel>,
    edges: Map<EdgeKey, Edge>,
)
    requires
        woven(web),
        drawable(web),
        fresh_graph(web, keys, links, edges),
    ensures
        forall|node: Node| #[trigger]
            links.contains_key(node) <==> is_below(web, node),
        forall|node: Node| #[trigger]
            links.contains_key(node) <==> listing(web).contains(node),
        forall|node: Node| #[trigger]
            links.contains_key(node) ==> links[node].in_edges.len() == if is_copy(
                web.plan,
                web.leads,
                node,
            ) {
                0
            } else {
                web.plan[node as int].inputs().len()
            },
        listing(web).len() == web.roots.len() + edges.dom().len(),
        forall|node: Node| #[trigger]
            links.contains_key(node) ==> listing(web).to_multiset().count(node)
                == web.roots.to_multiset().count(node) + links[node].out_edges.len(),
{
    let list = listing(web);
    lemma_listing(web);
    lemma_complete(web);
    keys.unique_seq_to_set();
    assert forall|node: Node| #[trigger] links.contains_key(node) <==> list.contains(node) by {
        if links.contains_key(node) && done(web, list, list.len()).contains(node) {
            let p = lemma_done_at(web, list, list.len(), node);
            assert(expands(web, list, p));
        }
        if list.contains(node) {
            let p = choose|p: int| 0 <= p < list.len() && list[p] == node;
            assert(entered(web, list, list.len(), node));
        }
    }
    assert forall|node: Node| #[trigger] links.contains_key(node) <==> is_below(web, node) by {
        lemma_below_listed(web, node);
    }
    assert forall|node: Node| #[trigger] links.contains_key(node) implies links[node].in_edges.len()
        == (if is_copy(web.plan, web.leads, node) {
        0
    } else {
        web.plan[node as int].inputs().len()
    }) && list.to_multiset().count(node) == web.roots.to_multiset().count(node)
        + links[node].out_edges.len() by {
        assert(entry_of(links, node) == links[node]);
        let p = choose|p: int| 0 <= p < list.len() && list[p] == node;
        assert(web.opened.contains(web.head(list[p])));
        if is_copy(web.plan, web.leads, node) {
            lemma_copy_bare(web, list, keys, node, list.len());
        } else {
            lemma_last_at(web, node, 0);
            lemma_in_edges_len(web, list, keys, last_at(web, node), list.len());
        }
        lemma_arrivals(web.roots, list, keys, node, keys.len());
        assert(list.take((web.roots.len() + keys.len()) as int) =~= list);
    }
}

/// A copy is not a node that visits go on from.
proof fn lemma_copy_bare(web: Web, list: Seq<Node>, keys: Seq<EdgeKey>, node: Node, upto: nat)
    requires
        woven(web),
        is_copy(web.plan, web.leads, node),
        forall|p: int| 0 <= p < list.len() ==> web.opened.contains(web.head(#[trigger] list[p])),
        upto <= list.len(),
    ensures
        in_edges_of(web, list, keys, node, upto).len() == 0,
    decreases upto,
{
    if upto > 0 {
        assert(web.opened.contains(web.head(list[upto - 1])));
        lemma_copy_bare(web, list, keys, node, (upto - 1) as nat);
    }
}

////////////////////////////////////////////////////////////////////////////////////////////////
// Access to the edges around a node
////////////////////////////////////////////////////////////////////////////////////////////////

/// All edges around a node are known, and no two of them are the same.
pub open spec fn apart(keys: EdgeKeysModel, edges: Map<EdgeKey, Edge>) -> bool {
    &&& (keys.in_edges + keys.out_edges).no_duplicates()
    &&& known(keys.in_edges, edges)
    &&& known(keys.out_edges, edges)
}

/// Each of the keys is that of an edge.
pub open spec fn known(keys: Seq<EdgeKey>, edges: Map<EdgeKey, Edge>) -> bool {
    forall|i: int| 0 <= i < keys.len() ==> edges.contains_key(#[trigger] keys[i])
}

/// Access to the edges around a node, if it has `NUM_INPUTS` in edges and `NUM_OUTPUTS` out
/// edges: first the in edges, then the out edges.
pub fn unpack_edges_mut<
    'a,
    const NUM_INPUTS: usize,
    const NUM_OUTPUTS: usize,
    const TOTAL_EDGES: usize,
>(node_edge_keys: &IRNodeEdgeKeys, edges_map: &'a mut EdgesMap) -> (edges: Option<
    [&'a mut Edge; TOTAL_EDGES],
>)
    requires
        NUM_INPUTS + NUM_OUTPUTS == TOTAL_EDGES,
        node_edge_keys@.in_edges.len() == NUM_INPUTS && node_edge_keys@.out_edges.len()
            == NUM_OUTPUTS ==> apart(node_edge_keys@, old(edges_map)@),
    ensures
        edges is Some <==> node_edge_keys@.in_edges.len() == NUM_INPUTS
            && node_edge_keys@.out_edges.len() == NUM_OUTPUTS,
        edges is None ==> final(edges_map)@ == old(edges_map)@,
        edges matches Some(edges) ==> {
            let keys = node_edge_keys@.in_edges + node_edge_keys@.out_edges;
            &&& final(edges_map)@.dom() == old(edges_map)@.dom()
            &&& forall|i: int|
                0 <= i < TOTAL_EDGES ==> *#[trigger] edges@[i] == old(edges_map)@[keys[i]]
            &&& forall|i: int|
                0 <= i < TOTAL_EDGES ==> final(edges_map)@[keys[i]] == *final(#[trigger] edges@[i])
            &&& forall|key: EdgeKey|
                old(edges_map)@.contains_key(key) && !keys.contains(key)
                    ==> #[trigger] final(edges_map)@[key] == old(edges_map)@[key]
        },
{
    if node_edge_keys.in_edges.len() != NUM_INPUTS || node_edge_keys.out_edges.len()
        != NUM_OUTPUTS {
        return None;
    }
    let ghost ins = node_edge_keys@.in_edges;
    let ghost outs = node_edge_keys@.out_edges;
    let mut combined: Vec<EdgeKey> = Vec::new();
    let mut i: usize = 0;
    while i < NUM_INPUTS
        invariant
            ins == node_edge_keys.in_edges@,
            NUM_INPUTS == ins.len(),
            i <= NUM_INPUTS,
            combined@ == ins.take(i as int),
        decreases NUM_INPUTS - i,
    {
        combined.push(node_edge_keys.in_edges[i]);
        i = i + 1;
    }
    let mut i: usize = 0;
    while i < NUM_OUTPUTS
        invariant
            outs == node_edge_keys.out_edges@,
            NUM_OUTPUTS == outs.len(),
            i <= NUM_OUTPUTS,
            combined@ == ins + outs.take(i as int),
        decreases NUM_OUTPUTS - i,
    {
        combined.push(node_edge_keys.out_edges[i]);
        i = i + 1;
    }
    assert(outs.take(i as int) =~= outs);
    edges_map.get_disjoint_mut::<TOTAL_EDGES>(&combined)
}

} // verus!
