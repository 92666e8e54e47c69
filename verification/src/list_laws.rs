//! How the list of nodes and the edges of a new graph follow from the plan.

use crate::arena::Node;
use crate::edge::{Edge, EdgeKey};
use crate::ir::{IRModel, Plan};
use crate::ir_graph::{
    fresh_graph, has_graph, known, lemma_links, out_edges_of, EdgeKeysModel,
};
use crate::laws::{ends, law_visited_on_once};
use crate::pass::{started, PassState};
use crate::simplify::GraphState;
use crate::traversal::{
    children, expands, hop_input, hops, is_copy, led, lemma_listing, lemma_woven, traversal, web_of,
};
use crate::wiring::{
    feeds, held_above, held_below, joined, lemma_fresh_joined, lemma_hop_from, lemma_in_edge,
    lemma_last_hops, lemma_node_links, lemma_out_step, placed, simplifiable, tied,
};
use vstd::prelude::*;

verus! {

/// `a` and `b` give the same result: they are one node, or caches with one id.
pub open spec fn same_result(plan: Seq<IRModel>, a: Node, b: Node) -> bool {
    a == b || match (plan[a as int], plan[b as int]) {
        (Plan::Cache { id: one, .. }, Plan::Cache { id: other, .. }) => one == other,
        _ => false,
    }
}

/// The position `p` is the last one on `list` with its result.
pub open spec fn is_last(plan: Seq<IRModel>, list: Seq<Node>, p: int) -> bool {
    forall|r: int| p < r < list.len() ==> !same_result(plan, list[p], #[trigger] list[r])
}

/// The inputs of the nodes at those of the first `upto` positions of `list` that are the last ones
/// with their results, one after the other.
pub open spec fn unfolded(plan: Seq<IRModel>, list: Seq<Node>, upto: nat) -> Seq<Node>
    decreases upto,
{
    if upto == 0 {
        Seq::empty()
    } else {
        unfolded(plan, list, (upto - 1) as nat) + if is_last(plan, list, upto - 1) {
            plan[list[upto - 1] as int].inputs()
        } else {
            Seq::empty()
        }
    }
}

/// The visit of a position goes on to the inputs exactly if it is the last one with its result.
pub proof fn lemma_goes_on(plan: Seq<IRModel>, roots: Seq<Node>, p: int)
    requires
        ends(plan, roots),
        led(web_of(plan, roots)),
        0 <= p < traversal(plan, roots).len(),
    ensures
        expands(web_of(plan, roots), traversal(plan, roots), p) <==> is_last(
            plan,
            traversal(plan, roots),
            p,
        ),
        children(web_of(plan, roots), traversal(plan, roots), p) == if is_last(
            plan,
            traversal(plan, roots),
            p,
        ) {
            plan[traversal(plan, roots)[p] as int].inputs()
        } else {
            Seq::empty()
        },
{
    let web = web_of(plan, roots);
    let list = traversal(plan, roots);
    lemma_woven(plan, roots);
    lemma_listing(web);
    let last = law_visited_on_once(plan, roots, p);
    assert(web.opened.contains(web.head(list[p])));
    assert(web.opened.contains(web.head(list[last])));
    if expands(web, list, p) {
        assert(p == last);
        assert forall|r: int| p < r < list.len() implies !same_result(
            plan,
            list[p],
            #[trigger] list[r],
        ) by {
            assert(web.opened.contains(web.head(list[r])));
        }
    } else {
        assert(p < last);
        assert(same_result(plan, list[p], list[last]));
    }
}

proof fn lemma_unfolded(plan: Seq<IRModel>, roots: Seq<Node>, upto: nat)
    requires
        ends(plan, roots),
        led(web_of(plan, roots)),
        upto <= traversal(plan, roots).len(),
    ensures
        ({
            let web = web_of(plan, roots);
            let list = traversal(plan, roots);
            let steps = hops(web, list, upto);
            &&& unfolded(plan, list, upto).len() == steps.len()
            &&& forall|q: int|
                0 <= q < steps.len() ==> #[trigger] unfolded(plan, list, upto)[q] == hop_input(
                    web,
                    list,
                    steps[q],
                )
        }),
    decreases upto,
{
    if upto > 0 {
        lemma_unfolded(plan, roots, (upto - 1) as nat);
        lemma_goes_on(plan, roots, upto - 1);
    }
}

/// The list starts with the roots. Then, in the order of the list, come the inputs of each node, in
/// their own order, once its result is not listed any more further down; and nothing else.
///
/// This holds wherever each cache id is led by the node that is listed last.
pub proof fn law_list_unfolds(plan: Seq<IRModel>, roots: Seq<Node>)
    requires
        ends(plan, roots),
        led(web_of(plan, roots)),
    ensures
        traversal(plan, roots) == roots + unfolded(
            plan,
            traversal(plan, roots),
            traversal(plan, roots).len(),
        ),
{
    let web = web_of(plan, roots);
    let list = traversal(plan, roots);
    lemma_woven(plan, roots);
    lemma_listing(web);
    lemma_unfolded(plan, roots, list.len());
    let whole = roots + unfolded(plan, list, list.len());
    assert forall|p: int| 0 <= p < list.len() implies list[p] == whole[p] by {
        if p < roots.len() {
            assert(list.take(roots.len() as int)[p] == list[p]);
        } else {
            let q = p - roots.len();
            assert(list[roots.len() + q] == hop_input(web, list, hops(web, list, list.len())[q]));
            assert(whole[p] == unfolded(plan, list, list.len())[q]);
        }
    }
    assert(list =~= whole);
}

/// The in edge number `j` of `node` is an out edge of its input there, which knows its reader.
pub open spec fn reads_from(state: GraphState, live: Set<Node>, node: Node, j: int) -> bool {
    let input = state.plan[node as int].inputs()[j];
    &&& live.contains(input)
    &&& exists|i: int|
        0 <= i < state.links[input].out_edges.len() && #[trigger] state.links[input].out_edges[i]
            == state.links[node].in_edges[j] && state.links[input].out_nodes[i] == node
}

/// The out edge number `i` of `node` is an in edge of its reader there, which has the node for the
/// input over that edge.
pub open spec fn read_by(state: GraphState, live: Set<Node>, node: Node, i: int) -> bool {
    let reader = state.links[node].out_nodes[i];
    &&& live.contains(reader)
    &&& exists|j: int|
        0 <= j < state.links[reader].in_edges.len() && #[trigger] state.links[reader].in_edges[j]
            == state.links[node].out_edges[i] && state.plan[reader as int].inputs()[j] == node
}

/// Every edge of `node` joins it to one of its inputs or its readers, at the place where the input
/// stands, and nothing else is read over the edges over which it reads.
pub open spec fn is_joined(state: GraphState, live: Set<Node>, node: Node) -> bool {
    let links = state.links;
    &&& links.contains_key(node)
    &&& links[node].out_nodes.len() == links[node].out_edges.len()
    &&& forall|j: int|
        0 <= j < links[node].in_edges.len() ==> state.edges.contains_key(
            #[trigger] links[node].in_edges[j],
        ) && reads_from(state, live, node, j)
    &&& forall|i: int|
        0 <= i < links[node].out_edges.len() ==> state.edges.contains_key(
            #[trigger] links[node].out_edges[i],
        ) && read_by(state, live, node, i)
    &&& forall|other: Node, j: int, k: int|
        #![trigger links[node].in_edges[j], links[other].in_edges[k]]
        live.contains(other) && 0 <= j < links[node].in_edges.len() && 0 <= k
            < links[other].in_edges.len() && links[node].in_edges[j] == links[other].in_edges[k]
            ==> other == node && j == k
}

proof fn lemma_joined(state: GraphState, leads: Map<u128, Node>, live: Set<Node>, node: Node)
    requires
        joined(state, leads, live),
        live.contains(node),
        state.links.contains_key(node),
        state.links[node].out_nodes.len() == state.links[node].out_edges.len(),
        known(state.links[node].in_edges, state.edges),
        known(state.links[node].out_edges, state.edges),
        forall|reader: Node, j: int|
            live.contains(reader) && 0 <= j < state.links[reader].in_edges.len() ==> #[trigger]
                feeds(state.plan, leads, reader)[j] == state.plan[reader as int].inputs()[j],
    ensures
        is_joined(state, live, node),
{
    let links = state.links;
    assert forall|j: int| 0 <= j < links[node].in_edges.len() implies state.edges.contains_key(
        #[trigger] links[node].in_edges[j],
    ) && reads_from(state, live, node, j) by {
        let input = state.plan[node as int].inputs()[j];
        assert(held_below(state, leads, live, node, j));
        assert(feeds(state.plan, leads, node)[j] == input);
        let i = choose|i: int| #[trigger] tied(state, leads, node, j, input, i);
        assert(links[input].out_edges[i] == links[node].in_edges[j]);
    }
    assert forall|i: int| 0 <= i < links[node].out_edges.len() implies state.edges.contains_key(
        #[trigger] links[node].out_edges[i],
    ) && read_by(state, live, node, i) by {
        let reader = links[node].out_nodes[i];
        assert(held_above(state, leads, live, node, i));
        let j = choose|j: int| #[trigger] tied(state, leads, reader, j, node, i);
        assert(feeds(state.plan, leads, reader)[j] == node);
        assert(links[reader].in_edges[j] == links[node].out_edges[i]);
    }
}

/// At all times every edge joins a node to one of its inputs, both of them in the plan, at the
/// place where that input stands, and no two inputs are read over one edge. A node in the plan has
/// an edge for each of its inputs, or is a cache without any.
pub proof fn law_edges_join(pass: PassState, node: Node)
    requires
        pass.inv(),
        pass.live.contains(node),
    ensures
        is_joined(pass.graph, pass.live, node),
        pass.graph.links[node].in_edges.len() == pass.graph.plan[node as int].inputs().len() || (
        pass.graph.links[node].in_edges.len() == 0 && pass.graph.plan[node as int] is Cache),
{
    let state = pass.graph;
    assert(placed(state, pass.leads, node));
    assert forall|reader: Node, j: int|
        pass.live.contains(reader) && 0 <= j < state.links[reader].in_edges.len() implies #[trigger]
    feeds(state.plan, pass.leads, reader)[j] == state.plan[reader as int].inputs()[j] by {
        assert(placed(state, pass.leads, reader));
    }
    lemma_joined(state, pass.leads, pass.live, node);
}

/// A new graph holds every node that is listed and no other, and every edge is ordered. A node has
/// edges to its inputs, one for each, exactly if it is the last one on the list with its result;
/// the other caches with its id have none. Each edge joins a node to one of its inputs, at the
/// place where that input stands. Each node has as many out edges as it is listed over and above
/// its places among the roots.
pub proof fn law_new_graph(
    plan: Seq<IRModel>,
    roots: Seq<Node>,
    keys: Seq<EdgeKey>,
    links: Map<Node, EdgeKeysModel>,
    edges: Map<EdgeKey, Edge>,
    node: Node,
)
    requires
        plan.len() <= usize::MAX,
        has_graph(plan, roots),
        fresh_graph(web_of(plan, roots), keys, links, edges),
    ensures
        links.contains_key(node) <==> traversal(plan, roots).contains(node),
        forall|key: EdgeKey| #[trigger] edges.contains_key(key) ==> edges[key] == Edge::Ordered,
        links.contains_key(node) ==> {
            let list = traversal(plan, roots);
            let last = exists|p: int|
                0 <= p < list.len() && #[trigger] list[p] == node && is_last(plan, list, p);
            &&& last ==> links[node].in_edges.len() == plan[node as int].inputs().len()
            &&& !last ==> links[node].in_edges.len() == 0
            &&& list.to_multiset().count(node) == roots.to_multiset().count(node)
                + links[node].out_edges.len()
            &&& is_joined(GraphState { plan, links, edges }, links.dom(), node)
        },
        traversal(plan, roots).len() == roots.len() + edges.dom().len(),
{
    let web = web_of(plan, roots);
    let list = traversal(plan, roots);
    let state = GraphState { plan, links, edges };
    lemma_woven(plan, roots);
    lemma_links(web, keys, links, edges);
    lemma_listing(web);
    if list.contains(node) {
        let r = choose|r: int| 0 <= r < list.len() && list[r] == node;
        assert(web.opened.contains(web.head(list[r])));
        let p = law_visited_on_once(plan, roots, r);
        assert(web.opened.contains(web.head(list[p])));
        lemma_goes_on(plan, roots, p);
        if is_copy(plan, web.leads, node) {
            assert forall|q: int|
                0 <= q < list.len() && #[trigger] list[q] == node implies !is_last(
                plan,
                list,
                q,
            ) by {
                lemma_goes_on(plan, roots, q);
            }
        } else {
            assert(list[p] == node);
        }
        lemma_fresh_joined(web, keys, links, edges);
        lemma_node_links(web, keys, links, edges, node);
        lemma_joined(state, web.leads, links.dom(), node);
    }
}

/// Out edges stand in the order of their steps.
proof fn lemma_out_order(
    roots: Seq<Node>,
    list: Seq<Node>,
    keys: Seq<EdgeKey>,
    node: Node,
    upto: nat,
    first: int,
    second: int,
    q: int,
    r: int,
)
    requires
        upto <= keys.len(),
        keys.no_duplicates(),
        0 <= first < second < out_edges_of(roots, list, keys, node, upto).len(),
        0 <= q < keys.len(),
        0 <= r < keys.len(),
        out_edges_of(roots, list, keys, node, upto)[first] == keys[q],
        out_edges_of(roots, list, keys, node, upto)[second] == keys[r],
    ensures
        q < r,
    decreases upto,
{
    let before = out_edges_of(roots, list, keys, node, (upto - 1) as nat);
    if second < before.len() {
        lemma_out_order(roots, list, keys, node, (upto - 1) as nat, first, second, q, r);
    } else {
        let step = lemma_out_step(
            roots,
            list,
            keys,
            Seq::empty(),
            node,
            (upto - 1) as nat,
            first,
        );
    }
}

/// Where the out edge number `i` of `node` comes from: the position of its reader, the input of the
/// reader that it serves, and the step.
proof fn lemma_out_place(
    plan: Seq<IRModel>,
    roots: Seq<Node>,
    keys: Seq<EdgeKey>,
    links: Map<Node, EdgeKeysModel>,
    edges: Map<EdgeKey, Edge>,
    node: Node,
    i: int,
) -> (place: (int, int, int))
    requires
        plan.len() <= usize::MAX,
        has_graph(plan, roots),
        fresh_graph(web_of(plan, roots), keys, links, edges),
        links.contains_key(node),
        0 <= i < links[node].out_edges.len(),
    ensures
        ({
            let (p, j, q) = place;
            let web = web_of(plan, roots);
            let list = traversal(plan, roots);
            let reader = links[node].out_nodes[i];
            &&& 0 <= p < list.len() && list[p] == reader && is_last(plan, list, p)
            &&& 0 <= j < links[reader].in_edges.len()
            &&& links[reader].in_edges[j] == links[node].out_edges[i]
            &&& 0 <= q < keys.len() && keys[q] == links[node].out_edges[i]
            &&& q == hops(web, list, p as nat).len() + j
            &&& q < hops(web, list, (p + 1) as nat).len()
        }),
{
    let web = web_of(plan, roots);
    let list = traversal(plan, roots);
    let state = GraphState { plan, links, edges };
    lemma_woven(plan, roots);
    lemma_listing(web);
    law_new_graph(plan, roots, keys, links, edges, node);
    let reader = links[node].out_nodes[i];
    assert(state.links[node].out_edges[i] == links[node].out_edges[i]);
    assert(read_by(state, links.dom(), node, i));
    let j = choose|j: int|
        0 <= j < state.links[reader].in_edges.len() && #[trigger] state.links[reader].in_edges[j]
            == state.links[node].out_edges[i] && state.plan[reader as int].inputs()[j] == node;
    let q = lemma_in_edge(web, keys, links, edges, reader, j);
    lemma_hop_from(web, list, list.len(), q);
    let p = hops(web, list, list.len())[q].consumer_at;
    lemma_goes_on(plan, roots, p);
    lemma_last_hops(web, list, p, list.len());
    (p, j, q)
}

/// The out edges of a node stand in the order in which its readers are visited on to their inputs
/// and, where one of them reads the node several times, in the order of its inputs.
pub proof fn law_out_edges_in_order(
    plan: Seq<IRModel>,
    roots: Seq<Node>,
    keys: Seq<EdgeKey>,
    links: Map<Node, EdgeKeysModel>,
    edges: Map<EdgeKey, Edge>,
    node: Node,
    first: int,
    second: int,
) -> (places: ((int, int), (int, int)))
    requires
        plan.len() <= usize::MAX,
        has_graph(plan, roots),
        fresh_graph(web_of(plan, roots), keys, links, edges),
        links.contains_key(node),
        0 <= first < second < links[node].out_edges.len(),
    ensures
        ({
            let ((p, j), (r, k)) = places;
            let list = traversal(plan, roots);
            let one = links[node].out_nodes[first];
            let other = links[node].out_nodes[second];
            &&& 0 <= p < list.len() && list[p] == one && is_last(plan, list, p)
            &&& 0 <= r < list.len() && list[r] == other && is_last(plan, list, r)
            &&& 0 <= j < links[one].in_edges.len()
            &&& 0 <= k < links[other].in_edges.len()
            &&& links[one].in_edges[j] == links[node].out_edges[first]
            &&& links[other].in_edges[k] == links[node].out_edges[second]
            &&& p < r || (p == r && j < k)
        }),
{
    let web = web_of(plan, roots);
    let list = traversal(plan, roots);
    lemma_woven(plan, roots);
    lemma_node_links(web, keys, links, edges, node);
    let (p, j, q) = lemma_out_place(plan, roots, keys, links, edges, node, first);
    let (r, k, s) = lemma_out_place(plan, roots, keys, links, edges, node, second);
    lemma_out_order(roots, list, keys, node, keys.len(), first, second, q, s);
    if r < p {
        lemma_last_hops(web, list, r, p as nat);
    }
    ((p, j), (r, k))
}

/// A pass starts at the first position, over the plan as it is and its new graph, and all nodes
/// that are listed are in the plan.
pub proof fn law_started(plan: Seq<IRModel>, roots: Seq<Node>, pass: PassState, node: Node)
    requires
        plan.len() <= usize::MAX,
        simplifiable(plan, roots),
        started(plan, roots, pass),
    ensures
        pass.pos == 0 && pass.aggs_done == 0 && !pass.implode,
        pass.graph.plan == plan,
        pass.nodes == roots + unfolded(plan, pass.nodes, pass.nodes.len()),
        pass.live.contains(node) <==> pass.nodes.contains(node),
        exists|keys: Seq<EdgeKey>| #[trigger]
            fresh_graph(web_of(plan, roots), keys, pass.graph.links, pass.graph.edges),
        forall|key: EdgeKey| #[trigger]
            pass.graph.edges.contains_key(key) ==> pass.graph.edges[key] == Edge::Ordered,
{
    let keys = choose|keys: Seq<EdgeKey>| #[trigger]
        fresh_graph(web_of(plan, roots), keys, pass.graph.links, pass.graph.edges);
    law_list_unfolds(plan, roots);
    law_new_graph(plan, roots, keys, pass.graph.links, pass.graph.edges, node);
}

} // verus!
