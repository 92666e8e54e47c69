use simplify_ordering::admission::is_simplifiable;
use simplify_ordering::arena::{Arena, Node};
use simplify_ordering::edge::{Edge, EdgesMap};
use simplify_ordering::ir::{Plan, SinkPlan, UniqueKeepStrategy, IR};
use simplify_ordering::ir_graph::{
    build_ir_traversal_graph, unpack_edges_mut, IRNodeEdgeKeys, NodeEdges,
};
use simplify_ordering::simplify::SimplifyIRNodeOrder;

fn arena(nodes: Vec<IR>) -> Arena<IR> {
    let mut arena = Arena::new();
    for (i, node) in nodes.into_iter().enumerate() {
        assert_eq!(arena.add(node), i);
    }
    arena
}

fn sink(input: Node) -> IR {
    Plan::Sink { input, payload: SinkPlan::Single { maintain_order: true } }
}

fn filter(input: Node) -> IR {
    Plan::Filter { input, predicate: 0 }
}

fn cache(input: Node, id: u128) -> IR {
    Plan::Cache { input, id }
}

fn keys(map: &NodeEdges, node: Node) -> &IRNodeEdgeKeys {
    map.get(&node).unwrap()
}

/// Every in edge of the listed nodes is ordered and an out edge of the input, and every node is
/// listed once for each root that it is and for each of its out edges.
fn assert_connected(
    arena: &Arena<IR>,
    roots: &[Node],
    nodes: &[Node],
    graph: (NodeEdges, EdgesMap),
) {
    let simplifier = SimplifyIRNodeOrder {
        ir_node_to_edges_map: graph.0,
        all_edges_map: graph.1,
        ir_arena: Arena::new(),
    };
    let map = &simplifier.ir_node_to_edges_map;
    let mut num_edges = 0;
    for (&node, node_keys) in map.iter() {
        let mut inputs = Vec::new();
        arena.get(node).copy_inputs(&mut inputs);
        let in_edges = &node_keys.in_edges;
        let passed_over = matches!(arena.get(node), Plan::Cache { .. }) && in_edges.is_empty();
        assert!(passed_over || in_edges.len() == inputs.len());
        num_edges += in_edges.len();
        for (j, key) in in_edges.iter().enumerate() {
            assert_eq!(simplifier.edge(*key), Some(Edge::Ordered));
            let input = keys(map, inputs[j]);
            let at = input.out_edges.iter().position(|k| k == key).unwrap();
            assert_eq!(input.out_nodes[at], node);
        }
        let count = |list: &[Node]| list.iter().filter(|n| **n == node).count();
        assert!(nodes.contains(&node));
        assert_eq!(count(nodes), count(roots) + node_keys.out_edges.len());
    }
    assert!(nodes.iter().all(|node| map.contains_key(node)));
    assert_eq!(nodes.len(), roots.len() + num_edges);
}

#[test]
fn chain_is_listed_from_sink_to_source() {
    let plan = arena(vec![Plan::Scan, filter(0), sink(1)]);
    let (nodes, map, edges) = build_ir_traversal_graph(&[2], &plan);
    assert_eq!(nodes, vec![2, 1, 0]);
    assert_eq!(map.len(), 3);
    assert_eq!(keys(&map, 2).in_edges.len(), 1);
    assert_eq!(keys(&map, 2).out_edges.len(), 0);
    assert_eq!(keys(&map, 1).in_edges.len(), 1);
    assert_eq!(keys(&map, 1).out_edges, keys(&map, 2).in_edges);
    assert_eq!(keys(&map, 1).out_nodes, vec![2]);
    assert_eq!(keys(&map, 0).in_edges.len(), 0);
    assert_eq!(keys(&map, 0).out_edges, keys(&map, 1).in_edges);
    assert_eq!(keys(&map, 0).out_nodes, vec![1]);
    assert_ne!(keys(&map, 1).in_edges, keys(&map, 2).in_edges);
    assert_connected(&plan, &[2], &nodes, (map, edges));
}

#[test]
fn no_roots_give_an_empty_graph() {
    let plan = arena(vec![Plan::Scan]);
    let (nodes, map, _) = build_ir_traversal_graph(&[], &plan);
    assert_eq!(nodes, Vec::<Node>::new());
    assert_eq!(map.len(), 0);
}

#[test]
fn inputs_are_listed_level_by_level() {
    let plan = arena(vec![
        Plan::Scan,
        Plan::DataFrameScan,
        filter(0),
        Plan::HConcat { inputs: vec![2, 1] },
        sink(3),
        Plan::PythonScan,
        sink(5),
    ]);
    let (nodes, map, edges) = build_ir_traversal_graph(&[4, 6], &plan);
    assert_eq!(nodes, vec![4, 6, 3, 5, 2, 1, 0]);
    assert_eq!(keys(&map, 3).in_edges.len(), 2);
    assert_eq!(keys(&map, 2).out_edges[0], keys(&map, 3).in_edges[0]);
    assert_eq!(keys(&map, 1).out_edges[0], keys(&map, 3).in_edges[1]);
    assert_connected(&plan, &[4, 6], &nodes, (map, edges));
}

#[test]
fn cache_is_expanded_after_all_of_its_consumers() {
    // The cache is read directly and through two filters.
    let plan = arena(vec![
        Plan::Scan,
        cache(0, 7),
        filter(1),
        filter(2),
        Plan::Union { inputs: vec![1, 3], maintain_order: true },
        sink(4),
    ]);
    assert!(is_simplifiable(&[5], &plan));
    let (nodes, map, edges) = build_ir_traversal_graph(&[5], &plan);
    assert_eq!(nodes, vec![5, 4, 1, 3, 2, 1, 0]);
    assert_eq!(keys(&map, 1).out_nodes, vec![4, 2]);
    assert_eq!(keys(&map, 1).out_edges.len(), 2);
    assert_eq!(keys(&map, 1).in_edges.len(), 1);
    assert_eq!(keys(&map, 0).out_nodes, vec![1]);
    assert_connected(&plan, &[5], &nodes, (map, edges));
}

#[test]
fn cache_read_twice_by_one_consumer() {
    let plan = arena(vec![
        Plan::Scan,
        cache(0, 7),
        Plan::Union { inputs: vec![1, 1], maintain_order: true },
        sink(2),
    ]);
    let (nodes, map, edges) = build_ir_traversal_graph(&[3], &plan);
    assert_eq!(nodes, vec![3, 2, 1, 1, 0]);
    assert_eq!(keys(&map, 1).out_nodes, vec![2, 2]);
    assert_eq!(keys(&map, 1).out_edges, keys(&map, 2).in_edges);
    assert_ne!(keys(&map, 2).in_edges[0], keys(&map, 2).in_edges[1]);
    assert_connected(&plan, &[3], &nodes, (map, edges));
}

#[test]
fn of_several_cache_nodes_with_one_id_the_last_is_expanded() {
    let plan = arena(vec![
        Plan::Scan,
        cache(0, 7),
        cache(0, 7),
        Plan::HConcat { inputs: vec![1, 2] },
        sink(3),
    ]);
    assert!(is_simplifiable(&[4], &plan));
    let (nodes, map, edges) = build_ir_traversal_graph(&[4], &plan);
    assert_eq!(nodes, vec![4, 3, 1, 2, 0]);
    assert_eq!(map.len(), 5);
    assert_eq!(keys(&map, 1).in_edges.len(), 0);
    assert_eq!(keys(&map, 1).out_nodes, vec![3]);
    assert_eq!(keys(&map, 2).in_edges.len(), 1);
    assert_eq!(keys(&map, 2).out_nodes, vec![3]);
    assert_eq!(keys(&map, 0).out_nodes, vec![2]);
    assert_connected(&plan, &[4], &nodes, (map, edges));
}

#[test]
fn last_of_several_cache_nodes_can_lie_deeper() {
    let plan = arena(vec![
        Plan::Scan,
        cache(0, 7),
        cache(0, 7),
        filter(1),
        Plan::HConcat { inputs: vec![3, 2] },
        sink(4),
    ]);
    assert!(is_simplifiable(&[5], &plan));
    let (nodes, map, edges) = build_ir_traversal_graph(&[5], &plan);
    assert_eq!(nodes, vec![5, 4, 3, 2, 1, 0]);
    assert_eq!(keys(&map, 0).out_nodes, vec![1]);
    assert_eq!(keys(&map, 1).out_nodes, vec![3]);
    assert_eq!(keys(&map, 2).in_edges.len(), 0);
    assert_connected(&plan, &[5], &nodes, (map, edges));
}

#[test]
fn cache_node_that_is_passed_over_can_be_read_twice() {
    let plan = arena(vec![
        Plan::Scan,
        cache(0, 7),
        cache(0, 7),
        Plan::HConcat { inputs: vec![1, 1, 2] },
        sink(3),
    ]);
    let (nodes, map, edges) = build_ir_traversal_graph(&[4], &plan);
    assert_eq!(nodes, vec![4, 3, 1, 1, 2, 0]);
    assert_eq!(keys(&map, 1).in_edges.len(), 0);
    assert_eq!(keys(&map, 1).out_nodes, vec![3, 3]);
    assert_connected(&plan, &[4], &nodes, (map, edges));
}

#[test]
fn cache_node_that_is_passed_over_can_be_a_root() {
    let plan = arena(vec![Plan::Scan, cache(0, 7), cache(0, 7)]);
    assert!(is_simplifiable(&[1, 2], &plan));
    let (nodes, map, edges) = build_ir_traversal_graph(&[1, 2], &plan);
    assert_eq!(nodes, vec![1, 2, 0]);
    assert_eq!(map.len(), 3);
    assert_eq!(keys(&map, 1).in_edges.len(), 0);
    assert_eq!(keys(&map, 1).out_edges.len(), 0);
    assert_eq!(keys(&map, 0).out_nodes, vec![2]);
    assert_connected(&plan, &[1, 2], &nodes, (map, edges));
}

#[test]
fn of_cache_nodes_that_disagree_the_last_is_followed() {
    let plan = arena(vec![
        Plan::Scan,
        Plan::DataFrameScan,
        cache(0, 1),
        cache(1, 1),
        filter(2),
        Plan::Union { inputs: vec![4, 3], maintain_order: true },
        Plan::Union { inputs: vec![2, 3], maintain_order: true },
    ]);
    let (nodes, map, edges) = build_ir_traversal_graph(&[5], &plan);
    assert_eq!(nodes, vec![5, 4, 3, 2, 0]);
    assert!(map.get(&1).is_none());
    assert_eq!(keys(&map, 0).out_nodes, vec![2]);
    assert_eq!(keys(&map, 3).in_edges.len(), 0);
    assert_connected(&plan, &[5], &nodes, (map, edges));

    let (nodes, map, edges) = build_ir_traversal_graph(&[6], &plan);
    assert_eq!(nodes, vec![6, 2, 3, 1]);
    assert!(map.get(&0).is_none());
    assert_eq!(keys(&map, 1).out_nodes, vec![3]);
    assert_connected(&plan, &[6], &nodes, (map, edges));
}

#[test]
fn cache_nodes_can_disagree_below_others_that_do() {
    // Which of the lower cache nodes comes last depends on which of the upper ones does.
    let plan = arena(vec![
        Plan::Scan,
        Plan::DataFrameScan,
        cache(0, 1),
        cache(1, 1),
        filter(2),
        cache(4, 2),
        cache(3, 2),
        filter(5),
        Plan::Union { inputs: vec![7, 6, 3], maintain_order: true },
        sink(8),
    ]);
    assert!(is_simplifiable(&[9], &plan));
    let (nodes, map, edges) = build_ir_traversal_graph(&[9], &plan);
    assert_eq!(nodes, vec![9, 8, 7, 6, 3, 5, 4, 2, 0]);
    assert_eq!(keys(&map, 6).in_edges.len(), 0);
    assert_eq!(keys(&map, 3).in_edges.len(), 0);
    assert_eq!(keys(&map, 2).out_nodes, vec![4]);
    assert_connected(&plan, &[9], &nodes, (map, edges));
}

#[test]
fn cache_below_a_shared_cache_is_expanded() {
    let plan = arena(vec![
        Plan::DataFrameScan,
        cache(0, 1),
        cache(1, 2),
        Plan::Union { inputs: vec![2, 2], maintain_order: true },
    ]);
    let (nodes, map, edges) = build_ir_traversal_graph(&[3], &plan);
    assert_eq!(nodes, vec![3, 2, 2, 1, 0]);
    assert_eq!(map.len(), 4);
    assert_eq!(keys(&map, 2).in_edges.len(), 1);
    assert_eq!(keys(&map, 1).in_edges.len(), 1);
    assert_eq!(keys(&map, 1).out_nodes, vec![2]);
    assert_eq!(keys(&map, 0).out_nodes, vec![1]);
    assert_connected(&plan, &[3], &nodes, (map, edges));
}

#[test]
fn caches_below_caches_wait_for_each_other() {
    // The lower cache is read from above the upper one too, and is itself a root.
    let plan = arena(vec![
        Plan::Scan,
        cache(0, 1),
        filter(1),
        cache(2, 2),
        Plan::Union { inputs: vec![1, 3, 3], maintain_order: true },
        sink(4),
    ]);
    let (nodes, map, edges) = build_ir_traversal_graph(&[5, 1], &plan);
    assert_eq!(nodes, vec![5, 1, 4, 1, 3, 3, 2, 1, 0]);
    assert_eq!(map.len(), 6);
    assert_eq!(keys(&map, 1).out_nodes, vec![4, 2]);
    assert_eq!(keys(&map, 0).out_nodes, vec![1]);
    assert_connected(&plan, &[5, 1], &nodes, (map, edges));
}

#[test]
fn source_read_twice() {
    let plan = arena(vec![
        Plan::Scan,
        Plan::Union { inputs: vec![0, 0], maintain_order: true },
        sink(1),
    ]);
    assert!(is_simplifiable(&[2], &plan));
    let (nodes, map, edges) = build_ir_traversal_graph(&[2], &plan);
    assert_eq!(nodes, vec![2, 1, 0, 0]);
    assert_eq!(keys(&map, 0).out_nodes, vec![1, 1]);
    assert_connected(&plan, &[2], &nodes, (map, edges));
}

#[test]
fn unpacked_edges_can_be_read_and_written() {
    let plan = arena(vec![
        Plan::Scan,
        Plan::DataFrameScan,
        Plan::MergeSorted { input_left: 0, input_right: 1 },
        sink(2),
    ]);
    let (_, map, mut edges) = build_ir_traversal_graph(&[3], &plan);
    {
        let unpacked = unpack_edges_mut::<2, 1, 3>(keys(&map, 2), &mut edges).unwrap();
        assert_eq!(*unpacked[0], Edge::Ordered);
        assert_eq!(*unpacked[1], Edge::Ordered);
        assert_eq!(*unpacked[2], Edge::Ordered);
        *unpacked[1] = Edge::Unordered;
    }
    let right = keys(&map, 1).out_edges[0];
    let left = keys(&map, 0).out_edges[0];
    let out = keys(&map, 3).in_edges[0];
    let simplifier = SimplifyIRNodeOrder {
        ir_node_to_edges_map: map,
        all_edges_map: edges,
        ir_arena: plan,
    };
    assert_eq!(simplifier.edge(left), Some(Edge::Ordered));
    assert_eq!(simplifier.edge(right), Some(Edge::Unordered));
    assert_eq!(simplifier.edge(out), Some(Edge::Ordered));
}

#[test]
fn edges_are_unpacked_only_in_the_right_number() {
    let plan = arena(vec![Plan::Scan, filter(0), sink(1)]);
    let (_, map, mut edges) = build_ir_traversal_graph(&[2], &plan);
    assert!(unpack_edges_mut::<1, 1, 2>(keys(&map, 1), &mut edges).is_some());
    assert!(unpack_edges_mut::<2, 1, 3>(keys(&map, 1), &mut edges).is_none());
    assert!(unpack_edges_mut::<1, 0, 1>(keys(&map, 1), &mut edges).is_none());
    assert!(unpack_edges_mut::<0, 1, 1>(keys(&map, 1), &mut edges).is_none());
    assert!(unpack_edges_mut::<1, 0, 1>(keys(&map, 2), &mut edges).is_some());
    assert!(unpack_edges_mut::<0, 1, 1>(keys(&map, 0), &mut edges).is_some());
}

#[test]
fn keys_of_another_graph_are_unknown() {
    let small = arena(vec![Plan::Scan, sink(0)]);
    let large = arena(vec![Plan::Scan, filter(0), filter(1), sink(2)]);
    let (_, small_map, small_edges) = build_ir_traversal_graph(&[1], &small);
    let (_, large_map, _) = build_ir_traversal_graph(&[3], &large);
    let simplifier = SimplifyIRNodeOrder {
        ir_node_to_edges_map: small_map,
        all_edges_map: small_edges,
        ir_arena: small,
    };
    assert_eq!(simplifier.edge(keys(&large_map, 1).in_edges[0]), None);
}

#[test]
fn edge_starts_out_ordered() {
    assert_eq!(Edge::default(), Edge::Ordered);
    assert!(!Edge::Ordered.is_unordered());
    assert!(Edge::Unordered.is_unordered());
}

#[test]
fn plans_that_cannot_be_simplified() {
    // A node that is not there, at the top and below.
    assert!(!is_simplifiable(&[3], &arena(vec![Plan::Scan])));
    assert!(!is_simplifiable(&[1], &arena(vec![Plan::Scan, sink(9)])));
    // A node below itself.
    assert!(!is_simplifiable(&[2], &arena(vec![filter(1), filter(0), sink(1)])));
    // A filter that two nodes read from without a cache.
    let shared = arena(vec![
        Plan::Scan,
        filter(0),
        Plan::Union { inputs: vec![1, 1], maintain_order: true },
        sink(2),
    ]);
    assert!(!is_simplifiable(&[3], &shared));
    // Nodes that need a consumer without one, and a sink with one.
    assert!(!is_simplifiable(&[1], &arena(vec![Plan::Scan, filter(0)])));
    let union = Plan::Union { inputs: vec![0], maintain_order: true };
    assert!(!is_simplifiable(&[1], &arena(vec![Plan::Scan, union])));
    assert!(!is_simplifiable(&[2], &arena(vec![Plan::Scan, sink(0), sink(1)])));
    // Nodes that are no part of a plan that is ready.
    assert!(!is_simplifiable(&[1], &arena(vec![Plan::Invalid, sink(0)])));
    let sinks = arena(vec![Plan::Scan, sink(0), Plan::SinkMultiple { inputs: vec![1] }]);
    assert!(!is_simplifiable(&[2], &sinks));
    // A cache below another one with its id.
    let roots = arena(vec![Plan::Scan, cache(0, 1), cache(1, 1)]);
    assert!(!is_simplifiable(&[2], &roots));
}

#[test]
fn plans_that_can_be_simplified() {
    assert!(is_simplifiable(&[], &arena(vec![])));
    assert!(is_simplifiable(&[0], &arena(vec![Plan::Scan])));
    assert!(is_simplifiable(&[1], &arena(vec![Plan::Scan, Plan::Slice { input: 0 }])));
    assert!(is_simplifiable(&[1, 1], &arena(vec![Plan::Scan, cache(0, 5)])));
    let distinct = Plan::Distinct {
        input: 0,
        maintain_order: true,
        keep_strategy: UniqueKeepStrategy::Any,
    };
    assert!(is_simplifiable(&[2], &arena(vec![Plan::Scan, distinct, sink(1)])));
    // Roots that do not reach all of the arena.
    assert!(is_simplifiable(&[1], &arena(vec![Plan::Scan, sink(0), Plan::Invalid])));
}

#[test]
fn node_inputs_can_be_exchanged() {
    let mut join = Plan::Join {
        input_left: 1,
        input_right: 2,
        left_on: vec![],
        right_on: vec![],
        is_asof: false,
        maintain_order: simplify_ordering::ir::MaintainOrderJoin::Left,
    };
    join.set_input(1, 8);
    let mut inputs = vec![0];
    join.copy_inputs(&mut inputs);
    assert_eq!(inputs, vec![0, 1, 8]);
    let mut union: IR = Plan::Union { inputs: vec![3, 4, 5], maintain_order: true };
    union.set_input(2, 6);
    assert_eq!(union, Plan::Union { inputs: vec![3, 4, 6], maintain_order: true });
}
