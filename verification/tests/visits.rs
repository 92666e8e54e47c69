use simplify_ordering::arena::{Arena, Node};
use simplify_ordering::edge::Edge;
use simplify_ordering::ir::{
    FunctionIR, MaintainOrderJoin, Plan, SinkPlan, UniqueKeepStrategy, IR,
};
use simplify_ordering::ir_graph::build_ir_traversal_graph;
use simplify_ordering::orders::{ExprQuery, ExprReply, ObservableOrders};
use simplify_ordering::simplify::SimplifyIRNodeOrder;

const NONE: ObservableOrders = ObservableOrders { independent: false, column: false };
const COLUMN: ObservableOrders = ObservableOrders { independent: false, column: true };

fn graph(roots: &[Node], nodes: Vec<IR>) -> SimplifyIRNodeOrder {
    let mut ir_arena = Arena::new();
    for node in nodes {
        ir_arena.add(node);
    }
    let (_, ir_node_to_edges_map, all_edges_map) = build_ir_traversal_graph(roots, &ir_arena);
    SimplifyIRNodeOrder { ir_node_to_edges_map, all_edges_map, ir_arena }
}

fn ins(graph: &SimplifyIRNodeOrder, node: Node) -> Vec<Edge> {
    let keys = graph.ir_node_to_edges_map.get(&node).unwrap();
    keys.in_edges.iter().map(|key| graph.edge(*key).unwrap()).collect()
}

fn outs(graph: &SimplifyIRNodeOrder, node: Node) -> Vec<Edge> {
    let keys = graph.ir_node_to_edges_map.get(&node).unwrap();
    keys.out_edges.iter().map(|key| graph.edge(*key).unwrap()).collect()
}

fn sink(input: Node, maintain_order: bool) -> IR {
    Plan::Sink { input, payload: SinkPlan::Single { maintain_order } }
}

fn sort(input: Node, has_slice: bool, maintain_order: bool) -> IR {
    Plan::Sort { input, by_column: vec![40], has_slice, maintain_order }
}

fn columns() -> Option<ExprReply> {
    Some(ExprReply { first: COLUMN, second: COLUMN, internal: NONE })
}

fn nothing() -> Option<ExprReply> {
    Some(ExprReply { first: NONE, second: NONE, internal: NONE })
}

#[test]
fn sink_takes_the_order_away() {
    let mut g = graph(&[1], vec![Plan::Scan, sink(0, false)]);
    assert_eq!(g.expr_query(1), None);
    assert_eq!(ins(&g, 1), vec![Edge::Ordered]);
    assert!(!g.simplify_ir_node_orders(1, None));
    assert_eq!(ins(&g, 1), vec![Edge::Unordered]);
    assert_eq!(*g.ir_arena.get(1), sink(0, false));

    let mut g = graph(&[1], vec![Plan::Scan, sink(0, true)]);
    assert!(!g.simplify_ir_node_orders(1, None));
    assert_eq!(ins(&g, 1), vec![Edge::Ordered]);
    assert_eq!(*g.ir_arena.get(1), sink(0, true));
}

#[test]
fn partitioned_sink_asks_for_its_keys() {
    let payload = SinkPlan::Partitioned { key_exprs: vec![3, 4], maintain_order: false };
    let mut g = graph(&[1], vec![Plan::Scan, Plan::Sink { input: 0, payload }]);
    let query = ExprQuery { first: vec![3, 4], second: None, unordered_output: false };
    assert_eq!(g.expr_query(1), Some(query));
    assert!(!g.simplify_ir_node_orders(1, columns()));
    assert_eq!(ins(&g, 1), vec![Edge::Unordered]);
}

#[test]
fn sort_of_unordered_output_is_unlinked() {
    let mut g = graph(&[3], vec![
        Plan::Scan,
        Plan::Slice { input: 0 },
        sort(1, false, true),
        sink(2, false),
    ]);
    g.simplify_ir_node_orders(3, None);
    let kept = g.ir_node_to_edges_map.get(&3).unwrap().in_edges[0];
    assert_eq!(g.expr_query(2), None);
    assert!(g.simplify_ir_node_orders(2, None));
    assert_eq!(*g.ir_arena.get(3), sink(1, false));
    let slice = g.ir_node_to_edges_map.get(&1).unwrap();
    assert_eq!(slice.out_nodes, vec![3]);
    assert_eq!(slice.out_edges, vec![kept]);
    assert_eq!(ins(&g, 3), vec![Edge::Unordered]);
    assert_eq!(outs(&g, 1), vec![Edge::Unordered]);
    assert_eq!(ins(&g, 2), vec![Edge::Unordered]);
}

#[test]
fn sort_of_ordered_output_stays() {
    let mut g = graph(&[2], vec![Plan::Scan, sort(0, false, false), sink(1, true)]);
    let query = ExprQuery { first: vec![40], second: None, unordered_output: false };
    assert_eq!(g.expr_query(1), Some(query));
    assert!(!g.simplify_ir_node_orders(1, columns()));
    assert_eq!(ins(&g, 1), vec![Edge::Unordered]);
    assert_eq!(outs(&g, 1), vec![Edge::Ordered]);
    assert_eq!(*g.ir_arena.get(2), sink(1, true));
}

#[test]
fn sort_with_a_slice_stays() {
    let mut g = graph(&[2], vec![Plan::Scan, sort(0, true, true), sink(1, false)]);
    g.simplify_ir_node_orders(2, None);
    assert!(g.expr_query(1).is_some());
    assert!(!g.simplify_ir_node_orders(1, columns()));
    assert_eq!(ins(&g, 1), vec![Edge::Ordered]);
    assert_eq!(*g.ir_arena.get(1), sort(0, true, true));
    assert_eq!(*g.ir_arena.get(2), sink(1, false));
}

#[test]
fn unlinked_sort_above_one_side_of_a_join() {
    let join = |input_left: Node, maintain_order: MaintainOrderJoin| Plan::Join {
        input_left,
        input_right: 1,
        left_on: vec![5],
        right_on: vec![6],
        is_asof: false,
        maintain_order,
    };
    let mut g = graph(&[4], vec![
        Plan::Scan,
        Plan::DataFrameScan,
        sort(0, false, false),
        join(2, MaintainOrderJoin::Right),
        sink(3, true),
    ]);
    let query = ExprQuery { first: vec![5], second: Some(vec![6]), unordered_output: false };
    assert_eq!(g.expr_query(3), Some(query));
    assert!(!g.simplify_ir_node_orders(3, columns()));
    assert_eq!(ins(&g, 3), vec![Edge::Unordered, Edge::Ordered]);
    assert!(g.simplify_ir_node_orders(2, None));
    assert_eq!(*g.ir_arena.get(3), join(0, MaintainOrderJoin::Right));
    assert_eq!(g.ir_node_to_edges_map.get(&0).unwrap().out_nodes, vec![3]);
    assert_eq!(ins(&g, 3), vec![Edge::Unordered, Edge::Ordered]);
    assert_eq!(outs(&g, 1), vec![Edge::Ordered]);
}

#[test]
fn node_can_be_unlinked_by_hand() {
    let mut g = graph(&[3], vec![
        Plan::Scan,
        Plan::DataFrameScan,
        Plan::SimpleProjection { input: 1 },
        Plan::HConcat { inputs: vec![0, 2] },
    ]);
    let kept = g.ir_node_to_edges_map.get(&3).unwrap().in_edges[1];
    assert!(g.unlink_node(2, 1));
    assert_eq!(*g.ir_arena.get(3), Plan::HConcat { inputs: vec![0, 1] });
    let input = g.ir_node_to_edges_map.get(&1).unwrap();
    assert_eq!(input.out_edges, vec![kept]);
    assert_eq!(input.out_nodes, vec![3]);
}

#[test]
fn asof_join_is_left_alone() {
    let join = || Plan::Join {
        input_left: 0,
        input_right: 1,
        left_on: vec![5],
        right_on: vec![6],
        is_asof: true,
        maintain_order: MaintainOrderJoin::Neither,
    };
    let mut g = graph(&[3], vec![Plan::Scan, Plan::Scan, join(), sink(2, false)]);
    g.simplify_ir_node_orders(3, None);
    assert!(g.expr_query(2).is_some());
    assert!(!g.simplify_ir_node_orders(2, columns()));
    assert_eq!(ins(&g, 2), vec![Edge::Ordered, Edge::Ordered]);
    assert_eq!(outs(&g, 2), vec![Edge::Unordered]);
    assert_eq!(*g.ir_arena.get(2), join());
}

#[test]
fn join_without_maintained_order_frees_both_sides() {
    let join = Plan::Join {
        input_left: 0,
        input_right: 1,
        left_on: vec![],
        right_on: vec![],
        is_asof: false,
        maintain_order: MaintainOrderJoin::Neither,
    };
    let mut g = graph(&[3], vec![Plan::Scan, Plan::Scan, join, sink(2, true)]);
    g.simplify_ir_node_orders(2, nothing());
    assert_eq!(ins(&g, 2), vec![Edge::Unordered, Edge::Unordered]);
    assert_eq!(outs(&g, 2), vec![Edge::Unordered]);
}

#[test]
fn select_and_hstack_ask_with_the_state_of_their_output() {
    let mut g = graph(&[3], vec![
        Plan::Scan,
        Plan::HStack { input: 0, exprs: vec![7, 8], schema_len: 3 },
        Plan::Select { input: 1, expr: vec![9] },
        sink(2, false),
    ]);
    let select = |unordered_output| ExprQuery { first: vec![9], second: None, unordered_output };
    assert_eq!(g.expr_query(2), Some(select(false)));
    g.simplify_ir_node_orders(3, None);
    assert_eq!(g.expr_query(2), Some(select(true)));
    g.simplify_ir_node_orders(2, columns());
    assert_eq!(ins(&g, 2), vec![Edge::Unordered]);
    // Not all columns come from the expressions.
    let hstack = ExprQuery { first: vec![7, 8], second: None, unordered_output: false };
    assert_eq!(g.expr_query(1), Some(hstack));

    let mut g = graph(&[2], vec![
        Plan::Scan,
        Plan::HStack { input: 0, exprs: vec![7, 8], schema_len: 2 },
        sink(1, false),
    ]);
    g.simplify_ir_node_orders(2, None);
    let hstack = ExprQuery { first: vec![7, 8], second: None, unordered_output: true };
    assert_eq!(g.expr_query(1), Some(hstack));
}

#[test]
fn hstack_in_mixed_orders_keeps_its_input_ordered() {
    let own = ObservableOrders { independent: true, column: false };
    let reply = Some(ExprReply { first: own, second: NONE, internal: NONE });
    for (schema_len, expected) in [(2, Edge::Ordered), (1, Edge::Unordered)] {
        let hstack = Plan::HStack { input: 0, exprs: vec![7], schema_len };
        let mut g = graph(&[2], vec![Plan::Scan, hstack, sink(1, true)]);
        g.simplify_ir_node_orders(1, reply);
        assert_eq!(ins(&g, 1), vec![expected]);
        assert_eq!(outs(&g, 1), vec![Edge::Ordered]);
    }
}

#[test]
fn filter_asks_for_its_predicate() {
    let filter = Plan::Filter { input: 0, predicate: 12 };
    let mut g = graph(&[2], vec![Plan::Scan, filter, sink(1, false)]);
    let query = ExprQuery { first: vec![12], second: None, unordered_output: false };
    assert_eq!(g.expr_query(1), Some(query));
    g.simplify_ir_node_orders(2, None);
    g.simplify_ir_node_orders(1, columns());
    assert_eq!(ins(&g, 1), vec![Edge::Unordered]);
}

#[test]
fn group_by_switches_its_option_off() {
    let group_by = |maintain_order: bool, is_dynamic: bool| Plan::GroupBy {
        input: 0,
        keys: vec![1],
        aggs: vec![2],
        maintain_order,
        is_dynamic,
        is_rolling: false,
        has_apply: false,
    };
    let mut g = graph(&[2], vec![Plan::Scan, group_by(true, false), sink(1, true)]);
    let query = ExprQuery { first: vec![1], second: Some(vec![2]), unordered_output: false };
    assert_eq!(g.expr_query(1), Some(query));
    g.simplify_ir_node_orders(1, nothing());
    assert_eq!(*g.ir_arena.get(1), group_by(false, false));
    assert_eq!(ins(&g, 1), vec![Edge::Unordered]);
    assert_eq!(outs(&g, 1), vec![Edge::Unordered]);

    let mut g = graph(&[2], vec![Plan::Scan, group_by(true, true), sink(1, true)]);
    g.simplify_ir_node_orders(1, nothing());
    assert_eq!(*g.ir_arena.get(1), group_by(true, true));
    assert_eq!(ins(&g, 1), vec![Edge::Ordered]);
}

#[test]
fn distinct_switches_its_option_off() {
    let distinct = |maintain_order: bool| Plan::Distinct {
        input: 0,
        maintain_order,
        keep_strategy: UniqueKeepStrategy::First,
    };
    let mut g = graph(&[2], vec![Plan::Scan, distinct(true), sink(1, false)]);
    g.simplify_ir_node_orders(2, None);
    assert_eq!(g.expr_query(1), None);
    g.simplify_ir_node_orders(1, None);
    assert_eq!(*g.ir_arena.get(1), distinct(false));
    assert_eq!(ins(&g, 1), vec![Edge::Ordered]);
}

#[test]
fn union_stays_ordered_over_unordered_inputs() {
    let union = |maintain_order: bool| Plan::Union { inputs: vec![1, 3], maintain_order };
    let sorted = |input| Plan::Distinct {
        input,
        maintain_order: false,
        keep_strategy: UniqueKeepStrategy::Any,
    };
    let nodes = |maintain_order| vec![
        Plan::Scan,
        sorted(0),
        Plan::Scan,
        sorted(2),
        union(maintain_order),
        sink(4, true),
    ];
    let mut g = graph(&[5], nodes(true));
    g.simplify_ir_node_orders(1, None);
    g.simplify_ir_node_orders(3, None);
    assert_eq!(ins(&g, 4), vec![Edge::Unordered, Edge::Unordered]);
    g.simplify_ir_node_orders(4, None);
    assert_eq!(outs(&g, 4), vec![Edge::Ordered]);
    assert_eq!(*g.ir_arena.get(4), union(true));

    let mut g = graph(&[5], nodes(false));
    g.simplify_ir_node_orders(4, None);
    assert_eq!(ins(&g, 4), vec![Edge::Unordered, Edge::Unordered]);
    assert_eq!(outs(&g, 4), vec![Edge::Unordered]);
}

#[test]
fn merge_of_unordered_rows_becomes_a_union() {
    let merge = || Plan::MergeSorted { input_left: 0, input_right: 1 };
    let mut g = graph(&[3], vec![Plan::Scan, Plan::DataFrameScan, merge(), sink(2, false)]);
    g.simplify_ir_node_orders(2, None);
    assert_eq!(*g.ir_arena.get(2), merge());
    g.simplify_ir_node_orders(3, None);
    g.simplify_ir_node_orders(2, None);
    assert_eq!(*g.ir_arena.get(2), Plan::Union { inputs: vec![0, 1], maintain_order: false });
    assert_eq!(ins(&g, 2), vec![Edge::Unordered, Edge::Unordered]);
}

#[test]
fn map_function_is_judged_by_its_traits() {
    let function = FunctionIR {
        observes_input_order: false,
        has_equal_order: true,
        order_producing_if_ordered: false,
        order_producing_if_unordered: false,
    };
    let map = Plan::MapFunction { input: 0, function };
    let mut g = graph(&[2], vec![Plan::Scan, map, sink(1, false)]);
    g.simplify_ir_node_orders(2, None);
    g.simplify_ir_node_orders(1, None);
    assert_eq!(ins(&g, 1), vec![Edge::Unordered]);
}

#[test]
fn horizontal_concat_needs_all_inputs_unordered() {
    let distinct = |input| Plan::Distinct {
        input,
        maintain_order: false,
        keep_strategy: UniqueKeepStrategy::Any,
    };
    for ir in [
        Plan::HConcat { inputs: vec![1, 3] },
        Plan::ExtContext { inputs: vec![1, 3] },
    ] {
        let mut g = graph(&[5], vec![
            Plan::Scan,
            distinct(0),
            Plan::Scan,
            distinct(2),
            ir,
            sink(4, true),
        ]);
        g.simplify_ir_node_orders(1, None);
        g.simplify_ir_node_orders(4, None);
        assert_eq!(outs(&g, 4), vec![Edge::Ordered]);
        g.simplify_ir_node_orders(3, None);
        g.simplify_ir_node_orders(4, None);
        assert_eq!(outs(&g, 4), vec![Edge::Unordered]);
    }
}

#[test]
fn slice_and_projection_pass_on_missing_order() {
    for ir in [Plan::Slice { input: 1 }, Plan::SimpleProjection { input: 1 }] {
        let distinct = Plan::Distinct {
            input: 0,
            maintain_order: false,
            keep_strategy: UniqueKeepStrategy::Any,
        };
        let mut g = graph(&[3], vec![Plan::Scan, distinct, ir, sink(2, true)]);
        g.simplify_ir_node_orders(2, None);
        assert_eq!(outs(&g, 2), vec![Edge::Ordered]);
        g.simplify_ir_node_orders(1, None);
        g.simplify_ir_node_orders(2, None);
        assert_eq!(outs(&g, 2), vec![Edge::Unordered]);
        assert_eq!(ins(&g, 3), vec![Edge::Unordered]);
    }
}

#[test]
fn cache_needs_all_consumers_unordered() {
    let mut g = graph(&[2, 3], vec![
        Plan::Scan,
        Plan::Cache { input: 0, id: 1 },
        sink(1, false),
        sink(1, false),
    ]);
    g.simplify_ir_node_orders(2, None);
    g.simplify_ir_node_orders(1, None);
    assert_eq!(outs(&g, 1), vec![Edge::Unordered, Edge::Ordered]);
    assert_eq!(ins(&g, 1), vec![Edge::Ordered]);
    g.simplify_ir_node_orders(3, None);
    g.simplify_ir_node_orders(1, None);
    assert_eq!(ins(&g, 1), vec![Edge::Unordered]);
}

#[test]
fn cache_of_unordered_rows_hands_none_on_in_order() {
    let distinct = Plan::Distinct {
        input: 0,
        maintain_order: false,
        keep_strategy: UniqueKeepStrategy::Any,
    };
    let mut g = graph(&[3, 4], vec![
        Plan::Scan,
        distinct,
        Plan::Cache { input: 1, id: 1 },
        sink(2, true),
        sink(2, true),
    ]);
    g.simplify_ir_node_orders(1, None);
    g.simplify_ir_node_orders(2, None);
    assert_eq!(outs(&g, 2), vec![Edge::Unordered, Edge::Unordered]);
    g.simplify_ir_node_orders(3, None);
    assert_eq!(*g.ir_arena.get(3), sink(2, false));
}

#[test]
fn cache_without_an_edge_to_its_input_hands_none_on_in_order() {
    let mut g = graph(&[3, 4], vec![
        Plan::Scan,
        Plan::Cache { input: 0, id: 1 },
        Plan::Cache { input: 0, id: 1 },
        sink(1, true),
        sink(2, true),
    ]);
    assert_eq!(ins(&g, 1), Vec::<Edge>::new());
    g.simplify_ir_node_orders(1, None);
    assert_eq!(outs(&g, 1), vec![Edge::Unordered]);
    g.simplify_ir_node_orders(2, None);
    assert_eq!(outs(&g, 2), vec![Edge::Ordered]);
}

#[test]
fn sources_are_left_alone() {
    for ir in [Plan::Scan, Plan::DataFrameScan, Plan::PythonScan] {
        let mut g = graph(&[1], vec![ir, sink(0, true)]);
        assert_eq!(g.expr_query(0), None);
        assert!(!g.simplify_ir_node_orders(0, None));
        assert_eq!(outs(&g, 0), vec![Edge::Ordered]);
    }
}
