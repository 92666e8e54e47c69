use simplify_ordering::admission::is_simplifiable;
use simplify_ordering::arena::{Arena, Node};
use simplify_ordering::edge::Edge;
use simplify_ordering::ir::{MaintainOrderJoin, Plan, SinkPlan, UniqueKeepStrategy, IR};
use simplify_ordering::orders::{ExprQuery, ExprReply, ObservableOrders};
use simplify_ordering::pass::{simplify_ir_ordering, OrderingPass, Reply, Request, Wanted};

const NONE: ObservableOrders = ObservableOrders { independent: false, column: false };
const COLUMN: ObservableOrders = ObservableOrders { independent: false, column: true };
const INDEPENDENT: ObservableOrders = ObservableOrders { independent: true, column: false };

fn start(roots: &[Node], nodes: Vec<IR>) -> OrderingPass {
    let mut arena = Arena::new();
    for node in nodes {
        arena.add(node);
    }
    assert!(is_simplifiable(roots, &arena));
    simplify_ir_ordering(roots, arena)
}

fn sink(input: Node, maintain_order: bool) -> IR {
    Plan::Sink { input, payload: SinkPlan::Single { maintain_order } }
}

fn sort(input: Node) -> IR {
    Plan::Sort { input, by_column: vec![40], has_slice: false, maintain_order: true }
}

fn orders(first: ObservableOrders) -> Reply {
    Reply::Orders(ExprReply { first, second: NONE, internal: NONE })
}

/// Answers every request with plain columns and scalar aggregations; returns the requests.
fn run(pass: &mut OrderingPass) -> Vec<Request> {
    let mut requests = Vec::new();
    loop {
        let request = pass.request();
        let reply = match &request {
            Wanted::Finished => break,
            Wanted::Proceed => Reply::Proceed,
            Wanted::IsScalar(_) => Reply::IsScalar(true),
            Wanted::AddImplode(_) => unreachable!(),
            Wanted::Simplify(_) => orders(COLUMN),
        };
        assert!(pass.accepts(&reply));
        pass.resume(reply);
        requests.push(request);
    }
    assert!(pass.is_finished());
    requests
}

fn edge_below(pass: &OrderingPass, node: Node, j: usize) -> Edge {
    let keys = pass.simplifier.ir_node_to_edges_map.get(&node).unwrap();
    pass.simplifier.edge(keys.in_edges[j]).unwrap()
}

#[test]
fn pass_over_nothing_is_over() {
    let mut pass = start(&[], vec![]);
    assert_eq!(pass.request(), Wanted::Finished);
    assert!(run(&mut pass).is_empty());
}

#[test]
fn every_node_is_visited_on_the_way_down_and_on_the_way_back() {
    let mut pass = start(&[2], vec![
        Plan::Scan,
        Plan::Filter { input: 0, predicate: 5 },
        sink(1, true),
    ]);
    assert_eq!(pass.ir_nodes_stack, vec![2, 1, 0]);
    assert_eq!(edge_below(&pass, 2, 0), Edge::Ordered);
    let query = || ExprQuery { first: vec![5], second: None, unordered_output: false };
    assert_eq!(run(&mut pass), vec![
        Wanted::Proceed,
        Wanted::Simplify(query()),
        Wanted::Proceed,
        Wanted::Proceed,
        Wanted::Simplify(query()),
        Wanted::Proceed,
    ]);
    assert_eq!(edge_below(&pass, 2, 0), Edge::Ordered);
    assert_eq!(edge_below(&pass, 1, 0), Edge::Ordered);
    assert_eq!(*pass.simplifier.ir_arena.get(2), sink(1, true));
}

#[test]
fn order_that_no_sink_wants_is_taken_away() {
    let mut pass = start(&[3], vec![
        Plan::Scan,
        sort(0),
        Plan::Filter { input: 1, predicate: 5 },
        sink(2, false),
    ]);
    run(&mut pass);
    // The sort is gone, and the filter reads what the sort read.
    assert_eq!(*pass.simplifier.ir_arena.get(2), Plan::Filter { input: 0, predicate: 5 });
    assert_eq!(edge_below(&pass, 3, 0), Edge::Unordered);
    assert_eq!(edge_below(&pass, 2, 0), Edge::Unordered);
    assert!(pass.deleted_idxs.is_empty());
}

#[test]
fn deleted_node_is_passed_over_on_the_way_back() {
    let mut pass = start(&[2], vec![Plan::Scan, sort(0), sink(1, false)]);
    pass.resume(Reply::Proceed);
    // The sort needs no answer: it goes.
    assert_eq!(pass.request(), Wanted::Proceed);
    pass.resume(Reply::Proceed);
    assert_eq!(pass.deleted_idxs, vec![1]);
    assert_eq!(*pass.simplifier.ir_arena.get(2), sink(0, false));
    pass.resume(Reply::Proceed);
    pass.resume(Reply::Proceed);
    assert_eq!(pass.pos, 4);
    assert_eq!(pass.deleted_idxs, vec![1]);
    assert_eq!(pass.request(), Wanted::Proceed);
    pass.resume(Reply::Proceed);
    assert!(pass.deleted_idxs.is_empty());
    pass.resume(Reply::Proceed);
    assert_eq!(pass.request(), Wanted::Finished);
}

#[test]
fn several_sorts_are_deleted() {
    let mut pass = start(&[4], vec![
        Plan::Scan,
        sort(0),
        Plan::Filter { input: 1, predicate: 5 },
        sort(2),
        sink(3, false),
    ]);
    assert_eq!(pass.ir_nodes_stack, vec![4, 3, 2, 1, 0]);
    run(&mut pass);
    assert_eq!(*pass.simplifier.ir_arena.get(4), sink(2, false));
    assert_eq!(*pass.simplifier.ir_arena.get(2), Plan::Filter { input: 0, predicate: 5 });
}

#[test]
fn sort_below_a_sort_is_deleted() {
    let mut pass = start(&[3], vec![Plan::Scan, sort(0), sort(1), sink(2, true)]);
    loop {
        let reply = match pass.request() {
            Wanted::Finished => break,
            Wanted::Simplify(_) => orders(NONE),
            _ => Reply::Proceed,
        };
        pass.resume(reply);
    }
    // Equal keys are to stay as they were, so the upper sort needs the lower one.
    assert_eq!(*pass.simplifier.ir_arena.get(2), sort(1));

    let plain = |input| Plan::Sort {
        input,
        by_column: vec![40],
        has_slice: false,
        maintain_order: false,
    };
    let mut pass = start(&[3], vec![Plan::Scan, sort(0), plain(1), sink(2, true)]);
    run(&mut pass);
    assert_eq!(*pass.simplifier.ir_arena.get(2), plain(0));
    assert_eq!(*pass.simplifier.ir_arena.get(3), sink(2, true));
}

#[test]
fn missing_order_is_learned_on_the_way_back() {
    // When the filter is first visited, its input still counts as ordered.
    let distinct = Plan::Distinct {
        input: 0,
        maintain_order: false,
        keep_strategy: UniqueKeepStrategy::Any,
    };
    let mut pass = start(&[3], vec![
        Plan::Scan,
        distinct,
        Plan::Filter { input: 1, predicate: 5 },
        sink(2, true),
    ]);
    run(&mut pass);
    assert_eq!(*pass.simplifier.ir_arena.get(3), sink(2, false));
    assert_eq!(edge_below(&pass, 3, 0), Edge::Unordered);
}

#[test]
fn aggregations_that_are_no_scalars_are_imploded() {
    let group_by = |aggs| Plan::GroupBy {
        input: 0,
        keys: vec![1],
        aggs,
        maintain_order: false,
        is_dynamic: false,
        is_rolling: false,
        has_apply: false,
    };
    let mut pass = start(&[2], vec![Plan::Scan, group_by(vec![7, 8, 9]), sink(1, true)]);
    pass.resume(Reply::Proceed);
    assert_eq!(pass.request(), Wanted::IsScalar(7));
    pass.resume(Reply::IsScalar(true));
    assert_eq!(pass.request(), Wanted::IsScalar(8));
    pass.resume(Reply::IsScalar(false));
    assert_eq!(pass.request(), Wanted::AddImplode(8));
    pass.resume(Reply::Added(20));
    assert_eq!(*pass.simplifier.ir_arena.get(1), group_by(vec![7, 20, 9]));
    assert_eq!(pass.request(), Wanted::IsScalar(9));
    pass.resume(Reply::IsScalar(true));
    let query =
        ExprQuery { first: vec![1], second: Some(vec![7, 20, 9]), unordered_output: false };
    assert_eq!(pass.request(), Wanted::Simplify(query));
    pass.resume(orders(COLUMN));
    assert_eq!(edge_below(&pass, 1, 0), Edge::Unordered);
    let rest = run(&mut pass);
    assert_eq!(rest[2], Wanted::IsScalar(7));
    assert_eq!(rest[3], Wanted::IsScalar(20));
    assert_eq!(*pass.simplifier.ir_arena.get(2), sink(1, false));
}

#[test]
fn answers_that_do_not_fit_are_refused() {
    let mut pass = start(&[2], vec![
        Plan::Scan,
        Plan::Filter { input: 0, predicate: 5 },
        sink(1, true),
    ]);
    assert!(pass.accepts(&Reply::Proceed));
    assert!(!pass.accepts(&orders(COLUMN)));
    assert!(!pass.accepts(&Reply::IsScalar(true)));
    assert!(!pass.accepts(&Reply::Added(1)));
    pass.resume(Reply::Proceed);
    assert!(!pass.accepts(&Reply::Proceed));
    assert!(pass.accepts(&orders(INDEPENDENT)));
    run(&mut pass);
    assert!(!pass.accepts(&Reply::Proceed));
}

#[test]
fn keys_of_joins_and_partitions_must_be_elementwise() {
    let join = Plan::Join {
        input_left: 0,
        input_right: 1,
        left_on: vec![5],
        right_on: vec![6],
        is_asof: false,
        maintain_order: MaintainOrderJoin::Left,
    };
    let payload = SinkPlan::Partitioned { key_exprs: vec![7], maintain_order: true };
    let mut pass = start(&[3], vec![
        Plan::Scan,
        Plan::Scan,
        join,
        Plan::Sink { input: 2, payload },
    ]);
    assert!(!pass.accepts(&orders(INDEPENDENT)));
    let inside = ExprReply { first: COLUMN, second: NONE, internal: COLUMN };
    assert!(!pass.accepts(&Reply::Orders(inside)));
    let other = ExprReply { first: COLUMN, second: INDEPENDENT, internal: NONE };
    assert!(pass.accepts(&Reply::Orders(other)));
    pass.resume(orders(COLUMN));
    assert!(!pass.accepts(&orders(INDEPENDENT)));
    assert!(!pass.accepts(&Reply::Orders(inside)));
    assert!(!pass.accepts(&Reply::Orders(other)));
    assert!(pass.accepts(&orders(COLUMN)));
    run(&mut pass);
    assert_eq!(edge_below(&pass, 2, 0), Edge::Ordered);
    assert_eq!(edge_below(&pass, 2, 1), Edge::Unordered);
}

#[test]
fn shared_cache_is_freed_when_no_consumer_wants_order() {
    let plan = |maintain_order| vec![
        Plan::Scan,
        sort(0),
        Plan::Cache { input: 1, id: 1 },
        sink(2, false),
        sink(2, maintain_order),
    ];
    let mut pass = start(&[3, 4], plan(false));
    run(&mut pass);
    assert_eq!(*pass.simplifier.ir_arena.get(2), Plan::Cache { input: 0, id: 1 });

    let mut pass = start(&[3, 4], plan(true));
    run(&mut pass);
    assert_eq!(*pass.simplifier.ir_arena.get(2), Plan::Cache { input: 1, id: 1 });
    assert_eq!(*pass.simplifier.ir_arena.get(4), sink(2, true));
}

#[test]
fn order_is_kept_through_nested_caches() {
    let plan = |first, second| vec![
        Plan::Scan,
        sort(0),
        Plan::Cache { input: 1, id: 1 },
        Plan::Cache { input: 2, id: 2 },
        sink(3, first),
        sink(3, second),
    ];
    for (first, second) in [(true, true), (true, false), (false, true)] {
        let mut pass = start(&[4, 5], plan(first, second));
        assert_eq!(pass.ir_nodes_stack, vec![4, 5, 3, 3, 2, 1, 0]);
        run(&mut pass);
        assert_eq!(*pass.simplifier.ir_arena.get(2), Plan::Cache { input: 1, id: 1 });
        assert_eq!(*pass.simplifier.ir_arena.get(4), sink(3, first));
        assert_eq!(*pass.simplifier.ir_arena.get(5), sink(3, second));
        assert_eq!(edge_below(&pass, 2, 0), Edge::Ordered);
    }
    let mut pass = start(&[4, 5], plan(false, false));
    run(&mut pass);
    assert_eq!(*pass.simplifier.ir_arena.get(2), Plan::Cache { input: 0, id: 1 });
}

#[test]
fn cache_node_that_is_passed_over_hands_no_order_on() {
    let plan = |first, second| vec![
        Plan::Scan,
        sort(0),
        Plan::Cache { input: 1, id: 1 },
        Plan::Cache { input: 1, id: 1 },
        sink(2, first),
        sink(3, second),
    ];
    for first in [true, false] {
        let mut pass = start(&[4, 5], plan(first, true));
        assert_eq!(pass.ir_nodes_stack, vec![4, 5, 2, 3, 1, 0]);
        run(&mut pass);
        assert_eq!(*pass.simplifier.ir_arena.get(3), Plan::Cache { input: 1, id: 1 });
        assert_eq!(*pass.simplifier.ir_arena.get(4), sink(2, false));
        assert_eq!(*pass.simplifier.ir_arena.get(5), sink(3, true));

        let mut pass = start(&[4, 5], plan(first, false));
        run(&mut pass);
        assert_eq!(*pass.simplifier.ir_arena.get(3), Plan::Cache { input: 0, id: 1 });
        assert_eq!(*pass.simplifier.ir_arena.get(2), Plan::Cache { input: 1, id: 1 });
        assert_eq!(*pass.simplifier.ir_arena.get(4), sink(2, false));
        assert_eq!(*pass.simplifier.ir_arena.get(5), sink(3, false));
    }
}

#[test]
fn only_sorts_leave_the_plan() {
    let sliced = || Plan::Sort {
        input: 0,
        by_column: vec![40],
        has_slice: true,
        maintain_order: true,
    };
    let mut pass = start(&[7], vec![
        Plan::Scan,
        sliced(),
        sort(1),
        sort(2),
        Plan::DataFrameScan,
        Plan::MergeSorted { input_left: 3, input_right: 4 },
        sort(5),
        sink(6, false),
        // Not below the root.
        sort(4),
        sink(8, true),
    ]);
    run(&mut pass);
    let arena = &pass.simplifier.ir_arena;
    assert_eq!(*arena.get(7), sink(5, false));
    let union = Plan::Union { inputs: vec![1, 4], maintain_order: false };
    assert_eq!(*arena.get(5), union);
    assert_eq!(*arena.get(1), sliced());
    assert_eq!(*arena.get(8), sort(4));
    assert_eq!(*arena.get(9), sink(8, true));
}

#[test]
fn no_sort_stays_below_a_node_that_asks_for_no_order() {
    let join = |input_left| Plan::Join {
        input_left,
        input_right: 7,
        left_on: vec![5],
        right_on: vec![6],
        is_asof: false,
        maintain_order: MaintainOrderJoin::Neither,
    };
    let distinct = |input, keep_strategy| Plan::Distinct {
        input,
        maintain_order: false,
        keep_strategy,
    };
    let mut pass = start(&[11], vec![
        Plan::Scan,
        sort(0),
        sort(1),
        distinct(2, UniqueKeepStrategy::Any),
        sort(3),
        sort(4),
        Plan::DataFrameScan,
        distinct(6, UniqueKeepStrategy::First),
        join(5),
        sort(8),
        Plan::Union { inputs: vec![9], maintain_order: false },
        sink(10, true),
    ]);
    run(&mut pass);
    let arena = &pass.simplifier.ir_arena;
    assert_eq!(*arena.get(10), Plan::Union { inputs: vec![8], maintain_order: false });
    assert_eq!(*arena.get(8), join(3));
    assert_eq!(*arena.get(3), distinct(0, UniqueKeepStrategy::Any));
}

#[test]
fn run_takes_no_more_steps_than_announced() {
    let group_by = Plan::GroupBy {
        input: 0,
        keys: vec![1],
        aggs: vec![7, 8],
        maintain_order: true,
        is_dynamic: false,
        is_rolling: false,
        has_apply: false,
    };
    let mut pass = start(&[2], vec![Plan::Scan, group_by, sink(1, true)]);
    // Two aggregations, each settled on the way down and on the way back.
    assert_eq!(run(&mut pass).len(), 2 * 3 + 2 * 2);
}

#[test]
fn merge_below_an_unordered_sink_becomes_a_union() {
    let mut pass = start(&[3], vec![
        Plan::Scan,
        Plan::DataFrameScan,
        Plan::MergeSorted { input_left: 0, input_right: 1 },
        sink(2, false),
    ]);
    run(&mut pass);
    let union = Plan::Union { inputs: vec![0, 1], maintain_order: false };
    assert_eq!(*pass.simplifier.ir_arena.get(2), union);
}

/// All edges that some node of the plan reads over, by consumer and input.
fn edges(pass: &OrderingPass) -> Vec<(Node, Edge)> {
    let mut edges = Vec::new();
    for &node in &pass.ir_nodes_stack {
        let keys = pass.simplifier.ir_node_to_edges_map.get(&node).unwrap();
        for key in &keys.in_edges {
            edges.push((node, pass.simplifier.edge(*key).unwrap()));
        }
    }
    edges
}

/// Each in edge of a node that is still in the plan is an out edge of the input there.
fn assert_wired(pass: &OrderingPass, gone: &[Node]) {
    for &node in &pass.ir_nodes_stack {
        if gone.contains(&node) {
            continue;
        }
        let mut inputs = Vec::new();
        pass.simplifier.ir_arena.get(node).copy_inputs(&mut inputs);
        let keys = pass.simplifier.ir_node_to_edges_map.get(&node).unwrap();
        for (j, key) in keys.in_edges.iter().enumerate() {
            assert!(!gone.contains(&inputs[j]));
            let input = pass.simplifier.ir_node_to_edges_map.get(&inputs[j]).unwrap();
            let at = input.out_edges.iter().position(|k| k == key).unwrap();
            assert_eq!(input.out_nodes[at], node);
        }
    }
}

#[test]
fn run_only_takes_order_away_and_stays_wired() {
    let join = Plan::Join {
        input_left: 2,
        input_right: 4,
        left_on: vec![5],
        right_on: vec![6],
        is_asof: false,
        maintain_order: MaintainOrderJoin::LeftRight,
    };
    let mut pass = start(&[7, 8], vec![
        Plan::Scan,
        sort(0),
        Plan::Cache { input: 1, id: 3 },
        Plan::DataFrameScan,
        sort(3),
        join,
        Plan::Union { inputs: vec![5, 2], maintain_order: true },
        sink(6, false),
        sink(2, false),
    ]);
    assert!(edges(&pass).iter().all(|(_, edge)| *edge == Edge::Ordered));
    let mut gone = Vec::new();
    let mut before = edges(&pass);
    let mut steps = 0;
    while !pass.is_finished() {
        let visited = pass.deleted_idxs.len();
        let reply = match pass.request() {
            Wanted::Simplify(_) => orders(COLUMN),
            _ => Reply::Proceed,
        };
        pass.resume(reply);
        steps += 1;
        if pass.deleted_idxs.len() > visited {
            gone.push(pass.ir_nodes_stack[*pass.deleted_idxs.last().unwrap()]);
        }
        let after = edges(&pass);
        for (old, new) in before.iter().zip(&after) {
            assert_eq!(old.0, new.0);
            assert!(!old.1.is_unordered() || new.1.is_unordered());
        }
        before = after;
        assert_wired(&pass, &gone);
    }
    assert_eq!(steps, 2 * pass.ir_nodes_stack.len());
    assert_eq!(gone, vec![4, 1]);
    assert_eq!(*pass.simplifier.ir_arena.get(2), Plan::Cache { input: 0, id: 3 });
    assert!(before.iter().all(|(_, edge)| *edge == Edge::Unordered));
}
