use simplify_ordering::edge::Edge;
use simplify_ordering::edge::Edge::{Ordered, Unordered};
use simplify_ordering::ir::FunctionIR;
use simplify_ordering::ir::MaintainOrderJoin as Follow;
use simplify_ordering::ir::UniqueKeepStrategy as Keep;
use simplify_ordering::orders::{ExprReply, ObservableOrders};
use simplify_ordering::rules::{
    simplify_distinct, simplify_filter, simplify_group_by, simplify_join, simplify_map_function,
    simplify_projection, simplify_sink, simplify_sort,
};

const NONE: ObservableOrders = ObservableOrders { independent: false, column: false };
const INDEPENDENT: ObservableOrders = ObservableOrders { independent: true, column: false };
const COLUMN: ObservableOrders = ObservableOrders { independent: false, column: true };
const BOTH: ObservableOrders = ObservableOrders { independent: true, column: true };

fn reply(first: ObservableOrders, internal: ObservableOrders) -> ExprReply {
    ExprReply { first, second: NONE, internal }
}

fn projection(edges: (Edge, Edge), full: bool, reply: ExprReply) -> (Edge, Edge) {
    let (mut i, mut o) = edges;
    simplify_projection(&mut i, &mut o, full, &reply);
    (i, o)
}

fn sort(in_edge: Edge, maintain_order: bool, reply: ExprReply) -> (Edge, bool) {
    let (mut i, mut m) = (in_edge, maintain_order);
    simplify_sort(&mut i, &mut m, &reply);
    (i, m)
}

fn filter(edges: (Edge, Edge), reply: ExprReply) -> (Edge, Edge) {
    let (mut i, mut o) = edges;
    simplify_filter(&mut i, &mut o, &reply);
    (i, o)
}

fn group_by(
    edges: (Edge, Edge),
    maintain_order: bool,
    observing: bool,
    reply: ExprReply,
) -> (Edge, Edge, bool) {
    let (mut i, mut o) = edges;
    let mut m = maintain_order;
    simplify_group_by(&mut i, &mut o, &mut m, observing, &reply);
    (i, o, m)
}

fn distinct(
    edges: (Edge, Edge),
    maintain_order: bool,
    keep: Keep,
) -> (Edge, Edge, bool) {
    let (mut i, mut o) = edges;
    let mut m = maintain_order;
    simplify_distinct(&mut i, &mut o, &mut m, keep);
    (i, o, m)
}

fn join(
    edges: (Edge, Edge, Edge),
    order: Follow,
) -> (Edge, Edge, Edge, Follow) {
    let (mut l, mut r, mut o) = edges;
    let mut m = order;
    simplify_join(&mut l, &mut r, &mut o, &mut m);
    (l, r, o, m)
}

fn map_function(edges: (Edge, Edge), function: FunctionIR) -> (Edge, Edge) {
    let (mut i, mut o) = edges;
    simplify_map_function(&mut i, &mut o, &function);
    (i, o)
}

#[test]
fn projection_in_column_order() {
    let r = reply(COLUMN, NONE);
    assert_eq!(projection((Ordered, Ordered), true, r), (Ordered, Ordered));
    assert_eq!(projection((Ordered, Unordered), true, r), (Unordered, Unordered));
    assert_eq!(projection((Unordered, Ordered), true, r), (Unordered, Unordered));
    assert_eq!(projection((Ordered, Unordered), false, r), (Unordered, Unordered));
}

#[test]
fn projection_without_order() {
    let r = reply(NONE, NONE);
    assert_eq!(projection((Ordered, Ordered), true, r), (Unordered, Unordered));
    assert_eq!(projection((Ordered, Ordered), false, r), (Unordered, Unordered));
}

#[test]
fn projection_in_an_order_of_its_own() {
    let r = reply(INDEPENDENT, NONE);
    assert_eq!(projection((Ordered, Ordered), true, r), (Unordered, Ordered));
    assert_eq!(projection((Ordered, Ordered), false, r), (Ordered, Ordered));
    assert_eq!(projection((Ordered, Unordered), false, r), (Ordered, Unordered));
    let both = reply(BOTH, NONE);
    assert_eq!(projection((Unordered, Ordered), true, both), (Unordered, Ordered));
}

#[test]
fn projection_that_observes_order_inside() {
    assert_eq!(projection((Ordered, Unordered), true, reply(NONE, COLUMN)), (Ordered, Unordered));
    assert_eq!(projection((Ordered, Ordered), true, reply(NONE, COLUMN)), (Ordered, Unordered));
    let inside = reply(COLUMN, INDEPENDENT);
    assert_eq!(projection((Ordered, Unordered), true, inside), (Unordered, Unordered));
}

#[test]
fn sort_needs_order_for_ties_and_keys_only() {
    assert_eq!(sort(Ordered, false, reply(COLUMN, NONE)), (Unordered, false));
    assert_eq!(sort(Ordered, true, reply(COLUMN, NONE)), (Ordered, true));
    assert_eq!(sort(Unordered, true, reply(COLUMN, NONE)), (Unordered, false));
    assert_eq!(sort(Ordered, false, reply(INDEPENDENT, NONE)), (Ordered, false));
    assert_eq!(sort(Ordered, false, reply(COLUMN, COLUMN)), (Ordered, false));
    assert_eq!(sort(Unordered, false, reply(INDEPENDENT, COLUMN)), (Unordered, false));
}

#[test]
fn filter_passes_order_on() {
    assert_eq!(filter((Ordered, Ordered), reply(COLUMN, NONE)), (Ordered, Ordered));
    assert_eq!(filter((Ordered, Unordered), reply(COLUMN, NONE)), (Unordered, Unordered));
    assert_eq!(filter((Unordered, Ordered), reply(COLUMN, NONE)), (Unordered, Unordered));
    assert_eq!(filter((Ordered, Unordered), reply(INDEPENDENT, NONE)), (Ordered, Unordered));
    assert_eq!(filter((Ordered, Unordered), reply(COLUMN, COLUMN)), (Ordered, Unordered));
}

#[test]
fn group_by_without_maintained_order() {
    let r = reply(COLUMN, NONE);
    assert_eq!(group_by((Ordered, Ordered), false, false, r), (Unordered, Unordered, false));
    assert_eq!(group_by((Ordered, Ordered), true, false, r), (Ordered, Ordered, true));
    assert_eq!(group_by((Unordered, Ordered), true, false, r), (Unordered, Unordered, false));
    assert_eq!(group_by((Ordered, Unordered), true, false, r), (Ordered, Unordered, true));
    let scalar = reply(NONE, NONE);
    assert_eq!(group_by((Ordered, Ordered), true, false, scalar), (Unordered, Unordered, false));
}

#[test]
fn group_by_that_observes_order() {
    let r = reply(COLUMN, NONE);
    assert_eq!(group_by((Ordered, Ordered), false, true, r), (Ordered, Ordered, false));
    assert_eq!(group_by((Unordered, Ordered), false, true, r), (Unordered, Unordered, false));
    let inside = reply(COLUMN, COLUMN);
    assert_eq!(group_by((Ordered, Ordered), false, false, inside), (Ordered, Unordered, false));
    let own = reply(INDEPENDENT, NONE);
    assert_eq!(group_by((Ordered, Ordered), false, false, own), (Ordered, Unordered, false));
}

#[test]
fn distinct_keeps_order_for_strategies_by_position() {
    assert_eq!(distinct((Ordered, Ordered), true, Keep::Any), (Ordered, Ordered, true));
    assert_eq!(distinct((Ordered, Ordered), false, Keep::Any), (Unordered, Unordered, false));
    assert_eq!(distinct((Ordered, Ordered), false, Keep::Neither), (Unordered, Unordered, false));
    assert_eq!(distinct((Ordered, Ordered), false, Keep::First), (Ordered, Unordered, false));
    assert_eq!(distinct((Ordered, Ordered), false, Keep::Last), (Ordered, Unordered, false));
    assert_eq!(distinct((Ordered, Unordered), true, Keep::Any), (Unordered, Unordered, false));
    assert_eq!(distinct((Ordered, Unordered), true, Keep::First), (Ordered, Unordered, false));
    // The out edge loses its order at the next visit only.
    assert_eq!(distinct((Unordered, Ordered), true, Keep::First), (Unordered, Ordered, false));
    assert_eq!(distinct((Unordered, Ordered), false, Keep::First), (Unordered, Unordered, false));
}

#[test]
fn join_follows_the_sides_that_are_ordered() {
    let all = (Ordered, Ordered, Ordered);
    assert_eq!(join(all, Follow::Neither), (Unordered, Unordered, Unordered, Follow::Neither));
    assert_eq!(join(all, Follow::Left), (Ordered, Unordered, Ordered, Follow::Left));
    assert_eq!(join(all, Follow::Right), (Unordered, Ordered, Ordered, Follow::Right));
    assert_eq!(join(all, Follow::LeftRight), (Ordered, Ordered, Ordered, Follow::LeftRight));
    assert_eq!(join(all, Follow::RightLeft), (Ordered, Ordered, Ordered, Follow::RightLeft));
    let out = (Ordered, Ordered, Unordered);
    assert_eq!(join(out, Follow::LeftRight), (Unordered, Unordered, Unordered, Follow::Neither));
    let left = (Unordered, Ordered, Ordered);
    assert_eq!(join(left, Follow::Left), (Unordered, Ordered, Ordered, Follow::Neither));
    assert_eq!(join(left, Follow::LeftRight), (Unordered, Ordered, Ordered, Follow::Right));
    assert_eq!(join(left, Follow::RightLeft), (Unordered, Ordered, Ordered, Follow::Right));
    let right = (Ordered, Unordered, Ordered);
    assert_eq!(join(right, Follow::Right), (Unordered, Unordered, Ordered, Follow::Neither));
    assert_eq!(join(right, Follow::LeftRight), (Ordered, Unordered, Ordered, Follow::Left));
    assert_eq!(join(right, Follow::RightLeft), (Ordered, Unordered, Ordered, Follow::Left));
    let neither = (Unordered, Unordered, Ordered);
    assert_eq!(join(neither, Follow::LeftRight), (Unordered, Unordered, Ordered, Follow::Neither));
}

#[test]
fn map_function_by_its_traits() {
    let row_wise = FunctionIR {
        observes_input_order: false,
        has_equal_order: true,
        order_producing_if_ordered: false,
        order_producing_if_unordered: false,
    };
    assert_eq!(map_function((Ordered, Ordered), row_wise), (Ordered, Ordered));
    assert_eq!(map_function((Ordered, Unordered), row_wise), (Unordered, Unordered));
    assert_eq!(map_function((Unordered, Ordered), row_wise), (Unordered, Unordered));
    let row_index = FunctionIR { observes_input_order: true, ..row_wise };
    assert_eq!(map_function((Ordered, Unordered), row_index), (Ordered, Unordered));
    let producing = FunctionIR { order_producing_if_unordered: true, ..row_wise };
    assert_eq!(map_function((Unordered, Ordered), producing), (Unordered, Ordered));
    assert_eq!(map_function((Ordered, Ordered), producing), (Ordered, Ordered));
    let shuffling = FunctionIR { has_equal_order: false, ..row_wise };
    assert_eq!(map_function((Ordered, Ordered), shuffling), (Unordered, Unordered));
    let arranging = FunctionIR {
        observes_input_order: true,
        has_equal_order: false,
        order_producing_if_ordered: true,
        order_producing_if_unordered: false,
    };
    assert_eq!(map_function((Ordered, Ordered), arranging), (Ordered, Ordered));
    assert_eq!(map_function((Unordered, Ordered), arranging), (Unordered, Unordered));
    assert!(arranging.is_order_producing(true));
    assert!(!arranging.is_order_producing(false));
}

#[test]
fn sink_maintains_an_order_that_there_is() {
    for (edge, maintain, expected) in [
        (Ordered, true, (Ordered, true)),
        (Ordered, false, (Unordered, false)),
        (Unordered, true, (Unordered, false)),
        (Unordered, false, (Unordered, false)),
    ] {
        let (mut i, mut m) = (edge, maintain);
        simplify_sink(&mut i, &mut m);
        assert_eq!((i, m), expected);
    }
}

#[test]
fn observable_orders_are_told_apart() {
    assert!(NONE.is_empty());
    assert!(!COLUMN.is_empty());
    assert!(!INDEPENDENT.is_empty());
    assert!(COLUMN.is_column());
    assert!(!BOTH.is_column());
    assert!(!NONE.is_column());
}

#[test]
fn elementwise_replies() {
    assert!(reply(COLUMN, NONE).is_elementwise(true));
    assert!(!reply(INDEPENDENT, NONE).is_elementwise(false));
    assert!(!reply(COLUMN, COLUMN).is_elementwise(false));
    let second = ExprReply { first: COLUMN, second: INDEPENDENT, internal: NONE };
    assert!(second.is_elementwise(false));
    assert!(!second.is_elementwise(true));
}
