//! Order simplification for query plans.
//!
//! A plan is an arena of [`ir::IR`] nodes. Between a node and each of its inputs runs an
//! [`edge::Edge`], which says whether the consumer may rely on the order of the rows that
//! arrive over it. Cache nodes that share an id stand for one result: the last of them to be
//! visited has an edge to its input, and the others, which have none, hand on no order.
//!
//! The pass starts with every edge ordered, walks the plan from sinks to sources and back, and
//! takes the order away wherever nobody observes it: edges become unordered, `maintain_order`
//! options are switched off, and sorts whose order is not observed are unlinked from the plan.
//!
//! What this comes to is stated in [`visit_laws`] for single visits, in [`list_laws`] and
//! [`admission_laws`] for the list of nodes and its edges, in [`pass_laws`] and [`laws`] for whole
//! passes, and in [`content_laws`] for the contents of values that contracts speak of.

pub mod admission;
pub mod admission_laws;
pub mod arena;
pub mod content_laws;
pub mod edge;
pub mod ir;
pub mod ir_graph;
pub mod laws;
pub mod leaders;
pub mod list_laws;
pub mod orders;
pub mod pass;
pub mod pass_laws;
pub mod rules;
mod shape;
pub mod simplify;
pub mod traversal;
pub mod visit_laws;
pub mod wiring;
