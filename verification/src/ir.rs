//! Plan nodes.

use crate::arena::{Arena, Node};
use vstd::prelude::*;

verus! {

/// Which of several equal rows a distinct keeps.
#[derive(Clone, Copy, PartialEq, Eq, Structural, Debug)]
pub enum UniqueKeepStrategy {
    First,
    Last,
    /// None of them.
    Neither,
    Any,
}

/// The sides of a join whose row order the output follows, the leading side first.
#[derive(Clone, Copy, PartialEq, Eq, Structural, Debug)]
pub enum MaintainOrderJoin {
    /// The output order is open.
    Neither,
    Left,
    Right,
    LeftRight,
    RightLeft,
}

/// How a function over whole frames treats the order of its rows.
#[derive(Clone, Copy, PartialEq, Eq, Structural, Debug)]
pub struct FunctionIR {
    /// The rows that come out depend on the order of the rows that go in.
    pub observes_input_order: bool,
    /// Rows come out in the order in which they went in.
    pub has_equal_order: bool,
    /// Whether the order of the output carries information when the input is ordered.
    pub order_producing_if_ordered: bool,
    /// Whether the order of the output carries information when the input is not ordered.
    pub order_producing_if_unordered: bool,
}

impl FunctionIR {
    pub open spec fn produces_order(self, input_ordered: bool) -> bool {
        if input_ordered {
            self.order_producing_if_ordered
        } else {
            self.order_producing_if_unordered
        }
    }

    pub fn is_order_producing(&self, input_ordered: bool) -> (producing: bool)
        ensures
            producing == self.produces_order(input_ordered),
    {
        if input_ordered {
            self.order_producing_if_ordered
        } else {
            self.order_producing_if_unordered
        }
    }
}

/// Where a sink writes to. `L` is the type of lists.
#[derive(Debug, PartialEq, Eq)]
pub enum SinkPlan<L> {
    /// Rows are spread over several targets by the values of the key expressions.
    Partitioned { key_exprs: L, maintain_order: bool },
    /// All rows go to one target.
    Single { maintain_order: bool },
}

pub type SinkTypeIR = SinkPlan<Vec<Node>>;

/// A plan node. `L` is the type of lists.
///
/// Inputs are nodes of the plan's arena, expressions are nodes of the expression arena.
#[derive(Debug, PartialEq, Eq)]
#[allow(inconsistent_fields)]
pub enum Plan<L> {
    Select { input: Node, expr: L },
    HStack { input: Node, exprs: L, schema_len: usize },
    Sort { input: Node, by_column: L, has_slice: bool, maintain_order: bool },
    Filter { input: Node, predicate: Node },
    GroupBy {
        input: Node,
        keys: L,
        aggs: L,
        maintain_order: bool,
        is_dynamic: bool,
        is_rolling: bool,
        has_apply: bool,
    },
    Distinct { input: Node, maintain_order: bool, keep_strategy: UniqueKeepStrategy },
    Join {
        input_left: Node,
        input_right: Node,
        left_on: L,
        right_on: L,
        is_asof: bool,
        maintain_order: MaintainOrderJoin,
    },
    Union { inputs: L, maintain_order: bool },
    MergeSorted { input_left: Node, input_right: Node },
    MapFunction { input: Node, function: FunctionIR },
    HConcat { inputs: L },
    SimpleProjection { input: Node },
    Slice { input: Node },
    /// The extended plan and its contexts, in the order in which the node lists its inputs.
    ExtContext { inputs: L },
    /// Several cache nodes may stand for one cached result; they share `id`.
    Cache { input: Node, id: u128 },
    Sink { input: Node, payload: SinkPlan<L> },
    SinkMultiple { inputs: L },
    Scan,
    DataFrameScan,
    PythonScan,
    Invalid,
}

pub type IR = Plan<Vec<Node>>;

/// The mathematical content of an [`IR`].
pub type IRModel = Plan<Seq<Node>>;

impl View for SinkPlan<Vec<Node>> {
    type V = SinkPlan<Seq<Node>>;

    open spec fn view(&self) -> SinkPlan<Seq<Node>> {
        match *self {
            SinkPlan::Partitioned { key_exprs, maintain_order } => SinkPlan::Partitioned {
                key_exprs: key_exprs@,
                maintain_order,
            },
            SinkPlan::Single { maintain_order } => SinkPlan::Single { maintain_order },
        }
    }
}

impl View for Plan<Vec<Node>> {
    type V = Plan<Seq<Node>>;

    open spec fn view(&self) -> Plan<Seq<Node>> {
        match *self {
            Plan::Select { input, expr } => Plan::Select { input, expr: expr@ },
            Plan::HStack { input, exprs, schema_len } => Plan::HStack {
                input,
                exprs: exprs@,
                schema_len,
            },
            Plan::Sort { input, by_column, has_slice, maintain_order } => Plan::Sort {
                input,
                by_column: by_column@,
                has_slice,
                maintain_order,
            },
            Plan::Filter { input, predicate } => Plan::Filter { input, predicate },
            Plan::GroupBy {
                input,
                keys,
                aggs,
                maintain_order,
                is_dynamic,
                is_rolling,
                has_apply,
            } => Plan::GroupBy {
                input,
                keys: keys@,
                aggs: aggs@,
                maintain_order,
                is_dynamic,
                is_rolling,
                has_apply,
            },
            Plan::Distinct { input, maintain_order, keep_strategy } => Plan::Distinct {
                input,
                maintain_order,
                keep_strategy,
            },
            Plan::Join {
                input_left,
                input_right,
                left_on,
                right_on,
                is_asof,
                maintain_order,
            } => Plan::Join {
                input_left,
                input_right,
                left_on: left_on@,
                right_on: right_on@,
                is_asof,
                maintain_order,
            },
            Plan::Union { inputs, maintain_order } => Plan::Union {
                inputs: inputs@,
                maintain_order,
            },
            Plan::MergeSorted { input_left, input_right } => Plan::MergeSorted {
                input_left,
                input_right,
            },
            Plan::MapFunction { input, function } => Plan::MapFunction { input, function },
            Plan::HConcat { inputs } => Plan::HConcat { inputs: inputs@ },
            Plan::SimpleProjection { input } => Plan::SimpleProjection { input },
            Plan::Slice { input } => Plan::Slice { input },
            Plan::ExtContext { inputs } => Plan::ExtContext { inputs: inputs@ },
            Plan::Cache { input, id } => Plan::Cache { input, id },
            Plan::Sink { input, payload } => Plan::Sink { input, payload: payload@ },
            Plan::SinkMultiple { inputs } => Plan::SinkMultiple { inputs: inputs@ },
            Plan::Scan => Plan::Scan,
            Plan::DataFrameScan => Plan::DataFrameScan,
            Plan::PythonScan => Plan::PythonScan,
            Plan::Invalid => Plan::Invalid,
        }
    }
}

impl Plan<Seq<Node>> {
    /// The nodes that this node reads from, in order.
    pub open spec fn inputs(self) -> Seq<Node> {
        match self {
            Plan::Select { input, .. } => seq![input],
            Plan::HStack { input, .. } => seq![input],
            Plan::Sort { input, .. } => seq![input],
            Plan::Filter { input, .. } => seq![input],
            Plan::GroupBy { input, .. } => seq![input],
            Plan::Distinct { input, .. } => seq![input],
            Plan::Join { input_left, input_right, .. } => seq![input_left, input_right],
            Plan::Union { inputs, .. } => inputs,
            Plan::MergeSorted { input_left, input_right } => seq![input_left, input_right],
            Plan::MapFunction { input, .. } => seq![input],
            Plan::HConcat { inputs } => inputs,
            Plan::SimpleProjection { input } => seq![input],
            Plan::Slice { input } => seq![input],
            Plan::ExtContext { inputs } => inputs,
            Plan::Cache { input, .. } => seq![input],
            Plan::Sink { input, .. } => seq![input],
            Plan::SinkMultiple { inputs } => inputs,
            Plan::Scan | Plan::DataFrameScan | Plan::PythonScan | Plan::Invalid => Seq::empty(),
        }
    }

    /// This node with the input at position `at` exchanged for `node`.
    pub open spec fn with_input(self, at: int, node: Node) -> Self {
        match self {
            Plan::Select { input, expr } => Plan::Select { input: node, expr },
            Plan::HStack { input, exprs, schema_len } => Plan::HStack {
                input: node,
                exprs,
                schema_len,
            },
            Plan::Sort { input, by_column, has_slice, maintain_order } => Plan::Sort {
                input: node,
                by_column,
                has_slice,
                maintain_order,
            },
            Plan::Filter { input, predicate } => Plan::Filter { input: node, predicate },
            Plan::GroupBy {
                input,
                keys,
                aggs,
                maintain_order,
                is_dynamic,
                is_rolling,
                has_apply,
            } => Plan::GroupBy {
                input: node,
                keys,
                aggs,
                maintain_order,
                is_dynamic,
                is_rolling,
                has_apply,
            },
            Plan::Distinct { input, maintain_order, keep_strategy } => Plan::Distinct {
                input: node,
                maintain_order,
                keep_strategy,
            },
            Plan::Join {
                input_left,
                input_right,
                left_on,
                right_on,
                is_asof,
                maintain_order,
            } => Plan::Join {
                input_left: if at == 0 { node } else { input_left },
                input_right: if at == 0 { input_right } else { node },
                left_on,
                right_on,
                is_asof,
                maintain_order,
            },
            Plan::Union { inputs, maintain_order } => Plan::Union {
                inputs: inputs.update(at, node),
                maintain_order,
            },
            Plan::MergeSorted { input_left, input_right } => Plan::MergeSorted {
                input_left: if at == 0 { node } else { input_left },
                input_right: if at == 0 { input_right } else { node },
            },
            Plan::MapFunction { input, function } => Plan::MapFunction { input: node, function },
            Plan::HConcat { inputs } => Plan::HConcat { inputs: inputs.update(at, node) },
            Plan::SimpleProjection { input } => Plan::SimpleProjection { input: node },
            Plan::Slice { input } => Plan::Slice { input: node },
            Plan::ExtContext { inputs } => Plan::ExtContext { inputs: inputs.update(at, node) },
            Plan::Cache { input, id } => Plan::Cache { input: node, id },
            Plan::Sink { input, payload } => Plan::Sink { input: node, payload },
            Plan::SinkMultiple { inputs } => Plan::SinkMultiple { inputs: inputs.update(at, node) },
            Plan::Scan | Plan::DataFrameScan | Plan::PythonScan | Plan::Invalid => self,
        }
    }
}

/// Exchanging one input leaves the other inputs alone.
pub proof fn lemma_with_input(ir: IRModel, at: int, node: Node)
    requires
        0 <= at < ir.inputs().len(),
    ensures
        ir.with_input(at, node).inputs() == ir.inputs().update(at, node),
{
}

impl Plan<Vec<Node>> {
    /// Appends the inputs of this node to `container`.
    pub fn copy_inputs(&self, container: &mut Vec<Node>)
        ensures
            final(container)@ == old(container)@ + self@.inputs(),
    {
        match self {
            Plan::Select { input, .. }
            | Plan::HStack { input, .. }
            | Plan::Sort { input, .. }
            | Plan::Filter { input, .. }
            | Plan::GroupBy { input, .. }
            | Plan::Distinct { input, .. }
            | Plan::MapFunction { input, .. }
            | Plan::SimpleProjection { input }
            | Plan::Slice { input }
            | Plan::Cache { input, .. }
            | Plan::Sink { input, .. } => {
                container.push(*input);
            },
            Plan::Join { input_left, input_right, .. }
            | Plan::MergeSorted { input_left, input_right } => {
                container.push(*input_left);
                container.push(*input_right);
            },
            Plan::Union { inputs, .. }
            | Plan::HConcat { inputs }
            | Plan::ExtContext { inputs }
            | Plan::SinkMultiple { inputs } => {
                let mut i: usize = 0;
                while i < inputs.len()
                    invariant
                        i <= inputs@.len(),
                        container@ == old(container)@ + inputs@.take(i as int),
                    decreases inputs@.len() - i,
                {
                    container.push(inputs[i]);
                    i = i + 1;
                }
            },
            Plan::Scan | Plan::DataFrameScan | Plan::PythonScan | Plan::Invalid => {},
        }
    }

    /// Exchanges the input at position `at` for `node`.
    pub fn set_input(&mut self, at: usize, node: Node)
        requires
            at < old(self)@.inputs().len(),
        ensures
            final(self)@ == old(self)@.with_input(at as int, node),
    {
        match self {
            Plan::Select { input, .. } => *input = node,
            Plan::HStack { input, .. } => *input = node,
            Plan::Sort { input, .. } => *input = node,
            Plan::Filter { input, .. } => *input = node,
            Plan::GroupBy { input, .. } => *input = node,
            Plan::Distinct { input, .. } => *input = node,
            Plan::MapFunction { input, .. } => *input = node,
            Plan::SimpleProjection { input } => *input = node,
            Plan::Slice { input } => *input = node,
            Plan::Cache { input, .. } => *input = node,
            Plan::Sink { input, .. } => *input = node,
            Plan::Join { input_left, input_right, .. } => {
                if at == 0 {
                    *input_left = node;
                } else {
                    *input_right = node;
                }
            },
            Plan::MergeSorted { input_left, input_right } => {
                if at == 0 {
                    *input_left = node;
                } else {
                    *input_right = node;
                }
            },
            Plan::Union { inputs, .. } => inputs.set(at, node),
            Plan::HConcat { inputs } => inputs.set(at, node),
            Plan::ExtContext { inputs } => inputs.set(at, node),
            Plan::SinkMultiple { inputs } => inputs.set(at, node),
            Plan::Scan | Plan::DataFrameScan | Plan::PythonScan | Plan::Invalid => {},
        }
    }
}

impl Arena<IR> {
    /// The plan that the arena holds.
    pub open spec fn plan(&self) -> Seq<IRModel> {
        Seq::new(self@.len(), |i: int| self@[i]@)
    }
}

} // verus!
