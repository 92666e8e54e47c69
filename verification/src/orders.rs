//! Row orders that expressions observe.

use crate::arena::Node;
use vstd::prelude::*;

verus! {

/// Which row orders the result of a set of expressions depends on.
#[derive(Clone, Copy, PartialEq, Eq, Structural, Debug)]
pub struct ObservableOrders {
    /// An order that the expressions produce themselves, unrelated to that of their input.
    pub independent: bool,
    /// The order of the input columns.
    pub column: bool,
}

impl ObservableOrders {
    /// No order is observable.
    pub open spec fn none(self) -> bool {
        !self.independent && !self.column
    }

    /// The order of the input columns is observable, and no other.
    pub open spec fn column_only(self) -> bool {
        self.column && !self.independent
    }

    pub fn is_empty(&self) -> (empty: bool)
        ensures
            empty == self.none(),
    {
        !self.independent && !self.column
    }

    pub fn is_column(&self) -> (column: bool)
        ensures
            column == self.column_only(),
    {
        self.column && !self.independent
    }
}

/// What a visit of a plan node has to know about the expressions of that node.
///
/// The groups are simplified one after the other by one expression simplifier, which starts
/// out fresh for each query.
#[derive(Debug, PartialEq, Eq)]
pub struct ExprQuery {
    pub first: Vec<Node>,
    pub second: Option<Vec<Node>>,
    /// Whether the rows that the expressions produce may be handed on in any order.
    pub unordered_output: bool,
}

/// The mathematical content of an [`ExprQuery`].
#[verifier::ext_equal]
pub struct ExprQueryModel {
    pub first: Seq<Node>,
    pub second: Option<Seq<Node>>,
    pub unordered_output: bool,
}

impl View for ExprQuery {
    type V = ExprQueryModel;

    open spec fn view(&self) -> ExprQueryModel {
        ExprQueryModel {
            first: self.first@,
            second: match self.second {
                Some(exprs) => Some(exprs@),
                None => None,
            },
            unordered_output: self.unordered_output,
        }
    }
}

/// The expression simplifier's answer to an [`ExprQuery`].
#[derive(Clone, Copy, PartialEq, Eq, Structural, Debug)]
pub struct ExprReply {
    /// Orders observable in the results of the first group.
    pub first: ObservableOrders,
    /// Orders observable in the results of the second group; unused without one.
    pub second: ObservableOrders,
    /// Orders that the expressions of all groups observed inside themselves.
    pub internal: ObservableOrders,
}

impl ExprReply {
    /// Evaluating the expressions row by row, in any order of the rows, gives the same rows.
    pub open spec fn elementwise(self, two_groups: bool) -> bool {
        &&& !self.first.independent
        &&& two_groups ==> !self.second.independent
        &&& !self.internal.column
    }

    pub fn is_elementwise(&self, two_groups: bool) -> (elementwise: bool)
        ensures
            elementwise == self.elementwise(two_groups),
    {
        !self.first.independent && !(two_groups && self.second.independent)
            && !self.internal.column
    }
}

} // verus!
