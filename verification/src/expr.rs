//! Formulas as trees.

use vstd::prelude::*;
use crate::operators::{BinaryOperator, UnaryOperator};
use crate::value::Operand;

verus! {

/// A formula over values of type `T`.
///
/// A node owns its children, so a tree is finite and has no sharing. No
/// function of this library changes a tree in place.
#[derive(Debug)]
pub enum ExprNode<T> {
    /// A value.
    Const(T),
    /// A variable, named by a letter.
    Var(char),
    /// A connective applied to one formula.
    UnaryOp(UnaryOperator, Box<ExprNode<T>>),
    /// A connective applied to two formulas, the left one first.
    BinaryOp(BinaryOperator, Box<ExprNode<T>>, Box<ExprNode<T>>),
}

impl<T: View> ExprNode<T> {
    /// The same tree over the views of its constants.
    pub open spec fn model(self) -> ExprNode<T::V>
        decreases self,
    {
        match self {
            ExprNode::Const(value) => ExprNode::Const(value@),
            ExprNode::Var(name) => ExprNode::Var(name),
            ExprNode::UnaryOp(op, child) => ExprNode::UnaryOp(op, Box::new(child.model())),
            ExprNode::BinaryOp(op, left, right) => ExprNode::BinaryOp(
                op,
                Box::new(left.model()),
                Box::new(right.model()),
            ),
        }
    }
}

impl<T: View> View for ExprNode<T> {
    type V = ExprNode<T::V>;

    open spec fn view(&self) -> ExprNode<T::V> {
        self.model()
    }
}

impl<V> ExprNode<V> {
    /// Whether the tree holds no variable.
    pub open spec fn is_bound(self) -> bool
        decreases self,
    {
        match self {
            ExprNode::Const(_) => true,
            ExprNode::Var(_) => false,
            ExprNode::UnaryOp(_, child) => child.is_bound(),
            ExprNode::BinaryOp(_, left, right) => left.is_bound() && right.is_bound(),
        }
    }

    /// Whether the tree holds no constant.
    pub open spec fn is_symbolic(self) -> bool
        decreases self,
    {
        match self {
            ExprNode::Const(_) => false,
            ExprNode::Var(_) => true,
            ExprNode::UnaryOp(_, child) => child.is_symbolic(),
            ExprNode::BinaryOp(_, left, right) => left.is_symbolic() && right.is_symbolic(),
        }
    }

    /// The names of the variables in the tree.
    pub open spec fn variables(self) -> Set<char>
        decreases self,
    {
        match self {
            ExprNode::Const(_) => Set::empty(),
            ExprNode::Var(name) => set![name],
            ExprNode::UnaryOp(_, child) => child.variables(),
            ExprNode::BinaryOp(_, left, right) => left.variables().union(right.variables()),
        }
    }

    /// The number of nodes of the tree.
    pub open spec fn size(self) -> nat
        decreases self,
    {
        match self {
            ExprNode::Const(_) => 1,
            ExprNode::Var(_) => 1,
            ExprNode::UnaryOp(_, child) => 1 + child.size(),
            ExprNode::BinaryOp(_, left, right) => 1 + left.size() + right.size(),
        }
    }
}

/// The negation of `child`.
pub open spec fn not_of<V>(child: ExprNode<V>) -> ExprNode<V> {
    ExprNode::UnaryOp(UnaryOperator::Negation, Box::new(child))
}

/// `left` and `right` joined by `op`.
pub open spec fn binary_of<V>(op: BinaryOperator, left: ExprNode<V>, right: ExprNode<V>) -> ExprNode<V> {
    ExprNode::BinaryOp(op, Box::new(left), Box::new(right))
}

impl<T: Operand> ExprNode<T> {
    /// A copy of the tree.
    pub fn duplicate(&self) -> (copy: ExprNode<T>)
        ensures
            copy@ == self@,
        decreases self,
    {
        match self {
            ExprNode::Const(value) => ExprNode::Const(value.duplicate()),
            ExprNode::Var(name) => ExprNode::Var(*name),
            ExprNode::UnaryOp(op, child) => ExprNode::UnaryOp(*op, Box::new(child.duplicate())),
            ExprNode::BinaryOp(op, left, right) => ExprNode::BinaryOp(
                *op,
                Box::new(left.duplicate()),
                Box::new(right.duplicate()),
            ),
        }
    }
}

} // verus!
