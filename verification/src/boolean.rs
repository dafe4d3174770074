//! The algebra of the two truth values.

use vstd::prelude::*;
use crate::algebra::{eval, evaluable, Algebra};
use crate::expr::ExprNode;
use crate::operators::BinaryOperator;

verus! {

/// The classical meaning of a binary connective.
pub open spec fn bool_binary(op: BinaryOperator, a: bool, b: bool) -> bool {
    match op {
        BinaryOperator::Implication => !a || b,
        BinaryOperator::Disjunction => a || b,
        BinaryOperator::Conjunction => a && b,
        BinaryOperator::ExclusiveDisjunction => a != b,
        BinaryOperator::Equivalence => a == b,
    }
}

/// The two-valued algebra. It needs no universe and ignores the one given.
#[derive(Debug, Clone, Copy)]
pub struct BooleanOperations;

impl BooleanOperations {
    pub fn new() -> (algebra: BooleanOperations) {
        BooleanOperations
    }
}

impl Algebra<bool> for BooleanOperations {
    open spec fn negation_defined(universal: Option<Seq<bool>>) -> bool {
        true
    }

    open spec fn binary_defined(op: BinaryOperator, universal: Option<Seq<bool>>) -> bool {
        true
    }

    open spec fn negation_spec(a: bool, universal: Option<Seq<bool>>) -> bool {
        !a
    }

    open spec fn binary_spec(op: BinaryOperator, a: bool, b: bool, universal: Option<Seq<bool>>) -> bool {
        bool_binary(op, a, b)
    }

    /// `a` implies `b`: false only where `a` holds and `b` does not.
    fn implication(a: &bool, b: &bool, universal: Option<&Vec<bool>>) -> (r: bool) {
        Self::disjunction(&!*a, b, universal)
    }

    fn disjunction(a: &bool, b: &bool, universal: Option<&Vec<bool>>) -> (r: bool) {
        *a || *b
    }

    fn negation(a: &bool, universal: Option<&Vec<bool>>) -> (r: bool) {
        !*a
    }

    fn conjunction(a: &bool, b: &bool, universal: Option<&Vec<bool>>) -> (r: bool) {
        *a && *b
    }

    /// Either `a` or `b`, not both.
    fn exclusive_disjunction(a: &bool, b: &bool, universal: Option<&Vec<bool>>) -> (r: bool) {
        *a ^ *b
    }

    fn logical_equivalence(a: &bool, b: &bool, universal: Option<&Vec<bool>>) -> (r: bool) {
        *a == *b
    }
}

/// The truth value of a formula where each variable has the value that
/// `assignment` gives to its name.
pub open spec fn truth(tree: ExprNode<bool>, assignment: spec_fn(char) -> bool) -> bool
    decreases tree,
{
    match tree {
        ExprNode::Const(value) => value,
        ExprNode::Var(name) => assignment(name),
        ExprNode::UnaryOp(_, child) => !truth(*child, assignment),
        ExprNode::BinaryOp(op, left, right) => bool_binary(
            op,
            truth(*left, assignment),
            truth(*right, assignment),
        ),
    }
}

/// A formula without variables can be evaluated in the two-valued algebra,
/// and its value there is its truth value under any assignment and in any
/// universe.
pub proof fn lemma_eval_is_truth(tree: ExprNode<bool>, universal: Option<Seq<bool>>, assignment: spec_fn(char) -> bool)
    requires
        tree.is_bound(),
    ensures
        evaluable::<bool, BooleanOperations>(tree, universal),
        eval::<bool, BooleanOperations>(tree, universal) == truth(tree, assignment),
    decreases tree,
{
    match tree {
        ExprNode::Const(_) => {},
        ExprNode::Var(_) => {},
        ExprNode::UnaryOp(_, child) => {
            lemma_eval_is_truth(*child, universal, assignment);
        },
        ExprNode::BinaryOp(_, left, right) => {
            lemma_eval_is_truth(*left, universal, assignment);
            lemma_eval_is_truth(*right, universal, assignment);
        },
    }
}

} // verus!
