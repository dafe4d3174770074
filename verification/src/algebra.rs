//! What an algebra must offer for formulas to be evaluated in it.

use vstd::prelude::*;
use crate::expr::ExprNode;
use crate::operators::BinaryOperator;
use crate::value::Operand;

verus! {

/// The view of a universe that may be absent.
pub open spec fn universe_view<T: Operand>(universal: Option<&Vec<T>>) -> Option<Seq<T::V>> {
    match universal {
        Some(values) => Some(Seq::new(values@.len(), |i: int| values@[i]@)),
        None => None,
    }
}

/// The six connectives over values of type `T`.
///
/// Each takes the universe: the values against which an algebra whose
/// negation needs a whole, such as the complement of a set, computes it. An
/// algebra says for which universes each connective is defined, and every
/// operation is a function of its arguments alone.
pub trait Algebra<T: Operand> {
    /// Whether negation is defined in the universe.
    spec fn negation_defined(universal: Option<Seq<T::V>>) -> bool;

    /// Whether the binary connective is defined in the universe.
    spec fn binary_defined(op: BinaryOperator, universal: Option<Seq<T::V>>) -> bool;

    /// The negation of `a`.
    spec fn negation_spec(a: T::V, universal: Option<Seq<T::V>>) -> T::V;

    /// `a` and `b` joined by `op`.
    spec fn binary_spec(op: BinaryOperator, a: T::V, b: T::V, universal: Option<Seq<T::V>>) -> T::V;

    fn implication(a: &T, b: &T, universal: Option<&Vec<T>>) -> (r: T)
        requires
            Self::binary_defined(BinaryOperator::Implication, universe_view(universal)),
        ensures
            r@ == Self::binary_spec(BinaryOperator::Implication, a@, b@, universe_view(universal)),
    ;

    fn disjunction(a: &T, b: &T, universal: Option<&Vec<T>>) -> (r: T)
        requires
            Self::binary_defined(BinaryOperator::Disjunction, universe_view(universal)),
        ensures
            r@ == Self::binary_spec(BinaryOperator::Disjunction, a@, b@, universe_view(universal)),
    ;

    fn negation(a: &T, universal: Option<&Vec<T>>) -> (r: T)
        requires
            Self::negation_defined(universe_view(universal)),
        ensures
            r@ == Self::negation_spec(a@, universe_view(universal)),
    ;

    fn conjunction(a: &T, b: &T, universal: Option<&Vec<T>>) -> (r: T)
        requires
            Self::binary_defined(BinaryOperator::Conjunction, universe_view(universal)),
        ensures
            r@ == Self::binary_spec(BinaryOperator::Conjunction, a@, b@, universe_view(universal)),
    ;

    fn exclusive_disjunction(a: &T, b: &T, universal: Option<&Vec<T>>) -> (r: T)
        requires
            Self::binary_defined(BinaryOperator::ExclusiveDisjunction, universe_view(universal)),
        ensures
            r@ == Self::binary_spec(BinaryOperator::ExclusiveDisjunction, a@, b@, universe_view(universal)),
    ;

    fn logical_equivalence(a: &T, b: &T, universal: Option<&Vec<T>>) -> (r: T)
        requires
            Self::binary_defined(BinaryOperator::Equivalence, universe_view(universal)),
        ensures
            r@ == Self::binary_spec(BinaryOperator::Equivalence, a@, b@, universe_view(universal)),
    ;
}

/// A check of satisfiability by the truth table.
pub trait SatTruthTable {
    /// Whether it can be asked: what it has kept from earlier formulas is
    /// sound.
    spec fn ready(&self) -> bool;

    /// Whether some assignment makes the formula true.
    fn sat_truth_table(&mut self, formula: &str) -> (found: bool)
        requires
            old(self).ready(),
        ensures
            final(self).ready(),
    ;
}

/// Whether a tree can be evaluated: it holds no variable, and each of its
/// connectives is defined in the universe.
pub open spec fn evaluable<T: Operand, O: Algebra<T>>(tree: ExprNode<T::V>, universal: Option<Seq<T::V>>) -> bool
    decreases tree,
{
    match tree {
        ExprNode::Const(_) => true,
        ExprNode::Var(_) => false,
        ExprNode::UnaryOp(_, child) => O::negation_defined(universal) && evaluable::<T, O>(*child, universal),
        ExprNode::BinaryOp(op, left, right) => O::binary_defined(op, universal) && evaluable::<T, O>(
            *left,
            universal,
        ) && evaluable::<T, O>(*right, universal),
    }
}

/// The value of a tree in the algebra `O`: a constant is its value, and a
/// connective is applied to the values of its operands. A variable has no
/// value of its own; what stands here for one is arbitrary.
pub open spec fn eval<T: Operand, O: Algebra<T>>(tree: ExprNode<T::V>, universal: Option<Seq<T::V>>) -> T::V
    decreases tree,
{
    match tree {
        ExprNode::Const(value) => value,
        ExprNode::Var(_) => arbitrary(),
        ExprNode::UnaryOp(_, child) => O::negation_spec(eval::<T, O>(*child, universal), universal),
        ExprNode::BinaryOp(op, left, right) => O::binary_spec(
            op,
            eval::<T, O>(*left, universal),
            eval::<T, O>(*right, universal),
            universal,
        ),
    }
}

} // verus!
