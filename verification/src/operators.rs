//! The connectives of a formula, as closed enumerations.

use vstd::prelude::*;

verus! {

/// The one connective that takes a single operand.
#[derive(Clone, Copy, Debug, PartialEq, Eq, Structural)]
pub enum UnaryOperator {
    /// `!`
    Negation,
}

/// The connectives that take two operands.
#[derive(Clone, Copy, Debug, PartialEq, Eq, Structural)]
pub enum BinaryOperator {
    /// `>`
    Implication,
    /// `|`
    Disjunction,
    /// `&`
    Conjunction,
    /// `^`
    ExclusiveDisjunction,
    /// `=`
    Equivalence,
}

/// Whether `c` is one of the letters `A` to `Z`, the names of variables.
pub open spec fn is_variable_name(c: char) -> bool {
    'A' <= c <= 'Z'
}

/// Whether `c` is one of the two digits that stand for false and true.
pub open spec fn is_literal(c: char) -> bool {
    c == '0' || c == '1'
}

/// Tests whether `c` names a variable.
pub fn is_variable(c: char) -> (r: bool)
    ensures
        r == is_variable_name(c),
{
    'A' <= c && c <= 'Z'
}

impl UnaryOperator {
    /// The token that stands for the operator in a formula.
    pub open spec fn symbol_spec(self) -> char {
        '!'
    }

    /// The operator that the token `c` stands for, if any.
    pub open spec fn from_symbol_spec(c: char) -> Option<UnaryOperator> {
        if c == '!' {
            Some(UnaryOperator::Negation)
        } else {
            None
        }
    }

    pub fn symbol(self) -> (c: char)
        ensures
            c == self.symbol_spec(),
    {
        '!'
    }

    pub fn from_symbol(c: char) -> (op: Option<UnaryOperator>)
        ensures
            op == Self::from_symbol_spec(c),
    {
        if c == '!' {
            Some(UnaryOperator::Negation)
        } else {
            None
        }
    }
}

impl BinaryOperator {
    /// The token that stands for the operator in a formula.
    pub open spec fn symbol_spec(self) -> char {
        match self {
            BinaryOperator::Implication => '>',
            BinaryOperator::Disjunction => '|',
            BinaryOperator::Conjunction => '&',
            BinaryOperator::ExclusiveDisjunction => '^',
            BinaryOperator::Equivalence => '=',
        }
    }

    /// The operator that the token `c` stands for, if any.
    pub open spec fn from_symbol_spec(c: char) -> Option<BinaryOperator> {
        if c == '>' {
            Some(BinaryOperator::Implication)
        } else if c == '|' {
            Some(BinaryOperator::Disjunction)
        } else if c == '&' {
            Some(BinaryOperator::Conjunction)
        } else if c == '^' {
            Some(BinaryOperator::ExclusiveDisjunction)
        } else if c == '=' {
            Some(BinaryOperator::Equivalence)
        } else {
            None
        }
    }

    pub fn symbol(self) -> (c: char)
        ensures
            c == self.symbol_spec(),
    {
        match self {
            BinaryOperator::Implication => '>',
            BinaryOperator::Disjunction => '|',
            BinaryOperator::Conjunction => '&',
            BinaryOperator::ExclusiveDisjunction => '^',
            BinaryOperator::Equivalence => '=',
        }
    }

    pub fn from_symbol(c: char) -> (op: Option<BinaryOperator>)
        ensures
            op == Self::from_symbol_spec(c),
    {
        if c == '>' {
            Some(BinaryOperator::Implication)
        } else if c == '|' {
            Some(BinaryOperator::Disjunction)
        } else if c == '&' {
            Some(BinaryOperator::Conjunction)
        } else if c == '^' {
            Some(BinaryOperator::ExclusiveDisjunction)
        } else if c == '=' {
            Some(BinaryOperator::Equivalence)
        } else {
            None
        }
    }
}

/// Every operator is found again from its token.
pub proof fn lemma_symbol_round_trip(op: BinaryOperator)
    ensures
        BinaryOperator::from_symbol_spec(op.symbol_spec()) == Some(op),
        UnaryOperator::from_symbol_spec(op.symbol_spec()) is None,
        !is_variable_name(op.symbol_spec()),
        !is_literal(op.symbol_spec()),
{
}

} // verus!
