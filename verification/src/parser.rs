//! Building a tree from a postfix formula.
//!
//! A formula is read one character at a time. A letter or a digit puts a leaf
//! on a stack; a connective takes its operands off the stack and puts the
//! node that joins them back. A formula is well formed when every connective
//! finds its operands and one tree is left at the end.

use vstd::prelude::*;
use crate::bindings::{lookup, Bindings};
use crate::expr::{binary_of, not_of, ExprNode};
use crate::operators::{is_literal, is_variable, is_variable_name, BinaryOperator, UnaryOperator};
use crate::text::{chars_of, push_char};
use crate::value::{LogicValue, Operand, ValueType};
use vstd::string::StringExecFns;

verus! {

/// Why a formula could not be built.
#[derive(Clone, Copy, Debug, PartialEq, Eq, Structural)]
pub enum ParseError {
    /// The formula names a variable that the bindings do not hold.
    VariableNotFound(char),
    /// The character is no token, or none that is allowed where it stands.
    InvalidCharacter(char),
    /// The unary connective found no operand.
    MissingUnaryOperand(char),
    /// The binary connective found fewer than two operands.
    MissingBinaryOperands(char),
    /// The formula is empty, or leaves more than one tree.
    Malformed,
}

impl ParseError {
    /// The error in words, with the character or the name in quotes.
    pub open spec fn message_spec(self) -> Seq<char> {
        match self {
            ParseError::VariableNotFound(name) => "Variable '"@.push(name) + "' not found"@,
            ParseError::InvalidCharacter(c) => "Error: Invalid character '"@.push(c) + "'"@,
            ParseError::MissingUnaryOperand(c) => "Error: Not enough operands for unary operator '"@.push(c)
                + "'"@,
            ParseError::MissingBinaryOperands(c) => "Error: Not enough operands for binary operator '"@.push(c)
                + "'"@,
            ParseError::Malformed => "Error: Malformed expression"@,
        }
    }

    /// The error in words.
    pub fn message(&self) -> (text: String)
        ensures
            text@ == self.message_spec(),
    {
        match self {
            ParseError::VariableNotFound(name) => {
                let mut text = String::from_str("Variable '");
                push_char(&mut text, *name);
                text.append("' not found");
                text
            },
            ParseError::InvalidCharacter(c) => {
                let mut text = String::from_str("Error: Invalid character '");
                push_char(&mut text, *c);
                text.append("'");
                text
            },
            ParseError::MissingUnaryOperand(c) => {
                let mut text = String::from_str("Error: Not enough operands for unary operator '");
                push_char(&mut text, *c);
                text.append("'");
                text
            },
            ParseError::MissingBinaryOperands(c) => {
                let mut text = String::from_str("Error: Not enough operands for binary operator '");
                push_char(&mut text, *c);
                text.append("'");
                text
            },
            ParseError::Malformed => String::from_str("Error: Malformed expression"),
        }
    }
}

/// The literal that a digit stands for.
pub open spec fn literal_of(c: char) -> LogicValue {
    LogicValue { value: ValueType::Bool(c == '1') }
}

/// The first letter of `tokens` that `entries` does not bind.
pub open spec fn first_unbound<V>(tokens: Seq<char>, entries: Seq<(char, V)>) -> Option<char>
    decreases tokens.len(),
{
    if tokens.len() == 0 {
        None
    } else {
        match first_unbound(tokens.drop_last(), entries) {
            Some(c) => Some(c),
            None => if is_variable_name(tokens.last()) && lookup(entries, tokens.last()) is None {
                Some(tokens.last())
            } else {
                None
            },
        }
    }
}

/// What one token does to the stack.
///
/// A letter stands for its bound value where there are bindings, and for a
/// variable in variable mode; a digit is read only without bindings and
/// outside variable mode, by a type that has truth values.
pub open spec fn step<T: Operand>(
    stack: Seq<ExprNode<T::V>>,
    c: char,
    variable_mode: bool,
    bindings: Option<Seq<(char, T::V)>>,
) -> Result<Seq<ExprNode<T::V>>, ParseError> {
    if is_variable_name(c) {
        match bindings {
            Some(entries) => match lookup(entries, c) {
                Some(value) => Ok(stack.push(ExprNode::Const(value))),
                None => Err(ParseError::VariableNotFound(c)),
            },
            None => if variable_mode {
                Ok(stack.push(ExprNode::Var(c)))
            } else {
                Err(ParseError::InvalidCharacter(c))
            },
        }
    } else if is_literal(c) && !variable_mode && bindings is None && T::from_logic_spec(literal_of(c)) is Some {
        Ok(stack.push(ExprNode::Const(T::from_logic_spec(literal_of(c))->0)))
    } else if UnaryOperator::from_symbol_spec(c) is Some {
        if stack.len() >= 1 {
            Ok(stack.drop_last().push(not_of(stack.last())))
        } else {
            Err(ParseError::MissingUnaryOperand(c))
        }
    } else if BinaryOperator::from_symbol_spec(c) is Some {
        if stack.len() >= 2 {
            Ok(
                stack.take(stack.len() - 2).push(
                    binary_of(
                        BinaryOperator::from_symbol_spec(c)->0,
                        stack[stack.len() - 2],
                        stack[stack.len() - 1],
                    ),
                ),
            )
        } else {
            Err(ParseError::MissingBinaryOperands(c))
        }
    } else {
        Err(ParseError::InvalidCharacter(c))
    }
}

/// The stack after all of `tokens`, or the first error on the way.
pub open spec fn run<T: Operand>(
    tokens: Seq<char>,
    variable_mode: bool,
    bindings: Option<Seq<(char, T::V)>>,
) -> Result<Seq<ExprNode<T::V>>, ParseError>
    decreases tokens.len(),
{
    if tokens.len() == 0 {
        Ok(Seq::empty())
    } else {
        match run::<T>(tokens.drop_last(), variable_mode, bindings) {
            Ok(stack) => step::<T>(stack, tokens.last(), variable_mode, bindings),
            Err(e) => Err(e),
        }
    }
}

/// The tree that a formula stands for.
///
/// With bindings, a letter that they do not hold is reported before anything
/// else. Otherwise the first token that cannot be read is reported, and a
/// formula that leaves no tree or several is malformed.
pub open spec fn parse<T: Operand>(
    tokens: Seq<char>,
    variable_mode: bool,
    bindings: Option<Seq<(char, T::V)>>,
) -> Result<ExprNode<T::V>, ParseError> {
    if bindings is Some && first_unbound(tokens, bindings->0) is Some {
        Err(ParseError::VariableNotFound(first_unbound(tokens, bindings->0)->0))
    } else {
        match run::<T>(tokens, variable_mode, bindings) {
            Ok(stack) => if stack.len() == 1 {
                Ok(stack[0])
            } else {
                Err(ParseError::Malformed)
            },
            Err(e) => Err(e),
        }
    }
}

/// The views of the trees on a stack.
pub open spec fn stack_view<T: Operand>(stack: Seq<ExprNode<T>>) -> Seq<ExprNode<T::V>> {
    Seq::new(stack.len(), |i: int| stack[i]@)
}

/// The view of bindings that may be absent.
pub open spec fn bindings_view<T: Operand>(bindings: Option<&Bindings<T>>) -> Option<Seq<(char, T::V)>> {
    match bindings {
        Some(b) => Some(b@),
        None => None,
    }
}

/// The view of what building a tree gave.
pub open spec fn built_view<T: Operand>(built: Result<ExprNode<T>, ParseError>) -> Result<
    ExprNode<T::V>,
    ParseError,
> {
    match built {
        Ok(tree) => Ok(tree@),
        Err(e) => Err(e),
    }
}

/// An unbound letter stays the first one however the formula goes on.
pub proof fn lemma_first_unbound_prefix<V>(tokens: Seq<char>, entries: Seq<(char, V)>, k: int)
    requires
        0 <= k <= tokens.len(),
        first_unbound(tokens.take(k), entries) is Some,
    ensures
        first_unbound(tokens, entries) == first_unbound(tokens.take(k), entries),
    decreases tokens.len() - k,
{
    if k == tokens.len() {
        assert(tokens.take(k) == tokens);
    } else {
        assert(tokens.take(k + 1).drop_last() == tokens.take(k));
        lemma_first_unbound_prefix(tokens, entries, k + 1);
    }
}

/// An error stays the first one however the formula goes on.
pub proof fn lemma_run_error_prefix<T: Operand>(
    tokens: Seq<char>,
    variable_mode: bool,
    bindings: Option<Seq<(char, T::V)>>,
    k: int,
)
    requires
        0 <= k <= tokens.len(),
        run::<T>(tokens.take(k), variable_mode, bindings) is Err,
    ensures
        run::<T>(tokens, variable_mode, bindings) == run::<T>(tokens.take(k), variable_mode, bindings),
    decreases tokens.len() - k,
{
    if k == tokens.len() {
        assert(tokens.take(k) == tokens);
    } else {
        assert(tokens.take(k + 1).drop_last() == tokens.take(k));
        lemma_run_error_prefix::<T>(tokens, variable_mode, bindings, k + 1);
    }
}

/// Whether no tree on a stack holds a variable.
pub open spec fn all_bound<V>(stack: Seq<ExprNode<V>>) -> bool {
    forall|i: int| 0 <= i < stack.len() ==> (#[trigger] stack[i]).is_bound()
}

/// Whether a text holds no letter.
pub open spec fn no_letters(tokens: Seq<char>) -> bool {
    forall|i: int| 0 <= i < tokens.len() ==> !is_variable_name(#[trigger] tokens[i])
}

/// A variable comes only from a letter read in variable mode without
/// bindings: outside that mode, with bindings, or from a text without
/// letters, every tree built is free of variables.
pub proof fn lemma_run_bound<T: Operand>(
    tokens: Seq<char>,
    variable_mode: bool,
    bindings: Option<Seq<(char, T::V)>>,
)
    requires
        !variable_mode || bindings is Some || no_letters(tokens),
    ensures
        run::<T>(tokens, variable_mode, bindings) matches Ok(stack) ==> all_bound(stack),
        parse::<T>(tokens, variable_mode, bindings) matches Ok(tree) ==> tree.is_bound(),
    decreases tokens.len(),
{
    if tokens.len() > 0 {
        let front = tokens.drop_last();
        assert forall|i: int| 0 <= i < front.len() implies !is_variable_name(#[trigger] front[i]) || variable_mode
            == false || bindings is Some by {
            assert(front[i] == tokens[i]);
        }
        lemma_run_bound::<T>(front, variable_mode, bindings);
        assert(tokens.last() == tokens[tokens.len() - 1]);
    }
}

/// Looks for a letter of `tokens` that `bindings` does not hold.
fn find_unbound<T: Operand>(tokens: &Vec<char>, bindings: &Bindings<T>) -> (missing: Option<char>)
    ensures
        missing == first_unbound(tokens@, bindings@),
{
    let mut i: usize = 0;
    while i < tokens.len()
        invariant
            i <= tokens.len(),
            first_unbound(tokens@.take(i as int), bindings@) is None,
        decreases tokens.len() - i,
    {
        let c = tokens[i];
        proof {
            assert(tokens@.take(i + 1).drop_last() == tokens@.take(i as int));
        }
        if is_variable(c) && !bindings.contains(c) {
            proof {
                lemma_first_unbound_prefix(tokens@, bindings@, i + 1);
            }
            return Some(c);
        }
        i += 1;
    }
    assert(tokens@.take(i as int) == tokens@);
    None
}

/// Builds the tree of a postfix formula.
///
/// In variable mode a letter is a variable. With bindings a letter is the
/// constant bound to it, and every letter of the formula must be bound.
/// With neither, only the digits `0` and `1` are operands.
pub fn build_tree<T: Operand>(
    expression: &str,
    variable_mode: bool,
    bindings: Option<&Bindings<T>>,
) -> (built: Result<ExprNode<T>, ParseError>)
    ensures
        built_view(built) == parse::<T>(expression@, variable_mode, bindings_view(bindings)),
{
    let tokens = chars_of(expression);
    let ghost held = bindings_view(bindings);
    if let Some(b) = bindings {
        if let Some(c) = find_unbound(&tokens, b) {
            return Err(ParseError::VariableNotFound(c));
        }
    }
    let mut stack: Vec<ExprNode<T>> = Vec::new();
    let mut i: usize = 0;
    assert(stack_view::<T>(stack@) == Seq::<ExprNode<T::V>>::empty());
    while i < tokens.len()
        invariant
            i <= tokens.len(),
            held == bindings_view(bindings),
            tokens@ == expression@,
            held is Some ==> first_unbound(tokens@, held->0) is None,
            run::<T>(tokens@.take(i as int), variable_mode, held) == Ok::<_, ParseError>(
                stack_view::<T>(stack@),
            ),
        decreases tokens.len() - i,
    {
        let c = tokens[i];
        let ghost before = stack_view::<T>(stack@);
        proof {
            assert(tokens@.take(i + 1).drop_last() == tokens@.take(i as int));
            assert(run::<T>(tokens@.take(i + 1), variable_mode, held) == step::<T>(before, c, variable_mode, held));
        }
        let mut pushed: Option<ExprNode<T>> = None;
        let mut failure: Option<ParseError> = None;
        if is_variable(c) {
            match bindings {
                Some(b) => match b.get(c) {
                    Some(value) => {
                        pushed = Some(ExprNode::Const(value.duplicate()));
                    },
                    None => {
                        failure = Some(ParseError::VariableNotFound(c));
                    },
                },
                None => {
                    if variable_mode {
                        pushed = Some(ExprNode::Var(c));
                    } else {
                        failure = Some(ParseError::InvalidCharacter(c));
                    }
                },
            }
        } else {
            let literal: Option<T> = if (c == '0' || c == '1') && !variable_mode && bindings.is_none() {
                T::from_logic(LogicValue { value: ValueType::Bool(c == '1') })
            } else {
                None
            };
            if let Some(value) = literal {
                pushed = Some(ExprNode::Const(value));
            } else if let Some(op) = UnaryOperator::from_symbol(c) {
                match stack.pop() {
                    Some(child) => {
                        proof {
                            assert(stack_view::<T>(stack@) == before.drop_last());
                        }
                        pushed = Some(ExprNode::UnaryOp(op, Box::new(child)));
                    },
                    None => {
                        failure = Some(ParseError::MissingUnaryOperand(c));
                    },
                }
            } else if let Some(op) = BinaryOperator::from_symbol(c) {
                if stack.len() >= 2 {
                    let right = stack.pop().unwrap();
                    let left = stack.pop().unwrap();
                    proof {
                        assert(stack_view::<T>(stack@) == before.take(before.len() - 2));
                    }
                    pushed = Some(ExprNode::BinaryOp(op, Box::new(left), Box::new(right)));
                } else {
                    failure = Some(ParseError::MissingBinaryOperands(c));
                }
            } else {
                failure = Some(ParseError::InvalidCharacter(c));
            }
        }
        match failure {
            Some(e) => {
                proof {
                    lemma_run_error_prefix::<T>(tokens@, variable_mode, held, i + 1);
                }
                return Err(e);
            },
            None => {},
        }
        match pushed {
            Some(node) => {
                let ghost below = stack_view::<T>(stack@);
                stack.push(node);
                proof {
                    assert(stack_view::<T>(stack@) == below.push(node@));
                }
            },
            None => {
                assert(false);
            },
        }
        i += 1;
    }
    proof {
        assert(tokens@.take(i as int) == tokens@);
    }
    if stack.len() == 1 {
        let tree = stack.pop().unwrap();
        Ok(tree)
    } else {
        Err(ParseError::Malformed)
    }
}

} // verus!
