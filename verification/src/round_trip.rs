//! Reading and writing undo one another.
//!
//! A formula without bindings is the postfix text of its tree, and the
//! postfix text of a tree is read back as that tree.

use vstd::prelude::*;
use crate::alphabet::{is_symbol, only_vars};
use crate::expr::{binary_of, not_of, ExprNode};
use crate::format::rpn_spec;
use crate::operators::{is_literal, is_variable_name, lemma_symbol_round_trip, BinaryOperator, UnaryOperator};
use crate::parser::{literal_of, parse, run, step, ParseError};
use crate::value::{digit_of, Operand};

verus! {

/// The postfix texts of the trees of a stack, one after the other.
pub open spec fn stack_text<T: Operand>(stack: Seq<ExprNode<T::V>>) -> Seq<char>
    decreases stack.len(),
{
    if stack.len() == 0 {
        Seq::empty()
    } else {
        stack_text::<T>(stack.drop_last()) + rpn_spec::<T>(stack.last())
    }
}

/// Whether a value is the one that a digit stands for.
pub open spec fn is_literal_value<T: Operand>(value: T::V) -> bool {
    T::from_logic_spec(literal_of('1')) == Some(value) || T::from_logic_spec(literal_of('0')) == Some(value)
}

/// Whether a tree is one that a formula without bindings can stand for in
/// the given mode: in variable mode its leaves are variables named by
/// letters, and outside it they are the values of the two digits.
pub open spec fn readable<T: Operand>(tree: ExprNode<T::V>, variable_mode: bool) -> bool
    decreases tree,
{
    match tree {
        ExprNode::Const(value) => !variable_mode && is_literal_value::<T>(value),
        ExprNode::Var(name) => variable_mode && is_variable_name(name),
        ExprNode::UnaryOp(_, child) => readable::<T>(*child, variable_mode),
        ExprNode::BinaryOp(_, left, right) => readable::<T>(*left, variable_mode) && readable::<T>(
            *right,
            variable_mode,
        ),
    }
}

/// Whether every tree of a stack is readable.
pub open spec fn all_readable<T: Operand>(stack: Seq<ExprNode<T::V>>, variable_mode: bool) -> bool {
    forall|i: int| 0 <= i < stack.len() ==> readable::<T>(#[trigger] stack[i], variable_mode)
}

proof fn lemma_stack_text_push<T: Operand>(stack: Seq<ExprNode<T::V>>, tree: ExprNode<T::V>)
    ensures
        stack_text::<T>(stack.push(tree)) == stack_text::<T>(stack) + rpn_spec::<T>(tree),
{
    assert(stack.push(tree).drop_last() == stack);
}

/// What was read so far is the postfix text of the stack, and every tree
/// on the stack is readable.
pub proof fn lemma_run_text<T: Operand>(tokens: Seq<char>, variable_mode: bool)
    ensures
        run::<T>(tokens, variable_mode, None) matches Ok(stack) ==> stack_text::<T>(stack) == tokens
            && all_readable::<T>(stack, variable_mode),
    decreases tokens.len(),
{
    if tokens.len() > 0 {
        let front = tokens.drop_last();
        let c = tokens.last();
        lemma_run_text::<T>(front, variable_mode);
        if let Ok(before) = run::<T>(front, variable_mode, None) {
            if let Ok(after) = step::<T>(before, c, variable_mode, None) {
                assert(tokens == front.push(c));
                if is_variable_name(c) {
                    lemma_stack_text_push::<T>(before, ExprNode::Var(c));
                    assert(rpn_spec::<T>(ExprNode::Var(c)) == seq![c]);
                } else if is_literal(c) && !variable_mode && T::from_logic_spec(literal_of(c)) is Some {
                    let value = T::from_logic_spec(literal_of(c))->0;
                    lemma_stack_text_push::<T>(before, ExprNode::Const(value));
                    T::lemma_render_literal(c == '1');
                    assert(rpn_spec::<T>(ExprNode::Const(value)) == seq![c]);
                } else if UnaryOperator::from_symbol_spec(c) is Some {
                    let below = before.drop_last();
                    let child = before.last();
                    lemma_stack_text_push::<T>(below, not_of(child));
                    assert(rpn_spec::<T>(not_of(child)) == rpn_spec::<T>(child).push(c));
                    assert(stack_text::<T>(after) == (stack_text::<T>(below) + rpn_spec::<T>(child)).push(c));
                } else {
                    let op = BinaryOperator::from_symbol_spec(c)->0;
                    let n = before.len();
                    let below = before.take(n - 2);
                    let left = before[n - 2];
                    let right = before[n - 1];
                    lemma_stack_text_push::<T>(below, binary_of(op, left, right));
                    assert(before.drop_last().drop_last() == below);
                    assert(before.drop_last().last() == left);
                    assert(op.symbol_spec() == c);
                    assert(rpn_spec::<T>(binary_of(op, left, right)) == (rpn_spec::<T>(left) + rpn_spec::<T>(
                        right,
                    )).push(c));
                    assert(before.drop_last() == below.push(left));
                    assert(before == below.push(left).push(right));
                    lemma_stack_text_push::<T>(below, left);
                    lemma_stack_text_push::<T>(below.push(left), right);
                    assert(stack_text::<T>(before) == (stack_text::<T>(below) + rpn_spec::<T>(left))
                        + rpn_spec::<T>(right));
                    assert(stack_text::<T>(after) == ((stack_text::<T>(below) + rpn_spec::<T>(left))
                        + rpn_spec::<T>(right)).push(c));
                }
                assert forall|i: int| 0 <= i < after.len() implies readable::<T>(
                    #[trigger] after[i],
                    variable_mode,
                ) by {
                    if i < after.len() - 1 {
                        assert(after[i] == before[i]);
                    }
                }
            }
        }
    }
}

/// A well-formed formula without bindings is the postfix text of its tree,
/// and its tree is readable in the mode in which it was read.
pub proof fn lemma_formula_is_text_of_tree<T: Operand>(tokens: Seq<char>, variable_mode: bool)
    requires
        parse::<T>(tokens, variable_mode, None) is Ok,
    ensures
        rpn_spec::<T>(parse::<T>(tokens, variable_mode, None)->Ok_0) == tokens,
        readable::<T>(parse::<T>(tokens, variable_mode, None)->Ok_0, variable_mode),
{
    lemma_run_text::<T>(tokens, variable_mode);
    let stack = run::<T>(tokens, variable_mode, None)->Ok_0;
    let nothing = Seq::<ExprNode<T::V>>::empty();
    assert(stack == nothing.push(stack[0]));
    lemma_stack_text_push::<T>(nothing, stack[0]);
    assert(Seq::<char>::empty() + rpn_spec::<T>(stack[0]) == rpn_spec::<T>(stack[0]));
}

/// Reading the postfix text of a readable tree after any text puts that
/// tree on the stack that the text before it left.
pub proof fn lemma_run_appended<T: Operand>(
    before: Seq<char>,
    tree: ExprNode<T::V>,
    variable_mode: bool,
)
    requires
        run::<T>(before, variable_mode, None) is Ok,
        readable::<T>(tree, variable_mode),
    ensures
        run::<T>(before + rpn_spec::<T>(tree), variable_mode, None) == Ok::<Seq<ExprNode<T::V>>, ParseError>(
            run::<T>(before, variable_mode, None)->Ok_0.push(tree),
        ),
    decreases tree,
{
    let stack = run::<T>(before, variable_mode, None)->Ok_0;
    match tree {
        ExprNode::Const(value) => {
            let bit = T::from_logic_spec(literal_of('1')) == Some(value);
            T::lemma_render_literal(bit);
            let c = digit_of(bit);
            assert(literal_of(c) == literal_of(if bit {
                '1'
            } else {
                '0'
            }));
            assert(rpn_spec::<T>(tree) == seq![c]);
            let whole = before + rpn_spec::<T>(tree);
            assert(whole.drop_last() == before);
            assert(whole.last() == c);
        },
        ExprNode::Var(name) => {
            let whole = before + rpn_spec::<T>(tree);
            assert(whole.drop_last() == before);
            assert(whole.last() == name);
        },
        ExprNode::UnaryOp(op, child) => {
            lemma_run_appended::<T>(before, *child, variable_mode);
            let whole = before + rpn_spec::<T>(tree);
            let front = before + rpn_spec::<T>(*child);
            assert(whole.drop_last() == front);
            assert(whole.last() == '!');
            assert(stack.push(*child).drop_last() == stack);
        },
        ExprNode::BinaryOp(op, left, right) => {
            lemma_run_appended::<T>(before, *left, variable_mode);
            let middle = before + rpn_spec::<T>(*left);
            lemma_run_appended::<T>(middle, *right, variable_mode);
            let front = middle + rpn_spec::<T>(*right);
            let whole = before + rpn_spec::<T>(tree);
            assert(whole.drop_last() == front);
            assert(whole.last() == op.symbol_spec());
            lemma_symbol_round_trip(op);
            let full = stack.push(*left).push(*right);
            assert(full.take(full.len() - 2) == stack);
        },
    }
}

/// The postfix text of a readable tree is read back as that tree.
pub proof fn lemma_text_of_tree_is_read_back<T: Operand>(tree: ExprNode<T::V>, variable_mode: bool)
    requires
        readable::<T>(tree, variable_mode),
    ensures
        parse::<T>(rpn_spec::<T>(tree), variable_mode, None) == Ok::<ExprNode<T::V>, ParseError>(tree),
{
    lemma_run_appended::<T>(Seq::empty(), tree, variable_mode);
    assert(Seq::<char>::empty() + rpn_spec::<T>(tree) == rpn_spec::<T>(tree));
}

/// Every tree over truth values without variables is readable outside
/// variable mode.
pub proof fn lemma_bound_is_readable(tree: ExprNode<bool>)
    requires
        tree.is_bound(),
    ensures
        readable::<bool>(tree, false),
    decreases tree,
{
    match tree {
        ExprNode::UnaryOp(_, child) => {
            lemma_bound_is_readable(*child);
        },
        ExprNode::BinaryOp(_, left, right) => {
            lemma_bound_is_readable(*left);
            lemma_bound_is_readable(*right);
        },
        _ => {},
    }
}

/// The postfix text of a readable tree over truth values is made of
/// letters and connectives alone exactly in variable mode, and its letters
/// are the variables of the tree.
pub proof fn lemma_text_of_readable(tree: ExprNode<bool>, variable_mode: bool)
    requires
        readable::<bool>(tree, variable_mode),
    ensures
        rpn_spec::<bool>(tree).len() > 0,
        only_vars(rpn_spec::<bool>(tree)) == variable_mode,
        forall|c: char|
            #[trigger] rpn_spec::<bool>(tree).contains(c) && is_variable_name(c) ==> tree.variables().contains(c),
        forall|c: char| #[trigger] tree.variables().contains(c) ==> rpn_spec::<bool>(tree).contains(c)
                && is_variable_name(c),
    decreases tree,
{
    let text = rpn_spec::<bool>(tree);
    match tree {
        ExprNode::Const(value) => {
            assert(text[0] == digit_of(value));
            assert(!is_symbol(text[0]));
            assert forall|c: char| #[trigger] text.contains(c) && is_variable_name(c) implies false by {
                let i = choose|i: int| 0 <= i < text.len() && text[i] == c;
                assert(c == digit_of(value));
            }
        },
        ExprNode::Var(name) => {
            assert(text[0] == name);
        },
        ExprNode::UnaryOp(op, child) => {
            lemma_text_of_readable(*child, variable_mode);
            let inner = rpn_spec::<bool>(*child);
            assert(text == inner.push('!'));
            lemma_pushed_text(inner, '!');
            assert forall|c: char| #[trigger] text.contains(c) && is_variable_name(c) implies tree.variables().contains(
                c,
            ) by {
                assert(inner.push('!').contains(c));
                assert(inner.contains(c));
            }
            assert forall|c: char| #[trigger] tree.variables().contains(c) implies text.contains(c)
                && is_variable_name(c) by {
                assert((*child).variables().contains(c));
                assert(inner.contains(c));
                assert(inner.push('!').contains(c));
            }
        },
        ExprNode::BinaryOp(op, left, right) => {
            lemma_text_of_readable(*left, variable_mode);
            lemma_text_of_readable(*right, variable_mode);
            let a = rpn_spec::<bool>(*left);
            let b = rpn_spec::<bool>(*right);
            lemma_joined_text(a, b);
            lemma_pushed_text(a + b, op.symbol_spec());
            lemma_symbol_round_trip(op);
            assert(is_symbol(op.symbol_spec()));
            assert(text == (a + b).push(op.symbol_spec()));
            assert forall|c: char| #[trigger] text.contains(c) && is_variable_name(c) implies tree.variables().contains(
                c,
            ) by {
                assert((a + b).push(op.symbol_spec()).contains(c));
                assert((a + b).contains(c));
                assert(a.contains(c) || b.contains(c));
            }
            assert forall|c: char| #[trigger] tree.variables().contains(c) implies text.contains(c)
                && is_variable_name(c) by {
                assert((*left).variables().contains(c) || (*right).variables().contains(c));
                assert(a.contains(c) || b.contains(c));
                assert((a + b).contains(c));
                assert((a + b).push(op.symbol_spec()).contains(c));
            }
        },
    }
}

/// A text with a connective at its end holds the letters of the text, and
/// is made of letters and connectives where the text is, or is empty.
pub proof fn lemma_pushed_text(text: Seq<char>, c: char)
    requires
        is_symbol(c),
        !is_variable_name(c),
    ensures
        forall|d: char| #[trigger] text.push(c).contains(d) && is_variable_name(d) ==> text.contains(d),
        forall|d: char| #[trigger] text.contains(d) ==> text.push(c).contains(d),
        text.len() > 0 ==> only_vars(text.push(c)) == only_vars(text),
{
    let whole = text.push(c);
    assert forall|d: char| #[trigger] whole.contains(d) && is_variable_name(d) implies text.contains(d) by {
        let i = choose|i: int| 0 <= i < whole.len() && whole[i] == d;
        assert(text[i] == d);
    }
    assert forall|d: char| #[trigger] text.contains(d) implies whole.contains(d) by {
        let i = choose|i: int| 0 <= i < text.len() && text[i] == d;
        assert(whole[i] == d);
    }
    if text.len() > 0 {
        if only_vars(text) {
            assert forall|i: int| 0 <= i < whole.len() implies is_symbol(#[trigger] whole[i]) by {
                if i < text.len() {
                    assert(whole[i] == text[i]);
                }
            }
        }
        if only_vars(whole) {
            assert forall|i: int| 0 <= i < text.len() implies is_symbol(#[trigger] text[i]) by {
                assert(whole[i] == text[i]);
            }
        }
    }
}

/// Two texts joined hold the characters of both, and are made of letters
/// and connectives where both are.
pub proof fn lemma_joined_text(a: Seq<char>, b: Seq<char>)
    ensures
        forall|d: char| #[trigger] (a + b).contains(d) <==> (a.contains(d) || b.contains(d)),
        a.len() > 0 && b.len() > 0 ==> only_vars(a + b) == (only_vars(a) && only_vars(b)),
{
    let whole = a + b;
    assert forall|d: char| #[trigger] whole.contains(d) <==> (a.contains(d) || b.contains(d)) by {
        if whole.contains(d) {
            let i = choose|i: int| 0 <= i < whole.len() && whole[i] == d;
            if i < a.len() {
                assert(a[i] == d);
            } else {
                assert(b[i - a.len()] == d);
            }
        }
        if a.contains(d) {
            let i = choose|i: int| 0 <= i < a.len() && a[i] == d;
            assert(whole[i] == d);
        }
        if b.contains(d) {
            let i = choose|i: int| 0 <= i < b.len() && b[i] == d;
            assert(whole[a.len() + i] == d);
        }
    }
    if a.len() > 0 && b.len() > 0 {
        if only_vars(a) && only_vars(b) {
            assert forall|i: int| 0 <= i < whole.len() implies is_symbol(#[trigger] whole[i]) by {
                if i < a.len() {
                    assert(whole[i] == a[i]);
                } else {
                    assert(whole[i] == b[i - a.len()]);
                }
            }
        }
        if only_vars(whole) {
            assert forall|i: int| 0 <= i < a.len() implies is_symbol(#[trigger] a[i]) by {
                assert(whole[i] == a[i]);
            }
            assert forall|i: int| 0 <= i < b.len() implies is_symbol(#[trigger] b[i]) by {
                assert(whole[a.len() + i] == b[i]);
            }
        }
    }
}

} // verus!
