//! Writing a tree down, in postfix and in infix.

use vstd::prelude::*;
use crate::expr::ExprNode;
use crate::operators::BinaryOperator;
use crate::text::append_text;
use crate::value::Operand;

verus! {

/// The postfix text of a tree: the operands of a node, left to right, and
/// then its connective. A constant is written as a token.
pub open spec fn rpn_spec<T: Operand>(tree: ExprNode<T::V>) -> Seq<char>
    decreases tree,
{
    match tree {
        ExprNode::Const(value) => T::render_spec(value),
        ExprNode::Var(name) => seq![name],
        ExprNode::UnaryOp(op, child) => rpn_spec::<T>(*child).push(op.symbol_spec()),
        ExprNode::BinaryOp(op, left, right) => (rpn_spec::<T>(*left) + rpn_spec::<T>(*right)).push(
            op.symbol_spec(),
        ),
    }
}

/// The sign of negation in infix text.
pub open spec fn not_sign() -> char {
    '\u{ac}'
}

/// The connective of a binary node in infix text, between two spaces. The
/// conjunction and the disjunction have signs of their own; the others keep
/// their token.
pub open spec fn infix_sign(op: BinaryOperator) -> Seq<char> {
    match op {
        BinaryOperator::Conjunction => seq![' ', '\u{2227}', ' '],
        BinaryOperator::Disjunction => seq![' ', '\u{2228}', ' '],
        _ => seq![' ', op.symbol_spec(), ' '],
    }
}

/// The level at which the operands of a binary node are written: a
/// conjunction binds tighter than a disjunction, and the other connectives
/// do not bind at all.
pub open spec fn operand_level(op: BinaryOperator) -> u8 {
    match op {
        BinaryOperator::Conjunction => 2,
        BinaryOperator::Disjunction => 1,
        _ => 0,
    }
}

/// The infix text of a tree that stands at the given level. A constant is
/// written out. A binary node is put in parentheses wherever the level is
/// above zero, which it is under a negation, a conjunction and a
/// disjunction.
pub open spec fn infix_spec<T: Operand>(tree: ExprNode<T::V>, level: u8) -> Seq<char>
    decreases tree,
{
    match tree {
        ExprNode::Const(value) => T::written_spec(value),
        ExprNode::Var(name) => seq![name],
        ExprNode::UnaryOp(_, child) => seq![not_sign()] + infix_spec::<T>(*child, 10),
        ExprNode::BinaryOp(op, left, right) => {
            let inner = infix_spec::<T>(*left, operand_level(op)) + infix_sign(op) + infix_spec::<T>(
                *right,
                operand_level(op),
            );
            if level > 0 {
                seq!['('] + inner + seq![')']
            } else {
                inner
            }
        },
    }
}

/// Appends the postfix text of a tree.
pub fn write_rpn<T: Operand>(node: &ExprNode<T>, out: &mut Vec<char>)
    ensures
        final(out)@ == old(out)@ + rpn_spec::<T>(node@),
    decreases node,
{
    match node {
        ExprNode::Const(value) => {
            let text = value.render();
            append_text(out, &text);
        },
        ExprNode::Var(name) => {
            out.push(*name);
            assert(out@ == old(out)@ + seq![*name]);
        },
        ExprNode::UnaryOp(op, child) => {
            write_rpn(child, out);
            out.push(op.symbol());
            assert(out@ == old(out)@ + rpn_spec::<T>(child@).push(op.symbol_spec()));
        },
        ExprNode::BinaryOp(op, left, right) => {
            write_rpn(left, out);
            write_rpn(right, out);
            out.push(op.symbol());
            assert(out@ == old(out)@ + (rpn_spec::<T>(left@) + rpn_spec::<T>(right@)).push(op.symbol_spec()));
        },
    }
}

/// Appends the infix text of a tree that stands at the given level.
pub fn write_infix<T: Operand>(node: &ExprNode<T>, precedence: u8, out: &mut Vec<char>)
    ensures
        final(out)@ == old(out)@ + infix_spec::<T>(node@, precedence),
    decreases node,
{
    match node {
        ExprNode::Const(value) => {
            let text = value.written();
            append_text(out, &text);
        },
        ExprNode::Var(name) => {
            out.push(*name);
            assert(out@ == old(out)@ + seq![*name]);
        },
        ExprNode::UnaryOp(_, child) => {
            out.push('\u{ac}');
            write_infix(child, 10, out);
            assert(out@ == old(out)@ + (seq![not_sign()] + infix_spec::<T>(child@, 10)));
        },
        ExprNode::BinaryOp(op, left, right) => {
            let level: u8 = match op {
                BinaryOperator::Conjunction => 2,
                BinaryOperator::Disjunction => 1,
                _ => 0,
            };
            if precedence > 0 {
                out.push('(');
            }
            write_infix(left, level, out);
            out.push(' ');
            out.push(
                match op {
                    BinaryOperator::Conjunction => '\u{2227}',
                    BinaryOperator::Disjunction => '\u{2228}',
                    _ => op.symbol(),
                },
            );
            out.push(' ');
            write_infix(right, level, out);
            if precedence > 0 {
                out.push(')');
            }
            proof {
                let inner = infix_spec::<T>(left@, operand_level(*op)) + infix_sign(*op) + infix_spec::<T>(
                    right@,
                    operand_level(*op),
                );
                if precedence > 0 {
                    assert(out@ == old(out)@ + (seq!['('] + inner + seq![')']));
                } else {
                    assert(out@ == old(out)@ + inner);
                }
            }
        },
    }
}

} // verus!
