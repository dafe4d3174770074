//! Negation normal form.
//!
//! A formula is rewritten so that negations move inwards: two negations
//! cancel, the negation of a conjunction is the disjunction of the negations
//! and the other way round. Along the way the exclusive disjunction, the
//! implication and the equivalence are written with `&`, `|` and `!`.

use vstd::prelude::*;
use crate::algebra::Algebra;
use crate::boolean::truth;
use crate::alphabet::{check_only_vars, only_vars};
use crate::evaluator::ExpressionEvaluator;
use crate::expr::{binary_of, not_of, ExprNode};
use crate::format::{rpn_spec, write_rpn};
use crate::operators::{BinaryOperator, UnaryOperator};
use crate::parser::{build_tree, parse};
use crate::text::string_of;
use crate::value::Operand;

verus! {

/// A binary node over two operands that are rewritten already, with the
/// connective written out where it is none of `&` and `|`:
/// `a ^ b` is `(a | b) & !(a & b)`, `a > b` is `!a | b`, and `a = b` is
/// `(!a | b) & (!b | a)`.
pub open spec fn expand<V>(op: BinaryOperator, a: ExprNode<V>, b: ExprNode<V>) -> ExprNode<V> {
    match op {
        BinaryOperator::Conjunction => binary_of(BinaryOperator::Conjunction, a, b),
        BinaryOperator::Disjunction => binary_of(BinaryOperator::Disjunction, a, b),
        BinaryOperator::ExclusiveDisjunction => binary_of(
            BinaryOperator::Conjunction,
            binary_of(BinaryOperator::Disjunction, a, b),
            not_of(binary_of(BinaryOperator::Conjunction, a, b)),
        ),
        BinaryOperator::Implication => binary_of(BinaryOperator::Disjunction, not_of(a), b),
        BinaryOperator::Equivalence => binary_of(
            BinaryOperator::Conjunction,
            binary_of(BinaryOperator::Disjunction, not_of(a), b),
            binary_of(BinaryOperator::Disjunction, not_of(b), a),
        ),
    }
}

/// The rewriting of `tree`, or of its negation where `negated` is set.
///
/// A negation hands its operand on with the sign turned. Under the sign a
/// conjunction becomes the disjunction of its negated operands and a
/// disjunction the conjunction of them; a leaf keeps the negation; and any
/// other node is rewritten without the sign and negated as a whole.
pub open spec fn nnf<V>(tree: ExprNode<V>, negated: bool) -> ExprNode<V>
    decreases tree,
{
    match tree {
        ExprNode::UnaryOp(_, child) => nnf(*child, !negated),
        ExprNode::BinaryOp(op, left, right) => {
            if negated && op == BinaryOperator::Conjunction {
                binary_of(BinaryOperator::Disjunction, nnf(*left, true), nnf(*right, true))
            } else if negated && op == BinaryOperator::Disjunction {
                binary_of(BinaryOperator::Conjunction, nnf(*left, true), nnf(*right, true))
            } else if negated {
                not_of(expand(op, nnf(*left, false), nnf(*right, false)))
            } else {
                expand(op, nnf(*left, false), nnf(*right, false))
            }
        },
        _ => if negated {
            not_of(tree)
        } else {
            tree
        },
    }
}

/// The negation normal form of a tree.
pub open spec fn nnf_spec<V>(tree: ExprNode<V>) -> ExprNode<V> {
    nnf(tree, false)
}

fn expand_node<T: Operand>(op: BinaryOperator, a: ExprNode<T>, b: ExprNode<T>) -> (r: ExprNode<T>)
    ensures
        r@ == expand(op, a@, b@),
{
    proof {
        reveal_with_fuel(ExprNode::model, 4);
    }
    match op {
        BinaryOperator::Conjunction => ExprNode::BinaryOp(BinaryOperator::Conjunction, Box::new(a), Box::new(b)),
        BinaryOperator::Disjunction => ExprNode::BinaryOp(BinaryOperator::Disjunction, Box::new(a), Box::new(b)),
        BinaryOperator::ExclusiveDisjunction => {
            let either = ExprNode::BinaryOp(
                BinaryOperator::Disjunction,
                Box::new(a.duplicate()),
                Box::new(b.duplicate()),
            );
            let both = ExprNode::BinaryOp(BinaryOperator::Conjunction, Box::new(a), Box::new(b));
            ExprNode::BinaryOp(
                BinaryOperator::Conjunction,
                Box::new(either),
                Box::new(ExprNode::UnaryOp(UnaryOperator::Negation, Box::new(both))),
            )
        },
        BinaryOperator::Implication => {
            let not_left = ExprNode::UnaryOp(UnaryOperator::Negation, Box::new(a));
            ExprNode::BinaryOp(BinaryOperator::Disjunction, Box::new(not_left), Box::new(b))
        },
        BinaryOperator::Equivalence => {
            let left_to_right = ExprNode::BinaryOp(
                BinaryOperator::Disjunction,
                Box::new(ExprNode::UnaryOp(UnaryOperator::Negation, Box::new(a.duplicate()))),
                Box::new(b.duplicate()),
            );
            let right_to_left = ExprNode::BinaryOp(
                BinaryOperator::Disjunction,
                Box::new(ExprNode::UnaryOp(UnaryOperator::Negation, Box::new(b))),
                Box::new(a),
            );
            ExprNode::BinaryOp(BinaryOperator::Conjunction, Box::new(left_to_right), Box::new(right_to_left))
        },
    }
}

fn to_nnf_signed<T: Operand>(node: ExprNode<T>, negated: bool) -> (r: ExprNode<T>)
    ensures
        r@ == nnf(node@, negated),
    decreases node,
{
    match node {
        ExprNode::UnaryOp(_, child) => to_nnf_signed(*child, !negated),
        ExprNode::BinaryOp(op, left, right) => {
            if negated && op == BinaryOperator::Conjunction {
                let a = to_nnf_signed(*left, true);
                let b = to_nnf_signed(*right, true);
                ExprNode::BinaryOp(BinaryOperator::Disjunction, Box::new(a), Box::new(b))
            } else if negated && op == BinaryOperator::Disjunction {
                let a = to_nnf_signed(*left, true);
                let b = to_nnf_signed(*right, true);
                ExprNode::BinaryOp(BinaryOperator::Conjunction, Box::new(a), Box::new(b))
            } else {
                let a = to_nnf_signed(*left, false);
                let b = to_nnf_signed(*right, false);
                let plain = expand_node(op, a, b);
                if negated {
                    ExprNode::UnaryOp(UnaryOperator::Negation, Box::new(plain))
                } else {
                    plain
                }
            }
        },
        leaf => {
            if negated {
                ExprNode::UnaryOp(UnaryOperator::Negation, Box::new(leaf))
            } else {
                leaf
            }
        },
    }
}

/// Rewrites a tree into negation normal form.
pub fn to_nnf<T: Operand>(node: ExprNode<T>) -> (r: ExprNode<T>)
    ensures
        r@ == nnf_spec(node@),
{
    to_nnf_signed(node, false)
}

impl<T: Operand, O: Algebra<T>> ExpressionEvaluator<T, O> {
    /// The negation normal form of a formula, in postfix. The formula is
    /// read in variable mode where it is made of letters and connectives
    /// alone, and must be well formed.
    pub fn negation_normal_form(&self, formula: &str) -> (text: String)
        requires
            parse::<T>(formula@, only_vars(formula@), None) is Ok,
        ensures
            text@ == rpn_spec::<T>(nnf_spec(parse::<T>(formula@, only_vars(formula@), None)->Ok_0)),
    {
        let tree = match build_tree::<T>(formula, check_only_vars(formula), None) {
            Ok(tree) => tree,
            Err(_) => vstd::pervasive::unreached(),
        };
        let nnf_tree = self.to_nnf(tree);
        self.to_rpn(&nnf_tree)
    }

    /// Rewrites a tree into negation normal form.
    pub fn to_nnf(&self, node: ExprNode<T>) -> (r: ExprNode<T>)
        ensures
            r@ == nnf_spec(node@),
    {
        to_nnf(node)
    }
}

/// The negation normal form of a formula over variables, in postfix. The
/// formula must be well formed.
pub fn negation_normal_form(formula: &str) -> (text: String)
    requires
        parse::<bool>(formula@, true, None) is Ok,
    ensures
        text@ == rpn_spec::<bool>(nnf_spec(parse::<bool>(formula@, true, None)->Ok_0)),
        crate::truth_table::table_spec(text@) == crate::truth_table::table_spec(formula@),
{
    let tree = match build_tree::<bool>(formula, true, None) {
        Ok(tree) => tree,
        Err(_) => vstd::pervasive::unreached(),
    };
    proof {
        crate::round_trip::lemma_formula_is_text_of_tree::<bool>(formula@, true);
        crate::round_trip::lemma_text_of_readable(tree@, true);
        crate::table_laws::lemma_nnf_keeps_table(formula@);
    }
    let nnf_tree = to_nnf(tree);
    to_rpn(&nnf_tree)
}

/// The postfix text of a tree over truth values.
pub fn to_rpn(node: &ExprNode<bool>) -> (text: String)
    ensures
        text@ == rpn_spec::<bool>(node@),
{
    let mut out: Vec<char> = Vec::new();
    write_rpn(node, &mut out);
    assert(Seq::<char>::empty() + rpn_spec::<bool>(node@) == rpn_spec::<bool>(node@));
    string_of(&out)
}

/// Whether a tree is a constant or a variable.
pub open spec fn is_leaf<V>(tree: ExprNode<V>) -> bool {
    tree is Const || tree is Var
}

/// Whether a tree is in negation normal form: its connectives are `&`, `|`
/// and `!`, and every negation stands before a leaf.
pub open spec fn is_nnf<V>(tree: ExprNode<V>) -> bool
    decreases tree,
{
    match tree {
        ExprNode::UnaryOp(_, child) => is_leaf(*child),
        ExprNode::BinaryOp(op, left, right) => (op == BinaryOperator::Conjunction || op
            == BinaryOperator::Disjunction) && is_nnf(*left) && is_nnf(*right),
        _ => true,
    }
}

/// Whether a tree, or its negation where `negated` is set, is rewritten
/// into a leaf: it is a leaf under negations that cancel.
pub open spec fn rewrites_to_leaf<V>(tree: ExprNode<V>, negated: bool) -> bool
    decreases tree,
{
    match tree {
        ExprNode::UnaryOp(_, child) => rewrites_to_leaf(*child, !negated),
        ExprNode::BinaryOp(_, _, _) => false,
        _ => !negated,
    }
}

/// Whether the rewriting of a tree, or of its negation where `negated` is
/// set, is in negation normal form.
///
/// The rewriting of an exclusive disjunction never is, because it holds the
/// negation of a conjunction. That of an implication is where its left
/// operand is rewritten into a leaf, and that of an equivalence where both
/// operands are. The negation of any of the three never is.
pub open spec fn nnf_stable<V>(tree: ExprNode<V>, negated: bool) -> bool
    decreases tree,
{
    match tree {
        ExprNode::UnaryOp(_, child) => nnf_stable(*child, !negated),
        ExprNode::BinaryOp(op, left, right) => match op {
            BinaryOperator::Conjunction => nnf_stable(*left, negated) && nnf_stable(*right, negated),
            BinaryOperator::Disjunction => nnf_stable(*left, negated) && nnf_stable(*right, negated),
            BinaryOperator::ExclusiveDisjunction => false,
            BinaryOperator::Implication => !negated && rewrites_to_leaf(*left, false) && nnf_stable(
                *right,
                false,
            ),
            BinaryOperator::Equivalence => !negated && rewrites_to_leaf(*left, false) && rewrites_to_leaf(
                *right,
                false,
            ),
        },
        _ => true,
    }
}

/// Whether the connectives of a tree are `&`, `|` and `!` alone.
pub open spec fn is_plain<V>(tree: ExprNode<V>) -> bool
    decreases tree,
{
    match tree {
        ExprNode::UnaryOp(_, child) => is_plain(*child),
        ExprNode::BinaryOp(op, left, right) => (op == BinaryOperator::Conjunction || op
            == BinaryOperator::Disjunction) && is_plain(*left) && is_plain(*right),
        _ => true,
    }
}

/// The rewriting is a leaf exactly where `rewrites_to_leaf` says so, and a
/// leaf is always in negation normal form.
pub proof fn lemma_rewrites_to_leaf<V>(tree: ExprNode<V>, negated: bool)
    ensures
        is_leaf(nnf(tree, negated)) == rewrites_to_leaf(tree, negated),
        rewrites_to_leaf(tree, negated) ==> nnf_stable(tree, negated),
    decreases tree,
{
    match tree {
        ExprNode::UnaryOp(_, child) => {
            lemma_rewrites_to_leaf(*child, !negated);
        },
        _ => {},
    }
}

/// The rewriting of a tree is in negation normal form exactly where
/// `nnf_stable` says so.
pub proof fn lemma_nnf_stable<V>(tree: ExprNode<V>, negated: bool)
    ensures
        is_nnf(nnf(tree, negated)) == nnf_stable(tree, negated),
    decreases tree,
{
    reveal_with_fuel(is_nnf, 4);
    match tree {
        ExprNode::UnaryOp(_, child) => {
            lemma_nnf_stable(*child, !negated);
        },
        ExprNode::BinaryOp(op, left, right) => {
            lemma_nnf_stable(*left, negated);
            lemma_nnf_stable(*right, negated);
            lemma_nnf_stable(*left, false);
            lemma_nnf_stable(*right, false);
            lemma_rewrites_to_leaf(*left, false);
            lemma_rewrites_to_leaf(*right, false);
        },
        _ => {},
    }
}

/// The rewriting leaves a tree as it is exactly where the tree is in
/// negation normal form.
pub proof fn lemma_nnf_fixed_point<V>(tree: ExprNode<V>)
    ensures
        (nnf_spec(tree) == tree) == is_nnf(tree),
    decreases tree,
{
    match tree {
        ExprNode::UnaryOp(_, child) => {
            lemma_nnf_stable(*child, true);
            match *child {
                ExprNode::UnaryOp(_, inner) => {
                    lemma_nnf_never_double(*inner, false);
                },
                ExprNode::BinaryOp(op, _, _) => {},
                _ => {},
            }
        },
        ExprNode::BinaryOp(op, left, right) => {
            lemma_nnf_fixed_point(*left);
            lemma_nnf_fixed_point(*right);
        },
        _ => {},
    }
}

/// No rewriting is the negation of a negation.
pub proof fn lemma_nnf_never_double<V>(tree: ExprNode<V>, negated: bool)
    ensures
        nnf(tree, negated) matches ExprNode::UnaryOp(_, child) ==> !(*child is UnaryOp),
    decreases tree,
{
    match tree {
        ExprNode::UnaryOp(_, child) => {
            lemma_nnf_never_double(*child, !negated);
        },
        _ => {},
    }
}

/// Rewriting twice gives what rewriting once gives, exactly for the trees
/// whose rewriting is in negation normal form.
pub proof fn lemma_nnf_idempotent<V>(tree: ExprNode<V>)
    ensures
        (nnf_spec(nnf_spec(tree)) == nnf_spec(tree)) == nnf_stable(tree, false),
{
    lemma_nnf_fixed_point(nnf_spec(tree));
    lemma_nnf_stable(tree, false);
}

/// A tree whose connectives are `&`, `|` and `!` alone is rewritten into
/// negation normal form, so rewriting it twice changes nothing more.
pub proof fn lemma_plain_is_stable<V>(tree: ExprNode<V>, negated: bool)
    requires
        is_plain(tree),
    ensures
        nnf_stable(tree, negated),
        is_plain(nnf(tree, negated)),
        negated == false ==> nnf_spec(nnf_spec(tree)) == nnf_spec(tree),
    decreases tree,
{
    reveal_with_fuel(is_plain, 2);
    match tree {
        ExprNode::UnaryOp(_, child) => {
            lemma_plain_is_stable(*child, !negated);
        },
        ExprNode::BinaryOp(op, left, right) => {
            lemma_plain_is_stable(*left, negated);
            lemma_plain_is_stable(*right, negated);
        },
        _ => {},
    }
    if !negated {
        lemma_nnf_idempotent(tree);
    }
}

/// The rewriting has the truth value of the tree under every assignment,
/// and the opposite one where the tree was rewritten under a negation.
pub proof fn lemma_nnf_preserves_truth(tree: ExprNode<bool>, negated: bool, assignment: spec_fn(char) -> bool)
    ensures
        truth(nnf(tree, negated), assignment) == (truth(tree, assignment) != negated),
    decreases tree,
{
    reveal_with_fuel(truth, 4);
    match tree {
        ExprNode::UnaryOp(_, child) => {
            lemma_nnf_preserves_truth(*child, !negated, assignment);
        },
        ExprNode::BinaryOp(op, left, right) => {
            lemma_nnf_preserves_truth(*left, negated, assignment);
            lemma_nnf_preserves_truth(*right, negated, assignment);
            lemma_nnf_preserves_truth(*left, false, assignment);
            lemma_nnf_preserves_truth(*right, false, assignment);
        },
        _ => {},
    }
}

/// The rewriting holds the variables of the tree, and no others.
pub proof fn lemma_nnf_keeps_variables<V>(tree: ExprNode<V>, negated: bool)
    ensures
        nnf(tree, negated).variables() == tree.variables(),
        nnf(tree, negated).is_symbolic() == tree.is_symbolic(),
        nnf(tree, negated).is_bound() == tree.is_bound(),
    decreases tree,
{
    reveal_with_fuel(ExprNode::variables, 4);
    reveal_with_fuel(ExprNode::is_symbolic, 4);
    reveal_with_fuel(ExprNode::is_bound, 4);
    match tree {
        ExprNode::UnaryOp(_, child) => {
            lemma_nnf_keeps_variables(*child, !negated);
        },
        ExprNode::BinaryOp(op, left, right) => {
            lemma_nnf_keeps_variables(*left, negated);
            lemma_nnf_keeps_variables(*right, negated);
            lemma_nnf_keeps_variables(*left, false);
            lemma_nnf_keeps_variables(*right, false);
            let l = left.variables();
            let r = right.variables();
            assert(l.union(r).union(l.union(r)) == l.union(r));
            assert(l.union(r).union(r.union(l)) == l.union(r));
        },
        _ => {},
    }
}

} // verus!
