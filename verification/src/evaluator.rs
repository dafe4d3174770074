//! Evaluation of formulas in an algebra, with a cache of what was computed.

use std::marker::PhantomData;
use vstd::prelude::*;
use crate::algebra::{eval, evaluable, universe_view, Algebra};
use crate::alphabet::{check_only_vars, only_vars};
use crate::bindings::{values_of, Bindings};
use crate::boolean::{lemma_eval_is_truth, BooleanOperations};
use crate::expr::ExprNode;
use crate::format::{infix_spec, rpn_spec, write_infix, write_rpn};
use crate::operators::BinaryOperator;
use crate::parser::{bindings_view, build_tree, built_view, lemma_run_bound, parse, ParseError};
use crate::text::{append_text, same_text, string_of};
use crate::value::Operand;

verus! {

/// The signature of a tree: the text under which its value is cached.
///
/// A constant is its value written out, a negation is `!` before the
/// signature of its operand, and a binary node is the two signatures in
/// parentheses with the connective between two spaces.
pub open spec fn signature<T: Operand>(tree: ExprNode<T::V>) -> Seq<char>
    decreases tree,
{
    match tree {
        ExprNode::Const(value) => T::written_spec(value),
        ExprNode::Var(name) => seq![name],
        ExprNode::UnaryOp(op, child) => seq![op.symbol_spec()] + signature::<T>(*child),
        ExprNode::BinaryOp(op, left, right) => seq!['('] + signature::<T>(*left) + seq![
            ' ',
            op.symbol_spec(),
            ' ',
        ] + signature::<T>(*right) + seq![')'],
    }
}

/// How a signature begins: with `!` for a negation, with `(` for a binary
/// node, and with neither for a constant.
pub open spec fn head_fits<T: Operand>(tree: ExprNode<T::V>) -> bool {
    let head = signature::<T>(tree)[0];
    match tree {
        ExprNode::Const(_) => head != '!' && head != '(',
        ExprNode::Var(_) => true,
        ExprNode::UnaryOp(_, _) => head == '!',
        ExprNode::BinaryOp(_, _, _) => head == '(',
    }
}

proof fn lemma_signature_head<T: Operand>(tree: ExprNode<T::V>)
    ensures
        signature::<T>(tree).len() > 0,
        head_fits::<T>(tree),
{
    match tree {
        ExprNode::Const(value) => {
            T::lemma_written_head(value);
        },
        ExprNode::Var(_) => {},
        ExprNode::UnaryOp(_, _) => {},
        ExprNode::BinaryOp(_, _, _) => {},
    }
}

proof fn lemma_split_unary<T: Operand>(tree: ExprNode<T::V>, rest: Seq<char>)
    requires
        tree is UnaryOp,
    ensures
        (signature::<T>(tree) + rest).drop_first() == signature::<T>(*tree->UnaryOp_1) + rest,
{
}

/// The text that follows the left operand in the signature of a binary
/// node, up to the end of what follows the node.
spec fn after_left<T: Operand>(tree: ExprNode<T::V>, rest: Seq<char>) -> Seq<char> {
    seq![' ', tree->BinaryOp_0.symbol_spec(), ' '] + (signature::<T>(*tree->BinaryOp_2) + (seq![')'] + rest))
}

proof fn lemma_split_binary<T: Operand>(tree: ExprNode<T::V>, rest: Seq<char>)
    requires
        tree is BinaryOp,
    ensures
        (signature::<T>(tree) + rest).drop_first() == signature::<T>(*tree->BinaryOp_1) + after_left::<T>(
            tree,
            rest,
        ),
        after_left::<T>(tree, rest)[1] == tree->BinaryOp_0.symbol_spec(),
        after_left::<T>(tree, rest).skip(3) == signature::<T>(*tree->BinaryOp_2) + (seq![')'] + rest),
        (seq![')'] + rest).drop_first() == rest,
{
}

/// Trees without variables that have one signature, whatever text follows
/// it, are one tree: a signature can be read back in one way only.
pub proof fn lemma_signature_unique<T: Operand>(
    a: ExprNode<T::V>,
    b: ExprNode<T::V>,
    rest_a: Seq<char>,
    rest_b: Seq<char>,
)
    requires
        a.is_bound(),
        b.is_bound(),
        signature::<T>(a) + rest_a == signature::<T>(b) + rest_b,
    ensures
        a == b,
        rest_a == rest_b,
    decreases a,
{
    let sa = signature::<T>(a);
    let sb = signature::<T>(b);
    let whole = sa + rest_a;
    lemma_signature_head::<T>(a);
    lemma_signature_head::<T>(b);
    assert(whole[0] == sa[0]);
    assert((sb + rest_b)[0] == sb[0]);
    match a {
        ExprNode::Const(x) => {
            match b {
                ExprNode::Const(y) => {
                    T::lemma_written_prefix_free(x, y, rest_a, rest_b);
                },
                _ => {},
            }
        },
        ExprNode::Var(_) => {},
        ExprNode::UnaryOp(_, child_a) => {
            match b {
                ExprNode::UnaryOp(_, child_b) => {
                    lemma_split_unary::<T>(a, rest_a);
                    lemma_split_unary::<T>(b, rest_b);
                    lemma_signature_unique::<T>(*child_a, *child_b, rest_a, rest_b);
                },
                _ => {},
            }
        },
        ExprNode::BinaryOp(op_a, left_a, right_a) => {
            match b {
                ExprNode::BinaryOp(op_b, left_b, right_b) => {
                    lemma_split_binary::<T>(a, rest_a);
                    lemma_split_binary::<T>(b, rest_b);
                    lemma_signature_unique::<T>(
                        *left_a,
                        *left_b,
                        after_left::<T>(a, rest_a),
                        after_left::<T>(b, rest_b),
                    );
                    assert(op_a.symbol_spec() == op_b.symbol_spec());
                    assert(op_a == op_b);
                    lemma_signature_unique::<T>(*right_a, *right_b, seq![')'] + rest_a, seq![')'] + rest_b);
                },
                _ => {},
            }
        },
    }
    assert(a == b);
    assert(whole.skip(sa.len() as int) == rest_a);
    assert((sb + rest_b).skip(sb.len() as int) == rest_b);
}

/// Whether a cached value is the value of every tree that has the entry's
/// signature and can be evaluated in the entry's universe. An entry is a
/// signature, the universe it was computed in, and the value.
pub open spec fn entry_valid<T: Operand, O: Algebra<T>>(entry: (Seq<char>, Option<Seq<T::V>>, T::V)) -> bool {
    forall|tree: ExprNode<T::V>|
        evaluable::<T, O>(tree, entry.1) && #[trigger] signature::<T>(tree) == entry.0 ==> eval::<T, O>(
            tree,
            entry.1,
        ) == entry.2
}

/// A tree that can be evaluated holds no variable.
pub proof fn lemma_evaluable_is_bound<T: Operand, O: Algebra<T>>(tree: ExprNode<T::V>, universal: Option<Seq<T::V>>)
    requires
        evaluable::<T, O>(tree, universal),
    ensures
        tree.is_bound(),
    decreases tree,
{
    match tree {
        ExprNode::Const(_) => {},
        ExprNode::Var(_) => {},
        ExprNode::UnaryOp(_, child) => {
            lemma_evaluable_is_bound::<T, O>(*child, universal);
        },
        ExprNode::BinaryOp(_, left, right) => {
            lemma_evaluable_is_bound::<T, O>(*left, universal);
            lemma_evaluable_is_bound::<T, O>(*right, universal);
        },
    }
}

/// The value of a tree in a universe is a valid entry under the tree's
/// signature and that universe.
pub proof fn lemma_own_entry_valid<T: Operand, O: Algebra<T>>(tree: ExprNode<T::V>, universal: Option<Seq<T::V>>)
    requires
        evaluable::<T, O>(tree, universal),
    ensures
        entry_valid::<T, O>((signature::<T>(tree), universal, eval::<T, O>(tree, universal))),
{
    lemma_evaluable_is_bound::<T, O>(tree, universal);
    assert forall|other: ExprNode<T::V>|
        evaluable::<T, O>(other, universal) && #[trigger] signature::<T>(other) == signature::<T>(
            tree,
        ) implies eval::<T, O>(other, universal) == eval::<T, O>(tree, universal) by {
        lemma_evaluable_is_bound::<T, O>(other, universal);
        assert(signature::<T>(other) + Seq::<char>::empty() == signature::<T>(tree) + Seq::<char>::empty());
        lemma_signature_unique::<T>(other, tree, Seq::empty(), Seq::empty());
    }
}

/// The view of a universe that the evaluator keeps.
pub open spec fn kept_universe_view<T: Operand>(universal: Option<Vec<T>>) -> Option<Seq<T::V>> {
    match universal {
        Some(values) => Some(Seq::new(values@.len(), |i: int| values@[i]@)),
        None => None,
    }
}

/// A copy of a universe.
fn copy_universe<T: Operand>(universal: Option<&Vec<T>>) -> (copy: Option<Vec<T>>)
    ensures
        kept_universe_view(copy) == universe_view(universal),
{
    match universal {
        Some(values) => {
            let mut copy: Vec<T> = Vec::new();
            let mut i: usize = 0;
            while i < values.len()
                invariant
                    i <= values.len(),
                    copy@.len() == i,
                    forall|j: int| 0 <= j < i ==> (#[trigger] copy@[j])@ == values@[j]@,
                decreases values.len() - i,
            {
                copy.push(values[i].duplicate());
                i += 1;
            }
            assert(kept_universe_view(Some(copy))->0 =~= universe_view(Some(values))->0);
            Some(copy)
        },
        None => None,
    }
}

/// The views of a list of values.
pub open spec fn views_of<T: Operand>(values: Seq<T>) -> Seq<T::V> {
    Seq::new(values.len(), |i: int| values[i]@)
}

/// Whether two lists hold the same values in the same order.
fn same_values<T: Operand>(mine: &Vec<T>, theirs: &Vec<T>) -> (same: bool)
    ensures
        same == (views_of(mine@) == views_of(theirs@)),
{
    if mine.len() != theirs.len() {
        assert(views_of(mine@).len() != views_of(theirs@).len());
        return false;
    }
    let mut i: usize = 0;
    while i < mine.len()
        invariant
            i <= mine.len(),
            mine.len() == theirs.len(),
            forall|j: int| 0 <= j < i ==> (#[trigger] mine@[j])@ == theirs@[j]@,
        decreases mine.len() - i,
    {
        if !mine[i].same(&theirs[i]) {
            assert(views_of(mine@)[i as int] != views_of(theirs@)[i as int]);
            return false;
        }
        i += 1;
    }
    assert(views_of(mine@) =~= views_of(theirs@));
    true
}

/// Whether a universe that the evaluator keeps is the given one.
fn same_universe<T: Operand>(kept: &Option<Vec<T>>, universal: Option<&Vec<T>>) -> (same: bool)
    ensures
        same == (kept_universe_view(*kept) == universe_view(universal)),
{
    match kept {
        Some(mine) => match universal {
            Some(theirs) => {
                assert(kept_universe_view(*kept) == Some(views_of(mine@)));
                assert(universe_view(universal) == Some(views_of(theirs@)));
                same_values(mine, theirs)
            },
            None => false,
        },
        None => universal.is_none(),
    }
}

/// An evaluator of formulas over `T` in the algebra `O`.
///
/// It keeps the value of every tree it has evaluated under the tree's
/// signature and the universe in which the value was computed, and looks a
/// tree up before it computes. Nothing is ever taken out of the cache: a
/// value computed in one universe stays, and is found again by formulas
/// that are evaluated in the same universe and by no others.
pub struct ExpressionEvaluator<T, O> {
    cache: Vec<(Vec<char>, usize, T)>,
    universes: Vec<Option<Vec<T>>>,
    _marker: PhantomData<O>,
}

impl<T: Operand, O: Algebra<T>> ExpressionEvaluator<T, O> {
    /// What the cache holds, oldest first: each signature with the
    /// universe in which its value was computed, and the value.
    pub closed spec fn cached(&self) -> Seq<(Seq<char>, Option<Seq<T::V>>, T::V)> {
        Seq::new(
            self.cache@.len(),
            |i: int|
                (
                    self.cache@[i].0@,
                    kept_universe_view(self.universes@[self.cache@[i].1 as int]),
                    self.cache@[i].2@,
                ),
        )
    }

    /// Whether every entry of the cache names a universe that is kept.
    pub closed spec fn tags_fit(&self) -> bool {
        forall|i: int| 0 <= i < self.cache@.len() ==> (#[trigger] self.cache@[i]).1 < self.universes@.len()
    }

    /// Whether the cache holds `value` under `key` and `universal`.
    pub open spec fn holds(&self, key: Seq<char>, universal: Option<Seq<T::V>>, value: T::V) -> bool {
        exists|i: int| 0 <= i < self.cached().len() && #[trigger] self.cached()[i] == (key, universal, value)
    }

    /// Whether the cache holds all that `earlier` held, in the same order,
    /// before anything else.
    pub open spec fn extends(&self, earlier: &Self) -> bool {
        self.cached().len() >= earlier.cached().len() && self.cached().take(earlier.cached().len() as int)
            == earlier.cached()
    }

    /// Whether every cached value is right in the universe of its entry.
    pub open spec fn cache_valid(&self) -> bool {
        forall|i: int| 0 <= i < self.cached().len() ==> entry_valid::<T, O>(#[trigger] self.cached()[i])
    }

    /// Whether the evaluator is sound: every cached value is right in the
    /// universe of its entry.
    pub open spec fn wf(&self) -> bool {
        self.tags_fit() && self.cache_valid()
    }

    /// An evaluator with an empty cache.
    pub fn new() -> (evaluator: Self)
        ensures
            evaluator.cached() == Seq::<(Seq<char>, Option<Seq<T::V>>, T::V)>::empty(),
            evaluator.wf(),
    {
        ExpressionEvaluator { cache: Vec::new(), universes: Vec::new(), _marker: PhantomData }
    }

    /// Builds the tree of a postfix formula.
    pub fn build_tree(&self, expression: &str, var: bool, bindings: Option<&Bindings<T>>) -> (built: Result<
        ExprNode<T>,
        ParseError,
    >)
        ensures
            built_view(built) == parse::<T>(expression@, var, bindings_view(bindings)),
    {
        build_tree(expression, var, bindings)
    }

    fn write_cache_key(node: &ExprNode<T>, out: &mut Vec<char>)
        ensures
            final(out)@ == old(out)@ + signature::<T>(node@),
        decreases node,
    {
        match node {
            ExprNode::Const(value) => {
                let text = value.written();
                append_text(out, &text);
            },
            ExprNode::Var(name) => {
                out.push(*name);
                assert(out@ == old(out)@ + seq![*name]);
            },
            ExprNode::UnaryOp(op, child) => {
                out.push(op.symbol());
                Self::write_cache_key(child, out);
                assert(out@ == old(out)@ + (seq![op.symbol_spec()] + signature::<T>(child@)));
            },
            ExprNode::BinaryOp(op, left, right) => {
                out.push('(');
                Self::write_cache_key(left, out);
                out.push(' ');
                out.push(op.symbol());
                out.push(' ');
                Self::write_cache_key(right, out);
                out.push(')');
                assert(out@ == old(out)@ + (seq!['('] + signature::<T>(left@) + seq![' ', op.symbol_spec(), ' ']
                    + signature::<T>(right@) + seq![')']));
            },
        }
    }

    /// The signature of a tree.
    pub fn generate_cache_key(&self, node: &ExprNode<T>) -> (key: Vec<char>)
        ensures
            key@ == signature::<T>(node@),
    {
        let mut key: Vec<char> = Vec::new();
        Self::write_cache_key(node, &mut key);
        assert(Seq::<char>::empty() + signature::<T>(node@) == signature::<T>(node@));
        key
    }

    /// The place of a universe among those kept; a universe that is not
    /// kept yet is put at the end.
    fn universe_tag(&mut self, universal: Option<&Vec<T>>) -> (tag: usize)
        requires
            old(self).tags_fit(),
        ensures
            final(self).tags_fit(),
            final(self).cached() == old(self).cached(),
            tag < final(self).universes@.len(),
            kept_universe_view(final(self).universes@[tag as int]) == universe_view(universal),
    {
        let mut i: usize = 0;
        while i < self.universes.len()
            invariant
                i <= self.universes.len(),
                self.tags_fit(),
                self.cached() == old(self).cached(),
                self.cache@ == old(self).cache@,
                self.universes@ == old(self).universes@,
            decreases self.universes.len() - i,
        {
            if same_universe(&self.universes[i], universal) {
                return i;
            }
            i += 1;
        }
        let copy = copy_universe(universal);
        self.universes.push(copy);
        assert(self.cached() =~= old(self).cached());
        i
    }

    fn find_cached(&self, key: &Vec<char>, tag: usize) -> (at: Option<usize>)
        ensures
            at matches Some(i) ==> i < self.cache@.len() && self.cache@[i as int].0@ == key@ && self.cache@[i as int].1
                == tag,
    {
        let mut i: usize = 0;
        while i < self.cache.len()
            invariant
                i <= self.cache.len(),
            decreases self.cache.len() - i,
        {
            if self.cache[i].1 == tag && same_text(&self.cache[i].0, key) {
                return Some(i);
            }
            i += 1;
        }
        None
    }

    /// The value of a tree in a universe, from the cache where the tree was
    /// evaluated in that universe before, and into the cache where it was
    /// not. The cache keeps all that it held.
    pub fn evaluate_tree(&mut self, node: &ExprNode<T>, universal: Option<&Vec<T>>) -> (value: T)
        requires
            old(self).wf(),
            evaluable::<T, O>(node@, universe_view(universal)),
        ensures
            value@ == eval::<T, O>(node@, universe_view(universal)),
            final(self).wf(),
            final(self).extends(old(self)),
            final(self).holds(signature::<T>(node@), universe_view(universal), value@),
    {
        let tag = self.universe_tag(universal);
        self.evaluate_node(node, universal, tag)
    }

    /// The value of a tree in the universe kept at `tag`.
    fn evaluate_node(&mut self, node: &ExprNode<T>, universal: Option<&Vec<T>>, tag: usize) -> (value: T)
        requires
            evaluable::<T, O>(node@, universe_view(universal)),
            old(self).wf(),
            tag < old(self).universes@.len(),
            kept_universe_view(old(self).universes@[tag as int]) == universe_view(universal),
        ensures
            value@ == eval::<T, O>(node@, universe_view(universal)),
            final(self).wf(),
            final(self).extends(old(self)),
            final(self).universes@ == old(self).universes@,
            final(self).holds(signature::<T>(node@), universe_view(universal), value@),
        decreases node,
    {
        let ghost universe = universe_view(universal);
        let key = self.generate_cache_key(node);
        if let Some(i) = self.find_cached(&key, tag) {
            assert(self.cached()[i as int].0 == key@ && self.cached()[i as int].1 == universe);
            assert(entry_valid::<T, O>(self.cached()[i as int]));
            assert(self.cached().take(self.cached().len() as int) == self.cached());
            let value = self.cache[i].2.duplicate();
            assert(self.cached()[i as int] == (signature::<T>(node@), universe, value@));
            return value;
        }
        let value = match node {
            ExprNode::Const(held) => held.duplicate(),
            ExprNode::Var(_) => vstd::pervasive::unreached(),
            ExprNode::UnaryOp(_, child) => {
                let inner = self.evaluate_node(child, universal, tag);
                O::negation(&inner, universal)
            },
            ExprNode::BinaryOp(op, left, right) => {
                let ghost start = self.cached();
                let a = self.evaluate_node(left, universal, tag);
                let ghost middle = self.cached();
                let b = self.evaluate_node(right, universal, tag);
                proof {
                    let after = self.cached();
                    assert(middle.take(start.len() as int) == start);
                    assert(after.take(middle.len() as int) == middle);
                    assert(after.take(start.len() as int) == after.take(middle.len() as int).take(
                        start.len() as int,
                    ));
                }
                match op {
                    BinaryOperator::Implication => O::implication(&a, &b, universal),
                    BinaryOperator::Disjunction => O::disjunction(&a, &b, universal),
                    BinaryOperator::Conjunction => O::conjunction(&a, &b, universal),
                    BinaryOperator::ExclusiveDisjunction => O::exclusive_disjunction(&a, &b, universal),
                    BinaryOperator::Equivalence => O::logical_equivalence(&a, &b, universal),
                }
            },
        };
        let ghost before = self.cached();
        let kept = value.duplicate();
        self.cache.push((key, tag, kept));
        proof {
            lemma_own_entry_valid::<T, O>(node@, universe);
            assert(self.cached() =~= before.push((signature::<T>(node@), universe, value@)));
            assert(self.cached()[before.len() as int] == (signature::<T>(node@), universe, value@));
            let earlier = old(self).cached();
            assert(before.take(earlier.len() as int) == earlier);
            assert(self.cached().take(earlier.len() as int) == before.take(earlier.len() as int));
        }
        value
    }

    /// Evaluates a formula.
    ///
    /// A formula of letters and connectives alone is read in variable mode,
    /// any other outside it. With bindings each letter stands for its bound
    /// value, and the bound values, in the order of their names, are the
    /// universe. The formula must leave no variable unbound, and its
    /// connectives must be defined in that universe.
    pub fn evaluate(&mut self, expression: &str, bindings: Option<&Bindings<T>>) -> (outcome: Result<T, ParseError>)
        requires
            old(self).wf(),
            parse::<T>(expression@, only_vars(expression@), bindings_view(bindings)) matches Ok(tree)
                ==> evaluable::<T, O>(tree, universe_of::<T>(bindings_view(bindings))),
        ensures
            final(self).wf(),
            match parse::<T>(expression@, only_vars(expression@), bindings_view(bindings)) {
                Ok(tree) => outcome matches Ok(value) && value@ == eval::<T, O>(
                    tree,
                    universe_of::<T>(bindings_view(bindings)),
                ) && final(self).holds(signature::<T>(tree), universe_of::<T>(bindings_view(bindings)), value@),
                Err(e) => outcome matches Err(f) && f == e && final(self).cached() == old(self).cached(),
            },
            final(self).extends(old(self)),
    {
        let variable_mode = check_only_vars(expression);
        let tree = match build_tree(expression, variable_mode, bindings) {
            Ok(tree) => tree,
            Err(e) => {
                assert(self.cached().take(self.cached().len() as int) == self.cached());
                return Err(e);
            },
        };
        let universal: Option<Vec<T>> = match bindings {
            Some(b) => Some(b.values()),
            None => None,
        };
        let value = match &universal {
            Some(values) => {
                proof {
                    assert(universe_view(Some(values)) == universe_of::<T>(bindings_view(bindings)));
                }
                self.evaluate_tree(&tree, Some(values))
            },
            None => self.evaluate_tree(&tree, None),
        };
        Ok(value)
    }

    /// The postfix text of a tree.
    pub fn to_rpn(&self, node: &ExprNode<T>) -> (text: String)
        ensures
            text@ == rpn_spec::<T>(node@),
    {
        let mut out: Vec<char> = Vec::new();
        write_rpn(node, &mut out);
        assert(Seq::<char>::empty() + rpn_spec::<T>(node@) == rpn_spec::<T>(node@));
        string_of(&out)
    }

    /// The infix text of a tree.
    pub fn print_formula(&self, node: &ExprNode<T>) -> (text: String)
        ensures
            text@ == infix_spec::<T>(node@, 0),
    {
        let mut out: Vec<char> = Vec::new();
        self.print_formula_recursive(node, 0, &mut out);
        assert(Seq::<char>::empty() + infix_spec::<T>(node@, 0) == infix_spec::<T>(node@, 0));
        string_of(&out)
    }

    fn print_formula_recursive(&self, node: &ExprNode<T>, precedence: u8, out: &mut Vec<char>)
        ensures
            final(out)@ == old(out)@ + infix_spec::<T>(node@, precedence),
    {
        write_infix(node, precedence, out)
    }
}

impl BooleanOperations {
    /// Evaluates a formula over the digits `0` and `1`.
    pub fn evaluate(&mut self, expression: &str) -> (outcome: Result<bool, ParseError>)
        ensures
            match parse::<bool>(expression@, false, None) {
                Ok(tree) => outcome matches Ok(value) && value == eval::<bool, BooleanOperations>(tree, None),
                Err(e) => outcome matches Err(f) && f == e,
            },
    {
        let tree = match build_tree::<bool>(expression, false, None) {
            Ok(tree) => tree,
            Err(e) => {
                return Err(e);
            },
        };
        proof {
            lemma_run_bound::<bool>(expression@, false, None);
            lemma_eval_is_truth(tree@, None, |c: char| false);
        }
        let mut evaluator = ExpressionEvaluator::<bool, BooleanOperations>::new();
        Ok(evaluator.evaluate_tree(&tree, None))
    }
}

/// The universe that bindings give: their values, in the order of the names.
pub open spec fn universe_of<T: Operand>(bindings: Option<Seq<(char, T::V)>>) -> Option<Seq<T::V>> {
    match bindings {
        Some(entries) => Some(values_of(entries)),
        None => None,
    }
}

} // verus!
