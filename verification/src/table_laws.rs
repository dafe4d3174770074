//! What a truth table says of the tree of its formula.
//!
//! A row holds the truth value of the tree under the row's assignment, so
//! formulas whose trees have the same variables and the same truth values
//! have the same table.

use vstd::arithmetic::power2::lemma_pow2_pos;
use vstd::prelude::*;
use crate::alphabet::{is_symbol, only_vars};
use crate::boolean::{lemma_eval_is_truth, truth};
use crate::cnf::{cnf_spec, flatten, joins, lemma_cnf_keeps_variables, lemma_cnf_preserves_truth};
use crate::expr::{binary_of, not_of, ExprNode};
use crate::format::rpn_spec;
use crate::maxterm::lemma_assigned_at;
use crate::nnf::{lemma_nnf_keeps_variables, lemma_nnf_preserves_truth, nnf, nnf_spec};
use crate::operators::{is_variable_name, BinaryOperator, UnaryOperator};
use crate::parser::{lemma_run_bound, no_letters, parse, run, step, ParseError};
use crate::round_trip::{
    lemma_formula_is_text_of_tree, lemma_text_of_readable, lemma_text_of_tree_is_read_back, readable,
};
use crate::sat::satisfiable;
use crate::truth_table::{
    assigned, assignments, lemma_assignments_complete, lemma_assignments_len, lemma_variables, letter,
    row_outcome, substitute, table_spec, variables_below, variables_spec,
};
use crate::value::Operand;

verus! {

/// The assignment that a row of values gives to the variables.
pub open spec fn env_of(variables: Seq<char>, values: Seq<bool>) -> spec_fn(char) -> bool {
    |name: char| assigned(variables, values, name)
}

/// A tree with each variable replaced by the constant that the assignment
/// gives it.
pub open spec fn instantiate(tree: ExprNode<bool>, assignment: spec_fn(char) -> bool) -> ExprNode<bool>
    decreases tree,
{
    match tree {
        ExprNode::Const(value) => ExprNode::Const(value),
        ExprNode::Var(name) => ExprNode::Const(assignment(name)),
        ExprNode::UnaryOp(op, child) => ExprNode::UnaryOp(op, Box::new(instantiate(*child, assignment))),
        ExprNode::BinaryOp(op, left, right) => ExprNode::BinaryOp(
            op,
            Box::new(instantiate(*left, assignment)),
            Box::new(instantiate(*right, assignment)),
        ),
    }
}

/// Each tree of a stack with its variables replaced.
pub open spec fn instantiate_all(stack: Seq<ExprNode<bool>>, assignment: spec_fn(char) -> bool) -> Seq<
    ExprNode<bool>,
> {
    Seq::new(stack.len(), |i: int| instantiate(stack[i], assignment))
}

/// A tree with its variables replaced holds no variable, and has under any
/// assignment the truth value that the tree has under the one that
/// replaced them.
pub proof fn lemma_instantiate(tree: ExprNode<bool>, assignment: spec_fn(char) -> bool, other: spec_fn(char) -> bool)
    ensures
        instantiate(tree, assignment).is_bound(),
        truth(instantiate(tree, assignment), other) == truth(tree, assignment),
    decreases tree,
{
    match tree {
        ExprNode::UnaryOp(_, child) => {
            lemma_instantiate(*child, assignment, other);
        },
        ExprNode::BinaryOp(_, left, right) => {
            lemma_instantiate(*left, assignment, other);
            lemma_instantiate(*right, assignment, other);
        },
        _ => {},
    }
}

/// The rows that a tree gives for the variables of its formula: each
/// assignment with the truth value of the tree under it.
pub open spec fn rows_of(tree: ExprNode<bool>, variables: Seq<char>) -> Seq<(Seq<bool>, bool)> {
    Seq::new(
        assignments(variables.len()).len(),
        |k: int|
            (
                assignments(variables.len())[k],
                truth(tree, env_of(variables, assignments(variables.len())[k])),
            ),
    )
}

/// Reading a formula over variables with digits in place of its letters
/// gives the trees that reading the formula gives, with the variables
/// replaced.
proof fn lemma_substituted_run(tokens: Seq<char>, variables: Seq<char>, values: Seq<bool>, k: int)
    requires
        0 <= k <= tokens.len(),
        run::<bool>(tokens.take(k), true, None) is Ok,
    ensures
        run::<bool>(substitute(tokens, variables, values).take(k), false, None) == Ok::<
            Seq<ExprNode<bool>>,
            ParseError,
        >(instantiate_all(run::<bool>(tokens.take(k), true, None)->Ok_0, env_of(variables, values))),
    decreases k,
{
    let text = substitute(tokens, variables, values);
    let env = env_of(variables, values);
    if k == 0 {
        assert(instantiate_all(Seq::<ExprNode<bool>>::empty(), env) == Seq::<ExprNode<bool>>::empty());
    } else {
        assert(tokens.take(k).drop_last() == tokens.take(k - 1));
        assert(text.take(k).drop_last() == text.take(k - 1));
        assert(tokens.take(k).last() == tokens[k - 1]);
        assert(text.take(k).last() == text[k - 1]);
        lemma_substituted_run(tokens, variables, values, k - 1);
        let before = run::<bool>(tokens.take(k - 1), true, None)->Ok_0;
        let after = run::<bool>(tokens.take(k), true, None)->Ok_0;
        let c = tokens[k - 1];
        assert(step::<bool>(before, c, true, None) == Ok::<Seq<ExprNode<bool>>, ParseError>(after));
        let mapped = instantiate_all(before, env);
        let wanted = instantiate_all(after, env);
        if is_variable_name(c) {
            assert(wanted == mapped.push(ExprNode::Const(env(c))));
        } else if UnaryOperator::from_symbol_spec(c) is Some {
            assert(wanted == mapped.drop_last().push(not_of(mapped.last())));
        } else {
            let op = BinaryOperator::from_symbol_spec(c)->0;
            let n = before.len();
            assert(wanted == mapped.take(n - 2).push(binary_of(op, mapped[n - 2], mapped[n - 1])));
        }
    }
}

/// A tree that is readable in variable mode holds a variable.
pub proof fn lemma_symbolic_has_variable(tree: ExprNode<bool>)
    requires
        readable::<bool>(tree, true),
    ensures
        exists|c: char| tree.variables().contains(c),
    decreases tree,
{
    match tree {
        ExprNode::Var(name) => {
            assert(tree.variables().contains(name));
        },
        ExprNode::UnaryOp(_, child) => {
            lemma_symbolic_has_variable(*child);
            let c = choose|c: char| (*child).variables().contains(c);
            assert(tree.variables().contains(c));
        },
        ExprNode::BinaryOp(_, left, right) => {
            lemma_symbolic_has_variable(*left);
            let c = choose|c: char| (*left).variables().contains(c);
            assert(tree.variables().contains(c));
        },
        _ => {},
    }
}

/// A formula that is read outside variable mode holds no letter.
pub proof fn lemma_constant_formula_has_no_letters(tokens: Seq<char>)
    requires
        run::<bool>(tokens, false, None) is Ok,
    ensures
        no_letters(tokens),
    decreases tokens.len(),
{
    if tokens.len() > 0 {
        lemma_constant_formula_has_no_letters(tokens.drop_last());
        assert forall|i: int| 0 <= i < tokens.len() implies !is_variable_name(#[trigger] tokens[i]) by {
            if i < tokens.len() - 1 {
                assert(tokens.drop_last()[i] == tokens[i]);
            }
        }
    }
}

/// The table of a well-formed formula holds, for each assignment, the
/// truth value of the formula's tree under it.
pub proof fn lemma_table_of_tree(tokens: Seq<char>)
    requires
        parse::<bool>(tokens, only_vars(tokens), None) is Ok,
    ensures
        table_spec(tokens) == Ok::<Seq<(Seq<bool>, bool)>, (Seq<char>, ParseError)>(
            rows_of(parse::<bool>(tokens, only_vars(tokens), None)->Ok_0, variables_spec(tokens)),
        ),
{
    let mode = only_vars(tokens);
    let tree = parse::<bool>(tokens, mode, None)->Ok_0;
    let variables = variables_spec(tokens);
    let all = assignments(variables.len());
    lemma_assignments_len(variables.len());
    lemma_pow2_pos(variables.len());
    assert forall|k: int| 0 <= k < all.len() implies row_outcome(tokens, variables, #[trigger] all[k]) == Ok::<
        bool,
        ParseError,
    >(truth(tree, env_of(variables, all[k]))) by {
        lemma_row_of_tree(tokens, variables, all[k]);
    }
    assert(row_outcome(tokens, variables, all[0]) is Ok);
    assert(table_spec(tokens)->Ok_0 =~= rows_of(tree, variables));
}

/// Under any values for any variables, a well-formed formula is evaluated
/// to the truth value of its tree.
pub proof fn lemma_row_of_tree(tokens: Seq<char>, variables: Seq<char>, values: Seq<bool>)
    requires
        parse::<bool>(tokens, only_vars(tokens), None) is Ok,
    ensures
        row_outcome(tokens, variables, values) == Ok::<bool, ParseError>(
            truth(parse::<bool>(tokens, only_vars(tokens), None)->Ok_0, env_of(variables, values)),
        ),
{
    let mode = only_vars(tokens);
    let tree = parse::<bool>(tokens, mode, None)->Ok_0;
    let text = substitute(tokens, variables, values);
    let env = env_of(variables, values);
    if mode {
        lemma_formula_is_text_of_tree::<bool>(tokens, true);
        lemma_text_of_readable(tree, true);
        lemma_symbolic_has_variable(tree);
        let name = choose|c: char| tree.variables().contains(c);
        assert(tokens.contains(name) && is_variable_name(name));
        let at = choose|i: int| 0 <= i < tokens.len() && tokens[i] == name;
        assert(!is_symbol(text[at]));
        assert(!only_vars(text));
        assert(tokens.take(tokens.len() as int) == tokens);
        assert(text.take(tokens.len() as int) == text);
        lemma_substituted_run(tokens, variables, values, tokens.len() as int);
        let stack = run::<bool>(tokens, true, None)->Ok_0;
        assert(instantiate_all(stack, env)[0] == instantiate(tree, env));
        lemma_instantiate(tree, env, env);
        lemma_eval_is_truth(instantiate(tree, env), None, env);
    } else {
        lemma_constant_formula_has_no_letters(tokens);
        assert(text == tokens);
        lemma_run_bound::<bool>(tokens, false, None);
        lemma_eval_is_truth(tree, None, env);
    }
}

/// Texts that hold the same letters have the same variables.
pub proof fn lemma_same_letters_same_variables(a: Seq<char>, b: Seq<char>, k: nat)
    requires
        k <= 26,
        forall|c: char| is_variable_name(c) ==> (a.contains(c) <==> b.contains(c)),
    ensures
        variables_below(a, k) == variables_below(b, k),
    decreases k,
{
    if k > 0 {
        lemma_same_letters_same_variables(a, b, (k - 1) as nat);
        let c = letter(k - 1);
        assert(c as int == 64 + k);
        assert(is_variable_name(c));
    }
}

/// Two well-formed formulas whose trees hold the same variables and have
/// the same truth value under every assignment have the same table.
pub proof fn lemma_equivalent_formulas_same_table(first: Seq<char>, second: Seq<char>)
    requires
        parse::<bool>(first, only_vars(first), None) is Ok,
        parse::<bool>(second, only_vars(second), None) is Ok,
        parse::<bool>(first, only_vars(first), None)->Ok_0.variables() == parse::<bool>(
            second,
            only_vars(second),
            None,
        )->Ok_0.variables(),
        forall|assignment: spec_fn(char) -> bool|
            truth(parse::<bool>(first, only_vars(first), None)->Ok_0, assignment) == truth(
                parse::<bool>(second, only_vars(second), None)->Ok_0,
                assignment,
            ),
    ensures
        variables_spec(first) == variables_spec(second),
        table_spec(first) == table_spec(second),
{
    let a = parse::<bool>(first, only_vars(first), None)->Ok_0;
    let b = parse::<bool>(second, only_vars(second), None)->Ok_0;
    lemma_letters_of_formula(first);
    lemma_letters_of_formula(second);
    assert forall|c: char| is_variable_name(c) implies (first.contains(c) <==> second.contains(c)) by {
        if first.contains(c) {
            assert(a.variables().contains(c));
            assert(b.variables().contains(c));
        }
        if second.contains(c) {
            assert(b.variables().contains(c));
            assert(a.variables().contains(c));
        }
    }
    lemma_same_letters_same_variables(first, second, 26);
    lemma_table_of_tree(first);
    lemma_table_of_tree(second);
    let variables = variables_spec(first);
    assert(rows_of(a, variables) =~= rows_of(b, variables));
}

/// The letters of a well-formed formula are the variables of its tree.
pub proof fn lemma_letters_of_formula(tokens: Seq<char>)
    requires
        parse::<bool>(tokens, only_vars(tokens), None) is Ok,
    ensures
        forall|c: char|
            #[trigger] tokens.contains(c) && is_variable_name(c) ==> parse::<bool>(
                tokens,
                only_vars(tokens),
                None,
            )->Ok_0.variables().contains(c),
        forall|c: char| #[trigger]
            parse::<bool>(tokens, only_vars(tokens), None)->Ok_0.variables().contains(c) ==> tokens.contains(c)
                && is_variable_name(c),
{
    let tree = parse::<bool>(tokens, only_vars(tokens), None)->Ok_0;
    lemma_formula_is_text_of_tree::<bool>(tokens, only_vars(tokens));
    lemma_text_of_readable(tree, only_vars(tokens));
}

/// Rewriting into negation normal form keeps a tree readable.
pub proof fn lemma_nnf_keeps_readable<T: Operand>(tree: ExprNode<T::V>, negated: bool, variable_mode: bool)
    requires
        readable::<T>(tree, variable_mode),
    ensures
        readable::<T>(nnf(tree, negated), variable_mode),
    decreases tree,
{
    reveal_with_fuel(readable, 4);
    match tree {
        ExprNode::UnaryOp(_, child) => {
            lemma_nnf_keeps_readable::<T>(*child, !negated, variable_mode);
        },
        ExprNode::BinaryOp(op, left, right) => {
            lemma_nnf_keeps_readable::<T>(*left, negated, variable_mode);
            lemma_nnf_keeps_readable::<T>(*right, negated, variable_mode);
            lemma_nnf_keeps_readable::<T>(*left, false, variable_mode);
            lemma_nnf_keeps_readable::<T>(*right, false, variable_mode);
        },
        _ => {},
    }
}

/// Merging keeps two readable trees readable.
pub proof fn lemma_flatten_keeps_readable<T: Operand>(
    op: BinaryOperator,
    left: ExprNode<T::V>,
    right: ExprNode<T::V>,
    variable_mode: bool,
)
    requires
        readable::<T>(left, variable_mode),
        readable::<T>(right, variable_mode),
    ensures
        readable::<T>(flatten(op, left, right), variable_mode),
    decreases left.size() + right.size(),
{
    if joins(left, op) {
        lemma_flatten_keeps_readable::<T>(op, *left->BinaryOp_1, *left->BinaryOp_2, variable_mode);
    }
    if joins(right, op) {
        lemma_flatten_keeps_readable::<T>(op, *right->BinaryOp_1, *right->BinaryOp_2, variable_mode);
    }
}

/// The structural rewriting keeps a tree readable.
pub proof fn lemma_cnf_keeps_readable<T: Operand>(tree: ExprNode<T::V>, variable_mode: bool)
    requires
        readable::<T>(tree, variable_mode),
    ensures
        readable::<T>(cnf_spec(tree), variable_mode),
    decreases tree,
{
    match tree {
        ExprNode::BinaryOp(op, left, right) => {
            lemma_cnf_keeps_readable::<T>(*left, variable_mode);
            lemma_cnf_keeps_readable::<T>(*right, variable_mode);
            lemma_flatten_keeps_readable::<T>(op, cnf_spec(*left), cnf_spec(*right), variable_mode);
        },
        _ => {},
    }
}

/// The postfix text of a tree that was rewritten from the tree of a
/// well-formed formula, keeping its variables and its truth values, has
/// the table of the formula.
pub proof fn lemma_rewritten_formula_same_table(tokens: Seq<char>, rewritten: ExprNode<bool>)
    requires
        parse::<bool>(tokens, only_vars(tokens), None) is Ok,
        readable::<bool>(rewritten, only_vars(tokens)),
        rewritten.variables() == parse::<bool>(tokens, only_vars(tokens), None)->Ok_0.variables(),
        forall|assignment: spec_fn(char) -> bool|
            truth(rewritten, assignment) == truth(
                parse::<bool>(tokens, only_vars(tokens), None)->Ok_0,
                assignment,
            ),
    ensures
        parse::<bool>(rpn_spec::<bool>(rewritten), only_vars(rpn_spec::<bool>(rewritten)), None) == Ok::<
            ExprNode<bool>,
            ParseError,
        >(rewritten),
        table_spec(rpn_spec::<bool>(rewritten)) == table_spec(tokens),
{
    let mode = only_vars(tokens);
    lemma_text_of_readable(rewritten, mode);
    lemma_text_of_tree_is_read_back::<bool>(rewritten, mode);
    lemma_equivalent_formulas_same_table(rpn_spec::<bool>(rewritten), tokens);
}

/// The negation normal form of a well-formed formula has the table of the
/// formula: the two have the same truth value under every assignment.
pub proof fn lemma_nnf_keeps_table(tokens: Seq<char>)
    requires
        parse::<bool>(tokens, only_vars(tokens), None) is Ok,
    ensures
        table_spec(rpn_spec::<bool>(nnf_spec(parse::<bool>(tokens, only_vars(tokens), None)->Ok_0))) == table_spec(
            tokens,
        ),
{
    let mode = only_vars(tokens);
    let tree = parse::<bool>(tokens, mode, None)->Ok_0;
    lemma_formula_is_text_of_tree::<bool>(tokens, mode);
    lemma_nnf_keeps_readable::<bool>(tree, false, mode);
    lemma_nnf_keeps_variables(tree, false);
    assert forall|assignment: spec_fn(char) -> bool| truth(nnf_spec(tree), assignment) == truth(
        tree,
        assignment,
    ) by {
        lemma_nnf_preserves_truth(tree, false, assignment);
    }
    lemma_rewritten_formula_same_table(tokens, nnf_spec(tree));
}

/// The conjunctive normal form that rewriting gives of a well-formed
/// formula has the table of the formula.
pub proof fn lemma_structural_cnf_keeps_table(tokens: Seq<char>)
    requires
        parse::<bool>(tokens, only_vars(tokens), None) is Ok,
    ensures
        table_spec(
            rpn_spec::<bool>(cnf_spec(nnf_spec(parse::<bool>(tokens, only_vars(tokens), None)->Ok_0))),
        ) == table_spec(tokens),
{
    let mode = only_vars(tokens);
    let tree = parse::<bool>(tokens, mode, None)->Ok_0;
    let rewritten = cnf_spec(nnf_spec(tree));
    lemma_formula_is_text_of_tree::<bool>(tokens, mode);
    lemma_nnf_keeps_readable::<bool>(tree, false, mode);
    lemma_cnf_keeps_readable::<bool>(nnf_spec(tree), mode);
    lemma_nnf_keeps_variables(tree, false);
    lemma_cnf_keeps_variables(nnf_spec(tree));
    assert forall|assignment: spec_fn(char) -> bool| truth(rewritten, assignment) == truth(
        tree,
        assignment,
    ) by {
        lemma_nnf_preserves_truth(tree, false, assignment);
        lemma_cnf_preserves_truth(nnf_spec(tree), assignment);
    }
    lemma_rewritten_formula_same_table(tokens, rewritten);
}

/// The truth value of a tree depends on the values of its variables
/// alone.
pub proof fn lemma_truth_depends_on_variables(
    tree: ExprNode<bool>,
    first: spec_fn(char) -> bool,
    second: spec_fn(char) -> bool,
)
    requires
        forall|c: char| tree.variables().contains(c) ==> first(c) == second(c),
    ensures
        truth(tree, first) == truth(tree, second),
    decreases tree,
{
    match tree {
        ExprNode::Var(name) => {
            assert(tree.variables().contains(name));
        },
        ExprNode::UnaryOp(_, child) => {
            assert forall|c: char| (*child).variables().contains(c) implies first(c) == second(c) by {
                assert(tree.variables().contains(c));
            }
            lemma_truth_depends_on_variables(*child, first, second);
        },
        ExprNode::BinaryOp(_, left, right) => {
            assert forall|c: char| (*left).variables().contains(c) implies first(c) == second(c) by {
                assert(tree.variables().contains(c));
            }
            assert forall|c: char| (*right).variables().contains(c) implies first(c) == second(c) by {
                assert(tree.variables().contains(c));
            }
            lemma_truth_depends_on_variables(*left, first, second);
            lemma_truth_depends_on_variables(*right, first, second);
        },
        _ => {},
    }
}

/// A well-formed formula is found satisfiable exactly where some
/// assignment makes its tree true.
pub proof fn lemma_satisfiable_means_true_somewhere(tokens: Seq<char>)
    requires
        parse::<bool>(tokens, only_vars(tokens), None) is Ok,
    ensures
        satisfiable(tokens) <==> exists|assignment: spec_fn(char) -> bool|
            truth(parse::<bool>(tokens, only_vars(tokens), None)->Ok_0, assignment),
{
    let tree = parse::<bool>(tokens, only_vars(tokens), None)->Ok_0;
    let variables = variables_spec(tokens);
    let all = assignments(variables.len());
    lemma_table_of_tree(tokens);
    let rows = table_spec(tokens)->Ok_0;
    if satisfiable(tokens) {
        let k = choose|k: int| 0 <= k < rows.len() && (#[trigger] rows[k]).1;
        assert(truth(tree, env_of(variables, all[k])));
    }
    if exists|assignment: spec_fn(char) -> bool| truth(tree, assignment) {
        let assignment = choose|assignment: spec_fn(char) -> bool| truth(tree, assignment);
        let values = Seq::new(variables.len(), |j: int| assignment(variables[j]));
        lemma_assignments_complete(values);
        let k = choose|k: int| 0 <= k < all.len() && #[trigger] all[k] == values;
        let env = env_of(variables, values);
        lemma_variables(tokens);
        lemma_letters_of_formula(tokens);
        assert forall|c: char| tree.variables().contains(c) implies env(c) == assignment(c) by {
            assert(tokens.contains(c) && is_variable_name(c));
            assert(variables.contains(c));
            let j = choose|j: int| 0 <= j < variables.len() && variables[j] == c;
            lemma_assigned_at(variables, values, j);
        }
        lemma_truth_depends_on_variables(tree, env, assignment);
        assert(rows[k].1);
    }
}

} // verus!
