//! The conjunctive normal form that a truth table gives is equivalent to
//! the formula of the table.
//!
//! The text that is written from the false rows is the postfix text of a
//! tree: a chain of conjunctions of clauses, each a chain of disjunctions
//! of literals. A clause is false under exactly the assignment of its row,
//! so the tree is false under exactly the assignments of the false rows.

use vstd::prelude::*;
use crate::alphabet::only_vars;
use crate::boolean::truth;
use crate::cnf::{
    clause_text, clauses_upto, false_rows_upto, literal_text, literals_upto, maxterm_cnf, repeat,
};
use crate::expr::{binary_of, not_of, ExprNode};
use crate::format::rpn_spec;
use crate::operators::{is_variable_name, BinaryOperator};
use crate::parser::{parse, ParseError};
use crate::round_trip::{lemma_text_of_readable, lemma_text_of_tree_is_read_back, readable};
use crate::table_laws::{env_of, lemma_same_letters_same_variables, lemma_table_of_tree, rows_of};
use crate::truth_table::{
    assigned, assignments, lemma_assignments_len, lemma_variables, row_outcome, table_spec, variables_spec,
};

verus! {

/// The tree of a literal: the variable, negated where the row gives it
/// true.
pub open spec fn literal_tree(name: char, value: bool) -> ExprNode<bool> {
    if value {
        not_of(ExprNode::Var(name))
    } else {
        ExprNode::Var(name)
    }
}

/// The tree of the clause of a row, from the variable at `from` on: the
/// disjunction of the first literal and of the clause of the others.
pub open spec fn clause_tree(variables: Seq<char>, values: Seq<bool>, from: int) -> ExprNode<bool>
    decreases variables.len() - from,
{
    if from >= variables.len() - 1 {
        literal_tree(variables[from], values[from])
    } else {
        binary_of(
            BinaryOperator::Disjunction,
            literal_tree(variables[from], values[from]),
            clause_tree(variables, values, from + 1),
        )
    }
}

/// The literals of a row from the variable at `from` on.
pub open spec fn literals_from(variables: Seq<char>, values: Seq<bool>, from: int) -> Seq<char>
    decreases variables.len() - from,
{
    if from >= variables.len() {
        Seq::empty()
    } else {
        literal_text(variables[from], values[from]) + literals_from(variables, values, from + 1)
    }
}

/// Whether an assignment gives the variables from `from` on the values of
/// a row.
pub open spec fn agrees_from(
    variables: Seq<char>,
    values: Seq<bool>,
    assignment: spec_fn(char) -> bool,
    from: int,
) -> bool {
    forall|i: int| from <= i < variables.len() ==> assignment(#[trigger] variables[i]) == values[i]
}

/// Whether every name in a list is a letter.
pub open spec fn all_letters(variables: Seq<char>) -> bool {
    forall|i: int| 0 <= i < variables.len() ==> is_variable_name(#[trigger] variables[i])
}

/// The literals up to the end are those up to a place and those from it on.
pub proof fn lemma_literals_split(variables: Seq<char>, values: Seq<bool>, at: int)
    requires
        0 <= at <= variables.len(),
    ensures
        literals_upto(variables, values, variables.len()) == literals_upto(variables, values, at as nat)
            + literals_from(variables, values, at),
    decreases variables.len() - at,
{
    if at < variables.len() {
        lemma_literals_split(variables, values, at + 1);
        let head = literals_upto(variables, values, at as nat);
        let one = literal_text(variables[at], values[at]);
        let tail = literals_from(variables, values, at + 1);
        assert(literals_upto(variables, values, (at + 1) as nat) == head + one);
        assert((head + one) + tail == head + (one + tail));
    } else {
        assert(literals_from(variables, values, at) == Seq::<char>::empty());
        assert(literals_upto(variables, values, at as nat) + Seq::<char>::empty() == literals_upto(
            variables,
            values,
            at as nat,
        ));
    }
}

/// The tree of a clause is readable, its postfix text is the text of the
/// clause, it is false exactly under the assignments that agree with the
/// row, and its variables are those of the row.
pub proof fn lemma_clause_tree(variables: Seq<char>, values: Seq<bool>, from: int, assignment: spec_fn(char) -> bool)
    requires
        0 <= from < variables.len(),
        all_letters(variables),
    ensures
        readable::<bool>(clause_tree(variables, values, from), true),
        rpn_spec::<bool>(clause_tree(variables, values, from)) == literals_from(variables, values, from) + repeat(
            '|',
            variables.len() - 1 - from,
        ),
        truth(clause_tree(variables, values, from), assignment) == !agrees_from(
            variables,
            values,
            assignment,
            from,
        ),
        forall|c: char|
            #[trigger] clause_tree(variables, values, from).variables().contains(c) <==> exists|i: int|
                from <= i < variables.len() && variables[i] == c,
    decreases variables.len() - from,
{
    let tree = clause_tree(variables, values, from);
    let name = variables[from];
    let literal = literal_tree(name, values[from]);
    assert(is_variable_name(name));
    assert(rpn_spec::<bool>(literal) == literal_text(name, values[from])) by {
        reveal_with_fuel(rpn_spec, 2);
        if values[from] {
            assert(rpn_spec::<bool>(literal) == seq![name].push('!'));
        }
    }
    assert(truth(literal, assignment) == (assignment(name) != values[from])) by {
        reveal_with_fuel(truth, 2);
    }
    assert(literal.variables() == set![name]) by {
        reveal_with_fuel(ExprNode::variables, 2);
    }
    assert(readable::<bool>(literal, true)) by {
        reveal_with_fuel(readable, 2);
    }
    if from >= variables.len() - 1 {
        assert(literals_from(variables, values, from + 1) == Seq::<char>::empty());
        assert(repeat('|', 0) == Seq::<char>::empty());
        assert(literal_text(name, values[from]) + Seq::<char>::empty() + Seq::<char>::empty() == literal_text(
            name,
            values[from],
        ));
        assert forall|c: char| #[trigger] tree.variables().contains(c) <==> exists|i: int|
            from <= i < variables.len() && variables[i] == c by {
            if c == name {
                assert(variables[from] == c);
            }
        }
    } else {
        let rest = clause_tree(variables, values, from + 1);
        lemma_clause_tree(variables, values, from + 1, assignment);
        let one = literal_text(name, values[from]);
        let tail = literals_from(variables, values, from + 1);
        let bars = repeat('|', variables.len() - 2 - from);
        assert(rpn_spec::<bool>(tree) == (one + (tail + bars)).push('|'));
        assert(repeat('|', variables.len() - 1 - from) == bars.push('|'));
        assert((one + (tail + bars)).push('|') == (one + tail) + bars.push('|'));
        assert(agrees_from(variables, values, assignment, from) == (assignment(name) == values[from]
            && agrees_from(variables, values, assignment, from + 1))) by {
            if agrees_from(variables, values, assignment, from) {
                assert(assignment(variables[from]) == values[from]);
            }
        }
        assert forall|c: char| #[trigger] tree.variables().contains(c) <==> exists|i: int|
            from <= i < variables.len() && variables[i] == c by {
            assert(tree.variables().contains(c) == (c == name || rest.variables().contains(c)));
            if c == name {
                assert(variables[from] == c);
            }
            if rest.variables().contains(c) {
                let i = choose|i: int| from + 1 <= i < variables.len() && variables[i] == c;
                assert(from <= i < variables.len() && variables[i] == c);
            }
            if exists|i: int| from <= i < variables.len() && variables[i] == c {
                let i = choose|i: int| from <= i < variables.len() && variables[i] == c;
                if i > from {
                    assert(from + 1 <= i < variables.len() && variables[i] == c);
                }
            }
        }
    }
}

/// The number of rows from `k` on in which the formula is false.
pub open spec fn false_from(rows: Seq<(Seq<bool>, bool)>, k: int) -> nat
    decreases rows.len() - k,
{
    if k >= rows.len() {
        0
    } else {
        false_from(rows, k + 1) + if rows[k].1 {
            0nat
        } else {
            1nat
        }
    }
}

/// The clauses of the rows from `k` on in which the formula is false.
pub open spec fn clauses_from(variables: Seq<char>, rows: Seq<(Seq<bool>, bool)>, k: int) -> Seq<char>
    decreases rows.len() - k,
{
    if k >= rows.len() {
        Seq::empty()
    } else if rows[k].1 {
        clauses_from(variables, rows, k + 1)
    } else {
        clause_text(variables, rows[k].0) + clauses_from(variables, rows, k + 1)
    }
}

/// The tree of the clauses of the rows from `k` on in which the formula is
/// false: the conjunction of the first clause and of the tree of the
/// others, and the clause alone where it is the last.
pub open spec fn maxterm_tree(variables: Seq<char>, rows: Seq<(Seq<bool>, bool)>, k: int) -> ExprNode<bool>
    decreases rows.len() - k,
{
    if k >= rows.len() {
        ExprNode::Const(true)
    } else if rows[k].1 {
        maxterm_tree(variables, rows, k + 1)
    } else if false_from(rows, k + 1) == 0 {
        clause_tree(variables, rows[k].0, 0)
    } else {
        binary_of(
            BinaryOperator::Conjunction,
            clause_tree(variables, rows[k].0, 0),
            maxterm_tree(variables, rows, k + 1),
        )
    }
}

/// The clauses up to the end are those up to a row and those from it on,
/// and so are the false rows.
pub proof fn lemma_clauses_split(variables: Seq<char>, rows: Seq<(Seq<bool>, bool)>, at: int)
    requires
        0 <= at <= rows.len(),
    ensures
        clauses_upto(variables, rows, rows.len()) == clauses_upto(variables, rows, at as nat) + clauses_from(
            variables,
            rows,
            at,
        ),
        false_rows_upto(rows, rows.len()) == false_rows_upto(rows, at as nat) + false_from(rows, at),
    decreases rows.len() - at,
{
    let head = clauses_upto(variables, rows, at as nat);
    if at < rows.len() {
        lemma_clauses_split(variables, rows, at + 1);
        let tail = clauses_from(variables, rows, at + 1);
        if rows[at].1 {
            assert(clauses_upto(variables, rows, (at + 1) as nat) == head + Seq::<char>::empty());
            assert(head + Seq::<char>::empty() == head);
        } else {
            let one = clause_text(variables, rows[at].0);
            assert(clauses_upto(variables, rows, (at + 1) as nat) == head + one);
            assert((head + one) + tail == head + (one + tail));
        }
    } else {
        assert(head + Seq::<char>::empty() == head);
    }
}

/// Whether no false row from `k` on has the values that the assignment
/// gives to the variables.
pub open spec fn misses_false_rows(
    variables: Seq<char>,
    rows: Seq<(Seq<bool>, bool)>,
    assignment: spec_fn(char) -> bool,
    k: int,
) -> bool {
    forall|i: int| k <= i < rows.len() && !(#[trigger] rows[i]).1 ==> !agrees_from(variables, rows[i].0, assignment, 0)
}

/// The tree of the clauses is readable, its postfix text is the clauses
/// with their conjunctions, it is true exactly under the assignments of no
/// false row, and its variables are the variables of the table.
pub proof fn lemma_maxterm_tree(
    variables: Seq<char>,
    rows: Seq<(Seq<bool>, bool)>,
    k: int,
    assignment: spec_fn(char) -> bool,
)
    requires
        0 <= k <= rows.len(),
        variables.len() >= 1,
        all_letters(variables),
        false_from(rows, k) >= 1,
    ensures
        readable::<bool>(maxterm_tree(variables, rows, k), true),
        rpn_spec::<bool>(maxterm_tree(variables, rows, k)) == clauses_from(variables, rows, k) + repeat(
            '&',
            false_from(rows, k) - 1,
        ),
        truth(maxterm_tree(variables, rows, k), assignment) == misses_false_rows(variables, rows, assignment, k),
        forall|c: char| #[trigger] maxterm_tree(variables, rows, k).variables().contains(c) <==> variables.contains(c),
    decreases rows.len() - k,
{
    let tree = maxterm_tree(variables, rows, k);
    if rows[k].1 {
        lemma_maxterm_tree(variables, rows, k + 1, assignment);
        assert(misses_false_rows(variables, rows, assignment, k) == misses_false_rows(
            variables,
            rows,
            assignment,
            k + 1,
        )) by {
            if misses_false_rows(variables, rows, assignment, k + 1) {
                assert forall|i: int| k <= i < rows.len() && !(#[trigger] rows[i]).1 implies !agrees_from(
                    variables,
                    rows[i].0,
                    assignment,
                    0,
                ) by {
                    assert(i >= k + 1);
                }
            }
        }
    } else {
        let values = rows[k].0;
        let clause = clause_tree(variables, values, 0);
        lemma_clause_tree(variables, values, 0, assignment);
        lemma_literals_split(variables, values, 0);
        assert(literals_upto(variables, values, 0) + literals_from(variables, values, 0) == literals_from(
            variables,
            values,
            0,
        ));
        assert(rpn_spec::<bool>(clause) == clause_text(variables, values));
        assert forall|c: char| #[trigger] clause.variables().contains(c) <==> variables.contains(c) by {
            if variables.contains(c) {
                let i = choose|i: int| 0 <= i < variables.len() && variables[i] == c;
                assert(0 <= i < variables.len() && variables[i] == c);
            }
        }
        assert(misses_false_rows(variables, rows, assignment, k) == (!agrees_from(
            variables,
            values,
            assignment,
            0,
        ) && misses_false_rows(variables, rows, assignment, k + 1))) by {
            if misses_false_rows(variables, rows, assignment, k) {
                assert(!rows[k].1);
            }
            if !agrees_from(variables, values, assignment, 0) && misses_false_rows(
                variables,
                rows,
                assignment,
                k + 1,
            ) {
                assert forall|i: int| k <= i < rows.len() && !(#[trigger] rows[i]).1 implies !agrees_from(
                    variables,
                    rows[i].0,
                    assignment,
                    0,
                ) by {
                    if i > k {
                        assert(i >= k + 1);
                    }
                }
            }
        }
        if false_from(rows, k + 1) == 0 {
            lemma_no_false_rows(variables, rows, k + 1, assignment);
            assert(repeat('&', 0) == Seq::<char>::empty());
            assert(clause_text(variables, values) + Seq::<char>::empty() + Seq::<char>::empty() == clause_text(
                variables,
                values,
            ));
        } else {
            let rest = maxterm_tree(variables, rows, k + 1);
            lemma_maxterm_tree(variables, rows, k + 1, assignment);
            let one = clause_text(variables, values);
            let tail = clauses_from(variables, rows, k + 1);
            let ands = repeat('&', false_from(rows, k + 1) - 1);
            assert(rpn_spec::<bool>(tree) == (one + (tail + ands)).push('&'));
            assert(repeat('&', false_from(rows, k) - 1) == ands.push('&'));
            assert((one + (tail + ands)).push('&') == (one + tail) + ands.push('&'));
            assert forall|c: char| #[trigger] tree.variables().contains(c) <==> variables.contains(c) by {
                assert(tree.variables().contains(c) == (clause.variables().contains(c) || rest.variables().contains(
                    c,
                )));
            }
        }
    }
}

/// Where no row from `k` on is false, there are no clauses from there on,
/// and every assignment misses the false rows.
pub proof fn lemma_no_false_rows(
    variables: Seq<char>,
    rows: Seq<(Seq<bool>, bool)>,
    k: int,
    assignment: spec_fn(char) -> bool,
)
    requires
        0 <= k,
        false_from(rows, k) == 0,
    ensures
        clauses_from(variables, rows, k) == Seq::<char>::empty(),
        misses_false_rows(variables, rows, assignment, k),
        forall|i: int| k <= i < rows.len() ==> (#[trigger] rows[i]).1,
    decreases rows.len() - k,
{
    if k < rows.len() {
        lemma_no_false_rows(variables, rows, k + 1, assignment);
        assert forall|i: int| k <= i < rows.len() implies (#[trigger] rows[i]).1 by {
            if i > k {
                assert(i >= k + 1);
            }
        }
    }
}

/// The value that a row gives to one of its variables is the one at the
/// variable's place, where no variable stands twice.
pub proof fn lemma_assigned_at(variables: Seq<char>, values: Seq<bool>, at: int)
    requires
        0 <= at < variables.len(),
        values.len() == variables.len(),
        forall|i: int, j: int| 0 <= i < j < variables.len() ==> variables[i] != variables[j],
    ensures
        assigned(variables, values, variables[at]) == values[at],
    decreases variables.len(),
{
    if at > 0 {
        let rest = variables.drop_first();
        assert forall|i: int, j: int| 0 <= i < j < rest.len() implies rest[i] != rest[j] by {
            assert(rest[i] == variables[i + 1] && rest[j] == variables[j + 1]);
        }
        lemma_assigned_at(rest, values.drop_first(), at - 1);
        assert(variables[0] != variables[at]);
    }
}

/// The conjunctive normal form that the truth table gives of a formula has
/// the table of the formula, where the formula has a variable or is false
/// in no row.
///
/// A formula without variables that is false has one row and one clause,
/// an empty one; what is written for it is the empty text, which is no
/// formula.
pub proof fn lemma_maxterm_cnf_keeps_table(tokens: Seq<char>)
    requires
        table_spec(tokens) is Ok,
        variables_spec(tokens).len() >= 1 || false_rows_upto(
            table_spec(tokens)->Ok_0,
            table_spec(tokens)->Ok_0.len(),
        ) == 0,
    ensures
        maxterm_cnf(tokens) is Ok,
        table_spec(maxterm_cnf(tokens)->Ok_0) == table_spec(tokens),
{
    let rows = table_spec(tokens)->Ok_0;
    let variables = variables_spec(tokens);
    let n = variables.len();
    let all = assignments(n);
    let text = maxterm_cnf(tokens)->Ok_0;
    if false_rows_upto(rows, rows.len()) > 0 {
        lemma_variables(tokens);
        lemma_assignments_len(n);
        assert(all_letters(variables)) by {
            assert forall|i: int| 0 <= i < variables.len() implies is_variable_name(#[trigger] variables[i]) by {
                assert(variables.contains(variables[i]));
            }
        }
        lemma_clauses_split(variables, rows, 0);
        assert(Seq::<char>::empty() + clauses_from(variables, rows, 0) == clauses_from(variables, rows, 0));
        let tree = maxterm_tree(variables, rows, 0);
        lemma_maxterm_tree(variables, rows, 0, |c: char| false);
        assert(rpn_spec::<bool>(tree) == text);
        lemma_text_of_readable(tree, true);
        lemma_text_of_tree_is_read_back::<bool>(tree, true);
        assert(parse::<bool>(text, only_vars(text), None) == Ok::<ExprNode<bool>, ParseError>(tree));
        assert forall|c: char| is_variable_name(c) implies (text.contains(c) <==> tokens.contains(c)) by {
            if text.contains(c) {
                assert(tree.variables().contains(c));
                assert(variables.contains(c));
            }
            if tokens.contains(c) {
                assert(variables.contains(c));
                assert(tree.variables().contains(c));
            }
        }
        lemma_same_letters_same_variables(text, tokens, 26);
        lemma_table_of_tree(text);
        assert forall|k: int| 0 <= k < all.len() implies truth(tree, env_of(variables, #[trigger] all[k]))
            == rows[k].1 by {
            let env = env_of(variables, all[k]);
            lemma_maxterm_tree(variables, rows, 0, env);
            assert(rows[k].0 == all[k]);
            assert forall|i: int| 0 <= i < rows.len() implies (agrees_from(
                variables,
                (#[trigger] rows[i]).0,
                env,
                0,
            ) <==> rows[i].0 == all[k]) by {
                assert(rows[i].0 == all[i]);
                assert(all[i].len() == n && all[k].len() == n);
                if agrees_from(variables, rows[i].0, env, 0) {
                    assert forall|j: int| 0 <= j < n implies all[i][j] == all[k][j] by {
                        lemma_assigned_at(variables, all[k], j);
                        assert(env(variables[j]) == rows[i].0[j]);
                    }
                    assert(all[i] =~= all[k]);
                }
                if rows[i].0 == all[k] {
                    assert forall|j: int| 0 <= j < variables.len() implies env(#[trigger] variables[j])
                        == rows[i].0[j] by {
                        lemma_assigned_at(variables, all[k], j);
                    }
                }
            }
            if rows[k].1 {
                assert forall|i: int| 0 <= i < rows.len() && !(#[trigger] rows[i]).1 implies !agrees_from(
                    variables,
                    rows[i].0,
                    env,
                    0,
                ) by {
                    if agrees_from(variables, rows[i].0, env, 0) {
                        assert(rows[i].0 == all[k]);
                        assert(rows[i].1 == row_outcome(tokens, variables, all[i])->Ok_0);
                        assert(rows[k].1 == row_outcome(tokens, variables, all[k])->Ok_0);
                    }
                }
            } else {
                assert(agrees_from(variables, rows[k].0, env, 0));
            }
        }
        assert(rows_of(tree, variables) =~= rows);
    }
}

} // verus!
