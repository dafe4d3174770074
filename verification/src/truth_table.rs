//! Truth tables.
//!
//! The table of a formula has one column for each letter of the formula, in
//! the order of the alphabet, and one row for each way of giving the letters
//! a truth value. The rows stand in the order of their assignments, false
//! before true and the first letter weighing most.

use vstd::arithmetic::div_mod::{lemma_basic_div, lemma_hoist_over_denominator};
use vstd::arithmetic::power2::{lemma2_to64, lemma_pow2_adds, lemma_pow2_pos, lemma_pow2_unfold, pow2};
use vstd::prelude::*;
use crate::algebra::eval;
use crate::alphabet::{is_symbol, only_vars};
use crate::boolean::{lemma_eval_is_truth, BooleanOperations};
use crate::evaluator::ExpressionEvaluator;
use crate::operators::{is_variable, is_variable_name};
use crate::parser::{lemma_run_bound, no_letters, parse, run, ParseError};
use crate::text::{chars_of, string_of};
use crate::value::digit_of;
use vstd::string::StringExecFns;

verus! {

/// The `i`-th letter of the alphabet, counted from zero.
pub open spec fn letter(i: int) -> char {
    (65 + i) as char
}

/// The letters among the first `k` of the alphabet that occur in `tokens`,
/// in the order of the alphabet.
pub open spec fn variables_below(tokens: Seq<char>, k: nat) -> Seq<char>
    decreases k,
{
    if k == 0 {
        Seq::empty()
    } else {
        let before = variables_below(tokens, (k - 1) as nat);
        if tokens.contains(letter(k - 1)) {
            before.push(letter(k - 1))
        } else {
            before
        }
    }
}

/// The variables of a formula: its letters, each once, in the order of the
/// alphabet.
pub open spec fn variables_spec(tokens: Seq<char>) -> Seq<char> {
    variables_below(tokens, 26)
}

/// `variables_below` holds exactly the letters below the bound that occur
/// in the text, in rising order.
pub proof fn lemma_variables_below(tokens: Seq<char>, k: nat)
    requires
        k <= 26,
    ensures
        variables_below(tokens, k).len() <= k,
        forall|c: char|
            #[trigger] variables_below(tokens, k).contains(c) <==> (tokens.contains(c) && 'A' <= c && (c as int)
                < 65 + k),
        forall|i: int, j: int|
            0 <= i < j < variables_below(tokens, k).len() ==> variables_below(tokens, k)[i] < variables_below(
                tokens,
                k,
            )[j],
    decreases k,
{
    if k > 0 {
        let before = variables_below(tokens, (k - 1) as nat);
        let now = variables_below(tokens, k);
        let c = letter(k - 1);
        assert(c as int == 64 + k);
        assert('A' as int == 65);
        lemma_variables_below(tokens, (k - 1) as nat);
        assert forall|d: char| #[trigger]
            now.contains(d) <==> (tokens.contains(d) && 'A' <= d && (d as int) < 65 + k) by {
            let wanted = tokens.contains(d) && 'A' <= d && (d as int) < 65 + k;
            let earlier = tokens.contains(d) && 'A' <= d && (d as int) < 64 + k;
            assert(before.contains(d) <==> earlier);
            if tokens.contains(c) {
                assert(now == before.push(c));
                if now.contains(d) {
                    let i = choose|i: int| 0 <= i < now.len() && now[i] == d;
                    if i < before.len() {
                        assert(before[i] == d);
                        assert(before.contains(d));
                    } else {
                        assert(d == c);
                    }
                    assert(wanted);
                }
                if wanted {
                    if d == c {
                        assert(now[now.len() - 1] == d);
                    } else {
                        assert(d as int != c as int);
                        assert(earlier);
                        let i = choose|i: int| 0 <= i < before.len() && before[i] == d;
                        assert(now[i] == d);
                    }
                    assert(now.contains(d));
                }
            } else {
                assert(now == before);
                if wanted {
                    assert(d != c);
                    assert(d as int != c as int);
                    assert(earlier);
                }
            }
        }
        assert forall|i: int, j: int| 0 <= i < j < now.len() implies now[i] < now[j] by {
            if j == before.len() {
                assert(now == before.push(c));
                assert(before.contains(before[i]));
                assert((before[i] as int) < 64 + k);
            }
        }
    }
}

/// The variables are the letters of the formula, each once and rising.
pub proof fn lemma_variables(tokens: Seq<char>)
    ensures
        variables_spec(tokens).len() <= 26,
        forall|c: char|
            #[trigger] variables_spec(tokens).contains(c) <==> (tokens.contains(c) && is_variable_name(c)),
        forall|i: int, j: int|
            0 <= i < j < variables_spec(tokens).len() ==> variables_spec(tokens)[i] < variables_spec(tokens)[j],
{
    lemma_variables_below(tokens, 26);
}

fn occurs(tokens: &Vec<char>, c: char) -> (found: bool)
    ensures
        found == tokens@.contains(c),
{
    let mut i: usize = 0;
    while i < tokens.len()
        invariant
            i <= tokens.len(),
            forall|j: int| 0 <= j < i ==> tokens@[j] != c,
        decreases tokens.len() - i,
    {
        if tokens[i] == c {
            return true;
        }
        i += 1;
    }
    false
}

/// Finds the variables of a formula.
pub fn find_variables(tokens: &Vec<char>) -> (variables: Vec<char>)
    ensures
        variables@ == variables_spec(tokens@),
        variables@.len() <= 26,
{
    let mut variables: Vec<char> = Vec::new();
    let mut k: u8 = 0;
    while k < 26
        invariant
            k <= 26,
            variables@ == variables_below(tokens@, k as nat),
        decreases 26 - k,
    {
        let c = (65u8 + k) as char;
        if occurs(tokens, c) {
            variables.push(c);
        }
        k += 1;
    }
    proof {
        lemma_variables(tokens@);
    }
    variables
}

/// Each of `rows` with `bit` put before it.
pub open spec fn prefixed(bit: bool, rows: Seq<Seq<bool>>) -> Seq<Seq<bool>> {
    Seq::new(rows.len(), |i: int| seq![bit] + rows[i])
}

/// All the assignments of `n` variables, in order: those that give the
/// first variable false, then those that give it true, each half in the
/// order of the assignments of the other variables.
pub open spec fn assignments(n: nat) -> Seq<Seq<bool>>
    decreases n,
{
    if n == 0 {
        seq![Seq::<bool>::empty()]
    } else {
        prefixed(false, assignments((n - 1) as nat)) + prefixed(true, assignments((n - 1) as nat))
    }
}

/// The views of rows of truth values.
pub open spec fn rows_view(rows: Seq<Vec<bool>>) -> Seq<Seq<bool>> {
    Seq::new(rows.len(), |i: int| rows[i]@)
}

/// There are 2^n assignments of n variables, each of n values.
pub proof fn lemma_assignments_len(n: nat)
    ensures
        assignments(n).len() == pow2(n),
        forall|k: int| 0 <= k < assignments(n).len() ==> (#[trigger] assignments(n)[k]).len() == n,
    decreases n,
{
    if n == 0 {
        lemma2_to64();
    } else {
        lemma_pow2_unfold(n);
        lemma_assignments_len((n - 1) as nat);
    }
}

fn push_prefixed(bit: bool, rows: &Vec<Vec<bool>>, out: &mut Vec<Vec<bool>>)
    ensures
        rows_view(final(out)@) == rows_view(old(out)@) + prefixed(bit, rows_view(rows@)),
{
    let mut i: usize = 0;
    assert(rows_view(out@) == rows_view(old(out)@) + prefixed(bit, rows_view(rows@)).take(0));
    while i < rows.len()
        invariant
            i <= rows.len(),
            rows_view(out@) == rows_view(old(out)@) + prefixed(bit, rows_view(rows@)).take(i as int),
        decreases rows.len() - i,
    {
        let mut row: Vec<bool> = Vec::new();
        row.push(bit);
        let mut j: usize = 0;
        while j < rows[i as usize].len()
            invariant
                i < rows.len(),
                j <= rows@[i as int].len(),
                row@ == seq![bit] + rows@[i as int]@.take(j as int),
            decreases rows@[i as int].len() - j,
        {
            row.push(rows[i][j]);
            j += 1;
        }
        assert(rows@[i as int]@.take(j as int) == rows@[i as int]@);
        let ghost before = rows_view(out@);
        out.push(row);
        proof {
            let all = prefixed(bit, rows_view(rows@));
            assert(rows_view(out@) == before.push(row@));
            assert(all.take(i + 1) == all.take(i as int).push(all[i as int]));
        }
        i += 1;
    }
    assert(prefixed(bit, rows_view(rows@)).take(i as int) == prefixed(bit, rows_view(rows@)));
}

/// Lists all the assignments of `n` variables.
pub fn all_assignments(n: usize) -> (rows: Vec<Vec<bool>>)
    ensures
        rows_view(rows@) == assignments(n as nat),
{
    let mut rows: Vec<Vec<bool>> = Vec::new();
    rows.push(Vec::new());
    assert(rows_view(rows@) == assignments(0));
    let mut m: usize = 0;
    while m < n
        invariant
            m <= n,
            rows_view(rows@) == assignments(m as nat),
        decreases n - m,
    {
        let mut next: Vec<Vec<bool>> = Vec::new();
        push_prefixed(false, &rows, &mut next);
        push_prefixed(true, &rows, &mut next);
        assert(rows_view(next@) == assignments((m + 1) as nat)) by {
            assert(rows_view(Seq::<Vec<bool>>::empty()) == Seq::<Seq<bool>>::empty());
        }
        rows = next;
        m += 1;
    }
    rows
}

/// The truth value that an assignment gives to a variable: the value at
/// the place where the variable stands among the variables.
pub open spec fn assigned(variables: Seq<char>, values: Seq<bool>, name: char) -> bool
    decreases variables.len(),
{
    if variables.len() == 0 || values.len() == 0 {
        false
    } else if variables[0] == name {
        values[0]
    } else {
        assigned(variables.drop_first(), values.drop_first(), name)
    }
}

/// A formula with each letter replaced by the digit of its truth value.
pub open spec fn substitute(tokens: Seq<char>, variables: Seq<char>, values: Seq<bool>) -> Seq<char> {
    Seq::new(
        tokens.len(),
        |i: int|
            if is_variable_name(tokens[i]) {
                digit_of(assigned(variables, values, tokens[i]))
            } else {
                tokens[i]
            },
    )
}

fn value_of(variables: &Vec<char>, values: &Vec<bool>, name: char) -> (value: bool)
    ensures
        value == assigned(variables@, values@, name),
{
    let mut i: usize = 0;
    assert(variables@.skip(0) == variables@ && values@.skip(0) == values@);
    while i < variables.len() && i < values.len()
        invariant
            i <= variables.len(),
            i <= values.len(),
            assigned(variables@, values@, name) == assigned(variables@.skip(i as int), values@.skip(i as int), name),
        decreases variables.len() - i,
    {
        proof {
            assert(variables@.skip(i as int).drop_first() == variables@.skip(i + 1));
            assert(values@.skip(i as int).drop_first() == values@.skip(i + 1));
        }
        if variables[i] == name {
            return values[i];
        }
        i += 1;
    }
    false
}

/// Replaces each letter of a formula by the digit of its truth value.
pub fn substitute_values(tokens: &Vec<char>, variables: &Vec<char>, values: &Vec<bool>) -> (text: Vec<char>)
    ensures
        text@ == substitute(tokens@, variables@, values@),
{
    let mut text: Vec<char> = Vec::new();
    let mut i: usize = 0;
    while i < tokens.len()
        invariant
            i <= tokens.len(),
            text@ == substitute(tokens@, variables@, values@).take(i as int),
        decreases tokens.len() - i,
    {
        let c = tokens[i];
        if is_variable(c) {
            text.push(if value_of(variables, values, c) { '1' } else { '0' });
        } else {
            text.push(c);
        }
        assert(substitute(tokens@, variables@, values@).take(i + 1) == substitute(
            tokens@,
            variables@,
            values@,
        ).take(i as int).push(substitute(tokens@, variables@, values@)[i as int]));
        i += 1;
    }
    assert(substitute(tokens@, variables@, values@).take(i as int) == substitute(tokens@, variables@, values@));
    text
}

/// The result of a formula under an assignment: the formula is written
/// with the digits of the assignment in place of its letters, and that text
/// is evaluated.
pub open spec fn row_outcome(tokens: Seq<char>, variables: Seq<char>, values: Seq<bool>) -> Result<
    bool,
    ParseError,
> {
    let text = substitute(tokens, variables, values);
    match parse::<bool>(text, only_vars(text), None) {
        Ok(tree) => Ok(eval::<bool, BooleanOperations>(tree, None)),
        Err(e) => Err(e),
    }
}

/// The rows of the table of a formula, or the text that could not be
/// evaluated and why.
///
/// Whether a formula can be read does not depend on the values of its
/// letters, so where one row fails they all do, and the first row is the
/// one reported.
pub open spec fn table_spec(tokens: Seq<char>) -> Result<Seq<(Seq<bool>, bool)>, (Seq<char>, ParseError)> {
    let variables = variables_spec(tokens);
    let all = assignments(variables.len());
    match row_outcome(tokens, variables, all[0]) {
        Ok(_) => Ok(Seq::new(all.len(), |k: int| (all[k], row_outcome(tokens, variables, all[k])->Ok_0))),
        Err(e) => Err((substitute(tokens, variables, all[0]), e)),
    }
}

/// Whether two results of reading are alike: the same error, or stacks of
/// the same height.
pub open spec fn alike<V>(a: Result<Seq<V>, ParseError>, b: Result<Seq<V>, ParseError>) -> bool {
    match (a, b) {
        (Ok(x), Ok(y)) => x.len() == y.len(),
        (Err(e), Err(f)) => e == f,
        _ => false,
    }
}

/// A substituted formula holds no letter, and which of its characters are
/// letters or connectives does not depend on the assignment.
pub proof fn lemma_substitute_shape(tokens: Seq<char>, variables: Seq<char>, a: Seq<bool>, b: Seq<bool>)
    ensures
        no_letters(substitute(tokens, variables, a)),
        only_vars(substitute(tokens, variables, a)) == only_vars(substitute(tokens, variables, b)),
        only_vars(substitute(tokens, variables, a)) ==> substitute(tokens, variables, a) == substitute(
            tokens,
            variables,
            b,
        ),
{
    let x = substitute(tokens, variables, a);
    let y = substitute(tokens, variables, b);
    assert forall|i: int| 0 <= i < x.len() implies is_symbol(#[trigger] x[i]) == is_symbol(y[i]) by {}
    if only_vars(x) {
        assert forall|i: int| 0 <= i < y.len() implies is_symbol(#[trigger] y[i]) by {
            assert(is_symbol(x[i]));
        }
        assert forall|i: int| 0 <= i < x.len() implies x[i] == y[i] by {
            assert(is_symbol(x[i]));
        }
        assert(x == y);
    } else if only_vars(y) {
        assert forall|i: int| 0 <= i < x.len() implies is_symbol(#[trigger] x[i]) by {
            assert(is_symbol(y[i]));
        }
    }
}

proof fn lemma_runs_alike(tokens: Seq<char>, variables: Seq<char>, a: Seq<bool>, b: Seq<bool>, k: int)
    requires
        0 <= k <= tokens.len(),
        !only_vars(substitute(tokens, variables, a)),
    ensures
        alike(
            run::<bool>(substitute(tokens, variables, a).take(k), false, None),
            run::<bool>(substitute(tokens, variables, b).take(k), false, None),
        ),
    decreases k,
{
    let x = substitute(tokens, variables, a);
    let y = substitute(tokens, variables, b);
    if k > 0 {
        lemma_runs_alike(tokens, variables, a, b, k - 1);
        assert(x.take(k).drop_last() == x.take(k - 1));
        assert(y.take(k).drop_last() == y.take(k - 1));
        assert(x.take(k).last() == x[k - 1]);
        assert(y.take(k).last() == y[k - 1]);
    }
}

/// Whether a formula can be read under an assignment, and the error where
/// it cannot, does not depend on the assignment.
pub proof fn lemma_rows_fail_together(tokens: Seq<char>, variables: Seq<char>, a: Seq<bool>, b: Seq<bool>)
    ensures
        row_outcome(tokens, variables, a) is Ok <==> row_outcome(tokens, variables, b) is Ok,
        row_outcome(tokens, variables, a) matches Err(e) ==> row_outcome(tokens, variables, b) == Err::<
            bool,
            ParseError,
        >(e),
{
    let x = substitute(tokens, variables, a);
    let y = substitute(tokens, variables, b);
    lemma_substitute_shape(tokens, variables, a, b);
    if !only_vars(x) {
        lemma_runs_alike(tokens, variables, a, b, tokens.len() as int);
        assert(x.take(tokens.len() as int) == x);
        assert(y.take(tokens.len() as int) == y);
    }
}

/// The table of a formula.
#[derive(Debug, PartialEq, Eq)]
pub struct TruthTable {
    /// The variables of the formula, in the order of the alphabet.
    pub variables: Vec<char>,
    /// The assignments, in order, each with the result of the formula.
    pub rows: Vec<(Vec<bool>, bool)>,
}

/// A formula that could not be evaluated, as it was written for the row
/// that failed, and the reason.
#[derive(Debug, PartialEq, Eq)]
pub struct TruthTableError {
    pub formula: String,
    pub error: ParseError,
}

impl TruthTableError {
    /// The failure in words: the text that could not be evaluated, and why.
    pub open spec fn message_spec(&self) -> Seq<char> {
        "Error evaluating formula '"@ + self.formula@ + "': "@ + self.error.message_spec()
    }

    /// The failure in words.
    pub fn message(&self) -> (text: String)
        ensures
            text@ == self.message_spec(),
    {
        let mut text = String::from_str("Error evaluating formula '");
        text.append(self.formula.as_str());
        text.append("': ");
        let reason = self.error.message();
        text.append(reason.as_str());
        text
    }
}

impl TruthTable {
    /// The rows as sequences.
    pub open spec fn rows_spec(&self) -> Seq<(Seq<bool>, bool)> {
        Seq::new(self.rows@.len(), |k: int| (self.rows@[k].0@, self.rows@[k].1))
    }

    /// Whether this is the table of the formula: its columns are the
    /// variables of the formula and its rows those that the formula gives.
    pub open spec fn is_table_of(&self, tokens: Seq<char>) -> bool {
        self.variables@ == variables_spec(tokens) && table_spec(tokens) == Ok::<
            Seq<(Seq<bool>, bool)>,
            (Seq<char>, ParseError),
        >(self.rows_spec())
    }
}

/// Two tables of one formula have the same columns and the same rows, in
/// the same order: the table does not depend on when it is built, nor on
/// what the evaluator has computed before.
pub proof fn lemma_tables_of_one_formula_agree(tokens: Seq<char>, first: TruthTable, second: TruthTable)
    requires
        first.is_table_of(tokens),
        second.is_table_of(tokens),
    ensures
        first.variables@ == second.variables@,
        first.rows_spec() == second.rows_spec(),
{
}

/// The table of a formula with n variables has 2^n rows, each with n
/// values.
pub proof fn lemma_table_size(tokens: Seq<char>)
    requires
        table_spec(tokens) is Ok,
    ensures
        table_spec(tokens)->Ok_0.len() == pow2(variables_spec(tokens).len()),
        forall|k: int|
            0 <= k < table_spec(tokens)->Ok_0.len() ==> (#[trigger] table_spec(tokens)->Ok_0[k]).0.len()
                == variables_spec(tokens).len(),
{
    lemma_assignments_len(variables_spec(tokens).len());
}

/// Whether `a` comes before `b` in the order of assignments: at the first
/// place where they differ, `a` has false and `b` has true.
pub open spec fn comes_before(a: Seq<bool>, b: Seq<bool>) -> bool {
    exists|at: int|
        0 <= at < a.len() && at < b.len() && a.take(at) == b.take(at) && !#[trigger] a[at] && b[at]
}

/// The assignments are listed in rising order, so none is listed twice.
pub proof fn lemma_assignments_sorted(n: nat, i: int, j: int)
    requires
        0 <= i < j < assignments(n).len(),
    ensures
        comes_before(assignments(n)[i], assignments(n)[j]),
    decreases n,
{
    lemma_assignments_len(n);
    if n > 0 {
        let smaller = assignments((n - 1) as nat);
        lemma_assignments_len((n - 1) as nat);
        let half = smaller.len() as int;
        let a = assignments(n)[i];
        let b = assignments(n)[j];
        if j < half || i >= half {
            let bit = i >= half;
            let x = if bit {
                smaller[i - half]
            } else {
                smaller[i]
            };
            let y = if bit {
                smaller[j - half]
            } else {
                smaller[j]
            };
            assert(a == seq![bit] + x);
            assert(b == seq![bit] + y);
            if bit {
                lemma_assignments_sorted((n - 1) as nat, i - half, j - half);
            } else {
                lemma_assignments_sorted((n - 1) as nat, i, j);
            }
            let at = choose|at: int|
                0 <= at < x.len() && at < y.len() && x.take(at) == y.take(at) && !#[trigger] x[at] && y[at];
            assert(a.take(at + 1) == seq![bit] + x.take(at));
            assert(b.take(at + 1) == seq![bit] + y.take(at));
            assert(!a[at + 1] && b[at + 1]);
        } else {
            assert(a == seq![false] + smaller[i]);
            assert(b == seq![true] + smaller[j - half]);
            assert(a.take(0) == b.take(0));
            assert(!a[0] && b[0]);
        }
    }
}

/// Whether the binary digit of `k` that weighs 2^`place` is one.
pub open spec fn bit_of(k: int, place: nat) -> bool {
    (k / pow2(place) as int) % 2 == 1
}

/// The row at place k gives the variable at place j the binary digit of k
/// that stands n - 1 - j places from the right: counted in binary, the
/// rows are the numbers from 0 up, the first variable being the leading
/// digit.
pub proof fn lemma_assignment_bits(n: nat, k: int, j: int)
    requires
        0 <= k < assignments(n).len(),
        0 <= j < n,
    ensures
        assignments(n)[k][j] == bit_of(k, (n - 1 - j) as nat),
    decreases n,
{
    lemma_assignments_len(n);
    lemma_assignments_len((n - 1) as nat);
    lemma_pow2_unfold(n);
    let smaller = assignments((n - 1) as nat);
    let half = pow2((n - 1) as nat) as int;
    lemma_pow2_pos((n - 1) as nat);
    let high = k >= half;
    let rest = if high {
        k - half
    } else {
        k
    };
    assert(assignments(n)[k] == seq![high] + smaller[rest]);
    if j == 0 {
        lemma_basic_div(rest, half);
        if high {
            lemma_hoist_over_denominator(rest, 1, half as nat);
            assert(rest + 1 * half == k);
        }
    } else {
        lemma_assignment_bits((n - 1) as nat, rest, j - 1);
        let place = (n - 1 - j) as nat;
        let unit = pow2(place) as int;
        lemma_pow2_pos(place);
        if high {
            let above = pow2((j - 1) as nat) as int;
            lemma_pow2_unfold(j as nat);
            lemma_pow2_adds(place, j as nat);
            assert(half == unit * (2 * above));
            lemma_hoist_over_denominator(rest, 2 * above, unit as nat);
            assert(rest + (2 * above) * unit == k) by (nonlinear_arith)
                requires
                    half == unit * (2 * above),
                    k == rest + half,
            ;
            assert((rest / unit + 2 * above) % 2 == (rest / unit) % 2) by (nonlinear_arith);
        }
    }
}

/// Every way of giving n variables a truth value is listed.
pub proof fn lemma_assignments_complete(values: Seq<bool>)
    ensures
        exists|k: int| 0 <= k < assignments(values.len()).len() && #[trigger] assignments(values.len())[k] == values,
    decreases values.len(),
{
    let n = values.len();
    if n == 0 {
        assert(assignments(0)[0] == values);
    } else {
        let rest = values.drop_first();
        lemma_assignments_complete(rest);
        let smaller = assignments((n - 1) as nat);
        let at = choose|k: int| 0 <= k < smaller.len() && #[trigger] smaller[k] == rest;
        let k = if values[0] {
            smaller.len() + at
        } else {
            at
        };
        assert(assignments(n)[k] == seq![values[0]] + rest);
        assert(seq![values[0]] + rest == values);
    }
}

/// Builds the truth table of a formula.
///
/// Each row is computed as the formula says of itself: the letters are
/// replaced by the digits of the row's assignment and the text is
/// evaluated. A formula that cannot be read is reported with that text.
pub fn generate_truth_table(formula: &str, evaluator: &mut ExpressionEvaluator<bool, BooleanOperations>) -> (outcome:
    Result<TruthTable, TruthTableError>)
    requires
        old(evaluator).wf(),
    ensures
        final(evaluator).wf(),
        match table_spec(formula@) {
            Ok(rows) => outcome matches Ok(table) && table.is_table_of(formula@),
            Err((text, e)) => outcome matches Err(failure) && failure.formula@ == text && failure.error == e,
        },
        outcome matches Ok(table) ==> table.rows@.len() == pow2(table.variables@.len()),
{
    let tokens = chars_of(formula);
    let variables = find_variables(&tokens);
    let all = all_assignments(variables.len());
    let ghost wanted = assignments(variables@.len());
    proof {
        lemma_assignments_len(variables@.len());
        lemma_pow2_pos(variables@.len());
    }
    let mut rows: Vec<(Vec<bool>, bool)> = Vec::new();
    let mut k: usize = 0;
    while k < all.len()
        invariant
            k <= all.len(),
            tokens@ == formula@,
            variables@ == variables_spec(tokens@),
            rows_view(all@) == wanted,
            wanted == assignments(variables@.len()),
            wanted.len() > 0,
            evaluator.wf(),
            rows@.len() == k,
            k > 0 ==> row_outcome(tokens@, variables@, wanted[0]) is Ok,
            forall|i: int|
                0 <= i < k ==> (#[trigger] rows@[i]).0@ == wanted[i] && row_outcome(tokens@, variables@, wanted[i])
                    == Ok::<bool, ParseError>(rows@[i].1),
        decreases all.len() - k,
    {
        let text = substitute_values(&tokens, &variables, &all[k]);
        let instance = string_of(&text);
        proof {
            assert(all@[k as int]@ == wanted[k as int]);
            lemma_substitute_shape(tokens@, variables@, wanted[k as int], wanted[0]);
            lemma_run_bound::<bool>(text@, only_vars(text@), None);
            if parse::<bool>(text@, only_vars(text@), None) is Ok {
                lemma_eval_is_truth(parse::<bool>(text@, only_vars(text@), None)->Ok_0, None, |c: char| false);
            }
            lemma_rows_fail_together(tokens@, variables@, wanted[k as int], wanted[0]);
        }
        match evaluator.evaluate(instance.as_str(), None) {
            Ok(result) => {
                let mut assignment: Vec<bool> = Vec::new();
                let mut j: usize = 0;
                while j < all[k].len()
                    invariant
                        k < all.len(),
                        j <= all@[k as int].len(),
                        assignment@ == all@[k as int]@.take(j as int),
                    decreases all@[k as int].len() - j,
                {
                    assignment.push(all[k][j]);
                    j += 1;
                }
                assert(all@[k as int]@.take(j as int) == all@[k as int]@);
                rows.push((assignment, result));
            },
            Err(e) => {
                return Err(TruthTableError { formula: instance, error: e });
            },
        }
        k += 1;
    }
    let table = TruthTable { variables, rows };
    proof {
        let expected = table_spec(formula@)->Ok_0;
        assert(table.rows_spec() =~= expected);
    }
    Ok(table)
}

/// The first `n` of `marks`, each followed by a bar between two spaces.
pub open spec fn cells(marks: Seq<char>, n: nat) -> Seq<char>
    decreases n,
{
    if n == 0 {
        Seq::empty()
    } else {
        cells(marks, (n - 1) as nat) + seq![marks[n - 1], ' ', '|', ' ']
    }
}

/// The digits of a row of truth values.
pub open spec fn digits_of(values: Seq<bool>) -> Seq<char> {
    Seq::new(values.len(), |i: int| digit_of(values[i]))
}

/// `n` groups of four dashes.
pub open spec fn rule(n: nat) -> Seq<char>
    decreases n,
{
    if n == 0 {
        Seq::empty()
    } else {
        rule((n - 1) as nat) + seq!['-', '-', '-', '-']
    }
}

/// The line of a row: a bar, the digits of the assignment in cells, and
/// the digit of the result before a last bar.
pub open spec fn row_line(values: Seq<bool>, result: bool) -> Seq<char> {
    seq!['|', ' '] + cells(digits_of(values), values.len()) + seq![digit_of(result), ' ', '|', '\n']
}

/// The lines of the first `k` rows.
pub open spec fn row_lines(rows: Seq<(Seq<bool>, bool)>, k: nat) -> Seq<char>
    decreases k,
{
    if k == 0 {
        Seq::empty()
    } else {
        row_lines(rows, (k - 1) as nat) + row_line(rows[k - 1].0, rows[k - 1].1)
    }
}

/// A table written out: a line with the variables and `=` in cells, a rule
/// of four dashes for each cell, and a line for each row.
pub open spec fn table_text(variables: Seq<char>, rows: Seq<(Seq<bool>, bool)>) -> Seq<char> {
    seq!['|', ' '] + cells(variables, variables.len()) + seq!['=', ' ', '|', '\n'] + rule(variables.len() + 1)
        + seq!['\n'] + row_lines(rows, rows.len())
}

fn write_cell(mark: char, out: &mut Vec<char>)
    ensures
        final(out)@ == old(out)@ + seq![mark, ' ', '|', ' '],
{
    out.push(mark);
    out.push(' ');
    out.push('|');
    out.push(' ');
    assert(out@ == old(out)@ + seq![mark, ' ', '|', ' ']);
}

fn write_row(values: &Vec<bool>, result: bool, out: &mut Vec<char>)
    ensures
        final(out)@ == old(out)@ + row_line(values@, result),
{
    out.push('|');
    out.push(' ');
    let ghost start = out@;
    let ghost marks = digits_of(values@);
    let mut j: usize = 0;
    assert(out@ == start + cells(marks, 0));
    while j < values.len()
        invariant
            j <= values.len(),
            marks == digits_of(values@),
            out@ == start + cells(marks, j as nat),
        decreases values.len() - j,
    {
        write_cell(if values[j] { '1' } else { '0' }, out);
        assert(out@ == start + (cells(marks, j as nat) + seq![marks[j as int], ' ', '|', ' ']));
        j += 1;
    }
    out.push(if result { '1' } else { '0' });
    out.push(' ');
    out.push('|');
    out.push('\n');
    assert(out@ == old(out)@ + (seq!['|', ' '] + cells(marks, values@.len()) + seq![
        digit_of(result),
        ' ',
        '|',
        '\n',
    ]));
}

/// Writes a table out, one line for the variables, a rule, and one line
/// for each row.
pub fn format_truth_table(table: &TruthTable) -> (text: String)
    ensures
        text@ == table_text(table.variables@, table.rows_spec()),
{
    let mut out: Vec<char> = Vec::new();
    out.push('|');
    out.push(' ');
    let ghost variables = table.variables@;
    let ghost rows = table.rows_spec();
    let mut j: usize = 0;
    assert(out@ == seq!['|', ' '] + cells(variables, 0));
    while j < table.variables.len()
        invariant
            j <= table.variables.len(),
            variables == table.variables@,
            out@ == seq!['|', ' '] + cells(variables, j as nat),
        decreases table.variables.len() - j,
    {
        write_cell(table.variables[j], &mut out);
        assert(out@ == seq!['|', ' '] + (cells(variables, j as nat) + seq![variables[j as int], ' ', '|', ' ']));
        j += 1;
    }
    out.push('=');
    out.push(' ');
    out.push('|');
    out.push('\n');
    let ghost head = seq!['|', ' '] + cells(variables, variables.len()) + seq!['=', ' ', '|', '\n'];
    assert(out@ == head);
    let mut i: usize = 0;
    assert(out@ == head + rule(0));
    while i < table.variables.len()
        invariant
            i <= table.variables.len(),
            out@ == head + rule(i as nat),
        decreases table.variables.len() - i,
    {
        out.push('-');
        out.push('-');
        out.push('-');
        out.push('-');
        assert(out@ == head + (rule(i as nat) + seq!['-', '-', '-', '-']));
        i += 1;
    }
    out.push('-');
    out.push('-');
    out.push('-');
    out.push('-');
    assert(out@ == head + (rule(variables.len()) + seq!['-', '-', '-', '-']));
    assert(rule(variables.len() + 1) == rule(variables.len()) + seq!['-', '-', '-', '-']);
    out.push('\n');
    let ghost top = head + rule(variables.len() + 1) + seq!['\n'];
    assert(out@ == top);
    let mut k: usize = 0;
    assert(out@ == top + row_lines(rows, 0));
    while k < table.rows.len()
        invariant
            k <= table.rows.len(),
            rows == table.rows_spec(),
            out@ == top + row_lines(rows, k as nat),
        decreases table.rows.len() - k,
    {
        write_row(&table.rows[k].0, table.rows[k].1, &mut out);
        assert(rows[k as int] == (table.rows@[k as int].0@, table.rows@[k as int].1));
        assert(out@ == top + (row_lines(rows, k as nat) + row_line(rows[k as int].0, rows[k as int].1)));
        k += 1;
    }
    string_of(&out)
}

} // verus!
