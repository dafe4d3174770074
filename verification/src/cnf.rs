//! Conjunctive normal form, in two ways.
//!
//! The structural way rewrites the tree: negations are moved inwards, and
//! then chains of one connective are merged. It does not distribute a
//! disjunction over a conjunction. The other way reads the truth table and
//! writes one clause for each row in which the formula is false.

use vstd::prelude::*;
use crate::alphabet::{check_only_vars, only_vars};
use crate::boolean::{bool_binary, truth, BooleanOperations};
use crate::evaluator::ExpressionEvaluator;
use crate::expr::{binary_of, ExprNode};
use crate::format::rpn_spec;
use crate::nnf::{nnf_spec, to_nnf};
use crate::operators::BinaryOperator;
use crate::parser::{build_tree, parse, ParseError};
use crate::text::string_of;
use crate::truth_table::{
    assignments, generate_truth_table, lemma_assignments_len, table_spec, variables_spec, TruthTableError,
};

verus! {

/// Whether the root of a tree is the binary connective `op`.
pub open spec fn joins<V>(tree: ExprNode<V>, op: BinaryOperator) -> bool {
    tree is BinaryOp && tree->BinaryOp_0 == op
}

/// Two trees joined by `op`, with the chains of `op` at their roots merged.
///
/// Where both roots are `op`, each side is merged in itself and the two are
/// joined. Where one root is `op`, that side is merged in itself and comes
/// first, the other side second. Where neither is, the two are joined as
/// they are.
pub open spec fn flatten<V>(op: BinaryOperator, left: ExprNode<V>, right: ExprNode<V>) -> ExprNode<V>
    decreases left.size() + right.size(),
{
    if joins(left, op) {
        if joins(right, op) {
            binary_of(
                op,
                flatten(op, *left->BinaryOp_1, *left->BinaryOp_2),
                flatten(op, *right->BinaryOp_1, *right->BinaryOp_2),
            )
        } else {
            binary_of(op, flatten(op, *left->BinaryOp_1, *left->BinaryOp_2), right)
        }
    } else if joins(right, op) {
        binary_of(op, flatten(op, *right->BinaryOp_1, *right->BinaryOp_2), left)
    } else {
        binary_of(op, left, right)
    }
}

/// The structural rewriting of a tree: leaves and negations stay, the
/// operands of a binary node are rewritten, and a conjunction or a
/// disjunction is merged with the chains below it.
pub open spec fn cnf_spec<V>(tree: ExprNode<V>) -> ExprNode<V>
    decreases tree,
{
    match tree {
        ExprNode::BinaryOp(op, left, right) => {
            if op == BinaryOperator::Conjunction || op == BinaryOperator::Disjunction {
                flatten(op, cnf_spec(*left), cnf_spec(*right))
            } else {
                binary_of(op, cnf_spec(*left), cnf_spec(*right))
            }
        },
        _ => tree,
    }
}

fn flatten_nodes(op: BinaryOperator, left: ExprNode<bool>, right: ExprNode<bool>) -> (r: ExprNode<bool>)
    ensures
        r@ == flatten(op, left@, right@),
    decreases left.size() + right.size(),
{
    match left {
        ExprNode::BinaryOp(left_op, la, ra) => {
            if left_op == op {
                let merged = flatten_nodes(op, *la, *ra);
                match right {
                    ExprNode::BinaryOp(right_op, lb, rb) => {
                        if right_op == op {
                            let other = flatten_nodes(op, *lb, *rb);
                            ExprNode::BinaryOp(op, Box::new(merged), Box::new(other))
                        } else {
                            ExprNode::BinaryOp(
                                op,
                                Box::new(merged),
                                Box::new(ExprNode::BinaryOp(right_op, lb, rb)),
                            )
                        }
                    },
                    other => ExprNode::BinaryOp(op, Box::new(merged), Box::new(other)),
                }
            } else {
                let kept = ExprNode::BinaryOp(left_op, la, ra);
                match right {
                    ExprNode::BinaryOp(right_op, lb, rb) => {
                        if right_op == op {
                            let merged = flatten_nodes(op, *lb, *rb);
                            ExprNode::BinaryOp(op, Box::new(merged), Box::new(kept))
                        } else {
                            ExprNode::BinaryOp(
                                op,
                                Box::new(kept),
                                Box::new(ExprNode::BinaryOp(right_op, lb, rb)),
                            )
                        }
                    },
                    other => ExprNode::BinaryOp(op, Box::new(kept), Box::new(other)),
                }
            }
        },
        kept => {
            match right {
                ExprNode::BinaryOp(right_op, lb, rb) => {
                    if right_op == op {
                        let merged = flatten_nodes(op, *lb, *rb);
                        ExprNode::BinaryOp(op, Box::new(merged), Box::new(kept))
                    } else {
                        ExprNode::BinaryOp(op, Box::new(kept), Box::new(ExprNode::BinaryOp(right_op, lb, rb)))
                    }
                },
                other => ExprNode::BinaryOp(op, Box::new(kept), Box::new(other)),
            }
        },
    }
}

impl ExpressionEvaluator<bool, BooleanOperations> {
    /// Joins two trees by `&` and merges the chains of `&` at their roots.
    pub fn flatten_conjunction(&self, left: ExprNode<bool>, right: ExprNode<bool>) -> (r: ExprNode<bool>)
        ensures
            r@ == flatten(BinaryOperator::Conjunction, left@, right@),
    {
        flatten_nodes(BinaryOperator::Conjunction, left, right)
    }

    /// Joins two trees by `|` and merges the chains of `|` at their roots.
    pub fn flatten_disjunction(&self, left: ExprNode<bool>, right: ExprNode<bool>) -> (r: ExprNode<bool>)
        ensures
            r@ == flatten(BinaryOperator::Disjunction, left@, right@),
    {
        flatten_nodes(BinaryOperator::Disjunction, left, right)
    }

    /// The structural rewriting of a tree that is in negation normal form
    /// already, or of any other tree.
    pub fn to_cnf(&self, node: ExprNode<bool>) -> (r: ExprNode<bool>)
        ensures
            r@ == cnf_spec(node@),
        decreases node,
    {
        match node {
            ExprNode::BinaryOp(op, left, right) => {
                let left_cnf = self.to_cnf(*left);
                let right_cnf = self.to_cnf(*right);
                match op {
                    BinaryOperator::Conjunction => self.flatten_conjunction(left_cnf, right_cnf),
                    BinaryOperator::Disjunction => self.flatten_disjunction(left_cnf, right_cnf),
                    _ => ExprNode::BinaryOp(op, Box::new(left_cnf), Box::new(right_cnf)),
                }
            },
            other => other,
        }
    }

    /// The conjunctive normal form of a formula, in postfix: from the truth
    /// table where `truth_table` holds true, and by rewriting the tree
    /// where it holds false. The choice must be made, and the formula must
    /// be one that the chosen way can read.
    pub fn conjunctive_normal_form(&mut self, formula: &str, truth_table: Option<bool>) -> (text: String)
        requires
            old(self).wf(),
            truth_table is Some,
            truth_table == Some(true) ==> table_spec(formula@) is Ok,
            truth_table == Some(false) ==> parse::<bool>(formula@, only_vars(formula@), None) is Ok,
        ensures
            final(self).wf(),
            truth_table == Some(true) ==> Ok::<Seq<char>, (Seq<char>, ParseError)>(text@) == maxterm_cnf(formula@),
            truth_table == Some(false) ==> text@ == rpn_spec::<bool>(
                cnf_spec(nnf_spec(parse::<bool>(formula@, only_vars(formula@), None)->Ok_0)),
            ),
            truth_table == Some(false) || has_maxterm_form(formula@) ==> table_spec(text@) == table_spec(formula@),
    {
        let from_table = match truth_table {
            Some(choice) => choice,
            None => vstd::pervasive::unreached(),
        };
        if from_table {
            match self.derive_cnf_from_truth_table(formula) {
                Ok(text) => text,
                Err(_) => vstd::pervasive::unreached(),
            }
        } else {
            let tree = match build_tree::<bool>(formula, check_only_vars(formula), None) {
                Ok(tree) => tree,
                Err(_) => vstd::pervasive::unreached(),
            };
            let nnf_tree = to_nnf(tree);
            let cnf_tree = self.to_cnf(nnf_tree);
            proof {
                crate::table_laws::lemma_structural_cnf_keeps_table(formula@);
            }
            self.to_rpn(&cnf_tree)
        }
    }

    /// The conjunctive normal form that the truth table of a formula gives:
    /// for each row in which the formula is false, the disjunction of the
    /// variables, each negated where the row gives it true; and the
    /// conjunction of these clauses. A formula that is false in no row is
    /// returned as it is.
    pub fn derive_cnf_from_truth_table(&mut self, formula: &str) -> (outcome: Result<String, TruthTableError>)
        requires
            old(self).wf(),
        ensures
            final(self).wf(),
            match maxterm_cnf(formula@) {
                Ok(text) => outcome matches Ok(cnf) && cnf@ == text,
                Err((text, e)) => outcome matches Err(failure) && failure.formula@ == text && failure.error == e,
            },
            has_maxterm_form(formula@) ==> (outcome matches Ok(cnf) && table_spec(cnf@) == table_spec(formula@)),
    {
        proof {
            if has_maxterm_form(formula@) {
                crate::maxterm::lemma_maxterm_cnf_keeps_table(formula@);
            }
        }
        let table = match generate_truth_table(formula, self) {
            Ok(table) => table,
            Err(failure) => {
                return Err(failure);
            },
        };
        let ghost rows = table.rows_spec();
        let ghost variables = table.variables@;
        proof {
            lemma_assignments_len(variables.len());
        }
        let mut clauses: Vec<char> = Vec::new();
        let mut count: usize = 0;
        let mut k: usize = 0;
        while k < table.rows.len()
            invariant
                k <= table.rows.len(),
                rows == table.rows_spec(),
                variables == table.variables@,
                rows.len() == assignments(variables.len()).len(),
                forall|i: int| 0 <= i < rows.len() ==> (#[trigger] rows[i]).0.len() == variables.len(),
                count == false_rows_upto(rows, k as nat),
                count <= k,
                clauses@ == clauses_upto(variables, rows, k as nat),
            decreases table.rows.len() - k,
        {
            assert(rows[k as int].0 == table.rows@[k as int].0@);
            if !table.rows[k].1 {
                write_clause(&table.variables, &table.rows[k].0, &mut clauses);
                count += 1;
            } else {
                assert(clauses@ + Seq::<char>::empty() == clauses@);
            }
            k += 1;
        }
        if count == 0 {
            return Ok(formula.to_owned());
        }
        let mut j: usize = 1;
        let ghost base = clauses@;
        assert(clauses@ == base + repeat('&', 0));
        while j < count
            invariant
                1 <= j <= count,
                clauses@ == base + repeat('&', j - 1),
            decreases count - j,
        {
            clauses.push('&');
            assert(repeat('&', j as int) == repeat('&', j - 1).push('&'));
            j += 1;
        }
        Ok(string_of(&clauses))
    }
}

/// Whether the table of a formula gives a conjunctive normal form that is
/// a formula again: the formula has a table, and has a variable or is false
/// in no row. What is left out are the formulas without variables that are
/// false, for which there is one clause with nothing in it.
pub open spec fn has_maxterm_form(tokens: Seq<char>) -> bool {
    table_spec(tokens) matches Ok(rows) && (variables_spec(tokens).len() >= 1 || false_rows_upto(rows, rows.len())
        == 0)
}

/// `n` times the character `c`, and nothing where `n` is not positive.
pub open spec fn repeat(c: char, n: int) -> Seq<char> {
    Seq::new(
        if n > 0 {
            n as nat
        } else {
            0
        },
        |i: int| c,
    )
}

/// A variable as it stands in a clause: negated where the row gives it true.
pub open spec fn literal_text(name: char, value: bool) -> Seq<char> {
    if value {
        seq![name, '!']
    } else {
        seq![name]
    }
}

/// The first `n` variables as they stand in the clause of a row.
pub open spec fn literals_upto(variables: Seq<char>, values: Seq<bool>, n: nat) -> Seq<char>
    decreases n,
{
    if n == 0 {
        Seq::empty()
    } else {
        literals_upto(variables, values, (n - 1) as nat) + literal_text(variables[n - 1], values[n - 1])
    }
}

/// The clause of a row, in postfix: the literals, and one `|` fewer than
/// there are literals.
pub open spec fn clause_text(variables: Seq<char>, values: Seq<bool>) -> Seq<char> {
    literals_upto(variables, values, variables.len()) + repeat('|', variables.len() - 1)
}

/// The number of rows among the first `k` in which the formula is false.
pub open spec fn false_rows_upto(rows: Seq<(Seq<bool>, bool)>, k: nat) -> nat
    decreases k,
{
    if k == 0 {
        0
    } else {
        false_rows_upto(rows, (k - 1) as nat) + if rows[k - 1].1 {
            0nat
        } else {
            1nat
        }
    }
}

/// The clauses of the rows among the first `k` in which the formula is
/// false, one after the other.
pub open spec fn clauses_upto(variables: Seq<char>, rows: Seq<(Seq<bool>, bool)>, k: nat) -> Seq<char>
    decreases k,
{
    if k == 0 {
        Seq::empty()
    } else {
        clauses_upto(variables, rows, (k - 1) as nat) + if rows[k - 1].1 {
            Seq::<char>::empty()
        } else {
            clause_text(variables, rows[k - 1].0)
        }
    }
}

/// The text that a table gives: the formula itself where no row is false,
/// and else the clauses with one `&` fewer than there are clauses.
pub open spec fn maxterm_text(tokens: Seq<char>, variables: Seq<char>, rows: Seq<(Seq<bool>, bool)>) -> Seq<char> {
    if false_rows_upto(rows, rows.len()) == 0 {
        tokens
    } else {
        clauses_upto(variables, rows, rows.len()) + repeat('&', false_rows_upto(rows, rows.len()) - 1)
    }
}

/// The conjunctive normal form that the truth table of a formula gives, or
/// why there is no table.
pub open spec fn maxterm_cnf(tokens: Seq<char>) -> Result<Seq<char>, (Seq<char>, ParseError)> {
    match table_spec(tokens) {
        Ok(rows) => Ok(maxterm_text(tokens, variables_spec(tokens), rows)),
        Err(failure) => Err(failure),
    }
}

fn write_clause(variables: &Vec<char>, values: &Vec<bool>, out: &mut Vec<char>)
    requires
        values@.len() == variables@.len(),
    ensures
        final(out)@ == old(out)@ + clause_text(variables@, values@),
{
    let mut j: usize = 0;
    assert(out@ == old(out)@ + literals_upto(variables@, values@, 0));
    while j < variables.len()
        invariant
            j <= variables.len(),
            values@.len() == variables@.len(),
            out@ == old(out)@ + literals_upto(variables@, values@, j as nat),
        decreases variables.len() - j,
    {
        out.push(variables[j]);
        if values[j] {
            out.push('!');
        }
        assert(out@ == old(out)@ + (literals_upto(variables@, values@, j as nat) + literal_text(
            variables@[j as int],
            values@[j as int],
        )));
        j += 1;
    }
    let ghost literals = out@;
    let mut i: usize = 1;
    assert(out@ == literals + repeat('|', 0));
    while i < variables.len()
        invariant
            1 <= i,
            i <= variables.len() || (variables.len() == 0 && i == 1),
            literals == old(out)@ + literals_upto(variables@, values@, variables@.len()),
            out@ == literals + repeat('|', i - 1),
        decreases variables.len() - i,
    {
        out.push('|');
        assert(repeat('|', i as int) == repeat('|', i - 1).push('|'));
        i += 1;
    }
    proof {
        let bars = repeat('|', variables@.len() - 1);
        if variables.len() == 0 {
            assert(i == 1);
            assert(repeat('|', 0) =~= bars);
            assert(repeat('|', i - 1) == bars);
        } else {
            assert(i == variables.len());
            assert(repeat('|', i - 1) == bars);
        }
        assert(out@ == literals + bars);
        assert(literals == old(out)@ + literals_upto(variables@, values@, variables@.len()));
        assert(out@ == old(out)@ + (literals_upto(variables@, values@, variables@.len()) + bars));
    }
}

/// Merging has the truth value of the conjunction, or the disjunction, of
/// the two trees.
pub proof fn lemma_flatten_preserves_truth(
    op: BinaryOperator,
    left: ExprNode<bool>,
    right: ExprNode<bool>,
    assignment: spec_fn(char) -> bool,
)
    requires
        op == BinaryOperator::Conjunction || op == BinaryOperator::Disjunction,
    ensures
        truth(flatten(op, left, right), assignment) == bool_binary(
            op,
            truth(left, assignment),
            truth(right, assignment),
        ),
    decreases left.size() + right.size(),
{
    if joins(left, op) {
        lemma_flatten_preserves_truth(op, *left->BinaryOp_1, *left->BinaryOp_2, assignment);
    }
    if joins(right, op) {
        lemma_flatten_preserves_truth(op, *right->BinaryOp_1, *right->BinaryOp_2, assignment);
    }
}

/// The structural rewriting has the truth value of the tree under every
/// assignment.
pub proof fn lemma_cnf_preserves_truth(tree: ExprNode<bool>, assignment: spec_fn(char) -> bool)
    ensures
        truth(cnf_spec(tree), assignment) == truth(tree, assignment),
    decreases tree,
{
    match tree {
        ExprNode::BinaryOp(op, left, right) => {
            lemma_cnf_preserves_truth(*left, assignment);
            lemma_cnf_preserves_truth(*right, assignment);
            if op == BinaryOperator::Conjunction || op == BinaryOperator::Disjunction {
                lemma_flatten_preserves_truth(op, cnf_spec(*left), cnf_spec(*right), assignment);
            }
        },
        _ => {},
    }
}

/// Merging keeps the variables of the two trees, and no others.
pub proof fn lemma_flatten_keeps_variables<V>(op: BinaryOperator, left: ExprNode<V>, right: ExprNode<V>)
    ensures
        flatten(op, left, right).variables() == left.variables().union(right.variables()),
        flatten(op, left, right).is_symbolic() == (left.is_symbolic() && right.is_symbolic()),
        flatten(op, left, right).is_bound() == (left.is_bound() && right.is_bound()),
    decreases left.size() + right.size(),
{
    if joins(left, op) {
        lemma_flatten_keeps_variables(op, *left->BinaryOp_1, *left->BinaryOp_2);
    }
    if joins(right, op) {
        lemma_flatten_keeps_variables(op, *right->BinaryOp_1, *right->BinaryOp_2);
    }
    assert(flatten(op, left, right).variables() =~= left.variables().union(right.variables()));
}

/// The structural rewriting keeps the variables of the tree, and no others.
pub proof fn lemma_cnf_keeps_variables<V>(tree: ExprNode<V>)
    ensures
        cnf_spec(tree).variables() == tree.variables(),
        cnf_spec(tree).is_symbolic() == tree.is_symbolic(),
        cnf_spec(tree).is_bound() == tree.is_bound(),
    decreases tree,
{
    match tree {
        ExprNode::BinaryOp(op, left, right) => {
            lemma_cnf_keeps_variables(*left);
            lemma_cnf_keeps_variables(*right);
            lemma_flatten_keeps_variables(op, cnf_spec(*left), cnf_spec(*right));
        },
        _ => {},
    }
}

} // verus!
