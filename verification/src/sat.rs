//! Satisfiability by the truth table.

use vstd::prelude::*;
use crate::algebra::SatTruthTable;
use crate::boolean::BooleanOperations;
use crate::evaluator::ExpressionEvaluator;
use crate::truth_table::{generate_truth_table, table_spec};

verus! {

/// Whether a formula has a table with a row in which it is true.
pub open spec fn satisfiable(tokens: Seq<char>) -> bool {
    table_spec(tokens) matches Ok(rows) && exists|k: int| 0 <= k < rows.len() && (#[trigger] rows[k]).1
}

impl SatTruthTable for ExpressionEvaluator<bool, BooleanOperations> {
    open spec fn ready(&self) -> bool {
        self.wf()
    }

    /// Whether some assignment makes the formula true. A formula that
    /// cannot be read counts as one that none does.
    fn sat_truth_table(&mut self, formula: &str) -> (found: bool)
        ensures
            found == satisfiable(formula@),
    {
        match generate_truth_table(formula, self) {
            Ok(table) => {
                let mut k: usize = 0;
                while k < table.rows.len()
                    invariant
                        k <= table.rows.len(),
                        self.wf(),
                        table_spec(formula@) == Ok::<Seq<(Seq<bool>, bool)>, (Seq<char>, crate::parser::ParseError)>(
                            table.rows_spec(),
                        ),
                        forall|i: int| 0 <= i < k ==> !(#[trigger] table.rows_spec()[i]).1,
                    decreases table.rows.len() - k,
                {
                    if table.rows[k].1 {
                        proof {
                            let rows = table_spec(formula@)->Ok_0;
                            assert(rows == table.rows_spec());
                            assert(rows[k as int].1);
                        }
                        return true;
                    }
                    k += 1;
                }
                false
            },
            Err(_) => false,
        }
    }
}

} // verus!
