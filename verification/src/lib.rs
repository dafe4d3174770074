//! A small symbolic-logic engine: postfix formulas over a pluggable algebra,
//! their evaluation, truth tables, normal forms and satisfiability, together
//! with a handful of bit-level and combinatorial utilities.

pub mod adder;
pub mod algebra;
pub mod alphabet;
pub mod bindings;
pub mod boolean;
pub mod cnf;
pub mod curve;
pub mod decimal;
pub mod evaluator;
pub mod expr;
pub mod format;
pub mod grey_code;
pub mod maxterm;
pub mod multiplier;
pub mod nnf;
pub mod operators;
pub mod parser;
pub mod powerset;
pub mod round_trip;
pub mod sat;
pub mod set_algebra;
pub mod table_laws;
pub mod text;
pub mod truth_table;
pub mod value;
