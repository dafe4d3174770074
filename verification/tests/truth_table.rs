use ready_set_boole::boolean::BooleanOperations;
use ready_set_boole::evaluator::ExpressionEvaluator;
use ready_set_boole::parser::ParseError;
use ready_set_boole::truth_table::{
    all_assignments, find_variables, format_truth_table, generate_truth_table, substitute_values, TruthTable,
};

fn fresh() -> ExpressionEvaluator<bool, BooleanOperations> {
    ExpressionEvaluator::<bool, BooleanOperations>::new()
}

#[test]
fn test_simple_and() {
    let mut evaluator = fresh();
    let formula = "AB&";
    let truth_table = generate_truth_table(formula, &mut evaluator).unwrap();

    let expected = vec![
        (vec![false, false], false),
        (vec![false, true], false),
        (vec![true, false], false),
        (vec![true, true], true),
    ];

    assert_eq!(truth_table.rows, expected);
}

#[test]
fn test_simple_or() {
    let mut evaluator = fresh();
    let formula = "AB|";
    let truth_table = generate_truth_table(formula, &mut evaluator).unwrap();

    let expected = vec![
        (vec![false, false], false),
        (vec![false, true], true),
        (vec![true, false], true),
        (vec![true, true], true),
    ];

    assert_eq!(truth_table.rows, expected);
}

#[test]
fn truth_table_test_negation() {
    let mut evaluator = fresh();
    let formula = "A!";
    let truth_table = generate_truth_table(formula, &mut evaluator).unwrap();

    let expected = vec![(vec![false], true), (vec![true], false)];

    assert_eq!(truth_table.rows, expected);
}

#[test]
fn test_complex_expression() {
    let mut evaluator = fresh();
    let formula = "AB&C|";
    let truth_table = generate_truth_table(formula, &mut evaluator).unwrap();

    let expected = vec![
        (vec![false, false, false], false),
        (vec![false, false, true], true),
        (vec![false, true, false], false),
        (vec![false, true, true], true),
        (vec![true, false, false], false),
        (vec![true, false, true], true),
        (vec![true, true, false], true),
        (vec![true, true, true], true),
    ];

    assert_eq!(truth_table.rows, expected);
}

#[test]
fn test_invalid_formula() {
    let mut evaluator = fresh();
    let formula = "AB!!";

    let result = generate_truth_table(formula, &mut evaluator);
    assert!(result.is_err());
}

#[test]
fn truth_table_reports_the_first_row() {
    let mut evaluator = fresh();
    let failure = generate_truth_table("AB!!", &mut evaluator).unwrap_err();
    assert_eq!(failure.formula, "00!!");
    assert_eq!(failure.error, ParseError::Malformed);
    assert_eq!(failure.message(), "Error evaluating formula '00!!': Error: Malformed expression");
    let failure = generate_truth_table("CA?&", &mut evaluator).unwrap_err();
    assert_eq!(failure.formula, "00?&");
    assert_eq!(failure.error, ParseError::InvalidCharacter('?'));
    let failure = generate_truth_table("", &mut evaluator).unwrap_err();
    assert_eq!(failure.formula, "");
    assert_eq!(failure.error, ParseError::Malformed);
}

#[test]
fn truth_table_columns_follow_the_alphabet() {
    let mut evaluator = fresh();
    let table = generate_truth_table("ZA>Z|", &mut evaluator).unwrap();
    assert_eq!(table.variables, vec!['A', 'Z']);
    // Z > A, or Z
    let expected = vec![
        (vec![false, false], true),
        (vec![false, true], true),
        (vec![true, false], true),
        (vec![true, true], true),
    ];
    assert_eq!(table.rows, expected);
}

#[test]
fn truth_table_without_variables_has_one_row() {
    let mut evaluator = fresh();
    let table = generate_truth_table("10|", &mut evaluator).unwrap();
    assert_eq!(table.variables, Vec::<char>::new());
    assert_eq!(table.rows, vec![(Vec::<bool>::new(), true)]);
}

#[test]
fn truth_table_takes_digits_beside_letters() {
    let mut evaluator = fresh();
    let table = generate_truth_table("A1&", &mut evaluator).unwrap();
    assert_eq!(table.rows, vec![(vec![false], false), (vec![true], true)]);
}

#[test]
fn truth_table_has_one_row_for_each_assignment() {
    let mut evaluator = fresh();
    let formulas = ["A", "AB&", "AB&C|", "AB|C&D^", "AB&CD&EF&&&G|"];
    let mut n = 1;
    for formula in formulas {
        let table = generate_truth_table(formula, &mut evaluator).unwrap();
        assert_eq!(table.variables.len(), n);
        assert_eq!(table.rows.len(), 1 << n);
        let mut k = 0;
        while k < table.rows.len() {
            assert_eq!(table.rows[k].0.len(), n);
            let mut j = 0;
            while j < n {
                assert_eq!(table.rows[k].0[j], (k >> (n - 1 - j)) & 1 == 1);
                j += 1;
            }
            if k > 0 {
                assert!(table.rows[k - 1].0 < table.rows[k].0);
            }
            k += 1;
        }
        n += if n < 4 { 1 } else { 3 };
    }
}

#[test]
fn truth_table_is_the_same_each_time() {
    let mut evaluator = fresh();
    let first = generate_truth_table("AB>C=A^", &mut evaluator).unwrap();
    let second = generate_truth_table("AB>C=A^", &mut evaluator).unwrap();
    let mut other = fresh();
    let third = generate_truth_table("AB>C=A^", &mut other).unwrap();
    assert_eq!(first, second);
    assert_eq!(first, third);
}

#[test]
fn assignments_come_in_order() {
    assert_eq!(all_assignments(0), vec![Vec::<bool>::new()]);
    assert_eq!(all_assignments(1), vec![vec![false], vec![true]]);
    assert_eq!(
        all_assignments(2),
        vec![vec![false, false], vec![false, true], vec![true, false], vec![true, true]]
    );
}

#[test]
fn variables_are_found_and_replaced() {
    let tokens: Vec<char> = "CA&C1|!".chars().collect();
    let variables = find_variables(&tokens);
    assert_eq!(variables, vec!['A', 'C']);
    let text: String = substitute_values(&tokens, &variables, &vec![true, false]).into_iter().collect();
    assert_eq!(text, "01&01|!");
}

#[test]
fn truth_table_is_written_in_lines() {
    let mut evaluator = fresh();
    let table = generate_truth_table("AB&", &mut evaluator).unwrap();
    let expected = "| A | B | = |\n\
                    ------------\n\
                    | 0 | 0 | 0 |\n\
                    | 0 | 1 | 0 |\n\
                    | 1 | 0 | 0 |\n\
                    | 1 | 1 | 1 |\n";
    assert_eq!(format_truth_table(&table), expected);
    let table = generate_truth_table("1", &mut evaluator).unwrap();
    assert_eq!(format_truth_table(&table), "| = |\n----\n| 1 |\n");
    let empty = TruthTable { variables: vec![], rows: vec![] };
    assert_eq!(format_truth_table(&empty), "| = |\n----\n");
}
