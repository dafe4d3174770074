use ready_set_boole::boolean::BooleanOperations;
use ready_set_boole::evaluator::ExpressionEvaluator;
use ready_set_boole::parser::ParseError;
use ready_set_boole::truth_table::generate_truth_table;

#[test]
fn test_not_truth() {
    let mut boolean_evaluation: ExpressionEvaluator<bool, BooleanOperations> =
        ExpressionEvaluator::<bool, BooleanOperations>::new();

    assert_eq!(boolean_evaluation.conjunctive_normal_form("A", Some(false)), "A");
    assert_eq!(boolean_evaluation.conjunctive_normal_form("AA&AA&&", Some(false)), "AA&AA&&");
    assert_eq!(boolean_evaluation.conjunctive_normal_form("AB&!", Some(false)), "A!B!|");
    assert_eq!(boolean_evaluation.conjunctive_normal_form("AB|!", Some(false)), "A!B!&");
    assert_eq!(boolean_evaluation.conjunctive_normal_form("AB|C&", Some(false)), "AB|C&");
    assert_eq!(boolean_evaluation.conjunctive_normal_form("AB|C|D|", Some(false)), "AB|C|D|");
    assert_eq!(boolean_evaluation.conjunctive_normal_form("AB|C&!", Some(false)), "A!B!&C!|");
    assert_eq!(boolean_evaluation.conjunctive_normal_form("ABCD&|&", Some(false)), "ABCD&|&");
    assert_eq!(boolean_evaluation.conjunctive_normal_form("AB&C&D&", Some(false)), "AB&C&D&");
    assert_eq!(boolean_evaluation.conjunctive_normal_form("AB&!C!|", Some(false)), "A!B!|C!|");
    assert_eq!(boolean_evaluation.conjunctive_normal_form("AB|!C!&", Some(false)), "A!B!&C!&");
}

#[test]
fn test_second_method_with_truth_table() {
    let mut boolean_evaluation: ExpressionEvaluator<bool, BooleanOperations> =
        ExpressionEvaluator::<bool, BooleanOperations>::new();

    assert_eq!(boolean_evaluation.conjunctive_normal_form("A", Some(true)), "A");
    assert_eq!(boolean_evaluation.conjunctive_normal_form("AA&AA&&", Some(true)), "A");
    assert_eq!(boolean_evaluation.conjunctive_normal_form("AB&!", Some(true)), "A!B!|");
    assert_eq!(
        boolean_evaluation.conjunctive_normal_form("AB|!", Some(true)),
        "AB!|A!B|A!B!|&&"
    );
    assert_eq!(
        boolean_evaluation.conjunctive_normal_form("AB|C&", Some(true)),
        "ABC||ABC!||AB!C||A!BC||A!B!C||&&&&"
    );
    assert_eq!(boolean_evaluation.conjunctive_normal_form("AB|C|D|", Some(true)), "ABCD|||");
    assert_eq!(
        boolean_evaluation.conjunctive_normal_form("AB|C&!", Some(true)),
        "AB!C!||A!BC!||A!B!C!||&&"
    );
    assert_eq!(
        boolean_evaluation.conjunctive_normal_form("ABCD&|&", Some(true)),
        "ABCD|||ABCD!|||ABC!D|||ABC!D!|||AB!CD|||AB!CD!|||AB!C!D|||AB!C!D!|||A!BCD|||A!BCD!|||A!BC!D|||&&&&&&&&&&"
    );
    assert_eq!(
        boolean_evaluation.conjunctive_normal_form("AB&C&D&", Some(true)),
        "ABCD|||ABCD!|||ABC!D|||ABC!D!|||AB!CD|||AB!CD!|||AB!C!D|||AB!C!D!|||A!BCD|||A!BCD!|||A!BC!D|||A!BC!D!|||A!B!CD|||A!B!CD!|||A!B!C!D|||&&&&&&&&&&&&&&"
    );
    assert_eq!(boolean_evaluation.conjunctive_normal_form("AB&!C!|", Some(true)), "A!B!C!||");
    assert_eq!(
        boolean_evaluation.conjunctive_normal_form("AB|!C!&", Some(true)),
        "ABC!||AB!C||AB!C!||A!BC||A!BC!||A!B!C||A!B!C!||&&&&&&"
    );
}

#[test]
fn test_result_truth_table() {
    let mut evaluator: ExpressionEvaluator<bool, BooleanOperations> =
        ExpressionEvaluator::<bool, BooleanOperations>::new();
    let formula = "AB|!C!&";
    let cnf = evaluator.conjunctive_normal_form(formula, Some(true));
    assert_eq!(
        generate_truth_table(formula, &mut evaluator).unwrap(),
        generate_truth_table(&cnf, &mut evaluator).unwrap()
    );
}

#[test]
fn cnf_keeps_the_truth_table_both_ways() {
    let mut evaluator = ExpressionEvaluator::<bool, BooleanOperations>::new();
    let formulas = ["AB|C&!", "AB^", "AB>C=", "AB&C&D&", "ABC&&", "AB=!", "A!B>C^"];
    for formula in formulas {
        let table = generate_truth_table(formula, &mut evaluator).unwrap();
        let structural = evaluator.conjunctive_normal_form(formula, Some(false));
        assert_eq!(generate_truth_table(&structural, &mut evaluator).unwrap(), table);
        let derived = evaluator.conjunctive_normal_form(formula, Some(true));
        assert_eq!(generate_truth_table(&derived, &mut evaluator).unwrap(), table);
    }
}

#[test]
fn cnf_merges_a_chain_on_the_right_to_the_front() {
    let mut evaluator = ExpressionEvaluator::<bool, BooleanOperations>::new();
    assert_eq!(evaluator.conjunctive_normal_form("ABC&&", Some(false)), "BC&A&");
    assert_eq!(evaluator.conjunctive_normal_form("ABC||", Some(false)), "BC|A|");
    assert_eq!(evaluator.conjunctive_normal_form("AB&CD&&", Some(false)), "AB&CD&&");
    assert_eq!(evaluator.conjunctive_normal_form("AB^", Some(false)), "AB|AB&!&");
}

#[test]
fn cnf_from_the_table_of_a_tautology_is_the_formula() {
    let mut evaluator = ExpressionEvaluator::<bool, BooleanOperations>::new();
    assert_eq!(evaluator.derive_cnf_from_truth_table("AA!|"), Ok("AA!|".to_string()));
    assert_eq!(evaluator.derive_cnf_from_truth_table("1"), Ok("1".to_string()));
    // A formula without variables that is false has one clause, an empty one.
    assert_eq!(evaluator.derive_cnf_from_truth_table("0"), Ok("".to_string()));
}

#[test]
fn cnf_from_the_table_reports_what_cannot_be_read() {
    let mut evaluator = ExpressionEvaluator::<bool, BooleanOperations>::new();
    let failure = evaluator.derive_cnf_from_truth_table("AB").unwrap_err();
    assert_eq!(failure.formula, "00");
    assert_eq!(failure.error, ParseError::Malformed);
}
