use ready_set_boole::boolean::BooleanOperations;
use ready_set_boole::evaluator::ExpressionEvaluator;
use ready_set_boole::nnf::negation_normal_form;
use ready_set_boole::truth_table::generate_truth_table;

#[test]
fn test_transformation() {
    let boolean_evaluation: ExpressionEvaluator<bool, BooleanOperations> =
        ExpressionEvaluator::<bool, BooleanOperations>::new();
    assert_eq!(boolean_evaluation.negation_normal_form("AB&!"), "A!B!|");
    assert_eq!(boolean_evaluation.negation_normal_form("AB|!"), "A!B!&");
    assert_eq!(boolean_evaluation.negation_normal_form("AB>"), "A!B|");
    assert_eq!(boolean_evaluation.negation_normal_form("AB="), "A!B|B!A|&");
    assert_eq!(boolean_evaluation.negation_normal_form("AB|C&!"), "A!B!&C!|");

    // No transformation needed
    assert_eq!(boolean_evaluation.negation_normal_form("A!B!&C!|"), "A!B!&C!|");
    assert_eq!(boolean_evaluation.negation_normal_form("A!B!|"), "A!B!|");
    assert_eq!(boolean_evaluation.negation_normal_form("A!B!&"), "A!B!&");
    assert_eq!(boolean_evaluation.negation_normal_form("A!B|"), "A!B|");
    assert_eq!(boolean_evaluation.negation_normal_form("A!B|B!A|&"), "A!B|B!A|&");
}

#[test]
fn test_truth_table() {
    let mut evaluator: ExpressionEvaluator<bool, BooleanOperations> =
        ExpressionEvaluator::<bool, BooleanOperations>::new();
    let formula = "AB&!";
    let nnf = evaluator.negation_normal_form(formula);
    assert_eq!(
        generate_truth_table(formula, &mut evaluator).unwrap(),
        generate_truth_table(&nnf, &mut evaluator).unwrap()
    );
}

#[test]
fn test() {
    assert_eq!(negation_normal_form("AB&!"), "A!B!|");
    assert_eq!(negation_normal_form("AB|!"), "A!B!&");
    assert_eq!(negation_normal_form("AB>"), "A!B|");
    assert_eq!(negation_normal_form("AB="), "A!B|B!A|&");
    assert_eq!(negation_normal_form("AB|C&!"), "A!B!&C!|");
}

#[test]
fn nnf_cancels_double_negations() {
    assert_eq!(negation_normal_form("A!!"), "A");
    assert_eq!(negation_normal_form("A!!!"), "A!");
    assert_eq!(negation_normal_form("AB&!!"), "AB&");
    assert_eq!(negation_normal_form("A!B!!|!"), "AB!&");
}

#[test]
fn nnf_writes_out_the_other_connectives() {
    assert_eq!(negation_normal_form("AB^"), "AB|AB&!&");
    assert_eq!(negation_normal_form("AB>!"), "A!B|!");
    assert_eq!(negation_normal_form("AB=!"), "A!B|B!A|&!");
    assert_eq!(negation_normal_form("AB^!"), "AB|AB&!&!");
    assert_eq!(negation_normal_form("AB>C>"), "A!B|!C|");
}

#[test]
fn nnf_of_constants() {
    let evaluator = ExpressionEvaluator::<bool, BooleanOperations>::new();
    assert_eq!(evaluator.negation_normal_form("10&!"), "1!0!|");
    assert_eq!(evaluator.negation_normal_form("1"), "1");
}

#[test]
fn nnf_twice_is_nnf_once_without_the_other_connectives() {
    let formulas = ["AB&!", "AB|C&!", "A!B!&C!|!", "AB&C|D&!E|!", "A", "A!!"];
    for formula in formulas {
        let once = negation_normal_form(formula);
        assert_eq!(negation_normal_form(&once), once);
    }
    // An implication under a negation comes back changed.
    let once = negation_normal_form("A!B>");
    assert_eq!(once, "A!!B|");
    assert_eq!(negation_normal_form(&once), "AB|");
}

#[test]
fn nnf_keeps_the_truth_table() {
    let mut evaluator = ExpressionEvaluator::<bool, BooleanOperations>::new();
    let formulas = ["AB^", "AB>!", "AB=!C^", "AB&C|!D>", "AB>C>!A="];
    for formula in formulas {
        let nnf = negation_normal_form(formula);
        assert_eq!(
            generate_truth_table(formula, &mut evaluator).unwrap(),
            generate_truth_table(&nnf, &mut evaluator).unwrap()
        );
    }
}
