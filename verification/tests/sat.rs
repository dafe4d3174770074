use ready_set_boole::algebra::SatTruthTable;
use ready_set_boole::boolean::BooleanOperations;
use ready_set_boole::evaluator::ExpressionEvaluator;

#[test]
fn test_sat_truth_table() {
    let mut evaluator: ExpressionEvaluator<bool, BooleanOperations> =
        ExpressionEvaluator::<bool, BooleanOperations>::new();
    let formula: &str = "AB|";
    let expected: bool = true;
    assert_eq!(evaluator.sat_truth_table(&formula), expected);

    let formula = "AB&";
    let expected = true;
    assert_eq!(evaluator.sat_truth_table(&formula), expected);

    let formula = "AA!&";
    let expected = false;
    assert_eq!(evaluator.sat_truth_table(&formula), expected);

    let formula = "AA^";
    let expected = false;
    assert_eq!(evaluator.sat_truth_table(&formula), expected);
}

#[test]
fn sat_of_what_cannot_be_read_is_false() {
    let mut evaluator = ExpressionEvaluator::<bool, BooleanOperations>::new();
    assert_eq!(evaluator.sat_truth_table("AB"), false);
    assert_eq!(evaluator.sat_truth_table(""), false);
    assert_eq!(evaluator.sat_truth_table("A?"), false);
    assert_eq!(evaluator.sat_truth_table("1"), true);
    assert_eq!(evaluator.sat_truth_table("0"), false);
}
