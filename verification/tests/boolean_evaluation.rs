use ready_set_boole::algebra::Algebra;
use ready_set_boole::bindings::Bindings;
use ready_set_boole::boolean::BooleanOperations;
use ready_set_boole::evaluator::ExpressionEvaluator;
use ready_set_boole::parser::ParseError;

#[test]
fn boolean_evaluation_test_implication() {
    assert_eq!(BooleanOperations::implication(&false, &false, None), true);
    assert_eq!(BooleanOperations::implication(&false, &true, None), true);
    assert_eq!(BooleanOperations::implication(&true, &false, None), false);
    assert_eq!(BooleanOperations::implication(&true, &true, None), true);
}

#[test]
fn boolean_evaluation_test_disjunction() {
    assert_eq!(BooleanOperations::disjunction(&false, &false, None), false);
    assert_eq!(BooleanOperations::disjunction(&false, &true, None), true);
    assert_eq!(BooleanOperations::disjunction(&true, &false, None), true);
    assert_eq!(BooleanOperations::disjunction(&true, &true, None), true);
}

#[test]
fn boolean_evaluation_test_negation() {
    assert_eq!(BooleanOperations::negation(&false, None), true);
    assert_eq!(BooleanOperations::negation(&true, None), false);
}

#[test]
fn boolean_evaluation_test_conjunction() {
    assert_eq!(BooleanOperations::conjunction(&false, &false, None), false);
    assert_eq!(BooleanOperations::conjunction(&false, &true, None), false);
    assert_eq!(BooleanOperations::conjunction(&true, &false, None), false);
    assert_eq!(BooleanOperations::conjunction(&true, &true, None), true);
}

#[test]
fn boolean_evaluation_test_exclusive_disjunction() {
    assert_eq!(BooleanOperations::exclusive_disjunction(&false, &false, None), false);
    assert_eq!(BooleanOperations::exclusive_disjunction(&false, &true, None), true);
    assert_eq!(BooleanOperations::exclusive_disjunction(&true, &false, None), true);
    assert_eq!(BooleanOperations::exclusive_disjunction(&true, &true, None), false);
}

#[test]
fn boolean_evaluation_test_logical_equivalence() {
    assert_eq!(BooleanOperations::logical_equivalence(&false, &false, None), true);
    assert_eq!(BooleanOperations::logical_equivalence(&false, &true, None), false);
    assert_eq!(BooleanOperations::logical_equivalence(&true, &false, None), false);
    assert_eq!(BooleanOperations::logical_equivalence(&true, &true, None), true);
}

#[test]
fn boolean_evaluation_test_evaluate() {
    let mut boolean_operations: ExpressionEvaluator<bool, BooleanOperations> =
        ExpressionEvaluator::<bool, BooleanOperations>::new();
    assert_eq!(boolean_operations.evaluate("10|", None).unwrap(), true);
    assert_eq!(boolean_operations.evaluate("10&", None).unwrap(), false);
    assert_eq!(boolean_operations.evaluate("10>", None).unwrap(), false);
    assert_eq!(boolean_operations.evaluate("1!", None).unwrap(), false);
    assert_eq!(boolean_operations.evaluate("11=", None).unwrap(), true);
    assert_eq!(boolean_operations.evaluate("01^", None).unwrap(), true);
    assert_eq!(
        boolean_operations
            .evaluate("10&!10&!10&!10&!10&!====", None)
            .unwrap(),
        true
    );
    assert!(boolean_operations.evaluate("1&", None).is_err());
    assert!(boolean_operations.evaluate("!", None).is_err());
    assert!(boolean_operations.evaluate("1@", None).is_err());
    assert!(boolean_operations.evaluate("", None).is_err());

    let mut plain = BooleanOperations::new();
    assert_eq!(plain.evaluate("10|").unwrap(), true);
    assert_eq!(plain.evaluate("10&").unwrap(), false);
    assert_eq!(plain.evaluate("10>").unwrap(), false);
    assert_eq!(plain.evaluate("1!").unwrap(), false);
    assert_eq!(plain.evaluate("11=").unwrap(), true);
    assert_eq!(plain.evaluate("01^").unwrap(), true);
    assert_eq!(plain.evaluate("10&!10&!10&!10&!10&!====").unwrap(), true);
    assert!(plain.evaluate("1&").is_err());
    assert!(plain.evaluate("!").is_err());
    assert!(plain.evaluate("1@").is_err());
    assert!(plain.evaluate("").is_err());
}

fn bind(pairs: &[(char, bool)]) -> Bindings<bool> {
    let mut bindings: Bindings<bool> = Bindings::new();
    for (name, value) in pairs {
        bindings.insert(*name, *value);
    }
    bindings
}

#[test]
fn evaluate_with_hash() {
    let mut boolean_operations: ExpressionEvaluator<bool, BooleanOperations> =
        ExpressionEvaluator::<bool, BooleanOperations>::new();
    let hash = Some(bind(&[('A', true), ('B', false)]));
    assert_eq!(boolean_operations.evaluate("AB|", hash.as_ref()).unwrap(), true);

    let hash = Some(bind(&[('A', true), ('B', false)]));
    assert_eq!(boolean_operations.evaluate("AB&", hash.as_ref()).unwrap(), false);

    let hash = Some(bind(&[('A', true), ('B', false)]));
    assert_eq!(boolean_operations.evaluate("AB>", hash.as_ref()).unwrap(), false);

    let hash = Some(bind(&[('A', true)]));
    assert_eq!(boolean_operations.evaluate("A!", hash.as_ref()).unwrap(), false);

    let hash = Some(bind(&[('A', true)]));
    assert_eq!(boolean_operations.evaluate("AA=", hash.as_ref()).unwrap(), true);

    let hash = Some(bind(&[('A', false), ('B', true)]));
    assert_eq!(boolean_operations.evaluate("AB^", hash.as_ref()).unwrap(), true);
}

#[test]
fn evaluate_literals() {
    let mut evaluator = ExpressionEvaluator::<bool, BooleanOperations>::new();
    assert_eq!(evaluator.evaluate("10&!", None), Ok(true));
    assert_eq!(evaluator.evaluate("1", None), Ok(true));
    assert_eq!(evaluator.evaluate("0", None), Ok(false));
    assert_eq!(evaluator.evaluate("10&00&00&&&", None), Ok(false));
    assert_eq!(evaluator.evaluate("10&&", None), Err(ParseError::MissingBinaryOperands('&')));
    assert_eq!(evaluator.evaluate("21&", None), Err(ParseError::InvalidCharacter('2')));
}

#[test]
fn evaluate_reports_a_letter_without_a_binding() {
    let mut evaluator = ExpressionEvaluator::<bool, BooleanOperations>::new();
    let bindings = bind(&[('A', true)]);
    assert_eq!(evaluator.evaluate("@AB&C|", Some(&bindings)), Err(ParseError::VariableNotFound('B')));
    // A name that the formula does not use is no error.
    let bindings = bind(&[('A', true), ('Z', false)]);
    assert_eq!(evaluator.evaluate("AA&", Some(&bindings)), Ok(true));
    // With bindings a digit is no operand.
    assert_eq!(evaluator.evaluate("A1&", Some(&bindings)), Err(ParseError::InvalidCharacter('1')));
}

#[test]
fn evaluate_keeps_the_values_of_each_universe_apart() {
    let mut evaluator = ExpressionEvaluator::<bool, BooleanOperations>::new();
    assert_eq!(evaluator.evaluate("10&", None), Ok(false));
    let bindings = bind(&[('A', true), ('B', true)]);
    assert_eq!(evaluator.evaluate("AB&", Some(&bindings)), Ok(true));
    let bindings = bind(&[('A', true), ('B', false)]);
    assert_eq!(evaluator.evaluate("AB&", Some(&bindings)), Ok(false));
    assert_eq!(evaluator.evaluate("10&", None), Ok(false));
    assert_eq!(evaluator.evaluate("11&", None), Ok(true));
    assert_eq!(evaluator.evaluate("11&", None), Ok(true));
}

#[test]
fn bindings_keep_one_value_for_a_name() {
    let mut bindings: Bindings<bool> = Bindings::new();
    assert_eq!(bindings.len(), 0);
    bindings.insert('A', true);
    bindings.insert('B', false);
    bindings.insert('A', false);
    assert_eq!(bindings.len(), 2);
    assert_eq!(bindings.get('A'), Some(&false));
    assert_eq!(bindings.get('B'), Some(&false));
    assert_eq!(bindings.get('C'), None);
    assert!(bindings.contains('B'));
    assert!(!bindings.contains('C'));
    assert_eq!(bindings.values(), vec![false, false]);
}
