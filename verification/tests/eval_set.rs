use ready_set_boole::algebra::Algebra;
use ready_set_boole::bindings::Bindings;
use ready_set_boole::evaluator::ExpressionEvaluator;
use ready_set_boole::parser::ParseError;
use ready_set_boole::powerset::powerset;
use ready_set_boole::set_algebra::SetOperations;

#[test]
fn eval_set_test_negation() {
    let universal: Vec<Vec<i32>> = vec![vec![1, 2, 3], vec![3, 4, 5]];
    let a = vec![1, 2];

    let result = SetOperations::negation(&a, Some(&universal));

    assert_eq!(result, vec![3, 4, 5]);
    assert_eq!(a, vec![1, 2]);
    assert_eq!(universal[0], vec![1, 2, 3]);

    let universal: Vec<Vec<i32>> = vec![vec![1, 2, 3], vec![3, 4, 5]];
    let a = vec![1, 2, 3, 4, 5];

    let result = SetOperations::negation(&a, Some(&universal));

    assert_eq!(result, vec![]);
    assert_eq!(a, vec![1, 2, 3, 4, 5]);
    assert_eq!(universal[0], vec![1, 2, 3]);
}

#[test]
fn eval_set_test_conjunction() {
    let a = vec![1, 2];
    let b = vec![3, 4, 5];
    assert_eq!(SetOperations::conjunction(&a, &b, None), vec![]);
    assert_eq!(a, vec![1, 2]);
    assert_eq!(b, vec![3, 4, 5]);

    let a = vec![1, 2, 3];
    let b = vec![3, 4, 5];
    assert_eq!(SetOperations::conjunction(&a, &b, None), vec![3]);
    assert_eq!(a, vec![1, 2, 3]);
    assert_eq!(b, vec![3, 4, 5]);

    let a = vec![1, 2, 3];
    let b = vec![1, 2, 3];
    assert_eq!(SetOperations::conjunction(&a, &b, None), vec![1, 2, 3]);
    assert_eq!(a, vec![1, 2, 3]);
    assert_eq!(b, vec![1, 2, 3]);

    let a = vec![1, 2, 3];
    let b = vec![4, 5, 6];
    assert_eq!(SetOperations::conjunction(&a, &b, None), vec![]);
    assert_eq!(a, vec![1, 2, 3]);
    assert_eq!(b, vec![4, 5, 6]);
}

#[test]
fn eval_set_test_disjunction() {
    let a = vec![1, 2];
    let b = vec![3, 4, 5];
    assert_eq!(SetOperations::disjunction(&a, &b, None), vec![1, 2, 3, 4, 5]);
    assert_eq!(a, vec![1, 2]);
    assert_eq!(b, vec![3, 4, 5]);

    let a = vec![1, 2, 3];
    let b = vec![3, 4, 5];
    assert_eq!(SetOperations::disjunction(&a, &b, None), vec![1, 2, 3, 4, 5]);
    assert_eq!(a, vec![1, 2, 3]);
    assert_eq!(b, vec![3, 4, 5]);

    let a = vec![1, 2, 3];
    let b = vec![1, 2, 3];
    assert_eq!(SetOperations::disjunction(&a, &b, None), vec![1, 2, 3]);
    assert_eq!(a, vec![1, 2, 3]);
    assert_eq!(b, vec![1, 2, 3]);
}

#[test]
fn eval_set_test_exclusive_disjunction() {
    let a = vec![1, 2];
    let b = vec![3, 4, 5];
    assert_eq!(SetOperations::exclusive_disjunction(&a, &b, None), vec![1, 2, 3, 4, 5]);
    assert_eq!(a, vec![1, 2]);
    assert_eq!(b, vec![3, 4, 5]);

    let a = vec![1, 2, 3];
    let b = vec![3, 4, 5];
    assert_eq!(SetOperations::exclusive_disjunction(&a, &b, None), vec![1, 2, 4, 5]);
    assert_eq!(a, vec![1, 2, 3]);
    assert_eq!(b, vec![3, 4, 5]);

    let a = vec![1, 2, 3];
    let b = vec![1, 2, 3];
    assert_eq!(SetOperations::exclusive_disjunction(&a, &b, None), vec![]);
    assert_eq!(a, vec![1, 2, 3]);
    assert_eq!(b, vec![1, 2, 3]);
}

#[test]
fn set_implication_joins_the_complement() {
    let universal: Vec<Vec<i32>> = vec![vec![1, 2, 3], vec![3, 4, 5]];
    let a = vec![1, 2];
    let b = vec![3, 4];
    assert_eq!(SetOperations::implication(&a, &b, Some(&universal)), vec![3, 4, 5]);
    assert_eq!(SetOperations::implication(&b, &a, Some(&universal)), vec![1, 2, 5]);
    assert_eq!(a, vec![1, 2]);
    assert_eq!(b, vec![3, 4]);
    assert_eq!(universal[0], vec![1, 2, 3]);
    assert_eq!(universal[1], vec![3, 4, 5]);
}

#[test]
fn eval_set_test_implication() {
    let universal: Vec<Vec<i32>> = vec![vec![1, 2, 3], vec![3, 4, 5]];

    // A = {3,4}, B = {3,4}: each implication is the whole universe, the
    // complement 1, 2, 5 first, and so is what the two have in common.
    let a = vec![3, 4];
    let b = vec![3, 4];
    let result = SetOperations::logical_equivalence(&a, &b, Some(&universal));
    assert_eq!(result, vec![1, 2, 5, 3, 4]);
    assert_eq!(a, vec![3, 4]);
    assert_eq!(b, vec![3, 4]);

    // A = {1,2}, B = {3,4}: A implies B is {3,4,5}, B implies A is
    // {1,2,5}, and the two have 5 in common.
    let a = vec![1, 2];
    let b = vec![3, 4];
    let result = SetOperations::logical_equivalence(&a, &b, Some(&universal));
    assert_eq!(result, vec![5]);

    // Nothing was changed.
    assert_eq!(universal[0], vec![1, 2, 3]);
    assert_eq!(universal[1], vec![3, 4, 5]);
    assert_eq!(a, vec![1, 2]);
    assert_eq!(b, vec![3, 4]);
}

#[test]
fn set_negation_takes_any_universe_with_a_member() {
    let universal: Vec<Vec<i32>> = vec![vec![], vec![7, 7, 8]];
    assert_eq!(SetOperations::negation(&vec![8], Some(&universal)), vec![7]);
}

#[test]
fn set_operations_keep_what_the_lists_repeat() {
    assert_eq!(SetOperations::conjunction(&vec![1, 1, 2], &vec![1, 2], None), vec![1, 2]);
    assert_eq!(SetOperations::disjunction(&vec![1, 1], &vec![2, 2, 1], None), vec![1, 1, 2]);
    assert_eq!(SetOperations::exclusive_disjunction(&vec![1, 1], &vec![2, 2], None), vec![1, 1, 2, 2]);
}

fn bind(pairs: &[(char, Vec<i32>)]) -> Bindings<Vec<i32>> {
    let mut bindings: Bindings<Vec<i32>> = Bindings::new();
    for (name, value) in pairs {
        bindings.insert(*name, value.clone());
    }
    bindings
}

#[test]
fn set_formulas_are_evaluated_with_bindings() {
    let mut evaluator = ExpressionEvaluator::<Vec<i32>, SetOperations>::new();
    let bindings = bind(&[('A', vec![0, 1, 2]), ('B', vec![0, 3, 4])]);
    assert_eq!(evaluator.evaluate("AB&", Some(&bindings)), Ok(vec![0]));
    let mut union = evaluator.evaluate("AB|", Some(&bindings)).unwrap();
    union.sort();
    assert_eq!(union, vec![0, 1, 2, 3, 4]);
    assert_eq!(evaluator.evaluate("A!", Some(&bindings)), Ok(vec![3, 4]));
    assert_eq!(evaluator.evaluate("AB^", Some(&bindings)), Ok(vec![1, 2, 3, 4]));
    assert_eq!(evaluator.evaluate("AB>", Some(&bindings)), Ok(vec![3, 4, 0]));
    assert_eq!(evaluator.evaluate("AB=", Some(&bindings)), Ok(vec![0]));
    assert_eq!(evaluator.evaluate("AB&AB&|", Some(&bindings)), Ok(vec![0]));
    assert_eq!(evaluator.evaluate("AC&", Some(&bindings)), Err(ParseError::VariableNotFound('C')));
}

#[test]
fn set_complement_follows_the_universe_of_each_formula() {
    let mut evaluator = ExpressionEvaluator::<Vec<i32>, SetOperations>::new();
    let small = bind(&[('A', vec![1]), ('B', vec![2])]);
    assert_eq!(evaluator.evaluate("AB&!", Some(&small)), Ok(vec![1, 2]));
    let large = bind(&[('A', vec![1]), ('B', vec![2]), ('C', vec![3])]);
    assert_eq!(evaluator.evaluate("AB&!CC&|", Some(&large)), Ok(vec![1, 2, 3]));
    assert_eq!(evaluator.evaluate("AB&!", Some(&large)), Ok(vec![1, 2, 3]));
}

#[test]
fn set_formulas_have_no_digits() {
    let mut evaluator = ExpressionEvaluator::<Vec<i32>, SetOperations>::new();
    assert_eq!(evaluator.evaluate("10&", None), Err(ParseError::InvalidCharacter('1')));
}

#[test]
fn set_values_are_kept_for_each_universe() {
    let mut evaluator = ExpressionEvaluator::<Vec<i32>, SetOperations>::new();
    let small = bind(&[('A', vec![1]), ('B', vec![2])]);
    let large = bind(&[('A', vec![1]), ('B', vec![2]), ('C', vec![3])]);
    assert_eq!(evaluator.evaluate("A!", Some(&small)), Ok(vec![2]));
    assert_eq!(evaluator.evaluate("A!", Some(&large)), Ok(vec![2, 3]));
    assert_eq!(evaluator.evaluate("A!", Some(&small)), Ok(vec![2]));
    assert_eq!(evaluator.evaluate("A!B|", Some(&large)), Ok(vec![2, 3]));
    assert_eq!(evaluator.evaluate("A!B|", Some(&small)), Ok(vec![2]));
}

#[test]
fn set_constants_are_written_as_lists() {
    let evaluator = ExpressionEvaluator::<Vec<i32>, SetOperations>::new();
    let bindings = bind(&[('A', vec![0, -12, 2147483647]), ('B', vec![]), ('C', vec![-2147483648])]);
    let tree = evaluator.build_tree("AB&C|!", true, Some(&bindings)).unwrap();
    assert_eq!(evaluator.to_rpn(&tree), "[0, -12, 2147483647][]&[-2147483648]|!");
    assert_eq!(
        evaluator.print_formula(&tree),
        "\u{ac}(([0, -12, 2147483647] \u{2227} []) \u{2228} [-2147483648])"
    );
}

#[test]
fn test_powerset() {
    let set = vec![1, 2, 3];
    let mut expected: Vec<Vec<i32>> = vec![
        vec![],
        vec![1],
        vec![2],
        vec![3],
        vec![1, 2],
        vec![1, 3],
        vec![2, 3],
        vec![1, 2, 3],
    ];
    let mut result = powerset(&set);
    assert_eq!(result.sort(), expected.sort());

    let set = vec![1];
    let mut expected: Vec<Vec<i32>> = vec![vec![], vec![1]];
    let mut result: Vec<Vec<i32>> = powerset(&set);
    assert_eq!(result.sort(), expected.sort());

    let set = vec![1, 2, 3, 4];
    let mut expected: Vec<Vec<i32>> = vec![
        vec![],
        vec![1],
        vec![2],
        vec![3],
        vec![4],
        vec![1, 2],
        vec![1, 3],
        vec![1, 4],
        vec![2, 3],
        vec![2, 4],
        vec![3, 4],
        vec![1, 2, 3],
        vec![1, 2, 4],
        vec![1, 3, 4],
        vec![2, 3, 4],
        vec![1, 2, 3, 4],
    ];
    let mut result: Vec<Vec<i32>> = powerset(&set);
    assert_eq!(result.sort(), expected.sort());
}

#[test]
fn powerset_lists_each_subset_once() {
    assert_eq!(powerset(&vec![]), vec![Vec::<i32>::new()]);
    assert_eq!(
        powerset(&vec![1, 2, 3]),
        vec![vec![], vec![1], vec![2], vec![1, 2], vec![3], vec![1, 3], vec![2, 3], vec![1, 2, 3]]
    );
    assert_eq!(powerset(&vec![5, 5]), vec![vec![], vec![5], vec![5], vec![5, 5]]);
    assert_eq!(powerset(&vec![9, 8, 7, 6, 5, 4, 3, 2, 1, 0]).len(), 1024);
}
