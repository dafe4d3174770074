use ready_set_boole::alphabet::check_only_vars;
use ready_set_boole::boolean::BooleanOperations;
use ready_set_boole::evaluator::ExpressionEvaluator;
use ready_set_boole::expr::ExprNode;
use ready_set_boole::operators::{BinaryOperator, UnaryOperator};
use ready_set_boole::parser::{build_tree, ParseError};
use ready_set_boole::value::{LogicValue, ValueType};

fn fresh() -> ExpressionEvaluator<bool, BooleanOperations> {
    ExpressionEvaluator::<bool, BooleanOperations>::new()
}

#[test]
fn build_rejects_malformed_input() {
    let evaluator = fresh();
    assert_eq!(evaluator.build_tree("1&", false, None).unwrap_err(), ParseError::MissingBinaryOperands('&'));
    assert_eq!(evaluator.build_tree("", false, None).unwrap_err(), ParseError::Malformed);
    assert_eq!(evaluator.build_tree("1@", false, None).unwrap_err(), ParseError::InvalidCharacter('@'));
    assert_eq!(evaluator.build_tree("!", false, None).unwrap_err(), ParseError::MissingUnaryOperand('!'));
    assert_eq!(evaluator.build_tree("10", false, None).unwrap_err(), ParseError::Malformed);
    assert_eq!(evaluator.build_tree("A", false, None).unwrap_err(), ParseError::InvalidCharacter('A'));
    assert_eq!(evaluator.build_tree("1", true, None).unwrap_err(), ParseError::InvalidCharacter('1'));
    assert_eq!(evaluator.build_tree("AB&|", true, None).unwrap_err(), ParseError::MissingBinaryOperands('|'));
    assert_eq!(evaluator.build_tree("a", true, None).unwrap_err(), ParseError::InvalidCharacter('a'));
    assert_eq!(evaluator.build_tree("A\u{2c6}", true, None).unwrap_err(), ParseError::InvalidCharacter('\u{2c6}'));
}

#[test]
fn build_reports_the_first_error() {
    assert_eq!(build_tree::<bool>("&@", false, None).unwrap_err(), ParseError::MissingBinaryOperands('&'));
    assert_eq!(build_tree::<bool>("@&", false, None).unwrap_err(), ParseError::InvalidCharacter('@'));
    assert_eq!(build_tree::<bool>("1!&0@", false, None).unwrap_err(), ParseError::MissingBinaryOperands('&'));
}

#[test]
fn errors_have_messages() {
    assert_eq!(ParseError::VariableNotFound('B').message(), "Variable 'B' not found");
    assert_eq!(ParseError::InvalidCharacter('@').message(), "Error: Invalid character '@'");
    assert_eq!(
        ParseError::MissingUnaryOperand('!').message(),
        "Error: Not enough operands for unary operator '!'"
    );
    assert_eq!(
        ParseError::MissingBinaryOperands('&').message(),
        "Error: Not enough operands for binary operator '&'"
    );
    assert_eq!(ParseError::Malformed.message(), "Error: Malformed expression");
}

#[test]
fn build_puts_the_left_operand_first() {
    let tree = build_tree::<bool>("AB>", true, None).unwrap();
    match tree {
        ExprNode::BinaryOp(op, left, right) => {
            assert_eq!(op, BinaryOperator::Implication);
            assert!(matches!(*left, ExprNode::Var('A')));
            assert!(matches!(*right, ExprNode::Var('B')));
        }
        _ => panic!("a binary node was expected"),
    }
    let tree = build_tree::<bool>("1!", false, None).unwrap();
    match tree {
        ExprNode::UnaryOp(op, child) => {
            assert_eq!(op, UnaryOperator::Negation);
            assert!(matches!(*child, ExprNode::Const(true)));
        }
        _ => panic!("a negation was expected"),
    }
}

#[test]
fn postfix_text_is_the_formula_again() {
    let evaluator = fresh();
    let formulas = ["A", "AB&", "AB&C|!", "AB>CD=^!", "AB|C&D|E&F|", "ABCDE&&&&"];
    for formula in formulas {
        let tree = evaluator.build_tree(formula, true, None).unwrap();
        assert_eq!(evaluator.to_rpn(&tree), formula);
    }
    let formulas = ["1", "10&", "10&!", "01>10=^!", "10&!10&!10&!10&!10&!===="];
    for formula in formulas {
        let tree = evaluator.build_tree(formula, false, None).unwrap();
        assert_eq!(evaluator.to_rpn(&tree), formula);
    }
}

#[test]
fn infix_text_puts_nested_nodes_in_parentheses() {
    let evaluator = fresh();
    let text = |formula: &str| evaluator.print_formula(&evaluator.build_tree(formula, true, None).unwrap());
    assert_eq!(text("A"), "A");
    assert_eq!(text("A!"), "\u{ac}A");
    assert_eq!(text("AB&"), "A \u{2227} B");
    assert_eq!(text("AB|"), "A \u{2228} B");
    assert_eq!(text("AB>"), "A > B");
    assert_eq!(text("AB|C&"), "(A \u{2228} B) \u{2227} C");
    assert_eq!(text("AB&C|"), "(A \u{2227} B) \u{2228} C");
    assert_eq!(text("AB&C>"), "A \u{2227} B > C");
    assert_eq!(text("AB>C&"), "(A > B) \u{2227} C");
    assert_eq!(text("AB&!"), "\u{ac}(A \u{2227} B)");
    assert_eq!(text("AB=C^!!"), "\u{ac}\u{ac}(A = B ^ C)");
    let constant = evaluator.build_tree("10&", false, None).unwrap();
    assert_eq!(evaluator.print_formula(&constant), "true \u{2227} false");
    assert_eq!(evaluator.to_rpn(&constant), "10&");
}

#[test]
fn formulas_over_variables_are_told_apart() {
    assert!(check_only_vars("A"));
    assert!(check_only_vars("AB&C|!"));
    assert!(check_only_vars("AZ^>=|&!"));
    assert!(check_only_vars("&"));
    assert!(!check_only_vars(""));
    assert!(!check_only_vars("A1&"));
    assert!(!check_only_vars("10&"));
    assert!(!check_only_vars("ab&"));
    assert!(!check_only_vars("AB& "));
    assert!(!check_only_vars("AB&\n"));
    assert!(!check_only_vars("\nAB&"));
    assert!(!check_only_vars("A\u{2c6}B"));
    assert!(!check_only_vars("A[B"));
    assert!(!check_only_vars("A@B"));
}

#[test]
fn literals_give_their_value_to_the_right_type() {
    assert_eq!(LogicValue { value: ValueType::Bool(true) }.into_bool(), Some(true));
    assert_eq!(LogicValue { value: ValueType::Bool(true) }.into_set(), None);
    assert_eq!(LogicValue { value: ValueType::IntSet(vec![1, 2]) }.into_set(), Some(vec![1, 2]));
    assert_eq!(LogicValue { value: ValueType::IntSet(vec![1, 2]) }.into_bool(), None);
}

#[test]
fn operators_have_their_tokens() {
    let all = [
        (BinaryOperator::Implication, '>'),
        (BinaryOperator::Disjunction, '|'),
        (BinaryOperator::Conjunction, '&'),
        (BinaryOperator::ExclusiveDisjunction, '^'),
        (BinaryOperator::Equivalence, '='),
    ];
    for (op, token) in all {
        assert_eq!(op.symbol(), token);
        assert_eq!(BinaryOperator::from_symbol(token), Some(op));
        assert_eq!(UnaryOperator::from_symbol(token), None);
    }
    assert_eq!(UnaryOperator::Negation.symbol(), '!');
    assert_eq!(UnaryOperator::from_symbol('!'), Some(UnaryOperator::Negation));
    assert_eq!(BinaryOperator::from_symbol('!'), None);
    assert_eq!(BinaryOperator::from_symbol('A'), None);
}

#[test]
fn cache_keys_write_constants_out() {
    let evaluator = fresh();
    let key = |formula: &str| -> String {
        let tree = evaluator.build_tree(formula, false, None).unwrap();
        evaluator.generate_cache_key(&tree).into_iter().collect()
    };
    assert_eq!(key("1"), "true");
    assert_eq!(key("0"), "false");
    assert_eq!(key("1!"), "!true");
    assert_eq!(key("10&"), "(true & false)");
    assert_eq!(key("10&!1>"), "(!(true & false) > true)");
}
