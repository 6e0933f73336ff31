use vorderman::expr::{Expression, Operation, Token};
use vorderman::fix::{validate_prefix, Fix, FixExpression};
use vorderman::postfix::FixExpressionError;
use vorderman::rational::Rational;
use vorderman::tree::{parse, ExpressionTree};

fn fixed(input: &str, fix: Fix) -> FixExpression {
    FixExpression {
        expression: Expression::from_str(input).unwrap(),
        fix,
    }
}

#[test]
fn validate_prefix_single_number() {
    assert_eq!(fixed("1", Fix::Pre).validate(), true);
}

#[test]
fn validate_prefix_simple_addition() {
    assert_eq!(fixed("+ 1 2", Fix::Pre).validate(), true);
}

#[test]
fn validate_prefix_double_digit_addition() {
    assert_eq!(fixed("+ 12 34", Fix::Pre).validate(), true);
}

#[test]
fn validate_prefix_nested_operation() {
    assert_eq!(fixed("* 1 - 2 3", Fix::Pre).validate(), true);
}

#[test]
fn validate_prefix_another_nested_operation() {
    assert_eq!(fixed("* 12 / 345 6789", Fix::Pre).validate(), true);
}

#[test]
fn validate_prefix_postfix_expression() {
    assert_eq!(fixed("1 23 345 + +", Fix::Pre).validate(), false);
}

#[test]
fn validate_prefix_simple_infix_expression() {
    assert_eq!(fixed("1 * 2 - 3", Fix::Pre).validate(), false);
}

#[test]
fn validate_prefix_nested_infix_expression() {
    assert_eq!(fixed("1 * (2 - 3)", Fix::Pre).validate(), false);
}

#[test]
fn validate_fixed_postfix_single_number() {
    assert_eq!(fixed("1", Fix::Post).validate(), true);
}

#[test]
fn validate_fixed_postfix_simple_addition() {
    assert_eq!(fixed("1 2 +", Fix::Post).validate(), true);
}

#[test]
fn validate_fixed_postfix_double_digit_addition() {
    assert_eq!(fixed("12 34 +", Fix::Post).validate(), true);
}

#[test]
fn validate_fixed_postfix_nested_operation() {
    assert_eq!(fixed("1 2 3 - *", Fix::Post).validate(), true);
}

#[test]
fn validate_fixed_postfix_another_nested_operation() {
    assert_eq!(fixed("12 345 6789 / *", Fix::Post).validate(), true);
}

#[test]
fn validate_fixed_postfix_prefix_expression() {
    assert_eq!(fixed("+ + 1 23 345", Fix::Post).validate(), false);
}

#[test]
fn validate_fixed_postfix_simple_infix_expression() {
    assert_eq!(fixed("1 * 2 - 3", Fix::Post).validate(), false);
}

#[test]
fn validate_fixed_postfix_nested_infix_expression() {
    assert_eq!(fixed("1 * (2 - 3)", Fix::Post).validate(), false);
}

#[test]
fn tree_eval_single_number() {
    let tree = ExpressionTree::try_from(fixed("1", Fix::Pre)).unwrap();
    assert_eq!(tree.evaluate(), Ok(Rational::from_integer(1)));
}

#[test]
fn tree_e2e_single_number() {
    let tree = ExpressionTree::try_from(fixed("1", Fix::Pre)).unwrap();
    assert_eq!(FixExpression::from_tree(tree).expression.to_string(), "1".to_string());
}

#[test]
fn tree_eval_simple_addition() {
    let tree = ExpressionTree::try_from(fixed("+ 1 2", Fix::Pre)).unwrap();
    assert_eq!(tree.evaluate(), Ok(Rational::from_integer(3)));
}

#[test]
fn tree_e2e_simple_addition() {
    let tree = ExpressionTree::try_from(fixed("+ 1 2", Fix::Pre)).unwrap();
    assert_eq!(FixExpression::from_tree(tree).expression.to_string(), "+ 1 2".to_string());
}

#[test]
fn tree_eval_double_digit_addition() {
    let tree = ExpressionTree::try_from(fixed("+ 12 34", Fix::Pre)).unwrap();
    assert_eq!(tree.evaluate(), Ok(Rational::from_integer(46)));
}

#[test]
fn tree_e2e_double_digit_addition() {
    let tree = ExpressionTree::try_from(fixed("+ 12 34", Fix::Pre)).unwrap();
    assert_eq!(FixExpression::from_tree(tree).expression.to_string(), "+ 12 34".to_string());
}

#[test]
fn tree_eval_nested_operation() {
    let tree = ExpressionTree::try_from(fixed("* 1 - 2 3", Fix::Pre)).unwrap();
    assert_eq!(tree.evaluate(), Ok(Rational::from_integer(-1)));
}

#[test]
fn tree_e2e_nested_operation() {
    let tree = ExpressionTree::try_from(fixed("* 1 - 2 3", Fix::Pre)).unwrap();
    assert_eq!(FixExpression::from_tree(tree).expression.to_string(), "* 1 - 2 3".to_string());
}

#[test]
fn tree_eval_another_nested_operation() {
    let tree = ExpressionTree::try_from(fixed("* 12 / 345 6789", Fix::Pre)).unwrap();
    assert_eq!(tree.evaluate(), Ok(Rational::new(12 * 345, 6789)));
}

#[test]
fn tree_e2e_another_nested_operation() {
    let tree = ExpressionTree::try_from(fixed("* 12 / 345 6789", Fix::Pre)).unwrap();
    assert_eq!(FixExpression::from_tree(tree).expression.to_string(), "* 12 / 345 6789".to_string());
}

#[test]
fn tree_eval_long_expression() {
    let tree = ExpressionTree::try_from(fixed("/ / + 3 + 7 * 2 2 2 2", Fix::Pre)).unwrap();
    assert_eq!(tree.evaluate(), Ok(Rational::new(7, 2)));
}

#[test]
fn tree_e2e_long_expression() {
    let tree = ExpressionTree::try_from(fixed("/ / + 3 + 7 * 2 2 2 2", Fix::Pre)).unwrap();
    assert_eq!(FixExpression::from_tree(tree).expression.to_string(), "/ / + 3 + 7 * 2 2 2 2".to_string());
}

#[test]
fn tree_eval_another_long_expression() {
    let tree = ExpressionTree::try_from(fixed("- * 12 / / + 3 + 7 * 2 2 2 2 / 9 4", Fix::Pre)).unwrap();
    assert_eq!(tree.evaluate(), Ok(Rational::new(159, 4)));
}

#[test]
fn tree_e2e_another_long_expression() {
    let tree = ExpressionTree::try_from(fixed("- * 12 / / + 3 + 7 * 2 2 2 2 / 9 4", Fix::Pre)).unwrap();
    assert_eq!(FixExpression::from_tree(tree).expression.to_string(), "- * 12 / / + 3 + 7 * 2 2 2 2 / 9 4".to_string());
}

#[test]
fn prefix_check_counts_only() {
    let e = Expression::from_str("+ 1 2 - 3").unwrap();
    assert!(validate_prefix(&e));
    let tree = ExpressionTree::try_from(fixed("+ 1 2 - 3", Fix::Pre)).unwrap();
    assert_eq!(
        tree.as_tokens(),
        vec![Token::Operation(Operation::Add), Token::Number(1), Token::Number(2)]
    );
}

#[test]
fn as_prefix_rejects_other_notations() {
    let post = fixed("1 2 +", Fix::Post);
    assert_eq!(post.as_prefix(), Err(FixExpressionError::InvalidFixExpression));
    let bad = fixed("+ 1", Fix::Pre);
    assert_eq!(bad.as_prefix(), Err(FixExpressionError::InvalidFixExpression));
    let good = fixed("+ 1 2", Fix::Pre);
    assert_eq!(good.as_prefix(), Ok(&good));
    assert!(matches!(
        ExpressionTree::try_from(fixed("1 2 +", Fix::Pre)),
        Err(FixExpressionError::InvalidFixExpression)
    ));
}

#[test]
fn parse_reports_size() {
    let tokens = Expression::from_str("* 1 - 2 3 9").unwrap().0;
    let sized = parse(&tokens, 0).unwrap();
    assert_eq!(sized.size, 5);
    assert!(parse(&tokens, 5).unwrap().size == 1);
    let short = Expression::from_str("+ 1").unwrap().0;
    assert!(parse(&short, 0).is_none());
}

#[test]
fn tree_division_by_zero() {
    let tree = ExpressionTree::try_from(fixed("/ 1 - 2 2", Fix::Pre)).unwrap();
    assert_eq!(tree.evaluate(), Err(FixExpressionError::DivisionByZero));
}
