use vorderman::expr::{Expression, LexError, Operation, Parenthesis, Token};
use vorderman::postfix::{FixExpressionError, PostfixExpression};
use vorderman::rational::Rational;

fn lexed(input: &str) -> Expression {
    Expression::from_str(input).unwrap()
}

fn postfix(input: &str) -> PostfixExpression {
    PostfixExpression(lexed(input))
}

#[test]
fn lex_simple_addition() {
    assert_eq!(
        lexed("1+2"),
        Expression(vec![Token::Number(1), Token::Operation(Operation::Add), Token::Number(2)])
    );
}

#[test]
fn lex_double_digit_addition() {
    assert_eq!(
        lexed("12 + 34"),
        Expression(vec![Token::Number(12), Token::Operation(Operation::Add), Token::Number(34)])
    );
}

#[test]
fn lex_nested_operation_with_unusual_spacing() {
    assert_eq!(
        lexed("1  *(2 -3) "),
        Expression(vec![
            Token::Number(1),
            Token::Operation(Operation::Multiply),
            Token::Parenthesis(Parenthesis::Open),
            Token::Number(2),
            Token::Operation(Operation::Subtract),
            Token::Number(3),
            Token::Parenthesis(Parenthesis::Close),
        ])
    );
}

#[test]
fn lex_another_nested_operation_with_unusual_spacing() {
    assert_eq!(
        lexed("12 *(345/ 6789)"),
        Expression(vec![
            Token::Number(12),
            Token::Operation(Operation::Multiply),
            Token::Parenthesis(Parenthesis::Open),
            Token::Number(345),
            Token::Operation(Operation::Divide),
            Token::Number(6789),
            Token::Parenthesis(Parenthesis::Close),
        ])
    );
}

#[test]
fn lex_example_postfix_expression() {
    assert_eq!(
        lexed("1 23  345 +  + "),
        Expression(vec![
            Token::Number(1),
            Token::Number(23),
            Token::Number(345),
            Token::Operation(Operation::Add),
            Token::Operation(Operation::Add),
        ])
    );
}

#[test]
fn bad_lex_char() {
    let input = "(1+ 2/ 3** a 51 x)";
    assert_eq!(
        Expression::from_str(input),
        Err(LexError::InvalidCharacterAtIndex(11, 'a'))
    )
}

#[test]
fn expr_bad_lex_char() {
    let input = "(1+ 2/ 3** a 51 x)";
    assert_eq!(
        Expression::from_str(input),
        Err(LexError::InvalidCharacterAtIndex(11, 'a'))
    )
}

#[test]
fn lex_error_index_counts_from_trimmed_text() {
    assert_eq!(
        Expression::from_str("  1 2 \t"),
        Ok(Expression(vec![Token::Number(1), Token::Number(2)]))
    );
    assert_eq!(
        Expression::from_str("  1 % 2"),
        Err(LexError::InvalidCharacterAtIndex(2, '%'))
    );
}

#[test]
fn lex_empty_text() {
    assert_eq!(Expression::from_str("   "), Ok(Expression(vec![])));
    assert_eq!(Expression::new(), Expression(vec![]));
}

#[test]
fn lex_leading_zeros() {
    assert_eq!(lexed("007"), Expression(vec![Token::Number(7)]));
}

#[test]
fn operation_and_parenthesis_from_char() {
    assert_eq!(Operation::try_from('*'), Ok(Operation::Multiply));
    assert_eq!(Operation::try_from('x'), Err(LexError::InvalidCharacter('x')));
    assert_eq!(Parenthesis::try_from(')'), Ok(Parenthesis::Close));
    assert_eq!(Parenthesis::try_from('['), Err(LexError::InvalidCharacter('[')));
    assert_eq!(Operation::Divide.symbol(), '/');
    assert_eq!(Parenthesis::Open.symbol(), '(');
}

#[test]
fn to_str_simple_addition() {
    assert_eq!(lexed("1+2").to_string(), "1 + 2".to_string());
}

#[test]
fn to_str_double_digit_addition() {
    assert_eq!(lexed("12 + 34").to_string(), "12 + 34".to_string());
}

#[test]
fn to_str_nested_operation_with_unusual_spacing() {
    assert_eq!(lexed("1  *(2 -3) ").to_string(), "1 * ( 2 - 3 )".to_string());
}

#[test]
fn to_str_another_nested_operation_with_unusual_spacing() {
    assert_eq!(
        lexed("12 *(345/ 6789)  ").to_string(),
        "12 * ( 345 / 6789 )".to_string()
    );
}

#[test]
fn to_str_example_postfix_expression() {
    assert_eq!(lexed("1 23  345 + + ").to_string(), "1 23 345 + +".to_string());
}

#[test]
fn to_str_zero_and_large_number() {
    assert_eq!(
        Expression(vec![Token::Number(0), Token::Number(1234567890)]).to_string(),
        "0 1234567890".to_string()
    );
}

#[test]
fn render_then_lex_gives_the_same_tokens() {
    for input in ["1+2", "12 *(345/ 6789)", " 007 - (10)", "1 23  345 +  + ", ""] {
        let tokens = lexed(input);
        assert_eq!(lexed(&tokens.to_string()), tokens);
    }
}

#[test]
fn validate_postfix_single_number() {
    assert!(postfix("1").validate());
}

#[test]
fn validate_postfix_simple_addition() {
    assert!(postfix("1 2 +").validate());
}

#[test]
fn validate_postfix_double_digit_addition() {
    assert!(postfix("12 34 +").validate());
}

#[test]
fn validate_postfix_nested_operation() {
    assert!(postfix("1 2 3 - *").validate());
}

#[test]
fn validate_postfix_another_nested_operation() {
    assert!(postfix("12 345 6789 / *").validate());
}

#[test]
fn validate_postfix_rejects_prefix_order() {
    assert!(!postfix("+ + 1 23 345").validate());
}

#[test]
fn validate_postfix_rejects_infix() {
    assert!(!postfix("1 * 2 - 3").validate());
}

#[test]
fn validate_postfix_rejects_parentheses() {
    assert!(!postfix("1 * (2 - 3)").validate());
    assert!(!postfix("1 2 ( +").validate());
}

#[test]
fn validate_postfix_rejects_empty_and_unbalanced() {
    assert!(!postfix("").validate());
    assert!(!postfix("+").validate());
    assert!(!postfix("1 2").validate());
    assert!(!postfix("1 2 + +").validate());
}

#[test]
fn evaluate_simple_addition() {
    assert_eq!(postfix("1 2 +").evaluate(), Ok(Rational::from_integer(3)));
}

#[test]
fn evaluate_nested_subtraction() {
    assert_eq!(postfix("1 2 3 - *").evaluate(), Ok(Rational::from_integer(-1)));
}

#[test]
fn evaluate_exact_fraction() {
    let value = postfix("12 345 6789 / *").evaluate().unwrap();
    assert_eq!(value, Rational::new(12 * 345, 6789));
    assert_eq!(value.numer(), 1380);
    assert_eq!(value.denom(), 2263);
}

#[test]
fn evaluate_left_operand_first() {
    assert_eq!(postfix("8 2 /").evaluate(), Ok(Rational::from_integer(4)));
    assert_eq!(postfix("2 8 -").evaluate(), Ok(Rational::from_integer(-6)));
    assert_eq!(postfix("1 4 / 5 + 8 *").evaluate(), Ok(Rational::from_integer(42)));
}

#[test]
fn evaluate_invalid_expression() {
    assert_eq!(
        postfix("1 * 2").evaluate(),
        Err(FixExpressionError::InvalidFixExpression)
    );
}

#[test]
fn evaluate_division_by_zero() {
    assert_eq!(
        postfix("1 2 2 - /").evaluate(),
        Err(FixExpressionError::DivisionByZero)
    );
}
