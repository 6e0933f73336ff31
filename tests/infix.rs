use vorderman::expr::Operation;
use vorderman::infix::{
    find_next_operation, operation_from_char, Edge, LinkedExpression, Node, Operand,
    OperationError, ParseExpressionError, VecExpression,
};

#[test]
fn linked_expression_to_string() {
    let expr = LinkedExpression(
        Node::Number(1),
        Some(Edge {
            operation: Operation::Add,
            operand: Box::new(LinkedExpression(
                Node::Number(2),
                Some(Edge {
                    operation: Operation::Subtract,
                    operand: Box::new(LinkedExpression(Node::Number(3), None)),
                }),
            )),
        }),
    );

    assert_eq!(expr.to_string(), "1 + 2 - 3");
}

#[test]
fn nested_linked_expression_to_string() {
    let inner_expr = LinkedExpression(
        Node::Number(2),
        Some(Edge {
            operation: Operation::Subtract,
            operand: Box::new(LinkedExpression(Node::Number(3), None)),
        }),
    );

    let outer_expr = LinkedExpression(
        Node::Number(1),
        Some(Edge {
            operation: Operation::Add,
            operand: Box::new(LinkedExpression(
                Node::Expression(Box::new(inner_expr)),
                Some(Edge {
                    operation: Operation::Multiply,
                    operand: Box::new(LinkedExpression(
                        Node::Number(4),
                        Some(Edge {
                            operation: Operation::Divide,
                            operand: Box::new(LinkedExpression(Node::Number(5), None)),
                        }),
                    )),
                }),
            )),
        }),
    );

    assert_eq!(outer_expr.to_string(), "1 + (2 - 3) * 4 / 5");
}

#[test]
fn vec_expression_to_string() {
    let operands = vec![
        Operand::Number(1),
        Operand::Number(2),
        Operand::Number(3),
        Operand::Number(4),
        Operand::Number(5),
    ];
    let operations = vec![
        Operation::Add,
        Operation::Subtract,
        Operation::Multiply,
        Operation::Divide,
    ];
    let expr = VecExpression {
        operands,
        operations,
    };

    assert_eq!(expr.to_string(), "1 + 2 - 3 * 4 / 5");
}

#[test]
fn nested_vec_expression_to_string() {
    let inner_nodes = vec![Operand::Number(2), Operand::Number(3)];
    let inner_edges = vec![Operation::Subtract];
    let inner_expr = VecExpression {
        operands: inner_nodes,
        operations: inner_edges,
    };
    let outer_nodes = vec![
        Operand::Number(1),
        Operand::Expression(Box::new(inner_expr)),
        Operand::Number(4),
        Operand::Number(5),
    ];
    let outer_edges = vec![Operation::Add, Operation::Multiply, Operation::Divide];
    let expr = VecExpression {
        operands: outer_nodes,
        operations: outer_edges,
    };

    assert_eq!(expr.to_string(), "1 + (2 - 3) * 4 / 5");
}

#[test]
fn vec_expression_single_and_empty() {
    let mut expr = VecExpression::new();
    assert_eq!(expr.to_string(), "");
    expr.operands.push(Operand::Number(0));
    assert_eq!(expr.to_string(), "0");
}

#[test]
fn next_operation_after_spaces() {
    let next = find_next_operation("   x 3").unwrap();
    assert_eq!(next.object, Operation::Multiply);
    assert_eq!(next.end_char_index, 3);
    let next = find_next_operation("/").unwrap();
    assert_eq!(next.object, Operation::Divide);
    assert_eq!(next.end_char_index, 0);
}

#[test]
fn next_operation_errors() {
    assert!(matches!(
        find_next_operation("    "),
        Err(ParseExpressionError::NotEnoughOperations)
    ));
    assert!(matches!(
        find_next_operation("  7 +"),
        Err(ParseExpressionError::InvalidCharacter('7', 2))
    ));
}

#[test]
fn infix_operation_characters() {
    assert_eq!(operation_from_char('x'), Ok(Operation::Multiply));
    assert_eq!(operation_from_char('-'), Ok(Operation::Subtract));
    assert_eq!(operation_from_char('%'), Err(OperationError::InvalidOperation('%')));
}
