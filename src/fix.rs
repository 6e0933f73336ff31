//! Expressions tagged with the notation they are written in.

use crate::expr::{Expression, Token};
use crate::postfix::{
    count_numbers, count_operations, has_no_parenthesis, is_valid_postfix, validate_postfix,
    FixExpressionError,
};
use vstd::prelude::*;

verus! {

/// Where operations stand relative to their operands.
#[derive(Clone, Copy, Debug, PartialEq, Eq, Structural)]
pub enum Fix {
    Pre,
    In,
    Post,
}

/// An expression and the notation it is written in.
#[derive(Debug, PartialEq)]
pub struct FixExpression {
    pub expression: Expression,
    pub fix: Fix,
}

/// The count check applied to prefix text: a single number passes; otherwise
/// there are no parentheses, every number comes after at least one operation
/// and after at most one number more than operations (itself included), and
/// there is one operation fewer than numbers.
pub open spec fn passes_prefix_check(ts: Seq<Token>) -> bool {
    ||| (ts.len() == 1 && ts[0] is Number)
    ||| {
        &&& has_no_parenthesis(ts)
        &&& forall|i: int|
            0 <= i < ts.len() && #[trigger] ts[i] is Number ==> {
                &&& count_operations(ts.take(i + 1)) >= 1
                &&& count_numbers(ts.take(i + 1)) <= count_operations(ts.take(i + 1)) + 1
            }
        &&& count_operations(ts) == count_numbers(ts) - 1
    }
}

/// The count check for prefix text; see [`passes_prefix_check`].
pub fn validate_prefix(expression: &Expression) -> (r: bool)
    ensures
        r == passes_prefix_check(expression@),
{
    let tokens = &expression.0;
    let ghost ts = expression@;
    let mut op_count: usize = 0;
    let mut num_count: usize = 0;
    let mut i: usize = 0;
    while i < tokens.len()
        invariant
            ts == tokens@,
            ts == expression@,
            i <= tokens.len(),
            num_count == count_numbers(ts.take(i as int)),
            op_count == count_operations(ts.take(i as int)),
            num_count <= i,
            op_count <= i,
            forall|j: int| 0 <= j < i ==> !(#[trigger] ts[j] is Parenthesis),
            tokens.len() == 1 ==> forall|j: int| 0 <= j < i ==> !(#[trigger] ts[j] is Number),
            tokens.len() != 1 ==> forall|j: int|
                0 <= j < i && #[trigger] ts[j] is Number ==> {
                    &&& count_operations(ts.take(j + 1)) >= 1
                    &&& count_numbers(ts.take(j + 1)) <= count_operations(ts.take(j + 1)) + 1
                },
        decreases tokens.len() - i,
    {
        assert(ts.take(i + 1).drop_last() =~= ts.take(i as int));
        match tokens[i] {
            Token::Parenthesis(_) => {
                assert(ts[i as int] is Parenthesis);
                assert(!has_no_parenthesis(ts));
                return false;
            },
            Token::Operation(_) => {
                op_count += 1;
            },
            Token::Number(_) => {
                num_count += 1;
                if tokens.len() == 1 {
                    assert(i == 0);
                    return true;
                } else if op_count == 0 || num_count > op_count + 1 {
                    assert(ts[i as int] is Number);
                    return false;
                }
            },
        }
        i += 1;
    }
    assert(ts.take(i as int) =~= ts);
    if tokens.len() == 1 {
        assert(!(ts[0] is Number));
    }
    num_count > 0 && op_count == num_count - 1
}

impl FixExpression {
    /// Whether the expression passes the check for its notation. Infix text
    /// has no check.
    pub fn validate(&self) -> (r: bool)
        requires
            self.fix != Fix::In,
        ensures
            self.fix == Fix::Pre ==> r == passes_prefix_check(self.expression@),
            self.fix == Fix::Post ==> r == is_valid_postfix(self.expression@),
    {
        match self.fix {
            Fix::Pre => validate_prefix(&self.expression),
            Fix::In => false,
            Fix::Post => validate_postfix(&self.expression),
        }
    }

    /// The expression itself, when it is prefix text that passes the check.
    pub fn as_prefix(&self) -> (r: Result<&FixExpression, FixExpressionError>)
        ensures
            (self.fix == Fix::Pre && passes_prefix_check(self.expression@)) ==> (r matches Ok(e)
                && e == self),
            !(self.fix == Fix::Pre && passes_prefix_check(self.expression@)) ==> r == Err::<
                &FixExpression,
                FixExpressionError,
            >(FixExpressionError::InvalidFixExpression),
    {
        if self.fix == Fix::Pre && self.validate() {
            Ok(self)
        } else {
            Err(FixExpressionError::InvalidFixExpression)
        }
    }
}

} // verus!
