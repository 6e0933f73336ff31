//! Postfix expressions: validity and evaluation by a left-to-right stack pass.

use crate::expr::{frac_apply, Expression, Operation, Token};
use crate::rational::{
    frac_is_zero, frac_of_int, i64_max, lemma_div_weight, lemma_op_weight, weight, wf_frac, Rational,
};
use vstd::prelude::*;

verus! {

#[derive(Clone, Copy, Debug, PartialEq, Eq, Structural)]
pub enum FixExpressionError {
    /// The tokens do not form a valid postfix expression.
    InvalidFixExpression,
    /// Some division met a zero divisor.
    DivisionByZero,
}

pub open spec fn count_numbers(ts: Seq<Token>) -> int
    decreases ts.len(),
{
    if ts.len() == 0 {
        0
    } else {
        count_numbers(ts.drop_last()) + if ts.last() is Number {
            1int
        } else {
            0int
        }
    }
}

pub open spec fn count_operations(ts: Seq<Token>) -> int
    decreases ts.len(),
{
    if ts.len() == 0 {
        0
    } else {
        count_operations(ts.drop_last()) + if ts.last() is Operation {
            1int
        } else {
            0int
        }
    }
}

pub open spec fn has_no_parenthesis(ts: Seq<Token>) -> bool {
    forall|i: int| 0 <= i < ts.len() ==> !(#[trigger] ts[i] is Parenthesis)
}

/// Every non-empty prefix holds more numbers than operations.
pub open spec fn prefixes_have_operands(ts: Seq<Token>) -> bool {
    forall|k: int|
        1 <= k <= ts.len() ==> count_numbers(#[trigger] ts.take(k)) > count_operations(ts.take(k))
}

/// Valid postfix: no parentheses, every non-empty prefix holds more numbers
/// than operations, and there is one operation fewer than numbers.
pub open spec fn is_valid_postfix(ts: Seq<Token>) -> bool {
    &&& has_no_parenthesis(ts)
    &&& prefixes_have_operands(ts)
    &&& count_operations(ts) == count_numbers(ts) - 1
}

/// One step of the stack machine.
pub open spec fn eval_step(st: Seq<(int, int)>, t: Token) -> Option<Seq<(int, int)>> {
    match t {
        Token::Number(n) => Some(st.push(frac_of_int(n as int))),
        Token::Operation(op) => {
            if st.len() < 2 {
                None
            } else {
                let a = st[st.len() - 2];
                let b = st[st.len() - 1];
                if op == Operation::Divide && frac_is_zero(b) {
                    None
                } else {
                    Some(st.take(st.len() - 2).push(frac_apply(op, a, b)))
                }
            }
        },
        Token::Parenthesis(_) => None,
    }
}

/// The stack after running the machine over `ts`; `None` where a step fails.
pub open spec fn eval_stack(ts: Seq<Token>) -> Option<Seq<(int, int)>>
    decreases ts.len(),
{
    if ts.len() == 0 {
        Some(Seq::empty())
    } else {
        match eval_stack(ts.drop_last()) {
            Some(st) => eval_step(st, ts.last()),
            None => None,
        }
    }
}

/// The value of `ts`: the one value left on the stack.
pub open spec fn postfix_value(ts: Seq<Token>) -> Option<(int, int)> {
    match eval_stack(ts) {
        Some(st) => if st.len() == 1 {
            Some(st[0])
        } else {
            None
        },
        None => None,
    }
}

/// Product of `n + 1` over the numbers of `ts`: a bound on the weight of any
/// value the machine builds from them.
pub open spec fn number_weight(ts: Seq<Token>) -> int
    decreases ts.len(),
{
    if ts.len() == 0 {
        1
    } else {
        number_weight(ts.drop_last()) * match ts.last() {
            Token::Number(n) => n + 1,
            _ => 1,
        }
    }
}

/// Product of the weights of the values on a stack.
pub open spec fn stack_weight(st: Seq<(int, int)>) -> int
    decreases st.len(),
{
    if st.len() == 0 {
        1
    } else {
        stack_weight(st.drop_last()) * weight(st.last())
    }
}

pub open spec fn denominators_positive(st: Seq<(int, int)>) -> bool {
    forall|j: int| 0 <= j < st.len() ==> (#[trigger] st[j]).1 > 0
}

pub open spec fn values(v: Seq<Rational>) -> Seq<(int, int)> {
    v.map_values(|x: Rational| x@)
}

pub proof fn lemma_stack_weight_positive(st: Seq<(int, int)>)
    requires
        denominators_positive(st),
    ensures
        stack_weight(st) >= 1,
    decreases st.len(),
{
    if st.len() > 0 {
        lemma_stack_weight_positive(st.drop_last());
        let w = weight(st.last());
        assert(w >= 1);
        let p = stack_weight(st.drop_last());
        assert(p * w >= 1) by (nonlinear_arith)
            requires
                p >= 1,
                w >= 1,
        ;
    }
}

/// The two values on top of a stack weigh together at most the whole stack.
pub proof fn lemma_top_two_fit(st: Seq<(int, int)>)
    requires
        st.len() >= 2,
        denominators_positive(st),
    ensures
        weight(st[st.len() - 2]) * weight(st[st.len() - 1]) <= stack_weight(st),
{
    let d1 = st.drop_last();
    let d2 = d1.drop_last();
    lemma_stack_weight_positive(d2);
    let p = stack_weight(d2);
    let a = weight(st[st.len() - 2]);
    let b = weight(st[st.len() - 1]);
    assert(d1.last() == st[st.len() - 2]);
    assert(d1.len() > 0);
    assert(stack_weight(st) == stack_weight(d1) * b);
    assert(stack_weight(d1) == p * a);
    assert(a * b <= p * a * b) by (nonlinear_arith)
        requires
            p >= 1,
            a >= 1,
            b >= 1,
    ;
}

pub proof fn lemma_number_weight_prefix(ts: Seq<Token>, i: int)
    requires
        0 <= i <= ts.len(),
    ensures
        1 <= number_weight(ts.take(i)) <= number_weight(ts),
    decreases ts.len(),
{
    if i == ts.len() {
        assert(ts.take(i) =~= ts);
        lemma_number_weight_positive(ts);
    } else {
        lemma_number_weight_prefix(ts.drop_last(), i);
        assert(ts.drop_last().take(i) =~= ts.take(i));
        let p = number_weight(ts.drop_last());
        let f = match ts.last() {
            Token::Number(n) => n + 1,
            _ => 1,
        };
        assert(p <= p * f) by (nonlinear_arith)
            requires
                p >= 1,
                f >= 1,
        ;
    }
}

pub proof fn lemma_number_weight_positive(ts: Seq<Token>)
    ensures
        number_weight(ts) >= 1,
    decreases ts.len(),
{
    if ts.len() > 0 {
        lemma_number_weight_positive(ts.drop_last());
        let p = number_weight(ts.drop_last());
        let f = match ts.last() {
            Token::Number(n) => n + 1,
            _ => 1,
        };
        assert(p * f >= 1) by (nonlinear_arith)
            requires
                p >= 1,
                f >= 1,
        ;
    }
}

/// What the machine builds: as many values as numbers less operations, each
/// with a positive denominator, weighing together at most the numbers do.
pub proof fn lemma_eval_stack_shape(ts: Seq<Token>)
    requires
        eval_stack(ts) is Some,
    ensures
        eval_stack(ts).unwrap().len() == count_numbers(ts) - count_operations(ts),
        denominators_positive(eval_stack(ts).unwrap()),
        stack_weight(eval_stack(ts).unwrap()) <= number_weight(ts),
    decreases ts.len(),
{
    if ts.len() > 0 {
        let prev = ts.drop_last();
        lemma_eval_stack_shape(prev);
        let st = eval_stack(prev).unwrap();
        let st2 = eval_stack(ts).unwrap();
        lemma_stack_weight_positive(st);
        match ts.last() {
            Token::Number(n) => {
                assert(st2.drop_last() =~= st);
                let p = stack_weight(st);
                let q = number_weight(prev);
                assert(p * (n + 1) <= q * (n + 1)) by (nonlinear_arith)
                    requires
                        p <= q,
                        n >= 0,
                ;
            },
            Token::Operation(op) => {
                let rest = st.take(st.len() - 2);
                let a = st[st.len() - 2];
                let b = st[st.len() - 1];
                assert(denominators_positive(rest));
                lemma_stack_weight_positive(rest);
                lemma_op_weight(a, b);
                if op == Operation::Divide && !frac_is_zero(b) {
                    lemma_div_weight(a, b);
                }
                let r = frac_apply(op, a, b);
                assert(st2.drop_last() =~= rest);
                assert(st.drop_last().drop_last() =~= rest);
                assert(st.drop_last().last() == a);
                let p = stack_weight(rest);
                let wa = weight(a);
                let wb = weight(b);
                let wr = weight(r);
                assert(stack_weight(st) == stack_weight(st.drop_last()) * wb);
                assert(stack_weight(st.drop_last()) == p * wa);
                assert(p * wr <= p * wa * wb) by (nonlinear_arith)
                    requires
                        p >= 1,
                        wr <= wa * wb,
                ;
            },
            Token::Parenthesis(_) => {},
        }
    }
}

/// A failed step stays failed.
pub proof fn lemma_eval_stack_none(ts: Seq<Token>, i: int)
    requires
        0 <= i <= ts.len(),
        eval_stack(ts.take(i)) is None,
    ensures
        eval_stack(ts) is None,
    decreases ts.len() - i,
{
    if i < ts.len() {
        assert(ts.take(i + 1).drop_last() =~= ts.take(i));
        lemma_eval_stack_none(ts, i + 1);
    } else {
        assert(ts.take(i) =~= ts);
    }
}

/// Whether the tokens form a valid postfix expression, by one left-to-right
/// count of numbers and operations.
pub fn validate_postfix(expression: &Expression) -> (r: bool)
    ensures
        r == is_valid_postfix(expression@),
{
    let tokens = &expression.0;
    assert(tokens@ == expression@);
    let mut op_count: usize = 0;
    let mut num_count: usize = 0;
    let mut i: usize = 0;
    while i < tokens.len()
        invariant
            tokens@ == expression@,
            i <= tokens.len(),
            num_count == count_numbers(tokens@.take(i as int)),
            op_count == count_operations(tokens@.take(i as int)),
            num_count <= i,
            op_count <= i,
            forall|j: int| 0 <= j < i ==> !(#[trigger] tokens@[j] is Parenthesis),
            forall|k: int|
                1 <= k <= i ==> count_numbers(#[trigger] tokens@.take(k)) > count_operations(
                    tokens@.take(k),
                ),
        decreases tokens.len() - i,
    {
        assert(tokens@.take(i + 1).drop_last() =~= tokens@.take(i as int));
        match tokens[i] {
            Token::Parenthesis(_) => {
                assert(tokens@[i as int] is Parenthesis);
                return false;
            },
            Token::Operation(_) => {
                op_count += 1;
                if num_count <= op_count {
                    assert(count_numbers(tokens@.take(i + 1)) <= count_operations(
                        tokens@.take(i + 1),
                    ));
                    return false;
                }
            },
            Token::Number(_) => {
                num_count += 1;
            },
        }
        i += 1;
    }
    assert(tokens@.take(i as int) =~= tokens@);
    op_count + 1 == num_count
}


/// A postfix expression: an expression read in postfix order.
#[derive(Clone, Debug, PartialEq, Eq)]
pub struct PostfixExpression(pub Expression);

impl View for PostfixExpression {
    type V = Seq<Token>;

    open spec fn view(&self) -> Seq<Token> {
        self.0@
    }
}

impl PostfixExpression {
    /// Whether the tokens form a valid postfix expression.
    pub fn validate(&self) -> (r: bool)
        ensures
            r == is_valid_postfix(self@),
    {
        validate_postfix(&self.0)
    }

    /// The exact value of the expression, by a single stack pass.
    pub fn evaluate(&self) -> (r: Result<Rational, FixExpressionError>)
        requires
            number_weight(self@) <= i64_max(),
        ensures
            !is_valid_postfix(self@) ==> r == Err::<Rational, FixExpressionError>(
                FixExpressionError::InvalidFixExpression,
            ),
            is_valid_postfix(self@) ==> match postfix_value(self@) {
                Some(v) => r matches Ok(x) && x@ == v,
                None => r == Err::<Rational, FixExpressionError>(
                    FixExpressionError::DivisionByZero,
                ),
            },
    {
        if !self.validate() {
            return Err(FixExpressionError::InvalidFixExpression);
        }
        let tokens = &self.0.0;
        let ghost ts = self@;
        let mut stack: Vec<Rational> = Vec::new();
        let mut i: usize = 0;
        assert(ts.take(0) =~= Seq::<Token>::empty());
        assert(values(stack@) =~= Seq::<(int, int)>::empty());
        while i < tokens.len()
            invariant
                ts == tokens@,
                ts == self@,
                i <= tokens.len(),
                is_valid_postfix(ts),
                number_weight(ts) <= i64_max(),
                eval_stack(ts.take(i as int)) == Some(values(stack@)),
                forall|j: int| 0 <= j < stack.len() ==> wf_frac(#[trigger] stack@[j]@),
            decreases tokens.len() - i,
        {
            let ghost prefix = ts.take(i as int);
            let ghost next = ts.take(i + 1);
            assert(next.drop_last() =~= prefix);
            assert(next.last() == ts[i as int]);
            proof {
                lemma_eval_stack_shape(prefix);
                lemma_number_weight_prefix(ts, i + 1);
                lemma_number_weight_prefix(ts, i as int);
            }
            match tokens[i] {
                Token::Number(n) => {
                    assert(n + 1 <= i64_max()) by (nonlinear_arith)
                        requires
                            number_weight(next) == number_weight(prefix) * (n + 1),
                            number_weight(prefix) >= 1,
                            number_weight(next) <= i64_max(),
                    ;
                    let x = Rational::from_integer(n as i64);
                    let ghost before = stack@;
                    stack.push(x);
                    assert(values(stack@) =~= values(before).push(x@));
                },
                Token::Operation(op) => {
                    assert(count_numbers(next) > count_operations(next));
                    assert(stack.len() >= 2);
                    let ghost st = values(stack@);
                    proof {
                        lemma_top_two_fit(st);
                    }
                    let b = stack.pop().unwrap();
                    let a = stack.pop().unwrap();
                    assert(a@ == st[st.len() - 2]);
                    assert(b@ == st[st.len() - 1]);
                    match op.apply(&a, &b) {
                        Ok(x) => {
                            stack.push(x);
                            assert(values(stack@) =~= st.take(st.len() - 2).push(x@));
                        },
                        Err(_) => {
                            proof {
                                lemma_eval_stack_none(ts, i + 1);
                            }
                            return Err(FixExpressionError::DivisionByZero);
                        },
                    }
                },
                Token::Parenthesis(_) => {
                    assert(ts[i as int] is Parenthesis);
                    return Err(FixExpressionError::InvalidFixExpression);
                },
            }
            i += 1;
        }
        assert(ts.take(i as int) =~= ts);
        proof {
            lemma_eval_stack_shape(ts);
        }
        Ok(stack[0])
    }
}

} // verus!
