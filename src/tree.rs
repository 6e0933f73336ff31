//! Expression trees, read from and written to prefix tokens.

use crate::expr::{frac_apply, Expression, Operation, Token};
use crate::fix::{passes_prefix_check, Fix, FixExpression};
use crate::postfix::FixExpressionError;
use crate::rational::{
    fits_together, frac_is_zero, frac_of_int, i64_max, lemma_div_weight, lemma_op_weight,
    weight, wf_frac, Rational,
};
use vstd::prelude::*;

verus! {

/// A literal, or an operation on two sub-trees (left, right).
#[derive(Debug)]
pub enum ExpressionTree {
    Lit(usize),
    Add(Box<ExpressionTree>, Box<ExpressionTree>),
    Subtract(Box<ExpressionTree>, Box<ExpressionTree>),
    Multiply(Box<ExpressionTree>, Box<ExpressionTree>),
    Divide(Box<ExpressionTree>, Box<ExpressionTree>),
}

/// A tree and the number of tokens it was read from.
#[derive(Debug)]
pub struct SizedExpressionTree {
    pub tree: ExpressionTree,
    pub size: usize,
}

/// The tree in prefix order: each operation before its two operands.
pub open spec fn prefix_tokens(t: ExpressionTree) -> Seq<Token>
    decreases t,
{
    match t {
        ExpressionTree::Lit(n) => seq![Token::Number(n)],
        ExpressionTree::Add(l, r) => seq![Token::Operation(Operation::Add)] + prefix_tokens(*l)
            + prefix_tokens(*r),
        ExpressionTree::Subtract(l, r) => seq![Token::Operation(Operation::Subtract)]
            + prefix_tokens(*l) + prefix_tokens(*r),
        ExpressionTree::Multiply(l, r) => seq![Token::Operation(Operation::Multiply)]
            + prefix_tokens(*l) + prefix_tokens(*r),
        ExpressionTree::Divide(l, r) => seq![Token::Operation(Operation::Divide)]
            + prefix_tokens(*l) + prefix_tokens(*r),
    }
}

/// The number of tokens of the complete prefix expression starting at
/// `start`, if there is one.
pub open spec fn prefix_size(ts: Seq<Token>, start: int) -> Option<nat>
    decreases ts.len() - start,
{
    if start < 0 || start >= ts.len() {
        None
    } else {
        match ts[start] {
            Token::Number(_) => Some(1),
            Token::Operation(_) => match prefix_size(ts, start + 1) {
                Some(l) => if start + 1 + l < ts.len() {
                    match prefix_size(ts, start + 1 + l) {
                        Some(r) => Some(1 + l + r),
                        None => None,
                    }
                } else {
                    None
                },
                None => None,
            },
            Token::Parenthesis(_) => None,
        }
    }
}

/// `op` on two values, if both exist and it is not a division by zero.
pub open spec fn combine(op: Operation, a: Option<(int, int)>, b: Option<(int, int)>) -> Option<
    (int, int),
> {
    match (a, b) {
        (Some(x), Some(y)) => if op == Operation::Divide && frac_is_zero(y) {
            None
        } else {
            Some(frac_apply(op, x, y))
        },
        _ => None,
    }
}

/// The exact value of the tree; `None` where it divides by zero.
pub open spec fn tree_value(t: ExpressionTree) -> Option<(int, int)>
    decreases t,
{
    match t {
        ExpressionTree::Lit(n) => Some(frac_of_int(n as int)),
        ExpressionTree::Add(l, r) => combine(Operation::Add, tree_value(*l), tree_value(*r)),
        ExpressionTree::Subtract(l, r) => combine(
            Operation::Subtract,
            tree_value(*l),
            tree_value(*r),
        ),
        ExpressionTree::Multiply(l, r) => combine(
            Operation::Multiply,
            tree_value(*l),
            tree_value(*r),
        ),
        ExpressionTree::Divide(l, r) => combine(Operation::Divide, tree_value(*l), tree_value(*r)),
    }
}

/// Product of `n + 1` over the literals: a bound on the weight of the value.
pub open spec fn leaf_weight(t: ExpressionTree) -> int
    decreases t,
{
    match t {
        ExpressionTree::Lit(n) => n + 1,
        ExpressionTree::Add(l, r) => leaf_weight(*l) * leaf_weight(*r),
        ExpressionTree::Subtract(l, r) => leaf_weight(*l) * leaf_weight(*r),
        ExpressionTree::Multiply(l, r) => leaf_weight(*l) * leaf_weight(*r),
        ExpressionTree::Divide(l, r) => leaf_weight(*l) * leaf_weight(*r),
    }
}

pub proof fn lemma_leaf_weight_positive(t: ExpressionTree)
    ensures
        leaf_weight(t) >= 1,
    decreases t,
{
    match t {
        ExpressionTree::Lit(_) => {},
        ExpressionTree::Add(l, r) | ExpressionTree::Subtract(l, r) | ExpressionTree::Multiply(l, r)
        | ExpressionTree::Divide(l, r) => {
            lemma_leaf_weight_positive(*l);
            lemma_leaf_weight_positive(*r);
            let a = leaf_weight(*l);
            let b = leaf_weight(*r);
            assert(a * b >= 1) by (nonlinear_arith)
                requires
                    a >= 1,
                    b >= 1,
            ;
        },
    }
}

/// Sub-trees of a tree whose weight fits are no heavier than the whole.
pub proof fn lemma_children_weight(l: ExpressionTree, r: ExpressionTree)
    requires
        leaf_weight(l) * leaf_weight(r) <= i64_max(),
    ensures
        leaf_weight(l) <= i64_max(),
        leaf_weight(r) <= i64_max(),
{
    lemma_leaf_weight_positive(l);
    lemma_leaf_weight_positive(r);
    let a = leaf_weight(l);
    let b = leaf_weight(r);
    assert(a <= a * b && b <= a * b) by (nonlinear_arith)
        requires
            a >= 1,
            b >= 1,
    ;
}

/// The value of a tree has a positive denominator and weighs at most the
/// tree's literals.
pub proof fn lemma_tree_value_weight(t: ExpressionTree)
    requires
        tree_value(t) is Some,
    ensures
        tree_value(t).unwrap().1 > 0,
        weight(tree_value(t).unwrap()) <= leaf_weight(t),
    decreases t,
{
    match t {
        ExpressionTree::Lit(_) => {},
        ExpressionTree::Add(l, r) | ExpressionTree::Subtract(l, r) | ExpressionTree::Multiply(l, r)
        | ExpressionTree::Divide(l, r) => {
            lemma_tree_value_weight(*l);
            lemma_tree_value_weight(*r);
            let x = tree_value(*l).unwrap();
            let y = tree_value(*r).unwrap();
            lemma_op_weight(x, y);
            if !frac_is_zero(y) {
                lemma_div_weight(x, y);
            }
            let wx = weight(x);
            let wy = weight(y);
            let a = leaf_weight(*l);
            let b = leaf_weight(*r);
            assert(wx * wy <= a * b) by (nonlinear_arith)
                requires
                    1 <= wx <= a,
                    1 <= wy <= b,
            ;
        },
    }
}

/// Applies `op` to the values of two sub-trees.
fn combine_results(
    op: Operation,
    a: Result<Rational, FixExpressionError>,
    b: Result<Rational, FixExpressionError>,
) -> (r: Result<Rational, FixExpressionError>)
    requires
        a matches Ok(x) ==> wf_frac(x@),
        b matches Ok(y) ==> wf_frac(y@),
        (a is Ok && b is Ok) ==> fits_together(a->Ok_0@, b->Ok_0@),
    ensures
        (a is Ok && b is Ok) ==> match combine(op, Some(a->Ok_0@), Some(b->Ok_0@)) {
            Some(v) => r matches Ok(z) && z@ == v && wf_frac(z@),
            None => r == Err::<Rational, FixExpressionError>(FixExpressionError::DivisionByZero),
        },
        a is Err ==> r == a,
        a is Ok && b is Err ==> r == b,
{
    match (a, b) {
        (Ok(x), Ok(y)) => match op.apply(&x, &y) {
            Ok(z) => Ok(z),
            Err(_) => Err(FixExpressionError::DivisionByZero),
        },
        (Err(e), _) => Err(e),
        (_, Err(e)) => Err(e),
    }
}

impl ExpressionTree {
    /// The exact value of the tree.
    pub fn evaluate(&self) -> (r: Result<Rational, FixExpressionError>)
        requires
            leaf_weight(*self) <= i64_max(),
        ensures
            match tree_value(*self) {
                Some(v) => r matches Ok(x) && x@ == v && wf_frac(x@),
                None => r == Err::<Rational, FixExpressionError>(
                    FixExpressionError::DivisionByZero,
                ),
            },
        decreases self,
    {
        match self {
            ExpressionTree::Lit(n) => Ok(Rational::from_integer(*n as i64)),
            ExpressionTree::Add(l, r) => {
                proof {
                    lemma_children_weight(**l, **r);
                }
                let a = l.evaluate();
                let b = r.evaluate();
                proof {
                    lemma_fit(**l, **r);
                }
                combine_results(Operation::Add, a, b)
            },
            ExpressionTree::Subtract(l, r) => {
                proof {
                    lemma_children_weight(**l, **r);
                }
                let a = l.evaluate();
                let b = r.evaluate();
                proof {
                    lemma_fit(**l, **r);
                }
                combine_results(Operation::Subtract, a, b)
            },
            ExpressionTree::Multiply(l, r) => {
                proof {
                    lemma_children_weight(**l, **r);
                }
                let a = l.evaluate();
                let b = r.evaluate();
                proof {
                    lemma_fit(**l, **r);
                }
                combine_results(Operation::Multiply, a, b)
            },
            ExpressionTree::Divide(l, r) => {
                proof {
                    lemma_children_weight(**l, **r);
                }
                let a = l.evaluate();
                let b = r.evaluate();
                proof {
                    lemma_fit(**l, **r);
                }
                combine_results(Operation::Divide, a, b)
            },
        }
    }

    fn push_tokens(&self, out: &mut Vec<Token>)
        ensures
            final(out)@ == old(out)@ + prefix_tokens(*self),
        decreases self,
    {
        let ghost start = out@;
        match self {
            ExpressionTree::Lit(n) => {
                out.push(Token::Number(*n));
            },
            ExpressionTree::Add(l, r) => {
                out.push(Token::Operation(Operation::Add));
                l.push_tokens(out);
                r.push_tokens(out);
            },
            ExpressionTree::Subtract(l, r) => {
                out.push(Token::Operation(Operation::Subtract));
                l.push_tokens(out);
                r.push_tokens(out);
            },
            ExpressionTree::Multiply(l, r) => {
                out.push(Token::Operation(Operation::Multiply));
                l.push_tokens(out);
                r.push_tokens(out);
            },
            ExpressionTree::Divide(l, r) => {
                out.push(Token::Operation(Operation::Divide));
                l.push_tokens(out);
                r.push_tokens(out);
            },
        }
        assert(out@ =~= start + prefix_tokens(*self));
    }

    /// The tree in prefix order.
    pub fn as_tokens(&self) -> (r: Vec<Token>)
        ensures
            r@ == prefix_tokens(*self),
    {
        let mut out: Vec<Token> = Vec::new();
        self.push_tokens(&mut out);
        assert(out@ =~= prefix_tokens(*self));
        out
    }

    /// The tree of a prefix expression that passes the prefix check; tokens
    /// after its first complete expression are not read.
    pub fn try_from(input: FixExpression) -> (r: Result<ExpressionTree, FixExpressionError>)
        ensures
            r is Ok <==> (input.fix == Fix::Pre && passes_prefix_check(input.expression@)
                && prefix_size(input.expression@, 0) is Some),
            r matches Ok(t) ==> prefix_tokens(t) == input.expression@.take(
                prefix_size(input.expression@, 0)->Some_0 as int,
            ),
            r is Err ==> r == Err::<ExpressionTree, FixExpressionError>(
                FixExpressionError::InvalidFixExpression,
            ),
    {
        match input.as_prefix() {
            Ok(expr) => match parse(&expr.expression.0, 0) {
                Some(sized) => Ok(sized.tree),
                None => Err(FixExpressionError::InvalidFixExpression),
            },
            Err(e) => Err(e),
        }
    }
}

/// Sub-tree values fit together when the tree's literals do.
proof fn lemma_fit(l: ExpressionTree, r: ExpressionTree)
    requires
        leaf_weight(l) * leaf_weight(r) <= i64_max(),
    ensures
        (tree_value(l) is Some && tree_value(r) is Some) ==> fits_together(
            tree_value(l).unwrap(),
            tree_value(r).unwrap(),
        ),
{
    if tree_value(l) is Some && tree_value(r) is Some {
        lemma_tree_value_weight(l);
        lemma_tree_value_weight(r);
        let wx = weight(tree_value(l).unwrap());
        let wy = weight(tree_value(r).unwrap());
        let a = leaf_weight(l);
        let b = leaf_weight(r);
        assert(wx * wy <= a * b) by (nonlinear_arith)
            requires
                1 <= wx <= a,
                1 <= wy <= b,
        ;
    }
}

/// Reads the complete prefix expression starting at `start`.
pub fn parse(tokens: &Vec<Token>, start: usize) -> (r: Option<SizedExpressionTree>)
    requires
        start <= tokens.len(),
    ensures
        match prefix_size(tokens@, start as int) {
            Some(k) => r matches Some(st) && st.size == k && start + k <= tokens.len()
                && prefix_tokens(st.tree) == tokens@.subrange(start as int, start + k),
            None => r is None,
        },
    decreases tokens.len() - start,
{
    if start >= tokens.len() {
        return None;
    }
    match tokens[start] {
        Token::Number(n) => {
            assert(tokens@.subrange(start as int, start + 1) =~= seq![Token::Number(n)]);
            Some(SizedExpressionTree { tree: ExpressionTree::Lit(n), size: 1 })
        },
        Token::Operation(op) => {
            let lhs = match parse(tokens, start + 1) {
                Some(x) => x,
                None => return None,
            };
            let skip = start + 1 + lhs.size;
            let rhs = match parse(tokens, skip) {
                Some(x) => x,
                None => return None,
            };
            let size = 1 + lhs.size + rhs.size;
            let ghost l = lhs.tree;
            let ghost r = rhs.tree;
            let tree = match op {
                Operation::Add => ExpressionTree::Add(Box::new(lhs.tree), Box::new(rhs.tree)),
                Operation::Subtract => ExpressionTree::Subtract(
                    Box::new(lhs.tree),
                    Box::new(rhs.tree),
                ),
                Operation::Multiply => ExpressionTree::Multiply(
                    Box::new(lhs.tree),
                    Box::new(rhs.tree),
                ),
                Operation::Divide => ExpressionTree::Divide(Box::new(lhs.tree), Box::new(rhs.tree)),
            };
            assert(prefix_tokens(tree) == seq![Token::Operation(op)] + prefix_tokens(l)
                + prefix_tokens(r));
            assert(tokens@.subrange(start as int, start + size) =~= seq![Token::Operation(op)]
                + tokens@.subrange(start + 1, skip as int) + tokens@.subrange(
                skip as int,
                skip + rhs.size,
            ));
            Some(SizedExpressionTree { tree, size })
        },
        Token::Parenthesis(_) => None,
    }
}

impl FixExpression {
    /// The prefix expression of a tree.
    pub fn from_tree(value: ExpressionTree) -> (r: FixExpression)
        ensures
            r.fix == Fix::Pre,
            r.expression@ == prefix_tokens(value),
    {
        let tokens = value.as_tokens();
        FixExpression { expression: Expression(tokens), fix: Fix::Pre }
    }
}

} // verus!
