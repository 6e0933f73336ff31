//! Infix expressions held as nested operands and operations, and the
//! scanning helpers for infix text.

use crate::expr::{char_op, decimal, op_char, push_decimal, string_of_chars, Operation};
use vstd::prelude::*;

verus! {

/// A number, or a parenthesised sub-expression.
#[derive(Debug)]
pub enum Operand<T> {
    Number(u32),
    Expression(Box<T>),
}

/// Operands and the operations between them, read left to right.
#[derive(Debug)]
pub struct VecExpression {
    pub operands: Vec<Operand<VecExpression>>,
    pub operations: Vec<Operation>,
}

/// An operation and the expression to its right.
#[derive(Debug)]
pub struct Edge {
    pub operation: Operation,
    pub operand: Box<LinkedExpression>,
}

/// The first operand of a [`LinkedExpression`]: a number, or a
/// parenthesised sub-expression.
#[derive(Debug)]
pub enum Node {
    Number(u32),
    Expression(Box<LinkedExpression>),
}

/// A first operand, optionally followed by an operation and the rest.
#[derive(Debug)]
pub struct LinkedExpression(pub Node, pub Option<Edge>);

/// The text of the `i`-th operand: digits, or a sub-expression in parentheses.
pub open spec fn vec_operand_text(e: VecExpression, i: int) -> Seq<char>
    decreases e, 0nat, 0nat,
{
    if 0 <= i < e.operands.len() {
        match e.operands@[i] {
            Operand::Number(n) => decimal(n as nat),
            Operand::Expression(b) => seq!['('] + vec_text(*b) + seq![')'],
        }
    } else {
        Seq::empty()
    }
}

/// Each operand from the `i`-th on, paired with the operation after it, as
/// long as both run.
pub open spec fn vec_pairs_text(e: VecExpression, i: int) -> Seq<char>
    decreases e, 1nat, (e.operands.len() - i) as nat,
{
    if 0 <= i < e.operands.len() && i < e.operations.len() {
        vec_operand_text(e, i) + seq![' ', op_char(e.operations@[i]), ' '] + vec_pairs_text(
            e,
            i + 1,
        )
    } else {
        Seq::empty()
    }
}

/// Operands and operations alternating, joined by spaces, ending with the
/// last operand; an expression without operands has no text.
pub open spec fn vec_text(e: VecExpression) -> Seq<char>
    decreases e, 2nat, 0nat,
{
    vec_pairs_text(e, 0) + vec_operand_text(e, e.operands.len() - 1)
}

/// The first operand, then each operation and the rest, joined by spaces.
pub open spec fn linked_text(l: LinkedExpression) -> Seq<char>
    decreases l,
{
    let head = match l.0 {
        Node::Number(n) => decimal(n as nat),
        Node::Expression(b) => seq!['('] + linked_text(*b) + seq![')'],
    };
    match l.1 {
        Some(e) => head + seq![' ', op_char(e.operation), ' '] + linked_text(*e.operand),
        None => head,
    }
}

impl VecExpression {
    /// An expression with no operands and no operations.
    pub fn new() -> (r: VecExpression)
        ensures
            r.operands@.len() == 0,
            r.operations@.len() == 0,
    {
        VecExpression { operands: Vec::new(), operations: Vec::new() }
    }

    fn push_operand_text(&self, i: usize, out: &mut Vec<char>)
        requires
            i < self.operands.len(),
        ensures
            final(out)@ == old(out)@ + vec_operand_text(*self, i as int),
        decreases self, 0nat,
    {
        match &self.operands[i] {
            Operand::Number(n) => {
                push_decimal(out, *n as usize);
            },
            Operand::Expression(b) => {
                out.push('(');
                b.push_text(out);
                out.push(')');
                assert(final(out)@ =~= old(out)@ + vec_operand_text(*self, i as int));
            },
        }
    }

    fn push_text(&self, out: &mut Vec<char>)
        ensures
            final(out)@ == old(out)@ + vec_text(*self),
        decreases self, 1nat,
    {
        let ghost start = out@;
        let mut i: usize = 0;
        while i < self.operands.len() && i < self.operations.len()
            invariant
                i <= self.operands.len(),
                start + vec_text(*self) == out@ + vec_pairs_text(*self, i as int)
                    + vec_operand_text(*self, self.operands.len() - 1),
            decreases self.operands.len() - i,
        {
            let ghost before = out@;
            self.push_operand_text(i, out);
            out.push(' ');
            out.push(self.operations[i].symbol());
            out.push(' ');
            assert(out@ =~= before + vec_operand_text(*self, i as int) + seq![
                ' ',
                op_char(self.operations@[i as int]),
                ' ',
            ]);
            i += 1;
            assert(start + vec_text(*self) =~= out@ + vec_pairs_text(*self, i as int)
                + vec_operand_text(*self, self.operands.len() - 1));
        }
        assert(vec_pairs_text(*self, i as int) =~= Seq::<char>::empty());
        if self.operands.len() > 0 {
            self.push_operand_text(self.operands.len() - 1, out);
        }
        assert(out@ =~= start + vec_text(*self));
    }

    /// Operands and operations alternating, joined by spaces, sub-expressions
    /// in parentheses.
    pub fn to_string(&self) -> (r: String)
        ensures
            r@ == vec_text(*self),
    {
        let mut out: Vec<char> = Vec::new();
        self.push_text(&mut out);
        assert(out@ =~= vec_text(*self));
        string_of_chars(&out)
    }
}

impl LinkedExpression {
    fn push_text(&self, out: &mut Vec<char>)
        ensures
            final(out)@ == old(out)@ + linked_text(*self),
        decreases self,
    {
        let ghost start = out@;
        match &self.0 {
            Node::Number(n) => {
                push_decimal(out, *n as usize);
            },
            Node::Expression(b) => {
                out.push('(');
                b.push_text(out);
                out.push(')');
            },
        }
        let ghost head = out@;
        match &self.1 {
            Some(e) => {
                out.push(' ');
                out.push(e.operation.symbol());
                out.push(' ');
                e.operand.push_text(out);
            },
            None => {},
        }
        assert(out@ =~= start + linked_text(*self));
    }

    /// The first operand, then each operation and the rest, joined by spaces.
    pub fn to_string(&self) -> (r: String)
        ensures
            r@ == linked_text(*self),
    {
        let mut out: Vec<char> = Vec::new();
        self.push_text(&mut out);
        assert(out@ =~= linked_text(*self));
        string_of_chars(&out)
    }
}

/// Errors met while scanning infix text.
#[derive(Clone, Copy, Debug, PartialEq, Eq, Structural)]
pub enum ParseExpressionError {
    NotEnoughOperands,
    TooManyOperands,
    NotEnoughOperations,
    TooManyOperations,
    InvalidCharacter(char, usize),
    AllWhitespace,
}

/// Something read at the start of a text, and the index of its last character.
#[derive(Debug)]
pub struct NextObjectFromStringStart<T> {
    pub object: T,
    pub end_char_index: usize,
}

#[derive(Clone, Copy, Debug, PartialEq, Eq, Structural)]
pub enum OperationError {
    InvalidOperation(char),
}

/// The operation written `c` in infix text, where `x` also multiplies.
pub open spec fn infix_char_op(c: char) -> Option<Operation> {
    if c == 'x' {
        Some(Operation::Multiply)
    } else {
        char_op(c)
    }
}

/// Index of the first character of `s` from `i` on that is not a space
/// (`s.len()` if none).
pub open spec fn first_non_space(s: Seq<char>, i: int) -> int
    decreases s.len() - i,
{
    if i >= s.len() || i < 0 {
        s.len() as int
    } else if s[i] != ' ' {
        i
    } else {
        first_non_space(s, i + 1)
    }
}

pub proof fn lemma_first_non_space_bounds(s: Seq<char>, i: int)
    requires
        0 <= i <= s.len(),
    ensures
        i <= first_non_space(s, i) <= s.len(),
    decreases s.len() - i,
{
    if i < s.len() && s[i] == ' ' {
        lemma_first_non_space_bounds(s, i + 1);
    }
}

/// The operation written `c` in infix text.
pub fn operation_from_char(c: char) -> (r: Result<Operation, OperationError>)
    ensures
        match infix_char_op(c) {
            Some(op) => r == Ok::<Operation, OperationError>(op),
            None => r == Err::<Operation, OperationError>(OperationError::InvalidOperation(c)),
        },
{
    match c {
        '+' => Ok(Operation::Add),
        '-' => Ok(Operation::Subtract),
        '*' | 'x' => Ok(Operation::Multiply),
        '/' => Ok(Operation::Divide),
        _ => Err(OperationError::InvalidOperation(c)),
    }
}

/// The first character of `s` that is not a space, with its index.
fn get_first_non_empty_char(s: &str) -> (r: Result<(usize, char), ParseExpressionError>)
    ensures
        first_non_space(s@, 0) < s@.len() ==> (r matches Ok((i, c)) && i == first_non_space(s@, 0)
            && c == s@[i as int]),
        first_non_space(s@, 0) >= s@.len() ==> r == Err::<(usize, char), ParseExpressionError>(
            ParseExpressionError::AllWhitespace,
        ),
{
    let n = s.unicode_len();
    let mut i: usize = 0;
    while i < n
        invariant
            n == s@.len(),
            i <= n,
            first_non_space(s@, 0) == first_non_space(s@, i as int),
        decreases n - i,
    {
        let c = s.get_char(i);
        if c != ' ' {
            return Ok((i, c));
        }
        i += 1;
    }
    Err(ParseExpressionError::AllWhitespace)
}

/// The operation at the start of `s`, after any spaces.
pub fn find_next_operation(s: &str) -> (r: Result<
    NextObjectFromStringStart<Operation>,
    ParseExpressionError,
>)
    ensures
        ({
            let k = first_non_space(s@, 0);
            if k >= s@.len() {
                r == Err::<NextObjectFromStringStart<Operation>, ParseExpressionError>(
                    ParseExpressionError::NotEnoughOperations,
                )
            } else {
                match infix_char_op(s@[k]) {
                    Some(op) => r matches Ok(next) && next.object == op && next.end_char_index
                        == k,
                    None => r matches Err(ParseExpressionError::InvalidCharacter(c, i)) && c
                        == s@[k] && i == k,
                }
            }
        }),
{
    proof {
        lemma_first_non_space_bounds(s@, 0);
    }
    match get_first_non_empty_char(s) {
        Ok((i, c)) => match operation_from_char(c) {
            Ok(op) => Ok(NextObjectFromStringStart { object: op, end_char_index: i }),
            Err(_) => Err(ParseExpressionError::InvalidCharacter(c, i)),
        },
        Err(_) => Err(ParseExpressionError::NotEnoughOperations),
    }
}

} // verus!
