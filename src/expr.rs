//! Tokens and expressions: lexing text into tokens and rendering tokens back
//! to text.

use crate::rational::{
    frac_add, frac_div, frac_is_zero, frac_mul, frac_sub, fits_together, wf_frac, Rational,
    RationalError,
};
use vstd::prelude::*;

verus! {

/// An unrecognised character met while lexing.
#[derive(Clone, Copy, Debug, PartialEq, Eq, Structural)]
pub enum LexError {
    InvalidCharacter(char),
    InvalidCharacterAtIndex(usize, char),
}

/// One of the four binary operations.
#[derive(Clone, Copy, Debug, PartialEq, Eq, Structural, Hash)]
pub enum Operation {
    Add,
    Subtract,
    Multiply,
    Divide,
}

pub open spec fn op_char(op: Operation) -> char {
    match op {
        Operation::Add => '+',
        Operation::Subtract => '-',
        Operation::Multiply => '*',
        Operation::Divide => '/',
    }
}

pub open spec fn char_op(c: char) -> Option<Operation> {
    if c == '+' {
        Some(Operation::Add)
    } else if c == '-' {
        Some(Operation::Subtract)
    } else if c == '*' {
        Some(Operation::Multiply)
    } else if c == '/' {
        Some(Operation::Divide)
    } else {
        None
    }
}

/// The value of `a op b`, left operand first.
pub open spec fn frac_apply(op: Operation, a: (int, int), b: (int, int)) -> (int, int) {
    match op {
        Operation::Add => frac_add(a, b),
        Operation::Subtract => frac_sub(a, b),
        Operation::Multiply => frac_mul(a, b),
        Operation::Divide => frac_div(a, b),
    }
}

impl Operation {
    /// The operation's one-character text.
    pub fn symbol(&self) -> (r: char)
        ensures
            r == op_char(*self),
    {
        match self {
            Operation::Add => '+',
            Operation::Subtract => '-',
            Operation::Multiply => '*',
            Operation::Divide => '/',
        }
    }

    /// The operation written `c`.
    pub fn try_from(c: char) -> (r: Result<Operation, LexError>)
        ensures
            match char_op(c) {
                Some(op) => r == Ok::<Operation, LexError>(op),
                None => r == Err::<Operation, LexError>(LexError::InvalidCharacter(c)),
            },
    {
        match c {
            '+' => Ok(Operation::Add),
            '-' => Ok(Operation::Subtract),
            '*' => Ok(Operation::Multiply),
            '/' => Ok(Operation::Divide),
            _ => Err(LexError::InvalidCharacter(c)),
        }
    }

    /// Applies the operation to `a` (left) and `b` (right), exactly.
    pub fn apply(&self, a: &Rational, b: &Rational) -> (r: Result<Rational, RationalError>)
        requires
            wf_frac(a@),
            wf_frac(b@),
            fits_together(a@, b@),
        ensures
            (*self == Operation::Divide && frac_is_zero(b@)) <==> r is Err,
            r matches Ok(x) ==> x@ == frac_apply(*self, a@, b@) && wf_frac(x@),
    {
        match self {
            Operation::Add => Ok(a.add(b)),
            Operation::Subtract => Ok(a.sub(b)),
            Operation::Multiply => Ok(a.mul(b)),
            Operation::Divide => a.div(b),
        }
    }
}

#[derive(Clone, Copy, Debug, PartialEq, Eq, Structural)]
pub enum Parenthesis {
    Open,
    Close,
}

pub open spec fn paren_char(p: Parenthesis) -> char {
    match p {
        Parenthesis::Open => '(',
        Parenthesis::Close => ')',
    }
}

pub open spec fn char_paren(c: char) -> Option<Parenthesis> {
    if c == '(' {
        Some(Parenthesis::Open)
    } else if c == ')' {
        Some(Parenthesis::Close)
    } else {
        None
    }
}

impl Parenthesis {
    pub fn symbol(&self) -> (r: char)
        ensures
            r == paren_char(*self),
    {
        match self {
            Parenthesis::Open => '(',
            Parenthesis::Close => ')',
        }
    }

    pub fn try_from(c: char) -> (r: Result<Parenthesis, LexError>)
        ensures
            match char_paren(c) {
                Some(p) => r == Ok::<Parenthesis, LexError>(p),
                None => r == Err::<Parenthesis, LexError>(LexError::InvalidCharacter(c)),
            },
    {
        match c {
            '(' => Ok(Parenthesis::Open),
            ')' => Ok(Parenthesis::Close),
            _ => Err(LexError::InvalidCharacter(c)),
        }
    }
}

/// A number, an operation or a parenthesis.
#[derive(Clone, Copy, Debug, PartialEq, Eq, Structural)]
pub enum Token {
    Number(usize),
    Operation(Operation),
    Parenthesis(Parenthesis),
}

/// An ordered sequence of tokens.
#[derive(Clone, Debug, PartialEq, Eq)]
pub struct Expression(pub Vec<Token>);

impl View for Expression {
    type V = Seq<Token>;

    open spec fn view(&self) -> Seq<Token> {
        self.0@
    }
}

// ---------------------------------------------------------------------------
// Text of tokens.

pub open spec fn digit_char(d: nat) -> char {
    ((d + 48) as char)
}

/// Decimal digits of `n`, most significant first, without leading zeros.
pub open spec fn decimal(n: nat) -> Seq<char>
    decreases n,
{
    if n < 10 {
        seq![digit_char(n)]
    } else {
        decimal(n / 10).push(digit_char(n % 10))
    }
}

pub open spec fn token_text(t: Token) -> Seq<char> {
    match t {
        Token::Number(n) => decimal(n as nat),
        Token::Operation(op) => seq![op_char(op)],
        Token::Parenthesis(p) => seq![paren_char(p)],
    }
}

/// The tokens' texts joined by single spaces.
pub open spec fn render(ts: Seq<Token>) -> Seq<char>
    decreases ts.len(),
{
    if ts.len() == 0 {
        Seq::empty()
    } else if ts.len() == 1 {
        token_text(ts[0])
    } else {
        render(ts.drop_last()).push(' ') + token_text(ts.last())
    }
}

// ---------------------------------------------------------------------------
// Lexing.

/// Unicode `White_Space`, which `str::trim` removes at both ends.
pub open spec fn is_whitespace(c: char) -> bool {
    ||| ('\u{9}' <= c <= '\u{d}')
    ||| c == ' '
    ||| c == '\u{85}'
    ||| c == '\u{a0}'
    ||| c == '\u{1680}'
    ||| ('\u{2000}' <= c <= '\u{200a}')
    ||| c == '\u{2028}'
    ||| c == '\u{2029}'
    ||| c == '\u{202f}'
    ||| c == '\u{205f}'
    ||| c == '\u{3000}'
}

pub open spec fn trim_start(s: Seq<char>) -> Seq<char>
    decreases s.len(),
{
    if s.len() > 0 && is_whitespace(s[0]) {
        trim_start(s.drop_first())
    } else {
        s
    }
}

pub open spec fn trim_end(s: Seq<char>) -> Seq<char>
    decreases s.len(),
{
    if s.len() > 0 && is_whitespace(s.last()) {
        trim_end(s.drop_last())
    } else {
        s
    }
}

/// `s` without leading and trailing whitespace.
pub open spec fn trim(s: Seq<char>) -> Seq<char> {
    trim_end(trim_start(s))
}

pub open spec fn is_digit(c: char) -> bool {
    '0' <= c <= '9'
}

pub open spec fn digit_value(c: char) -> int {
    c as int - '0' as int
}

/// The number held by a digit buffer, appended to the output.
pub open spec fn flush(buf: Option<int>) -> Seq<Token> {
    match buf {
        Some(v) => seq![Token::Number(v as usize)],
        None => Seq::empty(),
    }
}

pub open spec fn char_token(c: char) -> Token {
    match char_paren(c) {
        Some(p) => Token::Parenthesis(p),
        None => Token::Operation(char_op(c).unwrap()),
    }
}

pub open spec fn is_symbol(c: char) -> bool {
    char_paren(c) is Some || char_op(c) is Some
}

/// Lexes `s` from index `i`, with `buf` the digits read since the last
/// token and `acc` the tokens so far.
pub open spec fn lex_from(s: Seq<char>, i: int, buf: Option<int>, acc: Seq<Token>) -> Result<
    Seq<Token>,
    LexError,
>
    decreases s.len() - i,
{
    if i >= s.len() || i < 0 {
        Ok(acc + flush(buf))
    } else {
        let c = s[i];
        if is_digit(c) {
            let v = match buf {
                Some(v) => v,
                None => 0,
            };
            lex_from(s, i + 1, Some(v * 10 + digit_value(c)), acc)
        } else if c == ' ' {
            lex_from(s, i + 1, None, acc + flush(buf))
        } else if is_symbol(c) {
            lex_from(s, i + 1, None, acc + flush(buf) + seq![char_token(c)])
        } else {
            Err(LexError::InvalidCharacterAtIndex(i as usize, c))
        }
    }
}

/// Every number that lexing `s` from index `i` accumulates fits in a `usize`.
pub open spec fn lex_fits(s: Seq<char>, i: int, buf: Option<int>) -> bool
    decreases s.len() - i,
{
    if i >= s.len() || i < 0 {
        true
    } else {
        let c = s[i];
        if is_digit(c) {
            let v = match buf {
                Some(v) => v,
                None => 0,
            };
            let w = v * 10 + digit_value(c);
            w <= usize::MAX && lex_fits(s, i + 1, Some(w))
        } else if c == ' ' || is_symbol(c) {
            lex_fits(s, i + 1, None)
        } else {
            true
        }
    }
}

/// The tokens of the text `s`: digit runs are numbers, `+ - * /` operations,
/// `( )` parentheses, spaces separate; index of an error counts characters
/// of the trimmed text.
pub open spec fn lex(s: Seq<char>) -> Result<Seq<Token>, LexError> {
    lex_from(trim(s), 0, None, Seq::empty())
}

/// Lexing `s` meets no number beyond `usize::MAX`.
pub open spec fn lexable(s: Seq<char>) -> bool {
    lex_fits(trim(s), 0, None)
}

pub open spec fn buf_int(buf: Option<usize>) -> Option<int> {
    match buf {
        Some(v) => Some(v as int),
        None => None,
    }
}

/// Relies on `str::trim`: `s` with leading and trailing Unicode `White_Space`
/// removed.
#[verifier::external_body]
fn trim_text<'a>(s: &'a str) -> (r: &'a str)
    ensures
        r@ == trim(s@),
{
    s.trim()
}

/// Relies on collecting chars into a `String`: the same characters in order.
#[verifier::external_body]
pub(crate) fn string_of_chars(v: &Vec<char>) -> (r: String)
    ensures
        r@ == v@,
{
    v.iter().collect()
}

fn digit_to_char(d: usize) -> (r: char)
    requires
        d < 10,
    ensures
        r == digit_char(d as nat),
{
    ((d as u8) + 48u8) as char
}

/// Appends the decimal digits of `n`.
pub(crate) fn push_decimal(out: &mut Vec<char>, n: usize)
    ensures
        final(out)@ == old(out)@ + decimal(n as nat),
    decreases n,
{
    if n >= 10 {
        push_decimal(out, n / 10);
    }
    out.push(digit_to_char(n % 10));
    proof {
        if n >= 10 {
            assert(old(out)@ + decimal(n as nat) =~= old(out)@ + decimal((n / 10) as nat) + seq![
                digit_char((n % 10) as nat),
            ]);
        }
    }
}

fn push_token_text(out: &mut Vec<char>, t: Token)
    ensures
        final(out)@ == old(out)@ + token_text(t),
{
    match t {
        Token::Number(n) => push_decimal(out, n),
        Token::Operation(op) => {
            out.push(op.symbol());
            assert(final(out)@ =~= old(out)@ + token_text(t));
        },
        Token::Parenthesis(p) => {
            out.push(p.symbol());
            assert(final(out)@ =~= old(out)@ + token_text(t));
        },
    }
}

impl Expression {
    /// The empty expression.
    pub fn new() -> (r: Expression)
        ensures
            r@ == Seq::<Token>::empty(),
    {
        Expression(Vec::new())
    }

    /// A copy of the expression, token for token.
    pub fn copy(&self) -> (r: Expression)
        ensures
            r@ == self@,
    {
        let mut v: Vec<Token> = Vec::new();
        let mut i: usize = 0;
        while i < self.0.len()
            invariant
                i <= self.0.len(),
                v@ == self@.take(i as int),
            decreases self.0.len() - i,
        {
            v.push(self.0[i]);
            i += 1;
            assert(v@ =~= self@.take(i as int));
        }
        assert(self@.take(i as int) =~= self@);
        Expression(v)
    }

    /// The tokens of `s`; see [`lex`].
    pub fn from_str(s: &str) -> (r: Result<Expression, LexError>)
        requires
            lexable(s@),
        ensures
            match r {
                Ok(e) => lex(s@) == Ok::<Seq<Token>, LexError>(e@),
                Err(err) => lex(s@) == Err::<Seq<Token>, LexError>(err),
            },
    {
        let t = trim_text(s);
        let n = t.unicode_len();
        let mut tokens: Vec<Token> = Vec::new();
        let mut buf: Option<usize> = None;
        let mut i: usize = 0;
        while i < n
            invariant
                n == t@.len(),
                i <= n,
                t@ == trim(s@),
                lex(s@) == lex_from(t@, i as int, buf_int(buf), tokens@),
                lex_fits(t@, i as int, buf_int(buf)),
            decreases n - i,
        {
            let c = t.get_char(i);
            if '0' <= c && c <= '9' {
                let d = ((c as u32) - 48) as usize;
                assert(d == digit_value(c));
                let v: usize = match buf {
                    Some(v) => v,
                    None => 0,
                };
                buf = Some(v * 10 + d);
            } else {
                let ghost acc = tokens@;
                if let Some(v) = buf {
                    tokens.push(Token::Number(v));
                }
                assert(tokens@ =~= acc + flush(buf_int(buf)));
                let ghost flushed = tokens@;
                buf = None;
                if c == ' ' {
                } else if c == '(' || c == ')' {
                    match Parenthesis::try_from(c) {
                        Ok(p) => tokens.push(Token::Parenthesis(p)),
                        Err(e) => return Err(e),
                    }
                    assert(tokens@ =~= flushed + seq![char_token(c)]);
                } else if c == '+' || c == '-' || c == '*' || c == '/' {
                    match Operation::try_from(c) {
                        Ok(op) => tokens.push(Token::Operation(op)),
                        Err(e) => return Err(e),
                    }
                    assert(tokens@ =~= flushed + seq![char_token(c)]);
                } else {
                    return Err(LexError::InvalidCharacterAtIndex(i, c));
                }
            }
            i += 1;
        }
        let ghost acc = tokens@;
        if let Some(v) = buf {
            tokens.push(Token::Number(v));
        }
        assert(tokens@ =~= acc + flush(buf_int(buf)));
        Ok(Expression(tokens))
    }

    /// The tokens' texts joined by single spaces.
    pub fn to_string(&self) -> (r: String)
        ensures
            r@ == render(self@),
    {
        let mut out: Vec<char> = Vec::new();
        let mut i: usize = 0;
        while i < self.0.len()
            invariant
                i <= self.0.len(),
                out@ == render(self@.take(i as int)),
            decreases self.0.len() - i,
        {
            if i > 0 {
                out.push(' ');
            }
            push_token_text(&mut out, self.0[i]);
            i += 1;
            assert(self@.take(i as int).drop_last() =~= self@.take(i - 1));
            assert(out@ =~= render(self@.take(i as int)));
        }
        assert(self@.take(i as int) =~= self@);
        string_of_chars(&out)
    }
}

// ---------------------------------------------------------------------------
// Rendering then lexing gives the tokens back.

proof fn lemma_digit_char(d: nat)
    requires
        d < 10,
    ensures
        is_digit(digit_char(d)),
        digit_value(digit_char(d)) == d,
{
}

proof fn lemma_decimal_digits(n: nat)
    ensures
        decimal(n).len() >= 1,
        forall|i: int| 0 <= i < decimal(n).len() ==> is_digit(#[trigger] decimal(n)[i]),
    decreases n,
{
    if n >= 10 {
        lemma_decimal_digits(n / 10);
        lemma_digit_char(n % 10);
        assert forall|i: int| 0 <= i < decimal(n).len() implies is_digit(#[trigger] decimal(n)[i]) by {
            if i < decimal(n / 10).len() {
                assert(decimal(n)[i] == decimal(n / 10)[i]);
            }
        }
    } else {
        lemma_digit_char(n);
    }
}

proof fn lemma_token_text(t: Token)
    ensures
        token_text(t).len() >= 1,
        forall|i: int|
            0 <= i < token_text(t).len() ==> !is_whitespace(#[trigger] token_text(t)[i]),
{
    if let Token::Number(n) = t {
        lemma_decimal_digits(n as nat);
        assert forall|i: int| 0 <= i < token_text(t).len() implies !is_whitespace(
            #[trigger] token_text(t)[i],
        ) by {
            assert(is_digit(decimal(n as nat)[i]));
        }
    }
}

/// The text of two or more tokens is the first token's text, a space, and
/// the text of the others.
proof fn lemma_render_front(ts: Seq<Token>)
    requires
        ts.len() >= 2,
    ensures
        render(ts) == token_text(ts[0]) + seq![' '] + render(ts.drop_first()),
    decreases ts.len(),
{
    let d = ts.drop_last();
    if ts.len() == 2 {
        assert(ts.drop_first().len() == 1);
        assert(render(d) == token_text(ts[0]));
        assert(render(ts) =~= token_text(ts[0]) + seq![' '] + render(ts.drop_first()));
    } else {
        lemma_render_front(d);
        assert(ts.drop_first().drop_last() =~= d.drop_first());
        assert(render(ts) =~= token_text(ts[0]) + seq![' '] + render(ts.drop_first()));
    }
}

proof fn lemma_render_ends(ts: Seq<Token>)
    requires
        ts.len() >= 1,
    ensures
        render(ts).len() >= 1,
        render(ts)[0] == token_text(ts[0])[0],
        render(ts).last() == token_text(ts.last()).last(),
    decreases ts.len(),
{
    lemma_token_text(ts[0]);
    lemma_token_text(ts.last());
    if ts.len() >= 2 {
        lemma_render_ends(ts.drop_last());
    }
}

/// Rendered text has no whitespace at either end.
proof fn lemma_trim_rendered(ts: Seq<Token>)
    ensures
        trim(render(ts)) == render(ts),
{
    let r = render(ts);
    if ts.len() > 0 {
        lemma_render_ends(ts);
        lemma_token_text(ts[0]);
        lemma_token_text(ts.last());
        assert(!is_whitespace(r[0]));
        assert(trim_start(r) == r);
        assert(!is_whitespace(r.last()));
    }
}

/// Lexing the digits of `n` accumulates `n`.
proof fn lemma_lex_decimal(s: Seq<char>, i: int, n: nat, acc: Seq<Token>)
    requires
        0 <= i,
        i + decimal(n).len() <= s.len(),
        s.subrange(i, i + decimal(n).len()) == decimal(n),
        n <= usize::MAX,
    ensures
        lex_from(s, i, None, acc) == lex_from(s, i + decimal(n).len(), Some(n as int), acc),
        lex_fits(s, i, None) == lex_fits(s, i + decimal(n).len(), Some(n as int)),
    decreases n,
{
    lemma_digit_char(n % 10);
    let len = decimal(n).len() as int;
    if n < 10 {
        assert(s[i] == s.subrange(i, i + len)[0]);
    } else {
        let m = n / 10;
        let lm = decimal(m).len() as int;
        assert(len == lm + 1);
        assert(s.subrange(i, i + lm) =~= decimal(m)) by {
            assert(s.subrange(i, i + lm) =~= s.subrange(i, i + len).subrange(0, lm as int));
        }
        lemma_lex_decimal(s, i, m, acc);
        assert(s[i + lm] == s.subrange(i, i + len)[lm as int]);
        assert(s[i + lm] == digit_char(n % 10));
        assert(m * 10 + n % 10 == n);
    }
}

/// Lexing the text of one token, followed by a space or the end.
proof fn lemma_lex_token(s: Seq<char>, i: int, t: Token, acc: Seq<Token>)
    requires
        0 <= i,
        i + token_text(t).len() <= s.len(),
        s.subrange(i, i + token_text(t).len()) == token_text(t),
    ensures
        match t {
            Token::Number(n) => {
                &&& lex_from(s, i, None, acc) == lex_from(
                    s,
                    i + token_text(t).len(),
                    Some(n as int),
                    acc,
                )
                &&& lex_fits(s, i, None) == lex_fits(s, i + token_text(t).len(), Some(n as int))
            },
            _ => {
                &&& token_text(t).len() == 1
                &&& lex_from(s, i, None, acc) == lex_from(s, i + 1, None, acc.push(t))
                &&& lex_fits(s, i, None) == lex_fits(s, i + 1, None)
            },
        },
{
    match t {
        Token::Number(n) => {
            lemma_lex_decimal(s, i, n as nat, acc);
        },
        _ => {
            assert(s[i] == s.subrange(i, i + 1)[0]);
            assert(acc + flush(None) + seq![char_token(s[i])] =~= acc.push(t));
        },
    }
}

/// Lexing from index `i`, where the rest of `s` is the text of `ts`, adds
/// exactly `ts`.
proof fn lemma_lex_rendered(s: Seq<char>, i: int, ts: Seq<Token>, acc: Seq<Token>)
    requires
        0 <= i <= s.len(),
        s.subrange(i, s.len() as int) == render(ts),
    ensures
        lex_from(s, i, None, acc) == Ok::<Seq<Token>, LexError>(acc + ts),
        lex_fits(s, i, None),
    decreases ts.len(),
{
    if ts.len() == 0 {
        assert(s.subrange(i, s.len() as int).len() == 0);
        assert(acc + flush(None) =~= acc + ts);
    } else {
        let t = ts[0];
        let len = token_text(t).len() as int;
        let rest = ts.drop_first();
        if ts.len() == 1 {
            assert(render(ts) == token_text(t));
        } else {
            lemma_render_front(ts);
        }
        assert(s.subrange(i, i + len) =~= token_text(t)) by {
            assert(s.subrange(i, i + len) =~= s.subrange(i, s.len() as int).subrange(0, len as int));
        }
        lemma_lex_token(s, i, t, acc);
        let next_buf = match t {
            Token::Number(n) => Some(n as int),
            _ => None,
        };
        let next_acc = match t {
            Token::Number(n) => acc,
            _ => acc.push(t),
        };
        assert(next_acc + flush(next_buf) =~= acc.push(t));
        assert(lex_from(s, i, None, acc) == lex_from(s, i + len, next_buf, next_acc));
        assert(lex_fits(s, i, None) == lex_fits(s, i + len, next_buf));
        if ts.len() == 1 {
            assert(i + len == s.len());
            assert(acc.push(t) =~= acc + ts);
        } else {
            assert(s[i + len] == s.subrange(i, s.len() as int)[len as int]);
            assert(s.subrange(i + len + 1, s.len() as int) =~= render(rest)) by {
                assert(s.subrange(i + len + 1, s.len() as int) =~= s.subrange(
                    i,
                    s.len() as int,
                ).subrange(len + 1, render(ts).len() as int));
            }
            lemma_lex_rendered(s, i + len + 1, rest, acc.push(t));
            assert(acc.push(t) + rest =~= acc + ts);
        }
    }
}

/// Rendering tokens and lexing the text gives the same tokens.
pub proof fn lemma_render_then_lex(ts: Seq<Token>)
    ensures
        lexable(render(ts)),
        lex(render(ts)) == Ok::<Seq<Token>, LexError>(ts),
{
    let r = render(ts);
    lemma_trim_rendered(ts);
    assert(r.subrange(0, r.len() as int) =~= r);
    lemma_lex_rendered(r, 0, ts, Seq::empty());
    assert(Seq::<Token>::empty() + ts =~= ts);
}

/// Lexing text, rendering the tokens and lexing again gives the same tokens.
pub proof fn lemma_lex_render_round_trip(s: Seq<char>)
    requires
        lexable(s),
        lex(s) is Ok,
    ensures
        lexable(render(lex(s)->Ok_0)),
        lex(render(lex(s)->Ok_0)) == lex(s),
{
    lemma_render_then_lex(lex(s)->Ok_0);
}

} // verus!
