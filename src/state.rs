//! The mutable state of one search: the expression built so far, its value
//! stack, the numbers not yet used, and what undoing each move needs.

use crate::expr::{frac_apply, Expression, Operation, Token};
use crate::postfix::{
    count_numbers, count_operations, eval_stack, has_no_parenthesis, lemma_eval_stack_shape,
    lemma_number_weight_positive, lemma_top_two_fit, number_weight, prefixes_have_operands,
    values,
};
use crate::rational::{
    fits_together, frac_div, frac_ge, frac_is_zero, frac_of_int, i64_max, wf_frac, Rational,
};
use vstd::prelude::*;

verus! {

/// The contents of a [`SearchState`].
pub ghost struct SearchView {
    pub expr: Seq<Token>,
    pub stack: Seq<(int, int)>,
    pub remaining: Seq<usize>,
    /// Operands consumed by each operation, right operand first.
    pub history: Seq<(int, int)>,
    /// Index in `remaining` from which each number was taken.
    pub taken: Seq<int>,
}

/// Index of the first `n` in `s` from index `i` on (`s.len()` if none).
pub open spec fn first_index_from(s: Seq<usize>, n: usize, i: int) -> int
    decreases s.len() - i,
{
    if i >= s.len() || i < 0 {
        s.len() as int
    } else if s[i] == n {
        i
    } else {
        first_index_from(s, n, i + 1)
    }
}

pub open spec fn first_index(s: Seq<usize>, n: usize) -> int {
    first_index_from(s, n, 0)
}

/// Product of `n + 1` over the numbers of `s`.
pub open spec fn remaining_weight(s: Seq<usize>) -> int
    decreases s.len(),
{
    if s.len() == 0 {
        1
    } else {
        remaining_weight(s.drop_last()) * (s.last() + 1)
    }
}

/// A move that may be applied: an unused number, or an operation with two
/// values on the stack (a division only by a non-zero value).
pub open spec fn is_legal(v: SearchView, t: Token) -> bool {
    match t {
        Token::Number(n) => v.remaining.contains(n),
        Token::Operation(op) => {
            &&& v.stack.len() >= 2
            &&& (op == Operation::Divide ==> !frac_is_zero(v.stack.last()))
        },
        Token::Parenthesis(_) => false,
    }
}

/// The state after appending `t`: a number moves from `remaining` to the
/// stack; an operation replaces the two top values by its result and records
/// them for undoing.
pub open spec fn apply_move(v: SearchView, t: Token) -> SearchView {
    match t {
        Token::Number(n) => {
            let k = first_index(v.remaining, n);
            SearchView {
                expr: v.expr.push(t),
                stack: v.stack.push(frac_of_int(n as int)),
                remaining: v.remaining.remove(k),
                history: v.history,
                taken: v.taken.push(k),
            }
        },
        Token::Operation(op) => {
            let len = v.stack.len();
            let a = v.stack[len - 2];
            let b = v.stack[len - 1];
            SearchView {
                expr: v.expr.push(t),
                stack: v.stack.take(len - 2).push(frac_apply(op, a, b)),
                remaining: v.remaining,
                history: v.history.push(b).push(a),
                taken: v.taken,
            }
        },
        Token::Parenthesis(_) => v,
    }
}

/// The last move can be undone.
pub open spec fn is_undoable(v: SearchView) -> bool {
    &&& v.expr.len() > 0
    &&& v.stack.len() > 0
    &&& match v.expr.last() {
        Token::Number(_) => v.taken.len() > 0 && 0 <= v.taken.last() <= v.remaining.len(),
        Token::Operation(_) => v.history.len() >= 2,
        Token::Parenthesis(_) => false,
    }
}

/// The state before the last move.
pub open spec fn undo_move(v: SearchView) -> SearchView {
    match v.expr.last() {
        Token::Number(n) => SearchView {
            expr: v.expr.drop_last(),
            stack: v.stack.drop_last(),
            remaining: v.remaining.insert(v.taken.last(), n),
            history: v.history,
            taken: v.taken.drop_last(),
        },
        Token::Operation(_) => {
            let h = v.history.len();
            SearchView {
                expr: v.expr.drop_last(),
                stack: v.stack.drop_last().push(v.history[h - 1]).push(v.history[h - 2]),
                remaining: v.remaining,
                history: v.history.take(h - 2),
                taken: v.taken,
            }
        },
        Token::Parenthesis(_) => v,
    }
}

/// The stack is what the expression evaluates to so far, and the expression
/// is a prefix of a valid postfix expression.
pub open spec fn is_consistent(v: SearchView) -> bool {
    &&& eval_stack(v.expr) == Some(v.stack)
    &&& has_no_parenthesis(v.expr)
    &&& prefixes_have_operands(v.expr)
}

/// Every value that can still be built fits in `i64`.
pub open spec fn is_bounded(v: SearchView) -> bool {
    number_weight(v.expr) * remaining_weight(v.remaining) <= i64_max()
}

/// Every value on the stack is in lowest terms.
pub open spec fn stack_reduced(v: SearchView) -> bool {
    forall|j: int| 0 <= j < v.stack.len() ==> wf_frac(#[trigger] v.stack[j])
}

pub open spec fn number_moves(remaining: Seq<usize>) -> Seq<Token> {
    remaining.map_values(|n: usize| Token::Number(n))
}

/// Operations offered on the two top values `a` (left) and `b` (right):
/// addition, subtraction and multiplication when `a >= b`; division by a
/// non-zero `b` when fractions are allowed or `a >= b` and `b` divides `a`.
pub open spec fn operation_moves(stack: Seq<(int, int)>, allow_fractions: bool) -> Seq<Token> {
    if stack.len() >= 2 {
        let a = stack[stack.len() - 2];
        let b = stack[stack.len() - 1];
        let ordered = frac_ge(a, b);
        let arith = if ordered {
            seq![
                Token::Operation(Operation::Add),
                Token::Operation(Operation::Subtract),
                Token::Operation(Operation::Multiply),
            ]
        } else {
            Seq::empty()
        };
        let div = if !frac_is_zero(b) && (allow_fractions || (ordered && frac_div(a, b).1 == 1)) {
            seq![Token::Operation(Operation::Divide)]
        } else {
            Seq::empty()
        };
        arith + div
    } else {
        Seq::empty()
    }
}

/// The legal moves in the order the search tries them: one number per
/// position of `remaining`, then the operations.
pub open spec fn moves(v: SearchView, allow_fractions: bool) -> Seq<Token> {
    number_moves(v.remaining) + operation_moves(v.stack, allow_fractions)
}

/// Twice the numbers left plus the values on the stack: every move lowers it.
pub open spec fn measure(v: SearchView) -> nat {
    2 * v.remaining.len() + v.stack.len()
}

pub proof fn lemma_first_index(s: Seq<usize>, n: usize, i: int)
    requires
        0 <= i <= s.len(),
        exists|j: int| i <= j < s.len() && s[j] == n,
    ensures
        i <= first_index_from(s, n, i) < s.len(),
        s[first_index_from(s, n, i)] == n,
    decreases s.len() - i,
{
    if s[i] != n {
        let j = choose|j: int| i <= j < s.len() && s[j] == n;
        assert(j != i);
        lemma_first_index(s, n, i + 1);
    }
}

pub proof fn lemma_remaining_weight_positive(s: Seq<usize>)
    ensures
        remaining_weight(s) >= 1,
    decreases s.len(),
{
    if s.len() > 0 {
        lemma_remaining_weight_positive(s.drop_last());
        let p = remaining_weight(s.drop_last());
        let f = s.last() + 1;
        assert(p * f >= 1) by (nonlinear_arith)
            requires
                p >= 1,
                f >= 1,
        ;
    }
}

/// Taking out one number divides the weight by that number plus one.
pub proof fn lemma_remaining_weight_remove(s: Seq<usize>, k: int)
    requires
        0 <= k < s.len(),
    ensures
        remaining_weight(s) == remaining_weight(s.remove(k)) * (s[k] + 1),
    decreases s.len(),
{
    if k == s.len() - 1 {
        assert(s.remove(k) =~= s.drop_last());
    } else {
        let d = s.drop_last();
        lemma_remaining_weight_remove(d, k);
        assert(s.remove(k).drop_last() =~= d.remove(k));
        assert(s.remove(k).last() == s.last());
        let p = remaining_weight(d.remove(k));
        let x = s[k] + 1;
        let y = s.last() + 1;
        assert(p * x * y == p * y * x) by (nonlinear_arith);
    }
}

/// Every move lowers the measure.
pub proof fn lemma_move_decreases(v: SearchView, t: Token)
    requires
        is_legal(v, t),
    ensures
        measure(apply_move(v, t)) < measure(v),
{
    if let Token::Number(n) = t {
        let j = choose|j: int| 0 <= j < v.remaining.len() && v.remaining[j] == n;
        lemma_first_index(v.remaining, n, 0);
    }
}

/// Undoing a move restores the state exactly as it was before the move.
pub proof fn lemma_undo_inverts_apply(v: SearchView, t: Token)
    requires
        is_legal(v, t),
    ensures
        is_undoable(apply_move(v, t)),
        undo_move(apply_move(v, t)) == v,
{
    let w = apply_move(v, t);
    assert(w.expr.drop_last() =~= v.expr);
    match t {
        Token::Number(n) => {
            let j = choose|j: int| 0 <= j < v.remaining.len() && v.remaining[j] == n;
            lemma_first_index(v.remaining, n, 0);
            let k = first_index(v.remaining, n);
            assert(w.stack.drop_last() =~= v.stack);
            assert(w.taken.drop_last() =~= v.taken);
            assert(w.remaining.insert(k, n) =~= v.remaining);
        },
        Token::Operation(op) => {
            let len = v.stack.len();
            assert(undo_move(w).stack =~= v.stack);
            assert(w.history.take(w.history.len() - 2) =~= v.history);
        },
        Token::Parenthesis(_) => {},
    }
}

/// Legal moves keep the state consistent.
pub proof fn lemma_apply_consistent(v: SearchView, t: Token)
    requires
        is_consistent(v),
        is_legal(v, t),
    ensures
        is_consistent(apply_move(v, t)),
{
    let w = apply_move(v, t);
    assert(w.expr.drop_last() =~= v.expr);
    assert(w.expr.last() == t);
    lemma_eval_stack_shape(v.expr);
    if let Token::Number(n) = t {
        let j = choose|j: int| 0 <= j < v.remaining.len() && v.remaining[j] == n;
        lemma_first_index(v.remaining, n, 0);
    }
    assert forall|i: int| 0 <= i < w.expr.len() implies !(#[trigger] w.expr[i] is Parenthesis) by {
        if i < v.expr.len() {
            assert(w.expr[i] == v.expr[i]);
        }
    }
    assert forall|k: int| 1 <= k <= w.expr.len() implies count_numbers(#[trigger] w.expr.take(k))
        > count_operations(w.expr.take(k)) by {
        if k <= v.expr.len() {
            assert(w.expr.take(k) =~= v.expr.take(k));
        } else {
            assert(w.expr.take(k) =~= w.expr);
            if v.expr.len() > 0 {
                assert(v.expr.take(v.expr.len() as int) =~= v.expr);
            }
        }
    }
}

/// Legal moves keep every value that can still be built within `i64`.
pub proof fn lemma_apply_bounded(v: SearchView, t: Token)
    requires
        is_bounded(v),
        is_legal(v, t),
    ensures
        is_bounded(apply_move(v, t)),
{
    let w = apply_move(v, t);
    assert(w.expr.drop_last() =~= v.expr);
    if let Token::Number(n) = t {
        let j = choose|j: int| 0 <= j < v.remaining.len() && v.remaining[j] == n;
        lemma_first_index(v.remaining, n, 0);
        let k = first_index(v.remaining, n);
        lemma_remaining_weight_remove(v.remaining, k);
        let p = number_weight(v.expr);
        let q = remaining_weight(w.remaining);
        let f = n + 1;
        assert(p * f * q == p * (q * f)) by (nonlinear_arith);
    }
}

/// In a consistent, bounded state the two top values fit together.
pub proof fn lemma_top_values_fit(v: SearchView)
    requires
        is_consistent(v),
        is_bounded(v),
        v.stack.len() >= 2,
    ensures
        fits_together(v.stack[v.stack.len() - 2], v.stack[v.stack.len() - 1]),
{
    lemma_eval_stack_shape(v.expr);
    lemma_top_two_fit(v.stack);
    lemma_remaining_weight_positive(v.remaining);
    let p = number_weight(v.expr);
    let q = remaining_weight(v.remaining);
    assert(p <= p * q) by (nonlinear_arith)
        requires
            q >= 1,
            p >= 0,
    ;
}

/// The state of one search.
pub struct SearchState {
    pub expression: Expression,
    pub stack: Vec<Rational>,
    pub remaining: Vec<usize>,
    pub history: Vec<Rational>,
    pub taken: Vec<usize>,
}

impl SearchState {
    pub open spec fn view(&self) -> SearchView {
        SearchView {
            expr: self.expression@,
            stack: values(self.stack@),
            remaining: self.remaining@,
            history: values(self.history@),
            taken: self.taken@.map_values(|k: usize| k as int),
        }
    }

    /// The state at the start of a search over `numbers`.
    pub fn new(numbers: Vec<usize>) -> (r: SearchState)
        ensures
            r.view() == initial_view(numbers@),
    {
        let r = SearchState {
            expression: Expression::new(),
            stack: Vec::new(),
            remaining: numbers,
            history: Vec::new(),
            taken: Vec::new(),
        };
        assert(values(r.stack@) =~= Seq::<(int, int)>::empty());
        assert(values(r.history@) =~= Seq::<(int, int)>::empty());
        assert(r.view().taken =~= Seq::<int>::empty());
        r
    }

    /// The legal moves, in the order the search tries them.
    pub fn legal_moves(&self, allow_fractions: bool) -> (r: Vec<Token>)
        requires
            is_consistent(self.view()),
            is_bounded(self.view()),
            stack_reduced(self.view()),
        ensures
            r@ == moves(self.view(), allow_fractions),
    {
        let ghost v = self.view();
        let mut options: Vec<Token> = Vec::new();
        let mut i: usize = 0;
        while i < self.remaining.len()
            invariant
                i <= self.remaining.len(),
                options@ == number_moves(self.remaining@.take(i as int)),
            decreases self.remaining.len() - i,
        {
            options.push(Token::Number(self.remaining[i]));
            i += 1;
            assert(options@ =~= number_moves(self.remaining@.take(i as int)));
        }
        assert(self.remaining@.take(i as int) =~= self.remaining@);
        let ghost numbers = options@;
        let len = self.stack.len();
        if len >= 2 {
            let a = self.stack[len - 2];
            let b = self.stack[len - 1];
            assert(a@ == v.stack[len - 2]);
            assert(b@ == v.stack[len - 1]);
            proof {
                lemma_top_values_fit(v);
            }
            let ordered = a.ge(&b);
            if ordered {
                options.push(Token::Operation(Operation::Add));
                options.push(Token::Operation(Operation::Subtract));
                options.push(Token::Operation(Operation::Multiply));
            }
            let ghost arith = options@;
            if !b.is_zero() {
                let divisible = allow_fractions || (ordered && match a.div(&b) {
                    Ok(q) => q.is_integer(),
                    Err(_) => false,
                });
                if divisible {
                    options.push(Token::Operation(Operation::Divide));
                }
            }
            assert(options@ =~= moves(v, allow_fractions));
        } else {
            assert(options@ =~= moves(v, allow_fractions));
        }
        options
    }

    /// Appends `t` to the expression and updates the stack, the numbers left
    /// and the undo records.
    pub fn apply(&mut self, t: Token)
        requires
            is_consistent(old(self).view()),
            is_bounded(old(self).view()),
            stack_reduced(old(self).view()),
            is_legal(old(self).view(), t),
        ensures
            final(self).view() == apply_move(old(self).view(), t),
            stack_reduced(final(self).view()),
    {
        let ghost v = self.view();
        match t {
            Token::Number(n) => {
                let ghost j = choose|j: int| 0 <= j < v.remaining.len() && v.remaining[j] == n;
                proof {
                    lemma_first_index(v.remaining, n, 0);
                    let k = first_index(v.remaining, n);
                    lemma_remaining_weight_remove(v.remaining, k);
                    lemma_number_weight_positive(v.expr);
                    lemma_remaining_weight_positive(v.remaining.remove(k));
                    let p = number_weight(v.expr);
                    let q = remaining_weight(v.remaining.remove(k));
                    assert(n + 1 <= p * (q * (n + 1))) by (nonlinear_arith)
                        requires
                            p >= 1,
                            q >= 1,
                            n >= 0,
                    ;
                }
                let x = Rational::from_integer(n as i64);
                self.stack.push(x);
                let k = self.index_of(n);
                self.remaining.remove(k);
                self.taken.push(k);
                assert(values(self.stack@) =~= v.stack.push(x@));
                assert(self.view().taken =~= v.taken.push(k as int));
            },
            Token::Operation(op) => {
                proof {
                    lemma_top_values_fit(v);
                }
                let b = self.stack.pop().unwrap();
                let a = self.stack.pop().unwrap();
                assert(a@ == v.stack[v.stack.len() - 2]);
                assert(b@ == v.stack[v.stack.len() - 1]);
                if let Ok(x) = op.apply(&a, &b) {
                    self.stack.push(x);
                    assert(values(self.stack@) =~= v.stack.take(v.stack.len() - 2).push(x@));
                }
                self.history.push(b);
                self.history.push(a);
                assert(values(self.history@) =~= v.history.push(b@).push(a@));
            },
            Token::Parenthesis(_) => {},
        }
        self.expression.0.push(t);
    }

    /// Takes back the last move.
    pub fn undo(&mut self)
        requires
            is_undoable(old(self).view()),
        ensures
            final(self).view() == undo_move(old(self).view()),
    {
        let ghost v = self.view();
        self.stack.pop();
        assert(values(self.stack@) =~= v.stack.drop_last());
        let last = self.expression.0.pop().unwrap();
        match last {
            Token::Number(n) => {
                let k = self.taken.pop().unwrap();
                assert(self.view().taken =~= v.taken.drop_last());
                self.remaining.insert(k, n);
            },
            Token::Operation(_) => {
                let ghost h = v.history;
                let a = self.history.pop().unwrap();
                self.stack.push(a);
                let b = self.history.pop().unwrap();
                self.stack.push(b);
                assert(values(self.stack@) =~= v.stack.drop_last().push(h[h.len() - 1]).push(
                    h[h.len() - 2],
                ));
                assert(values(self.history@) =~= h.take(h.len() - 2));
            },
            Token::Parenthesis(_) => {},
        }
    }

    /// Position of the first `n` among the numbers left.
    fn index_of(&self, n: usize) -> (k: usize)
        requires
            self.remaining@.contains(n),
        ensures
            k == first_index(self.remaining@, n),
            k < self.remaining.len(),
    {
        let ghost s = self.remaining@;
        proof {
            lemma_first_index(s, n, 0);
        }
        let mut k: usize = 0;
        while self.remaining[k] != n
            invariant
                s == self.remaining@,
                s.len() == self.remaining.len(),
                k <= first_index(s, n),
                first_index(s, n) < s.len(),
                s[first_index(s, n)] == n,
                first_index_from(s, n, k as int) == first_index(s, n),
            decreases s.len() - k,
        {
            assert(first_index_from(s, n, k as int) == first_index_from(s, n, k + 1));
            assert(k < self.remaining.len());
            k += 1;
        }
        k
    }
}

/// The state at the start of a search over `numbers`.
pub open spec fn initial_view(numbers: Seq<usize>) -> SearchView {
    SearchView {
        expr: Seq::empty(),
        stack: Seq::empty(),
        remaining: numbers,
        history: Seq::empty(),
        taken: Seq::empty(),
    }
}

} // verus!
