//! Depth-first backtracking search for expressions that reach the target.

use crate::expr::Token;
use crate::postfix::{
    is_valid_postfix, lemma_eval_stack_shape, postfix_value, PostfixExpression,
};
use crate::rational::{frac_is_zero, frac_of_int, lemma_view_injective, wf_frac, Rational};
use crate::round::{searchable, NumbersRound};
use crate::state::{
    apply_move, initial_view, is_bounded, is_consistent, is_legal, lemma_apply_bounded,
    lemma_apply_consistent, lemma_move_decreases, lemma_undo_inverts_apply, measure, moves,
    operation_moves, number_moves, stack_reduced, SearchState, SearchView,
};
use vstd::prelude::*;

verus! {

/// The expression of `v`, when its stack holds exactly the target.
pub open spec fn found_here(v: SearchView, target: (int, int)) -> Seq<Seq<Token>> {
    if v.stack.len() == 1 && v.stack[0] == target {
        seq![v.expr]
    } else {
        Seq::empty()
    }
}

/// No move from `v` is tried: every number is used and one value is left,
/// or the top value is zero.
pub open spec fn is_dead_end(v: SearchView) -> bool {
    ||| (v.remaining.len() == 0 && v.stack.len() == 1)
    ||| (v.stack.len() > 0 && frac_is_zero(v.stack.last()))
}

/// Every solution found from `v`, in the order of discovery.
pub open spec fn solutions_from(v: SearchView, target: (int, int), allow_fractions: bool) -> Seq<
    Seq<Token>,
>
    decreases measure(v), 1nat, 0nat,
{
    if is_dead_end(v) {
        found_here(v, target)
    } else {
        found_here(v, target) + solutions_of_moves(v, target, allow_fractions, 0)
    }
}

/// The solutions found below the moves of `v` from the `k`-th on.
pub open spec fn solutions_of_moves(
    v: SearchView,
    target: (int, int),
    allow_fractions: bool,
    k: int,
) -> Seq<Seq<Token>>
    decreases measure(v), 0nat, (moves(v, allow_fractions).len() - k) as nat,
{
    let ms = moves(v, allow_fractions);
    if k < 0 || k >= ms.len() {
        Seq::empty()
    } else {
        let child = apply_move(v, ms[k]);
        let below = if measure(child) < measure(v) {
            solutions_from(child, target, allow_fractions)
        } else {
            Seq::empty()
        };
        below + solutions_of_moves(v, target, allow_fractions, k + 1)
    }
}

/// All solutions for a round, in the order the search finds them.
pub open spec fn all_solutions(numbers: Seq<usize>, target: int, allow_fractions: bool) -> Seq<
    Seq<Token>,
> {
    solutions_from(initial_view(numbers), frac_of_int(target), allow_fractions)
}

/// The first element of `s`, if any.
pub open spec fn first_of(s: Seq<Seq<Token>>) -> Seq<Seq<Token>> {
    if s.len() == 0 {
        Seq::empty()
    } else {
        seq![s[0]]
    }
}

pub open spec fn expressions(v: Seq<PostfixExpression>) -> Seq<Seq<Token>> {
    v.map_values(|p: PostfixExpression| p@)
}

/// Every move offered is legal.
pub proof fn lemma_moves_legal(v: SearchView, allow_fractions: bool, k: int)
    requires
        0 <= k < moves(v, allow_fractions).len(),
    ensures
        is_legal(v, moves(v, allow_fractions)[k]),
{
    let nm = number_moves(v.remaining);
    if k < nm.len() {
        assert(moves(v, allow_fractions)[k] == Token::Number(v.remaining[k]));
    } else {
        let om = operation_moves(v.stack, allow_fractions);
        assert(moves(v, allow_fractions)[k] == om[k - nm.len()]);
    }
}

/// Each solution found from a consistent state is a valid postfix expression
/// whose value is the target.
pub proof fn lemma_solutions_sound(v: SearchView, target: (int, int), allow_fractions: bool)
    requires
        is_consistent(v),
    ensures
        forall|i: int|
            0 <= i < solutions_from(v, target, allow_fractions).len() ==> {
                let e = #[trigger] solutions_from(v, target, allow_fractions)[i];
                is_valid_postfix(e) && postfix_value(e) == Some(target)
            },
    decreases measure(v), 1nat, 0nat,
{
    let here = found_here(v, target);
    if here.len() > 0 {
        lemma_eval_stack_shape(v.expr);
        if v.expr.len() > 0 {
            assert(v.expr.take(v.expr.len() as int) =~= v.expr);
        }
    }
    if !is_dead_end(v) {
        lemma_move_solutions_sound(v, target, allow_fractions, 0);
    }
}

pub proof fn lemma_move_solutions_sound(
    v: SearchView,
    target: (int, int),
    allow_fractions: bool,
    k: int,
)
    requires
        is_consistent(v),
    ensures
        forall|i: int|
            0 <= i < solutions_of_moves(v, target, allow_fractions, k).len() ==> {
                let e = #[trigger] solutions_of_moves(v, target, allow_fractions, k)[i];
                is_valid_postfix(e) && postfix_value(e) == Some(target)
            },
    decreases measure(v), 0nat, (moves(v, allow_fractions).len() - k) as nat,
{
    let ms = moves(v, allow_fractions);
    if 0 <= k < ms.len() {
        lemma_moves_legal(v, allow_fractions, k);
        let child = apply_move(v, ms[k]);
        lemma_move_decreases(v, ms[k]);
        lemma_apply_consistent(v, ms[k]);
        lemma_solutions_sound(child, target, allow_fractions);
        lemma_move_solutions_sound(v, target, allow_fractions, k + 1);
    }
}

/// Every solution of a round is a valid postfix expression whose exact value
/// is the target.
pub proof fn lemma_found_solutions_reach_target(
    numbers: Seq<usize>,
    target: int,
    allow_fractions: bool,
)
    ensures
        forall|i: int|
            0 <= i < all_solutions(numbers, target, allow_fractions).len() ==> {
                let e = #[trigger] all_solutions(numbers, target, allow_fractions)[i];
                is_valid_postfix(e) && postfix_value(e) == Some(frac_of_int(target))
            },
{
    let v = initial_view(numbers);
    assert(crate::postfix::eval_stack(v.expr) == Some(v.stack));
    lemma_solutions_sound(v, frac_of_int(target), allow_fractions);
}

/// The solution found when stopping at the first is among those found when
/// searching on.
pub proof fn lemma_first_solution_among_all(numbers: Seq<usize>, target: int, allow_fractions: bool)
    ensures
        first_of(all_solutions(numbers, target, allow_fractions)).len() > 0 ==> all_solutions(
            numbers,
            target,
            allow_fractions,
        ).contains(first_of(all_solutions(numbers, target, allow_fractions))[0]),
{
    let all = all_solutions(numbers, target, allow_fractions);
    if all.len() > 0 {
        assert(all[0] == first_of(all)[0]);
    }
}

/// What a search is for, and whether it stops at the first solution.
#[derive(Clone, Copy, Debug, PartialEq, Eq, Structural)]
pub struct Config {
    pub target: Rational,
    pub allow_fractional_intermediate_values: bool,
    pub stop_at_first_solution: bool,
}

/// A search in progress: its configuration, its state and what it found.
pub struct Solver {
    pub config: Config,
    pub state: SearchState,
    pub solutions: Vec<PostfixExpression>,
}

impl Solver {
    pub open spec fn is_ready(&self) -> bool {
        &&& is_consistent(self.state.view())
        &&& is_bounded(self.state.view())
        &&& stack_reduced(self.state.view())
        &&& wf_frac(self.config.target@)
    }

    /// A solver at the start of a search over `numbers_round`.
    pub fn new(
        numbers_round: NumbersRound,
        allow_fractional_intermediate_values: bool,
        stop_at_first_solution: bool,
    ) -> (r: Solver)
        requires
            searchable(numbers_round.numbers@, numbers_round.target as int),
        ensures
            r.is_ready(),
            r.state.view() == initial_view(numbers_round.numbers@),
            r.config.target@ == frac_of_int(numbers_round.target as int),
            r.config.allow_fractional_intermediate_values == allow_fractional_intermediate_values,
            r.config.stop_at_first_solution == stop_at_first_solution,
            r.solutions@.len() == 0,
    {
        let config = Config {
            target: Rational::from_integer(numbers_round.target as i64),
            allow_fractional_intermediate_values,
            stop_at_first_solution,
        };
        let state = SearchState::new(numbers_round.numbers);
        Solver { config, state, solutions: Vec::new() }
    }

    /// Explores every continuation of the current state, depth first, and
    /// leaves the state as it found it.
    pub fn find_solutions(&mut self)
        requires
            old(self).is_ready(),
            old(self).config.stop_at_first_solution ==> old(self).solutions.len() == 0,
        ensures
            final(self).state.view() == old(self).state.view(),
            final(self).config == old(self).config,
            !old(self).config.stop_at_first_solution ==> expressions(final(self).solutions@)
                == expressions(old(self).solutions@) + solutions_from(
                old(self).state.view(),
                old(self).config.target@,
                old(self).config.allow_fractional_intermediate_values,
            ),
            old(self).config.stop_at_first_solution ==> expressions(final(self).solutions@)
                == first_of(
                solutions_from(
                    old(self).state.view(),
                    old(self).config.target@,
                    old(self).config.allow_fractional_intermediate_values,
                ),
            ),
        decreases measure(old(self).state.view()),
    {
        let ghost v = self.state.view();
        let ghost target = self.config.target@;
        let ghost allow = self.config.allow_fractional_intermediate_values;
        let ghost found0 = expressions(self.solutions@);
        let stop = self.config.stop_at_first_solution;
        let len = self.state.stack.len();
        if len == 1 {
            proof {
                lemma_view_injective(self.state.stack[0], self.config.target);
            }
        }
        if len == 1 && self.state.stack[0] == self.config.target {
            let e = self.state.expression.copy();
            self.solutions.push(PostfixExpression(e));
            assert(expressions(self.solutions@) =~= found0 + found_here(v, target));
            if stop {
                return;
            }
        } else {
            assert(found_here(v, target) =~= Seq::<Seq<Token>>::empty());
            assert(expressions(self.solutions@) =~= found0 + found_here(v, target));
        }
        if self.state.remaining.len() == 0 && len == 1 {
            return;
        }
        if len > 0 && self.state.stack[len - 1].is_zero() {
            return;
        }
        let options = self.state.legal_moves(self.config.allow_fractional_intermediate_values);
        let ghost here = found_here(v, target);
        let mut k: usize = 0;
        while k < options.len() && !(stop && self.solutions.len() > 0)
            invariant
                k <= options.len(),
                options@ == moves(v, allow),
                self.state.view() == v,
                self.config.target@ == target,
                self.config.allow_fractional_intermediate_values == allow,
                self.config.stop_at_first_solution == stop,
                self.config == old(self).config,
                v == old(self).state.view(),
                found0 == expressions(old(self).solutions@),
                is_consistent(v),
                is_bounded(v),
                stack_reduced(v),
                wf_frac(target),
                !is_dead_end(v),
                !stop ==> expressions(self.solutions@) + solutions_of_moves(v, target, allow, k as int)
                    == found0 + here + solutions_of_moves(v, target, allow, 0),
                stop ==> here.len() == 0 && found0.len() == 0,
                stop && self.solutions.len() == 0 ==> solutions_of_moves(v, target, allow, 0)
                    == solutions_of_moves(v, target, allow, k as int),
                stop && self.solutions.len() > 0 ==> expressions(self.solutions@) == first_of(
                    solutions_of_moves(v, target, allow, 0),
                ),
            decreases options.len() - k,
        {
            let t = options[k];
            let ghost before = expressions(self.solutions@);
            proof {
                lemma_moves_legal(v, allow, k as int);
                lemma_move_decreases(v, t);
                lemma_apply_consistent(v, t);
                lemma_apply_bounded(v, t);
                lemma_undo_inverts_apply(v, t);
            }
            self.state.apply(t);
            self.find_solutions();
            self.state.undo();
            let ghost below = solutions_from(apply_move(v, t), target, allow);
            assert(solutions_of_moves(v, target, allow, k as int) == below + solutions_of_moves(
                v,
                target,
                allow,
                k + 1,
            ));
            proof {
                if !stop {
                    assert(expressions(self.solutions@) == before + below);
                    assert(before + below + solutions_of_moves(v, target, allow, k + 1) =~= before
                        + (below + solutions_of_moves(v, target, allow, k + 1)));
                } else {
                    assert(before.len() == 0);
                    if below.len() > 0 {
                        assert(first_of(solutions_of_moves(v, target, allow, 0)) =~= first_of(
                            below,
                        ));
                    } else {
                        assert(below =~= Seq::<Seq<Token>>::empty());
                        assert(solutions_of_moves(v, target, allow, k as int)
                            =~= solutions_of_moves(v, target, allow, k + 1));
                    }
                }
            }
            k += 1;
        }
        proof {
            if k >= options.len() {
                assert(solutions_of_moves(v, target, allow, k as int) =~= Seq::<
                    Seq<Token>,
                >::empty());
            }
            if !stop {
                assert(solutions_from(v, target, allow) == here + solutions_of_moves(
                    v,
                    target,
                    allow,
                    0,
                ));
                assert(found0 + here + solutions_of_moves(v, target, allow, 0) =~= found0 + (here
                    + solutions_of_moves(v, target, allow, 0)));
                if k >= options.len() {
                    assert(expressions(self.solutions@) =~= expressions(self.solutions@)
                        + solutions_of_moves(v, target, allow, k as int));
                }
            } else {
                assert(here + solutions_of_moves(v, target, allow, 0) =~= solutions_of_moves(
                    v,
                    target,
                    allow,
                    0,
                ));
            }
        }
    }
}

/// The first solution of the round, if there is one: the search stops at
/// it. The round must be [`searchable`], so that every value built fits in
/// `i64`.
pub fn find_solution(numbers_round: NumbersRound, allow_fractional_intermediate_values: bool) -> (r:
    Option<PostfixExpression>)
    requires
        searchable(numbers_round.numbers@, numbers_round.target as int),
    ensures
        match r {
            Some(p) => {
                let all = all_solutions(
                    numbers_round.numbers@,
                    numbers_round.target as int,
                    allow_fractional_intermediate_values,
                );
                all.len() > 0 && p@ == all[0]
            },
            None => all_solutions(
                numbers_round.numbers@,
                numbers_round.target as int,
                allow_fractional_intermediate_values,
            ).len() == 0,
        },
{
    let mut solver = Solver::new(numbers_round, allow_fractional_intermediate_values, true);
    solver.find_solutions();
    let ghost all = all_solutions(
        numbers_round.numbers@,
        numbers_round.target as int,
        allow_fractional_intermediate_values,
    );
    assert(expressions(solver.solutions@).len() == solver.solutions.len());
    if solver.solutions.len() > 0 {
        let p = PostfixExpression(solver.solutions[0].0.copy());
        assert(p@ == expressions(solver.solutions@)[0]);
        assert(all.len() > 0);
        Some(p)
    } else {
        assert(first_of(all).len() == 0);
        None
    }
}

/// Every solution of the round, in the order the search finds them. The
/// round must be [`searchable`].
pub fn find_solutions(numbers_round: NumbersRound, allow_fractional_intermediate_values: bool) -> (r:
    Vec<PostfixExpression>)
    requires
        searchable(numbers_round.numbers@, numbers_round.target as int),
    ensures
        expressions(r@) == all_solutions(
            numbers_round.numbers@,
            numbers_round.target as int,
            allow_fractional_intermediate_values,
        ),
{
    let mut solver = Solver::new(numbers_round, allow_fractional_intermediate_values, false);
    solver.find_solutions();
    assert(expressions(Seq::<PostfixExpression>::empty()) =~= Seq::<Seq<Token>>::empty());
    assert(Seq::<Seq<Token>>::empty() + all_solutions(
        numbers_round.numbers@,
        numbers_round.target as int,
        allow_fractional_intermediate_values,
    ) =~= all_solutions(
        numbers_round.numbers@,
        numbers_round.target as int,
        allow_fractional_intermediate_values,
    ));
    solver.solutions
}

} // verus!
