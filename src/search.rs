//! One-shot search for a single solution.

use crate::postfix::PostfixExpression;
use crate::round::{searchable, NumbersRound};
use crate::solver::{all_solutions, expressions, first_of, Solver};
use vstd::prelude::*;

verus! {

/// The first solution of the round, if there is one: the search stops as
/// soon as it finds it.
pub fn search(numbers_round: NumbersRound, allow_fractional_intermediate_values: bool) -> (r:
    Option<PostfixExpression>)
    requires
        searchable(numbers_round.numbers@, numbers_round.target as int),
    ensures
        match r {
            Some(p) => {
                let all = all_solutions(
                    numbers_round.numbers@,
                    numbers_round.target as int,
                    allow_fractional_intermediate_values,
                );
                all.len() > 0 && p@ == all[0]
            },
            None => all_solutions(
                numbers_round.numbers@,
                numbers_round.target as int,
                allow_fractional_intermediate_values,
            ).len() == 0,
        },
{
    let ghost all = all_solutions(
        numbers_round.numbers@,
        numbers_round.target as int,
        allow_fractional_intermediate_values,
    );
    let mut solver = Solver::new(numbers_round, allow_fractional_intermediate_values, true);
    solver.find_solutions();
    assert(expressions(solver.solutions@).len() == solver.solutions.len());
    if solver.solutions.len() > 0 {
        let p = PostfixExpression(solver.solutions[0].0.copy());
        assert(p@ == expressions(solver.solutions@)[0]);
        assert(all.len() > 0);
        Some(p)
    } else {
        assert(first_of(all).len() == 0);
        None
    }
}

} // verus!
