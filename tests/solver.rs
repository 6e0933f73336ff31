use vorderman::expr::{Expression, Token};
use vorderman::postfix::PostfixExpression;
use vorderman::rational::Rational;
use vorderman::round::{NumbersRound, NumbersRoundError};
use vorderman::search::search;
use vorderman::solver::{find_solution, find_solutions};
use vorderman::state::SearchState;

fn round(target: usize, numbers: Vec<usize>) -> NumbersRound {
    NumbersRound { numbers, target }
}

fn value_of(p: PostfixExpression) -> Rational {
    p.evaluate().unwrap()
}

fn target_value(target: usize) -> Rational {
    Rational::from_integer(target as i64)
}

#[test]
fn find_single_solution_3() {
    let solution = find_solution(round(3, vec![1, 2]), false);
    assert_eq!(value_of(solution.unwrap()), target_value(3));
}

#[test]
fn find_all_solutions_3() {
    let solutions = find_solutions(round(3, vec![1, 2]), false);
    assert!(solutions.len() > 0);
}

#[test]
fn valid_numbers_round_3() {
    let solution = search(round(3, vec![1, 2]), false);
    assert_eq!(value_of(solution.unwrap()), target_value(3));
}

#[test]
fn find_single_solution_55() {
    let solution = find_solution(round(55, vec![6, 5, 1, 25]), false);
    assert_eq!(value_of(solution.unwrap()), target_value(55));
}

#[test]
fn find_all_solutions_55() {
    let solutions = find_solutions(round(55, vec![6, 5, 1, 25]), false);
    assert!(solutions.len() > 0);
}

#[test]
fn valid_numbers_round_55() {
    let solution = search(round(55, vec![6, 5, 1, 25]), false);
    assert_eq!(value_of(solution.unwrap()), target_value(55));
}

#[test]
fn find_single_solution_146() {
    let solution = find_solution(round(146, vec![10, 7, 9, 14]), false);
    assert_eq!(value_of(solution.unwrap()), target_value(146));
}

#[test]
fn find_all_solutions_146() {
    let solutions = find_solutions(round(146, vec![10, 7, 9, 14]), false);
    assert!(solutions.len() > 0);
}

#[test]
fn valid_numbers_round_146() {
    let solution = search(round(146, vec![10, 7, 9, 14]), false);
    assert_eq!(value_of(solution.unwrap()), target_value(146));
}

#[test]
fn find_single_solution_321() {
    let solution = find_solution(round(321, vec![1, 2, 3, 5, 10, 100]), false);
    assert_eq!(value_of(solution.unwrap()), target_value(321));
}

#[test]
fn find_all_solutions_321() {
    let solutions = find_solutions(round(321, vec![1, 2, 3, 5, 10, 100]), false);
    assert!(solutions.len() > 0);
}

#[test]
fn valid_numbers_round_321() {
    let solution = search(round(321, vec![1, 2, 3, 5, 10, 100]), false);
    assert_eq!(value_of(solution.unwrap()), target_value(321));
}

#[test]
fn find_single_solution_322() {
    let solution = find_solution(round(322, vec![2, 2, 3, 5, 10, 100]), false);
    assert_eq!(value_of(solution.unwrap()), target_value(322));
}

#[test]
fn find_all_solutions_322() {
    let solutions = find_solutions(round(322, vec![2, 2, 3, 5, 10, 100]), false);
    assert!(solutions.len() > 0);
}

#[test]
fn valid_numbers_round_322() {
    let solution = search(round(322, vec![2, 2, 3, 5, 10, 100]), false);
    assert_eq!(value_of(solution.unwrap()), target_value(322));
}

#[test]
fn find_single_solution_120() {
    let solution = find_solution(round(120, vec![8, 3, 7, 2, 5, 4]), false);
    assert_eq!(value_of(solution.unwrap()), target_value(120));
}

#[test]
fn find_all_solutions_120() {
    let solutions = find_solutions(round(120, vec![8, 3, 7, 2, 5, 4]), false);
    assert!(solutions.len() > 0);
}

#[test]
fn valid_numbers_round_120() {
    let solution = search(round(120, vec![8, 3, 7, 2, 5, 4]), false);
    assert_eq!(value_of(solution.unwrap()), target_value(120));
}

#[test]
fn find_single_solution_615() {
    let solution = find_solution(round(615, vec![25, 3, 7, 2, 5, 4]), false);
    assert_eq!(value_of(solution.unwrap()), target_value(615));
}

#[test]
fn find_all_solutions_615() {
    let solutions = find_solutions(round(615, vec![25, 3, 7, 2, 5, 4]), false);
    assert!(solutions.len() > 0);
}

#[test]
fn valid_numbers_round_615() {
    let solution = search(round(615, vec![25, 3, 7, 2, 5, 4]), false);
    assert_eq!(value_of(solution.unwrap()), target_value(615));
}

#[test]
fn find_single_solution_813() {
    let solution = find_solution(round(813, vec![1, 10, 25, 50, 75, 100]), false);
    assert_eq!(value_of(solution.unwrap()), target_value(813));
}

#[test]
fn find_all_solutions_813() {
    let solutions = find_solutions(round(813, vec![1, 10, 25, 50, 75, 100]), false);
    assert!(solutions.len() > 0);
}

#[test]
fn valid_numbers_round_813() {
    let solution = search(round(813, vec![1, 10, 25, 50, 75, 100]), false);
    assert_eq!(value_of(solution.unwrap()), target_value(813));
}

#[test]
fn find_single_solution_952() {
    let solution = find_solution(round(952, vec![3, 6, 25, 50, 75, 100]), false);
    assert_eq!(value_of(solution.unwrap()), target_value(952));
}

#[test]
fn find_all_solutions_952() {
    let solutions = find_solutions(round(952, vec![3, 6, 25, 50, 75, 100]), false);
    assert!(solutions.len() > 0);
}

#[test]
fn valid_numbers_round_952() {
    let solution = search(round(952, vec![3, 6, 25, 50, 75, 100]), false);
    assert_eq!(value_of(solution.unwrap()), target_value(952));
}

#[test]
fn impossible_numbers_round_30() {
    assert!(find_solution(round(30, vec![1, 2]), false).is_none());
}

#[test]
fn impossible_search_30() {
    assert!(search(round(30, vec![1, 2]), false).is_none());
}

#[test]
fn impossible_numbers_round_3000() {
    assert!(find_solution(round(3000, vec![2, 3, 5, 10]), false).is_none());
}

#[test]
fn impossible_search_3000() {
    assert!(search(round(3000, vec![2, 3, 5, 10]), false).is_none());
}

#[test]
fn impossible_numbers_round_30000() {
    assert!(find_solution(round(30000, vec![2, 3, 5, 8, 10]), false).is_none());
}

#[test]
fn impossible_search_30000() {
    assert!(search(round(30000, vec![2, 3, 5, 8, 10]), false).is_none());
}

#[test]
fn impossible_numbers_round_300000() {
    assert!(find_solution(round(300000, vec![2, 3, 5, 8, 9, 10]), false).is_none());
}

#[test]
fn impossible_search_300000() {
    assert!(search(round(300000, vec![2, 3, 5, 8, 9, 10]), false).is_none());
}

#[test]
fn find_solution_with_intermediate_fractions() {
    let solution = find_solution(round(42, vec![1, 4, 5, 8]), true);
    assert_eq!(value_of(solution.unwrap()), target_value(42));
}

#[test]
fn valid_numbers_round_with_intermediate_fractions() {
    let solution = search(round(42, vec![1, 4, 5, 8]), true);
    assert_eq!(value_of(solution.unwrap()), target_value(42));
}

#[test]
fn fractions_needed_for_42() {
    assert!(find_solution(round(42, vec![1, 4, 5, 8]), false).is_none());
}

#[test]
fn every_found_solution_reaches_the_target() {
    for (target, numbers) in [(3, vec![1, 2]), (55, vec![6, 5, 1, 25]), (24, vec![4, 6, 1])] {
        let solutions = find_solutions(round(target, numbers), false);
        assert!(!solutions.is_empty());
        for s in solutions {
            assert!(s.validate());
            assert_eq!(value_of(s), target_value(target));
        }
    }
}

#[test]
fn first_solution_is_among_all_solutions() {
    for (target, numbers) in [(3, vec![1, 2]), (55, vec![6, 5, 1, 25]), (42, vec![1, 4, 5, 8])] {
        let first = find_solution(round(target, numbers.clone()), true).unwrap();
        let all = find_solutions(round(target, numbers), true);
        assert_eq!(all[0], first);
        assert!(all.contains(&first));
    }
}

#[test]
fn first_solution_in_discovery_order() {
    let first = find_solution(round(3, vec![1, 2]), false).unwrap();
    assert_eq!(first.0.to_string(), "2 1 +".to_string());
    let all = find_solutions(round(3, vec![1, 2]), false);
    let texts: Vec<String> = all.iter().map(|p| p.0.to_string()).collect();
    assert_eq!(texts, vec!["2 1 +".to_string()]);
}

#[test]
fn single_number_equal_to_target() {
    let first = find_solution(round(7, vec![7, 2]), false).unwrap();
    assert_eq!(first.0, Expression(vec![Token::Number(7)]));
}

#[test]
fn no_numbers_no_solution() {
    assert!(find_solution(round(1, vec![]), false).is_none());
    assert!(find_solutions(round(1, vec![]), true).is_empty());
}

#[test]
fn undo_restores_the_state() {
    let mut state = SearchState::new(vec![3, 1, 3, 2]);
    state.apply(Token::Number(3));
    state.apply(Token::Number(2));
    let expression = state.expression.clone();
    let stack = state.stack.clone();
    let remaining = state.remaining.clone();
    assert_eq!(remaining, vec![1, 3]);
    for t in [
        Token::Operation(vorderman::expr::Operation::Subtract),
        Token::Operation(vorderman::expr::Operation::Divide),
        Token::Number(3),
        Token::Number(1),
    ] {
        state.apply(t);
        state.undo();
        assert_eq!(state.expression, expression);
        assert_eq!(state.stack, stack);
        assert_eq!(state.remaining, remaining);
    }
    state.undo();
    state.undo();
    assert_eq!(state.remaining, vec![3, 1, 3, 2]);
    assert!(state.stack.is_empty());
}

#[test]
fn legal_moves_prune_by_order_and_divisibility() {
    let mut state = SearchState::new(vec![6, 4]);
    state.apply(Token::Number(6));
    state.apply(Token::Number(4));
    let strict = state.legal_moves(false);
    assert_eq!(strict.len(), 3);
    let loose = state.legal_moves(true);
    assert_eq!(loose.len(), 4);
    let mut other = SearchState::new(vec![4, 6]);
    other.apply(Token::Number(4));
    other.apply(Token::Number(6));
    assert!(other.legal_moves(false).is_empty());
    assert_eq!(other.legal_moves(true).len(), 1);
}

#[test]
fn round_sizes_are_checked() {
    assert_eq!(NumbersRound::new(1), Err(NumbersRoundError::TooFewSmalls));
    assert_eq!(NumbersRound::new(7), Err(NumbersRoundError::TooManySmalls));
    for n_small in 2..=6u8 {
        let r = NumbersRound::new(n_small).unwrap();
        assert_eq!(r.numbers.len(), 6);
        assert!(1 <= r.target && r.target <= 999);
        for (i, n) in r.numbers.iter().enumerate() {
            if i < n_small as usize {
                assert!(1 <= *n && *n <= 10);
            } else {
                assert!([25, 50, 75, 100].contains(n));
            }
        }
        assert!(r.is_searchable());
    }
}

#[test]
fn round_from_draws_pops_from_the_end() {
    let smalls = vec![1, 2, 3, 4, 5, 6, 7];
    let bigs = vec![25, 50, 75, 100];
    let r = NumbersRound::from_draws(3, &smalls, &bigs, 500).unwrap();
    assert_eq!(r.numbers, vec![7, 6, 5, 100, 75, 50]);
    assert_eq!(r.target, 500);
    assert_eq!(
        NumbersRound::from_draws(0, &smalls, &bigs, 1),
        Err(NumbersRoundError::TooFewSmalls)
    );
}

#[test]
fn searchable_rounds() {
    assert!(round(999, vec![100, 75, 50, 25, 10, 10]).is_searchable());
    assert!(!round(1, vec![usize::MAX]).is_searchable());
    assert!(!round(usize::MAX, vec![1]).is_searchable());
    assert!(!round(1, vec![1 << 32, 1 << 32]).is_searchable());
}
