//! A numbers round: the numbers to combine and the target to reach.

use crate::rational::i64_max;
use crate::state::remaining_weight;
use rand::seq::SliceRandom;
use rand::Rng;
use vstd::prelude::*;
use vstd::seq_lib::to_multiset_contains;

verus! {

/// The numbers of a round and the target.
#[derive(Clone, Debug, PartialEq, Eq)]
pub struct NumbersRound {
    pub numbers: Vec<usize>,
    pub target: usize,
}

#[derive(Clone, Copy, Debug, PartialEq, Eq, Structural)]
pub enum NumbersRoundError {
    TooFewSmalls,
    TooManySmalls,
}

/// The last `k` elements of `s`, last first: what `k` pops take off `s`.
pub open spec fn last_reversed(s: Seq<usize>, k: int) -> Seq<usize> {
    Seq::new(k as nat, |i: int| s[s.len() - 1 - i])
}

/// The small numbers a round draws from: 1 to 10, twice.
pub open spec fn small_pool() -> Seq<usize> {
    Seq::new(20, |i: int| (i % 10 + 1) as usize)
}

/// The large numbers a round draws from.
pub open spec fn large_pool() -> Seq<usize> {
    seq![25, 50, 75, 100]
}

pub open spec fn is_large(n: usize) -> bool {
    n == 25 || n == 50 || n == 75 || n == 100
}

/// Numbers and target small enough for every value a search can build to
/// fit in `i64`: the product of `n + 1` over the numbers is within range.
pub open spec fn searchable(numbers: Seq<usize>, target: int) -> bool {
    &&& remaining_weight(numbers) <= i64_max()
    &&& target <= i64_max()
}

/// Relies on `SliceRandom::shuffle` (with `thread_rng`): it permutes the
/// elements in place.
#[verifier::external_body]
fn shuffle_numbers(v: &mut Vec<usize>)
    ensures
        final(v)@.to_multiset() == old(v)@.to_multiset(),
{
    v.shuffle(&mut rand::thread_rng());
}

/// Relies on `Rng::gen_range` (with `thread_rng`) over `lo..=hi`: a value in
/// that range; it panics on an empty range.
#[verifier::external_body]
fn random_in_range(lo: usize, hi: usize) -> (r: usize)
    requires
        lo <= hi,
    ensures
        lo <= r <= hi,
{
    rand::thread_rng().gen_range(lo..=hi)
}

/// Products of `n + 1` over a prefix never exceed that over the whole.
pub proof fn lemma_remaining_weight_prefix(s: Seq<usize>, i: int)
    requires
        0 <= i <= s.len(),
    ensures
        remaining_weight(s.take(i)) <= remaining_weight(s),
    decreases s.len(),
{
    if i == s.len() {
        assert(s.take(i) =~= s);
    } else {
        lemma_remaining_weight_prefix(s.drop_last(), i);
        assert(s.drop_last().take(i) =~= s.take(i));
        crate::state::lemma_remaining_weight_positive(s.take(i));
        let p = remaining_weight(s.drop_last());
        let f = s.last() + 1;
        assert(p <= p * f) by (nonlinear_arith)
            requires
                p >= 1,
                f >= 1,
        ;
    }
}

fn small_numbers() -> (r: Vec<usize>)
    ensures
        r@ == small_pool(),
{
    let mut v: Vec<usize> = Vec::new();
    let mut i: usize = 0;
    while i < 20
        invariant
            i <= 20,
            v@ == small_pool().take(i as int),
        decreases 20 - i,
    {
        v.push(i % 10 + 1);
        i += 1;
        assert(v@ =~= small_pool().take(i as int));
    }
    assert(v@ =~= small_pool());
    v
}

impl NumbersRound {
    /// A random round: `n_small` numbers drawn from 1 to 10 (each value
    /// twice over), the rest, up to six, drawn from 25, 50, 75, 100; the
    /// target is from 1 to 999. The draws take numbers off the ends of
    /// shuffled pools.
    pub fn new(n_small: u8) -> (r: Result<NumbersRound, NumbersRoundError>)
        ensures
            n_small < 2 ==> r == Err::<NumbersRound, NumbersRoundError>(
                NumbersRoundError::TooFewSmalls,
            ),
            n_small > 6 ==> r == Err::<NumbersRound, NumbersRoundError>(
                NumbersRoundError::TooManySmalls,
            ),
            2 <= n_small <= 6 ==> (r matches Ok(round) && {
                &&& round.numbers.len() == 6
                &&& 1 <= round.target <= 999
                &&& forall|i: int| 0 <= i < n_small ==> 1 <= #[trigger] round.numbers@[i] <= 10
                &&& forall|i: int| n_small <= i < 6 ==> is_large(#[trigger] round.numbers@[i])
                &&& exists|smalls: Seq<usize>, larges: Seq<usize>|
                    #![trigger smalls.to_multiset(), larges.to_multiset()]
                    smalls.to_multiset() == small_pool().to_multiset() && larges.to_multiset()
                        == large_pool().to_multiset() && round.numbers@ == last_reversed(
                        smalls,
                        n_small as int,
                    ) + last_reversed(larges, 6 - n_small)
            }),
    {
        if n_small < 2 {
            return Err(NumbersRoundError::TooFewSmalls);
        } else if n_small > 6 {
            return Err(NumbersRoundError::TooManySmalls);
        }
        let mut smalls = small_numbers();
        let ghost pool = smalls@;
        shuffle_numbers(&mut smalls);
        let mut bigs: Vec<usize> = vec![25, 50, 75, 100];
        let ghost big_pool = bigs@;
        assert(big_pool =~= large_pool());
        shuffle_numbers(&mut bigs);
        let target = random_in_range(1, 999);
        proof {
            assert forall|i: int| 0 <= i < smalls.len() implies 1 <= #[trigger] smalls@[i] <= 10 by {
                let x = smalls@[i];
                to_multiset_contains(smalls@, x);
                to_multiset_contains(pool, x);
                assert(smalls@.contains(x));
                let j = choose|j: int| 0 <= j < pool.len() && pool[j] == x;
                assert(pool[j] == (j % 10 + 1) as usize);
            }
            assert forall|i: int| 0 <= i < bigs.len() implies is_large(#[trigger] bigs@[i]) by {
                let x = bigs@[i];
                to_multiset_contains(bigs@, x);
                to_multiset_contains(big_pool, x);
                assert(bigs@.contains(x));
                let j = choose|j: int| 0 <= j < big_pool.len() && big_pool[j] == x;
            }
            vstd::seq_lib::to_multiset_len(smalls@);
            vstd::seq_lib::to_multiset_len(pool);
            vstd::seq_lib::to_multiset_len(bigs@);
            vstd::seq_lib::to_multiset_len(big_pool);
        }
        let r = NumbersRound::from_draws(n_small, &smalls, &bigs, target);
        assert(smalls@.to_multiset() == small_pool().to_multiset());
        assert(bigs@.to_multiset() == large_pool().to_multiset());
        r
    }

    /// The round drawn by taking `n_small` numbers off the end of `smalls`
    /// and the rest, up to six, off the end of `bigs`.
    pub fn from_draws(n_small: u8, smalls: &Vec<usize>, bigs: &Vec<usize>, target: usize) -> (r:
        Result<NumbersRound, NumbersRoundError>)
        requires
            smalls.len() >= 6,
            bigs.len() >= 4,
        ensures
            n_small < 2 ==> r == Err::<NumbersRound, NumbersRoundError>(
                NumbersRoundError::TooFewSmalls,
            ),
            n_small > 6 ==> r == Err::<NumbersRound, NumbersRoundError>(
                NumbersRoundError::TooManySmalls,
            ),
            2 <= n_small <= 6 ==> (r matches Ok(round) && round.target == target
                && round.numbers@ == last_reversed(smalls@, n_small as int) + last_reversed(
                bigs@,
                6 - n_small,
            )),
    {
        if n_small < 2 {
            return Err(NumbersRoundError::TooFewSmalls);
        } else if n_small > 6 {
            return Err(NumbersRoundError::TooManySmalls);
        }
        let mut numbers: Vec<usize> = Vec::new();
        let mut i: usize = 0;
        while i < n_small as usize
            invariant
                n_small <= 6,
                smalls.len() >= 6,
                i <= n_small,
                numbers@ == last_reversed(smalls@, i as int),
            decreases n_small - i,
        {
            numbers.push(smalls[smalls.len() - 1 - i]);
            i += 1;
            assert(numbers@ =~= last_reversed(smalls@, i as int));
        }
        let n_big: usize = 6 - n_small as usize;
        let mut j: usize = 0;
        while j < n_big
            invariant
                n_big <= 4,
                bigs.len() >= 4,
                j <= n_big,
                numbers@ == last_reversed(smalls@, n_small as int) + last_reversed(bigs@, j as int),
            decreases n_big - j,
        {
            numbers.push(bigs[bigs.len() - 1 - j]);
            j += 1;
            assert(numbers@ =~= last_reversed(smalls@, n_small as int) + last_reversed(
                bigs@,
                j as int,
            ));
        }
        Ok(NumbersRound { numbers, target })
    }

    /// Whether a search over this round keeps every value within `i64`.
    pub fn is_searchable(&self) -> (r: bool)
        ensures
            r == searchable(self.numbers@, self.target as int),
    {
        if self.target as u128 > 0x7fff_ffff_ffff_ffff {
            return false;
        }
        let s = &self.numbers;
        let mut product: u128 = 1;
        let mut i: usize = 0;
        while i < s.len()
            invariant
                s@ == self.numbers@,
                self.target <= i64_max(),
                i <= s.len(),
                product == remaining_weight(s@.take(i as int)),
                product <= i64_max(),
            decreases s.len() - i,
        {
            assert(s@.take(i + 1).drop_last() =~= s@.take(i as int));
            let f = s[i] as u128 + 1;
            assert(product * f <= 0x7fff_ffff_ffff_ffff * 0x1_0000_0000_0000_0000) by (
            nonlinear_arith)
                requires
                    product <= 0x7fff_ffff_ffff_ffff,
                    f <= 0x1_0000_0000_0000_0000,
            ;
            product = product * f;
            assert(s@.take(i + 1).last() == s@[i as int]);
            assert(product == remaining_weight(s@.take(i + 1)));
            i += 1;
            if product > 0x7fff_ffff_ffff_ffff {
                proof {
                    lemma_remaining_weight_prefix(s@, i as int);
                }
                return false;
            }
        }
        assert(s@.take(i as int) =~= s@);
        true
    }
}

} // verus!
