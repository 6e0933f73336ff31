//! Exact fractions over `i64`, kept in lowest terms with a positive denominator.
//!
//! The arithmetic itself is done by `num::rational::Ratio`; this module holds
//! the value as a plain numerator/denominator pair so that the logic built on
//! it can be verified against the mathematical fraction it denotes.

use num::rational::Ratio;
use vstd::arithmetic::div_mod::{lemma_fundamental_div_mod, lemma_mod_multiples_basic};
use vstd::prelude::*;

verus! {

/// Largest value of an `i64`, as a mathematical integer.
pub open spec fn i64_max() -> int {
    0x7fff_ffff_ffff_ffff
}

/// Absolute value of an integer.
pub open spec fn abs(x: int) -> nat {
    if x < 0 {
        (-x) as nat
    } else {
        x as nat
    }
}

/// Greatest common divisor (Euclid's algorithm).
pub open spec fn gcd(a: nat, b: nat) -> nat
    decreases b,
{
    if b == 0 {
        a
    } else {
        gcd(b, a % b)
    }
}

/// The fraction `n / d` (with `d != 0`) in lowest terms, denominator positive.
pub open spec fn reduce(n: int, d: int) -> (int, int) {
    let g = gcd(abs(n), abs(d)) as int;
    if d < 0 {
        (-(n / g), -(d / g))
    } else {
        (n / g, d / g)
    }
}

/// A fraction `(numerator, denominator)` in lowest terms with a positive denominator.
pub open spec fn wf_frac(x: (int, int)) -> bool {
    &&& x.1 > 0
    &&& gcd(abs(x.0), x.1 as nat) == 1
}

/// The integer `n` as a fraction.
pub open spec fn frac_of_int(n: int) -> (int, int) {
    (n, 1)
}

pub open spec fn frac_add(x: (int, int), y: (int, int)) -> (int, int) {
    reduce(x.0 * y.1 + y.0 * x.1, x.1 * y.1)
}

pub open spec fn frac_sub(x: (int, int), y: (int, int)) -> (int, int) {
    reduce(x.0 * y.1 - y.0 * x.1, x.1 * y.1)
}

pub open spec fn frac_mul(x: (int, int), y: (int, int)) -> (int, int) {
    reduce(x.0 * y.0, x.1 * y.1)
}

/// Quotient of two fractions; meaningful only when `y` is not zero.
pub open spec fn frac_div(x: (int, int), y: (int, int)) -> (int, int) {
    reduce(x.0 * y.1, x.1 * y.0)
}

/// `x >= y`, for fractions with positive denominators.
pub open spec fn frac_ge(x: (int, int), y: (int, int)) -> bool {
    x.0 * y.1 >= y.0 * x.1
}

pub open spec fn frac_is_zero(x: (int, int)) -> bool {
    x.0 == 0
}

/// Size of a fraction: `|numerator| + denominator`. The result of any of the
/// four operations weighs at most the product of the operands' weights.
pub open spec fn weight(x: (int, int)) -> int {
    abs(x.0) + x.1
}

/// Two fractions whose combination by any of the four operations fits in `i64`.
pub open spec fn fits_together(x: (int, int), y: (int, int)) -> bool {
    weight(x) * weight(y) <= i64_max()
}

/// Errors of exact arithmetic.
#[derive(Clone, Copy, Debug, PartialEq, Eq, Structural)]
pub enum RationalError {
    DivisionByZero,
}

/// An exact fraction in lowest terms with a positive denominator.
#[derive(Clone, Copy, Debug, PartialEq, Eq, Structural)]
pub struct Rational {
    numer: i64,
    denom: i64,
}

impl View for Rational {
    type V = (int, int);

    closed spec fn view(&self) -> (int, int) {
        (self.numer as int, self.denom as int)
    }
}

pub proof fn lemma_gcd_one(a: nat)
    ensures
        gcd(a, 1) == 1,
{
    assert(a % 1 == 0);
    assert(gcd(1, 0) == 1);
    assert(gcd(1, a % 1) == 1);
}

pub proof fn lemma_gcd_positive(a: nat, b: nat)
    requires
        b > 0,
    ensures
        gcd(a, b) > 0,
    decreases b,
{
    if a % b > 0 {
        lemma_gcd_positive(b, a % b);
        assert(gcd(a, b) == gcd(b, a % b));
    } else {
        assert(gcd(a, b) == gcd(b, 0));
    }
}

/// Equal views mean equal values.
pub proof fn lemma_view_injective(a: Rational, b: Rational)
    ensures
        a@ == b@ <==> a == b,
{
}

/// Reducing a fraction never makes it heavier.
pub proof fn lemma_reduce_weight(n: int, d: int)
    requires
        d > 0,
    ensures
        weight(reduce(n, d)) <= abs(n) + d,
        reduce(n, d).1 > 0,
{
    let g = gcd(abs(n), abs(d)) as int;
    lemma_gcd_positive(abs(n), abs(d));
    assert(g >= 1);
    assert(d / g <= d) by (nonlinear_arith)
        requires
            g >= 1,
            d > 0,
    ;
    lemma_gcd_divides_right(abs(n), abs(d));
    assert(d / g > 0) by (nonlinear_arith)
        requires
            g >= 1,
            g <= d,
    ;
    assert(abs(n / g) <= abs(n)) by (nonlinear_arith)
        requires
            g >= 1,
    {
        if n >= 0 {
            assert(n / g <= n);
            assert(n / g >= 0);
        } else {
            assert(n / g >= n);
            assert(n / g < 0);
        }
    }
}

/// The gcd divides its second argument and is at most it (when positive).
pub proof fn lemma_gcd_divides_right(a: nat, b: nat)
    requires
        b > 0,
    ensures
        gcd(a, b) <= b,
    decreases b,
{
    lemma_gcd_positive(a, b);
    if a % b > 0 {
        lemma_gcd_divides_right(b, a % b);
        assert(gcd(a, b) == gcd(b, a % b));
    } else {
        assert(gcd(a, b) == gcd(b, 0));
    }
}


proof fn lemma_abs_mul(p: int, q: int)
    ensures
        abs(p * q) == abs(p) * abs(q),
{
    if p >= 0 && q >= 0 {
        assert(p * q >= 0) by (nonlinear_arith)
            requires
                p >= 0,
                q >= 0,
        ;
    } else if p < 0 && q < 0 {
        assert(p * q == (-p) * (-q)) by (nonlinear_arith);
        assert((-p) * (-q) > 0) by (nonlinear_arith)
            requires
                p < 0,
                q < 0,
        ;
    } else if p < 0 {
        assert(p * q == -((-p) * q)) by (nonlinear_arith);
        assert((-p) * q >= 0) by (nonlinear_arith)
            requires
                p < 0,
                q >= 0,
        ;
    } else {
        assert(p * q == -(p * (-q))) by (nonlinear_arith);
        assert(p * (-q) >= 0) by (nonlinear_arith)
            requires
                p >= 0,
                q < 0,
        ;
    }
}

proof fn lemma_weight_product(na: int, nc: int, b: int, d: int)
    requires
        na >= 0,
        nc >= 0,
        b > 0,
        d > 0,
    ensures
        na * d + nc * b + b * d <= (na + b) * (nc + d),
        na * nc + b * d <= (na + b) * (nc + d),
        na * d + b * nc <= (na + b) * (nc + d),
{
    assert((na + b) * (nc + d) == na * nc + na * d + b * nc + b * d) by (nonlinear_arith);
    assert(na * nc >= 0) by (nonlinear_arith)
        requires
            na >= 0,
            nc >= 0,
    ;
    assert(na * d >= 0 && b * nc >= 0) by (nonlinear_arith)
        requires
            na >= 0,
            nc >= 0,
            b > 0,
            d > 0,
    ;
    assert(nc * b == b * nc) by (nonlinear_arith);
}

/// Sum, difference and product weigh at most the product of the operands'
/// weights.
pub proof fn lemma_op_weight(x: (int, int), y: (int, int))
    requires
        x.1 > 0,
        y.1 > 0,
    ensures
        weight(frac_add(x, y)) <= weight(x) * weight(y),
        weight(frac_sub(x, y)) <= weight(x) * weight(y),
        weight(frac_mul(x, y)) <= weight(x) * weight(y),
        frac_add(x, y).1 > 0,
        frac_sub(x, y).1 > 0,
        frac_mul(x, y).1 > 0,
{
    let (a, b) = x;
    let (c, d) = y;
    assert(b * d > 0) by (nonlinear_arith)
        requires
            b > 0,
            d > 0,
    ;
    lemma_abs_mul(a, d);
    lemma_abs_mul(c, b);
    lemma_abs_mul(a, c);
    lemma_abs_mul(b, d);
    lemma_weight_product(abs(a) as int, abs(c) as int, b, d);
    lemma_reduce_weight(a * d + c * b, b * d);
    lemma_reduce_weight(a * d - c * b, b * d);
    lemma_reduce_weight(a * c, b * d);
}

/// Reducing a fraction with a non-zero denominator of either sign never makes
/// it heavier.
pub proof fn lemma_reduce_weight_signed(n: int, d: int)
    requires
        d != 0,
    ensures
        weight(reduce(n, d)) <= abs(n) + abs(d),
        reduce(n, d).1 > 0,
{
    if d > 0 {
        lemma_reduce_weight(n, d);
    } else {
        let g = gcd(abs(n), abs(d)) as int;
        lemma_gcd_positive(abs(n), abs(d));
        lemma_gcd_divides_right(abs(n), abs(d));
        assert(1 <= -(d / g) <= -d) by (nonlinear_arith)
            requires
                g >= 1,
                g <= -d,
                d < 0,
        ;
        assert(abs(-(n / g)) <= abs(n)) by (nonlinear_arith)
            requires
                g >= 1,
        {
            if n >= 0 {
                assert(n / g <= n);
                assert(n / g >= 0);
            } else {
                assert(n / g >= n);
                assert(n / g < 0);
            }
        }
    }
}

/// Division by a non-zero fraction weighs at most the product of the
/// operands' weights.
pub proof fn lemma_div_weight(x: (int, int), y: (int, int))
    requires
        x.1 > 0,
        y.1 > 0,
        y.0 != 0,
    ensures
        weight(frac_div(x, y)) <= weight(x) * weight(y),
        frac_div(x, y).1 > 0,
{
    let (a, b) = x;
    let (c, d) = y;
    assert(b * c != 0) by (nonlinear_arith)
        requires
            b > 0,
            c != 0,
    ;
    lemma_abs_mul(a, d);
    lemma_abs_mul(b, c);
    assert(abs(b) == b && abs(d) == d);
    lemma_weight_product(abs(a) as int, abs(c) as int, b, d);
    lemma_reduce_weight_signed(a * d, b * c);
}

/// The gcd divides both arguments (when it is not zero).
pub proof fn lemma_gcd_divides(a: nat, b: nat)
    ensures
        gcd(a, b) > 0 ==> a % gcd(a, b) == 0 && b % gcd(a, b) == 0,
    decreases b,
{
    if b == 0 {
        if a > 0 {
            lemma_mod_multiples_basic(1, a as int);
            lemma_mod_multiples_basic(0, a as int);
        }
    } else {
        let r = a % b;
        lemma_gcd_divides(b, r);
        lemma_gcd_positive(a, b);
        assert(gcd(a, b) == gcd(b, r));
        let g = gcd(a, b) as int;
        lemma_fundamental_div_mod(a as int, b as int);
        lemma_fundamental_div_mod(b as int, g);
        lemma_fundamental_div_mod(r as int, g);
        let k = (b as int / g) * (a as int / b as int) + r as int / g;
        assert(a == k * g) by (nonlinear_arith)
            requires
                a == b * (a as int / b as int) + r,
                b == g * (b as int / g),
                r == g * (r as int / g),
                k == (b as int / g) * (a as int / b as int) + r as int / g,
        ;
        lemma_mod_multiples_basic(k, g);
    }
}

/// A multiple of `g > 0` is `g` times its quotient, whatever its sign.
proof fn lemma_exact_quotient(n: int, g: int)
    requires
        g > 0,
        (abs(n) as int) % g == 0,
    ensures
        n == g * (n / g),
{
    lemma_fundamental_div_mod(abs(n) as int, g);
    let q = abs(n) as int / g;
    if n >= 0 {
        lemma_fundamental_div_mod(n, g);
    } else {
        assert(n == (-q) * g) by (nonlinear_arith)
            requires
                -n == g * q + 0,
        ;
        lemma_mod_multiples_basic(-q, g);
        lemma_fundamental_div_mod(n, g);
    }
}

/// Reducing keeps the value of the fraction: `reduce(n, d)` is `n / d`.
pub proof fn lemma_reduce_same_value(n: int, d: int)
    requires
        d != 0,
    ensures
        reduce(n, d).0 * d == n * reduce(n, d).1,
{
    let g = gcd(abs(n), abs(d)) as int;
    lemma_gcd_positive(abs(n), abs(d));
    lemma_gcd_divides(abs(n), abs(d));
    lemma_exact_quotient(n, g);
    lemma_exact_quotient(d, g);
    let p = n / g;
    let q = d / g;
    assert(p * d == n * q) by (nonlinear_arith)
        requires
            n == g * p,
            d == g * q,
    ;
    assert((-p) * d == n * (-q)) by (nonlinear_arith)
        requires
            p * d == n * q,
    ;
}

/// The four operations are exact: each result, cross-multiplied, matches
/// the textbook formula on the operands.
pub proof fn lemma_ops_exact(x: (int, int), y: (int, int))
    requires
        x.1 > 0,
        y.1 > 0,
    ensures
        frac_add(x, y).0 * (x.1 * y.1) == (x.0 * y.1 + y.0 * x.1) * frac_add(x, y).1,
        frac_sub(x, y).0 * (x.1 * y.1) == (x.0 * y.1 - y.0 * x.1) * frac_sub(x, y).1,
        frac_mul(x, y).0 * (x.1 * y.1) == (x.0 * y.0) * frac_mul(x, y).1,
        y.0 != 0 ==> frac_div(x, y).0 * (x.1 * y.0) == (x.0 * y.1) * frac_div(x, y).1,
{
    assert(x.1 * y.1 != 0) by (nonlinear_arith)
        requires
            x.1 > 0,
            y.1 > 0,
    ;
    lemma_reduce_same_value(x.0 * y.1 + y.0 * x.1, x.1 * y.1);
    lemma_reduce_same_value(x.0 * y.1 - y.0 * x.1, x.1 * y.1);
    lemma_reduce_same_value(x.0 * y.0, x.1 * y.1);
    if y.0 != 0 {
        assert(x.1 * y.0 != 0) by (nonlinear_arith)
            requires
                x.1 > 0,
                y.0 != 0,
        ;
        lemma_reduce_same_value(x.0 * y.1, x.1 * y.0);
    }
}

impl Rational {
    /// The integer `n` as a fraction.
    pub fn from_integer(n: i64) -> (r: Rational)
        ensures
            r@ == frac_of_int(n as int),
            wf_frac(r@),
    {
        proof {
            lemma_gcd_one(abs(n as int));
        }
        Rational { numer: n, denom: 1 }
    }

    /// The fraction `numer / denom`, brought to lowest terms.
    pub fn new(numer: i64, denom: i64) -> (r: Rational)
        requires
            denom != 0,
            numer > i64::MIN,
            denom > i64::MIN,
        ensures
            r@ == reduce(numer as int, denom as int),
            wf_frac(r@),
    {
        ratio_new(numer, denom)
    }

    pub fn numer(&self) -> (r: i64)
        ensures
            r == self@.0,
    {
        self.numer
    }

    pub fn denom(&self) -> (r: i64)
        ensures
            r == self@.1,
    {
        self.denom
    }

    pub fn is_zero(&self) -> (r: bool)
        ensures
            r == frac_is_zero(self@),
    {
        self.numer == 0
    }

    pub fn is_integer(&self) -> (r: bool)
        ensures
            r == (self@.1 == 1),
    {
        self.denom == 1
    }

    /// `self >= other`, compared exactly.
    pub fn ge(&self, other: &Rational) -> (r: bool)
        requires
            self@.1 > 0,
            other@.1 > 0,
        ensures
            r == frac_ge(self@, other@),
    {
        let a = self.numer as i128;
        let b = self.denom as i128;
        let c = other.numer as i128;
        let d = other.denom as i128;
        assert(-0x4000_0000_0000_0000_0000_0000_0000_0000 <= a * d <= 0x4000_0000_0000_0000_0000_0000_0000_0000) by (nonlinear_arith)
            requires
                -0x8000_0000_0000_0000 <= a <= 0x8000_0000_0000_0000,
                0 <= d <= 0x8000_0000_0000_0000,
        ;
        assert(-0x4000_0000_0000_0000_0000_0000_0000_0000 <= c * b <= 0x4000_0000_0000_0000_0000_0000_0000_0000) by (nonlinear_arith)
            requires
                -0x8000_0000_0000_0000 <= c <= 0x8000_0000_0000_0000,
                0 <= b <= 0x8000_0000_0000_0000,
        ;
        a * d >= c * b
    }

    pub fn add(&self, other: &Rational) -> (r: Rational)
        requires
            wf_frac(self@),
            wf_frac(other@),
            fits_together(self@, other@),
        ensures
            r@ == frac_add(self@, other@),
            wf_frac(r@),
    {
        ratio_add(self, other)
    }

    pub fn sub(&self, other: &Rational) -> (r: Rational)
        requires
            wf_frac(self@),
            wf_frac(other@),
            fits_together(self@, other@),
        ensures
            r@ == frac_sub(self@, other@),
            wf_frac(r@),
    {
        ratio_sub(self, other)
    }

    pub fn mul(&self, other: &Rational) -> (r: Rational)
        requires
            wf_frac(self@),
            wf_frac(other@),
            fits_together(self@, other@),
        ensures
            r@ == frac_mul(self@, other@),
            wf_frac(r@),
    {
        ratio_mul(self, other)
    }

    /// Exact quotient; fails when `other` is zero.
    pub fn div(&self, other: &Rational) -> (r: Result<Rational, RationalError>)
        requires
            wf_frac(self@),
            wf_frac(other@),
            fits_together(self@, other@),
        ensures
            frac_is_zero(other@) <==> r is Err,
            r is Err ==> r == Err::<Rational, RationalError>(RationalError::DivisionByZero),
            r matches Ok(q) ==> q@ == frac_div(self@, other@) && wf_frac(q@),
    {
        if other.numer == 0 {
            Err(RationalError::DivisionByZero)
        } else {
            Ok(ratio_div(self, other))
        }
    }
}

/// Relies on `Ratio::new`: it reduces `numer / denom` to lowest terms with a
/// positive denominator. It panics on a zero denominator, and negating
/// `i64::MIN` would overflow.
#[verifier::external_body]
fn ratio_new(numer: i64, denom: i64) -> (r: Rational)
    requires
        denom != 0,
        numer > i64::MIN,
        denom > i64::MIN,
    ensures
        r@ == reduce(numer as int, denom as int),
        wf_frac(r@),
{
    let q = Ratio::new(numer, denom);
    Rational { numer: *q.numer(), denom: *q.denom() }
}

/// Relies on `Ratio + Ratio`: the exact sum, reduced by `Ratio::new`. Its
/// intermediate products stay below the product of the operands' weights.
#[verifier::external_body]
fn ratio_add(x: &Rational, y: &Rational) -> (r: Rational)
    requires
        wf_frac(x@),
        wf_frac(y@),
        fits_together(x@, y@),
    ensures
        r@ == frac_add(x@, y@),
        wf_frac(r@),
{
    let q = Ratio::new_raw(x.numer, x.denom) + Ratio::new_raw(y.numer, y.denom);
    Rational { numer: *q.numer(), denom: *q.denom() }
}

/// Relies on `Ratio - Ratio`: the exact difference, reduced by `Ratio::new`.
#[verifier::external_body]
fn ratio_sub(x: &Rational, y: &Rational) -> (r: Rational)
    requires
        wf_frac(x@),
        wf_frac(y@),
        fits_together(x@, y@),
    ensures
        r@ == frac_sub(x@, y@),
        wf_frac(r@),
{
    let q = Ratio::new_raw(x.numer, x.denom) - Ratio::new_raw(y.numer, y.denom);
    Rational { numer: *q.numer(), denom: *q.denom() }
}

/// Relies on `Ratio * Ratio`: the exact product, reduced by `Ratio::new`.
#[verifier::external_body]
fn ratio_mul(x: &Rational, y: &Rational) -> (r: Rational)
    requires
        wf_frac(x@),
        wf_frac(y@),
        fits_together(x@, y@),
    ensures
        r@ == frac_mul(x@, y@),
        wf_frac(r@),
{
    let q = Ratio::new_raw(x.numer, x.denom) * Ratio::new_raw(y.numer, y.denom);
    Rational { numer: *q.numer(), denom: *q.denom() }
}

/// Relies on `Ratio / Ratio`: the exact quotient, reduced by `Ratio::new`,
/// which panics when the divisor is zero.
#[verifier::external_body]
fn ratio_div(x: &Rational, y: &Rational) -> (r: Rational)
    requires
        wf_frac(x@),
        wf_frac(y@),
        fits_together(x@, y@),
        y@.0 != 0,
    ensures
        r@ == frac_div(x@, y@),
        wf_frac(r@),
{
    let q = Ratio::new_raw(x.numer, x.denom) / Ratio::new_raw(y.numer, y.denom);
    Rational { numer: *q.numer(), denom: *q.denom() }
}

} // verus!
