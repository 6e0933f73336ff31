use vorderman::expr::Operation;
use vorderman::rational::{Rational, RationalError};

#[test]
fn new_reduces_to_lowest_terms() {
    let r = Rational::new(6, -4);
    assert_eq!(r.numer(), -3);
    assert_eq!(r.denom(), 2);
    assert_eq!(Rational::new(0, 5), Rational::from_integer(0));
}

#[test]
fn arithmetic_is_exact() {
    let third = Rational::new(1, 3);
    let half = Rational::new(1, 2);
    assert_eq!(third.add(&half), Rational::new(5, 6));
    assert_eq!(third.sub(&half), Rational::new(-1, 6));
    assert_eq!(third.mul(&half), Rational::new(1, 6));
    assert_eq!(third.div(&half), Ok(Rational::new(2, 3)));
    assert!(half.ge(&third));
    assert!(!third.ge(&half));
    assert!(Rational::new(4, 2).is_integer());
}

#[test]
fn division_by_zero_is_reported() {
    let one = Rational::from_integer(1);
    let zero = Rational::from_integer(0);
    assert!(zero.is_zero());
    assert_eq!(one.div(&zero), Err(RationalError::DivisionByZero));
    assert_eq!(
        Operation::Divide.apply(&one, &zero),
        Err(RationalError::DivisionByZero)
    );
    assert_eq!(
        Operation::Subtract.apply(&one, &zero),
        Ok(Rational::from_integer(1))
    );
}
