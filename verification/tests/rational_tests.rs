use math_scrabble::rational::Rational;

fn fraction(n: i64, d: i64) -> Rational {
    Rational::from_integer(n).checked_div(&Rational::from_integer(d)).unwrap()
}

#[test]
fn division_reduces_to_lowest_terms() {
    let r = fraction(2, 4);
    assert_eq!((r.numer(), r.denom()), (1, 2));
    let r = fraction(-6, 3);
    assert_eq!((r.numer(), r.denom()), (-2, 1));
    let r = Rational::from_integer(7);
    assert_eq!((r.numer(), r.denom()), (7, 1));
}

#[test]
fn checked_arithmetic() {
    let half = fraction(1, 2);
    let third = fraction(1, 3);
    assert_eq!(half.checked_add(&third), Some(fraction(5, 6)));
    assert_eq!(half.checked_sub(&third), Some(fraction(1, 6)));
    assert_eq!(half.checked_mul(&third), Some(fraction(1, 6)));
    assert_eq!(half.checked_div(&third), Some(fraction(3, 2)));
    assert_eq!(half.checked_div(&Rational::from_integer(0)), None);
    let big = Rational::from_integer(i64::MAX);
    assert_eq!(big.checked_add(&Rational::from_integer(1)), None);
    assert_eq!(big.checked_mul(&Rational::from_integer(2)), None);
}

#[test]
fn comparing_values() {
    assert!(fraction(1, 2).value_eq(&fraction(3, 6)));
    assert!(!fraction(1, 2).value_eq(&fraction(1, 3)));
}

#[test]
fn fractions_as_text() {
    assert_eq!(fraction(5, 6).to_string(), "5/6");
    assert_eq!(fraction(-3, 4).to_string(), "-3/4");
    assert_eq!(Rational::from_integer(-2).to_string(), "-2");
    assert_eq!(Rational::from_integer(0).to_string(), "0");
}
