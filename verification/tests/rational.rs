use gauss_jordan::rational::Rational;

fn frac(n: i64, d: i64) -> Rational {
    Rational::new(n, d).unwrap()
}

#[test]
fn new_reduces_to_lowest_terms() {
    let r = frac(6, 4);
    assert_eq!(r.numerator(), 3);
    assert_eq!(r.denominator(), 2);
    assert_eq!(frac(2, 4), frac(1, 2));
    assert_eq!(frac(0, 5), frac(0, 1));
}

#[test]
fn new_moves_the_sign_to_the_numerator() {
    let r = frac(3, -6);
    assert_eq!(r.numerator(), -1);
    assert_eq!(r.denominator(), 2);
    assert_eq!(frac(-3, -6), frac(1, 2));
}

#[test]
fn new_rejects_a_zero_denominator() {
    assert_eq!(Rational::new(1, 0), None);
    assert_eq!(Rational::new(0, 0), None);
}

#[test]
fn new_rejects_what_is_out_of_range() {
    assert_eq!(Rational::new(i64::MIN, 1), None);
    assert_eq!(Rational::new(1, i64::MIN), None);
    assert_eq!(Rational::new(i64::MIN, i64::MIN), Some(frac(1, 1)));
    assert_eq!(Rational::new(i64::MIN, 2), Some(frac(-(1i64 << 62), 1)));
    assert_eq!(Rational::new(i64::MAX, i64::MAX), Some(frac(1, 1)));
}

#[test]
fn from_int_is_the_whole_number() {
    let r = Rational::from_int(-7);
    assert_eq!(r.numerator(), -7);
    assert_eq!(r.denominator(), 1);
    assert_eq!(Rational::from_int(0), frac(0, 1));
}

#[test]
fn is_zero_tells_zero_apart() {
    assert!(Rational::from_int(0).is_zero());
    assert!(!frac(1, 1000).is_zero());
    assert!(!frac(-1, 1000).is_zero());
}

#[test]
fn checked_mul_multiplies() {
    assert_eq!(frac(2, 3).checked_mul(&frac(3, 4)), Some(frac(1, 2)));
    assert_eq!(frac(-2, 3).checked_mul(&frac(3, 4)), Some(frac(-1, 2)));
    assert_eq!(frac(-2, 3).checked_mul(&frac(-3, 4)), Some(frac(1, 2)));
    assert_eq!(frac(0, 1).checked_mul(&frac(-3, 4)), Some(frac(0, 1)));
}

#[test]
fn checked_mul_reduces_before_it_checks_the_range() {
    let big = frac(i64::MAX, 1);
    let small = frac(1, i64::MAX);
    assert_eq!(big.checked_mul(&small), Some(frac(1, 1)));
    assert_eq!(big.checked_mul(&big), None);
    assert_eq!(small.checked_mul(&small), None);
    assert_eq!(big.checked_mul(&frac(2, 1)), None);
}

#[test]
fn checked_sub_subtracts() {
    assert_eq!(frac(1, 2).checked_sub(&frac(1, 3)), Some(frac(1, 6)));
    assert_eq!(frac(1, 3).checked_sub(&frac(1, 2)), Some(frac(-1, 6)));
    assert_eq!(frac(5, 7).checked_sub(&frac(5, 7)), Some(frac(0, 1)));
    assert_eq!(frac(1, 2).checked_sub(&frac(-1, 2)), Some(frac(1, 1)));
}

#[test]
fn checked_sub_reports_overflow() {
    let big = frac(i64::MAX, 1);
    assert_eq!(big.checked_sub(&frac(-1, 1)), None);
    assert_eq!(frac(-i64::MAX, 1).checked_sub(&frac(1, 1)), None);
    assert_eq!(frac(1, i64::MAX).checked_sub(&frac(1, i64::MAX - 1)), None);
    assert_eq!(big.checked_sub(&frac(1, 1)), Some(frac(i64::MAX - 1, 1)));
}

#[test]
fn checked_recip_inverts() {
    assert_eq!(frac(2, 3).checked_recip(), Some(frac(3, 2)));
    assert_eq!(frac(-2, 3).checked_recip(), Some(frac(-3, 2)));
    assert_eq!(frac(0, 1).checked_recip(), None);
    assert_eq!(frac(i64::MAX, 1).checked_recip(), Some(frac(1, i64::MAX)));
    assert_eq!(frac(-i64::MAX, 1).checked_recip(), Some(frac(-1, i64::MAX)));
}
