use gauss_jordan::decimal::{parse_decimal, parse_order, DecimalError};
use gauss_jordan::rational::Rational;

fn dec(n: i64, d: i64) -> Rational {
    Rational::new(n, d).unwrap()
}

#[test]
fn order_is_a_bare_positive_integer() {
    assert_eq!(parse_order("3"), Some(3));
    assert_eq!(parse_order("1"), Some(1));
    assert_eq!(parse_order("12"), Some(12));
    assert_eq!(parse_order("127"), Some(127));
    assert_eq!(parse_order("007"), Some(7));
}

#[test]
fn order_rejects_everything_else() {
    assert_eq!(parse_order(""), None);
    assert_eq!(parse_order("0"), None);
    assert_eq!(parse_order("000"), None);
    assert_eq!(parse_order("128"), None);
    assert_eq!(parse_order("1280"), None);
    assert_eq!(parse_order("99999999999999999999999999999999"), None);
    assert_eq!(parse_order("-3"), None);
    assert_eq!(parse_order("+3"), None);
    assert_eq!(parse_order("3.0"), None);
    assert_eq!(parse_order("3a"), None);
    assert_eq!(parse_order(" 3"), None);
    assert_eq!(parse_order("٣"), None);
}

#[test]
fn decimal_reads_whole_numbers() {
    assert_eq!(parse_decimal("12"), Ok(dec(12, 1)));
    assert_eq!(parse_decimal("-12"), Ok(dec(-12, 1)));
    assert_eq!(parse_decimal("0"), Ok(dec(0, 1)));
    assert_eq!(parse_decimal("-0"), Ok(dec(0, 1)));
    assert_eq!(parse_decimal("0012"), Ok(dec(12, 1)));
}

#[test]
fn decimal_reads_fractions() {
    assert_eq!(parse_decimal("0.5"), Ok(dec(1, 2)));
    assert_eq!(parse_decimal("-0.5"), Ok(dec(-1, 2)));
    assert_eq!(parse_decimal("2.50"), Ok(dec(5, 2)));
    assert_eq!(parse_decimal("3."), Ok(dec(3, 1)));
    assert_eq!(parse_decimal(".25"), Ok(dec(1, 4)));
    assert_eq!(parse_decimal("-.25"), Ok(dec(-1, 4)));
    assert_eq!(parse_decimal("1.125"), Ok(dec(9, 8)));
    assert_eq!(parse_decimal("0.1"), Ok(dec(1, 10)));
}

#[test]
fn decimal_rejects_malformed_text() {
    for text in ["", "-", ".", "-.", "1.2.3", "1..2", "--1", "1-", "1-2", "+5", "1e5", "inf", "nan", "abc", " 1", "1 ", "1,5"] {
        assert_eq!(parse_decimal(text), Err(DecimalError::Malformed), "{:?}", text);
    }
}

#[test]
fn decimal_limits() {
    assert_eq!(parse_decimal("9223372036854775807"), Ok(dec(i64::MAX, 1)));
    assert_eq!(parse_decimal("-9223372036854775807"), Ok(dec(-i64::MAX, 1)));
    assert_eq!(parse_decimal("9223372036854775808"), Err(DecimalError::OutOfRange));
    assert_eq!(parse_decimal("-9223372036854775808"), Err(DecimalError::OutOfRange));
    assert_eq!(
        parse_decimal("99999999999999999999999999999999999999999999999999"),
        Err(DecimalError::OutOfRange)
    );
    assert_eq!(parse_decimal("0.000000000000000001"), Ok(dec(1, 1_000_000_000_000_000_000)));
    assert_eq!(parse_decimal("0.0000000000000000001"), Err(DecimalError::OutOfRange));
    assert_eq!(parse_decimal("1.0000000000000000000"), Err(DecimalError::OutOfRange));
    assert_eq!(parse_decimal("1.000000000000000000"), Ok(dec(1, 1)));
    assert_eq!(parse_decimal("9.223372036854775807"), Ok(dec(i64::MAX, 1_000_000_000_000_000_000)));
}

#[test]
fn malformed_wins_over_out_of_range() {
    assert_eq!(
        parse_decimal("99999999999999999999999999999999999999999999999999x"),
        Err(DecimalError::Malformed)
    );
    assert_eq!(parse_decimal("0.0000000000000000001.5"), Err(DecimalError::Malformed));
}
