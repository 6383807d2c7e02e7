use miniopgenerator::divisor::gcd;
use miniopgenerator::error::EvalError;
use miniopgenerator::rational::Rational;

fn frac(n: i64, d: i64) -> Rational {
    Rational::new(n, d).unwrap()
}

#[test]
fn gcd_of_small_numbers() {
    assert_eq!(gcd(12, 18), 6);
    assert_eq!(gcd(18, 12), 6);
    assert_eq!(gcd(7, 13), 1);
    assert_eq!(gcd(0, 5), 5);
    assert_eq!(gcd(5, 0), 5);
    assert_eq!(gcd(0, 0), 0);
}

#[test]
fn new_reduces_to_lowest_terms() {
    let half = frac(2, 4);
    assert_eq!(half.numerator(), 1);
    assert_eq!(half.denominator(), 2);
    let negative = frac(3, -6);
    assert_eq!(negative.numerator(), -1);
    assert_eq!(negative.denominator(), 2);
    let zero = frac(0, -9);
    assert_eq!(zero.numerator(), 0);
    assert_eq!(zero.denominator(), 1);
    assert_eq!(frac(-4, -6), frac(2, 3));
}

#[test]
fn new_rejects_zero_denominator() {
    assert_eq!(Rational::new(1, 0), Err(EvalError::DivisionByZero));
    assert_eq!(Rational::new(0, 0), Err(EvalError::DivisionByZero));
}

#[test]
fn new_reports_what_does_not_fit() {
    assert_eq!(Rational::new(i64::MIN, -1), Err(EvalError::Overflow));
    assert_eq!(Rational::new(1, i64::MIN), Err(EvalError::Overflow));
    assert_eq!(frac(i64::MIN, 1).numerator(), i64::MIN);
    assert_eq!(frac(i64::MIN, i64::MIN), Rational::from_integer(1));
    assert_eq!(frac(2, i64::MIN).denominator(), 1 << 62);
    assert_eq!(frac(2, i64::MIN).numerator(), -1);
}

#[test]
fn the_four_operations() {
    assert_eq!(frac(1, 2).add(&frac(1, 3)), Ok(frac(5, 6)));
    assert_eq!(frac(1, 2).subtract(&frac(1, 3)), Ok(frac(1, 6)));
    assert_eq!(frac(1, 3).subtract(&frac(1, 2)), Ok(frac(-1, 6)));
    assert_eq!(frac(2, 3).multiply(&frac(3, 4)), Ok(frac(1, 2)));
    assert_eq!(frac(2, 3).divide(&frac(4, 3)), Ok(frac(1, 2)));
    assert_eq!(frac(2, 3).divide(&frac(-4, 3)), Ok(frac(-1, 2)));
    assert_eq!(frac(1, 6).add(&frac(1, 3)), Ok(frac(1, 2)));
}

#[test]
fn divide_by_zero_is_reported() {
    assert_eq!(frac(2, 3).divide(&frac(0, 1)), Err(EvalError::DivisionByZero));
    assert_eq!(frac(0, 1).divide(&frac(0, 1)), Err(EvalError::DivisionByZero));
}

#[test]
fn operations_report_overflow() {
    let big = Rational::from_integer(i64::MAX);
    assert_eq!(big.add(&Rational::from_integer(1)), Err(EvalError::Overflow));
    assert_eq!(big.multiply(&big), Err(EvalError::Overflow));
    assert_eq!(Rational::from_integer(1).divide(&big).unwrap().multiply(&frac(1, 2)), Err(EvalError::Overflow));
    assert_eq!(Rational::from_integer(i64::MIN).subtract(&Rational::from_integer(1)), Err(EvalError::Overflow));
    assert_eq!(big.subtract(&big), Ok(Rational::from_integer(0)));
    assert_eq!(big.multiply(&frac(1, i64::MAX)), Ok(Rational::from_integer(1)));
}

#[test]
fn canonical_forms() {
    assert_eq!(frac(6, 4).to_canonical_string(), "1'1/2");
    assert_eq!(frac(2, 4).to_canonical_string(), "1/2");
    assert_eq!(frac(4, 2).to_canonical_string(), "2");
    assert_eq!(frac(-7, 2).to_canonical_string(), "-3'1/2");
    assert_eq!(frac(-1, 2).to_canonical_string(), "-1/2");
    assert_eq!(frac(0, 5).to_canonical_string(), "0");
    assert_eq!(frac(120, 7).to_canonical_string(), "17'1/7");
    assert_eq!(Rational::from_integer(i64::MIN).to_canonical_string(), "-9223372036854775808");
    assert_eq!(Rational::from_integer(i64::MAX).to_canonical_string(), "9223372036854775807");
}

#[test]
fn parse_reads_the_three_forms() {
    assert_eq!(Rational::parse("7"), Ok(Rational::from_integer(7)));
    assert_eq!(Rational::parse("0"), Ok(Rational::from_integer(0)));
    assert_eq!(Rational::parse("1/2"), Ok(frac(1, 2)));
    assert_eq!(Rational::parse("1'1/2"), Ok(frac(3, 2)));
    assert_eq!(Rational::parse("-3'1/2"), Ok(frac(-7, 2)));
    assert_eq!(Rational::parse("-9223372036854775808"), Ok(Rational::from_integer(i64::MIN)));
}

#[test]
fn parse_rejects_what_is_not_canonical() {
    for text in [
        "", "-", "2/4", "3/2", "1'3/2", "0'1/2", "1'0/2", "07", "-0", "1/0", "1/", "/2", "1'1", "1''1/2",
        "1 / 2", " 1", "1 ", "a", "1/2/3", "+1", "9223372036854775808", "1/9223372036854775808",
        "99999999999999999999", "1'1/99999999999999999999", "2'2/4",
    ] {
        assert_eq!(Rational::parse(text), Err(EvalError::MalformedFraction), "{}", text);
    }
}

#[test]
fn parse_inverts_canonical_string() {
    let mut n: i64 = -40;
    while n <= 40 {
        let mut d: i64 = 1;
        while d <= 12 {
            let value = frac(n, d);
            assert_eq!(Rational::parse(&value.to_canonical_string()), Ok(value));
            d += 1;
        }
        n += 1;
    }
    for value in [Rational::from_integer(i64::MAX), Rational::from_integer(i64::MIN), frac(i64::MIN, i64::MAX), frac(1, i64::MAX)] {
        assert_eq!(Rational::parse(&value.to_canonical_string()), Ok(value));
    }
}
