use ci_timing::decimal::parse_nanos;
use ci_timing::error::TimingError;

fn parse(s: &str) -> Result<u64, TimingError> {
    let chars: Vec<char> = s.chars().collect();
    parse_nanos(&chars)
}

#[test]
fn whole_and_fraction_are_read_as_nanoseconds() {
    assert_eq!(parse("4.0"), Ok(4_000_000_000));
    assert_eq!(parse("1.5"), Ok(1_500_000_000));
    assert_eq!(parse("0.001"), Ok(1_000_000));
    assert_eq!(parse("12"), Ok(12_000_000_000));
    assert_eq!(parse("123.456"), Ok(123_456_000_000));
    assert_eq!(parse("0"), Ok(0));
    assert_eq!(parse("007.5"), Ok(7_500_000_000));
}

#[test]
fn a_point_may_stand_first_or_last() {
    assert_eq!(parse("5."), Ok(5_000_000_000));
    assert_eq!(parse(".5"), Ok(500_000_000));
}

#[test]
fn digits_past_the_ninth_are_dropped() {
    assert_eq!(parse("1.0000000019"), Ok(1_000_000_001));
    assert_eq!(parse("0.9999999999"), Ok(999_999_999));
    assert_eq!(parse("0.123456789"), Ok(123_456_789));
}

#[test]
fn what_is_no_number_is_malformed() {
    for s in [
        "", ".", "+", "+.", "1.2.3", "1,5", " 1", "1 ", "abc", "1.5s", "0x10", "1_000", "++1",
        "1e", "e5", ".e5", "+e5", "1e+", "1e-", "1e5.0", "1e5e5", "1E+-5", "1e 5", "1ee5",
    ] {
        assert_eq!(parse(s), Err(TimingError::Malformed), "{:?}", s);
    }
}

#[test]
fn what_is_negative_or_not_finite_is_malformed() {
    for s in [
        "-1", "-0", "-0.0", "-1e3", "-.5", "+-1", "-+1", "inf", "+inf", "-inf", "infinity",
        "Infinity", "nan", "NaN", "+nan",
    ] {
        assert_eq!(parse(s), Err(TimingError::Malformed), "{:?}", s);
    }
}

#[test]
fn a_plus_sign_may_stand_in_front() {
    assert_eq!(parse("+4.0"), Ok(4_000_000_000));
    assert_eq!(parse("+1"), Ok(1_000_000_000));
    assert_eq!(parse("+.5"), Ok(500_000_000));
    assert_eq!(parse("+1e+1"), Ok(10_000_000_000));
}

#[test]
fn an_exponent_moves_the_point() {
    assert_eq!(parse("1e3"), Ok(1_000_000_000_000));
    assert_eq!(parse("1E3"), Ok(1_000_000_000_000));
    assert_eq!(parse("1.5E2"), Ok(150_000_000_000));
    assert_eq!(parse("1.5e+1"), Ok(15_000_000_000));
    assert_eq!(parse("15e-1"), Ok(1_500_000_000));
    assert_eq!(parse("1e-3"), Ok(1_000_000));
    assert_eq!(parse(".5e1"), Ok(5_000_000_000));
    assert_eq!(parse("5.e0"), Ok(5_000_000_000));
    assert_eq!(parse("4.0e0"), Ok(4_000_000_000));
    assert_eq!(parse("1e00000000000000000000000000000000000001"), Ok(10_000_000_000));
    assert_eq!(parse("0.000123e4"), Ok(1_230_000_000));
    assert_eq!(parse("123456e-4"), Ok(12_345_600_000));
    assert_eq!(parse("1234567891e-9"), Ok(1_234_567_891));
}

#[test]
fn what_is_less_than_a_nanosecond_is_dropped() {
    assert_eq!(parse("1e-9"), Ok(1));
    assert_eq!(parse("1e-10"), Ok(0));
    assert_eq!(parse("19e-10"), Ok(1));
    assert_eq!(parse("9999999999e-19"), Ok(0));
    assert_eq!(parse("123456789e-18"), Ok(0));
    assert_eq!(parse("1.9999999999e0"), Ok(1_999_999_999));
    assert_eq!(parse("1e-99999999999999999999999999999999999999999"), Ok(0));
    assert_eq!(parse("987654321.123e-340282366920938463463374607431768211456"), Ok(0));
}

#[test]
fn zero_stays_zero_under_any_exponent() {
    assert_eq!(parse("0e99999999999999999999999999999999999999999"), Ok(0));
    assert_eq!(parse("0.000e+25"), Ok(0));
    assert_eq!(parse("0e-5"), Ok(0));
    assert_eq!(parse(".0E1267650600228229401496703205377"), Ok(0));
}

#[test]
fn a_great_exponent_takes_a_number_out_of_range() {
    assert_eq!(parse("1e10"), Ok(10_000_000_000_000_000_000));
    assert_eq!(parse("1e11"), Err(TimingError::OutOfRange));
    assert_eq!(parse("1e19"), Err(TimingError::OutOfRange));
    assert_eq!(parse("1e400"), Err(TimingError::OutOfRange));
    assert_eq!(parse("0.001e99999999999999999999999999999999999999999"), Err(TimingError::OutOfRange));
    assert_eq!(parse("1e1267650600228229401496703205376"), Err(TimingError::OutOfRange));
    assert_eq!(parse("1e1267650600228229401496703205377"), Err(TimingError::OutOfRange));
    assert_eq!(parse("18446744073709551615e-9"), Ok(u64::MAX));
    assert_eq!(parse("18446744073709551616e-9"), Err(TimingError::OutOfRange));
    assert_eq!(parse("0.0018446744073709551615e13"), Ok(u64::MAX));
    assert_eq!(parse("0.0018446744073709551616e13"), Err(TimingError::OutOfRange));
    assert_eq!(parse("184467440737095516159e-10"), Ok(u64::MAX));
}

#[test]
fn a_malformed_tail_past_the_ninth_digit_is_still_malformed() {
    assert_eq!(parse("1.000000000x"), Err(TimingError::Malformed));
}

#[test]
fn the_greatest_duration_is_read_and_the_next_is_out_of_range() {
    assert_eq!(parse("18446744073.709551615"), Ok(u64::MAX));
    assert_eq!(parse("18446744073.709551616"), Err(TimingError::OutOfRange));
    assert_eq!(parse("18446744074"), Err(TimingError::OutOfRange));
    assert_eq!(parse("99999999999999999999999999"), Err(TimingError::OutOfRange));
}
