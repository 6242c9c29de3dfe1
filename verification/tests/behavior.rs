use marscalc::Number;
use marscalc::ParseError;

#[test]
fn parse_rejects_empty_input() {
    assert!(matches!(Number::parse(""), Err(ParseError::EmptyInput)));
}

#[test]
fn parse_rejects_invalid_first_character() {
    assert!(matches!(Number::parse(",5"), Err(ParseError::InvalidCharacter)));
    assert!(matches!(Number::parse("x1"), Err(ParseError::InvalidCharacter)));
}

#[test]
fn parse_rejects_invalid_later_character() {
    assert!(matches!(Number::parse("1x"), Err(ParseError::InvalidCharacter)));
    assert!(matches!(Number::parse("12 3"), Err(ParseError::InvalidCharacter)));
}

#[test]
fn parse_rejects_digit_at_or_above_radix() {
    assert!(matches!(Number::parse("9"), Err(ParseError::InvalidCharacter)));
    assert!(matches!(Number::parse("19"), Err(ParseError::InvalidCharacter)));
}

#[test]
fn parse_rejects_multiple_separators() {
    assert!(matches!(Number::parse("1,2,3"), Err(ParseError::MultipleSeparators)));
    assert!(matches!(Number::parse("1,,2"), Err(ParseError::MultipleSeparators)));
}

#[test]
fn parse_rejects_trailing_separator() {
    assert!(matches!(Number::parse("5,"), Err(ParseError::TrailingSeparator)));
    assert!(matches!(Number::parse("-,"), Err(ParseError::TrailingSeparator)));
}

#[test]
fn invalid_character_wins_over_later_separator_faults() {
    assert!(matches!(Number::parse("1x,"), Err(ParseError::InvalidCharacter)));
    assert!(matches!(Number::parse("1,x,"), Err(ParseError::InvalidCharacter)));
}

#[test]
fn parse_normalizes_leading_and_trailing_zeros() {
    assert_eq!(Number::parse("0034").unwrap().format(), "34");
    assert_eq!(Number::parse("3,0").unwrap().format(), "3");
    assert_eq!(Number::parse("0,20").unwrap().format(), "0,2");
    assert_eq!(Number::parse("000").unwrap().format(), "0");
}

#[test]
fn parse_stores_zero_as_positive() {
    assert_eq!(Number::parse("-0").unwrap().format(), "0");
    assert_eq!(Number::parse("-0,0").unwrap().format(), "0");
    assert_eq!(Number::parse("-").unwrap().format(), "0");
}

#[test]
fn format_of_identities() {
    assert_eq!(Number::zero().format(), "0");
    assert_eq!(Number::one().format(), "1");
}

#[test]
fn round_trip_of_normalized_texts() {
    let cases = ["0", "1", "-1", "12,3", "-0,007", "800000000000", "0,1"];
    let mut k: usize = 0;
    while k < cases.len() {
        let s = cases[k];
        assert_eq!(Number::parse(s).unwrap().format(), s);
        k += 1;
    }
}

#[test]
fn normalize_is_idempotent() {
    let mut n = Number::parse("0034,500").unwrap();
    assert_eq!(n.format(), "34,5");
    n.normalize();
    assert_eq!(n.format(), "34,5");
}

#[test]
fn adding_zero_is_identity() {
    let n = Number::parse("-12,3").unwrap();
    assert_eq!(n.add(Number::zero()).format(), "-12,3");
    let n = Number::parse("12,3").unwrap();
    assert_eq!(Number::zero().add(n).format(), "12,3");
}

#[test]
fn multiplying_by_one_is_identity() {
    let n = Number::parse("-12,3").unwrap();
    assert_eq!(n.mul(Number::one()).format(), "-12,3");
    let n = Number::parse("0,05").unwrap();
    assert_eq!(Number::one().mul(n).format(), "0,05");
}

#[test]
fn addition_commutes() {
    let a = Number::parse("17,42").unwrap();
    let b = Number::parse("-3,777").unwrap();
    let ab = a.add(b).format();
    let a = Number::parse("17,42").unwrap();
    let b = Number::parse("-3,777").unwrap();
    let ba = b.add(a).format();
    assert_eq!(ab, ba);
}

#[test]
fn multiplication_commutes() {
    let a = Number::parse("2,4").unwrap();
    let b = Number::parse("-1,3").unwrap();
    let ab = a.mul(b).format();
    let a = Number::parse("2,4").unwrap();
    let b = Number::parse("-1,3").unwrap();
    let ba = b.mul(a).format();
    assert_eq!(ab, ba);
}

#[test]
fn subtracting_is_adding_the_negation() {
    let a = Number::parse("5,1").unwrap();
    let b = Number::parse("2,6").unwrap();
    let diff = a.sub(b).format();
    let a = Number::parse("5,1").unwrap();
    let b = Number::parse("2,6").unwrap();
    let sum = a.add(b.neg()).format();
    assert_eq!(diff, sum);

    let a = Number::parse("-5,1").unwrap();
    let b = Number::parse("2,6").unwrap();
    let sum = a.add(b).format();
    let a = Number::parse("-5,1").unwrap();
    let b = Number::parse("2,6").unwrap();
    let diff = a.sub(b.neg()).format();
    assert_eq!(sum, diff);
}

#[test]
fn subtracting_a_number_from_itself_gives_zero() {
    let a = Number::parse("12,3").unwrap();
    let b = Number::parse("12,3").unwrap();
    assert_eq!(a.sub(b).format(), "0");
    let a = Number::parse("-7,08").unwrap();
    let b = Number::parse("-7,08").unwrap();
    assert_eq!(a.sub(b).format(), "0");
}

#[test]
fn subtraction_borrows_with_the_radix() {
    // 1 - 0,3 is six ninths
    let a = Number::parse("1").unwrap();
    let b = Number::parse("0,3").unwrap();
    assert_eq!(a.sub(b).format(), "0,6");
}

#[test]
fn subtraction_compares_fractions_correctly() {
    let a = Number::parse("0,41").unwrap();
    let b = Number::parse("0,5").unwrap();
    assert_eq!(a.sub(b).format(), "-0,08");
}

#[test]
fn multiplication_shifts_past_the_integer_digits() {
    let a = Number::parse("0,1").unwrap();
    let b = Number::parse("0,1").unwrap();
    assert_eq!(a.mul(b).format(), "0,01");
}

#[test]
fn addition_carries_through_the_comma() {
    // 4,5 + 4,5 in base nine is ten
    let a = Number::parse("4,4").unwrap();
    let b = Number::parse("4,5").unwrap();
    assert_eq!(a.add(b).format(), "10");
}

#[test]
fn abs_smaller_than_orders_integer_parts() {
    let a = Number::parse("12").unwrap();
    let b = Number::parse("123").unwrap();
    assert!(a.abs_smaller_than(&b));
    assert!(!b.abs_smaller_than(&a));
    let c = Number::parse("-200").unwrap();
    assert!(a.abs_smaller_than(&c));
}

#[test]
fn abs_smaller_than_breaks_ties_on_fraction_counts() {
    let a = Number::parse("1,5").unwrap();
    let b = Number::parse("1,55").unwrap();
    assert!(a.abs_smaller_than(&b));
    assert!(!b.abs_smaller_than(&a));
}

#[test]
fn compare_orders_magnitudes_and_ignores_sign() {
    let a = Number::parse("1,5").unwrap();
    let b = Number::parse("1,41").unwrap();
    assert_eq!(a.compare(&b), 1);
    assert_eq!(b.compare(&a), -1);
    let c = Number::parse("-1,5").unwrap();
    assert_eq!(a.compare(&c), 0);
}

#[test]
fn accessors_report_the_digit_layout() {
    let n = Number::parse("12,034").unwrap();
    assert_eq!(n.num_int_digits(), 2);
    assert_eq!(n.num_fract_digits(), 3);
    assert_eq!(n.first_int_digit(), Some(1));
    assert_eq!(n.last_fract_digit(), Some(4));
    assert_eq!(n.int_digits(), vec![1, 2]);
    assert_eq!(n.fract_digits(), vec![0, 3, 4]);
    let z = Number::zero();
    assert_eq!(z.first_int_digit(), None);
    assert_eq!(z.last_fract_digit(), None);
}

#[test]
fn negation_flips_the_sign_only() {
    let n = Number::parse("4,2").unwrap();
    assert_eq!(n.neg().format(), "-4,2");
    let n = Number::parse("-4,2").unwrap();
    assert_eq!(n.neg().format(), "4,2");
}

#[test]
fn mixed_sign_multiplication() {
    let a = Number::parse("-3").unwrap();
    let b = Number::parse("3").unwrap();
    assert_eq!(a.mul(b).format(), "-10");
    let a = Number::parse("-3").unwrap();
    let b = Number::parse("-3").unwrap();
    assert_eq!(a.mul(b).format(), "10");
}

#[test]
fn multiplication_by_zero_gives_zero() {
    let a = Number::parse("-123,45").unwrap();
    assert_eq!(a.mul(Number::zero()).format(), "0");
}
