use std::cmp::Ordering;

use bigint::{BigInt, ParseError};

fn parse(s: &str) -> BigInt {
    BigInt::from_str(s).unwrap()
}

#[test]
fn round_trip_thirty_digits() {
    let v = parse("123456789012345678901234567890");
    assert_eq!(v.to_decimal_string(), "123456789012345678901234567890");
}

#[test]
fn add_carries_across_limb_boundary() {
    let a = parse("999999999999999999");
    let r = a.add(&BigInt::from_u64(1));
    assert_eq!(r.to_decimal_string(), "1000000000000000000");
}

#[test]
fn sub_negative_minus_positive() {
    let r = parse("-5").sub(&parse("3"));
    assert_eq!(r.to_decimal_string(), "-8");
}

#[test]
fn sub_smaller_minus_larger() {
    let r = parse("3").sub(&parse("5"));
    assert_eq!(r.to_decimal_string(), "-2");
}

#[test]
fn mul_across_limbs() {
    let r = parse("99999999999999999999").mul(&parse("2"));
    assert_eq!(r.to_decimal_string(), "199999999999999999998");
}

#[test]
fn parse_sign_only_is_refused() {
    assert_eq!(BigInt::from_str("-"), Err(ParseError::EmptyOrSignOnly));
    assert_eq!(BigInt::from_str("  -  "), Err(ParseError::EmptyOrSignOnly));
}

#[test]
fn parse_empty_is_refused() {
    assert_eq!(BigInt::from_str(""), Err(ParseError::EmptyOrSignOnly));
    assert_eq!(BigInt::from_str(" \t\n"), Err(ParseError::EmptyOrSignOnly));
}

#[test]
fn zero_has_one_form() {
    let a = parse("-0");
    let b = parse("0");
    let c = parse("000");
    assert_eq!(a, b);
    assert_eq!(b, c);
    assert_eq!(c, BigInt::from_u64(0));
    assert_eq!(a.to_decimal_string(), "0");
    assert_eq!(b.to_decimal_string(), "0");
    assert_eq!(c.to_decimal_string(), "0");
    assert!(a.is_zero());
}

#[test]
fn parse_reports_bad_group() {
    assert_eq!(
        BigInt::from_str("12a4"),
        Err(ParseError::InvalidDigits { segment: "12a4".to_string() })
    );
    assert_eq!(
        BigInt::from_str("1x123456789012345678"),
        Err(ParseError::InvalidDigits { segment: "1x".to_string() })
    );
    assert_eq!(
        BigInt::from_str("9x2345678901234567y"),
        Err(ParseError::InvalidDigits { segment: "x2345678901234567y".to_string() })
    );
    assert_eq!(
        BigInt::from_str("-+5"),
        Err(ParseError::InvalidDigits { segment: "+5".to_string() })
    );
    assert_eq!(
        BigInt::from_str("--5"),
        Err(ParseError::InvalidDigits { segment: "-5".to_string() })
    );
}

#[test]
fn parse_trims_white_space() {
    assert_eq!(parse("  -42 \n").to_decimal_string(), "-42");
    assert_eq!(parse("\t7\u{3000}").to_decimal_string(), "7");
}

#[test]
fn parse_drops_leading_zeros() {
    assert_eq!(parse("-000123").to_decimal_string(), "-123");
    assert_eq!(parse("0000000000000000000000000001").to_decimal_string(), "1");
}

#[test]
fn format_pads_inner_limbs() {
    assert_eq!(parse("1000000000000000000000000000000000001").to_decimal_string(),
        "1000000000000000000000000000000000001");
    assert_eq!(parse("-5000000000000000007").to_decimal_string(), "-5000000000000000007");
}

#[test]
fn add_and_mul_commute() {
    let values = ["0", "1", "-1", "999999999999999999", "-123456789012345678901234567890", "42"];
    for x in values.iter() {
        for y in values.iter() {
            let a = parse(x);
            let b = parse(y);
            assert_eq!(a.add(&b), b.add(&a));
            assert_eq!(a.mul(&b), b.mul(&a));
        }
    }
}

#[test]
fn add_with_negation_is_zero() {
    for x in ["0", "7", "-7", "1000000000000000000000"].iter() {
        let a = parse(x);
        let z = a.add(&a.negate());
        assert!(z.is_zero());
        assert_eq!(z, BigInt::from_u64(0));
        assert_eq!(z.to_decimal_string(), "0");
    }
}

#[test]
fn sub_equals_add_of_negation() {
    let values = ["0", "5", "-5", "3", "1000000000000000000", "-999999999999999999999"];
    for x in values.iter() {
        for y in values.iter() {
            let a = parse(x);
            let b = parse(y);
            assert_eq!(a.sub(&b), a.add(&b.negate()));
        }
    }
}

#[test]
fn mul_by_one_and_zero() {
    let zero = BigInt::from_u64(0);
    for x in ["0", "-17", "123456789012345678901234567890"].iter() {
        let a = parse(x);
        assert_eq!(a.mul(&BigInt::from_u64(1)), a);
        assert_eq!(a.mul(&zero), zero);
    }
    assert_eq!(parse("-17").mul(&zero).to_decimal_string(), "0");
}

#[test]
fn compare_orders_by_value() {
    let ordered = ["-1000000000000000000000", "-999999999999999999", "-5", "0", "3", "1000000000000000000",
        "1000000000000000001", "123456789012345678901234567890"];
    for (i, x) in ordered.iter().enumerate() {
        for (j, y) in ordered.iter().enumerate() {
            let expected = i.cmp(&j);
            assert_eq!(parse(x).compare(&parse(y)), expected);
        }
    }
    assert_eq!(parse("-0").compare(&parse("0")), Ordering::Equal);
}

#[test]
fn borrow_runs_through_limbs() {
    let a = parse("1000000000000000000000000000000000000");
    let r = a.sub(&BigInt::from_u64(1));
    assert_eq!(r.to_decimal_string(), "999999999999999999999999999999999999");
    let back = r.add(&BigInt::from_u64(1));
    assert_eq!(back, a);
}

#[test]
fn mul_large_values() {
    let a = parse("-999999999999999999999999999999999999");
    let b = parse("999999999999999999999999999999999999");
    assert_eq!(a.mul(&b).to_decimal_string(),
        "-999999999999999999999999999999999998000000000000000000000000000000000001");
    assert_eq!(parse("-3").mul(&parse("-4")).to_decimal_string(), "12");
}

#[test]
fn add_mixed_signs() {
    assert_eq!(parse("-10").add(&parse("3")).to_decimal_string(), "-7");
    assert_eq!(parse("10").add(&parse("-3")).to_decimal_string(), "7");
    assert_eq!(parse("-10").add(&parse("-3")).to_decimal_string(), "-13");
    assert_eq!(parse("-3").sub(&parse("-10")).to_decimal_string(), "7");
    assert_eq!(parse("3").sub(&parse("-10")).to_decimal_string(), "13");
}

#[test]
fn from_u64_and_is_zero() {
    assert!(BigInt::from_u64(0).is_zero());
    assert!(!BigInt::from_u64(5).is_zero());
    assert_eq!(BigInt::from_u64(999999999999999999).to_decimal_string(), "999999999999999999");
    assert_eq!(BigInt::from_u64(0).negate(), BigInt::from_u64(0));
}
