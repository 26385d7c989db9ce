use station_agg::decode::decode_value;

#[test]
fn round_trip_zero() {
    assert_eq!(decode_value(b"0.0"), Ok(0));
}

#[test]
fn round_trip_negative_tenth() {
    assert_eq!(decode_value(b"-0.1"), Ok(-1));
}

#[test]
fn round_trip_upper_bound() {
    assert_eq!(decode_value(b"99.9"), Ok(999));
}

#[test]
fn round_trip_lower_bound() {
    assert_eq!(decode_value(b"-99.9"), Ok(-999));
}

#[test]
fn decode_two_digit_positive() {
    assert_eq!(decode_value(b"23.4"), Ok(234));
}

#[test]
fn decode_one_digit_negative() {
    assert_eq!(decode_value(b"-5.0"), Ok(-50));
}

#[test]
fn malformed_two_fraction_digits() {
    assert!(decode_value(b"12.34").is_err());
}

#[test]
fn malformed_missing_point() {
    assert!(decode_value(b"123").is_err());
    assert!(decode_value(b"1234").is_err());
}

#[test]
fn malformed_empty_and_short() {
    assert!(decode_value(b"").is_err());
    assert!(decode_value(b"1").is_err());
    assert!(decode_value(b".5").is_err());
}

#[test]
fn malformed_non_digit() {
    assert!(decode_value(b"a.5").is_err());
    assert!(decode_value(b"1.x").is_err());
    assert!(decode_value(b"-.5.0").is_err());
    assert!(decode_value(b"--1.0").is_err());
}

#[test]
fn malformed_plus_sign() {
    assert!(decode_value(b"+1.0").is_err());
}
