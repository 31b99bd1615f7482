//! Decimal parsing and rendering over raw bytes.

use redust::numbers::{bytes_eq, fmt_i64, fmt_u64, parse_i64};

#[test]
fn test_parse_accepts_signed_decimal() {
    assert_eq!(parse_i64(b"0"), Some(0));
    assert_eq!(parse_i64(b"123"), Some(123));
    assert_eq!(parse_i64(b"+42"), Some(42));
    assert_eq!(parse_i64(b"-7"), Some(-7));
    assert_eq!(parse_i64(b"-0"), Some(0));
    assert_eq!(parse_i64(b"007"), Some(7));
    assert_eq!(parse_i64(b"9223372036854775807"), Some(i64::MAX));
    assert_eq!(parse_i64(b"-9223372036854775808"), Some(i64::MIN));
}

#[test]
fn test_parse_rejects_junk_and_overflow() {
    assert_eq!(parse_i64(b""), None);
    assert_eq!(parse_i64(b"+"), None);
    assert_eq!(parse_i64(b"-"), None);
    assert_eq!(parse_i64(b"12a"), None);
    assert_eq!(parse_i64(b" 1"), None);
    assert_eq!(parse_i64(b"1 "), None);
    assert_eq!(parse_i64(b"9223372036854775808"), None);
    assert_eq!(parse_i64(b"-9223372036854775809"), None);
    assert_eq!(parse_i64(b"99999999999999999999999999"), None);
}

#[test]
fn test_fmt_renders_decimal() {
    assert_eq!(fmt_i64(0), b"0".to_vec());
    assert_eq!(fmt_i64(123), b"123".to_vec());
    assert_eq!(fmt_i64(-7), b"-7".to_vec());
    assert_eq!(fmt_i64(i64::MAX), b"9223372036854775807".to_vec());
    assert_eq!(fmt_i64(i64::MIN), b"-9223372036854775808".to_vec());
    assert_eq!(fmt_u64(0), b"0".to_vec());
    assert_eq!(fmt_u64(u64::MAX), b"18446744073709551615".to_vec());
}

#[test]
fn test_fmt_parse_round_trip() {
    let cases: Vec<i64> = vec![0, 1, -1, 10, 99, -100, i64::MAX, i64::MIN];
    for v in cases {
        assert_eq!(parse_i64(&fmt_i64(v)), Some(v));
    }
}

#[test]
fn test_bytes_eq_compares_contents() {
    assert!(bytes_eq(&b"abc".to_vec(), &b"abc".to_vec()));
    assert!(!bytes_eq(&b"abc".to_vec(), &b"abd".to_vec()));
    assert!(!bytes_eq(&b"abc".to_vec(), &b"ab".to_vec()));
    assert!(bytes_eq(&b"".to_vec(), &b"".to_vec()));
}
