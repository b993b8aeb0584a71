use clink::errors::APIError;
use clink::numeric::{encode_u64, parse_balance, parse_u64};

#[test]
fn balance_parses_positive() {
    assert_eq!(parse_balance("150").unwrap(), 150);
}

#[test]
fn balance_parses_negative() {
    assert_eq!(parse_balance("-5").unwrap(), -5);
}

#[test]
fn balance_parses_plus_sign() {
    assert_eq!(parse_balance("+42").unwrap(), 42);
}

#[test]
fn balance_parses_zero() {
    assert_eq!(parse_balance("0").unwrap(), 0);
}

#[test]
fn balance_rejects_text() {
    assert!(matches!(parse_balance("abc"), Err(APIError::BadFormat)));
}

#[test]
fn balance_rejects_empty() {
    assert!(matches!(parse_balance(""), Err(APIError::BadFormat)));
}

#[test]
fn balance_rejects_bare_sign() {
    assert!(matches!(parse_balance("-"), Err(APIError::BadFormat)));
}

#[test]
fn balance_rejects_inner_sign() {
    assert!(matches!(parse_balance("1-5"), Err(APIError::BadFormat)));
}

#[test]
fn balance_parses_extremes() {
    assert_eq!(parse_balance("9223372036854775807").unwrap(), i64::MAX);
    assert_eq!(parse_balance("-9223372036854775808").unwrap(), i64::MIN);
}

#[test]
fn balance_rejects_overflow() {
    assert!(matches!(
        parse_balance("9223372036854775808"),
        Err(APIError::BadFormat)
    ));
    assert!(matches!(
        parse_balance("-9223372036854775809"),
        Err(APIError::BadFormat)
    ));
}

#[test]
fn decimal_digits_render() {
    assert_eq!(encode_u64(0), b"0".to_vec());
    assert_eq!(encode_u64(105), b"105".to_vec());
    assert_eq!(encode_u64(u64::MAX), b"18446744073709551615".to_vec());
}

#[test]
fn decimal_digits_read_back() {
    assert_eq!(parse_u64(b"105"), Some(105));
    assert_eq!(parse_u64(b"18446744073709551615"), Some(u64::MAX));
    assert_eq!(parse_u64(b"18446744073709551616"), None);
    assert_eq!(parse_u64(b""), None);
    assert_eq!(parse_u64(b"1a"), None);
}
