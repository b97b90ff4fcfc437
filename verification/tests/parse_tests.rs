use menu_numerics::parse::parse_u64;

#[test]
fn parses_plain_number() {
    assert_eq!(parse_u64(b"30"), Some(30));
}

#[test]
fn parses_with_surrounding_whitespace() {
    assert_eq!(parse_u64(b" 42 \n"), Some(42));
    assert_eq!(parse_u64(b"\t7\r\n"), Some(7));
}

#[test]
fn parses_leading_plus_sign() {
    assert_eq!(parse_u64(b"+7"), Some(7));
    assert_eq!(parse_u64(b"+"), None);
    assert_eq!(parse_u64(b"++1"), None);
}

#[test]
fn parses_leading_zeros() {
    assert_eq!(parse_u64(b"007"), Some(7));
    assert_eq!(parse_u64(b"0"), Some(0));
}

#[test]
fn rejects_empty_input() {
    assert_eq!(parse_u64(b""), None);
    assert_eq!(parse_u64(b"   \n"), None);
}

#[test]
fn rejects_non_numeric_input() {
    assert_eq!(parse_u64(b"abc"), None);
    assert_eq!(parse_u64(b"12x"), None);
    assert_eq!(parse_u64(b"1 2"), None);
}

#[test]
fn rejects_negative_input() {
    assert_eq!(parse_u64(b"-5"), None);
}

#[test]
fn handles_u64_boundary() {
    assert_eq!(parse_u64(b"18446744073709551615"), Some(u64::MAX));
    assert_eq!(parse_u64(b"18446744073709551616"), None);
    assert_eq!(parse_u64(b"99999999999999999999999"), None);
}
