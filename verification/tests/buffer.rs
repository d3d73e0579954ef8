use resp_client::frame::Response;
use resp_client::num::{format_u64, parse_i64};

#[test]
fn read_next_returns_line_and_advances() {
    let mut f = Response::new();
    f.refill(b"hello\r\nworld\r\n");
    assert_eq!(f.read_next(), Some(b"hello".to_vec()));
    assert_eq!(f.read_next(), Some(b"world".to_vec()));
    assert_eq!(f.read_next(), None);
}

#[test]
fn read_next_waits_for_whole_delimiter() {
    let mut f = Response::new();
    f.refill(b"abc\r");
    assert_eq!(f.read_next(), None);
    f.refill(b"\n");
    assert_eq!(f.read_next(), Some(b"abc".to_vec()));
}

#[test]
fn read_and_peek_respect_the_filled_region() {
    let mut f = Response::new();
    f.refill(b"abcde");
    assert_eq!(f.peek(3), Some(b"abc".to_vec()));
    assert_eq!(f.peek(6), None);
    assert_eq!(f.read(3), Some(b"abc".to_vec()));
    assert_eq!(f.read(3), None);
    assert_eq!(f.read(2), Some(b"de".to_vec()));
}

#[test]
fn reset_discards_content_and_rewinds() {
    let mut f = Response::new();
    f.refill(b"stale");
    assert_eq!(f.read(2), Some(b"st".to_vec()));
    f.reset();
    assert_eq!(f.len(), 0);
    assert_eq!(f.cursor(), 0);
    assert_eq!(f.read(1), None);
}

#[test]
fn rewind_keeps_content() {
    let mut f = Response::new();
    f.refill(b"xyz");
    assert_eq!(f.read(2), Some(b"xy".to_vec()));
    f.rewind(0);
    assert_eq!(f.read(3), Some(b"xyz".to_vec()));
}

#[test]
fn parse_signed_decimal_text() {
    assert_eq!(parse_i64(b"123"), Some(123));
    assert_eq!(parse_i64(b"-5"), Some(-5));
    assert_eq!(parse_i64(b"0"), Some(0));
    assert_eq!(parse_i64(b"007"), Some(7));
    assert_eq!(parse_i64(b"-0"), Some(0));
    assert_eq!(parse_i64(b"9223372036854775807"), Some(i64::MAX));
    assert_eq!(parse_i64(b"-9223372036854775808"), Some(i64::MIN));
    assert_eq!(parse_i64(b"9223372036854775808"), None);
    assert_eq!(parse_i64(b"-9223372036854775809"), None);
    assert_eq!(parse_i64(b"184467440737095516150"), None);
    assert_eq!(parse_i64(b""), None);
    assert_eq!(parse_i64(b"-"), None);
    assert_eq!(parse_i64(b"+5"), None);
    assert_eq!(parse_i64(b"12a"), None);
    assert_eq!(parse_i64(b" 1"), None);
}

#[test]
fn format_canonical_decimal_digits() {
    assert_eq!(format_u64(0), b"0".to_vec());
    assert_eq!(format_u64(7), b"7".to_vec());
    assert_eq!(format_u64(30), b"30".to_vec());
    assert_eq!(format_u64(18446744073709551615), b"18446744073709551615".to_vec());
}
