use guestbook::encoding::count_chars;
use guestbook::encoding::is_valid_utf8;
use guestbook::text::lower_bytes;
use guestbook::text::parse_usize_or_zero;
use guestbook::text::trim_bytes;
use guestbook::text::usize_to_decimal;

#[test]
fn trim_removes_both_ends() {
    assert_eq!(trim_bytes(b"  a b\r\n"), b"a b".to_vec());
    assert_eq!(trim_bytes(b"\t\r\n "), b"".to_vec());
    assert_eq!(trim_bytes(b"x"), b"x".to_vec());
    assert_eq!(trim_bytes(b""), b"".to_vec());
}

#[test]
fn lower_folds_ascii_only() {
    assert_eq!(lower_bytes(b"Content-Length"), b"content-length".to_vec());
    assert_eq!(lower_bytes(b"abc-123_"), b"abc-123_".to_vec());
}

#[test]
fn parse_usize_plain() {
    assert_eq!(parse_usize_or_zero(b"42"), 42);
    assert_eq!(parse_usize_or_zero(b"0"), 0);
    assert_eq!(parse_usize_or_zero(b"+42"), 42);
}

#[test]
fn parse_usize_failures_are_zero() {
    assert_eq!(parse_usize_or_zero(b""), 0);
    assert_eq!(parse_usize_or_zero(b"abc"), 0);
    assert_eq!(parse_usize_or_zero(b"4x2"), 0);
    assert_eq!(parse_usize_or_zero(b"-1"), 0);
    assert_eq!(parse_usize_or_zero(b"+"), 0);
    assert_eq!(parse_usize_or_zero(b"99999999999999999999999999999999"), 0);
}

#[test]
fn decimal_digits_exact() {
    assert_eq!(usize_to_decimal(0), b"0".to_vec());
    assert_eq!(usize_to_decimal(10), b"10".to_vec());
    assert_eq!(usize_to_decimal(12345), b"12345".to_vec());
}

#[test]
fn utf8_accepts_valid_text() {
    assert!(is_valid_utf8(b"plain ascii"));
    assert!(is_valid_utf8("héllo wörld".as_bytes()));
    assert!(is_valid_utf8("日本語".as_bytes()));
    assert!(is_valid_utf8("🦀".as_bytes()));
    assert!(is_valid_utf8(b""));
}

#[test]
fn utf8_rejects_invalid_bytes() {
    assert!(!is_valid_utf8(&[0xff]));
    assert!(!is_valid_utf8(&[0xc3]));
    assert!(!is_valid_utf8(&[0xc0, 0x80]));
    assert!(!is_valid_utf8(&[0xed, 0xa0, 0x80]));
    assert!(!is_valid_utf8(&[0xf4, 0x90, 0x80, 0x80]));
    assert!(!is_valid_utf8(&[0x80]));
    assert!(!is_valid_utf8(&[0xe2, 0x82]));
}

#[test]
fn utf8_matches_std_validation() {
    let samples: Vec<Vec<u8>> = vec![
        b"abc".to_vec(),
        vec![0xe2, 0x82, 0xac],
        vec![0xe2, 0x82],
        vec![0xf0, 0x9f, 0xa6, 0x80],
        vec![0xf5, 0x80, 0x80, 0x80],
        vec![0xc2, 0xa0],
        vec![0xc1, 0xbf],
    ];
    for s in samples {
        assert_eq!(is_valid_utf8(&s), std::str::from_utf8(&s).is_ok());
    }
}

#[test]
fn char_count_counts_characters() {
    assert_eq!(count_chars(b"hello"), 5);
    assert_eq!(count_chars("héllo".as_bytes()), 5);
    assert_eq!(count_chars("日本語".as_bytes()), 3);
    assert_eq!(count_chars(b""), 0);
}
