use tfil::filters::csi::{find_last_escape, skip_csi};
use tfil::bytes::{digits_only, find_field_end, parse_decimal, same_bytes, starts_with};

#[test]
fn decimal_numbers_fit_or_do_not() {
    for (digits, number) in [
        (b"0".as_slice(), Some(0)),
        (b"0022", Some(22)),
        (b"65535", Some(65535)),
        (b"65536", None),
        (b"000000000065535", Some(65535)),
        (b"99999999999999999999", None),
        (b"", Some(0)),
    ] {
        assert_eq!(parse_decimal(digits), number, "{digits:?}");
    }
    assert!(digits_only(b"0123456789") && digits_only(b""));
    assert!(!digits_only(b"12x") && !digits_only(b"/") && !digits_only(b":"));
}

#[test]
fn fields_end_at_semicolons() {
    assert_eq!(find_field_end(b"ab;c", 0), 2);
    assert_eq!(find_field_end(b"ab;c", 2), 2);
    assert_eq!(find_field_end(b"ab;c", 3), 4);
    assert_eq!(find_field_end(b"", 0), 0);
}

#[test]
fn prefixes_and_equality() {
    assert!(starts_with(b"abc", b"ab") && starts_with(b"abc", b""));
    assert!(!starts_with(b"ab", b"abc") && !starts_with(b"abc", b"ac"));
    assert!(same_bytes(b"ab", b"ab") && !same_bytes(b"ab", b"abc") && !same_bytes(b"ab", b"aX"));
}

#[test]
fn control_sequences_are_skipped() {
    assert_eq!(skip_csi(b"a\x1b[14;5Hb", 1), Some(8));
    assert_eq!(skip_csi(b"\x1b[14;5", 0), None);
    assert_eq!(skip_csi(b"\x1b[m", 1), None);
    assert_eq!(skip_csi(b"\x1b[m", 3), None);
    assert_eq!(skip_csi(b"\x1b[m", 4), None);
    assert_eq!(find_last_escape(b"\x1ba\x1bb"), Some(2));
    assert_eq!(find_last_escape(b"ab"), None);
}
