use zahttp::bytes::{
    at, eq_ignore_ascii_case, find_byte, memfind, parse_u64b, parse_usize, same_bytes, same_str, trim,
};

#[test]
fn trim_removes_spaces_and_tabs_only() {
    assert_eq!(trim(b" \t a b\t "), b"a b");
    assert_eq!(trim(b"\r\nx\r\n"), b"\r\nx\r\n");
    assert_eq!(trim(b" \t "), b"");
    assert_eq!(trim(b""), b"");
}

#[test]
fn memfind_finds_the_first_place() {
    assert_eq!(memfind(b"abcabc", b"ca"), Some(2));
    assert_eq!(memfind(b"aaab", b"ab"), Some(2));
    assert_eq!(memfind(b"abc", b"d"), None);
    assert_eq!(memfind(b"abc", b""), None);
    assert_eq!(memfind(b"ab", b"abc"), None);
}

#[test]
fn at_is_bounds_safe() {
    assert!(at(b"hello", 3, b"lo"));
    assert!(!at(b"hello", 4, b"lo"));
    assert!(!at(b"hello", 6, b""));
    assert!(at(b"hello", 5, b""));
    assert!(!at(b"hello", usize::MAX, b"lo"));
}

#[test]
fn numbers_do_not_wrap() {
    assert_eq!(parse_u64b(b"18446744073709551615"), Some(u64::MAX));
    assert_eq!(parse_u64b(b"18446744073709551616"), None);
    assert_eq!(parse_u64b(b"007"), Some(7));
    assert_eq!(parse_u64b(b""), None);
    assert_eq!(parse_u64b(b"+7"), None);
    assert_eq!(parse_u64b(b"7 "), None);
    assert_eq!(parse_usize("4096"), Some(4096));
    assert_eq!(parse_usize("99999999999999999999999"), None);
    assert_eq!(parse_usize("0x10"), None);
}

#[test]
fn comparing_bytes() {
    assert!(same_bytes(b"ab", b"ab"));
    assert!(!same_bytes(b"ab", b"abc"));
    assert!(same_str("caf\u{e9}", "caf\u{e9}"));
    assert!(!same_str("GET", "get"));
    assert!(eq_ignore_ascii_case(b"Content-LENGTH", b"content-length"));
    assert!(!eq_ignore_ascii_case(b"[", b"{"));
    assert_eq!(find_byte(b"a:b:c", b':'), Some(1));
    assert_eq!(find_byte(b"abc", b':'), None);
}
