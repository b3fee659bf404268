use zahttp::buf::{copy_bytes, push2, push4, push_hex_u64, push_hex_usize, unwritten, Out};
use zahttp::bytes::parse_u64b;

#[test]
fn out_drops_what_does_not_fit() {
    let mut room = [0u8; 4];
    let mut o = Out::new(&mut room);
    o.push_str("ab");
    assert!(!o.overflow);
    o.push(b"cde");
    assert!(o.overflow);
    assert_eq!(o.as_slice(), b"abcd");
    o.push_byte(b'x');
    assert_eq!(o.as_slice(), b"abcd");
}

#[test]
fn out_leaves_the_rest_of_the_room_alone() {
    let mut room = [7u8; 8];
    let mut o = Out::new(&mut room);
    o.push(b"ab");
    o.push_u64(12);
    assert_eq!(&o.buf[..], b"ab12\x07\x07\x07\x07");
}

#[test]
fn out_filled_exactly_is_no_overflow() {
    let mut room = [0u8; 3];
    let mut o = Out::new(&mut room);
    o.push(b"abc");
    o.push(b"");
    assert!(!o.overflow);
    assert_eq!(o.as_slice(), b"abc");
}

#[test]
fn decimal_numbers() {
    let mut room = [0u8; 64];
    let mut o = Out::new(&mut room);
    o.push_u64(0);
    o.push_str(" ");
    o.push_u64(65536);
    o.push_str(" ");
    o.push_u64(u64::MAX);
    assert_eq!(o.as_slice(), b"0 65536 18446744073709551615");
}

#[test]
fn decimal_numbers_read_back() {
    for v in [0, 9, 10, 65536, u64::MAX - 1, u64::MAX] {
        let mut room = [0u8; 20];
        let mut o = Out::new(&mut room);
        o.push_u64(v);
        assert_eq!(parse_u64b(o.as_slice()), Some(v));
    }
}

#[test]
fn padded_numbers() {
    let mut room = [0u8; 16];
    let mut o = Out::new(&mut room);
    push2(&mut o, 7);
    push2(&mut o, 42);
    push4(&mut o, 70);
    push4(&mut o, 1994);
    assert_eq!(o.as_slice(), b"074200701994");
}

#[test]
fn hexadecimal_numbers() {
    let mut room = [0u8; 64];
    let mut o = Out::new(&mut room);
    push_hex_u64(&mut o, 0);
    o.push_str(" ");
    push_hex_u64(&mut o, 255);
    o.push_str(" ");
    push_hex_usize(&mut o, 4096);
    o.push_str(" ");
    push_hex_u64(&mut o, u64::MAX);
    assert_eq!(o.as_slice(), b"0 ff 1000 ffffffffffffffff");
}

#[test]
fn partial_writes_advance_over_both_buffers() {
    let (a, b) = unwritten(b"head", b"body", 2);
    assert_eq!((a, b), (&b"ad"[..], &b"body"[..]));
    let (a, b) = unwritten(b"head", b"body", 4);
    assert_eq!((a, b), (&b""[..], &b"body"[..]));
    let (a, b) = unwritten(b"head", b"body", 7);
    assert_eq!((a, b), (&b""[..], &b"y"[..]));
    let (a, b) = unwritten(b"head", b"body", 9);
    assert_eq!((a, b), (&b""[..], &b""[..]));
}

#[test]
fn copying_leaves_the_rest_alone() {
    let mut d = *b"..........";
    copy_bytes(&mut d, 3, b"abc");
    assert_eq!(&d, b"...abc....");
}
