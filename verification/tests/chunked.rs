use zahttp::chunked::{Decoder, Outcome};
use zahttp::http::MAX_TRAILERS;

fn trailer(d: &Decoder, i: usize) -> &[u8] {
    &d.trailers.lines[i][..d.trailers.lens[i]]
}

/// Feeds `wire` in pieces of `step` bytes; the status, or the body and how many
/// bytes belong to it.
fn decode(wire: &[u8], step: usize) -> Result<(Vec<u8>, usize, Decoder), Option<u16>> {
    let mut d = Decoder::new();
    let mut at = 0;
    while at < wire.len() {
        let end = (at + step).min(wire.len());
        match d.decode_chunked(&wire[at..end]) {
            Outcome::More => at = end,
            Outcome::Fail(s) => return Err(Some(s)),
            Outcome::Done(n) => return Ok((d.out[..d.dlen].to_vec(), at + n, d)),
        }
    }
    Err(None)
}

fn status(wire: &[u8]) -> Option<u16> {
    match decode(wire, 1) {
        Ok(_) => Some(200),
        Err(s) => s,
    }
}

#[test]
fn a_body_is_put_together() {
    let wire = b"4\r\nWiki\r\n5;ext=1\r\npedia\r\nE\r\n in\r\n\r\nchunks.\r\n0\r\n\r\nGET / HTTP/1.1";
    let (body, used, d) = decode(wire, wire.len()).ok().unwrap();
    assert_eq!(body, b"Wikipedia in\r\n\r\nchunks.");
    assert_eq!(&wire[used..], b"GET / HTTP/1.1");
    assert_eq!(d.trailers.count, 0);
}

#[test]
fn pieces_do_not_matter() {
    let wire = b"4\r\nWiki\r\n5\r\npedia\r\n0\r\nX-A: 1\r\nX-B: 2\r\n\r\nrest";
    for step in 1..wire.len() + 1 {
        let (body, used, d) = decode(wire, step).ok().unwrap();
        assert_eq!(body, b"Wikipedia");
        assert_eq!(&wire[used..], b"rest");
        assert_eq!(d.trailers.count, 2);
        assert_eq!(trailer(&d, 0), b"X-A: 1");
        assert_eq!(trailer(&d, 1), b"X-B: 2");
    }
}

#[test]
fn a_body_that_is_under_way_needs_more() {
    for wire in [&b""[..], b"4", b"4\r", b"4\r\nWi", b"4\r\nWiki", b"4\r\nWiki\r", b"0\r\n", b"0\r\n\r", b"0\r\nX: y\r\n"] {
        assert_eq!(status(wire), None);
    }
}

#[test]
fn broken_framing_is_refused() {
    assert_eq!(status(b"x\r\n"), Some(400));
    assert_eq!(status(b"\r\n"), Some(400));
    assert_eq!(status(b"4\r\nWikiXY"), Some(400));
    assert_eq!(status(b"4\r\nWiki\n\n"), Some(400));
    assert_eq!(status(&[b'1'; 65]), Some(400));
    assert_eq!(status(b"0\r\nbad line\r\n"), Some(400));
    assert_eq!(status(b"0\r\nb@d: x\r\n"), Some(400));
    assert_eq!(status(b"0\r\nContent-Length: 3\r\n"), Some(400));
    assert_eq!(status(b"0\r\nTransfer-Encoding: chunked\r\n"), Some(400));
}

#[test]
fn large_bodies_are_refused() {
    assert_eq!(status(b"1001\r\n"), Some(413));
    assert_eq!(status(b"ffffffffffffffffff\r\n"), Some(413));
    let mut wire = b"1000\r\n".to_vec();
    wire.extend_from_slice(&[b'a'; 4096]);
    wire.extend_from_slice(b"\r\n");
    let mut whole = wire.clone();
    whole.extend_from_slice(b"0\r\n\r\n");
    assert_eq!(decode(&whole, 100).ok().unwrap().0.len(), 4096);
    wire.extend_from_slice(b"1\r\n");
    assert_eq!(status(&wire), Some(413));
}

#[test]
fn size_lines_and_trailer_lines_are_bounded() {
    let mut wire = b"1;".to_vec();
    wire.extend_from_slice(&[b'x'; 62]);
    wire.extend_from_slice(b"\r\na\r\n0\r\n");
    let start = wire.clone();
    wire.extend_from_slice(b"X: ");
    wire.extend_from_slice(&[b'v'; 253]);
    wire.extend_from_slice(b"\r\n\r\n");
    assert_eq!(status(&wire), Some(200));
    let mut long = start;
    long.extend_from_slice(b"X: ");
    long.extend_from_slice(&[b'v'; 254]);
    assert_eq!(status(&long), Some(400));
}

#[test]
fn trailers_are_bounded_in_number() {
    let mut wire = b"0\r\n".to_vec();
    for i in 0..MAX_TRAILERS {
        wire.extend_from_slice(format!("T{}: x\r\n", i).as_bytes());
    }
    let mut more = wire.clone();
    wire.extend_from_slice(b"\r\n");
    assert_eq!(decode(&wire, 3).ok().unwrap().2.trailers.count, MAX_TRAILERS);
    more.extend_from_slice(b"T: x\r\n\r\n");
    assert_eq!(status(&more), Some(400));
}

#[test]
fn what_follows_a_body_does_not_change_it() {
    let wire = b"3\r\nabc\r\n0\r\n\r\n";
    let (body, used, _) = decode(wire, 64).ok().unwrap();
    let (again, used_again, _) = decode(b"3\r\nabc\r\n0\r\n\r\n5\r\nhello\r\n", 64).ok().unwrap();
    assert_eq!((body, used), (again, used_again));
}
