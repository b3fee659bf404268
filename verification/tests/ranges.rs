use zahttp::buf::Out;
use zahttp::http::{parse_head, Parse};
use zahttp::ranges::{
    accepts_gzip, digits_u64, etag_list_matches, fill_range_body, parse_one_range, parse_ranges, part_len, plan_pieces,
    plan_slice, push_part_start, q_is_zero, qvalue_zero, range_head, range_head_at, range_head_end, range_head_start,
    range_head_start_at, range_slice, send_ranges,
    RangePlan, RangeSet, MAX_RANGES, PART_CAP, RANGE_BOUNDARY, RANGE_ETAG, RANGE_HEAD_CAP, RANGE_TOTAL,
};
use zahttp::sha1::sha1;

const DATE: &[u8; 29] = b"Sun, 06 Nov 1994 08:49:37 GMT";

fn one(spec: &[u8]) -> Option<(u64, u64)> {
    let mut r = (7, 7);
    if parse_one_range(spec, 65536, &mut r) {
        Some(r)
    } else {
        assert_eq!(r, (7, 7));
        None
    }
}

fn many(value: &str) -> Option<Vec<(u64, u64)>> {
    let mut rs = [(0, 0); MAX_RANGES];
    match parse_ranges(value, 65536, &mut rs) {
        Ok(n) => Some(rs[..n].to_vec()),
        Err(()) => None,
    }
}

fn plan(fields: &str) -> RangePlan {
    let head = format!("GET /bytes HTTP/1.1\r\n{}\r\n", fields);
    match parse_head(head.as_bytes()) {
        Parse::Ready(r) => send_ranges(&r, true),
        _ => panic!("bad head"),
    }
}

fn status(fields: &str) -> (u16, String) {
    let mut room = [0u8; RANGE_HEAD_CAP];
    let mut h = Out::new(&mut room);
    range_head_at(&mut h, &plan(fields), 1000, DATE, true);
    assert!(!h.overflow);
    let text = String::from_utf8(h.as_slice().to_vec()).unwrap();
    (text[9..12].parse().unwrap(), text)
}

fn set(plan: RangePlan) -> RangeSet {
    match plan {
        RangePlan::Ranges(s) => s,
        _ => panic!("no ranges"),
    }
}

#[test]
fn one_range_in_all_its_forms() {
    assert_eq!(one(b"10-19"), Some((10, 19)));
    assert_eq!(one(b"10-"), Some((10, 65535)));
    assert_eq!(one(b"-16"), Some((65520, 65535)));
    assert_eq!(one(b"-99999"), Some((0, 65535)));
    assert_eq!(one(b"65500-999999"), Some((65500, 65535)));
    assert_eq!(one(b" 0 - 0 "), Some((0, 0)));
    assert_eq!(one(b"70000-"), None);
    assert_eq!(one(b"65536-65537"), None);
    assert_eq!(one(b"20-10"), None);
    assert_eq!(one(b"-0"), None);
    assert_eq!(one(b"-"), None);
    assert_eq!(one(b"abc"), None);
    assert_eq!(one(b"1-2-3"), None);
    assert_eq!(one(b"18446744073709551616-"), None);
    let mut r = (0, 0);
    assert!(!parse_one_range(b"-5", 0, &mut r));
}

#[test]
fn range_lists() {
    assert_eq!(many("bytes=0-0"), Some(vec![(0, 0)]));
    assert_eq!(many(" BYTES=0-1, 5-6 ,-1"), Some(vec![(0, 1), (5, 6), (65535, 65535)]));
    assert_eq!(many("bytes=0-1,"), Some(vec![(0, 1)]));
    assert_eq!(many("bytes=,0-1"), None);
    assert_eq!(many("bytes="), None);
    assert_eq!(many("bytes"), None);
    assert_eq!(many("lines=0-1"), None);
    assert_eq!(many("bytes=0-1,x"), None);
    assert_eq!(many("bytes=0-0,1-1,2-2,3-3,4-4,5-5,6-6,7-7").map(|v| v.len()), Some(8));
    assert_eq!(many("bytes=0-0,1-1,2-2,3-3,4-4,5-5,6-6,7-7,8-8"), None);
}

#[test]
fn the_body_is_fixed() {
    let mut b = [0u8; RANGE_TOTAL];
    fill_range_body(&mut b);
    assert_eq!(b[..8], [0xbf, 0x85, 0xbd, 0x8e, 0xe3, 0xe8, 0xb1, 0xa2]);
    assert_eq!(b[RANGE_TOTAL - 4..], [0x4c, 0x56, 0x7d, 0x95]);
    let mut d = [0u8; 20];
    sha1(&b, &mut d);
    assert_eq!(d[..4], [0x4b, 0x65, 0x32, 0x85]);
}

#[test]
fn answers_to_ranges() {
    let (s, text) = status("Range: bytes=10-19\r\n");
    assert_eq!(s, 206);
    assert_eq!(
        text,
        "HTTP/1.1 206 Partial Content\r\nDate: Sun, 06 Nov 1994 08:49:37 GMT\r\nServer: zahttp/0.1\r\nContent-Type: application/octet-stream\r\nAccept-Ranges: bytes\r\nETag: \"zahttp-bytes-v1\"\r\nContent-Range: bytes 10-19/65536\r\nContent-Length: 10\r\nConnection: keep-alive\r\n\r\n"
    );
    let (s, text) = status("Range: bytes=70000-\r\n");
    assert_eq!(s, 416);
    assert!(text.contains("\r\nContent-Range: bytes */65536\r\nContent-Length: 0\r\n"));
    let (s, text) = status("");
    assert_eq!(s, 200);
    assert!(text.contains("\r\nETag: \"zahttp-bytes-v1\"\r\nVary: Accept-Encoding\r\nContent-Length: 65536\r\n"));
    assert!(text.contains("\r\nAccept-Ranges: bytes\r\n"));
    let (s, text) = status("Accept-Encoding: gzip\r\n");
    assert_eq!(s, 200);
    assert!(text.contains("\r\nContent-Encoding: gzip\r\nAccept-Ranges: bytes\r\nETag: \"zahttp-bytes-v1+gzip\"\r\n"));
    assert!(text.contains("\r\nContent-Length: 1000\r\n"));
}

#[test]
fn a_held_validator_comes_first() {
    for v in ["\"zahttp-bytes-v1\"", "W/\"zahttp-bytes-v1\"", "*", "\"x\", \"zahttp-bytes-v1\" , \"y\""] {
        let (s, text) = status(&format!("If-None-Match: {}\r\nRange: bytes=0-1\r\n", v));
        assert_eq!(s, 304);
        assert!(!text.contains("Content-Length"));
        assert!(text.contains("\r\nETag: \"zahttp-bytes-v1\"\r\nVary: Accept-Encoding\r\nConnection: keep-alive\r\n\r\n"));
    }
    assert_eq!(status("IF-NONE-MATCH: \"old\"\r\n").0, 200);
    assert_eq!(status("If-None-Match: \"zahttp-bytes-v1\"\r\nAccept-Encoding: gzip\r\n").0, 200);
    assert_eq!(status("If-None-Match: \"zahttp-bytes-v1+gzip\"\r\nAccept-Encoding: gzip\r\n").0, 304);
}

#[test]
fn if_range_decides_about_the_range() {
    assert_eq!(status("If-Range: \"zahttp-bytes-v1\"\r\nRange: bytes=0-1\r\n").0, 206);
    assert_eq!(status("If-Range: \u{a0}\"zahttp-bytes-v1\"\u{2003}\r\nRange: bytes=0-1\r\n").0, 206);
    assert_eq!(status("If-Range: \"stale\"\r\nRange: bytes=0-1\r\n").0, 200);
    assert_eq!(status("If-Range: \"stale\"\r\nRange: bytes=x\r\n").0, 200);
    assert_eq!(status("If-Range: W/\"zahttp-bytes-v1\"\r\nRange: bytes=0-1\r\n").0, 200);
}

#[test]
fn a_range_excludes_gzip() {
    let (s, text) = status("Accept-Encoding: gzip\r\nRange: bytes=0-1\r\n");
    assert_eq!(s, 206);
    assert!(!text.contains("gzip"));
    let (s, text) = status("Accept-Encoding: gzip\r\nRange: bytes=0-1\r\nIf-Range: \"stale\"\r\n");
    assert_eq!(s, 200);
    assert!(!text.contains("gzip"));
}

#[test]
fn several_ranges_have_the_announced_length() {
    let mut body = [0u8; RANGE_TOTAL];
    fill_range_body(&mut body);
    let s = set(plan("Range: bytes=0-9,65530-,-100\r\n"));
    assert_eq!(s.n, 3);
    let mut sent: Vec<u8> = Vec::new();
    for k in 0..s.n + 1 {
        let mut room = [0u8; PART_CAP];
        let mut p = Out::new(&mut room);
        push_part_start(&mut p, &s, k);
        assert!(!p.overflow);
        sent.extend_from_slice(p.as_slice());
        sent.extend_from_slice(range_slice(&s, k, &body));
    }
    let (_, head) = status("Range: bytes=0-9,65530-,-100\r\n");
    assert!(head.contains("\r\nContent-Type: multipart/byteranges; boundary=zahttp-range-7f3a9c\r\n"));
    assert!(head.contains(&format!("Content-Length: {}\r\n", sent.len())));
    let mut expected = b"--zahttp-range-7f3a9c\r\nContent-Type: application/octet-stream\r\nContent-Range: bytes 0-9/65536\r\n\r\n".to_vec();
    expected.extend_from_slice(&body[..10]);
    expected.extend_from_slice(b"\r\n--zahttp-range-7f3a9c\r\n");
    assert_eq!(&sent[..expected.len()], &expected[..]);
    assert!(sent.ends_with(b"\r\n--zahttp-range-7f3a9c--\r\n"));
}

#[test]
fn what_follows_a_head() {
    let mut body = [0u8; RANGE_TOTAL];
    fill_range_body(&mut body);
    let gz = b"packed";
    let one = plan("Range: bytes=10-19\r\n");
    assert_eq!(plan_slice(&one, false, &body, gz), &body[10..20]);
    assert_eq!(plan_slice(&one, true, &body, gz), b"");
    assert!(plan_pieces(&one, false).is_none());
    assert_eq!(plan_slice(&RangePlan::Full, false, &body, gz), &body[..]);
    assert_eq!(plan_slice(&RangePlan::Full, true, &body, gz), b"");
    assert_eq!(plan_slice(&RangePlan::Gzip, false, &body, gz), gz);
    assert_eq!(plan_slice(&RangePlan::NotModified(false), false, &body, gz), b"");
    assert_eq!(plan_slice(&RangePlan::Unsatisfiable, false, &body, gz), b"");
    let several = plan("Range: bytes=0-1,5-9\r\n");
    assert_eq!(plan_slice(&several, false, &body, gz), b"");
    assert!(plan_pieces(&several, true).is_none());
    let s = plan_pieces(&several, false).unwrap();
    assert_eq!(range_slice(s, 0, &body), &body[0..2]);
    assert_eq!(range_slice(s, 1, &body), &body[5..10]);
    assert_eq!(range_slice(s, 2, &body), b"");
}

#[test]
fn part_lengths() {
    let one = format!(
        "--{}\r\nContent-Type: application/octet-stream\r\nContent-Range: bytes 5-104/65536\r\n\r\n",
        RANGE_BOUNDARY
    );
    assert_eq!(part_len(5, 104, 65536), one.len() as u64 + 100 + 2);
    assert_eq!(part_len(0, 0, 65536), 100);
    assert_eq!(digits_u64(0), 1);
    assert_eq!(digits_u64(9), 1);
    assert_eq!(digits_u64(10), 2);
    assert_eq!(digits_u64(u64::MAX), 20);
}

#[test]
fn validator_lists() {
    assert!(etag_list_matches("\"a\",\"b\"", "\"b\""));
    assert!(etag_list_matches("W/\"a\"", "\"a\""));
    assert!(etag_list_matches("\"x\", *", "\"a\""));
    assert!(!etag_list_matches("w/\"a\"", "\"a\""));
    assert!(!etag_list_matches("", "\"a\""));
    assert!(!etag_list_matches("\"a", "\"a\""));
}

#[test]
fn weights() {
    for s in [&b"0"[..], b"0.", b"0.0", b"0.000"] {
        assert!(q_is_zero(s));
    }
    for s in [&b""[..], b"1", b"0.1", b"00", b"0.0x"] {
        assert!(!q_is_zero(s));
    }
    assert!(qvalue_zero(b";q=0"));
    assert!(qvalue_zero(b"; a=b;  Q= 0.0 ;c"));
    assert!(!qvalue_zero(b";q=0.5"));
    assert!(!qvalue_zero(b""));
    assert!(!qvalue_zero(b";x=0"));
}

#[test]
fn accepting_gzip() {
    let takes = |v: &str| {
        let head = format!("GET / HTTP/1.1\r\nAccept-Encoding: {}\r\n\r\n", v);
        match parse_head(head.as_bytes()) {
            Parse::Ready(r) => accepts_gzip(&r),
            _ => panic!("bad head"),
        }
    };
    assert!(takes("gzip"));
    assert!(takes("deflate, GZIP;q=0.5"));
    assert!(takes("*"));
    assert!(takes("br, *;q=1"));
    assert!(!takes("gzip;q=0"));
    assert!(!takes("*;q=0.0"));
    assert!(!takes("deflate"));
    assert!(!takes(""));
}

#[test]
fn range_heads_in_parts() {
    let mut room = [0u8; RANGE_HEAD_CAP];
    let mut h = Out::new(&mut room);
    range_head_start_at(&mut h, 304, DATE);
    range_head_end(&mut h, 12, false);
    assert_eq!(
        h.as_slice(),
        b"HTTP/1.1 304 Not Modified\r\nDate: Sun, 06 Nov 1994 08:49:37 GMT\r\nServer: zahttp/0.1\r\nContent-Length: 12\r\nConnection: close\r\n\r\n"
    );
    let mut room = [0u8; RANGE_HEAD_CAP];
    let mut h = Out::new(&mut room);
    range_head_start(&mut h, 416);
    assert!(h.as_slice().starts_with(b"HTTP/1.1 416 Range Not Satisfiable\r\nDate: "));
    let mut room = [0u8; RANGE_HEAD_CAP];
    let mut h = Out::new(&mut room);
    range_head(&mut h, &RangePlan::NotModified(true), 0, true);
    assert!(!h.overflow);
    assert!(h.as_slice().ends_with(b"ETag: \"zahttp-bytes-v1+gzip\"\r\nVary: Accept-Encoding\r\nConnection: keep-alive\r\n\r\n"));
    assert_eq!(RANGE_ETAG, "\"zahttp-bytes-v1\"");
}
