use zahttp::http::{
    find_double_crlf, header, is_forbidden_trailer, is_token, keep_alive, parse_chunk_size, parse_head, path_of, scan_head,
    split_request_line, trailer_name, Expect, Parse, Request, TrailerStore,
};

fn ready(head: &[u8]) -> Request<'_> {
    match parse_head(head) {
        Parse::Ready(r) => r,
        Parse::NeedMore => panic!("need more"),
        Parse::Fail(s) => panic!("status {}", s),
    }
}

fn refused(head: &[u8]) -> u16 {
    match parse_head(head) {
        Parse::Fail(s) => s,
        Parse::Ready(_) => 200,
        Parse::NeedMore => 0,
    }
}

#[test]
fn a_head_reads_back() {
    let r = ready(b"POST /echo?x=1 HTTP/1.1\r\nHost: localhost\r\nX-Empty:\r\nx-b:  two words \t\r\n\r\n");
    assert_eq!(r.method, "POST");
    assert_eq!(r.target, "/echo?x=1");
    assert_eq!(path_of(r.target), "/echo");
    assert_eq!(r.version, 1);
    assert_eq!(r.header_count, 3);
    assert_eq!(header(&r, "host"), Some("localhost"));
    assert_eq!(header(&r, "X-EMPTY"), Some(""));
    assert_eq!(header(&r, "X-B"), Some("two words"));
    assert_eq!(header(&r, "x-c"), None);
    assert!(r.headers[..3].iter().all(|h| h.is_some()));
    assert!(r.headers[3..].iter().all(|h| h.is_none()));
    assert_eq!(r.body, b"");
    assert_eq!(r.trailers.count, 0);
}

#[test]
fn the_first_of_two_fields_counts() {
    let r = ready(b"GET / HTTP/1.0\r\nA: 1\r\na: 2\r\n\r\n");
    assert_eq!(r.version, 0);
    assert_eq!(header(&r, "A"), Some("1"));
}

#[test]
fn heads_that_are_refused() {
    assert_eq!(refused(b"GET /\r\n\r\n"), 400);
    assert_eq!(refused(b"GET  / HTTP/1.1\r\n\r\n"), 400);
    assert_eq!(refused(b" / HTTP/1.1\r\n\r\n"), 400);
    assert_eq!(refused(b"GET / HTTP/1.1 x\r\n\r\n"), 400);
    assert_eq!(refused(b"GET / HTTP/2.0\r\n\r\n"), 505);
    assert_eq!(refused(b"GET / \r\n\r\n"), 505);
    assert_eq!(refused(b"GET relative HTTP/1.1\r\n\r\n"), 400);
    assert_eq!(refused(b"GET / HTTP/1.1\r\nno colon\r\n\r\n"), 400);
    assert_eq!(refused(b"GET / HTTP/1.1\r\n: no name\r\n\r\n"), 400);
    assert_eq!(refused(b"GET / HTTP/1.1\r\nA: b"), 400);
    assert_eq!(refused(b"GET / HTTP/1.1"), 0);
}

#[test]
fn the_asterisk_is_a_target() {
    assert_eq!(ready(b"OPTIONS * HTTP/1.1\r\n\r\n").target, "*");
    assert_eq!(refused(b"OPTIONS ** HTTP/1.1\r\n\r\n"), 400);
}

#[test]
fn heads_have_to_be_utf8() {
    assert_eq!(refused(b"GET /\xff HTTP/1.1\r\n\r\n"), 400);
    assert_eq!(refused(b"G\xc3 / HTTP/1.1\r\n\r\n"), 400);
    assert_eq!(refused(b"GET / HTTP/1.1\r\nA: \xc3\x28\r\n\r\n"), 400);
    assert_eq!(refused(b"GET / HTTP/1.1\r\n\x80: b\r\n\r\n"), 400);
    let r = ready(b"GET /caf\xc3\xa9 HTTP/1.1\r\nA: \xe2\x82\xac\r\n\r\n");
    assert_eq!(r.target, "/caf\u{e9}");
    assert_eq!(header(&r, "a"), Some("\u{20ac}"));
}

#[test]
fn too_many_fields_are_refused() {
    let mut head = String::from("GET / HTTP/1.1\r\n");
    for i in 0..32 {
        head.push_str(&format!("H{}: v\r\n", i));
    }
    assert_eq!(ready(format!("{}\r\n", head).as_bytes()).header_count, 32);
    assert_eq!(refused(format!("{}H: v\r\n\r\n", head).as_bytes()), 431);
    assert_eq!(refused(format!("{}bad\r\n\r\n", head).as_bytes()), 400);
}

#[test]
fn request_lines() {
    assert_eq!(split_request_line(b"GET / HTTP/1.1"), Some((&b"GET"[..], &b"/"[..], &b"HTTP/1.1"[..])));
    assert_eq!(split_request_line(b"GET /"), None);
    assert_eq!(split_request_line(b""), None);
}

#[test]
fn paths_end_before_the_query() {
    assert_eq!(path_of("/a/b?c?d"), "/a/b");
    assert_eq!(path_of("/\u{e9}?x"), "/\u{e9}");
    assert_eq!(path_of("?"), "");
    assert_eq!(path_of("/plain"), "/plain");
}

#[test]
fn scanning_for_framing() {
    let s = scan_head(b"POST / HTTP/1.1\r\nContent-Length: 12\r\nContent-Length: 13\r\nExpect: 100-Continue\r\n\r\n");
    assert!(!s.chunked);
    assert_eq!(s.content_length, Ok(12));
    assert!(s.expect == Expect::Continue);
    let s = scan_head(b"POST / HTTP/1.1\r\nTransfer-Encoding: gzip\r\ntransfer-encoding: foo , CHUNKED\r\nExpect: pizza\r\n\r\n");
    assert!(s.chunked);
    assert_eq!(s.content_length, Ok(0));
    assert!(s.expect == Expect::Other);
    let s = scan_head(b"POST / HTTP/1.0\r\nExpect: 100-continue\r\nContent-Length: 1x\r\n\r\n");
    assert!(!s.chunked);
    assert_eq!(s.content_length, Err(400));
    assert!(s.expect == Expect::Absent);
    let s = scan_head(b"no line end");
    assert_eq!(s.content_length, Err(400));
}

#[test]
fn chunk_sizes() {
    assert_eq!(parse_chunk_size(b"1aF"), Ok(0x1af));
    assert_eq!(parse_chunk_size(b" 10 ; name=value"), Ok(16));
    assert_eq!(parse_chunk_size(b"0"), Ok(0));
    assert_eq!(parse_chunk_size(b""), Err(400));
    assert_eq!(parse_chunk_size(b";x"), Err(400));
    assert_eq!(parse_chunk_size(b"1g"), Err(400));
    assert_eq!(parse_chunk_size(b"0x10"), Err(400));
    assert_eq!(parse_chunk_size(b"fffffffffffffffff"), Err(413));
    assert_eq!(parse_chunk_size(b"fffffffffffffffffg"), Err(413));
}

#[test]
fn trailer_lines() {
    assert!(is_token(b"X-Check!"));
    assert!(!is_token(b""));
    assert!(!is_token(b"two words"));
    assert_eq!(trailer_name(b"X-Sum : 12"), Ok(&b"X-Sum"[..]));
    assert_eq!(trailer_name(b"no colon"), Err(400));
    assert_eq!(trailer_name(b"b@d: x"), Err(400));
    for name in [
        "Transfer-Encoding", "content-length", "TRAILER", "TE", "Host", "Authorization", "Proxy-Authenticate",
        "Proxy-Authorization", "Expect", "Content-Encoding", "Content-Type", "Content-Range",
    ] {
        assert!(is_forbidden_trailer(name.as_bytes()));
    }
    assert!(!is_forbidden_trailer(b"X-Sum"));
}

#[test]
fn persistence() {
    assert!(keep_alive(&ready(b"GET / HTTP/1.1\r\n\r\n")));
    assert!(!keep_alive(&ready(b"GET / HTTP/1.1\r\nConnection: Close\r\n\r\n")));
    assert!(!keep_alive(&ready(b"GET / HTTP/1.0\r\n\r\n")));
    assert!(keep_alive(&ready(b"GET / HTTP/1.0\r\nconnection: Keep-Alive\r\n\r\n")));
}

#[test]
fn the_end_of_a_head() {
    assert_eq!(find_double_crlf(b"a\r\n\r\nb\r\n\r\n"), Some(1));
    assert_eq!(find_double_crlf(b"a\r\n\r"), None);
}

#[test]
fn an_empty_store_holds_no_trailers() {
    let t = TrailerStore::empty();
    assert_eq!(t.count, 0);
    assert!(t.lens.iter().all(|&n| n == 0));
    assert!(t.lines.iter().all(|l| l.iter().all(|&b| b == 0)));
}
