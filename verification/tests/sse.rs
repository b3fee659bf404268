use zahttp::buf::Out;
use zahttp::http::{parse_head, Parse, Request};
use zahttp::sse::{
    first_id, next_id, push_frame, send_events, send_events_at, sse_tick, Feed, SSE_FRAME_CAP, SSE_PREAMBLE,
};

const DATE: &[u8; 29] = b"Sun, 06 Nov 1994 08:49:37 GMT";

fn ready(head: &str) -> Request<'_> {
    match parse_head(head.as_bytes()) {
        Parse::Ready(r) => r,
        _ => panic!("bad head"),
    }
}

fn resumes_at(id: &str) -> u64 {
    first_id(&ready(&format!("GET /events HTTP/1.1\r\nLast-Event-ID: {}\r\n\r\n", id)))
}

#[test]
fn ticks() {
    let mut room = [0u8; SSE_FRAME_CAP];
    let mut o = Out::new(&mut room);
    sse_tick(42, &mut o);
    assert_eq!(o.as_slice(), b"id: 42\nevent: tick\ndata: 42\n\n");
    let mut room = [0u8; SSE_FRAME_CAP];
    let mut o = Out::new(&mut room);
    sse_tick(u64::MAX, &mut o);
    assert!(!o.overflow);
    assert_eq!(SSE_PREAMBLE, ": zahttp event stream\nretry: 3000\n\n");
}

#[test]
fn a_feed_resumes_behind_the_last_event() {
    assert_eq!(first_id(&ready("GET /events HTTP/1.1\r\n\r\n")), 1);
    assert_eq!(resumes_at("41"), 42);
    assert_eq!(resumes_at("\u{2003}41\u{a0}"), 42);
    assert_eq!(resumes_at("garbage"), 1);
    assert_eq!(resumes_at("-1"), 1);
    assert_eq!(resumes_at("18446744073709551615"), 1);
    assert_eq!(resumes_at("18446744073709551616"), 1);
}

#[test]
fn identifiers_count_up_and_skip_zero() {
    assert_eq!(next_id(1), 2);
    assert_eq!(next_id(u64::MAX - 1), u64::MAX);
    assert_eq!(next_id(u64::MAX), 1);
}

fn ticks_of(feed: &mut Feed, k: usize) -> String {
    let mut text = String::new();
    for _ in 0..k {
        let mut room = [0u8; SSE_FRAME_CAP];
        let mut o = Out::new(&mut room);
        feed.tick(&mut o);
        text.push_str(std::str::from_utf8(o.as_slice()).unwrap());
    }
    text
}

#[test]
fn a_feed_goes_on_where_it_stopped() {
    let mut feed = Feed::new(&ready("GET /events HTTP/1.1\r\n\r\n"));
    let first = ticks_of(&mut feed, 2);
    assert_eq!(first, "id: 1\nevent: tick\ndata: 1\n\nid: 2\nevent: tick\ndata: 2\n\n");
    let mut again = Feed::new(&ready("GET /events HTTP/1.1\r\nLast-Event-ID: 2\r\n\r\n"));
    assert_eq!(ticks_of(&mut again, 3), ticks_of(&mut feed, 3));
    let mut last = Feed::new(&ready("GET /events HTTP/1.1\r\nLast-Event-ID: 18446744073709551614\r\n\r\n"));
    assert_eq!(
        ticks_of(&mut last, 2),
        "id: 18446744073709551615\nevent: tick\ndata: 18446744073709551615\n\nid: 1\nevent: tick\ndata: 1\n\n"
    );
}

#[test]
fn pieces_of_a_feed() {
    let mut room = [0u8; 64];
    let mut o = Out::new(&mut room);
    push_frame(&mut o, b"hello, feed\n", true);
    assert_eq!(o.as_slice(), b"c\r\nhello, feed\n\r\n");
    let mut room = [0u8; 64];
    let mut o = Out::new(&mut room);
    push_frame(&mut o, b"hello, feed\n", false);
    assert_eq!(o.as_slice(), b"hello, feed\n");
}

#[test]
fn heads_of_feeds() {
    let mut room = [0u8; 512];
    let mut h = Out::new(&mut room);
    let p = send_events_at(&mut h, &ready("GET /events HTTP/1.1\r\n\r\n"), DATE, true);
    assert!(p.with_body && p.chunked && p.alive);
    assert_eq!(
        h.as_slice(),
        b"HTTP/1.1 200 OK\r\nDate: Sun, 06 Nov 1994 08:49:37 GMT\r\nServer: zahttp/0.1\r\nContent-Type: text/event-stream\r\nCache-Control: no-cache\r\nTransfer-Encoding: chunked\r\nConnection: keep-alive\r\n\r\n"
    );
    let mut room = [0u8; 512];
    let mut h = Out::new(&mut room);
    let p = send_events_at(&mut h, &ready("HEAD /events HTTP/1.1\r\n\r\n"), DATE, true);
    assert!(!p.with_body && p.alive);
    assert!(h.as_slice().ends_with(b"no-cache\r\nConnection: keep-alive\r\n\r\n"));
    let mut room = [0u8; 512];
    let mut h = Out::new(&mut room);
    let p = send_events(&mut h, &ready("GET /events HTTP/1.0\r\n\r\n"), true);
    assert!(p.with_body && !p.chunked && !p.alive);
    assert!(h.as_slice().ends_with(b"no-cache\r\nConnection: close\r\n\r\n"));
}
