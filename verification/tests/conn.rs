use zahttp::conn::{
    admits, body_plan, dispatch, head_refusal, refusal, sends_body, stays, stopped, Action, BodyPlan, Conn, Handler,
    Stage, BUSY, CONTINUE, MAX_CONNECTIONS,
};
use zahttp::http::{parse_head, Parse, Request};

fn ready(head: &str) -> Request<'_> {
    match parse_head(head.as_bytes()) {
        Parse::Ready(r) => r,
        _ => panic!("bad head"),
    }
}

/// Hands `wire` to a connection in pieces of at most `step` bytes and writes down
/// what it asks for.
fn talk(wire: &[u8], step: usize) -> Vec<String> {
    let mut c = Box::new(Conn::new());
    let mut log = Vec::new();
    let mut at = 0;
    loop {
        match c.advance() {
            Action::Read => {
                let k = step.min(wire.len() - at).min(c.buf.len() - c.n);
                if k == 0 {
                    return log;
                }
                let n = c.n;
                c.buf[n..n + k].copy_from_slice(&wire[at..at + k]);
                at += k;
                c.received(k);
            }
            Action::Interim => log.push("100".to_string()),
            Action::Refuse(s) => {
                log.push(format!("{} {}", s, refusal(s).trim()));
                return log;
            }
            Action::Answer => {
                let parse = c.request();
                if let Some((s, message)) = head_refusal(&parse) {
                    log.push(format!("{} {}", s, message.trim()));
                }
                let Parse::Ready(q) = parse else {
                    return log;
                };
                let goes_on = stays(&q, c.served) && dispatch(&q) != Handler::WebSocket;
                log.push(format!(
                    "{} {} [{}] {}{}",
                    q.method,
                    q.target,
                    String::from_utf8_lossy(q.body),
                    q.trailers.count,
                    if goes_on { "" } else { " close" }
                ));
                if !goes_on {
                    return log;
                }
                c.next();
            }
        }
    }
}

const PIPELINE: &[u8] = b"POST /echo HTTP/1.1\r\nTransfer-Encoding: chunked\r\n\r\n5\r\nhello\r\n0\r\nX: y\r\n\r\nGET /health HTTP/1.1\r\n\r\nPOST /echo HTTP/1.1\r\nContent-Length: 3\r\n\r\nabcGET / HTTP/1.0\r\n\r\n";

#[test]
fn pipelined_requests_are_kept_apart() {
    for step in [1, 2, 3, 7, 50, 8192] {
        assert_eq!(
            talk(PIPELINE, step),
            ["POST /echo [hello] 1", "GET /health [] 0", "POST /echo [abc] 0", "GET / [] 0 close"]
        );
    }
}

#[test]
fn nothing_is_answered_behind_a_request_that_closes() {
    let wire = b"GET /a HTTP/1.1\r\n\r\nGET /b HTTP/1.1\r\nConnection: close\r\n\r\nGET /c HTTP/1.1\r\n\r\n";
    for step in [1, 5, 8192] {
        assert_eq!(talk(wire, step), ["GET /a [] 0", "GET /b [] 0 close"]);
    }
    assert_eq!(talk(b"GET /ws HTTP/1.1\r\n\r\nGET / HTTP/1.1\r\n\r\n", 9), ["GET /ws [] 0 close"]);
    let many = b"GET / HTTP/1.1\r\n\r\n".repeat(101);
    let log = talk(&many, 1000);
    assert_eq!(log.len(), 100);
    assert!(log[..99].iter().all(|l| l == "GET / [] 0"));
    assert_eq!(log[99], "GET / [] 0 close");
}

#[test]
fn the_interim_answer_comes_once_per_request() {
    let wire = b"POST /a HTTP/1.1\r\nExpect: 100-continue\r\nContent-Length: 4\r\n\r\nabcdPOST /b HTTP/1.1\r\nExpect: 100-continue\r\nTransfer-Encoding: chunked\r\n\r\n3\r\nxyz\r\n0\r\n\r\n";
    for step in [1, 2, 3, 50, 8192] {
        assert_eq!(talk(wire, step), ["100", "POST /a [abcd] 0", "100", "POST /b [xyz] 0"]);
    }
}

#[test]
fn bad_trailers_refuse_the_request() {
    let head = "POST / HTTP/1.1\r\nTransfer-Encoding: chunked\r\n\r\n1\r\na\r\n0\r\nOk: 1\r\n";
    assert_eq!(talk(format!("{}Next: 2\r\n\r\n", head).as_bytes(), 7), ["POST / [a] 2"]);
    assert_eq!(talk(format!("{}Content-Length: 2\r\n", head).as_bytes(), 7), ["400 bad request"]);
    assert_eq!(talk(format!("{}no colon\r\n", head).as_bytes(), 7), ["400 bad request"]);
}

#[test]
fn reading_that_stops() {
    assert_eq!(stopped(Stage::Chunked), Some(400));
    assert_eq!(stopped(Stage::Head), None);
    assert_eq!(stopped(Stage::Sized), None);
    assert_eq!(stopped(Stage::Ready), None);
}

#[test]
fn heads_that_make_no_sense() {
    assert_eq!(head_refusal(&parse_head(b"GET / HTTP/1.1")), Some((400, "bad request\n")));
    assert_eq!(head_refusal(&parse_head(b"GET / HTTP/3.0\r\n\r\n")), Some((505, "bad request\n")));
    let many = format!("GET / HTTP/1.1\r\n{}\r\n", "A: b\r\n".repeat(33));
    assert_eq!(head_refusal(&parse_head(many.as_bytes())), Some((431, "bad request\n")));
    assert_eq!(head_refusal(&parse_head(b"GET / HTTP/1.1\r\n\r\n")), None);
}

#[test]
fn the_interim_answer_comes_before_the_body() {
    let wire = b"POST /echo HTTP/1.1\r\nExpect: 100-continue\r\nContent-Length: 2\r\n\r\nhi";
    for step in [1, 100] {
        assert_eq!(talk(wire, step), ["100", "POST /echo [hi] 0"]);
    }
    assert_eq!(talk(b"POST /echo HTTP/1.1\r\nExpect: 100-continue\r\nTransfer-Encoding: chunked\r\n\r\n", 9), ["100"]);
    assert_eq!(talk(b"GET / HTTP/1.1\r\nExpect: 100-continue\r\n\r\n", 9), ["GET / [] 0"]);
    assert_eq!(talk(b"POST /echo HTTP/1.0\r\nExpect: 100-continue\r\nContent-Length: 2\r\n\r\nhi", 9), ["POST /echo [hi] 0 close"]);
    assert_eq!(talk(b"POST /echo HTTP/1.0\r\nExpect: pizza\r\nContent-Length: 2\r\n\r\nhi", 9), ["POST /echo [hi] 0 close"]);
}

#[test]
fn requests_that_are_refused() {
    assert_eq!(talk(b"POST / HTTP/1.1\r\nExpect: pizza\r\n\r\n", 99), ["417 expectation failed"]);
    assert_eq!(talk(b"POST / HTTP/1.1\r\nContent-Length: 4097\r\nExpect: 100-continue\r\n\r\n", 99), ["413 body too large"]);
    assert_eq!(talk(b"POST / HTTP/1.1\r\nContent-Length: x\r\n\r\n", 99), ["400 bad request"]);
    assert_eq!(talk(b"POST / HTTP/1.1\r\nTransfer-Encoding: chunked\r\n\r\nzz\r\n", 99), ["400 bad request"]);
    assert_eq!(talk(b"POST / HTTP/1.1\r\nTransfer-Encoding: chunked\r\n\r\nffff\r\n", 99), ["413 body too large"]);
    assert_eq!(talk(b"BAD\r\n\r\n", 99), ["400 bad request"]);
    assert_eq!(talk(b"GET / HTTP/3.0\r\n\r\n", 99), ["505 bad request"]);
}

#[test]
fn heads_have_to_fit_the_buffer() {
    let mut wire = b"GET / HTTP/1.1\r\nA: ".to_vec();
    wire.resize(8192 - 4, b'a');
    let mut whole = wire.clone();
    whole.extend_from_slice(b"\r\n\r\n");
    assert_eq!(talk(&whole, 1000), ["GET / [] 0"]);
    wire.extend_from_slice(b"a\r\n\r\n");
    assert_eq!(talk(&wire, 1000), ["431 head too large"]);
}

#[test]
fn a_body_has_to_fit_behind_its_head() {
    let mut wire = b"POST / HTTP/1.1\r\nContent-Length: 4000\r\nA: ".to_vec();
    wire.resize(6000, b'a');
    wire.extend_from_slice(b"\r\n\r\n");
    wire.resize(10004, b'b');
    assert_eq!(talk(&wire, 1000), ["413 body too large"]);
    let mut full = b"POST / HTTP/1.1\r\nTransfer-Encoding: chunked\r\nA: ".to_vec();
    full.resize(8188, b'a');
    full.extend_from_slice(b"\r\n\r\n0\r\n\r\n");
    assert_eq!(talk(&full, 1000), ["400 bad request"]);
}

#[test]
fn chunks_may_be_longer_than_the_buffer_has_room() {
    let mut wire = b"POST /echo HTTP/1.1\r\nTransfer-Encoding: chunked\r\nA: ".to_vec();
    wire.resize(8000, b'a');
    wire.extend_from_slice(b"\r\n\r\n3e8\r\n");
    wire.extend_from_slice(&[b'b'; 1000]);
    wire.extend_from_slice(b"\r\n0\r\n\r\n");
    assert_eq!(talk(&wire, 64), [format!("POST /echo [{}] 0", "b".repeat(1000))]);
}

#[test]
fn chunks_win_over_a_length() {
    let head = b"POST / HTTP/1.1\r\nContent-Length: 3\r\nTransfer-Encoding: chunked\r\n\r\n";
    assert!(matches!(body_plan(head), BodyPlan::Chunked { interim: false }));
    let head = b"POST / HTTP/1.1\r\nContent-Length: 3\r\n\r\n";
    assert!(matches!(body_plan(head), BodyPlan::Sized { length: 3, interim: false }));
}

#[test]
fn who_answers() {
    let who = |m: &str, p: &str| dispatch(&ready(&format!("{} {} HTTP/1.1\r\n\r\n", m, p)));
    assert!(who("OPTIONS", "*") == Handler::Options);
    assert!(who("OPTIONS", "/ws") == Handler::Options);
    assert!(who("GET", "/ws") == Handler::WebSocket);
    assert!(who("GET", "/bytes?x") == Handler::Bytes);
    assert!(who("HEAD", "/bytes") == Handler::Bytes);
    assert!(who("GET", "/chunked") == Handler::Stream);
    assert!(who("GET", "/events") == Handler::Events);
    assert!(who("HEAD", "/events") == Handler::Events);
    assert!(who("HEAD", "/ws") == Handler::Plain);
    assert!(who("HEAD", "/chunked") == Handler::Plain);
    assert!(who("GET", "/") == Handler::Plain);
}

#[test]
fn connections_are_bounded() {
    let r = ready("GET / HTTP/1.1\r\n\r\n");
    assert!(stays(&r, 0));
    assert!(stays(&r, 98));
    assert!(!stays(&r, 99));
    assert!(!stays(&ready("GET / HTTP/1.0\r\n\r\n"), 0));
    assert!(admits(MAX_CONNECTIONS - 1));
    assert!(!admits(MAX_CONNECTIONS));
    assert!(BUSY.starts_with("HTTP/1.1 503 "));
    assert_eq!(CONTINUE, "HTTP/1.1 100 Continue\r\n\r\n");
}

#[test]
fn head_requests_get_no_body() {
    assert!(sends_body(&ready("GET / HTTP/1.1\r\n\r\n"), false));
    assert!(!sends_body(&ready("GET / HTTP/1.1\r\n\r\n"), true));
    assert!(!sends_body(&ready("HEAD / HTTP/1.1\r\n\r\n"), false));
}
