use zahttp::buf::{Out, RESP_HEAD_CAP};
use zahttp::chunked::{Decoder, Outcome};
use zahttp::conn::{dispatch, Handler};
use zahttp::http::{parse_head, Parse, Request};
use zahttp::routes::{
    allow_for, push_chunk, push_stream, push_stream_chunk, reason, route, route_at, send, send_at, send_chunked,
    send_chunked_at, send_options, send_options_at, INDEX, STREAM_CAP, STREAM_CHUNKS, STREAM_SEED,
};
use zahttp::sha1::sha1;

const DATE: &[u8; 29] = b"Sun, 06 Nov 1994 08:49:37 GMT";

fn ready(head: &str) -> Request<'_> {
    match parse_head(head.as_bytes()) {
        Parse::Ready(r) => r,
        _ => panic!("bad head"),
    }
}

fn answer(method: &str, path: &str, body: &[u8]) -> (u16, &'static str, Vec<u8>) {
    let head = format!("{} {} HTTP/1.1\r\nA: 1\r\nB: two\r\n\r\n", method, path);
    let mut req = ready(&head);
    req.body = body;
    let mut room = [0u8; 4096];
    let mut out = Out::new(&mut room);
    let (status, kind) = route_at(&req, 12, 34, DATE, &mut out);
    (status, kind, out.as_slice().to_vec())
}

#[test]
fn short_answers() {
    assert_eq!(answer("GET", "/", b""), (200, "text/html", INDEX.as_bytes().to_vec()));
    assert_eq!(answer("HEAD", "/", b"").0, 200);
    assert_eq!(answer("GET", "/health?x", b""), (200, "text/plain", b"ok\n".to_vec()));
    assert_eq!(answer("HEAD", "/health", b"").0, 200);
    assert_eq!(answer("GET", "/metrics", b"").2, b"http_requests_total 12\n");
    assert_eq!(answer("GET", "/allocs", b"").2, b"heap_allocations_total 34\n");
    assert_eq!(answer("GET", "/time", b"").2, b"Sun, 06 Nov 1994 08:49:37 GMT\n");
    assert_eq!(answer("GET", "/headers", b"").2, b"A: 1\nB: two\n");
    assert_eq!(answer("POST", "/echo", b"\x00\xffdata"), (200, "text/plain", b"\x00\xffdata".to_vec()));
    assert_eq!(answer("POST", "/upload", b"x"), (400, "text/plain", b"bad multipart boundary\n".to_vec()));
}

#[test]
fn wrong_methods_and_unknown_paths() {
    for (m, p) in [
        ("POST", "/"), ("PUT", "/health"), ("HEAD", "/metrics"), ("POST", "/allocs"), ("HEAD", "/time"),
        ("POST", "/headers"), ("GET", "/echo"), ("POST", "/chunked"), ("HEAD", "/ws"), ("POST", "/bytes"),
        ("GET", "/upload"), ("POST", "/events"), ("get", "/"),
    ] {
        assert_eq!(answer(m, p, b""), (405, "text/plain", b"method not allowed\n".to_vec()));
    }
    assert_eq!(answer("GET", "/nope", b""), (404, "text/plain", b"not found\n".to_vec()));
    assert_eq!(answer("GET", "/health/", b"").0, 404);
}

#[test]
fn routing_at_the_current_time() {
    let req = ready("GET /time HTTP/1.1\r\n\r\n");
    let mut room = [0u8; 64];
    let mut out = Out::new(&mut room);
    assert_eq!(route(&req, 0, 0, &mut out), (200, "text/plain"));
    assert_eq!(out.as_slice().len(), 30);
    assert!(out.as_slice().ends_with(b" GMT\n"));
}

#[test]
fn the_head_of_an_answer() {
    let mut room = [0u8; RESP_HEAD_CAP];
    let mut h = Out::new(&mut room);
    send_at(&mut h, 404, DATE, "text/plain", 10, false);
    assert!(!h.overflow);
    assert_eq!(
        h.as_slice(),
        b"HTTP/1.1 404 Not Found\r\nDate: Sun, 06 Nov 1994 08:49:37 GMT\r\nServer: zahttp/0.1\r\nContent-Type: text/plain\r\nContent-Length: 10\r\nConnection: close\r\n\r\n"
    );
    let mut room = [0u8; RESP_HEAD_CAP];
    let mut h = Out::new(&mut room);
    send(&mut h, 200, "text/html", 0, true);
    assert!(h.as_slice().starts_with(b"HTTP/1.1 200 OK\r\nDate: "));
    assert!(h.as_slice().ends_with(b"\r\nContent-Length: 0\r\nConnection: keep-alive\r\n\r\n"));
}

#[test]
fn reasons() {
    for (s, r) in [
        (200, "OK"), (206, "Partial Content"), (304, "Not Modified"), (400, "Bad Request"), (404, "Not Found"),
        (405, "Method Not Allowed"), (412, "Precondition Failed"), (413, "Content Too Large"),
        (416, "Range Not Satisfiable"), (417, "Expectation Failed"), (431, "Request Header Fields Too Large"),
        (505, "HTTP Version Not Supported"), (299, "Unknown"),
    ] {
        assert_eq!(reason(s), r);
    }
}

#[test]
fn what_is_allowed() {
    assert_eq!(allow_for("*"), Some("GET, HEAD, POST, OPTIONS"));
    for p in ["/", "/health", "/bytes", "/events"] {
        assert_eq!(allow_for(p), Some("GET, HEAD, OPTIONS"));
    }
    for p in ["/metrics", "/allocs", "/time", "/headers", "/chunked", "/ws"] {
        assert_eq!(allow_for(p), Some("GET, OPTIONS"));
    }
    for p in ["/echo", "/upload"] {
        assert_eq!(allow_for(p), Some("POST, OPTIONS"));
    }
    assert_eq!(allow_for("/nope"), None);
}

#[test]
fn options_answers() {
    let req = ready("OPTIONS /echo HTTP/1.1\r\n\r\n");
    let mut room = [0u8; 512];
    let mut h = Out::new(&mut room);
    assert!(send_options_at(&mut h, &req, DATE, true));
    assert_eq!(
        h.as_slice(),
        b"HTTP/1.1 200 OK\r\nDate: Sun, 06 Nov 1994 08:49:37 GMT\r\nServer: zahttp/0.1\r\nAllow: POST, OPTIONS\r\nContent-Length: 0\r\nConnection: keep-alive\r\n\r\n"
    );
    let req = ready("OPTIONS /bytes HTTP/1.1\r\nOrigin: http://a\r\nAccess-Control-Request-Method: GET\r\n\r\n");
    let mut room = [0u8; 512];
    let mut h = Out::new(&mut room);
    assert!(send_options(&mut h, &req, false));
    let text = String::from_utf8(h.as_slice().to_vec()).unwrap();
    assert!(text.contains("\r\nAccess-Control-Allow-Origin: *\r\nAccess-Control-Allow-Methods: GET, HEAD, OPTIONS\r\nAccess-Control-Max-Age: 86400\r\nContent-Length: 0\r\nConnection: close\r\n\r\n"));
    let req = ready("OPTIONS /nope HTTP/1.1\r\n\r\n");
    let mut room = [0u8; 512];
    let mut h = Out::new(&mut room);
    assert!(!send_options_at(&mut h, &req, DATE, true));
    assert_eq!(
        h.as_slice(),
        b"HTTP/1.1 404 Not Found\r\nDate: Sun, 06 Nov 1994 08:49:37 GMT\r\nServer: zahttp/0.1\r\nContent-Type: text/plain\r\nContent-Length: 10\r\nConnection: keep-alive\r\n\r\nnot found\n"
    );
}

#[test]
fn the_generated_stream() {
    let mut room = [0u8; STREAM_CAP];
    let mut out = Out::new(&mut room);
    push_stream(&mut out);
    assert!(!out.overflow);
    let wire = out.as_slice();
    assert_eq!(wire.len(), 5354);
    assert!(wire.starts_with(b"4c\r\nchunk 0: cb0d39c415583c67 892351f239d4386a 9a5a9a9b76401f1 1b37f9747e3767ac\n\r\n"));
    assert!(wire.ends_with(b"\r\n4d\r\nchunk 63: 115280c04e339183 cbec755e0e71256 9d80d137562c646d 924196c8f2783b78\n\r\n0\r\n\r\n"));
    let mut d = [0u8; 20];
    sha1(wire, &mut d);
    assert_eq!(d[..4], [0x76, 0x33, 0x5d, 0x5d]);
}

#[test]
fn a_chunk_of_the_stream_decodes() {
    let mut room = [0u8; 128];
    let mut out = Out::new(&mut room);
    let next = push_stream_chunk(&mut out, 0, STREAM_SEED);
    assert_ne!(next, STREAM_SEED);
    assert_eq!(STREAM_CHUNKS, 64);
    let mut wire = out.as_slice().to_vec();
    wire.extend_from_slice(b"0\r\n\r\n");
    let mut d = Decoder::new();
    assert!(matches!(d.decode_chunked(&wire), Outcome::Done(n) if n == wire.len()));
    assert_eq!(&d.out[..d.dlen], b"chunk 0: cb0d39c415583c67 892351f239d4386a 9a5a9a9b76401f1 1b37f9747e3767ac\n");
}

#[test]
fn chunks_on_the_wire() {
    let mut room = [0u8; 64];
    let mut out = Out::new(&mut room);
    push_chunk(&mut out, b"hello, hello, hello");
    assert_eq!(out.as_slice(), b"13\r\nhello, hello, hello\r\n");
}

#[test]
fn the_head_of_the_stream() {
    let mut room = [0u8; RESP_HEAD_CAP];
    let mut h = Out::new(&mut room);
    send_chunked_at(&mut h, DATE, true);
    assert_eq!(
        h.as_slice(),
        b"HTTP/1.1 200 OK\r\nDate: Sun, 06 Nov 1994 08:49:37 GMT\r\nServer: zahttp/0.1\r\nContent-Type: text/plain\r\nTransfer-Encoding: chunked\r\nConnection: keep-alive\r\n\r\n"
    );
    let mut room = [0u8; RESP_HEAD_CAP];
    let mut h = Out::new(&mut room);
    send_chunked(&mut h, false);
    assert!(h.as_slice().ends_with(b"\r\nConnection: close\r\n\r\n"));
}

#[test]
fn what_is_allowed_is_answered() {
    for path in [
        "/", "/health", "/metrics", "/allocs", "/time", "/headers", "/echo", "/chunked", "/ws", "/bytes", "/upload",
        "/events",
    ] {
        let list = allow_for(path).unwrap();
        for method in ["GET", "HEAD", "POST", "PUT", "DELETE"] {
            let head = format!("{} {} HTTP/1.1\r\n\r\n", method, path);
            let req = ready(&head);
            let handled = dispatch(&req) != Handler::Plain || answer(method, path, b"").0 != 405;
            assert_eq!(handled, list.split(", ").any(|m| m == method), "{} {}", method, path);
        }
    }
}
