//! Routing: what each path answers, and the heads of the answers.
use vstd::prelude::*;
use vstd::string::*;

use crate::buf::{
    decimal, hex, lemma_concat_left, lemma_decimal_len, pow10, push_hex_u64, push_hex_usize, Out, RESP_HEAD_CAP,
};
use crate::bytes::{before, crlf, same_ignoring_case, same_str, text, COLON, CR, LF, QUERY, SP, ZERO};
use crate::chunked::{
    chunk, decoding, encoded, joined, last_chunk, law_chunked_round_trip, lemma_hex_reads_back, pow16, Decoding,
};
use crate::dates::{clock_date, date_now, lemma_clock_date_len};
use crate::http::{field_value, fields_wire, header, law_first_field_counts, path_of, Request};
use crate::multipart::{serve_upload, upload_answer};

verus! {

/// The landing page.
pub const INDEX: &'static str =
    "<!doctype html><html><head><title>zahttp</title><style>body{background:#0d0d0f;color:#c9a0ff;font-family:monospace;max-width:640px;margin:4rem auto;padding:0 1rem}h1{font-size:3rem}a{color:#7df9ff}</style></head><body><h1>zahttp &#x1f921;</h1><p>zero-dependency, zero-allocation HTTP/1.1. every byte on the stack.</p><ul><li><a href=\"/health\">/health</a></li><li><a href=\"/time\">/time</a></li><li><a href=\"/headers\">/headers</a></li><li><a href=\"/metrics\">/metrics</a></li><li><a href=\"/allocs\">/allocs</a></li><li><a href=\"/chunked\">/chunked</a> (chunked stream)</li><li><code>/ws</code> (websocket)</li><li><a href=\"/bytes\">/bytes</a> (ranges, conditionals, gzip)</li><li><code>/upload</code> (multipart/form-data)</li><li><a href=\"/events\">/events</a> (server-sent events)</li></ul><p>POST a body to <code>/echo</code> and get it back. Chunked request bodies welcome.</p></body></html>";

// ---- response heads ---------------------------------------------------------

/// The reason phrase of a status.
pub open spec fn reason_text(status: u16) -> Seq<u8> {
    if status == 200 {
        text("OK")
    } else if status == 206 {
        text("Partial Content")
    } else if status == 304 {
        text("Not Modified")
    } else if status == 400 {
        text("Bad Request")
    } else if status == 404 {
        text("Not Found")
    } else if status == 405 {
        text("Method Not Allowed")
    } else if status == 412 {
        text("Precondition Failed")
    } else if status == 413 {
        text("Content Too Large")
    } else if status == 416 {
        text("Range Not Satisfiable")
    } else if status == 417 {
        text("Expectation Failed")
    } else if status == 431 {
        text("Request Header Fields Too Large")
    } else if status == 505 {
        text("HTTP Version Not Supported")
    } else {
        text("Unknown")
    }
}

pub fn reason(status: u16) -> (r: &'static str)
    ensures
        text(r) == reason_text(status),
{
    match status {
        200 => "OK",
        206 => "Partial Content",
        304 => "Not Modified",
        400 => "Bad Request",
        404 => "Not Found",
        405 => "Method Not Allowed",
        412 => "Precondition Failed",
        413 => "Content Too Large",
        416 => "Range Not Satisfiable",
        417 => "Expectation Failed",
        431 => "Request Header Fields Too Large",
        505 => "HTTP Version Not Supported",
        _ => "Unknown",
    }
}

/// Value of the Connection field.
pub open spec fn connection(keep_alive: bool) -> Seq<u8> {
    if keep_alive {
        text("keep-alive")
    } else {
        text("close")
    }
}

/// Status line and date.
pub open spec fn head_start(status: u16, date: Seq<u8>) -> Seq<u8> {
    text("HTTP/1.1 ") + decimal(status as nat) + text(" ") + reason_text(status) + text("\r\nDate: ") + date
}

/// The head of an answer with a body of `length` bytes.
pub open spec fn response_head(
    status: u16,
    date: Seq<u8>,
    content_type: Seq<u8>,
    length: nat,
    keep_alive: bool,
) -> Seq<u8> {
    head_start(status, date) + text("\r\nServer: zahttp/0.1\r\nContent-Type: ") + content_type + text(
        "\r\nContent-Length: ",
    ) + decimal(length) + text("\r\nConnection: ") + connection(keep_alive) + text("\r\n\r\n")
}

fn connection_word(keep_alive: bool) -> (r: &'static str)
    ensures
        text(r) == connection(keep_alive),
{
    if keep_alive {
        "keep-alive"
    } else {
        "close"
    }
}

/// Appends status line and date.
pub fn push_head_start(h: &mut Out, status: u16, date: &[u8])
    requires
        old(h).wf(),
    ensures
        final(h).wf(),
        final(h).pushed() == old(h).pushed() + head_start(status, date@),
        final(h).capacity() == old(h).capacity(),
        final(final(h).buf)@ == final(old(h).buf)@,
{
    broadcast use lemma_concat_left;

    h.push_str("HTTP/1.1 ");
    h.push_u64(status as u64);
    h.push_str(" ");
    h.push_str(reason(status));
    h.push_str("\r\nDate: ");
    h.push(date);
}

/// Appends the end of every head: the Connection field and the blank line.
pub fn push_connection(h: &mut Out, keep_alive: bool)
    requires
        old(h).wf(),
    ensures
        final(h).wf(),
        final(h).pushed() == old(h).pushed() + (connection(keep_alive) + text("\r\n\r\n")),
        final(h).capacity() == old(h).capacity(),
        final(final(h).buf)@ == final(old(h).buf)@,
{
    broadcast use lemma_concat_left;

    h.push_str(connection_word(keep_alive));
    h.push_str("\r\n\r\n");
}

/// Appends the head of an answer that carries this date.
pub fn send_at(h: &mut Out, status: u16, date: &[u8], content_type: &str, length: usize, keep_alive: bool)
    requires
        old(h).wf(),
    ensures
        final(h).wf(),
        final(h).pushed() == old(h).pushed() + response_head(
            status,
            date@,
            text(content_type),
            length as nat,
            keep_alive,
        ),
        final(h).capacity() == old(h).capacity(),
        final(final(h).buf)@ == final(old(h).buf)@,
{
    broadcast use lemma_concat_left;

    push_head_start(h, status, date);
    h.push_str("\r\nServer: zahttp/0.1\r\nContent-Type: ");
    h.push_str(content_type);
    h.push_str("\r\nContent-Length: ");
    h.push_u64(length as u64);
    h.push_str("\r\nConnection: ");
    push_connection(h, keep_alive);
}

/// Appends the head of an answer that carries the current date.
pub fn send(h: &mut Out, status: u16, content_type: &str, length: usize, keep_alive: bool)
    requires
        old(h).wf(),
    ensures
        final(h).wf(),
        exists|now: Option<u64>|
            final(h).pushed() == old(h).pushed() + response_head(
                status,
                #[trigger] clock_date(now),
                text(content_type),
                length as nat,
                keep_alive,
            ),
        final(h).capacity() == old(h).capacity(),
        final(final(h).buf)@ == final(old(h).buf)@,
{
    let mut date: [u8; 29] = [0u8; 29];
    date_now(&mut date);
    send_at(h, status, &date, content_type, length, keep_alive);
}

// ---- methods ----------------------------------------------------------------

/// The methods that a path speaks; `*` asks about the server as a whole.
pub open spec fn allowed(path: Seq<u8>) -> Option<Seq<u8>> {
    if path == text("*") {
        Some(text("GET, HEAD, POST, OPTIONS"))
    } else if path == text("/") || path == text("/health") || path == text("/bytes") || path == text("/events") {
        Some(text("GET, HEAD, OPTIONS"))
    } else if path == text("/metrics") || path == text("/allocs") || path == text("/time") || path == text("/headers")
        || path == text("/chunked") || path == text("/ws") {
        Some(text("GET, OPTIONS"))
    } else if path == text("/echo") || path == text("/upload") {
        Some(text("POST, OPTIONS"))
    } else {
        None
    }
}

pub fn allow_for(path: &str) -> (r: Option<&'static str>)
    ensures
        match r {
            Some(a) => allowed(text(path)) == Some(text(a)),
            None => allowed(text(path)) is None,
        },
{
    if same_str(path, "*") {
        Some("GET, HEAD, POST, OPTIONS")
    } else if same_str(path, "/") || same_str(path, "/health") || same_str(path, "/bytes") || same_str(
        path,
        "/events",
    ) {
        Some("GET, HEAD, OPTIONS")
    } else if same_str(path, "/metrics") || same_str(path, "/allocs") || same_str(path, "/time") || same_str(
        path,
        "/headers",
    ) || same_str(path, "/chunked") || same_str(path, "/ws") {
        Some("GET, OPTIONS")
    } else if same_str(path, "/echo") || same_str(path, "/upload") {
        Some("POST, OPTIONS")
    } else {
        None
    }
}

/// A request that asks what another origin may do.
pub open spec fn is_preflight(fields: Seq<(Seq<u8>, Seq<u8>)>) -> bool {
    field_value(fields, text("origin")) is Some && field_value(fields, text("access-control-request-method")) is Some
}

/// The answer to OPTIONS on a path that speaks `allow`.
pub open spec fn options_head(date: Seq<u8>, allow: Seq<u8>, preflight: bool, keep_alive: bool) -> Seq<u8> {
    text("HTTP/1.1 200 OK\r\nDate: ") + date + text("\r\nServer: zahttp/0.1\r\nAllow: ") + allow + text("\r\n")
        + (if preflight {
        text("Access-Control-Allow-Origin: *\r\nAccess-Control-Allow-Methods: ") + allow + text(
            "\r\nAccess-Control-Max-Age: 86400\r\n",
        )
    } else {
        Seq::<u8>::empty()
    }) + text("Content-Length: 0\r\nConnection: ") + connection(keep_alive) + text("\r\n\r\n")
}

/// The answer to OPTIONS on a path: what it speaks, or 404 with a text.
pub open spec fn options_answer(
    path: Seq<u8>,
    fields: Seq<(Seq<u8>, Seq<u8>)>,
    date: Seq<u8>,
    keep_alive: bool,
) -> Seq<u8> {
    match allowed(path) {
        Some(allow) => options_head(date, allow, is_preflight(fields), keep_alive),
        None => response_head(404, date, text("text/plain"), text("not found\n").len(), keep_alive) + text(
            "not found\n",
        ),
    }
}

/// Appends the whole answer to OPTIONS with this date. `false` when there is no
/// such path.
pub fn send_options_at(h: &mut Out, req: &Request, date: &[u8], keep_alive: bool) -> (r: bool)
    requires
        req.wf(),
        old(h).wf(),
    ensures
        final(h).wf(),
        r == (allowed(before(text(req.target), QUERY)) is Some),
        final(h).pushed() == old(h).pushed() + options_answer(
            before(text(req.target), QUERY),
            req.fields(),
            date@,
            keep_alive,
        ),
        final(h).capacity() == old(h).capacity(),
        final(final(h).buf)@ == final(old(h).buf)@,
{
    broadcast use lemma_concat_left;

    let allow = match allow_for(path_of(req.target)) {
        Some(a) => a,
        None => {
            let message: &str = "not found\n";
            send_at(h, 404, date, "text/plain", message.as_bytes().len(), keep_alive);
            h.push_str(message);
            return false;
        },
    };
    h.push_str("HTTP/1.1 200 OK\r\nDate: ");
    h.push(date);
    h.push_str("\r\nServer: zahttp/0.1\r\nAllow: ");
    h.push_str(allow);
    h.push_str("\r\n");
    if header(req, "origin").is_some() && header(req, "access-control-request-method").is_some() {
        h.push_str("Access-Control-Allow-Origin: *\r\nAccess-Control-Allow-Methods: ");
        h.push_str(allow);
        h.push_str("\r\nAccess-Control-Max-Age: 86400\r\n");
    } else {
        assert(h.pushed() + Seq::<u8>::empty() =~= h.pushed());
    }
    h.push_str("Content-Length: 0\r\nConnection: ");
    push_connection(h, keep_alive);
    true
}

/// Appends the whole answer to OPTIONS with the current date. `false` when there is
/// no such path.
pub fn send_options(h: &mut Out, req: &Request, keep_alive: bool) -> (r: bool)
    requires
        req.wf(),
        old(h).wf(),
    ensures
        final(h).wf(),
        r == (allowed(before(text(req.target), QUERY)) is Some),
        exists|now: Option<u64>|
            final(h).pushed() == old(h).pushed() + options_answer(
                before(text(req.target), QUERY),
                req.fields(),
                #[trigger] clock_date(now),
                keep_alive,
            ),
        final(h).capacity() == old(h).capacity(),
        final(final(h).buf)@ == final(old(h).buf)@,
{
    let mut date: [u8; 29] = [0u8; 29];
    date_now(&mut date);
    send_options_at(h, req, &date, keep_alive)
}

// ---- dispatch ---------------------------------------------------------------

/// The paths that answer something.
pub open spec fn known_path(path: Seq<u8>) -> bool {
    ||| path == text("/")
    ||| path == text("/health")
    ||| path == text("/metrics")
    ||| path == text("/allocs")
    ||| path == text("/time")
    ||| path == text("/headers")
    ||| path == text("/echo")
    ||| path == text("/chunked")
    ||| path == text("/ws")
    ||| path == text("/bytes")
    ||| path == text("/upload")
    ||| path == text("/events")
}

/// The first `k` header fields, one per line.
pub open spec fn fields_text(fields: Seq<(Seq<u8>, Seq<u8>)>, k: nat) -> Seq<u8>
    decreases k,
{
    if k == 0 {
        Seq::<u8>::empty()
    } else {
        fields_text(fields, (k - 1) as nat) + (fields[k - 1].0 + text(": ") + fields[k - 1].1 + text("\n"))
    }
}

/// Status, content type and body of the answer to a request. `requests` and
/// `allocations` are the counters that two of the paths report.
pub open spec fn route_answer(
    method: Seq<u8>,
    path: Seq<u8>,
    fields: Seq<(Seq<u8>, Seq<u8>)>,
    body: Seq<u8>,
    requests: u64,
    allocations: u64,
    date: Seq<u8>,
) -> (u16, Seq<u8>, Seq<u8>) {
    let get = method == text("GET");
    let head = method == text("HEAD");
    let post = method == text("POST");
    let plain = text("text/plain");
    if (get || head) && path == text("/") {
        (200, text("text/html"), text(INDEX))
    } else if (get || head) && path == text("/health") {
        (200, plain, text("ok\n"))
    } else if get && path == text("/metrics") {
        (200, plain, text("http_requests_total ") + decimal(requests as nat) + text("\n"))
    } else if get && path == text("/allocs") {
        (200, plain, text("heap_allocations_total ") + decimal(allocations as nat) + text("\n"))
    } else if get && path == text("/time") {
        (200, plain, date + text("\n"))
    } else if get && path == text("/headers") {
        (200, plain, fields_text(fields, fields.len()))
    } else if post && path == text("/echo") {
        (200, plain, body)
    } else if post && path == text("/upload") {
        match upload_answer(fields, body).0 {
            Ok(_) => (200, plain, upload_answer(fields, body).1),
            Err(status) => (status, plain, upload_answer(fields, body).1),
        }
    } else if known_path(path) {
        (405, plain, text("method not allowed\n"))
    } else {
        (404, plain, text("not found\n"))
    }
}

fn is_known_path(path: &str) -> (r: bool)
    ensures
        r == known_path(text(path)),
{
    same_str(path, "/") || same_str(path, "/health") || same_str(path, "/metrics") || same_str(path, "/allocs")
        || same_str(path, "/time") || same_str(path, "/headers") || same_str(path, "/echo") || same_str(
        path,
        "/chunked",
    ) || same_str(path, "/ws") || same_str(path, "/bytes") || same_str(path, "/upload") || same_str(path, "/events")
}

/// Appends the header fields of a request, one per line.
fn push_fields(req: &Request, out: &mut Out)
    requires
        req.wf(),
        old(out).wf(),
    ensures
        final(out).wf(),
        final(out).pushed() == old(out).pushed() + fields_text(req.fields(), req.fields().len()),
        final(out).capacity() == old(out).capacity(),
        final(final(out).buf)@ == final(old(out).buf)@,
{
    broadcast use lemma_concat_left;

    let ghost start = out.pushed();
    assert(start + fields_text(req.fields(), 0) =~= start);
    let mut i: usize = 0;
    while i < req.header_count
        invariant
            req.wf(),
            i <= req.header_count,
            out.wf(),
            out.pushed() == start + fields_text(req.fields(), i as nat),
            out.capacity() == old(out).capacity(),
            final(out.buf)@ == final(old(out).buf)@,
        decreases req.header_count - i,
    {
        assert(req.headers@[i as int] is Some);
        match req.headers[i] {
            Some(h) => {
                out.push_str(h.name);
                out.push_str(": ");
                out.push_str(h.value);
                out.push_str("\n");
            },
            None => {},
        }
        i += 1;
        assert(out.pushed() =~= start + fields_text(req.fields(), i as nat));
    }
}

/// Answers a request: appends the body, returns status and content type. The
/// counters and the date are those that some paths report.
pub fn route_at(req: &Request, requests: u64, allocations: u64, date: &[u8], out: &mut Out) -> (r: (u16, &'static str))
    requires
        req.wf(),
        old(out).wf(),
    ensures
        final(out).wf(),
        ({
            let a = route_answer(
                text(req.method),
                before(text(req.target), QUERY),
                req.fields(),
                req.body@,
                requests,
                allocations,
                date@,
            );
            &&& r.0 == a.0
            &&& text(r.1) == a.1
            &&& final(out).pushed() == old(out).pushed() + a.2
        }),
        final(out).capacity() == old(out).capacity(),
        final(final(out).buf)@ == final(old(out).buf)@,
{
    broadcast use lemma_concat_left;

    let path = path_of(req.target);
    let get = same_str(req.method, "GET");
    let head = same_str(req.method, "HEAD");
    let post = same_str(req.method, "POST");
    if (get || head) && same_str(path, "/") {
        out.push_str(INDEX);
        (200, "text/html")
    } else if (get || head) && same_str(path, "/health") {
        out.push_str("ok\n");
        (200, "text/plain")
    } else if get && same_str(path, "/metrics") {
        out.push_str("http_requests_total ");
        out.push_u64(requests);
        out.push_str("\n");
        (200, "text/plain")
    } else if get && same_str(path, "/allocs") {
        out.push_str("heap_allocations_total ");
        out.push_u64(allocations);
        out.push_str("\n");
        (200, "text/plain")
    } else if get && same_str(path, "/time") {
        out.push(date);
        out.push_str("\n");
        (200, "text/plain")
    } else if get && same_str(path, "/headers") {
        push_fields(req, out);
        (200, "text/plain")
    } else if post && same_str(path, "/echo") {
        out.push(req.body);
        (200, "text/plain")
    } else if post && same_str(path, "/upload") {
        match serve_upload(req, out) {
            Ok(_) => (200, "text/plain"),
            Err(status) => (status, "text/plain"),
        }
    } else if is_known_path(path) {
        out.push_str("method not allowed\n");
        (405, "text/plain")
    } else {
        out.push_str("not found\n");
        (404, "text/plain")
    }
}

/// Answers a request at the current time.
pub fn route(req: &Request, requests: u64, allocations: u64, out: &mut Out) -> (r: (u16, &'static str))
    requires
        req.wf(),
        old(out).wf(),
    ensures
        final(out).wf(),
        exists|now: Option<u64>|
            ({
                let a = route_answer(
                    text(req.method),
                    before(text(req.target), QUERY),
                    req.fields(),
                    req.body@,
                    requests,
                    allocations,
                    #[trigger] clock_date(now),
                );
                &&& r.0 == a.0
                &&& text(r.1) == a.1
                &&& final(out).pushed() == old(out).pushed() + a.2
            }),
        final(out).capacity() == old(out).capacity(),
        final(final(out).buf)@ == final(old(out).buf)@,
{
    let mut date: [u8; 29] = [0u8; 29];
    date_now(&mut date);
    route_at(req, requests, allocations, &date, out)
}

// ---- the generated stream ---------------------------------------------------

/// Chunks in the generated stream.
pub const STREAM_CHUNKS: u32 = 64;

/// First state of the generator behind the stream.
pub const STREAM_SEED: u64 = 0x12345678;

/// Room for the payload of one chunk.
const PAYLOAD_CAP: usize = 96;

/// Next state of the generator.
pub open spec fn next_state(x: u64) -> u64 {
    x.wrapping_mul(6364136223846793005).wrapping_add(1442695040888963407)
}

/// State of the generator after `k` steps.
pub open spec fn stream_state(k: nat) -> u64
    decreases k,
{
    if k == 0 {
        STREAM_SEED
    } else {
        next_state(stream_state((k - 1) as nat))
    }
}

/// Payload of a chunk: its number, and the four states behind `x`.
pub open spec fn stream_line(i: nat, x: u64) -> Seq<u8> {
    let a = next_state(x);
    let b = next_state(a);
    let c = next_state(b);
    let d = next_state(c);
    text("chunk ") + decimal(i) + text(": ") + hex(a as nat) + text(" ") + hex(b as nat) + text(" ") + hex(c as nat)
        + text(" ") + hex(d as nat) + text("\n")
}

/// The payloads of the stream.
pub open spec fn stream_parts() -> Seq<Seq<u8>> {
    Seq::new(STREAM_CHUNKS as nat, |i: int| stream_line(i as nat, stream_state((4 * i) as nat)))
}

/// The head of the stream.
pub open spec fn stream_head(date: Seq<u8>, keep_alive: bool) -> Seq<u8> {
    text("HTTP/1.1 200 OK\r\nDate: ") + date + text(
        "\r\nServer: zahttp/0.1\r\nContent-Type: text/plain\r\nTransfer-Encoding: chunked\r\nConnection: ",
    ) + connection(keep_alive) + text("\r\n\r\n")
}

/// Appends the head of the stream with this date.
pub fn send_chunked_at(h: &mut Out, date: &[u8], keep_alive: bool)
    requires
        old(h).wf(),
    ensures
        final(h).wf(),
        final(h).pushed() == old(h).pushed() + stream_head(date@, keep_alive),
        final(h).capacity() == old(h).capacity(),
        final(final(h).buf)@ == final(old(h).buf)@,
{
    broadcast use lemma_concat_left;

    h.push_str("HTTP/1.1 200 OK\r\nDate: ");
    h.push(date);
    h.push_str(
        "\r\nServer: zahttp/0.1\r\nContent-Type: text/plain\r\nTransfer-Encoding: chunked\r\nConnection: ",
    );
    push_connection(h, keep_alive);
}

/// Appends the head of the stream with the current date.
pub fn send_chunked(h: &mut Out, keep_alive: bool)
    requires
        old(h).wf(),
    ensures
        final(h).wf(),
        exists|now: Option<u64>|
            final(h).pushed() == old(h).pushed() + stream_head(#[trigger] clock_date(now), keep_alive),
        final(h).capacity() == old(h).capacity(),
        final(final(h).buf)@ == final(old(h).buf)@,
{
    let mut date: [u8; 29] = [0u8; 29];
    date_now(&mut date);
    send_chunked_at(h, &date, keep_alive);
}

fn next_random(x: u64) -> (r: u64)
    ensures
        r == next_state(x),
{
    x.wrapping_mul(6364136223846793005).wrapping_add(1442695040888963407)
}

/// Appends the payload of chunk `i` and returns the state behind it.
fn push_stream_line(p: &mut Out, i: u32, x: u64) -> (r: u64)
    requires
        old(p).wf(),
    ensures
        final(p).wf(),
        final(p).pushed() == old(p).pushed() + stream_line(i as nat, x),
        r == next_state(next_state(next_state(next_state(x)))),
        final(p).capacity() == old(p).capacity(),
        final(final(p).buf)@ == final(old(p).buf)@,
{
    broadcast use lemma_concat_left;

    let a: u64 = next_random(x);
    let b: u64 = next_random(a);
    let c: u64 = next_random(b);
    let d: u64 = next_random(c);
    p.push_str("chunk ");
    p.push_u64(i as u64);
    p.push_str(": ");
    push_hex_u64(p, a);
    p.push_str(" ");
    push_hex_u64(p, b);
    p.push_str(" ");
    push_hex_u64(p, c);
    p.push_str(" ");
    push_hex_u64(p, d);
    p.push_str("\n");
    d
}

/// A payload is short.
proof fn lemma_stream_line_len(i: nat, x: u64)
    requires
        i < 100,
    ensures
        0 < stream_line(i, x).len() <= PAYLOAD_CAP,
{
    let a = next_state(x);
    let b = next_state(a);
    let c = next_state(b);
    let d = next_state(c);
    reveal_with_fuel(pow16, 17);
    lemma_hex_reads_back(a as nat, 16);
    lemma_hex_reads_back(b as nat, 16);
    lemma_hex_reads_back(c as nat, 16);
    lemma_hex_reads_back(d as nat, 16);
    reveal_with_fuel(decimal, 3);
    reveal_strlit("chunk ");
    reveal_strlit(": ");
    reveal_strlit(" ");
    reveal_strlit("\n");
    is_ascii_spec_bytes("chunk ");
    is_ascii_spec_bytes(": ");
    is_ascii_spec_bytes(" ");
    is_ascii_spec_bytes("\n");
}

/// Appends a chunk of data as it goes over the wire.
pub fn push_chunk(out: &mut Out, data: &[u8])
    requires
        old(out).wf(),
    ensures
        final(out).wf(),
        final(out).pushed() == old(out).pushed() + chunk(data@),
        final(out).capacity() == old(out).capacity(),
        final(final(out).buf)@ == final(old(out).buf)@,
{
    broadcast use lemma_concat_left;

    let line_end: [u8; 2] = [CR, LF];
    assert(line_end@ =~= crlf());
    push_hex_usize(out, data.len());
    out.push(&line_end);
    out.push(data);
    out.push(&line_end);
}

/// Appends chunk `i` of the stream, whose generator is in state `x`, and returns
/// the state for the next one.
pub fn push_stream_chunk(out: &mut Out, i: u32, x: u64) -> (r: u64)
    requires
        i < STREAM_CHUNKS,
        x == stream_state(4 * i as nat),
        old(out).wf(),
    ensures
        final(out).wf(),
        final(out).pushed() == old(out).pushed() + chunk(stream_parts()[i as int]),
        r == stream_state(4 * (i + 1) as nat),
        final(out).capacity() == old(out).capacity(),
        final(final(out).buf)@ == final(old(out).buf)@,
{
    let mut room: [u8; PAYLOAD_CAP] = [0u8; PAYLOAD_CAP];
    let mut p = Out::new(&mut room);
    let r: u64 = push_stream_line(&mut p, i, x);
    proof {
        lemma_stream_line_len(i as nat, x);
        reveal_with_fuel(stream_state, 5);
        assert(p.pushed() =~= stream_parts()[i as int]);
    }
    push_chunk(out, p.as_slice());
    r
}

/// Room for the whole stream.
pub const STREAM_CAP: usize = 6656;

/// Appends the whole stream, its last chunk included.
pub fn push_stream(out: &mut Out)
    requires
        old(out).wf(),
    ensures
        final(out).wf(),
        final(out).pushed() == old(out).pushed() + encoded(stream_parts()),
        final(out).capacity() == old(out).capacity(),
        final(final(out).buf)@ == final(old(out).buf)@,
{
    let ghost start = out.pushed();
    let ghost parts = stream_parts();
    let mut x: u64 = STREAM_SEED;
    let mut i: u32 = 0;
    assert(parts.skip(0) =~= parts);
    while i < STREAM_CHUNKS
        invariant
            i <= STREAM_CHUNKS,
            parts == stream_parts(),
            x == stream_state(4 * i as nat),
            out.wf(),
            out.pushed() + encoded(parts.skip(i as int)) == start + encoded(parts),
            out.capacity() == old(out).capacity(),
            final(out.buf)@ == final(old(out).buf)@,
        decreases STREAM_CHUNKS - i,
    {
        let ghost before = out.pushed();
        x = push_stream_chunk(out, i, x);
        proof {
            let tail = parts.skip(i as int);
            assert(tail[0] == parts[i as int]);
            assert(tail.drop_first() =~= parts.skip(i + 1));
            assert(out.pushed() + encoded(parts.skip(i + 1)) =~= before + encoded(tail));
        }
        i += 1;
    }
    let last: [u8; 5] = [ZERO, CR, LF, CR, LF];
    assert(last@ =~= last_chunk());
    assert(encoded(parts.skip(STREAM_CHUNKS as int)) =~= last_chunk());
    out.push(&last);
}

// ---- laws -------------------------------------------------------------------

proof fn lemma_encoded_len(parts: Seq<Seq<u8>>)
    requires
        forall|i: int| 0 <= i < parts.len() ==> (#[trigger] parts[i]).len() <= PAYLOAD_CAP,
    ensures
        encoded(parts).len() <= 102 * parts.len() + 5,
    decreases parts.len(),
{
    if parts.len() > 0 {
        let more = parts.drop_first();
        assert forall|i: int| 0 <= i < more.len() implies (#[trigger] more[i]).len() <= PAYLOAD_CAP by {
            assert(more[i] == parts[i + 1]);
        }
        lemma_encoded_len(more);
        reveal_with_fuel(pow16, 3);
        lemma_hex_reads_back(parts[0].len(), 2);
    }
}

/// The stream fits the room for it.
pub proof fn law_stream_fits()
    ensures
        encoded(stream_parts()).len() <= STREAM_CAP,
{
    let parts = stream_parts();
    assert forall|i: int| 0 <= i < parts.len() implies (#[trigger] parts[i]).len() <= PAYLOAD_CAP by {
        lemma_stream_line_len(i as nat, stream_state((4 * i) as nat));
    }
    lemma_encoded_len(parts);
}

/// The stream decodes to its payloads, one after the other, and what follows it
/// is left alone.
pub proof fn law_stream_decodes(t: Seq<u8>, cap: int)
    requires
        joined(stream_parts()).len() <= cap <= usize::MAX,
    ensures
        decoding(encoded(stream_parts()) + t, cap) == (Decoding::Done {
            body: joined(stream_parts()),
            trailers: Seq::<Seq<u8>>::empty(),
            rest: t,
        }),
{
    let parts = stream_parts();
    assert forall|i: int| 0 <= i < parts.len() implies (#[trigger] parts[i]).len() > 0 by {
        lemma_stream_line_len(i as nat, stream_state((4 * i) as nat));
    }
    law_chunked_round_trip(parts, t, cap);
}

/// Longest reason phrase.
proof fn lemma_reason_len(status: u16)
    ensures
        reason_text(status).len() <= 31,
{
    reveal_strlit("OK");
    reveal_strlit("Partial Content");
    reveal_strlit("Not Modified");
    reveal_strlit("Bad Request");
    reveal_strlit("Not Found");
    reveal_strlit("Method Not Allowed");
    reveal_strlit("Precondition Failed");
    reveal_strlit("Content Too Large");
    reveal_strlit("Range Not Satisfiable");
    reveal_strlit("Expectation Failed");
    reveal_strlit("Request Header Fields Too Large");
    reveal_strlit("HTTP Version Not Supported");
    reveal_strlit("Unknown");
    is_ascii_spec_bytes("OK");
    is_ascii_spec_bytes("Partial Content");
    is_ascii_spec_bytes("Not Modified");
    is_ascii_spec_bytes("Bad Request");
    is_ascii_spec_bytes("Not Found");
    is_ascii_spec_bytes("Method Not Allowed");
    is_ascii_spec_bytes("Precondition Failed");
    is_ascii_spec_bytes("Content Too Large");
    is_ascii_spec_bytes("Range Not Satisfiable");
    is_ascii_spec_bytes("Expectation Failed");
    is_ascii_spec_bytes("Request Header Fields Too Large");
    is_ascii_spec_bytes("HTTP Version Not Supported");
    is_ascii_spec_bytes("Unknown");
}

/// How long the start and the end of a head can get.
pub proof fn lemma_head_start_len(status: u16, now: Option<u64>, keep_alive: bool)
    ensures
        head_start(status, clock_date(now)).len() <= 83,
        connection(keep_alive).len() <= 10,
        text("\r\n\r\n").len() == 4,
{
    lemma_reason_len(status);
    lemma_clock_date_len(now);
    reveal_with_fuel(pow10, 6);
    lemma_decimal_len(status as nat, 5);
    reveal_strlit("HTTP/1.1 ");
    reveal_strlit(" ");
    reveal_strlit("\r\nDate: ");
    reveal_strlit("keep-alive");
    reveal_strlit("close");
    reveal_strlit("\r\n\r\n");
    is_ascii_spec_bytes("HTTP/1.1 ");
    is_ascii_spec_bytes(" ");
    is_ascii_spec_bytes("\r\nDate: ");
    is_ascii_spec_bytes("keep-alive");
    is_ascii_spec_bytes("close");
    is_ascii_spec_bytes("\r\n\r\n");
}

/// The head of an answer fits the room for it, so that no answer is dropped: for
/// every status, every body, and every content type of at most a hundred bytes.
pub proof fn law_head_fits(status: u16, now: Option<u64>, content_type: Seq<u8>, length: usize, keep_alive: bool)
    requires
        content_type.len() <= 100,
    ensures
        response_head(status, clock_date(now), content_type, length as nat, keep_alive).len() <= RESP_HEAD_CAP,
{
    lemma_head_start_len(status, now, keep_alive);
    reveal_with_fuel(pow10, 21);
    lemma_decimal_len(length as nat, 20);
    reveal_strlit("\r\nServer: zahttp/0.1\r\nContent-Type: ");
    reveal_strlit("\r\nContent-Length: ");
    reveal_strlit("\r\nConnection: ");
    is_ascii_spec_bytes("\r\nServer: zahttp/0.1\r\nContent-Type: ");
    is_ascii_spec_bytes("\r\nContent-Length: ");
    is_ascii_spec_bytes("\r\nConnection: ");
}

/// A head of an answer on the wire: the status line, the fields, and a blank line.
pub open spec fn answer_wire(status: nat, phrase: Seq<u8>, fields: Seq<(Seq<u8>, Seq<u8>)>) -> Seq<u8> {
    text("HTTP/1.1 ") + decimal(status) + seq![SP] + phrase + crlf() + fields_wire(fields) + crlf()
}

/// Fields on the wire, one after the other.
pub proof fn lemma_wire_from(fs: Seq<(Seq<u8>, Seq<u8>)>, k: int)
    requires
        0 <= k <= fs.len(),
    ensures
        k < fs.len() ==> fields_wire(fs.skip(k)) == fs[k].0 + seq![COLON, SP] + fs[k].1 + crlf() + fields_wire(
            fs.skip(k + 1),
        ),
        k + 1 == fs.len() ==> fields_wire(fs.skip(k)) == fs[k].0 + seq![COLON, SP] + fs[k].1 + crlf(),
        fs.skip(0) == fs,
{
    assert(fs.skip(0) =~= fs);
    if k < fs.len() {
        assert(fs.skip(k).drop_first() =~= fs.skip(k + 1));
        if k + 1 == fs.len() {
            assert(fs.skip(k + 1).len() == 0);
            assert(fields_wire(fs.skip(k + 1)) =~= Seq::<u8>::empty());
            assert(fields_wire(fs.skip(k)) =~= fs[k].0 + seq![COLON, SP] + fs[k].1 + crlf());
        }
    }
}

/// A piece of a head, taken apart.
pub proof fn lemma_date_start()
    ensures
        text("\r\nDate: ") == crlf() + text("Date") + seq![COLON, SP],
{
    reveal_strlit("\r\nDate: ");
    reveal_strlit("Date");
    is_ascii_spec_bytes("\r\nDate: ");
    is_ascii_spec_bytes("Date");
    assert(text("\r\nDate: ") =~= crlf() + text("Date") + seq![COLON, SP]);
}

/// A piece of a head, taken apart.
proof fn lemma_server_type()
    ensures
        text("\r\nServer: zahttp/0.1\r\nContent-Type: ") == crlf() + text("Server") + seq![COLON, SP]
            + text("zahttp/0.1") + crlf() + text("Content-Type") + seq![COLON, SP],
{
    reveal_strlit("\r\nServer: zahttp/0.1\r\nContent-Type: ");
    reveal_strlit("Content-Type");
    reveal_strlit("Server");
    reveal_strlit("zahttp/0.1");
    is_ascii_spec_bytes("\r\nServer: zahttp/0.1\r\nContent-Type: ");
    is_ascii_spec_bytes("Content-Type");
    is_ascii_spec_bytes("Server");
    is_ascii_spec_bytes("zahttp/0.1");
    assert(text("\r\nServer: zahttp/0.1\r\nContent-Type: ") =~= crlf() + text("Server") + seq![COLON, SP]
        + text("zahttp/0.1") + crlf() + text("Content-Type") + seq![COLON, SP]);
}

/// A piece of a head, taken apart.
pub proof fn lemma_length_start()
    ensures
        text("\r\nContent-Length: ") == crlf() + text("Content-Length") + seq![COLON, SP],
{
    reveal_strlit("\r\nContent-Length: ");
    reveal_strlit("Content-Length");
    is_ascii_spec_bytes("\r\nContent-Length: ");
    is_ascii_spec_bytes("Content-Length");
    assert(text("\r\nContent-Length: ") =~= crlf() + text("Content-Length") + seq![COLON, SP]);
}

/// A piece of a head, taken apart.
pub proof fn lemma_connection_start()
    ensures
        text("\r\nConnection: ") == crlf() + text("Connection") + seq![COLON, SP],
{
    reveal_strlit("\r\nConnection: ");
    reveal_strlit("Connection");
    is_ascii_spec_bytes("\r\nConnection: ");
    is_ascii_spec_bytes("Connection");
    assert(text("\r\nConnection: ") =~= crlf() + text("Connection") + seq![COLON, SP]);
}

/// A piece of a head, taken apart.
pub proof fn lemma_head_close()
    ensures
        text("\r\n\r\n") == crlf() + crlf(),
{
    reveal_strlit("\r\n\r\n");
    is_ascii_spec_bytes("\r\n\r\n");
    assert(text("\r\n\r\n") =~= crlf() + crlf());
}

/// A piece of a head, taken apart.
pub proof fn lemma_line_close()
    ensures
        text("\r\n") == crlf(),
{
    reveal_strlit("\r\n");
    is_ascii_spec_bytes("\r\n");
    assert(text("\r\n") =~= crlf());
}

/// A piece of a head, taken apart.
proof fn lemma_server_allow()
    ensures
        text("\r\nServer: zahttp/0.1\r\nAllow: ") == crlf() + text("Server") + seq![COLON, SP]
            + text("zahttp/0.1") + crlf() + text("Allow") + seq![COLON, SP],
{
    reveal_strlit("\r\nServer: zahttp/0.1\r\nAllow: ");
    reveal_strlit("Allow");
    reveal_strlit("Server");
    reveal_strlit("zahttp/0.1");
    is_ascii_spec_bytes("\r\nServer: zahttp/0.1\r\nAllow: ");
    is_ascii_spec_bytes("Allow");
    is_ascii_spec_bytes("Server");
    is_ascii_spec_bytes("zahttp/0.1");
    assert(text("\r\nServer: zahttp/0.1\r\nAllow: ") =~= crlf() + text("Server") + seq![COLON, SP]
        + text("zahttp/0.1") + crlf() + text("Allow") + seq![COLON, SP]);
}

/// A piece of a head, taken apart.
proof fn lemma_origin()
    ensures
        text("Access-Control-Allow-Origin: *\r\nAccess-Control-Allow-Methods: ") == text("Access-Control-Allow-Origin")
            + seq![COLON, SP] + text("*") + crlf() + text("Access-Control-Allow-Methods") + seq![COLON, SP],
{
    reveal_strlit("Access-Control-Allow-Origin: *\r\nAccess-Control-Allow-Methods: ");
    reveal_strlit("*");
    reveal_strlit("Access-Control-Allow-Methods");
    reveal_strlit("Access-Control-Allow-Origin");
    is_ascii_spec_bytes("Access-Control-Allow-Origin: *\r\nAccess-Control-Allow-Methods: ");
    is_ascii_spec_bytes("*");
    is_ascii_spec_bytes("Access-Control-Allow-Methods");
    is_ascii_spec_bytes("Access-Control-Allow-Origin");
    assert(text("Access-Control-Allow-Origin: *\r\nAccess-Control-Allow-Methods: ") =~= text("Access-Control-Allow-Origin")
        + seq![COLON, SP] + text("*") + crlf() + text("Access-Control-Allow-Methods") + seq![COLON, SP]);
}

/// A piece of a head, taken apart.
proof fn lemma_max_age()
    ensures
        text("\r\nAccess-Control-Max-Age: 86400\r\n") == crlf() + text("Access-Control-Max-Age")
            + seq![COLON, SP] + text("86400") + crlf(),
{
    reveal_strlit("\r\nAccess-Control-Max-Age: 86400\r\n");
    reveal_strlit("86400");
    reveal_strlit("Access-Control-Max-Age");
    is_ascii_spec_bytes("\r\nAccess-Control-Max-Age: 86400\r\n");
    is_ascii_spec_bytes("86400");
    is_ascii_spec_bytes("Access-Control-Max-Age");
    assert(text("\r\nAccess-Control-Max-Age: 86400\r\n") =~= crlf() + text("Access-Control-Max-Age")
        + seq![COLON, SP] + text("86400") + crlf());
}

/// A piece of a head, taken apart.
proof fn lemma_no_length()
    ensures
        text("Content-Length: 0\r\nConnection: ") == text("Content-Length") + seq![COLON, SP] + text("0")
            + crlf() + text("Connection") + seq![COLON, SP],
{
    reveal_strlit("Content-Length: 0\r\nConnection: ");
    reveal_strlit("0");
    reveal_strlit("Connection");
    reveal_strlit("Content-Length");
    is_ascii_spec_bytes("Content-Length: 0\r\nConnection: ");
    is_ascii_spec_bytes("0");
    is_ascii_spec_bytes("Connection");
    is_ascii_spec_bytes("Content-Length");
    assert(text("Content-Length: 0\r\nConnection: ") =~= text("Content-Length") + seq![COLON, SP] + text("0")
        + crlf() + text("Connection") + seq![COLON, SP]);
}

/// A piece of a head, taken apart.
proof fn lemma_stream_fields()
    ensures
        text("\r\nServer: zahttp/0.1\r\nContent-Type: text/plain\r\nTransfer-Encoding: chunked\r\nConnection: ") == crlf()
            + text("Server") + seq![COLON, SP] + text("zahttp/0.1") + crlf() + text("Content-Type")
            + seq![COLON, SP] + text("text/plain") + crlf() + text("Transfer-Encoding") + seq![COLON, SP]
            + text("chunked") + crlf() + text("Connection") + seq![COLON, SP],
{
    reveal_strlit("\r\nServer: zahttp/0.1\r\nContent-Type: text/plain\r\nTransfer-Encoding: chunked\r\nConnection: ");
    reveal_strlit("Connection");
    reveal_strlit("Content-Type");
    reveal_strlit("Server");
    reveal_strlit("Transfer-Encoding");
    reveal_strlit("chunked");
    reveal_strlit("text/plain");
    reveal_strlit("zahttp/0.1");
    is_ascii_spec_bytes("\r\nServer: zahttp/0.1\r\nContent-Type: text/plain\r\nTransfer-Encoding: chunked\r\nConnection: ");
    is_ascii_spec_bytes("Connection");
    is_ascii_spec_bytes("Content-Type");
    is_ascii_spec_bytes("Server");
    is_ascii_spec_bytes("Transfer-Encoding");
    is_ascii_spec_bytes("chunked");
    is_ascii_spec_bytes("text/plain");
    is_ascii_spec_bytes("zahttp/0.1");
    assert(text("\r\nServer: zahttp/0.1\r\nContent-Type: text/plain\r\nTransfer-Encoding: chunked\r\nConnection: ") =~= crlf()
        + text("Server") + seq![COLON, SP] + text("zahttp/0.1") + crlf() + text("Content-Type")
        + seq![COLON, SP] + text("text/plain") + crlf() + text("Transfer-Encoding") + seq![COLON, SP]
        + text("chunked") + crlf() + text("Connection") + seq![COLON, SP]);
}

/// A status line that is written at once.
pub proof fn lemma_ok_line()
    ensures
        text("HTTP/1.1 200 OK\r\nDate: ") == text("HTTP/1.1 ") + decimal(200) + seq![SP] + text("OK") + crlf()
            + text(
            "Date",
        ) + seq![COLON, SP],
{
    reveal_strlit("HTTP/1.1 200 OK\r\nDate: ");
    reveal_strlit("HTTP/1.1 ");
    reveal_strlit("OK");
    reveal_strlit("Date");
    is_ascii_spec_bytes("HTTP/1.1 200 OK\r\nDate: ");
    is_ascii_spec_bytes("HTTP/1.1 ");
    is_ascii_spec_bytes("OK");
    is_ascii_spec_bytes("Date");
    reveal_with_fuel(decimal, 4);
    assert(decimal(200) =~= seq![0x32u8, 0x30, 0x30]);
    assert(text("HTTP/1.1 200 OK\r\nDate: ") =~= text("HTTP/1.1 ") + decimal(200) + seq![SP] + text("OK") + crlf()
        + text("Date") + seq![COLON, SP]);
}

/// The start of a head, taken apart.
pub proof fn lemma_head_start(status: u16, date: Seq<u8>)
    ensures
        head_start(status, date) == text("HTTP/1.1 ") + decimal(status as nat) + seq![SP] + reason_text(status)
            + crlf()
            + text("Date") + seq![COLON, SP] + date,
{
    reveal_strlit(" ");
    is_ascii_spec_bytes(" ");
    assert(text(" ") =~= seq![SP]);
    lemma_date_start();
    assert(head_start(status, date) =~= text("HTTP/1.1 ") + decimal(status as nat) + seq![SP] + reason_text(status)
        + crlf() + text("Date") + seq![COLON, SP] + date);
}

/// The Connection field of an answer.
pub open spec fn connection_field(keep_alive: bool) -> (Seq<u8>, Seq<u8>) {
    (text("Connection"), if keep_alive {
        text("keep-alive")
    } else {
        text("close")
    })
}

/// The head of an answer says what it should, field by field: the date, the server,
/// the type and the length of the body, and whether the connection stays open.
#[verifier::rlimit(60)]
#[verifier::spinoff_prover]
pub proof fn law_response_head(status: u16, date: Seq<u8>, content_type: Seq<u8>, length: nat, keep_alive: bool)
    ensures
        response_head(status, date, content_type, length, keep_alive) == answer_wire(
            status as nat,
            reason_text(status),
            seq![
                (text("Date"), date),
                (text("Server"), text("zahttp/0.1")),
                (text("Content-Type"), content_type),
                (text("Content-Length"), decimal(length)),
                connection_field(keep_alive),
            ],
        ),
{
    broadcast use lemma_concat_left;

    let fs = seq![
        (text("Date"), date),
        (text("Server"), text("zahttp/0.1")),
        (text("Content-Type"), content_type),
        (text("Content-Length"), decimal(length)),
        connection_field(keep_alive),
    ];
    lemma_wire_from(fs, 0);
    lemma_wire_from(fs, 1);
    lemma_wire_from(fs, 2);
    lemma_wire_from(fs, 3);
    lemma_wire_from(fs, 4);
    lemma_head_start(status, date);
    lemma_server_type();
    lemma_length_start();
    lemma_connection_start();
    lemma_head_close();
    assert(response_head(status, date, content_type, length, keep_alive) == answer_wire(
        status as nat,
        reason_text(status),
        fs,
    ));
}

/// The head of the answer to OPTIONS, field by field: what the path speaks, and to
/// another origin that asks, that it may use the same.
#[verifier::rlimit(60)]
#[verifier::spinoff_prover]
pub proof fn law_options_head(date: Seq<u8>, allow: Seq<u8>, keep_alive: bool)
    ensures
        options_head(date, allow, false, keep_alive) == answer_wire(
            200,
            text("OK"),
            seq![
                (text("Date"), date),
                (text("Server"), text("zahttp/0.1")),
                (text("Allow"), allow),
                (text("Content-Length"), text("0")),
                connection_field(keep_alive),
            ],
        ),
{
    broadcast use lemma_concat_left;

    let fs = seq![
        (text("Date"), date),
        (text("Server"), text("zahttp/0.1")),
        (text("Allow"), allow),
        (text("Content-Length"), text("0")),
        connection_field(keep_alive),
    ];
    lemma_wire_from(fs, 0);
    lemma_wire_from(fs, 1);
    lemma_wire_from(fs, 2);
    lemma_wire_from(fs, 3);
    lemma_wire_from(fs, 4);
    lemma_ok_line();
    lemma_server_allow();
    lemma_line_close();
    lemma_no_length();
    lemma_head_close();
    assert(options_head(date, allow, false, keep_alive) == answer_wire(200, text("OK"), fs));
}

/// The same, to another origin that asks.
#[verifier::rlimit(60)]
#[verifier::spinoff_prover]
pub proof fn law_preflight_head(date: Seq<u8>, allow: Seq<u8>, keep_alive: bool)
    ensures
        options_head(date, allow, true, keep_alive) == answer_wire(
            200,
            text("OK"),
            seq![
                (text("Date"), date),
                (text("Server"), text("zahttp/0.1")),
                (text("Allow"), allow),
                (text("Access-Control-Allow-Origin"), text("*")),
                (text("Access-Control-Allow-Methods"), allow),
                (text("Access-Control-Max-Age"), text("86400")),
                (text("Content-Length"), text("0")),
                connection_field(keep_alive),
            ],
        ),
{
    broadcast use lemma_concat_left;

    let fs = seq![
        (text("Date"), date),
        (text("Server"), text("zahttp/0.1")),
        (text("Allow"), allow),
        (text("Access-Control-Allow-Origin"), text("*")),
        (text("Access-Control-Allow-Methods"), allow),
        (text("Access-Control-Max-Age"), text("86400")),
        (text("Content-Length"), text("0")),
        connection_field(keep_alive),
    ];
    lemma_wire_from(fs, 0);
    lemma_wire_from(fs, 1);
    lemma_wire_from(fs, 2);
    lemma_wire_from(fs, 3);
    lemma_wire_from(fs, 4);
    lemma_wire_from(fs, 5);
    lemma_wire_from(fs, 6);
    lemma_wire_from(fs, 7);
    lemma_ok_line();
    lemma_server_allow();
    lemma_line_close();
    lemma_origin();
    lemma_max_age();
    lemma_no_length();
    lemma_head_close();
    assert(options_head(date, allow, true, keep_alive) == answer_wire(200, text("OK"), fs));
}

/// The head of the stream, field by field.
#[verifier::rlimit(60)]
#[verifier::spinoff_prover]
pub proof fn law_stream_head(date: Seq<u8>, keep_alive: bool)
    ensures
        stream_head(date, keep_alive) == answer_wire(
            200,
            text("OK"),
            seq![
                (text("Date"), date),
                (text("Server"), text("zahttp/0.1")),
                (text("Content-Type"), text("text/plain")),
                (text("Transfer-Encoding"), text("chunked")),
                connection_field(keep_alive),
            ],
        ),
{
    broadcast use lemma_concat_left;

    let fs = seq![
        (text("Date"), date),
        (text("Server"), text("zahttp/0.1")),
        (text("Content-Type"), text("text/plain")),
        (text("Transfer-Encoding"), text("chunked")),
        connection_field(keep_alive),
    ];
    lemma_wire_from(fs, 0);
    lemma_wire_from(fs, 1);
    lemma_wire_from(fs, 2);
    lemma_wire_from(fs, 3);
    lemma_wire_from(fs, 4);
    lemma_ok_line();
    lemma_stream_fields();
    lemma_head_close();
    assert(stream_head(date, keep_alive) == answer_wire(200, text("OK"), fs));
}

/// `/headers` lists the fields one by one, each on a line of its own.
pub proof fn law_headers_listed(fields: Seq<(Seq<u8>, Seq<u8>)>, f: (Seq<u8>, Seq<u8>))
    ensures
        fields_text(Seq::<(Seq<u8>, Seq<u8>)>::empty(), 0).len() == 0,
        fields_text(fields.push(f), fields.len() + 1) == fields_text(fields, fields.len()) + f.0 + seq![0x3au8, 0x20u8]
            + f.1 + seq![0x0au8],
{
    reveal_strlit(": ");
    reveal_strlit("\n");
    is_ascii_spec_bytes(": ");
    is_ascii_spec_bytes("\n");
    assert(text(": ") =~= seq![0x3au8, 0x20u8]);
    assert(text("\n") =~= seq![0x0au8]);
    lemma_fields_text_prefix(fields, f, fields.len());
    assert(fields_text(fields.push(f), fields.len() + 1) =~= fields_text(fields, fields.len()) + f.0 + seq![
        0x3au8,
        0x20u8,
    ] + f.1 + seq![0x0au8]);
}

proof fn lemma_fields_text_prefix(fields: Seq<(Seq<u8>, Seq<u8>)>, f: (Seq<u8>, Seq<u8>), k: nat)
    requires
        k <= fields.len(),
    ensures
        fields_text(fields.push(f), k) == fields_text(fields, k),
    decreases k,
{
    if k > 0 {
        lemma_fields_text_prefix(fields, f, (k - 1) as nat);
    }
}

/// The stream: sixty-four lines, each with its number and the next four numbers of a
/// generator that goes on from line to line.
pub proof fn law_stream_lines(i: nat)
    requires
        i < 64,
    ensures
        stream_parts().len() == 64,
        stream_parts()[i as int] == text("chunk ") + decimal(i) + text(": ") + hex(stream_state(4 * i
            + 1) as nat) + text(
            " ",
        ) + hex(stream_state(4 * i + 2) as nat) + text(" ") + hex(stream_state(4 * i + 3) as nat) + text(" ") + hex(
            stream_state(4 * i + 4) as nat,
        ) + text("\n"),
{
    lemma_next_state(4 * i);
    lemma_next_state(4 * i + 1);
    lemma_next_state(4 * i + 2);
    lemma_next_state(4 * i + 3);
}

proof fn lemma_next_state(k: nat)
    ensures
        stream_state(k + 1) == next_state(stream_state(k)),
{
    assert((k + 1 - 1) as nat == k);
}

/// Each number of the generator is got from the one before it by a multiplication and
/// an addition modulo two to the sixty-fourth.
pub proof fn law_stream_generator(k: nat)
    ensures
        stream_state(0) == 0x12345678,
        stream_state(k + 1) == (stream_state(k) * 6364136223846793005int + 1442695040888963407) % 0x1_0000_0000_0000_0000,
{
    lemma_next_state(k);
    let x = stream_state(k);
    let p = x * 6364136223846793005int;
    let m = 0x1_0000_0000_0000_0000int;
    assert(x.wrapping_mul(6364136223846793005) == p % m);
    lemma_step_mod(p);
}

proof fn lemma_step_mod(p: int)
    ensures
        (p % 0x1_0000_0000_0000_0000 + 1442695040888963407) % 0x1_0000_0000_0000_0000 == (p + 1442695040888963407)
            % 0x1_0000_0000_0000_0000,
{
}

/// What a reason phrase says of each status.
pub proof fn law_reasons(status: u16)
    ensures
        status == 200 ==> reason_text(status) == text("OK"),
        status == 206 ==> reason_text(status) == text("Partial Content"),
        status == 304 ==> reason_text(status) == text("Not Modified"),
        status == 400 ==> reason_text(status) == text("Bad Request"),
        status == 404 ==> reason_text(status) == text("Not Found"),
        status == 405 ==> reason_text(status) == text("Method Not Allowed"),
        status == 413 ==> reason_text(status) == text("Content Too Large"),
        status == 416 ==> reason_text(status) == text("Range Not Satisfiable"),
        status == 417 ==> reason_text(status) == text("Expectation Failed"),
        status == 431 ==> reason_text(status) == text("Request Header Fields Too Large"),
        status == 505 ==> reason_text(status) == text("HTTP Version Not Supported"),
{
}

/// A request comes from another origin that asks what it may do when it has both
/// fields for that, wherever they stand.
pub proof fn law_preflight(fields: Seq<(Seq<u8>, Seq<u8>)>, i: int, j: int)
    ensures
        0 <= i < fields.len() && 0 <= j < fields.len() && same_ignoring_case(fields[i].0, text("origin"))
            && same_ignoring_case(fields[j].0, text("access-control-request-method")) ==> is_preflight(fields),
        (forall|k: int| 0 <= k < fields.len() ==> !same_ignoring_case((#[trigger] fields[k]).0, text("origin")))
            ==> !is_preflight(fields),
        (forall|k: int|
            0 <= k < fields.len() ==> !same_ignoring_case(
                (#[trigger] fields[k]).0,
                text("access-control-request-method"),
            )) ==> !is_preflight(fields),
{
    law_first_field_counts(fields, text("origin"));
    law_first_field_counts(fields, text("access-control-request-method"));
}

} // verus!
