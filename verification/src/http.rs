//! Requests: the head of a message, its framing and its expectations. Everything
//! that is read borrows from the read buffer.
use vstd::prelude::*;
use vstd::slice::slice_subrange;
use vstd::string::*;
use vstd::utf8::*;

use crate::buf::HDR_MAX;
use crate::bytes::{
    after, all_blank, ascii_alpha, ascii_digit, before, crlf, eq_ignore_ascii_case, find_byte, find_sub, firm,
    index_of, is_alpha, is_digit, law_trimmed, lemma_find_sub, lemma_find_sub_is, lemma_index_of, lemma_index_of_is,
    lower, memfind, number_upto, occurs_at, parse_usizeb, same_bytes, same_ignoring_case, text, trim, trim_front,
    trimmed, COLON, COMMA, CR, LF, QUERY, SEMI, SLASH, SP, ZERO,
};

verus! {

#[derive(Clone, Copy)]
pub struct Header<'a> {
    pub name: &'a str,
    pub value: &'a str,
}

/// Most trailer lines per request.
pub const MAX_TRAILERS: usize = 16;

/// Longest single trailer line.
pub const TRAILER_LINE_MAX: usize = 256;

/// Accepted trailer lines, copied out of the read buffer.
#[derive(Clone, Copy)]
pub struct TrailerStore {
    pub count: usize,
    pub lines: [[u8; TRAILER_LINE_MAX]; MAX_TRAILERS],
    pub lens: [usize; MAX_TRAILERS],
}

impl TrailerStore {
    pub open spec fn wf(&self) -> bool {
        &&& self.count <= MAX_TRAILERS
        &&& forall|i: int| 0 <= i < self.count ==> #[trigger] self.lens@[i] <= TRAILER_LINE_MAX
    }

    /// The lines that are kept.
    pub open spec fn entries(&self) -> Seq<Seq<u8>> {
        Seq::new(self.count as nat, |i: int| self.lines@[i]@.take(self.lens@[i] as int))
    }

    pub fn empty() -> (r: TrailerStore)
        ensures
            r.wf(),
            r.count == 0,
            forall|i: int| 0 <= i < MAX_TRAILERS ==> #[trigger] r.lens@[i] == 0,
            forall|i: int, j: int|
                0 <= i < MAX_TRAILERS && 0 <= j < TRAILER_LINE_MAX ==> #[trigger] r.lines@[i]@[j] == 0,
            r.entries() == Seq::<Seq<u8>>::empty(),
    {
        let r = TrailerStore {
            count: 0,
            lines: [[0u8; TRAILER_LINE_MAX]; MAX_TRAILERS],
            lens: [0usize; MAX_TRAILERS],
        };
        assert(r.entries() =~= Seq::<Seq<u8>>::empty());
        r
    }
}

pub struct Request<'a> {
    pub method: &'a str,
    pub target: &'a str,
    /// Minor version: 0 or 1.
    pub version: u8,
    pub headers: [Option<Header<'a>>; HDR_MAX],
    pub header_count: usize,
    pub body: &'a [u8],
    pub trailers: TrailerStore,
}

/// Name and value of a header field.
pub open spec fn field_of_slot(h: Option<Header>) -> (Seq<u8>, Seq<u8>) {
    match h {
        Some(f) => (text(f.name), text(f.value)),
        None => (Seq::<u8>::empty(), Seq::<u8>::empty()),
    }
}

impl<'a> Request<'a> {
    pub open spec fn wf(&self) -> bool {
        &&& self.header_count <= HDR_MAX
        &&& forall|i: int| 0 <= i < self.header_count ==> (#[trigger] self.headers@[i]) is Some
    }

    /// The header fields, in order.
    pub open spec fn fields(&self) -> Seq<(Seq<u8>, Seq<u8>)> {
        Seq::new(self.header_count as nat, |i: int| field_of_slot(self.headers@[i]))
    }
}

pub enum Parse<'a> {
    NeedMore,
    Ready(Request<'a>),
    Fail(u16),
}

/// What a request head means.
pub enum Head {
    /// There is no complete line.
    NeedMore,
    /// It is refused with this status.
    Fail(u16),
    Ready { method: Seq<u8>, target: Seq<u8>, version: u8, fields: Seq<(Seq<u8>, Seq<u8>)> },
}

#[derive(PartialEq, Eq, Structural, Clone, Copy)]
pub enum Expect {
    Absent,
    Continue,
    Other,
}

/// What the framing needs to know of a head before any body byte is read.
pub struct HeadScan {
    pub chunked: bool,
    pub content_length: Result<usize, u16>,
    pub expect: Expect,
}

// ---- what a head means ------------------------------------------------------

/// Method, target and version: three non-empty parts that single spaces
/// separate (only the version may be empty).
pub open spec fn request_line(line: Seq<u8>) -> Option<(Seq<u8>, Seq<u8>, Seq<u8>)> {
    let a = index_of(line, SP);
    let rest = after(line, SP);
    let b = index_of(rest, SP);
    let version = after(rest, SP);
    if a >= line.len() || b >= rest.len() || a == 0 || b == 0 || index_of(version, SP) < version.len() {
        None
    } else {
        Some((before(line, SP), before(rest, SP), version))
    }
}

/// A header line: a name that is not empty, a colon, a value.
pub open spec fn header_line(line: Seq<u8>) -> Option<(Seq<u8>, Seq<u8>)> {
    let name = trimmed(before(line, COLON));
    let value = trimmed(after(line, COLON));
    if index_of(line, COLON) >= line.len() || name.len() == 0 || !valid_utf8(name) || !valid_utf8(value) {
        None
    } else {
        Some((name, value))
    }
}

/// The header fields of what follows the request line, `count` being known
/// already; or the status that refuses it.
pub open spec fn header_fields(rest: Seq<u8>, count: int) -> Result<Seq<(Seq<u8>, Seq<u8>)>, u16>
    decreases rest.len(),
{
    if rest.len() == 0 {
        Ok(Seq::<(Seq<u8>, Seq<u8>)>::empty())
    } else {
        match find_sub(rest, crlf()) {
            None => Err(400),
            Some(e) => {
                if 0 <= e && e + 2 <= rest.len() {
                    let line = rest.take(e);
                    let next = rest.skip(e + 2);
                    if line.len() == 0 {
                        header_fields(next, count)
                    } else {
                        match header_line(line) {
                            None => Err(400),
                            Some(f) => {
                                if count >= HDR_MAX {
                                    Err(431)
                                } else {
                                    match header_fields(next, count + 1) {
                                        Ok(fs) => Ok(seq![f] + fs),
                                        Err(s) => Err(s),
                                    }
                                }
                            },
                        }
                    }
                } else {
                    Err(400)
                }
            },
        }
    }
}

/// What a request head means: request line, then header fields.
pub open spec fn head_meaning(head: Seq<u8>) -> Head {
    match find_sub(head, crlf()) {
        None => Head::NeedMore,
        Some(eol) => {
            match request_line(head.take(eol)) {
                None => Head::Fail(400),
                Some((method, target, version)) => {
                    if version != text("HTTP/1.1") && version != text("HTTP/1.0") {
                        Head::Fail(505)
                    } else if !valid_utf8(method) || !valid_utf8(target) || !(target[0] == SLASH || target == text(
                        "*",
                    )) {
                        Head::Fail(400)
                    } else {
                        match header_fields(head.skip(eol + 2), 0) {
                            Err(s) => Head::Fail(s),
                            Ok(fields) => Head::Ready {
                                method,
                                target,
                                version: if version == text("HTTP/1.1") {
                                    1
                                } else {
                                    0
                                },
                                fields,
                            },
                        }
                    }
                },
            }
        },
    }
}

/// The same, of a parsed head.
pub open spec fn parsed(p: Parse) -> Head {
    match p {
        Parse::NeedMore => Head::NeedMore,
        Parse::Fail(s) => Head::Fail(s),
        Parse::Ready(r) => Head::Ready {
            method: text(r.method),
            target: text(r.target),
            version: r.version,
            fields: r.fields(),
        },
    }
}

/// The value of the first field with that name, up to ASCII case.
pub open spec fn field_value(fields: Seq<(Seq<u8>, Seq<u8>)>, name: Seq<u8>) -> Option<Seq<u8>>
    decreases fields.len(),
{
    if fields.len() == 0 {
        None
    } else if same_ignoring_case(fields[0].0, name) {
        Some(fields[0].1)
    } else {
        field_value(fields.drop_first(), name)
    }
}

/// The bytes of an optional string.
pub open spec fn opt_text(r: Option<&str>) -> Option<Seq<u8>> {
    match r {
        Some(s) => Some(text(s)),
        None => None,
    }
}

/// A comma-separated list has the token, up to blanks and ASCII case.
pub open spec fn list_has(list: Seq<u8>, token: Seq<u8>) -> bool
    decreases list.len(),
{
    list.len() > 0 && (same_ignoring_case(trimmed(before(list, COMMA)), token) || (0 <= index_of(list, COMMA)
        < list.len() && list_has(list.skip(index_of(list, COMMA) + 1), token)))
}

/// The lines of a block; the last need not end in CRLF.
pub open spec fn lines_of(rest: Seq<u8>) -> Seq<Seq<u8>>
    decreases rest.len(),
{
    if rest.len() == 0 {
        Seq::<Seq<u8>>::empty()
    } else {
        match find_sub(rest, crlf()) {
            Some(e) => {
                if 0 <= e && e + 2 <= rest.len() {
                    seq![rest.take(e)] + lines_of(rest.skip(e + 2))
                } else {
                    seq![rest]
                }
            },
            None => seq![rest],
        }
    }
}

/// The line is a field with that name.
pub open spec fn is_field(line: Seq<u8>, name: Seq<u8>) -> bool {
    index_of(line, COLON) < line.len() && same_ignoring_case(trimmed(before(line, COLON)), name)
}

/// The value of the first line that is a field with that name.
pub open spec fn line_value(lines: Seq<Seq<u8>>, name: Seq<u8>) -> Option<Seq<u8>>
    decreases lines.len(),
{
    if lines.len() == 0 {
        None
    } else if is_field(lines[0], name) {
        Some(trimmed(after(lines[0], COLON)))
    } else {
        line_value(lines.drop_first(), name)
    }
}

/// Some Transfer-Encoding line lists `chunked`.
pub open spec fn lists_chunked(lines: Seq<Seq<u8>>) -> bool
    decreases lines.len(),
{
    lines.len() > 0 && ((is_field(lines[0], text("transfer-encoding")) && list_has(
        trimmed(after(lines[0], COLON)),
        text("chunked"),
    )) || lists_chunked(lines.drop_first()))
}

/// The length that the first Content-Length line states: 0 when there is none,
/// status 400 when it is no number.
pub open spec fn stated_length(lines: Seq<Seq<u8>>) -> Result<nat, u16> {
    match line_value(lines, text("content-length")) {
        None => Ok(0),
        Some(v) => match number_upto(v, usize::MAX as nat) {
            Some(n) => Ok(n),
            None => Err(400),
        },
    }
}

/// What the first Expect line asks for.
pub open spec fn stated_expectation(lines: Seq<Seq<u8>>) -> Expect {
    match line_value(lines, text("expect")) {
        None => Expect::Absent,
        Some(v) => if same_ignoring_case(v, text("100-continue")) {
            Expect::Continue
        } else {
            Expect::Other
        },
    }
}

/// `s` ends in `tail`.
pub open spec fn ends_in(s: Seq<u8>, tail: Seq<u8>) -> bool {
    s.len() >= tail.len() && s.skip(s.len() - tail.len()) == tail
}

/// The length that was read, as a number.
pub open spec fn length_number(r: Result<usize, u16>) -> Result<nat, u16> {
    match r {
        Ok(n) => Ok(n as nat),
        Err(s) => Err(s),
    }
}

/// Framing and expectation of a head; HTTP/1.0 knows no expectations.
pub open spec fn scan_meaning(head: Seq<u8>) -> (bool, Result<nat, u16>, Expect) {
    match find_sub(head, crlf()) {
        None => (false, Err(400), Expect::Absent),
        Some(eol) => {
            let lines = lines_of(head.skip(eol + 2));
            (
                lists_chunked(lines),
                stated_length(lines),
                if ends_in(head.take(eol), text("HTTP/1.0")) {
                    Expect::Absent
                } else {
                    stated_expectation(lines)
                },
            )
        },
    }
}

// ---- small readers ----------------------------------------------------------

/// First CRLF.
pub fn find_crlf(s: &[u8]) -> (r: Option<usize>)
    ensures
        match r {
            Some(i) => find_sub(s@, crlf()) == Some(i as int) && i + 2 <= s.len(),
            None => find_sub(s@, crlf()) is None,
        },
{
    let pair: [u8; 2] = [CR, LF];
    assert(pair@ =~= crlf());
    memfind(s, &pair)
}

/// The blank line that ends a head.
pub open spec fn head_end_mark() -> Seq<u8> {
    seq![CR, LF, CR, LF]
}

/// Where the head ends: the first CRLF CRLF.
pub fn find_double_crlf(hay: &[u8]) -> (r: Option<usize>)
    ensures
        match r {
            Some(i) => find_sub(hay@, head_end_mark()) == Some(i as int) && i + 4 <= hay.len(),
            None => find_sub(hay@, head_end_mark()) is None,
        },
{
    let mark: [u8; 4] = [CR, LF, CR, LF];
    assert(mark@ =~= head_end_mark());
    memfind(hay, &mark)
}

pub fn split_request_line(line: &[u8]) -> (r: Option<(&[u8], &[u8], &[u8])>)
    ensures
        match r {
            Some(t) => request_line(line@) == Some((t.0@, t.1@, t.2@)),
            None => request_line(line@) is None,
        },
{
    let a: usize = match find_byte(line, SP) {
        Some(p) => p,
        None => {
            return None;
        },
    };
    let rest = slice_subrange(line, a + 1, line.len());
    assert(rest@ =~= after(line@, SP));
    let b: usize = match find_byte(rest, SP) {
        Some(p) => p,
        None => {
            return None;
        },
    };
    let method = slice_subrange(line, 0, a);
    let target = slice_subrange(rest, 0, b);
    let version = slice_subrange(rest, b + 1, rest.len());
    assert(method@ =~= before(line@, SP));
    assert(target@ =~= before(rest@, SP));
    assert(version@ =~= after(rest@, SP));
    if a == 0 || b == 0 {
        return None;
    }
    match find_byte(version, SP) {
        Some(_) => None,
        None => Some((method, target, version)),
    }
}

/// Reads one header line.
fn parse_header_line<'a>(line: &'a [u8]) -> (r: Option<Header<'a>>)
    ensures
        match r {
            Some(h) => header_line(line@) == Some((text(h.name), text(h.value))),
            None => header_line(line@) is None,
        },
{
    let colon: usize = match find_byte(line, COLON) {
        Some(p) => p,
        None => {
            return None;
        },
    };
    let left = slice_subrange(line, 0, colon);
    let right = slice_subrange(line, colon + 1, line.len());
    assert(left@ =~= before(line@, COLON));
    assert(right@ =~= after(line@, COLON));
    let n = trim(left);
    let v = trim(right);
    if n.len() == 0 {
        return None;
    }
    match core::str::from_utf8(n) {
        Err(_) => None,
        Ok(name) => match core::str::from_utf8(v) {
            Err(_) => None,
            Ok(value) => Some(Header { name, value }),
        },
    }
}

/// Reads a request head.
pub fn parse_head<'a>(head: &'a [u8]) -> (r: Parse<'a>)
    ensures
        parsed(r) == head_meaning(head@),
        r matches Parse::Ready(q) ==> q.wf() && q.body@.len() == 0 && q.trailers.wf() && q.trailers.count == 0
            && forall|i: int| q.header_count <= i < HDR_MAX ==> (#[trigger] q.headers@[i]) is None,
{
    let eol: usize = match find_crlf(head) {
        Some(p) => p,
        None => {
            return Parse::NeedMore;
        },
    };
    let first = slice_subrange(head, 0, eol);
    assert(first@ =~= head@.take(eol as int));
    let (method, target, version) = match split_request_line(first) {
        Some(t) => t,
        None => {
            return Parse::Fail(400);
        },
    };
    let minor: u8 = if same_bytes(version, "HTTP/1.1".as_bytes()) {
        1
    } else if same_bytes(version, "HTTP/1.0".as_bytes()) {
        0
    } else {
        return Parse::Fail(505);
    };
    let method_str: &'a str = match core::str::from_utf8(method) {
        Ok(s) => s,
        Err(_) => {
            return Parse::Fail(400);
        },
    };
    proof {
        lemma_index_of(first@, SP);
        lemma_index_of(after(first@, SP), SP);
    }
    let target_str: &'a str = match core::str::from_utf8(target) {
        Ok(s) => s,
        Err(_) => {
            return Parse::Fail(400);
        },
    };
    if !(target[0] == SLASH || same_bytes(target, "*".as_bytes())) {
        return Parse::Fail(400);
    }
    let mut headers: [Option<Header<'a>>; HDR_MAX] = [None; HDR_MAX];
    let mut count: usize = 0;
    let mut rest = slice_subrange(head, eol + 2, head.len());
    let ghost all = rest@;
    let ghost mut done = Seq::<(Seq<u8>, Seq<u8>)>::empty();
    assert(all =~= head@.skip(eol + 2));
    proof {
        match header_fields(all, 0) {
            Ok(fs) => {
                assert(done + fs =~= fs);
            },
            Err(_) => {},
        }
    }
    while rest.len() > 0
        invariant
            count <= HDR_MAX,
            count == done.len(),
            forall|i: int| 0 <= i < count ==> (#[trigger] headers@[i]) is Some && field_of_slot(headers@[i]) == done[i],
            forall|i: int| count <= i < HDR_MAX ==> (#[trigger] headers@[i]) is None,
            match header_fields(rest@, count as int) {
                Ok(fs) => header_fields(all, 0) == Ok::<Seq<(Seq<u8>, Seq<u8>)>, u16>(done + fs),
                Err(s) => header_fields(all, 0) == Err::<Seq<(Seq<u8>, Seq<u8>)>, u16>(s),
            },
            all == head@.skip(eol + 2),
            head_meaning(head@) == (match header_fields(all, 0) {
                Err(s) => Head::Fail(s),
                Ok(fields) => Head::Ready {
                    method: text(method_str),
                    target: text(target_str),
                    version: minor,
                    fields,
                },
            }),
        decreases rest@.len(),
    {
        let e: usize = match find_crlf(rest) {
            Some(p) => p,
            None => {
                return Parse::Fail(400);
            },
        };
        let line = slice_subrange(rest, 0, e);
        let next = slice_subrange(rest, e + 2, rest.len());
        assert(line@ =~= rest@.take(e as int));
        assert(next@ =~= rest@.skip(e + 2));
        rest = next;
        if line.len() == 0 {
            continue ;
        }
        let h: Header<'a> = match parse_header_line(line) {
            Some(h) => h,
            None => {
                return Parse::Fail(400);
            },
        };
        if count == HDR_MAX {
            return Parse::Fail(431);
        }
        headers[count] = Some(h);
        proof {
            let f = (text(h.name), text(h.value));
            match header_fields(rest@, count + 1) {
                Ok(fs) => {
                    assert(done.push(f) + fs =~= done + (seq![f] + fs));
                },
                Err(_) => {},
            }
            done = done.push(f);
        }
        count += 1;
    }
    let empty: &'a [u8] = slice_subrange(head, 0, 0);
    let req = Request {
        method: method_str,
        target: target_str,
        version: minor,
        headers,
        header_count: count,
        body: empty,
        trailers: TrailerStore::empty(),
    };
    assert(req.fields() =~= done);
    assert(done + Seq::<(Seq<u8>, Seq<u8>)>::empty() =~= done);
    Parse::Ready(req)
}

/// The value of the first header field with that name.
pub fn header<'a>(req: &'a Request<'a>, name: &str) -> (r: Option<&'a str>)
    requires
        req.wf(),
    ensures
        opt_text(r) == field_value(req.fields(), text(name)),
{
    let mut i: usize = 0;
    assert(req.fields().skip(0) =~= req.fields());
    while i < req.header_count
        invariant
            req.wf(),
            i <= req.header_count,
            field_value(req.fields().skip(i as int), text(name)) == field_value(req.fields(), text(name)),
        decreases req.header_count - i,
    {
        let ghost tail = req.fields().skip(i as int);
        assert(req.headers@[i as int] is Some);
        assert(tail[0] == field_of_slot(req.headers@[i as int]));
        assert(tail.drop_first() =~= req.fields().skip(i + 1));
        match req.headers[i] {
            Some(h) => {
                if eq_ignore_ascii_case(h.name.as_bytes(), name.as_bytes()) {
                    return Some(h.value);
                }
            },
            None => {},
        }
        i += 1;
    }
    None
}

/// The path of a target: what stands before the query.
pub fn path_of<'a>(target: &'a str) -> (r: &'a str)
    ensures
        text(r) == before(text(target), QUERY),
{
    match find_byte(target.as_bytes(), QUERY) {
        Some(q) => {
            proof {
                encode_utf8_valid_utf8(target@);
                is_char_boundary_iff_not_is_continuation_byte(text(target), q as int);
            }
            let (path, _) = target.split_at(q);
            assert(text(path) =~= before(text(target), QUERY));
            path
        },
        None => {
            assert(before(text(target), QUERY) =~= text(target));
            target
        },
    }
}

/// Is the token in a comma-separated list?
pub fn list_has_token(list: &[u8], token: &[u8]) -> (r: bool)
    ensures
        r == list_has(list@, token@),
{
    let mut tok = list;
    while tok.len() > 0
        invariant
            list_has(tok@, token@) == list_has(list@, token@),
        decreases tok@.len(),
    {
        match find_byte(tok, COMMA) {
            Some(p) => {
                let piece = slice_subrange(tok, 0, p);
                let next = slice_subrange(tok, p + 1, tok.len());
                assert(piece@ =~= before(tok@, COMMA));
                assert(next@ =~= tok@.skip(p + 1));
                if eq_ignore_ascii_case(trim(piece), token) {
                    return true;
                }
                tok = next;
            },
            None => {
                assert(before(tok@, COMMA) =~= tok@);
                return eq_ignore_ascii_case(trim(tok), token);
            },
        }
    }
    false
}

fn ends_with(s: &[u8], tail: &[u8]) -> (r: bool)
    ensures
        r == ends_in(s@, tail@),
{
    if s.len() < tail.len() {
        return false;
    }
    let k: usize = s.len() - tail.len();
    assert(s@.subrange(k as int, s@.len() as int) =~= s@.skip(k as int));
    same_bytes(slice_subrange(s, k, s.len()), tail)
}

/// One header line as the scan sees it: trimmed name and trimmed value.
pub fn split_field<'a>(line: &'a [u8]) -> (r: Option<(&'a [u8], &'a [u8])>)
    ensures
        match r {
            Some(f) => index_of(line@, COLON) < line@.len() && f.0@ == trimmed(before(line@, COLON)) && f.1@
                == trimmed(after(line@, COLON)),
            None => index_of(line@, COLON) >= line@.len(),
        },
{
    match find_byte(line, COLON) {
        Some(p) => {
            let left = slice_subrange(line, 0, p);
            let right = slice_subrange(line, p + 1, line.len());
            assert(left@ =~= before(line@, COLON));
            assert(right@ =~= after(line@, COLON));
            Some((trim(left), trim(right)))
        },
        None => None,
    }
}

/// Framing and expectation in one pass over the header lines.
pub fn scan_head(head: &[u8]) -> (r: HeadScan)
    ensures
        (r.chunked, length_number(r.content_length), r.expect) == scan_meaning(head@),
{
    let eol: usize = match find_crlf(head) {
        Some(p) => p,
        None => {
            return HeadScan { chunked: false, content_length: Err(400), expect: Expect::Absent };
        },
    };
    let first = slice_subrange(head, 0, eol);
    assert(first@ =~= head@.take(eol as int));
    let http10 = ends_with(first, "HTTP/1.0".as_bytes());
    let mut chunked = false;
    let mut length: Option<Result<usize, u16>> = None;
    let mut expect: Option<Expect> = None;
    let mut rest = slice_subrange(head, eol + 2, head.len());
    let ghost all = lines_of(rest@);
    assert(rest@ =~= head@.skip(eol + 2));
    while rest.len() > 0
        invariant
            lists_chunked(all) == (chunked || lists_chunked(lines_of(rest@))),
            match length {
                Some(l) => stated_length(all) == length_number(l),
                None => stated_length(all) == stated_length(lines_of(rest@)),
            },
            match expect {
                Some(e) => stated_expectation(all) == e,
                None => stated_expectation(all) == stated_expectation(lines_of(rest@)),
            },
        decreases rest@.len(),
    {
        let ghost lines = lines_of(rest@);
        let line: &[u8];
        let next: &[u8];
        match find_crlf(rest) {
            Some(p) => {
                line = slice_subrange(rest, 0, p);
                next = slice_subrange(rest, p + 2, rest.len());
                assert(line@ =~= rest@.take(p as int));
                assert(next@ =~= rest@.skip(p + 2));
            },
            None => {
                line = rest;
                next = slice_subrange(rest, rest.len(), rest.len());
                assert(lines_of(next@) =~= Seq::<Seq<u8>>::empty());
            },
        }
        assert(lines[0] == line@);
        assert(lines.drop_first() =~= lines_of(next@));
        rest = next;
        match split_field(line) {
            None => {},
            Some((name, value)) => {
                if !chunked && eq_ignore_ascii_case(name, "transfer-encoding".as_bytes()) {
                    chunked = list_has_token(value, "chunked".as_bytes());
                }
                if length.is_none() && eq_ignore_ascii_case(name, "content-length".as_bytes()) {
                    length = Some(stated_number(value));
                }
                if expect.is_none() && eq_ignore_ascii_case(name, "expect".as_bytes()) {
                    expect = Some(
                        if eq_ignore_ascii_case(value, "100-continue".as_bytes()) {
                            Expect::Continue
                        } else {
                            Expect::Other
                        },
                    );
                }
            },
        }
    }
    HeadScan {
        chunked,
        content_length: match length {
            Some(l) => l,
            None => Ok(0),
        },
        expect: if http10 {
            Expect::Absent
        } else {
            match expect {
                Some(e) => e,
                None => Expect::Absent,
            }
        },
    }
}

/// The number a Content-Length value states, or status 400.
fn stated_number(value: &[u8]) -> (r: Result<usize, u16>)
    ensures
        length_number(r) == (match number_upto(value@, usize::MAX as nat) {
            Some(n) => Ok::<nat, u16>(n),
            None => Err::<nat, u16>(400),
        }),
{
    match parse_usizeb(value) {
        Some(n) => Ok(n),
        None => Err(400),
    }
}

// ---- chunk sizes and trailers -----------------------------------------------

pub open spec fn is_hex(b: u8) -> bool {
    is_digit(b) || 0x41 <= b <= 0x46 || 0x61 <= b <= 0x66
}

pub open spec fn hex_worth(b: u8) -> int {
    if is_digit(b) {
        b - ZERO
    } else if 0x61 <= b {
        b - 0x61 + 10
    } else {
        b - 0x41 + 10
    }
}

/// The number that a string of hexadecimal digits denotes.
pub open spec fn hex_value(s: Seq<u8>) -> int
    decreases s.len(),
{
    if s.len() == 0 {
        0
    } else {
        hex_value(s.drop_last()) * 16 + hex_worth(s.last())
    }
}

/// How many hexadecimal digits `s` starts with.
pub open spec fn hex_run(s: Seq<u8>) -> int
    decreases s.len(),
{
    if s.len() > 0 && is_hex(s[0]) {
        1 + hex_run(s.drop_first())
    } else {
        0
    }
}

/// The size that a chunk-size line states, its extensions left aside. Status
/// 413 where the leading digits exceed every size, 400 where there is no number.
pub open spec fn chunk_size(line: Seq<u8>) -> Result<nat, u16> {
    let s = trimmed(before(line, SEMI));
    let k = hex_run(s);
    if s.len() == 0 {
        Err(400)
    } else if hex_value(s.take(k)) > usize::MAX {
        Err(413)
    } else if k < s.len() {
        Err(400)
    } else {
        Ok(hex_value(s) as nat)
    }
}

/// `hex_run` counts the digits up to the first byte that is none.
pub proof fn lemma_hex_run(s: Seq<u8>, k: int)
    requires
        0 <= k <= s.len(),
        forall|j: int| 0 <= j < k ==> is_hex(#[trigger] s[j]),
    ensures
        k <= hex_run(s) <= s.len(),
        k == s.len() || !is_hex(s[k]) ==> hex_run(s) == k,
    decreases s.len(),
{
    if s.len() > 0 && is_hex(s[0]) {
        let t = s.drop_first();
        let m = if k == 0 {
            0
        } else {
            k - 1
        };
        assert forall|j: int| 0 <= j < m implies is_hex(#[trigger] t[j]) by {
            assert(t[j] == s[j + 1]);
        }
        lemma_hex_run(t, m);
    }
}

/// A longer number is no smaller.
pub proof fn lemma_hex_value_grows(s: Seq<u8>, k: int)
    requires
        0 <= k <= hex_run(s),
    ensures
        0 <= hex_value(s.take(k)) <= hex_value(s.take(hex_run(s))),
    decreases hex_run(s) - k,
{
    lemma_hex_run(s, 0);
    lemma_hex_run_digits(s);
    if k < hex_run(s) {
        lemma_hex_value_grows(s, k + 1);
        assert(s.take(k + 1).drop_last() =~= s.take(k));
        assert(s.take(k + 1).last() == s[k]);
        lemma_hex_value_nonneg(s.take(k));
    } else {
        lemma_hex_value_nonneg(s.take(k));
    }
}

proof fn lemma_hex_run_digits(s: Seq<u8>)
    ensures
        forall|j: int| 0 <= j < hex_run(s) ==> is_hex(#[trigger] s[j]),
        0 <= hex_run(s) <= s.len(),
    decreases s.len(),
{
    if s.len() > 0 && is_hex(s[0]) {
        lemma_hex_run_digits(s.drop_first());
        assert forall|j: int| 0 <= j < hex_run(s) implies is_hex(#[trigger] s[j]) by {
            if j > 0 {
                assert(s[j] == s.drop_first()[j - 1]);
            }
        }
    }
}

proof fn lemma_hex_value_nonneg(s: Seq<u8>)
    requires
        forall|j: int| 0 <= j < s.len() ==> is_hex(#[trigger] s[j]),
    ensures
        hex_value(s) >= 0,
    decreases s.len(),
{
    if s.len() > 0 {
        assert forall|j: int| 0 <= j < s.drop_last().len() implies is_hex(#[trigger] s.drop_last()[j]) by {
            assert(s.drop_last()[j] == s[j]);
        }
        lemma_hex_value_nonneg(s.drop_last());
    }
}

/// The value of one hexadecimal digit.
fn hex_digit_value(b: u8) -> (r: Option<usize>)
    ensures
        r is Some <==> is_hex(b),
        r matches Some(d) ==> d == hex_worth(b) && d < 16,
{
    if ascii_digit(b) {
        Some((b - ZERO) as usize)
    } else if 0x61 <= b && b <= 0x66 {
        Some((b - 0x61 + 10) as usize)
    } else if 0x41 <= b && b <= 0x46 {
        Some((b - 0x41 + 10) as usize)
    } else {
        None
    }
}

/// Reads a chunk-size line.
pub fn parse_chunk_size(line: &[u8]) -> (r: Result<usize, u16>)
    ensures
        length_number(r) == chunk_size(line@),
{
    let end: usize = match find_byte(line, SEMI) {
        Some(p) => p,
        None => line.len(),
    };
    let left = slice_subrange(line, 0, end);
    assert(left@ =~= before(line@, SEMI));
    let s = trim(left);
    if s.len() == 0 {
        return Err(400);
    }
    let mut v: usize = 0;
    let mut i: usize = 0;
    assert(s@.take(0) =~= Seq::<u8>::empty());
    while i < s.len()
        invariant
            i <= s@.len(),
            s@ == trimmed(before(line@, SEMI)),
            s@.len() > 0,
            forall|j: int| 0 <= j < i ==> is_hex(#[trigger] s@[j]),
            v == hex_value(s@.take(i as int)),
        decreases s@.len() - i,
    {
        proof {
            lemma_hex_run(s@, i as int);
        }
        let d: usize = match hex_digit_value(s[i]) {
            Some(d) => d,
            None => {
                return Err(400);
            },
        };
        proof {
            assert(s@.take(i + 1).drop_last() =~= s@.take(i as int));
            assert(hex_value(s@.take(i + 1)) == v * 16 + d);
            lemma_hex_run(s@, i + 1);
            lemma_hex_value_grows(s@, i + 1);
        }
        v = match v.checked_mul(16) {
            None => {
                return Err(413);
            },
            Some(x) => match x.checked_add(d) {
                None => {
                    return Err(413);
                },
                Some(y) => y,
            },
        };
        i += 1;
    }
    proof {
        lemma_hex_run(s@, s@.len() as int);
        assert(s@.take(s@.len() as int) =~= s@);
    }
    Ok(v)
}

/// The bytes of a token besides letters and digits.
pub open spec fn is_tchar(b: u8) -> bool {
    is_alpha(b) || is_digit(b) || text("!#$%&'*+-.^_`|~").contains(b)
}

/// A token: at least one byte, all of them token bytes.
pub open spec fn token(s: Seq<u8>) -> bool {
    s.len() > 0 && forall|i: int| 0 <= i < s.len() ==> is_tchar(#[trigger] s[i])
}

pub fn is_token(name: &[u8]) -> (r: bool)
    ensures
        r == token(name@),
{
    let marks = "!#$%&'*+-.^_`|~".as_bytes();
    let mut i: usize = 0;
    while i < name.len()
        invariant
            i <= name@.len(),
            marks@ == text("!#$%&'*+-.^_`|~"),
            forall|j: int| 0 <= j < i ==> is_tchar(#[trigger] name@[j]),
        decreases name@.len() - i,
    {
        let b: u8 = name[i];
        if !ascii_alpha(b) && !ascii_digit(b) {
            proof {
                lemma_index_of(marks@, b);
            }
            if find_byte(marks, b).is_none() {
                assert(!is_tchar(name@[i as int]));
                return false;
            }
        }
        i += 1;
    }
    name.len() > 0
}

/// The name of a trailer line; status 400 when it has none that is a token.
pub open spec fn trailer_field(line: Seq<u8>) -> Result<Seq<u8>, u16> {
    let name = trimmed(before(line, COLON));
    if index_of(line, COLON) < line.len() && token(name) {
        Ok(name)
    } else {
        Err(400)
    }
}

/// Checks one trailer line and returns its name.
pub fn trailer_name<'a>(line: &'a [u8]) -> (r: Result<&'a [u8], u16>)
    ensures
        match r {
            Ok(n) => trailer_field(line@) == Ok::<Seq<u8>, u16>(n@),
            Err(s) => trailer_field(line@) == Err::<Seq<u8>, u16>(s),
        },
{
    let colon: usize = match find_byte(line, COLON) {
        Some(p) => p,
        None => {
            return Err(400);
        },
    };
    let left = slice_subrange(line, 0, colon);
    assert(left@ =~= before(line@, COLON));
    let name = trim(left);
    if is_token(name) {
        Ok(name)
    } else {
        Err(400)
    }
}

/// Fields that no sender may put in a trailer section: framing, routing,
/// authentication, expectations and content processing.
pub open spec fn forbidden_trailer(name: Seq<u8>) -> bool {
    ||| same_ignoring_case(name, text("transfer-encoding"))
    ||| same_ignoring_case(name, text("content-length"))
    ||| same_ignoring_case(name, text("trailer"))
    ||| same_ignoring_case(name, text("te"))
    ||| same_ignoring_case(name, text("host"))
    ||| same_ignoring_case(name, text("authorization"))
    ||| same_ignoring_case(name, text("proxy-authenticate"))
    ||| same_ignoring_case(name, text("proxy-authorization"))
    ||| same_ignoring_case(name, text("expect"))
    ||| same_ignoring_case(name, text("content-encoding"))
    ||| same_ignoring_case(name, text("content-type"))
    ||| same_ignoring_case(name, text("content-range"))
}

pub fn is_forbidden_trailer(name: &[u8]) -> (r: bool)
    ensures
        r == forbidden_trailer(name@),
{
    eq_ignore_ascii_case(name, "transfer-encoding".as_bytes()) || eq_ignore_ascii_case(
        name,
        "content-length".as_bytes(),
    ) || eq_ignore_ascii_case(name, "trailer".as_bytes()) || eq_ignore_ascii_case(name, "te".as_bytes())
        || eq_ignore_ascii_case(name, "host".as_bytes()) || eq_ignore_ascii_case(name, "authorization".as_bytes())
        || eq_ignore_ascii_case(name, "proxy-authenticate".as_bytes()) || eq_ignore_ascii_case(
        name,
        "proxy-authorization".as_bytes(),
    ) || eq_ignore_ascii_case(name, "expect".as_bytes()) || eq_ignore_ascii_case(name, "content-encoding".as_bytes())
        || eq_ignore_ascii_case(name, "content-type".as_bytes()) || eq_ignore_ascii_case(
        name,
        "content-range".as_bytes(),
    )
}

// ---- persistence ------------------------------------------------------------

/// HTTP/1.1 stays open unless it says `close`, HTTP/1.0 closes unless it says
/// `keep-alive`.
pub open spec fn stays_open(version: u8, fields: Seq<(Seq<u8>, Seq<u8>)>) -> bool {
    let connection = field_value(fields, text("connection"));
    if version == 1 {
        !(connection matches Some(v) && same_ignoring_case(v, text("close")))
    } else if version == 0 {
        connection matches Some(v) && same_ignoring_case(v, text("keep-alive"))
    } else {
        false
    }
}

pub fn keep_alive(req: &Request) -> (r: bool)
    requires
        req.wf(),
    ensures
        r == stays_open(req.version, req.fields()),
{
    let connection = header(req, "connection");
    let wants_close = match connection {
        Some(v) => eq_ignore_ascii_case(v.as_bytes(), "close".as_bytes()),
        None => false,
    };
    let wants_keep = match connection {
        Some(v) => eq_ignore_ascii_case(v.as_bytes(), "keep-alive".as_bytes()),
        None => false,
    };
    if req.version == 1 {
        !wants_close
    } else if req.version == 0 {
        wants_keep
    } else {
        false
    }
}

// ---- laws -------------------------------------------------------------------

/// The case of a field's name does not matter.
pub proof fn law_names_ignore_case(fields: Seq<(Seq<u8>, Seq<u8>)>, a: Seq<u8>, b: Seq<u8>)
    requires
        same_ignoring_case(a, b),
    ensures
        field_value(fields, a) == field_value(fields, b),
    decreases fields.len(),
{
    if fields.len() > 0 {
        let name = fields[0].0;
        assert(same_ignoring_case(name, a) == same_ignoring_case(name, b)) by {
            if same_ignoring_case(name, a) {
                assert forall|i: int|
                    #![trigger name[i]]
                    #![trigger b[i]]
                    0 <= i < name.len() implies lower(name[i]) == lower(b[i]) by {
                    assert(lower(name[i]) == lower(a[i]));
                }
            }
            if same_ignoring_case(name, b) {
                assert forall|i: int|
                    #![trigger name[i]]
                    #![trigger a[i]]
                    0 <= i < name.len() implies lower(name[i]) == lower(a[i]) by {
                    assert(lower(name[i]) == lower(b[i]));
                }
            }
        }
        law_names_ignore_case(fields.drop_first(), a, b);
    }
}

/// `s` holds no `b`.
pub open spec fn lacks(s: Seq<u8>, b: u8) -> bool {
    forall|i: int| 0 <= i < s.len() ==> #[trigger] s[i] != b
}

/// Header fields on the wire, each on a line of its own.
pub open spec fn fields_wire(fields: Seq<(Seq<u8>, Seq<u8>)>) -> Seq<u8>
    decreases fields.len(),
{
    if fields.len() == 0 {
        Seq::<u8>::empty()
    } else {
        fields[0].0 + seq![COLON, SP] + fields[0].1 + crlf() + fields_wire(fields.drop_first())
    }
}

/// A head on the wire, with the blank line that ends it.
pub open spec fn head_wire(method: Seq<u8>, target: Seq<u8>, version: u8, fields: Seq<(Seq<u8>, Seq<u8>)>) -> Seq<u8> {
    method + seq![SP] + target + seq![SP] + (if version == 1 {
        text("HTTP/1.1")
    } else {
        text("HTTP/1.0")
    }) + crlf() + fields_wire(fields) + crlf()
}

/// A field that can go over the wire: its name is not empty and holds no colon,
/// and neither name nor value holds a carriage return or blanks at its ends.
pub open spec fn plain_field(f: (Seq<u8>, Seq<u8>)) -> bool {
    &&& f.0.len() > 0
    &&& lacks(f.0, COLON)
    &&& lacks(f.0, CR)
    &&& lacks(f.1, CR)
    &&& trimmed(f.0) == f.0
    &&& trimmed(f.1) == f.1
    &&& valid_utf8(f.0)
    &&& valid_utf8(f.1)
}

/// The end of a line that holds no carriage return.
pub proof fn lemma_line_end(line: Seq<u8>, t: Seq<u8>)
    requires
        lacks(line, CR),
    ensures
        find_sub(line + crlf() + t, crlf()) == Some(line.len() as int),
        (line + crlf() + t).take(line.len() as int) == line,
        (line + crlf() + t).skip(line.len() as int + 2) == t,
{
    let s = line + crlf() + t;
    let n = line.len() as int;
    assert forall|j: int| 0 <= j < n implies !occurs_at(s, j, crlf()) by {
        assert(s.subrange(j, j + 2)[0] == line[j]);
    }
    assert(s.subrange(n, n + 2) =~= crlf());
    lemma_find_sub_is(s, crlf(), n);
    assert(s.take(n) =~= line);
    assert(s.skip(n + 2) =~= t);
}

/// A space before a value that starts with none is trimmed away.
proof fn lemma_trim_space(v: Seq<u8>)
    ensures
        trimmed(seq![SP] + v) == trimmed(v),
{
    let s = seq![SP] + v;
    assert(s.drop_first() =~= v);
    assert(trim_front(s) == trim_front(v));
}

proof fn lemma_fields_read_back(fields: Seq<(Seq<u8>, Seq<u8>)>, count: int)
    requires
        0 <= count,
        count + fields.len() <= HDR_MAX,
        forall|i: int| 0 <= i < fields.len() ==> plain_field(#[trigger] fields[i]),
    ensures
        header_fields(fields_wire(fields) + crlf(), count) == Ok::<Seq<(Seq<u8>, Seq<u8>)>, u16>(fields),
    decreases fields.len(),
{
    let none = Seq::<u8>::empty();
    if fields.len() == 0 {
        let s = fields_wire(fields) + crlf();
        assert(s =~= none + crlf() + none);
        lemma_line_end(none, none);
        assert(header_fields(none, count) == Ok::<Seq<(Seq<u8>, Seq<u8>)>, u16>(Seq::<(Seq<u8>, Seq<u8>)>::empty()));
        assert(fields =~= Seq::<(Seq<u8>, Seq<u8>)>::empty());
    } else {
        let f = fields[0];
        let more = fields.drop_first();
        let line = f.0 + seq![COLON, SP] + f.1;
        let rest = fields_wire(more) + crlf();
        assert(plain_field(fields[0]));
        assert(fields_wire(fields) + crlf() =~= line + crlf() + rest);
        lemma_line_end(line, rest);
        lemma_index_of_is(line, COLON, f.0.len() as int);
        assert(before(line, COLON) =~= f.0);
        assert(after(line, COLON) =~= seq![SP] + f.1);
        lemma_trim_space(f.1);
        assert(header_line(line) == Some(f));
        assert forall|i: int| 0 <= i < more.len() implies plain_field(#[trigger] more[i]) by {
            assert(more[i] == fields[i + 1]);
        }
        lemma_fields_read_back(more, count + 1);
        assert(seq![f] + more =~= fields);
    }
}

/// A head reads back as what it was made of: the method, the target, the version
/// and every field in order.
#[verifier::rlimit(30)]
pub proof fn law_head_round_trip(method: Seq<u8>, target: Seq<u8>, version: u8, fields: Seq<(Seq<u8>, Seq<u8>)>)
    requires
        method.len() > 0,
        lacks(method, SP),
        lacks(method, CR),
        valid_utf8(method),
        target.len() > 0,
        target[0] == SLASH || target == seq![0x2au8],
        lacks(target, SP),
        lacks(target, CR),
        valid_utf8(target),
        version <= 1,
        fields.len() <= HDR_MAX,
        forall|i: int| 0 <= i < fields.len() ==> plain_field(#[trigger] fields[i]),
    ensures
        head_meaning(head_wire(method, target, version, fields)) == (Head::Ready { method, target, version, fields }),
{
    reveal_strlit("HTTP/1.1");
    reveal_strlit("HTTP/1.0");
    reveal_strlit("*");
    is_ascii_spec_bytes("HTTP/1.1");
    is_ascii_spec_bytes("HTTP/1.0");
    is_ascii_spec_bytes("*");
    assert(text("*") =~= seq![0x2au8]);
    let v = if version == 1 {
        text("HTTP/1.1")
    } else {
        text("HTTP/1.0")
    };
    assert(text("HTTP/1.1")[7] == 49 && text("HTTP/1.0")[7] == 48);
    assert(lacks(v, SP) && lacks(v, CR));
    let line = method + seq![SP] + target + seq![SP] + v;
    let rest = fields_wire(fields) + crlf();
    let s = head_wire(method, target, version, fields);
    assert(s =~= line + crlf() + rest);
    lemma_line_end(line, rest);
    lemma_index_of_is(line, SP, method.len() as int);
    assert(before(line, SP) =~= method);
    let tail = target + seq![SP] + v;
    assert(after(line, SP) =~= tail);
    lemma_index_of_is(tail, SP, target.len() as int);
    assert(before(tail, SP) =~= target);
    assert(after(tail, SP) =~= v);
    lemma_index_of(v, SP);
    lemma_fields_read_back(fields, 0);
}

/// A word of small letters in any case: each byte is the letter or its capital.
pub open spec fn spells(v: Seq<u8>, word: Seq<u8>) -> bool {
    v.len() == word.len() && forall|i: int|
        #![trigger v[i]]
        #![trigger word[i]]
        0 <= i < v.len() ==> v[i] == word[i] || (0x61 <= word[i] <= 0x7a && v[i] == word[i] - 32)
}

/// `close` in bytes.
pub open spec fn close_word() -> Seq<u8> {
    seq![0x63u8, 0x6c, 0x6f, 0x73, 0x65]
}

/// `keep-alive` in bytes.
pub open spec fn keep_word() -> Seq<u8> {
    seq![0x6bu8, 0x65, 0x65, 0x70, 0x2d, 0x61, 0x6c, 0x69, 0x76, 0x65]
}

/// A connection of HTTP/1.1 is closed by the word `close` in any case, and by
/// nothing else; one of HTTP/1.0 is kept by the word `keep-alive`, and by nothing
/// else.
pub proof fn law_persistence(fields: Seq<(Seq<u8>, Seq<u8>)>)
    ensures
        match field_value(fields, text("connection")) {
            None => stays_open(1, fields) && !stays_open(0, fields),
            Some(v) => {
                &&& stays_open(1, fields) <==> !spells(v, close_word())
                &&& stays_open(0, fields) <==> spells(v, keep_word())
                &&& v == keep_word() ==> stays_open(1, fields) && stays_open(0, fields)
                &&& v == close_word() ==> !stays_open(1, fields) && !stays_open(0, fields)
            },
        },
{
    reveal_strlit("close");
    reveal_strlit("keep-alive");
    is_ascii_spec_bytes("close");
    is_ascii_spec_bytes("keep-alive");
    assert(text("close") =~= close_word());
    assert(text("keep-alive") =~= keep_word());
    if let Some(v) = field_value(fields, text("connection")) {
        lemma_spells(v, close_word());
        lemma_spells(v, keep_word());
        assert(v == keep_word() ==> v.len() != close_word().len());
    }
}

/// A word without capitals is the same up to case as what spells it.
proof fn lemma_spells(v: Seq<u8>, word: Seq<u8>)
    requires
        forall|i: int| 0 <= i < word.len() ==> !(0x41 <= #[trigger] word[i] <= 0x5a),
    ensures
        same_ignoring_case(v, word) == spells(v, word),
{
    if same_ignoring_case(v, word) {
        assert forall|i: int|
            #![trigger v[i]]
            #![trigger word[i]]
            0 <= i < v.len() implies v[i] == word[i] || (0x61 <= word[i] <= 0x7a && v[i] == word[i] - 32) by {
            assert(lower(v[i]) == lower(word[i]));
        }
    }
    if spells(v, word) {
        assert forall|i: int|
            #![trigger v[i]]
            #![trigger word[i]]
            0 <= i < v.len() implies lower(v[i]) == lower(word[i]) by {}
    }
}

/// The value of a field is that of the first field with its name, wherever it
/// stands, and there is none only where no field has the name.
pub proof fn law_first_field_counts(fields: Seq<(Seq<u8>, Seq<u8>)>, name: Seq<u8>)
    ensures
        forall|i: int|
            0 <= i < fields.len() && same_ignoring_case((#[trigger] fields[i]).0, name) && (forall|j: int|
                0 <= j < i ==> !same_ignoring_case((#[trigger] fields[j]).0, name)) ==> field_value(fields, name)
                == Some(fields[i].1),
        (forall|i: int| 0 <= i < fields.len() ==> !same_ignoring_case((#[trigger] fields[i]).0, name))
            <==> field_value(fields, name) is None,
    decreases fields.len(),
{
    if fields.len() > 0 {
        let more = fields.drop_first();
        law_first_field_counts(more, name);
        assert forall|i: int|
            0 <= i < fields.len() && same_ignoring_case((#[trigger] fields[i]).0, name) && (forall|j: int|
                0 <= j < i ==> !same_ignoring_case((#[trigger] fields[j]).0, name)) implies field_value(fields, name)
            == Some(fields[i].1) by {
            if i > 0 {
                assert(!same_ignoring_case(fields[0].0, name));
                assert(more[i - 1] == fields[i]);
                assert forall|j: int| 0 <= j < i - 1 implies !same_ignoring_case((#[trigger] more[j]).0, name) by {
                    assert(more[j] == fields[j + 1]);
                }
            }
        }
        if field_value(fields, name) is None {
            assert forall|i: int| 0 <= i < fields.len() implies !same_ignoring_case((#[trigger] fields[i]).0, name) by {
                if i > 0 {
                    assert(more[i - 1] == fields[i]);
                }
            }
        }
        if forall|i: int| 0 <= i < fields.len() ==> !same_ignoring_case((#[trigger] fields[i]).0, name) {
            assert(!same_ignoring_case(fields[0].0, name));
            assert forall|j: int| 0 <= j < more.len() implies !same_ignoring_case((#[trigger] more[j]).0, name) by {
                assert(more[j] == fields[j + 1]);
            }
        }
    }
}

/// A list has a token exactly when one of its members is the token: a list of one
/// when that is the token up to blanks and case, a longer one when what stands
/// before its first comma has it or what stands behind it does.
pub proof fn law_list_members(a: Seq<u8>, b: Seq<u8>, token: Seq<u8>)
    requires
        lacks(a, 0x2c),
        token.len() > 0,
    ensures
        list_has(a, token) == same_ignoring_case(trimmed(a), token),
        list_has(a + seq![0x2cu8] + b, token) == (list_has(a, token) || list_has(b, token)),
{
    let s = a + seq![0x2cu8] + b;
    lemma_index_of_is(s, COMMA, a.len() as int);
    lemma_index_of_is(a, COMMA, a.len() as int);
    assert(before(s, COMMA) =~= a);
    assert(before(a, COMMA) =~= a);
    assert(s.skip(a.len() as int + 1) =~= b);
}

/// Some field with that name lists the token.
pub open spec fn some_field_lists(fields: Seq<(Seq<u8>, Seq<u8>)>, name: Seq<u8>, token: Seq<u8>) -> bool {
    exists|i: int|
        0 <= i < fields.len() && same_ignoring_case((#[trigger] fields[i]).0, name) && list_has(fields[i].1, token)
}

/// A line that a field was written on is that field.
proof fn lemma_field_line(f: (Seq<u8>, Seq<u8>), name: Seq<u8>)
    requires
        plain_field(f),
    ensures
        is_field(f.0 + seq![COLON, SP] + f.1, name) == same_ignoring_case(f.0, name),
        trimmed(after(f.0 + seq![COLON, SP] + f.1, COLON)) == f.1,
{
    let line = f.0 + seq![COLON, SP] + f.1;
    lemma_index_of_is(line, COLON, f.0.len() as int);
    assert(before(line, COLON) =~= f.0);
    assert(after(line, COLON) =~= seq![SP] + f.1);
    lemma_trim_space(f.1);
}

/// The lines of a written head hold what its fields hold.
proof fn lemma_lines_hold_fields(fields: Seq<(Seq<u8>, Seq<u8>)>, name: Seq<u8>)
    requires
        forall|i: int| 0 <= i < fields.len() ==> plain_field(#[trigger] fields[i]),
    ensures
        line_value(lines_of(fields_wire(fields) + crlf()), name) == field_value(fields, name),
        lists_chunked(lines_of(fields_wire(fields) + crlf())) == some_field_lists(
            fields,
            text("transfer-encoding"),
            text("chunked"),
        ),
    decreases fields.len(),
{
    let none = Seq::<u8>::empty();
    let s = fields_wire(fields) + crlf();
    let te = text("transfer-encoding");
    let tok = text("chunked");
    if fields.len() == 0 {
        assert(s =~= none + crlf() + none);
        lemma_line_end(none, none);
        let lines = lines_of(s);
        assert(lines_of(none) =~= Seq::<Seq<u8>>::empty());
        assert(lines =~= seq![none]);
        assert(lines.drop_first() =~= Seq::<Seq<u8>>::empty());
        assert(index_of(none, COLON) == 0);
        assert(line_value(lines.drop_first(), name) is None);
        assert(!lists_chunked(lines.drop_first()));
    } else {
        let f = fields[0];
        let more = fields.drop_first();
        let line = f.0 + seq![COLON, SP] + f.1;
        let rest = fields_wire(more) + crlf();
        assert(plain_field(fields[0]));
        assert(s =~= line + crlf() + rest);
        lemma_line_end(line, rest);
        let lines = lines_of(s);
        assert(lines =~= seq![line] + lines_of(rest));
        assert(lines.drop_first() =~= lines_of(rest));
        lemma_field_line(f, name);
        lemma_field_line(f, te);
        assert forall|i: int| 0 <= i < more.len() implies plain_field(#[trigger] more[i]) by {
            assert(more[i] == fields[i + 1]);
        }
        lemma_lines_hold_fields(more, name);
        if some_field_lists(more, te, tok) {
            let i = choose|i: int|
                0 <= i < more.len() && same_ignoring_case((#[trigger] more[i]).0, te) && list_has(more[i].1, tok);
            assert(fields[i + 1] == more[i]);
        }
        if some_field_lists(fields, te, tok) {
            let i = choose|i: int|
                0 <= i < fields.len() && same_ignoring_case((#[trigger] fields[i]).0, te) && list_has(fields[i].1, tok);
            if i > 0 {
                assert(more[i - 1] == fields[i]);
            }
        }
    }
}

/// `100-continue` in bytes.
pub open spec fn continue_word() -> Seq<u8> {
    seq![0x31u8, 0x30, 0x30, 0x2d, 0x63, 0x6f, 0x6e, 0x74, 0x69, 0x6e, 0x75, 0x65]
}

/// Framing and expectation are those that the fields of the head state, wherever
/// they stand: a body is chunked when some Transfer-Encoding lists `chunked`, its
/// length is the number in Content-Length, nothing where there is none and 400
/// where it is no number, and an expectation is `100-continue` in any case or one
/// that is not known. HTTP/1.0 has none.
pub proof fn law_framing_of_a_written_head(
    method: Seq<u8>,
    target: Seq<u8>,
    version: u8,
    fields: Seq<(Seq<u8>, Seq<u8>)>,
)
    requires
        lacks(method, CR),
        lacks(target, CR),
        version <= 1,
        forall|i: int| 0 <= i < fields.len() ==> plain_field(#[trigger] fields[i]),
    ensures
        ({
            let (chunked, length, expect) = scan_meaning(head_wire(method, target, version, fields));
            &&& chunked == some_field_lists(fields, text("transfer-encoding"), text("chunked"))
            &&& match field_value(fields, text("content-length")) {
                None => length == Ok::<nat, u16>(0),
                Some(v) => match number_upto(v, usize::MAX as nat) {
                    Some(n) => length == Ok::<nat, u16>(n),
                    None => length == Err::<nat, u16>(400),
                },
            }
            &&& version == 0 ==> expect == Expect::Absent
            &&& version == 1 ==> match field_value(fields, text("expect")) {
                None => expect == Expect::Absent,
                Some(v) => expect == (if spells(v, continue_word()) {
                    Expect::Continue
                } else {
                    Expect::Other
                }),
            }
        }),
{
    reveal_strlit("HTTP/1.1");
    reveal_strlit("HTTP/1.0");
    reveal_strlit("100-continue");
    is_ascii_spec_bytes("HTTP/1.1");
    is_ascii_spec_bytes("HTTP/1.0");
    is_ascii_spec_bytes("100-continue");
    let v = if version == 1 {
        text("HTTP/1.1")
    } else {
        text("HTTP/1.0")
    };
    assert(text("HTTP/1.1")[7] == 49 && text("HTTP/1.0")[7] == 48);
    assert(lacks(v, CR));
    assert(text("100-continue") =~= continue_word());
    let line = method + seq![SP] + target + seq![SP] + v;
    let rest = fields_wire(fields) + crlf();
    let s = head_wire(method, target, version, fields);
    assert(s =~= line + crlf() + rest);
    lemma_line_end(line, rest);
    assert(line.skip(line.len() - 8) =~= v);
    lemma_lines_hold_fields(fields, text("content-length"));
    lemma_lines_hold_fields(fields, text("expect"));
    if let Some(e) = field_value(fields, text("expect")) {
        lemma_spells(e, continue_word());
    }
}

/// The blank line behind a written head is the first in it.
pub proof fn law_head_ends_at_blank_line(
    method: Seq<u8>,
    target: Seq<u8>,
    version: u8,
    fields: Seq<(Seq<u8>, Seq<u8>)>,
)
    requires
        lacks(method, CR),
        lacks(target, CR),
        version <= 1,
        forall|i: int| 0 <= i < fields.len() ==> plain_field(#[trigger] fields[i]),
    ensures
        ({
            let s = head_wire(method, target, version, fields);
            &&& find_sub(s, head_end_mark()) == Some(s.len() - 4)
            &&& s.len() >= 4
        }),
{
    reveal_strlit("HTTP/1.1");
    reveal_strlit("HTTP/1.0");
    is_ascii_spec_bytes("HTTP/1.1");
    is_ascii_spec_bytes("HTTP/1.0");
    let v = if version == 1 {
        text("HTTP/1.1")
    } else {
        text("HTTP/1.0")
    };
    assert(lacks(v, CR));
    let line = method + seq![SP] + target + seq![SP] + v;
    assert(head_wire(method, target, version, fields) =~= line + crlf() + (fields_wire(fields) + crlf()));
    lemma_blank_line(line, fields);
}

proof fn lemma_blank_line(line: Seq<u8>, fields: Seq<(Seq<u8>, Seq<u8>)>)
    requires
        line.len() > 0,
        lacks(line, CR),
        forall|i: int| 0 <= i < fields.len() ==> plain_field(#[trigger] fields[i]),
    ensures
        ({
            let s = line + crlf() + (fields_wire(fields) + crlf());
            find_sub(s, head_end_mark()) == Some(s.len() - 4)
        }),
    decreases fields.len(),
{
    let rest = fields_wire(fields) + crlf();
    let s = line + crlf() + rest;
    let n = line.len() as int;
    let mark = head_end_mark();
    if fields.len() == 0 {
        assert(rest =~= crlf());
        assert forall|j: int| 0 <= j < n implies !occurs_at(s, j, mark) by {
            assert(s[j] == line[j]);
            assert(s.subrange(j, j + 4)[0] == s[j]);
        }
        assert(s.subrange(n, n + 4) =~= mark);
        lemma_find_sub_is(s, mark, n);
    } else {
        let f = fields[0];
        let more = fields.drop_first();
        let next = f.0 + seq![COLON, SP] + f.1;
        assert(plain_field(fields[0]));
        assert forall|i: int| 0 <= i < more.len() implies plain_field(#[trigger] more[i]) by {
            assert(more[i] == fields[i + 1]);
        }
        lemma_blank_line(next, more);
        assert(rest =~= next + crlf() + (fields_wire(more) + crlf()));
        lemma_find_sub(rest, mark);
        let e = s.len() - 4;
        assert forall|j: int| 0 <= j < e implies !occurs_at(s, j, mark) by {
            if j <= n + 1 {
                if j + 4 <= s.len() {
                    assert(s.subrange(j, j + 4)[0] == s[j]);
                    assert(s.subrange(j, j + 4)[2] == s[j + 2]);
                }
                assert(s[n + 1] == LF);
                assert(s[n + 2] == next[0] && next[0] == f.0[0]);
                if j < n {
                    assert(s[j] == line[j]);
                }
            } else {
                assert(!occurs_at(rest, j - n - 2, mark));
                if j + 4 <= s.len() {
                    assert(s.subrange(j, j + 4) =~= rest.subrange(j - n - 2, j - n - 2 + 4));
                }
            }
        }
        assert(occurs_at(rest, rest.len() - 4, mark));
        assert(s.subrange(e, e + 4) =~= rest.subrange(rest.len() - 4, rest.len() as int));
        lemma_find_sub_is(s, mark, e);
    }
}

/// One field too many is refused with 431: a head has room for thirty-two.
pub proof fn law_too_many_fields(method: Seq<u8>, target: Seq<u8>, version: u8, fields: Seq<(Seq<u8>, Seq<u8>)>)
    requires
        method.len() > 0,
        lacks(method, SP),
        lacks(method, CR),
        valid_utf8(method),
        target.len() > 0,
        target[0] == SLASH,
        lacks(target, SP),
        lacks(target, CR),
        valid_utf8(target),
        version <= 1,
        forall|i: int| 0 <= i < fields.len() ==> plain_field(#[trigger] fields[i]),
    ensures
        match head_meaning(head_wire(method, target, version, fields)) {
            Head::Ready { method: m, target: t, version: v, fields: fs } => {
                &&& fields.len() <= 32
                &&& m == method && t == target && v == version && fs == fields
            },
            Head::Fail(status) => fields.len() > 32 && status == 431,
            Head::NeedMore => false,
        },
{
    reveal_strlit("HTTP/1.1");
    reveal_strlit("HTTP/1.0");
    is_ascii_spec_bytes("HTTP/1.1");
    is_ascii_spec_bytes("HTTP/1.0");
    let v = if version == 1 {
        text("HTTP/1.1")
    } else {
        text("HTTP/1.0")
    };
    if fields.len() <= 32 {
        law_head_round_trip(method, target, version, fields);
    } else {
        assert(text("HTTP/1.1")[7] == 49 && text("HTTP/1.0")[7] == 48);
        assert(lacks(v, SP) && lacks(v, CR));
        lemma_request_line(method, target, v, fields_wire(fields) + crlf());
        assert(head_wire(method, target, version, fields) =~= method + seq![SP] + target + seq![SP] + v + crlf() + (
        fields_wire(fields) + crlf()));
        lemma_fields_overflow(fields, 0);
    }
}

/// A written request line is read as its three parts.
proof fn lemma_request_line(method: Seq<u8>, target: Seq<u8>, v: Seq<u8>, rest: Seq<u8>)
    requires
        method.len() > 0,
        lacks(method, SP),
        lacks(method, CR),
        target.len() > 0,
        lacks(target, SP),
        lacks(target, CR),
        lacks(v, SP),
        lacks(v, CR),
    ensures
        ({
            let line = method + seq![SP] + target + seq![SP] + v;
            let s = line + crlf() + rest;
            &&& find_sub(s, crlf()) == Some(line.len() as int)
            &&& s.take(line.len() as int) == line
            &&& s.skip(line.len() as int + 2) == rest
            &&& request_line(line) == Some((method, target, v))
        }),
{
    let line = method + seq![SP] + target + seq![SP] + v;
    lemma_line_end(line, rest);
    lemma_index_of_is(line, SP, method.len() as int);
    assert(before(line, SP) =~= method);
    let tail = target + seq![SP] + v;
    assert(after(line, SP) =~= tail);
    lemma_index_of_is(tail, SP, target.len() as int);
    assert(before(tail, SP) =~= target);
    assert(after(tail, SP) =~= v);
    lemma_index_of(v, SP);
}

proof fn lemma_fields_overflow(fields: Seq<(Seq<u8>, Seq<u8>)>, count: int)
    requires
        0 <= count <= 32,
        count + fields.len() > 32,
        forall|i: int| 0 <= i < fields.len() ==> plain_field(#[trigger] fields[i]),
    ensures
        header_fields(fields_wire(fields) + crlf(), count) == Err::<Seq<(Seq<u8>, Seq<u8>)>, u16>(431),
    decreases fields.len(),
{
    let f = fields[0];
    let more = fields.drop_first();
    let line = f.0 + seq![COLON, SP] + f.1;
    let rest = fields_wire(more) + crlf();
    assert(plain_field(fields[0]));
    assert(fields_wire(fields) + crlf() =~= line + crlf() + rest);
    lemma_line_end(line, rest);
    lemma_index_of_is(line, COLON, f.0.len() as int);
    assert(before(line, COLON) =~= f.0);
    assert(after(line, COLON) =~= seq![SP] + f.1);
    lemma_trim_space(f.1);
    assert(header_line(line) == Some(f));
    if count < 32 {
        assert forall|i: int| 0 <= i < more.len() implies plain_field(#[trigger] more[i]) by {
            assert(more[i] == fields[i + 1]);
        }
        lemma_fields_overflow(more, count + 1);
    }
}

/// A version that is not one of the two is refused with 505, whatever the request
/// line says otherwise and whatever follows it. A target that is neither a path
/// nor `*` is refused with 400.
pub proof fn law_refused_request_lines(method: Seq<u8>, target: Seq<u8>, v: Seq<u8>, rest: Seq<u8>)
    requires
        method.len() > 0,
        lacks(method, SP),
        lacks(method, CR),
        target.len() > 0,
        lacks(target, SP),
        lacks(target, CR),
        lacks(v, SP),
        lacks(v, CR),
    ensures
        ({
            let s = method + seq![SP] + target + seq![SP] + v + crlf() + rest;
            &&& v != text("HTTP/1.1") && v != text("HTTP/1.0") ==> head_meaning(s) == Head::Fail(505)
            &&& (v == text("HTTP/1.1") || v == text("HTTP/1.0")) && target[0] != 0x2f && target != seq![0x2au8]
                ==> head_meaning(s) == Head::Fail(400)
        }),
{
    reveal_strlit("*");
    is_ascii_spec_bytes("*");
    assert(text("*") =~= seq![0x2au8]);
    lemma_request_line(method, target, v, rest);
}

/// The path of a target ends where its query starts.
pub proof fn law_path_before_query(path: Seq<u8>, query: Seq<u8>)
    requires
        lacks(path, 0x3f),
    ensures
        before(path, QUERY) == path,
        before(path + seq![0x3fu8] + query, QUERY) == path,
{
    let s = path + seq![0x3fu8] + query;
    lemma_index_of_is(path, QUERY, path.len() as int);
    lemma_index_of_is(s, QUERY, path.len() as int);
    assert(before(path, QUERY) =~= path);
    assert(before(s, QUERY) =~= path);
}

/// What a hexadecimal digit is worth, in either case.
pub open spec fn digit_worth(b: u8) -> Option<int> {
    if 0x30 <= b <= 0x39 {
        Some(b - 0x30)
    } else if 0x41 <= b <= 0x46 {
        Some(b - 0x37)
    } else if 0x61 <= b <= 0x66 {
        Some(b - 0x57)
    } else {
        None
    }
}

/// A chunk size is a hexadecimal number in digits of either case: one digit is
/// worth itself, one more counts sixteen times what stands before it, and a number
/// that no length can hold is refused with 413. What follows that is no digit is
/// refused with 400.
pub proof fn law_chunk_size_digits(s: Seq<u8>, d: u8)
    requires
        digit_worth(d) is Some,
        forall|i: int| 0 <= i < s.len() ==> digit_worth(#[trigger] s[i]) is Some,
    ensures
        chunk_size(seq![d]) == Ok::<nat, u16>(digit_worth(d)->0 as nat),
        s.len() > 0 ==> match chunk_size(s) {
            Ok(n) => chunk_size(s.push(d)) == (if 16 * n + digit_worth(d)->0 <= usize::MAX {
                Ok::<nat, u16>((16 * n + digit_worth(d)->0) as nat)
            } else {
                Err::<nat, u16>(413)
            }),
            Err(status) => status == 413 && chunk_size(s.push(d)) == Err::<nat, u16>(413),
        },
{
    let one = seq![d];
    let t = s.push(d);
    assert(one.drop_last() =~= Seq::<u8>::empty());
    assert(hex_value(one.drop_last()) == 0);
    assert(t.drop_last() =~= s);
    assert forall|i: int| 0 <= i < t.len() implies is_hex(#[trigger] t[i]) by {
        if i < s.len() {
            assert(t[i] == s[i]);
            assert(digit_worth(s[i]) is Some);
        }
    }
    assert forall|i: int| 0 <= i < s.len() implies is_hex(#[trigger] s[i]) by {
        assert(digit_worth(s[i]) is Some);
    }
    lemma_plain_size(one);
    lemma_plain_size(s);
    lemma_plain_size(t);
    lemma_hex_value_nonneg(s);
}

/// A size of digits alone.
proof fn lemma_plain_size(s: Seq<u8>)
    requires
        forall|i: int| 0 <= i < s.len() ==> is_hex(#[trigger] s[i]),
    ensures
        s.len() > 0 ==> chunk_size(s) == (if hex_value(s) > usize::MAX {
            Err::<nat, u16>(413)
        } else {
            Ok::<nat, u16>(hex_value(s) as nat)
        }),
{
    if s.len() > 0 {
        lemma_index_of_is(s, SEMI, s.len() as int);
        assert(before(s, SEMI) =~= s);
        let none = Seq::<u8>::empty();
        assert(is_hex(s[0]) && is_hex(s.last()));
        law_trimmed(none, s, none);
        assert(none + s + none =~= s);
        lemma_hex_run(s, s.len() as int);
        assert(s.take(s.len() as int) =~= s);
    }
}

/// Blanks around a chunk size and what follows it behind a semicolon do not count.
pub proof fn law_chunk_size_extensions(l: Seq<u8>, s: Seq<u8>, r: Seq<u8>, ext: Seq<u8>)
    requires
        all_blank(l),
        all_blank(r),
        firm(s),
        lacks(s, 0x3b),
    ensures
        chunk_size(l + s + r) == chunk_size(s),
        chunk_size(l + s + r + seq![0x3bu8] + ext) == chunk_size(s),
        s.len() == 0 ==> chunk_size(s) == Err::<nat, u16>(400),
        s.len() > 0 && digit_worth(s[0]) is None ==> chunk_size(s) == Err::<nat, u16>(400),
{
    let none = Seq::<u8>::empty();
    let a = l + s + r;
    let b = a + seq![0x3bu8] + ext;
    assert forall|j: int| 0 <= j < a.len() implies a[j] != SEMI by {
        if j < l.len() {
            assert(a[j] == l[j]);
        } else if j < l.len() + s.len() {
            assert(a[j] == s[j - l.len()]);
        } else {
            assert(a[j] == r[j - l.len() - s.len()]);
        }
    }
    lemma_index_of_is(a, SEMI, a.len() as int);
    lemma_index_of_is(b, SEMI, a.len() as int);
    lemma_index_of_is(s, SEMI, s.len() as int);
    assert(before(a, SEMI) =~= a);
    assert(before(b, SEMI) =~= a);
    assert(before(s, SEMI) =~= s);
    law_trimmed(l, s, r);
    law_trimmed(none, s, none);
    assert(none + s + none =~= s);
    if s.len() > 0 && digit_worth(s[0]) is None {
        lemma_hex_run(s, 0);
        assert(s.take(0) =~= none);
        assert(hex_value(none) == 0);
    }
}

/// A digit string with something else in it is no chunk size.
#[verifier::rlimit(60)]
#[verifier::spinoff_prover]
pub proof fn law_chunk_size_garbage(s: Seq<u8>, x: u8, t: Seq<u8>)
    requires
        s.len() > 0,
        forall|i: int| 0 <= i < s.len() ==> digit_worth(#[trigger] s[i]) is Some,
        digit_worth(x) is None,
        x != 0x3b,
        lacks(t, 0x3b),
        firm(s + seq![x] + t),
        chunk_size(s) is Ok,
    ensures
        chunk_size(s + seq![x] + t) == Err::<nat, u16>(400),
{
    let none = Seq::<u8>::empty();
    let w = s + seq![x] + t;
    assert forall|i: int| 0 <= i < s.len() implies is_hex(#[trigger] s[i]) by {
        assert(digit_worth(s[i]) is Some);
    }
    lemma_plain_size(s);
    assert forall|j: int| 0 <= j < w.len() implies w[j] != SEMI by {
        if j < s.len() {
            assert(w[j] == s[j]);
        } else if j > s.len() {
            assert(w[j] == t[j - s.len() - 1]);
        }
    }
    lemma_index_of_is(w, SEMI, w.len() as int);
    assert(before(w, SEMI) =~= w);
    law_trimmed(none, w, none);
    assert(none + w + none =~= w);
    assert forall|j: int| 0 <= j < s.len() implies is_hex(#[trigger] w[j]) by {
        assert(w[j] == s[j]);
    }
    lemma_hex_run(w, s.len() as int);
    assert(w.take(s.len() as int) =~= s);
}

/// A token is made of visible ASCII but for the delimiters
/// `"`, `(`, `)`, `,`, `/`, `:`, `;`, `<`, `=`, `>`, `?`, `@`, `[`, `\`, `]`, `{` and `}`.
#[verifier::rlimit(60)]
#[verifier::spinoff_prover]
pub proof fn law_token_bytes(s: Seq<u8>)
    ensures
        token(s) <==> s.len() > 0 && forall|i: int|
            0 <= i < s.len() ==> {
                let b = #[trigger] s[i];
                &&& 0x21 <= b <= 0x7e
                &&& b != 0x22 && b != 0x28 && b != 0x29 && b != 0x2c && b != 0x2f
                &&& !(0x3a <= b <= 0x40)
                &&& !(0x5b <= b <= 0x5d)
                &&& b != 0x7b && b != 0x7d
            },
{
    reveal_strlit("!#$%&'*+-.^_`|~");
    is_ascii_spec_bytes("!#$%&'*+-.^_`|~");
    let marks = text("!#$%&'*+-.^_`|~");
    assert(marks =~= seq![
        0x21u8,
        0x23,
        0x24,
        0x25,
        0x26,
        0x27,
        0x2a,
        0x2b,
        0x2d,
        0x2e,
        0x5e,
        0x5f,
        0x60,
        0x7c,
        0x7e,
    ]);
    assert forall|b: u8| #[trigger] marks.contains(b) <==> (b == 0x21 || 0x23 <= b <= 0x27 || b == 0x2a || b == 0x2b || b
        == 0x2d || b == 0x2e || b == 0x5e || b == 0x5f || b == 0x60 || b == 0x7c || b == 0x7e) by {
        if b == 0x21 {
            assert(marks[0] == b);
        } else if 0x23 <= b <= 0x27 {
            assert(marks[b - 0x22] == b);
        } else if b == 0x2a || b == 0x2b {
            assert(marks[b - 0x24] == b);
        } else if b == 0x2d || b == 0x2e {
            assert(marks[b - 0x25] == b);
        } else if 0x5e <= b <= 0x60 {
            assert(marks[b - 0x54] == b);
        } else if b == 0x7c {
            assert(marks[13] == b);
        } else if b == 0x7e {
            assert(marks[14] == b);
        }
    }
}

/// The name of a trailer as it is written: what stands before the colon, a token,
/// up to blanks.
pub proof fn law_trailer_as_written(name: Seq<u8>, r: Seq<u8>, value: Seq<u8>)
    requires
        lacks(name, 0x3a),
        firm(name),
        all_blank(r),
    ensures
        trailer_field(name + r + seq![0x3au8] + value) == (if token(name) {
            Ok::<Seq<u8>, u16>(name)
        } else {
            Err::<Seq<u8>, u16>(400)
        }),
        trailer_field(name) == Err::<Seq<u8>, u16>(400),
{
    let none = Seq::<u8>::empty();
    let line = name + r + seq![0x3au8] + value;
    let n = name.len() + r.len();
    assert forall|j: int| 0 <= j < n implies line[j] != COLON by {
        if j < name.len() {
            assert(line[j] == name[j]);
        } else {
            assert(line[j] == r[j - name.len()]);
        }
    }
    lemma_index_of_is(line, COLON, n as int);
    lemma_index_of_is(name, COLON, name.len() as int);
    assert(before(line, COLON) =~= none + name + r);
    law_trimmed(none, name, r);
}

/// A field may be a trailer unless it frames, routes, authenticates, expects or
/// describes the content: then it may not, in any case of letters.
#[verifier::rlimit(60)]
#[verifier::spinoff_prover]
pub proof fn law_forbidden_trailers(name: Seq<u8>)
    ensures
        forbidden_trailer(name) <==> {
            ||| spells(name, text("transfer-encoding"))
            ||| spells(name, text("content-length"))
            ||| spells(name, text("trailer"))
            ||| spells(name, text("te"))
            ||| spells(name, text("host"))
            ||| spells(name, text("authorization"))
            ||| spells(name, text("proxy-authenticate"))
            ||| spells(name, text("proxy-authorization"))
            ||| spells(name, text("expect"))
            ||| spells(name, text("content-encoding"))
            ||| spells(name, text("content-type"))
            ||| spells(name, text("content-range"))
        },
{
    reveal_strlit("transfer-encoding");
    reveal_strlit("content-length");
    reveal_strlit("trailer");
    reveal_strlit("te");
    reveal_strlit("host");
    reveal_strlit("authorization");
    reveal_strlit("proxy-authenticate");
    reveal_strlit("proxy-authorization");
    reveal_strlit("expect");
    reveal_strlit("content-encoding");
    reveal_strlit("content-type");
    reveal_strlit("content-range");
    is_ascii_spec_bytes("transfer-encoding");
    is_ascii_spec_bytes("content-length");
    is_ascii_spec_bytes("trailer");
    is_ascii_spec_bytes("te");
    is_ascii_spec_bytes("host");
    is_ascii_spec_bytes("authorization");
    is_ascii_spec_bytes("proxy-authenticate");
    is_ascii_spec_bytes("proxy-authorization");
    is_ascii_spec_bytes("expect");
    is_ascii_spec_bytes("content-encoding");
    is_ascii_spec_bytes("content-type");
    is_ascii_spec_bytes("content-range");
    lemma_spells(name, text("transfer-encoding"));
    lemma_spells(name, text("content-length"));
    lemma_spells(name, text("trailer"));
    lemma_spells(name, text("te"));
    lemma_spells(name, text("host"));
    lemma_spells(name, text("authorization"));
    lemma_spells(name, text("proxy-authenticate"));
    lemma_spells(name, text("proxy-authorization"));
    lemma_spells(name, text("expect"));
    lemma_spells(name, text("content-encoding"));
    lemma_spells(name, text("content-type"));
    lemma_spells(name, text("content-range"));
}

/// Fields that are followed by something else.
proof fn lemma_fields_then(fields: Seq<(Seq<u8>, Seq<u8>)>, count: int, rest: Seq<u8>)
    requires
        0 <= count,
        count + fields.len() <= HDR_MAX,
        forall|i: int| 0 <= i < fields.len() ==> plain_field(#[trigger] fields[i]),
    ensures
        header_fields(rest, count + fields.len()) matches Err(s) ==> header_fields(fields_wire(fields) + rest, count)
            == Err::<Seq<(Seq<u8>, Seq<u8>)>, u16>(s),
    decreases fields.len(),
{
    if fields.len() == 0 {
        assert(fields_wire(fields) + rest =~= rest);
    } else {
        let f = fields[0];
        let more = fields.drop_first();
        let line = f.0 + seq![COLON, SP] + f.1;
        let next = fields_wire(more) + rest;
        assert(plain_field(fields[0]));
        assert(fields_wire(fields) + rest =~= line + crlf() + next);
        lemma_line_end(line, next);
        lemma_index_of_is(line, COLON, f.0.len() as int);
        assert(before(line, COLON) =~= f.0);
        assert(after(line, COLON) =~= seq![SP] + f.1);
        lemma_trim_space(f.1);
        assert(header_line(line) == Some(f));
        assert forall|i: int| 0 <= i < more.len() implies plain_field(#[trigger] more[i]) by {
            assert(more[i] == fields[i + 1]);
        }
        lemma_fields_then(more, count + 1, rest);
    }
}

/// A line that is no field refuses the head with 400, whatever fields come before it
/// and whatever follows: one without a colon, and one without a name.
pub proof fn law_bad_header_line(
    method: Seq<u8>,
    target: Seq<u8>,
    version: u8,
    fields: Seq<(Seq<u8>, Seq<u8>)>,
    line: Seq<u8>,
    rest: Seq<u8>,
)
    requires
        method.len() > 0,
        lacks(method, SP),
        lacks(method, CR),
        valid_utf8(method),
        target.len() > 0,
        target[0] == SLASH,
        lacks(target, SP),
        lacks(target, CR),
        valid_utf8(target),
        version <= 1,
        fields.len() <= 32,
        forall|i: int| 0 <= i < fields.len() ==> plain_field(#[trigger] fields[i]),
        line.len() > 0,
        lacks(line, CR),
        lacks(line, 0x3a) || exists|l: Seq<u8>, v: Seq<u8>|
            #![trigger l + seq![0x3au8] + v]
            all_blank(l) && line == l + seq![0x3au8] + v,
    ensures
        head_meaning(
            method + seq![SP] + target + seq![SP] + (if version == 1 {
                text("HTTP/1.1")
            } else {
                text("HTTP/1.0")
            }) + crlf() + (fields_wire(fields) + (line + crlf() + rest)),
        ) == Head::Fail(400),
{
    reveal_strlit("HTTP/1.1");
    reveal_strlit("HTTP/1.0");
    is_ascii_spec_bytes("HTTP/1.1");
    is_ascii_spec_bytes("HTTP/1.0");
    let v = if version == 1 {
        text("HTTP/1.1")
    } else {
        text("HTTP/1.0")
    };
    assert(text("HTTP/1.1")[7] == 49 && text("HTTP/1.0")[7] == 48);
    assert(lacks(v, SP) && lacks(v, CR));
    let none = Seq::<u8>::empty();
    let tail = line + crlf() + rest;
    lemma_request_line(method, target, v, fields_wire(fields) + tail);
    lemma_line_end(line, rest);
    if lacks(line, 0x3a) {
        lemma_index_of_is(line, COLON, line.len() as int);
    } else {
        let (l, w) = choose|l: Seq<u8>, w: Seq<u8>|
            #![trigger l + seq![0x3au8] + w]
            all_blank(l) && line == l + seq![0x3au8] + w;
        lemma_index_of_is(line, COLON, l.len() as int);
        assert(before(line, COLON) =~= l + none + none);
        law_trimmed(l, none, none);
    }
    assert(header_line(line) is None);
    assert(header_fields(tail, fields.len() as int) == Err::<Seq<(Seq<u8>, Seq<u8>)>, u16>(400));
    lemma_fields_then(fields, 0, tail);
}

/// A request line has three parts and two spaces: one with fewer, one with an empty
/// part in front and one with further spaces are no request lines.
pub proof fn law_request_line_shape(a: Seq<u8>, b: Seq<u8>, c: Seq<u8>)
    requires
        lacks(a, 0x20),
        lacks(b, 0x20),
        lacks(a, CR),
        lacks(b, CR),
        lacks(c, CR),
    ensures
        request_line(a) is None,
        request_line(a + seq![0x20u8] + b) is None,
        request_line(a + seq![0x20u8] + b + seq![0x20u8] + c) == (if a.len() > 0 && b.len() > 0 && lacks(c, 0x20) {
            Some((a, b, c))
        } else {
            None
        }),
{
    let two = a + seq![0x20u8] + b;
    let three = two + seq![0x20u8] + c;
    lemma_index_of_is(a, SP, a.len() as int);
    lemma_index_of_is(two, SP, a.len() as int);
    assert(after(two, SP) =~= b);
    lemma_index_of_is(b, SP, b.len() as int);
    lemma_index_of_is(three, SP, a.len() as int);
    let tail = b + seq![0x20u8] + c;
    assert(after(three, SP) =~= tail);
    lemma_index_of_is(tail, SP, b.len() as int);
    assert(before(three, SP) =~= a);
    assert(before(tail, SP) =~= b);
    assert(after(tail, SP) =~= c);
    lemma_index_of(c, SP);
}

/// Blanks around the name and around the value of a field do not count, neither where
/// the fields are read nor where the framing is.
pub proof fn law_blanks_around_fields(
    l: Seq<u8>,
    name: Seq<u8>,
    r: Seq<u8>,
    l2: Seq<u8>,
    value: Seq<u8>,
    r2: Seq<u8>,
    n: Seq<u8>,
)
    requires
        all_blank(l),
        all_blank(r),
        all_blank(l2),
        all_blank(r2),
        name.len() > 0,
        firm(name),
        firm(value),
        lacks(name, 0x3a),
        valid_utf8(name),
        valid_utf8(value),
    ensures
        ({
            let line = l + name + r + seq![0x3au8] + (l2 + value + r2);
            &&& header_line(line) == Some((name, value))
            &&& is_field(line, n) == same_ignoring_case(name, n)
            &&& line_value(seq![line], n) == (if same_ignoring_case(name, n) {
                Some(value)
            } else {
                None
            })
        }),
{
    let front = l + name + r;
    let back = l2 + value + r2;
    let line = front + seq![0x3au8] + back;
    assert forall|j: int| 0 <= j < front.len() implies front[j] != COLON by {
        if j < l.len() {
            assert(front[j] == l[j]);
        } else if j < l.len() + name.len() {
            assert(front[j] == name[j - l.len()]);
        } else {
            assert(front[j] == r[j - l.len() - name.len()]);
        }
    }
    lemma_index_of_is(line, COLON, front.len() as int);
    assert(before(line, COLON) =~= front);
    assert(after(line, COLON) =~= back);
    law_trimmed(l, name, r);
    law_trimmed(l2, value, r2);
    assert(seq![line].drop_first() =~= Seq::<Seq<u8>>::empty());
    assert(line_value(seq![line].drop_first(), n) is None);
}

} // verus!
