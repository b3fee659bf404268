//! Forms: `multipart/form-data` bodies, read in place. Backslash escapes in
//! quoted values are not processed, and the boundary is searched for as plain
//! bytes.
use vstd::prelude::*;
use vstd::slice::slice_subrange;
use vstd::string::*;

use crate::buf::{copy_bytes, decimal, lemma_concat_left, Out};
use crate::bytes::{
    after, at, before, blank, crlf, eq_ignore_ascii_case, find_byte, find_sub, index_of, is_alpha, is_blank, law_trimmed,
    lemma_find_prefix, lemma_find_sub, lemma_index_of_is, lemma_trim_back, lemma_trim_front, lower, memfind, occurs_at,
    same_ignoring_case, text, trim, trim_back, trim_front, trimmed, COLON, CR, DASH, EQUALS, LF, QUOTE, SEMI, SP,
};
use crate::http::{
    field_value, find_crlf, find_double_crlf, head_end_mark, header, lacks, lines_of, split_field, Request,
};

verus! {

/// Most parts of a form.
pub const MAX_PARTS: usize = 16;

/// Longest boundary.
pub const MAX_BOUNDARY: usize = 128;

/// Room for a boundary with the line end and the dashes before it.
const DELIMITER_CAP: usize = 132;

/// One part of a form.
#[derive(Clone, Copy)]
pub struct FormPart<'b> {
    pub name: &'b [u8],
    pub filename: Option<&'b [u8]>,
    pub content_type: &'b [u8],
    pub body: &'b [u8],
}

/// What the header lines of a part say.
#[verifier::ext_equal]
pub struct PartHead {
    pub name: Seq<u8>,
    pub filename: Option<Seq<u8>>,
    pub content_type: Seq<u8>,
}

// ---- parameters -------------------------------------------------------------

/// A parameter may start at `i`: at the very start, or behind a semicolon or a
/// blank.
pub open spec fn starts_param(hv: Seq<u8>, i: int) -> bool {
    i == 0 || hv[i - 1] == SEMI || is_blank(hv[i - 1])
}

/// The byte may belong to a key.
pub open spec fn in_key(b: u8) -> bool {
    b != EQUALS && b != SEMI && b != QUOTE && !is_blank(b)
}

/// `s` ends in a key that stands where a parameter may start.
pub open spec fn ends_in_key(s: Seq<u8>) -> bool
    decreases s.len(),
{
    s.len() > 0 && in_key(s.last()) && (starts_param(s, s.len() - 1) || ends_in_key(s.drop_last()))
}

/// What follows `s` is the value of a parameter: up to blanks, `s` ends in a key and
/// an equals sign.
pub open spec fn awaits_value(s: Seq<u8>) -> bool {
    let t = trim_back(s);
    t.len() > 0 && t.last() == EQUALS && ends_in_key(trim_back(t.drop_last()))
}

/// The byte at `i` stands inside a quoted value. A quote opens one only where a
/// value starts, and the next quote closes it.
pub open spec fn inside_quotes(hv: Seq<u8>, i: int) -> bool
    decreases i,
{
    i > 0 && if inside_quotes(hv, i - 1) {
        hv[i - 1] != QUOTE
    } else {
        hv[i - 1] == QUOTE && awaits_value(hv.take(i - 1))
    }
}

/// `key` stands at `i`, where a parameter may start, and not inside a quoted value.
pub open spec fn key_at(hv: Seq<u8>, i: int, key: Seq<u8>) -> bool {
    &&& 0 <= i
    &&& i + key.len() <= hv.len()
    &&& same_ignoring_case(hv.subrange(i, i + key.len()), key)
    &&& starts_param(hv, i)
    &&& !inside_quotes(hv, i)
}

/// The byte ends a value that is not quoted.
pub open spec fn ends_value(b: u8) -> bool {
    b == SEMI || is_blank(b) || b == CR || b == LF
}

/// The value that `s` starts with, up to a byte that ends it.
pub open spec fn bare_value(s: Seq<u8>) -> Seq<u8>
    decreases s.len(),
{
    if s.len() == 0 || ends_value(s[0]) {
        Seq::<u8>::empty()
    } else {
        seq![s[0]] + bare_value(s.drop_first())
    }
}

/// What follows a key: an equals sign and a value. `None` when there is no equals
/// sign, `Some(None)` when a quoted value has no end.
pub open spec fn assigned(s: Seq<u8>) -> Option<Option<Seq<u8>>> {
    let t = trim_front(s);
    if t.len() > 0 && t[0] == EQUALS {
        let v = trim_front(t.skip(1));
        if v.len() > 0 && v[0] == QUOTE {
            let inner = v.skip(1);
            if index_of(inner, QUOTE) < inner.len() {
                Some(Some(before(inner, QUOTE)))
            } else {
                Some(None)
            }
        } else {
            Some(Some(bare_value(v)))
        }
    } else {
        None
    }
}

/// The value of the first parameter with that key from index `i` on.
pub open spec fn param_from(hv: Seq<u8>, i: int, key: Seq<u8>) -> Option<Seq<u8>>
    decreases hv.len() - i,
{
    if i < 0 || i + key.len() > hv.len() {
        None
    } else if key_at(hv, i, key) && assigned(hv.skip(i + key.len())) is Some {
        assigned(hv.skip(i + key.len()))->0
    } else if i < hv.len() {
        param_from(hv, i + 1, key)
    } else {
        None
    }
}

/// The value of a parameter of a header value.
pub open spec fn param_value(hv: Seq<u8>, key: Seq<u8>) -> Option<Seq<u8>> {
    param_from(hv, 0, key)
}

/// The bytes of an optional slice.
pub open spec fn opt_bytes(r: Option<&[u8]>) -> Option<Seq<u8>> {
    match r {
        Some(s) => Some(s@),
        None => None,
    }
}

/// `s` from the first byte on that is no blank.
fn skip_blanks<'b>(s: &'b [u8]) -> (r: &'b [u8])
    ensures
        r@ == trim_front(s@),
{
    let mut i: usize = 0;
    while i < s.len() && blank(s[i])
        invariant
            i <= s@.len(),
            forall|j: int| 0 <= j < i ==> is_blank(#[trigger] s@[j]),
        ensures
            i < s@.len() ==> !is_blank(s@[i as int]),
        decreases s@.len() - i,
    {
        i += 1;
    }
    proof {
        lemma_trim_front(s@, i as int);
        assert(s@.subrange(i as int, s@.len() as int) =~= s@.skip(i as int));
    }
    slice_subrange(s, i, s.len())
}

/// `s` up to the last byte that is no blank.
fn drop_blanks<'b>(s: &'b [u8]) -> (r: &'b [u8])
    ensures
        r@ == trim_back(s@),
{
    let mut k: usize = s.len();
    while k > 0 && blank(s[k - 1])
        invariant
            k <= s@.len(),
            forall|j: int| k <= j < s@.len() ==> is_blank(#[trigger] s@[j]),
        ensures
            k > 0 ==> !is_blank(s@[k - 1]),
        decreases k,
    {
        k -= 1;
    }
    proof {
        lemma_trim_back(s@, k as int);
        assert(s@.subrange(0, k as int) =~= s@.take(k as int));
    }
    slice_subrange(s, 0, k)
}

/// Does `s` end in a key that stands where a parameter may start?
fn has_key(s: &[u8]) -> (r: bool)
    ensures
        r == ends_in_key(s@),
{
    let mut k: usize = s.len();
    assert(s@.take(k as int) =~= s@);
    while k > 0
        invariant
            k <= s@.len(),
            ends_in_key(s@) == ends_in_key(s@.take(k as int)),
        decreases k,
    {
        let ghost t = s@.take(k as int);
        let b: u8 = s[k - 1];
        assert(t.last() == b);
        assert(t.drop_last() =~= s@.take(k - 1));
        if b == EQUALS || b == SEMI || b == QUOTE || blank(b) {
            return false;
        }
        if k == 1 || s[k - 2] == SEMI || blank(s[k - 2]) {
            assert(starts_param(t, k - 1));
            return true;
        }
        k -= 1;
    }
    false
}

/// Is what follows `s` the value of a parameter?
fn before_value(s: &[u8]) -> (r: bool)
    ensures
        r == awaits_value(s@),
{
    let t = drop_blanks(s);
    if t.len() == 0 || t[t.len() - 1] != EQUALS {
        return false;
    }
    let key = slice_subrange(t, 0, t.len() - 1);
    assert(key@ =~= t@.drop_last());
    has_key(drop_blanks(key))
}

/// The unquoted value that `s` starts with.
fn take_value<'b>(s: &'b [u8]) -> (r: &'b [u8])
    ensures
        r@ == bare_value(s@),
{
    let mut k: usize = 0;
    assert(s@.skip(0) =~= s@);
    assert(s@.take(0) + bare_value(s@) =~= bare_value(s@));
    while k < s.len() && !(s[k] == SEMI || blank(s[k]) || s[k] == CR || s[k] == LF)
        invariant
            k <= s@.len(),
            s@.take(k as int) + bare_value(s@.skip(k as int)) == bare_value(s@),
        ensures
            k < s@.len() ==> ends_value(s@[k as int]),
        decreases s@.len() - k,
    {
        proof {
            let t = s@.skip(k as int);
            assert(t[0] == s@[k as int]);
            assert(t.drop_first() =~= s@.skip(k + 1));
            assert(s@.take(k + 1) + bare_value(s@.skip(k + 1)) =~= s@.take(k as int) + bare_value(t));
        }
        k += 1;
    }
    proof {
        assert(s@.take(k as int) + Seq::<u8>::empty() =~= s@.subrange(0, k as int));
    }
    slice_subrange(s, 0, k)
}

/// Reads what follows a key.
fn read_assigned<'b>(s: &'b [u8]) -> (r: Option<Option<&'b [u8]>>)
    ensures
        match r {
            Some(v) => assigned(s@) == Some(opt_bytes(v)),
            None => assigned(s@) is None,
        },
{
    let t = skip_blanks(s);
    if t.len() == 0 || t[0] != EQUALS {
        return None;
    }
    let t1 = slice_subrange(t, 1, t.len());
    assert(t1@ =~= t@.skip(1));
    let v = skip_blanks(t1);
    if v.len() > 0 && v[0] == QUOTE {
        let inner = slice_subrange(v, 1, v.len());
        assert(inner@ =~= v@.skip(1));
        match find_byte(inner, QUOTE) {
            Some(k) => {
                assert(inner@.subrange(0, k as int) =~= before(inner@, QUOTE));
                Some(Some(slice_subrange(inner, 0, k)))
            },
            None => Some(None),
        }
    } else {
        Some(Some(take_value(v)))
    }
}

/// Reads a parameter of a header value: `key=value` or `key="quoted value"`,
/// where a parameter may start. What stands inside a quoted value is no parameter.
pub fn param<'b>(hv: &'b [u8], key: &[u8]) -> (r: Option<&'b [u8]>)
    ensures
        opt_bytes(r) == param_value(hv@, key@),
{
    if key.len() > hv.len() {
        return None;
    }
    let last: usize = hv.len() - key.len();
    let mut i: usize = 0;
    let mut inside = false;
    while i <= last
        invariant
            last + key@.len() == hv@.len(),
            i <= last + 1,
            inside == inside_quotes(hv@, i as int),
            param_from(hv@, i as int, key@) == param_value(hv@, key@),
        decreases last + 1 - i,
    {
        assert(i + key@.len() <= hv.len());
        let starts = i == 0 || hv[i - 1] == SEMI || blank(hv[i - 1]);
        if starts && !inside && eq_ignore_ascii_case(slice_subrange(hv, i, i + key.len()), key) {
            let s = slice_subrange(hv, i + key.len(), hv.len());
            assert(s@ =~= hv@.skip(i + key@.len()));
            match read_assigned(s) {
                Some(v) => {
                    return v;
                },
                None => {},
            }
        }
        if i == hv.len() {
            return None;
        }
        if hv[i] == QUOTE {
            let start = slice_subrange(hv, 0, i);
            assert(start@ =~= hv@.take(i as int));
            inside = !inside && before_value(start);
        }
        i += 1;
    }
    None
}

// ---- parts ------------------------------------------------------------------

/// A part about which nothing has been said.
pub open spec fn plain_head() -> PartHead {
    PartHead { name: Seq::<u8>::empty(), filename: None, content_type: text("text/plain") }
}

/// What one more header line says of a part.
pub open spec fn with_line(h: PartHead, line: Seq<u8>) -> PartHead {
    let name = trimmed(before(line, COLON));
    let value = trimmed(after(line, COLON));
    if index_of(line, COLON) >= line.len() {
        h
    } else if same_ignoring_case(name, text("content-disposition")) {
        PartHead {
            name: match param_value(value, text("name")) {
                Some(n) => n,
                None => Seq::<u8>::empty(),
            },
            filename: param_value(value, text("filename")),
            content_type: h.content_type,
        }
    } else if same_ignoring_case(name, text("content-type")) {
        PartHead {
            name: h.name,
            filename: h.filename,
            content_type: if index_of(value, SEMI) < value.len() {
                trimmed(before(value, SEMI))
            } else {
                value
            },
        }
    } else {
        h
    }
}

/// What header lines say of a part, later lines over earlier ones.
pub open spec fn with_lines(h: PartHead, lines: Seq<Seq<u8>>) -> PartHead
    decreases lines.len(),
{
    if lines.len() == 0 {
        h
    } else {
        with_lines(with_line(h, lines[0]), lines.drop_first())
    }
}

/// What the header block of a part says.
pub open spec fn part_head(head: Seq<u8>) -> PartHead {
    with_lines(plain_head(), lines_of(head))
}

/// Reads the header block of a part: name, file name and content type.
pub fn parse_part_headers<'b>(head: &'b [u8]) -> (r: (&'b [u8], Option<&'b [u8]>, &'b [u8]))
    ensures
        part_head(head@) == (PartHead { name: r.0@, filename: opt_bytes(r.1), content_type: r.2@ }),
{
    let mut name: &'b [u8] = slice_subrange(head, 0, 0);
    let mut filename: Option<&'b [u8]> = None;
    let mut ctype: &'b [u8] = "text/plain".as_bytes();
    let mut rest = head;
    assert(name@ =~= Seq::<u8>::empty());
    while rest.len() > 0
        invariant
            part_head(head@) == with_lines(
                (PartHead { name: name@, filename: opt_bytes(filename), content_type: ctype@ }),
                lines_of(rest@),
            ),
        decreases rest@.len(),
    {
        let ghost lines = lines_of(rest@);
        let line: &'b [u8];
        let next: &'b [u8];
        match find_crlf(rest) {
            Some(p) => {
                line = slice_subrange(rest, 0, p);
                next = slice_subrange(rest, p + 2, rest.len());
                assert(line@ =~= rest@.take(p as int));
                assert(next@ =~= rest@.skip(p + 2));
            },
            None => {
                line = rest;
                next = slice_subrange(rest, rest.len(), rest.len());
                assert(lines_of(next@) =~= Seq::<Seq<u8>>::empty());
            },
        }
        assert(lines[0] == line@);
        assert(lines.drop_first() =~= lines_of(next@));
        rest = next;
        match split_field(line) {
            None => {},
            Some((hn, hv)) => {
                if eq_ignore_ascii_case(hn, "content-disposition".as_bytes()) {
                    name = match param(hv, "name".as_bytes()) {
                        Some(n) => n,
                        None => slice_subrange(head, 0, 0),
                    };
                    filename = param(hv, "filename".as_bytes());
                    assert(head@.subrange(0, 0) =~= Seq::<u8>::empty());
                } else if eq_ignore_ascii_case(hn, "content-type".as_bytes()) {
                    ctype = match find_byte(hv, SEMI) {
                        Some(p) => {
                            assert(hv@.subrange(0, p as int) =~= before(hv@, SEMI));
                            trim(slice_subrange(hv, 0, p))
                        },
                        None => hv,
                    };
                }
            },
        }
    }
    (name, filename, ctype)
}

/// The boundary that a form's Content-Type states, if it is one that is accepted.
pub open spec fn form_boundary(fields: Seq<(Seq<u8>, Seq<u8>)>) -> Option<Seq<u8>> {
    match field_value(fields, text("content-type")) {
        None => None,
        Some(ct) => if ct.len() < 19 || !same_ignoring_case(ct.take(19), text("multipart/form-data")) {
            None
        } else {
            match param_value(ct, text("boundary")) {
                Some(b) => if 0 < b.len() <= MAX_BOUNDARY {
                    Some(b)
                } else {
                    None
                },
                None => None,
            }
        },
    }
}

/// The boundary of the form in a request.
pub fn multipart_boundary<'a>(req: &'a Request<'a>) -> (r: Option<&'a [u8]>)
    requires
        req.wf(),
    ensures
        opt_bytes(r) == form_boundary(req.fields()),
{
    match header(req, "content-type") {
        None => None,
        Some(ct) => {
            let cb = ct.as_bytes();
            if cb.len() < 19 {
                return None;
            }
            let kind = slice_subrange(cb, 0, 19);
            assert(kind@ =~= cb@.take(19));
            if !eq_ignore_ascii_case(kind, "multipart/form-data".as_bytes()) {
                return None;
            }
            match param(cb, "boundary".as_bytes()) {
                Some(b) => {
                    if b.len() == 0 || b.len() > MAX_BOUNDARY {
                        None
                    } else {
                        Some(b)
                    }
                },
                None => None,
            }
        },
    }
}

/// A part: what its header says, and its bytes.
pub open spec fn part_of(p: FormPart) -> (PartHead, Seq<u8>) {
    (PartHead { name: p.name@, filename: opt_bytes(p.filename), content_type: p.content_type@ }, p.body@)
}

/// Two dashes.
pub open spec fn dashes() -> Seq<u8> {
    seq![DASH, DASH]
}

/// The delimiter line of a form, without its line end.
pub open spec fn delimiter(boundary: Seq<u8>) -> Seq<u8> {
    dashes() + boundary
}

/// The parts from the header block of a part on, at most `room` of them. Status
/// 413 where there are more, 400 where the framing is broken.
pub open spec fn parts_from(s: Seq<u8>, delim: Seq<u8>, room: int) -> Result<Seq<(PartHead, Seq<u8>)>, u16>
    decreases s.len(),
{
    if room <= 0 {
        Err(413)
    } else {
        match find_sub(s, head_end_mark()) {
            None => Err(400),
            Some(h) => {
                let rest = s.skip(h + 4);
                match find_sub(rest, crlf() + delim) {
                    None => Err(400),
                    Some(e) => {
                        let part = (part_head(s.take(h)), rest.take(e));
                        let next = rest.skip(e + 2 + delim.len());
                        if occurs_at(next, 0, dashes()) {
                            Ok(seq![part])
                        } else if !occurs_at(next, 0, crlf()) || next.len() >= s.len() {
                            Err(400)
                        } else {
                            match parts_from(next.skip(2), delim, room - 1) {
                                Ok(ps) => Ok(seq![part] + ps),
                                Err(status) => Err(status),
                            }
                        }
                    },
                }
            },
        }
    }
}

/// The parts of a form.
pub open spec fn form_parts(body: Seq<u8>, boundary: Seq<u8>, room: int) -> Result<Seq<(PartHead, Seq<u8>)>, u16> {
    let delim = delimiter(boundary);
    let next = body.skip(delim.len() as int);
    if !occurs_at(body, 0, delim) {
        Err(400)
    } else if occurs_at(next, 0, dashes()) {
        Ok(Seq::<(PartHead, Seq<u8>)>::empty())
    } else if !occurs_at(next, 0, crlf()) {
        Err(400)
    } else {
        parts_from(next.skip(2), delim, room)
    }
}

/// `needle` at an index is `needle` at the start of what is left.
proof fn lemma_occurs_skip(s: Seq<u8>, pos: int, needle: Seq<u8>)
    requires
        0 <= pos <= s.len(),
    ensures
        occurs_at(s, pos, needle) == occurs_at(s.skip(pos), 0, needle),
{
    if pos + needle.len() <= s.len() {
        assert(s.skip(pos).subrange(0, needle.len() as int) =~= s.subrange(pos, pos + needle.len()));
    }
}

/// Splits a form into its parts. They fill `parts` from the front.
pub fn parse_multipart<'b>(body: &'b [u8], boundary: &[u8], parts: &mut [FormPart<'b>]) -> (r: Result<usize, u16>)
    requires
        boundary@.len() <= MAX_BOUNDARY,
    ensures
        final(parts)@.len() == old(parts)@.len(),
        match form_parts(body@, boundary@, old(parts)@.len() as int) {
            Ok(ps) => {
                &&& r matches Ok(n) && n == ps.len() && n <= old(parts)@.len()
                &&& forall|i: int| 0 <= i < ps.len() ==> part_of(#[trigger] final(parts)@[i]) == ps[i]
                &&& forall|i: int| ps.len() <= i < old(parts)@.len() ==> #[trigger] final(parts)@[i] == old(parts)@[i]
            },
            Err(status) => r == Err::<usize, u16>(status),
        },
{
    let mut store: [u8; DELIMITER_CAP] = [0u8; DELIMITER_CAP];
    store[0] = CR;
    store[1] = LF;
    store[2] = DASH;
    store[3] = DASH;
    copy_bytes(&mut store, 4, boundary);
    let end: usize = 4 + boundary.len();
    let needle = slice_subrange(&store, 0, end);
    let delim = slice_subrange(&store, 2, end);
    let two_dashes: [u8; 2] = [DASH, DASH];
    let line_end: [u8; 2] = [CR, LF];
    proof {
        assert(delim@ =~= delimiter(boundary@));
        assert(needle@ =~= crlf() + delim@);
        assert(two_dashes@ =~= dashes());
        assert(line_end@ =~= crlf());
    }
    if !at(body, 0, delim) {
        return Err(400);
    }
    let mut pos: usize = delim.len();
    proof {
        lemma_occurs_skip(body@, pos as int, dashes());
        lemma_occurs_skip(body@, pos as int, crlf());
    }
    if at(body, pos, &two_dashes) {
        return Ok(0);
    }
    if !at(body, pos, &line_end) {
        return Err(400);
    }
    assert(body@.skip(pos as int).skip(2) =~= body@.skip(pos + 2));
    assert(pos + 2 <= body.len());
    pos += 2;
    let cap: usize = parts.len();
    let ghost slots = parts@;
    let ghost whole = form_parts(body@, boundary@, cap as int);
    let ghost mut done = Seq::<(PartHead, Seq<u8>)>::empty();
    proof {
        match whole {
            Ok(ps) => {
                assert(done + ps =~= ps);
            },
            Err(_) => {},
        }
    }
    let mut n: usize = 0;
    loop
        invariant
            pos <= body@.len(),
            n <= cap,
            cap == parts@.len(),
            cap == slots.len(),
            slots == old(parts)@,
            n == done.len(),
            needle@ == crlf() + delim@,
            needle@.len() <= DELIMITER_CAP,
            two_dashes@ == dashes(),
            line_end@ == crlf(),
            whole == form_parts(body@, boundary@, cap as int),
            forall|i: int| 0 <= i < n ==> part_of(#[trigger] parts@[i]) == done[i],
            forall|i: int| n <= i < cap ==> #[trigger] parts@[i] == slots[i],
            match parts_from(body@.skip(pos as int), delim@, cap - n) {
                Ok(ps) => whole == Ok::<Seq<(PartHead, Seq<u8>)>, u16>(done + ps),
                Err(status) => whole == Err::<Seq<(PartHead, Seq<u8>)>, u16>(status),
            },
        decreases body@.len() - pos,
    {
        if n == cap {
            return Err(413);
        }
        let tail = slice_subrange(body, pos, body.len());
        assert(tail@ =~= body@.skip(pos as int));
        let h: usize = match find_double_crlf(tail) {
            Some(p) => p,
            None => {
                return Err(400);
            },
        };
        let head = slice_subrange(tail, 0, h);
        assert(head@ =~= tail@.take(h as int));
        let (name, filename, content_type) = parse_part_headers(head);
        let rest = slice_subrange(tail, h + 4, tail.len());
        assert(rest@ =~= tail@.skip(h + 4));
        let e: usize = match memfind(rest, needle) {
            Some(p) => p,
            None => {
                return Err(400);
            },
        };
        let content = slice_subrange(rest, 0, e);
        assert(content@ =~= rest@.take(e as int));
        let part = FormPart { name, filename, content_type, body: content };
        parts[n] = part;
        n += 1;
        assert(e + needle@.len() <= rest.len());
        let next = slice_subrange(rest, e + needle.len(), rest.len());
        proof {
            assert(next@ =~= rest@.skip(e + 2 + delim@.len()));
            let before = done;
            done = done.push(part_of(part));
            assert(done =~= before + seq![part_of(part)]);
            match parts_from(next@.skip(2), delim@, cap - n) {
                Ok(ps) => {
                    assert(done + ps =~= before + (seq![part_of(part)] + ps));
                },
                Err(_) => {},
            }
        }
        if at(next, 0, &two_dashes) {
            return Ok(n);
        }
        if !at(next, 0, &line_end) {
            return Err(400);
        }
        assert(body.len() - next.len() + 2 <= body.len());
        pos = body.len() - next.len() + 2;
        proof {
            assert(body@.skip(pos as int) =~= next@.skip(2));
        }
    }
}

// ---- the summary ------------------------------------------------------------

/// The line that describes part `i`.
pub open spec fn part_line(i: nat, part: (PartHead, Seq<u8>)) -> Seq<u8> {
    text("part ") + decimal(i) + text(": name=\"") + part.0.name + text("\" filename=\"") + (match part.0.filename {
        Some(f) => f,
        None => text("-"),
    }) + text("\" type=\"") + part.0.content_type + text("\" size=") + decimal(part.1.len()) + text("\n")
}

/// The lines that describe the first `k` parts.
pub open spec fn part_lines(parts: Seq<(PartHead, Seq<u8>)>, k: nat) -> Seq<u8>
    decreases k,
{
    if k == 0 {
        Seq::<u8>::empty()
    } else {
        part_lines(parts, (k - 1) as nat) + part_line((k - 1) as nat, parts[k - 1])
    }
}

/// The answer to a form: its status when it is refused, and the text.
pub open spec fn upload_answer(fields: Seq<(Seq<u8>, Seq<u8>)>, body: Seq<u8>) -> (Result<(), u16>, Seq<u8>) {
    match form_boundary(fields) {
        None => (Err(400), text("bad multipart boundary\n")),
        Some(boundary) => match form_parts(body, boundary, MAX_PARTS as int) {
            Err(status) => (
                Err(status),
                if status == 413 {
                    text("too many parts\n")
                } else {
                    text("malformed multipart body\n")
                },
            ),
            Ok(parts) => (
                Ok(()),
                text("parts: ") + decimal(parts.len()) + text("\n") + part_lines(parts, parts.len()),
            ),
        },
    }
}

/// Appends the line that describes part `i`.
fn push_part_line(out: &mut Out, i: usize, p: &FormPart)
    requires
        old(out).wf(),
    ensures
        final(out).wf(),
        final(out).pushed() == old(out).pushed() + part_line(i as nat, part_of(*p)),
        final(out).capacity() == old(out).capacity(),
        final(final(out).buf)@ == final(old(out).buf)@,
{
    broadcast use lemma_concat_left;

    out.push_str("part ");
    out.push_u64(i as u64);
    out.push_str(": name=\"");
    out.push(p.name);
    out.push_str("\" filename=\"");
    match p.filename {
        Some(f) => out.push(f),
        None => out.push_str("-"),
    }
    out.push_str("\" type=\"");
    out.push(p.content_type);
    out.push_str("\" size=");
    out.push_u64(p.body.len() as u64);
    out.push_str("\n");
}

/// Reads the form in a request and appends a summary of its parts, or says why
/// not.
pub fn serve_upload(req: &Request, out: &mut Out) -> (r: Result<(), u16>)
    requires
        req.wf(),
        old(out).wf(),
    ensures
        final(out).wf(),
        r == upload_answer(req.fields(), req.body@).0,
        final(out).pushed() == old(out).pushed() + upload_answer(req.fields(), req.body@).1,
        final(out).capacity() == old(out).capacity(),
        final(final(out).buf)@ == final(old(out).buf)@,
{
    broadcast use lemma_concat_left;

    let boundary = match multipart_boundary(req) {
        Some(b) => b,
        None => {
            out.push_str("bad multipart boundary\n");
            return Err(400);
        },
    };
    let blank_part = FormPart {
        name: "".as_bytes(),
        filename: None,
        content_type: "text/plain".as_bytes(),
        body: "".as_bytes(),
    };
    let mut parts: [FormPart; MAX_PARTS] = [blank_part; MAX_PARTS];
    let n: usize = match parse_multipart(req.body, boundary, &mut parts) {
        Ok(n) => n,
        Err(s) => {
            out.push_str(
                if s == 413 {
                    "too many parts\n"
                } else {
                    "malformed multipart body\n"
                },
            );
            return Err(s);
        },
    };
    let ghost all = form_parts(req.body@, boundary@, MAX_PARTS as int)->Ok_0;
    out.push_str("parts: ");
    out.push_u64(n as u64);
    out.push_str("\n");
    let ghost head = out.pushed();
    assert(head + part_lines(all, 0) =~= head);
    let mut i: usize = 0;
    while i < n
        invariant
            i <= n <= MAX_PARTS,
            all.len() == n,
            forall|j: int| 0 <= j < n ==> part_of(#[trigger] parts@[j]) == all[j],
            out.wf(),
            out.pushed() == head + part_lines(all, i as nat),
            out.capacity() == old(out).capacity(),
            final(out.buf)@ == final(old(out).buf)@,
        decreases n - i,
    {
        push_part_line(out, i, &parts[i]);
        assert(out.pushed() =~= head + part_lines(all, (i + 1) as nat));
        i += 1;
    }
    Ok(())
}

// ---- laws -------------------------------------------------------------------

/// `v` in quotes.
pub open spec fn quoted(v: Seq<u8>) -> Seq<u8> {
    seq![QUOTE] + v + seq![QUOTE]
}

/// Bytes that are no quotes neither open nor close any.
proof fn lemma_quotes_run(hv: Seq<u8>, p: int, q: int)
    requires
        0 <= p <= q <= hv.len(),
        forall|j: int| p <= j < q ==> #[trigger] hv[j] != QUOTE,
    ensures
        forall|j: int| p <= j <= q ==> #[trigger] inside_quotes(hv, j) == inside_quotes(hv, p),
    decreases q - p,
{
    if p < q {
        lemma_quotes_run(hv, p, q - 1);
        assert(hv[q - 1] != QUOTE);
        assert(inside_quotes(hv, q) == inside_quotes(hv, q - 1));
    }
}

/// What stands in a quoted value is never taken for a parameter, and behind the
/// closing quote parameters may start again.
pub proof fn law_quoted_is_no_parameter(pre: Seq<u8>, v: Seq<u8>, post: Seq<u8>, key: Seq<u8>)
    requires
        !inside_quotes(pre + quoted(v) + post, pre.len() as int),
        awaits_value(pre),
        lacks(v, QUOTE),
    ensures
        forall|i: int|
            pre.len() < i < pre.len() + quoted(v).len() ==> !#[trigger] key_at(pre + quoted(v) + post, i, key),
        !inside_quotes(pre + quoted(v) + post, (pre.len() + quoted(v).len()) as int),
{
    let hv = pre + quoted(v) + post;
    let p = pre.len() as int;
    let q = p + 1 + v.len();
    assert(hv[p] == QUOTE);
    assert(hv[q] == QUOTE);
    assert(hv.take(p) =~= pre);
    assert forall|j: int| p + 1 <= j < q implies #[trigger] hv[j] != QUOTE by {
        assert(hv[j] == v[j - p - 1]);
    }
    assert(inside_quotes(hv, p + 1));
    lemma_quotes_run(hv, p + 1, q);
    assert(inside_quotes(hv, q));
    assert(!inside_quotes(hv, q + 1));
    assert forall|i: int| p < i < p + quoted(v).len() implies !#[trigger] key_at(hv, i, key) by {
        assert(inside_quotes(hv, i));
    }
}

/// Quotes that start no value hide nothing: where no value is quoted, every key that
/// stands where a parameter may start is found.
pub proof fn law_stray_quotes_hide_nothing(hv: Seq<u8>)
    requires
        forall|i: int| 0 <= i < hv.len() && #[trigger] hv[i] == QUOTE ==> !awaits_value(hv.take(i)),
    ensures
        forall|i: int| 0 <= i <= hv.len() ==> !#[trigger] inside_quotes(hv, i),
{
    assert forall|i: int| 0 <= i <= hv.len() implies !#[trigger] inside_quotes(hv, i) by {
        lemma_stray_quotes(hv, i);
    }
}

proof fn lemma_stray_quotes(hv: Seq<u8>, i: int)
    requires
        0 <= i <= hv.len(),
        forall|j: int| 0 <= j < hv.len() && #[trigger] hv[j] == QUOTE ==> !awaits_value(hv.take(j)),
    ensures
        !inside_quotes(hv, i),
    decreases i,
{
    if i > 0 {
        lemma_stray_quotes(hv, i - 1);
        assert(hv[i - 1] == QUOTE ==> !awaits_value(hv.take(i - 1)));
    }
}

/// A key behind a place where a parameter may start, and an equals sign, await a
/// value.
proof fn lemma_awaits_value(pre: Seq<u8>, key: Seq<u8>)
    requires
        pre.len() > 0,
        pre.last() == SP,
        key.len() > 0,
        forall|i: int| 0 <= i < key.len() ==> in_key(#[trigger] key[i]),
    ensures
        ends_in_key(pre + key),
        awaits_value(pre + key + seq![EQUALS]),
    decreases key.len(),
{
    let s = pre + key;
    let t = s + seq![EQUALS];
    assert(s.last() == key.last());
    if key.len() > 1 {
        let less = key.drop_last();
        assert forall|i: int| 0 <= i < less.len() implies in_key(#[trigger] less[i]) by {
            assert(less[i] == key[i]);
        }
        lemma_awaits_value(pre, less);
        assert(s.drop_last() =~= pre + less);
    } else {
        assert(s[s.len() - 2] == SP);
    }
    assert(trim_back(t) == t);
    assert(t.drop_last() =~= s);
    assert(trim_back(s) == s);
}

/// The scan for a key goes on behind places where it does not stand.
proof fn lemma_param_skips(hv: Seq<u8>, i: int, j: int, key: Seq<u8>)
    requires
        0 <= i <= j,
        j + key.len() <= hv.len(),
        forall|k: int| i <= k < j ==> !#[trigger] key_at(hv, k, key),
    ensures
        param_from(hv, i, key) == param_from(hv, j, key),
    decreases j - i,
{
    if i < j {
        assert(!key_at(hv, i, key));
        lemma_param_skips(hv, i + 1, j, key);
    }
}

/// A quoted value reads back.
proof fn lemma_assigned_quoted(v: Seq<u8>, t: Seq<u8>)
    requires
        lacks(v, QUOTE),
    ensures
        assigned(seq![EQUALS] + quoted(v) + t) == Some(Some(v)),
{
    let s = seq![EQUALS] + quoted(v) + t;
    let w = s.skip(1);
    let inner = w.skip(1);
    assert(trim_front(s) == s);
    assert(w[0] == QUOTE);
    assert(trim_front(w) == w);
    assert forall|j: int| 0 <= j < v.len() implies inner[j] != QUOTE by {
        assert(inner[j] == v[j]);
    }
    assert(inner[v.len() as int] == QUOTE);
    lemma_index_of_is(inner, QUOTE, v.len() as int);
    assert(before(inner, QUOTE) =~= v);
}

/// A header value with two quoted parameters.
pub open spec fn two_params(pre: Seq<u8>, k1: Seq<u8>, v1: Seq<u8>, k2: Seq<u8>, v2: Seq<u8>) -> Seq<u8> {
    pre + k1 + seq![EQUALS] + quoted(v1) + seq![SEMI, SP] + k2 + seq![EQUALS] + quoted(v2)
}

/// A quoted parameter reads back where its key does not stand any earlier.
proof fn lemma_quoted_param(front: Seq<u8>, key: Seq<u8>, v: Seq<u8>, back: Seq<u8>)
    requires
        front.len() > 0,
        front.last() == SP,
        lacks(v, QUOTE),
        ({
            let hv = front + key + seq![EQUALS] + quoted(v) + back;
            &&& !inside_quotes(hv, front.len() as int)
            &&& forall|i: int| 0 <= i < front.len() ==> !#[trigger] key_at(hv, i, key)
        }),
    ensures
        param_value(front + key + seq![EQUALS] + quoted(v) + back, key) == Some(v),
{
    let hv = front + key + seq![EQUALS] + quoted(v) + back;
    let a = front.len() as int;
    assert(hv.subrange(a, a + key.len()) =~= key);
    assert(hv[a - 1] == SP);
    assert(key_at(hv, a, key));
    assert(hv.skip(a + key.len()) =~= seq![EQUALS] + quoted(v) + back);
    lemma_assigned_quoted(v, back);
    lemma_param_skips(hv, 0, a, key);
}

/// A key that does not stand before a quoted value does not stand before the
/// parameter behind it.
proof fn lemma_behind_quoted(front: Seq<u8>, v: Seq<u8>, back: Seq<u8>, key: Seq<u8>)
    requires
        front.len() > 0,
        front.last() == EQUALS,
        awaits_value(front),
        lacks(front, QUOTE),
        lacks(v, QUOTE),
        key.len() > 0,
        is_alpha(key[0]),
        back.len() >= 2,
        back[0] == SEMI,
        back[1] == SP,
        forall|i: int| 0 <= i < front.len() ==> !#[trigger] key_at(front + quoted(v) + back, i, key),
    ensures
        ({
            let hv = front + quoted(v) + back;
            let c = front.len() + quoted(v).len() + 2;
            &&& !inside_quotes(hv, c as int)
            &&& forall|i: int| 0 <= i < c ==> !#[trigger] key_at(hv, i, key)
        }),
{
    let hv = front + quoted(v) + back;
    let p = front.len() as int;
    let c = p + quoted(v).len();
    assert forall|j: int| 0 <= j < p implies #[trigger] hv[j] != QUOTE by {
        assert(hv[j] == front[j]);
    }
    lemma_quotes_run(hv, 0, p);
    assert(!inside_quotes(hv, 0));
    assert(!inside_quotes(hv, p));
    law_quoted_is_no_parameter(front, v, back, key);
    assert(hv[p - 1] == EQUALS && hv[c - 1] == QUOTE && hv[c] == SEMI && hv[c + 1] == SP);
    lemma_quotes_run(hv, c, c + 2);
    assert(inside_quotes(hv, c + 2) == inside_quotes(hv, c));
    assert forall|i: int| 0 <= i < c + 2 implies !#[trigger] key_at(hv, i, key) by {
        if i == c + 1 && key_at(hv, i, key) {
            assert(hv.subrange(i, i + key.len())[0] == SP);
        }
    }
}

/// Both parameters read back, where neither key stands any earlier.
proof fn lemma_two_params(pre: Seq<u8>, k1: Seq<u8>, v1: Seq<u8>, k2: Seq<u8>, v2: Seq<u8>)
    requires
        pre.len() > 0,
        pre.last() == SP,
        lacks(pre, QUOTE),
        lacks(v1, QUOTE),
        lacks(v2, QUOTE),
        k1.len() > 0,
        forall|i: int| 0 <= i < k1.len() ==> in_key(#[trigger] k1[i]),
        k2.len() > 0,
        is_alpha(k2[0]),
        forall|i: int| 0 <= i < pre.len() ==> !#[trigger] key_at(two_params(pre, k1, v1, k2, v2), i, k1),
        forall|i: int| 0 <= i <= pre.len() + k1.len() ==> !#[trigger] key_at(two_params(pre, k1, v1, k2, v2), i, k2),
    ensures
        param_value(two_params(pre, k1, v1, k2, v2), k1) == Some(v1),
        param_value(two_params(pre, k1, v1, k2, v2), k2) == Some(v2),
{
    let hv = two_params(pre, k1, v1, k2, v2);
    let none = Seq::<u8>::empty();
    let a = pre.len() as int;
    let front = pre + k1 + seq![EQUALS];
    let back = seq![SEMI, SP] + k2 + seq![EQUALS] + quoted(v2);
    assert(lacks(front, QUOTE)) by {
        assert forall|i: int| 0 <= i < front.len() implies #[trigger] front[i] != QUOTE by {
            if i < a {
                assert(front[i] == pre[i]);
            } else if i < a + k1.len() {
                assert(in_key(k1[i - a]));
                assert(front[i] == k1[i - a]);
            }
        }
    }
    assert(hv =~= front + quoted(v1) + back);
    assert(hv =~= pre + k1 + seq![EQUALS] + quoted(v1) + back);
    assert(!inside_quotes(hv, a)) by {
        assert forall|j: int| 0 <= j < a implies #[trigger] hv[j] != QUOTE by {
            assert(hv[j] == pre[j]);
        }
        lemma_quotes_run(hv, 0, a);
        assert(!inside_quotes(hv, 0));
    }
    lemma_quoted_param(pre, k1, v1, back);
    lemma_awaits_value(pre, k1);
    lemma_behind_quoted(front, v1, back, k2);
    let ahead = front + quoted(v1) + seq![SEMI, SP];
    assert(hv =~= ahead + k2 + seq![EQUALS] + quoted(v2) + none);
    lemma_quoted_param(ahead, k2, v2, none);
}

/// `form-data; ` with its space.
spec fn disposition_start() -> Seq<u8> {
    seq![0x66u8, 0x6f, 0x72, 0x6d, 0x2d, 0x64, 0x61, 0x74, 0x61, 0x3b, 0x20]
}

/// In `form-data; ` and inside the key behind it no other key starts.
proof fn lemma_disposition_keys(hv: Seq<u8>, k1: Seq<u8>, key: Seq<u8>)
    requires
        hv.len() >= 12 + k1.len(),
        hv.take(11) == disposition_start(),
        hv.subrange(11, 11int + k1.len()) == k1,
        forall|i: int| 0 <= i < k1.len() ==> is_alpha(#[trigger] k1[i]),
        key.len() >= 2,
        is_alpha(key[0]),
        lower(key[1]) != 0x6f,
    ensures
        forall|i: int| 0 <= i < 11 ==> !#[trigger] key_at(hv, i, key),
        forall|i: int| 11 < i <= 11 + k1.len() ==> !#[trigger] key_at(hv, i, key),
{
    assert forall|i: int| 0 <= i < 11 implies !#[trigger] key_at(hv, i, key) by {
        let sub = hv.subrange(i, i + key.len());
        assert(hv[i] == hv.take(11)[i]);
        if i > 0 {
            assert(hv[i - 1] == hv.take(11)[i - 1]);
        } else {
            assert(hv[1] == hv.take(11)[1]);
        }
        if key_at(hv, i, key) {
            assert(sub[0] == hv[i]);
            assert(sub[1] == hv[i + 1]);
        }
    }
    assert forall|i: int| 11 < i <= 11 + k1.len() implies !#[trigger] key_at(hv, i, key) by {
        assert(hv[i - 1] == k1[i - 12]);
    }
}

/// Two parameters behind `form-data; ` read back when their keys start differently.
proof fn lemma_disposition(k1: Seq<u8>, v1: Seq<u8>, k2: Seq<u8>, v2: Seq<u8>)
    requires
        lacks(v1, QUOTE),
        lacks(v2, QUOTE),
        k1.len() >= 2,
        k2.len() >= 2,
        forall|i: int| 0 <= i < k1.len() ==> is_alpha(#[trigger] k1[i]),
        is_alpha(k2[0]),
        lower(k1[1]) != 0x6f,
        lower(k2[1]) != 0x6f,
        lower(k1[0]) != lower(k2[0]),
    ensures
        param_value(two_params(disposition_start(), k1, v1, k2, v2), k1) == Some(v1),
        param_value(two_params(disposition_start(), k1, v1, k2, v2), k2) == Some(v2),
{
    let pre = disposition_start();
    let hv = two_params(pre, k1, v1, k2, v2);
    assert(is_alpha(k1[0]));
    assert(hv.take(11) =~= pre);
    assert(hv.subrange(11, 11int + k1.len()) =~= k1);
    lemma_disposition_keys(hv, k1, k1);
    lemma_disposition_keys(hv, k1, k2);
    assert(!key_at(hv, 11, k2)) by {
        if key_at(hv, 11, k2) {
            assert(hv[11] == hv.subrange(11, 11int + k1.len())[0]);
            assert(hv.subrange(11, 11int + k2.len())[0] == k1[0]);
        }
    }
    lemma_two_params(pre, k1, v1, k2, v2);
}

/// The name and the file name of a part read back in both orders, whatever stands
/// in the quotes: `name=` is not found inside `filename=`, nor inside its value.
#[verifier::rlimit(60)]
#[verifier::spinoff_prover]
pub proof fn law_name_and_filename(name: Seq<u8>, file: Seq<u8>)
    requires
        lacks(name, QUOTE),
        lacks(file, QUOTE),
    ensures
        ({
            let hv = two_params(text("form-data; "), text("name"), name, text("filename"), file);
            param_value(hv, text("name")) == Some(name) && param_value(hv, text("filename")) == Some(file)
        }),
        ({
            let hv = two_params(text("form-data; "), text("filename"), file, text("name"), name);
            param_value(hv, text("name")) == Some(name) && param_value(hv, text("filename")) == Some(file)
        }),
{
    reveal_strlit("form-data; ");
    reveal_strlit("name");
    reveal_strlit("filename");
    is_ascii_spec_bytes("form-data; ");
    is_ascii_spec_bytes("name");
    is_ascii_spec_bytes("filename");
    assert(text("form-data; ") =~= disposition_start());
    assert(text("name") =~= seq![0x6eu8, 0x61, 0x6d, 0x65]);
    assert(text("filename") =~= seq![0x66u8, 0x69, 0x6c, 0x65, 0x6e, 0x61, 0x6d, 0x65]);
    lemma_disposition(text("name"), name, text("filename"), file);
    lemma_disposition(text("filename"), file, text("name"), name);
}

/// A form on the wire from the header block of its first part on: each part is a
/// header block, a blank line, its bytes and a delimiter line.
pub open spec fn form_tail(heads: Seq<Seq<u8>>, bodies: Seq<Seq<u8>>, delim: Seq<u8>) -> Seq<u8>
    decreases heads.len(),
{
    if heads.len() <= 1 {
        heads[0] + head_end_mark() + bodies[0] + (crlf() + delim) + dashes()
    } else {
        heads[0] + head_end_mark() + bodies[0] + (crlf() + delim) + crlf() + form_tail(
            heads.drop_first(),
            bodies.drop_first(),
            delim,
        )
    }
}

/// A form on the wire.
pub open spec fn form_text(heads: Seq<Seq<u8>>, bodies: Seq<Seq<u8>>, boundary: Seq<u8>) -> Seq<u8> {
    delimiter(boundary) + crlf() + form_tail(heads, bodies, delimiter(boundary))
}

/// The parts that a form is made of.
pub open spec fn described(heads: Seq<Seq<u8>>, bodies: Seq<Seq<u8>>) -> Seq<(PartHead, Seq<u8>)> {
    Seq::new(heads.len(), |i: int| (part_head(heads[i]), bodies[i]))
}

/// A header block that holds no blank line, not even with the one that ends it.
pub open spec fn plain_block(head: Seq<u8>) -> bool {
    find_sub(head + head_end_mark(), head_end_mark()) == Some(head.len() as int)
}

/// Bytes that hold no delimiter, not even with the one that ends them.
pub open spec fn plain_bytes(body: Seq<u8>, delim: Seq<u8>) -> bool {
    find_sub(body + (crlf() + delim), crlf() + delim) == Some(body.len() as int)
}

/// One part on the wire, with the delimiter behind it.
pub open spec fn part_text(head: Seq<u8>, body: Seq<u8>, delim: Seq<u8>) -> Seq<u8> {
    head + head_end_mark() + body + (crlf() + delim)
}

/// A part is read up to the delimiter behind it; what comes then decides the rest.
proof fn lemma_part_read(head: Seq<u8>, body: Seq<u8>, delim: Seq<u8>, after: Seq<u8>, room: int)
    requires
        room > 0,
        plain_block(head),
        plain_bytes(body, delim),
    ensures
        parts_from(part_text(head, body, delim) + after, delim, room) == (if occurs_at(after, 0, dashes()) {
            Ok::<Seq<(PartHead, Seq<u8>)>, u16>(seq![(part_head(head), body)])
        } else if !occurs_at(after, 0, crlf()) {
            Err::<Seq<(PartHead, Seq<u8>)>, u16>(400)
        } else {
            match parts_from(after.skip(2), delim, room - 1) {
                Ok(ps) => Ok::<Seq<(PartHead, Seq<u8>)>, u16>(seq![(part_head(head), body)] + ps),
                Err(status) => Err::<Seq<(PartHead, Seq<u8>)>, u16>(status),
            }
        }),
{
    let mark = head_end_mark();
    let needle = crlf() + delim;
    let s = part_text(head, body, delim) + after;
    let rest = body + needle + after;
    assert(s =~= (head + mark) + rest);
    lemma_find_prefix(head + mark, rest, mark);
    lemma_find_prefix(body + needle, after, needle);
    assert(s.take(head.len() as int) =~= head);
    assert(s.skip(head.len() as int + 4) =~= rest);
    assert(rest.take(body.len() as int) =~= body);
    assert(rest.skip(body.len() as int + 2 + delim.len()) =~= after);
}

/// The parts behind the first are as plain as all of them.
proof fn lemma_plain_tails(heads: Seq<Seq<u8>>, bodies: Seq<Seq<u8>>, delim: Seq<u8>)
    requires
        heads.len() > 0,
        bodies.len() == heads.len(),
        forall|i: int| 0 <= i < heads.len() ==> plain_block(#[trigger] heads[i]),
        forall|i: int| 0 <= i < heads.len() ==> plain_bytes(#[trigger] bodies[i], delim),
    ensures
        forall|i: int| 0 <= i < heads.len() - 1 ==> plain_block(#[trigger] heads.drop_first()[i]),
        forall|i: int| 0 <= i < heads.len() - 1 ==> plain_bytes(#[trigger] bodies.drop_first()[i], delim),
{
    assert forall|i: int| 0 <= i < heads.len() - 1 implies plain_block(#[trigger] heads.drop_first()[i]) by {
        assert(heads.drop_first()[i] == heads[i + 1]);
    }
    assert forall|i: int| 0 <= i < heads.len() - 1 implies plain_bytes(#[trigger] bodies.drop_first()[i], delim) by {
        assert(bodies.drop_first()[i] == bodies[i + 1]);
    }
}

proof fn lemma_form_tail(heads: Seq<Seq<u8>>, bodies: Seq<Seq<u8>>, delim: Seq<u8>, t: Seq<u8>, room: int)
    requires
        0 < heads.len() <= room,
        bodies.len() == heads.len(),
        forall|i: int| 0 <= i < heads.len() ==> plain_block(#[trigger] heads[i]),
        forall|i: int| 0 <= i < heads.len() ==> plain_bytes(#[trigger] bodies[i], delim),
    ensures
        parts_from(form_tail(heads, bodies, delim) + t, delim, room) == Ok::<Seq<(PartHead, Seq<u8>)>, u16>(
            described(heads, bodies),
        ),
    decreases heads.len(),
{
    let hs = heads.drop_first();
    let bs = bodies.drop_first();
    let last = heads.len() == 1;
    let more = form_tail(hs, bs, delim) + t;
    let after = if last {
        dashes() + t
    } else {
        crlf() + more
    };
    let part = (part_head(heads[0]), bodies[0]);
    assert(plain_block(heads[0]));
    assert(plain_bytes(bodies[0], delim));
    assert(form_tail(heads, bodies, delim) + t =~= part_text(heads[0], bodies[0], delim) + after);
    lemma_part_read(heads[0], bodies[0], delim, after, room);
    if last {
        assert(after.subrange(0, 2) =~= dashes());
        assert(seq![part] =~= described(heads, bodies));
    } else {
        assert(after.subrange(0, 2) =~= crlf());
        assert(after.subrange(0, 2)[0] == CR);
        assert(after.skip(2) =~= more);
        lemma_plain_tails(heads, bodies, delim);
        lemma_form_tail(hs, bs, delim, t, room - 1);
        assert(seq![part] + described(hs, bs) =~= described(heads, bodies));
    }
}

/// A form reads back as the parts it was made of, in order, whatever follows its
/// closing delimiter, as long as there are at most `room` parts, no header block
/// holds a blank line, and no part holds the delimiter.
pub proof fn law_form_round_trip(
    heads: Seq<Seq<u8>>,
    bodies: Seq<Seq<u8>>,
    boundary: Seq<u8>,
    epilogue: Seq<u8>,
    room: int,
)
    requires
        0 < heads.len() <= room,
        bodies.len() == heads.len(),
        forall|i: int| 0 <= i < heads.len() ==> plain_block(#[trigger] heads[i]),
        forall|i: int| 0 <= i < heads.len() ==> plain_bytes(#[trigger] bodies[i], delimiter(boundary)),
    ensures
        form_parts(form_text(heads, bodies, boundary) + epilogue, boundary, room) == Ok::<
            Seq<(PartHead, Seq<u8>)>,
            u16,
        >(described(heads, bodies)),
{
    let delim = delimiter(boundary);
    let tail = form_tail(heads, bodies, delim) + epilogue;
    let body = form_text(heads, bodies, boundary) + epilogue;
    let next = body.skip(delim.len() as int);
    assert(body =~= delim + (crlf() + tail));
    assert(body.subrange(0, delim.len() as int) =~= delim);
    assert(next =~= crlf() + tail);
    assert(next.subrange(0, 2) =~= crlf());
    assert(next.subrange(0, 2)[0] == CR);
    assert(next.skip(2) =~= tail);
    lemma_form_tail(heads, bodies, delim, epilogue, room);
}

/// A form with more parts than there is room for is refused with 413, whatever
/// follows its closing delimiter.
pub proof fn law_too_many_parts(
    heads: Seq<Seq<u8>>,
    bodies: Seq<Seq<u8>>,
    boundary: Seq<u8>,
    epilogue: Seq<u8>,
    room: int,
)
    requires
        0 <= room < heads.len(),
        bodies.len() == heads.len(),
        forall|i: int| 0 <= i < heads.len() ==> plain_block(#[trigger] heads[i]),
        forall|i: int| 0 <= i < heads.len() ==> plain_bytes(#[trigger] bodies[i], delimiter(boundary)),
    ensures
        form_parts(form_text(heads, bodies, boundary) + epilogue, boundary, room) == Err::<
            Seq<(PartHead, Seq<u8>)>,
            u16,
        >(413),
{
    let delim = delimiter(boundary);
    let tail = form_tail(heads, bodies, delim) + epilogue;
    let body = form_text(heads, bodies, boundary) + epilogue;
    let next = body.skip(delim.len() as int);
    assert(body =~= delim + (crlf() + tail));
    assert(body.subrange(0, delim.len() as int) =~= delim);
    assert(next =~= crlf() + tail);
    assert(next.subrange(0, 2) =~= crlf());
    assert(next.subrange(0, 2)[0] == CR);
    assert(next.skip(2) =~= tail);
    lemma_form_overfull(heads, bodies, delim, epilogue, room);
}

proof fn lemma_form_overfull(heads: Seq<Seq<u8>>, bodies: Seq<Seq<u8>>, delim: Seq<u8>, t: Seq<u8>, room: int)
    requires
        0 <= room < heads.len(),
        bodies.len() == heads.len(),
        forall|i: int| 0 <= i < heads.len() ==> plain_block(#[trigger] heads[i]),
        forall|i: int| 0 <= i < heads.len() ==> plain_bytes(#[trigger] bodies[i], delim),
    ensures
        parts_from(form_tail(heads, bodies, delim) + t, delim, room) == Err::<Seq<(PartHead, Seq<u8>)>, u16>(413),
    decreases heads.len(),
{
    if room > 0 {
        let hs = heads.drop_first();
        let bs = bodies.drop_first();
        let more = form_tail(hs, bs, delim) + t;
        assert(plain_block(heads[0]));
        assert(plain_bytes(bodies[0], delim));
        assert(form_tail(heads, bodies, delim) + t =~= part_text(heads[0], bodies[0], delim) + (crlf() + more));
        lemma_part_read(heads[0], bodies[0], delim, crlf() + more, room);
        assert((crlf() + more).subrange(0, 2) =~= crlf());
        assert((crlf() + more).subrange(0, 2)[0] == CR);
        assert((crlf() + more).skip(2) =~= more);
        lemma_plain_tails(heads, bodies, delim);
        lemma_form_overfull(hs, bs, delim, t, room - 1);
    }
}

/// A needle is not found in what stops before its end.
proof fn lemma_find_cut(s: Seq<u8>, n: int, needle: Seq<u8>)
    requires
        find_sub(s, needle) matches Some(p) && n < p + needle.len(),
        0 <= n <= s.len(),
    ensures
        find_sub(s.take(n), needle) is None,
{
    if find_sub(s.take(n), needle) is Some {
        lemma_find_sub(s.take(n), needle);
        lemma_find_prefix(s.take(n), s.skip(n), needle);
        assert(s.take(n) + s.skip(n) =~= s);
    }
}

/// A part that stops before the end of the delimiter behind it is refused.
proof fn lemma_part_cut(head: Seq<u8>, body: Seq<u8>, delim: Seq<u8>, n: int, room: int)
    requires
        room > 0,
        plain_block(head),
        plain_bytes(body, delim),
        0 <= n < part_text(head, body, delim).len(),
    ensures
        parts_from(part_text(head, body, delim).take(n), delim, room) == Err::<Seq<(PartHead, Seq<u8>)>, u16>(400),
{
    let mark = head_end_mark();
    let needle = crlf() + delim;
    let whole = part_text(head, body, delim);
    let s = whole.take(n);
    let h = head.len() as int;
    assert(whole =~= (head + mark) + (body + needle));
    lemma_find_prefix(head + mark, body + needle, mark);
    if n < h + 4 {
        lemma_find_cut(whole, n, mark);
    } else {
        let rest = (body + needle).take(n - h - 4);
        assert(s =~= (head + mark) + rest);
        lemma_find_prefix(head + mark, rest, mark);
        assert(s.skip(h + 4) =~= rest);
        lemma_find_cut(body + needle, n - h - 4, needle);
    }
}

proof fn lemma_form_cut(heads: Seq<Seq<u8>>, bodies: Seq<Seq<u8>>, delim: Seq<u8>, n: int, room: int)
    requires
        0 < heads.len() <= room,
        bodies.len() == heads.len(),
        forall|i: int| 0 <= i < heads.len() ==> plain_block(#[trigger] heads[i]),
        forall|i: int| 0 <= i < heads.len() ==> plain_bytes(#[trigger] bodies[i], delim),
        0 <= n < form_tail(heads, bodies, delim).len(),
    ensures
        parts_from(form_tail(heads, bodies, delim).take(n), delim, room) == Err::<Seq<(PartHead, Seq<u8>)>, u16>(400),
    decreases heads.len(),
{
    let first = part_text(heads[0], bodies[0], delim);
    let m = first.len() as int;
    let hs = heads.drop_first();
    let bs = bodies.drop_first();
    let last = heads.len() == 1;
    let behind = if last {
        dashes()
    } else {
        crlf() + form_tail(hs, bs, delim)
    };
    let s = form_tail(heads, bodies, delim).take(n);
    assert(form_tail(heads, bodies, delim) =~= first + behind);
    assert(plain_block(heads[0]));
    assert(plain_bytes(bodies[0], delim));
    if n < m {
        assert(s =~= first.take(n));
        lemma_part_cut(heads[0], bodies[0], delim, n, room);
    } else {
        let after = behind.take(n - m);
        assert(s =~= first + after);
        lemma_part_read(heads[0], bodies[0], delim, after, room);
        if !last && n >= m + 2 {
            let k = n - m - 2;
            assert(after =~= crlf() + form_tail(hs, bs, delim).take(k));
            assert(after.subrange(0, 2) =~= crlf());
            assert(after.subrange(0, 2)[0] == CR);
            assert(after.skip(2) =~= form_tail(hs, bs, delim).take(k));
            lemma_plain_tails(heads, bodies, delim);
            lemma_form_cut(hs, bs, delim, k, room - 1);
        }
    }
}

/// A form that stops anywhere before the end of its closing delimiter is refused
/// with 400.
pub proof fn law_truncated_form(heads: Seq<Seq<u8>>, bodies: Seq<Seq<u8>>, boundary: Seq<u8>, n: int, room: int)
    requires
        0 < heads.len() <= room,
        bodies.len() == heads.len(),
        forall|i: int| 0 <= i < heads.len() ==> plain_block(#[trigger] heads[i]),
        forall|i: int| 0 <= i < heads.len() ==> plain_bytes(#[trigger] bodies[i], delimiter(boundary)),
        0 <= n < form_text(heads, bodies, boundary).len(),
    ensures
        form_parts(form_text(heads, bodies, boundary).take(n), boundary, room) == Err::<
            Seq<(PartHead, Seq<u8>)>,
            u16,
        >(400),
{
    let delim = delimiter(boundary);
    let d = delim.len() as int;
    let tail = form_tail(heads, bodies, delim);
    let body = form_text(heads, bodies, boundary).take(n);
    let next = body.skip(d);
    assert(form_text(heads, bodies, boundary) =~= delim + (crlf() + tail));
    if n >= d {
        assert(body.subrange(0, d) =~= delim);
        assert(next =~= (crlf() + tail).take(n - d));
        if n >= d + 2 {
            assert(next.subrange(0, 2) =~= crlf());
            assert(next.subrange(0, 2)[0] == CR);
            assert(next.skip(2) =~= tail.take(n - d - 2));
            lemma_form_cut(heads, bodies, delim, n - d - 2, room);
        }
    }
}

proof fn lemma_parts_status(s: Seq<u8>, delim: Seq<u8>, room: int)
    ensures
        parts_from(s, delim, room) matches Err(status) ==> status == 400 || status == 413,
    decreases s.len(),
{
    if room > 0 {
        if let Some(h) = find_sub(s, head_end_mark()) {
            let rest = s.skip(h + 4);
            if let Some(e) = find_sub(rest, crlf() + delim) {
                let next = rest.skip(e + 2 + delim.len());
                if occurs_at(next, 0, crlf()) && next.len() < s.len() {
                    lemma_parts_status(next.skip(2), delim, room - 1);
                }
            }
        }
    }
}

/// A form is refused with 400 or 413, and with nothing else.
pub proof fn law_upload_status(fields: Seq<(Seq<u8>, Seq<u8>)>, body: Seq<u8>)
    ensures
        upload_answer(fields, body).0 matches Err(status) ==> status == 400 || status == 413,
{
    if let Some(boundary) = form_boundary(fields) {
        let delim = delimiter(boundary);
        lemma_parts_status(body.skip(delim.len() as int).skip(2), delim, MAX_PARTS as int);
    }
}

// ---- laws of parameters and summaries ---------------------------------------

/// A value without quotes reads back up to the byte that ends it.
proof fn lemma_bare_value(v: Seq<u8>, t: Seq<u8>)
    requires
        forall|i: int| 0 <= i < v.len() ==> !ends_value(#[trigger] v[i]),
        t.len() > 0 ==> ends_value(t[0]),
    ensures
        bare_value(v + t) == v,
    decreases v.len(),
{
    let s = v + t;
    if v.len() == 0 {
        assert(s =~= t);
        assert(v =~= Seq::<u8>::empty());
    } else {
        let less = v.drop_first();
        assert(s[0] == v[0]);
        assert(!ends_value(v[0]));
        assert forall|i: int| 0 <= i < less.len() implies !ends_value(#[trigger] less[i]) by {
            assert(less[i] == v[i + 1]);
        }
        lemma_bare_value(less, t);
        assert(s.drop_first() =~= less + t);
        assert(seq![v[0]] + less =~= v);
    }
}

proof fn lemma_assigned_bare(v: Seq<u8>, t: Seq<u8>)
    requires
        v.len() > 0,
        v[0] != QUOTE,
        forall|i: int| 0 <= i < v.len() ==> !ends_value(#[trigger] v[i]),
        t.len() > 0 ==> ends_value(t[0]),
    ensures
        assigned(seq![EQUALS] + v + t) == Some(Some(v)),
{
    let s = seq![EQUALS] + v + t;
    assert(trim_front(s) == s);
    assert(s.skip(1) =~= v + t);
    assert((v + t)[0] == v[0]);
    assert(!ends_value(v[0]));
    assert(trim_front(v + t) == v + t);
    lemma_bare_value(v, t);
}

/// A Content-Type for forms with the boundary written as `written`, and further
/// parameters behind it.
pub open spec fn form_type(written: Seq<u8>, t: Seq<u8>) -> Seq<u8> {
    text("multipart/form-data; boundary=") + written + t
}

/// The first place where `boundary` stands in such a value.
proof fn lemma_form_type(written: Seq<u8>, t: Seq<u8>, b: Option<Seq<u8>>)
    requires
        assigned(seq![EQUALS] + written + t) == Some(b),
    ensures
        param_value(form_type(written, t), text("boundary")) == b,
        form_type(written, t).take(19) == text("multipart/form-data"),
        form_type(written, t).len() >= 19,
{
    let hv = form_type(written, t);
    let key = text("boundary");
    reveal_strlit("multipart/form-data; boundary=");
    reveal_strlit("multipart/form-data");
    reveal_strlit("boundary");
    is_ascii_spec_bytes("multipart/form-data; boundary=");
    is_ascii_spec_bytes("multipart/form-data");
    is_ascii_spec_bytes("boundary");
    let pre = text("multipart/form-data; boundary=");
    assert(pre =~= text("multipart/form-data") + seq![SEMI, SP] + key + seq![EQUALS]);
    assert(hv.take(19) =~= text("multipart/form-data"));
    assert(forall|j: int| 0 <= j < 30 ==> #[trigger] hv[j] == pre[j]);
    assert forall|j: int| 0 <= j < 21 implies #[trigger] hv[j] != QUOTE by {
        assert(hv[j] == pre[j]);
    }
    lemma_quotes_run(hv, 0, 21);
    assert(!inside_quotes(hv, 0));
    assert(!inside_quotes(hv, 21));
    assert(hv.subrange(21, 29) =~= key);
    assert(key_at(hv, 21, key));
    assert(hv.skip(29) =~= seq![EQUALS] + written + t);
    assert forall|i: int| 0 <= i < 21 implies !#[trigger] key_at(hv, i, key) by {
        if key_at(hv, i, key) {
            assert(hv.subrange(i, i + 8)[0] == hv[i]);
            assert(hv[i] == pre[i]);
            if i > 0 {
                assert(hv[i - 1] == pre[i - 1]);
            }
        }
    }
    lemma_param_skips(hv, 0, 21, key);
}

/// No quotes, no blanks, no line ends and no semicolons.
pub open spec fn bare_word(b: Seq<u8>) -> bool {
    forall|i: int|
        0 <= i < b.len() ==> {
            let x = #[trigger] b[i];
            x != 0x22 && x != 0x3b && x != 0x20 && x != 0x09 && x != 0x0d && x != 0x0a
        }
}

/// A Content-Type that states the boundary of a form, in quotes or without them,
/// with whatever parameters behind it.
pub open spec fn states_boundary(content_type: Seq<u8>, b: Seq<u8>, t: Seq<u8>) -> bool {
    ||| content_type == form_type(quoted(b), t)
    ||| content_type == form_type(b, t) && bare_word(b) && (t.len() > 0 ==> t[0] == 0x3b)
}

/// Every boundary of 1 to 128 bytes that a form's Content-Type states is the one
/// that is taken, in quotes or without them, whatever parameters follow; a longer
/// one is not, and neither is an empty one.
pub proof fn law_boundary_as_written(fields: Seq<(Seq<u8>, Seq<u8>)>, b: Seq<u8>, t: Seq<u8>)
    requires
        lacks(b, QUOTE),
    ensures
        field_value(fields, text("content-type")) == Some(form_type(quoted(b), t)) ==> form_boundary(fields) == (if 1
            <= b.len() <= 128 {
            Some(b)
        } else {
            None
        }),
        field_value(fields, text("content-type")) == Some(form_type(b, t)) && b.len() > 0 && bare_word(b) && (t.len() > 0
            ==> t[0] == 0x3b) ==> form_boundary(fields) == (if b.len() <= 128 {
            Some(b)
        } else {
            None
        }),
        field_value(fields, text("content-type")) is None ==> form_boundary(fields) is None,
{
    if field_value(fields, text("content-type")) == Some(form_type(quoted(b), t)) {
        lemma_assigned_quoted(b, t);
        lemma_form_type(quoted(b), t, Some(b));
        lemma_same(text("multipart/form-data"));
    }
    if field_value(fields, text("content-type")) == Some(form_type(b, t)) && b.len() > 0 && bare_word(b) && (t.len() > 0
        ==> t[0] == 0x3b) {
        assert(b[0] != QUOTE);
        assert forall|i: int| 0 <= i < b.len() implies !ends_value(#[trigger] b[i]) by {}
        lemma_assigned_bare(b, t);
        lemma_form_type(b, t, Some(b));
        lemma_same(text("multipart/form-data"));
    }
}

proof fn lemma_same(s: Seq<u8>)
    ensures
        same_ignoring_case(s, s),
{
}

/// A form that is written with the boundary of its Content-Type is accepted, and
/// summed up part by part: how many there are, and of each its number, its name, its
/// file name or a dash, its type and its size.
pub proof fn law_upload_sums_up(
    fields: Seq<(Seq<u8>, Seq<u8>)>,
    b: Seq<u8>,
    t: Seq<u8>,
    heads: Seq<Seq<u8>>,
    bodies: Seq<Seq<u8>>,
    epilogue: Seq<u8>,
)
    requires
        field_value(fields, text("content-type")) matches Some(v) && states_boundary(v, b, t),
        1 <= b.len() <= 128,
        lacks(b, QUOTE),
        0 < heads.len() <= 16,
        bodies.len() == heads.len(),
        forall|i: int| 0 <= i < heads.len() ==> plain_block(#[trigger] heads[i]),
        forall|i: int| 0 <= i < heads.len() ==> plain_bytes(#[trigger] bodies[i], delimiter(b)),
    ensures
        ({
            let answer = upload_answer(fields, form_text(heads, bodies, b) + epilogue);
            &&& answer.0 is Ok
            &&& answer.1 == text("parts: ") + decimal(heads.len()) + text("\n") + summary(heads, bodies, heads.len())
        }),
{
    law_boundary_as_written(fields, b, t);
    law_form_round_trip(heads, bodies, b, epilogue, 16);
    lemma_summary(heads, bodies, heads.len());
}

/// A form of more than sixteen parts is refused with 413, one that breaks off with
/// 400, and so is a form whose boundary is not stated.
pub proof fn law_upload_refused(
    fields: Seq<(Seq<u8>, Seq<u8>)>,
    b: Seq<u8>,
    t: Seq<u8>,
    heads: Seq<Seq<u8>>,
    bodies: Seq<Seq<u8>>,
    epilogue: Seq<u8>,
    n: int,
)
    requires
        field_value(fields, text("content-type")) matches Some(v) && states_boundary(v, b, t),
        1 <= b.len() <= 128,
        lacks(b, QUOTE),
        heads.len() > 0,
        bodies.len() == heads.len(),
        forall|i: int| 0 <= i < heads.len() ==> plain_block(#[trigger] heads[i]),
        forall|i: int| 0 <= i < heads.len() ==> plain_bytes(#[trigger] bodies[i], delimiter(b)),
    ensures
        heads.len() > 16 ==> upload_answer(fields, form_text(heads, bodies, b) + epilogue) == (
            Err::<(), u16>(413),
            text("too many parts\n"),
        ),
        heads.len() <= 16 && 0 <= n < form_text(heads, bodies, b).len() ==> upload_answer(
            fields,
            form_text(heads, bodies, b).take(n),
        ) == (Err::<(), u16>(400), text("malformed multipart body\n")),
{
    law_boundary_as_written(fields, b, t);
    if heads.len() > 16 {
        law_too_many_parts(heads, bodies, b, epilogue, 16);
    } else if 0 <= n < form_text(heads, bodies, b).len() {
        law_truncated_form(heads, bodies, b, n, 16);
    }
}

/// Without a boundary of 1 to 128 bytes there is no form.
pub proof fn law_upload_without_boundary(fields: Seq<(Seq<u8>, Seq<u8>)>, b: Seq<u8>, t: Seq<u8>, body: Seq<u8>)
    requires
        field_value(fields, text("content-type")) is None || (lacks(b, QUOTE) && (b.len() == 0 || b.len() > 128)
            && field_value(fields, text("content-type")) == Some(form_type(quoted(b), t))),
    ensures
        upload_answer(fields, body) == (Err::<(), u16>(400), text("bad multipart boundary\n")),
{
    law_boundary_as_written(
        fields,
        if field_value(fields, text("content-type")) is None {
            Seq::<u8>::empty()
        } else {
            b
        },
        t,
    );
}

/// The lines about the first `k` parts.
pub open spec fn summary(heads: Seq<Seq<u8>>, bodies: Seq<Seq<u8>>, k: nat) -> Seq<u8>
    decreases k,
{
    if k == 0 {
        Seq::<u8>::empty()
    } else {
        let i = (k - 1) as nat;
        let h = part_head(heads[i as int]);
        summary(heads, bodies, i) + (text("part ") + decimal(i) + text(": name=\"") + h.name + text("\" filename=\"")
            + (if h.filename is Some {
            h.filename->0
        } else {
            text("-")
        }) + text("\" type=\"") + h.content_type + text("\" size=") + decimal(bodies[i as int].len()) + text("\n"))
    }
}

proof fn lemma_summary(heads: Seq<Seq<u8>>, bodies: Seq<Seq<u8>>, k: nat)
    requires
        bodies.len() == heads.len(),
        k <= heads.len(),
    ensures
        part_lines(described(heads, bodies), k) == summary(heads, bodies, k),
    decreases k,
{
    if k > 0 {
        lemma_summary(heads, bodies, (k - 1) as nat);
    }
}

/// A form on the wire without any part: the closing delimiter, and whatever follows.
pub proof fn law_empty_form(boundary: Seq<u8>, epilogue: Seq<u8>, room: int)
    ensures
        form_parts(delimiter(boundary) + dashes() + epilogue, boundary, room) == Ok::<Seq<(PartHead, Seq<u8>)>, u16>(
            Seq::<(PartHead, Seq<u8>)>::empty(),
        ),
{
    let d = delimiter(boundary);
    let body = d + dashes() + epilogue;
    assert(body.subrange(0, d.len() as int) =~= d);
    assert(body.skip(d.len() as int).subrange(0, 2) =~= dashes());
}

/// A header line of a part.
pub open spec fn part_field(name: Seq<u8>, value: Seq<u8>) -> Seq<u8> {
    name + seq![COLON, SP] + value
}

proof fn lemma_part_field(name: Seq<u8>, value: Seq<u8>)
    requires
        lacks(name, COLON),
        trimmed(name) == name,
        trimmed(value) == value,
    ensures
        ({
            let line = part_field(name, value);
            &&& index_of(line, COLON) == name.len() < line.len()
            &&& trimmed(before(line, COLON)) == name
            &&& trimmed(after(line, COLON)) == value
        }),
{
    let line = part_field(name, value);
    lemma_index_of_is(line, COLON, name.len() as int);
    assert(before(line, COLON) =~= name);
    let rest = seq![SP] + value;
    assert(after(line, COLON) =~= rest);
    assert(rest.drop_first() =~= value);
    assert(trim_front(rest) == trim_front(value));
}

/// The disposition of a part says its name and its file name, in both orders and
/// whatever stands in the quotes, in place of what was said before.
pub proof fn law_part_disposition(h: PartHead, field: Seq<u8>, name: Seq<u8>, file: Seq<u8>)
    requires
        same_ignoring_case(field, text("content-disposition")),
        lacks(field, COLON),
        trimmed(field) == field,
        lacks(name, QUOTE),
        lacks(file, QUOTE),
    ensures
        ({
            let hv = two_params(text("form-data; "), text("name"), name, text("filename"), file);
            with_line(h, part_field(field, hv)) == (PartHead {
                name,
                filename: Some(file),
                content_type: h.content_type,
            })
        }),
        ({
            let hv = two_params(text("form-data; "), text("filename"), file, text("name"), name);
            with_line(h, part_field(field, hv)) == (PartHead {
                name,
                filename: Some(file),
                content_type: h.content_type,
            })
        }),
{
    law_name_and_filename(name, file);
    lemma_two_params_trimmed(text("name"), name, text("filename"), file);
    lemma_two_params_trimmed(text("filename"), file, text("name"), name);
    lemma_part_field(field, two_params(text("form-data; "), text("name"), name, text("filename"), file));
    lemma_part_field(field, two_params(text("form-data; "), text("filename"), file, text("name"), name));
}

/// A disposition that names no file says that there is none.
pub proof fn law_part_without_file(h: PartHead, field: Seq<u8>, name: Seq<u8>)
    requires
        same_ignoring_case(field, text("content-disposition")),
        lacks(field, COLON),
        trimmed(field) == field,
        lacks(name, QUOTE),
    ensures
        with_line(h, part_field(field, text("form-data; name=") + quoted(name))) == (PartHead {
            name,
            filename: None,
            content_type: h.content_type,
        }),
{
    let none = Seq::<u8>::empty();
    let pre = disposition_start();
    let hv = text("form-data; name=") + quoted(name);
    let k = text("name");
    let f = text("filename");
    reveal_strlit("form-data; name=");
    reveal_strlit("name");
    reveal_strlit("filename");
    is_ascii_spec_bytes("form-data; name=");
    is_ascii_spec_bytes("name");
    is_ascii_spec_bytes("filename");
    assert(k =~= seq![0x6eu8, 0x61, 0x6d, 0x65]);
    assert(f =~= seq![0x66u8, 0x69, 0x6c, 0x65, 0x6e, 0x61, 0x6d, 0x65]);
    let front = text("form-data; name=");
    assert(front =~= pre + k + seq![EQUALS]);
    assert(hv =~= pre + k + seq![EQUALS] + quoted(name) + none);
    assert(hv.take(11) =~= pre);
    assert(hv.subrange(11, 15) =~= k);
    lemma_disposition_keys(hv, k, k);
    lemma_disposition_keys(hv, k, f);
    assert(!key_at(hv, 11, f)) by {
        if key_at(hv, 11, f) {
            assert(hv.subrange(11, 19)[0] == hv[11]);
            assert(hv[11] == hv.subrange(11, 15)[0]);
        }
    }
    assert forall|j: int| 0 <= j < 16 implies #[trigger] hv[j] != QUOTE by {
        assert(hv[j] == front[j]);
    }
    lemma_quotes_run(hv, 0, 16);
    assert(!inside_quotes(hv, 0));
    assert(!inside_quotes(hv, 11));
    assert(!inside_quotes(hv, 16));
    lemma_quoted_param(pre, k, name, none);
    lemma_awaits_value(pre, k);
    assert(hv =~= front + quoted(name) + none);
    law_quoted_is_no_parameter(front, name, none, f);
    assert(hv[15] == EQUALS);
    assert forall|i: int| 0 <= i implies !#[trigger] key_at(hv, i, f) by {}
    lemma_param_none(hv, 0, f);
    assert(hv[0] == front[0] && hv.last() == QUOTE);
    law_trimmed(none, hv, none);
    assert(none + hv + none =~= hv);
    lemma_part_field(field, hv);
}

/// A key that stands nowhere has no value.
proof fn lemma_param_none(hv: Seq<u8>, i: int, key: Seq<u8>)
    requires
        0 <= i,
        forall|k: int| 0 <= k ==> !#[trigger] key_at(hv, k, key),
    ensures
        param_from(hv, i, key) is None,
    decreases hv.len() - i,
{
    assert(!key_at(hv, i, key));
    if i < hv.len() && i + key.len() <= hv.len() {
        lemma_param_none(hv, i + 1, key);
    }
}

/// The type of a part is what its Content-Type says without parameters, and plain
/// text until it says so.
pub proof fn law_part_type(h: PartHead, field: Seq<u8>, ctype: Seq<u8>, params: Seq<u8>)
    requires
        same_ignoring_case(field, text("content-type")),
        lacks(field, COLON),
        trimmed(field) == field,
        lacks(ctype, SEMI),
        trimmed(ctype) == ctype,
        trimmed(ctype + seq![SEMI] + params) == ctype + seq![SEMI] + params,
    ensures
        with_line(h, part_field(field, ctype)) == (PartHead { content_type: ctype, ..h }),
        with_line(h, part_field(field, ctype + seq![SEMI] + params)) == (PartHead { content_type: ctype, ..h }),
        plain_head().name.len() == 0 && plain_head().filename is None && plain_head().content_type == text(
            "text/plain",
        ),
{
    let long = ctype + seq![SEMI] + params;
    lemma_part_field(field, ctype);
    lemma_part_field(field, long);
    lemma_index_of_is(ctype, SEMI, ctype.len() as int);
    lemma_index_of_is(long, SEMI, ctype.len() as int);
    assert(before(long, SEMI) =~= ctype);
    assert(!same_ignoring_case(field, text("content-disposition"))) by {
        reveal_strlit("content-disposition");
        reveal_strlit("content-type");
        is_ascii_spec_bytes("content-disposition");
        is_ascii_spec_bytes("content-type");
    }
}

/// Other header lines say nothing of a part, and neither do lines without a colon.
pub proof fn law_other_part_lines(h: PartHead, field: Seq<u8>, value: Seq<u8>, line: Seq<u8>)
    requires
        lacks(field, COLON),
        trimmed(field) == field,
        trimmed(value) == value,
        !same_ignoring_case(field, text("content-disposition")),
        !same_ignoring_case(field, text("content-type")),
        lacks(line, COLON),
    ensures
        with_line(h, part_field(field, value)) == h,
        with_line(h, line) == h,
{
    lemma_part_field(field, value);
    lemma_index_of_is(line, COLON, line.len() as int);
}

/// A value with two quoted parameters has no blanks at its ends.
proof fn lemma_two_params_trimmed(k1: Seq<u8>, v1: Seq<u8>, k2: Seq<u8>, v2: Seq<u8>)
    ensures
        ({
            let hv = two_params(text("form-data; "), k1, v1, k2, v2);
            trimmed(hv) == hv
        }),
{
    let hv = two_params(text("form-data; "), k1, v1, k2, v2);
    let none = Seq::<u8>::empty();
    reveal_strlit("form-data; ");
    is_ascii_spec_bytes("form-data; ");
    assert(hv[0] == text("form-data; ")[0]);
    assert(hv.last() == QUOTE);
    law_trimmed(none, hv, none);
    assert(none + hv + none =~= hv);
}

/// The lines of a header block are read one after the other, each on what the lines
/// before it said.
pub proof fn law_lines_one_by_one(h: PartHead, a: Seq<Seq<u8>>, b: Seq<Seq<u8>>)
    ensures
        with_lines(h, a + b) == with_lines(with_lines(h, a), b),
        a.len() == 1 ==> with_lines(h, a) == with_line(h, a[0]),
    decreases a.len(),
{
    if a.len() == 0 {
        assert(a + b =~= b);
    } else {
        assert((a + b).drop_first() =~= a.drop_first() + b);
        law_lines_one_by_one(with_line(h, a[0]), a.drop_first(), b);
    }
}

/// The name of a part may be written without quotes.
pub proof fn law_part_bare_name(h: PartHead, field: Seq<u8>, name: Seq<u8>)
    requires
        same_ignoring_case(field, text("content-disposition")),
        lacks(field, COLON),
        trimmed(field) == field,
        name.len() > 0,
        bare_word(name),
    ensures
        with_line(h, part_field(field, text("form-data; name=") + name)).name == name,
        with_line(h, part_field(field, text("form-data; name=") + name)).content_type == h.content_type,
{
    let none = Seq::<u8>::empty();
    let pre = disposition_start();
    let hv = text("form-data; name=") + name;
    let k = text("name");
    reveal_strlit("form-data; name=");
    reveal_strlit("name");
    is_ascii_spec_bytes("form-data; name=");
    is_ascii_spec_bytes("name");
    assert(k =~= seq![0x6eu8, 0x61, 0x6d, 0x65]);
    let front = text("form-data; name=");
    assert(front =~= pre + k + seq![EQUALS]);
    assert(hv.take(11) =~= pre);
    assert(hv.subrange(11, 15) =~= k);
    lemma_disposition_keys(hv, k, k);
    assert forall|j: int| 0 <= j < 16 implies #[trigger] hv[j] != QUOTE by {
        assert(hv[j] == front[j]);
    }
    lemma_quotes_run(hv, 0, 16);
    assert(!inside_quotes(hv, 0));
    assert(!inside_quotes(hv, 11));
    lemma_same(k);
    assert(key_at(hv, 11, k)) by {
        assert(hv[10] == front[10]);
    }
    lemma_param_skips(hv, 0, 11, k);
    assert forall|i: int| 0 <= i < name.len() implies !ends_value(#[trigger] name[i]) by {}
    assert(name[0] != QUOTE);
    lemma_assigned_bare(name, none);
    assert(hv.skip(15) =~= seq![EQUALS] + name + none);
    assert(hv[0] == front[0] && hv.last() == name.last());
    assert(name[name.len() - 1] != SP);
    law_trimmed(none, hv, none);
    assert(none + hv + none =~= hv);
    lemma_part_field(field, hv);
}

} // verus!
