//! `/bytes`: a fixed body of 64 KiB with byte ranges, validators and gzip. What
//! is sent is decided here; every length that is announced is the length of what
//! is sent.
use vstd::prelude::*;
use vstd::slice::slice_subrange;
use vstd::string::*;
use vstd::utf8::*;

use crate::buf::{
    decimal, law_decimal_reads_back, lemma_concat_left, lemma_decimal_digits, lemma_decimal_len, pow10, Out,
};
use crate::bytes::{
    all_blank, before, crlf, eq_ignore_ascii_case, find_byte, firm, index_of, is_blank, is_digit, law_trimmed,
    lemma_index_of, lemma_index_of_is, lemma_trim_back, lemma_trim_back_len, lemma_trim_front,
    lemma_trimmed_len, lower, number_upto, parse_u64b, same_bytes, same_ignoring_case, same_str, text, trim,
    trimmed, COLON, COMMA, DASH, DOT, EQUALS, SEMI, SP, ZERO,
};
use crate::dates::{clock_date, date_now};
use crate::gzip::{gzip_encode, gzip_member, law_gzip_cap_suffices, GZIP_CAP};
use crate::http::{field_value, head_end_mark, header, lacks, Request};
use crate::multipart::{dashes, delimiter, form_tail, form_text};
use crate::routes::{
    answer_wire, connection, connection_field, head_start, lemma_connection_start, lemma_head_close, lemma_head_start,
    lemma_head_start_len, lemma_line_close, lemma_wire_from, push_connection, push_head_start,
};
use crate::strings::{is_white_space, law_stripped, stripped, trim_white_space};

verus! {

/// Length of the body.
pub const RANGE_TOTAL: usize = 65536;

/// Validator of the body as it is.
pub const RANGE_ETAG: &'static str = "\"zahttp-bytes-v1\"";

/// Validator of the compressed body.
pub const RANGE_ETAG_GZIP: &'static str = "\"zahttp-bytes-v1+gzip\"";

/// Boundary between the parts of an answer to several ranges.
pub const RANGE_BOUNDARY: &'static str = "zahttp-range-7f3a9c";

/// Most ranges in one request.
pub const MAX_RANGES: usize = 8;

pub const PART_CT: &'static str = "Content-Type: application/octet-stream\r\n";

pub const PART_CR_PRE: &'static str = "Content-Range: bytes ";

// ---- what a Range header asks for -------------------------------------------

/// First and last index that one range asks for, out of `total` bytes. `None`
/// when it is malformed or cannot be satisfied.
pub open spec fn one_range(spec: Seq<u8>, total: int) -> Option<(int, int)> {
    let dash = index_of(spec, DASH);
    let first = trimmed(spec.take(dash));
    let last = trimmed(spec.skip(dash + 1));
    if dash >= spec.len() {
        None
    } else if first.len() == 0 {
        match number_upto(last, u64::MAX as nat) {
            Some(n) => if n == 0 || total == 0 {
                None
            } else if n <= total {
                Some((total - n, total - 1))
            } else {
                Some((0, total - 1))
            },
            None => None,
        }
    } else {
        match number_upto(first, u64::MAX as nat) {
            Some(f) => if f >= total {
                None
            } else if last.len() == 0 {
                Some((f as int, total - 1))
            } else {
                match number_upto(last, u64::MAX as nat) {
                    Some(l) => if l < f {
                        None
                    } else if l < total {
                        Some((f as int, l as int))
                    } else {
                        Some((f as int, total - 1))
                    },
                    None => None,
                }
            },
            None => None,
        }
    }
}

/// A comma-separated list of at most `room` ranges.
pub open spec fn range_list(rest: Seq<u8>, total: int, room: int) -> Option<Seq<(int, int)>>
    decreases rest.len(),
{
    let comma = index_of(rest, COMMA);
    if rest.len() == 0 {
        Some(Seq::<(int, int)>::empty())
    } else if room <= 0 {
        None
    } else {
        let spec = trimmed(before(rest, COMMA));
        let next = if comma < rest.len() {
            trimmed(rest.skip(comma + 1))
        } else {
            Seq::<u8>::empty()
        };
        match one_range(spec, total) {
            Some(r) => if next.len() >= rest.len() {
                None
            } else {
                match range_list(next, total, room - 1) {
                    Some(rs) => Some(seq![r] + rs),
                    None => None,
                }
            },
            None => None,
        }
    }
}

/// The ranges that a header value asks for. `None` when it is malformed, cannot
/// be satisfied, or asks for too many.
pub open spec fn ranges_of(value: Seq<u8>, total: int) -> Option<Seq<(int, int)>> {
    let v = trimmed(value);
    let rest = trimmed(v.skip(6));
    if v.len() < 6 || !same_ignoring_case(v.take(6), text("bytes=")) || rest.len() == 0 {
        None
    } else {
        range_list(rest, total, MAX_RANGES as int)
    }
}

/// Reads one range.
pub fn parse_one_range(spec: &[u8], total: u64, out: &mut (u64, u64)) -> (r: bool)
    ensures
        match one_range(spec@, total as int) {
            Some(x) => r && final(out).0 == x.0 && final(out).1 == x.1,
            None => !r && *final(out) == *old(out),
        },
{
    let dash: usize = match find_byte(spec, DASH) {
        Some(p) => p,
        None => {
            return false;
        },
    };
    let left = slice_subrange(spec, 0, dash);
    let right = slice_subrange(spec, dash + 1, spec.len());
    assert(left@ =~= spec@.take(dash as int));
    assert(right@ =~= spec@.skip(dash + 1));
    let first = trim(left);
    let last = trim(right);
    if first.len() == 0 {
        let n: u64 = match parse_u64b(last) {
            Some(n) => n,
            None => {
                return false;
            },
        };
        if n == 0 || total == 0 {
            return false;
        }
        out.0 = if n <= total {
            total - n
        } else {
            0
        };
        out.1 = total - 1;
        true
    } else {
        let f: u64 = match parse_u64b(first) {
            Some(f) => f,
            None => {
                return false;
            },
        };
        if f >= total {
            return false;
        }
        if last.len() == 0 {
            out.0 = f;
            out.1 = total - 1;
            true
        } else {
            let l: u64 = match parse_u64b(last) {
                Some(l) => l,
                None => {
                    return false;
                },
            };
            if l < f {
                return false;
            }
            out.0 = f;
            out.1 = if l < total {
                l
            } else {
                total - 1
            };
            true
        }
    }
}

/// The ranges in an array, as numbers.
pub open spec fn range_seq(rs: Seq<(u64, u64)>, n: int) -> Seq<(int, int)> {
    Seq::new(n as nat, |i: int| (rs[i].0 as int, rs[i].1 as int))
}

/// Reads the value of a Range header. The ranges fill `out` from the front.
pub fn parse_ranges(value: &str, total: u64, out: &mut [(u64, u64); MAX_RANGES]) -> (r: Result<usize, ()>)
    ensures
        match ranges_of(text(value), total as int) {
            Some(rs) => {
                &&& r == Ok::<usize, ()>(rs.len() as usize)
                &&& rs.len() <= MAX_RANGES
                &&& range_seq(final(out)@, rs.len() as int) == rs
                &&& forall|i: int| rs.len() <= i < MAX_RANGES ==> #[trigger] final(out)@[i] == old(out)@[i]
            },
            None => r is Err,
        },
{
    let v = trim(value.as_bytes());
    if v.len() < 6 {
        return Err(());
    }
    let unit = slice_subrange(v, 0, 6);
    let list = slice_subrange(v, 6, v.len());
    assert(unit@ =~= v@.take(6));
    assert(list@ =~= v@.skip(6));
    if !eq_ignore_ascii_case(unit, "bytes=".as_bytes()) {
        return Err(());
    }
    let mut rest = trim(list);
    if rest.len() == 0 {
        return Err(());
    }
    let ghost whole = ranges_of(text(value), total as int);
    let ghost mut done = Seq::<(int, int)>::empty();
    proof {
        if let Some(rs) = whole {
            assert(done + rs =~= rs);
        }
    }
    let mut n: usize = 0;
    while rest.len() > 0
        invariant
            n <= MAX_RANGES,
            done.len() == n,
            range_seq(out@, n as int) == done,
            forall|i: int| n <= i < MAX_RANGES ==> #[trigger] out@[i] == old(out)@[i],
            whole == ranges_of(text(value), total as int),
            match range_list(rest@, total as int, MAX_RANGES - n) {
                Some(rs) => whole == Some(done + rs),
                None => whole is None,
            },
        decreases rest@.len(),
    {
        if n == MAX_RANGES {
            return Err(());
        }
        let spec: &[u8];
        let next: &[u8];
        match find_byte(rest, COMMA) {
            Some(p) => {
                let a = slice_subrange(rest, 0, p);
                let b = slice_subrange(rest, p + 1, rest.len());
                assert(a@ =~= before(rest@, COMMA));
                assert(b@ =~= rest@.skip(p + 1));
                proof {
                    lemma_trimmed_len(b@);
                }
                spec = trim(a);
                next = trim(b);
            },
            None => {
                assert(before(rest@, COMMA) =~= rest@);
                spec = trim(rest);
                next = slice_subrange(rest, rest.len(), rest.len());
                assert(next@ =~= Seq::<u8>::empty());
            },
        }
        let mut r: (u64, u64) = (0, 0);
        if !parse_one_range(spec, total, &mut r) {
            return Err(());
        }
        let ghost o0 = out@;
        out[n] = r;
        proof {
            let x = (r.0 as int, r.1 as int);
            if let Some(rs) = range_list(next@, total as int, MAX_RANGES - n - 1) {
                assert(done.push(x) + rs =~= done + (seq![x] + rs));
            }
            assert(range_seq(out@, n + 1) =~= range_seq(o0, n as int).push(x));
            done = done.push(x);
        }
        n += 1;
        rest = next;
    }
    assert(done + Seq::<(int, int)>::empty() =~= done);
    Ok(n)
}

/// Every range that is granted lies in the body, and they are at most eight.
pub proof fn law_ranges_lie_in_body(value: Seq<u8>, total: int)
    requires
        total >= 0,
    ensures
        ranges_of(value, total) matches Some(rs) ==> {
            &&& 0 < rs.len() <= MAX_RANGES
            &&& forall|i: int| 0 <= i < rs.len() ==> 0 <= (#[trigger] rs[i]).0 <= rs[i].1 < total
        },
{
    lemma_range_list(trimmed(trimmed(value).skip(6)), total, MAX_RANGES as int);
}

proof fn lemma_range_list(rest: Seq<u8>, total: int, room: int)
    requires
        room >= 0,
        total >= 0,
    ensures
        range_list(rest, total, room) matches Some(rs) ==> {
            &&& rs.len() <= room
            &&& rest.len() > 0 ==> rs.len() > 0
            &&& forall|i: int| 0 <= i < rs.len() ==> 0 <= (#[trigger] rs[i]).0 <= rs[i].1 < total
        },
    decreases rest.len(),
{
    if rest.len() > 0 && room > 0 {
        let comma = index_of(rest, COMMA);
        let next = if comma < rest.len() {
            trimmed(rest.skip(comma + 1))
        } else {
            Seq::<u8>::empty()
        };
        if next.len() < rest.len() {
            lemma_range_list(next, total, room - 1);
        }
    }
}

// ---- validators and codings -------------------------------------------------

/// A validator without the mark that makes it weak.
pub open spec fn without_weak(tag: Seq<u8>) -> Seq<u8> {
    if tag.len() >= 2 && tag.take(2) == text("W/") {
        tag.skip(2)
    } else {
        tag
    }
}

/// One member of an If-None-Match list matches: it is `*`, or the same validator,
/// weak or not.
pub open spec fn tag_matches(member: Seq<u8>, etag: Seq<u8>) -> bool {
    member == text("*") || without_weak(member) == etag
}

/// Some member of a comma-separated list matches.
pub open spec fn list_matches(list: Seq<u8>, etag: Seq<u8>) -> bool
    decreases list.len(),
{
    tag_matches(trimmed(before(list, COMMA)), etag) || (0 <= index_of(list, COMMA) < list.len() && list_matches(
        list.skip(index_of(list, COMMA) + 1),
        etag,
    ))
}

/// Does an If-None-Match list hold the validator?
pub fn etag_list_matches(value: &str, etag: &str) -> (r: bool)
    ensures
        r == list_matches(text(value), text(etag)),
{
    let mut rest = value.as_bytes();
    loop
        invariant
            list_matches(rest@, text(etag)) == list_matches(text(value), text(etag)),
        decreases rest@.len(),
    {
        let comma = find_byte(rest, COMMA);
        let end: usize = match comma {
            Some(p) => p,
            None => rest.len(),
        };
        let piece = slice_subrange(rest, 0, end);
        assert(piece@ =~= before(rest@, COMMA));
        let seg = trim(piece);
        if same_bytes(seg, "*".as_bytes()) {
            return true;
        }
        let weak = if seg.len() >= 2 {
            let mark = slice_subrange(seg, 0, 2);
            assert(mark@ =~= seg@.take(2));
            same_bytes(mark, "W/".as_bytes())
        } else {
            false
        };
        let tag = if weak {
            slice_subrange(seg, 2, seg.len())
        } else {
            seg
        };
        assert(weak ==> tag@ =~= seg@.skip(2));
        if same_bytes(tag, etag.as_bytes()) {
            return true;
        }
        match comma {
            Some(p) => {
                let next = slice_subrange(rest, p + 1, rest.len());
                assert(next@ =~= rest@.skip(p + 1));
                rest = next;
            },
            None => {
                return false;
            },
        }
    }
}

/// A quality of zero: `0`, or `0.` and nothing but zeros.
pub open spec fn zero_quality(s: Seq<u8>) -> bool {
    &&& s.len() >= 1
    &&& s[0] == ZERO
    &&& s.len() >= 2 ==> s[1] == DOT
    &&& forall|i: int| 2 <= i < s.len() ==> #[trigger] s[i] == ZERO
}

pub fn q_is_zero(s: &[u8]) -> (r: bool)
    ensures
        r == zero_quality(s@),
{
    if s.len() == 0 || s[0] != ZERO {
        return false;
    }
    if s.len() == 1 {
        return true;
    }
    if s[1] != DOT {
        return false;
    }
    let mut i: usize = 2;
    while i < s.len()
        invariant
            2 <= i <= s@.len(),
            forall|j: int| 2 <= j < i ==> #[trigger] s@[j] == ZERO,
        decreases s@.len() - i,
    {
        if s[i] != ZERO {
            return false;
        }
        i += 1;
    }
    true
}

/// `s` without its leading spaces.
pub open spec fn past_spaces(s: Seq<u8>) -> Seq<u8>
    decreases s.len(),
{
    if s.len() > 0 && s[0] == SP {
        past_spaces(s.drop_first())
    } else {
        s
    }
}

/// What stands before the first semicolon or space.
pub open spec fn weight_text(s: Seq<u8>) -> Seq<u8>
    decreases s.len(),
{
    if s.len() == 0 || s[0] == SEMI || s[0] == SP {
        Seq::<u8>::empty()
    } else {
        seq![s[0]] + weight_text(s.drop_first())
    }
}

/// What a `q` parameter weighs, when `s` starts with one behind spaces.
pub open spec fn weight(s: Seq<u8>) -> Option<Seq<u8>> {
    let t = past_spaces(s);
    if t.len() >= 2 && (t[0] == 0x71 || t[0] == 0x51) && t[1] == EQUALS {
        Some(weight_text(past_spaces(t.skip(2))))
    } else {
        None
    }
}

/// The first `q` parameter behind a semicolon says zero.
pub open spec fn refuses(params: Seq<u8>) -> bool
    decreases params.len(),
{
    if params.len() == 0 {
        false
    } else if params[0] == SEMI && weight(params.skip(1)) is Some {
        zero_quality(weight(params.skip(1))->0)
    } else {
        refuses(params.drop_first())
    }
}

/// `s` from the first byte on that is no space.
fn skip_spaces<'b>(s: &'b [u8]) -> (r: &'b [u8])
    ensures
        r@ == past_spaces(s@),
{
    let mut t = s;
    while t.len() > 0 && t[0] == SP
        invariant
            past_spaces(t@) == past_spaces(s@),
        ensures
            t@ == past_spaces(s@),
        decreases t@.len(),
    {
        let next = slice_subrange(t, 1, t.len());
        assert(next@ =~= t@.drop_first());
        t = next;
    }
    t
}

/// The weight that `s` starts with.
fn take_weight<'b>(s: &'b [u8]) -> (r: &'b [u8])
    ensures
        r@ == weight_text(s@),
{
    let mut k: usize = 0;
    assert(s@.skip(0) =~= s@);
    assert(s@.take(0) + weight_text(s@) =~= weight_text(s@));
    while k < s.len() && s[k] != SEMI && s[k] != SP
        invariant
            k <= s@.len(),
            s@.take(k as int) + weight_text(s@.skip(k as int)) == weight_text(s@),
        ensures
            k < s@.len() ==> s@[k as int] == SEMI || s@[k as int] == SP,
        decreases s@.len() - k,
    {
        proof {
            let t = s@.skip(k as int);
            assert(t[0] == s@[k as int]);
            assert(t.drop_first() =~= s@.skip(k + 1));
            assert(s@.take(k + 1) + weight_text(s@.skip(k + 1)) =~= s@.take(k as int) + weight_text(t));
        }
        k += 1;
    }
    assert(s@.take(k as int) + Seq::<u8>::empty() =~= s@.subrange(0, k as int));
    slice_subrange(s, 0, k)
}

/// Do the parameters of a coding, from their first semicolon on, refuse it?
pub fn qvalue_zero(params: &[u8]) -> (r: bool)
    ensures
        r == refuses(params@),
{
    let mut rest = params;
    while rest.len() > 0
        invariant
            refuses(rest@) == refuses(params@),
        decreases rest@.len(),
    {
        let next = slice_subrange(rest, 1, rest.len());
        assert(next@ =~= rest@.skip(1));
        assert(next@ =~= rest@.drop_first());
        if rest[0] == SEMI {
            let t = skip_spaces(next);
            if t.len() >= 2 && (t[0] == 0x71 || t[0] == 0x51) && t[1] == EQUALS {
                let v = slice_subrange(t, 2, t.len());
                assert(v@ =~= t@.skip(2));
                return q_is_zero(take_weight(skip_spaces(v)));
            }
        }
        rest = next;
    }
    false
}

/// One member of an Accept-Encoding list admits gzip.
pub open spec fn admits_gzip(member: Seq<u8>) -> bool {
    let coding = trimmed(before(member, SEMI));
    (same_ignoring_case(coding, text("gzip")) || coding == text("*")) && !refuses(member.skip(index_of(member, SEMI)))
}

/// Some member of a comma-separated list admits gzip.
pub open spec fn list_admits_gzip(list: Seq<u8>) -> bool
    decreases list.len(),
{
    admits_gzip(trimmed(before(list, COMMA))) || (0 <= index_of(list, COMMA) < list.len() && list_admits_gzip(
        list.skip(index_of(list, COMMA) + 1),
    ))
}

/// A request takes gzip.
pub open spec fn takes_gzip(fields: Seq<(Seq<u8>, Seq<u8>)>) -> bool {
    field_value(fields, text("accept-encoding")) matches Some(v) && list_admits_gzip(v)
}

pub fn accepts_gzip(req: &Request) -> (r: bool)
    requires
        req.wf(),
    ensures
        r == takes_gzip(req.fields()),
{
    let v = match header(req, "accept-encoding") {
        Some(v) => v,
        None => {
            return false;
        },
    };
    let mut rest = v.as_bytes();
    loop
        invariant
            list_admits_gzip(rest@) == list_admits_gzip(text(v)),
            field_value(req.fields(), text("accept-encoding")) == Some(text(v)),
        decreases rest@.len(),
    {
        let comma = find_byte(rest, COMMA);
        let end: usize = match comma {
            Some(p) => p,
            None => rest.len(),
        };
        let piece = slice_subrange(rest, 0, end);
        assert(piece@ =~= before(rest@, COMMA));
        let seg = trim(piece);
        let te: usize = match find_byte(seg, SEMI) {
            Some(p) => p,
            None => seg.len(),
        };
        let left = slice_subrange(seg, 0, te);
        let params = slice_subrange(seg, te, seg.len());
        assert(left@ =~= before(seg@, SEMI));
        assert(params@ =~= seg@.skip(te as int));
        let tok = trim(left);
        if eq_ignore_ascii_case(tok, "gzip".as_bytes()) || same_bytes(tok, "*".as_bytes()) {
            if !qvalue_zero(params) {
                return true;
            }
        }
        match comma {
            Some(p) => {
                let next = slice_subrange(rest, p + 1, rest.len());
                assert(next@ =~= rest@.skip(p + 1));
                rest = next;
            },
            None => {
                return false;
            },
        }
    }
}

// ---- the body ---------------------------------------------------------------

/// First state of the generator behind the body.
pub const BODY_SEED: u32 = 0x243F6A88;

/// State of the generator after `k` steps.
pub open spec fn body_state(k: nat) -> u32
    decreases k,
{
    if k == 0 {
        BODY_SEED
    } else {
        body_state((k - 1) as nat).wrapping_mul(1664525).wrapping_add(1013904223)
    }
}

/// The body: the top byte of each state behind the first one.
pub open spec fn range_body() -> Seq<u8> {
    Seq::new(RANGE_TOTAL as nat, |i: int| (body_state((i + 1) as nat) >> 24u32) as u8)
}

/// Writes the body.
pub fn fill_range_body(out: &mut [u8; RANGE_TOTAL])
    ensures
        final(out)@ == range_body(),
{
    let mut x: u32 = BODY_SEED;
    let mut i: usize = 0;
    while i < RANGE_TOTAL
        invariant
            i <= RANGE_TOTAL,
            x == body_state(i as nat),
            forall|j: int| 0 <= j < i ==> out@[j] == range_body()[j],
        decreases RANGE_TOTAL - i,
    {
        x = x.wrapping_mul(1664525).wrapping_add(1013904223);
        out[i] = (x >> 24u32) as u8;
        i += 1;
    }
    assert(out@ =~= range_body());
}

/// Writes the compressed body and returns its length.
pub fn fill_gzip_body(body: &[u8; RANGE_TOTAL], out: &mut [u8; GZIP_CAP]) -> (n: usize)
    ensures
        0 < n <= GZIP_CAP,
        n == gzip_member(body@).len(),
        final(out)@.take(n as int) == gzip_member(body@),
{
    proof {
        law_gzip_cap_suffices(body@);
    }
    match gzip_encode(body, out) {
        Some(n) => n,
        None => 0,
    }
}

// ---- what is sent -----------------------------------------------------------

/// The ranges of an answer.
#[derive(Clone, Copy)]
pub struct RangeSet {
    pub rs: [(u64, u64); MAX_RANGES],
    pub n: usize,
}

impl RangeSet {
    pub open spec fn ranges(&self) -> Seq<(int, int)> {
        range_seq(self.rs@, self.n as int)
    }

    /// There are ranges, and they lie in the body.
    pub open spec fn wf(&self) -> bool {
        &&& 0 < self.n <= MAX_RANGES
        &&& forall|i: int| 0 <= i < self.n ==> (#[trigger] self.rs@[i]).0 <= self.rs@[i].1 < RANGE_TOTAL
    }
}

/// How a request for the body is answered.
pub enum RangePlan {
    /// The client has it already; whether the compressed form is meant.
    NotModified(bool),
    Unsatisfiable,
    Full,
    Gzip,
    Ranges(RangeSet),
}

/// The same, as a value to reason with.
pub enum Plan {
    NotModified { gzip: bool },
    Unsatisfiable,
    Full,
    Gzip,
    Ranges(Seq<(int, int)>),
}

pub open spec fn plan_of(p: RangePlan) -> Plan {
    match p {
        RangePlan::NotModified(gzip) => Plan::NotModified { gzip },
        RangePlan::Unsatisfiable => Plan::Unsatisfiable,
        RangePlan::Full => Plan::Full,
        RangePlan::Gzip => Plan::Gzip,
        RangePlan::Ranges(set) => Plan::Ranges(set.ranges()),
    }
}

/// The validator of what is sent.
pub open spec fn etag_text(gzip: bool) -> Seq<u8> {
    if gzip {
        text(RANGE_ETAG_GZIP)
    } else {
        text(RANGE_ETAG)
    }
}

/// If-Range is absent, or names the body as it is.
pub open spec fn range_is_fresh(fields: Seq<(Seq<u8>, Seq<u8>)>) -> bool {
    match field_value(fields, text("if-range")) {
        Some(v) => stripped(decode_utf8(v)) == RANGE_ETAG@,
        None => true,
    }
}

/// The compressed body is chosen: the request takes gzip and asks for no range.
pub open spec fn chooses_gzip(fields: Seq<(Seq<u8>, Seq<u8>)>, gzip_ready: bool) -> bool {
    field_value(fields, text("range")) is None && takes_gzip(fields) && gzip_ready
}

/// How a request with these fields is answered. A validator that matches comes
/// before everything else. A Range is never combined with gzip, and is ignored
/// when If-Range does not match.
pub open spec fn range_plan(fields: Seq<(Seq<u8>, Seq<u8>)>, gzip_ready: bool) -> Plan {
    let range = field_value(fields, text("range"));
    let gzip = chooses_gzip(fields, gzip_ready);
    if field_value(fields, text("if-none-match")) matches Some(v) && list_matches(v, etag_text(gzip)) {
        Plan::NotModified { gzip }
    } else {
        match range {
            Some(v) => if range_is_fresh(fields) {
                match ranges_of(v, RANGE_TOTAL as int) {
                    Some(rs) => Plan::Ranges(rs),
                    None => Plan::Unsatisfiable,
                }
            } else {
                Plan::Full
            },
            None => if gzip {
                Plan::Gzip
            } else {
                Plan::Full
            },
        }
    }
}

/// Decides how a request for the body is answered.
pub fn send_ranges(req: &Request, gzip_ready: bool) -> (r: RangePlan)
    requires
        req.wf(),
    ensures
        plan_of(r) == range_plan(req.fields(), gzip_ready),
        r matches RangePlan::Ranges(set) ==> set.wf(),
{
    let range = header(req, "range");
    let gzip = range.is_none() && accepts_gzip(req) && gzip_ready;
    let etag = if gzip {
        RANGE_ETAG_GZIP
    } else {
        RANGE_ETAG
    };
    match header(req, "if-none-match") {
        Some(v) => {
            if etag_list_matches(v, etag) {
                return RangePlan::NotModified(gzip);
            }
        },
        None => {},
    }
    match range {
        Some(v) => {
            let fresh = match header(req, "if-range") {
                Some(iv) => {
                    proof {
                        encode_utf8_decode_utf8(iv@);
                    }
                    same_str(trim_white_space(iv), RANGE_ETAG)
                },
                None => true,
            };
            if !fresh {
                return RangePlan::Full;
            }
            let mut rs: [(u64, u64); MAX_RANGES] = [(0u64, 0u64); MAX_RANGES];
            match parse_ranges(v, RANGE_TOTAL as u64, &mut rs) {
                Ok(n) => {
                    let set = RangeSet { rs, n };
                    proof {
                        law_ranges_lie_in_body(text(v), RANGE_TOTAL as int);
                        assert forall|i: int| 0 <= i < set.n implies (#[trigger] set.rs@[i]).0 <= set.rs@[i].1
                            < RANGE_TOTAL by {
                            assert(set.ranges()[i].0 <= set.ranges()[i].1 < RANGE_TOTAL);
                        }
                    }
                    RangePlan::Ranges(set)
                },
                Err(_) => RangePlan::Unsatisfiable,
            }
        },
        None => {
            if gzip {
                RangePlan::Gzip
            } else {
                RangePlan::Full
            }
        },
    }
}

// ---- parts ------------------------------------------------------------------

/// What stands before the bytes of one range among several.
pub open spec fn part_start(first: int, last: int, total: int) -> Seq<u8> {
    text("--") + text(RANGE_BOUNDARY) + text("\r\n") + text(PART_CT) + text(PART_CR_PRE) + decimal(first as nat)
        + text(
        "-",
    ) + decimal(last as nat) + text("/") + decimal(total as nat) + text("\r\n\r\n")
}

/// One range among several, as it is sent.
pub open spec fn part_bytes(r: (int, int), body: Seq<u8>) -> Seq<u8> {
    part_start(r.0, r.1, body.len() as int) + body.subrange(r.0, r.1 + 1) + text("\r\n")
}

/// What ends an answer with several ranges.
pub open spec fn parts_end() -> Seq<u8> {
    text("--") + text(RANGE_BOUNDARY) + text("--\r\n")
}

/// The first `k` ranges, as they are sent.
pub open spec fn parts_bytes(rs: Seq<(int, int)>, k: nat, body: Seq<u8>) -> Seq<u8>
    decreases k,
{
    if k == 0 {
        Seq::<u8>::empty()
    } else {
        parts_bytes(rs, (k - 1) as nat, body) + part_bytes(rs[k - 1], body)
    }
}

/// The body of an answer with several ranges.
pub open spec fn multi_body(rs: Seq<(int, int)>, body: Seq<u8>) -> Seq<u8> {
    parts_bytes(rs, rs.len(), body) + parts_end()
}

/// Number of decimal digits.
pub fn digits_u64(v: u64) -> (r: u64)
    ensures
        r == decimal(v as nat).len(),
        1 <= r <= 20,
{
    proof {
        reveal_with_fuel(pow10, 21);
        lemma_decimal_len(v as nat, 20);
    }
    let mut x: u64 = v;
    let mut d: u64 = 1;
    while x >= 10
        invariant
            d + decimal(x as nat).len() == 1 + decimal(v as nat).len(),
            decimal(v as nat).len() <= 20,
            d >= 1,
        decreases x,
    {
        x = x / 10;
        d += 1;
    }
    d
}

/// Lengths of the literals around a part.
proof fn lemma_part_literals()
    ensures
        text(RANGE_BOUNDARY).len() == 19,
        text(PART_CT).len() == 40,
        text(PART_CR_PRE).len() == 21,
        text("--").len() == 2,
        text("\r\n").len() == 2,
        text("-").len() == 1,
        text("/").len() == 1,
        text("\r\n\r\n").len() == 4,
        text("--\r\n").len() == 4,
{
    reveal_strlit("zahttp-range-7f3a9c");
    reveal_strlit("Content-Type: application/octet-stream\r\n");
    reveal_strlit("Content-Range: bytes ");
    reveal_strlit("--");
    reveal_strlit("\r\n");
    reveal_strlit("-");
    reveal_strlit("/");
    reveal_strlit("\r\n\r\n");
    reveal_strlit("--\r\n");
    is_ascii_spec_bytes(RANGE_BOUNDARY);
    is_ascii_spec_bytes(PART_CT);
    is_ascii_spec_bytes(PART_CR_PRE);
    is_ascii_spec_bytes("--");
    is_ascii_spec_bytes("\r\n");
    is_ascii_spec_bytes("-");
    is_ascii_spec_bytes("/");
    is_ascii_spec_bytes("\r\n\r\n");
    is_ascii_spec_bytes("--\r\n");
}

/// Length of one range among several, as it is sent.
pub open spec fn part_size(first: int, last: int, total: int) -> int {
    part_start(first, last, total).len() + (last - first + 1) + text("\r\n").len()
}

/// Computes the length of one range among several.
pub fn part_len(first: u64, last: u64, total: u64) -> (r: u64)
    requires
        first <= last,
        part_size(first as int, last as int, total as int) <= u64::MAX,
    ensures
        r == part_size(first as int, last as int, total as int),
{
    let f: u64 = digits_u64(first);
    let l: u64 = digits_u64(last);
    let t: u64 = digits_u64(total);
    proof {
        lemma_part_literals();
    }
    let b: u64 = RANGE_BOUNDARY.len() as u64;
    let ct: u64 = PART_CT.len() as u64;
    let cr: u64 = PART_CR_PRE.len() as u64;
    (2 + b + 2) + ct + (cr + f + 1 + l + 1 + t + 2) + 2 + (last - first + 1) + 2
}

/// The announced length of a part is the length of its bytes.
pub proof fn law_part_len(first: int, last: int, body: Seq<u8>)
    requires
        0 <= first <= last < body.len(),
    ensures
        part_bytes((first, last), body).len() == part_size(first, last, body.len() as int),
{
}

// ---- heads ------------------------------------------------------------------

/// Room for a head.
pub const RANGE_HEAD_CAP: usize = 384;

/// Room for what stands before and between the parts.
pub const PART_CAP: usize = 160;

/// Status line, date and server.
pub open spec fn range_start(status: u16, date: Seq<u8>) -> Seq<u8> {
    head_start(status, date) + text("\r\nServer: zahttp/0.1\r\n")
}

/// Length, connection and blank line.
pub open spec fn range_end(length: nat, keep_alive: bool) -> Seq<u8> {
    text("Content-Length: ") + decimal(length) + text("\r\nConnection: ") + connection(keep_alive)
        + text("\r\n\r\n")
}

pub fn range_head_start_at(h: &mut Out, status: u16, date: &[u8])
    requires
        old(h).wf(),
    ensures
        final(h).wf(),
        final(h).pushed() == old(h).pushed() + range_start(status, date@),
        final(h).capacity() == old(h).capacity(),
        final(final(h).buf)@ == final(old(h).buf)@,
{
    broadcast use lemma_concat_left;

    push_head_start(h, status, date);
    h.push_str("\r\nServer: zahttp/0.1\r\n");
}

/// Starts a head with the current date.
pub fn range_head_start(h: &mut Out, status: u16)
    requires
        old(h).wf(),
    ensures
        final(h).wf(),
        exists|now: Option<u64>|
            final(h).pushed() == old(h).pushed() + range_start(status, #[trigger] clock_date(now)),
        final(h).capacity() == old(h).capacity(),
        final(final(h).buf)@ == final(old(h).buf)@,
{
    let mut date: [u8; 29] = [0u8; 29];
    date_now(&mut date);
    range_head_start_at(h, status, &date);
}

pub fn range_head_end(h: &mut Out, content_length: u64, keep_alive: bool)
    requires
        old(h).wf(),
    ensures
        final(h).wf(),
        final(h).pushed() == old(h).pushed() + range_end(content_length as nat, keep_alive),
        final(h).capacity() == old(h).capacity(),
        final(final(h).buf)@ == final(old(h).buf)@,
{
    broadcast use lemma_concat_left;

    h.push_str("Content-Length: ");
    h.push_u64(content_length);
    h.push_str("\r\nConnection: ");
    push_connection(h, keep_alive);
}

/// The status of an answer.
pub open spec fn plan_status(plan: Plan) -> u16 {
    match plan {
        Plan::NotModified { .. } => 304,
        Plan::Unsatisfiable => 416,
        Plan::Full => 200,
        Plan::Gzip => 200,
        Plan::Ranges(_) => 206,
    }
}

/// The bytes that follow the head of an answer to GET, `gz` being the compressed
/// body.
pub open spec fn plan_body(plan: Plan, body: Seq<u8>, gz: Seq<u8>) -> Seq<u8> {
    match plan {
        Plan::NotModified { .. } => Seq::<u8>::empty(),
        Plan::Unsatisfiable => Seq::<u8>::empty(),
        Plan::Full => body,
        Plan::Gzip => gz,
        Plan::Ranges(rs) => if rs.len() == 1 {
            body.subrange(rs[0].0, rs[0].1 + 1)
        } else {
            multi_body(rs, body)
        },
    }
}

/// Length of the first `k` ranges as they are sent.
pub open spec fn parts_size(rs: Seq<(int, int)>, k: nat) -> int
    decreases k,
{
    if k == 0 {
        0
    } else {
        parts_size(rs, (k - 1) as nat) + part_size(rs[k - 1].0, rs[k - 1].1, RANGE_TOTAL as int)
    }
}

/// The length that an answer announces, `gz_len` being that of the compressed
/// body.
pub open spec fn plan_length(plan: Plan, gz_len: int) -> int {
    match plan {
        Plan::NotModified { .. } => 0,
        Plan::Unsatisfiable => 0,
        Plan::Full => RANGE_TOTAL as int,
        Plan::Gzip => gz_len,
        Plan::Ranges(rs) => if rs.len() == 1 {
            rs[0].1 - rs[0].0 + 1
        } else {
            parts_size(rs, rs.len()) + parts_end().len()
        },
    }
}

/// What a head holds between its start and its end.
pub open spec fn plan_fields(plan: Plan) -> Seq<u8> {
    match plan {
        Plan::NotModified { gzip } => text("ETag: ") + etag_text(gzip) + text("\r\nVary: Accept-Encoding\r\n"),
        Plan::Unsatisfiable => text("Content-Range: bytes */") + decimal(RANGE_TOTAL as nat) + text("\r\n"),
        Plan::Full => text("Content-Type: application/octet-stream\r\nAccept-Ranges: bytes\r\nETag: ") + text(
            RANGE_ETAG,
        ) + text("\r\nVary: Accept-Encoding\r\n"),
        Plan::Gzip => text(
            "Content-Type: application/octet-stream\r\nContent-Encoding: gzip\r\nAccept-Ranges: bytes\r\nETag: ",
        ) + text(RANGE_ETAG_GZIP) + text("\r\nVary: Accept-Encoding\r\n"),
        Plan::Ranges(rs) => if rs.len() == 1 {
            text("Content-Type: application/octet-stream\r\nAccept-Ranges: bytes\r\nETag: ") + text(RANGE_ETAG)
                + text(
                "\r\nContent-Range: bytes ",
            ) + decimal(rs[0].0 as nat) + text("-") + decimal(rs[0].1 as nat) + text("/")
                + decimal(RANGE_TOTAL as nat)
                + text("\r\n")
        } else {
            text("Content-Type: multipart/byteranges; boundary=") + text(RANGE_BOUNDARY) + text(
                "\r\nAccept-Ranges: bytes\r\nETag: ",
            ) + text(RANGE_ETAG) + text("\r\n")
        },
    }
}

/// The head of an answer. One without a body announces no length.
pub open spec fn plan_head(plan: Plan, gz_len: int, date: Seq<u8>, keep_alive: bool) -> Seq<u8> {
    range_start(plan_status(plan), date) + plan_fields(plan) + (match plan {
        Plan::NotModified { .. } => text("Connection: ") + connection(keep_alive) + text("\r\n\r\n"),
        _ => range_end(plan_length(plan, gz_len) as nat, keep_alive),
    })
}

/// A part is not much longer than its range.
proof fn lemma_part_size(first: int, last: int)
    requires
        0 <= first <= last < RANGE_TOTAL,
    ensures
        0 < part_size(first, last, RANGE_TOTAL as int) <= 70000,
        part_start(first, last, RANGE_TOTAL as int).len() <= 110,
{
    lemma_part_literals();
    reveal_with_fuel(pow10, 6);
    lemma_decimal_len(first as nat, 5);
    lemma_decimal_len(last as nat, 5);
    lemma_decimal_len(RANGE_TOTAL as nat, 5);
}

/// Computes the length of an answer with several ranges.
fn multi_length(set: &RangeSet) -> (r: u64)
    requires
        set.wf(),
    ensures
        r == parts_size(set.ranges(), set.ranges().len()) + parts_end().len(),
{
    proof {
        lemma_part_literals();
    }
    let mut length: u64 = 0;
    let mut i: usize = 0;
    while i < set.n
        invariant
            set.wf(),
            i <= set.n,
            length == parts_size(set.ranges(), i as nat),
            length <= 70000 * i,
        decreases set.n - i,
    {
        let r: (u64, u64) = set.rs[i];
        proof {
            assert(set.rs@[i as int].0 <= set.rs@[i as int].1 < RANGE_TOTAL);
            assert(set.ranges()[i as int] == (r.0 as int, r.1 as int));
            lemma_part_size(r.0 as int, r.1 as int);
        }
        length += part_len(r.0, r.1, RANGE_TOTAL as u64);
        i += 1;
    }
    let b: u64 = RANGE_BOUNDARY.len() as u64;
    length + (2 + b + 4)
}

/// Appends what a head holds between its start and its end.
fn push_plan_fields(h: &mut Out, plan: &RangePlan)
    requires
        old(h).wf(),
        plan matches RangePlan::Ranges(set) ==> set.wf(),
    ensures
        final(h).wf(),
        final(h).pushed() == old(h).pushed() + plan_fields(plan_of(*plan)),
        final(h).capacity() == old(h).capacity(),
        final(final(h).buf)@ == final(old(h).buf)@,
{
    broadcast use lemma_concat_left;

    match plan {
        RangePlan::NotModified(gzip) => {
            h.push_str("ETag: ");
            h.push_str(
                if *gzip {
                    RANGE_ETAG_GZIP
                } else {
                    RANGE_ETAG
                },
            );
            h.push_str("\r\nVary: Accept-Encoding\r\n");
        },
        RangePlan::Unsatisfiable => {
            h.push_str("Content-Range: bytes */");
            h.push_u64(RANGE_TOTAL as u64);
            h.push_str("\r\n");
        },
        RangePlan::Full => {
            h.push_str("Content-Type: application/octet-stream\r\nAccept-Ranges: bytes\r\nETag: ");
            h.push_str(RANGE_ETAG);
            h.push_str("\r\nVary: Accept-Encoding\r\n");
        },
        RangePlan::Gzip => {
            h.push_str(
                "Content-Type: application/octet-stream\r\nContent-Encoding: gzip\r\nAccept-Ranges: bytes\r\nETag: ",
            );
            h.push_str(RANGE_ETAG_GZIP);
            h.push_str("\r\nVary: Accept-Encoding\r\n");
        },
        RangePlan::Ranges(set) => {
            if set.n == 1 {
                assert(set.ranges()[0] == (set.rs@[0].0 as int, set.rs@[0].1 as int));
                h.push_str("Content-Type: application/octet-stream\r\nAccept-Ranges: bytes\r\nETag: ");
                h.push_str(RANGE_ETAG);
                h.push_str("\r\nContent-Range: bytes ");
                h.push_u64(set.rs[0].0);
                h.push_str("-");
                h.push_u64(set.rs[0].1);
                h.push_str("/");
                h.push_u64(RANGE_TOTAL as u64);
                h.push_str("\r\n");
            } else {
                h.push_str("Content-Type: multipart/byteranges; boundary=");
                h.push_str(RANGE_BOUNDARY);
                h.push_str("\r\nAccept-Ranges: bytes\r\nETag: ");
                h.push_str(RANGE_ETAG);
                h.push_str("\r\n");
            }
        },
    }
}

/// Appends the head of an answer with this date.
pub fn range_head_at(h: &mut Out, plan: &RangePlan, gz_len: usize, date: &[u8], keep_alive: bool)
    requires
        old(h).wf(),
        plan matches RangePlan::Ranges(set) ==> set.wf(),
    ensures
        final(h).wf(),
        final(h).pushed() == old(h).pushed() + plan_head(plan_of(*plan), gz_len as int, date@, keep_alive),
        final(h).capacity() == old(h).capacity(),
        final(final(h).buf)@ == final(old(h).buf)@,
{
    broadcast use lemma_concat_left;

    let status: u16 = match plan {
        RangePlan::NotModified(_) => 304,
        RangePlan::Unsatisfiable => 416,
        RangePlan::Full => 200,
        RangePlan::Gzip => 200,
        RangePlan::Ranges(_) => 206,
    };
    range_head_start_at(h, status, date);
    push_plan_fields(h, plan);
    match plan {
        RangePlan::NotModified(_) => {
            h.push_str("Connection: ");
            push_connection(h, keep_alive);
        },
        RangePlan::Unsatisfiable => range_head_end(h, 0, keep_alive),
        RangePlan::Full => range_head_end(h, RANGE_TOTAL as u64, keep_alive),
        RangePlan::Gzip => range_head_end(h, gz_len as u64, keep_alive),
        RangePlan::Ranges(set) => {
            if set.n == 1 {
                assert(set.rs@[0].0 <= set.rs@[0].1 < RANGE_TOTAL);
                assert(set.ranges()[0] == (set.rs@[0].0 as int, set.rs@[0].1 as int));
                range_head_end(h, set.rs[0].1 - set.rs[0].0 + 1, keep_alive);
            } else {
                range_head_end(h, multi_length(set), keep_alive);
            }
        },
    }
}

/// Appends the head of an answer with the current date.
pub fn range_head(h: &mut Out, plan: &RangePlan, gz_len: usize, keep_alive: bool)
    requires
        old(h).wf(),
        plan matches RangePlan::Ranges(set) ==> set.wf(),
    ensures
        final(h).wf(),
        exists|now: Option<u64>|
            final(h).pushed() == old(h).pushed() + plan_head(
                plan_of(*plan),
                gz_len as int,
                #[trigger] clock_date(now),
                keep_alive,
            ),
        final(h).capacity() == old(h).capacity(),
        final(final(h).buf)@ == final(old(h).buf)@,
{
    let mut date: [u8; 29] = [0u8; 29];
    date_now(&mut date);
    range_head_at(h, plan, gz_len, &date, keep_alive);
}

/// Appends what is sent before the bytes of range `k` of several: the end of the
/// one before it, and its own start; behind the last range, the end of them all.
pub fn push_part_start(p: &mut Out, set: &RangeSet, k: usize)
    requires
        old(p).wf(),
        set.wf(),
        k <= set.n,
    ensures
        final(p).wf(),
        final(p).pushed() == old(p).pushed() + part_break(set.ranges(), k as int),
        final(p).capacity() == old(p).capacity(),
        final(final(p).buf)@ == final(old(p).buf)@,
{
    broadcast use lemma_concat_left;

    if k > 0 {
        p.push_str("\r\n");
    } else {
        assert(p.pushed() + Seq::<u8>::empty() =~= p.pushed());
    }
    p.push_str("--");
    p.push_str(RANGE_BOUNDARY);
    if k < set.n {
        assert(set.ranges()[k as int] == (set.rs@[k as int].0 as int, set.rs@[k as int].1 as int));
        p.push_str("\r\n");
        p.push_str(PART_CT);
        p.push_str(PART_CR_PRE);
        p.push_u64(set.rs[k].0);
        p.push_str("-");
        p.push_u64(set.rs[k].1);
        p.push_str("/");
        p.push_u64(RANGE_TOTAL as u64);
        p.push_str("\r\n\r\n");
    } else {
        p.push_str("--\r\n");
    }
}

/// What is sent before the bytes of range `k` of several.
pub open spec fn part_break(rs: Seq<(int, int)>, k: int) -> Seq<u8> {
    (if k > 0 {
        text("\r\n")
    } else {
        Seq::<u8>::empty()
    }) + (if k < rs.len() {
        part_start(rs[k].0, rs[k].1, RANGE_TOTAL as int)
    } else {
        parts_end()
    })
}

/// Several ranges follow the head of an answer, piece by piece.
pub open spec fn in_pieces(plan: Plan, head_only: bool) -> bool {
    !head_only && (plan matches Plan::Ranges(rs) && rs.len() != 1)
}

/// The bytes that follow the head of an answer at once: none to HEAD, and none when
/// several ranges come piece by piece.
pub open spec fn slice_behind(plan: Plan, head_only: bool, body: Seq<u8>, gz: Seq<u8>) -> Seq<u8> {
    if head_only || in_pieces(plan, head_only) {
        Seq::<u8>::empty()
    } else {
        plan_body(plan, body, gz)
    }
}

/// The bytes of range `k`; behind the last range, none.
pub open spec fn range_bytes(rs: Seq<(int, int)>, k: int, body: Seq<u8>) -> Seq<u8> {
    if k < rs.len() {
        body.subrange(rs[k].0, rs[k].1 + 1)
    } else {
        Seq::<u8>::empty()
    }
}

/// Picks the bytes of range `k` of the body, none behind the last range.
pub fn range_slice<'a>(set: &RangeSet, k: usize, body: &'a [u8]) -> (r: &'a [u8])
    requires
        set.wf(),
        k <= set.n,
        body@.len() == RANGE_TOTAL,
    ensures
        r@ == range_bytes(set.ranges(), k as int, body@),
{
    if k < set.n {
        assert(set.rs@[k as int].0 <= set.rs@[k as int].1 < RANGE_TOTAL);
        assert(set.ranges()[k as int] == (set.rs@[k as int].0 as int, set.rs@[k as int].1 as int));
        slice_subrange(body, set.rs[k].0 as usize, set.rs[k].1 as usize + 1)
    } else {
        assert(body@.subrange(0, 0) =~= Seq::<u8>::empty());
        slice_subrange(body, 0, 0)
    }
}

/// Picks the bytes that follow the head of an answer at once, `gz` being the
/// compressed body.
pub fn plan_slice<'a>(plan: &RangePlan, head_only: bool, body: &'a [u8], gz: &'a [u8]) -> (r: &'a [u8])
    requires
        plan matches RangePlan::Ranges(set) ==> set.wf(),
        body@.len() == RANGE_TOTAL,
    ensures
        r@ == slice_behind(plan_of(*plan), head_only, body@, gz@),
{
    let none = slice_subrange(body, 0, 0);
    assert(none@ =~= Seq::<u8>::empty());
    if head_only {
        return none;
    }
    match plan {
        RangePlan::NotModified(_) => none,
        RangePlan::Unsatisfiable => none,
        RangePlan::Full => body,
        RangePlan::Gzip => gz,
        RangePlan::Ranges(set) => {
            if set.n == 1 {
                range_slice(set, 0, body)
            } else {
                none
            }
        },
    }
}

/// The ranges that follow the head of an answer piece by piece, if it has such.
pub fn plan_pieces<'p>(plan: &'p RangePlan, head_only: bool) -> (r: Option<&'p RangeSet>)
    ensures
        match r {
            Some(set) => in_pieces(plan_of(*plan), head_only) && *plan == RangePlan::Ranges(*set),
            None => !in_pieces(plan_of(*plan), head_only),
        },
{
    match plan {
        RangePlan::Ranges(set) => {
            if head_only || set.n == 1 {
                None
            } else {
                Some(set)
            }
        },
        _ => None,
    }
}

/// What is sent of the first `k` of several ranges: each break and the bytes of
/// the range behind it.
pub open spec fn pieces(rs: Seq<(int, int)>, k: nat, body: Seq<u8>) -> Seq<u8>
    decreases k,
{
    if k == 0 {
        Seq::<u8>::empty()
    } else {
        pieces(rs, (k - 1) as nat, body) + (part_break(rs, k - 1) + range_bytes(rs, k - 1, body))
    }
}

// ---- laws -------------------------------------------------------------------

proof fn lemma_pieces(rs: Seq<(int, int)>, k: nat, body: Seq<u8>)
    requires
        k <= rs.len(),
        body.len() == RANGE_TOTAL,
    ensures
        k > 0 ==> pieces(rs, k, body) + text("\r\n") == parts_bytes(rs, k, body),
    decreases k,
{
    if k > 0 {
        lemma_pieces(rs, (k - 1) as nat, body);
        if k == 1 {
            assert(pieces(rs, 0, body) =~= Seq::<u8>::empty());
            assert(pieces(rs, 1, body) + text("\r\n") =~= parts_bytes(rs, 1, body)) by {
                assert(parts_bytes(rs, 0, body) =~= Seq::<u8>::empty());
            }
        } else {
            assert(pieces(rs, k, body) + text("\r\n") =~= (pieces(rs, (k - 1) as nat, body) + text("\r\n"))
                + part_bytes(rs[k - 1], body));
        }
    }
}

/// What is sent behind the head of an answer to GET, at once and piece by piece, is
/// the body of the answer: where several ranges come piece by piece, nothing comes
/// before them. To HEAD nothing is sent.
pub proof fn law_sent_is_the_body(plan: Plan, body: Seq<u8>, gz: Seq<u8>)
    requires
        body.len() == RANGE_TOTAL,
        plan matches Plan::Ranges(rs) ==> rs.len() > 0,
    ensures
        match plan {
            Plan::Ranges(rs) if rs.len() != 1 => {
                &&& in_pieces(plan, false)
                &&& slice_behind(plan, false, body, gz).len() == 0
                &&& pieces(rs, rs.len(), body) + (part_break(rs, rs.len() as int) + range_bytes(
                    rs,
                    rs.len() as int,
                    body,
                )) == plan_body(plan, body, gz)
            },
            _ => !in_pieces(plan, false) && slice_behind(plan, false, body, gz) == plan_body(plan, body, gz),
        },
        !in_pieces(plan, true),
        slice_behind(plan, true, body, gz).len() == 0,
{
    if let Plan::Ranges(rs) = plan {
        lemma_pieces(rs, rs.len(), body);
        assert(pieces(rs, rs.len(), body) + (part_break(rs, rs.len() as int) + range_bytes(rs, rs.len() as int, body))
            =~= (pieces(rs, rs.len(), body) + text("\r\n")) + parts_end());
    }
}

proof fn lemma_parts_size(rs: Seq<(int, int)>, k: nat, body: Seq<u8>)
    requires
        k <= rs.len(),
        body.len() == RANGE_TOTAL,
        forall|i: int| 0 <= i < rs.len() ==> 0 <= (#[trigger] rs[i]).0 <= rs[i].1 < RANGE_TOTAL,
    ensures
        parts_bytes(rs, k, body).len() == parts_size(rs, k),
    decreases k,
{
    if k > 0 {
        lemma_parts_size(rs, (k - 1) as nat, body);
        assert(0 <= rs[k - 1].0 <= rs[k - 1].1 < RANGE_TOTAL);
    }
}

/// The length that an answer announces is the length of the bytes that follow its
/// head, for one range, for several, for the whole body and for the compressed
/// one.
pub proof fn law_announced_length(plan: Plan, body: Seq<u8>, gz: Seq<u8>)
    requires
        body.len() == RANGE_TOTAL,
        plan matches Plan::Ranges(rs) ==> rs.len() > 0 && forall|i: int|
            0 <= i < rs.len() ==> 0 <= (#[trigger] rs[i]).0 <= rs[i].1 < RANGE_TOTAL,
    ensures
        plan_length(plan, gz.len() as int) == plan_body(plan, body, gz).len(),
{
    if let Plan::Ranges(rs) = plan {
        assert(0 <= rs[0].0 <= rs[0].1 < RANGE_TOTAL);
        lemma_parts_size(rs, rs.len(), body);
    }
}

/// A validator that the client holds short-circuits everything, Range included:
/// the answer is 304 and has no body.
pub proof fn law_matching_validator_wins(fields: Seq<(Seq<u8>, Seq<u8>)>, gzip_ready: bool, v: Seq<u8>)
    requires
        field_value(fields, text("if-none-match")) == Some(v),
        list_matches(v, etag_text(chooses_gzip(fields, gzip_ready))),
    ensures
        plan_status(range_plan(fields, gzip_ready)) == 304,
        plan_length(range_plan(fields, gzip_ready), 0) == 0,
{
}

/// A string whose ends are no blanks is not changed by trimming, and the other way
/// round.
proof fn lemma_trimmed_ends(s: Seq<u8>)
    requires
        s.len() > 0,
    ensures
        trimmed(s) == s <==> !is_blank(s[0]) && !is_blank(s.last()),
{
    if !is_blank(s[0]) && !is_blank(s.last()) {
        lemma_trim_front(s, 0);
        lemma_trim_back(s, s.len() as int);
        assert(s.skip(0) =~= s);
        assert(s.take(s.len() as int) =~= s);
    } else if is_blank(s[0]) {
        lemma_trimmed_len(s.drop_first());
    } else {
        lemma_trim_front(s, 0);
        assert(s.skip(0) =~= s);
        lemma_trim_back_len(s.drop_last());
    }
}

/// A validator is matched by itself, by its weak form and by `*`.
pub proof fn law_validator_matches(etag: Seq<u8>)
    requires
        etag.len() > 0,
        trimmed(etag) == etag,
        index_of(etag, COMMA) == etag.len(),
        without_weak(etag) == etag,
    ensures
        list_matches(etag, etag),
        list_matches(text("W/") + etag, etag),
        list_matches(text("*"), etag),
{
    reveal_strlit("W/");
    reveal_strlit("*");
    is_ascii_spec_bytes("W/");
    is_ascii_spec_bytes("*");
    let weak = text("W/") + etag;
    let star = text("*");
    assert(text("W/") =~= seq![87u8, 47u8]);
    assert(star =~= seq![42u8]);
    lemma_index_of(etag, COMMA);
    assert(before(etag, COMMA) =~= etag);
    lemma_index_of_is(weak, COMMA, weak.len() as int);
    assert(before(weak, COMMA) =~= weak);
    lemma_index_of_is(star, COMMA, 1);
    assert(before(star, COMMA) =~= star);
    lemma_trimmed_ends(etag);
    lemma_trimmed_ends(weak);
    lemma_trimmed_ends(star);
    assert(weak.take(2) =~= text("W/"));
    assert(weak.skip(2) =~= etag);
}

/// A Range is never combined with gzip.
pub proof fn law_range_excludes_gzip(fields: Seq<(Seq<u8>, Seq<u8>)>, gzip_ready: bool)
    requires
        field_value(fields, text("range")) is Some,
    ensures
        range_plan(fields, gzip_ready) !is Gzip,
        range_plan(fields, gzip_ready) matches Plan::NotModified { gzip } ==> !gzip,
{
}

/// A Range is ignored, and the whole body sent, when If-Range names another
/// validator and If-None-Match does not match.
pub proof fn law_stale_if_range(fields: Seq<(Seq<u8>, Seq<u8>)>, gzip_ready: bool)
    requires
        field_value(fields, text("range")) is Some,
        !range_is_fresh(fields),
        field_value(fields, text("if-none-match")) is None,
    ensures
        range_plan(fields, gzip_ready) == Plan::Full,
{
}

/// Every head fits the room for it, and so does what stands between the parts, so
/// that no answer is dropped.
pub proof fn law_range_head_fits(plan: Plan, gz_len: usize, now: Option<u64>, keep_alive: bool, k: int)
    requires
        plan matches Plan::Ranges(rs) ==> 0 < rs.len() <= MAX_RANGES && forall|i: int|
            0 <= i < rs.len() ==> 0 <= (#[trigger] rs[i]).0 <= rs[i].1 < RANGE_TOTAL,
    ensures
        plan_head(plan, gz_len as int, clock_date(now), keep_alive).len() <= RANGE_HEAD_CAP,
        plan matches Plan::Ranges(rs) ==> (0 <= k <= rs.len() ==> part_break(rs, k).len() <= PART_CAP),
{
    lemma_head_start_len(plan_status(plan), now, keep_alive);
    lemma_part_literals();
    lemma_field_literals();
    reveal_with_fuel(pow10, 21);
    lemma_decimal_len(RANGE_TOTAL as nat, 5);
    lemma_decimal_len(gz_len as nat, 20);
    if let Plan::Ranges(rs) = plan {
        lemma_parts_size_bound(rs, rs.len());
        assert(0 <= rs[0].0 <= rs[0].1 < RANGE_TOTAL);
        lemma_decimal_len(rs[0].0 as nat, 5);
        lemma_decimal_len(rs[0].1 as nat, 5);
        lemma_decimal_len(plan_length(plan, gz_len as int) as nat, 20);
        if 0 <= k < rs.len() {
            assert(0 <= rs[k].0 <= rs[k].1 < RANGE_TOTAL);
            lemma_part_size(rs[k].0, rs[k].1);
        }
    }
    lemma_decimal_len(0, 20);
}

proof fn lemma_parts_size_bound(rs: Seq<(int, int)>, k: nat)
    requires
        k <= rs.len() <= MAX_RANGES,
        forall|i: int| 0 <= i < rs.len() ==> 0 <= (#[trigger] rs[i]).0 <= rs[i].1 < RANGE_TOTAL,
    ensures
        0 <= parts_size(rs, k) <= 70000 * k,
    decreases k,
{
    if k > 0 {
        lemma_parts_size_bound(rs, (k - 1) as nat);
        assert(0 <= rs[k - 1].0 <= rs[k - 1].1 < RANGE_TOTAL);
        lemma_part_size(rs[k - 1].0, rs[k - 1].1);
    }
}

/// Lengths of the literals in the heads.
proof fn lemma_field_literals()
    ensures
        text("\r\nServer: zahttp/0.1\r\n").len() <= 25,
        text("Content-Length: ").len() <= 20,
        text("\r\nConnection: ").len() <= 20,
        text("Connection: ").len() <= 20,
        text("ETag: ").len() <= 10,
        text("\r\nVary: Accept-Encoding\r\n").len() <= 30,
        text("Content-Range: bytes */").len() <= 30,
        text("\r\nContent-Range: bytes ").len() <= 30,
        text(RANGE_ETAG).len() <= 30,
        text(RANGE_ETAG_GZIP).len() <= 30,
        text("Content-Type: application/octet-stream\r\nAccept-Ranges: bytes\r\nETag: ").len() <= 70,
        text(
            "Content-Type: application/octet-stream\r\nContent-Encoding: gzip\r\nAccept-Ranges: bytes\r\nETag: ",
        ).len() <= 95,
        text("Content-Type: multipart/byteranges; boundary=").len() <= 50,
        text("\r\nAccept-Ranges: bytes\r\nETag: ").len() <= 35,
{
    reveal_strlit("\r\nServer: zahttp/0.1\r\n");
    reveal_strlit("Content-Length: ");
    reveal_strlit("\r\nConnection: ");
    reveal_strlit("Connection: ");
    reveal_strlit("ETag: ");
    reveal_strlit("\r\nVary: Accept-Encoding\r\n");
    reveal_strlit("Content-Range: bytes */");
    reveal_strlit("\r\nContent-Range: bytes ");
    reveal_strlit("\"zahttp-bytes-v1\"");
    reveal_strlit("\"zahttp-bytes-v1+gzip\"");
    reveal_strlit("Content-Type: application/octet-stream\r\nAccept-Ranges: bytes\r\nETag: ");
    reveal_strlit(
        "Content-Type: application/octet-stream\r\nContent-Encoding: gzip\r\nAccept-Ranges: bytes\r\nETag: ",
    );
    reveal_strlit("Content-Type: multipart/byteranges; boundary=");
    reveal_strlit("\r\nAccept-Ranges: bytes\r\nETag: ");
    is_ascii_spec_bytes("\r\nServer: zahttp/0.1\r\n");
    is_ascii_spec_bytes("Content-Length: ");
    is_ascii_spec_bytes("\r\nConnection: ");
    is_ascii_spec_bytes("Connection: ");
    is_ascii_spec_bytes("ETag: ");
    is_ascii_spec_bytes("\r\nVary: Accept-Encoding\r\n");
    is_ascii_spec_bytes("Content-Range: bytes */");
    is_ascii_spec_bytes("\r\nContent-Range: bytes ");
    is_ascii_spec_bytes(RANGE_ETAG);
    is_ascii_spec_bytes(RANGE_ETAG_GZIP);
    is_ascii_spec_bytes("Content-Type: application/octet-stream\r\nAccept-Ranges: bytes\r\nETag: ");
    is_ascii_spec_bytes(
        "Content-Type: application/octet-stream\r\nContent-Encoding: gzip\r\nAccept-Ranges: bytes\r\nETag: ",
    );
    is_ascii_spec_bytes("Content-Type: multipart/byteranges; boundary=");
    is_ascii_spec_bytes("\r\nAccept-Ranges: bytes\r\nETag: ");
}

// ---- laws of what is asked for ----------------------------------------------

/// A number as it is written between blanks.
pub open spec fn between_blanks(l: Seq<u8>, v: nat, r: Seq<u8>) -> Seq<u8> {
    l + decimal(v) + r
}

/// Digits hold neither blanks nor any other byte.
proof fn lemma_decimal_plain(v: nat, b: u8)
    requires
        !(0x30 <= b <= 0x39),
    ensures
        lacks(decimal(v), b),
        firm(decimal(v)),
        decimal(v).len() > 0,
{
    lemma_decimal_digits(v);
    assert forall|i: int| 0 <= i < decimal(v).len() implies #[trigger] decimal(v)[i] != b by {
        assert(is_digit(decimal(v)[i]));
    }
    assert(is_digit(decimal(v)[0]));
    assert(is_digit(decimal(v).last()));
}

/// What stands on the two sides of the first dash.
proof fn lemma_dash(a: Seq<u8>, b: Seq<u8>)
    requires
        lacks(a, DASH),
    ensures
        ({
            let s = a + seq![DASH] + b;
            &&& index_of(s, DASH) == a.len()
            &&& s.take(index_of(s, DASH)) == a
            &&& s.skip(index_of(s, DASH) + 1) == b
        }),
{
    let s = a + seq![DASH] + b;
    lemma_index_of_is(s, DASH, a.len() as int);
    assert(s.take(a.len() as int) =~= a);
    assert(s.skip(a.len() as int + 1) =~= b);
}

/// The range from `f` to `l` is granted as exactly that, cut off at the end of the
/// body; it is refused where it starts behind the end or runs backwards. Blanks
/// around the numbers do not count.
pub proof fn law_range_first_last(
    f: nat,
    l: nat,
    total: int,
    b1: Seq<u8>,
    b2: Seq<u8>,
    b3: Seq<u8>,
    b4: Seq<u8>,
)
    requires
        f <= u64::MAX,
        l <= u64::MAX,
        all_blank(b1),
        all_blank(b2),
        all_blank(b3),
        all_blank(b4),
    ensures
        one_range(between_blanks(b1, f, b2) + seq![0x2du8] + between_blanks(b3, l, b4), total) == (if f >= total || l
            < f {
            None
        } else if l < total {
            Some((f as int, l as int))
        } else {
            Some((f as int, total - 1))
        }),
{
    let a = between_blanks(b1, f, b2);
    let b = between_blanks(b3, l, b4);
    lemma_decimal_plain(f, DASH);
    lemma_decimal_plain(l, DASH);
    assert(lacks(a, DASH)) by {
        assert forall|i: int| 0 <= i < a.len() implies #[trigger] a[i] != DASH by {
            if i < b1.len() {
                assert(a[i] == b1[i]);
            } else if i < b1.len() + decimal(f).len() {
                assert(a[i] == decimal(f)[i - b1.len()]);
            } else {
                assert(a[i] == b2[i - b1.len() - decimal(f).len()]);
            }
        }
    }
    lemma_dash(a, b);
    law_trimmed(b1, decimal(f), b2);
    law_trimmed(b3, decimal(l), b4);
    law_decimal_reads_back(f, u64::MAX as nat);
    law_decimal_reads_back(l, u64::MAX as nat);
}

/// The range from `f` on reaches to the end of the body.
pub proof fn law_range_open(f: nat, total: int, b1: Seq<u8>, b2: Seq<u8>, b3: Seq<u8>)
    requires
        f <= u64::MAX,
        all_blank(b1),
        all_blank(b2),
        all_blank(b3),
    ensures
        one_range(between_blanks(b1, f, b2) + seq![0x2du8] + b3, total) == (if f >= total {
            None
        } else {
            Some((f as int, total - 1))
        }),
{
    let a = between_blanks(b1, f, b2);
    let none = Seq::<u8>::empty();
    lemma_decimal_plain(f, DASH);
    assert(lacks(a, DASH)) by {
        assert forall|i: int| 0 <= i < a.len() implies #[trigger] a[i] != DASH by {
            if i < b1.len() {
                assert(a[i] == b1[i]);
            } else if i < b1.len() + decimal(f).len() {
                assert(a[i] == decimal(f)[i - b1.len()]);
            } else {
                assert(a[i] == b2[i - b1.len() - decimal(f).len()]);
            }
        }
    }
    lemma_dash(a, b3);
    law_trimmed(b1, decimal(f), b2);
    law_trimmed(b3, none, none);
    assert(b3 + none + none =~= b3);
    law_decimal_reads_back(f, u64::MAX as nat);
}

/// The last `n` bytes are granted as exactly those, or as the whole body where it is
/// shorter.
pub proof fn law_range_suffix(n: nat, total: int, b1: Seq<u8>, b2: Seq<u8>, b3: Seq<u8>)
    requires
        n <= u64::MAX,
        total >= 0,
        all_blank(b1),
        all_blank(b2),
        all_blank(b3),
    ensures
        one_range(b1 + seq![0x2du8] + between_blanks(b2, n, b3), total) == (if n == 0 || total == 0 {
            None
        } else if n < total {
            Some((total - n, total - 1))
        } else {
            Some((0, total - 1))
        }),
{
    let none = Seq::<u8>::empty();
    lemma_decimal_plain(n, DASH);
    assert(lacks(b1, DASH));
    lemma_dash(b1, between_blanks(b2, n, b3));
    law_trimmed(b1, none, none);
    assert(b1 + none + none =~= b1);
    law_trimmed(b2, decimal(n), b3);
    law_decimal_reads_back(n, u64::MAX as nat);
}

/// Without a dash there is no range, and what stands beside the first dash has to be
/// a number or nothing; two nothings are no range.
pub proof fn law_range_malformed(a: Seq<u8>, b: Seq<u8>, total: int)
    requires
        lacks(a, 0x2d),
    ensures
        one_range(a, total) is None,
        one_range(a + seq![0x2du8] + b, total) is Some ==> {
            &&& trimmed(a).len() == 0 || number_upto(trimmed(a), u64::MAX as nat) is Some
            &&& trimmed(b).len() == 0 || number_upto(trimmed(b), u64::MAX as nat) is Some
            &&& trimmed(a).len() > 0 || trimmed(b).len() > 0
        },
{
    lemma_index_of_is(a, DASH, a.len() as int);
    lemma_dash(a, b);
}

/// Pairs of numbers as they are written in a Range header.
pub open spec fn pairs_text(ps: Seq<(nat, nat)>) -> Seq<u8>
    decreases ps.len(),
{
    if ps.len() == 0 {
        Seq::<u8>::empty()
    } else if ps.len() == 1 {
        decimal(ps[0].0) + seq![0x2du8] + decimal(ps[0].1)
    } else {
        decimal(ps[0].0) + seq![0x2du8] + decimal(ps[0].1) + seq![0x2cu8] + pairs_text(ps.drop_first())
    }
}

/// The ranges that pairs of numbers ask for.
pub open spec fn granted(ps: Seq<(nat, nat)>, total: int) -> Seq<(int, int)> {
    Seq::new(
        ps.len(),
        |i: int|
            (
                ps[i].0 as int,
                if ps[i].1 < total {
                    ps[i].1 as int
                } else {
                    total - 1
                },
            ),
    )
}

/// One pair as it is written, and what it asks for.
proof fn lemma_pair(p: (nat, nat), total: int)
    requires
        p.0 <= p.1 <= u64::MAX,
        p.0 < total,
    ensures
        ({
            let s = decimal(p.0) + seq![0x2du8] + decimal(p.1);
            &&& one_range(s, total) == Some((p.0 as int, if p.1 < total { p.1 as int } else { total - 1 }))
            &&& lacks(s, COMMA)
            &&& firm(s)
            &&& s.len() > 0
        }),
{
    let none = Seq::<u8>::empty();
    let s = decimal(p.0) + seq![0x2du8] + decimal(p.1);
    law_range_first_last(p.0, p.1, total, none, none, none, none);
    assert(between_blanks(none, p.0, none) =~= decimal(p.0));
    assert(between_blanks(none, p.1, none) =~= decimal(p.1));
    lemma_decimal_plain(p.0, COMMA);
    lemma_decimal_plain(p.1, COMMA);
    assert forall|i: int| 0 <= i < s.len() implies #[trigger] s[i] != COMMA by {
        if i < decimal(p.0).len() {
            assert(s[i] == decimal(p.0)[i]);
        } else if i > decimal(p.0).len() {
            assert(s[i] == decimal(p.1)[i - decimal(p.0).len() - 1]);
        }
    }
    assert(s[0] == decimal(p.0)[0]);
    assert(s.last() == decimal(p.1).last());
}

proof fn lemma_pairs_firm(ps: Seq<(nat, nat)>)
    requires
        ps.len() > 0,
    ensures
        pairs_text(ps).len() > 0,
        firm(pairs_text(ps)),
    decreases ps.len(),
{
    let s = pairs_text(ps);
    lemma_decimal_plain(ps[0].0, COMMA);
    lemma_decimal_plain(ps[0].1, COMMA);
    assert(s[0] == decimal(ps[0].0)[0]);
    if ps.len() == 1 {
        assert(s.last() == decimal(ps[0].1).last());
    } else {
        lemma_pairs_firm(ps.drop_first());
        assert(s.last() == pairs_text(ps.drop_first()).last());
    }
}

proof fn lemma_pairs_list(ps: Seq<(nat, nat)>, total: int, room: int)
    requires
        ps.len() > 0,
        room >= 0,
        forall|i: int| 0 <= i < ps.len() ==> (#[trigger] ps[i]).0 <= ps[i].1 <= u64::MAX && ps[i].0 < total,
    ensures
        range_list(pairs_text(ps), total, room) == (if ps.len() <= room {
            Some(granted(ps, total))
        } else {
            None
        }),
    decreases ps.len(),
{
    let s = pairs_text(ps);
    let none = Seq::<u8>::empty();
    let one = decimal(ps[0].0) + seq![0x2du8] + decimal(ps[0].1);
    assert(ps[0].0 <= ps[0].1 <= u64::MAX && ps[0].0 < total);
    lemma_pair(ps[0], total);
    lemma_pairs_firm(ps);
    law_trimmed(none, one, none);
    assert(none + one + none =~= one);
    if room > 0 {
        if ps.len() == 1 {
            lemma_index_of_is(s, COMMA, s.len() as int);
            assert(before(s, COMMA) =~= one);
            assert(range_list(none, total, room - 1) == Some(Seq::<(int, int)>::empty()));
            assert(seq![(ps[0].0 as int, if ps[0].1 < total { ps[0].1 as int } else { total - 1 })] + Seq::<
                (int, int),
            >::empty() =~= granted(ps, total));
        } else {
            let more = ps.drop_first();
            let rest = pairs_text(more);
            assert(s =~= one + seq![COMMA] + rest);
            lemma_index_of_is(s, COMMA, one.len() as int);
            assert(before(s, COMMA) =~= one);
            assert(s.skip(one.len() as int + 1) =~= rest);
            lemma_pairs_firm(more);
            law_trimmed(none, rest, none);
            assert(none + rest + none =~= rest);
            assert forall|i: int| 0 <= i < more.len() implies (#[trigger] more[i]).0 <= more[i].1 <= u64::MAX && more[i].0
                < total by {
                assert(more[i] == ps[i + 1]);
            }
            lemma_pairs_list(more, total, room - 1);
            assert(seq![(ps[0].0 as int, if ps[0].1 < total { ps[0].1 as int } else { total - 1 })] + granted(
                more,
                total,
            ) =~= granted(ps, total));
        }
    }
}

/// A Range header with up to eight ranges that start inside the body asks for
/// exactly those, in order; more than eight are refused, and so is any other unit.
pub proof fn law_ranges_as_written(unit: Seq<u8>, ps: Seq<(nat, nat)>, total: int)
    requires
        unit.len() == 6,
        firm(unit),
        ps.len() > 0,
        forall|i: int| 0 <= i < ps.len() ==> (#[trigger] ps[i]).0 <= ps[i].1 <= u64::MAX && ps[i].0 < total,
    ensures
        ranges_of(unit + pairs_text(ps), total) == (if ps.len() <= 8 && same_ignoring_case(unit, text("bytes=")) {
            Some(granted(ps, total))
        } else {
            None
        }),
{
    let none = Seq::<u8>::empty();
    let s = pairs_text(ps);
    let v = unit + s;
    lemma_pairs_firm(ps);
    assert(v[0] == unit[0] && v.last() == s.last());
    law_trimmed(none, v, none);
    assert(none + v + none =~= v);
    law_trimmed(none, s, none);
    assert(none + s + none =~= s);
    assert(v.take(6) =~= unit);
    assert(v.skip(6) =~= s);
    lemma_pairs_list(ps, total, MAX_RANGES as int);
}

// ---- laws of validators and codings -----------------------------------------

/// A list of codings takes gzip exactly when some member of it does: one without a
/// comma is its only member, and a comma separates one member from the others.
pub proof fn law_codings_separate(a: Seq<u8>, b: Seq<u8>)
    requires
        lacks(a, 0x2c),
    ensures
        list_admits_gzip(a) == admits_gzip(trimmed(a)),
        list_admits_gzip(a + seq![0x2cu8] + b) == (list_admits_gzip(a) || list_admits_gzip(b)),
{
    let s = a + seq![0x2cu8] + b;
    lemma_index_of_is(s, COMMA, a.len() as int);
    lemma_index_of_is(a, COMMA, a.len() as int);
    assert(before(s, COMMA) =~= a);
    assert(before(a, COMMA) =~= a);
    assert(s.skip(a.len() as int + 1) =~= b);
}

/// `gzip` in bytes.
pub open spec fn gzip_word() -> Seq<u8> {
    seq![0x67u8, 0x7a, 0x69, 0x70]
}

/// A weight of nothing: a zero, alone or with a point and further zeros.
pub open spec fn says_zero(w: Seq<u8>) -> bool {
    w.len() > 0 && w[0] == 0x30 && (w.len() == 1 || (w[1] == 0x2e && forall|i: int|
        2 <= i < w.len() ==> #[trigger] w[i] == 0x30))
}

/// One coding without parameters is taken when it is `gzip`, in any case, or the
/// star, and no other is. With a weight it is taken unless the weight is nothing.
pub proof fn law_one_coding(coding: Seq<u8>, q: u8, w: Seq<u8>)
    requires
        coding.len() > 0,
        firm(coding),
        lacks(coding, 0x2c),
        lacks(coding, 0x3b),
        q == 0x71 || q == 0x51,
        lacks(w, 0x2c),
        lacks(w, 0x3b),
        lacks(w, 0x20),
        lacks(w, 0x09),
    ensures
        list_admits_gzip(coding) == (same_ignoring_case(coding, gzip_word()) || coding == seq![0x2au8]),
        list_admits_gzip(coding + seq![0x3bu8, q, 0x3du8] + w) == (list_admits_gzip(coding) && !says_zero(w)),
        list_admits_gzip(coding + seq![0x3bu8, 0x20u8, q, 0x3du8] + w) == (list_admits_gzip(coding) && !says_zero(w)),
{
    let none = Seq::<u8>::empty();
    reveal_strlit("gzip");
    reveal_strlit("*");
    is_ascii_spec_bytes("gzip");
    is_ascii_spec_bytes("*");
    assert(text("gzip") =~= gzip_word());
    assert(text("*") =~= seq![0x2au8]);
    law_codings_separate(coding, none);
    law_trimmed(none, coding, none);
    assert(none + coding + none =~= coding);
    lemma_index_of_is(coding, SEMI, coding.len() as int);
    assert(before(coding, SEMI) =~= coding);
    assert(coding.skip(coding.len() as int) =~= none);
    lemma_weighted(coding, seq![q, EQUALS] + w, q, w);
    assert(coding + seq![0x3bu8, q, 0x3du8] + w =~= coding + seq![SEMI] + (seq![q, EQUALS] + w));
    lemma_weighted(coding, seq![SP, q, EQUALS] + w, q, w);
    assert(coding + seq![0x3bu8, 0x20u8, q, 0x3du8] + w =~= coding + seq![SEMI] + (seq![SP, q, EQUALS] + w));
}

/// What a weight behind a coding means.
#[verifier::rlimit(60)]
#[verifier::spinoff_prover]
proof fn lemma_weighted(coding: Seq<u8>, p: Seq<u8>, q: u8, w: Seq<u8>)
    requires
        coding.len() > 0,
        firm(coding),
        lacks(coding, COMMA),
        lacks(coding, SEMI),
        q == 0x71 || q == 0x51,
        lacks(w, COMMA),
        lacks(w, SEMI),
        lacks(w, SP),
        lacks(w, 0x09),
        p == seq![q, EQUALS] + w || p == seq![SP, q, EQUALS] + w,
    ensures
        list_admits_gzip(coding + seq![SEMI]
            + p) == ((same_ignoring_case(coding, text("gzip")) || coding == text("*"))
            && !says_zero(w)),
{
    let none = Seq::<u8>::empty();
    let m = coding + seq![SEMI] + p;
    let n = coding.len() as int;
    assert(lacks(p, COMMA)) by {
        assert forall|i: int| 0 <= i < p.len() implies #[trigger] p[i] != COMMA by {
            let k = p.len() - w.len();
            if i >= k {
                assert(p[i] == w[i - k]);
            }
        }
    }
    assert(lacks(m, COMMA)) by {
        assert forall|i: int| 0 <= i < m.len() implies #[trigger] m[i] != COMMA by {
            if i < n {
                assert(m[i] == coding[i]);
            } else if i > n {
                assert(m[i] == p[i - n - 1]);
            }
        }
    }
    law_codings_separate(m, none);
    assert(m[0] == coding[0]);
    assert(m.last() == p.last());
    assert(w.len() > 0 ==> p.last() == w.last());
    assert(w.len() > 0 ==> w[w.len() - 1] != SP && w[w.len() - 1] != 0x09);
    assert(firm(m));
    law_trimmed(none, m, none);
    assert(none + m + none =~= m);
    lemma_index_of_is(m, SEMI, n);
    assert(before(m, SEMI) =~= coding);
    law_trimmed(none, coding, none);
    assert(none + coding + none =~= coding);
    let params = m.skip(n);
    assert(params[0] == SEMI);
    assert(params.skip(1) =~= p);
    let t = seq![q, EQUALS] + w;
    assert(past_spaces(p) == t) by {
        assert(past_spaces(t) == t);
        if p[0] == SP {
            assert(p.drop_first() =~= t);
        }
    }
    assert(t.skip(2) =~= w);
    assert(past_spaces(w) == w) by {
        if w.len() > 0 {
            assert(w[0] != SP);
        }
    }
    lemma_weight_text(w);
    assert(weight(p) == Some(w));
    assert(zero_quality(w) == says_zero(w));
}

proof fn lemma_weight_text(w: Seq<u8>)
    requires
        lacks(w, SEMI),
        lacks(w, SP),
    ensures
        weight_text(w) == w,
    decreases w.len(),
{
    if w.len() > 0 {
        let t = w.drop_first();
        assert(w[0] != SEMI && w[0] != SP);
        assert forall|i: int| 0 <= i < t.len() implies #[trigger] t[i] != SEMI && t[i] != SP by {
            assert(t[i] == w[i + 1]);
        }
        lemma_weight_text(t);
        assert(seq![w[0]] + t =~= w);
    } else {
        assert(w =~= Seq::<u8>::empty());
    }
}

/// What a request says of codings is what the value of Accept-Encoding says; without
/// it no coding is taken.
pub proof fn law_codings_of_a_request(fields: Seq<(Seq<u8>, Seq<u8>)>)
    ensures
        takes_gzip(fields) == match field_value(fields, text("accept-encoding")) {
            Some(v) => list_admits_gzip(v),
            None => false,
        },
{
}

/// A list holds a validator exactly when some member of it does, and a member does
/// when it is the star, the validator itself, or the validator marked as weak.
pub proof fn law_validators_separate(a: Seq<u8>, b: Seq<u8>, etag: Seq<u8>)
    requires
        lacks(a, 0x2c),
        !(etag.len() >= 2 && etag[0] == 0x57 && etag[1] == 0x2f),
    ensures
        list_matches(a, etag) <==> {
            ||| trimmed(a) == seq![0x2au8]
            ||| trimmed(a) == etag
            ||| trimmed(a) == seq![0x57u8, 0x2fu8] + etag
        },
        list_matches(a + seq![0x2cu8] + b, etag) == (list_matches(a, etag) || list_matches(b, etag)),
{
    let s = a + seq![0x2cu8] + b;
    let m = trimmed(a);
    let weak = seq![0x57u8, 0x2fu8];
    reveal_strlit("*");
    reveal_strlit("W/");
    is_ascii_spec_bytes("*");
    is_ascii_spec_bytes("W/");
    assert(text("*") =~= seq![0x2au8]);
    assert(text("W/") =~= weak);
    lemma_index_of_is(s, COMMA, a.len() as int);
    lemma_index_of_is(a, COMMA, a.len() as int);
    assert(before(s, COMMA) =~= a);
    assert(before(a, COMMA) =~= a);
    assert(s.skip(a.len() as int + 1) =~= b);
    if m.len() >= 2 && m.take(2) == weak {
        assert(m =~= weak + m.skip(2));
        assert(m[0] == m.take(2)[0] && m[1] == m.take(2)[1]);
        assert((weak + etag).skip(2) =~= etag);
    } else {
        assert((weak + etag).take(2) =~= weak);
    }
}

/// A Range counts when there is no If-Range, or when that names the validator of the
/// body, with white space around it or without; any other value makes it stale, the
/// weak form of the validator among them.
pub proof fn law_if_range(fields: Seq<(Seq<u8>, Seq<u8>)>, l: Seq<char>, s: Seq<char>, r: Seq<char>)
    requires
        forall|i: int| 0 <= i < l.len() ==> is_white_space(#[trigger] l[i]),
        forall|i: int| 0 <= i < r.len() ==> is_white_space(#[trigger] r[i]),
        s.len() > 0,
        !is_white_space(s[0]),
        !is_white_space(s.last()),
    ensures
        field_value(fields, text("if-range")) == Some(encode_utf8(l + s + r)) ==> range_is_fresh(fields) == (s
            == "\"zahttp-bytes-v1\""@),
        field_value(fields, text("if-range")) is None ==> range_is_fresh(fields),
{
    encode_utf8_decode_utf8(l + s + r);
    law_stripped(l, s, r);
}

/// The answer to a request for ranges that are written as pairs of numbers, as long
/// as no validator says otherwise: the bytes from the first of each to the last,
/// cut off at the end of the body; one range as it is, several as the parts of a
/// message.
pub proof fn law_ranges_answered(
    fields: Seq<(Seq<u8>, Seq<u8>)>,
    unit: Seq<u8>,
    ps: Seq<(nat, nat)>,
    gzip_ready: bool,
    gz: Seq<u8>,
)
    requires
        field_value(fields, text("range")) == Some(unit + pairs_text(ps)),
        same_ignoring_case(unit, text("bytes=")),
        field_value(fields, text("if-none-match")) is None,
        field_value(fields, text("if-range")) is None,
        0 < ps.len() <= 8,
        forall|i: int| 0 <= i < ps.len() ==> (#[trigger] ps[i]).0 <= ps[i].1 <= u64::MAX && ps[i].0 < 65536,
    ensures
        ({
            let plan = range_plan(fields, gzip_ready);
            let body = range_body();
            &&& plan == Plan::Ranges(granted(ps, 65536))
            &&& plan_status(plan) == 206
            &&& ps.len() == 1 ==> {
                let last = if ps[0].1 < 65536 {
                    ps[0].1 as int
                } else {
                    65535
                };
                &&& plan_body(plan, body, gz) == body.subrange(ps[0].0 as int, last + 1)
                &&& plan_length(plan, gz.len() as int) == last + 1 - ps[0].0
            }
            &&& ps.len() > 1 ==> plan_body(plan, body, gz) == multi_body(granted(ps, 65536), body)
        }),
{
    reveal_strlit("bytes=");
    is_ascii_spec_bytes("bytes=");
    assert(lower(unit[0]) == lower(text("bytes=")[0]));
    assert(lower(unit[5]) == lower(text("bytes=")[5]));
    law_ranges_as_written(unit, ps, 65536);
}

/// What is answered to a request without ranges, as long as no validator says
/// otherwise: the compressed body where it is ready and the client takes it, else
/// the whole body.
pub proof fn law_whole_body_answered(fields: Seq<(Seq<u8>, Seq<u8>)>, gzip_ready: bool, gz: Seq<u8>)
    requires
        field_value(fields, text("range")) is None,
        field_value(fields, text("if-none-match")) is None,
    ensures
        ({
            let plan = range_plan(fields, gzip_ready);
            let compressed = gzip_ready && (field_value(fields, text("accept-encoding")) matches Some(v)
                && list_admits_gzip(v));
            &&& plan_status(plan) == 200
            &&& compressed ==> plan == Plan::Gzip && plan_body(plan, range_body(), gz) == gz && plan_length(
                plan,
                gz.len() as int,
            ) == gz.len()
            &&& !compressed ==> plan == Plan::Full && plan_body(plan, range_body(), gz) == range_body() && plan_length(
                plan,
                gz.len() as int,
            ) == 65536
        }),
{
}

/// A validator that does not match changes nothing: the answer is the one without
/// it. One that matches is answered 304 and no body, and which of the two forms is
/// meant is the form that would have been sent.
pub proof fn law_validators(fields: Seq<(Seq<u8>, Seq<u8>)>, gzip_ready: bool, v: Seq<u8>, gz: Seq<u8>)
    requires
        field_value(fields, text("if-none-match")) == Some(v),
    ensures
        ({
            let plan = range_plan(fields, gzip_ready);
            let compressed = field_value(fields, text("range")) is None && gzip_ready && (field_value(
                fields,
                text("accept-encoding"),
            ) matches Some(a) && list_admits_gzip(a));
            let tag = if compressed {
                text("\"zahttp-bytes-v1+gzip\"")
            } else {
                text("\"zahttp-bytes-v1\"")
            };
            &&& plan_status(plan) == 304 <==> list_matches(v, tag)
            &&& list_matches(v, tag) ==> plan == (Plan::NotModified { gzip: compressed }) && plan_body(
                plan,
                range_body(),
                gz,
            ).len() == 0
            &&& !list_matches(v, tag) && field_value(fields, text("range")) is None ==> plan == (if compressed {
                Plan::Gzip
            } else {
                Plan::Full
            })
        }),
{
}

/// A range that cannot be granted is answered 416 and no body.
pub proof fn law_unsatisfiable(fields: Seq<(Seq<u8>, Seq<u8>)>, gzip_ready: bool, v: Seq<u8>, gz: Seq<u8>)
    requires
        field_value(fields, text("range")) == Some(v),
        field_value(fields, text("if-none-match")) is None,
        field_value(fields, text("if-range")) is None,
    ensures
        plan_status(range_plan(fields, gzip_ready)) == 416 <==> ranges_of(v, 65536) is None,
        ranges_of(v, 65536) is None ==> plan_body(range_plan(fields, gzip_ready), range_body(), gz).len() == 0,
{
}

/// A piece of a head, taken apart.
proof fn lemma_server_line()
    ensures
        text("\r\nServer: zahttp/0.1\r\n") == crlf() + text("Server") + seq![COLON, SP] + text("zahttp/0.1")
            + crlf(),
{
    reveal_strlit("\r\nServer: zahttp/0.1\r\n");
    reveal_strlit("Server");
    reveal_strlit("zahttp/0.1");
    is_ascii_spec_bytes("\r\nServer: zahttp/0.1\r\n");
    is_ascii_spec_bytes("Server");
    is_ascii_spec_bytes("zahttp/0.1");
    assert(text("\r\nServer: zahttp/0.1\r\n") =~= crlf() + text("Server") + seq![COLON, SP] + text("zahttp/0.1")
        + crlf());
}

/// A piece of a head, taken apart.
proof fn lemma_length_field()
    ensures
        text("Content-Length: ") == text("Content-Length") + seq![COLON, SP],
{
    reveal_strlit("Content-Length: ");
    reveal_strlit("Content-Length");
    is_ascii_spec_bytes("Content-Length: ");
    is_ascii_spec_bytes("Content-Length");
    assert(text("Content-Length: ") =~= text("Content-Length") + seq![COLON, SP]);
}

/// A piece of a head, taken apart.
proof fn lemma_connection_field()
    ensures
        text("Connection: ") == text("Connection") + seq![COLON, SP],
{
    reveal_strlit("Connection: ");
    reveal_strlit("Connection");
    is_ascii_spec_bytes("Connection: ");
    is_ascii_spec_bytes("Connection");
    assert(text("Connection: ") =~= text("Connection") + seq![COLON, SP]);
}

/// A piece of a head, taken apart.
proof fn lemma_etag_field()
    ensures
        text("ETag: ") == text("ETag") + seq![COLON, SP],
{
    reveal_strlit("ETag: ");
    reveal_strlit("ETag");
    is_ascii_spec_bytes("ETag: ");
    is_ascii_spec_bytes("ETag");
    assert(text("ETag: ") =~= text("ETag") + seq![COLON, SP]);
}

/// A piece of a head, taken apart.
proof fn lemma_vary_field()
    ensures
        text("\r\nVary: Accept-Encoding\r\n") == crlf() + text("Vary") + seq![COLON, SP]
            + text("Accept-Encoding") + crlf(),
{
    reveal_strlit("\r\nVary: Accept-Encoding\r\n");
    reveal_strlit("Accept-Encoding");
    reveal_strlit("Vary");
    is_ascii_spec_bytes("\r\nVary: Accept-Encoding\r\n");
    is_ascii_spec_bytes("Accept-Encoding");
    is_ascii_spec_bytes("Vary");
    assert(text("\r\nVary: Accept-Encoding\r\n") =~= crlf() + text("Vary") + seq![COLON, SP]
        + text("Accept-Encoding") + crlf());
}

/// A piece of a head, taken apart.
proof fn lemma_full_fields()
    ensures
        text("Content-Type: application/octet-stream\r\nAccept-Ranges: bytes\r\nETag: ") == text("Content-Type")
            + seq![COLON, SP] + text("application/octet-stream") + crlf() + text("Accept-Ranges")
            + seq![COLON, SP] + text("bytes") + crlf() + text("ETag") + seq![COLON, SP],
{
    reveal_strlit("Content-Type: application/octet-stream\r\nAccept-Ranges: bytes\r\nETag: ");
    reveal_strlit("Accept-Ranges");
    reveal_strlit("Content-Type");
    reveal_strlit("ETag");
    reveal_strlit("application/octet-stream");
    reveal_strlit("bytes");
    is_ascii_spec_bytes("Content-Type: application/octet-stream\r\nAccept-Ranges: bytes\r\nETag: ");
    is_ascii_spec_bytes("Accept-Ranges");
    is_ascii_spec_bytes("Content-Type");
    is_ascii_spec_bytes("ETag");
    is_ascii_spec_bytes("application/octet-stream");
    is_ascii_spec_bytes("bytes");
    assert(text("Content-Type: application/octet-stream\r\nAccept-Ranges: bytes\r\nETag: ") =~= text("Content-Type")
        + seq![COLON, SP] + text("application/octet-stream") + crlf() + text("Accept-Ranges") + seq![COLON, SP]
        + text("bytes") + crlf() + text("ETag") + seq![COLON, SP]);
}

/// A piece of a head, taken apart.
proof fn lemma_gzip_fields()
    ensures
        text("Content-Type: application/octet-stream\r\nContent-Encoding: gzip\r\nAccept-Ranges: bytes\r\nETag: ") == text("Content-Type")
            + seq![COLON, SP] + text("application/octet-stream") + crlf() + text("Content-Encoding")
            + seq![COLON, SP] + text("gzip") + crlf() + text("Accept-Ranges") + seq![COLON, SP] + text("bytes")
            + crlf() + text("ETag") + seq![COLON, SP],
{
    reveal_strlit("Content-Type: application/octet-stream\r\nContent-Encoding: gzip\r\nAccept-Ranges: bytes\r\nETag: ");
    reveal_strlit("Accept-Ranges");
    reveal_strlit("Content-Encoding");
    reveal_strlit("Content-Type");
    reveal_strlit("ETag");
    reveal_strlit("application/octet-stream");
    reveal_strlit("bytes");
    reveal_strlit("gzip");
    is_ascii_spec_bytes("Content-Type: application/octet-stream\r\nContent-Encoding: gzip\r\nAccept-Ranges: bytes\r\nETag: ");
    is_ascii_spec_bytes("Accept-Ranges");
    is_ascii_spec_bytes("Content-Encoding");
    is_ascii_spec_bytes("Content-Type");
    is_ascii_spec_bytes("ETag");
    is_ascii_spec_bytes("application/octet-stream");
    is_ascii_spec_bytes("bytes");
    is_ascii_spec_bytes("gzip");
    assert(text("Content-Type: application/octet-stream\r\nContent-Encoding: gzip\r\nAccept-Ranges: bytes\r\nETag: ") =~= text("Content-Type")
        + seq![COLON, SP] + text("application/octet-stream") + crlf() + text("Content-Encoding")
        + seq![COLON, SP] + text("gzip") + crlf() + text("Accept-Ranges") + seq![COLON, SP] + text("bytes")
        + crlf() + text("ETag") + seq![COLON, SP]);
}

/// A piece of a head, taken apart.
proof fn lemma_multi_fields()
    ensures
        text("\r\nAccept-Ranges: bytes\r\nETag: ") == crlf() + text("Accept-Ranges") + seq![COLON, SP]
            + text("bytes") + crlf() + text("ETag") + seq![COLON, SP],
{
    reveal_strlit("\r\nAccept-Ranges: bytes\r\nETag: ");
    reveal_strlit("Accept-Ranges");
    reveal_strlit("ETag");
    reveal_strlit("bytes");
    is_ascii_spec_bytes("\r\nAccept-Ranges: bytes\r\nETag: ");
    is_ascii_spec_bytes("Accept-Ranges");
    is_ascii_spec_bytes("ETag");
    is_ascii_spec_bytes("bytes");
    assert(text("\r\nAccept-Ranges: bytes\r\nETag: ") =~= crlf() + text("Accept-Ranges") + seq![COLON, SP]
        + text("bytes") + crlf() + text("ETag") + seq![COLON, SP]);
}

/// A piece of a head, taken apart.
proof fn lemma_unsatisfied_field()
    ensures
        text("Content-Range: bytes */") == text("Content-Range") + seq![COLON, SP] + text("bytes */"),
{
    reveal_strlit("Content-Range: bytes */");
    reveal_strlit("Content-Range");
    reveal_strlit("bytes */");
    is_ascii_spec_bytes("Content-Range: bytes */");
    is_ascii_spec_bytes("Content-Range");
    is_ascii_spec_bytes("bytes */");
    assert(text("Content-Range: bytes */") =~= text("Content-Range") + seq![COLON, SP] + text("bytes */"));
}

/// A piece of a head, taken apart.
proof fn lemma_range_field()
    ensures
        text("\r\nContent-Range: bytes ") == crlf() + text("Content-Range") + seq![COLON, SP] + text("bytes "),
{
    reveal_strlit("\r\nContent-Range: bytes ");
    reveal_strlit("Content-Range");
    reveal_strlit("bytes ");
    is_ascii_spec_bytes("\r\nContent-Range: bytes ");
    is_ascii_spec_bytes("Content-Range");
    is_ascii_spec_bytes("bytes ");
    assert(text("\r\nContent-Range: bytes ") =~= crlf() + text("Content-Range") + seq![COLON, SP] + text("bytes "));
}

/// A piece of a head, taken apart.
proof fn lemma_multi_type()
    ensures
        text("Content-Type: multipart/byteranges; boundary=") == text("Content-Type") + seq![COLON, SP]
            + text("multipart/byteranges; boundary="),
{
    reveal_strlit("Content-Type: multipart/byteranges; boundary=");
    reveal_strlit("Content-Type");
    reveal_strlit("multipart/byteranges; boundary=");
    is_ascii_spec_bytes("Content-Type: multipart/byteranges; boundary=");
    is_ascii_spec_bytes("Content-Type");
    is_ascii_spec_bytes("multipart/byteranges; boundary=");
    assert(text("Content-Type: multipart/byteranges; boundary=") =~= text("Content-Type") + seq![COLON, SP]
        + text("multipart/byteranges; boundary="));
}

/// The head of the whole body, field by field.
#[verifier::rlimit(60)]
#[verifier::spinoff_prover]
pub proof fn law_full_head(gz_len: int, date: Seq<u8>, keep_alive: bool)
    ensures
        plan_head(Plan::Full, gz_len, date, keep_alive) == answer_wire(
            200,
            text("OK"),
            seq![
                (text("Date"), date),
                (text("Server"), text("zahttp/0.1")),
                (text("Content-Type"), text("application/octet-stream")),
                (text("Accept-Ranges"), text("bytes")),
                (text("ETag"), text("\"zahttp-bytes-v1\"")),
                (text("Vary"), text("Accept-Encoding")),
                (text("Content-Length"), decimal(65536)),
                connection_field(keep_alive),
            ],
        ),
{
    broadcast use lemma_concat_left;

    let fs = seq![
        (text("Date"), date),
        (text("Server"), text("zahttp/0.1")),
        (text("Content-Type"), text("application/octet-stream")),
        (text("Accept-Ranges"), text("bytes")),
        (text("ETag"), text("\"zahttp-bytes-v1\"")),
        (text("Vary"), text("Accept-Encoding")),
        (text("Content-Length"), decimal(65536)),
        connection_field(keep_alive),
    ];
    lemma_wire_from(fs, 0);
    lemma_wire_from(fs, 1);
    lemma_wire_from(fs, 2);
    lemma_wire_from(fs, 3);
    lemma_wire_from(fs, 4);
    lemma_wire_from(fs, 5);
    lemma_wire_from(fs, 6);
    lemma_wire_from(fs, 7);
    lemma_head_start(200, date);
    lemma_server_line();
    lemma_full_fields();
    lemma_vary_field();
    lemma_length_field();
    lemma_connection_start();
    lemma_head_close();
    lemma_line_close();
    assert(plan_head(Plan::Full, gz_len, date, keep_alive) == answer_wire(200, text("OK"), fs));
}

/// The head of the compressed body, field by field.
#[verifier::rlimit(60)]
#[verifier::spinoff_prover]
pub proof fn law_gzip_head(gz_len: int, date: Seq<u8>, keep_alive: bool)
    ensures
        plan_head(Plan::Gzip, gz_len, date, keep_alive) == answer_wire(
            200,
            text("OK"),
            seq![
                (text("Date"), date),
                (text("Server"), text("zahttp/0.1")),
                (text("Content-Type"), text("application/octet-stream")),
                (text("Content-Encoding"), text("gzip")),
                (text("Accept-Ranges"), text("bytes")),
                (text("ETag"), text("\"zahttp-bytes-v1+gzip\"")),
                (text("Vary"), text("Accept-Encoding")),
                (text("Content-Length"), decimal(gz_len as nat)),
                connection_field(keep_alive),
            ],
        ),
{
    broadcast use lemma_concat_left;

    let fs = seq![
        (text("Date"), date),
        (text("Server"), text("zahttp/0.1")),
        (text("Content-Type"), text("application/octet-stream")),
        (text("Content-Encoding"), text("gzip")),
        (text("Accept-Ranges"), text("bytes")),
        (text("ETag"), text("\"zahttp-bytes-v1+gzip\"")),
        (text("Vary"), text("Accept-Encoding")),
        (text("Content-Length"), decimal(gz_len as nat)),
        connection_field(keep_alive),
    ];
    lemma_wire_from(fs, 0);
    lemma_wire_from(fs, 1);
    lemma_wire_from(fs, 2);
    lemma_wire_from(fs, 3);
    lemma_wire_from(fs, 4);
    lemma_wire_from(fs, 5);
    lemma_wire_from(fs, 6);
    lemma_wire_from(fs, 7);
    lemma_wire_from(fs, 8);
    lemma_head_start(200, date);
    lemma_server_line();
    lemma_gzip_fields();
    lemma_vary_field();
    lemma_length_field();
    lemma_connection_start();
    lemma_head_close();
    lemma_line_close();
    assert(plan_head(Plan::Gzip, gz_len, date, keep_alive) == answer_wire(200, text("OK"), fs));
}

/// The head of an answer that has no body because the client has it, field by field.
#[verifier::rlimit(60)]
#[verifier::spinoff_prover]
pub proof fn law_not_modified_head(gzip: bool, gz_len: int, date: Seq<u8>, keep_alive: bool)
    ensures
        plan_head(Plan::NotModified { gzip }, gz_len, date, keep_alive) == answer_wire(
            304,
            text("Not Modified"),
            seq![
                (text("Date"), date),
                (text("Server"), text("zahttp/0.1")),
                (text("ETag"), if gzip {
                    text("\"zahttp-bytes-v1+gzip\"")
                } else {
                    text("\"zahttp-bytes-v1\"")
                }),
                (text("Vary"), text("Accept-Encoding")),
                connection_field(keep_alive),
            ],
        ),
{
    broadcast use lemma_concat_left;

    let fs = seq![
        (text("Date"), date),
        (text("Server"), text("zahttp/0.1")),
        (text("ETag"), if gzip {
            text("\"zahttp-bytes-v1+gzip\"")
        } else {
            text("\"zahttp-bytes-v1\"")
        }),
        (text("Vary"), text("Accept-Encoding")),
        connection_field(keep_alive),
    ];
    lemma_wire_from(fs, 0);
    lemma_wire_from(fs, 1);
    lemma_wire_from(fs, 2);
    lemma_wire_from(fs, 3);
    lemma_wire_from(fs, 4);
    lemma_head_start(304, date);
    lemma_server_line();
    lemma_etag_field();
    lemma_vary_field();
    lemma_connection_field();
    lemma_head_close();
    lemma_line_close();
    assert(plan_head(Plan::NotModified { gzip }, gz_len, date, keep_alive) == answer_wire(304, text("Not Modified"), fs));
}

/// The head of a refused range, field by field: it tells how long the body is.
#[verifier::rlimit(60)]
#[verifier::spinoff_prover]
pub proof fn law_unsatisfiable_head(gz_len: int, date: Seq<u8>, keep_alive: bool)
    ensures
        plan_head(Plan::Unsatisfiable, gz_len, date, keep_alive) == answer_wire(
            416,
            text("Range Not Satisfiable"),
            seq![
                (text("Date"), date),
                (text("Server"), text("zahttp/0.1")),
                (text("Content-Range"), text("bytes */") + decimal(65536)),
                (text("Content-Length"), decimal(0)),
                connection_field(keep_alive),
            ],
        ),
{
    broadcast use lemma_concat_left;

    let fs = seq![
        (text("Date"), date),
        (text("Server"), text("zahttp/0.1")),
        (text("Content-Range"), text("bytes */") + decimal(65536)),
        (text("Content-Length"), decimal(0)),
        connection_field(keep_alive),
    ];
    lemma_wire_from(fs, 0);
    lemma_wire_from(fs, 1);
    lemma_wire_from(fs, 2);
    lemma_wire_from(fs, 3);
    lemma_wire_from(fs, 4);
    lemma_head_start(416, date);
    lemma_server_line();
    lemma_unsatisfied_field();
    lemma_length_field();
    lemma_connection_start();
    lemma_head_close();
    lemma_line_close();
    assert(plan_head(Plan::Unsatisfiable, gz_len, date, keep_alive) == answer_wire(416, text("Range Not Satisfiable"), fs));
}

/// The head of one range, field by field: it tells which bytes of how many.
pub proof fn law_range_head(rs: Seq<(int, int)>, gz_len: int, date: Seq<u8>, keep_alive: bool)
    requires
        rs.len() == 1,
    ensures
        plan_head(Plan::Ranges(rs), gz_len, date, keep_alive) == answer_wire(
            206,
            text("Partial Content"),
            seq![
                (text("Date"), date),
                (text("Server"), text("zahttp/0.1")),
                (text("Content-Type"), text("application/octet-stream")),
                (text("Accept-Ranges"), text("bytes")),
                (text("ETag"), text("\"zahttp-bytes-v1\"")),
                (
                    text("Content-Range"),
                    text("bytes ") + decimal(rs[0].0 as nat) + text("-") + decimal(rs[0].1 as nat) + text("/")
                        + decimal(65536),
                ),
                (text("Content-Length"), decimal((rs[0].1 - rs[0].0 + 1) as nat)),
                connection_field(keep_alive),
            ],
        ),
{
    let span = text("bytes ") + decimal(rs[0].0 as nat) + text("-") + decimal(rs[0].1 as nat) + text("/")
        + decimal(65536);
    lemma_range_fields(rs);
    lemma_range_wire(plan_fields(Plan::Ranges(rs)), span, (rs[0].1 - rs[0].0 + 1) as nat, date, keep_alive);
}

#[verifier::rlimit(60)]
#[verifier::spinoff_prover]
proof fn lemma_range_fields(rs: Seq<(int, int)>)
    requires
        rs.len() == 1,
    ensures
        plan_fields(Plan::Ranges(rs)) == text(
            "Content-Type: application/octet-stream\r\nAccept-Ranges: bytes\r\nETag: ",
        ) + text("\"zahttp-bytes-v1\"") + crlf() + text("Content-Range") + seq![COLON, SP] + (text("bytes ")
            + decimal(
            rs[0].0 as nat,
        ) + text("-") + decimal(rs[0].1 as nat) + text("/") + decimal(65536)) + crlf(),
{
    broadcast use lemma_concat_left;

    lemma_range_field();
    lemma_line_close();
}

#[verifier::rlimit(60)]
#[verifier::spinoff_prover]
proof fn lemma_range_wire(fields: Seq<u8>, span: Seq<u8>, length: nat, date: Seq<u8>, keep_alive: bool)
    requires
        fields == text("Content-Type: application/octet-stream\r\nAccept-Ranges: bytes\r\nETag: ") + text(
            "\"zahttp-bytes-v1\"",
        ) + crlf() + text("Content-Range") + seq![COLON, SP] + span + crlf(),
    ensures
        range_start(206, date) + fields + range_end(length, keep_alive) == answer_wire(
            206,
            text("Partial Content"),
            seq![
                (text("Date"), date),
                (text("Server"), text("zahttp/0.1")),
                (text("Content-Type"), text("application/octet-stream")),
                (text("Accept-Ranges"), text("bytes")),
                (text("ETag"), text("\"zahttp-bytes-v1\"")),
                (text("Content-Range"), span),
                (text("Content-Length"), decimal(length)),
                connection_field(keep_alive),
            ],
        ),
{
    broadcast use lemma_concat_left;

    let fs = seq![
        (text("Date"), date),
        (text("Server"), text("zahttp/0.1")),
        (text("Content-Type"), text("application/octet-stream")),
        (text("Accept-Ranges"), text("bytes")),
        (text("ETag"), text("\"zahttp-bytes-v1\"")),
        (text("Content-Range"), span),
        (text("Content-Length"), decimal(length)),
        connection_field(keep_alive),
    ];
    lemma_wire_from(fs, 0);
    lemma_wire_from(fs, 1);
    lemma_wire_from(fs, 2);
    lemma_wire_from(fs, 3);
    lemma_wire_from(fs, 4);
    lemma_wire_from(fs, 5);
    lemma_wire_from(fs, 6);
    lemma_wire_from(fs, 7);
    lemma_head_start(206, date);
    lemma_server_line();
    lemma_full_fields();
    lemma_length_field();
    lemma_connection_start();
    lemma_head_close();
    assert(range_start(206, date) + fields + range_end(length, keep_alive) == answer_wire(
        206,
        text("Partial Content"),
        fs,
    ));
}

/// The head of several ranges, field by field: it tells the boundary of the parts.
#[verifier::rlimit(60)]
#[verifier::spinoff_prover]
pub proof fn law_multi_head(rs: Seq<(int, int)>, gz_len: int, date: Seq<u8>, keep_alive: bool)
    requires
        rs.len() > 1,
    ensures
        plan_head(Plan::Ranges(rs), gz_len, date, keep_alive) == answer_wire(
            206,
            text("Partial Content"),
            seq![
                (text("Date"), date),
                (text("Server"), text("zahttp/0.1")),
                (text("Content-Type"), text("multipart/byteranges; boundary=") + text("zahttp-range-7f3a9c")),
                (text("Accept-Ranges"), text("bytes")),
                (text("ETag"), text("\"zahttp-bytes-v1\"")),
                (text("Content-Length"), decimal(plan_length(Plan::Ranges(rs), gz_len) as nat)),
                connection_field(keep_alive),
            ],
        ),
{
    broadcast use lemma_concat_left;

    let fs = seq![
        (text("Date"), date),
        (text("Server"), text("zahttp/0.1")),
        (text("Content-Type"), text("multipart/byteranges; boundary=") + text("zahttp-range-7f3a9c")),
        (text("Accept-Ranges"), text("bytes")),
        (text("ETag"), text("\"zahttp-bytes-v1\"")),
        (text("Content-Length"), decimal(plan_length(Plan::Ranges(rs), gz_len) as nat)),
        connection_field(keep_alive),
    ];
    lemma_wire_from(fs, 0);
    lemma_wire_from(fs, 1);
    lemma_wire_from(fs, 2);
    lemma_wire_from(fs, 3);
    lemma_wire_from(fs, 4);
    lemma_wire_from(fs, 5);
    lemma_wire_from(fs, 6);
    lemma_head_start(206, date);
    lemma_server_line();
    lemma_multi_type();
    lemma_multi_fields();
    lemma_length_field();
    lemma_connection_start();
    lemma_head_close();
    lemma_line_close();
    assert(plan_head(Plan::Ranges(rs), gz_len, date, keep_alive) == answer_wire(206, text("Partial Content"), fs));
}

/// The header lines of a part.
pub open spec fn part_lines_of(r: (int, int), total: int) -> Seq<u8> {
    text("Content-Type: application/octet-stream") + crlf() + text("Content-Range: bytes ")
        + decimal(r.0 as nat) + text(
        "-",
    ) + decimal(r.1 as nat) + text("/") + decimal(total as nat)
}

/// Several ranges are sent as a message in parts: of each its type, which bytes of
/// how many it has, and those bytes.
pub proof fn law_multi_body(rs: Seq<(int, int)>, body: Seq<u8>)
    requires
        rs.len() > 0,
    ensures
        multi_body(rs, body) == form_text(
            Seq::new(rs.len(), |i: int| part_lines_of(rs[i], body.len() as int)),
            Seq::new(rs.len(), |i: int| body.subrange(rs[i].0, rs[i].1 + 1)),
            text("zahttp-range-7f3a9c"),
        ) + crlf(),
    decreases rs.len(),
{
    let heads = Seq::new(rs.len(), |i: int| part_lines_of(rs[i], body.len() as int));
    let slices = Seq::new(rs.len(), |i: int| body.subrange(rs[i].0, rs[i].1 + 1));
    let delim = delimiter(text("zahttp-range-7f3a9c"));
    lemma_part_apart(rs[0], body);
    lemma_parts_end_apart();
    let part = part_bytes(rs[0], body);
    lemma_parts_front(rs, rs.len(), body);
    if rs.len() == 1 {
        assert(parts_bytes(rs.drop_first(), 0, body) =~= Seq::<u8>::empty());
        assert(parts_bytes(rs, 1, body) =~= part);
        lemma_last_part(part, delim, heads[0], slices[0]);
    } else {
        let more = rs.drop_first();
        let h = Seq::new(more.len(), |i: int| part_lines_of(more[i], body.len() as int));
        let b = Seq::new(more.len(), |i: int| body.subrange(more[i].0, more[i].1 + 1));
        law_multi_body(more, body);
        assert(heads.drop_first() =~= h);
        assert(slices.drop_first() =~= b);
        assert(multi_body(rs, body) =~= part + multi_body(more, body));
        lemma_joined_parts(part, delim, heads[0], slices[0], form_tail(h, b, delim));
    }
}

/// A part in front of others.
proof fn lemma_joined_parts(part: Seq<u8>, delim: Seq<u8>, head: Seq<u8>, slice: Seq<u8>, tail: Seq<u8>)
    requires
        part == delim + crlf() + head + head_end_mark() + slice + crlf(),
    ensures
        part + (delim + crlf() + tail + crlf()) == delim + crlf() + (head + head_end_mark() + slice + (crlf() + delim)
            + crlf() + tail) + crlf(),
{
    broadcast use lemma_concat_left;

}

/// The last part.
proof fn lemma_last_part(part: Seq<u8>, delim: Seq<u8>, head: Seq<u8>, slice: Seq<u8>)
    requires
        part == delim + crlf() + head + head_end_mark() + slice + crlf(),
    ensures
        part + (delim + dashes() + crlf()) == delim + crlf() + (head + head_end_mark() + slice + (crlf() + delim)
            + dashes()) + crlf(),
{
    broadcast use lemma_concat_left;

}

proof fn lemma_parts_front(rs: Seq<(int, int)>, k: nat, body: Seq<u8>)
    requires
        0 < k <= rs.len(),
    ensures
        parts_bytes(rs, k, body) == part_bytes(rs[0], body) + parts_bytes(rs.drop_first(), (k - 1) as nat, body),
    decreases k,
{
    let more = rs.drop_first();
    if k > 1 {
        lemma_parts_front(rs, (k - 1) as nat, body);
        assert(more[k - 2] == rs[k - 1]);
    } else {
        assert(parts_bytes(rs, 0, body) =~= Seq::<u8>::empty());
        assert(parts_bytes(more, 0, body) =~= Seq::<u8>::empty());
    }
    assert(parts_bytes(rs, k, body) =~= part_bytes(rs[0], body) + parts_bytes(more, (k - 1) as nat, body));
}

#[verifier::rlimit(60)]
#[verifier::spinoff_prover]
proof fn lemma_part_apart(r: (int, int), body: Seq<u8>)
    ensures
        part_bytes(r, body) == delimiter(text("zahttp-range-7f3a9c")) + crlf() + part_lines_of(r, body.len() as int)
            + head_end_mark() + body.subrange(r.0, r.1 + 1) + crlf(),
{
    broadcast use lemma_concat_left;

    lemma_part_type();
    lemma_line_close();
    lemma_head_close();
    lemma_two_dashes();
    assert(head_end_mark() =~= crlf() + crlf());
}

proof fn lemma_part_type()
    ensures
        text(PART_CT) == text("Content-Type: application/octet-stream") + crlf(),
        text(PART_CR_PRE) == text("Content-Range: bytes "),
{
    reveal_strlit("Content-Type: application/octet-stream\r\n");
    reveal_strlit("Content-Type: application/octet-stream");
    is_ascii_spec_bytes("Content-Type: application/octet-stream\r\n");
    is_ascii_spec_bytes("Content-Type: application/octet-stream");
    assert(text(PART_CT) =~= text("Content-Type: application/octet-stream") + crlf());
}

proof fn lemma_two_dashes()
    ensures
        text("--") == dashes(),
        text("--\r\n") == dashes() + crlf(),
{
    reveal_strlit("--");
    reveal_strlit("--\r\n");
    is_ascii_spec_bytes("--");
    is_ascii_spec_bytes("--\r\n");
    assert(text("--") =~= dashes());
    assert(text("--\r\n") =~= dashes() + crlf());
}

proof fn lemma_parts_end_apart()
    ensures
        parts_end() == delimiter(text("zahttp-range-7f3a9c")) + dashes() + crlf(),
{
    broadcast use lemma_concat_left;

    lemma_two_dashes();
}

/// The body: 65536 bytes, each the top byte of the next number of a generator, which
/// is got from the one before it by a multiplication and an addition modulo two to
/// the thirty-second.
pub proof fn law_body_bytes(i: nat)
    requires
        i < 65536,
    ensures
        range_body().len() == 65536,
        range_body()[i as int] == (body_state(i + 1) >> 24u32) as u8,
        body_state(0) == 0x243F6A88,
        body_state(i + 1) == (body_state(i) * 1664525 + 1013904223) % 0x1_0000_0000,
{
    let p = body_state(i) * 1664525;
    let m = 0x1_0000_0000int;
    assert(body_state(i).wrapping_mul(1664525) == p % m);
    assert((p % m + 1013904223) % m == (p + 1013904223) % m);
}

/// The ranges of a list are those of its members, in order, blanks aside; one that is
/// no range spoils the list.
pub proof fn law_ranges_separate(a: Seq<u8>, b: Seq<u8>, total: int, room: int)
    requires
        lacks(a, 0x2c),
        trimmed(b).len() > 0,
        room > 0,
    ensures
        range_list(a + seq![0x2cu8] + b, total, room) == (match (
            one_range(trimmed(a), total),
            range_list(trimmed(b), total, room - 1),
        ) {
            (Some(r), Some(rs)) => Some(seq![r] + rs),
            _ => None,
        }),
        a.len() > 0 ==> range_list(a, total, room) == (match one_range(trimmed(a), total) {
            Some(r) => Some(seq![r]),
            None => None,
        }),
{
    let s = a + seq![0x2cu8] + b;
    lemma_index_of_is(s, COMMA, a.len() as int);
    lemma_index_of_is(a, COMMA, a.len() as int);
    assert(before(s, COMMA) =~= a);
    assert(before(a, COMMA) =~= a);
    assert(s.skip(a.len() as int + 1) =~= b);
    lemma_trimmed_len(b);
    let none = Seq::<(int, int)>::empty();
    assert(range_list(Seq::<u8>::empty(), total, room - 1) == Some(none));
    if let Some(r) = one_range(trimmed(a), total) {
        assert(seq![r] + none =~= seq![r]);
    }
}

/// Parameters before and behind the weight of a coding do not count: neither those in
/// front of it, as long as they are no weight themselves, nor what follows it behind a
/// semicolon.
pub proof fn law_parameters_around_weight(coding: Seq<u8>, x: Seq<u8>, q: u8, w: Seq<u8>, y: Seq<u8>)
    requires
        coding.len() > 0,
        firm(coding),
        lacks(coding, 0x2c),
        lacks(coding, 0x3b),
        lacks(x, 0x2c),
        lacks(x, 0x3b),
        x.len() >= 2,
        x[0] != 0x20,
        x[1] != 0x3d,
        q == 0x71 || q == 0x51,
        w.len() > 0,
        lacks(w, 0x2c),
        lacks(w, 0x3b),
        lacks(w, 0x20),
        lacks(w, 0x09),
        lacks(y, 0x2c),
        firm(y),
        y.len() > 0 ==> y[0] == 0x3b,
    ensures
        list_admits_gzip(coding + seq![0x3bu8] + x + seq![0x3bu8, q, 0x3du8] + w + y) == ((same_ignoring_case(
            coding,
            gzip_word(),
        ) || coding == seq![0x2au8]) && !says_zero(w)),
{
    reveal_strlit("gzip");
    reveal_strlit("*");
    is_ascii_spec_bytes("gzip");
    is_ascii_spec_bytes("*");
    assert(text("gzip") =~= gzip_word());
    assert(text("*") =~= seq![0x2au8]);
    let t = seq![0x3bu8, q, 0x3du8] + w + y;
    let m = coding + seq![0x3bu8] + x + seq![0x3bu8, q, 0x3du8] + w + y;
    lemma_no_commas(coding, x, q, w, y);
    assert(firm(m)) by {
        assert(m[0] == coding[0]);
        if y.len() > 0 {
            assert(m.last() == y.last());
        } else {
            assert(m.last() == w.last());
            assert(w[w.len() - 1] != SP && w[w.len() - 1] != 0x09);
        }
    }
    assert(m =~= coding + seq![SEMI] + (x + t));
    lemma_one_member(coding, x + t);
    lemma_params_refuse(x, q, w, y);
}

/// A list of one coding with parameters.
proof fn lemma_one_member(coding: Seq<u8>, p: Seq<u8>)
    requires
        coding.len() > 0,
        firm(coding),
        lacks(coding, SEMI),
        lacks(coding + seq![SEMI] + p, COMMA),
        firm(coding + seq![SEMI] + p),
    ensures
        list_admits_gzip(coding + seq![SEMI] + p) == ((same_ignoring_case(coding, text("gzip")) || coding == text("*"))
            && !refuses(seq![SEMI] + p)),
{
    let none = Seq::<u8>::empty();
    let m = coding + seq![SEMI] + p;
    let n = coding.len() as int;
    law_codings_separate(m, none);
    law_trimmed(none, m, none);
    assert(none + m + none =~= m);
    lemma_index_of_is(m, SEMI, n);
    assert(before(m, SEMI) =~= coding);
    law_trimmed(none, coding, none);
    assert(none + coding + none =~= coding);
    assert(m.skip(n) =~= seq![SEMI] + p);
}

/// The weight among other parameters decides.
proof fn lemma_params_refuse(x: Seq<u8>, q: u8, w: Seq<u8>, y: Seq<u8>)
    requires
        lacks(x, SEMI),
        x.len() >= 2,
        x[0] != SP,
        x[1] != EQUALS,
        q == 0x71 || q == 0x51,
        w.len() > 0,
        lacks(w, SEMI),
        lacks(w, SP),
        y.len() > 0 ==> y[0] == SEMI,
    ensures
        refuses(seq![SEMI] + (x + (seq![SEMI, q, EQUALS] + w + y))) == says_zero(w),
{
    let t = seq![SEMI, q, EQUALS] + w + y;
    let params = seq![SEMI] + (x + t);
    assert(params.skip(1) =~= x + t);
    assert(params.drop_first() =~= x + t);
    assert((x + t)[0] == x[0] && (x + t)[1] == x[1]);
    assert(past_spaces(x + t) == x + t);
    assert(weight(x + t) is None);
    assert(refuses(params) == refuses(x + t));
    lemma_refuses_skips(x, t);
    let v = seq![q, EQUALS] + w + y;
    assert(t[0] == SEMI);
    assert(t.skip(1) =~= v);
    assert(past_spaces(v) == v);
    assert(v.skip(2) =~= w + y);
    assert((w + y)[0] == w[0] && w[0] != SP);
    assert(past_spaces(w + y) == w + y);
    lemma_weight_ends(w, y);
    assert(weight(v) == Some(w));
    assert(zero_quality(w) == says_zero(w));
}

proof fn lemma_no_commas(coding: Seq<u8>, x: Seq<u8>, q: u8, w: Seq<u8>, y: Seq<u8>)
    requires
        lacks(coding, 0x2c),
        lacks(x, 0x2c),
        q == 0x71 || q == 0x51,
        lacks(w, 0x2c),
        lacks(y, 0x2c),
    ensures
        lacks(coding + seq![0x3bu8] + x + seq![0x3bu8, q, 0x3du8] + w + y, 0x2c),
{
    let a = coding + seq![0x3bu8];
    let b = a + x;
    let c = b + seq![0x3bu8, q, 0x3du8];
    let d = c + w;
    assert(lacks(a, 0x2c));
    assert(lacks(b, 0x2c));
    assert(lacks(c, 0x2c));
    assert(lacks(d, 0x2c));
    assert(lacks(d + y, 0x2c));
}

/// What is no parameter of its own is passed over.
proof fn lemma_refuses_skips(x: Seq<u8>, t: Seq<u8>)
    requires
        lacks(x, SEMI),
    ensures
        refuses(x + t) == refuses(t),
    decreases x.len(),
{
    if x.len() == 0 {
        assert(x + t =~= t);
    } else {
        let more = x.drop_first();
        assert((x + t)[0] == x[0]);
        assert(x[0] != SEMI);
        assert((x + t).drop_first() =~= more + t);
        assert(lacks(more, SEMI)) by {
            assert forall|i: int| 0 <= i < more.len() implies #[trigger] more[i] != SEMI by {
                assert(more[i] == x[i + 1]);
            }
        }
        lemma_refuses_skips(more, t);
    }
}

/// A weight ends at a semicolon.
proof fn lemma_weight_ends(w: Seq<u8>, y: Seq<u8>)
    requires
        lacks(w, SEMI),
        lacks(w, SP),
        y.len() > 0 ==> y[0] == SEMI,
    ensures
        weight_text(w + y) == w,
    decreases w.len(),
{
    if w.len() == 0 {
        assert(w + y =~= y);
        assert(weight_text(y) =~= w);
    } else {
        let more = w.drop_first();
        assert((w + y)[0] == w[0]);
        assert(w[0] != SEMI && w[0] != SP);
        assert((w + y).drop_first() =~= more + y);
        assert(lacks(more, SEMI) && lacks(more, SP)) by {
            assert forall|i: int| 0 <= i < more.len() implies #[trigger] more[i] != SEMI && more[i] != SP by {
                assert(more[i] == w[i + 1]);
            }
        }
        lemma_weight_ends(more, y);
        assert(seq![w[0]] + more =~= w);
    }
}

} // verus!
