//! Chunked bodies: a decoder that takes the encoded bytes in pieces of any size
//! and answers as if it had seen them all at once.
use vstd::prelude::*;
use vstd::slice::slice_subrange;

use crate::buf::{copy_bytes, hex, hex_digit, BODY_CAP};
use crate::bytes::{
    all_blank, before, crlf, find_sub, firm, lemma_find_prefix, lemma_find_sub, lemma_find_sub_is, lemma_find_sub_none,
    lemma_index_of, lemma_trim_back, lemma_trim_front, occurs_at, CR, LF, SEMI, ZERO,
};
use crate::http::{
    chunk_size, forbidden_trailer, hex_value, hex_worth, is_forbidden_trailer, is_hex, lacks, law_trailer_as_written,
    lemma_hex_run, lemma_line_end, parse_chunk_size, token, trailer_field, trailer_name, TrailerStore, MAX_TRAILERS,
    TRAILER_LINE_MAX,
};

verus! {

/// Longest chunk-size line.
pub const SIZE_LINE_MAX: usize = 64;

// ---- what an encoded body means ---------------------------------------------

/// The first line of an input that may go on.
pub enum FirstLine {
    /// Its end has not come yet.
    Partial,
    /// It is longer than allowed, whatever follows.
    TooLong,
    /// It is complete; this is what stands before its CRLF.
    Whole(Seq<u8>),
}

/// `s` without a carriage return at its end, which may belong to a line end.
pub open spec fn without_cr(s: Seq<u8>) -> Seq<u8> {
    if s.len() > 0 && s.last() == CR {
        s.drop_last()
    } else {
        s
    }
}

/// The first line of `s`, of at most `max` bytes.
pub open spec fn first_line(s: Seq<u8>, max: int) -> FirstLine {
    match find_sub(s, crlf()) {
        Some(p) => if p > max {
            FirstLine::TooLong
        } else {
            FirstLine::Whole(s.take(p))
        },
        None => if without_cr(s).len() > max {
            FirstLine::TooLong
        } else {
            FirstLine::Partial
        },
    }
}

/// What is known of an encoded body from the bytes that have come.
pub enum Decoding {
    /// More bytes are needed.
    Partial,
    /// It is refused with this status.
    Fail(u16),
    /// It is complete: the decoded body, the trailer lines, and the bytes that
    /// follow it.
    Done { body: Seq<u8>, trailers: Seq<Seq<u8>>, rest: Seq<u8> },
}

/// Longest trailer line once `kept` lines are there: past the last one only the
/// empty line may come.
pub open spec fn trailer_max(kept: int) -> int {
    if kept >= MAX_TRAILERS {
        SIZE_LINE_MAX as int
    } else {
        TRAILER_LINE_MAX as int
    }
}

/// Chunks from a size line on, `body` being decoded already, `cap` the most that
/// may be decoded in all.
pub open spec fn chunks(s: Seq<u8>, body: Seq<u8>, cap: int) -> Decoding
    decreases s.len(), 1int,
{
    match first_line(s, SIZE_LINE_MAX as int) {
        FirstLine::Partial => Decoding::Partial,
        FirstLine::TooLong => Decoding::Fail(400),
        FirstLine::Whole(line) => {
            let rest = s.skip(line.len() as int + 2);
            match chunk_size(line) {
                Err(status) => Decoding::Fail(status),
                Ok(size) => if size == 0 {
                    trailer_section(rest, body, Seq::<Seq<u8>>::empty())
                } else if size > cap - body.len() {
                    Decoding::Fail(413)
                } else if rest.len() < s.len() {
                    chunk_data(rest, size as int, body, cap)
                } else {
                    Decoding::Partial
                },
            }
        },
    }
}

/// `size` bytes of data, a CRLF, and further chunks.
pub open spec fn chunk_data(s: Seq<u8>, size: int, body: Seq<u8>, cap: int) -> Decoding
    decreases s.len(), 0int,
{
    if s.len() < size + 2 || size < 0 {
        Decoding::Partial
    } else if s.subrange(size, size + 2) == crlf() {
        chunks(s.skip(size + 2), body + s.take(size), cap)
    } else {
        Decoding::Fail(400)
    }
}

/// Trailer lines up to the empty line that ends the body.
pub open spec fn trailer_section(s: Seq<u8>, body: Seq<u8>, kept: Seq<Seq<u8>>) -> Decoding
    decreases s.len(),
{
    match first_line(s, trailer_max(kept.len() as int)) {
        FirstLine::Partial => Decoding::Partial,
        FirstLine::TooLong => Decoding::Fail(400),
        FirstLine::Whole(line) => {
            let rest = s.skip(line.len() as int + 2);
            if line.len() == 0 {
                Decoding::Done { body, trailers: kept, rest }
            } else if kept.len() >= MAX_TRAILERS {
                Decoding::Fail(400)
            } else {
                match trailer_field(line) {
                    Err(status) => Decoding::Fail(status),
                    Ok(name) => if forbidden_trailer(name) {
                        Decoding::Fail(400)
                    } else if rest.len() < s.len() {
                        trailer_section(rest, body, kept.push(line))
                    } else {
                        Decoding::Partial
                    },
                }
            }
        },
    }
}

/// What an encoded body means, `cap` being the longest body that is accepted.
pub open spec fn decoding(s: Seq<u8>, cap: int) -> Decoding {
    chunks(s, Seq::<u8>::empty(), cap)
}

// ---- lines in pieces --------------------------------------------------------

/// A found line end stays the first one when more follows.
proof fn lemma_find_extends(s: Seq<u8>, t: Seq<u8>)
    ensures
        find_sub(s, crlf()) matches Some(p) ==> 0 <= p && p + 2 <= s.len() && find_sub(s + t, crlf()) == Some(p),
{
    lemma_find_sub(s, crlf());
    if let Some(p) = find_sub(s, crlf()) {
        let u = s + t;
        assert forall|j: int| 0 <= j < p implies !occurs_at(u, j, crlf()) by {
            assert(u.subrange(j, j + 2) =~= s.subrange(j, j + 2));
            assert(!occurs_at(s, j, crlf()));
        }
        assert(u.subrange(p, p + 2) =~= s.subrange(p, p + 2));
        lemma_find_sub_is(u, crlf(), p);
    }
}

/// Bounds of a whole line.
proof fn lemma_first_line(s: Seq<u8>, max: int)
    ensures
        first_line(s, max) matches FirstLine::Whole(l) ==> l.len() <= max && l.len() + 2 <= s.len() && l == s.take(
            l.len() as int,
        ),
{
    lemma_find_sub(s, crlf());
}

/// A line that is decided stays as it is when more follows.
proof fn lemma_first_line_extends(s: Seq<u8>, t: Seq<u8>, max: int)
    ensures
        first_line(s, max) !is Partial ==> first_line(s + t, max) == first_line(s, max),
{
    lemma_find_extends(s, t);
    match find_sub(s, crlf()) {
        Some(p) => {
            assert((s + t).take(p) =~= s.take(p));
        },
        None => {
            if without_cr(s).len() > max {
                let u = s + t;
                lemma_find_sub(u, crlf());
                lemma_find_sub(s, crlf());
                match find_sub(u, crlf()) {
                    Some(q) => {
                        if q + 2 <= s.len() {
                            assert(s.subrange(q, q + 2) =~= u.subrange(q, q + 2));
                            assert(occurs_at(s, q, crlf()));
                        }
                        if q <= max {
                            assert(u.subrange(q, q + 2)[0] == u[q]);
                            assert(s.last() == CR);
                        }
                    },
                    None => {},
                }
            }
        },
    }
}

/// One more byte of a line that is not complete.
proof fn lemma_first_line_step(s: Seq<u8>, b: u8)
    requires
        find_sub(s, crlf()) is None,
    ensures
        s.len() > 0 && s.last() == CR && b == LF ==> find_sub(s.push(b), crlf()) == Some(s.len() - 1),
        !(s.len() > 0 && s.last() == CR && b == LF) ==> find_sub(s.push(b), crlf()) is None,
{
    let u = s.push(b);
    lemma_find_sub(s, crlf());
    assert forall|j: int| 0 <= j < s.len() - 1 implies !occurs_at(u, j, crlf()) by {
        assert(u.subrange(j, j + 2) =~= s.subrange(j, j + 2));
        assert(!occurs_at(s, j, crlf()));
    }
    if s.len() > 0 && s.last() == CR && b == LF {
        assert(u.subrange(s.len() - 1, s.len() as int + 1) =~= crlf());
        lemma_find_sub_is(u, crlf(), s.len() - 1);
    } else {
        assert forall|j: int| 0 <= j <= u.len() - 2 implies !occurs_at(u, j, crlf()) by {
            if j == s.len() - 1 {
                assert(u.subrange(j, j + 2)[0] == s.last());
                assert(u.subrange(j, j + 2)[1] == b);
            }
        }
        lemma_find_sub_none(u, crlf());
    }
}

/// A line under way: the bytes that have come, and whether the last of them was
/// a carriage return that may belong to the line end.
pub struct LineReader {
    pub line: [u8; TRAILER_LINE_MAX],
    pub llen: usize,
    pub cr: bool,
}

/// How far a line has come.
pub enum LineStep {
    More,
    TooLong,
    Whole(usize),
}

impl LineReader {
    pub open spec fn partial(&self) -> Seq<u8> {
        if self.cr {
            self.line@.take(self.llen as int).push(CR)
        } else {
            self.line@.take(self.llen as int)
        }
    }

    /// The line has come so far, and may still be one of at most `max` bytes.
    pub open spec fn wf(&self, max: int) -> bool {
        &&& self.llen <= max <= TRAILER_LINE_MAX
        &&& find_sub(self.partial(), crlf()) is None
        &&& !self.cr && self.llen > 0 ==> self.line@[self.llen - 1] != CR
    }

    pub fn new() -> (r: LineReader)
        ensures
            r.partial() == Seq::<u8>::empty(),
            forall|max: int| 0 <= max <= TRAILER_LINE_MAX ==> r.wf(max),
    {
        let r = LineReader { line: [0u8; TRAILER_LINE_MAX], llen: 0, cr: false };
        assert(r.partial() =~= Seq::<u8>::empty());
        r
    }

    /// Reads on from `input[pos..]` until the line is complete or the input ends.
    /// Returns where it stopped. A complete line stands in `line`.
    pub fn read_line(&mut self, input: &[u8], pos: usize, max: usize) -> (r: (usize, LineStep))
        requires
            old(self).wf(max as int),
            pos <= input@.len(),
        ensures
            ({
                let s = old(self).partial() + input@.skip(pos as int);
                match r.1 {
                    LineStep::More => {
                        &&& first_line(s, max as int) is Partial
                        &&& r.0 == input@.len()
                        &&& final(self).partial() == s
                        &&& final(self).wf(max as int)
                    },
                    LineStep::TooLong => first_line(s, max as int) is TooLong,
                    LineStep::Whole(n) => {
                        &&& first_line(s, max as int) == FirstLine::Whole(final(self).line@.take(n as int))
                        &&& pos < r.0 <= input@.len()
                        &&& n <= max
                        &&& s.skip(n + 2) == input@.skip(r.0 as int)
                        &&& final(self).llen == 0
                        &&& !final(self).cr
                    },
                }
            }),
    {
        let ghost start = self.partial();
        let ghost s = start + input@.skip(pos as int);
        let mut i: usize = pos;
        assert(start + input@.subrange(pos as int, pos as int) =~= start);
        while i < input.len()
            invariant
                pos <= i <= input@.len(),
                self.wf(max as int),
                start == old(self).partial(),
                s == start + input@.skip(pos as int),
                self.partial() == start + input@.subrange(pos as int, i as int),
            decreases input@.len() - i,
        {
            let b: u8 = input[i];
            let ghost before = self.partial();
            let ghost line0 = self.line@.take(self.llen as int);
            let ghost seen = before.push(b);
            let ghost rest = input@.skip(i + 1);
            proof {
                assert(seen =~= start + input@.subrange(pos as int, i + 1));
                assert(seen + rest =~= s);
                lemma_first_line_step(before, b);
                lemma_first_line_extends(seen, rest, max as int);
            }
            i += 1;
            if self.cr && b == LF {
                let n: usize = self.llen;
                self.llen = 0;
                self.cr = false;
                proof {
                    assert(seen.take(n as int) =~= line0);
                    assert(s.skip(n + 2) =~= rest);
                }
                return (i, LineStep::Whole(n));
            }
            if self.cr {
                if self.llen == max {
                    return (i, LineStep::TooLong);
                }
                self.line[self.llen] = CR;
                self.llen = self.llen + 1;
                self.cr = false;
                assert(self.partial() =~= before);
            }
            if b == CR {
                self.cr = true;
            } else {
                if self.llen == max {
                    return (i, LineStep::TooLong);
                }
                self.line[self.llen] = b;
                self.llen = self.llen + 1;
            }
            assert(self.partial() =~= seen);
        }
        assert(input@.subrange(pos as int, i as int) =~= input@.skip(pos as int));
        (i, LineStep::More)
    }
}

// ---- bodies in pieces -------------------------------------------------------

/// Where a body is under way.
#[derive(PartialEq, Eq, Structural, Clone, Copy)]
pub enum Phase {
    Size,
    Data,
    DataEnd,
    Trailers,
}

/// A chunked body under way. Decoded bytes go to `out`, trailer lines to
/// `trailers`.
pub struct Decoder {
    pub out: [u8; BODY_CAP],
    pub dlen: usize,
    pub reader: LineReader,
    pub trailers: TrailerStore,
    pub phase: Phase,
    /// Data bytes of the chunk that have not come yet.
    pub remaining: usize,
    /// The first of the two bytes that end a chunk's data.
    pub first: Option<u8>,
    /// Every encoded byte that has come.
    pub seen: Ghost<Seq<u8>>,
}

/// What a piece of input did to a body under way.
pub enum Outcome {
    /// All of it is used up, and more is needed.
    More,
    /// The body is refused.
    Fail(u16),
    /// The body is complete; this many bytes of the input belong to it.
    Done(usize),
}

/// What one step through a piece of input did.
enum Piece {
    Go(usize),
    More,
    Fail(u16),
    Done(usize),
}

/// A first byte that may have come already.
pub open spec fn with_first(first: Option<u8>, t: Seq<u8>) -> Seq<u8> {
    match first {
        Some(b) => seq![b] + t,
        None => t,
    }
}

/// A step from `was` at `input[pos..]` to `new` keeps what the body comes to.
spec fn stepped(was: Decoder, new: Decoder, input: Seq<u8>, pos: int, piece: Piece) -> bool {
    match piece {
        Piece::Go(p) => {
            &&& pos < p <= input.len()
            &&& new.sound()
            &&& forall|t: Seq<u8>|
                #![trigger was.meaning(input.skip(pos) + t)]
                was.meaning(input.skip(pos) + t) == new.meaning(input.skip(p as int) + t)
        },
        Piece::More => {
            &&& new.sound()
            &&& new.meaning(Seq::<u8>::empty()) is Partial
            &&& forall|t: Seq<u8>|
                #![trigger was.meaning(input.skip(pos) + t)]
                was.meaning(input.skip(pos) + t) == new.meaning(t)
        },
        Piece::Fail(status) => was.meaning(input.skip(pos)) == Decoding::Fail(status),
        Piece::Done(p) => {
            &&& pos <= p <= input.len()
            &&& new.dlen <= new.out@.len()
            &&& new.trailers.wf()
            &&& was.meaning(input.skip(pos)) == (Decoding::Done {
                body: new.body(),
                trailers: new.trailers.entries(),
                rest: input.skip(p as int),
            })
        },
    }
}

/// Data bytes may come in pieces.
proof fn lemma_data_split(x: Seq<u8>, t: Seq<u8>, size: int, body: Seq<u8>, cap: int)
    requires
        x.len() <= size,
    ensures
        chunk_data(x + t, size, body, cap) == chunk_data(t, size - x.len(), body + x, cap),
{
    let k = size - x.len();
    if t.len() >= k + 2 {
        assert((x + t).subrange(size, size + 2) =~= t.subrange(k, k + 2));
        assert((x + t).skip(size + 2) =~= t.skip(k + 2));
        assert(body + (x + t).take(size) =~= (body + x) + t.take(k));
    }
}

/// The two bytes after a chunk's data decide the rest.
proof fn lemma_data_end(a: u8, b: u8, tail: Seq<u8>, rest: Seq<u8>, t: Seq<u8>, body: Seq<u8>, cap: int)
    requires
        tail == seq![b] + rest,
    ensures
        chunk_data(seq![a] + (tail + t), 0, body, cap) == (if a == CR && b == LF {
            chunks(rest + t, body, cap)
        } else {
            Decoding::Fail(400)
        }),
{
    let u = seq![a] + (tail + t);
    let two = u.subrange(0, 2);
    assert(two[0] == a && two[1] == b);
    assert(a == CR && b == LF ==> two =~= crlf());
    assert(u.skip(2) =~= rest + t);
    assert(body + u.take(0) =~= body);
}

/// A complete size line decides the rest.
proof fn lemma_chunks_line(s: Seq<u8>, line: Seq<u8>, t: Seq<u8>, body: Seq<u8>, cap: int)
    requires
        first_line(s, SIZE_LINE_MAX as int) == FirstLine::Whole(line),
    ensures
        chunks(s + t, body, cap) == (match chunk_size(line) {
            Err(status) => Decoding::Fail(status),
            Ok(size) => if size == 0 {
                trailer_section(s.skip(line.len() as int + 2) + t, body, Seq::<Seq<u8>>::empty())
            } else if size > cap - body.len() {
                Decoding::Fail(413)
            } else {
                chunk_data(s.skip(line.len() as int + 2) + t, size as int, body, cap)
            },
        }),
{
    let max = SIZE_LINE_MAX as int;
    lemma_first_line(s, max);
    lemma_first_line_extends(s, t, max);
    assert((s + t).skip(line.len() as int + 2) =~= s.skip(line.len() as int + 2) + t);
}

/// A complete trailer line decides the rest.
proof fn lemma_trailers_line(s: Seq<u8>, line: Seq<u8>, t: Seq<u8>, body: Seq<u8>, kept: Seq<Seq<u8>>)
    requires
        first_line(s, trailer_max(kept.len() as int)) == FirstLine::Whole(line),
    ensures
        trailer_section(s + t, body, kept) == (if line.len() == 0 {
            (Decoding::Done { body, trailers: kept, rest: s.skip(line.len() as int + 2) + t })
        } else if kept.len() >= MAX_TRAILERS {
            Decoding::Fail(400)
        } else {
            match trailer_field(line) {
                Err(status) => Decoding::Fail(status),
                Ok(name) => if forbidden_trailer(name) {
                    Decoding::Fail(400)
                } else {
                    trailer_section(s.skip(line.len() as int + 2) + t, body, kept.push(line))
                },
            }
        }),
{
    let max = trailer_max(kept.len() as int);
    lemma_first_line(s, max);
    lemma_first_line_extends(s, t, max);
    assert((s + t).skip(line.len() as int + 2) =~= s.skip(line.len() as int + 2) + t);
}

/// Between lines nothing is held back.
proof fn lemma_no_line(reader: LineReader)
    requires
        reader.llen == 0,
        !reader.cr,
    ensures
        reader.partial() == Seq::<u8>::empty(),
        forall|max: int| 0 <= max <= TRAILER_LINE_MAX ==> reader.wf(max),
{
    assert(reader.partial() =~= Seq::<u8>::empty());
    lemma_find_sub_none(Seq::<u8>::empty(), crlf());
}

/// More of a line keeps what the body comes to.
proof fn lemma_line_more(was: Decoder, new: Decoder, input: Seq<u8>, pos: int)
    requires
        was.phase == Phase::Size || was.phase == Phase::Trailers,
        new.phase == was.phase,
        new.body() == was.body(),
        new.trailers == was.trailers,
        new.reader.partial() == was.reader.partial() + input.skip(pos),
        was.phase == Phase::Size ==> first_line(new.reader.partial(), SIZE_LINE_MAX as int) is Partial,
        was.phase == Phase::Trailers ==> first_line(
            new.reader.partial(),
            trailer_max(was.trailers.count as int),
        ) is Partial,
    ensures
        new.meaning(Seq::<u8>::empty()) is Partial,
        forall|t: Seq<u8>|
            #![trigger was.meaning(input.skip(pos) + t)]
            was.meaning(input.skip(pos) + t) == new.meaning(t),
{
    assert(new.reader.partial() + Seq::<u8>::empty() =~= new.reader.partial());
    assert forall|t: Seq<u8>|
        #![trigger was.meaning(input.skip(pos) + t)]
        was.meaning(input.skip(pos) + t) == new.meaning(t) by {
        assert(was.reader.partial() + (input.skip(pos) + t) =~= new.reader.partial() + t);
    }
}

/// Taking a size line keeps what the body comes to.
proof fn lemma_size_step(was: Decoder, new: Decoder, input: Seq<u8>, pos: int, p: int, line: Seq<u8>)
    requires
        was.phase == Phase::Size,
        new.body() == was.body(),
        was.dlen <= was.out@.len(),
        first_line(was.reader.partial() + input.skip(pos), SIZE_LINE_MAX as int) == FirstLine::Whole(line),
        (was.reader.partial() + input.skip(pos)).skip(line.len() as int + 2) == input.skip(p),
        match chunk_size(line) {
            Err(_) => false,
            Ok(size) => if size == 0 {
                &&& new.phase == Phase::Trailers
                &&& new.reader.partial() == Seq::<u8>::empty()
                &&& new.trailers.entries() == Seq::<Seq<u8>>::empty()
            } else {
                &&& new.phase == Phase::Data
                &&& new.remaining == size
                &&& size <= BODY_CAP as int - was.body().len()
            },
        },
    ensures
        forall|t: Seq<u8>|
            #![trigger was.meaning(input.skip(pos) + t)]
            was.meaning(input.skip(pos) + t) == new.meaning(input.skip(p) + t),
{
    let s = was.reader.partial() + input.skip(pos);
    assert forall|t: Seq<u8>|
        #![trigger was.meaning(input.skip(pos) + t)]
        was.meaning(input.skip(pos) + t) == new.meaning(input.skip(p) + t) by {
        lemma_chunks_line(s, line, t, was.body(), BODY_CAP as int);
        assert(was.reader.partial() + (input.skip(pos) + t) =~= s + t);
        assert(Seq::<u8>::empty() + (input.skip(p) + t) =~= input.skip(p) + t);
    }
}

/// Keeping a trailer line keeps what the body comes to.
proof fn lemma_trailer_step(was: Decoder, new: Decoder, input: Seq<u8>, pos: int, p: int, line: Seq<u8>)
    requires
        was.phase == Phase::Trailers,
        new.phase == Phase::Trailers,
        new.body() == was.body(),
        new.reader.partial() == Seq::<u8>::empty(),
        first_line(was.reader.partial() + input.skip(pos), trailer_max(was.trailers.count as int))
            == FirstLine::Whole(line),
        (was.reader.partial() + input.skip(pos)).skip(line.len() as int + 2) == input.skip(p),
        line.len() > 0,
        was.trailers.count < MAX_TRAILERS,
        trailer_field(line) matches Ok(name) && !forbidden_trailer(name),
        new.trailers.entries() == was.trailers.entries().push(line),
    ensures
        forall|t: Seq<u8>|
            #![trigger was.meaning(input.skip(pos) + t)]
            was.meaning(input.skip(pos) + t) == new.meaning(input.skip(p) + t),
{
    let s = was.reader.partial() + input.skip(pos);
    assert forall|t: Seq<u8>|
        #![trigger was.meaning(input.skip(pos) + t)]
        was.meaning(input.skip(pos) + t) == new.meaning(input.skip(p) + t) by {
        lemma_trailers_line(s, line, t, was.body(), was.trailers.entries());
        assert(was.reader.partial() + (input.skip(pos) + t) =~= s + t);
        assert(Seq::<u8>::empty() + (input.skip(p) + t) =~= input.skip(p) + t);
    }
}

/// Holding the first byte of a line end keeps what the body comes to.
proof fn lemma_first_step(was: Decoder, now: Decoder, input: Seq<u8>, pos: int)
    requires
        0 <= pos < input.len(),
        was.phase == Phase::DataEnd,
        now.phase == Phase::DataEnd,
        was.first is None,
        now.first == Some(input[pos]),
        now.body() == was.body(),
    ensures
        forall|t: Seq<u8>|
            #![trigger was.meaning(input.skip(pos) + t)]
            was.meaning(input.skip(pos) + t) == now.meaning(input.skip(pos + 1) + t),
{
    assert forall|t: Seq<u8>|
        #![trigger was.meaning(input.skip(pos) + t)]
        was.meaning(input.skip(pos) + t) == now.meaning(input.skip(pos + 1) + t) by {
        assert(input.skip(pos) + t =~= seq![input[pos]] + (input.skip(pos + 1) + t));
    }
}

/// A complete line end keeps what the body comes to.
proof fn lemma_second_step(was: Decoder, now: Decoder, input: Seq<u8>, pos: int)
    requires
        0 <= pos < input.len(),
        was.phase == Phase::DataEnd,
        now.phase == Phase::Size,
        was.first == Some(CR),
        input[pos] == LF,
        now.reader.partial() == Seq::<u8>::empty(),
        now.body() == was.body(),
    ensures
        forall|t: Seq<u8>|
            #![trigger was.meaning(input.skip(pos) + t)]
            was.meaning(input.skip(pos) + t) == now.meaning(input.skip(pos + 1) + t),
{
    let tail = input.skip(pos);
    let rest = input.skip(pos + 1);
    assert(tail =~= seq![LF] + rest);
    assert forall|t: Seq<u8>|
        #![trigger was.meaning(input.skip(pos) + t)]
        was.meaning(input.skip(pos) + t) == now.meaning(input.skip(pos + 1) + t) by {
        lemma_data_end(CR, LF, tail, rest, t, was.body(), BODY_CAP as int);
        assert(Seq::<u8>::empty() + (rest + t) =~= rest + t);
    }
}

/// Taking some data bytes keeps what the body comes to.
proof fn lemma_data_step(was: Decoder, new: Decoder, input: Seq<u8>, pos: int, take: int)
    requires
        was.phase == Phase::Data,
        0 <= pos <= pos + take <= input.len(),
        take <= was.remaining,
        new.body() == was.body() + input.subrange(pos, pos + take),
        new.remaining == was.remaining - take,
        new.remaining > 0 ==> new.phase == Phase::Data && pos + take == input.len(),
        new.remaining == 0 ==> new.phase == Phase::DataEnd && new.first is None,
    ensures
        forall|t: Seq<u8>|
            #![trigger was.meaning(input.skip(pos) + t)]
            was.meaning(input.skip(pos) + t) == new.meaning(input.skip(pos + take) + t),
        new.remaining > 0 ==> forall|t: Seq<u8>|
            #![trigger was.meaning(input.skip(pos) + t)]
            was.meaning(input.skip(pos) + t) == new.meaning(t),
{
    let x = input.subrange(pos, pos + take);
    let rest = input.skip(pos + take);
    assert forall|t: Seq<u8>|
        #![trigger was.meaning(input.skip(pos) + t)]
        was.meaning(input.skip(pos) + t) == new.meaning(rest + t) by {
        lemma_data_split(x, rest + t, was.remaining as int, was.body(), BODY_CAP as int);
        assert(x + (rest + t) =~= input.skip(pos) + t);
    }
    if new.remaining > 0 {
        assert forall|t: Seq<u8>|
            #![trigger was.meaning(input.skip(pos) + t)]
            was.meaning(input.skip(pos) + t) == new.meaning(t) by {
            assert(was.meaning(input.skip(pos) + t) == new.meaning(rest + t));
            assert(rest + t =~= t);
        }
    }
}

impl Decoder {
    /// What is decoded so far.
    pub open spec fn body(&self) -> Seq<u8> {
        self.out@.take(self.dlen as int)
    }

    /// What the body comes to if `t` is all that follows.
    pub open spec fn meaning(&self, t: Seq<u8>) -> Decoding {
        match self.phase {
            Phase::Size => chunks(self.reader.partial() + t, self.body(), BODY_CAP as int),
            Phase::Data => chunk_data(t, self.remaining as int, self.body(), BODY_CAP as int),
            Phase::DataEnd => chunk_data(with_first(self.first, t), 0, self.body(), BODY_CAP as int),
            Phase::Trailers => trailer_section(self.reader.partial() + t, self.body(), self.trailers.entries()),
        }
    }

    /// The parts of the state fit together.
    pub open spec fn sound(&self) -> bool {
        &&& self.dlen <= self.out@.len()
        &&& self.trailers.wf()
        &&& match self.phase {
            Phase::Size => self.reader.wf(SIZE_LINE_MAX as int) && self.trailers.count == 0,
            Phase::Data => {
                &&& 0 < self.remaining <= self.out@.len() - self.dlen
                &&& self.reader.llen == 0 && !self.reader.cr
                &&& self.trailers.count == 0
            },
            Phase::DataEnd => self.reader.llen == 0 && !self.reader.cr && self.trailers.count == 0,
            Phase::Trailers => self.reader.wf(trailer_max(self.trailers.count as int)),
        }
    }

    /// The state stands for the bytes that have come.
    pub open spec fn wf(&self) -> bool {
        &&& self.sound()
        &&& decoding(self.seen@, BODY_CAP as int) is Partial
        &&& forall|t: Seq<u8>| #[trigger] decoding(self.seen@ + t, BODY_CAP as int) == self.meaning(t)
    }

    /// A body of which nothing has come.
    pub fn new() -> (r: Decoder)
        ensures
            r.wf(),
            r.seen@ == Seq::<u8>::empty(),
    {
        let r = Decoder {
            out: [0u8; BODY_CAP],
            dlen: 0,
            reader: LineReader::new(),
            trailers: TrailerStore::empty(),
            phase: Phase::Size,
            remaining: 0,
            first: None,
            seen: Ghost(Seq::<u8>::empty()),
        };
        proof {
            let e = Seq::<u8>::empty();
            lemma_find_sub_none(e, crlf());
            assert(r.body() =~= e);
            assert forall|t: Seq<u8>| #[trigger] decoding(e + t, BODY_CAP as int) == r.meaning(t) by {
                assert(e + t =~= t);
            }
        }
        r
    }

    /// Reads a chunk-size line.
    fn size_line(&mut self, input: &[u8], pos: usize) -> (r: Piece)
        requires
            old(self).sound(),
            old(self).phase == Phase::Size,
            pos <= input@.len(),
        ensures
            stepped(*old(self), *final(self), input@, pos as int, r),
            final(self).seen@ == old(self).seen@,
    {
        let ghost s = self.reader.partial() + input@.skip(pos as int);
        let (p, step) = self.reader.read_line(input, pos, SIZE_LINE_MAX);
        match step {
            LineStep::More => {
                proof {
                    lemma_line_more(*old(self), *self, input@, pos as int);
                }
                Piece::More
            },
            LineStep::TooLong => Piece::Fail(400),
            LineStep::Whole(n) => {
                let ghost line = self.reader.line@.take(n as int);
                proof {
                    assert(self.reader.line@.subrange(0, n as int) =~= line);
                    lemma_chunks_line(s, line, Seq::<u8>::empty(), self.body(), BODY_CAP as int);
                    assert(s + Seq::<u8>::empty() =~= s);
                    lemma_no_line(self.reader);
                }
                match parse_chunk_size(slice_subrange(&self.reader.line, 0, n)) {
                    Err(status) => Piece::Fail(status),
                    Ok(size) => {
                        if size == 0 {
                            self.phase = Phase::Trailers;
                            proof {
                                assert(self.trailers.entries() =~= Seq::<Seq<u8>>::empty());
                                lemma_size_step(*old(self), *self, input@, pos as int, p as int, line);
                            }
                            Piece::Go(p)
                        } else if size > self.out.len() - self.dlen {
                            Piece::Fail(413)
                        } else {
                            self.phase = Phase::Data;
                            self.remaining = size;
                            proof {
                                lemma_size_step(*old(self), *self, input@, pos as int, p as int, line);
                            }
                            Piece::Go(p)
                        }
                    },
                }
            },
        }
    }

    /// Takes data bytes of the chunk.
    fn data(&mut self, input: &[u8], pos: usize) -> (r: Piece)
        requires
            old(self).sound(),
            old(self).phase == Phase::Data,
            pos <= input@.len(),
        ensures
            stepped(*old(self), *final(self), input@, pos as int, r),
            final(self).seen@ == old(self).seen@,
    {
        let left: usize = input.len() - pos;
        let take: usize = if left < self.remaining {
            left
        } else {
            self.remaining
        };
        let ghost tail = input@.skip(pos as int);
        let piece = slice_subrange(input, pos, pos + take);
        let ghost x = piece@;
        assert(self.dlen + take <= self.out.len());
        copy_bytes(&mut self.out, self.dlen, piece);
        self.dlen = self.dlen + take;
        self.remaining = self.remaining - take;
        if self.remaining == 0 {
            self.phase = Phase::DataEnd;
            self.first = None;
        }
        proof {
            assert(self.body() =~= old(self).body() + x);
            lemma_data_step(*old(self), *self, input@, pos as int, take as int);
        }
        if self.remaining > 0 {
            Piece::More
        } else {
            Piece::Go(pos + take)
        }
    }

    /// Takes the CRLF after a chunk's data, which may come in two pieces.
    fn expect_crlf(&mut self, input: &[u8], pos: usize) -> (r: Piece)
        requires
            old(self).sound(),
            old(self).phase == Phase::DataEnd,
            pos < input@.len(),
        ensures
            stepped(*old(self), *final(self), input@, pos as int, r),
            final(self).seen@ == old(self).seen@,
    {
        let b: u8 = input[pos];
        assert(pos < input.len());
        match self.first {
            None => {
                self.first = Some(b);
                proof {
                    lemma_first_step(*old(self), *self, input@, pos as int);
                }
                Piece::Go(pos + 1)
            },
            Some(a) => {
                if a == CR && b == LF {
                    self.phase = Phase::Size;
                    self.first = None;
                    proof {
                        lemma_no_line(self.reader);
                        lemma_second_step(*old(self), *self, input@, pos as int);
                    }
                    Piece::Go(pos + 1)
                } else {
                    proof {
                        let none = Seq::<u8>::empty();
                        let tail = input@.skip(pos as int);
                        assert(tail =~= seq![b] + input@.skip(pos + 1));
                        lemma_data_end(a, b, tail, input@.skip(pos + 1), none, self.body(), BODY_CAP as int);
                        assert(tail + none =~= tail);
                    }
                    Piece::Fail(400)
                }
            },
        }
    }

    /// Reads a trailer line, or the empty line that ends the body.
    fn trailer_line(&mut self, input: &[u8], pos: usize) -> (r: Piece)
        requires
            old(self).sound(),
            old(self).phase == Phase::Trailers,
            pos <= input@.len(),
        ensures
            stepped(*old(self), *final(self), input@, pos as int, r),
            final(self).seen@ == old(self).seen@,
    {
        let ghost s = self.reader.partial() + input@.skip(pos as int);
        let ghost kept = self.trailers.entries();
        let max: usize = if self.trailers.count == MAX_TRAILERS {
            SIZE_LINE_MAX
        } else {
            TRAILER_LINE_MAX
        };
        let (p, step) = self.reader.read_line(input, pos, max);
        match step {
            LineStep::More => {
                proof {
                    lemma_line_more(*old(self), *self, input@, pos as int);
                }
                Piece::More
            },
            LineStep::TooLong => Piece::Fail(400),
            LineStep::Whole(n) => {
                let ghost line = self.reader.line@.take(n as int);
                proof {
                    let none = Seq::<u8>::empty();
                    assert(self.reader.line@.subrange(0, n as int) =~= line);
                    lemma_trailers_line(s, line, none, self.body(), kept);
                    assert(s + none =~= s);
                    assert(input@.skip(p as int) + none =~= input@.skip(p as int));
                    lemma_no_line(self.reader);
                }
                if n == 0 {
                    return Piece::Done(p);
                }
                if self.trailers.count == MAX_TRAILERS {
                    return Piece::Fail(400);
                }
                match trailer_name(slice_subrange(&self.reader.line, 0, n)) {
                    Err(status) => {
                        return Piece::Fail(status);
                    },
                    Ok(name) => {
                        if is_forbidden_trailer(name) {
                            return Piece::Fail(400);
                        }
                    },
                }
                let c: usize = self.trailers.count;
                self.trailers.lines[c] = self.reader.line;
                self.trailers.lens[c] = n;
                self.trailers.count = c + 1;
                proof {
                    assert(self.trailers.entries() =~= kept.push(line));
                    lemma_trailer_step(*old(self), *self, input@, pos as int, p as int, line);
                }
                Piece::Go(p)
            },
        }
    }

    /// Takes the next piece of the encoded body. The answer is the one that all
    /// the bytes so far have, however they were cut into pieces.
    pub fn decode_chunked(&mut self, input: &[u8]) -> (r: Outcome)
        requires
            old(self).wf(),
        ensures
            final(self).seen@ == old(self).seen@ + input@,
            match r {
                Outcome::More => final(self).wf(),
                Outcome::Fail(status) => decoding(final(self).seen@, BODY_CAP as int) == Decoding::Fail(status),
                Outcome::Done(n) => {
                    &&& n <= input@.len()
                    &&& final(self).dlen <= BODY_CAP
                    &&& final(self).trailers.wf()
                    &&& decoding(final(self).seen@, BODY_CAP as int) == (Decoding::Done {
                        body: final(self).body(),
                        trailers: final(self).trailers.entries(),
                        rest: input@.skip(n as int),
                    })
                },
            },
    {
        let ghost whole = self.seen@ + input@;
        let ghost none = Seq::<u8>::empty();
        let mut pos: usize = 0;
        proof {
            assert(input@.skip(0) =~= input@);
            assert forall|t: Seq<u8>| true implies #[trigger] decoding(whole + t, BODY_CAP as int) == self.meaning(
                input@.skip(0) + t,
            ) by {
                assert(whole + t =~= self.seen@ + (input@ + t));
            }
        }
        loop
            invariant
                pos <= input@.len(),
                self.sound(),
                self.seen@ == old(self).seen@,
                whole == old(self).seen@ + input@,
                none == Seq::<u8>::empty(),
                forall|t: Seq<u8>|
                    #[trigger] decoding(whole + t, BODY_CAP as int) == self.meaning(input@.skip(pos as int) + t),
            decreases input@.len() - pos,
        {
            let ghost tail = input@.skip(pos as int);
            let ghost before = *self;
            proof {
                assert(whole + none =~= whole);
                assert(tail + none =~= tail);
                assert(decoding(whole + none, BODY_CAP as int) == self.meaning(tail + none));
            }
            let piece = match self.phase {
                Phase::Size => self.size_line(input, pos),
                Phase::Data => self.data(input, pos),
                Phase::DataEnd => if pos == input.len() {
                    assert(forall|t: Seq<u8>| tail + t =~= t);
                    Piece::More
                } else {
                    self.expect_crlf(input, pos)
                },
                Phase::Trailers => self.trailer_line(input, pos),
            };
            proof {
                assert forall|t: Seq<u8>| true implies #[trigger] decoding(whole + t, BODY_CAP as int) == before.meaning(
                    tail + t,
                ) by {}
            }
            match piece {
                Piece::Go(p) => {
                    pos = p;
                },
                Piece::More => {
                    self.seen = Ghost(whole);
                    proof {
                        assert(before.meaning(tail + none) == self.meaning(none));
                    }
                    return Outcome::More;
                },
                Piece::Fail(status) => {
                    self.seen = Ghost(whole);
                    return Outcome::Fail(status);
                },
                Piece::Done(p) => {
                    self.seen = Ghost(whole);
                    return Outcome::Done(p);
                },
            }
        }
    }
}

// ---- laws -------------------------------------------------------------------

/// `d` with `t` after everything that has come.
pub open spec fn followed_by(d: Decoding, t: Seq<u8>) -> Decoding {
    match d {
        Decoding::Done { body, trailers, rest } => Decoding::Done { body, trailers, rest: rest + t },
        _ => d,
    }
}

proof fn lemma_trailers_settled(s: Seq<u8>, t: Seq<u8>, body: Seq<u8>, kept: Seq<Seq<u8>>)
    ensures
        trailer_section(s, body, kept) !is Partial ==> trailer_section(s + t, body, kept) == followed_by(
            trailer_section(s, body, kept),
            t,
        ),
    decreases s.len(),
{
    let max = trailer_max(kept.len() as int);
    lemma_first_line(s, max);
    lemma_first_line_extends(s, t, max);
    if let FirstLine::Whole(line) = first_line(s, max) {
        lemma_trailers_line(s, line, t, body, kept);
        lemma_trailers_settled(s.skip(line.len() as int + 2), t, body, kept.push(line));
    }
}

proof fn lemma_chunks_settled(s: Seq<u8>, t: Seq<u8>, body: Seq<u8>, cap: int)
    ensures
        chunks(s, body, cap) !is Partial ==> chunks(s + t, body, cap) == followed_by(chunks(s, body, cap), t),
    decreases s.len(),
{
    let max = SIZE_LINE_MAX as int;
    lemma_first_line(s, max);
    lemma_first_line_extends(s, t, max);
    if let FirstLine::Whole(line) = first_line(s, max) {
        let rest = s.skip(line.len() as int + 2);
        lemma_chunks_line(s, line, t, body, cap);
        if let Ok(size) = chunk_size(line) {
            let k = size as int;
            if size == 0 {
                lemma_trailers_settled(rest, t, body, Seq::<Seq<u8>>::empty());
            } else if rest.len() >= k + 2 {
                let u = rest + t;
                assert(u.subrange(k, k + 2) =~= rest.subrange(k, k + 2));
                assert(u.take(k) =~= rest.take(k));
                assert(u.skip(k + 2) =~= rest.skip(k + 2) + t);
                lemma_chunks_settled(rest.skip(k + 2), t, body + rest.take(k), cap);
            }
        }
    }
}

/// A body that is complete or refused stays so whatever bytes follow it, and
/// those bytes are left for the next request.
pub proof fn law_body_settled(s: Seq<u8>, t: Seq<u8>, cap: int)
    ensures
        decoding(s, cap) !is Partial ==> decoding(s + t, cap) == followed_by(decoding(s, cap), t),
{
    lemma_chunks_settled(s, t, Seq::<u8>::empty(), cap);
}

/// A trailer line that may be kept.
pub open spec fn admissible_trailer(line: Seq<u8>) -> bool {
    &&& 0 < line.len() <= TRAILER_LINE_MAX
    &&& trailer_field(line) matches Ok(name) && !forbidden_trailer(name)
}

proof fn lemma_trailers_screened(s: Seq<u8>, body: Seq<u8>, kept: Seq<Seq<u8>>)
    requires
        kept.len() <= MAX_TRAILERS,
        forall|i: int| 0 <= i < kept.len() ==> admissible_trailer(#[trigger] kept[i]),
    ensures
        trailer_section(s, body, kept) matches Decoding::Done { body: b, trailers, rest } ==> {
            &&& b == body
            &&& trailers.len() <= MAX_TRAILERS
            &&& forall|i: int| 0 <= i < trailers.len() ==> admissible_trailer(#[trigger] trailers[i])
            &&& rest.len() + 2 <= s.len()
            &&& rest == s.skip(s.len() - rest.len())
        },
    decreases s.len(),
{
    let max = trailer_max(kept.len() as int);
    lemma_first_line(s, max);
    if let FirstLine::Whole(line) = first_line(s, max) {
        let rest = s.skip(line.len() as int + 2);
        if kept.len() < MAX_TRAILERS && admissible_trailer(line) {
            lemma_trailers_screened(rest, body, kept.push(line));
            if let Decoding::Done { body: b, trailers, rest: r } = trailer_section(rest, body, kept.push(line)) {
                assert(rest.skip(rest.len() - r.len()) =~= s.skip(s.len() - r.len()));
            }
        }
    }
}

proof fn lemma_chunks_bounded(s: Seq<u8>, body: Seq<u8>, cap: int)
    requires
        body.len() <= cap,
    ensures
        chunks(s, body, cap) matches Decoding::Done { body: b, trailers, rest } ==> {
            &&& b.len() <= cap
            &&& trailers.len() <= MAX_TRAILERS
            &&& forall|i: int| 0 <= i < trailers.len() ==> admissible_trailer(#[trigger] trailers[i])
            &&& rest.len() < s.len()
            &&& rest == s.skip(s.len() - rest.len())
        },
    decreases s.len(),
{
    let max = SIZE_LINE_MAX as int;
    lemma_first_line(s, max);
    if let FirstLine::Whole(line) = first_line(s, max) {
        let rest = s.skip(line.len() as int + 2);
        if let Ok(size) = chunk_size(line) {
            let k = size as int;
            if size == 0 {
                let none = Seq::<Seq<u8>>::empty();
                lemma_trailers_screened(rest, body, none);
                if let Decoding::Done { body: b, trailers, rest: r } = trailer_section(rest, body, none) {
                    assert(rest.skip(rest.len() - r.len()) =~= s.skip(s.len() - r.len()));
                }
            } else if size <= cap - body.len() && rest.len() >= k + 2 {
                let next = rest.skip(k + 2);
                lemma_chunks_bounded(next, body + rest.take(k), cap);
                if let Decoding::Done { body: b, trailers, rest: r } = chunks(next, body + rest.take(k), cap) {
                    assert(next.skip(next.len() - r.len()) =~= s.skip(s.len() - r.len()));
                }
            }
        }
    }
}

/// An accepted body keeps its bounds: at most `cap` bytes, at most sixteen
/// trailers, each with a token for a name and none of them a field that must not
/// be a trailer. What is left over is the end of the input.
pub proof fn law_accepted_body(s: Seq<u8>, cap: int)
    requires
        cap >= 0,
    ensures
        decoding(s, cap) matches Decoding::Done { body, trailers, rest } ==> {
            &&& body.len() <= cap
            &&& trailers.len() <= MAX_TRAILERS
            &&& forall|i: int| 0 <= i < trailers.len() ==> admissible_trailer(#[trigger] trailers[i])
            &&& rest.len() < s.len()
            &&& rest == s.skip(s.len() - rest.len())
        },
{
    lemma_chunks_bounded(s, Seq::<u8>::empty(), cap);
}

// ---- encoding ---------------------------------------------------------------

/// One chunk on the wire: its size in hexadecimal, CRLF, the data, CRLF.
pub open spec fn chunk(data: Seq<u8>) -> Seq<u8> {
    hex(data.len()) + crlf() + data + crlf()
}

/// The chunk that ends a body without trailers.
pub open spec fn last_chunk() -> Seq<u8> {
    seq![ZERO] + crlf() + crlf()
}

/// A body in chunks, the last one included.
pub open spec fn encoded(parts: Seq<Seq<u8>>) -> Seq<u8>
    decreases parts.len(),
{
    if parts.len() == 0 {
        last_chunk()
    } else {
        chunk(parts[0]) + encoded(parts.drop_first())
    }
}

/// Lines, each with its line end.
pub open spec fn ended_lines(lines: Seq<Seq<u8>>) -> Seq<u8>
    decreases lines.len(),
{
    if lines.len() == 0 {
        Seq::<u8>::empty()
    } else {
        lines[0] + crlf() + ended_lines(lines.drop_first())
    }
}

/// A body in chunks with trailer lines, up to the blank line that ends it.
pub open spec fn encoded_open(parts: Seq<Seq<u8>>, lines: Seq<Seq<u8>>) -> Seq<u8>
    decreases parts.len(),
{
    if parts.len() == 0 {
        seq![ZERO] + crlf() + ended_lines(lines)
    } else {
        chunk(parts[0]) + encoded_open(parts.drop_first(), lines)
    }
}

/// A body in chunks with trailer lines.
pub open spec fn encoded_with(parts: Seq<Seq<u8>>, lines: Seq<Seq<u8>>) -> Seq<u8> {
    encoded_open(parts, lines) + crlf()
}

/// A line that ends where its line end is written.
pub open spec fn plain_line(line: Seq<u8>) -> bool {
    find_sub(line + crlf(), crlf()) == Some(line.len() as int)
}

/// Lines that may be the trailers of one body.
pub open spec fn admissible_trailers(lines: Seq<Seq<u8>>) -> bool {
    &&& lines.len() <= MAX_TRAILERS
    &&& forall|i: int| 0 <= i < lines.len() ==> admissible_trailer(#[trigger] lines[i]) && plain_line(lines[i])
}

/// All parts one after the other.
pub open spec fn joined(parts: Seq<Seq<u8>>) -> Seq<u8>
    decreases parts.len(),
{
    if parts.len() == 0 {
        Seq::<u8>::empty()
    } else {
        parts[0] + joined(parts.drop_first())
    }
}

/// Hexadecimal digits read back as the number, and there are few of them.
pub proof fn lemma_hex_reads_back(v: nat, k: nat)
    requires
        v < pow16(k),
        k > 0,
    ensures
        1 <= hex(v).len() <= k,
        hex_value(hex(v)) == v,
        forall|i: int| 0 <= i < hex(v).len() ==> is_hex(#[trigger] hex(v)[i]),
    decreases v,
{
    let d = hex_digit((v % 16) as int);
    assert(hex_worth(d) == v % 16);
    if v < 16 {
        assert(hex(v).drop_last() =~= Seq::<u8>::empty());
        assert(hex_value(Seq::<u8>::empty()) == 0);
    } else {
        assert(k > 1) by {
            if k == 1 {
                assert(pow16(1) == 16 * pow16(0));
            }
        }
        lemma_hex_reads_back(v / 16, (k - 1) as nat);
        assert(hex(v).drop_last() =~= hex(v / 16));
    }
}

/// Powers of sixteen.
pub open spec fn pow16(k: nat) -> nat
    decreases k,
{
    if k == 0 {
        1
    } else {
        16 * pow16((k - 1) as nat)
    }
}

/// The size line of a chunk states its size.
proof fn lemma_size_line(v: nat)
    requires
        v <= usize::MAX,
    ensures
        chunk_size(hex(v)) == Ok::<nat, u16>(v),
        hex(v).len() <= 16,
        forall|i: int| 0 <= i < hex(v).len() ==> is_hex(#[trigger] hex(v)[i]),
{
    reveal_with_fuel(pow16, 17);
    lemma_hex_reads_back(v, 16);
    let s = hex(v);
    lemma_index_of(s, SEMI);
    assert(before(s, SEMI) =~= s);
    lemma_trim_front(s, 0);
    lemma_trim_back(s, s.len() as int);
    lemma_hex_run(s, s.len() as int);
    assert(s.take(s.len() as int) =~= s);
}

/// A line that holds no carriage return is found whole.
proof fn lemma_plain_line(line: Seq<u8>, t: Seq<u8>, max: int)
    requires
        line.len() <= max,
        forall|i: int| 0 <= i < line.len() ==> #[trigger] line[i] != CR,
    ensures
        first_line(line + crlf() + t, max) == FirstLine::Whole(line),
        (line + crlf() + t).skip(line.len() as int + 2) == t,
{
    lemma_line_end(line, t);
}

/// A line is found whole whatever follows its line end.
proof fn lemma_whole_line(line: Seq<u8>, t: Seq<u8>)
    requires
        plain_line(line),
    ensures
        find_sub(line + crlf() + t, crlf()) == Some(line.len() as int),
        (line + crlf() + t).take(line.len() as int) == line,
        (line + crlf() + t).skip(line.len() as int + 2) == t,
{
    lemma_find_prefix(line + crlf(), t, crlf());
    assert((line + crlf() + t).take(line.len() as int) =~= line);
    assert((line + crlf() + t).skip(line.len() as int + 2) =~= t);
}

/// Trailer lines that may be kept are kept, in order.
proof fn lemma_trailers_kept(lines: Seq<Seq<u8>>, u: Seq<u8>, body: Seq<u8>, kept: Seq<Seq<u8>>)
    requires
        kept.len() + lines.len() <= MAX_TRAILERS,
        forall|i: int| 0 <= i < lines.len() ==> admissible_trailer(#[trigger] lines[i]) && plain_line(lines[i]),
    ensures
        trailer_section(ended_lines(lines) + u, body, kept) == trailer_section(u, body, kept + lines),
    decreases lines.len(),
{
    if lines.len() == 0 {
        assert(ended_lines(lines) + u =~= u);
        assert(kept + lines =~= kept);
    } else {
        let line = lines[0];
        let more = lines.drop_first();
        let rest = ended_lines(more) + u;
        assert(ended_lines(lines) + u =~= line + crlf() + rest);
        lemma_whole_line(line, rest);
        assert forall|i: int| 0 <= i < more.len() implies admissible_trailer(#[trigger] more[i]) && plain_line(
            more[i],
        ) by {
            assert(more[i] == lines[i + 1]);
        }
        lemma_trailers_kept(more, u, body, kept.push(line));
        assert(kept.push(line) + more =~= kept + lines);
    }
}

/// A chunk adds its data to the body.
pub proof fn lemma_one_chunk(data: Seq<u8>, rest: Seq<u8>, body: Seq<u8>, cap: int)
    requires
        data.len() > 0,
        body.len() + data.len() <= cap <= usize::MAX,
    ensures
        chunks(chunk(data) + rest, body, cap) == chunks(rest, body + data, cap),
{
    let n = data.len() as int;
    let after = data + crlf() + rest;
    lemma_size_line(data.len());
    lemma_plain_line(hex(data.len()), after, SIZE_LINE_MAX as int);
    assert(chunk(data) + rest =~= hex(data.len()) + crlf() + after);
    assert(after.subrange(n, n + 2) =~= crlf());
    assert(after.take(n) =~= data);
    assert(after.skip(n + 2) =~= rest);
}

/// Behind the size of the last chunk come the trailers.
proof fn lemma_last_size(rest: Seq<u8>, body: Seq<u8>, cap: int)
    ensures
        chunks(seq![ZERO] + crlf() + rest, body, cap) == trailer_section(rest, body, Seq::<Seq<u8>>::empty()),
{
    lemma_size_line(0);
    lemma_plain_line(hex(0), rest, SIZE_LINE_MAX as int);
    assert(hex(0) =~= seq![ZERO]);
}

/// Chunks are decoded one after the other, and the trailers come behind the last.
proof fn lemma_chunks_decode(parts: Seq<Seq<u8>>, lines: Seq<Seq<u8>>, u: Seq<u8>, body: Seq<u8>, cap: int)
    requires
        body.len() + joined(parts).len() <= cap <= usize::MAX,
        forall|i: int| 0 <= i < parts.len() ==> (#[trigger] parts[i]).len() > 0,
    ensures
        chunks(encoded_open(parts, lines) + u, body, cap) == trailer_section(
            ended_lines(lines) + u,
            body + joined(parts),
            Seq::<Seq<u8>>::empty(),
        ),
    decreases parts.len(),
{
    if parts.len() == 0 {
        let after = ended_lines(lines) + u;
        lemma_last_size(after, body, cap);
        assert(encoded_open(parts, lines) + u =~= seq![ZERO] + crlf() + after);
        assert(body + joined(parts) =~= body);
    } else {
        let data = parts[0];
        let more = parts.drop_first();
        let after = encoded_open(more, lines) + u;
        assert(encoded_open(parts, lines) + u =~= chunk(data) + after);
        assert forall|i: int| 0 <= i < more.len() implies (#[trigger] more[i]).len() > 0 by {
            assert(more[i] == parts[i + 1]);
        }
        lemma_one_chunk(data, after, body, cap);
        lemma_chunks_decode(more, lines, u, body + data, cap);
        assert((body + data) + joined(more) =~= body + joined(parts));
    }
}

/// What is sent in chunks is what the decoder gets back, with the trailers in the
/// order in which they were sent, and it stops exactly behind the blank line.
pub proof fn law_chunked_with_trailers(parts: Seq<Seq<u8>>, lines: Seq<Seq<u8>>, t: Seq<u8>, cap: int)
    requires
        joined(parts).len() <= cap <= usize::MAX,
        forall|i: int| 0 <= i < parts.len() ==> (#[trigger] parts[i]).len() > 0,
        admissible_trailers(lines),
    ensures
        decoding(encoded_with(parts, lines) + t, cap) == (Decoding::Done {
            body: joined(parts),
            trailers: lines,
            rest: t,
        }),
{
    let none = Seq::<u8>::empty();
    let end = crlf() + t;
    lemma_chunks_decode(parts, lines, end, none, cap);
    lemma_trailers_kept(lines, end, joined(parts), Seq::<Seq<u8>>::empty());
    lemma_plain_line(none, t, trailer_max(lines.len() as int));
    assert(encoded_with(parts, lines) + t =~= encoded_open(parts, lines) + end);
    assert(none + joined(parts) =~= joined(parts));
    assert(Seq::<Seq<u8>>::empty() + lines =~= lines);
    assert(none + crlf() + t =~= end);
}

/// A trailer line that may not be kept refuses the body with 400, whatever came
/// before it and whatever follows: one that is too long, one without a token for a
/// name, one that names a field that must not be a trailer, and one too many.
pub proof fn law_bad_trailer(parts: Seq<Seq<u8>>, lines: Seq<Seq<u8>>, line: Seq<u8>, t: Seq<u8>, cap: int)
    requires
        joined(parts).len() <= cap <= usize::MAX,
        forall|i: int| 0 <= i < parts.len() ==> (#[trigger] parts[i]).len() > 0,
        admissible_trailers(lines),
        plain_line(line),
        line.len() > 0,
        lines.len() == MAX_TRAILERS || !admissible_trailer(line),
    ensures
        decoding(encoded_open(parts, lines) + (line + crlf() + t), cap) == Decoding::Fail(400),
{
    let none = Seq::<u8>::empty();
    let end = line + crlf() + t;
    lemma_chunks_decode(parts, lines, end, none, cap);
    lemma_trailers_kept(lines, end, joined(parts), Seq::<Seq<u8>>::empty());
    lemma_whole_line(line, t);
    assert(none + joined(parts) =~= joined(parts));
    assert(Seq::<Seq<u8>>::empty() + lines =~= lines);
}

/// Chunks that the rest of a body follows.
pub open spec fn chunk_run(parts: Seq<Seq<u8>>) -> Seq<u8>
    decreases parts.len(),
{
    if parts.len() == 0 {
        Seq::<u8>::empty()
    } else {
        chunk(parts[0]) + chunk_run(parts.drop_first())
    }
}

/// Chunks add their data to the body, one after the other.
proof fn lemma_chunk_run(parts: Seq<Seq<u8>>, u: Seq<u8>, body: Seq<u8>, cap: int)
    requires
        body.len() + joined(parts).len() <= cap <= usize::MAX,
        forall|i: int| 0 <= i < parts.len() ==> (#[trigger] parts[i]).len() > 0,
    ensures
        chunks(chunk_run(parts) + u, body, cap) == chunks(u, body + joined(parts), cap),
    decreases parts.len(),
{
    if parts.len() == 0 {
        assert(chunk_run(parts) + u =~= u);
        assert(body + joined(parts) =~= body);
    } else {
        let data = parts[0];
        let more = parts.drop_first();
        let after = chunk_run(more) + u;
        assert(chunk_run(parts) + u =~= chunk(data) + after);
        assert forall|i: int| 0 <= i < more.len() implies (#[trigger] more[i]).len() > 0 by {
            assert(more[i] == parts[i + 1]);
        }
        lemma_one_chunk(data, after, body, cap);
        lemma_chunk_run(more, u, body + data, cap);
        assert((body + data) + joined(more) =~= body + joined(parts));
    }
}

/// A chunk that would make the body too long refuses it with 413 as soon as its
/// size has come, whatever follows.
pub proof fn law_oversize_body(parts: Seq<Seq<u8>>, size: nat, t: Seq<u8>, cap: int)
    requires
        joined(parts).len() <= cap <= usize::MAX,
        forall|i: int| 0 <= i < parts.len() ==> (#[trigger] parts[i]).len() > 0,
        cap < joined(parts).len() + size,
        size <= usize::MAX,
    ensures
        decoding(chunk_run(parts) + (hex(size) + crlf() + t), cap) == Decoding::Fail(413),
{
    let none = Seq::<u8>::empty();
    lemma_chunk_run(parts, hex(size) + crlf() + t, none, cap);
    assert(none + joined(parts) =~= joined(parts));
    lemma_size_line(size);
    lemma_plain_line(hex(size), t, SIZE_LINE_MAX as int);
}

/// A body without trailers is one with none.
proof fn lemma_encoded_plain(parts: Seq<Seq<u8>>)
    ensures
        encoded(parts) == encoded_with(parts, Seq::<Seq<u8>>::empty()),
    decreases parts.len(),
{
    if parts.len() > 0 {
        lemma_encoded_plain(parts.drop_first());
    }
    assert(encoded(parts) =~= encoded_with(parts, Seq::<Seq<u8>>::empty()));
}

/// What is sent in chunks is what the decoder gets back, and it stops exactly
/// behind the last chunk.
pub proof fn law_chunked_round_trip(parts: Seq<Seq<u8>>, t: Seq<u8>, cap: int)
    requires
        joined(parts).len() <= cap <= usize::MAX,
        forall|i: int| 0 <= i < parts.len() ==> (#[trigger] parts[i]).len() > 0,
    ensures
        decoding(encoded(parts) + t, cap) == (Decoding::Done {
            body: joined(parts),
            trailers: Seq::<Seq<u8>>::empty(),
            rest: t,
        }),
{
    lemma_encoded_plain(parts);
    law_chunked_with_trailers(parts, Seq::<Seq<u8>>::empty(), t, cap);
}

/// A trailer line of up to 256 bytes is kept when its name is a token and no field
/// that must not be a trailer, and not otherwise.
pub proof fn law_trailer_lines(name: Seq<u8>, r: Seq<u8>, value: Seq<u8>)
    requires
        lacks(name, 0x3a),
        firm(name),
        all_blank(r),
    ensures
        admissible_trailer(name + r + seq![0x3au8] + value) <==> {
            &&& name.len() + r.len() + 1 + value.len() <= 256
            &&& token(name)
            &&& !forbidden_trailer(name)
        },
{
    law_trailer_as_written(name, r, value);
}

/// A chunk is read whatever its size line says besides the size, as long as that has
/// no more than 64 bytes; a longer one is refused with 400.
pub proof fn law_size_line(line: Seq<u8>, data: Seq<u8>, rest: Seq<u8>, body: Seq<u8>, cap: int)
    requires
        lacks(line, 0x0d),
        chunk_size(line) == Ok::<nat, u16>(data.len()),
        data.len() > 0,
        body.len() + data.len() <= cap,
    ensures
        chunks(line + crlf() + data + crlf() + rest, body, cap) == (if line.len() <= 64 {
            chunks(rest, body + data, cap)
        } else {
            Decoding::Fail(400)
        }),
{
    let n = data.len() as int;
    let after = data + crlf() + rest;
    lemma_line_end(line, after);
    assert(line + crlf() + data + crlf() + rest =~= line + crlf() + after);
    assert(after.subrange(n, n + 2) =~= crlf());
    assert(after.take(n) =~= data);
    assert(after.skip(n + 2) =~= rest);
}

/// Data that no line end follows is refused with 400.
pub proof fn law_chunk_without_end(data: Seq<u8>, rest: Seq<u8>, body: Seq<u8>, cap: int)
    requires
        data.len() > 0,
        body.len() + data.len() <= cap <= usize::MAX,
        rest.len() >= 2,
        !(rest[0] == 0x0d && rest[1] == 0x0a),
    ensures
        chunks(hex(data.len()) + crlf() + data + rest, body, cap) == Decoding::Fail(400),
{
    let n = data.len() as int;
    let after = data + rest;
    lemma_size_line(data.len());
    lemma_plain_line(hex(data.len()), after, SIZE_LINE_MAX as int);
    assert(hex(data.len()) + crlf() + data + rest =~= hex(data.len()) + crlf() + after);
    assert(after.subrange(n, n + 2)[0] == rest[0] && after.subrange(n, n + 2)[1] == rest[1]);
}

} // verus!
