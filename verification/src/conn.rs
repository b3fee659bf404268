//! A connection: how the bytes of a client become requests, and what is done
//! about each of them. The caller reads and writes; everything between is
//! decided here.
use vstd::prelude::*;
use vstd::slice::slice_subrange;
use vstd::string::*;
use vstd::utf8::*;

use crate::buf::{cut, decimal, law_decimal_reads_back, BODY_CAP, HDR_MAX, READ_CAP, RESP_BODY_CAP};
use crate::bytes::{
    before, crlf, find_sub, law_case_of_letters, law_trimmed, lemma_find_prefix, lemma_find_sub, number_upto, occurs_at, same_str, text, QUERY,
};
use crate::chunked::{
    admissible_trailer, admissible_trailers, decoding, encoded_open, encoded_with, joined, law_accepted_body,
    law_bad_trailer, law_body_settled, law_chunked_with_trailers, plain_line, Decoder, Decoding, Outcome,
};
use crate::http::{
    close_word, continue_word, ends_in, field_value, find_double_crlf, head_end_mark, head_meaning, head_wire,
    keep_alive, keep_word, lacks, law_framing_of_a_written_head, law_head_ends_at_blank_line, law_head_round_trip,
    law_list_members, law_persistence, list_has, parse_head, parsed, path_of, plain_field, scan_head, scan_meaning, some_field_lists, spells,
    stays_open, Expect, Head, Parse, Request, MAX_TRAILERS,
};
use crate::multipart::{
    delimiter, form_text, law_upload_status, law_upload_sums_up, plain_block, plain_bytes, states_boundary, summary,
};
use crate::routes::{
    allowed, fields_text, is_preflight, known_path, options_answer, options_head, response_head, route_answer,
};

verus! {

/// Seconds within which the head of a request has to come.
pub const HEAD_TIMEOUT_SECS: u64 = 5;

/// Seconds within which the body of a request has to come.
pub const BODY_TIMEOUT_SECS: u64 = 5;

/// Most requests on one connection; the last one is answered `close`.
pub const KEEPALIVE_REQUESTS: u64 = 100;

/// Most connections at a time.
pub const MAX_CONNECTIONS: usize = 128;

/// What a client over the limit gets.
pub const BUSY: &'static str =
    "HTTP/1.1 503 Service Unavailable\r\nConnection: close\r\nContent-Length: 0\r\n\r\n";

/// The interim answer that asks for a body.
pub const CONTINUE: &'static str = "HTTP/1.1 100 Continue\r\n\r\n";

/// Is there room for one more connection beside `active` others?
pub fn admits(active: usize) -> (r: bool)
    ensures
        r == (active < MAX_CONNECTIONS),
        r <==> active <= 127,
{
    active < MAX_CONNECTIONS
}

// ---- what the head of a request asks for ------------------------------------

/// How the body of a request comes.
pub enum BodyPlan {
    /// The request is refused with this status.
    Refuse(u16),
    /// It comes in chunks; the client waits for the interim answer.
    Chunked { interim: bool },
    /// It has this many bytes; the client waits for the interim answer.
    Sized { length: usize, interim: bool },
}

/// The same, as a value to reason with.
pub enum Framing {
    Refuse(u16),
    Chunked { interim: bool },
    Sized { length: nat, interim: bool },
}

/// How the body behind a head comes. Chunks win over a stated length. An unknown
/// expectation is refused before anything else, a body that is too large before
/// the interim answer, and that answer is sent only when a body is coming.
pub open spec fn framing(head: Seq<u8>) -> Framing {
    let (chunked, length, expect) = scan_meaning(head);
    if expect == Expect::Other {
        Framing::Refuse(417)
    } else if chunked {
        Framing::Chunked { interim: expect == Expect::Continue }
    } else {
        match length {
            Err(status) => Framing::Refuse(status),
            Ok(n) => if n > BODY_CAP {
                Framing::Refuse(413)
            } else {
                Framing::Sized { length: n, interim: expect == Expect::Continue && n > 0 }
            },
        }
    }
}

pub open spec fn framing_of(p: BodyPlan) -> Framing {
    match p {
        BodyPlan::Refuse(status) => Framing::Refuse(status),
        BodyPlan::Chunked { interim } => Framing::Chunked { interim },
        BodyPlan::Sized { length, interim } => Framing::Sized { length: length as nat, interim },
    }
}

/// Decides how the body behind a head comes.
pub fn body_plan(head: &[u8]) -> (r: BodyPlan)
    ensures
        framing_of(r) == framing(head@),
        r matches BodyPlan::Sized { length, interim } ==> length <= BODY_CAP,
{
    let scan = scan_head(head);
    if scan.expect == Expect::Other {
        return BodyPlan::Refuse(417);
    }
    let waits = scan.expect == Expect::Continue;
    if scan.chunked {
        return BodyPlan::Chunked { interim: waits };
    }
    match scan.content_length {
        Err(status) => BodyPlan::Refuse(status),
        Ok(n) => {
            if n > BODY_CAP {
                BodyPlan::Refuse(413)
            } else {
                BodyPlan::Sized { length: n, interim: waits && n > 0 }
            }
        },
    }
}

// ---- what the bytes of a request come to ------------------------------------

/// What is known of a request from the bytes that have come since its start.
pub enum Arrival {
    /// More bytes are needed.
    Partial,
    /// It is refused with this status.
    Refuse(u16),
    /// It is complete: its head with the blank line, its body, its trailers, and
    /// the bytes that follow it.
    Whole { head: Seq<u8>, body: Seq<u8>, trailers: Seq<Seq<u8>>, rest: Seq<u8> },
}

/// What a head and the bytes behind it come to. A chunked body needs room in the
/// buffer behind the head.
pub open spec fn body_arrival(head: Seq<u8>, rest: Seq<u8>) -> Arrival {
    match framing(head) {
        Framing::Refuse(status) => Arrival::Refuse(status),
        Framing::Sized { length, .. } => if head.len() + length > READ_CAP {
            if head.len() + rest.len() >= READ_CAP {
                Arrival::Refuse(413)
            } else {
                Arrival::Partial
            }
        } else if rest.len() < length {
            Arrival::Partial
        } else {
            Arrival::Whole {
                head,
                body: rest.take(length as int),
                trailers: Seq::<Seq<u8>>::empty(),
                rest: rest.skip(length as int),
            }
        },
        Framing::Chunked { .. } => if head.len() >= READ_CAP {
            Arrival::Refuse(400)
        } else {
            match decoding(rest, BODY_CAP as int) {
                Decoding::Partial => Arrival::Partial,
                Decoding::Fail(status) => Arrival::Refuse(status),
                Decoding::Done { body, trailers, rest } => Arrival::Whole { head, body, trailers, rest },
            }
        },
    }
}

/// The length of the head that `s` starts with, the blank line included.
pub open spec fn head_length(s: Seq<u8>) -> Option<int> {
    match find_sub(s, head_end_mark()) {
        Some(p) => if p + 4 <= READ_CAP {
            Some(p + 4)
        } else {
            None
        },
        None => None,
    }
}

/// What the bytes since the start of a request come to. The head has to fit the
/// buffer, and so has a body of a stated length behind it.
pub open spec fn arrival(s: Seq<u8>) -> Arrival {
    match head_length(s) {
        None => if s.len() >= READ_CAP {
            Arrival::Refuse(431)
        } else {
            Arrival::Partial
        },
        Some(h) => body_arrival(s.take(h), s.skip(h)),
    }
}

/// A complete request: its head with the blank line, its body and its trailers.
#[verifier::ext_equal]
pub struct Message {
    pub head: Seq<u8>,
    pub body: Seq<u8>,
    pub trailers: Seq<Seq<u8>>,
}

/// The first `k` requests that `s` holds, and the bytes behind them; `None` when it
/// does not hold as many.
pub open spec fn first_requests(s: Seq<u8>, k: nat) -> Option<(Seq<Message>, Seq<u8>)>
    decreases k,
{
    if k == 0 {
        Some((Seq::<Message>::empty(), s))
    } else {
        match first_requests(s, (k - 1) as nat) {
            None => None,
            Some((before, left)) => match arrival(left) {
                Arrival::Whole { head, body, trailers, rest } => Some(
                    (before.push(Message { head, body, trailers }), rest),
                ),
                _ => None,
            },
        }
    }
}

/// Another request may follow one with this head, when `served` came before it:
/// the head makes sense, the connection stays open behind it, and it does not
/// leave HTTP.
pub open spec fn goes_on(head: Seq<u8>, served: int) -> bool {
    head_meaning(head) matches Head::Ready { method, target, version, fields } && stays_open(version, fields) && served
        + 1 < KEEPALIVE_REQUESTS && handler_of(method, before(target, QUERY)) != Handler::WebSocket
}

/// What a refused request is told.
pub open spec fn refusal_text(status: u16) -> Seq<u8> {
    if status == 431 {
        text("head too large\n")
    } else if status == 417 {
        text("expectation failed\n")
    } else if status == 413 {
        text("body too large\n")
    } else {
        text("bad request\n")
    }
}

/// What a request that is refused with this status is told.
pub fn refusal(status: u16) -> (r: &'static str)
    ensures
        text(r) == refusal_text(status),
{
    match status {
        431 => "head too large\n",
        417 => "expectation failed\n",
        413 => "body too large\n",
        _ => "bad request\n",
    }
}

// ---- connections ------------------------------------------------------------

/// How far the request under way has come.
#[derive(PartialEq, Eq, Structural, Clone, Copy)]
pub enum Stage {
    Head,
    Sized,
    Chunked,
    Ready,
}

/// A connection. New bytes are read into `buf` from index `n` on.
pub struct Conn {
    pub buf: [u8; READ_CAP],
    pub n: usize,
    /// Requests that have been answered.
    pub served: u64,
    pub stage: Stage,
    /// Length of the head, with its blank line.
    pub head_len: usize,
    /// Length of a body that is not chunked.
    pub length: usize,
    /// Where the bytes of the request end.
    pub consumed: usize,
    /// The body came in chunks.
    pub chunked: bool,
    pub decoder: Decoder,
    /// Every byte since the start of the request.
    pub seen: Ghost<Seq<u8>>,
    /// Interim answers that were asked for since the start of the request.
    pub interims: Ghost<nat>,
    /// Every byte since the start of the connection.
    pub stream: Ghost<Seq<u8>>,
    /// The requests before this one.
    pub answered: Ghost<Seq<Message>>,
}

/// What the caller has to do next.
pub enum Action {
    /// Read more bytes.
    Read,
    /// Send the interim answer.
    Interim,
    /// Refuse the request with this status, and close.
    Refuse(u16),
    /// Answer the request.
    Answer,
}

/// The client waits for the interim answer before it sends the body.
pub open spec fn wants_interim(s: Seq<u8>) -> bool {
    head_length(s) matches Some(h) && match framing(s.take(h)) {
        Framing::Refuse(_) => false,
        Framing::Chunked { interim } => interim,
        Framing::Sized { interim, .. } => interim,
    }
}

impl Conn {
    /// The body of a complete request.
    pub open spec fn body(&self) -> Seq<u8> {
        if self.chunked {
            self.decoder.body()
        } else {
            self.buf@.subrange(self.head_len as int, self.consumed as int)
        }
    }

    /// The trailers of a complete request.
    pub open spec fn trailers(&self) -> Seq<Seq<u8>> {
        if self.chunked {
            self.decoder.trailers.entries()
        } else {
            Seq::<Seq<u8>>::empty()
        }
    }

    /// The complete request.
    pub open spec fn current(&self) -> Message {
        Message { head: self.buf@.take(self.head_len as int), body: self.body(), trailers: self.trailers() }
    }

    /// The requests before this one are the first that the bytes of the connection
    /// hold, this one starts right behind them, and each of them left the
    /// connection open.
    pub open spec fn in_order(&self) -> bool {
        &&& first_requests(self.stream@, self.served as nat) == Some((self.answered@, self.seen@))
        &&& forall|i: int| 0 <= i < self.served ==> goes_on((#[trigger] self.answered@[i]).head, i)
    }

    /// The buffer and the state stand for the bytes that have come. The interim
    /// answer was asked for once the head was there, and once only.
    pub open spec fn wf(&self) -> bool {
        &&& self.n <= READ_CAP
        &&& self.served < KEEPALIVE_REQUESTS
        &&& self.in_order()
        &&& self.interims@ == (if self.stage != Stage::Head && wants_interim(self.seen@) {
            1nat
        } else {
            0nat
        })
        &&& match self.stage {
            Stage::Head => self.seen@ == self.buf@.take(self.n as int),
            Stage::Sized => {
                &&& self.seen@ == self.buf@.take(self.n as int)
                &&& self.head_len <= self.n
                &&& head_length(self.seen@) == Some(self.head_len as int)
                &&& framing(self.buf@.take(self.head_len as int)) matches Framing::Sized { length, .. } && length
                    == self.length
                &&& self.length <= BODY_CAP
            },
            Stage::Chunked => {
                &&& self.head_len <= self.n
                &&& self.decoder.wf()
                &&& self.seen@ == self.buf@.take(self.head_len as int) + (self.decoder.seen@ + self.buf@.subrange(
                    self.head_len as int,
                    self.n as int,
                ))
                &&& head_length(self.seen@) == Some(self.head_len as int)
                &&& framing(self.buf@.take(self.head_len as int)) is Chunked
            },
            Stage::Ready => {
                &&& self.head_len <= self.consumed <= self.n
                &&& self.chunked ==> self.decoder.dlen <= BODY_CAP && self.decoder.trailers.wf()
                &&& arrival(self.seen@) == (Arrival::Whole {
                    head: self.buf@.take(self.head_len as int),
                    body: self.body(),
                    trailers: self.trailers(),
                    rest: self.buf@.subrange(self.consumed as int, self.n as int),
                })
            },
        }
    }

    /// A connection on which nothing has come.
    pub fn new() -> (r: Conn)
        ensures
            r.wf(),
            r.stage == Stage::Head,
            r.n == 0,
            r.served == 0,
            r.seen@ == Seq::<u8>::empty(),
            r.stream@ == Seq::<u8>::empty(),
    {
        let r = Conn {
            buf: [0u8; READ_CAP],
            n: 0,
            served: 0,
            stage: Stage::Head,
            head_len: 0,
            length: 0,
            consumed: 0,
            chunked: false,
            decoder: Decoder::new(),
            seen: Ghost(Seq::<u8>::empty()),
            interims: Ghost(0nat),
            stream: Ghost(Seq::<u8>::empty()),
            answered: Ghost(Seq::<Message>::empty()),
        };
        assert(r.buf@.take(0) =~= Seq::<u8>::empty());
        r
    }

    /// Takes note of `k` bytes that have been read into the buffer.
    pub fn received(&mut self, k: usize)
        requires
            old(self).wf(),
            old(self).stage != Stage::Ready,
            old(self).n + k <= READ_CAP,
        ensures
            final(self).wf(),
            final(self).seen@ == old(self).seen@ + old(self).buf@.subrange(old(self).n as int, old(self).n + k),
            final(self).stream@ == old(self).stream@ + old(self).buf@.subrange(old(self).n as int, old(self).n + k),
            final(self).answered@ == old(self).answered@,
            final(self).interims@ == old(self).interims@,
            final(self).stage == old(self).stage,
            final(self).served == old(self).served,
            final(self).n == old(self).n + k,
            final(self).buf@ == old(self).buf@,
    {
        let ghost more = self.buf@.subrange(self.n as int, self.n + k);
        proof {
            let n = self.n as int;
            assert(self.buf@.take(n + k) =~= self.buf@.take(n) + more);
            lemma_first_requests_extend(self.stream@, more, self.served as nat);
            if self.stage != Stage::Head {
                lemma_head_extends(self.seen@, more);
            }
            if self.stage == Stage::Chunked {
                let h = self.head_len as int;
                assert(self.seen@ + more =~= self.buf@.take(h) + (self.decoder.seen@ + self.buf@.subrange(h, n + k)));
            }
        }
        self.n = self.n + k;
        self.seen = Ghost(self.seen@ + more);
        self.stream = Ghost(self.stream@ + more);
    }

    /// Goes on as far as the bytes that have come allow, and says what to do next.
    pub fn advance(&mut self) -> (r: Action)
        requires
            old(self).wf(),
        ensures
            final(self).seen@ == old(self).seen@,
            final(self).served == old(self).served,
            final(self).buf@ == old(self).buf@,
            final(self).stream@ == old(self).stream@,
            final(self).answered@ == old(self).answered@,
            final(self).interims@ == old(self).interims@ + (if r is Interim {
                1nat
            } else {
                0nat
            }),
            r is Interim <==> old(self).stage == Stage::Head && wants_interim(old(self).seen@),
            match r {
                Action::Read => {
                    &&& arrival(old(self).seen@) is Partial
                    &&& final(self).wf()
                    &&& final(self).stage != Stage::Ready
                    &&& final(self).n < READ_CAP
                    &&& old(self).stage != Stage::Head ==> final(self).stage == old(self).stage
                    &&& final(self).stage == Stage::Head <==> head_length(old(self).seen@) is None
                },
                Action::Interim => {
                    &&& final(self).wf()
                    &&& final(self).stage == Stage::Sized || final(self).stage == Stage::Chunked
                },
                Action::Refuse(status) => arrival(old(self).seen@) == Arrival::Refuse(status),
                Action::Answer => final(self).wf() && final(self).stage == Stage::Ready,
            },
    {
        match self.stage {
            Stage::Head => {
                let come = slice_subrange(&self.buf, 0, self.n);
                assert(come@ =~= self.seen@);
                let p: usize = match find_double_crlf(come) {
                    None => {
                        return if self.n == READ_CAP {
                            Action::Refuse(431)
                        } else {
                            Action::Read
                        };
                    },
                    Some(p) => p,
                };
                self.head_len = p + 4;
                let head = slice_subrange(&self.buf, 0, p + 4);
                assert(head@ =~= self.buf@.take(p + 4));
                assert(self.seen@.take(p + 4) =~= head@);
                match body_plan(head) {
                    BodyPlan::Refuse(status) => Action::Refuse(status),
                    BodyPlan::Sized { length, interim } => {
                        self.stage = Stage::Sized;
                        self.length = length;
                        if interim {
                            self.interims = Ghost(1nat);
                            Action::Interim
                        } else {
                            self.advance_sized()
                        }
                    },
                    BodyPlan::Chunked { interim } => {
                        self.stage = Stage::Chunked;
                        self.decoder = Decoder::new();
                        proof {
                            let h = self.head_len as int;
                            assert(self.buf@.take(self.n as int) =~= self.buf@.take(h) + (self.decoder.seen@
                                + self.buf@.subrange(h, self.n as int)));
                        }
                        if interim {
                            self.interims = Ghost(1nat);
                            Action::Interim
                        } else {
                            self.advance_chunked()
                        }
                    },
                }
            },
            Stage::Sized => self.advance_sized(),
            Stage::Chunked => self.advance_chunked(),
            Stage::Ready => Action::Answer,
        }
    }

    /// Goes on with a body of a stated length.
    fn advance_sized(&mut self) -> (r: Action)
        requires
            old(self).wf(),
            old(self).stage == Stage::Sized,
        ensures
            final(self).seen@ == old(self).seen@,
            final(self).served == old(self).served,
            final(self).buf@ == old(self).buf@,
            final(self).stream@ == old(self).stream@,
            final(self).answered@ == old(self).answered@,
            final(self).interims@ == old(self).interims@,
            match r {
                Action::Read => {
                    &&& arrival(old(self).seen@) is Partial
                    &&& final(self).wf()
                    &&& final(self).stage == old(self).stage
                    &&& final(self).n < READ_CAP
                },
                Action::Interim => false,
                Action::Refuse(status) => arrival(old(self).seen@) == Arrival::Refuse(status),
                Action::Answer => final(self).wf() && final(self).stage == Stage::Ready,
            },
    {
        let h: usize = self.head_len;
        let ghost s = self.seen@;
        proof {
            assert(s.take(h as int) =~= self.buf@.take(h as int));
        }
        if self.n - h < self.length {
            if self.n == READ_CAP {
                Action::Refuse(413)
            } else {
                Action::Read
            }
        } else {
            self.consumed = h + self.length;
            self.chunked = false;
            self.stage = Stage::Ready;
            proof {
                let rest = s.skip(h as int);
                let k = self.length as int;
                assert(rest.take(k) =~= self.buf@.subrange(h as int, self.consumed as int));
                assert(rest.skip(k) =~= self.buf@.subrange(self.consumed as int, self.n as int));
            }
            Action::Answer
        }
    }

    /// Goes on with a body in chunks. Encoded bytes that are used up make room for
    /// others; the head stays where it is.
    fn advance_chunked(&mut self) -> (r: Action)
        requires
            old(self).wf(),
            old(self).stage == Stage::Chunked,
        ensures
            final(self).seen@ == old(self).seen@,
            final(self).served == old(self).served,
            final(self).buf@ == old(self).buf@,
            final(self).stream@ == old(self).stream@,
            final(self).answered@ == old(self).answered@,
            final(self).interims@ == old(self).interims@,
            match r {
                Action::Read => {
                    &&& arrival(old(self).seen@) is Partial
                    &&& final(self).wf()
                    &&& final(self).stage == old(self).stage
                    &&& final(self).n < READ_CAP
                },
                Action::Interim => false,
                Action::Refuse(status) => arrival(old(self).seen@) == Arrival::Refuse(status),
                Action::Answer => final(self).wf() && final(self).stage == Stage::Ready,
            },
    {
        let h: usize = self.head_len;
        let ghost s = self.seen@;
        let input = slice_subrange(&self.buf, h, self.n);
        proof {
            assert(input@ =~= self.buf@.subrange(h as int, self.n as int));
            assert(s.take(h as int) =~= self.buf@.take(h as int));
            assert(s.skip(h as int) =~= self.decoder.seen@ + input@);
        }
        if h == READ_CAP {
            return Action::Refuse(400);
        }
        match self.decoder.decode_chunked(input) {
            Outcome::More => {
                self.n = h;
                proof {
                    assert(s =~= self.buf@.take(h as int) + (self.decoder.seen@ + self.buf@.subrange(h as int, h as int)));
                }
                Action::Read
            },
            Outcome::Fail(status) => Action::Refuse(status),
            Outcome::Done(used) => {
                assert(h + used <= self.n);
                self.consumed = h + used;
                self.chunked = true;
                self.stage = Stage::Ready;
                proof {
                    assert(input@.skip(used as int) =~= self.buf@.subrange(self.consumed as int, self.n as int));
                }
                Action::Answer
            },
        }
    }

    /// Reads the head of a complete request.
    pub fn request(&self) -> (r: Parse<'_>)
        requires
            self.wf(),
            self.stage == Stage::Ready,
        ensures
            parsed(r) == head_meaning(self.current().head),
            r matches Parse::Ready(q) ==> q.wf() && q.body@ == self.current().body && q.trailers.wf()
                && q.trailers.entries() == self.current().trailers && forall|i: int|
                q.header_count <= i < HDR_MAX ==> (#[trigger] q.headers@[i]) is None,
    {
        let head = slice_subrange(&self.buf, 0, self.head_len);
        assert(head@ =~= self.buf@.take(self.head_len as int));
        match parse_head(head) {
            Parse::Ready(q) => {
                let mut req = q;
                let ghost fields = req.fields();
                if self.chunked {
                    req.body = slice_subrange(&self.decoder.out, 0, self.decoder.dlen);
                    req.trailers = self.decoder.trailers;
                    assert(req.body@ =~= self.body());
                } else {
                    req.body = slice_subrange(&self.buf, self.head_len, self.consumed);
                    assert(req.trailers.entries() =~= Seq::<Seq<u8>>::empty());
                }
                assert(req.fields() =~= fields);
                Parse::Ready(req)
            },
            Parse::NeedMore => Parse::NeedMore,
            Parse::Fail(status) => Parse::Fail(status),
        }
    }

    /// Turns to the next request, which starts with the bytes behind this one.
    pub fn next(&mut self)
        requires
            old(self).wf(),
            old(self).stage == Stage::Ready,
            goes_on(old(self).current().head, old(self).served as int),
        ensures
            final(self).wf(),
            final(self).stage == Stage::Head,
            final(self).seen@ == old(self).buf@.subrange(old(self).consumed as int, old(self).n as int),
            final(self).served == old(self).served + 1,
            final(self).stream@ == old(self).stream@,
            final(self).answered@ == old(self).answered@.push(old(self).current()),
            final(self).interims@ == 0,
    {
        let ghost b0 = self.buf@;
        let from: usize = self.consumed;
        let left: usize = self.n - from;
        let mut i: usize = 0;
        while i < left
            invariant
                i <= left,
                from + left <= READ_CAP,
                self.served == old(self).served,
                self.stream@ == old(self).stream@,
                self.answered@ == old(self).answered@,
                forall|j: int| 0 <= j < i ==> self.buf@[j] == b0[from + j],
                forall|j: int| i <= j < READ_CAP ==> self.buf@[j] == b0[j],
            decreases left - i,
        {
            self.buf[i] = self.buf[from + i];
            i += 1;
        }
        self.n = left;
        self.stage = Stage::Head;
        self.served = self.served + 1;
        let ghost rest = b0.subrange(from as int, from + left);
        self.seen = Ghost(rest);
        self.interims = Ghost(0nat);
        self.answered = Ghost(old(self).answered@.push(old(self).current()));
        assert(self.buf@.take(left as int) =~= rest);
        proof {
            lemma_next_in_order(*old(self), *self);
        }
    }
}

/// More bytes do not change the head.
proof fn lemma_head_extends(s: Seq<u8>, t: Seq<u8>)
    ensures
        head_length(s) matches Some(h) ==> head_length(s + t) == Some(h) && 4 <= h <= s.len() && (s + t).take(h) == s.take(
            h,
        ) && (s + t).skip(h) == s.skip(h) + t,
{
    if let Some(h) = head_length(s) {
        lemma_find_sub(s, head_end_mark());
        lemma_find_prefix(s, t, head_end_mark());
        assert((s + t).take(h) =~= s.take(h));
        assert((s + t).skip(h) =~= s.skip(h) + t);
    }
}

/// More bytes do not change the requests that have come.
proof fn lemma_first_requests_extend(s: Seq<u8>, t: Seq<u8>, k: nat)
    ensures
        first_requests(s, k) matches Some((ms, left)) ==> first_requests(s + t, k) == Some((ms, left + t)),
    decreases k,
{
    if k > 0 {
        lemma_first_requests_extend(s, t, (k - 1) as nat);
        if let Some((ms, left)) = first_requests(s, (k - 1) as nat) {
            law_arrival_settled(left, t);
        }
    }
}

/// Turning to the next request keeps the requests in order.
proof fn lemma_next_in_order(was: Conn, now: Conn)
    requires
        was.in_order(),
        arrival(was.seen@) == (Arrival::Whole {
            head: was.current().head,
            body: was.current().body,
            trailers: was.current().trailers,
            rest: now.seen@,
        }),
        goes_on(was.current().head, was.served as int),
        now.served == was.served + 1,
        now.stream@ == was.stream@,
        now.answered@ == was.answered@.push(was.current()),
    ensures
        now.in_order(),
{
    lemma_first_requests_len(was.stream@, was.served as nat);
    assert forall|i: int| 0 <= i < now.served implies goes_on((#[trigger] now.answered@[i]).head, i) by {
        if i < was.served {
            assert(now.answered@[i] == was.answered@[i]);
        }
    }
}

/// As many requests come as are asked for.
proof fn lemma_first_requests_len(s: Seq<u8>, k: nat)
    ensures
        first_requests(s, k) matches Some((ms, left)) ==> ms.len() == k,
    decreases k,
{
    if k > 0 {
        lemma_first_requests_len(s, (k - 1) as nat);
    }
}

/// What a client is told when reading stops in the middle of its request: nothing,
/// but for a body in chunks.
pub fn stopped(stage: Stage) -> (r: Option<u16>)
    ensures
        r == (if stage == Stage::Chunked {
            Some(400u16)
        } else {
            None
        }),
{
    if stage == Stage::Chunked {
        Some(400)
    } else {
        None
    }
}

/// The status of a request whose head makes no sense.
pub open spec fn senseless(head: Head) -> Option<u16> {
    match head {
        Head::NeedMore => Some(400),
        Head::Fail(status) => Some(status),
        Head::Ready { .. } => None,
    }
}

/// What a client is told of a head that makes no sense: a status and a text.
pub fn head_refusal(p: &Parse) -> (r: Option<(u16, &'static str)>)
    ensures
        match r {
            Some((status, t)) => senseless(parsed(*p)) == Some(status) && text(t) == refusal_text(400),
            None => senseless(parsed(*p)) is None,
        },
{
    match p {
        Parse::NeedMore => Some((400, refusal(400))),
        Parse::Fail(status) => Some((*status, refusal(400))),
        Parse::Ready(_) => None,
    }
}

// ---- answering --------------------------------------------------------------

/// Which part of the server answers a request.
#[derive(PartialEq, Eq, Structural, Clone, Copy)]
pub enum Handler {
    Options,
    WebSocket,
    Bytes,
    Stream,
    Events,
    /// A short answer that the routes give.
    Plain,
}

/// Who answers a request.
pub open spec fn handler_of(method: Seq<u8>, path: Seq<u8>) -> Handler {
    let get = method == text("GET");
    let head = method == text("HEAD");
    if method == text("OPTIONS") {
        Handler::Options
    } else if get && path == text("/ws") {
        Handler::WebSocket
    } else if (get || head) && path == text("/bytes") {
        Handler::Bytes
    } else if get && path == text("/chunked") {
        Handler::Stream
    } else if (get || head) && path == text("/events") {
        Handler::Events
    } else {
        Handler::Plain
    }
}

/// Decides who answers a request.
pub fn dispatch(req: &Request) -> (r: Handler)
    ensures
        r == handler_of(text(req.method), before(text(req.target), QUERY)),
{
    let path = path_of(req.target);
    let get = same_str(req.method, "GET");
    let head = same_str(req.method, "HEAD");
    if same_str(req.method, "OPTIONS") {
        Handler::Options
    } else if get && same_str(path, "/ws") {
        Handler::WebSocket
    } else if (get || head) && same_str(path, "/bytes") {
        Handler::Bytes
    } else if get && same_str(path, "/chunked") {
        Handler::Stream
    } else if (get || head) && same_str(path, "/events") {
        Handler::Events
    } else {
        Handler::Plain
    }
}

/// Does the connection stay open behind a request, when `served` came before it?
pub fn stays(req: &Request, served: u64) -> (r: bool)
    requires
        req.wf(),
    ensures
        r == (stays_open(req.version, req.fields()) && served + 1 < KEEPALIVE_REQUESTS),
        served >= 99 ==> !r,
        served < 99 ==> r == stays_open(req.version, req.fields()),
{
    keep_alive(req) && served < KEEPALIVE_REQUESTS - 1
}

/// The body follows the head of a short answer: not for HEAD, and not when it did
/// not fit.
pub fn sends_body(req: &Request, overflow: bool) -> (r: bool)
    ensures
        r == (text(req.method) != text("HEAD") && !overflow),
{
    !same_str(req.method, "HEAD") && !overflow
}

// ---- laws -------------------------------------------------------------------

/// `a` with `t` after everything that has come.
pub open spec fn arrival_followed_by(a: Arrival, t: Seq<u8>) -> Arrival {
    match a {
        Arrival::Whole { head, body, trailers, rest } => Arrival::Whole { head, body, trailers, rest: rest + t },
        _ => a,
    }
}

/// A request that is complete or refused stays so whatever bytes follow it. So it
/// does not matter how the bytes were cut into pieces, and pipelined requests are
/// kept apart exactly.
pub proof fn law_arrival_settled(s: Seq<u8>, t: Seq<u8>)
    ensures
        arrival(s) !is Partial ==> arrival(s + t) == arrival_followed_by(arrival(s), t),
{
    lemma_head_extends(s, t);
    match head_length(s) {
        Some(h) => {
            let head = s.take(h);
            let rest = s.skip(h);
            law_body_settled(rest, t, BODY_CAP as int);
            if let Framing::Sized { length, .. } = framing(head) {
                if rest.len() >= length {
                    assert((rest + t).take(length as int) =~= rest.take(length as int));
                    assert((rest + t).skip(length as int) =~= rest.skip(length as int) + t);
                }
            }
        },
        None => {
            if s.len() >= READ_CAP {
                let u = s + t;
                lemma_find_sub(s, head_end_mark());
                lemma_find_sub(u, head_end_mark());
                if let Some(p) = find_sub(u, head_end_mark()) {
                    if p + 4 <= READ_CAP {
                        assert(s.subrange(p, p + 4) =~= u.subrange(p, p + 4));
                        assert(occurs_at(s, p, head_end_mark()));
                        lemma_find_prefix(s, t, head_end_mark());
                    }
                }
            }
        },
    }
}

/// An accepted request keeps its bounds, and its bytes are exactly those before
/// what is left over.
pub proof fn law_accepted_request(s: Seq<u8>)
    ensures
        arrival(s) matches Arrival::Whole { head, body, trailers, rest } ==> {
            &&& head.len() <= READ_CAP
            &&& body.len() <= BODY_CAP
            &&& head == s.take(head.len() as int)
            &&& head.len() + rest.len() <= s.len()
            &&& rest == s.skip(s.len() - rest.len())
        },
{
    if let Some(h) = head_length(s) {
        lemma_head_extends(s, Seq::<u8>::empty());
        let head = s.take(h);
        let after = s.skip(h);
        law_accepted_body(after, BODY_CAP as int);
        match framing(head) {
            Framing::Sized { length, .. } => {
                if after.len() >= length {
                    let rest = after.skip(length as int);
                    assert(rest =~= s.skip(s.len() - rest.len()));
                }
            },
            Framing::Chunked { .. } => {
                if let Decoding::Done { body, trailers, rest } = decoding(after, BODY_CAP as int) {
                    assert(after.skip(after.len() - rest.len()) =~= s.skip(s.len() - rest.len()));
                }
            },
            _ => {},
        }
    }
}

/// Chunks win over a stated length, whatever that length says.
pub proof fn law_chunked_wins(head: Seq<u8>)
    requires
        scan_meaning(head).0,
    ensures
        framing(head) !is Sized,
        scan_meaning(head).2 != Expect::Other ==> framing(head) is Chunked,
{
}

/// The interim answer is sent only when a body is coming that is not too large,
/// and never to HTTP/1.0, for which expectations do not exist.
pub proof fn law_interim_only_for_bodies(head: Seq<u8>)
    ensures
        framing(head) matches Framing::Sized { length, interim } ==> interim ==> 0 < length <= BODY_CAP,
        find_sub(head, crlf()) matches Some(eol) ==> ends_in(head.take(eol), text("HTTP/1.0")) ==> {
            &&& framing(head) != Framing::Refuse(417)
            &&& framing(head) != (Framing::Chunked { interim: true })
            &&& framing(head) matches Framing::Sized { length, interim } ==> !interim
        },
{
    lemma_stated_length(head);
}

/// By the time a request is complete, the interim answer has been asked for exactly
/// once if its client waits for it and a body was coming, and never otherwise.
pub proof fn law_interim_once(c: Conn)
    requires
        c.wf(),
        c.stage == Stage::Ready,
    ensures
        c.interims@ <= 1,
        c.interims@ == 1 <==> {
            let (chunked, length, expect) = scan_meaning(c.current().head);
            expect == Expect::Continue && (chunked || (length matches Ok(n) && n > 0))
        },
{
}

/// Reading a length fails with 400 only.
proof fn lemma_stated_length(head: Seq<u8>)
    ensures
        scan_meaning(head).1 matches Err(status) ==> status == 400,
{
}

/// A method is answered on a path: neither the path nor the method is unknown.
pub open spec fn speaks(method: Seq<u8>, path: Seq<u8>, fields: Seq<(Seq<u8>, Seq<u8>)>, body: Seq<u8>) -> bool {
    handler_of(method, path) != Handler::Plain || {
        let status = route_answer(method, path, fields, body, 0, 0, Seq::<u8>::empty()).0;
        status != 404 && status != 405
    }
}

/// The methods differ.
proof fn lemma_methods()
    ensures
        text("GET") != text("HEAD"),
        text("GET") != text("POST"),
        text("GET") != text("OPTIONS"),
        text("HEAD") != text("POST"),
        text("HEAD") != text("OPTIONS"),
        text("POST") != text("OPTIONS"),
{
    reveal_strlit("GET");
    reveal_strlit("HEAD");
    reveal_strlit("POST");
    reveal_strlit("OPTIONS");
    is_ascii_spec_bytes("GET");
    is_ascii_spec_bytes("HEAD");
    is_ascii_spec_bytes("POST");
    is_ascii_spec_bytes("OPTIONS");
    assert(text("HEAD")[0] == 72 && text("POST")[0] == 80);
}

/// The number of a path that answers something.
spec fn path_number(path: Seq<u8>) -> int {
    if path == text("/") {
        1
    } else if path == text("/health") {
        2
    } else if path == text("/metrics") {
        3
    } else if path == text("/allocs") {
        4
    } else if path == text("/time") {
        5
    } else if path == text("/headers") {
        6
    } else if path == text("/echo") {
        7
    } else if path == text("/chunked") {
        8
    } else if path == text("/ws") {
        9
    } else if path == text("/bytes") {
        10
    } else if path == text("/upload") {
        11
    } else if path == text("/events") {
        12
    } else {
        0
    }
}

/// The paths differ.
proof fn lemma_paths()
    ensures
        path_number(text("/")) == 1,
        path_number(text("/health")) == 2,
        path_number(text("/metrics")) == 3,
        path_number(text("/allocs")) == 4,
        path_number(text("/time")) == 5,
        path_number(text("/headers")) == 6,
        path_number(text("/echo")) == 7,
        path_number(text("/chunked")) == 8,
        path_number(text("/ws")) == 9,
        path_number(text("/bytes")) == 10,
        path_number(text("/upload")) == 11,
        path_number(text("/events")) == 12,
{
    reveal_strlit("/");
    reveal_strlit("/health");
    reveal_strlit("/metrics");
    reveal_strlit("/allocs");
    reveal_strlit("/time");
    reveal_strlit("/headers");
    reveal_strlit("/echo");
    reveal_strlit("/chunked");
    reveal_strlit("/ws");
    reveal_strlit("/bytes");
    reveal_strlit("/upload");
    reveal_strlit("/events");
    is_ascii_spec_bytes("/");
    is_ascii_spec_bytes("/health");
    is_ascii_spec_bytes("/metrics");
    is_ascii_spec_bytes("/allocs");
    is_ascii_spec_bytes("/time");
    is_ascii_spec_bytes("/headers");
    is_ascii_spec_bytes("/echo");
    is_ascii_spec_bytes("/chunked");
    is_ascii_spec_bytes("/ws");
    is_ascii_spec_bytes("/bytes");
    is_ascii_spec_bytes("/upload");
    is_ascii_spec_bytes("/events");
    assert(text("/health")[1] == 104);
    assert(text("/allocs")[1] == 97);
    assert(text("/upload")[1] == 117);
    assert(text("/events")[1] == 101);
    assert(text("/time")[1] == 116);
    assert(text("/echo")[1] == 101);
    assert(text("/metrics")[1] == 109);
    assert(text("/headers")[1] == 104);
    assert(text("/chunked")[1] == 99);
}

/// What OPTIONS says a path allows is what it answers: GET, HEAD and POST are
/// answered on a known path exactly when they are listed, and no other method but
/// OPTIONS is.
pub proof fn law_allow_is_true(path: Seq<u8>, method: Seq<u8>, fields: Seq<(Seq<u8>, Seq<u8>)>, body: Seq<u8>)
    requires
        known_path(path),
    ensures
        allowed(path) matches Some(list) && {
            &&& speaks(text("GET"), path, fields, body) <==> list == text("GET, HEAD, OPTIONS") || list == text(
                "GET, OPTIONS",
            )
            &&& speaks(text("HEAD"), path, fields, body) <==> list == text("GET, HEAD, OPTIONS")
            &&& speaks(text("POST"), path, fields, body) <==> list == text("POST, OPTIONS")
        },
        method != text("GET") && method != text("HEAD") && method != text("POST") && method != text("OPTIONS")
            ==> !speaks(method, path, fields, body),
{
    lemma_speaks_get(path, fields, body);
    lemma_speaks_head(path, fields, body);
    lemma_speaks_post(path, fields, body);
    lemma_path_starts(path);
    lemma_lists();
    lemma_paths();
}

/// The lists of methods differ.
proof fn lemma_lists()
    ensures
        text("GET, HEAD, OPTIONS") != text("GET, OPTIONS"),
        text("GET, HEAD, OPTIONS") != text("POST, OPTIONS"),
        text("GET, OPTIONS") != text("POST, OPTIONS"),
        text("*") == seq![42u8],
{
    reveal_strlit("GET, HEAD, OPTIONS");
    reveal_strlit("GET, OPTIONS");
    reveal_strlit("POST, OPTIONS");
    reveal_strlit("*");
    is_ascii_spec_bytes("GET, HEAD, OPTIONS");
    is_ascii_spec_bytes("GET, OPTIONS");
    is_ascii_spec_bytes("POST, OPTIONS");
    is_ascii_spec_bytes("*");
    assert(text("*") =~= seq![42u8]);
}

proof fn lemma_speaks_get(path: Seq<u8>, fields: Seq<(Seq<u8>, Seq<u8>)>, body: Seq<u8>)
    requires
        known_path(path),
    ensures
        speaks(text("GET"), path, fields, body) <==> path != text("/echo") && path != text("/upload"),
{
    lemma_methods();
    lemma_paths();
}

proof fn lemma_speaks_head(path: Seq<u8>, fields: Seq<(Seq<u8>, Seq<u8>)>, body: Seq<u8>)
    requires
        known_path(path),
    ensures
        speaks(text("HEAD"), path, fields, body) <==> path == text("/") || path == text("/health") || path == text(
            "/bytes",
        ) || path == text("/events"),
{
    lemma_methods();
    lemma_paths();
}

proof fn lemma_speaks_post(path: Seq<u8>, fields: Seq<(Seq<u8>, Seq<u8>)>, body: Seq<u8>)
    requires
        known_path(path),
    ensures
        speaks(text("POST"), path, fields, body) <==> path == text("/echo") || path == text("/upload"),
{
    lemma_methods();
    lemma_paths();
    law_upload_status(fields, body);
}

/// Known paths start with a slash.
proof fn lemma_path_starts(path: Seq<u8>)
    requires
        known_path(path),
    ensures
        path.len() > 0 && path[0] == 47,
{
    reveal_strlit("/");
    reveal_strlit("/health");
    reveal_strlit("/metrics");
    reveal_strlit("/allocs");
    reveal_strlit("/time");
    reveal_strlit("/headers");
    reveal_strlit("/echo");
    reveal_strlit("/chunked");
    reveal_strlit("/ws");
    reveal_strlit("/bytes");
    reveal_strlit("/upload");
    reveal_strlit("/events");
    is_ascii_spec_bytes("/");
    is_ascii_spec_bytes("/health");
    is_ascii_spec_bytes("/metrics");
    is_ascii_spec_bytes("/allocs");
    is_ascii_spec_bytes("/time");
    is_ascii_spec_bytes("/headers");
    is_ascii_spec_bytes("/echo");
    is_ascii_spec_bytes("/chunked");
    is_ascii_spec_bytes("/ws");
    is_ascii_spec_bytes("/bytes");
    is_ascii_spec_bytes("/upload");
    is_ascii_spec_bytes("/events");
}

/// A path that answers nothing is not found, whatever the method.
pub proof fn law_unknown_path(
    method: Seq<u8>,
    path: Seq<u8>,
    fields: Seq<(Seq<u8>, Seq<u8>)>,
    body: Seq<u8>,
    requests: u64,
    allocations: u64,
    date: Seq<u8>,
)
    requires
        !known_path(path),
    ensures
        route_answer(method, path, fields, body, requests, allocations, date) == (
            404u16,
            text("text/plain"),
            text("not found\n"),
        ),
        method != text("OPTIONS") ==> handler_of(method, path) == Handler::Plain,
        path != seq![0x2au8] ==> allowed(path) is None,
        path != seq![0x2au8] ==> options_answer(path, fields, date, true) == response_head(
            404,
            date,
            text("text/plain"),
            10,
            true,
        ) + text("not found\n"),
        path != seq![0x2au8] ==> options_answer(path, fields, date, false) == response_head(
            404,
            date,
            text("text/plain"),
            10,
            false,
        ) + text("not found\n"),
{
    reveal_strlit("not found\n");
    is_ascii_spec_bytes("not found\n");
    lemma_lists();
}

/// A method that a known path does not speak is refused with 405, and told so.
pub proof fn law_method_refused(
    method: Seq<u8>,
    path: Seq<u8>,
    fields: Seq<(Seq<u8>, Seq<u8>)>,
    body: Seq<u8>,
    requests: u64,
    allocations: u64,
    date: Seq<u8>,
)
    requires
        known_path(path),
        !speaks(method, path, fields, body),
    ensures
        route_answer(method, path, fields, body, requests, allocations, date) == (
            405u16,
            text("text/plain"),
            text("method not allowed\n"),
        ),
{
    law_upload_status(fields, body);
    lemma_same_status(method, path, fields, body, requests, allocations, date);
    lemma_refusals(method, path, fields, body, requests, allocations, date);
}

/// Counters and date do not change the status.
proof fn lemma_same_status(
    method: Seq<u8>,
    path: Seq<u8>,
    fields: Seq<(Seq<u8>, Seq<u8>)>,
    body: Seq<u8>,
    requests: u64,
    allocations: u64,
    date: Seq<u8>,
)
    ensures
        route_answer(method, path, fields, body, requests, allocations, date).0 == route_answer(
            method,
            path,
            fields,
            body,
            0,
            0,
            Seq::<u8>::empty(),
        ).0,
{
}

/// A known path is found, and 405 is told in words.
proof fn lemma_refusals(
    method: Seq<u8>,
    path: Seq<u8>,
    fields: Seq<(Seq<u8>, Seq<u8>)>,
    body: Seq<u8>,
    requests: u64,
    allocations: u64,
    date: Seq<u8>,
)
    requires
        known_path(path),
    ensures
        ({
            let a = route_answer(method, path, fields, body, requests, allocations, date);
            &&& a.0 != 404
            &&& a.0 == 405 ==> a.1 == text("text/plain") && a.2 == text("method not allowed\n")
        }),
{
    law_upload_status(fields, body);
}

/// OPTIONS on a known path tells what it speaks, and another origin that asks as well.
pub proof fn law_options_answered(path: Seq<u8>, fields: Seq<(Seq<u8>, Seq<u8>)>, date: Seq<u8>, keep_alive: bool)
    requires
        known_path(path),
    ensures
        allowed(path) matches Some(list) && options_answer(path, fields, date, keep_alive) == options_head(
            date,
            list,
            is_preflight(fields),
            keep_alive,
        ),
{
    lemma_path_starts(path);
    lemma_lists();
}

/// The server as a whole speaks every method that some path speaks.
pub proof fn law_server_speaks(method: Seq<u8>, path: Seq<u8>)
    requires
        known_path(path),
        method == text("GET") || method == text("HEAD") || method == text("POST") || method == text("OPTIONS"),
    ensures
        allowed(path) matches Some(list) && list_has(list, method) ==> (allowed(seq![0x2au8]) matches Some(all)
            && list_has(all, method)),
        allowed(seq![0x2au8]) == Some(text("GET, HEAD, POST, OPTIONS")),
{
    lemma_lists();
    lemma_server_lists(method);
}

proof fn lemma_server_lists(method: Seq<u8>)
    requires
        method == text("GET") || method == text("HEAD") || method == text("POST") || method == text("OPTIONS"),
    ensures
        list_has(text("GET, HEAD, POST, OPTIONS"), method),
{
    let list = text("GET, HEAD, POST, OPTIONS");
    reveal_strlit("GET");
    reveal_strlit("HEAD");
    reveal_strlit("POST");
    reveal_strlit("OPTIONS");
    reveal_strlit("GET, HEAD, POST, OPTIONS");
    is_ascii_spec_bytes("GET");
    is_ascii_spec_bytes("HEAD");
    is_ascii_spec_bytes("POST");
    is_ascii_spec_bytes("OPTIONS");
    is_ascii_spec_bytes("GET, HEAD, POST, OPTIONS");
    let none = Seq::<u8>::empty();
    let sp = seq![0x20u8];
    let c = sp + text("POST") + seq![0x2cu8] + (sp + text("OPTIONS"));
    let b = sp + text("HEAD") + seq![0x2cu8] + c;
    assert(list =~= text("GET") + seq![0x2cu8] + b);
    law_list_members(text("GET"), b, method);
    law_list_members(sp + text("HEAD"), c, method);
    law_list_members(sp + text("POST"), sp + text("OPTIONS"), method);
    law_list_members(sp + text("OPTIONS"), none, method);
    law_trimmed(none, text("GET"), none);
    law_trimmed(sp, text("HEAD"), none);
    law_trimmed(sp, text("POST"), none);
    law_trimmed(sp, text("OPTIONS"), none);
    assert(none + text("GET") + none =~= text("GET"));
    assert(sp + text("HEAD") + none =~= sp + text("HEAD"));
    assert(sp + text("POST") + none =~= sp + text("POST"));
    assert(sp + text("OPTIONS") + none =~= sp + text("OPTIONS"));
    law_case_of_letters(method, method);
}

/// A body that is sent in chunks behind a head arrives as it was, and so do its
/// trailers; what follows is left for the next request.
pub proof fn law_chunked_request(head: Seq<u8>, parts: Seq<Seq<u8>>, lines: Seq<Seq<u8>>, t: Seq<u8>)
    requires
        head_length(head) == Some(head.len() as int),
        head.len() < READ_CAP,
        framing(head) is Chunked,
        joined(parts).len() <= BODY_CAP,
        forall|i: int| 0 <= i < parts.len() ==> (#[trigger] parts[i]).len() > 0,
        admissible_trailers(lines),
    ensures
        arrival(head + (encoded_with(parts, lines) + t)) == (Arrival::Whole {
            head,
            body: joined(parts),
            trailers: lines,
            rest: t,
        }),
{
    let rest = encoded_with(parts, lines) + t;
    lemma_head_extends(head, rest);
    law_chunked_with_trailers(parts, lines, t, BODY_CAP as int);
    assert(head.take(head.len() as int) =~= head);
    assert(head.skip(head.len() as int) + rest =~= rest);
}

/// A request with a trailer line that may not be kept is refused with 400.
pub proof fn law_bad_trailer_request(
    head: Seq<u8>,
    parts: Seq<Seq<u8>>,
    lines: Seq<Seq<u8>>,
    line: Seq<u8>,
    t: Seq<u8>,
)
    requires
        head_length(head) == Some(head.len() as int),
        framing(head) is Chunked,
        joined(parts).len() <= BODY_CAP,
        forall|i: int| 0 <= i < parts.len() ==> (#[trigger] parts[i]).len() > 0,
        admissible_trailers(lines),
        plain_line(line),
        line.len() > 0,
        lines.len() == MAX_TRAILERS || !admissible_trailer(line),
    ensures
        arrival(head + (encoded_open(parts, lines) + (line + crlf() + t))) == Arrival::Refuse(400),
{
    let rest = encoded_open(parts, lines) + (line + crlf() + t);
    lemma_head_extends(head, rest);
    law_bad_trailer(parts, lines, line, t, BODY_CAP as int);
    assert(head.take(head.len() as int) =~= head);
    assert(head.skip(head.len() as int) + rest =~= rest);
}

/// A body of a stated length arrives as it was, and what follows it is left for
/// the next request.
pub proof fn law_sized_request(head: Seq<u8>, body: Seq<u8>, t: Seq<u8>)
    requires
        head_length(head) == Some(head.len() as int),
        head.len() + body.len() <= READ_CAP,
        framing(head) matches Framing::Sized { length, .. } && length == body.len(),
    ensures
        arrival(head + (body + t)) == (Arrival::Whole {
            head,
            body,
            trailers: Seq::<Seq<u8>>::empty(),
            rest: t,
        }),
{
    let rest = body + t;
    lemma_head_extends(head, rest);
    assert(head.take(head.len() as int) =~= head);
    assert(head.skip(head.len() as int) + rest =~= rest);
    assert(rest.take(body.len() as int) =~= body);
    assert(rest.skip(body.len() as int) =~= t);
}

/// A request as a client writes it.
pub enum Written {
    /// With a body of a stated length.
    Sized { head: Seq<u8>, body: Seq<u8> },
    /// With a body in chunks, and trailer lines.
    Chunked { head: Seq<u8>, parts: Seq<Seq<u8>>, trailers: Seq<Seq<u8>> },
}

impl Written {
    /// The head announces the body, and both keep the bounds.
    pub open spec fn well_formed(self) -> bool {
        match self {
            Written::Sized { head, body } => {
                &&& head_length(head) == Some(head.len() as int)
                &&& head.len() + body.len() <= READ_CAP
                &&& framing(head) matches Framing::Sized { length, .. } && length == body.len()
            },
            Written::Chunked { head, parts, trailers } => {
                &&& head_length(head) == Some(head.len() as int)
                &&& head.len() < READ_CAP
                &&& framing(head) is Chunked
                &&& joined(parts).len() <= BODY_CAP
                &&& forall|i: int| 0 <= i < parts.len() ==> (#[trigger] parts[i]).len() > 0
                &&& admissible_trailers(trailers)
            },
        }
    }

    /// Its bytes.
    pub open spec fn bytes(self) -> Seq<u8> {
        match self {
            Written::Sized { head, body } => head + body,
            Written::Chunked { head, parts, trailers } => head + encoded_with(parts, trailers),
        }
    }

    /// What it says.
    pub open spec fn message(self) -> Message {
        match self {
            Written::Sized { head, body } => Message { head, body, trailers: Seq::<Seq<u8>>::empty() },
            Written::Chunked { head, parts, trailers } => Message { head, body: joined(parts), trailers },
        }
    }
}

/// The bytes of requests that are written one after the other.
pub open spec fn bytes_of_all(ws: Seq<Written>) -> Seq<u8>
    decreases ws.len(),
{
    if ws.len() == 0 {
        Seq::<u8>::empty()
    } else {
        ws[0].bytes() + bytes_of_all(ws.drop_first())
    }
}

/// What requests say.
pub open spec fn messages_of(ws: Seq<Written>) -> Seq<Message> {
    Seq::new(ws.len(), |i: int| ws[i].message())
}

/// A request that is written arrives as it was, and what follows it is left over.
proof fn lemma_written_arrives(w: Written, t: Seq<u8>)
    requires
        w.well_formed(),
    ensures
        arrival(w.bytes() + t) == (Arrival::Whole {
            head: w.message().head,
            body: w.message().body,
            trailers: w.message().trailers,
            rest: t,
        }),
{
    match w {
        Written::Sized { head, body } => {
            law_sized_request(head, body, t);
            assert(w.bytes() + t =~= head + (body + t));
        },
        Written::Chunked { head, parts, trailers } => {
            law_chunked_request(head, parts, trailers, t);
            assert(w.bytes() + t =~= head + (encoded_with(parts, trailers) + t));
        },
    }
}

/// Requests that are written one after the other are found again one after the
/// other: the first `k` of them, and behind them the bytes of the others.
#[verifier::rlimit(30)]
pub proof fn law_requests_kept_apart(ws: Seq<Written>, t: Seq<u8>, k: nat)
    requires
        k <= ws.len(),
        forall|i: int| 0 <= i < ws.len() ==> (#[trigger] ws[i]).well_formed(),
    ensures
        first_requests(bytes_of_all(ws) + t, k) == Some(
            (messages_of(ws).take(k as int), bytes_of_all(ws.skip(k as int)) + t),
        ),
    decreases k,
{
    if k == 0 {
        assert(messages_of(ws).take(0) =~= Seq::<Message>::empty());
        assert(ws.skip(0) =~= ws);
    } else {
        let j = k - 1;
        law_requests_kept_apart(ws, t, j as nat);
        let w = ws[j];
        let more = bytes_of_all(ws.skip(k as int)) + t;
        lemma_written_arrives(w, more);
        assert(ws.skip(j).drop_first() =~= ws.skip(k as int));
        assert(bytes_of_all(ws.skip(j)) + t =~= w.bytes() + more);
        assert(messages_of(ws).take(j).push(w.message()) =~= messages_of(ws).take(k as int));
    }
}

/// However much of a written request has come: it is complete as soon as all its
/// bytes are there, and never refused.
proof fn lemma_written_so_far(w: Written, s: Seq<u8>, left: Seq<u8>, more: Seq<u8>)
    requires
        w.well_formed(),
        s + left == w.bytes() + more,
    ensures
        arrival(s) matches Arrival::Whole { head, body, trailers, rest } ==> {
            &&& Message { head, body, trailers } == w.message()
            &&& rest + left == more
        },
        arrival(s) is Whole <==> s.len() >= w.bytes().len(),
        arrival(s) !is Refuse,
{
    lemma_written_arrives(w, more);
    law_arrival_settled(s, left);
    if s.len() >= w.bytes().len() {
        let n = w.bytes().len() as int;
        assert((s + left).take(n) =~= s.take(n));
        assert((w.bytes() + more).take(n) =~= w.bytes());
        assert(s =~= s.take(n) + s.skip(n));
        lemma_written_arrives(w, s.skip(n));
    }
    assert((s + left).len() == w.bytes().len() + more.len());
}

/// What a connection has of requests that are written one after the other: those
/// before the present one, and bytes of the present one and of those behind it.
proof fn lemma_series_so_far(c: Conn, ws: Seq<Written>, left: Seq<u8>, t: Seq<u8>)
    requires
        c.in_order(),
        forall|i: int| 0 <= i < ws.len() ==> (#[trigger] ws[i]).well_formed(),
        c.stream@ + left == bytes_of_all(ws) + t,
        c.served < ws.len(),
    ensures
        c.answered@ == messages_of(ws).take(c.served as int),
        c.seen@ + left == ws[c.served as int].bytes() + (bytes_of_all(ws.skip(c.served + 1)) + t),
{
    let k = c.served as int;
    let w = ws[k];
    let more = bytes_of_all(ws.skip(k + 1)) + t;
    lemma_first_requests_extend(c.stream@, left, c.served as nat);
    law_requests_kept_apart(ws, t, c.served as nat);
    assert(ws.skip(k).drop_first() =~= ws.skip(k + 1));
    assert(bytes_of_all(ws.skip(k)) + t =~= w.bytes() + more);
}

/// Requests that are written one after the other on a connection are answered one
/// after the other, each from exactly its own bytes, whatever pieces they come in.
/// Here `left` is what has not come yet, and `t` what follows the requests:
/// - the requests before the present one are the first ones that were written;
/// - each of them left the connection open, so none comes behind one that closes
///   it, and never more than there may be on one connection;
/// - the present one is the next that was written, once it is complete;
/// - it is complete as soon as all its bytes have come, and the bytes behind it are
///   those of the requests that follow;
/// - it is not refused.
pub proof fn law_series_of_requests(c: Conn, ws: Seq<Written>, left: Seq<u8>, t: Seq<u8>)
    requires
        c.wf(),
        forall|i: int| 0 <= i < ws.len() ==> (#[trigger] ws[i]).well_formed(),
        c.stream@ + left == bytes_of_all(ws) + t,
        c.served < ws.len(),
    ensures
        c.answered@ == messages_of(ws).take(c.served as int),
        forall|i: int| 0 <= i < c.served ==> goes_on((#[trigger] ws[i]).message().head, i),
        c.stage == Stage::Ready ==> c.current() == ws[c.served as int].message(),
        arrival(c.seen@) matches Arrival::Whole { head, body, trailers, rest } ==> {
            &&& Message { head, body, trailers } == ws[c.served as int].message()
            &&& rest + left == bytes_of_all(ws.skip(c.served + 1)) + t
        },
        arrival(c.seen@) is Whole <==> c.seen@.len() >= ws[c.served as int].bytes().len(),
        arrival(c.seen@) !is Refuse,
{
    let more = bytes_of_all(ws.skip(c.served + 1)) + t;
    lemma_series_so_far(c, ws, left, t);
    lemma_written_so_far(ws[c.served as int], c.seen@, left, more);
    assert forall|i: int| 0 <= i < c.served implies goes_on((#[trigger] ws[i]).message().head, i) by {
        assert(c.answered@[i] == messages_of(ws)[i]);
    }
}

/// A body that is posted to `/echo` comes back as it was, and every body that is
/// accepted fits the answer.
pub proof fn law_echo_returns_body(
    fields: Seq<(Seq<u8>, Seq<u8>)>,
    body: Seq<u8>,
    requests: u64,
    allocations: u64,
    date: Seq<u8>,
)
    ensures
        handler_of(text("POST"), text("/echo")) == Handler::Plain,
        route_answer(text("POST"), text("/echo"), fields, body, requests, allocations, date) == (
            200u16,
            text("text/plain"),
            body,
        ),
        body.len() <= BODY_CAP ==> cut(body, RESP_BODY_CAP as int) == body,
{
    lemma_methods();
    lemma_paths();
}

/// A request head that a client can write: method, path and version in a line
/// without further blanks, and at most thirty-two fields that can go over the wire.
pub open spec fn writable(method: Seq<u8>, target: Seq<u8>, version: u8, fields: Seq<(Seq<u8>, Seq<u8>)>) -> bool {
    &&& method.len() > 0 && lacks(method, 0x20) && lacks(method, 0x0d) && valid_utf8(method)
    &&& target.len() > 0 && target[0] == 0x2f && lacks(target, 0x20) && lacks(target, 0x0d) && valid_utf8(target)
    &&& version <= 1
    &&& fields.len() <= 32
    &&& forall|i: int| 0 <= i < fields.len() ==> plain_field(#[trigger] fields[i])
}

/// The client waits for the interim answer, or has no expectation at all.
pub open spec fn expects_nothing_else(version: u8, fields: Seq<(Seq<u8>, Seq<u8>)>) -> bool {
    version == 0 || (field_value(fields, text("expect")) matches Some(v) ==> spells(v, continue_word()))
}

/// The client waits for the interim answer.
pub open spec fn expects_interim(version: u8, fields: Seq<(Seq<u8>, Seq<u8>)>) -> bool {
    version == 1 && (field_value(fields, text("expect")) matches Some(v) && spells(v, continue_word()))
}

proof fn lemma_written_head(method: Seq<u8>, target: Seq<u8>, version: u8, fields: Seq<(Seq<u8>, Seq<u8>)>)
    requires
        writable(method, target, version, fields),
        head_wire(method, target, version, fields).len() <= 8192,
    ensures
        ({
            let head = head_wire(method, target, version, fields);
            &&& head_length(head) == Some(head.len() as int)
            &&& head_meaning(head) == (Head::Ready { method, target, version, fields })
        }),
{
    law_head_round_trip(method, target, version, fields);
    law_head_ends_at_blank_line(method, target, version, fields);
}

/// A request with a body of a stated length, as it is written: it is complete as
/// soon as its bytes are there, its head says what was written and its body is the
/// one that was sent, up to 4096 bytes of it, as long as head and body come to no
/// more than 8192. What follows is left for the next request.
pub proof fn law_sized_request_as_written(
    method: Seq<u8>,
    target: Seq<u8>,
    version: u8,
    fields: Seq<(Seq<u8>, Seq<u8>)>,
    body: Seq<u8>,
    t: Seq<u8>,
)
    requires
        writable(method, target, version, fields),
        !some_field_lists(fields, text("transfer-encoding"), text("chunked")),
        expects_nothing_else(version, fields),
        field_value(fields, text("content-length")) == Some(decimal(body.len())) || (field_value(
            fields,
            text("content-length"),
        ) is None && body.len() == 0),
        body.len() <= 4096,
        head_wire(method, target, version, fields).len() + body.len() <= 8192,
    ensures
        ({
            let head = head_wire(method, target, version, fields);
            &&& arrival(head + (body + t)) == (Arrival::Whole { head, body, trailers: Seq::<Seq<u8>>::empty(), rest: t })
            &&& head_meaning(head) == (Head::Ready { method, target, version, fields })
            &&& wants_interim(head) == (expects_interim(version, fields) && body.len() > 0)
        }),
{
    let head = head_wire(method, target, version, fields);
    lemma_written_head(method, target, version, fields);
    law_framing_of_a_written_head(method, target, version, fields);
    law_decimal_reads_back(body.len(), usize::MAX as nat);
    assert(framing(head) matches Framing::Sized { length, .. } && length == body.len());
    law_sized_request(head, body, t);
    assert(head.take(head.len() as int) =~= head);
}

/// A request with a body in chunks, as it is written: whatever length it states
/// besides, its body is what the chunks hold, up to 4096 bytes.
pub proof fn law_chunked_request_as_written(
    method: Seq<u8>,
    target: Seq<u8>,
    version: u8,
    fields: Seq<(Seq<u8>, Seq<u8>)>,
    parts: Seq<Seq<u8>>,
    lines: Seq<Seq<u8>>,
    t: Seq<u8>,
)
    requires
        writable(method, target, version, fields),
        some_field_lists(fields, text("transfer-encoding"), text("chunked")),
        expects_nothing_else(version, fields),
        head_wire(method, target, version, fields).len() < 8192,
        joined(parts).len() <= 4096,
        forall|i: int| 0 <= i < parts.len() ==> (#[trigger] parts[i]).len() > 0,
        lines.len() <= 16,
        forall|i: int| 0 <= i < lines.len() ==> admissible_trailer(#[trigger] lines[i]) && plain_line(lines[i]),
    ensures
        ({
            let head = head_wire(method, target, version, fields);
            &&& arrival(head + (encoded_with(parts, lines) + t)) == (Arrival::Whole {
                head,
                body: joined(parts),
                trailers: lines,
                rest: t,
            })
            &&& head_meaning(head) == (Head::Ready { method, target, version, fields })
            &&& wants_interim(head) == expects_interim(version, fields)
        }),
{
    let head = head_wire(method, target, version, fields);
    lemma_written_head(method, target, version, fields);
    law_framing_of_a_written_head(method, target, version, fields);
    assert(framing(head) is Chunked);
    law_chunked_request(head, parts, lines, t);
    assert(head.take(head.len() as int) =~= head);
}

/// Which requests are refused for their head, whatever follows it: with 417 one
/// that expects something else than the interim answer, with 413 one that states
/// a body of more than 4096 bytes, with 400 one whose length is no number.
pub proof fn law_refused_requests(
    method: Seq<u8>,
    target: Seq<u8>,
    version: u8,
    fields: Seq<(Seq<u8>, Seq<u8>)>,
    t: Seq<u8>,
)
    requires
        writable(method, target, version, fields),
        head_wire(method, target, version, fields).len() <= 8192,
    ensures
        ({
            let a = arrival(head_wire(method, target, version, fields) + t);
            let chunked = some_field_lists(fields, text("transfer-encoding"), text("chunked"));
            &&& !expects_nothing_else(version, fields) ==> a == Arrival::Refuse(417)
            &&& expects_nothing_else(version, fields) && !chunked ==> match field_value(fields, text("content-length")) {
                None => a !is Refuse,
                Some(v) => match number_upto(v, usize::MAX as nat) {
                    None => a == Arrival::Refuse(400),
                    Some(n) => n > 4096 ==> a == Arrival::Refuse(413),
                },
            }
        }),
{
    let head = head_wire(method, target, version, fields);
    lemma_written_head(method, target, version, fields);
    law_framing_of_a_written_head(method, target, version, fields);
    lemma_head_extends(head, t);
    assert(head.take(head.len() as int) =~= head);
    assert(head.skip(head.len() as int) + t =~= t);
}

/// A head is waited for until 8192 bytes have come without the blank line that ends
/// it; then the request is refused with 431.
pub proof fn law_head_too_large(s: Seq<u8>)
    requires
        find_sub(s, head_end_mark()) is None,
    ensures
        s.len() < 8192 ==> arrival(s) is Partial,
        s.len() >= 8192 ==> arrival(s) == Arrival::Refuse(431),
{
}

/// Where a connection ends: it stays open behind one of its first ninety-nine
/// requests whose version and Connection field leave it open, unless it has left
/// HTTP. The hundredth closes it.
pub proof fn law_goes_on(
    method: Seq<u8>,
    target: Seq<u8>,
    version: u8,
    fields: Seq<(Seq<u8>, Seq<u8>)>,
    served: int,
)
    requires
        writable(method, target, version, fields),
        served >= 0,
    ensures
        goes_on(head_wire(method, target, version, fields), served) <==> {
            &&& served < 99
            &&& !(method == text("GET") && before(target, 0x3f) == text("/ws"))
            &&& match field_value(fields, text("connection")) {
                None => version == 1,
                Some(v) => if version == 1 {
                    !spells(v, close_word())
                } else {
                    spells(v, keep_word())
                },
            }
        },
{
    law_head_round_trip(method, target, version, fields);
    law_persistence(fields);
    lemma_methods();
}

/// A form that is posted to `/upload` is answered with 200 and the summary of its
/// parts, whatever boundary of 1 to 128 bytes its Content-Type states.
pub proof fn law_form_answered(
    fields: Seq<(Seq<u8>, Seq<u8>)>,
    b: Seq<u8>,
    t: Seq<u8>,
    heads: Seq<Seq<u8>>,
    bodies: Seq<Seq<u8>>,
    epilogue: Seq<u8>,
    requests: u64,
    allocations: u64,
    date: Seq<u8>,
)
    requires
        field_value(fields, text("content-type")) matches Some(v) && states_boundary(v, b, t),
        1 <= b.len() <= 128,
        lacks(b, 0x22),
        0 < heads.len() <= 16,
        bodies.len() == heads.len(),
        forall|i: int| 0 <= i < heads.len() ==> plain_block(#[trigger] heads[i]),
        forall|i: int| 0 <= i < heads.len() ==> plain_bytes(#[trigger] bodies[i], delimiter(b)),
    ensures
        handler_of(text("POST"), text("/upload")) == Handler::Plain,
        route_answer(
            text("POST"),
            text("/upload"),
            fields,
            form_text(heads, bodies, b) + epilogue,
            requests,
            allocations,
            date,
        ) == (
            200u16,
            text("text/plain"),
            text("parts: ") + decimal(heads.len()) + text("\n") + summary(heads, bodies, heads.len()),
        ),
{
    lemma_methods();
    lemma_paths();
    law_upload_sums_up(fields, b, t, heads, bodies, epilogue);
}

/// The two counters are told as decimal numbers behind their names.
pub proof fn law_counters_told(
    fields: Seq<(Seq<u8>, Seq<u8>)>,
    body: Seq<u8>,
    requests: u64,
    allocations: u64,
    date: Seq<u8>,
)
    ensures
        ({
            let m = route_answer(text("GET"), text("/metrics"), fields, body, requests, allocations, date);
            let a = route_answer(text("GET"), text("/allocs"), fields, body, requests, allocations, date);
            &&& m.0 == 200 && a.0 == 200
            &&& tells(m.2, text("http_requests_total "), requests as nat)
            &&& tells(a.2, text("heap_allocations_total "), allocations as nat)
        }),
{
    lemma_methods();
    lemma_paths();
    lemma_tells(text("http_requests_total "), requests);
    lemma_tells(text("heap_allocations_total "), allocations);
}

/// A line that starts with a name and tells a number behind it.
pub open spec fn tells(line: Seq<u8>, name: Seq<u8>, n: nat) -> bool {
    &&& line.len() > name.len() + 1
    &&& line.take(name.len() as int) == name
    &&& number_upto(line.subrange(name.len() as int, line.len() - 1), u64::MAX as nat) == Some(n)
    &&& line.last() == 0x0a
}

proof fn lemma_tells(name: Seq<u8>, n: u64)
    ensures
        tells(name + decimal(n as nat) + text("\n"), name, n as nat),
{
    reveal_strlit("\n");
    is_ascii_spec_bytes("\n");
    let line = name + decimal(n as nat) + text("\n");
    law_decimal_reads_back(n as nat, u64::MAX as nat);
    assert(line.take(name.len() as int) =~= name);
    assert(line.subrange(name.len() as int, line.len() - 1) =~= decimal(n as nat));
}

/// A body of a stated length has to fit the 8192 bytes together with its head: where
/// it does not, the request is refused with 413 once as many have come.
pub proof fn law_body_beyond_the_buffer(
    method: Seq<u8>,
    target: Seq<u8>,
    version: u8,
    fields: Seq<(Seq<u8>, Seq<u8>)>,
    n: nat,
    t: Seq<u8>,
)
    requires
        writable(method, target, version, fields),
        !some_field_lists(fields, text("transfer-encoding"), text("chunked")),
        expects_nothing_else(version, fields),
        field_value(fields, text("content-length")) == Some(decimal(n)),
        n <= 4096,
        head_wire(method, target, version, fields).len() <= 8192,
        head_wire(method, target, version, fields).len() + n > 8192,
    ensures
        ({
            let s = head_wire(method, target, version, fields) + t;
            &&& s.len() >= 8192 ==> arrival(s) == Arrival::Refuse(413)
            &&& s.len() < 8192 ==> arrival(s) is Partial
        }),
{
    let head = head_wire(method, target, version, fields);
    lemma_written_head(method, target, version, fields);
    law_framing_of_a_written_head(method, target, version, fields);
    law_decimal_reads_back(n, usize::MAX as nat);
    lemma_head_extends(head, t);
    assert(head.take(head.len() as int) =~= head);
    assert(head.skip(head.len() as int) + t =~= t);
}

/// What a refused request is told.
pub proof fn law_refusals_told(status: u16)
    ensures
        status == 431 ==> refusal_text(status) == text("head too large\n"),
        status == 417 ==> refusal_text(status) == text("expectation failed\n"),
        status == 413 ==> refusal_text(status) == text("body too large\n"),
        status == 400 || status == 505 ==> refusal_text(status) == text("bad request\n"),
{
}

/// The short answers: the landing page and the health check are the same for GET and
/// HEAD, the time is the date on a line, and the fields come back as they were read.
pub proof fn law_plain_answers(
    fields: Seq<(Seq<u8>, Seq<u8>)>,
    body: Seq<u8>,
    requests: u64,
    allocations: u64,
    date: Seq<u8>,
)
    ensures
        route_answer(text("GET"), text("/"), fields, body, requests, allocations, date) == route_answer(
            text("HEAD"),
            text("/"),
            fields,
            body,
            requests,
            allocations,
            date,
        ),
        route_answer(text("GET"), text("/"), fields, body, requests, allocations, date).0 == 200,
        route_answer(text("GET"), text("/"), fields, body, requests, allocations, date).1 == text("text/html"),
        route_answer(text("GET"), text("/health"), fields, body, requests, allocations, date) == (
            200u16,
            text("text/plain"),
            text("ok\n"),
        ),
        route_answer(text("HEAD"), text("/health"), fields, body, requests, allocations, date) == (
            200u16,
            text("text/plain"),
            text("ok\n"),
        ),
        route_answer(text("GET"), text("/time"), fields, body, requests, allocations, date) == (
            200u16,
            text("text/plain"),
            date + text("\n"),
        ),
        route_answer(text("GET"), text("/headers"), fields, body, requests, allocations, date) == (
            200u16,
            text("text/plain"),
            fields_text(fields, fields.len()),
        ),
{
    lemma_methods();
    lemma_paths();
}

} // verus!
