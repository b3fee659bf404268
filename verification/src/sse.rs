//! Server-sent events: an endless feed of numbered ticks that a client can
//! resume.
use vstd::prelude::*;
use vstd::string::*;
use vstd::utf8::*;

use crate::buf::{decimal, law_decimal_reads_back, lemma_concat_left, lemma_decimal_len, pow10, Out};
use crate::bytes::{crlf, number_upto, parse_u64b, same_str, text, COLON, SP};
use crate::chunked::{chunk, chunks, lemma_one_chunk};
use crate::dates::{clock_date, date_now};
use crate::http::{field_value, header, Request};
use crate::routes::{
    answer_wire, connection, connection_field, lemma_head_close, lemma_ok_line, lemma_wire_from, push_chunk,
    push_connection,
};
use crate::strings::{is_white_space, law_stripped, stripped, trim_white_space};

verus! {

/// Seconds between two ticks.
pub const SSE_INTERVAL_SECS: u64 = 1;

/// Room for one frame.
pub const SSE_FRAME_CAP: usize = 128;

/// What the feed starts with.
pub const SSE_PREAMBLE: &'static str = ": zahttp event stream\nretry: 3000\n\n";

/// One tick.
pub open spec fn tick(id: nat) -> Seq<u8> {
    text("id: ") + decimal(id) + text("\nevent: tick\ndata: ") + decimal(id) + text("\n\n")
}

/// Appends one tick.
pub fn sse_tick(id: u64, o: &mut Out)
    requires
        old(o).wf(),
    ensures
        final(o).wf(),
        final(o).pushed() == old(o).pushed() + tick(id as nat),
        final(o).capacity() == old(o).capacity(),
        final(final(o).buf)@ == final(old(o).buf)@,
{
    broadcast use lemma_concat_left;

    o.push_str("id: ");
    o.push_u64(id);
    o.push_str("\nevent: tick\ndata: ");
    o.push_u64(id);
    o.push_str("\n\n");
}

/// The event that a client has seen last: 0 when it names none.
pub open spec fn last_seen(fields: Seq<(Seq<u8>, Seq<u8>)>) -> nat {
    match field_value(fields, text("last-event-id")) {
        Some(v) => match number_upto(encode_utf8(stripped(decode_utf8(v))), u64::MAX as nat) {
            Some(n) => n,
            None => 0,
        },
        None => 0,
    }
}

/// The identifier behind `id`. Zero stands for no event and is skipped.
pub open spec fn following(id: nat) -> nat {
    if id >= u64::MAX {
        1
    } else {
        id + 1
    }
}

/// The identifier behind `id`.
pub fn next_id(id: u64) -> (r: u64)
    ensures
        r == following(id as nat),
        r > 0,
{
    let next: u64 = id.wrapping_add(1);
    if next == 0 {
        1
    } else {
        next
    }
}

/// The identifier of the first tick for a request.
pub fn first_id(req: &Request) -> (r: u64)
    requires
        req.wf(),
    ensures
        r == following(last_seen(req.fields())),
        r > 0,
{
    let seen: u64 = match header(req, "last-event-id") {
        Some(v) => {
            proof {
                encode_utf8_decode_utf8(v@);
            }
            match parse_u64b(trim_white_space(v).as_bytes()) {
                Some(n) => n,
                None => 0,
            }
        },
        None => 0,
    };
    next_id(seen)
}

/// The identifier that `k` steps from `id` lead to.
pub open spec fn steps_from(id: nat, k: nat) -> nat
    decreases k,
{
    if k == 0 {
        id
    } else {
        following(steps_from(id, (k - 1) as nat))
    }
}

/// The identifier of the `k`-th tick behind event `seen`, counted from one.
pub open spec fn tick_id(seen: nat, k: nat) -> nat {
    steps_from(seen, k)
}

/// The first `k` ticks behind event `seen`.
pub open spec fn ticks_text(seen: nat, k: nat) -> Seq<u8>
    decreases k,
{
    if k == 0 {
        Seq::<u8>::empty()
    } else {
        ticks_text(seen, (k - 1) as nat) + tick(tick_id(seen, k))
    }
}

/// A feed up to its `k`-th tick.
pub open spec fn feed_text(seen: nat, k: nat) -> Seq<u8> {
    text(SSE_PREAMBLE) + ticks_text(seen, k)
}

/// A piece of a feed on the wire: a chunk of its own, or its plain bytes.
pub open spec fn framed(payload: Seq<u8>, chunked: bool) -> Seq<u8> {
    if chunked {
        chunk(payload)
    } else {
        payload
    }
}

/// A feed on the wire up to its `k`-th tick.
pub open spec fn feed_wire(seen: nat, k: nat, chunked: bool) -> Seq<u8>
    decreases k,
{
    if k == 0 {
        framed(text(SSE_PREAMBLE), chunked)
    } else {
        feed_wire(seen, (k - 1) as nat, chunked) + framed(tick(tick_id(seen, k)), chunked)
    }
}

/// Appends a piece of a feed as it is sent.
pub fn push_frame(o: &mut Out, payload: &[u8], chunked: bool)
    requires
        old(o).wf(),
    ensures
        final(o).wf(),
        final(o).pushed() == old(o).pushed() + framed(payload@, chunked),
        final(o).capacity() == old(o).capacity(),
        final(final(o).buf)@ == final(old(o).buf)@,
{
    if chunked {
        push_chunk(o, payload);
    } else {
        o.push(payload);
    }
}

/// A feed under way.
pub struct Feed {
    /// The identifier of the next tick.
    pub id: u64,
    /// The event that the client had seen before.
    pub seen: Ghost<nat>,
    /// Ticks so far.
    pub sent: Ghost<nat>,
}

impl Feed {
    /// The next tick is the one behind those that were sent.
    pub open spec fn wf(&self) -> bool {
        self.id == tick_id(self.seen@, self.sent@ + 1)
    }

    /// The feed that a request asks for.
    pub fn new(req: &Request) -> (r: Feed)
        requires
            req.wf(),
        ensures
            r.wf(),
            r.seen@ == last_seen(req.fields()),
            r.sent@ == 0,
    {
        let r = Feed { id: first_id(req), seen: Ghost(last_seen(req.fields())), sent: Ghost(0nat) };
        assert(tick_id(r.seen@, 1) == following(tick_id(r.seen@, 0)));
        r
    }

    /// Appends the next tick.
    pub fn tick(&mut self, o: &mut Out)
        requires
            old(self).wf(),
            old(o).wf(),
        ensures
            final(self).wf(),
            final(self).seen@ == old(self).seen@,
            final(self).sent@ == old(self).sent@ + 1,
            final(o).wf(),
            final(o).pushed() == old(o).pushed() + tick(tick_id(old(self).seen@, old(self).sent@ + 1)),
            final(o).capacity() == old(o).capacity(),
            final(final(o).buf)@ == final(old(o).buf)@,
    {
        sse_tick(self.id, o);
        self.id = next_id(self.id);
        self.sent = Ghost(self.sent@ + 1);
    }
}

/// How a feed is sent.
pub struct FeedPlan {
    /// HEAD gets no feed.
    pub with_body: bool,
    /// HTTP/1.1 gets chunks, HTTP/1.0 the plain bytes.
    pub chunked: bool,
    /// The connection outlives the answer. A feed in plain bytes ends with it.
    pub alive: bool,
}

/// The head of a feed.
pub open spec fn feed_head(date: Seq<u8>, with_body: bool, http11: bool, keep_alive: bool) -> Seq<u8> {
    text("HTTP/1.1 200 OK\r\nDate: ") + date + text(
        "\r\nServer: zahttp/0.1\r\nContent-Type: text/event-stream\r\nCache-Control: no-cache\r\n",
    ) + (if with_body && http11 {
        text("Transfer-Encoding: chunked\r\n")
    } else {
        Seq::<u8>::empty()
    }) + text("Connection: ") + connection(http11 && keep_alive) + text("\r\n\r\n")
}

/// Appends the head of a feed with this date and says how the feed is sent.
pub fn send_events_at(h: &mut Out, req: &Request, date: &[u8], keep_alive: bool) -> (r: FeedPlan)
    requires
        old(h).wf(),
    ensures
        final(h).wf(),
        r.with_body == (text(req.method) == text("GET")),
        r.chunked == (req.version == 1),
        r.alive == (req.version == 1 && keep_alive),
        final(h).pushed() == old(h).pushed() + feed_head(date@, r.with_body, r.chunked, keep_alive),
        final(h).capacity() == old(h).capacity(),
        final(final(h).buf)@ == final(old(h).buf)@,
{
    broadcast use lemma_concat_left;

    let with_body = same_str(req.method, "GET");
    let http11 = req.version == 1;
    let alive = http11 && keep_alive;
    h.push_str("HTTP/1.1 200 OK\r\nDate: ");
    h.push(date);
    h.push_str("\r\nServer: zahttp/0.1\r\nContent-Type: text/event-stream\r\nCache-Control: no-cache\r\n");
    if with_body && http11 {
        h.push_str("Transfer-Encoding: chunked\r\n");
    } else {
        assert(h.pushed() + Seq::<u8>::empty() =~= h.pushed());
    }
    h.push_str("Connection: ");
    push_connection(h, alive);
    FeedPlan { with_body, chunked: http11, alive }
}

/// Appends the head of a feed with the current date.
pub fn send_events(h: &mut Out, req: &Request, keep_alive: bool) -> (r: FeedPlan)
    requires
        old(h).wf(),
    ensures
        final(h).wf(),
        r.with_body == (text(req.method) == text("GET")),
        r.chunked == (req.version == 1),
        r.alive == (req.version == 1 && keep_alive),
        exists|now: Option<u64>|
            final(h).pushed() == old(h).pushed() + feed_head(
                #[trigger] clock_date(now),
                r.with_body,
                r.chunked,
                keep_alive,
            ),
        final(h).capacity() == old(h).capacity(),
        final(final(h).buf)@ == final(old(h).buf)@,
{
    let mut date: [u8; 29] = [0u8; 29];
    date_now(&mut date);
    send_events_at(h, req, &date, keep_alive)
}

// ---- laws -------------------------------------------------------------------

/// Every tick fits its frame, so that the feed never stops for want of room.
pub proof fn law_tick_fits(id: u64)
    ensures
        tick(id as nat).len() <= SSE_FRAME_CAP,
{
    reveal_with_fuel(pow10, 21);
    lemma_decimal_len(id as nat, 20);
    reveal_strlit("id: ");
    reveal_strlit("\nevent: tick\ndata: ");
    reveal_strlit("\n\n");
    is_ascii_spec_bytes("id: ");
    is_ascii_spec_bytes("\nevent: tick\ndata: ");
    is_ascii_spec_bytes("\n\n");
}

/// The number of the `k`-th tick behind event `seen` is the one that `k - 1` steps
/// from the first lead to. It is never zero, and up to the largest number each is
/// one more than the one before it; behind the largest comes one.
pub proof fn law_feed_numbers(seen: nat, k: nat)
    requires
        seen <= u64::MAX,
        k > 0,
    ensures
        tick_id(seen, k) == steps_from(following(seen), (k - 1) as nat),
        0 < tick_id(seen, k) <= u64::MAX,
        tick_id(seen, k) == (seen + k - 1) % (u64::MAX as int) + 1,
    decreases k,
{
    let top = u64::MAX as int;
    if k > 1 {
        let j = (k - 1) as nat;
        law_feed_numbers(seen, j);
        let x = seen + k - 2;
        assert((x + 1) % top == (if x % top == top - 1 {
            0
        } else {
            x % top + 1
        })) by (nonlinear_arith)
            requires
                top == u64::MAX as int,
                x >= 0,
        ;
    } else {
        assert(tick_id(seen, 0) == seen);
        assert(steps_from(following(seen), 0) == following(seen));
        assert(seen % (u64::MAX as nat) == (if seen == u64::MAX {
            0
        } else {
            seen
        }));
    }
}

/// A client that names the last tick it saw gets the ticks that it would have got
/// next: it misses none and gets none twice.
pub proof fn law_feed_resumes(seen: nat, j: nat, k: nat)
    ensures
        tick_id(tick_id(seen, j), k) == tick_id(seen, j + k),
        feed_text(seen, j + k) == feed_text(seen, j) + ticks_text(tick_id(seen, j), k),
{
    lemma_ticks_split(seen, j, k);
    assert(feed_text(seen, j + k) =~= feed_text(seen, j) + ticks_text(tick_id(seen, j), k));
}

proof fn lemma_ticks_split(seen: nat, j: nat, k: nat)
    ensures
        tick_id(tick_id(seen, j), k) == tick_id(seen, j + k),
        ticks_text(seen, j + k) == ticks_text(seen, j) + ticks_text(tick_id(seen, j), k),
    decreases k,
{
    if k > 0 {
        lemma_ticks_split(seen, j, (k - 1) as nat);
    }
    assert(ticks_text(seen, j + k) =~= ticks_text(seen, j) + ticks_text(tick_id(seen, j), k));
}

/// What a client reads is the feed: its plain bytes, and what its chunks decode to.
pub proof fn law_feed_on_the_wire(seen: nat, k: nat, u: Seq<u8>, cap: int)
    requires
        feed_text(seen, k).len() <= cap <= usize::MAX,
    ensures
        feed_wire(seen, k, false) == feed_text(seen, k),
        chunks(feed_wire(seen, k, true) + u, Seq::<u8>::empty(), cap) == chunks(u, feed_text(seen, k), cap),
    decreases k,
{
    let none = Seq::<u8>::empty();
    if k == 0 {
        let first = text(SSE_PREAMBLE);
        reveal_strlit(": zahttp event stream\nretry: 3000\n\n");
        is_ascii_spec_bytes(SSE_PREAMBLE);
        assert(feed_text(seen, k) =~= first);
        assert(none + first =~= first);
        lemma_one_chunk(first, u, none, cap);
    } else {
        let t = tick(tick_id(seen, k));
        let before = feed_text(seen, (k - 1) as nat);
        assert(feed_text(seen, k) =~= before + t);
        law_feed_on_the_wire(seen, (k - 1) as nat, chunk(t) + u, cap);
        assert(feed_wire(seen, k, true) + u =~= feed_wire(seen, (k - 1) as nat, true) + (chunk(t) + u));
        assert(t.len() > 0) by {
            reveal_strlit("id: ");
            is_ascii_spec_bytes("id: ");
        }
        lemma_one_chunk(t, u, before, cap);
    }
}

/// A client that names an event has seen it: the number counts, with white space
/// around it or without. What is no number, or none that an event can have, counts
/// as none, and so does no name at all.
pub proof fn law_last_seen(fields: Seq<(Seq<u8>, Seq<u8>)>, l: Seq<char>, s: Seq<char>, r: Seq<char>, n: nat)
    requires
        forall|i: int| 0 <= i < l.len() ==> is_white_space(#[trigger] l[i]),
        forall|i: int| 0 <= i < r.len() ==> is_white_space(#[trigger] r[i]),
        s.len() > 0,
        !is_white_space(s[0]),
        !is_white_space(s.last()),
        field_value(fields, text("last-event-id")) == Some(encode_utf8(l + s + r)),
    ensures
        encode_utf8(s) == decimal(n) && n <= u64::MAX ==> last_seen(fields) == n,
        encode_utf8(s) == decimal(n) && n > u64::MAX ==> last_seen(fields) == 0,
        number_upto(encode_utf8(s), u64::MAX as nat) is None ==> last_seen(fields) == 0,
{
    encode_utf8_decode_utf8(l + s + r);
    law_stripped(l, s, r);
    law_decimal_reads_back(n, u64::MAX as nat);
}

/// A client that names no event has seen none.
pub proof fn law_nothing_seen(fields: Seq<(Seq<u8>, Seq<u8>)>)
    requires
        field_value(fields, text("last-event-id")) is None,
    ensures
        last_seen(fields) == 0,
        tick_id(last_seen(fields), 1) == 1,
{
    law_feed_numbers(0, 1);
}

/// A tick tells its number twice, as its identifier and as its data.
pub proof fn law_tick_tells_its_number(id: nat)
    requires
        id <= u64::MAX,
    ensures
        ({
            let t = tick(id);
            let d = decimal(id);
            let n = d.len() as int;
            &&& t.take(4) == text("id: ")
            &&& t.subrange(4, 4 + n) == d
            &&& t.subrange(4 + n, 23 + n) == text("\nevent: tick\ndata: ")
            &&& t.subrange(23 + n, 23 + 2 * n) == d
            &&& t.skip(23 + 2 * n) == seq![0x0au8, 0x0au8]
            &&& number_upto(d, u64::MAX as nat) == Some(id)
        }),
{
    reveal_strlit("id: ");
    reveal_strlit("\nevent: tick\ndata: ");
    reveal_strlit("\n\n");
    is_ascii_spec_bytes("id: ");
    is_ascii_spec_bytes("\nevent: tick\ndata: ");
    is_ascii_spec_bytes("\n\n");
    law_decimal_reads_back(id, u64::MAX as nat);
    let t = tick(id);
    let d = decimal(id);
    let n = d.len() as int;
    assert(t.take(4) =~= text("id: "));
    assert(t.subrange(4, 4 + n) =~= d);
    assert(t.subrange(4 + n, 23 + n) =~= text("\nevent: tick\ndata: "));
    assert(t.subrange(23 + n, 23 + 2 * n) =~= d);
    assert(t.skip(23 + 2 * n) =~= seq![0x0au8, 0x0au8]);
}

/// A piece of a head, taken apart.
proof fn lemma_feed_fields()
    ensures
        text("\r\nServer: zahttp/0.1\r\nContent-Type: text/event-stream\r\nCache-Control: no-cache\r\n") == crlf()
            + text("Server") + seq![COLON, SP] + text("zahttp/0.1") + crlf() + text("Content-Type")
            + seq![COLON, SP] + text("text/event-stream") + crlf() + text("Cache-Control") + seq![COLON, SP]
            + text("no-cache") + crlf(),
{
    reveal_strlit("\r\nServer: zahttp/0.1\r\nContent-Type: text/event-stream\r\nCache-Control: no-cache\r\n");
    reveal_strlit("Cache-Control");
    reveal_strlit("Content-Type");
    reveal_strlit("Server");
    reveal_strlit("no-cache");
    reveal_strlit("text/event-stream");
    reveal_strlit("zahttp/0.1");
    is_ascii_spec_bytes("\r\nServer: zahttp/0.1\r\nContent-Type: text/event-stream\r\nCache-Control: no-cache\r\n");
    is_ascii_spec_bytes("Cache-Control");
    is_ascii_spec_bytes("Content-Type");
    is_ascii_spec_bytes("Server");
    is_ascii_spec_bytes("no-cache");
    is_ascii_spec_bytes("text/event-stream");
    is_ascii_spec_bytes("zahttp/0.1");
    assert(text("\r\nServer: zahttp/0.1\r\nContent-Type: text/event-stream\r\nCache-Control: no-cache\r\n") =~= crlf()
        + text("Server") + seq![COLON, SP] + text("zahttp/0.1") + crlf() + text("Content-Type")
        + seq![COLON, SP] + text("text/event-stream") + crlf() + text("Cache-Control") + seq![COLON, SP]
        + text("no-cache") + crlf());
}

/// A piece of a head, taken apart.
proof fn lemma_feed_chunked()
    ensures
        text("Transfer-Encoding: chunked\r\n") == text("Transfer-Encoding") + seq![COLON, SP] + text("chunked")
            + crlf(),
{
    reveal_strlit("Transfer-Encoding: chunked\r\n");
    reveal_strlit("Transfer-Encoding");
    reveal_strlit("chunked");
    is_ascii_spec_bytes("Transfer-Encoding: chunked\r\n");
    is_ascii_spec_bytes("Transfer-Encoding");
    is_ascii_spec_bytes("chunked");
    assert(text("Transfer-Encoding: chunked\r\n") =~= text("Transfer-Encoding") + seq![COLON, SP]
        + text("chunked") + crlf());
}

/// A piece of a head, taken apart.
proof fn lemma_feed_connection()
    ensures
        text("Connection: ") == text("Connection") + seq![COLON, SP],
{
    reveal_strlit("Connection: ");
    reveal_strlit("Connection");
    is_ascii_spec_bytes("Connection: ");
    is_ascii_spec_bytes("Connection");
    assert(text("Connection: ") =~= text("Connection") + seq![COLON, SP]);
}

/// The head of a feed in chunks, field by field.
#[verifier::rlimit(60)]
#[verifier::spinoff_prover]
pub proof fn law_feed_head_in_chunks(date: Seq<u8>, keep_alive: bool)
    ensures
        feed_head(date, true, true, keep_alive) == answer_wire(
            200,
            text("OK"),
            seq![
                (text("Date"), date),
                (text("Server"), text("zahttp/0.1")),
                (text("Content-Type"), text("text/event-stream")),
                (text("Cache-Control"), text("no-cache")),
                (text("Transfer-Encoding"), text("chunked")),
                connection_field(keep_alive),
            ],
        ),
{
    broadcast use lemma_concat_left;

    let fs = seq![
        (text("Date"), date),
        (text("Server"), text("zahttp/0.1")),
        (text("Content-Type"), text("text/event-stream")),
        (text("Cache-Control"), text("no-cache")),
        (text("Transfer-Encoding"), text("chunked")),
        connection_field(keep_alive),
    ];
    lemma_wire_from(fs, 0);
    lemma_wire_from(fs, 1);
    lemma_wire_from(fs, 2);
    lemma_wire_from(fs, 3);
    lemma_wire_from(fs, 4);
    lemma_wire_from(fs, 5);
    lemma_ok_line();
    lemma_feed_fields();
    lemma_feed_chunked();
    lemma_feed_connection();
    lemma_head_close();
    assert(feed_head(date, true, true, keep_alive) == answer_wire(200, text("OK"), fs));
}

/// The head of a feed that does not come in chunks: to HEAD, and to HTTP/1.0, for
/// which the connection is closed behind it.
#[verifier::rlimit(60)]
#[verifier::spinoff_prover]
pub proof fn law_feed_head_plain(date: Seq<u8>, with_body: bool, http11: bool, keep_alive: bool)
    requires
        !with_body || !http11,
    ensures
        feed_head(date, with_body, http11, keep_alive) == answer_wire(
            200,
            text("OK"),
            seq![
                (text("Date"), date),
                (text("Server"), text("zahttp/0.1")),
                (text("Content-Type"), text("text/event-stream")),
                (text("Cache-Control"), text("no-cache")),
                connection_field(http11 && keep_alive),
            ],
        ),
{
    broadcast use lemma_concat_left;

    let fs = seq![
        (text("Date"), date),
        (text("Server"), text("zahttp/0.1")),
        (text("Content-Type"), text("text/event-stream")),
        (text("Cache-Control"), text("no-cache")),
        connection_field(http11 && keep_alive),
    ];
    lemma_wire_from(fs, 0);
    lemma_wire_from(fs, 1);
    lemma_wire_from(fs, 2);
    lemma_wire_from(fs, 3);
    lemma_wire_from(fs, 4);
    lemma_ok_line();
    lemma_feed_fields();
    lemma_feed_connection();
    lemma_head_close();
    lemma_nothing_between();
    assert(feed_head(date, with_body, http11, keep_alive) == answer_wire(200, text("OK"), fs));
}

/// Nothing between two pieces.
proof fn lemma_nothing_between()
    ensures
        forall|a: Seq<u8>| #[trigger] (a + Seq::<u8>::empty()) == a,
{
    assert forall|a: Seq<u8>| #[trigger] (a + Seq::<u8>::empty()) == a by {
        assert(a + Seq::<u8>::empty() =~= a);
    }
}

} // verus!
