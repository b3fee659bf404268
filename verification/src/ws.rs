//! WebSocket: the handshake, and a session that echoes messages.
use vstd::prelude::*;
use vstd::slice::slice_subrange;
use vstd::string::*;

use crate::base64::{base64, base64_encode};
use crate::buf::{copy_bytes, decimal, lemma_concat_left, Out};
use crate::bytes::{crlf, eq_ignore_ascii_case, same_ignoring_case, same_str, text, trim, trimmed, COLON, SP};
use crate::chunked::joined;
use crate::dates::{clock_date, date_now};
use crate::http::{field_of_slot, field_value, header, list_has, list_has_token, Request};
use crate::routes::{answer_wire, lemma_head_close, lemma_wire_from};
use crate::sha1::{sha1, sha1_of};

verus! {

/// Longest message.
pub const WS_MSG_CAP: usize = 4096;

/// What is hashed behind a client's key.
pub const WS_GUID: &'static str = "258EAFA5-E914-47DA-95CA-C5AB0DC85B11";

/// Longest key.
pub const WS_KEY_MAX: usize = 64;

/// Room for a key and what is hashed behind it.
const KEY_CAP: usize = 100;

/// Most bytes that are discarded before a connection is closed.
pub const DRAIN_MAX: u64 = 65536;

// ---- the handshake ----------------------------------------------------------

/// Some field with that name lists the token.
pub open spec fn has_token(fields: Seq<(Seq<u8>, Seq<u8>)>, name: Seq<u8>, token: Seq<u8>) -> bool
    decreases fields.len(),
{
    fields.len() > 0 && ((same_ignoring_case(fields[0].0, name) && list_has(trimmed(fields[0].1), token)) || has_token(
        fields.drop_first(),
        name,
        token,
    ))
}

pub fn header_has_token(req: &Request, name: &str, token: &[u8]) -> (r: bool)
    requires
        req.wf(),
    ensures
        r == has_token(req.fields(), text(name), token@),
{
    let mut i: usize = 0;
    assert(req.fields().skip(0) =~= req.fields());
    while i < req.header_count
        invariant
            req.wf(),
            i <= req.header_count,
            has_token(req.fields().skip(i as int), text(name), token@) == has_token(req.fields(), text(name), token@),
        decreases req.header_count - i,
    {
        let ghost tail = req.fields().skip(i as int);
        assert(req.headers@[i as int] is Some);
        assert(tail[0] == field_of_slot(req.headers@[i as int]));
        assert(tail.drop_first() =~= req.fields().skip(i + 1));
        match req.headers[i] {
            Some(h) => {
                if eq_ignore_ascii_case(h.name.as_bytes(), name.as_bytes()) && list_has_token(
                    trim(h.value.as_bytes()),
                    token,
                ) {
                    return true;
                }
            },
            None => {},
        }
        i += 1;
    }
    false
}

/// The answer to a client's key.
pub open spec fn accept_text(key: Seq<u8>) -> Seq<u8> {
    base64(sha1_of(key + text(WS_GUID)))
}

/// The answer to an upgrade: the accept value, or the status that refuses it.
pub open spec fn handshake(fields: Seq<(Seq<u8>, Seq<u8>)>) -> Result<Seq<u8>, u16> {
    match field_value(fields, text("sec-websocket-version")) {
        None => Err(400),
        Some(v) => if v != text("13") {
            Err(426)
        } else if !has_token(fields, text("upgrade"), text("websocket")) || !has_token(
            fields,
            text("connection"),
            text("upgrade"),
        ) {
            Err(400)
        } else {
            match field_value(fields, text("sec-websocket-key")) {
                Some(key) => if 0 < key.len() <= WS_KEY_MAX {
                    Ok(accept_text(key))
                } else {
                    Err(400)
                },
                None => Err(400),
            }
        },
    }
}

/// Computes the answer to a key.
fn accept_value(key: &[u8]) -> (r: [u8; 28])
    requires
        key@.len() <= WS_KEY_MAX,
    ensures
        r@ == accept_text(key@),
{
    proof {
        reveal_strlit("258EAFA5-E914-47DA-95CA-C5AB0DC85B11");
        is_ascii_spec_bytes(WS_GUID);
    }
    let guid = WS_GUID.as_bytes();
    let n: usize = key.len();
    let mut input: [u8; KEY_CAP] = [0u8; KEY_CAP];
    copy_bytes(&mut input, 0, key);
    copy_bytes(&mut input, n, guid);
    let hashed = slice_subrange(&input, 0, n + guid.len());
    assert(hashed@ =~= key@ + text(WS_GUID));
    let mut digest: [u8; 20] = [0u8; 20];
    sha1(hashed, &mut digest);
    let mut accept: [u8; 28] = [0u8; 28];
    let alen: usize = base64_encode(&digest, &mut accept);
    assert(accept@.take(28) =~= accept@);
    accept
}

/// Answers an upgrade.
pub fn ws_handshake(req: &Request) -> (r: Result<[u8; 28], u16>)
    requires
        req.wf(),
    ensures
        match r {
            Ok(a) => handshake(req.fields()) == Ok::<Seq<u8>, u16>(a@),
            Err(status) => handshake(req.fields()) == Err::<Seq<u8>, u16>(status),
        },
{
    match header(req, "sec-websocket-version") {
        None => {
            return Err(400);
        },
        Some(v) => {
            if !same_str(v, "13") {
                return Err(426);
            }
        },
    }
    if !header_has_token(req, "upgrade", "websocket".as_bytes()) || !header_has_token(
        req,
        "connection",
        "upgrade".as_bytes(),
    ) {
        return Err(400);
    }
    match header(req, "sec-websocket-key") {
        Some(k) => {
            let key = k.as_bytes();
            if key.len() == 0 || key.len() > WS_KEY_MAX {
                Err(400)
            } else {
                Ok(accept_value(key))
            }
        },
        None => Err(400),
    }
}

/// The head that refuses an upgrade.
pub open spec fn reject_head(status: u16) -> Seq<u8> {
    text("HTTP/1.1 ") + decimal(status as nat) + text(" ") + (if status == 426 {
        text("Upgrade Required")
    } else {
        text("Bad Request")
    }) + text("\r\nContent-Type: text/plain\r\nContent-Length: 0\r\n") + (if status == 426 {
        text("Sec-WebSocket-Version: 13\r\n")
    } else {
        Seq::<u8>::empty()
    }) + text("Connection: close\r\n\r\n")
}

/// Appends the head that refuses an upgrade.
pub fn ws_reject(h: &mut Out, status: u16)
    requires
        old(h).wf(),
    ensures
        final(h).wf(),
        final(h).pushed() == old(h).pushed() + reject_head(status),
        final(h).capacity() == old(h).capacity(),
        final(final(h).buf)@ == final(old(h).buf)@,
{
    broadcast use lemma_concat_left;

    h.push_str("HTTP/1.1 ");
    h.push_u64(status as u64);
    h.push_str(" ");
    h.push_str(
        if status == 426 {
            "Upgrade Required"
        } else {
            "Bad Request"
        },
    );
    h.push_str("\r\nContent-Type: text/plain\r\nContent-Length: 0\r\n");
    if status == 426 {
        h.push_str("Sec-WebSocket-Version: 13\r\n");
    } else {
        assert(h.pushed() + Seq::<u8>::empty() =~= h.pushed());
    }
    h.push_str("Connection: close\r\n\r\n");
}

/// The head that grants an upgrade.
pub open spec fn accept_head(date: Seq<u8>, accept: Seq<u8>) -> Seq<u8> {
    text("HTTP/1.1 101 Switching Protocols\r\nDate: ") + date + text(
        "\r\nServer: zahttp/0.1\r\nUpgrade: websocket\r\nConnection: Upgrade\r\nSec-WebSocket-Accept: ",
    ) + accept + text("\r\n\r\n")
}

/// The head that answers an upgrade.
pub open spec fn upgrade_head(fields: Seq<(Seq<u8>, Seq<u8>)>, date: Seq<u8>) -> Seq<u8> {
    match handshake(fields) {
        Ok(accept) => accept_head(date, accept),
        Err(status) => reject_head(status),
    }
}

/// Appends the head that answers an upgrade, with this date. `true` when it is
/// granted.
pub fn ws_serve_at(h: &mut Out, req: &Request, date: &[u8]) -> (r: bool)
    requires
        req.wf(),
        old(h).wf(),
    ensures
        final(h).wf(),
        r == (handshake(req.fields()) is Ok),
        final(h).pushed() == old(h).pushed() + upgrade_head(req.fields(), date@),
        final(h).capacity() == old(h).capacity(),
        final(final(h).buf)@ == final(old(h).buf)@,
{
    broadcast use lemma_concat_left;

    match ws_handshake(req) {
        Err(status) => {
            ws_reject(h, status);
            false
        },
        Ok(accept) => {
            h.push_str("HTTP/1.1 101 Switching Protocols\r\nDate: ");
            h.push(date);
            h.push_str(
                "\r\nServer: zahttp/0.1\r\nUpgrade: websocket\r\nConnection: Upgrade\r\nSec-WebSocket-Accept: ",
            );
            h.push(&accept);
            h.push_str("\r\n\r\n");
            true
        },
    }
}

/// Appends the head that answers an upgrade, with the current date.
pub fn ws_serve(h: &mut Out, req: &Request) -> (r: bool)
    requires
        req.wf(),
        old(h).wf(),
    ensures
        final(h).wf(),
        r == (handshake(req.fields()) is Ok),
        exists|now: Option<u64>|
            final(h).pushed() == old(h).pushed() + upgrade_head(req.fields(), #[trigger] clock_date(now)),
        final(h).capacity() == old(h).capacity(),
        final(final(h).buf)@ == final(old(h).buf)@,
{
    let mut date: [u8; 29] = [0u8; 29];
    date_now(&mut date);
    ws_serve_at(h, req, &date)
}

// ---- frame heads ------------------------------------------------------------

/// What a frame says of itself.
#[derive(PartialEq, Eq, Structural, Clone, Copy)]
pub struct FrameHead {
    /// The last frame of a message.
    pub fin: bool,
    /// Some reserved bit is set.
    pub rsv: bool,
    pub opcode: u8,
    pub masked: bool,
    /// Length of the payload.
    pub len: u64,
}

/// Bytes of length that follow the second byte of a frame.
pub open spec fn length_bytes(b1: u8) -> int {
    if b1 % 128 == 126 {
        2
    } else if b1 % 128 == 127 {
        8
    } else {
        0
    }
}

/// The number that bytes denote, most significant first.
pub open spec fn be_value(s: Seq<u8>) -> nat
    decreases s.len(),
{
    if s.len() == 0 {
        0
    } else {
        be_value(s.drop_last()) * 256 + s.last() as nat
    }
}

/// The length that the head of a frame states.
pub open spec fn stated_len(s: Seq<u8>) -> nat {
    if length_bytes(s[1]) == 0 {
        (s[1] % 128) as nat
    } else {
        be_value(s.skip(2))
    }
}

/// What the head of a frame says, its mask left aside. `None` when the length has
/// its top bit set.
pub open spec fn head_of(s: Seq<u8>) -> Option<FrameHead> {
    if stated_len(s) >= 0x8000_0000_0000_0000 {
        None
    } else {
        Some(
            FrameHead {
                fin: s[0] >= 128,
                rsv: (s[0] / 16) % 8 != 0,
                opcode: s[0] % 16,
                masked: s[1] >= 128,
                len: stated_len(s) as u64,
            },
        )
    }
}

/// How many bytes of length follow the second byte of a frame.
pub fn extra_length(b1: u8) -> (r: usize)
    ensures
        r == length_bytes(b1),
        r == 0 || r == 2 || r == 8,
{
    if b1 % 128 == 126 {
        2
    } else if b1 % 128 == 127 {
        8
    } else {
        0
    }
}

/// Values of up to eight bytes are below a power of 256.
proof fn lemma_be_value_bound(s: Seq<u8>)
    requires
        s.len() <= 8,
    ensures
        s.len() == 0 ==> be_value(s) == 0,
        s.len() <= 1 ==> be_value(s) < 256,
        s.len() <= 2 ==> be_value(s) < 65536,
        s.len() <= 3 ==> be_value(s) < 0x100_0000,
        s.len() <= 4 ==> be_value(s) < 0x1_0000_0000,
        s.len() <= 5 ==> be_value(s) < 0x100_0000_0000,
        s.len() <= 6 ==> be_value(s) < 0x1_0000_0000_0000,
        s.len() <= 7 ==> be_value(s) < 0x100_0000_0000_0000,
        be_value(s) < 0x1_0000_0000_0000_0000,
    decreases s.len(),
{
    if s.len() > 0 {
        lemma_be_value_bound(s.drop_last());
    }
}

/// Reads the head of a frame: its first two bytes and the length behind them.
pub fn frame_head(s: &[u8]) -> (r: Option<FrameHead>)
    requires
        s@.len() >= 2,
        s@.len() == 2 + length_bytes(s@[1]),
    ensures
        r == head_of(s@),
{
    let b0: u8 = s[0];
    let b1: u8 = s[1];
    let mut len: u64 = 0;
    if s.len() == 2 {
        len = (b1 % 128) as u64;
    } else {
        let mut i: usize = 2;
        assert(s@.subrange(2, 2) =~= Seq::<u8>::empty());
        while i < s.len()
            invariant
                2 <= i <= s@.len() <= 10,
                len == be_value(s@.subrange(2, i as int)),
            decreases s@.len() - i,
        {
            proof {
                lemma_be_value_bound(s@.subrange(2, i as int));
                assert(s@.subrange(2, i + 1).drop_last() =~= s@.subrange(2, i as int));
                lemma_be_value_bound(s@.subrange(2, i + 1));
            }
            len = len * 256 + s[i] as u64;
            i += 1;
        }
        assert(s@.subrange(2, i as int) =~= s@.skip(2));
    }
    if len >= 0x8000_0000_0000_0000 {
        None
    } else {
        Some(
            FrameHead { fin: b0 >= 128, rsv: (b0 / 16) % 8 != 0, opcode: b0 % 16, masked: b1 >= 128, len },
        )
    }
}

/// The bytes of a frame up to its payload, for payloads below 64 KiB: the last
/// frame of a message, not masked.
pub open spec fn frame_start(opcode: u8, n: int) -> Seq<u8> {
    if n < 126 {
        seq![(128 + opcode) as u8, n as u8]
    } else {
        seq![(128 + opcode) as u8, 126u8, (n / 256) as u8, (n % 256) as u8]
    }
}

/// Appends the bytes of a frame up to its payload.
pub fn ws_send(h: &mut Out, opcode: u8, n: usize)
    requires
        old(h).wf(),
        opcode < 16,
        n < 65536,
    ensures
        final(h).wf(),
        final(h).pushed() == old(h).pushed() + frame_start(opcode, n as int),
        final(h).capacity() == old(h).capacity(),
        final(final(h).buf)@ == final(old(h).buf)@,
{
    if n < 126 {
        let head: [u8; 2] = [128 + opcode, n as u8];
        assert(head@ =~= frame_start(opcode, n as int));
        h.push(&head);
    } else {
        let head: [u8; 4] = [128 + opcode, 126, (n / 256) as u8, (n % 256) as u8];
        assert(head@ =~= frame_start(opcode, n as int));
        h.push(&head);
    }
}

/// The payload of a close frame: the code, and as much of the reason as fits.
pub open spec fn close_payload(code: u16, reason: Seq<u8>) -> Seq<u8> {
    seq![(code / 256) as u8, (code % 256) as u8] + (if reason.len() <= 123 {
        reason
    } else {
        reason.take(123)
    })
}

/// Appends a close frame.
pub fn ws_close(h: &mut Out, code: u16, reason: &[u8])
    requires
        old(h).wf(),
    ensures
        final(h).wf(),
        final(h).pushed() == old(h).pushed() + (frame_start(8, close_payload(code, reason@).len() as int)
            + close_payload(code, reason@)),
        final(h).capacity() == old(h).capacity(),
        final(final(h).buf)@ == final(old(h).buf)@,
{
    broadcast use lemma_concat_left;

    let rlen: usize = if reason.len() < 123 {
        reason.len()
    } else {
        123
    };
    let shown = slice_subrange(reason, 0, rlen);
    let number: [u8; 2] = [(code / 256) as u8, (code % 256) as u8];
    proof {
        assert(shown@ =~= (if reason@.len() <= 123 {
            reason@
        } else {
            reason@.take(123)
        }));
        assert(number@ =~= seq![(code / 256) as u8, (code % 256) as u8]);
    }
    ws_send(h, 8, 2 + rlen);
    h.push(&number);
    h.push(shown);
}

/// How many of `len` payload bytes are discarded before a connection is closed:
/// all of them, or none when they are too many.
pub open spec fn drained(len: int) -> int {
    if len > DRAIN_MAX {
        0
    } else {
        len
    }
}

/// How many payload bytes to discard before closing.
pub fn ws_drain(len: u64) -> (r: u64)
    ensures
        r == drained(len as int),
{
    if len > DRAIN_MAX {
        0
    } else {
        len
    }
}

// ---- sessions ---------------------------------------------------------------

/// A payload without its mask.
pub open spec fn unmasked(payload: Seq<u8>, mask: Seq<u8>) -> Seq<u8> {
    Seq::new(payload.len(), |i: int| payload[i] ^ mask[i % 4])
}

/// What happens to a frame whose head has come.
#[derive(PartialEq, Eq, Structural, Clone, Copy)]
pub enum Verdict {
    /// It breaks the rules: the connection is closed with this code.
    Refuse(u16),
    /// A control frame: its payload is handled on its own.
    Control,
    /// A piece of a message.
    Data,
}

/// A frame on the wire: its head, its mask and its masked payload.
pub struct Frame {
    pub head: FrameHead,
    pub mask: Seq<u8>,
    pub payload: Seq<u8>,
}

/// What a session sends back.
pub enum Reply {
    Nothing,
    /// A frame with this opcode and payload.
    Send { opcode: u8, payload: Seq<u8> },
    /// The same, and the session is over.
    Last { opcode: u8, payload: Seq<u8> },
    /// The session is closed with this code.
    Refuse(u16),
}

/// A message under way: its opcode, 0 when there is none, and what has come of
/// it.
pub struct Message {
    pub opcode: u8,
    pub bytes: Seq<u8>,
}

/// No message is under way.
pub open spec fn no_message() -> Message {
    Message { opcode: 0, bytes: Seq::<u8>::empty() }
}

/// What happens to a frame while `m` is under way. Clients mask every frame and
/// set no reserved bit. Control frames are short and in one piece. A continuation
/// needs a message to continue, and a new message has to wait for the end of the
/// one before it. Messages are bounded.
pub open spec fn verdict(m: Message, head: FrameHead) -> Verdict {
    if !head.masked || head.rsv {
        Verdict::Refuse(1002)
    } else if head.opcode >= 8 {
        if !head.fin || head.len > 125 {
            Verdict::Refuse(1002)
        } else {
            Verdict::Control
        }
    } else if head.opcode > 2 {
        Verdict::Refuse(1002)
    } else if (head.opcode == 0) == (m.opcode == 0) {
        Verdict::Refuse(1002)
    } else if head.len > WS_MSG_CAP - m.bytes.len() {
        Verdict::Refuse(1009)
    } else {
        Verdict::Data
    }
}

/// What a session does with a frame: the message under way behind it, and the
/// reply.
pub open spec fn respond(m: Message, f: Frame) -> (Message, Reply) {
    let payload = unmasked(f.payload, f.mask);
    match verdict(m, f.head) {
        Verdict::Refuse(code) => (m, Reply::Refuse(code)),
        Verdict::Control => (
            m,
            if f.head.opcode == 8 {
                Reply::Last { opcode: 8, payload }
            } else if f.head.opcode == 9 {
                Reply::Send { opcode: 10, payload }
            } else if f.head.opcode == 10 {
                Reply::Nothing
            } else {
                Reply::Refuse(1002)
            },
        ),
        Verdict::Data => {
            let opcode = if f.head.opcode == 0 {
                m.opcode
            } else {
                f.head.opcode
            };
            if f.head.fin {
                (no_message(), Reply::Send { opcode, payload: m.bytes + payload })
            } else {
                (Message { opcode, bytes: m.bytes + payload }, Reply::Nothing)
            }
        },
    }
}

/// A session: the message under way stands at the front of `msg`.
pub struct Session {
    pub msg: [u8; WS_MSG_CAP],
    pub mlen: usize,
    pub frag_op: u8,
}

/// What is to be done about a control frame.
#[derive(PartialEq, Eq, Structural, Clone, Copy)]
pub enum ControlReply {
    Nothing,
    /// Send the payload back with this opcode.
    Send(u8),
    /// Send the payload back with this opcode and end the session.
    Last(u8),
    /// Close with this code.
    Refuse(u16),
}

impl Session {
    /// The message under way.
    pub open spec fn message(&self) -> Message {
        Message { opcode: self.frag_op, bytes: self.msg@.take(self.mlen as int) }
    }

    pub open spec fn wf(&self) -> bool {
        &&& self.mlen <= WS_MSG_CAP
        &&& self.frag_op <= 2
        &&& self.frag_op == 0 ==> self.mlen == 0
    }

    pub fn new() -> (r: Session)
        ensures
            r.wf(),
            r.message() == no_message(),
    {
        let r = Session { msg: [0u8; WS_MSG_CAP], mlen: 0, frag_op: 0 };
        assert(r.msg@.take(0) =~= Seq::<u8>::empty());
        r
    }

    /// Decides about a frame whose head has come.
    pub fn judge(&self, head: &FrameHead) -> (r: Verdict)
        requires
            self.wf(),
        ensures
            r == verdict(self.message(), *head),
            r == Verdict::Data ==> head.len <= WS_MSG_CAP - self.mlen,
            r == Verdict::Control ==> head.len <= 125,
    {
        if !head.masked || head.rsv {
            Verdict::Refuse(1002)
        } else if head.opcode >= 8 {
            if !head.fin || head.len > 125 {
                Verdict::Refuse(1002)
            } else {
                Verdict::Control
            }
        } else if head.opcode > 2 {
            Verdict::Refuse(1002)
        } else if (head.opcode == 0) == (self.frag_op == 0) {
            Verdict::Refuse(1002)
        } else if head.len > (WS_MSG_CAP - self.mlen) as u64 {
            Verdict::Refuse(1009)
        } else {
            Verdict::Data
        }
    }

    /// Takes a piece of a message, whose masked payload stands in `msg` behind
    /// what has come of the message. When that completes the message, returns its
    /// opcode and length; it then stands at the front of `msg`.
    pub fn take_data(&mut self, head: &FrameHead, mask: &[u8; 4]) -> (r: Option<(u8, usize)>)
        requires
            old(self).wf(),
            verdict(old(self).message(), *head) == Verdict::Data,
        ensures
            final(self).wf(),
            ({
                let f = Frame {
                    head: *head,
                    mask: mask@,
                    payload: old(self).msg@.subrange(old(self).mlen as int, old(self).mlen + head.len),
                };
                let (m, reply) = respond(old(self).message(), f);
                &&& final(self).message() == m
                &&& match r {
                    Some((opcode, n)) => {
                        &&& n <= WS_MSG_CAP
                        &&& 1 <= opcode <= 2
                        &&& reply == (Reply::Send { opcode, payload: final(self).msg@.take(n as int) })
                    },
                    None => reply == Reply::Nothing,
                }
            }),
    {
        let start: usize = self.mlen;
        let len: usize = head.len as usize;
        let ghost m0 = self.msg@;
        let ghost payload = m0.subrange(start as int, start + len);
        let opcode: u8 = if head.opcode == 0 {
            self.frag_op
        } else {
            head.opcode
        };
        let mut i: usize = 0;
        while i < len
            invariant
                i <= len,
                start + len <= WS_MSG_CAP,
                self.mlen == start,
                self.frag_op == old(self).frag_op,
                forall|j: int| 0 <= j < start ==> self.msg@[j] == m0[j],
                forall|j: int| 0 <= j < i ==> #[trigger] self.msg@[start + j] == m0[start + j] ^ mask@[j % 4],
                forall|j: int| start + i <= j < WS_MSG_CAP ==> self.msg@[j] == m0[j],
            decreases len - i,
        {
            let ghost b0 = self.msg@;
            self.msg[start + i] = self.msg[start + i] ^ mask[i % 4];
            proof {
                assert forall|j: int| 0 <= j < i + 1 implies #[trigger] self.msg@[start + j] == m0[start + j] ^ mask@[j
                    % 4] by {
                    if j < i {
                        assert(b0[start + j] == m0[start + j] ^ mask@[j % 4]);
                    }
                }
            }
            i += 1;
        }
        let n: usize = start + len;
        proof {
            let whole = m0.take(start as int) + unmasked(payload, mask@);
            assert forall|k: int| 0 <= k < n implies self.msg@[k] == whole[k] by {
                if k >= start {
                    assert(self.msg@[start + (k - start)] == m0[start + (k - start)] ^ mask@[(k - start) % 4]);
                }
            }
            assert(self.msg@.take(n as int) =~= whole);
        }
        if head.fin {
            self.frag_op = 0;
            self.mlen = 0;
            assert(self.msg@.take(0) =~= Seq::<u8>::empty());
            Some((opcode, n))
        } else {
            self.frag_op = opcode;
            self.mlen = n;
            None
        }
    }
}

/// Takes a control frame: removes the mask from its payload, and says what is to
/// be done.
pub fn take_control(head: &FrameHead, mask: &[u8; 4], payload: &mut [u8]) -> (r: ControlReply)
    requires
        head.opcode >= 8,
    ensures
        final(payload)@ == unmasked(old(payload)@, mask@),
        r matches ControlReply::Send(opcode) ==> opcode < 16,
        r matches ControlReply::Last(opcode) ==> opcode < 16,
        forall|m: Message|
            #![trigger verdict(m, *head)]
            verdict(m, *head) == Verdict::Control ==> respond(
                m,
                (Frame { head: *head, mask: mask@, payload: old(payload)@ }),
            ) == (
                m,
                match r {
                    ControlReply::Nothing => Reply::Nothing,
                    ControlReply::Send(opcode) => Reply::Send { opcode, payload: final(payload)@ },
                    ControlReply::Last(opcode) => Reply::Last { opcode, payload: final(payload)@ },
                    ControlReply::Refuse(code) => Reply::Refuse(code),
                },
            ),
{
    let ghost p0 = payload@;
    let mut i: usize = 0;
    while i < payload.len()
        invariant
            i <= payload@.len(),
            payload@.len() == p0.len(),
            forall|j: int| 0 <= j < i ==> #[trigger] payload@[j] == p0[j] ^ mask@[j % 4],
            forall|j: int| i <= j < p0.len() ==> payload@[j] == p0[j],
        decreases payload@.len() - i,
    {
        payload[i] = payload[i] ^ mask[i % 4];
        i += 1;
    }
    assert(payload@ =~= unmasked(p0, mask@));
    match head.opcode {
        8 => ControlReply::Last(8),
        9 => ControlReply::Send(10),
        10 => ControlReply::Nothing,
        _ => ControlReply::Refuse(1002),
    }
}

// ---- sessions on the wire ---------------------------------------------------

/// What the bytes of a frame come to, while a message may be under way.
pub enum FrameRead {
    /// More bytes are needed.
    Partial,
    /// The session is closed with this code, after that many further bytes have
    /// been discarded.
    Refuse { code: u16, drain: int },
    Whole(Frame),
}

/// What the bytes of a frame come to. A frame without a mask is refused before a
/// mask is read, and one that breaks the rules before its payload is.
pub open spec fn frame_read(m: Message, s: Seq<u8>) -> FrameRead {
    if s.len() < 2 || s.len() < 2 + length_bytes(s[1]) {
        FrameRead::Partial
    } else {
        let h = 2 + length_bytes(s[1]);
        match head_of(s.take(h)) {
            None => FrameRead::Refuse { code: 1009, drain: 0 },
            Some(head) => if !head.masked {
                FrameRead::Refuse { code: 1002, drain: drained(head.len as int) }
            } else if s.len() < h + 4 {
                FrameRead::Partial
            } else {
                match verdict(m, head) {
                    Verdict::Refuse(code) => FrameRead::Refuse { code, drain: drained(head.len as int) },
                    _ => if s.len() < h + 4 + head.len {
                        FrameRead::Partial
                    } else {
                        FrameRead::Whole(
                            Frame {
                                head,
                                mask: s.subrange(h, h + 4),
                                payload: s.subrange(h + 4, h + 4 + head.len),
                            },
                        )
                    },
                }
            },
        }
    }
}

/// Which piece of a frame comes next.
#[derive(PartialEq, Eq, Structural, Clone, Copy)]
pub enum Stage {
    Head,
    Length,
    Mask,
    Payload,
}

/// A session and the frame under way.
pub struct WsConnection {
    pub session: Session,
    pub stage: Stage,
    /// The bytes of the frame up to its payload, as far as they have come.
    pub hdr: [u8; 14],
    pub hlen: usize,
    pub head: FrameHead,
    /// The payload of a control frame.
    pub control: [u8; 125],
}

/// What is to be done next.
pub enum Step {
    /// Read on.
    More,
    /// A frame is done with, and nothing is sent.
    Quiet,
    /// Send the first bytes of the session's message with this opcode.
    Echo(u8, usize),
    /// Send the first bytes of `control` with this opcode.
    Control(u8, usize),
    /// The same, then end the session.
    Last(u8, usize),
    /// Discard that many bytes, then close with this code.
    Refuse(u16, u64),
}

impl WsConnection {
    /// The bytes of the frame under way.
    pub open spec fn got(&self) -> Seq<u8> {
        self.hdr@.take(self.hlen as int)
    }

    pub open spec fn wf(&self) -> bool {
        &&& self.session.wf()
        &&& self.hlen <= 14
        &&& match self.stage {
            Stage::Head => self.hlen == 0,
            Stage::Length => self.hlen == 2 && length_bytes(self.hdr@[1]) > 0,
            Stage::Mask => {
                &&& self.hlen == 2 + length_bytes(self.hdr@[1])
                &&& head_of(self.got()) == Some(self.head)
                &&& self.head.masked
            },
            Stage::Payload => {
                &&& self.hlen == 6 + length_bytes(self.hdr@[1])
                &&& head_of(self.hdr@.take(self.hlen - 4)) == Some(self.head)
                &&& self.head.masked
                &&& verdict(self.session.message(), self.head) !is Refuse
                &&& self.head.len > 0
            },
        }
    }

    /// How many bytes have to come next.
    pub open spec fn need(&self) -> int {
        match self.stage {
            Stage::Head => 2,
            Stage::Length => length_bytes(self.hdr@[1]),
            Stage::Mask => 4,
            Stage::Payload => self.head.len as int,
        }
    }

    pub fn new() -> (r: WsConnection)
        ensures
            r.wf(),
            r.got() == Seq::<u8>::empty(),
            r.session.message() == no_message(),
    {
        let r = WsConnection {
            session: Session::new(),
            stage: Stage::Head,
            hdr: [0u8; 14],
            hlen: 0,
            head: FrameHead { fin: false, rsv: false, opcode: 0, masked: false, len: 0 },
            control: [0u8; 125],
        };
        assert(r.got() =~= Seq::<u8>::empty());
        r
    }

    /// How many bytes to read next; never none, and never more than a message can
    /// have.
    pub fn wants(&self) -> (r: usize)
        requires
            self.wf(),
        ensures
            r == self.need(),
            0 < r <= WS_MSG_CAP,
    {
        match self.stage {
            Stage::Head => 2,
            Stage::Length => extra_length(self.hdr[1]),
            Stage::Mask => 4,
            Stage::Payload => self.head.len as usize,
        }
    }

    /// Handles a frame whose payload has come.
    fn finish(&mut self, payload: &[u8]) -> (r: Step)
        requires
            old(self).session.wf(),
            6 <= old(self).hlen <= 14,
            old(self).head.masked,
            payload@.len() == old(self).head.len,
            verdict(old(self).session.message(), old(self).head) !is Refuse,
        ensures
            final(self).wf(),
            final(self).got() == Seq::<u8>::empty(),
            handled(
                *final(self),
                old(self).session.message(),
                (Frame {
                    head: old(self).head,
                    mask: old(self).hdr@.subrange(old(self).hlen - 4, old(self).hlen as int),
                    payload: payload@,
                }),
                r,
            ),
    {
        let at: usize = self.hlen - 4;
        let mask: [u8; 4] = [self.hdr[at], self.hdr[at + 1], self.hdr[at + 2], self.hdr[at + 3]];
        let head: FrameHead = self.head;
        let n: usize = payload.len();
        let ghost m = self.session.message();
        assert(mask@ =~= self.hdr@.subrange(self.hlen - 4, self.hlen as int));
        self.stage = Stage::Head;
        self.hlen = 0;
        assert(self.got() =~= Seq::<u8>::empty());
        if head.opcode >= 8 {
            copy_bytes(&mut self.control, 0, payload);
            let (shown, _) = self.control.split_at_mut(n);
            assert(shown@ =~= payload@);
            assert(verdict(m, head) == Verdict::Control);
            let reply = take_control(&head, &mask, shown);
            assert(self.control@.take(n as int) =~= unmasked(payload@, mask@));
            match reply {
                ControlReply::Nothing => Step::Quiet,
                ControlReply::Send(opcode) => Step::Control(opcode, n),
                ControlReply::Last(opcode) => Step::Last(opcode, n),
                ControlReply::Refuse(code) => Step::Refuse(code, 0),
            }
        } else {
            let start: usize = self.session.mlen;
            copy_bytes(&mut self.session.msg, start, payload);
            proof {
                assert(self.session.message().bytes =~= m.bytes);
                assert(self.session.msg@.subrange(start as int, start + n) =~= payload@);
            }
            match self.session.take_data(&head, &mask) {
                Some((opcode, k)) => Step::Echo(opcode, k),
                None => Step::Quiet,
            }
        }
    }

    /// Takes the next bytes of a frame, exactly as many as are wanted, and says
    /// what is to be done.
    pub fn feed(&mut self, bytes: &[u8]) -> (r: Step)
        requires
            old(self).wf(),
            bytes@.len() == old(self).need(),
        ensures
            ({
                let s = old(self).got() + bytes@;
                match frame_read(old(self).session.message(), s) {
                    FrameRead::Partial => {
                        &&& r is More
                        &&& final(self).wf()
                        &&& final(self).got() == s
                        &&& final(self).session == old(self).session
                    },
                    FrameRead::Refuse { code, drain } => {
                        &&& r matches Step::Refuse(c, d) && c == code && d == drain
                    },
                    FrameRead::Whole(f) => {
                        &&& final(self).wf()
                        &&& final(self).got() == Seq::<u8>::empty()
                        &&& handled(*final(self), old(self).session.message(), f, r)
                    },
                }
            }),
    {
        let ghost s = self.got() + bytes@;
        match self.stage {
            Stage::Head => {
                self.hdr[0] = bytes[0];
                self.hdr[1] = bytes[1];
                self.hlen = 2;
                assert(self.got() =~= s);
                if extra_length(bytes[1]) > 0 {
                    self.stage = Stage::Length;
                    Step::More
                } else {
                    self.length_done()
                }
            },
            Stage::Length => {
                copy_bytes(&mut self.hdr, 2, bytes);
                self.hlen = 2 + bytes.len();
                assert(self.got() =~= s);
                self.length_done()
            },
            Stage::Mask => {
                let h: usize = self.hlen;
                copy_bytes(&mut self.hdr, h, bytes);
                self.hlen = h + 4;
                proof {
                    assert(self.got() =~= s);
                    assert(s.take(h as int) =~= old(self).got());
                    assert(self.hdr@.take(h as int) =~= old(self).got());
                    assert(s.subrange(h as int, h + 4) =~= self.hdr@.subrange(h as int, h + 4));
                }
                match self.session.judge(&self.head) {
                    Verdict::Refuse(code) => Step::Refuse(code, ws_drain(self.head.len)),
                    _ => {
                        if self.head.len == 0 {
                            let none = slice_subrange(bytes, 0, 0);
                            assert(none@ =~= s.subrange(h + 4, h + 4));
                            self.finish(none)
                        } else {
                            self.stage = Stage::Payload;
                            Step::More
                        }
                    },
                }
            },
            Stage::Payload => {
                proof {
                    let h = self.hlen - 4;
                    assert(s.take(h) =~= self.hdr@.take(h));
                    assert(s.subrange(h, h + 4) =~= self.hdr@.subrange(h, h + 4));
                    assert(s.subrange(h + 4, h + 4 + bytes@.len()) =~= bytes@);
                }
                self.finish(bytes)
            },
        }
    }

    /// Reads the head of a frame once its length has come.
    fn length_done(&mut self) -> (r: Step)
        requires
            old(self).session.wf(),
            2 <= old(self).hlen <= 10,
            old(self).hlen == 2 + length_bytes(old(self).hdr@[1]),
        ensures
            final(self).session == old(self).session,
            match frame_read(old(self).session.message(), old(self).got()) {
                FrameRead::Partial => {
                    &&& r is More
                    &&& final(self).wf()
                    &&& final(self).got() == old(self).got()
                },
                FrameRead::Refuse { code, drain } => {
                    &&& r matches Step::Refuse(c, d) && c == code && d == drain
                },
                FrameRead::Whole(_) => false,
            },
    {
        let ghost s = self.got();
        let bytes = slice_subrange(&self.hdr, 0, self.hlen);
        assert(bytes@ =~= s);
        assert(s.take(self.hlen as int) =~= s);
        match frame_head(bytes) {
            None => Step::Refuse(1009, 0),
            Some(head) => {
                if head.masked {
                    self.head = head;
                    self.stage = Stage::Mask;
                    Step::More
                } else {
                    Step::Refuse(1002, ws_drain(head.len))
                }
            },
        }
    }
}

/// What was done about a frame is what a session does with it.
pub open spec fn handled(c: WsConnection, m: Message, f: Frame, step: Step) -> bool {
    let (next, reply) = respond(m, f);
    &&& c.session.message() == next
    &&& match step {
        Step::More => false,
        Step::Quiet => reply == Reply::Nothing,
        Step::Echo(opcode, n) => n <= WS_MSG_CAP && opcode < 16 && verdict(m, f.head) is Data && reply == (Reply::Send {
            opcode,
            payload: c.session.msg@.take(n as int),
        }),
        Step::Control(opcode, n) => n <= 125 && opcode < 16 && verdict(m, f.head) is Control && reply == (Reply::Send {
            opcode,
            payload: c.control@.take(n as int),
        }),
        Step::Last(opcode, n) => n <= 125 && opcode < 16 && reply == (Reply::Last {
            opcode,
            payload: c.control@.take(n as int),
        }),
        Step::Refuse(code, drain) => drain == 0 && reply == Reply::Refuse(code),
    }
}

/// Why a session is closed.
pub open spec fn close_reason(code: u16) -> Seq<u8> {
    if code == 1009 {
        text("too big")
    } else {
        text("protocol")
    }
}

/// Appends the close frame for a session that is refused.
pub fn ws_refuse(h: &mut Out, code: u16)
    requires
        old(h).wf(),
    ensures
        final(h).wf(),
        final(h).pushed() == old(h).pushed() + (frame_start(8, close_payload(code, close_reason(code)).len() as int)
            + close_payload(code, close_reason(code))),
        final(h).capacity() == old(h).capacity(),
        final(final(h).buf)@ == final(old(h).buf)@,
{
    let reason = if code == 1009 {
        "too big"
    } else {
        "protocol"
    };
    ws_close(h, code, reason.as_bytes());
}

// ---- laws -------------------------------------------------------------------

proof fn lemma_xor_twice(a: u8, b: u8)
    ensures
        (a ^ b) ^ b == a,
{
    assert((a ^ b) ^ b == a) by (bit_vector);
}

/// Masking twice with one mask gives the payload back.
pub proof fn law_unmask_twice(payload: Seq<u8>, mask: Seq<u8>)
    ensures
        unmasked(unmasked(payload, mask), mask) == payload,
{
    assert forall|i: int| 0 <= i < payload.len() implies (payload[i] ^ mask[i % 4]) ^ mask[i % 4] == payload[i] by {
        lemma_xor_twice(payload[i], mask[i % 4]);
    }
    assert(unmasked(unmasked(payload, mask), mask) =~= payload);
}

/// `n` in `k` bytes, most significant first.
pub open spec fn be_bytes(n: nat, k: nat) -> Seq<u8>
    decreases k,
{
    if k == 0 {
        Seq::<u8>::empty()
    } else {
        be_bytes(n / 256, (k - 1) as nat).push((n % 256) as u8)
    }
}

/// The head of a masked frame, its length in the shortest form.
pub open spec fn client_head(fin: bool, opcode: u8, n: nat) -> Seq<u8> {
    let b0 = if fin {
        (128 + opcode) as u8
    } else {
        opcode
    };
    if n < 126 {
        seq![b0, (128 + n) as u8]
    } else if n < 65536 {
        seq![b0, 254u8] + be_bytes(n, 2)
    } else {
        seq![b0, 255u8] + be_bytes(n, 8)
    }
}

/// Powers of 256.
pub open spec fn pow256(k: nat) -> nat
    decreases k,
{
    if k == 0 {
        1
    } else {
        256 * pow256((k - 1) as nat)
    }
}

proof fn lemma_be_reads_back(n: nat, k: nat)
    requires
        n < pow256(k),
    ensures
        be_bytes(n, k).len() == k,
        be_value(be_bytes(n, k)) == n,
    decreases k,
{
    if k > 0 {
        lemma_be_reads_back(n / 256, (k - 1) as nat);
        assert(be_bytes(n, k).drop_last() =~= be_bytes(n / 256, (k - 1) as nat));
    }
}

/// The head of a client's frame is read back for every length, in all three
/// forms.
pub proof fn law_client_head_reads_back(fin: bool, opcode: u8, n: nat)
    requires
        opcode < 16,
        n < 0x8000_0000_0000_0000,
    ensures
        client_head(fin, opcode, n).len() == 2 + length_bytes(client_head(fin, opcode, n)[1]),
        head_of(client_head(fin, opcode, n)) == Some(
            FrameHead { fin, rsv: false, opcode, masked: true, len: n as u64 },
        ),
{
    let s = client_head(fin, opcode, n);
    reveal_with_fuel(pow256, 9);
    if n >= 65536 {
        lemma_be_reads_back(n, 8);
        assert(s.skip(2) =~= be_bytes(n, 8));
    } else if n >= 126 {
        lemma_be_reads_back(n, 2);
        assert(s.skip(2) =~= be_bytes(n, 2));
    }
}

/// The head of a frame that the server sends is read back.
pub proof fn law_server_head_reads_back(opcode: u8, n: nat)
    requires
        opcode < 16,
        n < 65536,
    ensures
        frame_start(opcode, n as int).len() == 2 + length_bytes(frame_start(opcode, n as int)[1]),
        head_of(frame_start(opcode, n as int)) == Some(
            FrameHead { fin: true, rsv: false, opcode, masked: false, len: n as u64 },
        ),
{
    let s = frame_start(opcode, n as int);
    if n >= 126 {
        let t = s.skip(2);
        assert(t =~= seq![(n as int / 256) as u8, (n as int % 256) as u8]);
        assert(t.drop_last() =~= seq![(n as int / 256) as u8]);
        assert(t.drop_last().drop_last() =~= Seq::<u8>::empty());
        reveal_with_fuel(be_value, 3);
    }
}

/// A frame as a client that keeps the rules sends it.
pub open spec fn client_frame(fin: bool, opcode: u8, mask: Seq<u8>, data: Seq<u8>) -> Frame {
    Frame {
        head: FrameHead { fin, rsv: false, opcode, masked: true, len: data.len() as u64 },
        mask,
        payload: unmasked(data, mask),
    }
}

/// A message in one frame is echoed, with its kind.
pub proof fn law_echo(opcode: u8, mask: Seq<u8>, data: Seq<u8>)
    requires
        opcode == 1 || opcode == 2,
        data.len() <= WS_MSG_CAP,
    ensures
        respond(no_message(), client_frame(true, opcode, mask, data)) == (
            no_message(),
            Reply::Send { opcode, payload: data },
        ),
{
    law_unmask_twice(data, mask);
    assert(Seq::<u8>::empty() + data =~= data);
}

/// A control frame leaves the message under way alone. A ping is answered by a
/// pong with its payload, a close by a close with its payload, which ends the
/// session.
pub proof fn law_control_frames(m: Message, opcode: u8, mask: Seq<u8>, data: Seq<u8>)
    requires
        8 <= opcode <= 10,
        data.len() <= 125,
    ensures
        respond(m, client_frame(true, opcode, mask, data)).0 == m,
        opcode == 8 ==> respond(m, client_frame(true, opcode, mask, data)).1 == (Reply::Last { opcode: 8, payload: data }),
        opcode == 9 ==> respond(m, client_frame(true, opcode, mask, data)).1 == (Reply::Send {
            opcode: 10,
            payload: data,
        }),
        opcode == 10 ==> respond(m, client_frame(true, opcode, mask, data)).1 == Reply::Nothing,
{
    law_unmask_twice(data, mask);
}

/// What breaks the rules closes the session with 1002: a frame without a mask, a
/// reserved bit, an unknown opcode, a control frame that is long or in pieces, a
/// continuation of nothing, and a new message inside another. A message over the
/// bound closes it with 1009.
pub proof fn law_violations(m: Message, f: Frame)
    ensures
        !f.head.masked ==> respond(m, f).1 == Reply::Refuse(1002),
        f.head.rsv ==> respond(m, f).1 == Reply::Refuse(1002),
        3 <= f.head.opcode < 8 || 10 < f.head.opcode ==> respond(m, f).1 == Reply::Refuse(1002),
        f.head.opcode >= 8 && (!f.head.fin || f.head.len > 125) ==> respond(m, f).1 == Reply::Refuse(1002),
        f.head.opcode == 0 && m.opcode == 0 ==> respond(m, f).1 == Reply::Refuse(1002),
        1 <= f.head.opcode <= 2 && m.opcode != 0 ==> respond(m, f).1 == Reply::Refuse(1002),
        f.head.masked && !f.head.rsv && f.head.opcode <= 2 && (f.head.opcode == 0) == (m.opcode != 0) && f.head.len
            + m.bytes.len() > WS_MSG_CAP ==> respond(m, f).1 == Reply::Refuse(1009),
{
}

/// The replies to frames, up to one that ends the session.
pub open spec fn run(m: Message, frames: Seq<Frame>) -> (Message, Seq<Reply>)
    decreases frames.len(),
{
    if frames.len() == 0 {
        (m, Seq::<Reply>::empty())
    } else {
        let (m1, reply) = respond(m, frames[0]);
        if reply is Refuse || reply is Last {
            (m1, seq![reply])
        } else {
            let (m2, replies) = run(m1, frames.drop_first());
            (m2, seq![reply] + replies)
        }
    }
}

/// A message in pieces: the first frame carries the opcode, the others continue
/// it, the last one ends it.
pub open spec fn in_pieces(opcode: u8, masks: Seq<Seq<u8>>, pieces: Seq<Seq<u8>>) -> Seq<Frame> {
    Seq::new(
        pieces.len(),
        |i: int|
            client_frame(
                i == pieces.len() - 1,
                if i == 0 {
                    opcode
                } else {
                    0
                },
                masks[i],
                pieces[i],
            ),
    )
}

/// Silence for all pieces but the last, then the whole message.
pub open spec fn echo_at_end(n: nat, opcode: u8, payload: Seq<u8>) -> Seq<Reply> {
    Seq::new(
        n,
        |i: int|
            if i == n - 1 {
                Reply::Send { opcode, payload }
            } else {
                Reply::Nothing
            },
    )
}

proof fn lemma_pieces_joined(m: Message, kind: u8, opcode: u8, masks: Seq<Seq<u8>>, pieces: Seq<Seq<u8>>)
    requires
        pieces.len() > 0,
        masks.len() == pieces.len(),
        m.bytes.len() + joined(pieces).len() <= WS_MSG_CAP,
        opcode == 1 || opcode == 2,
        kind == opcode && m == no_message() || kind == 0 && m.opcode == opcode,
    ensures
        run(m, in_pieces(kind, masks, pieces)) == (
            no_message(),
            echo_at_end(pieces.len(), opcode, m.bytes + joined(pieces)),
        ),
    decreases pieces.len(),
{
    let frames = in_pieces(kind, masks, pieces);
    let more = pieces.drop_first();
    let rest = masks.drop_first();
    law_unmask_twice(pieces[0], masks[0]);
    assert(joined(pieces).len() == pieces[0].len() + joined(more).len());
    let (m1, reply) = respond(m, frames[0]);
    if pieces.len() == 1 {
        assert(joined(pieces) =~= pieces[0]);
        assert(frames.drop_first() =~= Seq::<Frame>::empty());
        assert(run(m1, frames.drop_first()).1 =~= Seq::<Reply>::empty());
        assert(seq![reply] + Seq::<Reply>::empty() =~= echo_at_end(1, opcode, m.bytes + joined(pieces)));
    } else {
        assert(frames.drop_first() =~= in_pieces(0, rest, more));
        lemma_pieces_joined(m1, 0, opcode, rest, more);
        assert(m1.bytes + joined(more) =~= m.bytes + joined(pieces));
        assert(seq![reply] + echo_at_end(more.len(), opcode, m1.bytes + joined(more)) =~= echo_at_end(
            pieces.len(),
            opcode,
            m.bytes + joined(pieces),
        ));
    }
}

/// A message in pieces is put together and echoed once, behind its last piece.
pub proof fn law_reassembly(opcode: u8, masks: Seq<Seq<u8>>, pieces: Seq<Seq<u8>>)
    requires
        pieces.len() > 0,
        masks.len() == pieces.len(),
        joined(pieces).len() <= WS_MSG_CAP,
        opcode == 1 || opcode == 2,
    ensures
        run(no_message(), in_pieces(opcode, masks, pieces)) == (
            no_message(),
            echo_at_end(pieces.len(), opcode, joined(pieces)),
        ),
{
    lemma_pieces_joined(no_message(), opcode, opcode, masks, pieces);
    assert(Seq::<u8>::empty() + joined(pieces) =~= joined(pieces));
}

/// Data as a client masks it: each byte with the next of the four bytes of the
/// mask, which come round again and again.
pub open spec fn masked(data: Seq<u8>, mask: Seq<u8>) -> Seq<u8>
    decreases data.len(),
{
    if data.len() == 0 {
        Seq::<u8>::empty()
    } else {
        seq![data[0] ^ mask[0]] + masked(data.drop_first(), mask.drop_first().push(mask[0]))
    }
}

proof fn lemma_masked(data: Seq<u8>, mask: Seq<u8>)
    requires
        mask.len() == 4,
    ensures
        masked(data, mask) == unmasked(data, mask),
    decreases data.len(),
{
    if data.len() > 0 {
        let more = data.drop_first();
        let turned = mask.drop_first().push(mask[0]);
        lemma_masked(more, turned);
        assert forall|i: int| 0 <= i < data.len() implies masked(data, mask)[i] == unmasked(data, mask)[i] by {
            if i > 0 {
                assert(masked(data, mask)[i] == unmasked(more, turned)[i - 1]);
                assert(more[i - 1] == data[i]);
                assert(turned[(i - 1) % 4] == mask[i % 4]);
            }
        }
    }
    assert(masked(data, mask) =~= unmasked(data, mask));
}

/// What a client has masked comes out as it was, every byte of it.
pub proof fn law_masked_data(data: Seq<u8>, mask: Seq<u8>)
    requires
        mask.len() == 4,
    ensures
        unmasked(masked(data, mask), mask) == data,
{
    lemma_masked(data, mask);
    law_unmask_twice(data, mask);
}

/// A frame on the wire, as a client sends it.
pub open spec fn frame_wire(fin: bool, opcode: u8, mask: Seq<u8>, data: Seq<u8>) -> Seq<u8> {
    client_head(fin, opcode, data.len()) + mask + masked(data, mask)
}

/// A frame has come whole, and this is the reply to it when no message is under way.
pub open spec fn answered(read: FrameRead, reply: Reply) -> bool {
    match read {
        FrameRead::Whole(f) => respond(no_message(), f) == (no_message(), reply),
        _ => false,
    }
}

/// Frames are read off the wire as they were sent, and what follows them does not
/// matter: a message of up to 4096 bytes, in text or binary, comes back as it is; a
/// longer one closes the session with 1009; a ping of up to 125 bytes comes back as
/// a pong; a close ends the session.
pub proof fn law_frames_on_the_wire(opcode: u8, mask: Seq<u8>, data: Seq<u8>, t: Seq<u8>)
    requires
        mask.len() == 4,
        data.len() < 0x8000_0000_0000_0000,
    ensures
        ({
            let read = frame_read(no_message(), frame_wire(true, opcode, mask, data) + t);
            &&& (opcode == 1 || opcode == 2) && data.len() <= 4096 ==> answered(
                read,
                Reply::Send { opcode, payload: data },
            )
            &&& (opcode == 1 || opcode == 2) && data.len() > 4096 ==> read == (FrameRead::Refuse {
                code: 1009,
                drain: if data.len() <= 65536 {
                    data.len() as int
                } else {
                    0
                },
            })
            &&& opcode == 9 && data.len() <= 125 ==> answered(read, Reply::Send { opcode: 10, payload: data })
            &&& opcode == 8 && data.len() <= 125 ==> answered(read, Reply::Last { opcode: 8, payload: data })
        }),
{
    if opcode < 16 {
        let start = client_head(true, opcode, data.len());
        let h = start.len() as int;
        let s = frame_wire(true, opcode, mask, data) + t;
        law_client_head_reads_back(true, opcode, data.len());
        lemma_masked(data, mask);
        law_masked_data(data, mask);
        assert(s[1] == start[1]);
        assert(s.take(h) =~= start);
        assert(s.subrange(h, h + 4) =~= mask);
        assert(s.subrange(h + 4, h + 4 + data.len()) =~= masked(data, mask));
        assert(Seq::<u8>::empty() + data =~= data);
    }
}

/// A frame is waited for until the last of its bytes has come.
pub proof fn law_frames_come_in_pieces(opcode: u8, mask: Seq<u8>, data: Seq<u8>, n: int)
    requires
        mask.len() == 4,
        opcode == 1 || opcode == 2,
        data.len() <= 4096,
        0 <= n < frame_wire(true, opcode, mask, data).len(),
    ensures
        frame_read(no_message(), frame_wire(true, opcode, mask, data).take(n)) is Partial,
{
    let start = client_head(true, opcode, data.len());
    let h = start.len() as int;
    let w = frame_wire(true, opcode, mask, data);
    let s = w.take(n);
    law_client_head_reads_back(true, opcode, data.len());
    lemma_masked(data, mask);
    if n >= 2 {
        assert(s[1] == start[1]);
        if n >= h {
            assert(s.take(h) =~= start);
        }
    }
}

/// A handshake succeeds exactly when the client asks for version 13, lists
/// `websocket` among the upgrades and `upgrade` among the connection options, in any
/// case of letters, and sends a key of at most 64 bytes. Another version is told
/// 426, anything else 400.
pub proof fn law_handshake(fields: Seq<(Seq<u8>, Seq<u8>)>)
    ensures
        ({
            let asks = some_field_asks(fields, text("upgrade"), text("websocket")) && some_field_asks(
                fields,
                text("connection"),
                text("upgrade"),
            );
            match field_value(fields, text("sec-websocket-version")) {
                None => handshake(fields) == Err::<Seq<u8>, u16>(400),
                Some(v) => if v != seq![0x31u8, 0x33u8] {
                    handshake(fields) == Err::<Seq<u8>, u16>(426)
                } else {
                    match field_value(fields, text("sec-websocket-key")) {
                        Some(key) => handshake(fields) == (if asks && 1 <= key.len() <= 64 {
                            Ok::<Seq<u8>, u16>(
                                base64(sha1_of(key + text("258EAFA5-E914-47DA-95CA-C5AB0DC85B11"))),
                            )
                        } else {
                            Err::<Seq<u8>, u16>(400)
                        }),
                        None => handshake(fields) == Err::<Seq<u8>, u16>(400),
                    }
                },
            }
        }),
{
    reveal_strlit("13");
    is_ascii_spec_bytes("13");
    assert(text("13") =~= seq![0x31u8, 0x33u8]);
    lemma_some_field_asks(fields, text("upgrade"), text("websocket"));
    lemma_some_field_asks(fields, text("connection"), text("upgrade"));
}

/// Some field with that name lists the token.
pub open spec fn some_field_asks(fields: Seq<(Seq<u8>, Seq<u8>)>, name: Seq<u8>, token: Seq<u8>) -> bool {
    exists|i: int|
        0 <= i < fields.len() && same_ignoring_case((#[trigger] fields[i]).0, name) && list_has(
            trimmed(fields[i].1),
            token,
        )
}

proof fn lemma_some_field_asks(fields: Seq<(Seq<u8>, Seq<u8>)>, name: Seq<u8>, token: Seq<u8>)
    ensures
        has_token(fields, name, token) == some_field_asks(fields, name, token),
    decreases fields.len(),
{
    if fields.len() > 0 {
        let more = fields.drop_first();
        lemma_some_field_asks(more, name, token);
        if some_field_asks(more, name, token) {
            let i = choose|i: int|
                0 <= i < more.len() && same_ignoring_case((#[trigger] more[i]).0, name) && list_has(
                    trimmed(more[i].1),
                    token,
                );
            assert(fields[i + 1] == more[i]);
        }
        if some_field_asks(fields, name, token) {
            let i = choose|i: int|
                0 <= i < fields.len() && same_ignoring_case((#[trigger] fields[i]).0, name) && list_has(
                    trimmed(fields[i].1),
                    token,
                );
            if i > 0 {
                assert(more[i - 1] == fields[i]);
            }
        }
    }
}

/// A close frame tells its code in two bytes, then the reason, as much of it as a
/// control frame holds.
pub proof fn law_close_tells_why(code: u16, reason: Seq<u8>)
    ensures
        ({
            let p = close_payload(code, reason);
            &&& 2 <= p.len() <= 125
            &&& p[0] * 256 + p[1] == code
            &&& reason.len() <= 123 ==> p.skip(2) == reason
            &&& reason.len() > 123 ==> p.len() == 125 && p.skip(2) == reason.take(123)
        }),
{
    let p = close_payload(code, reason);
    if reason.len() <= 123 {
        assert(p.skip(2) =~= reason);
    } else {
        assert(p.skip(2) =~= reason.take(123));
    }
}

/// A status line that is written at once.
proof fn lemma_switching_line()
    ensures
        text("HTTP/1.1 101 Switching Protocols\r\nDate: ") == text("HTTP/1.1 ") + decimal(101) + seq![SP] + text(
            "Switching Protocols",
        ) + crlf() + text("Date") + seq![COLON, SP],
{
    reveal_strlit("HTTP/1.1 101 Switching Protocols\r\nDate: ");
    reveal_strlit("HTTP/1.1 ");
    reveal_strlit("Switching Protocols");
    reveal_strlit("Date");
    is_ascii_spec_bytes("HTTP/1.1 101 Switching Protocols\r\nDate: ");
    is_ascii_spec_bytes("HTTP/1.1 ");
    is_ascii_spec_bytes("Switching Protocols");
    is_ascii_spec_bytes("Date");
    reveal_with_fuel(decimal, 4);
    assert(decimal(101) =~= seq![0x31u8, 0x30, 0x31]);
    assert(text("HTTP/1.1 101 Switching Protocols\r\nDate: ") =~= text("HTTP/1.1 ") + decimal(101) + seq![SP]
        + text(
        "Switching Protocols",
    ) + crlf() + text("Date") + seq![COLON, SP]);
}

/// A piece of a head, taken apart.
proof fn lemma_accept_fields()
    ensures
        text("\r\nServer: zahttp/0.1\r\nUpgrade: websocket\r\nConnection: Upgrade\r\nSec-WebSocket-Accept: ") == crlf()
            + text("Server") + seq![COLON, SP] + text("zahttp/0.1") + crlf() + text("Upgrade") + seq![COLON, SP]
            + text("websocket") + crlf() + text("Connection") + seq![COLON, SP] + text("Upgrade") + crlf()
            + text("Sec-WebSocket-Accept") + seq![COLON, SP],
{
    reveal_strlit("\r\nServer: zahttp/0.1\r\nUpgrade: websocket\r\nConnection: Upgrade\r\nSec-WebSocket-Accept: ");
    reveal_strlit("Connection");
    reveal_strlit("Sec-WebSocket-Accept");
    reveal_strlit("Server");
    reveal_strlit("Upgrade");
    reveal_strlit("websocket");
    reveal_strlit("zahttp/0.1");
    is_ascii_spec_bytes("\r\nServer: zahttp/0.1\r\nUpgrade: websocket\r\nConnection: Upgrade\r\nSec-WebSocket-Accept: ");
    is_ascii_spec_bytes("Connection");
    is_ascii_spec_bytes("Sec-WebSocket-Accept");
    is_ascii_spec_bytes("Server");
    is_ascii_spec_bytes("Upgrade");
    is_ascii_spec_bytes("websocket");
    is_ascii_spec_bytes("zahttp/0.1");
    assert(text("\r\nServer: zahttp/0.1\r\nUpgrade: websocket\r\nConnection: Upgrade\r\nSec-WebSocket-Accept: ") =~= crlf()
        + text("Server") + seq![COLON, SP] + text("zahttp/0.1") + crlf() + text("Upgrade") + seq![COLON, SP]
        + text("websocket") + crlf() + text("Connection") + seq![COLON, SP] + text("Upgrade") + crlf()
        + text("Sec-WebSocket-Accept") + seq![COLON, SP]);
}

/// A piece of a head, taken apart.
proof fn lemma_reject_fields()
    ensures
        text("\r\nContent-Type: text/plain\r\nContent-Length: 0\r\n") == crlf() + text("Content-Type")
            + seq![COLON, SP] + text("text/plain") + crlf() + text("Content-Length") + seq![COLON, SP]
            + text("0") + crlf(),
{
    reveal_strlit("\r\nContent-Type: text/plain\r\nContent-Length: 0\r\n");
    reveal_strlit("0");
    reveal_strlit("Content-Length");
    reveal_strlit("Content-Type");
    reveal_strlit("text/plain");
    is_ascii_spec_bytes("\r\nContent-Type: text/plain\r\nContent-Length: 0\r\n");
    is_ascii_spec_bytes("0");
    is_ascii_spec_bytes("Content-Length");
    is_ascii_spec_bytes("Content-Type");
    is_ascii_spec_bytes("text/plain");
    assert(text("\r\nContent-Type: text/plain\r\nContent-Length: 0\r\n") =~= crlf() + text("Content-Type")
        + seq![COLON, SP] + text("text/plain") + crlf() + text("Content-Length") + seq![COLON, SP] + text("0")
        + crlf());
}

/// A piece of a head, taken apart.
proof fn lemma_reject_version()
    ensures
        text("Sec-WebSocket-Version: 13\r\n") == text("Sec-WebSocket-Version") + seq![COLON, SP] + text("13")
            + crlf(),
{
    reveal_strlit("Sec-WebSocket-Version: 13\r\n");
    reveal_strlit("13");
    reveal_strlit("Sec-WebSocket-Version");
    is_ascii_spec_bytes("Sec-WebSocket-Version: 13\r\n");
    is_ascii_spec_bytes("13");
    is_ascii_spec_bytes("Sec-WebSocket-Version");
    assert(text("Sec-WebSocket-Version: 13\r\n") =~= text("Sec-WebSocket-Version") + seq![COLON, SP]
        + text("13") + crlf());
}

/// A piece of a head, taken apart.
proof fn lemma_reject_close()
    ensures
        text("Connection: close\r\n\r\n") == text("Connection") + seq![COLON, SP] + text("close") + crlf() + crlf(),
{
    reveal_strlit("Connection: close\r\n\r\n");
    reveal_strlit("Connection");
    reveal_strlit("close");
    is_ascii_spec_bytes("Connection: close\r\n\r\n");
    is_ascii_spec_bytes("Connection");
    is_ascii_spec_bytes("close");
    assert(text("Connection: close\r\n\r\n") =~= text("Connection") + seq![COLON, SP] + text("close") + crlf()
        + crlf());
}

/// The answer to a handshake that succeeds, field by field.
#[verifier::rlimit(60)]
#[verifier::spinoff_prover]
pub proof fn law_accept_head(date: Seq<u8>, accept: Seq<u8>)
    ensures
        accept_head(date, accept) == answer_wire(
            101,
            text("Switching Protocols"),
            seq![
                (text("Date"), date),
                (text("Server"), text("zahttp/0.1")),
                (text("Upgrade"), text("websocket")),
                (text("Connection"), text("Upgrade")),
                (text("Sec-WebSocket-Accept"), accept),
            ],
        ),
{
    broadcast use lemma_concat_left;

    let fs = seq![
        (text("Date"), date),
        (text("Server"), text("zahttp/0.1")),
        (text("Upgrade"), text("websocket")),
        (text("Connection"), text("Upgrade")),
        (text("Sec-WebSocket-Accept"), accept),
    ];
    lemma_wire_from(fs, 0);
    lemma_wire_from(fs, 1);
    lemma_wire_from(fs, 2);
    lemma_wire_from(fs, 3);
    lemma_wire_from(fs, 4);
    lemma_switching_line();
    lemma_accept_fields();
    lemma_head_close();
    assert(accept_head(date, accept) == answer_wire(101, text("Switching Protocols"), fs));
}

/// The answer to a handshake in another version, field by field: it tells the
/// version that is spoken.
#[verifier::rlimit(60)]
#[verifier::spinoff_prover]
pub proof fn law_version_refused()
    ensures
        reject_head(426) == answer_wire(
            426,
            text("Upgrade Required"),
            seq![
                (text("Content-Type"), text("text/plain")),
                (text("Content-Length"), text("0")),
                (text("Sec-WebSocket-Version"), text("13")),
                (text("Connection"), text("close")),
            ],
        ),
{
    broadcast use lemma_concat_left;

    let fs = seq![
        (text("Content-Type"), text("text/plain")),
        (text("Content-Length"), text("0")),
        (text("Sec-WebSocket-Version"), text("13")),
        (text("Connection"), text("close")),
    ];
    lemma_wire_from(fs, 0);
    lemma_wire_from(fs, 1);
    lemma_wire_from(fs, 2);
    lemma_wire_from(fs, 3);
    lemma_space();
    lemma_reject_fields();
    lemma_reject_version();
    lemma_reject_close();
    assert(reject_head(426) == answer_wire(426, text("Upgrade Required"), fs));
}

/// The answer to any other handshake that fails, field by field.
#[verifier::rlimit(60)]
#[verifier::spinoff_prover]
pub proof fn law_handshake_refused()
    ensures
        reject_head(400) == answer_wire(
            400,
            text("Bad Request"),
            seq![
                (text("Content-Type"), text("text/plain")),
                (text("Content-Length"), text("0")),
                (text("Connection"), text("close")),
            ],
        ),
{
    broadcast use lemma_concat_left;

    let fs = seq![
        (text("Content-Type"), text("text/plain")),
        (text("Content-Length"), text("0")),
        (text("Connection"), text("close")),
    ];
    lemma_wire_from(fs, 0);
    lemma_wire_from(fs, 1);
    lemma_wire_from(fs, 2);
    lemma_space();
    lemma_reject_fields();
    lemma_reject_close();
    assert(reject_head(400) == answer_wire(400, text("Bad Request"), fs));
}

/// A space, and nothing between two pieces.
proof fn lemma_space()
    ensures
        text(" ") == seq![SP],
        forall|a: Seq<u8>| #[trigger] (a + Seq::<u8>::empty()) == a,
{
    reveal_strlit(" ");
    is_ascii_spec_bytes(" ");
    assert(text(" ") =~= seq![SP]);
    assert forall|a: Seq<u8>| #[trigger] (a + Seq::<u8>::empty()) == a by {
        assert(a + Seq::<u8>::empty() =~= a);
    }
}

/// Every reply is sent, and nothing else is: a frame that is handled leads to the step
/// that its reply calls for, with the payload in the buffer that the step names.
pub proof fn law_replies_are_sent(c: WsConnection, m: Message, f: Frame, step: Step)
    requires
        handled(c, m, f, step),
    ensures
        c.session.message() == respond(m, f).0,
        match respond(m, f).1 {
            Reply::Nothing => step is Quiet,
            Reply::Send { opcode, payload } => match step {
                Step::Echo(o, n) => o == opcode && c.session.msg@.take(n as int) == payload && n <= 4096,
                Step::Control(o, n) => o == opcode && c.control@.take(n as int) == payload && n <= 125,
                _ => false,
            },
            Reply::Last { opcode, payload } => match step {
                Step::Last(o, n) => o == opcode && c.control@.take(n as int) == payload && n <= 125,
                _ => false,
            },
            Reply::Refuse(code) => step == Step::Refuse(code, 0),
        },
{
}

} // verus!
