//! The gzip content coding (RFC 1952): one DEFLATE block with the fixed Huffman
//! code, between a ten-byte header and the checksum.
use vstd::prelude::*;

use crate::bitio::{bit, bits_of, high_first, lemma_bits_injective, lemma_packed_bits, low_bits, packed, padded, BitW};
use crate::huffman::{dist_code, emit_lit, lemma_slot, len_code, len_slot, rev_bits, symbol_bits, DIST_BASE, LEN_BASE};
use crate::lz77::{
    find_match, heads_upto, index_position, lemma_match_at, links_upto, match_at, newest, token_bits, tokens_bits,
    tokens_from, Token, GZIP_MAX_IN, HASHES, MATCH_MIN,
};

verus! {

/// Room for the worst case: 64 KiB of literals at nine bits each, and framing.
pub const GZIP_CAP: usize = 74752;

/// Magic number, deflate, no flags, no time, no extra flags, Unix.
pub const GZIP_HEADER: [u8; 10] = [0x1F, 0x8B, 0x08, 0x00, 0x00, 0x00, 0x00, 0x00, 0x00, 0x03];

/// `k` steps of the bitwise checksum (reflected polynomial 0xEDB88320).
pub open spec fn crc_shift(c: u32, k: int) -> u32
    decreases k,
{
    if k <= 0 {
        c
    } else if c & 1 != 0 {
        crc_shift((c >> 1) ^ 0xEDB8_8320, k - 1)
    } else {
        crc_shift(c >> 1, k - 1)
    }
}

/// The checksum register after `data`, started with all ones.
pub open spec fn crc_register(data: Seq<u8>) -> u32
    decreases data.len(),
{
    if data.len() == 0 {
        0xFFFF_FFFF
    } else {
        crc_shift(crc_register(data.drop_last()) ^ (data.last() as u32), 8)
    }
}

/// CRC-32 as gzip defines it.
pub open spec fn crc32_of(data: Seq<u8>) -> u32 {
    !crc_register(data)
}

/// Four bytes, least significant first.
pub open spec fn le32(v: int) -> Seq<u8> {
    seq![(v % 256) as u8, ((v / 256) % 256) as u8, ((v / 65536) % 256) as u8, ((v / 16777216) % 256) as u8]
}

/// The bits of the one block: final, fixed code, the tokens, end of block.
pub open spec fn block_bits(input: Seq<u8>) -> Seq<bool> {
    low_bits(1, 1) + low_bits(1, 2) + tokens_bits(tokens_from(input, 0)) + symbol_bits(256)
}

/// The gzip member that holds `input`.
pub open spec fn gzip_member(input: Seq<u8>) -> Seq<u8> {
    GZIP_HEADER@ + packed(block_bits(input)) + le32(crc32_of(input) as int) + le32(input.len() as int)
}

/// No token costs more than nine bits for each byte it stands for.
proof fn lemma_tokens_size(input: Seq<u8>, i: int)
    requires
        0 <= i <= input.len(),
    ensures
        tokens_bits(tokens_from(input, i)).len() <= 9 * (input.len() - i),
    decreases input.len() - i,
{
    if i < input.len() {
        lemma_match_at(input, i);
        let (len, dist) = match_at(input, i);
        let ts = tokens_from(input, i);
        if len >= MATCH_MIN {
            lemma_slot(LEN_BASE@, len, 28);
            lemma_slot(DIST_BASE@, dist, 29);
            let ls = len_slot(len);
            assert(token_bits(ts[0]).len() <= 31);
            if len == 3 {
                assert(ls == 0);
                assert(token_bits(ts[0]).len() <= 25);
            }
            assert(ts.drop_first() =~= tokens_from(input, i + len));
            lemma_tokens_size(input, i + len);
        } else {
            assert(ts.drop_first() =~= tokens_from(input, i + 1));
            lemma_tokens_size(input, i + 1);
        }
    }
}

/// Compression never costs more than nine bits for each byte, and the framing; so
/// `GZIP_CAP` bytes have room for every input that is compressed at all.
pub proof fn law_gzip_cap_suffices(input: Seq<u8>)
    ensures
        gzip_member(input).len() <= 18 + (9 * input.len() + 17) / 8,
        input.len() <= GZIP_MAX_IN ==> gzip_member(input).len() <= GZIP_CAP,
{
    lemma_tokens_size(input, 0);
}

pub fn crc32(data: &[u8]) -> (r: u32)
    ensures
        r == crc32_of(data@),
{
    let mut crc: u32 = 0xFFFF_FFFF;
    let mut i: usize = 0;
    assert(data@.take(0) =~= Seq::<u8>::empty());
    while i < data.len()
        invariant
            i <= data@.len(),
            crc == crc_register(data@.take(i as int)),
        decreases data@.len() - i,
    {
        assert(data@.take(i + 1).drop_last() =~= data@.take(i as int));
        crc = crc ^ (data[i] as u32);
        let ghost whole = crc_shift(crc, 8);
        let mut k: u32 = 0;
        while k < 8
            invariant
                k <= 8,
                crc_shift(crc, 8 - k) == whole,
            decreases 8 - k,
        {
            crc = if crc & 1 != 0 {
                (crc >> 1) ^ 0xEDB8_8320
            } else {
                crc >> 1
            };
            k += 1;
        }
        i += 1;
    }
    assert(data@.take(i as int) =~= data@);
    !crc
}

/// Writes `v` at `pos`, least significant byte first.
fn put_le32(out: &mut [u8], pos: usize, v: u32)
    requires
        pos + 4 <= old(out)@.len(),
    ensures
        final(out)@.len() == old(out)@.len(),
        final(out)@.subrange(pos as int, pos + 4) == le32(v as int),
        forall|k: int|
            0 <= k < final(out)@.len() && !(pos <= k < pos + 4) ==> final(out)@[k] == old(out)@[k],
{
    assert(pos + 3 < out.len());
    out[pos] = (v % 256) as u8;
    out[pos + 1] = ((v / 256) % 256) as u8;
    out[pos + 2] = ((v / 65536) % 256) as u8;
    out[pos + 3] = ((v / 16777216) % 256) as u8;
    assert(out@.subrange(pos as int, pos + 4) =~= le32(v as int));
}

/// Writes one match: length symbol, extra bits, distance symbol, extra bits.
fn emit_match(w: &mut BitW, len: u32, dist: u32)
    requires
        old(w).wf(),
        old(w).ok,
        len >= 3,
        dist >= 1,
    ensures
        final(w).wf(),
        final(w).stream() == old(w).stream() + token_bits(Token::Copy { len: len as int, dist: dist as int }),
        final(w).out@.len() == old(w).out@.len(),
        final(w).pos >= old(w).pos,
        forall|k: int| final(w).pos <= k < final(w).out@.len() ==> final(w).out@[k] == old(w).out@[k],
        final(final(w).out)@ == final(old(w).out)@,
{
    let ghost s0 = w.stream();
    let (sym, eb, ev) = len_code(len);
    emit_lit(w, sym);
    let ghost s1 = w.stream();
    if eb > 0 {
        w.bits(ev, eb);
    }
    let ghost s2 = w.stream();
    assert(s2 =~= s1 + low_bits(ev, eb as int));
    let (dsym, deb, dev) = dist_code(dist);
    let d: u32 = rev_bits(dsym, 5);
    w.bits(d, 5);
    let ghost s3 = w.stream();
    if deb > 0 {
        w.bits(dev, deb);
    }
    assert(w.stream() =~= s3 + low_bits(dev, deb as int));
    assert(w.stream() =~= s0 + (symbol_bits(sym) + low_bits(ev, eb as int) + high_first(dsym, 5) + low_bits(
        dev,
        deb as int,
    )));
}

/// Writes the tokens of `input`. False when the room ran out.
fn emit_tokens(w: &mut BitW, input: &[u8]) -> (ok: bool)
    requires
        old(w).wf(),
        old(w).ok,
        input@.len() <= GZIP_MAX_IN,
    ensures
        final(w).wf(),
        final(w).out@.len() == old(w).out@.len(),
        final(w).pos >= old(w).pos,
        forall|k: int| final(w).pos <= k < final(w).out@.len() ==> final(w).out@[k] == old(w).out@[k],
        final(final(w).out)@ == final(old(w).out)@,
        ok == final(w).ok,
        ok ==> final(w).stream() == old(w).stream() + tokens_bits(tokens_from(input@, 0)),
        !ok ==> final(w).stream().len() <= old(w).stream().len() + tokens_bits(tokens_from(input@, 0)).len(),
{
    let mut head: [u32; HASHES] = [0u32; HASHES];
    let mut prev: [u32; GZIP_MAX_IN] = [0u32; GZIP_MAX_IN];
    let n: usize = input.len();
    let mut i: usize = 0;
    let ghost whole = w.stream() + tokens_bits(tokens_from(input@, 0));
    assert forall|h: int| 0 <= h < HASHES implies #[trigger] head@[h] == newest(input@, h, 0) by {}
    while i < n
        invariant
            i <= n,
            n == input@.len(),
            n <= GZIP_MAX_IN,
            w.wf(),
            w.ok,
            heads_upto(input@, head@, i as int),
            links_upto(input@, prev@, i as int),
            w.out@.len() == old(w).out@.len(),
            w.pos >= old(w).pos,
            forall|k: int| w.pos <= k < w.out@.len() ==> w.out@[k] == old(w).out@[k],
            final(w.out)@ == final(old(w).out)@,
            whole == old(w).stream() + tokens_bits(tokens_from(input@, 0)),
            w.stream() + tokens_bits(tokens_from(input@, i as int)) == whole,
        decreases n - i,
    {
        let ghost i0 = i as int;
        let ghost s0 = w.stream();
        let ghost rest = tokens_from(input@, i0);
        proof {
            lemma_match_at(input@, i0);
        }
        let (best_len, best_dist): (u32, u32) = if i + 3 <= n {
            find_match(input, i, &head, &prev)
        } else {
            (0, 0)
        };
        index_position(input, i, &mut head, &mut prev);
        if best_len >= MATCH_MIN {
            emit_match(w, best_len, best_dist);
            let end: usize = i + best_len as usize;
            let mut j: usize = i + 1;
            while j < end
                invariant
                    i < j <= end,
                    end <= n,
                    n == input@.len(),
                    n <= GZIP_MAX_IN,
                    heads_upto(input@, head@, j as int),
                    links_upto(input@, prev@, j as int),
                decreases end - j,
            {
                index_position(input, j, &mut head, &mut prev);
                j += 1;
            }
            i = end;
            proof {
                let t = Token::Copy { len: best_len as int, dist: best_dist as int };
                assert(rest.drop_first() =~= tokens_from(input@, i as int));
                assert(rest[0] == t);
                assert(w.stream() + tokens_bits(tokens_from(input@, i as int)) =~= s0 + tokens_bits(rest));
            }
        } else {
            emit_lit(w, input[i] as u32);
            i += 1;
            proof {
                assert(rest.drop_first() =~= tokens_from(input@, i as int));
                assert(rest[0] == Token::Literal(input@[i0]));
                assert(w.stream() + tokens_bits(tokens_from(input@, i as int)) =~= s0 + tokens_bits(rest));
            }
        }
        if !w.ok {
            assert(whole.len() == w.stream().len() + tokens_bits(tokens_from(input@, i as int)).len());
            return false;
        }
    }
    assert(w.stream() =~= whole);
    true
}

/// Compresses `input` into the front of `out` and returns how many bytes that
/// took; `None` when the input is too long or the room too small. An input that is
/// too long, and a room that no member fits, leave the room as it was.
pub fn gzip_encode(input: &[u8], out: &mut [u8]) -> (r: Option<usize>)
    ensures
        final(out)@.len() == old(out)@.len(),
        match r {
            Some(n) => {
                &&& input@.len() <= GZIP_MAX_IN
                &&& n == gzip_member(input@).len()
                &&& n <= old(out)@.len()
                &&& final(out)@.take(n as int) == gzip_member(input@)
                &&& final(out)@.skip(n as int) == old(out)@.skip(n as int)
            },
            None => input@.len() > GZIP_MAX_IN || gzip_member(input@).len() > old(out)@.len(),
        },
        input@.len() > GZIP_MAX_IN || old(out)@.len() < 18 ==> final(out)@ == old(out)@,
        input@.len() <= 65536 && old(out)@.len() >= 74752 ==> r is Some,
        input@.len() > 65536 ==> r is None,
{
    proof {
        law_gzip_cap_suffices(input@);
    }
    let ghost o0 = out@;
    let total: usize = out.len();
    let ghost bits = block_bits(input@);
    assert(gzip_member(input@).len() == 10 + (bits.len() + 7) / 8 + 8);
    if input.len() > GZIP_MAX_IN || total < 18 {
        assert(bits.len() >= 3);
        return None;
    }
    let (front, back) = out.split_at_mut(10);
    let mut k: usize = 0;
    while k < 10
        invariant
            k <= 10,
            front@.len() == 10,
            forall|j: int| 0 <= j < k ==> front@[j] == GZIP_HEADER@[j],
        decreases 10 - k,
    {
        front[k] = GZIP_HEADER[k];
        k += 1;
    }
    let mut w = BitW::new(back);
    w.bits(1, 1);
    if !w.ok {
        return None;
    }
    w.bits(1, 2);
    if !w.ok {
        return None;
    }
    assert(w.stream() =~= low_bits(1, 1) + low_bits(1, 2));
    if !emit_tokens(&mut w, input) {
        return None;
    }
    emit_lit(&mut w, 256);
    w.flush();
    assert(w.stream() =~= padded(bits));
    if !w.ok {
        return None;
    }
    let used: usize = w.pos;
    let ghost body = w.out@;
    proof {
        assert(w.stream() =~= bits_of(body.take(used as int)));
        lemma_packed_bits(bits);
        lemma_bits_injective(body.take(used as int), packed(bits));
    }
    let pos: usize = 10 + used;
    if total - pos < 8 {
        return None;
    }
    assert(out@ =~= GZIP_HEADER@ + body);
    let ghost o1 = out@;
    put_le32(out, pos, crc32(input));
    let ghost o2 = out@;
    put_le32(out, pos + 4, input.len() as u32);
    proof {
        let m = gzip_member(input@);
        assert(out@.subrange(pos as int, pos + 4) =~= o2.subrange(pos as int, pos + 4));
        assert(body.take(used as int) =~= packed(bits));
        assert(out@.take(pos as int) =~= GZIP_HEADER@ + packed(bits));
        assert(out@.take(pos + 8) =~= out@.take(pos as int) + out@.subrange(pos as int, pos + 4) + out@.subrange(
            pos + 4,
            pos + 8,
        ));
        assert forall|q: int| pos + 8 <= q < out@.len() implies out@[q] == o0[q] by {
            assert(o1[q] == body[q - 10]);
        }
        assert(out@.skip(pos + 8) =~= o0.skip(pos + 8));
    }
    Some(pos + 8)
}

// ---- laws of the checksum ---------------------------------------------------

/// The exponents in the generator polynomial of CRC-32.
pub open spec fn generator_has(e: int) -> bool {
    e == 32 || e == 26 || e == 23 || e == 22 || e == 16 || e == 12 || e == 11 || e == 10 || e == 8 || e == 7 || e == 5
        || e == 4 || e == 2 || e == 1 || e == 0
}

/// The product of a polynomial over two elements with the generator, the highest
/// coefficient first.
pub open spec fn times_generator(q: Seq<bool>) -> Seq<bool>
    decreases q.len(),
{
    if q.len() == 0 {
        Seq::new(32, |i: int| false)
    } else {
        let shifted = times_generator(q.drop_last()).push(false);
        Seq::new(
            (q.len() + 32) as nat,
            |i: int| shifted[i] != (q.last() && i >= q.len() - 1 && generator_has(32 - (i - (q.len() - 1)))),
        )
    }
}

/// The message as a polynomial, its first 32 coefficients complemented and 32
/// zeros behind it, is `q` times the generator and the complement of `crc`.
pub open spec fn divides(q: Seq<bool>, message: Seq<bool>, crc: u32) -> bool {
    let n = message.len() as int;
    &&& q.len() == n
    &&& forall|i: int|
        0 <= i < n + 32 ==> (#[trigger] times_generator(q)[i] != (i >= n && !bit(crc, i - n))) == ((i < n
            && message[i]) != (i < 32))
}

/// One step of the register on one bit of the message.
spec fn crc_step(c: u32, b: bool) -> u32 {
    crc_shift(
        c ^ (if b {
            1u32
        } else {
            0u32
        }),
        1,
    )
}

/// The register after the bits of a message.
spec fn crc_fed(c: u32, bits: Seq<bool>) -> u32
    decreases bits.len(),
{
    if bits.len() == 0 {
        c
    } else {
        crc_step(crc_fed(c, bits.drop_last()), bits.last())
    }
}

proof fn lemma_crc_fed_split(c: u32, a: Seq<bool>, b: Seq<bool>)
    ensures
        crc_fed(c, a + b) == crc_fed(crc_fed(c, a), b),
    decreases b.len(),
{
    if b.len() == 0 {
        assert(a + b =~= a);
    } else {
        lemma_crc_fed_split(c, a, b.drop_last());
        assert((a + b).drop_last() =~= a + b.drop_last());
    }
}

/// The steps on the bits of a byte, the least significant first.
proof fn lemma_crc_bits(c: u32, y: u32, k: int)
    requires
        0 <= k <= 8,
        y >> (k as u32) == 0,
    ensures
        crc_shift(c ^ y, k) == crc_fed(c, low_bits(y, k)),
    decreases k,
{
    let bits = low_bits(y, k);
    if k == 0 {
        assert(y >> 0u32 == 0 ==> c ^ y == c) by (bit_vector);
    } else {
        let b = bit(y, 0);
        let one: u32 = if b {
            1u32
        } else {
            0u32
        };
        let x = c ^ one;
        let z = y >> 1u32;
        let j = (k - 1) as u32;
        assert((y >> 0u32) & 1 == y & 1 && ((c ^ y) & 1 != 0 <==> (c ^ (y & 1)) & 1 != 0) && (c ^ y) >> 1 == ((c ^ (y
            & 1)) >> 1) ^ (y >> 1u32) && (((c ^ (y & 1)) >> 1) ^ (y >> 1u32)) ^ 0xEDB8_8320 == (((c ^ (y & 1)) >> 1)
            ^ 0xEDB8_8320) ^ (y >> 1u32) && (y & 1 == 0 || y & 1 == 1)) by (bit_vector);
        assert(one == y & 1);
        assert(crc_shift(c ^ y, k) == crc_shift(crc_step(c, b) ^ z, k - 1)) by {
            reveal_with_fuel(crc_shift, 2);
        }
        assert(y >> ((j + 1) as u32) == 0 && j < 8 ==> (y >> 1u32) >> j == 0) by (bit_vector);
        lemma_crc_bits(crc_step(c, b), z, k - 1);
        let more = low_bits(z, k - 1);
        assert(bits =~= seq![b] + more) by {
            assert forall|i: int| 0 <= i < more.len() implies bits[i + 1] == more[i] by {
                let m = i as u32;
                assert(m < 8 ==> (y >> 1u32) >> m == y >> ((m + 1) as u32)) by (bit_vector);
            }
        }
        lemma_crc_fed_split(c, seq![b], more);
        assert(seq![b].drop_last() =~= Seq::<bool>::empty());
        assert(crc_fed(c, Seq::<bool>::empty()) == c);
        assert(crc_fed(c, seq![b]) == crc_step(c, b));
    }
}

/// The register is the one that the bits of the message lead to.
proof fn lemma_crc_register(data: Seq<u8>)
    ensures
        crc_register(data) == crc_fed(0xFFFF_FFFF, bits_of(data)),
    decreases data.len(),
{
    let bits = bits_of(data);
    if data.len() > 0 {
        let less = data.drop_last();
        let y = data.last() as u32;
        lemma_crc_register(less);
        assert(y < 256 ==> y >> 8u32 == 0) by (bit_vector);
        lemma_crc_bits(crc_register(less), y, 8);
        assert(bits =~= bits_of(less) + low_bits(y, 8)) by {
            assert forall|i: int| 0 <= i < bits.len() implies bits[i] == (bits_of(less) + low_bits(y, 8))[i] by {
                if i < 8 * less.len() {
                    assert(data[i / 8] == less[i / 8]);
                } else {
                    assert(i / 8 == less.len());
                    assert(i % 8 == i - 8 * less.len());
                }
            }
        }
        lemma_crc_fed_split(0xFFFF_FFFF, bits_of(less), low_bits(y, 8));
    }
}

/// The bits of the register behind one step.
proof fn lemma_crc_step_bits(c: u32, b: bool)
    ensures
        forall|j: int|
            0 <= j < 32 ==> #[trigger] bit(crc_step(c, b), j) == ((j < 31 && bit(c, j + 1)) != ((bit(c, 0) != b)
                && generator_has(31 - j))),
{
    let one: u32 = if b {
        1u32
    } else {
        0u32
    };
    let x = c ^ one;
    reveal_with_fuel(crc_shift, 2);
    assert forall|j: int| 0 <= j < 32 implies #[trigger] bit(crc_step(c, b), j) == ((j < 31 && bit(c, j + 1)) != ((bit(
        c,
        0,
    ) != b) && generator_has(31 - j))) by {
        let k = j as u32;
        assert(one <= 1 && k < 32 ==> {
            &&& (x & 1 != 0 <==> ((c >> 0u32) & 1 == 1) != (one == 1))
            &&& (((x >> 1) >> k) & 1 == 1 <==> k < 31 && (c >> ((k + 1) as u32)) & 1 == 1)
            &&& ((((x >> 1) ^ 0xEDB8_8320) >> k) & 1 == 1 <==> (((x >> 1) >> k) & 1 == 1) != ((0xEDB8_8320u32 >> k) & 1
                == 1))
            &&& ((0xEDB8_8320u32 >> k) & 1 == 1 <==> k == 5 || k == 8 || k == 9 || k == 15 || k == 19 || k == 20 || k
                == 21 || k == 23 || k == 24 || k == 26 || k == 27 || k == 29 || k == 30 || k == 31)
        }) by (bit_vector)
            requires
                x == c ^ one,
        ;
    }
}

/// The quotient that the register leaves behind.
spec fn quotient(bits: Seq<bool>) -> Seq<bool>
    decreases bits.len(),
{
    if bits.len() == 0 {
        Seq::<bool>::empty()
    } else {
        let less = bits.drop_last();
        quotient(less).push(bit(crc_fed(0xFFFF_FFFF, less), 0) != bits.last())
    }
}

proof fn lemma_times_generator_len(q: Seq<bool>)
    ensures
        times_generator(q).len() == q.len() + 32,
{
}

proof fn lemma_division(bits: Seq<bool>)
    ensures
        divides(quotient(bits), bits, !crc_fed(0xFFFF_FFFF, bits)),
    decreases bits.len(),
{
    let n = bits.len() as int;
    let r = crc_fed(0xFFFF_FFFF, bits);
    let q = quotient(bits);
    if n == 0 {
        assert forall|i: int| 0 <= i < 32 implies (#[trigger] times_generator(q)[i] != (i >= n && !bit(!r, i - n))) == ((i
            < n && bits[i]) != (i < 32)) by {
            let k = i as u32;
            assert(k < 32 ==> (!0xFFFF_FFFFu32 >> k) & 1 == 0) by (bit_vector);
        }
    } else {
        let less = bits.drop_last();
        let b = bits.last();
        let c = crc_fed(0xFFFF_FFFF, less);
        let p = quotient(less);
        let m = n - 1;
        lemma_division(less);
        lemma_crc_step_bits(c, b);
        lemma_times_generator_len(p);
        assert(q.drop_last() =~= p);
        assert forall|i: int| 0 <= i < n + 32 implies (#[trigger] times_generator(q)[i] != (i >= n && !bit(!r, i - n)))
            == ((i < n && bits[i]) != (i < 32)) by {
            if i >= n {
                lemma_complement(r, i - n);
            }
            if i < m + 32 {
                assert((times_generator(p)[i] != (i >= m && !bit(!c, i - m))) == ((i < m && less[i]) != (i < 32)));
                if i >= m {
                    lemma_complement(c, i - m);
                }
                if i < m {
                    assert(less[i] == bits[i]);
                }
            }
            if i >= n {
                assert(bit(r, i - n) == ((i - n < 31 && bit(c, i - n + 1)) != ((bit(c, 0) != b) && generator_has(
                    31 - (i - n),
                ))));
            }
        }
    }
}

proof fn lemma_complement(v: u32, j: int)
    requires
        0 <= j < 32,
    ensures
        bit(!v, j) == !bit(v, j),
{
    let k = j as u32;
    assert(k < 32 ==> ((!v >> k) & 1 == 1 <==> (v >> k) & 1 != 1)) by (bit_vector);
}

/// The checksum is what RFC 1952 says: the complement of the remainder that the
/// whole message, of whatever length, leaves when it is divided by the generator.
pub proof fn law_checksum_is_the_remainder(data: Seq<u8>)
    ensures
        exists|q: Seq<bool>| #[trigger] divides(q, bits_of(data), crc32_of(data)),
{
    lemma_crc_register(data);
    lemma_division(bits_of(data));
    assert(divides(quotient(bits_of(data)), bits_of(data), crc32_of(data)));
}

/// The checksum goes on from byte to byte, and every byte counts: changing any one
/// of them, wherever it stands, changes the checksum.
pub proof fn law_every_byte_counts(a: Seq<u8>, x: u8, y: u8, b: Seq<u8>)
    ensures
        crc32_of(a + seq![x]) == !crc_shift(!crc32_of(a) ^ (x as u32), 8),
        x != y ==> crc32_of(a + seq![x] + b) != crc32_of(a + seq![y] + b),
    decreases b.len(),
{
    let r = crc_register(a);
    assert(!(!r) == r) by (bit_vector);
    assert((a + seq![x]).drop_last() =~= a);
    assert((a + seq![y]).drop_last() =~= a);
    let s = a + seq![x] + b;
    let t = a + seq![y] + b;
    if b.len() == 0 {
        assert(s =~= a + seq![x]);
        assert(t =~= a + seq![y]);
        if crc32_of(s) == crc32_of(t) {
            lemma_not_injective(crc_register(s), crc_register(t));
            lemma_shift_injective(r ^ (x as u32), r ^ (y as u32), 8);
            let u = x as u32;
            let v = y as u32;
            assert(r ^ u == r ^ v ==> u == v) by (bit_vector);
        }
    } else {
        law_every_byte_counts(a, x, y, b.drop_last());
        assert(s.drop_last() =~= a + seq![x] + b.drop_last());
        assert(t.drop_last() =~= a + seq![y] + b.drop_last());
        if x != y && crc32_of(s) == crc32_of(t) {
            let c = crc_register(s.drop_last());
            let d = crc_register(t.drop_last());
            let z = b.last() as u32;
            lemma_not_injective(crc_register(s), crc_register(t));
            lemma_shift_injective(c ^ z, d ^ z, 8);
            assert(c ^ z == d ^ z ==> c == d) by (bit_vector);
        }
    }
}

proof fn lemma_not_injective(a: u32, b: u32)
    requires
        !a == !b,
    ensures
        a == b,
{
    assert(!a == !b ==> a == b) by (bit_vector);
}

proof fn lemma_shift_injective(a: u32, b: u32, k: int)
    requires
        crc_shift(a, k) == crc_shift(b, k),
    ensures
        a == b,
    decreases k,
{
    if k > 0 {
        let x = if a & 1 != 0 {
            (a >> 1) ^ 0xEDB8_8320
        } else {
            a >> 1
        };
        let y = if b & 1 != 0 {
            (b >> 1) ^ 0xEDB8_8320
        } else {
            b >> 1
        };
        lemma_shift_injective(x, y, k - 1);
        assert((if a & 1 != 0 {
            (a >> 1) ^ 0xEDB8_8320
        } else {
            a >> 1
        }) == (if b & 1 != 0 {
            (b >> 1) ^ 0xEDB8_8320
        } else {
            b >> 1
        }) ==> a == b) by (bit_vector);
    }
}

/// Four bytes hold a number below 2 to the power of 32, the least significant first.
pub proof fn law_four_bytes(v: int)
    requires
        0 <= v < 0x1_0000_0000,
    ensures
        le32(v).len() == 4,
        le32(v)[0] + 256 * le32(v)[1] + 65536 * le32(v)[2] + 16777216 * le32(v)[3] == v,
{
    assert(v / 65536 == (v / 256) / 256);
    assert(v / 16777216 == (v / 65536) / 256);
}

/// A member starts with the ten bytes of a header that claims nothing but DEFLATE,
/// and ends with checksum and length of what it holds, as numbers of four bytes.
pub proof fn law_member_frame(input: Seq<u8>)
    requires
        input.len() < 0x1_0000_0000,
    ensures
        ({
            let m = gzip_member(input);
            let n = m.len() as int;
            &&& n >= 18
            &&& m.take(10) == seq![0x1Fu8, 0x8B, 8, 0, 0, 0, 0, 0, 0, 3]
            &&& m[n - 8] + 256 * m[n - 7] + 65536 * m[n - 6] + 16777216 * m[n - 5] == crc32_of(input)
            &&& m[n - 4] + 256 * m[n - 3] + 65536 * m[n - 2] + 16777216 * m[n - 1] == input.len()
        }),
{
    let m = gzip_member(input);
    law_four_bytes(crc32_of(input) as int);
    law_four_bytes(input.len() as int);
    assert(m.take(10) =~= seq![0x1Fu8, 0x8B, 8, 0, 0, 0, 0, 0, 0, 3]);
    assert(m.subrange(m.len() - 8, m.len() - 4) =~= le32(crc32_of(input) as int));
    assert(m.subrange(m.len() - 4, m.len() as int) =~= le32(input.len() as int));
}

} // verus!
