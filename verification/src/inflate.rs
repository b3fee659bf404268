//! What a gzip member means, told by a reader of RFC 1951 and RFC 1952, and the
//! law that the compressor writes members that mean its input.
use vstd::prelude::*;

use crate::bitio::{bit, bits_of, high_first, lemma_packed_bits, low_bits, packed, padded};
use crate::gzip::{block_bits, crc32_of, gzip_member, le32};
use crate::huffman::{
    code_size, code_word, dist_slot, lemma_slot, len_slot, slot, symbol_bits, DIST_BASE, DIST_EXTRA, LEN_BASE,
    LEN_EXTRA,
};
use crate::lz77::{
    copied, lemma_match_at, lemma_tokens_expand, match_at, token_bits, tokens_bits, tokens_from, Token, MATCH_MIN,
    WINDOW,
};

verus! {

/// The number whose binary digits are the first `n` bits, most significant
/// first.
pub open spec fn high_value(bits: Seq<bool>, n: int) -> int
    decreases n,
{
    if n <= 0 {
        0
    } else {
        2 * high_value(bits, n - 1) + if bits[n - 1] {
            1int
        } else {
            0
        }
    }
}

/// The number whose binary digits are the first `n` bits, least significant
/// first.
pub open spec fn low_value(bits: Seq<bool>, n: int) -> int
    decreases n,
{
    if n <= 0 {
        0
    } else {
        2 * low_value(bits.drop_first(), n - 1) + if bits[0] {
            1int
        } else {
            0
        }
    }
}

/// The first literal or length symbol of the stream, and how many bits it has.
pub open spec fn read_symbol(bits: Seq<bool>) -> Option<(int, int)> {
    if bits.len() < 7 {
        None
    } else if high_value(bits, 7) < 24 {
        Some((256 + high_value(bits, 7), 7))
    } else if bits.len() < 8 {
        None
    } else if high_value(bits, 8) < 0xC0 {
        Some((high_value(bits, 8) - 0x30, 8))
    } else if high_value(bits, 8) < 0xC8 {
        Some((280 + high_value(bits, 8) - 0xC0, 8))
    } else if bits.len() < 9 {
        None
    } else {
        Some((144 + high_value(bits, 9) - 0x190, 9))
    }
}

/// What the stream appends to `out` up to the end of its block, and the bits
/// that follow the block.
pub open spec fn inflated(bits: Seq<bool>, out: Seq<u8>) -> Option<(Seq<u8>, Seq<bool>)>
    decreases bits.len(),
{
    match read_symbol(bits) {
        None => None,
        Some((sym, used)) => {
            let r1 = bits.skip(used);
            if sym < 256 {
                inflated(r1, out.push(sym as u8))
            } else if sym == 256 {
                Some((out, r1))
            } else if sym > 285 || r1.len() < LEN_EXTRA@[sym - 257] + 5 {
                None
            } else {
                let le = LEN_EXTRA@[sym - 257] as int;
                let len = LEN_BASE@[sym - 257] + low_value(r1, le);
                let r2 = r1.skip(le);
                let ds = high_value(r2, 5);
                let r3 = r2.skip(5);
                if ds > 29 || r3.len() < DIST_EXTRA@[ds] {
                    None
                } else {
                    let de = DIST_EXTRA@[ds] as int;
                    let dist = DIST_BASE@[ds] + low_value(r3, de);
                    if dist > out.len() {
                        None
                    } else {
                        inflated(r3.skip(de), copied(out, len, dist))
                    }
                }
            }
        },
    }
}

/// What a gzip member of one fixed-code block holds. `None` when the header,
/// the block, the checksum or the length is not right.
pub open spec fn gunzipped(b: Seq<u8>) -> Option<Seq<u8>> {
    if b.len() < 18 || b.take(4) != seq![0x1Fu8, 0x8Bu8, 0x08u8, 0x00u8] {
        None
    } else {
        let bits = bits_of(b.subrange(10, b.len() - 8));
        if bits.len() < 3 || !bits[0] || low_value(bits.skip(1), 2) != 1 {
            None
        } else {
            match inflated(bits.skip(3), Seq::<u8>::empty()) {
                None => None,
                Some((data, rest)) => {
                    if rest.len() < 8 && b.subrange(b.len() - 8, b.len() - 4) == le32(crc32_of(data) as int)
                        && b.subrange(b.len() - 4, b.len() as int) == le32(data.len() as int) {
                        Some(data)
                    } else {
                        None
                    }
                },
            }
        }
    }
}

/// Reading `k` of the `n` digits of a code word gives its high part.
proof fn lemma_high_value(c: u32, n: u32, rest: Seq<bool>, k: u32)
    requires
        k <= n <= 13,
        c >> n == 0,
    ensures
        high_value(high_first(c, n as int) + rest, k as int) == c >> ((n - k) as u32),
    decreases k,
{
    if k > 0 {
        lemma_high_value(c, n, rest, (k - 1) as u32);
        let s = (n - k) as u32;
        let b = high_first(c, n as int) + rest;
        assert(b[k - 1] == bit(c, n - k));
        assert(c >> s == 2 * (c >> ((s + 1) as u32)) + ((c >> s) & 1)) by (bit_vector)
            requires
                s < 13,
        ;
        assert((c >> s) & 1 == 0 || (c >> s) & 1 == 1) by (bit_vector);
    }
}

/// Reading back the low digits of a number that has no others.
proof fn lemma_low_value(v: u32, n: u32, rest: Seq<bool>)
    requires
        n <= 13,
        v >> n == 0,
    ensures
        low_value(low_bits(v, n as int) + rest, n as int) == v,
    decreases n,
{
    let b = low_bits(v, n as int) + rest;
    if n == 0 {
        assert(v >> 0u32 == v) by (bit_vector);
    } else {
        let w = v >> 1;
        let m = (n - 1) as u32;
        assert(w >> m == 0 && v == 2 * w + (v & 1) && (v & 1 == 0 || v & 1 == 1) && v >> 0u32 == v) by (bit_vector)
            requires
                v >> n == 0,
                1 <= n <= 13,
                w == v >> 1,
                m == n - 1,
        ;
        lemma_low_value(w, m, rest);
        assert forall|i: int| 0 <= i < m implies bit(w, i) == bit(v, i + 1) by {
            let j = i as u32;
            assert(w >> j == v >> ((j + 1) as u32)) by (bit_vector)
                requires
                    w == v >> 1,
                    j < 13,
            ;
        }
        assert(b.drop_first() =~= low_bits(w, m as int) + rest);
        assert(b[0] == bit(v, 0));
    }
}

/// A symbol is read back from its code word.
proof fn lemma_read_symbol(sym: u32, rest: Seq<bool>)
    requires
        sym <= 287,
    ensures
        read_symbol(symbol_bits(sym) + rest) == Some((sym as int, code_size(sym))),
{
    let c = code_word(sym);
    let n = code_size(sym) as u32;
    assert(c >> n == 0) by (bit_vector)
        requires
            (n == 7 && c < 24) || (n == 8 && c < 0xC8) || (n == 9 && c < 0x200),
    ;
    assert(c >> 0u32 == c) by (bit_vector);
    lemma_high_value(c, n, rest, 7);
    if n == 8 {
        lemma_high_value(c, n, rest, 8);
        assert(c >> 1 >= 24) by (bit_vector)
            requires
                0x30 <= c < 0xC8,
        ;
    } else if n == 9 {
        lemma_high_value(c, n, rest, 8);
        lemma_high_value(c, n, rest, 9);
        assert(c >> 2 >= 24 && c >> 1 >= 0xC8) by (bit_vector)
            requires
                0x190 <= c < 0x200,
        ;
    }
}

proof fn lemma_powers()
    ensures
        1u32 << 0u32 == 1,
        1u32 << 1u32 == 2,
        1u32 << 2u32 == 4,
        1u32 << 3u32 == 8,
        1u32 << 4u32 == 16,
        1u32 << 5u32 == 32,
        1u32 << 6u32 == 64,
        1u32 << 7u32 == 128,
        1u32 << 8u32 == 256,
        1u32 << 9u32 == 512,
        1u32 << 10u32 == 1024,
        1u32 << 11u32 == 2048,
        1u32 << 12u32 == 4096,
        1u32 << 13u32 == 8192,
{
    assert(1u32 << 0u32 == 1 && 1u32 << 1u32 == 2 && 1u32 << 2u32 == 4 && 1u32 << 3u32 == 8 && 1u32 << 4u32 == 16
        && 1u32 << 5u32 == 32 && 1u32 << 6u32 == 64 && 1u32 << 7u32 == 128 && 1u32 << 8u32 == 256 && 1u32 << 9u32
        == 512 && 1u32 << 10u32 == 1024 && 1u32 << 11u32 == 2048 && 1u32 << 12u32 == 4096 && 1u32 << 13u32
        == 8192) by (bit_vector);
}

/// The extra bits of a length have room for what the slot leaves.
proof fn lemma_len_extra(len: int)
    requires
        3 <= len <= 258,
    ensures
        0 <= len_slot(len) <= 28,
        LEN_BASE@[len_slot(len)] <= len,
        LEN_EXTRA@[len_slot(len)] <= 5,
        ((len - LEN_BASE@[len_slot(len)]) as u32) >> (LEN_EXTRA@[len_slot(len)] as u32) == 0,
{
    lemma_slot(LEN_BASE@, len, 28);
    lemma_powers();
    let s = len_slot(len);
    let e = LEN_EXTRA@[s] as u32;
    let x = (len - LEN_BASE@[s]) as u32;
    assert(x < 1u32 << e);
    assert(x >> e == 0) by (bit_vector)
        requires
            x < 1u32 << e,
            e <= 5,
    ;
}

proof fn lemma_dist_extra(dist: int)
    requires
        1 <= dist <= WINDOW,
    ensures
        0 <= dist_slot(dist) <= 29,
        DIST_BASE@[dist_slot(dist)] <= dist,
        DIST_EXTRA@[dist_slot(dist)] <= 13,
        ((dist - DIST_BASE@[dist_slot(dist)]) as u32) >> (DIST_EXTRA@[dist_slot(dist)] as u32) == 0,
{
    lemma_slot(DIST_BASE@, dist, 29);
    lemma_powers();
    let s = dist_slot(dist);
    let e = DIST_EXTRA@[s] as u32;
    let x = (dist - DIST_BASE@[s]) as u32;
    assert(x < 1u32 << e);
    assert(x >> e == 0) by (bit_vector)
        requires
            x < 1u32 << e,
            e <= 13,
    ;
}

/// A literal is read back.
proof fn lemma_inflate_literal(b: u8, rest: Seq<bool>, out: Seq<u8>)
    ensures
        inflated(token_bits(Token::Literal(b)) + rest, out) == inflated(rest, out.push(b)),
{
    let bits = token_bits(Token::Literal(b)) + rest;
    lemma_read_symbol(b as u32, rest);
    assert(bits.skip(code_size(b as u32)) =~= rest);
}

/// A match is read back.
#[verifier::rlimit(30)]
proof fn lemma_inflate_copy(len: int, dist: int, rest: Seq<bool>, out: Seq<u8>)
    requires
        3 <= len <= 258,
        1 <= dist <= WINDOW,
        dist <= out.len(),
    ensures
        inflated(token_bits(Token::Copy { len, dist }) + rest, out) == inflated(rest, copied(out, len, dist)),
{
    lemma_len_extra(len);
    lemma_dist_extra(dist);
    let sym = (257 + len_slot(len)) as u32;
    let le = LEN_EXTRA@[len_slot(len)] as u32;
    let lv = (len - LEN_BASE@[len_slot(len)]) as u32;
    let ds = dist_slot(dist) as u32;
    let de = DIST_EXTRA@[dist_slot(dist)] as u32;
    let dv = (dist - DIST_BASE@[dist_slot(dist)]) as u32;
    let bits = token_bits(Token::Copy { len, dist }) + rest;
    let a4 = low_bits(dv, de as int) + rest;
    let a3 = high_first(ds, 5) + a4;
    let a2 = low_bits(lv, le as int) + a3;
    assert(bits =~= symbol_bits(sym) + a2);
    lemma_read_symbol(sym, a2);
    assert((symbol_bits(sym) + a2).skip(code_size(sym)) =~= a2);
    lemma_low_value(lv, le, a3);
    assert(a2.skip(le as int) =~= a3);
    assert(ds >> 5 == 0) by (bit_vector)
        requires
            ds <= 29,
    ;
    assert(ds >> 0u32 == ds) by (bit_vector);
    lemma_high_value(ds, 5, a4, 5);
    assert(a3.skip(5) =~= a4);
    lemma_low_value(dv, de, rest);
    assert(a4.skip(de as int) =~= rest);
}

/// The block of an input is read back, from any position on.
proof fn lemma_inflate_tokens(input: Seq<u8>, i: int, tail: Seq<bool>)
    requires
        0 <= i <= input.len(),
    ensures
        inflated(tokens_bits(tokens_from(input, i)) + symbol_bits(256) + tail, input.take(i)) == Some(
            (input, tail),
        ),
    decreases input.len() - i,
{
    let ts = tokens_from(input, i);
    let bits = tokens_bits(ts) + symbol_bits(256) + tail;
    if i >= input.len() {
        assert(input.take(i) =~= input);
        assert(bits =~= symbol_bits(256) + tail);
        lemma_read_symbol(256, tail);
        assert(bits.skip(7) =~= tail);
    } else {
        lemma_match_at(input, i);
        lemma_tokens_expand(input, i);
        let (len, dist) = match_at(input, i);
        let i1 = if len >= MATCH_MIN {
            i + len
        } else {
            i + 1
        };
        let rest = tokens_bits(tokens_from(input, i1)) + symbol_bits(256) + tail;
        assert(ts.drop_first() =~= tokens_from(input, i1));
        assert(bits =~= token_bits(ts[0]) + rest);
        lemma_inflate_tokens(input, i1, tail);
        if len >= MATCH_MIN {
            lemma_inflate_copy(len, dist, rest, input.take(i));
            lemma_copy_step(input, i);
        } else {
            lemma_inflate_literal(input[i], rest, input.take(i));
            assert(input.take(i).push(input[i]) =~= input.take(i + 1));
        }
    }
}

/// The match at `i` appends the bytes that follow.
proof fn lemma_copy_step(input: Seq<u8>, i: int)
    requires
        0 <= i < input.len(),
        match_at(input, i).0 >= MATCH_MIN,
    ensures
        copied(input.take(i), match_at(input, i).0, match_at(input, i).1) == input.take(i + match_at(input, i).0),
{
    lemma_match_at(input, i);
    crate::lz77::lemma_copied(input, i, match_at(input, i).0, match_at(input, i).1);
}

/// What a client unpacks from a compressed body is the body: the member that
/// the compressor writes for `input` means `input`.
pub proof fn law_gzip_round_trip(input: Seq<u8>)
    ensures
        gunzipped(gzip_member(input)) == Some(input),
{
    let m = gzip_member(input);
    let block = block_bits(input);
    let pk = packed(block);
    assert(m.subrange(10, m.len() - 8) =~= pk);
    assert(m.take(4) =~= seq![0x1Fu8, 0x8Bu8, 0x08u8, 0x00u8]);
    lemma_packed_bits(block);
    let bits = bits_of(pk);
    assert(bits == padded(block));
    assert(bit(1, 0) && !bit(1, 1)) by {
        assert((1u32 >> 0u32) & 1 == 1 && (1u32 >> 1u32) & 1 == 0) by (bit_vector);
    }
    let tail = padded(block).skip(block.len() as int);
    let body = tokens_bits(tokens_from(input, 0)) + symbol_bits(256) + tail;
    assert(bits =~= low_bits(1, 1) + low_bits(1, 2) + body);
    assert(bits.skip(1) =~= low_bits(1, 2) + body);
    assert(1u32 >> 2 == 0) by (bit_vector);
    lemma_low_value(1, 2, body);
    assert(bits.skip(3) =~= body);
    lemma_inflate_tokens(input, 0, tail);
    assert(input.take(0) =~= Seq::<u8>::empty());
    assert(m.subrange(m.len() - 8, m.len() - 4) =~= le32(crc32_of(input) as int));
    assert(m.subrange(m.len() - 4, m.len() as int) =~= le32(input.len() as int));
}

} // verus!
