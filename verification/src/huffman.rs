//! The fixed Huffman code of DEFLATE (RFC 1951, 3.2.6) and its length and
//! distance tables (3.2.5).
use vstd::prelude::*;

use crate::bitio::{bit, high_first, low_bits, BitW};

verus! {

pub const LEN_BASE: [u16; 29] = [
    3, 4, 5, 6, 7, 8, 9, 10, 11, 13, 15, 17, 19, 23, 27, 31, 35, 43, 51, 59, 67, 83, 99, 115, 131, 163, 195,
    227, 258,
];

pub const LEN_EXTRA: [u8; 29] = [
    0, 0, 0, 0, 0, 0, 0, 0, 1, 1, 1, 1, 2, 2, 2, 2, 3, 3, 3, 3, 4, 4, 4, 4, 5, 5, 5, 5, 0,
];

pub const DIST_BASE: [u16; 30] = [
    1, 2, 3, 4, 5, 7, 9, 13, 17, 25, 33, 49, 65, 97, 129, 193, 257, 385, 513, 769, 1025, 1537, 2049, 3073,
    4097, 6145, 8193, 12289, 16385, 24577,
];

pub const DIST_EXTRA: [u8; 30] = [
    0, 0, 0, 0, 1, 1, 2, 2, 3, 3, 4, 4, 5, 5, 6, 6, 7, 7, 8, 8, 9, 9, 10, 10, 11, 11, 12, 12, 13, 13,
];

/// The last of the slots `0..=k` whose base is at most `x`; slot 0 if none is.
pub open spec fn slot(base: Seq<u16>, x: int, k: int) -> int
    decreases k,
{
    if k <= 0 || base[k] <= x {
        k
    } else {
        slot(base, x, k - 1)
    }
}

pub open spec fn len_slot(len: int) -> int {
    slot(LEN_BASE@, len, 28)
}

pub open spec fn dist_slot(dist: int) -> int {
    slot(DIST_BASE@, dist, 29)
}

/// The code word of a literal or length symbol, most significant bit first.
pub open spec fn code_word(sym: u32) -> u32 {
    if sym <= 143 {
        (0x30 + sym) as u32
    } else if sym <= 255 {
        (0x190 + (sym - 144)) as u32
    } else if sym <= 279 {
        (sym - 256) as u32
    } else {
        (0xC0 + (sym - 280)) as u32
    }
}

/// How many bits that code word has.
pub open spec fn code_size(sym: u32) -> int {
    if sym <= 143 {
        8
    } else if sym <= 255 {
        9
    } else if sym <= 279 {
        7
    } else {
        8
    }
}

/// The bits of a literal or length symbol, as they stand in the stream.
pub open spec fn symbol_bits(sym: u32) -> Seq<bool> {
    high_first(code_word(sym), code_size(sym))
}

pub open spec fn increasing(s: Seq<u16>) -> bool {
    forall|i: int, j: int| 0 <= i < j < s.len() ==> s[i] < s[j]
}

proof fn lemma_slot_is(base: Seq<u16>, x: int, k: int, i: int)
    requires
        0 <= i <= k < base.len(),
        i == 0 || base[i] <= x,
        forall|j: int| i < j <= k ==> base[j] > x,
    ensures
        slot(base, x, k) == i,
    decreases k,
{
    if k > i {
        lemma_slot_is(base, x, k - 1, i);
    }
}

proof fn lemma_increasing_steps(s: Seq<u16>)
    requires
        forall|i: int| #![trigger s[i]] 0 <= i < s.len() - 1 ==> s[i] < s[i + 1],
    ensures
        increasing(s),
{
    assert forall|i: int, j: int| 0 <= i < j < s.len() implies s[i] < s[j] by {
        lemma_increasing_between(s, i, j);
    }
}

proof fn lemma_increasing_between(s: Seq<u16>, i: int, j: int)
    requires
        forall|i: int| #![trigger s[i]] 0 <= i < s.len() - 1 ==> s[i] < s[i + 1],
        0 <= i < j < s.len(),
    ensures
        s[i] < s[j],
    decreases j - i,
{
    if i + 1 < j {
        lemma_increasing_between(s, i + 1, j);
    }
    assert(s[i] < s[i + 1]);
}

pub proof fn lemma_tables_increase()
    ensures
        increasing(LEN_BASE@),
        increasing(DIST_BASE@),
{
    assert forall|i: int| #![trigger LEN_BASE@[i]] 0 <= i < LEN_BASE@.len() - 1 implies LEN_BASE@[i] < LEN_BASE@[i
        + 1] by {}
    lemma_increasing_steps(LEN_BASE@);
    assert forall|i: int| #![trigger DIST_BASE@[i]] 0 <= i < DIST_BASE@.len() - 1 implies DIST_BASE@[i] < DIST_BASE@[i
        + 1] by {}
    lemma_increasing_steps(DIST_BASE@);
}

/// The slot of a value: its base is the last that the value reaches.
pub proof fn lemma_slot(base: Seq<u16>, x: int, k: int)
    requires
        0 <= k < base.len(),
        base[0] <= x,
    ensures
        0 <= slot(base, x, k) <= k,
        base[slot(base, x, k)] <= x,
        slot(base, x, k) < k ==> x < base[slot(base, x, k) + 1],
    decreases k,
{
    if k > 0 && base[k] > x {
        lemma_slot(base, x, k - 1);
    }
}

/// `v` with its low `n` bits in the opposite order, and nothing above them; `v` has
/// zeros above its 32 bits, and what would come to stand above 32 bits is lost.
pub open spec fn reversed(r: u32, v: u32, n: int) -> bool {
    forall|i: int| 0 <= i < 32 ==> #[trigger] bit(r, i) == (i < n && n - 1 - i < 32 && bit(v, n - 1 - i))
}

/// Reverses the low `n` bits.
pub fn rev_bits(v: u32, n: u32) -> (r: u32)
    ensures
        reversed(r, v, n as int),
        n <= 32 ==> low_bits(r, n as int) == high_first(v, n as int),
{
    let mut r: u32 = 0;
    let mut x: u32 = v;
    let mut k: u32 = 0;
    proof {
        assert(v >> 0u32 == v) by (bit_vector);
        assert forall|i: int| 0 <= i < 32 implies #[trigger] bit(0, i) == false by {
            let j = i as u32;
            assert((0u32 >> j) & 1 == 0) by (bit_vector);
        }
    }
    while k < n
        invariant
            k <= n,
            x == (if k < 32 {
                v >> k
            } else {
                0
            }),
            reversed(r, v, k as int),
        decreases n - k,
    {
        let ghost r0 = r;
        let ghost x0 = x;
        r = (r << 1) | (x & 1);
        x = x >> 1;
        proof {
            assert(k < 31 ==> (v >> k) >> 1 == v >> ((k + 1) as u32)) by (bit_vector);
            assert((v >> 31u32) >> 1 == 0 && 0u32 >> 1 == 0 && 0u32 & 1 == 0) by (bit_vector);
            assert forall|i: int| 0 <= i < 32 implies #[trigger] bit(r, i) == (i < k + 1 && k - i < 32 && bit(
                v,
                k - i,
            )) by {
                let j = i as u32;
                assert((r >> j) & 1 == (if j == 0 {
                    x0 & 1
                } else {
                    (r0 >> ((j - 1) as u32)) & 1
                })) by (bit_vector)
                    requires
                        r == (r0 << 1) | (x0 & 1),
                        j < 32,
                ;
                if i > 0 {
                    assert(bit(r0, i - 1) == (i - 1 < k && k - i < 32 && bit(v, k - 1 - (i - 1))));
                }
            }
        }
        k = k + 1;
    }
    assert(n <= 32 ==> low_bits(r, n as int) =~= high_first(v, n as int));
    r
}

/// Code word and size of a literal or length symbol.
pub fn lit_code(sym: u32) -> (r: (u32, u32))
    ensures
        r.0 == code_word(sym),
        r.1 == code_size(sym),
{
    if sym <= 143 {
        (0x30 + sym, 8)
    } else if sym <= 255 {
        (0x190 + (sym - 144), 9)
    } else if sym <= 279 {
        (sym - 256, 7)
    } else {
        (0xC0 + (sym - 280), 8)
    }
}

/// Symbol, number of extra bits and their value, for a match length.
pub fn len_code(len: u32) -> (r: (u32, u32, u32))
    requires
        len >= 3,
    ensures
        r.0 == 257 + len_slot(len as int),
        r.1 == LEN_EXTRA@[len_slot(len as int)],
        r.2 == len - LEN_BASE@[len_slot(len as int)],
        r.0 <= 285,
        r.1 <= 5,
{
    let mut i: usize = 0;
    while i + 1 < 29 && (LEN_BASE[i + 1] as u32) <= len
        invariant
            i < 29,
            LEN_BASE@[i as int] <= len,
        ensures
            i < 29,
            LEN_BASE@[i as int] <= len,
            i < 28 ==> LEN_BASE@[i + 1] > len,
        decreases 29 - i,
    {
        i += 1;
    }
    proof {
        lemma_tables_increase();
        assert forall|j: int| i < j <= 28 implies LEN_BASE@[j] > len by {
            if j > i + 1 {
                assert(LEN_BASE@[i + 1] < LEN_BASE@[j]);
            }
        }
        lemma_slot_is(LEN_BASE@, len as int, 28, i as int);
    }
    (257 + i as u32, LEN_EXTRA[i] as u32, len - LEN_BASE[i] as u32)
}

/// Symbol, number of extra bits and their value, for a match distance.
pub fn dist_code(dist: u32) -> (r: (u32, u32, u32))
    requires
        dist >= 1,
    ensures
        r.0 == dist_slot(dist as int),
        r.1 == DIST_EXTRA@[dist_slot(dist as int)],
        r.2 == dist - DIST_BASE@[dist_slot(dist as int)],
        r.0 <= 29,
        r.1 <= 13,
{
    let mut i: usize = 0;
    while i + 1 < 30 && (DIST_BASE[i + 1] as u32) <= dist
        invariant
            i < 30,
            DIST_BASE@[i as int] <= dist,
        ensures
            i < 30,
            DIST_BASE@[i as int] <= dist,
            i < 29 ==> DIST_BASE@[i + 1] > dist,
        decreases 30 - i,
    {
        i += 1;
    }
    proof {
        lemma_tables_increase();
        assert forall|j: int| i < j <= 29 implies DIST_BASE@[j] > dist by {
            if j > i + 1 {
                assert(DIST_BASE@[i + 1] < DIST_BASE@[j]);
            }
        }
        lemma_slot_is(DIST_BASE@, dist as int, 29, i as int);
    }
    (i as u32, DIST_EXTRA[i] as u32, dist - DIST_BASE[i] as u32)
}

/// Writes the code word of a symbol.
pub fn emit_lit(w: &mut BitW, sym: u32)
    requires
        old(w).wf(),
        old(w).nbits < 32,
    ensures
        final(w).wf(),
        final(w).stream() == old(w).stream() + symbol_bits(sym),
        final(w).nbits <= old(w).nbits + 9,
        final(w).out@.len() == old(w).out@.len(),
        final(w).pos >= old(w).pos,
        forall|k: int| final(w).pos <= k < final(w).out@.len() ==> final(w).out@[k] == old(w).out@[k],
        final(final(w).out)@ == final(old(w).out)@,
{
    let (c, n) = lit_code(sym);
    let v: u32 = rev_bits(c, n);
    w.bits(v, n);
}

// ---- laws -------------------------------------------------------------------

/// Two to the power of `k`.
pub open spec fn power2(k: int) -> int
    decreases k,
{
    if k <= 0 {
        1
    } else {
        2 * power2(k - 1)
    }
}

/// The lengths that a match can have, from 3 to 258: each code starts where the one
/// before it ends, and takes one more extra bit than it after every fourth, from
/// the ninth code on. The longest has a code of its own.
pub proof fn law_length_codes(i: int)
    requires
        0 <= i < 28,
    ensures
        LEN_BASE@[0] == 3,
        LEN_EXTRA@[i] == (if i < 8 {
            0
        } else {
            (i - 4) / 4
        }),
        i < 27 ==> LEN_BASE@[i + 1] == LEN_BASE@[i] + power2(LEN_EXTRA@[i] as int),
        LEN_BASE@[27] + power2(LEN_EXTRA@[27] as int) == 259,
        LEN_BASE@[28] == 258,
        LEN_EXTRA@[28] == 0,
{
    reveal_with_fuel(power2, 6);
}

/// The distances that a match can reach back, from 1 to 32768: each code starts where
/// the one before it ends, and takes one more extra bit than it after every second,
/// from the fifth code on.
pub proof fn law_distance_codes(i: int)
    requires
        0 <= i < 30,
    ensures
        DIST_BASE@[0] == 1,
        DIST_EXTRA@[i] == (if i < 4 {
            0
        } else {
            (i - 2) / 2
        }),
        i < 29 ==> DIST_BASE@[i + 1] == DIST_BASE@[i] + power2(DIST_EXTRA@[i] as int),
        DIST_BASE@[29] + power2(DIST_EXTRA@[29] as int) == 32769,
{
    reveal_with_fuel(power2, 14);
}

/// The fixed code: 24 words of seven bits for the symbols 256 to 279, 152 of eight for
/// 0 to 143 and 280 to 287, 112 of nine for 144 to 255. Words of one length follow
/// one another, and each length starts where the shorter ones leave off.
pub proof fn law_fixed_code(sym: u32)
    requires
        sym <= 287,
    ensures
        256 <= sym <= 279 ==> code_size(sym) == 7 && code_word(sym) == sym - 256,
        sym <= 143 ==> code_size(sym) == 8 && code_word(sym) == 2 * 24 + sym,
        280 <= sym ==> code_size(sym) == 8 && code_word(sym) == 2 * 24 + 144 + (sym - 280),
        144 <= sym <= 255 ==> code_size(sym) == 9 && code_word(sym) == 2 * (2 * 24 + 152) + (sym - 144),
{
}

} // verus!
