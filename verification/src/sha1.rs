//! SHA-1, which the WebSocket handshake needs.
use vstd::prelude::*;
use vstd::slice::slice_subrange;

use crate::buf::copy_bytes;

verus! {

// ---- SHA-1 ------------------------------------------------------------------

/// Five words of chaining state.
pub struct Words {
    pub a: u32,
    pub b: u32,
    pub c: u32,
    pub d: u32,
    pub e: u32,
}

/// `x` rotated left by `n` bits.
pub open spec fn rotated(x: u32, n: u32) -> u32 {
    (x << n) | (x >> ((32 - n) as u32))
}

/// Word `i` of a block, most significant byte first.
pub open spec fn block_word(block: Seq<u8>, i: int) -> u32 {
    ((block[4 * i] as u32) << 24u32) | ((block[4 * i + 1] as u32) << 16u32) | ((block[4 * i + 2] as u32) << 8u32) | (
    block[4 * i + 3] as u32)
}

/// Word `t` of the message schedule.
pub open spec fn schedule(block: Seq<u8>, t: int) -> u32
    decreases t,
{
    if t < 16 {
        block_word(block, t)
    } else {
        rotated(
            schedule(block, t - 3) ^ schedule(block, t - 8) ^ schedule(block, t - 14) ^ schedule(block, t - 16),
            1,
        )
    }
}

/// The mixing function of round `t`.
pub open spec fn mixed(t: int, b: u32, c: u32, d: u32) -> u32 {
    if t < 20 {
        (b & c) | (!b & d)
    } else if t < 40 {
        b ^ c ^ d
    } else if t < 60 {
        (b & c) | (b & d) | (c & d)
    } else {
        b ^ c ^ d
    }
}

/// The constant of round `t`.
pub open spec fn round_constant(t: int) -> u32 {
    if t < 20 {
        0x5A827999
    } else if t < 40 {
        0x6ED9EBA1
    } else if t < 60 {
        0x8F1BBCDC
    } else {
        0xCA62C1D6
    }
}

/// One round on schedule word `w`.
pub open spec fn round(h: Words, t: int, w: u32) -> Words {
    Words {
        a: rotated(h.a, 5).wrapping_add(mixed(t, h.b, h.c, h.d)).wrapping_add(h.e).wrapping_add(
            round_constant(t),
        ).wrapping_add(w),
        b: h.a,
        c: rotated(h.b, 30),
        d: h.c,
        e: h.d,
    }
}

/// The first `t` rounds on a block.
pub open spec fn rounds(h: Words, block: Seq<u8>, t: int) -> Words
    decreases t,
{
    if t <= 0 {
        h
    } else {
        round(rounds(h, block, t - 1), t - 1, schedule(block, t - 1))
    }
}

/// The chaining state behind a block.
pub open spec fn compressed(h: Words, block: Seq<u8>) -> Words {
    let r = rounds(h, block, 80);
    Words {
        a: h.a.wrapping_add(r.a),
        b: h.b.wrapping_add(r.b),
        c: h.c.wrapping_add(r.c),
        d: h.d.wrapping_add(r.d),
        e: h.e.wrapping_add(r.e),
    }
}

/// The state before the first block.
pub open spec fn first_words() -> Words {
    Words { a: 0x67452301, b: 0xEFCDAB89, c: 0x98BADCFE, d: 0x10325476, e: 0xC3D2E1F0 }
}

/// The state behind the first `k` blocks of `s`.
pub open spec fn absorbed(s: Seq<u8>, k: int) -> Words
    decreases k,
{
    if k <= 0 {
        first_words()
    } else {
        compressed(absorbed(s, k - 1), s.subrange(64 * (k - 1), 64 * k))
    }
}

/// A 64-bit number as eight bytes, most significant first.
pub open spec fn be64(v: u64) -> Seq<u8> {
    Seq::new(8, |j: int| (v >> ((8 * (7 - j)) as u64)) as u8)
}

/// Length of the padded message: the next multiple of 64 with room for nine more
/// bytes.
pub open spec fn padded_len(n: int) -> int {
    ((n + 9 + 63) / 64) * 64
}

/// The message, a one bit, zeros, and its length in bits.
pub open spec fn padded_message(msg: Seq<u8>) -> Seq<u8> {
    msg + seq![0x80u8] + Seq::new((padded_len(msg.len() as int) - msg.len() - 9) as nat, |i: int| 0u8) + be64(
        (msg.len() as u64).wrapping_mul(8),
    )
}

/// A word as four bytes, most significant first.
pub open spec fn be32(v: u32) -> Seq<u8> {
    seq![(v >> 24u32) as u8, (v >> 16u32) as u8, (v >> 8u32) as u8, v as u8]
}

/// The digest of a message.
pub open spec fn sha1_of(msg: Seq<u8>) -> Seq<u8> {
    let p = padded_message(msg);
    let h = absorbed(p, p.len() as int / 64);
    be32(h.a) + be32(h.b) + be32(h.c) + be32(h.d) + be32(h.e)
}

/// The words in an array.
pub open spec fn words_of(h: Seq<u32>) -> Words {
    Words { a: h[0], b: h[1], c: h[2], d: h[3], e: h[4] }
}

fn rotate(x: u32, n: u32) -> (r: u32)
    requires
        0 < n < 32,
    ensures
        r == rotated(x, n),
{
    (x << n) | (x >> (32 - n))
}

/// Mixes a block into the chaining state.
pub fn sha1_block(block: &[u8], h: &mut [u32; 5])
    requires
        block@.len() == 64,
    ensures
        words_of(final(h)@) == compressed(words_of(old(h)@), block@),
{
    let mut w: [u32; 80] = [0u32; 80];
    let mut i: usize = 0;
    while i < 16
        invariant
            i <= 16,
            block@.len() == 64,
            forall|j: int| 0 <= j < i ==> w@[j] == schedule(block@, j),
        decreases 16 - i,
    {
        w[i] = ((block[4 * i] as u32) << 24u32) | ((block[4 * i + 1] as u32) << 16u32) | ((block[4 * i + 2] as u32)
            << 8u32) | (block[4 * i + 3] as u32);
        i += 1;
    }
    while i < 80
        invariant
            16 <= i <= 80,
            forall|j: int| 0 <= j < i ==> w@[j] == schedule(block@, j),
        decreases 80 - i,
    {
        w[i] = rotate(w[i - 3] ^ w[i - 8] ^ w[i - 14] ^ w[i - 16], 1);
        i += 1;
    }
    let mut a: u32 = h[0];
    let mut b: u32 = h[1];
    let mut c: u32 = h[2];
    let mut d: u32 = h[3];
    let mut e: u32 = h[4];
    let mut t: usize = 0;
    while t < 80
        invariant
            t <= 80,
            forall|j: int| 0 <= j < 80 ==> w@[j] == schedule(block@, j),
            (Words { a, b, c, d, e }) == rounds(words_of(h@), block@, t as int),
        decreases 80 - t,
    {
        let f: u32 = if t < 20 {
            (b & c) | (!b & d)
        } else if t < 40 {
            b ^ c ^ d
        } else if t < 60 {
            (b & c) | (b & d) | (c & d)
        } else {
            b ^ c ^ d
        };
        let k: u32 = if t < 20 {
            0x5A827999
        } else if t < 40 {
            0x6ED9EBA1
        } else if t < 60 {
            0x8F1BBCDC
        } else {
            0xCA62C1D6
        };
        let tmp: u32 = rotate(a, 5).wrapping_add(f).wrapping_add(e).wrapping_add(k).wrapping_add(w[t]);
        e = d;
        d = c;
        c = rotate(b, 30);
        b = a;
        a = tmp;
        t += 1;
    }
    h[0] = h[0].wrapping_add(a);
    h[1] = h[1].wrapping_add(b);
    h[2] = h[2].wrapping_add(c);
    h[3] = h[3].wrapping_add(d);
    h[4] = h[4].wrapping_add(e);
}

/// Blocks are those of any sequence that starts the same way.
proof fn lemma_absorbed_prefix(s: Seq<u8>, u: Seq<u8>, k: int)
    requires
        0 <= 64 * k <= s.len(),
        64 * k <= u.len(),
        s.take(64 * k) == u.take(64 * k),
    ensures
        absorbed(s, k) == absorbed(u, k),
    decreases k,
{
    if k > 0 {
        assert(s.take(64 * (k - 1)) =~= s.take(64 * k).take(64 * (k - 1)));
        assert(u.take(64 * (k - 1)) =~= u.take(64 * k).take(64 * (k - 1)));
        lemma_absorbed_prefix(s, u, k - 1);
        assert(s.subrange(64 * (k - 1), 64 * k) =~= s.take(64 * k).skip(64 * (k - 1)));
        assert(u.subrange(64 * (k - 1), 64 * k) =~= u.take(64 * k).skip(64 * (k - 1)));
    }
}

/// Computes the digest of a message.
pub fn sha1(msg: &[u8], out: &mut [u8; 20])
    ensures
        final(out)@ == sha1_of(msg@),
{
    let mut h: [u32; 5] = [0x67452301, 0xEFCDAB89, 0x98BADCFE, 0x10325476, 0xC3D2E1F0];
    let whole: usize = msg.len() / 64;
    let mut k: usize = 0;
    assert(words_of(h@) == absorbed(msg@, 0));
    while k < whole
        invariant
            k <= whole,
            whole == msg@.len() / 64,
            words_of(h@) == absorbed(msg@, k as int),
        decreases whole - k,
    {
        assert(64 * k + 64 <= msg.len());
        sha1_block(slice_subrange(msg, 64 * k, 64 * k + 64), &mut h);
        k += 1;
        assert(msg@.subrange(64 * (k - 1), 64 * k as int) =~= msg@.subrange(64 * (k - 1), 64 * (k - 1) + 64));
    }
    let ghost p = padded_message(msg@);
    let start: usize = 64 * whole;
    let rlen: usize = msg.len() - start;
    let mut pad: [u8; 128] = [0u8; 128];
    copy_bytes(&mut pad, 0, slice_subrange(msg, start, msg.len()));
    pad[rlen] = 0x80;
    let total: usize = ((rlen + 9 + 63) / 64) * 64;
    let bits: u64 = (msg.len() as u64).wrapping_mul(8);
    let mut i: u64 = 0;
    while i < 8
        invariant
            i <= 8,
            rlen + 9 <= total <= 128,
            rlen < 64,
            rlen == msg@.len() - start,
            forall|j: int| 0 <= j < rlen ==> pad@[j] == msg@[start + j],
            pad@[rlen as int] == 0x80,
            forall|j: int| rlen < j < total - i ==> pad@[j] == 0,
            forall|j: int| 8 - i <= j < 8 ==> #[trigger] pad@[total - 8 + j] == be64(bits)[j],
        decreases 8 - i,
    {
        let ghost p0 = pad@;
        pad[total - 1 - i as usize] = (bits >> (8 * i)) as u8;
        proof {
            assert(be64(bits)[7 - i] == (bits >> ((8 * i) as u64)) as u8);
            assert forall|j: int| 8 - (i + 1) <= j < 8 implies #[trigger] pad@[total - 8 + j] == be64(bits)[j] by {
                if j > 7 - i {
                    assert(p0[total - 8 + j] == be64(bits)[j]);
                }
            }
        }
        i += 1;
    }
    proof {
        assert(padded_len(msg@.len() as int) == start + total);
        assert(pad@.take(total as int) =~= p.skip(start as int)) by {
            assert forall|j: int| 0 <= j < total implies pad@[j] == p[start + j] by {
                if j >= total - 8 {
                    assert(pad@[total - 8 + (j - (total - 8))] == be64(bits)[j - (total - 8)]);
                }
            }
        }
        assert(p.take(start as int) =~= msg@.take(start as int));
        lemma_absorbed_prefix(msg@, p, whole as int);
    }
    let mut off: usize = 0;
    let ghost mut done: int = 0;
    while off < total
        invariant
            off <= total <= 128,
            off == 64 * done,
            total % 64 == 0,
            start == 64 * whole,
            p.len() == start + total,
            pad@.take(total as int) == p.skip(start as int),
            words_of(h@) == absorbed(p, whole + done),
        decreases total - off,
    {
        sha1_block(slice_subrange(&pad, off, off + 64), &mut h);
        proof {
            assert(pad@.subrange(off as int, off + 64) =~= p.subrange(64 * (whole + done), 64 * (whole + done + 1))) by {
                assert(pad@.subrange(off as int, off + 64) =~= pad@.take(total as int).subrange(off as int, off + 64));
                assert(p.skip(start as int).subrange(off as int, off + 64) =~= p.subrange(start + off, start + off + 64));
            }
            done = done + 1;
        }
        off += 64;
    }
    assert(p.len() as int / 64 == whole + done);
    i = 0;
    let ghost digest = sha1_of(msg@);
    while i < 5
        invariant
            i <= 5,
            forall|j: int| 0 <= j < 4 * i ==> out@[j] == #[trigger] digest[j],
            digest == be32(h@[0]) + be32(h@[1]) + be32(h@[2]) + be32(h@[3]) + be32(h@[4]),
        decreases 5 - i,
    {
        let n: usize = i as usize;
        let v: u32 = h[n];
        out[4 * n] = (v >> 24u32) as u8;
        out[4 * n + 1] = (v >> 16u32) as u8;
        out[4 * n + 2] = (v >> 8u32) as u8;
        out[4 * n + 3] = v as u8;
        i += 1;
    }
    assert(out@ =~= digest);
}

// ---- laws -------------------------------------------------------------------

/// What bytes stand for as a number, most significant first.
pub open spec fn number_of(s: Seq<u8>) -> nat
    decreases s.len(),
{
    if s.len() == 0 {
        0
    } else {
        number_of(s.drop_last()) * 256 + s.last() as nat
    }
}

proof fn lemma_number_of_four(v: u32)
    ensures
        number_of(be32(v)) == v,
        be32(v).len() == 4,
{
    let s = be32(v);
    let s3 = s.drop_last();
    let s2 = s3.drop_last();
    let s1 = s2.drop_last();
    assert(s1.drop_last() =~= Seq::<u8>::empty());
    assert(number_of(s1.drop_last()) == 0);
    assert(((((v >> 24u32) as u8) * 256 + ((v >> 16u32) as u8)) * 256 + ((v >> 8u32) as u8)) * 256 + (v as u8) == v)
        by (bit_vector);
    let (a, b, c, d) = ((v >> 24u32) as u8, (v >> 16u32) as u8, (v >> 8u32) as u8, v as u8);
    assert(number_of(s1) == a);
    assert(number_of(s2) == a * 256 + b);
    assert(number_of(s3) == (a * 256 + b) * 256 + c);
    assert(number_of(s) == ((a * 256 + b) * 256 + c) * 256 + d);
}

/// The bytes of a 64-bit number from the `j`-th on stand for what is left of it.
proof fn lemma_number_of_eight(v: u64, k: nat)
    requires
        k <= 8,
    ensures
        number_of(be64(v).take(k as int)) == (if k == 0 {
            0
        } else {
            (v >> ((8 * (8 - k)) as u64)) as int
        }),
    decreases k,
{
    let s = be64(v).take(k as int);
    if k > 0 {
        lemma_number_of_eight(v, (k - 1) as nat);
        assert(s.drop_last() =~= be64(v).take(k - 1));
        let sh = (8 * (8 - k)) as u64;
        assert(s.last() == (v >> sh) as u8);
        let up = (sh + 8) as u64;
        assert((sh == 56 ==> v >> sh == ((v >> sh) as u8)) && (sh < 56 ==> v >> sh == (v >> up) * 256 + ((v >> sh)
            as u8))) by (bit_vector)
            requires
                sh <= 56,
                up == sh + 8,
        ;
    }
}

/// A message is padded to whole blocks of 64 bytes: it stands in front, unchanged,
/// then come a byte 0x80 and fewer than 64 zeros, and the last eight bytes are its
/// length in bits.
pub proof fn law_padding(msg: Seq<u8>)
    requires
        msg.len() < 0x1000_0000_0000_0000,
    ensures
        ({
            let p = padded_message(msg);
            let n = msg.len() as int;
            &&& p.len() % 64 == 0
            &&& n + 9 <= p.len() < n + 73
            &&& p.take(n) == msg
            &&& p[n] == 0x80
            &&& forall|i: int| n < i < p.len() - 8 ==> #[trigger] p[i] == 0
            &&& number_of(p.skip(p.len() - 8)) == 8 * n
        }),
{
    let p = padded_message(msg);
    let n = msg.len() as int;
    let bits = (msg.len() as u64).wrapping_mul(8);
    assert(p.take(n) =~= msg);
    assert(p.skip(p.len() - 8) =~= be64(bits));
    assert(be64(bits).take(8) =~= be64(bits));
    lemma_number_of_eight(bits, 8);
    assert(bits == 8 * n);
    assert(bits >> 0u64 == bits) by (bit_vector);
}

/// The digest is the chaining state behind the last block of the padded message,
/// its five words one after the other. Each block is mixed into the state behind
/// the blocks before it, whatever follows it.
pub proof fn law_digest(msg: Seq<u8>, a: Seq<u8>, block: Seq<u8>, t: Seq<u8>, k: nat)
    requires
        a.len() == 64 * k,
        block.len() == 64,
    ensures
        ({
            let p = padded_message(msg);
            let d = sha1_of(msg);
            let h = absorbed(p, p.len() as int / 64);
            &&& d.len() == 20
            &&& number_of(d.subrange(0, 4)) == h.a
            &&& number_of(d.subrange(4, 8)) == h.b
            &&& number_of(d.subrange(8, 12)) == h.c
            &&& number_of(d.subrange(12, 16)) == h.d
            &&& number_of(d.subrange(16, 20)) == h.e
        }),
        absorbed(t, 0) == first_words(),
        absorbed(a + block + t, k as int + 1) == compressed(absorbed(a, k as int), block),
{
    let p = padded_message(msg);
    let d = sha1_of(msg);
    let h = absorbed(p, p.len() as int / 64);
    lemma_number_of_four(h.a);
    lemma_number_of_four(h.b);
    lemma_number_of_four(h.c);
    lemma_number_of_four(h.d);
    lemma_number_of_four(h.e);
    assert(d.subrange(0, 4) =~= be32(h.a));
    assert(d.subrange(4, 8) =~= be32(h.b));
    assert(d.subrange(8, 12) =~= be32(h.c));
    assert(d.subrange(12, 16) =~= be32(h.d));
    assert(d.subrange(16, 20) =~= be32(h.e));
    let s = a + block + t;
    let i = 64 * (k as int);
    assert(s.take(i) =~= a.take(i));
    lemma_absorbed_prefix(s, a, k as int);
    assert(s.subrange(64 * (k as int), 64 * (k as int + 1)) =~= block);
}

} // verus!
