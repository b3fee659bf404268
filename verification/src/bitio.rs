//! Bit streams: the least-significant-bit-first packing that DEFLATE uses, and
//! the writer that produces it over a fixed buffer.
use vstd::prelude::*;

verus! {

/// Bit `i` of `v`, counted from the least significant.
pub open spec fn bit(v: u32, i: int) -> bool {
    (v >> (i as u32)) & 1 == 1
}

/// Bit `i` of a byte.
pub open spec fn bit8(b: u8, i: int) -> bool {
    bit(b as u32, i)
}

/// The low `n` bits of `v`, least significant first.
pub open spec fn low_bits(v: u32, n: int) -> Seq<bool> {
    Seq::new(n as nat, |i: int| bit(v, i))
}

/// The low `n` bits of `v`, most significant first.
pub open spec fn high_first(v: u32, n: int) -> Seq<bool> {
    Seq::new(n as nat, |i: int| bit(v, n - 1 - i))
}

/// The bits that a string of bytes holds, each byte least significant bit
/// first.
pub open spec fn bits_of(s: Seq<u8>) -> Seq<bool> {
    Seq::new(8 * s.len(), |k: int| bit8(s[k / 8], k % 8))
}

/// `s` filled up with zeros to a whole number of bytes.
pub open spec fn padded(s: Seq<bool>) -> Seq<bool> {
    s + Seq::new(((8 - s.len() % 8) % 8) as nat, |i: int| false)
}

/// The byte whose bits are `s[8 * k]` and the seven that follow; what lies
/// past the end counts as zero.
pub open spec fn byte_at(s: Seq<bool>, k: int) -> u8 {
    byte_of(
        taken(s, 8 * k),
        taken(s, 8 * k + 1),
        taken(s, 8 * k + 2),
        taken(s, 8 * k + 3),
        taken(s, 8 * k + 4),
        taken(s, 8 * k + 5),
        taken(s, 8 * k + 6),
        taken(s, 8 * k + 7),
    )
}

pub open spec fn taken(s: Seq<bool>, i: int) -> bool {
    i < s.len() && s[i]
}

pub open spec fn byte_of(b0: bool, b1: bool, b2: bool, b3: bool, b4: bool, b5: bool, b6: bool, b7: bool) -> u8 {
    (if b0 { 1u8 } else { 0u8 }) | (if b1 { 2u8 } else { 0u8 }) | (if b2 { 4u8 } else { 0u8 }) | (if b3 {
        8u8
    } else {
        0u8
    }) | (if b4 { 16u8 } else { 0u8 }) | (if b5 { 32u8 } else { 0u8 }) | (if b6 { 64u8 } else { 0u8 }) | (if b7 {
        128u8
    } else {
        0u8
    })
}

/// The bytes that hold the bits `s`, filled up with zeros.
pub open spec fn packed(s: Seq<bool>) -> Seq<u8> {
    Seq::new(((s.len() + 7) / 8) as nat, |k: int| byte_at(s, k))
}

proof fn lemma_byte_of_bits(
    b0: bool,
    b1: bool,
    b2: bool,
    b3: bool,
    b4: bool,
    b5: bool,
    b6: bool,
    b7: bool,
)
    ensures
        ({
            let v = byte_of(b0, b1, b2, b3, b4, b5, b6, b7) as u32;
            &&& bit(v, 0) == b0
            &&& bit(v, 1) == b1
            &&& bit(v, 2) == b2
            &&& bit(v, 3) == b3
            &&& bit(v, 4) == b4
            &&& bit(v, 5) == b5
            &&& bit(v, 6) == b6
            &&& bit(v, 7) == b7
        }),
{
    let v: u8 = byte_of(b0, b1, b2, b3, b4, b5, b6, b7);
    assert({
        &&& (v as u32 >> 0u32) & 1 == 1 <==> b0
        &&& (v as u32 >> 1u32) & 1 == 1 <==> b1
        &&& (v as u32 >> 2u32) & 1 == 1 <==> b2
        &&& (v as u32 >> 3u32) & 1 == 1 <==> b3
        &&& (v as u32 >> 4u32) & 1 == 1 <==> b4
        &&& (v as u32 >> 5u32) & 1 == 1 <==> b5
        &&& (v as u32 >> 6u32) & 1 == 1 <==> b6
        &&& (v as u32 >> 7u32) & 1 == 1 <==> b7
    }) by (bit_vector)
        requires
            v == (if b0 { 1u8 } else { 0u8 }) | (if b1 { 2u8 } else { 0u8 }) | (if b2 { 4u8 } else { 0u8 }) | (
            if b3 { 8u8 } else { 0u8 }) | (if b4 { 16u8 } else { 0u8 }) | (if b5 { 32u8 } else { 0u8 }) | (if b6 {
                64u8
            } else {
                0u8
            }) | (if b7 { 128u8 } else { 0u8 }),
    ;
}

/// A byte is known by its bits.
proof fn lemma_byte_from_bits(x: u8, y: u8)
    requires
        forall|i: int| 0 <= i < 8 ==> bit8(x, i) == bit8(y, i),
    ensures
        x == y,
{
    assert(bit8(x, 0) == bit8(y, 0));
    assert(bit8(x, 1) == bit8(y, 1));
    assert(bit8(x, 2) == bit8(y, 2));
    assert(bit8(x, 3) == bit8(y, 3));
    assert(bit8(x, 4) == bit8(y, 4));
    assert(bit8(x, 5) == bit8(y, 5));
    assert(bit8(x, 6) == bit8(y, 6));
    assert(bit8(x, 7) == bit8(y, 7));
    assert(x == y) by (bit_vector)
        requires
            ((x as u32 >> 0u32) & 1 == 1) == ((y as u32 >> 0u32) & 1 == 1),
            ((x as u32 >> 1u32) & 1 == 1) == ((y as u32 >> 1u32) & 1 == 1),
            ((x as u32 >> 2u32) & 1 == 1) == ((y as u32 >> 2u32) & 1 == 1),
            ((x as u32 >> 3u32) & 1 == 1) == ((y as u32 >> 3u32) & 1 == 1),
            ((x as u32 >> 4u32) & 1 == 1) == ((y as u32 >> 4u32) & 1 == 1),
            ((x as u32 >> 5u32) & 1 == 1) == ((y as u32 >> 5u32) & 1 == 1),
            ((x as u32 >> 6u32) & 1 == 1) == ((y as u32 >> 6u32) & 1 == 1),
            ((x as u32 >> 7u32) & 1 == 1) == ((y as u32 >> 7u32) & 1 == 1),
    ;
}

/// Packing keeps the bits: the packed bytes hold them, then zeros.
pub proof fn lemma_packed_bits(s: Seq<bool>)
    ensures
        bits_of(packed(s)) == padded(s),
{
    let b = packed(s);
    let p = padded(s);
    assert(8 * b.len() == p.len());
    assert forall|k: int| 0 <= k < p.len() implies bits_of(b)[k] == p[k] by {
        let q = k / 8;
        lemma_byte_of_bits(
            taken(s, 8 * q),
            taken(s, 8 * q + 1),
            taken(s, 8 * q + 2),
            taken(s, 8 * q + 3),
            taken(s, 8 * q + 4),
            taken(s, 8 * q + 5),
            taken(s, 8 * q + 6),
            taken(s, 8 * q + 7),
        );
        assert(bits_of(b)[k] == bit8(b[q], k % 8));
        assert(bits_of(b)[k] == taken(s, k));
    }
    assert(bits_of(b) =~= p);
}

/// Bytes are known by the bits they hold.
pub proof fn lemma_bits_injective(a: Seq<u8>, b: Seq<u8>)
    requires
        bits_of(a) == bits_of(b),
    ensures
        a == b,
{
    assert(bits_of(a).len() == 8 * a.len() && bits_of(b).len() == 8 * b.len());
    assert forall|k: int| 0 <= k < a.len() implies a[k] == b[k] by {
        assert forall|i: int| 0 <= i < 8 implies bit8(a[k], i) == bit8(b[k], i) by {
            let m = 8 * k + i;
            assert(m / 8 == k && m % 8 == i);
            assert(bits_of(a)[m] == bit8(a[m / 8], m % 8));
            assert(bits_of(b)[m] == bit8(b[m / 8], m % 8));
        }
        lemma_byte_from_bits(a[k], b[k]);
    }
    assert(a =~= b);
}

proof fn lemma_merge(acc: u32, value: u32, n: u32, c: u32)
    requires
        n < 8,
        c <= 13,
        acc < 1u32 << n,
    ensures
        ({
            let m = acc | ((value & ((1u32 << c) - 1) as u32) << n);
            &&& low_bits(m, n + c) == low_bits(acc, n as int) + low_bits(value, c as int)
            &&& m < 1u32 << ((n + c) as u32)
        }),
{
    let m = acc | ((value & ((1u32 << c) - 1) as u32) << n);
    assert forall|j: int| 0 <= j < n + c implies bit(m, j) == (low_bits(acc, n as int) + low_bits(
        value,
        c as int,
    ))[j] by {
        let i = j as u32;
        assert((i < n ==> (m >> i) & 1 == (acc >> i) & 1) && (i >= n ==> (m >> i) & 1 == (value >> ((i
            - n) as u32)) & 1)) by (bit_vector)
            requires
                n < 8,
                c <= 13,
                acc < 1u32 << n,
                m == acc | ((value & ((1u32 << c) - 1) as u32) << n),
                i < n + c,
        ;
    }
    assert(m < 1u32 << ((n + c) as u32)) by (bit_vector)
        requires
            n < 8,
            c <= 13,
            acc < 1u32 << n,
            m == acc | ((value & ((1u32 << c) - 1) as u32) << n),
    ;
    assert(low_bits(m, n + c) =~= low_bits(acc, n as int) + low_bits(value, c as int));
}

/// The low byte leaves, the rest moves down.
proof fn lemma_shift_out(acc: u32, n: u32)
    requires
        8 <= n <= 20,
        acc < 1u32 << n,
    ensures
        low_bits(acc, n as int) == bits_of(seq![acc as u8]) + low_bits(acc >> 8, n - 8),
        acc >> 8 < 1u32 << ((n - 8) as u32),
{
    let b = acc as u8;
    let r = acc >> 8;
    assert forall|j: int| 0 <= j < n implies bit(acc, j) == (bits_of(seq![b]) + low_bits(r, n - 8))[j] by {
        let i = j as u32;
        assert((i < 8 ==> (b as u32 >> i) & 1 == (acc >> i) & 1) && (8 <= i < 32 ==> (r >> ((i - 8) as u32)) & 1 == (
        acc >> i) & 1)) by (bit_vector)
            requires
                b == acc as u8,
                r == acc >> 8,
        ;
        if j < 8 {
            assert(bits_of(seq![b])[j] == bit8(b, j));
        }
    }
    assert(r < 1u32 << ((n - 8) as u32)) by (bit_vector)
        requires
            8 <= n <= 20,
            acc < 1u32 << n,
            r == acc >> 8,
    ;
    assert(low_bits(acc, n as int) =~= bits_of(seq![b]) + low_bits(r, n - 8));
}

/// The last byte of a stream: fewer than eight bits, then zeros.
proof fn lemma_last_byte(acc: u32, n: u32)
    requires
        0 < n < 8,
        acc < 1u32 << n,
    ensures
        bits_of(seq![acc as u8]) == padded(low_bits(acc, n as int)),
{
    let b = acc as u8;
    let p = padded(low_bits(acc, n as int));
    assert forall|j: int| 0 <= j < 8 implies bits_of(seq![b])[j] == p[j] by {
        let i = j as u32;
        assert((i < 8 ==> (b as u32 >> i) & 1 == (acc >> i) & 1) && (n <= i < 8 ==> (acc >> i) & 1 == 0)) by (bit_vector)
            requires
                b == acc as u8,
                n < 8,
                acc < 1u32 << n,
        ;
        assert(bits_of(seq![b])[j] == bit8(b, j));
    }
    assert(bits_of(seq![b]) =~= p);
}

/// One more byte holds eight more bits.
proof fn lemma_bits_push(s: Seq<u8>, b: u8)
    ensures
        bits_of(s.push(b)) == bits_of(s) + bits_of(seq![b]),
{
    let l = bits_of(s.push(b));
    let r = bits_of(s) + bits_of(seq![b]);
    assert forall|k: int| 0 <= k < l.len() implies l[k] == r[k] by {
        if k >= 8 * s.len() {
            assert(k / 8 == s.len());
            assert((k - 8 * s.len()) / 8 == 0);
            assert(k % 8 == (k - 8 * s.len()) % 8);
        }
    }
    assert(l =~= r);
}

/// A bit writer over a fixed buffer. Bits collect in `acc` until a byte is
/// full; `ok` turns false when a full byte finds no room.
pub struct BitW<'a> {
    pub out: &'a mut [u8],
    pub pos: usize,
    /// Pending bits, least significant first.
    pub acc: u32,
    /// How many are pending.
    pub nbits: u32,
    pub ok: bool,
    /// Every bit that was ever handed in.
    pub log: Ghost<Seq<bool>>,
}

impl<'a> BitW<'a> {
    pub open spec fn stream(&self) -> Seq<bool> {
        self.log@
    }

    pub open spec fn wf(&self) -> bool {
        &&& self.pos <= self.out@.len()
        &&& self.ok == (self.stream().len() / 8 <= self.out@.len())
        &&& self.ok ==> {
            &&& self.nbits < 8
            &&& self.acc < 1u32 << self.nbits
            &&& self.stream().len() == 8 * self.pos + self.nbits
            &&& self.stream() == bits_of(self.out@.take(self.pos as int)) + low_bits(self.acc, self.nbits as int)
        }
        &&& !self.ok ==> self.pos == self.out@.len()
    }

    pub fn new(out: &'a mut [u8]) -> (w: BitW<'a>)
        ensures
            w.wf(),
            w.stream() == Seq::<bool>::empty(),
            w.nbits == 0,
            w.out@ == old(out)@,
            final(w.out)@ == final(out)@,
    {
        let w = BitW { out, pos: 0, acc: 0, nbits: 0, ok: true, log: Ghost(Seq::<bool>::empty()) };
        proof {
            assert(0u32 < 1u32 << 0u32) by (bit_vector);
            assert(bits_of(w.out@.take(0)) + low_bits(0, 0) =~= Seq::<bool>::empty());
        }
        w
    }

    /// Appends the low `count` bits of `value`.
    pub fn bits(&mut self, value: u32, count: u32)
        requires
            old(self).wf(),
            count <= 13,
            old(self).nbits < 32,
        ensures
            final(self).wf(),
            final(self).stream() == old(self).stream() + low_bits(value, count as int),
            final(self).nbits <= old(self).nbits + count,
            final(self).out@.len() == old(self).out@.len(),
            final(self).pos >= old(self).pos,
            forall|k: int|
                final(self).pos <= k < final(self).out@.len() ==> final(self).out@[k] == old(self).out@[k],
            final(final(self).out)@ == final(old(self).out)@,
    {
        let ghost log = self.log@ + low_bits(value, count as int);
        let ghost was_ok = self.ok;
        proof {
            let c = count;
            assert(1u32 << c >= 1) by (bit_vector)
                requires
                    c <= 13,
            ;
            if self.ok {
                lemma_merge(self.acc, value, self.nbits, count);
            }
        }
        let mask: u32 = (1u32 << count) - 1;
        self.acc = self.acc | ((value & mask) << self.nbits);
        self.nbits = self.nbits + count;
        self.log = Ghost(log);
        proof {
            if was_ok {
                let done = bits_of(self.out@.take(self.pos as int));
                assert(log =~= done + low_bits(self.acc, self.nbits as int));
            }
        }
        while self.nbits >= 8
            invariant
                self.log@ == log,
                self.nbits <= old(self).nbits + count,
                self.out@.len() == old(self).out@.len(),
                old(self).pos <= self.pos <= self.out@.len(),
                forall|k: int| self.pos <= k < self.out@.len() ==> self.out@[k] == old(self).out@[k],
                final(self.out)@ == final(old(self).out)@,
                log == old(self).stream() + low_bits(value, count as int),
                log.len() == old(self).stream().len() + count,
                was_ok == old(self).ok,
                self.ok == was_ok,
                was_ok ==> {
                    &&& self.nbits <= 20
                    &&& self.acc < 1u32 << self.nbits
                    &&& log.len() == 8 * self.pos + self.nbits
                    &&& log == bits_of(self.out@.take(self.pos as int)) + low_bits(self.acc, self.nbits as int)
                },
                !was_ok ==> self.pos == self.out@.len() && old(self).stream().len() / 8 > self.out@.len(),
            decreases self.nbits,
        {
            if self.pos >= self.out.len() {
                self.ok = false;
                return;
            }
            let ghost o0 = self.out@;
            let b: u8 = #[verifier::truncate] (self.acc as u8);
            proof {
                lemma_shift_out(self.acc, self.nbits);
                lemma_bits_push(o0.take(self.pos as int), b);
            }
            self.out[self.pos] = b;
            proof {
                assert(self.out@.take(self.pos + 1) =~= o0.take(self.pos as int).push(b));
                assert(log =~= bits_of(self.out@.take(self.pos + 1)) + low_bits(self.acc >> 8, self.nbits - 8));
            }
            self.pos = self.pos + 1;
            self.acc = self.acc >> 8;
            self.nbits = self.nbits - 8;
        }
    }

    /// Writes out a last, partly filled byte.
    pub fn flush(&mut self)
        requires
            old(self).wf(),
        ensures
            final(self).wf(),
            final(self).stream() == padded(old(self).stream()),
            final(self).out@.len() == old(self).out@.len(),
            final(self).ok ==> final(self).nbits == 0,
            final(self).pos >= old(self).pos,
            forall|k: int|
                final(self).pos <= k < final(self).out@.len() ==> final(self).out@[k] == old(self).out@[k],
            final(final(self).out)@ == final(old(self).out)@,
    {
        let ghost log = padded(self.log@);
        let ghost l0 = self.log@;
        self.log = Ghost(log);
        if self.nbits > 0 {
            if self.pos >= self.out.len() {
                self.ok = false;
                return;
            }
            let ghost o0 = self.out@;
            let b: u8 = #[verifier::truncate] (self.acc as u8);
            proof {
                lemma_last_byte(self.acc, self.nbits);
                lemma_bits_push(o0.take(self.pos as int), b);
            }
            self.out[self.pos] = b;
            proof {
                assert(self.out@.take(self.pos + 1) =~= o0.take(self.pos as int).push(b));
                assert(l0.len() % 8 == self.nbits);
                assert(log =~= bits_of(o0.take(self.pos as int)) + padded(low_bits(self.acc, self.nbits as int)));
                assert(0u32 < 1u32 << 0u32) by (bit_vector);
                assert(log =~= bits_of(self.out@.take(self.pos + 1)) + low_bits(0, 0));
            }
            self.pos = self.pos + 1;
            self.acc = 0;
            self.nbits = 0;
        } else {
            assert(self.ok ==> log =~= l0);
        }
    }
}

} // verus!
