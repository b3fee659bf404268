//! Fixed buffers: a writer over a borrowed byte buffer that never grows, and
//! the numbers it prints.
use vstd::prelude::*;
use vstd::string::*;

use crate::bytes::{all_digits, digits_value, is_digit, number_upto, text, ZERO};

verus! {

/// Largest request head that is buffered.
pub const READ_CAP: usize = 8192;

/// Largest request body that is accepted.
pub const BODY_CAP: usize = 4096;

/// Most header fields per request.
pub const HDR_MAX: usize = 32;

/// Room for a response head.
pub const RESP_HEAD_CAP: usize = 512;

/// Room for a response body.
pub const RESP_BODY_CAP: usize = 4096;

/// A byte writer over a fixed buffer. What does not fit is dropped, and
/// `overflow` says that something was.
pub struct Out<'b> {
    pub buf: &'b mut [u8],
    pub len: usize,
    pub overflow: bool,
    /// Everything that was ever pushed, whether it fitted or not.
    pub log: Ghost<Seq<u8>>,
}

/// `s` cut to its first `cap` bytes.
pub open spec fn cut(s: Seq<u8>, cap: int) -> Seq<u8> {
    if s.len() <= cap {
        s
    } else {
        s.take(cap)
    }
}

/// Writes `src` over the bytes of `dst` from `at` on.
pub fn copy_bytes(dst: &mut [u8], at: usize, src: &[u8])
    requires
        at + src@.len() <= old(dst)@.len(),
    ensures
        final(dst)@ == old(dst)@.take(at as int) + src@ + old(dst)@.skip(at + src@.len()),
{
    let ghost whole = dst@;
    let mut i: usize = 0;
    assert(whole.take(at as int) + src@.take(0) + whole.skip(at as int) =~= whole);
    while i < src.len()
        invariant
            i <= src@.len(),
            at + src@.len() <= whole.len(),
            whole.len() == dst@.len(),
            dst@ == whole.take(at as int) + src@.take(i as int) + whole.skip(at + i),
        decreases src@.len() - i,
    {
        assert(at + i < dst.len());
        let ghost d0 = dst@;
        dst[at + i] = src[i];
        proof {
            assert(dst@ =~= whole.take(at as int) + src@.take(i + 1) + whole.skip(at + i + 1));
        }
        i += 1;
    }
    assert(src@.take(i as int) =~= src@);
}

/// What is left of two buffers to be written one after the other, once `n` bytes
/// of them have been.
pub fn unwritten<'a>(a: &'a [u8], b: &'a [u8], n: usize) -> (r: (&'a [u8], &'a [u8]))
    ensures
        n <= a@.len() + b@.len() ==> r.0@ + r.1@ == (a@ + b@).skip(n as int),
        n > a@.len() + b@.len() ==> r.0@.len() == 0 && r.1@.len() == 0,
        n >= a@.len() ==> r.0@.len() == 0,
{
    let from_a: usize = if n < a.len() {
        n
    } else {
        a.len()
    };
    let left: usize = n - from_a;
    let from_b: usize = if left < b.len() {
        left
    } else {
        b.len()
    };
    let r = (
        vstd::slice::slice_subrange(a, from_a, a.len()),
        vstd::slice::slice_subrange(b, from_b, b.len()),
    );
    assert(n <= a@.len() + b@.len() ==> r.0@ + r.1@ =~= (a@ + b@).skip(n as int));
    r
}

/// Concatenation may be regrouped to the left.
pub broadcast proof fn lemma_concat_left(a: Seq<u8>, b: Seq<u8>, c: Seq<u8>)
    ensures
        #[trigger] (a + (b + c)) == (a + b) + c,
{
    assert(a + (b + c) =~= (a + b) + c);
}

impl<'b> Out<'b> {
    /// Everything that was pushed so far.
    pub open spec fn pushed(&self) -> Seq<u8> {
        self.log@
    }

    pub open spec fn capacity(&self) -> int {
        self.buf@.len() as int
    }

    /// What the buffer holds: the pushed bytes, cut to the capacity.
    pub open spec fn written(&self) -> Seq<u8> {
        cut(self.pushed(), self.capacity())
    }

    /// The buffer starts with the written bytes, and the flag says whether any
    /// byte was dropped.
    pub open spec fn wf(&self) -> bool {
        &&& self.len <= self.buf@.len()
        &&& self.buf@.take(self.len as int) == self.written()
        &&& self.overflow == (self.pushed().len() > self.capacity())
    }

    /// An empty writer over `buf`.
    pub fn new(buf: &'b mut [u8]) -> (o: Out<'b>)
        ensures
            o.wf(),
            o.pushed() == Seq::<u8>::empty(),
            o.buf@ == old(buf)@,
            final(o.buf)@ == final(buf)@,
    {
        let o = Out { buf, len: 0, overflow: false, log: Ghost(Seq::<u8>::empty()) };
        assert(o.buf@.take(0) =~= Seq::<u8>::empty());
        o
    }

    /// Appends as many of `bytes` as fit.
    pub fn push(&mut self, bytes: &[u8])
        requires
            old(self).wf(),
        ensures
            final(self).wf(),
            final(self).pushed() == old(self).pushed() + bytes@,
            final(self).capacity() == old(self).capacity(),
            forall|i: int|
                final(self).len <= i < old(self).buf@.len() ==> #[trigger] final(self).buf@[i] == old(self).buf@[i],
            final(final(self).buf)@ == final(old(self).buf)@,
    {
        let ghost was = self.written();
        let ghost log = self.log@ + bytes@;
        let space: usize = self.buf.len() - self.len;
        let take: usize = if bytes.len() < space {
            bytes.len()
        } else {
            space
        };
        let start: usize = self.len;
        let mut i: usize = 0;
        while i < take
            invariant
                i <= take,
                take <= bytes@.len(),
                start + take <= self.buf@.len(),
                self.buf@.len() == old(self).buf@.len(),
                self.len == start,
                self.overflow == old(self).overflow,
                self.log@ == old(self).log@,
                was.len() == start,
                self.buf@.take(start + i) == was + bytes@.take(i as int),
                forall|j: int| start + i <= j < old(self).buf@.len() ==> self.buf@[j] == old(self).buf@[j],
                final(self.buf)@ == final(old(self).buf)@,
            decreases take - i,
        {
            let ghost b0 = self.buf@;
            assert(start + i < self.buf.len());
            self.buf[start + i] = bytes[i];
            assert(self.buf@.take(start + i + 1) =~= b0.take(start + i).push(bytes@[i as int]));
            assert(bytes@.take(i + 1) =~= bytes@.take(i as int).push(bytes@[i as int]));
            assert(was + bytes@.take(i + 1) =~= (was + bytes@.take(i as int)).push(bytes@[i as int]));
            i += 1;
        }
        self.len = start + take;
        if take < bytes.len() {
            self.overflow = true;
        }
        self.log = Ghost(log);
        proof {
            if old(self).overflow {
                assert(take == 0);
                assert(cut(log, self.capacity()) =~= was);
                assert(was + bytes@.take(0) =~= was);
            } else {
                assert(was == old(self).log@);
                assert(cut(log, self.capacity()) =~= was + bytes@.take(take as int));
            }
        }
    }

    pub fn push_str(&mut self, s: &str)
        requires
            old(self).wf(),
        ensures
            final(self).wf(),
            final(self).pushed() == old(self).pushed() + text(s),
            final(self).capacity() == old(self).capacity(),
            forall|i: int|
                final(self).len <= i < old(self).buf@.len() ==> #[trigger] final(self).buf@[i] == old(self).buf@[i],
            final(final(self).buf)@ == final(old(self).buf)@,
    {
        self.push(s.as_bytes());
    }

    /// Appends one byte.
    pub fn push_byte(&mut self, b: u8)
        requires
            old(self).wf(),
        ensures
            final(self).wf(),
            final(self).pushed() == old(self).pushed() + seq![b],
            final(self).capacity() == old(self).capacity(),
            forall|i: int|
                final(self).len <= i < old(self).buf@.len() ==> #[trigger] final(self).buf@[i] == old(self).buf@[i],
            final(final(self).buf)@ == final(old(self).buf)@,
    {
        let one: [u8; 1] = [b];
        assert(one@ =~= seq![b]);
        self.push(&one);
    }

    /// Appends the decimal digits of `v`.
    pub fn push_u64(&mut self, v: u64)
        requires
            old(self).wf(),
        ensures
            final(self).wf(),
            final(self).pushed() == old(self).pushed() + decimal(v as nat),
            final(self).capacity() == old(self).capacity(),
            forall|i: int|
                final(self).len <= i < old(self).buf@.len() ==> #[trigger] final(self).buf@[i] == old(self).buf@[i],
            final(final(self).buf)@ == final(old(self).buf)@,
    {
        let mut tmp: [u8; 20] = [0u8; 20];
        let mut n: usize = 0;
        let mut x: u64 = v;
        if v == 0 {
            tmp[0] = ZERO;
            n = 1;
            assert(backwards(tmp@, 1) =~= decimal(0));
        } else {
            assert(digits_above(v as nat) + backwards(tmp@, 0) =~= decimal(v as nat));
            proof {
                lemma_decimal_bound();
            }
            while x > 0 && n < 20
                invariant
                    n <= 20,
                    digits_above(x as nat) + backwards(tmp@, n as int) == decimal(v as nat),
                    x < decimal_bound(n as nat),
                    decimal_bound(20) <= 1,
                decreases x,
            {
                let ghost t0 = tmp@;
                let ghost x0 = x;
                tmp[n] = ZERO + (x % 10) as u8;
                x = x / 10;
                n += 1;
                proof {
                    let d = (48 + x0 % 10) as u8;
                    assert(tmp@ == t0.update(n - 1, d));
                    lemma_backwards_step(t0, (n - 1) as int, d);
                    assert(digits_above(x0 as nat) =~= digits_above(x as nat).push(d));
                    assert(digits_above(x as nat) + backwards(tmp@, n as int) =~= digits_above(x0 as nat)
                        + backwards(t0, n - 1));
                }
            }
            assert(digits_above(0) + backwards(tmp@, n as int) =~= backwards(tmp@, n as int));
        }
        push_backwards(self, &tmp, n);
    }

    /// The written bytes.
    pub fn as_slice(&self) -> (r: &[u8])
        requires
            self.wf(),
        ensures
            r@ == self.written(),
    {
        assert(self.buf@.subrange(0, self.len as int) =~= self.buf@.take(self.len as int));
        vstd::slice::slice_subrange(self.buf, 0, self.len)
    }
}

/// The decimal digits of `v`, most significant first, no leading zero.
pub open spec fn decimal(v: nat) -> Seq<u8>
    decreases v,
{
    if v < 10 {
        seq![(48 + v) as u8]
    } else {
        decimal(v / 10).push((48 + v % 10) as u8)
    }
}

/// Powers of ten.
pub open spec fn pow10(k: nat) -> nat
    decreases k,
{
    if k == 0 {
        1
    } else {
        10 * pow10((k - 1) as nat)
    }
}

/// A number below a power of ten has no more digits than that power has zeros.
pub proof fn lemma_decimal_len(v: nat, k: nat)
    requires
        v < pow10(k),
        k > 0,
    ensures
        1 <= decimal(v).len() <= k,
    decreases v,
{
    if v >= 10 {
        if k == 1 {
            assert(pow10(1) == 10 * pow10(0));
        }
        lemma_decimal_len(v / 10, (k - 1) as nat);
    }
}

/// Decimal digits read back as the number that they were printed from, as far as
/// numbers are read at all, and no number but zero starts with a zero.
pub proof fn law_decimal_reads_back(v: nat, max: nat)
    ensures
        number_upto(decimal(v), max) == (if v <= max {
            Some(v)
        } else {
            None
        }),
        v > 0 ==> decimal(v)[0] != 0x30,
{
    lemma_decimal_digits(v);
}

pub proof fn lemma_decimal_digits(v: nat)
    ensures
        decimal(v).len() > 0,
        all_digits(decimal(v)),
        digits_value(decimal(v)) == v,
        v > 0 ==> decimal(v)[0] != 0x30,
    decreases v,
{
    let s = decimal(v);
    if v < 10 {
        assert(s.drop_last() =~= Seq::<u8>::empty());
        assert(digits_value(s.drop_last()) == 0);
    } else {
        lemma_decimal_digits(v / 10);
        assert(s.drop_last() =~= decimal(v / 10));
        assert forall|i: int| 0 <= i < s.len() implies is_digit(#[trigger] s[i]) by {
            if i < s.len() - 1 {
                assert(s[i] == decimal(v / 10)[i]);
            }
        }
    }
}

/// The digits that stand above a position: those of `x`, none when it is zero.
pub open spec fn digits_above(x: nat) -> Seq<u8> {
    if x == 0 {
        Seq::<u8>::empty()
    } else {
        decimal(x)
    }
}

/// The first `n` bytes of `s`, last one first.
pub open spec fn backwards(s: Seq<u8>, n: int) -> Seq<u8> {
    Seq::new(n as nat, |i: int| s[n - 1 - i])
}

/// Strict bound on what is left of a 64-bit number after `k` divisions by ten.
pub open spec fn decimal_bound(k: nat) -> nat
    decreases k,
{
    if k == 0 {
        0x1_0000_0000_0000_0000
    } else {
        decimal_bound((k - 1) as nat) / 10 + 1
    }
}

proof fn lemma_decimal_bound()
    ensures
        decimal_bound(20) <= 1,
{
    reveal_with_fuel(decimal_bound, 21);
}

proof fn lemma_backwards_step(s: Seq<u8>, n: int, d: u8)
    requires
        0 <= n < s.len(),
    ensures
        backwards(s.update(n, d), n + 1) == seq![d] + backwards(s, n),
{
    assert(backwards(s.update(n, d), n + 1) =~= seq![d] + backwards(s, n));
}

/// Appends the first `n` bytes of `tmp`, last one first.
fn push_backwards(o: &mut Out, tmp: &[u8], n: usize)
    requires
        old(o).wf(),
        n <= tmp@.len(),
    ensures
        final(o).wf(),
        final(o).pushed() == old(o).pushed() + backwards(tmp@, n as int),
        final(o).capacity() == old(o).capacity(),
        forall|i: int| final(o).len <= i < old(o).buf@.len() ==> #[trigger] final(o).buf@[i] == old(o).buf@[i],
        final(final(o).buf)@ == final(old(o).buf)@,
{
    let mut k: usize = n;
    assert(old(o).pushed() + backwards(tmp@, n as int).take(0) =~= old(o).pushed());
    while k > 0
        invariant
            k <= n <= tmp@.len(),
            o.wf(),
            o.pushed() == old(o).pushed() + backwards(tmp@, n as int).take(n - k),
            o.capacity() == old(o).capacity(),
            forall|i: int| o.len <= i < old(o).buf@.len() ==> #[trigger] o.buf@[i] == old(o).buf@[i],
            final(o.buf)@ == final(old(o).buf)@,
        decreases k,
    {
        let ghost was = *o;
        k -= 1;
        o.push_byte(tmp[k]);
        proof {
            assert(was.buf@.take(was.len as int).len() <= o.buf@.take(o.len as int).len());
            let b = backwards(tmp@, n as int);
            assert(b.take(n - k) =~= b.take(n - k - 1) + seq![tmp@[k as int]]);
            assert(o.pushed() =~= old(o).pushed() + b.take(n - k));
        }
    }
    assert(backwards(tmp@, n as int).take(n as int) =~= backwards(tmp@, n as int));
}

/// Two digits, for values below one hundred.
pub open spec fn pad2(v: int) -> Seq<u8> {
    seq![((48 + v / 10) % 256) as u8, (48 + v % 10) as u8]
}

/// Four digits, for values below ten thousand.
pub open spec fn pad4(v: int) -> Seq<u8> {
    seq![
        ((48 + v / 1000) % 256) as u8,
        (48 + (v / 100) % 10) as u8,
        (48 + (v / 10) % 10) as u8,
        (48 + v % 10) as u8,
    ]
}

/// A digit byte above a leading value, which wraps past 255.
fn wrapped_digit(v: u64) -> (r: u8)
    ensures
        r == (48 + v) % 256,
{
    let low: u64 = v % 256;
    ZERO.wrapping_add(low as u8)
}

/// Appends `v` as two digits. Above 99 the first byte is no digit any more.
pub fn push2(o: &mut Out, v: u64)
    requires
        old(o).wf(),
    ensures
        final(o).wf(),
        final(o).pushed() == old(o).pushed() + pad2(v as int),
        final(o).capacity() == old(o).capacity(),
        forall|i: int| final(o).len <= i < old(o).buf@.len() ==> #[trigger] final(o).buf@[i] == old(o).buf@[i],
        final(final(o).buf)@ == final(old(o).buf)@,
{
    let d: [u8; 2] = [wrapped_digit(v / 10), ZERO + (v % 10) as u8];
    assert(d@ =~= pad2(v as int));
    o.push(&d);
}

/// Appends `v` as four digits. Above 9999 the first byte is no digit any more.
pub fn push4(o: &mut Out, v: u64)
    requires
        old(o).wf(),
    ensures
        final(o).wf(),
        final(o).pushed() == old(o).pushed() + pad4(v as int),
        final(o).capacity() == old(o).capacity(),
        forall|i: int| final(o).len <= i < old(o).buf@.len() ==> #[trigger] final(o).buf@[i] == old(o).buf@[i],
        final(final(o).buf)@ == final(old(o).buf)@,
{
    let d: [u8; 4] = [
        wrapped_digit(v / 1000),
        ZERO + ((v / 100) % 10) as u8,
        ZERO + ((v / 10) % 10) as u8,
        ZERO + (v % 10) as u8,
    ];
    assert(d@ =~= pad4(v as int));
    o.push(&d);
}

/// The byte that stands for a hexadecimal digit below sixteen.
pub open spec fn hex_digit(d: int) -> u8 {
    if d < 10 {
        (48 + d) as u8
    } else {
        (87 + d) as u8
    }
}

/// The lower-case hexadecimal digits of `v`, no leading zero.
pub open spec fn hex(v: nat) -> Seq<u8>
    decreases v,
{
    if v < 16 {
        seq![hex_digit(v as int)]
    } else {
        hex(v / 16).push(hex_digit((v % 16) as int))
    }
}

pub open spec fn hex_above(x: nat) -> Seq<u8> {
    if x == 0 {
        Seq::<u8>::empty()
    } else {
        hex(x)
    }
}

/// Strict bound on what is left of a 64-bit number after `k` divisions by
/// sixteen.
pub open spec fn hex_bound(k: nat) -> nat
    decreases k,
{
    if k == 0 {
        0x1_0000_0000_0000_0000
    } else {
        hex_bound((k - 1) as nat) / 16
    }
}

proof fn lemma_hex_bound(k: nat)
    requires
        k < 16,
    ensures
        hex_bound(16) == 1,
        hex_bound(k) % 16 == 0,
{
    reveal_with_fuel(hex_bound, 17);
}

/// Appends `v` in lower-case hexadecimal.
pub fn push_hex_u64(o: &mut Out, v: u64)
    requires
        old(o).wf(),
    ensures
        final(o).wf(),
        final(o).pushed() == old(o).pushed() + hex(v as nat),
        final(o).capacity() == old(o).capacity(),
        forall|i: int| final(o).len <= i < old(o).buf@.len() ==> #[trigger] final(o).buf@[i] == old(o).buf@[i],
        final(final(o).buf)@ == final(old(o).buf)@,
{
    let mut tmp: [u8; 16] = [0u8; 16];
    let mut n: usize = 0;
    let mut x: u64 = v;
    if v == 0 {
        tmp[0] = ZERO;
        n = 1;
        assert(backwards(tmp@, 1) =~= hex(0));
    } else {
        assert(hex_above(v as nat) + backwards(tmp@, 0) =~= hex(v as nat));
        proof {
            lemma_hex_bound(0);
        }
        while x > 0 && n < 16
            invariant
                n <= 16,
                hex_above(x as nat) + backwards(tmp@, n as int) == hex(v as nat),
                x < hex_bound(n as nat),
                hex_bound(16) == 1,
            decreases x,
        {
            let ghost t0 = tmp@;
            let ghost x0 = x;
            let d: u8 = (x % 16) as u8;
            let c: u8 = if d < 10 {
                ZERO + d
            } else {
                87 + d
            };
            tmp[n] = c;
            proof {
                lemma_hex_bound(n as nat);
            }
            x = x / 16;
            n += 1;
            proof {
                assert(tmp@ == t0.update(n - 1, c));
                lemma_backwards_step(t0, (n - 1) as int, c);
                assert(hex_above(x0 as nat) =~= hex_above(x as nat).push(c));
                assert(hex_above(x as nat) + backwards(tmp@, n as int) =~= hex_above(x0 as nat)
                    + backwards(t0, n - 1));
            }
        }
        assert(hex_above(0) + backwards(tmp@, n as int) =~= backwards(tmp@, n as int));
    }
    push_backwards(o, &tmp, n);
}

pub fn push_hex_usize(o: &mut Out, v: usize)
    requires
        old(o).wf(),
    ensures
        final(o).wf(),
        final(o).pushed() == old(o).pushed() + hex(v as nat),
        final(o).capacity() == old(o).capacity(),
        forall|i: int| final(o).len <= i < old(o).buf@.len() ==> #[trigger] final(o).buf@[i] == old(o).buf@[i],
        final(final(o).buf)@ == final(old(o).buf)@,
{
    push_hex_u64(o, v as u64);
}

/// Hexadecimal digits are lower case, and no number but zero starts with a zero. One
/// more digit makes a number sixteen times as large, and adds its own worth.
pub proof fn law_hex_digits(v: nat, d: nat)
    requires
        d < 16,
    ensures
        hex(v).len() > 0,
        forall|i: int| 0 <= i < hex(v).len() ==> 0x30 <= #[trigger] hex(v)[i] <= 0x39 || 0x61 <= hex(v)[i] <= 0x66,
        v > 0 ==> hex(v)[0] != 0x30,
        hex(d) == seq![
            if d < 10 {
                (0x30 + d) as u8
            } else {
                (0x57 + d) as u8
            },
        ],
        v > 0 ==> hex(16 * v + d) == hex(v) + hex(d),
    decreases v,
{
    if v >= 16 {
        law_hex_digits(v / 16, d);
        assert forall|i: int| 0 <= i < hex(v).len() implies 0x30 <= #[trigger] hex(v)[i] <= 0x39 || 0x61 <= hex(v)[i]
            <= 0x66 by {
            if i < hex(v).len() - 1 {
                assert(hex(v)[i] == hex(v / 16)[i]);
            }
        }
    }
    if v > 0 {
        let w = 16 * v + d;
        assert(w / 16 == v && w % 16 == d);
        assert(hex(w) =~= hex(v) + hex(d));
    }
}

/// What does not fit is cut off, and nothing else.
pub proof fn law_cut(s: Seq<u8>, t: Seq<u8>)
    ensures
        cut(s, s.len() as int) == s,
        cut(s, (s.len() + t.len()) as int) == s,
        cut(s + t, s.len() as int) == s,
{
    assert((s + t).take(s.len() as int) =~= s);
    assert(t.len() == 0 ==> s + t =~= s);
}

} // verus!
