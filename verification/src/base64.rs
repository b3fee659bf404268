//! Base64 with padding.
use vstd::prelude::*;
use vstd::string::*;

use crate::bytes::{text, EQUALS, SLASH};

verus! {

/// The byte that stands for a value below 64.
pub open spec fn symbol(v: int) -> u8 {
    if v < 26 {
        (0x41 + v) as u8
    } else if v < 52 {
        (0x61 + v - 26) as u8
    } else if v < 62 {
        (0x30 + v - 52) as u8
    } else if v == 62 {
        0x2b
    } else {
        SLASH
    }
}

/// The value that a byte stands for.
pub open spec fn symbol_value(b: u8) -> int {
    if 0x41 <= b <= 0x5a {
        b - 0x41
    } else if 0x61 <= b <= 0x7a {
        b - 0x61 + 26
    } else if 0x30 <= b <= 0x39 {
        b - 0x30 + 52
    } else if b == 0x2b {
        62
    } else {
        63
    }
}

/// Three bytes as one number.
pub open spec fn triple(a: u8, b: u8, c: u8) -> int {
    a * 65536 + b * 256 + c
}

/// Base64 of `s`: four symbols for every three bytes, the last group padded.
pub open spec fn base64(s: Seq<u8>) -> Seq<u8>
    decreases s.len(),
{
    if s.len() == 0 {
        Seq::<u8>::empty()
    } else if s.len() == 1 {
        let n = triple(s[0], 0, 0);
        seq![symbol(n / 262144), symbol((n / 4096) % 64), EQUALS, EQUALS]
    } else if s.len() == 2 {
        let n = triple(s[0], s[1], 0);
        seq![symbol(n / 262144), symbol((n / 4096) % 64), symbol((n / 64) % 64), EQUALS]
    } else {
        let n = triple(s[0], s[1], s[2]);
        seq![symbol(n / 262144), symbol((n / 4096) % 64), symbol((n / 64) % 64), symbol(n % 64)] + base64(s.skip(3))
    }
}

/// What base64 text stands for.
pub open spec fn unbase64(s: Seq<u8>) -> Seq<u8>
    decreases s.len(),
{
    if s.len() < 4 {
        Seq::<u8>::empty()
    } else {
        let n = symbol_value(s[0]) * 262144 + symbol_value(s[1]) * 4096 + (if s[2] == EQUALS {
            0
        } else {
            symbol_value(s[2]) * 64
        }) + (if s[3] == EQUALS {
            0
        } else {
            symbol_value(s[3])
        });
        let a = (n / 65536) as u8;
        let b = ((n / 256) % 256) as u8;
        let c = (n % 256) as u8;
        (if s[2] == EQUALS {
            seq![a]
        } else if s[3] == EQUALS {
            seq![a, b]
        } else {
            seq![a, b, c]
        }) + unbase64(s.skip(4))
    }
}

/// Length of the base64 of `n` bytes.
pub open spec fn base64_len(n: int) -> int {
    ((n + 2) / 3) * 4
}

/// A symbol stands for its value, and is not the padding.
proof fn lemma_symbol(v: int)
    requires
        0 <= v < 64,
    ensures
        symbol_value(symbol(v)) == v,
        symbol(v) != EQUALS,
{
}

/// A number of 24 bits is made of four values below 64.
proof fn lemma_quarters(n: int)
    requires
        0 <= n < 16777216,
    ensures
        0 <= n / 262144 < 64,
        n == (n / 262144) * 262144 + ((n / 4096) % 64) * 4096 + ((n / 64) % 64) * 64 + n % 64,
{
    let q = n / 64;
    let r = q / 64;
    assert(n / 4096 == r);
    assert(n / 262144 == r / 64);
}

/// Three bytes can be read off their number.
proof fn lemma_triple(a: u8, b: u8, c: u8)
    ensures
        0 <= triple(a, b, c) < 16777216,
        triple(a, b, c) / 65536 == a,
        (triple(a, b, c) / 256) % 256 == b,
        triple(a, b, c) % 256 == c,
        c == 0 ==> triple(a, b, c) % 64 == 0,
        b == 0 && c == 0 ==> (triple(a, b, c) / 64) % 64 == 0,
{
}

/// A group of symbols is read back as the bytes it stands for.
proof fn lemma_group(a: u8, b: u8, c: u8)
    ensures
        ({
            let n = triple(a, b, c);
            &&& symbol_value(symbol(n / 262144)) * 262144 + symbol_value(symbol((n / 4096) % 64)) * 4096
                + symbol_value(symbol((n / 64) % 64)) * 64 + symbol_value(symbol(n % 64)) == n
            &&& symbol((n / 64) % 64) != EQUALS
            &&& symbol(n % 64) != EQUALS
        }),
{
    let n = triple(a, b, c);
    lemma_triple(a, b, c);
    lemma_quarters(n);
    lemma_symbol(n / 262144);
    lemma_symbol((n / 4096) % 64);
    lemma_symbol((n / 64) % 64);
    lemma_symbol(n % 64);
}

/// Base64 can be read back.
pub proof fn law_base64_round_trip(s: Seq<u8>)
    ensures
        unbase64(base64(s)) == s,
    decreases s.len(),
{
    let e = base64(s);
    if s.len() == 1 {
        let n = triple(s[0], 0, 0);
        lemma_group(s[0], 0, 0);
        lemma_triple(s[0], 0, 0);
        lemma_symbol(0);
        assert(unbase64(e.skip(4)) =~= Seq::<u8>::empty());
        assert(seq![s[0]] + Seq::<u8>::empty() =~= s);
    } else if s.len() == 2 {
        let n = triple(s[0], s[1], 0);
        lemma_group(s[0], s[1], 0);
        lemma_triple(s[0], s[1], 0);
        lemma_symbol(0);
        assert(unbase64(e.skip(4)) =~= Seq::<u8>::empty());
        assert(seq![s[0], s[1]] + Seq::<u8>::empty() =~= s);
    } else if s.len() >= 3 {
        law_base64_round_trip(s.skip(3));
        lemma_group(s[0], s[1], s[2]);
        lemma_triple(s[0], s[1], s[2]);
        assert(e.skip(4) =~= base64(s.skip(3)));
        assert(seq![s[0], s[1], s[2]] + s.skip(3) =~= s);
    }
}

fn to_symbol(v: u32) -> (r: u8)
    requires
        v < 64,
    ensures
        r == symbol(v as int),
{
    if v < 26 {
        0x41 + v as u8
    } else if v < 52 {
        0x61 + (v - 26) as u8
    } else if v < 62 {
        0x30 + (v - 52) as u8
    } else if v == 62 {
        0x2b
    } else {
        SLASH
    }
}

/// Writes the base64 of `input` to the front of `out` and returns its length.
#[verifier::rlimit(30)]
pub fn base64_encode(input: &[u8], out: &mut [u8]) -> (r: usize)
    requires
        base64_len(input@.len() as int) <= old(out)@.len(),
    ensures
        r == base64_len(input@.len() as int),
        final(out)@.len() == old(out)@.len(),
        final(out)@.take(r as int) == base64(input@),
        final(out)@.skip(r as int) == old(out)@.skip(r as int),
{
    let ghost o0 = out@;
    let mut ip: usize = 0;
    let mut op: usize = 0;
    assert(input@.skip(0) =~= input@);
    assert(out@.take(0) + base64(input@) =~= base64(input@));
    while input.len() - ip >= 3
        invariant
            ip <= input@.len(),
            3 * op == 4 * ip,
            op + base64_len(input@.len() - ip) == base64_len(input@.len() as int),
            base64_len(input@.len() as int) <= out@.len(),
            out@.len() == o0.len(),
            out@.take(op as int) + base64(input@.skip(ip as int)) == base64(input@),
            out@.skip(op as int) == o0.skip(op as int),
        decreases input@.len() - ip,
    {
        let ghost before = out@;
        assert(ip + 3 <= input.len());
        assert(op + 4 <= out.len());
        let n: u32 = input[ip] as u32 * 65536 + input[ip + 1] as u32 * 256 + input[ip + 2] as u32;
        out[op] = to_symbol(n / 262144);
        out[op + 1] = to_symbol((n / 4096) % 64);
        out[op + 2] = to_symbol((n / 64) % 64);
        out[op + 3] = to_symbol(n % 64);
        proof {
            let s = input@.skip(ip as int);
            assert(s.skip(3) =~= input@.skip(ip + 3));
            assert(out@.take(op + 4) + base64(s.skip(3)) =~= before.take(op as int) + base64(s));
            assert(out@.skip(op + 4) =~= before.skip(op as int).skip(4));
            assert(o0.skip(op + 4) =~= o0.skip(op as int).skip(4));
        }
        ip += 3;
        op += 4;
    }
    let rem: usize = input.len() - ip;
    let ghost before = out@;
    let ghost s = input@.skip(ip as int);
    if rem == 1 {
        assert(op + 4 <= out.len());
        let n: u32 = input[ip] as u32 * 65536;
        out[op] = to_symbol(n / 262144);
        out[op + 1] = to_symbol((n / 4096) % 64);
        out[op + 2] = EQUALS;
        out[op + 3] = EQUALS;
        op += 4;
        proof {
            assert(out@.take(op as int) =~= before.take(op - 4) + base64(s));
            assert(out@.skip(op as int) =~= before.skip(op - 4).skip(4));
            assert(o0.skip(op as int) =~= o0.skip(op - 4).skip(4));
        }
    } else if rem == 2 {
        assert(op + 4 <= out.len());
        let n: u32 = input[ip] as u32 * 65536 + input[ip + 1] as u32 * 256;
        out[op] = to_symbol(n / 262144);
        out[op + 1] = to_symbol((n / 4096) % 64);
        out[op + 2] = to_symbol((n / 64) % 64);
        out[op + 3] = EQUALS;
        op += 4;
        proof {
            assert(out@.take(op as int) =~= before.take(op - 4) + base64(s));
            assert(out@.skip(op as int) =~= before.skip(op - 4).skip(4));
            assert(o0.skip(op as int) =~= o0.skip(op - 4).skip(4));
        }
    } else {
        assert(out@.take(op as int) + base64(s) =~= out@.take(op as int));
    }
    op
}

/// Every three bytes become four symbols, and so do the one or two that are left,
/// whose group ends in padding. Symbols come from the alphabet: the capital letters,
/// the small ones, the digits, the plus sign and the slash, in this order.
pub proof fn law_base64_shape(s: Seq<u8>)
    ensures
        base64(s).len() == 4 * ((s.len() + 2) / 3),
        s.len() % 3 == 1 ==> base64(s).len() >= 4 && base64(s).skip(base64(s).len() - 2) == seq![0x3du8, 0x3du8],
        s.len() % 3 == 2 ==> base64(s).len() >= 4 && base64(s).last() == 0x3d && base64(s)[base64(s).len() - 2] != 0x3d,
        s.len() % 3 == 0 && s.len() > 0 ==> base64(s).last() != 0x3d,
    decreases s.len(),
{
    lemma_base64_len(s);
    let e = base64(s);
    if s.len() == 1 {
        assert(e.skip(2) =~= seq![0x3du8, 0x3du8]);
    } else if s.len() == 2 {
        lemma_symbol((triple(s[0], s[1], 0) / 64) % 64);
    } else if s.len() == 3 {
        lemma_symbol(triple(s[0], s[1], s[2]) % 64);
        assert(base64(s.skip(3)) =~= Seq::<u8>::empty());
        assert(e.last() == symbol(triple(s[0], s[1], s[2]) % 64));
    } else if s.len() > 3 {
        let f = base64(s.skip(3));
        law_base64_shape(s.skip(3));
        lemma_base64_len(s.skip(3));
        lemma_base64_end(s);
    }
}

/// The end of a longer text is that of its tail.
proof fn lemma_base64_end(s: Seq<u8>)
    requires
        s.len() > 3,
    ensures
        base64(s.skip(3)).len() >= 4,
        base64(s).last() == base64(s.skip(3)).last(),
        base64(s)[base64(s).len() - 2] == base64(s.skip(3))[base64(s.skip(3)).len() - 2],
        base64(s).skip(base64(s).len() - 2) == base64(s.skip(3)).skip(base64(s.skip(3)).len() - 2),
{
    let f = base64(s.skip(3));
    lemma_base64_len(s.skip(3));
    lemma_group_and_rest(s);
    let e = base64(s);
    assert(e.skip(4) =~= f);
    assert(e.last() == e.skip(4).last());
    assert(e[e.len() - 2] == e.skip(4)[f.len() - 2]);
    assert(e.skip(e.len() - 2) =~= f.skip(f.len() - 2));
}

proof fn lemma_group_and_rest(s: Seq<u8>)
    requires
        s.len() > 2,
    ensures
        base64(s).len() == 4 + base64(s.skip(3)).len(),
        base64(s).skip(4) == base64(s.skip(3)),
{
    assert(base64(s).skip(4) =~= base64(s.skip(3)));
}

proof fn lemma_base64_len(s: Seq<u8>)
    ensures
        base64(s).len() == 4 * ((s.len() + 2) / 3),
    decreases s.len(),
{
    if s.len() > 2 {
        lemma_base64_len(s.skip(3));
        lemma_group_and_rest(s);
    }
}

/// The alphabet.
pub proof fn law_base64_alphabet(v: int)
    requires
        0 <= v < 64,
    ensures
        symbol(v) == text("ABCDEFGHIJKLMNOPQRSTUVWXYZabcdefghijklmnopqrstuvwxyz0123456789+/")[v],
        symbol_value(text("ABCDEFGHIJKLMNOPQRSTUVWXYZabcdefghijklmnopqrstuvwxyz0123456789+/")[v]) == v,
{
    reveal_strlit("ABCDEFGHIJKLMNOPQRSTUVWXYZabcdefghijklmnopqrstuvwxyz0123456789+/");
    is_ascii_spec_bytes("ABCDEFGHIJKLMNOPQRSTUVWXYZabcdefghijklmnopqrstuvwxyz0123456789+/");
}

} // verus!
