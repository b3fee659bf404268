//! String matching for DEFLATE: greedy matches over three-byte hash chains in
//! a 32 KiB window.
use vstd::prelude::*;

use crate::bitio::{high_first, low_bits};
use crate::huffman::{dist_slot, len_slot, symbol_bits, DIST_BASE, DIST_EXTRA, LEN_BASE, LEN_EXTRA};

verus! {

/// Largest input that is compressed.
pub const GZIP_MAX_IN: usize = 65536;

/// How many hash values there are.
pub const HASHES: usize = 8192;

/// How many candidates are tried at one position.
pub const PROBES: u32 = 128;

/// How far back a match may reach.
pub const WINDOW: usize = 32768;

/// Longest match.
pub const MATCH_MAX: u32 = 258;

/// Shortest match that is worth its code.
pub const MATCH_MIN: u32 = 3;

/// One step of a compressed block.
pub enum Token {
    /// The byte itself.
    Literal(u8),
    /// `len` bytes, copied from `dist` bytes back.
    Copy { len: int, dist: int },
}

/// `s` with `len` bytes appended, each taken from `dist` bytes back.
pub open spec fn copied(s: Seq<u8>, len: int, dist: int) -> Seq<u8>
    decreases len,
{
    if len <= 0 {
        s
    } else {
        copied(s.push(s[s.len() - dist]), len - 1, dist)
    }
}

/// What a run of tokens appends to `s`.
pub open spec fn expanded(s: Seq<u8>, tokens: Seq<Token>) -> Seq<u8>
    decreases tokens.len(),
{
    if tokens.len() == 0 {
        s
    } else {
        let t = match tokens[0] {
            Token::Literal(b) => s.push(b),
            Token::Copy { len, dist } => copied(s, len, dist),
        };
        expanded(t, tokens.drop_first())
    }
}

/// The bits of one token.
pub open spec fn token_bits(t: Token) -> Seq<bool> {
    match t {
        Token::Literal(b) => symbol_bits(b as u32),
        Token::Copy { len, dist } => symbol_bits((257 + len_slot(len)) as u32) + low_bits(
            (len - LEN_BASE@[len_slot(len)]) as u32,
            LEN_EXTRA@[len_slot(len)] as int,
        ) + high_first(dist_slot(dist) as u32, 5) + low_bits(
            (dist - DIST_BASE@[dist_slot(dist)]) as u32,
            DIST_EXTRA@[dist_slot(dist)] as int,
        ),
    }
}

/// The bits of a run of tokens.
pub open spec fn tokens_bits(tokens: Seq<Token>) -> Seq<bool>
    decreases tokens.len(),
{
    if tokens.len() == 0 {
        Seq::<bool>::empty()
    } else {
        token_bits(tokens[0]) + tokens_bits(tokens.drop_first())
    }
}

/// Hash of three bytes.
pub open spec fn hash_of(b0: u8, b1: u8, b2: u8) -> u32 {
    (((b0 as u32) << 10) ^ ((b1 as u32) << 5) ^ (b2 as u32)) & 8191
}

/// Hash of the three bytes at `p`.
pub open spec fn hash_at(input: Seq<u8>, p: int) -> int {
    hash_of(input[p], input[p + 1], input[p + 2]) as int
}

/// One more than the last position before `i` that starts three bytes with
/// hash `h`; 0 when there is none.
pub open spec fn newest(input: Seq<u8>, h: int, i: int) -> int
    decreases i,
{
    if i <= 0 {
        0
    } else if i + 2 <= input.len() && hash_at(input, i - 1) == h {
        i
    } else {
        newest(input, h, i - 1)
    }
}

/// The bytes `j` past `p` and `j` past `i` are equal.
pub open spec fn agree_at(input: Seq<u8>, p: int, i: int, j: int) -> bool {
    input[p + j] == input[i + j]
}

/// The first `n` bytes from `p` and from `i` on are equal.
pub open spec fn agree(input: Seq<u8>, p: int, i: int, n: int) -> bool {
    forall|j: int| 0 <= j < n ==> agree_at(input, p, i, j)
}

/// How many bytes agree from `p` and from `i` on, `k` being known to agree; at
/// most the longest match.
pub open spec fn agreement(input: Seq<u8>, p: int, i: int, k: int) -> int
    decreases MATCH_MAX - k,
{
    if k < MATCH_MAX && i + k < input.len() && agree_at(input, p, i, k) {
        agreement(input, p, i, k + 1)
    } else {
        k
    }
}

/// Length and distance of the best match at `i` among `best` and the candidates
/// from `cand` on (one more than a position, 0 for none), newest first: the
/// longest, and of equals the nearest.
pub open spec fn best_from(input: Seq<u8>, i: int, cand: int, probes: int, best: (int, int)) -> (int, int)
    decreases PROBES - probes,
{
    if cand == 0 || probes >= PROBES {
        best
    } else {
        let p = cand - 1;
        let dist = i - p;
        let len = agreement(input, p, i, 0);
        let next = newest(input, hash_at(input, i), p);
        if dist > WINDOW {
            best
        } else if len > best.0 {
            if len == MATCH_MAX {
                (len, dist)
            } else {
                best_from(input, i, next, probes + 1, (len, dist))
            }
        } else {
            best_from(input, i, next, probes + 1, best)
        }
    }
}

/// Length and distance of the match taken at `i`; (0, 0) when nothing matches.
pub open spec fn match_at(input: Seq<u8>, i: int) -> (int, int) {
    if i + 3 <= input.len() {
        best_from(input, i, newest(input, hash_at(input, i), i), 0, (0, 0))
    } else {
        (0, 0)
    }
}

/// The tokens of `input` from `i` on: a match wherever one of at least three
/// bytes is found, a literal elsewhere.
pub open spec fn tokens_from(input: Seq<u8>, i: int) -> Seq<Token>
    decreases
            (if i < input.len() {
                input.len() - i
            } else {
                0
            }),
{
    if i >= input.len() {
        Seq::<Token>::empty()
    } else {
        let (len, dist) = match_at(input, i);
        if len >= MATCH_MIN {
            seq![Token::Copy { len, dist }] + tokens_from(input, i + len)
        } else {
            seq![Token::Literal(input[i])] + tokens_from(input, i + 1)
        }
    }
}

/// A newest position lies before `i`, has room for three bytes and the hash.
pub proof fn lemma_newest(input: Seq<u8>, h: int, i: int)
    requires
        0 <= i,
    ensures
        0 <= newest(input, h, i) <= i,
        newest(input, h, i) > 0 ==> newest(input, h, i) + 2 <= input.len() && hash_at(
            input,
            newest(input, h, i) - 1,
        ) == h,
    decreases i,
{
    if i > 0 {
        lemma_newest(input, h, i - 1);
    }
}

/// Agreement is what it says.
pub proof fn lemma_agreement(input: Seq<u8>, p: int, i: int, k: int)
    requires
        0 <= p < i,
        0 <= k <= MATCH_MAX,
        i + k <= input.len(),
        agree(input, p, i, k),
    ensures
        k <= agreement(input, p, i, k) <= MATCH_MAX,
        i + agreement(input, p, i, k) <= input.len(),
        agree(input, p, i, agreement(input, p, i, k)),
    decreases MATCH_MAX - k,
{
    if k < MATCH_MAX && i + k < input.len() && agree_at(input, p, i, k) {
        lemma_agreement(input, p, i, k + 1);
    }
}

/// A match: within the window, within the input, and really equal.
pub open spec fn is_match(input: Seq<u8>, i: int, m: (int, int)) -> bool {
    &&& 1 <= m.1 <= WINDOW
    &&& m.1 <= i
    &&& 1 <= m.0 <= MATCH_MAX
    &&& i + m.0 <= input.len()
    &&& agree(input, i - m.1, i, m.0)
}

/// The search yields a match or keeps what it was given.
pub proof fn lemma_best_from(input: Seq<u8>, i: int, cand: int, probes: int, best: (int, int))
    requires
        0 <= cand <= i,
        0 <= i,
        i + 3 <= input.len(),
        best == (0int, 0int) || is_match(input, i, best),
    ensures
        ({
            let m = best_from(input, i, cand, probes, best);
            m == (0int, 0int) || is_match(input, i, m)
        }),
    decreases PROBES - probes,
{
    if cand != 0 && probes < PROBES && i - (cand - 1) <= WINDOW {
        let p = cand - 1;
        let dist = i - p;
        lemma_agreement(input, p, i, 0);
        let len = agreement(input, p, i, 0);
        let next = newest(input, hash_at(input, i), p);
        lemma_newest(input, hash_at(input, i), p);
        if len > best.0 {
            assert(is_match(input, i, (len, dist)));
            if len < MATCH_MAX {
                lemma_best_from(input, i, next, probes + 1, (len, dist));
            }
        } else {
            lemma_best_from(input, i, next, probes + 1, best);
        }
    }
}

pub proof fn lemma_match_at(input: Seq<u8>, i: int)
    requires
        0 <= i < input.len(),
    ensures
        match_at(input, i) == (0int, 0int) || is_match(input, i, match_at(input, i)),
{
    if i + 3 <= input.len() {
        lemma_newest(input, hash_at(input, i), i);
        lemma_best_from(input, i, newest(input, hash_at(input, i), i), 0, (0, 0));
    }
}

/// `head` knows the newest position of every hash before `i`.
pub open spec fn heads_upto(input: Seq<u8>, head: Seq<u32>, i: int) -> bool {
    &&& head.len() == HASHES
    &&& forall|h: int| 0 <= h < HASHES ==> #[trigger] head[h] == newest(input, h, i)
}

/// `prev` knows, for every position before `i`, the next older one with the
/// same hash.
pub open spec fn links_upto(input: Seq<u8>, prev: Seq<u32>, i: int) -> bool {
    &&& prev.len() == GZIP_MAX_IN
    &&& forall|p: int|
        0 <= p < i && p + 3 <= input.len() ==> #[trigger] prev[p] == newest(input, hash_at(input, p), p)
}

pub fn hash3(b0: u8, b1: u8, b2: u8) -> (r: usize)
    ensures
        r == hash_of(b0, b1, b2),
        r < HASHES,
{
    let x: u32 = ((b0 as u32) << 10) ^ ((b1 as u32) << 5) ^ (b2 as u32);
    assert(x & 8191 < 8192) by (bit_vector);
    (x & 8191) as usize
}

/// How many bytes agree from `p` and from `i` on.
fn match_len(input: &[u8], p: usize, i: usize) -> (len: u32)
    requires
        p < i,
        i <= input@.len(),
        input@.len() <= GZIP_MAX_IN,
    ensures
        len == agreement(input@, p as int, i as int, 0),
        len <= MATCH_MAX,
        i + len <= input@.len(),
{
    let mut len: u32 = 0;
    while len < MATCH_MAX && i + (len as usize) < input.len() && input[p + (len as usize)] == input[i + (
    len as usize)]
        invariant
            p < i,
            len <= MATCH_MAX,
            i + len <= input@.len(),
            input@.len() <= GZIP_MAX_IN,
            agreement(input@, p as int, i as int, len as int) == agreement(input@, p as int, i as int, 0),
        ensures
            len <= MATCH_MAX,
            i + len <= input@.len(),
            len == agreement(input@, p as int, i as int, 0),
        decreases MATCH_MAX - len,
    {
        len += 1;
    }
    len
}

/// The best match at `i`.
pub fn find_match(input: &[u8], i: usize, head: &[u32; HASHES], prev: &[u32; GZIP_MAX_IN]) -> (r: (u32, u32))
    requires
        i + 3 <= input@.len(),
        input@.len() <= GZIP_MAX_IN,
        heads_upto(input@, head@, i as int),
        links_upto(input@, prev@, i as int),
    ensures
        (r.0 as int, r.1 as int) == match_at(input@, i as int),
{
    let h: usize = hash3(input[i], input[i + 1], input[i + 2]);
    assert(h == hash_at(input@, i as int));
    let mut cand: u32 = head[h];
    let mut probes: u32 = 0;
    let mut best_len: u32 = 0;
    let mut best_dist: u32 = 0;
    proof {
        lemma_newest(input@, h as int, i as int);
    }
    while cand != 0 && probes < PROBES
        invariant_except_break
            i + 3 <= input@.len(),
            input@.len() <= GZIP_MAX_IN,
            links_upto(input@, prev@, i as int),
            h == hash_at(input@, i as int),
            cand <= i,
            cand > 0 ==> cand + 2 <= input@.len() && hash_at(input@, cand - 1) == h,
            probes <= PROBES,
            best_from(
                input@,
                i as int,
                cand as int,
                probes as int,
                (best_len as int, best_dist as int),
            ) == match_at(input@, i as int),
        ensures
            (best_len as int, best_dist as int) == match_at(input@, i as int),
        decreases PROBES - probes,
    {
        probes += 1;
        let p: usize = (cand - 1) as usize;
        let dist: u32 = (i - p) as u32;
        if dist > WINDOW as u32 {
            break;
        }
        let len: u32 = match_len(input, p, i);
        if len > best_len {
            best_len = len;
            best_dist = dist;
            if len == MATCH_MAX {
                break;
            }
        }
        cand = prev[p];
        proof {
            lemma_newest(input@, h as int, p as int);
        }
    }
    (best_len, best_dist)
}

/// Enters position `j` into the chains, if three bytes start there.
pub fn index_position(input: &[u8], j: usize, head: &mut [u32; HASHES], prev: &mut [u32; GZIP_MAX_IN])
    requires
        j < input@.len(),
        input@.len() <= GZIP_MAX_IN,
        heads_upto(input@, old(head)@, j as int),
        links_upto(input@, old(prev)@, j as int),
    ensures
        heads_upto(input@, final(head)@, j + 1),
        links_upto(input@, final(prev)@, j + 1),
{
    if j + 3 <= input.len() {
        let h: usize = hash3(input[j], input[j + 1], input[j + 2]);
        assert(h == hash_at(input@, j as int));
        prev[j] = head[h];
        head[h] = (j + 1) as u32;
        assert forall|g: int| 0 <= g < HASHES implies #[trigger] head@[g] == newest(input@, g, j + 1) by {
            assert(old(head)@[g] == newest(input@, g, j as int));
        }
        assert forall|p: int| 0 <= p < j + 1 && p + 3 <= input@.len() implies #[trigger] prev@[p] == newest(
            input@,
            hash_at(input@, p),
            p,
        ) by {
            if p < j {
                assert(old(prev)@[p] == newest(input@, hash_at(input@, p), p));
            } else {
                assert(old(head)@[h as int] == newest(input@, h as int, j as int));
            }
        }
    } else {
        assert forall|g: int| 0 <= g < HASHES implies #[trigger] head@[g] == newest(input@, g, j + 1) by {
            assert(old(head)@[g] == newest(input@, g, j as int));
        }
    }
}

/// Copying a match reproduces the bytes that follow.
pub proof fn lemma_copied(input: Seq<u8>, i: int, len: int, dist: int)
    requires
        1 <= dist <= i,
        0 <= len,
        i + len <= input.len(),
        agree(input, i - dist, i, len),
    ensures
        copied(input.take(i), len, dist) == input.take(i + len),
    decreases len,
{
    if len > 0 {
        let s = input.take(i);
        assert(agree_at(input, i - dist, i, 0));
        assert(s.push(s[s.len() - dist]) =~= input.take(i + 1));
        let p = i + 1 - dist;
        let i1 = i + 1;
        assert forall|j: int| 0 <= j < len - 1 implies agree_at(input, p, i1, j) by {
            assert(agree_at(input, i - dist, i, j + 1));
        }
        lemma_copied(input, i + 1, len - 1, dist);
    }
}

/// The tokens of an input expand to that input.
pub proof fn lemma_tokens_expand(input: Seq<u8>, i: int)
    requires
        0 <= i <= input.len(),
    ensures
        expanded(input.take(i), tokens_from(input, i)) == input,
    decreases input.len() - i,
{
    if i >= input.len() {
        assert(input.take(i) =~= input);
    } else {
        let (len, dist) = match_at(input, i);
        lemma_match_at(input, i);
        let ts = tokens_from(input, i);
        if len >= MATCH_MIN {
            lemma_copied(input, i, len, dist);
            lemma_tokens_expand(input, i + len);
            assert(ts.drop_first() =~= tokens_from(input, i + len));
        } else {
            assert(input.take(i).push(input[i]) =~= input.take(i + 1));
            lemma_tokens_expand(input, i + 1);
            assert(ts.drop_first() =~= tokens_from(input, i + 1));
        }
    }
}

/// A copy appends as many bytes as it is long, each the one that stands so far back:
/// also one that it has appended itself.
pub proof fn law_copied(s: Seq<u8>, len: int, dist: int)
    requires
        len >= 0,
        1 <= dist <= s.len(),
    ensures
        copied(s, len, dist).len() == s.len() + len,
        copied(s, len, dist).take(s.len() as int) == s,
        forall|i: int|
            s.len() <= i < s.len() + len ==> #[trigger] copied(s, len, dist)[i] == copied(s, len, dist)[i - dist],
    decreases len,
{
    if len > 0 {
        let u = s.push(s[s.len() - dist]);
        law_copied(u, len - 1, dist);
        let c = copied(s, len, dist);
        assert(c.take(s.len() as int) =~= c.take(u.len() as int).take(s.len() as int));
        assert(u.take(s.len() as int) =~= s);
        assert(c[s.len() as int] == c.take(u.len() as int)[s.len() as int]);
        assert(c[s.len() - dist] == c.take(u.len() as int)[s.len() - dist]);
        assert forall|i: int| s.len() <= i < s.len() + len implies #[trigger] c[i] == c[i - dist] by {}
    } else {
        assert(s.take(s.len() as int) =~= s);
    }
}

} // verus!
