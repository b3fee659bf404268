//! Byte-string vocabulary shared by every parser in the crate: searching,
//! trimming, ASCII case folding and number reading, each with the
//! mathematical function it computes.
use vstd::prelude::*;
use vstd::slice::slice_subrange;
use vstd::string::*;
use vstd::utf8::*;

verus! {

pub const HTAB: u8 = 0x09;

pub const LF: u8 = 0x0a;

pub const CR: u8 = 0x0d;

pub const SP: u8 = 0x20;

pub const QUOTE: u8 = 0x22;

pub const STAR: u8 = 0x2a;

pub const COMMA: u8 = 0x2c;

pub const DASH: u8 = 0x2d;

pub const DOT: u8 = 0x2e;

pub const SLASH: u8 = 0x2f;

pub const ZERO: u8 = 0x30;

pub const NINE: u8 = 0x39;

pub const COLON: u8 = 0x3a;

pub const SEMI: u8 = 0x3b;

pub const EQUALS: u8 = 0x3d;

pub const QUERY: u8 = 0x3f;

// ---- vocabulary -----------------------------------------------------------

/// The bytes of a string.
pub open spec fn text(s: &str) -> Seq<u8> {
    encode_utf8(s@)
}

/// The two bytes that end a line.
pub open spec fn crlf() -> Seq<u8> {
    seq![CR, LF]
}

/// Index of the first `b` in `s`, or `s.len()` when there is none.
pub open spec fn index_of(s: Seq<u8>, b: u8) -> int
    decreases s.len(),
{
    if s.len() == 0 {
        0
    } else if s[0] == b {
        0
    } else {
        1 + index_of(s.drop_first(), b)
    }
}

/// What stands before the first `b`: all of `s` when there is none.
pub open spec fn before(s: Seq<u8>, b: u8) -> Seq<u8> {
    s.take(index_of(s, b))
}

/// What stands after the first `b`: nothing when there is none.
pub open spec fn after(s: Seq<u8>, b: u8) -> Seq<u8> {
    if index_of(s, b) < s.len() {
        s.skip(index_of(s, b) + 1)
    } else {
        Seq::<u8>::empty()
    }
}

/// `needle` stands in `s` at index `i`.
pub open spec fn occurs_at(s: Seq<u8>, i: int, needle: Seq<u8>) -> bool {
    &&& 0 <= i
    &&& i + needle.len() <= s.len()
    &&& s.subrange(i, i + needle.len()) == needle
}

/// Index of the first occurrence of a non-empty `needle` in `hay`.
pub open spec fn find_sub(hay: Seq<u8>, needle: Seq<u8>) -> Option<int>
    decreases hay.len(),
{
    if needle.len() == 0 || hay.len() < needle.len() {
        None
    } else if occurs_at(hay, 0, needle) {
        Some(0)
    } else {
        match find_sub(hay.drop_first(), needle) {
            Some(i) => Some(i + 1),
            None => None,
        }
    }
}

pub open spec fn is_blank(b: u8) -> bool {
    b == SP || b == HTAB
}

/// `s` without its leading spaces and tabs.
pub open spec fn trim_front(s: Seq<u8>) -> Seq<u8>
    decreases s.len(),
{
    if s.len() > 0 && is_blank(s[0]) {
        trim_front(s.drop_first())
    } else {
        s
    }
}

/// `s` without its trailing spaces and tabs.
pub open spec fn trim_back(s: Seq<u8>) -> Seq<u8>
    decreases s.len(),
{
    if s.len() > 0 && is_blank(s.last()) {
        trim_back(s.drop_last())
    } else {
        s
    }
}

/// `s` without the spaces and tabs at its two ends.
pub open spec fn trimmed(s: Seq<u8>) -> Seq<u8> {
    trim_back(trim_front(s))
}

pub open spec fn is_digit(b: u8) -> bool {
    ZERO <= b <= NINE
}

pub open spec fn is_alpha(b: u8) -> bool {
    0x41 <= b <= 0x5a || 0x61 <= b <= 0x7a
}

/// ASCII lower case of one byte; other bytes stand for themselves.
pub open spec fn lower(b: u8) -> u8 {
    if 0x41 <= b <= 0x5a {
        (b + 32) as u8
    } else {
        b
    }
}

/// Equality up to ASCII case.
pub open spec fn same_ignoring_case(a: Seq<u8>, b: Seq<u8>) -> bool {
    &&& a.len() == b.len()
    &&& forall|i: int| #![trigger a[i]] #![trigger b[i]] 0 <= i < a.len() ==> lower(a[i]) == lower(b[i])
}

pub open spec fn all_digits(s: Seq<u8>) -> bool {
    forall|i: int| 0 <= i < s.len() ==> is_digit(#[trigger] s[i])
}

/// The number a string of decimal digits denotes.
pub open spec fn digits_value(s: Seq<u8>) -> nat
    decreases s.len(),
{
    if s.len() == 0 {
        0
    } else {
        digits_value(s.drop_last()) * 10 + (s.last() - ZERO) as nat
    }
}

/// The number that `s` denotes, when it is a non-empty string of digits whose
/// value is at most `max`.
pub open spec fn number_upto(s: Seq<u8>, max: nat) -> Option<nat> {
    if s.len() > 0 && all_digits(s) && digits_value(s) <= max {
        Some(digits_value(s))
    } else {
        None
    }
}

// ---- facts ----------------------------------------------------------------

/// `index_of` is the first index that holds the byte.
pub proof fn lemma_index_of(s: Seq<u8>, b: u8)
    ensures
        0 <= index_of(s, b) <= s.len(),
        forall|j: int| 0 <= j < index_of(s, b) ==> s[j] != b,
        index_of(s, b) < s.len() ==> s[index_of(s, b)] == b,
    decreases s.len(),
{
    if s.len() > 0 && s[0] != b {
        let t = s.drop_first();
        lemma_index_of(t, b);
        assert forall|j: int| 0 <= j < index_of(s, b) implies s[j] != b by {
            if j > 0 {
                assert(s[j] == t[j - 1]);
            }
        }
    }
}

/// Only one index is the first that holds the byte.
pub proof fn lemma_index_of_is(s: Seq<u8>, b: u8, i: int)
    requires
        0 <= i <= s.len(),
        forall|j: int| 0 <= j < i ==> s[j] != b,
        i < s.len() ==> s[i] == b,
    ensures
        index_of(s, b) == i,
{
    lemma_index_of(s, b);
    let k = index_of(s, b);
    if k < i {
        assert(s[k] != b);
    }
}

/// `find_sub` is the first place where the needle stands.
pub proof fn lemma_find_sub(hay: Seq<u8>, needle: Seq<u8>)
    ensures
        match find_sub(hay, needle) {
            Some(i) => occurs_at(hay, i, needle) && forall|j: int| 0 <= j < i ==> !occurs_at(hay, j, needle),
            None => needle.len() > 0 ==> forall|j: int| !occurs_at(hay, j, needle),
        },
    decreases hay.len(),
{
    if needle.len() > 0 && hay.len() >= needle.len() && !occurs_at(hay, 0, needle) {
        let t = hay.drop_first();
        lemma_find_sub(t, needle);
        assert forall|j: int| j >= 1 implies occurs_at(hay, j, needle) == occurs_at(t, j - 1, needle) by {
            if j + needle.len() <= hay.len() {
                assert(hay.subrange(j, j + needle.len()) =~= t.subrange(j - 1, j - 1 + needle.len()));
            }
        }
        match find_sub(t, needle) {
            Some(i) => {
                assert(occurs_at(hay, i + 1, needle));
                assert forall|j: int| 0 <= j < i + 1 implies !occurs_at(hay, j, needle) by {
                    if j >= 1 {
                        assert(!occurs_at(t, j - 1, needle));
                    }
                }
            },
            None => {
                assert forall|j: int| !occurs_at(hay, j, needle) by {
                    if j >= 1 {
                        assert(!occurs_at(t, j - 1, needle));
                    }
                }
            },
        }
    }
}

/// Only one index is the first place where the needle stands.
pub proof fn lemma_find_sub_is(hay: Seq<u8>, needle: Seq<u8>, i: int)
    requires
        needle.len() > 0,
        occurs_at(hay, i, needle),
        forall|j: int| 0 <= j < i ==> !occurs_at(hay, j, needle),
    ensures
        find_sub(hay, needle) == Some(i),
{
    lemma_find_sub(hay, needle);
    assert(find_sub(hay, needle) is Some);
    let k = find_sub(hay, needle)->0;
    if k < i {
        assert(!occurs_at(hay, k, needle));
    }
}

/// A needle that stands nowhere is not found.
pub proof fn lemma_find_sub_none(hay: Seq<u8>, needle: Seq<u8>)
    requires
        forall|j: int| 0 <= j ==> !occurs_at(hay, j, needle),
    ensures
        find_sub(hay, needle) is None,
{
    lemma_find_sub(hay, needle);
}

/// Where a needle first occurs does not change when more follows.
pub proof fn lemma_find_prefix(s: Seq<u8>, t: Seq<u8>, needle: Seq<u8>)
    requires
        find_sub(s, needle) is Some,
    ensures
        find_sub(s + t, needle) == find_sub(s, needle),
{
    lemma_find_sub(s, needle);
    let p = find_sub(s, needle)->0;
    let u = s + t;
    assert(u.subrange(p, p + needle.len()) =~= s.subrange(p, p + needle.len()));
    assert forall|j: int| 0 <= j < p implies !occurs_at(u, j, needle) by {
        if occurs_at(u, j, needle) {
            assert(s.subrange(j, j + needle.len()) =~= u.subrange(j, j + needle.len()));
            assert(occurs_at(s, j, needle));
        }
    }
    lemma_find_sub_is(u, needle, p);
}

/// Trimming leaves a piece of the string.
pub proof fn lemma_trim_front(s: Seq<u8>, k: int)
    requires
        0 <= k <= s.len(),
        forall|j: int| 0 <= j < k ==> is_blank(#[trigger] s[j]),
        k < s.len() ==> !is_blank(s[k]),
    ensures
        trim_front(s) == s.skip(k),
    decreases s.len(),
{
    if k == 0 {
        assert(s.skip(0) =~= s);
    } else {
        let t = s.drop_first();
        assert forall|j: int| 0 <= j < k - 1 implies is_blank(#[trigger] t[j]) by {
            assert(is_blank(s[j + 1]));
        }
        assert(is_blank(s[0]));
        lemma_trim_front(t, k - 1);
        assert(t.skip(k - 1) =~= s.skip(k));
    }
}

pub proof fn lemma_trim_back(s: Seq<u8>, k: int)
    requires
        0 <= k <= s.len(),
        forall|j: int| k <= j < s.len() ==> is_blank(#[trigger] s[j]),
        k > 0 ==> !is_blank(s[k - 1]),
    ensures
        trim_back(s) == s.take(k),
    decreases s.len(),
{
    if k == s.len() {
        assert(s.take(k) =~= s);
    } else {
        let t = s.drop_last();
        assert(is_blank(s[s.len() - 1]));
        assert forall|j: int| k <= j < t.len() implies is_blank(#[trigger] t[j]) by {
            assert(is_blank(s[j]));
        }
        lemma_trim_back(t, k);
        assert(t.take(k) =~= s.take(k));
    }
}

/// Trimming leaves nothing longer.
pub proof fn lemma_trimmed_len(s: Seq<u8>)
    ensures
        trimmed(s).len() <= s.len(),
{
    lemma_trim_front_len(s);
    lemma_trim_back_len(trim_front(s));
}

proof fn lemma_trim_front_len(s: Seq<u8>)
    ensures
        trim_front(s).len() <= s.len(),
    decreases s.len(),
{
    if s.len() > 0 && is_blank(s[0]) {
        lemma_trim_front_len(s.drop_first());
    }
}

pub proof fn lemma_trim_back_len(s: Seq<u8>)
    ensures
        trim_back(s).len() <= s.len(),
    decreases s.len(),
{
    if s.len() > 0 && is_blank(s.last()) {
        lemma_trim_back_len(s.drop_last());
    }
}

/// A longer string of digits denotes no smaller a number.
pub proof fn lemma_digits_value_grows(s: Seq<u8>, k: int)
    requires
        all_digits(s),
        0 <= k <= s.len(),
    ensures
        digits_value(s.take(k)) <= digits_value(s),
    decreases s.len() - k,
{
    if k == s.len() {
        assert(s.take(k) =~= s);
    } else {
        let t = s.take(k + 1);
        assert(t.drop_last() =~= s.take(k));
        assert(is_digit(s[k]));
        assert(t.last() == s[k]);
        lemma_digits_value_grows(s, k + 1);
        assert(digits_value(t) == digits_value(s.take(k)) * 10 + (t.last() - ZERO) as nat);
    }
}

// ---- computing ------------------------------------------------------------

/// First index of `b`.
pub fn find_byte(s: &[u8], b: u8) -> (r: Option<usize>)
    ensures
        match r {
            Some(i) => i < s.len() && i == index_of(s@, b) && s@[i as int] == b,
            None => index_of(s@, b) == s@.len(),
        },
{
    let mut i: usize = 0;
    while i < s.len()
        invariant
            i <= s@.len(),
            forall|j: int| 0 <= j < i ==> s@[j] != b,
        decreases s@.len() - i,
    {
        if s[i] == b {
            proof {
                lemma_index_of_is(s@, b, i as int);
            }
            return Some(i);
        }
        i += 1;
    }
    proof {
        lemma_index_of_is(s@, b, i as int);
    }
    None
}

/// Byte-for-byte equality.
pub fn same_bytes(a: &[u8], b: &[u8]) -> (r: bool)
    ensures
        r == (a@ == b@),
{
    if a.len() != b.len() {
        return false;
    }
    let mut i: usize = 0;
    while i < a.len()
        invariant
            a@.len() == b@.len(),
            i <= a@.len(),
            forall|j: int| 0 <= j < i ==> a@[j] == b@[j],
        decreases a@.len() - i,
    {
        if a[i] != b[i] {
            return false;
        }
        i += 1;
    }
    assert(a@ =~= b@);
    true
}

/// Two strings with the same bytes are the same string.
pub proof fn lemma_text_injective(a: &str, b: &str)
    requires
        text(a) == text(b),
    ensures
        a@ == b@,
{
    encode_utf8_decode_utf8(a@);
    encode_utf8_decode_utf8(b@);
}

pub fn same_str(a: &str, b: &str) -> (r: bool)
    ensures
        r == (a@ == b@),
        r == (text(a) == text(b)),
{
    let r = same_bytes(a.as_bytes(), b.as_bytes());
    proof {
        if r {
            lemma_text_injective(a, b);
        }
    }
    r
}

pub fn ascii_lower(b: u8) -> (r: u8)
    ensures
        r == lower(b),
{
    if 0x41 <= b && b <= 0x5a {
        b + 32
    } else {
        b
    }
}

/// Equality up to ASCII case.
pub fn eq_ignore_ascii_case(a: &[u8], b: &[u8]) -> (r: bool)
    ensures
        r == same_ignoring_case(a@, b@),
{
    if a.len() != b.len() {
        return false;
    }
    let mut i: usize = 0;
    while i < a.len()
        invariant
            a@.len() == b@.len(),
            i <= a@.len(),
            forall|j: int| #![trigger a@[j]] #![trigger b@[j]] 0 <= j < i ==> lower(a@[j]) == lower(b@[j]),
        decreases a@.len() - i,
    {
        if ascii_lower(a[i]) != ascii_lower(b[i]) {
            assert(lower(a@[i as int]) != lower(b@[i as int]));
            return false;
        }
        i += 1;
    }
    true
}

pub fn ascii_digit(b: u8) -> (r: bool)
    ensures
        r == is_digit(b),
{
    ZERO <= b && b <= NINE
}

pub fn ascii_alpha(b: u8) -> (r: bool)
    ensures
        r == is_alpha(b),
{
    (0x41 <= b && b <= 0x5a) || (0x61 <= b && b <= 0x7a)
}

pub fn blank(b: u8) -> (r: bool)
    ensures
        r == is_blank(b),
{
    b == SP || b == HTAB
}

/// `b` without the spaces and tabs at its two ends.
pub fn trim<'a>(b: &'a [u8]) -> (r: &'a [u8])
    ensures
        r@ == trimmed(b@),
{
    let mut s: usize = 0;
    let mut e: usize = b.len();
    while s < e && blank(b[s])
        invariant
            s <= e,
            e == b@.len(),
            forall|j: int| 0 <= j < s ==> is_blank(#[trigger] b@[j]),
        ensures
            s <= e,
            e == b@.len(),
            forall|j: int| 0 <= j < s ==> is_blank(#[trigger] b@[j]),
            s < e ==> !is_blank(b@[s as int]),
        decreases e - s,
    {
        s += 1;
    }
    proof {
        lemma_trim_front(b@, s as int);
    }
    let ghost t = b@.skip(s as int);
    while e > s && blank(b[e - 1])
        invariant
            s <= e <= b@.len(),
            forall|j: int| e <= j < b@.len() ==> is_blank(#[trigger] b@[j]),
        ensures
            s <= e <= b@.len(),
            forall|j: int| e <= j < b@.len() ==> is_blank(#[trigger] b@[j]),
            s < e ==> !is_blank(b@[e - 1]),
        decreases e - s,
    {
        e -= 1;
    }
    proof {
        assert forall|j: int| e - s <= j < t.len() implies is_blank(#[trigger] t[j]) by {
            assert(is_blank(b@[j + s]));
        }
        lemma_trim_back(t, e - s);
        assert(t.take(e - s) =~= b@.subrange(s as int, e as int));
    }
    slice_subrange(b, s, e)
}

/// First index of a non-empty `needle`.
pub fn memfind(hay: &[u8], needle: &[u8]) -> (r: Option<usize>)
    ensures
        match r {
            Some(i) => find_sub(hay@, needle@) == Some(i as int) && i + needle@.len() <= hay.len(),
            None => find_sub(hay@, needle@) is None,
        },
{
    if needle.len() == 0 || hay.len() < needle.len() {
        return None;
    }
    let last: usize = hay.len() - needle.len();
    let mut i: usize = 0;
    while i <= last
        invariant
            needle@.len() > 0,
            last + needle@.len() == hay@.len(),
            i <= last + 1,
            forall|j: int| 0 <= j < i ==> !occurs_at(hay@, j, needle@),
        decreases last + 1 - i,
    {
        assert(i + needle@.len() <= hay.len());
        if same_bytes(slice_subrange(hay, i, i + needle.len()), needle) {
            proof {
                lemma_find_sub_is(hay@, needle@, i as int);
            }
            return Some(i);
        }
        i += 1;
    }
    proof {
        lemma_find_sub_none(hay@, needle@);
    }
    None
}

/// Does `needle` stand in `body` at `pos`?
pub fn at(body: &[u8], pos: usize, needle: &[u8]) -> (r: bool)
    ensures
        r == occurs_at(body@, pos as int, needle@),
{
    if pos > body.len() || needle.len() > body.len() - pos {
        return false;
    }
    assert(pos + needle@.len() <= body.len());
    same_bytes(slice_subrange(body, pos, pos + needle.len()), needle)
}

/// Reads a decimal number; nothing but digits, at least one, and no wrap.
pub fn parse_u64b(s: &[u8]) -> (r: Option<u64>)
    ensures
        match r {
            Some(v) => number_upto(s@, u64::MAX as nat) == Some(v as nat),
            None => number_upto(s@, u64::MAX as nat) is None,
        },
{
    if s.len() == 0 {
        return None;
    }
    let mut v: u64 = 0;
    let mut i: usize = 0;
    while i < s.len()
        invariant
            i <= s@.len(),
            forall|j: int| 0 <= j < i ==> is_digit(#[trigger] s@[j]),
            v == digits_value(s@.take(i as int)),
        decreases s@.len() - i,
    {
        if !ascii_digit(s[i]) {
            assert(!is_digit(s@[i as int]));
            return None;
        }
        assert(s@.take(i + 1).drop_last() =~= s@.take(i as int));
        assert(s@.take(i + 1).last() == s@[i as int]);
        let d: u64 = (s[i] - ZERO) as u64;
        let next: Option<u64> = match v.checked_mul(10) {
            Some(x) => x.checked_add(d),
            None => None,
        };
        match next {
            Some(x) => {
                v = x;
            },
            None => {
                proof {
                    assert(digits_value(s@.take(i + 1)) > u64::MAX);
                    if all_digits(s@) {
                        lemma_digits_value_grows(s@, i + 1);
                    }
                }
                return None;
            },
        }
        i += 1;
    }
    assert(s@.take(i as int) =~= s@);
    Some(v)
}

/// Reads a decimal length; nothing but digits, at least one, and no wrap.
pub fn parse_usizeb(s: &[u8]) -> (r: Option<usize>)
    ensures
        match r {
            Some(v) => number_upto(s@, usize::MAX as nat) == Some(v as nat),
            None => number_upto(s@, usize::MAX as nat) is None,
        },
{
    match parse_u64b(s) {
        Some(v) => {
            if v <= usize::MAX as u64 {
                Some(v as usize)
            } else {
                None
            }
        },
        None => None,
    }
}

/// The same, of a string.
pub fn parse_usize(s: &str) -> (r: Option<usize>)
    ensures
        match r {
            Some(v) => number_upto(text(s), usize::MAX as nat) == Some(v as nat),
            None => number_upto(text(s), usize::MAX as nat) is None,
        },
{
    parse_usizeb(s.as_bytes())
}

// ---- laws -------------------------------------------------------------------

/// Nothing but spaces and tabs.
pub open spec fn all_blank(s: Seq<u8>) -> bool {
    forall|i: int| 0 <= i < s.len() ==> #[trigger] s[i] == 0x20 || s[i] == 0x09
}

/// Neither the first byte nor the last is a space or a tab.
pub open spec fn firm(s: Seq<u8>) -> bool {
    s.len() > 0 ==> s[0] != 0x20 && s[0] != 0x09 && s.last() != 0x20 && s.last() != 0x09
}

/// Trimming removes the spaces and tabs around a string and nothing else.
pub proof fn law_trimmed(l: Seq<u8>, s: Seq<u8>, r: Seq<u8>)
    requires
        all_blank(l),
        firm(s),
        all_blank(r),
    ensures
        trimmed(l + s + r) == s,
{
    let w = l + s + r;
    if s.len() == 0 {
        assert forall|j: int| 0 <= j < w.len() implies is_blank(#[trigger] w[j]) by {
            assert(w[j] == if j < l.len() { l[j] } else { r[j - l.len()] });
        }
        lemma_trim_front(w, w.len() as int);
        assert(w.skip(w.len() as int) =~= s);
    } else {
        let n = l.len() as int;
        assert forall|j: int| 0 <= j < n implies is_blank(#[trigger] w[j]) by {
            assert(w[j] == l[j]);
        }
        assert(w[n] == s[0]);
        lemma_trim_front(w, n);
        let v = w.skip(n);
        let m = s.len() as int;
        assert forall|j: int| m <= j < v.len() implies is_blank(#[trigger] v[j]) by {
            assert(v[j] == r[j - m]);
        }
        assert(v[m - 1] == s.last());
        lemma_trim_back(v, m);
        assert(v.take(m) =~= s);
    }
}

/// What is left of a string by trimming has no blanks at its ends.
pub proof fn law_trimmed_is_firm(s: Seq<u8>)
    ensures
        firm(trimmed(s)),
    decreases s.len(),
{
    if s.len() > 0 {
        if is_blank(s[0]) {
            law_trimmed_is_firm(s.drop_first());
        } else {
            lemma_firm_back(s);
        }
    }
}

proof fn lemma_firm_back(s: Seq<u8>)
    requires
        s.len() > 0,
        !is_blank(s[0]),
    ensures
        firm(trim_back(s)),
    decreases s.len(),
{
    if is_blank(s.last()) {
        if s.len() > 1 {
            assert(s.drop_last()[0] == s[0]);
            lemma_firm_back(s.drop_last());
        }
    }
}

/// Two strings are the same up to case exactly when they are as long as each other
/// and differ at most by capital letters of ASCII in one and small ones in the
/// other.
pub proof fn law_case_of_letters(a: Seq<u8>, b: Seq<u8>)
    ensures
        same_ignoring_case(a, b) <==> {
            &&& a.len() == b.len()
            &&& forall|i: int|
                #![trigger a[i]]
                #![trigger b[i]]
                0 <= i < a.len() ==> {
                    ||| a[i] == b[i]
                    ||| 0x41 <= a[i] <= 0x5a && b[i] == a[i] + 32
                    ||| 0x41 <= b[i] <= 0x5a && a[i] == b[i] + 32
                }
        },
{
}

/// A number is a string of decimal digits: a single one is worth itself, one more
/// digit counts ten times what stands before it, and nothing else is a number, nor
/// is one above the limit.
pub proof fn law_numbers(s: Seq<u8>, d: u8, max: nat)
    requires
        d < 10,
    ensures
        number_upto(seq![(0x30 + d) as u8], max) == (if d <= max {
            Some(d as nat)
        } else {
            None
        }),
        number_upto(s, max) matches Some(n) ==> number_upto(s.push((0x30 + d) as u8), max) == (if 10 * n + d <= max {
            Some((10 * n + d) as nat)
        } else {
            None
        }),
        number_upto(s, max) is None && s.len() > 0 ==> number_upto(s.push((0x30 + d) as u8), max) is None,
        number_upto(s, max) is Some ==> s.len() > 0 && forall|i: int| 0 <= i < s.len() ==> 0x30 <= #[trigger] s[i] <= 0x39,
{
    let one = seq![(0x30 + d) as u8];
    assert(one.drop_last() =~= Seq::<u8>::empty());
    assert(digits_value(one.drop_last()) == 0);
    let t = s.push((0x30 + d) as u8);
    assert(t.drop_last() =~= s);
    assert(all_digits(s) ==> all_digits(t));
    assert(all_digits(t) ==> all_digits(s)) by {
        if all_digits(t) {
            assert forall|i: int| 0 <= i < s.len() implies is_digit(#[trigger] s[i]) by {
                assert(t[i] == s[i]);
            }
        }
    }
}

} // verus!
