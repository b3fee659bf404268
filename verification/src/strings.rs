//! Strings: the two functions of the standard library that the parsers need,
//! with what they compute.
use vstd::prelude::*;
use vstd::utf8::*;

verus! {

/// `core::str::Utf8Error`: why some bytes are no string.
#[verifier::external_type_specification]
#[verifier::external_body]
pub struct ExUtf8Error(core::str::Utf8Error);

/// `core::str::from_utf8`: bytes are a string exactly when they are well-formed
/// UTF-8, and the string then has those bytes.
pub assume_specification[ core::str::from_utf8 ](v: &[u8]) -> (r: Result<&str, core::str::Utf8Error>)
    ensures
        r is Ok <==> valid_utf8(v@),
        r matches Ok(s) ==> encode_utf8(s@) == v@,
;

/// Unicode's `White_Space` property.
pub open spec fn is_white_space(c: char) -> bool {
    let v = c as u32;
    ||| 0x09 <= v <= 0x0D
    ||| v == 0x20
    ||| v == 0x85
    ||| v == 0xA0
    ||| v == 0x1680
    ||| 0x2000 <= v <= 0x200A
    ||| v == 0x2028
    ||| v == 0x2029
    ||| v == 0x202F
    ||| v == 0x205F
    ||| v == 0x3000
}

/// `s` without its leading white space.
pub open spec fn strip_front(s: Seq<char>) -> Seq<char>
    decreases s.len(),
{
    if s.len() > 0 && is_white_space(s[0]) {
        strip_front(s.drop_first())
    } else {
        s
    }
}

/// `s` without its trailing white space.
pub open spec fn strip_back(s: Seq<char>) -> Seq<char>
    decreases s.len(),
{
    if s.len() > 0 && is_white_space(s.last()) {
        strip_back(s.drop_last())
    } else {
        s
    }
}

/// `s` without the white space at its two ends.
pub open spec fn stripped(s: Seq<char>) -> Seq<char> {
    strip_back(strip_front(s))
}

/// Calls `str::trim`: the string without leading and trailing white space, as
/// Unicode defines it.
#[verifier::external_body]
pub(crate) fn trim_white_space(s: &str) -> (r: &str)
    ensures
        r@ == stripped(s@),
{
    s.trim()
}

// ---- laws -------------------------------------------------------------------

/// Stripping removes the white space around a string and nothing else.
pub proof fn law_stripped(l: Seq<char>, s: Seq<char>, r: Seq<char>)
    requires
        forall|i: int| 0 <= i < l.len() ==> is_white_space(#[trigger] l[i]),
        forall|i: int| 0 <= i < r.len() ==> is_white_space(#[trigger] r[i]),
        s.len() > 0,
        !is_white_space(s[0]),
        !is_white_space(s.last()),
    ensures
        stripped(l + s + r) == s,
    decreases l.len() + r.len(),
{
    let w = l + s + r;
    if l.len() > 0 {
        assert(is_white_space(l[0]));
        assert(w.drop_first() =~= l.drop_first() + s + r);
        assert forall|i: int| 0 <= i < l.drop_first().len() implies is_white_space(#[trigger] l.drop_first()[i]) by {
            assert(l.drop_first()[i] == l[i + 1]);
        }
        law_stripped(l.drop_first(), s, r);
    } else {
        assert(w[0] == s[0]);
        assert(strip_front(w) == w);
        if r.len() > 0 {
            assert(is_white_space(r.last()));
            assert(w.drop_last() =~= l + s + r.drop_last());
            assert(w.drop_last()[0] == s[0]);
            assert(strip_front(w.drop_last()) == w.drop_last());
            assert forall|i: int| 0 <= i < r.drop_last().len() implies is_white_space(#[trigger] r.drop_last()[i]) by {
                assert(r.drop_last()[i] == r[i]);
            }
            law_stripped(l, s, r.drop_last());
        } else {
            assert(w =~= s);
        }
    }
}

/// What is white space: the spaces, tabs and line ends of Unicode. Nothing else of
/// ASCII is but the space and the five controls from tab to carriage return.
pub proof fn law_white_space_of_ascii(c: char)
    requires
        (c as u32) < 128,
    ensures
        is_white_space(c) <==> c as u32 == 32 || 9 <= c as u32 <= 13,
{
}

} // verus!
