//! Conversion of byte strings to text.
use vstd::prelude::*;
use vstd::utf8::{
    decode_utf8, is_char_boundary, is_char_boundary_iff_not_is_continuation_byte,
    length_of_first_scalar, pop_first_scalar, valid_utf8, valid_utf8_split,
};

verus! {

/// Relies on `String::from_utf8`: it accepts exactly the valid UTF-8 byte
/// strings and keeps the characters that they encode.
#[verifier::external_body]
pub(crate) fn utf8_to_string(bytes: Vec<u8>) -> (r: Option<String>)
    ensures
        r is Some <==> valid_utf8(bytes@),
        r matches Some(s) ==> s@ == decode_utf8(bytes@),
{
    String::from_utf8(bytes).ok()
}

proof fn lemma_suffix_after_ascii(s: Seq<u8>, i: int)
    requires
        valid_utf8(s),
        0 <= i < s.len(),
        s[i] < 128,
    ensures
        valid_utf8(s.subrange(i, s.len() as int)),
        valid_utf8(s.subrange(i + 1, s.len() as int)),
{
    is_char_boundary_iff_not_is_continuation_byte(s, i);
    assert(is_char_boundary(s, i));
    valid_utf8_split(s, i);
    let u = s.subrange(i, s.len() as int);
    assert(u[0] == s[i]);
    assert(length_of_first_scalar(u) == 1);
    assert(pop_first_scalar(u) =~= s.subrange(i + 1, s.len() as int));
}

/// A piece of valid UTF-8 that starts at the start or after an ASCII byte, and
/// ends at the end or at an ASCII byte, is valid UTF-8.
pub proof fn lemma_ascii_cut_valid(s: Seq<u8>, a: int, b: int)
    requires
        valid_utf8(s),
        0 <= a <= b <= s.len(),
        a == 0 || s[a - 1] < 128,
        b == s.len() || s[b] < 128,
    ensures
        valid_utf8(s.subrange(a, b)),
{
    let t = s.subrange(a, s.len() as int);
    if a == 0 {
        assert(t =~= s);
    } else {
        lemma_suffix_after_ascii(s, a - 1);
    }
    if b == s.len() {
        assert(t =~= s.subrange(a, b));
    } else {
        assert(t[b - a] == s[b]);
        is_char_boundary_iff_not_is_continuation_byte(t, b - a);
        assert(is_char_boundary(t, b - a));
        valid_utf8_split(t, b - a);
        assert(t.subrange(0, b - a) =~= s.subrange(a, b));
    }
}

} // verus!
