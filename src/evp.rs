//! Decoding of padded base64 text with the standard alphabet.
use vstd::prelude::*;

use crate::error::HashDataError;

verus! {

/// The padding character.
pub const PAD: u8 = 61;

/// The 6-bit value of a character of the standard alphabet, or `None`.
pub open spec fn b64_value(c: u8) -> Option<nat> {
    if 65 <= c <= 90 {
        Some((c - 65) as nat)
    } else if 97 <= c <= 122 {
        Some((c - 71) as nat)
    } else if 48 <= c <= 57 {
        Some((c + 4) as nat)
    } else if c == 43 {
        Some(62)
    } else if c == 47 {
        Some(63)
    } else {
        None
    }
}

/// Number of trailing padding characters of a text that ends in one or two of them.
pub open spec fn padding_of(s: Seq<u8>) -> nat {
    if s.len() >= 2 && s[s.len() - 1] == PAD && s[s.len() - 2] == PAD {
        2
    } else if s.len() >= 1 && s[s.len() - 1] == PAD {
        1
    } else {
        0
    }
}

/// A non-empty text made of groups of four characters, all of the alphabet
/// except for one or two padding characters at the very end.
pub open spec fn is_valid_b64(s: Seq<u8>) -> bool {
    &&& s.len() > 0
    &&& s.len() % 4 == 0
    &&& forall|i: int| 0 <= i < s.len() - padding_of(s) ==> (#[trigger] b64_value(s[i])) is Some
}

/// The 6-bit value at position `i`, a padding character counting as zero.
pub open spec fn sextet(s: Seq<u8>, i: int) -> nat {
    match b64_value(s[i]) {
        Some(v) => v,
        None => 0,
    }
}

/// Byte `i` of the decoded text: byte `i % 3` of group `i / 3`.
pub open spec fn decoded_byte(s: Seq<u8>, i: int) -> u8 {
    let g = 4 * (i / 3);
    let a = sextet(s, g);
    let b = sextet(s, g + 1);
    let c = sextet(s, g + 2);
    let d = sextet(s, g + 3);
    if i % 3 == 0 {
        (a * 4 + b / 16) as u8
    } else if i % 3 == 1 {
        ((b % 16) * 16 + c / 4) as u8
    } else {
        ((c % 4) * 64 + d) as u8
    }
}

/// Length of the decoded text: three bytes a group, less one per padding character.
pub open spec fn decoded_len(s: Seq<u8>) -> nat {
    ((s.len() / 4) * 3 - padding_of(s)) as nat
}

/// The bytes that a valid base64 text stands for.
pub open spec fn b64_decode(s: Seq<u8>) -> Seq<u8> {
    Seq::new(decoded_len(s), |i: int| decoded_byte(s, i))
}

/// The number of padding characters in the last two positions of a text,
/// each position counted on its own.
pub open spec fn padding_count(s: Seq<u8>) -> nat {
    (if s[s.len() - 1] == PAD { 1nat } else { 0nat }) + (if s[s.len() - 2] == PAD { 1nat } else { 0nat })
}

/// Returns the length of the decoded groups, three bytes for four characters,
/// and the number of padding characters among the last two.
/// Fails where the length is zero or not a multiple of four.
pub fn get_b64_decode_len(in_data: &[u8]) -> (r: Result<(usize, usize), HashDataError>)
    ensures
        in_data@.len() == 0 || in_data@.len() % 4 != 0 <==> r is Err,
        r is Err ==> r->Err_0 == HashDataError::InvalidEncoding,
        r matches Ok((n, p)) ==> n == (in_data@.len() / 4) * 3 && p == padding_count(in_data@),
{
    let len = in_data.len();
    if len == 0 || len % 4 != 0 {
        return Err(HashDataError::InvalidEncoding);
    }
    let mut padding: usize = 0;
    if in_data[len - 1] == PAD {
        padding += 1;
    }
    if in_data[len - 2] == PAD {
        padding += 1;
    }
    Ok(((len / 4) * 3, padding))
}

/// The 6-bit value of an alphabet character; padding and others give `None`.
fn sextet_of(c: u8) -> (r: Option<u8>)
    ensures
        r is Some <==> b64_value(c) is Some,
        r matches Some(v) ==> v as nat == b64_value(c)->Some_0,
{
    if 65 <= c && c <= 90 {
        Some(c - 65)
    } else if 97 <= c && c <= 122 {
        Some(c - 71)
    } else if 48 <= c && c <= 57 {
        Some(c + 4)
    } else if c == 43 {
        Some(62)
    } else if c == 47 {
        Some(63)
    } else {
        None
    }
}

/// The 6-bit value at position `i`, a padding character counting as zero.
fn sextet_at(s: &[u8], i: usize) -> (r: u8)
    requires
        i < s@.len(),
    ensures
        r as nat == sextet(s@, i as int),
        r < 64,
{
    match sextet_of(s[i]) {
        Some(v) => v,
        None => 0,
    }
}

proof fn lemma_group_in_bounds(i: int, len: int)
    requires
        0 <= i < (len / 4) * 3,
        len >= 0,
    ensures
        4 * (i / 3) + 3 < len,
{
    assert(i / 3 < len / 4) by (nonlinear_arith)
        requires
            0 <= i < (len / 4) * 3,
    ;
    assert(4 * (i / 3) + 3 < len) by (nonlinear_arith)
        requires
            i / 3 < len / 4,
            len >= 0,
            i >= 0,
    ;
}

/// Decodes a padded base64 text.
/// Succeeds exactly on valid text, with `(len / 4) * 3` bytes less one for each
/// trailing padding character.
pub fn evp_decode_block(in_data: &[u8]) -> (r: Result<Vec<u8>, HashDataError>)
    ensures
        r is Ok <==> is_valid_b64(in_data@),
        r is Err ==> r->Err_0 == HashDataError::InvalidEncoding,
        r matches Ok(out) ==> out@ == b64_decode(in_data@),
        r matches Ok(out) ==> out@.len() == (in_data@.len() / 4) * 3 - padding_of(in_data@),
{
    let s = Ghost(in_data@);
    let (full_len, _) = match get_b64_decode_len(in_data) {
        Ok(v) => v,
        Err(e) => return Err(e),
    };
    let len = in_data.len();
    let padding: usize = if in_data[len - 1] == PAD && in_data[len - 2] == PAD {
        2
    } else if in_data[len - 1] == PAD {
        1
    } else {
        0
    };
    assert(padding == padding_of(s@));
    let body = len - padding;
    let mut k: usize = 0;
    while k < body
        invariant
            body == len - padding_of(s@),
            len == s@.len(),
            in_data@ == s@,
            0 <= k <= body,
            forall|i: int| 0 <= i < k ==> (#[trigger] b64_value(s@[i])) is Some,
        decreases body - k,
    {
        if sextet_of(in_data[k]).is_none() {
            assert(!is_valid_b64(s@)) by {
                assert(b64_value(s@[k as int]) is None);
            }
            return Err(HashDataError::InvalidEncoding);
        }
        k += 1;
    }
    let out_len = full_len - padding;
    let mut out: Vec<u8> = Vec::with_capacity(out_len);
    let mut i: usize = 0;
    while i < out_len
        invariant
            out_len == decoded_len(s@),
            out_len <= (len / 4) * 3,
            len == s@.len(),
            len > 0,
            in_data@ == s@,
            0 <= i <= out_len,
            out@ == Seq::new(i as nat, |j: int| decoded_byte(s@, j)),
        decreases out_len - i,
    {
        proof {
            lemma_group_in_bounds(i as int, len as int);
        }
        let g = 4 * (i / 3);
        let a = sextet_at(in_data, g);
        let b = sextet_at(in_data, g + 1);
        let c = sextet_at(in_data, g + 2);
        let d = sextet_at(in_data, g + 3);
        let byte: u8 = if i % 3 == 0 {
            a * 4 + b / 16
        } else if i % 3 == 1 {
            (b % 16) * 16 + c / 4
        } else {
            (c % 4) * 64 + d
        };
        out.push(byte);
        assert(out@ =~= Seq::new((i + 1) as nat, |j: int| decoded_byte(s@, j)));
        i += 1;
    }
    assert(out@ =~= b64_decode(s@));
    Ok(out)
}

/// On valid text the decoded length is the whole-group length less the
/// padding that `get_b64_decode_len` counts: `(len / 4) * 3 - padding`.
pub proof fn lemma_decoded_len_by_padding_count(s: Seq<u8>)
    requires
        is_valid_b64(s),
    ensures
        b64_decode(s).len() == (s.len() / 4) * 3 - padding_count(s),
        padding_count(s) <= 2,
{
    if s[s.len() - 2] == PAD && s[s.len() - 1] != PAD {
        assert(b64_value(s[s.len() - 2]) is Some);
    }
}

} // verus!
