//! The signed-data manifest: records of a file name and the base64 text of
//! its signature, separated by blank lines.
//!
//! A record is two non-empty lines, `Name: <file>` and `signed-data: <base64>`;
//! blank lines inside a record are ignored.
use vstd::prelude::*;
use vstd::slice::slice_to_vec;
use vstd::utf8::{decode_utf8, encode_utf8, encode_utf8_valid_utf8, valid_utf8};

use crate::error::HashDataError;
use crate::img_hash_check::prepend;
use crate::evp::{b64_decode, evp_decode_block, is_valid_b64};
use crate::text::{lemma_ascii_cut_valid, utf8_to_string};

verus! {

/// The line feed byte.
pub const LF: u8 = 10;

/// Bytes of the key that opens the first line of a record, `Name:`.
pub open spec fn name_key() -> Seq<u8> {
    seq![78u8, 97u8, 109u8, 101u8, 58u8]
}

/// Bytes of the key that opens the second line of a record, `signed-data:`.
pub open spec fn value_key() -> Seq<u8> {
    seq![115u8, 105u8, 103u8, 110u8, 101u8, 100u8, 45u8, 100u8, 97u8, 116u8, 97u8, 58u8]
}

/// A character with the Unicode White_Space property.
pub open spec fn is_white_space(c: char) -> bool {
    let u = c as u32;
    ||| u == 0x20
    ||| 0x09 <= u <= 0x0d
    ||| u == 0x85
    ||| u == 0xa0
    ||| u == 0x1680
    ||| 0x2000 <= u <= 0x200a
    ||| u == 0x2028
    ||| u == 0x2029
    ||| u == 0x202f
    ||| u == 0x205f
    ||| u == 0x3000
}

/// The text without its leading white space.
pub open spec fn trim_start_of(s: Seq<char>) -> Seq<char>
    decreases s.len(),
{
    if s.len() > 0 && is_white_space(s[0]) {
        trim_start_of(s.drop_first())
    } else {
        s
    }
}

/// The text without its trailing white space.
pub open spec fn trim_end_of(s: Seq<char>) -> Seq<char>
    decreases s.len(),
{
    if s.len() > 0 && is_white_space(s.last()) {
        trim_end_of(s.drop_last())
    } else {
        s
    }
}

/// The text with leading and trailing white space removed.
pub open spec fn trim_of(s: Seq<char>) -> Seq<char> {
    trim_end_of(trim_start_of(s))
}

/// Relies on `str::trim`: the text without the leading and trailing
/// characters that have the Unicode White_Space property.
#[verifier::external_body]
fn trim_text(s: &str) -> (r: String)
    ensures
        r@ == trim_of(s@),
{
    s.trim().to_string()
}

/// `p` as a one-element sequence if it is not empty, else nothing.
pub open spec fn non_empty(p: Seq<u8>) -> Seq<Seq<u8>> {
    if p.len() > 0 {
        seq![p]
    } else {
        seq![]
    }
}

/// The non-empty pieces of `s[start..]` between the separators `\n\n`, taken
/// from left to right, the scan for the next separator being at `i`.
pub open spec fn blocks_from(s: Seq<u8>, start: int, i: int) -> Seq<Seq<u8>>
    decreases s.len() - i,
{
    if i + 1 >= s.len() {
        non_empty(s.subrange(start, s.len() as int))
    } else if s[i] == LF && s[i + 1] == LF {
        non_empty(s.subrange(start, i)) + blocks_from(s, i + 2, i + 2)
    } else {
        blocks_from(s, start, i + 1)
    }
}

/// The non-empty lines of `s[start..]`, the scan for the next line feed being at `i`.
pub open spec fn lines_from(s: Seq<u8>, start: int, i: int) -> Seq<Seq<u8>>
    decreases s.len() - i,
{
    if i >= s.len() {
        non_empty(s.subrange(start, s.len() as int))
    } else if s[i] == LF {
        non_empty(s.subrange(start, i)) + lines_from(s, i + 1, i + 1)
    } else {
        lines_from(s, start, i + 1)
    }
}

/// `s` begins with `p`.
pub open spec fn has_prefix(s: Seq<u8>, p: Seq<u8>) -> bool {
    p.len() <= s.len() && s.subrange(0, p.len() as int) == p
}

/// The text of a line after a key: white space around it removed.
pub open spec fn value_after(line: Seq<u8>, key: Seq<u8>) -> Seq<char> {
    trim_of(decode_utf8(line.subrange(key.len() as int, line.len() as int)))
}

/// A record is well formed when it has exactly two non-empty lines, the
/// first opening with `Name:` and the second with `signed-data:`, and the
/// text after each key is not empty once white space around it is removed.
pub open spec fn record_ok(block: Seq<u8>) -> bool {
    let lines = lines_from(block, 0, 0);
    &&& lines.len() == 2
    &&& has_prefix(lines[0], name_key())
    &&& has_prefix(lines[1], value_key())
    &&& value_after(lines[0], name_key()).len() > 0
    &&& value_after(lines[1], value_key()).len() > 0
}

/// The file name and signature text of a well-formed record.
pub open spec fn record_of(block: Seq<u8>) -> (Seq<char>, Seq<char>) {
    let lines = lines_from(block, 0, 0);
    (value_after(lines[0], name_key()), value_after(lines[1], value_key()))
}

/// The records of `blocks` from position `i` on, or the first malformed one.
pub open spec fn records_from(blocks: Seq<Seq<u8>>, i: int) -> Result<
    Seq<(Seq<char>, Seq<char>)>,
    HashDataError,
>
    decreases blocks.len() - i,
{
    if i >= blocks.len() || i < 0 {
        Ok(seq![])
    } else if !record_ok(blocks[i]) {
        Err(HashDataError::MalformedRecord(i as usize))
    } else {
        match records_from(blocks, i + 1) {
            Ok(rest) => Ok(seq![record_of(blocks[i])] + rest),
            Err(e) => Err(e),
        }
    }
}

/// The records of a manifest given as UTF-8 bytes.
pub open spec fn parse_manifest(text: Seq<u8>) -> Result<
    Seq<(Seq<char>, Seq<char>)>,
    HashDataError,
> {
    if text.len() == 0 {
        Err(HashDataError::EmptyInput)
    } else {
        records_from(blocks_from(text, 0, 0), 0)
    }
}

/// The signature text of the first record named `name`.
pub open spec fn sig_for(recs: Seq<(Seq<char>, Seq<char>)>, name: Seq<char>) -> Option<Seq<char>>
    decreases recs.len(),
{
    if recs.len() == 0 {
        None
    } else if recs[0].0 == name {
        Some(recs[0].1)
    } else {
        sig_for(recs.drop_first(), name)
    }
}

/// The pieces of `b` that the ranges cover.
pub open spec fn pieces(b: Seq<u8>, ranges: Seq<(usize, usize)>) -> Seq<Seq<u8>> {
    ranges.map_values(|r: (usize, usize)| b.subrange(r.0 as int, r.1 as int))
}

/// Ranges of the non-empty lines of `b`.
fn split_lines(b: &[u8]) -> (r: Vec<(usize, usize)>)
    ensures
        pieces(b@, r@) == lines_from(b@, 0, 0),
        forall|k: int| 0 <= k < r@.len() ==> (#[trigger] r@[k]).0 <= r@[k].1 <= b@.len(),
        forall|k: int|
            0 <= k < r@.len() ==> ((#[trigger] r@[k]).0 == 0 || b@[r@[k].0 - 1] == LF) && (r@[k].1
                == b@.len() || b@[r@[k].1 as int] == LF),
{
    let n = b.len();
    let mut out: Vec<(usize, usize)> = Vec::new();
    let mut start: usize = 0;
    let mut i: usize = 0;
    while i < n
        invariant
            n == b@.len(),
            start <= i <= n,
            lines_from(b@, 0, 0) == pieces(b@, out@) + lines_from(b@, start as int, i as int),
            forall|k: int| 0 <= k < out@.len() ==> (#[trigger] out@[k]).0 <= out@[k].1 <= n,
            forall|k: int|
                0 <= k < out@.len() ==> ((#[trigger] out@[k]).0 == 0 || b@[out@[k].0 - 1] == LF) && (
                out@[k].1 == n || b@[out@[k].1 as int] == LF),
            start == 0 || b@[start - 1] == LF,
        decreases n - i,
    {
        if b[i] == LF {
            let ghost before = out@;
            if start < i {
                out.push((start, i));
            }
            assert(pieces(b@, out@) =~= pieces(b@, before) + non_empty(
                b@.subrange(start as int, i as int),
            ));
            assert(lines_from(b@, start as int, i as int) == non_empty(
                b@.subrange(start as int, i as int),
            ) + lines_from(b@, i + 1, i + 1));
            assert(pieces(b@, out@) + lines_from(b@, i + 1, i + 1) =~= pieces(b@, before) + (
            non_empty(b@.subrange(start as int, i as int)) + lines_from(b@, i + 1, i + 1)));
            start = i + 1;
        }
        i += 1;
    }
    let ghost before = out@;
    if start < n {
        out.push((start, n));
    }
    assert(pieces(b@, out@) =~= pieces(b@, before) + non_empty(
        b@.subrange(start as int, n as int),
    ));
    out
}

/// Tells whether `b[lo..hi]` begins with `key`.
fn has_prefix_at(b: &[u8], lo: usize, hi: usize, key: &Vec<u8>) -> (r: bool)
    requires
        lo <= hi <= b@.len(),
    ensures
        r == has_prefix(b@.subrange(lo as int, hi as int), key@),
{
    let ghost line = b@.subrange(lo as int, hi as int);
    if hi - lo < key.len() {
        return false;
    }
    let mut k: usize = 0;
    while k < key.len()
        invariant
            k <= key@.len(),
            key@.len() <= hi - lo,
            lo <= hi <= b@.len(),
            line == b@.subrange(lo as int, hi as int),
            forall|q: int| 0 <= q < k ==> line[q] == key@[q],
        decreases key@.len() - k,
    {
        if b[lo + k] != key[k] {
            assert(line.subrange(0, key@.len() as int)[k as int] != key@[k as int]);
            return false;
        }
        k += 1;
    }
    assert(line.subrange(0, key@.len() as int) =~= key@);
    true
}

/// The text of `b[lo..hi]` with white space around it removed, if it is UTF-8.
fn trimmed_text(b: &[u8], lo: usize, hi: usize) -> (r: Option<String>)
    requires
        lo <= hi <= b@.len(),
    ensures
        r is Some <==> valid_utf8(b@.subrange(lo as int, hi as int)),
        r matches Some(s) ==> s@ == trim_of(decode_utf8(b@.subrange(lo as int, hi as int))),
{
    match utf8_to_string(slice_to_vec(&b[lo..hi])) {
        Some(s) => Some(trim_text(s.as_str())),
        None => None,
    }
}

proof fn lemma_records_from_fails(blocks: Seq<Seq<u8>>, j: int, i: int)
    requires
        0 <= j <= i < blocks.len(),
        !record_ok(blocks[i]),
    ensures
        records_from(blocks, j) is Err,
        records_from(blocks, j)->Err_0 is MalformedRecord,
    decreases i - j,
{
    if record_ok(blocks[j]) {
        lemma_records_from_fails(blocks, j + 1, i);
    }
}

/// Empty text is rejected as such, and text with a malformed record (a key
/// missing or misspelt, or other than two non-empty lines) as a malformed record.
pub proof fn lemma_malformed_manifest_rejected(text: Seq<u8>, i: int)
    requires
        text.len() == 0 || (0 <= i < blocks_from(text, 0, 0).len() && !record_ok(
            blocks_from(text, 0, 0)[i],
        )),
    ensures
        text.len() == 0 ==> parse_manifest(text) == Err::<Seq<(Seq<char>, Seq<char>)>, _>(
            HashDataError::EmptyInput,
        ),
        text.len() > 0 ==> parse_manifest(text) is Err && parse_manifest(text)->Err_0 is MalformedRecord,
{
    if text.len() > 0 {
        lemma_records_from_fails(blocks_from(text, 0, 0), 0, i);
    }
}

/// One record of the manifest.
pub struct SingleSignedData {
    name: String,
    signature: String,
}

impl SingleSignedData {
    pub closed spec fn model(&self) -> (Seq<char>, Seq<char>) {
        (self.name@, self.signature@)
    }

    /// Reads a record from its text: exactly two non-empty lines, opening
    /// with `Name:` and `signed-data:`, each with a non-empty value.
    fn try_from_block(block: &[u8]) -> (r: Option<SingleSignedData>)
        requires
            valid_utf8(block@),
        ensures
            r is Some <==> record_ok(block@),
            r matches Some(d) ==> d.model() == record_of(block@),
    {
        let lines = split_lines(block);
        if lines.len() != 2 {
            return None;
        }
        let (n_lo, n_hi) = lines[0];
        let (v_lo, v_hi) = lines[1];
        assert(lines_from(block@, 0, 0)[0] == block@.subrange(n_lo as int, n_hi as int));
        assert(lines_from(block@, 0, 0)[1] == block@.subrange(v_lo as int, v_hi as int));
        let name_bytes: Vec<u8> = vec![78u8, 97u8, 109u8, 101u8, 58u8];
        let value_bytes: Vec<u8> = vec![
            115u8,
            105u8,
            103u8,
            110u8,
            101u8,
            100u8,
            45u8,
            100u8,
            97u8,
            116u8,
            97u8,
            58u8,
        ];
        assert(name_bytes@ =~= name_key());
        assert(value_bytes@ =~= value_key());
        if !has_prefix_at(block, n_lo, n_hi, &name_bytes) || !has_prefix_at(
            block,
            v_lo,
            v_hi,
            &value_bytes,
        ) {
            return None;
        }
        let ghost nl = block@.subrange(n_lo as int, n_hi as int);
        let ghost vl = block@.subrange(v_lo as int, v_hi as int);
        assert(nl.subrange(5, nl.len() as int) =~= block@.subrange(n_lo + 5, n_hi as int));
        assert(vl.subrange(12, vl.len() as int) =~= block@.subrange(v_lo + 12, v_hi as int));
        proof {
            assert(nl.subrange(0, 5)[4] == 58u8);
            assert(vl.subrange(0, 12)[11] == 58u8);
            lemma_ascii_cut_valid(block@, n_lo + 5, n_hi as int);
            lemma_ascii_cut_valid(block@, v_lo + 12, v_hi as int);
        }
        let name = match trimmed_text(block, n_lo + 5, n_hi) {
            Some(s) => s,
            None => return None,
        };
        let signature = match trimmed_text(block, v_lo + 12, v_hi) {
            Some(s) => s,
            None => return None,
        };
        if name.as_str().is_empty() || signature.as_str().is_empty() {
            return None;
        }
        Some(SingleSignedData { name, signature })
    }
}

/// The records of a manifest, in the order of the text.
pub struct HashSignedData {
    data: Vec<SingleSignedData>,
}

impl View for HashSignedData {
    type V = Seq<(Seq<char>, Seq<char>)>;

    closed spec fn view(&self) -> Seq<(Seq<char>, Seq<char>)> {
        self.data@.map_values(|r: SingleSignedData| r.model())
    }
}

proof fn lemma_records_step(
    blocks: Seq<Seq<u8>>,
    done: Seq<(Seq<char>, Seq<char>)>,
    i: int,
)
    requires
        0 <= i < blocks.len(),
        record_ok(blocks[i]),
    ensures
        prepend(done, records_from(blocks, i)) == prepend(
            done.push(record_of(blocks[i])),
            records_from(blocks, i + 1),
        ),
{
    if let Ok(rest) = records_from(blocks, i + 1) {
        assert(done + (seq![record_of(blocks[i])] + rest) =~= done.push(record_of(blocks[i]))
            + rest);
    }
}

impl HashSignedData {
    /// Parses a manifest. Fails on empty text, and on the first record (by its
    /// index among the non-empty pieces between blank lines) that is not well formed.
    pub fn parse(text: &str) -> (r: Result<HashSignedData, HashDataError>)
        ensures
            match r {
                Ok(h) => parse_manifest(encode_utf8(text@)) == Ok::<_, HashDataError>(h@),
                Err(e) => parse_manifest(encode_utf8(text@)) == Err::<
                    Seq<(Seq<char>, Seq<char>)>,
                    _,
                >(e),
            },
    {
        let b = text.as_bytes();
        let n = b.len();
        proof {
            encode_utf8_valid_utf8(text@);
        }
        if n == 0 {
            return Err(HashDataError::EmptyInput);
        }
        let ghost all = blocks_from(b@, 0, 0);
        let ghost mut done: Seq<Seq<u8>> = seq![];
        let mut data: Vec<SingleSignedData> = Vec::new();
        let mut start: usize = 0;
        let mut i: usize = 0;
        while i < n
            invariant
                n == b@.len(),
                b@ == encode_utf8(text@),
                all == blocks_from(b@, 0, 0),
                start <= i <= n,
                valid_utf8(b@),
                start == 0 || b@[start - 1] == LF,
                all == done + blocks_from(b@, start as int, i as int),
                data@.len() == done.len(),
                parse_manifest(b@) == prepend(
                    data@.map_values(|r: SingleSignedData| r.model()),
                    records_from(all, done.len() as int),
                ),
            decreases n - i,
        {
            if i + 1 < n && b[i] == LF && b[i + 1] == LF {
                let ghost p = b@.subrange(start as int, i as int);
                assert(blocks_from(b@, start as int, i as int) == non_empty(p) + blocks_from(
                    b@,
                    i + 2,
                    i + 2,
                ));
                if start < i {
                    assert(all[done.len() as int] == p);
                    proof {
                        lemma_ascii_cut_valid(b@, start as int, i as int);
                    }
                    let rec = match SingleSignedData::try_from_block(&b[start..i]) {
                        Some(r) => r,
                        None => return Err(HashDataError::MalformedRecord(data.len())),
                    };
                    proof {
                        lemma_records_step(
                            all,
                            data@.map_values(|r: SingleSignedData| r.model()),
                            done.len() as int,
                        );
                    }
                    let ghost before = data@;
                    data.push(rec);
                    assert(data@.map_values(|r: SingleSignedData| r.model()) =~= before.map_values(
                        |r: SingleSignedData| r.model(),
                    ).push(rec.model()));
                }
                proof {
                    assert(all =~= (done + non_empty(p)) + blocks_from(b@, i + 2, i + 2));
                    done = done + non_empty(p);
                }
                start = i + 2;
                i = i + 2;
            } else {
                i += 1;
            }
        }
        let ghost p = b@.subrange(start as int, n as int);
        assert(blocks_from(b@, start as int, i as int) == non_empty(p));
        if start < n {
            assert(all[done.len() as int] == p);
            proof {
                lemma_ascii_cut_valid(b@, start as int, n as int);
            }
            let rec = match SingleSignedData::try_from_block(&b[start..n]) {
                Some(r) => r,
                None => return Err(HashDataError::MalformedRecord(data.len())),
            };
            proof {
                lemma_records_step(
                    all,
                    data@.map_values(|r: SingleSignedData| r.model()),
                    done.len() as int,
                );
            }
            let ghost before = data@;
            data.push(rec);
            assert(data@.map_values(|r: SingleSignedData| r.model()) =~= before.map_values(
                |r: SingleSignedData| r.model(),
            ).push(rec.model()));
            assert(done.len() + 1 == all.len());
        } else {
            assert(done.len() == all.len());
        }
        let h = HashSignedData { data };
        assert(h@ + seq![] =~= h@);
        Ok(h)
    }

    /// The signature bytes of the first record named `file_name`: its
    /// signature text decoded from base64. Fails with `NotFound` when no
    /// record has that name, and with `InvalidEncoding` when the text is not
    /// valid base64.
    pub fn get_sig_for_file(&self, file_name: &str) -> (r: Result<Vec<u8>, HashDataError>)
        ensures
            match sig_for(self@, file_name@) {
                None => r == Err::<Vec<u8>, _>(HashDataError::NotFound),
                Some(sig) => match r {
                    Ok(bytes) => is_valid_b64(encode_utf8(sig)) && bytes@ == b64_decode(
                        encode_utf8(sig),
                    ),
                    Err(e) => !is_valid_b64(encode_utf8(sig)) && e
                        == HashDataError::InvalidEncoding,
                },
            },
    {
        let wanted = file_name.to_owned();
        let mut i: usize = 0;
        assert(self@.skip(0) =~= self@);
        while i < self.data.len()
            invariant
                i <= self.data@.len(),
                wanted@ == file_name@,
                sig_for(self@, file_name@) == sig_for(self@.skip(i as int), file_name@),
            decreases self.data@.len() - i,
        {
            assert(self@.skip(i as int)[0] == self.data@[i as int].model());
            if self.data[i].name == wanted {
                let sig = self.data[i].signature.as_str();
                return evp_decode_block(sig.as_bytes());
            }
            assert(self@.skip(i as int).drop_first() =~= self@.skip(i + 1));
            i += 1;
        }
        Err(HashDataError::NotFound)
    }
}

} // verus!
