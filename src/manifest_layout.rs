//! How a signed-data manifest is written, and what parsing a written
//! manifest gives back.
use vstd::prelude::*;
use vstd::utf8::{
    decode_utf8, decode_utf8_encode_utf8, encode_scalar, encode_utf8, encode_utf8_decode_utf8,
    valid_utf8,
};

use crate::evp::is_valid_b64;
use crate::hsd::{
    blocks_from, lines_from, name_key, non_empty, parse_manifest, record_of, record_ok,
    records_from, sig_for, trim_end_of, trim_of, trim_start_of, is_white_space, value_key, LF,
};

verus! {

/// `b` holds no line feed.
pub open spec fn no_lf(b: Seq<u8>) -> bool {
    forall|i: int| 0 <= i < b.len() ==> b[i] != LF
}

/// The space byte.
pub open spec fn space() -> Seq<u8> {
    seq![0x20u8]
}

/// A record: `Name: ` and the name, a line feed, `signed-data: ` and the
/// signature text.
pub open spec fn record_text(p: (Seq<u8>, Seq<u8>)) -> Seq<u8> {
    name_key() + space() + p.0 + seq![LF] + value_key() + space() + p.1
}

/// The records, each followed by a blank line.
pub open spec fn encode_manifest(pairs: Seq<(Seq<u8>, Seq<u8>)>) -> Seq<u8>
    decreases pairs.len(),
{
    if pairs.len() == 0 {
        seq![]
    } else {
        record_text(pairs[0]) + seq![LF, LF] + encode_manifest(pairs.drop_first())
    }
}

/// A name and a signature text that are non-empty UTF-8 without line feeds,
/// and that neither start nor end with white space.
pub open spec fn pair_fits(p: (Seq<u8>, Seq<u8>)) -> bool {
    &&& no_lf(p.0)
    &&& no_lf(p.1)
    &&& valid_utf8(p.0)
    &&& valid_utf8(p.1)
    &&& decode_utf8(p.0).len() > 0
    &&& decode_utf8(p.1).len() > 0
    &&& !is_white_space(decode_utf8(p.0)[0])
    &&& !is_white_space(decode_utf8(p.0).last())
    &&& !is_white_space(decode_utf8(p.1)[0])
    &&& !is_white_space(decode_utf8(p.1).last())
}

/// Text that neither starts nor ends with white space, after one space, is
/// trimmed back to itself.
proof fn lemma_trim_keeps(s: Seq<char>)
    requires
        s.len() > 0,
        !is_white_space(s[0]),
        !is_white_space(s.last()),
    ensures
        trim_of(seq![' '] + s) == s,
{
    let t = seq![' '] + s;
    assert(t[0] == ' ');
    assert((' ' as u32) == 32);
    assert(is_white_space(t[0]));
    assert(t.drop_first() =~= s);
    assert(trim_start_of(s) == s);
    assert(trim_start_of(t) == s);
    assert(trim_end_of(s) == s);
}

/// A space byte in front of UTF-8 text decodes to a space in front of its characters.
proof fn lemma_decode_after_space(b: Seq<u8>)
    requires
        valid_utf8(b),
    ensures
        decode_utf8(space() + b) == seq![' '] + decode_utf8(b),
{
    let chars = seq![' '] + decode_utf8(b);
    assert(chars.drop_first() =~= decode_utf8(b));
    decode_utf8_encode_utf8(b);
    assert((32u32 & 0x7Fu32) == 32u32) by (bit_vector);
    assert(encode_scalar(' ' as u32) =~= space());
    assert(encode_utf8(chars) =~= space() + b);
    encode_utf8_decode_utf8(chars);
}

/// The records as text.
pub open spec fn pair_models(pairs: Seq<(Seq<u8>, Seq<u8>)>) -> Seq<(Seq<char>, Seq<char>)> {
    pairs.map_values(|p: (Seq<u8>, Seq<u8>)| (decode_utf8(p.0), decode_utf8(p.1)))
}

proof fn lemma_shift_blocks(x: Seq<u8>, y: Seq<u8>, a: int, b: int)
    requires
        0 <= a <= b <= y.len(),
    ensures
        blocks_from(x + y, x.len() + a, x.len() + b) == blocks_from(y, a, b),
    decreases y.len() - b,
{
    let s = x + y;
    let n = x.len() as int;
    if b + 1 >= y.len() {
        assert(s.subrange(n + a, s.len() as int) =~= y.subrange(a, y.len() as int));
    } else {
        assert(s[n + b] == y[b] && s[n + b + 1] == y[b + 1]);
        if y[b] == LF && y[b + 1] == LF {
            assert(s.subrange(n + a, n + b) =~= y.subrange(a, b));
            lemma_shift_blocks(x, y, b + 2, b + 2);
        } else {
            lemma_shift_blocks(x, y, a, b + 1);
        }
    }
}

proof fn lemma_shift_lines(x: Seq<u8>, y: Seq<u8>, a: int, b: int)
    requires
        0 <= a <= b <= y.len(),
    ensures
        lines_from(x + y, x.len() + a, x.len() + b) == lines_from(y, a, b),
    decreases y.len() - b,
{
    let s = x + y;
    let n = x.len() as int;
    if b >= y.len() {
        assert(s.subrange(n + a, s.len() as int) =~= y.subrange(a, y.len() as int));
    } else {
        assert(s[n + b] == y[b]);
        if y[b] == LF {
            assert(s.subrange(n + a, n + b) =~= y.subrange(a, b));
            lemma_shift_lines(x, y, b + 1, b + 1);
        } else {
            lemma_shift_lines(x, y, a, b + 1);
        }
    }
}

/// Scanning a block that holds no blank line up to the blank line after it.
proof fn lemma_scan_block(s: Seq<u8>, blk: Seq<u8>, y: Seq<u8>, i: int)
    requires
        s == blk + seq![LF, LF] + y,
        0 <= i <= blk.len(),
        forall|k: int| i <= k < blk.len() ==> !(s[k] == LF && #[trigger] s[k + 1] == LF),
    ensures
        blocks_from(s, 0, i) == non_empty(blk) + blocks_from(
            s,
            blk.len() + 2 as int,
            blk.len() + 2 as int,
        ),
    decreases blk.len() - i,
{
    if i == blk.len() {
        assert(s[i] == LF && s[i + 1] == LF);
        assert(s.subrange(0, i) =~= blk);
    } else {
        assert(!(s[i] == LF && s[i + 1] == LF));
        lemma_scan_block(s, blk, y, i + 1);
    }
}

/// Scanning a line that holds no line feed up to the line feed after it.
proof fn lemma_scan_line(s: Seq<u8>, l1: Seq<u8>, l2: Seq<u8>, i: int)
    requires
        s == l1 + seq![LF] + l2,
        0 <= i <= l1.len(),
        no_lf(l1),
    ensures
        lines_from(s, 0, i) == non_empty(l1) + lines_from(s, l1.len() + 1 as int, l1.len() + 1 as int),
    decreases l1.len() - i,
{
    if i == l1.len() {
        assert(s.subrange(0, i) =~= l1);
    } else {
        assert(s[i] == l1[i]);
        lemma_scan_line(s, l1, l2, i + 1);
    }
}

/// The last line, which holds no line feed.
proof fn lemma_scan_last_line(l: Seq<u8>, i: int)
    requires
        0 <= i <= l.len(),
        no_lf(l),
    ensures
        lines_from(l, 0, i) == non_empty(l),
    decreases l.len() - i,
{
    if i == l.len() {
        assert(l.subrange(0, i) =~= l);
    } else {
        lemma_scan_last_line(l, i + 1);
    }
}

proof fn lemma_record_text(p: (Seq<u8>, Seq<u8>))
    requires
        pair_fits(p),
    ensures
        record_ok(record_text(p)),
        record_of(record_text(p)) == (decode_utf8(p.0), decode_utf8(p.1)),
        forall|k: int|
            0 <= k < record_text(p).len() && record_text(p)[k] == LF ==> k == name_key().len() + 1
                + p.0.len(),
        record_text(p).len() > name_key().len() + 2 + p.0.len(),
        record_text(p)[name_key().len() + 2 + p.0.len() as int] != LF,
        record_text(p)[record_text(p).len() - 1] != LF,
{
    let l1 = name_key() + space() + p.0;
    let l2 = value_key() + space() + p.1;
    let s = record_text(p);
    lemma_trim_keeps(decode_utf8(p.0));
    lemma_trim_keeps(decode_utf8(p.1));
    lemma_decode_after_space(p.0);
    lemma_decode_after_space(p.1);
    assert(s =~= l1 + seq![LF] + l2);
    assert(no_lf(l1)) by {
        assert forall|i: int| 0 <= i < l1.len() implies l1[i] != LF by {
            if i >= 6 {
                assert(l1[i] == p.0[i - 6]);
            }
        }
    }
    assert(no_lf(l2)) by {
        assert forall|i: int| 0 <= i < l2.len() implies l2[i] != LF by {
            if i >= 13 {
                assert(l2[i] == p.1[i - 13]);
            }
        }
    }
    lemma_scan_line(s, l1, l2, 0);
    lemma_shift_lines(l1 + seq![LF], l2, 0, 0);
    lemma_scan_last_line(l2, 0);
    let lines = lines_from(s, 0, 0);
    assert(lines =~= seq![l1, l2]);
    assert(l1.subrange(0, 5) =~= name_key());
    assert(l2.subrange(0, 12) =~= value_key());
    assert(l1.subrange(5, l1.len() as int) =~= space() + p.0);
    assert(l2.subrange(12, l2.len() as int) =~= space() + p.1);
    assert forall|k: int| 0 <= k < s.len() && s[k] == LF implies k == name_key().len() + 1
        + p.0.len() by {
        if k < l1.len() {
            assert(s[k] == l1[k]);
        } else if k > l1.len() {
            assert(s[k] == l2[k - l1.len() - 1]);
        }
    }
    assert(s[l1.len() + 1 as int] == l2[0]);
    assert(s[s.len() - 1] == l2[l2.len() - 1]);
}

proof fn lemma_manifest_blocks(pairs: Seq<(Seq<u8>, Seq<u8>)>)
    requires
        forall|i: int| 0 <= i < pairs.len() ==> pair_fits(#[trigger] pairs[i]),
    ensures
        blocks_from(encode_manifest(pairs), 0, 0) == pairs.map_values(
            |p: (Seq<u8>, Seq<u8>)| record_text(p),
        ),
    decreases pairs.len(),
{
    let s = encode_manifest(pairs);
    if pairs.len() == 0 {
        assert(s.subrange(0, 0) =~= Seq::<u8>::empty());
        assert(pairs.map_values(|p: (Seq<u8>, Seq<u8>)| record_text(p)) =~= seq![]);
    } else {
        let rest = pairs.drop_first();
        let blk = record_text(pairs[0]);
        let y = encode_manifest(rest);
        assert(pair_fits(pairs[0]));
        lemma_record_text(pairs[0]);
        assert forall|k: int| 0 <= k < blk.len() implies !(s[k] == LF && #[trigger] s[k + 1]
            == LF) by {
            assert(s[k] == blk[k]);
            if k + 1 < blk.len() {
                assert(s[k + 1] == blk[k + 1]);
            }
        }
        lemma_scan_block(s, blk, y, 0);
        lemma_shift_blocks(blk + seq![LF, LF], y, 0, 0);
        assert forall|i: int| 0 <= i < rest.len() implies pair_fits(#[trigger] rest[i]) by {
            assert(rest[i] == pairs[i + 1]);
        }
        lemma_manifest_blocks(rest);
        assert(pairs.map_values(|p: (Seq<u8>, Seq<u8>)| record_text(p)) =~= seq![blk]
            + rest.map_values(|p: (Seq<u8>, Seq<u8>)| record_text(p)));
    }
}

proof fn lemma_records_all_ok(pairs: Seq<(Seq<u8>, Seq<u8>)>, i: int)
    requires
        forall|j: int| 0 <= j < pairs.len() ==> pair_fits(#[trigger] pairs[j]),
        0 <= i <= pairs.len(),
    ensures
        records_from(pairs.map_values(|p: (Seq<u8>, Seq<u8>)| record_text(p)), i) == Ok::<
            _,
            crate::error::HashDataError,
        >(pair_models(pairs).subrange(i, pairs.len() as int)),
    decreases pairs.len() - i,
{
    let blocks = pairs.map_values(|p: (Seq<u8>, Seq<u8>)| record_text(p));
    if i == pairs.len() {
        assert(pair_models(pairs).subrange(i, pairs.len() as int) =~= seq![]);
    } else {
        assert(pair_fits(pairs[i]));
        lemma_record_text(pairs[i]);
        lemma_records_all_ok(pairs, i + 1);
        assert(pair_models(pairs).subrange(i, pairs.len() as int) =~= seq![
            record_of(blocks[i]),
        ] + pair_models(pairs).subrange(i + 1, pairs.len() as int));
    }
}

proof fn lemma_sig_for_first(recs: Seq<(Seq<char>, Seq<char>)>, i: int)
    requires
        0 <= i < recs.len(),
        forall|j: int| 0 <= j < i ==> (#[trigger] recs[j]).0 != recs[i].0,
    ensures
        sig_for(recs, recs[i].0) == Some(recs[i].1),
    decreases i,
{
    if i > 0 {
        let rest = recs.drop_first();
        assert(recs[0].0 != recs[i].0);
        assert forall|j: int| 0 <= j < i - 1 implies (#[trigger] rest[j]).0 != rest[i - 1].0 by {
            assert(rest[j] == recs[j + 1]);
        }
        lemma_sig_for_first(rest, i - 1);
    }
}

/// Text written as `Name: <name>` and `signed-data: <text>` lines, from names
/// and signature texts that are non-empty UTF-8 without line feeds or
/// surrounding white space, each record followed by a
/// blank line, parses to those records. With distinct names, looking up a
/// name finds its own signature text, whose bytes are the ones written, so
/// that it decodes whenever the written bytes are valid base64.
pub proof fn lemma_written_manifest_parses(pairs: Seq<(Seq<u8>, Seq<u8>)>)
    requires
        pairs.len() > 0,
        forall|i: int| 0 <= i < pairs.len() ==> pair_fits(#[trigger] pairs[i]),
        forall|i: int, j: int|
            0 <= i < j < pairs.len() ==> decode_utf8((#[trigger] pairs[i]).0) != decode_utf8(
                (#[trigger] pairs[j]).0,
            ),
    ensures
        parse_manifest(encode_manifest(pairs)) == Ok::<_, crate::error::HashDataError>(
            pair_models(pairs),
        ),
        forall|i: int|
            0 <= i < pairs.len() ==> sig_for(pair_models(pairs), decode_utf8((#[trigger] pairs[i]).0))
                == Some(decode_utf8(pairs[i].1)),
        forall|i: int|
            0 <= i < pairs.len() ==> encode_utf8(decode_utf8((#[trigger] pairs[i]).1))
                == pairs[i].1,
        forall|i: int|
            0 <= i < pairs.len() && is_valid_b64((#[trigger] pairs[i]).1) ==> is_valid_b64(
                encode_utf8(decode_utf8(pairs[i].1)),
            ),
{
    let s = encode_manifest(pairs);
    assert(s.len() > 0) by {
        lemma_record_text(pairs[0]);
    }
    lemma_manifest_blocks(pairs);
    lemma_records_all_ok(pairs, 0);
    assert(pair_models(pairs).subrange(0, pairs.len() as int) =~= pair_models(pairs));
    let recs = pair_models(pairs);
    assert forall|i: int| 0 <= i < pairs.len() implies sig_for(
        recs,
        decode_utf8((#[trigger] pairs[i]).0),
    ) == Some(decode_utf8(pairs[i].1)) by {
        assert forall|j: int| 0 <= j < i implies (#[trigger] recs[j]).0 != recs[i].0 by {
            assert(decode_utf8(pairs[j].0) != decode_utf8(pairs[i].0));
        }
        lemma_sig_for_first(recs, i);
    }
    assert forall|i: int| 0 <= i < pairs.len() implies encode_utf8(
        decode_utf8((#[trigger] pairs[i]).1),
    ) == pairs[i].1 by {
        assert(pair_fits(pairs[i]));
        decode_utf8_encode_utf8(pairs[i].1);
    }
}

/// The number of non-empty lines of the blocks from position `j` on.
pub open spec fn block_lines_from(blocks: Seq<Seq<u8>>, j: int) -> nat
    decreases blocks.len() - j,
{
    if j < 0 || j >= blocks.len() {
        0
    } else {
        lines_from(blocks[j], 0, 0).len() + block_lines_from(blocks, j + 1)
    }
}

proof fn lemma_block_lines_concat(a: Seq<Seq<u8>>, b: Seq<Seq<u8>>, j: int)
    requires
        0 <= j <= a.len(),
    ensures
        block_lines_from(a + b, j) == block_lines_from(a, j) + block_lines_from(b, 0),
    decreases a.len() - j,
{
    if j < a.len() {
        assert((a + b)[j] == a[j]);
        lemma_block_lines_concat(a, b, j + 1);
    } else {
        lemma_block_lines_shift(a, b, 0);
    }
}

proof fn lemma_block_lines_shift(a: Seq<Seq<u8>>, b: Seq<Seq<u8>>, j: int)
    requires
        0 <= j <= b.len(),
    ensures
        block_lines_from(a + b, a.len() + j) == block_lines_from(b, j),
    decreases b.len() - j,
{
    if j < b.len() {
        assert((a + b)[a.len() + j] == b[j]);
        lemma_block_lines_shift(a, b, j + 1);
    }
}

/// Lines of `s` from `a` with the scan at `i`, up to a blank line at `e`, are
/// the lines of the piece `s[start..e]` followed by the lines after the blank line.
proof fn lemma_lines_through_blank(s: Seq<u8>, start: int, a: int, i: int, e: int)
    requires
        0 <= start <= a <= i <= e,
        e + 1 < s.len(),
        s[e] == LF,
        s[e + 1] == LF,
    ensures
        lines_from(s, a, i) == lines_from(s.subrange(start, e), a - start, i - start)
            + lines_from(s, e + 2, e + 2),
    decreases e - i,
{
    let p = s.subrange(start, e);
    if i == e {
        assert(p.subrange(a - start, p.len() as int) =~= s.subrange(a, e));
        assert(s.subrange(e + 1, e + 1) =~= Seq::<u8>::empty());
        assert(lines_from(s, e + 1, e + 1) == lines_from(s, e + 2, e + 2));
    } else {
        assert(p[i - start] == s[i]);
        if s[i] == LF {
            assert(p.subrange(a - start, i - start) =~= s.subrange(a, i));
            lemma_lines_through_blank(s, start, i + 1, i + 1, e);
        } else {
            lemma_lines_through_blank(s, start, a, i + 1, e);
        }
    }
}

proof fn lemma_non_empty_lines(p: Seq<u8>)
    ensures
        block_lines_from(non_empty(p), 0) == lines_from(p, 0, 0).len(),
{
    if p.len() == 0 {
        assert(p.subrange(0, 0) =~= p);
        assert(non_empty(p).len() == 0);
        assert(lines_from(p, 0, 0).len() == 0);
    } else {
        assert(non_empty(p)[0] == p);
        assert(block_lines_from(non_empty(p), 1) == 0);
    }
}

/// The lines of the text from `start` on are, in number, the lines of its
/// blocks, scanning for blank lines from `i`.
proof fn lemma_lines_by_blocks(s: Seq<u8>, start: int, i: int)
    requires
        0 <= start <= i <= s.len(),
        forall|k: int| start <= k < i && k + 1 < s.len() ==> !(s[k] == LF && #[trigger] s[k + 1] == LF),
    ensures
        lines_from(s, start, start).len() == block_lines_from(blocks_from(s, start, i), 0),
    decreases s.len() - i,
{
    if i + 1 >= s.len() {
        let p = s.subrange(start, s.len() as int);
        lemma_shift_lines(s.subrange(0, start), p, 0, 0);
        assert(s.subrange(0, start) + p =~= s);
        lemma_non_empty_lines(p);
    } else if s[i] == LF && s[i + 1] == LF {
        let p = s.subrange(start, i);
        lemma_lines_through_blank(s, start, start, start, i);
        lemma_lines_by_blocks(s, i + 2, i + 2);
        lemma_block_lines_concat(non_empty(p), blocks_from(s, i + 2, i + 2), 0);
        lemma_non_empty_lines(p);
    } else {
        lemma_lines_by_blocks(s, start, i + 1);
    }
}

proof fn lemma_parsed_blocks_have_two_lines(blocks: Seq<Seq<u8>>, j: int)
    requires
        0 <= j <= blocks.len(),
        records_from(blocks, j) is Ok,
    ensures
        block_lines_from(blocks, j) == 2 * (blocks.len() - j),
    decreases blocks.len() - j,
{
    if j < blocks.len() {
        lemma_parsed_blocks_have_two_lines(blocks, j + 1);
    }
}

/// Text whose non-empty lines are odd in number is rejected as malformed:
/// every record accepted has exactly two lines.
pub proof fn lemma_odd_line_count_rejected(text: Seq<u8>)
    requires
        lines_from(text, 0, 0).len() % 2 == 1,
    ensures
        parse_manifest(text) is Err,
        parse_manifest(text)->Err_0 is MalformedRecord,
{
    if text.len() == 0 {
        assert(text.subrange(0, 0) =~= text);
    }
    let blocks = blocks_from(text, 0, 0);
    lemma_lines_by_blocks(text, 0, 0);
    if records_from(blocks, 0) is Ok {
        lemma_parsed_blocks_have_two_lines(blocks, 0);
    } else {
        lemma_records_from_err(blocks, 0);
    }
}

proof fn lemma_records_from_err(blocks: Seq<Seq<u8>>, j: int)
    requires
        records_from(blocks, j) is Err,
    ensures
        records_from(blocks, j)->Err_0 is MalformedRecord,
    decreases blocks.len() - j,
{
    if 0 <= j < blocks.len() && record_ok(blocks[j]) {
        lemma_records_from_err(blocks, j + 1);
    }
}

} // verus!
