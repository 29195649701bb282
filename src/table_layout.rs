//! How a table of block digests is written, and what decoding a written
//! table gives back.
use vstd::prelude::*;
use vstd::utf8::{decode_utf8, valid_utf8};

use crate::img_hash_check::{
    decode_table, le_at, parse_records, record_at, parse_sections, record_size, strip_nul, image_name,
    BlockDigest, ImageDigests, IMG_NAME_SIZE, SECTIONS_START,
};
use crate::le::le_value;
use crate::lookup::{last_wins, lemma_last_wins_distinct};

verus! {

/// `n` zero bytes.
pub open spec fn zeros(n: nat) -> Seq<u8> {
    Seq::new(n, |i: int| 0u8)
}

/// The `n` little-endian bytes of `v`, cut to `n` bytes.
pub open spec fn le_bytes(v: nat, n: nat) -> Seq<u8>
    decreases n,
{
    if n == 0 {
        seq![]
    } else {
        seq![(v % 256) as u8] + le_bytes(v / 256, (n - 1) as nat)
    }
}

/// `v` can be written in `n` bytes.
pub open spec fn fits(v: nat, n: nat) -> bool
    decreases n,
{
    if n == 0 {
        v == 0
    } else {
        fits(v / 256, (n - 1) as nat)
    }
}

/// A name field: the name's bytes padded with NUL bytes to the field's size.
pub open spec fn name_field(name: Seq<u8>) -> Seq<u8> {
    name + zeros((IMG_NAME_SIZE - name.len()) as nat)
}

pub open spec fn encode_record(w: nat, r: BlockDigest) -> Seq<u8> {
    le_bytes(r.0.0, w) + le_bytes(r.0.1, w) + r.1
}

pub open spec fn encode_records(w: nat, rs: Seq<BlockDigest>) -> Seq<u8>
    decreases rs.len(),
{
    if rs.len() == 0 {
        seq![]
    } else {
        encode_record(w, rs[0]) + encode_records(w, rs.drop_first())
    }
}

/// An image as written: its name, the bytes of its size field, its records.
pub type WrittenImage = (Seq<u8>, Seq<u8>, Seq<BlockDigest>);

/// A section: name field, record count, size field, then the records.
pub open spec fn encode_section(w: nat, img: WrittenImage) -> Seq<u8> {
    name_field(img.0) + le_bytes(img.2.len(), 2) + img.1 + encode_records(w, img.2)
}

pub open spec fn encode_sections(w: nat, imgs: Seq<WrittenImage>) -> Seq<u8>
    decreases imgs.len(),
{
    if imgs.len() == 0 {
        seq![]
    } else {
        encode_section(w, imgs[0]) + encode_sections(w, imgs.drop_first())
    }
}

/// A whole table: the digest-algorithm header and the reserved bytes as
/// given in `head`, the total length, then the sections.
pub open spec fn encode_table(w: nat, head: Seq<u8>, imgs: Seq<WrittenImage>) -> Seq<u8> {
    let body = encode_sections(w, imgs);
    head + le_bytes((SECTIONS_START + body.len()) as nat, 4) + body
}

/// The digest size that a header holds.
pub open spec fn head_digest_size(head: Seq<u8>) -> nat {
    le_at(head, 8, 2)
}

/// Each record has addresses that fit the width and a digest of size `d`.
pub open spec fn records_fit(w: nat, d: nat, rs: Seq<BlockDigest>) -> bool {
    forall|i: int|
        0 <= i < rs.len() ==> fits((#[trigger] rs[i]).0.0, w) && fits(rs[i].0.1, w)
            && rs[i].1.len() == d
}

/// A name that fills at most the field, is UTF-8, and does not end in NUL.
pub open spec fn name_fits(name: Seq<u8>) -> bool {
    &&& name.len() <= IMG_NAME_SIZE
    &&& valid_utf8(name)
    &&& (name.len() == 0 || name.last() != 0)
}

pub open spec fn images_fit(w: nat, d: nat, imgs: Seq<WrittenImage>) -> bool {
    forall|i: int|
        0 <= i < imgs.len() ==> name_fits((#[trigger] imgs[i]).0) && imgs[i].1.len() == w && fits(
            imgs[i].2.len(),
            2,
        ) && records_fit(w, d, imgs[i].2)
}

/// What a written section decodes to.
pub open spec fn image_models(imgs: Seq<WrittenImage>) -> Seq<
    (Seq<char>, ImageDigests),
> {
    imgs.map_values(|img: WrittenImage| (decode_utf8(img.0), last_wins(img.2)))
}

proof fn lemma_le_round_trip(v: nat, n: nat)
    requires
        fits(v, n),
    ensures
        le_bytes(v, n).len() == n,
        le_value(le_bytes(v, n)) == v,
    decreases n,
{
    if n > 0 {
        lemma_le_round_trip(v / 256, (n - 1) as nat);
        assert(le_bytes(v, n).drop_first() =~= le_bytes(v / 256, (n - 1) as nat));
    }
}

proof fn lemma_strip_padding(name: Seq<u8>, k: nat)
    requires
        name.len() == 0 || name.last() != 0,
    ensures
        strip_nul(name + zeros(k)) == name,
    decreases k,
{
    if k == 0 {
        assert(name + zeros(0) =~= name);
    } else {
        assert((name + zeros(k)).drop_last() =~= name + zeros((k - 1) as nat));
        lemma_strip_padding(name, (k - 1) as nat);
    }
}

/// `buf` holds `enc` at `off`, so it holds each piece of `enc` at the matching place.
proof fn lemma_holds_piece(buf: Seq<u8>, off: int, enc: Seq<u8>, a: int, b: int)
    requires
        0 <= off,
        off + enc.len() <= buf.len(),
        buf.subrange(off, off + enc.len()) == enc,
        0 <= a <= b <= enc.len(),
    ensures
        buf.subrange(off + a, off + b) == enc.subrange(a, b),
{
    assert forall|i: int| 0 <= i < b - a implies buf.subrange(off + a, off + b)[i] == enc.subrange(
        a,
        b,
    )[i] by {
        assert(buf.subrange(off, off + enc.len())[a + i] == enc[a + i]);
    }
    assert(buf.subrange(off + a, off + b) =~= enc.subrange(a, b));
}

proof fn lemma_records_decode(buf: Seq<u8>, w: nat, d: nat, off: int, rs: Seq<BlockDigest>)
    requires
        0 <= off,
        off + encode_records(w, rs).len() <= buf.len(),
        buf.subrange(off, off + encode_records(w, rs).len()) == encode_records(w, rs),
        records_fit(w, d, rs),
    ensures
        encode_records(w, rs).len() == rs.len() * record_size(w, d),
        parse_records(buf, w, d, off, rs.len()) == Ok::<_, crate::error::HashDataError>(rs),
    decreases rs.len(),
{
    let enc = encode_records(w, rs);
    if rs.len() > 0 {
        let r = rs[0];
        let rest = rs.drop_first();
        let er = encode_record(w, r);
        assert(fits(r.0.0, w) && fits(r.0.1, w) && r.1.len() == d);
        lemma_le_round_trip(r.0.0, w);
        lemma_le_round_trip(r.0.1, w);
        let rsz = record_size(w, d) as int;
        let w2 = 2 * w as int;
        assert(er.len() == rsz);
        assert(enc == er + encode_records(w, rest));
        assert(records_fit(w, d, rest)) by {
            assert forall|i: int| 0 <= i < rest.len() implies fits((#[trigger] rest[i]).0.0, w)
                && fits(rest[i].0.1, w) && rest[i].1.len() == d by {
                assert(rest[i] == rs[i + 1]);
            }
        }
        lemma_holds_piece(buf, off, enc, 0, w as int);
        assert(enc.subrange(0, w as int) =~= le_bytes(r.0.0, w));
        lemma_holds_piece(buf, off, enc, w as int, w2);
        assert(enc.subrange(w as int, w2) =~= le_bytes(r.0.1, w));
        lemma_holds_piece(buf, off, enc, w2, rsz);
        assert(enc.subrange(w2, rsz) =~= r.1);
        lemma_holds_piece(buf, off, enc, rsz, enc.len() as int);
        assert(enc.subrange(rsz, enc.len() as int) =~= encode_records(w, rest));
        lemma_records_decode(buf, w, d, off + rsz, rest);
        assert(le_at(buf, off, w as int) == r.0.0);
        assert(le_at(buf, off + w, w as int) == r.0.1);
        assert(buf.subrange(off + w2, off + w2 + d) == r.1);
        assert(record_at(buf, w, d, off) == r);
        assert(off + record_size(w, d) <= buf.len());
        assert(parse_records(buf, w, d, off, rs.len()) == Ok::<_, crate::error::HashDataError>(
            seq![r] + rest,
        ));
        assert(seq![r] + rest =~= rs);
        let n = rest.len();
        assert(rsz + n * rsz == (n + 1) * rsz) by (nonlinear_arith);
    } else {
        assert(rs =~= seq![]);
    }
}

proof fn lemma_sections_decode(
    buf: Seq<u8>,
    w: nat,
    d: nat,
    off: int,
    imgs: Seq<WrittenImage>,
)
    requires
        0 <= off,
        off + encode_sections(w, imgs).len() <= buf.len(),
        buf.subrange(off, off + encode_sections(w, imgs).len()) == encode_sections(w, imgs),
        images_fit(w, d, imgs),
    ensures
        parse_sections(buf, w, d, off + encode_sections(w, imgs).len(), off) == Ok::<
            _,
            crate::error::HashDataError,
        >(image_models(imgs)),
    decreases imgs.len(),
{
    let enc = encode_sections(w, imgs);
    let end = off + enc.len();
    if imgs.len() == 0 {
        assert(image_models(imgs) =~= seq![]);
    } else {
        let img = imgs[0];
        let rest = imgs.drop_first();
        let es = encode_section(w, img);
        let er = encode_records(w, img.2);
        assert(name_fits(img.0) && img.1.len() == w && fits(img.2.len(), 2) && records_fit(
            w,
            d,
            img.2,
        ));
        lemma_le_round_trip(img.2.len(), 2);
        let nf = name_field(img.0);
        assert(nf.len() == IMG_NAME_SIZE);
        let hs = IMG_NAME_SIZE + 2 + w;
        assert(es.len() == hs + er.len());
        assert(enc == es + encode_sections(w, rest));
        // the name
        lemma_holds_piece(buf, off, enc, 0, IMG_NAME_SIZE as int);
        assert(enc.subrange(0, IMG_NAME_SIZE as int) =~= nf);
        lemma_strip_padding(img.0, (IMG_NAME_SIZE - img.0.len()) as nat);
        assert(image_name(buf.subrange(off, off + IMG_NAME_SIZE)) == Some(decode_utf8(img.0)));
        // the record count
        lemma_holds_piece(buf, off, enc, IMG_NAME_SIZE as int, IMG_NAME_SIZE + 2);
        assert(enc.subrange(IMG_NAME_SIZE as int, IMG_NAME_SIZE + 2) =~= le_bytes(
            img.2.len(),
            2,
        ));
        assert(le_at(buf, off + IMG_NAME_SIZE, 2) == img.2.len());
        // the records
        lemma_holds_piece(buf, off, enc, hs as int, hs + er.len());
        assert(enc.subrange(hs as int, hs + er.len()) =~= er);
        lemma_records_decode(buf, w, d, off + hs, img.2);
        // the sections after it
        lemma_holds_piece(buf, off, enc, es.len() as int, enc.len() as int);
        assert(enc.subrange(es.len() as int, enc.len() as int) =~= encode_sections(w, rest));
        assert(images_fit(w, d, rest)) by {
            assert forall|i: int| 0 <= i < rest.len() implies name_fits((#[trigger] rest[i]).0)
                && rest[i].1.len() == w && fits(rest[i].2.len(), 2) && records_fit(w, d, rest[i].2) by {
                assert(rest[i] == imgs[i + 1]);
            }
        }
        lemma_sections_decode(buf, w, d, off + es.len(), rest);
        assert(image_models(imgs) =~= seq![(decode_utf8(img.0), last_wins(img.2))]
            + image_models(rest));
    }
}

/// A written table decodes to what was written: each image's name and its
/// digests by address range, later entries overwriting earlier ones.
pub proof fn lemma_written_table_decodes(w: nat, head: Seq<u8>, imgs: Seq<WrittenImage>)
    requires
        head.len() == 18,
        images_fit(w, head_digest_size(head), imgs),
        fits((SECTIONS_START + encode_sections(w, imgs).len()) as nat, 4),
    ensures
        decode_table(encode_table(w, head, imgs), w) == Ok::<_, crate::error::HashDataError>(
            last_wins(image_models(imgs)),
        ),
{
    let body = encode_sections(w, imgs);
    let buf = encode_table(w, head, imgs);
    let total = (SECTIONS_START + body.len()) as nat;
    lemma_le_round_trip(total, 4);
    assert(buf.len() == SECTIONS_START + body.len());
    assert(buf.subrange(8, 10) =~= head.subrange(8, 10));
    assert(buf.subrange(18, 22) =~= le_bytes(total, 4));
    assert(buf.subrange(SECTIONS_START as int, SECTIONS_START + body.len()) =~= body);
    lemma_sections_decode(buf, w, head_digest_size(head), SECTIONS_START as int, imgs);
}

/// A table written with `K` images of distinct names, each with `m` records
/// for distinct address ranges, decodes to exactly `K` images of exactly `m`
/// ranges each, every range holding the digest written for it.
pub proof fn lemma_written_table_counts(
    w: nat,
    head: Seq<u8>,
    imgs: Seq<WrittenImage>,
    m: nat,
)
    requires
        head.len() == 18,
        images_fit(w, head_digest_size(head), imgs),
        fits((SECTIONS_START + encode_sections(w, imgs).len()) as nat, 4),
        forall|i: int| 0 <= i < imgs.len() ==> (#[trigger] imgs[i]).2.len() == m,
        forall|i: int, j: int|
            0 <= i < j < imgs.len() ==> decode_utf8((#[trigger] imgs[i]).0) != decode_utf8(
                (#[trigger] imgs[j]).0,
            ),
        forall|i: int, a: int, b: int|
            0 <= i < imgs.len() && 0 <= a < b < m ==> (#[trigger] imgs[i].2[a]).0 != (
            #[trigger] imgs[i].2[b]).0,
    ensures
        decode_table(encode_table(w, head, imgs), w) is Ok,
        decode_table(encode_table(w, head, imgs), w)->Ok_0.dom().len() == imgs.len(),
        forall|i: int|
            0 <= i < imgs.len() ==> {
                let t = decode_table(encode_table(w, head, imgs), w)->Ok_0;
                let name = decode_utf8((#[trigger] imgs[i]).0);
                &&& t.contains_key(name)
                &&& t[name].dom().len() == m
                &&& forall|j: int|
                    0 <= j < m ==> t[name].contains_key((#[trigger] imgs[i].2[j]).0)
                        && t[name][imgs[i].2[j].0] == imgs[i].2[j].1
            },
{
    lemma_written_table_decodes(w, head, imgs);
    let models = image_models(imgs);
    let t = last_wins(models);
    assert forall|i: int, j: int| 0 <= i < j < models.len() implies (#[trigger] models[i]).0 != (
    #[trigger] models[j]).0 by {
        assert(decode_utf8(imgs[i].0) != decode_utf8(imgs[j].0));
    }
    lemma_last_wins_distinct(models);
    assert forall|i: int| 0 <= i < imgs.len() implies {
        let name = decode_utf8((#[trigger] imgs[i]).0);
        &&& t.contains_key(name)
        &&& t[name].dom().len() == m
        &&& forall|j: int|
            0 <= j < m ==> t[name].contains_key((#[trigger] imgs[i].2[j]).0) && t[name][imgs[i].2[
                j].0] == imgs[i].2[j].1
    } by {
        let rs = imgs[i].2;
        assert(models[i] == (decode_utf8(imgs[i].0), last_wins(rs)));
        assert forall|a: int, b: int| 0 <= a < b < rs.len() implies (#[trigger] rs[a]).0 != (
        #[trigger] rs[b]).0 by {
            assert(imgs[i].2[a].0 != imgs[i].2[b].0);
        }
        lemma_last_wins_distinct(rs);
    }
}

} // verus!
