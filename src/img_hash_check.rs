//! The binary table of per-block digests of update images.
//!
//! Layout, all integers little-endian: a 16-byte digest-algorithm header whose
//! bytes 8..10 hold the digest size; two reserved bytes; a 32-bit total length
//! `T`; then, while the offset is below `T`, image sections. A section is a
//! 32-byte NUL-padded name, a 16-bit record count, an address-width size field,
//! and that many records of two address-width integers and a digest.
use vstd::prelude::*;
use vstd::slice::slice_to_vec;
use vstd::utf8::{decode_utf8, valid_utf8};

use crate::error::HashDataError;
use crate::le::{le_value, read_u16_at, read_u32_at, ReadLeBytes};
use crate::lookup::{last_wins, lemma_last_wins_absent, lemma_last_wins_lookup};
use crate::text::utf8_to_string;

verus! {

/// Size of the digest-algorithm header.
pub const HASH_INFO_SIZE: usize = 16;

/// Offset of the first image section: the header, two reserved bytes and the length field.
pub const SECTIONS_START: usize = 22;

/// Size of the name field of a section header.
pub const IMG_NAME_SIZE: usize = 32;

/// A digest record: an address range and its digest.
pub type BlockDigest = ((nat, nat), Seq<u8>);

/// Digests of one image, by address range.
pub type ImageDigests = Map<(nat, nat), Seq<u8>>;

/// The integer stored in `n` bytes at `off`.
pub open spec fn le_at(b: Seq<u8>, off: int, n: int) -> nat {
    le_value(b.subrange(off, off + n))
}

/// The bytes without their trailing NUL bytes.
pub open spec fn strip_nul(b: Seq<u8>) -> Seq<u8>
    decreases b.len(),
{
    if b.len() > 0 && b.last() == 0 {
        strip_nul(b.drop_last())
    } else {
        b
    }
}

/// The name held in a NUL-padded field, if the rest is valid UTF-8.
pub open spec fn image_name(field: Seq<u8>) -> Option<Seq<char>> {
    let t = strip_nul(field);
    if valid_utf8(t) {
        Some(decode_utf8(t))
    } else {
        None
    }
}

/// Size of a section header for address width `w`.
pub open spec fn header_size(w: nat) -> nat {
    (IMG_NAME_SIZE + 2 + w) as nat
}

/// Size of a digest record for address width `w` and digest size `d`.
pub open spec fn record_size(w: nat, d: nat) -> nat {
    2 * w + d
}

/// The record stored at `off`.
pub open spec fn record_at(buf: Seq<u8>, w: nat, d: nat, off: int) -> BlockDigest {
    ((le_at(buf, off, w as int), le_at(buf, off + w, w as int)), buf.subrange(
        off + 2 * w,
        off + 2 * w + d,
    ))
}

/// The `n` records stored from `off` on.
pub open spec fn parse_records(buf: Seq<u8>, w: nat, d: nat, off: int, n: nat) -> Result<
    Seq<BlockDigest>,
    HashDataError,
>
    decreases n,
{
    if n == 0 {
        Ok(seq![])
    } else if off + record_size(w, d) > buf.len() {
        Err(HashDataError::TruncatedRecord)
    } else {
        match parse_records(buf, w, d, off + record_size(w, d), (n - 1) as nat) {
            Ok(rest) => Ok(seq![record_at(buf, w, d, off)] + rest),
            Err(e) => Err(e),
        }
    }
}

/// The sections stored from `off` on, while the offset is below `end`.
pub open spec fn parse_sections(buf: Seq<u8>, w: nat, d: nat, end: int, off: int) -> Result<
    Seq<(Seq<char>, ImageDigests)>,
    HashDataError,
>
    decreases (if off < end { end - off } else { 0 }),
    via parse_sections_decreases
{
    if off >= end {
        Ok(seq![])
    } else if off + header_size(w) > buf.len() {
        Err(HashDataError::TruncatedSection)
    } else {
        match image_name(buf.subrange(off, off + IMG_NAME_SIZE)) {
            None => Err(HashDataError::InvalidName),
            Some(name) => {
                let n = le_at(buf, off + IMG_NAME_SIZE, 2);
                let start = off + header_size(w);
                match parse_records(buf, w, d, start, n) {
                    Err(e) => Err(e),
                    Ok(recs) => match parse_sections(
                        buf,
                        w,
                        d,
                        end,
                        start + n * record_size(w, d),
                    ) {
                        Ok(rest) => Ok(seq![(name, last_wins(recs))] + rest),
                        Err(e) => Err(e),
                    },
                }
            },
        }
    }
}

#[via_fn]
proof fn parse_sections_decreases(buf: Seq<u8>, w: nat, d: nat, end: int, off: int) {
    let n = le_at(buf, off + IMG_NAME_SIZE, 2);
    let r = record_size(w, d);
    assert(n * r >= 0) by (nonlinear_arith)
        requires
            n >= 0,
            r >= 0,
    ;
}

/// The sections of a whole buffer, in the order in which they are stored.
pub open spec fn decode_sections(buf: Seq<u8>, w: nat) -> Result<
    Seq<(Seq<char>, ImageDigests)>,
    HashDataError,
> {
    if buf.len() < SECTIONS_START {
        Err(HashDataError::TruncatedHeader)
    } else if buf.len() < le_at(buf, 18, 4) {
        Err(HashDataError::TruncatedBody)
    } else {
        parse_sections(buf, w, le_at(buf, 8, 2), le_at(buf, 18, 4) as int, SECTIONS_START as int)
    }
}

/// The table that a buffer holds: digests by image name, then by address
/// range, a later section or record overwriting an earlier one with the same key.
pub open spec fn decode_table(buf: Seq<u8>, w: nat) -> Result<
    Map<Seq<char>, ImageDigests>,
    HashDataError,
> {
    match decode_sections(buf, w) {
        Ok(s) => Ok(last_wins(s)),
        Err(e) => Err(e),
    }
}

/// A buffer cut anywhere before its declared total length fails with a
/// truncation error: of the header where the cut leaves no length field, of
/// the body otherwise.
pub proof fn lemma_truncated_table_fails(buf: Seq<u8>, k: int, w: nat)
    requires
        SECTIONS_START <= buf.len(),
        0 <= k < le_at(buf, 18, 4),
        k <= buf.len(),
    ensures
        decode_table(buf.take(k), w) == Err::<Map<Seq<char>, ImageDigests>, _>(
            if k < SECTIONS_START {
                HashDataError::TruncatedHeader
            } else {
                HashDataError::TruncatedBody
            },
        ),
{
    if k >= SECTIONS_START {
        assert(buf.take(k).subrange(18, 22) =~= buf.subrange(18, 22));
    }
}

/// `acc` followed by what `r` holds, or the error of `r`.
pub open spec fn prepend<A>(acc: Seq<A>, r: Result<Seq<A>, HashDataError>) -> Result<
    Seq<A>,
    HashDataError,
> {
    match r {
        Ok(s) => Ok(acc + s),
        Err(e) => Err(e),
    }
}

proof fn lemma_prepend_push<A>(acc: Seq<A>, x: A, r: Result<Seq<A>, HashDataError>)
    ensures
        prepend(acc, prepend(seq![x], r)) == prepend(acc.push(x), r),
{
    if let Ok(s) = r {
        assert(acc + (seq![x] + s) =~= acc.push(x) + s);
    }
}

/// The header fields that describe the digest algorithm.
struct HashInfo {
    tlv_type: u16,
    tlv_len: u32,
    algorithm: u16,
    algo_size: u16,
    component_count: u16,
    block_size: u32,
}

impl HashInfo {
    /// Reads the header from the start of `buffer`, if it is long enough.
    fn read_from_le_bytes(buffer: &[u8]) -> (r: Option<HashInfo>)
        ensures
            r is Some <==> buffer@.len() >= HASH_INFO_SIZE,
            r matches Some(h) ==> {
                &&& h.tlv_type as nat == le_at(buffer@, 0, 2)
                &&& h.tlv_len as nat == le_at(buffer@, 2, 4)
                &&& h.algorithm as nat == le_at(buffer@, 6, 2)
                &&& h.algo_size as nat == le_at(buffer@, 8, 2)
                &&& h.component_count as nat == le_at(buffer@, 10, 2)
                &&& h.block_size as nat == le_at(buffer@, 12, 4)
            },
    {
        if buffer.len() < HASH_INFO_SIZE {
            return None;
        }
        Some(
            HashInfo {
                tlv_type: read_u16_at(buffer, 0),
                tlv_len: read_u32_at(buffer, 2),
                algorithm: read_u16_at(buffer, 6),
                algo_size: read_u16_at(buffer, 8),
                component_count: read_u16_at(buffer, 10),
                block_size: read_u32_at(buffer, 12),
            },
        )
    }
}

/// A section header.
struct HashHeader<T: ReadLeBytes> {
    image_name: String,
    hash_num: u16,
    img_size: T,
}

impl<T: ReadLeBytes> HashHeader<T> {
    /// Reads a section header from the start of `buffer`. Fails with
    /// `TruncatedSection` when the buffer is shorter than a header, and with
    /// `InvalidName` when the name is not UTF-8.
    fn read_from_le_bytes(buffer: &[u8]) -> (r: Result<HashHeader<T>, HashDataError>)
        ensures
            r is Ok <==> buffer@.len() >= header_size(T::spec_width()) && image_name(
                buffer@.subrange(0, IMG_NAME_SIZE as int),
            ) is Some,
            r is Err ==> r->Err_0 == if buffer@.len() < header_size(T::spec_width()) {
                HashDataError::TruncatedSection
            } else {
                HashDataError::InvalidName
            },
            r matches Ok(h) ==> {
                &&& Some(h.image_name@) == image_name(buffer@.subrange(0, IMG_NAME_SIZE as int))
                &&& h.hash_num as nat == le_at(buffer@, IMG_NAME_SIZE as int, 2)
                &&& h.img_size.spec_value() == le_at(
                    buffer@,
                    IMG_NAME_SIZE + 2,
                    T::spec_width() as int,
                )
            },
    {
        let w = T::width();
        if buffer.len() < IMG_NAME_SIZE + 2 + w {
            return Err(HashDataError::TruncatedSection);
        }
        let field = Ghost(buffer@.subrange(0, IMG_NAME_SIZE as int));
        let mut k: usize = IMG_NAME_SIZE;
        while k > 0 && buffer[k - 1] == 0
            invariant
                k <= IMG_NAME_SIZE,
                buffer@.len() >= IMG_NAME_SIZE,
                field@ == buffer@.subrange(0, IMG_NAME_SIZE as int),
                strip_nul(buffer@.subrange(0, k as int)) == strip_nul(field@),
            decreases k,
        {
            assert(buffer@.subrange(0, k as int).drop_last() =~= buffer@.subrange(0, k - 1));
            k -= 1;
        }
        assert(strip_nul(buffer@.subrange(0, k as int)) == buffer@.subrange(0, k as int));
        let name = match utf8_to_string(slice_to_vec(&buffer[0..k])) {
            Some(s) => s,
            None => return Err(HashDataError::InvalidName),
        };
        let hash_num = read_u16_at(buffer, IMG_NAME_SIZE);
        let img_size = T::read_le_bytes(&buffer[IMG_NAME_SIZE + 2..IMG_NAME_SIZE + 2 + w]);
        Ok(HashHeader { image_name: name, hash_num, img_size })
    }
}

/// A digest record as stored.
struct HashData<T: ReadLeBytes> {
    addr_star: T,
    addr_end: T,
    hash_data: Vec<u8>,
}

impl<T: ReadLeBytes> HashData<T> {
    spec fn model(&self) -> BlockDigest {
        ((self.addr_star.spec_value(), self.addr_end.spec_value()), self.hash_data@)
    }

    /// Reads a record that fills `buffer`.
    fn read_from_le_bytes(buffer: &[u8]) -> (r: HashData<T>)
        requires
            buffer@.len() >= 2 * T::spec_width(),
        ensures
            r.model() == record_at(
                buffer@,
                T::spec_width(),
                (buffer@.len() - 2 * T::spec_width()) as nat,
                0,
            ),
    {
        let w = T::width();
        let addr_star = T::read_le_bytes(&buffer[0..w]);
        let addr_end = T::read_le_bytes(&buffer[w..2 * w]);
        let hash_data = slice_to_vec(&buffer[2 * w..buffer.len()]);
        HashData { addr_star, addr_end, hash_data }
    }
}

/// The digests of one image.
struct ImageSection<T: ReadLeBytes> {
    image_name: String,
    records: Vec<HashData<T>>,
}

spec fn records_model<T: ReadLeBytes>(records: Seq<HashData<T>>) -> Seq<BlockDigest> {
    records.map_values(|r: HashData<T>| r.model())
}

impl<T: ReadLeBytes> ImageSection<T> {
    spec fn model(&self) -> (Seq<char>, ImageDigests) {
        (self.image_name@, last_wins(records_model(self.records@)))
    }
}

spec fn sections_model<T: ReadLeBytes>(data: Seq<ImageSection<T>>) -> Seq<
    (Seq<char>, ImageDigests),
> {
    data.map_values(|s: ImageSection<T>| s.model())
}

/// Position of the last record for the address range from `s` to `e`.
fn find_record<T: ReadLeBytes>(records: &Vec<HashData<T>>, s: u64, e: u64) -> (r: Option<usize>)
    ensures
        match r {
            Some(j) => j < records@.len() && records_model(records@)[j as int].0 == (
                s as nat,
                e as nat,
            ) && forall|m: int|
                j < m < records@.len() ==> (#[trigger] records_model(records@)[m]).0 != (
                    s as nat,
                    e as nat,
                ),
            None => forall|m: int|
                0 <= m < records@.len() ==> (#[trigger] records_model(records@)[m]).0 != (
                    s as nat,
                    e as nat,
                ),
        },
{
    let mut j = records.len();
    while j > 0
        invariant
            j <= records@.len(),
            forall|m: int|
                j <= m < records@.len() ==> (#[trigger] records_model(records@)[m]).0 != (
                    s as nat,
                    e as nat,
                ),
        decreases j,
    {
        if records[j - 1].addr_star.to_u64() == s && records[j - 1].addr_end.to_u64() == e {
            return Some(j - 1);
        }
        j -= 1;
    }
    None
}

/// A decoded table of block digests, with addresses of type `T`.
pub struct ImgHashData<T: ReadLeBytes> {
    data: Vec<ImageSection<T>>,
}

impl<T: ReadLeBytes> View for ImgHashData<T> {
    type V = Map<Seq<char>, ImageDigests>;

    closed spec fn view(&self) -> Map<Seq<char>, ImageDigests> {
        last_wins(sections_model(self.data@))
    }
}

impl<T: ReadLeBytes> ImgHashData<T> {
    /// Decodes a table of block digests with addresses of `T`'s width.
    /// Succeeds exactly when the buffer holds a complete table, which is then
    /// the table that `decode_table` describes; otherwise fails with the first
    /// fault met when reading the buffer from the start.
    pub fn load_img_hash_data(buffer: &[u8]) -> (r: Result<Self, HashDataError>)
        ensures
            match r {
                Ok(t) => decode_table(buffer@, T::spec_width()) == Ok::<_, HashDataError>(t@),
                Err(e) => decode_table(buffer@, T::spec_width()) == Err::<
                    Map<Seq<char>, ImageDigests>,
                    _,
                >(e),
            },
    {
        let buf = Ghost(buffer@);
        let info = match HashInfo::read_from_le_bytes(buffer) {
            Some(h) => h,
            None => return Err(HashDataError::TruncatedHeader),
        };
        if buffer.len() < SECTIONS_START {
            return Err(HashDataError::TruncatedHeader);
        }
        let total = read_u32_at(buffer, 18) as usize;
        if buffer.len() < total {
            return Err(HashDataError::TruncatedBody);
        }
        let w = T::width();
        let d = info.algo_size as usize;
        let hdr_size = IMG_NAME_SIZE + 2 + w;
        let rec_size = 2 * w + d;
        let ghost wn = T::spec_width();
        let ghost dn = d as nat;
        let mut data: Vec<ImageSection<T>> = Vec::new();
        let mut offset: usize = SECTIONS_START;
        while offset < total
            invariant
                buf@ == buffer@,
                total as nat == le_at(buf@, 18, 4),
                total <= buffer@.len(),
                dn == le_at(buf@, 8, 2),
                d == dn,
                w == wn,
                wn == T::spec_width(),
                w == 4 || w == 8,
                hdr_size == header_size(wn),
                rec_size == record_size(wn, dn),
                SECTIONS_START <= offset <= buffer@.len(),
                decode_sections(buf@, wn) == prepend(
                    sections_model(data@),
                    parse_sections(buf@, wn, dn, total as int, offset as int),
                ),
            decreases buffer@.len() - offset,
        {
            let hb = Ghost(buf@.subrange(offset as int, buf@.len() as int));
            proof {
                if hb@.len() >= hdr_size {
                    assert(hb@.subrange(0, IMG_NAME_SIZE as int) =~= buf@.subrange(
                offset as int,
                offset + IMG_NAME_SIZE,
            ));
                    assert(hb@.subrange(IMG_NAME_SIZE as int, IMG_NAME_SIZE + 2) =~= buf@.subrange(
                offset + IMG_NAME_SIZE,
                offset + IMG_NAME_SIZE + 2,
            ));
                }
            }
            let header = match HashHeader::<T>::read_from_le_bytes(&buffer[offset..buffer.len()]) {
                Ok(h) => h,
                Err(e) => return Err(e),
            };
            assert(hb@.len() >= hdr_size);
            let ghost sec_off = offset as int;
            let ghost n = header.hash_num as nat;
            offset += hdr_size;
            let ghost start = offset as int;
            let mut records: Vec<HashData<T>> = Vec::new();
            let mut k: u16 = 0;
            while k < header.hash_num
                invariant
                    buf@ == buffer@,
                    d == dn,
                    w == wn,
                    wn == T::spec_width(),
                    w == 4 || w == 8,
                    rec_size == record_size(wn, dn),
                    n == header.hash_num,
                    k <= header.hash_num,
                    offset <= buffer@.len(),
                    start <= offset,
                    offset == start + k * rec_size,
                    total as nat == le_at(buf@, 18, 4),
                    total <= buffer@.len(),
                    dn == le_at(buf@, 8, 2),
                    hdr_size == header_size(wn),
                    SECTIONS_START <= sec_off < total,
                    start == sec_off + hdr_size,
                    image_name(buf@.subrange(sec_off, sec_off + IMG_NAME_SIZE)) is Some,
                    n == le_at(buf@, sec_off + IMG_NAME_SIZE, 2),
                    decode_sections(buf@, wn) == prepend(
                        sections_model(data@),
                        parse_sections(buf@, wn, dn, total as int, sec_off),
                    ),
                    parse_records(buf@, wn, dn, start, n) == prepend(
                        records_model(records@),
                        parse_records(buf@, wn, dn, offset as int, (n - k) as nat),
                    ),
                decreases header.hash_num - k,
            {
                if buffer.len() - offset < rec_size {
                    return Err(HashDataError::TruncatedRecord);
                }
                let rb = Ghost(buf@.subrange(offset as int, offset + rec_size));
                let rec = HashData::<T>::read_from_le_bytes(&buffer[offset..offset + rec_size]);
                proof {
                    assert(rb@.subrange(0, wn as int) =~= buf@.subrange(
                        offset as int,
                        offset + wn,
                    ));
                    assert(rb@.subrange(wn as int, 2 * wn as int) =~= buf@.subrange(
                        offset + wn,
                        offset + 2 * wn,
                    ));
                    assert(rb@.subrange(2 * wn as int, rec_size as int) =~= buf@.subrange(
                        offset + 2 * wn,
                        offset + rec_size,
                    ));
                    assert(rec.model() == record_at(buf@, wn, dn, offset as int));
                    lemma_prepend_push(
                        records_model(records@),
                        rec.model(),
                        parse_records(
                            buf@,
                            wn,
                            dn,
                            offset + rec_size,
                            (n - k - 1) as nat,
                        ),
                    );
                    assert(k * rec_size + rec_size == (k + 1) * rec_size) by (nonlinear_arith);
                }
                let ghost before = records@;
                records.push(rec);
                assert(records_model(records@) =~= records_model(before).push(rec.model()));
                offset += rec_size;
                k += 1;
            }
            let sec = ImageSection { image_name: header.image_name, records };
            proof {
                assert(parse_records(buf@, wn, dn, start, n) == Ok::<_, HashDataError>(
                    records_model(sec.records@),
                )) by {
                    assert(records_model(sec.records@) + seq![] =~= records_model(sec.records@));
                }
                lemma_prepend_push(
                    sections_model(data@),
                    sec.model(),
                    parse_sections(buf@, wn, dn, total as int, offset as int),
                );
            }
            let ghost before = data@;
            data.push(sec);
            assert(sections_model(data@) =~= sections_model(before).push(sec.model()));
        }
        assert(sections_model(data@) + seq![] =~= sections_model(data@));
        Ok(ImgHashData { data })
    }

    /// Position of the last section named `img_name`.
    fn find_section(&self, img_name: &String) -> (r: Option<usize>)
        ensures
            match r {
                Some(i) => i < self.data@.len() && sections_model(self.data@)[i as int].0
                    == img_name@ && forall|j: int|
                    i < j < self.data@.len() ==> (#[trigger] sections_model(self.data@)[j]).0
                        != img_name@,
                None => forall|j: int|
                    0 <= j < self.data@.len() ==> (#[trigger] sections_model(self.data@)[j]).0
                        != img_name@,
            },
    {
        let mut i = self.data.len();
        while i > 0
            invariant
                i <= self.data@.len(),
                forall|j: int|
                    i <= j < self.data@.len() ==> (#[trigger] sections_model(self.data@)[j]).0
                        != img_name@,
            decreases i,
        {
            if self.data[i - 1].image_name == *img_name {
                return Some(i - 1);
            }
            i -= 1;
        }
        None
    }

    /// Tells whether the table holds, for image `img_name` and the address
    /// range from `start` to `end`, a digest equal to `hash_value`.
    /// Every byte of the digest is compared.
    pub fn check_img_hash(&self, img_name: String, start: T, end: T, hash_value: &[u8]) -> (r:
        bool)
        ensures
            r == {
                let key = (start.spec_value(), end.spec_value());
                &&& self@.contains_key(img_name@)
                &&& self@[img_name@].contains_key(key)
                &&& self@[img_name@][key] == hash_value@
            },
    {
        let ghost secs = sections_model(self.data@);
        let ghost key = (start.spec_value(), end.spec_value());
        let i = match self.find_section(&img_name) {
            Some(i) => i,
            None => {
                proof {
                    lemma_last_wins_absent(secs, img_name@);
                }
                return false;
            },
        };
        proof {
            lemma_last_wins_lookup(secs, i as int);
        }
        let records = &self.data[i].records;
        let ghost recs = records_model(records@);
        assert(self@[img_name@] == last_wins(recs));
        let j = match find_record(records, start.to_u64(), end.to_u64()) {
            Some(j) => j,
            None => {
                proof {
                    lemma_last_wins_absent(recs, key);
                }
                return false;
            },
        };
        proof {
            lemma_last_wins_lookup(recs, j as int);
        }
        let stored = &records[j].hash_data;
        assert(self@[img_name@][key] == stored@);
        if stored.len() != hash_value.len() {
            return false;
        }
        let mut same = true;
        let mut m: usize = 0;
        while m < stored.len()
            invariant
                m <= stored@.len(),
                stored@.len() == hash_value@.len(),
                same == (forall|q: int| 0 <= q < m ==> stored@[q] == hash_value@[q]),
            decreases stored@.len() - m,
        {
            if stored[m] != hash_value[m] {
                same = false;
            }
            m += 1;
        }
        proof {
            if same {
                assert(stored@ =~= hash_value@);
            }
        }
        same
    }
}

} // verus!
