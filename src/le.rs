//! Little-endian unsigned integers of the two address widths.
use vstd::prelude::*;

verus! {

/// The value of a little-endian byte string.
pub open spec fn le_value(b: Seq<u8>) -> nat
    decreases b.len(),
{
    if b.len() == 0 {
        0
    } else {
        b[0] as nat + 256 * le_value(b.drop_first())
    }
}

/// An unsigned integer stored as a fixed number of little-endian bytes.
pub trait ReadLeBytes: Sized {
    /// Number of bytes of the stored form.
    spec fn spec_width() -> nat;

    /// The integer as a mathematical value.
    spec fn spec_value(&self) -> nat;

    /// Number of bytes of the stored form.
    fn width() -> (r: usize)
        ensures
            r == Self::spec_width(),
            r == 4 || r == 8,
    ;

    /// The integer stored in `buffer`, least significant byte first.
    fn read_le_bytes(buffer: &[u8]) -> (r: Self)
        requires
            buffer@.len() == Self::spec_width(),
        ensures
            r.spec_value() == le_value(buffer@),
    ;

    /// The integer widened to 64 bits.
    fn to_u64(&self) -> (r: u64)
        ensures
            r as nat == self.spec_value(),
    ;
}

impl ReadLeBytes for u32 {
    open spec fn spec_width() -> nat {
        4
    }

    open spec fn spec_value(&self) -> nat {
        *self as nat
    }

    /// Number of bytes of the stored form.
    fn width() -> (r: usize) {
        4
    }

    fn read_le_bytes(buffer: &[u8]) -> (r: u32) {
        proof {
            reveal_with_fuel(le_value, 5);
        }
        buffer[0] as u32 + 256 * (buffer[1] as u32 + 256 * (buffer[2] as u32 + 256
            * buffer[3] as u32))
    }

    fn to_u64(&self) -> (r: u64) {
        *self as u64
    }
}

impl ReadLeBytes for u64 {
    open spec fn spec_width() -> nat {
        8
    }

    open spec fn spec_value(&self) -> nat {
        *self as nat
    }

    /// Number of bytes of the stored form.
    fn width() -> (r: usize) {
        8
    }

    fn read_le_bytes(buffer: &[u8]) -> (r: u64) {
        proof {
            reveal_with_fuel(le_value, 9);
        }
        let lo = buffer[0] as u64 + 256 * (buffer[1] as u64 + 256 * (buffer[2] as u64 + 256
            * buffer[3] as u64));
        let hi = buffer[4] as u64 + 256 * (buffer[5] as u64 + 256 * (buffer[6] as u64 + 256
            * buffer[7] as u64));
        lo + 4294967296 * hi
    }

    fn to_u64(&self) -> (r: u64) {
        *self
    }
}

/// Reads a 16-bit little-endian integer at `off`.
pub fn read_u16_at(buffer: &[u8], off: usize) -> (r: u16)
    requires
        off + 2 <= buffer@.len(),
    ensures
        r as nat == le_value(buffer@.subrange(off as int, off + 2)),
{
    proof {
        reveal_with_fuel(le_value, 3);
    }
    buffer[off] as u16 + 256 * buffer[off + 1] as u16
}

/// Reads a 32-bit little-endian integer at `off`.
pub fn read_u32_at(buffer: &[u8], off: usize) -> (r: u32)
    requires
        off + 4 <= buffer@.len(),
    ensures
        r as nat == le_value(buffer@.subrange(off as int, off + 4)),
{
    let len = buffer.len();
    assert(off + 4 <= len);
    u32::read_le_bytes(&buffer[off..off + 4])
}

} // verus!
