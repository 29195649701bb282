use vstd::prelude::*;

verus! {

/// Every way in which parsing or looking up integrity data can fail.
#[derive(Debug, Clone, Copy, PartialEq, Eq, Structural)]
pub enum HashDataError {
    /// Malformed base64 text.
    InvalidEncoding,
    /// The manifest text is empty.
    EmptyInput,
    /// The manifest record with this index (among non-empty records) is malformed.
    MalformedRecord(usize),
    /// The buffer is too short for the fixed header or the length field.
    TruncatedHeader,
    /// The buffer is shorter than the declared table length.
    TruncatedBody,
    /// Too few bytes remain for an image section header.
    TruncatedSection,
    /// Too few bytes remain for a digest record.
    TruncatedRecord,
    /// An image name is not valid UTF-8.
    InvalidName,
    /// No manifest record has the requested name.
    NotFound,
}

} // verus!
