use vstd::prelude::*;

verus! {

/// Why a decode failed.  Variants that point at a field or token carry its
/// bytes.
#[derive(Debug)]
pub enum NrrdError {
    /// The first line is absent or is not a recognized magic token; the
    /// offending line is carried.
    BadMagic(Vec<u8>),
    /// A required header field is absent; the field name is carried.
    MissingField(Vec<u8>),
    /// A token of an integer list field does not parse; the token is carried.
    InvalidInteger(Vec<u8>),
    /// The encoding field value is not a recognized encoding; it is carried.
    UnsupportedEncoding(Vec<u8>),
    /// A token of an ASCII payload does not parse as a number; it is carried.
    NumericParseFailure(Vec<u8>),
    /// A raw payload's byte count, or an ASCII payload's token count, does not
    /// match the expected element count.
    TruncatedPayload,
    /// A compressed payload is malformed or decompresses to a byte count that
    /// does not match the expected element count.
    DecompressionFailure,
}

/// Whether two errors agree, variant and carried bytes alike.
pub open spec fn same_error(a: NrrdError, b: NrrdError) -> bool {
    match (a, b) {
        (NrrdError::BadMagic(x), NrrdError::BadMagic(y)) => x@ == y@,
        (NrrdError::MissingField(x), NrrdError::MissingField(y)) => x@ == y@,
        (NrrdError::InvalidInteger(x), NrrdError::InvalidInteger(y)) => x@ == y@,
        (NrrdError::UnsupportedEncoding(x), NrrdError::UnsupportedEncoding(y)) => x@ == y@,
        (NrrdError::NumericParseFailure(x), NrrdError::NumericParseFailure(y)) => x@ == y@,
        (NrrdError::TruncatedPayload, NrrdError::TruncatedPayload) => true,
        (NrrdError::DecompressionFailure, NrrdError::DecompressionFailure) => true,
        _ => false,
    }
}

} // verus!
