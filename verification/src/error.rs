//! Error codes of the PFBinary codec.

use vstd::prelude::*;
use crate::header::HeaderError;

verus! {

/// Every way an encode or decode call can fail.
#[derive(Debug, Clone, Copy, PartialEq, Eq, Structural)]
pub enum Error {
    BadMagic,
    UnsupportedVersion,
    UnknownFlags,
    Checksum,
    Truncated,
    Trailing,
    UnknownTag,
    BadKey,
    VarInt,
    BadStrRef,
    MaxDepth,
    MaxSize,
    Overflow,
    UnsupportedType,
    Host,
    Internal,
}

/// Result type used throughout the codec.
pub type Result<T> = core::result::Result<T, Error>;

impl Error {
    /// The numeric ABI code of this error.
    pub fn code(&self) -> (c: u8)
        ensures
            c == self.spec_code(),
    {
        match self {
            Error::BadMagic => 1,
            Error::UnsupportedVersion => 2,
            Error::UnknownFlags => 3,
            Error::Checksum => 4,
            Error::Truncated => 5,
            Error::Trailing => 6,
            Error::UnknownTag => 7,
            Error::BadKey => 8,
            Error::VarInt => 9,
            Error::BadStrRef => 10,
            Error::MaxDepth => 11,
            Error::MaxSize => 12,
            Error::Overflow => 13,
            Error::UnsupportedType => 14,
            Error::Host => 15,
            Error::Internal => 127,
        }
    }

    pub open spec fn spec_code(&self) -> u8 {
        match self {
            Error::BadMagic => 1,
            Error::UnsupportedVersion => 2,
            Error::UnknownFlags => 3,
            Error::Checksum => 4,
            Error::Truncated => 5,
            Error::Trailing => 6,
            Error::UnknownTag => 7,
            Error::BadKey => 8,
            Error::VarInt => 9,
            Error::BadStrRef => 10,
            Error::MaxDepth => 11,
            Error::MaxSize => 12,
            Error::Overflow => 13,
            Error::UnsupportedType => 14,
            Error::Host => 15,
            Error::Internal => 127,
        }
    }

    /// The message of this error.
    pub open spec fn spec_message(&self) -> Seq<char> {
        match self {
            Error::BadMagic => "bad magic"@,
            Error::UnsupportedVersion => "unsupported version"@,
            Error::UnknownFlags => "unknown flags"@,
            Error::Checksum => "checksum mismatch"@,
            Error::Truncated => "truncated input"@,
            Error::Trailing => "trailing bytes"@,
            Error::UnknownTag => "unknown tag"@,
            Error::BadKey => "bad array key"@,
            Error::VarInt => "invalid varint"@,
            Error::BadStrRef => "bad string reference"@,
            Error::MaxDepth => "max depth exceeded"@,
            Error::MaxSize => "max size exceeded"@,
            Error::Overflow => "length/count overflow"@,
            Error::UnsupportedType => "unsupported type"@,
            Error::Host => "host callback failed"@,
            Error::Internal => "internal error"@,
        }
    }

    /// The human-readable message of this error.
    pub fn message(&self) -> (s: &'static str)
        ensures
            s@ == self.spec_message(),
    {
        match self {
            Error::BadMagic => "bad magic",
            Error::UnsupportedVersion => "unsupported version",
            Error::UnknownFlags => "unknown flags",
            Error::Checksum => "checksum mismatch",
            Error::Truncated => "truncated input",
            Error::Trailing => "trailing bytes",
            Error::UnknownTag => "unknown tag",
            Error::BadKey => "bad array key",
            Error::VarInt => "invalid varint",
            Error::BadStrRef => "bad string reference",
            Error::MaxDepth => "max depth exceeded",
            Error::MaxSize => "max size exceeded",
            Error::Overflow => "length/count overflow",
            Error::UnsupportedType => "unsupported type",
            Error::Host => "host callback failed",
            Error::Internal => "internal error",
        }
    }
}

/// The codec error for a refused header.
pub open spec fn spec_header_error(e: HeaderError) -> Error {
    match e {
        HeaderError::Truncated => Error::Truncated,
        HeaderError::BadMagic => Error::BadMagic,
        HeaderError::UnsupportedVersion => Error::UnsupportedVersion,
        HeaderError::UnknownFlags => Error::UnknownFlags,
        HeaderError::Checksum => Error::Checksum,
    }
}

impl From<HeaderError> for Error {
    fn from(e: HeaderError) -> (r: Self) {
        match e {
            HeaderError::Truncated => Error::Truncated,
            HeaderError::BadMagic => Error::BadMagic,
            HeaderError::UnsupportedVersion => Error::UnsupportedVersion,
            HeaderError::UnknownFlags => Error::UnknownFlags,
            HeaderError::Checksum => Error::Checksum,
        }
    }
}

impl vstd::std_specs::convert::FromSpecImpl<HeaderError> for Error {
    open spec fn obeys_from_spec() -> bool {
        true
    }

    open spec fn from_spec(e: HeaderError) -> Self {
        spec_header_error(e)
    }
}

} // verus!
