//! Status codes and handles of the C interface.

use vstd::prelude::*;
use crate::encoder::Encoder;
use crate::error::Error;

verus! {

/// Status of a C interface call: success, one of the codec errors, or a null argument.
#[derive(Debug, Clone, Copy, PartialEq, Eq, Structural)]
pub enum PfErr {
    Success,
    BadMagic,
    UnsupportedVersion,
    UnknownFlags,
    Checksum,
    Truncated,
    Trailing,
    UnknownTag,
    BadKey,
    VarInt,
    BadStrRef,
    MaxDepth,
    MaxSize,
    Overflow,
    UnsupportedType,
    Host,
    NullArg,
    Internal,
}

impl PfErr {
    /// The number a C caller sees for this status.
    pub open spec fn spec_code(&self) -> u8 {
        match self {
            PfErr::Success => 0,
            PfErr::BadMagic => 1,
            PfErr::UnsupportedVersion => 2,
            PfErr::UnknownFlags => 3,
            PfErr::Checksum => 4,
            PfErr::Truncated => 5,
            PfErr::Trailing => 6,
            PfErr::UnknownTag => 7,
            PfErr::BadKey => 8,
            PfErr::VarInt => 9,
            PfErr::BadStrRef => 10,
            PfErr::MaxDepth => 11,
            PfErr::MaxSize => 12,
            PfErr::Overflow => 13,
            PfErr::UnsupportedType => 14,
            PfErr::Host => 15,
            PfErr::NullArg => 16,
            PfErr::Internal => 127,
        }
    }

    /// The number a C caller sees for this status.
    pub fn code(&self) -> (c: u8)
        ensures
            c == self.spec_code(),
    {
        match self {
            PfErr::Success => 0,
            PfErr::BadMagic => 1,
            PfErr::UnsupportedVersion => 2,
            PfErr::UnknownFlags => 3,
            PfErr::Checksum => 4,
            PfErr::Truncated => 5,
            PfErr::Trailing => 6,
            PfErr::UnknownTag => 7,
            PfErr::BadKey => 8,
            PfErr::VarInt => 9,
            PfErr::BadStrRef => 10,
            PfErr::MaxDepth => 11,
            PfErr::MaxSize => 12,
            PfErr::Overflow => 13,
            PfErr::UnsupportedType => 14,
            PfErr::Host => 15,
            PfErr::NullArg => 16,
            PfErr::Internal => 127,
        }
    }
}

/// The status reporting a codec error: the variant of the same name.
pub open spec fn spec_pf_err(e: Error) -> PfErr {
    match e {
        Error::BadMagic => PfErr::BadMagic,
        Error::UnsupportedVersion => PfErr::UnsupportedVersion,
        Error::UnknownFlags => PfErr::UnknownFlags,
        Error::Checksum => PfErr::Checksum,
        Error::Truncated => PfErr::Truncated,
        Error::Trailing => PfErr::Trailing,
        Error::UnknownTag => PfErr::UnknownTag,
        Error::BadKey => PfErr::BadKey,
        Error::VarInt => PfErr::VarInt,
        Error::BadStrRef => PfErr::BadStrRef,
        Error::MaxDepth => PfErr::MaxDepth,
        Error::MaxSize => PfErr::MaxSize,
        Error::Overflow => PfErr::Overflow,
        Error::UnsupportedType => PfErr::UnsupportedType,
        Error::Host => PfErr::Host,
        Error::Internal => PfErr::Internal,
    }
}

impl From<Error> for PfErr {
    fn from(e: Error) -> (r: Self) {
        match e {
            Error::BadMagic => PfErr::BadMagic,
            Error::UnsupportedVersion => PfErr::UnsupportedVersion,
            Error::UnknownFlags => PfErr::UnknownFlags,
            Error::Checksum => PfErr::Checksum,
            Error::Truncated => PfErr::Truncated,
            Error::Trailing => PfErr::Trailing,
            Error::UnknownTag => PfErr::UnknownTag,
            Error::BadKey => PfErr::BadKey,
            Error::VarInt => PfErr::VarInt,
            Error::BadStrRef => PfErr::BadStrRef,
            Error::MaxDepth => PfErr::MaxDepth,
            Error::MaxSize => PfErr::MaxSize,
            Error::Overflow => PfErr::Overflow,
            Error::UnsupportedType => PfErr::UnsupportedType,
            Error::Host => PfErr::Host,
            Error::Internal => PfErr::Internal,
        }
    }
}

impl vstd::std_specs::convert::FromSpecImpl<Error> for PfErr {
    open spec fn obeys_from_spec() -> bool {
        true
    }

    open spec fn from_spec(e: Error) -> Self {
        spec_pf_err(e)
    }
}

/// A codec error and the status reporting it carry the same number.
pub proof fn lemma_pf_err_code(e: Error)
    ensures
        spec_pf_err(e).spec_code() == e.spec_code(),
        spec_pf_err(e) != PfErr::Success,
{
}

/// An encoder handed out to a C caller.
pub struct PfEncoder {
    pub inner: Encoder,
}

} // verus!
