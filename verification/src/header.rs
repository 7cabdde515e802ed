//! Document header: magic, version, flags and the optional payload checksum.

use vstd::prelude::*;

verus! {

/// ASCII magic `PFBN`.
pub const MAGIC: [u8; 4] = [0x50, 0x46, 0x42, 0x4E];
/// The format version this codec reads and writes.
pub const VERSION_V1: u8 = 1;
/// Flags bit 0: a 4-byte payload checksum follows the flags.
pub const FLAG_CHECKSUM: u8 = 1;
/// Flags bit 1: string deduplication (`STR_REF`) is enabled.
pub const FLAG_STRDEDUP: u8 = 2;
/// Flag bits that must be zero in v1.
pub const FLAGS_RESERVED_MASK: u8 = 0xFC;
/// Recommended default flags: dedup on, checksum off.
pub const FLAGS_DEFAULT: u8 = 2;
/// Header length without checksum: magic + version + flags.
pub const HEADER_BASE_LEN: usize = 6;
/// Length of the checksum field when present.
pub const CHECKSUM_LEN: usize = 4;

/// Why a header was refused.
#[derive(Debug, Clone, Copy, PartialEq, Eq, Structural)]
pub enum HeaderError {
    Truncated,
    BadMagic,
    UnsupportedVersion,
    UnknownFlags,
    Checksum,
}

/// A parsed header.
#[derive(Debug, Clone, Copy, PartialEq, Eq, Structural)]
pub struct Header {
    pub version: u8,
    pub flags: u8,
}

/// The 4 magic bytes.
pub open spec fn spec_magic() -> Seq<u8> {
    seq![0x50u8, 0x46u8, 0x42u8, 0x4Eu8]
}

/// Flags are valid when no reserved bit is set.
pub open spec fn spec_flags_valid(flags: u8) -> bool {
    flags & FLAGS_RESERVED_MASK == 0
}

pub open spec fn spec_has_checksum(flags: u8) -> bool {
    flags & FLAG_CHECKSUM != 0
}

pub open spec fn spec_has_strdedup(flags: u8) -> bool {
    flags & FLAG_STRDEDUP != 0
}

/// The header without checksum.
pub open spec fn spec_base_header(flags: u8) -> Seq<u8> {
    spec_magic() + seq![VERSION_V1, flags]
}

impl Header {
    pub open spec fn spec_header_len(self) -> nat {
        if spec_has_checksum(self.flags) {
            (HEADER_BASE_LEN + CHECKSUM_LEN) as nat
        } else {
            HEADER_BASE_LEN as nat
        }
    }

    /// True if the checksum flag is set.
    pub fn checksum_enabled(self) -> (r: bool)
        ensures
            r == spec_has_checksum(self.flags),
    {
        self.flags & FLAG_CHECKSUM != 0
    }

    /// True if the string dedup flag is set.
    pub fn strdedup_enabled(self) -> (r: bool)
        ensures
            r == spec_has_strdedup(self.flags),
    {
        self.flags & FLAG_STRDEDUP != 0
    }

    /// Bytes taken by the header, checksum included.
    pub fn header_len(self) -> (r: usize)
        ensures
            r == self.spec_header_len(),
    {
        if self.checksum_enabled() {
            HEADER_BASE_LEN + CHECKSUM_LEN
        } else {
            HEADER_BASE_LEN
        }
    }
}

/// Check that no reserved flag bit is set.
pub fn validate_flags(flags: u8) -> (r: Result<(), HeaderError>)
    ensures
        r is Ok <==> spec_flags_valid(flags),
        r is Err ==> r == Err::<(), HeaderError>(HeaderError::UnknownFlags),
{
    if flags & FLAGS_RESERVED_MASK != 0 {
        Err(HeaderError::UnknownFlags)
    } else {
        Ok(())
    }
}

/// What `xxhash_rust::xxh3::xxh3_64` returns for the given bytes.
pub uninterp spec fn spec_xxh3_64(input: Seq<u8>) -> u64;

/// The checksum field for a payload: XXH3-64 of the payload, low 32 bits, little-endian.
pub open spec fn spec_checksum(payload: Seq<u8>) -> Seq<u8> {
    let h = spec_xxh3_64(payload);
    seq![h as u8, (h >> 8) as u8, (h >> 16) as u8, (h >> 24) as u8]
}

/// Calls `xxhash_rust::xxh3::xxh3_64`, the 64-bit XXH3 hash with seed 0 and the default
/// secret. The contract claims only that the result is a function of the input bytes.
#[verifier::external_body]
fn xxh3_64(input: &[u8]) -> (h: u64)
    ensures
        h == spec_xxh3_64(input@),
{
    xxhash_rust::xxh3::xxh3_64(input)
}

/// XXH3-64 low 32 bits of `payload`, as little-endian bytes.
pub fn checksum_bytes(payload: &[u8]) -> (r: [u8; 4])
    ensures
        r@ == spec_checksum(payload@),
{
    let h = xxh3_64(payload);
    let r = [h as u8, (h >> 8u32) as u8, (h >> 16u32) as u8, (h >> 24u32) as u8];
    assert(r@ =~= spec_checksum(payload@));
    r
}

/// Append the base header (no checksum bytes) to `out`.
pub fn write_base_header(out: &mut Vec<u8>, flags: u8) -> (r: Result<(), HeaderError>)
    ensures
        r is Ok <==> spec_flags_valid(flags),
        r is Ok ==> final(out)@ == old(out)@ + spec_base_header(flags),
        r is Err ==> r == Err::<(), HeaderError>(HeaderError::UnknownFlags) && final(out)@ == old(out)@,
{
    validate_flags(flags)?;
    out.push(MAGIC[0]);
    out.push(MAGIC[1]);
    out.push(MAGIC[2]);
    out.push(MAGIC[3]);
    out.push(VERSION_V1);
    out.push(flags);
    assert(out@ =~= old(out)@ + spec_base_header(flags));
    Ok(())
}

/// What [`parse_header`] does with `data`: the header and the payload, or the refusal.
pub open spec fn spec_parse_header(data: Seq<u8>) -> Result<(Header, Seq<u8>), HeaderError> {
    if data.len() < HEADER_BASE_LEN {
        Err(HeaderError::Truncated)
    } else if data.subrange(0, 4) != spec_magic() {
        Err(HeaderError::BadMagic)
    } else if data[4] != VERSION_V1 {
        Err(HeaderError::UnsupportedVersion)
    } else if !spec_flags_valid(data[5]) {
        Err(HeaderError::UnknownFlags)
    } else if spec_has_checksum(data[5]) {
        if data.len() < HEADER_BASE_LEN + CHECKSUM_LEN {
            Err(HeaderError::Truncated)
        } else {
            let payload = data.skip((HEADER_BASE_LEN + CHECKSUM_LEN) as int);
            if data.subrange(6, 10) != spec_checksum(payload) {
                Err(HeaderError::Checksum)
            } else {
                Ok((Header { version: data[4], flags: data[5] }, payload))
            }
        }
    } else {
        Ok((Header { version: data[4], flags: data[5] }, data.skip(HEADER_BASE_LEN as int)))
    }
}

/// Parse the header and return `(header, payload)`; verifies the checksum when enabled.
pub fn parse_header(data: &[u8]) -> (r: Result<(Header, &[u8]), HeaderError>)
    ensures
        match r {
            Ok((h, p)) => spec_parse_header(data@) == Ok::<(Header, Seq<u8>), HeaderError>((h, p@)),
            Err(e) => spec_parse_header(data@) == Err::<(Header, Seq<u8>), HeaderError>(e),
        },
{
    if data.len() < HEADER_BASE_LEN {
        return Err(HeaderError::Truncated);
    }
    if data[0] != MAGIC[0] || data[1] != MAGIC[1] || data[2] != MAGIC[2] || data[3] != MAGIC[3] {
        assert(data@.subrange(0, 4) != spec_magic()) by {
            if data@.subrange(0, 4) == spec_magic() {
                assert(data@.subrange(0, 4)[0] == data@[0]);
                assert(data@.subrange(0, 4)[1] == data@[1]);
                assert(data@.subrange(0, 4)[2] == data@[2]);
                assert(data@.subrange(0, 4)[3] == data@[3]);
            }
        }
        return Err(HeaderError::BadMagic);
    }
    assert(data@.subrange(0, 4) =~= spec_magic());
    let version = data[4];
    if version != VERSION_V1 {
        return Err(HeaderError::UnsupportedVersion);
    }
    let flags = data[5];
    validate_flags(flags)?;
    let header = Header { version, flags };
    if header.checksum_enabled() {
        if data.len() < HEADER_BASE_LEN + CHECKSUM_LEN {
            return Err(HeaderError::Truncated);
        }
        let payload = &data[HEADER_BASE_LEN + CHECKSUM_LEN..data.len()];
        let expected = checksum_bytes(payload);
        if data[6] != expected[0] || data[7] != expected[1] || data[8] != expected[2] || data[9]
            != expected[3] {
            assert(data@.subrange(6, 10) != spec_checksum(payload@)) by {
                if data@.subrange(6, 10) == spec_checksum(payload@) {
                    assert(data@.subrange(6, 10)[0] == data@[6]);
                    assert(data@.subrange(6, 10)[1] == data@[7]);
                    assert(data@.subrange(6, 10)[2] == data@[8]);
                    assert(data@.subrange(6, 10)[3] == data@[9]);
                }
            }
            return Err(HeaderError::Checksum);
        }
        assert(data@.subrange(6, 10) =~= spec_checksum(payload@));
        assert(payload@ =~= data@.skip(10));
        Ok((header, payload))
    } else {
        let payload = &data[HEADER_BASE_LEN..data.len()];
        assert(payload@ =~= data@.skip(6));
        Ok((header, payload))
    }
}

} // verus!
