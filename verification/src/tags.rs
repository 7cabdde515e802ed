//! One-byte value tags of the PFBinary v1 format.

use vstd::prelude::*;

verus! {

/// `NULL`
pub const TAG_NULL: u8 = 0x00;
/// `FALSE`
pub const TAG_FALSE: u8 = 0x01;
/// `TRUE`
pub const TAG_TRUE: u8 = 0x02;
/// `VARINT`: zigzag + LEB128 i64
pub const TAG_VARINT: u8 = 0x03;
/// `DOUBLE`: IEEE-754 little-endian
pub const TAG_DOUBLE: u8 = 0x04;
/// `STR_EMPTY`
pub const TAG_STR_EMPTY: u8 = 0x05;
/// `STR_VARINT`: uvarint(len) + bytes
pub const TAG_STR_VARINT: u8 = 0x06;
/// `STR_REF`: uvarint(string_id)
pub const TAG_STR_REF: u8 = 0x07;
/// `ARRAY_PACKED`: uvarint(count) + values
pub const TAG_ARRAY_PACKED: u8 = 0x08;
/// `ARRAY_HASH`: uvarint(count) + (key, value)*
pub const TAG_ARRAY_HASH: u8 = 0x09;
/// `PACKED_LONGS`: uvarint(count) + count zigzag-varints, no per-element tags
pub const TAG_PACKED_LONGS: u8 = 0x0A;
/// `ARRAY_ROWS`: uvarint(nrows) + uvarint(ncols) + ncols keys + nrows * ncols values
pub const TAG_ARRAY_ROWS: u8 = 0x0B;
/// `ARRAY_REPEAT`: uvarint(count) + one value, standing for `count` copies of it
pub const TAG_ARRAY_REPEAT: u8 = 0x0C;
/// First tag reserved for later v1.x extensions.
pub const TAG_V1_EXT_START: u8 = 0x0D;
/// First tag reserved for v2.
pub const TAG_V2_START: u8 = 0x40;

/// Tags that v1 defines for values.
pub open spec fn spec_is_v1_value_tag(tag: u8) -> bool {
    tag <= TAG_ARRAY_REPEAT
}

/// Tags that may open an `ARRAY_HASH` key.
pub open spec fn spec_is_v1_key_tag(tag: u8) -> bool {
    tag == TAG_VARINT || tag == TAG_STR_EMPTY || tag == TAG_STR_VARINT || tag == TAG_STR_REF
}

/// Returns true if `tag` is a defined v1 value tag.
pub fn is_v1_value_tag(tag: u8) -> (r: bool)
    ensures
        r == spec_is_v1_value_tag(tag),
{
    tag <= TAG_ARRAY_REPEAT
}

/// Returns true if `tag` is a legal `ARRAY_HASH` key tag.
pub fn is_v1_key_tag(tag: u8) -> (r: bool)
    ensures
        r == spec_is_v1_key_tag(tag),
{
    match tag {
        TAG_VARINT | TAG_STR_EMPTY | TAG_STR_VARINT | TAG_STR_REF => true,
        _ => false,
    }
}

} // verus!
