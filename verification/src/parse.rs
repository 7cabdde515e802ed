//! What decoding a payload yields, stated over the value model.
//!
//! These spec functions follow the decoder step by step: the same checks in the same order,
//! each failing with the same error. The decoder's contract says that it agrees with them.

use vstd::prelude::*;
use crate::error::{Error, Result, spec_header_error};
use crate::decoder::{DEFAULT_MAX_DEPTH, DEFAULT_MAX_SIZE};
use crate::header::{spec_has_strdedup, spec_parse_header};
use crate::tags::{
    TAG_ARRAY_HASH, TAG_ARRAY_PACKED, TAG_ARRAY_REPEAT, TAG_ARRAY_ROWS, TAG_DOUBLE, TAG_FALSE,
    TAG_NULL, TAG_PACKED_LONGS, TAG_STR_EMPTY, TAG_STR_REF, TAG_STR_VARINT, TAG_TRUE, TAG_VARINT,
    spec_is_v1_key_tag,
};
use crate::value::{KeyV, Val};
use crate::varint::{spec_read_ivarint, spec_read_uvarint};

verus! {

/// Limits and flags a payload is decoded under.
pub struct DecodeCfg {
    pub max_depth: u32,
    pub max_size: usize,
    pub dedup: bool,
}

/// Decoder state: read position, strings defined so far, array depth, string bytes charged.
pub struct PState {
    pub pos: nat,
    pub strings: Seq<Seq<u8>>,
    pub depth: nat,
    pub used: nat,
}

/// Bytes left after the read position.
pub open spec fn p_remaining(data: Seq<u8>, st: PState) -> nat {
    if st.pos <= data.len() {
        (data.len() - st.pos) as nat
    } else {
        0
    }
}

/// Read one byte.
pub open spec fn p_byte(data: Seq<u8>, st: PState) -> Result<(u8, PState)> {
    if st.pos < data.len() {
        Ok((data[st.pos as int], PState { pos: st.pos + 1, ..st }))
    } else {
        Err(Error::Truncated)
    }
}

/// Read an unsigned varint.
pub open spec fn p_uvarint(data: Seq<u8>, st: PState) -> Result<(u64, PState)> {
    match spec_read_uvarint(data.skip(st.pos as int)) {
        Ok((v, n)) => Ok((v, PState { pos: st.pos + n, ..st })),
        Err(e) => Err(e),
    }
}

/// Read a signed varint.
pub open spec fn p_ivarint(data: Seq<u8>, st: PState) -> Result<(i64, PState)> {
    match spec_read_ivarint(data.skip(st.pos as int)) {
        Ok((v, n)) => Ok((v, PState { pos: st.pos + n, ..st })),
        Err(e) => Err(e),
    }
}

/// Read `n` raw bytes.
pub open spec fn p_take(data: Seq<u8>, st: PState, n: nat) -> Result<(Seq<u8>, PState)> {
    if p_remaining(data, st) < n {
        Err(Error::Truncated)
    } else {
        Ok((data.subrange(st.pos as int, (st.pos + n) as int), PState { pos: st.pos + n, ..st }))
    }
}

/// Charge `n` string bytes against `max_size`.
pub open spec fn p_charge(cfg: DecodeCfg, st: PState, n: nat) -> Result<PState> {
    if st.used + n > usize::MAX {
        Err(Error::Overflow)
    } else if st.used + n > cfg.max_size {
        Err(Error::MaxSize)
    } else {
        Ok(PState { used: st.used + n, ..st })
    }
}

/// Enter one array level.
pub open spec fn p_enter(cfg: DecodeCfg, st: PState) -> Result<PState> {
    if st.depth + 1 > cfg.max_depth {
        Err(Error::MaxDepth)
    } else {
        Ok(PState { depth: st.depth + 1, ..st })
    }
}

/// A declared element count, checked against `u32` and the bytes left
/// (each element taking at least `min` bytes).
pub open spec fn p_count_ok(data: Seq<u8>, st: PState, count: u64, min: nat) -> Result<u32> {
    if count > u32::MAX {
        Err(Error::Overflow)
    } else if count * min > p_remaining(data, st) {
        Err(Error::Overflow)
    } else {
        Ok(count as u32)
    }
}

/// The body of a `STR_VARINT` (after its tag): length, bytes; the string is charged and
/// appended to the table.
pub open spec fn p_str_varint(data: Seq<u8>, cfg: DecodeCfg, st: PState) -> Result<(Seq<u8>, PState)> {
    match p_uvarint(data, st) {
        Err(e) => Err(e),
        Ok((len, st1)) => {
            if len > p_remaining(data, st1) {
                Err(Error::Overflow)
            } else {
                match p_charge(cfg, st1, len as nat) {
                    Err(e) => Err(e),
                    Ok(st2) => match p_take(data, st2, len as nat) {
                        Err(e) => Err(e),
                        Ok((bytes, st3)) => Ok((bytes, PState { strings: st3.strings.push(bytes), ..st3 })),
                    },
                }
            }
        },
    }
}

/// The body of a `STR_REF` (after its tag): the id, checked and charged. Without dedup
/// the tag is refused with `refused`.
pub open spec fn p_str_ref(data: Seq<u8>, cfg: DecodeCfg, st: PState, refused: Error) -> Result<(nat, PState)> {
    if !cfg.dedup {
        Err(refused)
    } else {
        match p_uvarint(data, st) {
            Err(e) => Err(e),
            Ok((id, st1)) => {
                if id > u32::MAX {
                    Err(Error::BadStrRef)
                } else if id >= st1.strings.len() {
                    Err(Error::BadStrRef)
                } else {
                    match p_charge(cfg, st1, st1.strings[id as int].len()) {
                        Err(e) => Err(e),
                        Ok(st2) => Ok((id as nat, st2)),
                    }
                }
            },
        }
    }
}

/// A string value given its tag (`STR_EMPTY`, `STR_VARINT` or `STR_REF`).
pub open spec fn p_string_tag(data: Seq<u8>, cfg: DecodeCfg, st: PState, tag: u8) -> Result<(Val, PState)> {
    if tag == TAG_STR_EMPTY {
        Ok((Val::Str(Seq::empty()), st))
    } else if tag == TAG_STR_VARINT {
        match p_str_varint(data, cfg, st) {
            Err(e) => Err(e),
            Ok((bytes, st1)) => Ok((Val::Str(bytes), st1)),
        }
    } else if tag == TAG_STR_REF {
        match p_str_ref(data, cfg, st, Error::UnknownTag) {
            Err(e) => Err(e),
            Ok((id, st1)) => Ok((Val::Str(st1.strings[id as int]), st1)),
        }
    } else {
        Err(Error::UnknownTag)
    }
}

/// An array key.
pub open spec fn p_key(data: Seq<u8>, cfg: DecodeCfg, st: PState) -> Result<(KeyV, PState)> {
    match p_byte(data, st) {
        Err(e) => Err(e),
        Ok((tag, st1)) => {
            if !spec_is_v1_key_tag(tag) {
                Err(Error::BadKey)
            } else if tag == TAG_VARINT {
                match p_ivarint(data, st1) {
                    Err(e) => Err(e),
                    Ok((i, st2)) => Ok((KeyV::Int(i), st2)),
                }
            } else if tag == TAG_STR_EMPTY {
                Ok((KeyV::Str(Seq::empty()), st1))
            } else if tag == TAG_STR_VARINT {
                match p_str_varint(data, cfg, st1) {
                    Err(e) => Err(e),
                    Ok((bytes, st2)) => Ok((KeyV::Str(bytes), st2)),
                }
            } else {
                match p_str_ref(data, cfg, st1, Error::BadKey) {
                    Err(e) => Err(e),
                    Ok((id, st2)) => Ok((KeyV::Str(st2.strings[id as int]), st2)),
                }
            }
        },
    }
}

/// `n` keys one after the other.
pub open spec fn p_keys(data: Seq<u8>, cfg: DecodeCfg, st: PState, n: nat) -> Result<(Seq<KeyV>, PState)>
    decreases n,
{
    if n == 0 {
        Ok((Seq::empty(), st))
    } else {
        match p_keys(data, cfg, st, (n - 1) as nat) {
            Err(e) => Err(e),
            Ok((ks, st1)) => match p_key(data, cfg, st1) {
                Err(e) => Err(e),
                Ok((k, st2)) => Ok((ks.push(k), st2)),
            },
        }
    }
}

/// `n` zigzag varints, as integer values.
pub open spec fn p_longs(data: Seq<u8>, st: PState, n: nat) -> Result<(Seq<Val>, PState)>
    decreases n,
{
    if n == 0 {
        Ok((Seq::empty(), st))
    } else {
        match p_longs(data, st, (n - 1) as nat) {
            Err(e) => Err(e),
            Ok((vs, st1)) => match p_ivarint(data, st1) {
                Err(e) => Err(e),
                Ok((i, st2)) => Ok((vs.push(Val::Int(i)), st2)),
            },
        }
    }
}

/// The read position moved forward and stayed inside the data.
pub open spec fn p_moved(data: Seq<u8>, before: PState, after: PState) -> bool {
    before.pos <= after.pos <= data.len()
}

/// One tagged value.
pub open spec fn p_value(data: Seq<u8>, cfg: DecodeCfg, st: PState) -> Result<(Val, PState)>
    decreases p_remaining(data, st), 0nat, 0nat,
{
    match p_byte(data, st) {
        Err(e) => Err(e),
        Ok((tag, st1)) => {
            if tag == TAG_NULL {
                Ok((Val::Null, st1))
            } else if tag == TAG_FALSE {
                Ok((Val::Bool(false), st1))
            } else if tag == TAG_TRUE {
                Ok((Val::Bool(true), st1))
            } else if tag == TAG_VARINT {
                match p_ivarint(data, st1) {
                    Err(e) => Err(e),
                    Ok((n, st2)) => Ok((Val::Int(n), st2)),
                }
            } else if tag == TAG_DOUBLE {
                match p_take(data, st1, 8) {
                    Err(e) => Err(e),
                    Ok((b, st2)) => Ok((Val::Float(spec_u64_le(b)), st2)),
                }
            } else if tag == TAG_STR_EMPTY || tag == TAG_STR_VARINT || tag == TAG_STR_REF {
                p_string_tag(data, cfg, st1, tag)
            } else if tag == TAG_ARRAY_PACKED {
                p_array_packed(data, cfg, st1)
            } else if tag == TAG_ARRAY_HASH {
                p_array_hash(data, cfg, st1)
            } else if tag == TAG_PACKED_LONGS {
                p_packed_longs(data, cfg, st1)
            } else if tag == TAG_ARRAY_ROWS {
                p_array_rows(data, cfg, st1)
            } else if tag == TAG_ARRAY_REPEAT {
                p_array_repeat(data, cfg, st1)
            } else {
                Err(Error::UnknownTag)
            }
        },
    }
}

/// The little-endian `u64` in the first 8 bytes of `b`.
pub open spec fn spec_u64_le(b: Seq<u8>) -> u64 {
    (b[0] as u64) | ((b[1] as u64) << 8u64) | ((b[2] as u64) << 16u64) | ((b[3] as u64) << 24u64)
        | ((b[4] as u64) << 32u64) | ((b[5] as u64) << 40u64) | ((b[6] as u64) << 48u64) | ((
    b[7] as u64) << 56u64)
}

/// `n` tagged values one after the other.
pub open spec fn p_items(data: Seq<u8>, cfg: DecodeCfg, st: PState, n: nat) -> Result<(Seq<Val>, PState)>
    decreases p_remaining(data, st), 1nat, n,
{
    if n == 0 {
        Ok((Seq::empty(), st))
    } else {
        match p_value(data, cfg, st) {
            Err(e) => Err(e),
            Ok((v, st1)) => {
                if !(st.pos < st1.pos <= data.len()) {
                    Err(Error::Internal)
                } else {
                    match p_items(data, cfg, st1, (n - 1) as nat) {
                        Err(e) => Err(e),
                        Ok((vs, st2)) => Ok((seq![v] + vs, st2)),
                    }
                }
            },
        }
    }
}

/// `n` key / value pairs one after the other.
pub open spec fn p_pairs(data: Seq<u8>, cfg: DecodeCfg, st: PState, n: nat) -> Result<(Seq<(KeyV, Val)>, PState)>
    decreases p_remaining(data, st), 1nat, n,
{
    if n == 0 {
        Ok((Seq::empty(), st))
    } else {
        match p_key(data, cfg, st) {
            Err(e) => Err(e),
            Ok((k, st1)) => {
                if !p_moved(data, st, st1) {
                    Err(Error::Internal)
                } else {
                    match p_value(data, cfg, st1) {
                        Err(e) => Err(e),
                        Ok((v, st2)) => {
                            if !(st.pos < st2.pos <= data.len()) {
                                Err(Error::Internal)
                            } else {
                                match p_pairs(data, cfg, st2, (n - 1) as nat) {
                                    Err(e) => Err(e),
                                    Ok((ps, st3)) => Ok((seq![(k, v)] + ps, st3)),
                                }
                            }
                        },
                    }
                }
            },
        }
    }
}

/// The values of one row, paired with the schema keys.
pub open spec fn p_row_values(data: Seq<u8>, cfg: DecodeCfg, st: PState, keys: Seq<KeyV>) -> Result<(Seq<(KeyV, Val)>, PState)>
    decreases p_remaining(data, st), 1nat, keys.len(),
{
    if keys.len() == 0 {
        Ok((Seq::empty(), st))
    } else {
        match p_value(data, cfg, st) {
            Err(e) => Err(e),
            Ok((v, st1)) => {
                if !p_moved(data, st, st1) {
                    Err(Error::Internal)
                } else {
                    match p_row_values(data, cfg, st1, keys.drop_first()) {
                        Err(e) => Err(e),
                        Ok((ps, st2)) => Ok((seq![(keys[0], v)] + ps, st2)),
                    }
                }
            },
        }
    }
}

/// `n` rows of a rowset, each a hash array over `keys`, each one level deeper.
pub open spec fn p_rows(data: Seq<u8>, cfg: DecodeCfg, st: PState, keys: Seq<KeyV>, n: nat) -> Result<(Seq<Val>, PState)>
    decreases p_remaining(data, st), 2nat, n,
{
    if n == 0 {
        Ok((Seq::empty(), st))
    } else {
        match p_enter(cfg, st) {
            Err(e) => Err(e),
            Ok(st1) => match p_row_values(data, cfg, st1, keys) {
                Err(e) => Err(e),
                Ok((ps, st2)) => {
                    if !p_moved(data, st, st2) {
                        Err(Error::Internal)
                    } else {
                        match p_rows(data, cfg, PState { depth: st.depth, ..st2 }, keys, (n - 1) as nat) {
                            Err(e) => Err(e),
                            Ok((rows, st3)) => Ok((seq![Val::Hash(ps)] + rows, st3)),
                        }
                    }
                },
            },
        }
    }
}

/// `ARRAY_PACKED` after its tag.
pub open spec fn p_array_packed(data: Seq<u8>, cfg: DecodeCfg, st: PState) -> Result<(Val, PState)>
    decreases p_remaining(data, st), 3nat, 0nat,
{
    match p_uvarint(data, st) {
        Err(e) => Err(e),
        Ok((count64, st1)) => match p_count_ok(data, st1, count64, 1) {
            Err(e) => Err(e),
            Ok(count) => match p_enter(cfg, st1) {
                Err(e) => Err(e),
                Ok(st2) => {
                    if !p_moved(data, st, st2) {
                        Err(Error::Internal)
                    } else {
                        match p_items(data, cfg, st2, count as nat) {
                            Err(e) => Err(e),
                            Ok((vs, st3)) => Ok((Val::Packed(vs), PState { depth: st.depth, ..st3 })),
                        }
                    }
                },
            },
        },
    }
}

/// `ARRAY_HASH` after its tag.
pub open spec fn p_array_hash(data: Seq<u8>, cfg: DecodeCfg, st: PState) -> Result<(Val, PState)>
    decreases p_remaining(data, st), 3nat, 0nat,
{
    match p_uvarint(data, st) {
        Err(e) => Err(e),
        Ok((count64, st1)) => match p_count_ok(data, st1, count64, 2) {
            Err(e) => Err(e),
            Ok(count) => match p_enter(cfg, st1) {
                Err(e) => Err(e),
                Ok(st2) => {
                    if !p_moved(data, st, st2) {
                        Err(Error::Internal)
                    } else {
                        match p_pairs(data, cfg, st2, count as nat) {
                            Err(e) => Err(e),
                            Ok((ps, st3)) => Ok((Val::Hash(ps), PState { depth: st.depth, ..st3 })),
                        }
                    }
                },
            },
        },
    }
}

/// `PACKED_LONGS` after its tag.
pub open spec fn p_packed_longs(data: Seq<u8>, cfg: DecodeCfg, st: PState) -> Result<(Val, PState)>
    decreases p_remaining(data, st), 3nat, 0nat,
{
    match p_uvarint(data, st) {
        Err(e) => Err(e),
        Ok((count64, st1)) => match p_count_ok(data, st1, count64, 1) {
            Err(e) => Err(e),
            Ok(count) => match p_enter(cfg, st1) {
                Err(e) => Err(e),
                Ok(st2) => match p_longs(data, st2, count as nat) {
                    Err(e) => Err(e),
                    Ok((vs, st3)) => Ok((Val::Packed(vs), PState { depth: st.depth, ..st3 })),
                },
            },
        },
    }
}

/// `ARRAY_REPEAT` after its tag.
pub open spec fn p_array_repeat(data: Seq<u8>, cfg: DecodeCfg, st: PState) -> Result<(Val, PState)>
    decreases p_remaining(data, st), 3nat, 0nat,
{
    match p_uvarint(data, st) {
        Err(e) => Err(e),
        Ok((count64, st1)) => {
            if count64 > u32::MAX {
                Err(Error::Overflow)
            } else if p_remaining(data, st1) < 1 && count64 > 0 {
                Err(Error::Truncated)
            } else {
                match p_enter(cfg, st1) {
                    Err(e) => Err(e),
                    Ok(st2) => {
                        if !p_moved(data, st, st2) {
                            Err(Error::Internal)
                        } else {
                            match p_value(data, cfg, st2) {
                                Err(e) => Err(e),
                                Ok((v, st3)) => Ok(
                                    (
                                        Val::Packed(Seq::new(count64 as nat, |i: int| v)),
                                        PState { depth: st.depth, ..st3 },
                                    ),
                                ),
                            }
                        }
                    },
                }
            }
        },
    }
}

/// `ARRAY_ROWS` after its tag.
pub open spec fn p_array_rows(data: Seq<u8>, cfg: DecodeCfg, st: PState) -> Result<(Val, PState)>
    decreases p_remaining(data, st), 3nat, 0nat,
{
    match p_uvarint(data, st) {
        Err(e) => Err(e),
        Ok((nrows, st1)) => match p_uvarint(data, st1) {
            Err(e) => Err(e),
            Ok((ncols, st2)) => {
                if nrows > u32::MAX || ncols > u32::MAX {
                    Err(Error::Overflow)
                } else if ncols + nrows * (if ncols > 1 { ncols as int } else { 1 }) > p_remaining(data, st2) {
                    Err(Error::Overflow)
                } else if nrows > 0 && nrows > p_remaining(data, st2) {
                    Err(Error::Overflow)
                } else {
                    match p_enter(cfg, st2) {
                        Err(e) => Err(e),
                        Ok(st3) => match p_keys(data, cfg, st3, ncols as nat) {
                            Err(e) => Err(e),
                            Ok((keys, st4)) => {
                                if !p_moved(data, st, st4) {
                                    Err(Error::Internal)
                                } else {
                                    match p_rows(data, cfg, st4, keys, nrows as nat) {
                                        Err(e) => Err(e),
                                        Ok((rows, st5)) => Ok(
                                            (Val::Packed(rows), PState { depth: st.depth, ..st5 }),
                                        ),
                                    }
                                }
                            },
                        },
                    }
                }
            },
        },
    }
}

/// The size limit in force: the given one, or the default when it is 0.
pub open spec fn spec_effective_max_size(max_size: usize) -> usize {
    if max_size == 0 {
        DEFAULT_MAX_SIZE
    } else {
        max_size
    }
}

/// The depth limit in force: the given one, or the default when it is 0.
pub open spec fn spec_effective_max_depth(max_depth: u32) -> u32 {
    if max_depth == 0 {
        DEFAULT_MAX_DEPTH
    } else {
        max_depth
    }
}

/// The initial decoder state.
pub open spec fn p_start() -> PState {
    PState { pos: 0, strings: Seq::empty(), depth: 0, used: 0 }
}

/// What decoding the document `data` under the given limits yields.
pub open spec fn spec_decode(data: Seq<u8>, max_depth: u32, max_size: usize, strict_trailing: bool) -> Result<Val> {
    match spec_parse_header(data) {
        Err(he) => Err(spec_header_error(he)),
        Ok((h, payload)) => {
            let ms = spec_effective_max_size(max_size);
            if payload.len() > ms {
                Err(Error::MaxSize)
            } else {
                let cfg = DecodeCfg {
                    max_depth: spec_effective_max_depth(max_depth),
                    max_size: ms,
                    dedup: spec_has_strdedup(h.flags),
                };
                match p_value(payload, cfg, p_start()) {
                    Err(e) => Err(e),
                    Ok((v, st)) => {
                        if strict_trailing && p_remaining(payload, st) != 0 {
                            Err(Error::Trailing)
                        } else {
                            Ok(v)
                        }
                    },
                }
            }
        },
    }
}

/// The limits and flags the payload of a document with header `h` is decoded under.
pub open spec fn spec_decode_cfg(h: crate::header::Header, max_depth: u32, max_size: usize) -> DecodeCfg {
    DecodeCfg {
        max_depth: spec_effective_max_depth(max_depth),
        max_size: spec_effective_max_size(max_size),
        dedup: spec_has_strdedup(h.flags),
    }
}

/// The strings the document `data` defines (each `STR_VARINT`), in the order they come, when
/// its value can be read.
pub open spec fn spec_decode_strings(data: Seq<u8>, max_depth: u32, max_size: usize) -> Seq<Seq<u8>> {
    match spec_parse_header(data) {
        Ok((h, payload)) => match p_value(payload, spec_decode_cfg(h, max_depth, max_size), p_start()) {
            Ok((v, st)) => st.strings,
            Err(_) => Seq::empty(),
        },
        Err(_) => Seq::empty(),
    }
}

} // verus!
