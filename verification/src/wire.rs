//! The byte layout the encoder produces, stated over the value model.

use vstd::prelude::*;
use crate::header::{spec_base_header, spec_checksum, spec_has_checksum, spec_has_strdedup};
use crate::tags::{
    TAG_ARRAY_HASH, TAG_ARRAY_PACKED, TAG_ARRAY_REPEAT, TAG_ARRAY_ROWS, TAG_DOUBLE, TAG_FALSE, TAG_NULL,
    TAG_PACKED_LONGS, TAG_STR_EMPTY, TAG_STR_REF, TAG_STR_VARINT, TAG_TRUE, TAG_VARINT,
};
use crate::value::{KeyV, Val, spec_equiv};
use crate::varint::{spec_ivarint, spec_uvarint};

verus! {

/// The 8 little-endian bytes of `x`.
pub open spec fn spec_le64(x: u64) -> Seq<u8> {
    seq![
        x as u8,
        (x >> 8) as u8,
        (x >> 16) as u8,
        (x >> 24) as u8,
        (x >> 32) as u8,
        (x >> 40) as u8,
        (x >> 48) as u8,
        (x >> 56) as u8,
    ]
}

/// A count as the encoder writes it: cast to `u32`, then LEB128.
pub open spec fn spec_count(n: nat) -> Seq<u8> {
    spec_uvarint((n as u32) as u64)
}

/// Encoding of a byte string, and the string table after it.
/// The empty string is `STR_EMPTY`; with dedup on, a string already in the table is a
/// `STR_REF` to its id and a new one is defined and appended to the table.
pub open spec fn spec_enc_string(s: Seq<u8>, dedup: bool, t: Seq<Seq<u8>>) -> (Seq<u8>, Seq<Seq<u8>>) {
    if s.len() == 0 {
        (seq![TAG_STR_EMPTY], t)
    } else if dedup && t.contains(s) {
        (seq![TAG_STR_REF] + spec_uvarint((t.index_of(s) as u32) as u64), t)
    } else {
        (
            seq![TAG_STR_VARINT] + spec_uvarint(s.len() as u64) + s,
            if dedup {
                t.push(s)
            } else {
                t
            },
        )
    }
}

/// Encoding of an array key.
pub open spec fn spec_enc_key(k: KeyV, dedup: bool, t: Seq<Seq<u8>>) -> (Seq<u8>, Seq<Seq<u8>>) {
    match k {
        KeyV::Int(i) => (seq![TAG_VARINT] + spec_ivarint(i), t),
        KeyV::Str(s) => spec_enc_string(s, dedup, t),
    }
}

/// Encoding of a sequence of keys, one after the other.
pub open spec fn spec_enc_keys(ks: Seq<KeyV>, dedup: bool, t: Seq<Seq<u8>>) -> (Seq<u8>, Seq<Seq<u8>>)
    decreases ks.len(),
{
    if ks.len() == 0 {
        (Seq::empty(), t)
    } else {
        let (b1, t1) = spec_enc_keys(ks.drop_last(), dedup, t);
        let (b2, t2) = spec_enc_key(ks.last(), dedup, t1);
        (b1 + b2, t2)
    }
}

/// Every item is an integer.
pub open spec fn spec_all_ints(items: Seq<Val>) -> bool {
    forall|i: int| 0 <= i < items.len() ==> #[trigger] items[i] is Int
}

/// Every item equals the first one.
pub open spec fn spec_all_same(items: Seq<Val>) -> bool {
    forall|i: int| 0 <= i < items.len() ==> spec_equiv(#[trigger] items[i], items[0])
}

/// The keys of a hash array, in order.
pub open spec fn spec_keys_of(pairs: Seq<(KeyV, Val)>) -> Seq<KeyV> {
    Seq::new(pairs.len(), |j: int| pairs[j].0)
}

/// Item `i` is a hash array whose keys are exactly `schema`.
pub open spec fn spec_row_fits(item: Val, schema: Seq<KeyV>) -> bool {
    match item {
        Val::Hash(pairs) => spec_keys_of(pairs) == schema,
        _ => false,
    }
}

/// The shared key schema when `items` are at least two hash rows with identical keys.
pub open spec fn spec_rowset_schema(items: Seq<Val>) -> Option<Seq<KeyV>> {
    if items.len() < 2 {
        None
    } else {
        match items[0] {
            Val::Hash(pairs) => {
                if pairs.len() > 0 && (forall|i: int|
                    1 <= i < items.len() ==> spec_row_fits(#[trigger] items[i], spec_keys_of(pairs))) {
                    Some(spec_keys_of(pairs))
                } else {
                    None
                }
            },
            _ => None,
        }
    }
}

/// Zigzag varints of a run of integers (no tags).
pub open spec fn spec_enc_longs(items: Seq<Val>) -> Seq<u8>
    decreases items.len(),
{
    if items.len() == 0 {
        Seq::empty()
    } else {
        let n = match items.last() {
            Val::Int(n) => n,
            _ => 0,
        };
        spec_enc_longs(items.drop_last()) + spec_ivarint(n)
    }
}

/// Encoding of one value, and the string table after it. An empty array, packed or hash,
/// is an `ARRAY_PACKED` of count 0.
pub open spec fn spec_enc_value(v: Val, dedup: bool, t: Seq<Seq<u8>>) -> (Seq<u8>, Seq<Seq<u8>>)
    decreases v, 3nat,
{
    match v {
        Val::Null => (seq![TAG_NULL], t),
        Val::Bool(b) => (seq![if b { TAG_TRUE } else { TAG_FALSE }], t),
        Val::Int(n) => (seq![TAG_VARINT] + spec_ivarint(n), t),
        Val::Float(bits) => (seq![TAG_DOUBLE] + spec_le64(bits), t),
        Val::Str(s) => spec_enc_string(s, dedup, t),
        Val::Packed(items) => {
            if items.len() > 0 && spec_all_ints(items) {
                (seq![TAG_PACKED_LONGS] + spec_count(items.len()) + spec_enc_longs(items), t)
            } else if items.len() >= 2 && spec_all_same(items) {
                let (b, t1) = spec_enc_value(items[0], dedup, t);
                (seq![TAG_ARRAY_REPEAT] + spec_count(items.len()) + b, t1)
            } else if spec_rowset_schema(items) is Some {
                let schema = spec_rowset_schema(items)->0;
                let (kb, t1) = spec_enc_keys(schema, dedup, t);
                let (vb, t2) = spec_enc_rows(items, dedup, t1);
                (
                    seq![TAG_ARRAY_ROWS] + spec_count(items.len()) + spec_count(schema.len()) + kb
                        + vb,
                    t2,
                )
            } else {
                let (b, t1) = spec_enc_items(items, dedup, t);
                (seq![TAG_ARRAY_PACKED] + spec_count(items.len()) + b, t1)
            }
        },
        Val::Hash(pairs) => {
            if pairs.len() == 0 {
                (seq![TAG_ARRAY_PACKED] + spec_count(0), t)
            } else {
                let (b, t1) = spec_enc_pairs(pairs, dedup, t);
                (seq![TAG_ARRAY_HASH] + spec_count(pairs.len()) + b, t1)
            }
        },
    }
}

/// Encoding of values one after the other.
pub open spec fn spec_enc_items(items: Seq<Val>, dedup: bool, t: Seq<Seq<u8>>) -> (Seq<u8>, Seq<Seq<u8>>)
    decreases items, 2nat,
{
    if items.len() == 0 {
        (Seq::empty(), t)
    } else {
        let (b1, t1) = spec_enc_items(items.drop_last(), dedup, t);
        let (b2, t2) = spec_enc_value(items.last(), dedup, t1);
        (b1 + b2, t2)
    }
}

/// Encoding of the values (not the keys) of `pairs`, one after the other.
pub open spec fn spec_enc_values(pairs: Seq<(KeyV, Val)>, dedup: bool, t: Seq<Seq<u8>>) -> (Seq<u8>, Seq<Seq<u8>>)
    decreases pairs, 2nat,
{
    if pairs.len() == 0 {
        (Seq::empty(), t)
    } else {
        let (b1, t1) = spec_enc_values(pairs.drop_last(), dedup, t);
        let (b2, t2) = spec_enc_value(pairs.last().1, dedup, t1);
        (b1 + b2, t2)
    }
}

/// Encoding of the rows of an `ARRAY_ROWS`: the values of each hash row, row after row.
pub open spec fn spec_enc_rows(items: Seq<Val>, dedup: bool, t: Seq<Seq<u8>>) -> (Seq<u8>, Seq<Seq<u8>>)
    decreases items, 2nat,
{
    if items.len() == 0 {
        (Seq::empty(), t)
    } else {
        let (b1, t1) = spec_enc_rows(items.drop_last(), dedup, t);
        match items.last() {
            Val::Hash(pairs) => {
                let (b2, t2) = spec_enc_values(pairs, dedup, t1);
                (b1 + b2, t2)
            },
            _ => (b1, t1),
        }
    }
}

/// Encoding of key / value pairs, one after the other.
pub open spec fn spec_enc_pairs(pairs: Seq<(KeyV, Val)>, dedup: bool, t: Seq<Seq<u8>>) -> (Seq<u8>, Seq<Seq<u8>>)
    decreases pairs, 2nat,
{
    if pairs.len() == 0 {
        (Seq::empty(), t)
    } else {
        let (b1, t1) = spec_enc_pairs(pairs.drop_last(), dedup, t);
        let (kb, t2) = spec_enc_key(pairs.last().0, dedup, t1);
        let (vb, t3) = spec_enc_value(pairs.last().1, dedup, t2);
        (b1 + kb + vb, t3)
    }
}

/// The payload of a document holding `v`.
pub open spec fn spec_payload(v: Val, flags: u8) -> Seq<u8> {
    spec_enc_value(v, spec_has_strdedup(flags), Seq::empty()).0
}

/// A whole document: header, checksum when flagged, payload.
pub open spec fn spec_document(flags: u8, payload: Seq<u8>) -> Seq<u8> {
    if spec_has_checksum(flags) {
        spec_base_header(flags) + spec_checksum(payload) + payload
    } else {
        spec_base_header(flags) + payload
    }
}

/// The document that encoding `v` with `flags` produces.
pub open spec fn spec_encode(v: Val, flags: u8) -> Seq<u8> {
    spec_document(flags, spec_payload(v, flags))
}

} // verus!
