//! Decoding what the encoder wrote gives back an equal value.
//!
//! The proof walks the encoding ([`crate::wire`]) and the decoding ([`crate::parse`]) side by
//! side: each part of a value, written at some position of a buffer, is read back from that
//! position with the string table, depth and size budget the decoder has there.

use vstd::prelude::*;
use crate::header::{
    spec_base_header, spec_checksum, spec_flags_valid, spec_has_checksum, spec_has_strdedup,
    spec_magic, spec_parse_header, Header, HeaderError, VERSION_V1,
};
use crate::error::Error;
use crate::laws::{
    lemma_equiv_scalar_exact, lemma_equiv_refl, lemma_equiv_symmetric, lemma_equiv_transitive, lemma_items_equiv_iff,
    lemma_pairs_equiv_iff,
};
use crate::parse::{
    DecodeCfg, PState, p_array_packed, p_byte, p_charge, p_count_ok, p_enter, p_items, p_ivarint, p_key, p_keys,
    p_longs, p_pairs, p_remaining, p_row_values, p_rows, p_start, p_take, p_uvarint, p_value,
    spec_decode, spec_effective_max_depth, spec_effective_max_size, spec_u64_le,
};
use crate::normalize::{lemma_normalize_respects_equiv, spec_normalize};
use crate::tags::{
    TAG_ARRAY_HASH, TAG_ARRAY_PACKED, TAG_ARRAY_REPEAT, TAG_ARRAY_ROWS, TAG_DOUBLE, TAG_FALSE,
    TAG_NULL, TAG_PACKED_LONGS, TAG_STR_EMPTY, TAG_STR_REF, TAG_STR_VARINT, TAG_TRUE, TAG_VARINT,
};
use crate::value::{KeyV, Val, spec_equiv, spec_items_equiv, spec_pairs_equiv};
use crate::varint::{lemma_ivarint_roundtrip, lemma_uvarint_roundtrip, spec_ivarint, spec_uvarint};
use crate::wire::{
    spec_all_ints, spec_all_same, spec_count, spec_enc_items, spec_enc_key, spec_enc_keys, spec_enc_longs,
    spec_document, spec_enc_pairs, spec_enc_rows, spec_enc_string, spec_enc_value, spec_enc_values,
    spec_encode, spec_le64, spec_payload,
    spec_keys_of, spec_row_fits, spec_rowset_schema,
};

verus! {

/// No array in `v` holds more than `u32::MAX` elements.
pub open spec fn spec_lens_fit(v: Val) -> bool
    decreases v,
{
    match v {
        Val::Packed(items) => items.len() <= u32::MAX && forall|i: int|
            0 <= i < items.len() ==> spec_lens_fit(#[trigger] items[i]),
        Val::Hash(pairs) => pairs.len() <= u32::MAX && forall|i: int|
            0 <= i < pairs.len() ==> spec_lens_fit(#[trigger] pairs[i].1),
        _ => true,
    }
}

/// Arrays in `v` are nested at most `n` levels deep.
pub open spec fn spec_nesting_at_most(v: Val, n: nat) -> bool
    decreases v,
{
    match v {
        Val::Packed(items) => n >= 1 && forall|i: int|
            0 <= i < items.len() ==> spec_nesting_at_most(#[trigger] items[i], (n - 1) as nat),
        Val::Hash(pairs) => n >= 1 && forall|i: int|
            0 <= i < pairs.len() ==> spec_nesting_at_most(#[trigger] pairs[i].1, (n - 1) as nat),
        _ => true,
    }
}

/// String bytes a key costs against the decoder's size budget.
pub open spec fn spec_key_charge(k: KeyV) -> nat {
    match k {
        KeyV::Str(s) => s.len(),
        KeyV::Int(_) => 0,
    }
}

/// String bytes a sequence of keys costs.
pub open spec fn spec_keys_charge(ks: Seq<KeyV>) -> nat
    decreases ks.len(),
{
    if ks.len() == 0 {
        0
    } else {
        spec_keys_charge(ks.drop_last()) + spec_key_charge(ks.last())
    }
}

/// String bytes the decoder counts against its size budget when it reads back the
/// encoding of `v`: every string read, a repeated element once, a rowset's keys once.
pub open spec fn spec_charge(v: Val) -> nat
    decreases v, 1nat,
{
    match v {
        Val::Str(s) => s.len(),
        Val::Packed(items) => {
            if items.len() > 0 && spec_all_ints(items) {
                0
            } else if items.len() >= 2 && spec_all_same(items) {
                spec_charge(items[0])
            } else if spec_rowset_schema(items) is Some {
                spec_keys_charge(spec_rowset_schema(items)->0) + spec_rows_charge(items)
            } else {
                spec_items_charge(items)
            }
        },
        Val::Hash(pairs) => spec_pairs_charge(pairs),
        _ => 0,
    }
}

/// [`spec_charge`] summed over values.
pub open spec fn spec_items_charge(items: Seq<Val>) -> nat
    decreases items, 0nat,
{
    if items.len() == 0 {
        0
    } else {
        spec_charge(items[0]) + spec_items_charge(items.drop_first())
    }
}

/// [`spec_key_charge`] and [`spec_charge`] summed over key / value pairs.
pub open spec fn spec_pairs_charge(pairs: Seq<(KeyV, Val)>) -> nat
    decreases pairs, 0nat,
{
    if pairs.len() == 0 {
        0
    } else {
        spec_key_charge(pairs[0].0) + spec_charge(pairs[0].1) + spec_pairs_charge(pairs.drop_first())
    }
}

/// [`spec_charge`] summed over the values of key / value pairs.
pub open spec fn spec_values_charge(pairs: Seq<(KeyV, Val)>) -> nat
    decreases pairs, 0nat,
{
    if pairs.len() == 0 {
        0
    } else {
        spec_charge(pairs[0].1) + spec_values_charge(pairs.drop_first())
    }
}

/// The values of the hash rows of a rowset, summed.
pub open spec fn spec_rows_charge(items: Seq<Val>) -> nat
    decreases items, 0nat,
{
    if items.len() == 0 {
        0
    } else {
        (match items[0] {
            Val::Hash(pairs) => spec_values_charge(pairs),
            _ => 0,
        }) + spec_rows_charge(items.drop_first())
    }
}

/// `b` stands in `data` at `pos`.
pub open spec fn spec_at(data: Seq<u8>, pos: nat, b: Seq<u8>) -> bool {
    pos + b.len() <= data.len() && data.subrange(pos as int, (pos + b.len()) as int) == b
}

proof fn lemma_at_split(data: Seq<u8>, pos: nat, a: Seq<u8>, b: Seq<u8>)
    requires
        spec_at(data, pos, a + b),
    ensures
        spec_at(data, pos, a),
        spec_at(data, pos + a.len(), b),
{
    assert(data.subrange(pos as int, (pos + a.len()) as int) =~= (a + b).subrange(0, a.len() as int));
    assert((a + b).subrange(0, a.len() as int) =~= a);
    assert(data.subrange((pos + a.len()) as int, (pos + a.len() + b.len()) as int) =~= (a + b).subrange(
        a.len() as int,
        (a.len() + b.len()) as int,
    ));
    assert((a + b).subrange(a.len() as int, (a.len() + b.len()) as int) =~= b);
}

proof fn lemma_at_skip(data: Seq<u8>, pos: nat, a: Seq<u8>)
    requires
        spec_at(data, pos, a),
    ensures
        data.skip(pos as int) == a + data.skip((pos + a.len()) as int),
{
    assert(data.skip(pos as int) =~= a + data.skip((pos + a.len()) as int)) by {
        assert forall|i: int| 0 <= i < data.skip(pos as int).len() implies data.skip(
            pos as int,
        )[i] == (a + data.skip((pos + a.len()) as int))[i] by {
            if i < a.len() {
                assert(data.subrange(pos as int, (pos + a.len()) as int)[i] == data[pos + i]);
            }
        }
    }
}

proof fn lemma_at_byte(data: Seq<u8>, st: PState, tag: u8, rest: Seq<u8>)
    requires
        spec_at(data, st.pos, seq![tag] + rest),
    ensures
        p_byte(data, st) == Ok::<(u8, PState), Error>((tag, PState { pos: st.pos + 1, ..st })),
        spec_at(data, st.pos + 1, rest),
{
    lemma_at_split(data, st.pos, seq![tag], rest);
    assert(data.subrange(st.pos as int, (st.pos + 1) as int)[0] == data[st.pos as int]);
}

proof fn lemma_at_uvarint(data: Seq<u8>, st: PState, x: u64)
    requires
        spec_at(data, st.pos, spec_uvarint(x)),
    ensures
        p_uvarint(data, st) == Ok::<(u64, PState), Error>(
            (x, PState { pos: st.pos + spec_uvarint(x).len(), ..st }),
        ),
{
    lemma_at_skip(data, st.pos, spec_uvarint(x));
    lemma_uvarint_roundtrip(x, data.skip((st.pos + spec_uvarint(x).len()) as int));
}

proof fn lemma_at_ivarint(data: Seq<u8>, st: PState, n: i64)
    requires
        spec_at(data, st.pos, spec_ivarint(n)),
    ensures
        p_ivarint(data, st) == Ok::<(i64, PState), Error>(
            (n, PState { pos: st.pos + spec_ivarint(n).len(), ..st }),
        ),
{
    lemma_at_skip(data, st.pos, spec_ivarint(n));
    lemma_ivarint_roundtrip(n, data.skip((st.pos + spec_ivarint(n).len()) as int));
}

proof fn lemma_le64_roundtrip(x: u64)
    ensures
        spec_u64_le(spec_le64(x)) == x,
{
    let b = spec_le64(x);
    let (b0, b1, b2, b3, b4, b5, b6, b7) = (b[0], b[1], b[2], b[3], b[4], b[5], b[6], b[7]);
    assert(b0 == x as u8 && b1 == (x >> 8) as u8 && b2 == (x >> 16) as u8 && b3 == (x >> 24) as u8);
    assert(b4 == (x >> 32) as u8 && b5 == (x >> 40) as u8 && b6 == (x >> 48) as u8 && b7 == (x
        >> 56) as u8);
    assert((b0 as u64) | ((b1 as u64) << 8u64) | ((b2 as u64) << 16u64) | ((b3 as u64) << 24u64)
        | ((b4 as u64) << 32u64) | ((b5 as u64) << 40u64) | ((b6 as u64) << 48u64) | ((
    b7 as u64) << 56u64) == x) by (bit_vector)
        requires
            b0 == x as u8,
            b1 == (x >> 8) as u8,
            b2 == (x >> 16) as u8,
            b3 == (x >> 24) as u8,
            b4 == (x >> 32) as u8,
            b5 == (x >> 40) as u8,
            b6 == (x >> 48) as u8,
            b7 == (x >> 56) as u8,
    ;
}

// ---------------------------------------------------------------------------------------
// The encoder's string table only grows.
proof fn lemma_grow_key(k: KeyV, d: bool, t: Seq<Seq<u8>>)
    ensures
        t.len() <= spec_enc_key(k, d, t).1.len(),
{
}

proof fn lemma_grow_keys(ks: Seq<KeyV>, d: bool, t: Seq<Seq<u8>>)
    ensures
        t.len() <= spec_enc_keys(ks, d, t).1.len(),
    decreases ks.len(),
{
    if ks.len() > 0 {
        lemma_grow_keys(ks.drop_last(), d, t);
        lemma_grow_key(ks.last(), d, spec_enc_keys(ks.drop_last(), d, t).1);
    }
}

proof fn lemma_grow_value(v: Val, d: bool, t: Seq<Seq<u8>>)
    ensures
        t.len() <= spec_enc_value(v, d, t).1.len(),
    decreases v, 3nat,
{
    match v {
        Val::Packed(items) => {
            if items.len() > 0 && spec_all_ints(items) {
            } else if items.len() >= 2 && spec_all_same(items) {
                lemma_grow_value(items[0], d, t);
            } else if spec_rowset_schema(items) is Some {
                let schema = spec_rowset_schema(items)->0;
                lemma_grow_keys(schema, d, t);
                lemma_grow_rows(items, d, spec_enc_keys(schema, d, t).1);
            } else {
                lemma_grow_items(items, d, t);
            }
        },
        Val::Hash(pairs) => {
            lemma_grow_pairs(pairs, d, t);
        },
        _ => {},
    }
}

proof fn lemma_grow_items(items: Seq<Val>, d: bool, t: Seq<Seq<u8>>)
    ensures
        t.len() <= spec_enc_items(items, d, t).1.len(),
    decreases items, 2nat,
{
    if items.len() > 0 {
        lemma_grow_items(items.drop_last(), d, t);
        lemma_grow_value(items.last(), d, spec_enc_items(items.drop_last(), d, t).1);
    }
}

proof fn lemma_grow_values(pairs: Seq<(KeyV, Val)>, d: bool, t: Seq<Seq<u8>>)
    ensures
        t.len() <= spec_enc_values(pairs, d, t).1.len(),
    decreases pairs, 2nat,
{
    if pairs.len() > 0 {
        lemma_grow_values(pairs.drop_last(), d, t);
        lemma_grow_value(pairs.last().1, d, spec_enc_values(pairs.drop_last(), d, t).1);
    }
}

proof fn lemma_grow_rows(items: Seq<Val>, d: bool, t: Seq<Seq<u8>>)
    ensures
        t.len() <= spec_enc_rows(items, d, t).1.len(),
    decreases items, 2nat,
{
    if items.len() > 0 {
        lemma_grow_rows(items.drop_last(), d, t);
        match items.last() {
            Val::Hash(pairs) => {
                lemma_grow_values(pairs, d, spec_enc_rows(items.drop_last(), d, t).1);
            },
            _ => {},
        }
    }
}

proof fn lemma_grow_pairs(pairs: Seq<(KeyV, Val)>, d: bool, t: Seq<Seq<u8>>)
    ensures
        t.len() <= spec_enc_pairs(pairs, d, t).1.len(),
    decreases pairs, 2nat,
{
    if pairs.len() > 0 {
        let t1 = spec_enc_pairs(pairs.drop_last(), d, t).1;
        lemma_grow_pairs(pairs.drop_last(), d, t);
        lemma_grow_key(pairs.last().0, d, t1);
        lemma_grow_value(pairs.last().1, d, spec_enc_key(pairs.last().0, d, t1).1);
    }
}

// ---------------------------------------------------------------------------------------
// Each string the table gains is written out in full, so the table grows no faster than the
// bytes written.
proof fn lemma_table_bytes_key(k: KeyV, d: bool, t: Seq<Seq<u8>>)
    ensures
        spec_enc_key(k, d, t).1.len() <= t.len() + spec_enc_key(k, d, t).0.len(),
{
}

proof fn lemma_table_bytes_keys(ks: Seq<KeyV>, d: bool, t: Seq<Seq<u8>>)
    ensures
        spec_enc_keys(ks, d, t).1.len() <= t.len() + spec_enc_keys(ks, d, t).0.len(),
    decreases ks.len(),
{
    if ks.len() > 0 {
        lemma_table_bytes_keys(ks.drop_last(), d, t);
        lemma_table_bytes_key(ks.last(), d, spec_enc_keys(ks.drop_last(), d, t).1);
    }
}

proof fn lemma_table_bytes_value(v: Val, d: bool, t: Seq<Seq<u8>>)
    ensures
        spec_enc_value(v, d, t).1.len() <= t.len() + spec_enc_value(v, d, t).0.len(),
    decreases v, 3nat,
{
    match v {
        Val::Packed(items) => {
            if items.len() > 0 && spec_all_ints(items) {
            } else if items.len() >= 2 && spec_all_same(items) {
                lemma_table_bytes_value(items[0], d, t);
            } else if spec_rowset_schema(items) is Some {
                let schema = spec_rowset_schema(items)->0;
                lemma_table_bytes_keys(schema, d, t);
                lemma_table_bytes_rows(items, d, spec_enc_keys(schema, d, t).1);
            } else {
                lemma_table_bytes_items(items, d, t);
            }
        },
        Val::Hash(pairs) => {
            lemma_table_bytes_pairs(pairs, d, t);
        },
        _ => {},
    }
}

proof fn lemma_table_bytes_items(items: Seq<Val>, d: bool, t: Seq<Seq<u8>>)
    ensures
        spec_enc_items(items, d, t).1.len() <= t.len() + spec_enc_items(items, d, t).0.len(),
    decreases items, 2nat,
{
    if items.len() > 0 {
        lemma_table_bytes_items(items.drop_last(), d, t);
        lemma_table_bytes_value(items.last(), d, spec_enc_items(items.drop_last(), d, t).1);
    }
}

proof fn lemma_table_bytes_values(pairs: Seq<(KeyV, Val)>, d: bool, t: Seq<Seq<u8>>)
    ensures
        spec_enc_values(pairs, d, t).1.len() <= t.len() + spec_enc_values(pairs, d, t).0.len(),
    decreases pairs, 2nat,
{
    if pairs.len() > 0 {
        lemma_table_bytes_values(pairs.drop_last(), d, t);
        lemma_table_bytes_value(pairs.last().1, d, spec_enc_values(pairs.drop_last(), d, t).1);
    }
}

proof fn lemma_table_bytes_rows(items: Seq<Val>, d: bool, t: Seq<Seq<u8>>)
    ensures
        spec_enc_rows(items, d, t).1.len() <= t.len() + spec_enc_rows(items, d, t).0.len(),
    decreases items, 2nat,
{
    if items.len() > 0 {
        lemma_table_bytes_rows(items.drop_last(), d, t);
        match items.last() {
            Val::Hash(pairs) => {
                lemma_table_bytes_values(pairs, d, spec_enc_rows(items.drop_last(), d, t).1);
            },
            _ => {},
        }
    }
}

proof fn lemma_table_bytes_pairs(pairs: Seq<(KeyV, Val)>, d: bool, t: Seq<Seq<u8>>)
    ensures
        spec_enc_pairs(pairs, d, t).1.len() <= t.len() + spec_enc_pairs(pairs, d, t).0.len(),
    decreases pairs, 2nat,
{
    if pairs.len() > 0 {
        let t1 = spec_enc_pairs(pairs.drop_last(), d, t).1;
        lemma_table_bytes_pairs(pairs.drop_last(), d, t);
        lemma_table_bytes_key(pairs.last().0, d, t1);
        lemma_table_bytes_value(pairs.last().1, d, spec_enc_key(pairs.last().0, d, t1).1);
    }
}

// ---------------------------------------------------------------------------------------
// The encodings of sequences, split after their first element.
proof fn lemma_enc_items_front(items: Seq<Val>, d: bool, t: Seq<Seq<u8>>)
    requires
        items.len() > 0,
    ensures
        ({
            let (b0, t0) = spec_enc_value(items[0], d, t);
            let (br, tr) = spec_enc_items(items.drop_first(), d, t0);
            spec_enc_items(items, d, t) == (b0 + br, tr)
        }),
    decreases items.len(),
{
    let (b0, t0) = spec_enc_value(items[0], d, t);
    if items.len() == 1 {
        assert(items.drop_last() =~= Seq::<Val>::empty());
        assert(items.drop_first() =~= Seq::<Val>::empty());
        assert(spec_enc_items(items.drop_last(), d, t) == (Seq::<u8>::empty(), t));
        assert(spec_enc_items(items.drop_first(), d, t0) == (Seq::<u8>::empty(), t0));
        assert(Seq::<u8>::empty() + b0 =~= b0 + Seq::<u8>::empty());
    } else {
        let dl = items.drop_last();
        lemma_enc_items_front(dl, d, t);
        assert(dl.drop_first() =~= items.drop_first().drop_last());
        assert(items.drop_first().last() == items.last());
        assert(dl[0] == items[0]);
        let (bm, tm) = spec_enc_items(dl.drop_first(), d, t0);
        let (bl, tl) = spec_enc_value(items.last(), d, tm);
        assert(spec_enc_items(dl, d, t) == (b0 + bm, tm));
        assert(spec_enc_items(items, d, t) == (b0 + bm + bl, tl));
        assert(spec_enc_items(items.drop_first(), d, t0) == (bm + bl, tl));
        assert(b0 + bm + bl =~= b0 + (bm + bl));
    }
}

proof fn lemma_enc_values_front(pairs: Seq<(KeyV, Val)>, d: bool, t: Seq<Seq<u8>>)
    requires
        pairs.len() > 0,
    ensures
        ({
            let (b0, t0) = spec_enc_value(pairs[0].1, d, t);
            let (br, tr) = spec_enc_values(pairs.drop_first(), d, t0);
            spec_enc_values(pairs, d, t) == (b0 + br, tr)
        }),
    decreases pairs.len(),
{
    let (b0, t0) = spec_enc_value(pairs[0].1, d, t);
    if pairs.len() == 1 {
        assert(pairs.drop_last() =~= Seq::<(KeyV, Val)>::empty());
        assert(pairs.drop_first() =~= Seq::<(KeyV, Val)>::empty());
        assert(spec_enc_values(pairs.drop_last(), d, t) == (Seq::<u8>::empty(), t));
        assert(spec_enc_values(pairs.drop_first(), d, t0) == (Seq::<u8>::empty(), t0));
        assert(Seq::<u8>::empty() + b0 =~= b0 + Seq::<u8>::empty());
    } else {
        let dl = pairs.drop_last();
        lemma_enc_values_front(dl, d, t);
        assert(dl.drop_first() =~= pairs.drop_first().drop_last());
        assert(pairs.drop_first().last() == pairs.last());
        assert(dl[0] == pairs[0]);
        let (bm, tm) = spec_enc_values(dl.drop_first(), d, t0);
        let (bl, tl) = spec_enc_value(pairs.last().1, d, tm);
        assert(spec_enc_values(dl, d, t) == (b0 + bm, tm));
        assert(spec_enc_values(pairs, d, t) == (b0 + bm + bl, tl));
        assert(spec_enc_values(pairs.drop_first(), d, t0) == (bm + bl, tl));
        assert(b0 + bm + bl =~= b0 + (bm + bl));
    }
}

proof fn lemma_enc_pairs_front(pairs: Seq<(KeyV, Val)>, d: bool, t: Seq<Seq<u8>>)
    requires
        pairs.len() > 0,
    ensures
        ({
            let (kb, tk) = spec_enc_key(pairs[0].0, d, t);
            let (vb, tv) = spec_enc_value(pairs[0].1, d, tk);
            let (br, tr) = spec_enc_pairs(pairs.drop_first(), d, tv);
            spec_enc_pairs(pairs, d, t) == (kb + vb + br, tr)
        }),
    decreases pairs.len(),
{
    let (kb, tk) = spec_enc_key(pairs[0].0, d, t);
    let (vb, tv) = spec_enc_value(pairs[0].1, d, tk);
    if pairs.len() == 1 {
        assert(pairs.drop_last() =~= Seq::<(KeyV, Val)>::empty());
        assert(pairs.drop_first() =~= Seq::<(KeyV, Val)>::empty());
        assert(spec_enc_pairs(pairs.drop_last(), d, t) == (Seq::<u8>::empty(), t));
        assert(spec_enc_pairs(pairs.drop_first(), d, tv) == (Seq::<u8>::empty(), tv));
        assert(Seq::<u8>::empty() + kb + vb =~= kb + vb + Seq::<u8>::empty());
    } else {
        let dl = pairs.drop_last();
        lemma_enc_pairs_front(dl, d, t);
        assert(dl.drop_first() =~= pairs.drop_first().drop_last());
        assert(pairs.drop_first().last() == pairs.last());
        assert(dl[0] == pairs[0]);
        let (bm, tm) = spec_enc_pairs(dl.drop_first(), d, tv);
        let (kl, tkl) = spec_enc_key(pairs.last().0, d, tm);
        let (vl, tvl) = spec_enc_value(pairs.last().1, d, tkl);
        assert(spec_enc_pairs(dl, d, t) == (kb + vb + bm, tm));
        assert(spec_enc_pairs(pairs, d, t) == (kb + vb + bm + kl + vl, tvl));
        assert(spec_enc_pairs(pairs.drop_first(), d, tv) == (bm + kl + vl, tvl));
        assert(kb + vb + bm + kl + vl =~= kb + vb + (bm + kl + vl));
    }
}

/// The encoding of one row of a rowset: the values of a hash row.
pub open spec fn spec_enc_row(item: Val, d: bool, t: Seq<Seq<u8>>) -> (Seq<u8>, Seq<Seq<u8>>) {
    match item {
        Val::Hash(pairs) => spec_enc_values(pairs, d, t),
        _ => (Seq::empty(), t),
    }
}

proof fn lemma_enc_rows_front(items: Seq<Val>, d: bool, t: Seq<Seq<u8>>)
    requires
        items.len() > 0,
    ensures
        ({
            let (b0, t0) = spec_enc_row(items[0], d, t);
            let (br, tr) = spec_enc_rows(items.drop_first(), d, t0);
            spec_enc_rows(items, d, t) == (b0 + br, tr)
        }),
    decreases items.len(),
{
    let (b0, t0) = spec_enc_row(items[0], d, t);
    if items.len() == 1 {
        assert(items.drop_last() =~= Seq::<Val>::empty());
        assert(items.drop_first() =~= Seq::<Val>::empty());
        assert(spec_enc_rows(items.drop_last(), d, t) == (Seq::<u8>::empty(), t));
        assert(spec_enc_rows(items.drop_first(), d, t0) == (Seq::<u8>::empty(), t0));
        assert(Seq::<u8>::empty() + b0 =~= b0);
        assert(b0 + Seq::<u8>::empty() =~= b0);
    } else {
        let dl = items.drop_last();
        lemma_enc_rows_front(dl, d, t);
        assert(dl.drop_first() =~= items.drop_first().drop_last());
        assert(items.drop_first().last() == items.last());
        assert(dl[0] == items[0]);
        let (bm, tm) = spec_enc_rows(dl.drop_first(), d, t0);
        let (bl, tl) = spec_enc_row(items.last(), d, tm);
        assert(spec_enc_rows(dl, d, t) == (b0 + bm, tm));
        assert(spec_enc_rows(items, d, t) == (b0 + bm + bl, tl)) by {
            match items.last() {
                Val::Hash(p) => {},
                _ => { assert(bl =~= Seq::<u8>::empty()); assert(b0 + bm + bl =~= b0 + bm); },
            }
        }
        assert(spec_enc_rows(items.drop_first(), d, t0) == (bm + bl, tl)) by {
            match items.last() {
                Val::Hash(p) => {},
                _ => { assert(bl =~= Seq::<u8>::empty()); assert(bm + bl =~= bm); },
            }
        }
        assert(b0 + bm + bl =~= b0 + (bm + bl));
    }
}

// ---------------------------------------------------------------------------------------
// Reading back scalars, strings and keys.
/// After reading back `b`, the decoder stands right after it, at the same depth, with
/// `charge` more string bytes counted and (with dedup) the encoder's string table.
pub open spec fn spec_read_back(st: PState, st1: PState, b: Seq<u8>, t1: Seq<Seq<u8>>, dedup: bool, charge: nat) -> bool {
    &&& st1.pos == st.pos + b.len()
    &&& st1.depth == st.depth
    &&& st1.used == st.used + charge
    &&& dedup ==> st1.strings == t1
}

proof fn lemma_rt_string(data: Seq<u8>, cfg: DecodeCfg, st: PState, s: Seq<u8>, t: Seq<Seq<u8>>)
    requires
        spec_at(data, st.pos, spec_enc_string(s, cfg.dedup, t).0),
        cfg.dedup ==> st.strings == t,
        spec_enc_string(s, cfg.dedup, t).1.len() <= u32::MAX + 1,
        st.used + s.len() <= cfg.max_size,
    ensures
        ({
            let (b, t1) = spec_enc_string(s, cfg.dedup, t);
            &&& p_value(data, cfg, st) matches Ok((w, st1)) && w == Val::Str(s) && spec_read_back(
                st,
                st1,
                b,
                t1,
                cfg.dedup,
                s.len(),
            )
            &&& p_key(data, cfg, st) matches Ok((k, st2)) && k == KeyV::Str(s) && spec_read_back(
                st,
                st2,
                b,
                t1,
                cfg.dedup,
                s.len(),
            )
            &&& b.len() >= 1
        }),
{
    let (b, t1) = spec_enc_string(s, cfg.dedup, t);
    let st1 = PState { pos: st.pos + 1, ..st };
    if s.len() == 0 {
        assert(b =~= seq![TAG_STR_EMPTY] + Seq::<u8>::empty());
        lemma_at_byte(data, st, TAG_STR_EMPTY, Seq::<u8>::empty());
        assert(s =~= Seq::<u8>::empty());
    } else if cfg.dedup && t.contains(s) {
        let id = t.index_of(s);
        let u = spec_uvarint((id as u32) as u64);
        assert((id as u32) as u64 == id);
        lemma_at_byte(data, st, TAG_STR_REF, u);
        lemma_at_uvarint(data, st1, id as u64);
        assert(t[id] == s);
    } else {
        let u = spec_uvarint(s.len() as u64);
        assert(b =~= seq![TAG_STR_VARINT] + (u + s));
        lemma_at_byte(data, st, TAG_STR_VARINT, u + s);
        lemma_at_split(data, st1.pos, u, s);
        lemma_at_uvarint(data, st1, s.len() as u64);
        let st2 = PState { pos: st1.pos + u.len(), ..st1 };
        assert(p_charge(cfg, st2, s.len()) == Ok::<PState, Error>(PState { used: st2.used + s.len(), ..st2 }));
        let st3 = PState { used: st2.used + s.len(), ..st2 };
        assert(p_take(data, st3, s.len()) == Ok::<(Seq<u8>, PState), Error>(
            (s, PState { pos: st3.pos + s.len(), ..st3 }),
        ));
    }
}

proof fn lemma_rt_key(data: Seq<u8>, cfg: DecodeCfg, st: PState, k: KeyV, t: Seq<Seq<u8>>)
    requires
        spec_at(data, st.pos, spec_enc_key(k, cfg.dedup, t).0),
        cfg.dedup ==> st.strings == t,
        spec_enc_key(k, cfg.dedup, t).1.len() <= u32::MAX + 1,
        st.used + spec_key_charge(k) <= cfg.max_size,
    ensures
        ({
            let (b, t1) = spec_enc_key(k, cfg.dedup, t);
            &&& p_key(data, cfg, st) matches Ok((k2, st1)) && k2 == k && spec_read_back(
                st,
                st1,
                b,
                t1,
                cfg.dedup,
                spec_key_charge(k),
            )
            &&& b.len() >= 1
        }),
{
    match k {
        KeyV::Int(n) => {
            lemma_at_byte(data, st, TAG_VARINT, spec_ivarint(n));
            lemma_at_ivarint(data, PState { pos: st.pos + 1, ..st }, n);
        },
        KeyV::Str(s) => {
            lemma_rt_string(data, cfg, st, s, t);
        },
    }
}

proof fn lemma_rt_keys(data: Seq<u8>, cfg: DecodeCfg, st: PState, ks: Seq<KeyV>, t: Seq<Seq<u8>>)
    requires
        spec_at(data, st.pos, spec_enc_keys(ks, cfg.dedup, t).0),
        cfg.dedup ==> st.strings == t,
        spec_enc_keys(ks, cfg.dedup, t).1.len() <= u32::MAX + 1,
        st.used + spec_keys_charge(ks) <= cfg.max_size,
    ensures
        ({
            let (b, t1) = spec_enc_keys(ks, cfg.dedup, t);
            &&& p_keys(data, cfg, st, ks.len()) matches Ok((ks2, st1)) && ks2 == ks && spec_read_back(
                st,
                st1,
                b,
                t1,
                cfg.dedup,
                spec_keys_charge(ks),
            )
            &&& b.len() >= ks.len()
        }),
    decreases ks.len(),
{
    if ks.len() == 0 {
        assert(ks =~= Seq::<KeyV>::empty());
    } else {
        let dl = ks.drop_last();
        let (b1, t1) = spec_enc_keys(dl, cfg.dedup, t);
        let (b2, t2) = spec_enc_key(ks.last(), cfg.dedup, t1);
        lemma_at_split(data, st.pos, b1, b2);
        lemma_grow_key(ks.last(), cfg.dedup, t1);
        lemma_rt_keys(data, cfg, st, dl, t);
        let st1 = p_keys(data, cfg, st, dl.len())->Ok_0.1;
        lemma_rt_key(data, cfg, st1, ks.last(), t1);
        assert(dl.push(ks.last()) =~= ks);
    }
}

proof fn lemma_rt_longs(data: Seq<u8>, st: PState, items: Seq<Val>)
    requires
        spec_at(data, st.pos, spec_enc_longs(items)),
        spec_all_ints(items),
    ensures
        p_longs(data, st, items.len()) == Ok::<(Seq<Val>, PState), Error>(
            (items, PState { pos: st.pos + spec_enc_longs(items).len(), ..st }),
        ),
        spec_enc_longs(items).len() >= items.len(),
    decreases items.len(),
{
    if items.len() == 0 {
        assert(items =~= Seq::<Val>::empty());
    } else {
        let dl = items.drop_last();
        let n = match items.last() {
            Val::Int(n) => n,
            _ => 0,
        };
        assert(items.last() is Int);
        assert(spec_all_ints(dl)) by {
            assert forall|i: int| 0 <= i < dl.len() implies #[trigger] dl[i] is Int by {
                assert(dl[i] == items[i]);
            }
        }
        lemma_at_split(data, st.pos, spec_enc_longs(dl), spec_ivarint(n));
        lemma_rt_longs(data, st, dl);
        lemma_at_ivarint(data, PState { pos: st.pos + spec_enc_longs(dl).len(), ..st }, n);
        assert(dl.push(Val::Int(n)) =~= items);
    }
}

// ---------------------------------------------------------------------------------------
// Reading back values, arrays and their parts.
proof fn lemma_rt_value(data: Seq<u8>, cfg: DecodeCfg, st: PState, v: Val, t: Seq<Seq<u8>>)
    requires
        spec_at(data, st.pos, spec_enc_value(v, cfg.dedup, t).0),
        cfg.dedup ==> st.strings == t,
        spec_enc_value(v, cfg.dedup, t).1.len() <= u32::MAX + 1,
        st.depth <= cfg.max_depth,
        spec_nesting_at_most(v, (cfg.max_depth - st.depth) as nat),
        spec_lens_fit(v),
        st.used + spec_charge(v) <= cfg.max_size,
    ensures
        ({
            let (b, t1) = spec_enc_value(v, cfg.dedup, t);
            &&& p_value(data, cfg, st) matches Ok((w, st1)) && spec_equiv(w, v) && spec_read_back(
                st,
                st1,
                b,
                t1,
                cfg.dedup,
                spec_charge(v),
            )
            &&& b.len() >= 1
        }),
    decreases v, 3nat,
{
    let d = cfg.dedup;
    let (b, t1) = spec_enc_value(v, d, t);
    let st1 = PState { pos: st.pos + 1, ..st };
    match v {
        Val::Null => {
            assert(b =~= seq![TAG_NULL] + Seq::<u8>::empty());
            lemma_at_byte(data, st, TAG_NULL, Seq::<u8>::empty());
        },
        Val::Bool(x) => {
            let tag = if x {
                TAG_TRUE
            } else {
                TAG_FALSE
            };
            assert(b =~= seq![tag] + Seq::<u8>::empty());
            lemma_at_byte(data, st, tag, Seq::<u8>::empty());
        },
        Val::Int(n) => {
            lemma_at_byte(data, st, TAG_VARINT, spec_ivarint(n));
            lemma_at_ivarint(data, st1, n);
        },
        Val::Float(bits) => {
            lemma_at_byte(data, st, TAG_DOUBLE, spec_le64(bits));
            lemma_le64_roundtrip(bits);
            assert(p_take(data, st1, 8) == Ok::<(Seq<u8>, PState), Error>(
                (spec_le64(bits), PState { pos: st1.pos + 8, ..st1 }),
            ));
        },
        Val::Str(s) => {
            lemma_rt_string(data, cfg, st, s, t);
        },
        Val::Packed(items) => {
            lemma_rt_packed(data, cfg, st, items, t);
        },
        Val::Hash(pairs) => if pairs.len() == 0 {
            let c = spec_uvarint(0);
            assert(spec_count(0) == c);
            assert(b =~= seq![TAG_ARRAY_PACKED] + c);
            lemma_at_byte(data, st, TAG_ARRAY_PACKED, c);
            lemma_at_uvarint(data, st1, 0);
            let st2 = PState { pos: st1.pos + c.len(), ..st1 };
            let st3 = PState { depth: st.depth + 1, ..st2 };
            assert(p_enter(cfg, st2) == Ok::<PState, Error>(st3));
            assert(p_count_ok(data, st2, 0, 1) == Ok::<u32, Error>(0));
            assert(p_items(data, cfg, st3, 0) == Ok::<(Seq<Val>, PState), Error>((Seq::empty(), st3)));
            assert(spec_equiv(Val::Packed(Seq::empty()), v));
            assert(spec_pairs_charge(pairs) == 0);
            assert(p_array_packed(data, cfg, st1) == Ok::<(Val, PState), Error>(
                (Val::Packed(Seq::empty()), PState { depth: st.depth, ..st3 }),
            ));
        } else {
            let n = pairs.len();
            let m = (cfg.max_depth - st.depth) as nat;
            let c = spec_uvarint(n as u64);
            assert(spec_count(n) == c);
            let (pb, tp) = spec_enc_pairs(pairs, d, t);
            assert(b =~= seq![TAG_ARRAY_HASH] + (c + pb));
            lemma_at_byte(data, st, TAG_ARRAY_HASH, c + pb);
            lemma_at_split(data, st1.pos, c, pb);
            lemma_at_uvarint(data, st1, n as u64);
            let st2 = PState { pos: st1.pos + c.len(), ..st1 };
            let st3 = PState { depth: st.depth + 1, ..st2 };
            assert(p_enter(cfg, st2) == Ok::<PState, Error>(st3));
            lemma_rt_pairs(data, cfg, st3, pairs, t);
            assert(p_count_ok(data, st2, n as u64, 2) == Ok::<u32, Error>(n as u32));
        },
    }
}

#[verifier::rlimit(50)]
proof fn lemma_rt_packed(data: Seq<u8>, cfg: DecodeCfg, st: PState, items: Seq<Val>, t: Seq<Seq<u8>>)
    requires
        spec_at(data, st.pos, spec_enc_value(Val::Packed(items), cfg.dedup, t).0),
        cfg.dedup ==> st.strings == t,
        spec_enc_value(Val::Packed(items), cfg.dedup, t).1.len() <= u32::MAX + 1,
        st.depth <= cfg.max_depth,
        spec_nesting_at_most(Val::Packed(items), (cfg.max_depth - st.depth) as nat),
        spec_lens_fit(Val::Packed(items)),
        st.used + spec_charge(Val::Packed(items)) <= cfg.max_size,
    ensures
        ({
            let v = Val::Packed(items);
            let (b, t1) = spec_enc_value(v, cfg.dedup, t);
            &&& p_value(data, cfg, st) matches Ok((w, st1)) && spec_equiv(w, v) && spec_read_back(
                st,
                st1,
                b,
                t1,
                cfg.dedup,
                spec_charge(v),
            )
            &&& b.len() >= 1
        }),
    decreases items, 3nat,
{
    let v = Val::Packed(items);
    let d = cfg.dedup;
    let (b, t1) = spec_enc_value(v, d, t);
    let st1 = PState { pos: st.pos + 1, ..st };
    let n = items.len();
    let m = (cfg.max_depth - st.depth) as nat;
    let c = spec_uvarint(n as u64);
    assert(spec_count(n) == c);
    let st2 = PState { pos: st1.pos + c.len(), ..st1 };
    let st3 = PState { depth: st.depth + 1, ..st2 };
    assert(p_enter(cfg, st2) == Ok::<PState, Error>(st3));
    if n > 0 && spec_all_ints(items) {
        let lb = spec_enc_longs(items);
        assert(b =~= seq![TAG_PACKED_LONGS] + (c + lb));
        lemma_at_byte(data, st, TAG_PACKED_LONGS, c + lb);
        lemma_at_split(data, st1.pos, c, lb);
        lemma_at_uvarint(data, st1, n as u64);
        lemma_rt_longs(data, st3, items);
        assert(p_count_ok(data, st2, n as u64, 1) == Ok::<u32, Error>(n as u32));
        lemma_equiv_refl(v);
    } else if n >= 2 && spec_all_same(items) {
        let (b0, t0) = spec_enc_value(items[0], d, t);
        assert(b =~= seq![TAG_ARRAY_REPEAT] + (c + b0));
        lemma_at_byte(data, st, TAG_ARRAY_REPEAT, c + b0);
        lemma_at_split(data, st1.pos, c, b0);
        lemma_at_uvarint(data, st1, n as u64);
        assert(spec_nesting_at_most(items[0], (m - 1) as nat));
        assert(spec_lens_fit(items[0]));
        lemma_rt_value(data, cfg, st3, items[0], t);
        let w = p_value(data, cfg, st3)->Ok_0.0;
        let ws = Seq::new(n as nat, |i: int| w);
        assert forall|i: int| 0 <= i < n implies spec_equiv(#[trigger] ws[i], items[i]) by {
            assert(spec_equiv(items[i], items[0]));
            lemma_equiv_symmetric(items[i], items[0]);
            lemma_equiv_transitive(w, items[0], items[i]);
        }
        lemma_items_equiv_iff(ws, items);
    } else if spec_rowset_schema(items) is Some {
        let schema = spec_rowset_schema(items)->0;
        let pairs0 = items[0]->Hash_0;
        let k = schema.len();
        assert(spec_lens_fit(items[0]));
        let ck = spec_uvarint(k as u64);
        assert(spec_count(k) == ck);
        let (kb, tk) = spec_enc_keys(schema, d, t);
        let (vb, tv) = spec_enc_rows(items, d, tk);
        assert(b =~= seq![TAG_ARRAY_ROWS] + (c + (ck + (kb + vb))));
        lemma_at_byte(data, st, TAG_ARRAY_ROWS, c + (ck + (kb + vb)));
        lemma_at_split(data, st1.pos, c, ck + (kb + vb));
        lemma_at_uvarint(data, st1, n as u64);
        lemma_at_split(data, st2.pos, ck, kb + vb);
        lemma_at_uvarint(data, st2, k as u64);
        let st2b = PState { pos: st2.pos + ck.len(), ..st2 };
        lemma_at_split(data, st2b.pos, kb, vb);
        let st3b = PState { depth: st.depth + 1, ..st2b };
        assert(p_enter(cfg, st2b) == Ok::<PState, Error>(st3b));
        lemma_grow_rows(items, d, tk);
        lemma_rt_keys(data, cfg, st3b, schema, t);
        let st4 = p_keys(data, cfg, st3b, k)->Ok_0.1;
        assert forall|i: int| 0 <= i < n implies spec_row_fits(#[trigger] items[i], schema) by {
            if i == 0 {
                assert(items[0] == Val::Hash(pairs0));
            }
        }
        lemma_rt_rows(data, cfg, st4, items, schema, tk);
        assert(n * k >= n) by (nonlinear_arith)
            requires
                k >= 1,
        ;
        assert(p_remaining(data, st2b) >= kb.len() + vb.len());
    } else {
        let (bi, ti) = spec_enc_items(items, d, t);
        assert(b =~= seq![TAG_ARRAY_PACKED] + (c + bi));
        lemma_at_byte(data, st, TAG_ARRAY_PACKED, c + bi);
        lemma_at_split(data, st1.pos, c, bi);
        lemma_at_uvarint(data, st1, n as u64);
        lemma_rt_items(data, cfg, st3, items, t);
        assert(p_count_ok(data, st2, n as u64, 1) == Ok::<u32, Error>(n as u32));
    }
}

proof fn lemma_rt_items(data: Seq<u8>, cfg: DecodeCfg, st: PState, items: Seq<Val>, t: Seq<Seq<u8>>)
    requires
        spec_at(data, st.pos, spec_enc_items(items, cfg.dedup, t).0),
        cfg.dedup ==> st.strings == t,
        spec_enc_items(items, cfg.dedup, t).1.len() <= u32::MAX + 1,
        st.depth <= cfg.max_depth,
        forall|i: int|
            0 <= i < items.len() ==> spec_nesting_at_most(
                #[trigger] items[i],
                (cfg.max_depth - st.depth) as nat,
            ),
        forall|i: int| 0 <= i < items.len() ==> spec_lens_fit(#[trigger] items[i]),
        st.used + spec_items_charge(items) <= cfg.max_size,
    ensures
        ({
            let (b, t1) = spec_enc_items(items, cfg.dedup, t);
            &&& p_items(data, cfg, st, items.len()) matches Ok((ws, st1)) && spec_items_equiv(ws, items)
                && spec_read_back(st, st1, b, t1, cfg.dedup, spec_items_charge(items))
            &&& b.len() >= items.len()
        }),
    decreases items, 2nat,
{
    let d = cfg.dedup;
    if items.len() == 0 {
        assert(spec_enc_items(items, d, t) == (Seq::<u8>::empty(), t));
    } else {
        let rest = items.drop_first();
        lemma_enc_items_front(items, d, t);
        let (b0, t0) = spec_enc_value(items[0], d, t);
        let (br, tr) = spec_enc_items(rest, d, t0);
        lemma_grow_items(rest, d, t0);
        lemma_at_split(data, st.pos, b0, br);
        lemma_rt_value(data, cfg, st, items[0], t);
        let (w, st1) = p_value(data, cfg, st)->Ok_0;
        assert forall|i: int| 0 <= i < rest.len() implies spec_nesting_at_most(
            #[trigger] rest[i],
            (cfg.max_depth - st1.depth) as nat,
        ) && spec_lens_fit(rest[i]) by {
            assert(rest[i] == items[i + 1]);
        }
        lemma_rt_items(data, cfg, st1, rest, t0);
        let ws = p_items(data, cfg, st1, rest.len())->Ok_0.0;
        lemma_items_equiv_iff(ws, rest);
        let r = seq![w] + ws;
        assert forall|i: int| 0 <= i < items.len() implies spec_equiv(#[trigger] r[i], items[i]) by {
            if i > 0 {
                assert(r[i] == ws[i - 1]);
                assert(rest[i - 1] == items[i]);
            }
        }
        lemma_items_equiv_iff(r, items);
    }
}

proof fn lemma_rt_pairs(data: Seq<u8>, cfg: DecodeCfg, st: PState, pairs: Seq<(KeyV, Val)>, t: Seq<Seq<u8>>)
    requires
        spec_at(data, st.pos, spec_enc_pairs(pairs, cfg.dedup, t).0),
        cfg.dedup ==> st.strings == t,
        spec_enc_pairs(pairs, cfg.dedup, t).1.len() <= u32::MAX + 1,
        st.depth <= cfg.max_depth,
        forall|i: int|
            0 <= i < pairs.len() ==> spec_nesting_at_most(
                #[trigger] pairs[i].1,
                (cfg.max_depth - st.depth) as nat,
            ),
        forall|i: int| 0 <= i < pairs.len() ==> spec_lens_fit(#[trigger] pairs[i].1),
        st.used + spec_pairs_charge(pairs) <= cfg.max_size,
    ensures
        ({
            let (b, t1) = spec_enc_pairs(pairs, cfg.dedup, t);
            &&& p_pairs(data, cfg, st, pairs.len()) matches Ok((ps, st1)) && spec_pairs_equiv(ps, pairs)
                && spec_read_back(st, st1, b, t1, cfg.dedup, spec_pairs_charge(pairs))
            &&& b.len() >= 2 * pairs.len()
        }),
    decreases pairs, 2nat,
{
    let d = cfg.dedup;
    if pairs.len() == 0 {
        assert(spec_enc_pairs(pairs, d, t) == (Seq::<u8>::empty(), t));
    } else {
        let rest = pairs.drop_first();
        lemma_enc_pairs_front(pairs, d, t);
        let (kb, tk) = spec_enc_key(pairs[0].0, d, t);
        let (vb, tv) = spec_enc_value(pairs[0].1, d, tk);
        let (br, tr) = spec_enc_pairs(rest, d, tv);
        lemma_grow_pairs(rest, d, tv);
        lemma_grow_value(pairs[0].1, d, tk);
        lemma_at_split(data, st.pos, kb + vb, br);
        lemma_at_split(data, st.pos, kb, vb);
        lemma_rt_key(data, cfg, st, pairs[0].0, t);
        let (k, st1) = p_key(data, cfg, st)->Ok_0;
        lemma_rt_value(data, cfg, st1, pairs[0].1, tk);
        let (w, st2) = p_value(data, cfg, st1)->Ok_0;
        assert forall|i: int| 0 <= i < rest.len() implies spec_nesting_at_most(
            #[trigger] rest[i].1,
            (cfg.max_depth - st2.depth) as nat,
        ) && spec_lens_fit(rest[i].1) by {
            assert(rest[i] == pairs[i + 1]);
        }
        lemma_rt_pairs(data, cfg, st2, rest, tv);
        let ps = p_pairs(data, cfg, st2, rest.len())->Ok_0.0;
        lemma_pairs_equiv_iff(ps, rest);
        let r = seq![(k, w)] + ps;
        assert forall|i: int| 0 <= i < pairs.len() implies (#[trigger] r[i]).0 == pairs[i].0
            && spec_equiv(r[i].1, pairs[i].1) by {
            if i > 0 {
                assert(r[i] == ps[i - 1]);
                assert(rest[i - 1] == pairs[i]);
            }
        }
        lemma_pairs_equiv_iff(r, pairs);
    }
}

proof fn lemma_rt_row_values(
    data: Seq<u8>,
    cfg: DecodeCfg,
    st: PState,
    pairs: Seq<(KeyV, Val)>,
    keys: Seq<KeyV>,
    t: Seq<Seq<u8>>,
)
    requires
        keys == spec_keys_of(pairs),
        spec_at(data, st.pos, spec_enc_values(pairs, cfg.dedup, t).0),
        cfg.dedup ==> st.strings == t,
        spec_enc_values(pairs, cfg.dedup, t).1.len() <= u32::MAX + 1,
        st.depth <= cfg.max_depth,
        forall|i: int|
            0 <= i < pairs.len() ==> spec_nesting_at_most(
                #[trigger] pairs[i].1,
                (cfg.max_depth - st.depth) as nat,
            ),
        forall|i: int| 0 <= i < pairs.len() ==> spec_lens_fit(#[trigger] pairs[i].1),
        st.used + spec_values_charge(pairs) <= cfg.max_size,
    ensures
        ({
            let (b, t1) = spec_enc_values(pairs, cfg.dedup, t);
            &&& p_row_values(data, cfg, st, keys) matches Ok((ps, st1)) && spec_pairs_equiv(ps, pairs)
                && spec_read_back(st, st1, b, t1, cfg.dedup, spec_values_charge(pairs))
            &&& b.len() >= pairs.len()
        }),
    decreases pairs, 2nat,
{
    let d = cfg.dedup;
    if pairs.len() == 0 {
        assert(spec_enc_values(pairs, d, t) == (Seq::<u8>::empty(), t));
    } else {
        let rest = pairs.drop_first();
        lemma_enc_values_front(pairs, d, t);
        let (b0, t0) = spec_enc_value(pairs[0].1, d, t);
        let (br, tr) = spec_enc_values(rest, d, t0);
        lemma_grow_values(rest, d, t0);
        lemma_at_split(data, st.pos, b0, br);
        lemma_rt_value(data, cfg, st, pairs[0].1, t);
        let (w, st1) = p_value(data, cfg, st)->Ok_0;
        assert forall|i: int| 0 <= i < rest.len() implies spec_nesting_at_most(
            #[trigger] rest[i].1,
            (cfg.max_depth - st1.depth) as nat,
        ) && spec_lens_fit(rest[i].1) by {
            assert(rest[i] == pairs[i + 1]);
        }
        assert(keys.drop_first() =~= spec_keys_of(rest));
        lemma_rt_row_values(data, cfg, st1, rest, keys.drop_first(), t0);
        let ps = p_row_values(data, cfg, st1, keys.drop_first())->Ok_0.0;
        lemma_pairs_equiv_iff(ps, rest);
        let r = seq![(keys[0], w)] + ps;
        assert forall|i: int| 0 <= i < pairs.len() implies (#[trigger] r[i]).0 == pairs[i].0
            && spec_equiv(r[i].1, pairs[i].1) by {
            if i > 0 {
                assert(r[i] == ps[i - 1]);
                assert(rest[i - 1] == pairs[i]);
            }
        }
        lemma_pairs_equiv_iff(r, pairs);
    }
}

proof fn lemma_rt_rows(
    data: Seq<u8>,
    cfg: DecodeCfg,
    st: PState,
    items: Seq<Val>,
    keys: Seq<KeyV>,
    t: Seq<Seq<u8>>,
)
    requires
        forall|i: int| 0 <= i < items.len() ==> spec_row_fits(#[trigger] items[i], keys),
        spec_at(data, st.pos, spec_enc_rows(items, cfg.dedup, t).0),
        cfg.dedup ==> st.strings == t,
        spec_enc_rows(items, cfg.dedup, t).1.len() <= u32::MAX + 1,
        st.depth <= cfg.max_depth,
        forall|i: int|
            0 <= i < items.len() ==> spec_nesting_at_most(
                #[trigger] items[i],
                (cfg.max_depth - st.depth) as nat,
            ),
        forall|i: int| 0 <= i < items.len() ==> spec_lens_fit(#[trigger] items[i]),
        st.used + spec_rows_charge(items) <= cfg.max_size,
    ensures
        ({
            let (b, t1) = spec_enc_rows(items, cfg.dedup, t);
            &&& p_rows(data, cfg, st, keys, items.len()) matches Ok((rows, st1)) && spec_items_equiv(
                rows,
                items,
            ) && spec_read_back(st, st1, b, t1, cfg.dedup, spec_rows_charge(items))
            &&& b.len() >= items.len() * keys.len()
        }),
    decreases items, 2nat,
{
    let d = cfg.dedup;
    if items.len() == 0 {
        assert(spec_enc_rows(items, d, t) == (Seq::<u8>::empty(), t));
    } else {
        let rest = items.drop_first();
        assert(spec_row_fits(items[0], keys));
        let p0 = items[0]->Hash_0;
        lemma_enc_rows_front(items, d, t);
        let (b0, t0) = spec_enc_values(p0, d, t);
        let (br, tr) = spec_enc_rows(rest, d, t0);
        lemma_grow_rows(rest, d, t0);
        lemma_at_split(data, st.pos, b0, br);
        let st1 = PState { depth: st.depth + 1, ..st };
        assert(p_enter(cfg, st) == Ok::<PState, Error>(st1));
        assert(spec_lens_fit(items[0]));
        lemma_rt_row_values(data, cfg, st1, p0, keys, t);
        let (ps, st2) = p_row_values(data, cfg, st1, keys)->Ok_0;
        let st2b = PState { depth: st.depth, ..st2 };
        assert forall|i: int| 0 <= i < rest.len() implies spec_nesting_at_most(
            #[trigger] rest[i],
            (cfg.max_depth - st2b.depth) as nat,
        ) && spec_lens_fit(rest[i]) && spec_row_fits(rest[i], keys) by {
            assert(rest[i] == items[i + 1]);
        }
        lemma_rt_rows(data, cfg, st2b, rest, keys, t0);
        let rows = p_rows(data, cfg, st2b, keys, rest.len())->Ok_0.0;
        lemma_items_equiv_iff(rows, rest);
        let r = seq![Val::Hash(ps)] + rows;
        assert forall|i: int| 0 <= i < items.len() implies spec_equiv(#[trigger] r[i], items[i]) by {
            if i > 0 {
                assert(r[i] == rows[i - 1]);
                assert(rest[i - 1] == items[i]);
            }
        }
        lemma_items_equiv_iff(r, items);
        let n = items.len();
        let k = keys.len();
        assert(n * k == k + (n - 1) * k) by (nonlinear_arith);
    }
}

// ---------------------------------------------------------------------------------------
/// A header written for valid `flags`, with the checksum of `payload` when flagged, parses
/// back to version 1, those flags and that payload.
pub proof fn lemma_header_roundtrip(flags: u8, payload: Seq<u8>)
    requires
        spec_flags_valid(flags),
    ensures
        spec_parse_header(spec_document(flags, payload)) == Ok::<(Header, Seq<u8>), HeaderError>(
            (Header { version: VERSION_V1, flags }, payload),
        ),
{
    let data = spec_document(flags, payload);
    let base = spec_base_header(flags);
    assert(data.subrange(0, 4) =~= spec_magic());
    assert(data[4] == VERSION_V1);
    assert(data[5] == flags);
    if spec_has_checksum(flags) {
        let ck = spec_checksum(payload);
        assert(data == base + ck + payload);
        assert(data.skip(10) =~= payload);
        assert(data.subrange(6, 10) =~= ck);
    } else {
        assert(data.skip(6) =~= payload);
    }
}

/// Decoding the document that encoding `v` produces gives back a value equal to `v`, for any
/// valid flags, limits and trailing-bytes mode, as long as the document stays within what the
/// decoder accepts: no array longer than `u32::MAX`, arrays nested no deeper than the depth
/// limit, the string bytes the decoder counts and the payload within the size limit, and no
/// more than 2^32 distinct strings in the string table.
pub proof fn lemma_decode_encode(v: Val, flags: u8, max_depth: u32, max_size: usize, strict_trailing: bool)
    requires
        spec_flags_valid(flags),
        spec_lens_fit(v),
        spec_nesting_at_most(v, spec_effective_max_depth(max_depth) as nat),
        spec_charge(v) <= spec_effective_max_size(max_size),
        spec_payload(v, flags).len() <= spec_effective_max_size(max_size),
        spec_enc_value(v, spec_has_strdedup(flags), Seq::empty()).1.len() <= u32::MAX + 1,
    ensures
        spec_decode(spec_encode(v, flags), max_depth, max_size, strict_trailing) matches Ok(w)
            && spec_equiv(w, v),
{
    let payload = spec_payload(v, flags);
    lemma_header_roundtrip(flags, payload);
    let cfg = DecodeCfg {
        max_depth: spec_effective_max_depth(max_depth),
        max_size: spec_effective_max_size(max_size),
        dedup: spec_has_strdedup(flags),
    };
    assert(spec_at(payload, 0, payload)) by {
        assert(payload.subrange(0, payload.len() as int) =~= payload);
    }
    lemma_rt_value(payload, cfg, p_start(), v, Seq::empty());
}

/// The round trip for documents whose payload fits in `u32::MAX` bytes (the default size limit
/// is far below): the string table then cannot outgrow 32-bit ids, so besides the limits only
/// the array lengths need to fit in `u32`.
pub proof fn lemma_decode_encode_u32_payload(
    v: Val,
    flags: u8,
    max_depth: u32,
    max_size: usize,
    strict_trailing: bool,
)
    requires
        spec_flags_valid(flags),
        spec_lens_fit(v),
        spec_nesting_at_most(v, spec_effective_max_depth(max_depth) as nat),
        spec_charge(v) <= spec_effective_max_size(max_size),
        spec_payload(v, flags).len() <= spec_effective_max_size(max_size),
        spec_payload(v, flags).len() <= u32::MAX,
    ensures
        spec_decode(spec_encode(v, flags), max_depth, max_size, strict_trailing) matches Ok(w)
            && spec_equiv(w, v),
{
    lemma_table_bytes_value(v, spec_has_strdedup(flags), Seq::empty());
    lemma_decode_encode(v, flags, max_depth, max_size, strict_trailing);
}

/// Decoding the document that encoding `v` produces, within the limits of
/// [`lemma_decode_encode`], gives a value with the same canonical form as `v`: the same types,
/// integers, float bit patterns and string bytes, keys and array lengths. A value that is no
/// array comes back exactly as it was.
pub proof fn lemma_decode_encode_normal_form(
    v: Val,
    flags: u8,
    max_depth: u32,
    max_size: usize,
    strict_trailing: bool,
)
    requires
        spec_flags_valid(flags),
        spec_lens_fit(v),
        spec_nesting_at_most(v, spec_effective_max_depth(max_depth) as nat),
        spec_charge(v) <= spec_effective_max_size(max_size),
        spec_payload(v, flags).len() <= spec_effective_max_size(max_size),
        spec_enc_value(v, spec_has_strdedup(flags), Seq::empty()).1.len() <= u32::MAX + 1,
    ensures
        spec_decode(spec_encode(v, flags), max_depth, max_size, strict_trailing) matches Ok(w)
            && spec_normalize(w) == spec_normalize(v) && (!(v is Packed || v is Hash) ==> w == v),
{
    lemma_decode_encode(v, flags, max_depth, max_size, strict_trailing);
    let w = spec_decode(spec_encode(v, flags), max_depth, max_size, strict_trailing)->Ok_0;
    lemma_normalize_respects_equiv(w, v);
    if !(v is Packed || v is Hash) {
        lemma_equiv_symmetric(w, v);
        lemma_equiv_scalar_exact(v, w);
    }
}

} // verus!
