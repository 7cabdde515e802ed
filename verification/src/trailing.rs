//! Bytes after a document do not change what is read from it.

use vstd::prelude::*;
use crate::error::Error;
use crate::header::{spec_has_checksum, spec_parse_header};
use crate::parse::{
    DecodeCfg, PState, p_array_hash, p_array_packed, p_array_repeat, p_array_rows,
    p_items, p_ivarint, p_key, p_keys, p_longs, p_packed_longs, p_pairs, p_remaining,
    p_row_values, p_rows, p_start, p_str_ref, p_str_varint, p_string_tag, p_take, p_uvarint,
    p_value, spec_decode, spec_effective_max_size,
};
use crate::value::{KeyV, Val};
use crate::varint::spec_read_uvarint_at;

verus! {

proof fn lemma_read_at_extend(s: Seq<u8>, e: Seq<u8>, i: nat)
    requires
        spec_read_uvarint_at(s, i) is Ok,
    ensures
        spec_read_uvarint_at(s + e, i) == spec_read_uvarint_at(s, i),
    decreases 10 - i,
{
    if i < s.len() && i < 9 && s[i as int] & 0x80 != 0 {
        lemma_read_at_extend(s, e, i + 1);
    }
}

proof fn lemma_skip_extend(data: Seq<u8>, extra: Seq<u8>, pos: nat)
    requires
        pos <= data.len(),
    ensures
        (data + extra).skip(pos as int) == data.skip(pos as int) + extra,
{
    assert((data + extra).skip(pos as int) =~= data.skip(pos as int) + extra);
}

proof fn lemma_uvarint_extend(data: Seq<u8>, extra: Seq<u8>, st: PState)
    requires
        st.pos <= data.len(),
        p_uvarint(data, st) is Ok,
    ensures
        p_uvarint(data + extra, st) == p_uvarint(data, st),
        p_uvarint(data, st)->Ok_0.1.pos <= data.len(),
        p_ivarint(data + extra, st) == p_ivarint(data, st),
        p_ivarint(data, st)->Ok_0.1.pos <= data.len(),
{
    lemma_skip_extend(data, extra, st.pos);
    lemma_read_at_extend(data.skip(st.pos as int), extra, 0);
    crate::varint::lemma_read_uvarint_len(data.skip(st.pos as int));
}

proof fn lemma_take_extend(data: Seq<u8>, extra: Seq<u8>, st: PState, n: nat)
    requires
        st.pos <= data.len(),
        p_take(data, st, n) is Ok,
    ensures
        p_take(data + extra, st, n) == p_take(data, st, n),
        p_take(data, st, n)->Ok_0.1.pos <= data.len(),
{
    assert((data + extra).subrange(st.pos as int, (st.pos + n) as int) =~= data.subrange(
        st.pos as int,
        (st.pos + n) as int,
    ));
}

proof fn lemma_str_varint_extend(data: Seq<u8>, extra: Seq<u8>, cfg: DecodeCfg, st: PState)
    requires
        st.pos <= data.len(),
        p_str_varint(data, cfg, st) is Ok,
    ensures
        p_str_varint(data + extra, cfg, st) == p_str_varint(data, cfg, st),
        p_str_varint(data, cfg, st)->Ok_0.1.pos <= data.len(),
{
    lemma_uvarint_extend(data, extra, st);
    let (len, st1) = p_uvarint(data, st)->Ok_0;
    let st2 = PState { used: st1.used + len as nat, ..st1 };
    lemma_take_extend(data, extra, st2, len as nat);
}

proof fn lemma_str_ref_extend(data: Seq<u8>, extra: Seq<u8>, cfg: DecodeCfg, st: PState, refused: Error)
    requires
        st.pos <= data.len(),
        p_str_ref(data, cfg, st, refused) is Ok,
    ensures
        p_str_ref(data + extra, cfg, st, refused) == p_str_ref(data, cfg, st, refused),
        p_str_ref(data, cfg, st, refused)->Ok_0.1.pos <= data.len(),
{
    lemma_uvarint_extend(data, extra, st);
}

proof fn lemma_key_extend(data: Seq<u8>, extra: Seq<u8>, cfg: DecodeCfg, st: PState)
    requires
        st.pos <= data.len(),
        p_key(data, cfg, st) is Ok,
    ensures
        p_key(data + extra, cfg, st) == p_key(data, cfg, st),
        p_key(data, cfg, st)->Ok_0.1.pos <= data.len(),
{
    let st1 = PState { pos: st.pos + 1, ..st };
    assert((data + extra)[st.pos as int] == data[st.pos as int]);
    let tag = data[st.pos as int];
    if tag == crate::tags::TAG_VARINT {
        lemma_uvarint_extend(data, extra, st1);
    } else if tag == crate::tags::TAG_STR_VARINT {
        lemma_str_varint_extend(data, extra, cfg, st1);
    } else if tag == crate::tags::TAG_STR_REF {
        lemma_str_ref_extend(data, extra, cfg, st1, Error::BadKey);
    }
}

proof fn lemma_keys_extend(data: Seq<u8>, extra: Seq<u8>, cfg: DecodeCfg, st: PState, n: nat)
    requires
        st.pos <= data.len(),
        p_keys(data, cfg, st, n) is Ok,
    ensures
        p_keys(data + extra, cfg, st, n) == p_keys(data, cfg, st, n),
        p_keys(data, cfg, st, n)->Ok_0.1.pos <= data.len(),
    decreases n,
{
    if n > 0 {
        lemma_keys_extend(data, extra, cfg, st, (n - 1) as nat);
        let st1 = p_keys(data, cfg, st, (n - 1) as nat)->Ok_0.1;
        lemma_key_extend(data, extra, cfg, st1);
    }
}

proof fn lemma_longs_extend(data: Seq<u8>, extra: Seq<u8>, st: PState, n: nat)
    requires
        st.pos <= data.len(),
        p_longs(data, st, n) is Ok,
    ensures
        p_longs(data + extra, st, n) == p_longs(data, st, n),
        p_longs(data, st, n)->Ok_0.1.pos <= data.len(),
    decreases n,
{
    if n > 0 {
        lemma_longs_extend(data, extra, st, (n - 1) as nat);
        let st1 = p_longs(data, st, (n - 1) as nat)->Ok_0.1;
        lemma_uvarint_extend(data, extra, st1);
    }
}

proof fn lemma_string_tag_extend(data: Seq<u8>, extra: Seq<u8>, cfg: DecodeCfg, st: PState, tag: u8)
    requires
        st.pos <= data.len(),
        p_string_tag(data, cfg, st, tag) is Ok,
    ensures
        p_string_tag(data + extra, cfg, st, tag) == p_string_tag(data, cfg, st, tag),
        p_string_tag(data, cfg, st, tag)->Ok_0.1.pos <= data.len(),
{
    if tag == crate::tags::TAG_STR_VARINT {
        lemma_str_varint_extend(data, extra, cfg, st);
    } else if tag == crate::tags::TAG_STR_REF {
        lemma_str_ref_extend(data, extra, cfg, st, Error::UnknownTag);
    }
}

proof fn lemma_value_extend(data: Seq<u8>, extra: Seq<u8>, cfg: DecodeCfg, st: PState)
    requires
        p_value(data, cfg, st) is Ok,
    ensures
        p_value(data + extra, cfg, st) == p_value(data, cfg, st),
        p_value(data, cfg, st)->Ok_0.1.pos <= data.len(),
    decreases p_remaining(data, st), 0nat, 0nat,
{
    let st1 = PState { pos: st.pos + 1, ..st };
    assert((data + extra)[st.pos as int] == data[st.pos as int]);
    assert(p_remaining(data, st1) < p_remaining(data, st));
    let tag = data[st.pos as int];
    if tag == crate::tags::TAG_VARINT {
        lemma_uvarint_extend(data, extra, st1);
    } else if tag == crate::tags::TAG_DOUBLE {
        lemma_take_extend(data, extra, st1, 8);
    } else if tag == crate::tags::TAG_STR_EMPTY || tag == crate::tags::TAG_STR_VARINT || tag
        == crate::tags::TAG_STR_REF {
        lemma_string_tag_extend(data, extra, cfg, st1, tag);
    } else if tag == crate::tags::TAG_ARRAY_PACKED {
        lemma_packed_extend(data, extra, cfg, st1);
    } else if tag == crate::tags::TAG_ARRAY_HASH {
        lemma_hash_extend(data, extra, cfg, st1);
    } else if tag == crate::tags::TAG_PACKED_LONGS {
        lemma_packed_longs_extend(data, extra, cfg, st1);
    } else if tag == crate::tags::TAG_ARRAY_ROWS {
        lemma_rows_array_extend(data, extra, cfg, st1);
    } else if tag == crate::tags::TAG_ARRAY_REPEAT {
        lemma_repeat_extend(data, extra, cfg, st1);
    }
}

proof fn lemma_items_extend(data: Seq<u8>, extra: Seq<u8>, cfg: DecodeCfg, st: PState, n: nat)
    requires
        st.pos <= data.len(),
        p_items(data, cfg, st, n) is Ok,
    ensures
        p_items(data + extra, cfg, st, n) == p_items(data, cfg, st, n),
        p_items(data, cfg, st, n)->Ok_0.1.pos <= data.len(),
    decreases p_remaining(data, st), 1nat, n,
{
    if n > 0 {
        lemma_value_extend(data, extra, cfg, st);
        let st1 = p_value(data, cfg, st)->Ok_0.1;
        lemma_items_extend(data, extra, cfg, st1, (n - 1) as nat);
    }
}

proof fn lemma_pairs_extend(data: Seq<u8>, extra: Seq<u8>, cfg: DecodeCfg, st: PState, n: nat)
    requires
        st.pos <= data.len(),
        p_pairs(data, cfg, st, n) is Ok,
    ensures
        p_pairs(data + extra, cfg, st, n) == p_pairs(data, cfg, st, n),
        p_pairs(data, cfg, st, n)->Ok_0.1.pos <= data.len(),
    decreases p_remaining(data, st), 1nat, n,
{
    if n > 0 {
        lemma_key_extend(data, extra, cfg, st);
        let st1 = p_key(data, cfg, st)->Ok_0.1;
        lemma_value_extend(data, extra, cfg, st1);
        let st2 = p_value(data, cfg, st1)->Ok_0.1;
        lemma_pairs_extend(data, extra, cfg, st2, (n - 1) as nat);
    }
}

proof fn lemma_row_values_extend(data: Seq<u8>, extra: Seq<u8>, cfg: DecodeCfg, st: PState, keys: Seq<KeyV>)
    requires
        st.pos <= data.len(),
        p_row_values(data, cfg, st, keys) is Ok,
    ensures
        p_row_values(data + extra, cfg, st, keys) == p_row_values(data, cfg, st, keys),
        p_row_values(data, cfg, st, keys)->Ok_0.1.pos <= data.len(),
    decreases p_remaining(data, st), 1nat, keys.len(),
{
    if keys.len() > 0 {
        lemma_value_extend(data, extra, cfg, st);
        let st1 = p_value(data, cfg, st)->Ok_0.1;
        lemma_row_values_extend(data, extra, cfg, st1, keys.drop_first());
    }
}

proof fn lemma_rows_extend(data: Seq<u8>, extra: Seq<u8>, cfg: DecodeCfg, st: PState, keys: Seq<KeyV>, n: nat)
    requires
        st.pos <= data.len(),
        p_rows(data, cfg, st, keys, n) is Ok,
    ensures
        p_rows(data + extra, cfg, st, keys, n) == p_rows(data, cfg, st, keys, n),
        p_rows(data, cfg, st, keys, n)->Ok_0.1.pos <= data.len(),
    decreases p_remaining(data, st), 2nat, n,
{
    if n > 0 {
        let st1 = PState { depth: st.depth + 1, ..st };
        lemma_row_values_extend(data, extra, cfg, st1, keys);
        let st2 = p_row_values(data, cfg, st1, keys)->Ok_0.1;
        lemma_rows_extend(data, extra, cfg, PState { depth: st.depth, ..st2 }, keys, (n - 1) as nat);
    }
}

proof fn lemma_packed_extend(data: Seq<u8>, extra: Seq<u8>, cfg: DecodeCfg, st: PState)
    requires
        st.pos <= data.len(),
        p_array_packed(data, cfg, st) is Ok,
    ensures
        p_array_packed(data + extra, cfg, st) == p_array_packed(data, cfg, st),
        p_array_packed(data, cfg, st)->Ok_0.1.pos <= data.len(),
    decreases p_remaining(data, st), 3nat, 0nat,
{
    lemma_uvarint_extend(data, extra, st);
    let (count64, sta) = p_uvarint(data, st)->Ok_0;
    lemma_items_extend(data, extra, cfg, PState { depth: st.depth + 1, ..sta }, count64 as u32 as nat);
}

proof fn lemma_hash_extend(data: Seq<u8>, extra: Seq<u8>, cfg: DecodeCfg, st: PState)
    requires
        st.pos <= data.len(),
        p_array_hash(data, cfg, st) is Ok,
    ensures
        p_array_hash(data + extra, cfg, st) == p_array_hash(data, cfg, st),
        p_array_hash(data, cfg, st)->Ok_0.1.pos <= data.len(),
    decreases p_remaining(data, st), 3nat, 0nat,
{
    lemma_uvarint_extend(data, extra, st);
    let (count64, sta) = p_uvarint(data, st)->Ok_0;
    lemma_pairs_extend(data, extra, cfg, PState { depth: st.depth + 1, ..sta }, count64 as u32 as nat);
}

proof fn lemma_packed_longs_extend(data: Seq<u8>, extra: Seq<u8>, cfg: DecodeCfg, st: PState)
    requires
        st.pos <= data.len(),
        p_packed_longs(data, cfg, st) is Ok,
    ensures
        p_packed_longs(data + extra, cfg, st) == p_packed_longs(data, cfg, st),
        p_packed_longs(data, cfg, st)->Ok_0.1.pos <= data.len(),
{
    lemma_uvarint_extend(data, extra, st);
    let (count64, sta) = p_uvarint(data, st)->Ok_0;
    lemma_longs_extend(data, extra, PState { depth: st.depth + 1, ..sta }, count64 as u32 as nat);
}

proof fn lemma_repeat_extend(data: Seq<u8>, extra: Seq<u8>, cfg: DecodeCfg, st: PState)
    requires
        st.pos <= data.len(),
        p_array_repeat(data, cfg, st) is Ok,
    ensures
        p_array_repeat(data + extra, cfg, st) == p_array_repeat(data, cfg, st),
        p_array_repeat(data, cfg, st)->Ok_0.1.pos <= data.len(),
    decreases p_remaining(data, st), 3nat, 0nat,
{
    lemma_uvarint_extend(data, extra, st);
    let (count64, sta) = p_uvarint(data, st)->Ok_0;
    lemma_value_extend(data, extra, cfg, PState { depth: st.depth + 1, ..sta });
}

proof fn lemma_rows_array_extend(data: Seq<u8>, extra: Seq<u8>, cfg: DecodeCfg, st: PState)
    requires
        st.pos <= data.len(),
        p_array_rows(data, cfg, st) is Ok,
    ensures
        p_array_rows(data + extra, cfg, st) == p_array_rows(data, cfg, st),
        p_array_rows(data, cfg, st)->Ok_0.1.pos <= data.len(),
    decreases p_remaining(data, st), 3nat, 0nat,
{
    lemma_uvarint_extend(data, extra, st);
    let (nrows, sta) = p_uvarint(data, st)->Ok_0;
    lemma_uvarint_extend(data, extra, sta);
    let (ncols, stb) = p_uvarint(data, sta)->Ok_0;
    let stc = PState { depth: st.depth + 1, ..stb };
    lemma_keys_extend(data, extra, cfg, stc, ncols as nat);
    let (keys, std) = p_keys(data, cfg, stc, ncols as nat)->Ok_0;
    lemma_rows_extend(data, extra, cfg, std, keys, nrows as nat);
}

/// Bytes appended to a document without checksum do not change the value read from it, as
/// long as the longer payload stays within the size limit: read leniently, the longer
/// document gives the same value; read strictly, it is refused as trailing bytes.
pub proof fn lemma_trailing_bytes(
    data: Seq<u8>,
    extra: Seq<u8>,
    max_depth: u32,
    max_size: usize,
    strict_trailing: bool,
)
    requires
        spec_decode(data, max_depth, max_size, strict_trailing) is Ok,
        !spec_has_checksum(data[5]),
        extra.len() > 0,
        data.len() + extra.len() - 6 <= spec_effective_max_size(max_size),
    ensures
        spec_decode(data + extra, max_depth, max_size, false) == spec_decode(
            data,
            max_depth,
            max_size,
            strict_trailing,
        ),
        spec_decode(data + extra, max_depth, max_size, true) == Err::<Val, Error>(Error::Trailing),
{
    let (h, payload) = spec_parse_header(data)->Ok_0;
    let whole = data + extra;
    assert(whole.subrange(0, 4) =~= data.subrange(0, 4));
    assert(whole[4] == data[4] && whole[5] == data[5]);
    assert(payload == data.skip(6));
    assert(whole.skip(6) =~= payload + extra);
    let cfg = DecodeCfg {
        max_depth: crate::parse::spec_effective_max_depth(max_depth),
        max_size: spec_effective_max_size(max_size),
        dedup: crate::header::spec_has_strdedup(h.flags),
    };
    lemma_value_extend(payload, extra, cfg, p_start());
    let st = p_value(payload, cfg, p_start())->Ok_0.1;
}

} // verus!
