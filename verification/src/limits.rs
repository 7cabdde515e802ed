//! What the decoder's limits guarantee about the values it accepts.

use vstd::prelude::*;
use crate::parse::{
    DecodeCfg, PState, p_array_hash, p_array_packed, p_array_repeat, p_array_rows, p_byte,
    p_items, p_key, p_keys, p_longs, p_packed_longs, p_pairs, p_remaining, p_row_values, p_rows,
    p_start, p_value, spec_decode, spec_effective_max_depth,
};
use crate::roundtrip::spec_nesting_at_most;
use crate::value::{KeyV, Val};

verus! {

/// Read back at depth `st.depth`, a value nests no deeper than the limit allows, and the
/// decoder leaves it at the depth it started from.
pub open spec fn spec_depth_ok(cfg: DecodeCfg, st: PState, v: Val, st1: PState) -> bool {
    &&& st1.depth == st.depth
    &&& spec_nesting_at_most(v, (cfg.max_depth - st.depth) as nat)
}

proof fn lemma_keys_depth(data: Seq<u8>, cfg: DecodeCfg, st: PState, n: nat)
    ensures
        p_keys(data, cfg, st, n) matches Ok((ks, st1)) ==> st1.depth == st.depth,
    decreases n,
{
    if n > 0 {
        lemma_keys_depth(data, cfg, st, (n - 1) as nat);
    }
}

proof fn lemma_longs_depth(data: Seq<u8>, st: PState, n: nat)
    ensures
        p_longs(data, st, n) matches Ok((vs, st1)) ==> st1.depth == st.depth && forall|i: int|
            0 <= i < vs.len() ==> #[trigger] vs[i] is Int,
    decreases n,
{
    if n > 0 {
        lemma_longs_depth(data, st, (n - 1) as nat);
    }
}

proof fn lemma_value_depth(data: Seq<u8>, cfg: DecodeCfg, st: PState)
    requires
        st.depth <= cfg.max_depth,
    ensures
        p_value(data, cfg, st) matches Ok((v, st1)) ==> spec_depth_ok(cfg, st, v, st1),
    decreases p_remaining(data, st), 0nat, 0nat,
{
    if let Ok((tag, st1)) = p_byte(data, st) {
        assert(p_remaining(data, st1) < p_remaining(data, st));
        lemma_packed_depth(data, cfg, st1);
        lemma_hash_depth(data, cfg, st1);
        lemma_packed_longs_depth(data, cfg, st1);
        lemma_rows_array_depth(data, cfg, st1);
        lemma_repeat_depth(data, cfg, st1);
    }
}

proof fn lemma_items_depth(data: Seq<u8>, cfg: DecodeCfg, st: PState, n: nat)
    requires
        st.depth <= cfg.max_depth,
    ensures
        p_items(data, cfg, st, n) matches Ok((vs, st1)) ==> st1.depth == st.depth && forall|i: int|
            0 <= i < vs.len() ==> spec_nesting_at_most(
                #[trigger] vs[i],
                (cfg.max_depth - st.depth) as nat,
            ),
    decreases p_remaining(data, st), 1nat, n,
{
    if n > 0 {
        lemma_value_depth(data, cfg, st);
        if let Ok((v, st1)) = p_value(data, cfg, st) {
            if st.pos < st1.pos <= data.len() {
                lemma_items_depth(data, cfg, st1, (n - 1) as nat);
                if let Ok((vs, st2)) = p_items(data, cfg, st1, (n - 1) as nat) {
                    let r = seq![v] + vs;
                    assert forall|i: int| 0 <= i < r.len() implies spec_nesting_at_most(
                        #[trigger] r[i],
                        (cfg.max_depth - st.depth) as nat,
                    ) by {
                        if i > 0 {
                            assert(r[i] == vs[i - 1]);
                        }
                    }
                }
            }
        }
    }
}

proof fn lemma_pairs_depth(data: Seq<u8>, cfg: DecodeCfg, st: PState, n: nat)
    requires
        st.depth <= cfg.max_depth,
    ensures
        p_pairs(data, cfg, st, n) matches Ok((ps, st1)) ==> st1.depth == st.depth && forall|i: int|
            0 <= i < ps.len() ==> spec_nesting_at_most(
                #[trigger] ps[i].1,
                (cfg.max_depth - st.depth) as nat,
            ),
    decreases p_remaining(data, st), 1nat, n,
{
    if n > 0 {
        if let Ok((k, st1)) = p_key(data, cfg, st) {
            if st.pos <= st1.pos <= data.len() {
                lemma_value_depth(data, cfg, st1);
                if let Ok((v, st2)) = p_value(data, cfg, st1) {
                    if st.pos < st2.pos <= data.len() {
                        lemma_pairs_depth(data, cfg, st2, (n - 1) as nat);
                        if let Ok((ps, st3)) = p_pairs(data, cfg, st2, (n - 1) as nat) {
                            let r = seq![(k, v)] + ps;
                            assert forall|i: int| 0 <= i < r.len() implies spec_nesting_at_most(
                                #[trigger] r[i].1,
                                (cfg.max_depth - st.depth) as nat,
                            ) by {
                                if i > 0 {
                                    assert(r[i] == ps[i - 1]);
                                }
                            }
                        }
                    }
                }
            }
        }
    }
}

proof fn lemma_row_values_depth(data: Seq<u8>, cfg: DecodeCfg, st: PState, keys: Seq<KeyV>)
    requires
        st.depth <= cfg.max_depth,
    ensures
        p_row_values(data, cfg, st, keys) matches Ok((ps, st1)) ==> st1.depth == st.depth
            && forall|i: int|
            0 <= i < ps.len() ==> spec_nesting_at_most(
                #[trigger] ps[i].1,
                (cfg.max_depth - st.depth) as nat,
            ),
    decreases p_remaining(data, st), 1nat, keys.len(),
{
    if keys.len() > 0 {
        lemma_value_depth(data, cfg, st);
        if let Ok((v, st1)) = p_value(data, cfg, st) {
            if st.pos <= st1.pos <= data.len() {
                lemma_row_values_depth(data, cfg, st1, keys.drop_first());
                if let Ok((ps, st2)) = p_row_values(data, cfg, st1, keys.drop_first()) {
                    let r = seq![(keys[0], v)] + ps;
                    assert forall|i: int| 0 <= i < r.len() implies spec_nesting_at_most(
                        #[trigger] r[i].1,
                        (cfg.max_depth - st.depth) as nat,
                    ) by {
                        if i > 0 {
                            assert(r[i] == ps[i - 1]);
                        }
                    }
                }
            }
        }
    }
}

proof fn lemma_rows_depth(data: Seq<u8>, cfg: DecodeCfg, st: PState, keys: Seq<KeyV>, n: nat)
    requires
        st.depth <= cfg.max_depth,
    ensures
        p_rows(data, cfg, st, keys, n) matches Ok((rows, st1)) ==> st1.depth == st.depth
            && forall|i: int|
            0 <= i < rows.len() ==> spec_nesting_at_most(
                #[trigger] rows[i],
                (cfg.max_depth - st.depth) as nat,
            ),
    decreases p_remaining(data, st), 2nat, n,
{
    if n > 0 && st.depth + 1 <= cfg.max_depth {
        let st1 = PState { depth: st.depth + 1, ..st };
        lemma_row_values_depth(data, cfg, st1, keys);
        if let Ok((ps, st2)) = p_row_values(data, cfg, st1, keys) {
            if st.pos <= st2.pos <= data.len() {
                let st2b = PState { depth: st.depth, ..st2 };
                lemma_rows_depth(data, cfg, st2b, keys, (n - 1) as nat);
                if let Ok((rows, st3)) = p_rows(data, cfg, st2b, keys, (n - 1) as nat) {
                    let r = seq![Val::Hash(ps)] + rows;
                    assert forall|i: int| 0 <= i < r.len() implies spec_nesting_at_most(
                        #[trigger] r[i],
                        (cfg.max_depth - st.depth) as nat,
                    ) by {
                        if i > 0 {
                            assert(r[i] == rows[i - 1]);
                        }
                    }
                }
            }
        }
    }
}

proof fn lemma_packed_depth(data: Seq<u8>, cfg: DecodeCfg, st: PState)
    requires
        st.depth <= cfg.max_depth,
    ensures
        p_array_packed(data, cfg, st) matches Ok((v, st1)) ==> spec_depth_ok(cfg, st, v, st1),
    decreases p_remaining(data, st), 3nat, 0nat,
{
    if let Ok((v, st1)) = p_array_packed(data, cfg, st) {
        let (count64, sta) = p_uvarint_ok(data, st);
        let stb = PState { depth: st.depth + 1, ..sta };
        lemma_items_depth(data, cfg, stb, count64 as u32 as nat);
    }
}

proof fn lemma_hash_depth(data: Seq<u8>, cfg: DecodeCfg, st: PState)
    requires
        st.depth <= cfg.max_depth,
    ensures
        p_array_hash(data, cfg, st) matches Ok((v, st1)) ==> spec_depth_ok(cfg, st, v, st1),
    decreases p_remaining(data, st), 3nat, 0nat,
{
    if let Ok((v, st1)) = p_array_hash(data, cfg, st) {
        let (count64, sta) = p_uvarint_ok(data, st);
        let stb = PState { depth: st.depth + 1, ..sta };
        lemma_pairs_depth(data, cfg, stb, count64 as u32 as nat);
    }
}

proof fn lemma_packed_longs_depth(data: Seq<u8>, cfg: DecodeCfg, st: PState)
    requires
        st.depth <= cfg.max_depth,
    ensures
        p_packed_longs(data, cfg, st) matches Ok((v, st1)) ==> spec_depth_ok(cfg, st, v, st1),
{
    if let Ok((v, st1)) = p_packed_longs(data, cfg, st) {
        let (count64, sta) = p_uvarint_ok(data, st);
        let stb = PState { depth: st.depth + 1, ..sta };
        lemma_longs_depth(data, stb, count64 as u32 as nat);
        if let Ok((vs, stc)) = p_longs(data, stb, count64 as u32 as nat) {
            assert forall|i: int| 0 <= i < vs.len() implies spec_nesting_at_most(
                #[trigger] vs[i],
                (cfg.max_depth - st.depth - 1) as nat,
            ) by {
                assert(vs[i] is Int);
            }
        }
    }
}

proof fn lemma_repeat_depth(data: Seq<u8>, cfg: DecodeCfg, st: PState)
    requires
        st.depth <= cfg.max_depth,
    ensures
        p_array_repeat(data, cfg, st) matches Ok((v, st1)) ==> spec_depth_ok(cfg, st, v, st1),
    decreases p_remaining(data, st), 3nat, 0nat,
{
    if let Ok((v, st1)) = p_array_repeat(data, cfg, st) {
        let (count64, sta) = p_uvarint_ok(data, st);
        let stb = PState { depth: st.depth + 1, ..sta };
        lemma_value_depth(data, cfg, stb);
    }
}

proof fn lemma_rows_array_depth(data: Seq<u8>, cfg: DecodeCfg, st: PState)
    requires
        st.depth <= cfg.max_depth,
    ensures
        p_array_rows(data, cfg, st) matches Ok((v, st1)) ==> spec_depth_ok(cfg, st, v, st1),
    decreases p_remaining(data, st), 3nat, 0nat,
{
    if let Ok((v, st1)) = p_array_rows(data, cfg, st) {
        let (nrows, sta) = p_uvarint_ok(data, st);
        let (ncols, stb) = p_uvarint_ok(data, sta);
        let stc = PState { depth: st.depth + 1, ..stb };
        lemma_keys_depth(data, cfg, stc, ncols as nat);
        if let Ok((keys, std)) = p_keys(data, cfg, stc, ncols as nat) {
            lemma_rows_depth(data, cfg, std, keys, nrows as nat);
        }
    }
}

/// The count (or first field) an array read starts with, when the read went through.
spec fn p_uvarint_ok(data: Seq<u8>, st: PState) -> (u64, PState) {
    crate::parse::p_uvarint(data, st)->Ok_0
}

/// Every value the decoder accepts nests arrays no deeper than its depth limit.
pub proof fn lemma_decode_depth(data: Seq<u8>, max_depth: u32, max_size: usize, strict_trailing: bool)
    ensures
        spec_decode(data, max_depth, max_size, strict_trailing) matches Ok(v) ==> spec_nesting_at_most(
            v,
            spec_effective_max_depth(max_depth) as nat,
        ),
{
    if let Ok((h, payload)) = crate::header::spec_parse_header(data) {
        let cfg = DecodeCfg {
            max_depth: spec_effective_max_depth(max_depth),
            max_size: crate::parse::spec_effective_max_size(max_size),
            dedup: crate::header::spec_has_strdedup(h.flags),
        };
        lemma_value_depth(payload, cfg, p_start());
    }
}

} // verus!
