//! Properties of the codec as a whole: value equality is an equivalence, and decoding what
//! the encoder wrote gives back an equal value.

use vstd::prelude::*;
use crate::value::{KeyV, Val, spec_equiv, spec_items_equiv, spec_pairs_equiv};

use crate::parse::{spec_decode, spec_decode_strings, spec_effective_max_depth, spec_effective_max_size};

verus! {

/// [`spec_items_equiv`] is element-wise [`spec_equiv`].
pub proof fn lemma_items_equiv_iff(x: Seq<Val>, y: Seq<Val>)
    ensures
        spec_items_equiv(x, y) <==> (x.len() == y.len() && forall|i: int|
            0 <= i < x.len() ==> spec_equiv(#[trigger] x[i], y[i])),
    decreases x.len(),
{
    if x.len() == y.len() && x.len() > 0 {
        lemma_items_equiv_iff(x.drop_last(), y.drop_last());
        let n = x.len() - 1;
        if spec_items_equiv(x, y) {
            assert forall|i: int| 0 <= i < x.len() implies spec_equiv(#[trigger] x[i], y[i]) by {
                if i < n {
                    assert(x.drop_last()[i] == x[i]);
                    assert(y.drop_last()[i] == y[i]);
                }
            }
        }
        if forall|i: int| 0 <= i < x.len() ==> spec_equiv(#[trigger] x[i], y[i]) {
            assert forall|i: int| 0 <= i < n implies spec_equiv(
                #[trigger] x.drop_last()[i],
                y.drop_last()[i],
            ) by {
                assert(x.drop_last()[i] == x[i]);
                assert(y.drop_last()[i] == y[i]);
            }
            assert(spec_equiv(x[n], y[n]));
        }
    }
}

/// [`spec_pairs_equiv`] is pair-wise equality of keys and [`spec_equiv`] of values.
pub proof fn lemma_pairs_equiv_iff(x: Seq<(KeyV, Val)>, y: Seq<(KeyV, Val)>)
    ensures
        spec_pairs_equiv(x, y) <==> (x.len() == y.len() && forall|i: int|
            0 <= i < x.len() ==> (#[trigger] x[i]).0 == y[i].0 && spec_equiv(x[i].1, y[i].1)),
    decreases x.len(),
{
    if x.len() == y.len() && x.len() > 0 {
        lemma_pairs_equiv_iff(x.drop_last(), y.drop_last());
        let n = x.len() - 1;
        if spec_pairs_equiv(x, y) {
            assert forall|i: int| 0 <= i < x.len() implies (#[trigger] x[i]).0 == y[i].0
                && spec_equiv(x[i].1, y[i].1) by {
                if i < n {
                    assert(x.drop_last()[i] == x[i]);
                    assert(y.drop_last()[i] == y[i]);
                }
            }
        }
        if forall|i: int|
            0 <= i < x.len() ==> (#[trigger] x[i]).0 == y[i].0 && spec_equiv(x[i].1, y[i].1) {
            assert forall|i: int| 0 <= i < n implies (#[trigger] x.drop_last()[i]).0
                == y.drop_last()[i].0 && spec_equiv(x.drop_last()[i].1, y.drop_last()[i].1) by {
                assert(x.drop_last()[i] == x[i]);
                assert(y.drop_last()[i] == y[i]);
            }
            assert(x[n].0 == y[n].0 && spec_equiv(x[n].1, y[n].1));
        }
    }
}

/// Every value is equal to itself.
pub proof fn lemma_equiv_refl(v: Val)
    ensures
        spec_equiv(v, v),
    decreases v,
{
    match v {
        Val::Packed(items) => {
            assert forall|i: int| 0 <= i < items.len() implies spec_equiv(
                #[trigger] items[i],
                items[i],
            ) by {
                lemma_equiv_refl(items[i]);
            }
            lemma_items_equiv_iff(items, items);
        },
        Val::Hash(pairs) => {
            assert forall|i: int| 0 <= i < pairs.len() implies (#[trigger] pairs[i]).0 == pairs[i].0
                && spec_equiv(pairs[i].1, pairs[i].1) by {
                lemma_equiv_refl(pairs[i].1);
            }
            lemma_pairs_equiv_iff(pairs, pairs);
        },
        _ => {},
    }
}

/// Equality of values is symmetric.
pub proof fn lemma_equiv_symmetric(a: Val, b: Val)
    requires
        spec_equiv(a, b),
    ensures
        spec_equiv(b, a),
    decreases a,
{
    match (a, b) {
        (Val::Packed(x), Val::Packed(y)) => {
            lemma_items_equiv_iff(x, y);
            assert forall|i: int| 0 <= i < y.len() implies spec_equiv(#[trigger] y[i], x[i]) by {
                lemma_equiv_symmetric(x[i], y[i]);
            }
            lemma_items_equiv_iff(y, x);
        },
        (Val::Hash(x), Val::Hash(y)) => {
            lemma_pairs_equiv_iff(x, y);
            assert forall|i: int| 0 <= i < y.len() implies (#[trigger] y[i]).0 == x[i].0
                && spec_equiv(y[i].1, x[i].1) by {
                lemma_equiv_symmetric(x[i].1, y[i].1);
            }
            lemma_pairs_equiv_iff(y, x);
        },
        _ => {},
    }
}

/// Equality of values is transitive.
pub proof fn lemma_equiv_transitive(a: Val, b: Val, c: Val)
    requires
        spec_equiv(a, b),
        spec_equiv(b, c),
    ensures
        spec_equiv(a, c),
    decreases a,
{
    match (a, b, c) {
        (Val::Packed(x), Val::Packed(y), Val::Packed(z)) => {
            lemma_items_equiv_iff(x, y);
            lemma_items_equiv_iff(y, z);
            assert forall|i: int| 0 <= i < x.len() implies spec_equiv(#[trigger] x[i], z[i]) by {
                lemma_equiv_transitive(x[i], y[i], z[i]);
            }
            lemma_items_equiv_iff(x, z);
        },
        (Val::Hash(x), Val::Hash(y), Val::Hash(z)) => {
            lemma_pairs_equiv_iff(x, y);
            lemma_pairs_equiv_iff(y, z);
            assert forall|i: int| 0 <= i < x.len() implies (#[trigger] x[i]).0 == z[i].0
                && spec_equiv(x[i].1, z[i].1) by {
                lemma_equiv_transitive(x[i].1, y[i].1, z[i].1);
            }
            lemma_pairs_equiv_iff(x, z);
        },
        (Val::Packed(x), Val::Packed(y), Val::Hash(z)) => {
            lemma_items_equiv_iff(x, y);
        },
        (Val::Hash(x), Val::Hash(y), Val::Packed(z)) => {
            lemma_pairs_equiv_iff(x, y);
        },
        (Val::Packed(x), Val::Hash(y), Val::Hash(z)) => {
            lemma_pairs_equiv_iff(y, z);
        },
        (Val::Hash(x), Val::Packed(y), Val::Packed(z)) => {
            lemma_items_equiv_iff(y, z);
        },
        _ => {},
    }
}

/// A value that is no array is codec-equal only to itself: the same kind of scalar with the
/// same boolean, integer, float bit pattern or string bytes.
pub proof fn lemma_equiv_scalar_exact(a: Val, b: Val)
    requires
        spec_equiv(a, b),
        !(a is Packed || a is Hash),
    ensures
        a == b,
{
}

/// Two strings are codec-equal exactly when their bytes are equal.
pub proof fn lemma_equiv_str(x: Seq<u8>, y: Seq<u8>)
    ensures
        spec_equiv(Val::Str(x), Val::Str(y)) <==> x == y,
{
}

/// A depth limit of 0 stands for the default limit of 100 levels, whatever the document and
/// the other options.
pub proof fn lemma_decode_depth_zero_is_default(data: Seq<u8>, max_size: usize, strict_trailing: bool)
    ensures
        spec_decode(data, 0, max_size, strict_trailing) == spec_decode(data, 100, max_size, strict_trailing),
        spec_decode_strings(data, 0, max_size) == spec_decode_strings(data, 100, max_size),
        spec_effective_max_depth(0) == 100,
{
}

/// A size limit of 0 stands for the default limit of 10 MiB, whatever the document and the
/// other options.
pub proof fn lemma_decode_size_zero_is_default(data: Seq<u8>, max_depth: u32, strict_trailing: bool)
    ensures
        spec_decode(data, max_depth, 0, strict_trailing) == spec_decode(
            data,
            max_depth,
            10485760,
            strict_trailing,
        ),
        spec_decode_strings(data, max_depth, 0) == spec_decode_strings(data, max_depth, 10485760),
        spec_effective_max_size(0) == 10485760,
{
}

} // verus!
