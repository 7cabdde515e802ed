//! A canonical form of values for comparing them: every array becomes a hash array sorted
//! by key, packed arrays keyed by their indexes.

use vstd::prelude::*;
use crate::value::{
    KeyV, Key, Val, Value, clone_key, copy_bytes, key_eq, lemma_view_items, lemma_view_items_push,
    lemma_view_pairs, lemma_view_pairs_push, spec_equiv, spec_items_equiv, spec_pairs_equiv,
    view_items, view_pairs,
};

use crate::laws::{lemma_equiv_refl, lemma_equiv_scalar_exact};

verus! {

/// Lexicographic order of byte strings; a proper prefix comes first.
pub open spec fn spec_bytes_lt(a: Seq<u8>, b: Seq<u8>) -> bool
    decreases a.len(),
{
    if a.len() == 0 {
        b.len() > 0
    } else if b.len() == 0 {
        false
    } else if a[0] != b[0] {
        a[0] < b[0]
    } else {
        spec_bytes_lt(a.drop_first(), b.drop_first())
    }
}

/// The order of keys: integer keys first, by value, then string keys, by their bytes.
pub open spec fn spec_key_lt(a: KeyV, b: KeyV) -> bool {
    match (a, b) {
        (KeyV::Int(x), KeyV::Int(y)) => x < y,
        (KeyV::Int(_), KeyV::Str(_)) => true,
        (KeyV::Str(_), KeyV::Int(_)) => false,
        (KeyV::Str(x), KeyV::Str(y)) => spec_bytes_lt(x, y),
    }
}

/// No byte string comes before itself.
pub proof fn lemma_bytes_lt_irreflexive(a: Seq<u8>)
    ensures
        !spec_bytes_lt(a, a),
    decreases a.len(),
{
    if a.len() > 0 {
        lemma_bytes_lt_irreflexive(a.drop_first());
    }
}

/// The order of byte strings is transitive.
pub proof fn lemma_bytes_lt_transitive(a: Seq<u8>, b: Seq<u8>, c: Seq<u8>)
    requires
        spec_bytes_lt(a, b),
        spec_bytes_lt(b, c),
    ensures
        spec_bytes_lt(a, c),
    decreases a.len(),
{
    if a.len() > 0 && b.len() > 0 && c.len() > 0 && a[0] == b[0] && b[0] == c[0] {
        lemma_bytes_lt_transitive(a.drop_first(), b.drop_first(), c.drop_first());
    }
}

/// Of two different byte strings, one comes first.
pub proof fn lemma_bytes_lt_total(a: Seq<u8>, b: Seq<u8>)
    requires
        a != b,
    ensures
        spec_bytes_lt(a, b) || spec_bytes_lt(b, a),
    decreases a.len(),
{
    if a.len() == 0 {
        if b.len() == 0 {
            assert(a =~= b);
        }
    } else if b.len() > 0 && a[0] == b[0] {
        if a.drop_first() == b.drop_first() {
            assert(a =~= seq![a[0]] + a.drop_first());
            assert(b =~= seq![b[0]] + b.drop_first());
        }
        lemma_bytes_lt_total(a.drop_first(), b.drop_first());
    }
}

/// The order of keys is a strict total order.
pub proof fn lemma_key_order(a: KeyV, b: KeyV, c: KeyV)
    ensures
        !spec_key_lt(a, a),
        spec_key_lt(a, b) && spec_key_lt(b, c) ==> spec_key_lt(a, c),
        a != b ==> spec_key_lt(a, b) || spec_key_lt(b, a),
{
    match (a, b, c) {
        (KeyV::Str(x), KeyV::Str(y), KeyV::Str(z)) => {
            lemma_bytes_lt_irreflexive(x);
            if spec_bytes_lt(x, y) && spec_bytes_lt(y, z) {
                lemma_bytes_lt_transitive(x, y, z);
            }
            if x != y {
                lemma_bytes_lt_total(x, y);
            }
        },
        (KeyV::Str(x), KeyV::Str(y), _) => {
            lemma_bytes_lt_irreflexive(x);
            if x != y {
                lemma_bytes_lt_total(x, y);
            }
        },
        (KeyV::Str(x), _, _) => {
            lemma_bytes_lt_irreflexive(x);
        },
        _ => {},
    }
}

/// Whether `a` comes before `b` in byte order.
pub fn bytes_lt(a: &[u8], b: &[u8]) -> (r: bool)
    ensures
        r == spec_bytes_lt(a@, b@),
{
    let mut i: usize = 0;
    assert(a@.skip(0) =~= a@ && b@.skip(0) =~= b@);
    while i < a.len() && i < b.len() && a[i] == b[i]
        invariant
            i <= a.len(),
            i <= b.len(),
            spec_bytes_lt(a@, b@) == spec_bytes_lt(a@.skip(i as int), b@.skip(i as int)),
        decreases a.len() - i,
    {
        assert(a@.skip(i as int).drop_first() =~= a@.skip(i + 1));
        assert(b@.skip(i as int).drop_first() =~= b@.skip(i + 1));
        i = i + 1;
    }
    if i < a.len() && i < b.len() {
        a[i] < b[i]
    } else {
        i == a.len() && i < b.len()
    }
}

/// Whether key `a` comes before key `b`.
pub fn key_lt(a: &Key, b: &Key) -> (r: bool)
    ensures
        r == spec_key_lt(a@, b@),
{
    match (a, b) {
        (Key::Int(x), Key::Int(y)) => *x < *y,
        (Key::Int(_), Key::String(_)) => true,
        (Key::String(_), Key::Int(_)) => false,
        (Key::String(x), Key::String(y)) => bytes_lt(x.as_slice(), y.as_slice()),
    }
}

/// Insert `(k, v)` into pairs sorted by key: it goes after every smaller key, and takes the
/// place of the pair with key `k` if there is one.
pub open spec fn spec_map_insert(ms: Seq<(KeyV, Val)>, k: KeyV, v: Val) -> Seq<(KeyV, Val)>
    decreases ms.len(),
{
    if ms.len() == 0 {
        seq![(k, v)]
    } else if spec_key_lt(ms[0].0, k) {
        seq![ms[0]] + spec_map_insert(ms.drop_first(), k, v)
    } else if ms[0].0 == k {
        seq![(k, v)] + ms.drop_first()
    } else {
        seq![(k, v)] + ms
    }
}

/// The canonical form of a value.
pub open spec fn spec_normalize(v: Val) -> Val
    decreases v, 1nat,
{
    match v {
        Val::Packed(items) => Val::Hash(spec_index_pairs(items)),
        Val::Hash(pairs) => Val::Hash(spec_normalize_pairs(pairs)),
        _ => v,
    }
}

/// The elements of a packed array keyed by their indexes, in canonical form.
pub open spec fn spec_index_pairs(items: Seq<Val>) -> Seq<(KeyV, Val)>
    decreases items, 0nat,
{
    if items.len() == 0 {
        Seq::empty()
    } else {
        spec_index_pairs(items.drop_last()).push(
            (KeyV::Int((items.len() - 1) as i64), spec_normalize(items.last())),
        )
    }
}

/// The pairs of a hash array inserted one by one, values in canonical form.
pub open spec fn spec_normalize_pairs(pairs: Seq<(KeyV, Val)>) -> Seq<(KeyV, Val)>
    decreases pairs, 0nat,
{
    if pairs.len() == 0 {
        Seq::empty()
    } else {
        spec_map_insert(
            spec_normalize_pairs(pairs.drop_last()),
            pairs.last().0,
            spec_normalize(pairs.last().1),
        )
    }
}

proof fn lemma_map_insert_at(ms: Seq<(KeyV, Val)>, k: KeyV, v: Val, j: int)
    requires
        0 <= j <= ms.len(),
        forall|i: int| 0 <= i < j ==> spec_key_lt(#[trigger] ms[i].0, k),
        j < ms.len() ==> !spec_key_lt(ms[j].0, k),
    ensures
        spec_map_insert(ms, k, v) == if j < ms.len() && ms[j].0 == k {
            ms.take(j) + seq![(k, v)] + ms.skip(j + 1)
        } else {
            ms.take(j) + seq![(k, v)] + ms.skip(j)
        },
    decreases j,
{
    if j == 0 {
        assert(ms.take(0) + seq![(k, v)] + ms.skip(1) =~= seq![(k, v)] + ms.drop_first());
        assert(ms.take(0) + seq![(k, v)] + ms.skip(0) =~= seq![(k, v)] + ms);
    } else {
        let rest = ms.drop_first();
        assert(spec_key_lt(ms[0].0, k));
        assert forall|i: int| 0 <= i < j - 1 implies spec_key_lt(#[trigger] rest[i].0, k) by {
            assert(rest[i] == ms[i + 1]);
        }
        lemma_map_insert_at(rest, k, v, j - 1);
        if j < ms.len() && ms[j].0 == k {
            assert(seq![ms[0]] + (rest.take(j - 1) + seq![(k, v)] + rest.skip(j)) =~= ms.take(j)
                + seq![(k, v)] + ms.skip(j + 1));
        } else {
            assert(seq![ms[0]] + (rest.take(j - 1) + seq![(k, v)] + rest.skip(j - 1)) =~= ms.take(
                j,
            ) + seq![(k, v)] + ms.skip(j));
        }
    }
}

/// Insert `(k, v)` into `m`, whose pairs are sorted by key.
fn sorted_insert(m: &mut Vec<(Key, Value)>, k: Key, v: Value)
    ensures
        view_pairs(final(m)@) == spec_map_insert(view_pairs(old(m)@), k@, v@),
{
    let ghost ms = view_pairs(m@);
    proof {
        lemma_view_pairs(m@);
    }
    let mut j: usize = 0;
    while j < m.len() && key_lt(&m[j].0, &k)
        invariant
            j <= m.len(),
            ms == view_pairs(m@),
            ms.len() == m@.len(),
            forall|i: int| 0 <= i < m@.len() ==> #[trigger] ms[i] == (m@[i].0@, m@[i].1@),
            forall|i: int| 0 <= i < j ==> spec_key_lt(#[trigger] ms[i].0, k@),
        decreases m.len() - j,
    {
        j = j + 1;
    }
    proof {
        lemma_map_insert_at(ms, k@, v@, j as int);
    }
    let ghost kv = k@;
    let ghost vv = v@;
    if j < m.len() && key_eq(&m[j].0, &k) {
        m.set(j, (k, v));
        proof {
            lemma_view_pairs(m@);
            assert(view_pairs(m@) =~= ms.take(j as int) + seq![(kv, vv)] + ms.skip(j + 1));
        }
    } else {
        m.insert(j, (k, v));
        proof {
            lemma_view_pairs(m@);
            assert(view_pairs(m@) =~= ms.take(j as int) + seq![(kv, vv)] + ms.skip(j as int));
        }
    }
}

#[verifier::loop_isolation(false)]
fn normalize_value(v: &Value) -> (r: Value)
    ensures
        r@ == spec_normalize(v@),
    decreases v,
{
    match v {
        Value::ArrayPacked(items) => {
            let mut out: Vec<(Key, Value)> = Vec::with_capacity(items.len());
            let mut i: usize = 0;
            while i < items.len()
                invariant
                    i <= items.len(),
                    view_pairs(out@) == spec_index_pairs(view_items(items@.take(i as int))),
                decreases items.len() - i,
            {
                proof {
                    assert(decreases_to!(items => items[i as int]));
                }
                let n = normalize_value(&items[i]);
                proof {
                    lemma_view_pairs_push(out@, (Key::Int(i as i64), n));
                    assert(items@.take(i + 1) =~= items@.take(i as int).push(items@[i as int]));
                    lemma_view_items_push(items@.take(i as int), items@[i as int]);
                    lemma_view_items(items@.take(i as int));
                    let vs = view_items(items@.take(i + 1));
                    assert(vs.drop_last() =~= view_items(items@.take(i as int)));
                    assert(vs.len() == i + 1);
                    assert(vs.last() == items@[i as int]@);
                }
                out.push((Key::Int(i as i64), n));
                i = i + 1;
            }
            assert(items@ =~= items@.take(i as int));
            Value::ArrayHash(out)
        },
        Value::ArrayHash(pairs) => {
            let mut out: Vec<(Key, Value)> = Vec::new();
            let mut i: usize = 0;
            while i < pairs.len()
                invariant
                    i <= pairs.len(),
                    view_pairs(out@) == spec_normalize_pairs(view_pairs(pairs@.take(i as int))),
                decreases pairs.len() - i,
            {
                let k = clone_key(&pairs[i].0);
                proof {
                    assert(decreases_to!(pairs => pairs[i as int]));
                }
                let n = normalize_value(&pairs[i].1);
                proof {
                    assert(pairs@.take(i + 1) =~= pairs@.take(i as int).push(pairs@[i as int]));
                    lemma_view_pairs_push(pairs@.take(i as int), pairs@[i as int]);
                    lemma_view_pairs(pairs@.take(i as int));
                    let ps = view_pairs(pairs@.take(i + 1));
                    assert(ps.drop_last() =~= view_pairs(pairs@.take(i as int)));
                    assert(ps.last() == (pairs@[i as int].0@, pairs@[i as int].1@));
                }
                sorted_insert(&mut out, k, n);
                i = i + 1;
            }
            assert(pairs@ =~= pairs@.take(i as int));
            Value::ArrayHash(out)
        },
        Value::String(s) => Value::String(copy_bytes(s.as_slice())),
        Value::Null => Value::Null,
        Value::Bool(b) => Value::Bool(*b),
        Value::Int(i) => Value::Int(*i),
        Value::Float(f) => Value::Float(*f),
    }
}

/// The canonical form of `v` for comparisons: a packed array becomes a hash array keyed by
/// index, a hash array is sorted by key with the last pair for each key kept, recursively.
pub fn normalize_for_cmp(v: &Value) -> (r: Value)
    ensures
        r@ == spec_normalize(v@),
{
    normalize_value(v)
}

// ---------------------------------------------------------------------------------------
/// Keys strictly increase along `ms`.
pub open spec fn spec_keys_sorted(ms: Seq<(KeyV, Val)>) -> bool {
    forall|i: int, j: int| 0 <= i < j < ms.len() ==> spec_key_lt(#[trigger] ms[i].0, #[trigger] ms[j].0)
}

proof fn lemma_map_insert_bound(ms: Seq<(KeyV, Val)>, k: KeyV, v: Val, x: KeyV)
    requires
        spec_key_lt(x, k),
        forall|j: int| 0 <= j < ms.len() ==> spec_key_lt(x, #[trigger] ms[j].0),
    ensures
        forall|i: int|
            0 <= i < spec_map_insert(ms, k, v).len() ==> spec_key_lt(
                x,
                #[trigger] spec_map_insert(ms, k, v)[i].0,
            ),
    decreases ms.len(),
{
    if ms.len() > 0 && spec_key_lt(ms[0].0, k) {
        let rest = ms.drop_first();
        assert forall|j: int| 0 <= j < rest.len() implies spec_key_lt(x, #[trigger] rest[j].0) by {
            assert(rest[j] == ms[j + 1]);
        }
        lemma_map_insert_bound(rest, k, v, x);
        let r = spec_map_insert(ms, k, v);
        assert forall|i: int| 0 <= i < r.len() implies spec_key_lt(x, #[trigger] r[i].0) by {
            if i > 0 {
                assert(r[i] == spec_map_insert(rest, k, v)[i - 1]);
            }
        }
    } else if ms.len() > 0 && ms[0].0 == k {
        let r = spec_map_insert(ms, k, v);
        assert forall|i: int| 0 <= i < r.len() implies spec_key_lt(x, #[trigger] r[i].0) by {
            if i > 0 {
                assert(r[i] == ms[i]);
            }
        }
    } else if ms.len() > 0 {
        let r = spec_map_insert(ms, k, v);
        assert forall|i: int| 0 <= i < r.len() implies spec_key_lt(x, #[trigger] r[i].0) by {
            if i > 0 {
                assert(r[i] == ms[i - 1]);
            }
        }
    }
}

proof fn lemma_map_insert_sorted(ms: Seq<(KeyV, Val)>, k: KeyV, v: Val)
    requires
        spec_keys_sorted(ms),
    ensures
        spec_keys_sorted(spec_map_insert(ms, k, v)),
    decreases ms.len(),
{
    let r = spec_map_insert(ms, k, v);
    if ms.len() == 0 {
    } else if spec_key_lt(ms[0].0, k) {
        let rest = ms.drop_first();
        assert forall|i: int, j: int| 0 <= i < j < rest.len() implies spec_key_lt(
            #[trigger] rest[i].0,
            #[trigger] rest[j].0,
        ) by {
            assert(rest[i] == ms[i + 1] && rest[j] == ms[j + 1]);
        }
        assert forall|j: int| 0 <= j < rest.len() implies spec_key_lt(ms[0].0, #[trigger] rest[j].0) by {
            assert(rest[j] == ms[j + 1]);
        }
        lemma_map_insert_sorted(rest, k, v);
        lemma_map_insert_bound(rest, k, v, ms[0].0);
        let rr = spec_map_insert(rest, k, v);
        assert forall|i: int, j: int| 0 <= i < j < r.len() implies spec_key_lt(
            #[trigger] r[i].0,
            #[trigger] r[j].0,
        ) by {
            assert(r[j] == rr[j - 1]);
            if i > 0 {
                assert(r[i] == rr[i - 1]);
            }
        }
    } else if ms[0].0 == k {
        assert forall|i: int, j: int| 0 <= i < j < r.len() implies spec_key_lt(
            #[trigger] r[i].0,
            #[trigger] r[j].0,
        ) by {
            assert(r[j] == ms[j]);
            if i > 0 {
                assert(r[i] == ms[i]);
            }
        }
    } else {
        lemma_key_order(k, ms[0].0, k);
        assert forall|i: int, j: int| 0 <= i < j < r.len() implies spec_key_lt(
            #[trigger] r[i].0,
            #[trigger] r[j].0,
        ) by {
            assert(r[j] == ms[j - 1]);
            if i > 0 {
                assert(r[i] == ms[i - 1]);
            } else if j > 1 {
                lemma_key_order(k, ms[0].0, ms[j - 1].0);
            }
        }
    }
}

/// The canonical form of a hash array has its keys strictly increasing.
pub proof fn lemma_normalize_pairs_sorted(pairs: Seq<(KeyV, Val)>)
    ensures
        spec_keys_sorted(spec_normalize_pairs(pairs)),
    decreases pairs.len(),
{
    if pairs.len() > 0 {
        lemma_normalize_pairs_sorted(pairs.drop_last());
        lemma_map_insert_sorted(
            spec_normalize_pairs(pairs.drop_last()),
            pairs.last().0,
            spec_normalize(pairs.last().1),
        );
    }
}

/// Equal values have the same canonical form.
pub proof fn lemma_normalize_respects_equiv(a: Val, b: Val)
    requires
        spec_equiv(a, b),
    ensures
        spec_normalize(a) == spec_normalize(b),
    decreases a,
{
    match (a, b) {
        (Val::Packed(x), Val::Packed(y)) => {
            lemma_index_pairs_respect_equiv(x, y);
        },
        (Val::Hash(x), Val::Hash(y)) => {
            lemma_normalize_pairs_respect_equiv(x, y);
        },
        (Val::Packed(x), Val::Hash(y)) => {
            assert(spec_index_pairs(x) =~= Seq::<(KeyV, Val)>::empty());
            assert(spec_normalize_pairs(y) =~= Seq::<(KeyV, Val)>::empty());
        },
        (Val::Hash(x), Val::Packed(y)) => {
            assert(spec_index_pairs(y) =~= Seq::<(KeyV, Val)>::empty());
            assert(spec_normalize_pairs(x) =~= Seq::<(KeyV, Val)>::empty());
        },
        _ => {},
    }
}

proof fn lemma_index_pairs_respect_equiv(x: Seq<Val>, y: Seq<Val>)
    requires
        spec_items_equiv(x, y),
    ensures
        spec_index_pairs(x) == spec_index_pairs(y),
    decreases x,
{
    if x.len() > 0 {
        lemma_index_pairs_respect_equiv(x.drop_last(), y.drop_last());
        lemma_normalize_respects_equiv(x.last(), y.last());
    }
}

proof fn lemma_normalize_pairs_respect_equiv(x: Seq<(KeyV, Val)>, y: Seq<(KeyV, Val)>)
    requires
        spec_pairs_equiv(x, y),
    ensures
        spec_normalize_pairs(x) == spec_normalize_pairs(y),
    decreases x,
{
    if x.len() > 0 {
        lemma_normalize_pairs_respect_equiv(x.drop_last(), y.drop_last());
        lemma_normalize_respects_equiv(x.last().1, y.last().1);
    }
}

/// The hash array keyed `0, 1, …` holding the elements of `items`.
pub open spec fn spec_enumerate(items: Seq<Val>) -> Seq<(KeyV, Val)> {
    Seq::new(items.len(), |i: int| (KeyV::Int(i as i64), items[i]))
}

proof fn lemma_map_insert_append(ms: Seq<(KeyV, Val)>, k: KeyV, v: Val)
    requires
        forall|j: int| 0 <= j < ms.len() ==> spec_key_lt(#[trigger] ms[j].0, k),
    ensures
        spec_map_insert(ms, k, v) == ms.push((k, v)),
    decreases ms.len(),
{
    if ms.len() > 0 {
        let rest = ms.drop_first();
        assert forall|j: int| 0 <= j < rest.len() implies spec_key_lt(#[trigger] rest[j].0, k) by {
            assert(rest[j] == ms[j + 1]);
        }
        lemma_map_insert_append(rest, k, v);
        assert(seq![ms[0]] + rest.push((k, v)) =~= ms.push((k, v)));
    } else {
        assert(seq![(k, v)] =~= ms.push((k, v)));
    }
}

proof fn lemma_index_pairs_keys(items: Seq<Val>)
    ensures
        spec_index_pairs(items).len() == items.len(),
        forall|i: int|
            0 <= i < items.len() ==> (#[trigger] spec_index_pairs(items)[i]).0 == KeyV::Int(
                i as i64,
            ),
    decreases items.len(),
{
    if items.len() > 0 {
        lemma_index_pairs_keys(items.drop_last());
    }
}

/// A packed array and the hash array keyed `0, 1, …` with the same elements have the same
/// canonical form.
pub proof fn lemma_normalize_packed_as_hash(items: Seq<Val>)
    requires
        items.len() <= i64::MAX + 1,
    ensures
        spec_normalize(Val::Packed(items)) == spec_normalize(Val::Hash(spec_enumerate(items))),
    decreases items.len(),
{
    if items.len() == 0 {
        assert(spec_enumerate(items) =~= Seq::<(KeyV, Val)>::empty());
    } else {
        let dl = items.drop_last();
        let n = items.len() - 1;
        lemma_normalize_packed_as_hash(dl);
        assert(spec_enumerate(items).drop_last() =~= spec_enumerate(dl));
        lemma_index_pairs_keys(dl);
        let ms = spec_index_pairs(dl);
        assert forall|j: int| 0 <= j < ms.len() implies spec_key_lt(
            #[trigger] ms[j].0,
            KeyV::Int(n as i64),
        ) by {
            assert(ms[j].0 == KeyV::Int(j as i64));
        }
        lemma_map_insert_append(ms, KeyV::Int(n as i64), spec_normalize(items.last()));
    }
}

/// The canonical form keeps every value that is no array exactly as it is.
pub proof fn lemma_normalize_scalar(v: Val)
    requires
        !(v is Packed || v is Hash),
    ensures
        spec_normalize(v) == v,
{
}

/// Two values that are no arrays have the same canonical form exactly when they are
/// codec-equal, and then they are the same value.
pub proof fn lemma_normalize_scalar_iff(a: Val, b: Val)
    requires
        !(a is Packed || a is Hash),
        !(b is Packed || b is Hash),
    ensures
        spec_normalize(a) == spec_normalize(b) <==> spec_equiv(a, b),
        spec_normalize(a) == spec_normalize(b) <==> a == b,
{
    lemma_normalize_scalar(a);
    lemma_normalize_scalar(b);
    if spec_equiv(a, b) {
        lemma_equiv_scalar_exact(a, b);
    }
    if a == b {
        lemma_equiv_refl(a);
    }
}

proof fn lemma_map_insert_contains(ms: Seq<(KeyV, Val)>, k: KeyV, v: Val, k2: KeyV, w: Val)
    requires
        spec_keys_sorted(ms),
    ensures
        spec_map_insert(ms, k, v).contains((k2, w)) <==> ((k2 == k && w == v) || (k2 != k
            && ms.contains((k2, w)))),
    decreases ms.len(),
{
    let r = spec_map_insert(ms, k, v);
    if ms.len() == 0 {
        if r.contains((k2, w)) {
            let i = choose|i: int| 0 <= i < r.len() && r[i] == (k2, w);
            assert(i == 0);
        }
        if k2 == k && w == v {
            assert(r[0] == (k2, w));
        }
    } else if spec_key_lt(ms[0].0, k) {
        let rest = ms.drop_first();
        assert forall|i: int, j: int| 0 <= i < j < rest.len() implies spec_key_lt(
            #[trigger] rest[i].0,
            #[trigger] rest[j].0,
        ) by {
            assert(rest[i] == ms[i + 1] && rest[j] == ms[j + 1]);
        }
        lemma_map_insert_contains(rest, k, v, k2, w);
        let rr = spec_map_insert(rest, k, v);
        lemma_key_order(k, k, k);
        if r.contains((k2, w)) {
            let i = choose|i: int| 0 <= i < r.len() && r[i] == (k2, w);
            if i == 0 {
                assert(ms[0] == (k2, w));
                assert(k2 != k);
            } else {
                assert(rr[i - 1] == (k2, w));
                if !(k2 == k && w == v) {
                    let i2 = choose|i2: int| 0 <= i2 < rest.len() && rest[i2] == (k2, w);
                    assert(ms[i2 + 1] == (k2, w));
                }
            }
        }
        if k2 == k && w == v {
            let i = choose|i: int| 0 <= i < rr.len() && rr[i] == (k2, w);
            assert(r[i + 1] == (k2, w));
        }
        if k2 != k && ms.contains((k2, w)) {
            let i = choose|i: int| 0 <= i < ms.len() && ms[i] == (k2, w);
            if i == 0 {
                assert(r[0] == (k2, w));
            } else {
                assert(rest[i - 1] == (k2, w));
                let i3 = choose|i3: int| 0 <= i3 < rr.len() && rr[i3] == (k2, w);
                assert(r[i3 + 1] == (k2, w));
            }
        }
    } else if ms[0].0 == k {
        assert forall|j: int| 0 < j < ms.len() implies (#[trigger] ms[j]).0 != k by {
            assert(spec_key_lt(ms[0].0, ms[j].0));
            lemma_key_order(k, k, k);
        }
        if r.contains((k2, w)) {
            let i = choose|i: int| 0 <= i < r.len() && r[i] == (k2, w);
            if i > 0 {
                assert(r[i] == ms[i]);
            }
        }
        if k2 == k && w == v {
            assert(r[0] == (k2, w));
        }
        if k2 != k && ms.contains((k2, w)) {
            let i = choose|i: int| 0 <= i < ms.len() && ms[i] == (k2, w);
            assert(i != 0);
            assert(r[i] == ms[i]);
        }
    } else {
        lemma_key_order(k, ms[0].0, k);
        assert forall|j: int| 0 <= j < ms.len() implies (#[trigger] ms[j]).0 != k by {
            if j > 0 {
                assert(spec_key_lt(ms[0].0, ms[j].0));
                lemma_key_order(k, ms[0].0, ms[j].0);
                lemma_key_order(k, k, k);
            }
        }
        if r.contains((k2, w)) {
            let i = choose|i: int| 0 <= i < r.len() && r[i] == (k2, w);
            if i > 0 {
                assert(r[i] == ms[i - 1]);
            }
        }
        if k2 == k && w == v {
            assert(r[0] == (k2, w));
        }
        if k2 != k && ms.contains((k2, w)) {
            let i = choose|i: int| 0 <= i < ms.len() && ms[i] == (k2, w);
            assert(r[i + 1] == ms[i]);
        }
    }
}

/// Pair `i` is the last pair of `pairs` with key `k`.
pub open spec fn spec_last_with_key(pairs: Seq<(KeyV, Val)>, k: KeyV, i: int) -> bool {
    &&& 0 <= i < pairs.len()
    &&& pairs[i].0 == k
    &&& forall|j: int| i < j < pairs.len() ==> (#[trigger] pairs[j]).0 != k
}

/// The canonical form of a hash array is a hash array with strictly increasing keys that
/// holds, for each key of the array, that key with the canonical form of the value of the last
/// pair with that key, and nothing else.
pub proof fn lemma_normalize_hash_entries(pairs: Seq<(KeyV, Val)>, k: KeyV, w: Val)
    ensures
        spec_normalize(Val::Hash(pairs)) matches Val::Hash(ms) && spec_keys_sorted(ms) && (ms.contains(
            (k, w),
        ) <==> exists|i: int| #[trigger] spec_last_with_key(pairs, k, i) && w == spec_normalize(pairs[i].1)),
    decreases pairs.len(),
{
    lemma_normalize_pairs_sorted(pairs);
    if pairs.len() == 0 {
        let ms = spec_normalize_pairs(pairs);
        assert(ms.len() == 0);
        assert(!ms.contains((k, w)));
    } else {
        let p = pairs.drop_last();
        let n = pairs.len() - 1;
        let (lk, lv) = pairs.last();
        lemma_normalize_hash_entries(p, k, w);
        lemma_normalize_pairs_sorted(p);
        lemma_map_insert_contains(spec_normalize_pairs(p), lk, spec_normalize(lv), k, w);
        let rhs = exists|i: int| #[trigger] spec_last_with_key(pairs, k, i) && w == spec_normalize(pairs[i].1);
        if k == lk {
            assert(spec_last_with_key(pairs, k, n));
            if rhs {
                let i = choose|i: int| #[trigger] spec_last_with_key(pairs, k, i) && w == spec_normalize(pairs[i].1);
                assert(i == n);
            }
        } else {
            if rhs {
                let i = choose|i: int| #[trigger] spec_last_with_key(pairs, k, i) && w == spec_normalize(pairs[i].1);
                assert(i < n);
                assert(p[i] == pairs[i]);
                assert forall|j: int| i < j < p.len() implies (#[trigger] p[j]).0 != k by {
                    assert(p[j] == pairs[j]);
                }
                assert(spec_last_with_key(p, k, i));
            }
            if exists|i: int| #[trigger] spec_last_with_key(p, k, i) && w == spec_normalize(p[i].1) {
                let i = choose|i: int| #[trigger] spec_last_with_key(p, k, i) && w == spec_normalize(p[i].1);
                assert(p[i] == pairs[i]);
                assert forall|j: int| i < j < pairs.len() implies (#[trigger] pairs[j]).0 != k by {
                    if j < n {
                        assert(p[j] == pairs[j]);
                    }
                }
                assert(spec_last_with_key(pairs, k, i));
            }
        }
    }
}

/// The canonical form of a packed array is the hash array that holds, in order, each element's
/// index with the canonical form of the element.
pub proof fn lemma_normalize_packed_entries(items: Seq<Val>)
    ensures
        spec_normalize(Val::Packed(items)) matches Val::Hash(ms) && ms.len() == items.len()
            && forall|i: int| 0 <= i < items.len() ==> #[trigger] ms[i] == (KeyV::Int(i as i64), spec_normalize(items[i])),
    decreases items.len(),
{
    if items.len() > 0 {
        let dl = items.drop_last();
        lemma_normalize_packed_entries(dl);
        let ms = spec_index_pairs(items);
        assert forall|i: int| 0 <= i < items.len() implies #[trigger] ms[i] == (KeyV::Int(i as i64), spec_normalize(items[i])) by {
            if i < dl.len() {
                assert(ms[i] == spec_index_pairs(dl)[i]);
                assert(dl[i] == items[i]);
            }
        }
    }
}

} // verus!
