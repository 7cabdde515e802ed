//! In-memory value tree: input of the encoder and output of the test host.

use vstd::prelude::*;
use vstd::string::StringSliceAdditionalSpecFns;

verus! {

/// An array key.
#[derive(Debug, Clone, PartialEq, Eq, PartialOrd, Ord, Hash)]
pub enum Key {
    Int(i64),
    String(Vec<u8>),
}

/// A value: what a PHP `null`, `bool`, `int`, `float`, `string` or `array` holds.
/// A float is held as its IEEE-754 bit pattern.
#[derive(Debug)]
pub enum Value {
    Null,
    Bool(bool),
    Int(i64),
    Float(u64),
    String(Vec<u8>),
    /// Packed array (keys 0..n-1).
    ArrayPacked(Vec<Value>),
    /// Associative / mixed array.
    ArrayHash(Vec<(Key, Value)>),
}

/// Mathematical model of a key.
pub enum KeyV {
    Int(i64),
    Str(Seq<u8>),
}

/// Mathematical model of a value.
pub enum Val {
    Null,
    Bool(bool),
    Int(i64),
    Float(u64),
    Str(Seq<u8>),
    Packed(Seq<Val>),
    Hash(Seq<(KeyV, Val)>),
}

impl View for Key {
    type V = KeyV;

    open spec fn view(&self) -> KeyV {
        match self {
            Key::Int(i) => KeyV::Int(*i),
            Key::String(s) => KeyV::Str(s@),
        }
    }
}

pub open spec fn view_items(s: Seq<Value>) -> Seq<Val>
    decreases s,
{
    if s.len() == 0 {
        Seq::empty()
    } else {
        view_items(s.drop_last()).push(view_value(s.last()))
    }
}

pub open spec fn view_pairs(s: Seq<(Key, Value)>) -> Seq<(KeyV, Val)>
    decreases s,
{
    if s.len() == 0 {
        Seq::empty()
    } else {
        view_pairs(s.drop_last()).push((s.last().0@, view_value(s.last().1)))
    }
}

pub open spec fn view_value(v: Value) -> Val
    decreases v,
{
    match v {
        Value::Null => Val::Null,
        Value::Bool(b) => Val::Bool(b),
        Value::Int(i) => Val::Int(i),
        Value::Float(f) => Val::Float(f),
        Value::String(s) => Val::Str(s@),
        Value::ArrayPacked(items) => Val::Packed(view_items(items@)),
        Value::ArrayHash(pairs) => Val::Hash(view_pairs(pairs@)),
    }
}

impl View for Value {
    type V = Val;

    open spec fn view(&self) -> Val {
        view_value(*self)
    }
}

/// The key models of a sequence of keys.
pub open spec fn keys_view(ks: Seq<Key>) -> Seq<KeyV> {
    Seq::new(ks.len(), |i: int| ks[i]@)
}

/// Equality of values as the codec sees it: structural, floats by bit pattern, and an
/// empty packed array equal to an empty hash array.
pub open spec fn spec_equiv(a: Val, b: Val) -> bool
    decreases a,
{
    match (a, b) {
        (Val::Null, Val::Null) => true,
        (Val::Bool(x), Val::Bool(y)) => x == y,
        (Val::Int(x), Val::Int(y)) => x == y,
        (Val::Float(x), Val::Float(y)) => x == y,
        (Val::Str(x), Val::Str(y)) => x == y,
        (Val::Packed(x), Val::Packed(y)) => spec_items_equiv(x, y),
        (Val::Hash(x), Val::Hash(y)) => spec_pairs_equiv(x, y),
        (Val::Packed(x), Val::Hash(y)) => x.len() == 0 && y.len() == 0,
        (Val::Hash(x), Val::Packed(y)) => x.len() == 0 && y.len() == 0,
        _ => false,
    }
}

/// Element-wise [`spec_equiv`] of two sequences of values.
pub open spec fn spec_items_equiv(x: Seq<Val>, y: Seq<Val>) -> bool
    decreases x,
{
    if x.len() != y.len() {
        false
    } else if x.len() == 0 {
        true
    } else {
        spec_items_equiv(x.drop_last(), y.drop_last()) && spec_equiv(x.last(), y.last())
    }
}

/// Pair-wise equality of keys and [`spec_equiv`] of values.
pub open spec fn spec_pairs_equiv(x: Seq<(KeyV, Val)>, y: Seq<(KeyV, Val)>) -> bool
    decreases x,
{
    if x.len() != y.len() {
        false
    } else if x.len() == 0 {
        true
    } else {
        spec_pairs_equiv(x.drop_last(), y.drop_last()) && x.last().0 == y.last().0
            && spec_equiv(x.last().1, y.last().1)
    }
}

/// Byte-wise equality of two slices.
pub fn bytes_eq(a: &[u8], b: &[u8]) -> (r: bool)
    ensures
        r == (a@ == b@),
{
    if a.len() != b.len() {
        return false;
    }
    let mut i: usize = 0;
    while i < a.len()
        invariant
            a.len() == b.len(),
            i <= a.len(),
            a@.take(i as int) == b@.take(i as int),
        decreases a.len() - i,
    {
        if a[i] != b[i] {
            assert(a@[i as int] != b@[i as int]);
            return false;
        }
        assert(a@.take(i + 1) =~= a@.take(i as int).push(a@[i as int]));
        assert(b@.take(i + 1) =~= b@.take(i as int).push(b@[i as int]));
        i = i + 1;
    }
    assert(a@ =~= a@.take(i as int));
    assert(b@ =~= b@.take(i as int));
    true
}

/// Equality of keys.
pub fn key_eq(a: &Key, b: &Key) -> (r: bool)
    ensures
        r == (a@ == b@),
{
    match (a, b) {
        (Key::Int(x), Key::Int(y)) => *x == *y,
        (Key::String(x), Key::String(y)) => bytes_eq(x.as_slice(), y.as_slice()),
        _ => false,
    }
}

/// A copy of a byte vector.
pub fn copy_bytes(b: &[u8]) -> (r: Vec<u8>)
    ensures
        r@ == b@,
{
    let mut r: Vec<u8> = Vec::with_capacity(b.len());
    let mut i: usize = 0;
    while i < b.len()
        invariant
            i <= b.len(),
            r@ == b@.take(i as int),
        decreases b.len() - i,
    {
        r.push(b[i]);
        assert(b@.take(i + 1) =~= b@.take(i as int).push(b@[i as int]));
        i = i + 1;
    }
    assert(b@ =~= b@.take(i as int));
    r
}

/// A copy of a key.
pub fn clone_key(k: &Key) -> (r: Key)
    ensures
        r@ == k@,
{
    match k {
        Key::Int(i) => Key::Int(*i),
        Key::String(s) => Key::String(copy_bytes(s.as_slice())),
    }
}

/// `view_items` maps each element by its view.
pub proof fn lemma_view_items(s: Seq<Value>)
    ensures
        view_items(s).len() == s.len(),
        forall|i: int| 0 <= i < s.len() ==> #[trigger] view_items(s)[i] == s[i]@,
    decreases s.len(),
{
    if s.len() > 0 {
        lemma_view_items(s.drop_last());
    }
}

/// `view_pairs` maps each pair by the views of its key and value.
pub proof fn lemma_view_pairs(s: Seq<(Key, Value)>)
    ensures
        view_pairs(s).len() == s.len(),
        forall|i: int|
            0 <= i < s.len() ==> #[trigger] view_pairs(s)[i] == (s[i].0@, s[i].1@),
    decreases s.len(),
{
    if s.len() > 0 {
        lemma_view_pairs(s.drop_last());
    }
}

pub proof fn lemma_view_items_push(s: Seq<Value>, x: Value)
    ensures
        view_items(s.push(x)) == view_items(s).push(x@),
{
    assert(s.push(x).drop_last() =~= s);
}

pub proof fn lemma_view_pairs_push(s: Seq<(Key, Value)>, x: (Key, Value))
    ensures
        view_pairs(s.push(x)) == view_pairs(s).push((x.0@, x.1@)),
{
    assert(s.push(x).drop_last() =~= s);
}

/// A deep copy of a value.
#[verifier::loop_isolation(false)]
pub fn clone_value(v: &Value) -> (r: Value)
    ensures
        r@ == v@,
    decreases v,
{
    match v {
        Value::Null => Value::Null,
        Value::Bool(b) => Value::Bool(*b),
        Value::Int(i) => Value::Int(*i),
        Value::Float(f) => Value::Float(*f),
        Value::String(s) => Value::String(copy_bytes(s.as_slice())),
        Value::ArrayPacked(items) => {
            let mut out: Vec<Value> = Vec::with_capacity(items.len());
            let mut i: usize = 0;
            while i < items.len()
                invariant
                    i <= items.len(),
                    view_items(out@) == view_items(items@.take(i as int)),
                decreases items.len() - i,
            {
                proof {
                    assert(decreases_to!(items => items[i as int]));
                }
                let c = clone_value(&items[i]);
                proof {
                    lemma_view_items_push(out@, c);
                    lemma_view_items_push(items@.take(i as int), items@[i as int]);
                    assert(items@.take(i + 1) =~= items@.take(i as int).push(items@[i as int]));
                }
                out.push(c);
                i = i + 1;
            }
            assert(items@ =~= items@.take(i as int));
            Value::ArrayPacked(out)
        },
        Value::ArrayHash(pairs) => {
            let mut out: Vec<(Key, Value)> = Vec::with_capacity(pairs.len());
            let mut i: usize = 0;
            while i < pairs.len()
                invariant
                    i <= pairs.len(),
                    view_pairs(out@) == view_pairs(pairs@.take(i as int)),
                decreases pairs.len() - i,
            {
                let k = clone_key(&pairs[i].0);
                proof {
                    assert(decreases_to!(pairs => pairs[i as int]));
                }
                let c = clone_value(&pairs[i].1);
                proof {
                    lemma_view_pairs_push(out@, (k, c));
                    lemma_view_pairs_push(pairs@.take(i as int), pairs@[i as int]);
                    assert(pairs@.take(i + 1) =~= pairs@.take(i as int).push(pairs@[i as int]));
                }
                out.push((k, c));
                i = i + 1;
            }
            assert(pairs@ =~= pairs@.take(i as int));
            Value::ArrayHash(out)
        },
    }
}

/// Codec equality of two values (see [`spec_equiv`]).
#[verifier::loop_isolation(false)]
pub fn value_equiv(a: &Value, b: &Value) -> (r: bool)
    ensures
        r == spec_equiv(a@, b@),
    decreases a,
{
    match (a, b) {
        (Value::Null, Value::Null) => true,
        (Value::Bool(x), Value::Bool(y)) => *x == *y,
        (Value::Int(x), Value::Int(y)) => *x == *y,
        (Value::Float(x), Value::Float(y)) => *x == *y,
        (Value::String(x), Value::String(y)) => bytes_eq(x.as_slice(), y.as_slice()),
        (Value::ArrayPacked(x), Value::ArrayPacked(y)) => {
            proof {
                lemma_view_items(x@);
                lemma_view_items(y@);
            }
            if x.len() != y.len() {
                return false;
            }
            let mut i: usize = 0;
            while i < x.len()
                invariant
                    i <= x.len(),
                    x.len() == y.len(),
                    spec_items_equiv(view_items(x@.take(i as int)), view_items(y@.take(i as int))),
                decreases x.len() - i,
            {
                proof {
                    assert(decreases_to!(x => x[i as int]));
                }
                let e = value_equiv(&x[i], &y[i]);
                proof {
                    assert(x@.take(i + 1) =~= x@.take(i as int).push(x@[i as int]));
                    assert(y@.take(i + 1) =~= y@.take(i as int).push(y@[i as int]));
                    lemma_view_items_push(x@.take(i as int), x@[i as int]);
                    lemma_view_items_push(y@.take(i as int), y@[i as int]);
                    let xs = view_items(x@.take(i + 1));
                    let ys = view_items(y@.take(i + 1));
                    lemma_view_items(x@.take(i + 1));
                    lemma_view_items(y@.take(i + 1));
                    assert(xs.drop_last() =~= view_items(x@.take(i as int)));
                    assert(ys.drop_last() =~= view_items(y@.take(i as int)));
                }
                if !e {
                    proof {
                        if spec_items_equiv(view_items(x@), view_items(y@)) {
                            lemma_items_equiv_prefix(view_items(x@), view_items(y@), i + 1);
                            lemma_view_items(x@.take(i + 1));
                            lemma_view_items(y@.take(i + 1));
                            assert(view_items(x@).take(i + 1) =~= view_items(x@.take(i + 1)));
                            assert(view_items(y@).take(i + 1) =~= view_items(y@.take(i + 1)));
                        }
                    }
                    return false;
                }
                i = i + 1;
            }
            assert(x@ =~= x@.take(i as int));
            assert(y@ =~= y@.take(i as int));
            true
        },
        (Value::ArrayHash(x), Value::ArrayHash(y)) => {
            proof {
                lemma_view_pairs(x@);
                lemma_view_pairs(y@);
            }
            if x.len() != y.len() {
                return false;
            }
            let mut i: usize = 0;
            while i < x.len()
                invariant
                    i <= x.len(),
                    x.len() == y.len(),
                    spec_pairs_equiv(view_pairs(x@.take(i as int)), view_pairs(y@.take(i as int))),
                decreases x.len() - i,
            {
                proof {
                    assert(decreases_to!(x => x[i as int]));
                }
                let e = key_eq(&x[i].0, &y[i].0) && value_equiv(&x[i].1, &y[i].1);
                proof {
                    assert(x@.take(i + 1) =~= x@.take(i as int).push(x@[i as int]));
                    assert(y@.take(i + 1) =~= y@.take(i as int).push(y@[i as int]));
                    lemma_view_pairs_push(x@.take(i as int), x@[i as int]);
                    lemma_view_pairs_push(y@.take(i as int), y@[i as int]);
                    let xs = view_pairs(x@.take(i + 1));
                    let ys = view_pairs(y@.take(i + 1));
                    lemma_view_pairs(x@.take(i + 1));
                    lemma_view_pairs(y@.take(i + 1));
                    assert(xs.drop_last() =~= view_pairs(x@.take(i as int)));
                    assert(ys.drop_last() =~= view_pairs(y@.take(i as int)));
                }
                if !e {
                    proof {
                        if spec_pairs_equiv(view_pairs(x@), view_pairs(y@)) {
                            lemma_pairs_equiv_prefix(view_pairs(x@), view_pairs(y@), i + 1);
                            lemma_view_pairs(x@.take(i + 1));
                            lemma_view_pairs(y@.take(i + 1));
                            assert(view_pairs(x@).take(i + 1) =~= view_pairs(x@.take(i + 1)));
                            assert(view_pairs(y@).take(i + 1) =~= view_pairs(y@.take(i + 1)));
                        }
                    }
                    return false;
                }
                i = i + 1;
            }
            assert(x@ =~= x@.take(i as int));
            assert(y@ =~= y@.take(i as int));
            true
        },
        (Value::ArrayPacked(x), Value::ArrayHash(y)) => x.len() == 0 && y.len() == 0,
        (Value::ArrayHash(x), Value::ArrayPacked(y)) => x.len() == 0 && y.len() == 0,
        _ => false,
    }
}

/// Equivalent sequences have equivalent prefixes.
pub proof fn lemma_items_equiv_prefix(x: Seq<Val>, y: Seq<Val>, n: int)
    requires
        spec_items_equiv(x, y),
        0 <= n <= x.len(),
    ensures
        spec_items_equiv(x.take(n), y.take(n)),
    decreases x.len(),
{
    if n < x.len() {
        lemma_items_equiv_prefix(x.drop_last(), y.drop_last(), n);
        assert(x.drop_last().take(n) =~= x.take(n));
        assert(y.drop_last().take(n) =~= y.take(n));
    } else {
        assert(x.take(n) =~= x);
        assert(y.take(n) =~= y);
    }
}

/// Equivalent pair sequences have equivalent prefixes.
pub proof fn lemma_pairs_equiv_prefix(x: Seq<(KeyV, Val)>, y: Seq<(KeyV, Val)>, n: int)
    requires
        spec_pairs_equiv(x, y),
        0 <= n <= x.len(),
    ensures
        spec_pairs_equiv(x.take(n), y.take(n)),
    decreases x.len(),
{
    if n < x.len() {
        lemma_pairs_equiv_prefix(x.drop_last(), y.drop_last(), n);
        assert(x.drop_last().take(n) =~= x.take(n));
        assert(y.drop_last().take(n) =~= y.take(n));
    } else {
        assert(x.take(n) =~= x);
        assert(y.take(n) =~= y);
    }
}

impl Key {
    /// A string key holding a copy of `s`.
    pub fn str(s: &[u8]) -> (r: Key)
        ensures
            r@ == KeyV::Str(s@),
    {
        Key::String(copy_bytes(s))
    }
}

impl Value {
    /// A string value holding a copy of `s`.
    pub fn str(s: &[u8]) -> (r: Value)
        ensures
            r@ == Val::Str(s@),
    {
        Value::String(copy_bytes(s))
    }

    /// A hash array keyed by the UTF-8 bytes of the given strings, pairs in the given order.
    pub fn map_str(pairs: Vec<(&str, Value)>) -> (r: Value)
        ensures
            r@ == Val::Hash(
                Seq::new(pairs@.len(), |i: int| (KeyV::Str(pairs@[i].0.spec_bytes()), pairs@[i].1@)),
            ),
    {
        let ghost orig = pairs@;
        let mut rest = pairs;
        let mut rev: Vec<(Key, Value)> = Vec::with_capacity(rest.len());
        while rest.len() > 0
            invariant
                rest@.len() + rev@.len() == orig.len(),
                rest@ == orig.take(rest@.len() as int),
                forall|j: int|
                    0 <= j < rev@.len() ==> (#[trigger] rev@[j]).0@ == KeyV::Str(
                        orig[orig.len() - 1 - j].0.spec_bytes(),
                    ) && rev@[j].1 == orig[orig.len() - 1 - j].1,
            decreases rest@.len(),
        {
            let (k, v) = rest.pop().unwrap();
            rev.push((Key::String(copy_bytes(k.as_bytes())), v));
        }
        let mut out: Vec<(Key, Value)> = Vec::with_capacity(rev.len());
        while rev.len() > 0
            invariant
                rev@.len() + out@.len() == orig.len(),
                forall|j: int|
                    0 <= j < rev@.len() ==> (#[trigger] rev@[j]).0@ == KeyV::Str(
                        orig[orig.len() - 1 - j].0.spec_bytes(),
                    ) && rev@[j].1 == orig[orig.len() - 1 - j].1,
                forall|j: int|
                    0 <= j < out@.len() ==> (#[trigger] out@[j]).0@ == KeyV::Str(orig[j].0.spec_bytes())
                        && out@[j].1 == orig[j].1,
            decreases rev@.len(),
        {
            let p = rev.pop().unwrap();
            out.push(p);
        }
        proof {
            lemma_view_pairs(out@);
            assert(view_pairs(out@) =~= Seq::new(
                orig.len(),
                |i: int| (KeyV::Str(orig[i].0.spec_bytes()), orig[i].1@),
            ));
        }
        Value::ArrayHash(out)
    }
}

/// The keys are exactly `0, 1, …, n-1`, in that order.
pub open spec fn spec_keys_sequential(hash: Seq<(Key, Value)>) -> bool {
    forall|i: int| 0 <= i < hash.len() ==> (#[trigger] hash[i]).0@ == KeyV::Int(i as i64)
}

/// The keys are sequential exactly when key `i` is the integer `i`, for every position `i`.
pub proof fn lemma_keys_sequential_iff(hash: Seq<(Key, Value)>)
    ensures
        spec_keys_sequential(hash) <==> forall|i: int|
            0 <= i < hash.len() ==> (#[trigger] hash[i]).0 == Key::Int(i as i64),
{
    if spec_keys_sequential(hash) {
        assert forall|i: int| 0 <= i < hash.len() implies (#[trigger] hash[i]).0 == Key::Int(i as i64) by {
            assert(hash[i].0@ == KeyV::Int(i as i64));
        }
    }
}

/// A hash array whose keys are `0, 1, …, n-1` in order becomes the packed array of its values;
/// any other hash array is kept as it is.
pub fn maybe_pack(hash: Vec<(Key, Value)>) -> (r: Value)
    ensures
        spec_keys_sequential(hash@) ==> (r matches Value::ArrayPacked(items) && items@.len()
            == hash@.len() && forall|i: int|
            0 <= i < hash@.len() ==> #[trigger] items@[i] == hash@[i].1),
        !spec_keys_sequential(hash@) ==> r == Value::ArrayHash(hash),
        r is ArrayPacked ==> forall|i: int| 0 <= i < hash@.len() ==> (#[trigger] hash@[i]).0 == Key::Int(i as i64),
        (exists|i: int| 0 <= i < hash@.len() && (#[trigger] hash@[i]).0 != Key::Int(i as i64))
            ==> r == Value::ArrayHash(hash),
{
    let n = hash.len();
    let mut i: usize = 0;
    while i < n
        invariant
            n == hash@.len(),
            i <= n,
            forall|j: int| 0 <= j < i ==> (#[trigger] hash@[j]).0@ == KeyV::Int(j as i64),
        decreases n - i,
    {
        let is_index = match &hash[i].0 {
            Key::Int(x) => *x == i as i64,
            Key::String(_) => false,
        };
        if !is_index {
            assert(!spec_keys_sequential(hash@)) by {
                assert(hash@[i as int].0@ != KeyV::Int(i as i64));
            }
            return Value::ArrayHash(hash);
        }
        i = i + 1;
    }
    let ghost orig = hash@;
    let mut rest = hash;
    let mut rev: Vec<Value> = Vec::with_capacity(n);
    while rest.len() > 0
        invariant
            rest@.len() + rev@.len() == orig.len(),
            rest@ == orig.take(rest@.len() as int),
            forall|j: int| 0 <= j < rev@.len() ==> #[trigger] rev@[j] == orig[orig.len() - 1 - j].1,
        decreases rest@.len(),
    {
        let (_, v) = rest.pop().unwrap();
        rev.push(v);
    }
    let mut items: Vec<Value> = Vec::with_capacity(n);
    while rev.len() > 0
        invariant
            rev@.len() + items@.len() == orig.len(),
            forall|j: int| 0 <= j < rev@.len() ==> #[trigger] rev@[j] == orig[orig.len() - 1 - j].1,
            forall|j: int| 0 <= j < items@.len() ==> #[trigger] items@[j] == orig[j].1,
        decreases rev@.len(),
    {
        let v = rev.pop().unwrap();
        items.push(v);
    }
    Value::ArrayPacked(items)
}

impl PartialEq for Value {
    fn eq(&self, other: &Self) -> (r: bool) {
        value_equiv(self, other)
    }
}

impl Eq for Value {

}

impl vstd::std_specs::cmp::PartialEqSpecImpl for Value {
    open spec fn obeys_eq_spec() -> bool {
        true
    }

    open spec fn eq_spec(&self, other: &Self) -> bool {
        spec_equiv(self@, other@)
    }
}

impl Clone for Value {
    fn clone(&self) -> (r: Self)
        ensures
            r@ == self@,
    {
        clone_value(self)
    }
}

} // verus!
