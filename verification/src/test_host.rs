//! A host that builds [`Value`] trees; used by the tests and the command-line tool.

use vstd::prelude::*;
use crate::error::{Error, Result};
use crate::host::{
    ArrayKey, Host, HostErrors, Scalar, hash_push, id_ok, key_model, key_ok, packed_push, scalar_model,
    scalar_ok,
};
use crate::value::{
    Key, KeyV, Val, Value, view_value, clone_value, copy_bytes, lemma_view_items, lemma_view_items_push,
    lemma_view_pairs, lemma_view_pairs_push, view_items, view_pairs,
};
use crate::string_table::strings_view;

verus! {

/// Builds a [`Value`] for every decoded value; keeps its own copy of the string table.
pub struct TestHost {
    strings: Vec<Vec<u8>>,
    failures: Ghost<HostErrors>,
}

/// An array under construction.
pub struct TestArray {
    packed: bool,
    items: Vec<(Key, Value)>,
    declared: Ghost<nat>,
}

impl Default for TestHost {
    fn default() -> (r: Self)
        ensures
            r.interned() == Seq::<Seq<u8>>::empty(),
    {
        let r = TestHost { strings: Vec::new(), failures: Ghost(Seq::empty()) };
        assert(strings_view(r.strings@) =~= Seq::<Seq<u8>>::empty());
        r
    }
}

/// The values of the pairs of a packed array under construction.
pub open spec fn pair_values(items: Seq<(Key, Value)>) -> Seq<Val> {
    Seq::new(items.len(), |i: int| items[i].1@)
}

impl TestHost {
    /// A host with no registered strings.
    pub fn new() -> (r: Self)
        ensures
            r.interned() == Seq::<Seq<u8>>::empty(),
    {
        TestHost::default()
    }
}

impl Host for TestHost {
    type Value = Value;
    type ArrayState = TestArray;

    open spec fn model(v: &Value) -> Val {
        view_value(*v)
    }

    closed spec fn array_model(a: &TestArray) -> Val {
        if a.packed {
            Val::Packed(pair_values(a.items@))
        } else {
            Val::Hash(view_pairs(a.items@))
        }
    }

    closed spec fn declared(a: &TestArray) -> nat {
        a.declared@
    }

    closed spec fn interned(&self) -> Seq<Seq<u8>> {
        strings_view(self.strings@)
    }

    open spec fn fallible() -> bool {
        false
    }

    closed spec fn failures(&self) -> HostErrors {
        self.failures@
    }

    fn make_null(&mut self) -> (r: Result<Value>) {
        assert(Self::model(&Value::Null) == Val::Null);
        Ok(Value::Null)
    }

    fn make_bool(&mut self, v: bool) -> (r: Result<Value>) {
        Ok(Value::Bool(v))
    }

    fn make_i64(&mut self, v: i64) -> (r: Result<Value>) {
        Ok(Value::Int(v))
    }

    fn make_f64(&mut self, bits: u64) -> (r: Result<Value>) {
        Ok(Value::Float(bits))
    }

    fn make_string(&mut self, bytes: &[u8]) -> (r: Result<Value>) {
        Ok(Value::String(copy_bytes(bytes)))
    }

    fn make_string_id(&mut self, id: u32) -> (r: Result<Value>) {
        let i = id as usize;
        if i >= self.strings.len() {
            self.failures = Ghost(self.failures@.push(Error::BadStrRef));
            return Err(Error::BadStrRef);
        }
        Ok(Value::String(copy_bytes(self.strings[i].as_slice())))
    }

    fn intern_string(&mut self, id: u32, bytes: &[u8]) -> (r: Result<()>) {
        if id as usize != self.strings.len() {
            self.failures = Ghost(self.failures@.push(Error::Internal));
            return Err(Error::Internal);
        }
        let ghost before = strings_view(self.strings@);
        self.strings.push(copy_bytes(bytes));
        assert(strings_view(self.strings@) =~= before.push(bytes@));
        Ok(())
    }

    fn begin_array(&mut self, packed: bool, count: u32) -> (r: Result<TestArray>) {
        let a = TestArray { packed, items: Vec::new(), declared: Ghost(count as nat) };
        assert(pair_values(a.items@) =~= Seq::<Val>::empty());
        assert(view_pairs(a.items@) =~= Seq::<(KeyV, Val)>::empty());
        Ok(a)
    }

    fn push_packed(&mut self, arr: &mut TestArray, val: Value) -> (r: Result<()>) {
        let idx = arr.items.len() as i64;
        let ghost before = pair_values(arr.items@);
        let ghost vv = val@;
        arr.items.push((Key::Int(idx), val));
        assert(pair_values(arr.items@) =~= before.push(vv));
        Ok(())
    }

    fn insert_key(&mut self, arr: &mut TestArray, key: ArrayKey<'_>, val: Value) -> (r: Result<()>) {
        let k = match key {
            ArrayKey::Int(i) => Key::Int(i),
            ArrayKey::String(s) => Key::String(copy_bytes(s)),
            ArrayKey::StringId(id) => {
                let i = id as usize;
                if i >= self.strings.len() {
                    self.failures = Ghost(self.failures@.push(Error::BadStrRef));
                    return Err(Error::BadStrRef);
                }
                Key::String(copy_bytes(self.strings[i].as_slice()))
            },
        };
        let ghost before = arr.items@;
        proof {
            lemma_view_pairs_push(before, (k, val));
        }
        arr.items.push((k, val));
        Ok(())
    }

    fn end_array(&mut self, arr: TestArray) -> (r: Result<Value>) {
        if arr.packed {
            let mut out: Vec<Value> = Vec::with_capacity(arr.items.len());
            let mut items = arr.items;
            let ghost all = items@;
            let mut i: usize = 0;
            while i < items.len()
                invariant
                    i <= items.len(),
                    items@ == all,
                    view_items(out@) == pair_values(all).take(i as int),
                decreases items.len() - i,
            {
                let v = clone_value(&items[i].1);
                proof {
                    lemma_view_items_push(out@, v);
                }
                out.push(v);
                assert(pair_values(all).take(i + 1) =~= pair_values(all).take(i as int).push(all[i as int].1@));
                i = i + 1;
            }
            assert(pair_values(all).take(i as int) =~= pair_values(all));
            Ok(Value::ArrayPacked(out))
        } else {
            Ok(Value::ArrayHash(arr.items))
        }
    }

    fn duplicate_value(&mut self, val: &Value) -> (r: Result<Value>) {
        Ok(clone_value(val))
    }
}

} // verus!
