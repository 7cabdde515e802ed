//! The callback surface through which the decoder builds values.
//!
//! A host turns decoded scalars and arrays into its own values (PHP zvals, C objects, or the
//! [`crate::value::Value`] tree of [`crate::test_host::TestHost`]). Each host describes its
//! values by a model ([`Val`]); the decoder's contract is stated over that model.

use vstd::prelude::*;
use crate::error::{Error, Result};
use crate::value::{KeyV, Val};

verus! {

/// Key of an associative array entry.
#[derive(Debug, Clone, Copy)]
pub enum ArrayKey<'a> {
    Int(i64),
    String(&'a [u8]),
    /// A string registered earlier through [`Host::intern_string`].
    StringId(u32),
}

/// A scalar written straight into an array. A float is given by its IEEE-754 bit pattern.
#[derive(Debug, Clone, Copy)]
pub enum Scalar<'a> {
    Null,
    Bool(bool),
    I64(i64),
    F64(u64),
    String(&'a [u8]),
    /// A string registered earlier through [`Host::intern_string`].
    StringId(u32),
}

/// The errors a host's calls have returned, oldest first.
pub type HostErrors = Seq<Error>;

/// A host call's effect on the record of errors: an error it returns is added to it, a
/// success leaves it as it was.
pub open spec fn spec_logged<T>(before: HostErrors, after: HostErrors, r: Result<T>) -> bool {
    match r {
        Ok(_) => after == before,
        Err(e) => after == before.push(e) && after.len() == before.len() + 1,
    }
}

/// A number of array elements.
pub type ElementCount = nat;

/// How many elements an array model holds.
pub open spec fn elements(a: Val) -> nat {
    match a {
        Val::Packed(items) => items.len(),
        Val::Hash(pairs) => pairs.len(),
        _ => 0,
    }
}

/// The strings registered with a host, by id.
pub type InternedStrings = Seq<Seq<u8>>;

/// An id names a registered string.
pub open spec fn id_ok(interned: Seq<Seq<u8>>, id: u32) -> bool {
    (id as int) < interned.len()
}

/// A key can be resolved against the registered strings.
pub open spec fn key_ok(interned: Seq<Seq<u8>>, k: ArrayKey) -> bool {
    match k {
        ArrayKey::StringId(id) => id_ok(interned, id),
        _ => true,
    }
}

/// The model of a key, string ids resolved against the registered strings.
pub open spec fn key_model(interned: Seq<Seq<u8>>, k: ArrayKey) -> KeyV {
    match k {
        ArrayKey::Int(i) => KeyV::Int(i),
        ArrayKey::String(s) => KeyV::Str(s@),
        ArrayKey::StringId(id) => KeyV::Str(interned[id as int]),
    }
}

/// A scalar can be resolved against the registered strings.
pub open spec fn scalar_ok(interned: Seq<Seq<u8>>, s: Scalar) -> bool {
    match s {
        Scalar::StringId(id) => id_ok(interned, id),
        _ => true,
    }
}

/// The model of a scalar, string ids resolved against the registered strings.
pub open spec fn scalar_model(interned: Seq<Seq<u8>>, s: Scalar) -> Val {
    match s {
        Scalar::Null => Val::Null,
        Scalar::Bool(b) => Val::Bool(b),
        Scalar::I64(i) => Val::Int(i),
        Scalar::F64(f) => Val::Float(f),
        Scalar::String(b) => Val::Str(b@),
        Scalar::StringId(id) => Val::Str(interned[id as int]),
    }
}

/// A packed array model with one more element.
pub open spec fn packed_push(a: Val, v: Val) -> Val {
    match a {
        Val::Packed(items) => Val::Packed(items.push(v)),
        _ => a,
    }
}

/// A hash array model with one more entry.
pub open spec fn hash_push(a: Val, k: KeyV, v: Val) -> Val {
    match a {
        Val::Hash(pairs) => Val::Hash(pairs.push((k, v))),
        _ => a,
    }
}

/// Callbacks implemented by a PHP adapter, a C vtable, or the test harness.
///
/// `model` says what a host value stands for, `array_model` what an array under
/// construction holds so far, `declared` how many elements it was begun with, `interned`
/// which strings have been registered, by id, and `failures` which errors the host's calls
/// have returned. An array is finished only once it holds as many elements as it was begun
/// with.
/// When `fallible` is false the host promises that every call whose arguments resolve
/// succeeds.
pub trait Host: Sized {
    type Value;
    type ArrayState;

    spec fn model(v: &Self::Value) -> Val;

    spec fn array_model(a: &Self::ArrayState) -> Val;

    spec fn declared(a: &Self::ArrayState) -> ElementCount;

    spec fn interned(&self) -> Seq<Seq<u8>>;

    spec fn fallible() -> bool;

    spec fn failures(&self) -> HostErrors;

    fn make_null(&mut self) -> (r: Result<Self::Value>)
        ensures
            spec_logged(old(self).failures(), final(self).failures(), r),
            final(self).interned() == old(self).interned(),
            r matches Ok(v) ==> Self::model(&v) == Val::Null,
            !Self::fallible() ==> r is Ok,
    ;

    fn make_bool(&mut self, v: bool) -> (r: Result<Self::Value>)
        ensures
            spec_logged(old(self).failures(), final(self).failures(), r),
            final(self).interned() == old(self).interned(),
            r matches Ok(x) ==> Self::model(&x) == Val::Bool(v),
            !Self::fallible() ==> r is Ok,
    ;

    fn make_i64(&mut self, v: i64) -> (r: Result<Self::Value>)
        ensures
            spec_logged(old(self).failures(), final(self).failures(), r),
            final(self).interned() == old(self).interned(),
            r matches Ok(x) ==> Self::model(&x) == Val::Int(v),
            !Self::fallible() ==> r is Ok,
    ;

    /// A float, given by its IEEE-754 bit pattern.
    fn make_f64(&mut self, bits: u64) -> (r: Result<Self::Value>)
        ensures
            spec_logged(old(self).failures(), final(self).failures(), r),
            final(self).interned() == old(self).interned(),
            r matches Ok(x) ==> Self::model(&x) == Val::Float(bits),
            !Self::fallible() ==> r is Ok,
    ;

    fn make_string(&mut self, bytes: &[u8]) -> (r: Result<Self::Value>)
        ensures
            spec_logged(old(self).failures(), final(self).failures(), r),
            final(self).interned() == old(self).interned(),
            r matches Ok(x) ==> Self::model(&x) == Val::Str(bytes@),
            !Self::fallible() ==> r is Ok,
    ;

    /// Materialize the string registered as `id`.
    fn make_string_id(&mut self, id: u32) -> (r: Result<Self::Value>)
        requires
            id_ok(old(self).interned(), id),
        ensures
            spec_logged(old(self).failures(), final(self).failures(), r),
            final(self).interned() == old(self).interned(),
            r matches Ok(x) ==> id_ok(old(self).interned(), id) && Self::model(&x) == Val::Str(
                old(self).interned()[id as int],
            ),
            !Self::fallible() && id_ok(old(self).interned(), id) ==> r is Ok,
    ;

    /// Register string table entry `id` (ids are dense from 0).
    fn intern_string(&mut self, id: u32, bytes: &[u8]) -> (r: Result<()>)
        ensures
            spec_logged(old(self).failures(), final(self).failures(), r),
            r is Ok ==> id as int == old(self).interned().len() && final(self).interned()
                == old(self).interned().push(bytes@),
            r is Err ==> final(self).interned() == old(self).interned(),
            !Self::fallible() && id as int == old(self).interned().len() ==> r is Ok,
    ;

    fn begin_array(&mut self, packed: bool, count: u32) -> (r: Result<Self::ArrayState>)
        ensures
            spec_logged(old(self).failures(), final(self).failures(), r),
            final(self).interned() == old(self).interned(),
            r matches Ok(a) ==> Self::array_model(&a) == (if packed {
                Val::Packed(Seq::empty())
            } else {
                Val::Hash(Seq::empty())
            }) && Self::declared(&a) == count,
            !Self::fallible() ==> r is Ok,
    ;

    fn push_packed(&mut self, arr: &mut Self::ArrayState, val: Self::Value) -> (r: Result<()>)
        requires
            Self::array_model(old(arr)) is Packed,
        ensures
            spec_logged(old(self).failures(), final(self).failures(), r),
            Self::declared(final(arr)) == Self::declared(old(arr)),
            final(self).interned() == old(self).interned(),
            r is Ok ==> Self::array_model(final(arr)) == packed_push(
                Self::array_model(old(arr)),
                Self::model(&val),
            ),
            !Self::fallible() ==> r is Ok,
    ;

    fn insert_key(&mut self, arr: &mut Self::ArrayState, key: ArrayKey<'_>, val: Self::Value) -> (r:
        Result<()>)
        requires
            Self::array_model(old(arr)) is Hash,
            key_ok(old(self).interned(), key),
        ensures
            spec_logged(old(self).failures(), final(self).failures(), r),
            Self::declared(final(arr)) == Self::declared(old(arr)),
            final(self).interned() == old(self).interned(),
            r is Ok ==> key_ok(old(self).interned(), key) && Self::array_model(final(arr))
                == hash_push(
                Self::array_model(old(arr)),
                key_model(old(self).interned(), key),
                Self::model(&val),
            ),
            !Self::fallible() && key_ok(old(self).interned(), key) ==> r is Ok,
    ;

    /// Finish an array, which by then holds as many elements as it was begun with.
    fn end_array(&mut self, arr: Self::ArrayState) -> (r: Result<Self::Value>)
        requires
            elements(Self::array_model(&arr)) == Self::declared(&arr),
        ensures
            spec_logged(old(self).failures(), final(self).failures(), r),
            final(self).interned() == old(self).interned(),
            r matches Ok(v) ==> Self::model(&v) == Self::array_model(&arr),
            !Self::fallible() ==> r is Ok,
    ;

    /// A copy of a finished value (for `ARRAY_REPEAT`).
    fn duplicate_value(&mut self, val: &Self::Value) -> (r: Result<Self::Value>)
        ensures
            spec_logged(old(self).failures(), final(self).failures(), r),
            final(self).interned() == old(self).interned(),
            r matches Ok(v) ==> Self::model(&v) == Self::model(val),
            !Self::fallible() ==> r is Ok,
    ;

    /// Push a scalar onto a packed array (default: make the value, then push it).
    fn push_scalar(&mut self, arr: &mut Self::ArrayState, scalar: Scalar<'_>) -> (r: Result<()>)
        requires
            Self::array_model(old(arr)) is Packed,
            scalar_ok(old(self).interned(), scalar),
        ensures
            spec_logged(old(self).failures(), final(self).failures(), r),
            Self::declared(final(arr)) == Self::declared(old(arr)),
            final(self).interned() == old(self).interned(),
            r is Ok ==> scalar_ok(old(self).interned(), scalar) && Self::array_model(final(arr))
                == packed_push(
                Self::array_model(old(arr)),
                scalar_model(old(self).interned(), scalar),
            ),
            !Self::fallible() && scalar_ok(old(self).interned(), scalar) ==> r is Ok,
    {
        let v = match scalar {
            Scalar::Null => self.make_null()?,
            Scalar::Bool(b) => self.make_bool(b)?,
            Scalar::I64(i) => self.make_i64(i)?,
            Scalar::F64(f) => self.make_f64(f)?,
            Scalar::String(s) => self.make_string(s)?,
            Scalar::StringId(id) => self.make_string_id(id)?,
        };
        self.push_packed(arr, v)
    }

    /// Insert a scalar under a key (default: make the value, then insert it).
    fn insert_scalar(&mut self, arr: &mut Self::ArrayState, key: ArrayKey<'_>, scalar: Scalar<'_>) -> (r:
        Result<()>)
        requires
            Self::array_model(old(arr)) is Hash,
            key_ok(old(self).interned(), key),
            scalar_ok(old(self).interned(), scalar),
        ensures
            spec_logged(old(self).failures(), final(self).failures(), r),
            Self::declared(final(arr)) == Self::declared(old(arr)),
            final(self).interned() == old(self).interned(),
            r is Ok ==> key_ok(old(self).interned(), key) && scalar_ok(old(self).interned(), scalar)
                && Self::array_model(final(arr)) == hash_push(
                Self::array_model(old(arr)),
                key_model(old(self).interned(), key),
                scalar_model(old(self).interned(), scalar),
            ),
            !Self::fallible() && key_ok(old(self).interned(), key) && scalar_ok(
                old(self).interned(),
                scalar,
            ) ==> r is Ok,
    {
        let v = match scalar {
            Scalar::Null => self.make_null()?,
            Scalar::Bool(b) => self.make_bool(b)?,
            Scalar::I64(i) => self.make_i64(i)?,
            Scalar::F64(f) => self.make_f64(f)?,
            Scalar::String(s) => self.make_string(s)?,
            Scalar::StringId(id) => self.make_string_id(id)?,
        };
        self.insert_key(arr, key, v)
    }

    /// Append a run of integers to a packed array (default: one `push_scalar` each).
    fn push_i64_run(&mut self, arr: &mut Self::ArrayState, values: &[i64]) -> (r: Result<()>)
        requires
            Self::array_model(old(arr)) is Packed,
        ensures
            spec_logged(old(self).failures(), final(self).failures(), r),
            Self::declared(final(arr)) == Self::declared(old(arr)),
            final(self).interned() == old(self).interned(),
            r is Ok ==> Self::array_model(final(arr)) == Val::Packed(
                Self::array_model(old(arr))->Packed_0 + Seq::new(
                    values@.len(),
                    |i: int| Val::Int(values@[i]),
                ),
            ),
            !Self::fallible() ==> r is Ok,
    {
        let mut i: usize = 0;
        while i < values.len()
            invariant
                i <= values.len(),
                self.interned() == old(self).interned(),
                self.failures() == old(self).failures(),
                Self::declared(arr) == Self::declared(old(arr)),
                Self::array_model(arr) == Val::Packed(
                    Self::array_model(old(arr))->Packed_0 + Seq::new(
                        i as nat,
                        |j: int| Val::Int(values@[j]),
                    ),
                ),
            decreases values.len() - i,
        {
            let ghost before = Self::array_model(arr);
            self.push_scalar(arr, Scalar::I64(values[i]))?;
            assert(Self::array_model(old(arr))->Packed_0 + Seq::new((i + 1) as nat, |j: int| Val::Int(values@[j]))
                =~= (Self::array_model(old(arr))->Packed_0 + Seq::new(i as nat, |j: int| Val::Int(values@[j]))).push(Val::Int(values@[i as int])));
            i = i + 1;
        }
        Ok(())
    }
}

} // verus!
