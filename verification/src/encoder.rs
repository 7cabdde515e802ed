//! PFBinary encoder: a streaming writer, and whole-value encoding.

use vstd::prelude::*;
use crate::error::{Error, Result};
use crate::header::{
    checksum_bytes, spec_base_header, spec_checksum, spec_flags_valid, spec_has_checksum,
    spec_has_strdedup, validate_flags, write_base_header, FLAG_CHECKSUM, FLAG_STRDEDUP,
};
use crate::string_table::EncodeStringTable;
use crate::tags::{
    TAG_ARRAY_HASH, TAG_ARRAY_PACKED, TAG_ARRAY_REPEAT, TAG_ARRAY_ROWS, TAG_DOUBLE, TAG_FALSE,
    TAG_NULL, TAG_PACKED_LONGS, TAG_STR_EMPTY, TAG_STR_REF, TAG_STR_VARINT, TAG_TRUE, TAG_VARINT,
};
use crate::value::{
    Key, KeyV, Val, Value, clone_key, key_eq, keys_view, lemma_view_items, lemma_view_pairs,
    spec_equiv, value_equiv, view_items, view_pairs,
};
use crate::varint::{spec_ivarint, spec_uvarint, write_ivarint, write_uvarint};
use crate::wire::{
    spec_count, spec_enc_items, spec_enc_keys, spec_enc_longs, spec_enc_pairs, spec_enc_rows,
    spec_enc_value, spec_enc_values, spec_encode, spec_all_ints, spec_all_same, spec_document, spec_enc_key, spec_enc_string, spec_keys_of, spec_le64,
    spec_row_fits, spec_rowset_schema,
};

verus! {

/// Encoder options.
pub struct EncodeOptions {
    pub flags: u8,
}

impl Default for EncodeOptions {
    fn default() -> (r: Self)
        ensures
            r.flags == FLAG_STRDEDUP,
    {
        EncodeOptions { flags: FLAG_STRDEDUP }
    }
}

/// Streaming encoder: emit values in document order, then [`Encoder::finish`].
pub struct Encoder {
    buf: Vec<u8>,
    strings: EncodeStringTable,
    strdedup: bool,
    flags: u8,
}

impl Encoder {
    /// The payload written so far.
    pub closed spec fn payload(&self) -> Seq<u8> {
        self.buf@
    }

    /// The string table: the strings defined so far, in id order.
    pub closed spec fn table(&self) -> Seq<Seq<u8>> {
        self.strings@
    }

    /// The document flags.
    pub closed spec fn spec_flags(&self) -> u8 {
        self.flags
    }

    /// Whether strings are deduplicated.
    pub open spec fn dedup(&self) -> bool {
        spec_has_strdedup(self.spec_flags())
    }

    /// Flags are valid, the table holds no string twice, and stays empty without dedup.
    pub closed spec fn wf(&self) -> bool {
        &&& self.strings.wf()
        &&& self.strdedup == spec_has_strdedup(self.flags)
        &&& spec_flags_valid(self.flags)
        &&& (!self.strdedup ==> self.strings@.len() == 0)
    }

    /// What well-formedness gives a caller: valid flags, no string twice in the table, and an
    /// empty table when strings are not deduplicated.
    pub proof fn lemma_wf(&self)
        requires
            self.wf(),
        ensures
            spec_flags_valid(self.spec_flags()),
            self.table().no_duplicates(),
            !self.dedup() ==> self.table().len() == 0,
    {
    }

    /// The writer state after appending `bytes` with the table replaced by `t`.
    pub open spec fn appended(&self, old: &Self, bytes: Seq<u8>, t: Seq<Seq<u8>>) -> bool {
        &&& self.wf()
        &&& self.payload() == old.payload() + bytes
        &&& self.table() == t
        &&& self.spec_flags() == old.spec_flags()
    }

    /// A new encoder for the given flags; fails with `UnknownFlags` when a reserved bit is set.
    pub fn new(flags: u8) -> (r: Result<Self>)
        ensures
            r is Ok <==> spec_flags_valid(flags),
            r is Err ==> r == Err::<Self, Error>(Error::UnknownFlags),
            r matches Ok(e) ==> {
                &&& e.wf()
                &&& e.payload() == Seq::<u8>::empty()
                &&& e.table() == Seq::<Seq<u8>>::empty()
                &&& e.spec_flags() == flags
            },
    {
        match validate_flags(flags) {
            Ok(()) => {},
            Err(_) => {
                return Err(Error::UnknownFlags);
            },
        }
        let e = Encoder {
            buf: Vec::with_capacity(64),
            strings: EncodeStringTable::new(),
            strdedup: flags & FLAG_STRDEDUP != 0,
            flags,
        };
        Ok(e)
    }

    /// The flags this encoder writes.
    pub fn flags(&self) -> (r: u8)
        ensures
            r == self.spec_flags(),
    {
        self.flags
    }

    /// Append `NULL`.
    pub fn write_null(&mut self)
        requires
            old(self).wf(),
        ensures
            final(self).appended(old(self), seq![TAG_NULL], old(self).table()),
    {
        self.buf.push(TAG_NULL);
        assert(self.buf@ =~= old(self).buf@ + seq![TAG_NULL]);
    }

    /// Append `TRUE` or `FALSE`.
    pub fn write_bool(&mut self, v: bool)
        requires
            old(self).wf(),
        ensures
            final(self).appended(
                old(self),
                seq![if v { TAG_TRUE } else { TAG_FALSE }],
                old(self).table(),
            ),
    {
        self.buf.push(if v { TAG_TRUE } else { TAG_FALSE });
        assert(self.buf@ =~= old(self).buf@ + seq![if v { TAG_TRUE } else { TAG_FALSE }]);
    }

    /// Append an integer: `VARINT` + zigzag varint.
    pub fn write_i64(&mut self, n: i64)
        requires
            old(self).wf(),
        ensures
            final(self).appended(old(self), seq![TAG_VARINT] + spec_ivarint(n), old(self).table()),
    {
        self.buf.push(TAG_VARINT);
        write_ivarint(&mut self.buf, n);
        assert(self.buf@ =~= old(self).buf@ + (seq![TAG_VARINT] + spec_ivarint(n)));
    }

    /// Append a float given by its IEEE-754 bit pattern: `DOUBLE` + 8 little-endian bytes.
    pub fn write_f64(&mut self, bits: u64)
        requires
            old(self).wf(),
        ensures
            final(self).appended(old(self), seq![TAG_DOUBLE] + spec_le64(bits), old(self).table()),
    {
        self.buf.push(TAG_DOUBLE);
        self.buf.push(bits as u8);
        self.buf.push((bits >> 8u32) as u8);
        self.buf.push((bits >> 16u32) as u8);
        self.buf.push((bits >> 24u32) as u8);
        self.buf.push((bits >> 32u32) as u8);
        self.buf.push((bits >> 40u32) as u8);
        self.buf.push((bits >> 48u32) as u8);
        self.buf.push((bits >> 56u32) as u8);
        assert(self.buf@ =~= old(self).buf@ + (seq![TAG_DOUBLE] + spec_le64(bits)));
    }

    /// Append a string value (defined, referenced or empty, see [`spec_enc_string`]).
    pub fn write_string(&mut self, bytes: &[u8])
        requires
            old(self).wf(),
        ensures
            final(self).appended(
                old(self),
                spec_enc_string(bytes@, old(self).dedup(), old(self).table()).0,
                spec_enc_string(bytes@, old(self).dedup(), old(self).table()).1,
            ),
    {
        self.write_string_bytes(bytes);
    }

    /// Open a packed array of `count` tagged values.
    pub fn write_array_packed_begin(&mut self, count: u32)
        requires
            old(self).wf(),
        ensures
            final(self).appended(
                old(self),
                seq![TAG_ARRAY_PACKED] + spec_uvarint(count as u64),
                old(self).table(),
            ),
    {
        self.buf.push(TAG_ARRAY_PACKED);
        write_uvarint(&mut self.buf, count as u64);
        assert(self.buf@ =~= old(self).buf@ + (seq![TAG_ARRAY_PACKED] + spec_uvarint(count as u64)));
    }

    /// Open a run of `count` integers written without tags.
    pub fn write_packed_longs_begin(&mut self, count: u32)
        requires
            old(self).wf(),
        ensures
            final(self).appended(
                old(self),
                seq![TAG_PACKED_LONGS] + spec_uvarint(count as u64),
                old(self).table(),
            ),
    {
        self.buf.push(TAG_PACKED_LONGS);
        write_uvarint(&mut self.buf, count as u64);
        assert(self.buf@ =~= old(self).buf@ + (seq![TAG_PACKED_LONGS] + spec_uvarint(count as u64)));
    }

    /// Append one zigzag varint of a `PACKED_LONGS` run (no tag).
    pub fn write_packed_long_item(&mut self, n: i64)
        requires
            old(self).wf(),
        ensures
            final(self).appended(old(self), spec_ivarint(n), old(self).table()),
    {
        write_ivarint(&mut self.buf, n);
    }

    /// Open a hash array of `count` key / value pairs.
    pub fn write_array_hash_begin(&mut self, count: u32)
        requires
            old(self).wf(),
        ensures
            final(self).appended(
                old(self),
                seq![TAG_ARRAY_HASH] + spec_uvarint(count as u64),
                old(self).table(),
            ),
    {
        self.buf.push(TAG_ARRAY_HASH);
        write_uvarint(&mut self.buf, count as u64);
        assert(self.buf@ =~= old(self).buf@ + (seq![TAG_ARRAY_HASH] + spec_uvarint(count as u64)));
    }

    /// Open a rowset: `ncols` schema keys follow, then `nrows * ncols` values.
    pub fn write_array_rows_begin(&mut self, nrows: u32, ncols: u32)
        requires
            old(self).wf(),
        ensures
            final(self).appended(
                old(self),
                seq![TAG_ARRAY_ROWS] + spec_uvarint(nrows as u64) + spec_uvarint(ncols as u64),
                old(self).table(),
            ),
    {
        self.buf.push(TAG_ARRAY_ROWS);
        write_uvarint(&mut self.buf, nrows as u64);
        write_uvarint(&mut self.buf, ncols as u64);
        assert(self.buf@ =~= old(self).buf@ + (seq![TAG_ARRAY_ROWS] + spec_uvarint(nrows as u64)
            + spec_uvarint(ncols as u64)));
    }

    /// Open a packed list of `count` copies of the one value that follows.
    pub fn write_array_repeat_begin(&mut self, count: u32)
        requires
            old(self).wf(),
        ensures
            final(self).appended(
                old(self),
                seq![TAG_ARRAY_REPEAT] + spec_uvarint(count as u64),
                old(self).table(),
            ),
    {
        self.buf.push(TAG_ARRAY_REPEAT);
        write_uvarint(&mut self.buf, count as u64);
        assert(self.buf@ =~= old(self).buf@ + (seq![TAG_ARRAY_REPEAT] + spec_uvarint(count as u64)));
    }

    /// Integer key of the next hash entry.
    pub fn write_key_i64(&mut self, n: i64)
        requires
            old(self).wf(),
        ensures
            final(self).appended(old(self), seq![TAG_VARINT] + spec_ivarint(n), old(self).table()),
    {
        self.buf.push(TAG_VARINT);
        write_ivarint(&mut self.buf, n);
        assert(self.buf@ =~= old(self).buf@ + (seq![TAG_VARINT] + spec_ivarint(n)));
    }

    /// String key of the next hash entry.
    pub fn write_key_string(&mut self, bytes: &[u8])
        requires
            old(self).wf(),
        ensures
            final(self).appended(
                old(self),
                spec_enc_string(bytes@, old(self).dedup(), old(self).table()).0,
                spec_enc_string(bytes@, old(self).dedup(), old(self).table()).1,
            ),
    {
        self.write_string_bytes(bytes);
    }

    fn write_string_bytes(&mut self, bytes: &[u8])
        requires
            old(self).wf(),
        ensures
            final(self).appended(
                old(self),
                spec_enc_string(bytes@, old(self).dedup(), old(self).table()).0,
                spec_enc_string(bytes@, old(self).dedup(), old(self).table()).1,
            ),
    {
        if bytes.len() == 0 {
            self.buf.push(TAG_STR_EMPTY);
            assert(self.buf@ =~= old(self).buf@ + seq![TAG_STR_EMPTY]);
            return;
        }
        if self.strdedup {
            let (id, is_new) = self.strings.intern_get(bytes);
            if !is_new {
                self.buf.push(TAG_STR_REF);
                write_uvarint(&mut self.buf, id as u64);
                assert(self.buf@ =~= old(self).buf@ + spec_enc_string(
                    bytes@,
                    old(self).dedup(),
                    old(self).table(),
                ).0);
                return;
            }
        }
        self.buf.push(TAG_STR_VARINT);
        write_uvarint(&mut self.buf, bytes.len() as u64);
        self.buf.extend_from_slice(bytes);
        assert(self.buf@ =~= old(self).buf@ + spec_enc_string(
            bytes@,
            old(self).dedup(),
            old(self).table(),
        ).0);
    }

    spec fn at(&self, p: Seq<u8>, t: Seq<Seq<u8>>, f: u8) -> bool {
        &&& self.wf()
        &&& self.payload() == p
        &&& self.table() == t
        &&& self.spec_flags() == f
    }

    /// Append the encoding of a whole value (see [`spec_enc_value`]).
    fn write_value(&mut self, value: &Value)
        requires
            old(self).wf(),
        ensures
            final(self).appended(
                old(self),
                spec_enc_value(value@, old(self).dedup(), old(self).table()).0,
                spec_enc_value(value@, old(self).dedup(), old(self).table()).1,
            ),
        decreases value, 3nat,
    {
        match value {
            Value::Null => self.write_null(),
            Value::Bool(v) => self.write_bool(*v),
            Value::Int(n) => self.write_i64(*n),
            Value::Float(f) => self.write_f64(*f),
            Value::String(s) => self.write_string(s.as_slice()),
            Value::ArrayPacked(items) => {
                proof {
                    lemma_view_items(items@);
                }
                assert(value@ == Val::Packed(view_items(items@)));
                self.write_packed(items);
            },
            Value::ArrayHash(pairs) => {
                proof {
                    lemma_view_pairs(pairs@);
                }
                assert(value@ == Val::Hash(view_pairs(pairs@)));
                self.write_hash(pairs);
            },
        }
    }

    /// Append the encoding of a packed array, choosing its layout.
    fn write_packed(&mut self, items: &Vec<Value>)
        requires
            old(self).wf(),
        ensures
            final(self).appended(
                old(self),
                spec_enc_value(Val::Packed(view_items(items@)), old(self).dedup(), old(self).table()).0,
                spec_enc_value(Val::Packed(view_items(items@)), old(self).dedup(), old(self).table()).1,
            ),
        decreases items, 2nat,
    {
        let ghost p0 = self.payload();
        let ghost t0 = self.table();
        let ghost d = self.dedup();
        let ghost vs = view_items(items@);
        proof {
            lemma_view_items(items@);
        }
        if items.len() > 0 && all_ints(items.as_slice()) {
            self.write_packed_longs_begin(items.len() as u32);
            self.write_longs_run(items);
            assert(self.payload() =~= p0 + spec_enc_value(Val::Packed(vs), d, t0).0);
        } else if items.len() >= 2 && all_same(items.as_slice()) {
            self.write_array_repeat_begin(items.len() as u32);
            proof {
                assert(decreases_to!(items => items[0]));
            }
            self.write_value(&items[0]);
            assert(self.payload() =~= p0 + spec_enc_value(Val::Packed(vs), d, t0).0);
        } else if let Some(schema) = rowset_schema(items.as_slice()) {
            let nrows = items.len() as u32;
            let ncols = schema.len() as u32;
            self.write_array_rows_begin(nrows, ncols);
            self.write_keys(&schema);
            self.write_rows(items);
            assert(self.payload() =~= p0 + spec_enc_value(Val::Packed(vs), d, t0).0);
        } else {
            self.write_array_packed_begin(items.len() as u32);
            self.write_items(items);
            assert(self.payload() =~= p0 + spec_enc_value(Val::Packed(vs), d, t0).0);
        }
    }

    /// Append the zigzag varints of a run of integers.
    fn write_longs_run(&mut self, items: &Vec<Value>)
        requires
            old(self).wf(),
            spec_all_ints(view_items(items@)),
        ensures
            final(self).appended(old(self), spec_enc_longs(view_items(items@)), old(self).table()),
    {
        proof {
            lemma_view_items(items@);
        }
        let ghost vs = view_items(items@);
        let ghost p1 = self.payload();
        let ghost t0 = self.table();
        let ghost f0 = self.spec_flags();
        let mut i: usize = 0;
        while i < items.len()
            invariant
                i <= items.len(),
                vs == view_items(items@),
                vs.len() == items@.len(),
                forall|j: int| 0 <= j < items@.len() ==> #[trigger] vs[j] == items@[j]@,
                spec_all_ints(vs),
                self.at(p1 + spec_enc_longs(vs.take(i as int)), t0, f0),
            decreases items.len() - i,
        {
            assert(vs.take(i + 1).drop_last() =~= vs.take(i as int));
            assert(vs[i as int] is Int);
            if let Value::Int(n) = &items[i] {
                self.write_packed_long_item(*n);
            }
            assert(self.payload() =~= p1 + spec_enc_longs(vs.take(i + 1)));
            i = i + 1;
        }
        assert(vs.take(i as int) =~= vs);
    }

    /// Append keys one after the other.
    fn write_keys(&mut self, schema: &Vec<Key>)
        requires
            old(self).wf(),
        ensures
            final(self).appended(
                old(self),
                spec_enc_keys(keys_view(schema@), old(self).dedup(), old(self).table()).0,
                spec_enc_keys(keys_view(schema@), old(self).dedup(), old(self).table()).1,
            ),
    {
        let ghost sv = keys_view(schema@);
        let ghost p1 = self.payload();
        let ghost t0 = self.table();
        let ghost f0 = self.spec_flags();
        let ghost d = self.dedup();
        let mut j: usize = 0;
        while j < schema.len()
            invariant
                j <= schema.len(),
                sv == keys_view(schema@),
                d == spec_has_strdedup(f0),
                self.at(
                    p1 + spec_enc_keys(sv.take(j as int), d, t0).0,
                    spec_enc_keys(sv.take(j as int), d, t0).1,
                    f0,
                ),
            decreases schema.len() - j,
        {
            assert(sv.take(j + 1).drop_last() =~= sv.take(j as int));
            assert(sv.take(j + 1).last() == schema@[j as int]@);
            match &schema[j] {
                Key::Int(k) => self.write_key_i64(*k),
                Key::String(s) => self.write_key_string(s.as_slice()),
            }
            assert(self.payload() =~= p1 + spec_enc_keys(sv.take(j + 1), d, t0).0);
            j = j + 1;
        }
        assert(sv.take(j as int) =~= sv);
    }

    /// Append the values of each hash row, row after row.
    fn write_rows(&mut self, items: &Vec<Value>)
        requires
            old(self).wf(),
        ensures
            final(self).appended(
                old(self),
                spec_enc_rows(view_items(items@), old(self).dedup(), old(self).table()).0,
                spec_enc_rows(view_items(items@), old(self).dedup(), old(self).table()).1,
            ),
        decreases items, 1nat,
    {
        proof {
            lemma_view_items(items@);
        }
        let ghost vs = view_items(items@);
        let ghost p2 = self.payload();
        let ghost t1 = self.table();
        let ghost f0 = self.spec_flags();
        let ghost d = self.dedup();
        let mut i: usize = 0;
        while i < items.len()
            invariant
                i <= items.len(),
                vs == view_items(items@),
                vs.len() == items@.len(),
                forall|j: int| 0 <= j < items@.len() ==> #[trigger] vs[j] == items@[j]@,
                d == spec_has_strdedup(f0),
                self.at(
                    p2 + spec_enc_rows(vs.take(i as int), d, t1).0,
                    spec_enc_rows(vs.take(i as int), d, t1).1,
                    f0,
                ),
            decreases items.len() - i,
        {
            assert(vs.take(i + 1).drop_last() =~= vs.take(i as int));
            assert(vs.take(i + 1).last() == items@[i as int]@);
            if let Value::ArrayHash(pairs) = &items[i] {
                proof {
                    lemma_view_pairs(pairs@);
                    assert(decreases_to!(items => items[i as int]));
                }
                assert(items@[i as int]@ == Val::Hash(view_pairs(pairs@)));
                self.write_values(pairs);
            }
            assert(self.payload() =~= p2 + spec_enc_rows(vs.take(i + 1), d, t1).0);
            i = i + 1;
        }
        assert(vs.take(i as int) =~= vs);
    }

    /// Append the values (not the keys) of `pairs`, one after the other.
    fn write_values(&mut self, pairs: &Vec<(Key, Value)>)
        requires
            old(self).wf(),
        ensures
            final(self).appended(
                old(self),
                spec_enc_values(view_pairs(pairs@), old(self).dedup(), old(self).table()).0,
                spec_enc_values(view_pairs(pairs@), old(self).dedup(), old(self).table()).1,
            ),
        decreases pairs, 2nat,
    {
        proof {
            lemma_view_pairs(pairs@);
        }
        let ghost ps = view_pairs(pairs@);
        let ghost p3 = self.payload();
        let ghost t3 = self.table();
        let ghost f0 = self.spec_flags();
        let ghost d = self.dedup();
        let mut k: usize = 0;
        while k < pairs.len()
            invariant
                k <= pairs.len(),
                ps == view_pairs(pairs@),
                ps.len() == pairs@.len(),
                forall|j: int| 0 <= j < pairs@.len() ==> #[trigger] ps[j] == (pairs@[j].0@, pairs@[j].1@),
                d == spec_has_strdedup(f0),
                self.at(
                    p3 + spec_enc_values(ps.take(k as int), d, t3).0,
                    spec_enc_values(ps.take(k as int), d, t3).1,
                    f0,
                ),
            decreases pairs.len() - k,
        {
            assert(ps.take(k + 1).drop_last() =~= ps.take(k as int));
            assert(ps.take(k + 1).last() == (pairs@[k as int].0@, pairs@[k as int].1@));
            proof {
                assert(decreases_to!(pairs => pairs[k as int]));
            }
            self.write_value(&pairs[k].1);
            assert(self.payload() =~= p3 + spec_enc_values(ps.take(k + 1), d, t3).0);
            k = k + 1;
        }
        assert(ps.take(k as int) =~= ps);
    }

    /// Append tagged values one after the other.
    fn write_items(&mut self, items: &Vec<Value>)
        requires
            old(self).wf(),
        ensures
            final(self).appended(
                old(self),
                spec_enc_items(view_items(items@), old(self).dedup(), old(self).table()).0,
                spec_enc_items(view_items(items@), old(self).dedup(), old(self).table()).1,
            ),
        decreases items, 1nat,
    {
        proof {
            lemma_view_items(items@);
        }
        let ghost vs = view_items(items@);
        let ghost p1 = self.payload();
        let ghost t0 = self.table();
        let ghost f0 = self.spec_flags();
        let ghost d = self.dedup();
        let mut i: usize = 0;
        while i < items.len()
            invariant
                i <= items.len(),
                vs == view_items(items@),
                vs.len() == items@.len(),
                forall|j: int| 0 <= j < items@.len() ==> #[trigger] vs[j] == items@[j]@,
                d == spec_has_strdedup(f0),
                self.at(
                    p1 + spec_enc_items(vs.take(i as int), d, t0).0,
                    spec_enc_items(vs.take(i as int), d, t0).1,
                    f0,
                ),
            decreases items.len() - i,
        {
            assert(vs.take(i + 1).drop_last() =~= vs.take(i as int));
            assert(vs.take(i + 1).last() == items@[i as int]@);
            proof {
                assert(decreases_to!(items => items[i as int]));
            }
            self.write_value(&items[i]);
            assert(self.payload() =~= p1 + spec_enc_items(vs.take(i + 1), d, t0).0);
            i = i + 1;
        }
        assert(vs.take(i as int) =~= vs);
    }

    /// Append a hash array: count, then each key and its value.
    fn write_hash(&mut self, pairs: &Vec<(Key, Value)>)
        requires
            old(self).wf(),
        ensures
            final(self).appended(
                old(self),
                spec_enc_value(Val::Hash(view_pairs(pairs@)), old(self).dedup(), old(self).table()).0,
                spec_enc_value(Val::Hash(view_pairs(pairs@)), old(self).dedup(), old(self).table()).1,
            ),
        decreases pairs, 2nat,
    {
        proof {
            lemma_view_pairs(pairs@);
        }
        let ghost ps = view_pairs(pairs@);
        let ghost p0 = self.payload();
        let ghost t0 = self.table();
        let ghost f0 = self.spec_flags();
        let ghost d = self.dedup();
        if pairs.len() == 0 {
            self.write_array_packed_begin(0);
            return;
        }
        self.write_array_hash_begin(pairs.len() as u32);
        let ghost p1 = self.payload();
        let mut i: usize = 0;
        while i < pairs.len()
            invariant
                i <= pairs.len(),
                ps == view_pairs(pairs@),
                ps.len() == pairs@.len(),
                forall|j: int| 0 <= j < pairs@.len() ==> #[trigger] ps[j] == (pairs@[j].0@, pairs@[j].1@),
                d == spec_has_strdedup(f0),
                self.at(
                    p1 + spec_enc_pairs(ps.take(i as int), d, t0).0,
                    spec_enc_pairs(ps.take(i as int), d, t0).1,
                    f0,
                ),
            decreases pairs.len() - i,
        {
            assert(ps.take(i + 1).drop_last() =~= ps.take(i as int));
            assert(ps.take(i + 1).last() == (pairs@[i as int].0@, pairs@[i as int].1@));
            match &pairs[i].0 {
                Key::Int(k) => self.write_key_i64(*k),
                Key::String(s) => self.write_key_string(s.as_slice()),
            }
            proof {
                assert(decreases_to!(pairs => pairs[i as int]));
            }
            self.write_value(&pairs[i].1);
            assert(self.payload() =~= p1 + spec_enc_pairs(ps.take(i + 1), d, t0).0);
            i = i + 1;
        }
        assert(ps.take(i as int) =~= ps);
        assert(self.payload() =~= p0 + spec_enc_value(Val::Hash(ps), d, t0).0);
    }

    /// Prepend the header (and checksum when flagged) to the payload.
    pub fn finish(self) -> (r: Vec<u8>)
        requires
            self.wf(),
        ensures
            r@ == spec_document(self.spec_flags(), self.payload()),
    {
        let payload = self.buf;
        let mut out: Vec<u8> = Vec::new();
        let _ = write_base_header(&mut out, self.flags);
        if self.flags & FLAG_CHECKSUM != 0 {
            let cs = checksum_bytes(payload.as_slice());
            out.push(cs[0]);
            out.push(cs[1]);
            out.push(cs[2]);
            out.push(cs[3]);
            assert(cs@ =~= seq![cs[0], cs[1], cs[2], cs[3]]);
        }
        let ghost before = out@;
        let mut i: usize = 0;
        while i < payload.len()
            invariant
                i <= payload.len(),
                out@ == before + payload@.take(i as int),
            decreases payload.len() - i,
        {
            out.push(payload[i]);
            assert(payload@.take(i + 1) =~= payload@.take(i as int).push(payload@[i as int]));
            i = i + 1;
        }
        assert(payload@.take(i as int) =~= payload@);
        assert(out@ =~= spec_document(self.flags, payload@));
        out
    }
}

/// True when every item is an integer.
fn all_ints(items: &[Value]) -> (r: bool)
    ensures
        r == spec_all_ints(view_items(items@)),
{
    proof {
        lemma_view_items(items@);
    }
    let mut i: usize = 0;
    while i < items.len()
        invariant
            i <= items.len(),
            view_items(items@).len() == items@.len(),
            forall|j: int| 0 <= j < items@.len() ==> #[trigger] view_items(items@)[j] == items@[j]@,
            forall|j: int| 0 <= j < i ==> #[trigger] view_items(items@)[j] is Int,
        decreases items.len() - i,
    {
        match &items[i] {
            Value::Int(_) => {},
            _ => {
                assert(!(view_items(items@)[i as int] is Int));
                return false;
            },
        }
        i = i + 1;
    }
    true
}

/// True when every item equals the first (codec equality).
fn all_same(items: &[Value]) -> (r: bool)
    requires
        items@.len() > 0,
    ensures
        r == spec_all_same(view_items(items@)),
{
    proof {
        lemma_view_items(items@);
    }
    let mut i: usize = 0;
    while i < items.len()
        invariant
            0 < items@.len(),
            i <= items.len(),
            view_items(items@).len() == items@.len(),
            forall|j: int| 0 <= j < items@.len() ==> #[trigger] view_items(items@)[j] == items@[j]@,
            forall|j: int|
                0 <= j < i ==> spec_equiv(#[trigger] view_items(items@)[j], view_items(items@)[0]),
        decreases items.len() - i,
    {
        if !value_equiv(&items[i], &items[0]) {
            assert(!spec_equiv(view_items(items@)[i as int], view_items(items@)[0]));
            return false;
        }
        i = i + 1;
    }
    true
}

/// If `items` is a list of at least two hash rows with identical key schemas, that schema.
#[verifier::loop_isolation(false)]
fn rowset_schema(items: &[Value]) -> (r: Option<Vec<Key>>)
    ensures
        match r {
            Some(s) => spec_rowset_schema(view_items(items@)) == Some(keys_view(s@)),
            None => spec_rowset_schema(view_items(items@)) is None,
        },
{
    proof {
        lemma_view_items(items@);
    }
    let ghost vs = view_items(items@);
    if items.len() < 2 {
        return None;
    }
    let first = match &items[0] {
        Value::ArrayHash(pairs) => pairs,
        _ => {
            return None;
        },
    };
    if first.len() == 0 {
        return None;
    }
    proof {
        lemma_view_pairs(first@);
    }
    let ghost sch = spec_keys_of(view_pairs(first@));
    assert(vs[0] == Val::Hash(view_pairs(first@)));
    let mut schema: Vec<Key> = Vec::with_capacity(first.len());
    let mut k: usize = 0;
    while k < first.len()
        invariant
            k <= first.len(),
            view_pairs(first@).len() == first@.len(),
            forall|j: int| 0 <= j < first@.len() ==> #[trigger] view_pairs(first@)[j] == (first@[j].0@, first@[j].1@),
            keys_view(schema@) == sch.take(k as int),
        decreases first.len() - k,
    {
        let key = clone_key(&first[k].0);
        let ghost old_schema = schema@;
        schema.push(key);
        assert(sch[k as int] == view_pairs(first@)[k as int].0);
        assert(schema@[k as int]@ == sch[k as int]);
        assert(keys_view(schema@) =~= sch.take(k + 1)) by {
            assert forall|j: int| 0 <= j < k + 1 implies keys_view(schema@)[j] == sch.take(k + 1)[j] by {
                if j < k {
                    assert(schema@[j] == old_schema[j]);
                    assert(keys_view(old_schema)[j] == sch.take(k as int)[j]);
                }
            }
        }
        k = k + 1;
    }
    assert(keys_view(schema@) =~= sch);
    let mut i: usize = 1;
    while i < items.len()
        invariant
            1 <= i <= items.len(),
            vs == view_items(items@),
            vs.len() == items@.len(),
            forall|j: int| 0 <= j < items@.len() ==> #[trigger] vs[j] == items@[j]@,
            keys_view(schema@) == sch,
            sch.len() == schema@.len(),
            forall|j: int| 1 <= j < i ==> spec_row_fits(#[trigger] vs[j], sch),
        decreases items.len() - i,
    {
        match &items[i] {
            Value::ArrayHash(pairs) => {
                proof {
                    lemma_view_pairs(pairs@);
                }
                assert(vs[i as int] == Val::Hash(view_pairs(pairs@)));
                if pairs.len() != schema.len() {
                    assert(!spec_row_fits(vs[i as int], sch)) by {
                        assert(spec_keys_of(view_pairs(pairs@)).len() != sch.len());
                    }
                    assert(vs[0] == Val::Hash(view_pairs(first@)));
                    return None;
                }
                let mut c: usize = 0;
                while c < pairs.len()
                    invariant
                        c <= pairs.len(),
                        pairs.len() == schema.len(),
                        keys_view(schema@) == sch,
                        view_pairs(pairs@).len() == pairs@.len(),
                        forall|j: int| 0 <= j < pairs@.len() ==> #[trigger] view_pairs(pairs@)[j] == (pairs@[j].0@, pairs@[j].1@),
                        forall|j: int| 0 <= j < c ==> #[trigger] spec_keys_of(view_pairs(pairs@))[j] == sch[j],
                    decreases pairs.len() - c,
                {
                    if !key_eq(&pairs[c].0, &schema[c]) {
                        assert(spec_keys_of(view_pairs(pairs@))[c as int] != sch[c as int]);
                        assert(!spec_row_fits(vs[i as int], sch));
                        assert(vs[0] == Val::Hash(view_pairs(first@)));
                        return None;
                    }
                    c = c + 1;
                }
                assert(spec_keys_of(view_pairs(pairs@)) =~= sch);
            },
            _ => {
                assert(!spec_row_fits(vs[i as int], sch));
                assert(vs[0] == Val::Hash(view_pairs(first@)));
                return None;
            },
        }
        i = i + 1;
    }
    Some(schema)
}

/// Encode `value` into a complete document with the default flags (dedup on, no checksum).
pub fn encode(value: &Value) -> (r: Result<Vec<u8>>)
    ensures
        r matches Ok(b) && b@ == spec_encode(value@, FLAG_STRDEDUP),
{
    assert(FLAG_STRDEDUP & 0xFCu8 == 0) by (bit_vector);
    encode_with(value, &EncodeOptions::default())
}

/// Encode `value` with explicit flags; fails with `UnknownFlags` when a reserved bit is set.
pub fn encode_with(value: &Value, opts: &EncodeOptions) -> (r: Result<Vec<u8>>)
    ensures
        r is Ok <==> spec_flags_valid(opts.flags),
        r is Err ==> r == Err::<Vec<u8>, Error>(Error::UnknownFlags),
        r matches Ok(b) ==> b@ == spec_encode(value@, opts.flags),
{
    let mut enc = Encoder::new(opts.flags)?;
    enc.write_value(value);
    Ok(enc.finish())
}

} // verus!
