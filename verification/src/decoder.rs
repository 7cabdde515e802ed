//! PFBinary decoder: bytes to host callbacks, without an intermediate tree.

use vstd::prelude::*;
use crate::error::{Error, Result, spec_header_error};
use crate::header::{FLAG_STRDEDUP, parse_header, spec_has_strdedup, spec_parse_header};
use crate::host::{ArrayKey, Host, HostErrors, Scalar, elements, hash_push, packed_push, spec_logged};
use crate::parse::{
    DecodeCfg, PState, p_array_hash, p_array_packed, p_array_repeat, p_array_rows, p_byte,
    p_charge, p_count_ok, p_enter, p_items, p_ivarint, p_key, p_keys, p_longs, p_moved, p_pairs,
    p_packed_longs, p_remaining, p_row_values, p_rows, p_str_ref, p_str_varint, p_string_tag, p_take, p_uvarint,
    p_value, spec_u64_le, spec_decode, spec_effective_max_depth, spec_effective_max_size, p_start,
    spec_decode_strings, spec_decode_cfg,
};
use crate::string_table::DecodeStringTable;
use crate::tags::{
    TAG_ARRAY_HASH, TAG_ARRAY_PACKED, TAG_ARRAY_REPEAT, TAG_ARRAY_ROWS, TAG_DOUBLE, TAG_FALSE,
    TAG_NULL, TAG_PACKED_LONGS, TAG_STR_EMPTY, TAG_STR_REF, TAG_STR_VARINT, TAG_TRUE, TAG_VARINT,
    is_v1_key_tag,
};
use crate::value::{KeyV, Val};
use crate::varint::{read_ivarint, read_uvarint};

verus! {

/// Default nesting limit.
pub const DEFAULT_MAX_DEPTH: u32 = 100;
/// Default limit on payload size and on string bytes materialized.
pub const DEFAULT_MAX_SIZE: usize = 10485760;

/// Decoder limits.
pub struct DecodeOptions {
    pub max_depth: u32,
    pub max_size: usize,
    /// Reject trailing bytes after the top-level value (default true).
    pub strict_trailing: bool,
}

impl Default for DecodeOptions {
    fn default() -> (r: Self)
        ensures
            r.max_depth == DEFAULT_MAX_DEPTH,
            r.max_size == DEFAULT_MAX_SIZE,
            r.strict_trailing,
    {
        DecodeOptions {
            max_depth: DEFAULT_MAX_DEPTH,
            max_size: DEFAULT_MAX_SIZE,
            strict_trailing: true,
        }
    }
}

/// A read position in a byte slice.
struct Cursor<'a> {
    data: &'a [u8],
    pos: usize,
}

impl<'a> Cursor<'a> {
    fn new(data: &'a [u8]) -> (r: Self)
        ensures
            r.data@ == data@,
            r.pos == 0,
    {
        Cursor { data, pos: 0 }
    }

    fn remaining(&self) -> (r: usize)
        ensures
            r == p_remaining(self.data@, PState { pos: self.pos as nat, strings: Seq::empty(), depth: 0, used: 0 }),
    {
        self.data.len().saturating_sub(self.pos)
    }

    fn take(&mut self, n: usize) -> (r: Result<&'a [u8]>)
        requires
            old(self).pos <= old(self).data@.len(),
        ensures
            final(self).data == old(self).data,
            final(self).pos <= final(self).data@.len(),
            match r {
                Ok(s) => old(self).pos + n <= old(self).data@.len() && s@ == old(self).data@.subrange(
                    old(self).pos as int,
                    old(self).pos + n,
                ) && final(self).pos == old(self).pos + n,
                Err(e) => e == Error::Truncated && old(self).pos + n > old(self).data@.len()
                    && final(self).pos == old(self).pos,
            },
    {
        if self.remaining() < n {
            return Err(Error::Truncated);
        }
        assert(self.data@.len() == self.data.len());
        let s = &self.data[self.pos..self.pos + n];
        self.pos = self.pos + n;
        Ok(s)
    }

    fn u8(&mut self) -> (r: Result<u8>)
        requires
            old(self).pos <= old(self).data@.len(),
        ensures
            final(self).data == old(self).data,
            final(self).pos <= final(self).data@.len(),
            match r {
                Ok(b) => old(self).pos < old(self).data@.len() && b == old(self).data@[old(self).pos as int]
                    && final(self).pos == old(self).pos + 1,
                Err(e) => e == Error::Truncated && old(self).pos >= old(self).data@.len()
                    && final(self).pos == old(self).pos,
            },
    {
        let s = self.take(1)?;
        Ok(s[0])
    }

    fn rest(&self) -> (r: &'a [u8])
        requires
            self.pos <= self.data@.len(),
        ensures
            r@ == self.data@.skip(self.pos as int),
    {
        &self.data[self.pos..self.data.len()]
    }

    fn advance(&mut self, n: usize)
        requires
            old(self).pos + n <= old(self).data@.len(),
        ensures
            final(self).data == old(self).data,
            final(self).pos == old(self).pos + n,
    {
        assert(self.data@.len() == self.data.len());
        self.pos = self.pos + n;
    }
}

/// `pre` followed by the values of a partial result.
spec fn prepend_vals(pre: Seq<Val>, r: Result<(Seq<Val>, PState)>) -> Result<(Seq<Val>, PState)> {
    match r {
        Ok((vs, s)) => Ok((pre + vs, s)),
        Err(e) => Err(e),
    }
}

/// `pre` followed by the pairs of a partial result.
spec fn prepend_pairs(pre: Seq<(KeyV, Val)>, r: Result<(Seq<(KeyV, Val)>, PState)>) -> Result<
    (Seq<(KeyV, Val)>, PState),
> {
    match r {
        Ok((ps, s)) => Ok((pre + ps, s)),
        Err(e) => Err(e),
    }
}

/// A decoded key, held until the value under it is decoded.
enum ArrayKeyOwned {
    Int(i64),
    Empty,
    StringId(u32),
}

/// The model of a held key.
spec fn owned_key_model(strings: Seq<Seq<u8>>, k: ArrayKeyOwned) -> KeyV {
    match k {
        ArrayKeyOwned::Int(i) => KeyV::Int(i),
        ArrayKeyOwned::Empty => KeyV::Str(Seq::empty()),
        ArrayKeyOwned::StringId(id) => KeyV::Str(strings[id as int]),
    }
}

/// A held key names a defined string, if any.
spec fn owned_key_ok(strings: Seq<Seq<u8>>, k: ArrayKeyOwned) -> bool {
    match k {
        ArrayKeyOwned::StringId(id) => (id as int) < strings.len(),
        _ => true,
    }
}

struct Decoder<'a> {
    cur: Cursor<'a>,
    strings: DecodeStringTable,
    depth: u32,
    max_depth: u32,
    max_size: usize,
    size_used: usize,
    /// When false, `STR_REF` is rejected (flags bit 1 clear).
    strdedup: bool,
    /// Strings the host had registered before decoding began.
    pre: Ghost<Seq<Seq<u8>>>,
}

impl<'a> Decoder<'a> {
    spec fn data(&self) -> Seq<u8> {
        self.cur.data@
    }

    spec fn st(&self) -> PState {
        PState {
            pos: self.cur.pos as nat,
            strings: self.strings@,
            depth: self.depth as nat,
            used: self.size_used as nat,
        }
    }

    spec fn cfg(&self) -> DecodeCfg {
        DecodeCfg { max_depth: self.max_depth, max_size: self.max_size, dedup: self.strdedup }
    }

    spec fn inv(&self) -> bool {
        &&& self.cur.pos <= self.data().len()
        &&& self.depth <= self.max_depth
        &&& self.size_used <= self.max_size
        &&& self.strings@.len() <= self.cur.pos
    }

    spec fn same(&self, o: &Self) -> bool {
        &&& self.data() == o.data()
        &&& self.cfg() == o.cfg()
        &&& self.pre@ == o.pre@
    }

    spec fn synced<H: Host>(&self, host: &H) -> bool {
        &&& host.interned() == self.pre@ + self.strings@
        &&& (self.strings@.len() > 0 ==> self.pre@.len() == 0)
    }

    /// The strings defined before are still there, under the same ids.
    spec fn kept(&self, o: &Self) -> bool {
        &&& o.strings@.len() <= self.strings@.len()
        &&& forall|i: int| 0 <= i < o.strings@.len() ==> #[trigger] self.strings@[i] == o.strings@[i]
    }

    /// The host started empty and the data is small enough for `u32` string ids.
    spec fn exact(&self) -> bool {
        &&& self.pre@.len() == 0
        &&& self.data().len() <= u32::MAX
    }

    fn charge(&mut self, n: usize) -> (r: Result<()>)
        requires
            old(self).inv(),
        ensures
            final(self).same(old(self)),
            final(self).cur.pos == old(self).cur.pos,
            final(self).strings@ == old(self).strings@,
            final(self).depth == old(self).depth,
            match r {
                Ok(()) => p_charge(old(self).cfg(), old(self).st(), n as nat) == Ok::<PState, Error>(final(self).st())
                    && final(self).inv(),
                Err(e) => p_charge(old(self).cfg(), old(self).st(), n as nat) == Err::<PState, Error>(e),
            },
    {
        self.size_used = match self.size_used.checked_add(n) {
            Some(u) => u,
            None => {
                return Err(Error::Overflow);
            },
        };
        if self.size_used > self.max_size {
            return Err(Error::MaxSize);
        }
        Ok(())
    }

    fn read_uvarint(&mut self) -> (r: Result<u64>)
        requires
            old(self).inv(),
        ensures
            final(self).same(old(self)),
            final(self).strings@ == old(self).strings@,
            final(self).depth == old(self).depth,
            final(self).size_used == old(self).size_used,
            match r {
                Ok(v) => p_uvarint(old(self).data(), old(self).st()) == Ok::<(u64, PState), Error>((v, final(self).st()))
                    && final(self).inv() && final(self).cur.pos > old(self).cur.pos,
                Err(e) => p_uvarint(old(self).data(), old(self).st()) == Err::<(u64, PState), Error>(e),
            },
    {
        let rest = self.cur.rest();
        let (v, n) = read_uvarint(rest)?;
        proof {
            crate::varint::lemma_read_uvarint_len(rest@);
        }
        self.cur.advance(n);
        Ok(v)
    }

    fn read_ivarint(&mut self) -> (r: Result<i64>)
        requires
            old(self).inv(),
        ensures
            final(self).same(old(self)),
            final(self).strings@ == old(self).strings@,
            final(self).depth == old(self).depth,
            final(self).size_used == old(self).size_used,
            match r {
                Ok(v) => p_ivarint(old(self).data(), old(self).st()) == Ok::<(i64, PState), Error>((v, final(self).st()))
                    && final(self).inv() && final(self).cur.pos > old(self).cur.pos,
                Err(e) => p_ivarint(old(self).data(), old(self).st()) == Err::<(i64, PState), Error>(e),
            },
    {
        let rest = self.cur.rest();
        let (v, n) = read_ivarint(rest)?;
        proof {
            crate::varint::lemma_read_uvarint_len(rest@);
        }
        self.cur.advance(n);
        Ok(v)
    }


    fn enter_depth(&mut self) -> (r: Result<()>)
        requires
            old(self).inv(),
        ensures
            final(self).same(old(self)),
            final(self).cur.pos == old(self).cur.pos,
            final(self).strings@ == old(self).strings@,
            final(self).size_used == old(self).size_used,
            match r {
                Ok(()) => p_enter(old(self).cfg(), old(self).st()) == Ok::<PState, Error>(final(self).st())
                    && final(self).inv(),
                Err(e) => p_enter(old(self).cfg(), old(self).st()) == Err::<PState, Error>(e),
            },
    {
        self.depth = match self.depth.checked_add(1) {
            Some(d) => d,
            None => {
                return Err(Error::MaxDepth);
            },
        };
        if self.depth > self.max_depth {
            return Err(Error::MaxDepth);
        }
        Ok(())
    }

    fn leave_depth(&mut self)
        requires
            old(self).depth > 0,
        ensures
            final(self).same(old(self)),
            final(self).cur == old(self).cur,
            final(self).strings@ == old(self).strings@,
            final(self).size_used == old(self).size_used,
            final(self).depth == old(self).depth - 1,
    {
        self.depth = self.depth - 1;
    }

    /// Reject counts beyond `u32` or beyond what the bytes left can hold.
    fn check_array_count(&self, count64: u64, min_bytes_per_elem: u64) -> (r: Result<u32>)
        requires
            self.inv(),
            min_bytes_per_elem <= 2,
        ensures
            r == p_count_ok(self.data(), self.st(), count64, min_bytes_per_elem as nat),
    {
        if count64 > u32::MAX as u64 {
            return Err(Error::Overflow);
        }
        assert(count64 * min_bytes_per_elem <= 2 * 0xffff_ffffu64) by (nonlinear_arith)
            requires
                count64 <= 0xffff_ffffu64,
                min_bytes_per_elem <= 2,
        ;
        let need = count64 * min_bytes_per_elem;
        if need > self.cur.remaining() as u64 {
            return Err(Error::Overflow);
        }
        Ok(count64 as u32)
    }

    /// The 8 little-endian bytes of a `DOUBLE`, as a bit pattern.
    fn read_f64(&mut self) -> (r: Result<u64>)
        requires
            old(self).inv(),
        ensures
            final(self).same(old(self)),
            final(self).strings@ == old(self).strings@,
            final(self).depth == old(self).depth,
            final(self).size_used == old(self).size_used,
            match r {
                Ok(bits) => p_take(old(self).data(), old(self).st(), 8) matches Ok((b, st1)) && bits
                    == spec_u64_le(b) && st1 == final(self).st() && final(self).inv()
                    && final(self).cur.pos > old(self).cur.pos,
                Err(e) => p_take(old(self).data(), old(self).st(), 8) == Err::<(Seq<u8>, PState), Error>(e),
            },
    {
        let raw = self.cur.take(8)?;
        let bits = (raw[0] as u64) | ((raw[1] as u64) << 8u64) | ((raw[2] as u64) << 16u64) | ((
        raw[3] as u64) << 24u64) | ((raw[4] as u64) << 32u64) | ((raw[5] as u64) << 40u64) | ((
        raw[6] as u64) << 48u64) | ((raw[7] as u64) << 56u64);
        Ok(bits)
    }

    /// First definition of a string: register it with the host and in the local table.
    fn define_string<H: Host>(&mut self, host: &mut H, bytes: &'a [u8]) -> (r: Result<u32>)
        requires
            old(self).inv(),
            old(self).synced(old(host)),
            old(self).strings@.len() < old(self).cur.pos,
        ensures
            spec_logged(old(host).failures(), final(host).failures(), r),
            final(self).same(old(self)),
            final(self).cur == old(self).cur,
            final(self).depth == old(self).depth,
            final(self).size_used == old(self).size_used,
            r is Ok ==> final(self).strings@ == old(self).strings@.push(bytes@),
            r matches Ok(id) ==> id as int == old(self).strings@.len(),
            r is Ok ==> final(self).inv() && final(self).synced(final(host)),
            !H::fallible() && old(self).exact() ==> r is Ok,
    {
        let id = self.strings.len() as u32;
        host.intern_string(id, bytes)?;
        let v = crate::value::copy_bytes(bytes);
        self.strings.push(v);
        proof {
            assert(host.interned() =~= self.pre@ + self.strings@);
        }
        Ok(id)
    }

    /// The body of a `STR_VARINT`: read, charge, define. Returns the new id.
    fn read_str_varint_define<H: Host>(&mut self, host: &mut H) -> (r: Result<u32>)
        requires
            old(self).inv(),
            old(self).synced(old(host)),
            old(self).strings@.len() < old(self).cur.pos,
        ensures
            spec_passed_on(old(host).failures(), final(host).failures(), r),
            !H::fallible() && old(self).exact() ==> final(host).failures() == old(host).failures(),
            final(self).same(old(self)),
            final(self).depth == old(self).depth,
            r matches Ok(id) ==> id as int == old(self).strings@.len() && p_str_varint(
                old(self).data(),
                old(self).cfg(),
                old(self).st(),
            ) == Ok::<(Seq<u8>, PState), Error>((final(self).strings@[id as int], final(self).st())),
            r is Ok ==> final(self).inv() && final(self).synced(final(host)) && final(self).cur.pos > old(self).cur.pos,
            p_str_varint(old(self).data(), old(self).cfg(), old(self).st()) is Err ==> r is Err,
            final(host).failures() == old(host).failures() ==> (r matches Err(e) ==> p_str_varint(
                old(self).data(),
                old(self).cfg(),
                old(self).st(),
            ) == Err::<(Seq<u8>, PState), Error>(e)),
    {
        let len = self.read_uvarint()?;
        if len > self.cur.remaining() as u64 {
            return Err(Error::Overflow);
        }
        let len = len as usize;
        self.charge(len)?;
        let bytes = self.cur.take(len)?;
        let id = self.define_string(host, bytes)?;
        Ok(id)
    }

    /// The body of a `STR_REF`: check and charge the id. Without dedup the tag is unknown.
    fn read_str_ref_id(&mut self) -> (r: Result<u32>)
        requires
            old(self).inv(),
        ensures
            final(self).same(old(self)),
            final(self).strings@ == old(self).strings@,
            final(self).depth == old(self).depth,
            match r {
                Ok(id) => p_str_ref(old(self).data(), old(self).cfg(), old(self).st(), Error::UnknownTag)
                    == Ok::<(nat, PState), Error>((id as nat, final(self).st())) && final(self).inv()
                    && final(self).cur.pos > old(self).cur.pos,
                Err(e) => p_str_ref(old(self).data(), old(self).cfg(), old(self).st(), Error::UnknownTag)
                    == Err::<(nat, PState), Error>(e),
            },
    {
        if !self.strdedup {
            return Err(Error::UnknownTag);
        }
        let id = self.read_uvarint()?;
        if id > u32::MAX as u64 {
            return Err(Error::BadStrRef);
        }
        let id = id as u32;
        let len = match self.strings.get(id) {
            Some(s) => s.len(),
            None => {
                return Err(Error::BadStrRef);
            },
        };
        self.charge(len)?;
        Ok(id)
    }

    /// A string value given its tag.
    fn decode_string_tag<H: Host>(&mut self, host: &mut H, tag: u8) -> (r: Result<H::Value>)
        requires
            old(self).inv(),
            old(self).synced(old(host)),
            old(self).strings@.len() < old(self).cur.pos,
        ensures
            spec_passed_on(old(host).failures(), final(host).failures(), r),
            !H::fallible() && old(self).exact() ==> final(host).failures() == old(host).failures(),
            final(self).same(old(self)),
            r matches Ok(v) ==> p_string_tag(old(self).data(), old(self).cfg(), old(self).st(), tag)
                == Ok::<(Val, PState), Error>((H::model(&v), final(self).st())) && final(self).inv()
                && final(self).synced(final(host)) && final(self).cur.pos >= old(self).cur.pos,
            final(host).failures() == old(host).failures() ==> (r matches Err(e) ==> p_string_tag(
                old(self).data(),
                old(self).cfg(),
                old(self).st(),
                tag,
            ) == Err::<(Val, PState), Error>(e)),
    {
        match tag {
            TAG_STR_EMPTY => {
                let e: [u8; 0] = [];
                let r = host.make_string(&e);
                assert(e@ =~= Seq::<u8>::empty());
                r
            },
            TAG_STR_VARINT => {
                let id = self.read_str_varint_define(host)?;
                host.make_string_id(id)
            },
            TAG_STR_REF => {
                let id = self.read_str_ref_id()?;
                host.make_string_id(id)
            },
            _ => Err(Error::UnknownTag),
        }
    }

    /// An array key.
    fn read_key_owned<H: Host>(&mut self, host: &mut H) -> (r: Result<ArrayKeyOwned>)
        requires
            old(self).inv(),
            old(self).synced(old(host)),
        ensures
            spec_passed_on(old(host).failures(), final(host).failures(), r),
            !H::fallible() && old(self).exact() ==> final(host).failures() == old(host).failures(),
            final(self).same(old(self)),
            final(self).depth == old(self).depth,
            r matches Ok(k) ==> p_key(old(self).data(), old(self).cfg(), old(self).st())
                == Ok::<(KeyV, PState), Error>((owned_key_model(final(self).strings@, k), final(self).st()))
                && owned_key_ok(final(self).strings@, k)
                && final(self).inv() && final(self).synced(final(host)) && final(self).cur.pos > old(self).cur.pos,
            final(host).failures() == old(host).failures() ==> (r matches Err(e) ==> p_key(
                old(self).data(),
                old(self).cfg(),
                old(self).st(),
            ) == Err::<(KeyV, PState), Error>(e)),
    {
        let tag = self.cur.u8()?;
        if !is_v1_key_tag(tag) {
            return Err(Error::BadKey);
        }
        match tag {
            TAG_VARINT => Ok(ArrayKeyOwned::Int(self.read_ivarint()?)),
            TAG_STR_EMPTY => Ok(ArrayKeyOwned::Empty),
            TAG_STR_VARINT => {
                let len = self.read_uvarint()?;
                if len > self.cur.remaining() as u64 {
                    return Err(Error::Overflow);
                }
                let len = len as usize;
                self.charge(len)?;
                let bytes = self.cur.take(len)?;
                let id = self.define_string(host, bytes)?;
                Ok(ArrayKeyOwned::StringId(id))
            },
            TAG_STR_REF => {
                if !self.strdedup {
                    return Err(Error::BadKey);
                }
                let id = self.read_uvarint()?;
                if id > u32::MAX as u64 {
                    return Err(Error::BadStrRef);
                }
                let id = id as u32;
                let len = match self.strings.get(id) {
                    Some(s) => s.len(),
                    None => {
                        return Err(Error::BadStrRef);
                    },
                };
                self.charge(len)?;
                Ok(ArrayKeyOwned::StringId(id))
            },
            _ => Err(Error::BadKey),
        }
    }

    /// One tagged value.
    fn decode_value<H: Host>(&mut self, host: &mut H) -> (r: Result<H::Value>)
        requires
            old(self).inv(),
            old(self).synced(old(host)),
        ensures
            spec_passed_on(old(host).failures(), final(host).failures(), r),
            !H::fallible() && old(self).exact() ==> final(host).failures() == old(host).failures(),
            final(self).same(old(self)),
            r matches Ok(v) ==> p_value(old(self).data(), old(self).cfg(), old(self).st())
                == Ok::<(Val, PState), Error>((H::model(&v), final(self).st())) && final(self).inv()
                && final(self).synced(final(host)) && final(self).cur.pos > old(self).cur.pos
                && final(self).kept(old(self)),
            final(host).failures() == old(host).failures() ==> (r matches Err(e) ==> p_value(
                old(self).data(),
                old(self).cfg(),
                old(self).st(),
            ) == Err::<(Val, PState), Error>(e)),
        decreases old(self).data().len() - old(self).cur.pos, 0nat,
    {
        let tag = self.cur.u8()?;
        match tag {
            TAG_NULL => host.make_null(),
            TAG_FALSE => host.make_bool(false),
            TAG_TRUE => host.make_bool(true),
            TAG_VARINT => {
                let n = self.read_ivarint()?;
                host.make_i64(n)
            },
            TAG_DOUBLE => {
                let bits = self.read_f64()?;
                host.make_f64(bits)
            },
            TAG_STR_EMPTY | TAG_STR_VARINT | TAG_STR_REF => self.decode_string_tag(host, tag),
            TAG_ARRAY_PACKED => self.decode_array_packed(host),
            TAG_ARRAY_HASH => self.decode_array_hash(host),
            TAG_PACKED_LONGS => self.decode_packed_longs(host),
            TAG_ARRAY_ROWS => self.decode_array_rows(host),
            TAG_ARRAY_REPEAT => self.decode_array_repeat(host),
            _ => Err(Error::UnknownTag),
        }
    }

    /// One tagged value, pushed onto a packed array (scalars written directly).
    fn decode_into_packed<H: Host>(&mut self, host: &mut H, arr: &mut H::ArrayState) -> (r: Result<()>)
        requires
            old(self).inv(),
            old(self).synced(old(host)),
            H::array_model(old(arr)) is Packed,
        ensures
            spec_passed_on(old(host).failures(), final(host).failures(), r),
            H::declared(final(arr)) == H::declared(old(arr)),
            !H::fallible() && old(self).exact() ==> final(host).failures() == old(host).failures(),
            final(self).same(old(self)),
            r is Ok ==> (p_value(old(self).data(), old(self).cfg(), old(self).st()) matches Ok((v, st1))
                && st1 == final(self).st() && H::array_model(final(arr)) == packed_push(H::array_model(old(arr)), v))
                && final(self).inv() && final(self).synced(final(host)) && final(self).cur.pos > old(self).cur.pos
                && final(self).kept(old(self)),
            final(host).failures() == old(host).failures() ==> (r matches Err(e) ==> p_value(
                old(self).data(),
                old(self).cfg(),
                old(self).st(),
            ) == Err::<(Val, PState), Error>(e)),
        decreases old(self).data().len() - old(self).cur.pos, 1nat,
    {
        let tag = self.cur.u8()?;
        match tag {
            TAG_NULL => host.push_scalar(arr, Scalar::Null),
            TAG_FALSE => host.push_scalar(arr, Scalar::Bool(false)),
            TAG_TRUE => host.push_scalar(arr, Scalar::Bool(true)),
            TAG_VARINT => {
                let n = self.read_ivarint()?;
                host.push_scalar(arr, Scalar::I64(n))
            },
            TAG_DOUBLE => {
                let f = self.read_f64()?;
                host.push_scalar(arr, Scalar::F64(f))
            },
            TAG_STR_EMPTY => {
                let e: [u8; 0] = [];
                assert(e@ =~= Seq::<u8>::empty());
                host.push_scalar(arr, Scalar::String(&e))
            },
            TAG_STR_VARINT => {
                let id = self.read_str_varint_define(host)?;
                host.push_scalar(arr, Scalar::StringId(id))
            },
            TAG_STR_REF => {
                let id = self.read_str_ref_id()?;
                host.push_scalar(arr, Scalar::StringId(id))
            },
            TAG_ARRAY_PACKED => {
                let v = self.decode_array_packed(host)?;
                host.push_packed(arr, v)
            },
            TAG_ARRAY_HASH => {
                let v = self.decode_array_hash(host)?;
                host.push_packed(arr, v)
            },
            TAG_PACKED_LONGS => {
                let v = self.decode_packed_longs(host)?;
                host.push_packed(arr, v)
            },
            TAG_ARRAY_ROWS => {
                let v = self.decode_array_rows(host)?;
                host.push_packed(arr, v)
            },
            TAG_ARRAY_REPEAT => {
                let v = self.decode_array_repeat(host)?;
                host.push_packed(arr, v)
            },
            _ => Err(Error::UnknownTag),
        }
    }

    /// One tagged value, inserted into a hash array under `key`.
    fn decode_into_hash<H: Host>(&mut self, host: &mut H, arr: &mut H::ArrayState, key: &ArrayKeyOwned) -> (r: Result<()>)
        requires
            old(self).inv(),
            old(self).synced(old(host)),
            H::array_model(old(arr)) is Hash,
            owned_key_ok(old(self).strings@, *key),
        ensures
            spec_passed_on(old(host).failures(), final(host).failures(), r),
            H::declared(final(arr)) == H::declared(old(arr)),
            !H::fallible() && old(self).exact() ==> final(host).failures() == old(host).failures(),
            final(self).same(old(self)),
            r is Ok ==> (p_value(old(self).data(), old(self).cfg(), old(self).st()) matches Ok((v, st1))
                && st1 == final(self).st() && H::array_model(final(arr)) == hash_push(
                    H::array_model(old(arr)),
                    owned_key_model(old(self).strings@, *key),
                    v,
                ))
                && final(self).inv() && final(self).synced(final(host)) && final(self).cur.pos > old(self).cur.pos
                && final(self).kept(old(self)),
            final(host).failures() == old(host).failures() ==> (r matches Err(e) ==> p_value(
                old(self).data(),
                old(self).cfg(),
                old(self).st(),
            ) == Err::<(Val, PState), Error>(e)),
        decreases old(self).data().len() - old(self).cur.pos, 1nat,
    {
        let e: [u8; 0] = [];
        assert(e@ =~= Seq::<u8>::empty());
        let key_ref = match key {
            ArrayKeyOwned::Int(i) => ArrayKey::Int(*i),
            ArrayKeyOwned::Empty => ArrayKey::String(&e),
            ArrayKeyOwned::StringId(id) => ArrayKey::StringId(*id),
        };
        let tag = self.cur.u8()?;
        match tag {
            TAG_NULL => host.insert_scalar(arr, key_ref, Scalar::Null),
            TAG_FALSE => host.insert_scalar(arr, key_ref, Scalar::Bool(false)),
            TAG_TRUE => host.insert_scalar(arr, key_ref, Scalar::Bool(true)),
            TAG_VARINT => {
                let n = self.read_ivarint()?;
                host.insert_scalar(arr, key_ref, Scalar::I64(n))
            },
            TAG_DOUBLE => {
                let f = self.read_f64()?;
                host.insert_scalar(arr, key_ref, Scalar::F64(f))
            },
            TAG_STR_EMPTY => host.insert_scalar(arr, key_ref, Scalar::String(&e)),
            TAG_STR_VARINT => {
                let id = self.read_str_varint_define(host)?;
                host.insert_scalar(arr, key_ref, Scalar::StringId(id))
            },
            TAG_STR_REF => {
                let id = self.read_str_ref_id()?;
                host.insert_scalar(arr, key_ref, Scalar::StringId(id))
            },
            TAG_ARRAY_PACKED => {
                let v = self.decode_array_packed(host)?;
                host.insert_key(arr, key_ref, v)
            },
            TAG_ARRAY_HASH => {
                let v = self.decode_array_hash(host)?;
                host.insert_key(arr, key_ref, v)
            },
            TAG_PACKED_LONGS => {
                let v = self.decode_packed_longs(host)?;
                host.insert_key(arr, key_ref, v)
            },
            TAG_ARRAY_ROWS => {
                let v = self.decode_array_rows(host)?;
                host.insert_key(arr, key_ref, v)
            },
            TAG_ARRAY_REPEAT => {
                let v = self.decode_array_repeat(host)?;
                host.insert_key(arr, key_ref, v)
            },
            _ => Err(Error::UnknownTag),
        }
    }


    /// Decode `count` tagged values onto a packed array.
    fn decode_items_into<H: Host>(&mut self, host: &mut H, arr: &mut H::ArrayState, count: u32) -> (r: Result<()>)
        requires
            old(self).inv(),
            old(self).synced(old(host)),
            H::array_model(old(arr)) is Packed,
        ensures
            spec_passed_on(old(host).failures(), final(host).failures(), r),
            H::declared(final(arr)) == H::declared(old(arr)),
            !H::fallible() && old(self).exact() ==> final(host).failures() == old(host).failures(),
            final(self).same(old(self)),
            r is Ok ==> final(self).depth == old(self).depth,
            r is Ok ==> elements(H::array_model(final(arr))) == elements(H::array_model(old(arr))) + count,
            r is Ok ==> (p_items(old(self).data(), old(self).cfg(), old(self).st(), count as nat) matches Ok((vs, s))
                && s == final(self).st() && H::array_model(final(arr)) == Val::Packed(H::array_model(old(arr))->Packed_0 + vs))
                && final(self).inv() && final(self).synced(final(host)) && final(self).cur.pos >= old(self).cur.pos
                && final(self).kept(old(self)),
            final(host).failures() == old(host).failures() ==> (r matches Err(e) ==> p_items(
                old(self).data(),
                old(self).cfg(),
                old(self).st(),
                count as nat,
            ) == Err::<(Seq<Val>, PState), Error>(e)),
        decreases old(self).data().len() - old(self).cur.pos, 2nat,
    {
        let ghost s_in = *self;
        let ghost am0 = H::array_model(arr)->Packed_0;
        let ghost mut added: Seq<Val> = Seq::empty();
        assert(am0 + added =~= am0);
        let mut i: u32 = 0;
        while i < count
            invariant
                host.failures() == old(host).failures(),
                H::declared(arr) == H::declared(old(arr)),
                added.len() == i,
                i <= count,
                self.inv(),
                self.synced(host),
                self.same(&s_in),
                self.kept(&s_in),
                s_in == *old(self),
                self.depth == s_in.depth,
                self.cur.pos >= s_in.cur.pos,
                H::array_model(arr) == Val::Packed(am0 + added),
                p_items(s_in.data(), s_in.cfg(), s_in.st(), count as nat) == prepend_vals(
                    added,
                    p_items(s_in.data(), s_in.cfg(), self.st(), (count - i) as nat),
                ),
            decreases count - i,
        {
            let ghost sti = self.st();
            let ghost si = *self;
            let rr = self.decode_into_packed(host, arr);
            match rr {
                Ok(()) => {},
                Err(e) => {
                    return Err(e);
                },
            }
            proof {
                let v = H::array_model(arr)->Packed_0.last();
                assert(H::array_model(arr)->Packed_0 =~= (am0 + added).push(v));
                let m = (count - i) as nat;
                assert(p_items(s_in.data(), s_in.cfg(), sti, m) == prepend_vals(
                    seq![v],
                    p_items(s_in.data(), s_in.cfg(), self.st(), (m - 1) as nat),
                ));
                match p_items(s_in.data(), s_in.cfg(), self.st(), (m - 1) as nat) {
                    Ok((vs, s)) => {
                        assert(added + (seq![v] + vs) =~= added.push(v) + vs);
                    },
                    Err(_) => {},
                }
                added = added.push(v);
                assert(am0 + added =~= (am0 + added.drop_last()).push(v));
            }
            i = i + 1;
        }
        assert(added + Seq::<Val>::empty() =~= added);
        Ok(())
    }

    /// `ARRAY_PACKED` after its tag.
    fn decode_array_packed<H: Host>(&mut self, host: &mut H) -> (r: Result<H::Value>)
        requires
            old(self).inv(),
            old(self).synced(old(host)),
        ensures
            spec_passed_on(old(host).failures(), final(host).failures(), r),
            !H::fallible() && old(self).exact() ==> final(host).failures() == old(host).failures(),
            final(self).same(old(self)),
            r matches Ok(v) ==> p_array_packed(old(self).data(), old(self).cfg(), old(self).st())
                == Ok::<(Val, PState), Error>((H::model(&v), final(self).st())) && final(self).inv()
                && final(self).synced(final(host)) && final(self).cur.pos > old(self).cur.pos
                && final(self).kept(old(self)),
            final(host).failures() == old(host).failures() ==> (r matches Err(e) ==> p_array_packed(old(self).data(), old(self).cfg(), old(self).st())
                == Err::<(Val, PState), Error>(e)),
        decreases old(self).data().len() - old(self).cur.pos, 5nat,
    {
        let count64 = self.read_uvarint()?;
        let count = self.check_array_count(count64, 1)?;
        self.enter_depth()?;
        let mut arr = host.begin_array(true, count)?;
        self.decode_items_into(host, &mut arr, count)?;
        assert(Seq::<Val>::empty() + H::array_model(&arr)->Packed_0 =~= H::array_model(&arr)->Packed_0);
        self.leave_depth();
        host.end_array(arr)
    }

    /// Decode `count` key / value pairs into a hash array.
    fn decode_pairs_into<H: Host>(&mut self, host: &mut H, arr: &mut H::ArrayState, count: u32) -> (r: Result<()>)
        requires
            old(self).inv(),
            old(self).synced(old(host)),
            H::array_model(old(arr)) is Hash,
        ensures
            spec_passed_on(old(host).failures(), final(host).failures(), r),
            H::declared(final(arr)) == H::declared(old(arr)),
            !H::fallible() && old(self).exact() ==> final(host).failures() == old(host).failures(),
            final(self).same(old(self)),
            r is Ok ==> final(self).depth == old(self).depth,
            r is Ok ==> elements(H::array_model(final(arr))) == elements(H::array_model(old(arr))) + count,
            r is Ok ==> (p_pairs(old(self).data(), old(self).cfg(), old(self).st(), count as nat) matches Ok((ps, s))
                && s == final(self).st() && H::array_model(final(arr)) == Val::Hash(H::array_model(old(arr))->Hash_0 + ps))
                && final(self).inv() && final(self).synced(final(host)) && final(self).cur.pos >= old(self).cur.pos
                && final(self).kept(old(self)),
            final(host).failures() == old(host).failures() ==> (r matches Err(e) ==> p_pairs(
                old(self).data(),
                old(self).cfg(),
                old(self).st(),
                count as nat,
            ) == Err::<(Seq<(KeyV, Val)>, PState), Error>(e)),
        decreases old(self).data().len() - old(self).cur.pos, 2nat,
    {
        let ghost s_in = *self;
        let ghost am0 = H::array_model(arr)->Hash_0;
        let ghost mut added: Seq<(KeyV, Val)> = Seq::empty();
        assert(am0 + added =~= am0);
        let mut i: u32 = 0;
        while i < count
            invariant
                host.failures() == old(host).failures(),
                H::declared(arr) == H::declared(old(arr)),
                added.len() == i,
                i <= count,
                self.inv(),
                self.synced(host),
                self.same(&s_in),
                self.kept(&s_in),
                s_in == *old(self),
                self.depth == s_in.depth,
                self.cur.pos >= s_in.cur.pos,
                H::array_model(arr) == Val::Hash(am0 + added),
                p_pairs(s_in.data(), s_in.cfg(), s_in.st(), count as nat) == prepend_pairs(
                    added,
                    p_pairs(s_in.data(), s_in.cfg(), self.st(), (count - i) as nat),
                ),
            decreases count - i,
        {
            let ghost sti = self.st();
            let key = match self.read_key_owned(host) {
                Ok(k) => k,
                Err(e) => {
                    return Err(e);
                },
            };
            let ghost sk = *self;
            let rr = self.decode_into_hash(host, arr, &key);
            match rr {
                Ok(()) => {},
                Err(e) => {
                    return Err(e);
                },
            }
            proof {
                let kv = H::array_model(arr)->Hash_0.last();
                assert(kv.0 == owned_key_model(sk.strings@, key));
                assert(H::array_model(arr)->Hash_0 =~= (am0 + added).push(kv));
                let m = (count - i) as nat;
                assert(p_pairs(s_in.data(), s_in.cfg(), sti, m) == prepend_pairs(
                    seq![kv],
                    p_pairs(s_in.data(), s_in.cfg(), self.st(), (m - 1) as nat),
                ));
                match p_pairs(s_in.data(), s_in.cfg(), self.st(), (m - 1) as nat) {
                    Ok((ps, s)) => {
                        assert(added + (seq![kv] + ps) =~= added.push(kv) + ps);
                    },
                    Err(_) => {},
                }
                added = added.push(kv);
                assert(am0 + added =~= (am0 + added.drop_last()).push(kv));
            }
            i = i + 1;
        }
        assert(added + Seq::<(KeyV, Val)>::empty() =~= added);
        Ok(())
    }

    /// `ARRAY_HASH` after its tag.
    fn decode_array_hash<H: Host>(&mut self, host: &mut H) -> (r: Result<H::Value>)
        requires
            old(self).inv(),
            old(self).synced(old(host)),
        ensures
            spec_passed_on(old(host).failures(), final(host).failures(), r),
            !H::fallible() && old(self).exact() ==> final(host).failures() == old(host).failures(),
            final(self).same(old(self)),
            r matches Ok(v) ==> p_array_hash(old(self).data(), old(self).cfg(), old(self).st())
                == Ok::<(Val, PState), Error>((H::model(&v), final(self).st())) && final(self).inv()
                && final(self).synced(final(host)) && final(self).cur.pos > old(self).cur.pos
                && final(self).kept(old(self)),
            final(host).failures() == old(host).failures() ==> (r matches Err(e) ==> p_array_hash(old(self).data(), old(self).cfg(), old(self).st())
                == Err::<(Val, PState), Error>(e)),
        decreases old(self).data().len() - old(self).cur.pos, 5nat,
    {
        let count64 = self.read_uvarint()?;
        let count = self.check_array_count(count64, 2)?;
        self.enter_depth()?;
        let mut arr = host.begin_array(false, count)?;
        self.decode_pairs_into(host, &mut arr, count)?;
        assert(Seq::<(KeyV, Val)>::empty() + H::array_model(&arr)->Hash_0 =~= H::array_model(&arr)->Hash_0);
        self.leave_depth();
        host.end_array(arr)
    }

    /// Read `count` zigzag varints.
    fn read_longs(&mut self, count: u32) -> (r: Result<Vec<i64>>)
        requires
            old(self).inv(),
        ensures
            final(self).same(old(self)),
            final(self).strings@ == old(self).strings@,
            final(self).depth == old(self).depth,
            match r {
                Ok(vals) => p_longs(old(self).data(), old(self).st(), count as nat) == Ok::<(Seq<Val>, PState), Error>(
                    (Seq::new(count as nat, |j: int| Val::Int(vals@[j])), final(self).st()),
                ) && vals@.len() == count && final(self).inv() && final(self).cur.pos >= old(self).cur.pos,
                Err(e) => p_longs(old(self).data(), old(self).st(), count as nat) == Err::<(Seq<Val>, PState), Error>(e),
            },
    {
        let ghost s_in = *self;
        let mut vals: Vec<i64> = Vec::with_capacity(count as usize);
        assert(Seq::new(0nat, |j: int| Val::Int(vals@[j])) =~= Seq::<Val>::empty());
        let mut i: u32 = 0;
        while i < count
            invariant
                i <= count,
                vals@.len() == i,
                self.inv(),
                self.same(&s_in),
                s_in == *old(self),
                self.strings@ == s_in.strings@,
                self.depth == s_in.depth,
                self.cur.pos >= s_in.cur.pos,
                p_longs(s_in.data(), s_in.st(), i as nat) == Ok::<(Seq<Val>, PState), Error>(
                    (Seq::new(i as nat, |j: int| Val::Int(vals@[j])), self.st()),
                ),
            decreases count - i,
        {
            let v = match self.read_ivarint() {
                Ok(v) => v,
                Err(e) => {
                    proof {
                        lemma_p_longs_err(s_in.data(), s_in.st(), (i + 1) as nat, count as nat);
                    }
                    return Err(e);
                },
            };
            let ghost old_vals = vals@;
            vals.push(v);
            assert(Seq::new((i + 1) as nat, |j: int| Val::Int(vals@[j])) =~= Seq::new(i as nat, |j: int| Val::Int(old_vals[j])).push(Val::Int(v)));
            i = i + 1;
        }
        Ok(vals)
    }

    /// `PACKED_LONGS` after its tag.
    fn decode_packed_longs<H: Host>(&mut self, host: &mut H) -> (r: Result<H::Value>)
        requires
            old(self).inv(),
            old(self).synced(old(host)),
        ensures
            spec_passed_on(old(host).failures(), final(host).failures(), r),
            !H::fallible() && old(self).exact() ==> final(host).failures() == old(host).failures(),
            final(self).same(old(self)),
            r matches Ok(v) ==> p_packed_longs(old(self).data(), old(self).cfg(), old(self).st())
                == Ok::<(Val, PState), Error>((H::model(&v), final(self).st())) && final(self).inv()
                && final(self).synced(final(host)) && final(self).cur.pos > old(self).cur.pos
                && final(self).kept(old(self)),
            final(host).failures() == old(host).failures() ==> (r matches Err(e) ==> p_packed_longs(old(self).data(), old(self).cfg(), old(self).st())
                == Err::<(Val, PState), Error>(e)),
        decreases old(self).data().len() - old(self).cur.pos, 5nat,
    {
        let count64 = self.read_uvarint()?;
        let count = self.check_array_count(count64, 1)?;
        self.enter_depth()?;
        let mut arr = host.begin_array(true, count)?;
        let ghost am0 = H::array_model(&arr);
        let vals = self.read_longs(count)?;
        host.push_i64_run(&mut arr, vals.as_slice())?;
        assert(am0->Packed_0 + Seq::new(vals@.len(), |j: int| Val::Int(vals@[j])) =~= Seq::new(count as nat, |j: int| Val::Int(vals@[j])));
        self.leave_depth();
        host.end_array(arr)
    }

    /// `ARRAY_REPEAT` after its tag.
    fn decode_array_repeat<H: Host>(&mut self, host: &mut H) -> (r: Result<H::Value>)
        requires
            old(self).inv(),
            old(self).synced(old(host)),
        ensures
            spec_passed_on(old(host).failures(), final(host).failures(), r),
            !H::fallible() && old(self).exact() ==> final(host).failures() == old(host).failures(),
            final(self).same(old(self)),
            r matches Ok(v) ==> p_array_repeat(old(self).data(), old(self).cfg(), old(self).st())
                == Ok::<(Val, PState), Error>((H::model(&v), final(self).st())) && final(self).inv()
                && final(self).synced(final(host)) && final(self).cur.pos > old(self).cur.pos
                && final(self).kept(old(self)),
            final(host).failures() == old(host).failures() ==> (r matches Err(e) ==> p_array_repeat(old(self).data(), old(self).cfg(), old(self).st())
                == Err::<(Val, PState), Error>(e)),
        decreases old(self).data().len() - old(self).cur.pos, 5nat,
    {
        let count64 = self.read_uvarint()?;
        if count64 > u32::MAX as u64 {
            return Err(Error::Overflow);
        }
        let count = count64 as u32;
        if self.cur.remaining() < 1 && count > 0 {
            return Err(Error::Truncated);
        }
        self.enter_depth()?;
        let arr = {
            let template = self.decode_value(host)?;
            let mut arr = host.begin_array(true, count)?;
            fill_repeat(host, &mut arr, &template, count)?;
            arr
        };
        self.leave_depth();
        host.end_array(arr)
    }

    /// Read `ncols` schema keys.
    fn read_keys<H: Host>(&mut self, host: &mut H, ncols: u32) -> (r: Result<Vec<ArrayKeyOwned>>)
        requires
            old(self).inv(),
            old(self).synced(old(host)),
        ensures
            spec_passed_on(old(host).failures(), final(host).failures(), r),
            !H::fallible() && old(self).exact() ==> final(host).failures() == old(host).failures(),
            final(self).same(old(self)),
            final(self).depth == old(self).depth,
            r matches Ok(keys) ==> keys@.len() == ncols && p_keys(old(self).data(), old(self).cfg(), old(self).st(), ncols as nat)
                == Ok::<(Seq<KeyV>, PState), Error>(
                    (Seq::new(ncols as nat, |c: int| owned_key_model(final(self).strings@, keys@[c])), final(self).st()),
                ) && (forall|c: int| 0 <= c < ncols ==> owned_key_ok(final(self).strings@, #[trigger] keys@[c]))
                && final(self).inv() && final(self).synced(final(host)) && final(self).cur.pos >= old(self).cur.pos
                && final(self).kept(old(self)),
            final(host).failures() == old(host).failures() ==> (r matches Err(e) ==> p_keys(
                old(self).data(),
                old(self).cfg(),
                old(self).st(),
                ncols as nat,
            ) == Err::<(Seq<KeyV>, PState), Error>(e)),
    {
        let ghost s_in = *self;
        let mut keys: Vec<ArrayKeyOwned> = Vec::with_capacity(ncols as usize);
        assert(Seq::new(0nat, |c: int| owned_key_model(self.strings@, keys@[c])) =~= Seq::<KeyV>::empty());
        let mut j: u32 = 0;
        while j < ncols
            invariant
                host.failures() == old(host).failures(),
                j <= ncols,
                keys@.len() == j,
                self.inv(),
                self.synced(host),
                self.same(&s_in),
                self.kept(&s_in),
                s_in == *old(self),
                self.depth == s_in.depth,
                self.cur.pos >= s_in.cur.pos,
                forall|c: int| 0 <= c < j ==> owned_key_ok(self.strings@, #[trigger] keys@[c]),
                p_keys(s_in.data(), s_in.cfg(), s_in.st(), j as nat) == Ok::<(Seq<KeyV>, PState), Error>(
                    (Seq::new(j as nat, |c: int| owned_key_model(self.strings@, keys@[c])), self.st()),
                ),
            decreases ncols - j,
        {
            let ghost sj = *self;
            let k = match self.read_key_owned(host) {
                Ok(k) => k,
                Err(e) => {
                    proof {
                        if p_keys(s_in.data(), s_in.cfg(), s_in.st(), (j + 1) as nat) is Err {
                            lemma_p_keys_err(s_in.data(), s_in.cfg(), s_in.st(), (j + 1) as nat, ncols as nat);
                        }
                    }
                    return Err(e);
                },
            };
            let ghost old_keys = keys@;
            keys.push(k);
            proof {
                assert(Seq::new((j + 1) as nat, |c: int| owned_key_model(self.strings@, keys@[c]))
                    =~= Seq::new(j as nat, |c: int| owned_key_model(sj.strings@, old_keys[c])).push(
                    owned_key_model(self.strings@, k),
                )) by {
                    assert forall|c: int| 0 <= c < j implies owned_key_model(self.strings@, keys@[c])
                        == owned_key_model(sj.strings@, old_keys[c]) by {
                        assert(keys@[c] == old_keys[c]);
                        assert(owned_key_ok(sj.strings@, old_keys[c]));
                    }
                }
                assert forall|c: int| 0 <= c < j + 1 implies owned_key_ok(self.strings@, #[trigger] keys@[c]) by {
                    if c < j {
                        assert(keys@[c] == old_keys[c]);
                        assert(owned_key_ok(sj.strings@, old_keys[c]));
                    }
                }
            }
            j = j + 1;
        }
        Ok(keys)
    }

    /// Decode the values of one row into a hash array, one per schema key.
    fn decode_row_values_into<H: Host>(
        &mut self,
        host: &mut H,
        row: &mut H::ArrayState,
        keys: &Vec<ArrayKeyOwned>,
        kms: Ghost<Seq<KeyV>>,
    ) -> (r: Result<()>)
        requires
            old(self).inv(),
            old(self).synced(old(host)),
            H::array_model(old(row)) is Hash,
            kms@.len() == keys@.len(),
            forall|c: int| 0 <= c < keys@.len() ==> owned_key_ok(old(self).strings@, #[trigger] keys@[c])
                && owned_key_model(old(self).strings@, keys@[c]) == kms@[c],
        ensures
            spec_passed_on(old(host).failures(), final(host).failures(), r),
            H::declared(final(row)) == H::declared(old(row)),
            !H::fallible() && old(self).exact() ==> final(host).failures() == old(host).failures(),
            final(self).same(old(self)),
            r is Ok ==> final(self).depth == old(self).depth,
            r is Ok ==> elements(H::array_model(final(row))) == elements(H::array_model(old(row))) + keys@.len(),
            r is Ok ==> (p_row_values(old(self).data(), old(self).cfg(), old(self).st(), kms@) matches Ok((ps, s))
                && s == final(self).st() && H::array_model(final(row)) == Val::Hash(H::array_model(old(row))->Hash_0 + ps))
                && final(self).inv() && final(self).synced(final(host)) && final(self).cur.pos >= old(self).cur.pos
                && final(self).kept(old(self)),
            final(host).failures() == old(host).failures() ==> (r matches Err(e) ==> p_row_values(
                old(self).data(),
                old(self).cfg(),
                old(self).st(),
                kms@,
            ) == Err::<(Seq<(KeyV, Val)>, PState), Error>(e)),
        decreases old(self).data().len() - old(self).cur.pos, 2nat,
    {
        let ghost s_in = *self;
        let ghost am0 = H::array_model(row)->Hash_0;
        let ghost mut added: Seq<(KeyV, Val)> = Seq::empty();
        assert(am0 + added =~= am0);
        assert(kms@.skip(0) =~= kms@);
        let mut c: usize = 0;
        while c < keys.len()
            invariant
                host.failures() == old(host).failures(),
                H::declared(row) == H::declared(old(row)),
                added.len() == c,
                c <= keys.len(),
                kms@.len() == keys@.len(),
                forall|k: int| 0 <= k < keys@.len() ==> owned_key_ok(s_in.strings@, #[trigger] keys@[k])
                    && owned_key_model(s_in.strings@, keys@[k]) == kms@[k],
                self.inv(),
                self.synced(host),
                self.same(&s_in),
                self.kept(&s_in),
                s_in == *old(self),
                self.depth == s_in.depth,
                self.cur.pos >= s_in.cur.pos,
                H::array_model(row) == Val::Hash(am0 + added),
                p_row_values(s_in.data(), s_in.cfg(), s_in.st(), kms@) == prepend_pairs(
                    added,
                    p_row_values(s_in.data(), s_in.cfg(), self.st(), kms@.skip(c as int)),
                ),
            decreases keys.len() - c,
        {
            let ghost stc = self.st();
            let ghost sc = *self;
            proof {
                assert(owned_key_ok(s_in.strings@, keys@[c as int]));
            }
            let rr = self.decode_into_hash(host, row, &keys[c]);
            match rr {
                Ok(()) => {},
                Err(e) => {
                    return Err(e);
                },
            }
            proof {
                let ks = kms@.skip(c as int);
                assert(ks.drop_first() =~= kms@.skip(c + 1));
                assert(ks[0] == kms@[c as int]);
                assert(owned_key_model(sc.strings@, keys@[c as int]) == kms@[c as int]);
                let kv = H::array_model(row)->Hash_0.last();
                assert(H::array_model(row)->Hash_0 =~= (am0 + added).push(kv));
                assert(p_row_values(s_in.data(), s_in.cfg(), stc, ks) == prepend_pairs(
                    seq![kv],
                    p_row_values(s_in.data(), s_in.cfg(), self.st(), kms@.skip(c + 1)),
                ));
                match p_row_values(s_in.data(), s_in.cfg(), self.st(), kms@.skip(c + 1)) {
                    Ok((ps, s)) => {
                        assert(added + (seq![kv] + ps) =~= added.push(kv) + ps);
                    },
                    Err(_) => {},
                }
                added = added.push(kv);
                assert(am0 + added =~= (am0 + added.drop_last()).push(kv));
            }
            c = c + 1;
        }
        assert(kms@.skip(c as int) =~= Seq::<KeyV>::empty());
        assert(added + Seq::<(KeyV, Val)>::empty() =~= added);
        Ok(())
    }

    /// One row of a rowset: a hash array over the schema, one level deeper.
    fn decode_row<H: Host>(&mut self, host: &mut H, keys: &Vec<ArrayKeyOwned>, ncols: u32, kms: Ghost<Seq<KeyV>>) -> (r: Result<H::Value>)
        requires
            old(self).inv(),
            old(self).synced(old(host)),
            keys@.len() == ncols,
            kms@.len() == keys@.len(),
            forall|c: int| 0 <= c < keys@.len() ==> owned_key_ok(old(self).strings@, #[trigger] keys@[c])
                && owned_key_model(old(self).strings@, keys@[c]) == kms@[c],
        ensures
            spec_passed_on(old(host).failures(), final(host).failures(), r),
            !H::fallible() && old(self).exact() ==> final(host).failures() == old(host).failures(),
            final(self).same(old(self)),
            r matches Ok(v) ==> (p_enter(old(self).cfg(), old(self).st()) matches Ok(st1)
                && p_row_values(old(self).data(), old(self).cfg(), st1, kms@) == Ok::<(Seq<(KeyV, Val)>, PState), Error>(
                    (H::model(&v)->Hash_0, PState { depth: st1.depth, ..final(self).st() }),
                ) && H::model(&v) is Hash) && final(self).depth == old(self).depth
                && final(self).inv() && final(self).synced(final(host)) && final(self).cur.pos >= old(self).cur.pos
                && final(self).kept(old(self)),
            final(host).failures() == old(host).failures() ==> (r matches Err(e) ==> match p_enter(old(self).cfg(), old(self).st()) {
                Ok(st1) => p_row_values(old(self).data(), old(self).cfg(), st1, kms@) == Err::<(Seq<(KeyV, Val)>, PState), Error>(e),
                Err(e1) => e1 == e,
            }),
        decreases old(self).data().len() - old(self).cur.pos, 3nat,
    {
        self.enter_depth()?;
        let mut row = host.begin_array(false, ncols)?;
        self.decode_row_values_into(host, &mut row, keys, kms)?;
        assert(Seq::<(KeyV, Val)>::empty() + H::array_model(&row)->Hash_0 =~= H::array_model(&row)->Hash_0);
        self.leave_depth();
        host.end_array(row)
    }

    /// `nrows` rows of a rowset onto the outer packed array.
    fn decode_rows_into<H: Host>(
        &mut self,
        host: &mut H,
        outer: &mut H::ArrayState,
        keys: &Vec<ArrayKeyOwned>,
        ncols: u32,
        nrows: u32,
        kms: Ghost<Seq<KeyV>>,
    ) -> (r: Result<()>)
        requires
            old(self).inv(),
            old(self).synced(old(host)),
            H::array_model(old(outer)) is Packed,
            keys@.len() == ncols,
            kms@.len() == keys@.len(),
            forall|c: int| 0 <= c < keys@.len() ==> owned_key_ok(old(self).strings@, #[trigger] keys@[c])
                && owned_key_model(old(self).strings@, keys@[c]) == kms@[c],
        ensures
            spec_passed_on(old(host).failures(), final(host).failures(), r),
            H::declared(final(outer)) == H::declared(old(outer)),
            !H::fallible() && old(self).exact() ==> final(host).failures() == old(host).failures(),
            final(self).same(old(self)),
            r is Ok ==> final(self).depth == old(self).depth,
            r is Ok ==> elements(H::array_model(final(outer))) == elements(H::array_model(old(outer))) + nrows,
            r is Ok ==> (p_rows(old(self).data(), old(self).cfg(), old(self).st(), kms@, nrows as nat) matches Ok((rows, s))
                && s == final(self).st() && H::array_model(final(outer)) == Val::Packed(H::array_model(old(outer))->Packed_0 + rows))
                && final(self).inv() && final(self).synced(final(host)) && final(self).cur.pos >= old(self).cur.pos
                && final(self).kept(old(self)),
            final(host).failures() == old(host).failures() ==> (r matches Err(e) ==> p_rows(
                old(self).data(),
                old(self).cfg(),
                old(self).st(),
                kms@,
                nrows as nat,
            ) == Err::<(Seq<Val>, PState), Error>(e)),
        decreases old(self).data().len() - old(self).cur.pos, 4nat,
    {
        let ghost s_in = *self;
        let ghost am0 = H::array_model(outer)->Packed_0;
        let ghost mut added: Seq<Val> = Seq::empty();
        assert(am0 + added =~= am0);
        let mut i: u32 = 0;
        while i < nrows
            invariant
                host.failures() == old(host).failures(),
                H::declared(outer) == H::declared(old(outer)),
                added.len() == i,
                keys@.len() == ncols,
                i <= nrows,
                kms@.len() == keys@.len(),
                forall|k: int| 0 <= k < keys@.len() ==> owned_key_ok(s_in.strings@, #[trigger] keys@[k])
                    && owned_key_model(s_in.strings@, keys@[k]) == kms@[k],
                self.inv(),
                self.synced(host),
                self.same(&s_in),
                self.kept(&s_in),
                s_in == *old(self),
                self.depth == s_in.depth,
                self.cur.pos >= s_in.cur.pos,
                H::array_model(outer) == Val::Packed(am0 + added),
                p_rows(s_in.data(), s_in.cfg(), s_in.st(), kms@, nrows as nat) == prepend_vals(
                    added,
                    p_rows(s_in.data(), s_in.cfg(), self.st(), kms@, (nrows - i) as nat),
                ),
            decreases nrows - i,
        {
            let ghost sti = self.st();
            let ghost si = *self;
            proof {
                assert forall|k: int| 0 <= k < keys@.len() implies owned_key_ok(si.strings@, #[trigger] keys@[k])
                    && owned_key_model(si.strings@, keys@[k]) == kms@[k] by {
                    assert(owned_key_ok(s_in.strings@, keys@[k]));
                }
            }
            let row_val = match self.decode_row(host, keys, ncols, kms) {
                Ok(v) => v,
                Err(e) => {
                    return Err(e);
                },
            };
            let ghost rm = H::model(&row_val);
            match host.push_packed(outer, row_val) {
                Ok(()) => {},
                Err(e) => {
                    return Err(e);
                },
            }
            proof {
                let m = (nrows - i) as nat;
                assert(rm == Val::Hash(rm->Hash_0));
                assert(H::array_model(outer)->Packed_0 =~= (am0 + added).push(rm));
                assert(p_rows(s_in.data(), s_in.cfg(), sti, kms@, m) == prepend_vals(
                    seq![rm],
                    p_rows(s_in.data(), s_in.cfg(), self.st(), kms@, (m - 1) as nat),
                ));
                match p_rows(s_in.data(), s_in.cfg(), self.st(), kms@, (m - 1) as nat) {
                    Ok((rows, s)) => {
                        assert(added + (seq![rm] + rows) =~= added.push(rm) + rows);
                    },
                    Err(_) => {},
                }
                added = added.push(rm);
                assert(am0 + added =~= (am0 + added.drop_last()).push(rm));
            }
            i = i + 1;
        }
        assert(added + Seq::<Val>::empty() =~= added);
        Ok(())
    }

    /// `ARRAY_ROWS` after its tag.
    fn decode_array_rows<H: Host>(&mut self, host: &mut H) -> (r: Result<H::Value>)
        requires
            old(self).inv(),
            old(self).synced(old(host)),
        ensures
            spec_passed_on(old(host).failures(), final(host).failures(), r),
            !H::fallible() && old(self).exact() ==> final(host).failures() == old(host).failures(),
            final(self).same(old(self)),
            r matches Ok(v) ==> p_array_rows(old(self).data(), old(self).cfg(), old(self).st())
                == Ok::<(Val, PState), Error>((H::model(&v), final(self).st())) && final(self).inv()
                && final(self).synced(final(host)) && final(self).cur.pos > old(self).cur.pos
                && final(self).kept(old(self)),
            final(host).failures() == old(host).failures() ==> (r matches Err(e) ==> p_array_rows(old(self).data(), old(self).cfg(), old(self).st())
                == Err::<(Val, PState), Error>(e)),
        decreases old(self).data().len() - old(self).cur.pos, 5nat,
    {
        let nrows64 = self.read_uvarint()?;
        let ncols64 = self.read_uvarint()?;
        if nrows64 > u32::MAX as u64 || ncols64 > u32::MAX as u64 {
            return Err(Error::Overflow);
        }
        let nrows = nrows64 as u32;
        let ncols = ncols64 as u32;
        let per_row = if ncols64 > 1 { ncols64 } else { 1 };
        assert(nrows64 * per_row <= 0xffff_ffffu64 * 0xffff_ffffu64) by (nonlinear_arith)
            requires
                nrows64 <= 0xffff_ffffu64,
                per_row <= 0xffff_ffffu64,
        ;
        let need = ncols64 + nrows64 * per_row;
        if need > self.cur.remaining() as u64 {
            return Err(Error::Overflow);
        }
        if nrows64 > 0 && nrows64 > self.cur.remaining() as u64 {
            return Err(Error::Overflow);
        }
        self.enter_depth()?;
        let keys = self.read_keys(host, ncols)?;
        let ghost kms = Seq::new(ncols as nat, |c: int| owned_key_model(self.strings@, keys@[c]));
        let mut outer = host.begin_array(true, nrows)?;
        self.decode_rows_into(host, &mut outer, &keys, ncols, nrows, Ghost(kms))?;
        assert(Seq::<Val>::empty() + H::array_model(&outer)->Packed_0 =~= H::array_model(&outer)->Packed_0);
        self.leave_depth();
        host.end_array(outer)
    }
}

/// The error a document is refused with before any value is read, whatever the host: a bad
/// header, or a payload longer than the size limit.
pub open spec fn spec_early_error(data: Seq<u8>, max_size: usize) -> Option<Error> {
    match spec_parse_header(data) {
        Err(he) => Some(spec_header_error(he)),
        Ok((h, payload)) => if payload.len() > spec_effective_max_size(max_size) {
            Some(Error::MaxSize)
        } else {
            None
        },
    }
}

/// A decoding step's effect on the host's record of errors: on success none was added; a
/// failure either comes from the step itself (none added) or is the error the host returned.
pub open spec fn spec_passed_on<T>(before: HostErrors, after: HostErrors, r: Result<T>) -> bool {
    match r {
        Ok(_) => after == before,
        Err(e) => after == before || (after == before.push(e) && after.len() == before.len() + 1),
    }
}

/// Decode a complete document into a host value, with the default limits.
pub fn decode<H: Host>(data: &[u8], host: &mut H) -> (r: Result<H::Value>)
    ensures
        spec_passed_on(old(host).failures(), final(host).failures(), r),
        r matches Ok(v) ==> spec_decode(data@, DEFAULT_MAX_DEPTH, DEFAULT_MAX_SIZE, true) == Ok::<Val, Error>(
            H::model(&v),
        ),
        !H::fallible() && old(host).interned().len() == 0 && data@.len() <= u32::MAX ==> (r matches Err(e)
            ==> spec_decode(data@, DEFAULT_MAX_DEPTH, DEFAULT_MAX_SIZE, true) == Err::<Val, Error>(e)),
        final(host).failures() == old(host).failures() ==> (r matches Err(e) ==> spec_decode(
            data@,
            DEFAULT_MAX_DEPTH,
            DEFAULT_MAX_SIZE,
            true,
        ) == Err::<Val, Error>(e)),
        spec_early_error(data@, DEFAULT_MAX_SIZE) matches Some(e) ==> r == Err::<H::Value, Error>(e)
            && *final(host) == *old(host),
        r is Ok ==> final(host).interned() == old(host).interned() + spec_decode_strings(
            data@,
            DEFAULT_MAX_DEPTH,
            DEFAULT_MAX_SIZE,
        ),
        r is Ok && spec_decode_strings(data@, DEFAULT_MAX_DEPTH, DEFAULT_MAX_SIZE).len() > 0
            ==> old(host).interned().len() == 0,
{
    decode_with(data, host, &DecodeOptions::default())
}

/// Decode a complete document into a host value.
///
/// The result is what [`spec_decode`] says, as far as the host's callbacks succeed: on
/// success the host value stands for the decoded value. A failed host call ends decoding and
/// its error is returned unchanged (it is the one error added to the host's record of
/// failures); whenever no host call failed, the error is the one the document calls for. A
/// host that cannot fail, starting with no registered strings, fails no call on a document of
/// at most `u32::MAX` bytes: string ids are `u32`, and only a larger document could define
/// more strings than they can number. A bad header or an oversized payload is refused before
/// the host is called at all. On success the host has registered the document's strings, in
/// order, after the ones it held; strings are handed to it by id only once registered; and
/// each array is finished only after receiving as many elements as it was begun with.
pub fn decode_with<H: Host>(data: &[u8], host: &mut H, opts: &DecodeOptions) -> (r: Result<H::Value>)
    ensures
        spec_passed_on(old(host).failures(), final(host).failures(), r),
        r matches Ok(v) ==> spec_decode(data@, opts.max_depth, opts.max_size, opts.strict_trailing)
            == Ok::<Val, Error>(H::model(&v)),
        !H::fallible() && old(host).interned().len() == 0 && data@.len() <= u32::MAX ==> (r matches Err(e)
            ==> spec_decode(data@, opts.max_depth, opts.max_size, opts.strict_trailing) == Err::<Val, Error>(e)),
        final(host).failures() == old(host).failures() ==> (r matches Err(e) ==> spec_decode(
            data@,
            opts.max_depth,
            opts.max_size,
            opts.strict_trailing,
        ) == Err::<Val, Error>(e)),
        spec_early_error(data@, opts.max_size) matches Some(e) ==> r == Err::<H::Value, Error>(e)
            && *final(host) == *old(host),
        r is Ok ==> final(host).interned() == old(host).interned() + spec_decode_strings(
            data@,
            opts.max_depth,
            opts.max_size,
        ),
        r is Ok && spec_decode_strings(data@, opts.max_depth, opts.max_size).len() > 0
            ==> old(host).interned().len() == 0,
{
    let (header, payload) = match parse_header(data) {
        Ok(hp) => hp,
        Err(he) => {
            return Err(Error::from(he));
        },
    };
    let max_size = if opts.max_size == 0 {
        DEFAULT_MAX_SIZE
    } else {
        opts.max_size
    };
    if payload.len() > max_size {
        return Err(Error::MaxSize);
    }
    let mut dec = Decoder {
        cur: Cursor::new(payload),
        strings: DecodeStringTable::new(),
        depth: 0,
        max_depth: if opts.max_depth == 0 {
            DEFAULT_MAX_DEPTH
        } else {
            opts.max_depth
        },
        max_size,
        size_used: 0,
        strdedup: header.flags & FLAG_STRDEDUP != 0,
        pre: Ghost(host.interned()),
    };
    assert(host.interned() =~= dec.pre@ + dec.strings@);
    assert(dec.st() == p_start());
    let value = dec.decode_value(host)?;
    if opts.strict_trailing && dec.cur.remaining() != 0 {
        return Err(Error::Trailing);
    }
    Ok(value)
}

/// Append `count` copies of `template` to a packed array.
fn fill_repeat<H: Host>(host: &mut H, arr: &mut H::ArrayState, template: &H::Value, count: u32) -> (r: Result<()>)
    requires
        H::array_model(old(arr)) == Val::Packed(Seq::empty()),
    ensures
        spec_logged(old(host).failures(), final(host).failures(), r),
        H::declared(final(arr)) == H::declared(old(arr)),
        final(host).interned() == old(host).interned(),
        r is Ok ==> H::array_model(final(arr)) == Val::Packed(Seq::new(count as nat, |j: int| H::model(template))),
        !H::fallible() ==> r is Ok,
{
    let ghost tm = H::model(template);
    assert(Seq::new(0nat, |j: int| tm) =~= Seq::<Val>::empty());
    let mut i: u32 = 0;
    while i < count
        invariant
            host.failures() == old(host).failures(),
            H::declared(arr) == H::declared(old(arr)),
            i <= count,
            host.interned() == old(host).interned(),
            H::array_model(arr) == Val::Packed(Seq::new(i as nat, |j: int| tm)),
            tm == H::model(template),
        decreases count - i,
    {
        let item = host.duplicate_value(template)?;
        host.push_packed(arr, item)?;
        assert(Seq::new((i + 1) as nat, |j: int| tm) =~= Seq::new(i as nat, |j: int| tm).push(tm));
        i = i + 1;
    }
    Ok(())
}

/// Once reading the first `k` longs fails, reading `n >= k` fails the same way.
proof fn lemma_p_longs_err(data: Seq<u8>, st: PState, k: nat, n: nat)
    requires
        k <= n,
        p_longs(data, st, k) is Err,
    ensures
        p_longs(data, st, n) == p_longs(data, st, k),
    decreases n - k,
{
    if k < n {
        lemma_p_longs_err(data, st, k, (n - 1) as nat);
    }
}

/// Once reading the first `k` keys fails, reading `n >= k` fails the same way.
proof fn lemma_p_keys_err(data: Seq<u8>, cfg: DecodeCfg, st: PState, k: nat, n: nat)
    requires
        k <= n,
        p_keys(data, cfg, st, k) is Err,
    ensures
        p_keys(data, cfg, st, n) == p_keys(data, cfg, st, k),
    decreases n - k,
{
    if k < n {
        lemma_p_keys_err(data, cfg, st, k, (n - 1) as nat);
    }
}

} // verus!
