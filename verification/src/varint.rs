//! LEB128 unsigned varints and ZigZag-mapped signed varints.

use vstd::prelude::*;
use crate::error::{Error, Result};

verus! {

/// Longest legal varint, in bytes.
pub const MAX_VARINT_LEN: usize = 10;

/// ZigZag maps 0, -1, 1, -2, 2, ... to 0, 1, 2, 3, 4, ...
pub open spec fn spec_zigzag(n: i64) -> u64 {
    if n >= 0 {
        (2 * n) as u64
    } else {
        (-2 * n - 1) as u64
    }
}

/// Inverse of [`spec_zigzag`].
pub open spec fn spec_unzigzag(u: u64) -> i64 {
    if u % 2 == 0 {
        (u / 2) as i64
    } else {
        (-((u / 2) as int) - 1) as i64
    }
}

/// LEB128 encoding of `x`: seven bits per byte, least significant group first,
/// high bit set on every byte but the last.
pub open spec fn spec_uvarint(x: u64) -> Seq<u8>
    decreases x,
{
    if x >> 7 == 0 {
        seq![x as u8]
    } else {
        proof {
            assert(x >> 7 != 0 ==> x >> 7 < x) by (bit_vector);
        }
        seq![((x & 0x7f) | 0x80) as u8] + spec_uvarint(x >> 7)
    }
}

/// ZigZag + LEB128 encoding of a signed integer.
pub open spec fn spec_ivarint(n: i64) -> Seq<u8> {
    spec_uvarint(spec_zigzag(n))
}

/// What reading a varint whose group number `i` starts at `s[i]` yields: the OR of the
/// groups from `i` on, each shifted into place, and the index just past the last byte.
pub open spec fn spec_read_uvarint_at(s: Seq<u8>, i: nat) -> Result<(u64, nat)>
    decreases 10 - i,
{
    if i >= s.len() {
        Err(Error::Truncated)
    } else if i >= 9 {
        let b = s[i as int];
        if i > 9 || (b & 0x7f) > 1 || b & 0x80 != 0 {
            Err(Error::VarInt)
        } else {
            Ok((((b & 0x7f) as u64) << 63u64, 10))
        }
    } else {
        let b = s[i as int];
        let low = ((b & 0x7f) as u64) << ((7 * i) as u64);
        if b & 0x80 == 0 {
            Ok((low, i + 1))
        } else {
            match spec_read_uvarint_at(s, i + 1) {
                Ok((v, n)) => Ok((low | v, n)),
                Err(e) => Err(e),
            }
        }
    }
}

/// Result of [`read_uvarint`] on `s`: the value and the number of bytes it took.
pub open spec fn spec_read_uvarint(s: Seq<u8>) -> Result<(u64, nat)> {
    spec_read_uvarint_at(s, 0)
}

/// Result of [`read_ivarint`] on `s`.
pub open spec fn spec_read_ivarint(s: Seq<u8>) -> Result<(i64, nat)> {
    match spec_read_uvarint(s) {
        Ok((u, n)) => Ok((spec_unzigzag(u), n)),
        Err(e) => Err(e),
    }
}

/// ZigZag-map a signed integer.
pub fn zigzag_encode(n: i64) -> (r: u64)
    ensures
        r == spec_zigzag(n),
{
    let r = ((n << 1u32) ^ (n >> 63u32)) as u64;
    assert(r == spec_zigzag(n)) by (bit_vector)
        requires
            r == ((n << 1u32) ^ (n >> 63u32)) as u64,
    ;
    r
}

/// Undo [`zigzag_encode`].
pub fn zigzag_decode(u: u64) -> (r: i64)
    ensures
        r == spec_unzigzag(u),
{
    assert((u & 1) <= 1 && (u >> 1u32) <= i64::MAX) by (bit_vector);
    let r = ((u >> 1u32) as i64) ^ (-((u & 1) as i64));
    assert(r == spec_unzigzag(u)) by (bit_vector)
        requires
            r == ((u >> 1u32) as i64) ^ ((-((u & 1) as i64)) as i64),
    ;
    r
}

/// ZigZag mapping is a bijection: decoding undoes encoding and vice versa.
pub proof fn lemma_zigzag_roundtrip(n: i64, u: u64)
    ensures
        spec_unzigzag(spec_zigzag(n)) == n,
        spec_zigzag(spec_unzigzag(u)) == u,
{
}

/// A varint takes between 1 and 10 bytes, and every byte but the last has its high bit set.
pub proof fn lemma_uvarint_shape(x: u64)
    ensures
        1 <= spec_uvarint(x).len() <= 10,
        forall|k: int| 0 <= k < spec_uvarint(x).len() - 1 ==> spec_uvarint(x)[k] & 0x80 != 0,
        spec_uvarint(x).last() & 0x80 == 0,
        spec_uvarint(x).len() == 1 <==> x < 128,
{
    lemma_uvarint_shape_bits(x, 0);
}

proof fn lemma_uvarint_shape_bits(x: u64, i: nat)
    requires
        i <= 9,
        x >> ((64 - 7 * i) as u64) == 0 || i == 0,
    ensures
        1 <= spec_uvarint(x).len() <= 10 - i,
        forall|k: int| 0 <= k < spec_uvarint(x).len() - 1 ==> spec_uvarint(x)[k] & 0x80 != 0,
        spec_uvarint(x).last() & 0x80 == 0,
        spec_uvarint(x).len() == 1 <==> x < 128,
    decreases 9 - i,
{
    assert(x >> 7 == 0 <==> x < 128) by (bit_vector);
    if x >> 7 == 0 {
        assert((x as u8) & 0x80 == 0) by (bit_vector) requires x >> 7 == 0;
    } else {
        if i == 9 {
            assert(false) by (bit_vector) requires x >> 1 == 0, x >> 7 != 0;
        }
        assert((((x & 0x7f) | 0x80) as u8) & 0x80 != 0) by (bit_vector);
        let a: u64 = (64 - 7 * i) as u64;
        let b: u64 = (64 - 7 * (i + 1)) as u64;
        let z: bool = i == 0;
        assert((x >> 7) >> b == 0) by (bit_vector)
            requires b + 7 == a, a <= 64, b >= 1, x >> a == 0 || z, z ==> b == 57;
        lemma_uvarint_shape_bits(x >> 7, i + 1);
        let t = spec_uvarint(x >> 7);
        let h = ((x & 0x7f) | 0x80) as u8;
        assert(spec_uvarint(x) == seq![h] + t);
        assert forall|k: int| 0 <= k < spec_uvarint(x).len() - 1 implies spec_uvarint(x)[k] & 0x80
            != 0 by {
            if k > 0 {
                assert(spec_uvarint(x)[k] == t[k - 1]);
            }
        }
    }
}

proof fn lemma_read_uvarint_at_encoded(p: Seq<u8>, y: u64, rest: Seq<u8>)
    requires
        p.len() <= 9,
        y >> ((64 - 7 * p.len()) as u64) == 0 || p.len() == 0,
    ensures
        spec_read_uvarint_at(p + spec_uvarint(y) + rest, p.len()) == Ok::<(u64, nat), Error>(
            (y << ((7 * p.len()) as u64), p.len() + spec_uvarint(y).len()),
        ),
    decreases 9 - p.len(),
{
    let i = p.len();
    let s = p + spec_uvarint(y) + rest;
    let sh = (7 * i) as u64;
    if y >> 7 == 0 {
        let b = y as u8;
        assert(s[i as int] == b);
        assert((b & 0x80) == 0 && (b & 0x7f) as u64 == y) by (bit_vector)
            requires b == y as u8, y >> 7 == 0;
        if i == 9 {
            assert((b & 0x7f) <= 1) by (bit_vector) requires b == y as u8, y >> 1 == 0;
        }
    } else {
        if i == 9 {
            assert(false) by (bit_vector) requires y >> 1 == 0, y >> 7 != 0;
        }
        let b = ((y & 0x7f) | 0x80) as u8;
        assert(s[i as int] == b);
        assert((b & 0x80) != 0 && (b & 0x7f) as u64 == y & 0x7f) by (bit_vector)
            requires b == ((y & 0x7f) | 0x80) as u8;
        let p2 = p.push(b);
        assert(p + spec_uvarint(y) + rest =~= p2 + spec_uvarint(y >> 7) + rest);
        let a: u64 = (64 - 7 * i) as u64;
        let b2: u64 = (64 - 7 * (i + 1)) as u64;
        let sh2: u64 = (7 * (i + 1)) as u64;
        let z: bool = i == 0;
        assert((y >> 7) >> b2 == 0) by (bit_vector)
            requires b2 + 7 == a, a <= 64, b2 >= 1, y >> a == 0 || z, z ==> b2 == 57;
        lemma_read_uvarint_at_encoded(p2, y >> 7, rest);
        assert(((y & 0x7f) << sh) | ((y >> 7) << sh2) == y << sh) by (bit_vector)
            requires sh2 == sh + 7, sh <= 56, a == 64 - sh, y >> a == 0 || z, z ==> sh == 0;
    }
}

/// Reading back what [`write_uvarint`] wrote gives the value and its length, whatever follows.
pub proof fn lemma_uvarint_roundtrip(x: u64, rest: Seq<u8>)
    ensures
        spec_read_uvarint(spec_uvarint(x) + rest) == Ok::<(u64, nat), Error>(
            (x, spec_uvarint(x).len()),
        ),
{
    let e = Seq::<u8>::empty();
    assert(e + spec_uvarint(x) + rest =~= spec_uvarint(x) + rest);
    lemma_read_uvarint_at_encoded(e, x, rest);
    assert(x << 0u64 == x) by (bit_vector);
}

/// Reading back what [`write_ivarint`] wrote gives the integer and its length, whatever follows.
pub proof fn lemma_ivarint_roundtrip(n: i64, rest: Seq<u8>)
    ensures
        spec_read_ivarint(spec_ivarint(n) + rest) == Ok::<(i64, nat), Error>(
            (n, spec_ivarint(n).len()),
        ),
{
    lemma_uvarint_roundtrip(spec_zigzag(n), rest);
    lemma_zigzag_roundtrip(n, 0);
}

proof fn lemma_read_uvarint_at_len(s: Seq<u8>, i: nat)
    ensures
        spec_read_uvarint_at(s, i) matches Ok((v, n)) ==> i < n <= s.len(),
    decreases 10 - i,
{
    if i < s.len() && i < 9 {
        lemma_read_uvarint_at_len(s, i + 1);
    }
}

/// A successful read takes at least one byte and no more than are there.
pub proof fn lemma_read_uvarint_len(s: Seq<u8>)
    ensures
        spec_read_uvarint(s) matches Ok((v, n)) ==> 0 < n <= s.len(),
        spec_read_ivarint(s) matches Ok((v, n)) ==> 0 < n <= s.len(),
{
    lemma_read_uvarint_at_len(s, 0);
}

/// OR `acc` into the value of a partial read result.
pub open spec fn or_into(acc: u64, r: Result<(u64, nat)>) -> Result<(u64, nat)> {
    match r {
        Ok((v, n)) => Ok((acc | v, n)),
        Err(e) => Err(e),
    }
}

/// Read an unsigned LEB128 varint from the front of `input`; returns `(value, bytes_consumed)`.
pub fn read_uvarint(input: &[u8]) -> (r: Result<(u64, usize)>)
    ensures
        match r {
            Ok((v, n)) => spec_read_uvarint(input@) == Ok::<(u64, nat), Error>((v, n as nat)),
            Err(e) => spec_read_uvarint(input@) == Err::<(u64, nat), Error>(e),
        },
{
    let mut result: u64 = 0;
    let mut shift: u32 = 0;
    let mut i: usize = 0;
    assert(or_into(0, spec_read_uvarint_at(input@, 0)) == spec_read_uvarint(input@)) by {
        match spec_read_uvarint_at(input@, 0) {
            Ok((v, n)) => { assert(0u64 | v == v) by (bit_vector); }
            Err(_) => {}
        }
    }
    while i < input.len()
        invariant
            i <= 9,
            shift == 7 * i,
            or_into(result, spec_read_uvarint_at(input@, i as nat)) == spec_read_uvarint(input@),
        decreases input.len() - i,
    {
        let byte = input[i];
        if i >= MAX_VARINT_LEN {
            return Err(Error::VarInt);
        }
        let bits = (byte & 0x7f) as u64;
        if i == MAX_VARINT_LEN - 1 {
            if bits > 1 || byte & 0x80 != 0 {
                return Err(Error::VarInt);
            }
            result = result | (bits << 63u32);
            return Ok((result, i + 1));
        }
        let ghost r0 = result;
        result = result | (bits << shift);
        if byte & 0x80 == 0 {
            return Ok((result, i + 1));
        }
        proof {
            let low = bits << shift;
            match spec_read_uvarint_at(input@, (i + 1) as nat) {
                Ok((v, n)) => {
                    assert(r0 | (low | v) == (r0 | low) | v) by (bit_vector);
                }
                Err(_) => {}
            }
        }
        shift = shift + 7;
        i = i + 1;
    }
    Err(Error::Truncated)
}

/// Read a ZigZag-mapped signed varint; returns `(value, bytes_consumed)`.
pub fn read_ivarint(input: &[u8]) -> (r: Result<(i64, usize)>)
    ensures
        match r {
            Ok((v, n)) => spec_read_ivarint(input@) == Ok::<(i64, nat), Error>((v, n as nat)),
            Err(e) => spec_read_ivarint(input@) == Err::<(i64, nat), Error>(e),
        },
{
    let (u, n) = read_uvarint(input)?;
    Ok((zigzag_decode(u), n))
}

/// Append the LEB128 encoding of `value` to `out`.
pub fn write_uvarint(out: &mut Vec<u8>, value: u64)
    ensures
        final(out)@ == old(out)@ + spec_uvarint(value),
{
    let mut value = value;
    let ghost orig = value;
    loop
        invariant_except_break
            old(out)@ + spec_uvarint(orig) == out@ + spec_uvarint(value),
        ensures
            out@ == old(out)@ + spec_uvarint(orig),
        decreases value,
    {
        let mut byte = (value & 0x7f) as u8;
        let ghost v0 = value;
        let ghost o0 = out@;
        value = value >> 7u32;
        assert(v0 >> 7 != 0 ==> v0 >> 7 < v0) by (bit_vector);
        if value != 0 {
            byte = byte | 0x80;
            out.push(byte);
            assert(byte == ((v0 & 0x7f) | 0x80) as u8) by (bit_vector)
                requires byte == ((v0 & 0x7f) as u8) | 0x80;
            assert(o0.push(byte) + spec_uvarint(value) =~= o0 + spec_uvarint(v0));
        } else {
            out.push(byte);
            assert(byte == v0 as u8) by (bit_vector)
                requires byte == (v0 & 0x7f) as u8, v0 >> 7 == 0;
            assert(out@ =~= o0 + spec_uvarint(v0));
            break;
        }
    }
}

/// Append the ZigZag + LEB128 encoding of `value` to `out`.
pub fn write_ivarint(out: &mut Vec<u8>, value: i64)
    ensures
        final(out)@ == old(out)@ + spec_ivarint(value),
{
    write_uvarint(out, zigzag_encode(value));
}

} // verus!
