//! Hex text for documents: dumping bytes as hex and reading hex back.

use vstd::prelude::*;
use vstd::string::StringExecFns;
use vstd::utf8::{encode_scalar, encode_utf8};

verus! {

/// The characters with the Unicode `White_Space` property, the ones `char::is_whitespace`
/// accepts: tab to carriage return, space, U+0085, U+00A0, U+1680, U+2000 to U+200A, U+2028,
/// U+2029, U+202F, U+205F and U+3000.
pub open spec fn spec_is_whitespace(c: char) -> bool {
    let u = c as u32;
    ||| 0x09 <= u <= 0x0D
    ||| u == 0x20
    ||| u == 0x85
    ||| u == 0xA0
    ||| u == 0x1680
    ||| 0x2000 <= u <= 0x200A
    ||| u == 0x2028
    ||| u == 0x2029
    ||| u == 0x202F
    ||| u == 0x205F
    ||| u == 0x3000
}

/// Whether `c` is Unicode white space.
fn is_whitespace(c: char) -> (r: bool)
    ensures
        r == spec_is_whitespace(c),
{
    let u = c as u32;
    (0x09 <= u && u <= 0x0D) || u == 0x20 || u == 0x85 || u == 0xA0 || u == 0x1680 || (0x2000 <= u
        && u <= 0x200A) || u == 0x2028 || u == 0x2029 || u == 0x202F || u == 0x205F || u == 0x3000
}

/// Calls `String::push`, which appends `c` to the end of `s`.
#[verifier::external_body]
fn push_char(s: &mut String, c: char)
    ensures
        final(s)@ == old(s)@.push(c),
{
    s.push(c)
}

/// The lower-case hex digit of a nibble.
pub open spec fn spec_hex_char(n: u8) -> char {
    if n < 10 {
        (48 + n) as char
    } else {
        (87 + n) as char
    }
}

/// Two lower-case hex digits per byte, high nibble first.
pub open spec fn spec_to_hex(b: Seq<u8>) -> Seq<char>
    decreases b.len(),
{
    if b.len() == 0 {
        Seq::empty()
    } else {
        spec_to_hex(b.drop_last()) + seq![spec_hex_char(b.last() >> 4), spec_hex_char(b.last() & 15)]
    }
}

fn hex_char(n: u8) -> (c: char)
    requires
        n < 16,
    ensures
        c == spec_hex_char(n),
{
    if n < 10 {
        (48u8 + n) as char
    } else {
        (87u8 + n) as char
    }
}

/// Lower-case hex text of `bytes`, two digits per byte.
pub fn to_hex(bytes: &[u8]) -> (s: String)
    ensures
        s@ == spec_to_hex(bytes@),
{
    let mut s = String::new();
    let mut i: usize = 0;
    while i < bytes.len()
        invariant
            i <= bytes.len(),
            s@ == spec_to_hex(bytes@.take(i as int)),
        decreases bytes.len() - i,
    {
        let b = bytes[i];
        assert(b >> 4 < 16 && b & 15 < 16) by (bit_vector);
        push_char(&mut s, hex_char(b >> 4));
        push_char(&mut s, hex_char(b & 15));
        assert(bytes@.take(i + 1).drop_last() =~= bytes@.take(i as int));
        i = i + 1;
    }
    assert(bytes@.take(i as int) =~= bytes@);
    s
}

/// The value of an ASCII hex digit of either case.
pub open spec fn spec_hex_value(c: u8) -> Option<u8> {
    if 48 <= c <= 57 {
        Some((c - 48) as u8)
    } else if 97 <= c <= 102 {
        Some((c - 87) as u8)
    } else if 65 <= c <= 70 {
        Some((c - 55) as u8)
    } else {
        None
    }
}

/// The message for a byte that is no hex digit.
pub open spec fn spec_bad_digit(c: u8) -> Seq<char> {
    "bad hex digit "@.push(c as char)
}

/// The value of one hex digit, or the message naming the byte that is none.
pub fn from_hex(c: u8) -> (r: Result<u8, String>)
    ensures
        match r {
            Ok(v) => spec_hex_value(c) == Some(v),
            Err(e) => spec_hex_value(c) is None && e@ == spec_bad_digit(c),
        },
{
    if 48 <= c && c <= 57 {
        Ok(c - 48)
    } else if 97 <= c && c <= 102 {
        Ok(c - 87)
    } else if 65 <= c && c <= 70 {
        Ok(c - 55)
    } else {
        let mut e = String::from_str("bad hex digit ");
        push_char(&mut e, c as char);
        Err(e)
    }
}

/// The characters of `s` that are not white space, in order.
pub open spec fn spec_strip_whitespace(s: Seq<char>) -> Seq<char> {
    s.filter(|c: char| !spec_is_whitespace(c))
}

proof fn lemma_strip_push(s: Seq<char>, c: char)
    ensures
        spec_strip_whitespace(s.push(c)) == if spec_is_whitespace(c) {
            spec_strip_whitespace(s)
        } else {
            spec_strip_whitespace(s).push(c)
        },
{
    reveal(Seq::filter);
    assert(s.push(c).drop_last() =~= s);
}

proof fn lemma_encode_utf8_push(s: Seq<char>, c: char)
    ensures
        encode_utf8(s.push(c)) == encode_utf8(s) + encode_scalar(c as u32),
    decreases s.len(),
{
    let e = encode_scalar(c as u32);
    if s.len() == 0 {
        assert(s.push(c).drop_first() =~= Seq::<char>::empty());
        assert(encode_utf8(Seq::<char>::empty()) =~= Seq::<u8>::empty());
        assert(encode_utf8(s.push(c)) == e + encode_utf8(s.push(c).drop_first()));
        assert(e + Seq::<u8>::empty() =~= Seq::<u8>::empty() + e);
    } else {
        lemma_encode_utf8_push(s.drop_first(), c);
        assert(s.push(c).drop_first() =~= s.drop_first().push(c));
        assert(s.push(c)[0] == s[0]);
        let a = encode_scalar(s[0] as u32);
        assert(encode_utf8(s.push(c)) == a + encode_utf8(s.push(c).drop_first()));
        assert(encode_utf8(s) == a + encode_utf8(s.drop_first()));
        assert(a + (encode_utf8(s.drop_first()) + e) =~= a + encode_utf8(s.drop_first()) + e);
    }
}

/// Append the UTF-8 encoding of `c`.
fn push_utf8(out: &mut Vec<u8>, c: char)
    ensures
        final(out)@ == old(out)@ + encode_scalar(c as u32),
{
    proof {
        vstd::utf8::char_is_scalar(c);
    }
    let scalar = c as u32;
    if scalar <= 0x7F {
        out.push((scalar & 0x7F) as u8);
    } else if scalar <= 0x7FF {
        out.push(0xC0 | ((scalar >> 6) & 0x1F) as u8);
        out.push(0x80 | (scalar & 0x3F) as u8);
    } else if scalar <= 0xFFFF {
        out.push(0xE0 | ((scalar >> 12) & 0x0F) as u8);
        out.push(0x80 | ((scalar >> 6) & 0x3F) as u8);
        out.push(0x80 | (scalar & 0x3F) as u8);
    } else {
        out.push(0xF0 | ((scalar >> 18) & 0x7) as u8);
        out.push(0x80 | ((scalar >> 12) & 0x3F) as u8);
        out.push(0x80 | ((scalar >> 6) & 0x3F) as u8);
        out.push(0x80 | (scalar & 0x3F) as u8);
    }
    assert(out@ =~= old(out)@ + encode_scalar(c as u32));
}

/// Byte `i` of `clean` is the first that is no hex digit.
pub open spec fn spec_is_first_bad(clean: Seq<u8>, i: int) -> bool {
    &&& 0 <= i < clean.len()
    &&& spec_hex_value(clean[i]) is None
    &&& forall|j: int| 0 <= j < i ==> spec_hex_value(#[trigger] clean[j]) is Some
}

/// What reading hex text yields: white space dropped, the UTF-8 bytes of the rest read two
/// hex digits at a time; "odd length" when those bytes are odd in number, else the message
/// naming the first byte that is no hex digit.
pub open spec fn spec_parse_hex(s: Seq<char>) -> Result<Seq<u8>, Seq<char>> {
    let clean = encode_utf8(spec_strip_whitespace(s));
    if clean.len() % 2 != 0 {
        Err("odd length"@)
    } else if forall|i: int| 0 <= i < clean.len() ==> spec_hex_value(#[trigger] clean[i]) is Some {
        Ok(
            Seq::new(
                clean.len() / 2,
                |j: int|
                    (spec_hex_value(clean[2 * j])->0 * 16 + spec_hex_value(clean[2 * j + 1])->0) as u8,
            ),
        )
    } else {
        Err(spec_bad_digit(clean[choose|i: int| spec_is_first_bad(clean, i)]))
    }
}

proof fn lemma_first_bad_unique(clean: Seq<u8>, i: int)
    requires
        spec_is_first_bad(clean, i),
    ensures
        (choose|k: int| spec_is_first_bad(clean, k)) == i,
{
    let k = choose|k: int| spec_is_first_bad(clean, k);
    if k < i {
        assert(spec_hex_value(clean[k]) is Some);
    } else if k > i {
        assert(spec_hex_value(clean[i]) is Some);
    }
}

/// Read hex text into bytes; white space anywhere is ignored.
pub fn parse_hex(s: &str) -> (r: Result<Vec<u8>, String>)
    ensures
        match r {
            Ok(out) => spec_parse_hex(s@) == Ok::<Seq<u8>, Seq<char>>(out@),
            Err(e) => spec_parse_hex(s@) == Err::<Seq<u8>, Seq<char>>(e@),
        },
{
    broadcast use vstd::string::axiom_spec_iter;

    let mut clean: Vec<u8> = Vec::new();
    for c in it: s.chars()
        invariant
            it.seq() == s@,
            clean@ == encode_utf8(spec_strip_whitespace(s@.take(it.index() as int))),
    {
        let ghost before = s@.take(it.index() as int);
        proof {
            assert(s@.take(it.index() + 1) =~= before.push(c));
            lemma_strip_push(before, c);
        }
        if !is_whitespace(c) {
            proof {
                lemma_encode_utf8_push(spec_strip_whitespace(before), c);
            }
            push_utf8(&mut clean, c);
        }
    }
    assert(s@.take(s@.len() as int) =~= s@);
    let ghost cl = clean@;
    if clean.len() % 2 != 0 {
        return Err(String::from_str("odd length"));
    }
    let mut out: Vec<u8> = Vec::with_capacity(clean.len() / 2);
    let mut i: usize = 0;
    while i < clean.len()
        invariant
            cl == clean@,
            cl == encode_utf8(spec_strip_whitespace(s@)),
            cl.len() % 2 == 0,
            i % 2 == 0,
            i <= cl.len(),
            out@.len() * 2 == i,
            forall|k: int| 0 <= k < i ==> spec_hex_value(#[trigger] cl[k]) is Some,
            forall|j: int|
                0 <= j < out@.len() ==> out@[j] == (spec_hex_value(cl[2 * j])->0 * 16
                    + spec_hex_value(cl[2 * j + 1])->0) as u8,
        decreases cl.len() - i,
    {
        let hi = match from_hex(clean[i]) {
            Ok(v) => v,
            Err(e) => {
                proof {
                    lemma_first_bad_unique(cl, i as int);
                }
                return Err(e);
            },
        };
        let lo = match from_hex(clean[i + 1]) {
            Ok(v) => v,
            Err(e) => {
                proof {
                    lemma_first_bad_unique(cl, i + 1);
                }
                return Err(e);
            },
        };
        assert((hi << 4) | lo == hi * 16 + lo) by (bit_vector)
            requires
                hi < 16,
                lo < 16,
        ;
        out.push((hi << 4) | lo);
        i = i + 2;
    }
    assert(out@ =~= spec_parse_hex(s@)->Ok_0);
    Ok(out)
}

proof fn lemma_to_hex_shape(b: Seq<u8>)
    ensures
        spec_to_hex(b).len() == 2 * b.len(),
        forall|j: int|
            0 <= j < b.len() ==> spec_to_hex(b)[2 * j] == spec_hex_char(#[trigger] b[j] >> 4)
                && spec_to_hex(b)[2 * j + 1] == spec_hex_char(b[j] & 15),
    decreases b.len(),
{
    if b.len() > 0 {
        let dl = b.drop_last();
        lemma_to_hex_shape(dl);
        assert forall|j: int| 0 <= j < b.len() implies spec_to_hex(b)[2 * j] == spec_hex_char(
            #[trigger] b[j] >> 4,
        ) && spec_to_hex(b)[2 * j + 1] == spec_hex_char(b[j] & 15) by {
            if j < dl.len() {
                assert(dl[j] == b[j]);
            }
        }
    }
}

proof fn lemma_strip_none(s: Seq<char>)
    requires
        forall|i: int| 0 <= i < s.len() ==> !spec_is_whitespace(#[trigger] s[i]),
    ensures
        spec_strip_whitespace(s) == s,
    decreases s.len(),
{
    if s.len() > 0 {
        let dl = s.drop_last();
        assert forall|i: int| 0 <= i < dl.len() implies !spec_is_whitespace(#[trigger] dl[i]) by {
            assert(dl[i] == s[i]);
        }
        lemma_strip_none(dl);
        lemma_strip_push(dl, s.last());
        assert(dl.push(s.last()) =~= s);
    }
}

proof fn lemma_hex_char(n: u8)
    requires
        n < 16,
    ensures
        '\0' <= spec_hex_char(n) <= '\u{7f}',
        !spec_is_whitespace(spec_hex_char(n)),
        spec_hex_value(spec_hex_char(n) as u8) == Some(n),
{
}

proof fn lemma_hex_digits(b: Seq<u8>)
    ensures
        forall|i: int|
            0 <= i < spec_to_hex(b).len() ==> '\0' <= #[trigger] spec_to_hex(b)[i] <= '\u{7f}'
                && !spec_is_whitespace(spec_to_hex(b)[i]),
        forall|j: int|
            0 <= j < b.len() ==> spec_hex_value(spec_to_hex(b)[2 * j] as u8) == Some(
                #[trigger] b[j] >> 4,
            ) && spec_hex_value(spec_to_hex(b)[2 * j + 1] as u8) == Some(b[j] & 15),
{
    let h = spec_to_hex(b);
    lemma_to_hex_shape(b);
    assert forall|j: int| 0 <= j < b.len() implies spec_hex_value(h[2 * j] as u8) == Some(
        #[trigger] b[j] >> 4,
    ) && spec_hex_value(h[2 * j + 1] as u8) == Some(b[j] & 15) && '\0' <= h[2 * j] <= '\u{7f}'
        && !spec_is_whitespace(h[2 * j]) && '\0' <= h[2 * j + 1] <= '\u{7f}' && !spec_is_whitespace(
        h[2 * j + 1],
    ) by {
        let x = b[j];
        assert(x >> 4 < 16 && x & 15 < 16) by (bit_vector);
        lemma_hex_char(x >> 4);
        lemma_hex_char(x & 15);
    }
    assert forall|i: int| 0 <= i < h.len() implies '\0' <= #[trigger] h[i] <= '\u{7f}'
        && !spec_is_whitespace(h[i]) by {
        let j = i / 2;
        assert(0 <= j < b.len());
        assert(i == 2 * j || i == 2 * j + 1);
        assert(spec_hex_value(h[2 * j] as u8) == Some(b[j] >> 4));
    }
}

/// Text of ASCII characters, none white space, two per byte, each pair the hex digits of its
/// byte, reads back as those bytes.
proof fn lemma_parse_digits(h: Seq<char>, b: Seq<u8>)
    requires
        h.len() == 2 * b.len(),
        forall|i: int| 0 <= i < h.len() ==> '\0' <= #[trigger] h[i] <= '\u{7f}' && !spec_is_whitespace(h[i]),
        forall|j: int|
            0 <= j < b.len() ==> spec_hex_value(h[2 * j] as u8) == Some(#[trigger] b[j] >> 4)
                && spec_hex_value(h[2 * j + 1] as u8) == Some(b[j] & 15),
    ensures
        spec_parse_hex(h) == Ok::<Seq<u8>, Seq<char>>(b),
{
    lemma_strip_none(h);
    assert(vstd::utf8::is_ascii_chars(h)) by {
        assert forall|i: int| 0 <= i < h.len() implies '\0' <= #[trigger] h[i] <= '\u{7f}' by {
        }
    }
    vstd::utf8::is_ascii_chars_encode_utf8(h);
    let clean = encode_utf8(h);
    assert forall|i: int| 0 <= i < clean.len() implies spec_hex_value(#[trigger] clean[i]) is Some by {
        let j = i / 2;
        assert(i == 2 * j || i == 2 * j + 1);
        assert(clean[i] == h[i] as u8);
        assert(spec_hex_value(h[2 * j] as u8) == Some(b[j] >> 4));
    }
    assert forall|j: int| 0 <= j < b.len() implies ((spec_hex_value(clean[2 * j])->0 * 16
        + spec_hex_value(clean[2 * j + 1])->0) as u8) == #[trigger] b[j] by {
        assert(clean[2 * j] == h[2 * j] as u8);
        assert(clean[2 * j + 1] == h[2 * j + 1] as u8);
        let x = b[j];
        assert(((x >> 4) * 16 + (x & 15)) as u8 == x) by (bit_vector);
    }
    assert(spec_parse_hex(h)->Ok_0 =~= b);
}

/// Reading back the hex text of some bytes gives those bytes.
pub proof fn lemma_parse_to_hex(b: Seq<u8>)
    ensures
        spec_parse_hex(spec_to_hex(b)) == Ok::<Seq<u8>, Seq<char>>(b),
{
    lemma_to_hex_shape(b);
    lemma_hex_digits(b);
    lemma_parse_digits(spec_to_hex(b), b);
}

/// The upper-case form of an ASCII letter; any other character is kept.
pub open spec fn spec_ascii_upper(c: char) -> char {
    if 'a' <= c <= 'z' {
        ((c as u32) - 32) as char
    } else {
        c
    }
}

/// Upper-case hex text of `b`, two digits per byte, high nibble first (the style of the
/// protocol's sample dumps).
pub open spec fn spec_to_hex_upper(b: Seq<u8>) -> Seq<char> {
    spec_to_hex(b).map_values(|c: char| spec_ascii_upper(c))
}

/// A letter and its upper-case form are the same hex digit, or both none.
pub proof fn lemma_hex_value_either_case(c: u8)
    requires
        97 <= c <= 122,
    ensures
        spec_hex_value((c - 32) as u8) == spec_hex_value(c),
{
}

/// Every value below 16 has exactly one lower-case and one upper-case hex digit.
pub proof fn lemma_hex_digit_values(n: u8)
    requires
        n < 16,
    ensures
        n < 10 ==> spec_hex_value((48 + n) as u8) == Some(n),
        n >= 10 ==> spec_hex_value((87 + n) as u8) == Some(n) && spec_hex_value((55 + n) as u8) == Some(n),
{
}

proof fn lemma_hex_char_upper(n: u8)
    requires
        n < 16,
    ensures
        '\0' <= spec_ascii_upper(spec_hex_char(n)) <= '\u{7f}',
        !spec_is_whitespace(spec_ascii_upper(spec_hex_char(n))),
        spec_hex_value(spec_ascii_upper(spec_hex_char(n)) as u8) == Some(n),
{
    lemma_hex_digit_values(n);
}

/// Reading back upper-case hex text of some bytes gives those bytes.
pub proof fn lemma_parse_to_hex_upper(b: Seq<u8>)
    ensures
        spec_parse_hex(spec_to_hex_upper(b)) == Ok::<Seq<u8>, Seq<char>>(b),
{
    let h = spec_to_hex(b);
    let u = spec_to_hex_upper(b);
    lemma_to_hex_shape(b);
    assert forall|j: int| 0 <= j < b.len() implies spec_hex_value(u[2 * j] as u8) == Some(
        #[trigger] b[j] >> 4,
    ) && spec_hex_value(u[2 * j + 1] as u8) == Some(b[j] & 15) && '\0' <= u[2 * j] <= '\u{7f}'
        && !spec_is_whitespace(u[2 * j]) && '\0' <= u[2 * j + 1] <= '\u{7f}' && !spec_is_whitespace(
        u[2 * j + 1],
    ) by {
        let x = b[j];
        assert(x >> 4 < 16 && x & 15 < 16) by (bit_vector);
        lemma_hex_char_upper(x >> 4);
        lemma_hex_char_upper(x & 15);
        assert(u[2 * j] == spec_ascii_upper(h[2 * j]));
        assert(u[2 * j + 1] == spec_ascii_upper(h[2 * j + 1]));
    }
    assert forall|i: int| 0 <= i < u.len() implies '\0' <= #[trigger] u[i] <= '\u{7f}'
        && !spec_is_whitespace(u[i]) by {
        let j = i / 2;
        assert(0 <= j < b.len());
        assert(i == 2 * j || i == 2 * j + 1);
        assert(spec_hex_value(u[2 * j] as u8) == Some(b[j] >> 4));
    }
    lemma_parse_digits(u, b);
}

} // verus!
