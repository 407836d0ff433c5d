use vstd::prelude::*;
use crate::util::between;

verus! {

/// The replacement codepoint that stands for an invalid sequence.
pub const UTF_INVALID: i64 = 0xFFFD;
/// The longest encoded codepoint, in bytes.
pub const UTF_SIZ: usize = 4;

/// Marker bits that byte class `k` shows under its mask.
pub open spec fn utf_byte(k: int) -> u8 {
    if k == 0 { 0x80 } else if k == 1 { 0 } else if k == 2 { 0xC0 } else if k == 3 { 0xE0 } else { 0xF0 }
}

/// Mask of the marker bits of byte class `k`.
pub open spec fn utf_mask(k: int) -> u8 {
    if k == 0 { 0xC0 } else if k == 1 { 0x80 } else if k == 2 { 0xE0 } else if k == 3 { 0xF0 } else { 0xF8 }
}

/// Smallest codepoint that a sequence of `k` bytes may encode.
pub open spec fn utf_min(k: int) -> i64 {
    if k <= 1 { 0 } else if k == 2 { 0x80 } else if k == 3 { 0x800 } else { 0x10000 }
}

/// Largest codepoint that a sequence of `k` bytes may encode (any, for `k == 0`).
pub open spec fn utf_max(k: int) -> i64 {
    if k == 0 { 0x10FFFF } else if k == 1 { 0x7F } else if k == 2 { 0x7FF } else if k == 3 { 0xFFFF } else { 0x10FFFF }
}

/// The first byte class whose marker the byte shows: 0 for a continuation
/// byte, 1 to 4 for the lead byte of a sequence of that many bytes, 5 for none.
pub open spec fn byte_class(b: u8) -> int {
    if b & 0xC0u8 == 0x80u8 {
        0
    } else if b & 0x80u8 == 0u8 {
        1
    } else if b & 0xE0u8 == 0xC0u8 {
        2
    } else if b & 0xF0u8 == 0xE0u8 {
        3
    } else if b & 0xF8u8 == 0xF0u8 {
        4
    } else {
        5
    }
}

/// The payload bits of a byte: what its class's mask leaves, 0 for no class.
pub open spec fn byte_value(b: u8) -> i64 {
    let k = byte_class(b);
    if k < 5 { (b & !utf_mask(k)) as i64 } else { 0 }
}

/// The byte at `i` of a zero-terminated text held in `text`: past its end, 0.
pub open spec fn byte_at(text: Seq<i8>, i: int) -> u8 {
    if 0 <= i < text.len() { text[i] as u8 } else { 0 }
}

proof fn lemma_byte_class(b: u8)
    ensures
        byte_class(b) < 5 ==> (b & utf_mask(byte_class(b))) == utf_byte(byte_class(b)),
        byte_class(b) == 0 ==> byte_value(b) < 64,
        byte_class(b) == 1 ==> byte_value(b) < 128,
        byte_class(b) == 2 ==> byte_value(b) < 32,
        byte_class(b) == 3 ==> byte_value(b) < 16,
        byte_class(b) == 4 ==> byte_value(b) < 8,
        0 <= byte_value(b),
{
    assert(b & 0xC0u8 == 0x80u8 ==> (b & !0xC0u8) < 64) by (bit_vector);
    assert(b & 0x80u8 == 0u8 ==> (b & !0x80u8) < 128) by (bit_vector);
    assert(b & 0xE0u8 == 0xC0u8 ==> (b & !0xE0u8) < 32) by (bit_vector);
    assert(b & 0xF0u8 == 0xE0u8 ==> (b & !0xF0u8) < 16) by (bit_vector);
    assert(b & 0xF8u8 == 0xF0u8 ==> (b & !0xF8u8) < 8) by (bit_vector);
}

/// Classifies a byte of UTF-8: returns its payload bits and, where it shows
/// one of the markers, writes its class to `index` (0 for a continuation byte,
/// otherwise the length of the sequence it starts).
pub fn utf8decodebyte(c: i8, index: &mut usize) -> (r: i64)
    ensures
        r == byte_value(c as u8),
        byte_class(c as u8) < 5 ==> *final(index) == byte_class(c as u8),
        byte_class(c as u8) == 5 ==> *final(index) == *old(index),
{
    let b = c as u8;
    proof { lemma_byte_class(b); }
    if b & 0xC0u8 == 0x80u8 {
        *index = 0;
        (b & !0xC0u8) as i64
    } else if b & 0x80u8 == 0u8 {
        *index = 1;
        (b & !0x80u8) as i64
    } else if b & 0xE0u8 == 0xC0u8 {
        *index = 2;
        (b & !0xE0u8) as i64
    } else if b & 0xF0u8 == 0xE0u8 {
        *index = 3;
        (b & !0xF0u8) as i64
    } else if b & 0xF8u8 == 0xF0u8 {
        *index = 4;
        (b & !0xF8u8) as i64
    } else {
        0
    }
}

fn utf_max_exec(k: usize) -> (r: i64)
    requires
        k <= 4,
    ensures
        r == utf_max(k as int),
{
    if k == 0 { 0x10FFFF } else if k == 1 { 0x7F } else if k == 2 { 0x7FF } else if k == 3 { 0xFFFF } else { 0x10FFFF }
}

fn utf_min_exec(k: usize) -> (r: i64)
    requires
        k <= 4,
    ensures
        r == utf_min(k as int),
{
    if k <= 1 { 0 } else if k == 2 { 0x80 } else if k == 3 { 0x800 } else { 0x10000 }
}

/// The codepoint that remains of `cp`, read as a sequence of `k` bytes: itself
/// where it lies in that length's range and is no surrogate, else the
/// replacement codepoint.
pub open spec fn validated(cp: i64, k: int) -> i64 {
    if !(utf_min(k) <= cp && cp <= utf_max(k)) || (0xD800 <= cp && cp <= 0xDFFF) {
        UTF_INVALID
    } else {
        cp
    }
}

/// The smallest length from `k` up whose range reaches `cp`.
pub open spec fn length_for(cp: i64, k: int) -> int
    decreases 4 - k,
{
    if k < 4 && cp > utf_max(k) {
        length_for(cp, k + 1)
    } else {
        k
    }
}

proof fn lemma_length_for(cp: i64, k: int)
    requires
        0 <= k <= 4,
        cp <= 0x10FFFF,
    ensures
        k <= length_for(cp, k) <= 4,
        cp <= utf_max(length_for(cp, k)),
    decreases 4 - k,
{
    if k < 4 && cp > utf_max(k) {
        lemma_length_for(cp, k + 1);
    }
}

/// Replaces a codepoint that the given length cannot encode, or a surrogate,
/// by the replacement codepoint, and returns the smallest length from `index`
/// up that can hold what is left.
pub fn utf8validate(codepoint: &mut i64, index: usize) -> (r: usize)
    requires
        index <= UTF_SIZ,
    ensures
        *final(codepoint) == validated(*old(codepoint), index as int),
        r == length_for(validated(*old(codepoint), index as int), index as int),
        index <= r <= UTF_SIZ,
{
    if !between(*codepoint, utf_min_exec(index), utf_max_exec(index)) || between(*codepoint, 0xD800, 0xDFFF) {
        *codepoint = UTF_INVALID;
    }
    let ghost cp = *codepoint;
    proof { lemma_length_for(cp, index as int); }
    let ghost start = index;
    let mut index = index;
    while index < 4 && *codepoint > utf_max_exec(index)
        invariant
            *codepoint == cp,
            cp <= 0x10FFFF,
            index <= 4,
            start <= index,
            length_for(cp, index as int) == length_for(cp, start as int),
        decreases 4 - index,
    {
        index += 1;
    }
    index
}


/// A byte's class as `utf8decodebyte` reports it to a caller whose index
/// starts at 0: the class, or 0 where the byte shows no marker.
pub open spec fn class_or_zero(b: u8) -> int {
    if byte_class(b) < 5 { byte_class(b) } else { 0 }
}

/// Reads continuation bytes from position `j` while `j` stays below both
/// `clen` and `len`, accumulating six payload bits each. Returns where the
/// scan stopped, the accumulated value, and whether it stopped at a byte that
/// is no continuation byte.
pub open spec fn scan_continuation(text: Seq<i8>, clen: int, len: int, j: int, acc: int) -> (int, int, bool)
    decreases len - j,
{
    if j < clen && j < len {
        let b = byte_at(text, j);
        if class_or_zero(b) != 0 {
            (j, acc, true)
        } else {
            scan_continuation(text, clen, len, j + 1, acc * 64 + byte_value(b))
        }
    } else {
        (j, acc, false)
    }
}

/// What decoding the first codepoint of `text`, reading at most `clen` bytes,
/// gives: the number of bytes consumed (0 for an incomplete sequence) and the
/// codepoint (the replacement codepoint where the input is invalid).
pub open spec fn decode(text: Seq<i8>, clen: int) -> (int, i64) {
    if clen == 0 {
        (0, UTF_INVALID)
    } else {
        let b0 = byte_at(text, 0);
        let len = class_or_zero(b0);
        if !(1 <= len && len <= 4) {
            (1, UTF_INVALID)
        } else {
            let (j, acc, early) = scan_continuation(text, clen, len, 1, byte_value(b0) as int);
            if early {
                (j, UTF_INVALID)
            } else if j < len {
                (0, UTF_INVALID)
            } else {
                (length_for(validated(acc as i64, len), len), validated(acc as i64, len))
            }
        }
    }
}

/// An upper bound of the value accumulated after `j` bytes of a sequence.
pub open spec fn acc_bound(j: int) -> int {
    if j <= 1 { 128 } else if j == 2 { 8192 } else if j == 3 { 524288 } else { 33554432 }
}

proof fn lemma_scan_shape(text: Seq<i8>, clen: int, len: int, j: int, acc: int)
    requires
        1 <= j <= len <= 4,
        0 <= acc < acc_bound(j),
    ensures
        ({
            let (j2, acc2, early) = scan_continuation(text, clen, len, j, acc);
            &&& j <= j2 <= len
            &&& 0 <= acc2 < acc_bound(j2)
            &&& (!early ==> j2 == len || j2 >= clen)
        }),
    decreases len - j,
{
    if j < clen && j < len {
        let b = byte_at(text, j);
        lemma_byte_class(b);
        if class_or_zero(b) == 0 {
            lemma_scan_shape(text, clen, len, j + 1, acc * 64 + byte_value(b));
        }
    }
}

/// Reading up to four bytes, decoding always consumes one to four bytes.
pub proof fn lemma_decode_full(text: Seq<i8>)
    ensures
        1 <= decode(text, 4).0 <= 4,
{
    let b0 = byte_at(text, 0);
    lemma_byte_class(b0);
    let len = class_or_zero(b0);
    if 1 <= len && len <= 4 {
        lemma_scan_shape(text, 4, len, 1, byte_value(b0) as int);
        let (j, acc, early) = scan_continuation(text, 4, len, 1, byte_value(b0) as int);
        if !early {
            lemma_length_for(validated(acc as i64, len), len);
        }
    }
}

/// A Unicode scalar value: a codepoint that is no surrogate.
pub open spec fn is_scalar(c: int) -> bool {
    0 <= c <= 0x10FFFF && !(0xD800 <= c <= 0xDFFF)
}

/// The shortest UTF-8 encoding of codepoint `c`: one byte below 0x80, else
/// a lead byte carrying the high bits and continuation bytes carrying six
/// bits each.
pub open spec fn utf8_encoding(c: int) -> Seq<u8> {
    if c < 0x80 {
        seq![c as u8]
    } else if c < 0x800 {
        seq![(0xC0 + c / 64) as u8, (0x80 + c % 64) as u8]
    } else if c < 0x10000 {
        seq![(0xE0 + c / 4096) as u8, (0x80 + (c / 64) % 64) as u8, (0x80 + c % 64) as u8]
    } else {
        seq![(0xF0 + c / 262144) as u8, (0x80 + (c / 4096) % 64) as u8, (0x80 + (c / 64) % 64) as u8, (0x80 + c % 64) as u8]
    }
}

/// The class and payload of the bytes that an encoding is made of.
pub proof fn lemma_byte_kinds(b: u8)
    ensures
        b < 0x80 ==> byte_class(b) == 1 && byte_value(b) == b,
        0x80 <= b < 0xC0 ==> byte_class(b) == 0 && byte_value(b) == b - 0x80,
        0xC0 <= b < 0xE0 ==> byte_class(b) == 2 && byte_value(b) == b - 0xC0,
        0xE0 <= b < 0xF0 ==> byte_class(b) == 3 && byte_value(b) == b - 0xE0,
        0xF0 <= b < 0xF8 ==> byte_class(b) == 4 && byte_value(b) == b - 0xF0,
{
    assert(b < 0x80u8 ==> b & 0xC0u8 != 0x80u8 && b & 0x80u8 == 0u8 && (b & !0x80u8) == b) by (bit_vector);
    assert(0x80u8 <= b && b < 0xC0u8 ==> b & 0xC0u8 == 0x80u8 && (b & !0xC0u8) == b - 0x80u8) by (bit_vector);
    assert(0xC0u8 <= b && b < 0xE0u8 ==> b & 0xC0u8 != 0x80u8 && b & 0x80u8 != 0u8 && b & 0xE0u8 == 0xC0u8
        && (b & !0xE0u8) == b - 0xC0u8) by (bit_vector);
    assert(0xE0u8 <= b && b < 0xF0u8 ==> b & 0xC0u8 != 0x80u8 && b & 0x80u8 != 0u8 && b & 0xE0u8 != 0xC0u8
        && b & 0xF0u8 == 0xE0u8 && (b & !0xF0u8) == b - 0xE0u8) by (bit_vector);
    assert(0xF0u8 <= b && b < 0xF8u8 ==> b & 0xC0u8 != 0x80u8 && b & 0x80u8 != 0u8 && b & 0xE0u8 != 0xC0u8
        && b & 0xF0u8 != 0xE0u8 && b & 0xF8u8 == 0xF0u8 && (b & !0xF8u8) == b - 0xF0u8) by (bit_vector);
}

/// Decoding the shortest encoding of a scalar value gives it back.
pub proof fn lemma_decode_encoding(c: int, text: Seq<i8>, clen: int)
    requires
        is_scalar(c),
        text.len() >= utf8_encoding(c).len(),
        forall|i: int| 0 <= i < utf8_encoding(c).len() ==> #[trigger] text[i] as u8 == utf8_encoding(c)[i],
        clen >= utf8_encoding(c).len(),
    ensures
        decode(text, clen) == (utf8_encoding(c).len() as int, c as i64),
{
    let e = utf8_encoding(c);
    let n = e.len() as int;
    assert(byte_at(text, 0) == e[0]);
    lemma_byte_kinds(e[0]);
    reveal_with_fuel(scan_continuation, 5);
    if c < 0x80 {
        assert(scan_continuation(text, clen, 1, 1, c) == (1int, c, false));
    } else if c < 0x800 {
        let b1 = e[1];
        assert(byte_at(text, 1) == b1);
        lemma_byte_kinds(b1);
        assert((c / 64) * 64 + c % 64 == c) by (nonlinear_arith);
        assert(scan_continuation(text, clen, 2, 1, c / 64) == (2int, c, false));
    } else if c < 0x10000 {
        let b1 = e[1];
        let b2 = e[2];
        assert(byte_at(text, 1) == b1);
        assert(byte_at(text, 2) == b2);
        lemma_byte_kinds(b1);
        lemma_byte_kinds(b2);
        assert(((c / 4096) * 64 + (c / 64) % 64) * 64 + c % 64 == c) by (nonlinear_arith)
            requires 0 <= c;
        assert(scan_continuation(text, clen, 3, 1, c / 4096) == (3int, c, false));
    } else {
        let b1 = e[1];
        let b2 = e[2];
        let b3 = e[3];
        assert(byte_at(text, 1) == b1);
        assert(byte_at(text, 2) == b2);
        assert(byte_at(text, 3) == b3);
        lemma_byte_kinds(b1);
        lemma_byte_kinds(b2);
        lemma_byte_kinds(b3);
        assert((((c / 262144) * 64 + (c / 4096) % 64) * 64 + (c / 64) % 64) * 64 + c % 64 == c) by (nonlinear_arith)
            requires 0 <= c;
        assert(scan_continuation(text, clen, 4, 1, c / 262144) == (4int, c, false));
    }
}

/// Decodes the first codepoint of the zero-terminated `text`, reading at most
/// `clen` bytes. Writes the codepoint (the replacement codepoint where the
/// input is invalid) and returns the number of bytes it took, 0 where the
/// sequence is incomplete.
pub fn utf8decode(text: &[i8], codepoint: &mut i64, clen: usize) -> (r: usize)
    ensures
        r == decode(text@, clen as int).0,
        *final(codepoint) == decode(text@, clen as int).1,
{
    *codepoint = UTF_INVALID;
    if clen == 0 {
        return 0;
    }
    let mut len: usize = 0;
    let b0: i8 = if 0 < text.len() { text[0] } else { 0 };
    let mut decoded = utf8decodebyte(b0, &mut len);
    proof { lemma_byte_class(b0 as u8); }
    if !between(len as i64, 1, UTF_SIZ as i64) {
        return 1;
    }
    let ghost acc0 = decoded as int;
    proof {
        assert(byte_at(text@, 0) == b0 as u8);
        lemma_scan_shape(text@, clen as int, len as int, 1, acc0);
    }
    let mut i: usize = 1;
    let mut j: usize = 1;
    while i < clen && j < len
        invariant
            i == j,
            clen > 0,
            acc0 == byte_value(byte_at(text@, 0)) as int,
            1 <= j <= len <= 4,
            len == class_or_zero(byte_at(text@, 0)),
            0 <= decoded < acc_bound(j as int),
            scan_continuation(text@, clen as int, len as int, j as int, decoded as int)
                == scan_continuation(text@, clen as int, len as int, 1, acc0),
            *codepoint == UTF_INVALID,
        decreases len - j,
    {
        let mut kind: usize = 0;
        let bi: i8 = if i < text.len() { text[i] } else { 0 };
        proof { assert(byte_at(text@, i as int) == bi as u8); lemma_byte_class(bi as u8); }
        let v = utf8decodebyte(bi, &mut kind);
        if kind != 0 {
            proof {
                assert(scan_continuation(text@, clen as int, len as int, j as int, decoded as int)
                    == (j as int, decoded as int, true));
            }
            return j;
        }
        proof {
            assert(scan_continuation(text@, clen as int, len as int, j as int, decoded as int)
                == scan_continuation(text@, clen as int, len as int, j + 1, decoded * 64 + v));
        }
        decoded = decoded * 64 + v;
        i += 1;
        j += 1;
    }
    if j < len {
        return 0;
    }
    *codepoint = decoded;
    proof { assert(decoded <= 0x10FFFF || validated(decoded, len as int) == UTF_INVALID); }
    utf8validate(codepoint, len)
}

} // verus!
