//! Byte-level building blocks shared by the reader and the writer:
//! hex digits, WTF-8 encoding of code points, the bytes that end a plain
//! run inside a string, and the line/column of a byte offset.
use vstd::prelude::*;
use vstd::string::StringSliceAdditionalSpecFns;

verus! {

/// `"`
pub const QUOTE: u8 = 0x22;
/// `\\`
pub const BACKSLASH: u8 = 0x5C;
/// `0`
pub const DIGIT_0: u8 = 0x30;
/// `9`
pub const DIGIT_9: u8 = 0x39;
/// `A`
pub const UPPER_A: u8 = 0x41;
/// `F`
pub const UPPER_F: u8 = 0x46;
/// `a`
pub const LOWER_A: u8 = 0x61;
/// `f`
pub const LOWER_F: u8 = 0x66;

/// `\n`
pub const NEWLINE: u8 = 0x0A;

/// How many times `b` occurs in `s`.
pub open spec fn count_byte(s: Seq<u8>, b: u8) -> nat
    decreases s.len(),
{
    if s.len() == 0 {
        0
    } else {
        count_byte(s.drop_last(), b) + if s.last() == b { 1nat } else { 0nat }
    }
}

/// The offset at which the line holding offset `i` begins: just past the
/// last newline before `i`, or 0.
pub open spec fn line_start(s: Seq<u8>, i: int) -> int
    decreases i,
{
    if i <= 0 {
        0
    } else if s[i - 1] == NEWLINE {
        i
    } else {
        line_start(s, i - 1)
    }
}

/// The 1-based line of offset `i`.
pub open spec fn line_of(s: Seq<u8>, i: int) -> int {
    1 + count_byte(s.take(line_start(s, i)), NEWLINE) as int
}

/// The 0-based column of offset `i` within its line.
pub open spec fn column_of(s: Seq<u8>, i: int) -> int {
    i - line_start(s, i)
}

/// Calls `memchr::memrchr`.  Taken on trust from its documentation: it
/// gives the offset of the last `needle` in `haystack`, or `None` when
/// `needle` does not occur.
#[verifier::external_body]
pub(crate) fn last_index_of(needle: u8, haystack: &[u8]) -> (res: Option<usize>)
    ensures
        match res {
            Some(i) => i < haystack@.len() && haystack@[i as int] == needle && forall|j: int|
                i < j < haystack@.len() ==> haystack@[j] != needle,
            None => forall|j: int| 0 <= j < haystack@.len() ==> haystack@[j] != needle,
        },
{
    memchr::memrchr(needle, haystack)
}

/// Calls `memchr::memchr_iter` and counts what it yields.  Taken on trust
/// from its documentation: the iterator yields each offset of `needle`
/// once, so the count is how many times `needle` occurs.
#[verifier::external_body]
pub(crate) fn count_of(needle: u8, haystack: &[u8]) -> (res: usize)
    ensures
        res == count_byte(haystack@, needle),
{
    memchr::memchr_iter(needle, haystack).count()
}

/// Calls `memchr::memchr2`.  Taken on trust from its documentation: it
/// gives the offset of the first byte that is `needle1` or `needle2`, or
/// `None` when neither occurs.
#[verifier::external_body]
pub(crate) fn first_index_of_either(needle1: u8, needle2: u8, haystack: &[u8]) -> (res: Option<usize>)
    ensures
        match res {
            Some(i) => i < haystack@.len() && (haystack@[i as int] == needle1 || haystack@[i as int]
                == needle2) && forall|j: int|
                0 <= j < i ==> haystack@[j] != needle1 && haystack@[j] != needle2,
            None => forall|j: int|
                0 <= j < haystack@.len() ==> haystack@[j] != needle1 && haystack@[j] != needle2,
        },
{
    memchr::memchr2(needle1, needle2, haystack)
}

/// Calls `std::str::from_utf8`.  Taken on trust from its documentation:
/// it succeeds exactly on valid UTF-8, with a string of the same bytes.
#[verifier::external_body]
pub(crate) fn str_from_utf8(v: &[u8]) -> (res: Option<&str>)
    ensures
        res is Some <==> vstd::utf8::valid_utf8(v@),
        res matches Some(r) ==> r.spec_bytes() == v@,
{
    std::str::from_utf8(v).ok()
}

/// The line start found from the last newline before offset `i`.
pub proof fn lemma_line_start_from_last_newline(s: Seq<u8>, i: int, k: int)
    requires
        0 <= i <= s.len(),
        0 <= k <= i,
        k == 0 || s[k - 1] == NEWLINE,
        forall|j: int| k <= j < i ==> s[j] != NEWLINE,
    ensures
        line_start(s, i) == k,
    decreases i,
{
    if i > k {
        lemma_line_start_from_last_newline(s, i - 1, k);
    }
}

/// A byte occurs no more often than the length of the sequence.
pub proof fn lemma_count_byte_le_len(s: Seq<u8>, b: u8)
    ensures
        count_byte(s, b) <= s.len(),
    decreases s.len(),
{
    if s.len() > 0 {
        lemma_count_byte_le_len(s.drop_last(), b);
    }
}

/// The value of an ASCII hex digit, if `b` is one.
pub open spec fn hex_value(b: u8) -> Option<u8> {
    if DIGIT_0 <= b <= DIGIT_9 {
        Some((b - DIGIT_0) as u8)
    } else if UPPER_A <= b <= UPPER_F {
        Some((b - UPPER_A + 10) as u8)
    } else if LOWER_A <= b <= LOWER_F {
        Some((b - LOWER_A + 10) as u8)
    } else {
        None
    }
}

/// The value of four hex digits, most significant first.
pub open spec fn four_hex_value(a: u8, b: u8, c: u8, d: u8) -> Option<u16> {
    match (hex_value(a), hex_value(b), hex_value(c), hex_value(d)) {
        (Some(va), Some(vb), Some(vc), Some(vd)) => Some(
            (va as int * 4096 + vb as int * 256 + vc as int * 16 + vd as int) as u16,
        ),
        _ => None,
    }
}

/// Whether `ch` ends a run of plain bytes inside a string: a quote, a
/// backslash, or (when asked for) an ASCII control character.
pub open spec fn spec_is_escape(ch: u8, including_control_characters: bool) -> bool {
    ch == QUOTE || ch == BACKSLASH || (including_control_characters && ch < 0x20)
}

/// The WTF-8 encoding of a code point up to U+10FFFF.  Unlike UTF-8 it also
/// encodes the surrogates U+D800..U+DFFF, as three bytes.
pub open spec fn wtf8_encode(n: u32) -> Seq<u8> {
    if n < 0x80 {
        seq![n as u8]
    } else if n < 0x800 {
        seq![(((n >> 6) & 0x1F) | 0xC0) as u8, ((n & 0x3F) | 0x80) as u8]
    } else if n < 0x10000 {
        seq![
            (((n >> 12) & 0x0F) | 0xE0) as u8,
            (((n >> 6) & 0x3F) | 0x80) as u8,
            ((n & 0x3F) | 0x80) as u8,
        ]
    } else {
        seq![
            (((n >> 18) & 0x07) | 0xF0) as u8,
            (((n >> 12) & 0x3F) | 0x80) as u8,
            (((n >> 6) & 0x3F) | 0x80) as u8,
            ((n & 0x3F) | 0x80) as u8,
        ]
    }
}

/// Whether `b` ends a plain run inside a string.
pub fn is_escape(ch: u8, including_control_characters: bool) -> (res: bool)
    ensures
        res == spec_is_escape(ch, including_control_characters),
{
    ch == QUOTE || ch == BACKSLASH || (including_control_characters && ch < 0x20)
}

/// The value of one hex digit.
pub fn decode_hex_val_slow(val: u8) -> (res: Option<u8>)
    ensures
        res == hex_value(val),
{
    if DIGIT_0 <= val && val <= DIGIT_9 {
        Some(val - DIGIT_0)
    } else if UPPER_A <= val && val <= UPPER_F {
        Some(val - UPPER_A + 10)
    } else if LOWER_A <= val && val <= LOWER_F {
        Some(val - LOWER_A + 10)
    } else {
        None
    }
}

/// The table of hex digit values for every byte, each shifted left by
/// `shift` bits, and -1 for the bytes that are not hex digits.
pub fn build_hex_table(shift: usize) -> (res: Vec<i16>)
    requires
        shift < 12,
    ensures
        res@.len() == 256,
        forall|b: int|
            0 <= b < 256 ==> #[trigger] res@[b] == match hex_value(b as u8) {
                Some(v) => ((v as i16) << shift),
                None => -1i16,
            },
{
    let mut table: Vec<i16> = Vec::new();
    let mut ch: usize = 0;
    while ch < 256
        invariant
            ch <= 256,
            shift < 12,
            table@.len() == ch,
            forall|b: int|
                0 <= b < ch ==> #[trigger] table@[b] == match hex_value(b as u8) {
                    Some(v) => ((v as i16) << shift),
                    None => -1i16,
                },
        decreases 256 - ch,
    {
        let entry: i16 = match decode_hex_val_slow(ch as u8) {
            Some(val) => (val as i16) << shift,
            None => -1,
        };
        table.push(entry);
        ch += 1;
    }
    table
}

/// The value of four hex digits, or `None` if one of them is not a hex digit.
pub fn decode_four_hex_digits(a: u8, b: u8, c: u8, d: u8) -> (res: Option<u16>)
    ensures
        res == four_hex_value(a, b, c, d),
{
    match (decode_hex_val_slow(a), decode_hex_val_slow(b), decode_hex_val_slow(c), decode_hex_val_slow(d)) {
        (Some(va), Some(vb), Some(vc), Some(vd)) => {
            let v: u16 = (va as u16) * 4096 + (vb as u16) * 256 + (vc as u16) * 16 + (vd as u16);
            Some(v)
        },
        _ => None,
    }
}

/// Appends the WTF-8 encoding of the code point `n` to `scratch`.
pub fn push_wtf8_codepoint(n: u32, scratch: &mut Vec<u8>)
    requires
        n <= 0x10FFFF,
    ensures
        final(scratch)@ == old(scratch)@ + wtf8_encode(n),
{
    if n < 0x80 {
        scratch.push(n as u8);
    } else if n < 0x800 {
        scratch.push((((n >> 6) & 0x1F) | 0xC0) as u8);
        scratch.push(((n & 0x3F) | 0x80) as u8);
    } else if n < 0x10000 {
        scratch.push((((n >> 12) & 0x0F) | 0xE0) as u8);
        scratch.push((((n >> 6) & 0x3F) | 0x80) as u8);
        scratch.push(((n & 0x3F) | 0x80) as u8);
    } else {
        scratch.push((((n >> 18) & 0x07) | 0xF0) as u8);
        scratch.push((((n >> 12) & 0x3F) | 0x80) as u8);
        scratch.push((((n >> 6) & 0x3F) | 0x80) as u8);
        scratch.push(((n & 0x3F) | 0x80) as u8);
    }
    assert(scratch@ =~= old(scratch)@ + wtf8_encode(n));
}

/// For a Unicode scalar value, WTF-8 is UTF-8.
pub proof fn lemma_wtf8_scalar(c: char)
    ensures
        wtf8_encode(c as u32) == vstd::utf8::encode_utf8(seq![c]),
{
    let n = c as u32;
    vstd::utf8::char_is_scalar(c);
    assert(seq![c].drop_first() =~= Seq::<char>::empty());
    reveal_with_fuel(vstd::utf8::encode_utf8, 2);
    assert(seq![c][0] == c);
    assert(vstd::utf8::encode_utf8(seq![c]) =~= vstd::utf8::encode_scalar(n) + Seq::<u8>::empty());
    assert(vstd::utf8::encode_utf8(seq![c]) =~= vstd::utf8::encode_scalar(n));
    if n < 0x80 {
        assert(n as u8 == (n & 0x7F) as u8) by (bit_vector)
            requires
                n < 0x80,
        ;
    } else if n < 0x800 {
        assert((((n >> 6) & 0x1F) | 0xC0) as u8 == 0xC0 | ((n >> 6) & 0x1F) as u8 && ((n & 0x3F)
            | 0x80) as u8 == 0x80 | (n & 0x3F) as u8) by (bit_vector);
    } else if n < 0x10000 {
        assert((((n >> 12) & 0x0F) | 0xE0) as u8 == 0xE0 | ((n >> 12) & 0x0F) as u8 && (((n >> 6)
            & 0x3F) | 0x80) as u8 == 0x80 | ((n >> 6) & 0x3F) as u8 && ((n & 0x3F) | 0x80) as u8
            == 0x80 | (n & 0x3F) as u8) by (bit_vector);
    } else {
        assert((((n >> 18) & 0x07) | 0xF0) as u8 == 0xF0 | ((n >> 18) & 0x7) as u8 && (((n >> 12)
            & 0x3F) | 0x80) as u8 == 0x80 | ((n >> 12) & 0x3F) as u8 && (((n >> 6) & 0x3F) | 0x80)
            as u8 == 0x80 | ((n >> 6) & 0x3F) as u8 && ((n & 0x3F) | 0x80) as u8 == 0x80 | (n
            & 0x3F) as u8) by (bit_vector);
    }
}

} // verus!
