//! The grammar of nuan5json text, stated over the input bytes and an offset.
//! Each rule says what the reader finds at an offset: a value and the offset
//! just past it, or the error it reports and the offset whose line and
//! column the error carries.
use vstd::prelude::*;
use crate::error::{Error, ErrorCode};
use crate::de::ParserNumber;
use crate::text::{BACKSLASH, QUOTE, column_of, four_hex_value, line_of, spec_is_escape, wtf8_encode};

verus! {

/// What a rule finds: a value with the offset after it, or an error code
/// with the offset it is reported at.
pub enum Scan<T> {
    Done(T, int),
    Fail(ErrorCode, int),
}

/// The error with `code` that the reader reports at offset `i` of `s`.
pub open spec fn error_at(s: Seq<u8>, i: int, code: ErrorCode) -> Error {
    Error { column: column_of(s, i) as usize, line: line_of(s, i) as usize, code: code }
}

/// The offset reported by a "peek" error at offset `i`: one past `i`,
/// but never past the end.
pub open spec fn peek_at(s: Seq<u8>, i: int) -> int {
    if i + 1 < s.len() {
        i + 1
    } else {
        s.len() as int
    }
}

/// Space, tab, newline and carriage return.
pub open spec fn is_ws(b: u8) -> bool {
    b == 0x20 || b == 0x0A || b == 0x09 || b == 0x0D
}

/// The first offset at or after `i` that does not hold whitespace.
pub open spec fn skip_ws(s: Seq<u8>, i: int) -> int
    decreases s.len() - i,
{
    if i < 0 || i >= s.len() {
        i
    } else if is_ws(s[i]) {
        skip_ws(s, i + 1)
    } else {
        i
    }
}

/// Skipping whitespace moves forward and stays within the input.
pub proof fn lemma_skip_ws(s: Seq<u8>, i: int)
    requires
        0 <= i <= s.len(),
    ensures
        i <= skip_ws(s, i) <= s.len(),
        forall|k: int| i <= k < skip_ws(s, i) ==> is_ws(#[trigger] s[k]),
        skip_ws(s, i) < s.len() ==> !is_ws(s[skip_ws(s, i)]),
    decreases s.len() - i,
{
    if i < s.len() && is_ws(s[i]) {
        lemma_skip_ws(s, i + 1);
    }
}

/// Matching the bytes of `ident` one by one from offset `i`.
pub open spec fn scan_ident(s: Seq<u8>, i: int, ident: Seq<u8>) -> Scan<()>
    decreases ident.len(),
{
    if ident.len() == 0 {
        Scan::Done((), i)
    } else if i >= s.len() {
        Scan::Fail(ErrorCode::EofWhileParsingValue, s.len() as int)
    } else if s[i] != ident[0] {
        Scan::Fail(ErrorCode::ExpectedSomeIdent, i + 1)
    } else {
        scan_ident(s, i + 1, ident.drop_first())
    }
}

/// The first offset at or after `i` holding a byte that ends a plain run
/// of a string, or the end of the input.
pub open spec fn next_escape(s: Seq<u8>, i: int, forbid_control: bool) -> int
    decreases s.len() - i,
{
    if i < 0 || i >= s.len() {
        i
    } else if spec_is_escape(s[i], forbid_control) {
        i
    } else {
        next_escape(s, i + 1, forbid_control)
    }
}

/// Four hex digits at offset `q`.
pub open spec fn scan_hex4(s: Seq<u8>, q: int) -> Scan<u16> {
    if 0 <= q && q + 4 <= s.len() {
        match four_hex_value(s[q], s[q + 1], s[q + 2], s[q + 3]) {
            Some(v) => Scan::Done(v, q + 4),
            None => Scan::Fail(ErrorCode::InvalidEscape, q + 4),
        }
    } else {
        Scan::Fail(ErrorCode::EofWhileParsingString, s.len() as int)
    }
}

/// Whether `n` is a leading (high) surrogate.
pub open spec fn is_leading_surrogate(n: u16) -> bool {
    0xD800 <= n <= 0xDBFF
}

/// Whether `n` is a trailing (low) surrogate.
pub open spec fn is_trailing_surrogate(n: u16) -> bool {
    0xDC00 <= n <= 0xDFFF
}

/// The code point of a surrogate pair.
pub open spec fn surrogate_pair(n1: u16, n2: u16) -> u32 {
    ((n1 - 0xD800) * 0x400 + (n2 - 0xDC00) + 0x1_0000) as u32
}

/// The byte that the one-letter escape `\c` stands for, if `c` is one.
pub open spec fn simple_escape(c: u8) -> Option<u8> {
    if c == 0x22 {
        Some(0x22u8)
    } else if c == 0x5C {
        Some(0x5Cu8)
    } else if c == 0x2F {
        Some(0x2Fu8)
    } else if c == 0x62 {
        Some(0x08u8)
    } else if c == 0x66 {
        Some(0x0Cu8)
    } else if c == 0x6E {
        Some(0x0Au8)
    } else if c == 0x72 {
        Some(0x0Du8)
    } else if c == 0x74 {
        Some(0x09u8)
    } else {
        None
    }
}

/// The escape that follows a backslash, from offset `p` (just past the
/// backslash): the bytes it stands for and the offset after it.
pub open spec fn scan_escape(s: Seq<u8>, p: int, validate: bool) -> Scan<Seq<u8>>
    decreases s.len() - p, 2int,
{
    if p < 0 || p >= s.len() {
        Scan::Fail(ErrorCode::EofWhileParsingValue, s.len() as int)
    } else if s[p] == 0x75 {
        scan_unicode_escape(s, p + 1, validate)
    } else {
        match simple_escape(s[p]) {
            Some(b) => Scan::Done(seq![b], p + 1),
            None => Scan::Fail(ErrorCode::InvalidEscape, p + 1),
        }
    }
}

/// A `\u` escape, from offset `q` (just past the `u`).
pub open spec fn scan_unicode_escape(s: Seq<u8>, q: int, validate: bool) -> Scan<Seq<u8>>
    decreases s.len() - q, 1int,
{
    if q < 0 || q >= s.len() {
        Scan::Fail(ErrorCode::EofWhileParsingString, s.len() as int)
    } else {
        match scan_hex4(s, q) {
            Scan::Fail(c, a) => Scan::Fail(c, a),
            Scan::Done(n, r) => if validate && is_trailing_surrogate(n) {
                Scan::Fail(ErrorCode::LoneLeadingSurrogateInHexEscape, r)
            } else {
                scan_surrogate_tail(s, n, r, validate)
            },
        }
    }
}

/// What follows the code unit `n` of a `\u` escape, from offset `r`: a
/// leading surrogate looks for a second `\u` escape holding its pair.
pub open spec fn scan_surrogate_tail(s: Seq<u8>, n: u16, r: int, validate: bool) -> Scan<Seq<u8>>
    decreases s.len() - r, 0int,
{
    if !is_leading_surrogate(n) {
        Scan::Done(wtf8_encode(n as u32), r)
    } else if r < 0 || r >= s.len() {
        Scan::Fail(ErrorCode::EofWhileParsingValue, s.len() as int)
    } else if s[r] != 0x5C {
        if validate {
            Scan::Fail(ErrorCode::UnexpectedEndOfHexEscape, r + 1)
        } else {
            Scan::Done(wtf8_encode(n as u32), r)
        }
    } else if r + 1 >= s.len() {
        Scan::Fail(ErrorCode::EofWhileParsingValue, s.len() as int)
    } else if s[r + 1] != 0x75 {
        if validate {
            Scan::Fail(ErrorCode::UnexpectedEndOfHexEscape, r + 2)
        } else {
            match scan_escape(s, r + 1, validate) {
                Scan::Done(b, e) => Scan::Done(wtf8_encode(n as u32) + b, e),
                Scan::Fail(c, a) => Scan::Fail(c, a),
            }
        }
    } else {
        match scan_hex4(s, r + 2) {
            Scan::Fail(c, a) => Scan::Fail(c, a),
            Scan::Done(n2, r2) => if is_trailing_surrogate(n2) {
                Scan::Done(wtf8_encode(surrogate_pair(n, n2)), r2)
            } else if validate {
                Scan::Fail(ErrorCode::LoneLeadingSurrogateInHexEscape, r2)
            } else {
                match scan_surrogate_tail(s, n2, r2, validate) {
                    Scan::Done(b, e) => Scan::Done(wtf8_encode(n as u32) + b, e),
                    Scan::Fail(c, a) => Scan::Fail(c, a),
                }
            },
        }
    }
}

/// An escape that is read ends past its backslash, and no further than
/// the end of the input.
pub proof fn lemma_escape_advances(s: Seq<u8>, p: int, validate: bool)
    ensures
        scan_escape(s, p, validate) matches Scan::Done(_, j) ==> p < j <= s.len(),
    decreases s.len() - p, 2int,
{
    if 0 <= p < s.len() && s[p] == 0x75 {
        lemma_unicode_escape_advances(s, p + 1, validate);
    }
}

/// A `\u` escape that is read ends past its four digits.
pub proof fn lemma_unicode_escape_advances(s: Seq<u8>, q: int, validate: bool)
    ensures
        scan_unicode_escape(s, q, validate) matches Scan::Done(_, j) ==> q < j <= s.len(),
    decreases s.len() - q, 1int,
{
    if 0 <= q < s.len() {
        if let Scan::Done(n, r) = scan_hex4(s, q) {
            lemma_surrogate_tail_advances(s, n, r, validate);
        }
    }
}

/// What follows a `\u` escape never moves back.
pub proof fn lemma_surrogate_tail_advances(s: Seq<u8>, n: u16, r: int, validate: bool)
    requires
        0 <= r <= s.len(),
    ensures
        scan_surrogate_tail(s, n, r, validate) matches Scan::Done(_, j) ==> r <= j <= s.len(),
    decreases s.len() - r, 0int,
{
    if is_leading_surrogate(n) && 0 <= r < s.len() && s[r] == 0x5C && r + 1 < s.len() {
        if s[r + 1] != 0x75 {
            lemma_escape_advances(s, r + 1, validate);
        } else if let Scan::Done(n2, r2) = scan_hex4(s, r + 2) {
            lemma_surrogate_tail_advances(s, n2, r2, validate);
        }
    }
}

/// The body of a string from offset `i` (just past the opening quote): the
/// bytes it stands for and the offset just past the closing quote.  With
/// `validate`, ASCII control characters are refused and escapes must form
/// valid UTF-16.
#[verifier::opaque]
pub open spec fn scan_str(s: Seq<u8>, i: int, validate: bool) -> Scan<Seq<u8>>
    decreases s.len() - i,
{
    if i < 0 || i >= s.len() {
        Scan::Fail(ErrorCode::EofWhileParsingString, s.len() as int)
    } else if s[i] == QUOTE {
        Scan::Done(Seq::empty(), i + 1)
    } else if s[i] == BACKSLASH {
        proof {
            lemma_escape_advances(s, i + 1, validate);
        }
        match scan_escape(s, i + 1, validate) {
            Scan::Fail(c, a) => Scan::Fail(c, a),
            Scan::Done(b, j) => match scan_str(s, j, validate) {
                Scan::Done(rest, e) => Scan::Done(b + rest, e),
                Scan::Fail(c, a) => Scan::Fail(c, a),
            },
        }
    } else if validate && s[i] < 0x20 {
        Scan::Fail(ErrorCode::ControlCharacterWhileParsingString, i + 1)
    } else {
        match scan_str(s, i + 1, validate) {
            Scan::Done(rest, e) => Scan::Done(seq![s[i]] + rest, e),
            Scan::Fail(c, a) => Scan::Fail(c, a),
        }
    }
}

/// Plain bytes are taken over as they are: a run of them in front of
/// offset `j` adds itself to what is read from `j`.
pub proof fn lemma_plain_run(s: Seq<u8>, i: int, j: int, validate: bool)
    requires
        0 <= i <= j <= s.len(),
        forall|k: int| i <= k < j ==> !spec_is_escape(#[trigger] s[k], validate),
    ensures
        scan_str(s, i, validate) == match scan_str(s, j, validate) {
            Scan::Done(b, e) => Scan::Done(s.subrange(i, j) + b, e),
            Scan::Fail(c, a) => Scan::Fail(c, a),
        },
    decreases j - i,
{
    reveal(scan_str);
    if i < j {
        lemma_plain_run(s, i + 1, j, validate);
        assert(s.subrange(i, j) =~= seq![s[i]] + s.subrange(i + 1, j));
        match scan_str(s, j, validate) {
            Scan::Done(b, e) => {
                assert(seq![s[i]] + (s.subrange(i + 1, j) + b) =~= s.subrange(i, j) + b);
            },
            Scan::Fail(c, a) => {},
        }
    } else {
        match scan_str(s, j, validate) {
            Scan::Done(b, e) => {
                assert(s.subrange(i, j) + b =~= b);
            },
            Scan::Fail(c, a) => {},
        }
    }
}

/// `next_escape` finds the first byte that ends a plain run.
pub proof fn lemma_next_escape_at(s: Seq<u8>, i: int, j: int, forbid_control: bool)
    requires
        0 <= i <= j <= s.len(),
        forall|k: int| i <= k < j ==> !spec_is_escape(#[trigger] s[k], forbid_control),
        j == s.len() || spec_is_escape(s[j], forbid_control),
    ensures
        next_escape(s, i, forbid_control) == j,
    decreases j - i,
{
    if i < j {
        lemma_next_escape_at(s, i + 1, j, forbid_control);
    }
}

/// Everything before `next_escape` is plain, and it stops at an escape
/// byte or the end.
pub proof fn lemma_next_escape_props(s: Seq<u8>, i: int, forbid_control: bool)
    requires
        0 <= i <= s.len(),
    ensures
        i <= next_escape(s, i, forbid_control) <= s.len(),
        forall|k: int|
            i <= k < next_escape(s, i, forbid_control) ==> !spec_is_escape(
                #[trigger] s[k],
                forbid_control,
            ),
        next_escape(s, i, forbid_control) == s.len() || spec_is_escape(
            s[next_escape(s, i, forbid_control)],
            forbid_control,
        ),
    decreases s.len() - i,
{
    if i < s.len() && !spec_is_escape(s[i], forbid_control) {
        lemma_next_escape_props(s, i + 1, forbid_control);
    }
}

/// A string ends at a quote.
pub proof fn lemma_scan_str_quote(s: Seq<u8>, j: int, validate: bool)
    requires
        0 <= j < s.len(),
        s[j] == QUOTE,
    ensures
        scan_str(s, j, validate) == Scan::Done(Seq::<u8>::empty(), j + 1),
{
    reveal(scan_str);
}

/// A string body that runs to the end of the input.
pub proof fn lemma_scan_str_end(s: Seq<u8>, j: int, validate: bool)
    requires
        j == s.len(),
    ensures
        scan_str(s, j, validate) == Scan::<Seq<u8>>::Fail(ErrorCode::EofWhileParsingString, s.len() as int),
{
    reveal(scan_str);
}

/// A backslash in a string starts an escape.
pub proof fn lemma_scan_str_escape(s: Seq<u8>, j: int, validate: bool)
    requires
        0 <= j < s.len(),
        s[j] == BACKSLASH,
    ensures
        scan_str(s, j, validate) == match scan_escape(s, j + 1, validate) {
            Scan::Fail(c, a) => Scan::Fail(c, a),
            Scan::Done(b, k) => match scan_str(s, k, validate) {
                Scan::Done(rest, e) => Scan::Done(b + rest, e),
                Scan::Fail(c, a) => Scan::Fail(c, a),
            },
        },
{
    reveal(scan_str);
}

/// A control character in a validated string is refused.
pub proof fn lemma_scan_str_control(s: Seq<u8>, j: int)
    requires
        0 <= j < s.len(),
        s[j] != QUOTE,
        s[j] != BACKSLASH,
        s[j] < 0x20,
    ensures
        scan_str(s, j, true) == Scan::<Seq<u8>>::Fail(ErrorCode::ControlCharacterWhileParsingString, j + 1),
{
    reveal(scan_str);
}

/// The colon between a key and its value, after optional whitespace.
pub open spec fn scan_colon(s: Seq<u8>, i: int) -> Scan<()> {
    let j = skip_ws(s, i);
    if j >= s.len() {
        Scan::Fail(ErrorCode::EofWhileParsingObject, peek_at(s, j))
    } else if s[j] == 0x3A {
        Scan::Done((), j + 1)
    } else {
        Scan::Fail(ErrorCode::ExpectedColon, peek_at(s, j))
    }
}

/// The `]` that closes an array (`eof` is the error at the end of the
/// input); a comma before it is a trailing comma.
pub open spec fn scan_close_bracket(s: Seq<u8>, i: int, eof: ErrorCode) -> Scan<()> {
    let j = skip_ws(s, i);
    if j >= s.len() {
        Scan::Fail(eof, peek_at(s, j))
    } else if s[j] == 0x5D {
        Scan::Done((), j + 1)
    } else if s[j] == 0x2C {
        let k = skip_ws(s, j + 1);
        if k < s.len() && s[k] == 0x5D {
            Scan::Fail(ErrorCode::TrailingComma, peek_at(s, k))
        } else {
            Scan::Fail(ErrorCode::TrailingCharacters, peek_at(s, k))
        }
    } else {
        Scan::Fail(ErrorCode::TrailingCharacters, peek_at(s, j))
    }
}

/// The `}` that closes an object.
pub open spec fn scan_close_brace(s: Seq<u8>, i: int) -> Scan<()> {
    let j = skip_ws(s, i);
    if j >= s.len() {
        Scan::Fail(ErrorCode::EofWhileParsingObject, peek_at(s, j))
    } else if s[j] == 0x7D {
        Scan::Done((), j + 1)
    } else if s[j] == 0x2C {
        Scan::Fail(ErrorCode::TrailingComma, peek_at(s, j))
    } else {
        Scan::Fail(ErrorCode::TrailingCharacters, peek_at(s, j))
    }
}

/// Whether offset `p` holds an ASCII digit.
pub open spec fn digit_at(s: Seq<u8>, p: int) -> bool {
    0 <= p < s.len() && 0x30 <= s[p] <= 0x39
}

/// The value of the digit at offset `p`.
pub open spec fn digit_value(s: Seq<u8>, p: int) -> u64 {
    (s[p] - 0x30) as u64
}

/// Whether `sig * 10 + d` would not fit in a `u64`.
pub open spec fn u64_overflows(sig: u64, d: u64) -> bool {
    sig >= u64::MAX / 10 && (sig > u64::MAX / 10 || d > u64::MAX % 10)
}

/// Whether `exp * 10 + d` would not fit in an `i32`.
pub open spec fn i32_overflows(exp: i32, d: i32) -> bool {
    exp >= i32::MAX / 10 && (exp > i32::MAX / 10 || d > i32::MAX % 10)
}

/// `v` clamped to the range of `i32`.
pub open spec fn clamp_i32(v: int) -> i32 {
    if v > i32::MAX {
        i32::MAX
    } else if v < i32::MIN {
        i32::MIN
    } else {
        v as i32
    }
}

/// A number to be read as a float: its sign, decimal significand and power of ten.
pub open spec fn float_number(positive: bool, significand: u64, exponent: int) -> ParserNumber {
    ParserNumber::Float { positive: positive, significand: significand, exponent: exponent as i32 }
}

/// An integer without fraction or exponent: a `u64` when positive, an
/// `i64` when negative and representable, and a float for `-0` and for
/// negative numbers below `i64::MIN`.
pub open spec fn integer_number(positive: bool, significand: u64) -> ParserNumber {
    if positive {
        ParserNumber::U64(significand)
    } else if significand == 0 || significand > 0x8000_0000_0000_0000 {
        float_number(false, significand, 0)
    } else {
        ParserNumber::I64((0 - significand) as i64)
    }
}

/// Where the number reader that started at `start` stands after an error
/// `c` reported at offset `a`: one byte before `a` when it saw the error by
/// looking ahead, that is a second digit after a leading zero, or no digit
/// after a decimal point; at `a` otherwise.
pub open spec fn number_stop(s: Seq<u8>, start: int, c: ErrorCode, a: int) -> int {
    if c == ErrorCode::InvalidNumber && start < a - 1 < s.len() && (digit_at(s, a - 1) || s[a - 2] == 0x2E) {
        a - 1
    } else {
        a
    }
}

/// Where a number reader stands after an error is the same measured from
/// an earlier start, when the error, if it is an invalid number, lies past
/// the byte after the later start.
pub proof fn lemma_number_stop_later(s: Seq<u8>, start: int, later: int)
    requires
        start <= later,
    ensures
        forall|c: ErrorCode, a: int|
            (c == ErrorCode::InvalidNumber ==> later + 1 < a) ==> #[trigger] number_stop(s, start, c, a)
                == number_stop(s, later, c, a),
{
}

/// The integer part of a number from offset `i` (just past any `-` sign).
pub open spec fn scan_integer(s: Seq<u8>, i: int, positive: bool) -> Scan<ParserNumber> {
    if i < 0 || i >= s.len() {
        Scan::Fail(ErrorCode::EofWhileParsingValue, s.len() as int)
    } else if s[i] == 0x30 {
        if digit_at(s, i + 1) {
            Scan::Fail(ErrorCode::InvalidNumber, peek_at(s, i + 1))
        } else {
            scan_after_integer(s, i + 1, positive, 0)
        }
    } else if digit_at(s, i) {
        scan_integer_digits(s, i + 1, positive, digit_value(s, i))
    } else {
        Scan::Fail(ErrorCode::InvalidNumber, i + 1)
    }
}

/// More digits of the integer part, accumulated into `sig` while it fits.
pub open spec fn scan_integer_digits(s: Seq<u8>, p: int, positive: bool, sig: u64) -> Scan<ParserNumber>
    decreases s.len() - p,
{
    if p < 0 || p > s.len() {
        Scan::Fail(ErrorCode::EofWhileParsingValue, s.len() as int)
    } else if digit_at(s, p) {
        if u64_overflows(sig, digit_value(s, p)) {
            scan_long_integer(s, p, positive, sig, 0)
        } else {
            scan_integer_digits(s, p + 1, positive, (sig * 10 + digit_value(s, p)) as u64)
        }
    } else {
        scan_after_integer(s, p, positive, sig)
    }
}

/// Digits that no longer fit are counted as powers of ten, up to the
/// largest that an `i32` holds.
pub open spec fn scan_long_integer(s: Seq<u8>, p: int, positive: bool, sig: u64, exp: int) -> Scan<ParserNumber>
    decreases s.len() - p,
{
    if p < 0 || p > s.len() {
        Scan::Fail(ErrorCode::EofWhileParsingValue, s.len() as int)
    } else if digit_at(s, p) {
        scan_long_integer(s, p + 1, positive, sig, if exp < i32::MAX { exp + 1 } else { exp })
    } else if p < s.len() && s[p] == 0x2E {
        scan_fraction(s, p + 1, positive, sig, exp, 0)
    } else if p < s.len() && (s[p] == 0x65 || s[p] == 0x45) {
        scan_exponent(s, p + 1, positive, sig, exp)
    } else {
        Scan::Done(float_number(positive, sig, exp), p)
    }
}

/// What follows the integer part: a fraction, an exponent, or nothing.
pub open spec fn scan_after_integer(s: Seq<u8>, p: int, positive: bool, sig: u64) -> Scan<ParserNumber> {
    if p < 0 || p > s.len() {
        Scan::Fail(ErrorCode::EofWhileParsingValue, s.len() as int)
    } else if p < s.len() && s[p] == 0x2E {
        scan_fraction(s, p + 1, positive, sig, 0, 0)
    } else if p < s.len() && (s[p] == 0x65 || s[p] == 0x45) {
        scan_exponent(s, p + 1, positive, sig, 0)
    } else {
        Scan::Done(integer_number(positive, sig), p)
    }
}

/// The digits after a decimal point, each taking one power of ten (down
/// to the smallest that an `i32` holds), while the significand fits; at
/// least one is needed.
pub open spec fn scan_fraction(
    s: Seq<u8>,
    p: int,
    positive: bool,
    sig: u64,
    before: int,
    after: int,
) -> Scan<ParserNumber>
    decreases s.len() - p,
{
    if p < 0 || p > s.len() || (p == s.len() && after == 0) {
        Scan::Fail(ErrorCode::EofWhileParsingValue, s.len() as int)
    } else if digit_at(s, p) {
        if u64_overflows(sig, digit_value(s, p)) {
            scan_fraction_overflow(s, p, positive, sig, before + after)
        } else {
            scan_fraction(
                s,
                p + 1,
                positive,
                (sig * 10 + digit_value(s, p)) as u64,
                before,
                if after > i32::MIN { after - 1 } else { after },
            )
        }
    } else if after == 0 {
        Scan::Fail(ErrorCode::InvalidNumber, peek_at(s, p))
    } else if p < s.len() && (s[p] == 0x65 || s[p] == 0x45) {
        scan_exponent(s, p + 1, positive, sig, before + after)
    } else {
        Scan::Done(float_number(positive, sig, before + after), p)
    }
}

/// Fraction digits that no longer fit are dropped.
pub open spec fn scan_fraction_overflow(s: Seq<u8>, p: int, positive: bool, sig: u64, exp: int) -> Scan<ParserNumber>
    decreases s.len() - p,
{
    if p < 0 || p > s.len() {
        Scan::Fail(ErrorCode::EofWhileParsingValue, s.len() as int)
    } else if digit_at(s, p) {
        scan_fraction_overflow(s, p + 1, positive, sig, exp)
    } else if p < s.len() && (s[p] == 0x65 || s[p] == 0x45) {
        scan_exponent(s, p + 1, positive, sig, exp)
    } else {
        Scan::Done(float_number(positive, sig, exp), p)
    }
}

/// An exponent, from just past the `e`: an optional sign and at least one digit.
pub open spec fn scan_exponent(s: Seq<u8>, p: int, positive: bool, sig: u64, start: int) -> Scan<ParserNumber> {
    if p < 0 || p >= s.len() {
        Scan::Fail(ErrorCode::EofWhileParsingValue, s.len() as int)
    } else {
        let positive_exp = s[p] != 0x2D;
        let q = if s[p] == 0x2B || s[p] == 0x2D { p + 1 } else { p };
        if q >= s.len() {
            Scan::Fail(ErrorCode::EofWhileParsingValue, s.len() as int)
        } else if !digit_at(s, q) {
            Scan::Fail(ErrorCode::InvalidNumber, q + 1)
        } else {
            scan_exponent_digits(s, q + 1, positive, sig, start, positive_exp, digit_value(s, q) as i32)
        }
    }
}

/// More digits of an exponent, while it fits in an `i32`.
pub open spec fn scan_exponent_digits(
    s: Seq<u8>,
    p: int,
    positive: bool,
    sig: u64,
    start: int,
    positive_exp: bool,
    exp: i32,
) -> Scan<ParserNumber>
    decreases s.len() - p,
{
    if p < 0 || p > s.len() {
        Scan::Fail(ErrorCode::EofWhileParsingValue, s.len() as int)
    } else if digit_at(s, p) {
        if i32_overflows(exp, digit_value(s, p) as i32) {
            if sig != 0 && positive_exp {
                Scan::Fail(ErrorCode::NumberOutOfRange, p + 1)
            } else {
                scan_zero_tail(s, p + 1, positive)
            }
        } else {
            scan_exponent_digits(s, p + 1, positive, sig, start, positive_exp, (exp * 10 + digit_value(s, p)) as i32)
        }
    } else {
        Scan::Done(
            float_number(positive, sig, clamp_i32(if positive_exp { start + exp } else { start - exp }) as int),
            p,
        )
    }
}

/// The remaining digits of an exponent too large to matter: the number is zero.
pub open spec fn scan_zero_tail(s: Seq<u8>, p: int, positive: bool) -> Scan<ParserNumber>
    decreases s.len() - p,
{
    if p < 0 || p > s.len() {
        Scan::Fail(ErrorCode::EofWhileParsingValue, s.len() as int)
    } else if digit_at(s, p) {
        scan_zero_tail(s, p + 1, positive)
    } else {
        Scan::Done(float_number(positive, 0, 0), p)
    }
}

/// The value of a sequence of decimal digits.
pub open spec fn decimal_value(d: Seq<u8>) -> int
    decreases d.len(),
{
    if d.len() == 0 {
        0
    } else {
        decimal_value(d.drop_last()) * 10 + (d.last() - 0x30)
    }
}

/// A run of digits from offset `p`, collected after `acc`, up to some other
/// byte or the end of the input.
pub open spec fn scan_digit_run(s: Seq<u8>, p: int, acc: Seq<u8>) -> Scan<Seq<u8>>
    decreases s.len() - p,
{
    if p < 0 || p > s.len() {
        Scan::Fail(ErrorCode::EofWhileParsingValue, s.len() as int)
    } else if digit_at(s, p) {
        scan_digit_run(s, p + 1, acc.push(s[p]))
    } else {
        Scan::Done(acc, p)
    }
}

/// The digits of a 128-bit integer from offset `i`: no leading zero, up to
/// some other byte or the end of the input.
pub open spec fn scan_integer128(s: Seq<u8>, i: int) -> Scan<Seq<u8>> {
    if i < 0 || i >= s.len() {
        Scan::Fail(ErrorCode::EofWhileParsingValue, s.len() as int)
    } else if s[i] == 0x30 {
        if digit_at(s, i + 1) {
            Scan::Fail(ErrorCode::InvalidNumber, peek_at(s, i + 1))
        } else {
            Scan::Done(seq![0x30u8], i + 1)
        }
    } else if digit_at(s, i) {
        scan_digit_run(s, i + 1, seq![s[i]])
    } else {
        Scan::Fail(ErrorCode::InvalidNumber, i + 1)
    }
}

/// Every byte of `d` is a digit.
pub open spec fn all_digits(d: Seq<u8>) -> bool {
    forall|k: int| 0 <= k < d.len() ==> 0x30 <= #[trigger] d[k] <= 0x39
}

/// A value of decimal digits grows as digits are appended.
pub proof fn lemma_decimal_value_grows(d: Seq<u8>, k: int)
    requires
        all_digits(d),
        0 <= k <= d.len(),
    ensures
        0 <= decimal_value(d.take(k)) <= decimal_value(d),
    decreases d.len() - k,
{
    if k < d.len() {
        lemma_decimal_value_grows(d, k + 1);
        assert(d.take(k + 1).drop_last() =~= d.take(k));
        lemma_decimal_value_nonneg(d.take(k));
    } else {
        assert(d.take(k) =~= d);
        lemma_decimal_value_nonneg(d);
    }
}

/// A value of decimal digits is not negative.
pub proof fn lemma_decimal_value_nonneg(d: Seq<u8>)
    requires
        all_digits(d),
    ensures
        0 <= decimal_value(d),
    decreases d.len(),
{
    if d.len() > 0 {
        lemma_decimal_value_nonneg(d.drop_last());
    }
}

/// A run of digits holds only digits.
pub proof fn lemma_digit_run_digits(s: Seq<u8>, p: int, acc: Seq<u8>)
    requires
        all_digits(acc),
    ensures
        scan_digit_run(s, p, acc) matches Scan::Done(d, _) ==> all_digits(d),
    decreases s.len() - p,
{
    if 0 <= p < s.len() && digit_at(s, p) {
        assert(all_digits(acc.push(s[p]))) by {
            assert forall|k: int| 0 <= k < acc.push(s[p]).len() implies 0x30 <= #[trigger] acc.push(
                s[p],
            )[k] <= 0x39 by {
                if k < acc.len() {
                    assert(acc.push(s[p])[k] == acc[k]);
                }
            }
        }
        lemma_digit_run_digits(s, p + 1, acc.push(s[p]));
    }
}

/// The digits of a 128-bit integer are digits.
pub proof fn lemma_integer128_digits(s: Seq<u8>, i: int)
    ensures
        scan_integer128(s, i) matches Scan::Done(d, _) ==> all_digits(d),
{
    if 0 <= i < s.len() && s[i] != 0x30 && digit_at(s, i) {
        lemma_digit_run_digits(s, i + 1, seq![s[i]]);
    }
}

/// A run of digits from offset `p` (possibly empty), up to some other byte
/// or the end of the input.
pub open spec fn skip_digits(s: Seq<u8>, p: int) -> Scan<()>
    decreases s.len() - p,
{
    if p < 0 || p > s.len() {
        Scan::Fail(ErrorCode::EofWhileParsingValue, s.len() as int)
    } else if digit_at(s, p) {
        skip_digits(s, p + 1)
    } else {
        Scan::Done((), p)
    }
}

/// Skipping an exponent, from just past the `e`.
pub open spec fn skip_exponent(s: Seq<u8>, p: int) -> Scan<()> {
    if p < 0 || p >= s.len() {
        Scan::Fail(ErrorCode::EofWhileParsingValue, s.len() as int)
    } else {
        let q = if s[p] == 0x2B || s[p] == 0x2D { p + 1 } else { p };
        if q >= s.len() {
            Scan::Fail(ErrorCode::EofWhileParsingValue, s.len() as int)
        } else if !digit_at(s, q) {
            Scan::Fail(ErrorCode::InvalidNumber, q + 1)
        } else {
            skip_digits(s, q + 1)
        }
    }
}

/// Skipping a fraction, from just past the decimal point: at least one
/// digit, then an optional exponent.
pub open spec fn skip_fraction(s: Seq<u8>, q: int) -> Scan<()> {
    if q < 0 || q >= s.len() {
        Scan::Fail(ErrorCode::EofWhileParsingValue, s.len() as int)
    } else if !digit_at(s, q) {
        Scan::Fail(ErrorCode::InvalidNumber, peek_at(s, q))
    } else {
        match skip_digits(s, q) {
            Scan::Fail(c, a) => Scan::Fail(c, a),
            Scan::Done(_, r) => if r < s.len() && (s[r] == 0x65 || s[r] == 0x45) {
                skip_exponent(s, r + 1)
            } else {
                Scan::Done((), r)
            },
        }
    }
}

/// Skipping what follows the integer part of a number.
pub open spec fn skip_number_rest(s: Seq<u8>, p: int) -> Scan<()> {
    if p < 0 || p > s.len() {
        Scan::Fail(ErrorCode::EofWhileParsingValue, s.len() as int)
    } else if p < s.len() && s[p] == 0x2E {
        skip_fraction(s, p + 1)
    } else if p < s.len() && (s[p] == 0x65 || s[p] == 0x45) {
        skip_exponent(s, p + 1)
    } else {
        Scan::Done((), p)
    }
}

/// Skipping a number from its first digit.
pub open spec fn skip_integer(s: Seq<u8>, i: int) -> Scan<()> {
    if i < 0 || i >= s.len() {
        Scan::Fail(ErrorCode::EofWhileParsingValue, s.len() as int)
    } else if s[i] == 0x30 {
        if digit_at(s, i + 1) {
            Scan::Fail(ErrorCode::InvalidNumber, peek_at(s, i + 1))
        } else {
            skip_number_rest(s, i + 1)
        }
    } else if digit_at(s, i) {
        match skip_digits(s, i + 1) {
            Scan::Fail(c, a) => Scan::Fail(c, a),
            Scan::Done(_, p) => skip_number_rest(s, p),
        }
    } else {
        Scan::Fail(ErrorCode::InvalidNumber, i + 1)
    }
}

/// Skipping the escape after a backslash, from offset `p`; the digits of a
/// `\u` escape must be hex but are not otherwise checked.
pub open spec fn skip_escape(s: Seq<u8>, p: int) -> Scan<()> {
    if p < 0 || p >= s.len() {
        Scan::Fail(ErrorCode::EofWhileParsingValue, s.len() as int)
    } else if s[p] == 0x75 {
        match scan_hex4(s, p + 1) {
            Scan::Done(_, e) => Scan::Done((), e),
            Scan::Fail(c, a) => Scan::Fail(c, a),
        }
    } else if simple_escape(s[p]) is Some {
        Scan::Done((), p + 1)
    } else {
        Scan::Fail(ErrorCode::InvalidEscape, p + 1)
    }
}

/// Skipping a string body, from just past the opening quote.
pub open spec fn skip_str(s: Seq<u8>, i: int) -> Scan<()>
    decreases s.len() - i,
{
    if i < 0 || i >= s.len() {
        Scan::Fail(ErrorCode::EofWhileParsingString, s.len() as int)
    } else if s[i] == QUOTE {
        Scan::Done((), i + 1)
    } else if s[i] == BACKSLASH {
        match skip_escape(s, i + 1) {
            Scan::Fail(c, a) => Scan::Fail(c, a),
            Scan::Done(_, j) => if j > i {
                skip_str(s, j)
            } else {
                Scan::Fail(ErrorCode::InvalidEscape, j)
            },
        }
    } else if s[i] < 0x20 {
        Scan::Fail(ErrorCode::ControlCharacterWhileParsingString, i)
    } else {
        skip_str(s, i + 1)
    }
}

/// The frame of an open container: `[` for an array, `{` for an object,
/// and `:` for an id map, which opens with `[:`.
pub open spec fn is_open(c: u8) -> bool {
    c == 0x5B || c == 0x7B || c == 0x3A
}

/// The byte that closes the container opened by `frame`.
pub open spec fn closer(frame: u8) -> u8 {
    if frame == 0x7B { 0x7Du8 } else { 0x5Du8 }
}

/// The error at the end of the input inside the container opened by `frame`.
pub open spec fn eof_in(frame: u8) -> ErrorCode {
    if frame == 0x5B {
        ErrorCode::EofWhileParsingArray
    } else if frame == 0x3A {
        ErrorCode::EofWhileParsingIdMap
    } else {
        ErrorCode::EofWhileParsingObject
    }
}

/// The error for a byte that is neither a comma nor the closer of `frame`.
pub open spec fn comma_or_end_in(frame: u8) -> ErrorCode {
    if frame == 0x5B {
        ErrorCode::ExpectedArrayCommaOrEnd
    } else {
        ErrorCode::ExpectedObjectCommaOrEnd
    }
}

/// Skipping one value, after optional whitespace.
pub open spec fn skip_value(s: Seq<u8>, i: int) -> Scan<()>
    decreases s.len() - i, 0int,
{
    if i < 0 || i > s.len() {
        Scan::Fail(ErrorCode::EofWhileParsingValue, s.len() as int)
    } else {
        proof {
            lemma_skip_ws(s, i);
        }
        let j = skip_ws(s, i);
        if j >= s.len() {
            Scan::Fail(ErrorCode::EofWhileParsingValue, s.len() as int)
        } else if s[j] == 0x6E {
            scan_ident(s, j + 1, seq![0x75u8, 0x6Cu8, 0x6Cu8])
        } else if s[j] == 0x74 {
            scan_ident(s, j + 1, seq![0x72u8, 0x75u8, 0x65u8])
        } else if s[j] == 0x66 {
            scan_ident(s, j + 1, seq![0x61u8, 0x6Cu8, 0x73u8, 0x65u8])
        } else if s[j] == 0x2D {
            skip_integer(s, j + 1)
        } else if digit_at(s, j) {
            skip_integer(s, j)
        } else if s[j] == QUOTE {
            skip_str(s, j + 1)
        } else if s[j] == 0x5B && j + 1 < s.len() && s[j + 1] == 0x3A {
            skip_container(s, j + 2, 0x3A, false)
        } else if s[j] == 0x5B || s[j] == 0x7B {
            skip_container(s, j + 1, s[j], false)
        } else {
            Scan::Fail(ErrorCode::ExpectedSomeValue, peek_at(s, j))
        }
    }
}

/// Skipping the key of an object element or id map entry from offset `p`,
/// and the colon after it: for an object a string, for an id map an
/// integer; in an array there is nothing to skip.  The offset where the
/// value starts.
pub open spec fn member_start(s: Seq<u8>, p: int, frame: u8) -> Scan<()> {
    let k = skip_ws(s, p);
    if frame == 0x5B {
        Scan::Done((), p)
    } else if k >= s.len() {
        Scan::Fail(eof_in(frame), peek_at(s, k))
    } else {
        let key = if frame == 0x7B {
            if s[k] != QUOTE {
                Scan::Fail(ErrorCode::KeyMustBeAString, peek_at(s, k))
            } else {
                skip_str(s, k + 1)
            }
        } else if s[k] == 0x2D {
            skip_integer(s, k + 1)
        } else if digit_at(s, k) {
            skip_integer(s, k)
        } else {
            Scan::Fail(ErrorCode::ExpectedNumericKey, peek_at(s, k))
        };
        match key {
            Scan::Fail(c, a) => Scan::Fail(c, a),
            Scan::Done(_, q) => {
                let q2 = skip_ws(s, q);
                if q2 >= s.len() {
                    Scan::Fail(eof_in(frame), peek_at(s, q2))
                } else if s[q2] != 0x3A {
                    Scan::Fail(ErrorCode::ExpectedColon, peek_at(s, q2))
                } else {
                    Scan::Done((), q2 + 1)
                }
            },
        }
    }
}

/// Skipping the rest of a container opened by `frame`, from offset `p`:
/// either just past the opener (`accept_comma` false) or just past an
/// element (`accept_comma` true).
pub open spec fn skip_container(s: Seq<u8>, p: int, frame: u8, accept_comma: bool) -> Scan<()>
    decreases s.len() - p, 2int,
{
    if p < 0 || p > s.len() {
        Scan::Fail(eof_in(frame), s.len() as int)
    } else {
        proof {
            lemma_skip_ws(s, p);
        }
        let k = skip_ws(s, p);
        if k >= s.len() {
            Scan::Fail(eof_in(frame), peek_at(s, k))
        } else if s[k] == 0x2C && accept_comma {
            skip_member(s, k + 1, frame)
        } else if s[k] == closer(frame) {
            Scan::Done((), k + 1)
        } else if accept_comma {
            Scan::Fail(comma_or_end_in(frame), peek_at(s, k))
        } else {
            skip_member(s, k, frame)
        }
    }
}

/// Skipping one element of a container opened by `frame` (for an object,
/// a string key, a colon and a value; for an id map, an integer key, a
/// colon and a value) and the rest of the container.
pub open spec fn skip_member(s: Seq<u8>, p: int, frame: u8) -> Scan<()>
    decreases s.len() - p, 1int,
{
    if p < 0 || p > s.len() {
        Scan::Fail(eof_in(frame), s.len() as int)
    } else {
        let start = member_start(s, p, frame);
        match start {
            Scan::Fail(c, a) => Scan::Fail(c, a),
            Scan::Done(_, v) => if v < p {
                Scan::Fail(ErrorCode::ExpectedSomeValue, v)
            } else {
                match skip_value(s, v) {
                    Scan::Fail(c, a) => Scan::Fail(c, a),
                    Scan::Done(_, e) => if p < e <= s.len() {
                        skip_container(s, e, frame, true)
                    } else {
                        Scan::Fail(ErrorCode::ExpectedSomeValue, e)
                    },
                }
            },
        }
    }
}

/// Having read a value that ends at `e`, skipping the rest of each
/// enclosing container, innermost last in `frames`.
pub open spec fn finish_frames(s: Seq<u8>, e: int, frames: Seq<u8>) -> Scan<()>
    decreases frames.len(),
{
    if frames.len() == 0 {
        Scan::Done((), e)
    } else {
        match skip_container(s, e, frames.last(), true) {
            Scan::Fail(c, a) => Scan::Fail(c, a),
            Scan::Done(_, e2) => finish_frames(s, e2, frames.drop_last()),
        }
    }
}

/// Matching an identifier ends right after it.
pub proof fn lemma_scan_ident_end(s: Seq<u8>, i: int, ident: Seq<u8>)
    requires
        0 <= i <= s.len(),
    ensures
        scan_ident(s, i, ident) matches Scan::Done(_, e) ==> e == i + ident.len() && e <= s.len(),
    decreases ident.len(),
{
    if ident.len() > 0 && i < s.len() && s[i] == ident[0] {
        lemma_scan_ident_end(s, i + 1, ident.drop_first());
    }
}

/// A run of digits ends within the input, where no digit is.
pub proof fn lemma_skip_digits_end(s: Seq<u8>, p: int)
    requires
        0 <= p,
    ensures
        skip_digits(s, p) matches Scan::Done(_, e) ==> p <= e <= s.len() && !digit_at(s, e),
    decreases s.len() - p,
{
    if p < s.len() && digit_at(s, p) {
        lemma_skip_digits_end(s, p + 1);
    }
}

/// A skipped number ends past its first digit.
pub proof fn lemma_skip_integer_end(s: Seq<u8>, i: int)
    requires
        0 <= i,
    ensures
        skip_integer(s, i) matches Scan::Done(_, e) ==> i < e <= s.len(),
{
    lemma_skip_digits_end(s, i + 1);
    if 0 <= i < s.len() && s[i] != 0x30 && digit_at(s, i) {
        if let Scan::Done(_, p) = skip_digits(s, i + 1) {
            lemma_skip_number_rest_end(s, p);
        }
    } else if 0 <= i < s.len() && s[i] == 0x30 {
        lemma_skip_number_rest_end(s, i + 1);
    }
}

/// What follows the integer part of a skipped number never moves back.
pub proof fn lemma_skip_number_rest_end(s: Seq<u8>, p: int)
    requires
        0 <= p,
    ensures
        skip_number_rest(s, p) matches Scan::Done(_, e) ==> p <= e <= s.len(),
{
    lemma_skip_digits_end(s, p + 1);
    lemma_skip_digits_end(s, p + 2);
    if 0 <= p < s.len() && s[p] == 0x2E {
        lemma_skip_digits_end(s, p + 1);
        if let Scan::Done(_, r) = skip_digits(s, p + 1) {
            lemma_skip_digits_end(s, r + 2);
        }
    }
}

/// Skipping an escape ends past the backslash.
pub proof fn lemma_skip_escape_end(s: Seq<u8>, p: int)
    requires
        0 <= p,
    ensures
        skip_escape(s, p) matches Scan::Done(_, e) ==> p < e <= s.len(),
{
}

/// A skipped string ends past its opening quote.
pub proof fn lemma_skip_str_end(s: Seq<u8>, i: int)
    requires
        0 <= i,
    ensures
        skip_str(s, i) matches Scan::Done(_, e) ==> i < e <= s.len(),
    decreases s.len() - i,
{
    if 0 <= i < s.len() && s[i] == BACKSLASH {
        lemma_skip_escape_end(s, i + 1);
        if let Scan::Done(_, j) = skip_escape(s, i + 1) {
            lemma_skip_str_end(s, j);
        }
    } else if 0 <= i < s.len() && s[i] != QUOTE && s[i] >= 0x20 {
        lemma_skip_str_end(s, i + 1);
    }
}

/// Plain bytes of a string are skipped one by one.
pub proof fn lemma_skip_str_plain(s: Seq<u8>, i: int, j: int)
    requires
        0 <= i <= j <= s.len(),
        forall|k: int| i <= k < j ==> !spec_is_escape(#[trigger] s[k], true),
    ensures
        skip_str(s, i) == skip_str(s, j),
    decreases j - i,
{
    if i < j {
        lemma_skip_str_plain(s, i + 1, j);
    }
}

/// A skipped value ends past where it was looked for.
pub proof fn lemma_skip_value_end(s: Seq<u8>, i: int)
    ensures
        skip_value(s, i) matches Scan::Done(_, e) ==> i < e <= s.len(),
    decreases s.len() - i, 0int,
{
    if 0 <= i <= s.len() {
        lemma_skip_ws(s, i);
        let j = skip_ws(s, i);
        if j < s.len() {
            lemma_scan_ident_end(s, j + 1, seq![0x75u8, 0x6Cu8, 0x6Cu8]);
            lemma_scan_ident_end(s, j + 1, seq![0x72u8, 0x75u8, 0x65u8]);
            lemma_scan_ident_end(s, j + 1, seq![0x61u8, 0x6Cu8, 0x73u8, 0x65u8]);
            lemma_skip_integer_end(s, j + 1);
            lemma_skip_integer_end(s, j);
            lemma_skip_str_end(s, j + 1);
            if s[j] == 0x5B && j + 1 < s.len() && s[j + 1] == 0x3A {
                lemma_skip_container_end(s, j + 2, 0x3A, false);
            } else if s[j] == 0x5B || s[j] == 0x7B {
                lemma_skip_container_end(s, j + 1, s[j], false);
            }
        }
    }
}

/// A skipped container ends past where its rest was looked for.
pub proof fn lemma_skip_container_end(s: Seq<u8>, p: int, frame: u8, accept_comma: bool)
    ensures
        skip_container(s, p, frame, accept_comma) matches Scan::Done(_, e) ==> p < e <= s.len(),
    decreases s.len() - p, 2int,
{
    if 0 <= p <= s.len() {
        lemma_skip_ws(s, p);
        let k = skip_ws(s, p);
        if k < s.len() {
            if s[k] == 0x2C && accept_comma {
                lemma_skip_member_end(s, k + 1, frame);
            } else if s[k] != closer(frame) && !accept_comma {
                lemma_skip_member_end(s, k, frame);
            }
        }
    }
}

/// A skipped element and the rest of its container end past where the
/// element was looked for.
pub proof fn lemma_skip_member_end(s: Seq<u8>, p: int, frame: u8)
    ensures
        skip_member(s, p, frame) matches Scan::Done(_, e) ==> p < e <= s.len(),
    decreases s.len() - p, 1int,
{
    if 0 <= p <= s.len() {
        lemma_skip_ws(s, p);
        let k = skip_ws(s, p);
        lemma_skip_str_end(s, k + 1);
        let start = member_start(s, p, frame);
        if let Scan::Done(_, v) = start {
            if v >= p {
                lemma_skip_value_end(s, v);
                if let Scan::Done(_, e) = skip_value(s, v) {
                    if p < e <= s.len() {
                        lemma_skip_container_end(s, e, frame, true);
                    }
                }
            }
        }
    }
}

} // verus!
