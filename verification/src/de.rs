//! Reading nuan5json: the byte-level reader that the value visitors drive.
use vstd::prelude::*;
use vstd::slice::slice_subrange;
use vstd::string::StringSliceAdditionalSpecFns;
use vstd::utf8::valid_utf8;
use crate::error::{Error, ErrorCode};
use crate::grammar::{
    Scan, error_at, lemma_number_stop_later, next_escape, number_stop, peek_at, scan_close_brace, scan_close_bracket, scan_colon,
    scan_escape, scan_hex4, scan_ident, scan_str, scan_surrogate_tail, scan_unicode_escape, skip_ws,
    scan_integer, scan_integer_digits, scan_long_integer, scan_after_integer, scan_fraction,
    scan_fraction_overflow, scan_exponent, scan_exponent_digits, scan_zero_tail, digit_at,
    scan_integer128, scan_digit_run, all_digits, decimal_value, skip_digits, skip_integer,
    skip_fraction, skip_exponent, skip_escape, skip_str, skip_value, skip_container, skip_member,
    finish_frames, is_open, member_start,
};
use crate::text::{
    BACKSLASH, NEWLINE, QUOTE, column_of, count_of, decode_four_hex_digits, first_index_of_either,
    is_escape, last_index_of, lemma_count_byte_le_len, lemma_line_start_from_last_newline, line_of,
    push_wtf8_codepoint, spec_is_escape, str_from_utf8, wtf8_encode,
};

verus! {

/// A line (from 1) and column (from 0) in the input.
#[derive(Debug, Clone, Copy, PartialEq, Eq)]
pub struct Position {
    pub line: usize,
    pub column: usize,
}

/// Whether no backslash, and so no escape, stands in the input from offset
/// `i` up to `e`.
pub open spec fn holds_no_escape(s: Seq<u8>, i: int, e: int) -> bool {
    forall|k: int| i <= k < e ==> s[k] != BACKSLASH
}

/// A string read from the input: borrowed from the input itself when it
/// held no escapes, or copied into the reader's scratch space.
pub enum Reference<'b, 'c, T> where T: ?Sized + 'static {
    Borrowed(&'b T),
    Copied(&'c T),
}

impl<'b, 'c> Reference<'b, 'c, [u8]> {
    /// The bytes referred to.
    pub open spec fn bytes(&self) -> Seq<u8> {
        match self {
            Reference::Borrowed(b) => b@,
            Reference::Copied(c) => c@,
        }
    }

    /// The bytes referred to, wherever they live.
    pub fn deref(&self) -> (res: &[u8])
        ensures
            res@ == self.bytes(),
    {
        match self {
            Reference::Borrowed(b) => b,
            Reference::Copied(c) => c,
        }
    }
}

impl<'b, 'c> Reference<'b, 'c, str> {
    /// The UTF-8 bytes of the string referred to.
    pub open spec fn bytes(&self) -> Seq<u8> {
        match self {
            Reference::Borrowed(b) => b.spec_bytes(),
            Reference::Copied(c) => c.spec_bytes(),
        }
    }

    /// The string referred to, wherever it lives.
    pub fn deref(&self) -> (res: &str)
        ensures
            res.spec_bytes() == self.bytes(),
    {
        match self {
            Reference::Borrowed(b) => b,
            Reference::Copied(c) => c,
        }
    }
}

/// The kind of value found where another kind was expected, as read by
/// `Deserializer::peek_unexpected`.
#[derive(Debug, Clone, PartialEq, Eq)]
pub enum Unexpected {
    Unit,
    Bool(bool),
    Number(ParserNumber),
    Str(String),
    Sequence,
    Mapping,
}

/// The start of a value, as read by `Deserializer::parse_any_token`.
#[derive(Debug, Clone, Copy, PartialEq, Eq)]
pub enum Token {
    Null,
    Bool(bool),
    Number(ParserNumber),
    /// A string follows; its opening quote has been read.
    Str,
    /// An array follows; its `[` has been read.
    Array,
    /// An id map follows; its `[:` has been read.
    IdMap,
    /// An object follows; its `{` has been read.
    Object,
}

/// A value of the outcome `sc` of a grammar rule, with what the prefix
/// `pre` adds in front of the bytes found.
pub open spec fn prepend_scan(pre: Seq<u8>, sc: Scan<Seq<u8>>) -> Scan<Seq<u8>> {
    match sc {
        Scan::Done(b, e) => Scan::Done(pre + b, e),
        Scan::Fail(c, a) => Scan::Fail(c, a),
    }
}

/// One escape read inside a string: what was read so far grows by the
/// plain run before the backslash and by the bytes the escape stands for.
proof fn lemma_escape_step(s: Seq<u8>, i0: int, start: int, j: int, added: Seq<u8>, validate: bool)
    requires
        0 <= start <= j < s.len(),
        s[j] == BACKSLASH,
        scan_str(s, i0, validate) == prepend_scan(added, scan_str(s, start, validate)),
        scan_str(s, start, validate) == prepend_scan(
            s.subrange(start, j),
            scan_str(s, j, validate),
        ),
    ensures
        match scan_escape(s, j + 1, validate) {
            Scan::Done(b, k) => j + 1 < k <= s.len() && scan_str(s, i0, validate) == prepend_scan(
                (added + s.subrange(start, j)) + b,
                scan_str(s, k, validate),
            ),
            Scan::Fail(c, a) => scan_str(s, i0, validate) == Scan::<Seq<u8>>::Fail(c, a),
        },
{
    crate::grammar::lemma_escape_advances(s, j + 1, validate);
    crate::grammar::lemma_scan_str_escape(s, j, validate);
    if let Scan::Done(b, k) = scan_escape(s, j + 1, validate) {
        if let Scan::Done(rest, e) = scan_str(s, k, validate) {
            assert(added + (s.subrange(start, j) + (b + rest)) =~= ((added + s.subrange(start, j))
                + b) + rest);
        }
    }
}

/// The bytes as a string; an error at the reader's offset when they are not
/// valid UTF-8.
pub fn as_str<'de, 's>(de: &Deserializer<'de>, slice: &'s [u8]) -> (res: Result<&'s str, Error>)
    requires
        de.wf(),
    ensures
        valid_utf8(slice@) ==> (res matches Ok(st) && st.spec_bytes() == slice@),
        !valid_utf8(slice@) ==> (res matches Err(err) && err == error_at(
            de.text(),
            de.offset(),
            ErrorCode::InvalidUnicodeCodePoint,
        )),
{
    match str_from_utf8(slice) {
        Some(st) => Ok(st),
        None => Err(de.error(ErrorCode::InvalidUnicodeCodePoint)),
    }
}

/// A number as read: a `u64`, an `i64`, or the parts of a float.
#[derive(Debug, Clone, Copy, PartialEq, Eq)]
pub enum ParserNumber {
    U64(u64),
    I64(i64),
    /// A number to be read as a float: sign, decimal significand and power of ten.
    Float { positive: bool, significand: u64, exponent: i32 },
}

/// The value of decimal digits, when it fits in a `u128`.
pub fn digits_value(digits: &Vec<u8>) -> (res: Option<u128>)
    requires
        all_digits(digits@),
    ensures
        decimal_value(digits@) <= u128::MAX ==> res == Some(decimal_value(digits@) as u128),
        decimal_value(digits@) > u128::MAX ==> res is None,
        res matches Some(v) ==> v == decimal_value(digits@),
{
    proof {
        crate::grammar::lemma_decimal_value_nonneg(digits@);
    }
    let mut v: u128 = 0;
    let mut k: usize = 0;
    assert(digits@.take(0) =~= Seq::<u8>::empty());
    while k < digits.len()
        invariant
            all_digits(digits@),
            k <= digits@.len(),
            v == decimal_value(digits@.take(k as int)),
        decreases digits@.len() - k,
    {
        assert(digits@.take(k + 1).drop_last() =~= digits@.take(k as int));
        let d = (digits[k] - 0x30) as u128;
        match v.checked_mul(10) {
            Some(t) => match t.checked_add(d) {
                Some(w) => {
                    v = w;
                },
                None => {
                    proof {
                        crate::grammar::lemma_decimal_value_grows(digits@, k + 1);
                    }
                    return None;
                },
            },
            None => {
                proof {
                    crate::grammar::lemma_decimal_value_grows(digits@, k + 1);
                }
                return None;
            },
        }
        k += 1;
    }
    assert(digits@.take(k as int) =~= digits@);
    Some(v)
}

/// The frames enclosing the next value: the stack, with the innermost
/// frame on top when it is held apart.
pub open spec fn frames_of(enclosing: Option<u8>, stack: Seq<u8>) -> Seq<u8> {
    match enclosing {
        Some(f) => stack.push(f),
        None => stack,
    }
}

/// Skipping a value at `p` and then the rest of the enclosing frames.
pub open spec fn value_then_finish(s: Seq<u8>, p: int, frames: Seq<u8>) -> Scan<()> {
    match skip_value(s, p) {
        Scan::Fail(c, a) => Scan::Fail(c, a),
        Scan::Done(_, e) => finish_frames(s, e, frames),
    }
}

/// Skipping the rest of a container at `p` and then the enclosing frames.
pub open spec fn container_then_finish(s: Seq<u8>, p: int, frame: u8, accept_comma: bool, frames: Seq<u8>) -> Scan<()> {
    match skip_container(s, p, frame, accept_comma) {
        Scan::Fail(c, a) => Scan::Fail(c, a),
        Scan::Done(_, e) => finish_frames(s, e, frames),
    }
}

/// Skipping an element at `p`, the rest of its container and then the
/// enclosing frames.
pub open spec fn member_then_finish(s: Seq<u8>, p: int, frame: u8, frames: Seq<u8>) -> Scan<()> {
    match skip_member(s, p, frame) {
        Scan::Fail(c, a) => Scan::Fail(c, a),
        Scan::Done(_, e) => finish_frames(s, e, frames),
    }
}

/// Finishing with one more frame on top finishes that container first.
proof fn lemma_finish_push(s: Seq<u8>, e: int, stack: Seq<u8>, f: u8)
    ensures
        finish_frames(s, e, stack.push(f)) == container_then_finish(s, e, f, true, stack),
{
    assert(stack.push(f).drop_last() =~= stack);
}

/// After the key and colon of an object element (or right away in an
/// array), the element's value follows, inside its container's frame.
proof fn lemma_member_start(s: Seq<u8>, p: int, v: int, frame: u8, stack: Seq<u8>)
    requires
        0 <= p <= v <= s.len(),
        is_open(frame),
        member_start(s, p, frame) == Scan::<()>::Done((), v),
    ensures
        member_then_finish(s, p, frame, stack) == value_then_finish(s, v, stack.push(frame)),
{
    crate::grammar::lemma_skip_value_end(s, v);
    lemma_finish_push(s, 0, stack, frame);
    if let Scan::Done(_, e) = skip_value(s, v) {
        lemma_finish_push(s, e, stack, frame);
    }
}

/// Inside an array at offset `p`: whether another element follows, with
/// the offset where it starts, or else the offset of the closing `]`.
/// `first` tells whether no element has been read yet.
pub open spec fn next_element(s: Seq<u8>, p: int, first: bool) -> Scan<bool> {
    let k = skip_ws(s, p);
    let m = skip_ws(s, k + 1);
    if k >= s.len() {
        Scan::Fail(ErrorCode::EofWhileParsingArray, s.len() as int)
    } else if s[k] == 0x5D {
        Scan::Done(false, k)
    } else if first {
        Scan::Done(true, k)
    } else if s[k] == 0x2C {
        if m >= s.len() {
            Scan::Fail(ErrorCode::EofWhileParsingValue, s.len() as int)
        } else if s[m] == 0x5D {
            Scan::Fail(ErrorCode::TrailingComma, peek_at(s, m))
        } else {
            Scan::Done(true, m)
        }
    } else {
        Scan::Fail(ErrorCode::ExpectedArrayCommaOrEnd, peek_at(s, k))
    }
}

/// Inside an object at offset `p`: whether another key follows, with the
/// offset of its opening quote, or else the offset of the closing `}`.
pub open spec fn next_key(s: Seq<u8>, p: int, first: bool) -> Scan<bool> {
    let k = skip_ws(s, p);
    let m = skip_ws(s, k + 1);
    if k >= s.len() {
        Scan::Fail(ErrorCode::EofWhileParsingObject, s.len() as int)
    } else if s[k] == 0x7D {
        Scan::Done(false, k)
    } else if first {
        if s[k] == QUOTE {
            Scan::Done(true, k)
        } else {
            Scan::Fail(ErrorCode::KeyMustBeAString, peek_at(s, k))
        }
    } else if s[k] == 0x2C {
        if m >= s.len() {
            Scan::Fail(ErrorCode::EofWhileParsingValue, s.len() as int)
        } else if s[m] == QUOTE {
            Scan::Done(true, m)
        } else if s[m] == 0x7D {
            Scan::Fail(ErrorCode::TrailingComma, peek_at(s, m))
        } else {
            Scan::Fail(ErrorCode::KeyMustBeAString, peek_at(s, m))
        }
    } else {
        Scan::Fail(ErrorCode::ExpectedObjectCommaOrEnd, peek_at(s, k))
    }
}

/// Inside an id map at offset `p`: whether another key follows, with the
/// offset where it starts, or else the offset of the closing `]`.
pub open spec fn next_id_map_key(s: Seq<u8>, p: int, first: bool) -> Scan<bool> {
    let k = skip_ws(s, p);
    let m = skip_ws(s, k + 1);
    if k >= s.len() {
        Scan::Fail(ErrorCode::EofWhileParsingIdMap, s.len() as int)
    } else if s[k] == 0x5D {
        Scan::Done(false, k)
    } else if first {
        Scan::Done(true, k)
    } else if s[k] == 0x2C {
        if m >= s.len() {
            Scan::Fail(ErrorCode::EofWhileParsingValue, s.len() as int)
        } else if s[m] == 0x5D {
            Scan::Fail(ErrorCode::TrailingComma, peek_at(s, m))
        } else {
            Scan::Done(true, m)
        }
    } else {
        Scan::Fail(ErrorCode::ExpectedObjectCommaOrEnd, peek_at(s, k))
    }
}


/// The start of a value of any kind at offset `p`, as `parse_any_token`
/// reads it with `d` levels of nesting left: the token and the offset
/// after it.
pub open spec fn any_token(s: Seq<u8>, p: int, d: u8) -> Scan<Token> {
    let j = skip_ws(s, p);
    if j >= s.len() {
        Scan::Fail(ErrorCode::EofWhileParsingValue, s.len() as int)
    } else if s[j] == 0x6E || s[j] == 0x74 || s[j] == 0x66 {
        let rest = if s[j] == 0x6E {
            seq![0x75u8, 0x6Cu8, 0x6Cu8]
        } else if s[j] == 0x74 {
            seq![0x72u8, 0x75u8, 0x65u8]
        } else {
            seq![0x61u8, 0x6Cu8, 0x73u8, 0x65u8]
        };
        let tok = if s[j] == 0x6E {
            Token::Null
        } else {
            Token::Bool(s[j] == 0x74)
        };
        match scan_ident(s, j + 1, rest) {
            Scan::Done(_, e) => Scan::Done(tok, e),
            Scan::Fail(c, a) => Scan::Fail(c, a),
        }
    } else if s[j] == 0x2D || digit_at(s, j) {
        match scan_integer(s, if s[j] == 0x2D { j + 1 } else { j }, s[j] != 0x2D) {
            Scan::Done(n, e) => Scan::Done(Token::Number(n), e),
            Scan::Fail(c, a) => Scan::Fail(c, a),
        }
    } else if s[j] == QUOTE {
        Scan::Done(Token::Str, j + 1)
    } else if s[j] == 0x5B {
        if j + 1 >= s.len() {
            Scan::Fail(ErrorCode::EofWhileParsingValue, s.len() as int)
        } else if d == 1 {
            Scan::Fail(ErrorCode::RecursionLimitExceeded, peek_at(s, j + 1))
        } else if s[j + 1] == 0x3A {
            Scan::Done(Token::IdMap, j + 2)
        } else {
            Scan::Done(Token::Array, j + 1)
        }
    } else if s[j] == 0x7B {
        if d == 1 {
            Scan::Fail(ErrorCode::RecursionLimitExceeded, peek_at(s, j))
        } else {
            Scan::Done(Token::Object, j + 1)
        }
    } else {
        Scan::Fail(ErrorCode::ExpectedSomeValue, peek_at(s, j))
    }
}


/// A number after optional whitespace at `p`, as `deserialize_number`
/// reads it: `None` when no number starts there, with the offset where
/// the reading stopped.
pub open spec fn number_at(s: Seq<u8>, p: int) -> Scan<Option<ParserNumber>> {
    let j = skip_ws(s, p);
    if j >= s.len() {
        Scan::Fail(ErrorCode::EofWhileParsingValue, s.len() as int)
    } else if s[j] == 0x2D || digit_at(s, j) {
        match scan_integer(s, if s[j] == 0x2D { j + 1 } else { j }, s[j] != 0x2D) {
            Scan::Done(n, e) => Scan::Done(Some(n), e),
            Scan::Fail(c, a) => Scan::Fail(c, a),
        }
    } else {
        Scan::Done(None, j)
    }
}

/// The start of an id map at offset `p`, as `begin_id_map` reads it:
/// whether `[:` stands there, with the offset after what was read.
pub open spec fn id_map_start(s: Seq<u8>, p: int) -> Scan<bool> {
    let j = skip_ws(s, p);
    if j >= s.len() {
        Scan::Fail(ErrorCode::EofWhileParsingValue, s.len() as int)
    } else if s[j] == 0x5B {
        if j + 1 >= s.len() {
            Scan::Fail(ErrorCode::EofWhileParsingValue, s.len() as int)
        } else if s[j + 1] == 0x3A {
            Scan::Done(true, j + 2)
        } else {
            Scan::Done(false, j + 1)
        }
    } else {
        Scan::Done(false, j)
    }
}

/// The value of `next` when it is a digit.
fn digit_of(next: Option<u8>) -> (res: Option<u8>)
    ensures
        res == match next {
            Some(c) => if 0x30 <= c <= 0x39 {
                Some((c - 0x30) as u8)
            } else {
                None::<u8>
            },
            None => None::<u8>,
        },
{
    match next {
        Some(c) => {
            if 0x30 <= c && c <= 0x39 {
                Some(c - 0x30)
            } else {
                None
            }
        },
        None => None,
    }
}

/// A structure that deserializes nuan5json into Rust values.
pub struct Deserializer<'a> {
    input: &'a [u8],
    index: usize,
    scratch: Vec<u8>,
    remaining_depth: u8,
}

impl<'a> Deserializer<'a> {
    /// The whole input.
    pub closed spec fn text(&self) -> Seq<u8> {
        self.input@
    }

    /// The offset of the next byte to read.
    pub closed spec fn offset(&self) -> int {
        self.index as int
    }

    /// The scratch space that escaped strings are decoded into.
    pub closed spec fn buffered(&self) -> Seq<u8> {
        self.scratch@
    }

    /// How many more levels of nesting may be entered.
    pub closed spec fn depth(&self) -> u8 {
        self.remaining_depth
    }

    /// The reader's offset lies within the input.
    pub open spec fn wf(&self) -> bool {
        &&& 0 <= self.offset() <= self.text().len()
        &&& self.text().len() < usize::MAX
    }

    /// `self` is `old` with the same input and nesting depth.
    pub open spec fn same_input(&self, old: &Self) -> bool {
        &&& self.wf()
        &&& self.text() == old.text()
        &&& self.depth() == old.depth()
    }

    /// A reader at the start of `input`, allowing 127 levels of nesting.
    pub fn new(input: &'a [u8]) -> (res: Self)
        requires
            input@.len() < usize::MAX,
        ensures
            res.wf(),
            res.text() == input@,
            res.offset() == 0,
            res.buffered() == Seq::<u8>::empty(),
            res.depth() == 128,
    {
        Deserializer { input, index: 0, scratch: Vec::new(), remaining_depth: 128 }
    }

    /// The line and column of offset `i`.
    pub fn position_of_index(&self, i: usize) -> (res: Position)
        requires
            self.wf(),
            i <= self.text().len(),
        ensures
            res.line == line_of(self.text(), i as int),
            res.column == column_of(self.text(), i as int),
    {
        let before = slice_subrange(self.input, 0, i);
        let start_of_line = match last_index_of(NEWLINE, before) {
            Some(position) => position + 1,
            None => 0,
        };
        proof {
            assert forall|j: int| start_of_line <= j < i implies self.input@[j] != NEWLINE by {
                assert(before@[j] == self.input@[j]);
            }
            if start_of_line > 0 {
                assert(before@[start_of_line - 1] == self.input@[start_of_line - 1]);
            }
            lemma_line_start_from_last_newline(self.input@, i as int, start_of_line as int);
            assert(self.input@.subrange(0, start_of_line as int) =~= self.input@.take(
                start_of_line as int,
            ));
            lemma_count_byte_le_len(self.input@.take(start_of_line as int), NEWLINE);
        }
        let lines = count_of(NEWLINE, slice_subrange(self.input, 0, start_of_line));
        Position { line: 1 + lines, column: i - start_of_line }
    }

    /// The line and column of the next byte to read.
    pub fn position(&self) -> (res: Position)
        requires
            self.wf(),
        ensures
            res.line == line_of(self.text(), self.offset()),
            res.column == column_of(self.text(), self.offset()),
    {
        self.position_of_index(self.index)
    }

    /// The line and column of the byte after the next one.
    pub fn peek_position(&self) -> (res: Position)
        requires
            self.wf(),
        ensures
            res.line == line_of(self.text(), peek_at(self.text(), self.offset())),
            res.column == column_of(self.text(), peek_at(self.text(), self.offset())),
    {
        let i = if self.index + 1 < self.input.len() {
            self.index + 1
        } else {
            self.input.len()
        };
        self.position_of_index(i)
    }

    /// An error at the next byte to read.
    pub fn error(&self, reason: ErrorCode) -> (res: Error)
        requires
            self.wf(),
        ensures
            res == error_at(self.text(), self.offset(), reason),
    {
        let position = self.position();
        Error::syntax(reason, position.line, position.column)
    }

    /// An error at the byte after the next one.
    pub fn peek_error(&self, reason: ErrorCode) -> (res: Error)
        requires
            self.wf(),
        ensures
            res == error_at(self.text(), peek_at(self.text(), self.offset()), reason),
    {
        let position = self.peek_position();
        Error::syntax(reason, position.line, position.column)
    }

    /// The next byte, which is consumed.
    pub fn next(&mut self) -> (res: Option<u8>)
        requires
            old(self).wf(),
        ensures
            final(self).same_input(old(self)),
            final(self).buffered() == old(self).buffered(),
            old(self).offset() < old(self).text().len() ==> res == Some(
                old(self).text()[old(self).offset()],
            ) && final(self).offset() == old(self).offset() + 1,
            old(self).offset() >= old(self).text().len() ==> res is None && final(self).offset()
                == old(self).offset(),
    {
        if self.index < self.input.len() {
            let c = self.input[self.index];
            self.index += 1;
            Some(c)
        } else {
            None
        }
    }

    /// The next byte, which is consumed; an error at the end of the input.
    pub fn expect_next(&mut self) -> (res: Result<u8, Error>)
        requires
            old(self).wf(),
        ensures
            final(self).same_input(old(self)),
            final(self).buffered() == old(self).buffered(),
            old(self).offset() < old(self).text().len() ==> res == Ok::<u8, Error>(
                old(self).text()[old(self).offset()],
            ) && final(self).offset() == old(self).offset() + 1,
            old(self).offset() >= old(self).text().len() ==> res == Err::<u8, Error>(
                error_at(old(self).text(), old(self).text().len() as int, ErrorCode::EofWhileParsingValue),
            ) && final(self).offset() == old(self).offset(),
    {
        if self.index < self.input.len() {
            let c = self.input[self.index];
            self.index += 1;
            Ok(c)
        } else {
            Err(self.peek_error(ErrorCode::EofWhileParsingValue))
        }
    }

    /// The next byte, which is not consumed.
    pub fn peek(&self) -> (res: Option<u8>)
        requires
            self.wf(),
        ensures
            self.offset() < self.text().len() ==> res == Some(self.text()[self.offset()]),
            self.offset() >= self.text().len() ==> res is None,
    {
        if self.index < self.input.len() {
            Some(self.input[self.index])
        } else {
            None
        }
    }

    /// The next byte, which is not consumed; an error at the end of the input.
    pub fn expect_peek(&self) -> (res: Result<u8, Error>)
        requires
            self.wf(),
        ensures
            self.offset() < self.text().len() ==> res == Ok::<u8, Error>(
                self.text()[self.offset()],
            ),
            self.offset() >= self.text().len() ==> res == Err::<u8, Error>(
                error_at(self.text(), self.text().len() as int, ErrorCode::EofWhileParsingValue),
            ),
    {
        if self.index < self.input.len() {
            Ok(self.input[self.index])
        } else {
            Err(self.peek_error(ErrorCode::EofWhileParsingValue))
        }
    }

    /// Consumes the byte that was just peeked.
    pub fn discard(&mut self)
        requires
            old(self).wf(),
            old(self).offset() < old(self).text().len(),
        ensures
            final(self).same_input(old(self)),
            final(self).buffered() == old(self).buffered(),
            final(self).offset() == old(self).offset() + 1,
    {
        self.index += 1;
    }

    /// Skips whitespace and returns the first other byte without consuming
    /// it, or `None` at the end of the input.
    pub fn parse_whitespace(&mut self) -> (res: Option<u8>)
        requires
            old(self).wf(),
        ensures
            final(self).same_input(old(self)),
            final(self).buffered() == old(self).buffered(),
            final(self).offset() == skip_ws(old(self).text(), old(self).offset()),
            final(self).offset() < final(self).text().len() ==> res == Some(
                final(self).text()[final(self).offset()],
            ),
            final(self).offset() >= final(self).text().len() ==> res is None,
    {
        loop
            invariant
                self.same_input(old(self)),
                self.buffered() == old(self).buffered(),
                old(self).offset() <= self.offset(),
                skip_ws(self.text(), self.offset()) == skip_ws(old(self).text(), old(self).offset()),
            decreases self.text().len() - self.offset(),
        {
            match self.peek() {
                Some(c) => {
                    if c == 0x20 || c == 0x0A || c == 0x09 || c == 0x0D {
                        self.discard();
                    } else {
                        return Some(c);
                    }
                },
                None => {
                    return None;
                },
            }
        }
    }

    /// Skips whitespace and returns the first other byte without consuming
    /// it; an error at the end of the input.
    pub fn expect_parse_whitespace(&mut self) -> (res: Result<u8, Error>)
        requires
            old(self).wf(),
        ensures
            final(self).same_input(old(self)),
            final(self).buffered() == old(self).buffered(),
            final(self).offset() == skip_ws(old(self).text(), old(self).offset()),
            final(self).offset() < final(self).text().len() ==> res == Ok::<u8, Error>(
                final(self).text()[final(self).offset()],
            ),
            final(self).offset() >= final(self).text().len() ==> res == Err::<u8, Error>(
                error_at(old(self).text(), old(self).text().len() as int, ErrorCode::EofWhileParsingValue),
            ),
    {
        match self.parse_whitespace() {
            None => Err(self.peek_error(ErrorCode::EofWhileParsingValue)),
            Some(other) => Ok(other),
        }
    }

    /// Consumes the bytes of `ident`, which must follow exactly.
    pub fn parse_ident(&mut self, ident: &[u8]) -> (res: Result<(), Error>)
        requires
            old(self).wf(),
        ensures
            final(self).same_input(old(self)),
            final(self).buffered() == old(self).buffered(),
            match scan_ident(old(self).text(), old(self).offset(), ident@) {
                Scan::Done(_, e) => res is Ok && final(self).offset() == e,
                Scan::Fail(c, a) => res == Err::<(), Error>(error_at(old(self).text(), a, c)),
            },
    {
        let mut k: usize = 0;
        assert(ident@.skip(0) =~= ident@);
        while k < ident.len()
            invariant
                self.same_input(old(self)),
                self.buffered() == old(self).buffered(),
                k <= ident@.len(),
                self.offset() == old(self).offset() + k,
                scan_ident(self.text(), self.offset(), ident@.skip(k as int)) == scan_ident(
                    old(self).text(),
                    old(self).offset(),
                    ident@,
                ),
            decreases ident@.len() - k,
        {
            let expected = ident[k];
            proof {
                assert(ident@.skip(k as int)[0] == expected);
                assert(ident@.skip(k as int).drop_first() =~= ident@.skip(k + 1));
            }
            match self.next() {
                None => {
                    return Err(self.error(ErrorCode::EofWhileParsingValue));
                },
                Some(next) => {
                    if next != expected {
                        return Err(self.error(ErrorCode::ExpectedSomeIdent));
                    }
                },
            }
            k += 1;
        }
        proof {
            assert(ident@.skip(k as int).len() == 0);
        }
        Ok(())
    }

    /// Reads four hex digits.
    pub fn decode_hex_escape(&mut self) -> (res: Result<u16, Error>)
        requires
            old(self).wf(),
        ensures
            final(self).same_input(old(self)),
            final(self).buffered() == old(self).buffered(),
            match scan_hex4(old(self).text(), old(self).offset()) {
                Scan::Done(v, e) => res == Ok::<u16, Error>(v) && final(self).offset() == e,
                Scan::Fail(c, a) => res == Err::<u16, Error>(error_at(old(self).text(), a, c))
                    && final(self).offset() == a,
            },
    {
        if self.input.len() - self.index >= 4 {
            let a = self.input[self.index];
            let b = self.input[self.index + 1];
            let c = self.input[self.index + 2];
            let d = self.input[self.index + 3];
            self.index += 4;
            match decode_four_hex_digits(a, b, c, d) {
                Some(val) => Ok(val),
                None => Err(self.error(ErrorCode::InvalidEscape)),
            }
        } else {
            self.index = self.input.len();
            Err(self.error(ErrorCode::EofWhileParsingString))
        }
    }

    /// Reads the escape that follows a backslash and appends the bytes it
    /// stands for to the scratch space.
    pub fn parse_escape(&mut self, validate: bool) -> (res: Result<(), Error>)
        requires
            old(self).wf(),
        ensures
            final(self).same_input(old(self)),
            match scan_escape(old(self).text(), old(self).offset(), validate) {
                Scan::Done(b, e) => res is Ok && final(self).offset() == e && final(self).buffered()
                    == old(self).buffered() + b,
                Scan::Fail(c, a) => res == Err::<(), Error>(error_at(old(self).text(), a, c))
                    && final(self).offset() == a,
            },
        decreases old(self).text().len() - old(self).offset(), 2int,
    {
        let ch = self.expect_next()?;
        if ch == 0x75 {
            return self.parse_unicode_escape(validate);
        }
        let byte = if ch == 0x22 {
            0x22u8
        } else if ch == 0x5C {
            0x5Cu8
        } else if ch == 0x2F {
            0x2Fu8
        } else if ch == 0x62 {
            0x08u8
        } else if ch == 0x66 {
            0x0Cu8
        } else if ch == 0x6E {
            0x0Au8
        } else if ch == 0x72 {
            0x0Du8
        } else if ch == 0x74 {
            0x09u8
        } else {
            return Err(self.error(ErrorCode::InvalidEscape));
        };
        self.scratch.push(byte);
        Ok(())
    }

    /// Reads a `\u` escape (from just past the `u`), pairing surrogates,
    /// and appends its WTF-8 bytes to the scratch space.
    pub fn parse_unicode_escape(&mut self, validate: bool) -> (res: Result<(), Error>)
        requires
            old(self).wf(),
        ensures
            final(self).same_input(old(self)),
            match scan_unicode_escape(old(self).text(), old(self).offset(), validate) {
                Scan::Done(b, e) => res is Ok && final(self).offset() == e && final(self).buffered()
                    == old(self).buffered() + b,
                Scan::Fail(c, a) => res == Err::<(), Error>(error_at(old(self).text(), a, c))
                    && final(self).offset() == a,
            },
        decreases old(self).text().len() - old(self).offset(), 1int,
    {
        if self.index >= self.input.len() {
            return Err(self.error(ErrorCode::EofWhileParsingString));
        }
        let n = self.decode_hex_escape()?;
        if validate && n >= 0xDC00 && n <= 0xDFFF {
            return Err(self.error(ErrorCode::LoneLeadingSurrogateInHexEscape));
        }
        self.parse_surrogate_tail(n, validate)
    }

    /// Having read the code unit `n` of a `\u` escape: appends it, or, for
    /// a leading surrogate, reads the `\u` escape that should hold its pair.
    fn parse_surrogate_tail(&mut self, n: u16, validate: bool) -> (res: Result<(), Error>)
        requires
            old(self).wf(),
        ensures
            final(self).same_input(old(self)),
            match scan_surrogate_tail(old(self).text(), n, old(self).offset(), validate) {
                Scan::Done(b, e) => res is Ok && final(self).offset() == e && final(self).buffered()
                    == old(self).buffered() + b,
                Scan::Fail(c, a) => res == Err::<(), Error>(error_at(old(self).text(), a, c))
                    && final(self).offset() == a,
            },
        decreases old(self).text().len() - old(self).offset(), 0int,
    {
        let ghost s = self.input@;
        let ghost b0 = self.scratch@;
        if n < 0xD800 || n > 0xDBFF {
            push_wtf8_codepoint(n as u32, &mut self.scratch);
            return Ok(());
        }
        let n1 = n;
        if self.expect_peek()? == BACKSLASH {
            self.discard();
        } else {
            if validate {
                self.discard();
                return Err(self.error(ErrorCode::UnexpectedEndOfHexEscape));
            } else {
                push_wtf8_codepoint(n1 as u32, &mut self.scratch);
                return Ok(());
            }
        }
        if self.expect_peek()? == 0x75 {
            self.discard();
        } else {
            if validate {
                self.discard();
                return Err(self.error(ErrorCode::UnexpectedEndOfHexEscape));
            } else {
                push_wtf8_codepoint(n1 as u32, &mut self.scratch);
                let ghost p = self.index as int;
                let res = self.parse_escape(validate);
                proof {
                    if let Scan::Done(b, e) = scan_escape(s, p, validate) {
                        assert(self.scratch@ =~= b0 + (wtf8_encode(n1 as u32) + b));
                    }
                }
                return res;
            }
        }
        let n2 = self.decode_hex_escape()?;
        if n2 < 0xDC00 || n2 > 0xDFFF {
            if validate {
                return Err(self.error(ErrorCode::LoneLeadingSurrogateInHexEscape));
            }
            push_wtf8_codepoint(n1 as u32, &mut self.scratch);
            let ghost p = self.index as int;
            let res = self.parse_surrogate_tail(n2, validate);
            proof {
                if let Scan::Done(b, e) = scan_surrogate_tail(s, n2, p, validate) {
                    assert(self.scratch@ =~= b0 + (wtf8_encode(n1 as u32) + b));
                }
            }
            return res;
        }
        let hi: u32 = (n1 - 0xD800) as u32;
        let lo: u32 = (n2 - 0xDC00) as u32;
        assert(((hi << 10u32) | lo) == hi * 0x400 + lo) by (bit_vector)
            requires
                hi <= 0x3FF,
                lo <= 0x3FF,
        ;
        let cp = ((hi << 10u32) | lo) + 0x1_0000;
        push_wtf8_codepoint(cp, &mut self.scratch);
        Ok(())
    }
    /// Moves to the first byte that ends a plain run of a string (a quote,
    /// a backslash or a control character), one byte at a time.
    pub fn skip_to_escape_slow(&mut self)
        requires
            old(self).wf(),
        ensures
            final(self).same_input(old(self)),
            final(self).buffered() == old(self).buffered(),
            final(self).offset() == next_escape(old(self).text(), old(self).offset(), true),
    {
        let ghost i0 = self.index as int;
        while self.index < self.input.len() && !is_escape(self.input[self.index], true)
            invariant
                self.same_input(old(self)),
                self.buffered() == old(self).buffered(),
                i0 == old(self).offset(),
                i0 <= self.offset(),
                forall|k: int| i0 <= k < self.offset() ==> !spec_is_escape(#[trigger] self.text()[k], true),
            decreases self.text().len() - self.offset(),
        {
            self.index += 1;
        }
        proof {
            crate::grammar::lemma_next_escape_at(self.input@, i0, self.index as int, true);
        }
    }

    /// Moves to the first byte that ends a plain run of a string: a quote,
    /// a backslash or, when `forbid_control_characters`, a control character.
    pub fn skip_to_escape(&mut self, forbid_control_characters: bool)
        requires
            old(self).wf(),
        ensures
            final(self).same_input(old(self)),
            final(self).buffered() == old(self).buffered(),
            final(self).offset() == next_escape(
                old(self).text(),
                old(self).offset(),
                forbid_control_characters,
            ),
    {
        if self.index == self.input.len() || is_escape(
            self.input[self.index],
            forbid_control_characters,
        ) {
            return;
        }
        let ghost i0 = self.index as int;
        self.index += 1;
        if !forbid_control_characters {
            let rest = slice_subrange(self.input, self.index, self.input.len());
            let skip = match first_index_of_either(QUOTE, BACKSLASH, rest) {
                Some(k) => k,
                None => rest.len(),
            };
            proof {
                assert forall|k: int| i0 <= k < self.offset() + skip implies !spec_is_escape(
                    #[trigger] self.input@[k],
                    false,
                ) by {
                    if k > i0 {
                        assert(rest@[k - self.offset()] == self.input@[k]);
                    }
                }
                if skip < rest.len() {
                    assert(rest@[skip as int] == self.input@[self.offset() + skip]);
                }
                crate::grammar::lemma_next_escape_at(
                    self.input@,
                    i0,
                    self.offset() + skip,
                    false,
                );
            }
            self.index += skip;
            return;
        }
        self.skip_to_escape_slow();
    }

    /// Reads the body of a string (from just past the opening quote) up to
    /// and including its closing quote.  The bytes it stands for are the
    /// run of the input starting at the returned offset when it held no
    /// escape and the scratch space was empty (`Some`); otherwise they are
    /// appended to the scratch space (`None`).  On an error the reader
    /// stands at the offset that the error reports.
    #[verifier::spinoff_prover]
    #[verifier::rlimit(50)]
    pub fn parse_str_bytes(&mut self, validate: bool) -> (res: Result<Option<usize>, Error>)
        requires
            old(self).wf(),
        ensures
            final(self).same_input(old(self)),
            match scan_str(old(self).text(), old(self).offset(), validate) {
                Scan::Done(b, e) => res is Ok && final(self).offset() == e && match res {
                    Ok(Some(start)) => start < e && final(self).buffered() == old(self).buffered()
                        && old(self).buffered().len() == 0 && old(self).text().subrange(
                        start as int,
                        e - 1,
                    ) == b,
                    _ => final(self).buffered() == old(self).buffered() + b,
                },
                Scan::Fail(c, a) => res == Err::<Option<usize>, Error>(
                    error_at(old(self).text(), a, c),
                ) && final(self).offset() == a,
            },
            res matches Ok(Some(start)) ==> start == old(self).offset(),
            res is Ok ==> ((res matches Ok(Some(_))) <==> (old(self).buffered().len() == 0 && holds_no_escape(
                old(self).text(),
                old(self).offset(),
                final(self).offset() - 1,
            ))),
    {
        let ghost s = self.input@;
        let ghost i0 = self.index as int;
        let ghost b0 = self.scratch@;
        let mut start = self.index;
        let ghost mut added: Seq<u8> = Seq::empty();
        assert(b0 + added =~= b0);
        loop
            invariant
                self.same_input(old(self)),
                s == self.text(),
                i0 == old(self).offset(),
                b0 == old(self).buffered(),
                i0 <= start,
                start == self.offset(),
                self.buffered() == b0 + added,
                added.len() == 0 ==> start == i0,
                added.len() > 0 ==> exists|k: int| i0 <= k < start && s[k] == BACKSLASH,
                scan_str(s, i0, validate) == prepend_scan(added, scan_str(s, start as int, validate)),
            decreases s.len() - start,
        {
            self.skip_to_escape(validate);
            let ghost j = self.index as int;
            proof {
                crate::grammar::lemma_next_escape_props(s, start as int, validate);
                crate::grammar::lemma_plain_run(s, start as int, j, validate);
            }
            if self.index == self.input.len() {
                proof {
                    crate::grammar::lemma_scan_str_end(s, j, validate);
                }
                return Err(self.error(ErrorCode::EofWhileParsingString));
            }
            let c = self.input[self.index];
            if c == QUOTE {
                proof {
                    crate::grammar::lemma_scan_str_quote(s, j, validate);
                }
                if self.scratch.len() == 0 {
                    proof {
                        assert forall|k: int| i0 <= k < j implies s[k] != BACKSLASH by {
                            assert(!spec_is_escape(s[k], validate));
                        }
                        assert(added =~= Seq::<u8>::empty());
                        assert(added + (s.subrange(start as int, j) + Seq::<u8>::empty())
                            =~= s.subrange(start as int, j));
                    }
                    self.index += 1;
                    return Ok(Some(start));
                } else {
                    let run = slice_subrange(self.input, start, self.index);
                    self.extend_scratch(run);
                    self.index += 1;
                    proof {
                        assert(self.scratch@ =~= b0 + (added + (s.subrange(start as int, j)
                            + Seq::<u8>::empty())));
                    }
                    return Ok(None);
                }
            } else if c == BACKSLASH {
                let run = slice_subrange(self.input, start, self.index);
                self.extend_scratch(run);
                self.index += 1;
                proof {
                    lemma_escape_step(s, i0, start as int, j, added, validate);
                }
                let r = self.parse_escape(validate);
                match r {
                    Err(err) => {
                        return Err(err);
                    },
                    Ok(()) => {},
                }
                proof {
                    let b = scan_escape(s, j + 1, validate)->Done_0;
                    assert(self.scratch@ =~= b0 + ((added + s.subrange(start as int, j)) + b));
                    added = (added + s.subrange(start as int, j)) + b;
                    assert(s[j] == BACKSLASH && i0 <= j < self.index);
                }
                start = self.index;
            } else {
                proof {
                    crate::grammar::lemma_scan_str_control(s, j);
                }
                self.index += 1;
                return Err(self.error(ErrorCode::ControlCharacterWhileParsingString));
            }
        }
    }

    /// Appends `bytes` to the scratch space.
    fn extend_scratch(&mut self, bytes: &[u8])
        ensures
            final(self).text() == old(self).text(),
            final(self).offset() == old(self).offset(),
            final(self).depth() == old(self).depth(),
            final(self).buffered() == old(self).buffered() + bytes@,
    {
        let ghost b0 = self.scratch@;
        let mut k: usize = 0;
        while k < bytes.len()
            invariant
                self.text() == old(self).text(),
                self.offset() == old(self).offset(),
                self.depth() == old(self).depth(),
                k <= bytes@.len(),
                self.scratch@ == b0 + bytes@.take(k as int),
            decreases bytes@.len() - k,
        {
            self.scratch.push(bytes[k]);
            k += 1;
            assert(self.scratch@ =~= b0 + bytes@.take(k as int));
        }
        assert(bytes@.take(k as int) =~= bytes@);
    }

    /// Reads a string as raw bytes: escapes are decoded but control
    /// characters are let through and lone surrogates are kept.
    pub fn parse_str_raw<'s>(&'s mut self) -> (res: Result<Reference<'a, 's, [u8]>, Error>)
        requires
            old(self).wf(),
        ensures
            final(self).same_input(old(self)),
            match scan_str(old(self).text(), old(self).offset(), false) {
                Scan::Done(b, e) => final(self).offset() == e && (res matches Ok(r) && r.bytes() == old(self).buffered() + b),
                Scan::Fail(c, a) => res matches Err(err) && err == error_at(old(self).text(), a, c),
            },
            res matches Ok(r) ==> ((r is Borrowed) <==> (old(self).buffered().len() == 0 && holds_no_escape(
                old(self).text(),
                old(self).offset(),
                final(self).offset() - 1,
            ))),
    {
        let found = self.parse_str_bytes(false)?;
        match found {
            Some(start) => Ok(Reference::Borrowed(slice_subrange(self.input, start, self.index - 1))),
            None => Ok(Reference::Copied(self.scratch.as_slice())),
        }
    }

    /// Reads a string, whose bytes must be valid UTF-8.
    pub fn parse_str<'s>(&'s mut self) -> (res: Result<Reference<'a, 's, str>, Error>)
        requires
            old(self).wf(),
        ensures
            final(self).same_input(old(self)),
            match scan_str(old(self).text(), old(self).offset(), true) {
                Scan::Done(b, e) => final(self).offset() == e && if valid_utf8(old(self).buffered() + b) {
                    res matches Ok(r) && r.bytes() == old(self).buffered() + b
                } else {
                    res matches Err(err) && err == error_at(
                        old(self).text(),
                        e,
                        ErrorCode::InvalidUnicodeCodePoint,
                    )
                },
                Scan::Fail(c, a) => res matches Err(err) && err == error_at(old(self).text(), a, c),
            },
            res matches Ok(r) ==> ((r is Borrowed) <==> (old(self).buffered().len() == 0 && holds_no_escape(
                old(self).text(),
                old(self).offset(),
                final(self).offset() - 1,
            ))),
    {
        let found = match self.parse_str_bytes(true) {
            Ok(found) => found,
            Err(err) => {
                return Err(err);
            },
        };
        let this: &'s Deserializer<'a> = &*self;
        match found {
            Some(start) => {
                let bytes = slice_subrange(this.input, start, this.index - 1);
                match as_str(this, bytes) {
                    Ok(st) => Ok(Reference::Borrowed(st)),
                    Err(err) => Err(err),
                }
            },
            None => match as_str(this, this.scratch.as_slice()) {
                Ok(st) => Ok(Reference::Copied(st)),
                Err(err) => Err(err),
            },
        }
    }

    /// Reads the colon between a key and its value.
    pub fn parse_object_colon(&mut self) -> (res: Result<(), Error>)
        requires
            old(self).wf(),
        ensures
            final(self).same_input(old(self)),
            final(self).buffered() == old(self).buffered(),
            match scan_colon(old(self).text(), old(self).offset()) {
                Scan::Done(_, e) => res is Ok && final(self).offset() == e,
                Scan::Fail(c, a) => res == Err::<(), Error>(error_at(old(self).text(), a, c)),
            },
    {
        match self.parse_whitespace() {
            Some(c) => {
                if c == 0x3A {
                    self.discard();
                    Ok(())
                } else {
                    Err(self.peek_error(ErrorCode::ExpectedColon))
                }
            },
            None => Err(self.peek_error(ErrorCode::EofWhileParsingObject)),
        }
    }

    /// Reads the `]` that closes an array or an id map.
    fn close_bracket(&mut self, eof: ErrorCode) -> (res: Result<(), Error>)
        requires
            old(self).wf(),
        ensures
            final(self).same_input(old(self)),
            final(self).buffered() == old(self).buffered(),
            match scan_close_bracket(old(self).text(), old(self).offset(), eof) {
                Scan::Done(_, e) => res is Ok && final(self).offset() == e,
                Scan::Fail(c, a) => res == Err::<(), Error>(error_at(old(self).text(), a, c)),
            },
    {
        match self.parse_whitespace() {
            Some(c) => {
                if c == 0x5D {
                    self.discard();
                    Ok(())
                } else if c == 0x2C {
                    self.discard();
                    match self.parse_whitespace() {
                        Some(d) => {
                            if d == 0x5D {
                                Err(self.peek_error(ErrorCode::TrailingComma))
                            } else {
                                Err(self.peek_error(ErrorCode::TrailingCharacters))
                            }
                        },
                        None => Err(self.peek_error(ErrorCode::TrailingCharacters)),
                    }
                } else {
                    Err(self.peek_error(ErrorCode::TrailingCharacters))
                }
            },
            None => Err(self.peek_error(eof)),
        }
    }

    /// Reads the `]` that closes an array.
    pub fn end_array(&mut self) -> (res: Result<(), Error>)
        requires
            old(self).wf(),
        ensures
            final(self).same_input(old(self)),
            final(self).buffered() == old(self).buffered(),
            match scan_close_bracket(
                old(self).text(),
                old(self).offset(),
                ErrorCode::EofWhileParsingArray,
            ) {
                Scan::Done(_, e) => res is Ok && final(self).offset() == e,
                Scan::Fail(c, a) => res == Err::<(), Error>(error_at(old(self).text(), a, c)),
            },
    {
        self.close_bracket(ErrorCode::EofWhileParsingArray)
    }

    /// Reads the `]` that closes an id map.
    pub fn end_id_map(&mut self) -> (res: Result<(), Error>)
        requires
            old(self).wf(),
        ensures
            final(self).same_input(old(self)),
            final(self).buffered() == old(self).buffered(),
            match scan_close_bracket(
                old(self).text(),
                old(self).offset(),
                ErrorCode::EofWhileParsingIdMap,
            ) {
                Scan::Done(_, e) => res is Ok && final(self).offset() == e,
                Scan::Fail(c, a) => res == Err::<(), Error>(error_at(old(self).text(), a, c)),
            },
    {
        self.close_bracket(ErrorCode::EofWhileParsingIdMap)
    }

    /// Reads the `}` that closes an object.
    pub fn end_object(&mut self) -> (res: Result<(), Error>)
        requires
            old(self).wf(),
        ensures
            final(self).same_input(old(self)),
            final(self).buffered() == old(self).buffered(),
            match scan_close_brace(old(self).text(), old(self).offset()) {
                Scan::Done(_, e) => res is Ok && final(self).offset() == e,
                Scan::Fail(c, a) => res == Err::<(), Error>(error_at(old(self).text(), a, c)),
            },
    {
        match self.parse_whitespace() {
            Some(c) => {
                if c == 0x7D {
                    self.discard();
                    Ok(())
                } else if c == 0x2C {
                    Err(self.peek_error(ErrorCode::TrailingComma))
                } else {
                    Err(self.peek_error(ErrorCode::TrailingCharacters))
                }
            },
            None => Err(self.peek_error(ErrorCode::EofWhileParsingObject)),
        }
    }

    /// Reads the integer part of a number, from just past any `-` sign,
    /// and what follows it.  On an error the reader stands at the offset
    /// that the error reports, or, for an invalid number that it saw by
    /// looking one byte ahead, just before it.
    pub fn parse_integer(&mut self, positive: bool) -> (res: Result<ParserNumber, Error>)
        requires
            old(self).wf(),
        ensures
            final(self).same_input(old(self)),
            final(self).buffered() == old(self).buffered(),
            match scan_integer(old(self).text(), old(self).offset(), positive) {
                Scan::Done(n, e) => res == Ok::<ParserNumber, Error>(n) && final(self).offset() == e,
                Scan::Fail(c, a) => res == Err::<ParserNumber, Error>(error_at(old(self).text(), a, c))

                    && final(self).offset() == number_stop(old(self).text(), old(self).offset(), c, a),
            },
    {
        let ghost s = self.input@;
        let ghost i0 = self.index as int;
        let c = match self.expect_next() {
            Ok(c) => c,
            Err(err) => {
                return Err(err);
            },
        };
        if c == 0x30 {
            match self.peek() {
                Some(d) => {
                    if 0x30 <= d && d <= 0x39 {
                        proof {
                            assert(peek_at(s, self.index as int) == self.index + 1);
                            assert(s[self.index - 1] == 0x30 || s[self.index - 1] == 0x2E);
                        }
                        return Err(self.peek_error(ErrorCode::InvalidNumber));
                    }
                },
                None => {},
            }
            proof {
                lemma_number_stop_later(old(self).text(), old(self).offset(), self.index as int);
            }
            self.parse_number(positive, 0)
        } else if 0x31 <= c && c <= 0x39 {
            let mut significand: u64 = (c - 0x30) as u64;
            loop
                invariant
                    self.same_input(old(self)),
                    self.buffered() == old(self).buffered(),
                    s == self.text(),
                        i0 < self.offset(),
                    i0 == old(self).offset(),
                    scan_integer(s, i0, positive) == scan_integer_digits(
                        s,
                        self.offset(),
                        positive,
                        significand,
                    ),
                decreases s.len() - self.offset(),
            {
                match digit_of(self.peek()) {
                    Some(d) => {
                        let digit = d as u64;
                        if significand >= u64::MAX / 10 && (significand > u64::MAX / 10 || digit
                            > u64::MAX % 10) {
                            proof {
                                lemma_number_stop_later(old(self).text(), old(self).offset(), self.index as int);
                            }
                            return self.parse_long_integer(positive, significand);
                        }
                        self.discard();
                        significand = significand * 10 + digit;
                    },
                    None => {
                        proof {
                            lemma_number_stop_later(old(self).text(), old(self).offset(), self.index as int);
                        }
                        return self.parse_number(positive, significand);
                    },
                }
            }
        } else {
            Err(self.error(ErrorCode::InvalidNumber))
        }
    }

    /// Reads what follows the integer part of a number: a fraction, an
    /// exponent, or nothing.
    pub fn parse_number(&mut self, positive: bool, significand: u64) -> (res: Result<ParserNumber, Error>)
        requires
            old(self).wf(),
        ensures
            final(self).same_input(old(self)),
            final(self).buffered() == old(self).buffered(),
            match scan_after_integer(old(self).text(), old(self).offset(), positive, significand) {
                Scan::Done(n, e) => res == Ok::<ParserNumber, Error>(n) && final(self).offset() == e,
                Scan::Fail(c, a) => res == Err::<ParserNumber, Error>(error_at(old(self).text(), a, c))

                    && final(self).offset() == number_stop(old(self).text(), old(self).offset(), c, a)
                    && (c == ErrorCode::InvalidNumber ==> old(self).offset() + 1 < a),
            },
    {
        let next = self.peek();
        if next == Some(0x2Eu8) {
            proof {
                lemma_number_stop_later(old(self).text(), old(self).offset(), self.index as int);
            }
            self.parse_decimal(positive, significand, 0)
        } else if next == Some(0x65u8) || next == Some(0x45u8) {
            proof {
                lemma_number_stop_later(old(self).text(), old(self).offset(), self.index as int);
            }
            self.parse_exponent(positive, significand, 0)
        } else if positive {
            Ok(ParserNumber::U64(significand))
        } else if significand == 0 || significand > 0x8000_0000_0000_0000 {
            Ok(ParserNumber::Float { positive: false, significand, exponent: 0 })
        } else if significand == 0x8000_0000_0000_0000 {
            Ok(ParserNumber::I64(i64::MIN))
        } else {
            Ok(ParserNumber::I64(0 - (significand as i64)))
        }
    }

    /// Reads the digits of an integer part that no longer fit in a `u64`,
    /// counting each as a power of ten, and what follows them.
    pub fn parse_long_integer(&mut self, positive: bool, significand: u64) -> (res: Result<ParserNumber, Error>)
        requires
            old(self).wf(),
        ensures
            final(self).same_input(old(self)),
            final(self).buffered() == old(self).buffered(),
            match scan_long_integer(old(self).text(), old(self).offset(), positive, significand, 0) {
                Scan::Done(n, e) => res == Ok::<ParserNumber, Error>(n) && final(self).offset() == e,
                Scan::Fail(c, a) => res == Err::<ParserNumber, Error>(error_at(old(self).text(), a, c))

                    && final(self).offset() == number_stop(old(self).text(), old(self).offset(), c, a)
                    && (c == ErrorCode::InvalidNumber ==> old(self).offset() + 1 < a),
            },
    {
        let ghost s = self.input@;
        let ghost p0 = self.index as int;
        let mut exponent: i32 = 0;
        loop
            invariant
                self.same_input(old(self)),
                self.buffered() == old(self).buffered(),
                s == self.text(),
                p0 <= self.offset(),
                p0 == old(self).offset(),
                exponent == (if self.offset() - p0 < i32::MAX { self.offset() - p0 } else { i32::MAX as int }),
                scan_long_integer(s, p0, positive, significand, 0) == scan_long_integer(
                    s,
                    self.offset(),
                    positive,
                    significand,
                    exponent as int,
                ),
            decreases s.len() - self.offset(),
        {
            let next = self.peek();
            if digit_of(next).is_some() {
                self.discard();
                if exponent < i32::MAX {
                    exponent += 1;
                }
            } else if next == Some(0x2Eu8) {
                proof {
                    lemma_number_stop_later(old(self).text(), old(self).offset(), self.index as int);
                }
                return self.parse_decimal(positive, significand, exponent);
            } else if next == Some(0x65u8) || next == Some(0x45u8) {
                proof {
                    lemma_number_stop_later(old(self).text(), old(self).offset(), self.index as int);
                }
                return self.parse_exponent(positive, significand, exponent);
            } else {
                return Ok(ParserNumber::Float { positive, significand, exponent });
            }
        }
    }

    /// Reads a fraction, from the decimal point, and what follows it.
    pub fn parse_decimal(&mut self, positive: bool, significand: u64, exponent_before_decimal_point: i32) -> (res: Result<ParserNumber, Error>)
        requires
            old(self).wf(),
            old(self).offset() < old(self).text().len(),
            old(self).text()[old(self).offset()] == 0x2E,
            0 <= exponent_before_decimal_point,
        ensures
            final(self).same_input(old(self)),
            final(self).buffered() == old(self).buffered(),
            match scan_fraction(
                old(self).text(),
                old(self).offset() + 1,
                positive,
                significand,
                exponent_before_decimal_point as int,
                0,
            ) {
                Scan::Done(n, e) => res == Ok::<ParserNumber, Error>(n) && final(self).offset() == e,
                Scan::Fail(c, a) => res == Err::<ParserNumber, Error>(error_at(old(self).text(), a, c))

                    && final(self).offset() == number_stop(old(self).text(), old(self).offset(), c, a)
                    && (c == ErrorCode::InvalidNumber ==> old(self).offset() + 1 < a),
            },
    {
        let ghost s = self.input@;
        let ghost p0 = self.index as int + 1;
        self.discard();
        let mut sig = significand;
        let mut exponent_after_decimal_point: i32 = 0;
        loop
            invariant
                self.same_input(old(self)),
                self.buffered() == old(self).buffered(),
                s == self.text(),
                p0 <= self.offset(),
                p0 == old(self).offset() + 1,
                s[p0 - 1] == 0x2E,
                0 <= exponent_before_decimal_point,
                exponent_after_decimal_point == (if p0 - self.offset() > i32::MIN { p0 - self.offset() } else { i32::MIN as int }),
                scan_fraction(s, p0, positive, significand, exponent_before_decimal_point as int, 0)
                    == scan_fraction(
                    s,
                    self.offset(),
                    positive,
                    sig,
                    exponent_before_decimal_point as int,
                    exponent_after_decimal_point as int,
                ),
            decreases s.len() - self.offset(),
        {
            let next = self.peek();
            match digit_of(next) {
                Some(d) => {
                    let digit = d as u64;
                    if sig >= u64::MAX / 10 && (sig > u64::MAX / 10 || digit > u64::MAX % 10) {
                        let exponent = exponent_before_decimal_point + exponent_after_decimal_point;
                        proof {
                            lemma_number_stop_later(old(self).text(), old(self).offset(), self.index as int);
                        }
                        return self.parse_decimal_overflow(positive, sig, exponent);
                    }
                    self.discard();
                    sig = sig * 10 + digit;
                    if exponent_after_decimal_point > i32::MIN {
                        exponent_after_decimal_point -= 1;
                    }
                },
                None => {
                    if exponent_after_decimal_point == 0 {
                        if next.is_none() {
                            return Err(self.peek_error(ErrorCode::EofWhileParsingValue));
                        }
                        proof {
                            assert(peek_at(s, self.index as int) == self.index + 1);
                            assert(s[self.index - 1] == 0x30 || s[self.index - 1] == 0x2E);
                        }
                        return Err(self.peek_error(ErrorCode::InvalidNumber));
                    }
                    let exponent = exponent_before_decimal_point + exponent_after_decimal_point;
                    if next == Some(0x65u8) || next == Some(0x45u8) {
                        proof {
                            lemma_number_stop_later(old(self).text(), old(self).offset(), self.index as int);
                        }
                        return self.parse_exponent(positive, sig, exponent);
                    }
                    return Ok(ParserNumber::Float { positive, significand: sig, exponent });
                },
            }
        }
    }

    /// Skips fraction digits that no longer fit, and reads what follows them.
    pub fn parse_decimal_overflow(&mut self, positive: bool, significand: u64, exponent: i32) -> (res: Result<ParserNumber, Error>)
        requires
            old(self).wf(),
        ensures
            final(self).same_input(old(self)),
            final(self).buffered() == old(self).buffered(),
            match scan_fraction_overflow(
                old(self).text(),
                old(self).offset(),
                positive,
                significand,
                exponent as int,
            ) {
                Scan::Done(n, e) => res == Ok::<ParserNumber, Error>(n) && final(self).offset() == e,
                Scan::Fail(c, a) => res == Err::<ParserNumber, Error>(error_at(old(self).text(), a, c))

                    && final(self).offset() == number_stop(old(self).text(), old(self).offset(), c, a)
                    && (c == ErrorCode::InvalidNumber ==> old(self).offset() + 1 < a),
            },
    {
        let ghost s = self.input@;
        let ghost p0 = self.index as int;
        loop
            invariant
                self.same_input(old(self)),
                self.buffered() == old(self).buffered(),
                s == self.text(),
                p0 == old(self).offset(),
                p0 <= self.offset(),
                scan_fraction_overflow(s, p0, positive, significand, exponent as int)
                    == scan_fraction_overflow(s, self.offset(), positive, significand, exponent as int),
            decreases s.len() - self.offset(),
        {
            let next = self.peek();
            if digit_of(next).is_some() {
                self.discard();
            } else if next == Some(0x65u8) || next == Some(0x45u8) {
                proof {
                    lemma_number_stop_later(old(self).text(), old(self).offset(), self.index as int);
                }
                return self.parse_exponent(positive, significand, exponent);
            } else {
                return Ok(ParserNumber::Float { positive, significand, exponent });
            }
        }
    }

    /// Reads an exponent, from the `e`.
    pub fn parse_exponent(&mut self, positive: bool, significand: u64, starting_exp: i32) -> (res: Result<ParserNumber, Error>)
        requires
            old(self).wf(),
            old(self).offset() < old(self).text().len(),
            old(self).text()[old(self).offset()] == 0x65 || old(self).text()[old(self).offset()] == 0x45,
        ensures
            final(self).same_input(old(self)),
            final(self).buffered() == old(self).buffered(),
            match scan_exponent(
                old(self).text(),
                old(self).offset() + 1,
                positive,
                significand,
                starting_exp as int,
            ) {
                Scan::Done(n, e) => res == Ok::<ParserNumber, Error>(n) && final(self).offset() == e,
                Scan::Fail(c, a) => res == Err::<ParserNumber, Error>(error_at(old(self).text(), a, c))

                    && final(self).offset() == number_stop(old(self).text(), old(self).offset(), c, a)
                    && (c == ErrorCode::InvalidNumber ==> old(self).offset() + 1 < a),
            },
    {
        let ghost s = self.input@;
        self.discard();
        let sign = match self.expect_peek() {
            Ok(c) => c,
            Err(err) => {
                return Err(err);
            },
        };
        let positive_exp = if sign == 0x2B {
            self.discard();
            true
        } else if sign == 0x2D {
            self.discard();
            false
        } else {
            true
        };
        let first = match self.expect_next() {
            Ok(c) => c,
            Err(err) => {
                return Err(err);
            },
        };
        if !(0x30 <= first && first <= 0x39) {
            return Err(self.error(ErrorCode::InvalidNumber));
        }
        let ghost q1 = self.index as int;
        let mut exp: i32 = (first - 0x30) as i32;
        loop
            invariant
                self.same_input(old(self)),
                self.buffered() == old(self).buffered(),
                s == self.text(),
                old(self).offset() + 2 <= self.offset(),
                0 <= exp,
                scan_exponent(s, old(self).offset() + 1, positive, significand, starting_exp as int)
                    == scan_exponent_digits(
                    s,
                    self.offset(),
                    positive,
                    significand,
                    starting_exp as int,
                    positive_exp,
                    exp,
                ),
            decreases s.len() - self.offset(),
        {
            let next = digit_of(self.peek());
            if next.is_some() {
                self.discard();
                let digit = next.unwrap() as i32;
                if exp >= i32::MAX / 10 && (exp > i32::MAX / 10 || digit > i32::MAX % 10) {
                    let zero_significand = significand == 0;
                    proof {
                        lemma_number_stop_later(old(self).text(), old(self).offset(), self.index as int);
                    }
                    return self.parse_exponent_overflow(positive, zero_significand, positive_exp);
                }
                exp = exp * 10 + digit;
            } else {
                let wide: i64 = if positive_exp {
                    starting_exp as i64 + exp as i64
                } else {
                    starting_exp as i64 - exp as i64
                };
                let final_exp: i32 = if wide > i32::MAX as i64 {
                    i32::MAX
                } else if wide < i32::MIN as i64 {
                    i32::MIN
                } else {
                    wide as i32
                };
                return Ok(ParserNumber::Float { positive, significand, exponent: final_exp });
            }
        }
    }

    /// After an exponent too large for an `i32`: an error when the number
    /// would be infinite, otherwise skips the remaining digits of a zero.
    pub fn parse_exponent_overflow(&mut self, positive: bool, zero_significand: bool, positive_exp: bool) -> (res: Result<ParserNumber, Error>)
        requires
            old(self).wf(),
        ensures
            final(self).same_input(old(self)),
            final(self).buffered() == old(self).buffered(),
            !zero_significand && positive_exp ==> res == Err::<ParserNumber, Error>(
                error_at(old(self).text(), old(self).offset(), ErrorCode::NumberOutOfRange),
            ) && final(self).offset() == old(self).offset(),
            zero_significand || !positive_exp ==> match scan_zero_tail(
                old(self).text(),
                old(self).offset(),
                positive,
            ) {
                Scan::Done(n, e) => res == Ok::<ParserNumber, Error>(n) && final(self).offset() == e,
                Scan::Fail(c, a) => res == Err::<ParserNumber, Error>(error_at(old(self).text(), a, c))

                    && final(self).offset() == number_stop(old(self).text(), old(self).offset(), c, a)
                    && (c == ErrorCode::InvalidNumber ==> old(self).offset() + 1 < a),
            },
    {
        if !zero_significand && positive_exp {
            return Err(self.error(ErrorCode::NumberOutOfRange));
        }
        let ghost s = self.input@;
        let ghost p0 = self.index as int;
        loop
            invariant
                self.same_input(old(self)),
                self.buffered() == old(self).buffered(),
                s == self.text(),
                p0 == old(self).offset(),
                zero_significand || !positive_exp,
                scan_zero_tail(s, p0, positive) == scan_zero_tail(s, self.offset(), positive),
            decreases s.len() - self.offset(),
        {
            if digit_of(self.peek()).is_some() {
                self.discard();
            } else {
                return Ok(ParserNumber::Float { positive, significand: 0, exponent: 0 });
            }
        }
    }

    /// Reads a number, from its first byte (a `-` or a digit).
    pub fn parse_any_number(&mut self, positive: bool) -> (res: Result<ParserNumber, Error>)
        requires
            old(self).wf(),
        ensures
            final(self).same_input(old(self)),
            final(self).buffered() == old(self).buffered(),
            match scan_integer(old(self).text(), old(self).offset(), positive) {
                Scan::Done(n, e) => res == Ok::<ParserNumber, Error>(n) && final(self).offset() == e,
                Scan::Fail(c, a) => res == Err::<ParserNumber, Error>(error_at(old(self).text(), a, c)),
            },
    {
        self.parse_integer(positive)
    }

    /// Reads a whole number at the next byte, which must then end the
    /// input: any byte after it is an invalid number.
    pub fn parse_any_signed_number(&mut self) -> (res: Result<ParserNumber, Error>)
        requires
            old(self).wf(),
        ensures
            final(self).same_input(old(self)),
            final(self).buffered() == old(self).buffered(),
            ({
                let s = old(self).text();
                let i = old(self).offset();
                let value = if i >= s.len() {
                    Scan::Fail(ErrorCode::EofWhileParsingValue, s.len() as int)
                } else if s[i] == 0x2D {
                    scan_integer(s, i + 1, false)
                } else if digit_at(s, i) {
                    scan_integer(s, i, true)
                } else {
                    Scan::Fail(ErrorCode::InvalidNumber, peek_at(s, i))
                };
                match value {
                    Scan::Done(n, e) => if e < s.len() {
                        res == Err::<ParserNumber, Error>(error_at(s, peek_at(s, e), ErrorCode::InvalidNumber))
                            && final(self).offset() == e
                    } else {
                        res == Ok::<ParserNumber, Error>(n) && final(self).offset() == e
                    },
                    Scan::Fail(_, _) => res is Err,
                }
            }),
            final(self).offset() < final(self).text().len() ==> res == Err::<ParserNumber, Error>(
                error_at(old(self).text(), peek_at(old(self).text(), final(self).offset()), ErrorCode::InvalidNumber),
            ),
            final(self).offset() >= final(self).text().len() ==> ({
                let s = old(self).text();
                let i = old(self).offset();
                let value = if i >= s.len() {
                    Scan::Fail(ErrorCode::EofWhileParsingValue, s.len() as int)
                } else if s[i] == 0x2D {
                    scan_integer(s, i + 1, false)
                } else if digit_at(s, i) {
                    scan_integer(s, i, true)
                } else {
                    Scan::Fail(ErrorCode::InvalidNumber, peek_at(s, i))
                };
                match value {
                    Scan::Fail(c, a) => res == Err::<ParserNumber, Error>(error_at(s, a, c)),
                    Scan::Done(n, _) => res == Ok::<ParserNumber, Error>(n),
                }
            }),
    {
        let value = match self.expect_peek() {
            Ok(c) => {
                if c == 0x2D {
                    self.discard();
                    self.parse_any_number(false)
                } else if 0x30 <= c && c <= 0x39 {
                    self.parse_any_number(true)
                } else {
                    Err(self.peek_error(ErrorCode::InvalidNumber))
                }
            },
            Err(err) => Err(err),
        };
        match self.peek() {
            Some(_) => Err(self.peek_error(ErrorCode::InvalidNumber)),
            None => value,
        }
    }

    /// Reads a number after optional whitespace: `None` when the next byte
    /// starts no number (a `-` or a digit), which the caller reports as a
    /// value of the wrong type.
    pub fn deserialize_number(&mut self) -> (res: Result<Option<ParserNumber>, Error>)
        requires
            old(self).wf(),
        ensures
            match number_at(old(self).text(), old(self).offset()) {
                Scan::Done(n, e) => res == Ok::<Option<ParserNumber>, Error>(n) && final(self).offset() == e,
                Scan::Fail(c, a) => res == Err::<Option<ParserNumber>, Error>(error_at(old(self).text(), a, c)),
            },
            final(self).same_input(old(self)),
            final(self).buffered() == old(self).buffered(),
            ({
                let s = old(self).text();
                let j = skip_ws(s, old(self).offset());
                if j >= s.len() {
                    res == Err::<Option<ParserNumber>, Error>(
                        error_at(s, s.len() as int, ErrorCode::EofWhileParsingValue),
                    )
                } else if s[j] == 0x2D || digit_at(s, j) {
                    match scan_integer(s, if s[j] == 0x2D { j + 1 } else { j }, s[j] != 0x2D) {
                        Scan::Done(n, e) => res == Ok::<Option<ParserNumber>, Error>(Some(n))
                            && final(self).offset() == e,
                        Scan::Fail(c, a) => res == Err::<Option<ParserNumber>, Error>(
                            error_at(s, a, c),
                        ),
                    }
                } else {
                    res == Ok::<Option<ParserNumber>, Error>(None) && final(self).offset() == j
                }
            }),
    {
        let c = match self.expect_parse_whitespace() {
            Ok(c) => c,
            Err(err) => {
                return Err(err);
            },
        };
        if c == 0x2D {
            self.discard();
            match self.parse_integer(false) {
                Ok(n) => Ok(Some(n)),
                Err(err) => Err(err),
            }
        } else if 0x30 <= c && c <= 0x39 {
            match self.parse_integer(true) {
                Ok(n) => Ok(Some(n)),
                Err(err) => Err(err),
            }
        } else {
            Ok(None)
        }
    }

    /// Reads the digits of a 128-bit integer into `buf`.
    pub fn scan_integer128(&mut self, buf: &mut Vec<u8>) -> (res: Result<(), Error>)
        requires
            old(self).wf(),
        ensures
            final(self).same_input(old(self)),
            final(self).buffered() == old(self).buffered(),
            match scan_integer128(old(self).text(), old(self).offset()) {
                Scan::Done(d, e) => res is Ok && final(self).offset() == e && final(buf)@ == old(
                    buf,
                )@ + d,
                Scan::Fail(c, a) => res == Err::<(), Error>(error_at(old(self).text(), a, c)),
            },
    {
        let ghost s = self.input@;
        let c = match self.expect_next() {
            Ok(c) => c,
            Err(err) => {
                return Err(err);
            },
        };
        if c == 0x30 {
            buf.push(0x30);
            if digit_of(self.peek()).is_some() {
                Err(self.peek_error(ErrorCode::InvalidNumber))
            } else {
                Ok(())
            }
        } else if 0x31 <= c && c <= 0x39 {
            let ghost b0 = old(buf)@;
            buf.push(c);
            assert(buf@ =~= b0 + seq![c]);
            assert(buf@.skip(b0.len() as int) =~= seq![c]);
            loop
                invariant
                    self.same_input(old(self)),
                    self.buffered() == old(self).buffered(),
                    s == self.text(),
                    b0 == old(buf)@,
                    b0.len() <= buf@.len(),
                    scan_integer128(s, old(self).offset()) == scan_digit_run(
                        s,
                        self.offset(),
                        buf@.skip(b0.len() as int),
                    ),
                    buf@ == b0 + buf@.skip(b0.len() as int),
                decreases s.len() - self.offset(),
            {
                let next = self.peek();
                if digit_of(next).is_some() {
                    let d = next.unwrap();
                    let ghost run = buf@.skip(b0.len() as int);
                    self.discard();
                    buf.push(d);
                    assert(buf@.skip(b0.len() as int) =~= run.push(d));
                    assert(buf@ =~= b0 + buf@.skip(b0.len() as int));
                } else {
                    return Ok(());
                }
            }
        } else {
            Err(self.error(ErrorCode::InvalidNumber))
        }
    }

    /// Reads a 128-bit signed integer after optional whitespace.
    pub fn do_deserialize_i128(&mut self) -> (res: Result<i128, Error>)
        requires
            old(self).wf(),
        ensures
            final(self).same_input(old(self)),
            final(self).buffered() == old(self).buffered(),
            ({
                let s = old(self).text();
                let j = skip_ws(s, old(self).offset());
                if j >= s.len() {
                    res == Err::<i128, Error>(error_at(s, s.len() as int, ErrorCode::EofWhileParsingValue))
                } else {
                    let negative = s[j] == 0x2D;
                    match scan_integer128(s, if negative { j + 1 } else { j }) {
                        Scan::Done(d, e) => {
                            let v = if negative { -decimal_value(d) } else { decimal_value(d) };
                            if i128::MIN <= v <= i128::MAX {
                                res == Ok::<i128, Error>(v as i128) && final(self).offset() == e
                            } else {
                                res == Err::<i128, Error>(error_at(s, e, ErrorCode::NumberOutOfRange))
                            }
                        },
                        Scan::Fail(c, a) => res == Err::<i128, Error>(error_at(s, a, c)),
                    }
                }
            }),
    {
        let ghost s = self.input@;
        let mut buf: Vec<u8> = Vec::new();
        let c = match self.expect_parse_whitespace() {
            Ok(c) => c,
            Err(err) => {
                return Err(err);
            },
        };
        let negative = c == 0x2D;
        if negative {
            self.discard();
        }
        let ghost k = self.index as int;
        match self.scan_integer128(&mut buf) {
            Ok(()) => {},
            Err(err) => {
                return Err(err);
            },
        }
        proof {
            crate::grammar::lemma_integer128_digits(s, k);
            if let Scan::Done(d, e) = scan_integer128(s, k) {
                assert(Seq::<u8>::empty() + d =~= d);
            }
        }
        let ghost d = buf@;
        assert(scan_integer128(s, k) == Scan::Done(d, self.offset()));
        match digits_value(&buf) {
            Some(v) => {
                assert(v == decimal_value(d));
                if negative {
                    if v <= 0x8000_0000_0000_0000_0000_0000_0000_0000 {
                        if v == 0x8000_0000_0000_0000_0000_0000_0000_0000 {
                            Ok(i128::MIN)
                        } else {
                            Ok(0 - (v as i128))
                        }
                    } else {
                        Err(self.error(ErrorCode::NumberOutOfRange))
                    }
                } else if v <= i128::MAX as u128 {
                    Ok(v as i128)
                } else {
                    Err(self.error(ErrorCode::NumberOutOfRange))
                }
            },
            None => Err(self.error(ErrorCode::NumberOutOfRange)),
        }
    }

    /// Reads a 128-bit unsigned integer after optional whitespace; a
    /// leading `-` is out of range.
    pub fn do_deserialize_u128(&mut self) -> (res: Result<u128, Error>)
        requires
            old(self).wf(),
        ensures
            final(self).same_input(old(self)),
            final(self).buffered() == old(self).buffered(),
            ({
                let s = old(self).text();
                let j = skip_ws(s, old(self).offset());
                if j >= s.len() {
                    res == Err::<u128, Error>(error_at(s, s.len() as int, ErrorCode::EofWhileParsingValue))
                } else if s[j] == 0x2D {
                    res == Err::<u128, Error>(error_at(s, peek_at(s, j), ErrorCode::NumberOutOfRange))
                } else {
                    match scan_integer128(s, j) {
                        Scan::Done(d, e) => if decimal_value(d) <= u128::MAX {
                            res == Ok::<u128, Error>(decimal_value(d) as u128) && final(self).offset() == e
                        } else {
                            res == Err::<u128, Error>(error_at(s, e, ErrorCode::NumberOutOfRange))
                        },
                        Scan::Fail(c, a) => res == Err::<u128, Error>(error_at(s, a, c)),
                    }
                }
            }),
    {
        let ghost s = self.input@;
        let c = match self.expect_parse_whitespace() {
            Ok(c) => c,
            Err(err) => {
                return Err(err);
            },
        };
        if c == 0x2D {
            return Err(self.peek_error(ErrorCode::NumberOutOfRange));
        }
        let ghost k = self.index as int;
        let mut buf: Vec<u8> = Vec::new();
        match self.scan_integer128(&mut buf) {
            Ok(()) => {},
            Err(err) => {
                return Err(err);
            },
        }
        proof {
            crate::grammar::lemma_integer128_digits(s, k);
            if let Scan::Done(d, e) = scan_integer128(s, k) {
                assert(Seq::<u8>::empty() + d =~= d);
            }
        }
        match digits_value(&buf) {
            Some(v) => Ok(v),
            None => Err(self.error(ErrorCode::NumberOutOfRange)),
        }
    }

    /// Skips a run of digits.
    fn ignore_digits(&mut self) -> (res: Result<(), Error>)
        requires
            old(self).wf(),
        ensures
            final(self).same_input(old(self)),
            final(self).buffered() == old(self).buffered(),
            match skip_digits(old(self).text(), old(self).offset()) {
                Scan::Done(_, e) => res is Ok && final(self).offset() == e,
                Scan::Fail(c, a) => res == Err::<(), Error>(error_at(old(self).text(), a, c)),
            },
    {
        loop
            invariant
                self.same_input(old(self)),
                self.buffered() == old(self).buffered(),
                skip_digits(self.text(), self.offset()) == skip_digits(old(self).text(), old(self).offset()),
            decreases self.text().len() - self.offset(),
        {
            if digit_of(self.peek()).is_some() {
                self.discard();
            } else {
                return Ok(());
            }
        }
    }

    /// Skips a number, from its first digit.
    pub fn ignore_integer(&mut self) -> (res: Result<(), Error>)
        requires
            old(self).wf(),
        ensures
            final(self).same_input(old(self)),
            final(self).buffered() == old(self).buffered(),
            match skip_integer(old(self).text(), old(self).offset()) {
                Scan::Done(_, e) => res is Ok && final(self).offset() == e,
                Scan::Fail(c, a) => res == Err::<(), Error>(error_at(old(self).text(), a, c)),
            },
    {
        let c = match self.expect_next() {
            Ok(c) => c,
            Err(err) => {
                return Err(err);
            },
        };
        if c == 0x30 {
            if digit_of(self.peek()).is_some() {
                return Err(self.peek_error(ErrorCode::InvalidNumber));
            }
        } else if 0x31 <= c && c <= 0x39 {
            match self.ignore_digits() {
                Ok(()) => {},
                Err(err) => {
                    return Err(err);
                },
            }
        } else {
            return Err(self.error(ErrorCode::InvalidNumber));
        }
        let next = self.peek();
        if next == Some(0x2Eu8) {
            self.ignore_decimal()
        } else if next == Some(0x65u8) || next == Some(0x45u8) {
            self.ignore_exponent()
        } else {
            Ok(())
        }
    }

    /// Skips a fraction, from its decimal point.
    pub fn ignore_decimal(&mut self) -> (res: Result<(), Error>)
        requires
            old(self).wf(),
            old(self).offset() < old(self).text().len(),
        ensures
            final(self).same_input(old(self)),
            final(self).buffered() == old(self).buffered(),
            match skip_fraction(old(self).text(), old(self).offset() + 1) {
                Scan::Done(_, e) => res is Ok && final(self).offset() == e,
                Scan::Fail(c, a) => res == Err::<(), Error>(error_at(old(self).text(), a, c)),
            },
    {
        self.discard();
        match self.expect_peek() {
            Ok(d) => {
                if !(0x30 <= d && d <= 0x39) {
                    return Err(self.peek_error(ErrorCode::InvalidNumber));
                }
            },
            Err(err) => {
                return Err(err);
            },
        }
        match self.ignore_digits() {
            Ok(()) => {},
            Err(err) => {
                return Err(err);
            },
        }
        proof {
            crate::grammar::lemma_skip_digits_end(old(self).text(), old(self).offset() + 1);
        }
        let next = self.peek();
        if next == Some(0x65u8) || next == Some(0x45u8) {
            self.ignore_exponent()
        } else {
            Ok(())
        }
    }

    /// Skips an exponent, from its `e`.
    pub fn ignore_exponent(&mut self) -> (res: Result<(), Error>)
        requires
            old(self).wf(),
            old(self).offset() < old(self).text().len(),
        ensures
            final(self).same_input(old(self)),
            final(self).buffered() == old(self).buffered(),
            match skip_exponent(old(self).text(), old(self).offset() + 1) {
                Scan::Done(_, e) => res is Ok && final(self).offset() == e,
                Scan::Fail(c, a) => res == Err::<(), Error>(error_at(old(self).text(), a, c)),
            },
    {
        self.discard();
        match self.expect_peek() {
            Ok(d) => {
                if d == 0x2B || d == 0x2D {
                    self.discard();
                }
            },
            Err(err) => {
                return Err(err);
            },
        }
        match self.expect_next() {
            Ok(d) => {
                if !(0x30 <= d && d <= 0x39) {
                    return Err(self.error(ErrorCode::InvalidNumber));
                }
            },
            Err(err) => {
                return Err(err);
            },
        }
        self.ignore_digits()
    }

    /// Skips the escape after a backslash.
    pub fn ignore_escape(&mut self) -> (res: Result<(), Error>)
        requires
            old(self).wf(),
        ensures
            final(self).same_input(old(self)),
            final(self).buffered() == old(self).buffered(),
            match skip_escape(old(self).text(), old(self).offset()) {
                Scan::Done(_, e) => res is Ok && final(self).offset() == e,
                Scan::Fail(c, a) => res == Err::<(), Error>(error_at(old(self).text(), a, c)),
            },
    {
        let ch = match self.expect_next() {
            Ok(ch) => ch,
            Err(err) => {
                return Err(err);
            },
        };
        if ch == 0x22 || ch == 0x5C || ch == 0x2F || ch == 0x62 || ch == 0x66 || ch == 0x6E || ch
            == 0x72 || ch == 0x74 {
            Ok(())
        } else if ch == 0x75 {
            match self.decode_hex_escape() {
                Ok(_) => Ok(()),
                Err(err) => Err(err),
            }
        } else {
            Err(self.error(ErrorCode::InvalidEscape))
        }
    }

    /// Skips a string body, from just past its opening quote.
    pub fn ignore_str(&mut self) -> (res: Result<(), Error>)
        requires
            old(self).wf(),
        ensures
            final(self).same_input(old(self)),
            final(self).buffered() == old(self).buffered(),
            match skip_str(old(self).text(), old(self).offset()) {
                Scan::Done(_, e) => res is Ok && final(self).offset() == e,
                Scan::Fail(c, a) => res == Err::<(), Error>(error_at(old(self).text(), a, c)),
            },
    {
        loop
            invariant
                self.same_input(old(self)),
                self.buffered() == old(self).buffered(),
                skip_str(self.text(), self.offset()) == skip_str(old(self).text(), old(self).offset()),
            decreases self.text().len() - self.offset(),
        {
            let ghost p = self.index as int;
            self.skip_to_escape(true);
            proof {
                crate::grammar::lemma_next_escape_props(self.input@, p, true);
                crate::grammar::lemma_skip_str_plain(self.input@, p, self.offset());
            }
            if self.index == self.input.len() {
                return Err(self.error(ErrorCode::EofWhileParsingString));
            }
            let c = self.input[self.index];
            if c == QUOTE {
                self.index += 1;
                return Ok(());
            } else if c == BACKSLASH {
                self.index += 1;
                proof {
                    crate::grammar::lemma_skip_escape_end(self.input@, self.offset());
                }
                match self.ignore_escape() {
                    Ok(()) => {},
                    Err(err) => {
                        return Err(err);
                    },
                }
            } else {
                return Err(self.error(ErrorCode::ControlCharacterWhileParsingString));
            }
        }
    }

    /// Reads the first bytes of a value: a whole scalar (`None`), or the
    /// opener of an array, object or id map (`Some`; `:` stands for the
    /// `[:` of an id map).
    fn ignore_value_head(&mut self) -> (res: Result<Option<u8>, Error>)
        requires
            old(self).wf(),
        ensures
            final(self).same_input(old(self)),
            final(self).buffered() == old(self).buffered(),
            ({
                let s = old(self).text();
                let j = skip_ws(s, old(self).offset());
                if j + 1 < s.len() && s[j] == 0x5B && s[j + 1] == 0x3A {
                    res == Ok::<Option<u8>, Error>(Some(0x3Au8)) && final(self).offset() == j + 2
                } else if j < s.len() && (s[j] == 0x5B || s[j] == 0x7B) {
                    res == Ok::<Option<u8>, Error>(Some(s[j])) && final(self).offset() == j + 1
                } else {
                    match skip_value(s, old(self).offset()) {
                        Scan::Done(_, e) => res == Ok::<Option<u8>, Error>(None) && final(self).offset() == e,
                        Scan::Fail(c, a) => res == Err::<Option<u8>, Error>(error_at(s, a, c)),
                    }
                }
            }),
    {
        proof {
            crate::grammar::lemma_skip_ws(old(self).text(), old(self).offset());
        }
        let c = match self.expect_parse_whitespace() {
            Ok(c) => c,
            Err(err) => {
                return Err(err);
            },
        };
        if c == 0x6E {
            self.discard();
            match self.parse_ident(&[0x75u8, 0x6Cu8, 0x6Cu8]) {
                Ok(()) => Ok(None),
                Err(err) => Err(err),
            }
        } else if c == 0x74 {
            self.discard();
            match self.parse_ident(&[0x72u8, 0x75u8, 0x65u8]) {
                Ok(()) => Ok(None),
                Err(err) => Err(err),
            }
        } else if c == 0x66 {
            self.discard();
            match self.parse_ident(&[0x61u8, 0x6Cu8, 0x73u8, 0x65u8]) {
                Ok(()) => Ok(None),
                Err(err) => Err(err),
            }
        } else if c == 0x2D {
            self.discard();
            match self.ignore_integer() {
                Ok(()) => Ok(None),
                Err(err) => Err(err),
            }
        } else if 0x30 <= c && c <= 0x39 {
            match self.ignore_integer() {
                Ok(()) => Ok(None),
                Err(err) => Err(err),
            }
        } else if c == QUOTE {
            self.discard();
            match self.ignore_str() {
                Ok(()) => Ok(None),
                Err(err) => Err(err),
            }
        } else if c == 0x5B || c == 0x7B {
            self.discard();
            if c == 0x5B && self.peek() == Some(0x3Au8) {
                self.discard();
                Ok(Some(0x3A))
            } else {
                Ok(Some(c))
            }
        } else {
            Err(self.peek_error(ErrorCode::ExpectedSomeValue))
        }
    }

    /// Inside the container opened by `frame`: closes containers, popping
    /// their openers from the stack in the scratch space, until an element
    /// follows (`Some` of its container's opener) or the outermost one is
    /// closed (`None`).
    fn ignore_close_frames(&mut self, frame: u8, accept_comma: bool) -> (res: Result<Option<u8>, Error>)
        requires
            old(self).wf(),
            is_open(frame),
            forall|k: int| 0 <= k < old(self).buffered().len() ==> is_open(#[trigger] old(self).buffered()[k]),
        ensures
            final(self).same_input(old(self)),
            forall|k: int| 0 <= k < final(self).buffered().len() ==> is_open(#[trigger] final(self).buffered()[k]),
            old(self).offset() <= final(self).offset(),
            res matches Ok(None) ==> final(self).buffered().len() == 0,
            ({
                let goal = container_then_finish(
                    old(self).text(),
                    old(self).offset(),
                    frame,
                    accept_comma,
                    old(self).buffered(),
                );
                match res {
                    Ok(None) => goal == Scan::Done((), final(self).offset()),
                    Ok(Some(f)) => is_open(f) && goal == member_then_finish(
                        old(self).text(),
                        final(self).offset(),
                        f,
                        final(self).buffered(),
                    ),
                    Err(err) => goal matches Scan::Fail(c, a) && err == error_at(old(self).text(), a, c),
                }
            }),
    {
        let ghost s = self.input@;
        let ghost goal = container_then_finish(s, self.index as int, frame, accept_comma, self.scratch@);
        let ghost p0 = self.index as int;
        let mut fr = frame;
        let mut acc = accept_comma;
        loop
            invariant
                self.same_input(old(self)),
                s == self.text(),
                p0 == old(self).offset(),
                p0 <= self.offset(),
                goal == container_then_finish(s, p0, frame, accept_comma, old(self).buffered()),
                goal == container_then_finish(s, self.offset(), fr, acc, self.scratch@),
                is_open(fr),
                forall|k: int| 0 <= k < self.scratch@.len() ==> is_open(#[trigger] self.scratch@[k]),
            decreases s.len() - self.offset(),
        {
            let ghost q = self.index as int;
            proof {
                crate::grammar::lemma_skip_ws(s, q);
            }
            match self.parse_whitespace() {
                Some(c) => {
                    if c == 0x2C && acc {
                        self.discard();
                        return Ok(Some(fr));
                    } else if (c == 0x5D && (fr == 0x5B || fr == 0x3A)) || (c == 0x7D && fr == 0x7B) {
                    } else if acc {
                        return Err(self.peek_error(
                            if fr == 0x5B {
                                ErrorCode::ExpectedArrayCommaOrEnd
                            } else {
                                ErrorCode::ExpectedObjectCommaOrEnd
                            },
                        ));
                    } else {
                        return Ok(Some(fr));
                    }
                },
                None => {
                    return Err(self.peek_error(
                        if fr == 0x5B {
                            ErrorCode::EofWhileParsingArray
                        } else if fr == 0x3A {
                            ErrorCode::EofWhileParsingIdMap
                        } else {
                            ErrorCode::EofWhileParsingObject
                        },
                    ));
                },
            }
            self.discard();
            let ghost st = self.scratch@;
            match self.scratch.pop() {
                Some(f) => {
                    proof {
                        assert(st =~= self.scratch@.push(f));
                        lemma_finish_push(s, self.offset(), self.scratch@, f);
                    }
                    fr = f;
                },
                None => {
                    return Ok(None);
                },
            }
            acc = true;
        }
    }

    /// At an element of the container opened by `frame`: for an object,
    /// skips the string key and the colon after it.
    fn ignore_member_key(&mut self, frame: u8) -> (res: Result<(), Error>)
        requires
            old(self).wf(),
            is_open(frame),
        ensures
            final(self).same_input(old(self)),
            final(self).buffered() == old(self).buffered(),
            res is Ok ==> old(self).offset() <= final(self).offset(),
            forall|stack: Seq<u8>|
                match res {
                    Ok(()) => #[trigger] member_then_finish(old(self).text(), old(self).offset(), frame, stack)
                        == value_then_finish(old(self).text(), final(self).offset(), stack.push(frame)),
                    Err(err) => member_then_finish(old(self).text(), old(self).offset(), frame, stack) matches Scan::Fail(c, a)
                        && err == error_at(old(self).text(), a, c),
                },
    {
        let ghost s = self.input@;
        let ghost m = self.index as int;
        if frame == 0x7B {
            proof {
                crate::grammar::lemma_skip_ws(s, m);
            }
            match self.parse_whitespace() {
                Some(c) => {
                    if c == QUOTE {
                        self.discard();
                    } else {
                        return Err(self.peek_error(ErrorCode::KeyMustBeAString));
                    }
                },
                None => {
                    return Err(self.peek_error(ErrorCode::EofWhileParsingObject));
                },
            }
            proof {
                crate::grammar::lemma_skip_str_end(s, self.offset());
            }
            match self.ignore_str() {
                Ok(()) => {},
                Err(err) => {
                    return Err(err);
                },
            }
            let ghost q = self.index as int;
            proof {
                crate::grammar::lemma_skip_ws(s, q);
            }
            match self.parse_whitespace() {
                Some(c) => {
                    if c == 0x3A {
                        self.discard();
                    } else {
                        return Err(self.peek_error(ErrorCode::ExpectedColon));
                    }
                },
                None => {
                    return Err(self.peek_error(ErrorCode::EofWhileParsingObject));
                },
            }
        } else if frame == 0x3A {
            proof {
                crate::grammar::lemma_skip_ws(s, m);
            }
            match self.parse_whitespace() {
                Some(c) => {
                    if c == 0x2D {
                        self.discard();
                        proof {
                            crate::grammar::lemma_skip_integer_end(s, self.offset());
                        }
                    } else if 0x30 <= c && c <= 0x39 {
                        proof {
                            crate::grammar::lemma_skip_integer_end(s, self.offset());
                        }
                    } else {
                        return Err(self.peek_error(ErrorCode::ExpectedNumericKey));
                    }
                },
                None => {
                    return Err(self.peek_error(ErrorCode::EofWhileParsingIdMap));
                },
            }
            match self.ignore_integer() {
                Ok(()) => {},
                Err(err) => {
                    return Err(err);
                },
            }
            let ghost q = self.index as int;
            proof {
                crate::grammar::lemma_skip_ws(s, q);
            }
            match self.parse_whitespace() {
                Some(c) => {
                    if c == 0x3A {
                        self.discard();
                    } else {
                        return Err(self.peek_error(ErrorCode::ExpectedColon));
                    }
                },
                None => {
                    return Err(self.peek_error(ErrorCode::EofWhileParsingIdMap));
                },
            }
        }
        proof {
            assert forall|stack: Seq<u8>|
                #[trigger] member_then_finish(s, m, frame, stack) == value_then_finish(
                    s,
                    self.offset(),
                    stack.push(frame),
                ) by {
                lemma_member_start(s, m, self.offset(), frame, stack);
            }
        }
        Ok(())
    }

    /// Skips one value of any kind, id maps among them, after optional
    /// whitespace.  Nested arrays, objects and id maps are tracked on a
    /// stack of their openers kept in the scratch space, so nesting depth is
    /// not limited; the scratch space is left empty.
    pub fn ignore_value(&mut self) -> (res: Result<(), Error>)
        requires
            old(self).wf(),
        ensures
            final(self).same_input(old(self)),
            match skip_value(old(self).text(), old(self).offset()) {
                Scan::Done(_, e) => res is Ok && final(self).offset() == e,
                Scan::Fail(c, a) => res == Err::<(), Error>(error_at(old(self).text(), a, c)),
            },
            res is Ok ==> final(self).buffered() == Seq::<u8>::empty(),
    {
        let ghost s = self.input@;
        let ghost goal = skip_value(s, self.index as int);
        self.scratch.clear();
        let mut enclosing: Option<u8> = None;
        proof {
            assert(frames_of(enclosing, self.scratch@) =~= Seq::<u8>::empty());
            match goal {
                Scan::Done(u, e) => {
                    assert(u == ());
                    assert(finish_frames(s, e, Seq::<u8>::empty()) == Scan::Done((), e));
                    assert(value_then_finish(s, self.offset(), Seq::<u8>::empty()) == goal);
                },
                Scan::Fail(c, a) => {},
            }
        }
        loop
            invariant
                self.same_input(old(self)),
                s == self.text(),
                goal == skip_value(s, old(self).offset()),
                enclosing matches Some(f) ==> is_open(f),
                forall|k: int| 0 <= k < self.scratch@.len() ==> is_open(#[trigger] self.scratch@[k]),
                goal == value_then_finish(s, self.offset(), frames_of(enclosing, self.scratch@)),
            decreases s.len() - self.offset(),
        {
            let ghost p = self.index as int;
            let ghost frames = frames_of(enclosing, self.scratch@);
            proof {
                crate::grammar::lemma_skip_ws(s, p);
                crate::grammar::lemma_skip_value_end(s, p);
            }
            let opened = match self.ignore_value_head() {
                Ok(opened) => opened,
                Err(err) => {
                    return Err(err);
                },
            };
            let accept_comma: bool;
            let frame: u8;
            match opened {
                Some(f) => {
                    match enclosing {
                        Some(g) => {
                            self.scratch.push(g);
                        },
                        None => {},
                    }
                    proof {
                        assert(self.scratch@ =~= frames);
                    }
                    enclosing = None;
                    accept_comma = false;
                    frame = f;
                },
                None => {
                    match enclosing {
                        Some(f) => {
                            proof {
                                lemma_finish_push(s, self.offset(), self.scratch@, f);
                            }
                            enclosing = None;
                            accept_comma = true;
                            frame = f;
                        },
                        None => {
                            let ghost st = self.scratch@;
                            match self.scratch.pop() {
                                Some(f) => {
                                    proof {
                                        assert(st =~= self.scratch@.push(f));
                                        lemma_finish_push(s, self.offset(), self.scratch@, f);
                                    }
                                    accept_comma = true;
                                    frame = f;
                                },
                                None => {
                                    return Ok(());
                                },
                            }
                        },
                    }
                },
            }
            let member = match self.ignore_close_frames(frame, accept_comma) {
                Ok(Some(f)) => f,
                Ok(None) => {
                    return Ok(());
                },
                Err(err) => {
                    return Err(err);
                },
            };
            let ghost stack = self.scratch@;
            match self.ignore_member_key(member) {
                Ok(()) => {},
                Err(err) => {
                    proof {
                        assert(member_then_finish(s, p, member, stack) == member_then_finish(s, p, member, stack));
                    }
                    return Err(err);
                },
            }
            enclosing = Some(member);
        }
    }

    /// Empties the scratch space before a string is read.
    pub fn clear_scratch(&mut self)
        requires
            old(self).wf(),
        ensures
            final(self).same_input(old(self)),
            final(self).offset() == old(self).offset(),
            final(self).buffered() == Seq::<u8>::empty(),
    {
        self.scratch.clear();
    }

    /// Enters one more level of nesting; an error when the limit is reached.
    pub fn enter_nested(&mut self) -> (res: Result<(), Error>)
        requires
            old(self).wf(),
            old(self).depth() > 0,
        ensures
            final(self).wf(),
            final(self).text() == old(self).text(),
            final(self).offset() == old(self).offset(),
            final(self).buffered() == old(self).buffered(),
            final(self).depth() == old(self).depth() - 1,
            old(self).depth() == 1 ==> res == Err::<(), Error>(
                error_at(old(self).text(), peek_at(old(self).text(), old(self).offset()), ErrorCode::RecursionLimitExceeded),
            ),
            old(self).depth() > 1 ==> res is Ok,
    {
        self.remaining_depth -= 1;
        if self.remaining_depth == 0 {
            return Err(self.peek_error(ErrorCode::RecursionLimitExceeded));
        }
        Ok(())
    }

    /// Leaves a level of nesting entered with `enter_nested`.
    pub fn leave_nested(&mut self)
        requires
            old(self).wf(),
            old(self).depth() < u8::MAX,
        ensures
            final(self).wf(),
            final(self).text() == old(self).text(),
            final(self).offset() == old(self).offset(),
            final(self).buffered() == old(self).buffered(),
            final(self).depth() == old(self).depth() + 1,
    {
        self.remaining_depth += 1;
    }

    /// Inside an array: whether another element follows, consuming the
    /// comma before it.  `first` is cleared once the first element is found.
    pub fn has_next_element(&mut self, first: &mut bool) -> (res: Result<bool, Error>)
        requires
            old(self).wf(),
        ensures
            match next_element(old(self).text(), old(self).offset(), *old(first)) {
                Scan::Done(more, e) => res == Ok::<bool, Error>(more) && final(self).offset() == e,
                Scan::Fail(c, a) => res == Err::<bool, Error>(error_at(old(self).text(), a, c)),
            },
            final(self).same_input(old(self)),
            final(self).buffered() == old(self).buffered(),
            ({
                let s = old(self).text();
                let k = skip_ws(s, old(self).offset());
                let m = skip_ws(s, k + 1);
                if k >= s.len() {
                    res == Err::<bool, Error>(error_at(s, s.len() as int, ErrorCode::EofWhileParsingArray))
                } else if s[k] == 0x5D {
                    res == Ok::<bool, Error>(false) && final(self).offset() == k && *final(first) == *old(first)
                } else if *old(first) {
                    res == Ok::<bool, Error>(true) && final(self).offset() == k && !*final(first)
                } else if s[k] == 0x2C {
                    if m >= s.len() {
                        res == Err::<bool, Error>(error_at(s, s.len() as int, ErrorCode::EofWhileParsingValue))
                    } else if s[m] == 0x5D {
                        res == Err::<bool, Error>(error_at(s, peek_at(s, m), ErrorCode::TrailingComma))
                    } else {
                        res == Ok::<bool, Error>(true) && final(self).offset() == m && *final(first) == *old(first)
                    }
                } else {
                    res == Err::<bool, Error>(error_at(s, peek_at(s, k), ErrorCode::ExpectedArrayCommaOrEnd))
                }
            }),
    {
        proof {
            crate::grammar::lemma_skip_ws(self.input@, self.offset());
        }
        let peek = match self.parse_whitespace() {
            Some(b) => b,
            None => {
                return Err(self.peek_error(ErrorCode::EofWhileParsingArray));
            },
        };
        if peek == 0x5D {
            Ok(false)
        } else if *first {
            *first = false;
            Ok(true)
        } else if peek == 0x2C {
            self.discard();
            match self.parse_whitespace() {
                Some(b) => {
                    if b == 0x5D {
                        Err(self.peek_error(ErrorCode::TrailingComma))
                    } else {
                        Ok(true)
                    }
                },
                None => Err(self.peek_error(ErrorCode::EofWhileParsingValue)),
            }
        } else {
            Err(self.peek_error(ErrorCode::ExpectedArrayCommaOrEnd))
        }
    }

    /// Inside an object: whether another key follows, consuming the comma
    /// before it; the key must start with a quote.
    pub fn has_next_key(&mut self, first: &mut bool) -> (res: Result<bool, Error>)
        requires
            old(self).wf(),
        ensures
            match next_key(old(self).text(), old(self).offset(), *old(first)) {
                Scan::Done(more, e) => res == Ok::<bool, Error>(more) && final(self).offset() == e,
                Scan::Fail(c, a) => res == Err::<bool, Error>(error_at(old(self).text(), a, c)),
            },
            final(self).same_input(old(self)),
            final(self).buffered() == old(self).buffered(),
            ({
                let s = old(self).text();
                let k = skip_ws(s, old(self).offset());
                let m = skip_ws(s, k + 1);
                if k >= s.len() {
                    res == Err::<bool, Error>(error_at(s, s.len() as int, ErrorCode::EofWhileParsingObject))
                } else if s[k] == 0x7D {
                    res == Ok::<bool, Error>(false) && final(self).offset() == k && *final(first) == *old(first)
                } else if *old(first) {
                    !*final(first) && if s[k] == QUOTE {
                        res == Ok::<bool, Error>(true) && final(self).offset() == k
                    } else {
                        res == Err::<bool, Error>(error_at(s, peek_at(s, k), ErrorCode::KeyMustBeAString))
                    }
                } else if s[k] == 0x2C {
                    if m >= s.len() {
                        res == Err::<bool, Error>(error_at(s, s.len() as int, ErrorCode::EofWhileParsingValue))
                    } else if s[m] == QUOTE {
                        res == Ok::<bool, Error>(true) && final(self).offset() == m && *final(first) == *old(first)
                    } else if s[m] == 0x7D {
                        res == Err::<bool, Error>(error_at(s, peek_at(s, m), ErrorCode::TrailingComma))
                    } else {
                        res == Err::<bool, Error>(error_at(s, peek_at(s, m), ErrorCode::KeyMustBeAString))
                    }
                } else {
                    res == Err::<bool, Error>(error_at(s, peek_at(s, k), ErrorCode::ExpectedObjectCommaOrEnd))
                }
            }),
    {
        proof {
            crate::grammar::lemma_skip_ws(self.input@, self.offset());
        }
        let peek = match self.parse_whitespace() {
            Some(b) => b,
            None => {
                return Err(self.peek_error(ErrorCode::EofWhileParsingObject));
            },
        };
        if peek == 0x7D {
            Ok(false)
        } else if *first {
            *first = false;
            if peek == QUOTE {
                Ok(true)
            } else {
                Err(self.peek_error(ErrorCode::KeyMustBeAString))
            }
        } else if peek == 0x2C {
            self.discard();
            match self.parse_whitespace() {
                Some(b) => {
                    if b == QUOTE {
                        Ok(true)
                    } else if b == 0x7D {
                        Err(self.peek_error(ErrorCode::TrailingComma))
                    } else {
                        Err(self.peek_error(ErrorCode::KeyMustBeAString))
                    }
                },
                None => Err(self.peek_error(ErrorCode::EofWhileParsingValue)),
            }
        } else {
            Err(self.peek_error(ErrorCode::ExpectedObjectCommaOrEnd))
        }
    }

    /// Inside an id map: whether another key follows, consuming the comma
    /// before it.
    pub fn has_next_id_map_key(&mut self, first: &mut bool) -> (res: Result<bool, Error>)
        requires
            old(self).wf(),
        ensures
            match next_id_map_key(old(self).text(), old(self).offset(), *old(first)) {
                Scan::Done(more, e) => res == Ok::<bool, Error>(more) && final(self).offset() == e,
                Scan::Fail(c, a) => res == Err::<bool, Error>(error_at(old(self).text(), a, c)),
            },
            final(self).same_input(old(self)),
            final(self).buffered() == old(self).buffered(),
            ({
                let s = old(self).text();
                let k = skip_ws(s, old(self).offset());
                let m = skip_ws(s, k + 1);
                if k >= s.len() {
                    res == Err::<bool, Error>(error_at(s, s.len() as int, ErrorCode::EofWhileParsingIdMap))
                } else if s[k] == 0x5D {
                    res == Ok::<bool, Error>(false) && final(self).offset() == k && *final(first) == *old(first)
                } else if *old(first) {
                    res == Ok::<bool, Error>(true) && final(self).offset() == k && !*final(first)
                } else if s[k] == 0x2C {
                    if m >= s.len() {
                        res == Err::<bool, Error>(error_at(s, s.len() as int, ErrorCode::EofWhileParsingValue))
                    } else if s[m] == 0x5D {
                        res == Err::<bool, Error>(error_at(s, peek_at(s, m), ErrorCode::TrailingComma))
                    } else {
                        res == Ok::<bool, Error>(true) && final(self).offset() == m && *final(first) == *old(first)
                    }
                } else {
                    res == Err::<bool, Error>(error_at(s, peek_at(s, k), ErrorCode::ExpectedObjectCommaOrEnd))
                }
            }),
    {
        proof {
            crate::grammar::lemma_skip_ws(self.input@, self.offset());
        }
        let peek = match self.parse_whitespace() {
            Some(b) => b,
            None => {
                return Err(self.peek_error(ErrorCode::EofWhileParsingIdMap));
            },
        };
        if peek == 0x5D {
            Ok(false)
        } else if *first {
            *first = false;
            Ok(true)
        } else if peek == 0x2C {
            self.discard();
            match self.parse_whitespace() {
                Some(b) => {
                    if b == 0x5D {
                        Err(self.peek_error(ErrorCode::TrailingComma))
                    } else {
                        Ok(true)
                    }
                },
                None => Err(self.peek_error(ErrorCode::EofWhileParsingValue)),
            }
        } else {
            Err(self.peek_error(ErrorCode::ExpectedObjectCommaOrEnd))
        }
    }

    /// Before a number used as an object key: consumes the key's opening
    /// quote, which must be followed by a digit or a `-`.
    pub fn begin_numeric_key(&mut self) -> (res: Result<(), Error>)
        requires
            old(self).wf(),
            old(self).offset() < old(self).text().len(),
        ensures
            final(self).same_input(old(self)),
            final(self).buffered() == old(self).buffered(),
            final(self).offset() == old(self).offset() + 1,
            ({
                let s = old(self).text();
                let i = old(self).offset() + 1;
                if i < s.len() && (digit_at(s, i) || s[i] == 0x2D) {
                    res is Ok
                } else {
                    res == Err::<(), Error>(error_at(s, i, ErrorCode::ExpectedNumericKey))
                }
            }),
    {
        self.discard();
        match self.peek() {
            Some(c) => {
                if (0x30 <= c && c <= 0x39) || c == 0x2D {
                    return Ok(());
                }
            },
            None => {},
        }
        Err(self.error(ErrorCode::ExpectedNumericKey))
    }

    /// After a number used as an object key: consumes the key's closing quote.
    pub fn end_numeric_key(&mut self) -> (res: Result<(), Error>)
        requires
            old(self).wf(),
        ensures
            final(self).same_input(old(self)),
            final(self).buffered() == old(self).buffered(),
            ({
                let s = old(self).text();
                let i = old(self).offset();
                if i < s.len() && s[i] == QUOTE {
                    res is Ok && final(self).offset() == i + 1
                } else {
                    res == Err::<(), Error>(error_at(s, peek_at(s, i), ErrorCode::ExpectedDoubleQuote))
                }
            }),
    {
        match self.peek() {
            Some(c) => {
                if c == QUOTE {
                    self.discard();
                    return Ok(());
                }
            },
            None => {},
        }
        Err(self.peek_error(ErrorCode::ExpectedDoubleQuote))
    }

    /// A boolean used as an object key, from its opening quote: `true"` or
    /// `false"`.  `None` when the key starts with another byte, which is
    /// then consumed.
    pub fn parse_key_bool(&mut self) -> (res: Result<Option<bool>, Error>)
        requires
            old(self).wf(),
            old(self).offset() < old(self).text().len(),
        ensures
            final(self).same_input(old(self)),
            final(self).buffered() == old(self).buffered(),
            ({
                let s = old(self).text();
                let i = old(self).offset() + 1;
                if i >= s.len() {
                    res == Err::<Option<bool>, Error>(error_at(s, s.len() as int, ErrorCode::EofWhileParsingValue))
                } else if s[i] == 0x74 {
                    match scan_ident(s, i + 1, seq![0x72u8, 0x75u8, 0x65u8, 0x22u8]) {
                        Scan::Done(_, e) => res == Ok::<Option<bool>, Error>(Some(true)) && final(self).offset() == e,
                        Scan::Fail(c, a) => res == Err::<Option<bool>, Error>(error_at(s, a, c)),
                    }
                } else if s[i] == 0x66 {
                    match scan_ident(s, i + 1, seq![0x61u8, 0x6Cu8, 0x73u8, 0x65u8, 0x22u8]) {
                        Scan::Done(_, e) => res == Ok::<Option<bool>, Error>(Some(false)) && final(self).offset() == e,
                        Scan::Fail(c, a) => res == Err::<Option<bool>, Error>(error_at(s, a, c)),
                    }
                } else {
                    res == Ok::<Option<bool>, Error>(None) && final(self).offset() == i + 1
                }
            }),
    {
        self.discard();
        let c = match self.expect_next() {
            Ok(c) => c,
            Err(err) => {
                return Err(err);
            },
        };
        if c == 0x74 {
            match self.parse_ident(&[0x72u8, 0x75u8, 0x65u8, 0x22u8]) {
                Ok(()) => Ok(Some(true)),
                Err(err) => Err(err),
            }
        } else if c == 0x66 {
            match self.parse_ident(&[0x61u8, 0x6Cu8, 0x73u8, 0x65u8, 0x22u8]) {
                Ok(()) => Ok(Some(false)),
                Err(err) => Err(err),
            }
        } else {
            Ok(None)
        }
    }

    /// Reads the `}` that closes an enum written as a one-entry object.
    pub fn end_enum(&mut self) -> (res: Result<(), Error>)
        requires
            old(self).wf(),
        ensures
            final(self).same_input(old(self)),
            final(self).buffered() == old(self).buffered(),
            ({
                let s = old(self).text();
                let k = skip_ws(s, old(self).offset());
                if k >= s.len() {
                    res == Err::<(), Error>(error_at(s, k, ErrorCode::EofWhileParsingObject))
                } else if s[k] == 0x7D {
                    res is Ok && final(self).offset() == k + 1
                } else {
                    res == Err::<(), Error>(error_at(s, k, ErrorCode::ExpectedSomeValue))
                }
            }),
    {
        match self.parse_whitespace() {
            Some(c) => {
                if c == 0x7D {
                    self.discard();
                    Ok(())
                } else {
                    Err(self.error(ErrorCode::ExpectedSomeValue))
                }
            },
            None => Err(self.error(ErrorCode::EofWhileParsingObject)),
        }
    }

    /// How many more levels of nesting may be entered.
    pub fn remaining_depth(&self) -> (res: u8)
        ensures
            res == self.depth(),
    {
        self.remaining_depth
    }

    /// Reads a boolean after optional whitespace: `None` when the next byte
    /// starts no boolean, which the caller reports as a value of the wrong
    /// type.
    pub fn parse_bool(&mut self) -> (res: Result<Option<bool>, Error>)
        requires
            old(self).wf(),
        ensures
            final(self).same_input(old(self)),
            final(self).buffered() == old(self).buffered(),
            ({
                let s = old(self).text();
                let j = skip_ws(s, old(self).offset());
                if j >= s.len() {
                    res == Err::<Option<bool>, Error>(error_at(s, s.len() as int, ErrorCode::EofWhileParsingValue))
                } else if s[j] == 0x74 {
                    match scan_ident(s, j + 1, seq![0x72u8, 0x75u8, 0x65u8]) {
                        Scan::Done(_, e) => res == Ok::<Option<bool>, Error>(Some(true)) && final(self).offset() == e,
                        Scan::Fail(c, a) => res == Err::<Option<bool>, Error>(error_at(s, a, c)),
                    }
                } else if s[j] == 0x66 {
                    match scan_ident(s, j + 1, seq![0x61u8, 0x6Cu8, 0x73u8, 0x65u8]) {
                        Scan::Done(_, e) => res == Ok::<Option<bool>, Error>(Some(false)) && final(self).offset() == e,
                        Scan::Fail(c, a) => res == Err::<Option<bool>, Error>(error_at(s, a, c)),
                    }
                } else {
                    res == Ok::<Option<bool>, Error>(None) && final(self).offset() == j
                }
            }),
    {
        let c = match self.expect_parse_whitespace() {
            Ok(c) => c,
            Err(err) => {
                return Err(err);
            },
        };
        if c == 0x74 {
            self.discard();
            match self.parse_ident(&[0x72u8, 0x75u8, 0x65u8]) {
                Ok(()) => Ok(Some(true)),
                Err(err) => Err(err),
            }
        } else if c == 0x66 {
            self.discard();
            match self.parse_ident(&[0x61u8, 0x6Cu8, 0x73u8, 0x65u8]) {
                Ok(()) => Ok(Some(false)),
                Err(err) => Err(err),
            }
        } else {
            Ok(None)
        }
    }

    /// Reads `null` after optional whitespace, for a unit value: `false`
    /// when the next byte starts something else, which the caller reports
    /// as a value of the wrong type.
    pub fn parse_unit(&mut self) -> (res: Result<bool, Error>)
        requires
            old(self).wf(),
        ensures
            final(self).same_input(old(self)),
            final(self).buffered() == old(self).buffered(),
            ({
                let s = old(self).text();
                let j = skip_ws(s, old(self).offset());
                if j >= s.len() {
                    res == Err::<bool, Error>(error_at(s, s.len() as int, ErrorCode::EofWhileParsingValue))
                } else if s[j] == 0x6E {
                    match scan_ident(s, j + 1, seq![0x75u8, 0x6Cu8, 0x6Cu8]) {
                        Scan::Done(_, e) => res == Ok::<bool, Error>(true) && final(self).offset() == e,
                        Scan::Fail(c, a) => res == Err::<bool, Error>(error_at(s, a, c)),
                    }
                } else {
                    res == Ok::<bool, Error>(false) && final(self).offset() == j
                }
            }),
    {
        let c = match self.expect_parse_whitespace() {
            Ok(c) => c,
            Err(err) => {
                return Err(err);
            },
        };
        if c == 0x6E {
            self.discard();
            match self.parse_ident(&[0x75u8, 0x6Cu8, 0x6Cu8]) {
                Ok(()) => Ok(true),
                Err(err) => Err(err),
            }
        } else {
            Ok(false)
        }
    }

    /// Reads `null` after optional whitespace, for an optional value:
    /// `false` when something else (or nothing) follows, which is then the
    /// value itself.
    pub fn parse_none(&mut self) -> (res: Result<bool, Error>)
        requires
            old(self).wf(),
        ensures
            final(self).same_input(old(self)),
            final(self).buffered() == old(self).buffered(),
            ({
                let s = old(self).text();
                let j = skip_ws(s, old(self).offset());
                if j < s.len() && s[j] == 0x6E {
                    match scan_ident(s, j + 1, seq![0x75u8, 0x6Cu8, 0x6Cu8]) {
                        Scan::Done(_, e) => res == Ok::<bool, Error>(true) && final(self).offset() == e,
                        Scan::Fail(c, a) => res == Err::<bool, Error>(error_at(s, a, c)),
                    }
                } else {
                    res == Ok::<bool, Error>(false) && final(self).offset() == j
                }
            }),
    {
        match self.parse_whitespace() {
            Some(c) => {
                if c == 0x6E {
                    self.discard();
                    return match self.parse_ident(&[0x75u8, 0x6Cu8, 0x6Cu8]) {
                        Ok(()) => Ok(true),
                        Err(err) => Err(err),
                    };
                }
            },
            None => {},
        }
        Ok(false)
    }

    /// Reads the opening quote of a string after optional whitespace, and
    /// clears the space that escaped strings are copied into: `false` when
    /// the next byte is not a quote.
    pub fn begin_str(&mut self) -> (res: Result<bool, Error>)
        requires
            old(self).wf(),
        ensures
            final(self).same_input(old(self)),
            ({
                let s = old(self).text();
                let j = skip_ws(s, old(self).offset());
                if j >= s.len() {
                    res == Err::<bool, Error>(error_at(s, s.len() as int, ErrorCode::EofWhileParsingValue))
                } else if s[j] == QUOTE {
                    res == Ok::<bool, Error>(true) && final(self).offset() == j + 1
                        && final(self).buffered() == Seq::<u8>::empty()
                } else {
                    res == Ok::<bool, Error>(false) && final(self).offset() == j
                        && final(self).buffered() == old(self).buffered()
                }
            }),
    {
        let c = match self.expect_parse_whitespace() {
            Ok(c) => c,
            Err(err) => {
                return Err(err);
            },
        };
        if c == QUOTE {
            self.discard();
            self.clear_scratch();
            Ok(true)
        } else {
            Ok(false)
        }
    }

    /// Reads the opening byte `open` of an array or object after optional
    /// whitespace, entering one more level of nesting: `false` when the
    /// next byte is another.
    fn begin_container(&mut self, open: u8) -> (res: Result<bool, Error>)
        requires
            old(self).wf(),
            old(self).depth() > 0,
        ensures
            final(self).wf(),
            final(self).text() == old(self).text(),
            final(self).buffered() == old(self).buffered(),
            ({
                let s = old(self).text();
                let j = skip_ws(s, old(self).offset());
                let d = old(self).depth();
                if j >= s.len() {
                    res == Err::<bool, Error>(error_at(s, s.len() as int, ErrorCode::EofWhileParsingValue))
                } else if s[j] == open {
                    if d == 1 {
                        res == Err::<bool, Error>(error_at(s, peek_at(s, j), ErrorCode::RecursionLimitExceeded))
                    } else {
                        res == Ok::<bool, Error>(true) && final(self).offset() == j + 1
                            && final(self).depth() == d - 1
                    }
                } else {
                    res == Ok::<bool, Error>(false) && final(self).offset() == j && final(self).depth() == d
                }
            }),
    {
        let c = match self.expect_parse_whitespace() {
            Ok(c) => c,
            Err(err) => {
                return Err(err);
            },
        };
        if c == open {
            match self.enter_nested() {
                Ok(()) => {},
                Err(err) => {
                    return Err(err);
                },
            }
            self.discard();
            Ok(true)
        } else {
            Ok(false)
        }
    }

    /// Reads the `[` of an array after optional whitespace, entering one
    /// more level of nesting: `false` when the next byte is another, which
    /// the caller reports as a value of the wrong type.
    pub fn begin_seq(&mut self) -> (res: Result<bool, Error>)
        requires
            old(self).wf(),
            old(self).depth() > 0,
        ensures
            final(self).wf(),
            final(self).text() == old(self).text(),
            final(self).buffered() == old(self).buffered(),
            ({
                let s = old(self).text();
                let j = skip_ws(s, old(self).offset());
                let d = old(self).depth();
                if j >= s.len() {
                    res == Err::<bool, Error>(error_at(s, s.len() as int, ErrorCode::EofWhileParsingValue))
                } else if s[j] == 0x5B {
                    if d == 1 {
                        res == Err::<bool, Error>(error_at(s, peek_at(s, j), ErrorCode::RecursionLimitExceeded))
                    } else {
                        res == Ok::<bool, Error>(true) && final(self).offset() == j + 1
                            && final(self).depth() == d - 1
                    }
                } else {
                    res == Ok::<bool, Error>(false) && final(self).offset() == j && final(self).depth() == d
                }
            }),
    {
        self.begin_container(0x5B)
    }

    /// Reads the `{` of an object after optional whitespace, entering one
    /// more level of nesting: `false` when the next byte is another, which
    /// the caller reports as a value of the wrong type.
    pub fn begin_map(&mut self) -> (res: Result<bool, Error>)
        requires
            old(self).wf(),
            old(self).depth() > 0,
        ensures
            final(self).wf(),
            final(self).text() == old(self).text(),
            final(self).buffered() == old(self).buffered(),
            ({
                let s = old(self).text();
                let j = skip_ws(s, old(self).offset());
                let d = old(self).depth();
                if j >= s.len() {
                    res == Err::<bool, Error>(error_at(s, s.len() as int, ErrorCode::EofWhileParsingValue))
                } else if s[j] == 0x7B {
                    if d == 1 {
                        res == Err::<bool, Error>(error_at(s, peek_at(s, j), ErrorCode::RecursionLimitExceeded))
                    } else {
                        res == Ok::<bool, Error>(true) && final(self).offset() == j + 1
                            && final(self).depth() == d - 1
                    }
                } else {
                    res == Ok::<bool, Error>(false) && final(self).offset() == j && final(self).depth() == d
                }
            }),
    {
        self.begin_container(0x7B)
    }

    /// Reads the start of a struct after optional whitespace, written as an
    /// array of its fields or as an object, entering one more level of
    /// nesting: `None` when the next byte starts neither, which the caller
    /// reports as a value of the wrong type.
    pub fn begin_struct(&mut self) -> (res: Result<Option<Token>, Error>)
        requires
            old(self).wf(),
            old(self).depth() > 0,
        ensures
            final(self).wf(),
            final(self).text() == old(self).text(),
            final(self).buffered() == old(self).buffered(),
            ({
                let s = old(self).text();
                let j = skip_ws(s, old(self).offset());
                let d = old(self).depth();
                if j >= s.len() {
                    res == Err::<Option<Token>, Error>(error_at(s, s.len() as int, ErrorCode::EofWhileParsingValue))
                } else if s[j] == 0x5B || s[j] == 0x7B {
                    if d == 1 {
                        res == Err::<Option<Token>, Error>(error_at(s, peek_at(s, j), ErrorCode::RecursionLimitExceeded))
                    } else {
                        res == Ok::<Option<Token>, Error>(Some(if s[j] == 0x5B { Token::Array } else { Token::Object }))
                            && final(self).offset() == j + 1 && final(self).depth() == d - 1
                    }
                } else {
                    res == Ok::<Option<Token>, Error>(None) && final(self).offset() == j && final(self).depth() == d
                }
            }),
    {
        let c = match self.expect_parse_whitespace() {
            Ok(c) => c,
            Err(err) => {
                return Err(err);
            },
        };
        if c == 0x5B || c == 0x7B {
            match self.enter_nested() {
                Ok(()) => {},
                Err(err) => {
                    return Err(err);
                },
            }
            self.discard();
            if c == 0x5B {
                Ok(Some(Token::Array))
            } else {
                Ok(Some(Token::Object))
            }
        } else {
            Ok(None)
        }
    }

    /// Reads the start of an enum after optional whitespace: `true` when it
    /// is an object holding the variant and its data, whose `{` is read
    /// and one more level of nesting entered; `false` when it is the name
    /// of a unit variant, whose opening quote is left to be read.
    pub fn begin_enum(&mut self) -> (res: Result<bool, Error>)
        requires
            old(self).wf(),
            old(self).depth() > 0,
        ensures
            final(self).wf(),
            final(self).text() == old(self).text(),
            final(self).buffered() == old(self).buffered(),
            ({
                let s = old(self).text();
                let j = skip_ws(s, old(self).offset());
                let d = old(self).depth();
                if j >= s.len() {
                    res == Err::<bool, Error>(error_at(s, s.len() as int, ErrorCode::EofWhileParsingValue))
                } else if s[j] == 0x7B {
                    if d == 1 {
                        res == Err::<bool, Error>(error_at(s, peek_at(s, j), ErrorCode::RecursionLimitExceeded))
                    } else {
                        res == Ok::<bool, Error>(true) && final(self).offset() == j + 1
                            && final(self).depth() == d - 1
                    }
                } else if s[j] == QUOTE {
                    res == Ok::<bool, Error>(false) && final(self).offset() == j && final(self).depth() == d
                } else {
                    res == Err::<bool, Error>(error_at(s, peek_at(s, j), ErrorCode::ExpectedSomeValue))
                }
            }),
    {
        let c = match self.expect_parse_whitespace() {
            Ok(c) => c,
            Err(err) => {
                return Err(err);
            },
        };
        if c == 0x7B {
            match self.enter_nested() {
                Ok(()) => {},
                Err(err) => {
                    return Err(err);
                },
            }
            self.discard();
            Ok(true)
        } else if c == QUOTE {
            Ok(false)
        } else {
            Err(self.peek_error(ErrorCode::ExpectedSomeValue))
        }
    }

    /// Reads the `[:` of an id map after optional whitespace: `false` when
    /// the value is something else, which the caller reports as a value of
    /// the wrong type from where the reader then stands.
    pub fn begin_id_map(&mut self) -> (res: Result<bool, Error>)
        requires
            old(self).wf(),
        ensures
            match id_map_start(old(self).text(), old(self).offset()) {
                Scan::Done(b, e) => res == Ok::<bool, Error>(b) && final(self).offset() == e,
                Scan::Fail(c, a) => res == Err::<bool, Error>(error_at(old(self).text(), a, c)),
            },
            final(self).same_input(old(self)),
            final(self).buffered() == old(self).buffered(),
            ({
                let s = old(self).text();
                let j = skip_ws(s, old(self).offset());
                if j >= s.len() {
                    res == Err::<bool, Error>(error_at(s, s.len() as int, ErrorCode::EofWhileParsingValue))
                } else if s[j] == 0x5B {
                    if j + 1 >= s.len() {
                        res == Err::<bool, Error>(error_at(s, s.len() as int, ErrorCode::EofWhileParsingValue))
                    } else if s[j + 1] == 0x3A {
                        res == Ok::<bool, Error>(true) && final(self).offset() == j + 2
                    } else {
                        res == Ok::<bool, Error>(false) && final(self).offset() == j + 1
                    }
                } else {
                    res == Ok::<bool, Error>(false) && final(self).offset() == j
                }
            }),
    {
        let c = match self.expect_parse_whitespace() {
            Ok(c) => c,
            Err(err) => {
                return Err(err);
            },
        };
        if c != 0x5B {
            return Ok(false);
        }
        self.discard();
        let d = match self.expect_peek() {
            Ok(d) => d,
            Err(err) => {
                return Err(err);
            },
        };
        if d == 0x3A {
            self.discard();
            Ok(true)
        } else {
            Ok(false)
        }
    }

    /// Reads the value that starts at the next byte, to say in an error
    /// what kind of value was found where another was expected: a whole
    /// `null`, boolean, number or string, or the first byte of an array or
    /// object.  A value that cannot be read gives its own error instead.
    pub fn peek_unexpected(&mut self) -> (res: Result<Unexpected, Error>)
        requires
            old(self).wf(),
        ensures
            final(self).wf(),
            final(self).text() == old(self).text(),
            ({
                let s = old(self).text();
                let j = old(self).offset();
                if j >= s.len() {
                    res == Err::<Unexpected, Error>(error_at(s, s.len() as int, ErrorCode::EofWhileParsingValue))
                } else if s[j] == 0x6E || s[j] == 0x74 || s[j] == 0x66 {
                    let rest = if s[j] == 0x6E {
                        seq![0x75u8, 0x6Cu8, 0x6Cu8]
                    } else if s[j] == 0x74 {
                        seq![0x72u8, 0x75u8, 0x65u8]
                    } else {
                        seq![0x61u8, 0x6Cu8, 0x73u8, 0x65u8]
                    };
                    match scan_ident(s, j + 1, rest) {
                        Scan::Done(_, e) => final(self).offset() == e && if s[j] == 0x6E {
                            res matches Ok(Unexpected::Unit)
                        } else {
                            res matches Ok(Unexpected::Bool(b)) && b == (s[j] == 0x74)
                        },
                        Scan::Fail(c, a) => res == Err::<Unexpected, Error>(error_at(s, a, c)),
                    }
                } else if s[j] == 0x2D || digit_at(s, j) {
                    match scan_integer(s, if s[j] == 0x2D { j + 1 } else { j }, s[j] != 0x2D) {
                        Scan::Done(n, e) => res == Ok::<Unexpected, Error>(Unexpected::Number(n))
                            && final(self).offset() == e,
                        Scan::Fail(c, a) => res == Err::<Unexpected, Error>(error_at(s, a, c)),
                    }
                } else if s[j] == QUOTE {
                    match scan_str(s, j + 1, true) {
                        Scan::Done(b, e) => final(self).offset() == e && if valid_utf8(b) {
                            res matches Ok(Unexpected::Str(t)) && vstd::utf8::encode_utf8(t@) == b
                        } else {
                            res == Err::<Unexpected, Error>(error_at(s, e, ErrorCode::InvalidUnicodeCodePoint))
                        },
                        Scan::Fail(c, a) => res == Err::<Unexpected, Error>(error_at(s, a, c)),
                    }
                } else if s[j] == 0x5B {
                    res matches Ok(Unexpected::Sequence) && final(self).offset() == j
                } else if s[j] == 0x7B {
                    res matches Ok(Unexpected::Mapping) && final(self).offset() == j
                } else {
                    res == Err::<Unexpected, Error>(error_at(s, peek_at(s, j), ErrorCode::ExpectedSomeValue))
                }
            }),
    {
        let c = match self.expect_peek() {
            Ok(c) => c,
            Err(err) => {
                return Err(err);
            },
        };
        if c == 0x6E {
            self.discard();
            match self.parse_ident(&[0x75u8, 0x6Cu8, 0x6Cu8]) {
                Ok(()) => Ok(Unexpected::Unit),
                Err(err) => Err(err),
            }
        } else if c == 0x74 {
            self.discard();
            match self.parse_ident(&[0x72u8, 0x75u8, 0x65u8]) {
                Ok(()) => Ok(Unexpected::Bool(true)),
                Err(err) => Err(err),
            }
        } else if c == 0x66 {
            self.discard();
            match self.parse_ident(&[0x61u8, 0x6Cu8, 0x73u8, 0x65u8]) {
                Ok(()) => Ok(Unexpected::Bool(false)),
                Err(err) => Err(err),
            }
        } else if c == 0x2D {
            self.discard();
            match self.parse_any_number(false) {
                Ok(n) => Ok(Unexpected::Number(n)),
                Err(err) => Err(err),
            }
        } else if 0x30 <= c && c <= 0x39 {
            match self.parse_any_number(true) {
                Ok(n) => Ok(Unexpected::Number(n)),
                Err(err) => Err(err),
            }
        } else if c == QUOTE {
            self.discard();
            self.clear_scratch();
            proof {
                assert(Seq::<u8>::empty() + Seq::<u8>::empty() =~= Seq::<u8>::empty());
            }
            let ghost s0 = self.text();
            let ghost j0 = self.offset();
            let found = self.parse_str();
            match found {
                Ok(r) => {
                    let t = r.deref().to_owned();
                    proof {
                        match scan_str(s0, j0, true) {
                            Scan::Done(b, e) => {
                                assert(Seq::<u8>::empty() + b =~= b);
                            },
                            Scan::Fail(..) => {},
                        }
                    }
                    Ok(Unexpected::Str(t))
                },
                Err(err) => {
                    proof {
                        match scan_str(s0, j0, true) {
                            Scan::Done(b, e) => {
                                assert(Seq::<u8>::empty() + b =~= b);
                            },
                            Scan::Fail(..) => {},
                        }
                    }
                    Err(err)
                },
            }
        } else if c == 0x5B {
            Ok(Unexpected::Sequence)
        } else if c == 0x7B {
            Ok(Unexpected::Mapping)
        } else {
            Err(self.peek_error(ErrorCode::ExpectedSomeValue))
        }
    }

    /// Reads the start of a value of any kind: a whole `null`, boolean or
    /// number, or the opening of a string, array, id map or object.  For
    /// the last three one more level of nesting is entered; when none is
    /// left, the error leaves the last level used up.
    pub fn parse_any_token(&mut self) -> (res: Result<Token, Error>)
        requires
            old(self).wf(),
            old(self).depth() > 0,
        ensures
            match any_token(old(self).text(), old(self).offset(), old(self).depth()) {
                Scan::Done(t, e) => res == Ok::<Token, Error>(t) && final(self).offset() == e,
                Scan::Fail(c, a) => res == Err::<Token, Error>(error_at(old(self).text(), a, c)),
            },
            final(self).wf(),
            final(self).text() == old(self).text(),
            ({
                let s = old(self).text();
                let j = skip_ws(s, old(self).offset());
                let d = old(self).depth();
                if j >= s.len() {
                    res == Err::<Token, Error>(error_at(s, s.len() as int, ErrorCode::EofWhileParsingValue))
                        && final(self).depth() == d
                } else if s[j] == 0x6E || s[j] == 0x74 || s[j] == 0x66 {
                    let rest = if s[j] == 0x6E {
                        seq![0x75u8, 0x6Cu8, 0x6Cu8]
                    } else if s[j] == 0x74 {
                        seq![0x72u8, 0x75u8, 0x65u8]
                    } else {
                        seq![0x61u8, 0x6Cu8, 0x73u8, 0x65u8]
                    };
                    let tok = if s[j] == 0x6E {
                        Token::Null
                    } else {
                        Token::Bool(s[j] == 0x74)
                    };
                    match scan_ident(s, j + 1, rest) {
                        Scan::Done(_, e) => res == Ok::<Token, Error>(tok) && final(self).offset() == e
                            && final(self).depth() == d,
                        Scan::Fail(c, a) => res == Err::<Token, Error>(error_at(s, a, c)) && final(self).depth() == d,
                    }
                } else if s[j] == 0x2D || digit_at(s, j) {
                    match scan_integer(s, if s[j] == 0x2D { j + 1 } else { j }, s[j] != 0x2D) {
                        Scan::Done(n, e) => res == Ok::<Token, Error>(Token::Number(n))
                            && final(self).offset() == e && final(self).depth() == d,
                        Scan::Fail(c, a) => res == Err::<Token, Error>(error_at(s, a, c)) && final(self).depth() == d,
                    }
                } else if s[j] == QUOTE {
                    res == Ok::<Token, Error>(Token::Str) && final(self).offset() == j + 1
                        && final(self).depth() == d && final(self).buffered() == Seq::<u8>::empty()
                } else if s[j] == 0x5B {
                    if j + 1 >= s.len() {
                        res == Err::<Token, Error>(error_at(s, s.len() as int, ErrorCode::EofWhileParsingValue))
                            && final(self).depth() == d
                    } else if d == 1 {
                        res == Err::<Token, Error>(error_at(s, peek_at(s, j + 1), ErrorCode::RecursionLimitExceeded))
                            && final(self).depth() == 0
                    } else if s[j + 1] == 0x3A {
                        res == Ok::<Token, Error>(Token::IdMap) && final(self).offset() == j + 2
                            && final(self).depth() == d - 1
                    } else {
                        res == Ok::<Token, Error>(Token::Array) && final(self).offset() == j + 1
                            && final(self).depth() == d - 1
                    }
                } else if s[j] == 0x7B {
                    if d == 1 {
                        res == Err::<Token, Error>(error_at(s, peek_at(s, j), ErrorCode::RecursionLimitExceeded))
                            && final(self).depth() == 0
                    } else {
                        res == Ok::<Token, Error>(Token::Object) && final(self).offset() == j + 1
                            && final(self).depth() == d - 1
                    }
                } else {
                    res == Err::<Token, Error>(error_at(s, peek_at(s, j), ErrorCode::ExpectedSomeValue))
                        && final(self).depth() == d
                }
            }),
    {
        let c = match self.expect_parse_whitespace() {
            Ok(c) => c,
            Err(err) => {
                return Err(err);
            },
        };
        if c == 0x6E {
            self.discard();
            match self.parse_ident(&[0x75u8, 0x6Cu8, 0x6Cu8]) {
                Ok(()) => Ok(Token::Null),
                Err(err) => Err(err),
            }
        } else if c == 0x74 {
            self.discard();
            match self.parse_ident(&[0x72u8, 0x75u8, 0x65u8]) {
                Ok(()) => Ok(Token::Bool(true)),
                Err(err) => Err(err),
            }
        } else if c == 0x66 {
            self.discard();
            match self.parse_ident(&[0x61u8, 0x6Cu8, 0x73u8, 0x65u8]) {
                Ok(()) => Ok(Token::Bool(false)),
                Err(err) => Err(err),
            }
        } else if c == 0x2D {
            self.discard();
            match self.parse_any_number(false) {
                Ok(n) => Ok(Token::Number(n)),
                Err(err) => Err(err),
            }
        } else if 0x30 <= c && c <= 0x39 {
            match self.parse_any_number(true) {
                Ok(n) => Ok(Token::Number(n)),
                Err(err) => Err(err),
            }
        } else if c == QUOTE {
            self.discard();
            self.clear_scratch();
            Ok(Token::Str)
        } else if c == 0x5B {
            self.discard();
            let d = match self.expect_peek() {
                Ok(d) => d,
                Err(err) => {
                    return Err(err);
                },
            };
            match self.enter_nested() {
                Ok(()) => {},
                Err(err) => {
                    return Err(err);
                },
            }
            if d == 0x3A {
                self.discard();
                Ok(Token::IdMap)
            } else {
                Ok(Token::Array)
            }
        } else if c == 0x7B {
            match self.enter_nested() {
                Ok(()) => {},
                Err(err) => {
                    return Err(err);
                },
            }
            self.discard();
            Ok(Token::Object)
        } else {
            Err(self.peek_error(ErrorCode::ExpectedSomeValue))
        }
    }
}

} // verus!
