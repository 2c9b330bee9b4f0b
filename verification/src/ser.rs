//! Writing nuan5json: the formatters that lay a value out as bytes, and the
//! serializer that the value visitors drive.
use vstd::prelude::*;
use vstd::string::StringSliceAdditionalSpecFns;
use vstd::utf8::{is_char_boundary, valid_utf8};
use crate::text::{BACKSLASH, DIGIT_0, LOWER_A, NEWLINE, QUOTE, lemma_wtf8_scalar, push_wtf8_codepoint, str_from_utf8};

verus! {

/// Represents a character escape code in a type-safe manner.
#[derive(Debug, Clone, Copy, PartialEq, Eq, Structural)]
pub enum CharEscape {
    /// An escaped quote `"`
    Quote,
    /// An escaped reverse solidus `\`
    ReverseSolidus,
    /// An escaped solidus `/`
    Solidus,
    /// An escaped backspace character (usually escaped as `\b`)
    Backspace,
    /// An escaped form feed character (usually escaped as `\f`)
    FormFeed,
    /// An escaped line feed character (usually escaped as `\n`)
    LineFeed,
    /// An escaped carriage return character (usually escaped as `\r`)
    CarriageReturn,
    /// An escaped tab character (usually escaped as `\t`)
    Tab,
    /// An escaped ASCII plane control character (usually escaped as
    /// `\u00XX` where `XX` are two hex characters)
    AsciiControl(u8),
}

/// One thing a formatter is asked to write while a value is laid out.
pub enum Event {
    Null,
    Bool(bool),
    Integer(int),
    NumberStr(Seq<u8>),
    BeginString,
    EndString,
    Fragment(Seq<u8>),
    Escape(CharEscape),
    Raw(Seq<u8>),
    BeginArray,
    EndArray,
    BeginArrayValue(bool),
    EndArrayValue,
    BeginObject,
    EndObject,
    BeginObjectKey(bool),
    EndObjectKey,
    BeginObjectValue,
    EndObjectValue,
    BeginIdMap,
    EndIdMap,
    BeginIdMapKey(bool),
    EndIdMapKey,
    BeginIdMapValue,
    EndIdMapValue,
}

/// The ASCII bytes of a word.
pub open spec fn ascii(s: Seq<char>) -> Seq<u8> {
    s.map_values(|c: char| c as u8)
}

/// The decimal digits of `n`, most significant first, without leading zeros.
pub open spec fn digits_of(n: nat) -> Seq<u8>
    decreases n,
{
    if n < 10 {
        seq![(DIGIT_0 + n) as u8]
    } else {
        digits_of(n / 10).push((DIGIT_0 + n % 10) as u8)
    }
}

/// The decimal representation of `n`, with a leading `-` when negative.
pub open spec fn decimal(n: int) -> Seq<u8> {
    if n < 0 {
        seq![0x2Du8] + digits_of((-n) as nat)
    } else {
        digits_of(n as nat)
    }
}

/// The lowercase hex digit of `n`.
pub open spec fn hex_digit(n: u8) -> u8 {
    if n < 10 {
        (DIGIT_0 + n) as u8
    } else {
        (LOWER_A + n - 10) as u8
    }
}

/// The bytes that stand for an escape: a backslash and a letter, or
/// `\u00` and two lowercase hex digits.
pub open spec fn escape_bytes(e: CharEscape) -> Seq<u8> {
    match e {
        CharEscape::Quote => seq![BACKSLASH, QUOTE],
        CharEscape::ReverseSolidus => seq![BACKSLASH, BACKSLASH],
        CharEscape::Solidus => seq![BACKSLASH, 0x2Fu8],
        CharEscape::Backspace => seq![BACKSLASH, 0x62u8],
        CharEscape::FormFeed => seq![BACKSLASH, 0x66u8],
        CharEscape::LineFeed => seq![BACKSLASH, 0x6Eu8],
        CharEscape::CarriageReturn => seq![BACKSLASH, 0x72u8],
        CharEscape::Tab => seq![BACKSLASH, 0x74u8],
        CharEscape::AsciiControl(b) => seq![
            BACKSLASH,
            0x75u8,
            DIGIT_0,
            DIGIT_0,
            hex_digit(b / 16),
            hex_digit(b % 16),
        ],
    }
}

/// Whether an event writes part of a value (a scalar or a piece of a
/// string) rather than the layout around values.  Every formatter writes
/// these the same way and keeps its state.
pub open spec fn is_value_event(ev: Event) -> bool {
    match ev {
        Event::Null | Event::Bool(_) | Event::Integer(_) | Event::NumberStr(_) | Event::BeginString
        | Event::EndString | Event::Fragment(_) | Event::Escape(_) | Event::Raw(_) => true,
        _ => false,
    }
}

/// The bytes written for a value event.
pub open spec fn value_bytes(ev: Event) -> Seq<u8> {
    match ev {
        Event::Null => ascii(seq!['n', 'u', 'l', 'l']),
        Event::Bool(b) => if b {
            ascii(seq!['t', 'r', 'u', 'e'])
        } else {
            ascii(seq!['f', 'a', 'l', 's', 'e'])
        },
        Event::Integer(n) => decimal(n),
        Event::NumberStr(s) => s,
        Event::BeginString => seq![QUOTE],
        Event::EndString => seq![QUOTE],
        Event::Fragment(s) => s,
        Event::Escape(e) => escape_bytes(e),
        Event::Raw(s) => s,
        _ => Seq::empty(),
    }
}

/// Calls `itoa::Buffer::format` on an `i128`.  Taken on trust from its
/// documentation: it prints the integer in decimal, with a `-` when it is
/// negative and no leading zeros.
#[verifier::external_body]
fn format_signed(value: i128) -> (res: Vec<u8>)
    ensures
        res@ == decimal(value as int),
{
    let mut buffer = itoa::Buffer::new();
    buffer.format(value).as_bytes().to_vec()
}

/// Calls `itoa::Buffer::format` on a `u128`.  Taken on trust from its
/// documentation: it prints the integer in decimal, without leading zeros.
#[verifier::external_body]
fn format_unsigned(value: u128) -> (res: Vec<u8>)
    ensures
        res@ == decimal(value as int),
{
    let mut buffer = itoa::Buffer::new();
    buffer.format(value).as_bytes().to_vec()
}

/// Appends `bytes` to `output`.
fn push_all(output: &mut Vec<u8>, bytes: &[u8])
    ensures
        final(output)@ == old(output)@ + bytes@,
{
    let ghost start = output@;
    let mut k: usize = 0;
    while k < bytes.len()
        invariant
            k <= bytes@.len(),
            output@ == start + bytes@.take(k as int),
        decreases bytes@.len() - k,
    {
        output.push(bytes[k]);
        k += 1;
        assert(output@ =~= start + bytes@.take(k as int));
    }
    assert(bytes@.take(k as int) =~= bytes@);
}

/// What laying out `ev` does to a formatter in state `f`: its next state
/// and the bytes written, or `None` when `f` cannot take `ev`.
pub open spec fn step<F: Formatter>(f: F, ev: Event) -> Option<(F, Seq<u8>)> {
    if is_value_event(ev) {
        Some((f, value_bytes(ev)))
    } else if f.accepts(ev) {
        Some((f.after(ev), f.emits(ev)))
    } else {
        None
    }
}

/// What laying out the events `evs` in turn does to a formatter in state
/// `f`: its final state and all the bytes written, or `None` when some
/// event is not accepted.
pub open spec fn run<F: Formatter>(f: F, evs: Seq<Event>) -> Option<(F, Seq<u8>)>
    decreases evs.len(),
{
    if evs.len() == 0 {
        Some((f, Seq::empty()))
    } else {
        match step(f, evs[0]) {
            Some((g, o)) => match run(g, evs.drop_first()) {
                Some((h, o2)) => Some((h, o + o2)),
                None => None,
            },
            None => None,
        }
    }
}

/// Running two event sequences one after the other.
pub open spec fn then<F>(first: Option<(F, Seq<u8>)>, rest: spec_fn(F) -> Option<(F, Seq<u8>)>) -> Option<(F, Seq<u8>)> {
    match first {
        Some((g, o)) => match rest(g) {
            Some((h, o2)) => Some((h, o + o2)),
            None => None,
        },
        None => None,
    }
}

/// Laying out `a + b` is laying out `a`, then `b` from where `a` left off.
pub proof fn lemma_run_concat<F: Formatter>(f: F, a: Seq<Event>, b: Seq<Event>)
    ensures
        run(f, a + b) == then(run(f, a), |g: F| run(g, b)),
    decreases a.len(),
{
    if a.len() == 0 {
        assert(a + b =~= b);
        match run(f, b) {
            Some((h, o)) => assert(Seq::<u8>::empty() + o =~= o),
            None => {},
        }
    } else {
        assert((a + b).drop_first() =~= a.drop_first() + b);
        assert((a + b)[0] == a[0]);
        match step(f, a[0]) {
            Some((g, o)) => {
                lemma_run_concat(g, a.drop_first(), b);
                match run(g, a.drop_first()) {
                    Some((h, o2)) => match run(h, b) {
                        Some((k, o3)) => assert(o + (o2 + o3) =~= (o + o2) + o3),
                        None => {},
                    },
                    None => {},
                }
            },
            None => {},
        }
    }
}

/// Laying out one event is one step.
pub proof fn lemma_run_one<F: Formatter>(f: F, ev: Event)
    ensures
        run(f, seq![ev]) == step(f, ev),
{
    reveal_with_fuel(run, 2);
    assert(seq![ev].drop_first() =~= Seq::<Event>::empty());
    match step(f, ev) {
        Some((g, o)) => assert(o + Seq::<u8>::empty() =~= o),
        None => {},
    }
}

/// The events of a byte array's elements, each a small integer.
pub open spec fn byte_elements(v: Seq<u8>, first: bool) -> Seq<Event>
    decreases v.len(),
{
    if v.len() == 0 {
        Seq::empty()
    } else {
        seq![Event::BeginArrayValue(first), Event::Integer(v[0] as int), Event::EndArrayValue]
            + byte_elements(v.drop_first(), false)
    }
}

/// The events of a byte array written as an array of integers.
pub open spec fn byte_array_events(v: Seq<u8>) -> Seq<Event> {
    seq![Event::BeginArray] + byte_elements(v, true) + seq![Event::EndArray]
}

/// Whether laying out `evs` from formatter `f0` over output `out0` leads to
/// formatter `f1` and output `out1`.
pub open spec fn lays_out<F: Formatter>(f0: F, out0: Seq<u8>, evs: Seq<Event>, f1: F, out1: Seq<u8>) -> bool {
    run(f0, evs) matches Some((g, o)) && f1 == g && out1 == out0 + o
}

/// This trait abstracts away serializing the nuan5json control characters,
/// which allows the user to optionally pretty print the nuan5json output.
///
/// Values (`null`, booleans, numbers, string pieces) are written the same
/// way by every formatter; the layout around them (brackets, separators,
/// whitespace) is the formatter's own, as stated by `accepts`, `emits` and
/// `after`.
pub trait Formatter: Sized {
    /// Whether the formatter, in its present state, can lay out `ev`.
    spec fn accepts(&self, ev: Event) -> bool;

    /// The bytes written for the layout event `ev`.
    spec fn emits(&self, ev: Event) -> Seq<u8>;

    /// The formatter's state after the layout event `ev`.
    spec fn after(&self, ev: Event) -> Self;

    /// Writes a `null` value.
    fn write_null(&mut self, output: &mut Vec<u8>)
        ensures
            final(output)@ == old(output)@ + value_bytes(Event::Null),
            *final(self) == *old(self),
    {
        output.push(0x6E);
        output.push(0x75);
        output.push(0x6C);
        output.push(0x6C);
        assert(output@ =~= old(output)@ + value_bytes(Event::Null));
    }

    /// Writes a `true` or `false` value.
    fn write_bool(&mut self, output: &mut Vec<u8>, value: bool)
        ensures
            final(output)@ == old(output)@ + value_bytes(Event::Bool(value)),
            *final(self) == *old(self),
    {
        if value {
            output.push(0x74);
            output.push(0x72);
            output.push(0x75);
            output.push(0x65);
        } else {
            output.push(0x66);
            output.push(0x61);
            output.push(0x6C);
            output.push(0x73);
            output.push(0x65);
        }
        assert(output@ =~= old(output)@ + value_bytes(Event::Bool(value)));
    }

    /// Writes an integer value like `-123`.
    fn write_i8(&mut self, output: &mut Vec<u8>, value: i8)
        ensures
            final(output)@ == old(output)@ + value_bytes(Event::Integer(value as int)),
            *final(self) == *old(self),
    {
        let digits = format_signed(value as i128);
        push_all(output, digits.as_slice());
    }

    /// Writes an integer value like `-123`.
    fn write_i16(&mut self, output: &mut Vec<u8>, value: i16)
        ensures
            final(output)@ == old(output)@ + value_bytes(Event::Integer(value as int)),
            *final(self) == *old(self),
    {
        let digits = format_signed(value as i128);
        push_all(output, digits.as_slice());
    }

    /// Writes an integer value like `-123`.
    fn write_i32(&mut self, output: &mut Vec<u8>, value: i32)
        ensures
            final(output)@ == old(output)@ + value_bytes(Event::Integer(value as int)),
            *final(self) == *old(self),
    {
        let digits = format_signed(value as i128);
        push_all(output, digits.as_slice());
    }

    /// Writes an integer value like `-123`.
    fn write_i64(&mut self, output: &mut Vec<u8>, value: i64)
        ensures
            final(output)@ == old(output)@ + value_bytes(Event::Integer(value as int)),
            *final(self) == *old(self),
    {
        let digits = format_signed(value as i128);
        push_all(output, digits.as_slice());
    }

    /// Writes an integer value like `-123`.
    fn write_i128(&mut self, output: &mut Vec<u8>, value: i128)
        ensures
            final(output)@ == old(output)@ + value_bytes(Event::Integer(value as int)),
            *final(self) == *old(self),
    {
        let digits = format_signed(value);
        push_all(output, digits.as_slice());
    }

    /// Writes an integer value like `123`.
    fn write_u8(&mut self, output: &mut Vec<u8>, value: u8)
        ensures
            final(output)@ == old(output)@ + value_bytes(Event::Integer(value as int)),
            *final(self) == *old(self),
    {
        let digits = format_unsigned(value as u128);
        push_all(output, digits.as_slice());
    }

    /// Writes an integer value like `123`.
    fn write_u16(&mut self, output: &mut Vec<u8>, value: u16)
        ensures
            final(output)@ == old(output)@ + value_bytes(Event::Integer(value as int)),
            *final(self) == *old(self),
    {
        let digits = format_unsigned(value as u128);
        push_all(output, digits.as_slice());
    }

    /// Writes an integer value like `123`.
    fn write_u32(&mut self, output: &mut Vec<u8>, value: u32)
        ensures
            final(output)@ == old(output)@ + value_bytes(Event::Integer(value as int)),
            *final(self) == *old(self),
    {
        let digits = format_unsigned(value as u128);
        push_all(output, digits.as_slice());
    }

    /// Writes an integer value like `123`.
    fn write_u64(&mut self, output: &mut Vec<u8>, value: u64)
        ensures
            final(output)@ == old(output)@ + value_bytes(Event::Integer(value as int)),
            *final(self) == *old(self),
    {
        let digits = format_unsigned(value as u128);
        push_all(output, digits.as_slice());
    }

    /// Writes an integer value like `123`.
    fn write_u128(&mut self, output: &mut Vec<u8>, value: u128)
        ensures
            final(output)@ == old(output)@ + value_bytes(Event::Integer(value as int)),
            *final(self) == *old(self),
    {
        let digits = format_unsigned(value);
        push_all(output, digits.as_slice());
    }

    /// Writes a number that has already been rendered to a string.
    fn write_number_str(&mut self, output: &mut Vec<u8>, value: &str)
        ensures
            final(output)@ == old(output)@ + value_bytes(Event::NumberStr(value.spec_bytes())),
            *final(self) == *old(self),
    {
        push_all(output, value.as_bytes());
    }

    /// Called before each series of `write_string_fragment` and
    /// `write_char_escape`.  Writes a `"`.
    fn begin_string(&mut self, output: &mut Vec<u8>)
        ensures
            final(output)@ == old(output)@ + value_bytes(Event::BeginString),
            *final(self) == *old(self),
    {
        output.push(QUOTE);
        assert(output@ =~= old(output)@ + value_bytes(Event::BeginString));
    }

    /// Called after each series of `write_string_fragment` and
    /// `write_char_escape`.  Writes a `"`.
    fn end_string(&mut self, output: &mut Vec<u8>)
        ensures
            final(output)@ == old(output)@ + value_bytes(Event::EndString),
            *final(self) == *old(self),
    {
        output.push(QUOTE);
        assert(output@ =~= old(output)@ + value_bytes(Event::EndString));
    }

    /// Writes a string fragment that doesn't need any escaping.
    fn write_string_fragment(&mut self, output: &mut Vec<u8>, fragment: &str)
        ensures
            final(output)@ == old(output)@ + value_bytes(Event::Fragment(fragment.spec_bytes())),
            *final(self) == *old(self),
    {
        push_all(output, fragment.as_bytes());
    }

    /// Writes a character escape code.
    fn write_char_escape(&mut self, output: &mut Vec<u8>, char_escape: CharEscape)
        ensures
            final(output)@ == old(output)@ + value_bytes(Event::Escape(char_escape)),
            *final(self) == *old(self),
    {
        let escape_char: u8 = match char_escape {
            CharEscape::Quote => QUOTE,
            CharEscape::ReverseSolidus => BACKSLASH,
            CharEscape::Solidus => 0x2F,
            CharEscape::Backspace => 0x62,
            CharEscape::FormFeed => 0x66,
            CharEscape::LineFeed => 0x6E,
            CharEscape::CarriageReturn => 0x72,
            CharEscape::Tab => 0x74,
            CharEscape::AsciiControl(_) => 0x75,
        };
        output.push(BACKSLASH);
        output.push(escape_char);
        match char_escape {
            CharEscape::AsciiControl(byte) => {
                assert(byte >> 4 == byte / 16 && byte & 0xF == byte % 16 && byte >> 4 < 16 && byte
                    & 0xF < 16) by (bit_vector);
                output.push(DIGIT_0);
                output.push(DIGIT_0);
                output.push(lower_hex_digit(byte >> 4));
                output.push(lower_hex_digit(byte & 0xF));
            },
            _ => {},
        }
        assert(output@ =~= old(output)@ + value_bytes(Event::Escape(char_escape)));
    }

    /// Called before every array.  Writes a `[`.
    fn begin_array(&mut self, output: &mut Vec<u8>)
        requires
            old(self).accepts(Event::BeginArray),
        ensures
            final(output)@ == old(output)@ + old(self).emits(Event::BeginArray),
            *final(self) == old(self).after(Event::BeginArray),
    ;

    /// Called after every array.  Writes a `]`.
    fn end_array(&mut self, output: &mut Vec<u8>)
        requires
            old(self).accepts(Event::EndArray),
        ensures
            final(output)@ == old(output)@ + old(self).emits(Event::EndArray),
            *final(self) == old(self).after(Event::EndArray),
    ;

    /// Called before every array value.  Writes a `,` if needed.
    fn begin_array_value(&mut self, output: &mut Vec<u8>, first: bool)
        requires
            old(self).accepts(Event::BeginArrayValue(first)),
        ensures
            final(output)@ == old(output)@ + old(self).emits(Event::BeginArrayValue(first)),
            *final(self) == old(self).after(Event::BeginArrayValue(first)),
    ;

    /// Called after every array value.
    fn end_array_value(&mut self, output: &mut Vec<u8>)
        requires
            old(self).accepts(Event::EndArrayValue),
        ensures
            final(output)@ == old(output)@ + old(self).emits(Event::EndArrayValue),
            *final(self) == old(self).after(Event::EndArrayValue),
    ;

    /// Called before every object.  Writes a `{`.
    fn begin_object(&mut self, output: &mut Vec<u8>)
        requires
            old(self).accepts(Event::BeginObject),
        ensures
            final(output)@ == old(output)@ + old(self).emits(Event::BeginObject),
            *final(self) == old(self).after(Event::BeginObject),
    ;

    /// Called after every object.  Writes a `}`.
    fn end_object(&mut self, output: &mut Vec<u8>)
        requires
            old(self).accepts(Event::EndObject),
        ensures
            final(output)@ == old(output)@ + old(self).emits(Event::EndObject),
            *final(self) == old(self).after(Event::EndObject),
    ;

    /// Called before every object key.
    fn begin_object_key(&mut self, output: &mut Vec<u8>, first: bool)
        requires
            old(self).accepts(Event::BeginObjectKey(first)),
        ensures
            final(output)@ == old(output)@ + old(self).emits(Event::BeginObjectKey(first)),
            *final(self) == old(self).after(Event::BeginObjectKey(first)),
    ;

    /// Called after every object key.  A `:` should be written by either
    /// this method or `begin_object_value`.
    fn end_object_key(&mut self, output: &mut Vec<u8>)
        requires
            old(self).accepts(Event::EndObjectKey),
        ensures
            final(output)@ == old(output)@ + old(self).emits(Event::EndObjectKey),
            *final(self) == old(self).after(Event::EndObjectKey),
    ;

    /// Called before every object value.  A `:` should be written by either
    /// this method or `end_object_key`.
    fn begin_object_value(&mut self, output: &mut Vec<u8>)
        requires
            old(self).accepts(Event::BeginObjectValue),
        ensures
            final(output)@ == old(output)@ + old(self).emits(Event::BeginObjectValue),
            *final(self) == old(self).after(Event::BeginObjectValue),
    ;

    /// Called after every object value.
    fn end_object_value(&mut self, output: &mut Vec<u8>)
        requires
            old(self).accepts(Event::EndObjectValue),
        ensures
            final(output)@ == old(output)@ + old(self).emits(Event::EndObjectValue),
            *final(self) == old(self).after(Event::EndObjectValue),
    ;

    /// Called before every id map.  Writes a `[:`.
    fn begin_id_map(&mut self, output: &mut Vec<u8>)
        requires
            old(self).accepts(Event::BeginIdMap),
        ensures
            final(output)@ == old(output)@ + old(self).emits(Event::BeginIdMap),
            *final(self) == old(self).after(Event::BeginIdMap),
    ;

    /// Called after every id map.  Writes a `]`.
    fn end_id_map(&mut self, output: &mut Vec<u8>)
        requires
            old(self).accepts(Event::EndIdMap),
        ensures
            final(output)@ == old(output)@ + old(self).emits(Event::EndIdMap),
            *final(self) == old(self).after(Event::EndIdMap),
    ;

    /// Called before every id map key.
    fn begin_id_map_key(&mut self, output: &mut Vec<u8>, first: bool)
        requires
            old(self).accepts(Event::BeginIdMapKey(first)),
        ensures
            final(output)@ == old(output)@ + old(self).emits(Event::BeginIdMapKey(first)),
            *final(self) == old(self).after(Event::BeginIdMapKey(first)),
    ;

    /// Called after every id map key.  A `:` should be written by either
    /// this method or `begin_id_map_value`.
    fn end_id_map_key(&mut self, output: &mut Vec<u8>)
        requires
            old(self).accepts(Event::EndIdMapKey),
        ensures
            final(output)@ == old(output)@ + old(self).emits(Event::EndIdMapKey),
            *final(self) == old(self).after(Event::EndIdMapKey),
    ;

    /// Called before every id map value.  A `:` should be written by either
    /// this method or `end_id_map_key`.
    fn begin_id_map_value(&mut self, output: &mut Vec<u8>)
        requires
            old(self).accepts(Event::BeginIdMapValue),
        ensures
            final(output)@ == old(output)@ + old(self).emits(Event::BeginIdMapValue),
            *final(self) == old(self).after(Event::BeginIdMapValue),
    ;

    /// Called after every id map value.
    fn end_id_map_value(&mut self, output: &mut Vec<u8>)
        requires
            old(self).accepts(Event::EndIdMapValue),
        ensures
            final(output)@ == old(output)@ + old(self).emits(Event::EndIdMapValue),
            *final(self) == old(self).after(Event::EndIdMapValue),
    ;

    /// Writes a raw nuan5json fragment that doesn't need any escaping.
    fn write_raw_fragment(&mut self, output: &mut Vec<u8>, fragment: &str)
        ensures
            final(output)@ == old(output)@ + value_bytes(Event::Raw(fragment.spec_bytes())),
            *final(self) == *old(self),
    {
        push_all(output, fragment.as_bytes());
    }
}

/// The lowercase hex digit of `n`, below 16.
fn lower_hex_digit(n: u8) -> (res: u8)
    requires
        n < 16,
    ensures
        res == hex_digit(n),
{
    if n < 10 {
        DIGIT_0 + n
    } else {
        LOWER_A + n - 10
    }
}

/// Laying out one sequence of events after another.
pub proof fn lemma_lays_out_then<F: Formatter>(
    f0: F,
    out0: Seq<u8>,
    a: Seq<Event>,
    f1: F,
    out1: Seq<u8>,
    b: Seq<Event>,
    f2: F,
    out2: Seq<u8>,
)
    requires
        lays_out(f0, out0, a, f1, out1),
        lays_out(f1, out1, b, f2, out2),
    ensures
        lays_out(f0, out0, a + b, f2, out2),
{
    lemma_run_concat(f0, a, b);
    let o1 = run(f0, a).unwrap().1;
    let o2 = run(f1, b).unwrap().1;
    assert(out2 =~= out0 + (o1 + o2));
}

/// When a sequence of events can be laid out, so can its first part, and
/// the rest from where the first part leaves off.
pub proof fn lemma_run_split<F: Formatter>(f: F, a: Seq<Event>, b: Seq<Event>)
    requires
        run(f, a + b) is Some,
    ensures
        run(f, a) is Some,
        run(run(f, a).unwrap().0, b) is Some,
{
    lemma_run_concat(f, a, b);
}

/// Writes one byte as an element of an array.
fn write_byte_element<F: Formatter>(formatter: &mut F, output: &mut Vec<u8>, first: bool, byte: u8)
    requires
        run(*old(formatter), seq![Event::BeginArrayValue(first), Event::Integer(byte as int), Event::EndArrayValue]) is Some,
    ensures
        lays_out(
            *old(formatter),
            old(output)@,
            seq![Event::BeginArrayValue(first), Event::Integer(byte as int), Event::EndArrayValue],
            *final(formatter),
            final(output)@,
        ),
{
    let ghost three = seq![Event::BeginArrayValue(first), Event::Integer(byte as int), Event::EndArrayValue];
    proof {
        reveal_with_fuel(run, 4);
        assert(three.drop_first().drop_first().drop_first() =~= Seq::<Event>::empty());
        assert(three.drop_first().drop_first() =~= seq![Event::EndArrayValue]);
        assert(three.drop_first() =~= seq![Event::Integer(byte as int), Event::EndArrayValue]);
    }
    let ghost fb = *formatter;
    let ghost ob = output@;
    formatter.begin_array_value(output, first);
    let ghost f1 = *formatter;
    formatter.write_u8(output, byte);
    formatter.end_array_value(output);
    proof {
        reveal_with_fuel(run, 4);
        let o3 = fb.emits(Event::BeginArrayValue(first)) + (value_bytes(Event::Integer(byte as int)) + (
        f1.emits(Event::EndArrayValue) + Seq::<u8>::empty()));
        assert(run(fb, three) == Some((*formatter, o3)));
        assert(output@ =~= ob + o3);
    }
}

/// Writes the representation of a byte array: a nuan5json array of
/// integers, laid out by the formatter.
pub fn write_byte_array<F: Formatter>(formatter: &mut F, output: &mut Vec<u8>, value: &[u8])
    requires
        run(*old(formatter), byte_array_events(value@)) is Some,
    ensures
        lays_out(*old(formatter), old(output)@, byte_array_events(value@), *final(formatter), final(output)@),
{
    let ghost f0 = *formatter;
    let ghost out0 = output@;
    let ghost all = byte_array_events(value@);
    proof {
        lemma_run_concat(f0, seq![Event::BeginArray], byte_elements(value@, true) + seq![Event::EndArray]);
        assert(all =~= seq![Event::BeginArray] + (byte_elements(value@, true) + seq![Event::EndArray]));
        lemma_run_one(f0, Event::BeginArray);
    }
    formatter.begin_array(output);
    let ghost mut done: Seq<Event> = seq![Event::BeginArray];
    let mut first = true;
    let mut k: usize = 0;
    assert(value@.skip(0) =~= value@);
    while k < value.len()
        invariant
            k <= value@.len(),
            first == (k == 0),
            all == byte_array_events(value@),
            run(f0, all) is Some,
            all =~= done + (byte_elements(value@.skip(k as int), first) + seq![Event::EndArray]),
            lays_out(f0, out0, done, *formatter, output@),
        decreases value@.len() - k,
    {
        let ghost rest = byte_elements(value@.skip(k as int), first) + seq![Event::EndArray];
        let ghost three = seq![Event::BeginArrayValue(first), Event::Integer(value@[k as int] as int), Event::EndArrayValue];
        let ghost later = byte_elements(value@.skip(k as int + 1), false) + seq![Event::EndArray];
        proof {
            assert(value@.skip(k as int).drop_first() =~= value@.skip(k as int + 1));
            assert(rest =~= three + later);
            assert(all =~= (done + three) + later);
            assert(all =~= done + (three + later));
            lemma_run_split(f0, done, three + later);
            lemma_run_split(*formatter, three, later);
        }
        let ghost fb = *formatter;
        let ghost ob = output@;
        write_byte_element(formatter, output, first, value[k]);
        proof {
            lemma_lays_out_then(f0, out0, done, fb, ob, three, *formatter, output@);
            done = done + three;
        }
        first = false;
        k += 1;
    }
    proof {
        assert(value@.skip(k as int) =~= Seq::<u8>::empty());
        assert(all =~= done + seq![Event::EndArray]);
        lemma_run_split(f0, done, seq![Event::EndArray]);
        lemma_run_one(*formatter, Event::EndArray);
    }
    let ghost fb = *formatter;
    let ghost ob = output@;
    formatter.end_array(output);
    proof {
        lemma_run_one(fb, Event::EndArray);
        assert(output@ =~= ob + fb.emits(Event::EndArray));
        lemma_lays_out_then(f0, out0, done, fb, ob, seq![Event::EndArray], *formatter, output@);
    }
}

/// `n` copies of `unit`, one after the other.
pub open spec fn repeat(unit: Seq<u8>, n: nat) -> Seq<u8>
    decreases n,
{
    if n == 0 {
        Seq::empty()
    } else {
        repeat(unit, (n - 1) as nat) + unit
    }
}

/// Writes `depth` copies of `indent_s`.
pub fn indent(output: &mut Vec<u8>, depth: usize, indent_s: &[u8])
    ensures
        final(output)@ == old(output)@ + repeat(indent_s@, depth as nat),
{
    let mut k: usize = 0;
    while k < depth
        invariant
            k <= depth,
            output@ == old(output)@ + repeat(indent_s@, k as nat),
        decreases depth - k,
    {
        push_all(output, indent_s);
        k += 1;
        assert(output@ =~= old(output)@ + repeat(indent_s@, k as nat));
    }
}

/// What the compact layout writes for an event: brackets, commas and
/// colons, and nothing else.
pub open spec fn compact_layout(ev: Event) -> Seq<u8> {
    match ev {
        Event::BeginArray => seq![0x5Bu8],
        Event::EndArray => seq![0x5Du8],
        Event::BeginObject => seq![0x7Bu8],
        Event::EndObject => seq![0x7Du8],
        Event::BeginIdMap => seq![0x5Bu8, 0x3Au8],
        Event::EndIdMap => seq![0x5Du8],
        Event::BeginArrayValue(first) | Event::BeginObjectKey(first) | Event::BeginIdMapKey(first) => if first {
            Seq::empty()
        } else {
            seq![0x2Cu8]
        },
        Event::BeginObjectValue | Event::BeginIdMapValue => seq![0x3Au8],
        _ => Seq::empty(),
    }
}

/// This structure compacts a nuan5json value with no extra whitespace.
#[derive(Clone, Copy, Debug)]
pub struct CompactFormatter;

impl Default for CompactFormatter {
    fn default() -> (res: Self)
        ensures
            res == CompactFormatter,
    {
        CompactFormatter
    }
}

impl Formatter for CompactFormatter {
    open spec fn accepts(&self, ev: Event) -> bool {
        true
    }

    open spec fn emits(&self, ev: Event) -> Seq<u8> {
        compact_layout(ev)
    }

    open spec fn after(&self, ev: Event) -> Self {
        *self
    }

    fn begin_array(&mut self, output: &mut Vec<u8>) {
        output.push(0x5B);
        assert(output@ =~= old(output)@ + compact_layout(Event::BeginArray));
    }

    fn end_array(&mut self, output: &mut Vec<u8>) {
        output.push(0x5D);
        assert(output@ =~= old(output)@ + compact_layout(Event::EndArray));
    }

    fn begin_array_value(&mut self, output: &mut Vec<u8>, first: bool) {
        if !first {
            output.push(0x2C);
        }
        assert(output@ =~= old(output)@ + compact_layout(Event::BeginArrayValue(first)));
    }

    fn end_array_value(&mut self, output: &mut Vec<u8>) {
        assert(output@ =~= old(output)@ + compact_layout(Event::EndArrayValue));
    }

    fn begin_object(&mut self, output: &mut Vec<u8>) {
        output.push(0x7B);
        assert(output@ =~= old(output)@ + compact_layout(Event::BeginObject));
    }

    fn end_object(&mut self, output: &mut Vec<u8>) {
        output.push(0x7D);
        assert(output@ =~= old(output)@ + compact_layout(Event::EndObject));
    }

    fn begin_object_key(&mut self, output: &mut Vec<u8>, first: bool) {
        if !first {
            output.push(0x2C);
        }
        assert(output@ =~= old(output)@ + compact_layout(Event::BeginObjectKey(first)));
    }

    fn end_object_key(&mut self, output: &mut Vec<u8>) {
        assert(output@ =~= old(output)@ + compact_layout(Event::EndObjectKey));
    }

    fn begin_object_value(&mut self, output: &mut Vec<u8>) {
        output.push(0x3A);
        assert(output@ =~= old(output)@ + compact_layout(Event::BeginObjectValue));
    }

    fn end_object_value(&mut self, output: &mut Vec<u8>) {
        assert(output@ =~= old(output)@ + compact_layout(Event::EndObjectValue));
    }

    fn begin_id_map(&mut self, output: &mut Vec<u8>) {
        output.push(0x5B);
        output.push(0x3A);
        assert(output@ =~= old(output)@ + compact_layout(Event::BeginIdMap));
    }

    fn end_id_map(&mut self, output: &mut Vec<u8>) {
        output.push(0x5D);
        assert(output@ =~= old(output)@ + compact_layout(Event::EndIdMap));
    }

    fn begin_id_map_key(&mut self, output: &mut Vec<u8>, first: bool) {
        if !first {
            output.push(0x2C);
        }
        assert(output@ =~= old(output)@ + compact_layout(Event::BeginIdMapKey(first)));
    }

    fn end_id_map_key(&mut self, output: &mut Vec<u8>) {
        assert(output@ =~= old(output)@ + compact_layout(Event::EndIdMapKey));
    }

    fn begin_id_map_value(&mut self, output: &mut Vec<u8>) {
        output.push(0x3A);
        assert(output@ =~= old(output)@ + compact_layout(Event::BeginIdMapValue));
    }

    fn end_id_map_value(&mut self, output: &mut Vec<u8>) {
        assert(output@ =~= old(output)@ + compact_layout(Event::EndIdMapValue));
    }
}

/// This structure pretty prints a nuan5json value to make it human readable.
#[derive(Clone, Copy, Debug)]
pub struct PrettyFormatter<'a> {
    current_indent: usize,
    has_value: bool,
    indent: &'a [u8],
}

impl<'a> PrettyFormatter<'a> {
    /// How deeply nested the layout presently is.
    pub closed spec fn depth(&self) -> int {
        self.current_indent as int
    }

    /// Whether the innermost open container has a value in it yet.
    pub closed spec fn holds_value(&self) -> bool {
        self.has_value
    }

    /// The bytes written once per level of nesting.
    pub closed spec fn indent_unit(&self) -> Seq<u8> {
        self.indent@
    }

    /// The same formatter at another depth and with another answer to
    /// whether its innermost container has a value.
    pub closed spec fn at(&self, depth: int, has_value: bool) -> Self {
        PrettyFormatter { current_indent: depth as usize, has_value, indent: self.indent }
    }

    /// What closing a container writes: on a line of its own when it has
    /// values, indented one level less.
    pub open spec fn closing(&self, bracket: u8) -> Seq<u8> {
        if self.holds_value() {
            seq![NEWLINE] + repeat(self.indent_unit(), (self.depth() - 1) as nat) + seq![bracket]
        } else {
            seq![bracket]
        }
    }

    /// What comes before an element, key or entry: a line break (after a
    /// comma unless it is the first) and the indentation.
    pub open spec fn line_break(&self, first: bool) -> Seq<u8> {
        (if first {
            seq![NEWLINE]
        } else {
            seq![0x2Cu8, NEWLINE]
        }) + repeat(self.indent_unit(), self.depth() as nat)
    }

    /// What `at` gives: the depth and answer asked for, the same indentation.
    pub proof fn lemma_at(&self, depth: int, has_value: bool)
        requires
            0 <= depth <= usize::MAX,
        ensures
            self.at(depth, has_value).depth() == depth,
            self.at(depth, has_value).holds_value() == has_value,
            self.at(depth, has_value).indent_unit() == self.indent_unit(),
    {
    }

    /// The depth is a `usize`.
    pub proof fn lemma_depth_range(&self)
        ensures
            0 <= self.depth() <= usize::MAX,
    {
    }

    /// Construct a pretty printer formatter that defaults to using two
    /// spaces for indentation.
    pub fn new() -> (res: Self)
        ensures
            res.depth() == 0,
            !res.holds_value(),
            res.indent_unit() == seq![0x20u8, 0x20u8],
    {
        let two_spaces = "  ";
        proof {
            reveal_strlit("  ");
            vstd::string::is_ascii_spec_bytes(two_spaces);
        }
        let res = PrettyFormatter::with_indent(two_spaces.as_bytes());
        assert(res.indent_unit() =~= seq![0x20u8, 0x20u8]);
        res
    }

    /// Construct a pretty printer formatter that uses the `indent` string
    /// for indentation.
    pub fn with_indent(indent: &'a [u8]) -> (res: Self)
        ensures
            res.depth() == 0,
            !res.holds_value(),
            res.indent_unit() == indent@,
    {
        PrettyFormatter { current_indent: 0, has_value: false, indent }
    }
}

impl<'a> Default for PrettyFormatter<'a> {
    fn default() -> (res: Self)
        ensures
            res.depth() == 0,
            !res.holds_value(),
            res.indent_unit() == seq![0x20u8, 0x20u8],
    {
        PrettyFormatter::new()
    }
}

impl<'a> Formatter for PrettyFormatter<'a> {
    open spec fn accepts(&self, ev: Event) -> bool {
        match ev {
            Event::BeginArray | Event::BeginObject | Event::BeginIdMap => self.depth() < usize::MAX,
            Event::EndArray | Event::EndObject | Event::EndIdMap => self.depth() > 0,
            _ => true,
        }
    }

    open spec fn emits(&self, ev: Event) -> Seq<u8> {
        match ev {
            Event::BeginArray => seq![0x5Bu8],
            Event::EndArray => self.closing(0x5D),
            Event::BeginObject => seq![0x7Bu8],
            Event::EndObject => self.closing(0x7D),
            Event::BeginIdMap => seq![0x5Bu8, 0x3Au8],
            Event::EndIdMap => self.closing(0x5D),
            Event::BeginArrayValue(first) | Event::BeginObjectKey(first) | Event::BeginIdMapKey(first) => self.line_break(first),
            Event::BeginObjectValue | Event::BeginIdMapValue => seq![0x3Au8, 0x20u8],
            _ => Seq::empty(),
        }
    }

    open spec fn after(&self, ev: Event) -> Self {
        match ev {
            Event::BeginArray | Event::BeginObject | Event::BeginIdMap => self.at(self.depth() + 1, false),
            Event::EndArray | Event::EndObject | Event::EndIdMap => self.at(self.depth() - 1, self.holds_value()),
            Event::EndArrayValue | Event::EndObjectValue | Event::EndIdMapValue => self.at(self.depth(), true),
            _ => *self,
        }
    }

    fn begin_array(&mut self, output: &mut Vec<u8>) {
        self.current_indent += 1;
        self.has_value = false;
        output.push(0x5B);
        assert(output@ =~= old(output)@ + old(self).emits(Event::BeginArray));
    }

    fn end_array(&mut self, output: &mut Vec<u8>) {
        self.current_indent -= 1;
        if self.has_value {
            output.push(NEWLINE);
            indent(output, self.current_indent, self.indent);
        }
        output.push(0x5D);
        assert(output@ =~= old(output)@ + old(self).emits(Event::EndArray));
    }

    fn begin_array_value(&mut self, output: &mut Vec<u8>, first: bool) {
        if !first {
            output.push(0x2C);
        }
        output.push(NEWLINE);
        indent(output, self.current_indent, self.indent);
        assert(output@ =~= old(output)@ + old(self).emits(Event::BeginArrayValue(first)));
    }

    fn end_array_value(&mut self, output: &mut Vec<u8>) {
        self.has_value = true;
        assert(output@ =~= old(output)@ + old(self).emits(Event::EndArrayValue));
    }

    fn begin_object(&mut self, output: &mut Vec<u8>) {
        self.current_indent += 1;
        self.has_value = false;
        output.push(0x7B);
        assert(output@ =~= old(output)@ + old(self).emits(Event::BeginObject));
    }

    fn end_object(&mut self, output: &mut Vec<u8>) {
        self.current_indent -= 1;
        if self.has_value {
            output.push(NEWLINE);
            indent(output, self.current_indent, self.indent);
        }
        output.push(0x7D);
        assert(output@ =~= old(output)@ + old(self).emits(Event::EndObject));
    }

    fn begin_object_key(&mut self, output: &mut Vec<u8>, first: bool) {
        if !first {
            output.push(0x2C);
        }
        output.push(NEWLINE);
        indent(output, self.current_indent, self.indent);
        assert(output@ =~= old(output)@ + old(self).emits(Event::BeginObjectKey(first)));
    }

    fn end_object_key(&mut self, output: &mut Vec<u8>) {
        assert(output@ =~= old(output)@ + old(self).emits(Event::EndObjectKey));
    }

    fn begin_object_value(&mut self, output: &mut Vec<u8>) {
        output.push(0x3A);
        output.push(0x20);
        assert(output@ =~= old(output)@ + old(self).emits(Event::BeginObjectValue));
    }

    fn end_object_value(&mut self, output: &mut Vec<u8>) {
        self.has_value = true;
        assert(output@ =~= old(output)@ + old(self).emits(Event::EndObjectValue));
    }

    fn begin_id_map(&mut self, output: &mut Vec<u8>) {
        self.current_indent += 1;
        self.has_value = false;
        output.push(0x5B);
        output.push(0x3A);
        assert(output@ =~= old(output)@ + old(self).emits(Event::BeginIdMap));
    }

    fn end_id_map(&mut self, output: &mut Vec<u8>) {
        self.current_indent -= 1;
        if self.has_value {
            output.push(NEWLINE);
            indent(output, self.current_indent, self.indent);
        }
        output.push(0x5D);
        assert(output@ =~= old(output)@ + old(self).emits(Event::EndIdMap));
    }

    fn begin_id_map_key(&mut self, output: &mut Vec<u8>, first: bool) {
        if !first {
            output.push(0x2C);
        }
        output.push(NEWLINE);
        indent(output, self.current_indent, self.indent);
        assert(output@ =~= old(output)@ + old(self).emits(Event::BeginIdMapKey(first)));
    }

    fn end_id_map_key(&mut self, output: &mut Vec<u8>) {
        assert(output@ =~= old(output)@ + old(self).emits(Event::EndIdMapKey));
    }

    fn begin_id_map_value(&mut self, output: &mut Vec<u8>) {
        output.push(0x3A);
        output.push(0x20);
        assert(output@ =~= old(output)@ + old(self).emits(Event::BeginIdMapValue));
    }

    fn end_id_map_value(&mut self, output: &mut Vec<u8>) {
        self.has_value = true;
        assert(output@ =~= old(output)@ + old(self).emits(Event::EndIdMapValue));
    }
}

/// How many containers the events `evs` open and leave open: those opened
/// less those closed.
pub open spec fn net_depth(evs: Seq<Event>) -> int
    decreases evs.len(),
{
    if evs.len() == 0 {
        0
    } else {
        (match evs[0] {
            Event::BeginArray | Event::BeginObject | Event::BeginIdMap => 1int,
            Event::EndArray | Event::EndObject | Event::EndIdMap => -1int,
            _ => 0int,
        }) + net_depth(evs.drop_first())
    }
}

/// The pretty printer's indentation follows the nesting: after any events
/// that it lays out, its depth has grown by the containers they leave open
/// (so a container laid out whole leaves the depth as it was), and it
/// indents with the same unit.
pub proof fn lemma_pretty_depth<'a>(f: PrettyFormatter<'a>, evs: Seq<Event>)
    requires
        run(f, evs) is Some,
    ensures
        run(f, evs).unwrap().0.depth() == f.depth() + net_depth(evs),
        run(f, evs).unwrap().0.indent_unit() == f.indent_unit(),
    decreases evs.len(),
{
    if evs.len() > 0 {
        let g = step(f, evs[0]).unwrap().0;
        lemma_pretty_depth(g, evs.drop_first());
    }
}

/// What the compact formatter writes for each event, one after the other.
pub open spec fn compact_text(evs: Seq<Event>) -> Seq<u8>
    decreases evs.len(),
{
    if evs.len() == 0 {
        Seq::empty()
    } else {
        (if is_value_event(evs[0]) {
            value_bytes(evs[0])
        } else {
            compact_layout(evs[0])
        }) + compact_text(evs.drop_first())
    }
}

/// The compact formatter lays out any sequence of events, keeps no state,
/// and writes for each event its bytes and nothing else.
pub proof fn lemma_compact_run(evs: Seq<Event>)
    ensures
        run(CompactFormatter, evs) == Some((CompactFormatter, compact_text(evs))),
    decreases evs.len(),
{
    if evs.len() > 0 {
        lemma_compact_run(evs.drop_first());
    }
}

/// The escape that byte `b` is written with inside a string, if it needs one.
pub open spec fn escape_of(b: u8) -> Option<CharEscape> {
    if b == 0x08 {
        Some(CharEscape::Backspace)
    } else if b == 0x09 {
        Some(CharEscape::Tab)
    } else if b == 0x0A {
        Some(CharEscape::LineFeed)
    } else if b == 0x0C {
        Some(CharEscape::FormFeed)
    } else if b == 0x0D {
        Some(CharEscape::CarriageReturn)
    } else if b == QUOTE {
        Some(CharEscape::Quote)
    } else if b == BACKSLASH {
        Some(CharEscape::ReverseSolidus)
    } else if b < 0x20 {
        Some(CharEscape::AsciiControl(b))
    } else {
        None
    }
}

/// The contents of a string as written: each byte as itself, or as its
/// escape when it needs one.
pub open spec fn escaped_text(s: Seq<u8>) -> Seq<u8>
    decreases s.len(),
{
    if s.len() == 0 {
        Seq::empty()
    } else {
        (match escape_of(s[0]) {
            Some(e) => escape_bytes(e),
            None => seq![s[0]],
        }) + escaped_text(s.drop_first())
    }
}

/// A plain run `s[start..end]` as a fragment, when it is not empty.
pub open spec fn run_event(s: Seq<u8>, start: int, end: int) -> Seq<Event> {
    if start < end {
        seq![Event::Fragment(s.subrange(start, end))]
    } else {
        Seq::empty()
    }
}

/// The events for the contents of `s` from offset `i` on, in a plain run
/// that began at `start`: runs of bytes that need no escape are written as
/// fragments, the others one escape each.
pub open spec fn escaped_from(s: Seq<u8>, start: int, i: int) -> Seq<Event>
    decreases s.len() - i,
{
    if i >= s.len() {
        run_event(s, start, s.len() as int)
    } else if escape_of(s[i]) is Some {
        run_event(s, start, i) + seq![Event::Escape(escape_of(s[i]).unwrap())] + escaped_from(
            s,
            i + 1,
            i + 1,
        )
    } else {
        escaped_from(s, start, i + 1)
    }
}

/// The events for the contents of a string.
pub open spec fn escaped_events(s: Seq<u8>) -> Seq<Event> {
    escaped_from(s, 0, 0)
}

/// The events for a whole string: quotes around the escaped contents.
pub open spec fn string_events(s: Seq<u8>) -> Seq<Event> {
    seq![Event::BeginString] + escaped_events(s) + seq![Event::EndString]
}

/// Whether every event of `evs` writes part of a value.
pub open spec fn all_values(evs: Seq<Event>) -> bool {
    forall|k: int| 0 <= k < evs.len() ==> is_value_event(#[trigger] evs[k])
}

/// A value event is always laid out, the same way, by any formatter.
pub proof fn lemma_value_step<F: Formatter>(f: F, out: Seq<u8>, ev: Event)
    requires
        is_value_event(ev),
    ensures
        lays_out(f, out, seq![ev], f, out + value_bytes(ev)),
{
    lemma_run_one(f, ev);
}

/// The bytes of a run of bytes that need no escape are the run itself.
proof fn lemma_plain_text(s: Seq<u8>)
    requires
        forall|k: int| 0 <= k < s.len() ==> escape_of(#[trigger] s[k]) is None,
    ensures
        escaped_text(s) == s,
    decreases s.len(),
{
    if s.len() > 0 {
        assert(escape_of(s[0]) is None);
        lemma_plain_text(s.drop_first());
        assert(seq![s[0]] + s.drop_first() =~= s);
    }
}

/// The escaped text of a concatenation.
proof fn lemma_escaped_text_concat(a: Seq<u8>, b: Seq<u8>)
    ensures
        escaped_text(a + b) == escaped_text(a) + escaped_text(b),
    decreases a.len(),
{
    if a.len() == 0 {
        assert(a + b =~= b);
    } else {
        assert((a + b).drop_first() =~= a.drop_first() + b);
        lemma_escaped_text_concat(a.drop_first(), b);
        let h = match escape_of(a[0]) {
            Some(e) => escape_bytes(e),
            None => seq![a[0]],
        };
        assert(h + (escaped_text(a.drop_first()) + escaped_text(b)) =~= (h + escaped_text(
            a.drop_first(),
        )) + escaped_text(b));
    }
}

/// The events from offset `i` on, in a plain run begun at `start`, are
/// all value events and write the run and then the escaped rest.
proof fn lemma_escaped_from<F: Formatter>(f: F, s: Seq<u8>, start: int, i: int)
    requires
        0 <= start <= i <= s.len(),
        forall|k: int| start <= k < i ==> escape_of(#[trigger] s[k]) is None,
    ensures
        all_values(escaped_from(s, start, i)),
        run(f, escaped_from(s, start, i)) == Some((f, s.subrange(start, i) + escaped_text(s.skip(i)))),
    decreases s.len() - i,
{
    reveal_with_fuel(run, 2);
    if i >= s.len() {
        assert(s.skip(i) =~= Seq::<u8>::empty());
        assert(s.subrange(start, i) + Seq::<u8>::empty() =~= s.subrange(start, i));
        if start < i {
            assert(seq![Event::Fragment(s.subrange(start, i))].drop_first() =~= Seq::<Event>::empty());
        }
    } else if escape_of(s[i]) is Some {
        let e = escape_of(s[i]).unwrap();
        lemma_escaped_from(f, s, i + 1, i + 1);
        let tail = escaped_from(s, i + 1, i + 1);
        let head = run_event(s, start, i);
        lemma_run_concat(f, head + seq![Event::Escape(e)], tail);
        lemma_run_concat(f, head, seq![Event::Escape(e)]);
        lemma_run_one(f, Event::Escape(e));
        if start < i {
            lemma_run_one(f, Event::Fragment(s.subrange(start, i)));
        }
        assert(s.subrange(i + 1, i + 1) =~= Seq::<u8>::empty());
        assert(s.skip(i).drop_first() =~= s.skip(i + 1));
        assert(escaped_text(s.skip(i)) == escape_bytes(e) + escaped_text(s.skip(i + 1)));
        assert(run(f, head) == Some((f, s.subrange(start, i)))) by {
            if start >= i {
                assert(s.subrange(start, i) =~= Seq::<u8>::empty());
            }
        }
        assert(Seq::<u8>::empty() + escaped_text(s.skip(i + 1)) =~= escaped_text(s.skip(i + 1)));
        assert((s.subrange(start, i) + escape_bytes(e)) + escaped_text(s.skip(i + 1)) =~= s.subrange(
            start,
            i,
        ) + (escape_bytes(e) + escaped_text(s.skip(i + 1))));
        assert forall|k: int| 0 <= k < escaped_from(s, start, i).len() implies is_value_event(
            #[trigger] escaped_from(s, start, i)[k],
        ) by {
            let all = head + seq![Event::Escape(e)] + tail;
            assert(escaped_from(s, start, i) == all);
            if k >= head.len() + 1 {
                assert(all[k] == tail[k - head.len() - 1]);
            }
        }
    } else {
        lemma_escaped_from(f, s, start, i + 1);
        assert(s.skip(i).drop_first() =~= s.skip(i + 1));
        assert(escaped_text(s.skip(i)) == seq![s[i]] + escaped_text(s.skip(i + 1)));
        assert(s.subrange(start, i + 1) =~= s.subrange(start, i) + seq![s[i]]);
        assert(s.subrange(start, i + 1) + escaped_text(s.skip(i + 1)) =~= s.subrange(start, i) + (
        seq![s[i]] + escaped_text(s.skip(i + 1))));
    }
}

/// Any formatter writes a string's contents as its escaped text, and is
/// left as it was.
pub proof fn lemma_escaped_events<F: Formatter>(f: F, s: Seq<u8>)
    ensures
        all_values(escaped_events(s)),
        run(f, escaped_events(s)) == Some((f, escaped_text(s))),
{
    lemma_escaped_from(f, s, 0, 0);
    assert(s.skip(0) =~= s);
    assert(s.subrange(0, 0) + escaped_text(s) =~= escaped_text(s));
}

/// Any formatter writes a whole string as its escaped text in quotes, and
/// is left as it was.
pub proof fn lemma_string_events<F: Formatter>(f: F, s: Seq<u8>)
    ensures
        run(f, string_events(s)) == Some((f, seq![QUOTE] + escaped_text(s) + seq![QUOTE])),
{
    lemma_escaped_events(f, s);
    lemma_run_concat(f, seq![Event::BeginString] + escaped_events(s), seq![Event::EndString]);
    lemma_run_concat(f, seq![Event::BeginString], escaped_events(s));
    lemma_run_one(f, Event::BeginString);
    lemma_run_one(f, Event::EndString);
}

/// The escape code of a byte, as the escape table gives it.
fn escape_code(byte: u8) -> (res: Option<CharEscape>)
    ensures
        res == escape_of(byte),
{
    if byte == 0x08 {
        Some(CharEscape::Backspace)
    } else if byte == 0x09 {
        Some(CharEscape::Tab)
    } else if byte == 0x0A {
        Some(CharEscape::LineFeed)
    } else if byte == 0x0C {
        Some(CharEscape::FormFeed)
    } else if byte == 0x0D {
        Some(CharEscape::CarriageReturn)
    } else if byte == QUOTE {
        Some(CharEscape::Quote)
    } else if byte == BACKSLASH {
        Some(CharEscape::ReverseSolidus)
    } else if byte < 0x20 {
        Some(CharEscape::AsciiControl(byte))
    } else {
        None
    }
}

/// In valid UTF-8 that begins with an ASCII byte, the next offset is a
/// character boundary.
proof fn lemma_ascii_head_boundary(s: Seq<u8>)
    requires
        valid_utf8(s),
        s.len() > 0,
        s[0] < 0x80,
    ensures
        is_char_boundary(s, 1),
{
    reveal_with_fuel(is_char_boundary, 2);
    reveal_with_fuel(valid_utf8, 2);
}

/// Writes the escaped contents of a string: plain runs as fragments, the
/// bytes that need it as escapes.
pub fn format_escaped_str_contents<F: Formatter>(output: &mut Vec<u8>, formatter: &mut F, value: &str)
    ensures
        lays_out(*old(formatter), old(output)@, escaped_events(value.spec_bytes()), *final(formatter), final(output)@),
{
    let ghost all = value.spec_bytes();
    let ghost f0 = *formatter;
    let ghost out0 = output@;
    let ghost mut start: int = 0;
    let ghost mut done: Seq<Event> = Seq::empty();
    let mut rest: &str = value;
    let mut bytes: &[u8] = rest.as_bytes();
    let mut i: usize = 0;
    proof {
        assert(all.skip(0) =~= all);
        assert(out0 + Seq::<u8>::empty() =~= out0);
        assert(Seq::<Event>::empty() + escaped_events(all) =~= escaped_events(all));
    }
    while i < bytes.len()
        invariant
            all == value.spec_bytes(),
            bytes@ == rest.spec_bytes(),
            0 <= start <= all.len(),
            rest.spec_bytes() == all.skip(start),
            i <= bytes@.len(),
            forall|k: int| start <= k < start + i ==> escape_of(#[trigger] all[k]) is None,
            done + escaped_from(all, start, start + i) == escaped_events(all),
            lays_out(f0, out0, done, *formatter, output@),
        decreases bytes@.len() - i,
    {
        let byte = bytes[i];
        let escape = escape_code(byte);
        i += 1;
        match escape {
            None => {
                proof {
                    assert(all[start + i - 1] == byte);
                }
                continue;
            },
            Some(char_escape) => {
                let ghost p: int = start + i - 1;
                proof {
                    assert(all[p] == byte);
                    assert(byte < 0x80);
                    vstd::utf8::encode_utf8_valid_utf8(rest@);
                    vstd::utf8::is_char_boundary_iff_not_is_continuation_byte(bytes@, (i - 1) as int);
                }
                let (string_run, tail) = rest.split_at(i - 1);
                proof {
                    vstd::utf8::encode_utf8_valid_utf8(tail@);
                    lemma_ascii_head_boundary(tail.spec_bytes());
                }
                let (_, after) = tail.split_at(1);
                proof {
                    assert(string_run.spec_bytes() =~= all.subrange(start, p));
                    assert(after.spec_bytes() =~= all.skip(p + 1));
                    assert(escaped_from(all, start, p) == run_event(all, start, p) + seq![Event::Escape(char_escape)]
                        + escaped_from(all, p + 1, p + 1));
                }
                let ghost fb = *formatter;
                let ghost ob = output@;
                if i > 1 {
                    formatter.write_string_fragment(output, string_run);
                    proof {
                        lemma_value_step(fb, ob, Event::Fragment(all.subrange(start, p)));
                        lemma_lays_out_then(f0, out0, done, fb, ob, run_event(all, start, p), *formatter, output@);
                    }
                } else {
                    proof {
                        assert(done + run_event(all, start, p) =~= done);
                    }
                }
                let ghost ob2 = output@;
                formatter.write_char_escape(output, char_escape);
                proof {
                    lemma_value_step(fb, ob2, Event::Escape(char_escape));
                    lemma_lays_out_then(f0, out0, done + run_event(all, start, p), fb, ob2, seq![Event::Escape(char_escape)], *formatter, output@);
                    done = done + run_event(all, start, p) + seq![Event::Escape(char_escape)];
                    start = p + 1;
                    assert(done + escaped_from(all, start, start + 0) =~= escaped_events(all));
                }
                rest = after;
                bytes = rest.as_bytes();
                i = 0;
            },
        }
    }
    proof {
        assert(start + i == all.len());
    }
    if bytes.len() > 0 {
        let ghost fb = *formatter;
        let ghost ob = output@;
        formatter.write_string_fragment(output, rest);
        proof {
            assert(rest.spec_bytes() =~= all.subrange(start, all.len() as int));
            lemma_value_step(fb, ob, Event::Fragment(all.subrange(start, all.len() as int)));
            lemma_lays_out_then(f0, out0, done, fb, ob, run_event(all, start, all.len() as int), *formatter, output@);
            assert(done + run_event(all, start, all.len() as int) =~= escaped_events(all));
        }
    } else {
        proof {
            assert(done =~= escaped_events(all));
        }
    }
}

/// Writes a string in quotes, escaping what needs it.
pub fn format_escaped_str<F: Formatter>(output: &mut Vec<u8>, formatter: &mut F, value: &str)
    ensures
        lays_out(*old(formatter), old(output)@, string_events(value.spec_bytes()), *final(formatter), final(output)@),
{
    let ghost f0 = *formatter;
    let ghost out0 = output@;
    formatter.begin_string(output);
    let ghost f1 = *formatter;
    let ghost out1 = output@;
    proof {
        lemma_value_step(f0, out0, Event::BeginString);
    }
    format_escaped_str_contents(output, formatter, value);
    let ghost f2 = *formatter;
    let ghost out2 = output@;
    formatter.end_string(output);
    proof {
        lemma_lays_out_then(f0, out0, seq![Event::BeginString], f1, out1, escaped_events(value.spec_bytes()), f2, out2);
        lemma_value_step(f2, out2, Event::EndString);
        lemma_lays_out_then(f0, out0, seq![Event::BeginString] + escaped_events(value.spec_bytes()), f2, out2, seq![Event::EndString], *formatter, output@);
    }
}

/// The next event of a sequence that can be laid out is accepted by the
/// formatter that the events before it leave.
proof fn lemma_next_step<F: Formatter>(
    f0: F,
    out0: Seq<u8>,
    done: Seq<Event>,
    f: F,
    out: Seq<u8>,
    ev: Event,
    rest: Seq<Event>,
)
    requires
        lays_out(f0, out0, done, f, out),
        run(f0, done + seq![ev] + rest) is Some,
    ensures
        step(f, ev) is Some,
        run(f, seq![ev] + rest) is Some,
{
    assert(done + seq![ev] + rest =~= done + (seq![ev] + rest));
    lemma_run_split(f0, done, seq![ev] + rest);
    lemma_run_split(f, seq![ev], rest);
    lemma_run_one(f, ev);
}

/// One more layout event, written by the formatter's method for it.
proof fn lemma_layout_step<F: Formatter>(
    f0: F,
    out0: Seq<u8>,
    done: Seq<Event>,
    f: F,
    out: Seq<u8>,
    ev: Event,
    f2: F,
    out2: Seq<u8>,
)
    requires
        lays_out(f0, out0, done, f, out),
        !is_value_event(ev),
        f.accepts(ev),
        out2 == out + f.emits(ev),
        f2 == f.after(ev),
    ensures
        lays_out(f0, out0, done + seq![ev], f2, out2),
{
    lemma_run_one(f, ev);
    lemma_lays_out_then(f0, out0, done, f, out, seq![ev], f2, out2);
}

/// Nothing laid out yet.
proof fn lemma_lays_out_nothing<F: Formatter>(f: F, out: Seq<u8>)
    ensures
        lays_out(f, out, Seq::empty(), f, out),
{
    assert(out + Seq::<u8>::empty() =~= out);
}

/// A structure for serializing Rust values into nuan5json.
pub struct Serializer<F = CompactFormatter> {
    output: Vec<u8>,
    formatter: F,
}

impl Serializer {
    /// Creates a new nuan5json serializer.
    pub fn new(output: Vec<u8>) -> (res: Self)
        ensures
            res.written() == output@,
            res.layout() == CompactFormatter,
    {
        Serializer::with_formatter(output, CompactFormatter)
    }
}

impl<'a> Serializer<PrettyFormatter<'a>> {
    /// Creates a new nuan5json pretty print serializer.
    pub fn pretty(output: Vec<u8>) -> (res: Self)
        ensures
            res.written() == output@,
            res.layout().depth() == 0,
            !res.layout().holds_value(),
            res.layout().indent_unit() == seq![0x20u8, 0x20u8],
    {
        Serializer::with_formatter(output, PrettyFormatter::new())
    }
}

impl<F> Serializer<F> {
    /// What has been written so far.
    pub closed spec fn written(&self) -> Seq<u8> {
        self.output@
    }

    /// The formatter in its present state.
    pub closed spec fn layout(&self) -> F {
        self.formatter
    }

    /// Creates a new nuan5json serializer that writes after `output` with
    /// `formatter`.
    pub fn with_formatter(output: Vec<u8>, formatter: F) -> (res: Self)
        ensures
            res.written() == output@,
            res.layout() == formatter,
    {
        Serializer { output, formatter }
    }

    /// Unwrap the output from the `Serializer`.
    pub fn into_inner(self) -> (res: Vec<u8>)
        ensures
            res@ == self.written(),
    {
        self.output
    }
}

/// Whether serializer `after` is serializer `before` with the events `evs`
/// laid out.
pub open spec fn wrote<F: Formatter>(before: Serializer<F>, evs: Seq<Event>, after: Serializer<F>) -> bool {
    lays_out(before.layout(), before.written(), evs, after.layout(), after.written())
}

/// Whether serializer `after` is serializer `before` with `bytes` written
/// and its formatter unchanged.
pub open spec fn wrote_value<F>(before: Serializer<F>, bytes: Seq<u8>, after: Serializer<F>) -> bool {
    &&& after.layout() == before.layout()
    &&& after.written() == before.written() + bytes
}

/// The events that open an enum variant holding data: an object whose
/// single key is the variant's name.
pub open spec fn variant_events(variant: Seq<u8>) -> Seq<Event> {
    seq![Event::BeginObject, Event::BeginObjectKey(true)] + string_events(variant) + seq![
        Event::EndObjectKey,
        Event::BeginObjectValue,
    ]
}

impl<F: Formatter> Serializer<F> {
    /// Writes `true` or `false`.
    pub fn serialize_bool(&mut self, value: bool)
        ensures
            wrote_value(*old(self), value_bytes(Event::Bool(value)), *final(self)),
    {
        self.formatter.write_bool(&mut self.output, value);
    }

    /// Writes an integer.
    pub fn serialize_i8(&mut self, value: i8)
        ensures
            wrote_value(*old(self), decimal(value as int), *final(self)),
    {
        self.formatter.write_i8(&mut self.output, value);
    }

    /// Writes an integer.
    pub fn serialize_i16(&mut self, value: i16)
        ensures
            wrote_value(*old(self), decimal(value as int), *final(self)),
    {
        self.formatter.write_i16(&mut self.output, value);
    }

    /// Writes an integer.
    pub fn serialize_i32(&mut self, value: i32)
        ensures
            wrote_value(*old(self), decimal(value as int), *final(self)),
    {
        self.formatter.write_i32(&mut self.output, value);
    }

    /// Writes an integer.
    pub fn serialize_i64(&mut self, value: i64)
        ensures
            wrote_value(*old(self), decimal(value as int), *final(self)),
    {
        self.formatter.write_i64(&mut self.output, value);
    }

    /// Writes an integer.
    pub fn serialize_i128(&mut self, value: i128)
        ensures
            wrote_value(*old(self), decimal(value as int), *final(self)),
    {
        self.formatter.write_i128(&mut self.output, value);
    }

    /// Writes an integer.
    pub fn serialize_u8(&mut self, value: u8)
        ensures
            wrote_value(*old(self), decimal(value as int), *final(self)),
    {
        self.formatter.write_u8(&mut self.output, value);
    }

    /// Writes an integer.
    pub fn serialize_u16(&mut self, value: u16)
        ensures
            wrote_value(*old(self), decimal(value as int), *final(self)),
    {
        self.formatter.write_u16(&mut self.output, value);
    }

    /// Writes an integer.
    pub fn serialize_u32(&mut self, value: u32)
        ensures
            wrote_value(*old(self), decimal(value as int), *final(self)),
    {
        self.formatter.write_u32(&mut self.output, value);
    }

    /// Writes an integer.
    pub fn serialize_u64(&mut self, value: u64)
        ensures
            wrote_value(*old(self), decimal(value as int), *final(self)),
    {
        self.formatter.write_u64(&mut self.output, value);
    }

    /// Writes an integer.
    pub fn serialize_u128(&mut self, value: u128)
        ensures
            wrote_value(*old(self), decimal(value as int), *final(self)),
    {
        self.formatter.write_u128(&mut self.output, value);
    }

    /// Writes a number already rendered as text, such as a float.
    pub fn serialize_number_str(&mut self, value: &str)
        ensures
            wrote_value(*old(self), value.spec_bytes(), *final(self)),
    {
        self.formatter.write_number_str(&mut self.output, value);
    }

    /// Writes a string in quotes, escaping what needs it.
    pub fn serialize_str(&mut self, value: &str)
        ensures
            wrote(*old(self), string_events(value.spec_bytes()), *final(self)),
            wrote_value(*old(self), seq![QUOTE] + escaped_text(value.spec_bytes()) + seq![QUOTE], *final(self)),
    {
        format_escaped_str(&mut self.output, &mut self.formatter, value);
        proof {
            lemma_string_events(old(self).formatter, value.spec_bytes());
        }
    }

    /// Writes a character as a one-character string.
    pub fn serialize_char(&mut self, value: char)
        ensures
            wrote_value(
                *old(self),
                seq![QUOTE] + escaped_text(vstd::utf8::encode_utf8(seq![value])) + seq![QUOTE],
                *final(self),
            ),
    {
        let mut buf: Vec<u8> = Vec::new();
        push_wtf8_codepoint(value as u32, &mut buf);
        proof {
            lemma_wtf8_scalar(value);
            vstd::utf8::encode_utf8_valid_utf8(seq![value]);
        }
        match str_from_utf8(buf.as_slice()) {
            Some(s) => self.serialize_str(s),
            None => {
                assert(false);
            },
        }
    }

    /// Writes the bytes as an array of integers.
    pub fn serialize_bytes(&mut self, value: &[u8])
        requires
            run(old(self).layout(), byte_array_events(value@)) is Some,
        ensures
            wrote(*old(self), byte_array_events(value@), *final(self)),
    {
        write_byte_array(&mut self.formatter, &mut self.output, value);
    }

    /// Writes `null`: the unit value, and a missing optional value.
    pub fn serialize_unit(&mut self)
        ensures
            wrote_value(*old(self), value_bytes(Event::Null), *final(self)),
    {
        self.formatter.write_null(&mut self.output);
    }

    /// Writes a value that is displayed as text, given as that text: one
    /// string, its text escaped in quotes, as `serialize_str` writes it.
    pub fn collect_str(&mut self, value: &str)
        ensures
            wrote(*old(self), string_events(value.spec_bytes()), *final(self)),
            wrote_value(*old(self), seq![QUOTE] + escaped_text(value.spec_bytes()) + seq![QUOTE], *final(self)),
    {
        format_escaped_str(&mut self.output, &mut self.formatter, value);
        proof {
            lemma_string_events(old(self).formatter, value.spec_bytes());
        }
    }
}

/// Where a compound value is: before its first element or entry, or past it.
enum State {
    First,
    Rest,
}

/// An array, object or id map being written: the elements or entries are
/// laid out through it, one after the other.
pub struct Compound {
    state: State,
    is_id_map: bool,
}

impl Compound {
    /// Whether no element or entry has been written yet.
    pub closed spec fn first(&self) -> bool {
        self.state is First
    }

    /// Whether this is an id map rather than an object.
    pub closed spec fn in_id_map(&self) -> bool {
        self.is_id_map
    }

    /// The event that begins the next key.
    pub open spec fn key_begin(&self) -> Event {
        if self.in_id_map() {
            Event::BeginIdMapKey(self.first())
        } else {
            Event::BeginObjectKey(self.first())
        }
    }

    /// The event that ends a key.
    pub open spec fn key_end(&self) -> Event {
        if self.in_id_map() {
            Event::EndIdMapKey
        } else {
            Event::EndObjectKey
        }
    }

    /// The event that begins an entry's value.
    pub open spec fn value_begin(&self) -> Event {
        if self.in_id_map() {
            Event::BeginIdMapValue
        } else {
            Event::BeginObjectValue
        }
    }

    /// The event that ends an entry's value.
    pub open spec fn value_end(&self) -> Event {
        if self.in_id_map() {
            Event::EndIdMapValue
        } else {
            Event::EndObjectValue
        }
    }

    /// The event that closes the map.
    pub open spec fn map_end(&self) -> Event {
        if self.in_id_map() {
            Event::EndIdMap
        } else {
            Event::EndObject
        }
    }

    /// The events that close a struct variant: the inner map, the value of
    /// the outer key, and the outer map.
    pub open spec fn struct_variant_end(&self) -> Seq<Event> {
        if self.in_id_map() {
            seq![Event::EndIdMap, Event::EndIdMapValue, Event::EndIdMap]
        } else {
            seq![Event::EndObject, Event::EndObjectValue, Event::EndObject]
        }
    }

    fn starting(is_id_map: bool) -> (res: Compound)
        ensures
            res.first(),
            res.in_id_map() == is_id_map,
    {
        Compound { state: State::First, is_id_map }
    }

    /// Whether this is an id map rather than an object.
    pub fn id_map(&self) -> (res: bool)
        ensures
            res == self.in_id_map(),
    {
        self.is_id_map
    }

    fn is_first(&self) -> (res: bool)
        ensures
            res == self.first(),
    {
        match self.state {
            State::First => true,
            State::Rest => false,
        }
    }
}

impl<F: Formatter> Serializer<F> {
    /// Writes the start of an enum variant that holds data: an object whose
    /// one key is the variant's name, up to where its value goes.
    pub fn begin_newtype_variant(&mut self, variant: &str)
        requires
            run(old(self).layout(), variant_events(variant.spec_bytes())) is Some,
        ensures
            wrote(*old(self), variant_events(variant.spec_bytes()), *final(self)),
    {
        let ghost f0 = self.formatter;
        let ghost out0 = self.output@;
        let ghost all = variant_events(variant.spec_bytes());
        let ghost mut done: Seq<Event> = Seq::empty();
        proof { lemma_lays_out_nothing(f0, out0); }
        proof {
            assert(all =~= done + seq![Event::BeginObject] + (seq![Event::BeginObjectKey(true)] + string_events(variant.spec_bytes()) + seq![Event::EndObjectKey] + seq![Event::BeginObjectValue]));
            lemma_next_step(f0, out0, done, self.formatter, self.output@, Event::BeginObject, seq![Event::BeginObjectKey(true)] + string_events(variant.spec_bytes()) + seq![Event::EndObjectKey] + seq![Event::BeginObjectValue]);
        }
        let ghost fb = self.formatter;
        let ghost ob = self.output@;
        self.formatter.begin_object(&mut self.output);
        proof {
            lemma_layout_step(f0, out0, done, fb, ob, Event::BeginObject, self.formatter, self.output@);
            done = done + seq![Event::BeginObject];
        }
        proof {
            assert(all =~= done + seq![Event::BeginObjectKey(true)] + (string_events(variant.spec_bytes()) + seq![Event::EndObjectKey] + seq![Event::BeginObjectValue]));
            lemma_next_step(f0, out0, done, self.formatter, self.output@, Event::BeginObjectKey(true), string_events(variant.spec_bytes()) + seq![Event::EndObjectKey] + seq![Event::BeginObjectValue]);
        }
        let ghost fb = self.formatter;
        let ghost ob = self.output@;
        self.formatter.begin_object_key(&mut self.output, true);
        proof {
            lemma_layout_step(f0, out0, done, fb, ob, Event::BeginObjectKey(true), self.formatter, self.output@);
            done = done + seq![Event::BeginObjectKey(true)];
        }
        let ghost fb = self.formatter;
        let ghost ob = self.output@;
        self.serialize_str(variant);
        proof {
            lemma_lays_out_then(f0, out0, done, fb, ob, string_events(variant.spec_bytes()), self.formatter, self.output@);
            done = done + string_events(variant.spec_bytes());
        }
        proof {
            assert(all =~= done + seq![Event::EndObjectKey] + (seq![Event::BeginObjectValue]));
            lemma_next_step(f0, out0, done, self.formatter, self.output@, Event::EndObjectKey, seq![Event::BeginObjectValue]);
        }
        let ghost fb = self.formatter;
        let ghost ob = self.output@;
        self.formatter.end_object_key(&mut self.output);
        proof {
            lemma_layout_step(f0, out0, done, fb, ob, Event::EndObjectKey, self.formatter, self.output@);
            done = done + seq![Event::EndObjectKey];
        }
        proof {
            assert(all =~= done + seq![Event::BeginObjectValue] + (Seq::<Event>::empty()));
            lemma_next_step(f0, out0, done, self.formatter, self.output@, Event::BeginObjectValue, Seq::<Event>::empty());
        }
        let ghost fb = self.formatter;
        let ghost ob = self.output@;
        self.formatter.begin_object_value(&mut self.output);
        proof {
            lemma_layout_step(f0, out0, done, fb, ob, Event::BeginObjectValue, self.formatter, self.output@);
            done = done + seq![Event::BeginObjectValue];
        }
        proof { assert(done =~= all); }
    }

    /// Writes the end of an enum variant that holds data.
    pub fn end_newtype_variant(&mut self)
        requires
            run(old(self).layout(), seq![Event::EndObjectValue, Event::EndObject]) is Some,
        ensures
            wrote(*old(self), seq![Event::EndObjectValue, Event::EndObject], *final(self)),
    {
        let ghost f0 = self.formatter;
        let ghost out0 = self.output@;
        let ghost all = seq![Event::EndObjectValue, Event::EndObject];
        let ghost mut done: Seq<Event> = Seq::empty();
        proof { lemma_lays_out_nothing(f0, out0); }
        proof {
            assert(all =~= done + seq![Event::EndObjectValue] + (seq![Event::EndObject]));
            lemma_next_step(f0, out0, done, self.formatter, self.output@, Event::EndObjectValue, seq![Event::EndObject]);
        }
        let ghost fb = self.formatter;
        let ghost ob = self.output@;
        self.formatter.end_object_value(&mut self.output);
        proof {
            lemma_layout_step(f0, out0, done, fb, ob, Event::EndObjectValue, self.formatter, self.output@);
            done = done + seq![Event::EndObjectValue];
        }
        proof {
            assert(all =~= done + seq![Event::EndObject] + (Seq::<Event>::empty()));
            lemma_next_step(f0, out0, done, self.formatter, self.output@, Event::EndObject, Seq::<Event>::empty());
        }
        let ghost fb = self.formatter;
        let ghost ob = self.output@;
        self.formatter.end_object(&mut self.output);
        proof {
            lemma_layout_step(f0, out0, done, fb, ob, Event::EndObject, self.formatter, self.output@);
            done = done + seq![Event::EndObject];
        }
        proof { assert(done =~= all); }
    }

    /// Begins an array.
    pub fn serialize_seq(&mut self) -> (res: Compound)
        requires
            old(self).layout().accepts(Event::BeginArray),
        ensures
            wrote(*old(self), seq![Event::BeginArray], *final(self)),
            res.first(),
            !res.in_id_map(),
    {
        let ghost f0 = self.formatter;
        let ghost out0 = self.output@;
        let ghost all = seq![Event::BeginArray];
        let ghost mut done: Seq<Event> = Seq::empty();
        proof { lemma_lays_out_nothing(f0, out0); lemma_run_one(f0, Event::BeginArray); }
        proof {
            assert(all =~= done + seq![Event::BeginArray] + (Seq::<Event>::empty()));
            lemma_next_step(f0, out0, done, self.formatter, self.output@, Event::BeginArray, Seq::<Event>::empty());
        }
        let ghost fb = self.formatter;
        let ghost ob = self.output@;
        self.formatter.begin_array(&mut self.output);
        proof {
            lemma_layout_step(f0, out0, done, fb, ob, Event::BeginArray, self.formatter, self.output@);
            done = done + seq![Event::BeginArray];
        }
        proof { assert(done =~= all); }
        Compound::starting(false)
    }

    /// Begins an object.
    pub fn serialize_map(&mut self) -> (res: Compound)
        requires
            old(self).layout().accepts(Event::BeginObject),
        ensures
            wrote(*old(self), seq![Event::BeginObject], *final(self)),
            res.first(),
            !res.in_id_map(),
    {
        let ghost f0 = self.formatter;
        let ghost out0 = self.output@;
        let ghost all = seq![Event::BeginObject];
        let ghost mut done: Seq<Event> = Seq::empty();
        proof { lemma_lays_out_nothing(f0, out0); lemma_run_one(f0, Event::BeginObject); }
        proof {
            assert(all =~= done + seq![Event::BeginObject] + (Seq::<Event>::empty()));
            lemma_next_step(f0, out0, done, self.formatter, self.output@, Event::BeginObject, Seq::<Event>::empty());
        }
        let ghost fb = self.formatter;
        let ghost ob = self.output@;
        self.formatter.begin_object(&mut self.output);
        proof {
            lemma_layout_step(f0, out0, done, fb, ob, Event::BeginObject, self.formatter, self.output@);
            done = done + seq![Event::BeginObject];
        }
        proof { assert(done =~= all); }
        Compound::starting(false)
    }

    /// Begins an id map: a map whose keys are integers.
    pub fn serialize_id_map(&mut self) -> (res: Compound)
        requires
            old(self).layout().accepts(Event::BeginIdMap),
        ensures
            wrote(*old(self), seq![Event::BeginIdMap], *final(self)),
            res.first(),
            res.in_id_map(),
    {
        let ghost f0 = self.formatter;
        let ghost out0 = self.output@;
        let ghost all = seq![Event::BeginIdMap];
        let ghost mut done: Seq<Event> = Seq::empty();
        proof { lemma_lays_out_nothing(f0, out0); lemma_run_one(f0, Event::BeginIdMap); }
        proof {
            assert(all =~= done + seq![Event::BeginIdMap] + (Seq::<Event>::empty()));
            lemma_next_step(f0, out0, done, self.formatter, self.output@, Event::BeginIdMap, Seq::<Event>::empty());
        }
        let ghost fb = self.formatter;
        let ghost ob = self.output@;
        self.formatter.begin_id_map(&mut self.output);
        proof {
            lemma_layout_step(f0, out0, done, fb, ob, Event::BeginIdMap, self.formatter, self.output@);
            done = done + seq![Event::BeginIdMap];
        }
        proof { assert(done =~= all); }
        Compound::starting(true)
    }

    /// Begins an enum variant that holds a tuple: the variant's object, and
    /// the array of its fields.
    pub fn serialize_tuple_variant(&mut self, variant: &str) -> (res: Compound)
        requires
            run(old(self).layout(), variant_events(variant.spec_bytes()) + seq![Event::BeginArray]) is Some,
        ensures
            wrote(*old(self), variant_events(variant.spec_bytes()) + seq![Event::BeginArray], *final(self)),
            res.first(),
            !res.in_id_map(),
    {
        let ghost f0 = self.formatter;
        let ghost out0 = self.output@;
        let ghost all = variant_events(variant.spec_bytes()) + seq![Event::BeginArray];
        let ghost mut done: Seq<Event> = Seq::empty();
        proof { lemma_lays_out_nothing(f0, out0); }
        proof {
            assert(all =~= done + seq![Event::BeginObject] + (seq![Event::BeginObjectKey(true)] + string_events(variant.spec_bytes()) + seq![Event::EndObjectKey] + seq![Event::BeginObjectValue] + seq![Event::BeginArray]));
            lemma_next_step(f0, out0, done, self.formatter, self.output@, Event::BeginObject, seq![Event::BeginObjectKey(true)] + string_events(variant.spec_bytes()) + seq![Event::EndObjectKey] + seq![Event::BeginObjectValue] + seq![Event::BeginArray]);
        }
        let ghost fb = self.formatter;
        let ghost ob = self.output@;
        self.formatter.begin_object(&mut self.output);
        proof {
            lemma_layout_step(f0, out0, done, fb, ob, Event::BeginObject, self.formatter, self.output@);
            done = done + seq![Event::BeginObject];
        }
        proof {
            assert(all =~= done + seq![Event::BeginObjectKey(true)] + (string_events(variant.spec_bytes()) + seq![Event::EndObjectKey] + seq![Event::BeginObjectValue] + seq![Event::BeginArray]));
            lemma_next_step(f0, out0, done, self.formatter, self.output@, Event::BeginObjectKey(true), string_events(variant.spec_bytes()) + seq![Event::EndObjectKey] + seq![Event::BeginObjectValue] + seq![Event::BeginArray]);
        }
        let ghost fb = self.formatter;
        let ghost ob = self.output@;
        self.formatter.begin_object_key(&mut self.output, true);
        proof {
            lemma_layout_step(f0, out0, done, fb, ob, Event::BeginObjectKey(true), self.formatter, self.output@);
            done = done + seq![Event::BeginObjectKey(true)];
        }
        let ghost fb = self.formatter;
        let ghost ob = self.output@;
        self.serialize_str(variant);
        proof {
            lemma_lays_out_then(f0, out0, done, fb, ob, string_events(variant.spec_bytes()), self.formatter, self.output@);
            done = done + string_events(variant.spec_bytes());
        }
        proof {
            assert(all =~= done + seq![Event::EndObjectKey] + (seq![Event::BeginObjectValue] + seq![Event::BeginArray]));
            lemma_next_step(f0, out0, done, self.formatter, self.output@, Event::EndObjectKey, seq![Event::BeginObjectValue] + seq![Event::BeginArray]);
        }
        let ghost fb = self.formatter;
        let ghost ob = self.output@;
        self.formatter.end_object_key(&mut self.output);
        proof {
            lemma_layout_step(f0, out0, done, fb, ob, Event::EndObjectKey, self.formatter, self.output@);
            done = done + seq![Event::EndObjectKey];
        }
        proof {
            assert(all =~= done + seq![Event::BeginObjectValue] + (seq![Event::BeginArray]));
            lemma_next_step(f0, out0, done, self.formatter, self.output@, Event::BeginObjectValue, seq![Event::BeginArray]);
        }
        let ghost fb = self.formatter;
        let ghost ob = self.output@;
        self.formatter.begin_object_value(&mut self.output);
        proof {
            lemma_layout_step(f0, out0, done, fb, ob, Event::BeginObjectValue, self.formatter, self.output@);
            done = done + seq![Event::BeginObjectValue];
        }
        proof {
            assert(all =~= done + seq![Event::BeginArray] + (Seq::<Event>::empty()));
            lemma_next_step(f0, out0, done, self.formatter, self.output@, Event::BeginArray, Seq::<Event>::empty());
        }
        let ghost fb = self.formatter;
        let ghost ob = self.output@;
        self.formatter.begin_array(&mut self.output);
        proof {
            lemma_layout_step(f0, out0, done, fb, ob, Event::BeginArray, self.formatter, self.output@);
            done = done + seq![Event::BeginArray];
        }
        proof { assert(done =~= all); }
        Compound::starting(false)
    }

    /// Begins an enum variant that holds a struct: the variant's object, and
    /// the object of its fields.
    pub fn serialize_struct_variant(&mut self, variant: &str) -> (res: Compound)
        requires
            run(old(self).layout(), variant_events(variant.spec_bytes()) + seq![Event::BeginObject]) is Some,
        ensures
            wrote(*old(self), variant_events(variant.spec_bytes()) + seq![Event::BeginObject], *final(self)),
            res.first(),
            !res.in_id_map(),
    {
        let ghost f0 = self.formatter;
        let ghost out0 = self.output@;
        let ghost all = variant_events(variant.spec_bytes()) + seq![Event::BeginObject];
        let ghost mut done: Seq<Event> = Seq::empty();
        proof { lemma_lays_out_nothing(f0, out0); }
        proof {
            assert(all =~= done + seq![Event::BeginObject] + (seq![Event::BeginObjectKey(true)] + string_events(variant.spec_bytes()) + seq![Event::EndObjectKey] + seq![Event::BeginObjectValue] + seq![Event::BeginObject]));
            lemma_next_step(f0, out0, done, self.formatter, self.output@, Event::BeginObject, seq![Event::BeginObjectKey(true)] + string_events(variant.spec_bytes()) + seq![Event::EndObjectKey] + seq![Event::BeginObjectValue] + seq![Event::BeginObject]);
        }
        let ghost fb = self.formatter;
        let ghost ob = self.output@;
        self.formatter.begin_object(&mut self.output);
        proof {
            lemma_layout_step(f0, out0, done, fb, ob, Event::BeginObject, self.formatter, self.output@);
            done = done + seq![Event::BeginObject];
        }
        proof {
            assert(all =~= done + seq![Event::BeginObjectKey(true)] + (string_events(variant.spec_bytes()) + seq![Event::EndObjectKey] + seq![Event::BeginObjectValue] + seq![Event::BeginObject]));
            lemma_next_step(f0, out0, done, self.formatter, self.output@, Event::BeginObjectKey(true), string_events(variant.spec_bytes()) + seq![Event::EndObjectKey] + seq![Event::BeginObjectValue] + seq![Event::BeginObject]);
        }
        let ghost fb = self.formatter;
        let ghost ob = self.output@;
        self.formatter.begin_object_key(&mut self.output, true);
        proof {
            lemma_layout_step(f0, out0, done, fb, ob, Event::BeginObjectKey(true), self.formatter, self.output@);
            done = done + seq![Event::BeginObjectKey(true)];
        }
        let ghost fb = self.formatter;
        let ghost ob = self.output@;
        self.serialize_str(variant);
        proof {
            lemma_lays_out_then(f0, out0, done, fb, ob, string_events(variant.spec_bytes()), self.formatter, self.output@);
            done = done + string_events(variant.spec_bytes());
        }
        proof {
            assert(all =~= done + seq![Event::EndObjectKey] + (seq![Event::BeginObjectValue] + seq![Event::BeginObject]));
            lemma_next_step(f0, out0, done, self.formatter, self.output@, Event::EndObjectKey, seq![Event::BeginObjectValue] + seq![Event::BeginObject]);
        }
        let ghost fb = self.formatter;
        let ghost ob = self.output@;
        self.formatter.end_object_key(&mut self.output);
        proof {
            lemma_layout_step(f0, out0, done, fb, ob, Event::EndObjectKey, self.formatter, self.output@);
            done = done + seq![Event::EndObjectKey];
        }
        proof {
            assert(all =~= done + seq![Event::BeginObjectValue] + (seq![Event::BeginObject]));
            lemma_next_step(f0, out0, done, self.formatter, self.output@, Event::BeginObjectValue, seq![Event::BeginObject]);
        }
        let ghost fb = self.formatter;
        let ghost ob = self.output@;
        self.formatter.begin_object_value(&mut self.output);
        proof {
            lemma_layout_step(f0, out0, done, fb, ob, Event::BeginObjectValue, self.formatter, self.output@);
            done = done + seq![Event::BeginObjectValue];
        }
        proof {
            assert(all =~= done + seq![Event::BeginObject] + (Seq::<Event>::empty()));
            lemma_next_step(f0, out0, done, self.formatter, self.output@, Event::BeginObject, Seq::<Event>::empty());
        }
        let ghost fb = self.formatter;
        let ghost ob = self.output@;
        self.formatter.begin_object(&mut self.output);
        proof {
            lemma_layout_step(f0, out0, done, fb, ob, Event::BeginObject, self.formatter, self.output@);
            done = done + seq![Event::BeginObject];
        }
        proof { assert(done =~= all); }
        Compound::starting(false)
    }

    /// Writes a boolean map key, in quotes.
    pub fn serialize_key_bool(&mut self, value: bool)
        ensures
            wrote_value(*old(self), seq![QUOTE] + value_bytes(Event::Bool(value)) + seq![QUOTE], *final(self)),
    {
        self.formatter.begin_string(&mut self.output);
        self.formatter.write_bool(&mut self.output, value);
        self.formatter.end_string(&mut self.output);
        assert(self.output@ =~= old(self).output@ + (seq![QUOTE] + value_bytes(Event::Bool(value)) + seq![QUOTE]));
    }

    /// Writes a signed integer map key, in quotes.
    pub fn serialize_key_signed(&mut self, value: i128)
        ensures
            wrote_value(*old(self), seq![QUOTE] + decimal(value as int) + seq![QUOTE], *final(self)),
    {
        self.formatter.begin_string(&mut self.output);
        self.formatter.write_i128(&mut self.output, value);
        self.formatter.end_string(&mut self.output);
        assert(self.output@ =~= old(self).output@ + (seq![QUOTE] + decimal(value as int) + seq![QUOTE]));
    }

    /// Writes an unsigned integer map key, in quotes.
    pub fn serialize_key_unsigned(&mut self, value: u128)
        ensures
            wrote_value(*old(self), seq![QUOTE] + decimal(value as int) + seq![QUOTE], *final(self)),
    {
        self.formatter.begin_string(&mut self.output);
        self.formatter.write_u128(&mut self.output, value);
        self.formatter.end_string(&mut self.output);
        assert(self.output@ =~= old(self).output@ + (seq![QUOTE] + decimal(value as int) + seq![QUOTE]));
    }

    /// Writes a map key that is a number already rendered as text, such as
    /// a float, in quotes.
    pub fn serialize_key_number_str(&mut self, value: &str)
        ensures
            wrote_value(*old(self), seq![QUOTE] + value.spec_bytes() + seq![QUOTE], *final(self)),
    {
        self.formatter.begin_string(&mut self.output);
        self.formatter.write_number_str(&mut self.output, value);
        self.formatter.end_string(&mut self.output);
        assert(self.output@ =~= old(self).output@ + (seq![QUOTE] + value.spec_bytes() + seq![QUOTE]));
    }
}

impl Compound {
    /// Begins the next element of an array: a comma unless it is the first.
    pub fn begin_element<F: Formatter>(&self, ser: &mut Serializer<F>)
        requires
            old(ser).layout().accepts(Event::BeginArrayValue(self.first())),
        ensures
            wrote(*old(ser), seq![Event::BeginArrayValue(self.first())], *final(ser)),
    {
        let ghost f0 = ser.formatter;
        let ghost out0 = ser.output@;
        let ghost all = seq![Event::BeginArrayValue(self.first())];
        let ghost mut done: Seq<Event> = Seq::empty();
        proof { lemma_lays_out_nothing(f0, out0); lemma_run_one(f0, Event::BeginArrayValue(self.first())); }
        proof {
            assert(all =~= done + seq![Event::BeginArrayValue(self.first())] + (Seq::<Event>::empty()));
            lemma_next_step(f0, out0, done, ser.formatter, ser.output@, Event::BeginArrayValue(self.first()), Seq::<Event>::empty());
        }
        let ghost fb = ser.formatter;
        let ghost ob = ser.output@;
        ser.formatter.begin_array_value(&mut ser.output, self.is_first());
        proof {
            lemma_layout_step(f0, out0, done, fb, ob, Event::BeginArrayValue(self.first()), ser.formatter, ser.output@);
            done = done + seq![Event::BeginArrayValue(self.first())];
        }
        proof { assert(done =~= all); }
    }

    /// Ends an element of an array.
    pub fn end_element<F: Formatter>(&mut self, ser: &mut Serializer<F>)
        requires
            old(ser).layout().accepts(Event::EndArrayValue),
        ensures
            wrote(*old(ser), seq![Event::EndArrayValue], *final(ser)),
            !final(self).first(),
            final(self).in_id_map() == old(self).in_id_map(),
    {
        let ghost f0 = ser.formatter;
        let ghost out0 = ser.output@;
        let ghost all = seq![Event::EndArrayValue];
        let ghost mut done: Seq<Event> = Seq::empty();
        proof { lemma_lays_out_nothing(f0, out0); lemma_run_one(f0, Event::EndArrayValue); }
        proof {
            assert(all =~= done + seq![Event::EndArrayValue] + (Seq::<Event>::empty()));
            lemma_next_step(f0, out0, done, ser.formatter, ser.output@, Event::EndArrayValue, Seq::<Event>::empty());
        }
        let ghost fb = ser.formatter;
        let ghost ob = ser.output@;
        ser.formatter.end_array_value(&mut ser.output);
        proof {
            lemma_layout_step(f0, out0, done, fb, ob, Event::EndArrayValue, ser.formatter, ser.output@);
            done = done + seq![Event::EndArrayValue];
        }
        proof { assert(done =~= all); }
        self.state = State::Rest;
    }

    /// Ends an array.
    pub fn end_seq<F: Formatter>(self, ser: &mut Serializer<F>)
        requires
            old(ser).layout().accepts(Event::EndArray),
        ensures
            wrote(*old(ser), seq![Event::EndArray], *final(ser)),
    {
        let ghost f0 = ser.formatter;
        let ghost out0 = ser.output@;
        let ghost all = seq![Event::EndArray];
        let ghost mut done: Seq<Event> = Seq::empty();
        proof { lemma_lays_out_nothing(f0, out0); lemma_run_one(f0, Event::EndArray); }
        proof {
            assert(all =~= done + seq![Event::EndArray] + (Seq::<Event>::empty()));
            lemma_next_step(f0, out0, done, ser.formatter, ser.output@, Event::EndArray, Seq::<Event>::empty());
        }
        let ghost fb = ser.formatter;
        let ghost ob = ser.output@;
        ser.formatter.end_array(&mut ser.output);
        proof {
            lemma_layout_step(f0, out0, done, fb, ob, Event::EndArray, ser.formatter, ser.output@);
            done = done + seq![Event::EndArray];
        }
        proof { assert(done =~= all); }
    }

    /// Ends an enum variant that holds a tuple: the array of fields, the
    /// value of the variant's key, and the variant's object.
    pub fn end_tuple_variant<F: Formatter>(self, ser: &mut Serializer<F>)
        requires
            run(old(ser).layout(), seq![Event::EndArray, Event::EndObjectValue, Event::EndObject]) is Some,
        ensures
            wrote(*old(ser), seq![Event::EndArray, Event::EndObjectValue, Event::EndObject], *final(ser)),
    {
        let ghost f0 = ser.formatter;
        let ghost out0 = ser.output@;
        let ghost all = seq![Event::EndArray, Event::EndObjectValue, Event::EndObject];
        let ghost mut done: Seq<Event> = Seq::empty();
        proof { lemma_lays_out_nothing(f0, out0); }
        proof {
            assert(all =~= done + seq![Event::EndArray] + (seq![Event::EndObjectValue] + seq![Event::EndObject]));
            lemma_next_step(f0, out0, done, ser.formatter, ser.output@, Event::EndArray, seq![Event::EndObjectValue] + seq![Event::EndObject]);
        }
        let ghost fb = ser.formatter;
        let ghost ob = ser.output@;
        ser.formatter.end_array(&mut ser.output);
        proof {
            lemma_layout_step(f0, out0, done, fb, ob, Event::EndArray, ser.formatter, ser.output@);
            done = done + seq![Event::EndArray];
        }
        proof {
            assert(all =~= done + seq![Event::EndObjectValue] + (seq![Event::EndObject]));
            lemma_next_step(f0, out0, done, ser.formatter, ser.output@, Event::EndObjectValue, seq![Event::EndObject]);
        }
        let ghost fb = ser.formatter;
        let ghost ob = ser.output@;
        ser.formatter.end_object_value(&mut ser.output);
        proof {
            lemma_layout_step(f0, out0, done, fb, ob, Event::EndObjectValue, ser.formatter, ser.output@);
            done = done + seq![Event::EndObjectValue];
        }
        proof {
            assert(all =~= done + seq![Event::EndObject] + (Seq::<Event>::empty()));
            lemma_next_step(f0, out0, done, ser.formatter, ser.output@, Event::EndObject, Seq::<Event>::empty());
        }
        let ghost fb = ser.formatter;
        let ghost ob = ser.output@;
        ser.formatter.end_object(&mut ser.output);
        proof {
            lemma_layout_step(f0, out0, done, fb, ob, Event::EndObject, ser.formatter, ser.output@);
            done = done + seq![Event::EndObject];
        }
        proof { assert(done =~= all); }
    }

    /// Begins the next key of a map: a comma unless it is the first.
    pub fn begin_key<F: Formatter>(&self, ser: &mut Serializer<F>)
        requires
            old(ser).layout().accepts(self.key_begin()),
        ensures
            wrote(*old(ser), seq![self.key_begin()], *final(ser)),
    {
        let ghost f0 = ser.formatter;
        let ghost out0 = ser.output@;
        if self.is_id_map {
            ser.formatter.begin_id_map_key(&mut ser.output, self.is_first());
        } else {
            ser.formatter.begin_object_key(&mut ser.output, self.is_first());
        }
        proof {
            lemma_run_one(f0, self.key_begin());
        }
    }

    /// Ends a key of a map.
    pub fn end_key<F: Formatter>(&mut self, ser: &mut Serializer<F>)
        requires
            old(ser).layout().accepts(old(self).key_end()),
        ensures
            wrote(*old(ser), seq![old(self).key_end()], *final(ser)),
            !final(self).first(),
            final(self).in_id_map() == old(self).in_id_map(),
    {
        let ghost f0 = ser.formatter;
        if self.is_id_map {
            ser.formatter.end_id_map_key(&mut ser.output);
        } else {
            ser.formatter.end_object_key(&mut ser.output);
        }
        proof {
            lemma_run_one(f0, old(self).key_end());
        }
        self.state = State::Rest;
    }

    /// Begins the value of a map entry.
    pub fn begin_value<F: Formatter>(&self, ser: &mut Serializer<F>)
        requires
            old(ser).layout().accepts(self.value_begin()),
        ensures
            wrote(*old(ser), seq![self.value_begin()], *final(ser)),
    {
        let ghost f0 = ser.formatter;
        let ghost out0 = ser.output@;
        if self.is_id_map {
            ser.formatter.begin_id_map_value(&mut ser.output);
        } else {
            ser.formatter.begin_object_value(&mut ser.output);
        }
        proof {
            lemma_run_one(f0, self.value_begin());
        }
    }

    /// Ends the value of a map entry.
    pub fn end_value<F: Formatter>(&self, ser: &mut Serializer<F>)
        requires
            old(ser).layout().accepts(self.value_end()),
        ensures
            wrote(*old(ser), seq![self.value_end()], *final(ser)),
    {
        let ghost f0 = ser.formatter;
        let ghost out0 = ser.output@;
        if self.is_id_map {
            ser.formatter.end_id_map_value(&mut ser.output);
        } else {
            ser.formatter.end_object_value(&mut ser.output);
        }
        proof {
            lemma_run_one(f0, self.value_end());
        }
    }

    /// Ends a map.
    pub fn end_map<F: Formatter>(self, ser: &mut Serializer<F>)
        requires
            old(ser).layout().accepts(self.map_end()),
        ensures
            wrote(*old(ser), seq![self.map_end()], *final(ser)),
    {
        let ghost f0 = ser.formatter;
        let ghost out0 = ser.output@;
        if self.is_id_map {
            ser.formatter.end_id_map(&mut ser.output);
        } else {
            ser.formatter.end_object(&mut ser.output);
        }
        proof {
            lemma_run_one(f0, self.map_end());
        }
    }

    /// Ends an enum variant that holds a struct: the map of fields, the
    /// value of the variant's key, and the variant's map.
    pub fn end_struct_variant<F: Formatter>(self, ser: &mut Serializer<F>)
        requires
            run(old(ser).layout(), self.struct_variant_end()) is Some,
        ensures
            wrote(*old(ser), self.struct_variant_end(), *final(ser)),
    {
        if self.is_id_map {
            let ghost f0 = ser.formatter;
            let ghost out0 = ser.output@;
            let ghost all = self.struct_variant_end();
            let ghost mut done: Seq<Event> = Seq::empty();
            proof { lemma_lays_out_nothing(f0, out0); }
            proof {
                assert(all =~= done + seq![Event::EndIdMap] + (seq![Event::EndIdMapValue] + seq![Event::EndIdMap]));
                lemma_next_step(f0, out0, done, ser.formatter, ser.output@, Event::EndIdMap, seq![Event::EndIdMapValue] + seq![Event::EndIdMap]);
            }
            let ghost fb = ser.formatter;
            let ghost ob = ser.output@;
            ser.formatter.end_id_map(&mut ser.output);
            proof {
                lemma_layout_step(f0, out0, done, fb, ob, Event::EndIdMap, ser.formatter, ser.output@);
                done = done + seq![Event::EndIdMap];
            }
            proof {
                assert(all =~= done + seq![Event::EndIdMapValue] + (seq![Event::EndIdMap]));
                lemma_next_step(f0, out0, done, ser.formatter, ser.output@, Event::EndIdMapValue, seq![Event::EndIdMap]);
            }
            let ghost fb = ser.formatter;
            let ghost ob = ser.output@;
            ser.formatter.end_id_map_value(&mut ser.output);
            proof {
                lemma_layout_step(f0, out0, done, fb, ob, Event::EndIdMapValue, ser.formatter, ser.output@);
                done = done + seq![Event::EndIdMapValue];
            }
            proof {
                assert(all =~= done + seq![Event::EndIdMap] + (Seq::<Event>::empty()));
                lemma_next_step(f0, out0, done, ser.formatter, ser.output@, Event::EndIdMap, Seq::<Event>::empty());
            }
            let ghost fb = ser.formatter;
            let ghost ob = ser.output@;
            ser.formatter.end_id_map(&mut ser.output);
            proof {
                lemma_layout_step(f0, out0, done, fb, ob, Event::EndIdMap, ser.formatter, ser.output@);
                done = done + seq![Event::EndIdMap];
            }
            proof { assert(done =~= all); }
        } else {
            let ghost f0 = ser.formatter;
            let ghost out0 = ser.output@;
            let ghost all = self.struct_variant_end();
            let ghost mut done: Seq<Event> = Seq::empty();
            proof { lemma_lays_out_nothing(f0, out0); }
            proof {
                assert(all =~= done + seq![Event::EndObject] + (seq![Event::EndObjectValue] + seq![Event::EndObject]));
                lemma_next_step(f0, out0, done, ser.formatter, ser.output@, Event::EndObject, seq![Event::EndObjectValue] + seq![Event::EndObject]);
            }
            let ghost fb = ser.formatter;
            let ghost ob = ser.output@;
            ser.formatter.end_object(&mut ser.output);
            proof {
                lemma_layout_step(f0, out0, done, fb, ob, Event::EndObject, ser.formatter, ser.output@);
                done = done + seq![Event::EndObject];
            }
            proof {
                assert(all =~= done + seq![Event::EndObjectValue] + (seq![Event::EndObject]));
                lemma_next_step(f0, out0, done, ser.formatter, ser.output@, Event::EndObjectValue, seq![Event::EndObject]);
            }
            let ghost fb = ser.formatter;
            let ghost ob = ser.output@;
            ser.formatter.end_object_value(&mut ser.output);
            proof {
                lemma_layout_step(f0, out0, done, fb, ob, Event::EndObjectValue, ser.formatter, ser.output@);
                done = done + seq![Event::EndObjectValue];
            }
            proof {
                assert(all =~= done + seq![Event::EndObject] + (Seq::<Event>::empty()));
                lemma_next_step(f0, out0, done, ser.formatter, ser.output@, Event::EndObject, Seq::<Event>::empty());
            }
            let ghost fb = ser.formatter;
            let ghost ob = ser.output@;
            ser.formatter.end_object(&mut ser.output);
            proof {
                lemma_layout_step(f0, out0, done, fb, ob, Event::EndObject, ser.formatter, ser.output@);
                done = done + seq![Event::EndObject];
            }
            proof { assert(done =~= all); }
        }
    }
}

} // verus!
