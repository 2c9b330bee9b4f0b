//! Whole documents: the events and the compact text that the writer makes
//! of a value, the value that the reader makes of a text, and how the
//! skipper passes over it; the same for id maps.
use vstd::prelude::*;
use vstd::utf8::valid_utf8;
use crate::de::{ParserNumber, Token, any_token, id_map_start, next_element, next_id_map_key, next_key, number_at};
use crate::error::ErrorCode;
use crate::grammar::{
    Scan, digit_at, is_ws, lemma_skip_ws, member_start, scan_close_brace, scan_close_bracket, scan_colon, scan_str,
    skip_container, skip_integer, skip_member, skip_str, skip_value, skip_ws,
};
use crate::ser::{
    CompactFormatter, Event, byte_array_events, byte_elements, compact_text, decimal, digits_of, escaped_text,
    lemma_compact_run, lemma_string_events, run, string_events, value_bytes,
};
use crate::laws::{
    begins_value, ends_number, lemma_closing_reads_back, lemma_colon_reads_back, lemma_digits_of, lemma_i64_reads_back,
    lemma_integer_reads_back, lemma_integer_skips, lemma_separator_reads_back, lemma_string_reads_back, lemma_string_skips,
    lemma_word_reads_back,
};
use crate::text::QUOTE;

verus! {

/// A value of the document model: what the value visitors write, and
/// what they read back.
pub enum Doc {
    Null,
    Bool(bool),
    Number(ParserNumber),
    Str(Seq<u8>),
    Array(Seq<Doc>),
    Object(Seq<(Seq<u8>, Doc)>),
}

/// How deeply a document nests arrays and objects.
pub open spec fn nesting(doc: Doc) -> nat
    decreases doc,
{
    match doc {
        Doc::Array(items) => 1 + items_nesting(items),
        Doc::Object(members) => 1 + members_nesting(members),
        _ => 0,
    }
}

/// The deepest nesting among `items`.
pub open spec fn items_nesting(items: Seq<Doc>) -> nat
    decreases items,
{
    if items.len() == 0 {
        0
    } else {
        let a = nesting(items[0]);
        let b = items_nesting(items.subrange(1, items.len() as int));
        if a >= b {
            a
        } else {
            b
        }
    }
}

/// The deepest nesting among the values of `members`.
pub open spec fn members_nesting(members: Seq<(Seq<u8>, Doc)>) -> nat
    decreases members,
{
    if members.len() == 0 {
        0
    } else {
        let a = nesting(members[0].1);
        let b = members_nesting(members.subrange(1, members.len() as int));
        if a >= b {
            a
        } else {
            b
        }
    }
}

/// Whether the writer writes a document as it is: its numbers are integers
/// (a negative one held as signed), and its strings and keys are UTF-8.
pub open spec fn well_formed(doc: Doc) -> bool
    decreases doc,
{
    match doc {
        Doc::Number(n) => match n {
            ParserNumber::U64(_) => true,
            ParserNumber::I64(m) => m < 0,
            ParserNumber::Float { .. } => false,
        },
        Doc::Str(v) => valid_utf8(v),
        Doc::Array(items) => items_well_formed(items),
        Doc::Object(members) => members_well_formed(members),
        _ => true,
    }
}

/// Whether all of `items` are well formed.
pub open spec fn items_well_formed(items: Seq<Doc>) -> bool
    decreases items,
{
    items.len() == 0 || (well_formed(items[0]) && items_well_formed(items.subrange(1, items.len() as int)))
}

/// Whether all keys and values of `members` are well formed.
pub open spec fn members_well_formed(members: Seq<(Seq<u8>, Doc)>) -> bool
    decreases members,
{
    members.len() == 0 || (valid_utf8(members[0].0) && well_formed(members[0].1) && members_well_formed(
        members.subrange(1, members.len() as int),
    ))
}

/// The events of a number: an integer, or nothing for a float, which the
/// writer writes through its text.
pub open spec fn number_events(n: ParserNumber) -> Seq<Event> {
    match n {
        ParserNumber::U64(m) => seq![Event::Integer(m as int)],
        ParserNumber::I64(m) => seq![Event::Integer(m as int)],
        ParserNumber::Float { .. } => Seq::empty(),
    }
}

/// The events in which the value visitors lay out a document.
pub open spec fn doc_events(doc: Doc) -> Seq<Event>
    decreases doc,
{
    match doc {
        Doc::Null => seq![Event::Null],
        Doc::Bool(b) => seq![Event::Bool(b)],
        Doc::Number(n) => number_events(n),
        Doc::Str(v) => string_events(v),
        Doc::Array(items) => seq![Event::BeginArray] + item_events(items, true) + seq![Event::EndArray],
        Doc::Object(members) => seq![Event::BeginObject] + member_events(members, true) + seq![
            Event::EndObject,
        ],
    }
}

/// The events of the elements of an array.
pub open spec fn item_events(items: Seq<Doc>, first: bool) -> Seq<Event>
    decreases items,
{
    if items.len() == 0 {
        Seq::empty()
    } else {
        seq![Event::BeginArrayValue(first)] + doc_events(items[0]) + seq![Event::EndArrayValue]
            + item_events(items.subrange(1, items.len() as int), false)
    }
}

/// The events of the entries of an object.
pub open spec fn member_events(members: Seq<(Seq<u8>, Doc)>, first: bool) -> Seq<Event>
    decreases members,
{
    if members.len() == 0 {
        Seq::empty()
    } else {
        seq![Event::BeginObjectKey(first)] + string_events(members[0].0) + seq![
            Event::EndObjectKey,
            Event::BeginObjectValue,
        ] + doc_events(members[0].1) + seq![Event::EndObjectValue] + member_events(
            members.subrange(1, members.len() as int),
            false,
        )
    }
}

/// The compact text of a number.
pub open spec fn number_text(n: ParserNumber) -> Seq<u8> {
    match n {
        ParserNumber::U64(m) => decimal(m as int),
        ParserNumber::I64(m) => decimal(m as int),
        ParserNumber::Float { .. } => Seq::empty(),
    }
}

/// The compact text of a document.
pub open spec fn compact_doc(doc: Doc) -> Seq<u8>
    decreases doc,
{
    match doc {
        Doc::Null => value_bytes(Event::Null),
        Doc::Bool(b) => value_bytes(Event::Bool(b)),
        Doc::Number(n) => number_text(n),
        Doc::Str(v) => seq![QUOTE] + escaped_text(v) + seq![QUOTE],
        Doc::Array(items) => seq![0x5Bu8] + compact_items(items, true) + seq![0x5Du8],
        Doc::Object(members) => seq![0x7Bu8] + compact_members(members, true) + seq![0x7Du8],
    }
}

/// The compact text of the elements of an array, separated by commas.
pub open spec fn compact_items(items: Seq<Doc>, first: bool) -> Seq<u8>
    decreases items,
{
    if items.len() == 0 {
        Seq::empty()
    } else {
        (if first {
            Seq::empty()
        } else {
            seq![0x2Cu8]
        }) + compact_doc(items[0]) + compact_items(items.subrange(1, items.len() as int), false)
    }
}

/// The compact text of the entries of an object, separated by commas.
pub open spec fn compact_members(members: Seq<(Seq<u8>, Doc)>, first: bool) -> Seq<u8>
    decreases members,
{
    if members.len() == 0 {
        Seq::empty()
    } else {
        (if first {
            Seq::empty()
        } else {
            seq![0x2Cu8]
        }) + seq![QUOTE] + escaped_text(members[0].0) + seq![QUOTE, 0x3Au8] + compact_doc(members[0].1)
            + compact_members(members.subrange(1, members.len() as int), false)
    }
}

/// What the reader makes of the text at offset `p` with `d` levels of
/// nesting left, reading as the value visitors read a value of any kind:
/// the document and the offset after it.
pub open spec fn read_value(s: Seq<u8>, p: int, d: u8) -> Scan<Doc>
    decreases s.len() - p, 0int,
{
    if p < 0 || p > s.len() {
        Scan::Fail(ErrorCode::EofWhileParsingValue, s.len() as int)
    } else {
        proof {
            lemma_skip_ws(s, p);
        }
        match any_token(s, p, d) {
            Scan::Fail(c, a) => Scan::Fail(c, a),
            Scan::Done(t, e) => match t {
                Token::Null => Scan::Done(Doc::Null, e),
                Token::Bool(b) => Scan::Done(Doc::Bool(b), e),
                Token::Number(n) => Scan::Done(Doc::Number(n), e),
                Token::Str => match scan_str(s, e, true) {
                    Scan::Done(b, e2) => if valid_utf8(b) {
                        Scan::Done(Doc::Str(b), e2)
                    } else {
                        Scan::Fail(ErrorCode::InvalidUnicodeCodePoint, e2)
                    },
                    Scan::Fail(c, a) => Scan::Fail(c, a),
                },
                Token::Array => match read_items(s, e, true, (d - 1) as u8, ErrorCode::EofWhileParsingArray) {
                    Scan::Done(items, e2) => Scan::Done(Doc::Array(items), e2),
                    Scan::Fail(c, a) => Scan::Fail(c, a),
                },
                Token::IdMap => match read_items(s, e, true, (d - 1) as u8, ErrorCode::EofWhileParsingIdMap) {
                    Scan::Done(items, e2) => Scan::Done(Doc::Array(items), e2),
                    Scan::Fail(c, a) => Scan::Fail(c, a),
                },
                Token::Object => match read_members(s, e, true, (d - 1) as u8) {
                    Scan::Done(members, e2) => Scan::Done(Doc::Object(members), e2),
                    Scan::Fail(c, a) => Scan::Fail(c, a),
                },
            },
        }
    }
}

/// The elements of an array from offset `p`, up to and with its closing
/// bracket (`eof` is the error at the end of the input).
pub open spec fn read_items(s: Seq<u8>, p: int, first: bool, d: u8, eof: ErrorCode) -> Scan<Seq<Doc>>
    decreases s.len() - p, 1int,
{
    if p < 0 || p > s.len() {
        Scan::Fail(eof, s.len() as int)
    } else {
        match next_element(s, p, first) {
            Scan::Fail(c, a) => Scan::Fail(c, a),
            Scan::Done(more, k) => if !more {
                match scan_close_bracket(s, k, eof) {
                    Scan::Done(_, e) => Scan::Done(Seq::empty(), e),
                    Scan::Fail(c, a) => Scan::Fail(c, a),
                }
            } else if k < p || k > s.len() {
                Scan::Fail(ErrorCode::ExpectedSomeValue, k)
            } else {
                match read_value(s, k, d) {
                    Scan::Fail(c, a) => Scan::Fail(c, a),
                    Scan::Done(v, e) => if p < e <= s.len() {
                        match read_items(s, e, false, d, eof) {
                            Scan::Done(vs, e2) => Scan::Done(seq![v] + vs, e2),
                            Scan::Fail(c, a) => Scan::Fail(c, a),
                        }
                    } else {
                        Scan::Fail(ErrorCode::ExpectedSomeValue, e)
                    },
                }
            },
        }
    }
}

/// The entries of an object from offset `p`, up to and with its closing
/// brace: each a string key, a colon and a value.
pub open spec fn read_members(s: Seq<u8>, p: int, first: bool, d: u8) -> Scan<Seq<(Seq<u8>, Doc)>>
    decreases s.len() - p, 1int,
{
    if p < 0 || p > s.len() {
        Scan::Fail(ErrorCode::EofWhileParsingObject, s.len() as int)
    } else {
        match next_key(s, p, first) {
            Scan::Fail(c, a) => Scan::Fail(c, a),
            Scan::Done(more, k) => if !more {
                match scan_close_brace(s, k) {
                    Scan::Done(_, e) => Scan::Done(Seq::empty(), e),
                    Scan::Fail(c, a) => Scan::Fail(c, a),
                }
            } else {
                match scan_str(s, k + 1, true) {
                    Scan::Fail(c, a) => Scan::Fail(c, a),
                    Scan::Done(key, q) => if !valid_utf8(key) {
                        Scan::Fail(ErrorCode::InvalidUnicodeCodePoint, q)
                    } else {
                        match scan_colon(s, q) {
                            Scan::Fail(c, a) => Scan::Fail(c, a),
                            Scan::Done(_, v) => if v < p || v > s.len() {
                                Scan::Fail(ErrorCode::ExpectedSomeValue, v)
                            } else {
                                match read_value(s, v, d) {
                                    Scan::Fail(c, a) => Scan::Fail(c, a),
                                    Scan::Done(val, e) => if p < e <= s.len() {
                                        match read_members(s, e, false, d) {
                                            Scan::Done(ms, e2) => Scan::Done(seq![(key, val)] + ms, e2),
                                            Scan::Fail(c, a) => Scan::Fail(c, a),
                                        }
                                    } else {
                                        Scan::Fail(ErrorCode::ExpectedSomeValue, e)
                                    },
                                }
                            },
                        }
                    },
                }
            },
        }
    }
}

/// The compact text of events one after the other.
proof fn lemma_compact_text_concat(a: Seq<Event>, b: Seq<Event>)
    ensures
        compact_text(a + b) == compact_text(a) + compact_text(b),
    decreases a.len(),
{
    if a.len() == 0 {
        assert(a + b =~= b);
    } else {
        assert((a + b).drop_first() =~= a.drop_first() + b);
        assert((a + b)[0] == a[0]);
        lemma_compact_text_concat(a.drop_first(), b);
        let h = compact_text(seq![a[0]]);
        let first = if crate::ser::is_value_event(a[0]) {
            value_bytes(a[0])
        } else {
            crate::ser::compact_layout(a[0])
        };
        assert(first + (compact_text(a.drop_first()) + compact_text(b)) =~= (first + compact_text(
            a.drop_first(),
        )) + compact_text(b));
    }
}

/// The compact text of one event.
proof fn lemma_compact_text_one(ev: Event)
    ensures
        compact_text(seq![ev]) == if crate::ser::is_value_event(ev) {
            value_bytes(ev)
        } else {
            crate::ser::compact_layout(ev)
        },
{
    reveal_with_fuel(compact_text, 2);
    assert(seq![ev].drop_first() =~= Seq::<Event>::empty());
    let t = if crate::ser::is_value_event(ev) {
        value_bytes(ev)
    } else {
        crate::ser::compact_layout(ev)
    };
    assert(t + Seq::<u8>::empty() =~= t);
}

/// The compact text of a string's events.
proof fn lemma_compact_string(v: Seq<u8>)
    ensures
        compact_text(string_events(v)) == seq![QUOTE] + escaped_text(v) + seq![QUOTE],
{
    lemma_compact_run(string_events(v));
    lemma_string_events(CompactFormatter, v);
}

/// The compact text of the events of a document is its compact text.
pub proof fn lemma_doc_text(doc: Doc)
    ensures
        compact_text(doc_events(doc)) == compact_doc(doc),
    decreases doc,
{
    match doc {
        Doc::Null => lemma_compact_text_one(Event::Null),
        Doc::Bool(b) => lemma_compact_text_one(Event::Bool(b)),
        Doc::Number(n) => {
            match n {
                ParserNumber::U64(m) => lemma_compact_text_one(Event::Integer(m as int)),
                ParserNumber::I64(m) => lemma_compact_text_one(Event::Integer(m as int)),
                ParserNumber::Float { .. } => {},
            }
        },
        Doc::Str(v) => lemma_compact_string(v),
        Doc::Array(items) => {
            lemma_items_text(items, true);
            lemma_compact_text_concat(seq![Event::BeginArray] + item_events(items, true), seq![Event::EndArray]);
            lemma_compact_text_concat(seq![Event::BeginArray], item_events(items, true));
            lemma_compact_text_one(Event::BeginArray);
            lemma_compact_text_one(Event::EndArray);
        },
        Doc::Object(members) => {
            lemma_members_text(members, true);
            lemma_compact_text_concat(seq![Event::BeginObject] + member_events(members, true), seq![Event::EndObject]);
            lemma_compact_text_concat(seq![Event::BeginObject], member_events(members, true));
            lemma_compact_text_one(Event::BeginObject);
            lemma_compact_text_one(Event::EndObject);
        },
    }
}

/// The compact text of the events of array elements.
proof fn lemma_items_text(items: Seq<Doc>, first: bool)
    ensures
        compact_text(item_events(items, first)) == compact_items(items, first),
    decreases items,
{
    if items.len() > 0 {
        let rest = items.subrange(1, items.len() as int);
        lemma_doc_text(items[0]);
        lemma_items_text(rest, false);
        let a = seq![Event::BeginArrayValue(first)];
        let b = doc_events(items[0]);
        let c = seq![Event::EndArrayValue];
        let r = item_events(rest, false);
        lemma_compact_text_concat(a + b + c, r);
        lemma_compact_text_concat(a + b, c);
        lemma_compact_text_concat(a, b);
        lemma_compact_text_one(Event::BeginArrayValue(first));
        lemma_compact_text_one(Event::EndArrayValue);
        assert(compact_text(c) =~= Seq::<u8>::empty());
    }
}

/// The compact text of the events of object entries.
proof fn lemma_members_text(members: Seq<(Seq<u8>, Doc)>, first: bool)
    ensures
        compact_text(member_events(members, first)) == compact_members(members, first),
    decreases members,
{
    if members.len() > 0 {
        let rest = members.subrange(1, members.len() as int);
        lemma_doc_text(members[0].1);
        lemma_members_text(rest, false);
        lemma_compact_string(members[0].0);
        let a = seq![Event::BeginObjectKey(first)];
        let k = string_events(members[0].0);
        let m = seq![Event::EndObjectKey, Event::BeginObjectValue];
        let v = doc_events(members[0].1);
        let c = seq![Event::EndObjectValue];
        let r = member_events(rest, false);
        lemma_compact_text_concat(a + k + m + v + c, r);
        lemma_compact_text_concat(a + k + m + v, c);
        lemma_compact_text_concat(a + k + m, v);
        lemma_compact_text_concat(a + k, m);
        lemma_compact_text_concat(a, k);
        lemma_compact_text_one(Event::BeginObjectKey(first));
        lemma_compact_text_one(Event::EndObjectValue);
        lemma_compact_text_concat(seq![Event::EndObjectKey], seq![Event::BeginObjectValue]);
        assert(m =~= seq![Event::EndObjectKey] + seq![Event::BeginObjectValue]);
        lemma_compact_text_one(Event::EndObjectKey);
        lemma_compact_text_one(Event::BeginObjectValue);
        assert(compact_text(c) =~= Seq::<u8>::empty());
        let sep: Seq<u8> = if first {
            Seq::empty()
        } else {
            seq![0x2Cu8]
        };
        assert(compact_text(m) =~= seq![0x3Au8]);
        assert(sep + (seq![QUOTE] + escaped_text(members[0].0) + seq![QUOTE]) + seq![0x3Au8] + compact_doc(
            members[0].1,
        ) + Seq::<u8>::empty() + compact_members(rest, false) =~= compact_members(members, first));
    }
}

/// The compact formatter writes a document as its compact text.
pub proof fn lemma_doc_layout(doc: Doc)
    ensures
        run(CompactFormatter, doc_events(doc)) == Some((CompactFormatter, compact_doc(doc))),
{
    lemma_compact_run(doc_events(doc));
    lemma_doc_text(doc);
}

/// The text of a well-formed document begins with a byte that begins a
/// value.
pub proof fn lemma_doc_begins(doc: Doc)
    requires
        well_formed(doc),
    ensures
        compact_doc(doc).len() > 0,
        begins_value(compact_doc(doc)[0]),
{
    match doc {
        Doc::Number(n) => {
            match n {
                ParserNumber::U64(m) => {
                    lemma_digits_of(m as nat);
                    assert(0x30 <= digits_of(m as nat)[0] <= 0x39);
                },
                ParserNumber::I64(m) => {},
                ParserNumber::Float { .. } => {},
            }
        },
        _ => {},
    }
}

/// Bytes written at `p` as two parts, one after the other.
pub(crate) proof fn lemma_parts(s: Seq<u8>, p: int, a: Seq<u8>, b: Seq<u8>)
    requires
        0 <= p,
        p + a.len() + b.len() <= s.len(),
        s.subrange(p, p + a.len() + b.len()) == a + b,
    ensures
        s.subrange(p, p + a.len()) == a,
        s.subrange(p + a.len(), p + a.len() + b.len()) == b,
{
    assert(s.subrange(p, p + a.len()) =~= a) by {
        assert forall|k: int| 0 <= k < a.len() implies #[trigger] s.subrange(p, p + a.len())[k] == a[k] by {
            assert(s.subrange(p, p + a.len() + b.len())[k] == s[p + k]);
            assert((a + b)[k] == a[k]);
        }
    }
    assert(s.subrange(p + a.len(), p + a.len() + b.len()) =~= b) by {
        assert forall|k: int| 0 <= k < b.len() implies #[trigger] s.subrange(p + a.len(), p + a.len() + b.len())[k]
            == b[k] by {
            assert(s.subrange(p, p + a.len() + b.len())[a.len() + k] == s[p + a.len() + k]);
            assert((a + b)[a.len() + k] == b[k]);
        }
    }
}

/// The reader takes a written `null`, `true` or `false` as that token.
pub(crate) proof fn lemma_word_token(doc: Doc, s: Seq<u8>, i: int, d: u8)
    requires
        doc is Null || doc is Bool,
        0 <= i,
        i + compact_doc(doc).len() <= s.len(),
        s.subrange(i, i + compact_doc(doc).len()) == compact_doc(doc),
    ensures
        any_token(s, i, d) == Scan::Done(
            match doc {
                Doc::Bool(b) => Token::Bool(b),
                _ => Token::Null,
            },
            i + compact_doc(doc).len(),
        ),
{
    let ev = match doc {
        Doc::Bool(b) => Event::Bool(b),
        _ => Event::Null,
    };
    assert(value_bytes(Event::Null) =~= seq![0x6Eu8, 0x75u8, 0x6Cu8, 0x6Cu8]);
    assert(value_bytes(Event::Bool(true)) =~= seq![0x74u8, 0x72u8, 0x75u8, 0x65u8]);
    assert(value_bytes(Event::Bool(false)) =~= seq![0x66u8, 0x61u8, 0x6Cu8, 0x73u8, 0x65u8]);
    assert(compact_doc(doc) == value_bytes(ev));
    lemma_word_reads_back(ev, s, i);
    assert(skip_ws(s, i) == i);
    assert(value_bytes(Event::Null).drop_first() =~= seq![0x75u8, 0x6Cu8, 0x6Cu8]);
    assert(value_bytes(Event::Bool(true)).drop_first() =~= seq![0x72u8, 0x75u8, 0x65u8]);
    assert(value_bytes(Event::Bool(false)).drop_first() =~= seq![0x61u8, 0x6Cu8, 0x73u8, 0x65u8]);
}

/// The reader takes a written integer as that number, when it ends the
/// input or a byte that does not continue a number follows it.
pub(crate) proof fn lemma_number_token(n: ParserNumber, s: Seq<u8>, i: int, d: u8)
    requires
        well_formed(Doc::Number(n)),
        0 <= i,
        i + number_text(n).len() <= s.len(),
        s.subrange(i, i + number_text(n).len()) == number_text(n),
        ends_number(s, i + number_text(n).len()),
    ensures
        any_token(s, i, d) == Scan::Done(Token::Number(n), i + number_text(n).len()),
{
    match n {
        ParserNumber::U64(m) => {
            lemma_digits_of(m as nat);
            assert(number_text(n) == digits_of(m as nat));
            assert(s[i] == number_text(n)[0]);
            lemma_integer_reads_back(m, s, i, true);
        },
        ParserNumber::I64(m) => {
            lemma_i64_reads_back(m, s, i);
        },
        ParserNumber::Float { .. } => {},
    }
    assert(skip_ws(s, i) == i);
}

/// Reading back what the compact writer makes of a document: its text,
/// read from where it stands as a value of any kind with more levels of
/// nesting left than the document has, gives back the document and ends
/// where the text does.  A number at the top must end the input or be
/// followed by a byte that does not continue it.
#[verifier::spinoff_prover]
#[verifier::rlimit(40)]
pub proof fn lemma_doc_reads_back(doc: Doc, s: Seq<u8>, i: int, d: u8)
    requires
        well_formed(doc),
        nesting(doc) < d,
        0 <= i,
        i + compact_doc(doc).len() <= s.len(),
        s.subrange(i, i + compact_doc(doc).len()) == compact_doc(doc),
        doc is Number ==> ends_number(s, i + compact_doc(doc).len()),
    ensures
        read_value(s, i, d) == Scan::Done(doc, i + compact_doc(doc).len()),
    decreases doc,
{
    let t = compact_doc(doc);
    lemma_doc_begins(doc);
    assert(s[i] == s.subrange(i, i + t.len())[0]);
    assert(skip_ws(s, i) == i);
    match doc {
        Doc::Null => lemma_word_token(doc, s, i, d),
        Doc::Bool(b) => lemma_word_token(doc, s, i, d),
        Doc::Number(n) => lemma_number_token(n, s, i, d),
        Doc::Str(v) => {
            let e = escaped_text(v);
            assert(t =~= seq![QUOTE] + (e + seq![QUOTE]));
            lemma_parts(s, i, seq![QUOTE], e + seq![QUOTE]);
            lemma_string_reads_back(v, s, i + 1, true);
        },
        Doc::Array(items) => {
            let body = compact_items(items, true) + seq![0x5Du8];
            assert(t =~= seq![0x5Bu8] + body);
            lemma_parts(s, i, seq![0x5Bu8], body);
            assert(s[i + 1] == s.subrange(i + 1, i + 1 + body.len())[0]);
            if items.len() > 0 {
                lemma_doc_begins(items[0]);
                assert(body[0] == compact_doc(items[0])[0]);
            }
            lemma_items_read_back(items, true, s, i + 1, (d - 1) as u8, ErrorCode::EofWhileParsingArray);
        },
        Doc::Object(members) => {
            let body = compact_members(members, true) + seq![0x7Du8];
            assert(t =~= seq![0x7Bu8] + body);
            lemma_parts(s, i, seq![0x7Bu8], body);
            lemma_members_read_back(members, true, s, i + 1, (d - 1) as u8);
        },
    }
}

/// Reading back the compact text of array elements and the closing
/// bracket: the elements come back, and the reading ends past the bracket.
#[verifier::spinoff_prover]
#[verifier::rlimit(40)]
proof fn lemma_items_read_back(items: Seq<Doc>, first: bool, s: Seq<u8>, p: int, d: u8, eof: ErrorCode)
    requires
        items_well_formed(items),
        items_nesting(items) < d,
        eof == ErrorCode::EofWhileParsingArray || eof == ErrorCode::EofWhileParsingIdMap,
        0 <= p,
        p + compact_items(items, first).len() + 1 <= s.len(),
        s.subrange(p, p + compact_items(items, first).len() + 1) == compact_items(items, first) + seq![0x5Du8],
    ensures
        read_items(s, p, first, d, eof) == Scan::Done(items, p + compact_items(items, first).len() + 1),
    decreases items,
{
    let body = compact_items(items, first);
    if items.len() == 0 {
        assert(body + seq![0x5Du8] =~= seq![0x5Du8]);
        assert(seq![0x5Du8].drop_last() =~= Seq::<u8>::empty());
        lemma_closing_reads_back(s, p, first, seq![0x5Du8], 0x5D);
        assert(items =~= Seq::<Doc>::empty());
    } else {
        let rest = items.subrange(1, items.len() as int);
        let sep: Seq<u8> = if first {
            Seq::empty()
        } else {
            seq![0x2Cu8]
        };
        let c0 = compact_doc(items[0]);
        let tail = compact_items(rest, false) + seq![0x5Du8];
        assert(body + seq![0x5Du8] =~= sep + (c0 + tail));
        lemma_parts(s, p, sep, c0 + tail);
        let k = p + sep.len();
        lemma_parts(s, k, c0, tail);
        lemma_doc_begins(items[0]);
        assert(s[k] == s.subrange(k, k + c0.len())[0]);
        assert(sep.len() > 0 ==> sep.drop_first() =~= Seq::<u8>::empty());
        lemma_separator_reads_back(s, p, first, sep);
        let e = k + c0.len();
        assert(s[e] == s.subrange(e, e + tail.len())[0]);
        if rest.len() > 0 {
            assert(tail[0] == 0x2C);
        } else {
            assert(tail[0] == 0x5D);
        }
        lemma_doc_reads_back(items[0], s, k, d);
        lemma_items_read_back(rest, false, s, e, d, eof);
        assert(seq![items[0]] + rest =~= items);
    }
}

/// Reading back the compact text of object entries and the closing brace:
/// the entries come back, and the reading ends past the brace.
#[verifier::spinoff_prover]
#[verifier::rlimit(40)]
proof fn lemma_members_read_back(members: Seq<(Seq<u8>, Doc)>, first: bool, s: Seq<u8>, p: int, d: u8)
    requires
        members_well_formed(members),
        members_nesting(members) < d,
        0 <= p,
        p + compact_members(members, first).len() + 1 <= s.len(),
        s.subrange(p, p + compact_members(members, first).len() + 1) == compact_members(members, first) + seq![
            0x7Du8,
        ],
    ensures
        read_members(s, p, first, d) == Scan::Done(members, p + compact_members(members, first).len() + 1),
    decreases members,
{
    let body = compact_members(members, first);
    if members.len() == 0 {
        assert(body + seq![0x7Du8] =~= seq![0x7Du8]);
        assert(seq![0x7Du8].drop_last() =~= Seq::<u8>::empty());
        lemma_closing_reads_back(s, p, first, seq![0x7Du8], 0x7D);
        assert(members =~= Seq::<(Seq<u8>, Doc)>::empty());
    } else {
        let rest = members.subrange(1, members.len() as int);
        let key = members[0].0;
        let val = members[0].1;
        let sep: Seq<u8> = if first {
            Seq::empty()
        } else {
            seq![0x2Cu8]
        };
        let esc = escaped_text(key);
        let c0 = compact_doc(val);
        let tail = compact_members(rest, false) + seq![0x7Du8];
        let x4 = c0 + tail;
        let x3 = seq![0x3Au8] + x4;
        let x2 = (esc + seq![QUOTE]) + x3;
        let x1 = seq![QUOTE] + x2;
        assert(body + seq![0x7Du8] =~= sep + x1);
        lemma_parts(s, p, sep, x1);
        let k = p + sep.len();
        lemma_parts(s, k, seq![QUOTE], x2);
        lemma_parts(s, k + 1, esc + seq![QUOTE], x3);
        let q = k + 1 + esc.len() + 1;
        lemma_parts(s, q, seq![0x3Au8], x4);
        let v = q + 1;
        lemma_parts(s, v, c0, tail);
        assert(s[k] == s.subrange(k, k + 1)[0]);
        assert(sep.len() > 0 ==> sep.drop_first() =~= Seq::<u8>::empty());
        lemma_separator_reads_back(s, p, first, sep);
        lemma_string_reads_back(key, s, k + 1, true);
        assert(seq![0x3Au8].drop_first() =~= Seq::<u8>::empty());
        lemma_colon_reads_back(s, q, seq![0x3Au8]);
        let e = v + c0.len();
        assert(s[e] == s.subrange(e, e + tail.len())[0]);
        if rest.len() > 0 {
            assert(tail[0] == 0x2C);
        } else {
            assert(tail[0] == 0x7D);
        }
        lemma_doc_reads_back(val, s, v, d);
        lemma_members_read_back(rest, false, s, e, d);
        assert(seq![(key, val)] + rest =~= members);
    }
}

/// The round trip of a document through the compact writer and the
/// reader: the writer lays out the events of any well-formed document as
/// its compact text, and the reader, given that text and whatever follows
/// it, reads the document back, with any nesting limit above the
/// document's and ending where the text ends.  A number alone must end
/// the input or be followed by a byte that does not continue it.
pub proof fn lemma_compact_round_trip(doc: Doc, after: Seq<u8>, d: u8)
    requires
        well_formed(doc),
        nesting(doc) < d,
        doc is Number ==> ends_number(compact_doc(doc) + after, compact_doc(doc).len() as int),
    ensures
        run(CompactFormatter, doc_events(doc)) == Some((CompactFormatter, compact_doc(doc))),
        read_value(compact_doc(doc) + after, 0, d) == Scan::Done(doc, compact_doc(doc).len() as int),
{
    let t = compact_doc(doc);
    lemma_doc_layout(doc);
    assert((t + after).subrange(0, t.len() as int) =~= t);
    lemma_doc_reads_back(doc, t + after, 0, d);
}

/// Whether all keys of `entries` are integers as the writer writes them
/// and all their values are well formed.
pub open spec fn entries_well_formed(entries: Seq<(ParserNumber, Doc)>) -> bool
    decreases entries,
{
    entries.len() == 0 || (well_formed(Doc::Number(entries[0].0)) && well_formed(entries[0].1) && entries_well_formed(
        entries.subrange(1, entries.len() as int),
    ))
}

/// The deepest nesting among the values of `entries`.
pub open spec fn entries_nesting(entries: Seq<(ParserNumber, Doc)>) -> nat
    decreases entries,
{
    if entries.len() == 0 {
        0
    } else {
        let a = nesting(entries[0].1);
        let b = entries_nesting(entries.subrange(1, entries.len() as int));
        if a >= b {
            a
        } else {
            b
        }
    }
}

/// The events of the entries of an id map: each an integer key and a value.
pub open spec fn entry_events(entries: Seq<(ParserNumber, Doc)>, first: bool) -> Seq<Event>
    decreases entries,
{
    if entries.len() == 0 {
        Seq::empty()
    } else {
        seq![Event::BeginIdMapKey(first)] + number_events(entries[0].0) + seq![
            Event::EndIdMapKey,
            Event::BeginIdMapValue,
        ] + doc_events(entries[0].1) + seq![Event::EndIdMapValue] + entry_events(
            entries.subrange(1, entries.len() as int),
            false,
        )
    }
}

/// The events in which the writer lays out an id map.
pub open spec fn id_map_events(entries: Seq<(ParserNumber, Doc)>) -> Seq<Event> {
    seq![Event::BeginIdMap] + entry_events(entries, true) + seq![Event::EndIdMap]
}

/// The compact text of the entries of an id map, separated by commas.
pub open spec fn compact_entries(entries: Seq<(ParserNumber, Doc)>, first: bool) -> Seq<u8>
    decreases entries,
{
    if entries.len() == 0 {
        Seq::empty()
    } else {
        (if first {
            Seq::empty()
        } else {
            seq![0x2Cu8]
        }) + number_text(entries[0].0) + seq![0x3Au8] + compact_doc(entries[0].1) + compact_entries(
            entries.subrange(1, entries.len() as int),
            false,
        )
    }
}

/// The compact text of an id map: `[:`, the entries, and `]`.
pub open spec fn compact_id_map(entries: Seq<(ParserNumber, Doc)>) -> Seq<u8> {
    seq![0x5Bu8, 0x3Au8] + compact_entries(entries, true) + seq![0x5Du8]
}

/// The entries of an id map from offset `p`, up to and with its closing
/// bracket, as the id map reader reads them: each a number key, a colon
/// and a value of any kind.  A key that starts no number is refused; the
/// typed reader reports it as a value of the wrong type, which this model
/// marks with `IdMapKeyMustBeAnInteger`.
pub open spec fn read_entries(s: Seq<u8>, p: int, first: bool, d: u8) -> Scan<Seq<(ParserNumber, Doc)>>
    decreases s.len() - p,
{
    if p < 0 || p > s.len() {
        Scan::Fail(ErrorCode::EofWhileParsingIdMap, s.len() as int)
    } else {
        match next_id_map_key(s, p, first) {
            Scan::Fail(c, a) => Scan::Fail(c, a),
            Scan::Done(more, k) => if !more {
                match scan_close_bracket(s, k, ErrorCode::EofWhileParsingIdMap) {
                    Scan::Done(_, e) => Scan::Done(Seq::empty(), e),
                    Scan::Fail(c, a) => Scan::Fail(c, a),
                }
            } else {
                match number_at(s, k) {
                    Scan::Fail(c, a) => Scan::Fail(c, a),
                    Scan::Done(key, q) => match key {
                        None => Scan::Fail(ErrorCode::IdMapKeyMustBeAnInteger, q),
                        Some(n) => match scan_colon(s, q) {
                            Scan::Fail(c, a) => Scan::Fail(c, a),
                            Scan::Done(_, v) => if v < p || v > s.len() {
                                Scan::Fail(ErrorCode::ExpectedSomeValue, v)
                            } else {
                                match read_value(s, v, d) {
                                    Scan::Fail(c, a) => Scan::Fail(c, a),
                                    Scan::Done(val, e) => if p < e <= s.len() {
                                        match read_entries(s, e, false, d) {
                                            Scan::Done(es, e2) => Scan::Done(seq![(n, val)] + es, e2),
                                            Scan::Fail(c, a) => Scan::Fail(c, a),
                                        }
                                    } else {
                                        Scan::Fail(ErrorCode::ExpectedSomeValue, e)
                                    },
                                }
                            },
                        },
                    },
                }
            },
        }
    }
}

/// The compact text of the events of id map entries.
proof fn lemma_entries_text(entries: Seq<(ParserNumber, Doc)>, first: bool)
    requires
        entries_well_formed(entries),
    ensures
        compact_text(entry_events(entries, first)) == compact_entries(entries, first),
    decreases entries,
{
    if entries.len() > 0 {
        let rest = entries.subrange(1, entries.len() as int);
        let n = entries[0].0;
        lemma_doc_text(entries[0].1);
        lemma_doc_text(Doc::Number(n));
        lemma_entries_text(rest, false);
        let a = seq![Event::BeginIdMapKey(first)];
        let k = number_events(n);
        let m = seq![Event::EndIdMapKey, Event::BeginIdMapValue];
        let v = doc_events(entries[0].1);
        let c = seq![Event::EndIdMapValue];
        let r = entry_events(rest, false);
        lemma_compact_text_concat(a + k + m + v + c, r);
        lemma_compact_text_concat(a + k + m + v, c);
        lemma_compact_text_concat(a + k + m, v);
        lemma_compact_text_concat(a + k, m);
        lemma_compact_text_concat(a, k);
        lemma_compact_text_one(Event::BeginIdMapKey(first));
        lemma_compact_text_one(Event::EndIdMapValue);
        lemma_compact_text_concat(seq![Event::EndIdMapKey], seq![Event::BeginIdMapValue]);
        assert(m =~= seq![Event::EndIdMapKey] + seq![Event::BeginIdMapValue]);
        lemma_compact_text_one(Event::EndIdMapKey);
        lemma_compact_text_one(Event::BeginIdMapValue);
        assert(compact_text(c) =~= Seq::<u8>::empty());
        assert(compact_text(m) =~= seq![0x3Au8]);
        assert(doc_events(Doc::Number(n)) == k);
        let sep: Seq<u8> = if first {
            Seq::empty()
        } else {
            seq![0x2Cu8]
        };
        assert(sep + number_text(n) + seq![0x3Au8] + compact_doc(entries[0].1) + Seq::<u8>::empty()
            + compact_entries(rest, false) =~= compact_entries(entries, first));
    }
}

/// The compact formatter writes an id map as its compact text.
pub proof fn lemma_id_map_layout(entries: Seq<(ParserNumber, Doc)>)
    requires
        entries_well_formed(entries),
    ensures
        run(CompactFormatter, id_map_events(entries)) == Some((CompactFormatter, compact_id_map(entries))),
{
    let body = entry_events(entries, true);
    lemma_entries_text(entries, true);
    lemma_compact_text_concat(seq![Event::BeginIdMap] + body, seq![Event::EndIdMap]);
    lemma_compact_text_concat(seq![Event::BeginIdMap], body);
    lemma_compact_text_one(Event::BeginIdMap);
    lemma_compact_text_one(Event::EndIdMap);
    lemma_compact_run(id_map_events(entries));
}

/// The reader takes a written integer key as that number, when it ends the
/// input or a byte that does not continue a number follows it.
pub(crate) proof fn lemma_number_key(n: ParserNumber, s: Seq<u8>, i: int)
    requires
        well_formed(Doc::Number(n)),
        0 <= i,
        i + number_text(n).len() <= s.len(),
        s.subrange(i, i + number_text(n).len()) == number_text(n),
        ends_number(s, i + number_text(n).len()),
    ensures
        number_at(s, i) == Scan::Done(Some(n), i + number_text(n).len()),
{
    lemma_number_token(n, s, i, 1);
    lemma_doc_begins(Doc::Number(n));
    assert(s[i] == s.subrange(i, i + number_text(n).len())[0]);
    assert(skip_ws(s, i) == i);
}

/// Reading back the compact text of id map entries and the closing
/// bracket: the entries come back, and the reading ends past the bracket.
#[verifier::spinoff_prover]
#[verifier::rlimit(40)]
proof fn lemma_entries_read_back(entries: Seq<(ParserNumber, Doc)>, first: bool, s: Seq<u8>, p: int, d: u8)
    requires
        entries_well_formed(entries),
        entries_nesting(entries) < d,
        0 <= p,
        p + compact_entries(entries, first).len() + 1 <= s.len(),
        s.subrange(p, p + compact_entries(entries, first).len() + 1) == compact_entries(entries, first) + seq![
            0x5Du8,
        ],
    ensures
        read_entries(s, p, first, d) == Scan::Done(entries, p + compact_entries(entries, first).len() + 1),
    decreases entries,
{
    let body = compact_entries(entries, first);
    if entries.len() == 0 {
        assert(body + seq![0x5Du8] =~= seq![0x5Du8]);
        assert(seq![0x5Du8].drop_last() =~= Seq::<u8>::empty());
        lemma_closing_reads_back(s, p, first, seq![0x5Du8], 0x5D);
        assert(entries =~= Seq::<(ParserNumber, Doc)>::empty());
    } else {
        let rest = entries.subrange(1, entries.len() as int);
        let n = entries[0].0;
        let val = entries[0].1;
        let sep: Seq<u8> = if first {
            Seq::empty()
        } else {
            seq![0x2Cu8]
        };
        let kt = number_text(n);
        let c0 = compact_doc(val);
        let tail = compact_entries(rest, false) + seq![0x5Du8];
        let x3 = c0 + tail;
        let x2 = seq![0x3Au8] + x3;
        let x1 = kt + x2;
        assert(body + seq![0x5Du8] =~= sep + x1);
        lemma_parts(s, p, sep, x1);
        let k = p + sep.len();
        lemma_parts(s, k, kt, x2);
        let q = k + kt.len();
        lemma_parts(s, q, seq![0x3Au8], x3);
        let v = q + 1;
        lemma_parts(s, v, c0, tail);
        lemma_doc_begins(Doc::Number(n));
        assert(s[k] == s.subrange(k, k + kt.len())[0]);
        assert(sep.len() > 0 ==> sep.drop_first() =~= Seq::<u8>::empty());
        lemma_separator_reads_back(s, p, first, sep);
        assert(s[q] == s.subrange(q, q + 1)[0]);
        lemma_number_key(n, s, k);
        assert(seq![0x3Au8].drop_first() =~= Seq::<u8>::empty());
        lemma_colon_reads_back(s, q, seq![0x3Au8]);
        let e = v + c0.len();
        assert(s[e] == s.subrange(e, e + tail.len())[0]);
        if rest.len() > 0 {
            assert(tail[0] == 0x2C);
        } else {
            assert(tail[0] == 0x5D);
        }
        lemma_doc_reads_back(val, s, v, d);
        lemma_entries_read_back(rest, false, s, e, d);
        assert(seq![(n, val)] + rest =~= entries);
    }
}

/// The round trip of an id map through the compact writer and the id map
/// reader: the writer lays out the events of any id map whose keys are
/// integers and whose values are well formed as its compact text, and the
/// reader, given that text and whatever follows it, finds the `[:` that
/// starts an id map and reads its entries back, keys and values in order,
/// with any nesting limit above that of the values, ending where the text
/// ends.
pub proof fn lemma_id_map_round_trip(entries: Seq<(ParserNumber, Doc)>, after: Seq<u8>, d: u8)
    requires
        entries_well_formed(entries),
        entries_nesting(entries) < d,
    ensures
        run(CompactFormatter, id_map_events(entries)) == Some((CompactFormatter, compact_id_map(entries))),
        id_map_start(compact_id_map(entries) + after, 0) == Scan::Done(true, 2),
        read_entries(compact_id_map(entries) + after, 2, true, d) == Scan::Done(
            entries,
            compact_id_map(entries).len() as int,
        ),
{
    let t = compact_id_map(entries);
    let s = t + after;
    let body = compact_entries(entries, true) + seq![0x5Du8];
    lemma_id_map_layout(entries);
    assert(t =~= seq![0x5Bu8, 0x3Au8] + body);
    assert(s[0] == 0x5B);
    assert(s[1] == 0x3A);
    assert(skip_ws(s, 0) == 0);
    assert(s.subrange(2, 2 + body.len() as int) =~= body);
    lemma_entries_read_back(entries, true, s, 2, d);
}

/// Skipping what the compact writer makes of a document: its text, from
/// where it stands, is skipped whole as one value, however deeply it nests.
/// A number at the top must end the input or be followed by a byte that
/// does not continue it.
#[verifier::spinoff_prover]
#[verifier::rlimit(40)]
pub proof fn lemma_doc_skips(doc: Doc, s: Seq<u8>, i: int)
    requires
        well_formed(doc),
        0 <= i,
        i + compact_doc(doc).len() <= s.len(),
        s.subrange(i, i + compact_doc(doc).len()) == compact_doc(doc),
        doc is Number ==> ends_number(s, i + compact_doc(doc).len()),
    ensures
        skip_value(s, i) == Scan::<()>::Done((), i + compact_doc(doc).len()),
    decreases doc,
{
    let t = compact_doc(doc);
    lemma_doc_begins(doc);
    assert(s[i] == s.subrange(i, i + t.len())[0]);
    assert(skip_ws(s, i) == i);
    match doc {
        Doc::Null => {
            lemma_word_reads_back(Event::Null, s, i);
            assert(value_bytes(Event::Null) =~= seq![0x6Eu8, 0x75u8, 0x6Cu8, 0x6Cu8]);
            assert(value_bytes(Event::Null).drop_first() =~= seq![0x75u8, 0x6Cu8, 0x6Cu8]);
        },
        Doc::Bool(b) => {
            lemma_word_reads_back(Event::Bool(b), s, i);
            assert(value_bytes(Event::Bool(true)) =~= seq![0x74u8, 0x72u8, 0x75u8, 0x65u8]);
            assert(value_bytes(Event::Bool(false)) =~= seq![0x66u8, 0x61u8, 0x6Cu8, 0x73u8, 0x65u8]);
            assert(value_bytes(Event::Bool(true)).drop_first() =~= seq![0x72u8, 0x75u8, 0x65u8]);
            assert(value_bytes(Event::Bool(false)).drop_first() =~= seq![0x61u8, 0x6Cu8, 0x73u8, 0x65u8]);
        },
        Doc::Number(n) => {
            match n {
                ParserNumber::U64(m) => {
                    lemma_digits_of(m as nat);
                    lemma_integer_skips(m as nat, s, i);
                },
                ParserNumber::I64(m) => {
                    let dg = digits_of((-m) as nat);
                    assert(t == seq![0x2Du8] + dg);
                    lemma_parts(s, i, seq![0x2Du8], dg);
                    lemma_integer_skips((-m) as nat, s, i + 1);
                },
                ParserNumber::Float { .. } => {},
            }
        },
        Doc::Str(v) => {
            let e = escaped_text(v);
            assert(t =~= seq![QUOTE] + (e + seq![QUOTE]));
            lemma_parts(s, i, seq![QUOTE], e + seq![QUOTE]);
            lemma_string_skips(v, s, i + 1);
        },
        Doc::Array(items) => {
            let body = compact_items(items, true) + seq![0x5Du8];
            assert(t =~= seq![0x5Bu8] + body);
            lemma_parts(s, i, seq![0x5Bu8], body);
            assert(s[i + 1] == s.subrange(i + 1, i + 1 + body.len())[0]);
            if items.len() > 0 {
                lemma_doc_begins(items[0]);
                assert(body[0] == compact_doc(items[0])[0]);
            }
            lemma_items_skip(items, true, s, i + 1);
        },
        Doc::Object(members) => {
            let body = compact_members(members, true) + seq![0x7Du8];
            assert(t =~= seq![0x7Bu8] + body);
            lemma_parts(s, i, seq![0x7Bu8], body);
            lemma_members_skip(members, true, s, i + 1);
        },
    }
}

/// Skipping the compact text of array elements and the closing bracket.
#[verifier::spinoff_prover]
#[verifier::rlimit(40)]
proof fn lemma_items_skip(items: Seq<Doc>, first: bool, s: Seq<u8>, p: int)
    requires
        items_well_formed(items),
        0 <= p,
        p + compact_items(items, first).len() + 1 <= s.len(),
        s.subrange(p, p + compact_items(items, first).len() + 1) == compact_items(items, first) + seq![0x5Du8],
    ensures
        skip_container(s, p, 0x5B, !first) == Scan::<()>::Done((), p + compact_items(items, first).len() + 1),
    decreases items,
{
    let body = compact_items(items, first);
    if items.len() == 0 {
        assert(body + seq![0x5Du8] =~= seq![0x5Du8]);
        assert(s[p] == s.subrange(p, p + 1)[0]);
        assert(skip_ws(s, p) == p);
    } else {
        let rest = items.subrange(1, items.len() as int);
        let sep: Seq<u8> = if first {
            Seq::empty()
        } else {
            seq![0x2Cu8]
        };
        let c0 = compact_doc(items[0]);
        let tail = compact_items(rest, false) + seq![0x5Du8];
        assert(body + seq![0x5Du8] =~= sep + (c0 + tail));
        lemma_parts(s, p, sep, c0 + tail);
        let k = p + sep.len();
        lemma_parts(s, k, c0, tail);
        lemma_doc_begins(items[0]);
        assert(s[k] == s.subrange(k, k + c0.len())[0]);
        assert(s[p] == s.subrange(p, p + sep.len() + c0.len() + tail.len())[0]);
        assert(skip_ws(s, p) == p);
        let e = k + c0.len();
        assert(s[e] == s.subrange(e, e + tail.len())[0]);
        if rest.len() > 0 {
            assert(tail[0] == 0x2C);
        } else {
            assert(tail[0] == 0x5D);
        }
        lemma_doc_skips(items[0], s, k);
        lemma_items_skip(rest, false, s, e);
    }
}

/// Skipping the compact text of object entries and the closing brace.
#[verifier::spinoff_prover]
#[verifier::rlimit(40)]
proof fn lemma_members_skip(members: Seq<(Seq<u8>, Doc)>, first: bool, s: Seq<u8>, p: int)
    requires
        members_well_formed(members),
        0 <= p,
        p + compact_members(members, first).len() + 1 <= s.len(),
        s.subrange(p, p + compact_members(members, first).len() + 1) == compact_members(members, first) + seq![
            0x7Du8,
        ],
    ensures
        skip_container(s, p, 0x7B, !first) == Scan::<()>::Done((), p + compact_members(members, first).len() + 1),
    decreases members,
{
    let body = compact_members(members, first);
    if members.len() == 0 {
        assert(body + seq![0x7Du8] =~= seq![0x7Du8]);
        assert(s[p] == s.subrange(p, p + 1)[0]);
        assert(skip_ws(s, p) == p);
    } else {
        let rest = members.subrange(1, members.len() as int);
        let key = members[0].0;
        let val = members[0].1;
        let sep: Seq<u8> = if first {
            Seq::empty()
        } else {
            seq![0x2Cu8]
        };
        let esc = escaped_text(key);
        let c0 = compact_doc(val);
        let tail = compact_members(rest, false) + seq![0x7Du8];
        let x4 = c0 + tail;
        let x3 = seq![0x3Au8] + x4;
        let x2 = (esc + seq![QUOTE]) + x3;
        let x1 = seq![QUOTE] + x2;
        let k = p + sep.len();
        let q = k + 1 + esc.len() + 1;
        let v = q + 1;
        let e = v + c0.len();
        assert(s[k] == QUOTE && skip_str(s, k + 1) == Scan::<()>::Done((), q) && s[q] == 0x3A && s.subrange(
            v,
            v + x4.len(),
        ) == x4 && s[p] == (sep + x1)[0] && body.len() + 1 == e - p + tail.len()) by {
            assert(body + seq![0x7Du8] =~= sep + x1);
            lemma_parts(s, p, sep, x1);
            lemma_parts(s, k, seq![QUOTE], x2);
            lemma_parts(s, k + 1, esc + seq![QUOTE], x3);
            lemma_parts(s, q, seq![0x3Au8], x4);
            assert(s[k] == s.subrange(k, k + 1)[0]);
            assert(s[q] == s.subrange(q, q + 1)[0]);
            assert(s[p] == s.subrange(p, p + sep.len() + x1.len())[0]);
            lemma_string_skips(key, s, k + 1);
        }
        assert(skip_ws(s, p) == p);
        assert(skip_ws(s, k) == k);
        assert(skip_ws(s, q) == q);
        lemma_parts(s, v, c0, tail);
        let e = v + c0.len();
        assert(s[e] == s.subrange(e, e + tail.len())[0]);
        if rest.len() > 0 {
            assert(tail[0] == 0x2C);
        } else {
            assert(tail[0] == 0x7D);
        }
        lemma_doc_skips(val, s, v);
        lemma_members_skip(rest, false, s, e);
    }
}

/// Skipping a written integer key of an id map: a minus sign, if any, and
/// the digits, up to a byte that does not continue the number.
pub(crate) proof fn lemma_key_skips(n: ParserNumber, s: Seq<u8>, k: int)
    requires
        well_formed(Doc::Number(n)),
        0 <= k,
        k + number_text(n).len() <= s.len(),
        s.subrange(k, k + number_text(n).len()) == number_text(n),
        ends_number(s, k + number_text(n).len()),
    ensures
        k < s.len(),
        s[k] == 0x2D || digit_at(s, k),
        s[k] != 0x2C && s[k] != 0x5D && s[k] != 0x3A && !is_ws(s[k]),
        (if s[k] == 0x2D {
            skip_integer(s, k + 1)
        } else {
            skip_integer(s, k)
        }) == Scan::<()>::Done((), k + number_text(n).len()),
{
    let t = number_text(n);
    match n {
        ParserNumber::U64(m) => {
            lemma_digits_of(m as nat);
            assert(s[k] == t[0]);
            lemma_integer_skips(m as nat, s, k);
        },
        ParserNumber::I64(m) => {
            let dg = digits_of((-m) as nat);
            lemma_digits_of((-m) as nat);
            assert(t == seq![0x2Du8] + dg);
            lemma_parts(s, k, seq![0x2Du8], dg);
            assert(s[k] == s.subrange(k, k + 1)[0]);
            lemma_integer_skips((-m) as nat, s, k + 1);
        },
        ParserNumber::Float { .. } => {},
    }
}

/// Skipping the compact text of id map entries and the closing bracket.
#[verifier::spinoff_prover]
#[verifier::rlimit(60)]
proof fn lemma_entries_skip(entries: Seq<(ParserNumber, Doc)>, first: bool, s: Seq<u8>, p: int)
    requires
        entries_well_formed(entries),
        0 <= p,
        p + compact_entries(entries, first).len() + 1 <= s.len(),
        s.subrange(p, p + compact_entries(entries, first).len() + 1) == compact_entries(entries, first) + seq![
            0x5Du8,
        ],
    ensures
        skip_container(s, p, 0x3A, !first) == Scan::<()>::Done((), p + compact_entries(entries, first).len() + 1),
    decreases entries,
{
    let body = compact_entries(entries, first);
    if entries.len() == 0 {
        assert(body + seq![0x5Du8] =~= seq![0x5Du8]);
        assert(s[p] == s.subrange(p, p + 1)[0]);
        assert(skip_ws(s, p) == p);
    } else {
        let rest = entries.subrange(1, entries.len() as int);
        let key = entries[0].0;
        let val = entries[0].1;
        let sep: Seq<u8> = if first {
            Seq::empty()
        } else {
            seq![0x2Cu8]
        };
        let nt = number_text(key);
        let c0 = compact_doc(val);
        let tail = compact_entries(rest, false) + seq![0x5Du8];
        let x3 = c0 + tail;
        let x2 = seq![0x3Au8] + x3;
        let k = p + sep.len();
        let q = k + nt.len();
        let v = q + 1;
        let e = v + c0.len();
        assert(s.subrange(k, q) == nt && s[q] == 0x3A && s.subrange(v, v + x3.len()) == x3 && s[p] == (sep + (nt
            + x2))[0] && body.len() + 1 == e - p + tail.len()) by {
            assert(body + seq![0x5Du8] =~= sep + (nt + x2));
            lemma_parts(s, p, sep, nt + x2);
            lemma_parts(s, k, nt, x2);
            lemma_parts(s, q, seq![0x3Au8], x3);
            assert(s[q] == s.subrange(q, q + 1)[0]);
            assert(s[p] == s.subrange(p, p + sep.len() + nt.len() + x2.len())[0]);
        }
        lemma_key_skips(key, s, k);
        assert(skip_ws(s, p) == p);
        assert(skip_ws(s, k) == k);
        assert(skip_ws(s, q) == q);
        assert(member_start(s, k, 0x3A) == Scan::<()>::Done((), v));
        lemma_parts(s, v, c0, tail);
        assert(s[e] == s.subrange(e, e + tail.len())[0]);
        if rest.len() > 0 {
            assert(tail[0] == 0x2C);
        } else {
            assert(tail[0] == 0x5D);
        }
        lemma_doc_skips(val, s, v);
        lemma_entries_skip(rest, false, s, e);
        assert(skip_member(s, k, 0x3A) == Scan::<()>::Done((), p + body.len() + 1));
    }
}

/// Skipping the compact text of an id map: `[:`, its entries and `]` are
/// skipped whole as one value, as any other value is.
#[verifier::spinoff_prover]
#[verifier::rlimit(40)]
pub proof fn lemma_id_map_skips(entries: Seq<(ParserNumber, Doc)>, s: Seq<u8>, i: int)
    requires
        entries_well_formed(entries),
        0 <= i,
        i + compact_id_map(entries).len() <= s.len(),
        s.subrange(i, i + compact_id_map(entries).len()) == compact_id_map(entries),
    ensures
        skip_value(s, i) == Scan::<()>::Done((), i + compact_id_map(entries).len()),
{
    let t = compact_id_map(entries);
    let body = compact_entries(entries, true) + seq![0x5Du8];
    assert(t =~= seq![0x5Bu8, 0x3Au8] + body);
    lemma_parts(s, i, seq![0x5Bu8, 0x3Au8], body);
    assert(s[i] == s.subrange(i, i + 2)[0]);
    assert(s[i + 1] == s.subrange(i, i + 2)[1]);
    assert(skip_ws(s, i) == i);
    lemma_entries_skip(entries, true, s, i + 2);
}

/// The elements of the document of a byte array: its bytes, as integers.
pub open spec fn byte_items(v: Seq<u8>) -> Seq<Doc> {
    v.map_values(|b: u8| Doc::Number(ParserNumber::U64(b as u64)))
}

/// The document of a byte array: an array of its bytes, as integers.
pub open spec fn bytes_doc(v: Seq<u8>) -> Doc {
    Doc::Array(byte_items(v))
}

/// The elements of a byte array are laid out as those of its document.
proof fn lemma_byte_items(v: Seq<u8>, first: bool)
    ensures
        byte_elements(v, first) == item_events(byte_items(v), first),
        items_well_formed(byte_items(v)),
        items_nesting(byte_items(v)) == 0,
    decreases v.len(),
{
    let items = byte_items(v);
    if v.len() > 0 {
        lemma_byte_items(v.drop_first(), false);
        assert(items.subrange(1, items.len() as int) =~= byte_items(v.drop_first()));
        assert(items[0] == Doc::Number(ParserNumber::U64(v[0] as u64)));
        assert(well_formed(items[0]));
        assert(nesting(items[0]) == 0);
        assert(items_well_formed(items.subrange(1, items.len() as int)));
        assert(items_nesting(items.subrange(1, items.len() as int)) == 0);
        assert(doc_events(items[0]) =~= seq![Event::Integer(v[0] as int)]);
        assert(seq![Event::BeginArrayValue(first), Event::Integer(v[0] as int), Event::EndArrayValue]
            =~= seq![Event::BeginArrayValue(first)] + doc_events(items[0]) + seq![Event::EndArrayValue]);
    } else {
        assert(items =~= Seq::<Doc>::empty());
    }
}

/// A byte array is written as the document of its bytes: its events are
/// those of an array of small integers, which is well formed and nests
/// once, so it reads back as the bytes (see `lemma_compact_round_trip`).
pub proof fn lemma_bytes_doc(v: Seq<u8>)
    ensures
        byte_array_events(v) == doc_events(bytes_doc(v)),
        well_formed(bytes_doc(v)),
        nesting(bytes_doc(v)) == 1,
{
    lemma_byte_items(v, true);
}

} // verus!
