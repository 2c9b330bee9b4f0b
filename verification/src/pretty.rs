//! Whole documents in the pretty layout: the text that a pretty formatter
//! makes of a document at a given depth, and what the reader makes of it.
use vstd::prelude::*;
use crate::de::{ParserNumber, any_token, id_map_start, next_id_map_key, next_key, number_at};
use crate::document::{
    Doc, compact_doc, doc_events, entries_nesting, entries_well_formed, entry_events, id_map_events, item_events,
    items_nesting, items_well_formed, lemma_doc_begins, lemma_doc_reads_back, lemma_doc_skips, lemma_key_skips,
    lemma_number_key,
    lemma_parts, member_events, members_nesting, members_well_formed, nesting, number_events, number_text,
    read_entries, read_items, read_members, read_value, well_formed,
};
use crate::error::ErrorCode;
use crate::grammar::{
    Scan, digit_at, is_ws, member_start, scan_colon, scan_str, skip_container, skip_integer, skip_member, skip_str, skip_value, skip_ws,
};
use crate::laws::{
    all_ws, begins_value, closing_shape, ends_number, lemma_closing_reads_back, lemma_colon_reads_back,
    lemma_repeat_ws, lemma_separator_reads_back, lemma_skip_ws_over, lemma_string_reads_back, lemma_string_skips,
    separator_shape,
};
use crate::ser::{
    Event, PrettyFormatter, escaped_text, lemma_run_concat, lemma_run_one, lemma_string_events, repeat, run,
};
use crate::text::{NEWLINE, QUOTE};

verus! {

/// The line break and indentation before an element or key at depth `m`,
/// after a comma unless it is the first.
pub open spec fn pretty_break(first: bool, unit: Seq<u8>, m: nat) -> Seq<u8> {
    (if first {
        seq![NEWLINE]
    } else {
        seq![0x2Cu8, NEWLINE]
    }) + repeat(unit, m)
}

/// What closes a container opened at depth `n`: its bracket, on a line of
/// its own and indented to `n` when the container holds values.
pub open spec fn pretty_close(nonempty: bool, unit: Seq<u8>, n: nat, bracket: u8) -> Seq<u8> {
    if nonempty {
        seq![NEWLINE] + repeat(unit, n) + seq![bracket]
    } else {
        seq![bracket]
    }
}

/// Whether a document holds no element or entry at its top, so that its
/// pretty text has no line breaks and no indentation.
pub open spec fn flat(doc: Doc) -> bool {
    match doc {
        Doc::Array(items) => items.len() == 0,
        Doc::Object(members) => members.len() == 0,
        _ => true,
    }
}

/// The pretty text of a document that starts at depth `n`, indented with
/// `unit`: scalars as in the compact text, and each element or entry of a
/// container on a line of its own.
pub open spec fn pretty_doc(doc: Doc, unit: Seq<u8>, n: nat) -> Seq<u8>
    decreases doc,
{
    match doc {
        Doc::Array(items) => seq![0x5Bu8] + pretty_items(items, true, unit, n + 1) + pretty_close(
            items.len() > 0,
            unit,
            n,
            0x5D,
        ),
        Doc::Object(members) => seq![0x7Bu8] + pretty_members(members, true, unit, n + 1) + pretty_close(
            members.len() > 0,
            unit,
            n,
            0x7D,
        ),
        _ => compact_doc(doc),
    }
}

/// The pretty text of the elements of an array at depth `m`.
pub open spec fn pretty_items(items: Seq<Doc>, first: bool, unit: Seq<u8>, m: nat) -> Seq<u8>
    decreases items,
{
    if items.len() == 0 {
        Seq::empty()
    } else {
        pretty_break(first, unit, m) + pretty_doc(items[0], unit, m) + pretty_items(
            items.subrange(1, items.len() as int),
            false,
            unit,
            m,
        )
    }
}

/// The pretty text of the entries of an object at depth `m`: each key,
/// a colon and a space, then the value.
pub open spec fn pretty_members(members: Seq<(Seq<u8>, Doc)>, first: bool, unit: Seq<u8>, m: nat) -> Seq<u8>
    decreases members,
{
    if members.len() == 0 {
        Seq::empty()
    } else {
        pretty_break(first, unit, m) + seq![QUOTE] + escaped_text(members[0].0) + seq![QUOTE, 0x3Au8, 0x20u8]
            + pretty_doc(members[0].1, unit, m) + pretty_members(members.subrange(1, members.len() as int), false, unit, m)
    }
}

/// Laying out two runs of events one after the other.
proof fn lemma_run_pair<'a>(
    f: PrettyFormatter<'a>,
    a: Seq<Event>,
    b: Seq<Event>,
    g: PrettyFormatter<'a>,
    t: Seq<u8>,
    h: PrettyFormatter<'a>,
    u: Seq<u8>,
)
    requires
        run(f, a) == Some((g, t)),
        run(g, b) == Some((h, u)),
    ensures
        run(f, a + b) == Some((h, t + u)),
{
    lemma_run_concat(f, a, b);
}

/// A pretty formatter writes a document as its pretty text at the
/// formatter's depth, and comes back to that depth.
pub proof fn lemma_pretty_layout<'a>(doc: Doc, f: PrettyFormatter<'a>)
    requires
        f.depth() + nesting(doc) <= usize::MAX,
    ensures
        run(f, doc_events(doc)) matches Some((g, t)) && t == pretty_doc(doc, f.indent_unit(), f.depth() as nat)
            && g.depth() == f.depth() && g.indent_unit() == f.indent_unit(),
    decreases doc,
{
    f.lemma_depth_range();
    let d = f.depth();
    let unit = f.indent_unit();
    match doc {
        Doc::Array(items) => {
            let ie = item_events(items, true);
            lemma_run_one(f, Event::BeginArray);
            let f1 = f.at(d + 1, false);
            f.lemma_at(d + 1, false);
            lemma_items_layout(items, true, f1);
            let (g1, t1) = run(f1, ie).unwrap();
            g1.lemma_depth_range();
            lemma_run_one(g1, Event::EndArray);
            g1.lemma_at(d, g1.holds_value());
            lemma_run_pair(f, seq![Event::BeginArray], ie, f1, seq![0x5Bu8], g1, t1);
            lemma_run_pair(
                f,
                seq![Event::BeginArray] + ie,
                seq![Event::EndArray],
                g1,
                seq![0x5Bu8] + t1,
                g1.at(d, g1.holds_value()),
                g1.closing(0x5D),
            );
            assert(g1.closing(0x5D) == pretty_close(items.len() > 0, unit, d as nat, 0x5D));
        },
        Doc::Object(members) => {
            let me = member_events(members, true);
            lemma_run_one(f, Event::BeginObject);
            let f1 = f.at(d + 1, false);
            f.lemma_at(d + 1, false);
            lemma_members_layout(members, true, f1);
            let (g1, t1) = run(f1, me).unwrap();
            g1.lemma_depth_range();
            lemma_run_one(g1, Event::EndObject);
            g1.lemma_at(d, g1.holds_value());
            lemma_run_pair(f, seq![Event::BeginObject], me, f1, seq![0x7Bu8], g1, t1);
            lemma_run_pair(
                f,
                seq![Event::BeginObject] + me,
                seq![Event::EndObject],
                g1,
                seq![0x7Bu8] + t1,
                g1.at(d, g1.holds_value()),
                g1.closing(0x7D),
            );
            assert(g1.closing(0x7D) == pretty_close(members.len() > 0, unit, d as nat, 0x7D));
        },
        Doc::Null => lemma_run_one(f, Event::Null),
        Doc::Bool(b) => lemma_run_one(f, Event::Bool(b)),
        Doc::Number(n) => {
            match n {
                ParserNumber::U64(v) => lemma_run_one(f, Event::Integer(v as int)),
                ParserNumber::I64(v) => lemma_run_one(f, Event::Integer(v as int)),
                ParserNumber::Float { .. } => {},
            }
        },
        Doc::Str(v) => lemma_string_events(f, v),
    }
}

/// A pretty formatter inside a container at depth `m` writes the elements
/// of an array as their pretty text, stays at that depth, and then holds a
/// value if it held one or wrote one.
proof fn lemma_items_layout<'a>(items: Seq<Doc>, first: bool, h: PrettyFormatter<'a>)
    requires
        h.depth() >= 1,
        h.depth() + items_nesting(items) <= usize::MAX,
    ensures
        run(h, item_events(items, first)) matches Some((g, t)) && t == pretty_items(
            items,
            first,
            h.indent_unit(),
            h.depth() as nat,
        ) && g.depth() == h.depth() && g.indent_unit() == h.indent_unit() && g.holds_value() == (items.len() > 0
            || h.holds_value()),
    decreases items,
{
    h.lemma_depth_range();
    let m = h.depth();
    if items.len() == 0 {
        assert(item_events(items, first) =~= Seq::<Event>::empty());
    } else {
        let rest = items.subrange(1, items.len() as int);
        let a = seq![Event::BeginArrayValue(first)];
        let b = doc_events(items[0]);
        let c = seq![Event::EndArrayValue];
        let r = item_events(rest, false);
        lemma_run_one(h, Event::BeginArrayValue(first));
        lemma_pretty_layout(items[0], h);
        let (g0, t0) = run(h, b).unwrap();
        lemma_run_one(g0, Event::EndArrayValue);
        let h1 = g0.at(m, true);
        g0.lemma_at(m, true);
        lemma_items_layout(rest, false, h1);
        let (g2, t2) = run(h1, r).unwrap();
        lemma_run_pair(h, a, b, h, h.line_break(first), g0, t0);
        lemma_run_pair(h, a + b, c, g0, h.line_break(first) + t0, h1, Seq::empty());
        lemma_run_pair(h, a + b + c, r, h1, h.line_break(first) + t0 + Seq::<u8>::empty(), g2, t2);
        assert(item_events(items, first) == a + b + c + r);
        assert(h.line_break(first) + t0 + Seq::<u8>::empty() + t2 =~= pretty_items(
            items,
            first,
            h.indent_unit(),
            m as nat,
        ));
    }
}

/// A pretty formatter inside a container at depth `m` writes the entries
/// of an object as their pretty text, stays at that depth, and then holds
/// a value if it held one or wrote one.
proof fn lemma_members_layout<'a>(members: Seq<(Seq<u8>, Doc)>, first: bool, h: PrettyFormatter<'a>)
    requires
        h.depth() >= 1,
        h.depth() + members_nesting(members) <= usize::MAX,
    ensures
        run(h, member_events(members, first)) matches Some((g, t)) && t == pretty_members(
            members,
            first,
            h.indent_unit(),
            h.depth() as nat,
        ) && g.depth() == h.depth() && g.indent_unit() == h.indent_unit() && g.holds_value() == (members.len()
            > 0 || h.holds_value()),
    decreases members,
{
    h.lemma_depth_range();
    let m = h.depth();
    if members.len() == 0 {
        assert(member_events(members, first) =~= Seq::<Event>::empty());
    } else {
        let rest = members.subrange(1, members.len() as int);
        let key = members[0].0;
        let a = seq![Event::BeginObjectKey(first)];
        let k = crate::ser::string_events(key);
        let mm = seq![Event::EndObjectKey, Event::BeginObjectValue];
        let b = doc_events(members[0].1);
        let c = seq![Event::EndObjectValue];
        let r = member_events(rest, false);
        let kt = seq![QUOTE] + escaped_text(key) + seq![QUOTE];
        lemma_run_one(h, Event::BeginObjectKey(first));
        lemma_string_events(h, key);
        lemma_run_one(h, Event::EndObjectKey);
        lemma_run_one(h, Event::BeginObjectValue);
        lemma_run_pair(h, seq![Event::EndObjectKey], seq![Event::BeginObjectValue], h, Seq::empty(), h, seq![0x3Au8, 0x20u8]);
        assert(mm =~= seq![Event::EndObjectKey] + seq![Event::BeginObjectValue]);
        lemma_pretty_layout(members[0].1, h);
        let (g0, t0) = run(h, b).unwrap();
        lemma_run_one(g0, Event::EndObjectValue);
        let h1 = g0.at(m, true);
        g0.lemma_at(m, true);
        lemma_members_layout(rest, false, h1);
        let (g2, t2) = run(h1, r).unwrap();
        let lb = h.line_break(first);
        lemma_run_pair(h, a, k, h, lb, h, kt);
        lemma_run_pair(h, a + k, mm, h, lb + kt, h, Seq::<u8>::empty() + seq![0x3Au8, 0x20u8]);
        lemma_run_pair(h, a + k + mm, b, h, lb + kt + (Seq::<u8>::empty() + seq![0x3Au8, 0x20u8]), g0, t0);
        lemma_run_pair(h, a + k + mm + b, c, g0, lb + kt + (Seq::<u8>::empty() + seq![0x3Au8, 0x20u8]) + t0, h1, Seq::empty());
        lemma_run_pair(
            h,
            a + k + mm + b + c,
            r,
            h1,
            lb + kt + (Seq::<u8>::empty() + seq![0x3Au8, 0x20u8]) + t0 + Seq::<u8>::empty(),
            g2,
            t2,
        );
        assert(member_events(members, first) == a + k + mm + b + c + r);
        assert(lb + kt + (Seq::<u8>::empty() + seq![0x3Au8, 0x20u8]) + t0 + Seq::<u8>::empty() + t2 =~= pretty_members(
            members,
            first,
            h.indent_unit(),
            m as nat,
        ));
    }
}

/// The line break before an element or key has the shape of a separator,
/// when the indentation is whitespace.
proof fn lemma_break_shape(first: bool, unit: Seq<u8>, m: nat)
    requires
        all_ws(unit),
    ensures
        separator_shape(pretty_break(first, unit, m), first),
        pretty_break(first, unit, m).len() > 0,
        pretty_break(first, unit, m)[0] == if first {
            NEWLINE
        } else {
            0x2Cu8
        },
{
    let ind = repeat(unit, m);
    lemma_repeat_ws(unit, m);
    let lb = pretty_break(first, unit, m);
    if first {
        assert forall|k: int| 0 <= k < lb.len() implies is_ws(#[trigger] lb[k]) by {
            if k > 0 {
                assert(lb[k] == ind[k - 1]);
            }
        }
    } else {
        assert(lb.drop_first() =~= seq![NEWLINE] + ind);
        assert forall|k: int| 0 <= k < lb.drop_first().len() implies is_ws(#[trigger] lb.drop_first()[k]) by {
            if k > 0 {
                assert(lb.drop_first()[k] == ind[k - 1]);
            }
        }
    }
}

/// What closes a container has the shape of a closing, when the
/// indentation is whitespace, and begins with whitespace or the bracket.
proof fn lemma_close_shape(nonempty: bool, unit: Seq<u8>, n: nat, bracket: u8)
    requires
        all_ws(unit),
    ensures
        closing_shape(pretty_close(nonempty, unit, n, bracket), bracket),
        is_ws(pretty_close(nonempty, unit, n, bracket)[0]) || pretty_close(nonempty, unit, n, bracket)[0] == bracket,
{
    let ind = repeat(unit, n);
    lemma_repeat_ws(unit, n);
    let c = pretty_close(nonempty, unit, n, bracket);
    if nonempty {
        assert(c.drop_last() =~= seq![NEWLINE] + ind);
        assert forall|k: int| 0 <= k < c.drop_last().len() implies is_ws(#[trigger] c.drop_last()[k]) by {
            if k > 0 {
                assert(c.drop_last()[k] == ind[k - 1]);
            }
        }
    } else {
        assert(c.drop_last() =~= Seq::<u8>::empty());
    }
}

/// The pretty text of a well-formed document begins with a byte that
/// begins a value.
pub proof fn lemma_pretty_begins(doc: Doc, unit: Seq<u8>, n: nat)
    requires
        well_formed(doc),
    ensures
        pretty_doc(doc, unit, n).len() > 0,
        begins_value(pretty_doc(doc, unit, n)[0]),
{
    lemma_doc_begins(doc);
}

/// A value read from a whitespace byte is read as from the byte after it.
proof fn lemma_read_value_after_ws(s: Seq<u8>, p: int, d: u8)
    requires
        0 <= p < s.len(),
        is_ws(s[p]),
    ensures
        read_value(s, p, d) == read_value(s, p + 1, d),
{
    assert(skip_ws(s, p) == skip_ws(s, p + 1));
    assert(any_token(s, p, d) == any_token(s, p + 1, d));
}

/// Reading back the pretty text of a document, indented with whitespace:
/// read from where it stands as a value of any kind with more levels of
/// nesting left than the document has, it gives back the document and
/// ends where the text does.  A number at the top must end the input or
/// be followed by a byte that does not continue it.
#[verifier::spinoff_prover]
#[verifier::rlimit(40)]
pub proof fn lemma_pretty_reads_back(doc: Doc, unit: Seq<u8>, n: nat, s: Seq<u8>, i: int, d: u8)
    requires
        well_formed(doc),
        nesting(doc) < d,
        all_ws(unit),
        0 <= i,
        i + pretty_doc(doc, unit, n).len() <= s.len(),
        s.subrange(i, i + pretty_doc(doc, unit, n).len()) == pretty_doc(doc, unit, n),
        doc is Number ==> ends_number(s, i + pretty_doc(doc, unit, n).len()),
    ensures
        read_value(s, i, d) == Scan::Done(doc, i + pretty_doc(doc, unit, n).len()),
    decreases doc,
{
    let t = pretty_doc(doc, unit, n);
    lemma_pretty_begins(doc, unit, n);
    assert(s[i] == s.subrange(i, i + t.len())[0]);
    assert(skip_ws(s, i) == i);
    match doc {
        Doc::Array(items) => {
            let close = pretty_close(items.len() > 0, unit, n, 0x5D);
            let body = pretty_items(items, true, unit, n + 1) + close;
            assert(t =~= seq![0x5Bu8] + body);
            lemma_parts(s, i, seq![0x5Bu8], body);
            assert(s[i + 1] == s.subrange(i + 1, i + 1 + body.len())[0]);
            lemma_close_shape(items.len() > 0, unit, n, 0x5D);
            if items.len() > 0 {
                lemma_break_shape(true, unit, (n + 1) as nat);
                assert(body[0] == pretty_break(true, unit, (n + 1) as nat)[0]);
            } else {
                assert(body[0] == close[0]);
            }
            lemma_pretty_items_read_back(
                items,
                true,
                unit,
                (n + 1) as nat,
                close,
                s,
                i + 1,
                (d - 1) as u8,
                ErrorCode::EofWhileParsingArray,
            );
        },
        Doc::Object(members) => {
            let close = pretty_close(members.len() > 0, unit, n, 0x7D);
            let body = pretty_members(members, true, unit, n + 1) + close;
            assert(t =~= seq![0x7Bu8] + body);
            lemma_parts(s, i, seq![0x7Bu8], body);
            lemma_close_shape(members.len() > 0, unit, n, 0x7D);
            lemma_pretty_members_read_back(members, true, unit, (n + 1) as nat, close, s, i + 1, (d - 1) as u8);
        },
        _ => lemma_doc_reads_back(doc, s, i, d),
    }
}

/// Reading back the pretty text of array elements and what closes the
/// array: the elements come back, and the reading ends past the bracket.
#[verifier::spinoff_prover]
#[verifier::rlimit(40)]
proof fn lemma_pretty_items_read_back(
    items: Seq<Doc>,
    first: bool,
    unit: Seq<u8>,
    m: nat,
    close: Seq<u8>,
    s: Seq<u8>,
    p: int,
    d: u8,
    eof: ErrorCode,
)
    requires
        items_well_formed(items),
        items_nesting(items) < d,
        all_ws(unit),
        closing_shape(close, 0x5D),
        is_ws(close[0]) || close[0] == 0x5D,
        eof == ErrorCode::EofWhileParsingArray || eof == ErrorCode::EofWhileParsingIdMap,
        0 <= p,
        p + pretty_items(items, first, unit, m).len() + close.len() <= s.len(),
        s.subrange(p, p + pretty_items(items, first, unit, m).len() + close.len()) == pretty_items(
            items,
            first,
            unit,
            m,
        ) + close,
    ensures
        read_items(s, p, first, d, eof) == Scan::Done(items, p + pretty_items(items, first, unit, m).len() + close.len()),
    decreases items,
{
    let body = pretty_items(items, first, unit, m);
    if items.len() == 0 {
        assert(body + close =~= close);
        lemma_closing_reads_back(s, p, first, close, 0x5D);
        assert(items =~= Seq::<Doc>::empty());
    } else {
        let rest = items.subrange(1, items.len() as int);
        let sep = pretty_break(first, unit, m);
        let c0 = pretty_doc(items[0], unit, m);
        let tail = pretty_items(rest, false, unit, m) + close;
        assert(body + close =~= sep + (c0 + tail));
        lemma_parts(s, p, sep, c0 + tail);
        let k = p + sep.len();
        lemma_parts(s, k, c0, tail);
        lemma_pretty_begins(items[0], unit, m);
        assert(s[k] == s.subrange(k, k + c0.len())[0]);
        lemma_break_shape(first, unit, m);
        lemma_separator_reads_back(s, p, first, sep);
        let e = k + c0.len();
        assert(s[e] == s.subrange(e, e + tail.len())[0]);
        if rest.len() > 0 {
            lemma_break_shape(false, unit, m);
            assert(tail[0] == 0x2C);
        } else {
            assert(tail[0] == close[0]);
        }
        lemma_pretty_reads_back(items[0], unit, m, s, k, d);
        lemma_pretty_items_read_back(rest, false, unit, m, close, s, e, d, eof);
        assert(seq![items[0]] + rest =~= items);
    }
}

/// Reading back the start of an object entry in the pretty layout: the
/// line break, the key and the colon with its space.  The reader finds the
/// key, reads it, and reads the colon; the value follows a space.
#[verifier::spinoff_prover]
proof fn lemma_pretty_key_reads_back(
    s: Seq<u8>,
    p: int,
    first: bool,
    unit: Seq<u8>,
    m: nat,
    key: Seq<u8>,
    x4: Seq<u8>,
)
    requires
        all_ws(unit),
        0 <= p,
        p + pretty_break(first, unit, m).len() + 1 + escaped_text(key).len() + 3 + x4.len() <= s.len(),
        s.subrange(p, p + pretty_break(first, unit, m).len() + 1 + escaped_text(key).len() + 3 + x4.len())
            == pretty_break(first, unit, m) + (seq![QUOTE] + ((escaped_text(key) + seq![QUOTE]) + (seq![
            0x3Au8,
            0x20u8,
        ] + x4))),
    ensures
        ({
            let k = p + pretty_break(first, unit, m).len();
            let q = k + 1 + escaped_text(key).len() + 1;
            &&& next_key(s, p, first) == Scan::Done(true, k)
            &&& scan_str(s, k + 1, true) == Scan::Done(key, q)
            &&& scan_colon(s, q) == Scan::<()>::Done((), q + 1)
            &&& is_ws(s[q + 1])
            &&& s.subrange(q + 2, q + 2 + x4.len()) == x4
        }),
{
    let sep = pretty_break(first, unit, m);
    let esc = escaped_text(key);
    let colon = seq![0x3Au8, 0x20u8];
    let x3 = colon + x4;
    let x2 = (esc + seq![QUOTE]) + x3;
    let x1 = seq![QUOTE] + x2;
    lemma_parts(s, p, sep, x1);
    let k = p + sep.len();
    lemma_parts(s, k, seq![QUOTE], x2);
    lemma_parts(s, k + 1, esc + seq![QUOTE], x3);
    let q = k + 1 + esc.len() + 1;
    lemma_parts(s, q, colon, x4);
    assert(s[k] == s.subrange(k, k + 1)[0]);
    lemma_break_shape(first, unit, m);
    lemma_separator_reads_back(s, p, first, sep);
    lemma_string_reads_back(key, s, k + 1, true);
    assert(colon.drop_first() =~= seq![0x20u8]);
    lemma_colon_reads_back(s, q, colon);
    assert(s[q + 1] == s.subrange(q, q + 2)[1]);
}

/// Reading back the pretty text of object entries and what closes the
/// object: the entries come back, and the reading ends past the brace.
#[verifier::spinoff_prover]
#[verifier::rlimit(80)]
proof fn lemma_pretty_members_read_back(
    members: Seq<(Seq<u8>, Doc)>,
    first: bool,
    unit: Seq<u8>,
    m: nat,
    close: Seq<u8>,
    s: Seq<u8>,
    p: int,
    d: u8,
)
    requires
        members_well_formed(members),
        members_nesting(members) < d,
        all_ws(unit),
        closing_shape(close, 0x7D),
        is_ws(close[0]) || close[0] == 0x7D,
        0 <= p,
        p + pretty_members(members, first, unit, m).len() + close.len() <= s.len(),
        s.subrange(p, p + pretty_members(members, first, unit, m).len() + close.len()) == pretty_members(
            members,
            first,
            unit,
            m,
        ) + close,
    ensures
        read_members(s, p, first, d) == Scan::Done(
            members,
            p + pretty_members(members, first, unit, m).len() + close.len(),
        ),
    decreases members,
{
    let body = pretty_members(members, first, unit, m);
    if members.len() == 0 {
        assert(body + close =~= close);
        lemma_closing_reads_back(s, p, first, close, 0x7D);
        assert(members =~= Seq::<(Seq<u8>, Doc)>::empty());
    } else {
        let rest = members.subrange(1, members.len() as int);
        let key = members[0].0;
        let val = members[0].1;
        let sep = pretty_break(first, unit, m);
        let esc = escaped_text(key);
        let c0 = pretty_doc(val, unit, m);
        let tail = pretty_members(rest, false, unit, m) + close;
        let x4 = c0 + tail;
        let k = p + sep.len();
        let q = k + 1 + esc.len() + 1;
        let v = q + 2;
        let e = v + c0.len();
        assert(next_key(s, p, first) == Scan::Done(true, k) && scan_str(s, k + 1, true) == Scan::Done(key, q)
            && scan_colon(s, q) == Scan::<()>::Done((), q + 1) && is_ws(s[q + 1]) && s.subrange(v, v + x4.len())
            == x4 && body.len() + close.len() == e - p + tail.len()) by {
            assert(body + close =~= sep + (seq![QUOTE] + ((esc + seq![QUOTE]) + (seq![0x3Au8, 0x20u8] + x4))));
            lemma_pretty_key_reads_back(s, p, first, unit, m, key, x4);
        }
        assert(read_value(s, q + 1, d) == Scan::Done(val, e)) by {
            lemma_parts(s, v, c0, tail);
            assert(s[e] == s.subrange(e, e + tail.len())[0]);
            if rest.len() > 0 {
                lemma_break_shape(false, unit, m);
                assert(tail[0] == 0x2C);
            } else {
                assert(tail[0] == close[0]);
            }
            lemma_read_value_after_ws(s, q + 1, d);
            lemma_pretty_reads_back(val, unit, m, s, v, d);
        }
        assert(read_members(s, e, false, d) == Scan::Done(rest, e + tail.len())) by {
            lemma_parts(s, v, c0, tail);
            lemma_pretty_members_read_back(rest, false, unit, m, close, s, e, d);
        }
        assert(seq![(key, val)] + rest =~= members);
    }
}

/// The round trip of a document through a pretty formatter and the reader:
/// a pretty formatter lays out the events of any well-formed document as
/// its pretty text at the formatter's depth, and the reader, given that
/// text and whatever follows it, reads the document back, with any nesting
/// limit above the document's and ending where the text ends.  This holds
/// when the formatter indents with whitespace, or when the document has no
/// element or entry at its top and so is written without indentation.  A
/// number alone must end the input or be followed by a byte that does not
/// continue it.
pub proof fn lemma_pretty_round_trip<'a>(doc: Doc, f: PrettyFormatter<'a>, after: Seq<u8>, d: u8)
    requires
        well_formed(doc),
        nesting(doc) < d,
        all_ws(f.indent_unit()) || flat(doc),
        f.depth() + nesting(doc) <= usize::MAX,
        doc is Number ==> ends_number(
            pretty_doc(doc, f.indent_unit(), f.depth() as nat) + after,
            pretty_doc(doc, f.indent_unit(), f.depth() as nat).len() as int,
        ),
    ensures
        run(f, doc_events(doc)) matches Some((g, t)) && t == pretty_doc(doc, f.indent_unit(), f.depth() as nat)
            && read_value(t + after, 0, d) == Scan::Done(doc, t.len() as int),
{
    f.lemma_depth_range();
    let t = pretty_doc(doc, f.indent_unit(), f.depth() as nat);
    lemma_pretty_layout(doc, f);
    assert((t + after).subrange(0, t.len() as int) =~= t);
    if all_ws(f.indent_unit()) {
        lemma_pretty_reads_back(doc, f.indent_unit(), f.depth() as nat, t + after, 0, d);
    } else {
        match doc {
            Doc::Array(items) => {
                assert(t =~= compact_doc(doc));
            },
            Doc::Object(members) => {
                assert(t =~= compact_doc(doc));
            },
            _ => {},
        }
        lemma_doc_reads_back(doc, t + after, 0, d);
    }
}

/// The pretty text of the entries of an id map at depth `m`: each integer
/// key, a colon and a space, then the value.
pub open spec fn pretty_entries(entries: Seq<(ParserNumber, Doc)>, first: bool, unit: Seq<u8>, m: nat) -> Seq<u8>
    decreases entries,
{
    if entries.len() == 0 {
        Seq::empty()
    } else {
        pretty_break(first, unit, m) + number_text(entries[0].0) + seq![0x3Au8, 0x20u8] + pretty_doc(
            entries[0].1,
            unit,
            m,
        ) + pretty_entries(entries.subrange(1, entries.len() as int), false, unit, m)
    }
}

/// The pretty text of an id map that starts at depth `n`.
pub open spec fn pretty_id_map(entries: Seq<(ParserNumber, Doc)>, unit: Seq<u8>, n: nat) -> Seq<u8> {
    seq![0x5Bu8, 0x3Au8] + pretty_entries(entries, true, unit, n + 1) + pretty_close(entries.len() > 0, unit, n, 0x5D)
}

/// A pretty formatter inside an id map at depth `m` writes its entries as
/// their pretty text, stays at that depth, and then holds a value if it
/// held one or wrote one.
proof fn lemma_entries_layout<'a>(entries: Seq<(ParserNumber, Doc)>, first: bool, h: PrettyFormatter<'a>)
    requires
        h.depth() >= 1,
        h.depth() + entries_nesting(entries) <= usize::MAX,
    ensures
        run(h, entry_events(entries, first)) matches Some((g, t)) && t == pretty_entries(
            entries,
            first,
            h.indent_unit(),
            h.depth() as nat,
        ) && g.depth() == h.depth() && g.indent_unit() == h.indent_unit() && g.holds_value() == (entries.len()
            > 0 || h.holds_value()),
    decreases entries,
{
    h.lemma_depth_range();
    let m = h.depth();
    if entries.len() == 0 {
        assert(entry_events(entries, first) =~= Seq::<Event>::empty());
    } else {
        let rest = entries.subrange(1, entries.len() as int);
        let n = entries[0].0;
        let a = seq![Event::BeginIdMapKey(first)];
        let k = number_events(n);
        let mm = seq![Event::EndIdMapKey, Event::BeginIdMapValue];
        let b = doc_events(entries[0].1);
        let c = seq![Event::EndIdMapValue];
        let r = entry_events(rest, false);
        lemma_run_one(h, Event::BeginIdMapKey(first));
        lemma_pretty_layout(Doc::Number(n), h);
        assert(doc_events(Doc::Number(n)) == k);
        lemma_run_one(h, Event::EndIdMapKey);
        lemma_run_one(h, Event::BeginIdMapValue);
        lemma_run_pair(h, seq![Event::EndIdMapKey], seq![Event::BeginIdMapValue], h, Seq::empty(), h, seq![0x3Au8, 0x20u8]);
        assert(mm =~= seq![Event::EndIdMapKey] + seq![Event::BeginIdMapValue]);
        let (gk, kt) = run(h, k).unwrap();
        assert(gk == h) by {
            match n {
                ParserNumber::U64(v) => lemma_run_one(h, Event::Integer(v as int)),
                ParserNumber::I64(v) => lemma_run_one(h, Event::Integer(v as int)),
                ParserNumber::Float { .. } => {},
            }
        }
        lemma_pretty_layout(entries[0].1, h);
        let (g0, t0) = run(h, b).unwrap();
        lemma_run_one(g0, Event::EndIdMapValue);
        let h1 = g0.at(m, true);
        g0.lemma_at(m, true);
        lemma_entries_layout(rest, false, h1);
        let (g2, t2) = run(h1, r).unwrap();
        let lb = h.line_break(first);
        let colon = Seq::<u8>::empty() + seq![0x3Au8, 0x20u8];
        lemma_run_pair(h, a, k, h, lb, h, kt);
        lemma_run_pair(h, a + k, mm, h, lb + kt, h, colon);
        lemma_run_pair(h, a + k + mm, b, h, lb + kt + colon, g0, t0);
        lemma_run_pair(h, a + k + mm + b, c, g0, lb + kt + colon + t0, h1, Seq::empty());
        lemma_run_pair(h, a + k + mm + b + c, r, h1, lb + kt + colon + t0 + Seq::<u8>::empty(), g2, t2);
        assert(entry_events(entries, first) == a + k + mm + b + c + r);
        assert(lb + kt + colon + t0 + Seq::<u8>::empty() + t2 =~= pretty_entries(entries, first, h.indent_unit(), m as nat));
    }
}

/// A pretty formatter writes an id map as its pretty text at the
/// formatter's depth, and comes back to that depth.
pub proof fn lemma_pretty_id_map_layout<'a>(entries: Seq<(ParserNumber, Doc)>, f: PrettyFormatter<'a>)
    requires
        f.depth() + 1 + entries_nesting(entries) <= usize::MAX,
    ensures
        run(f, id_map_events(entries)) matches Some((g, t)) && t == pretty_id_map(
            entries,
            f.indent_unit(),
            f.depth() as nat,
        ) && g.depth() == f.depth() && g.indent_unit() == f.indent_unit(),
{
    f.lemma_depth_range();
    let d = f.depth();
    let unit = f.indent_unit();
    let ee = entry_events(entries, true);
    lemma_run_one(f, Event::BeginIdMap);
    let f1 = f.at(d + 1, false);
    f.lemma_at(d + 1, false);
    lemma_entries_layout(entries, true, f1);
    let (g1, t1) = run(f1, ee).unwrap();
    g1.lemma_depth_range();
    lemma_run_one(g1, Event::EndIdMap);
    g1.lemma_at(d, g1.holds_value());
    lemma_run_pair(f, seq![Event::BeginIdMap], ee, f1, seq![0x5Bu8, 0x3Au8], g1, t1);
    lemma_run_pair(
        f,
        seq![Event::BeginIdMap] + ee,
        seq![Event::EndIdMap],
        g1,
        seq![0x5Bu8, 0x3Au8] + t1,
        g1.at(d, g1.holds_value()),
        g1.closing(0x5D),
    );
    assert(g1.closing(0x5D) == pretty_close(entries.len() > 0, unit, d as nat, 0x5D));
}

/// Bytes put together in one order, grouped from the right.
proof fn lemma_regroup(a: Seq<u8>, b: Seq<u8>, c: Seq<u8>, x: Seq<u8>, y: Seq<u8>, z: Seq<u8>)
    ensures
        a + b + c + x + y + z == a + (b + (c + (x + (y + z)))),
{
    assert(a + b + c + x + y + z =~= a + (b + (c + (x + (y + z)))));
}

/// Reading back the start of an id map entry in the pretty layout: the
/// line break, the integer key and the colon with its space.  The reader
/// finds the key, reads it as that number, and reads the colon; the value
/// follows a space.
#[verifier::spinoff_prover]
proof fn lemma_pretty_id_key_reads_back(
    s: Seq<u8>,
    p: int,
    first: bool,
    unit: Seq<u8>,
    m: nat,
    n: ParserNumber,
    x4: Seq<u8>,
)
    requires
        well_formed(Doc::Number(n)),
        all_ws(unit),
        0 <= p,
        p + pretty_break(first, unit, m).len() + number_text(n).len() + 2 + x4.len() <= s.len(),
        s.subrange(p, p + pretty_break(first, unit, m).len() + number_text(n).len() + 2 + x4.len()) == pretty_break(
            first,
            unit,
            m,
        ) + (number_text(n) + (seq![0x3Au8, 0x20u8] + x4)),
    ensures
        ({
            let k = p + pretty_break(first, unit, m).len();
            let q = k + number_text(n).len();
            &&& next_id_map_key(s, p, first) == Scan::Done(true, k)
            &&& number_at(s, k) == Scan::Done(Some(n), q)
            &&& scan_colon(s, q) == Scan::<()>::Done((), q + 1)
            &&& is_ws(s[q + 1])
            &&& s.subrange(q + 2, q + 2 + x4.len()) == x4
        }),
{
    let sep = pretty_break(first, unit, m);
    let kt = number_text(n);
    let colon = seq![0x3Au8, 0x20u8];
    let x3 = colon + x4;
    let x2 = kt + x3;
    lemma_parts(s, p, sep, x2);
    let k = p + sep.len();
    lemma_parts(s, k, kt, x3);
    let q = k + kt.len();
    lemma_parts(s, q, colon, x4);
    lemma_pretty_begins(Doc::Number(n), unit, m);
    assert(s[k] == s.subrange(k, k + kt.len())[0]);
    lemma_break_shape(first, unit, m);
    lemma_separator_reads_back(s, p, first, sep);
    assert(s[q] == s.subrange(q, q + 2)[0]);
    lemma_number_key(n, s, k);
    assert(colon.drop_first() =~= seq![0x20u8]);
    lemma_colon_reads_back(s, q, colon);
    assert(s[q + 1] == s.subrange(q, q + 2)[1]);
}

/// Reading back the pretty text of id map entries and what closes the id
/// map: the entries come back, and the reading ends past the bracket.
#[verifier::spinoff_prover]
#[verifier::rlimit(90)]
proof fn lemma_pretty_entries_read_back(
    entries: Seq<(ParserNumber, Doc)>,
    first: bool,
    unit: Seq<u8>,
    m: nat,
    close: Seq<u8>,
    s: Seq<u8>,
    p: int,
    d: u8,
)
    requires
        entries_well_formed(entries),
        entries_nesting(entries) < d,
        all_ws(unit),
        closing_shape(close, 0x5D),
        is_ws(close[0]) || close[0] == 0x5D,
        0 <= p,
        p + pretty_entries(entries, first, unit, m).len() + close.len() <= s.len(),
        s.subrange(p, p + pretty_entries(entries, first, unit, m).len() + close.len()) == pretty_entries(
            entries,
            first,
            unit,
            m,
        ) + close,
    ensures
        read_entries(s, p, first, d) == Scan::Done(
            entries,
            p + pretty_entries(entries, first, unit, m).len() + close.len(),
        ),
    decreases entries,
{
    let body = pretty_entries(entries, first, unit, m);
    if entries.len() == 0 {
        assert(body + close =~= close);
        lemma_closing_reads_back(s, p, first, close, 0x5D);
        assert(entries =~= Seq::<(ParserNumber, Doc)>::empty());
    } else {
        let rest = entries.subrange(1, entries.len() as int);
        let n = entries[0].0;
        let val = entries[0].1;
        let sep = pretty_break(first, unit, m);
        let kt = number_text(n);
        let c0 = pretty_doc(val, unit, m);
        let tail = pretty_entries(rest, false, unit, m) + close;
        let colon = seq![0x3Au8, 0x20u8];
        let x4 = c0 + tail;
        let x3 = colon + x4;
        let x2 = kt + x3;
        let k = p + sep.len();
        let q = k + kt.len();
        let v = q + 2;
        let e = v + c0.len();
        assert(next_id_map_key(s, p, first) == Scan::Done(true, k) && number_at(s, k) == Scan::Done(Some(n), q)
            && scan_colon(s, q) == Scan::<()>::Done((), q + 1) && is_ws(s[q + 1]) && s.subrange(v, v + x4.len())
            == x4 && body.len() + close.len() == e - p + tail.len()) by {
            let pe = pretty_entries(rest, false, unit, m);
            assert(body == sep + kt + colon + c0 + pe);
            lemma_regroup(sep, kt, colon, c0, pe, close);
            lemma_pretty_id_key_reads_back(s, p, first, unit, m, n, x4);
        }
        assert(read_value(s, q + 1, d) == Scan::Done(val, e)) by {
            lemma_parts(s, v, c0, tail);
            assert(s[e] == s.subrange(e, e + tail.len())[0]);
            if rest.len() > 0 {
                lemma_break_shape(false, unit, m);
                assert(tail[0] == 0x2C);
            } else {
                assert(tail[0] == close[0]);
            }
            lemma_read_value_after_ws(s, q + 1, d);
            lemma_pretty_reads_back(val, unit, m, s, v, d);
        }
        assert(read_entries(s, e, false, d) == Scan::Done(rest, e + tail.len())) by {
            lemma_parts(s, v, c0, tail);
            lemma_pretty_entries_read_back(rest, false, unit, m, close, s, e, d);
        }
        assert(seq![(n, val)] + rest =~= entries);
    }
}

/// The round trip of an id map through a pretty formatter and the id map
/// reader: a pretty formatter lays out the events of any id map whose keys
/// are integers and whose values are well formed as its pretty text at the
/// formatter's depth, and the reader, given that text and whatever follows
/// it, finds the `[:` that starts an id map and reads its entries back,
/// keys and values in order, with any nesting limit above that of the
/// values, ending where the text ends.  This holds when the formatter
/// indents with whitespace, or when the id map is empty.
pub proof fn lemma_pretty_id_map_round_trip<'a>(
    entries: Seq<(ParserNumber, Doc)>,
    f: PrettyFormatter<'a>,
    after: Seq<u8>,
    d: u8,
)
    requires
        entries_well_formed(entries),
        entries_nesting(entries) < d,
        all_ws(f.indent_unit()) || entries.len() == 0,
        f.depth() + 1 + entries_nesting(entries) <= usize::MAX,
    ensures
        run(f, id_map_events(entries)) matches Some((g, t)) && t == pretty_id_map(
            entries,
            f.indent_unit(),
            f.depth() as nat,
        ) && id_map_start(t + after, 0) == Scan::Done(true, 2) && read_entries(t + after, 2, true, d)
            == Scan::Done(entries, t.len() as int),
{
    f.lemma_depth_range();
    let unit = f.indent_unit();
    let n = f.depth() as nat;
    let t = pretty_id_map(entries, unit, n);
    let s = t + after;
    let close = pretty_close(entries.len() > 0, unit, n, 0x5D);
    let body = pretty_entries(entries, true, unit, n + 1) + close;
    lemma_pretty_id_map_layout(entries, f);
    assert(t =~= seq![0x5Bu8, 0x3Au8] + body);
    assert(s[0] == 0x5B);
    assert(s[1] == 0x3A);
    assert(skip_ws(s, 0) == 0);
    assert(s.subrange(2, 2 + body.len() as int) =~= body);
    if all_ws(unit) {
        lemma_close_shape(entries.len() > 0, unit, n, 0x5D);
        lemma_pretty_entries_read_back(entries, true, unit, n + 1, close, s, 2, d);
    } else {
        assert(close =~= seq![0x5Du8]);
        assert(seq![0x5Du8].drop_last() =~= Seq::<u8>::empty());
        assert(s.subrange(2, 3) =~= seq![0x5Du8]);
        lemma_closing_reads_back(s, 2, true, seq![0x5Du8], 0x5D);
        assert(entries =~= Seq::<(ParserNumber, Doc)>::empty());
    }
}

/// A value skipped from whitespace is skipped as from the end of it.
proof fn lemma_skip_value_after_ws(s: Seq<u8>, p: int, w: Seq<u8>)
    requires
        0 <= p,
        p + w.len() <= s.len(),
        s.subrange(p, p + w.len()) == w,
        all_ws(w),
    ensures
        skip_value(s, p) == skip_value(s, p + w.len()),
{
    lemma_skip_ws_over(s, p, w);
}

/// Skipping the pretty text of a document, indented with whitespace: from
/// where it stands, it is skipped whole as one value, however deeply it
/// nests.  A number at the top must end the input or be followed by a
/// byte that does not continue it.
#[verifier::spinoff_prover]
#[verifier::rlimit(40)]
pub proof fn lemma_pretty_skips(doc: Doc, unit: Seq<u8>, n: nat, s: Seq<u8>, i: int)
    requires
        well_formed(doc),
        all_ws(unit),
        0 <= i,
        i + pretty_doc(doc, unit, n).len() <= s.len(),
        s.subrange(i, i + pretty_doc(doc, unit, n).len()) == pretty_doc(doc, unit, n),
        doc is Number ==> ends_number(s, i + pretty_doc(doc, unit, n).len()),
    ensures
        skip_value(s, i) == Scan::<()>::Done((), i + pretty_doc(doc, unit, n).len()),
    decreases doc,
{
    let t = pretty_doc(doc, unit, n);
    lemma_pretty_begins(doc, unit, n);
    assert(s[i] == s.subrange(i, i + t.len())[0]);
    assert(skip_ws(s, i) == i);
    match doc {
        Doc::Array(items) => {
            let close = pretty_close(items.len() > 0, unit, n, 0x5D);
            let body = pretty_items(items, true, unit, n + 1) + close;
            assert(t =~= seq![0x5Bu8] + body);
            lemma_parts(s, i, seq![0x5Bu8], body);
            lemma_close_shape(items.len() > 0, unit, n, 0x5D);
            assert(s[i + 1] == s.subrange(i + 1, i + 1 + body.len())[0]);
            if items.len() > 0 {
                lemma_break_shape(true, unit, (n + 1) as nat);
                assert(body[0] == pretty_break(true, unit, (n + 1) as nat)[0]);
            } else {
                assert(body[0] == close[0]);
            }
            lemma_pretty_items_skip(items, true, unit, (n + 1) as nat, close, s, i + 1);
        },
        Doc::Object(members) => {
            let close = pretty_close(members.len() > 0, unit, n, 0x7D);
            let body = pretty_members(members, true, unit, n + 1) + close;
            assert(t =~= seq![0x7Bu8] + body);
            lemma_parts(s, i, seq![0x7Bu8], body);
            lemma_close_shape(members.len() > 0, unit, n, 0x7D);
            lemma_pretty_members_skip(members, true, unit, (n + 1) as nat, close, s, i + 1);
        },
        _ => lemma_doc_skips(doc, s, i),
    }
}

/// Skipping what closes a container: whitespace, then its bracket.
proof fn lemma_close_skips(s: Seq<u8>, p: int, close: Seq<u8>, bracket: u8, accept_comma: bool)
    requires
        bracket == 0x5D || bracket == 0x7D,
        closing_shape(close, bracket),
        0 <= p,
        p + close.len() <= s.len(),
        s.subrange(p, p + close.len()) == close,
    ensures
        skip_container(s, p, if bracket == 0x5D { 0x5Bu8 } else { 0x7Bu8 }, accept_comma) == Scan::<()>::Done(
            (),
            p + close.len(),
        ),
{
    let q = p + close.len() - 1;
    assert(close.drop_last() + seq![bracket] =~= close);
    lemma_parts(s, p, close.drop_last(), seq![bracket]);
    assert(s[q] == s.subrange(q, q + 1)[0]);
    lemma_skip_ws_over(s, p, close.drop_last());
    assert(skip_ws(s, q) == q);
}

/// Skipping the pretty text of array elements and what closes the array.
#[verifier::spinoff_prover]
#[verifier::rlimit(90)]
proof fn lemma_pretty_items_skip(
    items: Seq<Doc>,
    first: bool,
    unit: Seq<u8>,
    m: nat,
    close: Seq<u8>,
    s: Seq<u8>,
    p: int,
)
    requires
        items_well_formed(items),
        all_ws(unit),
        closing_shape(close, 0x5D),
        is_ws(close[0]) || close[0] == 0x5D,
        0 <= p,
        p + pretty_items(items, first, unit, m).len() + close.len() <= s.len(),
        s.subrange(p, p + pretty_items(items, first, unit, m).len() + close.len()) == pretty_items(
            items,
            first,
            unit,
            m,
        ) + close,
    ensures
        skip_container(s, p, 0x5B, !first) == Scan::<()>::Done(
            (),
            p + pretty_items(items, first, unit, m).len() + close.len(),
        ),
    decreases items,
{
    let body = pretty_items(items, first, unit, m);
    if items.len() == 0 {
        assert(body + close =~= close);
        lemma_close_skips(s, p, close, 0x5D, !first);
    } else {
        let rest = items.subrange(1, items.len() as int);
        let sep = pretty_break(first, unit, m);
        let c0 = pretty_doc(items[0], unit, m);
        let tail = pretty_items(rest, false, unit, m) + close;
        let k = p + sep.len();
        let e = k + c0.len();
        assert(s.subrange(p, p + sep.len()) == sep && s.subrange(k, k + c0.len()) == c0 && s.subrange(
            e,
            e + tail.len(),
        ) == tail && body.len() + close.len() == e - p + tail.len()) by {
            assert(body + close =~= sep + (c0 + tail));
            lemma_parts(s, p, sep, c0 + tail);
            lemma_parts(s, k, c0, tail);
        }
        assert(s[k] != 0x2C && s[k] != 0x5D && !is_ws(s[k])) by {
            lemma_pretty_begins(items[0], unit, m);
            assert(s[k] == s.subrange(k, k + c0.len())[0]);
        }
        assert(skip_value(s, k) == Scan::<()>::Done((), e)) by {
            assert(s[e] == s.subrange(e, e + tail.len())[0]);
            if rest.len() > 0 {
                lemma_break_shape(false, unit, m);
                assert(tail[0] == 0x2C);
            } else {
                assert(tail[0] == close[0]);
            }
            lemma_pretty_skips(items[0], unit, m, s, k);
        }
        assert(skip_container(s, e, 0x5B, true) == Scan::<()>::Done((), e + tail.len())) by {
            lemma_pretty_items_skip(rest, false, unit, m, close, s, e);
        }
        assert(s[p] == (if first { NEWLINE } else { 0x2Cu8 }) && (first ==> skip_ws(s, p) == k) && (!first
            ==> skip_value(s, p + 1) == skip_value(s, k))) by {
            lemma_break_shape(first, unit, m);
            assert(s[p] == s.subrange(p, p + sep.len())[0]);
            if first {
                lemma_skip_ws_over(s, p, sep);
                assert(skip_ws(s, k) == k);
            } else {
                assert(seq![0x2Cu8] + sep.drop_first() =~= sep);
                lemma_parts(s, p, seq![0x2Cu8], sep.drop_first());
                lemma_skip_value_after_ws(s, p + 1, sep.drop_first());
            }
        }
        lemma_array_member_skips(s, p, first, k, e, e + tail.len());
    }
}

/// One element of an array and what follows it, reached from the break
/// before it: a newline and indentation before the first element, a comma
/// and indentation before each later one.
proof fn lemma_array_member_skips(s: Seq<u8>, p: int, first: bool, k: int, e: int, end: int)
    requires
        0 <= p < k < e <= s.len(),
        s[p] == (if first { NEWLINE } else { 0x2Cu8 }),
        first ==> skip_ws(s, p) == k,
        !first ==> skip_value(s, p + 1) == skip_value(s, k),
        s[k] != 0x5D,
        skip_value(s, k) == Scan::<()>::Done((), e),
        skip_container(s, e, 0x5B, true) == Scan::<()>::Done((), end),
    ensures
        skip_container(s, p, 0x5B, !first) == Scan::<()>::Done((), end),
{
    if first {
        assert(member_start(s, k, 0x5B) == Scan::<()>::Done((), k));
        assert(skip_member(s, k, 0x5B) == Scan::<()>::Done((), end));
    } else {
        assert(skip_ws(s, p) == p);
        assert(member_start(s, p + 1, 0x5B) == Scan::<()>::Done((), p + 1));
        assert(skip_member(s, p + 1, 0x5B) == Scan::<()>::Done((), end));
    }
}

/// Skipping the pretty text of object entries and what closes the object.
#[verifier::spinoff_prover]
#[verifier::rlimit(90)]
proof fn lemma_pretty_members_skip(
    members: Seq<(Seq<u8>, Doc)>,
    first: bool,
    unit: Seq<u8>,
    m: nat,
    close: Seq<u8>,
    s: Seq<u8>,
    p: int,
)
    requires
        members_well_formed(members),
        all_ws(unit),
        closing_shape(close, 0x7D),
        is_ws(close[0]) || close[0] == 0x7D,
        0 <= p,
        p + pretty_members(members, first, unit, m).len() + close.len() <= s.len(),
        s.subrange(p, p + pretty_members(members, first, unit, m).len() + close.len()) == pretty_members(
            members,
            first,
            unit,
            m,
        ) + close,
    ensures
        skip_container(s, p, 0x7B, !first) == Scan::<()>::Done(
            (),
            p + pretty_members(members, first, unit, m).len() + close.len(),
        ),
    decreases members,
{
    let body = pretty_members(members, first, unit, m);
    if members.len() == 0 {
        assert(body + close =~= close);
        lemma_close_skips(s, p, close, 0x7D, !first);
    } else {
        let rest = members.subrange(1, members.len() as int);
        let key = members[0].0;
        let val = members[0].1;
        let sep = pretty_break(first, unit, m);
        let esc = escaped_text(key);
        let c0 = pretty_doc(val, unit, m);
        let tail = pretty_members(rest, false, unit, m) + close;
        let x4 = c0 + tail;
        let x3 = seq![0x3Au8, 0x20u8] + x4;
        let x2 = (esc + seq![QUOTE]) + x3;
        let x1 = seq![QUOTE] + x2;
        let k = p + sep.len();
        let q = k + 1 + esc.len() + 1;
        let v = q + 2;
        let e = v + c0.len();
        assert(s[k] == QUOTE && skip_str(s, k + 1) == Scan::<()>::Done((), q) && s[q] == 0x3A && is_ws(s[q + 1])
            && s.subrange(v, v + x4.len()) == x4 && s.subrange(p, p + sep.len()) == sep && body.len() + close.len()
            == e - p + tail.len()) by {
            assert(body + close =~= sep + x1);
            lemma_parts(s, p, sep, x1);
            lemma_parts(s, k, seq![QUOTE], x2);
            lemma_parts(s, k + 1, esc + seq![QUOTE], x3);
            lemma_parts(s, q, seq![0x3Au8, 0x20u8], x4);
            assert(s[k] == s.subrange(k, k + 1)[0]);
            assert(s[q] == s.subrange(q, q + 2)[0]);
            assert(s[q + 1] == s.subrange(q, q + 2)[1]);
            lemma_string_skips(key, s, k + 1);
        }
        assert(s[p] == (if first { NEWLINE } else { 0x2Cu8 }) && skip_ws(s, if first { p } else { p + 1 }) == k)
            by {
            lemma_break_shape(first, unit, m);
            assert(s[p] == s.subrange(p, p + sep.len())[0]);
            if first {
                lemma_skip_ws_over(s, p, sep);
            } else {
                assert(seq![0x2Cu8] + sep.drop_first() =~= sep);
                lemma_parts(s, p, seq![0x2Cu8], sep.drop_first());
                lemma_skip_ws_over(s, p + 1, sep.drop_first());
            }
            assert(skip_ws(s, k) == k);
        }
        assert(skip_value(s, q + 1) == Scan::<()>::Done((), e)) by {
            assert(s.subrange(q + 1, q + 2) =~= seq![s[q + 1]]);
            lemma_skip_value_after_ws(s, q + 1, seq![s[q + 1]]);
            lemma_parts(s, v, c0, tail);
            assert(s[e] == s.subrange(e, e + tail.len())[0]);
            if rest.len() > 0 {
                lemma_break_shape(false, unit, m);
                assert(tail[0] == 0x2C);
            } else {
                assert(tail[0] == close[0]);
            }
            lemma_pretty_skips(val, unit, m, s, v);
        }
        assert(skip_container(s, e, 0x7B, true) == Scan::<()>::Done((), e + tail.len())) by {
            lemma_parts(s, v, c0, tail);
            lemma_pretty_members_skip(rest, false, unit, m, close, s, e);
        }
        assert(skip_ws(s, q) == q);
        assert(skip_ws(s, p) == p || first);
    }
}


/// Skipping what closes an id map: whitespace, then its bracket.
proof fn lemma_id_map_close_skips(s: Seq<u8>, p: int, close: Seq<u8>, accept_comma: bool)
    requires
        closing_shape(close, 0x5D),
        0 <= p,
        p + close.len() <= s.len(),
        s.subrange(p, p + close.len()) == close,
    ensures
        skip_container(s, p, 0x3A, accept_comma) == Scan::<()>::Done((), p + close.len()),
{
    let q = p + close.len() - 1;
    assert(close.drop_last() + seq![0x5Du8] =~= close);
    lemma_parts(s, p, close.drop_last(), seq![0x5Du8]);
    assert(s[q] == s.subrange(q, q + 1)[0]);
    lemma_skip_ws_over(s, p, close.drop_last());
    assert(skip_ws(s, q) == q);
}

/// Skipping the pretty text of id map entries and what closes the id map.
#[verifier::spinoff_prover]
#[verifier::rlimit(100)]
proof fn lemma_pretty_entries_skip(
    entries: Seq<(ParserNumber, Doc)>,
    first: bool,
    unit: Seq<u8>,
    m: nat,
    close: Seq<u8>,
    s: Seq<u8>,
    p: int,
)
    requires
        entries_well_formed(entries),
        all_ws(unit),
        closing_shape(close, 0x5D),
        is_ws(close[0]) || close[0] == 0x5D,
        0 <= p,
        p + pretty_entries(entries, first, unit, m).len() + close.len() <= s.len(),
        s.subrange(p, p + pretty_entries(entries, first, unit, m).len() + close.len()) == pretty_entries(
            entries,
            first,
            unit,
            m,
        ) + close,
    ensures
        skip_container(s, p, 0x3A, !first) == Scan::<()>::Done(
            (),
            p + pretty_entries(entries, first, unit, m).len() + close.len(),
        ),
    decreases entries,
{
    let body = pretty_entries(entries, first, unit, m);
    if entries.len() == 0 {
        assert(body + close =~= close);
        lemma_id_map_close_skips(s, p, close, !first);
    } else {
        let rest = entries.subrange(1, entries.len() as int);
        let key = entries[0].0;
        let val = entries[0].1;
        let sep = pretty_break(first, unit, m);
        let nt = number_text(key);
        let c0 = pretty_doc(val, unit, m);
        let tail = pretty_entries(rest, false, unit, m) + close;
        let x4 = c0 + tail;
        let x3 = seq![0x3Au8, 0x20u8] + x4;
        let k = p + sep.len();
        let q = k + nt.len();
        let v = q + 2;
        let e = v + c0.len();
        assert(s.subrange(k, q) == nt && s[q] == 0x3A && is_ws(s[q + 1]) && s.subrange(v, v + x4.len()) == x4
            && s.subrange(p, p + sep.len()) == sep && body.len() + close.len() == e - p + tail.len()) by {
            assert(body + close =~= sep + (nt + x3));
            lemma_parts(s, p, sep, nt + x3);
            lemma_parts(s, k, nt, x3);
            lemma_parts(s, q, seq![0x3Au8, 0x20u8], x4);
            assert(s[q] == s.subrange(q, q + 2)[0]);
            assert(s[q + 1] == s.subrange(q, q + 2)[1]);
        }
        assert(key_skipped(s, k, q) && !is_ws(s[k])) by {
            reveal(key_skipped);
            lemma_key_skips(key, s, k);
        }
        assert(s[p] == (if first { NEWLINE } else { 0x2Cu8 }) && skip_ws(s, if first { p } else { p + 1 }) == k)
            by {
            lemma_break_shape(first, unit, m);
            assert(s[p] == s.subrange(p, p + sep.len())[0]);
            if first {
                lemma_skip_ws_over(s, p, sep);
            } else {
                assert(seq![0x2Cu8] + sep.drop_first() =~= sep);
                lemma_parts(s, p, seq![0x2Cu8], sep.drop_first());
                lemma_skip_ws_over(s, p + 1, sep.drop_first());
            }
            assert(skip_ws(s, k) == k);
        }
        assert(skip_value(s, q + 1) == Scan::<()>::Done((), e)) by {
            assert(s.subrange(q + 1, q + 2) =~= seq![s[q + 1]]);
            lemma_skip_value_after_ws(s, q + 1, seq![s[q + 1]]);
            lemma_parts(s, v, c0, tail);
            assert(s[e] == s.subrange(e, e + tail.len())[0]);
            if rest.len() > 0 {
                lemma_break_shape(false, unit, m);
                assert(tail[0] == 0x2C);
            } else {
                assert(tail[0] == close[0]);
            }
            lemma_pretty_skips(val, unit, m, s, v);
        }
        assert(skip_container(s, e, 0x3A, true) == Scan::<()>::Done((), e + tail.len())) by {
            lemma_parts(s, v, c0, tail);
            lemma_pretty_entries_skip(rest, false, unit, m, close, s, e);
        }
        lemma_id_map_member_skips(s, p, first, k, q, e, e + tail.len());
    }
}

/// Whether the integer key of an id map entry that starts at `k` is
/// skipped up to `q`.
#[verifier::opaque]
spec fn key_skipped(s: Seq<u8>, k: int, q: int) -> bool {
    &&& 0 <= k < s.len()
    &&& s[k] == 0x2D || digit_at(s, k)
    &&& (if s[k] == 0x2D {
        skip_integer(s, k + 1)
    } else {
        skip_integer(s, k)
    }) == Scan::<()>::Done((), q)
}

/// One entry of an id map and what follows it, reached from the break
/// before it: its integer key, the colon, the value, and the rest.
proof fn lemma_id_map_member_skips(s: Seq<u8>, p: int, first: bool, k: int, q: int, e: int, end: int)
    requires
        0 <= p < k < q < e <= s.len(),
        s[p] == (if first { NEWLINE } else { 0x2Cu8 }),
        skip_ws(s, if first { p } else { p + 1 }) == k,
        key_skipped(s, k, q),
        s[q] == 0x3A,
        skip_value(s, q + 1) == Scan::<()>::Done((), e),
        skip_container(s, e, 0x3A, true) == Scan::<()>::Done((), end),
    ensures
        skip_container(s, p, 0x3A, !first) == Scan::<()>::Done((), end),
{
    reveal(key_skipped);
    assert(skip_ws(s, q) == q);
    let start = if first { p } else { p + 1 };
    assert(member_start(s, start, 0x3A) == Scan::<()>::Done((), q + 1));
    assert(skip_member(s, start, 0x3A) == Scan::<()>::Done((), end));
    if !first {
        assert(skip_ws(s, p) == p);
    }
}

/// Skipping the pretty text of an id map, indented with whitespace: `[:`,
/// its entries on lines of their own and `]` are skipped whole as one
/// value, as any other value is.
#[verifier::spinoff_prover]
#[verifier::rlimit(40)]
pub proof fn lemma_pretty_id_map_skips(entries: Seq<(ParserNumber, Doc)>, unit: Seq<u8>, n: nat, s: Seq<u8>, i: int)
    requires
        entries_well_formed(entries),
        all_ws(unit),
        0 <= i,
        i + pretty_id_map(entries, unit, n).len() <= s.len(),
        s.subrange(i, i + pretty_id_map(entries, unit, n).len()) == pretty_id_map(entries, unit, n),
    ensures
        skip_value(s, i) == Scan::<()>::Done((), i + pretty_id_map(entries, unit, n).len()),
{
    let t = pretty_id_map(entries, unit, n);
    let close = pretty_close(entries.len() > 0, unit, n, 0x5D);
    let body = pretty_entries(entries, true, unit, n + 1) + close;
    assert(t =~= seq![0x5Bu8, 0x3Au8] + body);
    lemma_parts(s, i, seq![0x5Bu8, 0x3Au8], body);
    assert(s[i] == s.subrange(i, i + 2)[0]);
    assert(s[i + 1] == s.subrange(i, i + 2)[1]);
    assert(skip_ws(s, i) == i);
    lemma_close_shape(entries.len() > 0, unit, n, 0x5D);
    lemma_pretty_entries_skip(entries, true, unit, (n + 1) as nat, close, s, i + 2);
}

} // verus!
