//! Properties that tie the writer to the reader.
use vstd::prelude::*;
use crate::de::{ParserNumber, next_element, next_id_map_key, next_key, number_at};
use crate::grammar::{
    Scan, is_ws, scan_close_brace, scan_close_bracket, scan_colon, skip_ws, scan_ident, all_digits, decimal_value, digit_at, digit_value, integer_number, scan_after_integer,
    scan_integer, scan_integer_digits, u64_overflows, lemma_decimal_value_grows, scan_escape, scan_hex4, scan_str, scan_surrogate_tail, scan_unicode_escape, simple_escape,
    lemma_scan_str_escape, lemma_scan_str_quote, lemma_plain_run, skip_digits, skip_escape, skip_integer, skip_str,
    scan_digit_run, scan_integer128, scan_fraction, scan_exponent, scan_exponent_digits, i32_overflows,
};
use crate::ser::{
    CharEscape, Event, Formatter, PrettyFormatter, compact_layout, decimal, digits_of,
    escape_bytes, escape_of, escaped_text, hex_digit, repeat, value_bytes,
};
use crate::error::ErrorCode;
use crate::text::{BACKSLASH, NEWLINE, QUOTE, four_hex_value, hex_value, lemma_wtf8_scalar, spec_is_escape, wtf8_encode};

verus! {

/// A lowercase hex digit reads back as its value.
proof fn lemma_hex_digit(n: u8)
    requires
        n < 16,
    ensures
        hex_value(hex_digit(n)) == Some(n),
{
}

/// An escape as written reads back as the byte it stands for.
proof fn lemma_escape_reads_back(s: Seq<u8>, i: int, b: u8, validate: bool)
    requires
        escape_of(b) is Some,
        0 <= i,
        i + escape_bytes(escape_of(b).unwrap()).len() <= s.len(),
        s.subrange(i, i + escape_bytes(escape_of(b).unwrap()).len()) == escape_bytes(escape_of(b).unwrap()),
    ensures
        s[i] == BACKSLASH,
        scan_escape(s, i + 1, validate) == Scan::Done(seq![b], i + escape_bytes(escape_of(b).unwrap()).len()),
{
    let e = escape_of(b).unwrap();
    let w = escape_bytes(e);
    assert(s[i] == w[0]);
    assert(s[i + 1] == w[1]);
    match e {
        CharEscape::AsciiControl(c) => {
            assert(c == b);
            assert(s[i + 2] == w[2] && s[i + 3] == w[3] && s[i + 4] == w[4] && s[i + 5] == w[5]);
            lemma_hex_digit(b / 16);
            lemma_hex_digit(b % 16);
            assert(four_hex_value(s[i + 2], s[i + 3], s[i + 4], s[i + 5]) == Some(b as u16));
            assert(scan_hex4(s, i + 2) == Scan::Done(b as u16, i + 6));
            assert(wtf8_encode(b as u16 as u32) == seq![b]);
            assert(scan_surrogate_tail(s, b as u16, i + 6, validate) == Scan::<Seq<u8>>::Done(seq![b], i + 6));
            assert(scan_unicode_escape(s, i + 2, validate) == Scan::<Seq<u8>>::Done(seq![b], i + 6));
        },
        _ => {
            assert(simple_escape(s[i + 1]) == Some(b));
        },
    }
}

/// Reading back what the writer makes of a string: the escaped text of
/// any bytes `v`, then a closing quote, read as a string body from where it
/// stands, gives back `v` and ends just past the quote.  This holds whether
/// or not control characters are refused, since the writer escapes them.
pub proof fn lemma_string_reads_back(v: Seq<u8>, s: Seq<u8>, i: int, validate: bool)
    requires
        0 <= i,
        i + escaped_text(v).len() + 1 <= s.len(),
        s.subrange(i, i + escaped_text(v).len() + 1) == escaped_text(v) + seq![QUOTE],
    ensures
        scan_str(s, i, validate) == Scan::Done(v, i + escaped_text(v).len() + 1),
    decreases v.len(),
{
    let t = escaped_text(v);
    if v.len() == 0 {
        assert(s[i] == (t + seq![QUOTE])[0]);
        lemma_scan_str_quote(s, i, validate);
        assert(v =~= Seq::<u8>::empty());
    } else {
        let b = v[0];
        let rest = escaped_text(v.drop_first());
        let head = match escape_of(b) {
            Some(e) => escape_bytes(e),
            None => seq![b],
        };
        assert(t == head + rest);
        let j = i + head.len();
        assert(s.subrange(j, j + rest.len() + 1) =~= rest + seq![QUOTE]) by {
            assert forall|k: int| 0 <= k < rest.len() + 1 implies #[trigger] s.subrange(j, j + rest.len() + 1)[k] == (rest + seq![QUOTE])[k] by {
                assert(s.subrange(i, i + t.len() + 1)[head.len() + k] == s[j + k]);
                assert((t + seq![QUOTE])[head.len() + k] == (rest + seq![QUOTE])[k]);
            }
        }
        lemma_string_reads_back(v.drop_first(), s, j, validate);
        match escape_of(b) {
            Some(e) => {
                assert(s.subrange(i, i + head.len()) =~= head) by {
                    assert forall|k: int| 0 <= k < head.len() implies #[trigger] s.subrange(i, i + head.len())[k] == head[k] by {
                        assert(s.subrange(i, i + t.len() + 1)[k] == s[i + k]);
                        assert((t + seq![QUOTE])[k] == head[k]);
                    }
                }
                lemma_escape_reads_back(s, i, b, validate);
                lemma_scan_str_escape(s, i, validate);
                assert(seq![b] + v.drop_first() =~= v);
            },
            None => {
                assert(s[i] == (t + seq![QUOTE])[0]);
                assert(s[i] == b);
                assert(!spec_is_escape(s[i], validate));
                lemma_plain_run(s, i, i + 1, validate);
                assert(s.subrange(i, i + 1) =~= seq![b]);
                assert(seq![b] + v.drop_first() =~= v);
            },
        }
    }
}

/// An escape as written is skipped whole.
proof fn lemma_escape_skips(s: Seq<u8>, i: int, b: u8)
    requires
        escape_of(b) is Some,
        0 <= i,
        i + escape_bytes(escape_of(b).unwrap()).len() <= s.len(),
        s.subrange(i, i + escape_bytes(escape_of(b).unwrap()).len()) == escape_bytes(escape_of(b).unwrap()),
    ensures
        s[i] == BACKSLASH,
        skip_escape(s, i + 1) == Scan::<()>::Done((), i + escape_bytes(escape_of(b).unwrap()).len()),
{
    let e = escape_of(b).unwrap();
    let w = escape_bytes(e);
    assert(s[i] == w[0]);
    assert(s[i + 1] == w[1]);
    match e {
        CharEscape::AsciiControl(c) => {
            assert(s[i + 2] == w[2] && s[i + 3] == w[3] && s[i + 4] == w[4] && s[i + 5] == w[5]);
            lemma_hex_digit(b / 16);
            lemma_hex_digit(b % 16);
            assert(four_hex_value(s[i + 2], s[i + 3], s[i + 4], s[i + 5]) == Some(b as u16));
            assert(scan_hex4(s, i + 2) == Scan::Done(b as u16, i + 6));
        },
        _ => {},
    }
}

/// Skipping what the writer makes of a string: the escaped text of any
/// bytes `v`, then a closing quote, is skipped as a string body from where
/// it stands, ending just past the quote.
pub proof fn lemma_string_skips(v: Seq<u8>, s: Seq<u8>, i: int)
    requires
        0 <= i,
        i + escaped_text(v).len() + 1 <= s.len(),
        s.subrange(i, i + escaped_text(v).len() + 1) == escaped_text(v) + seq![QUOTE],
    ensures
        skip_str(s, i) == Scan::<()>::Done((), i + escaped_text(v).len() + 1),
    decreases v.len(),
{
    let t = escaped_text(v);
    if v.len() == 0 {
        assert(s[i] == (t + seq![QUOTE])[0]);
    } else {
        let b = v[0];
        let rest = escaped_text(v.drop_first());
        let head = match escape_of(b) {
            Some(e) => escape_bytes(e),
            None => seq![b],
        };
        assert(t == head + rest);
        let j = i + head.len();
        assert(s.subrange(j, j + rest.len() + 1) =~= rest + seq![QUOTE]) by {
            assert forall|k: int| 0 <= k < rest.len() + 1 implies #[trigger] s.subrange(j, j + rest.len() + 1)[k] == (rest + seq![QUOTE])[k] by {
                assert(s.subrange(i, i + t.len() + 1)[head.len() + k] == s[j + k]);
                assert((t + seq![QUOTE])[head.len() + k] == (rest + seq![QUOTE])[k]);
            }
        }
        lemma_string_skips(v.drop_first(), s, j);
        match escape_of(b) {
            Some(e) => {
                assert(s.subrange(i, i + head.len()) =~= head) by {
                    assert forall|k: int| 0 <= k < head.len() implies #[trigger] s.subrange(i, i + head.len())[k] == head[k] by {
                        assert(s.subrange(i, i + t.len() + 1)[k] == s[i + k]);
                        assert((t + seq![QUOTE])[k] == head[k]);
                    }
                }
                lemma_escape_skips(s, i, b);
            },
            None => {
                assert(s[i] == (t + seq![QUOTE])[0]);
                assert(s[i] == b);
            },
        }
    }
}

/// A run of digits up to a byte that is no digit is skipped to that byte.
proof fn lemma_digits_skip(s: Seq<u8>, p: int, e: int)
    requires
        0 <= p <= e <= s.len(),
        forall|k: int| p <= k < e ==> digit_at(s, k),
        !digit_at(s, e),
    ensures
        skip_digits(s, p) == Scan::<()>::Done((), e),
    decreases e - p,
{
    if p < e {
        lemma_digits_skip(s, p + 1, e);
    }
}

/// Skipping what the writer makes of an integer's magnitude: the decimal
/// digits of any `m`, at the end of the input or followed by a byte that
/// does not continue a number, are skipped as a number, ending where the
/// digits end.
pub proof fn lemma_integer_skips(m: nat, s: Seq<u8>, i: int)
    requires
        0 <= i,
        i + digits_of(m).len() <= s.len(),
        s.subrange(i, i + digits_of(m).len()) == digits_of(m),
        ends_number(s, i + digits_of(m).len()),
    ensures
        skip_integer(s, i) == Scan::<()>::Done((), i + digits_of(m).len()),
{
    let d = digits_of(m);
    lemma_digits_of(m);
    assert(s[i] == s.subrange(i, i + d.len())[0]);
    let e = i + d.len();
    assert forall|k: int| i <= k < e implies digit_at(s, k) by {
        assert(s[k] == s.subrange(i, i + d.len())[k - i]);
        assert(0x30 <= d[k - i] <= 0x39);
    }
    if m == 0 {
        assert(!digit_at(s, i + 1));
    } else {
        lemma_digits_skip(s, i + 1, e);
    }
}

/// The decimal digits of `m`: digits only, at least one, no leading zero,
/// and their value is `m`.
pub proof fn lemma_digits_of(m: nat)
    ensures
        all_digits(digits_of(m)),
        digits_of(m).len() >= 1,
        decimal_value(digits_of(m)) == m,
        m == 0 ==> digits_of(m) == seq![0x30u8],
        m > 0 ==> digits_of(m)[0] != 0x30,
    decreases m,
{
    let d = digits_of(m);
    if m >= 10 {
        lemma_digits_of(m / 10);
        let p = digits_of(m / 10);
        assert(d == p.push((0x30 + m % 10) as u8));
        assert(d.drop_last() =~= p);
        assert(d[0] == p[0]);
        assert forall|k: int| 0 <= k < d.len() implies 0x30 <= #[trigger] d[k] <= 0x39 by {
            if k < p.len() {
                assert(d[k] == p[k]);
            }
        }
        assert(d.last() - 0x30 == m % 10);
        assert(m == (m / 10) * 10 + m % 10) by (nonlinear_arith);
        assert(decimal_value(d) == decimal_value(p) * 10 + (d.last() - 0x30));
    } else {
        assert(d.drop_last() =~= Seq::<u8>::empty());
        reveal_with_fuel(decimal_value, 2);
    }
}

/// A number that ends where its digits do: at the end of the input, or
/// before a byte that does not continue a number.
pub open spec fn ends_number(s: Seq<u8>, e: int) -> bool {
    &&& 0 <= e <= s.len()
    &&& e < s.len() ==> {
        &&& !(0x30 <= s[e] <= 0x39)
        &&& s[e] != 0x2E
        &&& s[e] != 0x65
        &&& s[e] != 0x45
    }
}

/// Digits read one after the other add up to their value.
proof fn lemma_integer_digits_read(s: Seq<u8>, i: int, d: Seq<u8>, k: int, positive: bool)
    requires
        all_digits(d),
        1 <= k <= d.len(),
        0 <= i,
        i + d.len() <= s.len(),
        s.subrange(i, i + d.len()) == d,
        ends_number(s, i + d.len()),
        decimal_value(d) <= u64::MAX,
    ensures
        scan_integer_digits(s, i + k, positive, decimal_value(d.take(k)) as u64) == Scan::Done(
            integer_number(positive, decimal_value(d) as u64),
            i + d.len(),
        ),
    decreases d.len() - k,
{
    lemma_decimal_value_grows(d, k);
    if k == d.len() {
        assert(d.take(k) =~= d);
        assert(!digit_at(s, i + k));
        assert(scan_after_integer(s, i + k, positive, decimal_value(d) as u64) == Scan::Done(
            integer_number(positive, decimal_value(d) as u64),
            i + d.len(),
        ));
    } else {
        lemma_decimal_value_grows(d, k + 1);
        assert(d.take(k + 1).drop_last() =~= d.take(k));
        assert(s[i + k] == s.subrange(i, i + d.len())[k]);
        assert(s[i + k] == d[k]);
        assert(d.take(k + 1).last() == d[k]);
        let sig = decimal_value(d.take(k)) as u64;
        assert(digit_at(s, i + k));
        assert(decimal_value(d.take(k + 1)) == sig * 10 + digit_value(s, i + k));
        assert(!u64_overflows(sig, digit_value(s, i + k)));
        lemma_integer_digits_read(s, i, d, k + 1, positive);
    }
}

/// Reading back what the writer makes of an integer's magnitude: the
/// decimal digits of any `m` that fits in a `u64`, at the end of the input
/// or followed by a byte that does not continue a number, are read as the integer `m` (negated when
/// the reader has already taken a minus sign), ending where the digits end.
pub proof fn lemma_integer_reads_back(m: u64, s: Seq<u8>, i: int, positive: bool)
    requires
        0 <= i,
        i + digits_of(m as nat).len() <= s.len(),
        s.subrange(i, i + digits_of(m as nat).len()) == digits_of(m as nat),
        ends_number(s, i + digits_of(m as nat).len()),
    ensures
        scan_integer(s, i, positive) == Scan::Done(integer_number(positive, m), i + digits_of(m as nat).len()),
{
    let d = digits_of(m as nat);
    lemma_digits_of(m as nat);
    assert(s[i] == s.subrange(i, i + d.len())[0]);
    if m == 0 {
        assert(!digit_at(s, i + 1));
    } else {
        assert(d.take(1).drop_last() =~= Seq::<u8>::empty());
        assert(d.take(1).last() == d[0]);
        reveal_with_fuel(decimal_value, 2);
        assert(decimal_value(d.take(1)) == d[0] - 0x30);
        lemma_integer_digits_read(s, i, d, 1, positive);
    }
}

/// Reading back a written signed integer: `decimal(n)` for any `i64`, at
/// the end of the input or followed by a byte that does not continue a
/// number, reads as `n`, after
/// the minus sign when there is one.
pub proof fn lemma_i64_reads_back(n: i64, s: Seq<u8>, i: int)
    requires
        0 <= i,
        i + decimal(n as int).len() <= s.len(),
        s.subrange(i, i + decimal(n as int).len()) == decimal(n as int),
        ends_number(s, i + decimal(n as int).len()),
    ensures
        n < 0 ==> s[i] == 0x2D && scan_integer(s, i + 1, false) == Scan::Done(
            ParserNumber::I64(n),
            i + decimal(n as int).len(),
        ),
        n >= 0 ==> scan_integer(s, i, true) == Scan::Done(ParserNumber::U64(n as u64), i + decimal(n as int).len()),
{
    if n < 0 {
        let m = (-n) as u64;
        let d = digits_of(m as nat);
        assert(decimal(n as int) == seq![0x2Du8] + d);
        assert(s[i] == s.subrange(i, i + decimal(n as int).len())[0]);
        assert(s.subrange(i + 1, i + 1 + d.len()) =~= d) by {
            assert forall|k: int| 0 <= k < d.len() implies #[trigger] s.subrange(i + 1, i + 1 + d.len())[k] == d[k] by {
                assert(s.subrange(i, i + decimal(n as int).len())[k + 1] == s[i + 1 + k]);
            }
        }
        lemma_integer_reads_back(m, s, i + 1, false);
    } else {
        lemma_integer_reads_back(n as u64, s, i, true);
    }
}

/// A run of digits up to a byte that is no digit is collected whole.
proof fn lemma_digit_run_collects(s: Seq<u8>, i: int, d: Seq<u8>, k: int)
    requires
        all_digits(d),
        1 <= k <= d.len(),
        0 <= i,
        i + d.len() <= s.len(),
        s.subrange(i, i + d.len()) == d,
        !digit_at(s, i + d.len()),
    ensures
        scan_digit_run(s, i + k, d.take(k)) == Scan::Done(d, i + d.len()),
    decreases d.len() - k,
{
    if k == d.len() {
        assert(d.take(k) =~= d);
    } else {
        assert(s[i + k] == s.subrange(i, i + d.len())[k]);
        assert(digit_at(s, i + k));
        assert(d.take(k).push(s[i + k]) =~= d.take(k + 1));
        lemma_digit_run_collects(s, i, d, k + 1);
    }
}

/// Reading back the digits of a written 128-bit integer: the decimal
/// digits of any `m`, at the end of the input or followed by a byte that is
/// no digit, are collected whole by the 128-bit reader, and their value is
/// `m`.
pub proof fn lemma_digits128_read_back(m: nat, s: Seq<u8>, i: int)
    requires
        0 <= i,
        i + digits_of(m).len() <= s.len(),
        s.subrange(i, i + digits_of(m).len()) == digits_of(m),
        !digit_at(s, i + digits_of(m).len()),
    ensures
        scan_integer128(s, i) == Scan::Done(digits_of(m), i + digits_of(m).len()),
        decimal_value(digits_of(m)) == m,
{
    let d = digits_of(m);
    lemma_digits_of(m);
    assert(s[i] == s.subrange(i, i + d.len())[0]);
    if m > 0 {
        assert(d.take(1) =~= seq![s[i]]);
        lemma_digit_run_collects(s, i, d, 1);
    }
}

/// Reading back a written `i128`: its decimal text, at the end of the input
/// or followed by a byte that is no digit, starts with a minus sign exactly when it is negative,
/// and the 128-bit reader collects after the sign the digits whose value,
/// with that sign, is the integer, ending where the text ends.
pub proof fn lemma_i128_reads_back(n: i128, s: Seq<u8>, i: int)
    requires
        0 <= i,
        i + decimal(n as int).len() <= s.len(),
        s.subrange(i, i + decimal(n as int).len()) == decimal(n as int),
        !digit_at(s, i + decimal(n as int).len()),
    ensures
        (s[i] == 0x2D) == (n < 0),
        scan_integer128(s, if n < 0 { i + 1 } else { i }) matches Scan::Done(d, e) && e == i + decimal(
            n as int,
        ).len() && (if n < 0 { -decimal_value(d) } else { decimal_value(d) }) == n,
{
    assert(s[i] == s.subrange(i, i + decimal(n as int).len())[0]);
    if n < 0 {
        let m = (-n) as nat;
        let d = digits_of(m);
        assert(decimal(n as int) == seq![0x2Du8] + d);
        assert(s.subrange(i + 1, i + 1 + d.len()) =~= d) by {
            assert forall|k: int| 0 <= k < d.len() implies #[trigger] s.subrange(i + 1, i + 1 + d.len())[k] == d[k] by {
                assert(s.subrange(i, i + decimal(n as int).len())[k + 1] == s[i + 1 + k]);
            }
        }
        lemma_digits128_read_back(m, s, i + 1);
    } else {
        lemma_digits_of(n as nat);
        assert(0x30 <= digits_of(n as nat)[0] <= 0x39);
        lemma_digits128_read_back(n as nat, s, i);
    }
}

/// Bytes that are there are matched one by one.
proof fn lemma_ident_matches(s: Seq<u8>, i: int, ident: Seq<u8>)
    requires
        0 <= i,
        i + ident.len() <= s.len(),
        s.subrange(i, i + ident.len()) == ident,
    ensures
        scan_ident(s, i, ident) == Scan::<()>::Done((), i + ident.len()),
    decreases ident.len(),
{
    if ident.len() > 0 {
        assert(s[i] == s.subrange(i, i + ident.len())[0]);
        assert(s.subrange(i + 1, i + ident.len()) =~= ident.drop_first()) by {
            assert forall|k: int| 0 <= k < ident.len() - 1 implies #[trigger] s.subrange(i + 1, i + ident.len())[k] == ident.drop_first()[k] by {
                assert(s.subrange(i, i + ident.len())[k + 1] == s[i + 1 + k]);
            }
        }
        lemma_ident_matches(s, i + 1, ident.drop_first());
    }
}

/// Reading back `null`, `true` and `false` as written: the reader, having
/// taken the first letter, matches the rest and ends where the word does.
pub proof fn lemma_word_reads_back(ev: Event, s: Seq<u8>, i: int)
    requires
        ev is Null || ev is Bool,
        0 <= i,
        i + value_bytes(ev).len() <= s.len(),
        s.subrange(i, i + value_bytes(ev).len()) == value_bytes(ev),
    ensures
        scan_ident(s, i + 1, value_bytes(ev).drop_first()) == Scan::<()>::Done((), i + value_bytes(ev).len()),
        s[i] == value_bytes(ev)[0],
{
    let w = value_bytes(ev);
    assert(s[i] == s.subrange(i, i + w.len())[0]);
    assert(s.subrange(i + 1, i + w.len()) =~= w.drop_first()) by {
        assert forall|k: int| 0 <= k < w.len() - 1 implies #[trigger] s.subrange(i + 1, i + w.len())[k] == w.drop_first()[k] by {
            assert(s.subrange(i, i + w.len())[k + 1] == s[i + 1 + k]);
        }
    }
    lemma_ident_matches(s, i + 1, w.drop_first());
}

/// Reading back an integer map key as written, `"` and the decimal text of
/// any `i64` and `"`: from the opening quote, the byte after it starts a
/// number, the number read there is the integer, and the closing quote
/// stands right after it.
pub proof fn lemma_numeric_key_reads_back(n: i64, s: Seq<u8>, i: int)
    requires
        0 <= i,
        i + decimal(n as int).len() + 2 <= s.len(),
        s.subrange(i, i + decimal(n as int).len() + 2) == seq![QUOTE] + decimal(n as int) + seq![QUOTE],
    ensures
        s[i] == QUOTE,
        digit_at(s, i + 1) || s[i + 1] == 0x2D,
        number_at(s, i + 1) == Scan::Done(
            Some(
                if n >= 0 {
                    ParserNumber::U64(n as u64)
                } else {
                    ParserNumber::I64(n)
                },
            ),
            i + 1 + decimal(n as int).len(),
        ),
        s[i + 1 + decimal(n as int).len()] == QUOTE,
{
    let d = decimal(n as int);
    let w = seq![QUOTE] + d + seq![QUOTE];
    assert(s[i] == s.subrange(i, i + w.len())[0]);
    assert(s.subrange(i + 1, i + 1 + d.len()) =~= d) by {
        assert forall|k: int| 0 <= k < d.len() implies #[trigger] s.subrange(i + 1, i + 1 + d.len())[k] == d[k] by {
            assert(s.subrange(i, i + w.len())[k + 1] == s[i + 1 + k]);
            assert(w[k + 1] == d[k]);
        }
    }
    assert(s[i + 1 + d.len()] == s.subrange(i, i + w.len())[d.len() + 1 as int]);
    lemma_i64_reads_back(n, s, i + 1);
    if n >= 0 {
        lemma_digits_of(n as nat);
        assert(0x30 <= digits_of(n as nat)[0] <= 0x39);
    }
    assert(s[i + 1] == d[0]);
    assert(skip_ws(s, i + 1) == i + 1);
}

/// Reading back a boolean map key as written, `"true"` or `"false"`: from
/// the opening quote, the first letter tells which, and the rest of the
/// word with its closing quote matches.
pub proof fn lemma_bool_key_reads_back(b: bool, s: Seq<u8>, i: int)
    requires
        0 <= i,
        i + value_bytes(Event::Bool(b)).len() + 2 <= s.len(),
        s.subrange(i, i + value_bytes(Event::Bool(b)).len() + 2) == seq![QUOTE] + value_bytes(Event::Bool(b))
            + seq![QUOTE],
    ensures
        s[i + 1] == if b {
            0x74u8
        } else {
            0x66u8
        },
        scan_ident(
            s,
            i + 2,
            if b {
                seq![0x72u8, 0x75u8, 0x65u8, 0x22u8]
            } else {
                seq![0x61u8, 0x6Cu8, 0x73u8, 0x65u8, 0x22u8]
            },
        ) == Scan::<()>::Done((), i + value_bytes(Event::Bool(b)).len() + 2),
{
    let v = value_bytes(Event::Bool(b));
    let w = seq![QUOTE] + v + seq![QUOTE];
    assert(value_bytes(Event::Bool(true)) =~= seq![0x74u8, 0x72u8, 0x75u8, 0x65u8]);
    assert(value_bytes(Event::Bool(false)) =~= seq![0x66u8, 0x61u8, 0x6Cu8, 0x73u8, 0x65u8]);
    let rest = if b {
        seq![0x72u8, 0x75u8, 0x65u8, 0x22u8]
    } else {
        seq![0x61u8, 0x6Cu8, 0x73u8, 0x65u8, 0x22u8]
    };
    assert(w.subrange(2, w.len() as int) =~= rest);
    assert(s[i + 1] == s.subrange(i, i + w.len())[1]);
    assert(s.subrange(i + 2, i + 2 + rest.len()) =~= rest) by {
        assert forall|k: int| 0 <= k < rest.len() implies #[trigger] s.subrange(i + 2, i + 2 + rest.len())[k] == rest[k] by {
            assert(s.subrange(i, i + w.len())[k + 2] == s[i + 2 + k]);
            assert(w[k + 2] == rest[k]);
        }
    }
    lemma_ident_matches(s, i + 2, rest);
}

/// Whether every byte of `w` is whitespace.
pub open spec fn all_ws(w: Seq<u8>) -> bool {
    forall|k: int| 0 <= k < w.len() ==> is_ws(#[trigger] w[k])
}

/// Whether `b` can begin a value as the writer writes one: the first
/// letter of `null`, `true` or `false`, a minus sign or a digit, a quote,
/// or an opening bracket.
pub open spec fn begins_value(b: u8) -> bool {
    b == 0x6E || b == 0x74 || b == 0x66 || b == 0x2D || (0x30 <= b <= 0x39) || b == QUOTE || b == 0x5B
        || b == 0x7B
}

/// What may stand before an element, key or entry: whitespace before the
/// first, a comma and whitespace before the others.
pub open spec fn separator_shape(sep: Seq<u8>, first: bool) -> bool {
    if first {
        all_ws(sep)
    } else {
        sep.len() >= 1 && sep[0] == 0x2C && all_ws(sep.drop_first())
    }
}

/// What may close a container: whitespace, then the closing bracket.
pub open spec fn closing_shape(close: Seq<u8>, bracket: u8) -> bool {
    close.len() >= 1 && close.last() == bracket && all_ws(close.drop_last())
}

/// What may come between a key and its value: a colon, then whitespace.
pub open spec fn colon_shape(c: Seq<u8>) -> bool {
    c.len() >= 1 && c[0] == 0x3A && all_ws(c.drop_first())
}

/// Whitespace written at `p` is skipped whole.
pub proof fn lemma_skip_ws_over(s: Seq<u8>, p: int, w: Seq<u8>)
    requires
        0 <= p,
        p + w.len() <= s.len(),
        s.subrange(p, p + w.len()) == w,
        all_ws(w),
    ensures
        skip_ws(s, p) == skip_ws(s, p + w.len()),
    decreases w.len(),
{
    if w.len() > 0 {
        assert(s[p] == s.subrange(p, p + w.len())[0]);
        assert(s.subrange(p + 1, p + w.len()) =~= w.drop_first()) by {
            assert forall|k: int| 0 <= k < w.len() - 1 implies #[trigger] s.subrange(p + 1, p + w.len())[k] == w.drop_first()[k] by {
                assert(s.subrange(p, p + w.len())[k + 1] == s[p + 1 + k]);
            }
        }
        lemma_skip_ws_over(s, p + 1, w.drop_first());
    }
}

/// The byte at `p + k` of what was written at `p`.
proof fn lemma_written_at(s: Seq<u8>, p: int, w: Seq<u8>, k: int)
    requires
        0 <= p,
        p + w.len() <= s.len(),
        s.subrange(p, p + w.len()) == w,
        0 <= k < w.len(),
    ensures
        s[p + k] == w[k],
{
    assert(s.subrange(p, p + w.len())[k] == s[p + k]);
}

/// Reading back the layout before an element, key or entry: after a
/// separator of that shape, the reader finds another element of an array
/// or entry of an id map where the value written after it begins, and
/// another key of an object where its opening quote is.
pub proof fn lemma_separator_reads_back(s: Seq<u8>, p: int, first: bool, sep: Seq<u8>)
    requires
        0 <= p,
        p + sep.len() < s.len(),
        s.subrange(p, p + sep.len()) == sep,
        separator_shape(sep, first),
        begins_value(s[p + sep.len()]),
    ensures
        next_element(s, p, first) == Scan::Done(true, p + sep.len()),
        next_id_map_key(s, p, first) == Scan::Done(true, p + sep.len()),
        s[p + sep.len()] == QUOTE ==> next_key(s, p, first) == Scan::Done(true, p + sep.len()),
{
    let q = p + sep.len();
    assert(skip_ws(s, q) == q);
    if first {
        lemma_skip_ws_over(s, p, sep);
    } else {
        lemma_written_at(s, p, sep, 0);
        assert(skip_ws(s, p) == p);
        assert(s.subrange(p + 1, q) =~= sep.drop_first()) by {
            assert forall|k: int| 0 <= k < sep.len() - 1 implies #[trigger] s.subrange(p + 1, q)[k] == sep.drop_first()[k] by {
                lemma_written_at(s, p, sep, k + 1);
            }
        }
        lemma_skip_ws_over(s, p + 1, sep.drop_first());
    }
}

/// Reading back the layout that closes a container: after the last
/// element or entry, the reader finds no other but the closing bracket,
/// and reads it.
pub proof fn lemma_closing_reads_back(s: Seq<u8>, p: int, first: bool, close: Seq<u8>, bracket: u8)
    requires
        0 <= p,
        p + close.len() <= s.len(),
        s.subrange(p, p + close.len()) == close,
        closing_shape(close, bracket),
        bracket == 0x5D || bracket == 0x7D,
    ensures
        bracket == 0x5D ==> next_element(s, p, first) == Scan::Done(false, p + close.len() - 1),
        bracket == 0x5D ==> next_id_map_key(s, p, first) == Scan::Done(false, p + close.len() - 1),
        bracket == 0x5D ==> scan_close_bracket(s, p + close.len() - 1, ErrorCode::EofWhileParsingArray)
            == Scan::Done((), p + close.len()),
        bracket == 0x5D ==> scan_close_bracket(s, p + close.len() - 1, ErrorCode::EofWhileParsingIdMap)
            == Scan::Done((), p + close.len()),
        bracket == 0x7D ==> next_key(s, p, first) == Scan::Done(false, p + close.len() - 1),
        bracket == 0x7D ==> scan_close_brace(s, p + close.len() - 1) == Scan::Done((), p + close.len()),
{
    let q = p + close.len() - 1;
    lemma_written_at(s, p, close, close.len() - 1);
    assert(s.subrange(p, q) =~= close.drop_last()) by {
        assert forall|k: int| 0 <= k < close.len() - 1 implies #[trigger] s.subrange(p, q)[k] == close.drop_last()[k] by {
            lemma_written_at(s, p, close, k);
        }
    }
    lemma_skip_ws_over(s, p, close.drop_last());
    assert(skip_ws(s, q) == q);
}

/// Reading back the layout between a key and its value: the reader finds
/// the colon right where it was written.
pub proof fn lemma_colon_reads_back(s: Seq<u8>, p: int, c: Seq<u8>)
    requires
        0 <= p,
        p + c.len() <= s.len(),
        s.subrange(p, p + c.len()) == c,
        colon_shape(c),
    ensures
        scan_colon(s, p) == Scan::<()>::Done((), p + 1),
{
    lemma_written_at(s, p, c, 0);
    assert(skip_ws(s, p) == p);
}

/// Whitespace repeated is whitespace.
pub proof fn lemma_repeat_ws(unit: Seq<u8>, n: nat)
    requires
        all_ws(unit),
    ensures
        all_ws(repeat(unit, n)),
    decreases n,
{
    if n > 0 {
        lemma_repeat_ws(unit, (n - 1) as nat);
        let r = repeat(unit, (n - 1) as nat);
        assert forall|k: int| 0 <= k < repeat(unit, n).len() implies is_ws(#[trigger] repeat(unit, n)[k]) by {
            if k < r.len() {
                assert(repeat(unit, n)[k] == r[k]);
            } else {
                assert(repeat(unit, n)[k] == unit[k - r.len()]);
            }
        }
    }
}

/// The compact layout has the shapes that the reader reads back.
pub proof fn lemma_compact_shapes(first: bool)
    ensures
        separator_shape(compact_layout(Event::BeginArrayValue(first)), first),
        separator_shape(compact_layout(Event::BeginObjectKey(first)), first),
        separator_shape(compact_layout(Event::BeginIdMapKey(first)), first),
        closing_shape(compact_layout(Event::EndArray), 0x5D),
        closing_shape(compact_layout(Event::EndObject), 0x7D),
        closing_shape(compact_layout(Event::EndIdMap), 0x5D),
        colon_shape(compact_layout(Event::BeginObjectValue)),
        colon_shape(compact_layout(Event::BeginIdMapValue)),
        compact_layout(Event::EndArrayValue).len() == 0,
        compact_layout(Event::EndObjectKey).len() == 0,
        compact_layout(Event::EndObjectValue).len() == 0,
        compact_layout(Event::EndIdMapKey).len() == 0,
        compact_layout(Event::EndIdMapValue).len() == 0,
{
    assert(seq![0x5Du8].drop_last() =~= Seq::<u8>::empty());
    assert(seq![0x7Du8].drop_last() =~= Seq::<u8>::empty());
    assert(seq![0x3Au8].drop_first() =~= Seq::<u8>::empty());
    assert(seq![0x2Cu8].drop_first() =~= Seq::<u8>::empty());
}

/// The pretty layout has the shapes that the reader reads back, when it
/// indents with whitespace.
pub proof fn lemma_pretty_shapes<'a>(f: PrettyFormatter<'a>, first: bool)
    requires
        all_ws(f.indent_unit()),
        f.depth() > 0,
    ensures
        separator_shape(f.emits(Event::BeginArrayValue(first)), first),
        separator_shape(f.emits(Event::BeginObjectKey(first)), first),
        separator_shape(f.emits(Event::BeginIdMapKey(first)), first),
        closing_shape(f.emits(Event::EndArray), 0x5D),
        closing_shape(f.emits(Event::EndObject), 0x7D),
        closing_shape(f.emits(Event::EndIdMap), 0x5D),
        colon_shape(f.emits(Event::BeginObjectValue)),
        colon_shape(f.emits(Event::BeginIdMapValue)),
        f.emits(Event::EndArrayValue).len() == 0,
        f.emits(Event::EndObjectKey).len() == 0,
        f.emits(Event::EndObjectValue).len() == 0,
        f.emits(Event::EndIdMapKey).len() == 0,
        f.emits(Event::EndIdMapValue).len() == 0,
{
    let ind = repeat(f.indent_unit(), f.depth() as nat);
    let ind1 = repeat(f.indent_unit(), (f.depth() - 1) as nat);
    lemma_repeat_ws(f.indent_unit(), f.depth() as nat);
    lemma_repeat_ws(f.indent_unit(), (f.depth() - 1) as nat);
    let lb = f.line_break(first);
    if first {
        assert forall|k: int| 0 <= k < lb.len() implies is_ws(#[trigger] lb[k]) by {
            if k > 0 {
                assert(lb[k] == ind[k - 1]);
            }
        }
    } else {
        assert(lb.drop_first() =~= seq![NEWLINE] + ind);
        assert forall|k: int| 0 <= k < lb.drop_first().len() implies is_ws(#[trigger] lb.drop_first()[k]) by {
            if k > 0 {
                assert(lb.drop_first()[k] == ind[k - 1]);
            }
        }
    }
    assert forall|b: u8| b == 0x5D || b == 0x7D implies closing_shape(#[trigger] f.closing(b), b) by {
        let c = f.closing(b);
        if f.holds_value() {
            assert(c.drop_last() =~= seq![NEWLINE] + ind1);
            assert forall|k: int| 0 <= k < c.drop_last().len() implies is_ws(#[trigger] c.drop_last()[k]) by {
                if k > 0 {
                    assert(c.drop_last()[k] == ind1[k - 1]);
                }
            }
        } else {
            assert(c.drop_last() =~= Seq::<u8>::empty());
        }
    }
    assert(f.closing(0x5D) == f.emits(Event::EndArray));
    assert(f.closing(0x5D) == f.emits(Event::EndIdMap));
    assert(f.closing(0x7D) == f.emits(Event::EndObject));
    assert(seq![0x3Au8, 0x20u8].drop_first() =~= seq![0x20u8]);
}

/// What the writer writes for a value begins with a byte that the reader
/// takes as the start of a value: scalars, strings and the openings of
/// arrays, objects and id maps, in either layout.
pub proof fn lemma_values_begin<'a>(ev: Event, f: PrettyFormatter<'a>)
    ensures
        (ev is Null || ev is Bool || ev is Integer || ev is BeginString) ==> value_bytes(ev).len() > 0
            && begins_value(value_bytes(ev)[0]),
        (ev is BeginArray || ev is BeginObject || ev is BeginIdMap) ==> compact_layout(ev).len() > 0
            && begins_value(compact_layout(ev)[0]) && f.emits(ev) == compact_layout(ev),
{
    if let Event::Integer(n) = ev {
        if n < 0 {
            crate::laws::lemma_digits_of((-n) as nat);
        } else {
            crate::laws::lemma_digits_of(n as nat);
            assert(0x30 <= digits_of(n as nat)[0] <= 0x39);
        }
    }
}


/// Fraction digits read one after the other: each is appended to the
/// significand and takes one power of ten from the exponent.
proof fn lemma_fraction_digits_read(
    s: Seq<u8>,
    f0: int,
    d: Seq<u8>,
    l: int,
    m: int,
    positive: bool,
)
    requires
        all_digits(d),
        0 <= l,
        l + 1 <= d.len(),
        0 <= m <= d.len() - l,
        d.len() - l <= i32::MAX,
        0 <= f0,
        f0 + (d.len() - l) <= s.len(),
        forall|j: int| l <= j < d.len() ==> #[trigger] d[j] == s[f0 + j - l],
        ends_number(s, f0 + (d.len() - l)),
        decimal_value(d) <= u64::MAX,
    ensures
        scan_fraction(s, f0 + m, positive, decimal_value(d.take(l + m)) as u64, 0, -m) == Scan::Done(
            ParserNumber::Float {
                positive: positive,
                significand: decimal_value(d) as u64,
                exponent: (l - d.len()) as i32,
            },
            f0 + (d.len() - l),
        ),
    decreases d.len() - l - m,
{
    let f = d.len() - l;
    let p = f0 + m;
    lemma_decimal_value_grows(d, l + m);
    if m == f {
        assert(d.take(l + m) =~= d);
        assert(!digit_at(s, p));
    } else {
        lemma_decimal_value_grows(d, l + m + 1);
        assert(d.take(l + m + 1).drop_last() =~= d.take(l + m));
        assert(d.take(l + m + 1).last() == d[l + m]);
        assert(s[p] == d[l + m]);
        let sig = decimal_value(d.take(l + m)) as u64;
        assert(digit_at(s, p));
        assert(decimal_value(d.take(l + m + 1)) == sig * 10 + digit_value(s, p));
        assert(!u64_overflows(sig, digit_value(s, p)));
        lemma_fraction_digits_read(s, f0, d, l, m + 1, positive);
    }
}

/// Integer digits read before a decimal point, up to the fraction.
proof fn lemma_integer_part_read(s: Seq<u8>, i: int, d: Seq<u8>, l: int, k: int, positive: bool)
    requires
        all_digits(d),
        1 <= k <= l < d.len(),
        0 <= i,
        i + l + 1 <= s.len(),
        forall|j: int| 0 <= j < l ==> #[trigger] d[j] == s[i + j],
        s[i + l] == 0x2E,
        decimal_value(d) <= u64::MAX,
    ensures
        scan_integer_digits(s, i + k, positive, decimal_value(d.take(k)) as u64) == scan_fraction(
            s,
            i + l + 1,
            positive,
            decimal_value(d.take(l)) as u64,
            0,
            0,
        ),
    decreases l - k,
{
    lemma_decimal_value_grows(d, k);
    if k == l {
        assert(!digit_at(s, i + k));
    } else {
        lemma_decimal_value_grows(d, k + 1);
        assert(d.take(k + 1).drop_last() =~= d.take(k));
        assert(d.take(k + 1).last() == d[k]);
        assert(s[i + k] == d[k]);
        let sig = decimal_value(d.take(k)) as u64;
        assert(digit_at(s, i + k));
        assert(decimal_value(d.take(k + 1)) == sig * 10 + digit_value(s, i + k));
        assert(!u64_overflows(sig, digit_value(s, i + k)));
        lemma_integer_part_read(s, i, d, l, k + 1, positive);
    }
}

/// Reading a number with a fraction: integer digits `int_part` (with no
/// leading zero but a lone `0`), a decimal point and fraction digits
/// `frac`, where the number ends, read as the decimal value of the text:
/// the significand is the value of all the digits, and the exponent is
/// minus the number of fraction digits, while that value fits in a `u64`.
pub proof fn lemma_fraction_reads(s: Seq<u8>, i: int, int_part: Seq<u8>, frac: Seq<u8>, positive: bool)
    requires
        all_digits(int_part),
        int_part.len() >= 1,
        int_part.len() == 1 || int_part[0] != 0x30,
        all_digits(frac),
        1 <= frac.len() <= i32::MAX,
        0 <= i,
        i + int_part.len() + 1 + frac.len() <= s.len(),
        s.subrange(i, i + int_part.len() + 1 + frac.len()) == int_part + seq![0x2Eu8] + frac,
        ends_number(s, i + int_part.len() + 1 + frac.len()),
        decimal_value(int_part + frac) <= u64::MAX,
    ensures
        scan_integer(s, i, positive) == Scan::Done(
            ParserNumber::Float {
                positive: positive,
                significand: decimal_value(int_part + frac) as u64,
                exponent: (0 - frac.len()) as i32,
            },
            i + int_part.len() + 1 + frac.len(),
        ),
{
    let d = int_part + frac;
    let l = int_part.len() as int;
    let t = int_part + seq![0x2Eu8] + frac;
    assert(all_digits(d)) by {
        assert forall|k: int| 0 <= k < d.len() implies 0x30 <= #[trigger] d[k] <= 0x39 by {
            if k < l {
                assert(d[k] == int_part[k]);
            } else {
                assert(d[k] == frac[k - l]);
            }
        }
    }
    assert forall|j: int| 0 <= j < l implies #[trigger] d[j] == s[i + j] by {
        assert(s[i + j] == s.subrange(i, i + t.len())[j]);
        assert(t[j] == int_part[j]);
    }
    assert(s[i + l] == 0x2E) by {
        assert(s[i + l] == s.subrange(i, i + t.len())[l]);
    }
    assert forall|j: int| l <= j < d.len() implies #[trigger] d[j] == s[(i + l + 1) + j - l] by {
        assert(s[i + 1 + j] == s.subrange(i, i + t.len())[j + 1]);
        assert(t[j + 1] == frac[j - l]);
        assert(d[j] == frac[j - l]);
    }
    assert(d.take(l) =~= int_part);
    lemma_fraction_digits_read(s, i + l + 1, d, l, 0, positive);
    assert(d.take(l + 0) =~= d.take(l));
    assert(s[i] == d[0]);
    if int_part[0] == 0x30 {
        assert(d.take(l) =~= seq![0x30u8]);
        reveal_with_fuel(decimal_value, 2);
        assert(decimal_value(d.take(l)) == 0);
        assert(!digit_at(s, i + 1));
    } else {
        assert(d.take(1).drop_last() =~= Seq::<u8>::empty());
        assert(d.take(1).last() == d[0]);
        reveal_with_fuel(decimal_value, 2);
        assert(decimal_value(d.take(1)) == d[0] - 0x30);
        lemma_integer_part_read(s, i, d, l, 1, positive);
    }
}


/// Exponent digits read one after the other add up to their value.
proof fn lemma_exponent_digits_read(
    s: Seq<u8>,
    q: int,
    d: Seq<u8>,
    k: int,
    positive: bool,
    sig: u64,
    start: int,
    positive_exp: bool,
)
    requires
        all_digits(d),
        1 <= k <= d.len(),
        0 <= q,
        q + d.len() <= s.len(),
        forall|j: int| 0 <= j < d.len() ==> #[trigger] d[j] == s[q + j],
        !digit_at(s, q + d.len()),
        decimal_value(d) <= i32::MAX,
    ensures
        scan_exponent_digits(s, q + k, positive, sig, start, positive_exp, decimal_value(d.take(k)) as i32)
            == Scan::Done(
            crate::grammar::float_number(
                positive,
                sig,
                crate::grammar::clamp_i32(
                    if positive_exp {
                        start + decimal_value(d)
                    } else {
                        start - decimal_value(d)
                    },
                ) as int,
            ),
            q + d.len(),
        ),
    decreases d.len() - k,
{
    lemma_decimal_value_grows(d, k);
    if k == d.len() {
        assert(d.take(k) =~= d);
    } else {
        lemma_decimal_value_grows(d, k + 1);
        assert(d.take(k + 1).drop_last() =~= d.take(k));
        assert(d.take(k + 1).last() == d[k]);
        assert(s[q + k] == d[k]);
        let e = decimal_value(d.take(k)) as i32;
        assert(digit_at(s, q + k));
        assert(decimal_value(d.take(k + 1)) == e * 10 + digit_value(s, q + k));
        assert(!i32_overflows(e, digit_value(s, q + k) as i32));
        lemma_exponent_digits_read(s, q, d, k + 1, positive, sig, start, positive_exp);
    }
}

/// Reading an exponent, from just past its `e`: an optional sign and the
/// digits `digits`, where the number ends, give the exponent carried in
/// `start` plus (or, after a minus sign, minus) the decimal value of the
/// digits, while that value fits in an `i32` and so does the sum.
pub proof fn lemma_exponent_reads(
    s: Seq<u8>,
    p: int,
    sign: Seq<u8>,
    digits: Seq<u8>,
    positive: bool,
    sig: u64,
    start: i32,
)
    requires
        sign == Seq::<u8>::empty() || sign == seq![0x2Bu8] || sign == seq![0x2Du8],
        all_digits(digits),
        digits.len() >= 1,
        0 <= p,
        p + sign.len() + digits.len() <= s.len(),
        s.subrange(p, p + sign.len() + digits.len()) == sign + digits,
        !digit_at(s, p + sign.len() + digits.len()),
        decimal_value(digits) <= i32::MAX,
        i32::MIN <= (if sign == seq![0x2Du8] {
            start - decimal_value(digits)
        } else {
            start + decimal_value(digits)
        }) <= i32::MAX,
    ensures
        scan_exponent(s, p, positive, sig, start as int) == Scan::Done(
            ParserNumber::Float {
                positive: positive,
                significand: sig,
                exponent: (if sign == seq![0x2Du8] {
                    start - decimal_value(digits)
                } else {
                    start + decimal_value(digits)
                }) as i32,
            },
            p + sign.len() + digits.len(),
        ),
{
    let q = p + sign.len();
    let t = sign + digits;
    assert forall|j: int| 0 <= j < digits.len() implies #[trigger] digits[j] == s[q + j] by {
        assert(s[q + j] == s.subrange(p, p + t.len())[sign.len() + j]);
        assert(t[sign.len() + j] == digits[j]);
    }
    assert(s[p] == t[0]) by {
        assert(s[p] == s.subrange(p, p + t.len())[0]);
    }
    assert(s[q] == digits[0]);
    if sign.len() > 0 {
        assert(s[p] == sign[0]);
    }
    assert(digits.take(1).drop_last() =~= Seq::<u8>::empty());
    assert(digits.take(1).last() == digits[0]);
    reveal_with_fuel(decimal_value, 2);
    assert(decimal_value(digits.take(1)) == digits[0] - 0x30);
    lemma_exponent_digits_read(s, q, digits, 1, positive, sig, start as int, sign != seq![0x2Du8]);
}


/// A `\u` escape of a character outside the surrogates, whose four hex
/// digits (either case) give its code from the most significant nibble
/// down, reads as the UTF-8 encoding of that character, whether the
/// string is validated or not, and ends after the four digits.
pub proof fn lemma_unicode_escape_reads(s: Seq<u8>, q: int, validate: bool, c: char)
    requires
        (c as u32) < 0x1_0000,
        0 <= q,
        q + 4 <= s.len(),
        hex_value(s[q]) == Some(((c as u32) / 0x1000) as u8),
        hex_value(s[q + 1]) == Some(((c as u32) / 0x100 % 0x10) as u8),
        hex_value(s[q + 2]) == Some(((c as u32) / 0x10 % 0x10) as u8),
        hex_value(s[q + 3]) == Some(((c as u32) % 0x10) as u8),
    ensures
        scan_unicode_escape(s, q, validate) == Scan::Done(vstd::utf8::encode_utf8(seq![c]), q + 4),
{
    let v = c as u32;
    vstd::utf8::char_is_scalar(c);
    assert(((v / 0x1000) as u8) as int * 4096 + ((v / 0x100 % 0x10) as u8) as int * 256 + ((v / 0x10 % 0x10) as u8) as int
        * 16 + ((v % 0x10) as u8) as int == v) by (nonlinear_arith)
        requires
            v < 0x1_0000,
    ;
    assert(four_hex_value(s[q], s[q + 1], s[q + 2], s[q + 3]) == Some(v as u16));
    assert(scan_hex4(s, q) == Scan::Done(v as u16, q + 4));
    assert((v as u16) as u32 == v);
    lemma_wtf8_scalar(c);
}

} // verus!
