//! The text of the transform attribute's arguments: `key = literal` items,
//! separated by commas, with an optional comma at the end.  The text is
//! first cut into tokens (identifiers, string and integer literals, and
//! single punctuation bytes), as the Rust lexer hands them to the attribute;
//! then each item is taken in turn, as the attribute takes it.
use vstd::prelude::*;
use vstd::string::StringSliceAdditionalSpecFns;
use crate::fields::{ArgError, ArgLit, ArgValue, ArgsView, TransformArgs, arg_step};
use crate::grammar::all_digits;
use crate::text::str_from_utf8;

verus! {

/// A token of the attribute text, as plain values: an identifier, the value
/// of a string literal, the decimal digits of an integer literal, or one
/// byte of punctuation.
pub enum TokenView {
    Ident(Seq<u8>),
    Str(Seq<u8>),
    Int(Seq<u8>),
    Punct(u8),
}

/// Whether `b` is whitespace between tokens.
pub open spec fn is_space(b: u8) -> bool {
    b == 0x20 || b == 0x09 || b == 0x0A || b == 0x0D
}

/// Whether `b` is a decimal digit.
pub open spec fn is_digit(b: u8) -> bool {
    0x30 <= b <= 0x39
}

/// Whether `b` may stand in an identifier: an ASCII letter, a digit or `_`.
pub open spec fn is_ident_byte(b: u8) -> bool {
    b == 0x5F || is_digit(b) || (0x41 <= b <= 0x5A) || (0x61 <= b <= 0x7A)
}

/// The end of the run of identifier bytes from `p`.
pub open spec fn ident_end(s: Seq<u8>, p: int) -> int
    decreases s.len() - p,
{
    if 0 <= p < s.len() && is_ident_byte(s[p]) {
        ident_end(s, p + 1)
    } else {
        p
    }
}

/// The end of the run of digits and underscores from `p`.
pub open spec fn digits_end(s: Seq<u8>, p: int) -> int
    decreases s.len() - p,
{
    if 0 <= p < s.len() && (is_digit(s[p]) || s[p] == 0x5F) {
        digits_end(s, p + 1)
    } else {
        p
    }
}

/// The bytes of `d` but its underscores.
pub open spec fn without_underscores(d: Seq<u8>) -> Seq<u8>
    decreases d.len(),
{
    if d.len() == 0 {
        d
    } else if d.last() == 0x5F {
        without_underscores(d.drop_last())
    } else {
        without_underscores(d.drop_last()).push(d.last())
    }
}

/// The byte that an escape `\e` of a string literal stands for: a newline,
/// carriage return, tab, backslash, quote, apostrophe or zero.
pub open spec fn escaped_byte(e: u8) -> Option<u8> {
    if e == 0x6E {
        Some(0x0Au8)
    } else if e == 0x72 {
        Some(0x0Du8)
    } else if e == 0x74 {
        Some(0x09u8)
    } else if e == 0x5C || e == 0x22 || e == 0x27 {
        Some(e)
    } else if e == 0x30 {
        Some(0x00u8)
    } else {
        None
    }
}

/// The body of a string literal from `p`, after the value `acc` read so
/// far: its value and the offset past the closing quote, or the offset of
/// a byte that cannot stand there (the end of the text when it ends first).
pub open spec fn str_body(s: Seq<u8>, p: int, acc: Seq<u8>) -> Result<(Seq<u8>, int), int>
    decreases s.len() - p,
{
    if p < 0 || p >= s.len() {
        Err(s.len() as int)
    } else if s[p] == 0x22 {
        Ok((acc, p + 1))
    } else if s[p] == 0x5C {
        if p + 1 >= s.len() {
            Err(s.len() as int)
        } else {
            match escaped_byte(s[p + 1]) {
                Some(b) => str_body(s, p + 2, acc.push(b)),
                None => Err(p + 1),
            }
        }
    } else {
        str_body(s, p + 1, acc.push(s[p]))
    }
}

/// `t` followed by the tokens of `rest`, if `rest` lexed.
pub open spec fn prepend(t: TokenView, rest: Result<Seq<TokenView>, int>) -> Result<Seq<TokenView>, int> {
    match rest {
        Ok(ts) => Ok(seq![t] + ts),
        Err(a) => Err(a),
    }
}

/// The tokens of the text from `p`, or the offset of a byte that starts no
/// token.  An integer literal is decimal digits and underscores, with a
/// suffix only of an integer type (starting with `u` or `i`); a string
/// literal takes the escapes of `escaped_byte`, and any suffix after it is
/// dropped, as the value of the literal drops it.
pub open spec fn lex(s: Seq<u8>, p: int) -> Result<Seq<TokenView>, int>
    decreases s.len() - p,
{
    if p < 0 || p >= s.len() {
        Ok(Seq::empty())
    } else if is_space(s[p]) {
        lex(s, p + 1)
    } else if is_digit(s[p]) {
        let q = digits_end(s, p);
        let r = ident_end(s, q);
        if q <= p || r < q || r > s.len() {
            Err(p)
        } else if r > q && s[q] != 0x75 && s[q] != 0x69 {
            Err(q)
        } else {
            prepend(TokenView::Int(without_underscores(s.subrange(p, q))), lex(s, r))
        }
    } else if is_ident_byte(s[p]) {
        let q = ident_end(s, p);
        if q <= p || q > s.len() {
            Err(p)
        } else {
            prepend(TokenView::Ident(s.subrange(p, q)), lex(s, q))
        }
    } else if s[p] == 0x22 {
        match str_body(s, p + 1, Seq::empty()) {
            Err(a) => Err(a),
            Ok((v, q)) => {
                let r = ident_end(s, q);
                if r <= p || r > s.len() {
                    Err(p)
                } else {
                    prepend(TokenView::Str(v), lex(s, r))
                }
            },
        }
    } else if 0x21 <= s[p] <= 0x7E {
        prepend(TokenView::Punct(s[p]), lex(s, p + 1))
    } else {
        Err(p)
    }
}

/// Why the attribute text is refused: a byte that starts no token (its
/// offset), a token that cannot stand where it does (its index among the
/// tokens), or an argument refused (why, and its key).
pub enum AttrFail {
    Lex(int),
    Syntax(int),
    Refused(crate::fields::ArgErrorKind, Seq<u8>),
}

/// The value that a token gives an argument: the characters of a string of
/// valid UTF-8, the digits of an integer, or neither.
pub open spec fn token_value(t: TokenView) -> ArgLit {
    match t {
        TokenView::Str(v) => ArgLit::Text(vstd::utf8::decode_utf8(v)),
        TokenView::Int(d) => ArgLit::Digits(d),
        _ => ArgLit::Other,
    }
}

/// The arguments after the tokens `t`, which stand from index `i` on, with
/// the arguments `a` so far: each item a key, `=` and the value's token,
/// followed by a comma unless it ends the tokens.  A key is taken before
/// its value is looked at; a value that is missing or of the wrong kind
/// is refused as the key's argument.
pub open spec fn args_from_tokens(a: ArgsView, t: Seq<TokenView>, i: int) -> Result<ArgsView, AttrFail>
    decreases t.len(),
{
    if t.len() == 0 {
        Ok(a)
    } else {
        match t[0] {
            TokenView::Ident(key) => if t.len() < 2 || t[1] != TokenView::Punct(0x3D) {
                Err(AttrFail::Syntax(i + 1))
            } else if t.len() >= 3 && (t[2] matches TokenView::Str(v) && !vstd::utf8::valid_utf8(v)) {
                Err(AttrFail::Syntax(i + 2))
            } else {
                let value = if t.len() < 3 {
                    ArgLit::Other
                } else {
                    token_value(t[2])
                };
                match arg_step(a, key, value) {
                    Err(k) => Err(AttrFail::Refused(k, key)),
                    Ok(b) => if t.len() <= 3 {
                        Ok(b)
                    } else if t[3] != TokenView::Punct(0x2C) {
                        Err(AttrFail::Syntax(i + 3))
                    } else {
                        args_from_tokens(b, t.subrange(4, t.len() as int), i + 4)
                    },
                }
            },
            _ => Err(AttrFail::Syntax(i)),
        }
    }
}

/// What the attribute makes of its argument text `s`, from the defaults.
pub open spec fn attr_args(s: Seq<u8>) -> Result<ArgsView, AttrFail> {
    match lex(s, 0) {
        Err(a) => Err(AttrFail::Lex(a)),
        Ok(t) => args_from_tokens(TransformArgs::default_model(), t, 0),
    }
}


/// Whitespace between tokens is passed over: a space, tab, line feed or
/// carriage return where a token could start leaves the tokens that follow
/// as they are, so a line break of either kind splits an argument list
/// alike.
pub proof fn lemma_whitespace_passed_over(s: Seq<u8>, p: int)
    requires
        0 <= p < s.len(),
        s[p] == 0x20u8 || s[p] == 0x09u8 || s[p] == 0x0Au8 || s[p] == 0x0Du8,
    ensures
        lex(s, p) == lex(s, p + 1),
{
}

/// Whitespace put before a text changes none of its tokens: the whole
/// lexes as it does from where the whitespace ends.
pub proof fn lemma_leading_whitespace(w: Seq<u8>, s: Seq<u8>)
    requires
        forall|k: int| 0 <= k < w.len() ==> (#[trigger] w[k] == 0x20u8 || w[k] == 0x09u8 || w[k] == 0x0Au8 || w[k]
            == 0x0Du8),
    ensures
        lex(w + s, w.len() as int) == lex(w + s, 0),
    decreases w.len(),
{
    if w.len() > 0 {
        let t = w + s;
        assert forall|k: int| 0 <= k < w.len() implies #[trigger] lex(t, k) == lex(t, k + 1) by {
            assert(t[k] == w[k]);
            lemma_whitespace_passed_over(t, k);
        }
        lemma_lex_over_run(t, 0, w.len() as int);
    }
}

/// Across a run of positions each of which lexes as the next, the first
/// lexes as the last.
proof fn lemma_lex_over_run(t: Seq<u8>, a: int, b: int)
    requires
        0 <= a <= b,
        forall|k: int| a <= k < b ==> #[trigger] lex(t, k) == lex(t, k + 1),
    ensures
        lex(t, a) == lex(t, b),
    decreases b - a,
{
    if a < b {
        assert(lex(t, a) == lex(t, a + 1));
        lemma_lex_over_run(t, a + 1, b);
    }
}

/// Whether every integer among the tokens is digits only.
pub open spec fn ints_are_digits(t: Seq<TokenView>) -> bool {
    forall|k: int| 0 <= k < t.len() ==> ((#[trigger] t[k]) matches TokenView::Int(d) ==> all_digits(d))
}

/// The tokens `done` followed by those of `rest`, if `rest` lexed.
pub open spec fn prepend_all(done: Seq<TokenView>, rest: Result<Seq<TokenView>, int>) -> Result<Seq<TokenView>, int> {
    match rest {
        Ok(ts) => Ok(done + ts),
        Err(a) => Err(a),
    }
}

/// Moving one token from what is left to what is done keeps the whole.
proof fn lemma_prepend_all(done: Seq<TokenView>, t: TokenView, rest: Result<Seq<TokenView>, int>)
    ensures
        prepend_all(done, prepend(t, rest)) == prepend_all(done.push(t), rest),
{
    match rest {
        Ok(ts) => {
            assert(done + (seq![t] + ts) =~= done.push(t) + ts);
        },
        Err(_) => {},
    }
}

/// A token of the attribute text.
pub enum ArgToken {
    Ident(Vec<u8>),
    Str(Vec<u8>),
    Int(Vec<u8>),
    Punct(u8),
}

impl View for ArgToken {
    type V = TokenView;

    open spec fn view(&self) -> TokenView {
        match self {
            ArgToken::Ident(v) => TokenView::Ident(v@),
            ArgToken::Str(v) => TokenView::Str(v@),
            ArgToken::Int(v) => TokenView::Int(v@),
            ArgToken::Punct(b) => TokenView::Punct(*b),
        }
    }
}

/// Why the attribute text is refused.
#[derive(Debug, Clone, PartialEq, Eq)]
pub enum AttrError {
    /// A byte, at this offset, that starts no token.
    Lex(usize),
    /// A token, at this index among the tokens, that cannot stand where it
    /// does.
    Syntax(usize),
    /// An argument refused.
    Refused(ArgError),
}

/// Whether `b` is whitespace between tokens.
fn space_byte(b: u8) -> (res: bool)
    ensures
        res == is_space(b),
{
    b == 0x20 || b == 0x09 || b == 0x0A || b == 0x0D
}

/// Whether `b` is a decimal digit.
fn digit_byte(b: u8) -> (res: bool)
    ensures
        res == is_digit(b),
{
    0x30 <= b && b <= 0x39
}

/// Whether `b` may stand in an identifier.
fn ident_byte(b: u8) -> (res: bool)
    ensures
        res == is_ident_byte(b),
{
    b == 0x5F || (0x30 <= b && b <= 0x39) || (0x41 <= b && b <= 0x5A) || (0x61 <= b && b <= 0x7A)
}

/// The end of the run of identifier bytes from `p`.
fn ident_run(s: &[u8], p: usize) -> (q: usize)
    requires
        p <= s@.len(),
    ensures
        q == ident_end(s@, p as int),
        p <= q <= s@.len(),
        (p < s@.len() && is_ident_byte(s@[p as int])) ==> p < q,
{
    let mut q = p;
    while q < s.len() && ident_byte(s[q])
        invariant
            p <= q <= s@.len(),
            ident_end(s@, p as int) == ident_end(s@, q as int),
            (p < s@.len() && is_ident_byte(s@[p as int])) ==> p < q || (q < s@.len() && is_ident_byte(s@[q as int])),
        decreases s@.len() - q,
    {
        q += 1;
    }
    q
}

/// The end of the run of digits and underscores from `p`.
fn digits_run(s: &[u8], p: usize) -> (q: usize)
    requires
        p <= s@.len(),
    ensures
        q == digits_end(s@, p as int),
        p <= q <= s@.len(),
        (p < s@.len() && is_digit(s@[p as int])) ==> p < q,
        forall|k: int| p <= k < q ==> is_digit(#[trigger] s@[k]) || s@[k] == 0x5F,
{
    let mut q = p;
    while q < s.len() && (digit_byte(s[q]) || s[q] == 0x5F)
        invariant
            p <= q <= s@.len(),
            digits_end(s@, p as int) == digits_end(s@, q as int),
            (p < s@.len() && is_digit(s@[p as int])) ==> p < q || (q < s@.len() && is_digit(s@[q as int])),
            forall|k: int| p <= k < q ==> is_digit(#[trigger] s@[k]) || s@[k] == 0x5F,
        decreases s@.len() - q,
    {
        q += 1;
    }
    q
}

/// The bytes of `s` from `p` to `q`.
fn copy_range(s: &[u8], p: usize, q: usize) -> (res: Vec<u8>)
    requires
        p <= q <= s@.len(),
    ensures
        res@ == s@.subrange(p as int, q as int),
{
    let mut res: Vec<u8> = Vec::new();
    let mut k = p;
    while k < q
        invariant
            p <= k <= q <= s@.len(),
            res@ == s@.subrange(p as int, k as int),
        decreases q - k,
    {
        res.push(s[k]);
        k += 1;
        assert(res@ =~= s@.subrange(p as int, k as int));
    }
    res
}

/// The digits of `s` from `p` to `q`, which are digits and underscores.
fn digits_without_underscores(s: &[u8], p: usize, q: usize) -> (res: Vec<u8>)
    requires
        p <= q <= s@.len(),
        forall|k: int| p <= k < q ==> is_digit(#[trigger] s@[k]) || s@[k] == 0x5F,
    ensures
        res@ == without_underscores(s@.subrange(p as int, q as int)),
        all_digits(res@),
{
    let mut res: Vec<u8> = Vec::new();
    let mut k = p;
    assert(s@.subrange(p as int, p as int) =~= Seq::<u8>::empty());
    while k < q
        invariant
            p <= k <= q <= s@.len(),
            forall|j: int| p <= j < q ==> is_digit(#[trigger] s@[j]) || s@[j] == 0x5F,
            res@ == without_underscores(s@.subrange(p as int, k as int)),
            all_digits(res@),
        decreases q - k,
    {
        let ghost before = s@.subrange(p as int, k as int);
        assert(s@.subrange(p as int, k + 1).drop_last() =~= before);
        assert(s@.subrange(p as int, k + 1).last() == s@[k as int]);
        if s[k] != 0x5F {
            res.push(s[k]);
        }
        k += 1;
    }
    res
}

/// The byte that the escape `\e` stands for.
fn escape_value(e: u8) -> (res: Option<u8>)
    ensures
        res == escaped_byte(e),
{
    if e == 0x6E {
        Some(0x0A)
    } else if e == 0x72 {
        Some(0x0D)
    } else if e == 0x74 {
        Some(0x09)
    } else if e == 0x5C || e == 0x22 || e == 0x27 {
        Some(e)
    } else if e == 0x30 {
        Some(0x00)
    } else {
        None
    }
}

/// The body of a string literal from `p`: its value and the offset past
/// the closing quote, or the offset of a byte that cannot stand there.
fn string_body(s: &[u8], p: usize) -> (res: Result<(Vec<u8>, usize), usize>)
    requires
        p <= s@.len(),
    ensures
        match str_body(s@, p as int, Seq::empty()) {
            Ok((v, q)) => res matches Ok((w, e)) && w@ == v && e == q && p < e <= s@.len(),
            Err(a) => res == Err::<(Vec<u8>, usize), usize>(a as usize),
        },
{
    let mut acc: Vec<u8> = Vec::new();
    let mut k = p;
    while k < s.len()
        invariant
            p <= k <= s@.len(),
            str_body(s@, p as int, Seq::empty()) == str_body(s@, k as int, acc@),
        decreases s@.len() - k,
    {
        let c = s[k];
        if c == 0x22 {
            return Ok((acc, k + 1));
        } else if c == 0x5C {
            if k + 1 >= s.len() {
                return Err(s.len());
            }
            match escape_value(s[k + 1]) {
                Some(b) => {
                    acc.push(b);
                    k += 2;
                },
                None => {
                    return Err(k + 1);
                },
            }
        } else {
            acc.push(c);
            k += 1;
        }
    }
    Err(s.len())
}

/// The tokens of the attribute text, or the offset of a byte that starts
/// no token.
pub fn lex_tokens(s: &[u8]) -> (res: Result<Vec<ArgToken>, usize>)
    ensures
        match lex(s@, 0) {
            Ok(ts) => res matches Ok(v) && v@.map_values(|t: ArgToken| t@) == ts && ints_are_digits(ts),
            Err(a) => res == Err::<Vec<ArgToken>, usize>(a as usize),
        },
{
    let mut out: Vec<ArgToken> = Vec::new();
    let mut p: usize = 0;
    assert(prepend_all(Seq::empty(), lex(s@, 0)) == lex(s@, 0)) by {
        match lex(s@, 0) {
            Ok(ts) => {
                assert(Seq::<TokenView>::empty() + ts =~= ts);
            },
            Err(_) => {},
        }
    }
    while p < s.len()
        invariant
            p <= s@.len(),
            lex(s@, 0) == prepend_all(out@.map_values(|t: ArgToken| t@), lex(s@, p as int)),
            ints_are_digits(out@.map_values(|t: ArgToken| t@)),
        decreases s@.len() - p,
    {
        let ghost done = out@.map_values(|t: ArgToken| t@);
        let c = s[p];
        if space_byte(c) {
            p += 1;
        } else if digit_byte(c) {
            let q = digits_run(s, p);
            let r = ident_run(s, q);
            if r > q && s[q] != 0x75 && s[q] != 0x69 {
                return Err(q);
            }
            let d = digits_without_underscores(s, p, q);
            let ghost tok = TokenView::Int(d@);
            proof {
                lemma_prepend_all(done, tok, lex(s@, r as int));
            }
            out.push(ArgToken::Int(d));
            assert(out@.map_values(|t: ArgToken| t@) =~= done.push(tok));
            p = r;
        } else if ident_byte(c) {
            let q = ident_run(s, p);
            let v = copy_range(s, p, q);
            let ghost tok = TokenView::Ident(v@);
            proof {
                lemma_prepend_all(done, tok, lex(s@, q as int));
            }
            out.push(ArgToken::Ident(v));
            assert(out@.map_values(|t: ArgToken| t@) =~= done.push(tok));
            p = q;
        } else if c == 0x22 {
            match string_body(s, p + 1) {
                Err(a) => {
                    return Err(a);
                },
                Ok((v, q)) => {
                    let r = ident_run(s, q);
                    let ghost tok = TokenView::Str(v@);
                    proof {
                        lemma_prepend_all(done, tok, lex(s@, r as int));
                    }
                    out.push(ArgToken::Str(v));
                    assert(out@.map_values(|t: ArgToken| t@) =~= done.push(tok));
                    p = r;
                },
            }
        } else if 0x21 <= c && c <= 0x7E {
            let ghost tok = TokenView::Punct(c);
            proof {
                lemma_prepend_all(done, tok, lex(s@, p + 1));
            }
            out.push(ArgToken::Punct(c));
            assert(out@.map_values(|t: ArgToken| t@) =~= done.push(tok));
            p += 1;
        } else {
            return Err(p);
        }
    }
    proof {
        let done = out@.map_values(|t: ArgToken| t@);
        assert(done + Seq::<TokenView>::empty() =~= done);
    }
    Ok(out)
}


/// Whether the token is the punctuation byte `b`.
fn is_punct(t: &ArgToken, b: u8) -> (res: bool)
    ensures
        res == (t@ == TokenView::Punct(b)),
{
    match t {
        ArgToken::Punct(c) => *c == b,
        _ => false,
    }
}

/// The value that a token gives an argument, or `None` for a string that
/// is not UTF-8.
fn value_of(t: &ArgToken) -> (res: Option<ArgValue>)
    requires
        t@ matches TokenView::Int(d) ==> all_digits(d),
    ensures
        match t@ {
            TokenView::Str(v) => if vstd::utf8::valid_utf8(v) {
                res matches Some(x) && x@ == token_value(t@)
            } else {
                res is None
            },
            _ => res matches Some(x) && x@ == token_value(t@),
        },
        res matches Some(x) ==> (x matches ArgValue::Digits(d) ==> all_digits(d@)),
{
    match t {
        ArgToken::Str(v) => match str_from_utf8(v.as_slice()) {
            Some(r) => {
                proof {
                    vstd::utf8::encode_utf8_decode_utf8(r@);
                    assert(r.spec_bytes() == vstd::utf8::encode_utf8(r@));
                    assert(vstd::utf8::decode_utf8(v@) == r@);
                }
                let owned = String::from_str(r);
                assert(owned@ == r@);
                Some(ArgValue::Text(owned))
            },
            None => None,
        },
        ArgToken::Int(d) => {
            let c = copy_range(d.as_slice(), 0, d.len());
            assert(c@ =~= d@);
            Some(ArgValue::Digits(c))
        },
        _ => Some(ArgValue::Other),
    }
}

impl TransformArgs {
    /// The arguments of the transform attribute from the text between its
    /// brackets, starting from the defaults: the text cut into tokens, then
    /// its `key = literal` items taken in turn; the first refusal, if any.
    pub fn parse_attr(text: &str) -> (res: Result<TransformArgs, AttrError>)
        ensures
            match attr_args(text.spec_bytes()) {
                Ok(m) => res matches Ok(a) && a.model() == m,
                Err(AttrFail::Lex(x)) => res == Err::<TransformArgs, AttrError>(AttrError::Lex(x as usize)),
                Err(AttrFail::Syntax(x)) => res == Err::<TransformArgs, AttrError>(AttrError::Syntax(x as usize)),
                Err(AttrFail::Refused(k, key)) => res matches Err(AttrError::Refused(e)) && e.kind == k && e.key@
                    == key,
            },
    {
        let s = text.as_bytes();
        let toks = match lex_tokens(s) {
            Ok(v) => v,
            Err(a) => {
                return Err(AttrError::Lex(a));
            },
        };
        let ghost ts = toks@.map_values(|t: ArgToken| t@);
        let mut args = TransformArgs::default();
        proof {
            assert(args.model() == TransformArgs::default_model());
            assert(ts.subrange(0, ts.len() as int) =~= ts);
        }
        let mut i: usize = 0;
        while i < toks.len()
            invariant
                i <= toks@.len(),
                ts == toks@.map_values(|t: ArgToken| t@),
                ints_are_digits(ts),
                attr_args(text.spec_bytes()) == args_from_tokens(
                    args.model(),
                    ts.subrange(i as int, ts.len() as int),
                    i as int,
                ),
            decreases toks@.len() - i,
        {
            let ghost rest = ts.subrange(i as int, ts.len() as int);
            assert(rest[0] == toks@[i as int]@);
            let key = match &toks[i] {
                ArgToken::Ident(key) => key,
                _ => {
                    return Err(AttrError::Syntax(i));
                },
            };
            if i + 1 >= toks.len() || !is_punct(&toks[i + 1], 0x3D) {
                return Err(AttrError::Syntax(i + 1));
            }
            assert(rest[1] == toks@[i + 1]@);
            let value = if i + 2 >= toks.len() {
                ArgValue::Other
            } else {
                assert(rest[2] == toks@[i + 2]@);
                assert(ts[i + 2] == toks@[i + 2]@);
                match value_of(&toks[i + 2]) {
                    Some(x) => x,
                    None => {
                        return Err(AttrError::Syntax(i + 2));
                    },
                }
            };
            match args.apply_arg(key.as_slice(), &value) {
                Ok(()) => {},
                Err(e) => {
                    return Err(AttrError::Refused(e));
                },
            }
            if i + 3 >= toks.len() {
                return Ok(args);
            }
            assert(rest[3] == toks@[i + 3]@);
            if !is_punct(&toks[i + 3], 0x2C) {
                return Err(AttrError::Syntax(i + 3));
            }
            assert(rest.subrange(4, rest.len() as int) =~= ts.subrange(i + 4, ts.len() as int));
            i = i + 4;
        }
        assert(ts.subrange(i as int, ts.len() as int) =~= Seq::<TokenView>::empty());
        Ok(args)
    }
}

} // verus!
