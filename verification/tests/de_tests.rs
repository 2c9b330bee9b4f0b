use serde_nuan5json::de::{as_str, digits_value, Deserializer, ParserNumber, Token, Unexpected};
use serde_nuan5json::error::{Error, ErrorCode};
use serde_nuan5json::text::{
    build_hex_table, decode_four_hex_digits, decode_hex_val_slow, is_escape, push_wtf8_codepoint,
};

/// Reads a string whose opening quote is the next byte.
fn read_str(input: &[u8]) -> Result<String, Error> {
    let mut de = Deserializer::new(input);
    assert_eq!(de.expect_parse_whitespace().unwrap(), b'"');
    de.discard();
    de.clear_scratch();
    let r = de.parse_str()?;
    Ok(r.deref().to_string())
}

fn number(input: &[u8]) -> Result<Option<ParserNumber>, Error> {
    let mut de = Deserializer::new(input);
    de.deserialize_number()
}

#[test]
fn whitespace_and_position() {
    let mut de = Deserializer::new(b"  \n x");
    assert_eq!(de.parse_whitespace(), Some(b'x'));
    let p = de.position();
    assert_eq!((p.line, p.column), (2, 1));
    let p = de.position_of_index(1);
    assert_eq!((p.line, p.column), (1, 1));
    assert_eq!(de.next(), Some(b'x'));
    assert_eq!(de.next(), None);
    let err = de.expect_next().unwrap_err();
    assert_eq!(err.code, ErrorCode::EofWhileParsingValue);
    assert_eq!((err.line, err.column), (2, 2));
}

#[test]
fn error_positions() {
    let de = Deserializer::new(b"ab\ncd");
    let e = de.error(ErrorCode::ExpectedColon);
    assert_eq!((e.line, e.column), (1, 0));
    let mut de = Deserializer::new(b"ab\ncd");
    de.discard();
    de.discard();
    de.discard();
    de.discard();
    let e = de.peek_error(ErrorCode::ExpectedColon);
    assert_eq!((e.line, e.column), (2, 2));
    let e = de.error(ErrorCode::ExpectedColon);
    assert_eq!((e.line, e.column), (2, 1));
}

#[test]
fn end_of_input_while_peeking() {
    let mut de = Deserializer::new(b"   ");
    assert_eq!(de.parse_whitespace(), None);
    let err = de.expect_parse_whitespace().unwrap_err();
    assert_eq!(err, Error::syntax(ErrorCode::EofWhileParsingValue, 1, 3));
    assert_eq!(de.peek(), None);
}

#[test]
fn idents() {
    let mut de = Deserializer::new(b"true");
    de.discard();
    assert!(de.parse_ident(b"rue").is_ok());
    let mut de = Deserializer::new(b"trux");
    de.discard();
    let err = de.parse_ident(b"rue").unwrap_err();
    assert_eq!(err.code, ErrorCode::ExpectedSomeIdent);
    assert_eq!(err.column, 4);
    let mut de = Deserializer::new(b"tr");
    de.discard();
    assert_eq!(de.parse_ident(b"rue").unwrap_err().code, ErrorCode::EofWhileParsingValue);
}

#[test]
fn plain_and_escaped_strings() {
    assert_eq!(read_str(b"\"plain\" rest").unwrap(), "plain");
    assert_eq!(read_str(b"\"a\\nb\\u00e9\\\"\\\\\\/\"").unwrap(), "a\nbé\"\\/");
    assert_eq!(read_str(b"\"\\b\\f\\r\\t\"").unwrap(), "\u{8}\u{c}\r\t");
    assert_eq!(read_str("\"é😀\"".as_bytes()).unwrap(), "é😀");
}

#[test]
fn surrogate_pairs() {
    assert_eq!(read_str(b"\"\\ud83d\\ude00\"").unwrap(), "😀");
    let err = read_str(b"\"\\udc00\"").unwrap_err();
    assert_eq!(err.code, ErrorCode::LoneLeadingSurrogateInHexEscape);
    let err = read_str(b"\"\\ud83dx\"").unwrap_err();
    assert_eq!(err.code, ErrorCode::UnexpectedEndOfHexEscape);
}

#[test]
fn string_errors() {
    let err = read_str(b"\"abc").unwrap_err();
    assert_eq!(err, Error::syntax(ErrorCode::EofWhileParsingString, 1, 4));
    let err = read_str(b"\"a\x01b\"").unwrap_err();
    assert_eq!(err, Error::syntax(ErrorCode::ControlCharacterWhileParsingString, 1, 3));
    let err = read_str(b"\"\\x\"").unwrap_err();
    assert_eq!(err, Error::syntax(ErrorCode::InvalidEscape, 1, 3));
    let err = read_str(b"\"\\u12g4\"").unwrap_err();
    assert_eq!(err.code, ErrorCode::InvalidEscape);
    let err = read_str(b"\"\xff\"").unwrap_err();
    assert_eq!(err.code, ErrorCode::InvalidUnicodeCodePoint);
}

#[test]
fn raw_strings_keep_control_characters() {
    let mut de = Deserializer::new(b"\"a\x01\\u0041\"");
    de.discard();
    de.clear_scratch();
    let r = de.parse_str_raw().unwrap();
    assert_eq!(r.deref(), b"a\x01A");
}

#[test]
fn ignoring_strings() {
    let mut de = Deserializer::new(b"\"a\\\"b\" x");
    de.discard();
    assert!(de.ignore_str().is_ok());
    assert_eq!(de.parse_whitespace(), Some(b'x'));
    let mut de = Deserializer::new(b"\"a\\q\"");
    de.discard();
    assert_eq!(de.ignore_str().unwrap_err().code, ErrorCode::InvalidEscape);
}

#[test]
fn integers() {
    assert_eq!(number(b"123,").unwrap(), Some(ParserNumber::U64(123)));
    assert_eq!(number(b" -5]").unwrap(), Some(ParserNumber::I64(-5)));
    assert_eq!(number(b"0 ").unwrap(), Some(ParserNumber::U64(0)));
    assert_eq!(number(b"18446744073709551615,").unwrap(), Some(ParserNumber::U64(u64::MAX)));
    assert_eq!(number(b"-9223372036854775808,").unwrap(), Some(ParserNumber::I64(i64::MIN)));
    assert_eq!(number(b"true").unwrap(), None);
}

#[test]
fn numbers_read_as_floats() {
    assert_eq!(
        number(b"-0,").unwrap(),
        Some(ParserNumber::Float { positive: false, significand: 0, exponent: 0 })
    );
    assert_eq!(
        number(b"1.5,").unwrap(),
        Some(ParserNumber::Float { positive: true, significand: 15, exponent: -1 })
    );
    assert_eq!(
        number(b"25e3,").unwrap(),
        Some(ParserNumber::Float { positive: true, significand: 25, exponent: 3 })
    );
    assert_eq!(
        number(b"2E-2,").unwrap(),
        Some(ParserNumber::Float { positive: true, significand: 2, exponent: -2 })
    );
    assert_eq!(
        number(b"18446744073709551616,").unwrap(),
        Some(ParserNumber::Float { positive: true, significand: 1844674407370955161, exponent: 1 })
    );
    assert_eq!(
        number(b"-9223372036854775809,").unwrap(),
        Some(ParserNumber::Float { positive: false, significand: 9223372036854775809, exponent: 0 })
    );
}

#[test]
fn numbers_may_end_the_input() {
    assert_eq!(number(b"123").unwrap(), Some(ParserNumber::U64(123)));
    assert_eq!(number(b"42").unwrap(), Some(ParserNumber::U64(42)));
    assert_eq!(number(b"0").unwrap(), Some(ParserNumber::U64(0)));
    assert_eq!(number(b"-7").unwrap(), Some(ParserNumber::I64(-7)));
    assert_eq!(
        number(b"2.5e3").unwrap(),
        Some(ParserNumber::Float { positive: true, significand: 25, exponent: 2 })
    );
    let mut de = Deserializer::new(b"42");
    de.ignore_value().unwrap();
    assert_eq!(de.peek(), None);
    let mut de = Deserializer::new(b"-9");
    assert_eq!(de.do_deserialize_i128().unwrap(), -9);
}

#[test]
fn number_errors() {
    assert_eq!(number(b"1.").unwrap_err(), Error::syntax(ErrorCode::EofWhileParsingValue, 1, 2));
    assert_eq!(number(b"1e").unwrap_err().code, ErrorCode::EofWhileParsingValue);
    assert_eq!(number(b"01,").unwrap_err().code, ErrorCode::InvalidNumber);
    assert_eq!(number(b"-x").unwrap_err().code, ErrorCode::InvalidNumber);
    assert_eq!(number(b"1.,").unwrap_err().code, ErrorCode::InvalidNumber);
    assert_eq!(number(b"1e,").unwrap_err().code, ErrorCode::InvalidNumber);
    assert_eq!(number(b"   ").unwrap_err().code, ErrorCode::EofWhileParsingValue);
}

#[test]
fn numbers_of_128_bits() {
    let mut de = Deserializer::new(b"-170141183460469231731687303715884105728,");
    assert_eq!(de.do_deserialize_i128().unwrap(), i128::MIN);
    let mut de = Deserializer::new(b" 340282366920938463463374607431768211455]");
    assert_eq!(de.do_deserialize_u128().unwrap(), u128::MAX);
    let mut de = Deserializer::new(b"340282366920938463463374607431768211456]");
    assert_eq!(de.do_deserialize_u128().unwrap_err().code, ErrorCode::NumberOutOfRange);
    let mut de = Deserializer::new(b"-1]");
    assert_eq!(de.do_deserialize_u128().unwrap_err().code, ErrorCode::NumberOutOfRange);
    let mut de = Deserializer::new(b"00]");
    assert_eq!(de.do_deserialize_i128().unwrap_err().code, ErrorCode::InvalidNumber);
}

#[test]
fn decimal_digits() {
    assert_eq!(digits_value(&b"0012".to_vec()), Some(12));
    assert_eq!(digits_value(&b"340282366920938463463374607431768211456".to_vec()), None);
}

#[test]
fn ignoring_values() {
    let mut de = Deserializer::new(b"{\"a\": [1, 2.5e-3, {\"b\": null}], \"c\": \"x\\\"y\", \"d\": -0} tail");
    assert!(de.ignore_value().is_ok());
    assert_eq!(de.parse_whitespace(), Some(b't'));
    let mut de = Deserializer::new(b"[1, 2,]");
    assert_eq!(de.ignore_value().unwrap_err().code, ErrorCode::ExpectedSomeValue);
    let mut de = Deserializer::new(b"{\"a\" 1}");
    assert_eq!(de.ignore_value().unwrap_err().code, ErrorCode::ExpectedColon);
    let mut de = Deserializer::new(b"[1 2]");
    assert_eq!(de.ignore_value().unwrap_err(), Error::syntax(ErrorCode::ExpectedArrayCommaOrEnd, 1, 4));
    let mut de = Deserializer::new(b"[");
    assert_eq!(de.ignore_value().unwrap_err().code, ErrorCode::EofWhileParsingArray);
    let mut de = Deserializer::new(b"?");
    assert_eq!(de.ignore_value().unwrap_err().code, ErrorCode::ExpectedSomeValue);
    let mut de = Deserializer::new(b"[: 1: true]");
    assert!(de.ignore_value().is_ok());
    assert_eq!(de.peek(), None);
}

#[test]
fn ignoring_id_maps() {
    let mut de = Deserializer::new(b"[:1:true,2:false],");
    assert!(de.ignore_value().is_ok());
    assert_eq!(de.position().column, 17);
    assert_eq!(de.peek(), Some(b','));
    let mut de = Deserializer::new(b"[: -3: [1, {\"a\": [:]}], 40: null] x");
    assert!(de.ignore_value().is_ok());
    assert_eq!(de.parse_whitespace(), Some(b'x'));
    let mut de = Deserializer::new(b"[:]");
    assert!(de.ignore_value().is_ok());
    assert_eq!(de.peek(), None);
    let mut de = Deserializer::new(b"[: a: 1]");
    assert_eq!(de.ignore_value().unwrap_err().code, ErrorCode::ExpectedNumericKey);
    let mut de = Deserializer::new(b"[: 1 2]");
    assert_eq!(de.ignore_value().unwrap_err().code, ErrorCode::ExpectedColon);
    let mut de = Deserializer::new(b"[: 1: 2");
    assert_eq!(de.ignore_value().unwrap_err().code, ErrorCode::EofWhileParsingIdMap);
    let mut de = Deserializer::new(b"[: 1: 2}");
    assert_eq!(de.ignore_value().unwrap_err().code, ErrorCode::ExpectedObjectCommaOrEnd);
}

#[test]
fn ignoring_leaves_no_scratch() {
    let mut de = Deserializer::new(b"[[1],2] \"x\\ny\"");
    assert!(de.ignore_value().is_ok());
    assert_eq!(de.position().column, 7);
    assert_eq!(de.expect_parse_whitespace().unwrap(), b'"');
    de.discard();
    assert_eq!(de.parse_str().unwrap().deref(), "x\ny");
}

#[test]
fn tokens() {
    let mut de = Deserializer::new(b" null");
    assert_eq!(de.parse_any_token().unwrap(), Token::Null);
    let mut de = Deserializer::new(b"false");
    assert_eq!(de.parse_any_token().unwrap(), Token::Bool(false));
    let mut de = Deserializer::new(b"-7,");
    assert_eq!(de.parse_any_token().unwrap(), Token::Number(ParserNumber::I64(-7)));
    let mut de = Deserializer::new(b"\"s\"");
    assert_eq!(de.parse_any_token().unwrap(), Token::Str);
    let mut de = Deserializer::new(b"[: 1: 2]");
    assert_eq!(de.parse_any_token().unwrap(), Token::IdMap);
    let mut de = Deserializer::new(b"[1]");
    assert_eq!(de.parse_any_token().unwrap(), Token::Array);
    let mut de = Deserializer::new(b"{}");
    assert_eq!(de.parse_any_token().unwrap(), Token::Object);
    let mut de = Deserializer::new(b"x");
    assert_eq!(de.parse_any_token().unwrap_err().code, ErrorCode::ExpectedSomeValue);
}

#[test]
fn unexpected_values() {
    let mut de = Deserializer::new(b"true");
    assert_eq!(de.peek_unexpected().unwrap(), Unexpected::Bool(true));
    let mut de = Deserializer::new(b"null");
    assert_eq!(de.peek_unexpected().unwrap(), Unexpected::Unit);
    let mut de = Deserializer::new(b"\"hi\\n\"");
    assert_eq!(de.peek_unexpected().unwrap(), Unexpected::Str("hi\n".to_string()));
    let mut de = Deserializer::new(b"12 ");
    assert_eq!(de.peek_unexpected().unwrap(), Unexpected::Number(ParserNumber::U64(12)));
    let mut de = Deserializer::new(b"[1]");
    assert_eq!(de.peek_unexpected().unwrap(), Unexpected::Sequence);
    let mut de = Deserializer::new(b"{}");
    assert_eq!(de.peek_unexpected().unwrap(), Unexpected::Mapping);
    let mut de = Deserializer::new(b"nul");
    assert_eq!(de.peek_unexpected().unwrap_err().code, ErrorCode::EofWhileParsingValue);
    let mut de = Deserializer::new(b"");
    assert_eq!(de.peek_unexpected().unwrap_err().code, ErrorCode::EofWhileParsingValue);
}

#[test]
fn array_elements() {
    let mut de = Deserializer::new(b"[1, 2]");
    de.discard();
    let mut first = true;
    let mut seen = Vec::new();
    while de.has_next_element(&mut first).unwrap() {
        match de.deserialize_number().unwrap() {
            Some(ParserNumber::U64(n)) => seen.push(n),
            other => panic!("unexpected {:?}", other),
        }
    }
    assert_eq!(seen, vec![1, 2]);
    assert!(de.end_array().is_ok());
}

#[test]
fn array_element_errors() {
    let mut de = Deserializer::new(b"[1 2]");
    de.discard();
    let mut first = true;
    assert!(de.has_next_element(&mut first).unwrap());
    de.deserialize_number().unwrap();
    assert_eq!(de.has_next_element(&mut first).unwrap_err().code, ErrorCode::ExpectedArrayCommaOrEnd);
    let mut de = Deserializer::new(b"[1,]");
    de.discard();
    let mut first = true;
    assert!(de.has_next_element(&mut first).unwrap());
    de.deserialize_number().unwrap();
    assert_eq!(de.has_next_element(&mut first).unwrap_err().code, ErrorCode::TrailingComma);
    let mut de = Deserializer::new(b"[1");
    de.discard();
    let mut first = false;
    assert_eq!(de.deserialize_number().unwrap(), Some(ParserNumber::U64(1)));
    assert_eq!(de.has_next_element(&mut first).unwrap_err().code, ErrorCode::EofWhileParsingArray);
}

#[test]
fn closing_brackets() {
    let mut de = Deserializer::new(b" ]");
    assert!(de.end_array().is_ok());
    let mut de = Deserializer::new(b",]");
    assert_eq!(de.end_array().unwrap_err().code, ErrorCode::TrailingComma);
    let mut de = Deserializer::new(b"x");
    assert_eq!(de.end_array().unwrap_err().code, ErrorCode::TrailingCharacters);
    let mut de = Deserializer::new(b"");
    assert_eq!(de.end_array().unwrap_err().code, ErrorCode::EofWhileParsingArray);
    let mut de = Deserializer::new(b"");
    assert_eq!(de.end_id_map().unwrap_err().code, ErrorCode::EofWhileParsingIdMap);
    let mut de = Deserializer::new(b" }");
    assert!(de.end_object().is_ok());
    let mut de = Deserializer::new(b",}");
    assert_eq!(de.end_object().unwrap_err().code, ErrorCode::TrailingComma);
    let mut de = Deserializer::new(b"");
    assert_eq!(de.end_object().unwrap_err().code, ErrorCode::EofWhileParsingObject);
}

#[test]
fn object_keys_and_colons() {
    let mut de = Deserializer::new(b"{\"a\": 1}");
    de.discard();
    let mut first = true;
    assert!(de.has_next_key(&mut first).unwrap());
    de.discard();
    de.clear_scratch();
    assert_eq!(de.parse_str().unwrap().deref(), "a");
    assert!(de.parse_object_colon().is_ok());
    assert_eq!(de.deserialize_number().unwrap(), Some(ParserNumber::U64(1)));
    assert!(!de.has_next_key(&mut first).unwrap());
    assert!(de.end_object().is_ok());
    let mut de = Deserializer::new(b"{1: 2}");
    de.discard();
    let mut first = true;
    assert_eq!(de.has_next_key(&mut first).unwrap_err().code, ErrorCode::KeyMustBeAString);
    let mut de = Deserializer::new(b" 1");
    assert_eq!(de.parse_object_colon().unwrap_err().code, ErrorCode::ExpectedColon);
}

#[test]
fn id_map_entries() {
    let mut de = Deserializer::new(b"[: 10008: false, 20001: true]");
    assert_eq!(de.parse_any_token().unwrap(), Token::IdMap);
    let mut first = true;
    let mut seen = Vec::new();
    while de.has_next_id_map_key(&mut first).unwrap() {
        let key = match de.deserialize_number().unwrap() {
            Some(ParserNumber::U64(n)) => n as i64,
            other => panic!("unexpected {:?}", other),
        };
        assert!(de.parse_object_colon().is_ok());
        let value = match de.parse_any_token().unwrap() {
            Token::Bool(b) => b,
            other => panic!("unexpected {:?}", other),
        };
        seen.push((key, value));
    }
    assert!(de.end_id_map().is_ok());
    de.leave_nested();
    assert_eq!(seen, vec![(10008, false), (20001, true)]);
}

#[test]
fn numeric_and_boolean_keys() {
    let mut de = Deserializer::new(b"\"12\"");
    assert!(de.begin_numeric_key().is_ok());
    assert_eq!(de.deserialize_number().unwrap(), Some(ParserNumber::U64(12)));
    assert!(de.end_numeric_key().is_ok());
    let mut de = Deserializer::new(b"\"x\"");
    assert_eq!(de.begin_numeric_key().unwrap_err().code, ErrorCode::ExpectedNumericKey);
    let mut de = Deserializer::new(b"\"true\"");
    assert_eq!(de.parse_key_bool().unwrap(), Some(true));
    let mut de = Deserializer::new(b"\"false\"");
    assert_eq!(de.parse_key_bool().unwrap(), Some(false));
    let mut de = Deserializer::new(b"\"maybe\"");
    assert_eq!(de.parse_key_bool().unwrap(), None);
}

#[test]
fn nesting_limit() {
    let mut de = Deserializer::new(b"[");
    for _ in 0..127 {
        assert!(de.enter_nested().is_ok());
    }
    assert_eq!(de.enter_nested().unwrap_err().code, ErrorCode::RecursionLimitExceeded);
}

#[test]
fn depth_after_a_token() {
    let mut de = Deserializer::new(b"[[1], x]");
    for _ in 0..126 {
        assert!(de.enter_nested().is_ok());
    }
    assert_eq!(de.remaining_depth(), 2);
    assert_eq!(de.parse_any_token().unwrap(), Token::Array);
    assert_eq!(de.remaining_depth(), 1);
    assert_eq!(de.parse_any_token().unwrap_err().code, ErrorCode::RecursionLimitExceeded);
    assert_eq!(de.remaining_depth(), 0);
    let mut de = Deserializer::new(b"x");
    assert_eq!(de.parse_any_token().unwrap_err().code, ErrorCode::ExpectedSomeValue);
    assert_eq!(de.remaining_depth(), 128);
}

#[test]
fn ignoring_deeply_nested_arrays() {
    let input = vec![b'['; 200];
    let mut de = Deserializer::new(&input);
    assert_eq!(de.ignore_value().unwrap_err().code, ErrorCode::EofWhileParsingArray);
    let mut input = vec![b'['; 200];
    input.extend(vec![b']'; 200]);
    let mut de = Deserializer::new(&input);
    assert!(de.ignore_value().is_ok());
}

#[test]
fn closing_an_enum() {
    let mut de = Deserializer::new(b" }");
    assert!(de.end_enum().is_ok());
    let mut de = Deserializer::new(b" x");
    assert_eq!(de.end_enum().unwrap_err().code, ErrorCode::ExpectedSomeValue);
    let mut de = Deserializer::new(b" ");
    assert_eq!(de.end_enum().unwrap_err().code, ErrorCode::EofWhileParsingObject);
}

#[test]
fn hex_digits() {
    assert_eq!(decode_hex_val_slow(b'F'), Some(15));
    assert_eq!(decode_hex_val_slow(b'a'), Some(10));
    assert_eq!(decode_hex_val_slow(b'g'), None);
    assert_eq!(decode_four_hex_digits(b'0', b'0', b'e', b'9'), Some(0xe9));
    assert_eq!(decode_four_hex_digits(b'D', b'8', b'3', b'D'), Some(0xd83d));
    assert_eq!(decode_four_hex_digits(b'0', b'x', b'0', b'0'), None);
    let mut de = Deserializer::new(b"00e9");
    assert_eq!(de.decode_hex_escape().unwrap(), 0xe9);
    let mut de = Deserializer::new(b"00e");
    assert_eq!(de.decode_hex_escape().unwrap_err().code, ErrorCode::EofWhileParsingString);
}

#[test]
fn escape_bytes() {
    assert!(is_escape(b'"', false));
    assert!(is_escape(b'\\', false));
    assert!(!is_escape(0x1f, false));
    assert!(is_escape(0x1f, true));
    assert!(!is_escape(b'a', true));
}

#[test]
fn wtf8_code_points() {
    let mut v = Vec::new();
    push_wtf8_codepoint(0x41, &mut v);
    push_wtf8_codepoint(0xe9, &mut v);
    push_wtf8_codepoint(0x20ac, &mut v);
    push_wtf8_codepoint(0x1f600, &mut v);
    assert_eq!(v, "Aé€😀".as_bytes());
    let mut v = Vec::new();
    push_wtf8_codepoint(0xd800, &mut v);
    assert_eq!(v, vec![0xed, 0xa0, 0x80]);
}

#[test]
fn utf8_checks() {
    let de = Deserializer::new(b"ab");
    assert_eq!(as_str(&de, b"ok").unwrap(), "ok");
    assert_eq!(as_str(&de, b"\xc3").unwrap_err().code, ErrorCode::InvalidUnicodeCodePoint);
}

#[test]
fn skipping_to_escapes() {
    let mut de = Deserializer::new(b"abc\"def");
    de.skip_to_escape(true);
    assert_eq!(de.peek(), Some(b'"'));
    let mut de = Deserializer::new(b"ab\x01c\\");
    de.skip_to_escape(false);
    assert_eq!(de.peek(), Some(b'\\'));
    let mut de = Deserializer::new(b"ab\x01c\\");
    de.skip_to_escape_slow();
    assert_eq!(de.peek(), Some(0x01));
}

#[test]
fn hex_tables() {
    let hex0 = build_hex_table(0);
    let hex1 = build_hex_table(4);
    assert_eq!(hex0.len(), 256);
    assert_eq!(hex0[b'7' as usize], 7);
    assert_eq!(hex1[b'a' as usize], 160);
    assert_eq!(hex1[b'F' as usize], 240);
    assert_eq!(hex0[b'g' as usize], -1);
    assert_eq!(hex1[b' ' as usize], -1);
}

#[test]
fn strings_are_borrowed_exactly_when_they_hold_no_escape() {
    let mut de = Deserializer::new(b"\"plain\" ");
    assert!(de.begin_str().unwrap());
    assert!(matches!(de.parse_str().unwrap(), serde_nuan5json::de::Reference::Borrowed("plain")));
    let mut de = Deserializer::new(b"\"a\\nb\" ");
    assert!(de.begin_str().unwrap());
    assert!(matches!(de.parse_str().unwrap(), serde_nuan5json::de::Reference::Copied("a\nb")));
    let mut de = Deserializer::new(b"\"x\\\"\"");
    assert!(de.begin_str().unwrap());
    match de.parse_str_raw().unwrap() {
        serde_nuan5json::de::Reference::Copied(b) => assert_eq!(b, b"x\""),
        serde_nuan5json::de::Reference::Borrowed(_) => panic!("an escaped string is copied"),
    }
}

#[test]
fn where_the_reader_stops_on_an_error() {
    let mut de = Deserializer::new(b"01,");
    assert_eq!(de.parse_integer(true).unwrap_err().code, ErrorCode::InvalidNumber);
    assert_eq!(de.position().column, 1);
    let mut de = Deserializer::new(b"x");
    assert_eq!(de.parse_integer(true).unwrap_err().code, ErrorCode::InvalidNumber);
    assert_eq!(de.position().column, 1);
    let mut de = Deserializer::new(b"1.x");
    assert_eq!(de.parse_integer(true).unwrap_err().code, ErrorCode::InvalidNumber);
    assert_eq!(de.position().column, 2);
    let mut de = Deserializer::new(b"1ex");
    assert_eq!(de.parse_integer(true).unwrap_err().code, ErrorCode::InvalidNumber);
    assert_eq!(de.position().column, 3);
    let mut de = Deserializer::new(b"D800x");
    assert!(de.parse_unicode_escape(false).is_ok());
    assert_eq!(de.position().column, 4);
    let mut de = Deserializer::new(b"D800x");
    assert_eq!(de.parse_unicode_escape(true).unwrap_err().code, ErrorCode::UnexpectedEndOfHexEscape);
    assert_eq!(de.position().column, 5);
    let mut de = Deserializer::new(b"ab");
    assert_eq!(de.parse_str_bytes(true).unwrap_err().code, ErrorCode::EofWhileParsingString);
    assert_eq!(de.position().column, 2);
    let mut de = Deserializer::new(b"a\x01b\"");
    assert_eq!(de.parse_str_bytes(true).unwrap_err().code, ErrorCode::ControlCharacterWhileParsingString);
    assert_eq!(de.position().column, 2);
    let mut de = Deserializer::new(b"a\x01b\"");
    assert!(de.parse_str_bytes(false).is_ok());
    assert_eq!(de.position().column, 4);
}
