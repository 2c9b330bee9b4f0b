use serde_nuan5json::de::{Deserializer, ParserNumber, Token};
use serde_nuan5json::ser::Serializer;

fn write_str(s: &str) -> Vec<u8> {
    let mut ser = Serializer::new(Vec::new());
    ser.serialize_str(s);
    ser.into_inner()
}

fn read_str(bytes: &[u8]) -> String {
    let mut de = Deserializer::new(bytes);
    assert!(de.begin_str().unwrap());
    let r = de.parse_str().unwrap();
    r.deref().to_string()
}

#[test]
fn strings_read_back() {
    for s in ["", "plain", "quote \" and \\ backslash", "ctl \u{0}\u{1}\u{1f}\n\r\t\u{8}\u{c}", "é€😀 / end"] {
        assert_eq!(read_str(&write_str(s)), s);
    }
}

#[test]
fn strings_read_back_raw() {
    let bytes = write_str("a\u{2}b\"");
    let mut de = Deserializer::new(&bytes);
    assert!(de.begin_str().unwrap());
    assert_eq!(de.parse_str_raw().unwrap().deref(), b"a\x02b\"");
}

fn read_number(bytes: &[u8]) -> ParserNumber {
    let mut with_end = bytes.to_vec();
    with_end.push(b',');
    let mut de = Deserializer::new(&with_end);
    de.deserialize_number().unwrap().unwrap()
}

#[test]
fn integers_read_back() {
    for v in [0i64, 1, -1, 42, -42, i64::MAX, i64::MIN] {
        let mut ser = Serializer::new(Vec::new());
        ser.serialize_i64(v);
        let expected = if v >= 0 { ParserNumber::U64(v as u64) } else { ParserNumber::I64(v) };
        assert_eq!(read_number(&ser.into_inner()), expected);
    }
    for v in [0u64, 9, 10, u64::MAX] {
        let mut ser = Serializer::new(Vec::new());
        ser.serialize_u64(v);
        assert_eq!(read_number(&ser.into_inner()), ParserNumber::U64(v));
    }
}

#[test]
fn wide_integers_read_back() {
    let mut ser = Serializer::new(Vec::new());
    ser.serialize_i128(i128::MIN);
    let mut bytes = ser.into_inner();
    bytes.push(b']');
    let mut de = Deserializer::new(&bytes);
    assert_eq!(de.do_deserialize_i128().unwrap(), i128::MIN);
}

#[test]
fn an_id_map_reads_back() {
    let mut ser = Serializer::pretty(Vec::new());
    let mut map = ser.serialize_id_map();
    for (k, v) in [(-3i64, "x"), (27, "y\n")] {
        map.begin_key(&mut ser);
        ser.serialize_i64(k);
        map.end_key(&mut ser);
        map.begin_value(&mut ser);
        ser.serialize_str(v);
        map.end_value(&mut ser);
    }
    map.end_map(&mut ser);
    let bytes = ser.into_inner();
    let mut de = Deserializer::new(&bytes);
    assert!(de.begin_id_map().unwrap());
    let mut first = true;
    let mut seen = Vec::new();
    while de.has_next_id_map_key(&mut first).unwrap() {
        let key = match de.deserialize_number().unwrap() {
            Some(ParserNumber::I64(k)) => k,
            Some(ParserNumber::U64(k)) => k as i64,
            other => panic!("unexpected {:?}", other),
        };
        de.parse_object_colon().unwrap();
        assert!(de.begin_str().unwrap());
        let value = de.parse_str().unwrap().deref().to_string();
        seen.push((key, value));
    }
    assert!(de.end_id_map().is_ok());
    assert_eq!(seen, vec![(-3, "x".to_string()), (27, "y\n".to_string())]);
}

#[test]
fn decision_helpers() {
    let mut de = Deserializer::new(b" true");
    assert_eq!(de.parse_bool().unwrap(), Some(true));
    let mut de = Deserializer::new(b" 1");
    assert_eq!(de.parse_bool().unwrap(), None);
    let mut de = Deserializer::new(b" null");
    assert!(de.parse_unit().unwrap());
    let mut de = Deserializer::new(b" nul");
    assert!(de.parse_unit().is_err());
    let mut de = Deserializer::new(b"");
    assert!(!de.parse_none().unwrap());
    let mut de = Deserializer::new(b" null");
    assert!(de.parse_none().unwrap());
    let mut de = Deserializer::new(b" [1]");
    assert!(de.begin_seq().unwrap());
    assert_eq!(de.remaining_depth(), 127);
    let mut de = Deserializer::new(b" {");
    assert!(!de.begin_seq().unwrap());
    assert!(de.begin_map().unwrap());
    let mut de = Deserializer::new(b"[");
    assert_eq!(de.begin_struct().unwrap(), Some(serde_nuan5json::de::Token::Array));
    let mut de = Deserializer::new(b"\"Unit\"");
    assert!(!de.begin_enum().unwrap());
    let mut de = Deserializer::new(b"{\"V\":1}");
    assert!(de.begin_enum().unwrap());
    let mut de = Deserializer::new(b"[1]");
    assert!(!de.begin_id_map().unwrap());
    assert_eq!(de.peek(), Some(b'1'));
}

fn write_array<F: serde_nuan5json::ser::Formatter>(ser: &mut Serializer<F>, values: &[u32]) {
    let mut seq = ser.serialize_seq();
    for v in values {
        seq.begin_element(ser);
        ser.serialize_u32(*v);
        seq.end_element(ser);
    }
    seq.end_seq(ser);
}

fn read_array(bytes: &[u8]) -> Result<Vec<u64>, serde_nuan5json::error::Error> {
    let mut de = Deserializer::new(bytes);
    assert!(de.begin_seq()?);
    let mut first = true;
    let mut seen = Vec::new();
    while de.has_next_element(&mut first)? {
        match de.deserialize_number()? {
            Some(ParserNumber::U64(n)) => seen.push(n),
            other => panic!("unexpected {:?}", other),
        }
    }
    de.end_array()?;
    Ok(seen)
}

#[test]
fn arrays_read_back_in_both_layouts() {
    for values in [vec![], vec![7], vec![1, 2, 3]] {
        let mut ser = Serializer::new(Vec::new());
        write_array(&mut ser, &values);
        let expected: Vec<u64> = values.iter().map(|v| *v as u64).collect();
        assert_eq!(read_array(&ser.into_inner()).unwrap(), expected);
        let mut ser = Serializer::pretty(Vec::new());
        write_array(&mut ser, &values);
        assert_eq!(read_array(&ser.into_inner()).unwrap(), expected);
    }
}

#[test]
fn a_pretty_layout_that_does_not_indent_with_whitespace_is_not_read_back() {
    let mut ser = Serializer::with_formatter(
        Vec::new(),
        serde_nuan5json::ser::PrettyFormatter::with_indent(b"--"),
    );
    write_array(&mut ser, &[1, 2]);
    let bytes = ser.into_inner();
    assert_eq!(bytes, b"[\n--1,\n--2\n]".to_vec());
    assert!(read_array(&bytes).is_err());
}

#[test]
fn objects_read_back() {
    let mut ser = Serializer::pretty(Vec::new());
    let mut map = ser.serialize_map();
    for (k, v) in [("a", true), ("b\"", false)] {
        map.begin_key(&mut ser);
        ser.serialize_str(k);
        map.end_key(&mut ser);
        map.begin_value(&mut ser);
        ser.serialize_bool(v);
        map.end_value(&mut ser);
    }
    map.end_map(&mut ser);
    let bytes = ser.into_inner();
    let mut de = Deserializer::new(&bytes);
    assert!(de.begin_map().unwrap());
    let mut first = true;
    let mut seen = Vec::new();
    while de.has_next_key(&mut first).unwrap() {
        assert!(de.begin_str().unwrap());
        let key = de.parse_str().unwrap().deref().to_string();
        de.parse_object_colon().unwrap();
        let value = de.parse_bool().unwrap().unwrap();
        seen.push((key, value));
    }
    de.end_object().unwrap();
    assert_eq!(seen, vec![("a".to_string(), true), ("b\"".to_string(), false)]);
}

#[derive(Debug, PartialEq)]
enum Doc {
    Null,
    Bool(bool),
    Num(ParserNumber),
    Str(String),
    Arr(Vec<Doc>),
    Obj(Vec<(String, Doc)>),
}

fn write_doc<F: serde_nuan5json::ser::Formatter>(ser: &mut Serializer<F>, doc: &Doc) {
    match doc {
        Doc::Null => ser.serialize_unit(),
        Doc::Bool(b) => ser.serialize_bool(*b),
        Doc::Num(ParserNumber::U64(n)) => ser.serialize_u64(*n),
        Doc::Num(ParserNumber::I64(n)) => ser.serialize_i64(*n),
        Doc::Num(other) => panic!("not an integer: {:?}", other),
        Doc::Str(s) => ser.serialize_str(s),
        Doc::Arr(items) => {
            let mut seq = ser.serialize_seq();
            for item in items {
                seq.begin_element(ser);
                write_doc(ser, item);
                seq.end_element(ser);
            }
            seq.end_seq(ser);
        }
        Doc::Obj(members) => {
            let mut map = ser.serialize_map();
            for (k, v) in members {
                map.begin_key(ser);
                ser.serialize_str(k);
                map.end_key(ser);
                map.begin_value(ser);
                write_doc(ser, v);
                map.end_value(ser);
            }
            map.end_map(ser);
        }
    }
}

fn read_doc(de: &mut Deserializer) -> Result<Doc, serde_nuan5json::error::Error> {
    match de.parse_any_token()? {
        Token::Null => Ok(Doc::Null),
        Token::Bool(b) => Ok(Doc::Bool(b)),
        Token::Number(n) => Ok(Doc::Num(n)),
        Token::Str => Ok(Doc::Str(de.parse_str()?.deref().to_string())),
        Token::Array | Token::IdMap => {
            let mut first = true;
            let mut items = Vec::new();
            while de.has_next_element(&mut first)? {
                items.push(read_doc(de)?);
            }
            de.leave_nested();
            de.end_array()?;
            Ok(Doc::Arr(items))
        }
        Token::Object => {
            let mut first = true;
            let mut members = Vec::new();
            while de.has_next_key(&mut first)? {
                assert!(de.begin_str()?);
                let key = de.parse_str()?.deref().to_string();
                de.parse_object_colon()?;
                members.push((key, read_doc(de)?));
            }
            de.leave_nested();
            de.end_object()?;
            Ok(Doc::Obj(members))
        }
    }
}

fn sample_doc() -> Doc {
    Doc::Obj(vec![
        (
            "list".to_string(),
            Doc::Arr(vec![
                Doc::Num(ParserNumber::U64(1)),
                Doc::Num(ParserNumber::I64(-2)),
                Doc::Null,
                Doc::Bool(true),
                Doc::Arr(vec![]),
            ]),
        ),
        ("nested \"key\"".to_string(), Doc::Obj(vec![("s".to_string(), Doc::Str("x\ny".to_string()))])),
        ("empty".to_string(), Doc::Obj(vec![])),
    ])
}

#[test]
fn nested_documents_read_back() {
    let doc = sample_doc();
    let mut ser = Serializer::new(Vec::new());
    write_doc(&mut ser, &doc);
    let bytes = ser.into_inner();
    assert_eq!(
        bytes,
        b"{\"list\":[1,-2,null,true,[]],\"nested \\\"key\\\"\":{\"s\":\"x\\ny\"},\"empty\":{}}".to_vec()
    );
    let mut de = Deserializer::new(&bytes);
    assert_eq!(read_doc(&mut de).unwrap(), doc);
    assert_eq!(de.peek(), None);
}

#[test]
fn a_number_alone_reads_back() {
    let mut ser = Serializer::new(Vec::new());
    ser.serialize_u64(5);
    let bytes = ser.into_inner();
    let mut de = Deserializer::new(&bytes);
    assert_eq!(read_doc(&mut de).unwrap(), Doc::Num(ParserNumber::U64(5)));
    assert_eq!(de.peek(), None);
    let mut with_end = bytes.clone();
    with_end.push(b' ');
    let mut de = Deserializer::new(&with_end);
    assert_eq!(read_doc(&mut de).unwrap(), Doc::Num(ParserNumber::U64(5)));
}

#[test]
fn id_maps_read_back_with_nested_values() {
    let entries = vec![(10008i64, Doc::Bool(false)), (-1, sample_doc()), (20001, Doc::Arr(vec![Doc::Null]))];
    let mut ser = Serializer::new(Vec::new());
    let mut map = ser.serialize_id_map();
    for (k, v) in &entries {
        map.begin_key(&mut ser);
        ser.serialize_i64(*k);
        map.end_key(&mut ser);
        map.begin_value(&mut ser);
        write_doc(&mut ser, v);
        map.end_value(&mut ser);
    }
    map.end_map(&mut ser);
    let bytes = ser.into_inner();
    assert!(bytes.starts_with(b"[:10008:false,-1:{"));
    assert!(bytes.ends_with(b",20001:[null]]"));
    let mut de = Deserializer::new(&bytes);
    assert!(de.begin_id_map().unwrap());
    let mut first = true;
    let mut seen = Vec::new();
    while de.has_next_id_map_key(&mut first).unwrap() {
        let key = match de.deserialize_number().unwrap() {
            Some(ParserNumber::I64(k)) => k,
            Some(ParserNumber::U64(k)) => k as i64,
            other => panic!("unexpected {:?}", other),
        };
        de.parse_object_colon().unwrap();
        seen.push((key, read_doc(&mut de).unwrap()));
    }
    de.end_id_map().unwrap();
    assert_eq!(de.peek(), None);
    assert_eq!(seen, entries);
}

#[test]
fn nested_documents_read_back_in_the_pretty_layout() {
    let doc = sample_doc();
    let mut ser = Serializer::pretty(Vec::new());
    write_doc(&mut ser, &doc);
    let bytes = ser.into_inner();
    let expected = "{\n  \"list\": [\n    1,\n    -2,\n    null,\n    true,\n    []\n  ],\n  \"nested \\\"key\\\"\": {\n    \"s\": \"x\\ny\"\n  },\n  \"empty\": {}\n}";
    assert_eq!(String::from_utf8(bytes.clone()).unwrap(), expected);
    let mut de = Deserializer::new(&bytes);
    assert_eq!(read_doc(&mut de).unwrap(), doc);
    assert_eq!(de.peek(), None);
}

#[test]
fn written_documents_are_skipped_whole() {
    let doc = sample_doc();
    let mut ser = Serializer::new(Vec::new());
    write_doc(&mut ser, &doc);
    let mut bytes = ser.into_inner();
    bytes.push(b',');
    let mut de = Deserializer::new(&bytes);
    de.ignore_value().unwrap();
    assert_eq!(de.peek(), Some(b','));

    let mut ser = Serializer::pretty(Vec::new());
    write_doc(&mut ser, &doc);
    let mut bytes = ser.into_inner();
    bytes.extend_from_slice(b" ]");
    let mut de = Deserializer::new(&bytes);
    de.ignore_value().unwrap();
    assert_eq!(de.parse_whitespace(), Some(b']'));
}

#[test]
fn wide_integers_read_back_at_the_edges() {
    for v in [i128::MIN, -1, 0, 7, i128::MAX] {
        let mut ser = Serializer::new(Vec::new());
        ser.serialize_i128(v);
        let mut bytes = ser.into_inner();
        bytes.push(b']');
        let mut de = Deserializer::new(&bytes);
        assert_eq!(de.do_deserialize_i128().unwrap(), v);
        assert_eq!(de.peek(), Some(b']'));
    }
    for v in [0u128, 10, u128::MAX] {
        let mut ser = Serializer::new(Vec::new());
        ser.serialize_u128(v);
        let mut bytes = ser.into_inner();
        bytes.push(b',');
        let mut de = Deserializer::new(&bytes);
        assert_eq!(de.do_deserialize_u128().unwrap(), v);
        assert_eq!(de.peek(), Some(b','));
    }
}

#[test]
fn map_keys_read_back() {
    for k in [-42i64, 0, 7, i64::MIN, i64::MAX] {
        let mut ser = Serializer::new(Vec::new());
        ser.serialize_key_signed(k as i128);
        let mut bytes = ser.into_inner();
        assert_eq!(bytes, format!("\"{}\"", k).into_bytes());
        bytes.push(b':');
        let mut de = Deserializer::new(&bytes);
        de.begin_numeric_key().unwrap();
        let n = de.deserialize_number().unwrap().unwrap();
        let expected = if k >= 0 { ParserNumber::U64(k as u64) } else { ParserNumber::I64(k) };
        assert_eq!(n, expected);
        de.end_numeric_key().unwrap();
        assert_eq!(de.peek(), Some(b':'));
    }
    for b in [true, false] {
        let mut ser = Serializer::new(Vec::new());
        ser.serialize_key_bool(b);
        let bytes = ser.into_inner();
        let mut de = Deserializer::new(&bytes);
        assert_eq!(de.parse_key_bool().unwrap(), Some(b));
        assert_eq!(de.peek(), None);
    }
}

#[test]
fn byte_arrays_read_back_as_arrays_of_their_bytes() {
    let mut ser = Serializer::new(Vec::new());
    ser.serialize_bytes(&[0, 7, 255]);
    let bytes = ser.into_inner();
    assert_eq!(bytes, b"[0,7,255]".to_vec());
    let mut de = Deserializer::new(&bytes);
    let expected = Doc::Arr(vec![
        Doc::Num(ParserNumber::U64(0)),
        Doc::Num(ParserNumber::U64(7)),
        Doc::Num(ParserNumber::U64(255)),
    ]);
    assert_eq!(read_doc(&mut de).unwrap(), expected);
}

fn write_id_map<F: serde_nuan5json::ser::Formatter>(ser: &mut Serializer<F>, entries: &[(i64, Doc)]) {
    let mut map = ser.serialize_id_map();
    for (k, v) in entries {
        map.begin_key(ser);
        ser.serialize_i64(*k);
        map.end_key(ser);
        map.begin_value(ser);
        write_doc(ser, v);
        map.end_value(ser);
    }
    map.end_map(ser);
}

#[test]
fn written_id_maps_are_skipped_whole() {
    let entries = vec![(10008i64, Doc::Bool(false)), (-1, sample_doc()), (20001, Doc::Arr(vec![Doc::Null]))];
    let mut ser = Serializer::new(Vec::new());
    write_id_map(&mut ser, &entries);
    let mut bytes = ser.into_inner();
    let len = bytes.len();
    bytes.push(b',');
    let mut de = Deserializer::new(&bytes);
    de.ignore_value().unwrap();
    assert_eq!(de.position().column, len);
    assert_eq!(de.peek(), Some(b','));

    let mut ser = Serializer::pretty(Vec::new());
    write_id_map(&mut ser, &entries);
    let mut bytes = ser.into_inner();
    assert!(bytes.starts_with(b"[:\n  10008: false,\n  -1: {"));
    bytes.extend_from_slice(b" ]");
    let mut de = Deserializer::new(&bytes);
    de.ignore_value().unwrap();
    assert_eq!(de.parse_whitespace(), Some(b']'));
}
