use serde_nuan5json::ser::{
    format_escaped_str, format_escaped_str_contents, indent, write_byte_array, CharEscape,
    CompactFormatter, Formatter, PrettyFormatter, Serializer,
};

fn text(bytes: Vec<u8>) -> String {
    String::from_utf8(bytes).unwrap()
}

#[test]
fn compact_scalars() {
    let mut ser = Serializer::new(Vec::new());
    ser.serialize_bool(true);
    ser.serialize_bool(false);
    ser.serialize_unit();
    ser.serialize_i8(-128);
    ser.serialize_u64(u64::MAX);
    ser.serialize_i128(i128::MIN);
    ser.serialize_u128(0);
    assert_eq!(
        text(ser.into_inner()),
        "truefalsenull-12818446744073709551615-1701411834604692317316873037158841057280"
    );
}

#[test]
fn every_integer_width() {
    let mut ser = Serializer::new(Vec::new());
    ser.serialize_i16(-300);
    ser.serialize_i32(7);
    ser.serialize_i64(-9_000_000_000);
    ser.serialize_u8(255);
    ser.serialize_u16(65535);
    ser.serialize_u32(4_000_000_000);
    assert_eq!(text(ser.into_inner()), "-3007-9000000000255655354000000000");
}

#[test]
fn string_escapes() {
    let mut ser = Serializer::new(Vec::new());
    ser.serialize_str("a\"b\\c\nd\te\u{1}\u{8}\u{c}\r/é");
    assert_eq!(text(ser.into_inner()), "\"a\\\"b\\\\c\\nd\\te\\u0001\\b\\f\\r/é\"");
}

#[test]
fn string_without_escapes_is_one_fragment() {
    let mut out = Vec::new();
    let mut f = CompactFormatter;
    format_escaped_str_contents(&mut out, &mut f, "plain text");
    assert_eq!(text(out), "plain text");
}

#[test]
fn escaped_string_in_quotes() {
    let mut out = Vec::new();
    let mut f = CompactFormatter;
    format_escaped_str(&mut out, &mut f, "\u{1f}x\"");
    assert_eq!(text(out), "\"\\u001fx\\\"\"");
}

#[test]
fn empty_string() {
    let mut ser = Serializer::new(Vec::new());
    ser.serialize_str("");
    assert_eq!(text(ser.into_inner()), "\"\"");
}

#[test]
fn chars_are_strings() {
    let mut ser = Serializer::new(Vec::new());
    ser.serialize_char('é');
    ser.serialize_char('"');
    ser.serialize_char('😀');
    assert_eq!(text(ser.into_inner()), "\"é\"\"\\\"\"\"😀\"");
}

#[test]
fn char_escapes_are_written() {
    let mut out = Vec::new();
    let mut f = CompactFormatter;
    f.write_char_escape(&mut out, CharEscape::Solidus);
    f.write_char_escape(&mut out, CharEscape::AsciiControl(0x1e));
    f.write_char_escape(&mut out, CharEscape::Tab);
    assert_eq!(text(out), "\\/\\u001e\\t");
}

#[test]
fn number_strings_are_written_as_they_are() {
    let mut ser = Serializer::new(Vec::new());
    ser.serialize_number_str("-31.26e12");
    ser.serialize_key_number_str("1.5");
    assert_eq!(text(ser.into_inner()), "-31.26e12\"1.5\"");
}

#[test]
fn compact_array() {
    let mut ser = Serializer::new(Vec::new());
    let mut seq = ser.serialize_seq();
    for v in [1u8, 2, 3] {
        seq.begin_element(&mut ser);
        ser.serialize_u8(v);
        seq.end_element(&mut ser);
    }
    seq.end_seq(&mut ser);
    assert_eq!(text(ser.into_inner()), "[1,2,3]");
}

#[test]
fn empty_arrays_and_objects() {
    let mut ser = Serializer::new(Vec::new());
    let seq = ser.serialize_seq();
    seq.end_seq(&mut ser);
    let map = ser.serialize_map();
    map.end_map(&mut ser);
    assert_eq!(text(ser.into_inner()), "[]{}");
}

#[test]
fn compact_object() {
    let mut ser = Serializer::new(Vec::new());
    let mut map = ser.serialize_map();
    for (k, v) in [("editState", true), ("hasText", false)] {
        map.begin_key(&mut ser);
        ser.serialize_str(k);
        map.end_key(&mut ser);
        map.begin_value(&mut ser);
        ser.serialize_bool(v);
        map.end_value(&mut ser);
    }
    map.end_map(&mut ser);
    assert_eq!(text(ser.into_inner()), "{\"editState\":true,\"hasText\":false}");
}

#[test]
fn compact_id_map() {
    let mut ser = Serializer::new(Vec::new());
    let mut map = ser.serialize_id_map();
    for (k, v) in [(10008i64, false), (20001, true)] {
        map.begin_key(&mut ser);
        ser.serialize_i64(k);
        map.end_key(&mut ser);
        map.begin_value(&mut ser);
        ser.serialize_bool(v);
        map.end_value(&mut ser);
    }
    map.end_map(&mut ser);
    assert_eq!(text(ser.into_inner()), "[:10008:false,20001:true]");
}

#[test]
fn pretty_id_map_as_in_the_readme() {
    let mut ser = Serializer::pretty(Vec::new());
    let mut map = ser.serialize_id_map();
    for (k, v) in [(10008i64, false), (20001, true)] {
        map.begin_key(&mut ser);
        ser.serialize_i64(k);
        map.end_key(&mut ser);
        map.begin_value(&mut ser);
        ser.serialize_bool(v);
        map.end_value(&mut ser);
    }
    map.end_map(&mut ser);
    assert_eq!(text(ser.into_inner()), "[:\n  10008: false,\n  20001: true\n]");
}

#[test]
fn pretty_nested_object() {
    let mut ser = Serializer::pretty(Vec::new());
    let mut outer = ser.serialize_map();
    outer.begin_key(&mut ser);
    ser.serialize_str("EditPhotoHandler");
    outer.end_key(&mut ser);
    outer.begin_value(&mut ser);
    let mut inner = ser.serialize_map();
    inner.begin_key(&mut ser);
    ser.serialize_str("editState");
    inner.end_key(&mut ser);
    inner.begin_value(&mut ser);
    ser.serialize_bool(true);
    inner.end_value(&mut ser);
    inner.end_map(&mut ser);
    outer.end_value(&mut ser);
    outer.begin_key(&mut ser);
    ser.serialize_str("list");
    outer.end_key(&mut ser);
    outer.begin_value(&mut ser);
    let empty = ser.serialize_seq();
    empty.end_seq(&mut ser);
    outer.end_value(&mut ser);
    outer.end_map(&mut ser);
    assert_eq!(
        text(ser.into_inner()),
        "{\n  \"EditPhotoHandler\": {\n    \"editState\": true\n  },\n  \"list\": []\n}"
    );
}

#[test]
fn pretty_with_a_custom_indent() {
    let mut ser = Serializer::with_formatter(Vec::new(), PrettyFormatter::with_indent(b"\t"));
    let mut seq = ser.serialize_seq();
    for v in [1u32, 2] {
        seq.begin_element(&mut ser);
        ser.serialize_u32(v);
        seq.end_element(&mut ser);
    }
    seq.end_seq(&mut ser);
    assert_eq!(text(ser.into_inner()), "[\n\t1,\n\t2\n]");
}

#[test]
fn byte_arrays() {
    let mut ser = Serializer::new(Vec::new());
    ser.serialize_bytes(&[0, 7, 255]);
    assert_eq!(text(ser.into_inner()), "[0,7,255]");
    let mut ser = Serializer::pretty(Vec::new());
    ser.serialize_bytes(&[1, 2]);
    assert_eq!(text(ser.into_inner()), "[\n  1,\n  2\n]");
    let mut out = Vec::new();
    let mut f = CompactFormatter;
    write_byte_array(&mut f, &mut out, &[]);
    assert_eq!(text(out), "[]");
}

#[test]
fn newtype_variant() {
    let mut ser = Serializer::new(Vec::new());
    ser.begin_newtype_variant("Item");
    ser.serialize_i64(5);
    ser.end_newtype_variant();
    assert_eq!(text(ser.into_inner()), "{\"Item\":5}");
}

#[test]
fn tuple_and_struct_variants() {
    let mut ser = Serializer::new(Vec::new());
    let mut seq = ser.serialize_tuple_variant("Pair");
    for v in [1i32, -1] {
        seq.begin_element(&mut ser);
        ser.serialize_i32(v);
        seq.end_element(&mut ser);
    }
    seq.end_tuple_variant(&mut ser);
    let mut map = ser.serialize_struct_variant("Point");
    map.begin_key(&mut ser);
    ser.serialize_str("x");
    map.end_key(&mut ser);
    map.begin_value(&mut ser);
    ser.serialize_i32(3);
    map.end_value(&mut ser);
    map.end_struct_variant(&mut ser);
    assert_eq!(text(ser.into_inner()), "{\"Pair\":[1,-1]}{\"Point\":{\"x\":3}}");
}

#[test]
fn pretty_newtype_variant() {
    let mut ser = Serializer::pretty(Vec::new());
    ser.begin_newtype_variant("Item");
    ser.serialize_i64(5);
    ser.end_newtype_variant();
    assert_eq!(text(ser.into_inner()), "{\n  \"Item\": 5\n}");
}

#[test]
fn quoted_map_keys() {
    let mut ser = Serializer::new(Vec::new());
    ser.serialize_key_bool(true);
    ser.serialize_key_signed(-12);
    ser.serialize_key_unsigned(34);
    assert_eq!(text(ser.into_inner()), "\"true\"\"-12\"\"34\"");
}

#[test]
fn collected_strings_are_one_quoted_string() {
    let mut ser = Serializer::new(Vec::new());
    ser.collect_str("a\"b");
    assert_eq!(text(ser.into_inner()), "\"a\\\"b\"");
    let mut ser = Serializer::new(Vec::new());
    ser.collect_str("ab");
    assert_eq!(ser.into_inner(), b"\"ab\"".to_vec());
}

#[test]
fn indentation() {
    let mut out = b"x".to_vec();
    indent(&mut out, 3, b"ab");
    assert_eq!(text(out), "xababab");
    let mut out = Vec::new();
    indent(&mut out, 0, b"ab");
    assert!(out.is_empty());
}

#[test]
fn writing_after_existing_output() {
    let mut ser = Serializer::new(b"prefix:".to_vec());
    ser.serialize_unit();
    assert_eq!(text(ser.into_inner()), "prefix:null");
}

#[test]
fn default_pretty_formatter_uses_two_spaces() {
    let f: PrettyFormatter = Default::default();
    let mut ser = Serializer::with_formatter(Vec::new(), f);
    let mut seq = ser.serialize_seq();
    seq.begin_element(&mut ser);
    ser.serialize_unit();
    seq.end_element(&mut ser);
    seq.end_seq(&mut ser);
    assert_eq!(text(ser.into_inner()), "[\n  null\n]");
    let _c: CompactFormatter = Default::default();
}
