use serde_nuan5json::attr::{lex_tokens, ArgToken, AttrError};
use serde_nuan5json::fields::{transform_fields, ArgErrorKind, TransformArgs};

fn field_names(args: &TransformArgs) -> Vec<String> {
    transform_fields(args).into_iter().map(|f| String::from_utf8(f.field_name).unwrap()).collect()
}

#[test]
fn attribute_text_of_the_records() {
    let args = TransformArgs::parse_attr(
        "loc = 3, scale = 0, rot = 3, pre_field = \"camera_actor\", pre_rename = \"cameraActor\"",
    )
    .unwrap();
    assert_eq!(args.pre_field, b"camera_actor".to_vec());
    assert_eq!(args.pre_rename, b"cameraActor".to_vec());
    assert_eq!((args.loc.val(), args.scale.val(), args.rot.val()), (3, 0, 3));
    assert_eq!(field_names(&args)[0], "camera_actor_loc_x");
    let args = TransformArgs::parse_attr("loc = 3, scale = 3, rot = 3").unwrap();
    assert_eq!(field_names(&args).len(), 9);
}

#[test]
fn attribute_text_forms() {
    assert_eq!(TransformArgs::parse_attr("").unwrap().ty, "f64");
    let args = TransformArgs::parse_attr("loc = 1_u8,\n ty = \"f32\",").unwrap();
    assert_eq!((args.loc.val(), args.ty.as_str()), (1, "f32"));
    let args = TransformArgs::parse_attr("rot = 0_1, pre_field = \"a\\x\"").err();
    assert_eq!(args, Some(AttrError::Lex(26)));
    let args = TransformArgs::parse_attr("pre_rename = \"tab\\tname\"").err().unwrap();
    match args {
        AttrError::Refused(e) => assert_eq!(e.kind, ArgErrorKind::InvalidPrefix),
        other => panic!("unexpected {:?}", other),
    }
    let args = TransformArgs::parse_attr("pre_rename = \"ok\"suffix").unwrap();
    assert_eq!(args.pre_rename, b"ok".to_vec());
}

#[test]
fn attribute_text_refusals() {
    assert_eq!(TransformArgs::parse_attr("loc 3").err(), Some(AttrError::Syntax(1)));
    assert_eq!(TransformArgs::parse_attr("loc = 3 scale = 1").err(), Some(AttrError::Syntax(3)));
    assert_eq!(TransformArgs::parse_attr("= 3").err(), Some(AttrError::Syntax(0)));
    assert_eq!(TransformArgs::parse_attr("loc = 0x3").err(), Some(AttrError::Lex(7)));
    assert_eq!(TransformArgs::parse_attr("ty = \"f64").err(), Some(AttrError::Lex(9)));
    let refused = |text: &str| match TransformArgs::parse_attr(text).err() {
        Some(AttrError::Refused(e)) => (e.kind, String::from_utf8(e.key).unwrap()),
        other => panic!("unexpected {:?}", other),
    };
    assert_eq!(refused("loc = 4"), (ArgErrorKind::DimOutOfRange, "loc".to_string()));
    assert_eq!(refused("loc = 9, ("), (ArgErrorKind::DimOutOfRange, "loc".to_string()));
    assert_eq!(refused("color = ("), (ArgErrorKind::UnknownKey, "color".to_string()));
    assert_eq!(refused("ty = 3"), (ArgErrorKind::ExpectedString, "ty".to_string()));
    assert_eq!(refused("scale = \"3\""), (ArgErrorKind::ExpectedInteger, "scale".to_string()));
    assert_eq!(refused("rot ="), (ArgErrorKind::ExpectedInteger, "rot".to_string()));
    assert_eq!(refused("rot = 300"), (ArgErrorKind::IntegerOutOfRange, "rot".to_string()));
    assert_eq!(refused("ty = \"1x\""), (ArgErrorKind::InvalidType, "ty".to_string()));
}

#[test]
fn attribute_tokens() {
    let toks = lex_tokens(b"a_1 = \"x\\n\\\"y\" , 1_0u8").unwrap();
    assert_eq!(toks.len(), 5);
    assert!(matches!(&toks[0], ArgToken::Ident(v) if v == b"a_1"));
    assert!(matches!(&toks[1], ArgToken::Punct(b'=')));
    assert!(matches!(&toks[2], ArgToken::Str(v) if v == b"x\n\"y"));
    assert!(matches!(&toks[3], ArgToken::Punct(b',')));
    assert!(matches!(&toks[4], ArgToken::Int(v) if v == b"10"));
    assert!(matches!(lex_tokens("é".as_bytes()), Err(0)));
}

#[test]
fn a_later_value_for_a_key_wins() {
    let args = TransformArgs::parse_attr("loc = 1, ty = \"f32\", loc = 2, ty = \"u8\"").unwrap();
    assert_eq!(args.loc.val(), 2);
    assert_eq!(args.ty, "u8");
}
