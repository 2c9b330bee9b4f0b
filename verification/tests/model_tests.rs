use serde_nuan5json::error::{Error, ErrorCode};
use serde_nuan5json::ext_type::{AdaptiveArray, IdMap, OptionMap, TOKEN};
use serde_nuan5json::fields::{
    get_loc_fields, get_rot_fields, get_scale_fields, record_fields, transform_fields, ArgError, ArgErrorKind, ArgValue,
    DimControl, RecordShape, ShapeError, TransformArgs,
};
use serde_nuan5json::structs::{ClockGamePlugin, EditPhotoHandler, PhotoWallPlugin};
use std::collections::BTreeMap;

#[test]
fn id_map_like_a_btree_map() {
    let mut id_map = IdMap::new();
    assert!(id_map.is_empty());
    assert_eq!(id_map.insert(10008, false), None);
    assert_eq!(id_map.insert(20001, true), None);
    assert_eq!(id_map.insert(10008, true), Some(false));
    assert_eq!(id_map.len(), 2);
    assert_eq!(id_map.get(&10008), Some(&true));
    let keys: Vec<i64> = id_map.keys().copied().collect();
    assert_eq!(keys, vec![10008, 20001]);
    let inner = id_map.into_map();
    let mut expected = BTreeMap::new();
    expected.insert(10008, true);
    expected.insert(20001, true);
    assert_eq!(inner, expected);
    let back = IdMap::from_map(inner);
    assert_eq!(back.len(), 2);
    assert_eq!(TOKEN, "IdMap");
}

#[test]
fn adaptive_arrays_and_option_maps() {
    let a: AdaptiveArray<i64> = AdaptiveArray::Array(vec![1, 2]);
    assert!(matches!(a, AdaptiveArray::Array(ref v) if v.len() == 2));
    let b: AdaptiveArray<i64> = AdaptiveArray::Item(3);
    assert!(matches!(b, AdaptiveArray::Item(3)));
    let c: AdaptiveArray<i64> = AdaptiveArray::Empty {};
    assert!(matches!(c, AdaptiveArray::Empty {}));
    let d: OptionMap<i64> = OptionMap::Absent {};
    assert!(matches!(d, OptionMap::Absent {}));
    let e: OptionMap<i64> = OptionMap::Present(4);
    assert!(matches!(e, OptionMap::Present(4)));
    let w = PhotoWallPlugin { photo_id: AdaptiveArray::Item(7) };
    assert!(matches!(w.photo_id, AdaptiveArray::Item(7)));
    let h = EditPhotoHandler { edit_state: true, has_sticker: false, has_text: true };
    assert!(h.edit_state && !h.has_sticker && h.has_text);
    let g = ClockGamePlugin { tag: 2 };
    assert_eq!(g.tag, 2);
}

#[test]
fn errors_with_and_without_positions() {
    let e = Error::code(ErrorCode::KeyMustBeAString);
    assert_eq!((e.line, e.column), (0, 0));
    let e = Error::syntax(ErrorCode::TrailingComma, 3, 7);
    assert_eq!((e.line, e.column, e.code), (3, 7, ErrorCode::TrailingComma));
    let e = Error::code(ErrorCode::Message("custom".to_string()));
    assert_eq!(e.code, ErrorCode::Message("custom".to_string()));
}

fn names(defs: Vec<serde_nuan5json::fields::FieldDef>) -> Vec<(String, String)> {
    defs.iter().map(|d| (d.json_suffix.to_string(), d.rust_suffix.to_string())).collect()
}

#[test]
fn transform_field_suffixes() {
    assert!(get_loc_fields(0).is_empty());
    assert_eq!(names(get_loc_fields(1)), vec![("Loc".to_string(), "loc".to_string())]);
    assert_eq!(
        names(get_loc_fields(3)),
        vec![
            ("LocX".to_string(), "loc_x".to_string()),
            ("LocY".to_string(), "loc_y".to_string()),
            ("LocZ".to_string(), "loc_z".to_string())
        ]
    );
    assert_eq!(
        names(get_scale_fields(2)),
        vec![("ScaleX".to_string(), "scale_x".to_string()), ("ScaleY".to_string(), "scale_y".to_string())]
    );
    assert_eq!(
        names(get_rot_fields(3)),
        vec![
            ("RotYaw".to_string(), "rot_yaw".to_string()),
            ("RotPitch".to_string(), "rot_pitch".to_string()),
            ("RotRoll".to_string(), "rot_roll".to_string())
        ]
    );
    assert_eq!(names(get_rot_fields(2))[1], ("RotY".to_string(), "rot_y".to_string()));
}

#[test]
fn dimension_counts() {
    assert_eq!(DimControl::new(3).unwrap().val(), 3);
    assert_eq!(DimControl::new(0).unwrap().val(), 0);
    assert!(DimControl::new(4).is_none());
}

#[test]
fn transform_fields_with_prefixes() {
    let args = TransformArgs {
        pre_rename: b"cameraActor".to_vec(),
        pre_field: b"camera_actor".to_vec(),
        ty: "f64".to_string(),
        loc: DimControl::new(1).unwrap(),
        scale: DimControl::new(0).unwrap(),
        rot: DimControl::new(2).unwrap(),
    };
    let fields: Vec<(String, String)> = transform_fields(&args)
        .into_iter()
        .map(|f| (String::from_utf8(f.json_name).unwrap(), String::from_utf8(f.field_name).unwrap()))
        .collect();
    assert_eq!(
        fields,
        vec![
            ("cameraActorLoc".to_string(), "camera_actor_loc".to_string()),
            ("cameraActorRotX".to_string(), "camera_actor_rot_x".to_string()),
            ("cameraActorRotY".to_string(), "camera_actor_rot_y".to_string()),
        ]
    );
}

#[test]
fn transform_fields_by_default() {
    let args = TransformArgs::default();
    assert!(transform_fields(&args).iter().all(|f| f.ty == "f64"));
    let mut wide = TransformArgs::default();
    wide.apply_arg(b"ty", &text("f32")).unwrap();
    assert!(transform_fields(&wide).iter().all(|f| f.ty == "f32"));
    let fields: Vec<String> = transform_fields(&args)
        .into_iter()
        .map(|f| String::from_utf8(f.field_name).unwrap())
        .collect();
    assert_eq!(
        fields,
        vec!["loc_x", "loc_y", "loc_z", "scale_x", "scale_y", "scale_z", "rot_yaw", "rot_pitch", "rot_roll"]
    );
}

fn text(s: &str) -> ArgValue {
    ArgValue::Text(s.to_string())
}

fn digits(s: &str) -> ArgValue {
    ArgValue::Digits(s.as_bytes().to_vec())
}

#[test]
fn transform_arguments_are_taken_one_by_one() {
    let items = vec![
        (b"loc".to_vec(), digits("3")),
        (b"scale".to_vec(), digits("0")),
        (b"rot".to_vec(), digits("3")),
        (b"pre_field".to_vec(), text("camera_actor")),
        (b"pre_rename".to_vec(), text("cameraActor")),
        (b"ty".to_vec(), text("f32")),
    ];
    let args = TransformArgs::parse_args(&items).unwrap();
    assert_eq!(args.pre_field, b"camera_actor".to_vec());
    assert_eq!(args.pre_rename, b"cameraActor".to_vec());
    assert_eq!(args.ty, "f32");
    assert_eq!((args.loc.val(), args.scale.val(), args.rot.val()), (3, 0, 3));
    let defaults = TransformArgs::parse_args(&Vec::new()).unwrap();
    assert_eq!(defaults.ty, "f64");
    assert!(defaults.pre_field.is_empty() && defaults.pre_rename.is_empty());
}

#[test]
fn transform_arguments_that_are_refused() {
    let cases = vec![
        (b"loc".to_vec(), digits("4"), ArgErrorKind::DimOutOfRange),
        (b"rot".to_vec(), digits("256"), ArgErrorKind::IntegerOutOfRange),
        (b"scale".to_vec(), digits("99999999999999999999999999999999999999999"), ArgErrorKind::IntegerOutOfRange),
        (b"loc".to_vec(), text("3"), ArgErrorKind::ExpectedInteger),
        (b"pre_field".to_vec(), digits("1"), ArgErrorKind::ExpectedString),
        (b"ty".to_vec(), digits("1"), ArgErrorKind::ExpectedString),
        (b"pre_field".to_vec(), text("two words"), ArgErrorKind::InvalidPrefix),
        (b"pre_rename".to_vec(), text("a-b"), ArgErrorKind::InvalidPrefix),
        (b"ty".to_vec(), text("1"), ArgErrorKind::InvalidType),
        (b"color".to_vec(), text("red"), ArgErrorKind::UnknownKey),
    ];
    for (key, value, err) in cases {
        let mut args = TransformArgs::default();
        assert_eq!(args.apply_arg(&key, &value), Err(ArgError { kind: err, key: key.clone() }));
        assert_eq!(args.ty, "f64");
        assert_eq!(args.loc.val(), 3);
    }
    let mut args = TransformArgs::default();
    assert_eq!(args.apply_arg(b"pre_field", &text("")), Ok(()));
    assert_eq!(args.apply_arg(b"pre_field", &text("9lives")), Ok(()));
    assert_eq!(args.pre_field, b"9lives".to_vec());
    let items = vec![(b"loc".to_vec(), digits("1")), (b"bogus".to_vec(), digits("1")), (b"rot".to_vec(), digits("9"))];
    assert_eq!(
        TransformArgs::parse_args(&items).err(),
        Some(ArgError { kind: ArgErrorKind::UnknownKey, key: b"bogus".to_vec() })
    );
}

#[test]
fn refused_arguments_name_their_key() {
    let items = vec![(b"loc".to_vec(), digits("4"))];
    let err = TransformArgs::parse_args(&items).err().unwrap();
    assert_eq!(err.message(), Some(b"`loc` must be 0, 1, 2, or 3".to_vec()));
    let mut args = TransformArgs::default();
    let err = args.apply_arg(b"pre_rename", &text("a-b")).unwrap_err();
    assert_eq!(err.message(), Some(b"`pre_rename` must be a valid identifier prefix".to_vec()));
    let err = args.apply_arg(b"color", &text("red")).unwrap_err();
    assert_eq!(
        err.message(),
        Some(b"unknown attribute `color`, expected one of: pre_rename, pre_field, ty, loc, scale, rot".to_vec())
    );
    let err = args.apply_arg(b"ty", &text("1")).unwrap_err();
    assert_eq!(err.message(), None);
}

#[test]
fn record_fields_put_the_added_fields_first() {
    let args = TransformArgs {
        pre_rename: b"cam".to_vec(),
        pre_field: b"cam".to_vec(),
        ty: "f64".to_string(),
        loc: DimControl::new(1).unwrap(),
        scale: DimControl::new(0).unwrap(),
        rot: DimControl::new(0).unwrap(),
    };
    let own = vec![b"name".to_vec(), b"id".to_vec()];
    let names = record_fields(RecordShape::Named(own), &args).unwrap();
    assert_eq!(names, vec![b"cam_loc".to_vec(), b"name".to_vec(), b"id".to_vec()]);
    assert_eq!(record_fields(RecordShape::Unit, &args).unwrap(), vec![b"cam_loc".to_vec()]);
    assert_eq!(record_fields(RecordShape::Tuple, &args), Err(ShapeError::TupleRecord));
    assert_eq!(record_fields(RecordShape::NotARecord, &args), Err(ShapeError::NotARecord));
    assert_eq!(ShapeError::TupleRecord.message(), "tuple structs are not supported");
    assert_eq!(
        ShapeError::NotARecord.message(),
        "`with_transform_fields` can only be applied to structs"
    );
}
