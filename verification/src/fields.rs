//! The transform fields (location, scale, rotation) that a record carries:
//! the arguments that say how many dimensions each has and how they are
//! named, and the fields' names and type.
use vstd::prelude::*;
use vstd::string::{StrSliceExecFns, StringExecFns, StringSliceAdditionalSpecFns};
use crate::de::digits_value;
use crate::grammar::{all_digits, decimal_value};
use crate::ser::ascii;

verus! {

/// How many dimensions a transform has: 0, 1, 2 or 3.
pub struct DimControl(u8);

impl DimControl {
    /// The number of dimensions.
    pub closed spec fn dims(&self) -> u8 {
        self.0
    }

    /// A transform has at most three dimensions.
    #[verifier::type_invariant]
    closed spec fn at_most_three(&self) -> bool {
        self.0 <= 3
    }

    /// A dimension count, when it is at most 3.
    pub fn new(val: u8) -> (res: Option<DimControl>)
        ensures
            match res {
                Some(d) => val <= 3 && d.dims() == val,
                None => val > 3,
            },
    {
        if val > 3 {
            return None;
        }
        Some(DimControl(val))
    }

    /// The number of dimensions.
    pub fn val(&self) -> (res: u8)
        ensures
            res == self.dims(),
            res <= 3,
    {
        proof {
            use_type_invariant(self);
        }
        self.0
    }
}

/// The suffixes of one transform field: of its name in the document, and
/// of its name in the record.
pub struct FieldDef {
    pub json_suffix: &'static str,
    pub rust_suffix: &'static str,
}

/// The two suffixes of a field, as text.
pub open spec fn suffixes(f: FieldDef) -> (Seq<char>, Seq<char>) {
    (f.json_suffix@, f.rust_suffix@)
}

/// The location fields for `dim` dimensions.
pub open spec fn loc_names(dim: u8) -> Seq<(Seq<char>, Seq<char>)> {
    if dim == 0 {
        seq![]
    } else if dim == 1 {
        seq![("Loc"@, "loc"@)]
    } else if dim == 2 {
        seq![("LocX"@, "loc_x"@), ("LocY"@, "loc_y"@)]
    } else {
        seq![("LocX"@, "loc_x"@), ("LocY"@, "loc_y"@), ("LocZ"@, "loc_z"@)]
    }
}

/// The scale fields for `dim` dimensions.
pub open spec fn scale_names(dim: u8) -> Seq<(Seq<char>, Seq<char>)> {
    if dim == 0 {
        seq![]
    } else if dim == 1 {
        seq![("Scale"@, "scale"@)]
    } else if dim == 2 {
        seq![("ScaleX"@, "scale_x"@), ("ScaleY"@, "scale_y"@)]
    } else {
        seq![("ScaleX"@, "scale_x"@), ("ScaleY"@, "scale_y"@), ("ScaleZ"@, "scale_z"@)]
    }
}

/// The rotation fields for `dim` dimensions: a single angle, two axes, or
/// yaw, pitch and roll.
pub open spec fn rot_names(dim: u8) -> Seq<(Seq<char>, Seq<char>)> {
    if dim == 0 {
        seq![]
    } else if dim == 1 {
        seq![("Rot"@, "rot"@)]
    } else if dim == 2 {
        seq![("RotX"@, "rot_x"@), ("RotY"@, "rot_y"@)]
    } else {
        seq![("RotYaw"@, "rot_yaw"@), ("RotPitch"@, "rot_pitch"@), ("RotRoll"@, "rot_roll"@)]
    }
}

/// Whether `l` is `u` in lower case: an ASCII capital letter lowered, any
/// other character kept.
pub open spec fn lower_of(u: char, l: char) -> bool {
    if 'A' <= u <= 'Z' {
        (l as u32) == (u as u32) + 32
    } else {
        l == u
    }
}

/// Whether the names `f` of a transform field are made from the
/// transform's names `json_base` and `rust_base` as a transform of `dim`
/// dimensions makes them: with one dimension, the transform's names alone;
/// with more, the JSON name followed by an axis, and the record name
/// followed by `_` and the axis in lower case.
pub open spec fn named_from_base(f: (Seq<char>, Seq<char>), json_base: Seq<char>, rust_base: Seq<char>, dim: u8) -> bool {
    if dim == 1 {
        f == (json_base, rust_base)
    } else {
        let axis = f.0.skip(json_base.len() as int);
        &&& f.0.len() > json_base.len()
        &&& f.0.take(json_base.len() as int) == json_base
        &&& f.1.len() == rust_base.len() + 1 + axis.len()
        &&& f.1.take(rust_base.len() as int) == rust_base
        &&& f.1[rust_base.len() as int] == '_'
        &&& forall|k: int| 0 <= k < axis.len() ==> lower_of(#[trigger] axis[k], f.1[rust_base.len() + 1 + k])
    }
}

/// Whether the names of a transform's fields are made from its names, one
/// field for each dimension, no two alike.
pub open spec fn transform_named(names: Seq<(Seq<char>, Seq<char>)>, json_base: Seq<char>, rust_base: Seq<char>, dim: u8) -> bool {
    &&& names.len() == dim
    &&& forall|k: int| 0 <= k < names.len() ==> named_from_base(#[trigger] names[k], json_base, rust_base, dim)
    &&& forall|j: int, k: int| 0 <= j < k < names.len() ==> #[trigger] names[j].0 != #[trigger] names[k].0
}

/// A list of fields named from a transform's names with the axes `aj` (in
/// the JSON names) and `ar` (in the record names) is named as a transform
/// of two or three dimensions names it, when the axes start with distinct
/// letters and each
/// record axis is its JSON axis in lower case.
proof fn lemma_named_with_axes(
    names: Seq<(Seq<char>, Seq<char>)>,
    jb: Seq<char>,
    rb: Seq<char>,
    dim: u8,
    aj: Seq<Seq<char>>,
    ar: Seq<Seq<char>>,
)
    requires
        dim >= 2,
        names.len() == dim,
        aj.len() == dim,
        ar.len() == dim,
        forall|k: int| 0 <= k < dim ==> #[trigger] names[k] == (jb + aj[k], rb + seq!['_'] + ar[k]),
        forall|k: int| 0 <= k < dim ==> (#[trigger] aj[k]).len() > 0 && ar[k].len() == aj[k].len(),
        forall|k: int, i: int| 0 <= k < dim && 0 <= i < aj[k].len() ==> lower_of(#[trigger] aj[k][i], ar[k][i]),
        forall|j: int, k: int| 0 <= j < k < dim ==> (#[trigger] aj[j])[0] != (#[trigger] aj[k])[0],
    ensures
        transform_named(names, jb, rb, dim),
{
    assert forall|k: int| 0 <= k < names.len() implies named_from_base(#[trigger] names[k], jb, rb, dim) by {
        let f = names[k];
        assert(f.0.skip(jb.len() as int) =~= aj[k]);
        assert(f.0.take(jb.len() as int) =~= jb);
        assert(f.1.take(rb.len() as int) =~= rb);
        assert(f.1[rb.len() as int] == '_');
        assert forall|i: int| 0 <= i < aj[k].len() implies lower_of(#[trigger] aj[k][i], f.1[rb.len() + 1 + i]) by {
            assert(f.1[rb.len() + 1 + i] == ar[k][i]);
        }
    }
    assert forall|j: int, k: int| 0 <= j < k < names.len() implies #[trigger] names[j].0 != #[trigger] names[k].0 by {
        if names[j].0 == names[k].0 {
            assert(names[j].0.skip(jb.len() as int) =~= aj[j]);
            assert(names[k].0.skip(jb.len() as int) =~= aj[k]);
        }
    }
}

/// The fields of the location, scale and rotation transforms, for any
/// number of dimensions up to three: one field for each dimension, named
/// after the transform (`Loc`/`loc`, `Scale`/`scale`, `Rot`/`rot`); a
/// transform of one dimension takes the transform's names alone, with no
/// axis, and one of two or three dimensions adds a distinct axis to each.
pub proof fn lemma_transform_field_names(dim: u8)
    requires
        dim <= 3,
    ensures
        transform_named(loc_names(dim), "Loc"@, "loc"@, dim),
        transform_named(scale_names(dim), "Scale"@, "scale"@, dim),
        transform_named(rot_names(dim), "Rot"@, "rot"@, dim),
{
    reveal_strlit("Loc");
    reveal_strlit("loc");
    reveal_strlit("LocX");
    reveal_strlit("loc_x");
    reveal_strlit("LocY");
    reveal_strlit("loc_y");
    reveal_strlit("LocZ");
    reveal_strlit("loc_z");
    reveal_strlit("Scale");
    reveal_strlit("scale");
    reveal_strlit("ScaleX");
    reveal_strlit("scale_x");
    reveal_strlit("ScaleY");
    reveal_strlit("scale_y");
    reveal_strlit("ScaleZ");
    reveal_strlit("scale_z");
    reveal_strlit("Rot");
    reveal_strlit("rot");
    reveal_strlit("RotX");
    reveal_strlit("rot_x");
    reveal_strlit("RotY");
    reveal_strlit("rot_y");
    reveal_strlit("RotYaw");
    reveal_strlit("rot_yaw");
    reveal_strlit("RotPitch");
    reveal_strlit("rot_pitch");
    reveal_strlit("RotRoll");
    reveal_strlit("rot_roll");
    if dim == 0 {
        assert(loc_names(dim) =~= Seq::<(Seq<char>, Seq<char>)>::empty());
        assert(scale_names(dim) =~= Seq::<(Seq<char>, Seq<char>)>::empty());
        assert(rot_names(dim) =~= Seq::<(Seq<char>, Seq<char>)>::empty());
    } else if dim == 1 {
        assert(named_from_base(loc_names(dim)[0], "Loc"@, "loc"@, dim));
        assert(named_from_base(scale_names(dim)[0], "Scale"@, "scale"@, dim));
        assert(named_from_base(rot_names(dim)[0], "Rot"@, "rot"@, dim));
    } else {
        if dim == 2 {
            assert("LocX"@ =~= "Loc"@ + seq!['X']);
            assert("loc_x"@ =~= "loc"@ + seq!['_'] + seq!['x']);
            assert("LocY"@ =~= "Loc"@ + seq!['Y']);
            assert("loc_y"@ =~= "loc"@ + seq!['_'] + seq!['y']);
            let aj: Seq<Seq<char>> = seq![seq!['X'], seq!['Y']];
            let ar: Seq<Seq<char>> = seq![seq!['x'], seq!['y']];
            lemma_named_with_axes(loc_names(dim), "Loc"@, "loc"@, dim, aj, ar);
            assert("ScaleX"@ =~= "Scale"@ + seq!['X']);
            assert("scale_x"@ =~= "scale"@ + seq!['_'] + seq!['x']);
            assert("ScaleY"@ =~= "Scale"@ + seq!['Y']);
            assert("scale_y"@ =~= "scale"@ + seq!['_'] + seq!['y']);
            let aj: Seq<Seq<char>> = seq![seq!['X'], seq!['Y']];
            let ar: Seq<Seq<char>> = seq![seq!['x'], seq!['y']];
            lemma_named_with_axes(scale_names(dim), "Scale"@, "scale"@, dim, aj, ar);
            assert("RotX"@ =~= "Rot"@ + seq!['X']);
            assert("rot_x"@ =~= "rot"@ + seq!['_'] + seq!['x']);
            assert("RotY"@ =~= "Rot"@ + seq!['Y']);
            assert("rot_y"@ =~= "rot"@ + seq!['_'] + seq!['y']);
            let aj: Seq<Seq<char>> = seq![seq!['X'], seq!['Y']];
            let ar: Seq<Seq<char>> = seq![seq!['x'], seq!['y']];
            lemma_named_with_axes(rot_names(dim), "Rot"@, "rot"@, dim, aj, ar);
        }
        if dim == 3 {
            assert("LocX"@ =~= "Loc"@ + seq!['X']);
            assert("loc_x"@ =~= "loc"@ + seq!['_'] + seq!['x']);
            assert("LocY"@ =~= "Loc"@ + seq!['Y']);
            assert("loc_y"@ =~= "loc"@ + seq!['_'] + seq!['y']);
            assert("LocZ"@ =~= "Loc"@ + seq!['Z']);
            assert("loc_z"@ =~= "loc"@ + seq!['_'] + seq!['z']);
            let aj: Seq<Seq<char>> = seq![seq!['X'], seq!['Y'], seq!['Z']];
            let ar: Seq<Seq<char>> = seq![seq!['x'], seq!['y'], seq!['z']];
            lemma_named_with_axes(loc_names(dim), "Loc"@, "loc"@, dim, aj, ar);
            assert("ScaleX"@ =~= "Scale"@ + seq!['X']);
            assert("scale_x"@ =~= "scale"@ + seq!['_'] + seq!['x']);
            assert("ScaleY"@ =~= "Scale"@ + seq!['Y']);
            assert("scale_y"@ =~= "scale"@ + seq!['_'] + seq!['y']);
            assert("ScaleZ"@ =~= "Scale"@ + seq!['Z']);
            assert("scale_z"@ =~= "scale"@ + seq!['_'] + seq!['z']);
            let aj: Seq<Seq<char>> = seq![seq!['X'], seq!['Y'], seq!['Z']];
            let ar: Seq<Seq<char>> = seq![seq!['x'], seq!['y'], seq!['z']];
            lemma_named_with_axes(scale_names(dim), "Scale"@, "scale"@, dim, aj, ar);
            assert("RotYaw"@ =~= "Rot"@ + seq!['Y', 'a', 'w']);
            assert("rot_yaw"@ =~= "rot"@ + seq!['_'] + seq!['y', 'a', 'w']);
            assert("RotPitch"@ =~= "Rot"@ + seq!['P', 'i', 't', 'c', 'h']);
            assert("rot_pitch"@ =~= "rot"@ + seq!['_'] + seq!['p', 'i', 't', 'c', 'h']);
            assert("RotRoll"@ =~= "Rot"@ + seq!['R', 'o', 'l', 'l']);
            assert("rot_roll"@ =~= "rot"@ + seq!['_'] + seq!['r', 'o', 'l', 'l']);
            let aj: Seq<Seq<char>> = seq![seq!['Y', 'a', 'w'], seq!['P', 'i', 't', 'c', 'h'], seq!['R', 'o', 'l', 'l']];
            let ar: Seq<Seq<char>> = seq![seq!['y', 'a', 'w'], seq!['p', 'i', 't', 'c', 'h'], seq!['r', 'o', 'l', 'l']];
            lemma_named_with_axes(rot_names(dim), "Rot"@, "rot"@, dim, aj, ar);
        }
    }
}

/// The location fields for `dim` dimensions.
pub fn get_loc_fields(dim: u8) -> (res: Vec<FieldDef>)
    requires
        dim <= 3,
    ensures
        res@.map_values(|f: FieldDef| suffixes(f)) == loc_names(dim),
{
    let mut res: Vec<FieldDef> = Vec::new();
    if dim == 1 {
        res.push(FieldDef { json_suffix: "Loc", rust_suffix: "loc" });
    } else if dim >= 2 {
        res.push(FieldDef { json_suffix: "LocX", rust_suffix: "loc_x" });
        res.push(FieldDef { json_suffix: "LocY", rust_suffix: "loc_y" });
        if dim == 3 {
            res.push(FieldDef { json_suffix: "LocZ", rust_suffix: "loc_z" });
        }
    }
    assert(res@.map_values(|f: FieldDef| suffixes(f)) =~= loc_names(dim));
    res
}

/// The scale fields for `dim` dimensions.
pub fn get_scale_fields(dim: u8) -> (res: Vec<FieldDef>)
    requires
        dim <= 3,
    ensures
        res@.map_values(|f: FieldDef| suffixes(f)) == scale_names(dim),
{
    let mut res: Vec<FieldDef> = Vec::new();
    if dim == 1 {
        res.push(FieldDef { json_suffix: "Scale", rust_suffix: "scale" });
    } else if dim >= 2 {
        res.push(FieldDef { json_suffix: "ScaleX", rust_suffix: "scale_x" });
        res.push(FieldDef { json_suffix: "ScaleY", rust_suffix: "scale_y" });
        if dim == 3 {
            res.push(FieldDef { json_suffix: "ScaleZ", rust_suffix: "scale_z" });
        }
    }
    assert(res@.map_values(|f: FieldDef| suffixes(f)) =~= scale_names(dim));
    res
}

/// The rotation fields for `dim` dimensions.
pub fn get_rot_fields(dim: u8) -> (res: Vec<FieldDef>)
    requires
        dim <= 3,
    ensures
        res@.map_values(|f: FieldDef| suffixes(f)) == rot_names(dim),
{
    let mut res: Vec<FieldDef> = Vec::new();
    if dim == 1 {
        res.push(FieldDef { json_suffix: "Rot", rust_suffix: "rot" });
    } else if dim == 2 {
        res.push(FieldDef { json_suffix: "RotX", rust_suffix: "rot_x" });
        res.push(FieldDef { json_suffix: "RotY", rust_suffix: "rot_y" });
    } else if dim == 3 {
        res.push(FieldDef { json_suffix: "RotYaw", rust_suffix: "rot_yaw" });
        res.push(FieldDef { json_suffix: "RotPitch", rust_suffix: "rot_pitch" });
        res.push(FieldDef { json_suffix: "RotRoll", rust_suffix: "rot_roll" });
    }
    assert(res@.map_values(|f: FieldDef| suffixes(f)) =~= rot_names(dim));
    res
}

/// The arguments of the transform attribute: prefixes of the names in the
/// document and in the record, and how many dimensions the location, the
/// scale and the rotation have.
pub struct TransformArgs {
    pub pre_rename: Vec<u8>,
    pub pre_field: Vec<u8>,
    pub ty: String,
    pub loc: DimControl,
    pub scale: DimControl,
    pub rot: DimControl,
}

impl Default for TransformArgs {
    /// No prefixes, fields of type `f64`, and three dimensions each.
    fn default() -> (res: Self)
        ensures
            res.pre_rename@ == Seq::<u8>::empty(),
            res.pre_field@ == Seq::<u8>::empty(),
            res.ty@ == seq!['f', '6', '4'],
            res.loc.dims() == 3,
            res.scale.dims() == 3,
            res.rot.dims() == 3,
    {
        let f64_name = "f64";
        proof {
            reveal_strlit("f64");
        }
        TransformArgs {
            pre_rename: Vec::new(),
            pre_field: Vec::new(),
            ty: String::from_str(f64_name),
            loc: DimControl(3),
            scale: DimControl(3),
            rot: DimControl(3),
        }
    }
}

/// What the arguments of the transform attribute hold, as plain values.
pub struct ArgsView {
    pub pre_rename: Seq<u8>,
    pub pre_field: Seq<u8>,
    pub ty: Seq<char>,
    pub loc: u8,
    pub scale: u8,
    pub rot: u8,
}

impl TransformArgs {
    /// The arguments as plain values.
    pub open spec fn model(&self) -> ArgsView {
        ArgsView {
            pre_rename: self.pre_rename@,
            pre_field: self.pre_field@,
            ty: self.ty@,
            loc: self.loc.dims(),
            scale: self.scale.dims(),
            rot: self.rot.dims(),
        }
    }
}

/// The value given to an argument of the transform attribute: the value of
/// a string literal, the decimal digits of an integer literal, or some
/// other token, or none.
pub enum ArgValue {
    Text(String),
    Digits(Vec<u8>),
    Other,
}

/// An argument's value as plain values: the characters of a string, the
/// digits of an integer, or neither.
pub enum ArgLit {
    Text(Seq<char>),
    Digits(Seq<u8>),
    Other,
}

impl View for ArgValue {
    type V = ArgLit;

    open spec fn view(&self) -> ArgLit {
        match self {
            ArgValue::Text(t) => ArgLit::Text(t@),
            ArgValue::Digits(d) => ArgLit::Digits(d@),
            ArgValue::Other => ArgLit::Other,
        }
    }
}

/// Why an argument of the transform attribute is refused.
#[derive(Debug, Clone, Copy, PartialEq, Eq)]
pub enum ArgErrorKind {
    /// The key is none of `pre_rename`, `pre_field`, `ty`, `loc`, `scale`
    /// and `rot`.
    UnknownKey,
    /// The key takes a string literal.
    ExpectedString,
    /// The key takes an integer literal.
    ExpectedInteger,
    /// A prefix that, after an underscore, is no identifier.
    InvalidPrefix,
    /// A type that does not parse.
    InvalidType,
    /// An integer too large for a `u8`.
    IntegerOutOfRange,
    /// A number of dimensions above 3.
    DimOutOfRange,
}

/// A refused argument of the transform attribute: why, and the key of the
/// argument, which the messages name.
#[derive(Debug, Clone, PartialEq, Eq)]
pub struct ArgError {
    pub kind: ArgErrorKind,
    pub key: Vec<u8>,
}

/// The message for a refused argument with key `key`, for the reasons
/// whose wording the attribute gives; for the others the wording is that of
/// the Rust parser that read the literal, and there is none here.
pub open spec fn arg_error_message(kind: ArgErrorKind, key: Seq<u8>) -> Option<Seq<u8>> {
    match kind {
        ArgErrorKind::UnknownKey => Some(
            "unknown attribute `".spec_bytes() + key
                + "`, expected one of: pre_rename, pre_field, ty, loc, scale, rot".spec_bytes(),
        ),
        ArgErrorKind::InvalidPrefix => Some("`".spec_bytes() + key + "` must be a valid identifier prefix".spec_bytes()),
        ArgErrorKind::DimOutOfRange => Some("`".spec_bytes() + key + "` must be 0, 1, 2, or 3".spec_bytes()),
        _ => None,
    }
}

impl ArgError {
    /// The message that names the refused key, where the attribute words it.
    pub fn message(&self) -> (res: Option<Vec<u8>>)
        ensures
            match arg_error_message(self.kind, self.key@) {
                Some(m) => res is Some && res->Some_0@ == m,
                None => res is None,
            },
    {
        match self.kind {
            ArgErrorKind::UnknownKey => {
                let head = joined("unknown attribute `".as_bytes(), self.key.as_slice());
                Some(joined(head.as_slice(), "`, expected one of: pre_rename, pre_field, ty, loc, scale, rot".as_bytes()))
            },
            ArgErrorKind::InvalidPrefix => {
                let head = joined("`".as_bytes(), self.key.as_slice());
                Some(joined(head.as_slice(), "` must be a valid identifier prefix".as_bytes()))
            },
            ArgErrorKind::DimOutOfRange => {
                let head = joined("`".as_bytes(), self.key.as_slice());
                Some(joined(head.as_slice(), "` must be 0, 1, 2, or 3".as_bytes()))
            },
            _ => None,
        }
    }
}

/// Whether `text` parses as one Rust identifier, as the Rust parser of the
/// `syn` crate reads it.
pub uninterp spec fn parses_as_ident(text: Seq<char>) -> bool;

/// Whether `text` parses as a Rust type, as the Rust parser of the `syn`
/// crate reads it.
pub uninterp spec fn parses_as_type(text: Seq<char>) -> bool;

/// Calls `syn::parse_str::<syn::Ident>` on `text`.  Taken on trust: the
/// parse depends on the text alone, so its success is named
/// `parses_as_ident` of that text; nothing more is said.  The text is
/// lexed by `proc-macro2`, with the compiler's lexer inside a procedural
/// macro and with its own lexer elsewhere; the claim is that both accept
/// the same identifiers.
#[verifier::external_body]
fn text_is_identifier(text: &str) -> (res: bool)
    ensures
        res == parses_as_ident(text@),
{
    syn::parse_str::<syn::Ident>(text).is_ok()
}

/// Whether a prefix makes an identifier after an underscore, which is how
/// a prefix is checked.
fn prefix_is_identifier(prefix: &str) -> (res: bool)
    ensures
        res == parses_as_ident(seq!['_'] + prefix@),
{
    let underscore = "_";
    proof {
        reveal_strlit("_");
    }
    let mut text = String::from_str(underscore);
    text.append(prefix);
    assert(underscore@ =~= seq!['_']);
    assert(text@ =~= seq!['_'] + prefix@);
    let s = text.as_str();
    assert(s@ == text@);
    text_is_identifier(s)
}

/// Calls `syn::parse_str::<syn::Type>` on `text`.  Taken on trust: the
/// parse depends on the text alone, so its success is named
/// `parses_as_type` of that text; nothing more is said.  The text is lexed
/// by `proc-macro2` as for `text_is_identifier`; a type nested so deeply
/// that the recursive parser runs out of stack is left out of the claim,
/// as the exhaustion of a resource.
#[verifier::external_body]
fn text_is_type(text: &str) -> (res: bool)
    ensures
        res == parses_as_type(text@),
{
    syn::parse_str::<syn::Type>(text).is_ok()
}

/// The name of an argument, as the bytes of the key that names it.
pub open spec fn arg_name(name: Seq<char>) -> Seq<u8> {
    ascii(name)
}

/// The arguments after one more `key = value`, or why it is refused: a
/// prefix must be a string that is empty or makes an identifier after an
/// underscore, a type a string that parses as a type, and a number of
/// dimensions an integer from 0 to 3.
pub open spec fn arg_step(a: ArgsView, key: Seq<u8>, value: ArgLit) -> Result<ArgsView, ArgErrorKind> {
    if key == arg_name(seq!['p', 'r', 'e', '_', 'r', 'e', 'n', 'a', 'm', 'e']) || key == arg_name(
        seq!['p', 'r', 'e', '_', 'f', 'i', 'e', 'l', 'd'],
    ) {
        match value {
            ArgLit::Text(t) => if t.len() > 0 && !parses_as_ident(seq!['_'] + t) {
                Err(ArgErrorKind::InvalidPrefix)
            } else if key == arg_name(seq!['p', 'r', 'e', '_', 'r', 'e', 'n', 'a', 'm', 'e']) {
                Ok(ArgsView { pre_rename: vstd::utf8::encode_utf8(t), ..a })
            } else {
                Ok(ArgsView { pre_field: vstd::utf8::encode_utf8(t), ..a })
            },
            _ => Err(ArgErrorKind::ExpectedString),
        }
    } else if key == arg_name(seq!['t', 'y']) {
        match value {
            ArgLit::Text(t) => if parses_as_type(t) {
                Ok(ArgsView { ty: t, ..a })
            } else {
                Err(ArgErrorKind::InvalidType)
            },
            _ => Err(ArgErrorKind::ExpectedString),
        }
    } else if key == arg_name(seq!['l', 'o', 'c']) || key == arg_name(seq!['s', 'c', 'a', 'l', 'e']) || key
        == arg_name(seq!['r', 'o', 't']) {
        match value {
            ArgLit::Digits(d) => {
                let n = decimal_value(d);
                if n > 255 {
                    Err(ArgErrorKind::IntegerOutOfRange)
                } else if n > 3 {
                    Err(ArgErrorKind::DimOutOfRange)
                } else if key == arg_name(seq!['l', 'o', 'c']) {
                    Ok(ArgsView { loc: n as u8, ..a })
                } else if key == arg_name(seq!['s', 'c', 'a', 'l', 'e']) {
                    Ok(ArgsView { scale: n as u8, ..a })
                } else {
                    Ok(ArgsView { rot: n as u8, ..a })
                }
            },
            _ => Err(ArgErrorKind::ExpectedInteger),
        }
    } else {
        Err(ArgErrorKind::UnknownKey)
    }
}

/// The arguments after `items` in turn, or the first refusal with the key
/// of the argument refused.
pub open spec fn args_after(a: ArgsView, items: Seq<(Vec<u8>, ArgValue)>) -> Result<ArgsView, (ArgErrorKind, Seq<u8>)>
    decreases items.len(),
{
    if items.len() == 0 {
        Ok(a)
    } else {
        match arg_step(a, items[0].0@, items[0].1@) {
            Ok(b) => args_after(b, items.drop_first()),
            Err(e) => Err((e, items[0].0@)),
        }
    }
}

/// A later value for a key replaces an earlier one: when both are taken,
/// the arguments are as if only the later had been given.
pub proof fn lemma_later_value_wins(a: ArgsView, key: Seq<u8>, first: ArgLit, second: ArgLit)
    requires
        arg_step(a, key, first) is Ok,
        arg_step(arg_step(a, key, first)->Ok_0, key, second) is Ok,
    ensures
        arg_step(arg_step(a, key, first)->Ok_0, key, second) == arg_step(a, key, second),
{
}

/// Whether every integer given in `items` is written with digits only.
pub open spec fn digits_only(items: Seq<(Vec<u8>, ArgValue)>) -> bool {
    forall|k: int|
        0 <= k < items.len() ==> ((#[trigger] items[k]).1 matches ArgValue::Digits(d) ==> all_digits(d@))
}

/// Whether `a` and `b` hold the same bytes.
fn same_bytes(a: &[u8], b: &[u8]) -> (res: bool)
    ensures
        res == (a@ == b@),
{
    if a.len() != b.len() {
        return false;
    }
    let mut k: usize = 0;
    while k < a.len()
        invariant
            a@.len() == b@.len(),
            k <= a@.len(),
            forall|j: int| 0 <= j < k ==> a@[j] == b@[j],
        decreases a@.len() - k,
    {
        if a[k] != b[k] {
            return false;
        }
        k += 1;
    }
    assert(a@ =~= b@);
    true
}

/// The refusal of kind `kind` of the argument named `key`.
fn refused(key: &[u8], kind: ArgErrorKind) -> (res: ArgError)
    ensures
        res.kind == kind,
        res.key@ == key@,
{
    let mut copy: Vec<u8> = Vec::new();
    let mut k: usize = 0;
    while k < key.len()
        invariant
            k <= key@.len(),
            copy@ == key@.take(k as int),
        decreases key@.len() - k,
    {
        copy.push(key[k]);
        k += 1;
        assert(copy@ =~= key@.take(k as int));
    }
    assert(key@.take(k as int) =~= key@);
    ArgError { kind, key: copy }
}

impl TransformArgs {
    /// Takes one `key = value` argument of the transform attribute, as the
    /// Rust parser hands over its key and literal: refused, and the
    /// arguments left as they were, when the key is unknown, the literal of
    /// the wrong kind, or its value out of bounds.
    pub fn apply_arg(&mut self, key: &[u8], value: &ArgValue) -> (res: Result<(), ArgError>)
        requires
            value matches ArgValue::Digits(d) ==> all_digits(d@),
        ensures
            match arg_step(old(self).model(), key@, value@) {
                Ok(m) => res is Ok && final(self).model() == m,
                Err(k) => res matches Err(e) && e.kind == k && e.key@ == key@ && final(self).model() == old(
                    self,
                ).model(),
            },
    {
        let pre_rename = [0x70u8, 0x72u8, 0x65u8, 0x5Fu8, 0x72u8, 0x65u8, 0x6Eu8, 0x61u8, 0x6Du8, 0x65u8];
        let pre_field = [0x70u8, 0x72u8, 0x65u8, 0x5Fu8, 0x66u8, 0x69u8, 0x65u8, 0x6Cu8, 0x64u8];
        let ty = [0x74u8, 0x79u8];
        let loc = [0x6Cu8, 0x6Fu8, 0x63u8];
        let scale = [0x73u8, 0x63u8, 0x61u8, 0x6Cu8, 0x65u8];
        let rot = [0x72u8, 0x6Fu8, 0x74u8];
        assert(pre_rename@ =~= arg_name(seq!['p', 'r', 'e', '_', 'r', 'e', 'n', 'a', 'm', 'e']));
        assert(pre_field@ =~= arg_name(seq!['p', 'r', 'e', '_', 'f', 'i', 'e', 'l', 'd']));
        assert(ty@ =~= arg_name(seq!['t', 'y']));
        assert(loc@ =~= arg_name(seq!['l', 'o', 'c']));
        assert(scale@ =~= arg_name(seq!['s', 'c', 'a', 'l', 'e']));
        assert(rot@ =~= arg_name(seq!['r', 'o', 't']));
        let is_rename = same_bytes(key, &pre_rename);
        if is_rename || same_bytes(key, &pre_field) {
            match value {
                ArgValue::Text(t) => {
                    if t.as_str().unicode_len() > 0 && !prefix_is_identifier(t.as_str()) {
                        return Err(refused(key, ArgErrorKind::InvalidPrefix));
                    }
                    let bytes = t.as_str().as_bytes_vec();
                    if is_rename {
                        self.pre_rename = bytes;
                    } else {
                        self.pre_field = bytes;
                    }
                    Ok(())
                },
                _ => Err(refused(key, ArgErrorKind::ExpectedString)),
            }
        } else if same_bytes(key, &ty) {
            match value {
                ArgValue::Text(t) => {
                    if !text_is_type(t.as_str()) {
                        return Err(refused(key, ArgErrorKind::InvalidType));
                    }
                    self.ty = String::from_str(t.as_str());
                    Ok(())
                },
                _ => Err(refused(key, ArgErrorKind::ExpectedString)),
            }
        } else if same_bytes(key, &loc) || same_bytes(key, &scale) || same_bytes(key, &rot) {
            match value {
                ArgValue::Digits(d) => {
                    let n = match digits_value(d) {
                        Some(n) => n,
                        None => {
                            return Err(refused(key, ArgErrorKind::IntegerOutOfRange));
                        },
                    };
                    if n > 255 {
                        return Err(refused(key, ArgErrorKind::IntegerOutOfRange));
                    }
                    let ctrl = match DimControl::new(n as u8) {
                        Some(c) => c,
                        None => {
                            return Err(refused(key, ArgErrorKind::DimOutOfRange));
                        },
                    };
                    if same_bytes(key, &loc) {
                        self.loc = ctrl;
                    } else if same_bytes(key, &scale) {
                        self.scale = ctrl;
                    } else {
                        self.rot = ctrl;
                    }
                    Ok(())
                },
                _ => Err(refused(key, ArgErrorKind::ExpectedInteger)),
            }
        } else {
            Err(refused(key, ArgErrorKind::UnknownKey))
        }
    }

    /// The arguments of the transform attribute from its `key = value`
    /// items in order, starting from the defaults: the first refusal, if
    /// any.
    pub fn parse_args(items: &Vec<(Vec<u8>, ArgValue)>) -> (res: Result<TransformArgs, ArgError>)
        requires
            digits_only(items@),
        ensures
            match args_after(TransformArgs::default_model(), items@) {
                Ok(m) => res matches Ok(a) && a.model() == m,
                Err((k, key)) => res matches Err(f) && f.kind == k && f.key@ == key,
            },
    {
        let mut args = TransformArgs::default();
        proof {
            assert(args.model() == TransformArgs::default_model());
        }
        let mut k: usize = 0;
        assert(items@.skip(0) =~= items@);
        while k < items.len()
            invariant
                k <= items@.len(),
                digits_only(items@),
                args_after(TransformArgs::default_model(), items@) == args_after(args.model(), items@.skip(k as int)),
            decreases items@.len() - k,
        {
            let item = &items[k];
            assert(items@.skip(k as int)[0] == items@[k as int]);
            assert(items@.skip(k as int).drop_first() =~= items@.skip(k + 1));
            let r = args.apply_arg(item.0.as_slice(), &item.1);
            match r {
                Ok(()) => {},
                Err(e) => {
                    return Err(e);
                },
            }
            k += 1;
        }
        assert(items@.skip(k as int) =~= Seq::<(Vec<u8>, ArgValue)>::empty());
        Ok(args)
    }

    /// The defaults, as plain values.
    pub open spec fn default_model() -> ArgsView {
        ArgsView {
            pre_rename: Seq::empty(),
            pre_field: Seq::empty(),
            ty: seq!['f', '6', '4'],
            loc: 3,
            scale: 3,
            rot: 3,
        }
    }
}

/// A field that the transform attribute adds to a record: its name in the
/// document and in the record, and its type.
pub struct TransformField {
    pub json_name: Vec<u8>,
    pub field_name: Vec<u8>,
    pub ty: String,
}

/// The prefix of the added fields' names in the record: the given prefix
/// and an underscore, or nothing.
pub open spec fn field_prefix(pre_field: Seq<u8>) -> Seq<u8> {
    if pre_field.len() == 0 {
        Seq::empty()
    } else {
        pre_field.push(0x5Fu8)
    }
}

/// The names of the fields made from `defs`, with the prefixes.
pub open spec fn prefixed(defs: Seq<(Seq<char>, Seq<char>)>, pre_rename: Seq<u8>, pre_field: Seq<u8>) -> Seq<(Seq<u8>, Seq<u8>)> {
    defs.map_values(|d: (Seq<char>, Seq<char>)| (pre_rename + vstd::utf8::encode_utf8(d.0), field_prefix(pre_field) + vstd::utf8::encode_utf8(d.1)))
}

/// The names of all the fields that the transform attribute adds:
/// location, then scale, then rotation.
pub open spec fn transform_names(pre_rename: Seq<u8>, pre_field: Seq<u8>, loc: u8, scale: u8, rot: u8) -> Seq<(Seq<u8>, Seq<u8>)> {
    prefixed(loc_names(loc), pre_rename, pre_field) + prefixed(scale_names(scale), pre_rename, pre_field)
        + prefixed(rot_names(rot), pre_rename, pre_field)
}

/// The bytes of `a` followed by those of `b`.
fn joined(a: &[u8], b: &[u8]) -> (res: Vec<u8>)
    ensures
        res@ == a@ + b@,
{
    let mut res: Vec<u8> = Vec::new();
    let mut k: usize = 0;
    while k < a.len()
        invariant
            k <= a@.len(),
            res@ == a@.take(k as int),
        decreases a@.len() - k,
    {
        res.push(a[k]);
        k += 1;
        assert(res@ =~= a@.take(k as int));
    }
    let mut k: usize = 0;
    assert(a@.take(a@.len() as int) =~= a@);
    while k < b.len()
        invariant
            k <= b@.len(),
            res@ == a@ + b@.take(k as int),
        decreases b@.len() - k,
    {
        res.push(b[k]);
        k += 1;
        assert(res@ =~= a@ + b@.take(k as int));
    }
    assert(b@.take(b@.len() as int) =~= b@);
    res
}

/// Appends to `out` the fields made from `defs`, with the prefixes.
fn push_fields(out: &mut Vec<TransformField>, defs: &Vec<FieldDef>, pre_rename: &[u8], prefix: &[u8], ty: &String)
    ensures
        final(out)@.map_values(|f: TransformField| (f.json_name@, f.field_name@)) == old(out)@.map_values(
            |f: TransformField| (f.json_name@, f.field_name@),
        ) + defs@.map_values(|d: FieldDef| suffixes(d)).map_values(
            |d: (Seq<char>, Seq<char>)| (pre_rename@ + vstd::utf8::encode_utf8(d.0), prefix@ + vstd::utf8::encode_utf8(d.1)),
        ),
        forall|k: int| 0 <= k < old(out)@.len() ==> final(out)@[k] == old(out)@[k],
        forall|k: int| old(out)@.len() <= k < final(out)@.len() ==> (#[trigger] final(out)@[k]).ty@ == ty@,
{
    let ghost start = old(out)@.map_values(|f: TransformField| (f.json_name@, f.field_name@));
    let ghost want = defs@.map_values(|d: FieldDef| suffixes(d)).map_values(
        |d: (Seq<char>, Seq<char>)| (pre_rename@ + vstd::utf8::encode_utf8(d.0), prefix@ + vstd::utf8::encode_utf8(d.1)),
    );
    let mut k: usize = 0;
    while k < defs.len()
        invariant
            k <= defs@.len(),
            want.len() == defs@.len(),
            want == defs@.map_values(|d: FieldDef| suffixes(d)).map_values(
                |d: (Seq<char>, Seq<char>)| (pre_rename@ + vstd::utf8::encode_utf8(d.0), prefix@ + vstd::utf8::encode_utf8(d.1)),
            ),
            start == old(out)@.map_values(|f: TransformField| (f.json_name@, f.field_name@)),
            out@.map_values(|f: TransformField| (f.json_name@, f.field_name@)) == start + want.take(k as int),
            out@.len() == old(out)@.len() + k,
            forall|j: int| 0 <= j < old(out)@.len() ==> out@[j] == old(out)@[j],
            forall|j: int| old(out)@.len() <= j < out@.len() ==> (#[trigger] out@[j]).ty@ == ty@,
        decreases defs@.len() - k,
    {
        let d = &defs[k];
        let json_name = joined(pre_rename, d.json_suffix.as_bytes());
        let field_name = joined(prefix, d.rust_suffix.as_bytes());
        let ghost before = out@;
        out.push(TransformField { json_name, field_name, ty: ty.clone() });
        proof {
            assert(want[k as int] == (pre_rename@ + vstd::utf8::encode_utf8(d.json_suffix@), prefix@ + vstd::utf8::encode_utf8(d.rust_suffix@)));
            assert(out@.map_values(|f: TransformField| (f.json_name@, f.field_name@)) =~= before.map_values(
                |f: TransformField| (f.json_name@, f.field_name@),
            ).push(want[k as int]));
            assert(want.take(k + 1) =~= want.take(k as int).push(want[k as int]));
        }
        k += 1;
    }
    assert(want.take(k as int) =~= want);
}

/// The fields that the transform attribute adds to a record, named with
/// its prefixes: the location, then the scale, then the rotation.
pub fn transform_fields(args: &TransformArgs) -> (res: Vec<TransformField>)
    ensures
        res@.map_values(|f: TransformField| (f.json_name@, f.field_name@)) == transform_names(
            args.pre_rename@,
            args.pre_field@,
            args.loc.dims(),
            args.scale.dims(),
            args.rot.dims(),
        ),
        forall|k: int| 0 <= k < res@.len() ==> (#[trigger] res@[k]).ty@ == args.ty@,
{
    let prefix: Vec<u8> = if args.pre_field.len() == 0 {
        Vec::new()
    } else {
        joined(args.pre_field.as_slice(), &[0x5Fu8])
    };
    proof {
        if args.pre_field@.len() == 0 {
            assert(prefix@ =~= field_prefix(args.pre_field@));
        } else {
            assert(prefix@ =~= field_prefix(args.pre_field@));
        }
    }
    let mut res: Vec<TransformField> = Vec::new();
    let ghost empty = res@.map_values(|f: TransformField| (f.json_name@, f.field_name@));
    assert(empty =~= Seq::<(Seq<u8>, Seq<u8>)>::empty());
    let loc = get_loc_fields(args.loc.val());
    push_fields(&mut res, &loc, args.pre_rename.as_slice(), prefix.as_slice(), &args.ty);
    let scale = get_scale_fields(args.scale.val());
    push_fields(&mut res, &scale, args.pre_rename.as_slice(), prefix.as_slice(), &args.ty);
    let rot = get_rot_fields(args.rot.val());
    push_fields(&mut res, &rot, args.pre_rename.as_slice(), prefix.as_slice(), &args.ty);
    proof {
        let n = transform_names(args.pre_rename@, args.pre_field@, args.loc.dims(), args.scale.dims(), args.rot.dims());
        assert(res@.map_values(|f: TransformField| (f.json_name@, f.field_name@)) =~= n);
    }
    res
}


/// What the transform attribute is put on: a record with named fields
/// (their names, in order), a record without fields, a tuple record, or an
/// item that is no record.
pub enum RecordShape {
    Named(Vec<Vec<u8>>),
    Unit,
    Tuple,
    NotARecord,
}

/// Why the transform attribute cannot rewrite an item.
#[derive(Debug, Clone, Copy, PartialEq, Eq)]
pub enum ShapeError {
    NotARecord,
    TupleRecord,
}

impl ShapeError {
    /// What the attribute says of the item it refuses.
    pub fn message(&self) -> (res: &'static str)
        ensures
            res@ == (match *self {
                ShapeError::NotARecord => "`with_transform_fields` can only be applied to structs"@,
                ShapeError::TupleRecord => "tuple structs are not supported"@,
            }),
    {
        match self {
            ShapeError::NotARecord => "`with_transform_fields` can only be applied to structs",
            ShapeError::TupleRecord => "tuple structs are not supported",
        }
    }
}

/// The names, in the record, of the fields that the transform attribute
/// adds.
pub open spec fn added_names(args: ArgsView) -> Seq<Seq<u8>> {
    transform_names(args.pre_rename, args.pre_field, args.loc, args.scale, args.rot).map_values(
        |n: (Seq<u8>, Seq<u8>)| n.1,
    )
}

/// The names of the fields of the record that the transform attribute
/// makes of a record of the shape given: the added fields come first and
/// the record's own fields follow, as they stood.  A tuple record and an
/// item that is no record are refused.
pub fn record_fields(shape: RecordShape, args: &TransformArgs) -> (res: Result<Vec<Vec<u8>>, ShapeError>)
    ensures
        match shape {
            RecordShape::NotARecord => res == Err::<Vec<Vec<u8>>, ShapeError>(ShapeError::NotARecord),
            RecordShape::Tuple => res == Err::<Vec<Vec<u8>>, ShapeError>(ShapeError::TupleRecord),
            RecordShape::Unit => res is Ok && res->Ok_0@.map_values(|v: Vec<u8>| v@) == added_names(args.model()),
            RecordShape::Named(own) => res is Ok && res->Ok_0@.map_values(|v: Vec<u8>| v@) == added_names(
                args.model(),
            ) + own@.map_values(|v: Vec<u8>| v@),
        },
{
    let mut own: Vec<Vec<u8>> = match shape {
        RecordShape::NotARecord => {
            return Err(ShapeError::NotARecord);
        },
        RecordShape::Tuple => {
            return Err(ShapeError::TupleRecord);
        },
        RecordShape::Unit => Vec::new(),
        RecordShape::Named(own) => own,
    };
    let ghost own0 = own@.map_values(|v: Vec<u8>| v@);
    let added = transform_fields(args);
    let ghost want = added_names(args.model());
    proof {
        assert(want =~= added@.map_values(|f: TransformField| (f.json_name@, f.field_name@)).map_values(
            |n: (Seq<u8>, Seq<u8>)| n.1,
        ));
    }
    let mut res: Vec<Vec<u8>> = Vec::new();
    let mut k: usize = 0;
    while k < added.len()
        invariant
            k <= added@.len(),
            want.len() == added@.len(),
            forall|j: int| 0 <= j < added@.len() ==> want[j] == (#[trigger] added@[j]).field_name@,
            res@.map_values(|v: Vec<u8>| v@) == want.take(k as int),
        decreases added@.len() - k,
    {
        let name = joined(added[k].field_name.as_slice(), &[]);
        let ghost before = res@;
        res.push(name);
        proof {
            assert(res@.map_values(|v: Vec<u8>| v@) =~= before.map_values(|v: Vec<u8>| v@).push(want[k as int]));
            assert(want.take(k + 1) =~= want.take(k as int).push(want[k as int]));
        }
        k += 1;
    }
    let ghost front = res@;
    res.append(&mut own);
    proof {
        assert(want.take(k as int) =~= want);
        assert(res@.map_values(|v: Vec<u8>| v@) =~= front.map_values(|v: Vec<u8>| v@) + own0);
    }
    Ok(res)
}

} // verus!
