use vstd::prelude::*;

pub mod error;
pub mod text;
pub mod grammar;
pub mod de;
pub mod ser;
pub mod laws;
pub mod document;
pub mod pretty;
pub mod ext_type;
pub mod structs;
pub mod fields;
pub mod attr;

verus! {

} // verus!
