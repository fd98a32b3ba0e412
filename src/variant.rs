use vstd::prelude::*;
use crate::font::FontFace;
use crate::referent::Ref;

verus! {

/// A property value: one of a closed set of kinds.
#[derive(Clone, Debug, PartialEq)]
pub enum Variant {
    Bool(bool),
    Int32(i32),
    Int64(i64),
    String(String),
    BinaryString(Vec<u8>),
    Font(FontFace),
    Enum(u32),
    Ref(Ref),
}

} // verus!
