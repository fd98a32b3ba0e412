use vstd::prelude::*;

verus! {

/// How heavy the strokes of a font are.
#[derive(Clone, Copy, Debug, PartialEq, Eq, Hash, Structural)]
pub enum FontWeight {
    Thin,
    ExtraLight,
    Light,
    Regular,
    Medium,
    SemiBold,
    Bold,
    ExtraBold,
    Heavy,
}

pub open spec fn weight_value(w: FontWeight) -> u32 {
    match w {
        FontWeight::Thin => 100,
        FontWeight::ExtraLight => 200,
        FontWeight::Light => 300,
        FontWeight::Regular => 400,
        FontWeight::Medium => 500,
        FontWeight::SemiBold => 600,
        FontWeight::Bold => 700,
        FontWeight::ExtraBold => 800,
        FontWeight::Heavy => 900,
    }
}

impl FontWeight {
    /// The numeric weight, from 100 (thin) to 900 (heavy).
    pub fn value(&self) -> (r: u32)
        ensures
            r == weight_value(*self),
    {
        match self {
            FontWeight::Thin => 100,
            FontWeight::ExtraLight => 200,
            FontWeight::Light => 300,
            FontWeight::Regular => 400,
            FontWeight::Medium => 500,
            FontWeight::SemiBold => 600,
            FontWeight::Bold => 700,
            FontWeight::ExtraBold => 800,
            FontWeight::Heavy => 900,
        }
    }
}

#[derive(Clone, Copy, Debug, PartialEq, Eq, Hash, Structural)]
pub enum FontStyle {
    Normal,
    Italic,
}

/// A typed font descriptor: a family, a weight, a style and the face
/// that was last resolved for it.
#[derive(Clone, Debug, PartialEq)]
pub struct FontFace {
    pub family: String,
    pub weight: FontWeight,
    pub style: FontStyle,
    pub cached_face_id: String,
}

impl FontFace {
    pub fn new(family: String, weight: FontWeight, style: FontStyle, cached_face_id: String) -> (r: Self)
        ensures
            r.family@ == family@,
            r.weight == weight,
            r.style == style,
            r.cached_face_id@ == cached_face_id@,
    {
        FontFace { family, weight, style, cached_face_id }
    }
}

} // verus!
