//! Horizontal and vertical text alignment.
use vstd::prelude::*;

verus! {

/// Horizontal alignment of wrapped text inside its column.
#[derive(Clone, Copy, Debug, PartialEq, Eq, Structural)]
pub enum TextHAlign {
    Left,
    Center,
    Right,
}

impl Default for TextHAlign {
    fn default() -> (a: Self)
        ensures
            a == TextHAlign::Left,
    {
        TextHAlign::Left
    }
}

/// Vertical alignment of a wrapped text block inside its padded rect.
#[derive(Clone, Copy, Debug, PartialEq, Eq, Structural)]
pub enum TextVAlign {
    Top,
    Center,
    Bottom,
}

impl Default for TextVAlign {
    fn default() -> (a: Self)
        ensures
            a == TextVAlign::Top,
    {
        TextVAlign::Top
    }
}

} // verus!
