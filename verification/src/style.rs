//! Inline character styles and colours.
use vstd::prelude::*;

verus! {

/// A colour held as the IEEE-754 bit patterns of its four `f32` channels
/// (red, green, blue, alpha). Two colours are the same exactly when all four
/// bit patterns agree.
#[derive(Clone, Copy, Debug, PartialEq, Eq, Structural)]
pub struct Rgba {
    pub r: u32,
    pub g: u32,
    pub b: u32,
    pub a: u32,
}

/// The mathematical value of an [`InlineStyle`].
pub struct StyleView {
    pub bold: bool,
    pub italic: bool,
    pub underline: bool,
    pub strikethrough: bool,
    pub font_family: Option<Seq<char>>,
    pub font_size: Option<u64>,
    pub text_color: Option<Rgba>,
    pub highlight: Option<Rgba>,
}

/// Per-run inline character formatting.
///
/// Every `Option` field means "inherit the widget default" when `None`.
/// `font_size` holds the bit pattern of the point size (an `f64`).
#[derive(Debug)]
pub struct InlineStyle {
    pub bold: bool,
    pub italic: bool,
    pub underline: bool,
    pub strikethrough: bool,
    pub font_family: Option<String>,
    pub font_size: Option<u64>,
    pub text_color: Option<Rgba>,
    pub highlight: Option<Rgba>,
}

pub open spec fn family_view(f: Option<String>) -> Option<Seq<char>> {
    match f {
        Some(s) => Some(s@),
        None => None,
    }
}

impl View for InlineStyle {
    type V = StyleView;

    open spec fn view(&self) -> StyleView {
        StyleView {
            bold: self.bold,
            italic: self.italic,
            underline: self.underline,
            strikethrough: self.strikethrough,
            font_family: family_view(self.font_family),
            font_size: self.font_size,
            text_color: self.text_color,
            highlight: self.highlight,
        }
    }
}

/// The fully inherited style: no attribute set.
pub open spec fn default_style() -> StyleView {
    StyleView {
        bold: false,
        italic: false,
        underline: false,
        strikethrough: false,
        font_family: None,
        font_size: None,
        text_color: None,
        highlight: None,
    }
}

fn family_copy(f: &Option<String>) -> (r: Option<String>)
    ensures
        family_view(r) == family_view(*f),
{
    match f {
        Some(s) => Some(s.clone()),
        None => None,
    }
}

fn family_same(a: &Option<String>, b: &Option<String>) -> (r: bool)
    ensures
        r == (family_view(*a) == family_view(*b)),
{
    match (a, b) {
        (Some(x), Some(y)) => *x == *y,
        (None, None) => true,
        _ => false,
    }
}

impl InlineStyle {
    /// The fully inherited style.
    pub fn plain() -> (s: Self)
        ensures
            s@ == default_style(),
    {
        InlineStyle {
            bold: false,
            italic: false,
            underline: false,
            strikethrough: false,
            font_family: None,
            font_size: None,
            text_color: None,
            highlight: None,
        }
    }

    /// A copy of this style.
    pub fn duplicate(&self) -> (s: Self)
        ensures
            s@ == self@,
    {
        InlineStyle {
            bold: self.bold,
            italic: self.italic,
            underline: self.underline,
            strikethrough: self.strikethrough,
            font_family: family_copy(&self.font_family),
            font_size: self.font_size,
            text_color: self.text_color,
            highlight: self.highlight,
        }
    }

    /// Whether the two styles agree on every attribute.
    pub fn same(&self, other: &Self) -> (r: bool)
        ensures
            r == (self@ == other@),
    {
        self.bold == other.bold && self.italic == other.italic && self.underline
            == other.underline && self.strikethrough == other.strikethrough && family_same(
            &self.font_family,
            &other.font_family,
        ) && self.font_size == other.font_size && self.text_color == other.text_color
            && self.highlight == other.highlight
    }
}

impl Default for InlineStyle {
    fn default() -> (s: Self)
        ensures
            s@ == default_style(),
    {
        InlineStyle::plain()
    }
}

impl Clone for InlineStyle {
    fn clone(&self) -> (s: Self)
        ensures
            s@ == self@,
    {
        self.duplicate()
    }
}

impl PartialEq for InlineStyle {
    fn eq(&self, other: &Self) -> (r: bool) {
        self.same(other)
    }
}

impl vstd::std_specs::cmp::PartialEqSpecImpl for InlineStyle {
    open spec fn obeys_eq_spec() -> bool {
        true
    }

    open spec fn eq_spec(&self, other: &Self) -> bool {
        self@ == other@
    }
}

} // verus!
