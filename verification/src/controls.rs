//! Small control policies: scroll-bar kinds, colours and when a bar is
//! painted, slider orientation and clamping, spinner sizes and animation
//! steps, and which font variants a toggle may offer.
use vstd::prelude::*;

verus! {

/// How a scroll bar is shown.
#[derive(Clone, Copy, Debug, PartialEq, Eq, Structural)]
pub enum ScrollBarVisibility {
    /// Shown whenever the content overflows, hovered or not.
    AlwaysVisible,
    /// Shown when the content overflows (a floating bar only on hover).
    VisibleWhenNeeded,
    /// Never shown; wheel and drag still scroll.
    AlwaysHidden,
}

impl Default for ScrollBarVisibility {
    fn default() -> (v: Self)
        ensures
            v == ScrollBarVisibility::VisibleWhenNeeded,
    {
        ScrollBarVisibility::VisibleWhenNeeded
    }
}

/// Whether a scroll bar reserves layout space or floats over the content.
#[derive(Clone, Copy, Debug, PartialEq, Eq, Structural)]
pub enum ScrollBarKind {
    Solid,
    Floating,
}

impl Default for ScrollBarKind {
    fn default() -> (k: Self)
        ensures
            k == ScrollBarKind::Floating,
    {
        ScrollBarKind::Floating
    }
}

/// Which pair of colours a scroll bar's track and thumb use.
#[derive(Clone, Copy, Debug, PartialEq, Eq, Structural)]
pub enum ScrollBarColor {
    /// A neutral track with a slightly brighter thumb.
    Background,
    /// A transparent track with an accent-tinted thumb.
    Foreground,
}

impl Default for ScrollBarColor {
    fn default() -> (c: Self)
        ensures
            c == ScrollBarColor::Background,
    {
        ScrollBarColor::Background
    }
}

/// Orientation of a slider.
#[derive(Clone, Copy, Debug, PartialEq, Eq, Structural, Hash)]
pub enum SliderOrientation {
    Horizontal,
    Vertical,
}

/// When a slider clamps its value to its range.
#[derive(Clone, Copy, Debug, PartialEq, Eq, Structural, Hash)]
pub enum SliderClamping {
    /// Never: the value may sit outside the range.
    Never,
    /// Only values produced by interacting with the slider.
    Edits,
    /// Always, including a value that was already out of range.
    Always,
}

impl Default for SliderClamping {
    fn default() -> (c: Self)
        ensures
            c == SliderClamping::Always,
    {
        SliderClamping::Always
    }
}

/// Size presets of an activity spinner.
#[derive(Clone, Copy, Debug, PartialEq, Eq, Structural)]
pub enum SpinnerSize {
    /// Fits on a line of text.
    Small,
    /// The regular size.
    Regular,
}

impl Default for SpinnerSize {
    fn default() -> (s: Self)
        ensures
            s == SpinnerSize::Regular,
    {
        SpinnerSize::Regular
    }
}

/// A face variant a font family may or may not ship.
#[derive(Clone, Copy, Debug, PartialEq, Eq, Structural)]
pub enum Variant {
    Bold,
    Italic,
}

/// Whether a family-gated toggle (Bold / Italic) is enabled for the common
/// font family of a selection: for one explicit family, whether that family
/// ships the variant (`ships`, the answer of the family check); for the
/// inherited default family or a mixed selection, always.
pub fn variant_enabled(family: &Option<Option<String>>, ships: bool) -> (b: bool)
    ensures
        b == match family {
            Some(Some(_)) => ships,
            _ => true,
        },
{
    match family {
        Some(Some(_)) => ships,
        _ => true,
    }
}

/// Whether a scroll bar is painted. It never is when the content fits
/// (`overflows` false). Otherwise: never when hidden, always when always
/// visible, and when shown as needed, a solid bar always and a floating bar
/// only while the bar is hovered or dragged.
pub fn should_paint(
    overflows: bool,
    kind: ScrollBarKind,
    visibility: ScrollBarVisibility,
    hovered_bar: bool,
    dragging: bool,
) -> (b: bool)
    ensures
        b == (overflows && match visibility {
            ScrollBarVisibility::AlwaysHidden => false,
            ScrollBarVisibility::AlwaysVisible => true,
            ScrollBarVisibility::VisibleWhenNeeded => kind == ScrollBarKind::Solid || hovered_bar
                || dragging,
        }),
{
    if !overflows {
        return false;
    }
    let floating = kind == ScrollBarKind::Floating;
    match visibility {
        ScrollBarVisibility::AlwaysHidden => false,
        ScrollBarVisibility::AlwaysVisible => true,
        ScrollBarVisibility::VisibleWhenNeeded => !floating || hovered_bar || dragging,
    }
}

/// Number of spokes around a spinner's ring.
pub const SPOKES: usize = 12;

/// Milliseconds the head spoke stays on one spoke.
pub const STEP_MS: u64 = 80;

/// The head spoke of a spinner `elapsed_ms` milliseconds into its animation:
/// one spoke per step, wrapping after a full revolution.
pub fn step_for(elapsed_ms: u128) -> (head: usize)
    ensures
        head == (elapsed_ms / (STEP_MS as u128)) % (SPOKES as u128),
        head < SPOKES,
{
    let steps: u128 = elapsed_ms / 80;
    let head: u128 = steps % 12;
    head as usize
}

/// How many spokes spoke `i` trails the head by, going backwards round the
/// ring: zero at the head, `SPOKES - 1` for the spoke just ahead of it.
pub fn spokes_behind(i: usize, head: usize) -> (n: usize)
    requires
        i < SPOKES,
        head < SPOKES,
    ensures
        n == (head + SPOKES - i) % (SPOKES as int),
        n < SPOKES,
{
    (head + SPOKES - i) % SPOKES
}

} // verus!
