use agg_gui::align::{TextHAlign, TextVAlign};
use std::time::Duration;

use agg_gui::controls::{should_paint, spokes_behind, step_for, variant_enabled, ScrollBarColor, SPOKES, STEP_MS, ScrollBarKind, ScrollBarVisibility, SliderClamping, SpinnerSize};
use agg_gui::rich_clipboard::{clear, matching, RichClipboard};
use agg_gui::model::Block;

#[test]
fn defaults_match_the_widgets() {
    assert_eq!(ScrollBarVisibility::default(), ScrollBarVisibility::VisibleWhenNeeded);
    assert_eq!(ScrollBarKind::default(), ScrollBarKind::Floating);
    assert_eq!(ScrollBarColor::default(), ScrollBarColor::Background);
    assert_eq!(SliderClamping::default(), SliderClamping::Always);
    assert_eq!(SpinnerSize::default(), SpinnerSize::Regular);
    assert_eq!(TextHAlign::default(), TextHAlign::Left);
    assert_eq!(TextVAlign::default(), TextVAlign::Top);
}

#[test]
fn variant_toggles_gate_only_on_an_explicit_family() {
    assert!(!variant_enabled(&Some(Some("Mono".to_string())), false));
    assert!(variant_enabled(&Some(Some("Mono".to_string())), true));
    assert!(variant_enabled(&Some(None), false));
    assert!(variant_enabled(&None, false));
}

#[test]
fn rich_slot_matches_its_fingerprint_only() {
    let mut slot = RichClipboard::new();
    assert!(matching(&slot, "").is_none());
    agg_gui::rich_clipboard::set(&mut slot, "a\nb".to_string(), vec![Block::plain("a"), Block::plain("b")]);
    assert_eq!(matching(&slot, "a\nb").map(|f| f.len()), Some(2));
    assert_eq!(matching(&slot, "a\r\nb").map(|f| f.len()), Some(2));
    assert!(matching(&slot, "a b").is_none());
    // A repeated paste gets a fresh copy each time.
    assert_eq!(matching(&slot, "a\nb").map(|f| f[1].text()), Some("b".to_string()));
    clear(&mut slot);
    assert!(matching(&slot, "a\nb").is_none());
}

#[test]
fn head_advances_one_spoke_per_step_and_wraps() {
    assert_eq!(step_for(Duration::from_millis(0).as_millis()), 0);
    assert_eq!(step_for(Duration::from_millis(STEP_MS).as_millis()), 1);
    assert_eq!(
        step_for(Duration::from_millis(STEP_MS * SPOKES as u64).as_millis()),
        0,
        "a full revolution wraps to the first spoke"
    );
    assert_eq!(step_for(Duration::from_millis(STEP_MS * (SPOKES as u64 + 3)).as_millis()), 3);
}

#[test]
fn spokes_behind_counts_backwards_round_the_ring() {
    assert_eq!(spokes_behind(4, 4), 0);
    assert_eq!(spokes_behind(3, 4), 1);
    assert_eq!(spokes_behind(2, 4), 2);
    // The spoke just ahead of the head is the tail.
    assert_eq!(spokes_behind(5, 4), 11);
    assert_eq!(spokes_behind(11, 0), 1);
}

#[test]
fn scroll_bar_painting_follows_visibility_and_kind() {
    // Content that fits never paints a bar.
    assert!(!should_paint(false, ScrollBarKind::Solid, ScrollBarVisibility::AlwaysVisible, true, true));
    assert!(should_paint(true, ScrollBarKind::Floating, ScrollBarVisibility::AlwaysVisible, false, false));
    assert!(!should_paint(true, ScrollBarKind::Solid, ScrollBarVisibility::AlwaysHidden, true, true));
    // Shown as needed: a solid bar always, a floating one only on hover or drag.
    assert!(should_paint(true, ScrollBarKind::Solid, ScrollBarVisibility::VisibleWhenNeeded, false, false));
    assert!(!should_paint(true, ScrollBarKind::Floating, ScrollBarVisibility::VisibleWhenNeeded, false, false));
    assert!(should_paint(true, ScrollBarKind::Floating, ScrollBarVisibility::VisibleWhenNeeded, true, false));
    assert!(should_paint(true, ScrollBarKind::Floating, ScrollBarVisibility::VisibleWhenNeeded, false, true));
}
