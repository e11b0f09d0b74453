use agg_gui::keys::Key;
use agg_gui::segments::{choose_segment, clamp_selection, segment_key, selected_index, SegmentKeyResult};

#[derive(Debug, PartialEq)]
enum EventResult {
    Consumed,
    Ignored,
}

/// A control with all segments enabled and its selection cell, driven the
/// way the widget drives it.
struct Control {
    enabled: Vec<bool>,
    cell: usize,
}

fn key(ctl: &mut Control, k: Key) -> EventResult {
    match segment_key(&ctl.enabled, ctl.cell, k) {
        SegmentKeyResult::Select(i) => {
            let (set, _fires) = choose_segment(&ctl.enabled, ctl.cell, i);
            if let Some(v) = set {
                ctl.cell = v;
            }
            EventResult::Consumed
        }
        SegmentKeyResult::Consumed => EventResult::Consumed,
        SegmentKeyResult::Ignored => EventResult::Ignored,
    }
}

#[test]
fn arrow_keys_move_selection_and_stop_at_the_ends() {
    let mut ctl = Control { enabled: vec![true, true, true], cell: 0 };
    assert_eq!(key(&mut ctl, Key::ArrowRight), EventResult::Consumed);
    assert_eq!(ctl.cell, 1);
    assert_eq!(key(&mut ctl, Key::ArrowRight), EventResult::Consumed);
    assert_eq!(ctl.cell, 2);
    assert_eq!(key(&mut ctl, Key::ArrowRight), EventResult::Ignored);
    assert_eq!(ctl.cell, 2);
    assert_eq!(key(&mut ctl, Key::Home), EventResult::Consumed);
    assert_eq!(ctl.cell, 0);
    assert_eq!(key(&mut ctl, Key::End), EventResult::Consumed);
    assert_eq!(ctl.cell, 2);
    assert_eq!(key(&mut ctl, Key::Enter), EventResult::Ignored);
}

#[test]
fn arrow_keys_skip_disabled_segments() {
    let mut ctl = Control { enabled: vec![true, false, true], cell: 0 };
    assert_eq!(key(&mut ctl, Key::ArrowRight), EventResult::Consumed);
    assert_eq!(ctl.cell, 2);
    assert_eq!(key(&mut ctl, Key::ArrowLeft), EventResult::Consumed);
    assert_eq!(ctl.cell, 0);
}

#[test]
fn keys_on_an_empty_control_are_ignored() {
    let mut ctl = Control { enabled: vec![], cell: 0 };
    assert_eq!(key(&mut ctl, Key::ArrowRight), EventResult::Ignored);
    assert_eq!(key(&mut ctl, Key::Home), EventResult::Ignored);
}

#[test]
fn choosing_fires_only_on_change() {
    let en = vec![true, false, true];
    assert_eq!(choose_segment(&en, 0, 2), (Some(2), true));
    assert_eq!(choose_segment(&en, 2, 2), (Some(2), false));
    assert_eq!(choose_segment(&en, 0, 1), (None, false));
    assert_eq!(choose_segment(&en, 0, 7), (None, false));
    // An out-of-range cell counts as the last segment.
    assert_eq!(choose_segment(&en, 9, 2), (Some(2), false));
}

#[test]
fn choosing_the_selected_segment_does_not_report_a_change() {
    assert_eq!(choose_segment(&[true, true], 1, 1), (Some(1), false));
    assert_eq!(choose_segment(&[true, true], 0, 1), (Some(1), true));
}

#[test]
fn disabled_segment_cannot_be_chosen_or_stepped_to() {
    let enabled = [true, false, true];
    assert_eq!(choose_segment(&enabled, 0, 1), (None, false));
    let mut ctl = Control { enabled: enabled.to_vec(), cell: 0 };
    // Right from 0 skips the disabled 1 and lands on 2; Left skips back to 0.
    assert_eq!(key(&mut ctl, Key::ArrowRight), EventResult::Consumed);
    assert_eq!(ctl.cell, 2);
    assert_eq!(key(&mut ctl, Key::ArrowLeft), EventResult::Consumed);
    assert_eq!(ctl.cell, 0);
}

#[test]
fn an_external_cell_write_is_reflected_and_clamped() {
    assert_eq!(selected_index(3, 1), 1);
    assert_eq!(clamp_selection(3, 99), 2);
    assert_eq!(clamp_selection(3, 2), 2);
}

#[test]
fn an_empty_control_ignores_keys() {
    let mut ctl = Control { enabled: Vec::new(), cell: 0 };
    assert_eq!(key(&mut ctl, Key::ArrowRight), EventResult::Ignored);
    assert_eq!(choose_segment(&[], 0, 0), (None, false));
}
