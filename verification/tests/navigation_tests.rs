use agg_gui::editor::RichEditCore;
use agg_gui::keys::{Key, KeyOutcome, Modifiers, Motion};
use agg_gui::model::{Block, ListKind, RichDoc};
use agg_gui::position::DocPos;

fn core_over(blocks: &[&str]) -> RichEditCore {
    RichEditCore::new(RichDoc::from_blocks(blocks.iter().map(|s| Block::plain(s)).collect()), 16.0f64.to_bits())
}

fn mods(shift: bool, ctrl: bool) -> Modifiers {
    Modifiers { shift, ctrl, alt: false, meta: false }
}

#[test]
fn char_motion_steps_over_whole_characters_and_crosses_blocks() {
    let core = core_over(&["aé", "b"]);
    // 'é' is two bytes: from its end one step left lands before it.
    assert_eq!(core.char_target(DocPos::new(0, 3), -1), DocPos::new(0, 1));
    assert_eq!(core.char_target(DocPos::new(0, 1), 1), DocPos::new(0, 3));
    // At a block edge the motion crosses to the neighbouring block.
    assert_eq!(core.char_target(DocPos::new(0, 3), 1), DocPos::new(1, 0));
    assert_eq!(core.char_target(DocPos::new(1, 0), -1), DocPos::new(0, 3));
    // The ends of the document stay put.
    assert_eq!(core.char_target(DocPos::new(0, 0), -1), DocPos::new(0, 0));
    assert_eq!(core.char_target(DocPos::new(1, 1), 1), DocPos::new(1, 1));
}

#[test]
fn word_motion_skips_separators_then_a_word() {
    let core = core_over(&["hello, wörld", "next"]);
    assert_eq!(core.word_target(DocPos::new(0, 0), 1), DocPos::new(0, 7));
    assert_eq!(core.word_target(DocPos::new(0, 7), 1), DocPos::new(0, 13));
    assert_eq!(core.word_target(DocPos::new(0, 13), -1), DocPos::new(0, 7));
    assert_eq!(core.word_target(DocPos::new(0, 7), -1), DocPos::new(0, 0));
    assert_eq!(core.word_target(DocPos::new(0, 13), 1), DocPos::new(1, 0));
    assert_eq!(core.word_target(DocPos::new(1, 0), -1), DocPos::new(0, 13));
}

#[test]
fn word_and_block_ranges_under_a_position() {
    let core = core_over(&["foo  bar"]);
    assert_eq!(core.word_range_at_pos(DocPos::new(0, 1)), (DocPos::new(0, 0), DocPos::new(0, 3)));
    assert_eq!(core.word_range_at_pos(DocPos::new(0, 4)), (DocPos::new(0, 3), DocPos::new(0, 5)));
    // Past the end: the trailing run of non-word bytes (none here).
    assert_eq!(core.word_range_at_pos(DocPos::new(0, 99)), (DocPos::new(0, 8), DocPos::new(0, 8)));
    assert_eq!(core.block_range_at_pos(DocPos::new(0, 2)), (DocPos::new(0, 0), DocPos::new(0, 8)));
    assert_eq!(core.block_range_at_pos(DocPos::new(4, 2)), (DocPos::new(4, 0), DocPos::new(4, 0)));
}

#[test]
fn arrow_keys_move_and_extend() {
    let mut core = core_over(&["abc"]);
    core.handle_key(Key::ArrowRight, mods(false, false));
    assert_eq!(core.caret(), DocPos::new(0, 1));
    core.handle_key(Key::ArrowRight, mods(true, false));
    assert_eq!(core.caret(), DocPos::new(0, 2));
    assert_eq!(core.anchor(), DocPos::new(0, 1));
    core.handle_key(Key::End, mods(false, true));
    assert_eq!(core.caret(), DocPos::new(0, 3));
    assert_eq!(core.anchor(), DocPos::new(0, 3));
    core.handle_key(Key::Home, mods(false, true));
    assert_eq!(core.caret(), DocPos::new(0, 0));
}

#[test]
fn line_motions_are_left_to_the_layout() {
    let mut core = core_over(&["abc"]);
    assert!(matches!(core.handle_key(Key::ArrowDown, mods(true, false)), KeyOutcome::Layout(Motion::LineDown, true)));
    assert!(matches!(core.handle_key(Key::Home, mods(false, false)), KeyOutcome::Layout(Motion::LineStart, false)));
    assert!(matches!(core.handle_key(Key::PageUp, mods(false, false)), KeyOutcome::Layout(Motion::PageUp, false)));
    assert_eq!(core.caret(), DocPos::new(0, 0));
}

#[test]
fn typing_enter_and_backspace() {
    let mut core = core_over(&["ab"]);
    core.set_caret(DocPos::new(0, 1), false);
    core.handle_key(Key::Char('x'), mods(false, false));
    assert_eq!(core.plain_text(), "axb");
    core.handle_key(Key::Enter, mods(false, false));
    assert_eq!(core.plain_text(), "ax\nb");
    assert_eq!(core.caret(), DocPos::new(1, 0));
    core.handle_key(Key::Backspace, mods(false, false));
    assert_eq!(core.plain_text(), "axb");
    assert_eq!(core.caret(), DocPos::new(0, 2));
    core.handle_key(Key::Delete, mods(false, false));
    assert_eq!(core.plain_text(), "ax");
    // Ctrl+Z undoes, Ctrl+Shift+Z and Ctrl+Y redo, through the history.
    core.feed_undo(0);
    core.handle_key(Key::Char('q'), mods(false, false));
    assert_eq!(core.plain_text(), "axq");
    core.feed_undo(100);
    core.feed_undo(1200);
    assert!(matches!(core.handle_key(Key::Char('z'), mods(false, true)), KeyOutcome::Handled));
    assert_eq!(core.plain_text(), "ax");
    assert!(matches!(core.handle_key(Key::Char('z'), mods(true, true)), KeyOutcome::Handled));
    assert_eq!(core.plain_text(), "axq");
    core.handle_key(Key::Char('z'), mods(false, true));
    assert_eq!(core.plain_text(), "ax");
    assert!(matches!(core.handle_key(Key::Char('y'), mods(false, true)), KeyOutcome::Handled));
    assert_eq!(core.plain_text(), "axq");
    assert!(matches!(core.handle_key(Key::Char('q'), mods(false, true)), KeyOutcome::Ignored));
}

#[test]
fn enter_on_an_empty_list_item_leaves_the_list() {
    let doc = RichDoc::from_blocks(vec![Block { list: ListKind::Bullet, indent: 1, ..Block::new() }]);
    let mut core = RichEditCore::new(doc, 16.0f64.to_bits());
    core.split();
    assert_eq!(core.doc().blocks.len(), 1);
    assert_eq!(core.doc().blocks[0].indent, 0);
    assert_eq!(core.doc().blocks[0].list, ListKind::Bullet);
    core.split();
    assert_eq!(core.doc().blocks.len(), 1);
    assert_eq!(core.doc().blocks[0].list, ListKind::Plain);
    core.split();
    assert_eq!(core.doc().blocks.len(), 2);
}

#[test]
fn multi_line_insert_replaces_the_selection() {
    let mut core = core_over(&["hello world"]);
    core.set_selection(DocPos::new(0, 5), DocPos::new(0, 6));
    core.insert("\n\n");
    assert_eq!(core.plain_text(), "hello\n\nworld");
    assert_eq!(core.caret(), DocPos::new(2, 0));
    core.insert("x\ny");
    assert_eq!(core.plain_text(), "hello\n\nx\nyworld");
    assert_eq!(core.caret(), DocPos::new(3, 1));
}

#[test]
fn revision_counters_follow_changes() {
    let mut core = core_over(&["ab"]);
    assert_eq!((core.rev(), core.doc_rev()), (0, 0));
    core.set_caret(DocPos::new(0, 1), false);
    assert_eq!((core.rev(), core.doc_rev()), (1, 0));
    core.insert("z");
    assert_eq!((core.rev(), core.doc_rev()), (2, 1));
}
