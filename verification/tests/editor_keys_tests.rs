use agg_gui::editor::RichEditCore;
use agg_gui::keys::{Key, KeyOutcome, Modifiers};
use agg_gui::model::{Block, ListKind, RichDoc, TextRun};
use agg_gui::position::DocPos;
use agg_gui::rich_clipboard::{clear, RichClipboard};
use agg_gui::style::{InlineStyle, Rgba};

fn no_mods() -> Modifiers {
    Modifiers { shift: false, ctrl: false, alt: false, meta: false }
}

fn shift() -> Modifiers {
    Modifiers { shift: true, ..no_mods() }
}

fn ctrl() -> Modifiers {
    Modifiers { ctrl: true, ..no_mods() }
}

fn core_over(doc: RichDoc) -> RichEditCore {
    RichEditCore::new(doc, 16.0f64.to_bits())
}

fn plain_doc(blocks: &[&str]) -> RichDoc {
    RichDoc::from_blocks(blocks.iter().map(|s| Block::plain(s)).collect())
}

fn bullet_block(indent: u8) -> Block {
    Block {
        runs: vec![TextRun::plain("item")],
        list: ListKind::Bullet,
        indent,
        ..Block::new()
    }
}

fn text(core: &RichEditCore) -> String {
    core.doc().plain_text()
}

/// The system clipboard and the rich slot beside it, as the application keeps
/// them.
struct Clipboards {
    system: Option<String>,
    rich: RichClipboard,
}

/// Press `key` with `m` and carry out what the editor hands back, as the
/// application does: clipboard writes, and paste from the clipboards.
fn press(core: &mut RichEditCore, key: Key, m: Modifiers, clip: &mut Clipboards) -> KeyOutcome {
    let out = core.handle_key(key, m);
    match &out {
        KeyOutcome::Copy(t, f) | KeyOutcome::Cut(t, f) => {
            if !t.is_empty() {
                clip.system = Some(t.clone());
                agg_gui::rich_clipboard::set(&mut clip.rich, t.clone(), f.clone());
            }
        }
        KeyOutcome::Paste => {
            if let Some(t) = clip.system.clone() {
                core.paste(&t, &clip.rich);
            }
        }
        _ => {}
    }
    out
}

fn red_24_bold() -> InlineStyle {
    InlineStyle {
        bold: true,
        font_size: Some(24.0f64.to_bits()),
        text_color: Some(Rgba { r: 1.0f32.to_bits(), g: 0.0f32.to_bits(), b: 0.0f32.to_bits(), a: 1.0f32.to_bits() }),
        ..Default::default()
    }
}

fn clipboards() -> Clipboards {
    let mut rich = RichClipboard::new();
    clear(&mut rich);
    Clipboards { system: None, rich }
}

#[test]
fn tab_indents_list_item_one_level() {
    let mut core = core_over(RichDoc::from_blocks(vec![bullet_block(0)]));
    core.handle_key(Key::Tab, no_mods());
    assert_eq!(core.doc().blocks[0].indent, 1, "Tab indents the list item");
    assert_eq!(core.doc().blocks[0].list, ListKind::Bullet, "the list decoration survives the indent");
}

#[test]
fn shift_tab_outdents_list_item_one_level() {
    let mut core = core_over(RichDoc::from_blocks(vec![bullet_block(2)]));
    core.handle_key(Key::Tab, shift());
    assert_eq!(core.doc().blocks[0].indent, 1, "Shift+Tab outdents the list item");
    assert_eq!(core.doc().blocks[0].list, ListKind::Bullet);
}

#[test]
fn tab_increases_block_indent_outside_a_list() {
    let mut core = core_over(plain_doc(&["paragraph"]));
    assert_eq!(core.doc().blocks[0].indent, 0);
    core.handle_key(Key::Tab, no_mods());
    assert_eq!(core.doc().blocks[0].indent, 1, "Tab increases block indent");
    assert_eq!(core.doc().blocks[0].list, ListKind::Plain, "still a plain paragraph");
}

#[test]
fn shift_tab_decreases_block_indent() {
    let doc = RichDoc::from_blocks(vec![Block {
        runs: vec![TextRun::plain("paragraph")],
        indent: 2,
        ..Block::new()
    }]);
    let mut core = core_over(doc);
    core.handle_key(Key::Tab, shift());
    assert_eq!(core.doc().blocks[0].indent, 1, "Shift+Tab decreases block indent");
}

#[test]
fn tab_and_shift_tab_are_consumed() {
    let mut core = core_over(plain_doc(&["paragraph"]));
    assert!(matches!(core.handle_key(Key::Tab, no_mods()), KeyOutcome::Handled), "Tab is consumed");
    assert!(matches!(core.handle_key(Key::Tab, shift()), KeyOutcome::Handled), "Shift+Tab is consumed too");
}

#[test]
fn ctrl_tab_is_ignored_and_does_not_indent() {
    let mut core = core_over(plain_doc(&["paragraph"]));
    assert!(
        matches!(core.handle_key(Key::Tab, ctrl()), KeyOutcome::Ignored),
        "Ctrl+Tab falls through so the App can traverse focus"
    );
    assert_eq!(core.doc().blocks[0].indent, 0, "Ctrl+Tab must not change the indent");
}

#[test]
fn ctrl_backspace_mid_word_deletes_back_to_word_start() {
    let mut core = core_over(plain_doc(&["hello world"]));
    core.set_caret(DocPos::new(0, 9), false);
    core.handle_key(Key::Backspace, ctrl());
    assert_eq!(text(&core), "hello ld", "mid-word delete removes to the word start");
}

#[test]
fn ctrl_backspace_at_word_start_deletes_previous_word() {
    let mut core = core_over(plain_doc(&["hello world"]));
    core.set_caret(DocPos::new(0, 6), false);
    core.handle_key(Key::Backspace, ctrl());
    assert_eq!(text(&core), "world", "at word start, delete removes the previous word");
}

#[test]
fn ctrl_delete_forward_deletes_next_word() {
    let mut core = core_over(plain_doc(&["hello world"]));
    core.set_caret(DocPos::new(0, 0), false);
    core.handle_key(Key::Delete, ctrl());
    assert_eq!(text(&core), "world", "forward word delete removes to the next word");
}

#[test]
fn ctrl_backspace_with_selection_deletes_only_the_selection() {
    let mut core = core_over(plain_doc(&["hello world"]));
    core.set_selection(DocPos::new(0, 2), DocPos::new(0, 5));
    core.handle_key(Key::Backspace, ctrl());
    assert_eq!(text(&core), "he world", "an active selection is deleted verbatim");
}

#[test]
fn ctrl_backspace_at_block_start_merges_with_previous_block() {
    let mut core = core_over(plain_doc(&["foo", "bar"]));
    core.set_caret(DocPos::new(1, 0), false);
    core.handle_key(Key::Backspace, ctrl());
    assert_eq!(core.doc().blocks.len(), 1, "the two blocks merged");
    assert_eq!(text(&core), "foobar", "merged text is the two blocks joined");
}

#[test]
fn styled_run_and_list_block_survive_copy_paste() {
    let mut clip = clipboards();
    let doc = RichDoc::from_blocks(vec![Block {
        runs: vec![TextRun::new("Hi", red_24_bold())],
        list: ListKind::Bullet,
        ..Block::new()
    }]);
    let mut src = core_over(doc);
    src.select_all();
    press(&mut src, Key::Char('c'), ctrl(), &mut clip);

    let mut dst = core_over(RichDoc::new());
    press(&mut dst, Key::Char('v'), ctrl(), &mut clip);

    let doc = dst.doc().clone();
    assert_eq!(doc.blocks.len(), 1);
    assert_eq!(doc.blocks[0].list, ListKind::Bullet, "list decoration survives");
    let run = &doc.blocks[0].runs[0];
    assert_eq!(run.text, "Hi");
    assert!(run.style.bold, "bold survives");
    assert_eq!(run.style.font_size, Some(24.0f64.to_bits()), "point size survives");
    assert_eq!(run.style.text_color, red_24_bold().text_color, "colour survives");
}

#[test]
fn crlf_mangled_clipboard_still_matches_fingerprint() {
    let mut clip = clipboards();
    let doc = RichDoc::from_blocks(vec![
        Block::from_run(TextRun::new("one", red_24_bold())),
        Block::from_run(TextRun::new("two", red_24_bold())),
    ]);
    let mut src = core_over(doc);
    src.select_all();
    press(&mut src, Key::Char('c'), ctrl(), &mut clip);

    clip.system = Some("one\r\ntwo".to_string());

    let mut dst = core_over(RichDoc::new());
    press(&mut dst, Key::Char('v'), ctrl(), &mut clip);

    let doc = dst.doc().clone();
    assert_eq!(doc.blocks.len(), 2);
    assert!(doc.blocks[0].runs[0].style.bold, "styled fragment reused");
    assert!(doc.blocks[1].runs[0].style.bold);
}

#[test]
fn fingerprint_mismatch_falls_back_to_plain_text() {
    let mut clip = clipboards();
    let doc = RichDoc::from_blocks(vec![Block::from_run(TextRun::new("Hi", red_24_bold()))]);
    let mut src = core_over(doc);
    src.select_all();
    press(&mut src, Key::Char('c'), ctrl(), &mut clip);

    clip.system = Some("external".to_string());

    let mut dst = core_over(RichDoc::new());
    press(&mut dst, Key::Char('v'), ctrl(), &mut clip);

    let doc = dst.doc().clone();
    assert_eq!(doc.blocks[0].text(), "external");
    assert!(!doc.blocks[0].runs[0].style.bold);
}

#[test]
fn external_plain_text_pastes_unstyled() {
    let mut clip = clipboards();
    clip.system = Some("hello world".to_string());
    let mut dst = core_over(RichDoc::new());
    press(&mut dst, Key::Char('v'), ctrl(), &mut clip);
    let doc = dst.doc().clone();
    assert_eq!(doc.blocks[0].text(), "hello world");
    assert!(!doc.blocks[0].runs[0].style.bold);
}

#[test]
fn cut_removes_styled_content_and_keeps_it_for_paste() {
    let mut clip = clipboards();
    let doc = RichDoc::from_blocks(vec![Block {
        runs: vec![TextRun::new("keep ", InlineStyle::default()), TextRun::new("cutme", red_24_bold())],
        ..Block::new()
    }]);
    let mut src = core_over(doc);
    src.set_selection(DocPos::new(0, 5), DocPos::new(0, 10));
    press(&mut src, Key::Char('x'), ctrl(), &mut clip);
    assert_eq!(src.doc().blocks[0].text(), "keep ");

    let mut dst = core_over(RichDoc::new());
    press(&mut dst, Key::Char('v'), ctrl(), &mut clip);
    let doc = dst.doc().clone();
    assert_eq!(doc.blocks[0].text(), "cutme");
    assert!(doc.blocks[0].runs[0].style.bold);
}

#[test]
fn styled_paste_is_one_undo_step() {
    let mut clip = clipboards();
    let mut src = core_over(RichDoc::from_blocks(vec![Block::from_run(TextRun::new("AB", red_24_bold()))]));
    src.select_all();
    press(&mut src, Key::Char('c'), ctrl(), &mut clip);

    let mut dst = core_over(RichDoc::new());
    // Baseline undo snapshot for the empty doc, then paste and let it settle.
    dst.feed_undo(0);
    press(&mut dst, Key::Char('v'), ctrl(), &mut clip);
    dst.feed_undo(100);
    dst.feed_undo(1500);
    assert_eq!(dst.doc().blocks[0].text(), "AB");

    assert!(dst.undo(), "one undo reverts the paste");
    assert_eq!(dst.doc().blocks[0].text(), "");
    assert!(!dst.can_undo(), "paste was a single undo step");
}

#[test]
fn ctrl_backspace_is_one_undo_step() {
    // A word delete collapses into a single undo point that restores the word.
    let mut clip = clipboards();
    let mut core = core_over(plain_doc(&["hello world"]));
    core.set_caret(DocPos::new(0, 11), false);
    core.feed_undo(0); // baseline undo point
    press(&mut core, Key::Backspace, ctrl(), &mut clip);
    assert_eq!(text(&core), "hello ", "the trailing word is deleted");
    // Let the change settle past the coalescing window into one undo point.
    core.feed_undo(100);
    core.feed_undo(1500);
    assert!(core.can_undo());
    assert!(core.undo(), "one undo reverts the word delete");
    assert_eq!(text(&core), "hello world", "undo restores the deleted word");
    assert!(!core.can_undo(), "the word delete was a single undo step");
}
