use agg_gui::commands::RichCommand;
use agg_gui::editor::RichEditCore;
use agg_gui::model::{Block, RichDoc, TextRun};
use agg_gui::position::{DocPos, DocRange};
use agg_gui::style::{InlineStyle, Rgba};

fn size(pt: f64) -> u64 {
    pt.to_bits()
}

fn bold_style() -> InlineStyle {
    InlineStyle {
        bold: true,
        ..Default::default()
    }
}

fn rgb(r: f32, g: f32, b: f32) -> Rgba {
    Rgba { r: r.to_bits(), g: g.to_bits(), b: b.to_bits(), a: 1.0f32.to_bits() }
}

fn colored(text: &str, color: Rgba) -> TextRun {
    TextRun::new(
        text,
        InlineStyle {
            text_color: Some(color),
            ..Default::default()
        },
    )
}

#[test]
fn typing_inherits_style_at_caret() {
    let doc = RichDoc::from_blocks(vec![Block::from_run(TextRun::new("X", bold_style()))]);
    let mut core = RichEditCore::new(doc, size(16.0));
    core.set_caret(DocPos::new(0, 1), false);
    core.insert("y");
    let block = &core.doc().blocks[0];
    assert_eq!(block.text(), "Xy");
    assert_eq!(block.runs.len(), 1);
    assert!(block.runs[0].style.bold);
}

#[test]
fn pending_style_applies_to_next_insert() {
    let doc = RichDoc::from_blocks(vec![Block::plain("hi")]);
    let mut core = RichEditCore::new(doc, size(16.0));
    core.set_caret(DocPos::new(0, 2), false);
    core.exec(&RichCommand::ToggleBold);
    assert_eq!(core.doc().blocks[0].text(), "hi");
    assert!(core.pending_style().is_some());
    core.insert("Z");
    let block = &core.doc().blocks[0];
    assert_eq!(block.text(), "hiZ");
    let last = block.runs.last().unwrap();
    assert_eq!(last.text, "Z");
    assert!(last.style.bold);
    assert!(core.pending_style().is_none());
}

#[test]
fn moving_caret_clears_pending_style() {
    let doc = RichDoc::from_blocks(vec![Block::plain("hi")]);
    let mut core = RichEditCore::new(doc, size(16.0));
    core.set_caret(DocPos::new(0, 2), false);
    core.exec(&RichCommand::ToggleBold);
    assert!(core.pending_style().is_some());
    core.set_caret(DocPos::new(0, 0), false);
    assert!(core.pending_style().is_none());
}

#[test]
fn toggle_bold_over_selection_through_exec() {
    let doc = RichDoc::from_blocks(vec![Block::plain("hello")]);
    let mut core = RichEditCore::new(doc, size(16.0));
    core.select_all();
    core.exec(&RichCommand::ToggleBold);
    assert_eq!(core.common_style_of_selection().bold, Some(true));
    core.exec(&RichCommand::ToggleBold);
    assert_eq!(core.common_style_of_selection().bold, Some(false));
}

#[test]
fn clipboard_round_trip_across_blocks() {
    let doc = RichDoc::from_blocks(vec![Block::plain("alpha"), Block::plain("beta")]);
    let mut core = RichEditCore::new(doc, size(16.0));
    core.select_all();
    let copied = core.selected_plain_text();
    assert_eq!(copied, "alpha\nbeta");

    let mut fresh = RichEditCore::new(RichDoc::new(), size(16.0));
    fresh.insert(&copied);
    assert_eq!(fresh.doc().blocks.len(), 2);
    assert_eq!(fresh.doc().blocks[0].text(), "alpha");
    assert_eq!(fresh.doc().blocks[1].text(), "beta");
}

#[test]
fn handle_select_all_then_bold() {
    let mut core = RichEditCore::new(RichDoc::from_blocks(vec![Block::plain("hello")]), size(16.0));
    core.select_all();
    assert_eq!(core.selection(), DocRange::new(DocPos::new(0, 0), DocPos::new(0, 5)));
    core.exec(&RichCommand::ToggleBold);
    assert_eq!(core.common_style_of_selection().bold, Some(true));
    assert_eq!(core.plain_text(), "hello");
}

#[test]
fn handle_set_selection_clamps() {
    let mut core = RichEditCore::new(RichDoc::from_blocks(vec![Block::plain("hi")]), size(16.0));
    let range = DocRange::new(DocPos::new(9, 9), DocPos::new(0, 99));
    core.set_selection(range.start, range.end);
    let sel = core.selection();
    assert_eq!(sel.start, DocPos::new(0, 2), "anchor clamped to end of block");
    assert_eq!(sel.end, DocPos::new(0, 2), "caret clamped to end of block");
    core.set_caret(DocPos::new(0, 50), false);
    assert!(core.selection().is_empty());
    assert_eq!(core.selection().start, DocPos::new(0, 2));
}

#[test]
fn handle_load_replaces_content() {
    let mut core = RichEditCore::new(RichDoc::from_blocks(vec![Block::plain("old")]), size(16.0));
    core.select_all();
    core.load(RichDoc::from_blocks(vec![Block::plain("brand new")]));
    assert_eq!(core.plain_text(), "brand new");
    assert_eq!(core.selection().start, DocPos::new(0, 0));
    assert!(core.selection().is_empty(), "caret collapsed after load");
}

#[test]
fn preview_dirty_tracks_document_mutation() {
    let red = rgb(1.0, 0.0, 0.0);
    let blue = rgb(0.0, 0.0, 1.0);
    let doc = RichDoc::from_blocks(vec![Block::from_run(colored("hello", red))]);
    let mut core = RichEditCore::new(doc, size(16.0));
    core.select_all();

    core.begin_preview();
    assert!(!core.is_preview_dirty(), "a just-opened preview is not dirty");

    core.exec(&RichCommand::SetTextColor(blue));
    assert!(core.is_preview_dirty(), "a previewing colour exec marks dirty");

    core.commit_preview();
    assert!(!core.is_preview_dirty(), "commit clears the dirty flag");

    core.begin_preview();
    assert!(!core.is_preview_dirty(), "reopened session starts clean again");
    core.cancel_preview();
    assert!(!core.is_preview_dirty(), "cancel clears the dirty flag");
}
