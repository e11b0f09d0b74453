use agg_gui::commands::{apply_command, RichCommand};
use agg_gui::edit::{extract_range, insert_text, merge_block_with_prev, remove_range, splice_fragment, split_block};
use agg_gui::editor::RichEditCore;
use agg_gui::keys::{Key, Modifiers};
use agg_gui::model::{Block, RichDoc, TextRun};
use agg_gui::position::{DocPos, DocRange};
use agg_gui::style::{InlineStyle, Rgba};

fn bold() -> InlineStyle {
    InlineStyle { bold: true, ..Default::default() }
}

fn styled_doc() -> RichDoc {
    RichDoc::from_blocks(vec![
        Block::plain("first"),
        Block { runs: vec![TextRun::plain("ab"), TextRun::new("CD", bold()), TextRun::plain("é!")], ..Block::new() },
    ])
}

#[test]
fn normalizing_differently_cut_runs_gives_the_same_runs() {
    let mut a = Block { runs: vec![TextRun::plain("ab"), TextRun::plain("c"), TextRun::new("D", bold())], ..Block::new() };
    let mut b = Block { runs: vec![TextRun::plain("a"), TextRun::plain(""), TextRun::plain("bc"), TextRun::new("D", bold())], ..Block::new() };
    a.normalize();
    b.normalize();
    assert_eq!(a.runs, b.runs);
}

#[test]
fn split_then_merge_restores_the_document() {
    let original = styled_doc();
    let mut doc = original.clone();
    let p = split_block(&mut doc, DocPos::new(1, 3));
    assert_eq!(doc.blocks.len(), 3);
    merge_block_with_prev(&mut doc, p.block);
    assert_eq!(doc, original);
}

#[test]
fn insert_then_remove_restores_the_document() {
    let original = styled_doc();
    let mut doc = original.clone();
    insert_text(&mut doc, DocPos::new(1, 2), "xyz", bold());
    assert_eq!(doc.blocks[1].text(), "abxyzCDé!");
    remove_range(&mut doc, DocRange::new(DocPos::new(1, 2), DocPos::new(1, 5)));
    assert_eq!(doc, original);
}

#[test]
fn select_all_copies_the_document_text() {
    let mut core = RichEditCore::new(styled_doc(), 16.0f64.to_bits());
    core.select_all();
    assert_eq!(core.selected_plain_text(), core.plain_text());
    assert_eq!(core.selected_plain_text(), "first\nabCDé!");
}

#[test]
fn clamping_is_idempotent_and_keeps_usable_positions() {
    let core = RichEditCore::new(styled_doc(), 16.0f64.to_bits());
    // Byte 5 of block 1 is inside 'é'.
    let c = core.clamp_pos(DocPos::new(1, 5));
    assert_eq!(c, DocPos::new(1, 4));
    assert_eq!(core.clamp_pos(c), c);
    let far = core.clamp_pos(DocPos::new(7, 99));
    assert_eq!(far, DocPos::new(1, 7));
    assert_eq!(core.clamp_pos(far), far);
    assert_eq!(core.clamp_pos(DocPos::new(0, 3)), DocPos::new(0, 3));
}

#[test]
fn indent_then_outdent_restores_the_document() {
    let original = styled_doc();
    let mut doc = original.clone();
    let r = DocRange::new(DocPos::new(0, 1), DocPos::new(1, 1));
    apply_command(&mut doc, r, &RichCommand::Indent);
    assert_eq!(doc.blocks[0].indent, 1);
    assert_eq!(doc.blocks[1].indent, 1);
    apply_command(&mut doc, r, &RichCommand::Outdent);
    assert_eq!(doc, original);
}

#[test]
fn cancelled_preview_restores_document_and_selection() {
    let original = styled_doc();
    let mut core = RichEditCore::new(original.clone(), 16.0f64.to_bits());
    core.set_selection(DocPos::new(1, 1), DocPos::new(1, 4));
    core.begin_preview();
    let blue = Rgba { r: 0.0f32.to_bits(), g: 0.0f32.to_bits(), b: 1.0f32.to_bits(), a: 1.0f32.to_bits() };
    core.exec(&RichCommand::SetTextColor(blue));
    assert!(core.doc() != &original);
    core.cancel_preview();
    assert_eq!(core.doc(), &original);
    assert_eq!(core.anchor(), DocPos::new(1, 1));
    assert_eq!(core.caret(), DocPos::new(1, 4));
    assert!(!core.is_previewing());
}

#[test]
fn copy_then_paste_into_a_fresh_editor_keeps_style_and_decoration() {
    let source = RichDoc::from_blocks(vec![Block {
        runs: vec![TextRun::plain("ab"), TextRun::new("CD", bold()), TextRun::plain("ef")],
        list: agg_gui::model::ListKind::Bullet,
        indent: 1,
        ..Block::new()
    }]);
    let mut core = RichEditCore::new(source, 16.0f64.to_bits());
    core.set_selection(DocPos::new(0, 1), DocPos::new(0, 5));
    let (plain, fragment) = core.copy_selection();
    assert_eq!(plain, "bCDe");
    let mut fresh = RichEditCore::new(RichDoc::new(), 16.0f64.to_bits());
    fresh.paste_fragment(&fragment);
    let blocks = &fresh.doc().blocks;
    assert_eq!(blocks.len(), 1);
    assert_eq!(blocks[0].list, agg_gui::model::ListKind::Bullet);
    assert_eq!(blocks[0].indent, 1);
    assert_eq!(
        blocks[0].runs,
        vec![TextRun::plain("b"), TextRun::new("CD", bold()), TextRun::plain("e")]
    );
    assert_eq!(fresh.caret(), DocPos::new(0, 4));
    assert_eq!(fresh.anchor(), fresh.caret());
}

#[test]
fn typed_newlines_become_block_breaks() {
    let mut core = RichEditCore::new(styled_doc(), 16.0f64.to_bits());
    core.set_caret(DocPos::new(1, 2), false);
    core.insert("x\n\ny\nz");
    let texts: Vec<String> = core.doc().blocks.iter().map(|b| b.text()).collect();
    assert_eq!(texts, vec!["first", "abx", "", "y", "zCDé!"]);
    assert!(core.doc().blocks.iter().all(|b| !b.text().contains('\n')));
    assert_eq!(core.caret(), DocPos::new(4, 1));
}

#[test]
fn key_presses_keep_newlines_out_of_blocks() {
    let plain = Modifiers { shift: false, ctrl: false, alt: false, meta: false };
    let mut core = RichEditCore::new(styled_doc(), 16.0f64.to_bits());
    core.set_caret(DocPos::new(1, 3), false);
    core.handle_key(Key::Char('\n'), plain);
    core.handle_key(Key::Enter, plain);
    core.handle_key(Key::Char('q'), plain);
    let texts: Vec<String> = core.doc().blocks.iter().map(|b| b.text()).collect();
    assert_eq!(texts, vec!["first", "abC", "", "qDé!"]);
    core.handle_key(Key::Backspace, plain);
    core.handle_key(Key::Backspace, plain);
    core.exec(&RichCommand::ToggleBold);
    let texts: Vec<String> = core.doc().blocks.iter().map(|b| b.text()).collect();
    assert_eq!(texts, vec!["first", "abC", "Dé!"]);
    assert!(core.doc().blocks.iter().all(|b| !b.text().contains('\n')));
}

#[test]
fn multi_block_copy_and_paste_keep_newlines_out_of_blocks() {
    let mut core = RichEditCore::new(styled_doc(), 16.0f64.to_bits());
    core.set_selection(DocPos::new(0, 2), DocPos::new(1, 3));
    let (plain, fragment) = core.copy_selection();
    assert_eq!(plain, "rst\nabC");
    assert_eq!(fragment.len(), 2);
    assert!(fragment.iter().all(|b| !b.text().contains('\n')));
    core.set_caret(DocPos::new(1, 1), false);
    core.paste_fragment(&fragment);
    let texts: Vec<String> = core.doc().blocks.iter().map(|b| b.text()).collect();
    assert_eq!(texts, vec!["first", "arst", "abCbCDé!"]);
    assert_eq!(core.caret(), DocPos::new(2, 3));
}

#[test]
fn cut_then_paste_at_the_same_spot_restores_the_content() {
    let original = RichDoc::from_blocks(vec![
        Block::plain("first"),
        Block { runs: vec![TextRun::plain("ab"), TextRun::new("CD", bold()), TextRun::plain("é!")], ..Block::new() },
        Block::plain("last line"),
    ]);
    let r = DocRange::new(DocPos::new(0, 2), DocPos::new(2, 4));
    let fragment = extract_range(&original, r);
    let mut doc = original.clone();
    let p = remove_range(&mut doc, r);
    assert_eq!(doc.plain_text(), "fi line");
    let end = splice_fragment(&mut doc, p, &fragment);
    assert_eq!(end, DocPos::new(2, 4));
    assert_eq!(doc.plain_text(), original.plain_text());
    assert_eq!(doc.blocks.len(), original.blocks.len());
    for (a, b) in doc.blocks.iter().zip(original.blocks.iter()) {
        assert_eq!(a.runs, b.runs);
    }
}
