use agg_gui::model::{Block, ListKind, TextRun};
use agg_gui::model::RichDoc;
use agg_gui::numbering::{list_marker, list_markers, ordered_numbers};
use agg_gui::style::InlineStyle;

fn ordered(text: &str, indent: u8) -> Block {
    Block {
        runs: vec![TextRun::plain(text)],
        list: ListKind::Ordered,
        indent,
        ..Block::new()
    }
}

#[test]
fn ordered_items_count_up_and_restart_after_a_break() {
    let blocks = vec![
        ordered("first", 0),
        ordered("second", 0),
        Block::plain("a break"),
        ordered("restarted", 0),
    ];
    assert_eq!(ordered_numbers(&blocks), vec![1, 2, 0, 1]);
}

#[test]
fn a_change_of_level_restarts_the_count() {
    let blocks = vec![
        ordered("a", 0),
        ordered("a.1", 1),
        ordered("a.2", 1),
        ordered("b", 0),
        Block { list: ListKind::Bullet, ..Block::plain("bullet") },
        ordered("c", 0),
    ];
    assert_eq!(ordered_numbers(&blocks), vec![1, 1, 2, 1, 0, 1]);
}

#[test]
fn deep_indents_share_the_deepest_level() {
    let blocks = vec![ordered("x", 15), ordered("y", 40), ordered("z", 200)];
    assert_eq!(ordered_numbers(&blocks), vec![1, 2, 3]);
}

fn sized(text: &str, size: f64) -> TextRun {
    TextRun::new(text, InlineStyle { font_size: Some(size.to_bits()), ..Default::default() })
}

fn sized_ordered(text: &str) -> Block {
    Block { runs: vec![sized(text, 16.0)], list: ListKind::Ordered, ..Block::new() }
}

#[test]
fn ordered_numbering_and_restart() {
    let doc = RichDoc::from_blocks(vec![
        sized_ordered("first"),
        sized_ordered("second"),
        Block::from_run(sized("a break", 16.0)),
        sized_ordered("restarted"),
    ]);
    let markers = list_markers(&doc.blocks);
    assert_eq!(markers[0].as_deref(), Some("1."));
    assert_eq!(markers[1].as_deref(), Some("2."));
    assert_eq!(markers[2], None);
    assert_eq!(markers[3].as_deref(), Some("1."), "ordered list restarts after a break");
}

#[test]
fn markers_for_each_list_kind() {
    assert_eq!(list_marker(ListKind::Plain, 0), None);
    assert_eq!(list_marker(ListKind::Bullet, 0).as_deref(), Some("\u{2022}"));
    assert_eq!(list_marker(ListKind::Ordered, 7).as_deref(), Some("7."));
    assert_eq!(list_marker(ListKind::Ordered, 10).as_deref(), Some("10."));
    assert_eq!(list_marker(ListKind::Ordered, 1234).as_deref(), Some("1234."));
    assert_eq!(list_marker(ListKind::Ordered, usize::MAX), Some(format!("{}.", usize::MAX)));
}
