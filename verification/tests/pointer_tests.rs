use agg_gui::editor::RichEditCore;
use agg_gui::model::{Block, RichDoc};
use agg_gui::pointer::{PointerSelection, SelectGranularity};
use agg_gui::position::DocPos;

fn core_over(blocks: &[&str]) -> RichEditCore {
    RichEditCore::new(RichDoc::from_blocks(blocks.iter().map(|s| Block::plain(s)).collect()), 16.0f64.to_bits())
}

#[test]
fn double_click_selects_a_word_and_drag_extends_by_words() {
    let mut core = core_over(&["alpha beta gamma"]);
    let mut ps = PointerSelection::new();
    ps.begin_pointer_selection(&mut core, DocPos::new(0, 7), 2, false);
    assert_eq!(ps.granularity, SelectGranularity::Word);
    assert_eq!((core.anchor(), core.caret()), (DocPos::new(0, 6), DocPos::new(0, 10)));
    ps.extend_selection_drag(&mut core, DocPos::new(0, 13));
    assert_eq!((core.anchor(), core.caret()), (DocPos::new(0, 6), DocPos::new(0, 16)));
    ps.extend_selection_drag(&mut core, DocPos::new(0, 2));
    assert_eq!((core.anchor(), core.caret()), (DocPos::new(0, 10), DocPos::new(0, 0)));
}

#[test]
fn triple_click_selects_the_block() {
    let mut core = core_over(&["one", "two three"]);
    let mut ps = PointerSelection::new();
    ps.begin_pointer_selection(&mut core, DocPos::new(1, 4), 3, false);
    assert_eq!(ps.granularity, SelectGranularity::Line);
    assert_eq!((core.anchor(), core.caret()), (DocPos::new(1, 0), DocPos::new(1, 9)));
    ps.extend_selection_drag(&mut core, DocPos::new(0, 1));
    assert_eq!((core.anchor(), core.caret()), (DocPos::new(1, 9), DocPos::new(0, 0)));
}

#[test]
fn single_click_places_and_shift_click_extends() {
    let mut core = core_over(&["hello"]);
    let mut ps = PointerSelection::new();
    ps.begin_pointer_selection(&mut core, DocPos::new(0, 1), 1, false);
    assert_eq!((core.anchor(), core.caret()), (DocPos::new(0, 1), DocPos::new(0, 1)));
    ps.begin_pointer_selection(&mut core, DocPos::new(0, 4), 1, true);
    assert_eq!((core.anchor(), core.caret()), (DocPos::new(0, 1), DocPos::new(0, 4)));
    ps.extend_selection_drag(&mut core, DocPos::new(0, 5));
    assert_eq!(core.caret(), DocPos::new(0, 5));
}

#[test]
fn context_click_keeps_a_selection_it_lands_in() {
    let mut core = core_over(&["hello world"]);
    core.set_selection(DocPos::new(0, 2), DocPos::new(0, 8));
    assert!(core.selection_contains(DocPos::new(0, 5)));
    assert!(core.context_click(DocPos::new(0, 5)));
    assert_eq!((core.anchor(), core.caret()), (DocPos::new(0, 2), DocPos::new(0, 8)));
    assert!(!core.context_click(DocPos::new(0, 10)));
    assert_eq!((core.anchor(), core.caret()), (DocPos::new(0, 10), DocPos::new(0, 10)));
}
