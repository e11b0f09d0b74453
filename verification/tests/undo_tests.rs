use agg_gui::commands::RichCommand;
use agg_gui::editor::RichEditCore;
use agg_gui::model::{Block, RichDoc, TextRun};
use agg_gui::position::DocPos;
use agg_gui::style::{InlineStyle, Rgba};

fn core_over(doc: RichDoc) -> RichEditCore {
    RichEditCore::new(doc, 16.0f64.to_bits())
}

fn rgb(r: f32, g: f32, b: f32) -> Rgba {
    Rgba { r: r.to_bits(), g: g.to_bits(), b: b.to_bits(), a: 1.0f32.to_bits() }
}

fn colored(text: &str, color: Rgba) -> TextRun {
    TextRun::new(text, InlineStyle { text_color: Some(color), ..Default::default() })
}

#[test]
fn undo_coalesces_rapid_typing_into_one_step() {
    let doc = RichDoc::from_blocks(vec![Block::plain("Hi")]);
    let mut core = core_over(doc);
    core.set_caret(core.doc().end_pos(), false);
    // Baseline snapshot.
    core.feed_undo(0);

    // Rapid typing within the coalescing window: no undo point each.
    core.insert("a");
    core.feed_undo(100);
    core.insert("b");
    core.feed_undo(200);
    core.insert("c");
    core.feed_undo(300);
    assert_eq!(core.doc().blocks[0].text(), "Hiabc");

    // Hold steady past the window (one second): exactly one undo point.
    core.feed_undo(400);
    core.feed_undo(1600);
    assert!(core.can_undo());

    // A single undo reverts the whole coalesced run back to the baseline.
    assert!(core.undo());
    assert_eq!(core.doc().blocks[0].text(), "Hi");
    assert!(!core.can_undo(), "typing coalesced into one undo step");
}

#[test]
fn load_resets_undo_history() {
    let mut core = core_over(RichDoc::from_blocks(vec![Block::plain("old")]));
    // Baseline, then a coalesced edit: one undo point.
    core.feed_undo(0);
    core.select_all();
    core.exec(&RichCommand::ToggleBold);
    core.feed_undo(100);
    core.feed_undo(2000);
    assert!(core.can_undo(), "edit created an undo point");

    core.load(RichDoc::from_blocks(vec![Block::plain("brand new")]));
    assert_eq!(core.doc().plain_text(), "brand new");
    assert!(!core.can_undo(), "load must discard the prior undo history");
    assert_eq!(core.caret(), DocPos::new(0, 0), "caret reset to document start");
}

#[test]
fn load_during_preview_abandons_session() {
    let mut core = core_over(RichDoc::from_blocks(vec![Block::plain("old")]));
    core.select_all();
    // Begin a live preview and mutate mid-drag, exactly like a colour dialog.
    core.begin_preview();
    core.exec(&RichCommand::SetTextColor(rgb(1.0, 0.0, 0.0)));
    assert!(core.is_previewing(), "preview active before load");

    core.load(RichDoc::from_blocks(vec![Block::plain("brand new")]));
    assert!(!core.is_previewing(), "load must end the preview session");

    // Undo feeding works again (not stuck suspended): a fresh edit banks a step.
    core.feed_undo(0);
    core.select_all();
    core.exec(&RichCommand::ToggleBold);
    core.feed_undo(100);
    core.feed_undo(2000);
    assert!(core.can_undo(), "undo must be functional after load-during-preview");

    // A stale cancel_preview is now a no-op: it must not restore the old doc.
    core.cancel_preview();
    assert_eq!(
        core.doc().plain_text(),
        "brand new",
        "cancel_preview after load must not clobber the loaded document"
    );
}

#[test]
fn dirty_clickaway_commits_one_undo_step() {
    // Mirrors the click-away handler: dirty session -> commit -> one step.
    let red = rgb(1.0, 0.0, 0.0);
    let blue = rgb(0.0, 0.0, 1.0);
    let doc = RichDoc::from_blocks(vec![Block::from_run(colored("hello", red))]);
    let mut core = core_over(doc);
    core.select_all();
    core.feed_undo(0); // baseline (red)
    assert!(!core.can_undo());

    core.begin_preview();
    core.exec(&RichCommand::SetTextColor(blue));
    core.feed_undo(100);

    // Click-away with a changed colour: the handler commits because dirty.
    assert!(core.is_preview_dirty());
    core.commit_preview();
    core.feed_undo(3000);
    core.feed_undo(4500);

    assert!(core.can_undo(), "a committed click-away change is undoable");
    assert!(core.undo());
    assert_eq!(core.common_style_of_selection().text_color, Some(Some(red)));
    assert!(!core.can_undo(), "click-away commit is a single undo step");
}

#[test]
fn clean_clickaway_leaves_no_undo_entry() {
    // Mirrors the click-away handler: clean session -> cancel -> no residue.
    let red = rgb(1.0, 0.0, 0.0);
    let doc = RichDoc::from_blocks(vec![Block::from_run(colored("hello", red))]);
    let mut core = core_over(doc);
    core.select_all();
    core.feed_undo(0); // baseline (red)

    // Open then dismiss without touching anything.
    core.begin_preview();
    assert!(!core.is_preview_dirty());
    core.cancel_preview();
    core.feed_undo(3000);
    core.feed_undo(4500);

    assert!(!core.can_undo(), "an untouched click-away leaves no undo entry");
    assert_eq!(core.common_style_of_selection().text_color, Some(Some(red)));
}

#[test]
fn redo_returns_to_the_undone_state_and_a_new_edit_drops_it() {
    let mut core = core_over(RichDoc::from_blocks(vec![Block::plain("ab")]));
    core.set_caret(DocPos::new(0, 2), false);
    core.feed_undo(0);
    core.insert("c");
    core.feed_undo(100);
    core.feed_undo(1200);
    assert!(!core.can_redo());
    assert!(core.undo());
    assert_eq!(core.plain_text(), "ab");
    assert!(core.can_redo());
    assert!(core.redo());
    assert_eq!(core.plain_text(), "abc");
    assert_eq!(core.caret(), DocPos::new(0, 3));
    // Undo again, then edit: the history moves on and redo has nothing left.
    assert!(core.undo());
    core.insert("x");
    core.feed_undo(1300);
    assert!(!core.can_redo());
    assert!(!core.redo());
    assert_eq!(core.plain_text(), "abx");
}

#[test]
fn a_change_still_moving_after_the_auto_save_interval_is_saved() {
    let mut core = core_over(RichDoc::from_blocks(vec![Block::plain("")]));
    core.feed_undo(0);
    let mut t: u64 = 100;
    while t <= 31_000 {
        core.insert("x");
        assert!(core.feed_undo(t) || core.can_undo());
        t += 500;
    }
    assert!(core.can_undo(), "thirty seconds of steady typing banks an undo point");
}

#[test]
fn preview_states_never_become_undo_points() {
    let mut core = core_over(RichDoc::from_blocks(vec![Block::plain("hi")]));
    core.select_all();
    core.feed_undo(0);
    core.begin_preview();
    core.exec(&RichCommand::SetTextColor(rgb(0.0, 1.0, 0.0)));
    assert!(!core.feed_undo(100), "no change is coalescing during a preview");
    core.feed_undo(5000);
    core.cancel_preview();
    core.feed_undo(6000);
    assert!(!core.can_undo(), "the preview's colour never became an undo point");
}
