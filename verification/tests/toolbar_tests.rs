use agg_gui::editor::RichEditCore;
use agg_gui::model::{Block, RichDoc};
use agg_gui::commands::RichCommand;
use agg_gui::picker::{initial_color, open_picker, picker_dropped, PickerKind, PickerPlan};
use agg_gui::style::Rgba;

fn core_over(doc: RichDoc) -> RichEditCore {
    RichEditCore::new(doc, 16.0f64.to_bits())
}

/// Open the toolbar's colour picker of `kind` over a selected document and
/// return the plan the dialog is built from.
fn open_picker_plan(kind: PickerKind) -> PickerPlan {
    let mut core = core_over(RichDoc::from_blocks(vec![Block::plain("hi")]));
    core.select_all();
    let plan = open_picker(&mut core, kind).expect("a swatch opens a picker");
    assert!(core.is_previewing(), "opening the swatch begins a preview session");
    plan
}

#[test]
fn highlight_picker_has_no_no_color_checkbox() {
    let plan = open_picker_plan(PickerKind::Highlight);
    assert!(
        !plan.allow_none,
        "Highlight picker must not build a \"No Color (Pass Through)\" checkbox"
    );
}

#[test]
fn text_color_picker_has_no_no_color_checkbox() {
    let plan = open_picker_plan(PickerKind::TextColor);
    assert!(
        !plan.allow_none,
        "Text-colour picker must not build a \"No Color (Pass Through)\" checkbox"
    );
}

use agg_gui::model::TextRun;
use agg_gui::style::InlineStyle;
use agg_gui::toolbar::{press_control, control_active, control_tooltip, control_widget, rows, tooltip_text, ControlWidget, ToolbarConfig, ToolbarControl};

/// The toolbar's rows as the widget kinds they are built as.
fn row_type_names(cfg: &ToolbarConfig, families: bool) -> Vec<Vec<&'static str>> {
    rows(cfg, families)
        .iter()
        .map(|row| {
            row.iter()
                .map(|c| match control_widget(*c) {
                    ControlWidget::Button => "Button",
                    ControlWidget::ComboBox => "ComboBox",
                })
                .collect()
        })
        .collect()
}

#[test]
fn full_roster_with_families() {
    let rows = row_type_names(&ToolbarConfig::default(), true);
    assert_eq!(rows.len(), 2, "two rows");
    assert_eq!(
        rows[0],
        ["Button", "Button", "Button", "Button", "ComboBox", "ComboBox", "Button", "Button", "Button"],
        "row 1: B/I/U/S, family combo, size combo, text-colour, highlight, remove-highlight"
    );
    assert_eq!(rows[1], vec!["Button"; 9], "row 2 roster");
}

#[test]
fn config_disables_controls_and_empty_rows() {
    let cfg = ToolbarConfig::default()
        .with_bold(false)
        .with_colors(false)
        .with_history(false)
        .with_alignment(false)
        .with_lists(false)
        .with_indent(false);
    let rows = row_type_names(&cfg, false);
    assert_eq!(rows.len(), 1, "empty second row omitted");
    assert_eq!(
        rows[0],
        ["Button", "Button", "Button", "ComboBox"],
        "row 1 lost bold + colours, kept I/U/S + size combo"
    );
}

#[test]
fn family_omitted_when_no_families() {
    let rows = row_type_names(&ToolbarConfig::default(), false);
    assert_eq!(
        rows[0],
        ["Button", "Button", "Button", "Button", "ComboBox", "Button", "Button", "Button"],
        "row 1 without a family combo: B/I/U/S, size combo, two colour swatches, remove-highlight"
    );
    let combo_count = rows[0].iter().filter(|t| **t == "ComboBox").count();
    assert_eq!(combo_count, 1, "only the size ComboBox, no family ComboBox");
}

#[test]
fn bold_toggle_reflects_tri_state() {
    let bold = InlineStyle { bold: true, ..Default::default() };

    let mut core = core_over(RichDoc::from_blocks(vec![Block::from_run(TextRun::new("bold", bold.clone()))]));
    core.select_all();
    let cs = core.common_style_of_selection();
    assert_eq!(cs.bold, Some(true));
    assert!(control_active(ToolbarControl::Bold, &cs), "uniform bold ⇒ toggle active");

    let mut core = core_over(RichDoc::from_blocks(vec![Block {
        runs: vec![TextRun::new("B", bold), TextRun::plain("p")],
        ..Block::new()
    }]));
    core.select_all();
    let cs = core.common_style_of_selection();
    assert_eq!(cs.bold, None, "mixed selection reports None");
    assert!(!control_active(ToolbarControl::Bold, &cs), "mixed ⇒ toggle inactive");

    let mut core = core_over(RichDoc::from_blocks(vec![Block::plain("plain")]));
    core.select_all();
    assert_eq!(core.common_style_of_selection().bold, Some(false));
}

#[test]
fn tooltips_name_each_control_and_the_history_shortcuts() {
    assert_eq!(tooltip_text(ToolbarControl::Bold, "Ctrl"), "Bold");
    assert_eq!(tooltip_text(ToolbarControl::Highlight, "Ctrl"), "Highlight color");
    assert_eq!(tooltip_text(ToolbarControl::Outdent, "Ctrl"), "Decrease indent");
    assert_eq!(tooltip_text(ToolbarControl::Undo, "Ctrl"), "Undo (Ctrl+Z)");
    assert_eq!(tooltip_text(ToolbarControl::Redo, "Cmd"), "Redo (Cmd+Y)");
}

#[test]
fn tooltips_follow_the_config_switch() {
    let on = ToolbarConfig::default();
    assert_eq!(control_tooltip(&on, ToolbarControl::Italic, "Ctrl").as_deref(), Some("Italic"));
    let off = ToolbarConfig::default().with_tooltips(false);
    assert_eq!(control_tooltip(&off, ToolbarControl::Italic, "Ctrl"), None);
}

#[test]
fn click_bold_bolds_selection_through_handle() {
    let mut core = core_over(RichDoc::from_blocks(vec![Block::plain("hello")]));
    // A real selection so the toggle mutates the document (not just pending).
    core.select_all();
    assert_ne!(core.common_style_of_selection().bold, Some(true), "not bold yet");
    assert!(press_control(&mut core, ToolbarControl::Bold).is_none());
    assert_eq!(
        core.common_style_of_selection().bold,
        Some(true),
        "clicking Bold bolded the whole selection"
    );
    assert_eq!(core.plain_text(), "hello", "text unchanged by formatting");
}

#[test]
fn remove_highlight_button_clears_selection_highlight() {
    let mut core = core_over(RichDoc::from_blocks(vec![Block::plain("hi")]));
    core.select_all();
    // Apply a highlight so the selection reports a concrete, uniform colour.
    let yellow = Rgba {
        r: (255.0f32 / 255.0).to_bits(),
        g: (240.0f32 / 255.0).to_bits(),
        b: (60.0f32 / 255.0).to_bits(),
        a: 1.0f32.to_bits(),
    };
    core.exec(&RichCommand::SetHighlight(Some(yellow)));
    assert_eq!(
        core.common_style_of_selection().highlight,
        Some(Some(yellow)),
        "selection is uniformly highlighted before the click"
    );
    // The eraser button is on the first row.
    let row1 = &rows(&ToolbarConfig::default(), false)[0];
    assert!(row1.contains(&ToolbarControl::RemoveHighlight));
    press_control(&mut core, ToolbarControl::RemoveHighlight);
    assert_eq!(
        core.common_style_of_selection().highlight,
        Some(None),
        "the eraser clears the selection's highlight"
    );
}

#[test]
fn drop_mid_preview_cancels_session() {
    let mut core = core_over(RichDoc::from_blocks(vec![Block::plain("hi")]));
    core.select_all();
    // Click the text-colour swatch: the picker opens and a preview begins.
    let plan = press_control(&mut core, ToolbarControl::TextColor);
    assert!(plan.is_some());
    assert!(core.is_previewing(), "opening the swatch begins a preview session");
    let now = picker_dropped(&mut core, PickerKind::TextColor);
    assert_eq!(now, PickerKind::Closed);
    assert!(!core.is_previewing(), "dropping the toolbar mid-preview must cancel the session");
}

#[test]
fn highlight_seed_over_plain_text_is_visible_not_pass_through() {
    let mut core = core_over(RichDoc::from_blocks(vec![Block::plain("hi")]));
    core.select_all();
    // Sanity: a plain selection reports a uniform "no highlight".
    assert_eq!(
        core.common_style_of_selection().highlight,
        Some(None),
        "plain text is uniformly un-highlighted"
    );
    let seed = initial_color(&core, PickerKind::Highlight);
    assert!(f32::from_bits(seed.a) > 0.0, "highlight seed must be opaque, got alpha {}", f32::from_bits(seed.a));
    // The picker is built without a pass-through choice, seeded with that colour.
    let plan = open_picker(&mut core, PickerKind::Highlight).expect("the highlight picker opens");
    assert!(!plan.allow_none, "highlight picker must not open in pass-through");
    assert_eq!(plan.initial, seed);
    assert_eq!(plan.title, "Highlight colour");
}

#[test]
fn undo_and_redo_buttons_step_the_history() {
    let mut core = core_over(RichDoc::from_blocks(vec![Block::plain("hello")]));
    core.select_all();
    core.feed_undo(0);
    press_control(&mut core, ToolbarControl::Bold);
    core.feed_undo(100);
    core.feed_undo(1500);
    press_control(&mut core, ToolbarControl::Undo);
    assert_eq!(core.common_style_of_selection().bold, Some(false));
    press_control(&mut core, ToolbarControl::Redo);
    assert_eq!(core.common_style_of_selection().bold, Some(true));
    assert!(press_control(&mut core, ToolbarControl::FontSize).is_none());
}
