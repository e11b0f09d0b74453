//! The formatting toolbar: which controls it shows, in which rows, and
//! what state each reflects.
use vstd::prelude::*;
use crate::align::TextHAlign;
use crate::commands::{CommonStyle, RichCommand};
use crate::model::ListKind;
use crate::text::string_push_str;
use crate::editor::{executed, redo_result, undo_result, RichEditCore};
use crate::picker::{open_picker, picker_opened, PickerKind, PickerPlan};

verus! {

/// Which control groups a formatting toolbar shows.
#[derive(Clone, Copy, Debug, PartialEq, Eq, Structural)]
pub struct ToolbarConfig {
    pub bold: bool,
    pub italic: bool,
    pub underline: bool,
    pub strikethrough: bool,
    pub alignment: bool,
    pub lists: bool,
    pub indent: bool,
    pub history: bool,
    pub font_size: bool,
    pub text_color: bool,
    pub highlight: bool,
    /// A hover tooltip on every control.
    pub tooltips: bool,
}

impl Default for ToolbarConfig {
    /// Every group shown.
    fn default() -> (c: Self)
        ensures
            c == (ToolbarConfig {
                bold: true,
                italic: true,
                underline: true,
                strikethrough: true,
                alignment: true,
                lists: true,
                indent: true,
                history: true,
                font_size: true,
                text_color: true,
                highlight: true,
                tooltips: true,
            }),
    {
        ToolbarConfig {
            bold: true,
            italic: true,
            underline: true,
            strikethrough: true,
            alignment: true,
            lists: true,
            indent: true,
            history: true,
            font_size: true,
            text_color: true,
            highlight: true,
            tooltips: true,
        }
    }
}

impl ToolbarConfig {
    /// Show or hide the Bold toggle.
    pub fn with_bold(self, on: bool) -> (c: Self)
        ensures
            c == (ToolbarConfig { bold: on, ..self }),
    {
        ToolbarConfig { bold: on, ..self }
    }

    /// Show or hide the Italic toggle.
    pub fn with_italic(self, on: bool) -> (c: Self)
        ensures
            c == (ToolbarConfig { italic: on, ..self }),
    {
        ToolbarConfig { italic: on, ..self }
    }

    /// Show or hide the Underline toggle.
    pub fn with_underline(self, on: bool) -> (c: Self)
        ensures
            c == (ToolbarConfig { underline: on, ..self }),
    {
        ToolbarConfig { underline: on, ..self }
    }

    /// Show or hide the Strikethrough toggle.
    pub fn with_strikethrough(self, on: bool) -> (c: Self)
        ensures
            c == (ToolbarConfig { strikethrough: on, ..self }),
    {
        ToolbarConfig { strikethrough: on, ..self }
    }

    /// Show or hide the three alignment toggles.
    pub fn with_alignment(self, on: bool) -> (c: Self)
        ensures
            c == (ToolbarConfig { alignment: on, ..self }),
    {
        ToolbarConfig { alignment: on, ..self }
    }

    /// Show or hide the two list toggles.
    pub fn with_lists(self, on: bool) -> (c: Self)
        ensures
            c == (ToolbarConfig { lists: on, ..self }),
    {
        ToolbarConfig { lists: on, ..self }
    }

    /// Show or hide the outdent and indent buttons.
    pub fn with_indent(self, on: bool) -> (c: Self)
        ensures
            c == (ToolbarConfig { indent: on, ..self }),
    {
        ToolbarConfig { indent: on, ..self }
    }

    /// Show or hide the undo and redo buttons.
    pub fn with_history(self, on: bool) -> (c: Self)
        ensures
            c == (ToolbarConfig { history: on, ..self }),
    {
        ToolbarConfig { history: on, ..self }
    }

    /// Show or hide the font-size dropdown.
    pub fn with_font_size_combo(self, on: bool) -> (c: Self)
        ensures
            c == (ToolbarConfig { font_size: on, ..self }),
    {
        ToolbarConfig { font_size: on, ..self }
    }

    /// Show or hide both colour swatches.
    pub fn with_colors(self, on: bool) -> (c: Self)
        ensures
            c == (ToolbarConfig { text_color: on, highlight: on, ..self }),
    {
        ToolbarConfig { text_color: on, highlight: on, ..self }
    }

    /// Show or hide the hover tooltips.
    pub fn with_tooltips(self, on: bool) -> (c: Self)
        ensures
            c == (ToolbarConfig { tooltips: on, ..self }),
    {
        ToolbarConfig { tooltips: on, ..self }
    }
}

/// One control of the formatting toolbar.
#[derive(Clone, Copy, Debug, PartialEq, Eq, Structural)]
pub enum ToolbarControl {
    Bold,
    Italic,
    Underline,
    Strikethrough,
    FontFamily,
    FontSize,
    TextColor,
    Highlight,
    RemoveHighlight,
    AlignLeft,
    AlignCenter,
    AlignRight,
    NumberedList,
    BulletedList,
    Outdent,
    Indent,
    Undo,
    Redo,
}

/// The kind of widget a control is.
#[derive(Clone, Copy, Debug, PartialEq, Eq, Structural)]
pub enum ControlWidget {
    Button,
    ComboBox,
}

/// `s` when `on`, else nothing.
pub open spec fn when(on: bool, s: Seq<ToolbarControl>) -> Seq<ToolbarControl> {
    if on {
        s
    } else {
        Seq::empty()
    }
}

/// Row 1: the inline toggles, the family dropdown (with a family list), the
/// size dropdown, and the colour controls.
pub open spec fn row1_spec(c: ToolbarConfig, families: bool) -> Seq<ToolbarControl> {
    when(c.bold, seq![ToolbarControl::Bold]) + when(c.italic, seq![ToolbarControl::Italic]) + when(
        c.underline,
        seq![ToolbarControl::Underline],
    ) + when(c.strikethrough, seq![ToolbarControl::Strikethrough]) + when(
        families,
        seq![ToolbarControl::FontFamily],
    ) + when(c.font_size, seq![ToolbarControl::FontSize]) + when(
        c.text_color,
        seq![ToolbarControl::TextColor],
    ) + when(c.highlight, seq![ToolbarControl::Highlight, ToolbarControl::RemoveHighlight])
}

/// Row 2: alignment, lists, indent and history.
pub open spec fn row2_spec(c: ToolbarConfig) -> Seq<ToolbarControl> {
    when(
        c.alignment,
        seq![ToolbarControl::AlignLeft, ToolbarControl::AlignCenter, ToolbarControl::AlignRight],
    ) + when(c.lists, seq![ToolbarControl::NumberedList, ToolbarControl::BulletedList]) + when(
        c.indent,
        seq![ToolbarControl::Outdent, ToolbarControl::Indent],
    ) + when(c.history, seq![ToolbarControl::Undo, ToolbarControl::Redo])
}

fn push_when(v: &mut Vec<ToolbarControl>, on: bool, a: ToolbarControl)
    ensures
        final(v)@ == old(v)@ + when(on, seq![a]),
{
    if on {
        v.push(a);
    } else {
        assert(old(v)@ + when(on, seq![a]) =~= old(v)@);
    }
}

fn push_two_when(v: &mut Vec<ToolbarControl>, on: bool, a: ToolbarControl, b: ToolbarControl)
    ensures
        final(v)@ == old(v)@ + when(on, seq![a, b]),
{
    if on {
        v.push(a);
        v.push(b);
        assert(final(v)@ =~= old(v)@ + seq![a, b]);
    } else {
        assert(old(v)@ + when(on, seq![a, b]) =~= old(v)@);
    }
}

/// The controls of row 1, in order.
pub fn row1(c: &ToolbarConfig, families: bool) -> (r: Vec<ToolbarControl>)
    ensures
        r@ == row1_spec(*c, families),
{
    let mut v: Vec<ToolbarControl> = Vec::new();
    push_when(&mut v, c.bold, ToolbarControl::Bold);
    push_when(&mut v, c.italic, ToolbarControl::Italic);
    push_when(&mut v, c.underline, ToolbarControl::Underline);
    push_when(&mut v, c.strikethrough, ToolbarControl::Strikethrough);
    push_when(&mut v, families, ToolbarControl::FontFamily);
    push_when(&mut v, c.font_size, ToolbarControl::FontSize);
    push_when(&mut v, c.text_color, ToolbarControl::TextColor);
    push_two_when(&mut v, c.highlight, ToolbarControl::Highlight, ToolbarControl::RemoveHighlight);
    assert(v@ =~= row1_spec(*c, families));
    v
}

/// The controls of row 2, in order.
pub fn row2(c: &ToolbarConfig) -> (r: Vec<ToolbarControl>)
    ensures
        r@ == row2_spec(*c),
{
    let mut v: Vec<ToolbarControl> = Vec::new();
    push_two_when(&mut v, c.alignment, ToolbarControl::AlignLeft, ToolbarControl::AlignCenter);
    push_when(&mut v, c.alignment, ToolbarControl::AlignRight);
    proof {
        assert(when(c.alignment, seq![ToolbarControl::AlignLeft, ToolbarControl::AlignCenter]) + when(
            c.alignment,
            seq![ToolbarControl::AlignRight],
        ) =~= when(
            c.alignment,
            seq![ToolbarControl::AlignLeft, ToolbarControl::AlignCenter, ToolbarControl::AlignRight],
        ));
    }
    push_two_when(&mut v, c.lists, ToolbarControl::NumberedList, ToolbarControl::BulletedList);
    push_two_when(&mut v, c.indent, ToolbarControl::Outdent, ToolbarControl::Indent);
    push_two_when(&mut v, c.history, ToolbarControl::Undo, ToolbarControl::Redo);
    assert(v@ =~= row2_spec(*c));
    v
}

/// The toolbar's rows, in order, leaving out a row with no controls.
pub fn rows(c: &ToolbarConfig, families: bool) -> (r: Vec<Vec<ToolbarControl>>)
    ensures
        r@.len() == (if row1_spec(*c, families).len() > 0 { 1int } else { 0 }) + (if row2_spec(
            *c,
        ).len() > 0 {
            1int
        } else {
            0
        }),
        row1_spec(*c, families).len() > 0 ==> r@[0]@ == row1_spec(*c, families),
        row2_spec(*c).len() > 0 ==> r@[r@.len() - 1]@ == row2_spec(*c),
{
    let mut out: Vec<Vec<ToolbarControl>> = Vec::new();
    let a = row1(c, families);
    if a.len() > 0 {
        out.push(a);
    }
    let b = row2(c);
    if b.len() > 0 {
        out.push(b);
    }
    out
}

/// Whether the toolbar hosts the colour-picker overlay: when either colour
/// swatch is shown.
pub fn has_color_overlay(c: &ToolbarConfig) -> (b: bool)
    ensures
        b == (c.text_color || c.highlight),
{
    c.text_color || c.highlight
}

/// The widget a control is built as: the two dropdowns are combo boxes, all
/// others buttons.
pub fn control_widget(k: ToolbarControl) -> (w: ControlWidget)
    ensures
        w == (if k == ToolbarControl::FontFamily || k == ToolbarControl::FontSize {
            ControlWidget::ComboBox
        } else {
            ControlWidget::Button
        }),
{
    match k {
        ToolbarControl::FontFamily | ToolbarControl::FontSize => ControlWidget::ComboBox,
        _ => ControlWidget::Button,
    }
}

/// The command a control's click sends, for the controls that send one.
pub open spec fn control_command_spec(k: ToolbarControl) -> Option<RichCommand> {
    match k {
        ToolbarControl::Bold => Some(RichCommand::ToggleBold),
        ToolbarControl::Italic => Some(RichCommand::ToggleItalic),
        ToolbarControl::Underline => Some(RichCommand::ToggleUnderline),
        ToolbarControl::Strikethrough => Some(RichCommand::ToggleStrikethrough),
        ToolbarControl::RemoveHighlight => Some(RichCommand::SetHighlight(None)),
        ToolbarControl::AlignLeft => Some(RichCommand::SetAlign(TextHAlign::Left)),
        ToolbarControl::AlignCenter => Some(RichCommand::SetAlign(TextHAlign::Center)),
        ToolbarControl::AlignRight => Some(RichCommand::SetAlign(TextHAlign::Right)),
        ToolbarControl::NumberedList => Some(RichCommand::SetList(ListKind::Ordered)),
        ToolbarControl::BulletedList => Some(RichCommand::SetList(ListKind::Bullet)),
        ToolbarControl::Outdent => Some(RichCommand::Outdent),
        ToolbarControl::Indent => Some(RichCommand::Indent),
        _ => None,
    }
}

/// The command a control's click sends (none for the dropdowns, the colour
/// swatches, which open a picker, and undo/redo, which step the history).
pub fn control_command(k: ToolbarControl) -> (c: Option<RichCommand>)
    ensures
        c == control_command_spec(k),
{
    match k {
        ToolbarControl::Bold => Some(RichCommand::ToggleBold),
        ToolbarControl::Italic => Some(RichCommand::ToggleItalic),
        ToolbarControl::Underline => Some(RichCommand::ToggleUnderline),
        ToolbarControl::Strikethrough => Some(RichCommand::ToggleStrikethrough),
        ToolbarControl::RemoveHighlight => Some(RichCommand::SetHighlight(None)),
        ToolbarControl::AlignLeft => Some(RichCommand::SetAlign(TextHAlign::Left)),
        ToolbarControl::AlignCenter => Some(RichCommand::SetAlign(TextHAlign::Center)),
        ToolbarControl::AlignRight => Some(RichCommand::SetAlign(TextHAlign::Right)),
        ToolbarControl::NumberedList => Some(RichCommand::SetList(ListKind::Ordered)),
        ToolbarControl::BulletedList => Some(RichCommand::SetList(ListKind::Bullet)),
        ToolbarControl::Outdent => Some(RichCommand::Outdent),
        ToolbarControl::Indent => Some(RichCommand::Indent),
        _ => None,
    }
}

/// Whether a control shows as active for the selection's style summary: an
/// inline toggle when the whole selection has the attribute, an alignment or
/// list toggle when every touched block has that alignment or list kind.
pub fn control_active(k: ToolbarControl, cs: &CommonStyle) -> (b: bool)
    ensures
        b == match k {
            ToolbarControl::Bold => cs.bold == Some(true),
            ToolbarControl::Italic => cs.italic == Some(true),
            ToolbarControl::Underline => cs.underline == Some(true),
            ToolbarControl::Strikethrough => cs.strikethrough == Some(true),
            ToolbarControl::AlignLeft => cs.align == Some(TextHAlign::Left),
            ToolbarControl::AlignCenter => cs.align == Some(TextHAlign::Center),
            ToolbarControl::AlignRight => cs.align == Some(TextHAlign::Right),
            ToolbarControl::NumberedList => cs.list == Some(ListKind::Ordered),
            ToolbarControl::BulletedList => cs.list == Some(ListKind::Bullet),
            _ => false,
        },
{
    match k {
        ToolbarControl::Bold => cs.bold == Some(true),
        ToolbarControl::Italic => cs.italic == Some(true),
        ToolbarControl::Underline => cs.underline == Some(true),
        ToolbarControl::Strikethrough => cs.strikethrough == Some(true),
        ToolbarControl::AlignLeft => cs.align == Some(TextHAlign::Left),
        ToolbarControl::AlignCenter => cs.align == Some(TextHAlign::Center),
        ToolbarControl::AlignRight => cs.align == Some(TextHAlign::Right),
        ToolbarControl::NumberedList => cs.list == Some(ListKind::Ordered),
        ToolbarControl::BulletedList => cs.list == Some(ListKind::Bullet),
        _ => false,
    }
}

/// The hover text of a control. Undo and Redo name their key binding with
/// the platform's primary modifier `m` (such as "Ctrl").
pub open spec fn tooltip_spec(k: ToolbarControl, m: Seq<char>) -> Seq<char> {
    match k {
        ToolbarControl::Bold => "Bold"@,
        ToolbarControl::Italic => "Italic"@,
        ToolbarControl::Underline => "Underline"@,
        ToolbarControl::Strikethrough => "Strikethrough"@,
        ToolbarControl::FontFamily => "Font family"@,
        ToolbarControl::FontSize => "Font size"@,
        ToolbarControl::TextColor => "Text color"@,
        ToolbarControl::Highlight => "Highlight color"@,
        ToolbarControl::RemoveHighlight => "Remove highlight"@,
        ToolbarControl::AlignLeft => "Align left"@,
        ToolbarControl::AlignCenter => "Align center"@,
        ToolbarControl::AlignRight => "Align right"@,
        ToolbarControl::NumberedList => "Numbered list"@,
        ToolbarControl::BulletedList => "Bulleted list"@,
        ToolbarControl::Outdent => "Decrease indent"@,
        ToolbarControl::Indent => "Increase indent"@,
        ToolbarControl::Undo => "Undo ("@ + m + "+Z)"@,
        ToolbarControl::Redo => "Redo ("@ + m + "+Y)"@,
    }
}

/// A new string holding the characters of `t`.
fn owned(t: &str) -> (s: String)
    ensures
        s@ == t@,
{
    let mut s = String::new();
    string_push_str(&mut s, t);
    proof {
        assert(Seq::<char>::empty() + t@ =~= t@);
    }
    s
}

/// The hover text of control `k`, with `modifier` the platform's primary
/// modifier key name.
pub fn tooltip_text(k: ToolbarControl, modifier: &str) -> (t: String)
    ensures
        t@ == tooltip_spec(k, modifier@),
{
    match k {
        ToolbarControl::Bold => owned("Bold"),
        ToolbarControl::Italic => owned("Italic"),
        ToolbarControl::Underline => owned("Underline"),
        ToolbarControl::Strikethrough => owned("Strikethrough"),
        ToolbarControl::FontFamily => owned("Font family"),
        ToolbarControl::FontSize => owned("Font size"),
        ToolbarControl::TextColor => owned("Text color"),
        ToolbarControl::Highlight => owned("Highlight color"),
        ToolbarControl::RemoveHighlight => owned("Remove highlight"),
        ToolbarControl::AlignLeft => owned("Align left"),
        ToolbarControl::AlignCenter => owned("Align center"),
        ToolbarControl::AlignRight => owned("Align right"),
        ToolbarControl::NumberedList => owned("Numbered list"),
        ToolbarControl::BulletedList => owned("Bulleted list"),
        ToolbarControl::Outdent => owned("Decrease indent"),
        ToolbarControl::Indent => owned("Increase indent"),
        ToolbarControl::Undo => {
            let mut s = owned("Undo (");
            string_push_str(&mut s, modifier);
            string_push_str(&mut s, "+Z)");
            s
        },
        ToolbarControl::Redo => {
            let mut s = owned("Redo (");
            string_push_str(&mut s, modifier);
            string_push_str(&mut s, "+Y)");
            s
        },
    }
}

/// The tooltip a control gets: its hover text when the toolbar shows
/// tooltips, none otherwise.
pub fn control_tooltip(c: &ToolbarConfig, k: ToolbarControl, modifier: &str) -> (t: Option<String>)
    ensures
        match t {
            Some(s) => c.tooltips && s@ == tooltip_spec(k, modifier@),
            None => !c.tooltips,
        },
{
    if c.tooltips {
        Some(tooltip_text(k, modifier))
    } else {
        None
    }
}

/// A click on control `k`: a command button runs its command on the
/// editor, Undo and Redo step the history, the colour swatches open their
/// picker (returning its plan); the dropdowns act on a choice, not a click,
/// and leave the editor as it is.
pub fn press_control(core: &mut RichEditCore, k: ToolbarControl) -> (plan: Option<PickerPlan>)
    requires
        old(core).wf(),
    ensures
        final(core).wf(),
        match control_command_spec(k) {
            Some(cmd) => executed(old(core)@, cmd, final(core)@) && plan is None,
            None => match k {
                ToolbarControl::Undo => final(core)@ == undo_result(old(core)@) && plan is None,
                ToolbarControl::Redo => final(core)@ == redo_result(old(core)@) && plan is None,
                ToolbarControl::TextColor => picker_opened(old(core)@, PickerKind::TextColor, final(core)@, plan),
                ToolbarControl::Highlight => picker_opened(old(core)@, PickerKind::Highlight, final(core)@, plan),
                _ => final(core)@ == old(core)@ && plan is None,
            },
        },
{
    match control_command(k) {
        Some(cmd) => {
            core.exec(&cmd);
            None
        },
        None => match k {
            ToolbarControl::Undo => {
                core.undo();
                None
            },
            ToolbarControl::Redo => {
                core.redo();
                None
            },
            ToolbarControl::TextColor => open_picker(core, PickerKind::TextColor),
            ToolbarControl::Highlight => open_picker(core, PickerKind::Highlight),
            _ => None,
        },
    }
}

} // verus!
