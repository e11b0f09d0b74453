//! Opening, previewing and closing the colour picker for text colour and
//! highlight.
use vstd::prelude::*;
use crate::commands::RichCommand;
use crate::editor::{executed, preview_begun, preview_cancelled, selection_common_spec, CoreView, RichEditCore};
use crate::style::Rgba;

verus! {

/// Which colour the toolbar's floating picker is editing, if any.
#[derive(Clone, Copy, Debug, PartialEq, Eq, Structural)]
pub enum PickerKind {
    /// No picker is open.
    Closed,
    TextColor,
    Highlight,
}

/// How a picker dialog was closed without its own buttons.
#[derive(Clone, Copy, Debug, PartialEq, Eq, Structural)]
pub enum CloseReason {
    /// A click outside the dialog.
    ClickAway,
    /// The window's close button.
    CloseButton,
    /// The Escape key.
    Escape,
}

/// The colour a text-colour picker opens on when the selection has none in
/// common: `rgb(0.2, 0.45, 0.88)`, opaque.
pub open spec fn default_text_color() -> Rgba {
    Rgba { r: 0x3e4ccccd, g: 0x3ee66666, b: 0x3f6147ae, a: 0x3f800000 }
}

/// The colour a highlight picker opens on when the selection has none in
/// common: `rgb(1.0, 0.92, 0.23)`, opaque, so that applying it highlights.
pub open spec fn default_highlight() -> Rgba {
    Rgba { r: 0x3f800000, g: 0x3f6b851f, b: 0x3e6b851f, a: 0x3f800000 }
}

/// The colour a picker for `kind` opens on in state `v`: the colour the
/// whole selection shares, else the default for that kind.
pub open spec fn initial_color_spec(v: CoreView, kind: PickerKind) -> Rgba {
    let cs = selection_common_spec(v);
    match kind {
        PickerKind::Highlight => match cs.highlight {
            Some(Some(c)) => c,
            _ => default_highlight(),
        },
        PickerKind::TextColor => match cs.text_color {
            Some(Some(c)) => c,
            _ => default_text_color(),
        },
        PickerKind::Closed => default_text_color(),
    }
}

/// How to build an open picker dialog.
#[derive(Debug)]
pub struct PickerPlan {
    /// Whether the dialog offers a "no colour" choice.
    pub allow_none: bool,
    /// Whether the dialog edits the alpha channel.
    pub show_alpha: bool,
    /// The colour the dialog opens on.
    pub initial: Rgba,
    /// The dialog's title.
    pub title: String,
}

/// Opening the picker for `kind` on state `v` gave state `w` and `plan`:
/// for no picker nothing; otherwise a preview session begun and a plan with
/// no "no colour" choice, alpha shown, seeded with the initial colour and
/// titled after the colour it picks.
pub open spec fn picker_opened(v: CoreView, kind: PickerKind, w: CoreView, plan: Option<PickerPlan>) -> bool {
    if kind == PickerKind::Closed {
        plan is None && w == v
    } else {
        &&& preview_begun(v, w)
        &&& plan matches Some(p)
        &&& !p.allow_none
        &&& p.show_alpha
        &&& p.initial == initial_color_spec(v, kind)
        &&& p.title@ == (if kind == PickerKind::Highlight {
            "Highlight colour"@
        } else {
            "Text colour"@
        })
    }
}

/// The toolbar went away: a picker it had open is abandoned as if cancelled,
/// restoring the state the dialog opened on; the toolbar's picker is then
/// closed.
pub fn picker_dropped(core: &mut RichEditCore, open: PickerKind) -> (now: PickerKind)
    requires
        old(core).wf(),
    ensures
        final(core).wf(),
        now == PickerKind::Closed,
        open != PickerKind::Closed ==> preview_cancelled(old(core)@, final(core)@),
        open == PickerKind::Closed ==> final(core)@ == old(core)@,
{
    if open != PickerKind::Closed {
        core.cancel_preview();
    }
    PickerKind::Closed
}

/// The colour a picker for `kind` opens on.
pub fn initial_color(core: &RichEditCore, kind: PickerKind) -> (c: Rgba)
    requires
        core.wf(),
    ensures
        c == initial_color_spec(core@, kind),
{
    let cs = core.common_style_of_selection();
    match kind {
        PickerKind::Highlight => match cs.highlight {
            Some(Some(c)) => c,
            _ => Rgba { r: 0x3f800000, g: 0x3f6b851f, b: 0x3e6b851f, a: 0x3f800000 },
        },
        PickerKind::TextColor => match cs.text_color {
            Some(Some(c)) => c,
            _ => Rgba { r: 0x3e4ccccd, g: 0x3ee66666, b: 0x3f6147ae, a: 0x3f800000 },
        },
        PickerKind::Closed => Rgba { r: 0x3e4ccccd, g: 0x3ee66666, b: 0x3f6147ae, a: 0x3f800000 },
    }
}

/// Open the picker for `kind`: a live preview session starts on the editor
/// and the plan for the dialog comes back: no "no colour" choice, alpha
/// shown, seeded with [`initial_color`], titled after the colour it picks. With no picker to open nothing
/// happens.
pub fn open_picker(core: &mut RichEditCore, kind: PickerKind) -> (plan: Option<PickerPlan>)
    requires
        old(core).wf(),
    ensures
        final(core).wf(),
        picker_opened(old(core)@, kind, final(core)@, plan),
{
    if kind == PickerKind::Closed {
        return None;
    }
    core.begin_preview();
    let initial = initial_color(core, kind);
    let title = match kind {
        PickerKind::Highlight => "Highlight colour".to_owned(),
        _ => "Text colour".to_owned(),
    };
    Some(PickerPlan { allow_none: false, show_alpha: true, initial, title })
}

/// Apply a picked colour for `kind` to the selection: a text colour only
/// when one was picked; a highlight as picked (none clears it).
pub fn apply_color(core: &mut RichEditCore, kind: PickerKind, picked: Option<Rgba>)
    requires
        old(core).wf(),
    ensures
        final(core).wf(),
        match kind {
            PickerKind::TextColor => match picked {
                Some(c) => executed(old(core)@, RichCommand::SetTextColor(c), final(core)@),
                None => final(core)@ == old(core)@,
            },
            PickerKind::Highlight => executed(old(core)@, RichCommand::SetHighlight(picked), final(core)@),
            PickerKind::Closed => final(core)@ == old(core)@,
        },
{
    match kind {
        PickerKind::TextColor => {
            if let Some(c) = picked {
                core.exec(&RichCommand::SetTextColor(c));
            }
        },
        PickerKind::Highlight => core.exec(&RichCommand::SetHighlight(picked)),
        PickerKind::Closed => {},
    }
}

/// The dialog closed by other means than its buttons: a click away keeps a
/// preview that changed the document, anything else restores the state the
/// dialog opened on.
pub fn close_picker(core: &mut RichEditCore, reason: CloseReason)
    requires
        old(core).wf(),
    ensures
        final(core).wf(),
        reason == CloseReason::ClickAway && old(core)@.preview_dirty ==> final(core)@ == (CoreView {
            saved: None,
            preview_dirty: false,
            ..old(core)@
        }),
        !(reason == CloseReason::ClickAway && old(core)@.preview_dirty) ==> preview_cancelled(
            old(core)@,
            final(core)@,
        ),
{
    if reason == CloseReason::ClickAway && core.is_preview_dirty() {
        core.commit_preview();
    } else {
        core.cancel_preview();
    }
}

} // verus!
