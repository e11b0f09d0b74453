//! Selecting with the pointer: by character, word or block according to
//! the click count, extended by drags and shift-clicks.
use vstd::prelude::*;
use crate::editor::{caret_set, selection_set, selection_spec, RichEditCore};
use crate::position::ordered_spec;
use crate::nav::{block_range_spec, word_range_spec};
use crate::position::{DocPos, pos_le};

verus! {

/// What a pointer drag extends the selection by, set by the click that
/// started it: characters, words (double click) or whole blocks (triple).
#[derive(Clone, Copy, Debug, PartialEq, Eq, Structural)]
pub enum SelectGranularity {
    Char,
    Word,
    Line,
}

/// The state of a pointer selection: its granularity and the range the
/// starting click selected (the pivot a drag extends from).
#[derive(Clone, Copy, Debug)]
pub struct PointerSelection {
    pub granularity: SelectGranularity,
    pub pivot: (DocPos, DocPos),
}

/// The range a unit (word or block) of granularity `g` spans around `t`.
pub open spec fn unit_range(d: Seq<crate::model::BlockView>, g: SelectGranularity, t: DocPos) -> (DocPos, DocPos) {
    if g == SelectGranularity::Line {
        block_range_spec(d, t)
    } else {
        word_range_spec(d, t)
    }
}

impl PointerSelection {
    /// No selection in progress: character granularity, pivot at the start.
    pub fn new() -> (p: Self)
        ensures
            p.granularity == SelectGranularity::Char,
            p.pivot == (DocPos { block: 0, byte: 0 }, DocPos { block: 0, byte: 0 }),
    {
        PointerSelection {
            granularity: SelectGranularity::Char,
            pivot: (DocPos { block: 0, byte: 0 }, DocPos { block: 0, byte: 0 }),
        }
    }

    /// A pointer press at `target` (`clicks` is the multi-click count): with
    /// Shift the selection extends to `target`; a triple click selects the
    /// block, a double click the word, a single click places the caret.
    pub fn begin_pointer_selection(&mut self, core: &mut RichEditCore, target: DocPos, clicks: u32, shift: bool)
        requires
            old(core).wf(),
        ensures
            final(core).wf(),
            shift ==> {
                &&& final(self).granularity == SelectGranularity::Char
                &&& final(self).pivot == (target, target)
                &&& caret_set(old(core)@, target, true, final(core)@)
            },
            !shift && clicks >= 3 ==> {
                let (a, b) = block_range_spec(old(core)@.doc, target);
                &&& final(self).granularity == SelectGranularity::Line
                &&& final(self).pivot == (a, b)
                &&& selection_set(old(core)@, a, b, final(core)@)
            },
            !shift && clicks == 2 ==> {
                let (a, b) = word_range_spec(old(core)@.doc, target);
                &&& final(self).granularity == SelectGranularity::Word
                &&& final(self).pivot == (a, b)
                &&& selection_set(old(core)@, a, b, final(core)@)
            },
            !shift && clicks < 2 ==> {
                &&& final(self).granularity == SelectGranularity::Char
                &&& final(self).pivot == (target, target)
                &&& caret_set(old(core)@, target, false, final(core)@)
            },
    {
        if shift {
            self.granularity = SelectGranularity::Char;
            self.pivot = (target, target);
            core.set_caret(target, true);
            return;
        }
        if clicks >= 3 {
            self.granularity = SelectGranularity::Line;
            let (a, b) = core.block_range_at_pos(target);
            self.pivot = (a, b);
            core.set_selection(a, b);
        } else if clicks == 2 {
            self.granularity = SelectGranularity::Word;
            let (a, b) = core.word_range_at_pos(target);
            self.pivot = (a, b);
            core.set_selection(a, b);
        } else {
            self.granularity = SelectGranularity::Char;
            self.pivot = (target, target);
            core.set_caret(target, false);
        }
    }

    /// A drag to `target`: by characters the caret follows; by words or
    /// blocks the selection runs from the far end of the pivot to the far end
    /// of the unit under `target`.
    pub fn extend_selection_drag(&self, core: &mut RichEditCore, target: DocPos)
        requires
            old(core).wf(),
        ensures
            final(core).wf(),
            self.granularity == SelectGranularity::Char ==> caret_set(old(core)@, target, true, final(core)@),
            self.granularity != SelectGranularity::Char ==> {
                let (ps, pe) = self.pivot;
                let (cs, ce) = unit_range(old(core)@.doc, self.granularity, target);
                if pos_le(pe, target) {
                    selection_set(old(core)@, ps, ce, final(core)@)
                } else {
                    selection_set(old(core)@, pe, cs, final(core)@)
                }
            },
    {
        match self.granularity {
            SelectGranularity::Char => core.set_caret(target, true),
            SelectGranularity::Word => {
                let (ps, pe) = self.pivot;
                let (cs, ce) = core.word_range_at_pos(target);
                if pe.le(&target) {
                    core.set_selection(ps, ce);
                } else {
                    core.set_selection(pe, cs);
                }
            },
            SelectGranularity::Line => {
                let (ps, pe) = self.pivot;
                let (cs, ce) = core.block_range_at_pos(target);
                if pe.le(&target) {
                    core.set_selection(ps, ce);
                } else {
                    core.set_selection(pe, cs);
                }
            },
        }
    }
}

impl RichEditCore {
    /// Whether `pos` lies inside a non-empty selection (its ends included).
    pub fn selection_contains(&self, pos: DocPos) -> (b: bool)
        ensures
            b == ({
                let (lo, hi) = ordered_spec(selection_spec(self@));
                self@.anchor != self@.caret && pos_le(lo, pos) && pos_le(pos, hi)
            }),
    {
        let sel = self.selection();
        let (lo, hi) = sel.ordered();
        !sel.is_empty() && lo.le(&pos) && pos.le(&hi)
    }

    /// A secondary click at `target` before the context menu opens: outside
    /// the selection it places the caret there; inside, the selection stays.
    /// Returns whether there is a selection for the menu's Cut and Copy.
    pub fn context_click(&mut self, target: DocPos) -> (has_selection: bool)
        requires
            old(self).wf(),
        ensures
            final(self).wf(),
            ({
                let (lo, hi) = ordered_spec(selection_spec(old(self)@));
                let inside = old(self)@.anchor != old(self)@.caret && pos_le(lo, target) && pos_le(target, hi);
                &&& inside ==> final(self)@ == old(self)@
                &&& !inside ==> caret_set(old(self)@, target, false, final(self)@)
            }),
            has_selection == (final(self)@.anchor != final(self)@.caret),
    {
        if !self.selection_contains(target) {
            self.set_caret(target, false);
        }
        !self.selection().is_empty()
    }
}

} // verus!
