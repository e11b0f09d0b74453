//! Key bindings and key handling for the editing core.
use vstd::prelude::*;
use vstd::utf8::*;
use crate::commands::RichCommand;
use crate::docview::doc_len;
use crate::editor::{redo_result, undo_result, all_selected, backspaced, caret_set, deleted_forward, entered, executed, extracted, selected_chars, selection_spec, typed, word_deleted_backward, word_deleted_forward, CoreView, RichEditCore};
use crate::model::{Block, BlockView, block_len, doc_blocks};
use crate::nav::{char_target_spec, word_target_spec};
use crate::position::DocPos;
use crate::text::{char_string, lemma_char_bytes};

verus! {

/// A key press as the editor sees it.
#[derive(Clone, Copy, Debug, PartialEq, Eq, Structural)]
pub enum Key {
    ArrowLeft,
    ArrowRight,
    ArrowUp,
    ArrowDown,
    Home,
    End,
    PageUp,
    PageDown,
    Backspace,
    Delete,
    Enter,
    Tab,
    /// A character key.
    Char(char),
    /// Any key the editor has no use for.
    Other,
}

/// The modifier keys held with a key press.
#[derive(Clone, Copy, Debug, PartialEq, Eq, Structural)]
pub struct Modifiers {
    pub shift: bool,
    pub ctrl: bool,
    pub alt: bool,
    pub meta: bool,
}

/// A caret motion.
#[derive(Clone, Copy, Debug, PartialEq, Eq, Structural)]
pub enum Motion {
    CharLeft,
    CharRight,
    WordLeft,
    WordRight,
    LineUp,
    LineDown,
    LineStart,
    LineEnd,
    DocStart,
    DocEnd,
    PageUp,
    PageDown,
}

/// What a key press asks of the editor.
#[derive(Clone, Copy, Debug, PartialEq, Eq, Structural)]
pub enum KeyCommand {
    /// Move the caret; `true` extends the selection.
    Move(Motion, bool),
    Backspace,
    Delete,
    DeleteWordBackward,
    DeleteWordForward,
    Enter,
    Indent,
    Outdent,
    SelectAll,
    Copy,
    Cut,
    Paste,
    Undo,
    Redo,
    /// Type one character.
    Insert(char),
    /// Not the editor's key: let it through.
    Ignored,
}

/// The editor's key bindings. Ctrl or Meta make a key a command: arrows move
/// by words, Home/End go to the document ends, and `A`/`C`/`X`/`V`/`Z`/`Y`
/// select all, copy, cut, paste, undo (redo with Shift) and redo. Ctrl or
/// Alt make Backspace/Delete delete by words. Tab indents, Shift+Tab
/// outdents, and Tab with Ctrl or Meta is left to focus traversal. Shift
/// with a motion extends the selection. Other characters are typed.
pub open spec fn key_command_spec(key: Key, m: Modifiers) -> KeyCommand {
    let cmd = m.ctrl || m.meta;
    let by_word = m.ctrl || m.alt;
    match key {
        Key::ArrowLeft => KeyCommand::Move(if cmd { Motion::WordLeft } else { Motion::CharLeft }, m.shift),
        Key::ArrowRight => KeyCommand::Move(if cmd { Motion::WordRight } else { Motion::CharRight }, m.shift),
        Key::ArrowUp => KeyCommand::Move(Motion::LineUp, m.shift),
        Key::ArrowDown => KeyCommand::Move(Motion::LineDown, m.shift),
        Key::Home => KeyCommand::Move(if cmd { Motion::DocStart } else { Motion::LineStart }, m.shift),
        Key::End => KeyCommand::Move(if cmd { Motion::DocEnd } else { Motion::LineEnd }, m.shift),
        Key::PageUp => KeyCommand::Move(Motion::PageUp, m.shift),
        Key::PageDown => KeyCommand::Move(Motion::PageDown, m.shift),
        Key::Backspace => if by_word { KeyCommand::DeleteWordBackward } else { KeyCommand::Backspace },
        Key::Delete => if by_word { KeyCommand::DeleteWordForward } else { KeyCommand::Delete },
        Key::Enter => KeyCommand::Enter,
        Key::Tab => if cmd {
            KeyCommand::Ignored
        } else if m.shift {
            KeyCommand::Outdent
        } else {
            KeyCommand::Indent
        },
        Key::Char(c) => if !cmd {
            KeyCommand::Insert(c)
        } else if c == 'a' || c == 'A' {
            KeyCommand::SelectAll
        } else if c == 'c' || c == 'C' {
            KeyCommand::Copy
        } else if c == 'x' || c == 'X' {
            KeyCommand::Cut
        } else if c == 'v' || c == 'V' {
            KeyCommand::Paste
        } else if c == 'z' || c == 'Z' {
            if m.shift {
                KeyCommand::Redo
            } else {
                KeyCommand::Undo
            }
        } else if c == 'y' || c == 'Y' {
            KeyCommand::Redo
        } else {
            KeyCommand::Ignored
        },
        Key::Other => KeyCommand::Ignored,
    }
}

/// What the editor asks of a key press.
pub fn key_command(key: Key, m: Modifiers) -> (c: KeyCommand)
    ensures
        c == key_command_spec(key, m),
{
    let cmd = m.ctrl || m.meta;
    let by_word = m.ctrl || m.alt;
    match key {
        Key::ArrowLeft => KeyCommand::Move(if cmd { Motion::WordLeft } else { Motion::CharLeft }, m.shift),
        Key::ArrowRight => KeyCommand::Move(if cmd { Motion::WordRight } else { Motion::CharRight }, m.shift),
        Key::ArrowUp => KeyCommand::Move(Motion::LineUp, m.shift),
        Key::ArrowDown => KeyCommand::Move(Motion::LineDown, m.shift),
        Key::Home => KeyCommand::Move(if cmd { Motion::DocStart } else { Motion::LineStart }, m.shift),
        Key::End => KeyCommand::Move(if cmd { Motion::DocEnd } else { Motion::LineEnd }, m.shift),
        Key::PageUp => KeyCommand::Move(Motion::PageUp, m.shift),
        Key::PageDown => KeyCommand::Move(Motion::PageDown, m.shift),
        Key::Backspace => if by_word { KeyCommand::DeleteWordBackward } else { KeyCommand::Backspace },
        Key::Delete => if by_word { KeyCommand::DeleteWordForward } else { KeyCommand::Delete },
        Key::Enter => KeyCommand::Enter,
        Key::Tab => if cmd {
            KeyCommand::Ignored
        } else if m.shift {
            KeyCommand::Outdent
        } else {
            KeyCommand::Indent
        },
        Key::Char(c) => if !cmd {
            KeyCommand::Insert(c)
        } else if c == 'a' || c == 'A' {
            KeyCommand::SelectAll
        } else if c == 'c' || c == 'C' {
            KeyCommand::Copy
        } else if c == 'x' || c == 'X' {
            KeyCommand::Cut
        } else if c == 'v' || c == 'V' {
            KeyCommand::Paste
        } else if c == 'z' || c == 'Z' {
            if m.shift {
                KeyCommand::Redo
            } else {
                KeyCommand::Undo
            }
        } else if c == 'y' || c == 'Y' {
            KeyCommand::Redo
        } else {
            KeyCommand::Ignored
        },
        Key::Other => KeyCommand::Ignored,
    }
}

/// What is left for the caller after the editor handled a key: nothing, a
/// caret motion that needs the laid-out lines, clipboard text to write
/// (with the styled fragment for the rich clipboard), or a paste to perform
/// with the clipboard's text.
#[derive(Debug)]
pub enum KeyOutcome {
    Ignored,
    Handled,
    Layout(Motion, bool),
    Copy(String, Vec<Block>),
    Cut(String, Vec<Block>),
    Paste,
}

/// The end of the document: the end of its last block.
pub open spec fn end_pos_spec(d: Seq<BlockView>) -> DocPos {
    DocPos { block: (d.len() - 1) as usize, byte: block_len(d.last()) as usize }
}

/// The caret motions the editor performs itself.
pub open spec fn moved(v: CoreView, mo: Motion, extend: bool, w: CoreView) -> bool {
    match mo {
        Motion::CharLeft => caret_set(v, char_target_spec(v.doc, v.caret, -1i32), extend, w),
        Motion::CharRight => caret_set(v, char_target_spec(v.doc, v.caret, 1i32), extend, w),
        Motion::WordLeft => caret_set(v, word_target_spec(v.doc, v.caret, -1i32), extend, w),
        Motion::WordRight => caret_set(v, word_target_spec(v.doc, v.caret, 1i32), extend, w),
        Motion::DocStart => caret_set(v, DocPos { block: 0, byte: 0 }, extend, w),
        Motion::DocEnd => caret_set(v, end_pos_spec(v.doc), extend, w),
        _ => w == v,
    }
}

/// Whether the editor moves the caret itself (the others need layout).
pub open spec fn logical_motion(mo: Motion) -> bool {
    mo == Motion::CharLeft || mo == Motion::CharRight || mo == Motion::WordLeft || mo
        == Motion::WordRight || mo == Motion::DocStart || mo == Motion::DocEnd
}

/// The effect of command `c` on editor state `v`: the new state `w` and the
/// outcome `out` left for the caller.
pub open spec fn key_handled(v: CoreView, c: KeyCommand, w: CoreView, out: KeyOutcome) -> bool {
    match c {
        KeyCommand::Move(mo, ext) => if logical_motion(mo) {
            moved(v, mo, ext, w) && out is Handled
        } else {
            w == v && out == KeyOutcome::Layout(mo, ext)
        },
        KeyCommand::Backspace => backspaced(v, w) && out is Handled,
        KeyCommand::Delete => deleted_forward(v, w) && out is Handled,
        KeyCommand::DeleteWordBackward => word_deleted_backward(v, w) && out is Handled,
        KeyCommand::DeleteWordForward => word_deleted_forward(v, w) && out is Handled,
        KeyCommand::Enter => entered(v, w) && out is Handled,
        KeyCommand::Indent => executed(v, RichCommand::Indent, w) && out is Handled,
        KeyCommand::Outdent => executed(v, RichCommand::Outdent, w) && out is Handled,
        KeyCommand::SelectAll => all_selected(v, w) && out is Handled,
        KeyCommand::Copy => {
            &&& w == v
            &&& out matches KeyOutcome::Copy(t, f)
            &&& t@ == selected_chars(v.doc, selection_spec(v))
            &&& extracted(v.doc, selection_spec(v), doc_blocks(f@))
        },
        KeyCommand::Cut => {
            &&& out matches KeyOutcome::Cut(t, f)
            &&& t@ == selected_chars(v.doc, selection_spec(v))
            &&& extracted(v.doc, selection_spec(v), doc_blocks(f@))
            &&& if t@.len() == 0 { w == v } else { backspaced(v, w) }
        },
        KeyCommand::Paste => w == v && out is Paste,
        KeyCommand::Undo => w == undo_result(v) && out is Handled,
        KeyCommand::Redo => w == redo_result(v) && out is Handled,
        KeyCommand::Insert(ch) => typed(v, seq![ch], w) && out is Handled,
        KeyCommand::Ignored => w == v && out is Ignored,
    }
}

impl RichEditCore {
    /// Carry out a caret motion, or hand back one that needs the layout.
    pub fn run_motion(&mut self, mo: Motion, ext: bool) -> (out: KeyOutcome)
        requires
            old(self).wf(),
        ensures
            final(self).wf(),
            key_handled(old(self)@, KeyCommand::Move(mo, ext), final(self)@, out),
    {
        let caret = self.caret();
        match mo {
            Motion::CharLeft => {
                let t = self.char_target(caret, -1);
                self.set_caret(t, ext);
            },
            Motion::CharRight => {
                let t = self.char_target(caret, 1);
                self.set_caret(t, ext);
            },
            Motion::WordLeft => {
                let t = self.word_target(caret, -1);
                self.set_caret(t, ext);
            },
            Motion::WordRight => {
                let t = self.word_target(caret, 1);
                self.set_caret(t, ext);
            },
            Motion::DocStart => self.set_caret(DocPos { block: 0, byte: 0 }, ext),
            Motion::DocEnd => {
                proof {
                    let d = self@.doc;
                    crate::docview::lemma_doc_len_decompose(d, d.len() - 1);
                    crate::docview::lemma_doc_len_ge_count(d);
                }
                let t = self.doc().end_pos();
                self.set_caret(t, ext);
            },
            _ => {
                return KeyOutcome::Layout(mo, ext);
            },
        }
        KeyOutcome::Handled
    }
}

impl RichEditCore {
    /// Carry out a key command: edit, move the caret, undo or redo, or hand
    /// back what needs the layout or the clipboard.
    pub fn run_key_command(&mut self, c: KeyCommand) -> (out: KeyOutcome)
        requires
            old(self).wf(),
            doc_len(old(self)@.doc) + 4 <= usize::MAX,
        ensures
            final(self).wf(),
            key_handled(old(self)@, c, final(self)@, out),
    {
        match c {
            KeyCommand::Move(mo, ext) => self.run_motion(mo, ext),
            KeyCommand::Backspace => {
                self.backspace();
                KeyOutcome::Handled
            },
            KeyCommand::Delete => {
                self.delete_forward();
                KeyOutcome::Handled
            },
            KeyCommand::DeleteWordBackward => {
                self.delete_word_backward();
                KeyOutcome::Handled
            },
            KeyCommand::DeleteWordForward => {
                self.delete_word_forward();
                KeyOutcome::Handled
            },
            KeyCommand::Enter => {
                self.split();
                KeyOutcome::Handled
            },
            KeyCommand::Indent => {
                self.exec(&RichCommand::Indent);
                KeyOutcome::Handled
            },
            KeyCommand::Outdent => {
                self.exec(&RichCommand::Outdent);
                KeyOutcome::Handled
            },
            KeyCommand::SelectAll => {
                self.select_all();
                KeyOutcome::Handled
            },
            KeyCommand::Copy => {
                let (t, f) = self.copy_selection();
                KeyOutcome::Copy(t, f)
            },
            KeyCommand::Cut => {
                let (t, f) = self.copy_selection();
                if !t.as_str().is_empty() {
                    self.backspace();
                }
                KeyOutcome::Cut(t, f)
            },
            KeyCommand::Paste => KeyOutcome::Paste,
            KeyCommand::Undo => {
                self.undo();
                KeyOutcome::Handled
            },
            KeyCommand::Redo => {
                self.redo();
                KeyOutcome::Handled
            },
            KeyCommand::Insert(ch) => {
                let s = char_string(ch);
                proof {
                    lemma_char_bytes(ch);
                }
                self.insert(s.as_str());
                KeyOutcome::Handled
            },
            KeyCommand::Ignored => KeyOutcome::Ignored,
        }
    }

    /// Handle a key press: look up its command and carry it out.
    pub fn handle_key(&mut self, key: Key, m: Modifiers) -> (out: KeyOutcome)
        requires
            old(self).wf(),
            doc_len(old(self)@.doc) + 4 <= usize::MAX,
        ensures
            final(self).wf(),
            key_handled(old(self)@, key_command_spec(key, m), final(self)@, out),
    {
        let c = key_command(key, m);
        self.run_key_command(c)
    }
}

} // verus!
