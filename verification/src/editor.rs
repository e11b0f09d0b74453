//! The editing core: a document with a caret, an anchor, a pending caret
//! style and a live-preview session, and the edits a user makes on it.
use vstd::prelude::*;
use vstd::utf8::*;
use crate::commands::{apply_command, blocks_applied, edit_block, inline_applied, sel_hi, sel_lo, touches, BlockEdit, CommonStyle, CommonView, RichCommand, command_applied, common_spec, edit_cells, of_style_spec, range_common_style, style_at, style_at_spec, touched, with_blocks, StyleEdit};
use crate::docview::{clamp_byte, holds, doc_len, lemma_block_len_cells, lemma_doc_len_decompose, plain_chars};
use crate::model::{Block, BlockView, ListKind, RichDoc, block_len, doc_blocks};
use crate::rich_clipboard::{RichClipboard, matching, same_lines};
use crate::edit::{extract_count, extract_hi, extract_lo, extract_range, pristine, splice_fragment, insert_text, head_cut, last_block, merge_block_with_prev, remove_range, removed, split_block};
use crate::position::{DocPos, DocRange, ordered_spec, pos_le};
use crate::runs::{RunView, cells, flat, lemma_cells_flat};
use crate::style::{InlineStyle, StyleView};
use crate::nav::word_target_spec;
use crate::words::lemma_word_moves_keep_boundaries;
use crate::lines::{inserted, lemma_break_line, lemma_fill_line, lemma_inserted_start, lemma_split_lines_len, lemma_split_lines_step, line_cells, lines_end, split_lines, stamp};
use crate::undo::{all_states, empty_history, fed, has_redo_spec, has_undo_spec, lemma_fed_keeps, lemma_undo_redo_keep, redone, snap_opt, undone, EditSnapshot, UndoView, Undoer};
use crate::text::{lemma_boundary_around_ascii, ceil_boundary, floor_boundary, lemma_ceil_boundary, next_char_boundary, prev_char_boundary, lemma_boundary_of_middle, lemma_floor_boundary, string_push_str};

verus! {

broadcast use encode_utf8_valid_utf8;

/// A usable caret position in `d`: an existing block and a character boundary
/// of its text.
pub open spec fn caret_ok(d: Seq<BlockView>, p: DocPos) -> bool {
    &&& p.block < d.len()
    &&& p.byte <= block_len(d[p.block as int])
    &&& is_char_boundary(flat(d[p.block as int].runs), p.byte as int)
}

/// `pos` moved onto a usable caret position: the block index clamped to the
/// last block, the byte clamped to the block's end and then moved back to the
/// nearest character boundary.
pub open spec fn clamp_pos_spec(d: Seq<BlockView>, pos: DocPos) -> DocPos {
    if d.len() == 0 {
        DocPos { block: 0, byte: 0 }
    } else {
        let blk: int = if pos.block < d.len() { pos.block as int } else { d.len() - 1 };
        let bs = flat(d[blk].runs);
        let lim: int = if pos.byte <= bs.len() { pos.byte as int } else { bs.len() as int };
        DocPos { block: blk as usize, byte: floor_boundary(bs, lim) as usize }
    }
}

/// The revision counter after one more change (wrapping at the top).
pub open spec fn next_rev(x: u64) -> u64 {
    if x == u64::MAX {
        0
    } else {
        (x + 1) as u64
    }
}

/// The mathematical state of a [`RichEditCore`].
pub struct CoreView {
    pub doc: Seq<BlockView>,
    pub caret: DocPos,
    pub anchor: DocPos,
    pub pending: Option<StyleView>,
    pub default_font_size: u64,
    pub doc_rev: u64,
    pub rev: u64,
    /// The state a live preview session started from, while one is open.
    pub saved: Option<(Seq<BlockView>, DocPos, DocPos)>,
    pub preview_dirty: bool,
    /// The undo history.
    pub history: UndoView,
}

/// The invariant every editor state keeps: a non-empty document whose length
/// fits in memory, a usable caret and anchor, and likewise for the state a
/// preview session would restore.
pub open spec fn core_inv(v: CoreView) -> bool {
    &&& all_states(v.history, snap_ok_fn())
    &&& v.doc.len() > 0
    &&& doc_len(v.doc) <= usize::MAX
    &&& caret_ok(v.doc, v.caret)
    &&& caret_ok(v.doc, v.anchor)
    &&& match v.saved {
        Some(s) => {
            &&& s.0.len() > 0
            &&& doc_len(s.0) <= usize::MAX
            &&& caret_ok(s.0, s.1)
            &&& caret_ok(s.0, s.2)
        },
        None => !v.preview_dirty,
    }
}

/// A state an editor can return to: a non-empty document whose length fits
/// in memory, with a usable caret and anchor.
pub open spec fn snap_ok(s: (Seq<BlockView>, DocPos, DocPos)) -> bool {
    &&& s.0.len() > 0
    &&& doc_len(s.0) <= usize::MAX
    &&& caret_ok(s.0, s.1)
    &&& caret_ok(s.0, s.2)
}

/// [`snap_ok`] as a value, for properties of the whole history.
pub open spec fn snap_ok_fn() -> spec_fn((Seq<BlockView>, DocPos, DocPos)) -> bool {
    |s: (Seq<BlockView>, DocPos, DocPos)| snap_ok(s)
}

/// The document, caret and anchor of a state.
pub open spec fn snap_of(v: CoreView) -> (Seq<BlockView>, DocPos, DocPos) {
    (v.doc, v.caret, v.anchor)
}

/// The selection of a state: from the anchor to the caret.
pub open spec fn selection_spec(v: CoreView) -> DocRange {
    DocRange { start: v.anchor, end: v.caret }
}

/// The style newly typed text takes: the pending caret style when one is
/// armed, else the style inherited at the caret.
pub open spec fn insert_style_spec(v: CoreView) -> StyleView {
    match v.pending {
        Some(p) => p,
        None => style_at_spec(v.doc, v.caret),
    }
}

/// The style summary the toolbar shows for a state.
pub open spec fn selection_common_spec(v: CoreView) -> CommonView {
    let (a, b) = ordered_spec(selection_spec(v));
    if v.anchor == v.caret && v.pending is Some {
        with_blocks(of_style_spec(v.pending->0), touched(v.doc, a, b))
    } else {
        common_spec(v.doc, selection_spec(v))
    }
}

/// The characters of block `bi` that a selection from `a` to `b` covers.
pub open spec fn selected_piece(d: Seq<BlockView>, a: DocPos, b: DocPos, bi: int) -> Seq<char> {
    decode_utf8(flat(d[bi].runs).subrange(sel_lo(a, bi), sel_hi(d, b, bi)))
}

/// The selected characters of the first `n` blocks a selection from `a` to
/// `b` touches, blocks joined by `\n`.
pub open spec fn selected_upto(d: Seq<BlockView>, a: DocPos, b: DocPos, n: int) -> Seq<char>
    decreases n,
{
    if n <= 0 {
        Seq::empty()
    } else if n == 1 {
        selected_piece(d, a, b, a.block as int)
    } else {
        selected_upto(d, a, b, n - 1) + seq!['\n'] + selected_piece(d, a, b, a.block + n - 1)
    }
}

/// The text a selection covers, blocks joined by `\n`; empty when collapsed.
pub open spec fn selected_chars(d: Seq<BlockView>, r: DocRange) -> Seq<char> {
    let (a, b) = ordered_spec(r);
    if a == b {
        Seq::empty()
    } else {
        selected_upto(d, a, b, b.block - a.block + 1)
    }
}

/// `nd` is `d` with block `pos.block` cut at `pos.byte` (clamped to its end)
/// into two blocks that both keep its attributes.
pub open spec fn split_done(d: Seq<BlockView>, pos: DocPos, nd: Seq<BlockView>) -> bool {
    let b = d[pos.block as int];
    let c = clamp_byte(b, pos.byte as int);
    &&& nd.len() == d.len() + 1
    &&& forall|j: int| 0 <= j < pos.block ==> #[trigger] nd[j] == d[j]
    &&& forall|j: int| pos.block + 1 < j < nd.len() ==> #[trigger] nd[j] == d[j - 1]
    &&& holds(nd[pos.block as int], b, cells(b.runs).take(c))
    &&& holds(nd[pos.block + 1], b, cells(b.runs).skip(c))
}

/// `nd` is `d` with block `idx` joined onto the end of block `idx - 1`, which
/// keeps its attributes.
pub open spec fn merged(d: Seq<BlockView>, idx: int, nd: Seq<BlockView>) -> bool {
    let prev = d[idx - 1];
    let cur = d[idx];
    &&& nd.len() == d.len() - 1
    &&& forall|j: int| 0 <= j < idx - 1 ==> #[trigger] nd[j] == d[j]
    &&& forall|j: int| idx <= j < nd.len() ==> #[trigger] nd[j] == d[j + 1]
    &&& holds(nd[idx - 1], prev, cells(prev.runs) + cells(cur.runs))
}

/// What Enter does to an empty list item: one level out, or out of the list
/// at the top level.
pub open spec fn list_exit(b: BlockView) -> BlockView {
    if b.indent > 0 {
        BlockView { indent: (b.indent - 1) as u8, ..b }
    } else {
        BlockView { list: ListKind::Plain, ..b }
    }
}

/// `v` after a document change: a new document, caret and anchor, no pending
/// style, both counters bumped, and an open preview marked as changed.
pub open spec fn edited(v: CoreView, doc: Seq<BlockView>, caret: DocPos, anchor: DocPos) -> CoreView {
    CoreView {
        doc,
        caret,
        anchor,
        pending: None,
        doc_rev: next_rev(v.doc_rev),
        rev: next_rev(v.rev),
        preview_dirty: v.preview_dirty || v.saved is Some,
        ..v
    }
}

/// Moving the caret onto `pos` (clamped), keeping the anchor when `extend`.
pub open spec fn caret_set(v: CoreView, pos: DocPos, extend: bool, w: CoreView) -> bool {
    w == (CoreView {
        caret: clamp_pos_spec(v.doc, pos),
        anchor: if extend {
            v.anchor
        } else {
            clamp_pos_spec(v.doc, pos)
        },
        pending: None,
        rev: next_rev(v.rev),
        ..v
    })
}

/// Selecting the whole document.
pub open spec fn all_selected(v: CoreView, w: CoreView) -> bool {
    w == (CoreView {
        anchor: DocPos { block: 0, byte: 0 },
        caret: DocPos {
            block: (v.doc.len() - 1) as usize,
            byte: block_len(v.doc.last()) as usize,
        },
        pending: None,
        rev: next_rev(v.rev),
        ..v
    })
}

/// Setting both ends of the selection (each clamped).
pub open spec fn selection_set(v: CoreView, anchor: DocPos, caret: DocPos, w: CoreView) -> bool {
    w == (CoreView {
        anchor: clamp_pos_spec(v.doc, anchor),
        caret: clamp_pos_spec(v.doc, caret),
        pending: None,
        rev: next_rev(v.rev),
        ..v
    })
}

/// Enter: the selection removed, then the paragraph split at the caret, or an empty list item moved one level out.
pub open spec fn entered(v: CoreView, w: CoreView) -> bool {
    exists|mid: Seq<BlockView>|
        #![trigger removed(v.doc, selection_spec(v), mid)]
        {
            let a = ordered_spec(selection_spec(v)).0;
            let blk = mid[a.block as int];
            &&& removed(v.doc, selection_spec(v), mid)
            &&& if blk.list != ListKind::Plain && block_len(blk) == 0 {
                w == edited(v, mid.update(a.block as int, list_exit(blk)), a, a)
            } else {
                &&& split_done(mid, a, w.doc)
                &&& w == edited(
                    v,
                    w.doc,
                    DocPos { block: (a.block + 1) as usize, byte: 0 },
                    DocPos { block: (a.block + 1) as usize, byte: 0 },
                )
            }
        }
}

/// Backspace: the selection, the character before the caret, or the paragraph break before it removed.
pub open spec fn backspaced(v: CoreView, w: CoreView) -> bool {
    ({
        let cb = v.caret.block as int;
        if v.anchor != v.caret {
            let a = ordered_spec(selection_spec(v)).0;
            &&& removed(v.doc, selection_spec(v), w.doc)
            &&& w == edited(v, w.doc, a, a)
        } else if v.caret.byte > 0 {
            let p = DocPos {
                block: v.caret.block,
                byte: floor_boundary(flat(v.doc[cb].runs), v.caret.byte - 1) as usize,
            };
            &&& removed(v.doc, DocRange { start: p, end: v.caret }, w.doc)
            &&& w == edited(v, w.doc, p, p)
        } else if v.caret.block > 0 {
            let p = DocPos { block: (cb - 1) as usize, byte: block_len(v.doc[cb - 1]) as usize };
            &&& merged(v.doc, cb, w.doc)
            &&& w == edited(v, w.doc, p, p)
        } else {
            w == v
        }
    })
}

/// Delete: the selection, the character after the caret, or the paragraph break after it removed.
pub open spec fn deleted_forward(v: CoreView, w: CoreView) -> bool {
    ({
        let cb = v.caret.block as int;
        if v.anchor != v.caret {
            let a = ordered_spec(selection_spec(v)).0;
            &&& removed(v.doc, selection_spec(v), w.doc)
            &&& w == edited(v, w.doc, a, a)
        } else if v.caret.byte < block_len(v.doc[cb]) {
            let q = DocPos {
                block: v.caret.block,
                byte: ceil_boundary(flat(v.doc[cb].runs), v.caret.byte + 1) as usize,
            };
            &&& removed(v.doc, DocRange { start: v.caret, end: q }, w.doc)
            &&& w == edited(v, w.doc, v.caret, v.caret)
        } else if cb + 1 < v.doc.len() {
            &&& merged(v.doc, cb + 1, w.doc)
            &&& w == edited(v, w.doc, v.caret, v.caret)
        } else {
            w == v
        }
    })
}

/// A formatting command applied, or folded into the pending caret style.
pub open spec fn executed(v: CoreView, cmd: RichCommand, w: CoreView) -> bool {
    ({
        if v.anchor == v.caret && is_inline_spec(cmd) {
            w == (CoreView {
                pending: Some(inline_style_spec(insert_style_spec(v), cmd)),
                rev: next_rev(v.rev),
                ..v
            })
        } else {
            &&& command_applied(v.doc, selection_spec(v), cmd, w.doc)
            &&& w == edited(v, w.doc, v.caret, v.anchor)
        }
    })
}

/// `text` typed at the caret, replacing the selection.
pub open spec fn typed(v: CoreView, text: Seq<char>, w: CoreView) -> bool {
    &&& text.len() == 0 ==> w == v
    &&& text.len() > 0 ==> exists|mid: Seq<BlockView>|
        #![trigger removed(v.doc, selection_spec(v), mid)]
        {
            let a = ordered_spec(selection_spec(v)).0;
            let l = split_lines(encode_utf8(text));
            &&& removed(v.doc, selection_spec(v), mid)
            &&& inserted(mid, a, l, insert_style_spec(v), w.doc)
            &&& w == edited(v, w.doc, lines_end(a, l), lines_end(a, l))
        }
}

/// Deleting back to the previous word boundary, or the selection.
pub open spec fn word_deleted_backward(v: CoreView, w: CoreView) -> bool {
    ({
        let t = word_target_spec(v.doc, v.caret, -1i32);
        if v.anchor != v.caret {
            let a = ordered_spec(selection_spec(v)).0;
            &&& removed(v.doc, selection_spec(v), w.doc)
            &&& w == edited(v, w.doc, a, a)
        } else if t == v.caret {
            w == v
        } else {
            &&& removed(v.doc, DocRange { start: t, end: v.caret }, w.doc)
            &&& w == edited(v, w.doc, t, t)
        }
    })
}

/// Deleting forward to the next word boundary, or the selection.
pub open spec fn word_deleted_forward(v: CoreView, w: CoreView) -> bool {
    ({
        let t = word_target_spec(v.doc, v.caret, 1i32);
        if v.anchor != v.caret {
            let a = ordered_spec(selection_spec(v)).0;
            &&& removed(v.doc, selection_spec(v), w.doc)
            &&& w == edited(v, w.doc, a, a)
        } else if t == v.caret {
            w == v
        } else {
            &&& removed(v.doc, DocRange { start: v.caret, end: t }, w.doc)
            &&& w == edited(v, w.doc, v.caret, v.caret)
        }
    })
}

/// `f` is the content of `range` in `d`, one block per touched block, each
/// keeping its source block's attributes.
pub open spec fn extracted(d: Seq<BlockView>, range: DocRange, f: Seq<BlockView>) -> bool {
    let (a, b) = ordered_spec(range);
    &&& f.len() == extract_count(d, range)
    &&& forall|k: int|
        0 <= k < f.len() ==> holds(
            #[trigger] f[k],
            d[a.block + k],
            cells(d[a.block + k].runs).subrange(extract_lo(d, a, b, k), extract_hi(d, a, b, k)),
        )
}

/// `nd` is `d` with the fragment `f` spliced in at `pos` (a block of `d`),
/// and `p` is the end of the spliced content. One block splices inline (a
/// pristine empty paragraph takes its attributes); more blocks split the
/// target, whose head and tail keep its attributes.
pub open spec fn spliced(d: Seq<BlockView>, pos: DocPos, f: Seq<BlockView>, nd: Seq<BlockView>, p: DocPos) -> bool {
    let i = pos.block as int;
    let t = d[i];
    let c = clamp_byte(t, pos.byte as int);
    let n = f.len();
    if n == 0 {
        nd == d && p == pos
    } else if n == 1 {
        &&& nd == d.update(i, nd[i])
        &&& holds(nd[i], if pristine(t) { f[0] } else { t }, cells(t.runs).take(c) + cells(f[0].runs) + cells(t.runs).skip(c))
        &&& p.block == pos.block
        &&& p.byte == pos.byte + block_len(f[0])
    } else {
        &&& nd == d.take(i) + seq![nd[i]] + f.subrange(1, n - 1) + seq![nd[i + n - 1]] + d.skip(i + 1)
        &&& holds(nd[i], t, cells(t.runs).take(c) + cells(f[0].runs))
        &&& holds(nd[i + n - 1], t, cells(f[n - 1].runs) + cells(t.runs).skip(c))
        &&& p.block == pos.block + n - 1
        &&& p.byte == block_len(f[n - 1])
    }
}

/// A styled fragment pasted at the caret, replacing the selection; the caret
/// ends after it.
pub open spec fn fragment_pasted(v: CoreView, f: Seq<BlockView>, w: CoreView) -> bool {
    exists|mid: Seq<BlockView>, p: DocPos|
        #![trigger removed(v.doc, selection_spec(v), mid), spliced(mid, ordered_spec(selection_spec(v)).0, f, w.doc, p)]
        {
            &&& removed(v.doc, selection_spec(v), mid)
            &&& spliced(mid, ordered_spec(selection_spec(v)).0, f, w.doc, p)
            &&& w == edited(v, w.doc, p, p)
        }
}

/// Opening a preview session: the current document and selection saved.
pub open spec fn preview_begun(v: CoreView, w: CoreView) -> bool {
    w == (CoreView { saved: Some((v.doc, v.caret, v.anchor)), preview_dirty: false, ..v })
}

/// Cancelling a preview session: the saved document and selection back, or
/// nothing without a session.
pub open spec fn preview_cancelled(v: CoreView, w: CoreView) -> bool {
    match v.saved {
        Some(s) => w == (CoreView {
            doc: s.0,
            caret: s.1,
            anchor: s.2,
            pending: None,
            doc_rev: next_rev(v.doc_rev),
            rev: next_rev(v.rev),
            saved: None,
            preview_dirty: false,
            ..v
        }),
        None => w == v,
    }
}


/// The geometry-free editor state: the document, the caret and anchor of the
/// selection, the pending caret style, and the revision counters a view uses
/// to cache layout and schedule repaints.
pub struct RichEditCore {
    doc: RichDoc,
    caret: DocPos,
    anchor: DocPos,
    pending_style: Option<InlineStyle>,
    /// Default point size, as the bit pattern of an `f64`.
    default_font_size: u64,
    doc_rev: u64,
    rev: u64,
    preview: Option<EditSnapshot>,
    preview_dirty: bool,
    undoer: Undoer,
}

pub open spec fn pending_view(p: Option<InlineStyle>) -> Option<StyleView> {
    match p {
        Some(s) => Some(s@),
        None => None,
    }
}

impl View for RichEditCore {
    type V = CoreView;

    closed spec fn view(&self) -> CoreView {
        CoreView {
            doc: self.doc@,
            caret: self.caret,
            anchor: self.anchor,
            pending: pending_view(self.pending_style),
            default_font_size: self.default_font_size,
            doc_rev: self.doc_rev,
            rev: self.rev,
            saved: match self.preview {
                Some(s) => Some((s.doc@, s.caret, s.anchor)),
                None => None,
            },
            preview_dirty: self.preview_dirty,
            history: self.undoer@,
        }
    }
}

/// Restyling bytes keeps the text.
proof fn lemma_restyle_keeps_text(
    nb: Seq<RunView>,
    x: Seq<RunView>,
    lo: int,
    hi: int,
    e: StyleEdit,
)
    requires
        cells(nb) == edit_cells(cells(x), lo, hi, e),
    ensures
        flat(nb) == flat(x),
{
    lemma_cells_flat(nb);
    lemma_cells_flat(x);
    assert forall|i: int| 0 <= i < flat(nb).len() implies flat(nb)[i] == flat(x)[i] by {
        assert(cells(nb)[i].0 == flat(nb)[i]);
        assert(cells(x)[i].0 == flat(x)[i]);
    }
    assert(flat(nb) =~= flat(x));
}

/// In a block whose styled bytes are `pre` followed by the tail of `y` from
/// one of its boundaries, the position right after `pre` is a boundary.
pub proof fn lemma_boundary_before(
    nb: Seq<RunView>,
    pre: Seq<(u8, StyleView)>,
    y: Seq<RunView>,
    q: int,
)
    requires
        cells(nb) == pre + cells(y).skip(q),
        0 <= q <= flat(y).len(),
        is_char_boundary(flat(y), q),
    ensures
        is_char_boundary(flat(nb), pre.len() as int),
        pre.len() <= flat(nb).len(),
{
    lemma_cells_flat(nb);
    lemma_cells_flat(y);
    let p = pre.len() as int;
    let rest = cells(y).skip(q);
    assert(rest.len() == cells(y).len() - q);
    assert(cells(nb).len() == p + rest.len());
    if q == flat(y).len() {
        assert(flat(nb).len() == p);
        is_char_boundary_start_end_of_seq(flat(nb));
    } else {
        assert(rest[0] == cells(y)[q]);
        assert((pre + rest)[p] == rest[0]);
        assert(cells(nb)[p] == cells(y)[q]);
        assert(cells(nb)[p].0 == flat(nb)[p]);
        assert(cells(y)[q].0 == flat(y)[q]);
        is_char_boundary_iff_not_is_continuation_byte(flat(y), q);
        is_char_boundary_iff_not_is_continuation_byte(flat(nb), p);
    }
}

impl RichEditCore {
    /// The invariant of this editor.
    pub open spec fn wf(&self) -> bool {
        core_inv(self@)
    }

    /// An editor over `doc` with the caret at the start, nothing pending and
    /// the given default point size (as `f64` bits).
    pub fn new(doc: RichDoc, default_font_size: u64) -> (c: Self)
        requires
            doc@.len() > 0,
            doc_len(doc@) <= usize::MAX,
        ensures
            c.wf(),
            c@.doc == doc@,
            c@.caret == (DocPos { block: 0, byte: 0 }),
            c@.anchor == (DocPos { block: 0, byte: 0 }),
            c@.pending is None,
            c@.default_font_size == default_font_size,
            c@.doc_rev == 0,
            c@.rev == 0,
            c@.saved is None,
            c@.history == empty_history(),
    {
        let c = RichEditCore {
            doc,
            caret: DocPos { block: 0, byte: 0 },
            anchor: DocPos { block: 0, byte: 0 },
            pending_style: None,
            default_font_size,
            doc_rev: 0,
            rev: 0,
            preview: None,
            preview_dirty: false,
            undoer: Undoer::new(),
        };
        proof {
            is_char_boundary_start_end_of_seq(flat(c.doc@[0].runs));
        }
        c
    }
}

impl RichEditCore {
    /// Replace the whole document: caret and anchor go to the start, the
    /// pending style is dropped, any live preview session is abandoned and
    /// the undo history is discarded (the loaded document is the new
    /// baseline).
    pub fn load(&mut self, doc: RichDoc)
        requires
            doc@.len() > 0,
            doc_len(doc@) <= usize::MAX,
        ensures
            final(self).wf(),
            final(self)@.doc == doc@,
            final(self)@.caret == (DocPos { block: 0, byte: 0 }),
            final(self)@.anchor == (DocPos { block: 0, byte: 0 }),
            final(self)@.pending is None,
            final(self)@.saved is None,
            !final(self)@.preview_dirty,
            final(self)@.default_font_size == old(self)@.default_font_size,
            final(self)@.doc_rev == next_rev(old(self)@.doc_rev),
            final(self)@.rev == next_rev(old(self)@.rev),
            final(self)@.history == empty_history(),
    {
        self.doc = doc;
        self.undoer = Undoer::new();
        self.caret = DocPos { block: 0, byte: 0 };
        self.anchor = DocPos { block: 0, byte: 0 };
        self.pending_style = None;
        self.preview = None;
        self.preview_dirty = false;
        self.doc_rev = self.doc_rev.wrapping_add(1);
        self.rev = self.rev.wrapping_add(1);
        proof {
            is_char_boundary_start_end_of_seq(flat(self.doc@[0].runs));
        }
    }

    /// The document being edited.
    pub fn doc(&self) -> (d: &RichDoc)
        ensures
            d@ == self@.doc,
    {
        &self.doc
    }

    /// The document's text, blocks joined by `\n`.
    pub fn plain_text(&self) -> (s: String)
        ensures
            s@ == plain_chars(self@.doc),
    {
        self.doc.plain_text()
    }

    /// The moving end of the selection.
    pub fn caret(&self) -> (p: DocPos)
        ensures
            p == self@.caret,
    {
        self.caret
    }

    /// The fixed end of the selection.
    pub fn anchor(&self) -> (p: DocPos)
        ensures
            p == self@.anchor,
    {
        self.anchor
    }

    /// The default point size (as `f64` bits) runs inherit.
    pub fn default_font_size(&self) -> (z: u64)
        ensures
            z == self@.default_font_size,
    {
        self.default_font_size
    }

    /// Change the default point size; the document counts as changed.
    pub fn set_default_font_size(&mut self, size: u64)
        requires
            old(self).wf(),
        ensures
            final(self).wf(),
            final(self)@ == (CoreView {
                default_font_size: size,
                doc_rev: next_rev(old(self)@.doc_rev),
                rev: next_rev(old(self)@.rev),
                preview_dirty: old(self)@.preview_dirty || old(self)@.saved is Some,
                ..old(self)@
            }),
    {
        self.default_font_size = size;
        self.bump_doc();
    }

    /// Revision counter bumped on every document change.
    pub fn doc_rev(&self) -> (r: u64)
        ensures
            r == self@.doc_rev,
    {
        self.doc_rev
    }

    /// Revision counter bumped on every document, caret or selection change.
    pub fn rev(&self) -> (r: u64)
        ensures
            r == self@.rev,
    {
        self.rev
    }

    /// The armed pending caret style, if any.
    pub fn pending_style(&self) -> (p: Option<&InlineStyle>)
        ensures
            match p {
                Some(st) => self@.pending == Some(st@),
                None => self@.pending is None,
            },
    {
        match &self.pending_style {
            Some(st) => Some(st),
            None => None,
        }
    }

    /// The current selection, from the anchor to the caret.
    pub fn selection(&self) -> (r: DocRange)
        ensures
            r == selection_spec(self@),
    {
        DocRange { start: self.anchor, end: self.caret }
    }

    fn bump_rev(&mut self)
        ensures
            final(self).rev == next_rev(old(self).rev),
            final(self).doc == old(self).doc,
            final(self).caret == old(self).caret,
            final(self).anchor == old(self).anchor,
            final(self).pending_style == old(self).pending_style,
            final(self).default_font_size == old(self).default_font_size,
            final(self).doc_rev == old(self).doc_rev,
            final(self).preview == old(self).preview,
            final(self).preview_dirty == old(self).preview_dirty,
            final(self).undoer == old(self).undoer,
    {
        self.rev = self.rev.wrapping_add(1);
    }

    fn bump_doc(&mut self)
        ensures
            final(self).rev == next_rev(old(self).rev),
            final(self).doc_rev == next_rev(old(self).doc_rev),
            final(self).preview_dirty == (old(self).preview_dirty || old(self).preview is Some),
            final(self).doc == old(self).doc,
            final(self).caret == old(self).caret,
            final(self).anchor == old(self).anchor,
            final(self).pending_style == old(self).pending_style,
            final(self).default_font_size == old(self).default_font_size,
            final(self).preview == old(self).preview,
            final(self).undoer == old(self).undoer,
    {
        self.doc_rev = self.doc_rev.wrapping_add(1);
        self.rev = self.rev.wrapping_add(1);
        if self.preview.is_some() {
            self.preview_dirty = true;
        }
    }
}

impl RichEditCore {
    /// The document with its caret and anchor, to return to later.
    fn snapshot(&self) -> (s: EditSnapshot)
        ensures
            s.doc@ == self@.doc,
            s.caret == self@.caret,
            s.anchor == self@.anchor,
    {
        EditSnapshot { doc: self.doc.duplicate(), caret: self.caret, anchor: self.anchor }
    }

    /// Return to `snap`: its document, caret and anchor come back, the
    /// pending caret style is dropped, and the document counts as changed.
    fn apply_snapshot(&mut self, snap: EditSnapshot)
        requires
            old(self).wf(),
            snap.doc@.len() > 0,
            doc_len(snap.doc@) <= usize::MAX,
            caret_ok(snap.doc@, snap.caret),
            caret_ok(snap.doc@, snap.anchor),
        ensures
            final(self).wf(),
            final(self)@ == edited(old(self)@, snap.doc@, snap.caret, snap.anchor),
    {
        self.doc = snap.doc;
        self.caret = snap.caret;
        self.anchor = snap.anchor;
        self.pending_style = None;
        self.bump_doc();
    }
}

impl RichEditCore {
    /// `pos` moved onto a usable caret position: the block clamped to the
    /// last one, the byte to the block's end and back onto a character
    /// boundary.
    pub fn clamp_pos(&self, pos: DocPos) -> (p: DocPos)
        requires
            self.wf(),
        ensures
            p == clamp_pos_spec(self@.doc, pos),
            caret_ok(self@.doc, p),
    {
        let ghost d = self.doc@;
        let n = self.doc.blocks.len();
        let block = if pos.block < n { pos.block } else { n - 1 };
        proof {
            lemma_doc_len_decompose(d, block as int);
            assert(self.doc.blocks@[block as int]@ == d[block as int]);
        }
        let text = self.doc.blocks[block].text();
        let s = text.as_str();
        let ghost bs = flat(d[block as int].runs);
        assert(encode_utf8(s@) == bs);
        let len = s.len();
        let lim = if pos.byte <= len { pos.byte } else { len };
        let mut byte = lim;
        while byte > 0 && !s.is_char_boundary(byte)
            invariant
                bs == encode_utf8(s@),
                byte <= lim,
                floor_boundary(bs, byte as int) == floor_boundary(bs, lim as int),
            decreases byte,
        {
            byte -= 1;
        }
        proof {
            lemma_floor_boundary(bs, lim as int);
        }
        DocPos { block, byte }
    }

    /// Move the caret onto `pos` (clamped onto a usable position). With
    /// `extend` the anchor stays, extending the selection; otherwise the
    /// selection collapses there. The pending caret style is dropped.
    pub fn set_caret(&mut self, pos: DocPos, extend: bool)
        requires
            old(self).wf(),
        ensures
            final(self).wf(),
            caret_set(old(self)@, pos, extend, final(self)@),
    {
        let p = self.clamp_pos(pos);
        self.caret = p;
        if !extend {
            self.anchor = p;
        }
        self.pending_style = None;
        self.bump_rev();
    }

    /// Select the whole document: anchor at the start, caret at the end.
    pub fn select_all(&mut self)
        requires
            old(self).wf(),
        ensures
            final(self).wf(),
            all_selected(old(self)@, final(self)@),
    {
        let ghost d = self.doc@;
        self.anchor = DocPos { block: 0, byte: 0 };
        self.caret = self.doc.end_pos();
        self.pending_style = None;
        self.bump_rev();
        proof {
            is_char_boundary_start_end_of_seq(flat(d[0].runs));
            is_char_boundary_start_end_of_seq(flat(d.last().runs));
        }
    }

    /// Set both ends of the selection, each clamped onto a usable position.
    pub fn set_selection(&mut self, anchor: DocPos, caret: DocPos)
        requires
            old(self).wf(),
        ensures
            final(self).wf(),
            selection_set(old(self)@, anchor, caret, final(self)@),
    {
        let a = self.clamp_pos(anchor);
        let c = self.clamp_pos(caret);
        self.anchor = a;
        self.caret = c;
        self.pending_style = None;
        self.bump_rev();
    }

    /// The style newly typed text takes: the pending caret style when one is
    /// armed, else the style inherited at the caret.
    pub fn style_for_insert(&self) -> (st: InlineStyle)
        requires
            self.wf(),
        ensures
            st@ == insert_style_spec(self@),
    {
        match &self.pending_style {
            Some(p) => p.duplicate(),
            None => style_at(&self.doc, self.caret),
        }
    }

    /// The style summary of the selection, for toolbar state. At a collapsed
    /// selection with an armed pending style, the inline attributes come from
    /// that style and the block attributes from the caret's block.
    pub fn common_style_of_selection(&self) -> (cs: CommonStyle)
        requires
            self.wf(),
        ensures
            cs@ == selection_common_spec(self@),
    {
        let sel = self.selection();
        if sel.is_empty() {
            if let Some(p) = &self.pending_style {
                let mut cs = CommonStyle::of_style(p);
                cs.merge_blocks(&self.doc, sel);
                return cs;
            }
        }
        range_common_style(&self.doc, sel)
    }
}

/// The characters of bytes `[lo, hi)` of `block`'s text.
fn block_piece(block: &crate::model::Block, lo: usize, hi: usize) -> (out: String)
    requires
        block_len(block@) <= usize::MAX,
        lo <= hi <= block_len(block@),
        is_char_boundary(flat(block@.runs), lo as int),
        is_char_boundary(flat(block@.runs), hi as int),
    ensures
        out@ == decode_utf8(flat(block@.runs).subrange(lo as int, hi as int)),
{
    let text = block.text();
    let st = text.as_str();
    let ghost bs = flat(block@.runs);
    assert(encode_utf8(st@) == bs);
    let (head, _rest) = st.split_at(hi);
    proof {
        let hb = bs.subrange(0, hi as int);
        let tb = bs.subrange(hi as int, bs.len() as int);
        valid_utf8_split(bs, hi as int);
        assert(bs =~= Seq::<u8>::empty() + hb + tb);
        lemma_boundary_of_middle(Seq::<u8>::empty(), hb, tb, lo as int);
    }
    let (_pre, piece) = head.split_at(lo);
    proof {
        assert(encode_utf8(piece@) =~= bs.subrange(lo as int, hi as int));
        encode_utf8_decode_utf8(piece@);
    }
    piece.to_owned()
}

impl RichEditCore {
    /// The selected text, blocks joined by `\n` (empty when the selection is
    /// collapsed).
    pub fn selected_plain_text(&self) -> (out: String)
        requires
            self.wf(),
        ensures
            out@ == selected_chars(self@.doc, selection_spec(self@)),
    {
        let sel = self.selection();
        let (a, b) = sel.ordered();
        if a == b {
            return String::new();
        }
        let ghost d = self.doc@;
        proof {
            crate::position::lemma_ordered_endpoints(sel);
            crate::docview::lemma_doc_len_ge_count(d);
        }
        let mut out = String::new();
        let mut bi = a.block;
        while bi <= b.block
            invariant
                d == self.doc@,
                doc_len(d) <= usize::MAX,
                pos_le(a, b),
                caret_ok(d, a),
                caret_ok(d, b),
                b.block < usize::MAX,
                a.block <= bi <= b.block + 1,
                out@ == selected_upto(d, a, b, bi - a.block),
            decreases b.block + 1 - bi,
        {
            proof {
                lemma_doc_len_decompose(d, bi as int);
                assert(self.doc.blocks@[bi as int]@ == d[bi as int]);
                is_char_boundary_start_end_of_seq(flat(d[bi as int].runs));
            }
            let len = self.doc.blocks[bi].text_len();
            let lo = if bi == a.block { a.byte } else { 0 };
            let hi = if bi == b.block { b.byte } else { len };
            let piece = block_piece(&self.doc.blocks[bi], lo, hi);
            proof {
                assert(piece@ == selected_piece(d, a, b, bi as int));
            }
            if bi > a.block {
                proof {
                    reveal_strlit("\n");
                }
                string_push_str(&mut out, "\n");
            }
            string_push_str(&mut out, piece.as_str());
            proof {
                if bi > a.block {
                    assert(out@ =~= selected_upto(d, a, b, bi - a.block) + seq!['\n'] + piece@);
                } else {
                    assert(out@ =~= piece@);
                }
            }
            bi += 1;
        }
        out
    }
}

/// Removing a selection between two usable positions leaves its low endpoint
/// usable.
pub(crate) proof fn lemma_removed_caret(d: Seq<BlockView>, r: DocRange, nd: Seq<BlockView>)
    requires
        d.len() > 0,
        caret_ok(d, r.start),
        caret_ok(d, r.end),
        removed(d, r, nd),
    ensures
        nd.len() > 0,
        caret_ok(nd, ordered_spec(r).0),
{
    crate::position::lemma_ordered_endpoints(r);
    let (a, b) = ordered_spec(r);
    if a != b {
        let first = d[a.block as int];
        let last = d[last_block(d, b)];
        lemma_block_len_cells(first);
        lemma_block_len_cells(last);
        assert(head_cut(d, a, b) == a.byte);
        let pre = cells(first.runs).take(a.byte as int);
        assert(clamp_byte(last, b.byte as int) == b.byte);
        lemma_boundary_before(nd[a.block as int].runs, pre, last.runs, b.byte as int);
        lemma_block_len_cells(nd[a.block as int]);
    }
}

impl RichEditCore {
    /// Remove the selection, if any, collapsing caret and anchor onto its low
    /// end; returns that position.
    fn take_selection(&mut self) -> (p: DocPos)
        requires
            old(self).wf(),
        ensures
            final(self).wf(),
            removed(old(self)@.doc, selection_spec(old(self)@), final(self)@.doc),
            doc_len(final(self)@.doc) <= doc_len(old(self)@.doc),
            p == ordered_spec(selection_spec(old(self)@)).0,
            final(self)@ == (CoreView {
                doc: final(self)@.doc,
                caret: p,
                anchor: p,
                ..old(self)@
            }),
    {
        let sel = DocRange { start: self.anchor, end: self.caret };
        proof {
            crate::position::lemma_ordered_endpoints(sel);
        }
        if sel.start == sel.end {
            return self.caret;
        }
        let ghost d = self.doc@;
        let pos = remove_range(&mut self.doc, sel);
        self.caret = pos;
        self.anchor = pos;
        proof {
            lemma_removed_caret(d, sel, self.doc@);
        }
        pos
    }
}

/// Joining a block onto its predecessor keeps the join point usable.
proof fn lemma_merged_caret(d: Seq<BlockView>, idx: int, nd: Seq<BlockView>)
    requires
        0 < idx < d.len() <= usize::MAX,
        block_len(d[idx - 1]) <= usize::MAX,
        merged(d, idx, nd),
    ensures
        caret_ok(nd, DocPos { block: (idx - 1) as usize, byte: block_len(d[idx - 1]) as usize }),
{
    let prev = d[idx - 1];
    let cur = d[idx];
    let nb = nd[idx - 1];
    assert(cells(nb.runs) == cells(prev.runs) + cells(cur.runs));
    lemma_block_len_cells(prev);
    assert(cells(cur.runs).skip(0) =~= cells(cur.runs));
    lemma_boundary_before(nb.runs, cells(prev.runs), cur.runs, 0);
    lemma_block_len_cells(nb);
}

/// Move block `i` one list level out, or out of its list at the top level.
fn leave_list_level(doc: &mut RichDoc, i: usize)
    requires
        i < old(doc)@.len(),
        doc_len(old(doc)@) <= usize::MAX,
    ensures
        final(doc)@ == old(doc)@.update(i as int, list_exit(old(doc)@[i as int])),
        doc_len(final(doc)@) == doc_len(old(doc)@),
{
    let ghost d = doc@;
    let mut blk = doc.blocks.remove(i);
    proof {
        assert(blk@ == d[i as int]);
    }
    if blk.indent > 0 {
        blk.indent = blk.indent - 1;
    } else {
        blk.list = ListKind::Plain;
    }
    let ghost nb = blk@;
    doc.blocks.insert(i, blk);
    proof {
        assert(nb == list_exit(d[i as int]));
        assert(doc@ =~= d.update(i as int, nb));
        crate::docview::lemma_doc_len_update(d, i as int, nb);
    }
}

impl RichEditCore {
    /// Enter: remove the selection, then split the paragraph at the caret.
    /// An empty list item is not split: it moves one level out, or leaves the
    /// list at the top level, and the caret stays.
    #[verifier::rlimit(40)]
    #[verifier::spinoff_prover]
    pub fn split(&mut self)
        requires
            old(self).wf(),
            doc_len(old(self)@.doc) < usize::MAX,
        ensures
            final(self).wf(),
            entered(old(self)@, final(self)@),
    {
        let ghost v = self@;
        let a = self.take_selection();
        let ghost mid = self.doc@;
        let i = a.block;
        proof {
            assert(self.doc.blocks@[i as int]@ == mid[i as int]);
            lemma_doc_len_decompose(mid, i as int);
        }
        let empty_item = self.doc.blocks[i].list != ListKind::Plain && self.doc.blocks[i].text_len() == 0;
        if empty_item {
            leave_list_level(&mut self.doc, i);
            self.anchor = self.caret;
            self.pending_style = None;
            self.bump_doc();
            proof {
                assert(removed(v.doc, selection_spec(v), mid));
            }
            return;
        }
        let p = split_block(&mut self.doc, a);
        self.caret = p;
        self.anchor = p;
        self.pending_style = None;
        self.bump_doc();
        proof {
            is_char_boundary_start_end_of_seq(flat(self.doc@[i + 1].runs));
            lemma_block_len_cells(self.doc@[i + 1]);
            assert(split_done(mid, a, self.doc@));
            assert(removed(v.doc, selection_spec(v), mid));
        }
    }

    /// Backspace: remove the selection; else the character before the caret;
    /// else, at the start of a block, join it onto the previous block. At the
    /// very start of the document nothing changes.
    pub fn backspace(&mut self)
        requires
            old(self).wf(),
        ensures
            final(self).wf(),
            backspaced(old(self)@, final(self)@),
    {
        let ghost v = self@;
        if self.anchor != self.caret {
            self.take_selection();
            self.pending_style = None;
            self.bump_doc();
            return;
        }
        let cb = self.caret.block;
        let ghost d = self.doc@;
        proof {
            assert(self.doc.blocks@[cb as int]@ == d[cb as int]);
            lemma_doc_len_decompose(d, cb as int);
        }
        if self.caret.byte > 0 {
            let text = self.doc.blocks[cb].text();
            let prev = prev_char_boundary(text.as_str(), self.caret.byte);
            let p = DocPos { block: cb, byte: prev };
            let r = DocRange { start: p, end: self.caret };
            proof {
                lemma_floor_boundary(flat(d[cb as int].runs), self.caret.byte - 1);
            }
            remove_range(&mut self.doc, r);
            proof {
                lemma_removed_caret(d, r, self.doc@);
            }
            self.caret = p;
            self.anchor = p;
        } else if cb > 0 {
            proof {
                lemma_doc_len_decompose(d, cb - 1);
                crate::docview::lemma_doc_len_ge_count(d);
            }
            let p = merge_block_with_prev(&mut self.doc, cb);
            proof {
                lemma_merged_caret(d, cb as int, self.doc@);
            }
            self.caret = p;
            self.anchor = p;
        } else {
            return;
        }
        self.pending_style = None;
        self.bump_doc();
    }

    /// Delete: remove the selection; else the character after the caret;
    /// else, at the end of a block, join the next block onto it. At the very
    /// end of the document nothing changes. The caret stays where it is.
    pub fn delete_forward(&mut self)
        requires
            old(self).wf(),
        ensures
            final(self).wf(),
            deleted_forward(old(self)@, final(self)@),
    {
        let ghost v = self@;
        if self.anchor != self.caret {
            self.take_selection();
            self.pending_style = None;
            self.bump_doc();
            return;
        }
        let cb = self.caret.block;
        let ghost d = self.doc@;
        proof {
            assert(self.doc.blocks@[cb as int]@ == d[cb as int]);
            lemma_doc_len_decompose(d, cb as int);
            crate::docview::lemma_doc_len_ge_count(d);
        }
        let block_len = self.doc.blocks[cb].text_len();
        if self.caret.byte < block_len {
            let text = self.doc.blocks[cb].text();
            let next = next_char_boundary(text.as_str(), self.caret.byte);
            let q = DocPos { block: cb, byte: next };
            let r = DocRange { start: self.caret, end: q };
            proof {
                lemma_ceil_boundary(flat(d[cb as int].runs), self.caret.byte + 1);
            }
            remove_range(&mut self.doc, r);
            proof {
                lemma_removed_caret(d, r, self.doc@);
            }
        } else if cb + 1 < self.doc.blocks.len() {
            merge_block_with_prev(&mut self.doc, cb + 1);
            proof {
                lemma_merged_caret(d, cb + 1, self.doc@);
            }
        } else {
            return;
        }
        self.pending_style = None;
        self.bump_doc();
    }
}

/// Whether a command formats characters rather than whole blocks.
pub open spec fn is_inline_spec(cmd: RichCommand) -> bool {
    match cmd {
        RichCommand::ToggleBold => true,
        RichCommand::ToggleItalic => true,
        RichCommand::ToggleUnderline => true,
        RichCommand::ToggleStrikethrough => true,
        RichCommand::SetFontFamily(_) => true,
        RichCommand::SetFontSize(_) => true,
        RichCommand::SetTextColor(_) => true,
        RichCommand::SetHighlight(_) => true,
        _ => false,
    }
}

/// An inline command folded into one style: toggles flip the attribute,
/// setters overwrite it; block commands leave the style as it is.
pub open spec fn inline_style_spec(s: StyleView, cmd: RichCommand) -> StyleView {
    match cmd {
        RichCommand::ToggleBold => StyleView { bold: !s.bold, ..s },
        RichCommand::ToggleItalic => StyleView { italic: !s.italic, ..s },
        RichCommand::ToggleUnderline => StyleView { underline: !s.underline, ..s },
        RichCommand::ToggleStrikethrough => StyleView { strikethrough: !s.strikethrough, ..s },
        RichCommand::SetFontFamily(f) => StyleView { font_family: Some(f@), ..s },
        RichCommand::SetFontSize(z) => StyleView { font_size: Some(z), ..s },
        RichCommand::SetTextColor(c) => StyleView { text_color: Some(c), ..s },
        RichCommand::SetHighlight(h) => StyleView { highlight: h, ..s },
        _ => s,
    }
}

fn is_inline(cmd: &RichCommand) -> (b: bool)
    ensures
        b == is_inline_spec(*cmd),
{
    match cmd {
        RichCommand::ToggleBold => true,
        RichCommand::ToggleItalic => true,
        RichCommand::ToggleUnderline => true,
        RichCommand::ToggleStrikethrough => true,
        RichCommand::SetFontFamily(_) => true,
        RichCommand::SetFontSize(_) => true,
        RichCommand::SetTextColor(_) => true,
        RichCommand::SetHighlight(_) => true,
        _ => false,
    }
}

fn apply_inline_to_style(style: &mut InlineStyle, cmd: &RichCommand)
    ensures
        final(style)@ == inline_style_spec(old(style)@, *cmd),
{
    match cmd {
        RichCommand::ToggleBold => style.bold = !style.bold,
        RichCommand::ToggleItalic => style.italic = !style.italic,
        RichCommand::ToggleUnderline => style.underline = !style.underline,
        RichCommand::ToggleStrikethrough => style.strikethrough = !style.strikethrough,
        RichCommand::SetFontFamily(f) => style.font_family = Some(f.clone()),
        RichCommand::SetFontSize(z) => style.font_size = Some(*z),
        RichCommand::SetTextColor(c) => style.text_color = Some(*c),
        RichCommand::SetHighlight(h) => style.highlight = *h,
        _ => {},
    }
}

/// A formatting command changes no block's text and no block count.
pub(crate) proof fn lemma_command_keeps_text(d: Seq<BlockView>, r: DocRange, cmd: RichCommand, nd: Seq<BlockView>)
    requires
        command_applied(d, r, cmd, nd),
    ensures
        nd.len() == d.len(),
        forall|j: int| 0 <= j < d.len() ==> #[trigger] flat(nd[j].runs) == flat(d[j].runs),
{
    let (a, b) = ordered_spec(r);
    if is_inline_spec(cmd) {
        let e = match cmd {
            RichCommand::ToggleBold => StyleEdit::Bold(
                crate::commands::toggle_target(common_spec(d, r).bold),
            ),
            RichCommand::ToggleItalic => StyleEdit::Italic(
                crate::commands::toggle_target(common_spec(d, r).italic),
            ),
            RichCommand::ToggleUnderline => StyleEdit::Underline(
                crate::commands::toggle_target(common_spec(d, r).underline),
            ),
            RichCommand::ToggleStrikethrough => StyleEdit::Strikethrough(
                crate::commands::toggle_target(common_spec(d, r).strikethrough),
            ),
            RichCommand::SetFontFamily(f) => StyleEdit::Family(f),
            RichCommand::SetFontSize(z) => StyleEdit::Size(z),
            RichCommand::SetTextColor(c) => StyleEdit::TextColor(c),
            RichCommand::SetHighlight(h) => StyleEdit::Highlight(h),
            _ => StyleEdit::Bold(true),
        };
        assert(inline_applied(d, r, e, nd));
        if a != b {
            assert forall|j: int| 0 <= j < d.len() implies #[trigger] flat(nd[j].runs) == flat(
                d[j].runs,
            ) by {
                if touches(d, a, b, j) && sel_lo(a, j) < sel_hi(d, b, j) {
                    assert(holds(
                        nd[j],
                        d[j],
                        edit_cells(
                            cells(d[j].runs),
                            clamp_byte(d[j], sel_lo(a, j)),
                            clamp_byte(d[j], sel_hi(d, b, j)),
                            e,
                        ),
                    ));
                    lemma_restyle_keeps_text(
                        nd[j].runs,
                        d[j].runs,
                        clamp_byte(d[j], sel_lo(a, j)),
                        clamp_byte(d[j], sel_hi(d, b, j)),
                        e,
                    );
                }
            }
        }
    } else {
        assert forall|j: int| 0 <= j < d.len() implies #[trigger] flat(nd[j].runs) == flat(
            d[j].runs,
        ) by {
            assert(nd[j].runs == d[j].runs);
        }
    }
}

impl RichEditCore {
    /// Apply a formatting command. An inline command at a collapsed selection
    /// changes no text: it arms the pending caret style instead (the style the
    /// next typed text would take, with the command folded in). Any other
    /// command applies to the document over the selection and drops the
    /// pending style.
    pub fn exec(&mut self, cmd: &RichCommand)
        requires
            old(self).wf(),
        ensures
            final(self).wf(),
            executed(old(self)@, *cmd, final(self)@),
    {
        let sel = self.selection();
        if sel.is_empty() && is_inline(cmd) {
            let mut base = self.style_for_insert();
            apply_inline_to_style(&mut base, cmd);
            self.pending_style = Some(base);
            self.bump_rev();
        } else {
            let ghost d = self.doc@;
            proof {
                crate::position::lemma_ordered_endpoints(sel);
            }
            apply_command(&mut self.doc, sel, cmd);
            proof {
                lemma_command_keeps_text(d, sel, *cmd, self.doc@);
                assert(flat(self.doc@[self.caret.block as int].runs) == flat(d[self.caret.block as int].runs));
                assert(flat(self.doc@[self.anchor.block as int].runs) == flat(d[self.anchor.block as int].runs));
            }
            self.pending_style = None;
            self.bump_doc();
        }
    }

    /// Open a live preview session: remember the current document and
    /// selection so that [`Self::cancel_preview`] can restore them.
    pub fn begin_preview(&mut self)
        requires
            old(self).wf(),
        ensures
            final(self).wf(),
            preview_begun(old(self)@, final(self)@),
    {
        self.preview = Some(self.snapshot());
        self.preview_dirty = false;
    }

    /// Whether a live preview session is open.
    pub fn is_previewing(&self) -> (b: bool)
        ensures
            b == (self@.saved is Some),
    {
        self.preview.is_some()
    }

    /// Whether the document changed since the open preview session began.
    pub fn is_preview_dirty(&self) -> (b: bool)
        ensures
            b == self@.preview_dirty,
    {
        self.preview_dirty
    }

    /// Close the preview session, keeping the document as it now is.
    pub fn commit_preview(&mut self)
        requires
            old(self).wf(),
        ensures
            final(self).wf(),
            final(self)@ == (CoreView { saved: None, preview_dirty: false, ..old(self)@ }),
    {
        self.preview = None;
        self.preview_dirty = false;
    }

    /// Close the preview session, restoring the document and selection it
    /// began with. Without an open session nothing changes.
    pub fn cancel_preview(&mut self)
        requires
            old(self).wf(),
        ensures
            final(self).wf(),
            preview_cancelled(old(self)@, final(self)@),
    {
        let snap = self.preview.take();
        match snap {
            Some(s) => {
                self.preview_dirty = false;
                self.apply_snapshot(s);
            },
            None => {},
        }
    }
}


/// The state after the undo history sees `v` at time `t`: unchanged while a
/// preview session is open, otherwise the history fed `v`'s document, caret
/// and anchor.
pub open spec fn fed_state(v: CoreView, t: u64) -> CoreView {
    if v.saved is Some {
        v
    } else {
        CoreView { history: fed(v.history, t, snap_of(v)), ..v }
    }
}

/// The state after an undo from `v`: the history stepped back and, when it
/// names a state to return to, that document, caret and anchor restored as
/// an edit.
pub open spec fn undo_result(v: CoreView) -> CoreView {
    let (h, r) = undone(v.history, snap_of(v));
    let v1 = CoreView { history: h, ..v };
    match r {
        Some(s) => edited(v1, s.0, s.1, s.2),
        None => v1,
    }
}

/// The state after a redo from `v`, in the same way.
pub open spec fn redo_result(v: CoreView) -> CoreView {
    let (h, r) = redone(v.history, snap_of(v));
    let v1 = CoreView { history: h, ..v };
    match r {
        Some(s) => edited(v1, s.0, s.1, s.2),
        None => v1,
    }
}

impl RichEditCore {
    /// Let the undo history see the current state at time `time_ms`
    /// (milliseconds), once per frame; returns whether a change is still
    /// coalescing. While a preview session is open the history is left
    /// alone, so a preview's passing states never become undo points.
    pub fn feed_undo(&mut self, time_ms: u64) -> (in_flux: bool)
        requires
            old(self).wf(),
        ensures
            final(self).wf(),
            final(self)@ == fed_state(old(self)@, time_ms),
            in_flux == (final(self)@.history.flux is Some),
    {
        if self.preview.is_some() {
            return self.undoer.is_in_flux();
        }
        let snap = self.snapshot();
        proof {
            lemma_fed_keeps(self@.history, time_ms, snap@, snap_ok_fn());
        }
        self.undoer.feed_state(time_ms, &snap);
        self.undoer.is_in_flux()
    }

    /// Whether an undo step is available.
    pub fn can_undo(&self) -> (b: bool)
        ensures
            b == has_undo_spec(self@.history, snap_of(self@)),
    {
        let s = self.snapshot();
        self.undoer.has_undo(&s)
    }

    /// Whether a redo step is available.
    pub fn can_redo(&self) -> (b: bool)
        ensures
            b == has_redo_spec(self@.history, snap_of(self@)),
    {
        let s = self.snapshot();
        self.undoer.has_redo(&s)
    }

    /// Undo one step; returns whether a state was restored.
    pub fn undo(&mut self) -> (changed: bool)
        requires
            old(self).wf(),
        ensures
            final(self).wf(),
            final(self)@ == undo_result(old(self)@),
            changed == (undone(old(self)@.history, snap_of(old(self)@)).1 is Some),
    {
        let cur = self.snapshot();
        proof {
            lemma_undo_redo_keep(self@.history, cur@, snap_ok_fn());
        }
        match self.undoer.undo(&cur) {
            Some(prev) => {
                self.apply_snapshot(prev);
                true
            },
            None => false,
        }
    }

    /// Redo one step; returns whether a state was restored.
    pub fn redo(&mut self) -> (changed: bool)
        requires
            old(self).wf(),
        ensures
            final(self).wf(),
            final(self)@ == redo_result(old(self)@),
            changed == (redone(old(self)@.history, snap_of(old(self)@)).1 is Some),
    {
        let cur = self.snapshot();
        proof {
            lemma_undo_redo_keep(self@.history, cur@, snap_ok_fn());
        }
        match self.undoer.redo(&cur) {
            Some(next) => {
                self.apply_snapshot(next);
                true
            },
            None => false,
        }
    }
}

/// Bytes `[lo, hi)` of `s` as a string slice.
fn sub_str<'a>(s: &'a str, lo: usize, hi: usize) -> (r: &'a str)
    requires
        lo <= hi <= encode_utf8(s@).len(),
        is_char_boundary(encode_utf8(s@), lo as int),
        is_char_boundary(encode_utf8(s@), hi as int),
    ensures
        encode_utf8(r@) == encode_utf8(s@).subrange(lo as int, hi as int),
{
    let ghost bs = encode_utf8(s@);
    let (head, _rest) = s.split_at(hi);
    proof {
        let hb = bs.subrange(0, hi as int);
        let tb = bs.subrange(hi as int, bs.len() as int);
        valid_utf8_split(bs, hi as int);
        assert(bs =~= Seq::<u8>::empty() + hb + tb);
        lemma_boundary_of_middle(Seq::<u8>::empty(), hb, tb, lo as int);
    }
    let (_pre, piece) = head.split_at(lo);
    proof {
        assert(encode_utf8(piece@) =~= bs.subrange(lo as int, hi as int));
    }
    piece
}

/// While lines `l` are being typed at `a` into `d`, the caret at the end of
/// the last line is a usable position of the current document `cur`.
proof fn lemma_lines_caret(d: Seq<BlockView>, a: DocPos, l: Seq<Seq<u8>>, st: StyleView, cur: Seq<BlockView>)
    requires
        caret_ok(d, a),
        l.len() >= 1,
        inserted(d, a, l, st, cur),
        doc_len(cur) <= usize::MAX,
    ensures
        lines_end(a, l).block == a.block + l.len() - 1,
        lines_end(a, l).byte == (if l.len() == 1 { a.byte as int } else { 0 }) + l[l.len() - 1].len(),
        caret_ok(cur, lines_end(a, l)),
{
    let k = l.len() - 1;
    let i = a.block as int;
    let b = d[i];
    let c = a.byte as int;
    let t = i + k;
    assert(holds(cur[i + k], b, line_cells(b, c, l, st, k)));
    lemma_block_len_cells(b);
    let head = if k == 0 { cells(b.runs).take(c) } else { Seq::<(u8, StyleView)>::empty() };
    let pre = head + stamp(l[k], st);
    assert(cells(cur[t].runs) == pre + cells(b.runs).skip(c));
    lemma_boundary_before(cur[t].runs, pre, b.runs, c);
    lemma_block_len_cells(cur[t]);
    lemma_doc_len_decompose(cur, t);
    crate::docview::lemma_doc_len_ge_count(cur);
}

/// Type `piece` at the end of the last (empty) line.
fn type_piece(
    doc: &mut RichDoc,
    caret: DocPos,
    piece: &str,
    style: &InlineStyle,
    Ghost(d): Ghost<Seq<BlockView>>,
    Ghost(a): Ghost<DocPos>,
    Ghost(l): Ghost<Seq<Seq<u8>>>,
) -> (p: DocPos)
    requires
        caret_ok(d, a),
        l.len() >= 1,
        l.last() == Seq::<u8>::empty(),
        inserted(d, a, l, style@, old(doc)@),
        caret == lines_end(a, l),
        doc_len(old(doc)@) + encode_utf8(piece@).len() <= usize::MAX,
    ensures
        inserted(d, a, l.update(l.len() - 1, encode_utf8(piece@)), style@, final(doc)@),
        p == lines_end(a, l.update(l.len() - 1, encode_utf8(piece@))),
        doc_len(final(doc)@) == doc_len(old(doc)@) + encode_utf8(piece@).len(),
{
    let ghost cur = doc@;
    let ghost k = l.len() - 1;
    proof {
        lemma_lines_caret(d, a, l, style@, cur);
        assert(encode_utf8(Seq::<char>::empty()) =~= Seq::<u8>::empty());
    }
    if piece.is_empty() {
        proof {
            assert(piece@ =~= Seq::<char>::empty());
            assert(l.update(k, encode_utf8(piece@)) =~= l);
        }
        return caret;
    }
    insert_text(doc, caret, piece, style.duplicate());
    proof {
        lemma_fill_line(d, a, l, style@, cur, piece@, doc@);
        lemma_lines_caret(d, a, l.update(k, encode_utf8(piece@)), style@, doc@);
    }
    DocPos { block: caret.block, byte: caret.byte + piece.len() }
}

/// Break the last line at the caret, starting a new empty line.
fn break_line(
    doc: &mut RichDoc,
    caret: DocPos,
    Ghost(d): Ghost<Seq<BlockView>>,
    Ghost(a): Ghost<DocPos>,
    Ghost(l): Ghost<Seq<Seq<u8>>>,
    Ghost(st): Ghost<StyleView>,
) -> (p: DocPos)
    requires
        caret_ok(d, a),
        l.len() >= 1,
        inserted(d, a, l, st, old(doc)@),
        caret == lines_end(a, l),
        doc_len(old(doc)@) < usize::MAX,
    ensures
        inserted(d, a, l.push(Seq::<u8>::empty()), st, final(doc)@),
        p == lines_end(a, l.push(Seq::<u8>::empty())),
        doc_len(final(doc)@) == doc_len(old(doc)@) + 1,
{
    let ghost cur = doc@;
    proof {
        lemma_lines_caret(d, a, l, st, cur);
    }
    let p = split_block(doc, caret);
    proof {
        lemma_break_line(d, a, l, st, cur, doc@);
    }
    p
}

/// Normalize the runs of block `i`, changing neither its styled text nor its
/// attributes.
fn normalize_block_at(doc: &mut RichDoc, i: usize)
    requires
        i < old(doc)@.len(),
    ensures
        final(doc)@.len() == old(doc)@.len(),
        forall|j: int| 0 <= j < old(doc)@.len() && j != i ==> #[trigger] final(doc)@[j] == old(doc)@[j],
        crate::runs::normalized(final(doc)@[i as int].runs),
        cells(final(doc)@[i as int].runs) == cells(old(doc)@[i as int].runs),
        final(doc)@[i as int].align == old(doc)@[i as int].align,
        final(doc)@[i as int].list == old(doc)@[i as int].list,
        final(doc)@[i as int].indent == old(doc)@[i as int].indent,
        doc_len(final(doc)@) == doc_len(old(doc)@),
{
    let ghost d = doc@;
    let mut blk = doc.blocks.remove(i);
    proof {
        assert(blk@ == d[i as int]);
    }
    blk.normalize();
    let ghost nb = blk@;
    doc.blocks.insert(i, blk);
    proof {
        assert(doc@ =~= d.update(i as int, nb));
        crate::docview::lemma_doc_len_update(d, i as int, nb);
        lemma_block_len_cells(nb);
        lemma_block_len_cells(d[i as int]);
    }
}

/// Typing into a block depends only on its styled text and attributes.
proof fn lemma_inserted_transfer(
    d: Seq<BlockView>,
    d1: Seq<BlockView>,
    a: DocPos,
    l: Seq<Seq<u8>>,
    st: StyleView,
    nd: Seq<BlockView>,
)
    requires
        d.len() == d1.len(),
        a.block < d.len(),
        forall|j: int| 0 <= j < d.len() && j != a.block ==> #[trigger] d1[j] == d[j],
        cells(d1[a.block as int].runs) == cells(d[a.block as int].runs),
        d1[a.block as int].align == d[a.block as int].align,
        d1[a.block as int].list == d[a.block as int].list,
        d1[a.block as int].indent == d[a.block as int].indent,
        inserted(d1, a, l, st, nd),
    ensures
        inserted(d, a, l, st, nd),
{
    let i = a.block as int;
    let k = l.len() - 1;
    assert forall|j: int| 0 <= j <= k implies holds(#[trigger] nd[i + j], d[i], line_cells(d[i], a.byte as int, l, st, j)) by {
        assert(holds(nd[i + j], d1[i], line_cells(d1[i], a.byte as int, l, st, j)));
        assert(line_cells(d1[i], a.byte as int, l, st, j) == line_cells(d[i], a.byte as int, l, st, j));
    }
    assert forall|j: int| i + k < j < nd.len() implies #[trigger] nd[j] == d[j - k] by {
        assert(nd[j] == d1[j - k]);
    }
}

impl RichEditCore {
    /// Type `text` at the caret, replacing the selection. Each newline in
    /// `text` starts a new paragraph with the attributes of the one typed
    /// into; all typed characters take [`Self::style_for_insert`]. The caret
    /// ends after the typed text and the pending style is dropped. An empty
    /// `text` changes nothing.
    #[verifier::rlimit(40)]
    pub fn insert(&mut self, text: &str)
        requires
            old(self).wf(),
            doc_len(old(self)@.doc) + encode_utf8(text@).len() <= usize::MAX,
        ensures
            final(self).wf(),
            typed(old(self)@, text@, final(self)@),
    {
        if text.is_empty() {
            return;
        }
        let ghost v = self@;
        let style = self.style_for_insert();
        let ghost st = style@;
        let a = self.take_selection();
        let ghost mid = self.doc@;
        normalize_block_at(&mut self.doc, a.block);
        let ghost d1 = self.doc@;
        let ghost v1 = self@;
        let ghost tb = encode_utf8(text@);
        proof {
            lemma_block_len_cells(mid[a.block as int]);
            lemma_block_len_cells(d1[a.block as int]);
            assert(flat(d1[a.block as int].runs) == flat(mid[a.block as int].runs)) by {
                crate::runs::lemma_cells_eq_flat_eq(d1[a.block as int].runs, mid[a.block as int].runs);
            }
            lemma_inserted_start(d1, a, st);
            assert(tb.take(0) =~= Seq::<u8>::empty());
            assert(split_lines(tb.take(0)) == seq![Seq::<u8>::empty()]);
            assert(tb.subrange(0, 0) =~= Seq::<u8>::empty());
            assert(seq![Seq::<u8>::empty()].update(0, Seq::<u8>::empty()) =~= seq![Seq::<u8>::empty()]);
            is_char_boundary_start_end_of_seq(tb);
        }
        let bytes = text.as_bytes();
        let n = bytes.len();
        let mut start: usize = 0;
        let mut m: usize = 0;
        while m < n
            invariant
                bytes@ == tb,
                tb == encode_utf8(text@),
                n == tb.len(),
                style@ == st,
                caret_ok(d1, a),
                0 <= start <= m <= n,
                is_char_boundary(tb, start as int),
                split_lines(tb.take(start as int)).len() >= 1,
                split_lines(tb.take(start as int)).last() == Seq::<u8>::empty(),
                split_lines(tb.take(m as int)) == split_lines(tb.take(start as int)).update(
                    split_lines(tb.take(start as int)).len() - 1,
                    tb.subrange(start as int, m as int),
                ),
                inserted(d1, a, split_lines(tb.take(start as int)), st, self.doc@),
                self.caret == lines_end(a, split_lines(tb.take(start as int))),
                doc_len(self.doc@) == doc_len(d1) + start,
                doc_len(d1) + n <= usize::MAX,
                self@ == (CoreView { doc: self.doc@, caret: self.caret, ..v1 }),
            decreases n - m,
        {
            let ghost l = split_lines(tb.take(start as int));
            let ghost lm = split_lines(tb.take(m as int));
            proof {
                lemma_split_lines_step(tb, m as int);
                assert(tb.subrange(start as int, m + 1) =~= tb.subrange(start as int, m as int).push(tb[m as int]));
            }
            if bytes[m] == 10u8 {
                proof {
                    lemma_boundary_around_ascii(tb, m as int);
                }
                let piece = sub_str(text, start, m);
                let c1 = type_piece(&mut self.doc, self.caret, piece, &style, Ghost(d1), Ghost(a), Ghost(l));
                proof {
                    assert(l.update(l.len() - 1, encode_utf8(piece@)) == lm);
                }
                let c2 = break_line(&mut self.doc, c1, Ghost(d1), Ghost(a), Ghost(lm), Ghost(st));
                self.caret = c2;
                start = m + 1;
                proof {
                    assert(split_lines(tb.take(m + 1)) == lm.push(Seq::<u8>::empty()));
                    assert(tb.subrange(m + 1, m + 1) =~= Seq::<u8>::empty());
                    assert(lm.push(Seq::<u8>::empty()).update(lm.len() as int, Seq::<u8>::empty()) =~= lm.push(Seq::<u8>::empty()));
                }
            } else {
                proof {
                    assert(split_lines(tb.take(m + 1)) =~= l.update(l.len() - 1, tb.subrange(start as int, m + 1)));
                }
            }
            m += 1;
        }
        let ghost l = split_lines(tb.take(start as int));
        let piece = sub_str(text, start, n);
        let c = type_piece(&mut self.doc, self.caret, piece, &style, Ghost(d1), Ghost(a), Ghost(l));
        self.caret = c;
        self.anchor = c;
        self.pending_style = None;
        self.bump_doc();
        proof {
            assert(tb.take(n as int) =~= tb);
            let lf = split_lines(tb);
            assert(l.update(l.len() - 1, encode_utf8(piece@)) == lf);
            lemma_split_lines_len(tb);
            lemma_lines_caret(d1, a, lf, st, self.doc@);
            lemma_inserted_transfer(mid, d1, a, lf, st, self.doc@);
            assert(removed(v.doc, selection_spec(v), mid));
        }
    }
}

impl RichEditCore {
    /// Delete back to the previous word boundary (the position one word-left
    /// motion reaches, which joins the block onto the previous one at a block
    /// start). An active selection is removed instead. At the very start of
    /// the document nothing changes.
    pub fn delete_word_backward(&mut self)
        requires
            old(self).wf(),
        ensures
            final(self).wf(),
            word_deleted_backward(old(self)@, final(self)@),
    {
        if self.anchor != self.caret {
            self.take_selection();
            self.pending_style = None;
            self.bump_doc();
            return;
        }
        let t = self.word_target(self.caret, -1);
        if t == self.caret {
            return;
        }
        let ghost d = self.doc@;
        let r = DocRange { start: t, end: self.caret };
        proof {
            lemma_word_moves_keep_boundaries(flat(d[self.caret.block as int].runs), self.caret.byte as int);
            assert(pos_le(t, self.caret));
            assert(ordered_spec(r).0 == t);
        }
        remove_range(&mut self.doc, r);
        proof {
            lemma_removed_caret(d, r, self.doc@);
        }
        self.caret = t;
        self.anchor = t;
        self.pending_style = None;
        self.bump_doc();
    }

    /// Delete forward to the next word boundary (the position one word-right
    /// motion reaches, which joins the next block on at a block end). An
    /// active selection is removed instead. At the very end of the document
    /// nothing changes. The caret stays where it is.
    pub fn delete_word_forward(&mut self)
        requires
            old(self).wf(),
        ensures
            final(self).wf(),
            word_deleted_forward(old(self)@, final(self)@),
    {
        if self.anchor != self.caret {
            self.take_selection();
            self.pending_style = None;
            self.bump_doc();
            return;
        }
        let t = self.word_target(self.caret, 1);
        if t == self.caret {
            return;
        }
        let ghost d = self.doc@;
        let r = DocRange { start: self.caret, end: t };
        proof {
            lemma_word_moves_keep_boundaries(flat(d[self.caret.block as int].runs), self.caret.byte as int);
            lemma_doc_len_decompose(d, self.caret.block as int);
            crate::docview::lemma_doc_len_ge_count(d);
            assert(pos_le(self.caret, t));
            assert(ordered_spec(r).0 == self.caret);
        }
        remove_range(&mut self.doc, r);
        proof {
            lemma_removed_caret(d, r, self.doc@);
        }
        self.pending_style = None;
        self.bump_doc();
    }
}

/// The position after a spliced fragment is usable.
proof fn lemma_spliced_caret(d: Seq<BlockView>, pos: DocPos, f: Seq<BlockView>, nd: Seq<BlockView>, p: DocPos)
    requires
        caret_ok(d, pos),
        f.len() > 0,
        spliced(d, pos, f, nd, p),
        doc_len(nd) <= usize::MAX,
    ensures
        nd.len() > 0,
        caret_ok(nd, p),
{
    let i = pos.block as int;
    let t = d[i];
    let c = pos.byte as int;
    let n = f.len();
    lemma_block_len_cells(t);
    assert(clamp_byte(t, c) == c);
    if n == 1 {
        let pre = cells(t.runs).take(c) + cells(f[0].runs);
        lemma_block_len_cells(f[0]);
        lemma_boundary_before(nd[i].runs, pre, t.runs, c);
        lemma_block_len_cells(nd[i]);
        assert(nd.len() == d.len());
    } else {
        let last = i + n - 1;
        assert(nd[last] == nd[i + n - 1]);
        assert(nd.len() == d.len() + n - 1);
        lemma_block_len_cells(f[n - 1]);
        lemma_boundary_before(nd[last].runs, cells(f[n - 1].runs), t.runs, c);
        lemma_block_len_cells(nd[last]);
    }
}

impl RichEditCore {
    /// The selection as plain text and as a styled fragment, for Copy and
    /// Cut.
    pub fn copy_selection(&self) -> (r: (String, Vec<Block>))
        requires
            self.wf(),
        ensures
            r.0@ == selected_chars(self@.doc, selection_spec(self@)),
            extracted(self@.doc, selection_spec(self@), doc_blocks(r.1@)),
    {
        let text = self.selected_plain_text();
        let sel = self.selection();
        proof {
            crate::position::lemma_ordered_endpoints(sel);
        }
        let frag = extract_range(&self.doc, sel);
        proof {
            let f = doc_blocks(frag@);
            assert forall|k: int| 0 <= k < frag@.len() implies #[trigger] f[k] == frag@[k]@ by {}
        }
        (text, frag)
    }

    /// Paste a styled fragment at the caret, replacing the selection.
    pub fn paste_fragment(&mut self, fragment: &[Block])
        requires
            old(self).wf(),
            doc_len(old(self)@.doc) + doc_len(doc_blocks(fragment@)) <= usize::MAX,
        ensures
            final(self).wf(),
            fragment_pasted(old(self)@, doc_blocks(fragment@), final(self)@),
    {
        let ghost v = self@;
        let ghost f = doc_blocks(fragment@);
        let a = self.take_selection();
        let ghost mid = self.doc@;
        proof {
            crate::docview::lemma_doc_len_nonneg(f);
            if fragment@.len() > 0 {
                crate::docview::lemma_doc_len_decompose(f, 0);
                assert(fragment@[0]@ == f[0]);
                lemma_doc_len_decompose(mid, a.block as int);
            }
        }
        let p = splice_fragment(&mut self.doc, a, fragment);
        proof {
            assert(spliced(mid, a, f, self.doc@, p));
            if fragment@.len() > 0 {
                lemma_spliced_caret(mid, a, f, self.doc@, p);
            }
        }
        self.caret = p;
        self.anchor = p;
        self.pending_style = None;
        self.bump_doc();
        proof {
            assert(removed(v.doc, selection_spec(v), mid));
        }
    }

    /// Paste `plain`, the text read back from the system clipboard: the
    /// fragment stored in `slot` when its fingerprint is that text (line
    /// endings normalised) and it fits, otherwise `plain` typed as text.
    pub fn paste(&mut self, plain: &str, slot: &RichClipboard)
        requires
            old(self).wf(),
            doc_len(old(self)@.doc) + encode_utf8(plain@).len() <= usize::MAX,
            slot@ is Some ==> doc_len(old(self)@.doc) + doc_len(slot@.unwrap().1) <= usize::MAX,
        ensures
            final(self).wf(),
            match slot@ {
                Some(pl) => if same_lines(pl.0, plain@) {
                    fragment_pasted(old(self)@, pl.1, final(self)@)
                } else {
                    typed(old(self)@, plain@, final(self)@)
                },
                None => typed(old(self)@, plain@, final(self)@),
            },
    {
        match matching(slot, plain) {
            Some(frag) => self.paste_fragment(frag.as_slice()),
            None => self.insert(plain),
        }
    }
}

} // verus!
