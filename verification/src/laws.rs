//! Properties that relate several operations of the library.
use vstd::prelude::*;
use vstd::utf8::*;
use crate::runs::{RunView, cells, chars, flat, lemma_cells_cons, lemma_encode_nonempty, normalized, run_cells};
use crate::style::StyleView;
use crate::text::{floor_boundary, lemma_encode_injective, lemma_floor_boundary};
use crate::commands::{edit_block, BlockEdit, MAX_INDENT, RichCommand, sel_hi, sel_lo};
use crate::docview::{clamp_byte, doc_len, holds, lemma_block_len_cells, lemma_doc_len_decompose, lemma_doc_len_ge_count, plain_chars};
use crate::edit::{extract_hi, extract_lo, pristine, removed};
use crate::editor::{typed, all_selected, extracted, fragment_pasted, spliced, caret_ok, clamp_pos_spec, core_inv, executed, merged, preview_begun, preview_cancelled, selected_chars, selected_piece, selected_upto, selection_spec, split_done, CoreView};
use crate::lines::{inserted, lemma_split_lines_len, line_cells, split_lines, stamp};
use crate::keys::{Key, KeyCommand, Modifiers, key_command_spec};
use crate::model::{BlockView, block_len};
use crate::position::{DocPos, ordered_spec};
use crate::undo::{all_states, elapsed_at_least, fed, has_undo_spec, lemma_undo_redo_keep, redone, undone, STABLE_MS};
use crate::segments::{next_down, next_up, step_spec};

verus! {

broadcast use encode_utf8_valid_utf8;

proof fn lemma_first_cell_style(a: Seq<RunView>)
    requires
        a.len() > 0,
        a[0].text.len() > 0,
    ensures
        a =~= seq![a[0]] + a.drop_first(),
        cells(a) == run_cells(a[0]) + cells(a.drop_first()),
        run_cells(a[0]).len() > 0,
        cells(a).len() > 0,
        cells(a)[0].1 == a[0].style,
{
    assert(a =~= seq![a[0]] + a.drop_first());
    lemma_cells_cons(a[0], a.drop_first());
    lemma_encode_nonempty(a[0].text);
}

/// Two normalized run lists that draw the same styled text are the same run
/// list: normalizing gives one canonical form for every content.
pub proof fn law_normalized_unique(a: Seq<RunView>, b: Seq<RunView>)
    requires
        normalized(a),
        normalized(b),
        cells(a) == cells(b),
    ensures
        a == b,
    decreases a.len() + b.len(),
{
    if a.len() == 0 || b.len() == 0 {
        if a.len() > 0 {
            lemma_first_cell_style(a);
            assert(cells(b) =~= Seq::<(u8, StyleView)>::empty());
        }
        if b.len() > 0 {
            lemma_first_cell_style(b);
            assert(cells(a) =~= Seq::<(u8, StyleView)>::empty());
        }
        assert(a =~= b);
    } else {
        let x = a[0];
        let y = b[0];
        let ra = a.drop_first();
        let rb = b.drop_first();
        lemma_first_cell_style(a);
        lemma_first_cell_style(b);
        let c = cells(a);
        let n = run_cells(x).len() as int;
        let m = run_cells(y).len() as int;
        assert(x.style == y.style);
        assert forall|i: int| 0 <= i < ra.len() implies #[trigger] ra[i].text.len() > 0 by {
            assert(ra[i] == a[i + 1]);
        }
        assert forall|i: int| 0 <= i < ra.len() - 1 implies #[trigger] ra[i].style != ra[i + 1].style by {
            assert(ra[i] == a[i + 1]);
            assert(ra[i + 1] == a[i + 2]);
        }
        assert forall|i: int| 0 <= i < rb.len() implies #[trigger] rb[i].text.len() > 0 by {
            assert(rb[i] == b[i + 1]);
        }
        assert forall|i: int| 0 <= i < rb.len() - 1 implies #[trigger] rb[i].style != rb[i + 1].style by {
            assert(rb[i] == b[i + 1]);
            assert(rb[i + 1] == b[i + 2]);
        }
        if n < m {
            assert(c[n] == run_cells(y)[n]);
            assert(run_cells(y)[n].1 == y.style);
            assert(ra.len() > 0) by {
                if ra.len() == 0 {
                    assert(cells(ra) =~= Seq::<(u8, StyleView)>::empty());
                }
            }
            lemma_first_cell_style(ra);
            assert(c[n] == cells(ra)[0]);
            assert(ra[0] == a[1]);
            assert(false);
        }
        if m < n {
            assert(c[m] == run_cells(x)[m]);
            assert(run_cells(x)[m].1 == x.style);
            assert(rb.len() > 0) by {
                if rb.len() == 0 {
                    assert(cells(rb) =~= Seq::<(u8, StyleView)>::empty());
                }
            }
            lemma_first_cell_style(rb);
            assert(cells(b)[m] == cells(rb)[0]);
            assert(rb[0] == b[1]);
            assert(false);
        }
        assert(n == m);
        assert(encode_utf8(x.text) =~= encode_utf8(y.text)) by {
            assert forall|k: int| 0 <= k < n implies encode_utf8(x.text)[k] == encode_utf8(y.text)[k] by {
                assert(c[k] == run_cells(x)[k]);
                assert(cells(b)[k] == run_cells(y)[k]);
            }
        }
        lemma_encode_injective(x.text, y.text);
        assert(x == y);
        assert(cells(ra) =~= c.skip(n));
        assert(cells(rb) =~= cells(b).skip(m));
        law_normalized_unique(ra, rb);
        assert(a =~= seq![x] + ra);
        assert(b =~= seq![y] + rb);
    }
}

/// Removing a range has one outcome: the document it leaves is determined.
pub proof fn law_removed_unique(d: Seq<BlockView>, r: crate::position::DocRange, n1: Seq<BlockView>, n2: Seq<BlockView>)
    requires
        removed(d, r, n1),
        removed(d, r, n2),
    ensures
        n1 == n2,
{
    let (a, b) = ordered_spec(r);
    if a != b && d.len() > 0 {
        let i = a.block as int;
        assert(holds(n1[i], d[i], cells(n1[i].runs)));
        law_normalized_unique(n1[i].runs, n2[i].runs);
        assert(n1[i] == n2[i]);
        assert(n1 =~= n2);
    }
}

/// Splitting a block (Enter) and joining it back (Backspace at the start of
/// the new block) gives back the document, when the split block's runs were
/// normalized.
pub proof fn law_split_then_merge(d: Seq<BlockView>, pos: DocPos, nd: Seq<BlockView>, md: Seq<BlockView>)
    requires
        pos.block < d.len(),
        normalized(d[pos.block as int].runs),
        split_done(d, pos, nd),
        merged(nd, pos.block + 1, md),
    ensures
        md == d,
{
    let i = pos.block as int;
    let b = d[i];
    let c = clamp_byte(b, pos.byte as int);
    lemma_block_len_cells(b);
    assert(cells(b.runs) =~= cells(b.runs).take(c) + cells(b.runs).skip(c));
    assert(cells(md[i].runs) == cells(b.runs));
    law_normalized_unique(md[i].runs, b.runs);
    assert(md[i] == b);
    assert forall|j: int| 0 <= j < d.len() implies #[trigger] md[j] == d[j] by {
        if j < i {
            assert(md[j] == nd[j]);
        } else if j > i {
            assert(md[j] == nd[j + 1]);
        }
    }
    assert(md =~= d);
}

/// Clamping a position onto a usable caret position is idempotent, and
/// leaves a usable position where it is.
pub proof fn law_clamp_idempotent(d: Seq<BlockView>, p: DocPos)
    requires
        d.len() > 0,
        doc_len(d) <= usize::MAX,
    ensures
        clamp_pos_spec(d, clamp_pos_spec(d, p)) == clamp_pos_spec(d, p),
        caret_ok(d, p) ==> clamp_pos_spec(d, p) == p,
{
    let q = clamp_pos_spec(d, p);
    let blk: int = if p.block < d.len() { p.block as int } else { d.len() - 1 };
    let bs = flat(d[blk].runs);
    let lim: int = if p.byte <= bs.len() { p.byte as int } else { bs.len() as int };
    lemma_doc_len_decompose(d, blk);
    lemma_doc_len_ge_count(d);
    lemma_floor_boundary(bs, lim);
    assert(q.block == blk);
    assert(q.byte == floor_boundary(bs, lim));
    assert(floor_boundary(bs, q.byte as int) == q.byte);
    if caret_ok(d, p) {
        assert(floor_boundary(bs, p.byte as int) == p.byte);
    }
}

proof fn lemma_whole_piece(d: Seq<BlockView>, a: DocPos, b: DocPos, bi: int)
    requires
        0 <= bi < d.len(),
        sel_lo(a, bi) == 0,
        sel_hi(d, b, bi) == block_len(d[bi]),
    ensures
        selected_piece(d, a, b, bi) == chars(d[bi].runs),
{
    let bs = flat(d[bi].runs);
    assert(bs.subrange(0, bs.len() as int) =~= bs);
    encode_utf8_decode_utf8(chars(d[bi].runs));
}

proof fn lemma_select_all_upto(d: Seq<BlockView>, a: DocPos, b: DocPos, n: int)
    requires
        1 <= n <= d.len(),
        a == (DocPos { block: 0, byte: 0 }),
        b.block == d.len() - 1,
        b.byte == block_len(d.last()),
    ensures
        selected_upto(d, a, b, n) == plain_chars(d.take(n)),
    decreases n,
{
    let bi = n - 1;
    assert(sel_lo(a, bi) == 0);
    if bi == b.block {
        assert(d[bi] == d.last());
    }
    lemma_whole_piece(d, a, b, bi);
    let t = d.take(n);
    assert(t.last() == d[bi]);
    if n > 1 {
        lemma_select_all_upto(d, a, b, n - 1);
        assert(t.drop_last() =~= d.take(n - 1));
    } else {
        assert(t[0] == d[0]);
    }
}

/// Selecting the whole document selects exactly its text: copying after
/// Select All gives the document's plain text, blocks joined by `\n`.
pub proof fn law_select_all_copies_document(v: CoreView, w: CoreView)
    requires
        core_inv(v),
        all_selected(v, w),
    ensures
        selected_chars(w.doc, selection_spec(w)) == plain_chars(w.doc),
{
    let d = w.doc;
    let a = w.anchor;
    let b = w.caret;
    lemma_doc_len_decompose(d, d.len() - 1);
    lemma_doc_len_ge_count(d);
    assert(b.block == d.len() - 1);
    assert(b.byte == block_len(d.last()));
    crate::position::lemma_ordered_endpoints(selection_spec(w));
    assert(ordered_spec(selection_spec(w)) == (a, b));
    if a == b {
        assert(d.len() == 1);
        lemma_block_len_cells(d[0]);
        lemma_encode_nonempty(chars(d[0].runs));
        assert(plain_chars(d) == chars(d[0].runs));
        assert(chars(d[0].runs) =~= Seq::<char>::empty());
    } else {
        lemma_select_all_upto(d, a, b, d.len() as int);
        assert(d.take(d.len() as int) =~= d);
    }
}

/// Indenting then outdenting a block below the deepest level gives it back;
/// indenting never goes past the deepest level, and outdenting stops at the
/// top level.
pub proof fn law_indent_outdent(x: BlockView)
    ensures
        x.indent < MAX_INDENT ==> edit_block(edit_block(x, BlockEdit::Indent), BlockEdit::Outdent) == x,
        x.indent <= MAX_INDENT ==> edit_block(x, BlockEdit::Indent).indent <= MAX_INDENT,
        x.indent == 0 ==> edit_block(x, BlockEdit::Outdent) == x,
{
}

/// Tab and Shift+Tab are always the editor's (indent, outdent) and never
/// fall through to focus traversal; Tab with Ctrl always does.
pub proof fn law_tab_is_kept(m: Modifiers)
    ensures
        !m.ctrl && !m.meta ==> key_command_spec(Key::Tab, m) != KeyCommand::Ignored,
        !m.ctrl && !m.meta && !m.shift ==> key_command_spec(Key::Tab, m) == KeyCommand::Indent,
        !m.ctrl && !m.meta && m.shift ==> key_command_spec(Key::Tab, m) == KeyCommand::Outdent,
        m.ctrl ==> key_command_spec(Key::Tab, m) == KeyCommand::Ignored,
{
}

/// A preview session that is cancelled after a formatting command gives back
/// exactly the document and selection it began with.
pub proof fn law_preview_cancel_restores(v: CoreView, w1: CoreView, cmd: RichCommand, x: CoreView, w2: CoreView)
    requires
        preview_begun(v, w1),
        executed(w1, cmd, x),
        preview_cancelled(x, w2),
    ensures
        w2.doc == v.doc,
        w2.caret == v.caret,
        w2.anchor == v.anchor,
        w2.saved is None,
        !w2.preview_dirty,
{
    assert(x.saved == w1.saved);
}

proof fn lemma_next_up(en: Seq<bool>, i: int)
    requires
        0 <= i,
        en.len() <= usize::MAX,
    ensures
        match next_up(en, i) {
            Some(r) => i <= r < en.len() && en[r as int] && forall|k: int| i <= k < r ==> !#[trigger] en[k],
            None => forall|k: int| i <= k < en.len() ==> !#[trigger] en[k],
        },
    decreases en.len() - i,
{
    if i < en.len() && !en[i] {
        lemma_next_up(en, i + 1);
    }
}

proof fn lemma_next_down(en: Seq<bool>, i: int)
    requires
        i < en.len(),
        en.len() <= usize::MAX,
    ensures
        match next_down(en, i) {
            Some(r) => 0 <= r <= i && en[r as int] && forall|k: int| r < k <= i ==> !#[trigger] en[k],
            None => forall|k: int| 0 <= k <= i ==> !#[trigger] en[k],
        },
    decreases i + 1,
{
    if i >= 0 && !en[i] {
        lemma_next_down(en, i - 1);
    }
}

/// Arrow keys on a segmented control move to the nearest enabled segment in
/// their direction, skipping only disabled ones; when there is none they
/// find nothing.
pub proof fn law_step_nearest_enabled(en: Seq<bool>, from: int, dir: i64)
    requires
        0 <= from < en.len() <= usize::MAX,
    ensures
        match step_spec(en, from, dir) {
            Some(r) => {
                &&& en[r as int]
                &&& dir > 0 ==> from < r < en.len() && forall|k: int| from < k < r ==> !#[trigger] en[k]
                &&& dir <= 0 ==> 0 <= r < from && forall|k: int| r < k < from ==> !#[trigger] en[k]
            },
            None => dir > 0 ==> forall|k: int| from < k < en.len() ==> !#[trigger] en[k],
        },
        step_spec(en, from, dir) is None && dir <= 0 ==> forall|k: int| 0 <= k < from ==> !#[trigger] en[k],
{
    lemma_next_up(en, from + 1);
    lemma_next_down(en, from - 1);
}

/// Typing text into a block and then removing exactly the typed span gives
/// back the document, when the block's runs were normalized.
pub proof fn law_insert_then_remove(
    d: Seq<BlockView>,
    pos: DocPos,
    t: Seq<char>,
    st: StyleView,
    nd: Seq<BlockView>,
    md: Seq<BlockView>,
)
    requires
        pos.block < d.len(),
        pos.byte <= block_len(d[pos.block as int]),
        normalized(d[pos.block as int].runs),
        t.len() > 0,
        nd.len() == d.len(),
        forall|j: int| 0 <= j < d.len() && j != pos.block ==> #[trigger] nd[j] == d[j],
        holds(
            nd[pos.block as int],
            d[pos.block as int],
            cells(d[pos.block as int].runs).take(pos.byte as int) + run_cells(
                RunView { text: t, style: st },
            ) + cells(d[pos.block as int].runs).skip(pos.byte as int),
        ),
        removed(
            nd,
            crate::position::DocRange {
                start: pos,
                end: DocPos { block: pos.block, byte: (pos.byte + encode_utf8(t).len()) as usize },
            },
            md,
        ),
        pos.byte + encode_utf8(t).len() <= usize::MAX,
    ensures
        md == d,
{
    let i = pos.block as int;
    let p = pos.byte as int;
    let b = d[i];
    let x = cells(b.runs);
    let r = run_cells(RunView { text: t, style: st });
    let l = encode_utf8(t).len() as int;
    lemma_encode_nonempty(t);
    lemma_block_len_cells(b);
    lemma_block_len_cells(nd[i]);
    let y = cells(nd[i].runs);
    assert(y == x.take(p) + r + x.skip(p));
    assert(y.take(p) =~= x.take(p));
    assert(y.skip(p + l) =~= x.skip(p));
    assert(x =~= x.take(p) + x.skip(p));
    let rg = crate::position::DocRange {
        start: pos,
        end: DocPos { block: pos.block, byte: (pos.byte + encode_utf8(t).len()) as usize },
    };
    assert(ordered_spec(rg) == (rg.start, rg.end));
    assert(cells(md[i].runs) == x);
    law_normalized_unique(md[i].runs, b.runs);
    assert(md[i] == b);
    assert(md =~= d);
}

/// A styled copy of a selection within one block, pasted into a fresh editor
/// (one empty plain paragraph, caret at the start), gives a document of one
/// block with the copied block's alignment, list kind and indent and exactly
/// the copied styled text; the caret ends after it.
pub proof fn law_copy_paste_round_trip(v: CoreView, f: Seq<BlockView>, b: CoreView, w: CoreView)
    requires
        extracted(v.doc, selection_spec(v), f),
        f.len() == 1,
        b.doc.len() == 1,
        pristine(b.doc[0]),
        b.caret == (DocPos { block: 0, byte: 0 }),
        b.anchor == b.caret,
        fragment_pasted(b, f, w),
    ensures
        ({
            let (lo, hi) = ordered_spec(selection_spec(v));
            let src = v.doc[lo.block as int];
            &&& w.doc.len() == 1
            &&& holds(
                w.doc[0],
                src,
                cells(src.runs).subrange(extract_lo(v.doc, lo, hi, 0), extract_hi(v.doc, lo, hi, 0)),
            )
            &&& w.caret == (DocPos { block: 0, byte: block_len(w.doc[0]) as usize })
            &&& w.anchor == w.caret
        }),
{
    crate::position::lemma_ordered_endpoints(selection_spec(b));
    let (mid, p) = choose|mid: Seq<BlockView>, p: DocPos|
        {
            &&& removed(b.doc, selection_spec(b), mid)
            &&& spliced(mid, ordered_spec(selection_spec(b)).0, f, w.doc, p)
            &&& w == crate::editor::edited(b, w.doc, p, p)
        };
    assert(mid == b.doc);
    let t = b.doc[0];
    assert(cells(t.runs) =~= Seq::<(u8, StyleView)>::empty());
    assert(cells(t.runs).take(0) + cells(f[0].runs) + cells(t.runs).skip(0) =~= cells(f[0].runs));
    assert(w.doc.len() == 1);
    lemma_block_len_cells(f[0]);
    lemma_block_len_cells(w.doc[0]);
}

/// No byte of the styled bytes `c` is a newline.
pub open spec fn newline_free_cells(c: Seq<(u8, StyleView)>) -> bool {
    forall|i: int| 0 <= i < c.len() ==> (#[trigger] c[i]).0 != 10
}

/// No block of `d` holds a newline: newlines only ever separate blocks.
pub open spec fn newline_free(d: Seq<BlockView>) -> bool {
    forall|j: int| 0 <= j < d.len() ==> newline_free_cells(cells(#[trigger] d[j].runs))
}

/// No line of a text split at its newlines holds a newline.
proof fn lemma_lines_newline_free(bs: Seq<u8>)
    ensures
        forall|j: int, i: int|
            0 <= j < split_lines(bs).len() && 0 <= i < split_lines(bs)[j].len()
                ==> #[trigger] split_lines(bs)[j][i] != 10,
    decreases bs.len(),
{
    if bs.len() > 0 {
        lemma_lines_newline_free(bs.drop_last());
        lemma_split_lines_len(bs.drop_last());
        let rest = split_lines(bs.drop_last());
        let l = split_lines(bs);
        assert forall|j: int, i: int| 0 <= j < l.len() && 0 <= i < l[j].len() implies #[trigger] l[j][i]
            != 10 by {
            if bs.last() == 10 {
                if j < rest.len() {
                    assert(l[j] == rest[j]);
                }
            } else {
                if j < rest.len() - 1 {
                    assert(l[j] == rest[j]);
                } else {
                    assert(l[j] == rest.last().push(bs.last()));
                    if i < rest.last().len() {
                        assert(l[j][i] == rest[rest.len() - 1][i]);
                    }
                }
            }
        }
    }
}

proof fn lemma_free_sub(c: Seq<(u8, StyleView)>, lo: int, hi: int)
    requires
        newline_free_cells(c),
        0 <= lo <= hi <= c.len(),
    ensures
        newline_free_cells(c.subrange(lo, hi)),
{
    assert forall|i: int| 0 <= i < hi - lo implies (#[trigger] c.subrange(lo, hi)[i]).0 != 10 by {
        assert(c.subrange(lo, hi)[i] == c[lo + i]);
    }
}

proof fn lemma_free_concat(a: Seq<(u8, StyleView)>, b: Seq<(u8, StyleView)>)
    requires
        newline_free_cells(a),
        newline_free_cells(b),
    ensures
        newline_free_cells(a + b),
{
    assert forall|i: int| 0 <= i < (a + b).len() implies (#[trigger] (a + b)[i]).0 != 10 by {
        if i < a.len() {
            assert((a + b)[i] == a[i]);
        } else {
            assert((a + b)[i] == b[i - a.len()]);
        }
    }
}

proof fn lemma_free_stamp(bs: Seq<u8>, st: StyleView)
    requires
        forall|i: int| 0 <= i < bs.len() ==> #[trigger] bs[i] != 10,
    ensures
        newline_free_cells(stamp(bs, st)),
{
    assert forall|i: int| 0 <= i < stamp(bs, st).len() implies (#[trigger] stamp(bs, st)[i]).0 != 10 by {
        assert(stamp(bs, st)[i] == (bs[i], st));
    }
}

/// Removing a range from a document without newlines leaves none.
proof fn lemma_removed_newline_free(d: Seq<BlockView>, r: crate::position::DocRange, nd: Seq<BlockView>)
    requires
        newline_free(d),
        removed(d, r, nd),
        ordered_spec(r).0.block < d.len(),
    ensures
        newline_free(nd),
{
    let (a, b) = ordered_spec(r);
    if !(a == b || d.len() == 0) {
        let ai = a.block as int;
        let bb = crate::edit::last_block(d, b);
        let first = d[ai];
        let last = d[bb];
        let h = crate::edit::head_cut(d, a, b);
        let t = clamp_byte(last, b.byte as int);
        lemma_block_len_cells(first);
        lemma_block_len_cells(last);
        assert(newline_free_cells(cells(d[ai].runs)));
        assert(newline_free_cells(cells(d[bb].runs)));
        lemma_free_sub(cells(first.runs), 0, h);
        lemma_free_sub(cells(last.runs), t, cells(last.runs).len() as int);
        lemma_free_concat(cells(first.runs).take(h), cells(last.runs).skip(t));
        assert forall|j: int| 0 <= j < nd.len() implies newline_free_cells(cells(#[trigger] nd[j].runs)) by {
            if j < ai {
                assert(nd[j] == d[j]);
            } else if j > ai {
                assert(nd[j] == d[j + (bb - ai)]);
            }
        }
    }
}

/// Typing lines without newlines into a document without newlines leaves
/// none.
proof fn lemma_inserted_newline_free(
    d: Seq<BlockView>,
    pos: DocPos,
    l: Seq<Seq<u8>>,
    st: StyleView,
    nd: Seq<BlockView>,
)
    requires
        newline_free(d),
        inserted(d, pos, l, st, nd),
        pos.block < d.len(),
        pos.byte <= block_len(d[pos.block as int]),
        l.len() >= 1,
        forall|j: int, i: int| 0 <= j < l.len() && 0 <= i < l[j].len() ==> #[trigger] l[j][i] != 10,
    ensures
        newline_free(nd),
{
    let bi = pos.block as int;
    let k = l.len() - 1;
    let b = d[bi];
    let c = pos.byte as int;
    let bc = cells(b.runs);
    lemma_block_len_cells(b);
    assert(newline_free_cells(cells(d[bi].runs)));
    lemma_free_sub(bc, 0, c);
    lemma_free_sub(bc, c, bc.len() as int);
    let empty = Seq::<(u8, StyleView)>::empty();
    assert(newline_free_cells(empty));
    assert forall|j: int| 0 <= j < nd.len() implies newline_free_cells(cells(#[trigger] nd[j].runs)) by {
        if j < bi {
            assert(nd[j] == d[j]);
        } else if j > bi + k {
            assert(nd[j] == d[j - k]);
        } else {
            let m = j - bi;
            assert(holds(nd[bi + m], b, line_cells(b, c, l, st, m)));
            let head = if m == 0 { bc.take(c) } else { empty };
            let tail = if m == k { bc.skip(c) } else { empty };
            assert forall|i: int| 0 <= i < l[m].len() implies #[trigger] l[m][i] != 10 by {}
            lemma_free_stamp(l[m], st);
            lemma_free_concat(head, stamp(l[m], st));
            lemma_free_concat(head + stamp(l[m], st), tail);
            assert(line_cells(b, c, l, st, m) == head + stamp(l[m], st) + tail);
        }
    }
}

/// Typing never puts a newline inside a block: each newline typed becomes a
/// block break, so a document without newlines in its blocks keeps none.
pub proof fn law_typing_keeps_newlines_as_breaks(v: CoreView, text: Seq<char>, w: CoreView)
    requires
        core_inv(v),
        newline_free(v.doc),
        typed(v, text, w),
    ensures
        newline_free(w.doc),
{
    if text.len() > 0 {
        let sel = selection_spec(v);
        let a = ordered_spec(sel).0;
        let l = split_lines(encode_utf8(text));
        let mid = choose|mid: Seq<BlockView>|
            {
                &&& removed(v.doc, sel, mid)
                &&& inserted(mid, a, l, crate::editor::insert_style_spec(v), w.doc)
                &&& w == crate::editor::edited(v, w.doc, crate::lines::lines_end(a, l), crate::lines::lines_end(a, l))
            };
        crate::position::lemma_ordered_endpoints(sel);
        crate::editor::lemma_removed_caret(v.doc, sel, mid);
        lemma_removed_newline_free(v.doc, sel, mid);
        lemma_lines_newline_free(encode_utf8(text));
        lemma_split_lines_len(encode_utf8(text));
        lemma_inserted_newline_free(mid, a, l, crate::editor::insert_style_spec(v), w.doc);
    }
}

/// Removing between two positions of existing blocks keeps a document free
/// of newlines.
proof fn lemma_removed_range_free(d: Seq<BlockView>, r: crate::position::DocRange, nd: Seq<BlockView>)
    requires
        newline_free(d),
        removed(d, r, nd),
        r.start.block < d.len(),
        r.end.block < d.len(),
    ensures
        newline_free(nd),
{
    crate::position::lemma_ordered_endpoints(r);
    lemma_removed_newline_free(d, r, nd);
}

proof fn lemma_merged_free(d: Seq<BlockView>, idx: int, nd: Seq<BlockView>)
    requires
        newline_free(d),
        merged(d, idx, nd),
        1 <= idx < d.len(),
    ensures
        newline_free(nd),
{
    assert(newline_free_cells(cells(d[idx - 1].runs)));
    assert(newline_free_cells(cells(d[idx].runs)));
    lemma_free_concat(cells(d[idx - 1].runs), cells(d[idx].runs));
    assert forall|j: int| 0 <= j < nd.len() implies newline_free_cells(cells(#[trigger] nd[j].runs)) by {
        if j < idx - 1 {
            assert(nd[j] == d[j]);
        } else if j >= idx {
            assert(nd[j] == d[j + 1]);
        }
    }
}

proof fn lemma_split_free(d: Seq<BlockView>, pos: DocPos, nd: Seq<BlockView>)
    requires
        newline_free(d),
        split_done(d, pos, nd),
        pos.block < d.len(),
    ensures
        newline_free(nd),
{
    let bi = pos.block as int;
    let b = d[bi];
    let c = clamp_byte(b, pos.byte as int);
    lemma_block_len_cells(b);
    assert(newline_free_cells(cells(d[bi].runs)));
    lemma_free_sub(cells(b.runs), 0, c);
    lemma_free_sub(cells(b.runs), c, cells(b.runs).len() as int);
    assert forall|j: int| 0 <= j < nd.len() implies newline_free_cells(cells(#[trigger] nd[j].runs)) by {
        if j < bi {
            assert(nd[j] == d[j]);
        } else if j > bi + 1 {
            assert(nd[j] == d[j - 1]);
        }
    }
}

proof fn lemma_same_text_free(d: Seq<BlockView>, nd: Seq<BlockView>)
    requires
        newline_free(d),
        nd.len() == d.len(),
        forall|j: int| 0 <= j < d.len() ==> #[trigger] flat(nd[j].runs) == flat(d[j].runs),
    ensures
        newline_free(nd),
{
    assert forall|j: int| 0 <= j < nd.len() implies newline_free_cells(cells(#[trigger] nd[j].runs)) by {
        crate::runs::lemma_cells_flat(nd[j].runs);
        crate::runs::lemma_cells_flat(d[j].runs);
        assert(newline_free_cells(cells(d[j].runs)));
        assert forall|i: int| 0 <= i < cells(nd[j].runs).len() implies (#[trigger] cells(nd[j].runs)[i]).0
            != 10 by {
            assert(cells(nd[j].runs)[i].0 == flat(nd[j].runs)[i]);
            assert(cells(d[j].runs)[i].0 == flat(d[j].runs)[i]);
        }
    }
}

proof fn lemma_backspaced_free(v: CoreView, w: CoreView)
    requires
        core_inv(v),
        newline_free(v.doc),
        crate::editor::backspaced(v, w),
    ensures
        newline_free(w.doc),
{
    let cb = v.caret.block as int;
    if v.anchor != v.caret {
        lemma_removed_range_free(v.doc, selection_spec(v), w.doc);
    } else if v.caret.byte > 0 {
        let p = DocPos { block: v.caret.block, byte: floor_boundary(flat(v.doc[cb].runs), v.caret.byte - 1) as usize };
        lemma_removed_range_free(v.doc, crate::position::DocRange { start: p, end: v.caret }, w.doc);
    } else if v.caret.block > 0 {
        lemma_merged_free(v.doc, cb, w.doc);
    }
}

proof fn lemma_deleted_forward_free(v: CoreView, w: CoreView)
    requires
        core_inv(v),
        newline_free(v.doc),
        crate::editor::deleted_forward(v, w),
    ensures
        newline_free(w.doc),
{
    let cb = v.caret.block as int;
    if v.anchor != v.caret {
        lemma_removed_range_free(v.doc, selection_spec(v), w.doc);
    } else if v.caret.byte < block_len(v.doc[cb]) {
        let q = DocPos { block: v.caret.block, byte: crate::text::ceil_boundary(flat(v.doc[cb].runs), v.caret.byte + 1) as usize };
        lemma_removed_range_free(v.doc, crate::position::DocRange { start: v.caret, end: q }, w.doc);
    } else if cb + 1 < v.doc.len() {
        lemma_merged_free(v.doc, cb + 1, w.doc);
    }
}

proof fn lemma_word_deleted_free(v: CoreView, w: CoreView)
    requires
        core_inv(v),
        newline_free(v.doc),
        crate::editor::word_deleted_backward(v, w) || crate::editor::word_deleted_forward(v, w),
    ensures
        newline_free(w.doc),
{
    let back = crate::nav::word_target_spec(v.doc, v.caret, -1i32);
    let fwd = crate::nav::word_target_spec(v.doc, v.caret, 1i32);
    assert(back.block < v.doc.len());
    assert(fwd.block < v.doc.len());
    if v.anchor != v.caret {
        lemma_removed_range_free(v.doc, selection_spec(v), w.doc);
    } else if crate::editor::word_deleted_backward(v, w) {
        if back != v.caret {
            lemma_removed_range_free(v.doc, crate::position::DocRange { start: back, end: v.caret }, w.doc);
        }
    } else {
        if fwd != v.caret {
            lemma_removed_range_free(v.doc, crate::position::DocRange { start: v.caret, end: fwd }, w.doc);
        }
    }
}

proof fn lemma_entered_free(v: CoreView, w: CoreView)
    requires
        core_inv(v),
        newline_free(v.doc),
        crate::editor::entered(v, w),
    ensures
        newline_free(w.doc),
{
    let sel = selection_spec(v);
    let a = ordered_spec(sel).0;
    let mid = choose|mid: Seq<BlockView>|
        #![trigger removed(v.doc, sel, mid)]
        {
            let blk = mid[a.block as int];
            &&& removed(v.doc, sel, mid)
            &&& if blk.list != crate::model::ListKind::Plain && block_len(blk) == 0 {
                w == crate::editor::edited(v, mid.update(a.block as int, crate::editor::list_exit(blk)), a, a)
            } else {
                &&& split_done(mid, a, w.doc)
                &&& w == crate::editor::edited(
                    v,
                    w.doc,
                    DocPos { block: (a.block + 1) as usize, byte: 0 },
                    DocPos { block: (a.block + 1) as usize, byte: 0 },
                )
            }
        };
    crate::position::lemma_ordered_endpoints(sel);
    crate::editor::lemma_removed_caret(v.doc, sel, mid);
    lemma_removed_newline_free(v.doc, sel, mid);
    let blk = mid[a.block as int];
    if blk.list != crate::model::ListKind::Plain && block_len(blk) == 0 {
        let nd = mid.update(a.block as int, crate::editor::list_exit(blk));
        assert forall|j: int| 0 <= j < nd.len() implies newline_free_cells(cells(#[trigger] nd[j].runs)) by {
            assert(nd[j].runs == mid[j].runs);
        }
    } else {
        lemma_split_free(mid, a, w.doc);
    }
}

/// A formatting command never changes the text of the document, so a
/// document whose blocks hold no newline keeps none.
pub proof fn law_formatting_keeps_newlines_as_breaks(v: CoreView, cmd: RichCommand, w: CoreView)
    requires
        newline_free(v.doc),
        executed(v, cmd, w),
    ensures
        newline_free(w.doc),
{
    if !(v.anchor == v.caret && crate::editor::is_inline_spec(cmd)) {
        crate::editor::lemma_command_keeps_text(v.doc, selection_spec(v), cmd, w.doc);
        lemma_same_text_free(v.doc, w.doc);
    }
}

/// [`newline_free`] of a state's document, as a value, for properties of
/// the whole undo history.
pub open spec fn newline_free_fn() -> spec_fn((Seq<BlockView>, DocPos, DocPos)) -> bool {
    |s: (Seq<BlockView>, DocPos, DocPos)| newline_free(s.0)
}

/// No key press puts a newline inside a block: Enter and a typed newline
/// break the block, every other edit only removes, joins, splits or
/// restyles text, and undo and redo return to states the history holds. A
/// document whose blocks hold no newline, with a history of such documents,
/// keeps none, and so does its history.
pub proof fn law_keys_keep_newlines_as_breaks(
    v: CoreView,
    c: KeyCommand,
    w: CoreView,
    out: crate::keys::KeyOutcome,
)
    requires
        core_inv(v),
        newline_free(v.doc),
        all_states(v.history, newline_free_fn()),
        crate::keys::key_handled(v, c, w, out),
    ensures
        newline_free(w.doc),
        all_states(w.history, newline_free_fn()),
{
    match c {
        KeyCommand::Backspace => lemma_backspaced_free(v, w),
        KeyCommand::Delete => lemma_deleted_forward_free(v, w),
        KeyCommand::DeleteWordBackward => lemma_word_deleted_free(v, w),
        KeyCommand::DeleteWordForward => lemma_word_deleted_free(v, w),
        KeyCommand::Enter => lemma_entered_free(v, w),
        KeyCommand::Indent => law_formatting_keeps_newlines_as_breaks(v, RichCommand::Indent, w),
        KeyCommand::Outdent => law_formatting_keeps_newlines_as_breaks(v, RichCommand::Outdent, w),
        KeyCommand::Cut => {
            if !(w == v) {
                lemma_backspaced_free(v, w);
            }
        },
        KeyCommand::Insert(ch) => law_typing_keeps_newlines_as_breaks(v, seq![ch], w),
        KeyCommand::Undo => {
            assert(newline_free_fn()(crate::editor::snap_of(v)));
            lemma_undo_redo_keep(v.history, crate::editor::snap_of(v), newline_free_fn());
        },
        KeyCommand::Redo => {
            assert(newline_free_fn()(crate::editor::snap_of(v)));
            lemma_undo_redo_keep(v.history, crate::editor::snap_of(v), newline_free_fn());
        },
        _ => {},
    }
}

/// A fragment copied out of a document without newlines holds none.
pub proof fn law_copied_fragment_has_no_newlines(d: Seq<BlockView>, r: crate::position::DocRange, f: Seq<BlockView>)
    requires
        newline_free(d),
        extracted(d, r, f),
    ensures
        newline_free(f),
{
    let (a, b) = ordered_spec(r);
    assert forall|k: int| 0 <= k < f.len() implies newline_free_cells(cells(#[trigger] f[k].runs)) by {
        let src = d[a.block + k];
        let lo = extract_lo(d, a, b, k);
        let hi = extract_hi(d, a, b, k);
        assert(a.block + k < d.len());
        lemma_block_len_cells(src);
        assert(newline_free_cells(cells(d[a.block + k].runs)));
        lemma_free_sub(cells(src.runs), lo, hi);
        assert(holds(f[k], src, cells(src.runs).subrange(lo, hi)));
    }
}

proof fn lemma_spliced_free(d: Seq<BlockView>, pos: DocPos, f: Seq<BlockView>, nd: Seq<BlockView>, p: DocPos)
    requires
        newline_free(d),
        newline_free(f),
        spliced(d, pos, f, nd, p),
        pos.block < d.len(),
    ensures
        newline_free(nd),
{
    let i = pos.block as int;
    let t = d[i];
    let c = clamp_byte(t, pos.byte as int);
    let n = f.len();
    lemma_block_len_cells(t);
    assert(newline_free_cells(cells(d[i].runs)));
    lemma_free_sub(cells(t.runs), 0, c);
    lemma_free_sub(cells(t.runs), c, cells(t.runs).len() as int);
    if n == 1 {
        assert(newline_free_cells(cells(f[0].runs)));
        lemma_free_concat(cells(t.runs).take(c), cells(f[0].runs));
        lemma_free_concat(cells(t.runs).take(c) + cells(f[0].runs), cells(t.runs).skip(c));
        assert forall|j: int| 0 <= j < nd.len() implies newline_free_cells(cells(#[trigger] nd[j].runs)) by {
            if j != i {
                assert(nd[j] == d[j]);
            }
        }
    } else if n > 1 {
        assert(newline_free_cells(cells(f[0].runs)));
        assert(newline_free_cells(cells(f[n - 1].runs)));
        lemma_free_concat(cells(t.runs).take(c), cells(f[0].runs));
        lemma_free_concat(cells(f[n - 1].runs), cells(t.runs).skip(c));
        assert forall|j: int| 0 <= j < nd.len() implies newline_free_cells(cells(#[trigger] nd[j].runs)) by {
            if j < i {
                assert(nd[j] == d[j]);
            } else if i < j < i + n - 1 {
                assert(nd[j] == f[j - i]);
            } else if j > i + n - 1 {
                assert(nd[j] == d[j - (n - 1)]);
            }
        }
    }
}

/// Pasting a styled fragment without newlines into a document without
/// newlines leaves none: the fragment's blocks stay blocks.
pub proof fn law_paste_keeps_newlines_as_breaks(v: CoreView, f: Seq<BlockView>, w: CoreView)
    requires
        core_inv(v),
        newline_free(v.doc),
        newline_free(f),
        fragment_pasted(v, f, w),
    ensures
        newline_free(w.doc),
{
    let sel = selection_spec(v);
    let a = ordered_spec(sel).0;
    let (mid, p) = choose|mid: Seq<BlockView>, p: DocPos|
        {
            &&& removed(v.doc, sel, mid)
            &&& spliced(mid, a, f, w.doc, p)
            &&& w == crate::editor::edited(v, w.doc, p, p)
        };
    crate::position::lemma_ordered_endpoints(sel);
    crate::editor::lemma_removed_caret(v.doc, sel, mid);
    lemma_removed_newline_free(v.doc, sel, mid);
    lemma_spliced_free(mid, a, f, w.doc, p);
}

/// A burst of changes coalesces into one undo step: once the changed state
/// `s` has held still for `STABLE_MS` it becomes an undo point, one undo
/// from it returns to the state before the burst, and a redo from there
/// brings `s` back.
pub proof fn law_settled_change_is_one_undo_step(h: crate::undo::UndoView, t: u64, s: (Seq<BlockView>, DocPos, DocPos))
    requires
        h.undos.len() >= 1,
        h.undos.last() != s,
        h.flux matches Some(f) && f.latest == s && elapsed_at_least(t, f.latest_change, STABLE_MS),
    ensures
        ({
            let base = h.undos.last();
            let h2 = fed(h, t, s);
            let (h3, back) = undone(h2, s);
            &&& has_undo_spec(h2, s)
            &&& back == Some(base)
            &&& redone(h3, base).1 == Some(s)
        }),
{
    let base = h.undos.last();
    let u = h.undos.push(s);
    let h2 = fed(h, t, s);
    if u.len() > crate::undo::MAX_UNDOS {
        let k = u.len() - crate::undo::MAX_UNDOS;
        assert(u.skip(k).last() == u[u.len() - 1]);
        assert(u.skip(k)[u.skip(k).len() - 2] == u[u.len() - 2]);
    }
    assert(h2.undos.len() >= 2);
    assert(h2.undos.last() == s);
    assert(h2.undos.drop_last().last() == base);
}

/// Cutting a range and pasting the cut fragment back where the cut left
/// the caret gives back the document's blocks and styled text: the same
/// number of blocks, every block with the same styled characters, the
/// blocks outside the range untouched, every block but the last of the
/// range keeping its attributes (the last takes the first's, as a
/// multi-block paste does), and the caret at the range's far end.
#[verifier::spinoff_prover]
#[verifier::rlimit(100)]
pub proof fn law_cut_then_paste_restores(
    d: Seq<BlockView>,
    r: crate::position::DocRange,
    f: Seq<BlockView>,
    mid: Seq<BlockView>,
    nd: Seq<BlockView>,
    p: DocPos,
)
    requires
        caret_ok(d, r.start),
        caret_ok(d, r.end),
        r.start != r.end,
        extracted(d, r, f),
        removed(d, r, mid),
        spliced(mid, ordered_spec(r).0, f, nd, p),
    ensures
        ({
            let (a, b) = ordered_spec(r);
            &&& p == b
            &&& nd.len() == d.len()
            &&& forall|j: int| 0 <= j < d.len() ==> #[trigger] cells(nd[j].runs) == cells(d[j].runs)
            &&& forall|j: int| 0 <= j < d.len() && (j < a.block || j > b.block) ==> #[trigger] nd[j] == d[j]
            &&& forall|j: int|
                a.block <= j < b.block ==> (#[trigger] nd[j]).align == d[j].align && nd[j].list
                    == d[j].list && nd[j].indent == d[j].indent
        }),
{
    crate::position::lemma_ordered_endpoints(r);
    let (a, b) = ordered_spec(r);
    let i = a.block as int;
    let bb = b.block as int;
    let n = f.len() as int;
    let first = d[i];
    let last = d[bb];
    lemma_block_len_cells(first);
    lemma_block_len_cells(last);
    assert(crate::edit::last_block(d, b) == bb);
    assert(n == bb - i + 1);
    assert(crate::edit::head_cut(d, a, b) == a.byte);
    assert(clamp_byte(last, b.byte as int) == b.byte);
    let m = mid[i];
    let cf = cells(first.runs);
    let cl = cells(last.runs);
    assert(cells(m.runs) == cf.take(a.byte as int) + cl.skip(b.byte as int));
    lemma_block_len_cells(m);
    assert(clamp_byte(m, a.byte as int) == a.byte);
    assert(cells(m.runs).take(a.byte as int) =~= cf.take(a.byte as int));
    assert(cells(m.runs).skip(a.byte as int) =~= cl.skip(b.byte as int));
    lemma_block_len_cells(f[0]);
    lemma_block_len_cells(f[n - 1]);
    if n == 1 {
        assert(extract_lo(d, a, b, 0) == a.byte);
        assert(extract_hi(d, a, b, 0) == b.byte);
        assert(cells(f[0].runs) == cf.subrange(a.byte as int, b.byte as int));
        assert(cf.take(a.byte as int) + cf.subrange(a.byte as int, b.byte as int) + cf.skip(b.byte as int) =~= cf);
        assert(mid.len() == d.len());
        assert(nd.len() == mid.len());
        assert forall|j: int| 0 <= j < d.len() && j != i implies #[trigger] nd[j] == d[j] by {
            assert(nd[j] == mid[j]);
            if j < i {
                assert(mid[j] == d[j]);
            } else {
                assert(mid[j] == d.skip(bb + 1)[j - i - 1]);
            }
        }
    } else {
        assert(extract_lo(d, a, b, 0) == a.byte);
        assert(extract_hi(d, a, b, 0) == block_len(first));
        assert(cells(f[0].runs) == cf.subrange(a.byte as int, block_len(first)));
        assert(extract_lo(d, a, b, n - 1) == 0);
        assert(extract_hi(d, a, b, n - 1) == b.byte);
        assert(cells(f[n - 1].runs) == cells(d[i + n - 1].runs).subrange(0, b.byte as int));
        assert(cf.take(a.byte as int) + cf.subrange(a.byte as int, block_len(first)) =~= cf);
        assert(cl.subrange(0, b.byte as int) + cl.skip(b.byte as int) =~= cl);
        assert(mid.len() == d.len() - (bb - i));
        assert(nd.len() == d.len());
        assert forall|j: int| 0 <= j < d.len() implies #[trigger] cells(nd[j].runs) == cells(d[j].runs) by {
            if j < i {
                assert(nd[j] == mid[j]);
                assert(mid[j] == d[j]);
            } else if i < j < bb {
                assert(nd[j] == f[j - i]);
                let k = j - i;
                lemma_block_len_cells(d[j]);
                assert(extract_lo(d, a, b, k) == 0);
                assert(extract_hi(d, a, b, k) == block_len(d[j]));
                assert(cells(d[j].runs).subrange(0, block_len(d[j])) =~= cells(d[j].runs));
            } else if j > bb {
                assert(nd[j] == mid.skip(i + 1)[j - bb - 1]);
                assert(mid[j - (bb - i)] == d[j]);
            }
        }
        assert forall|j: int| 0 <= j < d.len() && (j < i || j > bb) implies #[trigger] nd[j] == d[j] by {
            if j < i {
                assert(nd[j] == mid[j]);
                assert(mid[j] == d[j]);
            } else {
                assert(nd[j] == mid.skip(i + 1)[j - bb - 1]);
                assert(mid[j - (bb - i)] == d[j]);
            }
        }
        assert forall|j: int| i <= j < bb implies (#[trigger] nd[j]).align == d[j].align && nd[j].list
            == d[j].list && nd[j].indent == d[j].indent by {
            if j > i {
                assert(nd[j] == f[j - i]);
            }
        }
    }
}

/// `SetList(k)` over a range: the blocks outside the range are untouched and
/// the touched blocks keep their text, alignment and indent. A plain `k`
/// makes every touched block a plain paragraph. A list kind `k` turns every
/// touched block into a `k` item, unless every touched block already is
/// one, in which case they all become plain paragraphs (the button toggles
/// the list off).
pub proof fn law_set_list(d: Seq<BlockView>, r: crate::position::DocRange, k: crate::model::ListKind, nd: Seq<BlockView>)
    requires
        crate::commands::command_applied(d, r, RichCommand::SetList(k), nd),
    ensures
        ({
            let (a, b) = ordered_spec(r);
            let all_k = forall|j: int| a.block <= j <= b.block && j < d.len() ==> #[trigger] d[j].list == k;
            &&& nd.len() == d.len()
            &&& forall|j: int|
                0 <= j < d.len() && !(a.block <= j <= b.block) ==> #[trigger] nd[j] == d[j]
            &&& forall|j: int|
                0 <= j < d.len() && a.block <= j <= b.block ==> (#[trigger] nd[j]).runs == d[j].runs
                    && nd[j].align == d[j].align && nd[j].indent == d[j].indent
            &&& k == crate::model::ListKind::Plain ==> forall|j: int|
                0 <= j < d.len() && a.block <= j <= b.block ==> (#[trigger] nd[j]).list
                    == crate::model::ListKind::Plain
            &&& k != crate::model::ListKind::Plain && !all_k ==> forall|j: int|
                0 <= j < d.len() && a.block <= j <= b.block ==> (#[trigger] nd[j]).list == k
            &&& k != crate::model::ListKind::Plain && all_k ==> forall|j: int|
                0 <= j < d.len() && a.block <= j <= b.block ==> (#[trigger] nd[j]).list
                    == crate::model::ListKind::Plain
        }),
{
    let (a, b) = ordered_spec(r);
    let t = crate::commands::list_target(d, r, k);
    assert forall|j: int| 0 <= j < d.len() && a.block <= j <= b.block implies (#[trigger] nd[j]).list == t
        && nd[j].runs == d[j].runs && nd[j].align == d[j].align && nd[j].indent == d[j].indent by {
        assert(crate::commands::touches(d, a, b, j));
    }
    assert forall|j: int| 0 <= j < d.len() && !(a.block <= j <= b.block) implies #[trigger] nd[j] == d[j] by {
        assert(!crate::commands::touches(d, a, b, j));
    }
    if k != crate::model::ListKind::Plain {
        let all_k = forall|j: int| a.block <= j <= b.block && j < d.len() ==> #[trigger] d[j].list == k;
        if all_k {
            assert forall|j: int| crate::commands::touches(d, a, b, j) implies #[trigger] d[j].list == k by {}
        } else {
            let j0 = choose|j: int| !(a.block <= j <= b.block && j < d.len() ==> #[trigger] d[j].list == k);
            assert(crate::commands::touches(d, a, b, j0));
        }
    }
}

/// An ASCII letter, digit or `_`.
pub open spec fn ascii_word_char(b: u8) -> bool {
    (48 <= b <= 57) || (65 <= b <= 90) || (97 <= b <= 122) || b == 95
}

proof fn lemma_skip_back_run(bs: Seq<u8>, j: int, i: int, w: bool)
    requires
        0 <= j <= i <= bs.len(),
        forall|t: int| j <= t < i ==> crate::words::is_word_byte(#[trigger] bs[t]) == w,
        j == 0 || crate::words::is_word_byte(bs[j - 1]) != w,
    ensures
        crate::words::skip_back(bs, i, w) == j,
    decreases i - j,
{
    if i > j {
        lemma_skip_back_run(bs, j, i - 1, w);
    }
}

proof fn lemma_skip_fwd_run(bs: Seq<u8>, i: int, k: int, w: bool)
    requires
        0 <= i <= k <= bs.len(),
        forall|t: int| i <= t < k ==> crate::words::is_word_byte(#[trigger] bs[t]) == w,
        k == bs.len() || crate::words::is_word_byte(bs[k]) != w,
    ensures
        crate::words::skip_fwd(bs, i, w) == k,
    decreases k - i,
{
    if i < k {
        lemma_skip_fwd_run(bs, i + 1, k, w);
    }
}

/// A word motion to the left from the end of a run of ASCII letters, digits
/// and `_` that follows a space (or starts the block) lands at the start of
/// that run: digits belong to words as letters do.
pub proof fn law_word_left_stops_at_word_start(d: Seq<BlockView>, p: DocPos, j: int)
    requires
        p.block < d.len(),
        0 <= j < p.byte <= flat(d[p.block as int].runs).len(),
        forall|t: int| j <= t < p.byte ==> ascii_word_char(#[trigger] flat(d[p.block as int].runs)[t]),
        j == 0 || flat(d[p.block as int].runs)[j - 1] == 32,
    ensures
        crate::nav::word_target_spec(d, p, -1i32) == (DocPos { block: p.block, byte: j as usize }),
{
    let bs = flat(d[p.block as int].runs);
    let i = p.byte as int;
    lemma_skip_back_run(bs, i, i, false);
    lemma_skip_back_run(bs, j, i, true);
}

/// A word motion to the right from the start of a run of ASCII letters,
/// digits and `_` goes over that run and the spaces after it, stopping at
/// the next word or the end of the block.
pub proof fn law_word_right_skips_word_and_spaces(d: Seq<BlockView>, p: DocPos, i: int, k: int)
    requires
        p.block < d.len(),
        p.byte < i <= k <= flat(d[p.block as int].runs).len(),
        forall|t: int| p.byte <= t < i ==> ascii_word_char(#[trigger] flat(d[p.block as int].runs)[t]),
        forall|t: int| i <= t < k ==> #[trigger] flat(d[p.block as int].runs)[t] == 32,
        i == k ==> k == flat(d[p.block as int].runs).len(),
        k < flat(d[p.block as int].runs).len() ==> ascii_word_char(flat(d[p.block as int].runs)[k]),
    ensures
        crate::nav::word_target_spec(d, p, 1i32) == (DocPos { block: p.block, byte: k as usize }),
{
    let bs = flat(d[p.block as int].runs);
    lemma_skip_fwd_run(bs, p.byte as int, i, true);
    lemma_skip_fwd_run(bs, i, k, false);
}

/// The style at a position of a block with runs is the style of the
/// character just before it, and at the start of the block the style of its
/// first run: text typed at the start of a bold paragraph is bold.
pub proof fn law_style_at_follows_the_text(d: Seq<BlockView>, pos: DocPos)
    requires
        pos.block < d.len(),
        d[pos.block as int].runs.len() > 0,
        pos.byte <= block_len(d[pos.block as int]),
    ensures
        pos.byte == 0 ==> crate::commands::style_at_spec(d, pos) == d[pos.block as int].runs[0].style,
        pos.byte > 0 ==> crate::commands::style_at_spec(d, pos) == cells(d[pos.block as int].runs)[pos.byte - 1].1,
{
    crate::runs::lemma_cells_flat(d[pos.block as int].runs);
}

/// With nothing pending, text typed at the start of a block with runs takes
/// the style of the block's first run.
pub proof fn law_typing_at_block_start_takes_first_run_style(v: CoreView)
    requires
        core_inv(v),
        v.pending is None,
        v.caret.byte == 0,
        v.doc[v.caret.block as int].runs.len() > 0,
    ensures
        crate::editor::insert_style_spec(v) == v.doc[v.caret.block as int].runs[0].style,
{
}

/// Left and Right arrows with Ctrl or Meta move the caret one word (to the
/// word target), without them one character; Shift keeps the anchor,
/// otherwise the selection collapses there. The document is unchanged.
pub proof fn law_arrows_move_by_words_with_ctrl(v: CoreView, key: Key, m: Modifiers, w: CoreView, out: crate::keys::KeyOutcome)
    requires
        core_inv(v),
        key == Key::ArrowLeft || key == Key::ArrowRight,
        crate::keys::key_handled(v, key_command_spec(key, m), w, out),
    ensures
        ({
            let dir: i32 = if key == Key::ArrowLeft { -1i32 } else { 1i32 };
            let t = if m.ctrl || m.meta {
                crate::nav::word_target_spec(v.doc, v.caret, dir)
            } else {
                crate::nav::char_target_spec(v.doc, v.caret, dir)
            };
            &&& w.doc == v.doc
            &&& w.caret == clamp_pos_spec(v.doc, t)
            &&& w.anchor == (if m.shift { v.anchor } else { w.caret })
            &&& out is Handled
        }),
{
}

/// The arrow keys of a segmented control: Right and Down select the nearest
/// enabled segment after the selected one, Left and Up the nearest enabled
/// one before it, skipping only disabled segments; with none that way they
/// find nothing.
pub proof fn law_segment_arrows(en: Seq<bool>, cell: usize, key: Key)
    requires
        0 < en.len() <= usize::MAX,
        key == Key::ArrowLeft || key == Key::ArrowRight || key == Key::ArrowUp || key == Key::ArrowDown,
    ensures
        ({
            let cur = crate::segments::selected_spec(en.len(), cell) as int;
            let forward = key == Key::ArrowRight || key == Key::ArrowDown;
            match crate::segments::key_target(en, cur, key) {
                Some(Some(i)) => {
                    &&& en[i as int]
                    &&& forward ==> cur < i < en.len() && forall|t: int| cur < t < i ==> !#[trigger] en[t]
                    &&& !forward ==> 0 <= i < cur && forall|t: int| i < t < cur ==> !#[trigger] en[t]
                },
                Some(None) => {
                    &&& forward ==> forall|t: int| cur < t < en.len() ==> !#[trigger] en[t]
                    &&& !forward ==> forall|t: int| 0 <= t < cur ==> !#[trigger] en[t]
                },
                None => false,
            }
        }),
{
    let cur = crate::segments::selected_spec(en.len(), cell) as int;
    law_step_nearest_enabled(en, cur, 1i64);
    law_step_nearest_enabled(en, cur, -1i64);
}

} // verus!
