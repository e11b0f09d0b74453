//! Structural edits of a document: typing, removing a range, splitting and
//! merging blocks, and extracting or splicing styled fragments.
use vstd::prelude::*;
use vstd::utf8::*;
use crate::docview::{clamp_byte, doc_len, holds, lemma_block_len_cells, lemma_doc_len_decompose, lemma_doc_len_pair, lemma_doc_len_single, lemma_doc_len_splice, lemma_doc_len_update};
use crate::model::{Block, BlockView, ListKind, RichDoc, TextRun, append_copies, block_len, doc_blocks, runs_view};
use crate::align::TextHAlign;
use crate::position::{DocPos, DocRange, ordered_spec, pos_le};
use crate::runs::{RunView, cells, flat, lemma_cells_concat, lemma_cells_single, lemma_cells_take_skip, lemma_prefix_bounds, lemma_take_all, prefix_len, run_cells};
use crate::style::InlineStyle;

verus! {

broadcast use encode_utf8_valid_utf8;

/// Whether `byte` may be used as an edit position in block `b`: past its end,
/// or on a character boundary of its text.
pub open spec fn edit_pos_ok(b: BlockView, byte: int) -> bool {
    byte > block_len(b) || is_char_boundary(flat(b.runs), byte)
}

/// Insert `text` (all in `style`) at `pos`, merging it with neighbouring runs
/// of the same style. A position past the end of its block inserts at the
/// block's end; an empty text or a block past the document changes nothing.
pub fn insert_text(doc: &mut RichDoc, pos: DocPos, text: &str, style: InlineStyle)
    requires
        doc_len(old(doc)@) + encode_utf8(text@).len() <= usize::MAX,
        text@.len() > 0 && pos.block < old(doc)@.len() ==> edit_pos_ok(
            old(doc)@[pos.block as int],
            pos.byte as int,
        ),
    ensures
        text@.len() == 0 || pos.block >= old(doc)@.len() ==> final(doc)@ == old(doc)@,
        text@.len() > 0 && pos.block < old(doc)@.len() ==> ({
            let b = old(doc)@[pos.block as int];
            let p = clamp_byte(b, pos.byte as int);
            &&& final(doc)@.len() == old(doc)@.len()
            &&& forall|j: int|
                0 <= j < old(doc)@.len() && j != pos.block ==> #[trigger] final(doc)@[j]
                    == old(doc)@[j]
            &&& holds(
                final(doc)@[pos.block as int],
                b,
                cells(b.runs).take(p) + run_cells(RunView { text: text@, style: style@ })
                    + cells(b.runs).skip(p),
            )
            &&& doc_len(final(doc)@) == doc_len(old(doc)@) + encode_utf8(text@).len()
        }),
{
    if text.is_empty() {
        return;
    }
    if pos.block >= doc.blocks.len() {
        return;
    }
    let ghost d = doc@;
    let ghost i = pos.block as int;
    let mut block = doc.blocks.remove(pos.block);
    proof {
        assert(block@ == d[i]);
        lemma_doc_len_decompose(d, i);
    }
    block.insert_run_at(pos.byte, TextRun::new(text, style));
    let ghost nb = block@;
    doc.blocks.insert(pos.block, block);
    proof {
        assert(doc@ =~= d.update(i, nb));
        lemma_doc_len_update(d, i, nb);
        lemma_block_len_cells(nb);
        lemma_block_len_cells(d[i]);
    }
}

/// Merge block `idx` into block `idx - 1` (Backspace at a paragraph start),
/// keeping the previous block's attributes. Returns the join position. Block 0
/// or a block past the document is a no-op returning the start of `idx`.
pub fn merge_block_with_prev(doc: &mut RichDoc, idx: usize) -> (p: DocPos)
    requires
        doc_len(old(doc)@) <= usize::MAX,
    ensures
        idx == 0 || idx >= old(doc)@.len() ==> final(doc)@ == old(doc)@ && p.block == idx
            && p.byte == 0,
        0 < idx < old(doc)@.len() ==> ({
            let prev = old(doc)@[idx - 1];
            let cur = old(doc)@[idx as int];
            &&& p.block == idx - 1
            &&& p.byte == block_len(prev)
            &&& final(doc)@.len() == old(doc)@.len() - 1
            &&& forall|j: int| 0 <= j < idx - 1 ==> #[trigger] final(doc)@[j] == old(doc)@[j]
            &&& forall|j: int| idx <= j < final(doc)@.len() ==> #[trigger] final(doc)@[j] == old(
                doc,
            )@[j + 1]
            &&& holds(final(doc)@[idx - 1], prev, cells(prev.runs) + cells(cur.runs))
            &&& doc_len(final(doc)@) == doc_len(old(doc)@) - 1
        }),
{
    if idx == 0 || idx >= doc.blocks.len() {
        return DocPos { block: idx, byte: 0 };
    }
    let ghost d = doc@;
    let ghost i = idx as int;
    proof {
        lemma_doc_len_decompose(d, i - 1);
        assert(doc.blocks@[i - 1]@ == d[i - 1]);
    }
    let join_byte = doc.blocks[idx - 1].text_len();
    let mut block = doc.blocks.remove(idx);
    let mut prev = doc.blocks.remove(idx - 1);
    proof {
        assert(block@ == d[i]);
        assert(prev@ == d[i - 1]);
    }
    let ghost pr = prev@.runs;
    let ghost br = block@.runs;
    prev.runs.append(&mut block.runs);
    proof {
        assert(prev@.runs =~= pr + br);
        lemma_cells_concat(pr, br);
    }
    prev.normalize();
    let ghost nb = prev@;
    doc.blocks.insert(idx - 1, prev);
    proof {
        let mid = seq![nb];
        assert(doc@ =~= d.take(i - 1) + mid + d.skip(i + 1));
        lemma_doc_len_splice(d, i - 1, i + 1, mid);
        assert(d.subrange(i - 1, i + 1) =~= seq![d[i - 1], d[i]]);
        lemma_doc_len_pair(d[i - 1], d[i]);
        lemma_doc_len_single(nb);
        lemma_block_len_cells(nb);
        lemma_block_len_cells(d[i - 1]);
        lemma_block_len_cells(d[i]);
    }
    DocPos { block: idx - 1, byte: join_byte }
}

/// Split the block at `pos` into two paragraphs (Enter), both keeping the
/// original's attributes. Returns the start of the new second block. A block
/// past the document is a no-op returning `pos`.
pub fn split_block(doc: &mut RichDoc, pos: DocPos) -> (p: DocPos)
    requires
        doc_len(old(doc)@) < usize::MAX,
        pos.block < old(doc)@.len() ==> edit_pos_ok(old(doc)@[pos.block as int], pos.byte as int),
    ensures
        pos.block >= old(doc)@.len() ==> final(doc)@ == old(doc)@ && p == pos,
        pos.block < old(doc)@.len() ==> ({
            let b = old(doc)@[pos.block as int];
            let c = clamp_byte(b, pos.byte as int);
            &&& p.block == pos.block + 1
            &&& p.byte == 0
            &&& final(doc)@.len() == old(doc)@.len() + 1
            &&& forall|j: int| 0 <= j < pos.block ==> #[trigger] final(doc)@[j] == old(doc)@[j]
            &&& forall|j: int|
                pos.block + 1 < j < final(doc)@.len() ==> #[trigger] final(doc)@[j] == old(
                    doc,
                )@[j - 1]
            &&& holds(final(doc)@[pos.block as int], b, cells(b.runs).take(c))
            &&& holds(final(doc)@[pos.block + 1], b, cells(b.runs).skip(c))
            &&& doc_len(final(doc)@) == doc_len(old(doc)@) + 1
        }),
{
    if pos.block >= doc.blocks.len() {
        return pos;
    }
    let ghost d = doc@;
    let ghost i = pos.block as int;
    let mut block = doc.blocks.remove(pos.block);
    proof {
        assert(block@ == d[i]);
        lemma_doc_len_decompose(d, i);
    }
    let tail_runs = block.split_runs_at(pos.byte);
    block.normalize();
    let mut new_block = Block { runs: tail_runs, align: block.align, list: block.list, indent: block.indent };
    new_block.normalize();
    let ghost h = block@;
    let ghost t = new_block@;
    doc.blocks.insert(pos.block, block);
    doc.blocks.insert(pos.block + 1, new_block);
    proof {
        let mid = seq![h, t];
        assert(doc@ =~= d.take(i) + mid + d.skip(i + 1));
        lemma_doc_len_splice(d, i, i + 1, mid);
        assert(d.subrange(i, i + 1) =~= seq![d[i]]);
        lemma_doc_len_single(d[i]);
        lemma_doc_len_pair(h, t);
        lemma_block_len_cells(h);
        lemma_block_len_cells(t);
        lemma_block_len_cells(d[i]);
        assert(cells(d[i].runs) =~= cells(d[i].runs).take(clamp_byte(d[i], pos.byte as int)) + cells(d[i].runs).skip(clamp_byte(d[i], pos.byte as int)));
    }
    DocPos { block: pos.block + 1, byte: 0 }
}


/// The block a range's high endpoint `b` falls in, clamped to the last block.
pub open spec fn last_block(d: Seq<BlockView>, b: DocPos) -> int {
    if b.block < d.len() {
        b.block as int
    } else {
        d.len() - 1
    }
}

/// The inputs on which removing `r` is defined: the low endpoint names a
/// block of the document and both endpoints are usable edit positions.
pub open spec fn remove_ok(d: Seq<BlockView>, r: DocRange) -> bool {
    let (a, b) = ordered_spec(r);
    a != b ==> {
        &&& d.len() == 0 ==> a.block == 0
        &&& d.len() > 0 ==> {
            &&& a.block < d.len()
            &&& edit_pos_ok(d[a.block as int], a.byte as int)
            &&& edit_pos_ok(d[last_block(d, b)], b.byte as int)
        }
    }
}

/// Where the kept head of the first block ends when removing `[a, b)`.
pub open spec fn head_cut(d: Seq<BlockView>, a: DocPos, b: DocPos) -> int {
    let pa = clamp_byte(d[a.block as int], a.byte as int);
    let pb = clamp_byte(d[last_block(d, b)], b.byte as int);
    if a.block == last_block(d, b) && pb < pa {
        pb
    } else {
        pa
    }
}

/// `nd` is `d` with everything between the ordered endpoints of `r` removed:
/// the head of the first touched block joined to the tail of the last one,
/// keeping the first block's attributes.
pub open spec fn removed(d: Seq<BlockView>, r: DocRange, nd: Seq<BlockView>) -> bool {
    let (a, b) = ordered_spec(r);
    if a == b || d.len() == 0 {
        nd == d
    } else {
        let bb = last_block(d, b);
        let first = d[a.block as int];
        let last = d[bb];
        &&& nd.len() == d.len() - (bb - a.block)
        &&& nd == d.take(a.block as int) + seq![nd[a.block as int]] + d.skip(bb + 1)
        &&& holds(
            nd[a.block as int],
            first,
            cells(first.runs).take(head_cut(d, a, b)) + cells(last.runs).skip(
                clamp_byte(last, b.byte as int),
            ),
        )
    }
}

#[verifier::rlimit(30)]
fn remove_within_block(doc: &mut RichDoc, i: usize, lo: usize, hi: usize)
    requires
        doc_len(old(doc)@) <= usize::MAX,
        i < old(doc)@.len(),
        edit_pos_ok(old(doc)@[i as int], lo as int),
        edit_pos_ok(old(doc)@[i as int], hi as int),
    ensures
        ({
            let d = old(doc)@;
            let pa = clamp_byte(d[i as int], lo as int);
            let pb = clamp_byte(d[i as int], hi as int);
            let cut = if pb < pa { pb } else { pa };
            &&& final(doc)@ == d.take(i as int) + seq![final(doc)@[i as int]] + d.skip(i + 1)
            &&& final(doc)@.len() == d.len()
            &&& holds(final(doc)@[i as int], d[i as int], cells(d[i as int].runs).take(cut) + cells(
                d[i as int].runs,
            ).skip(pb))
            &&& doc_len(final(doc)@) <= doc_len(d)
        }),
{
    let ghost d = doc@;
    let ghost k = i as int;
    let ghost pa = clamp_byte(d[k], lo as int);
    let ghost pb = clamp_byte(d[k], hi as int);
    let ghost cut = if pb < pa { pb } else { pa };
    let mut block = doc.blocks.remove(i);
    proof {
        assert(block@ == d[k]);
        lemma_doc_len_decompose(d, k);
    }
    let ghost f0 = flat(block@.runs);
    let ghost c0 = cells(block@.runs);
    let mut tail = block.split_runs_at(hi);
    let ghost h1 = block@.runs;
    proof {
        lemma_block_len_cells(d[k]);
        crate::runs::lemma_flat_concat(block@.runs, runs_view(tail@));
        assert(flat(block@.runs) + flat(runs_view(tail@)) =~= f0);
        assert(flat(h1).len() == pb);
        if lo as int <= pb {
            crate::runs::lemma_boundary_in_prefix(block@.runs, runs_view(tail@), lo as int);
        }
    }
    let _dropped = block.split_runs_at(lo);
    let ghost hr = block@.runs;
    let ghost tr = runs_view(tail@);
    proof {
        assert(crate::model::clamp_to(h1, lo as int) == cut);
        assert(cells(hr) == c0.take(pb).take(cut));
        assert(c0.take(pb).take(cut) =~= c0.take(cut));
        assert(cells(tr) == c0.skip(pb));
    }
    block.runs.append(&mut tail);
    proof {
        assert(block@.runs =~= hr + tr);
        lemma_cells_concat(hr, tr);
    }
    block.normalize();
    let ghost nb = block@;
    doc.blocks.insert(i, block);
    proof {
        let k = i as int;
        assert(doc@ =~= d.take(k) + seq![nb] + d.skip(k + 1));
        assert(doc@[k] == nb);
        lemma_doc_len_update(d, k, nb);
        assert(d.update(k, nb) =~= doc@);
        lemma_block_len_cells(nb);
        lemma_block_len_cells(d[k]);
    }
}

#[verifier::rlimit(30)]
fn remove_across_blocks(doc: &mut RichDoc, i: usize, j: usize, lo: usize, hi: usize)
    requires
        doc_len(old(doc)@) <= usize::MAX,
        i < j < old(doc)@.len(),
        edit_pos_ok(old(doc)@[i as int], lo as int),
        edit_pos_ok(old(doc)@[j as int], hi as int),
    ensures
        ({
            let d = old(doc)@;
            &&& final(doc)@ == d.take(i as int) + seq![final(doc)@[i as int]] + d.skip(j + 1)
            &&& final(doc)@.len() == d.len() - (j - i)
            &&& holds(
                final(doc)@[i as int],
                d[i as int],
                cells(d[i as int].runs).take(clamp_byte(d[i as int], lo as int)) + cells(
                    d[j as int].runs,
                ).skip(clamp_byte(d[j as int], hi as int)),
            )
            &&& doc_len(final(doc)@) <= doc_len(d)
        }),
{
    let ghost d = doc@;
    let n = doc.blocks.len();
    assert(n == d.len());
    let mut after = doc.blocks.split_off(j + 1);
    let ghost rest = doc_blocks(after@);
    proof {
        assert(rest =~= d.skip(j + 1));
    }
    let mut last = doc.blocks.pop().unwrap();
    doc.blocks.truncate(i + 1);
    let mut first = doc.blocks.pop().unwrap();
    proof {
        assert(last@ == d[j as int]);
        assert(first@ == d[i as int]);
        assert(doc@ =~= d.take(i as int));
        lemma_doc_len_decompose(d, i as int);
        lemma_doc_len_decompose(d, j as int);
    }
    let mut tail = last.split_runs_at(hi);
    let _dropped = first.split_runs_at(lo);
    let ghost hr = first@.runs;
    let ghost tr = runs_view(tail@);
    first.runs.append(&mut tail);
    proof {
        assert(first@.runs =~= hr + tr);
        lemma_cells_concat(hr, tr);
    }
    first.normalize();
    let ghost nb = first@;
    proof {
        lemma_block_len_cells(nb);
        lemma_block_len_cells(d[i as int]);
        lemma_block_len_cells(d[j as int]);
        crate::docview::lemma_doc_len_merge(d, i as int, j as int, nb);
    }
    doc.blocks.push(first);
    doc.blocks.append(&mut after);
    proof {
        assert(doc@ =~= d.take(i as int) + seq![nb] + rest);
    }
}

/// Remove everything inside `range`, keeping the styles of the surviving
/// text. A range spanning blocks joins the head of its first block to the tail
/// of its last one. A high endpoint past the document counts as the end of the
/// last block. Returns the low endpoint.
pub fn remove_range(doc: &mut RichDoc, range: DocRange) -> (p: DocPos)
    requires
        doc_len(old(doc)@) <= usize::MAX,
        remove_ok(old(doc)@, range),
    ensures
        p == ordered_spec(range).0,
        removed(old(doc)@, range, final(doc)@),
        doc_len(final(doc)@) <= doc_len(old(doc)@),
{
    let (a, b) = range.ordered();
    if a == b {
        return a;
    }
    let len = doc.blocks.len();
    if len == 0 {
        return a;
    }
    let bb = if b.block < len { b.block } else { len - 1 };
    if a.block == bb {
        remove_within_block(doc, a.block, a.byte, b.byte);
    } else {
        remove_across_blocks(doc, a.block, bb, a.byte, b.byte);
    }
    a
}


/// The high cut in source block `a.block + k` when extracting `[a, b)`.
pub open spec fn extract_hi(d: Seq<BlockView>, a: DocPos, b: DocPos, k: int) -> int {
    let src = d[a.block + k];
    if a.block + k == last_block(d, b) {
        clamp_byte(src, b.byte as int)
    } else {
        block_len(src)
    }
}

/// The low cut in source block `a.block + k` when extracting `[a, b)`.
pub open spec fn extract_lo(d: Seq<BlockView>, a: DocPos, b: DocPos, k: int) -> int {
    let hi = extract_hi(d, a, b, k);
    if k == 0 {
        let lo = clamp_byte(d[a.block as int], a.byte as int);
        if lo <= hi {
            lo
        } else {
            hi
        }
    } else {
        0
    }
}

/// How many blocks extracting `r` yields.
pub open spec fn extract_count(d: Seq<BlockView>, r: DocRange) -> int {
    let (a, b) = ordered_spec(r);
    if a == b || d.len() == 0 || a.block > last_block(d, b) {
        0
    } else {
        last_block(d, b) - a.block + 1
    }
}

/// The inputs on which extracting `r` is defined: both cuts are usable edit
/// positions.
pub open spec fn extract_ok(d: Seq<BlockView>, r: DocRange) -> bool {
    let (a, b) = ordered_spec(r);
    extract_count(d, r) > 0 ==> {
        &&& edit_pos_ok(d[last_block(d, b)], b.byte as int)
        &&& a.byte <= extract_hi(d, a, b, 0) ==> edit_pos_ok(d[a.block as int], a.byte as int)
    }
}

fn copy_block_part(src: &Block, lo: usize, hi: usize) -> (out: Block)
    requires
        block_len(src@) <= usize::MAX,
        edit_pos_ok(src@, hi as int),
        lo <= clamp_byte(src@, hi as int) ==> edit_pos_ok(src@, lo as int),
    ensures
        ({
            let h = clamp_byte(src@, hi as int);
            let l = if lo <= h { lo as int } else { h };
            holds(out@, src@, cells(src@.runs).subrange(l, h))
        }),
{
    let mut block = src.duplicate();
    let ghost c0 = cells(block@.runs);
    let ghost f0 = flat(block@.runs);
    let ghost h = clamp_byte(src@, hi as int);
    let tail = block.split_runs_at(hi);
    proof {
        lemma_block_len_cells(src@);
        crate::runs::lemma_flat_concat(block@.runs, runs_view(tail@));
        assert(flat(block@.runs) + flat(runs_view(tail@)) =~= f0);
        assert(flat(block@.runs).len() == h);
        if lo as int <= h {
            crate::runs::lemma_boundary_in_prefix(block@.runs, runs_view(tail@), lo as int);
        }
    }
    let ghost h1 = block@.runs;
    let kept = block.split_runs_at(lo);
    proof {
        let l = if lo <= h { lo as int } else { h };
        assert(crate::model::clamp_to(h1, lo as int) == l);
        assert(cells(runs_view(kept@)) == c0.take(h).skip(l));
        assert(c0.take(h).skip(l) =~= c0.subrange(l, h));
    }
    block.runs = kept;
    block.normalize();
    block
}

/// Copy the content within `range` out as standalone blocks, keeping each
/// run's style and each source block's attributes. A collapsed range gives no
/// blocks.
pub fn extract_range(doc: &RichDoc, range: DocRange) -> (out: Vec<Block>)
    requires
        doc_len(doc@) <= usize::MAX,
        extract_ok(doc@, range),
    ensures
        ({
            let (a, b) = ordered_spec(range);
            let d = doc@;
            &&& out@.len() == extract_count(d, range)
            &&& forall|k: int|
                0 <= k < out@.len() ==> holds(
                    #[trigger] out@[k]@,
                    d[a.block + k],
                    cells(d[a.block + k].runs).subrange(
                        extract_lo(d, a, b, k),
                        extract_hi(d, a, b, k),
                    ),
                )
        }),
{
    let ghost d = doc@;
    let (a, b) = range.ordered();
    let mut out: Vec<Block> = Vec::new();
    if a == b {
        return out;
    }
    let len = doc.blocks.len();
    if len == 0 {
        return out;
    }
    let bb = if b.block < len { b.block } else { len - 1 };
    if a.block > bb {
        return out;
    }
    let mut bi = a.block;
    while bi <= bb
        invariant
            d == doc@,
            a == ordered_spec(range).0,
            b == ordered_spec(range).1,
            a != b,
            len == d.len(),
            bb == last_block(d, b),
            a.block <= bi <= bb + 1,
            bb < len,
            doc_len(d) <= usize::MAX,
            extract_ok(d, range),
            extract_count(d, range) == bb - a.block + 1,
            out@.len() == bi - a.block,
            forall|k: int|
                0 <= k < out@.len() ==> holds(
                    #[trigger] out@[k]@,
                    d[a.block + k],
                    cells(d[a.block + k].runs).subrange(
                        extract_lo(d, a, b, k),
                        extract_hi(d, a, b, k),
                    ),
                ),
        decreases bb + 1 - bi,
    {
        let ghost k = bi - a.block;
        proof {
            crate::docview::lemma_doc_len_decompose(d, bi as int);
            assert(doc.blocks@[bi as int]@ == d[bi as int]);
            vstd::utf8::is_char_boundary_start_end_of_seq(flat(d[bi as int].runs));
        }
        let src = &doc.blocks[bi];
        let hi = if bi == bb { b.byte } else { src.text_len() };
        let lo = if bi == a.block { a.byte } else { 0 };
        let part = copy_block_part(src, lo, hi);
        let ghost before = out@;
        out.push(part);
        proof {
            assert(out@[k]@ == part@);
            assert forall|j: int| 0 <= j < out@.len() implies holds(
                #[trigger] out@[j]@,
                d[a.block + j],
                cells(d[a.block + j].runs).subrange(extract_lo(d, a, b, j), extract_hi(d, a, b, j)),
            ) by {
                if j < k {
                    assert(out@[j] == before[j]);
                }
            }
        }
        bi += 1;
    }
    out
}


/// Whether `t` is a pristine empty paragraph: no runs and default attributes.
pub open spec fn pristine(t: BlockView) -> bool {
    t.runs.len() == 0 && t.align == TextHAlign::Left && t.list == ListKind::Plain && t.indent == 0
}

fn splice_inline(target: &mut Block, byte: usize, piece: &Block)
    requires
        block_len(old(target)@) + block_len(piece@) <= usize::MAX,
        edit_pos_ok(old(target)@, byte as int),
    ensures
        ({
            let t = old(target)@;
            let c = clamp_byte(t, byte as int);
            holds(
                final(target)@,
                if pristine(t) { piece@ } else { t },
                cells(t.runs).take(c) + cells(piece@.runs) + cells(t.runs).skip(c),
            )
        }),
{
    let adopt = target.runs.len() == 0 && target.align == TextHAlign::Left && target.list
        == ListKind::Plain && target.indent == 0;
    let mut tail = target.split_runs_at(byte);
    let ghost h = target@.runs;
    let ghost t = runs_view(tail@);
    append_copies(&mut target.runs, &piece.runs);
    target.runs.append(&mut tail);
    proof {
        assert(target@.runs =~= h + piece@.runs + t);
        lemma_cells_concat(h + piece@.runs, t);
        lemma_cells_concat(h, piece@.runs);
    }
    target.normalize();
    if adopt {
        target.align = piece.align;
        target.list = piece.list;
        target.indent = piece.indent;
    }
}

/// Insert a `fragment` of blocks (as produced by [`extract_range`]) at `pos`,
/// keeping run styles. One block splices inline (a pristine empty paragraph
/// takes the fragment's attributes); several blocks split the target
/// paragraph: its head takes the first fragment block, the interior blocks go
/// in as they are, and the last fragment block is joined to the target's tail
/// with the target's attributes. Returns the caret position at the end of the
/// inserted content.
pub fn splice_fragment(doc: &mut RichDoc, pos: DocPos, fragment: &[Block]) -> (p: DocPos)
    requires
        doc_len(old(doc)@) + doc_len(doc_blocks(fragment@)) <= usize::MAX,
        fragment@.len() > 0 && pos.block < old(doc)@.len() ==> edit_pos_ok(
            old(doc)@[pos.block as int],
            pos.byte as int,
        ),
        fragment@.len() == 1 && pos.block < old(doc)@.len() ==> pos.byte + block_len(
            fragment@[0]@,
        ) <= usize::MAX,
    ensures
        fragment@.len() == 0 || pos.block >= old(doc)@.len() ==> final(doc)@ == old(doc)@ && p
            == pos,
        fragment@.len() == 1 && pos.block < old(doc)@.len() ==> ({
            let d = old(doc)@;
            let i = pos.block as int;
            let t = d[i];
            let c = clamp_byte(t, pos.byte as int);
            let f0 = fragment@[0]@;
            &&& final(doc)@ == d.update(i, final(doc)@[i])
            &&& holds(
                final(doc)@[i],
                if pristine(t) { f0 } else { t },
                cells(t.runs).take(c) + cells(f0.runs) + cells(t.runs).skip(c),
            )
            &&& p.block == pos.block
            &&& p.byte == pos.byte + block_len(f0)
        }),
        fragment@.len() >= 2 && pos.block < old(doc)@.len() ==> ({
            let d = old(doc)@;
            let f = doc_blocks(fragment@);
            let n = f.len();
            let i = pos.block as int;
            let t = d[i];
            let c = clamp_byte(t, pos.byte as int);
            &&& final(doc)@ == d.take(i) + seq![final(doc)@[i]] + f.subrange(1, n - 1) + seq![
                final(doc)@[i + n - 1],
            ] + d.skip(i + 1)
            &&& holds(final(doc)@[i], t, cells(t.runs).take(c) + cells(f[0].runs))
            &&& holds(final(doc)@[i + n - 1], t, cells(f[n - 1].runs) + cells(t.runs).skip(c))
            &&& p.block == pos.block + n - 1
            &&& p.byte == block_len(f[n - 1])
        }),
        doc_len(final(doc)@) <= doc_len(old(doc)@) + doc_len(doc_blocks(fragment@)),
{
    proof {
        crate::docview::lemma_doc_len_nonneg(doc_blocks(fragment@));
    }
    if fragment.len() == 0 {
        return pos;
    }
    if pos.block >= doc.blocks.len() {
        return pos;
    }
    let ghost d = doc@;
    let ghost f = doc_blocks(fragment@);
    let ghost i = pos.block as int;
    proof {
        lemma_doc_len_decompose(d, i);
        lemma_doc_len_decompose(f, 0);
        assert(fragment@[0]@ == f[0]);
    }
    if fragment.len() == 1 {
        let mut target = doc.blocks.remove(pos.block);
        proof {
            assert(target@ == d[i]);
        }
        let added = fragment[0].text_len();
        splice_inline(&mut target, pos.byte, &fragment[0]);
        let ghost nb = target@;
        doc.blocks.insert(pos.block, target);
        proof {
            assert(doc@ =~= d.update(i, nb));
            lemma_doc_len_update(d, i, nb);
            lemma_block_len_cells(nb);
            lemma_block_len_cells(d[i]);
            lemma_block_len_cells(f[0]);
        }
        return DocPos { block: pos.block, byte: pos.byte + added };
    }
    splice_blocks(doc, pos, fragment)
}

/// Split `target` at `byte` and attach the fragment's first block to the head
/// and its last block in front of the tail; both keep the target's attributes.
fn fragment_ends(target: Block, byte: usize, first: &Block, last: &Block) -> (r: (Block, Block))
    requires
        block_len(target@) <= usize::MAX,
        edit_pos_ok(target@, byte as int),
    ensures
        holds(r.0@, target@, cells(target@.runs).take(clamp_byte(target@, byte as int)) + cells(first@.runs)),
        holds(r.1@, target@, cells(last@.runs) + cells(target@.runs).skip(clamp_byte(target@, byte as int))),
{
    let mut target = target;
    let ghost t0 = target@;
    let mut tail = target.split_runs_at(byte);
    let ghost hr = target@.runs;
    let ghost tr = runs_view(tail@);
    append_copies(&mut target.runs, &first.runs);
    proof {
        assert(target@.runs =~= hr + first@.runs);
        lemma_cells_concat(hr, first@.runs);
    }
    target.normalize();
    let mut last_block = Block { runs: Vec::new(), align: target.align, list: target.list, indent: target.indent };
    proof {
        assert(runs_view(last_block.runs@) =~= Seq::<RunView>::empty());
    }
    append_copies(&mut last_block.runs, &last.runs);
    let ghost lr = last_block@.runs;
    last_block.runs.append(&mut tail);
    proof {
        assert(lr =~= last@.runs);
        assert(last_block@.runs =~= last@.runs + tr);
        lemma_cells_concat(last@.runs, tr);
    }
    last_block.normalize();
    (target, last_block)
}

fn splice_blocks(doc: &mut RichDoc, pos: DocPos, fragment: &[Block]) -> (p: DocPos)
    requires
        doc_len(old(doc)@) + doc_len(doc_blocks(fragment@)) <= usize::MAX,
        fragment@.len() >= 2,
        pos.block < old(doc)@.len(),
        edit_pos_ok(old(doc)@[pos.block as int], pos.byte as int),
    ensures
        ({
            let d = old(doc)@;
            let f = doc_blocks(fragment@);
            let n = f.len();
            let i = pos.block as int;
            let t = d[i];
            let c = clamp_byte(t, pos.byte as int);
            &&& final(doc)@ == d.take(i) + seq![final(doc)@[i]] + f.subrange(1, n - 1) + seq![
                final(doc)@[i + n - 1],
            ] + d.skip(i + 1)
            &&& holds(final(doc)@[i], t, cells(t.runs).take(c) + cells(f[0].runs))
            &&& holds(final(doc)@[i + n - 1], t, cells(f[n - 1].runs) + cells(t.runs).skip(c))
            &&& p.block == pos.block + n - 1
            &&& p.byte == block_len(f[n - 1])
            &&& doc_len(final(doc)@) <= doc_len(old(doc)@) + doc_len(doc_blocks(fragment@))
        }),
{
    let ghost d = doc@;
    let ghost f = doc_blocks(fragment@);
    let ghost i = pos.block as int;
    let n = fragment.len();
    proof {
        lemma_doc_len_decompose(d, i);
        lemma_doc_len_decompose(f, n - 1);
        assert(fragment@[0]@ == f[0]);
        assert(fragment@[n - 1]@ == f[n - 1]);
        crate::docview::lemma_doc_len_ge_count(d);
        crate::docview::lemma_doc_len_ge_count(f);
    }
    let end_byte = fragment[n - 1].text_len();
    let target = doc.blocks.remove(pos.block);
    proof {
        assert(target@ == d[i]);
    }
    let (head, last) = fragment_ends(target, pos.byte, &fragment[0], &fragment[n - 1]);
    let ghost h = head@;
    let ghost l = last@;
    let mut after = doc.blocks.split_off(pos.block);
    let ghost rest = doc_blocks(after@);
    proof {
        assert(rest =~= d.skip(i + 1));
        assert(doc@ =~= d.take(i));
    }
    doc.blocks.push(head);
    let mut k: usize = 1;
    while k < n - 1
        invariant
            1 <= k <= n - 1,
            n == f.len(),
            f == doc_blocks(fragment@),
            doc@ == d.take(i) + seq![h] + f.subrange(1, k as int),
        decreases n - 1 - k,
    {
        let b = fragment[k].duplicate();
        proof {
            assert(b@ == f[k as int]);
        }
        let ghost before = doc@;
        doc.blocks.push(b);
        proof {
            assert(doc@ =~= before.push(f[k as int]));
            assert(f.subrange(1, k + 1) =~= f.subrange(1, k as int).push(f[k as int]));
        }
        k += 1;
    }
    doc.blocks.push(last);
    doc.blocks.append(&mut after);
    proof {
        let inner = f.subrange(1, n - 1);
        assert(doc@ =~= d.take(i) + seq![h] + inner + seq![l] + rest);
        assert(doc@[i] == h);
        assert(doc@[i + n - 1] == l);
        lemma_splice_len(d, f, i, h, l, clamp_byte(d[i], pos.byte as int));
    }
    DocPos { block: pos.block + n - 1, byte: end_byte }
}

proof fn lemma_splice_len(d: Seq<BlockView>, f: Seq<BlockView>, i: int, h: BlockView, l: BlockView, c: int)
    requires
        0 <= i < d.len(),
        f.len() >= 2,
        0 <= c <= block_len(d[i]),
        cells(h.runs) == cells(d[i].runs).take(c) + cells(f[0].runs),
        cells(l.runs) == cells(f[f.len() - 1].runs) + cells(d[i].runs).skip(c),
    ensures
        doc_len(d.take(i) + seq![h] + f.subrange(1, f.len() - 1) + seq![l] + d.skip(i + 1))
            <= doc_len(d) + doc_len(f),
{
    let n = f.len();
    let inner = f.subrange(1, n - 1);
    crate::docview::lemma_doc_len_splice_many(d, i, h, inner, l);
    lemma_block_len_cells(h);
    lemma_block_len_cells(l);
    lemma_block_len_cells(d[i]);
    lemma_block_len_cells(f[0]);
    lemma_block_len_cells(f[n - 1]);
    assert(f =~= seq![f[0]] + inner + seq![f[n - 1]]);
    crate::docview::lemma_doc_len_concat(seq![f[0]] + inner, seq![f[n - 1]]);
    crate::docview::lemma_doc_len_concat(seq![f[0]], inner);
    lemma_doc_len_single(f[0]);
    lemma_doc_len_single(f[n - 1]);
}

} // verus!
