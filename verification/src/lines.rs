//! Text typed with line breaks: its lines, and the styled cells it leaves
//! in the blocks it touches.
use vstd::prelude::*;
use vstd::utf8::*;
use crate::docview::{clamp_byte, holds, lemma_block_len_cells};
use crate::model::{BlockView, block_len};
use crate::position::DocPos;
use crate::runs::{RunView, cells, run_cells};
use crate::style::StyleView;

verus! {

broadcast use encode_utf8_valid_utf8;

/// The lines of `bs`: the byte runs between its newline bytes, in order.
/// There is always at least one (possibly empty) line.
pub open spec fn split_lines(bs: Seq<u8>) -> Seq<Seq<u8>>
    decreases bs.len(),
{
    if bs.len() == 0 {
        seq![Seq::<u8>::empty()]
    } else {
        let rest = split_lines(bs.drop_last());
        if bs.last() == 10 {
            rest.push(Seq::<u8>::empty())
        } else {
            rest.update(rest.len() - 1, rest.last().push(bs.last()))
        }
    }
}

/// Every byte of `bs` drawn in style `st`.
pub open spec fn stamp(bs: Seq<u8>, st: StyleView) -> Seq<(u8, StyleView)> {
    bs.map_values(|b: u8| (b, st))
}

/// The styled bytes of line `j` when the lines `l` are typed at byte `c` of
/// block `b`: the first line follows the block's head, the last line is
/// followed by its tail.
pub open spec fn line_cells(b: BlockView, c: int, l: Seq<Seq<u8>>, st: StyleView, j: int) -> Seq<(u8, StyleView)> {
    let head = if j == 0 { cells(b.runs).take(c) } else { Seq::empty() };
    let tail = if j == l.len() - 1 { cells(b.runs).skip(c) } else { Seq::empty() };
    head + stamp(l[j], st) + tail
}

/// `nd` is `d` with the lines `l` typed in style `st` at `pos`: block
/// `pos.block` becomes one block per line, each with its attributes.
pub open spec fn inserted(d: Seq<BlockView>, pos: DocPos, l: Seq<Seq<u8>>, st: StyleView, nd: Seq<BlockView>) -> bool {
    let i = pos.block as int;
    let k = l.len() - 1;
    let b = d[i];
    &&& nd.len() == d.len() + k
    &&& forall|j: int| 0 <= j < i ==> #[trigger] nd[j] == d[j]
    &&& forall|j: int| i + k < j < nd.len() ==> #[trigger] nd[j] == d[j - k]
    &&& forall|j: int| 0 <= j <= k ==> holds(#[trigger] nd[i + j], b, line_cells(b, pos.byte as int, l, st, j))
}

/// Where the caret lands after typing the lines `l` at `pos`: at the end of
/// the last line.
pub open spec fn lines_end(pos: DocPos, l: Seq<Seq<u8>>) -> DocPos {
    let k = l.len() - 1;
    DocPos {
        block: (pos.block + k) as usize,
        byte: ((if k == 0 { pos.byte as int } else { 0 }) + l[k].len()) as usize,
    }
}

pub proof fn lemma_split_lines_len(bs: Seq<u8>)
    ensures
        split_lines(bs).len() >= 1,
        split_lines(bs).len() <= bs.len() + 1,
    decreases bs.len(),
{
    if bs.len() > 0 {
        lemma_split_lines_len(bs.drop_last());
    }
}

/// One more byte either starts a new line (a newline) or extends the last.
pub proof fn lemma_split_lines_step(bs: Seq<u8>, m: int)
    requires
        0 <= m < bs.len(),
    ensures
        split_lines(bs.take(m + 1)) == if bs[m] == 10 {
            split_lines(bs.take(m)).push(Seq::<u8>::empty())
        } else {
            split_lines(bs.take(m)).update(
                split_lines(bs.take(m)).len() - 1,
                split_lines(bs.take(m)).last().push(bs[m]),
            )
        },
{
    assert(bs.take(m + 1).drop_last() =~= bs.take(m));
    assert(bs.take(m + 1).last() == bs[m]);
}

/// Typing nothing leaves the document as it is, caret included.
pub proof fn lemma_inserted_start(d: Seq<BlockView>, pos: DocPos, st: StyleView)
    requires
        pos.block < d.len(),
        0 <= pos.byte <= block_len(d[pos.block as int]),
        crate::runs::normalized(d[pos.block as int].runs),
    ensures
        inserted(d, pos, seq![Seq::<u8>::empty()], st, d),
{
    let b = d[pos.block as int];
    let l = seq![Seq::<u8>::empty()];
    lemma_block_len_cells(b);
    let c = pos.byte as int;
    assert(stamp(Seq::<u8>::empty(), st) =~= Seq::<(u8, StyleView)>::empty());
    assert(line_cells(b, c, l, st, 0) =~= cells(b.runs).take(c) + cells(b.runs).skip(c));
    assert(cells(b.runs) =~= cells(b.runs).take(c) + cells(b.runs).skip(c));
    assert(d[pos.block + 0] == b);
}

/// Filling the (empty) last line with `p`: the block that line lives in
/// gets `p`'s bytes where the caret was.
#[verifier::rlimit(60)]
pub proof fn lemma_fill_line(
    d: Seq<BlockView>,
    pos: DocPos,
    l: Seq<Seq<u8>>,
    st: StyleView,
    cur: Seq<BlockView>,
    p: Seq<char>,
    nd: Seq<BlockView>,
)
    requires
        pos.block < d.len(),
        0 <= pos.byte <= block_len(d[pos.block as int]),
        l.len() >= 1,
        l.last() == Seq::<u8>::empty(),
        inserted(d, pos, l, st, cur),
        ({
            let k = l.len() - 1;
            let t = pos.block + k;
            let blk = cur[t];
            let q = if k == 0 { pos.byte as int } else { 0 };
            &&& nd.len() == cur.len()
            &&& forall|j: int| 0 <= j < cur.len() && j != t ==> #[trigger] nd[j] == cur[j]
            &&& holds(
                nd[t],
                blk,
                cells(blk.runs).take(clamp_byte(blk, q)) + run_cells(RunView { text: p, style: st })
                    + cells(blk.runs).skip(clamp_byte(blk, q)),
            )
        }),
    ensures
        inserted(d, pos, l.update(l.len() - 1, encode_utf8(p)), st, nd),
{
    let k = l.len() - 1;
    let i = pos.block as int;
    let t = i + k;
    let b = d[i];
    let c = pos.byte as int;
    let blk = cur[t];
    let q = if k == 0 { c } else { 0 };
    let l2 = l.update(k, encode_utf8(p));
    lemma_block_len_cells(b);
    lemma_block_len_cells(blk);
    assert(holds(cur[i + k], b, line_cells(b, c, l, st, k)));
    let head = if k == 0 { cells(b.runs).take(c) } else { Seq::<(u8, StyleView)>::empty() };
    let tail = cells(b.runs).skip(c);
    assert(stamp(Seq::<u8>::empty(), st) =~= Seq::<(u8, StyleView)>::empty());
    assert(cells(blk.runs) =~= head + tail);
    assert(head.len() == q);
    assert(clamp_byte(blk, q) == q);
    assert(cells(blk.runs).take(q) =~= head);
    assert(cells(blk.runs).skip(q) =~= tail);
    assert(run_cells(RunView { text: p, style: st }) =~= stamp(encode_utf8(p), st));
    assert(line_cells(b, c, l2, st, k) =~= head + stamp(encode_utf8(p), st) + tail);
    assert forall|j: int| 0 <= j <= k implies holds(#[trigger] nd[i + j], b, line_cells(b, c, l2, st, j)) by {
        if j < k {
            assert(nd[i + j] == cur[i + j]);
            assert(holds(cur[i + j], b, line_cells(b, c, l, st, j)));
            assert(line_cells(b, c, l2, st, j) == line_cells(b, c, l, st, j));
        }
    }
}

/// Breaking the line at the caret: the block of the last line is cut after
/// its text, and a new empty last line begins.
#[verifier::rlimit(60)]
pub proof fn lemma_break_line(
    d: Seq<BlockView>,
    pos: DocPos,
    l: Seq<Seq<u8>>,
    st: StyleView,
    cur: Seq<BlockView>,
    nd: Seq<BlockView>,
)
    requires
        pos.block < d.len(),
        0 <= pos.byte <= block_len(d[pos.block as int]),
        l.len() >= 1,
        inserted(d, pos, l, st, cur),
        ({
            let k = l.len() - 1;
            let t = pos.block + k;
            let b = cur[t];
            let cut = lines_end(pos, l).byte as int;
            let cc = clamp_byte(b, cut);
            &&& lines_end(pos, l).byte == (if k == 0 { pos.byte as int } else { 0 }) + l[k].len()
            &&& nd.len() == cur.len() + 1
            &&& forall|j: int| 0 <= j < t ==> #[trigger] nd[j] == cur[j]
            &&& forall|j: int| t + 1 < j < nd.len() ==> #[trigger] nd[j] == cur[j - 1]
            &&& holds(nd[t], b, cells(b.runs).take(cc))
            &&& holds(nd[t + 1], b, cells(b.runs).skip(cc))
        }),
    ensures
        inserted(d, pos, l.push(Seq::<u8>::empty()), st, nd),
{
    let k = l.len() - 1;
    let i = pos.block as int;
    let t = i + k;
    let b = d[i];
    let c = pos.byte as int;
    let blk = cur[t];
    let l2 = l.push(Seq::<u8>::empty());
    lemma_block_len_cells(b);
    lemma_block_len_cells(blk);
    assert(holds(cur[i + k], b, line_cells(b, c, l, st, k)));
    let head = if k == 0 { cells(b.runs).take(c) } else { Seq::<(u8, StyleView)>::empty() };
    let tail = cells(b.runs).skip(c);
    let mid = head + stamp(l[k], st);
    assert(cells(blk.runs) =~= mid + tail);
    let cut = lines_end(pos, l).byte as int;
    assert(mid.len() == cut);
    assert(clamp_byte(blk, cut) == cut);
    assert(cells(blk.runs).take(cut) =~= mid);
    assert(cells(blk.runs).skip(cut) =~= tail);
    assert(stamp(Seq::<u8>::empty(), st) =~= Seq::<(u8, StyleView)>::empty());
    assert(line_cells(b, c, l2, st, k) =~= mid);
    assert(line_cells(b, c, l2, st, k + 1) =~= tail);
    assert forall|j: int| 0 <= j <= k + 1 implies holds(#[trigger] nd[i + j], b, line_cells(b, c, l2, st, j)) by {
        if j < k {
            assert(nd[i + j] == cur[i + j]);
            assert(holds(cur[i + j], b, line_cells(b, c, l, st, j)));
            assert(line_cells(b, c, l2, st, j) == line_cells(b, c, l, st, j));
        } else if j == k {
            assert(nd[i + j] == nd[t]);
        } else {
            assert(nd[i + j] == nd[t + 1]);
        }
    }
    assert forall|j: int| i + (k + 1) < j < nd.len() implies #[trigger] nd[j] == d[j - (k + 1)] by {
        assert(nd[j] == cur[j - 1]);
    }
}

} // verus!
