//! The document model: styled text runs, blocks with alignment, list kind
//! and indent, and documents made of blocks.
use vstd::prelude::*;
use vstd::utf8::*;
use crate::align::TextHAlign;
use crate::runs::{RunView, lemma_cells_take_skip, lemma_cells_push, lemma_cells_cons, lemma_encode_nonempty, lemma_cells_eq_flat_eq, lemma_decompose, lemma_split_facts, cells, chars, flat, lemma_cells_concat, lemma_cells_flat, lemma_cells_single, lemma_flat_concat, lemma_prefix_bounds, lemma_prefix_step, lemma_run_cells_concat, lemma_take_all, normalized, prefix_len, run_bytes, run_cells, splits_run};
use crate::style::{InlineStyle, StyleView, default_style};
use crate::docview::{doc_len, lemma_doc_len_decompose, plain_chars};
use crate::position::DocPos;
use crate::text::{lemma_boundary_of_middle, lemma_encode_concat, lemma_encode_injective, string_push_str, string_split_off};

verus! {

broadcast use encode_utf8_valid_utf8;

/// A contiguous span of text sharing one [`InlineStyle`].
#[derive(Debug)]
pub struct TextRun {
    /// The run's characters (never a `\n`: newlines are block breaks).
    pub text: String,
    /// The formatting shared by every character of the run.
    pub style: InlineStyle,
}

impl View for TextRun {
    type V = RunView;

    open spec fn view(&self) -> RunView {
        RunView { text: self.text@, style: self.style@ }
    }
}

impl TextRun {
    /// A run of `text` in `style`.
    pub fn new(text: &str, style: InlineStyle) -> (r: Self)
        ensures
            r@ == (RunView { text: text@, style: style@ }),
    {
        TextRun { text: text.to_owned(), style }
    }

    /// A run of `text` in the default (fully inherited) style.
    pub fn plain(text: &str) -> (r: Self)
        ensures
            r@ == (RunView { text: text@, style: default_style() }),
    {
        TextRun { text: text.to_owned(), style: InlineStyle::plain() }
    }

    /// A copy of this run.
    pub fn duplicate(&self) -> (r: Self)
        ensures
            r@ == self@,
    {
        TextRun { text: self.text.clone(), style: self.style.duplicate() }
    }
}

impl Clone for TextRun {
    fn clone(&self) -> (r: Self)
        ensures
            r@ == self@,
    {
        self.duplicate()
    }
}

impl PartialEq for TextRun {
    fn eq(&self, other: &Self) -> (r: bool) {
        self.text == other.text && self.style.same(&other.style)
    }
}

impl vstd::std_specs::cmp::PartialEqSpecImpl for TextRun {
    open spec fn obeys_eq_spec() -> bool {
        true
    }

    open spec fn eq_spec(&self, other: &Self) -> bool {
        self@ == other@
    }
}

/// List decoration applied to a whole [`Block`].
#[derive(Clone, Copy, Debug, PartialEq, Eq, Structural)]
pub enum ListKind {
    /// Not a list item: a plain paragraph.
    Plain,
    /// A bulleted list item.
    Bullet,
    /// An ordered (`1.`, `2.`, ...) list item.
    Ordered,
}

impl Default for ListKind {
    fn default() -> (k: Self)
        ensures
            k == ListKind::Plain,
    {
        ListKind::Plain
    }
}

/// The mathematical value of a [`Block`].
pub struct BlockView {
    pub runs: Seq<RunView>,
    pub align: TextHAlign,
    pub list: ListKind,
    pub indent: u8,
}

/// The views of a list of runs.
pub open spec fn runs_view(v: Seq<TextRun>) -> Seq<RunView> {
    v.map_values(|r: TextRun| r@)
}

/// A paragraph: styled runs plus block-level attributes.
#[derive(Debug)]
pub struct Block {
    /// The paragraph's styled runs, in order.
    pub runs: Vec<TextRun>,
    /// Horizontal alignment within the block.
    pub align: TextHAlign,
    /// List decoration.
    pub list: ListKind,
    /// Indent depth.
    pub indent: u8,
}

impl View for Block {
    type V = BlockView;

    open spec fn view(&self) -> BlockView {
        BlockView { runs: runs_view(self.runs@), align: self.align, list: self.list, indent: self.indent }
    }
}

/// Byte length of a block's flattened text.
pub open spec fn block_len(b: BlockView) -> int {
    flat(b.runs).len() as int
}

impl Block {
    /// An empty paragraph with default attributes.
    pub fn new() -> (b: Self)
        ensures
            b@.runs == Seq::<RunView>::empty(),
            b@.align == TextHAlign::Left,
            b@.list == ListKind::Plain,
            b@.indent == 0,
    {
        let b = Block { runs: Vec::new(), align: TextHAlign::Left, list: ListKind::Plain, indent: 0 };
        assert(b@.runs =~= Seq::<RunView>::empty());
        b
    }

    /// A paragraph holding one run.
    pub fn from_run(run: TextRun) -> (b: Self)
        ensures
            b@.runs == seq![run@],
            b@.align == TextHAlign::Left,
            b@.list == ListKind::Plain,
            b@.indent == 0,
    {
        let ghost rv = run@;
        let mut runs = Vec::new();
        runs.push(run);
        let b = Block { runs, align: TextHAlign::Left, list: ListKind::Plain, indent: 0 };
        assert(b@.runs =~= seq![rv]);
        b
    }

    /// A paragraph of plain text; an empty text gives a paragraph with no runs.
    pub fn plain(text: &str) -> (b: Self)
        ensures
            text@.len() == 0 ==> b@.runs == Seq::<RunView>::empty(),
            text@.len() > 0 ==> b@.runs == seq![RunView { text: text@, style: default_style() }],
            b@.align == TextHAlign::Left,
            b@.list == ListKind::Plain,
            b@.indent == 0,
    {
        if text.is_empty() {
            Block::new()
        } else {
            Block::from_run(TextRun::plain(text))
        }
    }

    /// A copy of this block.
    pub fn duplicate(&self) -> (b: Self)
        ensures
            b@ == self@,
    {
        let mut runs: Vec<TextRun> = Vec::new();
        let mut i: usize = 0;
        while i < self.runs.len()
            invariant
                i <= self.runs.len(),
                runs@.len() == i,
                runs_view(runs@) == runs_view(self.runs@).take(i as int),
            decreases self.runs.len() - i,
        {
            let r = self.runs[i].duplicate();
            assert(r@ == self.runs@[i as int]@);
            let ghost before = runs@;
            runs.push(r);
            assert(runs@ == before.push(r));
            i += 1;
            assert forall|j: int| 0 <= j < i implies #[trigger] runs_view(runs@)[j] == runs_view(
                self.runs@,
            )[j] by {
                if j < i - 1 {
                    assert(runs_view(before)[j] == runs_view(self.runs@).take(i - 1)[j]);
                }
            }
            assert(runs_view(runs@) =~= runs_view(self.runs@).take(i as int));
        }
        assert(runs_view(self.runs@).take(i as int) =~= runs_view(self.runs@));
        Block { runs, align: self.align, list: self.list, indent: self.indent }
    }

    /// Total byte length of the block's flattened text.
    #[verifier::rlimit(30)]
    pub fn text_len(&self) -> (n: usize)
        requires
            block_len(self@) <= usize::MAX,
        ensures
            n == block_len(self@),
    {
        let ghost v = self@.runs;
        let mut acc: usize = 0;
        let mut i: usize = 0;
        while i < self.runs.len()
            invariant
                v == self@.runs,
                i <= self.runs.len(),
                acc == prefix_len(v, i as int),
                flat(v).len() <= usize::MAX,
            decreases self.runs.len() - i,
        {
            proof {
                lemma_prefix_step(v, i as int);
                lemma_prefix_bounds(v, i as int + 1, v.len() as int);
            }
            acc = acc + self.runs[i].text.as_str().len();
            i += 1;
        }
        proof {
            lemma_take_all(v);
        }
        acc
    }

    /// The block's flattened text (all runs concatenated).
    pub fn text(&self) -> (s: String)
        ensures
            s@ == chars(self@.runs),
    {
        let ghost v = self@.runs;
        let mut out = String::new();
        let mut i: usize = 0;
        while i < self.runs.len()
            invariant
                v == self@.runs,
                i <= self.runs.len(),
                out@ == chars(v.take(i as int)),
            decreases self.runs.len() - i,
        {
            string_push_str(&mut out, self.runs[i].text.as_str());
            proof {
                assert(v.take(i + 1).drop_last() =~= v.take(i as int));
            }
            i += 1;
        }
        proof {
            lemma_take_all(v);
        }
        out
    }
}


impl Block {
    /// Cut run `i` into two runs of the same style at byte `k` of that run.
    fn cut_run(&mut self, i: usize, k: usize)
        requires
            i < old(self)@.runs.len(),
            0 < k < run_bytes(old(self)@.runs[i as int]).len(),
            is_char_boundary(run_bytes(old(self)@.runs[i as int]), k as int),
        ensures
            splits_run(old(self)@.runs, final(self)@.runs, i as int),
            cells(final(self)@.runs) == cells(old(self)@.runs),
            prefix_len(final(self)@.runs, i + 1) == prefix_len(old(self)@.runs, i as int) + k,
            forall|j: int|
                0 <= j <= i ==> #[trigger] prefix_len(final(self)@.runs, j) == prefix_len(
                    old(self)@.runs,
                    j,
                ),
            final(self)@.align == old(self)@.align,
            final(self)@.list == old(self)@.list,
            final(self)@.indent == old(self)@.indent,
    {
        let ghost v = self@.runs;
        let n = self.runs.len();
        assert(i < n);
        let mut run = self.runs.remove(i);
        proof {
            assert(run@ == v[i as int]);
        }
        let tail = string_split_off(&mut run.text, k);
        let style = run.style.duplicate();
        let ghost left = run@;
        self.runs.insert(i, run);
        let right_run = TextRun { text: tail, style };
        let ghost right = right_run@;
        self.runs.insert(i + 1, right_run);
        proof {
            lemma_split_facts(v, i as int, left, right, k as int);
            let nv = v.take(i as int) + seq![left, right] + v.skip(i as int + 1);
            assert(self@.runs =~= nv);
        }
    }
}

impl Block {
    /// Ensure a run boundary exists at flattened byte offset `byte`, cutting
    /// the run that straddles it. Returns the index of the first run that
    /// begins at `byte`, or the number of runs when `byte` is past the end.
    pub fn ensure_boundary(&mut self, byte: usize) -> (idx: usize)
        requires
            block_len(old(self)@) <= usize::MAX,
            byte > block_len(old(self)@) || is_char_boundary(flat(old(self)@.runs), byte as int),
        ensures
            cells(final(self)@.runs) == cells(old(self)@.runs),
            flat(final(self)@.runs) == flat(old(self)@.runs),
            final(self)@.align == old(self)@.align,
            final(self)@.list == old(self)@.list,
            final(self)@.indent == old(self)@.indent,
            idx <= final(self)@.runs.len(),
            byte <= block_len(old(self)@) ==> prefix_len(final(self)@.runs, idx as int) == byte,
            byte <= block_len(old(self)@) ==> forall|j: int|
                0 <= j < idx ==> #[trigger] prefix_len(final(self)@.runs, j) < byte,
            byte > block_len(old(self)@) ==> idx == old(self)@.runs.len() && final(self)@
                == old(self)@,
            final(self)@.runs == old(self)@.runs || exists|i: int|
                splits_run(old(self)@.runs, final(self)@.runs, i),
    {
        let ghost v = self@.runs;
        let mut acc: usize = 0;
        let mut i: usize = 0;
        while i < self.runs.len()
            invariant
                v == self@.runs,
                v == old(self)@.runs,
                self@ == old(self)@,
                i <= v.len(),
                acc == prefix_len(v, i as int),
                acc <= byte,
                forall|j: int| 0 <= j < i ==> #[trigger] prefix_len(v, j) < byte,
                flat(v).len() <= usize::MAX,
                byte > flat(v).len() || is_char_boundary(flat(v), byte as int),
            decreases self.runs.len() - i,
        {
            proof {
                lemma_prefix_bounds(v, i as int, v.len() as int);
            }
            if byte == acc {
                return i;
            }
            let len = self.runs[i].text.as_str().len();
            proof {
                lemma_prefix_step(v, i as int);
                lemma_prefix_bounds(v, i as int + 1, v.len() as int);
            }
            if byte < acc + len {
                let k = byte - acc;
                proof {
                    lemma_decompose(v, i as int);
                    lemma_boundary_of_middle(
                        flat(v.take(i as int)),
                        run_bytes(v[i as int]),
                        flat(v.skip(i as int + 1)),
                        byte as int,
                    );
                }
                self.cut_run(i, k);
                proof {
                    lemma_cells_eq_flat_eq(self@.runs, v);
                    assert forall|j: int| 0 <= j < i + 1 implies #[trigger] prefix_len(self@.runs, j) < byte by {
                        if j < i {
                            assert(prefix_len(v, j) < byte);
                        }
                    }
                }
                return i + 1;
            }
            acc = acc + len;
            i += 1;
        }
        proof {
            lemma_take_all(v);
        }
        self.runs.len()
    }
}


impl Block {
    /// Drop empty runs and merge neighbouring runs of the same style.
    pub fn normalize(&mut self)
        ensures
            normalized(final(self)@.runs),
            cells(final(self)@.runs) == cells(old(self)@.runs),
            flat(final(self)@.runs) == flat(old(self)@.runs),
            final(self)@.align == old(self)@.align,
            final(self)@.list == old(self)@.list,
            final(self)@.indent == old(self)@.indent,
    {
        let ghost v0 = self@.runs;
        let mut rest: Vec<TextRun> = Vec::new();
        std::mem::swap(&mut rest, &mut self.runs);
        let mut out: Vec<TextRun> = Vec::new();
        proof {
            assert(runs_view(out@) =~= Seq::<RunView>::empty());
            assert(cells(runs_view(out@)) + cells(runs_view(rest@)) =~= cells(v0));
        }
        while rest.len() > 0
            invariant
                cells(runs_view(out@)) + cells(runs_view(rest@)) == cells(v0),
                normalized(runs_view(out@)),
                self.align == old(self).align,
                self.list == old(self).list,
                self.indent == old(self).indent,
            decreases rest.len(),
        {
            let ghost rest_before = runs_view(rest@);
            let ghost out_before = runs_view(out@);
            let run = rest.remove(0);
            proof {
                assert(rest_before =~= seq![run@] + runs_view(rest@));
                lemma_cells_cons(run@, runs_view(rest@));
                lemma_encode_nonempty(run@.text);
            }
            let rs = run.text.as_str();
            let empty = rs.is_empty();
            proof {
                assert(rs@ == run@.text);
            }
            if empty {
                proof {
                    assert(run_cells(run@) =~= Seq::<(u8, StyleView)>::empty());
                    assert(cells(runs_view(out@)) + cells(runs_view(rest@)) =~= cells(v0));
                }
            } else if out.len() > 0 && out[out.len() - 1].style.same(&run.style) {
                let mut last = out.pop().unwrap();
                let ghost l = last@;
                let ghost trimmed = runs_view(out@);
                proof {
                    assert(out_before =~= trimmed.push(l));
                }
                string_push_str(&mut last.text, run.text.as_str());
                let ghost l2 = last@;
                out.push(last);
                proof {
                    assert(runs_view(out@) =~= trimmed.push(l2));
                    lemma_cells_push(trimmed, l);
                    lemma_cells_push(trimmed, l2);
                    lemma_run_cells_concat(l.text, run@.text, l.style);
                    assert(run_cells(run@) == run_cells(RunView { text: run@.text, style: l.style }));
                    assert(l2 == RunView { text: l.text + run@.text, style: l.style });
                    assert(cells(runs_view(out@)) + cells(runs_view(rest@)) =~= cells(v0));
                    let o = runs_view(out@);
                    assert forall|i: int| 0 <= i < o.len() implies #[trigger] o[i].text.len() > 0 by {
                        if i < o.len() - 1 {
                            assert(o[i] == out_before[i]);
                        }
                    }
                    assert forall|i: int| 0 <= i < o.len() - 1 implies #[trigger] o[i].style != o[i + 1].style by {
                        assert(o[i] == out_before[i]);
                        if i + 1 < o.len() - 1 {
                            assert(o[i + 1] == out_before[i + 1]);
                        }
                    }
                }
            } else {
                let ghost r = run@;
                out.push(run);
                proof {
                    assert(runs_view(out@) =~= out_before.push(r));
                    lemma_cells_push(out_before, r);
                    assert(cells(runs_view(out@)) + cells(runs_view(rest@)) =~= cells(v0));
                    let o = runs_view(out@);
                    assert forall|i: int| 0 <= i < o.len() implies #[trigger] o[i].text.len() > 0 by {
                        if i < o.len() - 1 {
                            assert(o[i] == out_before[i]);
                        }
                    }
                    assert forall|i: int| 0 <= i < o.len() - 1 implies #[trigger] o[i].style != o[i + 1].style by {
                        assert(o[i] == out_before[i]);
                        if i + 1 < o.len() - 1 {
                            assert(o[i + 1] == out_before[i + 1]);
                        }
                    }
                }
            }
        }
        proof {
            assert(runs_view(rest@) =~= Seq::<RunView>::empty());
            assert(cells(runs_view(rest@)) =~= Seq::<(u8, StyleView)>::empty());
            assert(cells(runs_view(out@)) =~= cells(v0));
            lemma_cells_eq_flat_eq(runs_view(out@), v0);
        }
        self.runs = out;
    }
}


/// `byte` clamped to the end of a run list's text.
pub open spec fn clamp_to(runs: Seq<RunView>, byte: int) -> int {
    if byte <= flat(runs).len() {
        byte
    } else {
        flat(runs).len() as int
    }
}

impl Block {
    /// Cut the block at flattened byte `byte` (clamped to its end): the block
    /// keeps the runs before the cut and the runs after it are returned.
    pub(crate) fn split_runs_at(&mut self, byte: usize) -> (tail: Vec<TextRun>)
        requires
            block_len(old(self)@) <= usize::MAX,
            byte > block_len(old(self)@) || is_char_boundary(flat(old(self)@.runs), byte as int),
        ensures
            cells(final(self)@.runs) == cells(old(self)@.runs).take(
                clamp_to(old(self)@.runs, byte as int),
            ),
            cells(runs_view(tail@)) == cells(old(self)@.runs).skip(
                clamp_to(old(self)@.runs, byte as int),
            ),
            flat(final(self)@.runs) == flat(old(self)@.runs).take(
                clamp_to(old(self)@.runs, byte as int),
            ),
            flat(runs_view(tail@)) == flat(old(self)@.runs).skip(
                clamp_to(old(self)@.runs, byte as int),
            ),
            final(self)@.align == old(self)@.align,
            final(self)@.list == old(self)@.list,
            final(self)@.indent == old(self)@.indent,
    {
        let idx = self.ensure_boundary(byte);
        let ghost w = self@.runs;
        proof {
            lemma_take_all(w);
            lemma_cells_take_skip(w, idx as int);
        }
        let tail = self.runs.split_off(idx);
        proof {
            assert(self@.runs =~= w.take(idx as int));
            assert(runs_view(tail@) =~= w.skip(idx as int));
        }
        tail
    }
}

/// The mathematical value of a [`RichDoc`]: its blocks.
pub open spec fn doc_blocks(v: Seq<Block>) -> Seq<BlockView> {
    v.map_values(|b: Block| b@)
}

/// A whole rich-text document: an ordered list of paragraphs.
#[derive(Debug)]
pub struct RichDoc {
    /// The paragraphs, in order.
    pub blocks: Vec<Block>,
}

impl View for RichDoc {
    type V = Seq<BlockView>;

    open spec fn view(&self) -> Seq<BlockView> {
        doc_blocks(self.blocks@)
    }
}

/// The blank document: one empty paragraph with default attributes.
pub open spec fn blank_block() -> BlockView {
    BlockView { runs: Seq::empty(), align: TextHAlign::Left, list: ListKind::Plain, indent: 0 }
}

impl RichDoc {
    /// A document with a single empty paragraph.
    pub fn new() -> (d: Self)
        ensures
            d@ == seq![blank_block()],
    {
        let mut blocks = Vec::new();
        blocks.push(Block::new());
        let d = RichDoc { blocks };
        assert(d@ =~= seq![blank_block()]);
        d
    }

    /// A document from `blocks`, or the blank document when there are none.
    pub fn from_blocks(blocks: Vec<Block>) -> (d: Self)
        ensures
            blocks@.len() == 0 ==> d@ == seq![blank_block()],
            blocks@.len() > 0 ==> d@ == doc_blocks(blocks@),
    {
        if blocks.len() == 0 {
            RichDoc::new()
        } else {
            RichDoc { blocks }
        }
    }
}


impl Block {
    /// Insert `run` at flattened byte `byte` (clamped to the end) and
    /// normalize the block.
    pub(crate) fn insert_run_at(&mut self, byte: usize, run: TextRun)
        requires
            block_len(old(self)@) <= usize::MAX,
            byte > block_len(old(self)@) || is_char_boundary(flat(old(self)@.runs), byte as int),
        ensures
            normalized(final(self)@.runs),
            cells(final(self)@.runs) == cells(old(self)@.runs).take(
                clamp_to(old(self)@.runs, byte as int),
            ) + run_cells(run@) + cells(old(self)@.runs).skip(clamp_to(old(self)@.runs, byte as int)),
            final(self)@.align == old(self)@.align,
            final(self)@.list == old(self)@.list,
            final(self)@.indent == old(self)@.indent,
    {
        let mut tail = self.split_runs_at(byte);
        let ghost h = self@.runs;
        let ghost t = runs_view(tail@);
        let ghost r = run@;
        self.runs.push(run);
        self.runs.append(&mut tail);
        proof {
            assert(self@.runs =~= h.push(r) + t);
            lemma_cells_concat(h.push(r), t);
            lemma_cells_push(h, r);
        }
        self.normalize();
    }
}


/// Append copies of `src`'s runs to `dst`.
pub(crate) fn append_copies(dst: &mut Vec<TextRun>, src: &Vec<TextRun>)
    ensures
        runs_view(final(dst)@) == runs_view(old(dst)@) + runs_view(src@),
{
    let ghost d0 = runs_view(dst@);
    let mut i: usize = 0;
    while i < src.len()
        invariant
            i <= src.len(),
            runs_view(dst@) == d0 + runs_view(src@).take(i as int),
        decreases src.len() - i,
    {
        let r = src[i].duplicate();
        let ghost before = runs_view(dst@);
        dst.push(r);
        proof {
            assert(runs_view(dst@) =~= before.push(src@[i as int]@));
            assert(runs_view(src@).take(i + 1) =~= runs_view(src@).take(i as int).push(src@[i as int]@));
        }
        i += 1;
    }
    proof {
        assert(runs_view(src@).take(i as int) =~= runs_view(src@));
    }
}


impl Block {
    /// Whether the two blocks have the same runs and attributes.
    pub fn same(&self, other: &Block) -> (r: bool)
        ensures
            r == (self@ == other@),
    {
        if self.align != other.align || self.list != other.list || self.indent != other.indent {
            return false;
        }
        if self.runs.len() != other.runs.len() {
            proof {
                assert(self@.runs.len() != other@.runs.len());
            }
            return false;
        }
        let mut i: usize = 0;
        while i < self.runs.len()
            invariant
                i <= self.runs.len(),
                self.runs.len() == other.runs.len(),
                forall|j: int| 0 <= j < i ==> #[trigger] self@.runs[j] == other@.runs[j],
            decreases self.runs.len() - i,
        {
            let a = &self.runs[i];
            let b = &other.runs[i];
            proof {
                assert(self@.runs[i as int] == a@);
                assert(other@.runs[i as int] == b@);
            }
            if !(a.text == b.text && a.style.same(&b.style)) {
                proof {
                    assert(self@.runs[i as int] != other@.runs[i as int]);
                }
                return false;
            }
            proof {
                assert(self@.runs[i as int] == other@.runs[i as int]);
            }
            i += 1;
        }
        proof {
            assert(self@.runs =~= other@.runs);
        }
        true
    }
}

impl Clone for Block {
    fn clone(&self) -> (b: Self)
        ensures
            b@ == self@,
    {
        self.duplicate()
    }
}

impl PartialEq for Block {
    fn eq(&self, other: &Self) -> (r: bool) {
        self.same(other)
    }
}

impl vstd::std_specs::cmp::PartialEqSpecImpl for Block {
    open spec fn obeys_eq_spec() -> bool {
        true
    }

    open spec fn eq_spec(&self, other: &Self) -> bool {
        self@ == other@
    }
}

impl Default for Block {
    fn default() -> (b: Self)
        ensures
            b@ == blank_block(),
    {
        let b = Block::new();
        assert(b@ =~= blank_block());
        b
    }
}

impl RichDoc {
    /// A copy of this document.
    pub fn duplicate(&self) -> (d: Self)
        ensures
            d@ == self@,
    {
        let mut blocks: Vec<Block> = Vec::new();
        let mut i: usize = 0;
        while i < self.blocks.len()
            invariant
                i <= self.blocks.len(),
                blocks@.len() == i,
                doc_blocks(blocks@) == doc_blocks(self.blocks@).take(i as int),
            decreases self.blocks.len() - i,
        {
            let b = self.blocks[i].duplicate();
            let ghost before = blocks@;
            blocks.push(b);
            proof {
                assert(doc_blocks(blocks@) =~= doc_blocks(before).push(self.blocks@[i as int]@));
                assert(doc_blocks(self.blocks@).take(i + 1) =~= doc_blocks(self.blocks@).take(
                    i as int,
                ).push(self.blocks@[i as int]@));
            }
            i += 1;
        }
        proof {
            assert(doc_blocks(self.blocks@).take(i as int) =~= doc_blocks(self.blocks@));
        }
        RichDoc { blocks }
    }

    /// Whether the two documents are equal block by block.
    pub fn same(&self, other: &RichDoc) -> (r: bool)
        ensures
            r == (self@ == other@),
    {
        if self.blocks.len() != other.blocks.len() {
            proof {
                assert(self@.len() != other@.len());
            }
            return false;
        }
        let mut i: usize = 0;
        while i < self.blocks.len()
            invariant
                i <= self.blocks.len(),
                self.blocks.len() == other.blocks.len(),
                forall|j: int| 0 <= j < i ==> #[trigger] self@[j] == other@[j],
            decreases self.blocks.len() - i,
        {
            proof {
                assert(self@[i as int] == self.blocks@[i as int]@);
                assert(other@[i as int] == other.blocks@[i as int]@);
            }
            if !self.blocks[i].same(&other.blocks[i]) {
                return false;
            }
            i += 1;
        }
        proof {
            assert(self@ =~= other@);
        }
        true
    }
}

impl Clone for RichDoc {
    fn clone(&self) -> (d: Self)
        ensures
            d@ == self@,
    {
        self.duplicate()
    }
}

impl PartialEq for RichDoc {
    fn eq(&self, other: &Self) -> (r: bool) {
        self.same(other)
    }
}

impl vstd::std_specs::cmp::PartialEqSpecImpl for RichDoc {
    open spec fn obeys_eq_spec() -> bool {
        true
    }

    open spec fn eq_spec(&self, other: &Self) -> bool {
        self@ == other@
    }
}

impl Default for RichDoc {
    fn default() -> (d: Self)
        ensures
            d@ == seq![blank_block()],
    {
        RichDoc::new()
    }
}


impl RichDoc {
    /// The position just past the last character of the last block.
    pub fn end_pos(&self) -> (p: DocPos)
        requires
            doc_len(self@) <= usize::MAX,
        ensures
            self@.len() == 0 ==> p.block == 0 && p.byte == 0,
            self@.len() > 0 ==> p.block == self@.len() - 1 && p.byte == block_len(self@.last()),
    {
        let n = self.blocks.len();
        if n == 0 {
            return DocPos { block: 0, byte: 0 };
        }
        proof {
            lemma_doc_len_decompose(self@, n - 1);
            assert(self.blocks@[n - 1]@ == self@[n - 1]);
        }
        DocPos { block: n - 1, byte: self.blocks[n - 1].text_len() }
    }

    /// The document's text with blocks separated by `\n`.
    pub fn plain_text(&self) -> (s: String)
        ensures
            s@ == plain_chars(self@),
    {
        let ghost d = self@;
        let mut out = String::new();
        let mut i: usize = 0;
        while i < self.blocks.len()
            invariant
                d == self@,
                i <= self.blocks.len(),
                out@ == plain_chars(d.take(i as int)),
            decreases self.blocks.len() - i,
        {
            let ghost before = out@;
            if i > 0 {
                proof {
                    reveal_strlit("\n");
                }
                string_push_str(&mut out, "\n");
            }
            let t = self.blocks[i].text();
            string_push_str(&mut out, t.as_str());
            proof {
                assert(self.blocks@[i as int]@ == d[i as int]);
                let nt = d.take(i + 1);
                assert(nt.drop_last() =~= d.take(i as int));
                assert(nt.last() == d[i as int]);
                if i == 0 {
                    assert(d.take(0) =~= Seq::<BlockView>::empty());
                    assert(out@ =~= plain_chars(nt));
                } else {
                    assert(out@ =~= plain_chars(nt));
                }
            }
            i += 1;
        }
        proof {
            assert(d.take(i as int) =~= d);
        }
        out
    }
}

} // verus!
