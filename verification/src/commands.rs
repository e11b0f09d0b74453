//! Formatting commands on a document range, and the style summaries a
//! toolbar shows: the style at a position and what a range has in common.
use vstd::prelude::*;
use crate::align::TextHAlign;
use crate::docview::{doc_len, lemma_doc_len_decompose};
use crate::model::{Block, BlockView, ListKind, RichDoc, block_len, runs_view};
use crate::position::{DocPos, DocRange, ordered_spec};
use crate::runs::{RunView, cells, flat, lemma_decompose, lemma_cells_flat, lemma_prefix_bounds, lemma_prefix_step, lemma_take_all, prefix_len, run_bytes, run_cells};
use crate::style::{InlineStyle, Rgba, StyleView, default_style, family_view};

verus! {

broadcast use vstd::utf8::encode_utf8_valid_utf8;

/// Deepest indent an `Indent` command reaches.
pub const MAX_INDENT: u8 = 8;

/// A formatting command applied over a selection.
#[derive(Debug)]
pub enum RichCommand {
    ToggleBold,
    ToggleItalic,
    ToggleUnderline,
    ToggleStrikethrough,
    SetFontFamily(String),
    /// A point size, as the bit pattern of an `f64`.
    SetFontSize(u64),
    SetTextColor(Rgba),
    SetHighlight(Option<Rgba>),
    SetAlign(TextHAlign),
    SetList(ListKind),
    Indent,
    Outdent,
}

/// The mathematical value of a [`CommonStyle`].
pub struct CommonView {
    pub bold: Option<bool>,
    pub italic: Option<bool>,
    pub underline: Option<bool>,
    pub strikethrough: Option<bool>,
    pub font_family: Option<Option<Seq<char>>>,
    pub font_size: Option<Option<u64>>,
    pub text_color: Option<Option<Rgba>>,
    pub highlight: Option<Option<Rgba>>,
    pub align: Option<TextHAlign>,
    pub list: Option<ListKind>,
}

/// Per-attribute summary of the styles across a selection: `None` where the
/// selected runs disagree ("mixed"), `Some(v)` where they all share `v`.
#[derive(Debug)]
pub struct CommonStyle {
    pub bold: Option<bool>,
    pub italic: Option<bool>,
    pub underline: Option<bool>,
    pub strikethrough: Option<bool>,
    pub font_family: Option<Option<String>>,
    pub font_size: Option<Option<u64>>,
    pub text_color: Option<Option<Rgba>>,
    pub highlight: Option<Option<Rgba>>,
    /// Block alignment shared by every touched block, `None` when mixed.
    pub align: Option<TextHAlign>,
    /// List decoration shared by every touched block, `None` when mixed.
    pub list: Option<ListKind>,
}

pub open spec fn family_slot_view(f: Option<Option<String>>) -> Option<Option<Seq<char>>> {
    match f {
        Some(inner) => Some(family_view(inner)),
        None => None,
    }
}

impl View for CommonStyle {
    type V = CommonView;

    open spec fn view(&self) -> CommonView {
        CommonView {
            bold: self.bold,
            italic: self.italic,
            underline: self.underline,
            strikethrough: self.strikethrough,
            font_family: family_slot_view(self.font_family),
            font_size: self.font_size,
            text_color: self.text_color,
            highlight: self.highlight,
            align: self.align,
            list: self.list,
        }
    }
}

/// `Some(v)` when every value in `s` equals `v`, `None` when they differ or
/// there are none.
pub open spec fn agree<T>(s: Seq<T>) -> Option<T> {
    if s.len() > 0 && forall|i: int| 0 <= i < s.len() ==> #[trigger] s[i] == s[0] {
        Some(s[0])
    } else {
        None
    }
}

/// The inline summary of a non-empty list of styles (block attributes unset).
pub open spec fn summary(st: Seq<StyleView>) -> CommonView {
    CommonView {
        bold: agree(st.map_values(|s: StyleView| s.bold)),
        italic: agree(st.map_values(|s: StyleView| s.italic)),
        underline: agree(st.map_values(|s: StyleView| s.underline)),
        strikethrough: agree(st.map_values(|s: StyleView| s.strikethrough)),
        font_family: agree(st.map_values(|s: StyleView| s.font_family)),
        font_size: agree(st.map_values(|s: StyleView| s.font_size)),
        text_color: agree(st.map_values(|s: StyleView| s.text_color)),
        highlight: agree(st.map_values(|s: StyleView| s.highlight)),
        align: None,
        list: None,
    }
}

/// The summary of a single style: every attribute agrees with it.
pub open spec fn of_style_spec(s: StyleView) -> CommonView {
    CommonView {
        bold: Some(s.bold),
        italic: Some(s.italic),
        underline: Some(s.underline),
        strikethrough: Some(s.strikethrough),
        font_family: Some(s.font_family),
        font_size: Some(s.font_size),
        text_color: Some(s.text_color),
        highlight: Some(s.highlight),
        align: None,
        list: None,
    }
}

/// `slot` after folding `value` in: unchanged when it already agrees, `None`
/// (mixed) when it disagrees.
pub open spec fn fold_spec<T>(slot: Option<T>, value: T) -> Option<T> {
    match slot {
        Some(e) => if e == value {
            slot
        } else {
            None
        },
        None => None,
    }
}

fn fold_bool(slot: &mut Option<bool>, value: bool)
    ensures
        *final(slot) == fold_spec(*old(slot), value),
{
    if let Some(existing) = *slot {
        if existing != value {
            *slot = None;
        }
    }
}

fn fold_size(slot: &mut Option<Option<u64>>, value: Option<u64>)
    ensures
        *final(slot) == fold_spec(*old(slot), value),
{
    if let Some(existing) = *slot {
        if existing != value {
            *slot = None;
        }
    }
}

fn fold_color(slot: &mut Option<Option<Rgba>>, value: Option<Rgba>)
    ensures
        *final(slot) == fold_spec(*old(slot), value),
{
    if let Some(existing) = *slot {
        if existing != value {
            *slot = None;
        }
    }
}

fn fold_align(slot: &mut Option<TextHAlign>, value: TextHAlign)
    ensures
        *final(slot) == fold_spec(*old(slot), value),
{
    if let Some(existing) = *slot {
        if existing != value {
            *slot = None;
        }
    }
}

fn fold_list(slot: &mut Option<ListKind>, value: ListKind)
    ensures
        *final(slot) == fold_spec(*old(slot), value),
{
    if let Some(existing) = *slot {
        if existing != value {
            *slot = None;
        }
    }
}

fn family_eq(a: &Option<String>, b: &Option<String>) -> (r: bool)
    ensures
        r == (family_view(*a) == family_view(*b)),
{
    match (a, b) {
        (Some(x), Some(y)) => *x == *y,
        (None, None) => true,
        _ => false,
    }
}

fn fold_family(slot: &mut Option<Option<String>>, value: Option<String>)
    ensures
        family_slot_view(*final(slot)) == fold_spec(family_slot_view(*old(slot)), family_view(value)),
{
    let differs = match &*slot {
        Some(existing) => !family_eq(existing, &value),
        None => false,
    };
    if differs {
        *slot = None;
    }
}

fn family_clone(f: &Option<String>) -> (r: Option<String>)
    ensures
        family_view(r) == family_view(*f),
{
    match f {
        Some(s) => Some(s.clone()),
        None => None,
    }
}

impl CommonStyle {
    /// The summary of one uniform style: every attribute agrees with `style`.
    pub fn of_style(style: &InlineStyle) -> (cs: Self)
        ensures
            cs@ == of_style_spec(style@),
    {
        Self::from_style(style)
    }

    fn from_style(style: &InlineStyle) -> (cs: Self)
        ensures
            cs@ == of_style_spec(style@),
    {
        CommonStyle {
            bold: Some(style.bold),
            italic: Some(style.italic),
            underline: Some(style.underline),
            strikethrough: Some(style.strikethrough),
            font_family: Some(family_clone(&style.font_family)),
            font_size: Some(style.font_size),
            text_color: Some(style.text_color),
            highlight: Some(style.highlight),
            align: None,
            list: None,
        }
    }

    /// Fold another run's style in: each attribute that now disagrees becomes
    /// `None`.
    fn merge(&mut self, style: &InlineStyle)
        ensures
            final(self)@ == (CommonView {
                bold: fold_spec(old(self)@.bold, style@.bold),
                italic: fold_spec(old(self)@.italic, style@.italic),
                underline: fold_spec(old(self)@.underline, style@.underline),
                strikethrough: fold_spec(old(self)@.strikethrough, style@.strikethrough),
                font_family: fold_spec(old(self)@.font_family, style@.font_family),
                font_size: fold_spec(old(self)@.font_size, style@.font_size),
                text_color: fold_spec(old(self)@.text_color, style@.text_color),
                highlight: fold_spec(old(self)@.highlight, style@.highlight),
                align: old(self)@.align,
                list: old(self)@.list,
            }),
    {
        fold_bool(&mut self.bold, style.bold);
        fold_bool(&mut self.italic, style.italic);
        fold_bool(&mut self.underline, style.underline);
        fold_bool(&mut self.strikethrough, style.strikethrough);
        fold_family(&mut self.font_family, family_clone(&style.font_family));
        fold_size(&mut self.font_size, style.font_size);
        fold_color(&mut self.text_color, style.text_color);
        fold_color(&mut self.highlight, style.highlight);
    }
}


/// The blocks of `d` that a selection from `a` to `b` touches, in order.
pub open spec fn touched(d: Seq<BlockView>, a: DocPos, b: DocPos) -> Seq<BlockView> {
    if a.block < d.len() {
        let end = if b.block < d.len() { b.block + 1 } else { d.len() as int };
        if a.block < end {
            d.subrange(a.block as int, end)
        } else {
            Seq::empty()
        }
    } else {
        Seq::empty()
    }
}

/// `cs` with the block attributes folded in from the touched blocks: their
/// agreement when any block is touched, otherwise left as they were.
pub open spec fn with_blocks(cs: CommonView, t: Seq<BlockView>) -> CommonView {
    if t.len() == 0 {
        cs
    } else {
        CommonView {
            align: agree(t.map_values(|x: BlockView| x.align)),
            list: agree(t.map_values(|x: BlockView| x.list)),
            ..cs
        }
    }
}

pub proof fn lemma_agree_push<T>(x: Seq<T>, v: T)
    requires
        x.len() > 0,
    ensures
        agree(x.push(v)) == fold_spec(agree(x), v),
{
    let y = x.push(v);
    assert(y[0] == x[0]);
    if forall|i: int| 0 <= i < x.len() ==> #[trigger] x[i] == x[0] {
        if v == x[0] {
            assert forall|i: int| 0 <= i < y.len() implies #[trigger] y[i] == y[0] by {
                if i < x.len() {
                    assert(y[i] == x[i]);
                }
            }
        } else {
            assert(y[x.len() as int] == v);
        }
    } else {
        let j = choose|j: int| 0 <= j < x.len() && #[trigger] x[j] != x[0];
        assert(y[j] == x[j]);
    }
}

pub proof fn lemma_agree_single<T>(v: T)
    ensures
        agree(seq![v]) == Some(v),
{
    assert(seq![v][0] == v);
}

impl CommonStyle {
    /// Fold the block attributes of every block `range` touches into the
    /// summary: their agreement when some block is touched.
    pub fn merge_blocks(&mut self, doc: &RichDoc, range: DocRange)
        ensures
            ({
                let (a, b) = ordered_spec(range);
                final(self)@ == with_blocks(old(self)@, touched(doc@, a, b))
            }),
    {
        let (a, b) = range.ordered();
        let ghost d = doc@;
        let len = doc.blocks.len();
        if a.block >= len {
            proof {
                assert(touched(d, a, b) =~= Seq::<BlockView>::empty());
            }
            return;
        }
        let last = if b.block < len { b.block } else { len - 1 };
        if a.block > last {
            proof {
                assert(touched(d, a, b) =~= Seq::<BlockView>::empty());
            }
            return;
        }
        let ghost t = touched(d, a, b);
        self.align = Some(doc.blocks[a.block].align);
        self.list = Some(doc.blocks[a.block].list);
        proof {
            assert(doc.blocks@[a.block as int]@ == d[a.block as int]);
            lemma_agree_single(d[a.block as int].align);
            lemma_agree_single(d[a.block as int].list);
            assert(t.take(1).map_values(|x: BlockView| x.align) =~= seq![d[a.block as int].align]);
            assert(t.take(1).map_values(|x: BlockView| x.list) =~= seq![d[a.block as int].list]);
        }
        let mut bi = a.block + 1;
        while bi <= last
            invariant
                d == doc@,
                len == d.len(),
                a.block < bi <= last + 1,
                last < len,
                t == touched(d, a, b),
                t.len() == last + 1 - a.block,
                forall|k: int| 0 <= k < t.len() ==> #[trigger] t[k] == d[a.block + k],
                self.align == agree(t.take(bi - a.block).map_values(|x: BlockView| x.align)),
                self.list == agree(t.take(bi - a.block).map_values(|x: BlockView| x.list)),
                self@ == (CommonView { align: self.align, list: self.list, ..old(self)@ }),
            decreases last + 1 - bi,
        {
            let ghost k = bi - a.block;
            proof {
                assert(doc.blocks@[bi as int]@ == d[bi as int]);
                assert(t[k] == d[bi as int]);
                assert(t.take(k + 1).map_values(|x: BlockView| x.align) =~= t.take(k).map_values(
                    |x: BlockView| x.align,
                ).push(d[bi as int].align));
                assert(t.take(k + 1).map_values(|x: BlockView| x.list) =~= t.take(k).map_values(
                    |x: BlockView| x.list,
                ).push(d[bi as int].list));
                lemma_agree_push(t.take(k).map_values(|x: BlockView| x.align), d[bi as int].align);
                lemma_agree_push(t.take(k).map_values(|x: BlockView| x.list), d[bi as int].list);
            }
            fold_align(&mut self.align, doc.blocks[bi].align);
            fold_list(&mut self.list, doc.blocks[bi].list);
            bi += 1;
        }
        proof {
            assert(t.take(t.len() as int) =~= t);
        }
    }
}


/// The style a character typed at `pos` takes: that of the character just
/// before `pos`, the first run's at the start of a block, the last run's past
/// the end, and the default style in an empty or missing block.
pub open spec fn style_at_spec(d: Seq<BlockView>, pos: DocPos) -> StyleView {
    if pos.block >= d.len() || d[pos.block as int].runs.len() == 0 {
        default_style()
    } else {
        let runs = d[pos.block as int].runs;
        if pos.byte == 0 {
            runs[0].style
        } else if pos.byte - 1 < flat(runs).len() {
            cells(runs)[pos.byte - 1].1
        } else {
            runs.last().style
        }
    }
}

/// Every byte of run `i` of `runs` is drawn in that run's style.
pub proof fn lemma_cell_style(runs: Seq<RunView>, i: int, t: int)
    requires
        0 <= i < runs.len(),
        prefix_len(runs, i) <= t < prefix_len(runs, i) + run_bytes(runs[i]).len(),
    ensures
        t < flat(runs).len(),
        cells(runs)[t].1 == runs[i].style,
{
    lemma_decompose(runs, i);
    lemma_cells_flat(runs.take(i));
    lemma_cells_flat(runs);
    crate::runs::lemma_flat_concat(runs.take(i), seq![runs[i]]);
    crate::runs::lemma_cells_single(runs[i]);
    let k = t - prefix_len(runs, i);
    assert(cells(runs)[t] == run_cells(runs[i])[k]);
}

/// The style a newly typed character at `pos` would take.
pub fn style_at(doc: &RichDoc, pos: DocPos) -> (s: InlineStyle)
    requires
        doc_len(doc@) <= usize::MAX,
    ensures
        s@ == style_at_spec(doc@, pos),
{
    let ghost d = doc@;
    if pos.block >= doc.blocks.len() {
        return InlineStyle::plain();
    }
    let block = &doc.blocks[pos.block];
    let ghost runs = block@.runs;
    proof {
        assert(block@ == d[pos.block as int]);
        lemma_doc_len_decompose(d, pos.block as int);
    }
    if block.runs.len() == 0 {
        return InlineStyle::plain();
    }
    if pos.byte == 0 {
        return block.runs[0].style.duplicate();
    }
    let target = pos.byte - 1;
    let mut acc: usize = 0;
    let mut i: usize = 0;
    while i < block.runs.len()
        invariant
            d == doc@,
            pos.block < d.len(),
            runs == block@.runs,
            runs == d[pos.block as int].runs,
            block_len(block@) <= usize::MAX,
            i <= runs.len(),
            acc == prefix_len(runs, i as int),
            target >= acc,
            target == pos.byte - 1,
        decreases block.runs.len() - i,
    {
        let len = block.runs[i].text.as_str().len();
        proof {
            lemma_prefix_step(runs, i as int);
            lemma_prefix_bounds(runs, i as int + 1, runs.len() as int);
        }
        if target < acc + len {
            proof {
                lemma_cell_style(runs, i as int, target as int);
                assert(block.runs@[i as int]@ == runs[i as int]);
            }
            let st = block.runs[i].style.duplicate();
            proof {
                assert(st@ == runs[i as int].style);
            }
            return st;
        }
        acc = acc + len;
        i += 1;
    }
    proof {
        lemma_take_all(runs);
        assert(block.runs@[runs.len() - 1]@ == runs.last());
    }
    block.runs[block.runs.len() - 1].style.duplicate()
}


/// The styles of the non-empty runs of `runs` that overlap bytes `[lo, hi)`,
/// in order.
pub open spec fn run_styles(runs: Seq<RunView>, lo: int, hi: int) -> Seq<StyleView>
    decreases runs.len(),
{
    if runs.len() == 0 {
        Seq::empty()
    } else {
        let prev = run_styles(runs.drop_last(), lo, hi);
        let rs = flat(runs.drop_last()).len() as int;
        let re = rs + run_bytes(runs.last()).len();
        if re > rs && re > lo && rs < hi {
            prev.push(runs.last().style)
        } else {
            prev
        }
    }
}

/// The byte range of block `bi` that a selection from `a` to `b` covers.
pub open spec fn sel_lo(a: DocPos, bi: int) -> int {
    if bi == a.block {
        a.byte as int
    } else {
        0
    }
}

pub open spec fn sel_hi(d: Seq<BlockView>, b: DocPos, bi: int) -> int {
    if bi == b.block {
        b.byte as int
    } else {
        block_len(d[bi])
    }
}

/// The styles block `bi` contributes to a selection from `a` to `b`.
pub open spec fn block_styles(d: Seq<BlockView>, a: DocPos, b: DocPos, bi: int) -> Seq<StyleView> {
    if sel_lo(a, bi) >= sel_hi(d, b, bi) {
        Seq::empty()
    } else {
        run_styles(d[bi].runs, sel_lo(a, bi), sel_hi(d, b, bi))
    }
}

/// The styles of the first `n` touched blocks, concatenated.
pub open spec fn styles_upto(d: Seq<BlockView>, a: DocPos, b: DocPos, n: int) -> Seq<StyleView>
    decreases n,
{
    if n <= 0 {
        Seq::empty()
    } else {
        styles_upto(d, a, b, n - 1) + block_styles(d, a, b, a.block + n - 1)
    }
}

/// The styles of every run a selection from `a` to `b` covers.
pub open spec fn styles_in(d: Seq<BlockView>, a: DocPos, b: DocPos) -> Seq<StyleView> {
    styles_upto(d, a, b, touched(d, a, b).len() as int)
}

fn block_run_styles(block: &Block, lo: usize, hi: usize, out: &mut Vec<InlineStyle>)
    requires
        block_len(block@) <= usize::MAX,
    ensures
        styles_view(final(out)@) == styles_view(old(out)@) + run_styles(block@.runs, lo as int, hi as int),
{
    let ghost runs = block@.runs;
    let ghost o0 = styles_view(out@);
    let mut acc: usize = 0;
    let mut i: usize = 0;
    while i < block.runs.len()
        invariant
            runs == block@.runs,
            block_len(block@) <= usize::MAX,
            i <= runs.len(),
            acc == prefix_len(runs, i as int),
            styles_view(out@) == o0 + run_styles(runs.take(i as int), lo as int, hi as int),
        decreases block.runs.len() - i,
    {
        let len = block.runs[i].text.as_str().len();
        proof {
            lemma_prefix_step(runs, i as int);
            lemma_prefix_bounds(runs, i as int + 1, runs.len() as int);
            let t = runs.take(i + 1);
            assert(t.drop_last() =~= runs.take(i as int));
            assert(t.last() == runs[i as int]);
            assert(block.runs@[i as int]@ == runs[i as int]);
        }
        let rs = acc;
        let re = acc + len;
        if len > 0 && re > lo && rs < hi {
            let ghost before = styles_view(out@);
            out.push(block.runs[i].style.duplicate());
            proof {
                assert(styles_view(out@) =~= before.push(runs[i as int].style));
            }
        }
        acc = re;
        i += 1;
    }
    proof {
        lemma_take_all(runs);
    }
}

/// The views of a list of styles.
pub open spec fn styles_view(v: Seq<InlineStyle>) -> Seq<StyleView> {
    v.map_values(|s: InlineStyle| s@)
}

/// The styles of every non-empty run that intersects `range`, in order.
fn collect_styles_in_range(doc: &RichDoc, range: DocRange) -> (out: Vec<InlineStyle>)
    requires
        doc_len(doc@) <= usize::MAX,
    ensures
        ({
            let (a, b) = ordered_spec(range);
            styles_view(out@) == styles_in(doc@, a, b)
        }),
{
    let ghost d = doc@;
    let (a, b) = range.ordered();
    let mut out: Vec<InlineStyle> = Vec::new();
    let len = doc.blocks.len();
    proof {
        assert(styles_view(out@) =~= Seq::<StyleView>::empty());
    }
    if a.block >= len {
        proof {
            assert(touched(d, a, b) =~= Seq::<BlockView>::empty());
        }
        return out;
    }
    let last = if b.block < len { b.block } else { len - 1 };
    if a.block > last {
        proof {
            assert(touched(d, a, b) =~= Seq::<BlockView>::empty());
        }
        return out;
    }
    let mut bi = a.block;
    while bi <= last
        invariant
            d == doc@,
            len == d.len(),
            a.block <= bi <= last + 1,
            last < len,
            last == (if b.block < len { b.block as int } else { len - 1 }),
            a.block < len,
            doc_len(d) <= usize::MAX,
            touched(d, a, b).len() == last + 1 - a.block,
            styles_view(out@) == styles_upto(d, a, b, bi - a.block),
        decreases last + 1 - bi,
    {
        proof {
            lemma_doc_len_decompose(d, bi as int);
            assert(doc.blocks@[bi as int]@ == d[bi as int]);
        }
        let block = &doc.blocks[bi];
        let lo = if bi == a.block { a.byte } else { 0 };
        let hi = if bi == b.block { b.byte } else { block.text_len() };
        if lo < hi {
            block_run_styles(block, lo, hi, &mut out);
        }
        bi += 1;
    }
    out
}

/// Summarise the styles across `range`: the shared inline attributes of the
/// covered runs (or of the caret style when the range is empty or covers only
/// empty text) and the shared block attributes of the touched blocks.
pub fn range_common_style(doc: &RichDoc, range: DocRange) -> (cs: CommonStyle)
    requires
        doc_len(doc@) <= usize::MAX,
    ensures
        cs@ == common_spec(doc@, range),
{
    let (a, b) = range.ordered();
    let mut cs = if a == b {
        CommonStyle::from_style(&style_at(doc, a))
    } else {
        let styles = collect_styles_in_range(doc, range);
        let ghost st = styles_view(styles@);
        if styles.len() > 0 {
            let mut cs = CommonStyle::from_style(&styles[0]);
            proof {
                assert(st.take(1) =~= seq![st[0]]);
                lemma_summary_single(st[0]);
            }
            let mut k: usize = 1;
            while k < styles.len()
                invariant
                    1 <= k <= styles.len(),
                    st == styles_view(styles@),
                    cs@ == summary(st.take(k as int)),
                decreases styles.len() - k,
            {
                proof {
                    assert(styles@[k as int]@ == st[k as int]);
                    lemma_summary_push(st.take(k as int), st[k as int]);
                    assert(st.take(k + 1) =~= st.take(k as int).push(st[k as int]));
                }
                cs.merge(&styles[k]);
                k += 1;
            }
            proof {
                assert(st.take(k as int) =~= st);
            }
            cs
        } else {
            CommonStyle::from_style(&style_at(doc, a))
        }
    };
    cs.merge_blocks(doc, range);
    cs
}

pub proof fn lemma_summary_single(s: StyleView)
    ensures
        summary(seq![s]) == of_style_spec(s),
{
    let st = seq![s];
    assert(st.map_values(|x: StyleView| x.bold) =~= seq![s.bold]);
    assert(st.map_values(|x: StyleView| x.italic) =~= seq![s.italic]);
    assert(st.map_values(|x: StyleView| x.underline) =~= seq![s.underline]);
    assert(st.map_values(|x: StyleView| x.strikethrough) =~= seq![s.strikethrough]);
    assert(st.map_values(|x: StyleView| x.font_family) =~= seq![s.font_family]);
    assert(st.map_values(|x: StyleView| x.font_size) =~= seq![s.font_size]);
    assert(st.map_values(|x: StyleView| x.text_color) =~= seq![s.text_color]);
    assert(st.map_values(|x: StyleView| x.highlight) =~= seq![s.highlight]);
    lemma_agree_single(s.bold);
    lemma_agree_single(s.italic);
    lemma_agree_single(s.underline);
    lemma_agree_single(s.strikethrough);
    lemma_agree_single(s.font_family);
    lemma_agree_single(s.font_size);
    lemma_agree_single(s.text_color);
    lemma_agree_single(s.highlight);
}

pub proof fn lemma_summary_push(st: Seq<StyleView>, s: StyleView)
    requires
        st.len() > 0,
    ensures
        summary(st.push(s)) == (CommonView {
            bold: fold_spec(summary(st).bold, s.bold),
            italic: fold_spec(summary(st).italic, s.italic),
            underline: fold_spec(summary(st).underline, s.underline),
            strikethrough: fold_spec(summary(st).strikethrough, s.strikethrough),
            font_family: fold_spec(summary(st).font_family, s.font_family),
            font_size: fold_spec(summary(st).font_size, s.font_size),
            text_color: fold_spec(summary(st).text_color, s.text_color),
            highlight: fold_spec(summary(st).highlight, s.highlight),
            align: None,
            list: None,
        }),
{
    let t = st.push(s);
    assert(t.map_values(|x: StyleView| x.bold) =~= st.map_values(|x: StyleView| x.bold).push(s.bold));
    assert(t.map_values(|x: StyleView| x.italic) =~= st.map_values(|x: StyleView| x.italic).push(s.italic));
    assert(t.map_values(|x: StyleView| x.underline) =~= st.map_values(|x: StyleView| x.underline).push(s.underline));
    assert(t.map_values(|x: StyleView| x.strikethrough) =~= st.map_values(|x: StyleView| x.strikethrough).push(s.strikethrough));
    assert(t.map_values(|x: StyleView| x.font_family) =~= st.map_values(|x: StyleView| x.font_family).push(s.font_family));
    assert(t.map_values(|x: StyleView| x.font_size) =~= st.map_values(|x: StyleView| x.font_size).push(s.font_size));
    assert(t.map_values(|x: StyleView| x.text_color) =~= st.map_values(|x: StyleView| x.text_color).push(s.text_color));
    assert(t.map_values(|x: StyleView| x.highlight) =~= st.map_values(|x: StyleView| x.highlight).push(s.highlight));
    lemma_agree_push(st.map_values(|x: StyleView| x.bold), s.bold);
    lemma_agree_push(st.map_values(|x: StyleView| x.italic), s.italic);
    lemma_agree_push(st.map_values(|x: StyleView| x.underline), s.underline);
    lemma_agree_push(st.map_values(|x: StyleView| x.strikethrough), s.strikethrough);
    lemma_agree_push(st.map_values(|x: StyleView| x.font_family), s.font_family);
    lemma_agree_push(st.map_values(|x: StyleView| x.font_size), s.font_size);
    lemma_agree_push(st.map_values(|x: StyleView| x.text_color), s.text_color);
    lemma_agree_push(st.map_values(|x: StyleView| x.highlight), s.highlight);
}


/// The summary [`range_common_style`] reports for `range` over `d`.
pub open spec fn common_spec(d: Seq<BlockView>, range: DocRange) -> CommonView {
    let (a, b) = ordered_spec(range);
    let st = styles_in(d, a, b);
    let inline = if a == b || st.len() == 0 {
        of_style_spec(style_at_spec(d, a))
    } else {
        summary(st)
    };
    with_blocks(inline, touched(d, a, b))
}

/// One inline attribute change.
pub enum StyleEdit {
    Bold(bool),
    Italic(bool),
    Underline(bool),
    Strikethrough(bool),
    Family(String),
    Size(u64),
    TextColor(Rgba),
    Highlight(Option<Rgba>),
}

/// A style with one attribute changed as `e` says.
pub open spec fn edit_style(s: StyleView, e: StyleEdit) -> StyleView {
    match e {
        StyleEdit::Bold(v) => StyleView { bold: v, ..s },
        StyleEdit::Italic(v) => StyleView { italic: v, ..s },
        StyleEdit::Underline(v) => StyleView { underline: v, ..s },
        StyleEdit::Strikethrough(v) => StyleView { strikethrough: v, ..s },
        StyleEdit::Family(f) => StyleView { font_family: Some(f@), ..s },
        StyleEdit::Size(z) => StyleView { font_size: Some(z), ..s },
        StyleEdit::TextColor(c) => StyleView { text_color: Some(c), ..s },
        StyleEdit::Highlight(h) => StyleView { highlight: h, ..s },
    }
}

/// Apply `e` to `style` in place.
pub fn apply_edit(style: &mut InlineStyle, e: &StyleEdit)
    ensures
        final(style)@ == edit_style(old(style)@, *e),
{
    match e {
        StyleEdit::Bold(v) => style.bold = *v,
        StyleEdit::Italic(v) => style.italic = *v,
        StyleEdit::Underline(v) => style.underline = *v,
        StyleEdit::Strikethrough(v) => style.strikethrough = *v,
        StyleEdit::Family(f) => style.font_family = Some(f.clone()),
        StyleEdit::Size(z) => style.font_size = Some(*z),
        StyleEdit::TextColor(c) => style.text_color = Some(*c),
        StyleEdit::Highlight(h) => style.highlight = *h,
    }
}

/// The styled bytes `c` with the styles of bytes `[lo, hi)` edited by `e`.
pub open spec fn edit_cells(c: Seq<(u8, StyleView)>, lo: int, hi: int, e: StyleEdit) -> Seq<(u8, StyleView)> {
    Seq::new(
        c.len(),
        |k: int|
            if lo <= k < hi {
                (c[k].0, edit_style(c[k].1, e))
            } else {
                c[k]
            },
    )
}

/// Every run's style edited by `e`.
pub open spec fn edit_runs(runs: Seq<RunView>, e: StyleEdit) -> Seq<RunView> {
    runs.map_values(|r: RunView| RunView { text: r.text, style: edit_style(r.style, e) })
}

pub proof fn lemma_cells_edit(runs: Seq<RunView>, e: StyleEdit)
    ensures
        cells(edit_runs(runs, e)) == edit_cells(cells(runs), 0, cells(runs).len() as int, e),
    decreases runs.len(),
{
    if runs.len() > 0 {
        lemma_cells_edit(runs.drop_last(), e);
        assert(edit_runs(runs, e).drop_last() =~= edit_runs(runs.drop_last(), e));
        assert(cells(edit_runs(runs, e)) =~= edit_cells(cells(runs), 0, cells(runs).len() as int, e));
    } else {
        assert(cells(edit_runs(runs, e)) =~= edit_cells(cells(runs), 0, cells(runs).len() as int, e));
    }
}

fn edit_all_runs(runs: &mut Vec<crate::model::TextRun>, e: &StyleEdit)
    ensures
        runs_view(final(runs)@) == edit_runs(runs_view(old(runs)@), *e),
{
    let ghost v = runs_view(runs@);
    let mut out: Vec<crate::model::TextRun> = Vec::new();
    let mut i: usize = 0;
    while i < runs.len()
        invariant
            i <= runs.len(),
            v == runs_view(runs@),
            runs_view(out@) == edit_runs(v.take(i as int), *e),
        decreases runs.len() - i,
    {
        let mut r = runs[i].duplicate();
        apply_edit(&mut r.style, e);
        let ghost before = runs_view(out@);
        out.push(r);
        proof {
            assert(runs_view(out@) =~= before.push(r@));
            assert(edit_runs(v.take(i + 1), *e) =~= edit_runs(v.take(i as int), *e).push(r@));
        }
        i += 1;
    }
    proof {
        assert(v.take(i as int) =~= v);
    }
    *runs = out;
}

/// Edit the styles of a block's bytes `[lo, hi)` (each clamped to the end).
fn edit_block_range(block: &mut Block, lo: usize, hi: usize, e: &StyleEdit)
    requires
        block_len(old(block)@) <= usize::MAX,
        lo < hi,
        crate::edit::edit_pos_ok(old(block)@, lo as int),
        crate::edit::edit_pos_ok(old(block)@, hi as int),
    ensures
        crate::docview::holds(
            final(block)@,
            old(block)@,
            edit_cells(
                cells(old(block)@.runs),
                crate::docview::clamp_byte(old(block)@, lo as int),
                crate::docview::clamp_byte(old(block)@, hi as int),
                *e,
            ),
        ),
{
    let ghost c0 = cells(block@.runs);
    let ghost f0 = flat(block@.runs);
    let ghost b0 = block@;
    let ghost h = crate::docview::clamp_byte(b0, hi as int);
    let ghost l = crate::docview::clamp_byte(b0, lo as int);
    let mut tail = block.split_runs_at(hi);
    proof {
        crate::docview::lemma_block_len_cells(b0);
        crate::runs::lemma_flat_concat(block@.runs, runs_view(tail@));
        assert(flat(block@.runs) + flat(runs_view(tail@)) =~= f0);
        assert(flat(block@.runs).len() == h);
        if lo as int <= h {
            crate::runs::lemma_boundary_in_prefix(block@.runs, runs_view(tail@), lo as int);
        }
    }
    let ghost h1 = block@.runs;
    let mut mid = block.split_runs_at(lo);
    let ghost hr = block@.runs;
    let ghost mr = runs_view(mid@);
    let ghost tr = runs_view(tail@);
    proof {
        assert(crate::model::clamp_to(h1, lo as int) == l);
        assert(cells(hr) =~= c0.take(l));
        assert(cells(mr) =~= c0.subrange(l, h));
        assert(cells(tr) =~= c0.skip(h));
    }
    edit_all_runs(&mut mid, e);
    let ghost er = runs_view(mid@);
    proof {
        lemma_cells_edit(mr, *e);
    }
    block.runs.append(&mut mid);
    block.runs.append(&mut tail);
    proof {
        assert(block@.runs =~= hr + er + tr);
        crate::runs::lemma_cells_concat(hr + er, tr);
        crate::runs::lemma_cells_concat(hr, er);
        assert(cells(block@.runs) =~= edit_cells(c0, l, h, *e));
    }
    block.normalize();
}


/// The inputs on which an inline command over `range` is defined: the two
/// endpoints are usable edit positions in their blocks.
pub open spec fn inline_ok(d: Seq<BlockView>, range: DocRange) -> bool {
    let (a, b) = ordered_spec(range);
    a != b ==> {
        &&& a.block < d.len() ==> crate::edit::edit_pos_ok(d[a.block as int], a.byte as int)
        &&& b.block < d.len() ==> crate::edit::edit_pos_ok(d[b.block as int], b.byte as int)
    }
}

/// Whether block `j` is one a selection from `a` to `b` touches.
pub open spec fn touches(d: Seq<BlockView>, a: DocPos, b: DocPos, j: int) -> bool {
    a.block <= j <= b.block && j < d.len()
}

/// `nd` is `d` with the styles of every byte inside `range` edited by `e`.
pub open spec fn inline_applied(d: Seq<BlockView>, range: DocRange, e: StyleEdit, nd: Seq<BlockView>) -> bool {
    let (a, b) = ordered_spec(range);
    if a == b {
        nd == d
    } else {
        &&& nd.len() == d.len()
        &&& forall|j: int|
            0 <= j < d.len() ==> #[trigger] nd[j] == if touches(d, a, b, j) && sel_lo(a, j)
                < sel_hi(d, b, j) {
                nd[j]
            } else {
                d[j]
            }
        &&& forall|j: int|
            touches(d, a, b, j) && sel_lo(a, j) < sel_hi(d, b, j) ==> crate::docview::holds(
                #[trigger] nd[j],
                d[j],
                edit_cells(
                    cells(d[j].runs),
                    crate::docview::clamp_byte(d[j], sel_lo(a, j)),
                    crate::docview::clamp_byte(d[j], sel_hi(d, b, j)),
                    e,
                ),
            )
    }
}

/// Apply `e` to the style of every byte inside `range`, cutting runs at the
/// range edges. An empty range changes nothing.
fn for_each_run_in_range(doc: &mut RichDoc, range: DocRange, e: &StyleEdit)
    requires
        doc_len(old(doc)@) <= usize::MAX,
        inline_ok(old(doc)@, range),
    ensures
        inline_applied(old(doc)@, range, *e, final(doc)@),
        doc_len(final(doc)@) == doc_len(old(doc)@),
{
    let ghost d = doc@;
    let (a, b) = range.ordered();
    if a == b {
        return;
    }
    let len = doc.blocks.len();
    if a.block >= len {
        return;
    }
    let last = if b.block < len { b.block } else { len - 1 };
    let mut bi = a.block;
    while bi <= last
        invariant
            len == d.len(),
            len == doc@.len(),
            a == ordered_spec(range).0,
            b == ordered_spec(range).1,
            a != b,
            a.block <= bi <= last + 1,
            last < len,
            last == (if b.block < len { b.block as int } else { len - 1 }),
            doc_len(doc@) == doc_len(d),
            doc_len(d) <= usize::MAX,
            inline_ok(d, range),
            forall|j: int| 0 <= j < len && !(a.block <= j < bi) ==> #[trigger] doc@[j] == d[j],
            forall|j: int|
                a.block <= j < bi && !(sel_lo(a, j) < sel_hi(d, b, j)) ==> #[trigger] doc@[j] == d[j],
            forall|j: int|
                a.block <= j < bi && sel_lo(a, j) < sel_hi(d, b, j) ==> crate::docview::holds(
                    #[trigger] doc@[j],
                    d[j],
                    edit_cells(
                        cells(d[j].runs),
                        crate::docview::clamp_byte(d[j], sel_lo(a, j)),
                        crate::docview::clamp_byte(d[j], sel_hi(d, b, j)),
                        *e,
                    ),
                ),
        decreases last + 1 - bi,
    {
        let ghost cur = doc@;
        proof {
            lemma_doc_len_decompose(d, bi as int);
            assert(cur[bi as int] == d[bi as int]);
            assert(doc.blocks@[bi as int]@ == d[bi as int]);
            vstd::utf8::is_char_boundary_start_end_of_seq(flat(d[bi as int].runs));
        }
        let lo = if bi == a.block { a.byte } else { 0 };
        let hi = if bi == b.block { b.byte } else { doc.blocks[bi].text_len() };
        if lo < hi {
            let mut block = doc.blocks.remove(bi);
            edit_block_range(&mut block, lo, hi, e);
            let ghost nb = block@;
            doc.blocks.insert(bi, block);
            proof {
                assert(doc@ =~= cur.update(bi as int, nb));
                crate::docview::lemma_doc_len_update(cur, bi as int, nb);
                crate::docview::lemma_block_len_cells(nb);
                crate::docview::lemma_block_len_cells(d[bi as int]);
            }
        }
        bi += 1;
    }
    proof {
        assert forall|j: int| 0 <= j < d.len() implies #[trigger] doc@[j] == (if touches(d, a, b, j) && sel_lo(a, j)
            < sel_hi(d, b, j) {
            doc@[j]
        } else {
            d[j]
        }) by {}
    }
}

/// One block attribute change.
pub enum BlockEdit {
    Align(TextHAlign),
    List(ListKind),
    Indent,
    Outdent,
}

/// A block with its attributes changed as `e` says.
pub open spec fn edit_block(x: BlockView, e: BlockEdit) -> BlockView {
    match e {
        BlockEdit::Align(al) => BlockView { align: al, ..x },
        BlockEdit::List(k) => BlockView { list: k, ..x },
        BlockEdit::Indent => BlockView {
            indent: if x.indent + 1 <= MAX_INDENT { (x.indent + 1) as u8 } else { MAX_INDENT },
            ..x
        },
        BlockEdit::Outdent => BlockView {
            indent: if x.indent > 0 { (x.indent - 1) as u8 } else { 0 },
            ..x
        },
    }
}

/// Apply `e` to every block the range touches, even when the range is empty.
fn for_each_block_in_range(doc: &mut RichDoc, range: DocRange, e: &BlockEdit)
    ensures
        ({
            let (a, b) = ordered_spec(range);
            let d = old(doc)@;
            &&& final(doc)@.len() == d.len()
            &&& forall|j: int|
                0 <= j < d.len() ==> #[trigger] final(doc)@[j] == if touches(d, a, b, j) {
                    edit_block(d[j], *e)
                } else {
                    d[j]
                }
        }),
        doc_len(final(doc)@) == doc_len(old(doc)@),
{
    let ghost d = doc@;
    let (a, b) = range.ordered();
    let len = doc.blocks.len();
    if a.block >= len {
        return;
    }
    let last = if b.block < len { b.block } else { len - 1 };
    let mut bi = a.block;
    while bi <= last
        invariant
            len == d.len(),
            len == doc@.len(),
            a == ordered_spec(range).0,
            b == ordered_spec(range).1,
            a.block <= bi <= last + 1,
            last < len,
            last == (if b.block < len { b.block as int } else { len - 1 }),
            doc_len(doc@) == doc_len(d),
            forall|j: int| 0 <= j < len && !(a.block <= j < bi) ==> #[trigger] doc@[j] == d[j],
            forall|j: int| a.block <= j < bi ==> #[trigger] doc@[j] == edit_block(d[j], *e),
        decreases last + 1 - bi,
    {
        let ghost cur = doc@;
        proof {
            assert(cur[bi as int] == d[bi as int]);
        }
        let mut block = doc.blocks.remove(bi);
        proof {
            assert(block@ == d[bi as int]);
        }
        match e {
            BlockEdit::Align(al) => block.align = *al,
            BlockEdit::List(k) => block.list = *k,
            BlockEdit::Indent => {
                block.indent = if block.indent >= MAX_INDENT { MAX_INDENT } else { block.indent + 1 };
            },
            BlockEdit::Outdent => {
                block.indent = if block.indent > 0 { block.indent - 1 } else { 0 };
            },
        }
        let ghost nb = block@;
        doc.blocks.insert(bi, block);
        proof {
            assert(nb == edit_block(d[bi as int], *e));
            assert(doc@ =~= cur.update(bi as int, nb));
            crate::docview::lemma_doc_len_update(cur, bi as int, nb);
        }
        bi += 1;
    }
}


/// `nd` is `d` with `e` applied to every block `range` touches.
pub open spec fn blocks_applied(d: Seq<BlockView>, range: DocRange, e: BlockEdit, nd: Seq<BlockView>) -> bool {
    let (a, b) = ordered_spec(range);
    &&& nd.len() == d.len()
    &&& forall|j: int|
        0 <= j < d.len() ==> #[trigger] nd[j] == if touches(d, a, b, j) {
            edit_block(d[j], e)
        } else {
            d[j]
        }
}

/// The list kind `SetList(kind)` gives the touched blocks: none when they all
/// already are that (non-plain) kind, otherwise `kind`.
pub open spec fn list_target(d: Seq<BlockView>, range: DocRange, kind: ListKind) -> ListKind {
    let (a, b) = ordered_spec(range);
    if kind != ListKind::Plain && forall|j: int| touches(d, a, b, j) ==> #[trigger] d[j].list == kind {
        ListKind::Plain
    } else {
        kind
    }
}

/// What a toggle sets: off when the whole range already has the attribute,
/// on otherwise.
pub open spec fn toggle_target(current: Option<bool>) -> bool {
    !(current == Some(true))
}

/// The document `cmd` over `range` turns `d` into.
pub open spec fn command_applied(d: Seq<BlockView>, range: DocRange, cmd: RichCommand, nd: Seq<BlockView>) -> bool {
    match cmd {
        RichCommand::ToggleBold => inline_applied(d, range, StyleEdit::Bold(toggle_target(common_spec(d, range).bold)), nd),
        RichCommand::ToggleItalic => inline_applied(d, range, StyleEdit::Italic(toggle_target(common_spec(d, range).italic)), nd),
        RichCommand::ToggleUnderline => inline_applied(d, range, StyleEdit::Underline(toggle_target(common_spec(d, range).underline)), nd),
        RichCommand::ToggleStrikethrough => inline_applied(
            d,
            range,
            StyleEdit::Strikethrough(toggle_target(common_spec(d, range).strikethrough)),
            nd,
        ),
        RichCommand::SetFontFamily(f) => inline_applied(d, range, StyleEdit::Family(f), nd),
        RichCommand::SetFontSize(z) => inline_applied(d, range, StyleEdit::Size(z), nd),
        RichCommand::SetTextColor(c) => inline_applied(d, range, StyleEdit::TextColor(c), nd),
        RichCommand::SetHighlight(h) => inline_applied(d, range, StyleEdit::Highlight(h), nd),
        RichCommand::SetAlign(al) => blocks_applied(d, range, BlockEdit::Align(al), nd),
        RichCommand::SetList(k) => blocks_applied(d, range, BlockEdit::List(list_target(d, range, k)), nd),
        RichCommand::Indent => blocks_applied(d, range, BlockEdit::Indent, nd),
        RichCommand::Outdent => blocks_applied(d, range, BlockEdit::Outdent, nd),
    }
}

fn toggle(doc: &mut RichDoc, range: DocRange, current: Option<bool>, which: u8)
    requires
        doc_len(old(doc)@) <= usize::MAX,
        inline_ok(old(doc)@, range),
        which < 4,
    ensures
        inline_applied(
            old(doc)@,
            range,
            if which == 0 {
                StyleEdit::Bold(toggle_target(current))
            } else if which == 1 {
                StyleEdit::Italic(toggle_target(current))
            } else if which == 2 {
                StyleEdit::Underline(toggle_target(current))
            } else {
                StyleEdit::Strikethrough(toggle_target(current))
            },
            final(doc)@,
        ),
        doc_len(final(doc)@) == doc_len(old(doc)@),
{
    let all_set = current == Some(true);
    let target = !all_set;
    let e = if which == 0 {
        StyleEdit::Bold(target)
    } else if which == 1 {
        StyleEdit::Italic(target)
    } else if which == 2 {
        StyleEdit::Underline(target)
    } else {
        StyleEdit::Strikethrough(target)
    };
    for_each_run_in_range(doc, range, &e);
}

fn apply_set_list(doc: &mut RichDoc, range: DocRange, kind: ListKind)
    ensures
        blocks_applied(old(doc)@, range, BlockEdit::List(list_target(old(doc)@, range, kind)), final(doc)@),
        doc_len(final(doc)@) == doc_len(old(doc)@),
{
    let ghost d = doc@;
    let (a, b) = range.ordered();
    let mut all_same = kind != ListKind::Plain;
    let len = doc.blocks.len();
    if all_same && a.block < len {
        let last = if b.block < len { b.block } else { len - 1 };
        let mut bi = a.block;
        while bi <= last
            invariant
                d == doc@,
                len == d.len(),
                a == ordered_spec(range).0,
                b == ordered_spec(range).1,
                a.block <= bi <= last + 1,
                last < len,
                last == (if b.block < len { b.block as int } else { len - 1 }),
                all_same == (kind != ListKind::Plain && forall|j: int| a.block <= j < bi ==> #[trigger] d[j].list == kind),
            decreases last + 1 - bi,
        {
            proof {
                assert(doc.blocks@[bi as int]@ == d[bi as int]);
            }
            let ghost prev = all_same;
            if doc.blocks[bi].list != kind {
                all_same = false;
            }
            proof {
                if prev && d[bi as int].list == kind {
                    assert forall|j: int| a.block <= j < bi + 1 implies #[trigger] d[j].list == kind by {
                        if j < bi {
                        }
                    }
                }
                if !(d[bi as int].list == kind) {
                    assert(!(forall|j: int| a.block <= j < bi + 1 ==> #[trigger] d[j].list == kind));
                }
            }
            bi += 1;
        }
        proof {
            assert(all_same == (kind != ListKind::Plain && forall|j: int| touches(d, a, b, j) ==> #[trigger] d[j].list == kind)) by {
                if !all_same && kind != ListKind::Plain {
                    let j = choose|j: int| a.block <= j < bi && #[trigger] d[j].list != kind;
                    assert(touches(d, a, b, j));
                }
            }
        }
    } else {
        proof {
            assert(a.block >= len ==> forall|j: int| !touches(d, a, b, j));
        }
    }
    let target = if all_same { ListKind::Plain } else { kind };
    for_each_block_in_range(doc, range, &BlockEdit::List(target));
}

/// Apply `cmd` to `doc` over `range`. Inline commands cut runs at the range
/// edges and restyle only the covered bytes; toggles clear an attribute the
/// whole range already has and set it otherwise. Block commands apply to every
/// block the range touches.
pub fn apply_command(doc: &mut RichDoc, range: DocRange, cmd: &RichCommand)
    requires
        doc_len(old(doc)@) <= usize::MAX,
        inline_ok(old(doc)@, range),
    ensures
        command_applied(old(doc)@, range, *cmd, final(doc)@),
        doc_len(final(doc)@) == doc_len(old(doc)@),
{
    match cmd {
        RichCommand::ToggleBold => {
            let cs = range_common_style(doc, range);
            toggle(doc, range, cs.bold, 0);
        },
        RichCommand::ToggleItalic => {
            let cs = range_common_style(doc, range);
            toggle(doc, range, cs.italic, 1);
        },
        RichCommand::ToggleUnderline => {
            let cs = range_common_style(doc, range);
            toggle(doc, range, cs.underline, 2);
        },
        RichCommand::ToggleStrikethrough => {
            let cs = range_common_style(doc, range);
            toggle(doc, range, cs.strikethrough, 3);
        },
        RichCommand::SetFontFamily(family) => {
            for_each_run_in_range(doc, range, &StyleEdit::Family(family.clone()))
        },
        RichCommand::SetFontSize(size) => {
            for_each_run_in_range(doc, range, &StyleEdit::Size(*size))
        },
        RichCommand::SetTextColor(color) => {
            for_each_run_in_range(doc, range, &StyleEdit::TextColor(*color))
        },
        RichCommand::SetHighlight(color) => {
            for_each_run_in_range(doc, range, &StyleEdit::Highlight(*color))
        },
        RichCommand::SetAlign(align) => for_each_block_in_range(doc, range, &BlockEdit::Align(*align)),
        RichCommand::SetList(kind) => apply_set_list(doc, range, *kind),
        RichCommand::Indent => for_each_block_in_range(doc, range, &BlockEdit::Indent),
        RichCommand::Outdent => for_each_block_in_range(doc, range, &BlockEdit::Outdent),
    }
}

} // verus!
