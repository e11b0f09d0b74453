//! Run lists seen as styled bytes, and the normalized form of a run list.
use vstd::prelude::*;
use vstd::utf8::*;
use crate::style::StyleView;
use crate::text::{lemma_encode_concat, lemma_encode_injective};

verus! {

broadcast use encode_utf8_valid_utf8;

/// The mathematical value of a [`TextRun`](crate::model::TextRun): its
/// characters and its style.
pub struct RunView {
    pub text: Seq<char>,
    pub style: StyleView,
}

/// The UTF-8 bytes of a run.
pub open spec fn run_bytes(r: RunView) -> Seq<u8> {
    encode_utf8(r.text)
}

/// Every byte of a run paired with the run's style.
pub open spec fn run_cells(r: RunView) -> Seq<(u8, StyleView)> {
    encode_utf8(r.text).map_values(|b: u8| (b, r.style))
}

/// The styled bytes of a run list: each byte of the flattened text with the
/// style it is drawn in. This is the content a block shows, independent of
/// how it is cut into runs.
pub open spec fn cells(runs: Seq<RunView>) -> Seq<(u8, StyleView)>
    decreases runs.len(),
{
    if runs.len() == 0 {
        Seq::empty()
    } else {
        cells(runs.drop_last()) + run_cells(runs.last())
    }
}

/// The characters of a run list, all runs concatenated.
pub open spec fn chars(runs: Seq<RunView>) -> Seq<char>
    decreases runs.len(),
{
    if runs.len() == 0 {
        Seq::empty()
    } else {
        chars(runs.drop_last()) + runs.last().text
    }
}

/// The flattened UTF-8 text of a run list.
pub open spec fn flat(runs: Seq<RunView>) -> Seq<u8> {
    encode_utf8(chars(runs))
}

/// Byte length of the flattened text of the first `i` runs.
pub open spec fn prefix_len(runs: Seq<RunView>, i: int) -> int {
    flat(runs.take(i)).len() as int
}

/// No empty run, and no two neighbouring runs with the same style: the
/// minimal way to cut a styled text into runs.
pub open spec fn normalized(runs: Seq<RunView>) -> bool {
    &&& forall|i: int| 0 <= i < runs.len() ==> #[trigger] runs[i].text.len() > 0
    &&& forall|i: int| 0 <= i < runs.len() - 1 ==> #[trigger] runs[i].style != runs[i + 1].style
}

/// `new` is `old` with run `i` cut into two non-empty pieces of the same style.
pub open spec fn splits_run(old: Seq<RunView>, new: Seq<RunView>, i: int) -> bool {
    &&& 0 <= i < old.len()
    &&& new.len() == old.len() + 1
    &&& new.take(i) == old.take(i)
    &&& new.skip(i + 2) == old.skip(i + 1)
    &&& new[i].style == old[i].style
    &&& new[i + 1].style == old[i].style
    &&& new[i].text.len() > 0
    &&& new[i + 1].text.len() > 0
    &&& new[i].text + new[i + 1].text == old[i].text
}

pub proof fn lemma_cells_concat(a: Seq<RunView>, b: Seq<RunView>)
    ensures
        cells(a + b) == cells(a) + cells(b),
        chars(a + b) == chars(a) + chars(b),
    decreases b.len(),
{
    if b.len() == 0 {
        assert(a + b =~= a);
        assert(cells(a) + cells(b) =~= cells(a));
        assert(chars(a) + chars(b) =~= chars(a));
    } else {
        lemma_cells_concat(a, b.drop_last());
        assert((a + b).drop_last() =~= a + b.drop_last());
        assert((a + b).last() == b.last());
        assert(cells(a + b) =~= cells(a) + cells(b));
        assert(chars(a + b) =~= chars(a) + chars(b));
    }
}

pub proof fn lemma_run_cells_concat(x: Seq<char>, y: Seq<char>, s: StyleView)
    ensures
        run_cells(RunView { text: x + y, style: s }) == run_cells(RunView { text: x, style: s })
            + run_cells(RunView { text: y, style: s }),
{
    lemma_encode_concat(x, y);
    assert(run_cells(RunView { text: x + y, style: s }) =~= run_cells(
        RunView { text: x, style: s },
    ) + run_cells(RunView { text: y, style: s }));
}

pub proof fn lemma_cells_single(r: RunView)
    ensures
        cells(seq![r]) == run_cells(r),
        chars(seq![r]) == r.text,
{
    let s = seq![r];
    assert(s.drop_last() =~= Seq::<RunView>::empty());
    assert(cells(Seq::<RunView>::empty()) == Seq::<(u8, StyleView)>::empty());
    assert(chars(Seq::<RunView>::empty()) == Seq::<char>::empty());
    assert(s.last() == r);
    assert(cells(s) =~= run_cells(r));
    assert(chars(s) =~= r.text);
}

/// The styled bytes carry exactly the flattened text.
pub proof fn lemma_cells_flat(runs: Seq<RunView>)
    ensures
        cells(runs).len() == flat(runs).len(),
        forall|i: int| 0 <= i < flat(runs).len() ==> #[trigger] cells(runs)[i].0 == flat(runs)[i],
    decreases runs.len(),
{
    if runs.len() > 0 {
        lemma_cells_flat(runs.drop_last());
        lemma_encode_concat(chars(runs.drop_last()), runs.last().text);
    }
}

pub proof fn lemma_flat_concat(a: Seq<RunView>, b: Seq<RunView>)
    ensures
        flat(a + b) == flat(a) + flat(b),
{
    lemma_cells_concat(a, b);
    lemma_encode_concat(chars(a), chars(b));
}

pub proof fn lemma_prefix_step(runs: Seq<RunView>, i: int)
    requires
        0 <= i < runs.len(),
    ensures
        prefix_len(runs, i + 1) == prefix_len(runs, i) + run_bytes(runs[i]).len(),
        flat(runs.take(i + 1)) == flat(runs.take(i)) + run_bytes(runs[i]),
{
    assert(runs.take(i + 1).drop_last() =~= runs.take(i));
    assert(runs.take(i + 1).last() == runs[i]);
    lemma_encode_concat(chars(runs.take(i)), runs[i].text);
}

proof fn lemma_prefix_mono(runs: Seq<RunView>, i: int, j: int)
    requires
        0 <= i <= j <= runs.len(),
    ensures
        0 <= prefix_len(runs, i) <= prefix_len(runs, j),
    decreases j - i,
{
    if i < j {
        lemma_prefix_mono(runs, i, j - 1);
        lemma_prefix_step(runs, j - 1);
    }
}

pub proof fn lemma_prefix_bounds(runs: Seq<RunView>, i: int, j: int)
    requires
        0 <= i <= j <= runs.len(),
    ensures
        0 <= prefix_len(runs, i) <= prefix_len(runs, j) <= flat(runs).len(),
{
    lemma_prefix_mono(runs, i, j);
    lemma_prefix_mono(runs, j, runs.len() as int);
    assert(runs.take(runs.len() as int) =~= runs);
}

pub proof fn lemma_take_all(runs: Seq<RunView>)
    ensures
        runs.take(runs.len() as int) == runs,
        prefix_len(runs, runs.len() as int) == flat(runs).len(),
        prefix_len(runs, 0) == 0,
{
    assert(runs.take(runs.len() as int) =~= runs);
    assert(runs.take(0) =~= Seq::<RunView>::empty());
}

} // verus!

verus! {

pub proof fn lemma_encode_nonempty(s: Seq<char>)
    ensures
        s.len() > 0 <==> encode_utf8(s).len() > 0,
{
    if s.len() > 0 {
        let c = s[0] as u32;
        assert(encode_scalar(c).len() >= 1);
    } else {
        assert(encode_utf8(s) =~= Seq::<u8>::empty());
    }
}

pub proof fn lemma_cells_eq_flat_eq(a: Seq<RunView>, b: Seq<RunView>)
    requires
        cells(a) == cells(b),
    ensures
        flat(a) == flat(b),
{
    lemma_cells_flat(a);
    lemma_cells_flat(b);
    assert forall|i: int| 0 <= i < flat(a).len() implies flat(a)[i] == flat(b)[i] by {
        assert(cells(a)[i].0 == flat(a)[i]);
        assert(cells(b)[i].0 == flat(b)[i]);
    }
    assert(flat(a) =~= flat(b));
}

/// `v` split into the runs before `i`, run `i`, and the runs after it.
pub proof fn lemma_decompose(v: Seq<RunView>, i: int)
    requires
        0 <= i < v.len(),
    ensures
        v == v.take(i) + seq![v[i]] + v.skip(i + 1),
        cells(v) == cells(v.take(i)) + run_cells(v[i]) + cells(v.skip(i + 1)),
        flat(v) == flat(v.take(i)) + run_bytes(v[i]) + flat(v.skip(i + 1)),
{
    assert(v =~= v.take(i) + seq![v[i]] + v.skip(i + 1));
    lemma_cells_concat(v.take(i) + seq![v[i]], v.skip(i + 1));
    lemma_cells_concat(v.take(i), seq![v[i]]);
    lemma_cells_single(v[i]);
    lemma_flat_concat(v.take(i) + seq![v[i]], v.skip(i + 1));
    lemma_flat_concat(v.take(i), seq![v[i]]);
}

/// Cutting run `i` of `v` at byte `k` of that run keeps the styled content and
/// puts a run boundary at `prefix_len(v, i) + k`.
pub proof fn lemma_split_facts(v: Seq<RunView>, i: int, left: RunView, right: RunView, k: int)
    requires
        0 <= i < v.len(),
        0 < k < run_bytes(v[i]).len(),
        encode_utf8(left.text) == run_bytes(v[i]).subrange(0, k),
        encode_utf8(right.text) == run_bytes(v[i]).subrange(k, run_bytes(v[i]).len() as int),
        left.style == v[i].style,
        right.style == v[i].style,
    ensures
        ({
            let nv = v.take(i) + seq![left, right] + v.skip(i + 1);
            &&& splits_run(v, nv, i)
            &&& cells(nv) == cells(v)
            &&& prefix_len(nv, i + 1) == prefix_len(v, i) + k
            &&& forall|j: int| 0 <= j <= i ==> #[trigger] prefix_len(nv, j) == prefix_len(v, j)
        }),
{
    let nv = v.take(i) + seq![left, right] + v.skip(i + 1);
    let b = run_bytes(v[i]);
    lemma_encode_concat(left.text, right.text);
    assert(encode_utf8(left.text + right.text) =~= b);
    lemma_encode_injective(left.text + right.text, v[i].text);
    lemma_encode_nonempty(left.text);
    lemma_encode_nonempty(right.text);
    assert(nv.take(i) =~= v.take(i));
    assert(nv.skip(i + 2) =~= v.skip(i + 1));
    assert(nv[i] == left);
    assert(nv[i + 1] == right);
    // styled content
    lemma_decompose(v, i);
    lemma_cells_concat(v.take(i) + seq![left, right], v.skip(i + 1));
    lemma_cells_concat(v.take(i), seq![left, right]);
    assert(seq![left, right] =~= seq![left] + seq![right]);
    lemma_cells_concat(seq![left], seq![right]);
    lemma_cells_single(left);
    lemma_cells_single(right);
    lemma_run_cells_concat(left.text, right.text, v[i].style);
    assert(cells(nv) =~= cells(v));
    // prefixes
    lemma_prefix_step(nv, i);
    assert forall|j: int| 0 <= j <= i implies #[trigger] prefix_len(nv, j) == prefix_len(v, j) by {
        assert(nv.take(j) =~= v.take(j));
    }
}

} // verus!

verus! {

pub proof fn lemma_cells_push(a: Seq<RunView>, r: RunView)
    ensures
        cells(a.push(r)) == cells(a) + run_cells(r),
        chars(a.push(r)) == chars(a) + r.text,
{
    assert(a.push(r).drop_last() =~= a);
    assert(a.push(r).last() == r);
}

pub proof fn lemma_cells_cons(r: RunView, rest: Seq<RunView>)
    ensures
        cells(seq![r] + rest) == run_cells(r) + cells(rest),
        chars(seq![r] + rest) == r.text + chars(rest),
{
    lemma_cells_concat(seq![r], rest);
    lemma_cells_single(r);
}

} // verus!

verus! {

/// Cutting a run list at run index `idx` cuts its styled content at the
/// prefix length.
pub proof fn lemma_cells_take_skip(w: Seq<RunView>, idx: int)
    requires
        0 <= idx <= w.len(),
    ensures
        cells(w.take(idx)) == cells(w).take(prefix_len(w, idx)),
        cells(w.skip(idx)) == cells(w).skip(prefix_len(w, idx)),
        flat(w.take(idx)) == flat(w).take(prefix_len(w, idx)),
        flat(w.skip(idx)) == flat(w).skip(prefix_len(w, idx)),
        w == w.take(idx) + w.skip(idx),
{
    assert(w =~= w.take(idx) + w.skip(idx));
    lemma_cells_concat(w.take(idx), w.skip(idx));
    lemma_flat_concat(w.take(idx), w.skip(idx));
    lemma_cells_flat(w.take(idx));
    assert(cells(w.take(idx)) =~= cells(w).take(prefix_len(w, idx)));
    assert(cells(w.skip(idx)) =~= cells(w).skip(prefix_len(w, idx)));
    assert(flat(w.take(idx)) =~= flat(w).take(prefix_len(w, idx)));
    assert(flat(w.skip(idx)) =~= flat(w).skip(prefix_len(w, idx)));
}

/// A boundary of a text that lies within a prefix ending on a boundary is a
/// boundary of that prefix.
pub proof fn lemma_boundary_in_prefix(head: Seq<RunView>, tail: Seq<RunView>, k: int)
    requires
        0 <= k <= flat(head).len(),
        is_char_boundary(flat(head + tail), k),
    ensures
        is_char_boundary(flat(head), k),
{
    lemma_flat_concat(head, tail);
    assert(Seq::<u8>::empty() + flat(head) + flat(tail) =~= flat(head + tail));
    crate::text::lemma_boundary_of_middle(Seq::<u8>::empty(), flat(head), flat(tail), k);
}

} // verus!
