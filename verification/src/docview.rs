//! The mathematical view of a document: its length in bytes, its plain
//! text, and what it means for a block to hold given styled text.
use vstd::prelude::*;
use crate::model::{BlockView, block_len};
use crate::runs::{cells, chars, lemma_cells_flat, normalized};
use crate::style::StyleView;

verus! {

/// Byte length of the document's plain text plus one: every block counts its
/// bytes and one separator.
pub open spec fn doc_len(d: Seq<BlockView>) -> int
    decreases d.len(),
{
    if d.len() == 0 {
        0
    } else {
        doc_len(d.drop_last()) + block_len(d.last()) + 1
    }
}

/// The document's characters with blocks separated by `\n`.
pub open spec fn plain_chars(d: Seq<BlockView>) -> Seq<char>
    decreases d.len(),
{
    if d.len() == 0 {
        Seq::empty()
    } else if d.len() == 1 {
        chars(d[0].runs)
    } else {
        plain_chars(d.drop_last()) + seq!['\n'] + chars(d.last().runs)
    }
}

/// `nb` is the canonical block with the attributes of `attrs` whose styled
/// content is `c`.
pub open spec fn holds(nb: BlockView, attrs: BlockView, c: Seq<(u8, StyleView)>) -> bool {
    &&& nb.align == attrs.align
    &&& nb.list == attrs.list
    &&& nb.indent == attrs.indent
    &&& normalized(nb.runs)
    &&& cells(nb.runs) == c
}

/// `byte` clamped to the end of block `b`.
pub open spec fn clamp_byte(b: BlockView, byte: int) -> int {
    if byte <= block_len(b) {
        byte
    } else {
        block_len(b)
    }
}

pub proof fn lemma_doc_len_concat(a: Seq<BlockView>, b: Seq<BlockView>)
    ensures
        doc_len(a + b) == doc_len(a) + doc_len(b),
    decreases b.len(),
{
    if b.len() == 0 {
        assert(a + b =~= a);
    } else {
        lemma_doc_len_concat(a, b.drop_last());
        assert((a + b).drop_last() =~= a + b.drop_last());
        assert((a + b).last() == b.last());
    }
}

pub proof fn lemma_doc_len_nonneg(d: Seq<BlockView>)
    ensures
        doc_len(d) >= 0,
    decreases d.len(),
{
    if d.len() > 0 {
        lemma_doc_len_nonneg(d.drop_last());
    }
}

pub proof fn lemma_doc_len_single(x: BlockView)
    ensures
        doc_len(seq![x]) == block_len(x) + 1,
{
    assert(seq![x].drop_last() =~= Seq::<BlockView>::empty());
    assert(doc_len(Seq::<BlockView>::empty()) == 0);
    assert(seq![x].last() == x);
}

/// The document length split around block `i`.
pub proof fn lemma_doc_len_decompose(d: Seq<BlockView>, i: int)
    requires
        0 <= i < d.len(),
    ensures
        d == d.take(i) + seq![d[i]] + d.skip(i + 1),
        doc_len(d) == doc_len(d.take(i)) + block_len(d[i]) + 1 + doc_len(d.skip(i + 1)),
        block_len(d[i]) < doc_len(d),
{
    assert(d =~= d.take(i) + seq![d[i]] + d.skip(i + 1));
    lemma_doc_len_concat(d.take(i) + seq![d[i]], d.skip(i + 1));
    lemma_doc_len_concat(d.take(i), seq![d[i]]);
    lemma_doc_len_single(d[i]);
    lemma_doc_len_nonneg(d.take(i));
    lemma_doc_len_nonneg(d.skip(i + 1));
}


pub proof fn lemma_doc_len_update(d: Seq<BlockView>, i: int, nb: BlockView)
    requires
        0 <= i < d.len(),
    ensures
        doc_len(d.update(i, nb)) == doc_len(d) - block_len(d[i]) + block_len(nb),
{
    lemma_doc_len_decompose(d, i);
    lemma_doc_len_decompose(d.update(i, nb), i);
    assert(d.update(i, nb).take(i) =~= d.take(i));
    assert(d.update(i, nb).skip(i + 1) =~= d.skip(i + 1));
}

pub proof fn lemma_block_len_cells(b: BlockView)
    ensures
        block_len(b) == cells(b.runs).len(),
{
    lemma_cells_flat(b.runs);
}


/// Replacing blocks `[i, j)` by `mid` changes the length by the difference.
pub proof fn lemma_doc_len_splice(d: Seq<BlockView>, i: int, j: int, mid: Seq<BlockView>)
    requires
        0 <= i <= j <= d.len(),
    ensures
        doc_len(d.take(i) + mid + d.skip(j)) == doc_len(d) - doc_len(d.subrange(i, j)) + doc_len(
            mid,
        ),
        d == d.take(i) + d.subrange(i, j) + d.skip(j),
{
    assert(d =~= d.take(i) + d.subrange(i, j) + d.skip(j));
    lemma_doc_len_concat(d.take(i) + d.subrange(i, j), d.skip(j));
    lemma_doc_len_concat(d.take(i), d.subrange(i, j));
    lemma_doc_len_concat(d.take(i) + mid, d.skip(j));
    lemma_doc_len_concat(d.take(i), mid);
}

pub proof fn lemma_doc_len_pair(x: BlockView, y: BlockView)
    ensures
        doc_len(seq![x, y]) == block_len(x) + block_len(y) + 2,
{
    assert(seq![x, y] =~= seq![x] + seq![y]);
    lemma_doc_len_concat(seq![x], seq![y]);
    lemma_doc_len_single(x);
    lemma_doc_len_single(y);
}


/// Collapsing blocks `i..=j` into one block no longer than the first and last
/// together does not lengthen the document.
pub proof fn lemma_doc_len_merge(d: Seq<BlockView>, i: int, j: int, nb: BlockView)
    requires
        0 <= i < j < d.len(),
        block_len(nb) <= block_len(d[i]) + block_len(d[j]),
    ensures
        doc_len(d.take(i) + seq![nb] + d.skip(j + 1)) <= doc_len(d),
{
    lemma_doc_len_splice(d, i, j + 1, seq![nb]);
    lemma_doc_len_single(nb);
    let sub = d.subrange(i, j + 1);
    let inner = sub.subrange(1, sub.len() - 1);
    assert(sub =~= seq![d[i]] + inner + seq![d[j]]);
    lemma_doc_len_concat(seq![d[i]] + inner, seq![d[j]]);
    lemma_doc_len_concat(seq![d[i]], inner);
    lemma_doc_len_single(d[i]);
    lemma_doc_len_single(d[j]);
    lemma_doc_len_nonneg(inner);
}


/// Every block counts at least one towards the document length.
pub proof fn lemma_doc_len_ge_count(d: Seq<BlockView>)
    ensures
        doc_len(d) >= d.len(),
    decreases d.len(),
{
    if d.len() > 0 {
        lemma_doc_len_ge_count(d.drop_last());
    }
}

/// The length of a document built from a head block, interior blocks, and a
/// last block, spliced in place of block `i`.
pub proof fn lemma_doc_len_splice_many(
    d: Seq<BlockView>,
    i: int,
    h: BlockView,
    inner: Seq<BlockView>,
    l: BlockView,
)
    requires
        0 <= i < d.len(),
    ensures
        doc_len(d.take(i) + seq![h] + inner + seq![l] + d.skip(i + 1)) == doc_len(d) - block_len(
            d[i],
        ) + block_len(h) + doc_len(inner) + block_len(l) + 1,
{
    let mid = seq![h] + inner + seq![l];
    assert(d.take(i) + seq![h] + inner + seq![l] + d.skip(i + 1) =~= d.take(i) + mid + d.skip(i + 1));
    lemma_doc_len_splice(d, i, i + 1, mid);
    assert(d.subrange(i, i + 1) =~= seq![d[i]]);
    lemma_doc_len_single(d[i]);
    lemma_doc_len_concat(seq![h] + inner, seq![l]);
    lemma_doc_len_concat(seq![h], inner);
    lemma_doc_len_single(h);
    lemma_doc_len_single(l);
}

} // verus!
