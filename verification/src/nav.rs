//! Caret navigation by characters and words, and the word or block around
//! a position.
use vstd::prelude::*;
use vstd::utf8::*;
use crate::docview::{lemma_doc_len_decompose, lemma_doc_len_ge_count};
use crate::editor::{caret_ok, RichEditCore};
use crate::model::{BlockView, block_len};
use crate::position::DocPos;
use crate::runs::flat;
use crate::text::{ceil_boundary, floor_boundary, lemma_ceil_boundary, lemma_floor_boundary, next_char_boundary, prev_char_boundary};
use crate::words::{is_word_byte, lemma_skip_back, lemma_skip_fwd, lemma_word_moves_keep_boundaries, skip_back, skip_back_in, skip_fwd, skip_fwd_in, word_byte, word_left, word_left_in, word_right, word_right_in};

verus! {

broadcast use encode_utf8_valid_utf8;

/// One character left (`dir < 0`) or right of `p`, crossing to the end of
/// the previous block or the start of the next one at a block edge, and
/// staying put at the ends of the document.
pub open spec fn char_target_spec(d: Seq<BlockView>, p: DocPos, dir: i32) -> DocPos {
    let blk = p.block as int;
    let bs = flat(d[blk].runs);
    if dir < 0 {
        if p.byte > 0 {
            DocPos { block: p.block, byte: floor_boundary(bs, p.byte - 1) as usize }
        } else if p.block > 0 {
            DocPos { block: (p.block - 1) as usize, byte: block_len(d[blk - 1]) as usize }
        } else {
            p
        }
    } else {
        if p.byte < bs.len() {
            DocPos { block: p.block, byte: ceil_boundary(bs, p.byte + 1) as usize }
        } else if p.block + 1 < d.len() {
            DocPos { block: (p.block + 1) as usize, byte: 0 }
        } else {
            p
        }
    }
}

/// One word left (`dir < 0`) or right of `p` within its block, crossing to
/// the neighbouring block when already at an edge.
pub open spec fn word_target_spec(d: Seq<BlockView>, p: DocPos, dir: i32) -> DocPos {
    let blk = p.block as int;
    let bs = flat(d[blk].runs);
    if dir < 0 {
        if p.byte == 0 {
            if p.block > 0 {
                DocPos { block: (p.block - 1) as usize, byte: block_len(d[blk - 1]) as usize }
            } else {
                p
            }
        } else {
            DocPos { block: p.block, byte: word_left(bs, p.byte as int) as usize }
        }
    } else {
        if p.byte >= bs.len() {
            if p.block + 1 < d.len() {
                DocPos { block: (p.block + 1) as usize, byte: 0 }
            } else {
                p
            }
        } else {
            DocPos { block: p.block, byte: word_right(bs, p.byte as int) as usize }
        }
    }
}

/// The run of same-class bytes (word or not) around `pos` in its block: the
/// class is that of the byte at `pos`, or "not a word" past the block's end.
pub open spec fn word_range_spec(d: Seq<BlockView>, pos: DocPos) -> (DocPos, DocPos) {
    if pos.block >= d.len() {
        (pos, pos)
    } else {
        let bs = flat(d[pos.block as int].runs);
        let c: int = if pos.byte <= bs.len() { pos.byte as int } else { bs.len() as int };
        let cls = c < bs.len() && is_word_byte(bs[c]);
        (
            DocPos { block: pos.block, byte: skip_back(bs, c, cls) as usize },
            DocPos { block: pos.block, byte: skip_fwd(bs, c, cls) as usize },
        )
    }
}

/// The whole block `pos` is in, from its start to its end (an empty range at
/// the start of a block past the document).
pub open spec fn block_range_spec(d: Seq<BlockView>, pos: DocPos) -> (DocPos, DocPos) {
    (
        DocPos { block: pos.block, byte: 0 },
        DocPos {
            block: pos.block,
            byte: if pos.block < d.len() { block_len(d[pos.block as int]) as usize } else { 0 },
        },
    )
}

impl RichEditCore {
    /// The position one character left (`dir < 0`) or right of `caret`.
    pub fn char_target(&self, caret: DocPos, dir: i32) -> (t: DocPos)
        requires
            self.wf(),
            caret_ok(self@.doc, caret),
        ensures
            t == char_target_spec(self@.doc, caret, dir),
            caret_ok(self@.doc, t),
    {
        let doc = self.doc();
        let ghost d = doc@;
        let blk = caret.block;
        proof {
            lemma_doc_len_decompose(d, blk as int);
            lemma_doc_len_ge_count(d);
            assert(doc.blocks@[blk as int]@ == d[blk as int]);
            is_char_boundary_start_end_of_seq(flat(d[blk as int].runs));
        }
        let text = doc.blocks[blk].text();
        let len = text.as_str().len();
        if dir < 0 {
            if caret.byte > 0 {
                let b = prev_char_boundary(text.as_str(), caret.byte);
                proof {
                    lemma_floor_boundary(flat(d[blk as int].runs), caret.byte - 1);
                }
                DocPos { block: blk, byte: b }
            } else if blk > 0 {
                proof {
                    lemma_doc_len_decompose(d, blk - 1);
                    assert(doc.blocks@[blk - 1]@ == d[blk - 1]);
                    is_char_boundary_start_end_of_seq(flat(d[blk - 1].runs));
                }
                DocPos { block: blk - 1, byte: doc.blocks[blk - 1].text_len() }
            } else {
                caret
            }
        } else if caret.byte < len {
            let b = next_char_boundary(text.as_str(), caret.byte);
            proof {
                lemma_ceil_boundary(flat(d[blk as int].runs), caret.byte + 1);
            }
            DocPos { block: blk, byte: b }
        } else if blk + 1 < doc.blocks.len() {
            proof {
                is_char_boundary_start_end_of_seq(flat(d[blk + 1].runs));
            }
            DocPos { block: blk + 1, byte: 0 }
        } else {
            caret
        }
    }

    /// The position one word left (`dir < 0`) or right of `caret`.
    pub fn word_target(&self, caret: DocPos, dir: i32) -> (t: DocPos)
        requires
            self.wf(),
            caret_ok(self@.doc, caret),
        ensures
            t == word_target_spec(self@.doc, caret, dir),
            caret_ok(self@.doc, t),
    {
        let doc = self.doc();
        let ghost d = doc@;
        let blk = caret.block;
        proof {
            lemma_doc_len_decompose(d, blk as int);
            lemma_doc_len_ge_count(d);
            assert(doc.blocks@[blk as int]@ == d[blk as int]);
            lemma_word_moves_keep_boundaries(flat(d[blk as int].runs), caret.byte as int);
        }
        let text = doc.blocks[blk].text();
        let bytes = text.as_str().as_bytes();
        let len = bytes.len();
        if dir < 0 {
            if caret.byte == 0 {
                if blk > 0 {
                    proof {
                        lemma_doc_len_decompose(d, blk - 1);
                        assert(doc.blocks@[blk - 1]@ == d[blk - 1]);
                        is_char_boundary_start_end_of_seq(flat(d[blk - 1].runs));
                    }
                    DocPos { block: blk - 1, byte: doc.blocks[blk - 1].text_len() }
                } else {
                    caret
                }
            } else {
                DocPos { block: blk, byte: word_left_in(bytes, caret.byte) }
            }
        } else if caret.byte >= len {
            if blk + 1 < doc.blocks.len() {
                proof {
                    is_char_boundary_start_end_of_seq(flat(d[blk + 1].runs));
                }
                DocPos { block: blk + 1, byte: 0 }
            } else {
                caret
            }
        } else {
            DocPos { block: blk, byte: word_right_in(bytes, caret.byte) }
        }
    }

    /// The word (or run of non-word bytes) under `pos`, as a pair of
    /// positions in its block; `(pos, pos)` for a block past the document.
    pub fn word_range_at_pos(&self, pos: DocPos) -> (r: (DocPos, DocPos))
        requires
            self.wf(),
        ensures
            r == word_range_spec(self@.doc, pos),
    {
        let doc = self.doc();
        let ghost d = doc@;
        if pos.block >= doc.blocks.len() {
            return (pos, pos);
        }
        proof {
            lemma_doc_len_decompose(d, pos.block as int);
            assert(doc.blocks@[pos.block as int]@ == d[pos.block as int]);
        }
        let text = doc.blocks[pos.block].text();
        let bytes = text.as_str().as_bytes();
        let len = bytes.len();
        let c = if pos.byte <= len { pos.byte } else { len };
        let cls = c < len && word_byte(bytes[c]);
        let start = skip_back_in(bytes, c, cls);
        let end = skip_fwd_in(bytes, c, cls);
        (DocPos { block: pos.block, byte: start }, DocPos { block: pos.block, byte: end })
    }

    /// The whole block `pos` is in, from its start to its end.
    pub fn block_range_at_pos(&self, pos: DocPos) -> (r: (DocPos, DocPos))
        requires
            self.wf(),
        ensures
            r == block_range_spec(self@.doc, pos),
    {
        let doc = self.doc();
        let ghost d = doc@;
        let len = if pos.block < doc.blocks.len() {
            proof {
                lemma_doc_len_decompose(d, pos.block as int);
                assert(doc.blocks@[pos.block as int]@ == d[pos.block as int]);
            }
            doc.blocks[pos.block].text_len()
        } else {
            0
        };
        (DocPos { block: pos.block, byte: 0 }, DocPos { block: pos.block, byte: len })
    }
}

} // verus!
