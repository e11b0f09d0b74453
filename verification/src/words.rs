//! Word boundaries within a block's bytes.
use vstd::prelude::*;
use vstd::utf8::*;
use crate::text::lemma_boundary_around_ascii;

verus! {

/// Whether a byte belongs to a word: an ASCII letter or digit, `_`, or any
/// byte of a non-ASCII character.
pub open spec fn is_word_byte(b: u8) -> bool {
    (48 <= b <= 57) || (65 <= b <= 90) || (97 <= b <= 122) || b == 95 || b >= 128
}

/// Executable form of [`is_word_byte`].
pub fn word_byte(b: u8) -> (r: bool)
    ensures
        r == is_word_byte(b),
{
    (48 <= b && b <= 57) || (65 <= b && b <= 90) || (97 <= b && b <= 122) || b == 95 || b >= 128
}

/// From byte `i`, step back over the bytes whose class (word or not) is `w`.
pub open spec fn skip_back(bs: Seq<u8>, i: int, w: bool) -> int
    decreases i,
{
    if i > 0 && is_word_byte(bs[i - 1]) == w {
        skip_back(bs, i - 1, w)
    } else {
        i
    }
}

/// From byte `i`, step forward over the bytes whose class (word or not) is `w`.
pub open spec fn skip_fwd(bs: Seq<u8>, i: int, w: bool) -> int
    decreases bs.len() - i,
{
    if 0 <= i < bs.len() && is_word_byte(bs[i]) == w {
        skip_fwd(bs, i + 1, w)
    } else {
        i
    }
}

/// One word to the left of byte `i`: back over non-word bytes, then over the
/// word before them.
pub open spec fn word_left(bs: Seq<u8>, i: int) -> int {
    skip_back(bs, skip_back(bs, i, false), true)
}

/// One word to the right of byte `i`: over the word there, then over the
/// non-word bytes after it.
pub open spec fn word_right(bs: Seq<u8>, i: int) -> int {
    skip_fwd(bs, skip_fwd(bs, i, true), false)
}

pub proof fn lemma_skip_back(bs: Seq<u8>, i: int, w: bool)
    requires
        0 <= i <= bs.len(),
    ensures
        0 <= skip_back(bs, i, w) <= i,
        forall|t: int| skip_back(bs, i, w) <= t < i ==> is_word_byte(#[trigger] bs[t]) == w,
        skip_back(bs, i, w) > 0 ==> is_word_byte(bs[skip_back(bs, i, w) - 1]) != w,
    decreases i,
{
    if i > 0 && is_word_byte(bs[i - 1]) == w {
        lemma_skip_back(bs, i - 1, w);
    }
}

pub proof fn lemma_skip_fwd(bs: Seq<u8>, i: int, w: bool)
    requires
        0 <= i <= bs.len(),
    ensures
        i <= skip_fwd(bs, i, w) <= bs.len(),
        forall|t: int| i <= t < skip_fwd(bs, i, w) ==> is_word_byte(#[trigger] bs[t]) == w,
        skip_fwd(bs, i, w) < bs.len() ==> is_word_byte(bs[skip_fwd(bs, i, w)]) != w,
    decreases bs.len() - i,
{
    if 0 <= i < bs.len() && is_word_byte(bs[i]) == w {
        lemma_skip_fwd(bs, i + 1, w);
    }
}

/// Word motion from a character boundary lands on a character boundary.
pub proof fn lemma_word_moves_keep_boundaries(bs: Seq<u8>, i: int)
    requires
        valid_utf8(bs),
        0 <= i <= bs.len(),
        is_char_boundary(bs, i),
    ensures
        0 <= word_left(bs, i) <= i,
        is_char_boundary(bs, word_left(bs, i)),
        i <= word_right(bs, i) <= bs.len(),
        is_char_boundary(bs, word_right(bs, i)),
{
    is_char_boundary_start_end_of_seq(bs);
    let j = skip_back(bs, i, false);
    lemma_skip_back(bs, i, false);
    if j < i {
        assert(!is_word_byte(bs[j]));
        lemma_boundary_around_ascii(bs, j);
    }
    let r = skip_back(bs, j, true);
    lemma_skip_back(bs, j, true);
    if 0 < r < j {
        lemma_boundary_around_ascii(bs, r - 1);
    }
    let f = skip_fwd(bs, i, true);
    lemma_skip_fwd(bs, i, true);
    if i < f < bs.len() {
        lemma_boundary_around_ascii(bs, f);
    }
    let g = skip_fwd(bs, f, false);
    lemma_skip_fwd(bs, f, false);
    if f < g {
        assert(!is_word_byte(bs[g - 1]));
        lemma_boundary_around_ascii(bs, g - 1);
    }
}

/// Executable [`word_left`] on a byte slice.
pub fn word_left_in(bytes: &[u8], i: usize) -> (r: usize)
    requires
        i <= bytes@.len(),
    ensures
        r == word_left(bytes@, i as int),
{
    proof {
        lemma_skip_back(bytes@, i as int, false);
    }
    let j = skip_back_in(bytes, i, false);
    skip_back_in(bytes, j, true)
}

/// Executable [`word_right`] on a byte slice.
pub fn word_right_in(bytes: &[u8], i: usize) -> (r: usize)
    requires
        i <= bytes@.len(),
    ensures
        r == word_right(bytes@, i as int),
{
    proof {
        lemma_skip_fwd(bytes@, i as int, true);
    }
    let j = skip_fwd_in(bytes, i, true);
    skip_fwd_in(bytes, j, false)
}

/// Executable [`skip_back`] on a byte slice.
pub fn skip_back_in(bytes: &[u8], i: usize, w: bool) -> (r: usize)
    requires
        i <= bytes@.len(),
    ensures
        r == skip_back(bytes@, i as int, w),
{
    let mut k = i;
    while k > 0 && word_byte(bytes[k - 1]) == w
        invariant
            k <= i <= bytes@.len(),
            skip_back(bytes@, k as int, w) == skip_back(bytes@, i as int, w),
        decreases k,
    {
        k -= 1;
    }
    k
}

/// Executable [`skip_fwd`] on a byte slice.
pub fn skip_fwd_in(bytes: &[u8], i: usize, w: bool) -> (r: usize)
    requires
        i <= bytes@.len(),
    ensures
        r == skip_fwd(bytes@, i as int, w),
{
    let len = bytes.len();
    let mut k = i;
    while k < len && word_byte(bytes[k]) == w
        invariant
            len == bytes@.len(),
            i <= k <= len,
            skip_fwd(bytes@, k as int, w) == skip_fwd(bytes@, i as int, w),
        decreases len - k,
    {
        k += 1;
    }
    k
}

} // verus!
