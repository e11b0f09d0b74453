//! UTF-8 character boundaries and the string operations the editor uses.
use vstd::prelude::*;
use vstd::utf8::*;

verus! {

broadcast use encode_utf8_valid_utf8;

/// The UTF-8 encoding of a concatenation is the concatenation of the encodings.
pub proof fn lemma_encode_concat(a: Seq<char>, b: Seq<char>)
    ensures
        encode_utf8(a + b) == encode_utf8(a) + encode_utf8(b),
    decreases a.len(),
{
    if a.len() == 0 {
        assert(a + b =~= b);
        assert(encode_utf8(a) =~= Seq::<u8>::empty());
        assert(encode_utf8(a) + encode_utf8(b) =~= encode_utf8(b));
    } else {
        lemma_encode_concat(a.drop_first(), b);
        assert((a + b).drop_first() =~= a.drop_first() + b);
        assert((a + b)[0] == a[0]);
        assert(encode_utf8(a + b) == encode_scalar(a[0] as u32) + encode_utf8(a.drop_first() + b));
        assert(encode_utf8(a) + encode_utf8(b) =~= encode_scalar(a[0] as u32) + (encode_utf8(
            a.drop_first(),
        ) + encode_utf8(b)));
    }
}

/// Encoding is injective: equal encodings come from equal characters.
pub proof fn lemma_encode_injective(a: Seq<char>, b: Seq<char>)
    requires
        encode_utf8(a) == encode_utf8(b),
    ensures
        a == b,
{
    encode_utf8_decode_utf8(a);
    encode_utf8_decode_utf8(b);
}

/// Inside a valid UTF-8 sequence made of three valid parts, a character
/// boundary of the whole that falls inside the middle part is a boundary of
/// the middle part.
pub proof fn lemma_boundary_of_middle(pre: Seq<u8>, mid: Seq<u8>, post: Seq<u8>, p: int)
    requires
        valid_utf8(pre),
        valid_utf8(mid),
        valid_utf8(post),
        pre.len() <= p <= pre.len() + mid.len(),
        is_char_boundary(pre + mid + post, p),
    ensures
        is_char_boundary(mid, p - pre.len()),
{
    let whole = pre + mid + post;
    valid_utf8_concat(pre, mid);
    valid_utf8_concat(pre + mid, post);
    is_char_boundary_start_end_of_seq(mid);
    let k = p - pre.len();
    if 0 < k < mid.len() {
        is_char_boundary_iff_not_is_continuation_byte(whole, p);
        is_char_boundary_iff_not_is_continuation_byte(mid, k);
        assert(whole[p] == mid[k]);
    }
}

/// A boundary of a part is a boundary of the whole it sits in.
pub proof fn lemma_boundary_in_whole(pre: Seq<u8>, mid: Seq<u8>, post: Seq<u8>, k: int)
    requires
        valid_utf8(pre),
        valid_utf8(mid),
        valid_utf8(post),
        is_char_boundary(mid, k),
    ensures
        is_char_boundary(pre + mid + post, pre.len() + k),
{
    let whole = pre + mid + post;
    valid_utf8_concat(pre, mid);
    valid_utf8_concat(pre + mid, post);
    is_char_boundary_start_end_of_seq(whole);
    if 0 <= k < mid.len() {
        is_char_boundary_iff_not_is_continuation_byte(whole, pre.len() + k);
        is_char_boundary_iff_not_is_continuation_byte(mid, k);
        assert(whole[pre.len() + k] == mid[k]);
    } else if post.len() > 0 {
        is_char_boundary_start_end_of_seq(post);
        is_char_boundary_iff_not_is_continuation_byte(post, 0);
        is_char_boundary_iff_not_is_continuation_byte(whole, pre.len() + k);
        assert(whole[pre.len() + k] == post[0]);
    } else {
        assert(whole.len() == pre.len() + k);
    }
}

/// `String::split_off`: keeps bytes `[0, at)` and returns bytes `[at, len)`.
/// The standard library panics when `at` is not on a character boundary, which
/// the precondition rules out.
#[verifier::external_body]
pub(crate) fn string_split_off(s: &mut String, at: usize) -> (tail: String)
    requires
        is_char_boundary(encode_utf8(old(s)@), at as int),
    ensures
        encode_utf8(final(s)@) == encode_utf8(old(s)@).subrange(0, at as int),
        encode_utf8(tail@) == encode_utf8(old(s)@).subrange(
            at as int,
            encode_utf8(old(s)@).len() as int,
        ),
{
    s.split_off(at)
}

/// `String::push_str`: appends the characters of `t`.
#[verifier::external_body]
pub(crate) fn string_push_str(s: &mut String, t: &str)
    ensures
        final(s)@ == old(s)@ + t@,
{
    s.push_str(t)
}

/// The largest character boundary of `bs` at or below `i` (zero when `i` is
/// not positive).
pub open spec fn floor_boundary(bs: Seq<u8>, i: int) -> int
    decreases i,
{
    if i <= 0 {
        0
    } else if is_char_boundary(bs, i) {
        i
    } else {
        floor_boundary(bs, i - 1)
    }
}

/// The smallest character boundary of `bs` at or above `i`, or its length
/// when there is none.
pub open spec fn ceil_boundary(bs: Seq<u8>, i: int) -> int
    decreases bs.len() - i,
{
    if i >= bs.len() {
        bs.len() as int
    } else if is_char_boundary(bs, i) {
        i
    } else {
        ceil_boundary(bs, i + 1)
    }
}

/// `floor_boundary` is the greatest boundary not above `i`.
pub proof fn lemma_floor_boundary(bs: Seq<u8>, i: int)
    requires
        valid_utf8(bs),
        0 <= i <= bs.len(),
    ensures
        0 <= floor_boundary(bs, i) <= i,
        is_char_boundary(bs, floor_boundary(bs, i)),
        forall|j: int| floor_boundary(bs, i) < j <= i ==> !#[trigger] is_char_boundary(bs, j),
    decreases i,
{
    if i > 0 && !is_char_boundary(bs, i) {
        lemma_floor_boundary(bs, i - 1);
    }
}

/// `ceil_boundary` is the least boundary not below `i`.
pub proof fn lemma_ceil_boundary(bs: Seq<u8>, i: int)
    requires
        valid_utf8(bs),
        0 <= i,
    ensures
        i <= bs.len() ==> i <= ceil_boundary(bs, i),
        ceil_boundary(bs, i) <= bs.len(),
        is_char_boundary(bs, ceil_boundary(bs, i)),
        forall|j: int| i <= j < ceil_boundary(bs, i) ==> !#[trigger] is_char_boundary(bs, j),
    decreases bs.len() - i,
{
    is_char_boundary_start_end_of_seq(bs);
    if i < bs.len() && !is_char_boundary(bs, i) {
        lemma_ceil_boundary(bs, i + 1);
    }
}

/// The character boundary just before byte `i` of `s` (zero at the start).
pub fn prev_char_boundary(s: &str, i: usize) -> (r: usize)
    requires
        i <= encode_utf8(s@).len(),
    ensures
        i == 0 ==> r == 0,
        i > 0 ==> r == floor_boundary(encode_utf8(s@), i - 1),
{
    if i == 0 {
        return 0;
    }
    let ghost bs = encode_utf8(s@);
    let ghost lim = i - 1;
    let mut k: usize = i - 1;
    while k > 0 && !s.is_char_boundary(k)
        invariant
            bs == encode_utf8(s@),
            k <= lim,
            floor_boundary(bs, k as int) == floor_boundary(bs, lim as int),
        decreases k,
    {
        k -= 1;
    }
    k
}

/// The character boundary just after byte `i` of `s` (its length at the end).
pub fn next_char_boundary(s: &str, i: usize) -> (r: usize)
    requires
        i <= encode_utf8(s@).len(),
        encode_utf8(s@).len() <= usize::MAX,
    ensures
        r == ceil_boundary(encode_utf8(s@), i + 1),
{
    let ghost bs = encode_utf8(s@);
    let len = s.len();
    if i >= len {
        return len;
    }
    let mut k: usize = i + 1;
    while k < len && !s.is_char_boundary(k)
        invariant
            bs == encode_utf8(s@),
            len == bs.len(),
            i + 1 <= k <= len,
            ceil_boundary(bs, k as int) == ceil_boundary(bs, i + 1),
        decreases len - k,
    {
        k += 1;
    }
    k
}

/// Around an ASCII byte of a valid UTF-8 sequence lie character boundaries.
pub proof fn lemma_boundary_around_ascii(bs: Seq<u8>, i: int)
    requires
        valid_utf8(bs),
        0 <= i < bs.len(),
        bs[i] < 0x80,
    ensures
        is_char_boundary(bs, i),
        is_char_boundary(bs, i + 1),
{
    is_char_boundary_iff_not_is_continuation_byte(bs, i);
    let pre = bs.subrange(0, i);
    let suf = bs.subrange(i, bs.len() as int);
    valid_utf8_split(bs, i);
    assert(suf[0] == bs[i]);
    assert(length_of_first_scalar(suf) == 1);
    assert(is_char_boundary(suf, 1)) by {
        reveal_with_fuel(is_char_boundary, 2);
    }
    let empty = Seq::<u8>::empty();
    lemma_boundary_in_whole(pre, suf, empty, 1);
    assert(pre + suf + empty =~= bs);
}

/// `char::to_string`: the one-character string holding `c`.
#[verifier::external_body]
pub(crate) fn char_string(c: char) -> (s: String)
    ensures
        s@ == seq![c],
{
    c.to_string()
}

/// A single character takes at most four bytes.
pub proof fn lemma_char_bytes(c: char)
    ensures
        encode_utf8(seq![c]).len() <= 4,
{
    let s = seq![c];
    assert(s.len() == 1);
    assert(s.drop_first() =~= Seq::<char>::empty());
    assert(encode_utf8(s.drop_first()) =~= Seq::<u8>::empty());
    assert(s[0] == c);
    assert(encode_scalar(c as u32).len() <= 4);
    assert(encode_utf8(s) == encode_scalar(s[0] as u32) + encode_utf8(s.drop_first()));
}

} // verus!
