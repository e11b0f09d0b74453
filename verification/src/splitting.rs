//! Splitting text into pieces: maximal whitespace / non-whitespace runs (the
//! units that word wrapping works on) and the paragraphs between newlines.
use vstd::prelude::*;
use vstd::string::*;
use vstd::std_specs::iter::IteratorSpec;
use vstd::utf8::*;
use crate::text::{lemma_boundary_in_whole, lemma_encode_concat, lemma_encode_injective};

verus! {

broadcast use encode_utf8_valid_utf8;

/// The Unicode `White_Space` property.
pub open spec fn is_white_space(c: char) -> bool {
    let u = c as u32;
    ||| 0x09 <= u <= 0x0D
    ||| u == 0x20
    ||| u == 0x85
    ||| u == 0xA0
    ||| u == 0x1680
    ||| 0x2000 <= u <= 0x200A
    ||| u == 0x2028
    ||| u == 0x2029
    ||| u == 0x202F
    ||| u == 0x205F
    ||| u == 0x3000
}

/// Whether `c` has the Unicode `White_Space` property (what
/// `char::is_whitespace` answers).
fn char_is_whitespace(c: char) -> (r: bool)
    ensures
        r == is_white_space(c),
{
    let u = c as u32;
    (0x09 <= u && u <= 0x0D) || u == 0x20 || u == 0x85 || u == 0xA0 || u == 0x1680 || (0x2000 <= u
        && u <= 0x200A) || u == 0x2028 || u == 0x2029 || u == 0x202F || u == 0x205F || u == 0x3000
}

/// The number of bytes of the UTF-8 encoding of `c` (what `char::len_utf8`
/// answers).
fn char_len_utf8(c: char) -> (n: usize)
    ensures
        n == encode_scalar(c as u32).len(),
{
    proof {
        char_is_scalar(c);
    }
    let u = c as u32;
    if u <= 0x7F {
        1
    } else if u <= 0x7FF {
        2
    } else if u <= 0xFFFF {
        3
    } else {
        4
    }
}

/// The pieces laid end to end.
pub open spec fn joined(p: Seq<Seq<char>>) -> Seq<char>
    decreases p.len(),
{
    if p.len() == 0 {
        Seq::empty()
    } else {
        joined(p.drop_last()) + p.last()
    }
}

/// The pieces laid end to end with a newline between each two.
pub open spec fn joined_lines(p: Seq<Seq<char>>) -> Seq<char>
    decreases p.len(),
{
    if p.len() <= 1 {
        if p.len() == 0 {
            Seq::empty()
        } else {
            p[0]
        }
    } else {
        joined_lines(p.drop_last()) + seq!['\n'] + p.last()
    }
}

/// The character views of a list of string slices.
pub open spec fn slice_views(v: Seq<&str>) -> Seq<Seq<char>> {
    v.map_values(|p: &str| p@)
}

/// A non-empty piece whose characters are all whitespace or all not.
pub open spec fn uniform_ws(p: Seq<char>) -> bool {
    &&& p.len() > 0
    &&& forall|i: int| 0 <= i < p.len() ==> is_white_space(#[trigger] p[i]) == is_white_space(p[0])
}

/// `pieces` cut `s` into maximal runs of whitespace and of non-whitespace:
/// together they make `s`, each is a non-empty uniform run, and two
/// neighbours differ in kind.
pub open spec fn ws_runs(pieces: Seq<Seq<char>>, s: Seq<char>) -> bool {
    &&& joined(pieces) == s
    &&& forall|j: int| 0 <= j < pieces.len() ==> uniform_ws(#[trigger] pieces[j])
    &&& forall|j: int|
        0 <= j < pieces.len() - 1 ==> is_white_space(#[trigger] pieces[j][0]) != is_white_space(
            pieces[j + 1][0],
        )
}

/// `pieces` are the parts of `s` between its newlines: joined by newlines
/// they make `s`, there is at least one, and none holds a newline.
pub open spec fn line_pieces(pieces: Seq<Seq<char>>, s: Seq<char>) -> bool {
    &&& pieces.len() >= 1
    &&& joined_lines(pieces) == s
    &&& forall|j: int, i: int|
        0 <= j < pieces.len() && 0 <= i < pieces[j].len() ==> #[trigger] pieces[j][i] != '\n'
}

proof fn lemma_encode_one(c: char)
    ensures
        encode_utf8(seq![c]) == encode_scalar(c as u32),
{
    assert(seq![c].drop_first() =~= Seq::<char>::empty());
    assert(encode_utf8(Seq::<char>::empty()) =~= Seq::<u8>::empty());
    assert(encode_utf8(seq![c]) =~= encode_scalar(c as u32) + Seq::<u8>::empty());
}

/// Growing a window of characters by one adds the encoding of that character.
proof fn lemma_window_grow(s: Seq<char>, a: int, k: int)
    requires
        0 <= a <= k < s.len(),
    ensures
        encode_utf8(s.subrange(a, k + 1)).len() == encode_utf8(s.subrange(a, k)).len()
            + encode_scalar(s[k] as u32).len(),
{
    assert(s.subrange(a, k + 1) =~= s.subrange(a, k) + seq![s[k]]);
    lemma_encode_concat(s.subrange(a, k), seq![s[k]]);
    lemma_encode_one(s[k]);
}

/// Cutting `r` after the first `len` bytes, where those bytes encode the
/// first `n` characters: the two halves hold exactly those characters and
/// the rest.
fn cut<'a>(r: &'a str, len: usize, Ghost(n): Ghost<int>) -> (res: (&'a str, &'a str))
    requires
        0 <= n <= r@.len(),
        len == encode_utf8(r@.subrange(0, n)).len(),
    ensures
        res.0@ == r@.subrange(0, n),
        res.1@ == r@.subrange(n, r@.len() as int),
{
    proof {
        let pre = r@.subrange(0, n);
        let post = r@.subrange(n, r@.len() as int);
        assert(r@ =~= pre + post);
        lemma_encode_concat(pre, post);
        is_char_boundary_start_end_of_seq(Seq::<u8>::empty());
        assert(encode_utf8(pre) + Seq::<u8>::empty() + encode_utf8(post) =~= encode_utf8(pre)
            + encode_utf8(post));
        lemma_boundary_in_whole(encode_utf8(pre), Seq::<u8>::empty(), encode_utf8(post), 0);
    }
    let res = r.split_at(len);
    proof {
        let pre = r@.subrange(0, n);
        let post = r@.subrange(n, r@.len() as int);
        assert(encode_utf8(r@) == encode_utf8(pre) + encode_utf8(post));
        assert(encode_utf8(res.0@) =~= encode_utf8(pre));
        assert(encode_utf8(res.1@) =~= encode_utf8(post));
        lemma_encode_injective(res.0@, pre);
        lemma_encode_injective(res.1@, post);
    }
    res
}

proof fn lemma_slice_views_push(v: Seq<&str>, x: &str)
    ensures
        slice_views(v.push(x)) == slice_views(v).push(x@),
{
    assert(slice_views(v.push(x)) =~= slice_views(v).push(x@));
}

/// The maximal alternating whitespace / non-whitespace substrings of `s`, in
/// order.
pub fn split_ws(s: &str) -> (out: Vec<&str>)
    requires
        encode_utf8(s@).len() <= usize::MAX,
    ensures
        ws_runs(slice_views(out@), s@),
{
    let mut out: Vec<&str> = Vec::new();
    let mut rest: &str = s;
    let mut it = s.chars();
    let mut len: usize = 0;
    let mut prev_ws: Option<bool> = None;
    let ghost mut k: int = 0;
    let ghost mut sk: int = 0;
    proof {
        assert(s@.skip(0) =~= s@);
    }
    loop
        invariant
            0 <= sk <= k <= s@.len(),
            encode_utf8(s@).len() <= usize::MAX,
            it.remaining() == s@.skip(k),
            rest@ == s@.skip(sk),
            len == encode_utf8(s@.subrange(sk, k)).len(),
            joined(slice_views(out@)) == s@.take(sk),
            forall|j: int| 0 <= j < out@.len() ==> uniform_ws(#[trigger] slice_views(out@)[j]),
            forall|j: int|
                0 <= j < out@.len() - 1 ==> is_white_space(#[trigger] slice_views(out@)[j][0])
                    != is_white_space(slice_views(out@)[j + 1][0]),
            k == 0 ==> prev_ws is None,
            k > 0 ==> sk < k && prev_ws == Some(is_white_space(s@[sk])),
            forall|i: int| sk <= i < k ==> is_white_space(#[trigger] s@[i]) == is_white_space(s@[sk]),
            out@.len() > 0 ==> sk < k && is_white_space(slice_views(out@).last()[0])
                != is_white_space(s@[sk]),
        ensures
            k == s@.len(),
        decreases s@.len() - k,
    {
        let next = it.next();
        match next {
            None => {
                proof {
                    assert(s@.skip(k).len() == 0);
                }
                break ;
            },
            Some(c) => {
                proof {
                    assert(c == s@[k]);
                }
                let ws = char_is_whitespace(c);
                let change = match prev_ws {
                    Some(p) => p != ws,
                    None => false,
                };
                if change {
                    proof {
                        assert(rest@.subrange(0, k - sk) =~= s@.subrange(sk, k));
                    }
                    let pair = cut(rest, len, Ghost(k - sk));
                    let piece = pair.0;
                    proof {
                        let old_views = slice_views(out@);
                        lemma_slice_views_push(out@, piece);
                        let nv = slice_views(out@.push(piece));
                        assert(nv.drop_last() =~= old_views);
                        assert(s@.take(k) =~= s@.take(sk) + s@.subrange(sk, k));
                        assert(pair.1@ =~= s@.skip(k));
                        assert(uniform_ws(piece@));
                        assert forall|j: int| 0 <= j < nv.len() - 1 implies is_white_space(
                            #[trigger] nv[j][0],
                        ) != is_white_space(nv[j + 1][0]) by {
                            if j < old_views.len() - 1 {
                                assert(nv[j] == old_views[j]);
                                assert(nv[j + 1] == old_views[j + 1]);
                            } else {
                                assert(nv[j] == old_views.last());
                                assert(nv[j + 1] == piece@);
                            }
                        }
                        assert forall|j: int| 0 <= j < nv.len() implies uniform_ws(
                            #[trigger] nv[j],
                        ) by {
                            if j < old_views.len() {
                                assert(nv[j] == old_views[j]);
                            }
                        }
                    }
                    out.push(piece);
                    rest = pair.1;
                    len = 0;
                    proof {
                        sk = k;
                        assert(s@.subrange(sk, k) =~= Seq::<char>::empty());
                        assert(encode_utf8(Seq::<char>::empty()) =~= Seq::<u8>::empty());
                    }
                }
                prev_ws = Some(ws);
                proof {
                    lemma_window_grow(s@, sk, k);
                    lemma_window_grow(s@, 0, k);
                    assert(s@ =~= s@.subrange(0, k + 1) + s@.skip(k + 1));
                    lemma_encode_concat(s@.subrange(0, k + 1), s@.skip(k + 1));
                    assert(s@.subrange(sk, k + 1).len() <= s@.subrange(0, k + 1).len());
                    assert(s@.subrange(0, k + 1) =~= s@.subrange(0, sk) + s@.subrange(sk, k + 1));
                    lemma_encode_concat(s@.subrange(0, sk), s@.subrange(sk, k + 1));
                }
                len = len + char_len_utf8(c);
                proof {
                    assert(s@.skip(k).drop_first() =~= s@.skip(k + 1));
                    k = k + 1;
                }
            },
        }
    }
    if len > 0 {
        proof {
            let old_views = slice_views(out@);
            lemma_slice_views_push(out@, rest);
            let nv = slice_views(out@.push(rest));
            assert(nv.drop_last() =~= old_views);
            assert(s@.skip(sk) =~= s@.subrange(sk, k));
            assert(s@ =~= s@.take(sk) + s@.skip(sk));
            assert(uniform_ws(rest@));
            assert forall|j: int| 0 <= j < nv.len() - 1 implies is_white_space(
                #[trigger] nv[j][0],
            ) != is_white_space(nv[j + 1][0]) by {
                if j < old_views.len() - 1 {
                    assert(nv[j] == old_views[j]);
                    assert(nv[j + 1] == old_views[j + 1]);
                } else {
                    assert(nv[j] == old_views.last());
                    assert(nv[j + 1] == rest@);
                }
            }
            assert forall|j: int| 0 <= j < nv.len() implies uniform_ws(#[trigger] nv[j]) by {
                if j < old_views.len() {
                    assert(nv[j] == old_views[j]);
                }
            }
        }
        out.push(rest);
    } else {
        proof {
            if k > sk {
                lemma_window_grow(s@, sk, sk);
                assert(s@.subrange(sk, sk) =~= Seq::<char>::empty());
                assert(encode_utf8(Seq::<char>::empty()) =~= Seq::<u8>::empty());
                lemma_nonempty_encoding(s@.subrange(sk, k));
            }
            assert(s@.take(sk) =~= s@);
        }
    }
    out
}

/// A non-empty run of characters has a non-empty encoding.
proof fn lemma_nonempty_encoding(t: Seq<char>)
    requires
        t.len() > 0,
    ensures
        encode_utf8(t).len() > 0,
{
    encode_utf8_first_scalar(t);
}

/// Appending a piece to a non-empty list of lines adds a newline and the piece.
proof fn lemma_joined_lines_push(p: Seq<Seq<char>>, x: Seq<char>)
    ensures
        p.len() == 0 ==> joined_lines(p.push(x)) == x,
        p.len() > 0 ==> joined_lines(p.push(x)) == joined_lines(p) + seq!['\n'] + x,
{
    assert(p.push(x).drop_last() =~= p);
    if p.len() == 0 {
        assert(p.push(x)[0] == x);
    }
}

/// The parts of `text` between its newlines, in order; consecutive newlines
/// give empty parts, and a trailing newline gives a final empty part.
pub fn split_keep_newlines(text: &str) -> (out: Vec<&str>)
    requires
        encode_utf8(text@).len() <= usize::MAX,
    ensures
        line_pieces(slice_views(out@), text@),
{
    let s = text;
    let mut out: Vec<&str> = Vec::new();
    let mut rest: &str = s;
    let mut it = s.chars();
    let mut len: usize = 0;
    let ghost mut k: int = 0;
    let ghost mut sk: int = 0;
    proof {
        assert(s@.skip(0) =~= s@);
        assert(s@.subrange(0, 0) =~= Seq::<char>::empty());
        assert(encode_utf8(Seq::<char>::empty()) =~= Seq::<u8>::empty());
    }
    loop
        invariant
            0 <= sk <= k <= s@.len(),
            encode_utf8(s@).len() <= usize::MAX,
            it.remaining() == s@.skip(k),
            rest@ == s@.skip(sk),
            len == encode_utf8(s@.subrange(sk, k)).len(),
            out@.len() == 0 ==> sk == 0,
            out@.len() > 0 ==> joined_lines(slice_views(out@)) + seq!['\n'] == s@.take(sk),
            forall|j: int, i: int|
                0 <= j < out@.len() && 0 <= i < slice_views(out@)[j].len()
                    ==> #[trigger] slice_views(out@)[j][i] != '\n',
            forall|i: int| sk <= i < k ==> #[trigger] s@[i] != '\n',
        ensures
            k == s@.len(),
        decreases s@.len() - k,
    {
        let next = it.next();
        match next {
            None => {
                proof {
                    assert(s@.skip(k).len() == 0);
                }
                break ;
            },
            Some(c) => {
                proof {
                    assert(c == s@[k]);
                    assert(s@.skip(k).drop_first() =~= s@.skip(k + 1));
                }
                if c == '\n' {
                    proof {
                        assert(rest@.subrange(0, k - sk) =~= s@.subrange(sk, k));
                    }
                    let pair = cut(rest, len, Ghost(k - sk));
                    let piece = pair.0;
                    proof {
                        assert(pair.1@[0] == '\n');
                        assert(pair.1@.subrange(0, 1) =~= seq!['\n']);
                        lemma_encode_one('\n');
                    }
                    let after = cut(pair.1, 1, Ghost(1));
                    proof {
                        let old_views = slice_views(out@);
                        lemma_slice_views_push(out@, piece);
                        lemma_joined_lines_push(old_views, piece@);
                        let nv = slice_views(out@.push(piece));
                        if old_views.len() > 0 {
                            assert(s@.take(k + 1) =~= s@.take(sk) + s@.subrange(sk, k) + seq!['\n']);
                        } else {
                            assert(s@.take(k + 1) =~= s@.subrange(sk, k) + seq!['\n']);
                        }
                        assert(after.1@ =~= s@.skip(k + 1));
                        assert forall|j: int, i: int|
                            0 <= j < nv.len() && 0 <= i < nv[j].len() implies #[trigger] nv[j][i]
                            != '\n' by {
                            if j < old_views.len() {
                                assert(nv[j] == old_views[j]);
                            } else {
                                assert(nv[j] == piece@);
                                assert(piece@[i] == s@[sk + i]);
                            }
                        }
                    }
                    out.push(piece);
                    rest = after.1;
                    len = 0;
                    proof {
                        k = k + 1;
                        sk = k;
                        assert(s@.subrange(sk, k) =~= Seq::<char>::empty());
                        assert(encode_utf8(Seq::<char>::empty()) =~= Seq::<u8>::empty());
                    }
                } else {
                    proof {
                        lemma_window_grow(s@, sk, k);
                        assert(s@ =~= s@.subrange(0, sk) + s@.subrange(sk, k + 1) + s@.skip(k + 1));
                        lemma_encode_concat(s@.subrange(0, sk), s@.subrange(sk, k + 1));
                        lemma_encode_concat(s@.subrange(0, sk) + s@.subrange(sk, k + 1), s@.skip(k + 1));
                    }
                    len = len + char_len_utf8(c);
                    proof {
                        k = k + 1;
                    }
                }
            },
        }
    }
    proof {
        let old_views = slice_views(out@);
        lemma_slice_views_push(out@, rest);
        lemma_joined_lines_push(old_views, rest@);
        let nv = slice_views(out@.push(rest));
        assert(s@ =~= s@.take(sk) + s@.skip(sk));
        assert(s@.skip(0) =~= s@);
        assert forall|j: int, i: int|
            0 <= j < nv.len() && 0 <= i < nv[j].len() implies #[trigger] nv[j][i] != '\n' by {
            if j < old_views.len() {
                assert(nv[j] == old_views[j]);
            } else {
                assert(nv[j] == rest@);
                assert(rest@[i] == s@[sk + i]);
            }
        }
    }
    out.push(rest);
    out
}

} // verus!
