//! Numbers of ordered-list items, counted per indent level and restarted
//! by any other block.
use vstd::prelude::*;
use crate::model::{Block, BlockView, ListKind, doc_blocks};
use crate::text::{char_string, string_push_str};

verus! {

/// Indent levels an ordered-list counter tells apart; deeper blocks count at
/// the deepest level.
pub const MAX_LEVELS: usize = 16;

/// The counting level of a block: its indent, capped at the deepest level.
pub open spec fn level(b: BlockView) -> int {
    if b.indent < MAX_LEVELS {
        b.indent as int
    } else {
        MAX_LEVELS - 1
    }
}

/// The ordinal of block `i` in its ordered list: 0 for a block that is not
/// an ordered item; otherwise one more than the previous block's when that
/// block is an ordered item at the same level, else 1 (a list restarts after
/// any other block or a change of level).
pub open spec fn ordinal(d: Seq<BlockView>, i: int) -> nat
    decreases i,
{
    if i < 0 || i >= d.len() || d[i].list != ListKind::Ordered {
        0
    } else if i > 0 && d[i - 1].list == ListKind::Ordered && level(d[i - 1]) == level(d[i]) {
        ordinal(d, i - 1) + 1
    } else {
        1
    }
}

pub proof fn lemma_ordinal_bound(d: Seq<BlockView>, i: int)
    requires
        0 <= i < d.len(),
    ensures
        ordinal(d, i) <= i + 1,
    decreases i,
{
    if i > 0 {
        lemma_ordinal_bound(d, i - 1);
    }
}

fn level_of(b: &Block) -> (l: usize)
    ensures
        l == level(b@),
{
    if (b.indent as usize) < MAX_LEVELS {
        b.indent as usize
    } else {
        MAX_LEVELS - 1
    }
}

/// The ordered-list ordinal of every block (0 for blocks that are not
/// ordered items).
pub fn ordered_numbers(blocks: &[Block]) -> (out: Vec<usize>)
    ensures
        out@.len() == blocks@.len(),
        forall|i: int| 0 <= i < out@.len() ==> #[trigger] out@[i] == ordinal(doc_blocks(blocks@), i),
{
    let ghost d = doc_blocks(blocks@);
    let mut out: Vec<usize> = Vec::new();
    let mut i: usize = 0;
    while i < blocks.len()
        invariant
            d == doc_blocks(blocks@),
            i <= blocks@.len(),
            out@.len() == i,
            forall|j: int| 0 <= j < i ==> #[trigger] out@[j] == ordinal(d, j),
        decreases blocks.len() - i,
    {
        proof {
            assert(d[i as int] == blocks@[i as int]@);
            lemma_ordinal_bound(d, i as int);
            if i > 0 {
                assert(d[i - 1] == blocks@[i - 1]@);
            }
        }
        let n = if blocks[i].list != ListKind::Ordered {
            0
        } else if i > 0 && blocks[i - 1].list == ListKind::Ordered && level_of(&blocks[i - 1])
            == level_of(&blocks[i]) {
            out[i - 1] + 1
        } else {
            1
        };
        out.push(n);
        i += 1;
    }
    out
}

/// The character of decimal digit `d`.
pub open spec fn digit_char(d: nat) -> char {
    (48 + d) as char
}

/// The decimal digits of `n`, most significant first, without leading zeros.
pub open spec fn decimal_chars(n: nat) -> Seq<char>
    decreases n,
{
    if n < 10 {
        seq![digit_char(n)]
    } else {
        decimal_chars(n / 10).push(digit_char(n % 10))
    }
}

/// The marker drawn before a block: a bullet for a bulleted item, the item's
/// number and a full stop for a numbered one, none for a plain paragraph.
pub open spec fn marker_spec(list: ListKind, ordinal: nat) -> Option<Seq<char>> {
    match list {
        ListKind::Plain => None,
        ListKind::Bullet => Some(seq!['\u{2022}']),
        ListKind::Ordered => Some(decimal_chars(ordinal).push('.')),
    }
}

/// The characters of an optional string.
pub open spec fn opt_chars(m: Option<String>) -> Option<Seq<char>> {
    match m {
        Some(s) => Some(s@),
        None => None,
    }
}

fn digit(d: usize) -> (c: char)
    requires
        d < 10,
    ensures
        c == digit_char(d as nat),
{
    match d {
        0 => '0',
        1 => '1',
        2 => '2',
        3 => '3',
        4 => '4',
        5 => '5',
        6 => '6',
        7 => '7',
        8 => '8',
        _ => '9',
    }
}

/// Append the decimal digits of `n` to `s`.
fn push_decimal(s: &mut String, n: usize)
    ensures
        final(s)@ == old(s)@ + decimal_chars(n as nat),
    decreases n,
{
    if n >= 10 {
        push_decimal(s, n / 10);
    }
    let c = char_string(digit(n % 10));
    string_push_str(s, c.as_str());
    proof {
        if n >= 10 {
            assert(old(s)@ + decimal_chars((n / 10) as nat) + seq![digit_char((n % 10) as nat)]
                =~= old(s)@ + decimal_chars(n as nat));
        } else {
            assert(old(s)@ + seq![digit_char(n as nat)] =~= old(s)@ + decimal_chars(n as nat));
        }
    }
}

/// The marker of a block with list kind `list` and ordinal `ordinal`.
pub fn list_marker(list: ListKind, ordinal: usize) -> (m: Option<String>)
    ensures
        opt_chars(m) == marker_spec(list, ordinal as nat),
{
    match list {
        ListKind::Plain => None,
        ListKind::Bullet => Some(char_string('\u{2022}')),
        ListKind::Ordered => {
            let mut s = String::new();
            push_decimal(&mut s, ordinal);
            let stop = char_string('.');
            string_push_str(&mut s, stop.as_str());
            Some(s)
        },
    }
}

/// The marker of every block, numbering ordered items as `ordered_numbers`
/// does.
pub fn list_markers(blocks: &[Block]) -> (out: Vec<Option<String>>)
    ensures
        out@.len() == blocks@.len(),
        forall|i: int|
            0 <= i < out@.len() ==> opt_chars(#[trigger] out@[i]) == marker_spec(
                blocks@[i]@.list,
                ordinal(doc_blocks(blocks@), i),
            ),
{
    let numbers = ordered_numbers(blocks);
    let mut out: Vec<Option<String>> = Vec::new();
    let mut i: usize = 0;
    while i < blocks.len()
        invariant
            numbers@.len() == blocks@.len(),
            forall|j: int| 0 <= j < numbers@.len() ==> #[trigger] numbers@[j] == ordinal(doc_blocks(blocks@), j),
            i <= blocks@.len(),
            out@.len() == i,
            forall|j: int|
                0 <= j < i ==> opt_chars(#[trigger] out@[j]) == marker_spec(
                    blocks@[j]@.list,
                    ordinal(doc_blocks(blocks@), j),
                ),
        decreases blocks.len() - i,
    {
        let m = list_marker(blocks[i].list, numbers[i]);
        out.push(m);
        i += 1;
    }
    out
}

} // verus!
