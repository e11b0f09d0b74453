//! Selection logic of a segmented control: the selected segment and
//! keyboard steps that skip disabled segments.
use vstd::prelude::*;
use crate::keys::Key;

verus! {

/// The selected segment index read from the selection cell, clamped to the
/// last of `n` segments (zero when there are none).
pub open spec fn selected_spec(n: nat, cell: usize) -> usize {
    if n == 0 {
        0
    } else if cell < n {
        cell
    } else {
        (n - 1) as usize
    }
}

/// The first enabled segment at or after `i`.
pub open spec fn next_up(en: Seq<bool>, i: int) -> Option<usize>
    decreases en.len() - i,
{
    if i < 0 || i >= en.len() {
        None
    } else if en[i] {
        Some(i as usize)
    } else {
        next_up(en, i + 1)
    }
}

/// The last enabled segment at or before `i`.
pub open spec fn next_down(en: Seq<bool>, i: int) -> Option<usize>
    decreases i + 1,
{
    if i < 0 || i >= en.len() {
        None
    } else if en[i] {
        Some(i as usize)
    } else {
        next_down(en, i - 1)
    }
}

/// The nearest enabled segment strictly after (`dir > 0`) or before `from`.
pub open spec fn step_spec(en: Seq<bool>, from: int, dir: i64) -> Option<usize> {
    if dir > 0 {
        next_up(en, from + 1)
    } else {
        next_down(en, from - 1)
    }
}

/// Outcome of a key press on a segmented control.
#[derive(Clone, Copy, Debug, PartialEq, Eq, Structural)]
pub enum SegmentKeyResult {
    /// Not handled: let the key through.
    Ignored,
    /// Handled without changing the selection.
    Consumed,
    /// Handled: choose this segment.
    Select(usize),
}

/// Which segment a key asks for: the previous or next enabled one for the
/// arrows (Left/Up back, Right/Down forward), the first or last enabled one
/// for Home/End.
pub open spec fn key_target(en: Seq<bool>, cur: int, key: Key) -> Option<Option<usize>> {
    match key {
        Key::ArrowLeft | Key::ArrowUp => Some(step_spec(en, cur, -1i64)),
        Key::ArrowRight | Key::ArrowDown => Some(step_spec(en, cur, 1i64)),
        Key::Home => Some(next_up(en, 0)),
        Key::End => Some(next_down(en, en.len() - 1)),
        _ => None,
    }
}

/// The selected segment: the cell's value clamped to the segment count.
pub fn selected_index(n: usize, cell: usize) -> (r: usize)
    ensures
        r == selected_spec(n as nat, cell),
{
    if n == 0 {
        0
    } else if cell < n {
        cell
    } else {
        n - 1
    }
}

/// The nearest enabled segment after (`dir > 0`) or before `from`; `en`
/// tells which segments are enabled.
pub fn step_selection(en: &[bool], from: usize, dir: i64) -> (r: Option<usize>)
    requires
        from < en@.len(),
    ensures
        r == step_spec(en@, from as int, dir),
{
    let n = en.len();
    if dir > 0 {
        let mut i = from + 1;
        while i < n
            invariant
                n == en@.len(),
                dir > 0,
                from < n,
                from + 1 <= i <= n,
                next_up(en@, i as int) == next_up(en@, from + 1),
            decreases n - i,
        {
            if en[i] {
                assert(next_up(en@, i as int) == Some(i));
                return Some(i);
            }
            i += 1;
        }
        None
    } else {
        let mut i = from;
        while i > 0
            invariant
                n == en@.len(),
                dir <= 0,
                from < n,
                i <= from,
                next_down(en@, i - 1) == next_down(en@, from - 1),
            decreases i,
        {
            if en[i - 1] {
                assert(next_down(en@, i - 1) == Some((i - 1) as usize));
                return Some(i - 1);
            }
            i -= 1;
        }
        None
    }
}

fn first_enabled(en: &[bool]) -> (r: Option<usize>)
    ensures
        r == next_up(en@, 0),
{
    let n = en.len();
    let mut i: usize = 0;
    while i < n
        invariant
            n == en@.len(),
            i <= n,
            next_up(en@, i as int) == next_up(en@, 0),
        decreases n - i,
    {
        if en[i] {
            return Some(i);
        }
        i += 1;
    }
    None
}

fn last_enabled(en: &[bool]) -> (r: Option<usize>)
    ensures
        r == next_down(en@, en@.len() - 1),
{
    let n = en.len();
    let mut i: usize = n;
    while i > 0
        invariant
            n == en@.len(),
            i <= n,
            next_down(en@, i - 1) == next_down(en@, n - 1),
        decreases i,
    {
        if en[i - 1] {
            return Some(i - 1);
        }
        i -= 1;
    }
    None
}

/// Handle a key on a segmented control whose selection cell holds `cell`
/// and whose segments' enabled states are `en`. A key that finds a
/// different enabled segment selects it; one that finds the current segment
/// is consumed; one that finds none, or that the control has no use for, is
/// ignored, as is any key on a control without segments.
pub fn segment_key(en: &[bool], cell: usize, key: Key) -> (r: SegmentKeyResult)
    ensures
        ({
            let n = en@.len();
            let cur = selected_spec(n, cell);
            if n == 0 {
                r == SegmentKeyResult::Ignored
            } else {
                match key_target(en@, cur as int, key) {
                    None => r == SegmentKeyResult::Ignored,
                    Some(None) => r == SegmentKeyResult::Ignored,
                    Some(Some(i)) => if i != cur {
                        r == SegmentKeyResult::Select(i)
                    } else {
                        r == SegmentKeyResult::Consumed
                    },
                }
            }
        }),
{
    let n = en.len();
    if n == 0 {
        return SegmentKeyResult::Ignored;
    }
    let cur = selected_index(n, cell);
    let next = match key {
        Key::ArrowLeft | Key::ArrowUp => step_selection(en, cur, -1),
        Key::ArrowRight | Key::ArrowDown => step_selection(en, cur, 1),
        Key::Home => first_enabled(en),
        Key::End => last_enabled(en),
        _ => {
            return SegmentKeyResult::Ignored;
        },
    };
    match next {
        Some(i) => if i != cur {
            SegmentKeyResult::Select(i)
        } else {
            SegmentKeyResult::Consumed
        },
        None => SegmentKeyResult::Ignored,
    }
}

/// A user's choice of segment `idx`: the new cell value (none when `idx` is
/// out of range or disabled) and whether the change callback fires (only
/// when the selected segment actually changes).
pub fn choose_segment(en: &[bool], cell: usize, idx: usize) -> (r: (Option<usize>, bool))
    ensures
        idx >= en@.len() || !en@[idx as int] ==> r == (None::<usize>, false),
        idx < en@.len() && en@[idx as int] ==> r == (Some(idx), selected_spec(en@.len(), cell)
            != idx),
{
    if idx >= en.len() || !en[idx] {
        return (None, false);
    }
    let was = selected_index(en.len(), cell);
    (Some(idx), was != idx)
}

/// The cell value after clamping an out-of-range selection back to the last
/// of `n` segments.
pub fn clamp_selection(n: usize, cell: usize) -> (r: usize)
    ensures
        n > 0 && cell >= n ==> r == n - 1,
        !(n > 0 && cell >= n) ==> r == cell,
{
    if n > 0 && cell >= n {
        n - 1
    } else {
        cell
    }
}

} // verus!
