//! Undo history with time-coalesced snapshots: a state becomes an undo point
//! once it has held still for a moment, so a burst of edits is one step.
use vstd::prelude::*;
use crate::model::{BlockView, RichDoc};
use crate::position::DocPos;

verus! {

/// Undo points kept; the oldest are dropped beyond this.
pub const MAX_UNDOS: usize = 100;

/// Milliseconds a changed state must hold still to become an undo point.
pub const STABLE_MS: u64 = 1000;

/// Milliseconds after which a state that keeps changing is saved anyway.
pub const AUTO_SAVE_MS: u64 = 30000;

/// One state to return to: the whole document plus the caret and anchor, so
/// returning restores the selection exactly as it was.
pub struct EditSnapshot {
    pub doc: RichDoc,
    pub caret: DocPos,
    pub anchor: DocPos,
}

impl View for EditSnapshot {
    type V = (Seq<BlockView>, DocPos, DocPos);

    open spec fn view(&self) -> (Seq<BlockView>, DocPos, DocPos) {
        (self.doc@, self.caret, self.anchor)
    }
}

impl EditSnapshot {
    /// A copy of this snapshot.
    pub fn duplicate(&self) -> (s: Self)
        ensures
            s@ == self@,
    {
        EditSnapshot { doc: self.doc.duplicate(), caret: self.caret, anchor: self.anchor }
    }

    /// Whether two snapshots hold the same document, caret and anchor.
    pub fn same(&self, other: &Self) -> (r: bool)
        ensures
            r == (self@ == other@),
    {
        self.doc.same(&other.doc) && self.caret == other.caret && self.anchor == other.anchor
    }
}

/// A change in progress: when it started, when the state last changed, and
/// that latest state.
pub struct Flux {
    pub start: u64,
    pub latest_change: u64,
    pub latest: EditSnapshot,
}

/// The mathematical value of a [`Flux`].
pub struct FluxView {
    pub start: u64,
    pub latest_change: u64,
    pub latest: (Seq<BlockView>, DocPos, DocPos),
}

/// The mathematical value of an [`Undoer`].
pub struct UndoView {
    pub undos: Seq<(Seq<BlockView>, DocPos, DocPos)>,
    pub redos: Seq<(Seq<BlockView>, DocPos, DocPos)>,
    pub flux: Option<FluxView>,
}

/// The undo points (oldest first), the redo stack (next redo last), and the
/// change in progress, if any.
pub struct Undoer {
    undos: Vec<EditSnapshot>,
    redos: Vec<EditSnapshot>,
    flux: Option<Flux>,
}

pub open spec fn snaps(v: Seq<EditSnapshot>) -> Seq<(Seq<BlockView>, DocPos, DocPos)> {
    v.map_values(|s: EditSnapshot| s@)
}

pub open spec fn flux_view(f: Option<Flux>) -> Option<FluxView> {
    match f {
        Some(x) => Some(FluxView { start: x.start, latest_change: x.latest_change, latest: x.latest@ }),
        None => None,
    }
}

impl View for Undoer {
    type V = UndoView;

    closed spec fn view(&self) -> UndoView {
        UndoView { undos: snaps(self.undos@), redos: snaps(self.redos@), flux: flux_view(self.flux) }
    }
}

/// No history at all.
pub open spec fn empty_history() -> UndoView {
    UndoView { undos: Seq::empty(), redos: Seq::empty(), flux: None }
}

/// At least `span` milliseconds lie between `then` and `now`.
pub open spec fn elapsed_at_least(now: u64, then: u64, span: u64) -> bool {
    now >= then && now - then >= span
}

/// `s` made an undo point: nothing when it already is the latest one;
/// otherwise appended (the oldest dropped beyond the limit) and the change in
/// progress ended.
pub open spec fn with_undo(h: UndoView, s: (Seq<BlockView>, DocPos, DocPos)) -> UndoView {
    if h.undos.len() > 0 && h.undos.last() == s {
        h
    } else {
        let u = h.undos.push(s);
        UndoView {
            undos: if u.len() > MAX_UNDOS {
                u.skip(u.len() - MAX_UNDOS)
            } else {
                u
            },
            flux: None,
            ..h
        }
    }
}

/// The history after seeing state `s` at time `t`. The first state seen is
/// the baseline undo point. A state equal to the latest undo point ends any
/// change in progress. Otherwise the redo stack is dropped and the change in
/// progress starts, or is followed: a state that held still for
/// `STABLE_MS`, or a change running for `AUTO_SAVE_MS`, becomes an undo point.
pub open spec fn fed(h: UndoView, t: u64, s: (Seq<BlockView>, DocPos, DocPos)) -> UndoView {
    if h.undos.len() == 0 {
        with_undo(h, s)
    } else if h.undos.last() == s {
        UndoView { flux: None, ..h }
    } else {
        let h1 = UndoView { redos: Seq::empty(), ..h };
        match h.flux {
            None => UndoView {
                flux: Some(FluxView { start: t, latest_change: t, latest: s }),
                ..h1
            },
            Some(f) => if f.latest == s {
                if elapsed_at_least(t, f.latest_change, STABLE_MS) {
                    with_undo(h1, s)
                } else {
                    h1
                }
            } else if elapsed_at_least(t, f.start, AUTO_SAVE_MS) {
                with_undo(h1, s)
            } else {
                UndoView {
                    flux: Some(FluxView { start: f.start, latest_change: t, latest: s }),
                    ..h1
                }
            },
        }
    }
}

/// Whether undoing from state `s` goes anywhere: there are two undo points,
/// or one that is not `s`.
pub open spec fn has_undo_spec(h: UndoView, s: (Seq<BlockView>, DocPos, DocPos)) -> bool {
    h.undos.len() >= 2 || (h.undos.len() == 1 && h.undos.last() != s)
}

/// Whether redoing from state `s` goes anywhere: there is a redo and `s` is
/// the latest undo point.
pub open spec fn has_redo_spec(h: UndoView, s: (Seq<BlockView>, DocPos, DocPos)) -> bool {
    h.redos.len() > 0 && h.undos.len() > 0 && h.undos.last() == s
}

/// Undoing from state `s`: the new history and the state to return to. When
/// `s` is the latest undo point it moves to the redo stack and the one before
/// is returned; otherwise `s` goes on the redo stack and the latest undo
/// point is returned. Nothing happens without an undo.
pub open spec fn undone(h: UndoView, s: (Seq<BlockView>, DocPos, DocPos)) -> (UndoView, Option<(Seq<BlockView>, DocPos, DocPos)>) {
    if !has_undo_spec(h, s) {
        (h, None)
    } else if h.undos.last() == s {
        let u = h.undos.drop_last();
        (UndoView { undos: u, redos: h.redos.push(s), flux: None }, Some(u.last()))
    } else {
        (UndoView { redos: h.redos.push(s), flux: None, ..h }, Some(h.undos.last()))
    }
}

/// Redoing from state `s`: when `s` is not the latest undo point the state
/// moved on and the redo stack is dropped; otherwise the last redo becomes
/// the latest undo point and is returned.
pub open spec fn redone(h: UndoView, s: (Seq<BlockView>, DocPos, DocPos)) -> (UndoView, Option<(Seq<BlockView>, DocPos, DocPos)>) {
    if h.undos.len() > 0 && h.undos.last() != s {
        (UndoView { redos: Seq::empty(), ..h }, None)
    } else if h.redos.len() > 0 {
        let st = h.redos.last();
        (UndoView { undos: h.undos.push(st), redos: h.redos.drop_last(), ..h }, Some(st))
    } else {
        (h, None)
    }
}

/// Every state the history holds satisfies `p`.
pub open spec fn all_states(h: UndoView, p: spec_fn((Seq<BlockView>, DocPos, DocPos)) -> bool) -> bool {
    &&& forall|i: int| 0 <= i < h.undos.len() ==> p(#[trigger] h.undos[i])
    &&& forall|i: int| 0 <= i < h.redos.len() ==> p(#[trigger] h.redos[i])
    &&& match h.flux {
        Some(f) => p(f.latest),
        None => true,
    }
}

pub open spec fn snap_opt(o: Option<EditSnapshot>) -> Option<(Seq<BlockView>, DocPos, DocPos)> {
    match o {
        Some(s) => Some(s@),
        None => None,
    }
}

/// What a property of states that holds of the history and of the state
/// fed in holds of afterwards.
pub proof fn lemma_fed_keeps(
    h: UndoView,
    t: u64,
    s: (Seq<BlockView>, DocPos, DocPos),
    p: spec_fn((Seq<BlockView>, DocPos, DocPos)) -> bool,
)
    requires
        all_states(h, p),
        p(s),
    ensures
        all_states(fed(h, t, s), p),
{
    lemma_with_undo_keeps(h, s, p);
    lemma_with_undo_keeps(UndoView { redos: Seq::empty(), ..h }, s, p);
}

proof fn lemma_with_undo_keeps(
    h: UndoView,
    s: (Seq<BlockView>, DocPos, DocPos),
    p: spec_fn((Seq<BlockView>, DocPos, DocPos)) -> bool,
)
    requires
        all_states(h, p),
        p(s),
    ensures
        all_states(with_undo(h, s), p),
{
    let u = h.undos.push(s);
    assert forall|i: int| 0 <= i < u.len() implies p(#[trigger] u[i]) by {
        if i < h.undos.len() {
            assert(u[i] == h.undos[i]);
        }
    }
    if u.len() > MAX_UNDOS {
        let k = u.len() - MAX_UNDOS;
        assert forall|i: int| 0 <= i < u.skip(k).len() implies p(#[trigger] u.skip(k)[i]) by {
            assert(u.skip(k)[i] == u[i + k]);
        }
    }
}

/// Undoing and redoing keep a property of states that holds of the history
/// and of the current state, and the state they return has it.
pub proof fn lemma_undo_redo_keep(
    h: UndoView,
    s: (Seq<BlockView>, DocPos, DocPos),
    p: spec_fn((Seq<BlockView>, DocPos, DocPos)) -> bool,
)
    requires
        all_states(h, p),
        p(s),
    ensures
        all_states(undone(h, s).0, p),
        undone(h, s).1 matches Some(x) ==> p(x),
        all_states(redone(h, s).0, p),
        redone(h, s).1 matches Some(x) ==> p(x),
{
    let r = h.redos.push(s);
    assert forall|i: int| 0 <= i < r.len() implies p(#[trigger] r[i]) by {
        if i < h.redos.len() {
            assert(r[i] == h.redos[i]);
        }
    }
    if h.undos.len() > 0 {
        let u = h.undos.drop_last();
        assert forall|i: int| 0 <= i < u.len() implies p(#[trigger] u[i]) by {
            assert(u[i] == h.undos[i]);
        }
        assert(p(h.undos[h.undos.len() - 1]));
    }
    if h.redos.len() > 0 {
        let st = h.redos.last();
        assert(p(h.redos[h.redos.len() - 1]));
        let u = h.undos.push(st);
        assert forall|i: int| 0 <= i < u.len() implies p(#[trigger] u[i]) by {
            if i < h.undos.len() {
                assert(u[i] == h.undos[i]);
            }
        }
        let d = h.redos.drop_last();
        assert forall|i: int| 0 <= i < d.len() implies p(#[trigger] d[i]) by {
            assert(d[i] == h.redos[i]);
        }
    }
}

impl Undoer {
    /// An empty history.
    pub fn new() -> (u: Self)
        ensures
            u@ == empty_history(),
    {
        let u = Undoer { undos: Vec::new(), redos: Vec::new(), flux: None };
        proof {
            assert(snaps(u.undos@) =~= Seq::empty());
            assert(snaps(u.redos@) =~= Seq::empty());
        }
        u
    }

    /// Whether a change is in progress (not yet an undo point).
    pub fn is_in_flux(&self) -> (b: bool)
        ensures
            b == (self@.flux is Some),
    {
        self.flux.is_some()
    }

    fn latest_is(&self, s: &EditSnapshot) -> (b: bool)
        ensures
            b == (self@.undos.len() > 0 && self@.undos.last() == s@),
    {
        let n = self.undos.len();
        if n == 0 {
            false
        } else {
            proof {
                assert(snaps(self.undos@)[n - 1] == self.undos@[n - 1]@);
            }
            self.undos[n - 1].same(s)
        }
    }

    fn add_undo(&mut self, s: &EditSnapshot)
        ensures
            final(self)@ == with_undo(old(self)@, s@),
    {
        if self.latest_is(s) {
            return;
        }
        let ghost u = old(self)@.undos.push(s@);
        assert(snaps(self.redos@) == old(self)@.redos);
        self.undos.push(s.duplicate());
        proof {
            assert(snaps(self.undos@) =~= u);
        }
        let ghost r0 = self.redos@;
        while self.undos.len() > MAX_UNDOS
            invariant
                self.redos@ == r0,
                snaps(self.undos@) == u.skip(u.len() - self.undos@.len()),
                self.undos@.len() <= u.len(),
                u.len() > MAX_UNDOS ==> self.undos@.len() >= MAX_UNDOS,
                u.len() <= MAX_UNDOS ==> self.undos@.len() == u.len(),
            decreases self.undos@.len(),
        {
            let ghost before = self.undos@;
            self.undos.remove(0);
            proof {
                assert(snaps(self.undos@) =~= snaps(before).skip(1));
                assert(u.skip(u.len() - before.len()).skip(1) =~= u.skip(u.len() - self.undos@.len()));
            }
        }
        self.flux = None;
        proof {
            let w = with_undo(old(self)@, s@);
            if u.len() <= MAX_UNDOS {
                assert(u.skip(0) =~= u);
            }
            assert(self@.undos =~= w.undos);
            assert(self@.redos =~= w.redos);
        }
    }

    /// See state `s` at time `t` (milliseconds), coalescing changes that
    /// follow one another quickly into one undo point.
    pub fn feed_state(&mut self, t: u64, s: &EditSnapshot)
        ensures
            final(self)@ == fed(old(self)@, t, s@),
    {
        if self.undos.len() == 0 {
            self.add_undo(s);
            return;
        }
        if self.latest_is(s) {
            self.flux = None;
            return;
        }
        self.redos = Vec::new();
        proof {
            assert(snaps(self.redos@) =~= Seq::empty());
        }
        let f = self.flux.take();
        match f {
            None => {
                self.flux = Some(Flux { start: t, latest_change: t, latest: s.duplicate() });
            },
            Some(fl) => {
                if fl.latest.same(s) {
                    if t >= fl.latest_change && t - fl.latest_change >= STABLE_MS {
                        self.add_undo(s);
                    } else {
                        self.flux = Some(fl);
                    }
                } else if t >= fl.start && t - fl.start >= AUTO_SAVE_MS {
                    self.add_undo(s);
                } else {
                    self.flux = Some(Flux { start: fl.start, latest_change: t, latest: s.duplicate() });
                }
            },
        }
    }

    /// Whether undoing from state `s` goes anywhere.
    pub fn has_undo(&self, s: &EditSnapshot) -> (b: bool)
        ensures
            b == has_undo_spec(self@, s@),
    {
        let n = self.undos.len();
        if n == 0 {
            false
        } else if n == 1 {
            !self.latest_is(s)
        } else {
            true
        }
    }

    /// Whether redoing from state `s` goes anywhere.
    pub fn has_redo(&self, s: &EditSnapshot) -> (b: bool)
        ensures
            b == has_redo_spec(self@, s@),
    {
        self.redos.len() > 0 && self.latest_is(s)
    }

    /// Undo from state `s`; the state to return to, if any.
    pub fn undo(&mut self, s: &EditSnapshot) -> (r: Option<EditSnapshot>)
        ensures
            final(self)@ == undone(old(self)@, s@).0,
            snap_opt(r) == undone(old(self)@, s@).1,
    {
        if !self.has_undo(s) {
            return None;
        }
        self.flux = None;
        let ghost h = old(self)@;
        if self.latest_is(s) {
            let top = self.undos.pop().unwrap();
            self.redos.push(top);
            proof {
                assert(snaps(self.undos@) =~= h.undos.drop_last());
                assert(snaps(self.redos@) =~= h.redos.push(s@));
            }
        } else {
            self.redos.push(s.duplicate());
            proof {
                assert(snaps(self.redos@) =~= h.redos.push(s@));
            }
        }
        let n = self.undos.len();
        proof {
            assert(snaps(self.undos@)[n - 1] == self.undos@[n - 1]@);
        }
        Some(self.undos[n - 1].duplicate())
    }

    /// Redo from state `s`; the state to return to, if any.
    pub fn redo(&mut self, s: &EditSnapshot) -> (r: Option<EditSnapshot>)
        ensures
            final(self)@ == redone(old(self)@, s@).0,
            snap_opt(r) == redone(old(self)@, s@).1,
    {
        let ghost h = old(self)@;
        if self.undos.len() > 0 && !self.latest_is(s) {
            self.redos = Vec::new();
            proof {
                assert(snaps(self.redos@) =~= Seq::empty());
            }
            return None;
        }
        match self.redos.pop() {
            Some(st) => {
                let out = st.duplicate();
                self.undos.push(st);
                proof {
                    assert(snaps(self.redos@) =~= h.redos.drop_last());
                    assert(snaps(self.undos@) =~= h.undos.push(out@));
                }
                Some(out)
            },
            None => None,
        }
    }
}

} // verus!
