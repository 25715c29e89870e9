//! Undo / redo history of document snapshots.
//!
//! Every edit first records a snapshot of the document; undo swaps the current
//! document with the latest snapshot and keeps the current one for redo.

use vstd::prelude::*;

verus! {

/// How many snapshots the undo stack keeps at most.
pub const UNDO_LIMIT: usize = 100;

/// The abstract state of a history: both stacks (last element on top) and the
/// snapshot taken when a canvas drag began.
pub struct HistoryState<D> {
    pub undo: Seq<D>,
    pub redo: Seq<D>,
    pub pending: Option<D>,
}

/// `stack` with `snapshot` pushed, the oldest entry dropped once more than
/// `UNDO_LIMIT` entries are held.
pub open spec fn push_bounded<D>(stack: Seq<D>, snapshot: D) -> Seq<D> {
    if stack.len() + 1 > UNDO_LIMIT {
        stack.push(snapshot).drop_first()
    } else {
        stack.push(snapshot)
    }
}

/// The state after recording `snapshot` as an undo step: the redo stack is cleared.
pub open spec fn spec_push_undo<D>(h: HistoryState<D>, snapshot: D) -> HistoryState<D> {
    HistoryState { undo: push_bounded(h.undo, snapshot), redo: Seq::empty(), pending: h.pending }
}

/// The state and document after undo, given the current document.
pub open spec fn spec_undo<D>(h: HistoryState<D>, current: D) -> (HistoryState<D>, D) {
    if h.undo.len() == 0 {
        (h, current)
    } else {
        (
            HistoryState { undo: h.undo.drop_last(), redo: h.redo.push(current), pending: h.pending },
            h.undo.last(),
        )
    }
}

/// The state and document after redo, given the current document.
pub open spec fn spec_redo<D>(h: HistoryState<D>, current: D) -> (HistoryState<D>, D) {
    if h.redo.len() == 0 {
        (h, current)
    } else {
        (
            HistoryState { undo: h.undo.push(current), redo: h.redo.drop_last(), pending: h.pending },
            h.redo.last(),
        )
    }
}

/// The state after the pending drag snapshot (if any) is recorded as an undo step.
pub open spec fn spec_commit<D>(h: HistoryState<D>) -> HistoryState<D> {
    match h.pending {
        Some(s) => HistoryState { undo: push_bounded(h.undo, s), redo: Seq::empty(), pending: None },
        None => h,
    }
}

/// The state after a canvas drag begins on document `snapshot`: it becomes the
/// pending snapshot unless one is already pending.
pub open spec fn spec_begin<D>(h: HistoryState<D>, snapshot: D) -> HistoryState<D> {
    match h.pending {
        Some(_) => h,
        None => HistoryState { pending: Some(snapshot), ..h },
    }
}

/// Together the two stacks never hold more than `UNDO_LIMIT` snapshots.
pub open spec fn bounded<D>(h: HistoryState<D>) -> bool {
    h.undo.len() + h.redo.len() <= UNDO_LIMIT
}

/// Undo right after recording a snapshot brings that snapshot back and keeps
/// the document it replaced as the only redo step.
pub proof fn lemma_undo_after_push<D>(h: HistoryState<D>, snapshot: D, current: D)
    ensures
        spec_undo(spec_push_undo(h, snapshot), current).1 == snapshot,
        spec_undo(spec_push_undo(h, snapshot), current).0.redo == seq![current],
        h.undo.len() < UNDO_LIMIT ==> spec_undo(spec_push_undo(h, snapshot), current).0.undo == h.undo,
{
    let h1 = spec_push_undo(h, snapshot);
    if h.undo.len() + 1 > UNDO_LIMIT {
        assert(h1.undo.last() == snapshot);
    }
    assert(Seq::<D>::empty().push(current) =~= seq![current]);
    if h.undo.len() < UNDO_LIMIT {
        assert(h.undo.push(snapshot).drop_last() =~= h.undo);
    }
}

/// Redo right after an undo step restores both the document and the history.
pub proof fn lemma_redo_after_undo<D>(h: HistoryState<D>, current: D)
    requires
        h.undo.len() > 0,
    ensures
        spec_redo(spec_undo(h, current).0, spec_undo(h, current).1) == (h, current),
{
    let (h1, d1) = spec_undo(h, current);
    assert(h1.undo.push(d1) =~= h.undo);
    assert(h1.redo.drop_last() =~= h.redo);
}

/// Undo right after a redo step restores both the document and the history.
pub proof fn lemma_undo_after_redo<D>(h: HistoryState<D>, current: D)
    requires
        h.redo.len() > 0,
    ensures
        spec_undo(spec_redo(h, current).0, spec_redo(h, current).1) == (h, current),
{
    let (h1, d1) = spec_redo(h, current);
    assert(h1.redo.push(d1) =~= h.redo);
    assert(h1.undo.drop_last() =~= h.undo);
}

/// A canvas drag that begins on document `d` and is committed records `d` as
/// one undo step (clearing redo), leaving nothing pending, so that undo then
/// brings `d` back whatever the drag changed; a drag that is cancelled leaves
/// the history as it was.
pub proof fn lemma_drag_commit_or_cancel<D>(h: HistoryState<D>, d: D, after_drag: D)
    requires
        (h.pending is None),
    ensures
        spec_commit(spec_begin(h, d)) == spec_push_undo(h, d),
        spec_undo(spec_commit(spec_begin(h, d)), after_drag).1 == d,
        (HistoryState { pending: None, ..spec_begin(h, d) }) == h,
{
    lemma_undo_after_push(h, d, after_drag);
}

/// Every history operation keeps the two stacks within `UNDO_LIMIT` snapshots in all.
pub proof fn lemma_history_stays_bounded<D>(h: HistoryState<D>, snapshot: D, current: D)
    requires
        bounded(h),
    ensures
        bounded(spec_push_undo(h, snapshot)),
        bounded(spec_undo(h, current).0),
        bounded(spec_redo(h, current).0),
        bounded(spec_commit(h)),
        bounded(spec_begin(h, snapshot)),
        bounded(HistoryState { pending: None, ..h }),
{
}

/// Undo and redo stacks of document snapshots, and the snapshot taken when a
/// canvas drag began.
pub struct UndoHistory<D> {
    undo_stack: Vec<D>,
    redo_stack: Vec<D>,
    pending_drag_snapshot: Option<D>,
}

impl<D> UndoHistory<D> {
    /// The abstract state of this history.
    pub closed spec fn state(&self) -> HistoryState<D> {
        HistoryState {
            undo: self.undo_stack@,
            redo: self.redo_stack@,
            pending: self.pending_drag_snapshot,
        }
    }

    /// An empty history.
    pub fn new() -> (h: Self)
        ensures
            h.state().undo.len() == 0,
            h.state().redo.len() == 0,
            h.state().pending is None,
    {
        UndoHistory { undo_stack: Vec::new(), redo_stack: Vec::new(), pending_drag_snapshot: None }
    }

    /// Number of snapshots that undo can step back through.
    pub fn undo_len(&self) -> (n: usize)
        ensures
            n == self.state().undo.len(),
    {
        self.undo_stack.len()
    }

    /// Number of snapshots that redo can step forward through.
    pub fn redo_len(&self) -> (n: usize)
        ensures
            n == self.state().redo.len(),
    {
        self.redo_stack.len()
    }

    /// Whether a canvas drag snapshot is waiting to be committed.
    pub fn has_pending_edit(&self) -> (b: bool)
        ensures
            b == self.state().pending is Some,
    {
        self.pending_drag_snapshot.is_some()
    }

    /// Records `snapshot` as the newest undo step and clears the redo stack.
    pub fn push_undo_document(&mut self, snapshot: D)
        ensures
            final(self).state() == spec_push_undo(old(self).state(), snapshot),
    {
        self.undo_stack.push(snapshot);
        if self.undo_stack.len() > UNDO_LIMIT {
            self.undo_stack.remove(0);
        }
        self.redo_stack.clear();
        proof {
            assert(self.state().undo =~= push_bounded(old(self).state().undo, snapshot));
            assert(self.state().redo =~= Seq::<D>::empty());
        }
    }

    /// Steps back: `current` becomes the newest undo snapshot and its former
    /// value goes onto the redo stack. Returns whether there was a step.
    pub fn undo(&mut self, current: &mut D) -> (stepped: bool)
        ensures
            (final(self).state(), *final(current)) == spec_undo(old(self).state(), *old(current)),
            stepped == (old(self).state().undo.len() > 0),
    {
        match self.undo_stack.pop() {
            Some(previous) => {
                let mut now = previous;
                std::mem::swap(current, &mut now);
                self.redo_stack.push(now);
                true
            },
            None => false,
        }
    }

    /// Steps forward: `current` becomes the newest redo snapshot and its
    /// former value goes onto the undo stack. Returns whether there was a step.
    pub fn redo(&mut self, current: &mut D) -> (stepped: bool)
        ensures
            (final(self).state(), *final(current)) == spec_redo(old(self).state(), *old(current)),
            stepped == (old(self).state().redo.len() > 0),
    {
        match self.redo_stack.pop() {
            Some(next) => {
                let mut now = next;
                std::mem::swap(current, &mut now);
                self.undo_stack.push(now);
                true
            },
            None => false,
        }
    }

    /// Drops the newest undo snapshot, used when an edit that recorded one
    /// turned out to change nothing.
    pub fn discard_last_undo(&mut self) -> (removed: Option<D>)
        ensures
            old(self).state().undo.len() == 0 ==> removed is None && final(self).state() == old(self).state(),
            old(self).state().undo.len() > 0 ==> removed == Some(old(self).state().undo.last())
                && final(self).state() == (HistoryState {
                    undo: old(self).state().undo.drop_last(),
                    ..old(self).state()
                }),
    {
        self.undo_stack.pop()
    }

    /// Keeps `snapshot` (the document as a canvas drag begins) as the pending
    /// drag snapshot, unless one is already pending.
    pub fn begin_canvas_edit(&mut self, snapshot: D)
        ensures
            final(self).state() == spec_begin(old(self).state(), snapshot),
    {
        if self.pending_drag_snapshot.is_none() {
            self.pending_drag_snapshot = Some(snapshot);
        }
    }

    /// Records the pending drag snapshot as an undo step. Returns whether one was pending.
    pub fn commit_canvas_edit(&mut self) -> (committed: bool)
        ensures
            final(self).state() == spec_commit(old(self).state()),
            committed == old(self).state().pending is Some,
    {
        match self.pending_drag_snapshot.take() {
            Some(snapshot) => {
                self.push_undo_document(snapshot);
                true
            },
            None => false,
        }
    }

    /// Forgets the pending drag snapshot.
    pub fn cancel_canvas_edit(&mut self)
        ensures
            final(self).state() == (HistoryState { pending: None, ..old(self).state() }),
    {
        self.pending_drag_snapshot = None;
    }
}

} // verus!
