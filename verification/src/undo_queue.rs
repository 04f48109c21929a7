//! A linear undo history.
//!
//! Each entry is a modifier that knows how to apply (`redo`) and revert
//! (`undo`) itself on a piece of state.  The queue keeps a cursor: entries
//! before it have been applied, entries from it on have been undone and can
//! be re-applied.  Recording a new modifier discards the undone branch.
use vstd::prelude::*;

verus! {

/// A reversible modification of a state of type `S`.
pub trait StateModify<S>: Sized {
    /// Whether `redo`, applied to `state`, may report `changed`, leave the
    /// modification as `after` and the state as `result`.
    spec fn redo_spec(&self, state: S, changed: bool, after: Self, result: S) -> bool;

    /// Whether `undo`, applied to `state`, may leave the modification as
    /// `after` and the state as `result`.
    spec fn undo_spec(&self, state: S, after: Self, result: S) -> bool;

    /// Whether `self` merges into `previous` when offered to.
    spec fn combines(&self, previous: Self) -> bool;

    /// Whether merging `self` into `previous` may leave `previous` as `result`.
    spec fn merges(&self, previous: Self, result: Self) -> bool;

    /// Applies the modification; returns whether anything was changed.  A
    /// modification that changed nothing is not recorded in the history.
    fn redo(&mut self, state: &mut S) -> (changed: bool)
        ensures
            old(self).redo_spec(*old(state), changed, *final(self), *final(state)),
    ;

    /// Reverts the modification.
    fn undo(&mut self, state: &mut S)
        ensures
            old(self).undo_spec(*old(state), *final(self), *final(state)),
    ;

    /// Offers to merge `self` into the previously recorded modification;
    /// returns whether it did so, in which case `self` is not recorded.  A
    /// declined offer leaves both modifications as they were.
    fn combine(&mut self, previous: &mut Self) -> (merged: bool)
        ensures
            merged == old(self).combines(*old(previous)),
            merged ==> old(self).merges(*old(previous), *final(previous)),
            !merged ==> *final(self) == *old(self) && *final(previous) == *old(previous),
    ;
}

/// Whether, from `state`, every change that `m`'s `redo` makes is reverted,
/// as far as the view of the state shows, by the `undo` of the modifier that
/// `redo` leaves.
pub open spec fn reverts_at<S: View, M: StateModify<S>>(m: M, state: S) -> bool {
    forall|after: M, result: S, after2: M, result2: S|
        #![trigger m.redo_spec(state, true, after, result), after.undo_spec(result, after2, result2)]
        m.redo_spec(state, true, after, result) && after.undo_spec(result, after2, result2)
            ==> result2@ == state@
}

/// The cursor after an undo on a history whose cursor is at `index`.
pub open spec fn cursor_after_undo(index: nat) -> nat {
    if index == 0 { 0 } else { (index - 1) as nat }
}

/// The cursor after a redo on a history of `len` entries whose cursor is at `index`.
pub open spec fn cursor_after_redo(index: nat, len: nat) -> nat {
    if index == len { index } else { index + 1 }
}

/// Whether recording a modifier that reported `changed` and then stood as
/// `applied` takes a history from `entries` with its cursor at `cursor` to
/// `entries2` with its cursor at `cursor2`.  Nothing is recorded when nothing
/// changed.  Otherwise the undone entries are dropped; then `applied` is
/// merged into the last applied entry, which becomes what `merges` allows,
/// when there is one and `applied` combines with it, and is appended
/// otherwise.  Either way the cursor ends at the end.
pub open spec fn recorded<S, M: StateModify<S>>(
    entries: Seq<M>,
    cursor: nat,
    changed: bool,
    applied: M,
    entries2: Seq<M>,
    cursor2: nat,
) -> bool {
    if !changed {
        entries2 == entries && cursor2 == cursor
    } else if cursor > 0 && applied.combines(entries[cursor - 1]) {
        &&& cursor2 == cursor
        &&& entries2.len() == cursor
        &&& entries2 == entries.take(cursor - 1).push(entries2.last())
        &&& applied.merges(entries[cursor - 1], entries2.last())
    } else {
        cursor2 == cursor + 1 && entries2 == entries.take(cursor as int).push(applied)
    }
}

/// The undo history of a state of type `S`, made of modifiers of type `M`.
pub struct UndoQueue<S, M: StateModify<S>> {
    queue: Vec<M>,
    index: usize,
    state: core::marker::PhantomData<S>,
}

/// Whether `push` of `modifier` may take the history `q` and the state
/// `state` to `q2` and `state2`: the modifier's `redo` takes `state` to
/// `state2`, and what it reported and became is recorded.
pub open spec fn push_effect<S, M: StateModify<S>>(
    q: UndoQueue<S, M>,
    state: S,
    modifier: M,
    q2: UndoQueue<S, M>,
    state2: S,
) -> bool {
    exists|changed: bool, applied: M|
        #[trigger] modifier.redo_spec(state, changed, applied, state2) && recorded(
            q.entries(),
            q.cursor(),
            changed,
            applied,
            q2.entries(),
            q2.cursor(),
        )
}

/// Whether `undo` may take the state `state` of history `q` to `state2`,
/// leaving the history as `q2`: the last applied entry's `undo` does so,
/// leaving that entry as it stands in `q2`; with nothing applied the state
/// stays.
pub open spec fn undo_effect<S, M: StateModify<S>>(
    q: UndoQueue<S, M>,
    state: S,
    q2: UndoQueue<S, M>,
    state2: S,
) -> bool {
    if q.can_undo() {
        q.entries()[q.cursor() - 1].undo_spec(state, q2.entries()[q.cursor() - 1], state2)
    } else {
        state2 == state
    }
}

/// Whether `redo` may take the state `state` of history `q` to `state2`,
/// leaving the history as `q2`: the entry at the cursor's `redo` does so,
/// leaving that entry as it stands in `q2`; with nothing to redo the state
/// stays.
pub open spec fn redo_effect<S, M: StateModify<S>>(
    q: UndoQueue<S, M>,
    state: S,
    q2: UndoQueue<S, M>,
    state2: S,
) -> bool {
    if q.can_redo() {
        exists|changed: bool|
            #[trigger] q.entries()[q.cursor() as int].redo_spec(
                state,
                changed,
                q2.entries()[q.cursor() as int],
                state2,
            )
    } else {
        state2 == state
    }
}

impl<S, M: StateModify<S>> UndoQueue<S, M> {
    /// The recorded modifiers, oldest first.
    pub closed spec fn entries(&self) -> Seq<M> {
        self.queue@
    }

    /// The number of modifiers currently applied: the cursor.
    pub closed spec fn cursor(&self) -> nat {
        self.index as nat
    }

    /// The cursor never passes the end of the history.
    pub open spec fn wf(&self) -> bool {
        self.cursor() <= self.entries().len()
    }

    /// Whether `undo` would revert something.
    pub open spec fn can_undo(&self) -> bool {
        self.cursor() > 0
    }

    /// Whether `redo` would re-apply something.
    pub open spec fn can_redo(&self) -> bool {
        self.cursor() < self.entries().len()
    }

    /// An empty history.
    pub fn new() -> (q: Self)
        ensures
            q.wf(),
            q.entries() == Seq::<M>::empty(),
            q.cursor() == 0,
    {
        UndoQueue { queue: Vec::new(), index: 0, state: core::marker::PhantomData }
    }

    /// Applies `modifier` to `app_state` and records it.  A modifier whose
    /// `redo` reports no change leaves the history as it was.  Otherwise the
    /// undone entries are discarded, and the applied modifier is either
    /// merged into the last applied entry (when its `combine` accepts) or
    /// appended; either way nothing is left to redo.
    pub fn push(&mut self, app_state: &mut S, modifier: M)
        requires
            old(self).wf(),
        ensures
            final(self).wf(),
            push_effect(*old(self), *old(app_state), modifier, *final(self), *final(app_state)),
    {
        let ghost start = *app_state;
        let ghost entries = self.queue@;
        let mut modifier = modifier;
        let ghost original = modifier;
        let changed = modifier.redo(app_state);
        let ghost applied = modifier;
        assert(original.redo_spec(start, changed, applied, *app_state));
        if !changed {
            return;
        }
        self.discard_redo_branch();
        let len = self.queue.len();
        let merged = if len > 0 {
            modifier.combine(&mut self.queue[len - 1])
        } else {
            false
        };
        proof {
            if merged {
                assert(self.queue@ =~= entries.take(len - 1).push(self.queue@.last()));
            } else {
                assert(self.queue@ =~= entries.take(len as int));
            }
        }
        self.commit(modifier, merged);
    }

    /// Drops the entries that have been undone.
    fn discard_redo_branch(&mut self)
        requires
            old(self).wf(),
        ensures
            final(self).wf(),
            final(self).entries() == old(self).entries().take(old(self).cursor() as int),
            final(self).cursor() == old(self).cursor(),
            final(self).cursor() == final(self).entries().len(),
    {
        self.queue.truncate(self.index);
    }

    /// Records `modifier` after the applied entries, unless it was `merged`
    /// into the last one.  The history must have nothing left to redo.
    fn commit(&mut self, modifier: M, merged: bool)
        requires
            old(self).wf(),
            old(self).cursor() == old(self).entries().len(),
        ensures
            final(self).wf(),
            merged ==> *final(self) == *old(self),
            !merged ==> final(self).entries() == old(self).entries().push(modifier)
                && final(self).cursor() == old(self).cursor() + 1,
            !final(self).can_redo(),
    {
        if merged {
            return;
        }
        self.queue.push(modifier);
        self.index = self.queue.len();
    }

    /// Reverts the most recently applied entry and moves the cursor back;
    /// does nothing when nothing is applied.
    pub fn undo(&mut self, app_state: &mut S)
        requires
            old(self).wf(),
        ensures
            final(self).wf(),
            final(self).cursor() == cursor_after_undo(old(self).cursor()),
            final(self).entries().len() == old(self).entries().len(),
            forall|i: int|
                0 <= i < old(self).entries().len() && i != final(self).cursor()
                    ==> final(self).entries()[i] == old(self).entries()[i],
            !old(self).can_undo() ==> final(self).entries() == old(self).entries(),
            undo_effect(*old(self), *old(app_state), *final(self), *final(app_state)),
    {
        if self.index == 0 {
            return;
        }
        self.index = self.index - 1;
        let i = self.index;
        self.queue[i].undo(app_state);
    }

    /// Re-applies the entry at the cursor and moves the cursor forward; does
    /// nothing when nothing is left to redo.
    pub fn redo(&mut self, app_state: &mut S)
        requires
            old(self).wf(),
        ensures
            final(self).wf(),
            final(self).cursor() == cursor_after_redo(old(self).cursor(), old(self).entries().len()),
            final(self).entries().len() == old(self).entries().len(),
            forall|i: int|
                0 <= i < old(self).entries().len() && i != old(self).cursor()
                    ==> final(self).entries()[i] == old(self).entries()[i],
            !old(self).can_redo() ==> final(self).entries() == old(self).entries(),
            redo_effect(*old(self), *old(app_state), *final(self), *final(app_state)),
    {
        if self.index == self.queue.len() {
            return;
        }
        let i = self.index;
        let ghost start = *app_state;
        let changed = self.queue[i].redo(app_state);
        self.index = self.index + 1;
        assert(old(self).entries()[i as int].redo_spec(
            start,
            changed,
            self.entries()[i as int],
            *app_state,
        ));
    }
}

/// Undoing a change that `push` recorded as an entry of its own gives back
/// the state from before the push and moves the cursor back to where it was,
/// when the modifier's undo reverts what its redo changed there.
pub proof fn lemma_undo_reverts_push<S: View, M: StateModify<S>>(
    q0: UndoQueue<S, M>,
    state0: S,
    modifier: M,
    q1: UndoQueue<S, M>,
    state1: S,
    q2: UndoQueue<S, M>,
    state2: S,
)
    requires
        q0.wf(),
        reverts_at(modifier, state0),
        push_effect(q0, state0, modifier, q1, state1),
        q1.cursor() == q0.cursor() + 1,
        undo_effect(q1, state1, q2, state2),
        q2.cursor() == cursor_after_undo(q1.cursor()),
    ensures
        state2@ == state0@,
        q2.cursor() == q0.cursor(),
{
    let (changed, applied) = choose|changed: bool, applied: M|
        #[trigger] modifier.redo_spec(state0, changed, applied, state1) && recorded(
            q0.entries(),
            q0.cursor(),
            changed,
            applied,
            q1.entries(),
            q1.cursor(),
        );
    assert(changed);
    assert(q1.entries()[q0.cursor() as int] == applied);
    let after = q2.entries()[q0.cursor() as int];
    assert(applied.undo_spec(state1, after, state2));
}

/// After a `push` that recorded something, nothing is left to redo: a redo
/// that follows leaves the state as the push left it.
pub proof fn lemma_redo_after_push_keeps_state<S, M: StateModify<S>>(
    q0: UndoQueue<S, M>,
    state0: S,
    modifier: M,
    q1: UndoQueue<S, M>,
    state1: S,
    q2: UndoQueue<S, M>,
    state2: S,
)
    requires
        q0.wf(),
        push_effect(q0, state0, modifier, q1, state1),
        redo_effect(q1, state1, q2, state2),
    ensures
        q1.entries() == q0.entries() && q1.cursor() == q0.cursor() || state2 == state1,
{
    let (changed, applied) = choose|changed: bool, applied: M|
        #[trigger] modifier.redo_spec(state0, changed, applied, state1) && recorded(
            q0.entries(),
            q0.cursor(),
            changed,
            applied,
            q1.entries(),
            q1.cursor(),
        );
    if changed {
        assert(!q1.can_redo());
    }
}

/// An undo followed by a redo brings the cursor back to where it was, when
/// there was something to undo.
pub proof fn lemma_undo_then_redo(index: nat, len: nat)
    requires
        0 < index <= len,
    ensures
        cursor_after_redo(cursor_after_undo(index), len) == index,
{
}

/// A redo followed by an undo brings the cursor back to where it was, when
/// there was something to redo.
pub proof fn lemma_redo_then_undo(index: nat, len: nat)
    requires
        index < len,
    ensures
        cursor_after_undo(cursor_after_redo(index, len)) == index,
{
}

} // verus!
