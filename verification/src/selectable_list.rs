//! The layer list: an ordered list of entries that can be selected with
//! clicks (plain, ctrl-toggle, shift-range), reordered and deleted, with the
//! reordering and deletion available as undoable modifiers.
use vstd::prelude::*;
use crate::list_ops::{
    all_below, apply_swaps, down_in_range, down_moves, insert_in_order, insertion_in_range,
    lemma_apply_swaps_len, lemma_down_then_up, lemma_remove_then_insert, lemma_removed_len,
    lemma_selection_in_range, lemma_selection_removable, lemma_up_then_down, removal_in_range,
    remove_from_back, removed_from_back, shift_up,
    strictly_increasing, swap_adjacent, up_in_range, up_moves,
};
use crate::undo_queue::{reverts_at, StateModify};

verus! {

/// An entry of a `SelectableList`.
pub struct SelectableEntry<T> {
    pub inner: T,
    pub selected: bool,
}

impl<T> SelectableEntry<T> {
    /// An unselected entry holding `data`.
    pub fn new(data: T) -> (e: Self)
        ensures
            e.inner == data,
            !e.selected,
    {
        SelectableEntry { inner: data, selected: false }
    }
}

/// An ordered list of selectable entries, remembering the entry last
/// selected by a click (the anchor of shift-click ranges).
pub struct SelectableList<T> {
    items: Vec<SelectableEntry<T>>,
    last_selected: Option<usize>,
}

impl<T> View for SelectableList<T> {
    type V = Seq<SelectableEntry<T>>;

    closed spec fn view(&self) -> Seq<SelectableEntry<T>> {
        self.items@
    }
}

/// Whether entry `j` is selected after a click on entry `i` of `old`, with
/// the given modifier keys and anchor.  A shift-click with an anchor selects
/// the entries from `i` up to, not including, the anchor; a ctrl-click
/// toggles `i`; a plain click selects `i` alone.
pub open spec fn selected_after_click<T>(
    old: Seq<SelectableEntry<T>>,
    anchor: Option<usize>,
    i: int,
    shift: bool,
    ctrl: bool,
    j: int,
) -> bool {
    if shift && anchor is Some {
        let a = anchor.unwrap() as int;
        if (i <= j < a) || (a < j <= i) {
            true
        } else {
            old[j].selected
        }
    } else if ctrl {
        if j == i { !old[j].selected } else { old[j].selected }
    } else {
        j == i
    }
}

impl<T> SelectableList<T> {
    /// The entry last selected by a click.
    pub closed spec fn anchor(&self) -> Option<usize> {
        self.last_selected
    }

    /// An empty list.
    pub fn new() -> (l: Self)
        ensures
            l@ == Seq::<SelectableEntry<T>>::empty(),
            l.anchor() is None,
    {
        SelectableList { items: Vec::new(), last_selected: None }
    }

    /// The number of entries.
    pub fn len(&self) -> (n: usize)
        ensures
            n == self@.len(),
    {
        self.items.len()
    }

    /// The entry last selected by a click.
    pub fn last_selected(&self) -> (a: Option<usize>)
        ensures
            a == self.anchor(),
    {
        self.last_selected
    }

    /// The entries, in order.
    pub fn entries(&self) -> (r: &[SelectableEntry<T>])
        ensures
            r@ == self@,
    {
        self.items.as_slice()
    }

    /// The entry at position `i`.
    pub fn get(&self, i: usize) -> (r: &SelectableEntry<T>)
        requires
            i < self@.len(),
        ensures
            *r == self@[i as int],
    {
        &self.items[i]
    }

    /// The entry at position `i`, for changing it in place.
    pub fn get_mut(&mut self, i: usize) -> (r: &mut SelectableEntry<T>)
        requires
            i < old(self)@.len(),
        ensures
            *r == old(self)@[i as int],
            final(self)@ == old(self)@.update(i as int, *final(r)),
            final(self).anchor() == old(self).anchor(),
    {
        &mut self.items[i]
    }

    /// Inserts an entry at position `i`, shifting the later ones back.
    pub fn insert(&mut self, i: usize, entry: SelectableEntry<T>)
        requires
            i <= old(self)@.len(),
        ensures
            final(self)@ == old(self)@.insert(i as int, entry),
            final(self).anchor() == old(self).anchor(),
    {
        self.items.insert(i, entry);
    }

    /// Removes and returns the entry at position `i`.
    pub fn remove(&mut self, i: usize) -> (e: SelectableEntry<T>)
        requires
            i < old(self)@.len(),
        ensures
            e == old(self)@[i as int],
            final(self)@ == old(self)@.remove(i as int),
            final(self).anchor() == old(self).anchor(),
    {
        self.items.remove(i)
    }

    /// Appends an entry.
    pub fn push(&mut self, entry: SelectableEntry<T>)
        ensures
            final(self)@ == old(self)@.push(entry),
            final(self).anchor() == old(self).anchor(),
    {
        self.items.push(entry);
    }

    /// Deselects every entry and forgets the anchor.
    pub fn clear_selected(&mut self)
        ensures
            final(self)@.len() == old(self)@.len(),
            forall|j: int|
                0 <= j < old(self)@.len() ==> (#[trigger] final(self)@[j]).inner == old(self)@[j].inner
                    && !final(self)@[j].selected,
            final(self).anchor() is None,
    {
        let n = self.items.len();
        let mut j: usize = 0;
        while j < n
            invariant
                n == old(self)@.len(),
                j <= n,
                self@.len() == n,
                forall|k: int|
                    0 <= k < n ==> (#[trigger] self@[k]).inner == old(self)@[k].inner,
                forall|k: int| 0 <= k < j ==> !(#[trigger] self@[k]).selected,
            decreases n - j,
        {
            self.items[j].selected = false;
            j = j + 1;
        }
        self.last_selected = None;
    }

    /// The positions of the selected entries, in increasing order.
    pub fn iter_selected_indexes(&self) -> (r: Vec<usize>)
        ensures
            strictly_increasing(r@),
            all_below(r@, self@.len() as int),
            forall|j: int| 0 <= j < self@.len() ==> (self@[j].selected <==> r@.contains(j as usize)),
    {
        let n = self.items.len();
        let mut r: Vec<usize> = Vec::new();
        let mut j: usize = 0;
        while j < n
            invariant
                n == self@.len(),
                j <= n,
                strictly_increasing(r@),
                all_below(r@, j as int),
                forall|k: int| 0 <= k < j ==> (self@[k].selected <==> r@.contains(k as usize)),
            decreases n - j,
        {
            let ghost prev = r@;
            if self.items[j].selected {
                r.push(j);
                assert forall|k: int| 0 <= k < j implies (r@.contains(k as usize) <==> #[trigger] prev.contains(k as usize)) by {
                    if r@.contains(k as usize) {
                        let p = choose|p: int| 0 <= p < r@.len() && r@[p] == k as usize;
                        assert(p < prev.len());
                        assert(prev[p] == k as usize);
                    }
                    if prev.contains(k as usize) {
                        let p = choose|p: int| 0 <= p < prev.len() && prev[p] == k as usize;
                        assert(r@[p] == k as usize);
                    }
                }
                assert(r@[r@.len() - 1] == j);
            }
            assert(!prev.contains(j as usize));
            j = j + 1;
        }
        r
    }

    /// Applies a click on entry `i`: with shift and an anchor, selects the
    /// entries from `i` towards the anchor (the anchor itself excluded); with
    /// ctrl, toggles `i`; otherwise selects `i` alone.  A click that leaves
    /// `i` selected makes it the anchor.
    pub fn click(&mut self, i: usize, shift: bool, ctrl: bool)
        requires
            i < old(self)@.len(),
            shift && old(self).anchor() is Some ==> old(self).anchor().unwrap() < old(self)@.len(),
        ensures
            final(self)@.len() == old(self)@.len(),
            forall|j: int|
                0 <= j < old(self)@.len() ==> (#[trigger] final(self)@[j]).inner == old(self)@[j].inner
                    && final(self)@[j].selected
                    == selected_after_click(old(self)@, old(self).anchor(), i as int, shift, ctrl, j),
            final(self).anchor() == if final(self)@[i as int].selected {
                Some(i)
            } else {
                old(self).anchor()
            },
            shift && old(self).anchor() is Some ==> forall|j: int|
                #![trigger final(self)@[j]]
                ({
                    let a = old(self).anchor().unwrap() as int;
                    (i <= j < a) || (a < j <= i)
                }) ==> final(self)@[j].selected,
            !shift && !ctrl ==> forall|j: int|
                0 <= j < old(self)@.len() ==> (#[trigger] final(self)@[j]).selected == (j == i),
    {
        let ghost before = self@;
        let ghost anchor = self.last_selected;
        let _n = self.items.len();
        if shift && self.last_selected.is_some() {
            let last = self.last_selected.unwrap();
            let (lo, hi) = if i < last { (i, last) } else { (last + 1, i + 1) };
            let mut j = lo;
            while j < hi
                invariant
                    lo <= j <= hi <= before.len(),
                    self@.len() == before.len(),
                    self.last_selected == anchor,
                    forall|k: int|
                        0 <= k < before.len() ==> (#[trigger] self@[k]).inner == before[k].inner
                            && self@[k].selected == if lo <= k < j { true } else { before[k].selected },
                decreases hi - j,
            {
                self.items[j].selected = true;
                j = j + 1;
            }
        } else if ctrl {
            let sel = self.items[i].selected;
            self.items[i].selected = !sel;
        } else {
            self.clear_selected();
            self.items[i].selected = true;
        }
        if self.items[i].selected {
            self.last_selected = Some(i);
        }
    }

    /// Exchanges the entries at `j` and `j + 1`.
    fn swap_with_next(&mut self, j: usize)
        requires
            j + 1 < old(self)@.len(),
        ensures
            final(self)@ == swap_adjacent(old(self)@, j as int),
            final(self).anchor() == old(self).anchor(),
    {
        let _n = self.items.len();
        let e = self.items.remove(j + 1);
        self.items.insert(j, e);
        assert(self@ =~= swap_adjacent(old(self)@, j as int));
    }

    /// Moves each entry at `indexes` one step towards the front, in the order
    /// of `indexes`; an entry at position `k` of `indexes` that is already at
    /// position `k` of the list stays.  Returns the new positions of the
    /// moved entries.
    pub fn move_indexes_up(&mut self, indexes: &[usize]) -> (moved: Vec<usize>)
        requires
            up_in_range(indexes@, old(self)@.len() as int),
        ensures
            moved@ == up_moves(indexes@),
            final(self)@ == apply_swaps(old(self)@, moved@),
            final(self).anchor() == old(self).anchor(),
    {
        let mut moved: Vec<usize> = Vec::new();
        let n = indexes.len();
        let mut k: usize = 0;
        while k < n
            invariant
                n == indexes@.len(),
                k <= n,
                up_in_range(indexes@, old(self)@.len() as int),
                moved@ == up_moves(indexes@.take(k as int)),
                self@ == apply_swaps(old(self)@, moved@),
                self@.len() == old(self)@.len(),
                self.anchor() == old(self).anchor(),
            decreases n - k,
        {
            let index = indexes[k];
            let ghost prefix = indexes@.take(k as int + 1);
            assert(prefix.drop_last() =~= indexes@.take(k as int));
            assert(prefix.last() == index);
            if index != k {
                let ghost prev = moved@;
                self.swap_with_next(index - 1);
                moved.push(index - 1);
                assert(moved@.drop_last() =~= prev);
                proof {
                    lemma_apply_swaps_len(old(self)@, moved@);
                }
            }
            k = k + 1;
        }
        assert(indexes@.take(n as int) =~= indexes@);
        moved
    }

    /// Moves each entry at `indexes` one step towards the back, last
    /// position first; the entry at position `k` of `n` indexes that is
    /// already at list position `len - n + k` stays.  Returns the new
    /// positions of the moved entries, in the order of `indexes`.
    pub fn move_indexes_down(&mut self, indexes: &[usize]) -> (moved: Vec<usize>)
        requires
            down_in_range(indexes@, old(self)@.len() as int),
        ensures
            moved@ == shift_up(down_moves(indexes@, old(self)@.len() as int)),
            final(self)@ == apply_swaps(old(self)@, down_moves(indexes@, old(self)@.len() as int).reverse()),
            final(self).anchor() == old(self).anchor(),
    {
        let len = self.items.len();
        let n = indexes.len();
        let mut rev_moved: Vec<usize> = Vec::new();
        let mut p: usize = 0;
        while p < n
            invariant
                n == indexes@.len(),
                len == old(self)@.len(),
                p <= n,
                down_in_range(indexes@, len as int),
                rev_moved@ == shift_up(down_moves(indexes@.subrange(n - p, n as int), len as int)).reverse(),
                self@ == apply_swaps(
                    old(self)@,
                    down_moves(indexes@.subrange(n - p, n as int), len as int).reverse(),
                ),
                self@.len() == len,
                self.anchor() == old(self).anchor(),
            decreases n - p,
        {
            let k = n - 1 - p;
            let at_end = len - p - 1;
            let index = indexes[k];
            let ghost suffix = indexes@.subrange(k as int, n as int);
            let ghost rest = indexes@.subrange(k as int + 1, n as int);
            let ghost d = down_moves(rest, len as int);
            assert(suffix.drop_first() =~= rest);
            assert(suffix[0] == index);
            if index != at_end {
                let ghost prev = rev_moved@;
                self.swap_with_next(index);
                rev_moved.push(index + 1);
                assert(down_moves(suffix, len as int) == seq![index] + d);
                assert((seq![index] + d).reverse() =~= d.reverse().push(index));
                assert(shift_up(seq![index] + d).reverse() =~= shift_up(d).reverse().push(
                    (index + 1) as usize,
                ));
                assert(d.reverse().push(index).drop_last() =~= d.reverse());
                proof {
                    lemma_apply_swaps_len(old(self)@, d.reverse().push(index));
                }
            } else {
                assert(down_moves(suffix, len as int) == d);
            }
            p = p + 1;
        }
        assert(indexes@.subrange(0, n as int) =~= indexes@);
        let mut moved: Vec<usize> = Vec::new();
        let mut q: usize = rev_moved.len();
        while q > 0
            invariant
                q <= rev_moved@.len(),
                moved@ =~= rev_moved@.subrange(q as int, rev_moved@.len() as int).reverse(),
            decreases q,
        {
            q = q - 1;
            moved.push(rev_moved[q]);
            assert(rev_moved@.subrange(q as int, rev_moved@.len() as int).reverse() =~= rev_moved@.subrange(
                q as int + 1,
                rev_moved@.len() as int,
            ).reverse().push(rev_moved@[q as int]));
        }
        assert(rev_moved@.subrange(0, rev_moved@.len() as int) =~= rev_moved@);
        assert(rev_moved@.reverse().reverse() =~= rev_moved@);
        moved
    }

    /// Removes the entries at `indexes`, last position first, and returns
    /// them in the order they were removed.
    pub fn remove_indexes(&mut self, indexes: &[usize]) -> (removed: Vec<SelectableEntry<T>>)
        requires
            removal_in_range(indexes@, old(self)@.len() as int),
        ensures
            final(self)@ == remove_from_back(old(self)@, indexes@),
            removed@ == removed_from_back(old(self)@, indexes@),
            final(self).anchor() == old(self).anchor(),
    {
        let n = indexes.len();
        let mut removed: Vec<SelectableEntry<T>> = Vec::new();
        let mut k: usize = n;
        assert(indexes@.take(n as int) =~= indexes@);
        assert(removed@ + removed_from_back(self@, indexes@) =~= removed_from_back(self@, indexes@));
        while k > 0
            invariant
                n == indexes@.len(),
                k <= n,
                removal_in_range(indexes@, old(self)@.len() as int),
                self@.len() == old(self)@.len() - (n - k),
                remove_from_back(self@, indexes@.take(k as int)) == remove_from_back(old(self)@, indexes@),
                removed@ + removed_from_back(self@, indexes@.take(k as int)) == removed_from_back(
                    old(self)@,
                    indexes@,
                ),
                self.anchor() == old(self).anchor(),
            decreases k,
        {
            let ghost cur = self@;
            let ghost prev = removed@;
            let ghost pre = indexes@.take(k as int);
            k = k - 1;
            let index = indexes[k];
            assert(pre.drop_last() =~= indexes@.take(k as int));
            assert(pre.last() == index);
            let e = self.items.remove(index);
            removed.push(e);
            assert(removed_from_back(cur, pre) == seq![e] + removed_from_back(self@, indexes@.take(k as int)));
            assert(removed@ + removed_from_back(self@, indexes@.take(k as int)) =~= prev + (seq![e]
                + removed_from_back(self@, indexes@.take(k as int))));
        }
        assert(indexes@.take(0) =~= Seq::<usize>::empty());
        assert(removed@ + Seq::<SelectableEntry<T>>::empty() =~= removed@);
        removed
    }

    /// Re-inserts `entries`, given in the order `remove_indexes` returned
    /// them, at `indexes`: the last entry goes to the first position, and so
    /// on, for as many pairs as there are.
    pub fn reinsert(&mut self, indexes: &[usize], entries: Vec<SelectableEntry<T>>)
        requires
            insertion_in_range(indexes@, entries@.len() as int, old(self)@.len() as int),
        ensures
            final(self)@ == insert_in_order(old(self)@, indexes@, entries@.reverse()),
            final(self).anchor() == old(self).anchor(),
    {
        let ghost all = entries@;
        let mut entries = entries;
        let n = indexes.len();
        let mut k: usize = 0;
        assert(indexes@.skip(0) =~= indexes@);
        assert(all.take(all.len() as int) =~= all);
        while k < n && entries.len() > 0
            invariant
                n == indexes@.len(),
                k <= n,
                k + entries@.len() == all.len(),
                entries@ == all.take(all.len() - k),
                insertion_in_range(indexes@, all.len() as int, old(self)@.len() as int),
                self@.len() == old(self)@.len() + k,
                insert_in_order(self@, indexes@.skip(k as int), entries@.reverse()) == insert_in_order(
                    old(self)@,
                    indexes@,
                    all.reverse(),
                ),
                self.anchor() == old(self).anchor(),
            decreases n - k,
        {
            let ghost cur = self@;
            let ghost rest = entries@;
            let e = entries.pop().unwrap();
            let index = indexes[k];
            assert(rest.reverse()[0] == e);
            assert(indexes@.skip(k as int)[0] == index);
            assert(indexes@.skip(k as int).drop_first() =~= indexes@.skip(k as int + 1));
            assert(rest.reverse().drop_first() =~= entries@.reverse());
            self.items.insert(index, e);
            k = k + 1;
            assert(entries@ =~= all.take(all.len() - k));
        }
        assert(insert_in_order(self@, indexes@.skip(k as int), entries@.reverse()) == self@);
    }
}

/// An undoable edit of a `SelectableList`: deleting the entries at a set of
/// positions, or moving them one step towards the back (forward in drawing
/// order) or towards the front.
pub enum ListModifier<T> {
    Delete { idxs: Vec<usize>, removed: Vec<SelectableEntry<T>> },
    MoveForward { idxs: Vec<usize> },
    MoveBackward { idxs: Vec<usize> },
}

/// Checks `removal_in_range`.
fn removal_fits(idxs: &[usize], len: usize) -> (r: bool)
    ensures
        r == removal_in_range(idxs@, len as int),
{
    let n = idxs.len();
    let mut k: usize = 0;
    while k < n
        invariant
            n == idxs@.len(),
            k <= n,
            forall|j: int| 0 <= j < k ==> idxs@[j] < len - (n - 1 - j),
        decreases n - k,
    {
        if idxs[k] as u128 + (n - 1 - k) as u128 >= len as u128 {
            return false;
        }
        k = k + 1;
    }
    true
}

/// Checks `insertion_in_range`.
fn insertion_fits(idxs: &[usize], count: usize, len: usize) -> (r: bool)
    ensures
        r == insertion_in_range(idxs@, count as int, len as int),
{
    let n = idxs.len();
    let mut k: usize = 0;
    while k < n && k < count
        invariant
            n == idxs@.len(),
            k <= n,
            forall|j: int| 0 <= j < k && j < count ==> idxs@[j] <= len + j,
        decreases n - k,
    {
        if idxs[k] as u128 > len as u128 + k as u128 {
            return false;
        }
        k = k + 1;
    }
    true
}

/// Checks `up_in_range`.
fn up_fits(idxs: &[usize], len: usize) -> (r: bool)
    ensures
        r == up_in_range(idxs@, len as int),
{
    let n = idxs.len();
    let mut k: usize = 0;
    while k < n
        invariant
            n == idxs@.len(),
            k <= n,
            forall|j: int| 0 <= j < k ==> idxs@[j] == j || (1 <= idxs@[j] < len),
        decreases n - k,
    {
        if idxs[k] != k && (idxs[k] == 0 || idxs[k] >= len) {
            return false;
        }
        k = k + 1;
    }
    true
}

/// Checks `down_in_range`.
fn down_fits(idxs: &[usize], len: usize) -> (r: bool)
    ensures
        r == down_in_range(idxs@, len as int),
{
    let n = idxs.len();
    if n > len {
        return false;
    }
    let mut k: usize = 0;
    while k < n
        invariant
            n == idxs@.len(),
            n <= len,
            k <= n,
            forall|j: int| 0 <= j < k ==> idxs@[j] + (n - j) == len || idxs@[j] + 1 < len,
        decreases n - k,
    {
        let a = idxs[k] as u128;
        if a + (n - k) as u128 != len as u128 && a + 1 >= len as u128 {
            return false;
        }
        k = k + 1;
    }
    true
}

impl<T> ListModifier<T> {
    /// Deletes the entries at `idxs` (given in increasing order).
    pub fn delete(idxs: Vec<usize>) -> (m: Self)
        ensures
            m is Delete,
            m->Delete_idxs == idxs,
            m->removed@.len() == 0,
    {
        ListModifier::Delete { idxs, removed: Vec::new() }
    }

    /// Moves the entries at `idxs` (given in increasing order) one step
    /// towards the back of the list.
    pub fn move_forward(idxs: Vec<usize>) -> (m: Self)
        ensures
            m == (ListModifier::<T>::MoveForward { idxs }),
    {
        ListModifier::MoveForward { idxs }
    }

    /// Moves the entries at `idxs` (given in increasing order) one step
    /// towards the front of the list.
    pub fn move_backward(idxs: Vec<usize>) -> (m: Self)
        ensures
            m == (ListModifier::<T>::MoveBackward { idxs }),
    {
        ListModifier::MoveBackward { idxs }
    }
}

impl<T> StateModify<SelectableList<T>> for ListModifier<T> {
    /// The outcome that `redo` below states: deleting removes the entries
    /// and keeps them, moving moves them and keeps their new positions, and
    /// positions that would leave the list change nothing.  The anchor stays.
    open spec fn redo_spec(
        &self,
        state: SelectableList<T>,
        changed: bool,
        after: Self,
        result: SelectableList<T>,
    ) -> bool {
        &&& match *self {
            ListModifier::Delete { idxs, removed } => if removal_in_range(idxs@, state@.len() as int) {
                &&& changed
                &&& result@ == remove_from_back(state@, idxs@)
                &&& after is Delete
                &&& after->Delete_idxs == idxs
                &&& after->removed@ == removed@ + removed_from_back(state@, idxs@)
            } else {
                !changed && result@ == state@ && after == *self
            },
            ListModifier::MoveForward { idxs } => if down_in_range(idxs@, state@.len() as int) {
                let d = down_moves(idxs@, state@.len() as int);
                &&& changed == (d.len() > 0)
                &&& result@ == apply_swaps(state@, d.reverse())
                &&& after is MoveForward
                &&& after->MoveForward_idxs@ == shift_up(d)
            } else {
                !changed && result@ == state@ && after == *self
            },
            ListModifier::MoveBackward { idxs } => if up_in_range(idxs@, state@.len() as int) {
                let m = up_moves(idxs@);
                &&& changed == (m.len() > 0)
                &&& result@ == apply_swaps(state@, m)
                &&& after is MoveBackward
                &&& after->MoveBackward_idxs@ == m
            } else {
                !changed && result@ == state@ && after == *self
            },
        }
        &&& result.anchor() == state.anchor()
    }

    /// The outcome that `undo` below states: deleting re-inserts the kept
    /// entries, moving moves the entries back, and positions that would
    /// leave the list change nothing.  The anchor stays.
    open spec fn undo_spec(&self, state: SelectableList<T>, after: Self, result: SelectableList<T>) -> bool {
        &&& match *self {
            ListModifier::Delete { idxs, removed } => if insertion_in_range(
                idxs@,
                removed@.len() as int,
                state@.len() as int,
            ) {
                &&& result@ == insert_in_order(state@, idxs@, removed@.reverse())
                &&& after is Delete
                &&& after->Delete_idxs == idxs
                &&& after->removed@.len() == 0
            } else {
                result@ == state@ && after == *self
            },
            ListModifier::MoveForward { idxs } => if up_in_range(idxs@, state@.len() as int) {
                let m = up_moves(idxs@);
                &&& result@ == apply_swaps(state@, m)
                &&& after is MoveForward
                &&& after->MoveForward_idxs@ == m
            } else {
                result@ == state@ && after == *self
            },
            ListModifier::MoveBackward { idxs } => if down_in_range(idxs@, state@.len() as int) {
                let d = down_moves(idxs@, state@.len() as int);
                &&& result@ == apply_swaps(state@, d.reverse())
                &&& after is MoveBackward
                &&& after->MoveBackward_idxs@ == shift_up(d)
            } else {
                result@ == state@ && after == *self
            },
        }
        &&& result.anchor() == state.anchor()
    }

    /// List modifiers never combine.
    open spec fn combines(&self, previous: Self) -> bool {
        false
    }

    /// List modifiers are never merged.
    open spec fn merges(&self, previous: Self, result: Self) -> bool {
        false
    }

    /// List modifiers never combine.
    fn combine(&mut self, previous: &mut Self) -> (merged: bool) {
        false
    }

    /// Deleting removes the entries (last position first) and keeps them for
    /// `undo`; moving forward or backward moves the entries and keeps their
    /// new positions for `undo`.  Positions that would leave the list make
    /// the modifier change nothing and report so.
    fn redo(&mut self, state: &mut SelectableList<T>) -> (changed: bool)
        ensures
            match *old(self) {
                ListModifier::Delete { idxs, removed } => if removal_in_range(idxs@, old(state)@.len() as int) {
                    &&& changed
                    &&& final(state)@ == remove_from_back(old(state)@, idxs@)
                    &&& *final(self) is Delete
                    &&& (*final(self))->Delete_idxs == idxs
                    &&& (*final(self))->removed@ == removed@ + removed_from_back(old(state)@, idxs@)
                } else {
                    !changed && final(state)@ == old(state)@ && *final(self) == *old(self)
                },
                ListModifier::MoveForward { idxs } => if down_in_range(idxs@, old(state)@.len() as int) {
                    let d = down_moves(idxs@, old(state)@.len() as int);
                    &&& changed == (d.len() > 0)
                    &&& final(state)@ == apply_swaps(old(state)@, d.reverse())
                    &&& *final(self) is MoveForward
                    &&& (*final(self))->MoveForward_idxs@ == shift_up(d)
                } else {
                    !changed && final(state)@ == old(state)@ && *final(self) == *old(self)
                },
                ListModifier::MoveBackward { idxs } => if up_in_range(idxs@, old(state)@.len() as int) {
                    let m = up_moves(idxs@);
                    &&& changed == (m.len() > 0)
                    &&& final(state)@ == apply_swaps(old(state)@, m)
                    &&& *final(self) is MoveBackward
                    &&& (*final(self))->MoveBackward_idxs@ == m
                } else {
                    !changed && final(state)@ == old(state)@ && *final(self) == *old(self)
                },
            },
            final(state).anchor() == old(state).anchor(),
    {
        let len = state.len();
        match self {
            ListModifier::Delete { idxs, removed } => {
                if !removal_fits(idxs.as_slice(), len) {
                    return false;
                }
                let mut out = state.remove_indexes(idxs.as_slice());
                removed.append(&mut out);
                true
            },
            ListModifier::MoveForward { idxs } => {
                if !down_fits(idxs.as_slice(), len) {
                    return false;
                }
                let moved = state.move_indexes_down(idxs.as_slice());
                *idxs = moved;
                idxs.len() > 0
            },
            ListModifier::MoveBackward { idxs } => {
                if !up_fits(idxs.as_slice(), len) {
                    return false;
                }
                let moved = state.move_indexes_up(idxs.as_slice());
                *idxs = moved;
                idxs.len() > 0
            },
        }
    }

    /// Deleting re-inserts the kept entries at their positions and forgets
    /// them; moving forward or backward moves the entries back.  Positions
    /// that would leave the list make the modifier change nothing.
    fn undo(&mut self, state: &mut SelectableList<T>)
        ensures
            match *old(self) {
                ListModifier::Delete { idxs, removed } => if insertion_in_range(
                    idxs@,
                    removed@.len() as int,
                    old(state)@.len() as int,
                ) {
                    &&& final(state)@ == insert_in_order(old(state)@, idxs@, removed@.reverse())
                    &&& *final(self) is Delete
                    &&& (*final(self))->Delete_idxs == idxs
                    &&& (*final(self))->removed@.len() == 0
                } else {
                    final(state)@ == old(state)@ && *final(self) == *old(self)
                },
                ListModifier::MoveForward { idxs } => if up_in_range(idxs@, old(state)@.len() as int) {
                    let m = up_moves(idxs@);
                    &&& final(state)@ == apply_swaps(old(state)@, m)
                    &&& *final(self) is MoveForward
                    &&& (*final(self))->MoveForward_idxs@ == m
                } else {
                    final(state)@ == old(state)@ && *final(self) == *old(self)
                },
                ListModifier::MoveBackward { idxs } => if down_in_range(idxs@, old(state)@.len() as int) {
                    let d = down_moves(idxs@, old(state)@.len() as int);
                    &&& final(state)@ == apply_swaps(old(state)@, d.reverse())
                    &&& *final(self) is MoveBackward
                    &&& (*final(self))->MoveBackward_idxs@ == shift_up(d)
                } else {
                    final(state)@ == old(state)@ && *final(self) == *old(self)
                },
            },
            final(state).anchor() == old(state).anchor(),
    {
        let len = state.len();
        match self {
            ListModifier::Delete { idxs, removed } => {
                if !insertion_fits(idxs.as_slice(), removed.len(), len) {
                    return;
                }
                let mut taken: Vec<SelectableEntry<T>> = Vec::new();
                core::mem::swap(removed, &mut taken);
                state.reinsert(idxs.as_slice(), taken);
            },
            ListModifier::MoveForward { idxs } => {
                if !up_fits(idxs.as_slice(), len) {
                    return;
                }
                let moved = state.move_indexes_up(idxs.as_slice());
                *idxs = moved;
            },
            ListModifier::MoveBackward { idxs } => {
                if !down_fits(idxs.as_slice(), len) {
                    return;
                }
                let moved = state.move_indexes_down(idxs.as_slice());
                *idxs = moved;
            },
        }
    }
}

/// Deleting a strictly increasing, in-range set of positions with a fresh
/// `ListModifier::delete`, then undoing it, gives back the list: the redo
/// guard holds, the undo guard holds on what redo left, and re-inserting the
/// kept entries restores every entry in place.
pub proof fn lemma_delete_undo<T>(s: Seq<SelectableEntry<T>>, idxs: Seq<usize>)
    requires
        strictly_increasing(idxs),
        all_below(idxs, s.len() as int),
    ensures
        removal_in_range(idxs, s.len() as int),
        insertion_in_range(
            idxs,
            removed_from_back(s, idxs).len() as int,
            remove_from_back(s, idxs).len() as int,
        ),
        insert_in_order(
            remove_from_back(s, idxs),
            idxs,
            (Seq::<SelectableEntry<T>>::empty() + removed_from_back(s, idxs)).reverse(),
        ) == s,
{
    lemma_selection_removable(idxs, s.len() as int);
    lemma_remove_then_insert(s, idxs);
    lemma_removed_len(s, idxs);
    assert(Seq::<SelectableEntry<T>>::empty() + removed_from_back(s, idxs) =~= removed_from_back(s, idxs));
}

/// Moving a strictly increasing, in-range set of positions forward with
/// `ListModifier::move_forward`, then undoing it, gives back the list.
pub proof fn lemma_move_forward_undo<T>(s: Seq<SelectableEntry<T>>, idxs: Seq<usize>)
    requires
        s.len() <= usize::MAX,
        strictly_increasing(idxs),
        all_below(idxs, s.len() as int),
    ensures
        down_in_range(idxs, s.len() as int),
        up_in_range(shift_up(down_moves(idxs, s.len() as int)), s.len() as int),
        apply_swaps(
            apply_swaps(s, down_moves(idxs, s.len() as int).reverse()),
            up_moves(shift_up(down_moves(idxs, s.len() as int))),
        ) == s,
{
    lemma_selection_in_range(idxs, s.len() as int);
    lemma_down_then_up(s, idxs);
}

/// Moving a strictly increasing, in-range set of positions backward with
/// `ListModifier::move_backward`, then undoing it, gives back the list.
pub proof fn lemma_move_backward_undo<T>(s: Seq<SelectableEntry<T>>, idxs: Seq<usize>)
    requires
        strictly_increasing(idxs),
        all_below(idxs, s.len() as int),
    ensures
        up_in_range(idxs, s.len() as int),
        down_in_range(up_moves(idxs), s.len() as int),
        apply_swaps(
            apply_swaps(s, up_moves(idxs)),
            down_moves(up_moves(idxs), s.len() as int).reverse(),
        ) == s,
{
    lemma_selection_in_range(idxs, s.len() as int);
    lemma_up_then_down(s, idxs);
}

/// A fresh delete, move-forward or move-backward of a strictly increasing
/// set of positions inside the list is reverted by its undo, so undoing it
/// from an undo history gives the list back.
pub proof fn lemma_list_modifiers_revert<T>(l: SelectableList<T>, idxs: Vec<usize>)
    requires
        strictly_increasing(idxs@),
        all_below(idxs@, l@.len() as int),
    ensures
        forall|m: ListModifier<T>|
            m is Delete && m->Delete_idxs == idxs && m->removed@.len() == 0 ==> #[trigger] reverts_at(
                m,
                l,
            ),
        reverts_at(ListModifier::<T>::MoveForward { idxs }, l),
        reverts_at(ListModifier::<T>::MoveBackward { idxs }, l),
{
    let s = l@;
    let n = s.len() as int;
    assert(l.items.len() == s.len());
    lemma_delete_undo(s, idxs@);
    lemma_move_forward_undo(s, idxs@);
    lemma_move_backward_undo(s, idxs@);
    let d = down_moves(idxs@, n);
    lemma_apply_swaps_len(s, d.reverse());
    lemma_apply_swaps_len(s, up_moves(idxs@));
    assert forall|m: ListModifier<T>|
        m is Delete && m->Delete_idxs == idxs && m->removed@.len() == 0 implies #[trigger] reverts_at(
            m,
            l,
        ) by {
        assert(m->removed@ + removed_from_back(s, idxs@) =~= Seq::<SelectableEntry<T>>::empty()
            + removed_from_back(s, idxs@));
    }
}

/// What a click does to each entry, by position.  A shift-click at `i`
/// with anchor `a` selects every entry from `i` up to the anchor, the
/// anchor itself excluded (`i <= j < a` going down the list, `a < j <= i`
/// going up), and leaves every other entry as it was; a ctrl-click flips
/// `i` alone; a plain click, or a shift-click with no anchor, selects `i`
/// and nothing else.
pub proof fn lemma_click_by_position<T>(
    old: Seq<SelectableEntry<T>>,
    anchor: Option<usize>,
    i: int,
    shift: bool,
    ctrl: bool,
    j: int,
)
    requires
        0 <= j < old.len(),
    ensures
        shift && anchor is Some && ((i <= j < anchor.unwrap()) || (anchor.unwrap() < j <= i))
            ==> selected_after_click(old, anchor, i, shift, ctrl, j),
        shift && anchor is Some && !((i <= j < anchor.unwrap()) || (anchor.unwrap() < j <= i))
            ==> selected_after_click(old, anchor, i, shift, ctrl, j) == old[j].selected,
        !(shift && anchor is Some) && ctrl ==> selected_after_click(old, anchor, i, shift, ctrl, j) == if j == i {
            !old[j].selected
        } else {
            old[j].selected
        },
        !(shift && anchor is Some) && !ctrl ==> selected_after_click(old, anchor, i, shift, ctrl, j) == (j == i),
{
}

} // verus!
