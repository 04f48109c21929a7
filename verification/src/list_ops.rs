//! Sequence models of the reordering, removal and insertion operations on
//! layer lists, with the lemmas that show each one undone by its partner.
use vstd::prelude::*;

verus! {

/// Exchanges the elements at `j` and `j + 1`; out-of-range positions leave
/// the sequence as it is.
pub open spec fn swap_adjacent<A>(s: Seq<A>, j: int) -> Seq<A> {
    if 0 <= j && j + 1 < s.len() {
        s.update(j, s[j + 1]).update(j + 1, s[j])
    } else {
        s
    }
}

/// Applies `swap_adjacent` at each position of `js`, first to last.
pub open spec fn apply_swaps<A>(s: Seq<A>, js: Seq<usize>) -> Seq<A>
    decreases js.len(),
{
    if js.len() == 0 {
        s
    } else {
        swap_adjacent(apply_swaps(s, js.drop_last()), js.last() as int)
    }
}

/// Whether `s` is strictly increasing.
pub open spec fn strictly_increasing(s: Seq<usize>) -> bool {
    forall|a: int, b: int| 0 <= a < b < s.len() ==> s[a] < s[b]
}

/// Whether every element of `s` is below `bound`.
pub open spec fn all_below(s: Seq<usize>, bound: int) -> bool {
    forall|a: int| 0 <= a < s.len() ==> s[a] < bound
}

/// Swapping the same adjacent pair twice changes nothing.
pub proof fn lemma_swap_adjacent_involution<A>(s: Seq<A>, j: int)
    ensures
        swap_adjacent(swap_adjacent(s, j), j) == s,
        swap_adjacent(s, j).len() == s.len(),
{
    assert(swap_adjacent(swap_adjacent(s, j), j) =~= s);
}

/// Swaps keep the length.
pub proof fn lemma_apply_swaps_len<A>(s: Seq<A>, js: Seq<usize>)
    ensures
        apply_swaps(s, js).len() == s.len(),
    decreases js.len(),
{
    if js.len() > 0 {
        lemma_apply_swaps_len(s, js.drop_last());
    }
}

/// Applying a swap first, then the rest.
pub proof fn lemma_apply_swaps_prepend<A>(s: Seq<A>, j: usize, js: Seq<usize>)
    ensures
        apply_swaps(s, seq![j] + js) == apply_swaps(swap_adjacent(s, j as int), js),
    decreases js.len(),
{
    if js.len() == 0 {
        assert((seq![j] + js).drop_last() =~= Seq::<usize>::empty());
        assert(apply_swaps(s, Seq::<usize>::empty()) == s);
    } else {
        assert((seq![j] + js).drop_last() =~= seq![j] + js.drop_last());
        lemma_apply_swaps_prepend(s, j, js.drop_last());
    }
}

/// Applying the swaps of `js` in reverse order undoes them.
pub proof fn lemma_apply_swaps_reverse<A>(s: Seq<A>, js: Seq<usize>)
    ensures
        apply_swaps(apply_swaps(s, js), js.reverse()) == s,
    decreases js.len(),
{
    if js.len() > 0 {
        let j = js.last();
        let rest = js.drop_last();
        assert(js.reverse() =~= seq![j] + rest.reverse());
        lemma_apply_swaps_prepend(apply_swaps(s, js), j, rest.reverse());
        lemma_swap_adjacent_involution(apply_swaps(s, rest), j as int);
        lemma_apply_swaps_reverse(s, rest);
    } else {
        assert(js.reverse() =~= js);
    }
}


/// The adjacent swaps performed when the entries at `idx` are moved one
/// step towards the front: each entry not already packed at the front (at
/// position `k` of `idx` with `idx[k] == k`) is exchanged with its
/// predecessor, in the order of `idx`.  The sequence lists the new positions.
pub open spec fn up_moves(idx: Seq<usize>) -> Seq<usize>
    decreases idx.len(),
{
    if idx.len() == 0 {
        Seq::empty()
    } else {
        let k = idx.len() - 1;
        let prev = up_moves(idx.drop_last());
        if idx[k] == k {
            prev
        } else {
            prev.push((idx[k] - 1) as usize)
        }
    }
}

/// The adjacent swaps performed when the entries at `idx` are moved one
/// step towards the back of a list of `len` entries: each entry not already
/// packed at the back is exchanged with its successor.  The sequence lists
/// the old positions in the order of `idx`; the swaps run last to first.
pub open spec fn down_moves(idx: Seq<usize>, len: int) -> Seq<usize>
    decreases idx.len(),
{
    if idx.len() == 0 {
        Seq::empty()
    } else {
        let rest = down_moves(idx.drop_first(), len);
        if idx[0] + idx.len() == len {
            rest
        } else {
            seq![idx[0]] + rest
        }
    }
}

/// Adds one to every position.
pub open spec fn shift_up(s: Seq<usize>) -> Seq<usize> {
    s.map_values(|j: usize| (j + 1) as usize)
}

/// The positions for which moving towards the front never leaves the list.
pub open spec fn up_in_range(idx: Seq<usize>, len: int) -> bool {
    forall|k: int| 0 <= k < idx.len() ==> idx[k] == k || (1 <= idx[k] < len)
}

/// The positions for which moving towards the back never leaves the list.
pub open spec fn down_in_range(idx: Seq<usize>, len: int) -> bool {
    &&& idx.len() <= len
    &&& forall|k: int| 0 <= k < idx.len() ==> idx[k] + (idx.len() - k) == len || idx[k] + 1 < len
}

/// In a strictly increasing sequence each element is at least its position
/// past the first.
pub proof fn lemma_increasing_lower_bound(s: Seq<usize>)
    requires
        strictly_increasing(s),
    ensures
        forall|k: int| 0 <= k < s.len() ==> s[k] >= k,
        forall|a: int, b: int| 0 <= a <= b < s.len() ==> s[b] >= s[a] + (b - a),
    decreases s.len(),
{
    if s.len() > 0 {
        let t = s.drop_last();
        assert(strictly_increasing(t));
        lemma_increasing_lower_bound(t);
        assert forall|a: int, b: int| 0 <= a <= b < s.len() implies s[b] >= s[a] + (b - a) by {
            if b == s.len() - 1 && a < b {
                assert(t[b - 1] >= t[a] + (b - 1 - a));
                assert(s[b - 1] < s[b]);
            }
        }
        assert forall|k: int| 0 <= k < s.len() implies s[k] >= k by {
            if k == s.len() - 1 && k > 0 {
                assert(t[k - 1] >= k - 1);
                assert(s[k - 1] < s[k]);
            }
        }
    }
}

/// A strictly increasing sequence of positions below `bound` has at most
/// `bound` elements.
pub proof fn lemma_increasing_len(s: Seq<usize>, bound: int)
    requires
        bound >= 0,
        strictly_increasing(s),
        all_below(s, bound),
    ensures
        s.len() <= bound,
{
    lemma_increasing_lower_bound(s);
    if s.len() > 0 {
        assert(s[s.len() - 1] >= s.len() - 1);
        assert(s[s.len() - 1] < bound);
    }
}

/// Positions taken from a strictly increasing, in-range selection can be
/// moved either way without leaving the list.
pub proof fn lemma_selection_in_range(idx: Seq<usize>, len: int)
    requires
        len >= 0,
        strictly_increasing(idx),
        all_below(idx, len),
    ensures
        up_in_range(idx, len),
        down_in_range(idx, len),
{
    lemma_increasing_lower_bound(idx);
    lemma_increasing_len(idx, len);
    let n = idx.len();
    assert forall|k: int| 0 <= k < n implies idx[k] + (n - k) == len || idx[k] + 1 < len by {
        assert(idx[n - 1] >= idx[k] + (n - 1 - k));
    }
}

/// The moves towards the front, from a strictly increasing selection, are
/// strictly increasing and each is below the last selected position.
pub proof fn lemma_up_moves_shape(idx: Seq<usize>)
    requires
        strictly_increasing(idx),
    ensures
        strictly_increasing(up_moves(idx)),
        up_moves(idx).len() <= idx.len(),
        forall|j: int| 0 <= j < up_moves(idx).len() ==> up_moves(idx)[j] + 1 <= idx[idx.len() - 1],
    decreases idx.len(),
{
    if idx.len() > 0 {
        let t = idx.drop_last();
        assert(strictly_increasing(t));
        lemma_up_moves_shape(t);
        lemma_increasing_lower_bound(idx);
        let k = idx.len() - 1;
        if t.len() > 0 {
            assert(t[t.len() - 1] < idx[k]);
        }
        if idx[k] != k {
            let m = up_moves(idx);
            assert(m == up_moves(t).push((idx[k] - 1) as usize));
        }
    }
}

/// The moves towards the back, from a strictly increasing selection, are a
/// strictly increasing run of selected positions.
pub proof fn lemma_down_moves_shape(idx: Seq<usize>, len: int)
    requires
        strictly_increasing(idx),
    ensures
        strictly_increasing(down_moves(idx, len)),
        forall|j: int| 0 <= j < down_moves(idx, len).len() ==> exists|k: int| 0 <= k < idx.len()
            && #[trigger] down_moves(idx, len)[j] == idx[k] && idx[k] + (idx.len() - k) != len,
    decreases idx.len(),
{
    if idx.len() > 0 {
        let t = idx.drop_first();
        assert(strictly_increasing(t));
        lemma_down_moves_shape(t, len);
        let r = down_moves(t, len);
        assert forall|j: int| 0 <= j < r.len() implies idx[0] < #[trigger] r[j] by {
            let k = choose|k: int| 0 <= k < t.len() && r[j] == t[k] && t[k] + (t.len() - k) != len;
            assert(t[k] == idx[k + 1]);
        }
        let d = down_moves(idx, len);
        if idx[0] + idx.len() != len {
            assert(d == seq![idx[0]] + r);
            assert forall|j: int| 0 <= j < d.len() implies exists|k: int| 0 <= k < idx.len()
                && #[trigger] d[j] == idx[k] && idx[k] + (idx.len() - k) != len by {
                if j == 0 {
                    assert(d[0] == idx[0]);
                } else {
                    assert(d[j] == r[j - 1]);
                    let k = choose|k: int| 0 <= k < t.len() && r[j - 1] == t[k] && t[k] + (t.len() - k) != len;
                    assert(t[k] == idx[k + 1]);
                }
            }
        } else {
            assert forall|j: int| 0 <= j < d.len() implies exists|k: int| 0 <= k < idx.len()
                && #[trigger] d[j] == idx[k] && idx[k] + (idx.len() - k) != len by {
                let k = choose|k: int| 0 <= k < t.len() && r[j] == t[k] && t[k] + (t.len() - k) != len;
                assert(t[k] == idx[k + 1]);
            }
        }
    }
}

/// A strictly increasing run of positions all at least two below `len` is
/// never packed at the back, so moving it towards the back swaps every one.
pub proof fn lemma_down_moves_unpacked(m: Seq<usize>, len: int)
    requires
        len >= 0,
        strictly_increasing(m),
        forall|j: int| 0 <= j < m.len() ==> m[j] + 1 < len,
    ensures
        down_moves(m, len) == m,
        down_in_range(m, len),
    decreases m.len(),
{
    lemma_increasing_lower_bound(m);
    if m.len() > 0 {
        let t = m.drop_first();
        assert(strictly_increasing(t));
        lemma_down_moves_unpacked(t, len);
        let n = m.len();
        assert(m[n - 1] >= m[0] + (n - 1));
        assert(m[0] + n != len);
        assert(m =~= seq![m[0]] + t);
        assert(all_below(m, len - 1));
        lemma_increasing_len(m, len - 1);
        assert forall|k: int| 0 <= k < n implies m[k] + (n - k) == len || m[k] + 1 < len by {}
    }
}

/// A strictly increasing run of positions shifted up by one is never packed
/// at the front, so moving it towards the front swaps every one, back at the
/// run itself.
pub proof fn lemma_up_moves_shifted(d: Seq<usize>, len: int)
    requires
        len <= usize::MAX,
        strictly_increasing(d),
        forall|j: int| 0 <= j < d.len() ==> d[j] + 1 < len,
    ensures
        up_moves(shift_up(d)) == d,
        up_in_range(shift_up(d), len),
    decreases d.len(),
{
    lemma_increasing_lower_bound(d);
    if d.len() > 0 {
        let t = d.drop_last();
        assert(strictly_increasing(t));
        lemma_up_moves_shifted(t, len);
        let sd = shift_up(d);
        let k = d.len() - 1;
        assert(sd.drop_last() =~= shift_up(t));
        assert(sd[k] == d[k] + 1);
        assert(d[k] >= k);
        assert(up_moves(sd) == up_moves(sd.drop_last()).push((sd[k] - 1) as usize));
        assert(d =~= t.push(d[k]));
        assert forall|j: int| 0 <= j < sd.len() implies sd[j] == j || (1 <= sd[j] < len) by {
            assert(sd[j] == d[j] + 1);
        }
    } else {
        assert(shift_up(d) =~= Seq::<usize>::empty());
    }
}

/// Moving a strictly increasing, in-range selection towards the front, then
/// moving the reported positions towards the back, restores the list; the
/// second move reports the originally moved positions.
pub proof fn lemma_up_then_down<A>(s: Seq<A>, idx: Seq<usize>)
    requires
        strictly_increasing(idx),
        all_below(idx, s.len() as int),
    ensures
        down_in_range(up_moves(idx), s.len() as int),
        down_moves(up_moves(idx), s.len() as int) == up_moves(idx),
        apply_swaps(apply_swaps(s, up_moves(idx)), down_moves(up_moves(idx), s.len() as int).reverse())
            == s,
{
    let len = s.len() as int;
    let m = up_moves(idx);
    lemma_up_moves_shape(idx);
    if idx.len() > 0 {
        assert(idx[idx.len() - 1] < len);
    }
    assert(forall|j: int| 0 <= j < m.len() ==> m[j] + 1 < len);
    lemma_down_moves_unpacked(m, len);
    lemma_apply_swaps_reverse(s, m);
}

/// Moving a strictly increasing, in-range selection towards the back, then
/// moving the reported positions towards the front, restores the list.
pub proof fn lemma_down_then_up<A>(s: Seq<A>, idx: Seq<usize>)
    requires
        s.len() <= usize::MAX,
        strictly_increasing(idx),
        all_below(idx, s.len() as int),
    ensures
        up_in_range(shift_up(down_moves(idx, s.len() as int)), s.len() as int),
        up_moves(shift_up(down_moves(idx, s.len() as int))) == down_moves(idx, s.len() as int),
        apply_swaps(
            apply_swaps(s, down_moves(idx, s.len() as int).reverse()),
            up_moves(shift_up(down_moves(idx, s.len() as int))),
        ) == s,
{
    let len = s.len() as int;
    let d = down_moves(idx, len);
    lemma_down_moves_shape(idx, len);
    lemma_increasing_lower_bound(idx);
    assert forall|j: int| 0 <= j < d.len() implies d[j] + 1 < len by {
        let n = idx.len();
        let k = choose|k: int| 0 <= k < n && d[j] == idx[k] && idx[k] + (n - k) != len;
        assert(idx[n - 1] >= idx[k] + (n - 1 - k));
        assert(idx[n - 1] < len);
    }
    lemma_up_moves_shifted(d, len);
    lemma_apply_swaps_reverse(s, d.reverse());
    assert(d.reverse().reverse() =~= d);
}


/// The list left after removing the entries at `idx`, last position first.
pub open spec fn remove_from_back<A>(s: Seq<A>, idx: Seq<usize>) -> Seq<A>
    decreases idx.len(),
{
    if idx.len() == 0 {
        s
    } else {
        remove_from_back(s.remove(idx.last() as int), idx.drop_last())
    }
}

/// The entries removed by `remove_from_back`, in the order they were removed.
pub open spec fn removed_from_back<A>(s: Seq<A>, idx: Seq<usize>) -> Seq<A>
    decreases idx.len(),
{
    if idx.len() == 0 {
        Seq::empty()
    } else {
        seq![s[idx.last() as int]] + removed_from_back(s.remove(idx.last() as int), idx.drop_last())
    }
}

/// Inserts `items[k]` at `idx[k]`, first pair first, for as many pairs as
/// both sequences have.
pub open spec fn insert_in_order<A>(s: Seq<A>, idx: Seq<usize>, items: Seq<A>) -> Seq<A>
    decreases idx.len(),
{
    if idx.len() == 0 || items.len() == 0 {
        s
    } else {
        insert_in_order(s.insert(idx[0] as int, items[0]), idx.drop_first(), items.drop_first())
    }
}

/// Removing from the back never leaves the list: the `k`-th position is
/// removed after the `n - 1 - k` later ones.
pub open spec fn removal_in_range(idx: Seq<usize>, len: int) -> bool {
    forall|k: int| 0 <= k < idx.len() ==> idx[k] < len - (idx.len() - 1 - k)
}

/// Inserting in order never leaves the list: the `k`-th insertion happens
/// after `k` earlier ones.
pub open spec fn insertion_in_range(idx: Seq<usize>, count: int, len: int) -> bool {
    forall|k: int| 0 <= k < idx.len() && k < count ==> idx[k] <= len + k
}

/// As many entries are removed as there are positions.
pub proof fn lemma_removed_len<A>(s: Seq<A>, idx: Seq<usize>)
    ensures
        removed_from_back(s, idx).len() == idx.len(),
    decreases idx.len(),
{
    if idx.len() > 0 {
        lemma_removed_len(s.remove(idx.last() as int), idx.drop_last());
    }
}

/// Inserting one more pair at the end of the run.
pub proof fn lemma_insert_in_order_push<A>(s: Seq<A>, idx: Seq<usize>, items: Seq<A>, x: usize, y: A)
    requires
        idx.len() == items.len(),
    ensures
        insert_in_order(s, idx.push(x), items.push(y))
            == insert_in_order(s, idx, items).insert(x as int, y),
    decreases idx.len(),
{
    if idx.len() == 0 {
        assert(idx.push(x).drop_first() =~= Seq::<usize>::empty());
        assert(items.push(y).drop_first() =~= Seq::<A>::empty());
        assert(idx.push(x)[0] == x);
        assert(items.push(y)[0] == y);
        assert(insert_in_order(s.insert(x as int, y), Seq::<usize>::empty(), Seq::<A>::empty())
            == s.insert(x as int, y));
    } else {
        assert(idx.push(x)[0] == idx[0]);
        assert(items.push(y)[0] == items[0]);
        assert(idx.push(x).drop_first() =~= idx.drop_first().push(x));
        assert(items.push(y).drop_first() =~= items.drop_first().push(y));
        lemma_insert_in_order_push(s.insert(idx[0] as int, items[0]), idx.drop_first(), items.drop_first(), x, y);
    }
}

/// A strictly increasing, in-range selection can be removed from the back.
pub proof fn lemma_selection_removable(idx: Seq<usize>, len: int)
    requires
        strictly_increasing(idx),
        all_below(idx, len),
    ensures
        removal_in_range(idx, len),
{
    lemma_increasing_lower_bound(idx);
    let n = idx.len();
    assert forall|k: int| 0 <= k < n implies idx[k] < len - (n - 1 - k) by {
        assert(idx[n - 1] >= idx[k] + (n - 1 - k));
    }
}

/// Removing a strictly increasing, in-range selection from the back, then
/// inserting the removed entries back in the order of the positions,
/// restores the list.
pub proof fn lemma_remove_then_insert<A>(s: Seq<A>, idx: Seq<usize>)
    requires
        strictly_increasing(idx),
        all_below(idx, s.len() as int),
    ensures
        insertion_in_range(idx, idx.len() as int, remove_from_back(s, idx).len() as int),
        insert_in_order(remove_from_back(s, idx), idx, removed_from_back(s, idx).reverse()) == s,
    decreases idx.len(),
{
    lemma_increasing_lower_bound(idx);
    if idx.len() > 0 {
        let x = idx.last();
        let j = idx.drop_last();
        let s2 = s.remove(x as int);
        assert(strictly_increasing(j));
        assert forall|a: int| 0 <= a < j.len() implies j[a] < s2.len() by {
            assert(j[a] < x);
        }
        lemma_remove_then_insert(s2, j);
        let r2 = removed_from_back(s2, j);
        lemma_removed_len(s2, j);
        assert(removed_from_back(s, idx).reverse() =~= r2.reverse().push(s[x as int]));
        assert(idx =~= j.push(x));
        lemma_insert_in_order_push(remove_from_back(s2, j), j, r2.reverse(), x, s[x as int]);
        assert(s2.insert(x as int, s[x as int]) =~= s);
        let rest = remove_from_back(s, idx);
        assert(rest == remove_from_back(s2, j));
        lemma_remove_len(s, idx);
        assert forall|k: int| 0 <= k < idx.len() implies idx[k] <= rest.len() + k by {
            assert(idx[idx.len() - 1] >= idx[k] + (idx.len() - 1 - k));
        }
    }
}

/// Removing from the back shortens the list by one per position.
pub proof fn lemma_remove_len<A>(s: Seq<A>, idx: Seq<usize>)
    requires
        removal_in_range(idx, s.len() as int),
    ensures
        remove_from_back(s, idx).len() == s.len() - idx.len(),
    decreases idx.len(),
{
    if idx.len() > 0 {
        let j = idx.drop_last();
        let s2 = s.remove(idx.last() as int);
        assert forall|k: int| 0 <= k < j.len() implies j[k] < s2.len() - (j.len() - 1 - k) by {
            assert(idx[k] < s.len() - (idx.len() - 1 - k));
        }
        lemma_remove_len(s2, j);
    }
}

} // verus!
