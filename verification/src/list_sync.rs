//! Keeping a stored table of list positions in step with a list: which
//! rows go, which are rewritten, and which entries are new.
use vstd::prelude::*;

verus! {

/// One change to the stored table, or to the record of one entry.
#[derive(Clone, Copy, PartialEq, Eq, Debug)]
pub enum SyncStep {
    /// The entry is no longer listed: its row and its record go.
    Remove { id: u128 },
    /// The entry moved: its row now holds the new position.
    Reindex { id: u128, index: u64 },
    /// The entry is still listed: its record is written again.
    Refresh { id: u128, index: u64 },
    /// The entry is new: a row with its position and a record are added.
    Insert { id: u128, index: u64 },
}

/// The table that a list of rows makes.
pub open spec fn rows_map(rows: Seq<(u128, u64)>) -> Map<u128, u64>
    decreases rows.len(),
{
    if rows.len() == 0 {
        Map::empty()
    } else {
        rows_map(rows.drop_last()).insert(rows.last().0, rows.last().1)
    }
}

/// Rows with distinct keys.
pub open spec fn distinct_keys(rows: Seq<(u128, u64)>) -> bool {
    forall|a: int, b: int| 0 <= a < b < rows.len() ==> rows[a].0 != rows[b].0
}

/// The position of the last occurrence of `id`.
pub open spec fn last_index(ids: Seq<u128>, id: u128) -> int
    decreases ids.len(),
{
    if ids.len() == 0 {
        -1
    } else if ids.last() == id {
        ids.len() - 1
    } else {
        last_index(ids.drop_last(), id)
    }
}

/// Position `i` holds the last occurrence of its entry.
pub open spec fn is_last(ids: Seq<u128>, i: int) -> bool {
    forall|j: int| i < j < ids.len() ==> ids[j] != ids[i]
}

/// The table the list should leave: each listed entry at the position of
/// its last occurrence.
pub open spec fn desired_map(ids: Seq<u128>) -> Map<u128, u64> {
    Map::new(|id: u128| ids.contains(id), |id: u128| last_index(ids, id) as u64)
}

/// The table after one step.
pub open spec fn apply_step(m: Map<u128, u64>, s: SyncStep) -> Map<u128, u64> {
    match s {
        SyncStep::Remove { id } => m.remove(id),
        SyncStep::Reindex { id, index } => m.insert(id, index),
        SyncStep::Refresh { .. } => m,
        SyncStep::Insert { id, index } => m.insert(id, index),
    }
}

/// The table after the steps, in order.
pub open spec fn apply_steps(m: Map<u128, u64>, steps: Seq<SyncStep>) -> Map<u128, u64>
    decreases steps.len(),
{
    if steps.len() == 0 {
        m
    } else {
        apply_step(apply_steps(m, steps.drop_last()), steps.last())
    }
}

/// The last occurrence found by position is the one `last_index` names.
pub proof fn lemma_last_index(ids: Seq<u128>, i: int)
    requires
        0 <= i < ids.len(),
        is_last(ids, i),
    ensures
        last_index(ids, ids[i]) == i,
    decreases ids.len(),
{
    if i < ids.len() - 1 {
        assert(ids.last() != ids[i]);
        let init = ids.drop_last();
        assert(init[i] == ids[i]);
        lemma_last_index(init, i);
    }
}

/// A listed entry has a last occurrence, and it is where `last_index`
/// points.
pub proof fn lemma_last_index_found(ids: Seq<u128>, id: u128)
    requires
        ids.contains(id),
    ensures
        0 <= last_index(ids, id) < ids.len(),
        ids[last_index(ids, id)] == id,
        is_last(ids, last_index(ids, id)),
    decreases ids.len(),
{
    if ids.last() != id {
        let init = ids.drop_last();
        let w = choose|w: int| 0 <= w < ids.len() && ids[w] == id;
        assert(init[w] == id);
        lemma_last_index_found(init, id);
        let li = last_index(init, id);
        assert forall|j: int| li < j < ids.len() implies ids[j] != ids[li] by {
            if j < ids.len() - 1 {
                assert(ids[j] == init[j]);
            }
        };
    }
}

/// Reading the rows of the table: the position stored for `id`.
fn stored_index(stored: &Vec<(u128, u64)>, id: u128) -> (r: Option<u64>)
    requires
        distinct_keys(stored@),
    ensures
        match r {
            Some(v) => rows_map(stored@).contains_key(id) && rows_map(stored@)[id] == v,
            None => !rows_map(stored@).contains_key(id),
        },
{
    let mut k: usize = 0;
    while k < stored.len()
        invariant
            k <= stored@.len(),
            distinct_keys(stored@),
            forall|a: int| 0 <= a < k ==> stored@[a].0 != id,
        decreases stored.len() - k,
    {
        if stored[k].0 == id {
            proof {
                lemma_rows_map_at(stored@, k as int);
            }
            return Some(stored[k].1);
        }
        k = k + 1;
    }
    proof {
        lemma_rows_map_absent(stored@, id);
    }
    None
}

/// A row of distinct-key rows is what the table holds for its key.
pub proof fn lemma_rows_map_at(rows: Seq<(u128, u64)>, k: int)
    requires
        distinct_keys(rows),
        0 <= k < rows.len(),
    ensures
        rows_map(rows).contains_key(rows[k].0),
        rows_map(rows)[rows[k].0] == rows[k].1,
    decreases rows.len(),
{
    let init = rows.drop_last();
    if k < rows.len() - 1 {
        assert(init[k] == rows[k]);
        assert(rows.last().0 != rows[k].0);
        lemma_rows_map_at(init, k);
    }
}

/// The table holds exactly the keys of its rows.
pub proof fn lemma_rows_map_absent(rows: Seq<(u128, u64)>, id: u128)
    requires
        forall|a: int| 0 <= a < rows.len() ==> rows[a].0 != id,
    ensures
        !rows_map(rows).contains_key(id),
    decreases rows.len(),
{
    if rows.len() > 0 {
        let init = rows.drop_last();
        assert(forall|a: int| 0 <= a < init.len() ==> init[a] == rows[a]);
        lemma_rows_map_absent(init, id);
    }
}

/// The keys of the table are the keys of its rows.
pub proof fn lemma_rows_map_keys(rows: Seq<(u128, u64)>, id: u128)
    requires
        rows_map(rows).contains_key(id),
    ensures
        exists|a: int| 0 <= a < rows.len() && rows[a].0 == id,
    decreases rows.len(),
{
    if rows.len() > 0 && rows.last().0 != id {
        let init = rows.drop_last();
        lemma_rows_map_keys(init, id);
        let a = choose|a: int| 0 <= a < init.len() && init[a].0 == id;
        assert(rows[a] == init[a]);
    }
}

/// Whether `id` is listed.
fn listed(ids: &Vec<u128>, id: u128) -> (r: bool)
    ensures
        r == ids@.contains(id),
{
    let mut k: usize = 0;
    while k < ids.len()
        invariant
            k <= ids@.len(),
            forall|a: int| 0 <= a < k ==> ids@[a] != id,
        decreases ids.len() - k,
    {
        if ids[k] == id {
            return true;
        }
        k = k + 1;
    }
    false
}

/// Whether the entry at position `i` occurs again later in the list.
fn occurs_later(ids: &Vec<u128>, i: usize) -> (r: bool)
    requires
        i < ids@.len(),
    ensures
        r == !is_last(ids@, i as int),
{
    let n = ids.len();
    let mut k: usize = i;
    k = k + 1;
    while k < ids.len()
        invariant
            i < k <= ids@.len(),
            forall|j: int| i < j < k ==> ids@[j] != ids@[i as int],
        decreases ids.len() - k,
    {
        if ids[k] == ids[i] {
            return true;
        }
        k = k + 1;
    }
    false
}

/// The table once the entries at positions before `i` were written:
/// listed entries whose last occurrence comes before `i` stand at that
/// position; the other listed entries keep their stored row, if any.
pub open spec fn partial_map(ids: Seq<u128>, base: Map<u128, u64>, i: int) -> Map<u128, u64> {
    Map::new(
        |id: u128| ids.contains(id) && (last_index(ids, id) < i || base.contains_key(id)),
        |id: u128|
            if last_index(ids, id) < i {
                last_index(ids, id) as u64
            } else {
                base[id]
            },
    )
}

/// The steps that bring the stored table `stored` in line with the list of
/// entries `desired`: rows of entries no longer listed go, with their
/// records; every listed entry, once, at the position of its last
/// occurrence, has its row rewritten when the position changed and its
/// record refreshed, or, when it has no row yet, is inserted.
pub fn plan_list_sync(desired: &Vec<u128>, stored: &Vec<(u128, u64)>) -> (steps: Vec<SyncStep>)
    requires
        desired@.len() <= u64::MAX,
        distinct_keys(stored@),
    ensures
        apply_steps(rows_map(stored@), steps@) == desired_map(desired@),
        forall|id: u128|
            #![trigger steps@.contains(SyncStep::Remove { id })]
            steps@.contains(SyncStep::Remove { id }) <==> (rows_map(stored@).contains_key(id)
                && !desired@.contains(id)),
        forall|i: int|
            0 <= i < desired@.len() && is_last(desired@, i) ==> {
                let id = desired@[i];
                &&& rows_map(stored@).contains_key(id) ==> steps@.contains(
                    SyncStep::Refresh { id, index: i as u64 },
                )
                &&& !rows_map(stored@).contains_key(id) ==> steps@.contains(
                    SyncStep::Insert { id, index: i as u64 },
                )
            },
{
    let mut steps: Vec<SyncStep> = Vec::new();
    let ghost base = rows_map(stored@);
    let mut k: usize = 0;
    while k < stored.len()
        invariant
            k <= stored@.len(),
            base == rows_map(stored@),
            distinct_keys(stored@),
            apply_steps(base, steps@) == base.restrict(
                Set::new(|id: u128| desired@.contains(id) || forall|a: int| 0 <= a < k ==> stored@[a].0 != id),
            ),
            forall|s: SyncStep| #[trigger] steps@.contains(s) ==> s is Remove,
            forall|id: u128|
                #![trigger steps@.contains(SyncStep::Remove { id })]
                steps@.contains(SyncStep::Remove { id }) <==> (exists|a: int|
                    0 <= a < k && stored@[a].0 == id) && !desired@.contains(id),
        decreases stored.len() - k,
    {
        let id = stored[k].0;
        let ghost before = steps@;
        if !listed(desired, id) {
            steps.push(SyncStep::Remove { id });
            proof {
                assert(steps@.drop_last() == before);
            }
        }
        proof {
            assert(apply_steps(base, steps@) =~= base.restrict(
                Set::new(|x: u128| desired@.contains(x) || forall|a: int| 0 <= a < k + 1 ==> stored@[a].0 != x),
            ));
            assert forall|s: SyncStep| #[trigger] steps@.contains(s) implies s is Remove by {
                if !before.contains(s) {
                    assert(s == steps@.last());
                }
            };
            assert forall|x: u128|
                #![trigger steps@.contains(SyncStep::Remove { id: x })]
                steps@.contains(SyncStep::Remove { id: x }) <==> (exists|a: int|
                    0 <= a < k + 1 && stored@[a].0 == x) && !desired@.contains(x) by {
                if steps@.contains(SyncStep::Remove { id: x }) && !before.contains(SyncStep::Remove { id: x }) {
                    assert(steps@.last() == SyncStep::Remove { id: x });
                }
                if (exists|a: int| 0 <= a < k + 1 && stored@[a].0 == x) && !desired@.contains(x) {
                    let a = choose|a: int| 0 <= a < k + 1 && stored@[a].0 == x;
                    if a == k {
                        assert(steps@.last() == SyncStep::Remove { id: x });
                    } else {
                        assert(before.contains(SyncStep::Remove { id: x }));
                        let w = choose|w: int| 0 <= w < before.len() && before[w] == SyncStep::Remove { id: x };
                        assert(steps@[w] == before[w]);
                    }
                }
                if before.contains(SyncStep::Remove { id: x }) {
                    let w = choose|w: int| 0 <= w < before.len() && before[w] == SyncStep::Remove { id: x };
                    assert(steps@[w] == before[w]);
                }
            };
        }
        k = k + 1;
    }
    proof {
        assert forall|id: u128|
            #![trigger steps@.contains(SyncStep::Remove { id })]
            steps@.contains(SyncStep::Remove { id }) <==> (base.contains_key(id) && !desired@.contains(id)) by {
            if base.contains_key(id) {
                lemma_rows_map_keys(stored@, id);
            }
            if exists|a: int| 0 <= a < stored@.len() && stored@[a].0 == id {
                let a = choose|a: int| 0 <= a < stored@.len() && stored@[a].0 == id;
                lemma_rows_map_at(stored@, a);
            }
        };
        assert forall|id: u128| base.contains_key(id) implies (desired@.contains(id) || forall|a: int|
            0 <= a < stored@.len() ==> stored@[a].0 != id) == desired@.contains(id) by {
            lemma_rows_map_keys(stored@, id);
        };
        assert forall|id: u128| desired@.contains(id) implies last_index(desired@, id) >= 0 by {
            lemma_last_index_found(desired@, id);
        };
        assert(apply_steps(base, steps@) =~= partial_map(desired@, base, 0));
    }
    let n = desired.len();
    let mut i: usize = 0;
    while i < n
        invariant
            n == desired@.len(),
            n <= u64::MAX,
            i <= n,
            base == rows_map(stored@),
            distinct_keys(stored@),
            apply_steps(base, steps@) == partial_map(desired@, base, i as int),
            forall|id: u128|
                #![trigger steps@.contains(SyncStep::Remove { id })]
                steps@.contains(SyncStep::Remove { id }) <==> (base.contains_key(id) && !desired@.contains(id)),
            forall|j: int|
                0 <= j < i && is_last(desired@, j) ==> {
                    let id = desired@[j];
                    &&& base.contains_key(id) ==> steps@.contains(SyncStep::Refresh { id, index: j as u64 })
                    &&& !base.contains_key(id) ==> steps@.contains(SyncStep::Insert { id, index: j as u64 })
                },
        decreases n - i,
    {
        let id = desired[i];
        let ghost before = steps@;
        let ghost m0 = apply_steps(base, before);
        if occurs_later(desired, i) {
            proof {
                assert forall|x: u128| desired@.contains(x) implies last_index(desired@, x) != i by {
                    lemma_last_index_found(desired@, x);
                };
                assert(partial_map(desired@, base, i + 1) =~= partial_map(desired@, base, i as int));
            }
        } else {
            proof {
                lemma_last_index(desired@, i as int);
                assert(desired@.contains(id));
            }
            let idx = i as u64;
            match stored_index(stored, id) {
                Some(v) => {
                    if v != idx {
                        steps.push(SyncStep::Reindex { id, index: idx });
                    }
                    steps.push(SyncStep::Refresh { id, index: idx });
                },
                None => {
                    steps.push(SyncStep::Insert { id, index: idx });
                },
            }
            proof {
                assert(steps@.take(before.len() as int) =~= before);
                lemma_apply_pushed(base, before, steps@);
                assert forall|x: u128| desired@.contains(x) && x != id implies last_index(desired@, x) != i by {
                    lemma_last_index_found(desired@, x);
                };
                assert(apply_steps(base, steps@) =~= m0.insert(id, idx));
                assert(partial_map(desired@, base, i + 1) =~= m0.insert(id, idx));
                assert(steps@.last() == SyncStep::Refresh { id, index: idx } || steps@.last() == SyncStep::Insert {
                    id,
                    index: idx,
                });
            }
        }
        proof {
            assert forall|x: u128|
                #![trigger steps@.contains(SyncStep::Remove { id: x })]
                steps@.contains(SyncStep::Remove { id: x }) <==> (base.contains_key(x) && !desired@.contains(x)) by {
                if steps@.contains(SyncStep::Remove { id: x }) {
                    let w = choose|w: int| 0 <= w < steps@.len() && steps@[w] == SyncStep::Remove { id: x };
                    if w >= before.len() {
                        assert(false);
                    } else {
                        assert(before[w] == steps@[w]);
                    }
                }
                if before.contains(SyncStep::Remove { id: x }) {
                    let w = choose|w: int| 0 <= w < before.len() && before[w] == SyncStep::Remove { id: x };
                    assert(steps@[w] == before[w]);
                }
            };
            assert forall|j: int|
                0 <= j < i + 1 && is_last(desired@, j) implies {
                let x = desired@[j];
                &&& base.contains_key(x) ==> steps@.contains(SyncStep::Refresh { id: x, index: j as u64 })
                &&& !base.contains_key(x) ==> steps@.contains(SyncStep::Insert { id: x, index: j as u64 })
            } by {
                let x = desired@[j];
                if j < i {
                    if base.contains_key(x) {
                        let w = choose|w: int| 0 <= w < before.len() && before[w] == SyncStep::Refresh { id: x, index: j as u64 };
                        assert(steps@[w] == before[w]);
                    } else {
                        let w = choose|w: int| 0 <= w < before.len() && before[w] == SyncStep::Insert { id: x, index: j as u64 };
                        assert(steps@[w] == before[w]);
                    }
                } else {
                    assert(steps@[steps@.len() - 1] == steps@.last());
                }
            };
        }
        i = i + 1;
    }
    proof {
        assert forall|x: u128| desired@.contains(x) implies last_index(desired@, x) < n by {
            lemma_last_index_found(desired@, x);
        };
        assert(partial_map(desired@, base, n as int) =~= desired_map(desired@));
    }
    steps
}

/// The table after steps pushed onto others is the table after the first
/// ones, then the pushed ones.
pub proof fn lemma_apply_pushed(m: Map<u128, u64>, before: Seq<SyncStep>, after: Seq<SyncStep>)
    requires
        after.len() >= before.len(),
        after.len() <= before.len() + 2,
        after.take(before.len() as int) == before,
    ensures
        after.len() == before.len() + 1 ==> apply_steps(m, after) == apply_step(apply_steps(m, before), after.last()),
        after.len() == before.len() + 2 ==> apply_steps(m, after) == apply_step(
            apply_step(apply_steps(m, before), after[before.len() as int]),
            after.last(),
        ),
{
    if after.len() == before.len() + 1 {
        assert(after.drop_last() =~= before);
    } else if after.len() == before.len() + 2 {
        assert(after.drop_last().drop_last() =~= before);
        assert(after.drop_last().last() == after[before.len() as int]);
        assert(apply_steps(m, after.drop_last()) == apply_step(
            apply_steps(m, after.drop_last().drop_last()),
            after.drop_last().last(),
        ));
    }
}

} // verus!
