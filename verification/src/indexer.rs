//! A fixed-capacity path of child positions into a folder tree.
use vstd::prelude::*;

verus! {

/// The deepest path an `Indexer` can hold.
pub const INDEXER_CAPACITY: usize = 15;

/// A path of child positions, at most `INDEXER_CAPACITY` long, stored
/// inline.
#[derive(Clone, Copy)]
pub struct Indexer {
    indexes: [usize; 15],
    size: usize,
}

impl View for Indexer {
    type V = Seq<usize>;

    closed spec fn view(&self) -> Seq<usize> {
        self.indexes@.take(self.size as int)
    }
}

impl Indexer {
    /// The stored length never passes the capacity.
    pub closed spec fn wf(&self) -> bool {
        self.size <= INDEXER_CAPACITY
    }

    /// The empty path.
    pub fn new() -> (r: Self)
        ensures
            r.wf(),
            r@ == Seq::<usize>::empty(),
    {
        let r = Indexer { indexes: [0; 15], size: 0 };
        assert(r@ =~= Seq::<usize>::empty());
        r
    }

    /// Appends `i` to the path.
    pub fn push(&mut self, i: usize)
        requires
            old(self).wf(),
            old(self)@.len() < INDEXER_CAPACITY,
        ensures
            final(self).wf(),
            final(self)@ == old(self)@.push(i),
    {
        let ghost before = self@;
        let size = self.size;
        self.indexes[size] = i;
        self.size = size + 1;
        assert(self@ =~= before.push(i));
    }

    /// Puts `i` in front of the path.
    pub fn push_front(&mut self, i: usize)
        requires
            old(self).wf(),
            old(self)@.len() < INDEXER_CAPACITY,
        ensures
            final(self).wf(),
            final(self)@ == seq![i] + old(self)@,
    {
        let ghost before = self@;
        self.size = self.size + 1;
        let mut k = self.size - 1;
        while k > 0
            invariant
                self.size == before.len() + 1,
                self.size <= INDEXER_CAPACITY,
                k < self.size,
                forall|j: int| 0 <= j < k ==> self.indexes@[j] == before[j],
                forall|j: int| k < j < self.size ==> self.indexes@[j] == before[j - 1],
            decreases k,
        {
            self.indexes[k] = self.indexes[k - 1];
            k = k - 1;
        }
        self.indexes[0] = i;
        assert(self@ =~= seq![i] + before);
    }

    /// Whether the path is empty.
    pub fn is_empty(&self) -> (r: bool)
        requires
            self.wf(),
        ensures
            r == (self@.len() == 0),
    {
        self.size == 0
    }

    /// Removes and returns the last position of a non-empty path.
    pub fn pop(&mut self) -> (r: usize)
        requires
            old(self).wf(),
            old(self)@.len() > 0,
        ensures
            final(self).wf(),
            r == old(self)@.last(),
            final(self)@ == old(self)@.drop_last(),
    {
        let ghost before = self@;
        self.size = self.size - 1;
        let r = self.indexes[self.size];
        assert(self@ =~= before.drop_last());
        r
    }
}

/// Pushing to the back then popping gives back the pushed position and the
/// path as it was.
pub proof fn lemma_push_then_pop(path: Seq<usize>, i: usize)
    ensures
        path.push(i).last() == i,
        path.push(i).drop_last() == path,
{
    assert(path.push(i).drop_last() =~= path);
}

} // verus!
