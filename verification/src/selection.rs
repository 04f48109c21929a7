//! Single selection over a vector of members that each know whether they
//! are selected.
use vstd::prelude::*;
use vstd::std_specs::cmp::PartialEqSpec;

verus! {

/// A member of a vector in which at most one member is meant to be
/// selected at a time.
pub trait SelectableMember: Sized + Eq {
    /// Whether the member is selected.
    spec fn selected_spec(&self) -> bool;

    /// Marks the member as selected or not.
    fn set_selected(&mut self, selected: bool)
        ensures
            final(self).selected_spec() == selected,
    ;

    /// Whether the member is selected.
    fn is_selected(&self) -> (r: bool)
        ensures
            r == self.selected_spec(),
    ;
}

/// Selection over a vector of members.
pub trait SelectableVecExt {
    type Member: SelectableMember;

    /// The members.
    spec fn members(&self) -> Seq<Self::Member>;

    /// Selects the member at `index` and deselects all others (all of them
    /// when `index` is `None`).
    fn set_selected_idx(&mut self, index: Option<usize>)
        ensures
            final(self).members().len() == old(self).members().len(),
            forall|j: int|
                0 <= j < old(self).members().len() ==> (#[trigger] final(self).members()[j]).selected_spec()
                    == (index == Some(j as usize)),
    ;

    /// Selects the members equal to `item` and deselects all others (all of
    /// them when `item` is `None`).
    fn set_selected(&mut self, item: Option<&Self::Member>)
        ensures
            final(self).members().len() == old(self).members().len(),
            forall|j: int|
                0 <= j < old(self).members().len() ==> (#[trigger] final(self).members()[j]).selected_spec()
                    == match item {
                    Some(x) => if Self::Member::obeys_eq_spec() {
                        old(self).members()[j].eq_spec(x)
                    } else {
                        final(self).members()[j].selected_spec()
                    },
                    None => false,
                },
    ;

    /// The position of the first selected member.
    fn get_selected_index(&self) -> (r: Option<usize>)
        ensures
            match r {
                Some(i) => i < self.members().len() && self.members()[i as int].selected_spec() && forall|
                    j: int,
                | 0 <= j < i ==> !(#[trigger] self.members()[j]).selected_spec(),
                None => forall|j: int|
                    0 <= j < self.members().len() ==> !(#[trigger] self.members()[j]).selected_spec(),
            },
    ;

    /// The first selected member.
    fn get_selected(&self) -> (r: Option<&Self::Member>)
        ensures
            match r {
                Some(m) => exists|i: int|
                    0 <= i < self.members().len() && *m == self.members()[i] && m.selected_spec() && forall|
                        j: int,
                    | 0 <= j < i ==> !(#[trigger] self.members()[j]).selected_spec(),
                None => forall|j: int|
                    0 <= j < self.members().len() ==> !(#[trigger] self.members()[j]).selected_spec(),
            },
    ;

    /// The first selected member, for changing it in place.
    fn get_selected_mut(&mut self) -> (r: Option<&mut Self::Member>)
        ensures
            match r {
                Some(m) => exists|i: int|
                    0 <= i < old(self).members().len() && *m == old(self).members()[i]
                        && m.selected_spec() && (forall|j: int|
                        0 <= j < i ==> !(#[trigger] old(self).members()[j]).selected_spec())
                        && final(self).members() == old(self).members().update(i, *final(m)),
                None => final(self).members() == old(self).members() && forall|j: int|
                    0 <= j < old(self).members().len() ==> !(#[trigger] old(self).members()[j]).selected_spec(),
            },
    ;
}

impl<T: SelectableMember> SelectableVecExt for Vec<T> {
    type Member = T;

    open spec fn members(&self) -> Seq<T> {
        self@
    }

    fn set_selected_idx(&mut self, index: Option<usize>) {
        let n = self.len();
        let mut i: usize = 0;
        while i < n
            invariant
                n == self@.len(),
                n == old(self)@.len(),
                i <= n,
                forall|j: int| 0 <= j < i ==> (#[trigger] self@[j]).selected_spec() == (index == Some(j as usize)),
            decreases n - i,
        {
            let on = match index {
                Some(k) => k == i,
                None => false,
            };
            self[i].set_selected(on);
            i = i + 1;
        }
    }

    fn set_selected(&mut self, item: Option<&T>) {
        let n = self.len();
        let mut i: usize = 0;
        while i < n
            invariant
                n == self@.len(),
                n == old(self)@.len(),
                i <= n,
                forall|j: int| i <= j < n ==> self@[j] == old(self)@[j],
                forall|j: int|
                    0 <= j < i ==> (#[trigger] self@[j]).selected_spec() == match item {
                        Some(x) => if T::obeys_eq_spec() {
                            old(self)@[j].eq_spec(x)
                        } else {
                            self@[j].selected_spec()
                        },
                        None => false,
                    },
            decreases n - i,
        {
            let same = match item {
                Some(x) => self[i].eq(x),
                None => false,
            };
            self[i].set_selected(same);
            i = i + 1;
        }
    }

    fn get_selected_index(&self) -> (r: Option<usize>) {
        let n = self.len();
        let mut i: usize = 0;
        while i < n
            invariant
                n == self@.len(),
                i <= n,
                forall|j: int| 0 <= j < i ==> !(#[trigger] self@[j]).selected_spec(),
            decreases n - i,
        {
            if self[i].is_selected() {
                return Some(i);
            }
            i = i + 1;
        }
        None
    }

    fn get_selected(&self) -> (r: Option<&T>) {
        match self.get_selected_index() {
            Some(i) => Some(&self[i]),
            None => None,
        }
    }

    fn get_selected_mut(&mut self) -> (r: Option<&mut T>) {
        match self.get_selected_index() {
            Some(i) => Some(&mut self[i]),
            None => None,
        }
    }
}

} // verus!
