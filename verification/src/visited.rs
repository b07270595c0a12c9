//! The puzzle states that a search has expanded.

use vstd::prelude::*;
use crate::puzzle::Search;

verus! {

pub struct Visited<T: Search> {
    seen: Vec<T>,
}

impl<T: Search> View for Visited<T> {
    type V = Set<T::V>;

    /// The contents of the states that were inserted.
    closed spec fn view(&self) -> Set<T::V> {
        self.contents().to_set()
    }
}

impl<T: Search> Visited<T> {
    /// The contents of the stored states, in the order of insertion.
    pub closed spec fn contents(&self) -> Seq<T::V> {
        self.seen@.map_values(|t: T| t@)
    }

    /// Every stored state is valid, and no content is stored twice.
    pub closed spec fn inv(&self) -> bool {
        &&& forall|i: int| 0 <= i < self.seen@.len() ==> (#[trigger] self.seen@[i]).inv()
        &&& self.contents().no_duplicates()
    }

    pub fn new() -> (v: Self)
        ensures
            v.inv(),
            v@ == Set::<T::V>::empty(),
    {
        let v = Visited { seen: Vec::new() };
        assert(v@ =~= Set::<T::V>::empty());
        v
    }

    /// The number of distinct contents that were inserted.
    pub fn len(&self) -> (n: usize)
        requires
            self.inv(),
        ensures
            self@.finite(),
            n == self@.len(),
    {
        proof {
            self.contents().unique_seq_to_set();
        }
        self.seen.len()
    }

    /// Whether a state with the content of `state` was inserted.
    pub fn contains(&self, state: &T) -> (b: bool)
        requires
            self.inv(),
            state.inv(),
        ensures
            b == self@.contains(state@),
    {
        let n = self.seen.len();
        let mut i: usize = 0;
        while i < n
            invariant
                i <= n,
                n == self.seen@.len(),
                self.inv(),
                state.inv(),
                forall|j: int| 0 <= j < i ==> (#[trigger] self.contents()[j]) != state@,
            decreases n - i,
        {
            if self.seen[i].same(state) {
                assert(self.contents()[i as int] == state@);
                return true;
            }
            i += 1;
        }
        false
    }

    /// Inserts `state`, unless a state with its content was inserted before.
    /// Returns whether the content is new.
    pub fn insert(&mut self, state: T) -> (added: bool)
        requires
            old(self).inv(),
            state.inv(),
        ensures
            final(self).inv(),
            final(self)@ == old(self)@.insert(state@),
            added == !old(self)@.contains(state@),
    {
        if self.contains(&state) {
            assert(self@ =~= old(self)@.insert(state@));
            false
        } else {
            let ghost before = self.contents();
            self.seen.push(state);
            proof {
                assert(self.contents() =~= before.push(state@));
                assert forall|v: T::V| self@.contains(v) <==> old(self)@.insert(state@).contains(
                    v,
                ) by {
                    if before.contains(v) {
                        let j = choose|j: int| 0 <= j < before.len() && before[j] == v;
                        assert(self.contents()[j] == v);
                    }
                    if v == state@ {
                        assert(self.contents()[before.len() as int] == v);
                    }
                }
                assert(self@ =~= old(self)@.insert(state@));
            }
            true
        }
    }
}

} // verus!
