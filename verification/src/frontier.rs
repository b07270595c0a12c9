//! The frontier of a search: the search states that wait to be expanded. The
//! state with the highest score leaves first; of several with that score, the
//! one that was added first.

use vstd::prelude::*;
use crate::machine::best;
use crate::machine::is_best;
use crate::machine::lemma_best_unique;
use crate::puzzle::Search;
use crate::state::Node;
use crate::state::SearchState;

verus! {

pub struct Frontier<T: Search> {
    entries: Vec<SearchState<T>>,
}

impl<T: Search> View for Frontier<T> {
    type V = Seq<Node<T::V>>;

    /// The nodes on the frontier, in the order in which they were added.
    closed spec fn view(&self) -> Seq<Node<T::V>> {
        self.entries@.map_values(|s: SearchState<T>| s@)
    }
}

impl<T: Search> Frontier<T> {
    /// Every search state on the frontier is valid.
    pub closed spec fn inv(&self) -> bool {
        forall|i: int| 0 <= i < self.entries@.len() ==> (#[trigger] self.entries@[i]).inv()
    }

    pub fn new() -> (f: Self)
        ensures
            f.inv(),
            f@ == Seq::<Node<T::V>>::empty(),
    {
        Frontier { entries: Vec::new() }
    }

    pub fn len(&self) -> (n: usize)
        ensures
            n == self@.len(),
    {
        self.entries.len()
    }

    /// Adds `state` behind the states that are on the frontier.
    pub fn push(&mut self, state: SearchState<T>)
        requires
            old(self).inv(),
            state.inv(),
        ensures
            final(self).inv(),
            final(self)@ == old(self)@.push(state@),
    {
        self.entries.push(state);
    }

    /// Takes the best state from the frontier: `None` if and only if the
    /// frontier is empty.
    pub fn pop(&mut self) -> (r: Option<SearchState<T>>)
        requires
            old(self).inv(),
        ensures
            final(self).inv(),
            old(self)@.len() == 0 ==> r is None && final(self)@ == old(self)@,
            old(self)@.len() > 0 ==> {
                &&& r matches Some(s)
                &&& s.inv()
                &&& is_best::<T>(old(self)@, best::<T>(old(self)@))
                &&& s@ == old(self)@[best::<T>(old(self)@)]
                &&& final(self)@ == old(self)@.remove(best::<T>(old(self)@))
            },
    {
        let n = self.entries.len();
        if n == 0 {
            return None;
        }
        let mut b: usize = 0;
        let mut i: usize = 1;
        while i < n
            invariant
                1 <= i <= n,
                n == self.entries@.len(),
                b < i,
                self.inv(),
                *self == *old(self),
                forall|j: int|
                    0 <= j < i ==> (#[trigger] self.entries@[j]).rank() <= self.entries@[b as int].rank(),
                forall|j: int|
                    0 <= j < b ==> (#[trigger] self.entries@[j]).rank() < self.entries@[b as int].rank(),
            decreases n - i,
        {
            if self.entries[i].outranks(&self.entries[b]) {
                b = i;
            }
            i += 1;
        }
        proof {
            let frontier = self@;
            assert forall|j: int| 0 <= j < frontier.len() implies T::score_of(
                (#[trigger] frontier[j]).latest,
            ) == self.entries@[j].rank() by {
                self.entries@[j].lemma_rank();
            }
            assert(is_best::<T>(frontier, b as int));
            lemma_best_unique::<T>(frontier, b as int);
        }
        let s = self.entries.remove(b);
        assert(self@ =~= old(self)@.remove(b as int));
        Some(s)
    }
}

} // verus!
