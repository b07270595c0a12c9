//! What a puzzle has to offer so that the search driver can work on it.

use vstd::prelude::*;

verus! {

/// A score that the frontier can order. The order is the one of `rank`: of two
/// scores the one with the larger rank is the better.
pub trait Ordered: Sized {
    /// The place of the score in the order.
    spec fn rank(&self) -> int;

    /// Whether `self` is strictly better than `other`.
    fn exceeds(&self, other: &Self) -> (r: bool)
        ensures
            r == (self.rank() > other.rank()),
    ;
}

impl Ordered for usize {
    open spec fn rank(&self) -> int {
        *self as int
    }

    fn exceeds(&self, other: &Self) -> (r: bool) {
        *self > *other
    }
}

/// A puzzle state that can be searched. The view of a state is its content:
/// score, end test and moves are functions of the view alone, so two states
/// with the same view are interchangeable for the search.
pub trait Search: View + Sized {
    /// The heuristic value of a state; a higher score is closer to solved.
    type Score: Ordered;

    /// The representation invariant of a state.
    spec fn inv(&self) -> bool;

    /// The rank of the score of a state with content `v`.
    spec fn score_of(v: Self::V) -> int;

    /// Whether a state with content `v` is solved.
    spec fn is_end(v: Self::V) -> bool;

    /// The legal transitions from a state with content `v`, each with the
    /// identifier of its move.
    spec fn successors(v: Self::V) -> Seq<(Self::V, usize)>;

    /// No move leaves the state as it is.
    proof fn moves_change_state(v: Self::V, i: int)
        requires
            0 <= i < Self::successors(v).len(),
        ensures
            Self::successors(v)[i].0 != v,
    ;

    /// The score of the state.
    fn score(&self) -> (s: Self::Score)
        requires
            self.inv(),
        ensures
            s.rank() == Self::score_of(self@),
    ;

    /// Whether the state is solved.
    fn end(&self) -> (b: bool)
        requires
            self.inv(),
        ensures
            b == Self::is_end(self@),
    ;

    /// The states that the legal transitions lead to, each with the
    /// identifier of its move. There are finitely many, and none of them is
    /// the state itself.
    fn moves(&self) -> (m: Vec<(Self, usize)>)
        requires
            self.inv(),
        ensures
            m@.len() == Self::successors(self@).len(),
            forall|i: int|
                0 <= i < m@.len() ==> {
                    &&& (#[trigger] m@[i]).0.inv()
                    &&& m@[i].0@ == Self::successors(self@)[i].0
                    &&& m@[i].1 == Self::successors(self@)[i].1
                },
    ;

    /// Whether two states have the same content.
    fn same(&self, other: &Self) -> (b: bool)
        requires
            self.inv(),
            other.inv(),
        ensures
            b == (self@ == other@),
    ;
}

} // verus!
