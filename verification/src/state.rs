//! A puzzle state on the frontier: the state itself, the moves that led to it,
//! and its score.

use vstd::prelude::*;
use crate::puzzle::Ordered;
use crate::puzzle::Search;

verus! {

/// The content of a search state, over the content of its puzzle state.
pub struct Node<V> {
    /// The moves that led from the root to the parent of this node, in the
    /// order in which they were taken.
    pub history: Seq<usize>,
    /// The puzzle state of this node.
    pub latest: V,
    /// The move that led from the parent to this node; `None` for the root.
    pub latest_move_index: Option<usize>,
}

impl<V> Node<V> {
    /// The root of a search: no move has been taken.
    pub open spec fn root(v: V) -> Node<V> {
        Node { history: Seq::empty(), latest: v, latest_move_index: None }
    }

    /// All the moves that lead from the root to this node: the history, and
    /// after it the move that produced the node.
    pub open spec fn path(self) -> Seq<usize> {
        match self.latest_move_index {
            Some(id) => self.history.push(id),
            None => self.history,
        }
    }

    /// The node that the transition `step` leads to from this node.
    pub open spec fn child(self, step: (V, usize)) -> Node<V> {
        Node { history: self.path(), latest: step.0, latest_move_index: Some(step.1) }
    }

    /// Only the root is without a move, and the root has no history.
    pub open spec fn well_formed(self) -> bool {
        self.latest_move_index is None ==> self.history.len() == 0
    }
}

/// The nodes that the transitions from `parent` lead to, in the order in which
/// the puzzle lists its moves.
pub open spec fn children<T: Search>(parent: Node<T::V>) -> Seq<Node<T::V>> {
    Seq::new(
        T::successors(parent.latest).len(),
        |i: int| parent.child(T::successors(parent.latest)[i]),
    )
}

/// A puzzle state together with the way that led to it and its score.
pub struct SearchState<T: Search> {
    history: Vec<usize>,
    latest: T,
    latest_move_index: Option<usize>,
    score: T::Score,
}

impl<T: Search> View for SearchState<T> {
    type V = Node<T::V>;

    closed spec fn view(&self) -> Node<T::V> {
        Node {
            history: self.history@,
            latest: self.latest@,
            latest_move_index: self.latest_move_index,
        }
    }
}

impl<T: Search> SearchState<T> {
    /// The puzzle state is valid, the stored score is the score of the puzzle
    /// state, and the node is well formed.
    pub closed spec fn inv(&self) -> bool {
        &&& self.latest.inv()
        &&& self.score.rank() == T::score_of(self.latest@)
        &&& self@.well_formed()
    }

    /// The rank of the stored score.
    pub closed spec fn rank(&self) -> int {
        self.score.rank()
    }

    /// The stored score is the one of the puzzle state.
    pub proof fn lemma_rank(&self)
        requires
            self.inv(),
        ensures
            self.rank() == T::score_of(self@.latest),
            self@.well_formed(),
    {
    }

    /// The root of a search from `value`: an empty history and no move.
    pub fn from(value: T) -> (state: Self)
        requires
            value.inv(),
        ensures
            state.inv(),
            state@ == Node::root(value@),
    {
        let score = value.score();
        SearchState { history: Vec::new(), latest: value, latest_move_index: None, score }
    }

    /// The moves before the one that produced this state.
    pub fn history(&self) -> (h: &Vec<usize>)
        ensures
            h@ == self@.history,
    {
        &self.history
    }

    /// The puzzle state.
    pub fn latest(&self) -> (p: &T)
        ensures
            p@ == self@.latest,
            self.inv() ==> p.inv(),
    {
        &self.latest
    }

    /// Gives up the search state for its puzzle state.
    pub fn into_latest(self) -> (p: T)
        ensures
            p@ == self@.latest,
            self.inv() ==> p.inv(),
    {
        self.latest
    }

    /// The move that produced this state, if it is not the root.
    pub fn latest_move_index(&self) -> (m: Option<usize>)
        ensures
            m == self@.latest_move_index,
    {
        self.latest_move_index
    }

    /// The score of the puzzle state.
    pub fn score(&self) -> (s: &T::Score)
        ensures
            s.rank() == self.rank(),
    {
        &self.score
    }

    /// Whether this state leaves the frontier before `other`: whether its
    /// score is the better one. The frontier orders search states by their
    /// score alone.
    pub fn outranks(&self, other: &Self) -> (b: bool)
        ensures
            b == (self.rank() > other.rank()),
    {
        self.score.exceeds(&other.score)
    }

    /// All the moves from the root to this state.
    pub fn path(&self) -> (p: Vec<usize>)
        ensures
            p@ == self@.path(),
    {
        let mut p = self.history.clone();
        match self.latest_move_index {
            Some(id) => p.push(id),
            None => (),
        }
        p
    }

    /// The search states that the moves of the puzzle state lead to. Each has
    /// as its history the path of this state, and the move's identifier as the
    /// move that produced it.
    pub fn moves(&self) -> (next: Vec<Self>)
        requires
            self.inv(),
        ensures
            next@.len() == children::<T>(self@).len(),
            forall|i: int|
                0 <= i < next@.len() ==> (#[trigger] next@[i]).inv() && next@[i]@ == children::<T>(
                    self@,
                )[i],
    {
        let new_history = self.path();
        let steps = self.latest.moves();
        let ghost succ = T::successors(self.latest@);
        let mut next: Vec<Self> = Vec::new();
        for step in it: steps
            invariant
                it.seq() == steps@,
                steps@.len() == succ.len(),
                succ == T::successors(self@.latest),
                new_history@ == self@.path(),
                forall|i: int|
                    0 <= i < steps@.len() ==> {
                        &&& (#[trigger] steps@[i]).0.inv()
                        &&& steps@[i].0@ == succ[i].0
                        &&& steps@[i].1 == succ[i].1
                    },
                next@.len() == it.index(),
                forall|i: int|
                    0 <= i < next@.len() ==> (#[trigger] next@[i]).inv() && next@[i]@
                        == self@.child(succ[i]),
        {
            let (new_move, move_index) = step;
            let score = new_move.score();
            let state = SearchState {
                history: new_history.clone(),
                latest: new_move,
                latest_move_index: Some(move_index),
                score,
            };
            next.push(state);
        }
        next
    }
}

} // verus!
