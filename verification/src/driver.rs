//! The search driver: a greedy best-first search with a depth bound.

use vstd::prelude::*;
use crate::frontier::Frontier;
use crate::machine::Machine;
use crate::machine::Phase;
use crate::machine::admissible;
use crate::machine::explored;
use crate::machine::halts;
use crate::machine::lemma_halting_turn_unique;
use crate::machine::lemma_run_sound;
use crate::machine::lemma_solved_at_once;
use crate::machine::run;
use crate::machine::solution;
use crate::machine::step;
use crate::machine::unseen;
use crate::measure::lemma_turn_lowers_weight;
use crate::measure::weight;
use crate::puzzle::Search;
use crate::state::Node;
use crate::state::SearchState;
use crate::state::children;
use crate::visited::Visited;

verus! {

/// One more child was looked at: it joins those that are not visited, or not.
proof fn lemma_unseen_next<T: Search>(kids: Seq<Node<T::V>>, visited: Set<T::V>, j: int)
    requires
        0 <= j < kids.len(),
    ensures
        unseen::<T>(kids.take(j + 1), visited) == if visited.contains(kids[j].latest) {
            unseen::<T>(kids.take(j), visited)
        } else {
            unseen::<T>(kids.take(j), visited).push(kids[j])
        },
{
    reveal(Seq::filter);
    assert(kids.take(j + 1).drop_last() =~= kids.take(j));
}

/// Searches for a solved state from `init_state`. The state with the highest
/// score is expanded first; a state whose history has reached `max_depth` is
/// not expanded. Returns the solved search state that was found first, if
/// there is one, and the number of distinct puzzle states that were expanded.
///
/// The search ends, and what it returns is the outcome of the search machine:
/// the solution is solved, its history is no longer than `max_depth`, and its
/// path leads from `init_state` to its puzzle state. From a solved state the
/// search returns at once, with nothing explored.
pub fn search<T: Search>(init_state: T, max_depth: usize) -> (result: (
    Option<SearchState<T>>,
    usize,
))
    requires
        init_state.inv(),
    ensures
        halts::<T>(init_state@, max_depth),
        match result.0 {
            Some(state) => {
                &&& state.inv()
                &&& solution::<T>(init_state@, max_depth) == Some(state@)
                &&& T::is_end(state@.latest)
                &&& admissible::<T>(init_state@, max_depth, state@)
            },
            None => solution::<T>(init_state@, max_depth) is None,
        },
        result.1 == explored::<T>(init_state@, max_depth),
        T::is_end(init_state@) ==> {
            &&& result.0 matches Some(state)
            &&& state@ == Node::root(init_state@)
            &&& result.1 == 0
        },
{
    let ghost init = init_state@;
    let mut explored: Visited<T> = Visited::new();
    let mut fringe: Frontier<T> = Frontier::new();
    fringe.push(SearchState::from(init_state));
    let ghost mut turns: nat = 0;
    assert(fringe@ =~= seq![Node::root(init)]);
    loop
        invariant
            init == init_state@,
            fringe.inv(),
            explored.inv(),
            run::<T>(init, max_depth, turns) == (Machine {
                frontier: fringe@,
                visited: explored@,
                phase: Phase::Running,
            }),
        decreases weight(fringe@, max_depth),
    {
        let ghost before = run::<T>(init, max_depth, turns);
        let ghost after = step::<T>(before, max_depth);
        proof {
            lemma_run_sound::<T>(init, max_depth, turns);
            assert(run::<T>(init, max_depth, turns + 1) == after);
        }
        match fringe.pop() {
            None => {
                proof {
                    lemma_halting_turn_unique::<T>(init, max_depth, turns + 1);
                    if T::is_end(init) {
                        lemma_solved_at_once::<T>(init, max_depth);
                    }
                }
                return (None, explored.len());
            },
            Some(state) => {
                let ghost node = state@;
                let ghost rest = fringe@;
                if state.latest().end() {
                    proof {
                        lemma_halting_turn_unique::<T>(init, max_depth, turns + 1);
                        if T::is_end(init) {
                            lemma_solved_at_once::<T>(init, max_depth);
                        }
                    }
                    return (Some(state), explored.len());
                } else if state.history().len() < max_depth {
                    let next = state.moves();
                    assert(next.len() <= usize::MAX);
                    explored.insert(state.into_latest());
                    let ghost kids = children::<T>(node);
                    let ghost visited = explored@;
                    assert(unseen::<T>(kids.take(0), visited) =~= Seq::empty()) by {
                        reveal(Seq::filter);
                    }
                    assert(rest + Seq::<Node<T::V>>::empty() =~= rest);
                    for child in it: next
                        invariant
                            it.seq() == next@,
                            next@.len() == kids.len(),
                            kids.len() <= usize::MAX,
                            forall|i: int|
                                0 <= i < next@.len() ==> (#[trigger] next@[i]).inv() && next@[i]@
                                    == kids[i],
                            fringe.inv(),
                            explored.inv(),
                            explored@ == visited,
                            fringe@ == rest + unseen::<T>(kids.take(it.index() as int), visited),
                    {
                        let ghost j = it.index() as int;
                        let ghost sofar = unseen::<T>(kids.take(j), visited);
                        proof {
                            assert(next@[j] == child);
                            lemma_unseen_next::<T>(kids, visited, j);
                        }
                        if !explored.contains(child.latest()) {
                            proof {
                                assert((rest + sofar).push(kids[j]) =~= rest + sofar.push(kids[j]));
                            }
                            fringe.push(child);
                        }
                    }
                    proof {
                        assert(kids.take(kids.len() as int) =~= kids);
                        lemma_turn_lowers_weight::<T>(init, max_depth, before);
                        turns = turns + 1;
                    }
                } else {
                    proof {
                        lemma_turn_lowers_weight::<T>(init, max_depth, before);
                        turns = turns + 1;
                    }
                }
            },
        }
    }
}

} // verus!
