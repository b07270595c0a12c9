//! The search as a state machine over the contents of puzzle states. The
//! driver runs this machine; what it returns is stated here.

use vstd::prelude::*;
use crate::puzzle::Search;
use crate::replay::follows;
use crate::replay::is_move;
use crate::replay::last_or;
use crate::replay::lemma_reaches_extend;
use crate::replay::lemma_replay_ends_where_path_leads;
use crate::replay::reaches;
use crate::replay::replay_end;
use crate::replay::unambiguous;
use crate::state::Node;
use crate::state::children;

verus! {

/// Where a search stands: still running, ended with a solved state, or ended
/// because nothing was left to expand.
pub enum Phase<V> {
    Running,
    Solved(Node<V>),
    Exhausted,
}

/// The state of a search.
#[verifier::reject_recursive_types(V)]
pub struct Machine<V> {
    /// The nodes that wait to be expanded, in the order in which they were
    /// added.
    pub frontier: Seq<Node<V>>,
    /// The puzzle states that were expanded.
    pub visited: Set<V>,
    pub phase: Phase<V>,
}

/// `b` is the place of the node that is taken from the frontier next: no node
/// has a higher score, and every node before it has a lower one.
pub open spec fn is_best<T: Search>(frontier: Seq<Node<T::V>>, b: int) -> bool {
    &&& 0 <= b < frontier.len()
    &&& forall|j: int|
        #![trigger frontier[j]]
        0 <= j < frontier.len() ==> T::score_of(frontier[j].latest) <= T::score_of(
            frontier[b].latest,
        )
    &&& forall|j: int|
        #![trigger frontier[j]]
        0 <= j < b ==> T::score_of(frontier[j].latest) < T::score_of(frontier[b].latest)
}

/// The place of the node that is taken from a frontier that is not empty.
pub open spec fn best<T: Search>(frontier: Seq<Node<T::V>>) -> int {
    choose|b: int| is_best::<T>(frontier, b)
}

/// Of `nodes`, in their order, those whose puzzle state is not in `visited`.
pub open spec fn unseen<T: Search>(nodes: Seq<Node<T::V>>, visited: Set<T::V>) -> Seq<
    Node<T::V>,
> {
    nodes.filter(|n: Node<T::V>| !visited.contains(n.latest))
}

/// One turn of the search. The best node leaves the frontier. If its puzzle
/// state is solved the search ends with it. Otherwise, if its history is
/// shorter than `max_depth`, its puzzle state joins the visited states and
/// those of its children whose puzzle state is not visited join the frontier;
/// if not, it is dropped. With an empty frontier the search ends without a
/// solution.
pub open spec fn step<T: Search>(m: Machine<T::V>, max_depth: usize) -> Machine<T::V> {
    if !(m.phase is Running) {
        m
    } else if m.frontier.len() == 0 {
        Machine { frontier: m.frontier, visited: m.visited, phase: Phase::Exhausted }
    } else {
        let b = best::<T>(m.frontier);
        let node = m.frontier[b];
        let rest = m.frontier.remove(b);
        if T::is_end(node.latest) {
            Machine { frontier: rest, visited: m.visited, phase: Phase::Solved(node) }
        } else if node.history.len() < max_depth {
            let visited = m.visited.insert(node.latest);
            Machine {
                frontier: rest + unseen::<T>(children::<T>(node), visited),
                visited,
                phase: Phase::Running,
            }
        } else {
            Machine { frontier: rest, visited: m.visited, phase: Phase::Running }
        }
    }
}

/// The search before its first turn: the root alone on the frontier, nothing
/// visited.
pub open spec fn start<T: Search>(init: T::V) -> Machine<T::V> {
    Machine { frontier: seq![Node::root(init)], visited: Set::empty(), phase: Phase::Running }
}

/// The search from `init` after `n` turns.
pub open spec fn run<T: Search>(init: T::V, max_depth: usize, n: nat) -> Machine<T::V>
    decreases n,
{
    if n == 0 {
        start::<T>(init)
    } else {
        step::<T>(run::<T>(init, max_depth, (n - 1) as nat), max_depth)
    }
}

/// The search from `init` ends with its `n`-th turn.
pub open spec fn halts_at<T: Search>(init: T::V, max_depth: usize, n: nat) -> bool {
    &&& n > 0
    &&& run::<T>(init, max_depth, (n - 1) as nat).phase is Running
    &&& !(run::<T>(init, max_depth, n).phase is Running)
}

/// The search from `init` ends.
pub open spec fn halts<T: Search>(init: T::V, max_depth: usize) -> bool {
    exists|n: nat| halts_at::<T>(init, max_depth, n)
}

/// The state in which the search from `init` ends.
pub open spec fn outcome<T: Search>(init: T::V, max_depth: usize) -> Machine<T::V> {
    run::<T>(init, max_depth, choose|n: nat| halts_at::<T>(init, max_depth, n))
}

/// The solved node that the search from `init` ends with, if it ends with one.
pub open spec fn solution<T: Search>(init: T::V, max_depth: usize) -> Option<Node<T::V>> {
    match outcome::<T>(init, max_depth).phase {
        Phase::Solved(node) => Some(node),
        _ => None,
    }
}

/// The number of puzzle states that the search from `init` has expanded when
/// it ends.
pub open spec fn explored<T: Search>(init: T::V, max_depth: usize) -> nat {
    outcome::<T>(init, max_depth).visited.len()
}

/// Only one place of a frontier is the best.
pub proof fn lemma_best_unique<T: Search>(frontier: Seq<Node<T::V>>, b: int)
    requires
        is_best::<T>(frontier, b),
    ensures
        best::<T>(frontier) == b,
{
    let c = best::<T>(frontier);
    assert(is_best::<T>(frontier, c));
    let _ = frontier[b];
    let _ = frontier[c];
}

/// A frontier that is not empty has a best place.
pub proof fn lemma_best_exists<T: Search>(frontier: Seq<Node<T::V>>)
    requires
        frontier.len() > 0,
    ensures
        is_best::<T>(frontier, best::<T>(frontier)),
{
    let b = lemma_best_of_first::<T>(frontier, frontier.len() as int);
    assert(is_best::<T>(frontier, b));
}

proof fn lemma_best_of_first<T: Search>(frontier: Seq<Node<T::V>>, n: int) -> (b: int)
    requires
        1 <= n <= frontier.len(),
    ensures
        0 <= b < n,
        forall|j: int|
            #![trigger frontier[j]]
            0 <= j < n ==> T::score_of(frontier[j].latest) <= T::score_of(frontier[b].latest),
        forall|j: int|
            #![trigger frontier[j]]
            0 <= j < b ==> T::score_of(frontier[j].latest) < T::score_of(frontier[b].latest),
    decreases n,
{
    if n == 1 {
        0
    } else {
        let p = lemma_best_of_first::<T>(frontier, n - 1);
        if T::score_of(frontier[n - 1].latest) > T::score_of(frontier[p].latest) {
            n - 1
        } else {
            p
        }
    }
}

/// What holds of every node that a search from `init` meets: it is well
/// formed, its history is no longer than the depth bound, and its path leads
/// from `init` to its puzzle state.
pub open spec fn admissible<T: Search>(init: T::V, max_depth: usize, node: Node<T::V>) -> bool {
    &&& node.well_formed()
    &&& node.history.len() <= max_depth
    &&& reaches::<T>(init, node.path(), node.latest)
}

/// What holds of a search from `init` at every turn: each node on the
/// frontier is admissible; a solution is admissible and solved; the visited
/// states are finitely many, and none of them is solved.
pub open spec fn sound<T: Search>(init: T::V, max_depth: usize, m: Machine<T::V>) -> bool {
    &&& forall|i: int|
        0 <= i < m.frontier.len() ==> admissible::<T>(init, max_depth, #[trigger] m.frontier[i])
    &&& m.phase matches Phase::Solved(node) ==> admissible::<T>(init, max_depth, node)
        && T::is_end(node.latest)
    &&& m.visited.finite()
    &&& forall|v: T::V| #[trigger] m.visited.contains(v) ==> !T::is_end(v)
}

/// The children of an admissible node that is expanded are admissible.
pub proof fn lemma_children_admissible<T: Search>(
    init: T::V,
    max_depth: usize,
    node: Node<T::V>,
    i: int,
)
    requires
        admissible::<T>(init, max_depth, node),
        node.history.len() < max_depth,
        0 <= i < children::<T>(node).len(),
    ensures
        admissible::<T>(init, max_depth, children::<T>(node)[i]),
{
    let succ = T::successors(node.latest);
    let c = children::<T>(node)[i];
    assert(is_move::<T>(node.latest, succ[i].1, succ[i].0));
    lemma_reaches_extend::<T>(init, node.path(), node.latest, succ[i].1, succ[i].0);
    assert(c.path() =~= node.path().push(succ[i].1));
}

/// A turn keeps a sound search sound.
pub proof fn lemma_step_sound<T: Search>(init: T::V, max_depth: usize, m: Machine<T::V>)
    requires
        sound::<T>(init, max_depth, m),
    ensures
        sound::<T>(init, max_depth, step::<T>(m, max_depth)),
{
    if m.phase is Running && m.frontier.len() > 0 {
        lemma_best_exists::<T>(m.frontier);
        let b = best::<T>(m.frontier);
        let node = m.frontier[b];
        let rest = m.frontier.remove(b);
        let next = step::<T>(m, max_depth);
        assert forall|i: int| 0 <= i < rest.len() implies admissible::<T>(
            init,
            max_depth,
            #[trigger] rest[i],
        ) by {
            if i < b {
                assert(rest[i] == m.frontier[i]);
            } else {
                assert(rest[i] == m.frontier[i + 1]);
            }
        }
        if !T::is_end(node.latest) && node.history.len() < max_depth {
            let visited = m.visited.insert(node.latest);
            let kids = children::<T>(node);
            let added = unseen::<T>(kids, visited);
            assert forall|i: int| 0 <= i < next.frontier.len() implies admissible::<T>(
                init,
                max_depth,
                #[trigger] next.frontier[i],
            ) by {
                if i < rest.len() {
                    assert(next.frontier[i] == rest[i]);
                } else {
                    let c = added[i - rest.len()];
                    assert(next.frontier[i] == c);
                    assert(added.contains(c));
                    kids.lemma_filter_contains_rev(
                        |n: Node<T::V>| !visited.contains(n.latest),
                        c,
                    );
                    let k = choose|k: int| 0 <= k < kids.len() && kids[k] == c;
                    lemma_children_admissible::<T>(init, max_depth, node, k);
                }
            }
        }
    }
}

/// A node that a turn adds to the frontier has a puzzle state that is not
/// visited when it is added.
pub proof fn lemma_step_adds_unvisited<T: Search>(m: Machine<T::V>, max_depth: usize, i: int)
    requires
        m.phase is Running,
        m.frontier.len() > 0,
        m.frontier.len() - 1 <= i < step::<T>(m, max_depth).frontier.len(),
    ensures
        !step::<T>(m, max_depth).visited.contains(step::<T>(m, max_depth).frontier[i].latest),
{
    lemma_best_exists::<T>(m.frontier);
    let b = best::<T>(m.frontier);
    let node = m.frontier[b];
    let rest = m.frontier.remove(b);
    if !T::is_end(node.latest) && node.history.len() < max_depth {
        let visited = m.visited.insert(node.latest);
        let kids = children::<T>(node);
        kids.lemma_filter_pred(|n: Node<T::V>| !visited.contains(n.latest), i - rest.len());
    }
}

/// A search is sound at every turn.
pub proof fn lemma_run_sound<T: Search>(init: T::V, max_depth: usize, n: nat)
    ensures
        sound::<T>(init, max_depth, run::<T>(init, max_depth, n)),
    decreases n,
{
    if n == 0 {
        let root = Node::root(init);
        let none = Seq::<T::V>::empty();
        assert(follows::<T>(init, root.path(), none) && last_or(none, init) == init);
    } else {
        lemma_run_sound::<T>(init, max_depth, (n - 1) as nat);
        lemma_step_sound::<T>(init, max_depth, run::<T>(init, max_depth, (n - 1) as nat));
    }
}

/// A search that has ended stays as it is.
pub proof fn lemma_ended_stays<T: Search>(init: T::V, max_depth: usize, n: nat, later: nat)
    requires
        n <= later,
        !(run::<T>(init, max_depth, n).phase is Running),
    ensures
        run::<T>(init, max_depth, later) == run::<T>(init, max_depth, n),
    decreases later,
{
    if n < later {
        lemma_ended_stays::<T>(init, max_depth, n, (later - 1) as nat);
    }
}

/// A search ends at most once: the turn with which it ends, its solution and
/// the number of states it has explored are determined by the initial state
/// and the depth bound.
pub proof fn lemma_halting_turn_unique<T: Search>(init: T::V, max_depth: usize, n: nat)
    requires
        halts_at::<T>(init, max_depth, n),
    ensures
        halts::<T>(init, max_depth),
        forall|k: nat| halts_at::<T>(init, max_depth, k) ==> k == n,
        outcome::<T>(init, max_depth) == run::<T>(init, max_depth, n),
{
    assert forall|k: nat| halts_at::<T>(init, max_depth, k) implies k == n by {
        if k < n {
            lemma_ended_stays::<T>(init, max_depth, k, (n - 1) as nat);
        } else if n < k {
            lemma_ended_stays::<T>(init, max_depth, n, (k - 1) as nat);
        }
    }
}

/// A search from a solved state ends with its first turn: the root is the
/// solution, and nothing was explored.
pub proof fn lemma_solved_at_once<T: Search>(init: T::V, max_depth: usize)
    requires
        T::is_end(init),
    ensures
        halts_at::<T>(init, max_depth, 1),
        solution::<T>(init, max_depth) == Some(Node::root(init)),
        explored::<T>(init, max_depth) == 0,
{
    let m = start::<T>(init);
    assert(is_best::<T>(m.frontier, 0));
    lemma_best_unique::<T>(m.frontier, 0);
    assert(run::<T>(init, max_depth, 0) == m);
    assert(run::<T>(init, max_depth, 1) == step::<T>(m, max_depth)) by {
        reveal_with_fuel(run, 2);
    }
    lemma_halting_turn_unique::<T>(init, max_depth, 1);
}

/// The outcome of a search is sound. So the solution of a search is solved,
/// its history is no longer than the depth bound, and its path leads from the
/// initial state to its puzzle state; and none of the explored states is
/// solved.
pub proof fn lemma_outcome_sound<T: Search>(init: T::V, max_depth: usize)
    ensures
        sound::<T>(init, max_depth, outcome::<T>(init, max_depth)),
        solution::<T>(init, max_depth) matches Some(node) ==> {
            &&& T::is_end(node.latest)
            &&& admissible::<T>(init, max_depth, node)
        },
{
    let n = choose|n: nat| halts_at::<T>(init, max_depth, n);
    lemma_run_sound::<T>(init, max_depth, n);
}

/// A replay of the path of a solution from the initial state ends in the
/// puzzle state of the solution, if at every state that can be reached from
/// the initial state the moves that share an identifier lead to the same
/// state.
pub proof fn lemma_solution_replays<T: Search>(init: T::V, max_depth: usize)
    requires
        forall|p: Seq<usize>, v: T::V| #[trigger] reaches::<T>(init, p, v) ==> unambiguous::<T>(v),
    ensures
        solution::<T>(init, max_depth) matches Some(node) ==> replay_end::<T>(
            init,
            node.path(),
        ) == Some(node.latest),
{
    lemma_outcome_sound::<T>(init, max_depth);
    match solution::<T>(init, max_depth) {
        Some(node) => {
            lemma_replay_ends_where_path_leads::<T>(init, node.path(), node.latest);
        },
        None => {},
    }
}

} // verus!
