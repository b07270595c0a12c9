//! Why a search ends: a measure on the frontier that falls with every turn.

use vstd::prelude::*;
use crate::machine::Machine;
use crate::machine::admissible;
use crate::machine::best;
use crate::machine::halts;
use crate::machine::halts_at;
use crate::machine::lemma_best_exists;
use crate::machine::lemma_run_sound;
use crate::machine::run;
use crate::machine::sound;
use crate::machine::step;
use crate::machine::unseen;
use crate::puzzle::Search;
use crate::replay::reaches;
use crate::state::Node;
use crate::state::children;

verus! {

/// The number of moves that may still follow the path of `node` before a node
/// is too deep to be expanded.
pub open spec fn room<V>(node: Node<V>, max_depth: usize) -> nat {
    if node.path().len() <= max_depth + 1 {
        (max_depth + 1 - node.path().len()) as nat
    } else {
        0
    }
}

/// More than the number of nodes that a node with `room` moves left can ever
/// bring onto the frontier, itself included, if no node has more than
/// `usize::MAX` children.
pub open spec fn tower(room: nat) -> nat
    decreases room,
{
    if room == 0 {
        1
    } else {
        (usize::MAX as nat + 1) * tower((room - 1) as nat)
    }
}

/// The measure of a frontier: the sum of the towers of its nodes.
pub open spec fn weight<V>(frontier: Seq<Node<V>>, max_depth: usize) -> nat
    decreases frontier.len(),
{
    if frontier.len() == 0 {
        0
    } else {
        weight(frontier.drop_last(), max_depth) + tower(room(frontier.last(), max_depth))
    }
}

/// No state that can be reached from `init` has more than `usize::MAX` moves.
pub open spec fn branching_bounded<T: Search>(init: T::V) -> bool {
    forall|p: Seq<usize>, v: T::V| #[trigger]
        reaches::<T>(init, p, v) ==> T::successors(v).len() <= usize::MAX
}

proof fn lemma_tower_positive(room: nat)
    ensures
        tower(room) >= 1,
    decreases room,
{
    if room > 0 {
        lemma_tower_positive((room - 1) as nat);
        assert((usize::MAX as nat + 1) * tower((room - 1) as nat) >= 1) by (nonlinear_arith)
            requires
                tower((room - 1) as nat) >= 1,
        ;
    }
}

proof fn lemma_weight_push<V>(frontier: Seq<Node<V>>, node: Node<V>, max_depth: usize)
    ensures
        weight(frontier.push(node), max_depth) == weight(frontier, max_depth) + tower(
            room(node, max_depth),
        ),
{
    assert(frontier.push(node).drop_last() =~= frontier);
}

proof fn lemma_weight_remove<V>(frontier: Seq<Node<V>>, i: int, max_depth: usize)
    requires
        0 <= i < frontier.len(),
    ensures
        weight(frontier.remove(i), max_depth) + tower(room(frontier[i], max_depth)) == weight(
            frontier,
            max_depth,
        ),
    decreases frontier.len(),
{
    if i == frontier.len() - 1 {
        assert(frontier.remove(i) =~= frontier.drop_last());
    } else {
        lemma_weight_remove(frontier.drop_last(), i, max_depth);
        assert(frontier.remove(i) =~= frontier.drop_last().remove(i).push(frontier.last()));
        lemma_weight_push(frontier.drop_last().remove(i), frontier.last(), max_depth);
    }
}

/// Nodes with the same room, of which some join a frontier, add to its weight
/// at most their number times their tower.
proof fn lemma_weight_joined<T: Search>(
    rest: Seq<Node<T::V>>,
    kids: Seq<Node<T::V>>,
    visited: Set<T::V>,
    max_depth: usize,
    child_room: nat,
)
    requires
        forall|i: int| 0 <= i < kids.len() ==> room(#[trigger] kids[i], max_depth) == child_room,
    ensures
        weight(rest + unseen::<T>(kids, visited), max_depth) <= weight(rest, max_depth) + kids.len()
            * tower(child_room),
    decreases kids.len(),
{
    reveal(Seq::filter);
    if kids.len() == 0 {
        assert(rest + unseen::<T>(kids, visited) =~= rest);
        assert(kids.len() * tower(child_room) == 0) by (nonlinear_arith)
            requires
                kids.len() == 0,
        ;
    } else {
        let before = kids.drop_last();
        let joined = unseen::<T>(before, visited);
        lemma_weight_joined::<T>(rest, before, visited, max_depth, child_room);
        assert(kids.len() * tower(child_room) == before.len() * tower(child_room) + tower(
            child_room,
        )) by (nonlinear_arith)
            requires
                kids.len() == before.len() + 1,
        ;
        if !visited.contains(kids.last().latest) {
            assert(rest + joined.push(kids.last()) =~= (rest + joined).push(kids.last()));
            lemma_weight_push(rest + joined, kids.last(), max_depth);
        }
    }
}

/// Whether a turn of the search `m` expands the node that it takes.
pub open spec fn expands<T: Search>(m: Machine<T::V>, max_depth: usize) -> bool {
    let node = m.frontier[best::<T>(m.frontier)];
    m.phase is Running && m.frontier.len() > 0 && !T::is_end(node.latest) && node.history.len()
        < max_depth
}

/// A turn of a running search lowers the weight of the frontier, if the node
/// that it expands has no more than `usize::MAX` children.
pub proof fn lemma_turn_lowers_weight<T: Search>(init: T::V, max_depth: usize, m: Machine<T::V>)
    requires
        sound::<T>(init, max_depth, m),
        m.phase is Running,
        m.frontier.len() > 0,
        expands::<T>(m, max_depth) ==> T::successors(
            m.frontier[best::<T>(m.frontier)].latest,
        ).len() <= usize::MAX,
    ensures
        weight(step::<T>(m, max_depth).frontier, max_depth) < weight(m.frontier, max_depth),
{
    lemma_best_exists::<T>(m.frontier);
    let b = best::<T>(m.frontier);
    let node = m.frontier[b];
    let rest = m.frontier.remove(b);
    assert(admissible::<T>(init, max_depth, node));
    lemma_weight_remove(m.frontier, b, max_depth);
    lemma_tower_positive(room(node, max_depth));
    if !T::is_end(node.latest) && node.history.len() < max_depth {
        let visited = m.visited.insert(node.latest);
        let kids = children::<T>(node);
        let child_room = (room(node, max_depth) - 1) as nat;
        lemma_weight_joined::<T>(rest, kids, visited, max_depth, child_room);
        lemma_tower_positive(child_room);
        let t = tower(child_room);
        assert(kids.len() * t < (usize::MAX as nat + 1) * t) by (nonlinear_arith)
            requires
                kids.len() <= usize::MAX,
                t >= 1,
        ;
    }
}

/// A running search with bounded branching ends at a later turn.
proof fn lemma_ends_after<T: Search>(init: T::V, max_depth: usize, n: nat) -> (k: nat)
    requires
        branching_bounded::<T>(init),
        run::<T>(init, max_depth, n).phase is Running,
    ensures
        halts_at::<T>(init, max_depth, k),
    decreases weight(run::<T>(init, max_depth, n).frontier, max_depth),
{
    let m = run::<T>(init, max_depth, n);
    let next = run::<T>(init, max_depth, n + 1);
    assert(next == step::<T>(m, max_depth));
    lemma_run_sound::<T>(init, max_depth, n);
    if m.frontier.len() > 0 {
        lemma_best_exists::<T>(m.frontier);
        let node = m.frontier[best::<T>(m.frontier)];
        assert(admissible::<T>(init, max_depth, node));
        lemma_turn_lowers_weight::<T>(init, max_depth, m);
    }
    if next.phase is Running {
        lemma_ends_after::<T>(init, max_depth, n + 1)
    } else {
        n + 1
    }
}

/// A search ends, if no state that can be reached from the initial state has
/// more than `usize::MAX` moves.
pub proof fn lemma_search_halts<T: Search>(init: T::V, max_depth: usize)
    requires
        branching_bounded::<T>(init),
    ensures
        halts::<T>(init, max_depth),
{
    let k = lemma_ends_after::<T>(init, max_depth, 0);
}

} // verus!
