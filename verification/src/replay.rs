//! Replaying a sequence of move identifiers from an initial state.

use vstd::prelude::*;
use crate::puzzle::Search;

verus! {

/// `k` is the place of the first of `steps` with the identifier `id`.
pub open spec fn is_first_match<V>(steps: Seq<(V, usize)>, id: usize, k: int) -> bool {
    &&& 0 <= k < steps.len()
    &&& steps[k].1 == id
    &&& forall|j: int| 0 <= j < k ==> (#[trigger] steps[j]).1 != id
}

/// Some one of `steps` has the identifier `id`.
pub open spec fn has_match<V>(steps: Seq<(V, usize)>, id: usize) -> bool {
    exists|k: int| 0 <= k < steps.len() && (#[trigger] steps[k]).1 == id
}

/// The state that the move `id` leads to from `v`: of the transitions from `v`,
/// the first with that identifier. `None` if there is none.
pub open spec fn advance<T: Search>(v: T::V, id: usize) -> Option<T::V> {
    let steps = T::successors(v);
    if has_match(steps, id) {
        Some(steps[choose|k: int| is_first_match(steps, id, k)].0)
    } else {
        None
    }
}

/// The last of `states`, or `from` if there is none.
pub open spec fn last_or<V>(states: Seq<V>, from: V) -> V {
    if states.len() == 0 {
        from
    } else {
        states.last()
    }
}

/// The states that the moves of `history` lead through from `from`, one for
/// each move. `None` if one of the moves is not among the moves of the state
/// that it is to be taken from.
pub open spec fn replayed<T: Search>(from: T::V, history: Seq<usize>) -> Option<Seq<T::V>>
    decreases history.len(),
{
    if history.len() == 0 {
        Some(Seq::empty())
    } else {
        match replayed::<T>(from, history.drop_last()) {
            None => None,
            Some(states) => match advance::<T>(last_or(states, from), history.last()) {
                None => None,
                Some(next) => Some(states.push(next)),
            },
        }
    }
}

/// The state in which a replay of `history` from `from` ends.
pub open spec fn replay_end<T: Search>(from: T::V, history: Seq<usize>) -> Option<T::V> {
    match replayed::<T>(from, history) {
        None => None,
        Some(states) => Some(last_or(states, from)),
    }
}

/// The move `id` can lead from `from` to `to`.
pub open spec fn is_move<T: Search>(from: T::V, id: usize, to: T::V) -> bool {
    exists|k: int| 0 <= k < T::successors(from).len() && #[trigger] T::successors(from)[k] == (to, id)
}

/// The state before the `k`-th move of a way from `from` through `states`.
pub open spec fn state_before<V>(from: V, states: Seq<V>, k: int) -> V {
    if k == 0 {
        from
    } else {
        states[k - 1]
    }
}

/// The moves of `path`, taken one after the other from `from`, can lead
/// through `states`, one state for each move.
pub open spec fn follows<T: Search>(from: T::V, path: Seq<usize>, states: Seq<T::V>) -> bool {
    &&& states.len() == path.len()
    &&& forall|k: int|
        0 <= k < path.len() ==> is_move::<T>(
            state_before(from, states, k),
            path[k],
            #[trigger] states[k],
        )
}

/// The moves of `path`, taken one after the other, can lead from `from` to
/// `to`.
pub open spec fn reaches<T: Search>(from: T::V, path: Seq<usize>, to: T::V) -> bool {
    exists|states: Seq<T::V>| #[trigger]
        follows::<T>(from, path, states) && last_or(states, from) == to
}

/// The moves from `v` that share an identifier lead to the same state.
pub open spec fn unambiguous<T: Search>(v: T::V) -> bool {
    let steps = T::successors(v);
    forall|j: int, k: int|
        0 <= j < steps.len() && 0 <= k < steps.len() && (#[trigger] steps[j]).1 == (
        #[trigger] steps[k]).1 ==> steps[j].0 == steps[k].0
}

/// The first match is the only place that is one.
pub proof fn lemma_first_match_unique<V>(steps: Seq<(V, usize)>, id: usize, k: int)
    requires
        is_first_match(steps, id, k),
    ensures
        has_match(steps, id),
        (choose|k: int| is_first_match(steps, id, k)) == k,
{
    let c = choose|c: int| is_first_match(steps, id, c);
    assert(is_first_match(steps, id, c));
    let _ = steps[k];
    let _ = steps[c];
}

/// Among matching transitions there is a first.
proof fn lemma_first_match_exists<V>(steps: Seq<(V, usize)>, id: usize, k: int) -> (f: int)
    requires
        0 <= k < steps.len(),
        steps[k].1 == id,
    ensures
        is_first_match(steps, id, f),
        f <= k,
    decreases k,
{
    if exists|j: int| 0 <= j < k && (#[trigger] steps[j]).1 == id {
        let j = choose|j: int| 0 <= j < k && (#[trigger] steps[j]).1 == id;
        lemma_first_match_exists(steps, id, j)
    } else {
        k
    }
}

/// Where the moves that share an identifier lead to the same state, a move
/// that can lead from `from` to `to` is the one that replay takes.
pub proof fn lemma_advance_takes_move<T: Search>(from: T::V, id: usize, to: T::V)
    requires
        is_move::<T>(from, id, to),
        unambiguous::<T>(from),
    ensures
        advance::<T>(from, id) == Some(to),
{
    let steps = T::successors(from);
    let k = choose|k: int| 0 <= k < steps.len() && #[trigger] steps[k] == (to, id);
    let f = lemma_first_match_exists(steps, id, k);
    lemma_first_match_unique(steps, id, f);
    let _ = steps[f];
}

/// A replay of a path leads through the states that the path leads through,
/// if at each of them the moves that share an identifier lead to the same
/// state.
pub proof fn lemma_replay_follows_path<T: Search>(from: T::V, path: Seq<usize>, states: Seq<T::V>)
    requires
        follows::<T>(from, path, states),
        forall|k: int|
            0 <= k < path.len() ==> unambiguous::<T>(#[trigger] state_before(from, states, k)),
    ensures
        replayed::<T>(from, path) == Some(states),
    decreases path.len(),
{
    if path.len() > 0 {
        let n = path.len() - 1;
        let shorter = states.drop_last();
        assert forall|k: int| 0 <= k < n implies is_move::<T>(
            state_before(from, shorter, k),
            path.drop_last()[k],
            #[trigger] shorter[k],
        ) by {
            assert(state_before(from, shorter, k) == state_before(from, states, k));
            let _ = states[k];
        }
        assert forall|k: int| 0 <= k < n implies unambiguous::<T>(
            #[trigger] state_before(from, shorter, k),
        ) by {
            assert(state_before(from, shorter, k) == state_before(from, states, k));
        }
        lemma_replay_follows_path::<T>(from, path.drop_last(), shorter);
        assert(last_or(shorter, from) == state_before(from, states, n));
        let _ = states[n];
        lemma_advance_takes_move::<T>(state_before(from, states, n), path.last(), states[n]);
        assert(shorter.push(states[n]) =~= states);
    } else {
        assert(states =~= Seq::empty());
    }
}

/// A way from `from` stays one when its last move is left out.
pub proof fn lemma_follows_prefix<T: Search>(
    from: T::V,
    path: Seq<usize>,
    states: Seq<T::V>,
    n: int,
)
    requires
        follows::<T>(from, path, states),
        0 <= n <= path.len(),
    ensures
        follows::<T>(from, path.take(n), states.take(n)),
        reaches::<T>(from, path.take(n), state_before(from, states, n)),
{
    assert forall|k: int| 0 <= k < n implies is_move::<T>(
        state_before(from, states.take(n), k),
        path.take(n)[k],
        #[trigger] states.take(n)[k],
    ) by {
        assert(state_before(from, states.take(n), k) == state_before(from, states, k));
        let _ = states[k];
    }
    assert(last_or(states.take(n), from) == state_before(from, states, n));
}

/// A way from `from` to `mid` and a move from `mid` to `to` make a way from
/// `from` to `to`.
pub proof fn lemma_reaches_extend<T: Search>(
    from: T::V,
    path: Seq<usize>,
    mid: T::V,
    id: usize,
    to: T::V,
)
    requires
        reaches::<T>(from, path, mid),
        is_move::<T>(mid, id, to),
    ensures
        reaches::<T>(from, path.push(id), to),
{
    let states = choose|states: Seq<T::V>| #[trigger]
        follows::<T>(from, path, states) && last_or(states, from) == mid;
    let longer = states.push(to);
    assert forall|k: int| 0 <= k < path.push(id).len() implies is_move::<T>(
        state_before(from, longer, k),
        path.push(id)[k],
        #[trigger] longer[k],
    ) by {
        if k < path.len() {
            assert(state_before(from, longer, k) == state_before(from, states, k));
            let _ = states[k];
        } else {
            assert(state_before(from, longer, k) == mid);
        }
    }
    assert(follows::<T>(from, path.push(id), longer) && last_or(longer, from) == to);
}

/// A replay of a path ends where the path leads, if at every state that can
/// be reached from `from` the moves that share an identifier lead to the same
/// state.
pub proof fn lemma_replay_ends_where_path_leads<T: Search>(
    from: T::V,
    path: Seq<usize>,
    to: T::V,
)
    requires
        reaches::<T>(from, path, to),
        forall|p: Seq<usize>, v: T::V| #[trigger] reaches::<T>(from, p, v) ==> unambiguous::<T>(v),
    ensures
        replayed::<T>(from, path) is Some,
        replayed::<T>(from, path).unwrap().len() == path.len(),
        replay_end::<T>(from, path) == Some(to),
{
    let states = choose|states: Seq<T::V>| #[trigger]
        follows::<T>(from, path, states) && last_or(states, from) == to;
    assert forall|k: int| 0 <= k < path.len() implies unambiguous::<T>(
        #[trigger] state_before(from, states, k),
    ) by {
        lemma_follows_prefix::<T>(from, path, states, k);
    }
    lemma_replay_follows_path::<T>(from, path, states);
}

/// The state that the move `id` leads to from `state`, if the move is among
/// the moves of `state`.
pub fn find_move<T: Search>(state: &T, id: usize) -> (next: Option<T>)
    requires
        state.inv(),
    ensures
        match next {
            Some(t) => t.inv() && advance::<T>(state@, id) == Some(t@),
            None => advance::<T>(state@, id) is None,
        },
{
    let steps = state.moves();
    let ghost succ = T::successors(state@);
    for step in it: steps
        invariant
            it.seq() == steps@,
            succ == T::successors(state@),
            steps@.len() == succ.len(),
            forall|i: int|
                0 <= i < steps@.len() ==> {
                    &&& (#[trigger] steps@[i]).0.inv()
                    &&& steps@[i].0@ == succ[i].0
                    &&& steps@[i].1 == succ[i].1
                },
            forall|j: int| 0 <= j < it.index() ==> (#[trigger] succ[j]).1 != id,
    {
        let (next, move_index) = step;
        if move_index == id {
            proof {
                let k = it.index() as int;
                assert(steps@[k] == step);
                assert(is_first_match(succ, id, k));
                lemma_first_match_unique(succ, id, k);
            }
            return Some(next);
        }
    }
    None
}

/// Replays `history` from `initial`. `Ok` holds the states that the moves lead
/// through, one for each move. `Err` holds the first move that is not among
/// the moves of the state that it is to be taken from.
pub fn try_replay<T: Search>(initial: &T, history: &Vec<usize>) -> (r: Result<Vec<T>, usize>)
    requires
        initial.inv(),
    ensures
        match r {
            Ok(states) => {
                &&& replayed::<T>(initial@, history@) == Some(states@.map_values(|t: T| t@))
                &&& forall|i: int| 0 <= i < states@.len() ==> (#[trigger] states@[i]).inv()
            },
            Err(id) => {
                &&& replayed::<T>(initial@, history@) is None
                &&& exists|n: int|
                    0 <= n < history@.len() && history@[n] == id && #[trigger] replayed::<T>(
                        initial@,
                        history@.take(n),
                    ) is Some && replayed::<T>(initial@, history@.take(n + 1)) is None
            },
        },
{
    let mut states: Vec<T> = Vec::new();
    let n = history.len();
    let mut i: usize = 0;
    while i < n
        invariant
            i <= n,
            n == history@.len(),
            initial.inv(),
            states@.len() == i,
            forall|j: int| 0 <= j < states@.len() ==> (#[trigger] states@[j]).inv(),
            replayed::<T>(initial@, history@.take(i as int)) == Some(
                states@.map_values(|t: T| t@),
            ),
        decreases n - i,
    {
        let ghost views = states@.map_values(|t: T| t@);
        let id = history[i];
        let next = if i == 0 {
            find_move(initial, id)
        } else {
            find_move(&states[i - 1], id)
        };
        proof {
            assert(history@.take(i + 1).drop_last() =~= history@.take(i as int));
            assert(history@.take(i + 1).last() == id);
            assert(last_or(views, initial@) == if i == 0 {
                initial@
            } else {
                states@[i - 1]@
            });
        }
        match next {
            None => {
                proof {
                    lemma_replay_fails_on::<T>(initial@, history@, i as int + 1);
                }
                return Err(id);
            },
            Some(t) => {
                states.push(t);
                assert(states@.map_values(|t: T| t@) =~= views.push(t@));
            },
        }
        i += 1;
    }
    assert(history@.take(n as int) =~= history@);
    Ok(states)
}

/// A replay that fails on the first moves of a history fails on the history.
proof fn lemma_replay_fails_on<T: Search>(from: T::V, history: Seq<usize>, n: int)
    requires
        0 <= n <= history.len(),
        replayed::<T>(from, history.take(n)) is None,
    ensures
        replayed::<T>(from, history) is None,
    decreases history.len() - n,
{
    if n < history.len() {
        assert(history.take(n + 1).drop_last() =~= history.take(n));
        lemma_replay_fails_on::<T>(from, history, n + 1);
    } else {
        assert(history.take(n) =~= history);
    }
}

/// Replays `history` from `initial`: the states that the moves lead through,
/// one for each move. Each move must be among the moves of the state that it
/// is taken from.
pub fn replay<T: Search>(initial: &T, history: &Vec<usize>) -> (states: Vec<T>)
    requires
        initial.inv(),
        replayed::<T>(initial@, history@) is Some,
    ensures
        replayed::<T>(initial@, history@) == Some(states@.map_values(|t: T| t@)),
        forall|i: int| 0 <= i < states@.len() ==> (#[trigger] states@[i]).inv(),
{
    match try_replay(initial, history) {
        Ok(states) => states,
        Err(_) => Vec::new(),
    }
}

} // verus!
