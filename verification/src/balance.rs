use vstd::prelude::*;
use crate::bubbling::lemma_bubble_frame;
use crate::engine::{
    after_dispatch, bubble, enter_all, entered, exit_all, exited, flushed, lemma_enter_all_frame,
    lemma_exit_all_frame, mark_entered, ready, room, same_shape, EngineState,
};
use crate::paths::{
    lemma_enter_path_shape, lemma_root_path_index, lemma_transition_geometry, settled,
};
use crate::planner::{distinct, enter_list, enter_path, exit_list, root_path};
use crate::state::{StateInfo, StateResult};
use crate::topology::{acyclic, is_target, parents_in_range, parents_of, reaches_root};

verus! {

/// Flags and pending enters fit the current state: the states on its root
/// path are active, but for those still waiting to be entered, no other
/// state is active, and after a transition the waiting ones are exactly the
/// enter path of the current state.
pub open spec fn coherent(e: EngineState) -> bool {
    let path = root_path(parents_of(e.states), e.current, e.states.len());
    &&& forall|s: usize|
        s < e.states.len() ==> (#[trigger] e.states[s as int]).active == (path.contains(s)
            && !e.pending.contains(s))
    &&& (e.changed ==> e.pending == enter_path(e.states, e.current, e.states.len()))
}

/// Every state that has both an enter and an exit action was entered as
/// often as it was exited, and once more if it is active.
pub open spec fn balanced(states: Seq<StateInfo>) -> bool {
    forall|s: usize|
        s < states.len() && (#[trigger] states[s as int]).has_enter && states[s as int].has_exit
            ==> states[s as int].enter_cnt == states[s as int].exit_cnt + (if states[s as int].active {
            1int
        } else {
            0int
        })
}

/// Entering a list of different states enters each of them once and leaves
/// the others alone.
pub proof fn lemma_enter_all_pointwise(states: Seq<StateInfo>, pending: Seq<usize>)
    requires
        distinct(pending),
        forall|i: int| 0 <= i < pending.len() ==> #[trigger] pending[i] < states.len(),
    ensures
        enter_all(states, pending).len() == states.len(),
        forall|s: usize|
            s < states.len() ==> #[trigger] enter_all(states, pending)[s as int] == (if pending.contains(
                s,
            ) {
                entered(states[s as int])
            } else {
                states[s as int]
            }),
    decreases pending.len(),
{
    if pending.len() > 0 {
        let last = pending.last();
        let rest = pending.drop_last();
        let mid = mark_entered(states, last);
        lemma_enter_all_pointwise(mid, rest);
        assert forall|s: usize| s < states.len() implies #[trigger] enter_all(states, pending)[s as int]
            == (if pending.contains(s) {
            entered(states[s as int])
        } else {
            states[s as int]
        }) by {
            if rest.contains(s) {
                let i = choose|i: int| 0 <= i < rest.len() && rest[i] == s;
                assert(pending[i] == s);
            } else if s == last {
                assert(pending[pending.len() - 1] == last);
            } else if pending.contains(s) {
                let i = choose|i: int| 0 <= i < pending.len() && pending[i] == s;
                assert(rest[i] == s);
            }
        }
    }
}

/// Exiting a list of different states exits each of them once and leaves
/// the others alone.
pub proof fn lemma_exit_all_pointwise(states: Seq<StateInfo>, exits: Seq<usize>)
    requires
        distinct(exits),
        forall|i: int| 0 <= i < exits.len() ==> #[trigger] exits[i] < states.len(),
    ensures
        exit_all(states, exits).len() == states.len(),
        forall|s: usize|
            s < states.len() ==> #[trigger] exit_all(states, exits)[s as int] == (if exits.contains(s) {
                exited(states[s as int])
            } else {
                states[s as int]
            }),
    decreases exits.len(),
{
    if exits.len() > 0 {
        let last = exits.last();
        let rest = exits.drop_last();
        lemma_exit_all_pointwise(states, rest);
        assert forall|s: usize| s < states.len() implies #[trigger] exit_all(states, exits)[s as int]
            == (if exits.contains(s) {
            exited(states[s as int])
        } else {
            states[s as int]
        }) by {
            if rest.contains(s) {
                let i = choose|i: int| 0 <= i < rest.len() && rest[i] == s;
                assert(exits[i] == s);
            } else if s == last {
                assert(exits[exits.len() - 1] == last);
            } else if exits.contains(s) {
                let i = choose|i: int| 0 <= i < exits.len() && exits[i] == s;
                assert(rest[i] == s);
            }
        }
    }
}

/// An enter path looks at the flags of the states above its start only, up
/// to the one it stops below: two tables that agree there give the same
/// path.
pub proof fn lemma_enter_path_congruent(a: Seq<StateInfo>, b: Seq<StateInfo>, s: usize, fuel: nat)
    requires
        a.len() == b.len(),
        parents_of(a) == parents_of(b),
        reaches_root(parents_of(a), s, fuel),
        forall|i: int|
            1 <= i < root_path(parents_of(a), s, fuel).len() && i <= enter_path(a, s, fuel).len()
                ==> a[#[trigger] root_path(parents_of(a), s, fuel)[i] as int].active
                == b[root_path(parents_of(a), s, fuel)[i] as int].active,
    ensures
        enter_path(b, s, fuel) == enter_path(a, s, fuel),
    decreases fuel,
{
    let parents = parents_of(a);
    let path = root_path(parents, s, fuel);
    assert(parents[s as int] == a[s as int].parent);
    assert(parents_of(b)[s as int] == b[s as int].parent);
    match a[s as int].parent {
        None => {},
        Some(p) => {
            let rest = root_path(parents, p, (fuel - 1) as nat);
            assert(reaches_root(parents, p, (fuel - 1) as nat));
            assert(rest[0] == p);
            assert(path =~= seq![s] + rest);
            assert(path[1] == p);
            lemma_enter_path_shape(a, s, fuel);
            assert(a[p as int].active == b[p as int].active);
            if !a[p as int].active {
                let above = enter_path(a, p, (fuel - 1) as nat);
                assert(enter_path(a, s, fuel) =~= seq![s] + above);
                assert forall|i: int|
                    1 <= i < rest.len() && i <= above.len() implies a[#[trigger] rest[i] as int].active
                    == b[rest[i] as int].active by {
                    assert(path[i + 1] == rest[i]);
                }
                lemma_enter_path_congruent(a, b, p, (fuel - 1) as nat);
            }
        },
    }
}

/// Running the pending enters makes the active states exactly the root path
/// of the current state, and keeps the counts balanced.
pub proof fn lemma_flush_settles(e: EngineState)
    requires
        ready(e),
        room(e.states),
        coherent(e),
        balanced(e.states),
    ensures
        same_shape(flushed(e), e.states),
        settled(flushed(e), e.current),
        balanced(flushed(e)),
        forall|s: int|
            0 <= s < e.states.len() ==> {
                &&& (#[trigger] flushed(e)[s]).process_cnt == e.states[s].process_cnt
                &&& flushed(e)[s].exit_cnt == e.states[s].exit_cnt
            },
{
    let n = e.states.len();
    let parents = parents_of(e.states);
    let path = root_path(parents, e.current, n);
    if e.changed {
        lemma_enter_all_pointwise(e.states, e.pending);
        lemma_enter_all_frame(e.states, e.pending);
        assert(reaches_root(parents, e.current, n));
        lemma_enter_path_shape(e.states, e.current, n);
        assert(parents_of(flushed(e)) =~= parents);
        assert forall|s: usize| s < n implies (#[trigger] flushed(e)[s as int]).active == path.contains(
            s,
        ) by {
            if e.pending.contains(s) {
                let i = choose|i: int| 0 <= i < e.pending.len() && e.pending[i] == s;
                assert(path[i] == s);
            }
        }
    } else {
        assert(parents_of(flushed(e)) =~= parents);
    }
}

/// Applying a transition from a settled, balanced table keeps the counts
/// balanced and leaves flags and pending enters fitting the new current
/// state.
pub proof fn lemma_transition_keeps_balance(states: Seq<StateInfo>, current: usize, next: usize)
    requires
        parents_in_range(parents_of(states)),
        acyclic(parents_of(states)),
        is_target(parents_of(states), current),
        is_target(parents_of(states), next),
        settled(states, current),
        balanced(states),
        forall|s: int| 0 <= s < states.len() ==> (#[trigger] states[s]).exit_cnt < usize::MAX,
    ensures
        ({
            let after = EngineState {
                states: exit_all(states, exit_list(states, current, next)),
                current: next,
                previous: current,
                changed: true,
                pending: enter_list(states, next),
            };
            &&& ready(after)
            &&& coherent(after)
            &&& balanced(after.states)
        }),
{
    let n = states.len();
    let parents = parents_of(states);
    let enters = enter_list(states, next);
    let exits = exit_list(states, current, next);
    let left = exit_all(states, exits);
    let from = root_path(parents, current, n);
    let to = root_path(parents, next, n);
    lemma_transition_geometry(states, current, next);
    lemma_exit_all_pointwise(states, exits);
    lemma_exit_all_frame(states, exits);
    assert(parents_of(left) =~= parents);
    assert(reaches_root(parents, next, n));
    assert forall|i: int| 1 <= i < to.len() && i <= enters.len() implies states[#[trigger] to[i] as int].active
        == left[to[i] as int].active by {
        lemma_root_path_index(parents, next, i);
        if i < enters.len() {
            assert(enters[i] == to[i]);
        }
    }
    lemma_enter_path_congruent(states, left, next, n);
    assert forall|s: usize| s < n implies (#[trigger] left[s as int]).active == (to.contains(s)
        && !enters.contains(s)) by {
        assert(states[s as int].active == from.contains(s));
    }
    assert forall|s: usize|
        s < n && (#[trigger] left[s as int]).has_enter && left[s as int].has_exit implies left[s as int].enter_cnt
        == left[s as int].exit_cnt + (if left[s as int].active {
        1int
    } else {
        0int
    }) by {
        if exits.contains(s) {
            let i = choose|i: int| 0 <= i < exits.len() && exits[i] == s;
            assert(states[exits[i] as int].active);
        }
    }
}

/// One dispatch keeps the engine ready, its flags and pending enters
/// fitting, and its counts balanced, whatever the process actions answer
/// and whether or not the dispatch succeeds.
pub proof fn lemma_dispatch_keeps_balance(e: EngineState, idx: usize, answers: Seq<StateResult>)
    requires
        ready(e),
        room(e.states),
        coherent(e),
        balanced(e.states),
        idx < e.states.len(),
    ensures
        ready(after_dispatch(e, idx, answers)),
        coherent(after_dispatch(e, idx, answers)),
        balanced(after_dispatch(e, idx, answers).states),
{
    let n = e.states.len();
    let parents = parents_of(e.states);
    let start = flushed(e);
    lemma_flush_settles(e);
    assert(parents_of(start) =~= parents);
    let (counted, dest) = bubble(start, idx, answers, None);
    lemma_bubble_frame(start, idx, answers, None);
    assert(parents_of(counted) =~= parents);
    assert(settled(counted, e.current)) by {
        assert forall|s: usize| s < n implies (#[trigger] counted[s as int]).active == root_path(
            parents,
            e.current,
            n,
        ).contains(s) by {
            assert(start[s as int].active == counted[s as int].active);
        }
    }
    assert(balanced(counted)) by {
        assert forall|s: usize|
            s < n && (#[trigger] counted[s as int]).has_enter && counted[s as int].has_exit implies counted[s as int].enter_cnt
            == counted[s as int].exit_cnt + (if counted[s as int].active {
            1int
        } else {
            0int
        }) by {
            assert(start[s as int].has_enter && start[s as int].has_exit);
        }
    }
    if dest is Some && is_target(parents, dest->0) {
        assert forall|s: int| 0 <= s < n implies (#[trigger] counted[s]).exit_cnt < usize::MAX by {
            assert(start[s].exit_cnt == e.states[s].exit_cnt);
        }
        lemma_transition_keeps_balance(counted, e.current, dest->0);
    } else {
        let after = after_dispatch(e, idx, answers);
        assert(after.pending =~= Seq::<usize>::empty());
    }
}

/// The engine after a run of dispatches, each starting at the state that is
/// current by then; `rounds` holds the answers drawn by each.
pub open spec fn after_dispatches(e: EngineState, rounds: Seq<Seq<StateResult>>) -> EngineState
    decreases rounds.len(),
{
    if rounds.len() == 0 {
        e
    } else {
        let before = after_dispatches(e, rounds.drop_last());
        after_dispatch(before, before.current, rounds.last())
    }
}

/// Before each dispatch of the run every counter could still grow.
pub open spec fn room_throughout(e: EngineState, rounds: Seq<Seq<StateResult>>) -> bool
    decreases rounds.len(),
{
    rounds.len() == 0 || (room_throughout(e, rounds.drop_last()) && room(
        after_dispatches(e, rounds.drop_last()).states,
    ))
}

/// Any run of dispatches keeps the engine ready, its flags fitting and its
/// counts balanced.
pub proof fn lemma_dispatches_keep_balance(e: EngineState, rounds: Seq<Seq<StateResult>>)
    requires
        ready(e),
        coherent(e),
        balanced(e.states),
        room_throughout(e, rounds),
    ensures
        ready(after_dispatches(e, rounds)),
        coherent(after_dispatches(e, rounds)),
        balanced(after_dispatches(e, rounds).states),
    decreases rounds.len(),
{
    if rounds.len() > 0 {
        lemma_dispatches_keep_balance(e, rounds.drop_last());
        let before = after_dispatches(e, rounds.drop_last());
        lemma_dispatch_keeps_balance(before, before.current, rounds.last());
    }
}

/// No state is active, and every state has as many enters as exits
/// counted: the table as registration leaves it.
pub open spec fn at_rest(states: Seq<StateInfo>) -> bool {
    forall|s: int|
        0 <= s < states.len() ==> !(#[trigger] states[s]).active && states[s].enter_cnt
            == states[s].exit_cnt
}

/// A session as validation hands it out, with the table at rest and the
/// whole chain of the current state waiting to be entered, is coherent and
/// balanced.
pub proof fn lemma_fresh_session_is_balanced(e: EngineState)
    requires
        ready(e),
        e.changed,
        e.pending == root_path(parents_of(e.states), e.current, e.states.len()),
        at_rest(e.states),
    ensures
        coherent(e),
        balanced(e.states),
{
    let n = e.states.len();
    let parents = parents_of(e.states);
    let path = root_path(parents, e.current, n);
    let enters = enter_path(e.states, e.current, n);
    assert(reaches_root(parents, e.current, n));
    lemma_enter_path_shape(e.states, e.current, n);
    if enters.len() < path.len() {
        lemma_root_path_index(parents, e.current, enters.len() as int);
    }
    assert(enters =~= path);
}

/// Enter/exit balance. Start from a session with its table at rest, as
/// after validation of freshly registered states. After any run of
/// dispatches that leaves no state active again, every state that has both
/// an enter and an exit action has been entered exactly as often as it has
/// been exited.
pub proof fn lemma_enter_exit_balance(e: EngineState, rounds: Seq<Seq<StateResult>>)
    requires
        ready(e),
        e.changed,
        e.pending == root_path(parents_of(e.states), e.current, e.states.len()),
        at_rest(e.states),
        room_throughout(e, rounds),
        forall|s: int|
            0 <= s < after_dispatches(e, rounds).states.len() ==> !(#[trigger] after_dispatches(
                e,
                rounds,
            ).states[s]).active,
    ensures
        forall|s: usize|
            s < after_dispatches(e, rounds).states.len() && (#[trigger] after_dispatches(
                e,
                rounds,
            ).states[s as int]).has_enter && after_dispatches(e, rounds).states[s as int].has_exit
                ==> after_dispatches(e, rounds).states[s as int].enter_cnt == after_dispatches(
                e,
                rounds,
            ).states[s as int].exit_cnt,
{
    lemma_fresh_session_is_balanced(e);
    lemma_dispatches_keep_balance(e, rounds);
}

} // verus!
