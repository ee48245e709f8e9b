use vstd::prelude::*;
use crate::planner::{distinct, enter_list, exit_list};
use crate::state::{DispatchError, Handled, StateInfo, StateResult};
use crate::topology::{acyclic, is_target, parents_in_range, parents_of};

verus! {

/// What the engine knows between two dispatches: the table with its flags
/// and counters, the current and the previous state, whether the last
/// dispatch changed the current state, and the states still to be entered.
pub struct EngineState {
    pub states: Seq<StateInfo>,
    pub current: usize,
    pub previous: usize,
    pub changed: bool,
    pub pending: Seq<usize>,
}

/// The engine can take a dispatch: its table is a forest, the current state
/// is a leaf, and the pending enter list names registered states, each once.
pub open spec fn ready(e: EngineState) -> bool {
    let parents = parents_of(e.states);
    &&& parents_in_range(parents)
    &&& acyclic(parents)
    &&& is_target(parents, e.current)
    &&& e.previous < e.states.len()
    &&& distinct(e.pending)
    &&& forall|i: int| 0 <= i < e.pending.len() ==> #[trigger] e.pending[i] < e.states.len()
    &&& (!e.changed ==> e.pending.len() == 0)
}

/// Every counter of the table can still grow by one.
pub open spec fn room(states: Seq<StateInfo>) -> bool {
    forall|i: int|
        0 <= i < states.len() ==> {
            &&& (#[trigger] states[i]).enter_cnt < usize::MAX
            &&& states[i].process_cnt < usize::MAX
            &&& states[i].exit_cnt < usize::MAX
        }
}

/// The record of a state once it is entered: active, and its enter counter
/// grown if it has an enter action.
pub open spec fn entered(was: StateInfo) -> StateInfo {
    StateInfo {
        active: true,
        enter_cnt: if was.has_enter {
            (was.enter_cnt + 1) as usize
        } else {
            was.enter_cnt
        },
        ..was
    }
}

/// The record of a state once it is asked to process a message: its process
/// counter grown.
pub open spec fn processed(was: StateInfo) -> StateInfo {
    StateInfo { process_cnt: (was.process_cnt + 1) as usize, ..was }
}

/// The record of a state once it is exited: inactive, and its exit counter
/// grown if it has an exit action.
pub open spec fn exited(was: StateInfo) -> StateInfo {
    StateInfo {
        active: false,
        exit_cnt: if was.has_exit {
            (was.exit_cnt + 1) as usize
        } else {
            was.exit_cnt
        },
        ..was
    }
}

/// The table with state `s` entered.
pub open spec fn mark_entered(states: Seq<StateInfo>, s: usize) -> Seq<StateInfo> {
    states.update(s as int, entered(states[s as int]))
}

/// The table with state `s` asked.
pub open spec fn mark_processed(states: Seq<StateInfo>, s: usize) -> Seq<StateInfo> {
    states.update(s as int, processed(states[s as int]))
}

/// The table with state `s` exited.
pub open spec fn mark_exited(states: Seq<StateInfo>, s: usize) -> Seq<StateInfo> {
    states.update(s as int, exited(states[s as int]))
}

/// The table after the pending enter list is consumed, last appended first.
pub open spec fn enter_all(states: Seq<StateInfo>, pending: Seq<usize>) -> Seq<StateInfo>
    decreases pending.len(),
{
    if pending.len() == 0 {
        states
    } else {
        enter_all(mark_entered(states, pending.last()), pending.drop_last())
    }
}

/// The table after the exit list is consumed, first appended first.
pub open spec fn exit_all(states: Seq<StateInfo>, exits: Seq<usize>) -> Seq<StateInfo>
    decreases exits.len(),
{
    if exits.len() == 0 {
        states
    } else {
        mark_exited(exit_all(states, exits.drop_last()), exits.last())
    }
}

/// The transition request that stands after a state has answered with
/// `request`, when `dest` stood before: the first request wins.
pub open spec fn captured(dest: Option<usize>, request: Option<usize>) -> Option<usize> {
    if dest is None {
        request
    } else {
        dest
    }
}

/// Where a message goes after a state with parent link `parent` has
/// answered `handled`: to the parent if it was not handled and there is one,
/// nowhere else.
pub open spec fn bubbles_to(handled: Handled, parent: Option<usize>) -> Option<usize> {
    match (handled, parent) {
        (Handled::No, Some(p)) => Some(p),
        _ => None,
    }
}

/// `answers` is what one message draws from the process actions, starting
/// at state `idx`: every answer but the last is "not handled" by a state
/// that has a parent, and the last is "handled" or comes from a root.
pub open spec fn asked_all(parents: Seq<Option<usize>>, idx: usize, answers: Seq<StateResult>) -> bool
    decreases answers.len(),
{
    answers.len() > 0 && match bubbles_to(answers[0].0, parents[idx as int]) {
        Some(p) => asked_all(parents, p, answers.skip(1)),
        None => answers.len() == 1,
    }
}

/// The table and the captured transition request after the message has
/// bubbled from `idx` upwards and drawn `answers`.
pub open spec fn bubble(
    states: Seq<StateInfo>,
    idx: usize,
    answers: Seq<StateResult>,
    dest: Option<usize>,
) -> (Seq<StateInfo>, Option<usize>)
    decreases answers.len(),
{
    if answers.len() == 0 {
        (states, dest)
    } else {
        let counted = mark_processed(states, idx);
        let standing = captured(dest, answers[0].1);
        match bubbles_to(answers[0].0, states[idx as int].parent) {
            Some(p) => bubble(counted, p, answers.skip(1), standing),
            None => (counted, standing),
        }
    }
}

/// The table once the enter actions left over from the last transition
/// have run.
pub open spec fn flushed(e: EngineState) -> Seq<StateInfo> {
    if e.changed {
        enter_all(e.states, e.pending)
    } else {
        e.states
    }
}

/// The transition that a dispatch starting at `idx` is asked for.
pub open spec fn requested(e: EngineState, idx: usize, answers: Seq<StateResult>) -> Option<usize> {
    bubble(flushed(e), idx, answers, None).1
}

/// Whether a dispatch starting at `idx` succeeds: it fails exactly when the
/// requested destination is out of range or has children.
pub open spec fn outcome(e: EngineState, idx: usize, answers: Seq<StateResult>) -> Result<
    (),
    DispatchError,
> {
    match requested(e, idx, answers) {
        Some(next) => if is_target(parents_of(e.states), next) {
            Ok(())
        } else {
            Err(DispatchError::InvalidTransitionTarget(next))
        },
        None => Ok(()),
    }
}

/// The engine after a dispatch starting at `idx` in which the process
/// actions gave `answers`: pending enters run, the message bubbles, and a
/// requested transition to a leaf is applied by exiting up to the nearest
/// shared active ancestor and queueing the enters below it.
pub open spec fn after_dispatch(e: EngineState, idx: usize, answers: Seq<StateResult>) -> EngineState {
    let (states, dest) = bubble(flushed(e), idx, answers, None);
    if dest is Some && is_target(parents_of(e.states), dest->0) {
        let next = dest->0;
        EngineState {
            states: exit_all(states, exit_list(states, e.current, next)),
            current: next,
            previous: e.current,
            changed: true,
            pending: enter_list(states, next),
        }
    } else {
        EngineState {
            states,
            current: e.current,
            previous: e.previous,
            changed: false,
            pending: Seq::empty(),
        }
    }
}

/// Two tables agree on everything registration fixed: names, parent links
/// and which actions exist.
pub open spec fn same_shape(a: Seq<StateInfo>, b: Seq<StateInfo>) -> bool {
    &&& a.len() == b.len()
    &&& forall|i: int|
        0 <= i < a.len() ==> {
            &&& (#[trigger] a[i]).name == b[i].name
            &&& a[i].parent == b[i].parent
            &&& a[i].has_enter == b[i].has_enter
            &&& a[i].has_exit == b[i].has_exit
        }
}

/// Entering states changes flags and enter counters only.
pub proof fn lemma_enter_all_frame(states: Seq<StateInfo>, pending: Seq<usize>)
    requires
        forall|i: int| 0 <= i < pending.len() ==> #[trigger] pending[i] < states.len(),
    ensures
        same_shape(enter_all(states, pending), states),
        forall|i: int|
            0 <= i < states.len() ==> {
                &&& (#[trigger] enter_all(states, pending)[i]).process_cnt == states[i].process_cnt
                &&& enter_all(states, pending)[i].exit_cnt == states[i].exit_cnt
            },
    decreases pending.len(),
{
    if pending.len() > 0 {
        lemma_enter_all_frame(mark_entered(states, pending.last()), pending.drop_last());
    }
}

/// Exiting states changes flags and exit counters only.
pub proof fn lemma_exit_all_frame(states: Seq<StateInfo>, exits: Seq<usize>)
    requires
        forall|i: int| 0 <= i < exits.len() ==> #[trigger] exits[i] < states.len(),
    ensures
        same_shape(exit_all(states, exits), states),
        forall|i: int|
            0 <= i < states.len() ==> {
                &&& (#[trigger] exit_all(states, exits)[i]).process_cnt == states[i].process_cnt
                &&& exit_all(states, exits)[i].enter_cnt == states[i].enter_cnt
            },
    decreases exits.len(),
{
    if exits.len() > 0 {
        lemma_exit_all_frame(states, exits.drop_last());
    }
}

} // verus!
