use vstd::prelude::*;
use crate::engine::{
    after_dispatch, asked_all, bubble, bubbles_to, captured, flushed, lemma_enter_all_frame, lemma_exit_all_frame,
    mark_processed, outcome, ready, requested, same_shape, EngineState,
};
use crate::paths::lemma_exit_path_in_range;
use crate::planner::{exit_list, exit_sentinel};
use crate::state::{Handled, StateInfo, StateResult};
use crate::topology::{is_target, parents_in_range, parents_of};

verus! {

/// The first transition request among `answers`, in the order asked.
pub open spec fn first_request(answers: Seq<StateResult>) -> Option<usize>
    decreases answers.len(),
{
    if answers.len() == 0 {
        None
    } else if answers[0].1 is Some {
        answers[0].1
    } else {
        first_request(answers.skip(1))
    }
}

/// Bubbling changes process counters only, and leaves the table's shape,
/// flags and other counters alone.
pub proof fn lemma_bubble_frame(
    states: Seq<StateInfo>,
    idx: usize,
    answers: Seq<StateResult>,
    dest: Option<usize>,
)
    requires
        parents_in_range(parents_of(states)),
        idx < states.len(),
    ensures
        same_shape(bubble(states, idx, answers, dest).0, states),
        forall|i: int|
            0 <= i < states.len() ==> {
                &&& (#[trigger] bubble(states, idx, answers, dest).0[i]).active == states[i].active
                &&& bubble(states, idx, answers, dest).0[i].enter_cnt == states[i].enter_cnt
                &&& bubble(states, idx, answers, dest).0[i].exit_cnt == states[i].exit_cnt
            },
    decreases answers.len(),
{
    if answers.len() > 0 {
        let counted = mark_processed(states, idx);
        assert(parents_of(counted) =~= parents_of(states));
        assert(parents_of(states)[idx as int] == states[idx as int].parent);
        match bubbles_to(answers[0].0, states[idx as int].parent) {
            Some(p) => {
                lemma_bubble_frame(counted, p, answers.skip(1), captured(dest, answers[0].1));
            },
            None => {},
        }
    }
}

/// Of the requests made while a message bubbles, the first one, made by the
/// most specific state, is the one captured; later ones are ignored.
pub proof fn lemma_first_request_wins(
    states: Seq<StateInfo>,
    idx: usize,
    answers: Seq<StateResult>,
    dest: Option<usize>,
)
    requires
        parents_in_range(parents_of(states)),
        idx < states.len(),
        asked_all(parents_of(states), idx, answers),
    ensures
        bubble(states, idx, answers, dest).1 == (if dest is Some {
            dest
        } else {
            first_request(answers)
        }),
    decreases answers.len(),
{
    let counted = mark_processed(states, idx);
    assert(parents_of(counted) =~= parents_of(states));
    assert(parents_of(states)[idx as int] == states[idx as int].parent);
    match bubbles_to(answers[0].0, states[idx as int].parent) {
        Some(p) => {
            lemma_first_request_wins(counted, p, answers.skip(1), captured(dest, answers[0].1));
        },
        None => {
            assert(answers.skip(1).len() == 0);
            assert(first_request(answers.skip(1)) is None);
        },
    }
}

/// The transition that a dispatch is asked for is the first request among
/// the answers that the message drew.
pub proof fn lemma_dispatch_takes_first_request(
    e: EngineState,
    idx: usize,
    answers: Seq<StateResult>,
)
    requires
        ready(e),
        idx < e.states.len(),
        asked_all(parents_of(e.states), idx, answers),
    ensures
        requested(e, idx, answers) == first_request(answers),
{
    if e.changed {
        lemma_enter_all_frame(e.states, e.pending);
    }
    assert(parents_of(flushed(e)) =~= parents_of(e.states));
    lemma_first_request_wins(flushed(e), idx, answers, None);
}

/// When the current state stays silent, neither handling the message nor
/// asking for a transition, and its parent asks for a transition to a leaf,
/// the dispatch counts one call for each of the two and moves to that leaf.
pub proof fn lemma_silent_child_lets_parent_transition(
    e: EngineState,
    parent: usize,
    leaf: usize,
    parent_handled: Handled,
)
    requires
        ready(e),
        parent < e.states.len(),
        e.states[e.current as int].process_cnt < usize::MAX,
        e.states[parent as int].process_cnt < usize::MAX,
        e.states[e.current as int].parent == Some(parent),
        is_target(parents_of(e.states), leaf),
        parent_handled is Yes || e.states[parent as int].parent is None,
    ensures
        ({
            let answers = seq![(Handled::No, None::<usize>), (parent_handled, Some(leaf))];
            let after = after_dispatch(e, e.current, answers);
            &&& asked_all(parents_of(e.states), e.current, answers)
            &&& requested(e, e.current, answers) == Some(leaf)
            &&& outcome(e, e.current, answers) is Ok
            &&& after.current == leaf
            &&& after.previous == e.current
            &&& after.changed
            &&& after.states[e.current as int].process_cnt == e.states[e.current as int].process_cnt
                + 1
            &&& after.states[parent as int].process_cnt == e.states[parent as int].process_cnt + 1
        }),
{
    let parents = parents_of(e.states);
    let child = e.current;
    let answers = seq![(Handled::No, None::<usize>), (parent_handled, Some(leaf))];
    let rest = seq![(parent_handled, Some(leaf))];
    assert(answers.skip(1) =~= rest);
    assert(parents[child as int] == Some(parent));
    assert(parent < e.states.len());
    assert(parents[parent as int] == e.states[parent as int].parent);

    let start = flushed(e);
    if e.changed {
        lemma_enter_all_frame(e.states, e.pending);
    }
    assert(same_shape(start, e.states));
    assert(parents_of(start) =~= parents);

    let first = mark_processed(start, child);
    let second = mark_processed(first, parent);
    assert(child != parent);
    assert(bubble(first, parent, rest, None) == (second, Some(leaf)));
    assert(bubble(start, child, answers, None) == (second, Some(leaf)));
    assert(parents_of(second) =~= parents);

    assert(asked_all(parents, parent, rest));
    assert(asked_all(parents, child, answers));
    assert(requested(e, child, answers) == Some(leaf));
    assert(second[child as int].process_cnt == e.states[child as int].process_cnt + 1);
    assert(second[parent as int].process_cnt == e.states[parent as int].process_cnt + 1);
    let exits = exit_list(second, child, leaf);
    lemma_exit_path_in_range(
        second,
        child,
        exit_sentinel(second, leaf, second.len()),
        second.len(),
    );
    lemma_exit_all_frame(second, exits);
}

} // verus!
