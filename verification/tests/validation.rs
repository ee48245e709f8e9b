use hsm0_executor::executor::Executor;
use hsm0_executor::state::{
    Actions, BuildError, Context, DispatchError, Handled, StateInfo, StateResult,
};

struct NoMessages;

/// A host whose every state answers the same.
struct Fixed {
    answer: StateResult,
}

impl Actions<NoMessages> for Fixed {
    fn enter(&mut self, _idx: usize, _msg: &NoMessages) {}

    fn process(&mut self, _ctx: &Context, _idx: usize, _msg: &NoMessages) -> StateResult {
        self.answer
    }

    fn exit(&mut self, _idx: usize, _msg: &NoMessages) {}
}

fn build(parents: &[Option<usize>], initial: usize, answer: StateResult) -> Result<Executor<Fixed>, BuildError> {
    let mut building = Executor::new(Fixed { answer }, parents.len());
    for parent in parents {
        building = building.state(StateInfo::new("s", true, true, *parent));
    }
    building.initialize(initial)
}

fn refusal(parents: &[Option<usize>], initial: usize) -> Option<BuildError> {
    build(parents, initial, (Handled::Yes, None)).err()
}

#[test]
fn self_parent_is_a_cycle() {
    assert_eq!(refusal(&[Some(0)], 0), Some(BuildError::CycleDetected));
    assert_eq!(refusal(&[None, Some(1)], 0), Some(BuildError::CycleDetected));
}

#[test]
fn two_and_three_state_cycles_are_detected() {
    assert_eq!(refusal(&[Some(1), Some(0)], 0), Some(BuildError::CycleDetected));
    assert_eq!(
        refusal(&[Some(1), Some(2), Some(0), None], 3),
        Some(BuildError::CycleDetected)
    );
}

#[test]
fn a_tail_hanging_into_a_cycle_is_detected() {
    // 0 -> 1 -> 2 -> 1: state 0 is a leaf, yet its chain never ends
    assert_eq!(
        refusal(&[Some(1), Some(2), Some(1)], 0),
        Some(BuildError::CycleDetected)
    );
}

#[test]
fn forward_parent_references_are_accepted() {
    // the parent is registered after its child
    let e = build(&[Some(2), Some(2), None], 1, (Handled::Yes, None)).unwrap();
    assert_eq!(e.idx_current_state, 1);
    assert_eq!(e.idxs_enter_fns, vec![1, 2]);
    assert_eq!(e.transition_targets, vec![0, 1]);
    assert_eq!(e.transition_targets_set, vec![true, true, false]);
}

#[test]
fn unknown_parent_is_refused() {
    assert_eq!(refusal(&[None, Some(2)], 0), Some(BuildError::UnknownParent));
    assert_eq!(refusal(&[Some(usize::MAX)], 0), Some(BuildError::UnknownParent));
}

#[test]
fn initial_state_must_be_a_leaf_in_range() {
    assert_eq!(refusal(&[None, Some(0)], 0), Some(BuildError::InvalidInitialState));
    assert_eq!(refusal(&[None, Some(0)], 2), Some(BuildError::InvalidInitialState));
    assert_eq!(refusal(&[], 0), Some(BuildError::InvalidInitialState));
    assert!(refusal(&[None, Some(0)], 1).is_none());
}

#[test]
fn cycle_is_reported_before_the_initial_state() {
    assert_eq!(refusal(&[Some(0), None], 7), Some(BuildError::CycleDetected));
}

#[test]
fn registration_order_gives_the_index() {
    for initial in [1usize, 2, 3] {
        let e = Executor::new(Fixed { answer: (Handled::Yes, None) }, 4)
            .state(StateInfo::new("zero", false, false, None))
            .state(StateInfo::new("one", false, false, Some(0)))
            .state(StateInfo::new("two", false, false, Some(0)))
            .state(StateInfo::new("three", false, false, None))
            .initialize(initial)
            .unwrap();
        assert_eq!(e.get_state_name(0), "zero");
        assert_eq!(e.get_state_name(1), "one");
        assert_eq!(e.get_state_name(2), "two");
        assert_eq!(e.get_state_name(3), "three");
        assert_eq!(e.idx_current_state, initial);
    }
}

#[test]
fn deep_chain_is_accepted_and_entered_from_the_root() {
    let parents: Vec<Option<usize>> = (0..50usize).map(|i| if i == 0 { None } else { Some(i - 1) }).collect();
    let mut e = build(&parents, 49, (Handled::No, None)).unwrap();
    assert_eq!(e.idxs_enter_fns.len(), 50);
    assert_eq!(e.idxs_enter_fns[0], 49);
    assert_eq!(e.idxs_enter_fns[49], 0);
    assert_eq!(e.dispatch(&NoMessages), Ok(false));
    for i in 0..50usize {
        assert_eq!(e.get_state_enter_cnt(i), 1);
        assert_eq!(e.get_state_process_cnt(i), 1);
        assert_eq!(e.get_state_exit_cnt(i), 0);
        assert!(e.states[i].active);
    }
}

#[test]
fn transition_to_a_composite_state_fails() {
    let mut e = build(&[None, Some(0)], 1, (Handled::Yes, Some(0))).unwrap();
    assert_eq!(
        e.dispatch(&NoMessages),
        Err(DispatchError::InvalidTransitionTarget(0))
    );
    // the table was counted, the current state is kept
    assert_eq!(e.idx_current_state, 1);
    assert_eq!(e.get_state_process_cnt(1), 1);
    assert_eq!(e.get_state_enter_cnt(0), 1);
    assert!(!e.current_state_changed);
    assert_eq!(e.idx_transition_dest, None);
}

#[test]
fn transition_out_of_range_fails() {
    let mut e = build(&[None], 0, (Handled::Yes, Some(1))).unwrap();
    assert_eq!(
        e.dispatch(&NoMessages),
        Err(DispatchError::InvalidTransitionTarget(1))
    );
    assert_eq!(e.idx_current_state, 0);
}

#[test]
fn unhandled_message_is_dropped_at_the_root() {
    let mut e = build(&[None, Some(0)], 1, (Handled::No, None)).unwrap();
    assert_eq!(e.dispatch(&NoMessages), Ok(false));
    assert_eq!(e.get_state_process_cnt(1), 1);
    assert_eq!(e.get_state_process_cnt(0), 1);
    assert_eq!(e.idx_current_state, 1);
}
