use hsm0_executor::executor::Executor;
use hsm0_executor::state::{Actions, Context, Handled, StateInfo, StateResult};

// StateMachine simply transitions back and forth
// between initial and other.
//
//  other_base=2          initial_base=0
//       ^                     ^
//       |                     |
//     other=3              initial=1

#[derive(Default)]
pub struct StateMachine;

// A protocol with no messages
pub struct NoMessages;

const MAX_STATE_FNS: usize = 4;
const INITIAL_BASE_HDL: usize = 0;
const INITIAL_HDL: usize = 1;
const OTHER_BASE_HDL: usize = 2;
const OTHER_HDL: usize = 3;

impl Actions<NoMessages> for StateMachine {
    fn enter(&mut self, _idx: usize, _msg: &NoMessages) {}

    fn process(&mut self, _ctx: &Context, idx: usize, _msg: &NoMessages) -> StateResult {
        match idx {
            INITIAL_HDL => (Handled::Yes, Some(OTHER_HDL)),
            OTHER_HDL => (Handled::Yes, Some(INITIAL_HDL)),
            _ => (Handled::Yes, None),
        }
    }

    fn exit(&mut self, _idx: usize, _msg: &NoMessages) {}
}

fn new_machine() -> Executor<StateMachine> {
    let sm = StateMachine::default();
    Executor::new(sm, MAX_STATE_FNS)
        .state(StateInfo::new("initial_base", true, true, None))
        .state(StateInfo::new("initial", true, true, Some(INITIAL_BASE_HDL)))
        .state(StateInfo::new("other_base", true, true, None))
        .state(StateInfo::new("other", true, true, Some(OTHER_BASE_HDL)))
        .initialize(INITIAL_HDL)
        .unwrap()
}

fn test_transition_between_leafs_across_trees() {
    // Create a sme and validate it's in the expected state
    let mut sme = new_machine();
    assert_eq!(std::mem::size_of_val(sme.get_sm()), 0);
    assert_eq!(sme.get_state_enter_cnt(INITIAL_BASE_HDL), 0);
    assert_eq!(sme.get_state_process_cnt(INITIAL_BASE_HDL), 0);
    assert_eq!(sme.get_state_exit_cnt(INITIAL_BASE_HDL), 0);
    assert_eq!(sme.get_state_enter_cnt(INITIAL_HDL), 0);
    assert_eq!(sme.get_state_process_cnt(INITIAL_HDL), 0);
    assert_eq!(sme.get_state_exit_cnt(INITIAL_HDL), 0);
    assert_eq!(sme.get_state_enter_cnt(OTHER_BASE_HDL), 0);
    assert_eq!(sme.get_state_process_cnt(OTHER_BASE_HDL), 0);
    assert_eq!(sme.get_state_exit_cnt(OTHER_BASE_HDL), 0);
    assert_eq!(sme.get_state_enter_cnt(OTHER_HDL), 0);
    assert_eq!(sme.get_state_process_cnt(OTHER_HDL), 0);
    assert_eq!(sme.get_state_exit_cnt(OTHER_HDL), 0);

    sme.dispatch(&NoMessages).unwrap();
    assert_eq!(sme.get_state_enter_cnt(INITIAL_BASE_HDL), 1);
    assert_eq!(sme.get_state_process_cnt(INITIAL_BASE_HDL), 0);
    assert_eq!(sme.get_state_exit_cnt(INITIAL_BASE_HDL), 1);
    assert_eq!(sme.get_state_enter_cnt(INITIAL_HDL), 1);
    assert_eq!(sme.get_state_process_cnt(INITIAL_HDL), 1);
    assert_eq!(sme.get_state_exit_cnt(INITIAL_HDL), 1);
    assert_eq!(sme.get_state_enter_cnt(OTHER_BASE_HDL), 0);
    assert_eq!(sme.get_state_process_cnt(OTHER_BASE_HDL), 0);
    assert_eq!(sme.get_state_exit_cnt(OTHER_BASE_HDL), 0);
    assert_eq!(sme.get_state_enter_cnt(OTHER_HDL), 0);
    assert_eq!(sme.get_state_process_cnt(OTHER_HDL), 0);
    assert_eq!(sme.get_state_exit_cnt(OTHER_HDL), 0);

    sme.dispatch(&NoMessages).unwrap();
    assert_eq!(sme.get_state_enter_cnt(INITIAL_BASE_HDL), 1);
    assert_eq!(sme.get_state_process_cnt(INITIAL_BASE_HDL), 0);
    assert_eq!(sme.get_state_exit_cnt(INITIAL_BASE_HDL), 1);
    assert_eq!(sme.get_state_enter_cnt(INITIAL_HDL), 1);
    assert_eq!(sme.get_state_process_cnt(INITIAL_HDL), 1);
    assert_eq!(sme.get_state_exit_cnt(INITIAL_HDL), 1);
    assert_eq!(sme.get_state_enter_cnt(OTHER_BASE_HDL), 1);
    assert_eq!(sme.get_state_process_cnt(OTHER_BASE_HDL), 0);
    assert_eq!(sme.get_state_exit_cnt(OTHER_BASE_HDL), 1);
    assert_eq!(sme.get_state_enter_cnt(OTHER_HDL), 1);
    assert_eq!(sme.get_state_process_cnt(OTHER_HDL), 1);
    assert_eq!(sme.get_state_exit_cnt(OTHER_HDL), 1);

    sme.dispatch(&NoMessages).unwrap();
    assert_eq!(sme.get_state_enter_cnt(INITIAL_BASE_HDL), 2);
    assert_eq!(sme.get_state_process_cnt(INITIAL_BASE_HDL), 0);
    assert_eq!(sme.get_state_exit_cnt(INITIAL_BASE_HDL), 2);
    assert_eq!(sme.get_state_enter_cnt(INITIAL_HDL), 2);
    assert_eq!(sme.get_state_process_cnt(INITIAL_HDL), 2);
    assert_eq!(sme.get_state_exit_cnt(INITIAL_HDL), 2);
    assert_eq!(sme.get_state_enter_cnt(OTHER_BASE_HDL), 1);
    assert_eq!(sme.get_state_process_cnt(OTHER_BASE_HDL), 0);
    assert_eq!(sme.get_state_exit_cnt(OTHER_BASE_HDL), 1);
    assert_eq!(sme.get_state_enter_cnt(OTHER_HDL), 1);
    assert_eq!(sme.get_state_process_cnt(OTHER_HDL), 1);
    assert_eq!(sme.get_state_exit_cnt(OTHER_HDL), 1);

    sme.dispatch(&NoMessages).unwrap();
    assert_eq!(sme.get_state_enter_cnt(INITIAL_BASE_HDL), 2);
    assert_eq!(sme.get_state_process_cnt(INITIAL_BASE_HDL), 0);
    assert_eq!(sme.get_state_exit_cnt(INITIAL_BASE_HDL), 2);
    assert_eq!(sme.get_state_enter_cnt(INITIAL_HDL), 2);
    assert_eq!(sme.get_state_process_cnt(INITIAL_HDL), 2);
    assert_eq!(sme.get_state_exit_cnt(INITIAL_HDL), 2);
    assert_eq!(sme.get_state_enter_cnt(OTHER_BASE_HDL), 2);
    assert_eq!(sme.get_state_process_cnt(OTHER_BASE_HDL), 0);
    assert_eq!(sme.get_state_exit_cnt(OTHER_BASE_HDL), 2);
    assert_eq!(sme.get_state_enter_cnt(OTHER_HDL), 2);
    assert_eq!(sme.get_state_process_cnt(OTHER_HDL), 2);
    assert_eq!(sme.get_state_exit_cnt(OTHER_HDL), 2);

    sme.dispatch(&NoMessages).unwrap();
    assert_eq!(sme.get_state_enter_cnt(INITIAL_BASE_HDL), 3);
    assert_eq!(sme.get_state_process_cnt(INITIAL_BASE_HDL), 0);
    assert_eq!(sme.get_state_exit_cnt(INITIAL_BASE_HDL), 3);
    assert_eq!(sme.get_state_enter_cnt(INITIAL_HDL), 3);
    assert_eq!(sme.get_state_process_cnt(INITIAL_HDL), 3);
    assert_eq!(sme.get_state_exit_cnt(INITIAL_HDL), 3);
    assert_eq!(sme.get_state_enter_cnt(OTHER_BASE_HDL), 2);
    assert_eq!(sme.get_state_process_cnt(OTHER_BASE_HDL), 0);
    assert_eq!(sme.get_state_exit_cnt(OTHER_BASE_HDL), 2);
    assert_eq!(sme.get_state_enter_cnt(OTHER_HDL), 2);
    assert_eq!(sme.get_state_process_cnt(OTHER_HDL), 2);
    assert_eq!(sme.get_state_exit_cnt(OTHER_HDL), 2);
}

#[test]
fn test_leaf_transitions_across_trees() {
    test_transition_between_leafs_across_trees();
}
