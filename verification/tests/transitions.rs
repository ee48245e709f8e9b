use hsm0_executor::executor::Executor;
use hsm0_executor::state::{handled, transition_to, Actions, Context, StateInfo, StateResult};

struct NoMessages;

/// A host that counts the calls of each action and answers from a table:
/// `answer(state, n)` is what `state` says the `n`-th time it is asked.
struct Script {
    enter_cnt: Vec<usize>,
    process_cnt: Vec<usize>,
    exit_cnt: Vec<usize>,
    answer: fn(usize, usize) -> StateResult,
}

impl Actions<NoMessages> for Script {
    fn enter(&mut self, idx: usize, _msg: &NoMessages) {
        self.enter_cnt[idx] += 1;
    }

    fn process(&mut self, _ctx: &Context, idx: usize, _msg: &NoMessages) -> StateResult {
        self.process_cnt[idx] += 1;
        (self.answer)(idx, self.process_cnt[idx])
    }

    fn exit(&mut self, idx: usize, _msg: &NoMessages) {
        self.exit_cnt[idx] += 1;
    }
}

fn machine(
    states: &[(&str, bool, bool, Option<usize>)],
    initial: usize,
    answer: fn(usize, usize) -> StateResult,
) -> Executor<Script> {
    let host = Script {
        enter_cnt: vec![0; states.len()],
        process_cnt: vec![0; states.len()],
        exit_cnt: vec![0; states.len()],
        answer,
    };
    let mut building = Executor::new(host, states.len());
    for (name, has_enter, has_exit, parent) in states {
        building = building.state(StateInfo::new(name, *has_enter, *has_exit, *parent));
    }
    match building.initialize(initial) {
        Ok(ready) => ready,
        Err(e) => panic!("the table was refused: {:?}", e),
    }
}

#[test]
fn test_transitions_with_one_state() {
    let initial: usize = 0;
    let mut fsm = machine(
        &[("initial", true, true, None)],
        0,
        |_state, _n| transition_to(0),
    );
    assert_eq!(fsm.get_sm().enter_cnt[initial], 0);
    assert_eq!(fsm.get_sm().process_cnt[initial], 0);
    assert_eq!(fsm.get_sm().exit_cnt[initial], 0);

    fsm.dispatch(&NoMessages).unwrap();
    assert_eq!(fsm.get_sm().enter_cnt[initial], 1);
    assert_eq!(fsm.get_sm().process_cnt[initial], 1);
    assert_eq!(fsm.get_sm().exit_cnt[initial], 1);

    fsm.dispatch(&NoMessages).unwrap();
    assert_eq!(fsm.get_sm().enter_cnt[initial], 2);
    assert_eq!(fsm.get_sm().process_cnt[initial], 2);
    assert_eq!(fsm.get_sm().exit_cnt[initial], 2);

    fsm.dispatch(&NoMessages).unwrap();
    assert_eq!(fsm.get_sm().enter_cnt[initial], 3);
    assert_eq!(fsm.get_sm().process_cnt[initial], 3);
    assert_eq!(fsm.get_sm().exit_cnt[initial], 3);
}

#[test]
fn test_transitions_between_two_unrelated_states() {
    let initial: usize = 0;
    let other: usize = 1;
    let mut fsm = machine(
        &[("initial", true, true, None), ("other", true, true, None)],
        0,
        |state, _n| if state == 0 { transition_to(1) } else { transition_to(0) },
    );
    assert_eq!(fsm.get_sm().enter_cnt[initial], 0);
    assert_eq!(fsm.get_sm().process_cnt[initial], 0);
    assert_eq!(fsm.get_sm().exit_cnt[initial], 0);
    assert_eq!(fsm.get_sm().enter_cnt[other], 0);
    assert_eq!(fsm.get_sm().process_cnt[other], 0);
    assert_eq!(fsm.get_sm().exit_cnt[other], 0);

    fsm.dispatch(&NoMessages).unwrap();
    assert_eq!(fsm.get_sm().enter_cnt[initial], 1);
    assert_eq!(fsm.get_sm().process_cnt[initial], 1);
    assert_eq!(fsm.get_sm().exit_cnt[initial], 1);
    assert_eq!(fsm.get_sm().enter_cnt[other], 0);
    assert_eq!(fsm.get_sm().process_cnt[other], 0);
    assert_eq!(fsm.get_sm().exit_cnt[other], 0);

    fsm.dispatch(&NoMessages).unwrap();
    assert_eq!(fsm.get_sm().enter_cnt[initial], 1);
    assert_eq!(fsm.get_sm().process_cnt[initial], 1);
    assert_eq!(fsm.get_sm().exit_cnt[initial], 1);
    assert_eq!(fsm.get_sm().enter_cnt[other], 1);
    assert_eq!(fsm.get_sm().process_cnt[other], 1);
    assert_eq!(fsm.get_sm().exit_cnt[other], 1);

    fsm.dispatch(&NoMessages).unwrap();
    assert_eq!(fsm.get_sm().enter_cnt[initial], 2);
    assert_eq!(fsm.get_sm().process_cnt[initial], 2);
    assert_eq!(fsm.get_sm().exit_cnt[initial], 2);
    assert_eq!(fsm.get_sm().enter_cnt[other], 1);
    assert_eq!(fsm.get_sm().process_cnt[other], 1);
    assert_eq!(fsm.get_sm().exit_cnt[other], 1);

    fsm.dispatch(&NoMessages).unwrap();
    assert_eq!(fsm.get_sm().enter_cnt[initial], 2);
    assert_eq!(fsm.get_sm().process_cnt[initial], 2);
    assert_eq!(fsm.get_sm().exit_cnt[initial], 2);
    assert_eq!(fsm.get_sm().enter_cnt[other], 2);
    assert_eq!(fsm.get_sm().process_cnt[other], 2);
    assert_eq!(fsm.get_sm().exit_cnt[other], 2);

    fsm.dispatch(&NoMessages).unwrap();
    assert_eq!(fsm.get_sm().enter_cnt[initial], 3);
    assert_eq!(fsm.get_sm().process_cnt[initial], 3);
    assert_eq!(fsm.get_sm().exit_cnt[initial], 3);
    assert_eq!(fsm.get_sm().enter_cnt[other], 2);
    assert_eq!(fsm.get_sm().process_cnt[other], 2);
    assert_eq!(fsm.get_sm().exit_cnt[other], 2);
}

#[test]
fn test_transitions_between_leafs_of_trees() {
    let initial_base: usize = 0;
    let initial: usize = 1;
    let other_base: usize = 2;
    let other: usize = 3;
    let mut sm = machine(
        &[("initial_base", true, true, None), ("initial", true, true, Some(initial_base)), ("other_base", true, true, None), ("other", true, true, Some(other_base))],
        initial,
        |state, _n| match state {
            1 => transition_to(3),
            3 => transition_to(1),
            _ => handled(),
        },
    );
    assert_eq!(sm.get_sm().enter_cnt[initial_base], 0);
    assert_eq!(sm.get_sm().process_cnt[initial_base], 0);
    assert_eq!(sm.get_sm().exit_cnt[initial_base], 0);
    assert_eq!(sm.get_sm().enter_cnt[initial], 0);
    assert_eq!(sm.get_sm().process_cnt[initial], 0);
    assert_eq!(sm.get_sm().exit_cnt[initial], 0);
    assert_eq!(sm.get_sm().enter_cnt[other_base], 0);
    assert_eq!(sm.get_sm().process_cnt[other_base], 0);
    assert_eq!(sm.get_sm().exit_cnt[other_base], 0);
    assert_eq!(sm.get_sm().enter_cnt[other], 0);
    assert_eq!(sm.get_sm().process_cnt[other], 0);
    assert_eq!(sm.get_sm().exit_cnt[other], 0);

    sm.dispatch(&NoMessages).unwrap();
    assert_eq!(sm.get_sm().enter_cnt[initial_base], 1);
    assert_eq!(sm.get_sm().process_cnt[initial_base], 0);
    assert_eq!(sm.get_sm().exit_cnt[initial_base], 1);
    assert_eq!(sm.get_sm().enter_cnt[initial], 1);
    assert_eq!(sm.get_sm().process_cnt[initial], 1);
    assert_eq!(sm.get_sm().exit_cnt[initial], 1);
    assert_eq!(sm.get_sm().enter_cnt[other_base], 0);
    assert_eq!(sm.get_sm().process_cnt[other_base], 0);
    assert_eq!(sm.get_sm().exit_cnt[other_base], 0);
    assert_eq!(sm.get_sm().enter_cnt[other], 0);
    assert_eq!(sm.get_sm().process_cnt[other], 0);
    assert_eq!(sm.get_sm().exit_cnt[other], 0);

    sm.dispatch(&NoMessages).unwrap();
    assert_eq!(sm.get_sm().enter_cnt[initial_base], 1);
    assert_eq!(sm.get_sm().process_cnt[initial_base], 0);
    assert_eq!(sm.get_sm().exit_cnt[initial_base], 1);
    assert_eq!(sm.get_sm().enter_cnt[initial], 1);
    assert_eq!(sm.get_sm().process_cnt[initial], 1);
    assert_eq!(sm.get_sm().exit_cnt[initial], 1);
    assert_eq!(sm.get_sm().enter_cnt[other_base], 1);
    assert_eq!(sm.get_sm().process_cnt[other_base], 0);
    assert_eq!(sm.get_sm().exit_cnt[other_base], 1);
    assert_eq!(sm.get_sm().enter_cnt[other], 1);
    assert_eq!(sm.get_sm().process_cnt[other], 1);
    assert_eq!(sm.get_sm().exit_cnt[other], 1);

    sm.dispatch(&NoMessages).unwrap();
    assert_eq!(sm.get_sm().enter_cnt[initial_base], 2);
    assert_eq!(sm.get_sm().process_cnt[initial_base], 0);
    assert_eq!(sm.get_sm().exit_cnt[initial_base], 2);
    assert_eq!(sm.get_sm().enter_cnt[initial], 2);
    assert_eq!(sm.get_sm().process_cnt[initial], 2);
    assert_eq!(sm.get_sm().exit_cnt[initial], 2);
    assert_eq!(sm.get_sm().enter_cnt[other_base], 1);
    assert_eq!(sm.get_sm().process_cnt[other_base], 0);
    assert_eq!(sm.get_sm().exit_cnt[other_base], 1);
    assert_eq!(sm.get_sm().enter_cnt[other], 1);
    assert_eq!(sm.get_sm().process_cnt[other], 1);
    assert_eq!(sm.get_sm().exit_cnt[other], 1);

    sm.dispatch(&NoMessages).unwrap();
    assert_eq!(sm.get_sm().enter_cnt[initial_base], 2);
    assert_eq!(sm.get_sm().process_cnt[initial_base], 0);
    assert_eq!(sm.get_sm().exit_cnt[initial_base], 2);
    assert_eq!(sm.get_sm().enter_cnt[initial], 2);
    assert_eq!(sm.get_sm().process_cnt[initial], 2);
    assert_eq!(sm.get_sm().exit_cnt[initial], 2);
    assert_eq!(sm.get_sm().enter_cnt[other_base], 2);
    assert_eq!(sm.get_sm().process_cnt[other_base], 0);
    assert_eq!(sm.get_sm().exit_cnt[other_base], 2);
    assert_eq!(sm.get_sm().enter_cnt[other], 2);
    assert_eq!(sm.get_sm().process_cnt[other], 2);
    assert_eq!(sm.get_sm().exit_cnt[other], 2);

    sm.dispatch(&NoMessages).unwrap();
    assert_eq!(sm.get_sm().enter_cnt[initial_base], 3);
    assert_eq!(sm.get_sm().process_cnt[initial_base], 0);
    assert_eq!(sm.get_sm().exit_cnt[initial_base], 3);
    assert_eq!(sm.get_sm().enter_cnt[initial], 3);
    assert_eq!(sm.get_sm().process_cnt[initial], 3);
    assert_eq!(sm.get_sm().exit_cnt[initial], 3);
    assert_eq!(sm.get_sm().enter_cnt[other_base], 2);
    assert_eq!(sm.get_sm().process_cnt[other_base], 0);
    assert_eq!(sm.get_sm().exit_cnt[other_base], 2);
    assert_eq!(sm.get_sm().enter_cnt[other], 2);
    assert_eq!(sm.get_sm().process_cnt[other], 2);
    assert_eq!(sm.get_sm().exit_cnt[other], 2);
}
