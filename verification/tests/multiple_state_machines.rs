use hsm0_executor::executor::Executor;
use hsm0_executor::state::{Actions, Context, Handled, StateInfo, StateResult};

struct NoMessages;

// Simple FSM
struct SimpleFsm {
    initial_counter: u64,
}

impl Actions<NoMessages> for SimpleFsm {
    fn enter(&mut self, _idx: usize, _msg: &NoMessages) {}

    fn process(&mut self, _ctx: &Context, _idx: usize, _msg: &NoMessages) -> StateResult {
        // Mutate the state
        self.initial_counter += 1;
        (Handled::Yes, None)
    }

    fn exit(&mut self, _idx: usize, _msg: &NoMessages) {}
}

// Simple HSM: `initial` lets its parent `base` handle all invocations
struct SimpleHsm {
    base_counter: u64,
    initial_counter: u64,
}

impl Actions<NoMessages> for SimpleHsm {
    fn enter(&mut self, _idx: usize, _msg: &NoMessages) {}

    fn process(&mut self, _ctx: &Context, idx: usize, _msg: &NoMessages) -> StateResult {
        if idx == 0 {
            self.base_counter += 1;
            (Handled::Yes, None)
        } else {
            self.initial_counter += 1;
            (Handled::No, None)
        }
    }

    fn exit(&mut self, _idx: usize, _msg: &NoMessages) {}
}

// A more complex Hsm
struct MyHsm {
    a_i32: i32,
}

const INITIAL: usize = 1;
const DO_WORK: usize = 2;
const DONE: usize = 3;

impl MyHsm {
    fn non_state_fn(&mut self) {
        self.a_i32 += 1;
        println!("non_state_fn: self.data={}", self.a_i32);
    }
}

impl Actions<NoMessages> for MyHsm {
    fn enter(&mut self, _idx: usize, _msg: &NoMessages) {
        println!("initial: enter self.a_i32={}", self.a_i32);
    }

    fn process(&mut self, _ctx: &Context, idx: usize, _msg: &NoMessages) -> StateResult {
        match idx {
            INITIAL => {
                self.non_state_fn();
                (Handled::Yes, Some(DO_WORK))
            }
            DO_WORK => {
                self.a_i32 += 1;
                (Handled::Yes, Some(DONE))
            }
            DONE => {
                self.a_i32 += 1;
                (Handled::Yes, None)
            }
            0 => (Handled::Yes, None),
            _ => {
                self.a_i32 += 1;
                (Handled::No, None)
            }
        }
    }

    fn exit(&mut self, _idx: usize, _msg: &NoMessages) {
        println!("initial: exit  self.a_i32={}", self.a_i32);
    }
}

#[test]
fn multiple_state_machines() {
    let msg = NoMessages;

    let mut simple_fsm = Executor::new(SimpleFsm { initial_counter: 0 }, 1)
        .state(StateInfo::new("initial", false, false, None))
        .initialize(0)
        .unwrap();
    simple_fsm.dispatch(&msg).unwrap();
    assert_eq!(simple_fsm.get_sm().initial_counter, 1);
    println!(
        "main: simple_fsm.initial_counter={}",
        simple_fsm.get_sm().initial_counter
    );

    let mut simple_hsm = Executor::new(
        SimpleHsm {
            base_counter: 0,
            initial_counter: 0,
        },
        2,
    )
    .state(StateInfo::new("base", false, false, None))
    .state(StateInfo::new("initial", false, false, Some(0)))
    .initialize(1)
    .unwrap();
    simple_hsm.dispatch(&msg).unwrap();
    assert_eq!(simple_hsm.get_sm().base_counter, 1);
    assert_eq!(simple_hsm.get_sm().initial_counter, 1);
    println!(
        "main: simple_hsm.base_counter={}",
        simple_hsm.get_sm().base_counter
    );
    println!(
        "main: simple_hsm.initial_counter={}",
        simple_hsm.get_sm().initial_counter
    );

    let mut my_hsm = Executor::new(MyHsm { a_i32: 0 }, 5)
        .state(StateInfo::new("initial_parent", false, false, None))
        .state(StateInfo::new("initial", true, true, None))
        .state(StateInfo::new("do_work", false, false, None))
        .state(StateInfo::new("done", false, false, None))
        .state(StateInfo::new("do_nothing_ret_not_handled", false, false, None))
        .initialize(INITIAL)
        .unwrap();
    assert_eq!(my_hsm.idx_current_state, 1);
    assert_eq!(my_hsm.idx_previous_state, 1);
    assert!(my_hsm.current_state_changed);

    my_hsm.sm.a_i32 = 123;
    println!("main: my_hsm.a_i32={}", my_hsm.get_sm().a_i32);

    // Invoke initial
    my_hsm.dispatch(&msg).unwrap();
    println!("main: my_hsm.a_i32={}", my_hsm.get_sm().a_i32);
    assert_eq!(my_hsm.idx_current_state, 2);
    assert_eq!(my_hsm.idx_previous_state, 1);
    assert!(my_hsm.current_state_changed);

    // Invoke do_work
    my_hsm.dispatch(&msg).unwrap();
    println!("main: my_hsm.a_i32={}", my_hsm.get_sm().a_i32);
    assert_eq!(my_hsm.idx_current_state, 3);
    assert_eq!(my_hsm.idx_previous_state, 2);
    assert!(my_hsm.current_state_changed);

    // Invoke done
    my_hsm.dispatch(&msg).unwrap();
    println!("main: my_hsm.a_i32={}", my_hsm.get_sm().a_i32);
    assert_eq!(my_hsm.idx_current_state, 3);
    assert_eq!(my_hsm.idx_previous_state, 2);
    assert!(!my_hsm.current_state_changed);

    // Invoke done again
    my_hsm.dispatch(&msg).unwrap();
    println!("main: my_hsm.a_i32={}", my_hsm.get_sm().a_i32);
    assert_eq!(my_hsm.idx_current_state, 3);
    assert_eq!(my_hsm.idx_previous_state, 2);
    assert!(!my_hsm.current_state_changed);
    assert_eq!(my_hsm.get_sm().a_i32, 127);
}
