use vstd::prelude::*;
use crate::balance::{balanced, coherent};
use crate::executor::Executor;
use crate::planner::root_path;
use crate::state::{Actions, Context, Handled, StateInfo, StateResult};
use crate::topology::{is_leaf, lemma_reaches_root_mono, reaches_root};

verus! {

/// A protocol without content: every message is the same.
pub struct NoMessages;

/// Index of the root state of the sample machine.
pub const BASE_HDL: usize = 0;

/// Index of the state between root and leaf.
pub const INTERMEDIATE_HDL: usize = 1;

/// Index of the only leaf.
pub const BOTTOM_HDL: usize = 2;

/// A three-level machine, `base` above `intermediate` above `bottom`, that
/// counts on its own how often each of its actions ran.
///
/// `bottom` is the only leaf, hence always the current state. It answers
/// every message with a transition to itself, so each dispatch exits and
/// re-enters `bottom` alone, while the two states above it stay active.
pub struct StateMachine {
    pub base_enter_cnt: u64,
    pub base_cnt: u64,
    pub base_exit_cnt: u64,
    pub intermediate_enter_cnt: u64,
    pub intermediate_cnt: u64,
    pub intermediate_exit_cnt: u64,
    pub bottom_enter_cnt: u64,
    pub bottom_cnt: u64,
    pub bottom_exit_cnt: u64,
}

/// One more, as long as the counter has room.
pub open spec fn bumped(cnt: u64) -> u64 {
    if cnt < u64::MAX {
        (cnt + 1) as u64
    } else {
        cnt
    }
}

fn bump(cnt: u64) -> (next: u64)
    ensures
        next == bumped(cnt),
{
    if cnt < u64::MAX {
        cnt + 1
    } else {
        cnt
    }
}

impl StateMachine {
    /// The sample machine inside a ready executor: nothing counted yet,
    /// `bottom` current, and the whole chain waiting to be entered.
    pub fn new() -> (e: Executor<StateMachine>)
        ensures
            e.wf(),
            e.has_room(),
            coherent(e.session()),
            balanced(e.states@),
            e.states@.len() == 3,
            e.idx_current_state == BOTTOM_HDL,
            e.idx_previous_state == BOTTOM_HDL,
            e.current_state_changed,
            e.idxs_enter_fns@ == seq![BOTTOM_HDL, INTERMEDIATE_HDL, BASE_HDL],
            forall|i: int|
                0 <= i < 3 ==> {
                    &&& !(#[trigger] e.states@[i]).active
                    &&& e.states@[i].has_enter
                    &&& e.states@[i].has_exit
                    &&& e.states@[i].enter_cnt == 0
                    &&& e.states@[i].process_cnt == 0
                    &&& e.states@[i].exit_cnt == 0
                },
            e.parents() == seq![None, Some(BASE_HDL), Some(INTERMEDIATE_HDL)],
            e.sm.base_enter_cnt == 0 && e.sm.base_cnt == 0 && e.sm.base_exit_cnt == 0,
            e.sm.intermediate_enter_cnt == 0 && e.sm.intermediate_cnt == 0
                && e.sm.intermediate_exit_cnt == 0,
            e.sm.bottom_enter_cnt == 0 && e.sm.bottom_cnt == 0 && e.sm.bottom_exit_cnt == 0,
    {
        let sm = StateMachine {
            base_enter_cnt: 0,
            base_cnt: 0,
            base_exit_cnt: 0,
            intermediate_enter_cnt: 0,
            intermediate_cnt: 0,
            intermediate_exit_cnt: 0,
            bottom_enter_cnt: 0,
            bottom_cnt: 0,
            bottom_exit_cnt: 0,
        };
        let building = Executor::new(sm, 3)
            .state(StateInfo::new("base", true, true, None))
            .state(StateInfo::new("intermediate", true, true, Some(BASE_HDL)))
            .state(StateInfo::new("bottom", true, true, Some(INTERMEDIATE_HDL)));
        let ghost parents = building.parents();
        proof {
            assert(parents =~= seq![None, Some(BASE_HDL), Some(INTERMEDIATE_HDL)]);
            assert(reaches_root(parents, BASE_HDL, 1));
            assert(reaches_root(parents, INTERMEDIATE_HDL, 2));
            assert(reaches_root(parents, BOTTOM_HDL, 3));
            assert(reaches_root(parents, BASE_HDL, 3));
            lemma_reaches_root_mono(parents, INTERMEDIATE_HDL, 2, 3);
            assert(is_leaf(parents, BOTTOM_HDL));
            assert(root_path(parents, BASE_HDL, 1) =~= seq![BASE_HDL]);
            assert(root_path(parents, INTERMEDIATE_HDL, 2) =~= seq![
                INTERMEDIATE_HDL,
                BASE_HDL,
            ]);
            assert(root_path(parents, BOTTOM_HDL, 3) =~= seq![
                BOTTOM_HDL,
                INTERMEDIATE_HDL,
                BASE_HDL,
            ]);
        }
        match building.initialize(BOTTOM_HDL) {
            Ok(e) => e,
            Err(_) => vstd::pervasive::unreached(),
        }
    }

    pub fn base_enter(&mut self, _msg: &NoMessages)
        ensures
            *final(self) == (StateMachine { base_enter_cnt: bumped(old(self).base_enter_cnt), ..*old(self) }),
    {
        self.base_enter_cnt = bump(self.base_enter_cnt);
    }

    /// `base` handles what reaches it and sends the machine to its leaf.
    pub fn base(&mut self, _msg: &NoMessages) -> (r: StateResult)
        ensures
            *final(self) == (StateMachine { base_cnt: bumped(old(self).base_cnt), ..*old(self) }),
            r == (Handled::Yes, Some(BOTTOM_HDL)),
    {
        self.base_cnt = bump(self.base_cnt);
        (Handled::Yes, Some(BOTTOM_HDL))
    }

    pub fn base_exit(&mut self, _msg: &NoMessages)
        ensures
            *final(self) == (StateMachine { base_exit_cnt: bumped(old(self).base_exit_cnt), ..*old(self) }),
    {
        self.base_exit_cnt = bump(self.base_exit_cnt);
    }

    pub fn intermediate_enter(&mut self, _msg: &NoMessages)
        ensures
            *final(self) == (StateMachine {
                intermediate_enter_cnt: bumped(old(self).intermediate_enter_cnt),
                ..*old(self)
            }),
    {
        self.intermediate_enter_cnt = bump(self.intermediate_enter_cnt);
    }

    /// `intermediate` handles what reaches it and asks for nothing.
    pub fn intermediate(&mut self, _msg: &NoMessages) -> (r: StateResult)
        ensures
            *final(self) == (StateMachine {
                intermediate_cnt: bumped(old(self).intermediate_cnt),
                ..*old(self)
            }),
            r == (Handled::Yes, None::<usize>),
    {
        self.intermediate_cnt = bump(self.intermediate_cnt);
        (Handled::Yes, None)
    }

    pub fn intermediate_exit(&mut self, _msg: &NoMessages)
        ensures
            *final(self) == (StateMachine {
                intermediate_exit_cnt: bumped(old(self).intermediate_exit_cnt),
                ..*old(self)
            }),
    {
        self.intermediate_exit_cnt = bump(self.intermediate_exit_cnt);
    }

    pub fn bottom_enter(&mut self, _msg: &NoMessages)
        ensures
            *final(self) == (StateMachine {
                bottom_enter_cnt: bumped(old(self).bottom_enter_cnt),
                ..*old(self)
            }),
    {
        self.bottom_enter_cnt = bump(self.bottom_enter_cnt);
    }

    /// `bottom` handles every message and asks for a transition to itself.
    pub fn bottom(&mut self, _msg: &NoMessages) -> (r: StateResult)
        ensures
            *final(self) == (StateMachine { bottom_cnt: bumped(old(self).bottom_cnt), ..*old(self) }),
            r == (Handled::Yes, Some(BOTTOM_HDL)),
    {
        self.bottom_cnt = bump(self.bottom_cnt);
        (Handled::Yes, Some(BOTTOM_HDL))
    }

    pub fn bottom_exit(&mut self, _msg: &NoMessages)
        ensures
            *final(self) == (StateMachine {
                bottom_exit_cnt: bumped(old(self).bottom_exit_cnt),
                ..*old(self)
            }),
    {
        self.bottom_exit_cnt = bump(self.bottom_exit_cnt);
    }
}

impl StateMachine {
    /// The machine after the enter action of state `idx`.
    pub open spec fn entered(self, idx: usize) -> StateMachine {
        if idx == BASE_HDL {
            StateMachine { base_enter_cnt: bumped(self.base_enter_cnt), ..self }
        } else if idx == INTERMEDIATE_HDL {
            StateMachine { intermediate_enter_cnt: bumped(self.intermediate_enter_cnt), ..self }
        } else if idx == BOTTOM_HDL {
            StateMachine { bottom_enter_cnt: bumped(self.bottom_enter_cnt), ..self }
        } else {
            self
        }
    }

    /// The machine after the process action of state `idx`.
    pub open spec fn processed(self, idx: usize) -> StateMachine {
        if idx == BASE_HDL {
            StateMachine { base_cnt: bumped(self.base_cnt), ..self }
        } else if idx == INTERMEDIATE_HDL {
            StateMachine { intermediate_cnt: bumped(self.intermediate_cnt), ..self }
        } else if idx == BOTTOM_HDL {
            StateMachine { bottom_cnt: bumped(self.bottom_cnt), ..self }
        } else {
            self
        }
    }

    /// What state `idx` answers to any message; an index without a state
    /// leaves the message alone.
    pub open spec fn answer(idx: usize) -> StateResult {
        if idx == BASE_HDL || idx == BOTTOM_HDL {
            (Handled::Yes, Some(BOTTOM_HDL))
        } else if idx == INTERMEDIATE_HDL {
            (Handled::Yes, None)
        } else {
            (Handled::No, None)
        }
    }

    /// The machine after the exit action of state `idx`.
    pub open spec fn exited(self, idx: usize) -> StateMachine {
        if idx == BASE_HDL {
            StateMachine { base_exit_cnt: bumped(self.base_exit_cnt), ..self }
        } else if idx == INTERMEDIATE_HDL {
            StateMachine { intermediate_exit_cnt: bumped(self.intermediate_exit_cnt), ..self }
        } else if idx == BOTTOM_HDL {
            StateMachine { bottom_exit_cnt: bumped(self.bottom_exit_cnt), ..self }
        } else {
            self
        }
    }
}

impl Actions<NoMessages> for StateMachine {
    fn enter(&mut self, idx: usize, msg: &NoMessages)
        ensures
            *final(self) == old(self).entered(idx),
    {
        if idx == BASE_HDL {
            self.base_enter(msg);
        } else if idx == INTERMEDIATE_HDL {
            self.intermediate_enter(msg);
        } else if idx == BOTTOM_HDL {
            self.bottom_enter(msg);
        }
    }

    fn process(&mut self, _ctx: &Context, idx: usize, msg: &NoMessages) -> (r: StateResult)
        ensures
            *final(self) == old(self).processed(idx),
            r == StateMachine::answer(idx),
    {
        if idx == BASE_HDL {
            self.base(msg)
        } else if idx == INTERMEDIATE_HDL {
            self.intermediate(msg)
        } else if idx == BOTTOM_HDL {
            self.bottom(msg)
        } else {
            (Handled::No, None)
        }
    }

    fn exit(&mut self, idx: usize, msg: &NoMessages)
        ensures
            *final(self) == old(self).exited(idx),
    {
        if idx == BASE_HDL {
            self.base_exit(msg);
        } else if idx == INTERMEDIATE_HDL {
            self.intermediate_exit(msg);
        } else if idx == BOTTOM_HDL {
            self.bottom_exit(msg);
        }
    }
}

} // verus!
