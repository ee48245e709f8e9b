use vstd::prelude::*;
use crate::engine::{ready, room, EngineState};
use crate::planner::distinct;
use crate::state::StateInfo;
use crate::topology::{acyclic, is_leaf, is_target, leaf_list, parents_in_range, parents_of};

verus! {

/// The state table of a host object together with the session state of the
/// engine that drives it.
pub struct Executor<SM> {
    pub sm: SM,
    pub states: Vec<StateInfo>,
    pub current_state_changed: bool,
    pub idx_transition_dest: Option<usize>,
    pub idx_current_state: usize,
    pub idx_previous_state: usize,
    /// States still to be entered; consumed last-appended-first.
    pub idxs_enter_fns: Vec<usize>,
    /// States still to be exited; consumed first-appended-first.
    pub idxs_exit_fns: Vec<usize>,
    /// The leaves, in registration order.
    pub transition_targets: Vec<usize>,
    /// For each state, whether it is a leaf.
    pub transition_targets_set: Vec<bool>,
}

impl<SM> Executor<SM> {
    /// What the engine knows between two dispatches.
    pub open spec fn session(&self) -> EngineState {
        EngineState {
            states: self.states@,
            current: self.idx_current_state,
            previous: self.idx_previous_state,
            changed: self.current_state_changed,
            pending: self.idxs_enter_fns@,
        }
    }

    /// The parent link of every registered state.
    pub open spec fn parents(&self) -> Seq<Option<usize>> {
        parents_of(self.states@)
    }

    /// The leaf tables computed at validation.
    pub open spec fn tables(&self) -> (Seq<usize>, Seq<bool>) {
        (self.transition_targets@, self.transition_targets_set@)
    }

    /// Current state, previous state, the changed flag and the captured
    /// transition request.
    pub open spec fn cursor(&self) -> (usize, usize, bool, Option<usize>) {
        (
            self.idx_current_state,
            self.idx_previous_state,
            self.current_state_changed,
            self.idx_transition_dest,
        )
    }

    /// Every counter can still grow by one.
    pub open spec fn has_room(&self) -> bool {
        room(self.states@)
    }

    /// The table passed validation and the leaf tables describe it: parent
    /// links are in range and form a forest, and the current state is a leaf.
    pub open spec fn validated(&self) -> bool {
        &&& parents_in_range(self.parents())
        &&& acyclic(self.parents())
        &&& self.transition_targets_set@.len() == self.states@.len()
        &&& forall|i: int|
            0 <= i < self.states@.len() ==> #[trigger] self.transition_targets_set@[i] == is_leaf(
                self.parents(),
                i as usize,
            )
        &&& self.transition_targets@ == leaf_list(self.parents(), self.states@.len() as int)
        &&& is_target(self.parents(), self.idx_current_state)
        &&& self.idx_previous_state < self.states@.len()
    }

    /// The executor is in the middle of a dispatch, after the pending enters
    /// have run and before a captured transition request is applied.
    pub open spec fn processing(&self) -> bool {
        &&& self.validated()
        &&& !self.current_state_changed
        &&& self.idxs_enter_fns@.len() == 0
        &&& self.idxs_exit_fns@.len() == 0
    }

    /// The executor is ready to dispatch: its table is validated, the
    /// pending enter list names registered states, each once, and nothing
    /// else of a dispatch is left over.
    pub open spec fn wf(&self) -> bool {
        &&& self.validated()
        &&& self.idxs_enter_fns@.len() <= self.states@.len()
        &&& forall|i: int|
            0 <= i < self.idxs_enter_fns@.len() ==> #[trigger] self.idxs_enter_fns@[i]
                < self.states@.len()
        &&& distinct(self.idxs_enter_fns@)
        &&& (!self.current_state_changed ==> self.idxs_enter_fns@.len() == 0)
        &&& self.idxs_exit_fns@.len() == 0
        &&& self.idx_transition_dest is None
    }

    /// A well-formed executor holds a session that is ready for a dispatch.
    pub proof fn lemma_wf_session_ready(&self)
        requires
            self.wf(),
        ensures
            ready(self.session()),
            room(self.session().states) == self.has_room(),
    {
    }

    /// Begin building an executor around the host object `sm`; `max_states`
    /// sizes the table. States are added with `state`.
    pub fn new(sm: SM, max_states: usize) -> (e: Self)
        ensures
            e.sm == sm,
            e.states@.len() == 0,
            e.current_state_changed,
            e.idx_transition_dest is None,
            e.idx_current_state == 0,
            e.idx_previous_state == 0,
            e.idxs_enter_fns@.len() == 0,
            e.idxs_exit_fns@.len() == 0,
            e.transition_targets@.len() == 0,
            e.transition_targets_set@.len() == 0,
    {
        Executor {
            sm,
            states: Vec::with_capacity(max_states),
            current_state_changed: true,
            idx_transition_dest: None,
            idx_current_state: 0,
            idx_previous_state: 0,
            idxs_enter_fns: Vec::with_capacity(max_states),
            idxs_exit_fns: Vec::with_capacity(max_states),
            transition_targets: Vec::with_capacity(max_states),
            transition_targets_set: Vec::with_capacity(max_states),
        }
    }

    /// Register a state. Its index is the number of states registered before
    /// it, whatever is registered later and whichever state becomes initial.
    pub fn state(self, state_info: StateInfo) -> (e: Self)
        ensures
            e.states@ == self.states@.push(state_info),
            e.states@[self.states@.len() as int] == state_info,
            e.sm == self.sm,
            e.current_state_changed == self.current_state_changed,
            e.idx_transition_dest == self.idx_transition_dest,
            e.idx_current_state == self.idx_current_state,
            e.idx_previous_state == self.idx_previous_state,
            e.idxs_enter_fns@ == self.idxs_enter_fns@,
            e.idxs_exit_fns@ == self.idxs_exit_fns@,
            e.transition_targets@ == self.transition_targets@,
            e.transition_targets_set@ == self.transition_targets_set@,
    {
        let mut e = self;
        e.states.push(state_info);
        e
    }

    pub fn get_state_name(&self, idx: usize) -> (name: &str)
        requires
            idx < self.states@.len(),
        ensures
            name@ == self.states@[idx as int].name@,
    {
        self.states[idx].name.as_str()
    }

    pub fn get_current_state_name(&self) -> (name: &str)
        requires
            self.idx_current_state < self.states@.len(),
        ensures
            name@ == self.states@[self.idx_current_state as int].name@,
    {
        self.get_state_name(self.idx_current_state)
    }

    pub fn get_sm(&self) -> (sm: &SM)
        ensures
            *sm == self.sm,
    {
        &self.sm
    }

    pub fn get_state_enter_cnt(&self, idx: usize) -> (cnt: usize)
        requires
            idx < self.states@.len(),
        ensures
            cnt == self.states@[idx as int].enter_cnt,
    {
        self.states[idx].enter_cnt
    }

    pub fn get_state_process_cnt(&self, idx: usize) -> (cnt: usize)
        requires
            idx < self.states@.len(),
        ensures
            cnt == self.states@[idx as int].process_cnt,
    {
        self.states[idx].process_cnt
    }

    pub fn get_state_exit_cnt(&self, idx: usize) -> (cnt: usize)
        requires
            idx < self.states@.len(),
        ensures
            cnt == self.states@[idx as int].exit_cnt,
    {
        self.states[idx].exit_cnt
    }
}

} // verus!
