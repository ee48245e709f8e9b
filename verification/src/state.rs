use vstd::prelude::*;

verus! {

/// Whether a process action consumed the message.
#[derive(Debug, Clone, Copy, PartialEq, Eq, Structural)]
pub enum Handled {
    Yes,
    No,
}

/// Index of the state a process action asks to move to.
pub type Transition = usize;

/// What a process action answers: whether it handled the message, and an
/// optional transition request.
pub type StateResult = (Handled, Option<Transition>);

/// The answer of a process action that consumed the message and asks for
/// nothing.
pub fn handled() -> (r: StateResult)
    ensures
        r == (Handled::Yes, None::<Transition>),
{
    (Handled::Yes, None)
}

/// The answer of a process action that leaves the message to its parent.
pub fn not_handled() -> (r: StateResult)
    ensures
        r == (Handled::No, None::<Transition>),
{
    (Handled::No, None)
}

/// The answer of a process action that consumed the message and asks for a
/// transition to state `idx`.
pub fn transition_to(idx: Transition) -> (r: StateResult)
    ensures
        r == (Handled::Yes, Some(idx)),
{
    (Handled::Yes, Some(idx))
}

/// Why an executor could not be made ready.
#[derive(Debug, Clone, Copy, PartialEq, Eq, Structural)]
pub enum BuildError {
    /// Some state names a parent that was never registered.
    UnknownParent,
    /// The parent links contain a cycle.
    CycleDetected,
    /// The initial state is out of range or has children.
    InvalidInitialState,
}

/// Why a dispatch could not complete.
#[derive(Debug, Clone, Copy, PartialEq, Eq, Structural)]
pub enum DispatchError {
    /// A process action asked for a transition to a state that is out of
    /// range or has children; the request is carried along.
    InvalidTransitionTarget(usize),
}

/// The actions of a host object, addressed by state index.
///
/// The engine calls `enter` and `exit` only for states registered with the
/// matching action, and `process` for the current state and, while the
/// message is not handled, for each of its ancestors in turn. A process
/// action may read the state table through its context; it cannot reach the
/// engine itself, so it cannot dispatch from within a dispatch.
pub trait Actions<P> {
    fn enter(&mut self, idx: usize, msg: &P);

    fn process(&mut self, ctx: &Context, idx: usize, msg: &P) -> StateResult;

    fn exit(&mut self, idx: usize, msg: &P);
}

/// Per-state record of the state table.
pub struct StateInfo {
    /// For diagnostics only; names need not differ.
    pub name: String,
    /// Index of the parent state; `None` for a root.
    pub parent: Option<usize>,
    /// Whether the host has an enter action for this state.
    pub has_enter: bool,
    /// Whether the host has an exit action for this state.
    pub has_exit: bool,
    /// Set when the state is entered, cleared when it is exited, with or
    /// without an action.
    pub active: bool,
    /// How often the enter action ran.
    pub enter_cnt: usize,
    /// How often the process action was asked, handled or not.
    pub process_cnt: usize,
    /// How often the exit action ran.
    pub exit_cnt: usize,
}

impl StateInfo {
    /// A fresh record: inactive, all counters zero.
    pub fn new(name: &str, has_enter: bool, has_exit: bool, idx_parent: Option<usize>) -> (info: Self)
        ensures
            info.name@ == name@,
            info.parent == idx_parent,
            info.has_enter == has_enter,
            info.has_exit == has_exit,
            !info.active,
            info.enter_cnt == 0,
            info.process_cnt == 0,
            info.exit_cnt == 0,
    {
        StateInfo {
            name: name.to_owned(),
            parent: idx_parent,
            has_enter,
            has_exit,
            active: false,
            enter_cnt: 0,
            process_cnt: 0,
            exit_cnt: 0,
        }
    }
}

/// What a process action may read of the engine while it runs: the state
/// table and the index of the current state.
pub struct Context<'a> {
    pub states: &'a Vec<StateInfo>,
    pub idx_current_state: usize,
}

impl<'a> Context<'a> {
    pub fn get_state_name(&self, idx: usize) -> (name: &str)
        requires
            idx < self.states@.len(),
        ensures
            name@ == self.states@[idx as int].name@,
    {
        self.states[idx].name.as_str()
    }

    pub fn get_current_state_name(&self) -> (name: &str)
        requires
            self.idx_current_state < self.states@.len(),
        ensures
            name@ == self.states@[self.idx_current_state as int].name@,
    {
        self.get_state_name(self.idx_current_state)
    }
}

} // verus!
