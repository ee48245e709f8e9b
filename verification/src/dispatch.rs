use vstd::prelude::*;
use crate::balance::{balanced, coherent, lemma_dispatch_keeps_balance};
use crate::engine::{
    after_dispatch, asked_all, bubble, bubbles_to, captured, enter_all, exit_all,
    lemma_enter_all_frame, lemma_exit_all_frame, mark_entered, mark_exited, mark_processed,
    outcome, same_shape,
};
use crate::executor::Executor;
use crate::planner::{depth, distinct, enter_list, exit_list, lemma_parent_depth};
use crate::state::{Actions, Context, DispatchError, Handled, StateResult};
use crate::topology::{acyclic, is_target, parents_in_range, parents_of};

verus! {

impl<SM> Executor<SM> {
    /// Whether every counter can still grow by one, as a dispatch needs.
    pub fn counters_have_room(&self) -> (room: bool)
        ensures
            room == self.has_room(),
    {
        let n = self.states.len();
        let mut idx: usize = 0;
        while idx < n
            invariant
                n == self.states@.len(),
                idx <= n,
                forall|i: int|
                    0 <= i < idx ==> {
                        &&& (#[trigger] self.states@[i]).enter_cnt < usize::MAX
                        &&& self.states@[i].process_cnt < usize::MAX
                        &&& self.states@[i].exit_cnt < usize::MAX
                    },
            decreases n - idx,
        {
            if self.states[idx].enter_cnt == usize::MAX || self.states[idx].process_cnt
                == usize::MAX || self.states[idx].exit_cnt == usize::MAX {
                return false;
            }
            idx += 1;
        }
        true
    }

    /// Take in the answer that state `idx` gave to the message: keep its
    /// transition request unless an earlier one stands, and say where the
    /// message goes next.
    pub fn take_answer(&mut self, idx: usize, answer: StateResult) -> (next: Option<usize>)
        requires
            idx < old(self).states@.len(),
        ensures
            final(self).idx_transition_dest == captured(old(self).idx_transition_dest, answer.1),
            next == bubbles_to(answer.0, old(self).states@[idx as int].parent),
            final(self).sm == old(self).sm,
            final(self).states@ == old(self).states@,
            final(self).idxs_enter_fns@ == old(self).idxs_enter_fns@,
            final(self).idxs_exit_fns@ == old(self).idxs_exit_fns@,
            final(self).tables() == old(self).tables(),
            final(self).idx_current_state == old(self).idx_current_state,
            final(self).idx_previous_state == old(self).idx_previous_state,
            final(self).current_state_changed == old(self).current_state_changed,
    {
        let (handled, transition) = answer;
        if self.idx_transition_dest.is_none() {
            self.idx_transition_dest = transition;
        }
        match handled {
            Handled::No => self.states[idx].parent,
            Handled::Yes => None,
        }
    }

    /// Apply the transition request that the bubbling captured, if any: plan
    /// the exits and enters, and make the destination the current state.
    /// A request for a state that is no leaf of the table fails, and leaves
    /// the current state as it is.
    pub fn apply_transition(&mut self) -> (result: Result<(), DispatchError>)
        requires
            old(self).processing(),
        ensures
            final(self).sm == old(self).sm,
            final(self).states@ == old(self).states@,
            final(self).tables() == old(self).tables(),
            final(self).idx_transition_dest is None,
            match old(self).idx_transition_dest {
                Some(next) => if is_target(old(self).parents(), next) {
                    &&& result == Ok::<(), DispatchError>(())
                    &&& final(self).idx_current_state == next
                    &&& final(self).idx_previous_state == old(self).idx_current_state
                    &&& final(self).current_state_changed
                    &&& final(self).idxs_enter_fns@ == enter_list(old(self).states@, next)
                    &&& final(self).idxs_exit_fns@ == exit_list(
                        old(self).states@,
                        old(self).idx_current_state,
                        next,
                    )
                    &&& distinct(final(self).idxs_enter_fns@)
                    &&& distinct(final(self).idxs_exit_fns@)
                    &&& final(self).idxs_enter_fns@.len() <= old(self).states@.len()
                    &&& forall|i: int|
                        0 <= i < final(self).idxs_enter_fns@.len()
                            ==> #[trigger] final(self).idxs_enter_fns@[i] < old(self).states@.len()
                    &&& forall|i: int|
                        0 <= i < final(self).idxs_exit_fns@.len()
                            ==> #[trigger] final(self).idxs_exit_fns@[i] < old(self).states@.len()
                } else {
                    &&& result == Err::<(), DispatchError>(
                        DispatchError::InvalidTransitionTarget(next),
                    )
                    &&& final(self).wf()
                    &&& final(self).session() == old(self).session()
                },
                None => {
                    &&& result == Ok::<(), DispatchError>(())
                    &&& final(self).wf()
                    &&& final(self).session() == old(self).session()
                },
            },
    {
        let dest = self.idx_transition_dest;
        self.idx_transition_dest = None;
        match dest {
            Some(idx_next_state) => {
                if idx_next_state < self.states.len() && self.transition_targets_set[idx_next_state] {
                    self.setup_exit_enter_fns_idxs(idx_next_state);
                    self.idx_previous_state = self.idx_current_state;
                    self.idx_current_state = idx_next_state;
                    self.current_state_changed = true;
                    Ok(())
                } else {
                    Err(DispatchError::InvalidTransitionTarget(idx_next_state))
                }
            },
            None => Ok(()),
        }
    }

    /// Run the enter actions that the last transition left, outermost
    /// state first.
    pub(crate) fn enter_pending<P>(&mut self, msg: &P) where SM: Actions<P>
        requires
            distinct(old(self).idxs_enter_fns@),
            forall|i: int|
                0 <= i < old(self).idxs_enter_fns@.len() ==> (#[trigger] old(
                    self,
                ).idxs_enter_fns@[i]) < old(self).states@.len() && old(self).states@[old(
                    self,
                ).idxs_enter_fns@[i] as int].enter_cnt < usize::MAX,
        ensures
            final(self).states@ == enter_all(old(self).states@, old(self).idxs_enter_fns@),
            final(self).idxs_enter_fns@.len() == 0,
            final(self).idxs_exit_fns@ == old(self).idxs_exit_fns@,
            final(self).tables() == old(self).tables(),
            final(self).cursor() == old(self).cursor(),
    {
        while self.idxs_enter_fns.len() > 0
            invariant
                enter_all(self.states@, self.idxs_enter_fns@) == enter_all(
                    old(self).states@,
                    old(self).idxs_enter_fns@,
                ),
                self.states@.len() == old(self).states@.len(),
                distinct(self.idxs_enter_fns@),
                forall|i: int|
                    0 <= i < self.idxs_enter_fns@.len() ==> (#[trigger] self.idxs_enter_fns@[i])
                        < self.states@.len() && self.states@[self.idxs_enter_fns@[i] as int].enter_cnt
                        < usize::MAX,
                self.idxs_exit_fns@ == old(self).idxs_exit_fns@,
                self.tables() == old(self).tables(),
                self.cursor() == old(self).cursor(),
            decreases self.idxs_enter_fns@.len(),
        {
            let ghost before = self.states@;
            let ghost pending = self.idxs_enter_fns@;
            let idx_enter = self.idxs_enter_fns.pop().unwrap();
            assert(idx_enter == pending[pending.len() - 1]);
            if self.states[idx_enter].has_enter {
                self.states[idx_enter].enter_cnt += 1;
                self.sm.enter(idx_enter, msg);
            }
            self.states[idx_enter].active = true;
            assert(self.states@ =~= mark_entered(before, idx_enter));
            assert(self.idxs_enter_fns@ =~= pending.drop_last());
        }
    }

    /// Let the message bubble from state `idx` towards the root until a
    /// state handles it, counting each state asked and capturing the first
    /// transition request.
    pub(crate) fn bubble_up<P>(&mut self, msg: &P, idx: usize) -> (answers: Ghost<Seq<StateResult>>) where
        SM: Actions<P>,

        requires
            parents_in_range(old(self).parents()),
            acyclic(old(self).parents()),
            idx < old(self).states@.len(),
            forall|s: int|
                0 <= s < old(self).states@.len() && depth(old(self).parents(), s as usize) <= depth(
                    old(self).parents(),
                    idx,
                ) ==> (#[trigger] old(self).states@[s]).process_cnt < usize::MAX,
        ensures
            asked_all(old(self).parents(), idx, answers@),
            (final(self).states@, final(self).idx_transition_dest) == bubble(
                old(self).states@,
                idx,
                answers@,
                old(self).idx_transition_dest,
            ),
            same_shape(final(self).states@, old(self).states@),
            forall|s: int|
                0 <= s < old(self).states@.len() ==> {
                    &&& (#[trigger] final(self).states@[s]).enter_cnt == old(self).states@[s].enter_cnt
                    &&& final(self).states@[s].exit_cnt == old(self).states@[s].exit_cnt
                    &&& final(self).states@[s].active == old(self).states@[s].active
                    &&& (depth(old(self).parents(), s as usize) > depth(old(self).parents(), idx)
                        ==> final(self).states@[s].process_cnt == old(self).states@[s].process_cnt)
                },
            final(self).idxs_enter_fns@ == old(self).idxs_enter_fns@,
            final(self).idxs_exit_fns@ == old(self).idxs_exit_fns@,
            final(self).tables() == old(self).tables(),
            final(self).idx_current_state == old(self).idx_current_state,
            final(self).idx_previous_state == old(self).idx_previous_state,
            final(self).current_state_changed == old(self).current_state_changed,
        decreases depth(old(self).parents(), idx),
    {
        let ghost parents = self.parents();
        let ghost before = self.states@;
        let ghost dest_before = self.idx_transition_dest;
        self.states[idx].process_cnt += 1;
        assert(self.states@ =~= mark_processed(before, idx));
        let ghost counted = self.states@;
        let ctx = Context { states: &self.states, idx_current_state: self.idx_current_state };
        let answer = self.sm.process(&ctx, idx, msg);
        let ghost mut answers: Seq<StateResult> = seq![answer];
        assert(parents[idx as int] == before[idx as int].parent);
        match self.take_answer(idx, answer) {
            Some(idx_parent) => {
                proof {
                    assert(parents_of(counted) =~= parents);
                    lemma_parent_depth(parents, idx, idx_parent);
                }
                let rest = self.bubble_up(msg, idx_parent);
                proof {
                    answers = seq![answer] + rest@;
                    assert(answers.skip(1) =~= rest@);
                }
            },
            None => {},
        }
        Ghost(answers)
    }

    /// Run the exit actions of the planned transition, innermost state
    /// first.
    pub(crate) fn exit_pending<P>(&mut self, msg: &P) where SM: Actions<P>
        requires
            distinct(old(self).idxs_exit_fns@),
            forall|i: int|
                0 <= i < old(self).idxs_exit_fns@.len() ==> (#[trigger] old(self).idxs_exit_fns@[i])
                    < old(self).states@.len() && old(self).states@[old(
                    self,
                ).idxs_exit_fns@[i] as int].exit_cnt < usize::MAX,
        ensures
            final(self).states@ == exit_all(old(self).states@, old(self).idxs_exit_fns@),
            final(self).idxs_exit_fns@.len() == 0,
            final(self).idxs_enter_fns@ == old(self).idxs_enter_fns@,
            final(self).tables() == old(self).tables(),
            final(self).cursor() == old(self).cursor(),
    {
        let ghost exits = self.idxs_exit_fns@;
        let len = self.idxs_exit_fns.len();
        let mut pos: usize = 0;
        while pos < len
            invariant
                pos <= len,
                len == exits.len(),
                self.idxs_exit_fns@ == exits,
                exits == old(self).idxs_exit_fns@,
                distinct(exits),
                self.states@ == exit_all(old(self).states@, exits.take(pos as int)),
                self.states@.len() == old(self).states@.len(),
                forall|i: int|
                    pos <= i < exits.len() ==> (#[trigger] exits[i]) < self.states@.len()
                        && self.states@[exits[i] as int].exit_cnt < usize::MAX,
                self.idxs_enter_fns@ == old(self).idxs_enter_fns@,
                self.tables() == old(self).tables(),
                self.cursor() == old(self).cursor(),
            decreases len - pos,
        {
            let ghost before = self.states@;
            let idx_exit = self.idxs_exit_fns[pos];
            if self.states[idx_exit].has_exit {
                self.states[idx_exit].exit_cnt += 1;
                self.sm.exit(idx_exit, msg);
            }
            self.states[idx_exit].active = false;
            assert(self.states@ =~= mark_exited(before, idx_exit));
            assert(exits.take(pos + 1).drop_last() =~= exits.take(pos as int));
            pos += 1;
        }
        assert(exits.take(len as int) =~= exits);
        self.idxs_exit_fns.clear();
    }

    /// Drive one message through the engine, starting the processing at
    /// state `idx`: run the enters left by the last transition, let the
    /// message bubble, apply the first transition that was asked for, and run
    /// the exits it plans.
    ///
    /// Fails, with the table counted but the current state kept, exactly
    /// when the destination asked for is no leaf of the table.
    pub fn dispatch_idx<P>(&mut self, msg: &P, idx: usize) -> (result: Result<(), DispatchError>) where
        SM: Actions<P>,

        requires
            old(self).wf(),
            old(self).has_room(),
            idx < old(self).states@.len(),
        ensures
            final(self).wf(),
            exists|answers: Seq<StateResult>|
                {
                    &&& asked_all(old(self).parents(), idx, answers)
                    &&& final(self).session() == #[trigger] after_dispatch(old(self).session(), idx, answers)
                    &&& result == outcome(old(self).session(), idx, answers)
                },
            coherent(old(self).session()) && balanced(old(self).states@) ==> coherent(
                final(self).session(),
            ) && balanced(final(self).states@),
    {
        let ghost parents = self.parents();
        let ghost start = self.states@;
        if self.current_state_changed {
            proof {
                lemma_enter_all_frame(start, self.idxs_enter_fns@);
            }
            self.enter_pending(msg);
            self.current_state_changed = false;
        }
        let ghost flushed = self.states@;
        proof {
            assert(parents_of(flushed) =~= parents);
        }
        let answers = self.bubble_up(msg, idx);
        let ghost counted = self.states@;
        proof {
            assert(parents_of(counted) =~= parents);
        }
        let result = self.apply_transition();
        if self.current_state_changed {
            let ghost exits = self.idxs_exit_fns@;
            self.exit_pending(msg);
            proof {
                lemma_exit_all_frame(counted, exits);
            }
        }
        proof {
            assert(parents_of(self.states@) =~= parents);
            if !self.current_state_changed {
                assert(self.idxs_enter_fns@ =~= Seq::<usize>::empty());
            }
            assert(self.session() == after_dispatch(old(self).session(), idx, answers@));
            if coherent(old(self).session()) && balanced(old(self).states@) {
                lemma_dispatch_keeps_balance(old(self).session(), idx, answers@);
            }
        }
        result
    }

    /// Dispatch one message to the current state. `Ok(true)` says that a
    /// transition was applied.
    pub fn dispatch<P>(&mut self, msg: &P) -> (result: Result<bool, DispatchError>) where
        SM: Actions<P>,

        requires
            old(self).wf(),
            old(self).has_room(),
        ensures
            final(self).wf(),
            exists|answers: Seq<StateResult>|
                {
                    &&& asked_all(old(self).parents(), old(self).idx_current_state, answers)
                    &&& final(self).session() == #[trigger] after_dispatch(
                        old(self).session(),
                        old(self).idx_current_state,
                        answers,
                    )
                    &&& result == match outcome(old(self).session(), old(self).idx_current_state, answers) {
                        Ok(_) => Ok(final(self).current_state_changed),
                        Err(e) => Err(e),
                    }
                },
            coherent(old(self).session()) && balanced(old(self).states@) ==> coherent(
                final(self).session(),
            ) && balanced(final(self).states@),
    {
        let idx = self.idx_current_state;
        match self.dispatch_idx(msg, idx) {
            Ok(_) => Ok(self.current_state_changed),
            Err(e) => Err(e),
        }
    }
}

} // verus!
