use vstd::prelude::*;
use crate::executor::Executor;
use crate::state::StateInfo;
use crate::topology::{acyclic, parents_in_range, parents_of, reaches_root};

verus! {

/// The states from `s` up to its root, `s` first; `fuel` bounds the walk.
pub open spec fn root_path(parents: Seq<Option<usize>>, s: usize, fuel: nat) -> Seq<usize>
    decreases fuel,
{
    if fuel == 0 {
        Seq::empty()
    } else {
        match parents[s as int] {
            None => seq![s],
            Some(p) => seq![s] + root_path(parents, p, (fuel - 1) as nat),
        }
    }
}

/// The states to enter on the way to `s`, `s` first: `s` itself, then its
/// ancestors up to, and without, the nearest one that is active.
pub open spec fn enter_path(states: Seq<StateInfo>, s: usize, fuel: nat) -> Seq<usize>
    decreases fuel,
{
    if fuel == 0 {
        Seq::empty()
    } else {
        match states[s as int].parent {
            None => seq![s],
            Some(p) => if states[p as int].active {
                seq![s]
            } else {
                seq![s] + enter_path(states, p, (fuel - 1) as nat)
            },
        }
    }
}

/// The nearest active proper ancestor of `s`, where the walk of
/// `enter_path` stops; `None` when the walk reaches a root.
pub open spec fn exit_sentinel(states: Seq<StateInfo>, s: usize, fuel: nat) -> Option<usize>
    decreases fuel,
{
    if fuel == 0 {
        None
    } else {
        match states[s as int].parent {
            None => None,
            Some(p) => if states[p as int].active {
                Some(p)
            } else {
                exit_sentinel(states, p, (fuel - 1) as nat)
            },
        }
    }
}

/// The states to exit when leaving `s`, `s` first: `s` itself in any case,
/// then its ancestors up to, and without, the sentinel.
pub open spec fn exit_path(
    states: Seq<StateInfo>,
    s: usize,
    sentinel: Option<usize>,
    fuel: nat,
) -> Seq<usize>
    decreases fuel,
{
    if fuel == 0 {
        Seq::empty()
    } else {
        match states[s as int].parent {
            None => seq![s],
            Some(p) => if sentinel == Some(p) {
                seq![s]
            } else {
                seq![s] + exit_path(states, p, sentinel, (fuel - 1) as nat)
            },
        }
    }
}

/// The enter list of a transition to `next`.
pub open spec fn enter_list(states: Seq<StateInfo>, next: usize) -> Seq<usize> {
    enter_path(states, next, states.len())
}

/// The exit list of a transition from `current` to `next`.
pub open spec fn exit_list(states: Seq<StateInfo>, current: usize, next: usize) -> Seq<usize> {
    exit_path(states, current, exit_sentinel(states, next, states.len()), states.len())
}

/// How many states lie on the way from `s` to its root, `s` included.
pub open spec fn depth(parents: Seq<Option<usize>>, s: usize) -> nat {
    root_path(parents, s, parents.len()).len()
}

/// Once the walk from `s` ends within `f` states, more fuel changes nothing.
pub proof fn lemma_root_path_fuel(parents: Seq<Option<usize>>, s: usize, f: nat, g: nat)
    requires
        reaches_root(parents, s, f),
        f <= g,
    ensures
        root_path(parents, s, f) == root_path(parents, s, g),
    decreases f,
{
    match parents[s as int] {
        None => {},
        Some(p) => {
            lemma_root_path_fuel(parents, p, (f - 1) as nat, (g - 1) as nat);
        },
    }
}

/// In a forest a parent lies exactly one step nearer to the root.
pub proof fn lemma_parent_depth(parents: Seq<Option<usize>>, s: usize, p: usize)
    requires
        acyclic(parents),
        s < parents.len(),
        parents[s as int] == Some(p),
    ensures
        p < parents.len(),
        depth(parents, p) + 1 == depth(parents, s),
        reaches_root(parents, p, (parents.len() - 1) as nat),
{
    assert(reaches_root(parents, s, parents.len()));
    assert(reaches_root(parents, p, (parents.len() - 1) as nat));
    lemma_root_path_fuel(parents, p, (parents.len() - 1) as nat, parents.len());
}

/// No state occurs twice in `list`.
pub open spec fn distinct(list: Seq<usize>) -> bool {
    forall|i: int, j: int| 0 <= i < j < list.len() ==> list[i] != list[j]
}

impl<SM> Executor<SM> {
    /// Plan a transition from the current state to `idx_next_state`: append
    /// to the enter list the destination and its ancestors below the nearest
    /// active one, and to the exit list the current state and its ancestors
    /// below that same ancestor.
    pub(crate) fn setup_exit_enter_fns_idxs(&mut self, idx_next_state: usize)
        requires
            parents_in_range(old(self).parents()),
            acyclic(old(self).parents()),
            idx_next_state < old(self).states@.len(),
            old(self).idx_current_state < old(self).states@.len(),
            old(self).idxs_enter_fns@.len() == 0,
            old(self).idxs_exit_fns@.len() == 0,
        ensures
            final(self).idxs_enter_fns@ == enter_list(old(self).states@, idx_next_state),
            final(self).idxs_exit_fns@ == exit_list(
                old(self).states@,
                old(self).idx_current_state,
                idx_next_state,
            ),
            final(self).idxs_enter_fns@.len() <= old(self).states@.len(),
            distinct(final(self).idxs_enter_fns@),
            distinct(final(self).idxs_exit_fns@),
            forall|i: int|
                0 <= i < final(self).idxs_enter_fns@.len() ==> #[trigger] final(self).idxs_enter_fns@[i]
                    < old(self).states@.len(),
            forall|i: int|
                0 <= i < final(self).idxs_exit_fns@.len() ==> #[trigger] final(self).idxs_exit_fns@[i]
                    < old(self).states@.len(),
            final(self).states@ == old(self).states@,
            final(self).sm == old(self).sm,
            final(self).tables() == old(self).tables(),
            final(self).cursor() == old(self).cursor(),
    {
        let n = self.states.len();
        let ghost states = self.states@;
        let ghost parents = self.parents();
        let mut cur_idx = idx_next_state;
        let mut sentinel: Option<usize> = None;
        let ghost mut fuel: nat = n as nat;
        loop
            invariant_except_break
                cur_idx < n,
                reaches_root(parents, cur_idx, fuel),
                self.idxs_enter_fns@ + enter_path(states, cur_idx, fuel) == enter_path(
                    states,
                    idx_next_state,
                    n as nat,
                ),
                exit_sentinel(states, cur_idx, fuel) == exit_sentinel(
                    states,
                    idx_next_state,
                    n as nat,
                ),
                self.idxs_enter_fns@.len() + fuel == n,
                forall|i: int|
                    0 <= i < self.idxs_enter_fns@.len() ==> depth(
                        parents,
                        #[trigger] self.idxs_enter_fns@[i],
                    ) > depth(parents, cur_idx),
            invariant
                n == states.len(),
                self.states@ == states,
                parents == parents_of(states),
                acyclic(parents),
                self.sm == old(self).sm,
                self.tables() == old(self).tables(),
                self.cursor() == old(self).cursor(),
                self.idxs_exit_fns@.len() == 0,
                distinct(self.idxs_enter_fns@),
                forall|i: int|
                    0 <= i < self.idxs_enter_fns@.len() ==> #[trigger] self.idxs_enter_fns@[i] < n,
            ensures
                self.idxs_enter_fns@ == enter_path(states, idx_next_state, n as nat),
                sentinel == exit_sentinel(states, idx_next_state, n as nat),
                self.idxs_enter_fns@.len() <= n,
            decreases fuel,
        {
            let ghost before = self.idxs_enter_fns@;
            self.idxs_enter_fns.push(cur_idx);
            match self.states[cur_idx].parent {
                Some(idx) => {
                    proof {
                        assert(parents[cur_idx as int] == Some(idx));
                        lemma_parent_depth(parents, cur_idx, idx);
                    }
                    if self.states[idx].active {
                        assert(before.push(cur_idx) =~= before + enter_path(states, cur_idx, fuel));
                        sentinel = Some(idx);
                        break ;
                    }
                    proof {
                        assert(before.push(cur_idx) + enter_path(states, idx, (fuel - 1) as nat)
                            =~= before + enter_path(states, cur_idx, fuel));
                        fuel = (fuel - 1) as nat;
                    }
                    cur_idx = idx;
                },
                None => {
                    assert(parents[cur_idx as int] is None);
                    assert(before.push(cur_idx) =~= before + enter_path(states, cur_idx, fuel));
                    sentinel = None;
                    break ;
                },
            }
        }

        let current = self.idx_current_state;
        let mut idx_exit = current;
        proof {
            fuel = n as nat;
        }
        loop
            invariant_except_break
                idx_exit < n,
                reaches_root(parents, idx_exit, fuel),
                self.idxs_exit_fns@ + exit_path(states, idx_exit, sentinel, fuel) == exit_path(
                    states,
                    current,
                    sentinel,
                    n as nat,
                ),
                forall|i: int|
                    0 <= i < self.idxs_exit_fns@.len() ==> depth(
                        parents,
                        #[trigger] self.idxs_exit_fns@[i],
                    ) > depth(parents, idx_exit),
            invariant
                n == states.len(),
                self.states@ == states,
                parents == parents_of(states),
                acyclic(parents),
                self.sm == old(self).sm,
                self.tables() == old(self).tables(),
                self.cursor() == old(self).cursor(),
                self.idxs_enter_fns@ == enter_path(states, idx_next_state, n as nat),
                distinct(self.idxs_exit_fns@),
                forall|i: int|
                    0 <= i < self.idxs_exit_fns@.len() ==> #[trigger] self.idxs_exit_fns@[i] < n,
            ensures
                self.idxs_exit_fns@ == exit_path(states, current, sentinel, n as nat),
            decreases fuel,
        {
            let ghost before = self.idxs_exit_fns@;
            self.idxs_exit_fns.push(idx_exit);
            match self.states[idx_exit].parent {
                Some(idx) => {
                    proof {
                        assert(parents[idx_exit as int] == Some(idx));
                        lemma_parent_depth(parents, idx_exit, idx);
                    }
                    let reached = match sentinel {
                        Some(top) => top == idx,
                        None => false,
                    };
                    if reached {
                        assert(before.push(idx_exit) =~= before + exit_path(
                            states,
                            idx_exit,
                            sentinel,
                            fuel,
                        ));
                        break ;
                    }
                    proof {
                        assert(before.push(idx_exit) + exit_path(
                            states,
                            idx,
                            sentinel,
                            (fuel - 1) as nat,
                        ) =~= before + exit_path(states, idx_exit, sentinel, fuel));
                        fuel = (fuel - 1) as nat;
                    }
                    idx_exit = idx;
                },
                None => {
                    assert(parents[idx_exit as int] is None);
                    assert(before.push(idx_exit) =~= before + exit_path(
                        states,
                        idx_exit,
                        sentinel,
                        fuel,
                    ));
                    break ;
                },
            }
        }
    }
}

} // verus!
