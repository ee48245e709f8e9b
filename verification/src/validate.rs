use vstd::prelude::*;
use crate::balance::{at_rest, balanced, coherent, lemma_fresh_session_is_balanced};
use crate::executor::Executor;
use crate::planner::{depth, distinct, lemma_parent_depth, root_path};
use crate::state::BuildError;
use crate::topology::{
    acyclic, is_leaf, is_live_child, is_target, leaf_list, lemma_leaf_iff_no_children,
    lemma_none_removed_count, lemma_ranked_reaches_root, lemma_reaches_root_mono,
    lemma_removed_count_short, lemma_removed_count_update, lemma_removed_count_witness,
    lemma_stuck_chain, none_removed, parents_in_range, reaches_root, records_children,
    removed_count,
};

verus! {

/// The list without `gone`, the others in their order.
fn strike(list: &Vec<usize>, gone: usize) -> (others: Vec<usize>)
    ensures
        forall|c: usize|
            #![trigger others@.contains(c)]
            others@.contains(c) <==> (list@.contains(c) && c != gone),
{
    let mut others: Vec<usize> = Vec::new();
    let mut child_idx: usize = 0;
    while child_idx < list.len()
        invariant
            child_idx <= list@.len(),
            forall|c: usize|
                #![trigger others@.contains(c)]
                others@.contains(c) <==> (list@.take(child_idx as int).contains(c) && c != gone),
        decreases list@.len() - child_idx,
    {
        let ghost seen = list@.take(child_idx as int);
        let ghost now = list@.take(child_idx + 1);
        let child = list[child_idx];
        assert(now[child_idx as int] == child);
        let ghost before = others@;
        if child != gone {
            others.push(child);
            assert(others@[before.len() as int] == child);
        }
        assert forall|c: usize| #![trigger others@.contains(c)] others@.contains(c) <==> (now.contains(
            c,
        ) && c != gone) by {
            if before.contains(c) {
                let i = choose|i: int| 0 <= i < before.len() && before[i] == c;
                assert(others@[i] == c);
                let h = choose|h: int| 0 <= h < seen.len() && seen[h] == c;
                assert(now[h] == c);
            }
            if others@.contains(c) && !before.contains(c) {
                let i = choose|i: int| 0 <= i < others@.len() && others@[i] == c;
                if i < before.len() {
                    assert(before[i] == c);
                }
            }
            if now.contains(c) && c != gone {
                let h = choose|h: int| 0 <= h < now.len() && now[h] == c;
                if h < child_idx {
                    assert(seen[h] == c);
                }
            }
        }
        child_idx += 1;
    }
    assert(list@.take(list@.len() as int) =~= list@);
    others
}

impl<SM> Executor<SM> {
    /// The states that name `cur_state_idx` as their parent, in registration
    /// order.
    pub(crate) fn initialize_states_children(&self, cur_state_idx: usize) -> (list: Vec<usize>)
        ensures
            records_children(
                self.parents(),
                none_removed(self.states@.len()),
                cur_state_idx,
                list@,
            ),
    {
        let n = self.states.len();
        let mut list: Vec<usize> = Vec::new();
        let mut idx: usize = 0;
        while idx < n
            invariant
                n == self.states@.len(),
                idx <= n,
                forall|c: usize|
                    #![trigger list@.contains(c)]
                    list@.contains(c) <==> (c < idx && self.parents()[c as int] == Some(
                        cur_state_idx,
                    )),
            decreases n - idx,
        {
            let is_child = match self.states[idx].parent {
                Some(p) => p == cur_state_idx,
                None => false,
            };
            if is_child {
                let ghost before = list@;
                list.push(idx);
                assert(list@[before.len() as int] == idx);
                assert forall|c: usize| #![trigger list@.contains(c)] list@.contains(c) <==> (c
                    < idx + 1 && self.parents()[c as int] == Some(cur_state_idx)) by {
                    if before.contains(c) {
                        let i = choose|i: int| 0 <= i < before.len() && before[i] == c;
                        assert(list@[i] == c);
                    }
                    if list@.contains(c) && c != idx {
                        let i = choose|i: int| 0 <= i < list@.len() && list@[i] == c;
                        assert(before[i] == c);
                    }
                }
            }
            idx += 1;
        }
        list
    }

    /// The children of every state.
    pub(crate) fn initialize_children(&self) -> (children: Vec<Vec<usize>>)
        ensures
            children@.len() == self.states@.len(),
            forall|p: int|
                0 <= p < self.states@.len() ==> records_children(
                    self.parents(),
                    none_removed(self.states@.len()),
                    p as usize,
                    (#[trigger] children@[p])@,
                ),
    {
        let n = self.states.len();
        let mut children: Vec<Vec<usize>> = Vec::with_capacity(n);
        let mut idx: usize = 0;
        while idx < n
            invariant
                n == self.states@.len(),
                idx <= n,
                children@.len() == idx,
                forall|p: int|
                    0 <= p < idx ==> records_children(
                        self.parents(),
                        none_removed(n as nat),
                        p as usize,
                        (#[trigger] children@[p])@,
                    ),
            decreases n - idx,
        {
            let list = self.initialize_states_children(idx);
            children.push(list);
            idx += 1;
        }
        children
    }

    /// Detect a cycle among the parent links by peeling leaves: a state is
    /// removed once all its children are, and a cycle is what can never be
    /// removed.
    ///
    /// `children` holds the children of every state. Leaves are popped from
    /// a frontier; a popped state is struck from the children of its parent,
    /// and a parent left without children joins the frontier. The table is
    /// cyclic exactly when fewer states are popped than there are.
    pub(crate) fn cycle_detector(&self, children: Vec<Vec<usize>>) -> (cyclic: bool)
        requires
            parents_in_range(self.parents()),
            children@.len() == self.states@.len(),
            forall|p: int|
                0 <= p < self.states@.len() ==> records_children(
                    self.parents(),
                    none_removed(self.states@.len()),
                    p as usize,
                    (#[trigger] children@[p])@,
                ),
        ensures
            cyclic == !acyclic(self.parents()),
    {
        let n = self.states.len();
        let mut remaining = children;
        let mut leafs: Vec<usize> = Vec::with_capacity(n);
        let mut s: usize = 0;
        while s < n
            invariant
                n == self.states@.len(),
                s <= n,
                remaining@ == children@,
                remaining@.len() == n,
                forall|i: int|
                    0 <= i < leafs@.len() ==> (#[trigger] leafs@[i]) < s
                        && remaining@[leafs@[i] as int]@.len() == 0,
                forall|i: int, j: int| 0 <= i < j < leafs@.len() ==> leafs@[i] != leafs@[j],
                forall|x: usize|
                    x < s && (#[trigger] remaining@[x as int])@.len() == 0 ==> leafs@.contains(x),
            decreases n - s,
        {
            if remaining[s].len() == 0 {
                let ghost before = leafs@;
                leafs.push(s);
                assert(leafs@[before.len() as int] == s);
                assert forall|x: usize|
                    x < s + 1 && (#[trigger] remaining@[x as int])@.len() == 0 implies leafs@.contains(
                    x,
                ) by {
                    if x < s {
                        let i = choose|i: int| 0 <= i < before.len() && before[i] == x;
                        assert(leafs@[i] == x);
                    }
                }
            }
            s += 1;
        }

        let ghost mut removed: Seq<bool> = none_removed(n as nat);
        let ghost mut rank: Seq<nat> = Seq::new(n as nat, |i: int| 0nat);
        let mut visited_cnt: usize = 0;
        proof {
            lemma_none_removed_count(n as nat, n as int);
        }
        while leafs.len() > 0
            invariant
                n == self.states@.len(),
                parents_in_range(self.parents()),
                remaining@.len() == n,
                removed.len() == n,
                rank.len() == n,
                visited_cnt <= n,
                visited_cnt == removed_count(removed, n as int),
                forall|p: int|
                    0 <= p < n ==> records_children(
                        self.parents(),
                        removed,
                        p as usize,
                        (#[trigger] remaining@[p])@,
                    ),
                forall|i: int|
                    0 <= i < leafs@.len() ==> (#[trigger] leafs@[i]) < n && !removed[leafs@[i] as int]
                        && remaining@[leafs@[i] as int]@.len() == 0,
                forall|i: int, j: int| 0 <= i < j < leafs@.len() ==> leafs@[i] != leafs@[j],
                forall|x: usize|
                    x < n && !removed[x as int] && (#[trigger] remaining@[x as int])@.len() == 0
                        ==> leafs@.contains(x),
                forall|x: int| 0 <= x < n && removed[x] ==> #[trigger] rank[x] < visited_cnt,
                forall|x: int| 0 <= x < n && #[trigger] removed[x] ==> remaining@[x]@.len() == 0,
                forall|c: int|
                    0 <= c < n && removed[c] ==> match #[trigger] self.parents()[c] {
                        Some(p) => removed[p as int] ==> rank[c] < rank[p as int],
                        None => true,
                    },
            decreases n - visited_cnt,
        {
            let ghost leafs_before = leafs@;
            let ghost removed_before = removed;
            let ghost remaining_before = remaining@;
            let leaf_idx = leafs.pop().unwrap();
            assert(leaf_idx == leafs_before[leafs_before.len() - 1]);
            proof {
                lemma_removed_count_short(removed, leaf_idx as int, n as int);
                lemma_removed_count_update(removed, leaf_idx as int, n as int);
                removed = removed.update(leaf_idx as int, true);
                rank = rank.update(leaf_idx as int, visited_cnt as nat);
            }
            visited_cnt += 1;

            // Check if we have an "edge"
            match self.states[leaf_idx].parent {
                Some(parent_idx) => {
                    assert(self.parents()[leaf_idx as int] == Some(parent_idx));
                    assert(is_live_child(self.parents(), removed_before, parent_idx, leaf_idx));
                    assert(remaining_before[parent_idx as int]@.contains(leaf_idx));
                    let other_children = strike(&remaining[parent_idx], leaf_idx);
                    let none_left = other_children.len() == 0;
                    remaining.set(parent_idx, other_children);
                    if none_left {
                        // the parent is now a leaf
                        leafs.push(parent_idx);
                    }
                },
                None => {},
            }

            proof {
                assert forall|p: int| 0 <= p < n implies records_children(
                    self.parents(),
                    removed,
                    p as usize,
                    (#[trigger] remaining@[p])@,
                ) by {
                    let now = remaining@[p]@;
                    let was = remaining_before[p]@;
                    assert(records_children(self.parents(), removed_before, p as usize, was));
                    assert forall|c: usize|
                        #![trigger now.contains(c)]
                        #![trigger is_live_child(self.parents(), removed, p as usize, c)]
                        now.contains(c) <==> is_live_child(self.parents(), removed, p as usize, c) by {
                        assert(was.contains(c) <==> is_live_child(
                            self.parents(),
                            removed_before,
                            p as usize,
                            c,
                        ));
                    }
                }
                assert forall|x: usize|
                    x < n && !removed[x as int] && (#[trigger] remaining@[x as int])@.len() == 0 implies leafs@.contains(
                    x,
                ) by {
                    if remaining_before[x as int]@.len() == 0 {
                        let i = choose|i: int| 0 <= i < leafs_before.len() && leafs_before[i] == x;
                        assert(i < leafs_before.len() - 1);
                        assert(leafs@[i] == x);
                    } else {
                        assert(leafs@[leafs@.len() - 1] == x);
                    }
                }
            }
        }

        proof {
            if visited_cnt == n {
                assert forall|x: int| 0 <= x < n implies removed[x] by {
                    if !removed[x] {
                        lemma_removed_count_short(removed, x, n as int);
                    }
                }
                assert forall|t: usize| t < n implies #[trigger] reaches_root(
                    self.parents(),
                    t,
                    n as nat,
                ) by {
                    lemma_ranked_reaches_root(self.parents(), rank, t);
                    lemma_reaches_root_mono(
                        self.parents(),
                        t,
                        (n - rank[t as int]) as nat,
                        n as nat,
                    );
                }
            } else {
                let u = lemma_removed_count_witness(removed, n as int);
                assert forall|x: usize| x < n && !(#[trigger] removed[x as int]) implies exists|c: usize|
                    is_live_child(self.parents(), removed, x, c) by {
                    let list = remaining@[x as int]@;
                    if list.len() == 0 {
                        assert(leafs@.contains(x));
                    }
                    assert(list.contains(list[0]));
                    assert(is_live_child(self.parents(), removed, x, list[0]));
                }
                let d = lemma_stuck_chain(self.parents(), removed, u as usize, n as nat);
                assert(!reaches_root(self.parents(), d, n as nat));
            }
        }
        visited_cnt != n
    }

    /// Validate the table and make the executor ready to dispatch, with
    /// `idx_initial_state` as the current state and its whole chain, up to
    /// the root, waiting to be entered.
    pub fn initialize(self, idx_initial_state: usize) -> (result: Result<Self, BuildError>)
        ensures
            match result {
                Ok(e) => {
                    &&& parents_in_range(self.parents())
                    &&& acyclic(self.parents())
                    &&& is_target(self.parents(), idx_initial_state)
                    &&& e.wf()
                    &&& e.sm == self.sm
                    &&& e.states@ == self.states@
                    &&& e.idx_current_state == idx_initial_state
                    &&& e.idx_previous_state == idx_initial_state
                    &&& e.current_state_changed
                    &&& e.idxs_enter_fns@ == root_path(
                        self.parents(),
                        idx_initial_state,
                        self.states@.len(),
                    )
                    &&& (at_rest(self.states@) ==> coherent(e.session()) && balanced(e.states@))
                },
                Err(BuildError::UnknownParent) => !parents_in_range(self.parents()),
                Err(BuildError::CycleDetected) => parents_in_range(self.parents()) && !acyclic(
                    self.parents(),
                ),
                Err(BuildError::InvalidInitialState) => parents_in_range(self.parents()) && acyclic(
                    self.parents(),
                ) && !is_target(self.parents(), idx_initial_state),
            },
    {
        let n = self.states.len();

        let mut idx: usize = 0;
        while idx < n
            invariant
                n == self.states@.len(),
                idx <= n,
                forall|i: int|
                    0 <= i < idx ==> match #[trigger] self.parents()[i] {
                        Some(p) => p < n,
                        None => true,
                    },
            decreases n - idx,
        {
            match self.states[idx].parent {
                Some(p) => {
                    if p >= n {
                        assert(self.parents()[idx as int] == Some(p));
                        return Err(BuildError::UnknownParent);
                    }
                },
                None => {},
            }
            idx += 1;
        }

        let children = self.initialize_children();

        let mut transition_targets: Vec<usize> = Vec::with_capacity(n);
        let mut transition_targets_set: Vec<bool> = Vec::with_capacity(n);
        let mut idx: usize = 0;
        while idx < n
            invariant
                n == self.states@.len(),
                idx <= n,
                children@.len() == n,
                forall|p: int|
                    0 <= p < n ==> records_children(
                        self.parents(),
                        none_removed(n as nat),
                        p as usize,
                        (#[trigger] children@[p])@,
                    ),
                transition_targets_set@.len() == idx,
                forall|i: int|
                    0 <= i < idx ==> #[trigger] transition_targets_set@[i] == is_leaf(
                        self.parents(),
                        i as usize,
                    ),
                transition_targets@ == leaf_list(self.parents(), idx as int),
            decreases n - idx,
        {
            proof {
                lemma_leaf_iff_no_children(self.parents(), idx, children@[idx as int]@);
            }
            if children[idx].len() == 0 {
                transition_targets.push(idx);
                transition_targets_set.push(true);
            } else {
                transition_targets_set.push(false);
            }
            idx += 1;
        }

        if self.cycle_detector(children) {
            return Err(BuildError::CycleDetected);
        }

        if idx_initial_state >= n || !transition_targets_set[idx_initial_state] {
            return Err(BuildError::InvalidInitialState);
        }

        let mut idxs_enter_fns: Vec<usize> = Vec::with_capacity(n);
        let mut idx_enter = idx_initial_state;
        let ghost mut fuel: nat = n as nat;
        loop
            invariant_except_break
                reaches_root(self.parents(), idx_enter, fuel),
                idxs_enter_fns@ + root_path(self.parents(), idx_enter, fuel) == root_path(
                    self.parents(),
                    idx_initial_state,
                    n as nat,
                ),
                idxs_enter_fns@.len() + fuel == n,
                forall|i: int|
                    0 <= i < idxs_enter_fns@.len() ==> depth(
                        self.parents(),
                        #[trigger] idxs_enter_fns@[i],
                    ) > depth(self.parents(), idx_enter),
            invariant
                n == self.states@.len(),
                parents_in_range(self.parents()),
                acyclic(self.parents()),
                idx_enter < n,
                distinct(idxs_enter_fns@),
                forall|i: int|
                    0 <= i < idxs_enter_fns@.len() ==> #[trigger] idxs_enter_fns@[i] < n,
            ensures
                idxs_enter_fns@ == root_path(self.parents(), idx_initial_state, n as nat),
                idxs_enter_fns@.len() <= n,
            decreases fuel,
        {
            let ghost before = idxs_enter_fns@;
            idxs_enter_fns.push(idx_enter);
            match self.states[idx_enter].parent {
                Some(idx) => {
                    proof {
                        assert(self.parents()[idx_enter as int] == Some(idx));
                        lemma_parent_depth(self.parents(), idx_enter, idx);
                        assert(before.push(idx_enter) + root_path(
                            self.parents(),
                            idx,
                            (fuel - 1) as nat,
                        ) =~= before + root_path(self.parents(), idx_enter, fuel));
                        fuel = (fuel - 1) as nat;
                    }
                    idx_enter = idx;
                },
                None => {
                    assert(before.push(idx_enter) =~= before + root_path(
                        self.parents(),
                        idx_enter,
                        fuel,
                    ));
                    break ;
                },
            }
        }

        let ghost given = self.states@;
        let ready = Executor {
                sm: self.sm,
                states: self.states,
                current_state_changed: true,
                idx_transition_dest: None,
                idx_current_state: idx_initial_state,
                idx_previous_state: idx_initial_state,
                idxs_enter_fns,
                idxs_exit_fns: Vec::with_capacity(n),
                transition_targets,
                transition_targets_set,
            };
        proof {
            if at_rest(given) {
                lemma_fresh_session_is_balanced(ready.session());
            }
        }
        Ok(ready)
    }
}

} // verus!
