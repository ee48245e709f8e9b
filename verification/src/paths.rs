use vstd::prelude::*;
use crate::planner::{
    depth, distinct, enter_list, enter_path, exit_list, exit_path, exit_sentinel, lemma_parent_depth,
    lemma_root_path_fuel, root_path,
};
use crate::state::StateInfo;
use crate::topology::{acyclic, is_target, parents_in_range, parents_of, reaches_root};

verus! {

/// Every state named by an exit path is registered.
pub proof fn lemma_exit_path_in_range(
    states: Seq<StateInfo>,
    s: usize,
    sentinel: Option<usize>,
    fuel: nat,
)
    requires
        parents_in_range(parents_of(states)),
        s < states.len(),
    ensures
        forall|i: int|
            0 <= i < exit_path(states, s, sentinel, fuel).len() ==> #[trigger] exit_path(
                states,
                s,
                sentinel,
                fuel,
            )[i] < states.len(),
    decreases fuel,
{
    if fuel > 0 {
        assert(parents_of(states)[s as int] == states[s as int].parent);
        match states[s as int].parent {
            None => {},
            Some(p) => {
                lemma_exit_path_in_range(states, p, sentinel, (fuel - 1) as nat);
                let path = exit_path(states, s, sentinel, fuel);
                let rest = exit_path(states, p, sentinel, (fuel - 1) as nat);
                assert forall|i: int| 0 <= i < path.len() implies #[trigger] path[i] < states.len() by {
                    if i > 0 {
                        assert(path[i] == rest[i - 1]);
                    }
                }
            },
        }
    }
}

/// The state at position `i` of a root path is registered, lies `i` steps
/// nearer to the root than the start, and the path goes on from it as its
/// own root path.
pub proof fn lemma_root_path_index(parents: Seq<Option<usize>>, s: usize, i: int)
    requires
        parents_in_range(parents),
        acyclic(parents),
        s < parents.len(),
        0 <= i < root_path(parents, s, parents.len()).len(),
    ensures
        root_path(parents, s, parents.len())[i] < parents.len(),
        depth(parents, root_path(parents, s, parents.len())[i]) + i == depth(parents, s),
        root_path(parents, root_path(parents, s, parents.len())[i], parents.len()) == root_path(
            parents,
            s,
            parents.len(),
        ).skip(i),
    decreases i,
{
    let n = parents.len();
    let path = root_path(parents, s, n);
    assert(reaches_root(parents, s, n));
    if i == 0 {
        assert(path.skip(0) =~= path);
    } else {
        match parents[s as int] {
            None => {},
            Some(p) => {
                lemma_parent_depth(parents, s, p);
                lemma_root_path_fuel(parents, p, (n - 1) as nat, n);
                let rest = root_path(parents, p, n);
                assert(path =~= seq![s] + rest);
                lemma_root_path_index(parents, p, i - 1);
                assert(path[i] == rest[i - 1]);
                assert(path.skip(i) =~= rest.skip(i - 1));
            },
        }
    }
}

/// Consecutive states of a root path are child and parent.
pub proof fn lemma_root_path_link(parents: Seq<Option<usize>>, s: usize, i: int)
    requires
        parents_in_range(parents),
        acyclic(parents),
        s < parents.len(),
        0 <= i,
        i + 1 < root_path(parents, s, parents.len()).len(),
    ensures
        root_path(parents, s, parents.len())[i] < parents.len(),
        parents[root_path(parents, s, parents.len())[i] as int] == Some(
            root_path(parents, s, parents.len())[i + 1],
        ),
{
    let n = parents.len();
    let path = root_path(parents, s, n);
    let here = path[i];
    lemma_root_path_index(parents, s, i);
    assert(reaches_root(parents, here, n));
    assert(root_path(parents, here, n).len() >= 2);
    match parents[here as int] {
        None => {},
        Some(p) => {
            lemma_parent_depth(parents, here, p);
            assert(root_path(parents, p, (n - 1) as nat)[0] == p);
            assert(path.skip(i)[1] == p);
        },
    }
}

/// No state occurs twice on a root path.
pub proof fn lemma_root_path_distinct(parents: Seq<Option<usize>>, s: usize)
    requires
        parents_in_range(parents),
        acyclic(parents),
        s < parents.len(),
    ensures
        distinct(root_path(parents, s, parents.len())),
{
    let path = root_path(parents, s, parents.len());
    assert forall|i: int, j: int| 0 <= i < j < path.len() implies path[i] != path[j] by {
        lemma_root_path_index(parents, s, i);
        lemma_root_path_index(parents, s, j);
    }
}

/// In a list without repetition, what lies behind position `j` is what the
/// list holds and its first `j` places do not.
pub proof fn lemma_split_distinct(list: Seq<usize>, j: int, s: usize)
    requires
        distinct(list),
        0 <= j <= list.len(),
    ensures
        list.skip(j).contains(s) <==> (list.contains(s) && !list.take(j).contains(s)),
{
    if list.skip(j).contains(s) {
        let i = choose|i: int| 0 <= i < list.skip(j).len() && list.skip(j)[i] == s;
        assert(list[i + j] == s);
        if list.take(j).contains(s) {
            let h = choose|h: int| 0 <= h < list.take(j).len() && list.take(j)[h] == s;
            assert(list[h] == s);
        }
    }
    if list.contains(s) && !list.take(j).contains(s) {
        let i = choose|i: int| 0 <= i < list.len() && list[i] == s;
        if i < j {
            assert(list.take(j)[i] == s);
        }
        assert(list.skip(j)[i - j] == s);
    }
}

/// An enter path is the stretch of the root path that ends just below the
/// nearest active proper ancestor, which is the sentinel; with no such
/// ancestor it is the whole root path.
pub proof fn lemma_enter_path_shape(states: Seq<StateInfo>, s: usize, fuel: nat)
    requires
        reaches_root(parents_of(states), s, fuel),
        parents_of(states).len() == states.len(),
    ensures
        ({
            let enters = enter_path(states, s, fuel);
            let path = root_path(parents_of(states), s, fuel);
            let sentinel = exit_sentinel(states, s, fuel);
            &&& 1 <= enters.len() <= path.len()
            &&& enters == path.take(enters.len() as int)
            &&& enters[0] == s
            &&& forall|i: int| 1 <= i < enters.len() ==> !states[#[trigger] path[i] as int].active
            &&& if enters.len() < path.len() {
                states[path[enters.len() as int] as int].active && sentinel == Some(
                    path[enters.len() as int],
                )
            } else {
                sentinel is None
            }
        }),
    decreases fuel,
{
    let parents = parents_of(states);
    let enters = enter_path(states, s, fuel);
    let path = root_path(parents, s, fuel);
    assert(parents[s as int] == states[s as int].parent);
    match states[s as int].parent {
        None => {
            assert(enters =~= path.take(1));
        },
        Some(p) => {
            let rest = root_path(parents, p, (fuel - 1) as nat);
            assert(reaches_root(parents, p, (fuel - 1) as nat));
            assert(rest[0] == p);
            assert(path =~= seq![s] + rest);
            assert(path[1] == rest[0]);
            if states[p as int].active {
                assert(enters =~= path.take(1));
            } else {
                lemma_enter_path_shape(states, p, (fuel - 1) as nat);
                let above = enter_path(states, p, (fuel - 1) as nat);
                assert(enters =~= seq![s] + above);
                assert(enters =~= path.take(enters.len() as int)) by {
                    assert forall|i: int| 0 <= i < enters.len() implies enters[i] == path[i] by {
                        if i > 0 {
                            assert(enters[i] == above[i - 1]);
                            assert(above[i - 1] == rest.take(above.len() as int)[i - 1]);
                            assert(path[i] == rest[i - 1]);
                        }
                    }
                }
                assert forall|i: int| 1 <= i < enters.len() implies !states[#[trigger] path[i] as int].active by {
                    assert(path[i] == rest[i - 1]);
                    if i > 1 {
                        assert(!states[rest[i - 1] as int].active);
                    }
                }
                if enters.len() < path.len() {
                    assert(path[enters.len() as int] == rest[above.len() as int]);
                }
            }
        },
    }
}

/// An exit path is the stretch of the root path that ends just below the
/// sentinel, or the whole root path when the sentinel is not met above the
/// start.
pub proof fn lemma_exit_path_shape(
    states: Seq<StateInfo>,
    s: usize,
    sentinel: Option<usize>,
    fuel: nat,
)
    requires
        reaches_root(parents_of(states), s, fuel),
        parents_of(states).len() == states.len(),
    ensures
        ({
            let exits = exit_path(states, s, sentinel, fuel);
            let path = root_path(parents_of(states), s, fuel);
            &&& 1 <= exits.len() <= path.len()
            &&& exits == path.take(exits.len() as int)
            &&& forall|i: int| 1 <= i < exits.len() ==> Some(#[trigger] path[i]) != sentinel
            &&& (exits.len() < path.len() ==> Some(path[exits.len() as int]) == sentinel)
        }),
    decreases fuel,
{
    let parents = parents_of(states);
    let exits = exit_path(states, s, sentinel, fuel);
    let path = root_path(parents, s, fuel);
    assert(parents[s as int] == states[s as int].parent);
    match states[s as int].parent {
        None => {
            assert(exits =~= path.take(1));
        },
        Some(p) => {
            let rest = root_path(parents, p, (fuel - 1) as nat);
            assert(reaches_root(parents, p, (fuel - 1) as nat));
            assert(rest[0] == p);
            assert(path =~= seq![s] + rest);
            assert(path[1] == rest[0]);
            if sentinel == Some(p) {
                assert(exits =~= path.take(1));
            } else {
                lemma_exit_path_shape(states, p, sentinel, (fuel - 1) as nat);
                let above = exit_path(states, p, sentinel, (fuel - 1) as nat);
                assert(exits =~= seq![s] + above);
                assert(exits =~= path.take(exits.len() as int)) by {
                    assert forall|i: int| 0 <= i < exits.len() implies exits[i] == path[i] by {
                        if i > 0 {
                            assert(exits[i] == above[i - 1]);
                            assert(above[i - 1] == rest.take(above.len() as int)[i - 1]);
                            assert(path[i] == rest[i - 1]);
                        }
                    }
                }
                assert forall|i: int| 1 <= i < exits.len() implies Some(#[trigger] path[i]) != sentinel by {
                    assert(path[i] == rest[i - 1]);
                    if i > 1 {
                        assert(Some(rest[i - 1]) != sentinel);
                    }
                }
                if exits.len() < path.len() {
                    assert(path[exits.len() as int] == rest[above.len() as int]);
                }
            }
        },
    }
}

/// The active states are exactly those on the root path of `current`: the
/// condition of the table whenever a transition is planned.
pub open spec fn settled(states: Seq<StateInfo>, current: usize) -> bool {
    forall|s: usize|
        s < states.len() ==> (#[trigger] states[s as int]).active == root_path(
            parents_of(states),
            current,
            states.len(),
        ).contains(s)
}

/// How the two lists of a transition lie in the forest. With the active
/// states being the root path of the current leaf, the enter list is the
/// lower stretch of the destination's root path, the exit list the lower
/// stretch of the current one, both end below the same state, and from that
/// state upwards the two root paths are one.
pub proof fn lemma_transition_geometry(states: Seq<StateInfo>, current: usize, next: usize)
    requires
        parents_in_range(parents_of(states)),
        acyclic(parents_of(states)),
        is_target(parents_of(states), current),
        next < states.len(),
        settled(states, current),
    ensures
        ({
            let parents = parents_of(states);
            let enters = enter_list(states, next);
            let exits = exit_list(states, current, next);
            let from = root_path(parents, current, states.len());
            let to = root_path(parents, next, states.len());
            &&& 1 <= enters.len() <= to.len()
            &&& enters == to.take(enters.len() as int)
            &&& enters[0] == next
            &&& 1 <= exits.len() <= from.len()
            &&& exits == from.take(exits.len() as int)
            &&& distinct(enters)
            &&& distinct(exits)
            &&& forall|i: int| 0 <= i < enters.len() ==> #[trigger] enters[i] < states.len()
            &&& forall|i: int|
                0 <= i < exits.len() ==> #[trigger] exits[i] < states.len()
                    && states[exits[i] as int].active
            &&& forall|i: int| 1 <= i < enters.len() ==> !states[#[trigger] enters[i] as int].active
            &&& forall|s: usize|
                s < states.len() ==> ((from.contains(s) && !exits.contains(s)) <==> (#[trigger] to.contains(s)
                    && !enters.contains(s)))
            &&& match exit_sentinel(states, next, states.len()) {
                Some(top) => {
                    &&& top < states.len()
                    &&& states[top as int].active
                    &&& !exits.contains(top)
                    &&& enters.len() < to.len()
                    &&& to[enters.len() as int] == top
                },
                None => enters.len() == to.len(),
            }
        }),
{
    let n = states.len();
    let parents = parents_of(states);
    let enters = enter_list(states, next);
    let sentinel = exit_sentinel(states, next, n);
    let exits = exit_list(states, current, next);
    let from = root_path(parents, current, n);
    let to = root_path(parents, next, n);
    assert(reaches_root(parents, current, n));
    assert(reaches_root(parents, next, n));
    lemma_enter_path_shape(states, next, n);
    lemma_exit_path_shape(states, current, sentinel, n);
    lemma_root_path_distinct(parents, current);
    lemma_root_path_distinct(parents, next);
    let k = enters.len() as int;
    let m = exits.len() as int;
    assert forall|i: int| 0 <= i < enters.len() implies #[trigger] enters[i] < n by {
        lemma_root_path_index(parents, next, i);
        assert(enters[i] == to[i]);
    }
    assert forall|i: int| 0 <= i < exits.len() implies #[trigger] exits[i] < n
        && states[exits[i] as int].active by {
        lemma_root_path_index(parents, current, i);
        assert(exits[i] == from[i]);
        assert(from.contains(from[i]));
    }
    assert forall|i: int| 1 <= i < enters.len() implies !states[#[trigger] enters[i] as int].active by {
        assert(enters[i] == to[i]);
    }
    assert(distinct(enters)) by {
        assert forall|i: int, j: int| 0 <= i < j < enters.len() implies enters[i] != enters[j] by {
            assert(enters[i] == to[i] && enters[j] == to[j]);
        }
    }
    assert(distinct(exits)) by {
        assert forall|i: int, j: int| 0 <= i < j < exits.len() implies exits[i] != exits[j] by {
            assert(exits[i] == from[i] && exits[j] == from[j]);
        }
    }
    match sentinel {
        None => {
            assert(enters =~= to);
            if m < from.len() {
                assert(Some(from[m]) == sentinel);
            }
            assert(exits =~= from);
        },
        Some(top) => {
            assert(to[k] == top);
            lemma_root_path_index(parents, next, k);
            lemma_root_path_link(parents, next, k - 1);
            assert(parents[to[k - 1] as int] == Some(top));
            assert(from.contains(top));
            let j = choose|j: int| 0 <= j < from.len() && from[j] == top;
            assert(from[0] == current);
            assert(j >= 1);
            lemma_root_path_index(parents, current, j);
            if j < m {
                assert(Some(from[j]) != sentinel);
            }
            assert(m <= j);
            assert(from[m] == top);
            assert(m == j);
            assert(from.skip(j) == to.skip(k));
            assert forall|s: usize| s < n implies ((from.contains(s) && !exits.contains(s)) <==> (#[trigger] to.contains(s)
                && !enters.contains(s))) by {
                lemma_split_distinct(from, j, s);
                lemma_split_distinct(to, k, s);
            }
            lemma_split_distinct(from, j, top);
            assert(from.skip(j)[0] == top);
        },
    }
}

/// A transition between two leaves leaves every state above both of them
/// alone: a shared ancestor is neither exited nor entered again.
pub proof fn lemma_shared_ancestor_stays(
    states: Seq<StateInfo>,
    current: usize,
    next: usize,
    shared: usize,
)
    requires
        parents_in_range(parents_of(states)),
        acyclic(parents_of(states)),
        is_target(parents_of(states), current),
        is_target(parents_of(states), next),
        settled(states, current),
        shared != next,
        root_path(parents_of(states), current, states.len()).contains(shared),
        root_path(parents_of(states), next, states.len()).contains(shared),
    ensures
        !enter_list(states, next).contains(shared),
        !exit_list(states, current, next).contains(shared),
{
    let parents = parents_of(states);
    let from = root_path(parents, current, states.len());
    let enters = enter_list(states, next);
    lemma_transition_geometry(states, current, next);
    let at = choose|i: int| 0 <= i < from.len() && from[i] == shared;
    lemma_root_path_index(parents, current, at);
    assert(states[shared as int].active);
    if enters.contains(shared) {
        let i = choose|i: int| 0 <= i < enters.len() && enters[i] == shared;
        assert(!states[enters[i] as int].active);
    }
}

/// A transition between leaves of trees that share no state exits the whole
/// chain of the source, up to its root, and enters the whole chain of the
/// destination.
pub proof fn lemma_disjoint_trees_use_whole_chains(states: Seq<StateInfo>, current: usize, next: usize)
    requires
        parents_in_range(parents_of(states)),
        acyclic(parents_of(states)),
        is_target(parents_of(states), current),
        is_target(parents_of(states), next),
        settled(states, current),
        forall|s: usize|
            !(root_path(parents_of(states), current, states.len()).contains(s) && root_path(
                parents_of(states),
                next,
                states.len(),
            ).contains(s)),
    ensures
        enter_list(states, next) == root_path(parents_of(states), next, states.len()),
        exit_list(states, current, next) == root_path(parents_of(states), current, states.len()),
{
    let n = states.len();
    let parents = parents_of(states);
    let from = root_path(parents, current, n);
    let to = root_path(parents, next, n);
    let sentinel = exit_sentinel(states, next, n);
    let enters = enter_list(states, next);
    let exits = exit_list(states, current, next);
    lemma_transition_geometry(states, current, next);
    assert(reaches_root(parents, current, n));
    lemma_exit_path_shape(states, current, sentinel, n);
    match sentinel {
        Some(top) => {
            assert(to.contains(to[enters.len() as int]));
            assert(from.contains(top));
        },
        None => {
            assert(enters =~= to);
            if exits.len() < from.len() {
                assert(Some(from[exits.len() as int]) == sentinel);
            }
            assert(exits =~= from);
        },
    }
}

} // verus!
