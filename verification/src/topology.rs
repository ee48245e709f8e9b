use vstd::prelude::*;
use crate::state::StateInfo;

verus! {

/// The parent link of every state, by state index.
pub open spec fn parents_of(states: Seq<StateInfo>) -> Seq<Option<usize>> {
    Seq::new(states.len(), |i: int| states[i].parent)
}

/// Every parent link points at a registered state.
pub open spec fn parents_in_range(parents: Seq<Option<usize>>) -> bool {
    forall|i: int|
        0 <= i < parents.len() ==> match #[trigger] parents[i] {
            Some(p) => p < parents.len(),
            None => true,
        }
}

/// No registered state names `s` as its parent.
pub open spec fn is_leaf(parents: Seq<Option<usize>>, s: usize) -> bool {
    forall|c: int| 0 <= c < parents.len() ==> #[trigger] parents[c] != Some(s)
}

/// Following parent links from `s` ends at a root after visiting at most
/// `fuel` states.
pub open spec fn reaches_root(parents: Seq<Option<usize>>, s: usize, fuel: nat) -> bool
    decreases fuel,
{
    fuel > 0 && s < parents.len() && match parents[s as int] {
        None => true,
        Some(p) => reaches_root(parents, p, (fuel - 1) as nat),
    }
}

/// The parent links form a forest: from every state the walk towards the root
/// ends. A walk that visits more states than there are must repeat one, so
/// the number of states bounds it.
pub open spec fn acyclic(parents: Seq<Option<usize>>) -> bool {
    forall|s: usize| s < parents.len() ==> #[trigger] reaches_root(parents, s, parents.len())
}

/// A state may be current, or the destination of a transition: in range and
/// without children.
pub open spec fn is_target(parents: Seq<Option<usize>>, s: usize) -> bool {
    s < parents.len() && is_leaf(parents, s)
}

/// The leaves among the first `k` states, in registration order.
pub open spec fn leaf_list(parents: Seq<Option<usize>>, k: int) -> Seq<usize>
    decreases k,
{
    if k <= 0 {
        Seq::empty()
    } else if is_leaf(parents, (k - 1) as usize) {
        leaf_list(parents, k - 1).push((k - 1) as usize)
    } else {
        leaf_list(parents, k - 1)
    }
}

/// The marking in which no state has been removed yet.
pub open spec fn none_removed(n: nat) -> Seq<bool> {
    Seq::new(n, |i: int| false)
}

/// State `c` is a child of `p` that has not been removed.
pub open spec fn is_live_child(
    parents: Seq<Option<usize>>,
    removed: Seq<bool>,
    p: usize,
    c: usize,
) -> bool {
    c < parents.len() && parents[c as int] == Some(p) && !removed[c as int]
}

/// `list` records the children of `p` that have not been removed, all of
/// them and nothing else.
pub open spec fn records_children(
    parents: Seq<Option<usize>>,
    removed: Seq<bool>,
    p: usize,
    list: Seq<usize>,
) -> bool {
    forall|c: usize|
        #![trigger list.contains(c)]
        #![trigger is_live_child(parents, removed, p, c)]
        list.contains(c) <==> is_live_child(parents, removed, p, c)
}

/// How many of the first `k` states are removed.
pub open spec fn removed_count(removed: Seq<bool>, k: int) -> nat
    decreases k,
{
    if k <= 0 {
        0
    } else if removed[k - 1] {
        removed_count(removed, k - 1) + 1
    } else {
        removed_count(removed, k - 1)
    }
}

/// With nothing removed, a state is a leaf exactly when the record of its
/// children is empty.
pub proof fn lemma_leaf_iff_no_children(parents: Seq<Option<usize>>, p: usize, list: Seq<usize>)
    requires
        parents.len() <= usize::MAX,
        records_children(parents, none_removed(parents.len()), p, list),
    ensures
        is_leaf(parents, p) <==> list.len() == 0,
{
    let none = none_removed(parents.len());
    if list.len() > 0 {
        assert(list.contains(list[0]));
        assert(is_live_child(parents, none, p, list[0]));
    }
    if !is_leaf(parents, p) {
        let c = choose|c: int| 0 <= c < parents.len() && #[trigger] parents[c] == Some(p);
        assert(is_live_child(parents, none, p, c as usize));
        assert(list.contains(c as usize));
    }
}

pub proof fn lemma_removed_count_bound(removed: Seq<bool>, k: int)
    requires
        0 <= k,
    ensures
        removed_count(removed, k) <= k,
    decreases k,
{
    if k > 0 {
        lemma_removed_count_bound(removed, k - 1);
    }
}

/// While some state below `k` is not removed, the count stays below `k`.
pub proof fn lemma_removed_count_short(removed: Seq<bool>, x: int, k: int)
    requires
        0 <= x < k <= removed.len(),
        !removed[x],
    ensures
        removed_count(removed, k) < k,
    decreases k,
{
    if x < k - 1 {
        lemma_removed_count_short(removed, x, k - 1);
    } else {
        lemma_removed_count_bound(removed, k - 1);
    }
}

/// A count below `k` names a state that is not removed.
pub proof fn lemma_removed_count_witness(removed: Seq<bool>, k: int) -> (x: int)
    requires
        0 <= k <= removed.len(),
        removed_count(removed, k) < k,
    ensures
        0 <= x < k,
        !removed[x],
    decreases k,
{
    if !removed[k - 1] {
        k - 1
    } else {
        lemma_removed_count_witness(removed, k - 1)
    }
}

pub proof fn lemma_removed_count_update(removed: Seq<bool>, x: int, k: int)
    requires
        0 <= k <= removed.len(),
        0 <= x < removed.len(),
        !removed[x],
    ensures
        removed_count(removed.update(x, true), k) == removed_count(removed, k) + (if x < k {
            1int
        } else {
            0int
        }),
    decreases k,
{
    if k > 0 {
        lemma_removed_count_update(removed, x, k - 1);
    }
}

pub proof fn lemma_none_removed_count(n: nat, k: int)
    requires
        0 <= k <= n,
    ensures
        removed_count(none_removed(n), k) == 0,
    decreases k,
{
    if k > 0 {
        lemma_none_removed_count(n, k - 1);
    }
}

pub proof fn lemma_reaches_root_mono(parents: Seq<Option<usize>>, s: usize, f: nat, g: nat)
    requires
        reaches_root(parents, s, f),
        f <= g,
    ensures
        reaches_root(parents, s, g),
    decreases f,
{
    match parents[s as int] {
        None => {},
        Some(p) => {
            lemma_reaches_root_mono(parents, p, (f - 1) as nat, (g - 1) as nat);
        },
    }
}

/// A numbering below the number of parents that grows along every parent link
/// shows that the walk from `s` ends.
pub proof fn lemma_ranked_reaches_root(parents: Seq<Option<usize>>, rank: Seq<nat>, s: usize)
    requires
        parents_in_range(parents),
        rank.len() == parents.len(),
        s < parents.len(),
        forall|c: int| 0 <= c < parents.len() ==> #[trigger] rank[c] < parents.len(),
        forall|c: int|
            0 <= c < parents.len() ==> match #[trigger] parents[c] {
                Some(p) => rank[c] < rank[p as int],
                None => true,
            },
    ensures
        reaches_root(parents, s, (parents.len() - rank[s as int]) as nat),
    decreases parents.len() - rank[s as int],
{
    match parents[s as int] {
        None => {},
        Some(p) => {
            lemma_ranked_reaches_root(parents, rank, p);
            lemma_reaches_root_mono(
                parents,
                p,
                (parents.len() - rank[p as int]) as nat,
                (parents.len() - rank[s as int] - 1) as nat,
            );
        },
    }
}

/// If every state that is left still has a child that is left, then below any
/// such state hangs a chain longer than any given bound.
pub proof fn lemma_stuck_chain(parents: Seq<Option<usize>>, removed: Seq<bool>, u: usize, k: nat) -> (d: usize)
    requires
        removed.len() == parents.len(),
        u < parents.len(),
        !removed[u as int],
        forall|x: usize|
            x < parents.len() && !(#[trigger] removed[x as int]) ==> exists|c: usize|
                is_live_child(parents, removed, x, c),
    ensures
        d < parents.len(),
        !removed[d as int],
        !reaches_root(parents, d, k),
    decreases k,
{
    if k == 0 {
        u
    } else {
        let above = lemma_stuck_chain(parents, removed, u, (k - 1) as nat);
        let c = choose|c: usize| is_live_child(parents, removed, above, c);
        c
    }
}

} // verus!
