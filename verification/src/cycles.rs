use vstd::prelude::*;
use crate::topology::{acyclic, reaches_root};

verus! {

/// The state reached from `s` by following `k` parent links, if the walk
/// gets that far.
pub open spec fn ancestor(parents: Seq<Option<usize>>, s: usize, k: nat) -> Option<usize>
    decreases k,
{
    if k == 0 {
        Some(s)
    } else if s < parents.len() {
        match parents[s as int] {
            None => None,
            Some(p) => ancestor(parents, p, (k - 1) as nat),
        }
    } else {
        None
    }
}

/// A walk that ends within `f` states has used up `k` of them after `k`
/// links.
pub proof fn lemma_ancestor_uses_fuel(parents: Seq<Option<usize>>, s: usize, k: nat, f: nat)
    requires
        reaches_root(parents, s, f),
        ancestor(parents, s, k) is Some,
    ensures
        k < f,
        reaches_root(parents, ancestor(parents, s, k)->0, (f - k) as nat),
    decreases k,
{
    if k > 0 {
        let p = parents[s as int]->0;
        lemma_ancestor_uses_fuel(parents, p, (k - 1) as nat, (f - 1) as nat);
    }
}

/// A state that is its own ancestor can never reach a root.
pub proof fn lemma_state_on_cycle_never_ends(parents: Seq<Option<usize>>, s: usize, k: nat, f: nat)
    requires
        k >= 1,
        ancestor(parents, s, k) == Some(s),
    ensures
        !reaches_root(parents, s, f),
    decreases f,
{
    if reaches_root(parents, s, f) {
        lemma_ancestor_uses_fuel(parents, s, k, f);
        lemma_state_on_cycle_never_ends(parents, s, k, (f - k) as nat);
    }
}

/// Any parent cycle, self-parenting included, makes a table cyclic: if some
/// registered state comes back to itself after one or more parent links,
/// the table is not a forest, and validation reports `CycleDetected` for it
/// as soon as all parent links are in range.
pub proof fn lemma_cycle_is_not_a_forest(parents: Seq<Option<usize>>, s: usize, k: nat)
    requires
        s < parents.len(),
        k >= 1,
        ancestor(parents, s, k) == Some(s),
    ensures
        !acyclic(parents),
{
    lemma_state_on_cycle_never_ends(parents, s, k, parents.len());
}

} // verus!
