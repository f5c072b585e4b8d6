use vstd::prelude::*;
use vstd::set_lib::lemma_int_range;
use vstd::set_lib::lemma_len_subset;
use vstd::set_lib::set_int_range;

verus! {

/// Whether following parent links from node `i` arrives at node `t` within
/// `fuel` steps.  `parents[j]` is the parent of node `j`, if any.
pub open spec fn chain_reaches(parents: Seq<Option<usize>>, t: int, i: int, fuel: nat) -> bool
    decreases fuel,
{
    i == t || (fuel > 0 && 0 <= i < parents.len() && parents[i] is Some && chain_reaches(
        parents,
        t,
        parents[i]->0 as int,
        (fuel - 1) as nat,
    ))
}

/// The number of steps the parent chain takes from `i` until it first
/// arrives at `t`, or `-1` if it does not arrive within `fuel` steps.
pub open spec fn chain_steps(parents: Seq<Option<usize>>, t: int, i: int, fuel: nat) -> int
    decreases fuel,
{
    if i == t {
        0
    } else if fuel == 0 || !(0 <= i < parents.len() && parents[i] is Some) {
        -1
    } else {
        let rest = chain_steps(parents, t, parents[i]->0 as int, (fuel - 1) as nat);
        if rest >= 0 {
            rest + 1
        } else {
            -1
        }
    }
}

/// Arrival within `fuel` steps is the same as a non-negative step count,
/// and the step count never exceeds the fuel spent.
pub proof fn lemma_reaches_iff_steps(parents: Seq<Option<usize>>, t: int, i: int, fuel: nat)
    ensures
        chain_reaches(parents, t, i, fuel) <==> chain_steps(parents, t, i, fuel) >= 0,
        chain_steps(parents, t, i, fuel) <= fuel,
    decreases fuel,
{
    if i != t && fuel > 0 && 0 <= i < parents.len() && parents[i] is Some {
        lemma_reaches_iff_steps(parents, t, parents[i]->0 as int, (fuel - 1) as nat);
    }
}

/// A chain that arrives within `fuel` steps also arrives within any larger
/// fuel bound.
pub proof fn lemma_reaches_mono(parents: Seq<Option<usize>>, t: int, i: int, fuel1: nat, fuel2: nat)
    requires
        chain_reaches(parents, t, i, fuel1),
        fuel1 <= fuel2,
    ensures
        chain_reaches(parents, t, i, fuel2),
    decreases fuel1,
{
    if i != t {
        lemma_reaches_mono(parents, t, parents[i]->0 as int, (fuel1 - 1) as nat, (fuel2 - 1) as nat);
    }
}

/// The step count does not depend on the fuel bound, as long as the bound
/// is large enough for the chain to arrive.
pub proof fn lemma_steps_stable(parents: Seq<Option<usize>>, t: int, i: int, fuel: nat, fuel2: nat)
    requires
        chain_steps(parents, t, i, fuel) >= 0,
        fuel2 >= chain_steps(parents, t, i, fuel),
    ensures
        chain_steps(parents, t, i, fuel2) == chain_steps(parents, t, i, fuel),
    decreases fuel,
{
    if i != t {
        let p = parents[i]->0 as int;
        lemma_steps_stable(parents, t, p, (fuel - 1) as nat, (fuel2 - 1) as nat);
    }
}

/// The nodes visited by a chain that arrives at `t` are pairwise distinct:
/// this builds the set of visited nodes and counts them.  Distinctness
/// holds because the remaining step count strictly decreases along the
/// chain.
proof fn lemma_chain_node_set(parents: Seq<Option<usize>>, t: int, i: int, fuel: nat) -> (s: Set<
    int,
>)
    requires
        0 <= t < parents.len(),
        0 <= i < parents.len(),
        chain_steps(parents, t, i, fuel) >= 0,
    ensures
        s.finite(),
        s.len() == chain_steps(parents, t, i, fuel) + 1,
        s.subset_of(set_int_range(0, parents.len() as int)),
        forall|j: int| #[trigger]
            s.contains(j) ==> chain_steps(parents, t, j, fuel) >= 0 && chain_steps(
                parents,
                t,
                j,
                fuel,
            ) <= chain_steps(parents, t, i, fuel),
    decreases chain_steps(parents, t, i, fuel),
{
    lemma_reaches_iff_steps(parents, t, i, fuel);
    if i == t {
        let s = set![i];
        assert(s.len() == 1);
        assert(s.subset_of(set_int_range(0, parents.len() as int)));
        s
    } else {
        let h = chain_steps(parents, t, i, fuel);
        let p = parents[i]->0 as int;
        assert(chain_steps(parents, t, p, (fuel - 1) as nat) == h - 1);
        lemma_steps_stable(parents, t, p, (fuel - 1) as nat, fuel);
        assert(chain_steps(parents, t, p, fuel) == h - 1);
        assert(0 <= p < parents.len());
        let sub = lemma_chain_node_set(parents, t, p, fuel);
        assert(!sub.contains(i));
        let s = sub.insert(i);
        assert(s.len() == sub.len() + 1);
        s
    }
}

/// A chain that arrives at `t` at all arrives within `parents.len()` steps:
/// it visits pairwise distinct nodes, and there are only `parents.len()`
/// of them.
pub proof fn lemma_reaches_within_size(parents: Seq<Option<usize>>, t: int, i: int, fuel: nat)
    requires
        chain_reaches(parents, t, i, fuel),
        0 <= t < parents.len(),
        0 <= i < parents.len(),
    ensures
        chain_reaches(parents, t, i, parents.len() as nat),
{
    let len = parents.len() as int;
    lemma_reaches_iff_steps(parents, t, i, fuel);
    let h = chain_steps(parents, t, i, fuel);
    let s = lemma_chain_node_set(parents, t, i, fuel);
    lemma_int_range(0, len);
    lemma_len_subset(s, set_int_range(0, len));
    assert(h + 1 <= len);
    lemma_steps_stable(parents, t, i, fuel, parents.len() as nat);
    lemma_reaches_iff_steps(parents, t, i, parents.len() as nat);
}

/// Rerooting: hanging the old root below `new_root` and clearing
/// `new_root`'s parent sends every chain that used to arrive at `old_root`
/// to `new_root` instead, at the cost of at most one extra step.
pub proof fn lemma_reroot_reaches(
    parents: Seq<Option<usize>>,
    old_root: usize,
    new_root: usize,
    i: int,
    fuel: nat,
)
    requires
        old_root < parents.len(),
        new_root < parents.len(),
        old_root != new_root,
        parents[old_root as int] is None,
        chain_reaches(parents, old_root as int, i, fuel),
    ensures
        chain_reaches(
            parents.update(old_root as int, Some(new_root)).update(new_root as int, None),
            new_root as int,
            i,
            (fuel + 1) as nat,
        ),
    decreases fuel,
{
    let ps2 = parents.update(old_root as int, Some(new_root)).update(new_root as int, None);
    if i == new_root {
    } else if i == old_root {
        assert(ps2[old_root as int] == Some(new_root));
        assert(chain_reaches(ps2, new_root as int, new_root as int, fuel));
        assert(chain_reaches(ps2, new_root as int, i, (fuel + 1) as nat));
    } else {
        assert(fuel > 0 && 0 <= i < parents.len() && parents[i] is Some);
        let p = parents[i]->0 as int;
        lemma_reroot_reaches(parents, old_root, new_root, p, (fuel - 1) as nat);
        assert(((fuel - 1) as nat + 1) as nat == fuel);
        assert(chain_reaches(ps2, new_root as int, p, fuel));
        assert(ps2[i] == parents[i]);
        assert(chain_reaches(ps2, new_root as int, i, (fuel + 1) as nat));
    }
}

/// If two nodes are each other's parent, a chain from one of them can only
/// arrive at one of the two: the pair traps the chain.
pub proof fn lemma_mutual_parents_trap(parents: Seq<Option<usize>>, t: int, i: int, n: int, fuel: nat)
    requires
        chain_reaches(parents, t, i, fuel),
        0 <= i < parents.len(),
        0 <= n < parents.len(),
        parents[i] is Some,
        parents[i]->0 as int == n,
        parents[n] is Some,
        parents[n]->0 as int == i,
    ensures
        t == i || t == n,
    decreases fuel,
{
    if t != i && t != n {
        assert(fuel > 0);
        assert(chain_reaches(parents, t, n, (fuel - 1) as nat));
        assert((fuel - 1) as nat > 0);
        assert(chain_reaches(parents, t, i, (fuel - 2) as nat));
        lemma_mutual_parents_trap(parents, t, i, n, (fuel - 2) as nat);
    }
}

} // verus!
