//! Walks over a graph given by its steps, and what can be reached by them.

use vstd::prelude::*;

verus! {

/// A non-empty sequence of nodes in which each node leads to the next by a step.
pub open spec fn is_walk<A>(step: spec_fn(A, A) -> bool, path: Seq<A>) -> bool {
    &&& path.len() > 0
    &&& forall|i: int| 0 <= i < path.len() - 1 ==> step(#[trigger] path[i], path[i + 1])
}

/// `path` is a walk from `seed` to `node`.
pub open spec fn walk_joins<A>(step: spec_fn(A, A) -> bool, path: Seq<A>, seed: A, node: A) -> bool {
    &&& is_walk(step, path)
    &&& path[0] == seed
    &&& path[path.len() - 1] == node
}

/// A walk leads from `seed` to `node`.
pub open spec fn reaches<A>(step: spec_fn(A, A) -> bool, seed: A, node: A) -> bool {
    exists|path: Seq<A>| walk_joins(step, path, seed, node)
}

/// Every node reaches itself.
pub proof fn lemma_reaches_itself<A>(step: spec_fn(A, A) -> bool, seed: A)
    ensures
        reaches(step, seed, seed),
{
    assert(walk_joins(step, seq![seed], seed, seed));
}

/// A walk can be extended by a step.
pub proof fn lemma_reaches_next<A>(step: spec_fn(A, A) -> bool, seed: A, from: A, to: A)
    requires
        reaches(step, seed, from),
        step(from, to),
    ensures
        reaches(step, seed, to),
{
    let path = choose|path: Seq<A>| walk_joins(step, path, seed, from);
    let longer = path.push(to);
    assert forall|i: int| 0 <= i < longer.len() - 1 implies step(
        #[trigger] longer[i],
        longer[i + 1],
    ) by {
        if i < path.len() - 1 {
            assert(longer[i] == path[i]);
            assert(longer[i + 1] == path[i + 1]);
        }
    }
    assert(walk_joins(step, longer, seed, to));
}

/// A set that holds the seed and every node that a step leads to from one of its
/// members holds every node that the seed reaches.
pub proof fn lemma_closed_set_holds_reach<A>(
    step: spec_fn(A, A) -> bool,
    seed: A,
    node: A,
    members: Set<A>,
)
    requires
        members.contains(seed),
        forall|from: A, to: A| members.contains(from) && #[trigger] step(from, to) ==> members.contains(to),
        reaches(step, seed, node),
    ensures
        members.contains(node),
{
    let path = choose|path: Seq<A>| walk_joins(step, path, seed, node);
    lemma_closed_set_holds_walk(step, path, members, path.len() - 1);
}

/// A set that holds the start of a walk and every node that a step leads to from one of
/// its members holds every node of the walk.
proof fn lemma_closed_set_holds_walk<A>(
    step: spec_fn(A, A) -> bool,
    path: Seq<A>,
    members: Set<A>,
    i: int,
)
    requires
        is_walk(step, path),
        members.contains(path[0]),
        forall|from: A, to: A| members.contains(from) && #[trigger] step(from, to) ==> members.contains(to),
        0 <= i < path.len(),
    ensures
        members.contains(path[i]),
    decreases i,
{
    if i > 0 {
        lemma_closed_set_holds_walk(step, path, members, i - 1);
        assert(step(path[i - 1], path[i - 1 + 1]));
    }
}

} // verus!
