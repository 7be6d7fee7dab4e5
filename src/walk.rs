use vstd::prelude::*;

verus! {

/// `p` is a walk along `edges`: a non-empty sequence of vertices in which each
/// consecutive pair is an edge.
pub open spec fn is_walk<T>(edges: Set<(T, T)>, p: Seq<T>) -> bool {
    &&& p.len() >= 1
    &&& forall|i: int| 0 <= i < p.len() - 1 ==> #[trigger] edges.contains((p[i], p[i + 1]))
}

/// Whether a walk along `edges` leads from `u` to `v`.
pub open spec fn walk_from_to<T>(edges: Set<(T, T)>, u: T, v: T) -> bool {
    exists|p: Seq<T>| #[trigger] is_walk(edges, p) && p[0] == u && p.last() == v
}

/// A walk that starts inside a set closed under `edges` stays inside it.
pub proof fn lemma_walk_stays_in_closed_set<T>(edges: Set<(T, T)>, s: Set<T>, p: Seq<T>)
    requires
        is_walk(edges, p),
        s.contains(p[0]),
        forall|a: T, b: T| #[trigger] edges.contains((a, b)) && s.contains(a) ==> s.contains(b),
    ensures
        s.contains(p.last()),
    decreases p.len(),
{
    if p.len() > 1 {
        let q = p.drop_last();
        assert forall|i: int| 0 <= i < q.len() - 1 implies #[trigger] edges.contains((q[i], q[i + 1])) by {
            assert(edges.contains((p[i], p[i + 1])));
        }
        lemma_walk_stays_in_closed_set(edges, s, q);
        let i = p.len() - 2;
        assert(edges.contains((p[i], p[i + 1])));
        assert(q.last() == p[i]);
    }
}

/// A walk extended by one edge is a walk.
pub proof fn lemma_walk_extend<T>(edges: Set<(T, T)>, u: T, x: T, y: T)
    requires
        walk_from_to(edges, u, x),
        edges.contains((x, y)),
    ensures
        walk_from_to(edges, u, y),
{
    let p = choose|p: Seq<T>| #[trigger] is_walk(edges, p) && p[0] == u && p.last() == x;
    let q = p.push(y);
    assert forall|i: int| 0 <= i < q.len() - 1 implies #[trigger] edges.contains((q[i], q[i + 1])) by {
        if i < p.len() - 1 {
            assert(edges.contains((p[i], p[i + 1])));
        }
    }
    assert(is_walk(edges, q));
}

} // verus!
