use crate::graph::Graph;
use vstd::laws_eq::obeys_concrete_eq;
use vstd::prelude::*;

verus! {

/// The funding edges given by the first `t` transactions of `txs` in full
/// and the first `i` inputs of transaction `t`. Each transaction is its id
/// paired with the ids of the earlier transactions whose outputs its inputs
/// spend; an edge `(p, x)` means that an output of `p` is spent by `x`.
pub open spec fn funding_edges_upto<T>(txs: Seq<(T, Vec<T>)>, t: int, i: int) -> Set<(T, T)> {
    Set::new(
        |e: (T, T)|
            exists|a: int, b: int|
                0 <= a < txs.len() && 0 <= b < txs[a].1@.len() && (a < t || (a == t && b < i))
                    && #[trigger] txs[a].1@[b] == e.0 && txs[a].0 == e.1,
    )
}

/// All funding edges of `txs`: one from each spent transaction to the
/// transaction that spends it.
pub open spec fn funding_edges<T>(txs: Seq<(T, Vec<T>)>) -> Set<(T, T)> {
    funding_edges_upto(txs, txs.len() as int, 0)
}

/// The ids that stand at either end of a funding edge of `txs`: every
/// transaction with at least one input, and every transaction one of them
/// spends, whether or not that one is among `txs` itself.
pub open spec fn funding_vertices<T>(txs: Seq<(T, Vec<T>)>) -> Set<T> {
    Set::new(|x: T| exists|y: T| funding_edges(txs).contains((x, y)) || funding_edges(txs).contains((y, x)))
}

/// The block heights from `start` to `end`, both included, in increasing
/// order; none when `end < start`. A range that ends at height `h` and
/// starts at `h - k` holds `k + 1` heights.
pub fn block_heights(start: u64, end: u64) -> (r: Vec<u64>)
    ensures
        r@.len() == if start <= end { end - start + 1 } else { 0 },
        forall|i: int| 0 <= i < r@.len() ==> #[trigger] r@[i] == start + i,
{
    let mut r: Vec<u64> = Vec::new();
    if end < start {
        return r;
    }
    let mut h: u64 = start;
    loop
        invariant
            start <= h <= end,
            r@.len() == h - start,
            forall|i: int| 0 <= i < r@.len() ==> #[trigger] r@[i] == start + i,
        decreases end - h,
    {
        r.push(h);
        if h == end {
            return r;
        }
        h = h + 1;
    }
}

/// Builds the funding graph of a run of transactions, given in block order:
/// for each input of each transaction `x` that spends an output of `p`, the
/// edge `(p, x)` is added.
pub fn build_transaction_graph<T: PartialEq + Copy>(txs: &Vec<(T, Vec<T>)>) -> (g: Graph<T>)
    requires
        obeys_concrete_eq::<T>(),
    ensures
        g.wf(),
        g.edge_set() == funding_edges(txs@),
        g.vertex_set() == funding_vertices(txs@),
{
    let mut g: Graph<T> = Graph::new();
    let mut t: usize = 0;
    proof {
        assert(g.edge_set() =~= funding_edges_upto(txs@, 0, 0));
    }
    while t < txs.len()
        invariant
            obeys_concrete_eq::<T>(),
            t <= txs@.len(),
            g.wf(),
            g.edge_set() == funding_edges_upto(txs@, t as int, 0),
            forall|x: T|
                #[trigger] g.vertex_set().contains(x) <==> exists|y: T|
                    g.edge_set().contains((x, y)) || g.edge_set().contains((y, x)),
        decreases txs@.len() - t,
    {
        let id: T = txs[t].0;
        let inputs = &txs[t].1;
        let mut i: usize = 0;
        while i < inputs.len()
            invariant
                obeys_concrete_eq::<T>(),
                t < txs@.len(),
                id == txs@[t as int].0,
                *inputs == txs@[t as int].1,
                i <= inputs@.len(),
                g.wf(),
                g.edge_set() == funding_edges_upto(txs@, t as int, i as int),
                forall|x: T|
                    #[trigger] g.vertex_set().contains(x) <==> exists|y: T|
                        g.edge_set().contains((x, y)) || g.edge_set().contains((y, x)),
            decreases inputs@.len() - i,
        {
            let prev: T = inputs[i];
            let ghost pre = g;
            g.insert_edge(prev, id);
            proof {
                let next = funding_edges_upto(txs@, t as int, i + 1);
                assert(next =~= pre.edge_set().insert((prev, id))) by {
                    assert(txs@[t as int].1@[i as int] == prev);
                    assert(next.contains((prev, id)));
                }
                assert forall|x: T|
                    #[trigger] g.vertex_set().contains(x) <==> exists|y: T|
                        g.edge_set().contains((x, y)) || g.edge_set().contains((y, x)) by {
                    if x == prev {
                        assert(g.edge_set().contains((prev, id)));
                    }
                    if x == id {
                        assert(g.edge_set().contains((prev, id)));
                    }
                    if pre.vertex_set().contains(x) {
                        let y = choose|y: T| pre.edge_set().contains((x, y)) || pre.edge_set().contains((y, x));
                        assert(g.edge_set().contains((x, y)) || g.edge_set().contains((y, x)));
                    }
                    if exists|y: T| g.edge_set().contains((x, y)) || g.edge_set().contains((y, x)) {
                        let y = choose|y: T| g.edge_set().contains((x, y)) || g.edge_set().contains((y, x));
                        if x != prev && x != id {
                            assert(pre.edge_set().contains((x, y)) || pre.edge_set().contains((y, x)));
                        }
                    }
                }
            }
            i = i + 1;
        }
        proof {
            assert(funding_edges_upto(txs@, t as int, i as int) =~= funding_edges_upto(txs@, t + 1, 0));
        }
        t = t + 1;
    }
    proof {
        assert(g.vertex_set() =~= funding_vertices(txs@));
    }
    g
}

} // verus!
