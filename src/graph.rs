use std::rc::Rc;
use vstd::laws_eq::obeys_concrete_eq;
use vstd::prelude::*;
use crate::positions::{lemma_distinct_below, list_contains, shift_down, shifted, without};
use crate::walk::{is_walk, lemma_walk_extend, lemma_walk_stays_in_closed_set, walk_from_to};

verus! {

/// A directed graph over vertex values of type `T`.
///
/// Each distinct vertex value is stored once, behind a shared `Rc` handle, in
/// the intern table `verts`. Adjacency is kept by position: `succ[i]` lists the
/// positions in `verts` of the direct successors of `verts[i]`.
pub struct Graph<T> {
    verts: Vec<Rc<T>>,
    succ: Vec<Vec<usize>>,
}

/// The values behind a sequence of handles.
pub open spec fn handle_values<T>(hs: Seq<Rc<T>>) -> Seq<T> {
    hs.map_values(|h: Rc<T>| *h)
}

/// Relies on `Rc::clone`: the new handle points at the same stored value.
#[verifier::external_body]
fn share<T>(h: &Rc<T>) -> (r: Rc<T>)
    ensures
        *r == **h,
{
    Rc::clone(h)
}

impl<T> Graph<T> {
    /// The stored vertex value at position `i`.
    pub closed spec fn vert(&self, i: int) -> T {
        *self.verts@[i]
    }

    /// Internal consistency: one successor list per vertex, every listed
    /// position names a stored vertex, and no value is stored twice.
    pub closed spec fn wf(&self) -> bool {
        &&& self.succ@.len() == self.verts@.len()
        &&& forall|i: int, k: int|
            0 <= i < self.succ@.len() && 0 <= k < self.succ@[i]@.len() ==> (#[trigger] self.succ@[i]@[k])
                < self.verts@.len()
        &&& forall|i: int, j: int|
            0 <= i < self.verts@.len() && 0 <= j < self.verts@.len() && i != j ==> self.vert(i)
                != self.vert(j)
    }

    /// The set of vertex values known to the graph.
    pub closed spec fn vertex_set(&self) -> Set<T> {
        Set::new(|x: T| exists|i: int| 0 <= i < self.verts@.len() && self.vert(i) == x)
    }

    /// Whether `v` can be reached from the vertex `u` by following edges
    /// forward; every vertex reaches itself.
    pub open spec fn reaches(&self, u: T, v: T) -> bool {
        self.vertex_set().contains(u) && walk_from_to(self.edge_set(), u, v)
    }

    /// The set of directed edges `(u, v)`, as pairs of vertex values.
    pub closed spec fn edge_set(&self) -> Set<(T, T)> {
        Set::new(
            |e: (T, T)|
                exists|i: int, k: int|
                    0 <= i < self.succ@.len() && 0 <= k < self.succ@[i]@.len() && self.vert(i) == e.0
                        && self.vert(self.succ@[i]@[k] as int) == e.1,
        )
    }

    /// An empty graph.
    pub fn new() -> (g: Graph<T>)
        ensures
            g.wf(),
            g.vertex_set() == Set::<T>::empty(),
            g.edge_set() == Set::<(T, T)>::empty(),
    {
        let g = Graph { verts: Vec::new(), succ: Vec::new() };
        assert(g.vertex_set() =~= Set::<T>::empty());
        assert(g.edge_set() =~= Set::<(T, T)>::empty());
        g
    }
}

impl<T: PartialEq> Graph<T> {
    /// Position of the stored vertex equal to `u`, if any.
    fn find(&self, u: &T) -> (r: Option<usize>)
        requires
            obeys_concrete_eq::<T>(),
        ensures
            match r {
                Some(i) => i < self.verts@.len() && self.vert(i as int) == *u,
                None => forall|i: int| 0 <= i < self.verts@.len() ==> self.vert(i) != *u,
            },
    {
        let mut i: usize = 0;
        while i < self.verts.len()
            invariant
                obeys_concrete_eq::<T>(),
                i <= self.verts@.len(),
                forall|j: int| 0 <= j < i ==> self.vert(j) != *u,
            decreases self.verts@.len() - i,
        {
            proof {
                reveal(obeys_concrete_eq);
            }
            if (*self.verts[i]).eq(u) {
                return Some(i);
            }
            i = i + 1;
        }
        None
    }

    /// Position of `u` in the intern table, adding it with no successors
    /// when it is not yet stored.
    fn intern(&mut self, u: T) -> (i: usize)
        requires
            old(self).wf(),
            obeys_concrete_eq::<T>(),
        ensures
            final(self).wf(),
            i < final(self).verts@.len(),
            final(self).vert(i as int) == u,
            old(self).verts@.len() <= final(self).verts@.len() <= old(self).verts@.len() + 1,
            forall|j: int| 0 <= j < old(self).verts@.len() ==> final(self).verts@[j] == old(self).verts@[j],
            forall|j: int| 0 <= j < old(self).succ@.len() ==> final(self).succ@[j] == old(self).succ@[j],
            forall|j: int| old(self).succ@.len() <= j < final(self).succ@.len() ==> final(self).succ@[j]@.len() == 0,
            final(self).vertex_set() == old(self).vertex_set().insert(u),
            final(self).edge_set() == old(self).edge_set(),
    {
        match self.find(&u) {
            Some(i) => {
                assert(self.vertex_set().contains(u));
                assert(self.vertex_set().insert(u) =~= self.vertex_set());
                i
            },
            None => {
                let ghost pre = *self;
                let i = self.verts.len();
                self.verts.push(Rc::new(u));
                self.succ.push(Vec::new());
                assert(self.vert(i as int) == u);
                assert forall|j: int| 0 <= j < pre.verts@.len() implies self.vert(j) == pre.vert(j) by {
                    assert(self.verts@[j] == pre.verts@[j]);
                }
                assert(self.vertex_set() =~= pre.vertex_set().insert(u)) by {
                    assert forall|x: T| pre.vertex_set().insert(u).contains(x) implies self.vertex_set().contains(x) by {
                        if x != u {
                            let j = choose|j: int| 0 <= j < pre.verts@.len() && pre.vert(j) == x;
                            assert(self.vert(j) == x);
                        }
                    }
                    assert forall|x: T| self.vertex_set().contains(x) implies pre.vertex_set().insert(u).contains(x) by {
                        let j = choose|j: int| 0 <= j < self.verts@.len() && self.vert(j) == x;
                        if j < pre.verts@.len() {
                            assert(pre.vert(j) == x);
                        }
                    }
                }
                assert(self.wf()) by {
                    assert forall|a: int, k: int|
                        0 <= a < self.succ@.len() && 0 <= k < self.succ@[a]@.len() implies (#[trigger] self.succ@[a]@[k])
                            < self.verts@.len() by {
                        assert(a < pre.succ@.len());
                        assert(self.succ@[a] == pre.succ@[a]);
                    }
                    assert forall|a: int, b: int|
                        0 <= a < self.verts@.len() && 0 <= b < self.verts@.len() && a != b implies self.vert(a)
                            != self.vert(b) by {
                        if a < pre.verts@.len() {
                            assert(self.vert(a) == pre.vert(a));
                        }
                        if b < pre.verts@.len() {
                            assert(self.vert(b) == pre.vert(b));
                        }
                    }
                }
                assert(self.edge_set() =~= pre.edge_set()) by {
                    assert forall|e: (T, T)| self.edge_set().contains(e) implies pre.edge_set().contains(e) by {
                        let (a, k) = choose|a: int, k: int|
                            0 <= a < self.succ@.len() && 0 <= k < self.succ@[a]@.len() && self.vert(a) == e.0
                                && self.vert(self.succ@[a]@[k] as int) == e.1;
                        assert(a < pre.succ@.len());
                        assert(self.succ@[a] == pre.succ@[a]);
                        assert(pre.vert(a) == e.0);
                        assert(pre.vert(pre.succ@[a]@[k] as int) == e.1);
                    }
                    assert forall|e: (T, T)| pre.edge_set().contains(e) implies self.edge_set().contains(e) by {
                        let (a, k) = choose|a: int, k: int|
                            0 <= a < pre.succ@.len() && 0 <= k < pre.succ@[a]@.len() && pre.vert(a) == e.0
                                && pre.vert(pre.succ@[a]@[k] as int) == e.1;
                        assert(self.succ@[a] == pre.succ@[a]);
                        assert(self.vert(a) == e.0);
                        assert(self.vert(self.succ@[a]@[k] as int) == e.1);
                    }
                }
                i
            },
        }
    }

    /// Whether `u` is a vertex of the graph.
    pub fn contains_vertex(&self, u: &T) -> (r: bool)
        requires
            self.wf(),
            obeys_concrete_eq::<T>(),
        ensures
            r == self.vertex_set().contains(*u),
    {
        match self.find(u) {
            Some(_) => true,
            None => false,
        }
    }

    /// Adds `u` as a vertex with no outgoing edges; a vertex that is already
    /// present keeps its edges.
    pub fn insert_vertex(&mut self, u: T)
        requires
            old(self).wf(),
            obeys_concrete_eq::<T>(),
        ensures
            final(self).wf(),
            inserted_vertex(*old(self), *final(self), u),
            !old(self).vertex_set().contains(u) ==> forall|y: T| !final(self).edge_set().contains((u, y)),
    {
        proof {
            lemma_edges_join_vertices(*old(self));
        }
        self.intern(u);
    }

    /// Whether the edge `(u, v)` is in the graph; false when `u` is unknown.
    pub fn contains_edge(&self, u: &T, v: &T) -> (r: bool)
        requires
            self.wf(),
            obeys_concrete_eq::<T>(),
        ensures
            r == self.edge_set().contains((*u, *v)),
            r ==> self.vertex_set().contains(*u) && self.vertex_set().contains(*v),
            !self.vertex_set().contains(*u) ==> !r,
    {
        proof {
            lemma_edges_join_vertices(*self);
        }
        let iu = match self.find(u) {
            Some(i) => i,
            None => {
                return false;
            },
        };
        let iv = match self.find(v) {
            Some(i) => i,
            None => {
                return false;
            },
        };
        let r = list_contains(&self.succ[iu], iv);
        proof {
            if self.edge_set().contains((*u, *v)) {
                let (a, k) = choose|a: int, k: int|
                    0 <= a < self.succ@.len() && 0 <= k < self.succ@[a]@.len() && self.vert(a) == *u
                        && self.vert(self.succ@[a]@[k] as int) == *v;
                assert(a == iu);
                assert(self.succ@[a]@[k] == iv);
            }
            if r {
                let k = choose|k: int| 0 <= k < self.succ@[iu as int]@.len() && self.succ@[iu as int]@[k] == iv;
                assert(self.edge_set().contains((*u, *v)));
            }
        }
        r
    }

    /// Whether a directed path leads from `u` to `v`, found by a
    /// breadth-first search from `u`. An unknown `u` reaches nothing; a known
    /// vertex reaches itself.
    pub fn path_exists_between(&self, u: &T, v: &T) -> (r: bool)
        requires
            self.wf(),
            obeys_concrete_eq::<T>(),
        ensures
            r == self.reaches(*u, *v),
    {
        let start = match self.find(u) {
            Some(i) => i,
            None => {
                return false;
            },
        };
        let n = self.verts.len();
        let mut visited: Vec<bool> = Vec::new();
        while visited.len() < n
            invariant
                visited@.len() <= n,
                forall|k: int| 0 <= k < visited@.len() ==> !visited@[k],
            decreases n - visited@.len(),
        {
            visited.push(false);
        }
        visited.set(start, true);
        let mut queue: Vec<usize> = Vec::new();
        queue.push(start);
        let mut head: usize = 0;
        proof {
            assert forall|k: int| 0 <= k < n implies (visited@[k] <==> queue@.contains(k as usize)) by {
                if k == start {
                    assert(queue@[0] == start);
                }
            }
            let p = seq![*u];
            assert(is_walk(self.edge_set(), p));
            assert(self.reaches(*u, self.vert(start as int)));
        }
        while head < queue.len()
            invariant
                self.wf(),
                obeys_concrete_eq::<T>(),
                n == self.verts@.len(),
                visited@.len() == n,
                start < n,
                self.vert(start as int) == *u,
                self.vertex_set().contains(*u),
                1 <= queue@.len(),
                head <= queue@.len() <= n,
                queue@[0] == start,
                queue@.no_duplicates(),
                forall|m: int| 0 <= m < queue@.len() ==> (#[trigger] queue@[m]) < n,
                forall|k: int| 0 <= k < n ==> (visited@[k] <==> queue@.contains(k as usize)),
                forall|m: int|
                    0 <= m < queue@.len() ==> walk_from_to(self.edge_set(), *u, self.vert(#[trigger] queue@[m] as int)),
                forall|m: int| 0 <= m < head ==> self.vert(#[trigger] queue@[m] as int) != *v,
                forall|m: int, k: int|
                    0 <= m < head && 0 <= k < self.succ@[queue@[m] as int]@.len() ==> visited@[#[trigger] self.succ@[queue@[m] as int]@[k] as int],
            decreases n - head,
        {
            let node = queue[head];
            proof {
                reveal(obeys_concrete_eq);
            }
            if (*self.verts[node]).eq(v) {
                return true;
            }
            let list = &self.succ[node];
            let mut idx: usize = 0;
            while idx < list.len()
                invariant
                    self.wf(),
                    n == self.verts@.len(),
                    visited@.len() == n,
                    *list == self.succ@[node as int],
                    node < n,
                    walk_from_to(self.edge_set(), *u, self.vert(node as int)),
                    head < queue@.len() <= n,
                    queue@[head as int] == node,
                    queue@[0] == start,
                    idx <= list@.len(),
                    queue@.no_duplicates(),
                    forall|m: int| 0 <= m < queue@.len() ==> (#[trigger] queue@[m]) < n,
                    forall|k: int| 0 <= k < n ==> (visited@[k] <==> queue@.contains(k as usize)),
                    forall|m: int|
                        0 <= m < queue@.len() ==> walk_from_to(self.edge_set(), *u, self.vert(#[trigger] queue@[m] as int)),
                    forall|m: int| 0 <= m < head ==> self.vert(#[trigger] queue@[m] as int) != *v,
                    forall|m: int, k: int|
                        0 <= m < head && 0 <= k < self.succ@[queue@[m] as int]@.len() ==> visited@[#[trigger] self.succ@[queue@[m] as int]@[k] as int],
                    forall|k: int| 0 <= k < idx ==> visited@[#[trigger] list@[k] as int],
                decreases list@.len() - idx,
            {
                let j = list[idx];
                if !visited[j] {
                    let ghost old_queue = queue@;
                    let ghost old_visited = visited@;
                    proof {
                        assert(self.edge_set().contains((self.vert(node as int), self.vert(j as int))));
                        lemma_walk_extend(self.edge_set(), *u, self.vert(node as int), self.vert(j as int));
                        assert(!queue@.contains(j));
                        let pushed = queue@.push(j);
                        assert(pushed.no_duplicates()) by {
                            assert forall|a: int, b: int| 0 <= a < pushed.len() && 0 <= b < pushed.len() && a != b implies pushed[a] != pushed[b] by {
                                if a < queue@.len() && b == queue@.len() {
                                    assert(queue@.contains(queue@[a]));
                                }
                                if b < queue@.len() && a == queue@.len() {
                                    assert(queue@.contains(queue@[b]));
                                }
                            }
                        }
                        assert forall|m: int| 0 <= m < pushed.len() implies (#[trigger] pushed[m]) < n by {
                            if m < queue@.len() {
                                assert(pushed[m] == queue@[m]);
                            }
                        }
                        lemma_distinct_below(pushed, n as nat);
                    }
                    visited.set(j, true);
                    queue.push(j);
                    proof {
                        assert forall|k: int| 0 <= k < n implies (visited@[k] <==> queue@.contains(k as usize)) by {
                            if k != j {
                                if queue@.contains(k as usize) {
                                    let m = choose|m: int| 0 <= m < queue@.len() && queue@[m] == k as usize;
                                    assert(m < old_queue.len());
                                    assert(old_queue.contains(k as usize));
                                }
                                if old_queue.contains(k as usize) {
                                    let m = choose|m: int| 0 <= m < old_queue.len() && old_queue[m] == k as usize;
                                    assert(queue@[m] == k as usize);
                                }
                            } else {
                                assert(queue@[queue@.len() - 1] == j);
                            }
                        }
                        assert forall|m: int| 0 <= m < queue@.len() implies walk_from_to(self.edge_set(), *u, self.vert(#[trigger] queue@[m] as int)) by {
                            if m < old_queue.len() {
                                assert(queue@[m] == old_queue[m]);
                            }
                        }
                        assert forall|m: int, k: int|
                            0 <= m < head && 0 <= k < self.succ@[queue@[m] as int]@.len() implies visited@[#[trigger] self.succ@[queue@[m] as int]@[k] as int] by {
                            assert(queue@[m] == old_queue[m]);
                            assert(old_visited[self.succ@[old_queue[m] as int]@[k] as int]);
                        }
                    }
                }
                idx = idx + 1;
            }
            head = head + 1;
        }
        proof {
            let s = Set::new(|x: T| exists|m: int| 0 <= m < queue@.len() && self.vert(queue@[m] as int) == x);
            assert(queue@[0] == start);
            assert(self.vert(queue@[0] as int) == *u);
            assert(s.contains(*u));
            assert forall|a: T, b: T| #[trigger] self.edge_set().contains((a, b)) && s.contains(a) implies s.contains(b) by {
                let (i, k) = choose|i: int, k: int|
                    0 <= i < self.succ@.len() && 0 <= k < self.succ@[i]@.len() && self.vert(i) == a
                        && self.vert(self.succ@[i]@[k] as int) == b;
                let m = choose|m: int| 0 <= m < queue@.len() && self.vert(queue@[m] as int) == a;
                assert(queue@[m] as int == i);
                let j = self.succ@[i]@[k];
                assert(visited@[j as int]);
                let m2 = choose|m2: int| 0 <= m2 < queue@.len() && queue@[m2] == j;
                assert(self.vert(queue@[m2] as int) == b);
            }
            if self.reaches(*u, *v) {
                let p = choose|p: Seq<T>| #[trigger] is_walk(self.edge_set(), p) && p[0] == *u && p.last() == *v;
                lemma_walk_stays_in_closed_set(self.edge_set(), s, p);
                let m = choose|m: int| 0 <= m < queue@.len() && self.vert(queue@[m] as int) == *v;
                assert(false);
            }
        }
        false
    }

    /// Handles to every vertex of the graph, each once, in no promised
    /// order.
    pub fn vertices(&self) -> (r: Vec<Rc<T>>)
        requires
            self.wf(),
        ensures
            handle_values(r@).no_duplicates(),
            handle_values(r@).to_set() == self.vertex_set(),
    {
        let mut r: Vec<Rc<T>> = Vec::new();
        let mut k: usize = 0;
        while k < self.verts.len()
            invariant
                k <= self.verts@.len(),
                r@.len() == k,
                forall|m: int| 0 <= m < k ==> *#[trigger] r@[m] == self.vert(m),
            decreases self.verts@.len() - k,
        {
            r.push(share(&self.verts[k]));
            k = k + 1;
        }
        proof {
            let hv = handle_values(r@);
            assert forall|a: int, b: int| 0 <= a < hv.len() && 0 <= b < hv.len() && a != b implies hv[a] != hv[b] by {
                assert(hv[a] == self.vert(a));
                assert(hv[b] == self.vert(b));
            }
            assert forall|x: T| hv.to_set().contains(x) <==> self.vertex_set().contains(x) by {
                if hv.contains(x) {
                    let m = choose|m: int| 0 <= m < hv.len() && hv[m] == x;
                    assert(self.vert(m) == x);
                }
                if self.vertex_set().contains(x) {
                    let m = choose|m: int| 0 <= m < self.verts@.len() && self.vert(m) == x;
                    assert(hv[m] == x);
                }
            }
            assert(hv.to_set() =~= self.vertex_set());
        }
        r
    }

    /// Handles to the predecessors of `u`: every vertex `w` with an edge
    /// `(w, u)`, each once, in no promised order. Despite the name these are
    /// the in-neighbours, not the successors.
    pub fn neighbors(&self, u: &T) -> (r: Vec<Rc<T>>)
        requires
            self.wf(),
            obeys_concrete_eq::<T>(),
        ensures
            handle_values(r@).no_duplicates(),
            forall|w: T| #[trigger] handle_values(r@).contains(w) <==> self.edge_set().contains((w, *u)),
            forall|w: T| #[trigger] handle_values(r@).contains(w) ==> self.vertex_set().contains(w),
    {
        proof {
            lemma_edges_join_vertices(*self);
        }
        proof {
            lemma_edges(*self);
        }
        let mut r: Vec<Rc<T>> = Vec::new();
        let iu = match self.find(u) {
            Some(i) => i,
            None => {
                proof {
                    assert forall|w: T| #[trigger] handle_values(r@).contains(w) <==> self.edge_set().contains((w, *u)) by {
                        if self.edge_set().contains((w, *u)) {
                            let (a, j) = choose|a: int, j: usize|
                                0 <= a < self.succ@.len() && #[trigger] self.succ@[a]@.contains(j) && j < self.verts@.len()
                                    && self.vert(a) == w && self.vert(j as int) == *u;
                        }
                    }
                }
                return r;
            },
        };
        let mut k: usize = 0;
        while k < self.verts.len()
            invariant
                self.wf(),
                iu < self.verts@.len(),
                self.vert(iu as int) == *u,
                k <= self.verts@.len(),
                handle_values(r@).no_duplicates(),
                forall|w: T|
                    #[trigger] handle_values(r@).contains(w) <==> exists|a: int|
                        0 <= a < k && self.vert(a) == w && #[trigger] self.succ@[a]@.contains(iu),
            decreases self.verts@.len() - k,
        {
            if list_contains(&self.succ[k], iu) {
                let ghost before = handle_values(r@);
                r.push(share(&self.verts[k]));
                proof {
                    let hv = handle_values(r@);
                    assert(hv =~= before.push(self.vert(k as int)));
                    assert(!before.contains(self.vert(k as int))) by {
                        if before.contains(self.vert(k as int)) {
                            let a = choose|a: int|
                                0 <= a < k && self.vert(a) == self.vert(k as int) && #[trigger] self.succ@[a]@.contains(iu);
                        }
                    }
                    assert forall|w: T|
                        #[trigger] hv.contains(w) <==> exists|a: int|
                            0 <= a < k + 1 && self.vert(a) == w && #[trigger] self.succ@[a]@.contains(iu) by {
                        if hv.contains(w) && w != self.vert(k as int) {
                            let m = choose|m: int| 0 <= m < hv.len() && hv[m] == w;
                            assert(before[m] == w);
                            assert(before.contains(w));
                        }
                        if before.contains(w) {
                            let m = choose|m: int| 0 <= m < before.len() && before[m] == w;
                            assert(hv[m] == w);
                        }
                        assert(hv[hv.len() - 1] == self.vert(k as int));
                    }
                }
            }
            k = k + 1;
        }
        proof {
            assert forall|w: T| #[trigger] handle_values(r@).contains(w) <==> self.edge_set().contains((w, *u)) by {
                if self.edge_set().contains((w, *u)) {
                    let (a, j) = choose|a: int, j: usize|
                        0 <= a < self.succ@.len() && #[trigger] self.succ@[a]@.contains(j) && j < self.verts@.len()
                            && self.vert(a) == w && self.vert(j as int) == *u;
                    assert(j == iu);
                }
            }
        }
        r
    }

    /// Handles to the successors of `u`: every vertex `w` with an edge
    /// `(u, w)`, each once, in no promised order.
    pub fn successors(&self, u: &T) -> (r: Vec<Rc<T>>)
        requires
            self.wf(),
            obeys_concrete_eq::<T>(),
        ensures
            handle_values(r@).no_duplicates(),
            forall|w: T| #[trigger] handle_values(r@).contains(w) <==> self.edge_set().contains((*u, w)),
            forall|w: T| #[trigger] handle_values(r@).contains(w) ==> self.vertex_set().contains(w),
    {
        proof {
            lemma_edges_join_vertices(*self);
        }
        proof {
            lemma_edges(*self);
        }
        let mut r: Vec<Rc<T>> = Vec::new();
        let iu = match self.find(u) {
            Some(i) => i,
            None => {
                proof {
                    assert forall|w: T| #[trigger] handle_values(r@).contains(w) <==> self.edge_set().contains((*u, w)) by {
                        if self.edge_set().contains((*u, w)) {
                            let (a, j) = choose|a: int, j: usize|
                                0 <= a < self.succ@.len() && #[trigger] self.succ@[a]@.contains(j) && j < self.verts@.len()
                                    && self.vert(a) == *u && self.vert(j as int) == w;
                        }
                    }
                }
                return r;
            },
        };
        let list = &self.succ[iu];
        let mut k: usize = 0;
        while k < self.verts.len()
            invariant
                self.wf(),
                iu < self.verts@.len(),
                self.vert(iu as int) == *u,
                *list == self.succ@[iu as int],
                k <= self.verts@.len(),
                handle_values(r@).no_duplicates(),
                forall|w: T|
                    #[trigger] handle_values(r@).contains(w) <==> exists|j: int|
                        0 <= j < k && self.vert(j) == w && #[trigger] list@.contains(j as usize),
            decreases self.verts@.len() - k,
        {
            if list_contains(list, k) {
                let ghost before = handle_values(r@);
                r.push(share(&self.verts[k]));
                proof {
                    let hv = handle_values(r@);
                    assert(hv =~= before.push(self.vert(k as int)));
                    assert(!before.contains(self.vert(k as int))) by {
                        if before.contains(self.vert(k as int)) {
                            let j = choose|j: int|
                                0 <= j < k && self.vert(j) == self.vert(k as int) && #[trigger] list@.contains(j as usize);
                        }
                    }
                    assert forall|w: T|
                        #[trigger] hv.contains(w) <==> exists|j: int|
                            0 <= j < k + 1 && self.vert(j) == w && #[trigger] list@.contains(j as usize) by {
                        if hv.contains(w) && w != self.vert(k as int) {
                            let m = choose|m: int| 0 <= m < hv.len() && hv[m] == w;
                            assert(before[m] == w);
                            assert(before.contains(w));
                        }
                        if before.contains(w) {
                            let m = choose|m: int| 0 <= m < before.len() && before[m] == w;
                            assert(hv[m] == w);
                        }
                        assert(hv[hv.len() - 1] == self.vert(k as int));
                        assert(list@.contains((k as int) as usize));
                    }
                }
            }
            k = k + 1;
        }
        proof {
            assert forall|w: T| #[trigger] handle_values(r@).contains(w) <==> self.edge_set().contains((*u, w)) by {
                if self.edge_set().contains((*u, w)) {
                    let (a, j) = choose|a: int, j: usize|
                        0 <= a < self.succ@.len() && #[trigger] self.succ@[a]@.contains(j) && j < self.verts@.len()
                            && self.vert(a) == *u && self.vert(j as int) == w;
                    assert(a == iu);
                    assert(list@.contains((j as int) as usize));
                }
                if handle_values(r@).contains(w) {
                    let j = choose|j: int| 0 <= j < self.verts@.len() && self.vert(j) == w && #[trigger] list@.contains(j as usize);
                    assert(self.succ@[iu as int]@.contains(j as usize));
                }
            }
        }
        r
    }

    /// Removes the edge `(u, v)` if it is present. When `u` or `v` is not a
    /// vertex there is no such edge, and nothing changes.
    pub fn remove_edge(&mut self, u: &T, v: &T)
        requires
            old(self).wf(),
            obeys_concrete_eq::<T>(),
        ensures
            final(self).wf(),
            removed_edge(*old(self), *final(self), *u, *v),
    {
        let ghost pre = *self;
        proof {
            lemma_edges(pre);
        }
        let iu = match self.find(u) {
            Some(i) => i,
            None => {
                assert(pre.edge_set().remove((*u, *v)) =~= pre.edge_set());
                return;
            },
        };
        let iv = match self.find(v) {
            Some(i) => i,
            None => {
                assert(pre.edge_set().remove((*u, *v)) =~= pre.edge_set());
                return;
            },
        };
        let kept = without(&self.succ[iu], iv);
        self.succ.set(iu, kept);
        proof {
            lemma_same_table(*self, pre);
            assert forall|a: int, k: int|
                0 <= a < self.succ@.len() && 0 <= k < self.succ@[a]@.len() implies (#[trigger] self.succ@[a]@[k])
                    < self.verts@.len() by {
                if a == iu {
                    assert(self.succ@[a]@.contains(self.succ@[a]@[k]));
                    assert(pre.succ@[a]@.contains(self.succ@[a]@[k]));
                } else {
                    assert(self.succ@[a] == pre.succ@[a]);
                }
            }
            assert(self.wf());
            lemma_edges(*self);
            assert forall|e: (T, T)| self.edge_set().contains(e) implies pre.edge_set().remove((*u, *v)).contains(e) by {
                let (a, j) = choose|a: int, j: usize|
                    0 <= a < self.succ@.len() && #[trigger] self.succ@[a]@.contains(j) && j < self.verts@.len()
                        && self.vert(a) == e.0 && self.vert(j as int) == e.1;
                if a == iu {
                    assert(pre.succ@[a]@.contains(j));
                    assert(j != iv);
                } else {
                    assert(self.succ@[a] == pre.succ@[a]);
                    assert(pre.succ@[a]@.contains(j));
                }
            }
            assert forall|e: (T, T)| pre.edge_set().remove((*u, *v)).contains(e) implies self.edge_set().contains(e) by {
                let (a, j) = choose|a: int, j: usize|
                    0 <= a < pre.succ@.len() && #[trigger] pre.succ@[a]@.contains(j) && j < pre.verts@.len()
                        && pre.vert(a) == e.0 && pre.vert(j as int) == e.1;
                if a == iu {
                    assert(j != iv);
                    assert(self.succ@[a]@.contains(j));
                } else {
                    assert(self.succ@[a] == pre.succ@[a]);
                    assert(self.succ@[a]@.contains(j));
                }
            }
            assert(self.edge_set() =~= pre.edge_set().remove((*u, *v)));
        }
    }

    /// Removes the vertex `u` together with every edge that leaves or enters
    /// it; nothing changes when `u` is unknown. The remaining vertices keep
    /// their relative positions, so every successor list is rewritten once:
    /// the cost is linear in the size of the graph.
    pub fn remove_vertex(&mut self, u: &T)
        requires
            old(self).wf(),
            obeys_concrete_eq::<T>(),
        ensures
            final(self).wf(),
            removed_vertex(*old(self), *final(self), *u),
    {
        let ghost pre = *self;
        proof {
            lemma_edges(pre);
        }
        let i = match self.find(u) {
            Some(i) => i,
            None => {
                assert(pre.vertex_set().remove(*u) =~= pre.vertex_set());
                assert(pre.edge_set().filter(|e: (T, T)| e.0 != *u && e.1 != *u) =~= pre.edge_set()) by {
                    assert forall|e: (T, T)| pre.edge_set().contains(e) implies e.0 != *u && e.1 != *u by {
                        let (a, j) = choose|a: int, j: usize|
                            0 <= a < pre.succ@.len() && #[trigger] pre.succ@[a]@.contains(j) && j < pre.verts@.len()
                                && pre.vert(a) == e.0 && pre.vert(j as int) == e.1;
                    }
                }
                return;
            },
        };
        self.verts.remove(i);
        let mut old_succ: Vec<Vec<usize>> = Vec::new();
        std::mem::swap(&mut old_succ, &mut self.succ);
        old_succ.remove(i);
        let n = old_succ.len();
        let mut new_succ: Vec<Vec<usize>> = Vec::new();
        let mut k: usize = 0;
        while k < n
            invariant
                n == old_succ@.len(),
                old_succ@ == pre.succ@.remove(i as int),
                k <= n,
                new_succ@.len() == k,
                forall|a: int, e: usize|
                    0 <= a < k && #[trigger] old_succ@[a]@.contains(e) && e != i ==> new_succ@[a]@.contains(
                        shift_down(e, i),
                    ),
                forall|a: int, x: usize|
                    0 <= a < k && #[trigger] new_succ@[a]@.contains(x) ==> exists|e: usize|
                        #[trigger] old_succ@[a]@.contains(e) && e != i && x == shift_down(e, i),
            decreases n - k,
        {
            let l = shifted(&old_succ[k], i);
            new_succ.push(l);
            k = k + 1;
        }
        self.succ = new_succ;
        proof {
            let up = |t: int| if t < i { t } else { t + 1 };
            assert forall|t: int| 0 <= t < self.verts@.len() implies #[trigger] self.vert(t) == pre.vert(up(t)) by {
                assert(self.verts@[t] == pre.verts@[up(t)]);
            }
            assert forall|a: int| 0 <= a < self.succ@.len() implies #[trigger] old_succ@[a] == pre.succ@[up(a)] by {}
            assert forall|a: int, k: int|
                0 <= a < self.succ@.len() && 0 <= k < self.succ@[a]@.len() implies (#[trigger] self.succ@[a]@[k])
                    < self.verts@.len() by {
                let x = self.succ@[a]@[k];
                assert(self.succ@[a]@.contains(x));
                let e = choose|e: usize| #[trigger] old_succ@[a]@.contains(e) && e != i && x == shift_down(e, i);
                assert(pre.succ@[up(a)]@.contains(e));
            }
            assert forall|a: int, b: int|
                0 <= a < self.verts@.len() && 0 <= b < self.verts@.len() && a != b implies self.vert(a)
                    != self.vert(b) by {
                assert(self.vert(a) == pre.vert(up(a)));
                assert(self.vert(b) == pre.vert(up(b)));
            }
            assert(self.wf());
            lemma_edges(*self);
            assert forall|x: T| #[trigger] self.vertex_set().contains(x) <==> pre.vertex_set().remove(*u).contains(x) by {
                if self.vertex_set().contains(x) {
                    let t = choose|t: int| 0 <= t < self.verts@.len() && self.vert(t) == x;
                    assert(pre.vert(up(t)) == x);
                    assert(up(t) != i);
                }
                if pre.vertex_set().remove(*u).contains(x) {
                    let t = choose|t: int| 0 <= t < pre.verts@.len() && pre.vert(t) == x;
                    assert(t != i);
                    let t2 = if t < i { t } else { t - 1 };
                    assert(self.vert(t2) == x);
                }
            }
            assert(self.vertex_set() =~= pre.vertex_set().remove(*u));
            let kept = pre.edge_set().filter(|e: (T, T)| e.0 != *u && e.1 != *u);
            assert forall|e: (T, T)| self.edge_set().contains(e) implies kept.contains(e) by {
                let (a, x) = choose|a: int, x: usize|
                    0 <= a < self.succ@.len() && #[trigger] self.succ@[a]@.contains(x) && x < self.verts@.len()
                        && self.vert(a) == e.0 && self.vert(x as int) == e.1;
                let j = choose|j: usize| #[trigger] old_succ@[a]@.contains(j) && j != i && x == shift_down(j, i);
                assert(pre.succ@[up(a)]@.contains(j));
                assert(up(x as int) == j);
                assert(pre.vert(up(a)) == e.0);
                assert(pre.vert(j as int) == e.1);
                assert(up(a) != i);
            }
            assert forall|e: (T, T)| kept.contains(e) implies self.edge_set().contains(e) by {
                let (a, j) = choose|a: int, j: usize|
                    0 <= a < pre.succ@.len() && #[trigger] pre.succ@[a]@.contains(j) && j < pre.verts@.len()
                        && pre.vert(a) == e.0 && pre.vert(j as int) == e.1;
                assert(a != i);
                assert(j != i);
                let a2 = if a < i { a } else { a - 1 };
                assert(up(a2) == a);
                assert(old_succ@[a2]@.contains(j));
                let x = shift_down(j, i);
                assert(self.succ@[a2]@.contains(x));
                assert(self.vert(a2) == e.0);
                assert(self.vert(x as int) == pre.vert(up(x as int)));
                assert(self.edge_set().contains((self.vert(a2), self.vert(x as int))));
            }
            assert(self.edge_set() =~= kept);
        }
    }

    /// Adds the edge `(u, v)`, first adding either end that is not yet a
    /// vertex. Adding an edge that is already present changes nothing.
    pub fn insert_edge(&mut self, u: T, v: T)
        requires
            old(self).wf(),
            obeys_concrete_eq::<T>(),
        ensures
            final(self).wf(),
            inserted_edge(*old(self), *final(self), u, v),
            !old(self).vertex_set().contains(u) ==> forall|y: T|
                #[trigger] final(self).edge_set().contains((u, y)) <==> y == v,
            old(self).edge_set().contains((u, v)) ==> final(self).vertex_set() == old(self).vertex_set(),
            !old(self).vertex_set().contains(v) && v != u ==> forall|y: T| !final(self).edge_set().contains((v, y)),
    {
        let ghost pre = *self;
        proof {
            lemma_edges_join_vertices(pre);
        }
        let iu = self.intern(u);
        let iv = self.intern(v);
        let ghost mid = *self;
        assert(self.vert(iu as int) == u) by {
            assert(self.verts@[iu as int] == mid.verts@[iu as int]);
        }
        if !list_contains(&self.succ[iu], iv) {
            self.succ[iu].push(iv);
            proof {
                lemma_same_table(*self, mid);
            }
            assert(self.wf()) by {
                assert forall|a: int, k: int|
                    0 <= a < self.succ@.len() && 0 <= k < self.succ@[a]@.len() implies (#[trigger] self.succ@[a]@[k])
                        < self.verts@.len() by {
                    if a != iu {
                        assert(self.succ@[a] == mid.succ@[a]);
                    } else if k < mid.succ@[a]@.len() {
                        assert(self.succ@[a]@[k] == mid.succ@[a]@[k]);
                    }
                }
            }
            assert(self.edge_set() =~= mid.edge_set().insert((u, v))) by {
                assert(self.succ@[iu as int]@[mid.succ@[iu as int]@.len() as int] == iv);
                assert forall|e: (T, T)| self.edge_set().contains(e) implies mid.edge_set().insert((u, v)).contains(e) by {
                    let (a, k) = choose|a: int, k: int|
                        0 <= a < self.succ@.len() && 0 <= k < self.succ@[a]@.len() && self.vert(a) == e.0
                            && self.vert(self.succ@[a]@[k] as int) == e.1;
                    if a != iu {
                        assert(self.succ@[a] == mid.succ@[a]);
                        assert(mid.edge_set().contains(e));
                    } else if k < mid.succ@[a]@.len() {
                        assert(self.succ@[a]@[k] == mid.succ@[a]@[k]);
                        assert(mid.edge_set().contains(e));
                    }
                }
                assert forall|e: (T, T)| mid.edge_set().insert((u, v)).contains(e) implies self.edge_set().contains(e) by {
                    if e != (u, v) {
                        let (a, k) = choose|a: int, k: int|
                            0 <= a < mid.succ@.len() && 0 <= k < mid.succ@[a]@.len() && mid.vert(a) == e.0
                                && mid.vert(mid.succ@[a]@[k] as int) == e.1;
                        if a != iu {
                            assert(self.succ@[a] == mid.succ@[a]);
                        } else {
                            assert(self.succ@[a]@[k] == mid.succ@[a]@[k]);
                        }
                    }
                }
            }
        } else {
            assert(mid.edge_set().contains((u, v))) by {
                let k = choose|k: int| 0 <= k < self.succ@[iu as int]@.len() && self.succ@[iu as int]@[k] == iv;
            }
            assert(mid.edge_set().insert((u, v)) =~= mid.edge_set());
        }
        assert(self.vertex_set() =~= pre.vertex_set().insert(u).insert(v));
    }
}

/// Two graphs with the same intern table have the same vertices.
proof fn lemma_same_table<T>(a: Graph<T>, b: Graph<T>)
    requires
        a.verts@ == b.verts@,
    ensures
        forall|i: int| #![all_triggers] a.vert(i) == b.vert(i),
        a.vertex_set() == b.vertex_set(),
{
    assert forall|i: int| #![all_triggers] a.vert(i) == b.vert(i) by {
        assert(a.verts@[i] == b.verts@[i]);
    }
    assert(a.vertex_set() =~= b.vertex_set()) by {
        assert forall|x: T| a.vertex_set().contains(x) implies b.vertex_set().contains(x) by {
            let i = choose|i: int| 0 <= i < a.verts@.len() && a.vert(i) == x;
            assert(b.vert(i) == x);
        }
        assert forall|x: T| b.vertex_set().contains(x) implies a.vertex_set().contains(x) by {
            let i = choose|i: int| 0 <= i < b.verts@.len() && b.vert(i) == x;
            assert(a.vert(i) == x);
        }
    }
}

/// Both ends of every edge are vertices of the graph: no edge refers to a
/// vertex that is not stored.
pub proof fn lemma_edges_join_vertices<T>(g: Graph<T>)
    requires
        g.wf(),
    ensures
        forall|e: (T, T)| #[trigger] g.edge_set().contains(e) ==> g.vertex_set().contains(e.0) && g.vertex_set().contains(
            e.1,
        ),
{
    lemma_edges(g);
    assert forall|e: (T, T)| #[trigger] g.edge_set().contains(e) implies g.vertex_set().contains(e.0)
        && g.vertex_set().contains(e.1) by {
        let (a, j) = choose|a: int, j: usize|
            0 <= a < g.succ@.len() && #[trigger] g.succ@[a]@.contains(j) && j < g.verts@.len() && g.vert(a) == e.0
                && g.vert(j as int) == e.1;
    }
}

/// When `v` can be reached from `u`, it is reached by a walk that passes
/// through vertices of the graph only.
pub proof fn lemma_reaches_through_vertices<T>(g: Graph<T>, u: T, v: T)
    requires
        g.wf(),
        g.reaches(u, v),
    ensures
        exists|p: Seq<T>|
            #[trigger] is_walk(g.edge_set(), p) && p[0] == u && p.last() == v && forall|i: int|
                0 <= i < p.len() ==> g.vertex_set().contains(#[trigger] p[i]),
{
    lemma_edges_join_vertices(g);
    let p = choose|p: Seq<T>| #[trigger] is_walk(g.edge_set(), p) && p[0] == u && p.last() == v;
    assert forall|i: int| 0 <= i < p.len() implies g.vertex_set().contains(#[trigger] p[i]) by {
        if i == 0 {
        } else {
            assert(g.edge_set().contains((p[i - 1], p[(i - 1) + 1])));
        }
    }
}

/// Adding a vertex makes it present.
pub proof fn lemma_insert_vertex_present<T>(pre: Graph<T>, post: Graph<T>, v: T)
    requires
        inserted_vertex(pre, post, v),
    ensures
        post.vertex_set().contains(v),
{
}

/// Adding an edge makes the edge present, and both of its ends.
pub proof fn lemma_insert_edge_present<T>(pre: Graph<T>, post: Graph<T>, u: T, v: T)
    requires
        inserted_edge(pre, post, u, v),
    ensures
        post.edge_set().contains((u, v)),
        post.vertex_set().contains(u),
        post.vertex_set().contains(v),
{
}

/// Removing an existing edge makes it absent.
pub proof fn lemma_remove_edge_absent<T>(pre: Graph<T>, post: Graph<T>, u: T, v: T)
    requires
        pre.edge_set().contains((u, v)),
        removed_edge(pre, post, u, v),
    ensures
        !post.edge_set().contains((u, v)),
{
}

/// Removing a vertex makes it absent, and leaves no edge that points at it.
pub proof fn lemma_remove_vertex_absent<T>(pre: Graph<T>, post: Graph<T>, v: T)
    requires
        removed_vertex(pre, post, v),
    ensures
        !post.vertex_set().contains(v),
        forall|x: T| !post.edge_set().contains((x, v)),
{
}

/// A vertex of the graph reaches itself; a value that is not a vertex
/// reaches nothing, itself included.
pub proof fn lemma_reaches_itself<T>(g: Graph<T>, v: T)
    ensures
        g.reaches(v, v) == g.vertex_set().contains(v),
{
    if g.vertex_set().contains(v) {
        let p = seq![v];
        assert(is_walk(g.edge_set(), p));
    }
}

/// Every stored edge joins two stored vertices, and every listed position
/// gives a stored edge.
proof fn lemma_edges<T>(g: Graph<T>)
    requires
        g.wf(),
    ensures
        forall|a: int, j: usize|
            0 <= a < g.succ@.len() && #[trigger] g.succ@[a]@.contains(j) ==> j < g.verts@.len()
                && g.edge_set().contains((g.vert(a), g.vert(j as int))),
        forall|e: (T, T)|
            #[trigger] g.edge_set().contains(e) ==> exists|a: int, j: usize|
                0 <= a < g.succ@.len() && #[trigger] g.succ@[a]@.contains(j) && j < g.verts@.len() && g.vert(a) == e.0
                    && g.vert(j as int) == e.1,
{
    assert forall|a: int, j: usize|
        0 <= a < g.succ@.len() && #[trigger] g.succ@[a]@.contains(j) implies j < g.verts@.len()
            && g.edge_set().contains((g.vert(a), g.vert(j as int))) by {
        let k = choose|k: int| 0 <= k < g.succ@[a]@.len() && g.succ@[a]@[k] == j;
    }
    assert forall|e: (T, T)| #[trigger] g.edge_set().contains(e) implies exists|a: int, j: usize|
        0 <= a < g.succ@.len() && #[trigger] g.succ@[a]@.contains(j) && j < g.verts@.len() && g.vert(a) == e.0
            && g.vert(j as int) == e.1 by {
        let (a, k) = choose|a: int, k: int|
            0 <= a < g.succ@.len() && 0 <= k < g.succ@[a]@.len() && g.vert(a) == e.0
                && g.vert(g.succ@[a]@[k] as int) == e.1;
        assert(g.succ@[a]@.contains(g.succ@[a]@[k]));
    }
}

/// `post` is `pre` with the edge `(u, v)` added, and its two ends added as
/// vertices where they were missing.
pub open spec fn inserted_edge<T>(pre: Graph<T>, post: Graph<T>, u: T, v: T) -> bool {
    &&& post.vertex_set() == pre.vertex_set().insert(u).insert(v)
    &&& post.edge_set() == pre.edge_set().insert((u, v))
}

/// `post` is `pre` without the edge `(u, v)`; the vertices are unchanged.
pub open spec fn removed_edge<T>(pre: Graph<T>, post: Graph<T>, u: T, v: T) -> bool {
    &&& post.vertex_set() == pre.vertex_set()
    &&& post.edge_set() == pre.edge_set().remove((u, v))
}

/// `post` is `pre` without the vertex `v` and without every edge that
/// leaves or enters `v`.
pub open spec fn removed_vertex<T>(pre: Graph<T>, post: Graph<T>, v: T) -> bool {
    &&& post.vertex_set() == pre.vertex_set().remove(v)
    &&& post.edge_set() == pre.edge_set().filter(|e: (T, T)| e.0 != v && e.1 != v)
}

/// `post` is `pre` with the vertex `v` added and no edge changed.
pub open spec fn inserted_vertex<T>(pre: Graph<T>, post: Graph<T>, v: T) -> bool {
    &&& post.vertex_set() == pre.vertex_set().insert(v)
    &&& post.edge_set() == pre.edge_set()
}

} // verus!
