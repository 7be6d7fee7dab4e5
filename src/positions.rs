use vstd::prelude::*;

verus! {

/// Whether the position list `l` holds `j`.
pub fn list_contains(l: &Vec<usize>, j: usize) -> (r: bool)
    ensures
        r == l@.contains(j),
{
    let mut k: usize = 0;
    while k < l.len()
        invariant
            k <= l@.len(),
            forall|m: int| 0 <= m < k ==> l@[m] != j,
        decreases l@.len() - k,
    {
        if l[k] == j {
            return true;
        }
        k = k + 1;
    }
    false
}

/// The list `l` without the position `j`.
pub fn without(l: &Vec<usize>, j: usize) -> (r: Vec<usize>)
    ensures
        forall|x: usize| #[trigger] r@.contains(x) <==> (l@.contains(x) && x != j),
{
    let mut r: Vec<usize> = Vec::new();
    let mut k: usize = 0;
    while k < l.len()
        invariant
            k <= l@.len(),
            forall|x: usize| #[trigger] r@.contains(x) <==> (l@.subrange(0, k as int).contains(x) && x != j),
        decreases l@.len() - k,
    {
        let ghost before = r@;
        let e = l[k];
        if e != j {
            r.push(e);
        }
        proof {
            let done = l@.subrange(0, k + 1);
            assert forall|x: usize| #[trigger] r@.contains(x) <==> (done.contains(x) && x != j) by {
                if done.contains(x) {
                    let m = choose|m: int| 0 <= m < done.len() && done[m] == x;
                    if m < k {
                        assert(l@.subrange(0, k as int)[m] == x);
                    }
                }
                if l@.subrange(0, k as int).contains(x) {
                    let m = choose|m: int| 0 <= m < k && l@.subrange(0, k as int)[m] == x;
                    assert(done[m] == x);
                }
                if r@.contains(x) && x != e {
                    let m = choose|m: int| 0 <= m < r@.len() && r@[m] == x;
                    assert(before[m] == x);
                }
                if e != j && x == e {
                    assert(r@[r@.len() - 1] == e);
                    assert(done[k as int] == e);
                }
                if before.contains(x) {
                    let m = choose|m: int| 0 <= m < before.len() && before[m] == x;
                    assert(r@[m] == x);
                }
            }
        }
        k = k + 1;
    }
    assert(l@.subrange(0, l@.len() as int) =~= l@);
    r
}

/// Where the position `e` lands once the position `j` is taken out.
pub open spec fn shift_down(e: usize, j: usize) -> usize {
    if e < j {
        e
    } else {
        (e - 1) as usize
    }
}

/// The list `l` without the position `j`, each position above `j` lowered
/// by one.
pub fn shifted(l: &Vec<usize>, j: usize) -> (r: Vec<usize>)
    ensures
        forall|e: usize| #[trigger] l@.contains(e) && e != j ==> r@.contains(shift_down(e, j)),
        forall|x: usize|
            #[trigger] r@.contains(x) ==> exists|e: usize| #[trigger] l@.contains(e) && e != j && x == shift_down(e, j),
{
    let mut r: Vec<usize> = Vec::new();
    let mut k: usize = 0;
    while k < l.len()
        invariant
            k <= l@.len(),
            forall|m: int| 0 <= m < k && l@[m] != j ==> r@.contains(shift_down(#[trigger] l@[m], j)),
            forall|x: usize|
                #[trigger] r@.contains(x) ==> exists|m: int| 0 <= m < k && l@[m] != j && x == shift_down(#[trigger] l@[m], j),
        decreases l@.len() - k,
    {
        let ghost before = r@;
        let e = l[k];
        if e != j {
            if e < j {
                r.push(e);
            } else {
                r.push(e - 1);
            }
            proof {
                assert(r@[r@.len() - 1] == shift_down(e, j));
                assert forall|m: int| 0 <= m < k + 1 && l@[m] != j implies r@.contains(shift_down(#[trigger] l@[m], j)) by {
                    if m < k {
                        let q = choose|q: int| 0 <= q < before.len() && before[q] == shift_down(l@[m], j);
                        assert(r@[q] == before[q]);
                    }
                }
                assert forall|x: usize| #[trigger] r@.contains(x) implies exists|m: int|
                    0 <= m < k + 1 && l@[m] != j && x == shift_down(#[trigger] l@[m], j) by {
                    let q = choose|q: int| 0 <= q < r@.len() && r@[q] == x;
                    if q < before.len() {
                        assert(before[q] == x);
                        assert(before.contains(x));
                    } else {
                        assert(l@[k as int] == e);
                    }
                }
            }
        }
        k = k + 1;
    }
    proof {
        assert forall|e: usize| #[trigger] l@.contains(e) && e != j implies r@.contains(shift_down(e, j)) by {
            let m = choose|m: int| 0 <= m < l@.len() && l@[m] == e;
        }
        assert forall|x: usize| #[trigger] r@.contains(x) implies exists|e: usize| #[trigger] l@.contains(e) && e != j && x
            == shift_down(e, j) by {
            let m = choose|m: int| 0 <= m < l@.len() && l@[m] != j && x == shift_down(#[trigger] l@[m], j);
            assert(l@.contains(l@[m]));
        }
    }
    r
}

/// A sequence of distinct positions below `n` has at most `n` entries.
pub proof fn lemma_distinct_below(s: Seq<usize>, n: nat)
    requires
        s.no_duplicates(),
        forall|i: int| 0 <= i < s.len() ==> (#[trigger] s[i]) < n,
    ensures
        s.len() <= n,
    decreases n,
{
    if n == 0 {
        if s.len() > 0 {
            assert(s[0] < n);
        }
    } else {
        let top = (n - 1) as usize;
        if s.contains(top) {
            let k = choose|k: int| 0 <= k < s.len() && s[k] == top;
            let t = s.remove(k);
            assert forall|i: int| 0 <= i < t.len() implies (#[trigger] t[i]) < n - 1 by {
                if i < k {
                    assert(t[i] == s[i]);
                } else {
                    assert(t[i] == s[i + 1]);
                }
            }
            assert(t.no_duplicates()) by {
                assert forall|i: int, j: int| 0 <= i < t.len() && 0 <= j < t.len() && i != j implies t[i] != t[j] by {
                    let si = if i < k { i } else { i + 1 };
                    let sj = if j < k { j } else { j + 1 };
                    assert(t[i] == s[si]);
                    assert(t[j] == s[sj]);
                }
            }
            lemma_distinct_below(t, (n - 1) as nat);
        } else {
            assert forall|i: int| 0 <= i < s.len() implies (#[trigger] s[i]) < n - 1 by {
                assert(s[i] != top);
            }
            lemma_distinct_below(s, (n - 1) as nat);
        }
    }
}

} // verus!
