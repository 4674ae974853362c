//! Decomposition of the part of a graph reachable from a root into strongly
//! connected components.
use vstd::prelude::*;
use vstd::set_lib::lemma_len_subset;
use crate::graph::Graph;
use crate::reach::{lemma_distinct_within, lemma_reaches_self, lemma_reaches_trans, list_has, reachable_from, reaches};

verus! {

/// `a` and `b` reach each other along directed edges.
pub open spec fn mutual<W>(es: Seq<(u64, u64, W)>, a: u64, b: u64) -> bool {
    reaches(es, a, b, true) && reaches(es, b, a, true)
}

/// A list without repetitions strictly inside another is shorter.
proof fn lemma_strictly_within(s: Seq<u64>, t: Seq<u64>, z: u64)
    requires
        s.no_duplicates(),
        t.no_duplicates(),
        forall|x: u64| s.contains(x) ==> t.contains(x),
        t.contains(z),
        !s.contains(z),
    ensures
        s.len() < t.len(),
{
    s.unique_seq_to_set();
    t.unique_seq_to_set();
    let ts = t.to_set().remove(z);
    assert(s.to_set().subset_of(ts)) by {
        assert forall|x: u64| s.to_set().contains(x) implies ts.contains(x) by {
            assert(s.contains(x));
        }
    }
    vstd::seq_lib::seq_to_set_is_finite(t);
    assert(t.to_set().contains(z));
    lemma_len_subset(s.to_set(), ts);
}

/// The strongly connected components of the part of `g` reachable from
/// `root`, following edge direction. Every component is non-empty and is
/// exactly the set of reachable vertices that reach its members and are
/// reached by them; the components are disjoint and together hold exactly
/// the vertices reachable from `root`. No component reaches one listed
/// before it.
pub fn strongly_connected_components<G: Graph>(g: &G, root: u64) -> (r: Vec<Vec<u64>>)
    ensures
        forall|i: int| 0 <= i < r@.len() ==> (#[trigger] r@[i])@.len() > 0,
        forall|x: u64|
            (exists|i: int| 0 <= i < r@.len() && #[trigger] r@[i]@.contains(x)) <==> reaches(
                g.edges(),
                root,
                x,
                true,
            ),
        forall|i: int, x: u64, y: u64|
            #![trigger r@[i]@.contains(x), r@[i]@.contains(y)]
            0 <= i < r@.len() && r@[i]@.contains(x) ==> (r@[i]@.contains(y) <==> (
            reaches(g.edges(), root, y, true) && mutual(g.edges(), x, y))),
        forall|i: int, j: int, x: u64|
            #![trigger r@[i]@.contains(x), r@[j]@.contains(x)]
            0 <= i < j < r@.len() && r@[i]@.contains(x) ==> !r@[j]@.contains(x),
        forall|i: int, j: int, x: u64, y: u64|
            #![trigger r@[i]@.contains(x), r@[j]@.contains(y)]
            0 <= i < j < r@.len() && r@[i]@.contains(x) && r@[j]@.contains(y)
                ==> !reaches(g.edges(), y, x, true),
{
    let ghost es = g.edges();
    let all = reachable_from(g, root, true);
    let n = all.len();
    let mut reach_of: Vec<Vec<u64>> = Vec::new();
    let mut k: usize = 0;
    while k < n
        invariant
            es == g.edges(),
            n == all@.len(),
            k <= n,
            reach_of@.len() == k,
            forall|m: int| 0 <= m < k ==> (#[trigger] reach_of@[m])@.no_duplicates(),
            forall|m: int, y: u64|
                0 <= m < k ==> (#[trigger] reach_of@[m]@.contains(y) <==> reaches(es, all@[m], y, true)),
        decreases n - k,
    {
        reach_of.push(reachable_from(g, all[k], true));
        k = k + 1;
    }
    proof {
        assert forall|m: int| 0 <= m < n implies (#[trigger] reach_of@[m])@.len() <= n
            && reach_of@[m]@.len() >= 1 by {
            assert forall|i: int| 0 <= i < reach_of@[m]@.len() implies all@.contains(
                #[trigger] reach_of@[m]@[i],
            ) by {
                let y = reach_of@[m]@[i];
                assert(reach_of@[m]@.contains(y));
                assert(all@.contains(all@[m]));
                lemma_reaches_trans(es, root, all@[m], y, true);
            }
            lemma_distinct_within(reach_of@[m]@, all@);
            lemma_reaches_self(es, all@[m], true);
            assert(reach_of@[m]@.contains(all@[m]));
        }
    }
    let mut comps: Vec<Vec<u64>> = Vec::new();
    let mut leaders: Vec<usize> = Vec::new();
    let mut w: usize = n;
    while w > 0
        invariant
            es == g.edges(),
            n == all@.len(),
            reach_of@.len() == n,
            w <= n,
            forall|m: int| 0 <= m < n ==> (#[trigger] reach_of@[m])@.no_duplicates(),
            forall|m: int, y: u64|
                0 <= m < n ==> (#[trigger] reach_of@[m]@.contains(y) <==> reaches(es, all@[m], y, true)),
            forall|m: int| 0 <= m < n ==> (#[trigger] reach_of@[m])@.len() <= n && reach_of@[m]@.len() >= 1,
            forall|x: u64| all@.contains(x) <==> reaches(es, root, x, true),
            comps@.len() == leaders@.len(),
            forall|c: int| 0 <= c < leaders@.len() ==> (#[trigger] leaders@[c]) < n,
            forall|c: int, y: u64|
                0 <= c < comps@.len() ==> (#[trigger] comps@[c]@.contains(y) <==> (all@.contains(y)
                    && mutual(es, all@[leaders@[c] as int], y))),
            forall|c: int, d: int|
                0 <= c < d < leaders@.len() ==> !mutual(es, all@[#[trigger] leaders@[c] as int], all@[#[trigger] leaders@[d] as int]),
            forall|c: int, d: int|
                0 <= c < d < leaders@.len() ==> reach_of@[#[trigger] leaders@[c] as int]@.len() >= reach_of@[#[trigger] leaders@[d] as int]@.len(),
            forall|c: int| 0 <= c < leaders@.len() ==> reach_of@[#[trigger] leaders@[c] as int]@.len() > w,
            forall|m: int|
                0 <= m < n && (#[trigger] reach_of@[m])@.len() > w ==> exists|c: int|
                    0 <= c < leaders@.len() && mutual(es, all@[#[trigger] leaders@[c] as int], all@[m]),
        decreases w,
    {
        let mut k: usize = 0;
        while k < n
            invariant
                es == g.edges(),
                n == all@.len(),
                reach_of@.len() == n,
                1 <= w <= n,
                k <= n,
                forall|m: int| 0 <= m < n ==> (#[trigger] reach_of@[m])@.no_duplicates(),
                forall|m: int, y: u64|
                    0 <= m < n ==> (#[trigger] reach_of@[m]@.contains(y) <==> reaches(es, all@[m], y, true)),
                forall|m: int| 0 <= m < n ==> (#[trigger] reach_of@[m])@.len() <= n && reach_of@[m]@.len() >= 1,
                forall|x: u64| all@.contains(x) <==> reaches(es, root, x, true),
                comps@.len() == leaders@.len(),
                forall|c: int| 0 <= c < leaders@.len() ==> (#[trigger] leaders@[c]) < n,
                forall|c: int, y: u64|
                    0 <= c < comps@.len() ==> (#[trigger] comps@[c]@.contains(y) <==> (all@.contains(y)
                        && mutual(es, all@[leaders@[c] as int], y))),
                forall|c: int, d: int|
                    0 <= c < d < leaders@.len() ==> !mutual(es, all@[#[trigger] leaders@[c] as int], all@[#[trigger] leaders@[d] as int]),
                forall|c: int, d: int|
                    0 <= c < d < leaders@.len() ==> reach_of@[#[trigger] leaders@[c] as int]@.len() >= reach_of@[#[trigger] leaders@[d] as int]@.len(),
                forall|c: int| 0 <= c < leaders@.len() ==> reach_of@[#[trigger] leaders@[c] as int]@.len() >= w,
                forall|m: int|
                    0 <= m < n && ((#[trigger] reach_of@[m])@.len() > w || (m < k && reach_of@[m]@.len() == w)) ==> exists|c: int|
                        0 <= c < leaders@.len() && mutual(es, all@[#[trigger] leaders@[c] as int], all@[m]),
            decreases n - k,
        {
            let ghost old_leaders = leaders@;
            if reach_of[k].len() == w {
                let covered = is_covered(g, &all, &reach_of, &leaders, k);
                if !covered {
                    let comp = class_of(g, &all, &reach_of, k);
                    proof {
                        assert forall|c: int| 0 <= c < leaders@.len() implies !mutual(
                            es,
                            all@[#[trigger] leaders@[c] as int],
                            all@[k as int],
                        ) by {
                        }
                    }
                    comps.push(comp);
                    leaders.push(k);
                    proof {
                        let c = leaders@.len() - 1;
                        lemma_reaches_self(es, all@[k as int], true);
                        assert(mutual(es, all@[leaders@[c] as int], all@[k as int]));
                    }
                }
            }
            proof {
                assert forall|m: int|
                    0 <= m < n && ((#[trigger] reach_of@[m])@.len() > w || (m < k + 1 && reach_of@[m]@.len() == w)) implies exists|c: int|
                        0 <= c < leaders@.len() && mutual(es, all@[#[trigger] leaders@[c] as int], all@[m]) by {
                    if m == k && reach_of@[m]@.len() == w {
                        if leaders@.len() > old_leaders.len() {
                            let c = leaders@.len() - 1;
                            assert(leaders@[c] == k);
                            lemma_reaches_self(es, all@[m], true);
                            assert(mutual(es, all@[leaders@[c] as int], all@[m]));
                        } else {
                            let c = choose|c: int|
                                0 <= c < old_leaders.len() && mutual(es, all@[#[trigger] old_leaders[c] as int], all@[k as int]);
                            assert(leaders@[c] == old_leaders[c]);
                        }
                    } else {
                        let c = choose|c: int|
                            0 <= c < old_leaders.len() && mutual(es, all@[#[trigger] old_leaders[c] as int], all@[m]);
                        assert(leaders@[c] == old_leaders[c]);
                    }
                }
            }
            k = k + 1;
        }
        w = w - 1;
    }
    proof {
        assert forall|i: int| 0 <= i < comps@.len() implies (#[trigger] comps@[i])@.len() > 0 by {
            let l = all@[leaders@[i] as int];
            lemma_reaches_self(es, l, true);
            assert(all@.contains(l));
            assert(comps@[i]@.contains(l));
        }
        assert forall|x: u64|
            (exists|i: int| 0 <= i < comps@.len() && #[trigger] comps@[i]@.contains(x)) <==> reaches(
                es,
                root,
                x,
                true,
            ) by {
            if reaches(es, root, x, true) {
                assert(all@.contains(x));
                let m = choose|m: int| 0 <= m < all@.len() && all@[m] == x;
                assert(reach_of@[m]@.len() > 0);
                let c = choose|c: int|
                    0 <= c < leaders@.len() && mutual(es, all@[#[trigger] leaders@[c] as int], all@[m]);
                assert(comps@[c]@.contains(x));
            }
        }
        assert forall|i: int, x: u64, y: u64|
            #![trigger comps@[i]@.contains(x), comps@[i]@.contains(y)]
            0 <= i < comps@.len() && comps@[i]@.contains(x) implies (comps@[i]@.contains(y) <==> (
            reaches(es, root, y, true) && mutual(es, x, y))) by {
            let l = all@[leaders@[i] as int];
            if comps@[i]@.contains(y) {
                lemma_reaches_trans(es, x, l, y, true);
                lemma_reaches_trans(es, y, l, x, true);
            }
            if reaches(es, root, y, true) && mutual(es, x, y) {
                lemma_reaches_trans(es, l, x, y, true);
                lemma_reaches_trans(es, y, x, l, true);
            }
        }
        assert forall|i: int, j: int, x: u64|
            #![trigger comps@[i]@.contains(x), comps@[j]@.contains(x)]
            0 <= i < j < comps@.len() && comps@[i]@.contains(x) implies !comps@[j]@.contains(x) by {
            let li = all@[leaders@[i] as int];
            let lj = all@[leaders@[j] as int];
            if comps@[j]@.contains(x) {
                lemma_reaches_trans(es, li, x, lj, true);
                lemma_reaches_trans(es, lj, x, li, true);
            }
        }
        assert forall|i: int, j: int, x: u64, y: u64|
            #![trigger comps@[i]@.contains(x), comps@[j]@.contains(y)]
            0 <= i < j < comps@.len() && comps@[i]@.contains(x) && comps@[j]@.contains(y)
                implies !reaches(es, y, x, true) by {
            let a = leaders@[i] as int;
            let b = leaders@[j] as int;
            let li = all@[a];
            let lj = all@[b];
            if reaches(es, y, x, true) {
                lemma_reaches_trans(es, lj, y, x, true);
                lemma_reaches_trans(es, lj, x, li, true);
                assert forall|z: u64| reach_of@[a]@.contains(z) implies reach_of@[b]@.contains(z) by {
                    lemma_reaches_trans(es, lj, li, z, true);
                }
                lemma_reaches_self(es, lj, true);
                assert(reach_of@[b]@.contains(lj));
                assert(!reach_of@[a]@.contains(lj));
                lemma_strictly_within(reach_of@[a]@, reach_of@[b]@, lj);
            }
        }
    }
    comps
}

/// Whether vertex `k` of `all` reaches and is reached by one of the leaders.
#[verifier::loop_isolation(false)]
fn is_covered<G: Graph>(
    g: &G,
    all: &Vec<u64>,
    reach_of: &Vec<Vec<u64>>,
    leaders: &Vec<usize>,
    k: usize,
) -> (r: bool)
    requires
        k < all@.len(),
        reach_of@.len() == all@.len(),
        forall|m: int, y: u64|
            0 <= m < all@.len() ==> (#[trigger] reach_of@[m]@.contains(y) <==> reaches(
                g.edges(),
                all@[m],
                y,
                true,
            )),
        forall|c: int| 0 <= c < leaders@.len() ==> (#[trigger] leaders@[c]) < all@.len(),
    ensures
        r <==> exists|c: int|
            0 <= c < leaders@.len() && mutual(g.edges(), all@[#[trigger] leaders@[c] as int], all@[k as int]),
{
    let mut c: usize = 0;
    while c < leaders.len()
        invariant
            c <= leaders@.len(),
            forall|d: int|
                0 <= d < c ==> !mutual(g.edges(), all@[#[trigger] leaders@[d] as int], all@[k as int]),
        decreases leaders@.len() - c,
    {
        let l = leaders[c];
        if list_has(&reach_of[l], all[k]) && list_has(&reach_of[k], all[l]) {
            assert(mutual(g.edges(), all@[leaders@[c as int] as int], all@[k as int]));
            return true;
        }
        c = c + 1;
    }
    false
}

/// The vertices of `all` that reach and are reached by vertex `k` of `all`.
#[verifier::loop_isolation(false)]
fn class_of<G: Graph>(g: &G, all: &Vec<u64>, reach_of: &Vec<Vec<u64>>, k: usize) -> (r: Vec<u64>)
    requires
        k < all@.len(),
        reach_of@.len() == all@.len(),
        forall|m: int, y: u64|
            0 <= m < all@.len() ==> (#[trigger] reach_of@[m]@.contains(y) <==> reaches(
                g.edges(),
                all@[m],
                y,
                true,
            )),
    ensures
        forall|y: u64| r@.contains(y) <==> (all@.contains(y) && mutual(g.edges(), all@[k as int], y)),
{
    let mut r: Vec<u64> = Vec::new();
    let mut m: usize = 0;
    while m < all.len()
        invariant
            m <= all@.len(),
            forall|y: u64|
                r@.contains(y) <==> (exists|j: int| 0 <= j < m && all@[j] == y) && mutual(
                    g.edges(),
                    all@[k as int],
                    y,
                ),
        decreases all@.len() - m,
    {
        let ghost before0 = r@;
        let found = list_has(&reach_of[k], all[m]) && list_has(&reach_of[m], all[k]);
        proof {
            assert(found == mutual(g.edges(), all@[k as int], all@[m as int]));
        }
        if found {
            let ghost before = r@;
            r.push(all[m]);
            proof {
                assert forall|y: u64| r@.contains(y) <==> (before.contains(y) || y == all@[m as int]) by {
                    if before.contains(y) {
                        let i = choose|i: int| 0 <= i < before.len() && before[i] == y;
                        assert(r@[i] == y);
                    }
                    if y == all@[m as int] {
                        assert(r@[before.len() as int] == y);
                    }
                    if r@.contains(y) {
                        let i = choose|i: int| 0 <= i < r@.len() && r@[i] == y;
                        if i < before.len() {
                            assert(before[i] == y);
                        }
                    }
                }
            }
        }
        proof {
            assert forall|y: u64|
                r@.contains(y) <==> (exists|j: int| 0 <= j < m + 1 && all@[j] == y) && mutual(
                    g.edges(),
                    all@[k as int],
                    y,
                ) by {
                if exists|j: int| 0 <= j < m + 1 && all@[j] == y {
                    let j = choose|j: int| 0 <= j < m + 1 && all@[j] == y;
                    if j < m {
                        assert(exists|j: int| 0 <= j < m && all@[j] == y);
                    }
                }
                if exists|j: int| 0 <= j < m && all@[j] == y {
                    let j = choose|j: int| 0 <= j < m && all@[j] == y;
                    assert(0 <= j < m + 1 && all@[j] == y);
                }
                if y == all@[m as int] {
                    assert(0 <= m < m + 1 && all@[m as int] == y);
                }
                if found {
                    assert(r@ == before0.push(all@[m as int]));
                    if before0.contains(y) {
                        let i = choose|i: int| 0 <= i < before0.len() && before0[i] == y;
                        assert(r@[i] == y);
                    }
                    if y == all@[m as int] {
                        assert(r@[before0.len() as int] == y);
                    }
                    if r@.contains(y) {
                        let i = choose|i: int| 0 <= i < r@.len() && r@[i] == y;
                        if i < before0.len() {
                            assert(before0[i] == y);
                        }
                    }
                } else {
                    assert(r@ == before0);
                }
            }
        }
        m = m + 1;
    }
    proof {
        assert forall|y: u64| r@.contains(y) <==> (all@.contains(y) && mutual(g.edges(), all@[k as int], y)) by {
            if all@.contains(y) {
                let j = choose|j: int| 0 <= j < all@.len() && all@[j] == y;
            }
        }
    }
    r
}

} // verus!
