//! Reachability along the edges of a graph.
use vstd::prelude::*;
use vstd::set_lib::lemma_len_subset;
use crate::graph::{connects, Graph};

verus! {

/// One step from `x` to `y` along an edge of `es`; when `directed` is false an
/// edge may be followed either way.
pub open spec fn step<W>(es: Seq<(u64, u64, W)>, x: u64, y: u64, directed: bool) -> bool {
    exists|k: int| 0 <= k < es.len() && connects((#[trigger] es[k]).0, es[k].1, x, y, directed)
}

/// `p` is a non-empty walk taking one step at a time.
pub open spec fn is_path<W>(es: Seq<(u64, u64, W)>, p: Seq<u64>, directed: bool) -> bool {
    p.len() > 0 && forall|i: int| 0 <= i < p.len() - 1 ==> step(es, #[trigger] p[i], p[i + 1], directed)
}

/// Some walk leads from `a` to `b`.
pub open spec fn reaches<W>(es: Seq<(u64, u64, W)>, a: u64, b: u64, directed: bool) -> bool {
    exists|p: Seq<u64>| #[trigger] is_path(es, p, directed) && p[0] == a && p.last() == b
}

/// Every vertex reaches itself.
pub proof fn lemma_reaches_self<W>(es: Seq<(u64, u64, W)>, a: u64, directed: bool)
    ensures
        reaches(es, a, a, directed),
{
    let p = seq![a];
    assert(is_path(es, p, directed));
}

/// A walk extends by one step.
pub proof fn lemma_reaches_step<W>(es: Seq<(u64, u64, W)>, a: u64, x: u64, y: u64, directed: bool)
    requires
        reaches(es, a, x, directed),
        step(es, x, y, directed),
    ensures
        reaches(es, a, y, directed),
{
    let p = choose|p: Seq<u64>| #[trigger] is_path(es, p, directed) && p[0] == a && p.last() == x;
    let q = p.push(y);
    assert forall|i: int| 0 <= i < q.len() - 1 implies step(es, #[trigger] q[i], q[i + 1], directed) by {
        if i < p.len() - 1 {
            assert(q[i] == p[i] && q[i + 1] == p[i + 1]);
        } else {
            assert(q[i] == x);
        }
    }
    assert(is_path(es, q, directed));
}

/// An added edge keeps every walk.
pub proof fn lemma_reaches_more_edges<W>(es: Seq<(u64, u64, W)>, e: (u64, u64, W), a: u64, b: u64, directed: bool)
    requires
        reaches(es, a, b, directed),
    ensures
        reaches(es.push(e), a, b, directed),
{
    let p = choose|p: Seq<u64>| #[trigger] is_path(es, p, directed) && p[0] == a && p.last() == b;
    assert forall|i: int| 0 <= i < p.len() - 1 implies step(es.push(e), #[trigger] p[i], p[i + 1], directed) by {
        assert(step(es, p[i], p[i + 1], directed));
        let k = choose|k: int| 0 <= k < es.len() && connects((#[trigger] es[k]).0, es[k].1, p[i], p[i + 1], directed);
        assert(es.push(e)[k] == es[k]);
    }
    assert(is_path(es.push(e), p, directed));
}

/// Walks compose.
pub proof fn lemma_reaches_trans<W>(es: Seq<(u64, u64, W)>, a: u64, b: u64, c: u64, directed: bool)
    requires
        reaches(es, a, b, directed),
        reaches(es, b, c, directed),
    ensures
        reaches(es, a, c, directed),
{
    let q = choose|q: Seq<u64>| #[trigger] is_path(es, q, directed) && q[0] == b && q.last() == c;
    lemma_reaches_trans_len(es, a, q, directed, 1);
}

proof fn lemma_reaches_trans_len<W>(es: Seq<(u64, u64, W)>, a: u64, q: Seq<u64>, directed: bool, n: int)
    requires
        is_path(es, q, directed),
        1 <= n <= q.len(),
        reaches(es, a, q[n - 1], directed),
    ensures
        reaches(es, a, q.last(), directed),
    decreases q.len() - n,
{
    if n < q.len() {
        assert(step(es, q[n - 1], q[n], directed));
        lemma_reaches_step(es, a, q[n - 1], q[n], directed);
        lemma_reaches_trans_len(es, a, q, directed, n + 1);
    }
}

/// When edges may be followed either way, walks can be reversed.
pub proof fn lemma_reaches_symmetric<W>(es: Seq<(u64, u64, W)>, a: u64, b: u64)
    requires
        reaches(es, a, b, false),
    ensures
        reaches(es, b, a, false),
{
    let p = choose|p: Seq<u64>| #[trigger] is_path(es, p, false) && p[0] == a && p.last() == b;
    lemma_reaches_self(es, b, false);
    lemma_reaches_back(es, p, b, p.len() as int);
}

proof fn lemma_reaches_back<W>(es: Seq<(u64, u64, W)>, p: Seq<u64>, b: u64, n: int)
    requires
        is_path(es, p, false),
        1 <= n <= p.len(),
        reaches(es, b, p[n - 1], false),
    ensures
        reaches(es, b, p[0], false),
    decreases n,
{
    if n > 1 {
        assert(step(es, p[n - 2], p[n - 1], false));
        let k = choose|k: int| 0 <= k < es.len() && connects((#[trigger] es[k]).0, es[k].1, p[n - 2], p[n - 1], false);
        assert(connects(es[k].0, es[k].1, p[n - 1], p[n - 2], false));
        lemma_reaches_step(es, b, p[n - 1], p[n - 2], false);
        lemma_reaches_back(es, p, b, n - 1);
    }
}

/// A list that holds `a` and is closed under steps holds everything `a`
/// reaches.
pub proof fn lemma_closed_complete<W>(es: Seq<(u64, u64, W)>, s: Seq<u64>, a: u64, b: u64, directed: bool)
    requires
        s.contains(a),
        forall|x: u64, y: u64| s.contains(x) && #[trigger] step(es, x, y, directed) ==> s.contains(y),
        reaches(es, a, b, directed),
    ensures
        s.contains(b),
{
    let p = choose|p: Seq<u64>| #[trigger] is_path(es, p, directed) && p[0] == a && p.last() == b;
    lemma_path_inside(es, s, p, directed, p.len() - 1);
}

proof fn lemma_path_inside<W>(es: Seq<(u64, u64, W)>, s: Seq<u64>, p: Seq<u64>, directed: bool, n: int)
    requires
        is_path(es, p, directed),
        s.contains(p[0]),
        0 <= n < p.len(),
        forall|x: u64, y: u64| s.contains(x) && #[trigger] step(es, x, y, directed) ==> s.contains(y),
    ensures
        s.contains(p[n]),
    decreases n,
{
    if n > 0 {
        lemma_path_inside(es, s, p, directed, n - 1);
        assert(step(es, p[n - 1], p[n], directed));
    }
}

/// The identifiers that appear as an endpoint of an edge of `es`.
pub open spec fn endpoints<W>(es: Seq<(u64, u64, W)>) -> Seq<u64>
    decreases es.len(),
{
    if es.len() == 0 {
        Seq::empty()
    } else {
        endpoints(es.drop_last()).push(es.last().0).push(es.last().1)
    }
}

proof fn lemma_endpoints<W>(es: Seq<(u64, u64, W)>, k: int)
    requires
        0 <= k < es.len(),
    ensures
        endpoints(es).contains(es[k].0),
        endpoints(es).contains(es[k].1),
    decreases es.len(),
{
    let p = endpoints(es.drop_last());
    let q = p.push(es.last().0).push(es.last().1);
    if k < es.len() - 1 {
        lemma_endpoints(es.drop_last(), k);
        let i = choose|i: int| 0 <= i < p.len() && p[i] == es[k].0;
        assert(q[i] == es[k].0);
        let j = choose|j: int| 0 <= j < p.len() && p[j] == es[k].1;
        assert(q[j] == es[k].1);
    } else {
        assert(q[p.len() as int] == es[k].0);
        assert(q[p.len() + 1int] == es[k].1);
    }
}

/// A list without repetitions drawn from `t` is no longer than `t`.
pub proof fn lemma_distinct_within<A>(s: Seq<A>, t: Seq<A>)
    requires
        s.no_duplicates(),
        forall|i: int| 0 <= i < s.len() ==> t.contains(#[trigger] s[i]),
    ensures
        s.len() <= t.len(),
{
    s.unique_seq_to_set();
    t.lemma_cardinality_of_set();
    assert(s.to_set().subset_of(t.to_set())) by {
        assert forall|x: A| s.to_set().contains(x) implies t.to_set().contains(x) by {
            let i = choose|i: int| 0 <= i < s.len() && s[i] == x;
        }
    }
    vstd::seq_lib::seq_to_set_is_finite(t);
    lemma_len_subset(s.to_set(), t.to_set());
}

proof fn lemma_push_keeps(s: Seq<u64>, v: u64)
    ensures
        s.push(v).contains(v),
        forall|y: u64| s.contains(y) ==> #[trigger] s.push(v).contains(y),
{
    assert(s.push(v)[s.len() as int] == v);
    assert forall|y: u64| s.contains(y) implies #[trigger] s.push(v).contains(y) by {
        let i = choose|i: int| 0 <= i < s.len() && s[i] == y;
        assert(s.push(v)[i] == y);
    }
}

/// Whether `x` is in `l`.
pub fn list_has(l: &Vec<u64>, x: u64) -> (r: bool)
    ensures
        r == l@.contains(x),
{
    let mut i: usize = 0;
    while i < l.len()
        invariant
            i <= l@.len(),
            forall|j: int| 0 <= j < i ==> l@[j] != x,
        decreases l@.len() - i,
    {
        if l[i] == x {
            assert(l@[i as int] == x);
            return true;
        }
        i = i + 1;
    }
    false
}

/// Every identifier reachable from `a`, each once, `a` first. When
/// `directed` is false edges are followed either way.
pub fn reachable_from<G: Graph>(g: &G, a: u64, directed: bool) -> (r: Vec<u64>)
    ensures
        r@.len() > 0,
        r@[0] == a,
        r@.no_duplicates(),
        forall|x: u64| r@.contains(x) <==> reaches(g.edges(), a, x, directed),
{
    let es = g.all_edges();
    let ghost cands = seq![a] + endpoints(es@);
    let mut visited: Vec<u64> = Vec::new();
    visited.push(a);
    proof {
        lemma_reaches_self(es@, a, directed);
        assert(cands[0] == a);
    }
    let mut i: usize = 0;
    while i < visited.len()
        invariant
            es@ == g.edges(),
            cands == seq![a] + endpoints(es@),
            visited@.len() >= 1,
            visited@[0] == a,
            i <= visited@.len(),
            visited@.no_duplicates(),
            forall|j: int| 0 <= j < visited@.len() ==> reaches(es@, a, #[trigger] visited@[j], directed),
            forall|j: int| 0 <= j < visited@.len() ==> cands.contains(#[trigger] visited@[j]),
            forall|j: int, y: u64|
                0 <= j < i && #[trigger] step(es@, visited@[j], y, directed) ==> visited@.contains(y),
        decreases cands.len() - i,
    {
        proof {
            lemma_distinct_within(visited@, cands);
        }
        let x = visited[i];
        let mut k: usize = 0;
        while k < es.len()
            invariant
                es@ == g.edges(),
                cands == seq![a] + endpoints(es@),
                visited@.len() >= 1,
                visited@[0] == a,
                i < visited@.len(),
                x == visited@[i as int],
                visited@.no_duplicates(),
                forall|j: int| 0 <= j < visited@.len() ==> reaches(es@, a, #[trigger] visited@[j], directed),
                forall|j: int| 0 <= j < visited@.len() ==> cands.contains(#[trigger] visited@[j]),
                forall|j: int, y: u64|
                    0 <= j < i && #[trigger] step(es@, visited@[j], y, directed) ==> visited@.contains(y),
                k <= es@.len(),
                forall|m: int|
                    0 <= m < k ==> ((#[trigger] es@[m]).0 == x ==> visited@.contains(es@[m].1)) && (
                    !directed && es@[m].1 == x ==> visited@.contains(es@[m].0)),
            decreases es@.len() - k,
        {
            let e = es[k];
            proof {
                lemma_endpoints(es@, k as int);
            }
            if e.0 == x && !list_has(&visited, e.1) {
                proof {
                    assert(connects(es@[k as int].0, es@[k as int].1, x, e.1, directed));
                    lemma_reaches_step(es@, a, x, e.1, directed);
                    let c = endpoints(es@);
                    let t = choose|t: int| 0 <= t < c.len() && c[t] == e.1;
                    assert(cands[t + 1] == e.1);
                }
                let ghost before = visited@;
                visited.push(e.1);
                proof {
                    lemma_push_keeps(before, e.1);
                }
            }
            if !directed && e.1 == x && !list_has(&visited, e.0) {
                proof {
                    assert(connects(es@[k as int].0, es@[k as int].1, x, e.0, directed));
                    lemma_reaches_step(es@, a, x, e.0, directed);
                    let c = endpoints(es@);
                    let t = choose|t: int| 0 <= t < c.len() && c[t] == e.0;
                    assert(cands[t + 1] == e.0);
                }
                let ghost before = visited@;
                visited.push(e.0);
                proof {
                    lemma_push_keeps(before, e.0);
                }
            }
            proof {
                if e.0 == x {
                    assert(visited@.contains(e.1));
                }
                if !directed && e.1 == x {
                    assert(visited@.contains(e.0));
                }
                assert forall|m: int| 0 <= m < k + 1 implies ((#[trigger] es@[m]).0 == x ==> visited@.contains(
                    es@[m].1,
                )) && (!directed && es@[m].1 == x ==> visited@.contains(es@[m].0)) by {
                    if m == k {
                        assert(es@[m] == e);
                    }
                }
            }
            k = k + 1;
        }
        proof {
            assert forall|j: int, y: u64|
                0 <= j < i + 1 && #[trigger] step(es@, visited@[j], y, directed) implies visited@.contains(y) by {
                if j == i {
                    let m = choose|m: int| 0 <= m < es@.len() && connects((#[trigger] es@[m]).0, es@[m].1, visited@[j], y, directed);
                    assert(es@[m].0 == x ==> visited@.contains(es@[m].1));
                }
            }
        }
        i = i + 1;
    }
    proof {
        assert forall|x: u64| visited@.contains(x) <==> reaches(g.edges(), a, x, directed) by {
            if visited@.contains(x) {
                let j = choose|j: int| 0 <= j < visited@.len() && visited@[j] == x;
            }
            if reaches(g.edges(), a, x, directed) {
                assert(visited@[0] == a);
                assert forall|u: u64, y: u64| visited@.contains(u) && #[trigger] step(es@, u, y, directed)
                    implies visited@.contains(y) by {
                    let j = choose|j: int| 0 <= j < visited@.len() && visited@[j] == u;
                }
                lemma_closed_complete(es@, visited@, a, x, directed);
            }
        }
    }
    visited
}

} // verus!
