//! The contract shared by constraint layers, and the facts they rest on.
use vstd::prelude::*;
use crate::adj_list::{lemma_without_vertex_kept, AdjListGraph, GraphState};
use crate::constraint::{apply_all, holds, no_loops, unique, Constraint, Unconstrainer};
use crate::graph::{between, connects, without_vertex, Graph, GraphError};

verus! {

/// A graph wrapped so that a named invariant holds outside of any batch.
pub trait ConstrainedGraph: Graph + Sized {
    /// The invariant this layer guarantees.
    spec fn constraint(&self) -> Constraint;

    /// The full state of the wrapped store.
    spec fn store(&self) -> GraphState<Self::VertexWeight, Self::EdgeWeight>;

    /// Evaluates the invariant on the wrapped store.
    fn invariant_holds(&self) -> (r: bool)
        ensures
            r == holds(self.constraint(), self.store()),
    ;

    /// Commits `batch` on the wrapped store as one step: it takes effect
    /// exactly when every edit succeeds and the invariant holds afterwards,
    /// and otherwise leaves the store as it was.
    fn unconstrained(&mut self, batch: Unconstrainer<Self::VertexWeight, Self::EdgeWeight>) -> (r:
        Result<(), GraphError>)
        requires
            old(self).well_formed(),
        ensures
            final(self).well_formed(),
            final(self).constraint() == old(self).constraint(),
            r is Ok <==> (apply_all(old(self).store(), batch.operations()) matches Some(s)
                && holds(old(self).constraint(), s)),
            r is Ok ==> apply_all(old(self).store(), batch.operations()) == Some(
                final(self).store(),
            ),
            r is Err ==> final(self).store() == old(self).store(),
    ;
}

/// Dropping the edges that touch a vertex keeps the remaining ones distinct.
pub proof fn lemma_without_vertex_unique<W>(es: Seq<(u64, u64, W)>, v: u64, directed: bool)
    requires
        unique(es, directed),
    ensures
        unique(without_vertex(es, v), directed),
    decreases es.len(),
{
    if es.len() > 0 {
        let p = es.drop_last();
        assert(unique(p, directed)) by {
            assert forall|i: int, j: int| 0 <= i < j < p.len() implies !connects(
                (#[trigger] p[j]).0,
                p[j].1,
                (#[trigger] p[i]).0,
                p[i].1,
                directed,
            ) by {
                assert(p[i] == es[i] && p[j] == es[j]);
            }
        }
        lemma_without_vertex_unique(p, v, directed);
        lemma_without_vertex_kept(p, v);
        let r = without_vertex(p, v);
        let e = es.last();
        if e.0 != v && e.1 != v {
            let q = r.push(e);
            assert forall|i: int, j: int| 0 <= i < j < q.len() implies !connects(
                (#[trigger] q[j]).0,
                q[j].1,
                (#[trigger] q[i]).0,
                q[i].1,
                directed,
            ) by {
                if j == q.len() - 1 {
                    assert(p.contains(r[i]));
                    let k = choose|k: int| 0 <= k < p.len() && p[k] == r[i];
                    assert(es[k] == r[i]);
                    assert(es[es.len() - 1] == e);
                    assert(q[i] == r[i]);
                } else {
                    assert(q[i] == r[i] && q[j] == r[j]);
                }
            }
        }
    }
}

/// Removing one edge keeps the remaining ones distinct.
pub proof fn lemma_remove_unique<W>(es: Seq<(u64, u64, W)>, p: int, directed: bool)
    requires
        unique(es, directed),
        0 <= p < es.len(),
    ensures
        unique(es.remove(p), directed),
{
    let q = es.remove(p);
    assert forall|i: int, j: int| 0 <= i < j < q.len() implies !connects(
        (#[trigger] q[j]).0,
        q[j].1,
        (#[trigger] q[i]).0,
        q[i].1,
        directed,
    ) by {
        let a = if i < p { i } else { i + 1 };
        let b = if j < p { j } else { j + 1 };
        assert(q[i] == es[a] && q[j] == es[b]);
    }
}

/// Dropping the edges that touch a vertex adds no loop.
pub proof fn lemma_without_vertex_no_loops<W>(es: Seq<(u64, u64, W)>, v: u64)
    requires
        no_loops(es),
    ensures
        no_loops(without_vertex(es, v)),
{
    lemma_without_vertex_kept(es, v);
    let r = without_vertex(es, v);
    assert forall|k: int| 0 <= k < r.len() implies (#[trigger] r[k]).0 != r[k].1 by {
        assert(es.contains(r[k]));
        let j = choose|j: int| 0 <= j < es.len() && es[j] == r[k];
        assert(es[j] == r[k]);
    }
}

/// Removing one edge adds no loop.
pub proof fn lemma_remove_no_loops<W>(es: Seq<(u64, u64, W)>, p: int)
    requires
        no_loops(es),
        0 <= p < es.len(),
    ensures
        no_loops(es.remove(p)),
{
    let q = es.remove(p);
    assert forall|k: int| 0 <= k < q.len() implies (#[trigger] q[k]).0 != q[k].1 by {
        let a = if k < p { k } else { k + 1 };
        assert(q[k] == es[a]);
    }
}

/// Removing an edge that is not a loop at `u` keeps the loops at `u`.
pub proof fn lemma_between_remove<W>(es: Seq<(u64, u64, W)>, p: int, u: u64, directed: bool)
    requires
        0 <= p < es.len(),
        !connects(es[p].0, es[p].1, u, u, directed),
    ensures
        between(es.remove(p), u, u, directed) == between(es, u, u, directed),
    decreases es.len(),
{
    if p == es.len() - 1 {
        assert(es.remove(p) =~= es.drop_last());
    } else {
        assert(es.remove(p).drop_last() =~= es.drop_last().remove(p));
        assert(es.remove(p).last() == es.last());
        lemma_between_remove(es.drop_last(), p, u, directed);
    }
}

/// Dropping the edges that touch `v` keeps the loops at any other vertex.
pub proof fn lemma_between_without<W>(es: Seq<(u64, u64, W)>, v: u64, u: u64, directed: bool)
    requires
        u != v,
    ensures
        between(without_vertex(es, v), u, u, directed) == between(es, u, u, directed),
    decreases es.len(),
{
    if es.len() > 0 {
        lemma_between_without(es.drop_last(), v, u, directed);
        let w = without_vertex(es.drop_last(), v);
        let e = es.last();
        if e.0 != v && e.1 != v {
            assert(w.push(e).drop_last() =~= w);
        }
    }
}

/// Edges that avoid `u` contribute nothing between `u` and `u`.
pub proof fn lemma_between_absent<W>(es: Seq<(u64, u64, W)>, u: u64, directed: bool)
    requires
        forall|k: int| 0 <= k < es.len() ==> (#[trigger] es[k]).0 != u && es[k].1 != u,
    ensures
        between(es, u, u, directed).len() == 0,
    decreases es.len(),
{
    if es.len() > 0 {
        assert(es[es.len() - 1] == es.last());
        lemma_between_absent(es.drop_last(), u, directed);
    }
}

/// Something between `a` and `b` means some edge connects them.
pub proof fn lemma_between_witness<W>(es: Seq<(u64, u64, W)>, a: u64, b: u64, directed: bool)
    requires
        between(es, a, b, directed).len() > 0,
    ensures
        exists|i: int|
            0 <= i < es.len() && connects((#[trigger] es[i]).0, es[i].1, a, b, directed),
    decreases es.len(),
{
    let e = es.last();
    if connects(e.0, e.1, a, b, directed) {
        assert(es[es.len() - 1] == e);
    } else {
        lemma_between_witness(es.drop_last(), a, b, directed);
        let i = choose|i: int|
            0 <= i < es.drop_last().len() && connects(
                (#[trigger] es.drop_last()[i]).0,
                es.drop_last()[i].1,
                a,
                b,
                directed,
            );
        assert(es[i] == es.drop_last()[i]);
    }
}

/// Some edge connects `a` to `b` exactly when a first such edge exists.
pub proof fn lemma_first_exists<W>(es: Seq<(u64, u64, W)>, a: u64, b: u64, directed: bool, q: int)
    requires
        0 <= q < es.len(),
        connects(es[q].0, es[q].1, a, b, directed),
    ensures
        exists|i: int|
            0 <= i < es.len() && connects(es[i].0, es[i].1, a, b, directed) && forall|j: int|
                0 <= j < i ==> !connects((#[trigger] es[j]).0, es[j].1, a, b, directed),
    decreases q,
{
    if exists|j: int| 0 <= j < q && connects((#[trigger] es[j]).0, es[j].1, a, b, directed) {
        let j = choose|j: int| 0 <= j < q && connects((#[trigger] es[j]).0, es[j].1, a, b, directed);
        lemma_first_exists(es, a, b, directed, j);
    }
}

/// Wraps `g` after checking `c`; on failure hands `g` back untouched.
pub fn ensure_store<VW: Copy, EW: Copy>(g: AdjListGraph<VW, EW>, c: Constraint) -> (r: Result<
    AdjListGraph<VW, EW>,
    (AdjListGraph<VW, EW>, GraphError),
>)
    ensures
        match r {
            Ok(h) => h == g && holds(c, g.state()),
            Err((h, e)) => h == g && !holds(c, g.state()) && e == GraphError::InvariantViolated,
        },
{
    if crate::constraint::check(c, &g) {
        Ok(g)
    } else {
        Err((g, GraphError::InvariantViolated))
    }
}

} // verus!
