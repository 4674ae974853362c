//! A proxy that shows a directed graph with every edge reversed.
use vstd::prelude::*;
use crate::graph::{between, connects, has_vertex, without_vertex, Graph, GraphError};
use crate::property::{accepts, AddEdge, NewVertex, RemoveEdge, RemoveVertex};

verus! {

/// The edges of `es` with source and sink swapped.
pub open spec fn reversed<W>(es: Seq<(u64, u64, W)>) -> Seq<(u64, u64, W)> {
    es.map_values(|e: (u64, u64, W)| (e.1, e.0, e.2))
}

/// The edges from `a` to `b` in the reversed graph are those from `b` to `a`.
pub proof fn lemma_between_reversed<W>(es: Seq<(u64, u64, W)>, a: u64, b: u64)
    ensures
        between(reversed(es), a, b, true) == between(es, b, a, true),
    decreases es.len(),
{
    if es.len() > 0 {
        lemma_between_reversed(es.drop_last(), a, b);
        assert(reversed(es).drop_last() =~= reversed(es.drop_last()));
    } else {
        assert(reversed(es) =~= Seq::<(u64, u64, W)>::empty());
    }
}

/// Reversing commutes with dropping the edges that touch `v`.
pub proof fn lemma_without_reversed<W>(es: Seq<(u64, u64, W)>, v: u64)
    ensures
        without_vertex(reversed(es), v) == reversed(without_vertex(es, v)),
    decreases es.len(),
{
    if es.len() > 0 {
        let p = es.drop_last();
        lemma_without_reversed(p, v);
        assert(reversed(es).drop_last() =~= reversed(p));
        let e = es.last();
        if e.0 != v && e.1 != v {
            assert(reversed(without_vertex(p, v).push(e)) =~= reversed(without_vertex(p, v)).push(
                (e.1, e.0, e.2),
            ));
        }
    } else {
        assert(reversed(es) =~= Seq::<(u64, u64, W)>::empty());
        assert(reversed(without_vertex(es, v)) =~= Seq::<(u64, u64, W)>::empty());
    }
}

/// A directed graph seen with every edge reversed. Vertex operations pass
/// through; edge operations are reversed before they reach the inner graph.
pub struct ReverseGraph<G> {
    graph: G,
}

impl<G: Graph> ReverseGraph<G> {
    /// The inner graph.
    pub closed spec fn inner(&self) -> G {
        self.graph
    }

    /// The reversed view of the directed graph `g`.
    pub fn new(g: G) -> (r: Self)
        requires
            g.directed(),
        ensures
            r.inner() == g,
    {
        ReverseGraph { graph: g }
    }

    /// Releases the inner graph.
    pub fn into_inner(self) -> (r: G)
        ensures
            r == self.inner(),
    {
        self.graph
    }
}

impl<G: Graph> Graph for ReverseGraph<G> {
    type VertexWeight = G::VertexWeight;

    type EdgeWeight = G::EdgeWeight;

    open spec fn directed(&self) -> bool {
        self.inner().directed()
    }

    open spec fn well_formed(&self) -> bool {
        self.inner().well_formed() && self.inner().directed()
    }

    open spec fn vertices(&self) -> Seq<(u64, G::VertexWeight)> {
        self.inner().vertices()
    }

    open spec fn edges(&self) -> Seq<(u64, u64, G::EdgeWeight)> {
        reversed(self.inner().edges())
    }

    proof fn lemma_wf(&self) {
        self.inner().lemma_wf();
        let es = self.inner().edges();
        assert forall|k: int| 0 <= k < reversed(es).len() implies has_vertex(
            self.vertices(),
            (#[trigger] reversed(es)[k]).0,
        ) && has_vertex(self.vertices(), reversed(es)[k].1) by {
            assert(reversed(es)[k] == (es[k].1, es[k].0, es[k].2));
        }
    }

    fn is_directed(&self) -> (r: bool) {
        self.graph.is_directed()
    }

    fn all_vertices_weighted(&self) -> (r: Vec<(u64, G::VertexWeight)>) {
        self.graph.all_vertices_weighted()
    }

    fn all_edges(&self) -> (r: Vec<(u64, u64, G::EdgeWeight)>) {
        let es = self.graph.all_edges();
        let mut r: Vec<(u64, u64, G::EdgeWeight)> = Vec::new();
        let mut i: usize = 0;
        while i < es.len()
            invariant
                i <= es@.len(),
                es@ == self.inner().edges(),
                r@ == reversed(es@.take(i as int)),
            decreases es@.len() - i,
        {
            r.push((es[i].1, es[i].0, es[i].2));
            i = i + 1;
            assert(reversed(es@.take(i as int)) =~= reversed(es@.take(i - 1)).push(
                (es@[i - 1].1, es@[i - 1].0, es@[i - 1].2),
            ));
        }
        assert(es@.take(es@.len() as int) == es@);
        r
    }

    /// Asks the inner graph for the edges the other way round.
    fn edges_between(&self, a: u64, b: u64) -> (r: Vec<G::EdgeWeight>) {
        proof {
            lemma_between_reversed(self.inner().edges(), a, b);
        }
        if self.graph.is_directed() {
            self.graph.edges_between(b, a)
        } else {
            let es = self.all_edges();
            let mut r: Vec<G::EdgeWeight> = Vec::new();
            let mut i: usize = 0;
            while i < es.len()
                invariant
                    i <= es@.len(),
                    es@ == self.edges(),
                    !self.directed(),
                    r@ == between(es@.take(i as int), a, b, false),
                decreases es@.len() - i,
            {
                let e = es[i];
                assert(es@.take(i + 1).drop_last() == es@.take(i as int));
                if (e.0 == a && e.1 == b) || (e.0 == b && e.1 == a) {
                    r.push(e.2);
                }
                i = i + 1;
            }
            assert(es@.take(es@.len() as int) == es@);
            r
        }
    }
}

impl<G: Graph + AddEdge> AddEdge for ReverseGraph<G> {
    open spec fn edge_addable(&self, source: u64, sink: u64) -> bool {
        self.inner().edge_addable(sink, source)
    }

    fn add_edge_weighted(&mut self, source: u64, sink: u64, w: G::EdgeWeight) -> (r: Result<
        (),
        GraphError,
    >) {
        assert(old(self).edge_addable(source, sink) == (old(self).inner().edge_addable(sink, source)));
        let ghost e0 = self.inner().edges();
        let r = self.graph.add_edge_weighted(sink, source, w);
        assert(reversed(e0.push((sink, source, w))) =~= reversed(e0).push((source, sink, w)));
        r
    }
}

impl<G: Graph + RemoveEdge> RemoveEdge for ReverseGraph<G> {
    open spec fn edge_removable(&self, source: u64, sink: u64) -> bool {
        self.inner().edge_removable(sink, source)
    }

    /// Asks the inner graph to remove an edge that `f` accepts once reversed,
    /// and returns it reversed.
    fn remove_edge_where<F: Fn((u64, u64, &G::EdgeWeight)) -> bool>(&mut self, f: F) -> (r: Result<
        (u64, u64, G::EdgeWeight),
        GraphError,
    >) {
        let ghost e0 = self.inner().edges();
        let ghost r0 = reversed(e0);
        let fr = &f;
        let g = |e: (u64, u64, &G::EdgeWeight)| -> (b: bool)
            requires
                fr.requires(((e.1, e.0, e.2),)),
            ensures
                fr.ensures(((e.1, e.0, e.2),), b),
            { fr((e.1, e.0, e.2)) };
        proof {
            assert forall|e: (u64, u64, G::EdgeWeight)| #[trigger] g.requires(((e.0, e.1, &e.2),)) by {
                assert(f.requires((((e.1, e.0, e.2).0, (e.1, e.0, e.2).1, &(e.1, e.0, e.2).2),)));
            }
        }
        let r = self.graph.remove_edge_where(g);
        proof {
            assert(old(self).edges() == r0);
            assert forall|i: int| 0 <= i < e0.len() implies #[trigger] r0[i] == (e0[i].1, e0[i].0, e0[i].2) by {
            }
        }
        match r {
            Ok(e) => {
                proof {
                    let i = choose|i: int|
                        0 <= i < e0.len() && connects(
                            (#[trigger] e0[i]).0,
                            e0[i].1,
                            e.0,
                            e.1,
                            true,
                        ) && e0[i].2 == e.2 && self.inner().edges() == e0.remove(i);
                    assert(r0[i] == (e0[i].1, e0[i].0, e0[i].2));
                    assert(reversed(e0.remove(i)) =~= r0.remove(i));
                    assert(connects(old(self).edges()[i].0, old(self).edges()[i].1, e.1, e.0, true));
                    let j = choose|j: int| 0 <= j < e0.len() && e0[j] == e;
                    assert(r0[j] == (e.1, e.0, e.2));
                    assert(old(self).edges().contains((e.1, e.0, e.2)));
                }
                Ok((e.1, e.0, e.2))
            },
            Err(x) => Err(x),
        }
    }

    fn remove_edge(&mut self, source: u64, sink: u64) -> (r: Result<G::EdgeWeight, GraphError>) {
        assert(old(self).edge_removable(source, sink) == (old(self).inner().edge_removable(sink, source)));
        let ghost e0 = self.inner().edges();
        let ghost r0 = reversed(e0);
        let r = self.graph.remove_edge(sink, source);
        proof {
            assert(old(self).edges() == r0);
            assert forall|i: int|
                0 <= i < e0.len() && connects(
                    (#[trigger] e0[i]).0,
                    e0[i].1,
                    sink,
                    source,
                    true,
                ) implies connects(
                old(self).edges()[i].0,
                old(self).edges()[i].1,
                source,
                sink,
                old(self).directed(),
            ) by {
                assert(r0[i] == (e0[i].1, e0[i].0, e0[i].2));
            }
            if r is Ok {
                let w = r->Ok_0;
                let i = choose|i: int|
                    0 <= i < e0.len() && connects(
                        (#[trigger] e0[i]).0,
                        e0[i].1,
                        sink,
                        source,
                        true,
                    ) && e0[i].2 == w && self.inner().edges() == e0.remove(i);
                assert(r0[i] == (e0[i].1, e0[i].0, e0[i].2));
                assert(reversed(e0.remove(i)) =~= r0.remove(i));
                assert(connects(old(self).edges()[i].0, old(self).edges()[i].1, source, sink, true));
            } else {
                assert forall|i: int| 0 <= i < r0.len() && connects(
                    (#[trigger] r0[i]).0,
                    r0[i].1,
                    source,
                    sink,
                    true,
                ) implies connects(e0[i].0, e0[i].1, sink, source, true) by {
                }
            }
        }
        r
    }
}

impl<G: Graph + NewVertex> NewVertex for ReverseGraph<G> {
    open spec fn exhausted(&self) -> bool {
        self.inner().exhausted()
    }

    fn new_vertex_weighted(&mut self, w: G::VertexWeight) -> (r: Result<u64, GraphError>) {
        assert(old(self).exhausted() == (old(self).inner().exhausted()));
        self.graph.new_vertex_weighted(w)
    }
}

impl<G: Graph + RemoveVertex> RemoveVertex for ReverseGraph<G> {
    open spec fn vertex_removable(&self, v: u64) -> bool {
        self.inner().vertex_removable(v)
    }

    fn remove_vertex(&mut self, v: u64) -> (r: Result<G::VertexWeight, GraphError>) {
        assert(old(self).vertex_removable(v) == (old(self).inner().vertex_removable(v)));
        let ghost e0 = self.inner().edges();
        let ghost vs0 = self.inner().vertices();
        let r = self.graph.remove_vertex(v);
        proof {
            lemma_without_reversed(e0, v);
            if r is Ok {
                let w = r->Ok_0;
                let i = choose|i: int|
                    0 <= i < vs0.len() && #[trigger] vs0[i] == (v, w) && self.inner().vertices()
                        == vs0.remove(i) && self.inner().edges() == without_vertex(e0, v);
                assert(old(self).vertices()[i] == (v, w));
            }
        }
        r
    }
}

} // verus!
