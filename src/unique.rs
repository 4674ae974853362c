//! Graphs whose edges are unique.
use vstd::prelude::*;
use crate::adj_list::{AdjListGraph, GraphState};
use crate::constrained::{lemma_remove_unique, lemma_without_vertex_unique, ConstrainedGraph};
use crate::constraint::{check, holds_on, unique, Constraint, Unconstrainer};
use crate::graph::{between, connects, Graph, GraphError};
use crate::property::{AddEdge, NewVertex, RemoveEdge, RemoveVertex};

verus! {

/// A graph in which no two edges connect the same endpoints: between two
/// vertices there is at most one edge, or one each way when directed.
pub trait Unique: Graph {
    /// A well-formed graph of this kind has unique edges.
    proof fn lemma_unique(&self)
        requires
            self.well_formed(),
        ensures
            unique(self.edges(), self.directed()),
    ;

    /// The weight of the edge connecting `a` to `b`, if there is one.
    fn edge_between(&self, a: u64, b: u64) -> (r: Option<Self::EdgeWeight>)
        ensures
            between(self.edges(), a, b, self.directed()).len() == 0 ==> r is None,
            between(self.edges(), a, b, self.directed()).len() > 0 ==> r == Some(
                between(self.edges(), a, b, self.directed())[0],
            ),
    {
        let ws = self.edges_between(a, b);
        if ws.len() == 0 {
            None
        } else {
            Some(ws[0])
        }
    }
}

/// Whether some edge of `g` connects `source` to `sink`.
fn has_connecting<G: Graph>(g: &G, source: u64, sink: u64) -> (r: bool)
    ensures
        r <==> exists|i: int|
            0 <= i < g.edges().len() && connects(
                (#[trigger] g.edges()[i]).0,
                g.edges()[i].1,
                source,
                sink,
                g.directed(),
            ),
{
    let es = g.all_edges();
    let directed = g.is_directed();
    let mut i: usize = 0;
    while i < es.len()
        invariant
            i <= es@.len(),
            es@ == g.edges(),
            directed == g.directed(),
            forall|j: int|
                0 <= j < i ==> !connects((#[trigger] es@[j]).0, es@[j].1, source, sink, directed),
        decreases es@.len() - i,
    {
        let e = es[i];
        if (e.0 == source && e.1 == sink) || (!directed && e.0 == sink && e.1 == source) {
            assert(connects(g.edges()[i as int].0, g.edges()[i as int].1, source, sink, directed));
            return true;
        }
        i = i + 1;
    }
    false
}

/// A graph kept free of parallel edges: adding an edge that connects the same
/// endpoints as an existing one is refused. It wraps any graph, a store, a
/// proxy or another layer.
pub struct UniqueGraph<G> {
    graph: G,
}

impl<G: Graph> UniqueGraph<G> {
    /// The wrapped graph.
    pub closed spec fn inner(&self) -> G {
        self.graph
    }

    /// Wraps `g` if its edges are unique; otherwise hands it back unchanged.
    pub fn ensure(g: G) -> (r: Result<Self, (G, GraphError)>)
        requires
            g.well_formed(),
        ensures
            r is Ok <==> holds_on(Constraint::Unique, g.directed(), g.vertices(), g.edges()),
            match r {
                Ok(h) => h.inner() == g && h.well_formed(),
                Err((h, e)) => h == g && e == GraphError::InvariantViolated,
            },
    {
        if check(Constraint::Unique, &g) {
            Ok(UniqueGraph { graph: g })
        } else {
            Err((g, GraphError::InvariantViolated))
        }
    }

    /// Wraps `g`, which the caller knows to have unique edges, without
    /// checking.
    pub fn unchecked(g: G) -> (r: Self)
        requires
            g.well_formed(),
            unique(g.edges(), g.directed()),
        ensures
            r.inner() == g,
            r.well_formed(),
    {
        UniqueGraph { graph: g }
    }

    /// Releases the wrapped graph.
    pub fn unconstrain(self) -> (r: G)
        ensures
            r == self.inner(),
    {
        self.graph
    }

    /// Read access to the wrapped graph.
    pub fn graph(&self) -> (r: &G)
        ensures
            *r == self.inner(),
    {
        &self.graph
    }
}

impl<G: Graph> Graph for UniqueGraph<G> {
    type VertexWeight = G::VertexWeight;

    type EdgeWeight = G::EdgeWeight;

    open spec fn directed(&self) -> bool {
        self.inner().directed()
    }

    open spec fn well_formed(&self) -> bool {
        self.inner().well_formed() && holds_on(
            Constraint::Unique,
            self.inner().directed(),
            self.inner().vertices(),
            self.inner().edges(),
        )
    }

    open spec fn vertices(&self) -> Seq<(u64, G::VertexWeight)> {
        self.inner().vertices()
    }

    open spec fn edges(&self) -> Seq<(u64, u64, G::EdgeWeight)> {
        self.inner().edges()
    }

    proof fn lemma_wf(&self) {
        self.inner().lemma_wf();
    }

    fn is_directed(&self) -> (r: bool) {
        self.graph.is_directed()
    }

    fn all_vertices_weighted(&self) -> (r: Vec<(u64, G::VertexWeight)>) {
        self.graph.all_vertices_weighted()
    }

    fn all_edges(&self) -> (r: Vec<(u64, u64, G::EdgeWeight)>) {
        self.graph.all_edges()
    }
}

impl<VW: Copy, EW: Copy> ConstrainedGraph for UniqueGraph<AdjListGraph<VW, EW>> {
    open spec fn constraint(&self) -> Constraint {
        Constraint::Unique
    }

    open spec fn store(&self) -> GraphState<VW, EW> {
        self.inner().state()
    }

    fn invariant_holds(&self) -> (r: bool) {
        check(Constraint::Unique, &self.graph)
    }

    fn unconstrained(&mut self, batch: Unconstrainer<VW, EW>) -> (r: Result<(), GraphError>) {
        batch.constrain(&mut self.graph, Constraint::Unique)
    }
}

impl<G: Graph + NewVertex> NewVertex for UniqueGraph<G> {
    open spec fn exhausted(&self) -> bool {
        self.inner().exhausted()
    }

    fn new_vertex_weighted(&mut self, w: G::VertexWeight) -> (r: Result<u64, GraphError>) {
        assert(old(self).exhausted() == (old(self).inner().exhausted()));
        self.graph.new_vertex_weighted(w)
    }
}

impl<G: Graph + RemoveVertex> RemoveVertex for UniqueGraph<G> {
    open spec fn vertex_removable(&self, v: u64) -> bool {
        self.inner().vertex_removable(v)
    }

    fn remove_vertex(&mut self, v: u64) -> (r: Result<G::VertexWeight, GraphError>) {
        assert(old(self).vertex_removable(v) == (old(self).inner().vertex_removable(v)));
        let ghost e0 = self.inner().edges();
        let r = self.graph.remove_vertex(v);
        proof {
            lemma_without_vertex_unique(e0, v, self.inner().directed());
        }
        r
    }
}

impl<G: Graph + AddEdge> AddEdge for UniqueGraph<G> {
    open spec fn edge_addable(&self, source: u64, sink: u64) -> bool {
        !(exists|i: int|
            0 <= i < self.edges().len() && connects(
                (#[trigger] self.edges()[i]).0,
                self.edges()[i].1,
                source,
                sink,
                self.directed(),
            )) && self.inner().edge_addable(source, sink)
    }

    fn add_edge_weighted(&mut self, source: u64, sink: u64, w: G::EdgeWeight) -> (r: Result<
        (),
        GraphError,
    >) {
        assert(old(self).edge_addable(source, sink) == (!(exists|i: int| 0 <= i < old(self).edges().len() && connects((#[trigger] old(self).edges()[i]).0, old(self).edges()[i].1, source, sink, old(self).directed())) && old(self).inner().edge_addable(source, sink)));
        if !self.graph.edge_valid(source, sink) {
            return Err(GraphError::InvalidEndpoint);
        }
        if has_connecting(&self.graph, source, sink) {
            proof {
                let i = choose|i: int|
                    0 <= i < self.graph.edges().len() && connects(
                        (#[trigger] self.graph.edges()[i]).0,
                        self.graph.edges()[i].1,
                        source,
                        sink,
                        self.graph.directed(),
                    );
                assert(old(self).edges()[i] == self.graph.edges()[i]);
            }
            return Err(GraphError::InvariantViolated);
        }
        let ghost e0 = self.inner().edges();
        let r = self.graph.add_edge_weighted(source, sink, w);
        proof {
            if r is Ok {
                let d = self.inner().directed();
                let es = self.inner().edges();
                assert forall|i: int, j: int| 0 <= i < j < es.len() implies !connects(
                    (#[trigger] es[j]).0,
                    es[j].1,
                    (#[trigger] es[i]).0,
                    es[i].1,
                    d,
                ) by {
                    assert(es[i] == e0[i]);
                    if j < e0.len() {
                        assert(es[j] == e0[j]);
                    } else {
                        assert(es[j] == (source, sink, w));
                        assert(!connects(e0[i].0, e0[i].1, source, sink, d));
                    }
                }
            }
        }
        r
    }
}

impl<G: Graph + RemoveEdge> RemoveEdge for UniqueGraph<G> {
    open spec fn edge_removable(&self, source: u64, sink: u64) -> bool {
        self.inner().edge_removable(source, sink)
    }

    fn remove_edge(&mut self, source: u64, sink: u64) -> (r: Result<G::EdgeWeight, GraphError>) {
        assert(old(self).edge_removable(source, sink) == (old(self).inner().edge_removable(source, sink)));
        let ghost e0 = self.inner().edges();
        proof {
            assert(old(self).edges() == e0);
            assert forall|i: int| 0 <= i < e0.len() implies #[trigger] old(self).edges()[i] == e0[i] by {
            }
        }
        let r = self.graph.remove_edge(source, sink);
        proof {
            if r is Ok {
                let i = choose|i: int| 0 <= i < e0.len() && self.inner().edges() == e0.remove(i);
                lemma_remove_unique(e0, i, self.inner().directed());
            }
        }
        r
    }

    fn remove_edge_where<F: Fn((u64, u64, &G::EdgeWeight)) -> bool>(&mut self, f: F) -> (r: Result<
        (u64, u64, G::EdgeWeight),
        GraphError,
    >) {
        let ghost e0 = self.inner().edges();
        proof {
            assert(old(self).edges() == e0);
            assert forall|i: int| 0 <= i < e0.len() implies #[trigger] old(self).edges()[i] == e0[i] by {
            }
        }
        let r = self.graph.remove_edge_where(f);
        proof {
            if r is Ok {
                let i = choose|i: int| 0 <= i < e0.len() && self.inner().edges() == e0.remove(i);
                lemma_remove_unique(e0, i, self.inner().directed());
            }
        }
        r
    }
}

impl<G: Graph> Unique for UniqueGraph<G> {
    proof fn lemma_unique(&self) {
    }
}

} // verus!
