//! Graphs whose directedness is checked once, when they are wrapped.
use vstd::prelude::*;
use crate::adj_list::{AdjListGraph, GraphState};
use crate::constrained::{ConstrainedGraph};
use crate::constraint::{check, holds_on, Constraint, Unconstrainer};
use crate::graph::{Graph, GraphError};
use crate::property::{AddEdge, NewVertex, RemoveEdge, RemoveVertex};

verus! {

/// A graph known to be directed.
pub struct DirectedGraph<G> {
    graph: G,
}

impl<G: Graph> DirectedGraph<G> {
    /// The wrapped graph.
    pub closed spec fn inner(&self) -> G {
        self.graph
    }

    /// Wraps `g` if it is directed; otherwise hands it back unchanged.
    pub fn ensure(g: G) -> (r: Result<Self, (G, GraphError)>)
        requires
            g.well_formed(),
        ensures
            r is Ok <==> holds_on(Constraint::Directed, g.directed(), g.vertices(), g.edges()),
            match r {
                Ok(h) => h.inner() == g && h.well_formed(),
                Err((h, e)) => h == g && e == GraphError::InvariantViolated,
            },
    {
        if check(Constraint::Directed, &g) {
            Ok(DirectedGraph { graph: g })
        } else {
            Err((g, GraphError::InvariantViolated))
        }
    }

    /// Releases the wrapped graph.
    pub fn unconstrain(self) -> (r: G)
        ensures
            r == self.inner(),
    {
        self.graph
    }

    /// Read access to the wrapped graph.
    pub fn graph(&self) -> (r: &G)
        ensures
            *r == self.inner(),
    {
        &self.graph
    }
}

impl<G: Graph> Graph for DirectedGraph<G> {
    type VertexWeight = G::VertexWeight;

    type EdgeWeight = G::EdgeWeight;

    open spec fn directed(&self) -> bool {
        self.inner().directed()
    }

    open spec fn well_formed(&self) -> bool {
        self.inner().well_formed() && holds_on(
            Constraint::Directed,
            self.inner().directed(),
            self.inner().vertices(),
            self.inner().edges(),
        )
    }

    open spec fn vertices(&self) -> Seq<(u64, G::VertexWeight)> {
        self.inner().vertices()
    }

    open spec fn edges(&self) -> Seq<(u64, u64, G::EdgeWeight)> {
        self.inner().edges()
    }

    proof fn lemma_wf(&self) {
        self.inner().lemma_wf();
    }

    fn is_directed(&self) -> (r: bool) {
        self.graph.is_directed()
    }

    fn all_vertices_weighted(&self) -> (r: Vec<(u64, G::VertexWeight)>) {
        self.graph.all_vertices_weighted()
    }

    fn all_edges(&self) -> (r: Vec<(u64, u64, G::EdgeWeight)>) {
        self.graph.all_edges()
    }
}

impl<VW: Copy, EW: Copy> ConstrainedGraph for DirectedGraph<AdjListGraph<VW, EW>> {
    open spec fn constraint(&self) -> Constraint {
        Constraint::Directed
    }

    open spec fn store(&self) -> GraphState<VW, EW> {
        self.inner().state()
    }

    fn invariant_holds(&self) -> (r: bool) {
        check(Constraint::Directed, &self.graph)
    }

    fn unconstrained(&mut self, batch: Unconstrainer<VW, EW>) -> (r: Result<(), GraphError>) {
        batch.constrain(&mut self.graph, Constraint::Directed)
    }
}

impl<G: Graph + NewVertex> NewVertex for DirectedGraph<G> {
    open spec fn exhausted(&self) -> bool {
        self.inner().exhausted()
    }

    fn new_vertex_weighted(&mut self, w: G::VertexWeight) -> (r: Result<u64, GraphError>) {
        assert(old(self).exhausted() == (old(self).inner().exhausted()));
        self.graph.new_vertex_weighted(w)
    }
}

impl<G: Graph + RemoveVertex> RemoveVertex for DirectedGraph<G> {
    open spec fn vertex_removable(&self, v: u64) -> bool {
        self.inner().vertex_removable(v)
    }

    fn remove_vertex(&mut self, v: u64) -> (r: Result<G::VertexWeight, GraphError>) {
        assert(old(self).vertex_removable(v) == (old(self).inner().vertex_removable(v)));
        let r = self.graph.remove_vertex(v);
        r
    }
}

impl<G: Graph + AddEdge> AddEdge for DirectedGraph<G> {
    open spec fn edge_addable(&self, source: u64, sink: u64) -> bool {
        self.inner().edge_addable(source, sink)
    }

    fn add_edge_weighted(&mut self, source: u64, sink: u64, w: G::EdgeWeight) -> (r: Result<
        (),
        GraphError,
    >) {
        assert(old(self).edge_addable(source, sink) == (old(self).inner().edge_addable(source, sink)));
        if !self.graph.edge_valid(source, sink) {
            return Err(GraphError::InvalidEndpoint);
        }
        let r = self.graph.add_edge_weighted(source, sink, w);
        r
    }
}

impl<G: Graph + RemoveEdge> RemoveEdge for DirectedGraph<G> {
    open spec fn edge_removable(&self, source: u64, sink: u64) -> bool {
        self.inner().edge_removable(source, sink)
    }

    fn remove_edge(&mut self, source: u64, sink: u64) -> (r: Result<G::EdgeWeight, GraphError>) {
        assert(old(self).edge_removable(source, sink) == (old(self).inner().edge_removable(source, sink)));
        let ghost e0 = self.inner().edges();
        proof {
            assert(old(self).edges() == e0);
            assert forall|i: int| 0 <= i < e0.len() implies #[trigger] old(self).edges()[i] == e0[i] by {
            }
        }
        let r = self.graph.remove_edge(source, sink);
        proof {
            if r is Ok {
                let i = choose|i: int| 0 <= i < e0.len() && self.inner().edges() == e0.remove(i);
            }
        }
        r
    }

    fn remove_edge_where<F: Fn((u64, u64, &G::EdgeWeight)) -> bool>(&mut self, f: F) -> (r: Result<
        (u64, u64, G::EdgeWeight),
        GraphError,
    >) {
        let ghost e0 = self.inner().edges();
        proof {
            assert(old(self).edges() == e0);
            assert forall|i: int| 0 <= i < e0.len() implies #[trigger] old(self).edges()[i] == e0[i] by {
            }
        }
        let r = self.graph.remove_edge_where(f);
        proof {
            if r is Ok {
                let i = choose|i: int| 0 <= i < e0.len() && self.inner().edges() == e0.remove(i);
            }
        }
        r
    }
}

/// A graph known to be undirected.
pub struct UndirectedGraph<G> {
    graph: G,
}

impl<G: Graph> UndirectedGraph<G> {
    /// The wrapped graph.
    pub closed spec fn inner(&self) -> G {
        self.graph
    }

    /// Wraps `g` if it is undirected; otherwise hands it back unchanged.
    pub fn ensure(g: G) -> (r: Result<Self, (G, GraphError)>)
        requires
            g.well_formed(),
        ensures
            r is Ok <==> holds_on(Constraint::Undirected, g.directed(), g.vertices(), g.edges()),
            match r {
                Ok(h) => h.inner() == g && h.well_formed(),
                Err((h, e)) => h == g && e == GraphError::InvariantViolated,
            },
    {
        if check(Constraint::Undirected, &g) {
            Ok(UndirectedGraph { graph: g })
        } else {
            Err((g, GraphError::InvariantViolated))
        }
    }

    /// Releases the wrapped graph.
    pub fn unconstrain(self) -> (r: G)
        ensures
            r == self.inner(),
    {
        self.graph
    }

    /// Read access to the wrapped graph.
    pub fn graph(&self) -> (r: &G)
        ensures
            *r == self.inner(),
    {
        &self.graph
    }
}

impl<G: Graph> Graph for UndirectedGraph<G> {
    type VertexWeight = G::VertexWeight;

    type EdgeWeight = G::EdgeWeight;

    open spec fn directed(&self) -> bool {
        self.inner().directed()
    }

    open spec fn well_formed(&self) -> bool {
        self.inner().well_formed() && holds_on(
            Constraint::Undirected,
            self.inner().directed(),
            self.inner().vertices(),
            self.inner().edges(),
        )
    }

    open spec fn vertices(&self) -> Seq<(u64, G::VertexWeight)> {
        self.inner().vertices()
    }

    open spec fn edges(&self) -> Seq<(u64, u64, G::EdgeWeight)> {
        self.inner().edges()
    }

    proof fn lemma_wf(&self) {
        self.inner().lemma_wf();
    }

    fn is_directed(&self) -> (r: bool) {
        self.graph.is_directed()
    }

    fn all_vertices_weighted(&self) -> (r: Vec<(u64, G::VertexWeight)>) {
        self.graph.all_vertices_weighted()
    }

    fn all_edges(&self) -> (r: Vec<(u64, u64, G::EdgeWeight)>) {
        self.graph.all_edges()
    }
}

impl<VW: Copy, EW: Copy> ConstrainedGraph for UndirectedGraph<AdjListGraph<VW, EW>> {
    open spec fn constraint(&self) -> Constraint {
        Constraint::Undirected
    }

    open spec fn store(&self) -> GraphState<VW, EW> {
        self.inner().state()
    }

    fn invariant_holds(&self) -> (r: bool) {
        check(Constraint::Undirected, &self.graph)
    }

    fn unconstrained(&mut self, batch: Unconstrainer<VW, EW>) -> (r: Result<(), GraphError>) {
        batch.constrain(&mut self.graph, Constraint::Undirected)
    }
}

impl<G: Graph + NewVertex> NewVertex for UndirectedGraph<G> {
    open spec fn exhausted(&self) -> bool {
        self.inner().exhausted()
    }

    fn new_vertex_weighted(&mut self, w: G::VertexWeight) -> (r: Result<u64, GraphError>) {
        assert(old(self).exhausted() == (old(self).inner().exhausted()));
        self.graph.new_vertex_weighted(w)
    }
}

impl<G: Graph + RemoveVertex> RemoveVertex for UndirectedGraph<G> {
    open spec fn vertex_removable(&self, v: u64) -> bool {
        self.inner().vertex_removable(v)
    }

    fn remove_vertex(&mut self, v: u64) -> (r: Result<G::VertexWeight, GraphError>) {
        assert(old(self).vertex_removable(v) == (old(self).inner().vertex_removable(v)));
        let r = self.graph.remove_vertex(v);
        r
    }
}

impl<G: Graph + AddEdge> AddEdge for UndirectedGraph<G> {
    open spec fn edge_addable(&self, source: u64, sink: u64) -> bool {
        self.inner().edge_addable(source, sink)
    }

    fn add_edge_weighted(&mut self, source: u64, sink: u64, w: G::EdgeWeight) -> (r: Result<
        (),
        GraphError,
    >) {
        assert(old(self).edge_addable(source, sink) == (old(self).inner().edge_addable(source, sink)));
        if !self.graph.edge_valid(source, sink) {
            return Err(GraphError::InvalidEndpoint);
        }
        let r = self.graph.add_edge_weighted(source, sink, w);
        r
    }
}

impl<G: Graph + RemoveEdge> RemoveEdge for UndirectedGraph<G> {
    open spec fn edge_removable(&self, source: u64, sink: u64) -> bool {
        self.inner().edge_removable(source, sink)
    }

    fn remove_edge(&mut self, source: u64, sink: u64) -> (r: Result<G::EdgeWeight, GraphError>) {
        assert(old(self).edge_removable(source, sink) == (old(self).inner().edge_removable(source, sink)));
        let ghost e0 = self.inner().edges();
        proof {
            assert(old(self).edges() == e0);
            assert forall|i: int| 0 <= i < e0.len() implies #[trigger] old(self).edges()[i] == e0[i] by {
            }
        }
        let r = self.graph.remove_edge(source, sink);
        proof {
            if r is Ok {
                let i = choose|i: int| 0 <= i < e0.len() && self.inner().edges() == e0.remove(i);
            }
        }
        r
    }

    fn remove_edge_where<F: Fn((u64, u64, &G::EdgeWeight)) -> bool>(&mut self, f: F) -> (r: Result<
        (u64, u64, G::EdgeWeight),
        GraphError,
    >) {
        let ghost e0 = self.inner().edges();
        proof {
            assert(old(self).edges() == e0);
            assert forall|i: int| 0 <= i < e0.len() implies #[trigger] old(self).edges()[i] == e0[i] by {
            }
        }
        let r = self.graph.remove_edge_where(f);
        proof {
            if r is Ok {
                let i = choose|i: int| 0 <= i < e0.len() && self.inner().edges() == e0.remove(i);
            }
        }
        r
    }
}

} // verus!
