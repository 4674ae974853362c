//! Directed graphs that stay weakly connected.
use vstd::prelude::*;
use crate::adj_list::{state_wf, AdjListGraph, GraphState};
use crate::constrained::{ensure_store, ConstrainedGraph};
use crate::constraint::{
    apply_op, check, holds, lemma_apply_single, lemma_first_connecting, vertex_index, weakly_connected, Constraint, Operation, Unconstrainer,
};
use crate::graph::{connects, has_vertex, Graph, GraphError};
use crate::reach::{lemma_reaches_more_edges, reaches};
use crate::property::{accepts, first_accepted, AddEdge, RemoveEdge, RemoveVertex};

verus! {

/// A directed graph that, with edge directions ignored, is connected.
pub trait Weak: Graph {
    /// A well-formed graph of this kind is directed and weakly connected.
    proof fn lemma_weak(&self)
        requires
            self.well_formed(),
        ensures
            self.directed(),
            weakly_connected(self.vertices(), self.edges()),
    ;
}

/// A directed graph kept weakly connected: every edit is committed only if the
/// graph stays connected with edge directions ignored. Vertices cannot be
/// added, since a new vertex has no edge yet.
pub struct WeakGraph<VW, EW> {
    graph: AdjListGraph<VW, EW>,
}

impl<VW: Copy, EW: Copy> WeakGraph<VW, EW> {
    /// The full state of the wrapped graph.
    pub closed spec fn state(&self) -> GraphState<VW, EW> {
        self.graph.state()
    }

    /// Wraps `g` if it is directed and weakly connected; otherwise hands it
    /// back unchanged.
    pub fn ensure(g: AdjListGraph<VW, EW>) -> (r: Result<Self, (AdjListGraph<VW, EW>, GraphError)>)
        requires
            g.well_formed(),
        ensures
            r is Ok <==> holds(Constraint::Weak, g.state()),
            match r {
                Ok(h) => h.store() == g.state() && h.well_formed(),
                Err((h, e)) => h == g && e == GraphError::InvariantViolated,
            },
    {
        match ensure_store(g, Constraint::Weak) {
            Ok(h) => Ok(WeakGraph { graph: h }),
            Err((h, e)) => Err((h, e)),
        }
    }

    /// Wraps `g`, which the caller knows to be directed and weakly connected,
    /// without checking.
    pub fn new(g: AdjListGraph<VW, EW>) -> (r: Self)
        requires
            g.well_formed(),
            holds(Constraint::Weak, g.state()),
        ensures
            r.store() == g.state(),
            r.well_formed(),
    {
        WeakGraph { graph: g }
    }

    /// Releases the wrapped graph.
    pub fn unconstrain(self) -> (r: AdjListGraph<VW, EW>)
        ensures
            r.state() == self.store(),
    {
        self.graph
    }

    /// Read access to the wrapped graph.
    pub fn graph(&self) -> (r: &AdjListGraph<VW, EW>)
        ensures
            r.state() == self.store(),
    {
        &self.graph
    }
}

impl<VW: Copy, EW: Copy> Graph for WeakGraph<VW, EW> {
    type VertexWeight = VW;

    type EdgeWeight = EW;

    open spec fn directed(&self) -> bool {
        self.state().directed
    }

    open spec fn well_formed(&self) -> bool {
        state_wf(self.state()) && holds(Constraint::Weak, self.state())
    }

    open spec fn vertices(&self) -> Seq<(u64, VW)> {
        self.state().vertices
    }

    open spec fn edges(&self) -> Seq<(u64, u64, EW)> {
        self.state().edges
    }

    proof fn lemma_wf(&self) {
    }

    fn is_directed(&self) -> (r: bool) {
        self.graph.is_directed()
    }

    fn all_vertices_weighted(&self) -> (r: Vec<(u64, VW)>) {
        self.graph.all_vertices_weighted()
    }

    fn all_edges(&self) -> (r: Vec<(u64, u64, EW)>) {
        self.graph.all_edges()
    }
}

impl<VW: Copy, EW: Copy> ConstrainedGraph for WeakGraph<VW, EW> {
    open spec fn constraint(&self) -> Constraint {
        Constraint::Weak
    }

    open spec fn store(&self) -> GraphState<VW, EW> {
        self.state()
    }

    fn invariant_holds(&self) -> (r: bool) {
        check(Constraint::Weak, &self.graph)
    }

    fn unconstrained(&mut self, batch: Unconstrainer<VW, EW>) -> (r: Result<(), GraphError>) {
        batch.constrain(&mut self.graph, Constraint::Weak)
    }
}

impl<VW: Copy, EW: Copy> Weak for WeakGraph<VW, EW> {
    proof fn lemma_weak(&self) {
    }
}

impl<VW: Copy, EW: Copy> RemoveVertex for WeakGraph<VW, EW> {
    /// The rest of the graph stays connected.
    open spec fn vertex_removable(&self, v: u64) -> bool {
        apply_op(self.store(), Operation::RemoveVertex(v)) matches Some(s) && holds(Constraint::Weak, s)
    }

    /// Succeeds exactly when `v` is a vertex and the rest stays connected.
    fn remove_vertex(&mut self, v: u64) -> (r: Result<VW, GraphError>)
        ensures
            r is Ok <==> (apply_op(old(self).store(), Operation::RemoveVertex(v)) matches Some(s)
                && holds(Constraint::Weak, s)),
            r is Ok ==> apply_op(old(self).store(), Operation::RemoveVertex(v)) == Some(
                final(self).store(),
            ),
            r is Err ==> final(self).store() == old(self).store(),
    {
        assert(old(self).vertex_removable(v) == (apply_op(old(self).store(), Operation::RemoveVertex(v)) matches Some(s) && holds(Constraint::Weak, s)));
        let w = match self.graph.vertex_weight(v) {
            Some(w) => w,
            None => return Err(GraphError::NotFound),
        };
        let ghost s = self.state();
        let batch = Unconstrainer::new().remove_vertex(v);
        proof {
            lemma_apply_single(s, Operation::RemoveVertex(v));
        }
        match batch.constrain(&mut self.graph, Constraint::Weak) {
            Ok(()) => {
                proof {
                    let i = vertex_index(s.vertices, v);
                    let j = choose|j: int| 0 <= j < s.vertices.len() && #[trigger] s.vertices[j] == (v, w);
                    assert(i == j);
                    assert(old(self).vertices()[i] == (v, w));
                }
                Ok(w)
            },
            Err(e) => Err(e),
        }
    }
}

impl<VW: Copy, EW: Copy> RemoveEdge for WeakGraph<VW, EW> {
    /// The graph stays connected without the first connecting edge.
    open spec fn edge_removable(&self, source: u64, sink: u64) -> bool {
        apply_op(self.store(), Operation::RemoveEdge(source, sink)) matches Some(s) && holds(
            Constraint::Weak,
            s,
        )
    }

    /// Removes the first edge that `f` accepts if the graph stays connected
    /// without it; otherwise puts it back and fails with `InvariantViolated`.
    fn remove_edge_where<F: Fn((u64, u64, &EW)) -> bool>(&mut self, f: F) -> (r: Result<
        (u64, u64, EW),
        GraphError,
    >)
        ensures
            r is Err ==> final(self).store() == old(self).store(),
            r matches Ok(e) ==> exists|p: int|
                0 <= p < old(self).edges().len() && #[trigger] old(self).edges()[p] == e && final(self).edges() == old(self).edges().remove(p) && forall|j: int|
                    0 <= j < p ==> accepts(f, #[trigger] old(self).edges()[j], false),
    {
        let es = self.graph.all_edges();
        let p = match first_accepted(&es, f) {
            Some(p) => p,
            None => return Err(GraphError::NotFound),
        };
        let ghost before = self.state();
        let e = self.graph.take_edge_at(p);
        if check(Constraint::Weak, &self.graph) {
            assert(old(self).edges()[p as int] == e);
            assert(old(self).edges().contains(e));
            Ok(e)
        } else {
            self.graph.undo_edge_removed(p, e);
            assert(self.state().edges =~= before.edges);
            assert(self.state() == before);
            Err(GraphError::InvariantViolated)
        }
    }

    /// Succeeds exactly when an edge connects the endpoints and the graph
    /// stays connected without the first such edge.
    fn remove_edge(&mut self, source: u64, sink: u64) -> (r: Result<EW, GraphError>)
        ensures
            r is Ok <==> (apply_op(old(self).store(), Operation::RemoveEdge(source, sink)) matches Some(s)
                && holds(Constraint::Weak, s)),
            r is Ok ==> apply_op(old(self).store(), Operation::RemoveEdge(source, sink)) == Some(
                final(self).store(),
            ),
    {
        assert(old(self).edge_removable(source, sink) == (apply_op(old(self).store(), Operation::RemoveEdge(source, sink)) matches Some(s) && holds(Constraint::Weak, s,)));
        let p = match self.graph.edge_position(source, sink) {
            Some(p) => p,
            None => {
                proof {
                    let s = self.state();
                    assert forall|i: int| 0 <= i < s.edges.len() implies !connects(
                        (#[trigger] s.edges[i]).0,
                        s.edges[i].1,
                        source,
                        sink,
                        s.directed,
                    ) by {
                        assert(s.edges[i] == self.graph.edges()[i]);
                    }
                }
                return Err(GraphError::NotFound);
            },
        };
        let es = self.graph.all_edges();
        let w = es[p].2;
        let ghost s = self.state();
        let batch = Unconstrainer::new().remove_edge(source, sink);
        proof {
            lemma_apply_single(s, Operation::RemoveEdge(source, sink));
            lemma_first_connecting(s.edges, source, sink, s.directed, p as int);
            assert(old(self).edges()[p as int] == s.edges[p as int]);
        }
        match batch.constrain(&mut self.graph, Constraint::Weak) {
            Ok(()) => Ok(w),
            Err(e) => Err(e),
        }
    }
}

impl<VW: Copy, EW: Copy> AddEdge for WeakGraph<VW, EW> {
    /// An added edge never disconnects the graph.
    open spec fn edge_addable(&self, source: u64, sink: u64) -> bool {
        true
    }

    /// Succeeds exactly when both endpoints are vertices: an added edge never
    /// disconnects the graph.
    fn add_edge_weighted(&mut self, source: u64, sink: u64, w: EW) -> (r: Result<(), GraphError>)
        ensures
            has_vertex(old(self).vertices(), source) && has_vertex(old(self).vertices(), sink)
                ==> r is Ok,
    {
        assert(old(self).edge_addable(source, sink));
        if !self.graph.edge_valid(source, sink) {
            return Err(GraphError::InvalidEndpoint);
        }
        let ghost s = self.state();
        let batch = Unconstrainer::new().add_edge(source, sink, w);
        proof {
            lemma_apply_single(s, Operation::AddEdge(source, sink, w));
            let es = s.edges.push((source, sink, w));
            assert forall|i: int, j: int|
                0 <= i < s.vertices.len() && 0 <= j < s.vertices.len() implies reaches(
                es,
                (#[trigger] s.vertices[i]).0,
                (#[trigger] s.vertices[j]).0,
                false,
            ) by {
                lemma_reaches_more_edges(s.edges, (source, sink, w), s.vertices[i].0, s.vertices[j].0, false);
            }
        }
        batch.constrain(&mut self.graph, Constraint::Weak)
    }
}

} // verus!
