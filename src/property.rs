//! The four mutation capabilities a graph may offer.
use vstd::prelude::*;
use crate::graph::{connects, has_vertex, without_vertex, Graph, GraphError};

verus! {

/// Whether `f`, called on the edge `e`, may answer `b`.
pub open spec fn accepts<W, F: Fn((u64, u64, &W)) -> bool>(f: F, e: (u64, u64, W), b: bool) -> bool {
    f.ensures(((e.0, e.1, &e.2),), b)
}

/// `f` may be called on any edge.
pub open spec fn callable_on_edges<W, F: Fn((u64, u64, &W)) -> bool>(f: F) -> bool {
    forall|e: (u64, u64, W)| #[trigger] f.requires(((e.0, e.1, &e.2),))
}

/// The position of the first edge of `es` that `f` accepts, if any.
pub fn first_accepted<W: Copy, F: Fn((u64, u64, &W)) -> bool>(es: &Vec<(u64, u64, W)>, f: F) -> (r:
    Option<usize>)
    requires
        callable_on_edges(f),
    ensures
        match r {
            Some(p) => p < es@.len() && accepts(f, es@[p as int], true) && forall|j: int|
                0 <= j < p ==> accepts(f, #[trigger] es@[j], false),
            None => forall|j: int| 0 <= j < es@.len() ==> accepts(f, #[trigger] es@[j], false),
        },
{
    let mut i: usize = 0;
    while i < es.len()
        invariant
            i <= es@.len(),
            callable_on_edges(f),
            forall|j: int| 0 <= j < i ==> accepts(f, #[trigger] es@[j], false),
        decreases es@.len() - i,
    {
        let e = es[i];
        assert(f.requires(((e.0, e.1, &e.2),)));
        if f((e.0, e.1, &e.2)) {
            return Some(i);
        }
        i = i + 1;
    }
    None
}

/// A graph to which vertices can be added.
pub trait NewVertex: Graph {
    /// Whether no fresh identifier is left.
    spec fn exhausted(&self) -> bool;

    /// Adds a vertex with weight `w` under a fresh identifier, which is
    /// returned. Fails only when no unused identifier remains.
    fn new_vertex_weighted(&mut self, w: Self::VertexWeight) -> (r: Result<u64, GraphError>)
        requires
            old(self).well_formed(),
        ensures
            final(self).well_formed(),
            final(self).directed() == old(self).directed(),
            final(self).edges() == old(self).edges(),
            r is Err <==> old(self).exhausted(),
            match r {
                Ok(v) => !has_vertex(old(self).vertices(), v) && final(self).vertices() == old(self).vertices().push((v, w)),
                Err(e) => e == GraphError::Exhausted && final(self).vertices() == old(self).vertices(),
            },
    ;

    /// Adds a vertex with the default weight under a fresh identifier.
    fn new_vertex(&mut self) -> (r: Result<u64, GraphError>)
        where
            Self::VertexWeight: Default,
        requires
            old(self).well_formed(),
        ensures
            final(self).well_formed(),
            final(self).directed() == old(self).directed(),
            final(self).edges() == old(self).edges(),
            match r {
                Ok(v) => !has_vertex(old(self).vertices(), v) && final(self).vertices() == old(self).vertices().push((v, final(self).vertices().last().1)),
                Err(e) => e == GraphError::Exhausted && final(self).vertices() == old(self).vertices(),
            },
    {
        let w = Self::VertexWeight::default();
        self.new_vertex_weighted(w)
    }
}

/// A graph from which vertices can be removed.
pub trait RemoveVertex: Graph {
    /// Whether this graph accepts the removal of the vertex `v`.
    spec fn vertex_removable(&self, v: u64) -> bool;

    /// Removes `v`, returning its weight, and drops every edge incident on it.
    /// Fails with `NotFound` when `v` is not a vertex; a failure changes
    /// nothing.
    fn remove_vertex(&mut self, v: u64) -> (r: Result<Self::VertexWeight, GraphError>)
        requires
            old(self).well_formed(),
        ensures
            final(self).well_formed(),
            final(self).directed() == old(self).directed(),
            r is Ok <==> has_vertex(old(self).vertices(), v) && old(self).vertex_removable(v),
            !has_vertex(old(self).vertices(), v) ==> r == Err::<Self::VertexWeight, GraphError>(
                GraphError::NotFound,
            ),
            match r {
                Ok(w) => exists|i: int|
                    0 <= i < old(self).vertices().len() && #[trigger] old(self).vertices()[i] == (
                        v,
                        w,
                    ) && final(self).vertices() == old(self).vertices().remove(i)
                        && final(self).edges() == without_vertex(old(self).edges(), v),
                Err(_) => final(self).vertices() == old(self).vertices() && final(self).edges() == old(self).edges(),
            },
    ;
}

/// A graph to which edges can be added.
pub trait AddEdge: Graph {
    /// Whether this graph accepts an edge from `source` to `sink` between
    /// two of its vertices.
    spec fn edge_addable(&self, source: u64, sink: u64) -> bool;

    /// Adds an edge from `source` to `sink` with weight `w`. On success both
    /// endpoints were vertices and the edge is appended; on failure nothing
    /// changes.
    fn add_edge_weighted(&mut self, source: u64, sink: u64, w: Self::EdgeWeight) -> (r: Result<
        (),
        GraphError,
    >)
        requires
            old(self).well_formed(),
        ensures
            final(self).well_formed(),
            final(self).directed() == old(self).directed(),
            final(self).vertices() == old(self).vertices(),
            !(has_vertex(old(self).vertices(), source) && has_vertex(old(self).vertices(), sink))
                ==> r == Err::<(), GraphError>(GraphError::InvalidEndpoint),
            r is Ok <==> has_vertex(old(self).vertices(), source) && has_vertex(
                old(self).vertices(),
                sink,
            ) && old(self).edge_addable(source, sink),
            match r {
                Ok(_) => has_vertex(final(self).vertices(), source) && has_vertex(
                    final(self).vertices(),
                    sink,
                ) && final(self).edges() == old(self).edges().push((source, sink, w)),
                Err(_) => final(self).edges() == old(self).edges(),
            },
    ;

    /// Adds an edge from `source` to `sink` with the default weight. On
    /// success both endpoints are vertices and the edge is appended; on failure
    /// neither the vertices nor the edges change.
    fn add_edge(&mut self, source: u64, sink: u64) -> (r: Result<(), GraphError>)
        where
            Self::EdgeWeight: Default,
        requires
            old(self).well_formed(),
        ensures
            final(self).well_formed(),
            final(self).directed() == old(self).directed(),
            final(self).vertices() == old(self).vertices(),
            !(has_vertex(old(self).vertices(), source) && has_vertex(old(self).vertices(), sink))
                ==> r == Err::<(), GraphError>(GraphError::InvalidEndpoint),
            r is Ok ==> has_vertex(final(self).vertices(), source) && has_vertex(
                final(self).vertices(),
                sink,
            ) && final(self).edges() == old(self).edges().push(
                (source, sink, final(self).edges().last().2),
            ),
            r is Err ==> final(self).edges() == old(self).edges(),
    {
        let w = Self::EdgeWeight::default();
        self.add_edge_weighted(source, sink, w)
    }
}

/// A graph from which edges can be removed.
pub trait RemoveEdge: Graph {
    /// Whether this graph accepts the removal of an edge connecting `source`
    /// to `sink`, when there is one.
    spec fn edge_removable(&self, source: u64, sink: u64) -> bool;

    /// Removes one edge connecting `source` to `sink` and returns its weight.
    /// Fails with `NotFound` when no edge connects them; a failure changes
    /// nothing.
    fn remove_edge(&mut self, source: u64, sink: u64) -> (r: Result<Self::EdgeWeight, GraphError>)
        requires
            old(self).well_formed(),
        ensures
            final(self).well_formed(),
            final(self).directed() == old(self).directed(),
            final(self).vertices() == old(self).vertices(),
            !(exists|i: int|
                0 <= i < old(self).edges().len() && connects(
                    (#[trigger] old(self).edges()[i]).0,
                    old(self).edges()[i].1,
                    source,
                    sink,
                    old(self).directed(),
                )) ==> r == Err::<Self::EdgeWeight, GraphError>(GraphError::NotFound),
            r is Ok <==> (exists|i: int|
                0 <= i < old(self).edges().len() && connects(
                    (#[trigger] old(self).edges()[i]).0,
                    old(self).edges()[i].1,
                    source,
                    sink,
                    old(self).directed(),
                )) && old(self).edge_removable(source, sink),
            match r {
                Ok(w) => exists|i: int|
                    0 <= i < old(self).edges().len() && connects(
                        (#[trigger] old(self).edges()[i]).0,
                        old(self).edges()[i].1,
                        source,
                        sink,
                        old(self).directed(),
                    ) && old(self).edges()[i].2 == w && final(self).edges() == old(self).edges().remove(i),
                Err(_) => final(self).edges() == old(self).edges(),
            },
    ;

    /// Removes one edge that `f` accepts and returns it. `NotFound` means
    /// that `f` rejected every edge; a failure changes nothing.
    fn remove_edge_where<F: Fn((u64, u64, &Self::EdgeWeight)) -> bool>(&mut self, f: F) -> (r:
        Result<(u64, u64, Self::EdgeWeight), GraphError>)
        requires
            old(self).well_formed(),
            callable_on_edges(f),
        ensures
            final(self).well_formed(),
            final(self).directed() == old(self).directed(),
            final(self).vertices() == old(self).vertices(),
            r == Err::<(u64, u64, Self::EdgeWeight), GraphError>(GraphError::NotFound) ==> forall|i: int|
                0 <= i < old(self).edges().len() ==> accepts(f, #[trigger] old(self).edges()[i], false),
            match r {
                Ok(e) => accepts(f, e, true) && old(self).edges().contains(e) && exists|i: int|
                    0 <= i < old(self).edges().len() && connects(
                        (#[trigger] old(self).edges()[i]).0,
                        old(self).edges()[i].1,
                        e.0,
                        e.1,
                        old(self).directed(),
                    ) && old(self).edges()[i].2 == e.2 && final(self).edges() == old(self).edges().remove(i),
                Err(_) => final(self).edges() == old(self).edges(),
            },
    ;
}

/// A graph whose weights can be changed in place.
pub trait GraphMut: Graph {
    /// Replaces the weight of `v` with `w` and returns the old weight. Fails
    /// with `NotFound`, changing nothing, when `v` is not a vertex.
    fn set_vertex_weight(&mut self, v: u64, w: Self::VertexWeight) -> (r: Result<
        Self::VertexWeight,
        GraphError,
    >)
        requires
            old(self).well_formed(),
        ensures
            final(self).well_formed(),
            final(self).directed() == old(self).directed(),
            final(self).edges() == old(self).edges(),
            r is Ok <==> has_vertex(old(self).vertices(), v),
            match r {
                Ok(u) => exists|i: int|
                    0 <= i < old(self).vertices().len() && #[trigger] old(self).vertices()[i] == (v, u)
                        && final(self).vertices() == old(self).vertices().update(i, (v, w)),
                Err(e) => e == GraphError::NotFound && final(self).vertices() == old(self).vertices(),
            },
    ;

    /// Replaces the weight of the first edge connecting `source` to `sink`
    /// with `w` and returns the old weight. Fails with `NotFound`, changing
    /// nothing, when no edge connects them.
    fn set_edge_weight(&mut self, source: u64, sink: u64, w: Self::EdgeWeight) -> (r: Result<
        Self::EdgeWeight,
        GraphError,
    >)
        requires
            old(self).well_formed(),
        ensures
            final(self).well_formed(),
            final(self).directed() == old(self).directed(),
            final(self).vertices() == old(self).vertices(),
            r is Ok <==> exists|i: int|
                0 <= i < old(self).edges().len() && connects(
                    (#[trigger] old(self).edges()[i]).0,
                    old(self).edges()[i].1,
                    source,
                    sink,
                    old(self).directed(),
                ),
            match r {
                Ok(u) => exists|i: int|
                    0 <= i < old(self).edges().len() && connects(
                        (#[trigger] old(self).edges()[i]).0,
                        old(self).edges()[i].1,
                        source,
                        sink,
                        old(self).directed(),
                    ) && old(self).edges()[i].2 == u && final(self).edges() == old(self).edges().update(
                        i,
                        (old(self).edges()[i].0, old(self).edges()[i].1, w),
                    ),
                Err(e) => e == GraphError::NotFound && final(self).edges() == old(self).edges(),
            },
    ;
}

} // verus!
