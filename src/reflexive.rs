//! Graphs in which every vertex has exactly one loop.
use vstd::prelude::*;
use crate::adj_list::{state_wf, AdjListGraph, GraphState};
use crate::constrained::{
    ensure_store, lemma_between_absent, lemma_between_remove, lemma_between_witness,
    lemma_between_without, ConstrainedGraph,
};
use crate::constraint::{
    apply_all, apply_op, check, first_connecting, holds, reflexive, vertex_index, Constraint,
    Operation, Unconstrainer,
};
use crate::graph::{between, connects, has_vertex, without_vertex, Graph, GraphError};
use crate::property::{accepts, first_accepted, AddEdge, RemoveEdge};

verus! {

/// A graph in which every vertex has exactly one loop, so a vertex is added
/// or removed together with its loop.
pub trait Reflexive: Graph {
    /// A well-formed graph of this kind is reflexive.
    proof fn lemma_reflexive(&self)
        requires
            self.well_formed(),
        ensures
            reflexive(self.vertices(), self.edges(), self.directed()),
    ;
}

/// Removing an edge touching `v` changes nothing once every edge touching
/// `v` is dropped.
pub proof fn lemma_without_vertex_remove<W>(es: Seq<(u64, u64, W)>, p: int, v: u64)
    requires
        0 <= p < es.len(),
        es[p].0 == v || es[p].1 == v,
    ensures
        without_vertex(es.remove(p), v) == without_vertex(es, v),
    decreases es.len(),
{
    if p == es.len() - 1 {
        assert(es.remove(p) =~= es.drop_last());
    } else {
        assert(es.remove(p).drop_last() =~= es.drop_last().remove(p));
        assert(es.remove(p).last() == es.last());
        lemma_without_vertex_remove(es.drop_last(), p, v);
    }
}

/// Adding a fresh vertex with its loop keeps a reflexive graph reflexive.
proof fn lemma_add_with_loop<VW, EW>(s: GraphState<VW, EW>, v: u64, w: VW, d: EW)
    requires
        state_wf(s),
        reflexive(s.vertices, s.edges, s.directed),
        !has_vertex(s.vertices, v),
    ensures
        apply_all(
            s,
            Seq::empty().push(Operation::AddVertex(v, w)).push(Operation::AddEdge(v, v, d)),
        ) == Some(
            GraphState {
                vertices: s.vertices.push((v, w)),
                edges: s.edges.push((v, v, d)),
                next_id: crate::adj_list::bump(s.next_id, v),
                ..s
            },
        ),
        reflexive(s.vertices.push((v, w)), s.edges.push((v, v, d)), s.directed),
{
    let ops = Seq::empty().push(Operation::AddVertex(v, w)).push(Operation::AddEdge(v, v, d));
    assert(ops.drop_last() == Seq::empty().push(Operation::<VW, EW>::AddVertex(v, w)));
    assert(ops.drop_last().drop_last() == Seq::<Operation<VW, EW>>::empty());
    let vs = s.vertices.push((v, w));
    assert(vs[vs.len() - 1].0 == v);
    let es = s.edges.push((v, v, d));
    assert(es.drop_last() == s.edges);
    let s1 = GraphState { vertices: vs, next_id: crate::adj_list::bump(s.next_id, v), ..s };
    let s2 = GraphState { edges: es, ..s1 };
    assert(apply_all(s, ops.drop_last().drop_last()) == Some(s));
    assert(apply_all(s, ops.drop_last()) == Some(s1));
    assert(has_vertex(s1.vertices, v));
    assert(apply_all(s, ops) == Some(s2));
    assert forall|k: int| 0 <= k < s.edges.len() implies (#[trigger] s.edges[k]).0 != v
        && s.edges[k].1 != v by {
        assert(has_vertex(s.vertices, s.edges[k].0) && has_vertex(s.vertices, s.edges[k].1));
    }
    lemma_between_absent(s.edges, v, s.directed);
    assert forall|i: int| 0 <= i < vs.len() implies between(es, (#[trigger] vs[i]).0, vs[i].0, s.directed).len()
        == 1 by {
        if i < s.vertices.len() {
            assert(vs[i] == s.vertices[i]);
        }
    }
}

/// Removing a vertex together with its loop keeps a reflexive graph
/// reflexive.
proof fn lemma_remove_with_loop<VW, EW>(s: GraphState<VW, EW>, v: u64)
    requires
        state_wf(s),
        reflexive(s.vertices, s.edges, s.directed),
        has_vertex(s.vertices, v),
    ensures
        apply_all(
            s,
            Seq::empty().push(Operation::RemoveEdge(v, v)).push(Operation::RemoveVertex(v)),
        ) == Some(
            GraphState {
                vertices: s.vertices.remove(vertex_index(s.vertices, v)),
                edges: without_vertex(s.edges, v),
                ..s
            },
        ),
        reflexive(
            s.vertices.remove(vertex_index(s.vertices, v)),
            without_vertex(s.edges, v),
            s.directed,
        ),
{
    let ops = Seq::empty().push(Operation::<VW, EW>::RemoveEdge(v, v)).push(
        Operation::RemoveVertex(v),
    );
    assert(ops.drop_last() == Seq::empty().push(Operation::<VW, EW>::RemoveEdge(v, v)));
    assert(ops.drop_last().drop_last() == Seq::<Operation<VW, EW>>::empty());
    let k = vertex_index(s.vertices, v);
    assert(between(s.edges, s.vertices[k].0, s.vertices[k].0, s.directed).len() == 1);
    lemma_between_witness(s.edges, v, v, s.directed);
    let p = first_connecting(s.edges, v, v, s.directed);
    assert(0 <= p < s.edges.len() && connects(s.edges[p].0, s.edges[p].1, v, v, s.directed))
        by {
        reveal(first_connecting);
        let q = choose|i: int|
            0 <= i < s.edges.len() && connects((#[trigger] s.edges[i]).0, s.edges[i].1, v, v, s.directed);
        crate::constrained::lemma_first_exists(s.edges, v, v, s.directed, q);
    }
    let s1 = GraphState { edges: s.edges.remove(p), ..s };
    assert(apply_op(s, Operation::RemoveEdge(v, v)) == Some(s1));
    assert(apply_all(s, ops.drop_last().drop_last()) == Some(s));
    assert(apply_all(s, ops.drop_last()) == Some(s1));
    lemma_without_vertex_remove(s.edges, p, v);
    let s2 = GraphState {
        vertices: s.vertices.remove(vertex_index(s.vertices, v)),
        edges: without_vertex(s.edges, v),
        ..s
    };
    assert(apply_op(s1, Operation::RemoveVertex(v)) == Some(s2));
    assert(apply_all(s, ops) == Some(s2));
    let vs = s.vertices.remove(k);
    let es = without_vertex(s.edges, v);
    assert forall|i: int| 0 <= i < vs.len() implies between(es, (#[trigger] vs[i]).0, vs[i].0, s.directed).len()
        == 1 by {
        let a = if i < k { i } else { i + 1 };
        assert(vs[i] == s.vertices[a]);
        let u = vs[i].0;
        assert(u != v);
        lemma_between_without(s.edges.remove(p), v, u, s.directed);
        lemma_between_remove(s.edges, p, u, s.directed);
    }
}

/// A graph kept reflexive: vertices come and go with their loops, and loops
/// cannot be added or removed on their own.
pub struct ReflexiveGraph<VW, EW> {
    graph: AdjListGraph<VW, EW>,
}

impl<VW: Copy, EW: Copy> ReflexiveGraph<VW, EW> {
    /// The full state of the wrapped graph.
    pub closed spec fn state(&self) -> GraphState<VW, EW> {
        self.graph.state()
    }

    /// Wraps `g` if every vertex has exactly one loop; otherwise hands it back
    /// unchanged.
    pub fn ensure(g: AdjListGraph<VW, EW>) -> (r: Result<Self, (AdjListGraph<VW, EW>, GraphError)>)
        requires
            g.well_formed(),
        ensures
            r is Ok <==> holds(Constraint::Reflexive, g.state()),
            match r {
                Ok(h) => h.store() == g.state() && h.well_formed(),
                Err((h, e)) => h == g && e == GraphError::InvariantViolated,
            },
    {
        match ensure_store(g, Constraint::Reflexive) {
            Ok(h) => Ok(ReflexiveGraph { graph: h }),
            Err((h, e)) => Err((h, e)),
        }
    }

    /// Releases the wrapped graph.
    pub fn unconstrain(self) -> (r: AdjListGraph<VW, EW>)
        ensures
            r.state() == self.store(),
    {
        self.graph
    }

    /// Read access to the wrapped graph.
    pub fn graph(&self) -> (r: &AdjListGraph<VW, EW>)
        ensures
            r.state() == self.store(),
    {
        &self.graph
    }
}

impl<VW: Copy, EW: Copy> Graph for ReflexiveGraph<VW, EW> {
    type VertexWeight = VW;

    type EdgeWeight = EW;

    open spec fn directed(&self) -> bool {
        self.state().directed
    }

    open spec fn well_formed(&self) -> bool {
        state_wf(self.state()) && holds(Constraint::Reflexive, self.state())
    }

    open spec fn vertices(&self) -> Seq<(u64, VW)> {
        self.state().vertices
    }

    open spec fn edges(&self) -> Seq<(u64, u64, EW)> {
        self.state().edges
    }

    proof fn lemma_wf(&self) {
    }

    fn is_directed(&self) -> (r: bool) {
        self.graph.is_directed()
    }

    fn all_vertices_weighted(&self) -> (r: Vec<(u64, VW)>) {
        self.graph.all_vertices_weighted()
    }

    fn all_edges(&self) -> (r: Vec<(u64, u64, EW)>) {
        self.graph.all_edges()
    }
}

impl<VW: Copy, EW: Copy> ConstrainedGraph for ReflexiveGraph<VW, EW> {
    open spec fn constraint(&self) -> Constraint {
        Constraint::Reflexive
    }

    open spec fn store(&self) -> GraphState<VW, EW> {
        self.state()
    }

    fn invariant_holds(&self) -> (r: bool) {
        check(Constraint::Reflexive, &self.graph)
    }

    fn unconstrained(&mut self, batch: Unconstrainer<VW, EW>) -> (r: Result<(), GraphError>) {
        batch.constrain(&mut self.graph, Constraint::Reflexive)
    }
}

impl<VW: Copy, EW: Copy> Reflexive for ReflexiveGraph<VW, EW> {
    proof fn lemma_reflexive(&self) {
    }
}

impl<VW: Copy, EW: Copy + Default> ReflexiveGraph<VW, EW> {
    /// Adds a vertex with weight `w` under a fresh identifier together with a
    /// loop of default weight, as one step. Fails with `Exhausted` only when no
    /// identifier remains.
    pub fn new_vertex_weighted(&mut self, w: VW) -> (r: Result<u64, GraphError>)
        requires
            old(self).well_formed(),
        ensures
            final(self).well_formed(),
            final(self).directed() == old(self).directed(),
            r is Err <==> old(self).store().next_id == u64::MAX,
            r is Err ==> r == Err::<u64, GraphError>(GraphError::Exhausted) && final(self).store()
                == old(self).store(),
            r matches Ok(v) ==> {
                &&& !has_vertex(old(self).vertices(), v)
                &&& final(self).vertices() == old(self).vertices().push((v, w))
                &&& final(self).edges() == old(self).edges().push((v, v, final(self).edges().last().2))
            },
    {
        let v = self.graph.next_free_id();
        if v == u64::MAX {
            return Err(GraphError::Exhausted);
        }
        let d = EW::default();
        let batch = Unconstrainer::new().add_vertex(v, w).add_edge(v, v, d);
        proof {
            let s = self.state();
            assert(!has_vertex(s.vertices, v)) by {
                if has_vertex(s.vertices, v) {
                    let i = choose|i: int| 0 <= i < s.vertices.len() && (#[trigger] s.vertices[i]).0 == v;
                }
            }
            lemma_add_with_loop(s, v, w, d);
        }
        match batch.constrain(&mut self.graph, Constraint::Reflexive) {
            Ok(()) => Ok(v),
            Err(_) => Err(GraphError::InvariantViolated),
        }
    }
}

impl<VW: Copy, EW: Copy> ReflexiveGraph<VW, EW> {
    /// Removes `v` and its loop as one step, with every other edge incident on
    /// `v`, and returns the weight of `v`.
    pub fn remove_vertex(&mut self, v: u64) -> (r: Result<VW, GraphError>)
        requires
            old(self).well_formed(),
        ensures
            final(self).well_formed(),
            final(self).directed() == old(self).directed(),
            r is Ok <==> has_vertex(old(self).vertices(), v),
            match r {
                Ok(w) => exists|i: int|
                    0 <= i < old(self).vertices().len() && #[trigger] old(self).vertices()[i] == (v, w)
                        && final(self).vertices() == old(self).vertices().remove(i)
                        && final(self).edges() == without_vertex(old(self).edges(), v),
                Err(e) => e == GraphError::NotFound && final(self).store() == old(self).store(),
            },
    {
        let w = match self.graph.vertex_weight(v) {
            Some(w) => w,
            None => return Err(GraphError::NotFound),
        };
        let batch = Unconstrainer::new().remove_edge(v, v).remove_vertex(v);
        let ghost s = self.state();
        proof {
            lemma_remove_with_loop(s, v);
            let i = choose|i: int| 0 <= i < s.vertices.len() && #[trigger] s.vertices[i] == (v, w);
            let k = vertex_index(s.vertices, v);
            assert(k == i);
        }
        match batch.constrain(&mut self.graph, Constraint::Reflexive) {
            Ok(()) => {
                proof {
                    let k = vertex_index(s.vertices, v);
                    assert(old(self).vertices()[k] == (v, w));
                }
                Ok(w)
            },
            Err(_) => Err(GraphError::InvariantViolated),
        }
    }
}

impl<VW: Copy, EW: Copy> AddEdge for ReflexiveGraph<VW, EW> {
    /// Loops are refused: each vertex already has its one loop.
    open spec fn edge_addable(&self, source: u64, sink: u64) -> bool {
        source != sink
    }

    /// Loops are refused: each vertex already has its one loop.
    fn add_edge_weighted(&mut self, source: u64, sink: u64, w: EW) -> (r: Result<(), GraphError>)
        ensures
            has_vertex(old(self).vertices(), source) && has_vertex(old(self).vertices(), sink)
                ==> (r is Ok <==> source != sink),
    {
        assert(old(self).edge_addable(source, sink) == (source != sink));
        if !self.graph.edge_valid(source, sink) {
            return Err(GraphError::InvalidEndpoint);
        }
        if source == sink {
            return Err(GraphError::InvariantViolated);
        }
        let ghost before = self.state();
        let r = self.graph.add_edge_weighted(source, sink, w);
        proof {
            let es = before.edges.push((source, sink, w));
            assert(es.drop_last() == before.edges);
        }
        r
    }
}

impl<VW: Copy, EW: Copy> RemoveEdge for ReflexiveGraph<VW, EW> {
    /// Loops are kept.
    open spec fn edge_removable(&self, source: u64, sink: u64) -> bool {
        source != sink
    }

    /// Finds the first edge that `f` accepts; removes it unless it is a loop,
    /// which is refused with `InvariantViolated`.
    fn remove_edge_where<F: Fn((u64, u64, &EW)) -> bool>(&mut self, f: F) -> (r: Result<
        (u64, u64, EW),
        GraphError,
    >)
        ensures
            r matches Ok(e) ==> e.0 != e.1,
            r is Err ==> final(self).store() == old(self).store(),
            r == Err::<(u64, u64, EW), GraphError>(GraphError::InvariantViolated) ==> exists|p: int|
                0 <= p < old(self).edges().len() && accepts(f, #[trigger] old(self).edges()[p], true)
                    && old(self).edges()[p].0 == old(self).edges()[p].1,
    {
        let es = self.graph.all_edges();
        let p = match first_accepted(&es, f) {
            Some(p) => p,
            None => return Err(GraphError::NotFound),
        };
        let e = es[p];
        if e.0 == e.1 {
            assert(old(self).edges()[p as int] == e);
            return Err(GraphError::InvariantViolated);
        }
        let ghost before = self.state();
        let taken = self.graph.take_edge_at(p);
        proof {
            assert(before.edges[p as int] == e);
            assert(old(self).edges()[p as int] == e);
            assert(old(self).edges().contains(e));
            assert forall|i: int| 0 <= i < before.vertices.len() implies between(
                self.state().edges,
                (#[trigger] before.vertices[i]).0,
                before.vertices[i].0,
                before.directed,
            ).len() == 1 by {
                lemma_between_remove(before.edges, p as int, before.vertices[i].0, before.directed);
            }
        }
        Ok(taken)
    }

    /// Loops are kept: removing one is refused.
    fn remove_edge(&mut self, source: u64, sink: u64) -> (r: Result<EW, GraphError>)
        ensures
            source == sink ==> r is Err,
            source != sink ==> (r is Ok <==> exists|i: int|
                0 <= i < old(self).edges().len() && connects(
                    (#[trigger] old(self).edges()[i]).0,
                    old(self).edges()[i].1,
                    source,
                    sink,
                    old(self).directed(),
                )),
    {
        assert(old(self).edge_removable(source, sink) == (source != sink));
        if source == sink {
            if let Some(p) = self.graph.edge_position(source, sink) {
                assert(old(self).edges()[p as int] == self.graph.edges()[p as int]);
                return Err(GraphError::InvariantViolated);
            }
            proof {
                assert forall|i: int| 0 <= i < old(self).edges().len() implies !connects(
                    (#[trigger] old(self).edges()[i]).0,
                    old(self).edges()[i].1,
                    source,
                    sink,
                    old(self).directed(),
                ) by {
                    assert(old(self).edges()[i] == self.graph.edges()[i]);
                }
            }
            return Err(GraphError::NotFound);
        }
        let ghost before = self.state();
        let r = self.graph.remove_edge(source, sink);
        proof {
            assert(old(self).vertices() == before.vertices);
            assert(old(self).edges() == before.edges);
            if r is Ok {
                let p = choose|p: int|
                    0 <= p < before.edges.len() && connects(
                        (#[trigger] before.edges[p]).0,
                        before.edges[p].1,
                        source,
                        sink,
                        before.directed,
                    ) && self.state().edges == before.edges.remove(p);
                assert forall|i: int| 0 <= i < before.vertices.len() implies between(
                    self.state().edges,
                    (#[trigger] before.vertices[i]).0,
                    before.vertices[i].0,
                    before.directed,
                ).len() == 1 by {
                    lemma_between_remove(before.edges, p, before.vertices[i].0, before.directed);
                }
            }
        }
        r
    }
}

} // verus!
