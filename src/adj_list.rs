//! A plain backing store: vertices and edges kept in insertion order.
use vstd::prelude::*;
use crate::graph::{
    connects, edges_valid, has_vertex, ids_unique, without_vertex, Directedness, Graph, GraphError,
};
use crate::property::{
    accepts, first_accepted, AddEdge, GraphMut, NewVertex, RemoveEdge, RemoveVertex,
};

verus! {

/// Every edge kept by `without_vertex` is an edge of `es` that avoids `v`.
pub proof fn lemma_without_vertex_kept<W>(es: Seq<(u64, u64, W)>, v: u64)
    ensures
        without_vertex(es, v).len() <= es.len(),
        forall|k: int|
            0 <= k < without_vertex(es, v).len() ==> {
                let e = #[trigger] without_vertex(es, v)[k];
                e.0 != v && e.1 != v && es.contains(e)
            },
    decreases es.len(),
{
    if es.len() > 0 {
        lemma_without_vertex_kept(es.drop_last(), v);
        let r = without_vertex(es.drop_last(), v);
        assert forall|k: int| 0 <= k < r.len() implies es.contains(#[trigger] r[k]) by {
            assert(es.drop_last().contains(r[k]));
            let j = choose|j: int| 0 <= j < es.drop_last().len() && es.drop_last()[j] == r[k];
            assert(es[j] == r[k]);
        }
        assert(es[es.len() - 1] == es.last());
    }
}

/// A vertex other than the removed one survives the removal of an entry.
pub proof fn lemma_has_vertex_remove<V>(vs: Seq<(u64, V)>, p: int, x: u64)
    requires
        0 <= p < vs.len(),
        has_vertex(vs, x),
        vs[p].0 != x,
    ensures
        has_vertex(vs.remove(p), x),
{
    let i = choose|i: int| 0 <= i < vs.len() && (#[trigger] vs[i]).0 == x;
    if i < p {
        assert(vs.remove(p)[i] == vs[i]);
    } else {
        assert(vs.remove(p)[i - 1] == vs[i]);
    }
}

/// A graph stored as a sequence of weighted vertices and a sequence of
/// weighted edges. Identifiers are handed out in increasing order.
pub struct AdjListGraph<VW, EW> {
    directedness: Directedness,
    vertices: Vec<(u64, VW)>,
    edges: Vec<(u64, u64, EW)>,
    next_id: u64,
}

/// Everything a graph's enumeration and later identifier choice depend on.
pub struct GraphState<VW, EW> {
    pub directed: bool,
    pub vertices: Seq<(u64, VW)>,
    pub edges: Seq<(u64, u64, EW)>,
    pub next_id: u64,
}

/// The identifier counter after `v` is taken: one past `v`, saturating.
pub open spec fn bump(next: u64, v: u64) -> u64 {
    if v < next {
        next
    } else if v == u64::MAX {
        u64::MAX
    } else {
        (v + 1) as u64
    }
}

/// Consistency of a stored graph: unique identifiers, edges between existing
/// vertices, and every identifier below the counter unless it is exhausted.
pub open spec fn state_wf<VW, EW>(s: GraphState<VW, EW>) -> bool {
    &&& ids_unique(s.vertices)
    &&& edges_valid(s.vertices, s.edges)
    &&& forall|i: int|
        0 <= i < s.vertices.len() ==> (#[trigger] s.vertices[i]).0 < s.next_id || s.next_id
            == u64::MAX
}

impl<VW: Copy, EW: Copy> AdjListGraph<VW, EW> {
    /// The full state of the graph.
    pub closed spec fn state(&self) -> GraphState<VW, EW> {
        GraphState {
            directed: self.directedness == Directedness::Directed,
            vertices: self.vertices@,
            edges: self.edges@,
            next_id: self.next_id,
        }
    }

    /// The identifier the next new vertex would get.
    pub open spec fn next_free(&self) -> u64 {
        self.state().next_id
    }

    /// The identifier the next new vertex would get.
    pub fn next_free_id(&self) -> (r: u64)
        ensures
            r == self.next_free(),
    {
        self.next_id
    }

    /// An empty graph of the given directedness.
    pub fn empty(d: Directedness) -> (r: Self)
        ensures
            r.well_formed(),
            r.directed() == (d == Directedness::Directed),
            r.vertices() == Seq::<(u64, VW)>::empty(),
            r.edges() == Seq::<(u64, u64, EW)>::empty(),
            r.next_free() == 0,
    {
        AdjListGraph { directedness: d, vertices: Vec::new(), edges: Vec::new(), next_id: 0 }
    }

    /// A graph whose vertex `i` has identifier `i` and weight `weights[i]`,
    /// with an edge for each (source index, sink index, weight) of `edges`.
    /// Returns `None` when an edge names an index out of range.
    pub fn new(d: Directedness, weights: Vec<VW>, edges: Vec<(usize, usize, EW)>) -> (r: Option<
        Self,
    >)
        requires
            weights@.len() < u64::MAX,
        ensures
            r is Some <==> forall|k: int|
                0 <= k < edges@.len() ==> (#[trigger] edges@[k]).0 < weights@.len() && edges@[k].1
                    < weights@.len(),
            r matches Some(g) ==> {
                &&& g.well_formed()
                &&& g.directed() == (d == Directedness::Directed)
                &&& g.vertices().len() == weights@.len()
                &&& forall|i: int|
                    0 <= i < weights@.len() ==> #[trigger] g.vertices()[i] == (i as u64, weights@[i])
                &&& g.edges().len() == edges@.len()
                &&& forall|k: int|
                    0 <= k < edges@.len() ==> #[trigger] g.edges()[k] == (
                        edges@[k].0 as u64,
                        edges@[k].1 as u64,
                        edges@[k].2,
                    )
            },
    {
        let n = weights.len();
        let mut k: usize = 0;
        while k < edges.len()
            invariant
                k <= edges@.len(),
                n == weights@.len(),
                forall|j: int|
                    0 <= j < k ==> (#[trigger] edges@[j]).0 < n && edges@[j].1 < n,
            decreases edges@.len() - k,
        {
            if edges[k].0 >= n || edges[k].1 >= n {
                return None;
            }
            k = k + 1;
        }
        let mut vs: Vec<(u64, VW)> = Vec::new();
        let mut i: usize = 0;
        while i < n
            invariant
                i <= n,
                n == weights@.len(),
                n < u64::MAX,
                vs@.len() == i,
                forall|j: int| 0 <= j < i ==> #[trigger] vs@[j] == (j as u64, weights@[j]),
            decreases n - i,
        {
            vs.push((i as u64, weights[i]));
            i = i + 1;
        }
        let mut es: Vec<(u64, u64, EW)> = Vec::new();
        let mut k: usize = 0;
        while k < edges.len()
            invariant
                k <= edges@.len(),
                es@.len() == k,
                forall|j: int|
                    0 <= j < k ==> #[trigger] es@[j] == (
                        edges@[j].0 as u64,
                        edges@[j].1 as u64,
                        edges@[j].2,
                    ),
            decreases edges@.len() - k,
        {
            es.push((edges[k].0 as u64, edges[k].1 as u64, edges[k].2));
            k = k + 1;
        }
        let g = AdjListGraph { directedness: d, vertices: vs, edges: es, next_id: n as u64 };
        assert forall|j: int| 0 <= j < es@.len() implies has_vertex(vs@, (#[trigger] es@[j]).0)
            && has_vertex(vs@, es@[j].1) by {
            let a = edges@[j].0 as int;
            let b = edges@[j].1 as int;
            assert(vs@[a].0 == es@[j].0);
            assert(vs@[b].0 == es@[j].1);
        }
        Some(g)
    }

    /// The position of vertex `v` in the enumeration, if present.
    pub fn vertex_position(&self, v: u64) -> (r: Option<usize>)
        requires
            self.well_formed(),
        ensures
            r is Some <==> has_vertex(self.vertices(), v),
            r matches Some(p) ==> p < self.vertices().len() && self.vertices()[p as int].0 == v,
    {
        let mut i: usize = 0;
        while i < self.vertices.len()
            invariant
                i <= self.vertices@.len(),
                forall|j: int| 0 <= j < i ==> (#[trigger] self.vertices@[j]).0 != v,
            decreases self.vertices@.len() - i,
        {
            if self.vertices[i].0 == v {
                return Some(i);
            }
            i = i + 1;
        }
        None
    }

    /// The position of the first edge connecting `source` to `sink`, if any.
    pub fn edge_position(&self, source: u64, sink: u64) -> (r: Option<usize>)
        ensures
            r is Some <==> exists|i: int|
                0 <= i < self.edges().len() && connects(
                    (#[trigger] self.edges()[i]).0,
                    self.edges()[i].1,
                    source,
                    sink,
                    self.directed(),
                ),
            r matches Some(p) ==> p < self.edges().len() && connects(
                self.edges()[p as int].0,
                self.edges()[p as int].1,
                source,
                sink,
                self.directed(),
            ) && forall|j: int|
                0 <= j < p ==> !connects(
                    (#[trigger] self.edges()[j]).0,
                    self.edges()[j].1,
                    source,
                    sink,
                    self.directed(),
                ),
    {
        let directed = self.directedness == Directedness::Directed;
        let mut i: usize = 0;
        while i < self.edges.len()
            invariant
                i <= self.edges@.len(),
                directed == self.directed(),
                forall|j: int|
                    0 <= j < i ==> !connects(
                        (#[trigger] self.edges@[j]).0,
                        self.edges@[j].1,
                        source,
                        sink,
                        directed,
                    ),
            decreases self.edges@.len() - i,
        {
            let e = &self.edges[i];
            if (e.0 == source && e.1 == sink) || (!directed && e.0 == sink && e.1 == source) {
                assert(connects(self.edges()[i as int].0, self.edges()[i as int].1, source, sink, directed));
                return Some(i);
            }
            i = i + 1;
        }
        None
    }

    /// Adds vertex `v` with weight `w` under that very identifier. Fails with
    /// `InvariantViolated`, changing nothing, when `v` is already a vertex.
    pub fn add_vertex(&mut self, v: u64, w: VW) -> (r: Result<(), GraphError>)
        requires
            old(self).well_formed(),
        ensures
            final(self).well_formed(),
            r is Ok <==> !has_vertex(old(self).vertices(), v),
            r is Ok ==> final(self).state() == (GraphState {
                vertices: old(self).vertices().push((v, w)),
                next_id: bump(old(self).next_free(), v),
                ..old(self).state()
            }),
            r is Err ==> r == Err::<(), GraphError>(GraphError::InvariantViolated) && final(self).state() == old(self).state(),
    {
        if self.vertex_position(v).is_some() {
            return Err(GraphError::InvariantViolated);
        }
        self.vertices.push((v, w));
        self.next_id = if v < self.next_id {
            self.next_id
        } else if v == u64::MAX {
            u64::MAX
        } else {
            v + 1
        };
        assert forall|k: int| 0 <= k < self.edges@.len() implies has_vertex(
            self.vertices@,
            (#[trigger] self.edges@[k]).0,
        ) && has_vertex(self.vertices@, self.edges@[k].1) by {
            let a = choose|i: int|
                0 <= i < old(self).vertices@.len() && (#[trigger] old(self).vertices@[i]).0
                    == self.edges@[k].0;
            assert(self.vertices@[a] == old(self).vertices@[a]);
            let b = choose|i: int|
                0 <= i < old(self).vertices@.len() && (#[trigger] old(self).vertices@[i]).0
                    == self.edges@[k].1;
            assert(self.vertices@[b] == old(self).vertices@[b]);
        }
        Ok(())
    }

    /// Removes the first edge connecting `source` to `sink` whose weight `f`
    /// accepts, and returns that weight. Fails with `NotFound`, changing
    /// nothing, when `f` accepts none of the connecting edges.
    pub fn remove_edge_where_weight<F: Fn(&EW) -> bool>(&mut self, source: u64, sink: u64, f: F) -> (r:
        Result<EW, GraphError>)
        requires
            old(self).well_formed(),
            forall|w: EW| f.requires((&w,)),
        ensures
            final(self).well_formed(),
            final(self).directed() == old(self).directed(),
            final(self).vertices() == old(self).vertices(),
            final(self).next_free() == old(self).next_free(),
            match r {
                Ok(w) => exists|p: int|
                    0 <= p < old(self).edges().len() && connects(
                        (#[trigger] old(self).edges()[p]).0,
                        old(self).edges()[p].1,
                        source,
                        sink,
                        old(self).directed(),
                    ) && old(self).edges()[p].2 == w && f.ensures((&old(self).edges()[p].2,), true)
                        && final(self).edges() == old(self).edges().remove(p),
                Err(e) => e == GraphError::NotFound && final(self).edges() == old(self).edges()
                    && forall|i: int|
                    0 <= i < old(self).edges().len() && connects(
                        (#[trigger] old(self).edges()[i]).0,
                        old(self).edges()[i].1,
                        source,
                        sink,
                        old(self).directed(),
                    ) ==> f.ensures((&old(self).edges()[i].2,), false),
            },
    {
        let directed = self.directedness == Directedness::Directed;
        let mut i: usize = 0;
        while i < self.edges.len()
            invariant
                self.state() == old(self).state(),
                old(self).well_formed(),
                forall|w: EW| f.requires((&w,)),
                i <= self.edges@.len(),
                directed == self.directed(),
                forall|j: int|
                    0 <= j < i && connects(
                        (#[trigger] self.edges()[j]).0,
                        self.edges()[j].1,
                        source,
                        sink,
                        directed,
                    ) ==> f.ensures((&self.edges()[j].2,), false),
            decreases self.edges@.len() - i,
        {
            let e = self.edges[i];
            if (e.0 == source && e.1 == sink) || (!directed && e.0 == sink && e.1 == source) {
                if f(&e.2) {
                    assert(old(self).edges()[i as int] == e);
                    assert(connects(old(self).edges()[i as int].0, old(self).edges()[i as int].1, source, sink, directed));
                    assert(f.ensures((&old(self).edges()[i as int].2,), true));
                    let taken = self.take_edge_at(i);
                    return Ok(taken.2);
                }
            }
            i = i + 1;
        }
        proof {
            assert forall|j: int|
                0 <= j < old(self).edges().len() && connects(
                    (#[trigger] old(self).edges()[j]).0,
                    old(self).edges()[j].1,
                    source,
                    sink,
                    old(self).directed(),
                ) implies f.ensures((&old(self).edges()[j].2,), false) by {
                assert(old(self).edges()[j] == self.edges()[j]);
            }
        }
        Err(GraphError::NotFound)
    }

    /// Removes the edge at position `p` and returns it.
    pub(crate) fn take_edge_at(&mut self, p: usize) -> (r: (u64, u64, EW))
        requires
            old(self).well_formed(),
            p < old(self).edges().len(),
        ensures
            final(self).well_formed(),
            r == old(self).edges()[p as int],
            final(self).state() == (GraphState {
                edges: old(self).edges().remove(p as int),
                ..old(self).state()
            }),
    {
        self.edges.remove(p)
    }

    /// Takes back the last vertex added, restoring the identifier counter.
    pub(crate) fn undo_vertex_added(&mut self, next_id: u64)
        requires
            old(self).vertices().len() > 0,
        ensures
            final(self).state() == (GraphState {
                vertices: old(self).vertices().drop_last(),
                next_id,
                ..old(self).state()
            }),
    {
        self.vertices.pop();
        self.next_id = next_id;
    }

    /// Takes back the last edge added.
    pub(crate) fn undo_edge_added(&mut self)
        requires
            old(self).edges().len() > 0,
        ensures
            final(self).state() == (GraphState {
                edges: old(self).edges().drop_last(),
                ..old(self).state()
            }),
    {
        self.edges.pop();
    }

    /// Puts a removed edge back at position `p`.
    pub(crate) fn undo_edge_removed(&mut self, p: usize, e: (u64, u64, EW))
        requires
            p <= old(self).edges().len(),
        ensures
            final(self).state() == (GraphState {
                edges: old(self).edges().insert(p as int, e),
                ..old(self).state()
            }),
    {
        self.edges.insert(p, e);
    }

    /// Puts a removed vertex back at position `p` and restores the edges as
    /// they were before its removal.
    pub(crate) fn undo_vertex_removed(
        &mut self,
        p: usize,
        vertex: (u64, VW),
        edges: Vec<(u64, u64, EW)>,
    )
        requires
            p <= old(self).vertices().len(),
        ensures
            final(self).state() == (GraphState {
                vertices: old(self).vertices().insert(p as int, vertex),
                edges: edges@,
                ..old(self).state()
            }),
    {
        self.vertices.insert(p, vertex);
        self.edges = edges;
    }
}

impl<VW: Copy, EW: Copy> Graph for AdjListGraph<VW, EW> {
    type VertexWeight = VW;

    type EdgeWeight = EW;

    open spec fn directed(&self) -> bool {
        self.state().directed
    }

    open spec fn well_formed(&self) -> bool {
        state_wf(self.state())
    }

    open spec fn vertices(&self) -> Seq<(u64, VW)> {
        self.state().vertices
    }

    open spec fn edges(&self) -> Seq<(u64, u64, EW)> {
        self.state().edges
    }

    proof fn lemma_wf(&self) {
    }

    fn is_directed(&self) -> (r: bool) {
        self.directedness == Directedness::Directed
    }

    fn all_vertices_weighted(&self) -> (r: Vec<(u64, VW)>) {
        let mut r: Vec<(u64, VW)> = Vec::new();
        let mut i: usize = 0;
        while i < self.vertices.len()
            invariant
                i <= self.vertices@.len(),
                r@ == self.vertices@.take(i as int),
            decreases self.vertices@.len() - i,
        {
            r.push(self.vertices[i]);
            i = i + 1;
        }
        assert(self.vertices@.take(self.vertices@.len() as int) == self.vertices@);
        r
    }

    fn all_edges(&self) -> (r: Vec<(u64, u64, EW)>) {
        let mut r: Vec<(u64, u64, EW)> = Vec::new();
        let mut i: usize = 0;
        while i < self.edges.len()
            invariant
                i <= self.edges@.len(),
                r@ == self.edges@.take(i as int),
            decreases self.edges@.len() - i,
        {
            r.push(self.edges[i]);
            i = i + 1;
        }
        assert(self.edges@.take(self.edges@.len() as int) == self.edges@);
        r
    }
}

impl<VW: Copy, EW: Copy> NewVertex for AdjListGraph<VW, EW> {
    open spec fn exhausted(&self) -> bool {
        self.next_free() == u64::MAX
    }

    fn new_vertex_weighted(&mut self, w: VW) -> (r: Result<u64, GraphError>)
        ensures
            r is Err <==> old(self).next_free() == u64::MAX,
            r matches Ok(v) ==> v == old(self).next_free(),
    {
        assert(old(self).exhausted() == (old(self).next_free() == u64::MAX));
        if self.next_id == u64::MAX {
            return Err(GraphError::Exhausted);
        }
        let v = self.next_id;
        let r = self.add_vertex(v, w);
        assert(r is Ok);
        Ok(v)
    }
}

impl<VW: Copy, EW: Copy> RemoveVertex for AdjListGraph<VW, EW> {
    open spec fn vertex_removable(&self, v: u64) -> bool {
        true
    }

    fn remove_vertex(&mut self, v: u64) -> (r: Result<VW, GraphError>)
        ensures
            r is Ok <==> has_vertex(old(self).vertices(), v),
            r is Ok ==> final(self).next_free() == old(self).next_free(),
    {
        assert(old(self).vertex_removable(v));
        let p = match self.vertex_position(v) {
            Some(p) => p,
            None => return Err(GraphError::NotFound),
        };
        let ghost old_vs = self.vertices@;
        let ghost old_es = self.edges@;
        let (_, w) = self.vertices.remove(p);
        let mut kept: Vec<(u64, u64, EW)> = Vec::new();
        let mut k: usize = 0;
        while k < self.edges.len()
            invariant
                k <= self.edges@.len(),
                self.edges@ == old_es,
                kept@ == without_vertex(self.edges@.take(k as int), v),
            decreases self.edges@.len() - k,
        {
            let e = self.edges[k];
            assert(self.edges@.take(k + 1).drop_last() == self.edges@.take(k as int));
            if e.0 != v && e.1 != v {
                kept.push(e);
            }
            k = k + 1;
        }
        assert(self.edges@.take(self.edges@.len() as int) == old_es);
        self.edges = kept;
        proof {
            lemma_without_vertex_kept(old_es, v);
            assert forall|k: int| 0 <= k < self.edges@.len() implies has_vertex(
                self.vertices@,
                (#[trigger] self.edges@[k]).0,
            ) && has_vertex(self.vertices@, self.edges@[k].1) by {
                let e = self.edges@[k];
                let j = choose|j: int| 0 <= j < old_es.len() && old_es[j] == e;
                assert(old_es[j] == e);
                lemma_has_vertex_remove(old_vs, p as int, e.0);
                lemma_has_vertex_remove(old_vs, p as int, e.1);
            }
            assert forall|i: int, j: int| 0 <= i < j < self.vertices@.len() implies (
            #[trigger] self.vertices@[i]).0 != (#[trigger] self.vertices@[j]).0 by {
                let a = if i < p { i } else { i + 1 };
                let b = if j < p { j } else { j + 1 };
                assert(self.vertices@[i] == old_vs[a]);
                assert(self.vertices@[j] == old_vs[b]);
            }
            assert forall|i: int| 0 <= i < self.vertices@.len() implies (
            #[trigger] self.vertices@[i]).0 < self.next_id || self.next_id == u64::MAX by {
                let a = if i < p { i } else { i + 1 };
                assert(self.vertices@[i] == old_vs[a]);
            }
            assert(old_vs[p as int] == (v, w));
        }
        Ok(w)
    }
}

impl<VW: Copy, EW: Copy> AddEdge for AdjListGraph<VW, EW> {
    open spec fn edge_addable(&self, source: u64, sink: u64) -> bool {
        true
    }

    fn add_edge(&mut self, source: u64, sink: u64) -> (r: Result<(), GraphError>)
        where
            EW: Default,
        ensures
            has_vertex(old(self).vertices(), source) && has_vertex(old(self).vertices(), sink)
                ==> r is Ok,
            r is Err ==> final(self).state() == old(self).state(),
            final(self).next_free() == old(self).next_free(),
    {
        let w = EW::default();
        self.add_edge_weighted(source, sink, w)
    }

    fn add_edge_weighted(&mut self, source: u64, sink: u64, w: EW) -> (r: Result<(), GraphError>)
        ensures
            has_vertex(old(self).vertices(), source) && has_vertex(old(self).vertices(), sink)
                ==> r is Ok,
            final(self).next_free() == old(self).next_free(),
    {
        assert(old(self).edge_addable(source, sink));
        if !self.edge_valid(source, sink) {
            return Err(GraphError::InvalidEndpoint);
        }
        self.edges.push((source, sink, w));
        Ok(())
    }
}

impl<VW: Copy, EW: Copy> RemoveEdge for AdjListGraph<VW, EW> {
    open spec fn edge_removable(&self, source: u64, sink: u64) -> bool {
        true
    }

    /// Removes the first edge that `f` accepts.
    fn remove_edge_where<F: Fn((u64, u64, &EW)) -> bool>(&mut self, f: F) -> (r: Result<
        (u64, u64, EW),
        GraphError,
    >)
        ensures
            r is Err ==> r == Err::<(u64, u64, EW), GraphError>(GraphError::NotFound) && final(self).state()
                == old(self).state(),
            r is Ok ==> final(self).next_free() == old(self).next_free(),
            r matches Ok(e) ==> exists|p: int|
                0 <= p < old(self).edges().len() && #[trigger] old(self).edges()[p] == e && final(self).edges() == old(self).edges().remove(p) && forall|j: int|
                    0 <= j < p ==> accepts(f, #[trigger] old(self).edges()[j], false),
    {
        match first_accepted(&self.edges, f) {
            None => Err(GraphError::NotFound),
            Some(p) => {
                let e = self.take_edge_at(p);
                assert(old(self).edges()[p as int] == e);
                Ok(e)
            },
        }
    }

    fn remove_edge(&mut self, source: u64, sink: u64) -> (r: Result<EW, GraphError>)
        ensures
            final(self).next_free() == old(self).next_free(),
            r is Ok <==> exists|i: int|
                0 <= i < old(self).edges().len() && connects(
                    (#[trigger] old(self).edges()[i]).0,
                    old(self).edges()[i].1,
                    source,
                    sink,
                    old(self).directed(),
                ),
            r is Ok ==> exists|p: int|
                0 <= p < old(self).edges().len() && connects(
                    (#[trigger] old(self).edges()[p]).0,
                    old(self).edges()[p].1,
                    source,
                    sink,
                    old(self).directed(),
                ) && final(self).edges() == old(self).edges().remove(p) && forall|j: int|
                    0 <= j < p ==> !connects(
                        (#[trigger] old(self).edges()[j]).0,
                        old(self).edges()[j].1,
                        source,
                        sink,
                        old(self).directed(),
                    ),
    {
        assert(old(self).edge_removable(source, sink));
        match self.edge_position(source, sink) {
            Some(p) => {
                let e = self.take_edge_at(p);
                Ok(e.2)
            },
            None => Err(GraphError::NotFound),
        }
    }
}

impl<VW: Copy, EW: Copy> GraphMut for AdjListGraph<VW, EW> {
    fn set_vertex_weight(&mut self, v: u64, w: VW) -> (r: Result<VW, GraphError>)
        ensures
            final(self).next_free() == old(self).next_free(),
    {
        match self.vertex_position(v) {
            None => Err(GraphError::NotFound),
            Some(p) => {
                let u = self.vertices[p].1;
                self.vertices.set(p, (v, w));
                proof {
                    let vs0 = old(self).vertices@;
                    assert forall|i: int, j: int| 0 <= i < j < self.vertices@.len() implies (
                    #[trigger] self.vertices@[i]).0 != (#[trigger] self.vertices@[j]).0 by {
                        assert(self.vertices@[i].0 == vs0[i].0 && self.vertices@[j].0 == vs0[j].0);
                    }
                    assert forall|i: int| 0 <= i < self.vertices@.len() implies (
                    #[trigger] self.vertices@[i]).0 < self.next_id || self.next_id == u64::MAX by {
                        assert(self.vertices@[i].0 == vs0[i].0);
                    }
                    assert forall|k: int| 0 <= k < self.edges@.len() implies has_vertex(
                        self.vertices@,
                        (#[trigger] self.edges@[k]).0,
                    ) && has_vertex(self.vertices@, self.edges@[k].1) by {
                        let a = choose|i: int| 0 <= i < vs0.len() && (#[trigger] vs0[i]).0 == self.edges@[k].0;
                        assert(self.vertices@[a].0 == vs0[a].0);
                        let b = choose|i: int| 0 <= i < vs0.len() && (#[trigger] vs0[i]).0 == self.edges@[k].1;
                        assert(self.vertices@[b].0 == vs0[b].0);
                    }
                    assert(old(self).vertices()[p as int] == (v, u));
                }
                Ok(u)
            },
        }
    }

    fn set_edge_weight(&mut self, source: u64, sink: u64, w: EW) -> (r: Result<EW, GraphError>)
        ensures
            final(self).next_free() == old(self).next_free(),
    {
        match self.edge_position(source, sink) {
            None => Err(GraphError::NotFound),
            Some(p) => {
                let e = self.edges[p];
                self.edges.set(p, (e.0, e.1, w));
                proof {
                    let es0 = old(self).edges@;
                    assert forall|k: int| 0 <= k < self.edges@.len() implies has_vertex(
                        self.vertices@,
                        (#[trigger] self.edges@[k]).0,
                    ) && has_vertex(self.vertices@, self.edges@[k].1) by {
                        assert(self.edges@[k].0 == es0[k].0 && self.edges@[k].1 == es0[k].1);
                    }
                    assert(old(self).edges()[p as int] == e);
                }
                Ok(e.2)
            },
        }
    }
}

} // verus!
