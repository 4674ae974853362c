//! The read-only graph contract and the queries derived from it.
use vstd::prelude::*;

verus! {

/// Whether the order of an edge's endpoints matters.
#[derive(Clone, Copy, Debug, PartialEq, Eq, Structural)]
pub enum Directedness {
    Directed,
    Undirected,
}

/// The weight of an edge that carries none.
#[derive(Clone, Copy, Debug, PartialEq, Eq, Structural)]
pub struct Unweighted;

/// The ways a graph operation can fail.
#[derive(Clone, Copy, Debug, PartialEq, Eq, Structural)]
pub enum GraphError {
    NotFound,
    InvalidEndpoint,
    InvariantViolated,
    Exhausted,
}

/// Whether an edge from `s` to `t` connects `a` to `b`: in that order, or
/// either way round when the graph is undirected.
pub open spec fn connects(s: u64, t: u64, a: u64, b: u64, directed: bool) -> bool {
    (s == a && t == b) || (!directed && s == b && t == a)
}

/// Whether some entry of `vs` has identifier `v`.
pub open spec fn has_vertex<W>(vs: Seq<(u64, W)>, v: u64) -> bool {
    exists|i: int| 0 <= i < vs.len() && (#[trigger] vs[i]).0 == v
}

/// The weights of the edges of `es` that connect `a` to `b`, in order.
pub open spec fn between<W>(es: Seq<(u64, u64, W)>, a: u64, b: u64, directed: bool) -> Seq<W>
    decreases es.len(),
{
    if es.len() == 0 {
        Seq::empty()
    } else {
        let rest = between(es.drop_last(), a, b, directed);
        let e = es.last();
        if connects(e.0, e.1, a, b, directed) {
            rest.push(e.2)
        } else {
            rest
        }
    }
}

/// The edges of `es` sourced in `v`, as (sink, weight); when undirected, an
/// edge sinked in `v` counts too, with its source as the other end.
pub open spec fn sourced_in<W>(es: Seq<(u64, u64, W)>, v: u64, directed: bool) -> Seq<(u64, W)>
    decreases es.len(),
{
    if es.len() == 0 {
        Seq::empty()
    } else {
        let rest = sourced_in(es.drop_last(), v, directed);
        let e = es.last();
        if e.0 == v {
            rest.push((e.1, e.2))
        } else if !directed && e.1 == v {
            rest.push((e.0, e.2))
        } else {
            rest
        }
    }
}

/// The edges of `es` sinked in `v`, as (source, weight); when undirected, an
/// edge sourced in `v` counts too, with its sink as the other end.
pub open spec fn sinked_in<W>(es: Seq<(u64, u64, W)>, v: u64, directed: bool) -> Seq<(u64, W)>
    decreases es.len(),
{
    if es.len() == 0 {
        Seq::empty()
    } else {
        let rest = sinked_in(es.drop_last(), v, directed);
        let e = es.last();
        if e.1 == v {
            rest.push((e.0, e.2))
        } else if !directed && e.0 == v {
            rest.push((e.1, e.2))
        } else {
            rest
        }
    }
}

/// The edges of `es` touching `v` at either end, as (other end, weight).
pub open spec fn incident_on<W>(es: Seq<(u64, u64, W)>, v: u64) -> Seq<(u64, W)>
    decreases es.len(),
{
    if es.len() == 0 {
        Seq::empty()
    } else {
        let rest = incident_on(es.drop_last(), v);
        let e = es.last();
        if e.0 == v {
            rest.push((e.1, e.2))
        } else if e.1 == v {
            rest.push((e.0, e.2))
        } else {
            rest
        }
    }
}

/// The edges of `es` that touch neither end at `v`, in order.
pub open spec fn without_vertex<W>(es: Seq<(u64, u64, W)>, v: u64) -> Seq<(u64, u64, W)>
    decreases es.len(),
{
    if es.len() == 0 {
        Seq::empty()
    } else {
        let rest = without_vertex(es.drop_last(), v);
        let e = es.last();
        if e.0 != v && e.1 != v {
            rest.push(e)
        } else {
            rest
        }
    }
}

/// Every edge of `es` has both endpoints among the vertices `vs`.
pub open spec fn edges_valid<V, W>(vs: Seq<(u64, V)>, es: Seq<(u64, u64, W)>) -> bool {
    forall|k: int| 0 <= k < es.len() ==> has_vertex(vs, (#[trigger] es[k]).0) && has_vertex(vs, es[k].1)
}

/// No two entries of `vs` share an identifier.
pub open spec fn ids_unique<V>(vs: Seq<(u64, V)>) -> bool {
    forall|i: int, j: int| 0 <= i < j < vs.len() ==> (#[trigger] vs[i]).0 != (#[trigger] vs[j]).0
}

/// In an undirected graph the edges between `a` and `b` are those between
/// `b` and `a`, weight for weight and in the same order.
pub proof fn lemma_undirected_symmetry<W>(es: Seq<(u64, u64, W)>, a: u64, b: u64)
    ensures
        between(es, a, b, false) == between(es, b, a, false),
    decreases es.len(),
{
    if es.len() > 0 {
        lemma_undirected_symmetry(es.drop_last(), a, b);
    }
}

/// After the edges touching `v` are dropped none of the rest touches `v`,
/// and exactly as many edges are gone as were incident on `v`.
pub proof fn lemma_remove_vertex_cascade<W>(es: Seq<(u64, u64, W)>, v: u64)
    ensures
        forall|k: int|
            0 <= k < without_vertex(es, v).len() ==> (#[trigger] without_vertex(es, v)[k]).0 != v
                && without_vertex(es, v)[k].1 != v,
        without_vertex(es, v).len() + incident_on(es, v).len() == es.len(),
    decreases es.len(),
{
    if es.len() > 0 {
        lemma_remove_vertex_cascade(es.drop_last(), v);
        let r = without_vertex(es.drop_last(), v);
        let e = es.last();
        if e.0 != v && e.1 != v {
            assert forall|k: int| 0 <= k < r.len() + 1 implies (#[trigger] r.push(e)[k]).0 != v
                && r.push(e)[k].1 != v by {
                if k < r.len() {
                    assert(r.push(e)[k] == r[k]);
                }
            }
        }
    }
}

/// Read access to a graph whose vertices are identified by `u64` values.
///
/// A graph is modelled by the sequence of its (vertex, weight) pairs and the
/// sequence of its (source, sink, weight) edges; every other query is a filter
/// over these two.
pub trait Graph {
    type VertexWeight: Copy;

    type EdgeWeight: Copy;

    spec fn directed(&self) -> bool;

    /// The internal consistency that mutations rely on and preserve.
    spec fn well_formed(&self) -> bool;

    spec fn vertices(&self) -> Seq<(u64, Self::VertexWeight)>;

    spec fn edges(&self) -> Seq<(u64, u64, Self::EdgeWeight)>;

    /// A well-formed graph has distinct vertex identifiers, and every edge
    /// joins two of its vertices.
    proof fn lemma_wf(&self)
        requires
            self.well_formed(),
        ensures
            ids_unique(self.vertices()),
            edges_valid(self.vertices(), self.edges()),
    ;

    fn is_directed(&self) -> (r: bool)
        ensures
            r == self.directed(),
    ;

    /// Every vertex with its weight.
    fn all_vertices_weighted(&self) -> (r: Vec<(u64, Self::VertexWeight)>)
        ensures
            r@ == self.vertices(),
    ;

    /// Every edge with its weight.
    fn all_edges(&self) -> (r: Vec<(u64, u64, Self::EdgeWeight)>)
        ensures
            r@ == self.edges(),
    ;

    /// Every vertex identifier.
    fn all_vertices(&self) -> (r: Vec<u64>)
        ensures
            r@ == self.vertices().map_values(|p: (u64, Self::VertexWeight)| p.0),
    {
        let vs = self.all_vertices_weighted();
        let mut r: Vec<u64> = Vec::new();
        let mut i: usize = 0;
        while i < vs.len()
            invariant
                i <= vs@.len(),
                vs@ == self.vertices(),
                r@ == vs@.take(i as int).map_values(|p: (u64, Self::VertexWeight)| p.0),
            decreases vs@.len() - i,
        {
            r.push(vs[i].0);
            i = i + 1;
            assert(vs@.take(i as int).drop_last() == vs@.take(i - 1));
        }
        assert(vs@.take(vs@.len() as int) == vs@);
        r
    }

    /// The weight of `v`, if `v` is a vertex.
    fn vertex_weight(&self, v: u64) -> (r: Option<Self::VertexWeight>)
        ensures
            r is Some <==> has_vertex(self.vertices(), v),
            r matches Some(w) ==> exists|i: int|
                0 <= i < self.vertices().len() && #[trigger] self.vertices()[i] == (v, w),
    {
        let vs = self.all_vertices_weighted();
        let mut i: usize = 0;
        while i < vs.len()
            invariant
                i <= vs@.len(),
                vs@ == self.vertices(),
                forall|j: int| 0 <= j < i ==> (#[trigger] vs@[j]).0 != v,
            decreases vs@.len() - i,
        {
            if vs[i].0 == v {
                return Some(vs[i].1);
            }
            i = i + 1;
        }
        None
    }

    /// Whether `v` is a vertex.
    fn contains_vertex(&self, v: u64) -> (r: bool)
        ensures
            r == has_vertex(self.vertices(), v),
    {
        self.vertex_weight(v).is_some()
    }

    /// The weights of the edges that connect `a` to `b`.
    fn edges_between(&self, a: u64, b: u64) -> (r: Vec<Self::EdgeWeight>)
        ensures
            r@ == between(self.edges(), a, b, self.directed()),
    {
        let es = self.all_edges();
        let directed = self.is_directed();
        let mut r: Vec<Self::EdgeWeight> = Vec::new();
        let mut i: usize = 0;
        while i < es.len()
            invariant
                i <= es@.len(),
                es@ == self.edges(),
                directed == self.directed(),
                r@ == between(es@.take(i as int), a, b, directed),
            decreases es@.len() - i,
        {
            let e = es[i];
            assert(es@.take(i + 1).drop_last() == es@.take(i as int));
            if (e.0 == a && e.1 == b) || (!directed && e.0 == b && e.1 == a) {
                r.push(e.2);
            }
            i = i + 1;
        }
        assert(es@.take(es@.len() as int) == es@);
        r
    }

    /// The other end and weight of each edge sourced in `v`.
    fn edges_sourced_in(&self, v: u64) -> (r: Vec<(u64, Self::EdgeWeight)>)
        ensures
            r@ == sourced_in(self.edges(), v, self.directed()),
    {
        let es = self.all_edges();
        let directed = self.is_directed();
        let mut r: Vec<(u64, Self::EdgeWeight)> = Vec::new();
        let mut i: usize = 0;
        while i < es.len()
            invariant
                i <= es@.len(),
                es@ == self.edges(),
                directed == self.directed(),
                r@ == sourced_in(es@.take(i as int), v, directed),
            decreases es@.len() - i,
        {
            let e = es[i];
            assert(es@.take(i + 1).drop_last() == es@.take(i as int));
            if e.0 == v {
                r.push((e.1, e.2));
            } else if !directed && e.1 == v {
                r.push((e.0, e.2));
            }
            i = i + 1;
        }
        assert(es@.take(es@.len() as int) == es@);
        r
    }

    /// The other end and weight of each edge sinked in `v`.
    fn edges_sinked_in(&self, v: u64) -> (r: Vec<(u64, Self::EdgeWeight)>)
        ensures
            r@ == sinked_in(self.edges(), v, self.directed()),
    {
        let es = self.all_edges();
        let directed = self.is_directed();
        let mut r: Vec<(u64, Self::EdgeWeight)> = Vec::new();
        let mut i: usize = 0;
        while i < es.len()
            invariant
                i <= es@.len(),
                es@ == self.edges(),
                directed == self.directed(),
                r@ == sinked_in(es@.take(i as int), v, directed),
            decreases es@.len() - i,
        {
            let e = es[i];
            assert(es@.take(i + 1).drop_last() == es@.take(i as int));
            if e.1 == v {
                r.push((e.0, e.2));
            } else if !directed && e.0 == v {
                r.push((e.1, e.2));
            }
            i = i + 1;
        }
        assert(es@.take(es@.len() as int) == es@);
        r
    }

    /// The other end and weight of each edge touching `v`, whatever its
    /// direction.
    fn edges_incident_on(&self, v: u64) -> (r: Vec<(u64, Self::EdgeWeight)>)
        ensures
            r@ == incident_on(self.edges(), v),
    {
        let es = self.all_edges();
        let mut r: Vec<(u64, Self::EdgeWeight)> = Vec::new();
        let mut i: usize = 0;
        while i < es.len()
            invariant
                i <= es@.len(),
                es@ == self.edges(),
                r@ == incident_on(es@.take(i as int), v),
            decreases es@.len() - i,
        {
            let e = es[i];
            assert(es@.take(i + 1).drop_last() == es@.take(i as int));
            if e.0 == v {
                r.push((e.1, e.2));
            } else if e.1 == v {
                r.push((e.0, e.2));
            }
            i = i + 1;
        }
        assert(es@.take(es@.len() as int) == es@);
        r
    }

    /// The number of vertices.
    fn vertex_count(&self) -> (r: usize)
        ensures
            r == self.vertices().len(),
    {
        self.all_vertices_weighted().len()
    }

    /// The number of edges.
    fn edge_count(&self) -> (r: usize)
        ensures
            r == self.edges().len(),
    {
        self.all_edges().len()
    }

    /// Whether both endpoints of an edge from `s` to `t` are vertices.
    fn edge_valid(&self, s: u64, t: u64) -> (r: bool)
        ensures
            r == (has_vertex(self.vertices(), s) && has_vertex(self.vertices(), t)),
    {
        self.contains_vertex(s) && self.contains_vertex(t)
    }
}

} // verus!
