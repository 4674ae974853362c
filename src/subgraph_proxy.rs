//! A proxy showing the subgraph of an inner graph induced by an allowlist.
use vstd::prelude::*;
use crate::graph::{
    connects, has_vertex, ids_unique, without_vertex, Graph, GraphError,
};
use crate::property::{accepts, callable_on_edges, AddEdge, NewVertex, RemoveEdge, RemoveVertex};

verus! {

/// The entries of `vs` whose identifier is in `s`, in order.
pub open spec fn keep_vertices<V>(vs: Seq<(u64, V)>, s: Seq<u64>) -> Seq<(u64, V)>
    decreases vs.len(),
{
    if vs.len() == 0 {
        Seq::empty()
    } else {
        let rest = keep_vertices(vs.drop_last(), s);
        if s.contains(vs.last().0) {
            rest.push(vs.last())
        } else {
            rest
        }
    }
}

/// The edges of `es` with both endpoints in `s`, in order.
pub open spec fn keep_edges<W>(es: Seq<(u64, u64, W)>, s: Seq<u64>) -> Seq<(u64, u64, W)>
    decreases es.len(),
{
    if es.len() == 0 {
        Seq::empty()
    } else {
        let rest = keep_edges(es.drop_last(), s);
        let e = es.last();
        if s.contains(e.0) && s.contains(e.1) {
            rest.push(e)
        } else {
            rest
        }
    }
}

/// The edges of `es` leaving `s`: source in `s`, sink outside it.
pub open spec fn exits<W>(es: Seq<(u64, u64, W)>, s: Seq<u64>) -> Seq<(u64, u64)>
    decreases es.len(),
{
    if es.len() == 0 {
        Seq::empty()
    } else {
        let rest = exits(es.drop_last(), s);
        let e = es.last();
        if s.contains(e.0) && !s.contains(e.1) {
            rest.push((e.0, e.1))
        } else {
            rest
        }
    }
}

/// The edges of `es` sourced in `v` whose sink is outside `s`.
pub open spec fn leaving_from<W>(es: Seq<(u64, u64, W)>, v: u64, s: Seq<u64>) -> Seq<(u64, u64)>
    decreases es.len(),
{
    if es.len() == 0 {
        Seq::empty()
    } else {
        let rest = leaving_from(es.drop_last(), v, s);
        let e = es.last();
        if e.0 == v && !s.contains(e.1) {
            rest.push((e.0, e.1))
        } else {
            rest
        }
    }
}

/// The pairs of `xs` whose sink is not `v`, in order.
pub open spec fn drop_sink(xs: Seq<(u64, u64)>, v: u64) -> Seq<(u64, u64)>
    decreases xs.len(),
{
    if xs.len() == 0 {
        Seq::empty()
    } else {
        let rest = drop_sink(xs.drop_last(), v);
        if xs.last().1 != v {
            rest.push(xs.last())
        } else {
            rest
        }
    }
}

/// How many times `p` occurs in `xs`.
pub open spec fn count_of(xs: Seq<(u64, u64)>, p: (u64, u64)) -> nat
    decreases xs.len(),
{
    if xs.len() == 0 {
        0
    } else {
        count_of(xs.drop_last(), p) + if xs.last() == p {
            1nat
        } else {
            0nat
        }
    }
}

/// Whether `xs` and `ys` hold the same pairs, counting repetitions.
pub open spec fn same_pairs(xs: Seq<(u64, u64)>, ys: Seq<(u64, u64)>) -> bool {
    forall|p: (u64, u64)| #[trigger] count_of(xs, p) == count_of(ys, p)
}

proof fn lemma_count_push(xs: Seq<(u64, u64)>, x: (u64, u64), p: (u64, u64))
    ensures
        count_of(xs.push(x), p) == count_of(xs, p) + if x == p {
            1nat
        } else {
            0nat
        },
{
    assert(xs.push(x).drop_last() =~= xs);
}

proof fn lemma_count_concat(a: Seq<(u64, u64)>, b: Seq<(u64, u64)>, p: (u64, u64))
    ensures
        count_of(a + b, p) == count_of(a, p) + count_of(b, p),
    decreases b.len(),
{
    if b.len() == 0 {
        assert(a + b =~= a);
    } else {
        lemma_count_concat(a, b.drop_last(), p);
        assert((a + b).drop_last() =~= a + b.drop_last());
        assert((a + b).last() == b.last());
    }
}

proof fn lemma_count_drop_sink(xs: Seq<(u64, u64)>, v: u64, p: (u64, u64))
    ensures
        count_of(drop_sink(xs, v), p) == if p.1 == v {
            0
        } else {
            count_of(xs, p)
        },
    decreases xs.len(),
{
    if xs.len() > 0 {
        lemma_count_drop_sink(xs.drop_last(), v, p);
        let rest = drop_sink(xs.drop_last(), v);
        if xs.last().1 != v {
            lemma_count_push(rest, xs.last(), p);
        }
    }
}

proof fn lemma_push_contains(s: Seq<u64>, v: u64, x: u64)
    ensures
        s.push(v).contains(x) <==> (s.contains(x) || x == v),
{
    if s.contains(x) {
        let i = choose|i: int| 0 <= i < s.len() && s[i] == x;
        assert(s.push(v)[i] == x);
    }
    if x == v {
        assert(s.push(v)[s.len() as int] == v);
    }
    if s.push(v).contains(x) {
        let i = choose|i: int| 0 <= i < s.len() + 1 && s.push(v)[i] == x;
        if i < s.len() {
            assert(s[i] == x);
        }
    }
}

/// Letting `v` into the allowlist drops the exits into `v` and adds the edges
/// from `v` to outside the enlarged allowlist.
proof fn lemma_exits_expand<W>(es: Seq<(u64, u64, W)>, s: Seq<u64>, v: u64, p: (u64, u64))
    requires
        !s.contains(v),
    ensures
        count_of(exits(es, s.push(v)), p) == (if p.1 == v {
            0
        } else {
            count_of(exits(es, s), p)
        }) + count_of(leaving_from(es, v, s.push(v)), p),
    decreases es.len(),
{
    if es.len() > 0 {
        let q = es.drop_last();
        let e = es.last();
        lemma_exits_expand(q, s, v, p);
        lemma_push_contains(s, v, e.0);
        lemma_push_contains(s, v, e.1);
        lemma_count_push(exits(q, s.push(v)), (e.0, e.1), p);
        lemma_count_push(exits(q, s), (e.0, e.1), p);
        lemma_count_push(leaving_from(q, v, s.push(v)), (e.0, e.1), p);
    }
}

/// A vertex is in the induced subgraph exactly when it is in the inner graph
/// and allowed.
pub proof fn lemma_has_vertex_keep<V>(vs: Seq<(u64, V)>, s: Seq<u64>, x: u64)
    ensures
        has_vertex(keep_vertices(vs, s), x) <==> has_vertex(vs, x) && s.contains(x),
    decreases vs.len(),
{
    if vs.len() > 0 {
        let q = vs.drop_last();
        lemma_has_vertex_keep(q, s, x);
        let r = keep_vertices(q, s);
        if has_vertex(vs, x) && s.contains(x) {
            let i = choose|i: int| 0 <= i < vs.len() && (#[trigger] vs[i]).0 == x;
            if i < vs.len() - 1 {
                assert(q[i].0 == x);
                let j = choose|j: int| 0 <= j < r.len() && (#[trigger] r[j]).0 == x;
                if s.contains(vs.last().0) {
                    assert(r.push(vs.last())[j] == r[j]);
                }
            } else {
                assert(vs.last().0 == x);
                assert(r.push(vs.last())[r.len() as int].0 == x);
            }
        }
        if has_vertex(keep_vertices(vs, s), x) {
            let k = keep_vertices(vs, s);
            let j = choose|j: int| 0 <= j < k.len() && (#[trigger] k[j]).0 == x;
            if s.contains(vs.last().0) && j == r.len() {
                assert(vs[vs.len() - 1].0 == x);
            } else {
                assert(k[j] == r[j]);
                let i = choose|i: int| 0 <= i < q.len() && (#[trigger] q[i]).0 == x;
                assert(vs[i].0 == x);
            }
        }
    }
}

/// The pairs of `xs` whose source is not `v`, in order.
pub open spec fn drop_source(xs: Seq<(u64, u64)>, v: u64) -> Seq<(u64, u64)>
    decreases xs.len(),
{
    if xs.len() == 0 {
        Seq::empty()
    } else {
        let rest = drop_source(xs.drop_last(), v);
        if xs.last().0 != v {
            rest.push(xs.last())
        } else {
            rest
        }
    }
}

proof fn lemma_count_drop_source(xs: Seq<(u64, u64)>, v: u64, p: (u64, u64))
    ensures
        count_of(drop_source(xs, v), p) == if p.0 == v {
            0
        } else {
            count_of(xs, p)
        },
    decreases xs.len(),
{
    if xs.len() > 0 {
        lemma_count_drop_source(xs.drop_last(), v, p);
        let rest = drop_source(xs.drop_last(), v);
        if xs.last().0 != v {
            lemma_count_push(rest, xs.last(), p);
        }
    }
}

/// Removing an allowed vertex from the allowlist and its edges from the
/// inner graph drops exactly the exits sourced in it.
proof fn lemma_exits_remove<W>(es: Seq<(u64, u64, W)>, s: Seq<u64>, t: Seq<u64>, v: u64, p: (u64, u64))
    requires
        s.contains(v),
        forall|x: u64| t.contains(x) <==> (s.contains(x) && x != v),
    ensures
        count_of(exits(without_vertex(es, v), t), p) == if p.0 == v {
            0
        } else {
            count_of(exits(es, s), p)
        },
    decreases es.len(),
{
    if es.len() > 0 {
        let q = es.drop_last();
        let e = es.last();
        lemma_exits_remove(q, s, t, v, p);
        lemma_count_push(exits(q, s), (e.0, e.1), p);
        if e.0 != v && e.1 != v {
            let w = without_vertex(q, v);
            assert(w.push(e).drop_last() =~= w);
            lemma_count_push(exits(w, t), (e.0, e.1), p);
        }
    }
}

/// Removing an edge inside the allowlist leaves the exits as they were.
proof fn lemma_exits_remove_inside<W>(es: Seq<(u64, u64, W)>, s: Seq<u64>, i: int, p: (u64, u64))
    requires
        0 <= i < es.len(),
        s.contains(es[i].0),
        s.contains(es[i].1),
    ensures
        count_of(exits(es.remove(i), s), p) == count_of(exits(es, s), p),
    decreases es.len(),
{
    if i == es.len() - 1 {
        assert(es.remove(i) =~= es.drop_last());
    } else {
        assert(es.remove(i).drop_last() =~= es.drop_last().remove(i));
        assert(es.remove(i).last() == es.last());
        lemma_exits_remove_inside(es.drop_last(), s, i, p);
        let e = es.last();
        lemma_count_push(exits(es.drop_last().remove(i), s), (e.0, e.1), p);
        lemma_count_push(exits(es.drop_last(), s), (e.0, e.1), p);
    }
}

/// The kept entries come from `vs`, are allowed, and keep identifiers distinct.
pub proof fn lemma_keep_vertices<V>(vs: Seq<(u64, V)>, s: Seq<u64>)
    ensures
        forall|k: int|
            0 <= k < keep_vertices(vs, s).len() ==> vs.contains(#[trigger] keep_vertices(vs, s)[k])
                && s.contains(keep_vertices(vs, s)[k].0),
        ids_unique(vs) ==> ids_unique(keep_vertices(vs, s)),
    decreases vs.len(),
{
    if vs.len() > 0 {
        let q = vs.drop_last();
        let l = vs.last();
        lemma_keep_vertices(q, s);
        let r = keep_vertices(q, s);
        assert(vs[vs.len() - 1] == l);
        assert forall|k: int| 0 <= k < r.len() implies vs.contains(#[trigger] r[k]) by {
            assert(q.contains(r[k]));
            let j = choose|j: int| 0 <= j < q.len() && q[j] == r[k];
            assert(vs[j] == r[k]);
        }
        if s.contains(l.0) {
            let t = r.push(l);
            assert forall|k: int| 0 <= k < t.len() implies vs.contains(#[trigger] t[k]) && s.contains(t[k].0) by {
                if k < r.len() {
                    assert(t[k] == r[k]);
                }
            }
            if ids_unique(vs) {
                assert(ids_unique(q)) by {
                    assert forall|i: int, j: int| 0 <= i < j < q.len() implies (#[trigger] q[i]).0 != (#[trigger] q[j]).0 by {
                        assert(q[i] == vs[i] && q[j] == vs[j]);
                    }
                }
                assert forall|i: int, j: int| 0 <= i < j < t.len() implies (#[trigger] t[i]).0 != (#[trigger] t[j]).0 by {
                    if j == r.len() {
                        assert(t[i] == r[i]);
                        assert(q.contains(r[i]));
                        let m = choose|m: int| 0 <= m < q.len() && q[m] == r[i];
                        assert(vs[m] == r[i]);
                    } else {
                        assert(t[i] == r[i] && t[j] == r[j]);
                    }
                }
            }
        }
    }
}

/// The kept edges come from `es` and have both endpoints allowed.
pub proof fn lemma_keep_edges<W>(es: Seq<(u64, u64, W)>, s: Seq<u64>)
    ensures
        forall|k: int|
            0 <= k < keep_edges(es, s).len() ==> es.contains(#[trigger] keep_edges(es, s)[k])
                && s.contains(keep_edges(es, s)[k].0) && s.contains(keep_edges(es, s)[k].1),
    decreases es.len(),
{
    if es.len() > 0 {
        let q = es.drop_last();
        let l = es.last();
        lemma_keep_edges(q, s);
        let r = keep_edges(q, s);
        assert(es[es.len() - 1] == l);
        assert forall|k: int| 0 <= k < r.len() implies es.contains(#[trigger] r[k]) by {
            assert(q.contains(r[k]));
            let j = choose|j: int| 0 <= j < q.len() && q[j] == r[k];
            assert(es[j] == r[k]);
        }
        if s.contains(l.0) && s.contains(l.1) {
            let t = r.push(l);
            assert forall|k: int| 0 <= k < t.len() implies es.contains(#[trigger] t[k]) && s.contains(t[k].0)
                && s.contains(t[k].1) by {
                if k < r.len() {
                    assert(t[k] == r[k]);
                }
            }
        }
    }
}

/// Whether `x` is in `l`.
fn list_contains(l: &Vec<u64>, x: u64) -> (r: bool)
    ensures
        r == l@.contains(x),
{
    let mut i: usize = 0;
    while i < l.len()
        invariant
            i <= l@.len(),
            forall|j: int| 0 <= j < i ==> l@[j] != x,
        decreases l@.len() - i,
    {
        if l[i] == x {
            assert(l@[i as int] == x);
            return true;
        }
        i = i + 1;
    }
    false
}

/// The subgraph of an inner graph induced by an allowlist of vertices, with
/// a cache of the edges that leave it.
pub struct SubgraphProxy<G> {
    graph: G,
    verts: Vec<u64>,
    exit_edges: Vec<(u64, u64)>,
}

impl<G: Graph> SubgraphProxy<G> {
    /// The inner graph.
    pub closed spec fn inner(&self) -> G {
        self.graph
    }

    /// The allowlist.
    pub closed spec fn allowed(&self) -> Seq<u64> {
        self.verts@
    }

    /// The cached edges leaving the subgraph.
    pub closed spec fn exit_cache(&self) -> Seq<(u64, u64)> {
        self.exit_edges@
    }

    /// An empty subgraph of `g`.
    pub fn new(g: G) -> (r: Self)
        requires
            g.well_formed(),
        ensures
            r.well_formed(),
            r.inner() == g,
            r.allowed() == Seq::<u64>::empty(),
    {
        let r = SubgraphProxy { graph: g, verts: Vec::new(), exit_edges: Vec::new() };
        proof {
            lemma_exits_empty(g.edges());
        }
        r
    }

    /// Adds `v` to the allowlist and updates the cached exit edges: those sunk
    /// in `v` are dropped, and each edge from `v` to a vertex outside the
    /// allowlist is added. Fails with `NotFound` when `v` is not in the inner
    /// graph.
    pub fn expand(&mut self, v: u64) -> (r: Result<(), GraphError>)
        requires
            old(self).well_formed(),
        ensures
            final(self).well_formed(),
            final(self).inner() == old(self).inner(),
            r is Ok <==> has_vertex(old(self).inner().vertices(), v),
            r is Ok ==> final(self).allowed() == if old(self).allowed().contains(v) {
                old(self).allowed()
            } else {
                old(self).allowed().push(v)
            },
            r is Err ==> r == Err::<(), GraphError>(GraphError::NotFound) && final(self).allowed()
                == old(self).allowed() && final(self).exit_cache() == old(self).exit_cache(),
            old(self).allowed().contains(v) ==> final(self).exit_cache() == old(self).exit_cache(),
            same_pairs(final(self).exit_cache(), exits(final(self).inner().edges(), final(self).allowed())),
    {
        if !self.graph.contains_vertex(v) {
            return Err(GraphError::NotFound);
        }
        if list_contains(&self.verts, v) {
            return Ok(());
        }
        let ghost s0 = self.verts@;
        let ghost c0 = self.exit_edges@;
        self.verts.push(v);
        proof {
            assert forall|i: int, j: int| 0 <= i < self.verts@.len() && 0 <= j < self.verts@.len() && i != j
                implies self.verts@[i] != self.verts@[j] by {
                if i < s0.len() && j < s0.len() {
                    assert(self.verts@[i] == s0[i] && self.verts@[j] == s0[j]);
                } else if i < s0.len() {
                    assert(self.verts@[i] == s0[i]);
                } else if j < s0.len() {
                    assert(self.verts@[j] == s0[j]);
                }
            }
        }
        let mut kept: Vec<(u64, u64)> = Vec::new();
        let mut k: usize = 0;
        while k < self.exit_edges.len()
            invariant
                self.exit_edges@ == c0,
                k <= c0.len(),
                kept@ == drop_sink(c0.take(k as int), v),
            decreases c0.len() - k,
        {
            assert(c0.take(k + 1).drop_last() == c0.take(k as int));
            if self.exit_edges[k].1 != v {
                kept.push(self.exit_edges[k]);
            }
            k = k + 1;
        }
        assert(c0.take(c0.len() as int) == c0);
        let ghost d = kept@;
        let es = self.graph.all_edges();
        let mut i: usize = 0;
        while i < es.len()
            invariant
                i <= es@.len(),
                self.verts@ == s0.push(v),
                kept@ == d + leaving_from(es@.take(i as int), v, s0.push(v)),
            decreases es@.len() - i,
        {
            let e = es[i];
            assert(es@.take(i + 1).drop_last() == es@.take(i as int));
            if e.0 == v && !list_contains(&self.verts, e.1) {
                kept.push((e.0, e.1));
                assert(d + leaving_from(es@.take(i + 1), v, s0.push(v)) =~= (d + leaving_from(
                    es@.take(i as int),
                    v,
                    s0.push(v),
                )).push((e.0, e.1)));
            }
            i = i + 1;
        }
        assert(es@.take(es@.len() as int) == es@);
        self.exit_edges = kept;
        proof {
            let e0 = self.graph.edges();
            assert forall|p: (u64, u64)| #[trigger] count_of(self.exit_edges@, p) == count_of(
                exits(e0, s0.push(v)),
                p,
            ) by {
                lemma_count_concat(d, leaving_from(e0, v, s0.push(v)), p);
                lemma_count_drop_sink(c0, v, p);
                lemma_exits_expand(e0, s0, v, p);
                assert(count_of(c0, p) == count_of(exits(e0, s0), p));
            }
        }
        Ok(())
    }

    /// The cached edges leaving the subgraph, as (source, sink).
    pub fn exit_edges(&self) -> (r: Vec<(u64, u64)>)
        ensures
            r@ == self.exit_cache(),
    {
        let mut r: Vec<(u64, u64)> = Vec::new();
        let mut i: usize = 0;
        while i < self.exit_edges.len()
            invariant
                i <= self.exit_edges@.len(),
                r@ == self.exit_edges@.take(i as int),
            decreases self.exit_edges@.len() - i,
        {
            r.push(self.exit_edges[i]);
            i = i + 1;
        }
        assert(self.exit_edges@.take(self.exit_edges@.len() as int) == self.exit_edges@);
        r
    }

    /// Read access to the inner graph.
    pub fn graph(&self) -> (r: &G)
        ensures
            *r == self.inner(),
    {
        &self.graph
    }
}

/// Nothing leaves an empty allowlist.
proof fn lemma_exits_empty<W>(es: Seq<(u64, u64, W)>)
    ensures
        exits(es, Seq::<u64>::empty()) == Seq::<(u64, u64)>::empty(),
    decreases es.len(),
{
    if es.len() > 0 {
        lemma_exits_empty(es.drop_last());
    }
}

impl<G: Graph> Graph for SubgraphProxy<G> {
    type VertexWeight = G::VertexWeight;

    type EdgeWeight = G::EdgeWeight;

    open spec fn directed(&self) -> bool {
        self.inner().directed()
    }

    open spec fn well_formed(&self) -> bool {
        self.inner().well_formed() && self.allowed().no_duplicates() && same_pairs(
            self.exit_cache(),
            exits(self.inner().edges(), self.allowed()),
        )
    }

    open spec fn vertices(&self) -> Seq<(u64, G::VertexWeight)> {
        keep_vertices(self.inner().vertices(), self.allowed())
    }

    open spec fn edges(&self) -> Seq<(u64, u64, G::EdgeWeight)> {
        keep_edges(self.inner().edges(), self.allowed())
    }

    proof fn lemma_wf(&self) {
        self.inner().lemma_wf();
        let vs = self.inner().vertices();
        let es = self.inner().edges();
        let al = self.allowed();
        lemma_keep_vertices(vs, al);
        lemma_keep_edges(es, al);
        let ke = keep_edges(es, al);
        assert forall|k: int| 0 <= k < ke.len() implies has_vertex(keep_vertices(vs, al), (#[trigger] ke[k]).0)
            && has_vertex(keep_vertices(vs, al), ke[k].1) by {
            assert(es.contains(ke[k]));
            let j = choose|j: int| 0 <= j < es.len() && es[j] == ke[k];
            assert(has_vertex(vs, es[j].0) && has_vertex(vs, es[j].1));
            lemma_has_vertex_keep(vs, al, ke[k].0);
            lemma_has_vertex_keep(vs, al, ke[k].1);
        }
    }

    fn is_directed(&self) -> (r: bool) {
        self.graph.is_directed()
    }

    fn all_vertices_weighted(&self) -> (r: Vec<(u64, G::VertexWeight)>) {
        let vs = self.graph.all_vertices_weighted();
        let mut r: Vec<(u64, G::VertexWeight)> = Vec::new();
        let mut i: usize = 0;
        while i < vs.len()
            invariant
                i <= vs@.len(),
                vs@ == self.inner().vertices(),
                r@ == keep_vertices(vs@.take(i as int), self.verts@),
            decreases vs@.len() - i,
        {
            assert(vs@.take(i + 1).drop_last() == vs@.take(i as int));
            if list_contains(&self.verts, vs[i].0) {
                r.push(vs[i]);
            }
            i = i + 1;
        }
        assert(vs@.take(vs@.len() as int) == vs@);
        r
    }

    fn all_edges(&self) -> (r: Vec<(u64, u64, G::EdgeWeight)>) {
        let es = self.graph.all_edges();
        let mut r: Vec<(u64, u64, G::EdgeWeight)> = Vec::new();
        let mut i: usize = 0;
        while i < es.len()
            invariant
                i <= es@.len(),
                es@ == self.inner().edges(),
                r@ == keep_edges(es@.take(i as int), self.verts@),
            decreases es@.len() - i,
        {
            assert(es@.take(i + 1).drop_last() == es@.take(i as int));
            if list_contains(&self.verts, es[i].0) && list_contains(&self.verts, es[i].1) {
                r.push(es[i]);
            }
            i = i + 1;
        }
        assert(es@.take(es@.len() as int) == es@);
        r
    }
}

impl<G: Graph + AddEdge> AddEdge for SubgraphProxy<G> {
    open spec fn edge_addable(&self, source: u64, sink: u64) -> bool {
        self.allowed().contains(source) && self.allowed().contains(sink) && self.inner().edge_addable(
            source,
            sink,
        )
    }

    /// Adds the edge to the inner graph when both endpoints are in the
    /// subgraph.
    fn add_edge_weighted(&mut self, source: u64, sink: u64, w: G::EdgeWeight) -> (r: Result<
        (),
        GraphError,
    >)
        ensures
            final(self).allowed() == old(self).allowed(),
            final(self).exit_cache() == old(self).exit_cache(),
            !(old(self).allowed().contains(source) && old(self).allowed().contains(sink)) ==> final(self).inner() == old(self).inner(),
            r is Err ==> final(self).inner().vertices() == old(self).inner().vertices() && final(self).inner().edges() == old(self).inner().edges(),
    {
        assert(old(self).edge_addable(source, sink) == (old(self).allowed().contains(source) && old(self).allowed().contains(sink) && old(self).inner().edge_addable(source, sink)));
        proof {
            lemma_has_vertex_keep(self.inner().vertices(), self.verts@, source);
            lemma_has_vertex_keep(self.inner().vertices(), self.verts@, sink);
        }
        if !(list_contains(&self.verts, source) && list_contains(&self.verts, sink)
            && self.graph.edge_valid(source, sink)) {
            return Err(GraphError::InvalidEndpoint);
        }
        let ghost e0 = self.graph.edges();
        let r = self.graph.add_edge_weighted(source, sink, w);
        proof {
            if r is Ok {
                let e = (source, sink, w);
                assert(e0.push(e).drop_last() =~= e0);
                assert forall|p: (u64, u64)| #[trigger] count_of(self.exit_edges@, p) == count_of(
                    exits(self.graph.edges(), self.verts@),
                    p,
                ) by {
                    assert(count_of(self.exit_edges@, p) == count_of(exits(e0, self.verts@), p));
                }
            }
        }
        r
    }
}

impl<G: Graph + NewVertex> SubgraphProxy<G> {
    /// Adds a vertex to the inner graph and lets it into the subgraph.
    pub fn new_vertex_weighted(&mut self, w: G::VertexWeight) -> (r: Result<u64, GraphError>)
        requires
            old(self).well_formed(),
        ensures
            final(self).well_formed(),
            r is Err ==> final(self).inner().vertices() == old(self).inner().vertices()
                && final(self).inner().edges() == old(self).inner().edges() && final(self).allowed()
                == old(self).allowed(),
            r matches Ok(v) ==> final(self).inner().vertices() == old(self).inner().vertices().push(
                (v, w),
            ) && final(self).inner().edges() == old(self).inner().edges() && final(self).allowed().contains(v),
    {
        let ghost c0 = self.exit_edges@;
        let v = match self.graph.new_vertex_weighted(w) {
            Ok(v) => v,
            Err(e) => return Err(e),
        };
        proof {
            let vs = self.graph.vertices();
            assert(vs[vs.len() - 1] == (v, w));
        }
        let r = self.expand(v);
        proof {
            if !old(self).allowed().contains(v) {
                assert(old(self).allowed().push(v)[old(self).allowed().len() as int] == v);
            }
        }
        Ok(v)
    }
}

impl<G: Graph + RemoveVertex> SubgraphProxy<G> {
    /// Removes an allowed vertex from the inner graph and from the allowlist,
    /// with its edges, dropping the cached exits sourced in it. Fails with
    /// `NotFound`, changing nothing, when `v` is not in the subgraph.
    pub fn remove_vertex(&mut self, v: u64) -> (r: Result<G::VertexWeight, GraphError>)
        requires
            old(self).well_formed(),
        ensures
            final(self).well_formed(),
            !(old(self).allowed().contains(v) && has_vertex(old(self).inner().vertices(), v)) ==> r
                == Err::<G::VertexWeight, GraphError>(GraphError::NotFound),
            r is Err ==> final(self).inner().vertices() == old(self).inner().vertices()
                && final(self).inner().edges() == old(self).inner().edges() && final(self).allowed()
                == old(self).allowed(),
            r matches Ok(w) ==> (exists|i: int|
                0 <= i < old(self).inner().vertices().len() && #[trigger] old(self).inner().vertices()[i]
                    == (v, w) && final(self).inner().vertices() == old(self).inner().vertices().remove(i))
                && final(self).inner().edges() == without_vertex(old(self).inner().edges(), v)
                && !has_vertex(final(self).inner().vertices(), v)
                && !final(self).allowed().contains(v) && forall|x: u64|
                x != v ==> (#[trigger] final(self).allowed().contains(x) <==> old(self).allowed().contains(x)),
    {
        if !(list_contains(&self.verts, v) && self.graph.contains_vertex(v)) {
            return Err(GraphError::NotFound);
        }
        let ghost s0 = self.verts@;
        let ghost c0 = self.exit_edges@;
        let ghost e0 = self.graph.edges();
        let ghost vs0 = self.graph.vertices();
        proof {
            self.graph.lemma_wf();
        }
        let w = match self.graph.remove_vertex(v) {
            Ok(w) => w,
            Err(e) => return Err(e),
        };
        proof {
            let i = choose|i: int|
                0 <= i < vs0.len() && #[trigger] vs0[i] == (v, w) && self.graph.vertices() == vs0.remove(i);
            if has_vertex(self.graph.vertices(), v) {
                let j = choose|j: int| 0 <= j < self.graph.vertices().len() && (#[trigger] self.graph.vertices()[j]).0 == v;
                let m = if j < i { j } else { j + 1 };
                assert(self.graph.vertices()[j] == vs0[m]);
                if m < i {
                    assert((vs0[m]).0 != (vs0[i]).0);
                } else {
                    assert((vs0[i]).0 != (vs0[m]).0);
                }
            }
        }
        let mut kept_verts: Vec<u64> = Vec::new();
        let mut k: usize = 0;
        while k < self.verts.len()
            invariant
                self.verts@ == s0,
                s0.no_duplicates(),
                kept_verts@.no_duplicates(),
                k <= s0.len(),
                forall|x: u64| kept_verts@.contains(x) <==> (exists|j: int| 0 <= j < k && s0[j] == x) && x != v,
            decreases s0.len() - k,
        {
            let x = self.verts[k];
            let ghost before = kept_verts@;
            if x != v {
                proof {
                    if before.contains(x) {
                        let j = choose|j: int| 0 <= j < k && s0[j] == x;
                        assert(s0[j] == s0[k as int]);
                    }
                }
                kept_verts.push(x);
                proof {
                    assert forall|i: int, j: int|
                        0 <= i < kept_verts@.len() && 0 <= j < kept_verts@.len() && i != j implies kept_verts@[i]
                        != kept_verts@[j] by {
                        if i < before.len() && j < before.len() {
                            assert(kept_verts@[i] == before[i] && kept_verts@[j] == before[j]);
                        } else if i < before.len() {
                            assert(kept_verts@[i] == before[i]);
                        } else if j < before.len() {
                            assert(kept_verts@[j] == before[j]);
                        }
                    }
                }
            }
            proof {
                assert forall|y: u64| kept_verts@.contains(y) <==> (exists|j: int| 0 <= j < k + 1 && s0[j] == y) && y != v by {
                    if exists|j: int| 0 <= j < k + 1 && s0[j] == y {
                        let j = choose|j: int| 0 <= j < k + 1 && s0[j] == y;
                        if j < k {
                            assert(exists|j: int| 0 <= j < k && s0[j] == y);
                        }
                    }
                    if exists|j: int| 0 <= j < k && s0[j] == y {
                        let j = choose|j: int| 0 <= j < k && s0[j] == y;
                        assert(0 <= j < k + 1 && s0[j] == y);
                    }
                    if y == x {
                        assert(0 <= k < k + 1 && s0[k as int] == y);
                    }
                    if x != v {
                        if before.contains(y) {
                            let i = choose|i: int| 0 <= i < before.len() && before[i] == y;
                            assert(kept_verts@[i] == y);
                        }
                        if y == x {
                            assert(kept_verts@[before.len() as int] == y);
                        }
                        if kept_verts@.contains(y) {
                            let i = choose|i: int| 0 <= i < kept_verts@.len() && kept_verts@[i] == y;
                            if i < before.len() {
                                assert(before[i] == y);
                            }
                        }
                    }
                }
            }
            k = k + 1;
        }
        let mut kept: Vec<(u64, u64)> = Vec::new();
        let mut k: usize = 0;
        while k < self.exit_edges.len()
            invariant
                self.exit_edges@ == c0,
                k <= c0.len(),
                kept@ == drop_source(c0.take(k as int), v),
            decreases c0.len() - k,
        {
            assert(c0.take(k + 1).drop_last() == c0.take(k as int));
            if self.exit_edges[k].0 != v {
                kept.push(self.exit_edges[k]);
            }
            k = k + 1;
        }
        assert(c0.take(c0.len() as int) == c0);
        self.verts = kept_verts;
        self.exit_edges = kept;
        proof {
            assert forall|x: u64| self.verts@.contains(x) <==> (s0.contains(x) && x != v) by {
                if s0.contains(x) {
                    let j = choose|j: int| 0 <= j < s0.len() && s0[j] == x;
                }
            }
            assert forall|p: (u64, u64)| #[trigger] count_of(self.exit_edges@, p) == count_of(
                exits(self.graph.edges(), self.verts@),
                p,
            ) by {
                lemma_count_drop_source(c0, v, p);
                lemma_exits_remove(e0, s0, self.verts@, v, p);
                assert(count_of(c0, p) == count_of(exits(e0, s0), p));
            }
        }
        Ok(w)
    }
}

impl<G: Graph + RemoveEdge> SubgraphProxy<G> {
    /// Removes, from the inner graph, an edge between allowed vertices that
    /// `f` accepts, and returns it. `NotFound` means that `f` rejected every
    /// edge of the subgraph.
    pub fn remove_edge_where<F: Fn((u64, u64, &G::EdgeWeight)) -> bool>(&mut self, f: F) -> (r: Result<
        (u64, u64, G::EdgeWeight),
        GraphError,
    >)
        requires
            old(self).well_formed(),
            callable_on_edges(f),
        ensures
            final(self).well_formed(),
            final(self).allowed() == old(self).allowed(),
            final(self).inner().vertices() == old(self).inner().vertices(),
            r == Err::<(u64, u64, G::EdgeWeight), GraphError>(GraphError::NotFound) ==> forall|i: int|
                0 <= i < old(self).inner().edges().len() && old(self).allowed().contains(
                    old(self).inner().edges()[i].0,
                ) && old(self).allowed().contains(old(self).inner().edges()[i].1) ==> accepts(
                    f,
                    #[trigger] old(self).inner().edges()[i],
                    false,
                ),
            r is Err ==> final(self).inner().edges() == old(self).inner().edges(),
            r matches Ok(e) ==> accepts(f, e, true) && old(self).allowed().contains(e.0)
                && old(self).allowed().contains(e.1) && old(self).inner().edges().contains(e)
                && exists|i: int|
                0 <= i < old(self).inner().edges().len() && connects(
                    (#[trigger] old(self).inner().edges()[i]).0,
                    old(self).inner().edges()[i].1,
                    e.0,
                    e.1,
                    old(self).inner().directed(),
                ) && old(self).inner().edges()[i].2 == e.2 && final(self).inner().edges() == old(self).inner().edges().remove(i),
    {
        let ghost e0 = self.graph.edges();
        let verts = &self.verts;
        let fr = &f;
        let g = |e: (u64, u64, &G::EdgeWeight)| -> (b: bool)
            requires
                fr.requires((e,)),
            ensures
                b ==> verts@.contains(e.0) && verts@.contains(e.1) && fr.ensures((e,), true),
                !b ==> !(verts@.contains(e.0) && verts@.contains(e.1)) || fr.ensures((e,), false),
            { list_contains(verts, e.0) && list_contains(verts, e.1) && fr(e) };
        proof {
            assert forall|e: (u64, u64, G::EdgeWeight)| #[trigger] g.requires(((e.0, e.1, &e.2),)) by {
                assert(f.requires(((e.0, e.1, &e.2),)));
            }
        }
        let r = self.graph.remove_edge_where(g);
        proof {
            if r is Ok {
                let e = r->Ok_0;
                let i = choose|i: int|
                    0 <= i < e0.len() && connects(
                        (#[trigger] e0[i]).0,
                        e0[i].1,
                        e.0,
                        e.1,
                        old(self).inner().directed(),
                    ) && e0[i].2 == e.2 && self.graph.edges() == e0.remove(i);
                assert(self.verts@.contains(e0[i].0) && self.verts@.contains(e0[i].1));
                assert forall|p: (u64, u64)| #[trigger] count_of(self.exit_edges@, p) == count_of(
                    exits(self.graph.edges(), self.verts@),
                    p,
                ) by {
                    lemma_exits_remove_inside(e0, self.verts@, i, p);
                    assert(count_of(self.exit_edges@, p) == count_of(exits(e0, self.verts@), p));
                }
            }
        }
        r
    }

    /// Removes, from the inner graph, one edge connecting two allowed
    /// vertices. Fails with `NotFound` when an endpoint is not allowed.
    pub fn remove_edge(&mut self, source: u64, sink: u64) -> (r: Result<G::EdgeWeight, GraphError>)
        requires
            old(self).well_formed(),
        ensures
            final(self).well_formed(),
            final(self).allowed() == old(self).allowed(),
            !(old(self).allowed().contains(source) && old(self).allowed().contains(sink)) ==> r
                == Err::<G::EdgeWeight, GraphError>(GraphError::NotFound),
            r is Err ==> final(self).inner().edges() == old(self).inner().edges(),
            r matches Ok(w) ==> exists|i: int|
                0 <= i < old(self).inner().edges().len() && connects(
                    (#[trigger] old(self).inner().edges()[i]).0,
                    old(self).inner().edges()[i].1,
                    source,
                    sink,
                    old(self).inner().directed(),
                ) && old(self).inner().edges()[i].2 == w && final(self).inner().edges() == old(self).inner().edges().remove(i),
    {
        if !(list_contains(&self.verts, source) && list_contains(&self.verts, sink)) {
            return Err(GraphError::NotFound);
        }
        let ghost e0 = self.graph.edges();
        let r = self.graph.remove_edge(source, sink);
        proof {
            if r is Ok {
                let w = r->Ok_0;
                let i = choose|i: int|
                    0 <= i < e0.len() && connects(
                        (#[trigger] e0[i]).0,
                        e0[i].1,
                        source,
                        sink,
                        old(self).inner().directed(),
                    ) && e0[i].2 == w && self.graph.edges() == e0.remove(i);
                assert forall|p: (u64, u64)| #[trigger] count_of(self.exit_edges@, p) == count_of(
                    exits(self.graph.edges(), self.verts@),
                    p,
                ) by {
                    lemma_exits_remove_inside(e0, self.verts@, i, p);
                    assert(count_of(self.exit_edges@, p) == count_of(exits(e0, self.verts@), p));
                }
            }
        }
        r
    }
}

} // verus!
