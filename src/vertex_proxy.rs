//! A proxy that simulates vertex additions and removals over an inner graph.
use vstd::prelude::*;
use crate::graph::{has_vertex, Graph, GraphError};

verus! {

/// A vertex of a vertex proxy: one of the inner graph, or one added through
/// the proxy. The two kinds never compare equal.
#[derive(Clone, Copy, Debug, PartialEq, Eq, Structural)]
pub enum ProxyVertex {
    Underlying(u64),
    New(usize),
}

/// The inner vertices of `vs` not in `removed`, tagged as inner vertices.
pub open spec fn kept_vertices<V>(vs: Seq<(u64, V)>, removed: Seq<u64>) -> Seq<ProxyVertex>
    decreases vs.len(),
{
    if vs.len() == 0 {
        Seq::empty()
    } else {
        let rest = kept_vertices(vs.drop_last(), removed);
        if removed.contains(vs.last().0) {
            rest
        } else {
            rest.push(ProxyVertex::Underlying(vs.last().0))
        }
    }
}

/// The vertices added through the proxy, tagged as such.
pub open spec fn fresh_vertices(fresh: Seq<usize>) -> Seq<ProxyVertex> {
    fresh.map_values(|i: usize| ProxyVertex::New(i))
}

/// The edges of `es` with neither endpoint in `removed`, tagged.
pub open spec fn kept_edges<W>(es: Seq<(u64, u64, W)>, removed: Seq<u64>) -> Seq<
    (ProxyVertex, ProxyVertex, W),
>
    decreases es.len(),
{
    if es.len() == 0 {
        Seq::empty()
    } else {
        let rest = kept_edges(es.drop_last(), removed);
        let e = es.last();
        if removed.contains(e.0) || removed.contains(e.1) {
            rest
        } else {
            rest.push((ProxyVertex::Underlying(e.0), ProxyVertex::Underlying(e.1), e.2))
        }
    }
}

/// An inner vertex shows through the proxy exactly when it is not removed.
pub proof fn lemma_kept_vertices<V>(vs: Seq<(u64, V)>, removed: Seq<u64>, x: ProxyVertex)
    ensures
        kept_vertices(vs, removed).contains(x) <==> (x matches ProxyVertex::Underlying(u)
            && has_vertex(vs, u) && !removed.contains(u)),
    decreases vs.len(),
{
    if vs.len() > 0 {
        let q = vs.drop_last();
        let r = kept_vertices(q, removed);
        lemma_kept_vertices(q, removed, x);
        let l = vs.last();
        if !removed.contains(l.0) {
            assert(r.push(ProxyVertex::Underlying(l.0))[r.len() as int] == ProxyVertex::Underlying(
                l.0,
            ));
            if r.contains(x) {
                let j = choose|j: int| 0 <= j < r.len() && r[j] == x;
                assert(r.push(ProxyVertex::Underlying(l.0))[j] == x);
            }
            if r.push(ProxyVertex::Underlying(l.0)).contains(x) && x != ProxyVertex::Underlying(
                l.0,
            ) {
                let j = choose|j: int|
                    0 <= j < r.len() + 1 && r.push(ProxyVertex::Underlying(l.0))[j] == x;
                assert(r[j] == x);
            }
        }
        if let ProxyVertex::Underlying(u) = x {
            if has_vertex(vs, u) {
                let i = choose|i: int| 0 <= i < vs.len() && (#[trigger] vs[i]).0 == u;
                if i < vs.len() - 1 {
                    assert(q[i].0 == u);
                }
            }
            if has_vertex(q, u) {
                let i = choose|i: int| 0 <= i < q.len() && (#[trigger] q[i]).0 == u;
                assert(vs[i].0 == u);
            }
            assert(vs[vs.len() - 1] == l);
        }
    } else {
        assert(kept_vertices(vs, removed) =~= Seq::<ProxyVertex>::empty());
    }
}

/// Whether `x` is in `l`.
fn contains_id(l: &Vec<u64>, x: u64) -> (r: bool)
    ensures
        r == l@.contains(x),
{
    let mut i: usize = 0;
    while i < l.len()
        invariant
            i <= l@.len(),
            forall|j: int| 0 <= j < i ==> l@[j] != x,
        decreases l@.len() - i,
    {
        if l[i] == x {
            assert(l@[i as int] == x);
            return true;
        }
        i = i + 1;
    }
    false
}

/// A view of an inner graph with vertices added and removed, where neither
/// change reaches the inner graph. Removing an inner vertex hides it and its
/// edges; identifiers of added vertices are never handed out twice.
pub struct VertexProxyGraph<G> {
    graph: G,
    fresh: Vec<usize>,
    next_fresh: usize,
    removed: Vec<u64>,
}

impl<G: Graph> VertexProxyGraph<G> {
    /// The inner graph.
    pub closed spec fn inner(&self) -> G {
        self.graph
    }

    /// The added vertices still present, oldest first.
    pub closed spec fn fresh(&self) -> Seq<usize> {
        self.fresh@
    }

    /// The identifier the next added vertex gets.
    pub closed spec fn next_fresh(&self) -> usize {
        self.next_fresh
    }

    /// The inner vertices hidden by the proxy.
    pub closed spec fn removed(&self) -> Seq<u64> {
        self.removed@
    }

    /// Added identifiers are increasing and below the next one.
    pub open spec fn well_formed(&self) -> bool {
        &&& forall|i: int| 0 <= i < self.fresh().len() ==> #[trigger] self.fresh()[i] < self.next_fresh()
        &&& forall|i: int, j: int|
            0 <= i < j < self.fresh().len() ==> #[trigger] self.fresh()[i] < #[trigger] self.fresh()[j]
    }

    /// The vertices seen through the proxy: the inner ones not removed, then
    /// the added ones.
    pub open spec fn vertices(&self) -> Seq<ProxyVertex> {
        kept_vertices(self.inner().vertices(), self.removed()) + fresh_vertices(self.fresh())
    }

    /// The edges seen through the proxy: the inner ones between vertices not
    /// removed.
    pub open spec fn edges(&self) -> Seq<(ProxyVertex, ProxyVertex, G::EdgeWeight)> {
        kept_edges(self.inner().edges(), self.removed())
    }

    /// A proxy over `g` with no simulated change.
    pub fn new(g: G) -> (r: Self)
        ensures
            r.well_formed(),
            r.inner() == g,
            r.fresh() == Seq::<usize>::empty(),
            r.next_fresh() == 0,
            r.removed() == Seq::<u64>::empty(),
    {
        VertexProxyGraph { graph: g, fresh: Vec::new(), next_fresh: 0, removed: Vec::new() }
    }

    /// Every vertex seen through the proxy.
    pub fn all_vertices(&self) -> (r: Vec<ProxyVertex>)
        ensures
            r@ == self.vertices(),
    {
        let vs = self.graph.all_vertices_weighted();
        let mut r: Vec<ProxyVertex> = Vec::new();
        let mut i: usize = 0;
        while i < vs.len()
            invariant
                i <= vs@.len(),
                vs@ == self.inner().vertices(),
                r@ == kept_vertices(vs@.take(i as int), self.removed@),
            decreases vs@.len() - i,
        {
            assert(vs@.take(i + 1).drop_last() == vs@.take(i as int));
            if !contains_id(&self.removed, vs[i].0) {
                r.push(ProxyVertex::Underlying(vs[i].0));
            }
            i = i + 1;
        }
        assert(vs@.take(vs@.len() as int) == vs@);
        let ghost k = r@;
        let mut j: usize = 0;
        while j < self.fresh.len()
            invariant
                j <= self.fresh@.len(),
                r@ == k + fresh_vertices(self.fresh@.take(j as int)),
            decreases self.fresh@.len() - j,
        {
            r.push(ProxyVertex::New(self.fresh[j]));
            j = j + 1;
            assert(k + fresh_vertices(self.fresh@.take(j as int)) =~= (k + fresh_vertices(
                self.fresh@.take(j - 1),
            )).push(ProxyVertex::New(self.fresh@[j - 1])));
        }
        assert(self.fresh@.take(self.fresh@.len() as int) == self.fresh@);
        r
    }

    /// Every edge seen through the proxy.
    pub fn all_edges(&self) -> (r: Vec<(ProxyVertex, ProxyVertex, G::EdgeWeight)>)
        ensures
            r@ == self.edges(),
    {
        let es = self.graph.all_edges();
        let mut r: Vec<(ProxyVertex, ProxyVertex, G::EdgeWeight)> = Vec::new();
        let mut i: usize = 0;
        while i < es.len()
            invariant
                i <= es@.len(),
                es@ == self.inner().edges(),
                r@ == kept_edges(es@.take(i as int), self.removed@),
            decreases es@.len() - i,
        {
            let e = es[i];
            assert(es@.take(i + 1).drop_last() == es@.take(i as int));
            if !contains_id(&self.removed, e.0) && !contains_id(&self.removed, e.1) {
                r.push((ProxyVertex::Underlying(e.0), ProxyVertex::Underlying(e.1), e.2));
            }
            i = i + 1;
        }
        assert(es@.take(es@.len() as int) == es@);
        r
    }

    /// The position of added vertex `i` among the added ones, if present.
    fn fresh_position(&self, i: usize) -> (r: Option<usize>)
        ensures
            r is Some <==> self.fresh().contains(i),
            r matches Some(p) ==> p < self.fresh().len() && self.fresh()[p as int] == i,
    {
        let mut k: usize = 0;
        while k < self.fresh.len()
            invariant
                k <= self.fresh@.len(),
                forall|j: int| 0 <= j < k ==> self.fresh@[j] != i,
            decreases self.fresh@.len() - k,
        {
            if self.fresh[k] == i {
                return Some(k);
            }
            k = k + 1;
        }
        None
    }

    /// Whether `v` is seen through the proxy.
    pub fn contains_vertex(&self, v: ProxyVertex) -> (r: bool)
        ensures
            r == self.vertices().contains(v),
    {
        proof {
            lemma_kept_vertices(self.inner().vertices(), self.removed(), v);
            self.lemma_vertices_contains(v);
        }
        match v {
            ProxyVertex::Underlying(u) => self.graph.contains_vertex(u) && !contains_id(
                &self.removed,
                u,
            ),
            ProxyVertex::New(i) => self.fresh_position(i).is_some(),
        }
    }

    proof fn lemma_vertices_contains(&self, v: ProxyVertex)
        ensures
            self.vertices().contains(v) <==> kept_vertices(
                self.inner().vertices(),
                self.removed(),
            ).contains(v) || (v matches ProxyVertex::New(i) && self.fresh().contains(i)),
    {
        let k = kept_vertices(self.inner().vertices(), self.removed());
        let f = fresh_vertices(self.fresh());
        lemma_kept_vertices(self.inner().vertices(), self.removed(), v);
        if self.vertices().contains(v) {
            let j = choose|j: int| 0 <= j < k.len() + f.len() && (k + f)[j] == v;
            if j >= k.len() {
                assert(f[j - k.len()] == v);
                assert(self.fresh()[j - k.len()] == self.fresh()[j - k.len()]);
            } else {
                assert(k[j] == v);
            }
        }
        if k.contains(v) {
            let j = choose|j: int| 0 <= j < k.len() && k[j] == v;
            assert((k + f)[j] == v);
        }
        if let ProxyVertex::New(i) = v {
            if self.fresh().contains(i) {
                let j = choose|j: int| 0 <= j < self.fresh().len() && self.fresh()[j] == i;
                assert((k + f)[k.len() + j] == v);
            }
        }
    }

    /// Adds a vertex under a fresh identifier, never handed out before.
    /// Fails with `Exhausted` only when no identifier remains.
    pub fn new_vertex(&mut self) -> (r: Result<ProxyVertex, GraphError>)
        requires
            old(self).well_formed(),
        ensures
            final(self).well_formed(),
            final(self).inner() == old(self).inner(),
            final(self).removed() == old(self).removed(),
            r is Err <==> old(self).next_fresh() == usize::MAX,
            r is Err ==> r == Err::<ProxyVertex, GraphError>(GraphError::Exhausted) && final(self).fresh()
                == old(self).fresh(),
            r matches Ok(v) ==> v == ProxyVertex::New(old(self).next_fresh()) && !old(self).vertices().contains(v)
                && final(self).vertices() == old(self).vertices().push(v),
    {
        if self.next_fresh == usize::MAX {
            return Err(GraphError::Exhausted);
        }
        let n = self.next_fresh;
        proof {
            old(self).lemma_vertices_contains(ProxyVertex::New(n));
            lemma_kept_vertices(self.inner().vertices(), self.removed(), ProxyVertex::New(n));
        }
        self.fresh.push(n);
        self.next_fresh = n + 1;
        assert(fresh_vertices(self.fresh@) =~= fresh_vertices(old(self).fresh@).push(ProxyVertex::New(n)));
        assert(self.vertices() =~= old(self).vertices().push(ProxyVertex::New(n)));
        Ok(ProxyVertex::New(n))
    }

    /// Removes `v` from the view: an inner vertex is hidden together with
    /// its edges, an added one is dropped. Fails with `NotFound`, changing
    /// nothing, when `v` is not seen through the proxy.
    pub fn remove_vertex(&mut self, v: ProxyVertex) -> (r: Result<(), GraphError>)
        requires
            old(self).well_formed(),
        ensures
            final(self).well_formed(),
            final(self).inner() == old(self).inner(),
            final(self).next_fresh() == old(self).next_fresh(),
            r is Ok <==> old(self).vertices().contains(v),
            r is Err ==> r == Err::<(), GraphError>(GraphError::NotFound) && final(self).fresh()
                == old(self).fresh() && final(self).removed() == old(self).removed(),
            r is Ok ==> !final(self).vertices().contains(v),
            r is Ok ==> (v matches ProxyVertex::Underlying(u) ==> final(self).removed() == old(self).removed().push(u) && final(self).fresh() == old(self).fresh()),
            r is Ok ==> (v matches ProxyVertex::New(i) ==> final(self).removed() == old(self).removed() && exists|p: int|
                0 <= p < old(self).fresh().len() && old(self).fresh()[p] == i && final(self).fresh()
                    == old(self).fresh().remove(p)),
            r is Ok ==> forall|x: ProxyVertex|
                x != v ==> (#[trigger] final(self).vertices().contains(x) <==> old(self).vertices().contains(x)),
    {
        proof {
            old(self).lemma_vertices_contains(v);
            lemma_kept_vertices(self.inner().vertices(), self.removed(), v);
        }
        match v {
            ProxyVertex::Underlying(u) => {
                if !(self.graph.contains_vertex(u) && !contains_id(&self.removed, u)) {
                    return Err(GraphError::NotFound);
                }
                self.removed.push(u);
                proof {
                    assert forall|x: ProxyVertex| #[trigger] self.vertices().contains(x) <==> (x != v
                        && old(self).vertices().contains(x)) by {
                        old(self).lemma_vertices_contains(x);
                        self.lemma_vertices_contains(x);
                        lemma_kept_vertices(self.inner().vertices(), self.removed(), x);
                        lemma_kept_vertices(self.inner().vertices(), old(self).removed(), x);
                        if let ProxyVertex::Underlying(y) = x {
                            assert(self.removed@.contains(y) <==> (old(self).removed@.contains(y) || y == u)) by {
                                if self.removed@.contains(y) {
                                    let j = choose|j: int| 0 <= j < self.removed@.len() && self.removed@[j] == y;
                                    if j < old(self).removed@.len() {
                                        assert(old(self).removed@[j] == y);
                                    }
                                }
                                if old(self).removed@.contains(y) {
                                    let j = choose|j: int| 0 <= j < old(self).removed@.len() && old(self).removed@[j] == y;
                                    assert(self.removed@[j] == y);
                                }
                                if y == u {
                                    assert(self.removed@[old(self).removed@.len() as int] == u);
                                }
                            }
                        }
                    }
                }
                Ok(())
            },
            ProxyVertex::New(i) => {
                let p = match self.fresh_position(i) {
                    Some(p) => p,
                    None => return Err(GraphError::NotFound),
                };
                self.fresh.remove(p);
                proof {
                    let f0 = old(self).fresh@;
                    assert forall|a: int, b: int| 0 <= a < b < self.fresh@.len() implies #[trigger] self.fresh@[a]
                        < #[trigger] self.fresh@[b] by {
                        let a1 = if a < p { a } else { a + 1 };
                        let b1 = if b < p { b } else { b + 1 };
                        assert(self.fresh@[a] == f0[a1] && self.fresh@[b] == f0[b1]);
                    }
                    assert forall|a: int| 0 <= a < self.fresh@.len() implies #[trigger] self.fresh@[a]
                        < self.next_fresh by {
                        let a1 = if a < p { a } else { a + 1 };
                        assert(self.fresh@[a] == f0[a1]);
                    }
                    assert forall|x: ProxyVertex| #[trigger] self.vertices().contains(x) <==> (x != v
                        && old(self).vertices().contains(x)) by {
                        old(self).lemma_vertices_contains(x);
                        self.lemma_vertices_contains(x);
                        if let ProxyVertex::New(y) = x {
                            if self.fresh@.contains(y) {
                                let j = choose|j: int| 0 <= j < self.fresh@.len() && self.fresh@[j] == y;
                                let j1 = if j < p { j } else { j + 1 };
                                assert(f0[j1] == y);
                                assert(j1 != p);
                            }
                            if f0.contains(y) && y != i {
                                let j = choose|j: int| 0 <= j < f0.len() && f0[j] == y;
                                if j < p {
                                    assert(self.fresh@[j] == y);
                                } else {
                                    assert(j != p);
                                    assert(self.fresh@[j - 1] == y);
                                }
                            }
                        }
                    }
                }
                Ok(())
            },
        }
    }

    /// Read access to the inner graph.
    pub fn graph(&self) -> (r: &G)
        ensures
            *r == self.inner(),
    {
        &self.graph
    }
}

} // verus!
