//! A proxy that simulates edge additions and removals over an inner graph.
use vstd::prelude::*;
use crate::graph::{
    connects, edges_valid, has_vertex, without_vertex, Graph, GraphError, Unweighted,
};
use crate::adj_list::{lemma_has_vertex_remove, lemma_without_vertex_kept};
use crate::constraint::{first_connecting, lemma_first_connecting};
use crate::property::{
    accepts, first_accepted, AddEdge, NewVertex, RemoveEdge, RemoveVertex,
};

verus! {

/// The endpoints of an edge as a key: as given when directed, smaller first
/// when undirected. Two edges connect the same endpoints exactly when their
/// keys are equal.
pub open spec fn key(a: u64, b: u64, directed: bool) -> (u64, u64) {
    if directed || a <= b {
        (a, b)
    } else {
        (b, a)
    }
}

/// How many edges of `es` have key `k`.
pub open spec fn count_key<W>(es: Seq<(u64, u64, W)>, k: (u64, u64), directed: bool) -> nat
    decreases es.len(),
{
    if es.len() == 0 {
        0
    } else {
        count_key(es.drop_last(), k, directed) + if key(es.last().0, es.last().1, directed) == k {
            1nat
        } else {
            0nat
        }
    }
}

/// The edges of `es` that remain after the removal entries `removed` are
/// matched against them, each entry against one edge with its key, earliest
/// edges first.
pub open spec fn visible<W>(es: Seq<(u64, u64, W)>, removed: Seq<(u64, u64, Unweighted)>, directed: bool) -> Seq<
    (u64, u64, W),
>
    decreases es.len(),
{
    if es.len() == 0 {
        Seq::empty()
    } else {
        let p = es.drop_last();
        let e = es.last();
        let k = key(e.0, e.1, directed);
        if count_key(p, k, directed) >= count_key(removed, k, directed) {
            visible(p, removed, directed).push(e)
        } else {
            visible(p, removed, directed)
        }
    }
}

/// The edges of `es` with their weights dropped.
pub open spec fn units<W>(es: Seq<(u64, u64, W)>) -> Seq<(u64, u64, Unweighted)> {
    es.map_values(|e: (u64, u64, W)| (e.0, e.1, Unweighted))
}

/// With no removal entries every edge is visible.
pub proof fn lemma_visible_none<W>(es: Seq<(u64, u64, W)>, directed: bool)
    ensures
        visible(es, Seq::empty(), directed) == es,
    decreases es.len(),
{
    if es.len() > 0 {
        lemma_visible_none(es.drop_last(), directed);
        assert(es.drop_last().push(es.last()) =~= es);
    }
}

/// Pushing one edge onto a sequence adds one to the count of its key.
pub proof fn lemma_count_key_push<W>(es: Seq<(u64, u64, W)>, e: (u64, u64, W), k: (u64, u64), directed: bool)
    ensures
        count_key(es.push(e), k, directed) == count_key(es, k, directed) + if key(e.0, e.1, directed) == k {
            1nat
        } else {
            0nat
        },
{
    assert(es.push(e).drop_last() =~= es);
}

/// How many edges with key `k` stay visible: those beyond the entries for `k`.
pub proof fn lemma_count_visible<W>(
    es: Seq<(u64, u64, W)>,
    removed: Seq<(u64, u64, Unweighted)>,
    k: (u64, u64),
    directed: bool,
)
    ensures
        count_key(visible(es, removed, directed), k, directed) as int == if count_key(es, k, directed)
            >= count_key(removed, k, directed) {
            count_key(es, k, directed) - count_key(removed, k, directed)
        } else {
            0
        },
    decreases es.len(),
{
    if es.len() > 0 {
        let p = es.drop_last();
        let e = es.last();
        lemma_count_visible(p, removed, k, directed);
        lemma_count_key_push(visible(p, removed, directed), e, k, directed);
    }
}

/// The position of the first edge of `es` with key `k`.
pub open spec fn first_key<W>(es: Seq<(u64, u64, W)>, k: (u64, u64), directed: bool) -> int
    decreases es.len(),
{
    if es.len() == 0 {
        0
    } else if count_key(es.drop_last(), k, directed) > 0 {
        first_key(es.drop_last(), k, directed)
    } else {
        es.len() - 1
    }
}

/// When some edge has key `k`, `first_key` is the first such edge.
pub proof fn lemma_first_key<W>(es: Seq<(u64, u64, W)>, k: (u64, u64), directed: bool)
    requires
        count_key(es, k, directed) > 0,
    ensures
        0 <= first_key(es, k, directed) < es.len(),
        key(es[first_key(es, k, directed)].0, es[first_key(es, k, directed)].1, directed) == k,
        forall|j: int|
            0 <= j < first_key(es, k, directed) ==> key((#[trigger] es[j]).0, es[j].1, directed) != k,
    decreases es.len(),
{
    let p = es.drop_last();
    if count_key(p, k, directed) > 0 {
        lemma_first_key(p, k, directed);
        assert forall|j: int| 0 <= j < first_key(es, k, directed) implies key(
            (#[trigger] es[j]).0,
            es[j].1,
            directed,
        ) != k by {
            assert(es[j] == p[j]);
        }
        assert(es[first_key(es, k, directed)] == p[first_key(p, k, directed)]);
    } else {
        assert forall|j: int| 0 <= j < es.len() - 1 implies key((#[trigger] es[j]).0, es[j].1, directed)
            != k by {
            assert(es[j] == p[j]);
            if key(es[j].0, es[j].1, directed) == k {
                lemma_count_positive(p, k, directed, j);
            }
        }
        assert(es[es.len() - 1] == es.last());
    }
}

/// An edge with key `k` makes the count of `k` positive.
pub proof fn lemma_count_positive<W>(es: Seq<(u64, u64, W)>, k: (u64, u64), directed: bool, j: int)
    requires
        0 <= j < es.len(),
        key(es[j].0, es[j].1, directed) == k,
    ensures
        count_key(es, k, directed) > 0,
    decreases es.len(),
{
    if j < es.len() - 1 {
        lemma_count_positive(es.drop_last(), k, directed, j);
    }
}

/// One more removal entry with key `k` hides the first visible edge with key
/// `k`, and nothing else.
pub proof fn lemma_visible_push<W>(
    es: Seq<(u64, u64, W)>,
    removed: Seq<(u64, u64, Unweighted)>,
    x: (u64, u64, Unweighted),
    directed: bool,
)
    ensures
        ({
            let k = key(x.0, x.1, directed);
            let v = visible(es, removed, directed);
            visible(es, removed.push(x), directed) == if count_key(v, k, directed) > 0 {
                v.remove(first_key(v, k, directed))
            } else {
                v
            }
        }),
    decreases es.len(),
{
    let k = key(x.0, x.1, directed);
    let r2 = removed.push(x);
    if es.len() > 0 {
        let p = es.drop_last();
        let e = es.last();
        let ke = key(e.0, e.1, directed);
        let vp = visible(p, removed, directed);
        lemma_visible_push(p, removed, x, directed);
        lemma_count_key_push(removed, x, ke, directed);
        lemma_count_key_push(vp, e, k, directed);
        lemma_count_visible(p, removed, k, directed);
        assert(vp.push(e).drop_last() =~= vp);
        if count_key(vp, k, directed) > 0 {
            lemma_first_key(vp, k, directed);
            let f = first_key(vp, k, directed);
            assert(vp.remove(f).push(e) =~= vp.push(e).remove(f));
        } else if ke == k {
            assert(vp.push(e).remove(vp.len() as int) =~= vp);
        }
    } else {
        assert(es =~= Seq::<(u64, u64, W)>::empty());
    }
}

/// Edges avoiding `v` with a key avoiding `v` are counted the same once the
/// edges touching `v` are dropped.
pub proof fn lemma_count_without<W>(es: Seq<(u64, u64, W)>, v: u64, a: u64, b: u64, directed: bool)
    requires
        a != v,
        b != v,
    ensures
        count_key(without_vertex(es, v), key(a, b, directed), directed) == count_key(
            es,
            key(a, b, directed),
            directed,
        ),
    decreases es.len(),
{
    if es.len() > 0 {
        let p = es.drop_last();
        let e = es.last();
        lemma_count_without(p, v, a, b, directed);
        if e.0 != v && e.1 != v {
            lemma_count_key_push(without_vertex(p, v), e, key(a, b, directed), directed);
        }
    }
}

/// Dropping the edges that touch `v` commutes with hiding removed edges.
pub proof fn lemma_visible_without<W>(
    es: Seq<(u64, u64, W)>,
    removed: Seq<(u64, u64, Unweighted)>,
    v: u64,
    directed: bool,
)
    ensures
        visible(without_vertex(es, v), removed, directed) == without_vertex(
            visible(es, removed, directed),
            v,
        ),
    decreases es.len(),
{
    if es.len() > 0 {
        let p = es.drop_last();
        let e = es.last();
        let vp = visible(p, removed, directed);
        lemma_visible_without(p, removed, v, directed);
        assert(vp.push(e).drop_last() =~= vp);
        if e.0 != v && e.1 != v {
            let wp = without_vertex(p, v);
            assert(wp.push(e).drop_last() =~= wp);
            lemma_count_without(p, v, e.0, e.1, directed);
        }
    }
}

/// Dropping weights commutes with dropping the edges that touch `v`.
pub proof fn lemma_units_without<W>(es: Seq<(u64, u64, W)>, v: u64)
    ensures
        units(without_vertex(es, v)) == without_vertex(units(es), v),
    decreases es.len(),
{
    if es.len() > 0 {
        let p = es.drop_last();
        let e = es.last();
        lemma_units_without(p, v);
        assert(units(es).drop_last() =~= units(p));
        if e.0 != v && e.1 != v {
            assert(units(without_vertex(p, v).push(e)) =~= units(without_vertex(p, v)).push(
                (e.0, e.1, Unweighted),
            ));
        }
    } else {
        assert(units(es) =~= Seq::<(u64, u64, Unweighted)>::empty());
    }
}

/// Dropping the edges that touch `v` distributes over concatenation.
pub proof fn lemma_without_concat<W>(a: Seq<(u64, u64, W)>, b: Seq<(u64, u64, W)>, v: u64)
    ensures
        without_vertex(a + b, v) == without_vertex(a, v) + without_vertex(b, v),
    decreases b.len(),
{
    if b.len() == 0 {
        assert(a + b =~= a);
        assert(without_vertex(a, v) + without_vertex(b, v) =~= without_vertex(a, v));
    } else {
        lemma_without_concat(a, b.drop_last(), v);
        assert((a + b).drop_last() =~= a + b.drop_last());
        assert((a + b).last() == b.last());
        let wa = without_vertex(a, v);
        let wb = without_vertex(b.drop_last(), v);
        assert((wa + wb).push(b.last()) =~= wa + wb.push(b.last()));
    }
}

/// Every visible edge is one of the edges it is drawn from.
pub proof fn lemma_visible_within<W>(
    es: Seq<(u64, u64, W)>,
    removed: Seq<(u64, u64, Unweighted)>,
    directed: bool,
)
    ensures
        forall|k: int|
            0 <= k < visible(es, removed, directed).len() ==> es.contains(
                #[trigger] visible(es, removed, directed)[k],
            ),
    decreases es.len(),
{
    if es.len() > 0 {
        let p = es.drop_last();
        lemma_visible_within(p, removed, directed);
        let v = visible(p, removed, directed);
        assert forall|k: int| 0 <= k < v.len() implies es.contains(#[trigger] v[k]) by {
            assert(p.contains(v[k]));
            let j = choose|j: int| 0 <= j < p.len() && p[j] == v[k];
            assert(es[j] == v[k]);
        }
        assert(es[es.len() - 1] == es.last());
        assert forall|k: int| 0 <= k < v.push(es.last()).len() implies es.contains(
            #[trigger] v.push(es.last())[k],
        ) by {
            if k < v.len() {
                assert(v.push(es.last())[k] == v[k]);
            }
        }
    }
}

/// Edges with equal keys connect the same endpoints.
pub proof fn lemma_key_connects(s: u64, t: u64, a: u64, b: u64, directed: bool)
    ensures
        key(s, t, directed) == key(a, b, directed) ==> connects(s, t, a, b, directed),
{
}

/// `a` followed by `b`.
fn concat(a: &Vec<(u64, u64, Unweighted)>, b: &Vec<(u64, u64, Unweighted)>) -> (r: Vec<
    (u64, u64, Unweighted),
>)
    ensures
        r@ == a@ + b@,
{
    let mut r: Vec<(u64, u64, Unweighted)> = Vec::new();
    let mut i: usize = 0;
    while i < a.len()
        invariant
            i <= a@.len(),
            r@ == a@.take(i as int),
        decreases a@.len() - i,
    {
        r.push(a[i]);
        i = i + 1;
    }
    assert(a@.take(a@.len() as int) == a@);
    let mut j: usize = 0;
    while j < b.len()
        invariant
            j <= b@.len(),
            r@ == a@ + b@.take(j as int),
        decreases b@.len() - j,
    {
        r.push(b[j]);
        j = j + 1;
        assert(a@ + b@.take(j as int) =~= (a@ + b@.take(j - 1)).push(b@[j - 1]));
    }
    assert(b@.take(b@.len() as int) == b@);
    r
}

/// The exact key of the endpoints `a`, `b`.
fn key_of(a: u64, b: u64, directed: bool) -> (r: (u64, u64))
    ensures
        r == key(a, b, directed),
{
    if directed || a <= b {
        (a, b)
    } else {
        (b, a)
    }
}

/// Counts the edges among the first `n` of `es` whose key is `k`.
fn count_with_key(es: &Vec<(u64, u64, Unweighted)>, n: usize, k: (u64, u64), directed: bool) -> (c: usize)
    requires
        n <= es@.len(),
    ensures
        c == count_key(es@.take(n as int), k, directed),
{
    let mut c: usize = 0;
    let mut j: usize = 0;
    while j < n
        invariant
            j <= n <= es@.len(),
            c <= j,
            c == count_key(es@.take(j as int), k, directed),
        decreases n - j,
    {
        assert(es@.take(j + 1).drop_last() == es@.take(j as int));
        let kj = key_of(es[j].0, es[j].1, directed);
        if kj.0 == k.0 && kj.1 == k.1 {
            c = c + 1;
        }
        j = j + 1;
    }
    c
}

/// A view of an inner graph with edges added and removed, where neither
/// change reaches the inner graph. Its edges carry no weight.
pub struct EdgeProxyGraph<G> {
    graph: G,
    added: Vec<(u64, u64, Unweighted)>,
    removed: Vec<(u64, u64, Unweighted)>,
}

impl<G: Graph> EdgeProxyGraph<G> {
    /// The inner graph.
    pub closed spec fn inner(&self) -> G {
        self.graph
    }

    /// The edges added through the proxy and still present.
    pub closed spec fn added(&self) -> Seq<(u64, u64, Unweighted)> {
        self.added@
    }

    /// The removal entries recorded against the inner graph.
    pub closed spec fn removed(&self) -> Seq<(u64, u64, Unweighted)> {
        self.removed@
    }

    /// The inner graph's edges that remain visible through the proxy.
    pub open spec fn inner_visible(&self) -> Seq<(u64, u64, Unweighted)> {
        visible(units(self.inner().edges()), self.removed(), self.inner().directed())
    }

    /// A proxy over `g` with no simulated change.
    pub fn new(g: G) -> (r: Self)
        ensures
            r.inner() == g,
            r.added() == Seq::<(u64, u64, Unweighted)>::empty(),
            r.removed() == Seq::<(u64, u64, Unweighted)>::empty(),
    {
        EdgeProxyGraph { graph: g, added: Vec::new(), removed: Vec::new() }
    }

    /// Read access to the inner graph.
    pub fn graph(&self) -> (r: &G)
        ensures
            *r == self.inner(),
    {
        &self.graph
    }

    /// Releases the inner graph, which no simulated change has touched.
    pub fn into_inner(self) -> (r: G)
        ensures
            r == self.inner(),
    {
        self.graph
    }

    /// The inner graph's edges that remain visible, without weights.
    fn visible_edges(&self) -> (r: Vec<(u64, u64, Unweighted)>)
        ensures
            r@ == self.inner_visible(),
    {
        let es = self.graph.all_edges();
        let directed = self.graph.is_directed();
        let mut us: Vec<(u64, u64, Unweighted)> = Vec::new();
        let mut i: usize = 0;
        while i < es.len()
            invariant
                i <= es@.len(),
                us@ == units(es@).take(i as int),
            decreases es@.len() - i,
        {
            us.push((es[i].0, es[i].1, Unweighted));
            i = i + 1;
        }
        assert(units(es@).take(es@.len() as int) == units(es@));
        let mut r: Vec<(u64, u64, Unweighted)> = Vec::new();
        let mut i: usize = 0;
        while i < us.len()
            invariant
                i <= us@.len(),
                us@ == units(self.inner().edges()),
                directed == self.inner().directed(),
                r@ == visible(us@.take(i as int), self.removed@, directed),
            decreases us@.len() - i,
        {
            let e = us[i];
            let k = key_of(e.0, e.1, directed);
            let before = count_with_key(&us, i, k, directed);
            let entries = count_with_key(&self.removed, self.removed.len(), k, directed);
            assert(self.removed@.take(self.removed@.len() as int) == self.removed@);
            assert(us@.take(i + 1).drop_last() == us@.take(i as int));
            if before >= entries {
                r.push(e);
            }
            i = i + 1;
        }
        assert(us@.take(us@.len() as int) == us@);
        r
    }
}

impl<G: Graph> Graph for EdgeProxyGraph<G> {
    type VertexWeight = G::VertexWeight;

    type EdgeWeight = Unweighted;

    open spec fn directed(&self) -> bool {
        self.inner().directed()
    }

    open spec fn well_formed(&self) -> bool {
        self.inner().well_formed() && edges_valid(self.inner().vertices(), self.added())
    }

    open spec fn vertices(&self) -> Seq<(u64, G::VertexWeight)> {
        self.inner().vertices()
    }

    open spec fn edges(&self) -> Seq<(u64, u64, Unweighted)> {
        self.inner_visible() + self.added()
    }

    proof fn lemma_wf(&self) {
        self.inner().lemma_wf();
        let es = self.inner().edges();
        let u = units(es);
        let v = self.inner_visible();
        let a = self.added();
        lemma_visible_within(u, self.removed(), self.inner().directed());
        assert forall|k: int| 0 <= k < (v + a).len() implies has_vertex(
            self.vertices(),
            (#[trigger] (v + a)[k]).0,
        ) && has_vertex(self.vertices(), (v + a)[k].1) by {
            if k < v.len() {
                assert((v + a)[k] == v[k]);
                assert(u.contains(v[k]));
                let j = choose|j: int| 0 <= j < u.len() && u[j] == v[k];
                assert(u[j] == (es[j].0, es[j].1, Unweighted));
            } else {
                assert((v + a)[k] == a[k - v.len()]);
            }
        }
    }

    fn is_directed(&self) -> (r: bool) {
        self.graph.is_directed()
    }

    fn all_vertices_weighted(&self) -> (r: Vec<(u64, G::VertexWeight)>) {
        self.graph.all_vertices_weighted()
    }

    fn all_edges(&self) -> (r: Vec<(u64, u64, Unweighted)>) {
        let mut r = self.visible_edges();
        let mut i: usize = 0;
        let ghost v = r@;
        while i < self.added.len()
            invariant
                i <= self.added@.len(),
                r@ == v + self.added@.take(i as int),
            decreases self.added@.len() - i,
        {
            r.push(self.added[i]);
            i = i + 1;
            assert(v + self.added@.take(i as int) =~= (v + self.added@.take(i - 1)).push(
                self.added@[i - 1],
            ));
        }
        assert(self.added@.take(self.added@.len() as int) == self.added@);
        r
    }
}

impl<G: Graph> AddEdge for EdgeProxyGraph<G> {
    open spec fn edge_addable(&self, source: u64, sink: u64) -> bool {
        true
    }

    /// Records the edge as added; the inner graph is untouched.
    fn add_edge_weighted(&mut self, source: u64, sink: u64, w: Unweighted) -> (r: Result<(), GraphError>)
        ensures
            has_vertex(old(self).vertices(), source) && has_vertex(old(self).vertices(), sink)
                ==> r is Ok,
            final(self).inner() == old(self).inner(),
            final(self).removed() == old(self).removed(),
            r is Ok ==> final(self).added() == old(self).added().push((source, sink, Unweighted)),
    {
        assert(old(self).edge_addable(source, sink));
        if !self.graph.edge_valid(source, sink) {
            return Err(GraphError::InvalidEndpoint);
        }
        self.added.push((source, sink, Unweighted));
        assert(self.inner_visible() + self.added@ =~= (old(self).inner_visible() + old(self).added@).push((source, sink, Unweighted)));
        Ok(())
    }
}

impl<G: Graph + NewVertex> NewVertex for EdgeProxyGraph<G> {
    open spec fn exhausted(&self) -> bool {
        self.inner().exhausted()
    }

    /// Adds the vertex to the inner graph.
    fn new_vertex_weighted(&mut self, w: G::VertexWeight) -> (r: Result<u64, GraphError>) {
        assert(old(self).exhausted() == (old(self).inner().exhausted()));
        let r = self.graph.new_vertex_weighted(w);
        proof {
            assert forall|k: int| 0 <= k < self.added@.len() implies has_vertex(
                self.graph.vertices(),
                (#[trigger] self.added@[k]).0,
            ) && has_vertex(self.graph.vertices(), self.added@[k].1) by {
                let a = choose|i: int|
                    0 <= i < old(self).graph.vertices().len() && (#[trigger] old(self).graph.vertices()[i]).0 == self.added@[k].0;
                let b = choose|i: int|
                    0 <= i < old(self).graph.vertices().len() && (#[trigger] old(self).graph.vertices()[i]).0 == self.added@[k].1;
                assert(self.graph.vertices()[a] == old(self).graph.vertices()[a]);
                assert(self.graph.vertices()[b] == old(self).graph.vertices()[b]);
            }
        }
        r
    }
}

impl<G: Graph> RemoveEdge for EdgeProxyGraph<G> {
    open spec fn edge_removable(&self, source: u64, sink: u64) -> bool {
        true
    }

    /// Takes back the first added edge that `f` accepts; when `f` accepts
    /// none, records a removal entry for the first visible inner edge it
    /// accepts. The inner graph is untouched.
    fn remove_edge_where<F: Fn((u64, u64, &Unweighted)) -> bool>(&mut self, f: F) -> (r: Result<
        (u64, u64, Unweighted),
        GraphError,
    >)
        ensures
            final(self).inner() == old(self).inner(),
            r is Err ==> r == Err::<(u64, u64, Unweighted), GraphError>(GraphError::NotFound) && final(self).added() == old(self).added() && final(self).removed() == old(self).removed(),
            r matches Ok(e) ==> (exists|k: int|
                0 <= k < old(self).added().len() && #[trigger] old(self).added()[k] == e && final(self).added() == old(self).added().remove(k) && final(self).removed() == old(self).removed() && forall|j: int|
                    0 <= j < k ==> accepts(f, #[trigger] old(self).added()[j], false)) || ((forall|j: int|
                0 <= j < old(self).added().len() ==> accepts(f, #[trigger] old(self).added()[j], false))
                && final(self).added() == old(self).added() && final(self).removed() == old(self).removed().push(e) && exists|q: int|
                0 <= q < old(self).inner_visible().len() && #[trigger] old(self).inner_visible()[q]
                    == e && forall|j: int|
                    0 <= j < q ==> accepts(f, #[trigger] old(self).inner_visible()[j], false)),
    {
        let vis = self.visible_edges();
        let order = concat(&self.added, &vis);
        let ghost a0 = self.added@;
        let ghost v0 = vis@;
        let ghost e0 = v0 + a0;
        let ghost d = self.inner().directed();
        proof {
            assert(old(self).edges() == e0);
        }
        match first_accepted(&order, f) {
            None => {
                proof {
                    assert forall|i: int| 0 <= i < e0.len() implies accepts(f, #[trigger] e0[i], false) by {
                        if i < v0.len() {
                            assert(e0[i] == order@[a0.len() + i]);
                        } else {
                            assert(e0[i] == order@[i - v0.len()]);
                        }
                    }
                }
                Err(GraphError::NotFound)
            },
            Some(idx) => {
                if idx < self.added.len() {
                    let e = self.added.remove(idx);
                    proof {
                        let i = v0.len() + idx;
                        assert(order@[idx as int] == a0[idx as int]);
                        assert(e0[i] == e);
                        assert(connects(e0[i].0, e0[i].1, e.0, e.1, d));
                        assert(self.inner_visible() + self.added@ =~= e0.remove(i));
                        assert forall|j: int| 0 <= j < idx implies accepts(f, #[trigger] a0[j], false) by {
                            assert(order@[j] == a0[j]);
                        }
                        assert forall|k: int| 0 <= k < self.added@.len() implies has_vertex(
                            self.inner().vertices(),
                            (#[trigger] self.added@[k]).0,
                        ) && has_vertex(self.inner().vertices(), self.added@[k].1) by {
                            let m = if k < idx { k } else { k + 1 };
                            assert(self.added@[k] == a0[m]);
                        }
                    }
                    Ok(e)
                } else {
                    let q = idx - self.added.len();
                    let e = vis[q];
                    self.removed.push(e);
                    proof {
                        assert(order@[idx as int] == v0[q as int]);
                        assert forall|j: int| 0 <= j < a0.len() implies accepts(f, #[trigger] a0[j], false) by {
                            assert(order@[j] == a0[j]);
                        }
                        assert forall|j: int| 0 <= j < q implies accepts(f, #[trigger] v0[j], false) by {
                            assert(order@[a0.len() + j] == v0[j]);
                        }
                        let k = key(e.0, e.1, d);
                        lemma_visible_push(units(self.inner().edges()), old(self).removed(), e, d);
                        lemma_count_positive(v0, k, d, q as int);
                        lemma_first_key(v0, k, d);
                        let fk = first_key(v0, k, d);
                        lemma_key_connects(v0[fk].0, v0[fk].1, e.0, e.1, d);
                        assert(e0[fk] == v0[fk]);
                        assert(e0[q as int] == e);
                        assert(self.inner_visible() + self.added@ =~= e0.remove(fk));
                    }
                    Ok(e)
                }
            },
        }
    }

    /// Takes back the first added edge that connects the endpoints; when none
    /// does, records a removal entry that hides the first visible inner edge
    /// connecting them. The inner graph is untouched.
    fn remove_edge(&mut self, source: u64, sink: u64) -> (r: Result<Unweighted, GraphError>)
        ensures
            r is Ok <==> exists|i: int|
                0 <= i < old(self).edges().len() && connects(
                    (#[trigger] old(self).edges()[i]).0,
                    old(self).edges()[i].1,
                    source,
                    sink,
                    old(self).directed(),
                ),
            final(self).inner() == old(self).inner(),
            r is Err ==> final(self).added() == old(self).added() && final(self).removed() == old(self).removed(),
            (exists|i: int|
                0 <= i < old(self).added().len() && connects(
                    (#[trigger] old(self).added()[i]).0,
                    old(self).added()[i].1,
                    source,
                    sink,
                    old(self).directed(),
                )) ==> final(self).removed() == old(self).removed() && final(self).added() == old(self).added().remove(first_connecting(old(self).added(), source, sink, old(self).directed())),
            !(exists|i: int|
                0 <= i < old(self).added().len() && connects(
                    (#[trigger] old(self).added()[i]).0,
                    old(self).added()[i].1,
                    source,
                    sink,
                    old(self).directed(),
                )) ==> final(self).added() == old(self).added(),
            !(exists|i: int|
                0 <= i < old(self).added().len() && connects(
                    (#[trigger] old(self).added()[i]).0,
                    old(self).added()[i].1,
                    source,
                    sink,
                    old(self).directed(),
                )) && r is Ok ==> final(self).inner_visible() == old(self).inner_visible().remove(
                first_connecting(old(self).inner_visible(), source, sink, old(self).directed()),
            ),
    {
        assert(old(self).edge_removable(source, sink));
        let directed = self.graph.is_directed();
        let ghost a0 = self.added@;
        let ghost v0 = self.inner_visible();
        let ghost e0 = v0 + a0;
        let mut j: usize = 0;
        while j < self.added.len()
            invariant
                self.added@ == a0,
                self.inner() == old(self).inner(),
                self.removed@ == old(self).removed(),
                old(self).added() == a0,
                v0 == old(self).inner_visible(),
                e0 == v0 + a0,
                old(self).well_formed(),
                j <= a0.len(),
                directed == self.inner().directed(),
                forall|i: int|
                    0 <= i < j ==> !connects((#[trigger] a0[i]).0, a0[i].1, source, sink, directed),
            decreases a0.len() - j,
        {
            let e = self.added[j];
            if (e.0 == source && e.1 == sink) || (!directed && e.0 == sink && e.1 == source) {
                self.added.remove(j);
                proof {
                    lemma_first_connecting(a0, source, sink, directed, j as int);
                    let i = v0.len() + j;
                    assert(e0[i] == a0[j as int]);
                    assert(old(self).edges() == e0);
                    assert(connects(old(self).edges()[i].0, old(self).edges()[i].1, source, sink, directed));
                    assert(old(self).edges()[i].2 == Unweighted);
                    assert(self.inner_visible() + self.added@ =~= e0.remove(i));
                    assert forall|k: int| 0 <= k < self.added@.len() implies has_vertex(
                        self.inner().vertices(),
                        (#[trigger] self.added@[k]).0,
                    ) && has_vertex(self.inner().vertices(), self.added@[k].1) by {
                        let m = if k < j { k } else { k + 1 };
                        assert(self.added@[k] == a0[m]);
                    }
                }
                return Ok(Unweighted);
            }
            j = j + 1;
        }
        let vis = self.visible_edges();
        let mut q: usize = 0;
        while q < vis.len()
            invariant
                vis@ == v0,
                self.added@ == a0,
                self.inner() == old(self).inner(),
                self.removed@ == old(self).removed(),
                old(self).added() == a0,
                v0 == old(self).inner_visible(),
                e0 == v0 + a0,
                old(self).well_formed(),
                directed == self.inner().directed(),
                forall|i: int|
                    0 <= i < a0.len() ==> !connects((#[trigger] a0[i]).0, a0[i].1, source, sink, directed),
                q <= v0.len(),
                forall|i: int|
                    0 <= i < q ==> !connects((#[trigger] v0[i]).0, v0[i].1, source, sink, directed),
            decreases v0.len() - q,
        {
            let e = vis[q];
            if (e.0 == source && e.1 == sink) || (!directed && e.0 == sink && e.1 == source) {
                self.removed.push(e);
                proof {
                    let k = key(e.0, e.1, directed);
                    lemma_visible_push(units(self.inner().edges()), old(self).removed(), e, directed);
                    lemma_count_positive(v0, k, directed, q as int);
                    lemma_first_key(v0, k, directed);
                    let f = first_key(v0, k, directed);
                    if f < q {
                        assert(!connects(v0[f].0, v0[f].1, source, sink, directed));
                    }
                    if q < f {
                        assert(key(v0[q as int].0, v0[q as int].1, directed) != k);
                    }
                    lemma_first_connecting(v0, source, sink, directed, q as int);
                    assert(e0[q as int] == v0[q as int]);
                    assert(old(self).edges() == e0);
                    assert(connects(old(self).edges()[q as int].0, old(self).edges()[q as int].1, source, sink, directed));
                    assert(old(self).edges()[q as int].2 == Unweighted);
                    assert(self.inner_visible() + self.added@ =~= e0.remove(q as int));
                }
                return Ok(Unweighted);
            }
            q = q + 1;
        }
        proof {
            assert forall|i: int| 0 <= i < e0.len() implies !connects(
                (#[trigger] e0[i]).0,
                e0[i].1,
                source,
                sink,
                directed,
            ) by {
                if i < v0.len() {
                    assert(e0[i] == v0[i]);
                } else {
                    assert(e0[i] == a0[i - v0.len()]);
                }
            }
        }
        Err(GraphError::NotFound)
    }
}

impl<G: Graph + RemoveVertex> RemoveVertex for EdgeProxyGraph<G> {
    open spec fn vertex_removable(&self, v: u64) -> bool {
        self.inner().vertex_removable(v)
    }

    /// Removes the vertex from the inner graph and drops the added edges
    /// incident on it.
    fn remove_vertex(&mut self, v: u64) -> (r: Result<G::VertexWeight, GraphError>) {
        assert(old(self).vertex_removable(v) == (old(self).inner().vertex_removable(v)));
        let ghost a0 = self.added@;
        let ghost vs0 = self.inner().vertices();
        let ghost es0 = self.inner().edges();
        let r = self.graph.remove_vertex(v);
        if r.is_ok() {
            let mut kept: Vec<(u64, u64, Unweighted)> = Vec::new();
            let mut k: usize = 0;
            while k < self.added.len()
                invariant
                    self.added@ == a0,
                    k <= a0.len(),
                    kept@ == without_vertex(a0.take(k as int), v),
                decreases a0.len() - k,
            {
                let e = self.added[k];
                assert(a0.take(k + 1).drop_last() == a0.take(k as int));
                if e.0 != v && e.1 != v {
                    kept.push(e);
                }
                k = k + 1;
            }
            assert(a0.take(a0.len() as int) == a0);
            self.added = kept;
            proof {
                let d = self.inner().directed();
                lemma_units_without(es0, v);
                lemma_visible_without(units(es0), self.removed(), v, d);
                lemma_without_concat(visible(units(es0), self.removed(), d), a0, v);
                lemma_without_vertex_kept(a0, v);
                let w = r->Ok_0;
                let i = choose|i: int|
                    0 <= i < vs0.len() && #[trigger] vs0[i] == (v, w) && self.inner().vertices()
                        == vs0.remove(i) && self.inner().edges() == without_vertex(es0, v);
                assert forall|m: int| 0 <= m < self.added@.len() implies has_vertex(
                    self.inner().vertices(),
                    (#[trigger] self.added@[m]).0,
                ) && has_vertex(self.inner().vertices(), self.added@[m].1) by {
                    let x = self.added@[m];
                    assert(a0.contains(x));
                    let n = choose|n: int| 0 <= n < a0.len() && a0[n] == x;
                    assert(a0[n] == x);
                    lemma_has_vertex_remove(vs0, i, x.0);
                    lemma_has_vertex_remove(vs0, i, x.1);
                }
                assert(old(self).vertices()[i] == (v, w));
                assert(self.edges() == without_vertex(old(self).edges(), v));
            }
        }
        r
    }
}

/// Adding an edge through a proxy with no simulated change and then removing
/// the same edge leaves the proxy showing exactly the inner graph's edges.
pub proof fn lemma_edge_proxy_round_trip<G: Graph>(
    start: EdgeProxyGraph<G>,
    grown: EdgeProxyGraph<G>,
    back: EdgeProxyGraph<G>,
    source: u64,
    sink: u64,
)
    requires
        start.added() == Seq::<(u64, u64, Unweighted)>::empty(),
        start.removed() == Seq::<(u64, u64, Unweighted)>::empty(),
        grown.inner() == start.inner(),
        grown.removed() == start.removed(),
        grown.added() == start.added().push((source, sink, Unweighted)),
        back.inner() == grown.inner(),
        back.removed() == grown.removed(),
        back.added() == grown.added().remove(
            first_connecting(grown.added(), source, sink, grown.directed()),
        ),
    ensures
        back.edges() == units(start.inner().edges()),
{
    let a1 = grown.added();
    assert(a1[0] == (source, sink, Unweighted));
    lemma_first_connecting(a1, source, sink, grown.directed(), 0);
    assert(back.added() =~= Seq::<(u64, u64, Unweighted)>::empty());
    lemma_visible_none(units(start.inner().edges()), start.inner().directed());
    assert(back.edges() =~= units(start.inner().edges()));
}

} // verus!
