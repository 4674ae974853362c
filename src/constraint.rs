//! Named invariants and the all-or-nothing batch that keeps them.
use vstd::prelude::*;
use crate::adj_list::{bump, AdjListGraph, GraphState};
use crate::graph::{between, connects, has_vertex, without_vertex, Graph, GraphError};
use crate::property::{AddEdge, RemoveVertex};
use crate::reach::{
    lemma_reaches_symmetric, lemma_reaches_trans, list_has, reachable_from, reaches,
};

verus! {

/// A structural invariant a constraint layer guarantees.
#[derive(Clone, Copy, Debug, PartialEq, Eq, Structural)]
pub enum Constraint {
    /// No edge has equal endpoints.
    NoLoops,
    /// Every vertex has exactly one loop.
    Reflexive,
    /// No two edges connect the same endpoints.
    Unique,
    /// The graph is directed.
    Directed,
    /// The graph is undirected.
    Undirected,
    /// The graph is directed and, with edge directions ignored, connected.
    Weak,
}

/// No edge of `es` is a loop.
pub open spec fn no_loops<W>(es: Seq<(u64, u64, W)>) -> bool {
    forall|k: int| 0 <= k < es.len() ==> (#[trigger] es[k]).0 != es[k].1
}

/// Every vertex of `vs` has exactly one loop among `es`.
pub open spec fn reflexive<V, W>(vs: Seq<(u64, V)>, es: Seq<(u64, u64, W)>, directed: bool) -> bool {
    forall|i: int|
        0 <= i < vs.len() ==> between(es, (#[trigger] vs[i]).0, vs[i].0, directed).len() == 1
}

/// No two edges of `es` connect the same endpoints.
pub open spec fn unique<W>(es: Seq<(u64, u64, W)>, directed: bool) -> bool {
    forall|i: int, j: int|
        0 <= i < j < es.len() ==> !connects(
            (#[trigger] es[j]).0,
            es[j].1,
            (#[trigger] es[i]).0,
            es[i].1,
            directed,
        )
}

/// With edge directions ignored, every vertex of `vs` reaches every other.
pub open spec fn weakly_connected<V, W>(vs: Seq<(u64, V)>, es: Seq<(u64, u64, W)>) -> bool {
    forall|i: int, j: int|
        0 <= i < vs.len() && 0 <= j < vs.len() ==> reaches(es, (#[trigger] vs[i]).0, (#[trigger] vs[j]).0, false)
}

/// Evaluates weak connectivity of `g`.
fn check_weakly_connected<G: Graph>(g: &G) -> (r: bool)
    ensures
        r == weakly_connected(g.vertices(), g.edges()),
{
    let vs = g.all_vertices_weighted();
    if vs.len() == 0 {
        return true;
    }
    let root = vs[0].0;
    let seen = reachable_from(g, root, false);
    let mut i: usize = 0;
    while i < vs.len()
        invariant
            vs@ == g.vertices(),
            vs@.len() > 0,
            root == vs@[0].0,
            i <= vs@.len(),
            forall|x: u64| seen@.contains(x) <==> reaches(g.edges(), root, x, false),
            forall|j: int| 0 <= j < i ==> reaches(g.edges(), root, (#[trigger] vs@[j]).0, false),
        decreases vs@.len() - i,
    {
        if !list_has(&seen, vs[i].0) {
            assert(!reaches(g.edges(), vs@[0].0, vs@[i as int].0, false));
            return false;
        }
        i = i + 1;
    }
    proof {
        assert forall|a: int, b: int| 0 <= a < vs@.len() && 0 <= b < vs@.len() implies reaches(
            g.edges(),
            (#[trigger] vs@[a]).0,
            (#[trigger] vs@[b]).0,
            false,
        ) by {
            lemma_reaches_symmetric(g.edges(), root, vs@[a].0);
            lemma_reaches_trans(g.edges(), vs@[a].0, root, vs@[b].0, false);
        }
    }
    true
}

/// Whether constraint `c` holds of a graph with the given directedness,
/// vertices and edges.
pub open spec fn holds_on<VW, EW>(
    c: Constraint,
    directed: bool,
    vs: Seq<(u64, VW)>,
    es: Seq<(u64, u64, EW)>,
) -> bool {
    match c {
        Constraint::NoLoops => no_loops(es),
        Constraint::Reflexive => reflexive(vs, es, directed),
        Constraint::Unique => unique(es, directed),
        Constraint::Directed => directed,
        Constraint::Undirected => !directed,
        Constraint::Weak => directed && weakly_connected(vs, es),
    }
}

/// Whether constraint `c` holds of the graph state `s`.
pub open spec fn holds<VW, EW>(c: Constraint, s: GraphState<VW, EW>) -> bool {
    holds_on(c, s.directed, s.vertices, s.edges)
}

/// Evaluates constraint `c` on `g`.
#[verifier::loop_isolation(false)]
pub fn check<G: Graph>(c: Constraint, g: &G) -> (r: bool)
    ensures
        r == holds_on(c, g.directed(), g.vertices(), g.edges()),
{
    match c {
        Constraint::NoLoops => {
            let es = g.all_edges();
            let mut k: usize = 0;
            while k < es.len()
                invariant
                    k <= es@.len(),
                    es@ == g.edges(),
                    forall|j: int| 0 <= j < k ==> (#[trigger] es@[j]).0 != es@[j].1,
                decreases es@.len() - k,
            {
                if es[k].0 == es[k].1 {
                    assert(g.edges()[k as int].0 == g.edges()[k as int].1);
                    return false;
                }
                k = k + 1;
            }
            true
        },
        Constraint::Reflexive => {
            let vs = g.all_vertices_weighted();
            let mut i: usize = 0;
            while i < vs.len()
                invariant
                    i <= vs@.len(),
                    vs@ == g.vertices(),
                    forall|j: int|
                        0 <= j < i ==> between(g.edges(), (#[trigger] vs@[j]).0, vs@[j].0, g.directed()).len()
                            == 1,
                decreases vs@.len() - i,
            {
                if g.edges_between(vs[i].0, vs[i].0).len() != 1 {
                    assert(between(g.edges(), g.vertices()[i as int].0, g.vertices()[i as int].0, g.directed()).len() != 1);
                    return false;
                }
                i = i + 1;
            }
            true
        },
        Constraint::Unique => {
            let es = g.all_edges();
            let directed = g.is_directed();
            let mut i: usize = 0;
            while i < es.len()
                invariant
                    i <= es@.len(),
                    es@ == g.edges(),
                    directed == g.directed(),
                    forall|a: int, b: int|
                        0 <= a < i && a < b < es@.len() ==> !connects(
                            (#[trigger] es@[b]).0,
                            es@[b].1,
                            (#[trigger] es@[a]).0,
                            es@[a].1,
                            directed,
                        ),
                decreases es@.len() - i,
            {
                let mut j: usize = i + 1;
                while j < es.len()
                    invariant
                        i < es@.len(),
                        i + 1 <= j <= es@.len(),
                        es@ == g.edges(),
                        directed == g.directed(),
                        forall|a: int, b: int|
                            0 <= a < i && a < b < es@.len() ==> !connects(
                                (#[trigger] es@[b]).0,
                                es@[b].1,
                                (#[trigger] es@[a]).0,
                                es@[a].1,
                                directed,
                            ),
                        forall|b: int|
                            i < b < j ==> !connects(
                                (#[trigger] es@[b]).0,
                                es@[b].1,
                                es@[i as int].0,
                                es@[i as int].1,
                                directed,
                            ),
                    decreases es@.len() - j,
                {
                    let a = es[i];
                    let b = es[j];
                    if (b.0 == a.0 && b.1 == a.1) || (!directed && b.0 == a.1 && b.1 == a.0) {
                        assert(connects(g.edges()[j as int].0, g.edges()[j as int].1, g.edges()[i as int].0, g.edges()[i as int].1, g.directed()));
                        return false;
                    }
                    j = j + 1;
                }
                i = i + 1;
            }
            true
        },
        Constraint::Directed => g.is_directed(),
        Constraint::Undirected => !g.is_directed(),
        Constraint::Weak => g.is_directed() && check_weakly_connected(g),
    }
}

/// One primitive edit of a batch.
#[derive(Clone, Copy, Debug)]
pub enum Operation<VW, EW> {
    AddVertex(u64, VW),
    RemoveVertex(u64),
    AddEdge(u64, u64, EW),
    RemoveEdge(u64, u64),
}

/// The position of the entry of `vs` with identifier `v`.
pub open spec fn vertex_index<V>(vs: Seq<(u64, V)>, v: u64) -> int {
    choose|i: int| 0 <= i < vs.len() && (#[trigger] vs[i]).0 == v
}

/// The position of the first edge of `es` connecting `a` to `b`.
#[verifier::opaque]
pub open spec fn first_connecting<W>(es: Seq<(u64, u64, W)>, a: u64, b: u64, directed: bool) -> int {
    choose|i: int|
        0 <= i < es.len() && connects(es[i].0, es[i].1, a, b, directed) && forall|j: int|
            0 <= j < i ==> !connects((#[trigger] es[j]).0, es[j].1, a, b, directed)
}

/// The first connecting position is the one that no earlier edge precedes.
pub proof fn lemma_first_connecting<W>(es: Seq<(u64, u64, W)>, a: u64, b: u64, directed: bool, p: int)
    requires
        0 <= p < es.len(),
        connects(es[p].0, es[p].1, a, b, directed),
        forall|j: int| 0 <= j < p ==> !connects((#[trigger] es[j]).0, es[j].1, a, b, directed),
    ensures
        first_connecting(es, a, b, directed) == p,
{
    reveal(first_connecting);
    let i = first_connecting(es, a, b, directed);
    assert(0 <= i < es.len() && connects(es[i].0, es[i].1, a, b, directed) && forall|j: int|
        0 <= j < i ==> !connects((#[trigger] es[j]).0, es[j].1, a, b, directed));
    if i < p {
        assert(!connects(es[i].0, es[i].1, a, b, directed));
    }
    if p < i {
        assert(!connects(es[p].0, es[p].1, a, b, directed));
    }
}

/// The state after one edit, or `None` when the edit fails.
pub open spec fn apply_op<VW, EW>(s: GraphState<VW, EW>, op: Operation<VW, EW>) -> Option<
    GraphState<VW, EW>,
> {
    match op {
        Operation::AddVertex(v, w) => if has_vertex(s.vertices, v) {
            None
        } else {
            Some(GraphState { vertices: s.vertices.push((v, w)), next_id: bump(s.next_id, v), ..s })
        },
        Operation::RemoveVertex(v) => if has_vertex(s.vertices, v) {
            Some(
                GraphState {
                    vertices: s.vertices.remove(vertex_index(s.vertices, v)),
                    edges: without_vertex(s.edges, v),
                    ..s
                },
            )
        } else {
            None
        },
        Operation::AddEdge(a, b, w) => if has_vertex(s.vertices, a) && has_vertex(s.vertices, b) {
            Some(GraphState { edges: s.edges.push((a, b, w)), ..s })
        } else {
            None
        },
        Operation::RemoveEdge(a, b) => if exists|i: int|
            0 <= i < s.edges.len() && connects(
                (#[trigger] s.edges[i]).0,
                s.edges[i].1,
                a,
                b,
                s.directed,
            ) {
            Some(
                GraphState {
                    edges: s.edges.remove(first_connecting(s.edges, a, b, s.directed)),
                    ..s
                },
            )
        } else {
            None
        },
    }
}

/// The state after the edits `ops` in order, or `None` when one fails.
pub open spec fn apply_all<VW, EW>(s: GraphState<VW, EW>, ops: Seq<Operation<VW, EW>>) -> Option<
    GraphState<VW, EW>,
>
    decreases ops.len(),
{
    if ops.len() == 0 {
        Some(s)
    } else {
        match apply_all(s, ops.drop_last()) {
            Some(t) => apply_op(t, ops.last()),
            None => None,
        }
    }
}

/// A batch of one edit does what that edit does.
pub proof fn lemma_apply_single<VW, EW>(s: GraphState<VW, EW>, op: Operation<VW, EW>)
    ensures
        apply_all(s, Seq::empty().push(op)) == apply_op(s, op),
{
    let ops = Seq::empty().push(op);
    assert(ops.drop_last() == Seq::<Operation<VW, EW>>::empty());
    assert(apply_all(s, ops.drop_last()) == Some(s));
}

/// Once a prefix of the edits fails, the whole sequence fails.
proof fn lemma_apply_all_fails<VW, EW>(s: GraphState<VW, EW>, ops: Seq<Operation<VW, EW>>, k: int)
    requires
        0 <= k <= ops.len(),
        apply_all(s, ops.take(k)) is None,
    ensures
        apply_all(s, ops) is None,
    decreases ops.len() - k,
{
    if k < ops.len() {
        assert(ops.take(k + 1).drop_last() == ops.take(k));
        lemma_apply_all_fails(s, ops, k + 1);
    } else {
        assert(ops.take(k) == ops);
    }
}

/// What it takes to undo one applied edit.
enum Undo<VW, EW> {
    VertexAdded(u64),
    VertexRemoved(usize, (u64, VW), Vec<(u64, u64, EW)>),
    EdgeAdded,
    EdgeRemoved(usize, (u64, u64, EW)),
}

spec fn undo_fits<VW, EW>(s: GraphState<VW, EW>, u: Undo<VW, EW>) -> bool {
    match u {
        Undo::VertexAdded(_) => s.vertices.len() > 0,
        Undo::VertexRemoved(p, _, _) => p <= s.vertices.len(),
        Undo::EdgeAdded => s.edges.len() > 0,
        Undo::EdgeRemoved(p, _) => p <= s.edges.len(),
    }
}

spec fn undone<VW, EW>(s: GraphState<VW, EW>, u: Undo<VW, EW>) -> GraphState<VW, EW> {
    match u {
        Undo::VertexAdded(n) => GraphState { vertices: s.vertices.drop_last(), next_id: n, ..s },
        Undo::VertexRemoved(p, x, es) => GraphState {
            vertices: s.vertices.insert(p as int, x),
            edges: es@,
            ..s
        },
        Undo::EdgeAdded => GraphState { edges: s.edges.drop_last(), ..s },
        Undo::EdgeRemoved(p, e) => GraphState { edges: s.edges.insert(p as int, e), ..s },
    }
}

/// Whether `r` is a correct outcome of applying `op` to a graph in state
/// `before` that ends in state `after`.
spec fn applied<VW, EW>(
    before: GraphState<VW, EW>,
    after: GraphState<VW, EW>,
    op: Operation<VW, EW>,
    r: Result<Undo<VW, EW>, GraphError>,
) -> bool {
    match r {
        Ok(u) => apply_op(before, op) == Some(after) && undo_fits(after, u) && undone(after, u)
            == before,
        Err(_) => apply_op(before, op) is None && after == before,
    }
}

fn apply_add_vertex<VW: Copy, EW: Copy>(g: &mut AdjListGraph<VW, EW>, v: u64, w: VW) -> (r: Result<
    Undo<VW, EW>,
    GraphError,
>)
    requires
        old(g).well_formed(),
    ensures
        final(g).well_formed(),
        applied(old(g).state(), final(g).state(), Operation::AddVertex(v, w), r),
{
    let ghost s0 = g.state();
    let n = g.next_free_id();
    match g.add_vertex(v, w) {
        Ok(()) => {
            assert(g.state().vertices.drop_last() =~= s0.vertices);
            Ok(Undo::VertexAdded(n))
        },
        Err(e) => Err(e),
    }
}

fn apply_remove_vertex<VW: Copy, EW: Copy>(g: &mut AdjListGraph<VW, EW>, v: u64) -> (r: Result<
    Undo<VW, EW>,
    GraphError,
>)
    requires
        old(g).well_formed(),
    ensures
        final(g).well_formed(),
        applied(old(g).state(), final(g).state(), Operation::RemoveVertex(v), r),
{
    let ghost s0 = g.state();
    match g.vertex_position(v) {
        None => Err(GraphError::NotFound),
        Some(p) => {
            let saved = g.all_edges();
            match g.remove_vertex(v) {
                Ok(w) => {
                    proof {
                        let i = choose|i: int|
                            0 <= i < s0.vertices.len() && #[trigger] s0.vertices[i] == (v, w)
                                && g.vertices() == s0.vertices.remove(i) && g.edges()
                                == without_vertex(s0.edges, v);
                        assert(i == p as int);
                        let k = vertex_index(s0.vertices, v);
                        assert(k == p as int);
                        assert(g.state().vertices.insert(p as int, (v, w)) =~= s0.vertices);
                    }
                    Ok(Undo::VertexRemoved(p, (v, w), saved))
                },
                Err(e) => Err(e),
            }
        },
    }
}

fn apply_add_edge<VW: Copy, EW: Copy>(g: &mut AdjListGraph<VW, EW>, a: u64, b: u64, w: EW) -> (r:
    Result<Undo<VW, EW>, GraphError>)
    requires
        old(g).well_formed(),
    ensures
        final(g).well_formed(),
        applied(old(g).state(), final(g).state(), Operation::AddEdge(a, b, w), r),
{
    let ghost s0 = g.state();
    match g.add_edge_weighted(a, b, w) {
        Ok(()) => {
            assert(g.state().edges.drop_last() =~= s0.edges);
            Ok(Undo::EdgeAdded)
        },
        Err(e) => Err(e),
    }
}

fn apply_remove_edge<VW: Copy, EW: Copy>(g: &mut AdjListGraph<VW, EW>, a: u64, b: u64) -> (r:
    Result<Undo<VW, EW>, GraphError>)
    requires
        old(g).well_formed(),
    ensures
        final(g).well_formed(),
        applied(old(g).state(), final(g).state(), Operation::RemoveEdge(a, b), r),
{
    let ghost s0 = g.state();
    match g.edge_position(a, b) {
        None => {
            assert forall|i: int| 0 <= i < s0.edges.len() implies !connects(
                (#[trigger] s0.edges[i]).0,
                s0.edges[i].1,
                a,
                b,
                s0.directed,
            ) by {
                assert(s0.edges[i] == g.edges()[i]);
            }
            Err(GraphError::NotFound)
        },
        Some(p) => {
            let e = g.take_edge_at(p);
            proof {
                lemma_first_connecting(s0.edges, a, b, s0.directed, p as int);
                assert(g.state().edges.insert(p as int, e) =~= s0.edges);
                assert(apply_op(s0, Operation::RemoveEdge(a, b)) == Some(g.state()));
            }
            Ok(Undo::EdgeRemoved(p, e))
        },
    }
}

/// Applies one edit without looking at any invariant, returning how to undo it.
fn apply<VW: Copy, EW: Copy>(g: &mut AdjListGraph<VW, EW>, op: &Operation<VW, EW>) -> (r: Result<
    Undo<VW, EW>,
    GraphError,
>)
    requires
        old(g).well_formed(),
    ensures
        final(g).well_formed(),
        applied(old(g).state(), final(g).state(), *op, r),
{
    match op {
        Operation::AddVertex(v, w) => apply_add_vertex(g, *v, *w),
        Operation::RemoveVertex(v) => apply_remove_vertex(g, *v),
        Operation::AddEdge(a, b, w) => apply_add_edge(g, *a, *b, *w),
        Operation::RemoveEdge(a, b) => apply_remove_edge(g, *a, *b),
    }
}

/// Reverses one applied edit.
fn undo<VW: Copy, EW: Copy>(g: &mut AdjListGraph<VW, EW>, u: Undo<VW, EW>)
    requires
        undo_fits(old(g).state(), u),
    ensures
        final(g).state() == undone(old(g).state(), u),
{
    match u {
        Undo::VertexAdded(n) => g.undo_vertex_added(n),
        Undo::VertexRemoved(p, x, es) => g.undo_vertex_removed(p, x, es),
        Undo::EdgeAdded => g.undo_edge_added(),
        Undo::EdgeRemoved(p, e) => g.undo_edge_removed(p, e),
    }
}

/// A batch of primitive edits, committed as one step or not at all.
pub struct Unconstrainer<VW, EW> {
    operations: Vec<Operation<VW, EW>>,
}

impl<VW: Copy, EW: Copy> Unconstrainer<VW, EW> {
    /// The edits of the batch, in order.
    pub closed spec fn operations(&self) -> Seq<Operation<VW, EW>> {
        self.operations@
    }

    /// An empty batch.
    pub fn new() -> (r: Self)
        ensures
            r.operations() == Seq::<Operation<VW, EW>>::empty(),
    {
        Unconstrainer { operations: Vec::new() }
    }

    /// The batch followed by adding vertex `v` with weight `w`.
    pub fn add_vertex(self, v: u64, w: VW) -> (r: Self)
        ensures
            r.operations() == self.operations().push(Operation::AddVertex(v, w)),
    {
        let mut s = self;
        s.operations.push(Operation::AddVertex(v, w));
        s
    }

    /// The batch followed by removing vertex `v`.
    pub fn remove_vertex(self, v: u64) -> (r: Self)
        ensures
            r.operations() == self.operations().push(Operation::RemoveVertex(v)),
    {
        let mut s = self;
        s.operations.push(Operation::RemoveVertex(v));
        s
    }

    /// The batch followed by adding an edge from `source` to `sink`.
    pub fn add_edge(self, source: u64, sink: u64, w: EW) -> (r: Self)
        ensures
            r.operations() == self.operations().push(Operation::AddEdge(source, sink, w)),
    {
        let mut s = self;
        s.operations.push(Operation::AddEdge(source, sink, w));
        s
    }

    /// The batch followed by removing an edge connecting `source` to `sink`.
    pub fn remove_edge(self, source: u64, sink: u64) -> (r: Self)
        ensures
            r.operations() == self.operations().push(Operation::RemoveEdge(source, sink)),
    {
        let mut s = self;
        s.operations.push(Operation::RemoveEdge(source, sink));
        s
    }

    /// Applies the edits to `g` in order, then checks `c` once. Succeeds, and
    /// leaves the edited graph, exactly when every edit succeeds and `c` holds
    /// afterwards; otherwise every applied edit is undone in reverse order and
    /// `g` is left exactly as it was.
    pub fn constrain(self, g: &mut AdjListGraph<VW, EW>, c: Constraint) -> (r: Result<
        (),
        GraphError,
    >)
        requires
            old(g).well_formed(),
        ensures
            final(g).well_formed(),
            r is Ok <==> (apply_all(old(g).state(), self.operations()) matches Some(s) && holds(
                c,
                s,
            )),
            r is Ok ==> apply_all(old(g).state(), self.operations()) == Some(final(g).state()),
            r is Err ==> r == Err::<(), GraphError>(GraphError::InvariantViolated) && final(g).state() == old(g).state(),
    {
        let ghost s0 = g.state();
        let ghost ops = self.operations@;
        let mut undos: Vec<Undo<VW, EW>> = Vec::new();
        let ghost mut states: Seq<GraphState<VW, EW>> = seq![s0];
        let mut i: usize = 0;
        let mut failed = false;
        while i < self.operations.len() && !failed
            invariant
                ops == self.operations@,
                i <= ops.len(),
                g.well_formed(),
                undos@.len() == i,
                states.len() == i + 1,
                states[0] == s0,
                g.state() == states[i as int],
                apply_all(s0, ops.take(i as int)) == Some(states[i as int]),
                forall|j: int|
                    0 <= j < i ==> undo_fits(states[j + 1], #[trigger] undos@[j]) && undone(
                        states[j + 1],
                        undos@[j],
                    ) == states[j],
                failed ==> i < ops.len() && apply_all(s0, ops.take(i + 1)) is None,
            decreases ops.len() - i + (if failed { 0int } else { 1int }),
        {
            assert(ops.take(i + 1).drop_last() == ops.take(i as int));
            match apply(g, &self.operations[i]) {
                Ok(u) => {
                    undos.push(u);
                    proof {
                        states = states.push(g.state());
                    }
                    i = i + 1;
                },
                Err(_) => {
                    failed = true;
                },
            }
        }
        let ok = if failed {
            proof {
                lemma_apply_all_fails(s0, ops, i + 1);
            }
            false
        } else {
            assert(ops.take(i as int) == ops);
            check(c, g)
        };
        if ok {
            return Ok(());
        }
        while undos.len() > 0
            invariant
                undos@.len() < states.len(),
                states[0] == s0,
                g.state() == states[undos@.len() as int],
                forall|j: int|
                    0 <= j < undos@.len() ==> undo_fits(states[j + 1], #[trigger] undos@[j])
                        && undone(states[j + 1], undos@[j]) == states[j],
            decreases undos@.len(),
        {
            let u = undos.pop().unwrap();
            undo(g, u);
        }
        Err(GraphError::InvariantViolated)
    }
}

} // verus!
