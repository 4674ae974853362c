use graphene::edge::{EdgeDeref, EdgeDerefMut};
use graphene::adj_list::AdjListGraph;
use graphene::directedness::{DirectedGraph, UndirectedGraph};
use graphene::edge_proxy::EdgeProxyGraph;
use graphene::graph::{Directedness, Graph, GraphError, Unweighted};
use graphene::no_loops::NoLoopsGraph;
use graphene::property::{AddEdge, GraphMut, NewVertex, RemoveEdge, RemoveVertex};
use graphene::reflexive::ReflexiveGraph;
use graphene::subgraph_proxy::SubgraphProxy;
use graphene::unique::UniqueGraph;
use graphene::vertex_proxy::{ProxyVertex, VertexProxyGraph};

fn square() -> AdjListGraph<u32, u32> {
    AdjListGraph::new(
        Directedness::Directed,
        vec![1, 2, 3, 4],
        vec![(0, 1, 10), (1, 2, 20), (2, 3, 30), (3, 0, 40), (0, 1, 11)],
    )
    .unwrap()
}

#[test]
fn add_edge_uses_default_weight() {
    let mut g = square();
    assert_eq!(g.add_edge(2, 0), Ok(()));
    assert_eq!(g.all_edges().last(), Some(&(2, 0, 0)));
    let before = g.all_edges();
    assert_eq!(g.add_edge(2, 9), Err(GraphError::InvalidEndpoint));
    assert_eq!(g.all_edges(), before);
    assert_eq!(g.all_vertices(), vec![0, 1, 2, 3]);
}

#[test]
fn new_vertex_uses_default_weight() {
    let mut g = square();
    assert_eq!(g.new_vertex(), Ok(4));
    assert_eq!(g.vertex_weight(4), Some(0));
}

#[test]
fn set_edge_weight_changes_first_match() {
    let mut g = square();
    assert_eq!(g.set_edge_weight(0, 1, 99), Ok(10));
    assert_eq!(g.edges_between(0, 1), vec![99, 11]);
    assert_eq!(g.set_edge_weight(1, 0, 5), Err(GraphError::NotFound));
}

#[test]
fn remove_edge_where_weight_picks_by_weight() {
    let mut g = square();
    assert_eq!(g.remove_edge_where_weight(0, 1, |w: &u32| *w == 11), Ok(11));
    assert_eq!(g.edges_between(0, 1), vec![10]);
    assert_eq!(g.remove_edge_where_weight(0, 1, |w: &u32| *w > 50), Err(GraphError::NotFound));
    assert_eq!(g.edges_between(0, 1), vec![10]);
}

#[test]
fn constraint_layers_remove_what_exists() {
    let mut n = NoLoopsGraph::ensure(square()).ok().unwrap();
    assert_eq!(n.remove_edge(2, 3), Ok(30));
    assert_eq!(n.remove_vertex(3), Ok(4));
    let mut d = DirectedGraph::ensure(square()).ok().unwrap();
    assert_eq!(d.remove_edge(3, 0), Ok(40));
    assert_eq!(d.remove_vertex(0), Ok(1));
    assert_eq!(d.all_edges(), vec![(1, 2, 20), (2, 3, 30)]);
    let u = AdjListGraph::<u32, u32>::new(Directedness::Undirected, vec![1, 2], vec![(0, 1, 3)]).unwrap();
    let mut u = UndirectedGraph::ensure(u).ok().unwrap();
    assert_eq!(u.remove_edge(1, 0), Ok(3));
    assert_eq!(u.remove_vertex(1), Ok(2));
    let g = AdjListGraph::<u32, u32>::new(Directedness::Directed, vec![1, 2], vec![(0, 1, 3)]).unwrap();
    let mut q = UniqueGraph::ensure(g).ok().unwrap();
    assert_eq!(q.remove_edge(0, 1), Ok(3));
    assert_eq!(q.remove_vertex(0), Ok(1));
}

#[test]
fn reflexive_removes_non_loop_edges() {
    let g = AdjListGraph::<u32, u32>::new(Directedness::Directed, vec![1, 2], vec![(0, 0, 0), (1, 1, 0), (0, 1, 7)]).unwrap();
    let mut r = ReflexiveGraph::ensure(g).ok().unwrap();
    assert_eq!(r.remove_edge(0, 1), Ok(7));
    assert_eq!(r.remove_edge(0, 1), Err(GraphError::NotFound));
}

#[test]
fn vertex_proxy_removal_hides_incident_edges() {
    let mut p = VertexProxyGraph::new(square());
    let before = p.all_edges().len();
    let incident = p
        .all_edges()
        .iter()
        .filter(|e| e.0 == ProxyVertex::Underlying(0) || e.1 == ProxyVertex::Underlying(0))
        .count();
    assert_eq!(p.remove_vertex(ProxyVertex::Underlying(0)), Ok(()));
    let after = p.all_edges();
    assert_eq!(after.len(), before - incident);
    assert!(after.iter().all(|e| e.0 != ProxyVertex::Underlying(0) && e.1 != ProxyVertex::Underlying(0)));
    let edges = p.all_edges();
    let n = p.new_vertex().unwrap();
    assert_eq!(p.remove_vertex(n), Ok(()));
    assert_eq!(p.all_edges(), edges);
    assert_eq!(p.graph().all_edges().len(), 5);
}

#[test]
fn edge_proxy_failed_removal_changes_nothing() {
    let mut p = EdgeProxyGraph::new(square());
    p.add_edge_weighted(1, 3, Unweighted).unwrap();
    let before = p.all_edges();
    assert_eq!(p.remove_edge(3, 1), Err(GraphError::NotFound));
    assert_eq!(p.all_edges(), before);
}

#[test]
fn subgraph_refused_edge_leaves_inner_alone() {
    let mut s = SubgraphProxy::new(square());
    s.expand(0).unwrap();
    let inner = s.graph().all_edges();
    assert_eq!(s.add_edge_weighted(0, 2, 1), Err(GraphError::InvalidEndpoint));
    assert_eq!(s.graph().all_edges(), inner);
    let cache = s.exit_edges();
    assert_eq!(s.expand(0), Ok(()));
    assert_eq!(s.exit_edges(), cache);
    assert_eq!(s.remove_vertex(0), Ok(1));
    assert!(!s.graph().contains_vertex(0));
}

#[test]
fn edge_deref_reads_through_boxed_weight() {
    let mut e = (1u64, 2u64, Box::new(5u32));
    assert_eq!(*e.weight(), 5);
    *e.weight_mut() = 8;
    assert_eq!(*e.2, 8);
}

#[test]
fn layers_remove_edge_by_weight() {
    let mut n = NoLoopsGraph::ensure(square()).ok().unwrap();
    assert_eq!(n.remove_edge_where(|e: (u64, u64, &u32)| e.0 == 0 && *e.2 == 11), Ok((0, 1, 11)));
    assert_eq!(n.edges_between(0, 1), vec![10]);
    let mut d = DirectedGraph::ensure(square()).ok().unwrap();
    assert_eq!(d.remove_edge_where(|e: (u64, u64, &u32)| *e.2 == 7), Err(GraphError::NotFound));
    assert_eq!(d.edge_count(), 5);
}
