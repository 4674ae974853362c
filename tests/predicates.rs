use graphene::adj_list::AdjListGraph;
use graphene::edge_proxy::EdgeProxyGraph;
use graphene::graph::{Directedness, Graph, GraphError, Unweighted};
use graphene::property::{AddEdge, RemoveEdge};
use graphene::reflexive::ReflexiveGraph;
use graphene::reverse_graph::ReverseGraph;
use graphene::subgraph_proxy::SubgraphProxy;
use graphene::unique::UniqueGraph;
use graphene::weak::WeakGraph;

fn ring() -> AdjListGraph<u32, u32> {
    AdjListGraph::new(
        Directedness::Directed,
        vec![0, 0, 0],
        vec![(0, 1, 5), (1, 2, 6), (2, 0, 7), (0, 1, 8)],
    )
    .unwrap()
}

#[test]
fn store_removes_first_accepted_edge() {
    let mut g = ring();
    assert_eq!(g.remove_edge_where(|e: (u64, u64, &u32)| *e.2 > 5), Ok((1, 2, 6)));
    assert_eq!(g.all_edges(), vec![(0, 1, 5), (2, 0, 7), (0, 1, 8)]);
    assert_eq!(g.remove_edge_where(|e: (u64, u64, &u32)| e.0 == 1), Err(GraphError::NotFound));
    assert_eq!(g.all_edges().len(), 3);
}

#[test]
fn edge_proxy_predicate_prefers_added_edges() {
    let mut p = EdgeProxyGraph::new(ring());
    p.add_edge_weighted(2, 1, Unweighted).unwrap();
    p.add_edge_weighted(0, 2, Unweighted).unwrap();
    assert_eq!(
        p.remove_edge_where(|e: (u64, u64, &Unweighted)| e.1 == 2),
        Ok((0, 2, Unweighted))
    );
    assert_eq!(
        p.remove_edge_where(|e: (u64, u64, &Unweighted)| e.0 == 0),
        Ok((0, 1, Unweighted))
    );
    assert_eq!(
        p.all_edges(),
        vec![(1, 2, Unweighted), (2, 0, Unweighted), (0, 1, Unweighted), (2, 1, Unweighted)]
    );
    assert_eq!(
        p.remove_edge_where(|e: (u64, u64, &Unweighted)| e.0 == e.1),
        Err(GraphError::NotFound)
    );
    assert_eq!(p.graph().all_edges().len(), 4);
}

#[test]
fn reverse_predicate_sees_reversed_edges() {
    let mut r = ReverseGraph::new(ring());
    assert_eq!(r.remove_edge_where(|e: (u64, u64, &u32)| e.0 == 2), Ok((2, 1, 6)));
    let inner = r.into_inner();
    assert_eq!(inner.all_edges(), vec![(0, 1, 5), (2, 0, 7), (0, 1, 8)]);
}

#[test]
fn subgraph_predicate_stays_inside() {
    let mut s = SubgraphProxy::new(ring());
    s.expand(0).unwrap();
    s.expand(1).unwrap();
    assert_eq!(s.remove_edge_where(|e: (u64, u64, &u32)| *e.2 == 6), Err(GraphError::NotFound));
    assert_eq!(s.remove_edge_where(|e: (u64, u64, &u32)| *e.2 == 8), Ok((0, 1, 8)));
    assert_eq!(s.all_edges(), vec![(0, 1, 5)]);
    assert_eq!(s.graph().all_edges().len(), 3);
}

#[test]
fn reflexive_predicate_refuses_loops() {
    let g = AdjListGraph::<u32, u32>::new(Directedness::Directed, vec![0, 0], vec![(0, 0, 1), (1, 1, 2), (0, 1, 3)]).unwrap();
    let mut r = ReflexiveGraph::ensure(g).ok().unwrap();
    assert_eq!(r.remove_edge_where(|e: (u64, u64, &u32)| *e.2 < 3), Err(GraphError::InvariantViolated));
    assert_eq!(r.remove_edge_where(|e: (u64, u64, &u32)| *e.2 == 3), Ok((0, 1, 3)));
    assert_eq!(r.edge_count(), 2);
}

#[test]
fn weak_predicate_keeps_connectivity() {
    let mut w = WeakGraph::ensure(ring()).ok().unwrap();
    assert_eq!(w.remove_edge_where(|e: (u64, u64, &u32)| *e.2 == 6), Ok((1, 2, 6)));
    let before = w.all_edges();
    assert_eq!(w.remove_edge_where(|e: (u64, u64, &u32)| *e.2 == 7), Err(GraphError::InvariantViolated));
    assert_eq!(w.all_edges(), before);
}

#[test]
fn unique_predicate_removal() {
    let g = AdjListGraph::<u32, u32>::new(Directedness::Directed, vec![0, 0], vec![(0, 1, 3), (1, 0, 4)]).unwrap();
    let mut u = UniqueGraph::ensure(g).ok().unwrap();
    assert_eq!(u.remove_edge_where(|e: (u64, u64, &u32)| e.0 == 1), Ok((1, 0, 4)));
    assert_eq!(u.add_edge(1, 0), Ok(()));
}
