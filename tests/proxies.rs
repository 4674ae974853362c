use graphene::adj_list::AdjListGraph;
use graphene::edge_proxy::EdgeProxyGraph;
use graphene::graph::{Directedness, Graph, GraphError, Unweighted};
use graphene::property::{AddEdge, NewVertex, RemoveEdge, RemoveVertex};
use graphene::reverse_graph::ReverseGraph;
use graphene::subgraph_proxy::SubgraphProxy;
use graphene::vertex_proxy::{ProxyVertex, VertexProxyGraph};

fn sample(d: Directedness) -> AdjListGraph<u32, u32> {
    AdjListGraph::new(
        d,
        vec![0, 0, 0, 0],
        vec![(0, 1, 1), (1, 2, 2), (1, 2, 3), (2, 3, 4), (3, 0, 5)],
    )
    .unwrap()
}

fn units(es: &[(u64, u64, u32)]) -> Vec<(u64, u64, Unweighted)> {
    es.iter().map(|e| (e.0, e.1, Unweighted)).collect()
}

#[test]
fn edge_proxy_round_trip_shows_inner_edges() {
    let g = sample(Directedness::Directed);
    let inner = units(&g.all_edges());
    let mut p = EdgeProxyGraph::new(g);
    assert_eq!(p.add_edge_weighted(3, 1, Unweighted), Ok(()));
    assert_eq!(p.all_edges().len(), inner.len() + 1);
    assert_eq!(p.remove_edge(3, 1), Ok(Unweighted));
    assert_eq!(p.all_edges(), inner);
}

#[test]
fn edge_proxy_removal_leaves_inner_untouched() {
    let g = sample(Directedness::Directed);
    let original = g.all_edges();
    let mut p = EdgeProxyGraph::new(g);
    assert_eq!(p.remove_edge(1, 2), Ok(Unweighted));
    assert_eq!(
        p.all_edges(),
        vec![(0, 1, Unweighted), (1, 2, Unweighted), (2, 3, Unweighted), (3, 0, Unweighted)]
    );
    assert_eq!(p.remove_edge(1, 2), Ok(Unweighted));
    assert_eq!(p.remove_edge(1, 2), Err(GraphError::NotFound));
    assert_eq!(p.all_edges(), vec![(0, 1, Unweighted), (2, 3, Unweighted), (3, 0, Unweighted)]);
    assert_eq!(p.add_edge_weighted(0, 7, Unweighted), Err(GraphError::InvalidEndpoint));
    assert_eq!(p.graph().all_edges(), original);
    assert_eq!(p.into_inner().all_edges(), original);
}

#[test]
fn edge_proxy_prefers_added_edges() {
    let mut p = EdgeProxyGraph::new(sample(Directedness::Undirected));
    p.add_edge_weighted(2, 1, Unweighted).unwrap();
    assert_eq!(p.remove_edge(1, 2), Ok(Unweighted));
    assert_eq!(p.all_edges().len(), 5);
    assert_eq!(p.remove_edge(0, 3), Ok(Unweighted));
    assert_eq!(
        p.all_edges(),
        vec![(0, 1, Unweighted), (1, 2, Unweighted), (1, 2, Unweighted), (2, 3, Unweighted)]
    );
}

#[test]
fn edge_proxy_remove_vertex_purges_added_edges() {
    let mut p = EdgeProxyGraph::new(sample(Directedness::Directed));
    p.add_edge_weighted(0, 2, Unweighted).unwrap();
    p.add_edge_weighted(1, 3, Unweighted).unwrap();
    assert_eq!(p.remove_vertex(2), Ok(0));
    assert_eq!(
        p.all_edges(),
        vec![(0, 1, Unweighted), (3, 0, Unweighted), (1, 3, Unweighted)]
    );
    assert_eq!(p.new_vertex_weighted(9), Ok(4));
    assert_eq!(p.all_vertices(), vec![0, 1, 3, 4]);
}

#[test]
fn reverse_graph_swaps_edges() {
    let mut r = ReverseGraph::new(sample(Directedness::Directed));
    assert_eq!(r.all_edges(), vec![(1, 0, 1), (2, 1, 2), (2, 1, 3), (3, 2, 4), (0, 3, 5)]);
    assert_eq!(r.edges_between(2, 1), vec![2, 3]);
    assert_eq!(r.edges_between(1, 2), Vec::<u32>::new());
    assert_eq!(r.add_edge_weighted(0, 2, 6), Ok(()));
    assert_eq!(r.remove_edge(1, 0), Ok(1));
    assert_eq!(r.remove_vertex(3), Ok(0));
    assert_eq!(r.new_vertex_weighted(1), Ok(4));
    let inner = r.into_inner();
    assert_eq!(inner.all_edges(), vec![(1, 2, 2), (1, 2, 3), (2, 0, 6)]);
}

#[test]
fn subgraph_exit_edges_follow_expansion() {
    let g = sample(Directedness::Directed);
    let mut s = SubgraphProxy::new(g);
    assert_eq!(s.expand(1), Ok(()));
    assert_eq!(s.exit_edges(), vec![(1, 2), (1, 2)]);
    assert_eq!(s.expand(2), Ok(()));
    assert_eq!(s.exit_edges(), vec![(2, 3)]);
    assert_eq!(s.expand(2), Ok(()));
    assert_eq!(s.expand(9), Err(GraphError::NotFound));
    assert_eq!(s.expand(0), Ok(()));
    let mut exits = s.exit_edges();
    exits.sort();
    assert_eq!(exits, vec![(2, 3)]);
    assert_eq!(s.all_vertices(), vec![0, 1, 2]);
    assert_eq!(s.all_edges(), vec![(0, 1, 1), (1, 2, 2), (1, 2, 3)]);
    assert_eq!(s.expand(3), Ok(()));
    assert_eq!(s.exit_edges(), Vec::<(u64, u64)>::new());
}

#[test]
fn subgraph_exit_cache_matches_recomputation() {
    let g = sample(Directedness::Directed);
    let all = g.all_edges();
    let mut s = SubgraphProxy::new(g);
    let mut allowed: Vec<u64> = Vec::new();
    for v in [3u64, 1, 0, 2] {
        s.expand(v).unwrap();
        allowed.push(v);
        let mut cached = s.exit_edges();
        cached.sort();
        let mut recomputed: Vec<(u64, u64)> = all
            .iter()
            .filter(|e| allowed.contains(&e.0) && !allowed.contains(&e.1))
            .map(|e| (e.0, e.1))
            .collect();
        recomputed.sort();
        assert_eq!(cached, recomputed);
    }
}

#[test]
fn subgraph_adds_edges_inside_only() {
    let mut s = SubgraphProxy::new(sample(Directedness::Directed));
    s.expand(0).unwrap();
    s.expand(1).unwrap();
    assert_eq!(s.add_edge_weighted(1, 0, 9), Ok(()));
    assert_eq!(s.add_edge_weighted(1, 3, 9), Err(GraphError::InvalidEndpoint));
    assert_eq!(s.all_edges(), vec![(0, 1, 1), (1, 0, 9)]);
    assert_eq!(s.graph().all_edges().len(), 6);
}

#[test]
fn vertex_proxy_hides_and_adds_vertices() {
    let mut p = VertexProxyGraph::new(sample(Directedness::Directed));
    assert_eq!(p.new_vertex(), Ok(ProxyVertex::New(0)));
    assert_eq!(p.new_vertex(), Ok(ProxyVertex::New(1)));
    assert_eq!(p.remove_vertex(ProxyVertex::Underlying(2)), Ok(()));
    assert_eq!(p.remove_vertex(ProxyVertex::Underlying(2)), Err(GraphError::NotFound));
    assert!(!p.contains_vertex(ProxyVertex::Underlying(2)));
    assert!(p.contains_vertex(ProxyVertex::Underlying(3)));
    assert_eq!(
        p.all_vertices(),
        vec![
            ProxyVertex::Underlying(0),
            ProxyVertex::Underlying(1),
            ProxyVertex::Underlying(3),
            ProxyVertex::New(0),
            ProxyVertex::New(1)
        ]
    );
    assert_eq!(
        p.all_edges(),
        vec![
            (ProxyVertex::Underlying(0), ProxyVertex::Underlying(1), 1),
            (ProxyVertex::Underlying(3), ProxyVertex::Underlying(0), 5)
        ]
    );
    assert_eq!(p.remove_vertex(ProxyVertex::New(0)), Ok(()));
    assert_eq!(p.new_vertex(), Ok(ProxyVertex::New(2)));
    assert!(!p.contains_vertex(ProxyVertex::New(0)));
    assert_eq!(p.graph().all_vertices().len(), 4);
}

#[test]
fn subgraph_new_vertex_is_allowed() {
    let mut s = SubgraphProxy::new(sample(Directedness::Directed));
    s.expand(0).unwrap();
    assert_eq!(s.new_vertex_weighted(7), Ok(4));
    assert_eq!(s.all_vertices(), vec![0, 4]);
    assert_eq!(s.exit_edges(), vec![(0, 1)]);
    assert_eq!(s.add_edge_weighted(4, 0, 1), Ok(()));
    assert_eq!(s.all_edges(), vec![(4, 0, 1)]);
}

#[test]
fn subgraph_remove_vertex_drops_its_exits() {
    let mut s = SubgraphProxy::new(sample(Directedness::Directed));
    s.expand(1).unwrap();
    s.expand(3).unwrap();
    let mut exits = s.exit_edges();
    exits.sort();
    assert_eq!(exits, vec![(1, 2), (1, 2), (3, 0)]);
    assert_eq!(s.remove_vertex(0), Err(GraphError::NotFound));
    assert_eq!(s.remove_vertex(1), Ok(0));
    assert_eq!(s.exit_edges(), vec![(3, 0)]);
    assert_eq!(s.all_vertices(), vec![3]);
    assert_eq!(s.graph().all_edges(), vec![(2, 3, 4), (3, 0, 5)]);
}

#[test]
fn subgraph_remove_edge_inside_only() {
    let mut s = SubgraphProxy::new(sample(Directedness::Directed));
    s.expand(1).unwrap();
    s.expand(2).unwrap();
    assert_eq!(s.remove_edge(0, 1), Err(GraphError::NotFound));
    assert_eq!(s.remove_edge(1, 2), Ok(2));
    assert_eq!(s.all_edges(), vec![(1, 2, 3)]);
    assert_eq!(s.exit_edges(), vec![(2, 3)]);
}
