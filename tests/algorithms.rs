use graphene::adj_list::AdjListGraph;
use graphene::graph::Directedness;
use graphene::property::AddEdge;
use graphene::reach::reachable_from;
use graphene::scc::strongly_connected_components;

fn graph_with(ids: &[u64], edges: &[(u64, u64)]) -> AdjListGraph<u32, u32> {
    let mut g = AdjListGraph::empty(Directedness::Directed);
    for &v in ids {
        g.add_vertex(v, 0).unwrap();
    }
    for &(a, b) in edges {
        g.add_edge_weighted(a, b, 0).unwrap();
    }
    g
}

fn sorted(mut v: Vec<u64>) -> Vec<u64> {
    v.sort();
    v
}

#[test]
fn scc_two_components_in_order() {
    let g = graph_with(&[1, 2, 3, 4], &[(1, 2), (2, 1), (2, 3), (3, 4), (4, 3)]);
    let comps = strongly_connected_components(&g, 1);
    assert_eq!(comps.len(), 2);
    assert_eq!(sorted(comps[0].clone()), vec![1, 2]);
    assert_eq!(sorted(comps[1].clone()), vec![3, 4]);
    assert!(comps[0].iter().all(|v| !comps[1].contains(v)));
}

#[test]
fn scc_covers_only_reachable_vertices() {
    let g = graph_with(&[1, 2, 3, 4, 5], &[(1, 2), (2, 3), (3, 2), (5, 1)]);
    let comps = strongly_connected_components(&g, 1);
    assert_eq!(comps.len(), 2);
    assert_eq!(comps[0], vec![1]);
    assert_eq!(sorted(comps[1].clone()), vec![2, 3]);
}

#[test]
fn scc_later_components_do_not_reach_earlier_ones() {
    let g = graph_with(
        &[0, 1, 2, 3, 4, 5],
        &[(0, 1), (1, 2), (2, 0), (2, 3), (3, 4), (4, 3), (1, 5), (5, 4)],
    );
    let comps = strongly_connected_components(&g, 0);
    assert_eq!(comps.len(), 3);
    let position = |v: u64| comps.iter().position(|c| c.contains(&v)).unwrap();
    assert_eq!(position(0), 0);
    assert_eq!(position(0), position(1));
    assert_eq!(position(1), position(2));
    assert_eq!(position(3), position(4));
    assert!(position(5) < position(3));
    let total: usize = comps.iter().map(|c| c.len()).sum();
    assert_eq!(total, 6);
}

#[test]
fn scc_single_vertex() {
    let g = graph_with(&[7], &[]);
    assert_eq!(strongly_connected_components(&g, 7), vec![vec![7]]);
}

#[test]
fn reachable_follows_direction_or_not() {
    let g = graph_with(&[1, 2, 3], &[(1, 2), (3, 2)]);
    assert_eq!(reachable_from(&g, 1, true), vec![1, 2]);
    assert_eq!(sorted(reachable_from(&g, 1, false)), vec![1, 2, 3]);
    assert_eq!(reachable_from(&g, 2, true), vec![2]);
}
