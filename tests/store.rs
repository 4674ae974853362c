use graphene::adj_list::AdjListGraph;
use graphene::graph::{Directedness, Graph, GraphError};
use graphene::property::{AddEdge, NewVertex, RemoveEdge, RemoveVertex};

fn triangle(d: Directedness) -> AdjListGraph<u32, u32> {
    AdjListGraph::new(d, vec![10, 20, 30], vec![(0, 1, 1), (1, 2, 2), (2, 0, 3)]).unwrap()
}

#[test]
fn new_numbers_vertices_by_position() {
    let g = triangle(Directedness::Directed);
    assert_eq!(g.all_vertices(), vec![0, 1, 2]);
    assert_eq!(g.all_vertices_weighted(), vec![(0, 10), (1, 20), (2, 30)]);
    assert_eq!(g.all_edges(), vec![(0, 1, 1), (1, 2, 2), (2, 0, 3)]);
    assert_eq!(g.vertex_weight(1), Some(20));
    assert_eq!(g.vertex_weight(7), None);
}

#[test]
fn new_rejects_edge_out_of_range() {
    let g = AdjListGraph::<u32, u32>::new(Directedness::Directed, vec![1, 2], vec![(0, 2, 0)]);
    assert!(g.is_none());
}

#[test]
fn new_vertex_takes_next_identifier() {
    let mut g = triangle(Directedness::Directed);
    assert_eq!(g.new_vertex_weighted(40), Ok(3));
    assert_eq!(g.new_vertex_weighted(50), Ok(4));
    assert!(g.contains_vertex(4));
    assert_eq!(g.all_edges().len(), 3);
}

#[test]
fn add_vertex_with_taken_identifier_fails() {
    let mut g = triangle(Directedness::Directed);
    assert_eq!(g.add_vertex(1, 99), Err(GraphError::InvariantViolated));
    assert_eq!(g.add_vertex(9, 99), Ok(()));
    assert_eq!(g.new_vertex_weighted(0), Ok(10));
}

#[test]
fn add_vertex_at_largest_identifier_exhausts() {
    let mut g = AdjListGraph::<u32, u32>::empty(Directedness::Directed);
    assert_eq!(g.add_vertex(u64::MAX, 1), Ok(()));
    assert_eq!(g.new_vertex_weighted(2), Err(GraphError::Exhausted));
    assert_eq!(g.all_vertices(), vec![u64::MAX]);
}

#[test]
fn add_edge_needs_both_endpoints() {
    let mut g = triangle(Directedness::Directed);
    let vs = g.all_vertices_weighted();
    let es = g.all_edges();
    assert_eq!(g.add_edge_weighted(0, 9, 5), Err(GraphError::InvalidEndpoint));
    assert_eq!(g.all_vertices_weighted(), vs);
    assert_eq!(g.all_edges(), es);
    assert_eq!(g.add_edge_weighted(0, 2, 5), Ok(()));
    assert!(g.contains_vertex(0) && g.contains_vertex(2));
    assert_eq!(g.all_edges(), vec![(0, 1, 1), (1, 2, 2), (2, 0, 3), (0, 2, 5)]);
}

#[test]
fn remove_vertex_drops_incident_edges() {
    let mut g = triangle(Directedness::Directed);
    g.add_edge_weighted(0, 0, 7).unwrap();
    let before = g.all_edges().len();
    let incident = g.edges_incident_on(0).len();
    assert_eq!(incident, 3);
    assert_eq!(g.remove_vertex(0), Ok(10));
    let after = g.all_edges();
    assert!(after.iter().all(|e| e.0 != 0 && e.1 != 0));
    assert_eq!(after.len(), before - incident);
    assert_eq!(after, vec![(1, 2, 2)]);
    assert_eq!(g.all_vertices(), vec![1, 2]);
}

#[test]
fn remove_missing_vertex_fails() {
    let mut g = triangle(Directedness::Undirected);
    assert_eq!(g.remove_vertex(5), Err(GraphError::NotFound));
    assert_eq!(g.all_vertices(), vec![0, 1, 2]);
}

#[test]
fn remove_edge_takes_first_match() {
    let mut g = triangle(Directedness::Directed);
    g.add_edge_weighted(0, 1, 9).unwrap();
    assert_eq!(g.remove_edge(0, 1), Ok(1));
    assert_eq!(g.all_edges(), vec![(1, 2, 2), (2, 0, 3), (0, 1, 9)]);
    assert_eq!(g.remove_edge(1, 0), Err(GraphError::NotFound));
}

#[test]
fn undirected_remove_edge_matches_either_way() {
    let mut g = triangle(Directedness::Undirected);
    assert_eq!(g.remove_edge(1, 0), Ok(1));
    assert_eq!(g.all_edges(), vec![(1, 2, 2), (2, 0, 3)]);
}

#[test]
fn edges_between_respects_directedness() {
    let d = triangle(Directedness::Directed);
    assert_eq!(d.edges_between(0, 1), vec![1]);
    assert_eq!(d.edges_between(1, 0), Vec::<u32>::new());
    let mut u = triangle(Directedness::Undirected);
    u.add_edge_weighted(1, 0, 4).unwrap();
    assert_eq!(u.edges_between(0, 1), vec![1, 4]);
    assert_eq!(u.edges_between(1, 0), vec![1, 4]);
}

#[test]
fn incidence_queries() {
    let d = triangle(Directedness::Directed);
    assert_eq!(d.edges_sourced_in(1), vec![(2, 2)]);
    assert_eq!(d.edges_sinked_in(1), vec![(0, 1)]);
    assert_eq!(d.edges_incident_on(1), vec![(0, 1), (2, 2)]);
    let u = triangle(Directedness::Undirected);
    assert_eq!(u.edges_sourced_in(1), vec![(0, 1), (2, 2)]);
    assert_eq!(u.edges_sinked_in(1), vec![(0, 1), (2, 2)]);
    assert!(d.edge_valid(0, 2));
    assert!(!d.edge_valid(0, 3));
    assert!(d.is_directed());
    assert!(!u.is_directed());
}
