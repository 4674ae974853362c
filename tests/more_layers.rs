use graphene::adj_list::AdjListGraph;
use graphene::edge::{Edge, EdgeWeighted};
use graphene::graph::{Directedness, Graph, GraphError};
use graphene::property::{AddEdge, GraphMut, RemoveEdge, RemoveVertex};
use graphene::weak::WeakGraph;

fn chain() -> AdjListGraph<u32, u32> {
    AdjListGraph::new(Directedness::Directed, vec![1, 2, 3], vec![(0, 1, 4), (2, 1, 5)]).unwrap()
}

#[test]
fn weak_accepts_connected_ignoring_direction() {
    assert!(WeakGraph::ensure(chain()).is_ok());
    let apart = AdjListGraph::<u32, u32>::new(Directedness::Directed, vec![1, 2, 3], vec![(0, 1, 4)]).unwrap();
    assert!(WeakGraph::ensure(apart).is_err());
    let undirected = AdjListGraph::<u32, u32>::new(Directedness::Undirected, vec![1, 2], vec![(0, 1, 4)]).unwrap();
    assert!(WeakGraph::ensure(undirected).is_err());
}

#[test]
fn weak_refuses_disconnecting_edits() {
    let mut g = WeakGraph::ensure(chain()).ok().unwrap();
    let before = g.all_edges();
    assert_eq!(g.remove_edge(0, 1), Err(GraphError::InvariantViolated));
    assert_eq!(g.all_edges(), before);
    assert_eq!(g.remove_vertex(1), Err(GraphError::InvariantViolated));
    assert_eq!(g.all_vertices(), vec![0, 1, 2]);
    assert_eq!(g.remove_edge(1, 0), Err(GraphError::NotFound));
    assert_eq!(g.add_edge_weighted(0, 2, 6), Ok(()));
    assert_eq!(g.remove_edge(0, 1), Ok(4));
    assert_eq!(g.remove_vertex(0), Ok(1));
    assert_eq!(g.all_edges(), vec![(2, 1, 5)]);
    assert_eq!(g.add_edge_weighted(0, 1, 1), Err(GraphError::InvalidEndpoint));
    assert_eq!(g.remove_vertex(0), Err(GraphError::NotFound));
}

#[test]
fn weak_new_wraps_without_check() {
    let g = WeakGraph::new(chain());
    assert_eq!(g.edge_count(), 2);
}

#[test]
fn edge_traits_on_tuples() {
    let e = (3u64, 3u64, 9u32);
    assert!(e.is_loop());
    assert_eq!(e.weight_ref(), &9);
    assert_eq!(e.split(), ((3, 3), 9));
    let f = (1u64, 2u64);
    assert_eq!((f.source(), f.sink()), (1, 2));
    assert!(!f.is_loop());
    assert_eq!((4u64, 5u64, 'x').weight_owned(), 'x');
}

#[test]
fn counts_and_weight_updates() {
    let mut g = chain();
    assert_eq!(g.vertex_count(), 3);
    assert_eq!(g.edge_count(), 2);
    assert_eq!(g.set_vertex_weight(2, 30), Ok(3));
    assert_eq!(g.vertex_weight(2), Some(30));
    assert_eq!(g.set_vertex_weight(8, 1), Err(GraphError::NotFound));
    assert_eq!(g.all_vertices_weighted(), vec![(0, 1), (1, 2), (2, 30)]);
}
