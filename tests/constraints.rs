use graphene::adj_list::AdjListGraph;
use graphene::constrained::ConstrainedGraph;
use graphene::constraint::{check, Constraint, Unconstrainer};
use graphene::directedness::{DirectedGraph, UndirectedGraph};
use graphene::graph::{Directedness, Graph, GraphError};
use graphene::no_loops::NoLoopsGraph;
use graphene::property::{AddEdge, NewVertex, RemoveEdge, RemoveVertex};
use graphene::reflexive::ReflexiveGraph;
use graphene::unique::{Unique, UniqueGraph};

fn path(d: Directedness) -> AdjListGraph<u32, u32> {
    AdjListGraph::new(d, vec![1, 2, 3], vec![(0, 1, 5), (1, 2, 6)]).unwrap()
}

fn looped(d: Directedness) -> AdjListGraph<u32, u32> {
    AdjListGraph::new(d, vec![1, 2], vec![(0, 0, 0), (1, 1, 0), (0, 1, 7)]).unwrap()
}

#[test]
fn batch_commits_when_every_step_succeeds() {
    let mut g = path(Directedness::Directed);
    let r = Unconstrainer::new().add_vertex(7, 70).add_edge(2, 7, 8).remove_edge(0, 1).constrain(
        &mut g,
        Constraint::NoLoops,
    );
    assert_eq!(r, Ok(()));
    assert_eq!(g.all_vertices_weighted(), vec![(0, 1), (1, 2), (2, 3), (7, 70)]);
    assert_eq!(g.all_edges(), vec![(1, 2, 6), (2, 7, 8)]);
}

#[test]
fn batch_failing_step_rolls_back() {
    let mut g = path(Directedness::Directed);
    let vs = g.all_vertices_weighted();
    let es = g.all_edges();
    let r = Unconstrainer::new()
        .remove_vertex(1)
        .add_vertex(9, 90)
        .remove_edge(0, 1)
        .constrain(&mut g, Constraint::NoLoops);
    assert_eq!(r, Err(GraphError::InvariantViolated));
    assert_eq!(g.all_vertices_weighted(), vs);
    assert_eq!(g.all_edges(), es);
    assert_eq!(g.new_vertex_weighted(0), Ok(3));
}

#[test]
fn batch_breaking_invariant_rolls_back() {
    let mut g = path(Directedness::Undirected);
    let vs = g.all_vertices_weighted();
    let es = g.all_edges();
    let r = Unconstrainer::new()
        .remove_edge(1, 0)
        .remove_vertex(2)
        .add_vertex(5, 50)
        .add_edge(5, 5, 1)
        .constrain(&mut g, Constraint::NoLoops);
    assert_eq!(r, Err(GraphError::InvariantViolated));
    assert_eq!(g.all_vertices_weighted(), vs);
    assert_eq!(g.all_edges(), es);
}

#[test]
fn check_evaluates_each_constraint() {
    let p = path(Directedness::Directed);
    let l = looped(Directedness::Directed);
    assert!(check(Constraint::NoLoops, &p));
    assert!(!check(Constraint::NoLoops, &l));
    assert!(check(Constraint::Reflexive, &l));
    assert!(!check(Constraint::Reflexive, &p));
    assert!(check(Constraint::Unique, &p));
    assert!(check(Constraint::Directed, &p));
    assert!(!check(Constraint::Undirected, &p));
    let dup = AdjListGraph::<u32, u32>::new(Directedness::Undirected, vec![0, 0], vec![(0, 1, 0), (1, 0, 0)]).unwrap();
    assert!(!check(Constraint::Unique, &dup));
    let two_way = AdjListGraph::<u32, u32>::new(Directedness::Directed, vec![0, 0], vec![(0, 1, 0), (1, 0, 0)]).unwrap();
    assert!(check(Constraint::Unique, &two_way));
}

#[test]
fn no_loops_refuses_loop_graph_and_hands_it_back() {
    let g = looped(Directedness::Directed);
    match NoLoopsGraph::ensure(g) {
        Ok(_) => panic!("a graph with loops was accepted"),
        Err((back, e)) => {
            assert_eq!(e, GraphError::InvariantViolated);
            assert_eq!(back.all_edges(), vec![(0, 0, 0), (1, 1, 0), (0, 1, 7)]);
        }
    }
}

#[test]
fn no_loops_refuses_loop_edge() {
    let mut g = NoLoopsGraph::ensure(path(Directedness::Directed)).ok().unwrap();
    assert_eq!(g.add_edge_weighted(1, 1, 0), Err(GraphError::InvariantViolated));
    assert_eq!(g.add_edge_weighted(1, 9, 0), Err(GraphError::InvalidEndpoint));
    assert_eq!(g.add_edge_weighted(2, 0, 4), Ok(()));
    assert_eq!(g.remove_vertex(1), Ok(2));
    assert_eq!(g.all_edges(), vec![(2, 0, 4)]);
    assert!(g.invariant_holds());
    assert_eq!(g.new_vertex_weighted(8), Ok(3));
    assert_eq!(g.remove_edge(2, 0), Ok(4));
    assert_eq!(g.unconstrain().all_edges(), Vec::<(u64, u64, u32)>::new());
}

#[test]
fn unique_refuses_parallel_edges() {
    let mut u = UniqueGraph::ensure(path(Directedness::Undirected)).ok().unwrap();
    assert_eq!(u.add_edge_weighted(1, 0, 3), Err(GraphError::InvariantViolated));
    assert_eq!(u.add_edge_weighted(0, 2, 3), Ok(()));
    assert_eq!(u.edge_between(2, 0), Some(3));
    assert_eq!(u.edge_between(0, 0), None);
    let mut d = UniqueGraph::ensure(path(Directedness::Directed)).ok().unwrap();
    assert_eq!(d.add_edge_weighted(0, 1, 3), Err(GraphError::InvariantViolated));
    assert_eq!(d.add_edge_weighted(1, 0, 3), Ok(()));
    assert_eq!(d.remove_edge(0, 1), Ok(5));
    assert_eq!(d.remove_vertex(2), Ok(3));
    assert_eq!(d.all_edges(), vec![(1, 0, 3)]);
}

#[test]
fn unique_ensure_refuses_duplicates() {
    let g = AdjListGraph::<u32, u32>::new(Directedness::Directed, vec![0, 0], vec![(0, 1, 1), (0, 1, 2)]).unwrap();
    assert!(UniqueGraph::ensure(g).is_err());
}

#[test]
fn unique_unchecked_wraps() {
    let u = UniqueGraph::unchecked(path(Directedness::Directed));
    assert_eq!(u.edge_between(1, 2), Some(6));
}

#[test]
fn reflexive_vertex_comes_with_its_loop() {
    let mut g = ReflexiveGraph::ensure(looped(Directedness::Directed)).ok().unwrap();
    let v = g.new_vertex_weighted(3).unwrap();
    assert_eq!(v, 2);
    assert_eq!(g.all_edges(), vec![(0, 0, 0), (1, 1, 0), (0, 1, 7), (2, 2, 0)]);
    assert!(g.invariant_holds());
    assert_eq!(g.add_edge_weighted(2, 2, 1), Err(GraphError::InvariantViolated));
    assert_eq!(g.add_edge_weighted(2, 0, 1), Ok(()));
    assert_eq!(g.remove_edge(0, 0), Err(GraphError::InvariantViolated));
    assert_eq!(g.remove_vertex(0), Ok(1));
    assert_eq!(g.all_vertices(), vec![1, 2]);
    assert_eq!(g.all_edges(), vec![(1, 1, 0), (2, 2, 0)]);
    assert_eq!(g.remove_vertex(0), Err(GraphError::NotFound));
}

#[test]
fn reflexive_ensure_needs_one_loop_each() {
    assert!(ReflexiveGraph::ensure(path(Directedness::Directed)).is_err());
    let twice = AdjListGraph::<u32, u32>::new(Directedness::Directed, vec![0], vec![(0, 0, 0), (0, 0, 1)]).unwrap();
    assert!(ReflexiveGraph::ensure(twice).is_err());
}

#[test]
fn constrained_batch_through_layer() {
    let mut g = NoLoopsGraph::ensure(path(Directedness::Directed)).ok().unwrap();
    let before = g.all_edges();
    assert!(g.unconstrained(Unconstrainer::new().add_edge(0, 2, 1).add_edge(2, 2, 1)).is_err());
    assert_eq!(g.all_edges(), before);
    assert!(g.unconstrained(Unconstrainer::new().add_edge(0, 2, 1).remove_edge(0, 1)).is_ok());
    assert_eq!(g.all_edges(), vec![(1, 2, 6), (0, 2, 1)]);
}

#[test]
fn directedness_is_checked_on_wrapping() {
    assert!(DirectedGraph::ensure(path(Directedness::Directed)).is_ok());
    assert!(DirectedGraph::ensure(path(Directedness::Undirected)).is_err());
    assert!(UndirectedGraph::ensure(path(Directedness::Undirected)).is_ok());
    let mut u = UndirectedGraph::ensure(path(Directedness::Undirected)).ok().unwrap();
    assert_eq!(u.remove_edge(2, 1), Ok(6));
    assert_eq!(u.graph().all_edges(), vec![(0, 1, 5)]);
}
