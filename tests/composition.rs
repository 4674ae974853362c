use graphene::adj_list::AdjListGraph;
use graphene::constraint::{check, Constraint};
use graphene::edge_proxy::EdgeProxyGraph;
use graphene::graph::{Directedness, Graph, GraphError, Unweighted};
use graphene::no_loops::NoLoopsGraph;
use graphene::property::{AddEdge, RemoveEdge, RemoveVertex};
use graphene::reverse_graph::ReverseGraph;
use graphene::scc::strongly_connected_components;
use graphene::unique::UniqueGraph;

fn line() -> AdjListGraph<u32, u32> {
    AdjListGraph::new(Directedness::Directed, vec![0, 0, 0], vec![(0, 1, 1), (1, 2, 2)]).unwrap()
}

#[test]
fn layers_stack_on_layers() {
    let inner = NoLoopsGraph::ensure(line()).ok().unwrap();
    let mut g = UniqueGraph::ensure(inner).ok().unwrap();
    assert_eq!(g.add_edge_weighted(0, 1, 9), Err(GraphError::InvariantViolated));
    assert_eq!(g.add_edge_weighted(2, 2, 9), Err(GraphError::InvariantViolated));
    assert_eq!(g.add_edge_weighted(2, 0, 9), Ok(()));
    assert_eq!(g.remove_vertex(1), Ok(0));
    assert_eq!(g.all_edges(), vec![(2, 0, 9)]);
    assert_eq!(g.unconstrain().unconstrain().all_edges(), vec![(2, 0, 9)]);
}

#[test]
fn layer_wraps_a_proxy() {
    let proxy = EdgeProxyGraph::new(line());
    let mut g = NoLoopsGraph::ensure(proxy).ok().unwrap();
    assert_eq!(g.add_edge_weighted(1, 1, Unweighted), Err(GraphError::InvariantViolated));
    assert_eq!(g.add_edge_weighted(2, 0, Unweighted), Ok(()));
    assert_eq!(g.remove_edge(0, 1), Ok(Unweighted));
    assert_eq!(g.all_edges(), vec![(1, 2, Unweighted), (2, 0, Unweighted)]);
    assert_eq!(g.unconstrain().into_inner().all_edges(), vec![(0, 1, 1), (1, 2, 2)]);
}

#[test]
fn checks_and_scc_run_on_wrapped_graphs() {
    let r = ReverseGraph::new(line());
    assert!(check(Constraint::NoLoops, &r));
    assert!(check(Constraint::Weak, &r));
    let comps = strongly_connected_components(&r, 2);
    assert_eq!(comps, vec![vec![2], vec![1], vec![0]]);
    let u = UniqueGraph::ensure(line()).ok().unwrap();
    assert_eq!(strongly_connected_components(&u, 0).len(), 3);
}
