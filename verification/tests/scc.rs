use resolvent::scc::{tarjan_scc, Digraph, GraphError};

#[test]
fn components_are_reverse_topological() {
    let graph = Digraph::with_edges(4, &[(0, 1), (1, 0), (1, 2), (2, 3), (3, 2)]).unwrap();
    let sccs = tarjan_scc(&graph);
    assert_eq!(sccs.components(), &[vec![2, 3], vec![0, 1]]);
}

#[test]
fn deep_chain_is_iterative_and_deterministic() {
    let n = 10_000;
    let edges: Vec<(usize, usize)> = (0..n - 1).map(|i| (i, i + 1)).collect();
    let graph = Digraph::with_edges(n, &edges).unwrap();
    let sccs = tarjan_scc(&graph);
    assert_eq!(sccs.len(), n);
    assert_eq!(sccs.components()[0], vec![n - 1]);
    assert_eq!(sccs.components()[n - 1], vec![0]);
}

#[test]
fn out_of_range_edges_are_rejected() {
    assert_eq!(Digraph::with_edges(2, &[(0, 2)]).unwrap_err(), GraphError::NodeOutOfBounds { node: 2, n_nodes: 2 });
    let mut g = Digraph::new(2);
    assert!(g.add_edge(1, 0).is_ok());
    assert!(g.add_edge(5, 0).is_err());
    assert_eq!(g.successors(1), &[0]);
}

#[test]
fn every_node_lands_in_exactly_one_component() {
    let graph = Digraph::with_edges(5, &[(0, 1), (1, 2), (2, 0), (3, 4)]).unwrap();
    let sccs = tarjan_scc(&graph);
    assert_eq!(sccs.len(), 3);
    let mut seen = vec![0usize; 5];
    for c in sccs.components() {
        for &v in c {
            seen[v] += 1;
        }
    }
    assert_eq!(seen, vec![1, 1, 1, 1, 1]);
    assert_eq!(sccs.component_of(0), sccs.component_of(2));
    assert_ne!(sccs.component_of(3), sccs.component_of(4));
    assert_eq!(sccs.component_of(9), None);
}

#[test]
fn graph_errors_name_the_node() {
    let e = Digraph::with_edges(2, &[(0, 7)]).unwrap_err();
    assert_eq!(e.to_string(), "edge references node 7 but graph has only 2 node(s)");
}
