use quasi_interval::create_graph::create_graph;
use quasi_interval::precedence_graph::PrecedenceGraph;
use quasi_interval::precedence_graph::PrecedenceGraphError;

#[test]
fn new_graph() {
    let nodes = vec![5, 1, 6, 4];
    let edges = vec![(5, 1), (6, 4)];

    PrecedenceGraph::new(nodes, edges).unwrap();
}

#[test]
fn create_graph_macro() {
    let g1 = create_graph(vec![], vec![(5, 1), (6, 4)]).unwrap();

    let nodes = vec![5, 1, 6, 4];
    let edges = vec![(5, 1), (6, 4)];

    let g2 = PrecedenceGraph::new(nodes, edges).unwrap();

    assert!(g1.graph_eq(&g2));
}

#[test]
#[should_panic(expected = "EdgeContainsNonexistentNode { node: 10 }")]
fn outcome_node_not_exist() {
    let nodes = vec![5, 1, 6, 4];
    let edges = vec![(5, 1), (10, 4)];

    PrecedenceGraph::new(nodes, edges).unwrap();
}

#[test]
#[should_panic(expected = "EdgeContainsNonexistentNode { node: 10 }")]
fn income_node_not_exist() {
    let nodes = vec![5, 1, 6, 4];
    let edges = vec![(5, 1), (6, 10)];

    PrecedenceGraph::new(nodes, edges).unwrap();
}

#[test]
fn error_names_missing_outcome() {
    let r = PrecedenceGraph::new(vec![1, 2], vec![(1, 2), (3, 2)]);
    assert!(matches!(
        r,
        Err(PrecedenceGraphError::EdgeContainsNonexistentNode { node: 3 })
    ));
}

#[test]
fn error_names_missing_income() {
    let r = PrecedenceGraph::new(vec![1, 2], vec![(1, 9)]);
    assert!(matches!(
        r,
        Err(PrecedenceGraphError::EdgeContainsNonexistentNode { node: 9 })
    ));
}

#[test]
fn error_prefers_outcome_endpoint() {
    let r = PrecedenceGraph::new(vec![1], vec![(7, 8)]);
    assert!(matches!(
        r,
        Err(PrecedenceGraphError::EdgeContainsNonexistentNode { node: 7 })
    ));
}

#[test]
fn valid_construction_succeeds() {
    let g = PrecedenceGraph::new(vec![1, 2, 3], vec![(1, 2), (2, 3)]).unwrap();
    assert!(g.is_linear_order());
}

#[test]
fn duplicates_collapse() {
    let g1 = PrecedenceGraph::new(vec![1, 2, 1, 2, 1], vec![(1, 2), (1, 2), (1, 2)]).unwrap();
    let g2 = PrecedenceGraph::new(vec![1, 2], vec![(1, 2)]).unwrap();
    assert!(g1.graph_eq(&g2));
    assert_eq!(g1.msf_list().len(), 2);
    assert_eq!(g1.gc_list().len(), 2);
}

#[test]
fn builder_unions_extra_nodes() {
    let g = create_graph(vec![9], vec![(1, 2)]).unwrap();
    let res = g.msf_list();
    assert_eq!(res.len(), 3);
    assert!(res.contains(&9));
    assert!(res.contains(&1));
    assert!(res.contains(&2));
}

#[test]
fn builder_and_direct_agree() {
    let nodes = vec![1, 2, 3, 4];
    let edges = vec![(1, 2), (2, 3), (1, 4)];
    let g1 = PrecedenceGraph::new(nodes, edges).unwrap();
    let g2 = create_graph(vec![1, 2, 3, 4], vec![(1, 2), (2, 3), (1, 4)]).unwrap();
    assert!(g1.graph_eq(&g2));
    assert!(g2.graph_eq(&g1));
}

#[test]
fn empty_graph() {
    let g = PrecedenceGraph::new(vec![], vec![]).unwrap();
    assert!(g.is_linear_order());
    assert!(g.is_quasi_interval_order());
    assert_eq!(g.msf_list().len(), 0);
    assert_eq!(g.gc_list().len(), 0);
}

#[test]
fn graph_eq_detects_differences() {
    let g1 = PrecedenceGraph::new(vec![1, 2], vec![(1, 2)]).unwrap();
    let g2 = PrecedenceGraph::new(vec![1, 2], vec![(2, 1)]).unwrap();
    assert!(!g1.graph_eq(&g2));
    let g3 = PrecedenceGraph::new(vec![1, 2, 3], vec![(1, 2)]).unwrap();
    assert!(!g1.graph_eq(&g3));
    let g4 = PrecedenceGraph::new(vec![2, 1], vec![(1, 2)]).unwrap();
    assert!(g1.graph_eq(&g4));
}
