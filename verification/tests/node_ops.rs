use quasi_interval::create_graph::create_graph;
use quasi_interval::precedence_graph::PrecedenceGraph;

#[test]
fn all_successors_chain() {
    let g = create_graph(vec![], vec![(1, 2), (2, 3)]).unwrap();
    let n1 = g.get_node(1).unwrap();
    assert_eq!(n1.all_successors(&g), vec![2, 3]);
    let n3 = g.get_node(3).unwrap();
    assert_eq!(n3.all_successors(&g), Vec::<u128>::new());
}

#[test]
fn all_successors_counts_paths() {
    let g = create_graph(vec![], vec![(1, 2), (1, 3), (2, 4), (3, 4)]).unwrap();
    let n1 = g.get_node(1).unwrap();
    let succs = n1.all_successors(&g);
    assert_eq!(succs.len(), 4);
    assert_eq!(succs.iter().filter(|v| **v == 4).count(), 2);
    assert_eq!(succs.iter().filter(|v| **v == 2).count(), 1);
    assert_eq!(succs.iter().filter(|v| **v == 3).count(), 1);
}

#[test]
fn all_predecessor_chain() {
    let g = create_graph(vec![], vec![(1, 2), (2, 3)]).unwrap();
    let n3 = g.get_node(3).unwrap();
    let preds = n3.all_predecessor(&g);
    assert_eq!(preds, vec![2, 1]);
    let n1 = g.get_node(1).unwrap();
    assert_eq!(n1.all_predecessor(&g), Vec::<u128>::new());
}

#[test]
fn comparable_deduplicates() {
    let g = create_graph(vec![], vec![(1, 2), (1, 3), (2, 4), (3, 4)]).unwrap();
    let n1 = g.get_node(1).unwrap();
    let mut c = n1.comparable(&g);
    c.sort();
    assert_eq!(c, vec![1, 2, 3, 4]);
}

#[test]
fn is_comparable_pairs() {
    let g = create_graph(vec![], vec![(1, 2), (2, 3), (4, 5)]).unwrap();
    let n1 = g.get_node(1).unwrap();
    let n3 = g.get_node(3).unwrap();
    let n4 = g.get_node(4).unwrap();
    assert!(n1.is_comparable(&g, &n3));
    assert!(n3.is_comparable(&g, &n1));
    assert!(n1.is_comparable(&g, &n1));
    assert!(!n1.is_comparable(&g, &n4));
    assert!(!n4.is_comparable(&g, &n3));
}

#[test]
fn succ_linear_order_without() {
    let g = create_graph(vec![], vec![(1, 2), (1, 3), (2, 4)]).unwrap();
    let n1 = g.get_node(1).unwrap();
    assert!(!n1.is_succ_linear_order_without(&g, &vec![]));
    assert!(n1.is_succ_linear_order_without(&g, &vec![3]));
    assert!(n1.is_succ_linear_order_without(&g, &vec![2]));
    let n2 = g.get_node(2).unwrap();
    assert!(n2.is_succ_linear_order_without(&g, &vec![]));
}

#[test]
fn get_node_absent() {
    let g = create_graph(vec![], vec![(1, 2)]).unwrap();
    assert!(g.get_node(5).is_none());
    assert!(g.get_node(2).is_some());
}

#[test]
fn msf_exact_chain() {
    let g = create_graph(vec![], vec![(1, 2), (2, 3)]).unwrap();
    assert_eq!(g.msf_list(), vec![1, 2, 3]);
    assert_eq!(g.gc_list(), vec![1, 2, 3]);
}

#[test]
fn gc_respects_edges() {
    let g = create_graph(vec![], vec![(1, 2), (4, 5)]).unwrap();
    let res = g.gc_list();
    let pos = |v: u128| res.iter().position(|x| *x == v).unwrap();
    assert!(pos(1) < pos(2));
    assert!(pos(4) < pos(5));
    assert!(pos(1) < 2 && pos(4) < 2);
    assert!(pos(2) >= 2 && pos(5) >= 2);
}

#[test]
fn isolated_nodes_listed() {
    let g = PrecedenceGraph::new(vec![1, 2, 3], vec![]).unwrap();
    let mut m = g.msf_list();
    m.sort();
    assert_eq!(m, vec![1, 2, 3]);
    let mut c = g.gc_list();
    c.sort();
    assert_eq!(c, vec![1, 2, 3]);
    assert!(!g.is_linear_order());
}

#[test]
fn single_node_is_linear() {
    let g = PrecedenceGraph::new(vec![7], vec![]).unwrap();
    assert!(g.is_linear_order());
    assert!(g.is_quasi_interval_order());
    assert_eq!(g.msf_list(), vec![7]);
    assert_eq!(g.gc_list(), vec![7]);
}

#[test]
fn bowtie_is_quasi_interval() {
    let g = create_graph(
        vec![],
        vec![(1, 4), (1, 6), (2, 4), (2, 5), (2, 6), (3, 6), (5, 7), (6, 7)],
    )
    .unwrap();
    assert!(g.is_quasi_interval_order());
    assert!(!g.is_first());
    assert!(!g.is_second());
    assert!(!g.is_third());
}

#[test]
fn two_disjoint_edges_boundary() {
    let g = create_graph(vec![], vec![(1, 2), (4, 5)]).unwrap();
    assert!(g.is_quasi_interval_order());
    assert!(!g.is_first());
    assert!(!g.is_second());
    assert!(!g.is_third());
    assert!(!g.is_linear_order());
}

#[test]
fn msf_counts_descend() {
    let g = create_graph(vec![], vec![(5, 1), (5, 2), (5, 3), (7, 6), (6, 4)]).unwrap();
    let res = g.msf_list();
    let count = |v: u128| g.get_node(v).unwrap().all_successors(&g).len();
    for w in res.windows(2) {
        assert!(count(w[0]) >= count(w[1]));
    }
}
