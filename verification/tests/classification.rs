use quasi_interval::create_graph::create_graph;

#[test]
fn first_type_definition() {
    let g = create_graph(vec![], vec![(1, 2), (1, 3), (4, 5)]).unwrap();

    assert!(g.is_first());
    assert!(!g.is_quasi_interval_order());
}

#[test]
fn second_type_definition() {
    let g = create_graph(vec![], vec![(1, 3), (2, 3), (4, 5)]).unwrap();

    assert!(g.is_second());
    assert!(!g.is_quasi_interval_order());
}

#[test]
fn third_type_definition() {
    let g = create_graph(vec![], vec![(1, 2), (1, 3), (4, 5), (4, 3), (5, 3)]).unwrap();

    assert!(g.is_third());
    assert!(!g.is_quasi_interval_order());
}

#[test]
fn is_quasi_interval_order() {
    let g = create_graph(vec![], vec![(1, 2), (4, 5)]).unwrap();

    assert!(!g.is_first());
    assert!(!g.is_second());
    assert!(!g.is_third());
    assert!(g.is_quasi_interval_order());

    let g = create_graph(
        vec![],
        vec![(1, 4), (1, 6), (2, 4), (2, 5), (2, 6), (3, 6), (5, 7), (6, 7)],
    )
    .unwrap();

    assert!(!g.is_first());
    assert!(!g.is_second());
    assert!(!g.is_third());
    assert!(g.is_quasi_interval_order());

    let g = create_graph(vec![], vec![(1, 3), (2, 3), (3, 5), (4, 5)]).unwrap();

    assert!(!g.is_first());
    assert!(!g.is_second());
    assert!(!g.is_third());
    assert!(g.is_quasi_interval_order());

    let g = create_graph(vec![], vec![(1, 4), (2, 4), (3, 4), (4, 5), (4, 6)]).unwrap();

    assert!(!g.is_first());
    assert!(!g.is_second());
    assert!(!g.is_third());
    assert!(g.is_quasi_interval_order());

    let g = create_graph(vec![], vec![(1, 4), (2, 4), (2, 3), (4, 5), (3, 5)]).unwrap();

    assert!(!g.is_first());
    assert!(!g.is_second());
    assert!(!g.is_third());
    assert!(g.is_quasi_interval_order());
}

#[test]
fn is_not_quasi_interval_order() {
    let g = create_graph(vec![], vec![(5, 1), (5, 2), (5, 3), (7, 6), (6, 4)]).unwrap();

    assert!(g.is_first());
    assert!(!g.is_second());
    assert!(!g.is_third());
    assert!(!g.is_quasi_interval_order());

    let g = create_graph(vec![], vec![(8, 5), (5, 1), (5, 2), (5, 3), (7, 6), (6, 4)]).unwrap();

    assert!(g.is_first());
    assert!(!g.is_second());
    assert!(!g.is_third());
    assert!(!g.is_quasi_interval_order());

    let g = create_graph(
        vec![],
        vec![
            (10, 5),
            (10, 8),
            (9, 8),
            (8, 6),
            (6, 4),
            (4, 2),
            (7, 5),
            (7, 4),
            (5, 3),
            (3, 1),
        ],
    )
    .unwrap();

    assert!(!g.is_first());
    assert!(!g.is_second());
    assert!(g.is_third());
    assert!(!g.is_quasi_interval_order());

    let g = create_graph(vec![], vec![(1, 3), (2, 3), (3, 5), (4, 6), (6, 5)]).unwrap();

    assert!(!g.is_first());
    assert!(g.is_second());
    assert!(!g.is_third());
    assert!(!g.is_quasi_interval_order());

    let g = create_graph(
        vec![],
        vec![
            (1, 3),
            (1, 5),
            (2, 3),
            (2, 6),
            (5, 7),
            (6, 7),
            (3, 8),
            (7, 9),
            (8, 9),
        ],
    )
    .unwrap();

    assert!(!g.is_first());
    assert!(g.is_second());
    assert!(!g.is_third());
    assert!(!g.is_quasi_interval_order());

    let g = create_graph(
        vec![],
        vec![
            (1, 2),
            (1, 3),
            (2, 4),
            (4, 7),
            (7, 8),
            (3, 5),
            (3, 6),
            (5, 8),
            (6, 8),
        ],
    )
    .unwrap();

    assert!(g.is_first());
    assert!(!g.is_second());
    assert!(!g.is_third());
    assert!(!g.is_quasi_interval_order());

    let g = create_graph(
        vec![],
        vec![
            (1, 2),
            (1, 3),
            (2, 4),
            (4, 7),
            (7, 10),
            (3, 5),
            (5, 6),
            (6, 8),
            (6, 9),
            (8, 10),
            (9, 10),
        ],
    )
    .unwrap();

    assert!(g.is_first());
    assert!(!g.is_second());
    assert!(!g.is_third());
    assert!(!g.is_quasi_interval_order());
}

#[test]
fn is_linear_order() {
    let g = create_graph(vec![], vec![(1, 2), (2, 3)]).unwrap();

    assert!(g.is_linear_order());

    let g = create_graph(vec![], vec![]).unwrap();

    assert!(g.is_linear_order());
}

#[test]
fn is_not_linear_order() {
    let g = create_graph(vec![], vec![(1, 2), (4, 5)]).unwrap();

    assert!(!g.is_linear_order());
}
