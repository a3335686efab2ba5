use rdag::{WeightedEdge, DAG};

#[test]
fn lib_init_edge() {
    let edge = WeightedEdge { weight: 1.3, target: 4 };
    assert_eq!(edge.target, 4);
    assert_eq!(edge.weight, 1.3);
}

#[test]
fn lib_init_dag() {
    let n_nodes = 3;
    let edge_list = vec![(0, 1, 1.0), (0, 2, 1.0), (1, 2, 1.0)];
    let dag = DAG::init(&n_nodes, &edge_list);
    assert_eq!(dag.node_count(), n_nodes as usize);
    assert_eq!(dag.neighbors(0)[0].target, 1);
    assert_eq!(dag.neighbors(0)[0].weight, 1.0);
}

#[test]
fn dag_init_edge() {
    let edge = WeightedEdge { weight: 1.3, target: 4 };
    assert_eq!(edge.target, 4);
    assert_eq!(edge.weight, 1.3);
}

#[test]
fn dag_init_dag() {
    let n_nodes = 3;
    let edge_list = vec![(0, 1, 1.0), (0, 2, 1.0), (1, 2, 1.0)];
    let dag = DAG::init(&n_nodes, &edge_list);
    assert_eq!(dag.node_count(), n_nodes as usize);
    assert_eq!(dag.neighbors(0)[0].target, 1);
    assert_eq!(dag.neighbors(0)[0].weight, 1.0);
}

#[test]
fn init_keeps_insertion_order_per_source() {
    let edge_list: Vec<(u64, u64, i64)> = vec![(1, 2, 7), (0, 2, 5), (1, 0, -3), (1, 2, 9)];
    let dag = DAG::init(&3, &edge_list);
    assert_eq!(dag.node_count(), 3);
    assert_eq!(
        dag.neighbors(1).clone(),
        vec![
            WeightedEdge { weight: 7, target: 2 },
            WeightedEdge { weight: -3, target: 0 },
            WeightedEdge { weight: 9, target: 2 },
        ]
    );
    assert_eq!(dag.neighbors(0).clone(), vec![WeightedEdge { weight: 5, target: 2 }]);
    assert!(dag.neighbors(2).is_empty());
}

#[test]
fn init_accepts_targets_out_of_range() {
    let edge_list: Vec<(u64, u64, i64)> = vec![(0, 9, 1)];
    let dag = DAG::init(&2, &edge_list);
    assert_eq!(dag.neighbors(0)[0].target, 9);
}

#[test]
fn init_of_empty_graph() {
    let edge_list: Vec<(u64, u64, i64)> = Vec::new();
    let dag = DAG::init(&0, &edge_list);
    assert_eq!(dag.node_count(), 0);
    assert_eq!(dag.topological_sort(), Vec::<u64>::new());
}

#[test]
fn targets_in_range_are_told_from_targets_out_of_range() {
    let inside: Vec<(u64, u64, i64)> = vec![(0, 1, 1), (1, 2, 1), (2, 2, 1)];
    assert!(DAG::init(&3, &inside).has_targets_in_range());
    let outside: Vec<(u64, u64, i64)> = vec![(0, 1, 1), (1, 3, 1)];
    assert!(!DAG::init(&3, &outside).has_targets_in_range());
    let none: Vec<(u64, u64, i64)> = Vec::new();
    assert!(DAG::init(&0, &none).has_targets_in_range());
}
