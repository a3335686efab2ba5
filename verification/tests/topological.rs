use rdag::DAG;

#[test]
fn lib_trivial_tsort() {
    let n_nodes = 3;
    let edge_list = vec![(0, 1, 1.0), (0, 2, 1.0), (1, 2, 1.0)];
    let dag = DAG::init(&n_nodes, &edge_list);
    let t_sort = dag.topological_sort();
    assert_eq!(t_sort, vec![0, 1, 2]);
}

#[test]
fn lib_trivial_tsort2() {
    let n_nodes = 3;
    let edge_list = vec![(0, 2, 1.0), (0, 1, 1.0), (1, 2, 1.0)];
    let dag = DAG::init(&n_nodes, &edge_list);
    let t_sort = dag.topological_sort();
    assert_eq!(t_sort, vec![0, 1, 2]);
}

#[test]
fn lib_intermediate_tsort() {
    let n_nodes = 8;
    let edge_list = vec![
        (0, 1, 1.0),
        (1, 2, 1.0),
        (2, 3, 1.0),
        (0, 4, 1.0),
        (4, 3, 1.0),
        (5, 4, 1.0),
        (5, 6, 1.0),
        (7, 0, 1.0),
    ];
    let dag = DAG::init(&n_nodes, &edge_list);
    let t_sort = dag.topological_sort();
    assert_eq!(t_sort, vec![7, 5, 6, 0, 4, 1, 2, 3]);
}

#[test]
fn dag_trivial_tsort() {
    let n_nodes = 3;
    let edge_list = vec![(0, 1, 1.0), (0, 2, 1.0), (1, 2, 1.0)];
    let dag = DAG::init(&n_nodes, &edge_list);
    let t_sort = dag.topological_sort();
    assert_eq!(t_sort, vec![0, 1, 2]);
}

#[test]
fn dag_trivial_tsort2() {
    let n_nodes = 3;
    let edge_list = vec![(0, 2, 1.0), (0, 1, 1.0), (1, 2, 1.0)];
    let dag = DAG::init(&n_nodes, &edge_list);
    let t_sort = dag.topological_sort();
    assert_eq!(t_sort, vec![0, 1, 2]);
}

#[test]
fn dag_intermediate_tsort() {
    let n_nodes = 8;
    let edge_list = vec![
        (0, 1, 1.0),
        (1, 2, 1.0),
        (2, 3, 1.0),
        (0, 4, 1.0),
        (4, 3, 1.0),
        (5, 4, 1.0),
        (5, 6, 1.0),
        (7, 0, 1.0),
    ];
    let dag = DAG::init(&n_nodes, &edge_list);
    let t_sort = dag.topological_sort();
    assert_eq!(t_sort, vec![7, 5, 6, 0, 4, 1, 2, 3]);
}

fn position(order: &Vec<u64>, node: u64) -> usize {
    order.iter().position(|x| *x == node).unwrap()
}

#[test]
fn order_is_a_permutation_that_respects_every_edge() {
    let edge_list: Vec<(u64, u64, i64)> = vec![
        (3, 1, 4),
        (5, 0, 1),
        (5, 2, 1),
        (2, 3, 9),
        (4, 0, 2),
        (4, 1, 2),
        (0, 3, 1),
        (2, 3, 5),
    ];
    let dag = DAG::init(&6, &edge_list);
    let order = dag.topological_sort();
    let mut sorted = order.clone();
    sorted.sort();
    assert_eq!(sorted, vec![0, 1, 2, 3, 4, 5]);
    for (u, v, _) in edge_list.iter() {
        assert!(position(&order, *u) < position(&order, *v));
    }
    assert_eq!(order, vec![5, 4, 2, 0, 3, 1]);
}

#[test]
fn order_does_not_depend_on_weights() {
    let light: Vec<(u64, u64, i64)> = vec![(0, 2, 1), (0, 1, 1), (3, 1, 1), (1, 2, 1)];
    let heavy: Vec<(u64, u64, i64)> = vec![(0, 2, -50), (0, 1, 700), (3, 1, 0), (1, 2, 12)];
    let first = DAG::init(&4, &light).topological_sort();
    let second = DAG::init(&4, &heavy).topological_sort();
    let again = DAG::init(&4, &light).topological_sort();
    assert_eq!(first, second);
    assert_eq!(first, again);
    assert_eq!(first, vec![3, 0, 1, 2]);
}

#[test]
fn order_follows_edge_insertion_order() {
    let one: Vec<(u64, u64, i64)> = vec![(0, 1, 1), (0, 2, 1)];
    let other: Vec<(u64, u64, i64)> = vec![(0, 2, 1), (0, 1, 1)];
    assert_eq!(DAG::init(&3, &one).topological_sort(), vec![0, 2, 1]);
    assert_eq!(DAG::init(&3, &other).topological_sort(), vec![0, 1, 2]);
}

#[test]
fn isolated_nodes_come_out_in_decreasing_index() {
    let edge_list: Vec<(u64, u64, i64)> = Vec::new();
    assert_eq!(DAG::init(&4, &edge_list).topological_sort(), vec![3, 2, 1, 0]);
}

#[test]
fn a_cycle_terminates_with_every_node_once() {
    let edge_list: Vec<(u64, u64, i64)> = vec![(0, 1, 1), (1, 2, 1), (2, 0, 1)];
    let order = DAG::init(&3, &edge_list).topological_sort();
    assert_eq!(order, vec![0, 1, 2]);
}

#[test]
fn parallel_edges_and_long_chain() {
    let mut edge_list: Vec<(u64, u64, i64)> = Vec::new();
    for i in 0..199u64 {
        edge_list.push((i, i + 1, 1));
        edge_list.push((i, i + 1, 2));
    }
    let order = DAG::init(&200, &edge_list).topological_sort();
    let expected: Vec<u64> = (0..200).collect();
    assert_eq!(order, expected);
}

#[test]
fn a_chain_of_many_nodes_needs_no_deep_call_stack() {
    let n: u64 = 300_000;
    let mut edge_list: Vec<(u64, u64, i64)> = Vec::new();
    for i in 0..n - 1 {
        edge_list.push((i, i + 1, 1));
    }
    let order = DAG::init(&n, &edge_list).topological_sort();
    let expected: Vec<u64> = (0..n).collect();
    assert_eq!(order, expected);
}

#[test]
fn later_roots_come_before_earlier_components() {
    let edge_list: Vec<(u64, u64, i64)> = vec![(2, 3, 1), (0, 1, 1)];
    assert_eq!(DAG::init(&4, &edge_list).topological_sort(), vec![2, 3, 0, 1]);
}
