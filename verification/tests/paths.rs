use rdag::{Distance, OptimalPathType, Step, DAG};

fn finite(distance: i128, predecessor: Option<u64>) -> Step {
    Step { distance: Distance::Finite(distance), predecessor }
}

fn weighted_eight() -> Vec<(u64, u64, i64)> {
    vec![
        (0, 1, 2),
        (1, 2, 3),
        (2, 3, 1),
        (0, 4, 4),
        (4, 3, 4),
        (5, 4, 1),
        (5, 6, 1),
        (7, 0, 1),
    ]
}

#[test]
fn trivial_shortest_path() {
    let n_nodes = 3;
    let edge_list: Vec<(u64, u64, i64)> = vec![(0, 1, 1), (0, 2, 1), (1, 2, 1)];
    let dag = DAG::init(&n_nodes, &edge_list);
    let op = dag.optimal_path(&OptimalPathType::Shortest, 0);
    let true_op = vec![
        Step { distance: Distance::Finite(0), predecessor: None },
        Step { distance: Distance::Finite(1), predecessor: Some(0) },
        Step { distance: Distance::Finite(1), predecessor: Some(0) },
    ];
    assert_eq!(op, true_op);
}

#[test]
fn trivial_longest_path() {
    let n_nodes = 3;
    let edge_list: Vec<(u64, u64, i64)> = vec![(0, 1, 1), (0, 2, 1), (1, 2, 1)];
    let dag = DAG::init(&n_nodes, &edge_list);
    let op = dag.optimal_path(&OptimalPathType::Longest, 0);
    let true_op = vec![
        Step { distance: Distance::Finite(0), predecessor: None },
        Step { distance: Distance::Finite(1), predecessor: Some(0) },
        Step { distance: Distance::Finite(2), predecessor: Some(1) },
    ];
    assert_eq!(op, true_op);
}

#[test]
fn intermediate_shortest_path() {
    let n_nodes = 8;
    let edge_list = weighted_eight();
    let dag = DAG::init(&n_nodes, &edge_list);
    let op = dag.optimal_path(&OptimalPathType::Shortest, 7);
    let true_op = vec![
        Step { distance: Distance::Finite(1), predecessor: Some(7) },
        Step { distance: Distance::Finite(3), predecessor: Some(0) },
        Step { distance: Distance::Finite(6), predecessor: Some(1) },
        Step { distance: Distance::Finite(7), predecessor: Some(2) },
        Step { distance: Distance::Finite(5), predecessor: Some(0) },
        Step { distance: Distance::Infinity, predecessor: None },
        Step { distance: Distance::Infinity, predecessor: None },
        Step { distance: Distance::Finite(0), predecessor: None },
    ];
    assert_eq!(op, true_op);
}

#[test]
fn intermediate_longest_path() {
    let n_nodes = 8;
    let edge_list = weighted_eight();
    let dag = DAG::init(&n_nodes, &edge_list);
    let op = dag.optimal_path(&OptimalPathType::Longest, 7);
    let true_op = vec![
        Step { distance: Distance::Finite(1), predecessor: Some(7) },
        Step { distance: Distance::Finite(3), predecessor: Some(0) },
        Step { distance: Distance::Finite(6), predecessor: Some(1) },
        Step { distance: Distance::Finite(9), predecessor: Some(4) },
        Step { distance: Distance::Finite(5), predecessor: Some(0) },
        Step { distance: Distance::NegInfinity, predecessor: None },
        Step { distance: Distance::NegInfinity, predecessor: None },
        Step { distance: Distance::Finite(0), predecessor: None },
    ];
    assert_eq!(op, true_op);
}

#[test]
fn source_has_distance_zero_and_no_predecessor() {
    let dag = DAG::init(&8, &weighted_eight());
    for source in 0..8u64 {
        for mode in [OptimalPathType::Shortest, OptimalPathType::Longest] {
            let steps = dag.optimal_path(&mode, source);
            assert_eq!(steps.len(), 8);
            assert_eq!(steps[source as usize], finite(0, None));
        }
    }
}

#[test]
fn unreachable_nodes_keep_the_sentinel_of_the_mode() {
    let dag = DAG::init(&8, &weighted_eight());
    let shortest = dag.optimal_path(&OptimalPathType::Shortest, 4);
    let longest = dag.optimal_path(&OptimalPathType::Longest, 4);
    for v in [0usize, 1, 2, 5, 6, 7] {
        assert_eq!(shortest[v], Step { distance: Distance::Infinity, predecessor: None });
        assert_eq!(longest[v], Step { distance: Distance::NegInfinity, predecessor: None });
    }
    assert_eq!(shortest[3], finite(4, Some(4)));
    assert_eq!(longest[3], finite(4, Some(4)));
}

#[test]
fn negative_weights_and_parallel_edges() {
    let edge_list: Vec<(u64, u64, i64)> =
        vec![(0, 1, 5), (0, 1, -2), (0, 1, 3), (1, 2, -4), (0, 2, -5), (2, 3, 10), (2, 3, 10)];
    let dag = DAG::init(&4, &edge_list);
    let shortest = dag.optimal_path(&OptimalPathType::Shortest, 0);
    assert_eq!(
        shortest,
        vec![finite(0, None), finite(-2, Some(0)), finite(-6, Some(1)), finite(4, Some(2))]
    );
    let longest = dag.optimal_path(&OptimalPathType::Longest, 0);
    assert_eq!(
        longest,
        vec![finite(0, None), finite(5, Some(0)), finite(1, Some(1)), finite(11, Some(2))]
    );
}

#[test]
fn ties_keep_the_first_path_found() {
    let edge_list: Vec<(u64, u64, i64)> = vec![(0, 1, 1), (0, 2, 1), (1, 3, 1), (2, 3, 1)];
    let dag = DAG::init(&4, &edge_list);
    assert_eq!(dag.topological_sort(), vec![0, 2, 1, 3]);
    let shortest = dag.optimal_path(&OptimalPathType::Shortest, 0);
    assert_eq!(shortest[3], finite(2, Some(2)));
    let longest = dag.optimal_path(&OptimalPathType::Longest, 0);
    assert_eq!(longest[3], finite(2, Some(2)));
}

#[test]
fn predecessor_links_lead_back_to_the_source() {
    let edge_list = weighted_eight();
    let dag = DAG::init(&8, &edge_list);
    for mode in [OptimalPathType::Shortest, OptimalPathType::Longest] {
        let steps = dag.optimal_path(&mode, 7);
        for v in 0..8usize {
            let total = match steps[v].distance {
                Distance::Finite(d) => d,
                _ => {
                    assert_eq!(steps[v].predecessor, None);
                    continue;
                }
            };
            let mut at = v as u64;
            let mut sum: i128 = 0;
            let mut hops = 0;
            while let Some(before) = steps[at as usize].predecessor {
                let here = match steps[at as usize].distance {
                    Distance::Finite(d) => d,
                    _ => panic!("a node with a predecessor has a finite distance"),
                };
                let there = match steps[before as usize].distance {
                    Distance::Finite(d) => d,
                    _ => panic!("a predecessor has a finite distance"),
                };
                assert!(edge_list.iter().any(|e| e.0 == before && e.1 == at && e.2 as i128 == here - there));
                sum += here - there;
                at = before;
                hops += 1;
                assert!(hops <= 7);
            }
            assert_eq!(at, 7);
            assert_eq!(sum, total);
        }
    }
}

#[test]
fn distances_beyond_sixty_four_bits_are_exact() {
    let edge_list: Vec<(u64, u64, i64)> =
        vec![(0, 1, i64::MAX), (1, 2, i64::MAX), (2, 3, i64::MAX), (0, 3, i64::MIN), (3, 4, i64::MIN)];
    let dag = DAG::init(&5, &edge_list);
    let longest = dag.optimal_path(&OptimalPathType::Longest, 0);
    assert_eq!(longest[3], finite(3 * (i64::MAX as i128), Some(2)));
    assert_eq!(longest[4], finite(3 * (i64::MAX as i128) + i64::MIN as i128, Some(3)));
    let shortest = dag.optimal_path(&OptimalPathType::Shortest, 0);
    assert_eq!(shortest[3], finite(i64::MIN as i128, Some(0)));
    assert_eq!(shortest[4], finite(2 * (i64::MIN as i128), Some(3)));
}

#[test]
fn single_node_graph() {
    let edge_list: Vec<(u64, u64, i64)> = Vec::new();
    let dag = DAG::init(&1, &edge_list);
    assert_eq!(dag.optimal_path(&OptimalPathType::Shortest, 0), vec![finite(0, None)]);
    assert_eq!(dag.optimal_path(&OptimalPathType::Longest, 0), vec![finite(0, None)]);
}

#[test]
fn a_cycle_is_relaxed_once_per_edge() {
    let edge_list: Vec<(u64, u64, i64)> = vec![(0, 1, 1), (1, 2, 1), (2, 0, -5)];
    let dag = DAG::init(&3, &edge_list);
    let shortest = dag.optimal_path(&OptimalPathType::Shortest, 0);
    assert_eq!(shortest, vec![finite(-3, Some(2)), finite(1, Some(0)), finite(2, Some(1))]);
}

#[test]
fn distance_arithmetic_and_order() {
    assert_eq!(Distance::Finite(4).plus(-9), Distance::Finite(-5));
    assert_eq!(Distance::Infinity.plus(3), Distance::Infinity);
    assert_eq!(Distance::NegInfinity.plus(3), Distance::NegInfinity);
    assert!(Distance::NegInfinity.less_than(Distance::Finite(i128::MIN)));
    assert!(Distance::Finite(i128::MAX).less_than(Distance::Infinity));
    assert!(Distance::Finite(-1).less_than(Distance::Finite(0)));
    assert!(!Distance::Finite(0).less_than(Distance::Finite(0)));
    assert!(!Distance::Infinity.less_than(Distance::Infinity));
    assert!(!Distance::NegInfinity.less_than(Distance::NegInfinity));
    assert!(!Distance::Infinity.less_than(Distance::Finite(7)));
    assert!(Distance::NegInfinity.less_than(Distance::Infinity));
}

#[test]
fn a_chain_of_many_nodes_sums_every_weight() {
    let n: u64 = 200_000;
    let mut edge_list: Vec<(u64, u64, i64)> = Vec::new();
    for i in 0..n - 1 {
        edge_list.push((i, i + 1, 3));
    }
    let dag = DAG::init(&n, &edge_list);
    let steps = dag.optimal_path(&OptimalPathType::Shortest, 0);
    assert_eq!(steps[(n - 1) as usize], finite(3 * (n as i128 - 1), Some(n - 2)));
    assert_eq!(steps[1], finite(3, Some(0)));
}

#[test]
fn shortest_and_longest_agree_with_all_paths_enumerated() {
    let edge_list: Vec<(u64, u64, i64)> = vec![
        (0, 1, 4),
        (0, 2, -1),
        (1, 3, 2),
        (2, 1, 3),
        (2, 3, 9),
        (3, 4, -6),
        (1, 4, 1),
        (5, 0, 2),
    ];
    let dag = DAG::init(&6, &edge_list);
    fn all_path_sums(edges: &Vec<(u64, u64, i64)>, at: u64, to: u64, sum: i128, out: &mut Vec<i128>) {
        if at == to {
            out.push(sum);
        }
        for e in edges.iter() {
            if e.0 == at {
                all_path_sums(edges, e.1, to, sum + e.2 as i128, out);
            }
        }
    }
    let shortest = dag.optimal_path(&OptimalPathType::Shortest, 0);
    let longest = dag.optimal_path(&OptimalPathType::Longest, 0);
    for v in 0..6u64 {
        let mut sums = Vec::new();
        all_path_sums(&edge_list, 0, v, 0, &mut sums);
        match sums.iter().min() {
            Some(least) => assert_eq!(shortest[v as usize].distance, Distance::Finite(*least)),
            None => assert_eq!(shortest[v as usize], Step { distance: Distance::Infinity, predecessor: None }),
        }
        match sums.iter().max() {
            Some(most) => assert_eq!(longest[v as usize].distance, Distance::Finite(*most)),
            None => assert_eq!(longest[v as usize], Step { distance: Distance::NegInfinity, predecessor: None }),
        }
    }
    assert_eq!(shortest[4], finite(-2, Some(3)));
    assert_eq!(longest[4], finite(5, Some(1)));
}
