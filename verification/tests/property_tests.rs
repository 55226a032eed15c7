use create_path::bellman_ford::bellman_ford;
use create_path::dijkstra::dijkstra;
use create_path::graph::Graph;
use create_path::insertion::farthest_inserction;
use create_path::kruskal::kruskal;

fn get_rows_7() -> Vec<Vec<i64>> {
    vec![
        vec![0, 9, 6, 0, 0, 0, 0],
        vec![9, 0, 11, 1, 20, 0, 0],
        vec![6, 11, 0, 4, 0, 18, 0],
        vec![0, 1, 2, 0, 13, 28, 15],
        vec![0, 20, 0, 13, 0, 0, 3],
        vec![0, 0, 18, 28, 0, 0, 25],
        vec![0, 0, 0, 15, 3, 25, 0],
    ]
}

fn get_rows_9() -> Vec<Vec<i64>> {
    vec![
        vec![0, 1, 9, 0, 0, 0, 0, 0, 0],
        vec![0, 0, 8, 0, 4, 0, 0, 0, 0],
        vec![0, 0, 0, 7, 10, 0, 0, 0, 0],
        vec![0, 0, 0, 0, 0, 0, 0, 8, 0],
        vec![0, 0, 0, 10, 0, 12, 0, 12, 0],
        vec![0, 0, 0, 0, 0, 0, 10, 0, 0],
        vec![0, 0, 0, 0, 0, 0, 0, 0, 4],
        vec![0, 0, 0, 0, 0, 0, 10, 0, 14],
        vec![0, 0, 0, 0, 0, 0, 0, 0, 0],
    ]
}

fn path_cost(rows: &[Vec<i64>], path: &[usize]) -> i64 {
    let mut total = 0;
    for w in path.windows(2) {
        let step = rows[w[0]][w[1]];
        assert_ne!(step, 0);
        total += step;
    }
    total
}

/// Set of nodes reachable from `start` through the undirected closure of an
/// edge list.
fn reachable_closure(n: usize, edges: &[(usize, usize)], start: usize) -> Vec<bool> {
    let mut seen = vec![false; n];
    seen[start] = true;
    let mut changed = true;
    while changed {
        changed = false;
        for &(a, b) in edges {
            if seen[a] != seen[b] {
                seen[a] = true;
                seen[b] = true;
                changed = true;
            }
        }
    }
    seen
}

#[test]
fn engines_agree_on_cost() {
    let rows = get_rows_7();
    let graph = Graph::new(rows.clone()).unwrap();
    for from in 0..7 {
        for to in 0..7 {
            let d = dijkstra(&graph, from, to);
            let b = bellman_ford(&graph, from, to);
            match (d, b) {
                (Some(dp), Some(bp)) => {
                    assert_eq!(path_cost(&rows, &dp), path_cost(&rows, &bp));
                }
                (None, None) => {}
                _ => assert!(false),
            }
        }
    }
}

#[test]
fn engines_agree_on_cost_directed() {
    let rows = get_rows_9();
    let graph = Graph::new(rows.clone()).unwrap();
    for from in 0..9 {
        for to in 0..9 {
            let d = dijkstra(&graph, from, to);
            let b = bellman_ford(&graph, from, to);
            match (d, b) {
                (Some(dp), Some(bp)) => {
                    assert_eq!(path_cost(&rows, &dp), path_cost(&rows, &bp));
                }
                (None, None) => {}
                _ => assert!(false),
            }
        }
    }
}

#[test]
fn worked_example_both_engines() {
    let rows = get_rows_7();
    let graph = Graph::new(rows.clone()).unwrap();
    let d = dijkstra(&graph, 2, 1).unwrap();
    let b = bellman_ford(&graph, 2, 1).unwrap();
    assert_eq!(d, vec![2, 3, 1]);
    assert_eq!(b, vec![2, 3, 1]);
    assert_eq!(path_cost(&rows, &d), 5);
    assert_eq!(path_cost(&rows, &b), 5);
}

#[test]
fn mst_connected_graph() {
    let rows = vec![
        vec![0, 1, 3, 5],
        vec![1, 0, 2, 3],
        vec![3, 2, 0, 4],
        vec![5, 3, 4, 0],
    ];
    let graph = Graph::new(rows.clone()).unwrap();
    let tree = kruskal(&graph);
    assert_eq!(tree.len(), 3);
    let total: i64 = tree.iter().map(|&(a, b)| rows[a][b]).sum();
    assert_eq!(total, 6);
    // acyclic: N - 1 edges that connect all N nodes cannot hold a cycle
    let seen = reachable_closure(4, &tree, 0);
    assert!(seen.iter().all(|&s| s));
}

#[test]
fn mst_disconnected_graph() {
    // two components: {0, 1} and {2, 3}
    let rows = vec![
        vec![0, 2, 0, 0],
        vec![2, 0, 0, 0],
        vec![0, 0, 0, 7],
        vec![0, 0, 7, 0],
    ];
    let graph = Graph::new(rows).unwrap();
    let tree = kruskal(&graph);
    assert!(tree.len() < 3);
    let seen = reachable_closure(4, &tree, 0);
    assert!(!seen.iter().all(|&s| s));
}

#[test]
fn tour_is_a_permutation() {
    let graph = Graph::new(get_rows_7()).unwrap();
    let tour = farthest_inserction(&graph, 5, 2).unwrap();
    assert_eq!(tour.len(), 7);
    assert_eq!(tour[0], 5);
    assert_eq!(*tour.last().unwrap(), 2);
    let mut seen = vec![false; 7];
    for &node in tour.iter() {
        assert!(!seen[node]);
        seen[node] = true;
    }
    assert_eq!(farthest_inserction(&graph, 0, 2), None);
}

#[test]
fn same_endpoint_is_a_single_node_path() {
    let graph = Graph::new(get_rows_7()).unwrap();
    assert_eq!(dijkstra(&graph, 2, 2), Some(vec![2]));
    assert_eq!(bellman_ford(&graph, 2, 2), Some(vec![2]));
}

#[test]
fn unreachable_target_is_none() {
    let graph = Graph::new(get_rows_9()).unwrap();
    // node 8 has no outgoing edges
    assert_eq!(dijkstra(&graph, 8, 0), None);
    assert_eq!(bellman_ford(&graph, 8, 0), None);
}

#[test]
fn negative_weight_chain() {
    let rows = vec![
        vec![0, -3, 0, 0, 0],
        vec![0, 0, 1, 0, 0],
        vec![0, 0, 0, 1, 0],
        vec![0, 0, 0, 0, 1],
        vec![0, 0, 0, 0, 0],
    ];
    let graph = Graph::new(rows.clone()).unwrap();
    let p = bellman_ford(&graph, 0, 4).unwrap();
    assert_eq!(p, vec![0, 1, 2, 3, 4]);
    assert_eq!(path_cost(&rows, &p), 0);
}

#[test]
fn graph_rejects_bad_matrices() {
    // not square
    assert!(Graph::new(vec![vec![0, 1], vec![0]]).is_none());
    // weight over the limit
    assert!(Graph::new(vec![vec![0, 1000001], vec![1, 0]]).is_none());
    // within the limit
    assert!(Graph::new(vec![vec![0, 1000000], vec![1, 0]]).is_some());
}

#[test]
fn tour_ties_break_to_lowest_index() {
    // out of node 0 both neighbors weigh 5: the walk must take node 1
    let graph = Graph::new(vec![
        vec![0, 5, 5, 0],
        vec![0, 0, 4, 9],
        vec![0, 4, 0, 9],
        vec![0, 0, 0, 0],
    ])
    .unwrap();
    let tour = farthest_inserction(&graph, 0, 3).unwrap();
    assert_eq!(tour, vec![0, 1, 2, 3]);
}

#[test]
fn mst_single_node() {
    let graph = Graph::new(vec![vec![0]]).unwrap();
    assert_eq!(kruskal(&graph), vec![]);
}
