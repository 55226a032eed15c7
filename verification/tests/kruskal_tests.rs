use create_path::graph::Graph;
use create_path::kruskal::{connected, extract_arcs, kruskal};

fn get_graph() -> Graph {
    Graph::new(vec![
        vec![0, 1, 3, 5],
        vec![1, 0, 2, 3],
        vec![3, 2, 0, 4],
        vec![5, 3, 4, 0],
    ])
    .unwrap()
}

#[test]
fn test_kruskal() {
    let graph = get_graph();
    let ans = kruskal(&graph);
    assert_eq!(ans, vec![(0, 1), (1, 2), (1, 3)]);
}

#[test]
fn test_kruscal_2() {
    let graph = Graph::new(vec![
        vec![0, 3, 5, 10, 0],
        vec![3, 0, 0, 13, 7],
        vec![5, 0, 0, 9, 1],
        vec![10, 13, 9, 0, 1],
        vec![0, 7, 1, 1, 0],
    ])
    .unwrap();

    let corr = vec![(2, 4), (3, 4), (0, 1), (0, 2)];
    let ans = kruskal(&graph);
    assert_eq!(ans, corr);
}

#[test]
fn test_extract_arcs() {
    let graph = get_graph();
    let arcs = extract_arcs(&graph);

    let corr_ord: Vec<i64> = vec![1, 1, 2, 2, 3, 3, 3, 3, 4, 4, 5, 5];

    assert_eq!(corr_ord.len(), arcs.len());
    for (a, c) in arcs.iter().zip(corr_ord.iter()) {
        assert_eq!(a.weight, *c);
    }
}

#[test]
fn test_connected() {
    let connected_tree = vec![(2, 4), (3, 4), (0, 1), (0, 2)];
    let not_connected = vec![(2, 4), (3, 4), (0, 1)];
    assert_eq!(connected(&connected_tree), true);
    assert_eq!(connected(&not_connected), false);
}
