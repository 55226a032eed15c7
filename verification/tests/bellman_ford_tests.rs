use create_path::bellman_ford::{bellman_ford, initialize};
use create_path::graph::Graph;

fn get_graph() -> Graph {
    Graph::new(vec![
        vec![0, 9, 6, 0, 0, 0, 0],
        vec![9, 0, 11, 1, 20, 0, 0],
        vec![6, 11, 0, 4, 0, 18, 0],
        vec![0, 1, 2, 0, 13, 28, 15],
        vec![0, 20, 0, 13, 0, 0, 3],
        vec![0, 0, 18, 28, 0, 0, 25],
        vec![0, 0, 0, 15, 3, 25, 0],
    ])
    .unwrap()
}

#[test]
fn bellman_ford_test_initialize() {
    let graph = get_graph();
    let start = 0;
    let (cost, path) = initialize(&graph, start);
    assert_eq!(cost.len(), path.len());
    assert_eq!(cost.len(), 7);

    assert_eq!(cost[start].unwrap(), 0);
}

#[test]
fn test_bellman_ford() {
    let graph = get_graph();
    let path = bellman_ford(&graph, 2, 1);
    match path {
        Some(p) => assert_eq!(p, vec![2, 3, 1]),
        None => assert!(false),
    };
}

#[test]
fn test_bellman_ford2() {
    let graph = Graph::new(vec![
        vec![0, -3, 0, 0, 0],
        vec![0, 0, 1, 0, 0],
        vec![0, 0, 0, 1, 0],
        vec![0, 0, 0, 0, 1],
        vec![0, 0, 0, 0, 0],
    ])
    .unwrap();
    let path = bellman_ford(&graph, 0, 4);
    match path {
        Some(p) => assert_eq!(p, vec![0, 1, 2, 3, 4]),
        None => assert!(false),
    }
}
