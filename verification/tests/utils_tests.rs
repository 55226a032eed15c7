use create_path::graph::Graph;
use create_path::utils::{build_path, initialize};

fn get_graph() -> Graph {
    Graph::new(vec![
        vec![0, 9, 6, 0, 0, 0, 0],
        vec![9, 0, 11, 1, 20, 0, 0],
        vec![6, 11, 0, 4, 0, 18, 0],
        vec![0, 1, 2, 0, 13, 28, 15],
        vec![0, 20, 0, 13, 0, 0, 3],
        vec![0, 0, 18, 28, 0, 0, 25],
        vec![0, 0, 0, 15, 3, 25, 0],
    ])
    .unwrap()
}

fn count_some<T>(v: &[Option<T>]) -> usize {
    v.iter().filter(|x| x.is_some()).count()
}

#[test]
fn utils_test_build_path() {
    let mut path: Vec<Option<usize>> = vec![None; 8];
    path[3] = Some(1);
    path[1] = Some(2);
    path[2] = Some(5);
    path[5] = Some(7);
    path[7] = Some(4);
    path[4] = Some(6);

    let ans = build_path(&path, 6, 3).unwrap();
    assert_eq!(ans.len(), 7);
    let correct = vec![6, 4, 7, 5, 2, 1, 3];
    assert_eq!(correct, ans);
}

#[test]
fn utils_test_build_path_broken_chain() {
    let path: Vec<Option<usize>> = vec![None; 3];
    assert_eq!(build_path(&path, 0, 2), None);
}

#[test]
fn utils_test_initialize() {
    let graph = get_graph();
    let from = 0;
    let (path, cost) = initialize(&graph, from);
    assert_eq!(count_some(&path), count_some(&cost));
    assert_eq!(count_some(&path), 2);

    assert_eq!(path[1], Some(0));
    assert_eq!(path[2], Some(0));

    assert_eq!(cost[1], Some(9));
    assert_eq!(cost[2], Some(6));
}
