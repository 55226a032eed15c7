use create_path::dijkstra::{dijkstra, find_min_cost, nodes, update_cost};
use create_path::graph::Graph;
use create_path::utils::initialize;

fn get_graph() -> Graph {
    Graph::new(vec![
        vec![0, 9, 6, 0, 0, 0, 0],
        vec![9, 0, 11, 1, 20, 0, 0],
        vec![6, 11, 0, 4, 0, 18, 0],
        vec![0, 1, 2, 0, 13, 28, 15],
        vec![0, 20, 0, 13, 0, 0, 3],
        vec![0, 0, 18, 28, 0, 0, 25],
        vec![0, 0, 0, 15, 3, 25, 0],
    ])
    .unwrap()
}

fn count_some<T>(v: &[Option<T>]) -> usize {
    v.iter().filter(|x| x.is_some()).count()
}

#[test]
fn test_selected() {
    let graph = get_graph();
    let from = 0;
    let selected = nodes(&graph, from);
    assert_eq!(selected.len(), 7);
    for (i, s) in selected.iter().enumerate() {
        if i == from {
            assert!(s);
        } else {
            assert!(!s);
        }
    }
}

#[test]
fn test_find_min_cost() {
    let graph = get_graph();
    let from = 0;
    let selected = nodes(&graph, from);
    let (_, cost) = initialize(&graph, from);

    let ans = find_min_cost(&cost, &selected);
    match ans {
        Some(node) => assert_eq!(node, 2),
        None => assert!(false),
    };
}

#[test]
fn test_update_cost() {
    let graph = get_graph();
    let from = 0;
    let mut selected = nodes(&graph, from);
    let (mut path, mut cost) = initialize(&graph, from);

    //first iteration
    let curr = 2;
    selected[curr] = true;
    update_cost(&graph, curr, &mut path, &mut cost, &selected);

    assert_eq!(count_some(&path), count_some(&cost));
    assert_eq!(count_some(&path), 4);

    assert_eq!(path[5], Some(2));
    assert_eq!(path[3], Some(2));

    //(0,2) + (2, 5)
    assert_eq!(cost[5], Some(6 + 18));
    //(0, 2) + (2, 3)
    assert_eq!(cost[3], Some(6 + 4));
}

#[test]
fn test_dijkstra1() {
    let graph = get_graph();
    let path = dijkstra(&graph, 2, 1);
    match path {
        Some(p) => assert_eq!(p, vec![2, 3, 1]),
        None => assert!(false),
    };
}

#[test]
fn test_dijkstra2() {
    let graph = Graph::new(vec![
        vec![0, 1, 9, 0, 0, 0, 0, 0, 0],
        vec![0, 0, 8, 0, 4, 0, 0, 0, 0],
        vec![0, 0, 0, 7, 10, 0, 0, 0, 0],
        vec![0, 0, 0, 0, 0, 0, 0, 8, 0],
        vec![0, 0, 0, 10, 0, 12, 0, 12, 0],
        vec![0, 0, 0, 0, 0, 0, 10, 0, 0],
        vec![0, 0, 0, 0, 0, 0, 0, 0, 4],
        vec![0, 0, 0, 0, 0, 0, 10, 0, 14],
        vec![0, 0, 0, 0, 0, 0, 0, 0, 0],
    ])
    .unwrap();

    let path = dijkstra(&graph, 0, 8);
    match path {
        Some(p) => {
            let mut stat = false;
            println!("{:?}", p);
            let possible_results: [Vec<usize>; 3] = [
                vec![0, 1, 4, 5, 6, 8],
                vec![0, 1, 4, 7, 6, 8],
                vec![0, 1, 4, 7, 8],
            ];
            for res in possible_results.iter() {
                if p == *res {
                    stat = true;
                    break;
                }
            }
            assert!(stat);
        }
        None => assert!(false),
    };
}

#[test]
fn dijkstra_test_build_path() {
    let mut path: Vec<Option<usize>> = vec![None; 8];
    path[3] = Some(1);
    path[1] = Some(2);
    path[2] = Some(5);
    path[5] = Some(7);
    path[7] = Some(4);
    path[4] = Some(6);

    let ans = create_path::utils::build_path(&path, 6, 3).unwrap();
    assert_eq!(ans.len(), 7);
    let correct = vec![6, 4, 7, 5, 2, 1, 3];
    assert_eq!(correct, ans);
}

#[test]
fn dijkstra_test_initialize() {
    let graph = get_graph();
    let from = 0;
    let (path, cost) = initialize(&graph, from);
    assert_eq!(count_some(&path), count_some(&cost));
    assert_eq!(count_some(&path), 2);

    assert_eq!(path[1], Some(0));
    assert_eq!(path[2], Some(0));

    assert_eq!(cost[1], Some(9));
    assert_eq!(cost[2], Some(6));
}
