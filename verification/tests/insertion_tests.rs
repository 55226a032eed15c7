use create_path::graph::Graph;
use create_path::insertion::farthest_inserction;

// Fractional weights scaled by 100 into integers, which leaves every
// comparison the walk makes, and so the resulting tour, unchanged.
#[test]
fn test_path_size() {
    let graph = Graph::new(vec![
        vec![0, 550, 0],
        vec![560, 0, 345],
        vec![780, 1200, 0],
    ])
    .unwrap();

    let ans = farthest_inserction(&graph, 2, 0);
    match ans {
        Some(v) => {
            println!("{:?}", v);
            assert_eq!(3, v.len());
            assert_eq!(vec![2, 1, 0], v);
        }
        None => assert!(false),
    }
}

#[test]
fn test_path_farthest() {
    let graph = Graph::new(vec![
        vec![0, 9, 6, 0, 0, 0, 0],
        vec![9, 0, 11, 1, 20, 0, 0],
        vec![6, 11, 0, 4, 0, 18, 0],
        vec![0, 1, 2, 0, 13, 28, 15],
        vec![0, 20, 0, 13, 0, 0, 3],
        vec![0, 0, 18, 28, 0, 0, 25],
        vec![0, 0, 0, 15, 3, 25, 0],
    ])
    .unwrap();

    let ans = farthest_inserction(&graph, 0, 2);
    match ans {
        Some(_) => assert!(false),
        None => assert!(true),
    }

    let ans = farthest_inserction(&graph, 5, 2);
    match ans {
        Some(v) => assert_eq!(vec![5, 3, 6, 4, 1, 0, 2], v),
        None => assert!(true),
    }
}
