use ford_fulkerson::bfs::find_path;

#[test]
fn bfs_works() {
    let g: Vec<Vec<usize>> = vec![vec![1, 2], vec![4, 0], vec![3], vec![], vec![5], vec![0]];
    let res = find_path(&g, 1, 3);
    assert_eq!(res, Some(vec![1, 0, 2, 3]));
}

#[test]
fn find_path_unreachable_is_none() {
    let g: Vec<Vec<usize>> = vec![vec![1], vec![0], vec![3], vec![]];
    assert_eq!(find_path(&g, 0, 3), None);
}

#[test]
fn find_path_to_itself_is_none() {
    let g: Vec<Vec<usize>> = vec![vec![1], vec![0]];
    assert_eq!(find_path(&g, 0, 0), None);
}

#[test]
fn find_path_prefers_fewest_edges() {
    // 0 -> 1 -> 2 -> 3 and 0 -> 3 directly
    let g: Vec<Vec<usize>> = vec![vec![1, 3], vec![2], vec![3], vec![]];
    assert_eq!(find_path(&g, 0, 3), Some(vec![0, 3]));
}

#[test]
fn find_path_direct_edge() {
    let g: Vec<Vec<usize>> = vec![vec![1], vec![]];
    assert_eq!(find_path(&g, 0, 1), Some(vec![0, 1]));
}
