use ford_fulkerson::{Direction, ResidualNetwork};

fn entry(r: &ResidualNetwork, u: usize, v: usize) -> Option<(usize, Direction)> {
    r.adj_list[u].iter().position(|&x| x == v).map(|k| r.edges[u][k])
}

#[test]
fn new_network_is_empty() {
    let r = ResidualNetwork::new(3);
    assert_eq!(r.adj_list.len(), 3);
    assert!(r.adj_list.iter().all(|row| row.is_empty()));
}

#[test]
fn update_forward_sets_and_removes() {
    let mut r = ResidualNetwork::new(3);
    r.update_forward((0, 2), 5);
    assert_eq!(entry(&r, 0, 2), Some((5, Direction::Forwards)));
    assert_eq!(r.adj_list[0], vec![2]);
    r.update_forward((0, 2), 3);
    assert_eq!(entry(&r, 0, 2), Some((3, Direction::Forwards)));
    assert_eq!(r.adj_list[0], vec![2]);
    r.update_forward((0, 2), 0);
    assert_eq!(entry(&r, 0, 2), None);
    assert!(r.adj_list[0].is_empty());
}

#[test]
fn update_backward_uses_reversed_pair() {
    let mut r = ResidualNetwork::new(3);
    r.update_backward((0, 2), 4);
    assert_eq!(entry(&r, 2, 0), Some((4, Direction::Backwards)));
    assert_eq!(entry(&r, 0, 2), None);
    r.update_backward((0, 2), 0);
    assert_eq!(entry(&r, 2, 0), None);
    assert!(r.adj_list[2].is_empty());
}

#[test]
fn rebuild_twice_gives_same_entries() {
    let edges = [((0usize, 1usize), 5usize, 2usize), ((1, 2), 4, 4), ((0, 2), 3, 0)];
    let mut r = ResidualNetwork::new(3);
    for &(e, c, f) in edges.iter() {
        r.update_forward(e, c.saturating_sub(f));
        r.update_backward(e, f);
    }
    let once: Vec<Option<(usize, Direction)>> =
        (0..3).flat_map(|u| (0..3).map(move |v| (u, v))).map(|(u, v)| entry(&r, u, v)).collect();
    for &(e, c, f) in edges.iter() {
        r.update_forward(e, c.saturating_sub(f));
        r.update_backward(e, f);
    }
    let twice: Vec<Option<(usize, Direction)>> =
        (0..3).flat_map(|u| (0..3).map(move |v| (u, v))).map(|(u, v)| entry(&r, u, v)).collect();
    assert_eq!(once, twice);
    assert_eq!(entry(&r, 0, 1), Some((3, Direction::Forwards)));
    assert_eq!(entry(&r, 1, 0), Some((2, Direction::Backwards)));
    assert_eq!(entry(&r, 1, 2), None);
    assert_eq!(entry(&r, 2, 1), Some((4, Direction::Backwards)));
    assert_eq!(entry(&r, 0, 2), Some((3, Direction::Forwards)));
    assert_eq!(entry(&r, 2, 0), None);
}
