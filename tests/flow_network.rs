use ford_fulkerson::Node::{End, Id, Start};
use ford_fulkerson::{Flow, FlowNetwork};

fn packet_network() -> FlowNetwork {
    let adj_list: Vec<Vec<usize>> = vec![
        vec![1, 2, 3], //0 - s
        vec![2, 5, 4], //1 - a
        vec![3],       //2 - b
        vec![6],       //3 - c
        vec![5, 7],    //4 - d
        vec![6, 7],    //5 - e
        vec![2, 7],    //6 - f
        vec![],        //7 - t
    ];
    let capacities: Vec<((usize, usize), usize)> = vec![
        ((0, 1), 10),
        ((0, 2), 5),
        ((0, 3), 15),
        ((1, 2), 4),
        ((1, 5), 15),
        ((1, 4), 9),
        ((2, 3), 4),
        ((2, 5), 8),
        ((3, 6), 30),
        ((4, 5), 15),
        ((4, 7), 10),
        ((5, 6), 15),
        ((5, 7), 10),
        ((6, 2), 6),
        ((6, 7), 10),
    ];
    FlowNetwork { adj_list, capacities, start: 0, end: 7 }
}

fn nice_network() -> FlowNetwork {
    FlowNetwork::from_edges_nice(&[
        ((Start, Id('a')), 10),
        ((Start, Id('b')), 5),
        ((Start, Id('c')), 15),
        ((Id('a'), Id('b')), 4),
        ((Id('a'), Id('d')), 9),
        ((Id('a'), Id('e')), 15),
        ((Id('b'), Id('c')), 4),
        ((Id('b'), Id('e')), 8),
        ((Id('c'), Id('f')), 30),
        ((Id('d'), Id('e')), 15),
        ((Id('d'), End), 10),
        ((Id('e'), End), 10),
        ((Id('e'), Id('f')), 15),
        ((Id('f'), Id('b')), 6),
        ((Id('f'), End), 10),
    ])
}

fn flow_on(flow: &Flow, u: usize, v: usize) -> usize {
    flow.iter().find(|e| e.0 == (u, v)).map(|e| e.1).unwrap()
}

fn check_feasible_and_conserving(g: &FlowNetwork, flow: &Flow) {
    assert_eq!(flow.len(), g.capacities.len());
    for (i, &(pair, cap)) in g.capacities.iter().enumerate() {
        assert_eq!(flow[i].0, pair);
        assert!(flow[i].1 <= cap);
    }
    for v in 0..g.size() {
        if v == g.start || v == g.end {
            continue;
        }
        let inflow: usize = flow.iter().filter(|e| e.0 .1 == v).map(|e| e.1).sum();
        let outflow: usize = flow.iter().filter(|e| e.0 .0 == v).map(|e| e.1).sum();
        assert_eq!(inflow, outflow);
    }
}

#[test]
fn super_packet_example() {
    for _ in 0..1_000 {
        packet_example();
        nice_packet();
    }
}

#[test]
fn packet_example() {
    let g = packet_network();
    let (_flow, max_flow) = g.ford_fulkerson();
    assert_eq!(max_flow, 28);
}

#[test]
fn nice_packet() {
    let g = nice_network();
    let (_flow, max_flow) = g.ford_fulkerson();
    assert_eq!(max_flow, 28);
}

#[test]
fn packet_flow_is_feasible_and_conserving() {
    let g = packet_network();
    let (flow, max_flow) = g.ford_fulkerson();
    check_feasible_and_conserving(&g, &flow);
    let out: usize = flow.iter().filter(|e| e.0 .0 == 0).map(|e| e.1).sum();
    assert_eq!(out, max_flow);
    let into_sink: usize = flow.iter().filter(|e| e.0 .1 == 7).map(|e| e.1).sum();
    assert_eq!(into_sink, 28);
}

#[test]
fn packet_flow_saturates_a_cut() {
    // the vertices reachable from the source in the residual network
    let g = packet_network();
    let (flow, max_flow) = g.ford_fulkerson();
    let n = g.size();
    let mut seen = vec![false; n];
    seen[g.start] = true;
    let mut stack = vec![g.start];
    while let Some(u) = stack.pop() {
        for (i, &((a, b), cap)) in g.capacities.iter().enumerate() {
            let f = flow[i].1;
            if a == u && f < cap && !seen[b] {
                seen[b] = true;
                stack.push(b);
            }
            if b == u && f > 0 && !seen[a] {
                seen[a] = true;
                stack.push(a);
            }
        }
    }
    assert!(!seen[g.end]);
    let cut: usize = g.capacities.iter().filter(|e| seen[e.0 .0] && !seen[e.0 .1]).map(|e| e.1).sum();
    assert_eq!(cut, max_flow);
}

#[test]
fn nice_packet_indices() {
    let g = nice_network();
    assert_eq!(g.start, 0);
    assert_eq!(g.end, 1);
    assert_eq!(g.size(), 15);
    // 'a' is the first label met, so it gets index 2; 'f' the last, index 7
    assert_eq!(g.capacities[0], ((0, 2), 10));
    assert_eq!(g.capacities[14], ((7, 1), 10));
    assert_eq!(g.capacities[13], ((7, 3), 6));
}

#[test]
fn repeated_runs_agree() {
    let g = packet_network();
    let first = g.ford_fulkerson().1;
    for _ in 0..20 {
        assert_eq!(nice_network().ford_fulkerson().1, first);
        assert_eq!(g.ford_fulkerson().1, first);
    }
}

#[test]
fn two_disjoint_unit_paths() {
    let g = FlowNetwork::from_edges_nice(&[
        ((Start, Id('a')), 1),
        ((Id('a'), Id('b')), 1),
        ((Id('b'), Id('c')), 1),
        ((Id('c'), End), 1),
        ((Id('a'), Id('x')), 1),
        ((Start, Id('z')), 1),
        ((Id('z'), Id('y')), 1),
        ((Id('y'), Id('x')), 1),
        ((Id('x'), End), 1),
    ]);
    let (flow, max_flow) = g.ford_fulkerson();
    assert_eq!(max_flow, 2);
    check_feasible_and_conserving(&g, &flow);
}

#[test]
fn source_without_edges_gives_zero() {
    let g = FlowNetwork::from_edges(0, 3, &[((1, 2), 5), ((2, 3), 5), ((1, 3), 2), ((2, 0), 4)]);
    let (flow, max_flow) = g.ford_fulkerson();
    assert_eq!(max_flow, 0);
    assert!(flow.iter().all(|e| e.1 == 0));
}

#[test]
fn single_edge_carries_its_capacity() {
    let g = FlowNetwork { adj_list: vec![vec![1], vec![]], capacities: vec![((0, 1), 42)], start: 0, end: 1 };
    let (flow, max_flow) = g.ford_fulkerson();
    assert_eq!(max_flow, 42);
    assert_eq!(flow_on(&flow, 0, 1), 42);
}

#[test]
fn two_augmenting_paths() {
    let g = FlowNetwork::from_edges(
        0,
        3,
        &[((0, 1), 1), ((1, 2), 1), ((2, 3), 1), ((0, 2), 1), ((1, 3), 1)],
    );
    let (flow, max_flow) = g.ford_fulkerson();
    assert_eq!(max_flow, 2);
    check_feasible_and_conserving(&g, &flow);
}

#[test]
fn from_edges_keeps_last_capacity() {
    let g = FlowNetwork::from_edges(0, 2, &[((0, 1), 3), ((1, 2), 4), ((0, 1), 7)]);
    assert_eq!(g.size(), 3);
    assert_eq!(g.capacities, vec![((0, 1), 7), ((1, 2), 4)]);
    assert_eq!(g.adj_list, vec![vec![1], vec![2], vec![]]);
    assert_eq!(g.ford_fulkerson().1, 4);
}

#[test]
fn validity_check() {
    assert!(packet_network().is_valid());
    assert!(nice_network().is_valid());
    // sink out of range
    let g = FlowNetwork { adj_list: vec![vec![1], vec![]], capacities: vec![((0, 1), 1)], start: 0, end: 2 };
    assert!(!g.is_valid());
    // source equals sink
    let g = FlowNetwork { adj_list: vec![vec![1], vec![]], capacities: vec![((0, 1), 1)], start: 0, end: 0 };
    assert!(!g.is_valid());
    // a loop
    let g = FlowNetwork { adj_list: vec![vec![1], vec![1]], capacities: vec![((0, 1), 1), ((1, 1), 1)], start: 0, end: 1 };
    assert!(!g.is_valid());
    // two edges in opposite directions
    let g = FlowNetwork { adj_list: vec![vec![1], vec![0]], capacities: vec![((0, 1), 1), ((1, 0), 1)], start: 0, end: 1 };
    assert!(!g.is_valid());
    // a repeated pair
    let g = FlowNetwork { adj_list: vec![vec![1], vec![]], capacities: vec![((0, 1), 1), ((0, 1), 2)], start: 0, end: 1 };
    assert!(!g.is_valid());
    // capacity out of the source that does not fit
    let g = FlowNetwork {
        adj_list: vec![vec![1, 2], vec![], vec![1]],
        capacities: vec![((0, 1), usize::MAX), ((0, 2), 1), ((2, 1), 1)],
        start: 0,
        end: 1,
    };
    assert!(!g.is_valid());
}
