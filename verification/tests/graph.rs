use pathfinder2::graph::flow::compute_flow;
use pathfinder2::types::edge::EdgeDB;
use pathfinder2::types::{Address, Edge, U256};

fn addresses() -> (Address, Address, Address, Address, Address, Address) {
    (
        Address::from_hex("0x11C7e86fF693e9032A0F41711b5581a04b26Be2E").unwrap(),
        Address::from_hex("0x22cEDde51198D1773590311E2A340DC06B24cB37").unwrap(),
        Address::from_hex("0x33cEDde51198D1773590311E2A340DC06B24cB37").unwrap(),
        Address::from_hex("0x447EDde51198D1773590311E2A340DC06B24cB37").unwrap(),
        Address::from_hex("0x55c16ce62d26fd51582a646e2e30a3267b1e6d7e").unwrap(),
        Address::from_hex("0x66c16ce62d26fd51582a646e2e30a3267b1e6d7e").unwrap(),
    )
}

fn build_edges(input: Vec<Edge>) -> EdgeDB {
    EdgeDB::new(input)
}

fn edge(from: Address, to: Address, token: Address, capacity: u128) -> Edge {
    Edge { from, to, token, capacity: U256::from(capacity) }
}

#[test]
fn test_direct() {
    let (a, b, t, ..) = addresses();
    let edges = build_edges(vec![Edge { from: a, to: b, token: t, capacity: U256::from(10) }]);
    let flow = compute_flow(&a, &b, &edges, U256::max_value(), None, None).unwrap();
    assert_eq!(
        flow,
        (U256::from(10), vec![Edge { from: a, to: b, token: t, capacity: U256::from(10) }])
    );
}

#[test]
fn test_one_hop() {
    let (a, b, c, t1, t2, ..) = addresses();
    let edges = build_edges(vec![
        Edge { from: a, to: b, token: t1, capacity: U256::from(10) },
        Edge { from: b, to: c, token: t2, capacity: U256::from(8) },
    ]);
    let flow = compute_flow(&a, &c, &edges, U256::max_value(), None, None).unwrap();
    assert_eq!(
        flow,
        (
            U256::from(8),
            vec![
                Edge { from: a, to: b, token: t1, capacity: U256::from(8) },
                Edge { from: b, to: c, token: t2, capacity: U256::from(8) },
            ]
        )
    );
}

#[test]
fn test_diamond() {
    let (a, b, c, d, t1, t2) = addresses();
    let edges = build_edges(vec![
        Edge { from: a, to: b, token: t1, capacity: U256::from(10) },
        Edge { from: a, to: c, token: t2, capacity: U256::from(7) },
        Edge { from: b, to: d, token: t2, capacity: U256::from(9) },
        Edge { from: c, to: d, token: t1, capacity: U256::from(8) },
    ]);
    let mut flow = compute_flow(&a, &d, &edges, U256::max_value(), None, None).unwrap();
    flow.1.sort();
    assert_eq!(
        flow,
        (
            U256::from(16),
            vec![
                Edge { from: a, to: b, token: t1, capacity: U256::from(9) },
                Edge { from: a, to: c, token: t2, capacity: U256::from(7) },
                Edge { from: b, to: d, token: t2, capacity: U256::from(9) },
                Edge { from: c, to: d, token: t1, capacity: U256::from(7) },
            ]
        )
    );
    let mut pruned_flow = compute_flow(&a, &d, &edges, U256::from(6), None, None).unwrap();
    pruned_flow.1.sort();
    assert_eq!(
        pruned_flow,
        (
            U256::from(6),
            vec![
                Edge { from: a, to: b, token: t1, capacity: U256::from(6) },
                Edge { from: b, to: d, token: t2, capacity: U256::from(6) },
            ]
        )
    );
}

#[test]
fn trust_transfer_limit() {
    let (a, b, c, d, ..) = addresses();
    let edges = build_edges(vec![
        // The following two edges should be balance-limited,
        // i.e. a -> first intermediate is limited by the max of the two.
        Edge { from: a, to: b, token: a, capacity: U256::from(10) },
        Edge { from: a, to: c, token: a, capacity: U256::from(11) },
        // The following two edges should be trust-limited,
        // i.e. the edge from the second (pre-) intermediate is limited
        // by the max of the two.
        Edge { from: b, to: d, token: a, capacity: U256::from(9) },
        Edge { from: c, to: d, token: a, capacity: U256::from(8) },
    ]);
    let mut flow = compute_flow(&a, &d, &edges, U256::max_value(), None, None).unwrap();
    flow.1.sort();
    println!("{:?}", &flow.1);
    assert_eq!(flow.0, U256::from(9));
}

#[test]
fn flow_direct() {
    let (a, b, t, ..) = addresses();
    let given = vec![edge(a, b, t, 10)];
    let edges = build_edges(given.clone());
    let flow = compute_flow(&a, &b, &edges, U256::max_value(), None, None).unwrap();
    assert_eq!(flow, (U256::from(10), given));
}

#[test]
fn flow_one_hop() {
    let (a, b, c, t1, t2, ..) = addresses();
    let edges = build_edges(vec![edge(a, b, t1, 10), edge(b, c, t2, 8)]);
    let flow = compute_flow(&a, &c, &edges, U256::max_value(), None, None).unwrap();
    assert_eq!(flow, (U256::from(8), vec![edge(a, b, t1, 8), edge(b, c, t2, 8)]));
}

#[test]
fn flow_diamond() {
    let (a, b, c, d, t1, t2) = addresses();
    let edges = build_edges(vec![
        edge(a, b, t1, 10),
        edge(a, c, t2, 7),
        edge(b, d, t2, 9),
        edge(c, d, t1, 8),
    ]);
    let mut flow = compute_flow(&a, &d, &edges, U256::max_value(), None, None).unwrap();
    flow.1.sort();
    assert_eq!(
        flow,
        (
            U256::from(16),
            vec![edge(a, b, t1, 9), edge(a, c, t2, 7), edge(b, d, t2, 9), edge(c, d, t1, 7)]
        )
    );
}

#[test]
fn hop_cap_leaves_no_path() {
    let (a, b, c, d, t1, t2) = addresses();
    let e = t1;
    let edges = build_edges(vec![
        edge(a, b, t2, 5),
        edge(b, c, t2, 5),
        edge(c, d, t2, 5),
        edge(d, e, t2, 5),
    ]);
    let capped = compute_flow(&a, &e, &edges, U256::max_value(), Some(2), None).unwrap();
    assert_eq!(capped, (U256::from(0), vec![]));
    let free = compute_flow(&a, &e, &edges, U256::max_value(), Some(4), None).unwrap();
    assert_eq!(free.0, U256::from(5));
}

#[test]
fn same_source_and_sink_gives_nothing() {
    let (a, b, t, ..) = addresses();
    let edges = build_edges(vec![edge(a, b, t, 10), edge(b, a, t, 10)]);
    let flow = compute_flow(&a, &a, &edges, U256::max_value(), None, None).unwrap();
    assert_eq!(flow, (U256::from(0), vec![]));
}
