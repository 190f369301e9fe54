use pathfinder2::graph::flow::{compute_flow, create_sorted_transfers, FlowError};
use pathfinder2::graph::flow_map::FlowMap;
use pathfinder2::graph::Node;
use pathfinder2::types::edge::EdgeDB;
use pathfinder2::types::{Address, Edge, U256};

fn account(n: u8) -> Address {
    let mut bytes = [0u8; 20];
    bytes[0] = n;
    bytes[19] = 0x37;
    Address::from(bytes)
}

fn edge(from: u8, to: u8, token: u8, capacity: u128) -> Edge {
    Edge { from: account(from), to: account(to), token: account(token), capacity: U256::from(capacity) }
}

/// A network of eight accounts in which several ways lead from 1 to 8.
fn network() -> EdgeDB {
    EdgeDB::new(vec![
        edge(1, 2, 1, 30),
        edge(1, 3, 1, 20),
        edge(1, 4, 9, 15),
        edge(2, 5, 1, 12),
        edge(2, 5, 2, 10),
        edge(2, 6, 2, 9),
        edge(3, 6, 1, 11),
        edge(3, 5, 3, 6),
        edge(4, 7, 9, 15),
        edge(5, 8, 5, 25),
        edge(5, 8, 1, 4),
        edge(6, 8, 2, 7),
        edge(6, 8, 1, 13),
        edge(7, 8, 9, 5),
        edge(7, 6, 9, 10),
        edge(8, 1, 8, 50),
        edge(6, 2, 6, 0),
    ])
}

fn sum_in(transfers: &[Edge], a: Address) -> u128 {
    transfers.iter().filter(|t| t.to == a).map(|t| value(t.capacity)).sum()
}

fn sum_out(transfers: &[Edge], a: Address) -> u128 {
    transfers.iter().filter(|t| t.from == a).map(|t| value(t.capacity)).sum()
}

fn value(x: U256) -> u128 {
    x.to_decimal().parse().unwrap()
}

fn runs() -> Vec<(U256, Option<u64>, Option<u64>)> {
    vec![
        (U256::max_value(), None, None),
        (U256::from(33), None, None),
        (U256::from(17), None, None),
        (U256::from(1), None, None),
        (U256::max_value(), Some(2), None),
        (U256::max_value(), Some(3), None),
        (U256::max_value(), None, Some(2)),
        (U256::max_value(), None, Some(3)),
        (U256::from(23), Some(3), Some(4)),
    ]
}

#[test]
fn transfers_conserve_what_they_move() {
    let db = network();
    for (requested, hops, steps) in runs() {
        let (flow, transfers) = compute_flow(&account(1), &account(8), &db, requested, hops, steps).unwrap();
        for n in 1..=9 {
            let a = account(n);
            let (i, o) = (sum_in(&transfers, a), sum_out(&transfers, a));
            if n == 1 {
                assert_eq!(o - i, value(flow));
            } else if n == 8 {
                assert_eq!(i - o, value(flow));
            } else {
                assert_eq!(i, o);
            }
        }
    }
}

#[test]
fn the_largest_flow_is_found() {
    let db = network();
    let (flow, _) = compute_flow(&account(1), &account(8), &db, U256::max_value(), None, None).unwrap();
    // 1 sends no more than 30 of its own token, and 7 hands on no more than 10
    assert_eq!(flow, U256::from(40));
}

#[test]
fn the_flow_is_no_more_than_requested() {
    let db = network();
    for requested in [0u128, 1, 17, 39, 40, 41, 1000] {
        let (flow, transfers) =
            compute_flow(&account(1), &account(8), &db, U256::from(requested), None, None).unwrap();
        assert_eq!(value(flow), requested.min(40));
        assert_eq!(transfers.is_empty(), requested == 0);
    }
}

#[test]
fn a_hop_bound_bounds_the_transfers_on_every_way() {
    let db = network();
    let (direct, transfers) =
        compute_flow(&account(1), &account(8), &db, U256::max_value(), Some(1), None).unwrap();
    assert_eq!(direct, U256::from(0));
    assert!(transfers.is_empty());
    let (two, transfers) =
        compute_flow(&account(1), &account(8), &db, U256::max_value(), Some(2), None).unwrap();
    assert_eq!(two, U256::from(0));
    assert!(transfers.is_empty());
    let (three, _) =
        compute_flow(&account(1), &account(8), &db, U256::max_value(), Some(3), None).unwrap();
    assert!(value(three) > 0 && value(three) <= 40);
    let (all, _) =
        compute_flow(&account(1), &account(8), &db, U256::max_value(), Some(100), None).unwrap();
    assert_eq!(all, U256::from(40));
}

#[test]
fn a_transfer_bound_bounds_the_used_edges() {
    let db = network();
    for k in 0..8u64 {
        let (flow, transfers) =
            compute_flow(&account(1), &account(8), &db, U256::max_value(), None, Some(k)).unwrap();
        assert!(transfers.len() as u64 <= 3 * k);
        assert!(value(flow) <= 40);
        if k == 0 {
            assert_eq!(flow, U256::from(0));
        }
    }
}

#[test]
fn transfers_that_share_used_edges_go_beyond_the_bound() {
    // 1 pays 2, 3 and 4 out of one pool, and 5 takes from them into one intake:
    // six transfers over fourteen used edges, which a bound of five lets stand
    let db = EdgeDB::new(vec![
        edge(1, 2, 1, 9),
        edge(1, 3, 1, 9),
        edge(1, 4, 1, 9),
        edge(2, 5, 5, 3),
        edge(3, 5, 5, 3),
        edge(4, 5, 5, 3),
    ]);
    let (flow, transfers) =
        compute_flow(&account(1), &account(5), &db, U256::max_value(), None, Some(5)).unwrap();
    assert_eq!(flow, U256::from(9));
    assert_eq!(transfers.len(), 6);
    let (less, fewer) =
        compute_flow(&account(1), &account(5), &db, U256::max_value(), None, Some(4)).unwrap();
    assert!(fewer.len() <= 12);
    assert!(less <= flow);
}

#[test]
fn every_account_receives_before_it_sends() {
    let db = network();
    for (requested, hops, steps) in runs() {
        let (_, transfers) = compute_flow(&account(1), &account(8), &db, requested, hops, steps).unwrap();
        for (i, t) in transfers.iter().enumerate() {
            for (j, s) in transfers.iter().enumerate() {
                if t.from == s.to {
                    assert!(j < i);
                }
            }
        }
    }
}

#[test]
fn no_transfer_hands_on_just_what_it_brings() {
    let db = network();
    for (requested, hops, steps) in runs() {
        let (_, transfers) = compute_flow(&account(1), &account(8), &db, requested, hops, steps).unwrap();
        for (i, t) in transfers.iter().enumerate() {
            for (j, s) in transfers.iter().enumerate() {
                assert!(!(i != j && t.to == s.from && t.token == s.token && t.capacity == s.capacity));
            }
        }
    }
}

#[test]
fn the_capacity_network_has_room_for_every_transfer() {
    // no chain of one token and one amount here, so every transfer is an edge
    let db = EdgeDB::new(vec![
        edge(1, 2, 1, 10),
        edge(1, 3, 2, 7),
        edge(2, 4, 2, 9),
        edge(3, 4, 1, 8),
    ]);
    let (_, transfers) = compute_flow(&account(1), &account(4), &db, U256::max_value(), None, None).unwrap();
    assert_eq!(transfers.len(), 4);
    for t in &transfers {
        let room = db.edges().iter().find(|e| e.from == t.from && e.to == t.to && e.token == t.token);
        assert!(t.capacity <= room.unwrap().capacity);
    }
}

#[test]
fn a_flow_that_does_not_fit_is_reported() {
    let max = U256::max_value();
    let db = EdgeDB::new(vec![
        Edge { from: account(1), to: account(2), token: account(1), capacity: max },
        Edge { from: account(1), to: account(2), token: account(3), capacity: max },
    ]);
    assert_eq!(
        compute_flow(&account(1), &account(2), &db, max, None, None),
        Err(FlowError::Overflow)
    );
}

#[test]
fn a_sum_of_incoming_edges_is_capped() {
    let max = U256::max_value();
    // both edges bring the token of 2 back to 2
    let db = EdgeDB::new(vec![
        Edge { from: account(1), to: account(2), token: account(2), capacity: max },
        Edge { from: account(3), to: account(2), token: account(2), capacity: max },
    ]);
    let (flow, transfers) = compute_flow(&account(1), &account(2), &db, max, None, None).unwrap();
    assert_eq!(flow, max);
    assert_eq!(transfers, vec![Edge { from: account(1), to: account(2), token: account(2), capacity: max }]);
}

#[test]
fn transfers_in_a_circle_cannot_be_ordered() {
    let mut used = FlowMap::new();
    let steps = [(1u8, 2u8, 1u8), (2, 3, 2), (3, 2, 3), (2, 4, 4)];
    for (from, to, token) in steps {
        let (f, t, k) = (account(from), account(to), account(token));
        for (x, y) in [
            (Node::Node(f), Node::BalanceNode(f, k)),
            (Node::BalanceNode(f, k), Node::TrustNode(t, k)),
            (Node::TrustNode(t, k), Node::Node(t)),
        ] {
            used.set(&x, &y, U256::from(5));
        }
    }
    assert_eq!(
        create_sorted_transfers(&account(1), &account(4), U256::from(5), used),
        Err(FlowError::Unorderable)
    );
    assert_eq!(
        create_sorted_transfers(&account(1), &account(4), U256::from(0), FlowMap::new()),
        Ok(vec![])
    );
    assert_eq!(
        create_sorted_transfers(&account(1), &account(4), U256::from(5), FlowMap::new()),
        Err(FlowError::NoAdmissibleEdge)
    );
}
