use pathfinder2::graph::adjacencies::Adjacencies;
use pathfinder2::graph::augmenting_path::augmenting_path;
use pathfinder2::graph::extract_transfers::extract_transfers;
use pathfinder2::graph::flow::{
    find_pair_to_simplify, reduce_transfers, simplify_transfers, sort_transfers, FlowError,
};
use pathfinder2::graph::flow_map::{FlowEntry, FlowMap};
use pathfinder2::graph::prune::{prune_edge, prune_flow, smallest_entry};
use pathfinder2::graph::{as_trust_node, node_as_address, node_before, Node};
use pathfinder2::types::edge::EdgeDB;
use pathfinder2::types::{Address, Edge, U256};

fn addresses() -> (Address, Address, Address, Address, Address, Address) {
    (
        Address::from_hex("0x11C7e86fF693e9032A0F41711b5581a04b26Be2E").unwrap(),
        Address::from_hex("0x22cEDde51198D1773590311E2A340DC06B24cB37").unwrap(),
        Address::from_hex("0x33cEDde51198D1773590311E2A340DC06B24cB37").unwrap(),
        Address::from_hex("0x447EDde51198D1773590311E2A340DC06B24cB37").unwrap(),
        Address::from_hex("0x55c16ce62d26fd51582a646e2e30a3267b1e6d7e").unwrap(),
        Address::from_hex("0x66c16ce62d26fd51582a646e2e30a3267b1e6d7e").unwrap(),
    )
}

fn edge(from: Address, to: Address, token: Address, capacity: u128) -> Edge {
    Edge { from, to, token, capacity: U256::from(capacity) }
}

fn u(n: u128) -> U256 {
    U256::from(n)
}

/// The used edges of a run of transfers, each with its three edges of the flow
/// network.
fn used_edges_of(transfers: &[Edge]) -> FlowMap {
    let mut used = FlowMap::new();
    for t in transfers {
        let steps = [
            (Node::Node(t.from), Node::BalanceNode(t.from, t.token)),
            (Node::BalanceNode(t.from, t.token), Node::TrustNode(t.to, t.token)),
            (Node::TrustNode(t.to, t.token), Node::Node(t.to)),
        ];
        for (x, y) in steps {
            let so_far = used.get(&x, &y);
            used.set(&x, &y, so_far + t.capacity);
        }
    }
    used
}

#[test]
fn nodes_are_ordered_by_kind_then_account_then_token() {
    let (a, b, ..) = addresses();
    assert!(node_before(&Node::Node(b), &Node::BalanceNode(a, a)));
    assert!(node_before(&Node::BalanceNode(b, b), &Node::TrustNode(a, a)));
    assert!(node_before(&Node::Node(a), &Node::Node(b)));
    assert!(!node_before(&Node::Node(b), &Node::Node(a)));
    assert!(!node_before(&Node::Node(a), &Node::Node(a)));
    assert!(node_before(&Node::TrustNode(a, a), &Node::TrustNode(a, b)));
    assert!(node_before(&Node::TrustNode(a, b), &Node::TrustNode(b, a)));
    assert_eq!(node_as_address(&Node::Node(a)), &a);
    assert_eq!(as_trust_node(&Node::TrustNode(a, b)), (&a, &b));
}

#[test]
fn flow_map_records_by_pair() {
    let (a, b, ..) = addresses();
    let x = Node::Node(a);
    let y = Node::BalanceNode(a, b);
    let z = Node::TrustNode(b, b);
    let mut m = FlowMap::new();
    assert!(m.is_empty());
    assert_eq!(m.get(&x, &y), u(0));
    m.set(&x, &y, u(5));
    m.set(&y, &z, u(0));
    m.set(&x, &y, u(6));
    assert_eq!(m.len(), 2);
    assert_eq!(m.get(&x, &y), u(6));
    assert_eq!(m.find(&y, &z), Some(1));
    assert!(m.contains(&y, &z));
    assert!(!m.contains(&y, &x));
    assert_eq!(m.entry_at(0), FlowEntry { from: x, to: y, capacity: u(6) });
    m.retain_nonzero();
    assert_eq!(m.len(), 1);
    assert!(!m.contains(&y, &z));
    m.set_at(0, u(9));
    assert_eq!(m.get(&x, &y), u(9));
    m.remove_at(0);
    assert!(m.is_empty());
}

#[test]
fn capacities_of_the_flow_network() {
    let (a, b, c, d, ..) = addresses();
    // the edges of the trust limit example
    let edges = EdgeDB::new(vec![
        edge(a, b, a, 10),
        edge(a, c, a, 11),
        edge(b, d, a, 9),
        edge(c, d, a, 8),
        edge(d, a, a, 4),
        edge(b, a, a, 5),
    ]);
    let mut adj = Adjacencies::new(&edges);
    // from an account to its pool: the largest of its outgoing edges of the token
    assert_eq!(
        adj.outgoing_edges_sorted_by_capacity(&Node::Node(a)),
        vec![(Node::BalanceNode(a, a), u(11))]
    );
    // from a pool to the intakes: the capacity of each edge, the larger first
    assert_eq!(
        adj.outgoing_edges_sorted_by_capacity(&Node::BalanceNode(a, a)),
        vec![(Node::TrustNode(c, a), u(11)), (Node::TrustNode(b, a), u(10))]
    );
    // from an intake to its account: the largest of the incoming edges of the token
    assert_eq!(
        adj.outgoing_edges_sorted_by_capacity(&Node::TrustNode(d, a)),
        vec![(Node::Node(d), u(9))]
    );
    // or their sum where the token is the account's own
    assert_eq!(
        adj.outgoing_edges_sorted_by_capacity(&Node::TrustNode(a, a)),
        vec![(Node::Node(a), u(9))]
    );
    assert!(adj.is_adjacent(&Node::Node(a), &Node::BalanceNode(a, a)));
    assert!(!adj.is_adjacent(&Node::BalanceNode(a, a), &Node::Node(a)));
    assert!(!adj.is_adjacent(&Node::Node(a), &Node::BalanceNode(a, b)));
}

#[test]
fn equal_capacities_are_listed_in_the_order_of_the_vertices() {
    let (a, b, c, d, t, ..) = addresses();
    let edges = EdgeDB::new(vec![edge(a, d, t, 5), edge(a, b, t, 5), edge(a, c, t, 6)]);
    let mut adj = Adjacencies::new(&edges);
    assert_eq!(
        adj.outgoing_edges_sorted_by_capacity(&Node::BalanceNode(a, t)),
        vec![
            (Node::TrustNode(c, t), u(6)),
            (Node::TrustNode(b, t), u(5)),
            (Node::TrustNode(d, t), u(5)),
        ]
    );
}

#[test]
fn adjustments_add_modulo_two_to_the_256() {
    let (a, b, _, _, t, ..) = addresses();
    let edges = EdgeDB::new(vec![edge(a, b, t, 10)]);
    let mut adj = Adjacencies::new(&edges);
    let from = Node::BalanceNode(a, t);
    let to = Node::TrustNode(b, t);
    adj.adjust_capacity(&from, &to, u(4).wrapping_neg());
    adj.adjust_capacity(&to, &from, u(4));
    assert_eq!(adj.outgoing_edges_sorted_by_capacity(&from), vec![(to, u(6))]);
    assert_eq!(
        adj.outgoing_edges_sorted_by_capacity(&to),
        vec![(Node::Node(b), u(10)), (from, u(4))]
    );
    adj.adjust_capacity(&from, &to, u(6).wrapping_neg());
    assert_eq!(adj.outgoing_edges_sorted_by_capacity(&from), vec![]);
    // what is pushed does not change what the capacity network gives
    assert!(adj.is_adjacent(&from, &to));
    assert!(!adj.is_adjacent(&to, &from));
}

#[test]
fn augmenting_path_runs_from_the_sink_back_to_the_source() {
    let (a, b, c, _, t1, t2) = addresses();
    let edges = EdgeDB::new(vec![edge(a, b, t1, 10), edge(b, c, t2, 8)]);
    let mut adj = Adjacencies::new(&edges);
    let (flow, path) = augmenting_path(&a, &c, &mut adj, None);
    assert_eq!(flow, u(8));
    assert_eq!(
        path,
        vec![
            Node::Node(c),
            Node::TrustNode(c, t2),
            Node::BalanceNode(b, t2),
            Node::Node(b),
            Node::TrustNode(b, t1),
            Node::BalanceNode(a, t1),
            Node::Node(a),
        ]
    );
    assert_eq!(augmenting_path(&a, &a, &mut adj, None), (u(0), vec![]));
    assert_eq!(augmenting_path(&c, &a, &mut adj, None), (u(0), vec![]));
    assert_eq!(augmenting_path(&a, &c, &mut adj, Some(1)), (u(0), vec![]));
    assert_eq!(augmenting_path(&a, &c, &mut adj, Some(2)).0, u(8));
    assert_eq!(augmenting_path(&a, &c, &mut adj, Some(u64::MAX)).0, u(8));
    assert_eq!(augmenting_path(&a, &c, &mut adj, Some(0)), (u(0), vec![]));
}

#[test]
fn prune_edge_takes_flow_off_a_whole_path() {
    let (a, b, c, _, t1, t2) = addresses();
    let mut used = used_edges_of(&[edge(a, b, t1, 8), edge(b, c, t2, 8)]);
    let left = prune_edge(&mut used, (&Node::BalanceNode(a, t1), &Node::TrustNode(b, t1)), u(3));
    assert_eq!(left, u(0));
    assert_eq!(used.len(), 6);
    for i in 0..6 {
        assert_eq!(used.entry_at(i).capacity, u(5));
    }
    let left = prune_edge(&mut used, (&Node::Node(b), &Node::BalanceNode(b, t2)), u(7));
    assert_eq!(left, u(2));
    assert!(used.is_empty());
}

#[test]
fn pruning_an_edge_of_a_circle_can_leave_the_flow_as_it_is() {
    let (a, b, c, d, ..) = addresses();
    let (s, m, t, side) = (Node::Node(a), Node::Node(b), Node::Node(d), Node::Node(c));
    // 5 from s over m to t, and 2 from m to the side and back
    let mut used = FlowMap::new();
    used.set(&s, &m, u(5));
    used.set(&m, &t, u(5));
    used.set(&m, &side, u(2));
    used.set(&side, &m, u(2));
    let left = prune_edge(&mut used, (&side, &m), u(2));
    assert_eq!(left, u(0));
    // the circle is gone, and as much leaves s and arrives at t as before
    assert_eq!(used.len(), 2);
    assert_eq!(used.get(&s, &m), u(5));
    assert_eq!(used.get(&m, &t), u(5));
}

#[test]
fn prune_flow_takes_the_longer_way_first() {
    let (a, b, c, d, t1, t2) = addresses();
    // 9 over b, and 7 over c and then b
    let mut used = used_edges_of(&[
        edge(a, d, t1, 9),
        edge(a, b, t2, 7),
        edge(b, d, t2, 7),
    ]);
    let left = prune_flow(&a, &d, u(7), &mut used);
    assert_eq!(left, u(0));
    assert_eq!(used.len(), 3);
    assert_eq!(used.get(&Node::BalanceNode(a, t1), &Node::TrustNode(d, t1)), u(9));
    let left = prune_flow(&a, &d, u(4), &mut used);
    assert_eq!(left, u(0));
    assert_eq!(used.get(&Node::BalanceNode(a, t1), &Node::TrustNode(d, t1)), u(5));
    let left = prune_flow(&a, &d, u(6), &mut used);
    assert_eq!(left, u(1));
    assert!(used.is_empty());
    assert_eq!(prune_flow(&a, &d, u(0), &mut used), u(0));
    let _ = c;
}

#[test]
fn reduce_transfers_takes_out_the_smallest_edges() {
    let (a, b, c, _, t1, t2) = addresses();
    let mut used = used_edges_of(&[edge(a, b, t1, 9), edge(a, c, t2, 7)]);
    assert_eq!(smallest_entry(&used), Some(3));
    assert_eq!(reduce_transfers(6, &mut used), u(0));
    assert_eq!(used.len(), 6);
    assert_eq!(reduce_transfers(5, &mut used), u(7));
    assert_eq!(used.len(), 3);
    assert_eq!(used.get(&Node::BalanceNode(a, t1), &Node::TrustNode(b, t1)), u(9));
    assert_eq!(reduce_transfers(0, &mut used), u(9));
    assert!(used.is_empty());
    assert_eq!(smallest_entry(&used), None);
}

#[test]
fn extraction_follows_the_balances() {
    let (a, b, c, d, t1, t2) = addresses();
    let transfers = [edge(a, b, t1, 9), edge(a, c, t2, 7), edge(b, d, t2, 9), edge(c, d, t1, 7)];
    let used = used_edges_of(&transfers);
    let extracted = extract_transfers(&a, &d, &u(16), used).unwrap();
    // the source can afford either of its edges; the smaller goes first, and then
    // the accounts take their turn in the order of their addresses
    assert_eq!(
        extracted,
        vec![edge(a, c, t2, 7), edge(a, b, t1, 9), edge(b, d, t2, 9), edge(c, d, t1, 7)]
    );
}

#[test]
fn extraction_fails_without_an_admissible_edge() {
    let (a, b, c, _, t1, ..) = addresses();
    let used = used_edges_of(&[edge(a, b, t1, 9)]);
    // more than the used edges carry
    assert_eq!(extract_transfers(&a, &b, &u(10), used), Ok(vec![edge(a, b, t1, 9)]).and(Err(FlowError::NoAdmissibleEdge)));
    let used = used_edges_of(&[edge(a, b, t1, 9)]);
    // the flow stops short of the sink
    assert_eq!(extract_transfers(&a, &c, &u(9), used), Err(FlowError::NoAdmissibleEdge));
    // nothing to move
    assert_eq!(extract_transfers(&a, &c, &u(0), FlowMap::new()), Ok(vec![]));
    assert_eq!(extract_transfers(&a, &a, &u(5), FlowMap::new()), Ok(vec![]));
}

#[test]
fn simplification_draws_chains_together() {
    let (a, b, c, d, t1, t2) = addresses();
    let list = vec![edge(a, b, t1, 5), edge(b, c, t1, 5), edge(c, d, t1, 5), edge(a, d, t2, 5)];
    assert_eq!(find_pair_to_simplify(&list), Some((0, 1)));
    assert_eq!(simplify_transfers(list), vec![edge(a, d, t1, 5), edge(a, d, t2, 5)]);
    let list = vec![edge(b, c, t1, 5), edge(a, b, t1, 5)];
    assert_eq!(find_pair_to_simplify(&list), Some((1, 0)));
    assert_eq!(simplify_transfers(list), vec![edge(a, c, t1, 5)]);
    // another token or another amount is not handed on
    let list = vec![edge(a, b, t1, 5), edge(b, c, t2, 5), edge(b, d, t1, 4)];
    assert_eq!(find_pair_to_simplify(&list), None);
    assert_eq!(simplify_transfers(list.clone()), list);
    assert_eq!(simplify_transfers(vec![]), vec![]);
}

#[test]
fn sorting_lets_every_account_receive_before_it_sends() {
    let (a, b, c, d, t1, t2) = addresses();
    let list = vec![edge(c, d, t1, 7), edge(b, d, t2, 9), edge(a, c, t2, 7), edge(a, b, t1, 9)];
    assert_eq!(
        sort_transfers(list),
        Some(vec![edge(a, c, t2, 7), edge(a, b, t1, 9), edge(c, d, t1, 7), edge(b, d, t2, 9)])
    );
    assert_eq!(sort_transfers(vec![]), Some(vec![]));
}

#[test]
fn sorting_gives_up_on_a_cycle() {
    let (a, b, c, _, t1, ..) = addresses();
    assert_eq!(sort_transfers(vec![edge(a, b, t1, 1), edge(b, a, t1, 2)]), None);
    assert_eq!(sort_transfers(vec![edge(a, a, t1, 1)]), None);
    assert_eq!(sort_transfers(vec![edge(c, a, t1, 1), edge(a, b, t1, 1), edge(b, a, t1, 2)]), None);
}
