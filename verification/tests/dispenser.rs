use pathfinder2::rpc::call_context::CallContext;
use pathfinder2::rpc::rpc_functions::{load_safes_binary, update_edges};
use pathfinder2::safe_db::edge_db_dispenser::{EdgeDBVersion, EdgeDbDispenser};
use pathfinder2::types::edge::EdgeDB;
use pathfinder2::types::{Address, Edge, U256};

fn account(n: u8) -> Address {
    let mut bytes = [0u8; 20];
    bytes[19] = n;
    Address::from(bytes)
}

fn edge(from: u8, to: u8, capacity: u128) -> Edge {
    Edge { from: account(from), to: account(to), token: account(from), capacity: U256::from(capacity) }
}

#[test]
fn nothing_is_handed_out_before_the_first_publication() {
    let mut dispenser = EdgeDbDispenser::new();
    assert!(dispenser.get_latest_version().is_none());
    assert!(dispenser.latest().is_none());
}

#[test]
fn a_reader_keeps_the_version_it_pinned() {
    let mut dispenser = EdgeDbDispenser::new();
    dispenser.update(EdgeDB::new(vec![edge(1, 2, 10)]));
    let first = dispenser.get_latest_version().unwrap();
    assert_eq!(first.version_number, 1);
    assert_eq!(first.edges.edges(), &vec![edge(1, 2, 10)]);
    dispenser.update(EdgeDB::new(vec![edge(1, 2, 20), edge(2, 3, 5)]));
    dispenser.update(EdgeDB::new(vec![]));
    // the first reader still reads what it pinned
    assert_eq!(first.edges.edges(), &vec![edge(1, 2, 10)]);
    let third = dispenser.get_latest_version().unwrap();
    assert_eq!(third.version_number, 3);
    assert_eq!(third.edges.edge_count(), 0);
    let again = dispenser.get_latest_version().unwrap();
    assert_eq!(again.version_number, 3);
    dispenser.try_release_version(first);
    dispenser.try_release_version(third);
    dispenser.try_release_version(again);
    dispenser.update(EdgeDB::new(vec![edge(3, 4, 1)]));
    assert_eq!(dispenser.get_latest_version().unwrap().version_number, 4);
    assert_eq!(dispenser.latest().unwrap().edges(), &vec![edge(3, 4, 1)]);
}

#[test]
fn a_release_without_a_pin_changes_nothing() {
    let mut dispenser = EdgeDbDispenser::new();
    dispenser.update(EdgeDB::new(vec![edge(1, 2, 10)]));
    let v = dispenser.get_latest_version().unwrap();
    let stray = EdgeDBVersion {
        version_number: 7,
        edges: v.edges.clone(),
    };
    dispenser.try_release_version(stray);
    dispenser.try_release_version(v);
    assert_eq!(dispenser.get_latest_version().unwrap().version_number, 1);
}

#[test]
fn updates_go_by_sender_receiver_and_token() {
    let mut dispenser = EdgeDbDispenser::new();
    assert_eq!(update_edges(&mut dispenser, &vec![edge(1, 2, 10), edge(2, 3, 4)]), Some(2));
    assert_eq!(dispenser.latest().unwrap().edges(), &vec![edge(1, 2, 10), edge(2, 3, 4)]);
    let pinned = dispenser.get_latest_version().unwrap();
    assert_eq!(
        update_edges(&mut dispenser, &vec![edge(1, 2, 7), edge(3, 1, 1), edge(2, 3, 0)]),
        Some(3)
    );
    assert_eq!(
        dispenser.latest().unwrap().edges(),
        &vec![edge(1, 2, 7), edge(2, 3, 0), edge(3, 1, 1)]
    );
    assert_eq!(pinned.edges.edges(), &vec![edge(1, 2, 10), edge(2, 3, 4)]);
    assert_eq!(update_edges(&mut dispenser, &vec![]), Some(3));
    assert_eq!(dispenser.get_latest_version().unwrap().version_number, 3);
}

#[test]
fn a_file_that_cannot_be_read_publishes_nothing() {
    let mut dispenser = EdgeDbDispenser::new();
    assert!(load_safes_binary(&[0, 0, 0, 1], &mut dispenser).is_err());
    assert!(dispenser.latest().is_none());
    // no addresses, no organizations, no trust, no balances
    assert_eq!(load_safes_binary(&[0; 16], &mut dispenser), Ok(0));
    assert_eq!(dispenser.get_latest_version().unwrap().version_number, 1);
}

#[test]
fn a_request_pins_and_releases() {
    let mut dispenser = EdgeDbDispenser::new();
    let early = CallContext::new(&mut dispenser);
    assert!(early.edges().is_none());
    assert_eq!(early.log_message(17, "main", "hello"), "   17 [main] [0]  hello");
    early.release(&mut dispenser);
    dispenser.update(EdgeDB::new(vec![edge(1, 2, 10)]));
    let call = CallContext::new(&mut dispenser);
    assert_eq!(dispenser.readers(1), 1);
    assert_eq!(call.edges().unwrap().edges(), &vec![edge(1, 2, 10)]);
    assert_eq!(call.log_line("->", 1700000000, "ThreadId(3)", ""), "-> 1700000000 [ThreadId(3)] [1] ");
    let other = CallContext::new(&mut dispenser);
    assert_eq!(dispenser.readers(1), 2);
    dispenser.update(EdgeDB::new(vec![]));
    assert_eq!(dispenser.counter(), 2);
    call.release(&mut dispenser);
    assert_eq!(dispenser.readers(1), 1);
    other.release(&mut dispenser);
    assert_eq!(dispenser.readers(1), 0);
    assert_eq!(dispenser.readers(2), 0);
}
