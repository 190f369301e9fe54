use pathfinder2::graph::Node;
use pathfinder2::types::address_map::AddressMap;
use pathfinder2::types::edge::{eq_up_to_capacity, EdgeDB};
use pathfinder2::types::{Address, Edge, U256};

fn addr(text: &str) -> Address {
    Address::from_hex(text).unwrap()
}

fn a() -> Address {
    addr("0x11C7e86fF693e9032A0F41711b5581a04b26Be2E")
}

fn b() -> Address {
    addr("0x22cEDde51198D1773590311E2A340DC06B24cB37")
}

fn c() -> Address {
    addr("0x33cEDde51198D1773590311E2A340DC06B24cB37")
}

#[test]
fn address_text_round_trip() {
    let x = a();
    assert_eq!(x.to_string(), "0x11c7e86ff693e9032a0f41711b5581a04b26be2e");
    assert_eq!(Address::from_hex(&x.to_string()), Some(x));
    assert_eq!(Address::from_hex("11C7e86fF693e9032A0F41711b5581a04b26Be2E"), Some(x));
    assert_eq!(x.short(), "0x11c7e8");
}

#[test]
fn address_rejects_what_is_no_address() {
    assert_eq!(Address::from_hex(""), None);
    assert_eq!(Address::from_hex("0x"), None);
    assert_eq!(Address::from_hex("0x11C7e86fF693e9032A0F41711b5581a04b26Be2"), None);
    assert_eq!(Address::from_hex("0x11C7e86fF693e9032A0F41711b5581a04b26Be2E0"), None);
    assert_eq!(Address::from_hex("0x11C7e86fF693e9032A0F41711b5581a04b26BeZZ"), None);
    assert_eq!(Address::from_hex("0x+1C7e86fF693e9032A0F41711b5581a04b26Be2E"), None);
}

#[test]
fn address_bytes_round_trip() {
    let x = a();
    let bytes = x.to_bytes();
    assert_eq!(bytes[0], 0x11);
    assert_eq!(bytes[1], 0xc7);
    assert_eq!(bytes[19], 0x2e);
    assert_eq!(Address::from(bytes), x);
    assert_eq!(Address::default().to_bytes(), [0u8; 20]);
    assert_eq!(Address::from([0xffu8; 20]).to_string(), "0xffffffffffffffffffffffffffffffffffffffff");
}

#[test]
fn addresses_are_ordered_as_their_bytes() {
    assert!(a() < b());
    assert!(b() < c());
    assert!(Address::default() < a());
    let mut list = vec![c(), a(), b()];
    list.sort();
    assert_eq!(list, vec![a(), b(), c()]);
}

#[test]
fn u256_arithmetic() {
    let max = U256::max_value();
    assert_eq!(max.checked_add(U256::from(1)), None);
    assert_eq!(max.checked_add(U256::from(0)), Some(max));
    assert_eq!(U256::from(5).checked_sub(U256::from(6)), None);
    assert_eq!(U256::from(5).checked_sub(U256::from(5)), Some(U256::from(0)));
    assert_eq!(U256::new(1, 0).checked_sub(U256::from(1)), Some(U256::from(u128::MAX)));
    assert_eq!(U256::new(1, 0) - U256::from(1), U256::from(u128::MAX));
    assert_eq!(max.wrapping_add(U256::from(2)), U256::from(1));
    assert_eq!(U256::from(3).wrapping_neg().wrapping_add(U256::from(3)), U256::from(0));
    assert_eq!(U256::from(0).wrapping_neg(), U256::from(0));
    assert_eq!(U256::from(1).wrapping_neg(), max);
    assert_eq!(U256::from(7).min(U256::from(9)), U256::from(7));
    assert_eq!(U256::from(7).max_of(U256::from(9)), U256::from(9));
    assert_eq!(U256::default(), U256::zero());
    assert!(U256::zero().is_zero());
    assert!(!U256::from(1).is_zero());
}

#[test]
fn u256_small_factors_and_divisors() {
    assert_eq!(U256::from(1000).div_rem_small(7), (U256::from(142), 6));
    assert_eq!(U256::new(1, 0).div_rem_small(2), (U256::from(1u128 << 127), 0));
    assert_eq!(
        U256::max_value().div_rem_small(u64::MAX),
        (U256::from_hex("0x1000000000000000100000000000000010000000000000001").unwrap(), 0)
    );
    assert_eq!(U256::from(12).checked_mul_small(12), Some(U256::from(144)));
    assert_eq!(U256::from(u128::MAX).checked_mul_small(2), Some(U256::new(1, u128::MAX - 1)));
    assert_eq!(U256::max_value().checked_mul_small(2), None);
    assert_eq!(U256::max_value().checked_mul_small(1), Some(U256::max_value()));
    assert_eq!(U256::max_value().checked_mul_small(0), Some(U256::zero()));
    assert_eq!(U256::from(1000).scale(50, 100), U256::from(500));
    assert_eq!(U256::from(999).scale(1, 100), U256::from(9));
    assert_eq!(U256::max_value().scale(100, 100), U256::max_value());
    assert_eq!(U256::from(7).scale(0, 100), U256::from(0));
}

#[test]
fn u256_text() {
    assert_eq!(U256::from(0).to_decimal(), "0");
    assert_eq!(U256::from(1234567890).to_decimal(), "1234567890");
    assert_eq!(
        U256::max_value().to_decimal(),
        "115792089237316195423570985008687907853269984665640564039457584007913129639935"
    );
    assert_eq!(U256::new(1, 0).to_decimal(), "340282366920938463463374607431768211456");
    assert_eq!(U256::new(1, 0).to_string(), "0x100000000000000000000000000000000");
    assert_eq!(
        U256::max_value().to_string(),
        "0xffffffffffffffffffffffffffffffffffffffffffffffffffffffffffffffff"
    );
    assert_eq!(U256::from_hex(&U256::new(77, 5).to_string()), Some(U256::new(77, 5)));
}

#[test]
fn u256_rejects_what_is_no_hex_literal() {
    assert_eq!(U256::from_hex(""), None);
    assert_eq!(U256::from_hex("12"), None);
    assert_eq!(U256::from_hex("0xg"), None);
    assert_eq!(U256::from_hex("0x+1"), None);
    assert_eq!(
        U256::from_hex("0x10000000000000000000000000000000000000000000000000000000000000000"),
        None
    );
    assert_eq!(
        U256::from_hex("0xffffffffffffffffffffffffffffffffffffffffffffffffffffffffffffffff"),
        Some(U256::max_value())
    );
    assert_eq!(U256::from_hex("0xABCdef"), Some(U256::from(0xabcdef)));
}

#[test]
fn u256_from_bytes() {
    assert_eq!(U256::from_be_bytes(&[]), Some(U256::zero()));
    assert_eq!(U256::from_be_bytes(&[1, 2]), Some(U256::from(258)));
    assert_eq!(U256::from_be_bytes(&[0, 0, 0, 7]), Some(U256::from(7)));
    let mut long = vec![0u8; 40];
    long[39] = 9;
    assert_eq!(U256::from_be_bytes(&long), Some(U256::from(9)));
    long[7] = 1;
    assert_eq!(U256::from_be_bytes(&long), None);
}

#[test]
fn address_map_keeps_keys_in_order() {
    let mut m: AddressMap<u8> = AddressMap::new();
    assert_eq!(m.len(), 0);
    assert_eq!(m.insert(b(), 2), 0);
    assert_eq!(m.insert(a(), 1), 0);
    assert_eq!(m.insert(c(), 3), 2);
    assert_eq!(m.len(), 3);
    assert_eq!(m.key_at(0), a());
    assert_eq!(m.key_at(1), b());
    assert_eq!(m.key_at(2), c());
    assert_eq!(m.get(b()), Some(&2));
    assert_eq!(m.insert(b(), 9), 1);
    assert_eq!(m.len(), 3);
    assert_eq!(m.get(b()), Some(&9));
    assert_eq!(m.find(c()), Some(2));
    assert!(m.contains_key(a()));
    m.remove(a());
    assert!(!m.contains_key(a()));
    assert_eq!(m.get(a()), None);
    assert_eq!(m.key_at(0), b());
    m.set_value_at(0, 4);
    assert_eq!(*m.value_at(0), 4);
    *m.value_at_mut(1) = 5;
    assert_eq!(m.get(c()), Some(&5));
    m.remove_at(0);
    assert_eq!(m.len(), 1);
    m.remove(a());
    assert_eq!(m.len(), 1);
}

#[test]
fn edges_are_equal_up_to_capacity() {
    let e1 = Edge { from: a(), to: b(), token: c(), capacity: U256::from(1) };
    let e2 = Edge { from: a(), to: b(), token: c(), capacity: U256::from(2) };
    let e3 = Edge { from: a(), to: c(), token: c(), capacity: U256::from(1) };
    assert!(eq_up_to_capacity(&e1, &e2));
    assert!(!eq_up_to_capacity(&e1, &e3));
    assert_eq!(Edge::default().capacity, U256::zero());
}

#[test]
fn edge_db_hides_edges_without_capacity() {
    let e1 = Edge { from: a(), to: b(), token: c(), capacity: U256::from(1) };
    let e2 = Edge { from: a(), to: c(), token: c(), capacity: U256::from(0) };
    let e3 = Edge { from: b(), to: c(), token: a(), capacity: U256::from(3) };
    let db = EdgeDB::new(vec![e1, e2, e3]);
    assert_eq!(db.edge_count(), 3);
    assert_eq!(db.outgoing(&a()), vec![e1]);
    assert_eq!(db.outgoing(&b()), vec![e3]);
    assert_eq!(db.outgoing(&c()), vec![]);
    assert_eq!(db.incoming(&c()), vec![e3]);
    assert_eq!(db.incoming(&b()), vec![e1]);
    assert_eq!(db.incoming(&a()), vec![]);
    assert_eq!(db.edges(), &vec![e1, e2, e3]);
}

#[test]
fn edge_db_update_replaces_by_identity() {
    let e1 = Edge { from: a(), to: b(), token: c(), capacity: U256::from(1) };
    let e2 = Edge { from: a(), to: c(), token: c(), capacity: U256::from(2) };
    let mut db = EdgeDB::new(vec![e1]);
    db.update(e2);
    assert_eq!(db.edge_count(), 2);
    assert_eq!(db.outgoing(&a()), vec![e1, e2]);
    let e1b = Edge { capacity: U256::from(7), ..e1 };
    db.update(e1b);
    assert_eq!(db.edge_count(), 2);
    assert_eq!(db.edges(), &vec![e1b, e2]);
    let gone = Edge { capacity: U256::from(0), ..e2 };
    db.update(gone);
    assert_eq!(db.edge_count(), 2);
    assert_eq!(db.outgoing(&a()), vec![e1b]);
    assert_eq!(db.incoming(&c()), vec![]);
    db.update(e2);
    assert_eq!(db.incoming(&c()), vec![e2]);
    assert_eq!(db.duplicate().edges(), db.edges());
}

#[test]
fn nodes_are_written() {
    let n = Node::Node(a());
    assert_eq!(n.to_string(), "0x11c7e86ff693e9032a0f41711b5581a04b26be2e");
    assert_eq!(
        Node::BalanceNode(a(), b()).to_string(),
        "(bal 0x11c7e86ff693e9032a0f41711b5581a04b26be2e x 0x22cedde51198d1773590311e2a340dc06b24cb37)"
    );
    assert_eq!(
        Node::TrustNode(a(), b()).to_string(),
        "(trust 0x11c7e86ff693e9032a0f41711b5581a04b26be2e x 0x22cedde51198d1773590311e2a340dc06b24cb37)"
    );
}

#[test]
fn u256_saturates() {
    let max = U256::max_value();
    assert_eq!(max.saturating_add(U256::from(1)), max);
    assert_eq!(U256::from(2).saturating_add(U256::from(3)), U256::from(5));
    assert_eq!(max.saturating_add(max), max);
    assert_eq!(U256::from(2).saturating_sub(U256::from(3)), U256::from(0));
    assert_eq!(U256::from(3).saturating_sub(U256::from(2)), U256::from(1));
}
