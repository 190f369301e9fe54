use pathfinder2::live_patch::cast_interface::{decode_address, decode_flag};
use pathfinder2::safe_db::db::DB;
use pathfinder2::safe_db::safes_json::{
    import_from_safes_json, parse_percentage, JsonBalance, JsonEdge, JsonSafe, JsonToken,
    SnapshotError,
};
use pathfinder2::types::address_map::AddressMap;
use pathfinder2::types::{Address, Edge, Safe, U256};

fn account(n: u8) -> Address {
    let mut bytes = [0u8; 20];
    bytes[19] = n;
    Address::from(bytes)
}

fn edge(from: u8, to: u8, token: u8, capacity: u128) -> Edge {
    Edge { from: account(from), to: account(to), token: account(token), capacity: U256::from(capacity) }
}

fn safe(own: u8, organization: bool, balances: &[(u8, u128)], limits: &[(u8, u8)]) -> Safe {
    let mut s = Safe::default();
    s.token_address = account(own);
    s.organization = organization;
    for (token, amount) in balances {
        s.balances.insert(account(*token), U256::from(*amount));
    }
    for (send_to, pct) in limits {
        s.limit_percentage.insert(account(*send_to), *pct);
    }
    s
}

fn accounts() -> (AddressMap<Safe>, AddressMap<Address>) {
    let mut safes = AddressMap::new();
    safes.insert(account(1), safe(1, false, &[(1, 1000)], &[(2, 50), (3, 30)]));
    safes.insert(account(2), safe(2, false, &[(2, 400), (1, 100)], &[(1, 100)]));
    safes.insert(account(3), safe(3, true, &[], &[]));
    let mut token_owner = AddressMap::new();
    for n in 1..=3 {
        token_owner.insert(account(n), account(n));
    }
    (safes, token_owner)
}

#[test]
fn balance_of_a_token_that_is_not_held_is_nothing() {
    let s = safe(1, false, &[(1, 7)], &[]);
    assert_eq!(s.balance(&account(1)), U256::from(7));
    assert_eq!(s.balance(&account(2)), U256::from(0));
    assert_eq!(Safe::default().balance(&account(1)), U256::from(0));
}

#[test]
fn trust_limit_by_the_formula() {
    let sender = safe(1, false, &[(1, 1000)], &[]);
    let receiver = safe(2, false, &[(2, 400), (1, 100)], &[]);
    // 400 * 50 / 100 = 200 allowed, 100 * 50 / 100 = 50 of what is held not covered
    assert_eq!(sender.trust_transfer_limit(&receiver, 50, &account(1)), U256::from(150));
    // 400 * 25 / 100 = 100 allowed and 100 held: 100 - 75
    assert_eq!(sender.trust_transfer_limit(&receiver, 25, &account(1)), U256::from(25));
    // 400 * 24 / 100 = 96 allowed, but 100 held already
    assert_eq!(sender.trust_transfer_limit(&receiver, 24, &account(1)), U256::from(0));
    assert_eq!(sender.trust_transfer_limit(&receiver, 0, &account(1)), U256::from(0));
    // no more than the sender holds
    let poor = safe(1, false, &[(1, 30)], &[]);
    assert_eq!(poor.trust_transfer_limit(&receiver, 50, &account(1)), U256::from(30));
    assert_eq!(poor.trust_transfer_limit(&receiver, 100, &account(1)), U256::from(30));
    // rounded down
    let odd = safe(2, false, &[(2, 333), (1, 7)], &[]);
    assert_eq!(sender.trust_transfer_limit(&odd, 10, &account(1)), U256::from(33 - 6));
    // the largest amounts do not overflow
    let rich = safe(2, false, &[], &[]);
    let mut rich = rich;
    rich.balances.insert(account(2), U256::max_value());
    let mut all = safe(1, false, &[], &[]);
    all.balances.insert(account(1), U256::max_value());
    assert_eq!(all.trust_transfer_limit(&rich, 100, &account(1)), U256::max_value());
}

#[test]
fn capacity_edges_of_a_database() {
    let (safes, token_owner) = accounts();
    let db = DB::new(safes, token_owner);
    assert_eq!(
        db.edges().edges(),
        &vec![edge(1, 2, 1, 150), edge(1, 3, 1, 1000), edge(2, 3, 1, 100), edge(2, 1, 2, 400)]
    );
    assert_eq!(db.safes().len(), 3);
}

#[test]
fn capacity_edges_with_returns_to_the_owner_only() {
    let (safes, token_owner) = accounts();
    let mut db = DB::new(safes, token_owner);
    db.compute_edges_new();
    assert_eq!(
        db.edges().edges(),
        &vec![edge(1, 2, 1, 150), edge(1, 3, 1, 1000), edge(2, 1, 2, 400), edge(2, 1, 1, 100)]
    );
    db.compute_edges();
    assert_eq!(db.edges().edge_count(), 4);
    assert_eq!(db.into_edges().edges()[2], edge(2, 3, 1, 100));
}

#[test]
fn percentages_are_read() {
    assert_eq!(parse_percentage("0"), Some(0));
    assert_eq!(parse_percentage("50"), Some(50));
    assert_eq!(parse_percentage("100"), Some(100));
    assert_eq!(parse_percentage("007"), Some(7));
    assert_eq!(parse_percentage("101"), None);
    assert_eq!(parse_percentage("999"), None);
    assert_eq!(parse_percentage("1000"), None);
    assert_eq!(parse_percentage(""), None);
    assert_eq!(parse_percentage("5a"), None);
    assert_eq!(parse_percentage("+5"), None);
}

fn text(n: u8) -> String {
    account(n).to_string()
}

fn connection(user: u8, send_to: u8, pct: &str) -> JsonEdge {
    JsonEdge {
        limit: None,
        limit_percentage: pct.to_string(),
        can_send_to_address: text(send_to),
        user_address: text(user),
    }
}

fn holding(token: u8, owner: u8, amount: &str) -> JsonBalance {
    JsonBalance { amount: amount.to_string(), token: JsonToken { id: text(token), owner: text(owner) } }
}

fn snapshot() -> Vec<JsonSafe> {
    vec![
        JsonSafe {
            id: text(1),
            organization: false,
            outgoing: vec![connection(1, 2, "50"), connection(1, 3, "30"), connection(1, 1, "100")],
            incoming: vec![connection(2, 1, "100")],
            balances: vec![holding(1, 1, "0x3e8")],
        },
        JsonSafe {
            id: text(2),
            organization: false,
            outgoing: vec![connection(2, 1, "100")],
            incoming: vec![connection(1, 2, "50")],
            balances: vec![holding(2, 2, "0x190"), holding(1, 1, "0x64")],
        },
        JsonSafe { id: text(3), organization: true, outgoing: vec![], incoming: vec![], balances: vec![] },
    ]
}

#[test]
fn a_snapshot_becomes_a_database() {
    let db = import_from_safes_json(&snapshot()).unwrap();
    assert_eq!(
        db.edges().edges(),
        &vec![edge(1, 2, 1, 150), edge(1, 3, 1, 1000), edge(2, 3, 1, 100), edge(2, 1, 2, 400)]
    );
    let one = db.safes().get(account(1)).unwrap();
    assert_eq!(one.token_address, account(1));
    assert_eq!(one.limit_percentage.len(), 2);
    assert!(db.safes().get(account(3)).unwrap().organization);
}

#[test]
fn a_snapshot_with_a_fault_is_rejected() {
    let mut s = snapshot();
    s[0].id = "0x12".to_string();
    assert_eq!(import_from_safes_json(&s).err(), Some(SnapshotError::InvalidAddress));
    let mut s = snapshot();
    s[1].balances[0].amount = "400".to_string();
    assert_eq!(import_from_safes_json(&s).err(), Some(SnapshotError::InvalidAmount));
    let mut s = snapshot();
    s[1].balances[0].token.owner = "nobody".to_string();
    assert_eq!(import_from_safes_json(&s).err(), Some(SnapshotError::InvalidAddress));
    let mut s = snapshot();
    s[0].outgoing[0].limit_percentage = "101".to_string();
    assert_eq!(import_from_safes_json(&s).err(), Some(SnapshotError::InvalidPercentage));
    let mut s = snapshot();
    s[0].incoming[0] = connection(9, 1, "10");
    assert_eq!(import_from_safes_json(&s).err(), Some(SnapshotError::UnknownAccount));
    let mut s = snapshot();
    s[0].incoming[0] = connection(9, 1, "0");
    assert!(import_from_safes_json(&s).is_ok());
}

#[test]
fn answers_of_contract_calls_are_decoded() {
    let padded = "0x0000000000000000000000006293268785399bed001cb68a8ee04d50da9c854d";
    assert_eq!(
        decode_address(padded),
        Address::from_hex("0x6293268785399bed001cb68a8ee04d50da9c854d")
    );
    assert_eq!(decode_address("0x6293268785399bed001cb68a8ee04d50da9c854d"), None);
    assert_eq!(
        decode_address("0x0000000000000000000000016293268785399bed001cb68a8ee04d50da9c854d"),
        None
    );
    assert_eq!(
        decode_address("0x000000000000000000000000629326878539zbed001cb68a8ee04d50da9c854d"),
        None
    );
    assert_eq!(decode_flag("0x0"), Some(false));
    assert_eq!(decode_flag("0x0000000000000000000000000000000000000000000000000000000000000001"), Some(true));
    assert_eq!(decode_flag("true"), None);
    assert!(U256::from_hex("0xe3d8a7fc2b4d05726").unwrap() >= U256::from_hex("0xe3d8a7fc2b4d05726").unwrap());
    assert_eq!(U256::from_hex("0x32"), Some(U256::from(50)));
}
