use pathfinder2::io::edges_csv::CsvError;
use pathfinder2::io::{
    import_from_safes_binary, read_edges_binary, read_edges_csv, write_edges_binary,
    write_edges_csv, ImportError,
};
use pathfinder2::types::edge::EdgeDB;
use pathfinder2::types::{Address, Edge, U256};

fn account(n: u8) -> Address {
    let mut bytes = [0u8; 20];
    bytes[19] = n;
    Address::from(bytes)
}

fn edge(from: u8, to: u8, token: u8, capacity: u128) -> Edge {
    Edge { from: account(from), to: account(to), token: account(token), capacity: U256::from(capacity) }
}

fn put_u32(out: &mut Vec<u8>, v: u32) {
    out.extend_from_slice(&v.to_be_bytes());
}

fn put_address(out: &mut Vec<u8>, n: u8) {
    out.extend_from_slice(&account(n).to_bytes());
}

fn put_amount(out: &mut Vec<u8>, bytes: &[u8]) {
    out.push(bytes.len() as u8);
    out.extend_from_slice(bytes);
}

/// A file of the accounts 1, 2 and 3, of which 3 is an organization.
fn safes_file() -> Vec<u8> {
    let mut f = Vec::new();
    put_u32(&mut f, 3);
    put_address(&mut f, 1);
    put_address(&mut f, 2);
    put_address(&mut f, 3);
    put_u32(&mut f, 1);
    put_u32(&mut f, 2);
    put_u32(&mut f, 5);
    for (user, send_to, pct) in [(0u32, 1u32, 50u8), (0, 2, 30), (1, 0, 100), (1, 1, 70), (2, 0, 0)] {
        put_u32(&mut f, user);
        put_u32(&mut f, send_to);
        f.push(pct);
    }
    put_u32(&mut f, 4);
    for (user, owner, amount) in [(0u32, 0u32, vec![0x03u8, 0xe8]), (1, 1, vec![0x01, 0x90]), (1, 0, vec![0, 100]), (2, 0, vec![])] {
        put_u32(&mut f, user);
        put_u32(&mut f, owner);
        put_amount(&mut f, &amount);
    }
    f
}

#[test]
fn accounts_are_read_from_a_file() {
    let db = import_from_safes_binary(&safes_file()).unwrap();
    let safes = db.safes();
    assert_eq!(safes.len(), 3);
    let one = safes.get(account(1)).unwrap();
    assert_eq!(one.token_address, account(1));
    assert!(!one.organization);
    assert_eq!(one.balance(&account(1)), U256::from(1000));
    assert_eq!(one.balance(&account(2)), U256::from(0));
    assert_eq!(one.limit_percentage.get(account(2)), Some(&50));
    assert_eq!(one.limit_percentage.get(account(3)), Some(&30));
    let two = safes.get(account(2)).unwrap();
    assert_eq!(two.balance(&account(2)), U256::from(400));
    assert_eq!(two.balance(&account(1)), U256::from(100));
    // trust in oneself is dropped
    assert_eq!(two.limit_percentage.len(), 1);
    let three = safes.get(account(3)).unwrap();
    assert!(three.organization);
    // no trust at no percentage, no balance of nothing
    assert_eq!(three.limit_percentage.len(), 0);
    assert_eq!(three.balances.len(), 0);
}

#[test]
fn capacity_edges_follow_from_the_accounts() {
    let db = import_from_safes_binary(&safes_file()).unwrap();
    assert_eq!(
        db.edges().edges(),
        &vec![edge(1, 2, 1, 150), edge(1, 3, 1, 1000), edge(2, 3, 1, 100), edge(2, 1, 2, 400)]
    );
}

#[test]
fn a_later_record_replaces_an_earlier_one() {
    let mut f = Vec::new();
    put_u32(&mut f, 2);
    put_address(&mut f, 1);
    put_address(&mut f, 2);
    put_u32(&mut f, 0);
    put_u32(&mut f, 2);
    for pct in [10u8, 20] {
        put_u32(&mut f, 0);
        put_u32(&mut f, 1);
        f.push(pct);
    }
    put_u32(&mut f, 2);
    for amount in [5u8, 6] {
        put_u32(&mut f, 0);
        put_u32(&mut f, 0);
        put_amount(&mut f, &[amount]);
    }
    // what follows the balances is not read
    f.extend_from_slice(&[1, 2, 3]);
    let db = import_from_safes_binary(&f).unwrap();
    let one = db.safes().get(account(1)).unwrap();
    assert_eq!(one.limit_percentage.get(account(2)), Some(&20));
    assert_eq!(one.balance(&account(1)), U256::from(6));
    assert_eq!(db.safes().len(), 1);
}

#[test]
fn a_short_file_is_rejected() {
    let whole = safes_file();
    for cut in 0..whole.len() {
        assert_eq!(
            import_from_safes_binary(&whole[..cut]).err(),
            Some(ImportError::UnexpectedEof)
        );
    }
    assert!(import_from_safes_binary(&whole).is_ok());
}

#[test]
fn malformed_records_are_rejected() {
    let head = |f: &mut Vec<u8>| {
        put_u32(f, 2);
        put_address(f, 1);
        put_address(f, 0);
    };
    // an organization beyond the list of addresses
    let mut f = Vec::new();
    head(&mut f);
    put_u32(&mut f, 1);
    put_u32(&mut f, 2);
    assert_eq!(import_from_safes_binary(&f).err(), Some(ImportError::UnknownAddress));
    // trust of the address of all zero bytes
    let mut f = Vec::new();
    head(&mut f);
    put_u32(&mut f, 0);
    put_u32(&mut f, 1);
    put_u32(&mut f, 1);
    put_u32(&mut f, 0);
    f.push(50);
    assert_eq!(import_from_safes_binary(&f).err(), Some(ImportError::ZeroAddress));
    // trust in the address of all zero bytes
    let mut f = Vec::new();
    head(&mut f);
    put_u32(&mut f, 0);
    put_u32(&mut f, 1);
    put_u32(&mut f, 0);
    put_u32(&mut f, 1);
    f.push(50);
    assert_eq!(import_from_safes_binary(&f).err(), Some(ImportError::ZeroAddress));
    // a percentage above 100
    let mut f = Vec::new();
    put_u32(&mut f, 2);
    put_address(&mut f, 1);
    put_address(&mut f, 2);
    put_u32(&mut f, 0);
    put_u32(&mut f, 1);
    put_u32(&mut f, 0);
    put_u32(&mut f, 1);
    f.push(101);
    assert_eq!(import_from_safes_binary(&f).err(), Some(ImportError::InvalidPercentage));
    // an amount of more than 32 bytes
    let mut f = Vec::new();
    put_u32(&mut f, 1);
    put_address(&mut f, 1);
    put_u32(&mut f, 0);
    put_u32(&mut f, 0);
    put_u32(&mut f, 1);
    put_u32(&mut f, 0);
    put_u32(&mut f, 0);
    put_amount(&mut f, &[1; 33]);
    assert_eq!(import_from_safes_binary(&f).err(), Some(ImportError::NumberTooLong));
    // an amount of 32 bytes is the largest
    let mut f = Vec::new();
    put_u32(&mut f, 1);
    put_address(&mut f, 1);
    put_u32(&mut f, 0);
    put_u32(&mut f, 0);
    put_u32(&mut f, 1);
    put_u32(&mut f, 0);
    put_u32(&mut f, 0);
    put_amount(&mut f, &[255; 32]);
    let db = import_from_safes_binary(&f).unwrap();
    assert_eq!(db.safes().get(account(1)).unwrap().balance(&account(1)), U256::max_value());
}

#[test]
fn edges_are_written_with_their_addresses_in_order() {
    let db = EdgeDB::new(vec![edge(3, 1, 2, 258), edge(1, 3, 3, 0)]);
    let mut expected = Vec::new();
    put_u32(&mut expected, 3);
    put_address(&mut expected, 1);
    put_address(&mut expected, 2);
    put_address(&mut expected, 3);
    put_u32(&mut expected, 2);
    put_u32(&mut expected, 2);
    put_u32(&mut expected, 0);
    put_u32(&mut expected, 1);
    put_amount(&mut expected, &[1, 2]);
    put_u32(&mut expected, 0);
    put_u32(&mut expected, 2);
    put_u32(&mut expected, 2);
    put_amount(&mut expected, &[]);
    assert_eq!(write_edges_binary(&db), Some(expected));
}

#[test]
fn edges_that_are_written_are_read_again() {
    let max = U256::max_value();
    let list = vec![
        edge(3, 1, 2, 258),
        edge(1, 3, 3, 0),
        Edge { from: account(9), to: account(1), token: account(9), capacity: max },
        edge(1, 3, 3, 77),
        Edge { from: account(4), to: account(5), token: account(6), capacity: U256::new(1, 0) },
    ];
    let db = EdgeDB::new(list.clone());
    let written = write_edges_binary(&db).unwrap();
    let read = read_edges_binary(&written).unwrap();
    assert_eq!(read.edges(), &list);
    // and written again byte for byte
    assert_eq!(write_edges_binary(&read), Some(written));
    let none = EdgeDB::new(vec![]);
    assert_eq!(write_edges_binary(&none), Some(vec![0; 8]));
    assert_eq!(read_edges_binary(&[0; 8]).unwrap().edge_count(), 0);
}

#[test]
fn a_file_of_edges_that_ends_early_is_rejected() {
    let db = EdgeDB::new(vec![edge(3, 1, 2, 258), edge(1, 3, 3, 5)]);
    let written = write_edges_binary(&db).unwrap();
    for cut in 0..written.len() {
        assert_eq!(read_edges_binary(&written[..cut]).err(), Some(ImportError::UnexpectedEof));
    }
    let mut beyond = written.clone();
    let at = 4 + 3 * 20 + 4 + 3;
    beyond[at] = 3;
    assert_eq!(read_edges_binary(&beyond).err(), Some(ImportError::UnknownAddress));
    let mut long = written;
    long[at + 9] = 33;
    assert_eq!(read_edges_binary(&long).err(), Some(ImportError::NumberTooLong));
}

#[test]
fn edges_are_read_from_text() {
    let text = "0x0000000000000000000000000000000000000003,0x0000000000000000000000000000000000000001,0x0000000000000000000000000000000000000002,258\n\
'0x0000000000000000000000000000000000000001',\"0x0000000000000000000000000000000000000003\",0x0000000000000000000000000000000000000003,'0x4d'\r\n\
\n\
0x0000000000000000000000000000000000000009,0x0000000000000000000000000000000000000001,0x0000000000000000000000000000000000000009,\"115792089237316195423570985008687907853269984665640564039457584007913129639935\"";
    let db = read_edges_csv(text.as_bytes()).unwrap();
    assert_eq!(
        db.edges(),
        &vec![
            edge(3, 1, 2, 258),
            edge(1, 3, 3, 77),
            Edge { from: account(9), to: account(1), token: account(9), capacity: U256::max_value() },
        ]
    );
    assert_eq!(read_edges_csv(b"").unwrap().edge_count(), 0);
    assert_eq!(read_edges_csv(b"\n\r\n\n").unwrap().edge_count(), 0);
}

#[test]
fn edges_are_written_as_text_and_read_again() {
    let list = vec![
        edge(3, 1, 2, 258),
        edge(1, 3, 3, 0),
        Edge { from: account(9), to: account(1), token: account(9), capacity: U256::max_value() },
    ];
    let db = EdgeDB::new(list.clone());
    let text = write_edges_csv(&db);
    assert!(text.starts_with(
        "0x0000000000000000000000000000000000000003,0x0000000000000000000000000000000000000001,0x0000000000000000000000000000000000000002,258\n0x"
    ));
    assert_eq!(text.lines().count(), 3);
    let read = read_edges_csv(text.as_bytes()).unwrap();
    assert_eq!(read.edges(), &list);
    assert_eq!(write_edges_csv(&read), text);
    assert_eq!(write_edges_csv(&EdgeDB::new(vec![])), "");
}

#[test]
fn faulty_lines_are_rejected() {
    let a = "0x0000000000000000000000000000000000000001";
    let line = |fields: &[&str]| fields.join(",");
    assert_eq!(read_edges_csv(line(&[a, a, a]).as_bytes()).err(), Some(CsvError::FieldCount));
    assert_eq!(read_edges_csv(line(&[a, a, a, "1", "2"]).as_bytes()).err(), Some(CsvError::FieldCount));
    assert_eq!(read_edges_csv(b"x").err(), Some(CsvError::FieldCount));
    assert_eq!(read_edges_csv(line(&[&a[2..], a, a, "1"]).as_bytes()).err(), Some(CsvError::InvalidAddress));
    assert_eq!(read_edges_csv(line(&[a, "0x12", a, "1"]).as_bytes()).err(), Some(CsvError::InvalidAddress));
    assert_eq!(read_edges_csv(line(&[a, a, "'0x0000000000000000000000000000000000000001\"", "1"]).as_bytes()).err(), Some(CsvError::InvalidAddress));
    assert_eq!(read_edges_csv(line(&[a, a, a, ""]).as_bytes()).err(), Some(CsvError::InvalidAmount));
    assert_eq!(read_edges_csv(line(&[a, a, a, "-1"]).as_bytes()).err(), Some(CsvError::InvalidAmount));
    assert_eq!(read_edges_csv(line(&[a, a, a, "1.5"]).as_bytes()).err(), Some(CsvError::InvalidAmount));
    assert_eq!(
        read_edges_csv(
            line(&[a, a, a, "115792089237316195423570985008687907853269984665640564039457584007913129639936"])
                .as_bytes()
        )
        .err(),
        Some(CsvError::InvalidAmount)
    );
    assert!(read_edges_csv(line(&[a, a, a, "0x"]).as_bytes()).is_ok());
    // the first fault is reported
    let both = format!("{}\n{}", line(&[a, a, a, "z"]), line(&[a, a]));
    assert_eq!(read_edges_csv(both.as_bytes()).err(), Some(CsvError::InvalidAmount));
}

#[test]
fn decimal_amounts_are_read() {
    assert_eq!(U256::from_decimal_bytes(b"0"), Some(U256::from(0)));
    assert_eq!(U256::from_decimal_bytes(b"000123"), Some(U256::from(123)));
    assert_eq!(
        U256::from_decimal_bytes(b"340282366920938463463374607431768211456"),
        Some(U256::new(1, 0))
    );
    assert_eq!(U256::from_decimal_bytes(b""), None);
    assert_eq!(U256::from_decimal_bytes(b"12 "), None);
    assert_eq!(U256::from_decimal_bytes(b"+12"), None);
    assert_eq!(
        U256::from_decimal_bytes(U256::max_value().to_decimal().as_bytes()),
        Some(U256::max_value())
    );
}
