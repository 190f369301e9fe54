use pathfinder2::types::U256;

#[test]
fn to_string() {
    assert_eq!(U256::from(0).to_string(), "0x0");
    assert_eq!(U256::from(u128::MAX).to_string(), "0xffffffffffffffffffffffffffffffff");
}

#[test]
fn add() {
    assert_eq!(
        (U256::from(u128::MAX) + U256::from(u128::MAX)).to_string(),
        "0x1fffffffffffffffffffffffffffffffe"
    );
    let mut x = U256::from(u128::MAX);
    x += U256::from(1);
    assert_eq!(x.to_string(), "0x100000000000000000000000000000000");
}

#[test]
fn compare() {
    assert!(U256::from(0) < U256::from(1));
    assert!(U256::from_hex("0x100000000000000000000000000000000").unwrap() > U256::from(1));
}

#[test]
fn from_hex() {
    assert_eq!(U256::from_hex("0x").unwrap(), U256::from(0));
    assert_eq!(U256::from_hex("0x1").unwrap(), U256::from(1));
    assert_eq!(U256::from_hex("0x01").unwrap(), U256::from(1));
    assert_eq!(
        U256::from_hex("0x1fffffffffffffffffffffffffffffffe").unwrap(),
        U256::from(u128::MAX) + U256::from(u128::MAX)
    );
    assert_eq!(
        U256::from_hex("0x001fffffffffffffffffffffffffffffffe").unwrap(),
        U256::from(u128::MAX) + U256::from(u128::MAX)
    );
    assert_eq!(
        U256::from_hex("0x100000000000000000000000000000000").unwrap(),
        U256::from(u128::MAX) + U256::from(1)
    );
}
