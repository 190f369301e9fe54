use pathfinder2::graph::flow::FlowError;
use pathfinder2::rpc::rpc_functions::{
    address_if_matched, compute_transfer, u256_from_magnitude, validate_and_parse_ethereum_address,
    validate_and_parse_u256, RequestError,
};
use pathfinder2::rpc::rpc_handler::{
    error_code, header_line, json_rpc_response, method_of, HeaderLine, Method,
};
use pathfinder2::types::edge::EdgeDB;
use pathfinder2::types::{Address, Edge, U256};

#[test]
fn parses_decimal_amounts() {
    assert_eq!(validate_and_parse_u256("0"), Ok(U256::from(0)));
    assert_eq!(validate_and_parse_u256("1000000000000000000"), Ok(U256::from(1000000000000000000)));
    assert_eq!(
        validate_and_parse_u256("340282366920938463463374607431768211456"),
        Ok(U256::new(1, 0))
    );
    assert_eq!(
        validate_and_parse_u256(
            "115792089237316195423570985008687907853269984665640564039457584007913129639935"
        ),
        Ok(U256::max_value())
    );
}

#[test]
fn rejects_amounts_that_are_no_numbers() {
    assert_eq!(validate_and_parse_u256(""), Err(RequestError::InvalidValue));
    assert_eq!(validate_and_parse_u256("12a"), Err(RequestError::InvalidValue));
    assert_eq!(validate_and_parse_u256("-1"), Err(RequestError::InvalidValue));
    assert_eq!(validate_and_parse_u256("0x10"), Err(RequestError::InvalidValue));
}

#[test]
fn rejects_amounts_above_256_bits() {
    assert_eq!(
        validate_and_parse_u256(
            "115792089237316195423570985008687907853269984665640564039457584007913129639936"
        ),
        Err(RequestError::ValueTooLarge)
    );
}

#[test]
fn magnitude_of_bytes() {
    assert_eq!(u256_from_magnitude(&[]), Ok(U256::from(0)));
    assert_eq!(u256_from_magnitude(&[1, 0]), Ok(U256::from(256)));
    assert_eq!(u256_from_magnitude(&[0; 40]), Ok(U256::from(0)));
    let mut big = vec![0u8; 33];
    big[0] = 1;
    assert_eq!(u256_from_magnitude(&big), Err(RequestError::ValueTooLarge));
    assert_eq!(u256_from_magnitude(&[255; 32]), Ok(U256::max_value()));
}

#[test]
fn parses_addresses() {
    let text = "0x11C7e86fF693e9032A0F41711b5581a04b26Be2E";
    let a = validate_and_parse_ethereum_address(text).unwrap();
    assert_eq!(a, Address::from_hex(text).unwrap());
    assert_eq!(a.to_string(), "0x11c7e86ff693e9032a0f41711b5581a04b26be2e");
}

#[test]
fn rejects_malformed_addresses() {
    let invalid = Err(RequestError::InvalidAddress);
    assert_eq!(validate_and_parse_ethereum_address(""), invalid);
    assert_eq!(
        validate_and_parse_ethereum_address("11C7e86fF693e9032A0F41711b5581a04b26Be2E"),
        invalid
    );
    assert_eq!(
        validate_and_parse_ethereum_address("0x11C7e86fF693e9032A0F41711b5581a04b26Be2"),
        invalid
    );
    assert_eq!(
        validate_and_parse_ethereum_address("0x11C7e86fF693e9032A0F41711b5581a04b26Be2Eff"),
        invalid
    );
    assert_eq!(
        validate_and_parse_ethereum_address("0x11C7e86fF693e9032A0F41711b5581a04b26Be2G"),
        invalid
    );
}

#[test]
fn address_needs_the_match() {
    let text = "0x11C7e86fF693e9032A0F41711b5581a04b26Be2E";
    assert!(address_if_matched(Some(true), text).is_ok());
    assert_eq!(address_if_matched(Some(false), text), Err(RequestError::InvalidAddress));
    assert_eq!(address_if_matched(None, text), Err(RequestError::InvalidAddress));
    assert_eq!(address_if_matched(Some(true), "0x12"), Err(RequestError::InvalidAddress));
}

#[test]
fn transfer_request_errors_in_order() {
    let a = "0x11C7e86fF693e9032A0F41711b5581a04b26Be2E";
    let b = "0x22cEDde51198D1773590311E2A340DC06B24cB37";
    let edges = EdgeDB::new(vec![]);
    assert_eq!(compute_transfer("x", "y", "z", None), Err(RequestError::NoEdgesLoaded));
    assert_eq!(compute_transfer("x", "y", "z", Some(&edges)), Err(RequestError::InvalidValue));
    assert_eq!(compute_transfer("x", b, "1", Some(&edges)), Err(RequestError::InvalidAddress));
    assert_eq!(compute_transfer(a, "y", "1", Some(&edges)), Err(RequestError::InvalidAddress));
    assert_eq!(compute_transfer(a, b, "1", Some(&edges)), Ok((U256::from(0), vec![])));
}

#[test]
fn transfer_request_computes_the_flow() {
    let a = "0x11C7e86fF693e9032A0F41711b5581a04b26Be2E";
    let b = "0x22cEDde51198D1773590311E2A340DC06B24cB37";
    let t = "0x55c16ce62d26fd51582a646e2e30a3267b1e6d7e";
    let from = Address::from_hex(a).unwrap();
    let to = Address::from_hex(b).unwrap();
    let token = Address::from_hex(t).unwrap();
    let edges = EdgeDB::new(vec![Edge { from, to, token, capacity: U256::from(10) }]);
    assert_eq!(
        compute_transfer(a, b, "4", Some(&edges)),
        Ok((U256::from(4), vec![Edge { from, to, token, capacity: U256::from(4) }]))
    );
    assert_eq!(
        compute_transfer(a, b, "40", Some(&edges)),
        Ok((U256::from(10), vec![Edge { from, to, token, capacity: U256::from(10) }]))
    );
}

#[test]
fn error_messages() {
    assert_eq!(RequestError::NoEdgesLoaded.message(), "No edges loaded yet");
    assert_eq!(RequestError::InvalidAddress.message(), "Invalid Ethereum address");
    assert_eq!(
        RequestError::Flow(FlowError::Unorderable).message(),
        "The transfers cannot be ordered"
    );
}

#[test]
fn methods_and_answers() {
    assert_eq!(method_of("compute_transfer"), Method::ComputeTransfer);
    assert_eq!(method_of("load_safes_binary"), Method::LoadSafesBinary);
    assert_eq!(method_of("update_edges"), Method::UpdateEdges);
    assert_eq!(method_of("Compute_transfer"), Method::Unknown);
    assert_eq!(method_of(""), Method::Unknown);
    assert_eq!(error_code(Method::Unknown, true), -32601);
    assert_eq!(error_code(Method::UpdateEdges, false), -32602);
    assert_eq!(error_code(Method::ComputeTransfer, true), -32000);
    assert_eq!(
        json_rpc_response("{\"id\":1}".to_string()),
        "HTTP/1.1 200 OK\r\nContent-Length: 8\r\n\r\n{\"id\":1}"
    );
    assert_eq!(json_rpc_response(String::new()), "HTTP/1.1 200 OK\r\nContent-Length: 0\r\n\r\n");
    assert_eq!(
        json_rpc_response("é".to_string()),
        "HTTP/1.1 200 OK\r\nContent-Length: 2\r\n\r\né"
    );
}

#[test]
fn the_length_of_the_payload_is_read_from_its_line() {
    assert_eq!(header_line(b"Content-Length: 42"), HeaderLine::ContentLength(42));
    assert_eq!(header_line(b"content-length: 0"), HeaderLine::ContentLength(0));
    assert_eq!(header_line(b"CONTENT-LENGTH: 007"), HeaderLine::ContentLength(7));
    assert_eq!(header_line(b"Content-Type: text/json"), HeaderLine::Other);
    assert_eq!(header_line(b"Content-Length:42"), HeaderLine::Other);
    assert_eq!(header_line(b""), HeaderLine::Other);
    assert_eq!(header_line(b"Content-Length: "), HeaderLine::Malformed);
    assert_eq!(header_line(b"Content-Length: 4 2"), HeaderLine::Malformed);
    assert_eq!(header_line(b"Content-Length: -1"), HeaderLine::Malformed);
    assert_eq!(
        header_line(b"Content-Length: 99999999999999999999999999"),
        HeaderLine::Malformed
    );
    assert_eq!(
        header_line(format!("Content-Length: {}", usize::MAX).as_bytes()),
        HeaderLine::ContentLength(usize::MAX)
    );
}
