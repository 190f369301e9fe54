use vstd::prelude::*;
use vstd::string::StringSliceAdditionalSpecFns;
use num_bigint::BigUint;
use regex::Regex;
use std::str::FromStr;
use crate::graph::extract_transfers::{expected_transfer_net, transfer_net};
use crate::graph::flow::{
    backed, compute_flow, is_answer, is_ordered, is_simplified, plain, FlowError,
};
use crate::types::address::{address_digits, is_address_text, Address};
use crate::io::safes_binary::{accounts_in, is_import_of};
use crate::io::{import_from_safes_binary, ImportError};
use crate::safe_db::db::DB;
use crate::safe_db::edge_db_dispenser::EdgeDbDispenser;
use crate::types::edge::{position_of, Edge, EdgeDB};
use crate::types::u256::{be_value, hex_value, modulus, U256};

verus! {

/// Why a request was not answered.
#[derive(Debug, Clone, Copy, PartialEq, Eq, Structural)]
pub enum RequestError {
    /// No edges have been published yet.
    NoEdgesLoaded,
    /// The amount is no number.
    InvalidValue,
    /// The amount does not fit in 256 bits.
    ValueTooLarge,
    /// An address is not `0x` and 40 hexadecimal digits.
    InvalidAddress,
    /// No flow could be computed.
    Flow(FlowError),
}

impl RequestError {
    /// The message for the caller.
    pub open spec fn text(self) -> Seq<char> {
        match self {
            RequestError::NoEdgesLoaded => "No edges loaded yet"@,
            RequestError::InvalidValue => "Invalid value: couldn't parse value"@,
            RequestError::ValueTooLarge => "Value is too large"@,
            RequestError::InvalidAddress => "Invalid Ethereum address"@,
            RequestError::Flow(FlowError::Overflow) => "The flow does not fit in 256 bits"@,
            RequestError::Flow(FlowError::NoAdmissibleEdge) => "No edge for what is held"@,
            RequestError::Flow(FlowError::Unorderable) => "The transfers cannot be ordered"@,
        }
    }

    /// The message for the caller.
    pub fn message(&self) -> (r: String)
        ensures
            r@ == self.text(),
    {
        match self {
            RequestError::NoEdgesLoaded => "No edges loaded yet".to_owned(),
            RequestError::InvalidValue => "Invalid value: couldn't parse value".to_owned(),
            RequestError::ValueTooLarge => "Value is too large".to_owned(),
            RequestError::InvalidAddress => "Invalid Ethereum address".to_owned(),
            RequestError::Flow(FlowError::Overflow) => "The flow does not fit in 256 bits".to_owned(),
            RequestError::Flow(FlowError::NoAdmissibleEdge) => "No edge for what is held".to_owned(),
            RequestError::Flow(FlowError::Unorderable) => "The transfers cannot be ordered".to_owned(),
        }
    }
}

/// The bytes, the first weighing most, of the number that `num_bigint` reads a text
/// as in decimal, or `None` where it reads no number.
pub uninterp spec fn decimal_magnitude(text: Seq<char>) -> Option<Seq<u8>>;

/// Reads a text as a decimal number of any size and gives its bytes, the first
/// weighing most.
///
/// Calls `BigUint::from_str` and, on the number it gives, `BigUint::to_bytes_be`.
/// The contract names the bytes that come out for a text and claims nothing else of
/// them.
#[verifier::external_body]
fn parse_decimal(text: &str) -> (r: Option<Vec<u8>>)
    ensures
        r is Some <==> decimal_magnitude(text@) is Some,
        r is Some ==> r->0@ == decimal_magnitude(text@)->0,
{
    match BigUint::from_str(text) {
        Ok(value) => Some(value.to_bytes_be()),
        Err(_) => None,
    }
}

/// Whether the `regex` crate finds a match of a pattern in a text, or `None` where
/// it does not take the pattern.
pub uninterp spec fn regex_match(pattern: Seq<char>, text: Seq<char>) -> Option<bool>;

/// Whether a pattern matches anywhere in a text.
///
/// Calls `Regex::new` on the pattern and `Regex::is_match` on the text. The
/// contract names the answer for a pattern and a text and claims nothing else of
/// it.
#[verifier::external_body]
fn is_match(pattern: &str, text: &str) -> (r: Option<bool>)
    ensures
        r == regex_match(pattern@, text@),
{
    match Regex::new(pattern) {
        Ok(re) => Some(re.is_match(text)),
        Err(_) => None,
    }
}

/// The amount that the bytes of a number stand for, the first byte weighing most:
/// too large where it does not fit in 256 bits.
pub fn u256_from_magnitude(bytes: &[u8]) -> (r: Result<U256, RequestError>)
    ensures
        r is Ok <==> be_value(bytes@) < modulus(),
        r is Ok ==> r->Ok_0@ == be_value(bytes@),
        r is Err ==> r == Err::<U256, RequestError>(RequestError::ValueTooLarge),
{
    match U256::from_be_bytes(bytes) {
        Some(value) => Ok(value),
        None => Err(RequestError::ValueTooLarge),
    }
}

/// What becomes of an amount given as text, by the bytes that the text was read as.
pub open spec fn parsed_amount(read: Option<Seq<u8>>) -> Result<nat, RequestError> {
    match read {
        None => Err(RequestError::InvalidValue),
        Some(bytes) => if be_value(bytes) < modulus() {
            Ok(be_value(bytes))
        } else {
            Err(RequestError::ValueTooLarge)
        },
    }
}

/// Reads an amount given in decimal: invalid where the text is no number, too large
/// where the number does not fit in 256 bits.
pub fn validate_and_parse_u256(value_str: &str) -> (r: Result<U256, RequestError>)
    ensures
        r is Ok <==> parsed_amount(decimal_magnitude(value_str@)) is Ok,
        r is Ok ==> r->Ok_0@ == parsed_amount(decimal_magnitude(value_str@))->Ok_0,
        r is Err ==> Err::<nat, RequestError>(r->Err_0) == parsed_amount(
            decimal_magnitude(value_str@),
        ),
{
    match parse_decimal(value_str) {
        Some(bytes) => u256_from_magnitude(bytes.as_slice()),
        None => Err(RequestError::InvalidValue),
    }
}

/// The pattern of an address: `0x` and 40 hexadecimal digits, and nothing else.
pub open spec fn address_pattern() -> Seq<char> {
    "^0x[0-9a-fA-F]{40}$"@
}

/// The address that a text stands for, where the pattern of addresses was found to
/// match it; invalid where it was not, or where the text is not 40 hexadecimal
/// digits behind `0x` after all.
pub fn address_if_matched(matched: Option<bool>, address: &str) -> (r: Result<
    Address,
    RequestError,
>)
    ensures
        r is Ok <==> matched == Some(true) && is_address_text(address.spec_bytes()),
        r is Ok ==> r->Ok_0@ == hex_value(address_digits(address.spec_bytes())),
        r is Err ==> r == Err::<Address, RequestError>(RequestError::InvalidAddress),
{
    match matched {
        Some(true) => match Address::from_hex(address) {
            Some(a) => Ok(a),
            None => Err(RequestError::InvalidAddress),
        },
        _ => Err(RequestError::InvalidAddress),
    }
}

/// Reads an address: invalid where the text is not `0x` and 40 hexadecimal digits.
pub fn validate_and_parse_ethereum_address(address: &str) -> (r: Result<Address, RequestError>)
    ensures
        r is Ok <==> regex_match(address_pattern(), address@) == Some(true) && is_address_text(
            address.spec_bytes(),
        ),
        r is Ok ==> r->Ok_0@ == hex_value(address_digits(address.spec_bytes())),
        r is Err ==> r == Err::<Address, RequestError>(RequestError::InvalidAddress),
{
    address_if_matched(is_match("^0x[0-9a-fA-F]{40}$", address), address)
}

/// What a request was answered with, as the answer to the question for a flow; a
/// request that fails before the flow is asked for stands for the flow that does not
/// fit.
pub open spec fn flow_answer(r: Result<(U256, Vec<Edge>), RequestError>) -> Result<
    (nat, Seq<Edge>),
    FlowError,
> {
    match r {
        Ok(sent) => Ok((sent.0@, sent.1@)),
        Err(RequestError::Flow(e)) => Err(e),
        Err(_) => Err(FlowError::Overflow),
    }
}

/// Answers a request for a transfer of `value` from `from` to `to` over the edges
/// that the request has pinned: the flow that can be sent, no more than `value`, and
/// the transfers that realise it.
///
/// The request fails, in this order, where no edges are pinned, where `value` is no
/// amount, where `from` is no address, where `to` is no address, and where no flow
/// can be computed.
pub fn compute_transfer(from: &str, to: &str, value: &str, edges: Option<&EdgeDB>) -> (r: Result<
    (U256, Vec<Edge>),
    RequestError,
>)
    requires
        edges is Some ==> edges->0.wf(),
    ensures
        edges is None ==> r == Err::<(U256, Vec<Edge>), RequestError>(RequestError::NoEdgesLoaded),
        edges is Some && parsed_amount(decimal_magnitude(value@)) is Err ==> r is Err && Err::<
            nat,
            RequestError,
        >(r->Err_0) == parsed_amount(decimal_magnitude(value@)),
        edges is Some && parsed_amount(decimal_magnitude(value@)) is Ok && !(regex_match(
            address_pattern(),
            from@,
        ) == Some(true) && is_address_text(from.spec_bytes()) && regex_match(
            address_pattern(),
            to@,
        ) == Some(true) && is_address_text(to.spec_bytes())) ==> r == Err::<
            (U256, Vec<Edge>),
            RequestError,
        >(RequestError::InvalidAddress),
        r is Err && edges is Some && parsed_amount(decimal_magnitude(value@)) is Ok && regex_match(
            address_pattern(),
            from@,
        ) == Some(true) && is_address_text(from.spec_bytes()) && regex_match(
            address_pattern(),
            to@,
        ) == Some(true) && is_address_text(to.spec_bytes()) ==> r->Err_0 is Flow,
        r is Ok ==> is_ordered((r->Ok_0).1@) && is_simplified((r->Ok_0).1@),
        r is Ok ==> parsed_amount(decimal_magnitude(value@)) is Ok && (r->Ok_0).0@ <= parsed_amount(
            decimal_magnitude(value@),
        )->Ok_0,
        r is Ok ==> forall|k: int|
            0 <= k < (r->Ok_0).1@.len() ==> backed(edges->0@, #[trigger] (r->Ok_0).1@[k]),
        r is Ok ==> exists|source: Address, sink: Address|
            source@ == hex_value(address_digits(from.spec_bytes())) && sink@ == hex_value(
                address_digits(to.spec_bytes()),
            ) && forall|a: Address| #[trigger]
                transfer_net((r->Ok_0).1@, a) == expected_transfer_net(
                    a,
                    source,
                    sink,
                    (r->Ok_0).0@,
                ),        edges is Some && parsed_amount(decimal_magnitude(value@)) is Ok && regex_match(
            address_pattern(),
            from@,
        ) == Some(true) && is_address_text(from.spec_bytes()) && regex_match(
            address_pattern(),
            to@,
        ) == Some(true) && is_address_text(to.spec_bytes()) ==> exists|
            source: Address,
            sink: Address,
        |
            {
                &&& source@ == hex_value(address_digits(from.spec_bytes()))
                &&& sink@ == hex_value(address_digits(to.spec_bytes()))
                &&& #[trigger] is_answer(
                    edges->0@,
                    source,
                    sink,
                    parsed_amount(decimal_magnitude(value@))->Ok_0,
                    None,
                    None,
                    flow_answer(r),
                )
                &&& r is Err ==> r->Err_0 is Flow
            },
{
    let edges = match edges {
        Some(edges) => edges,
        None => {
            return Err(RequestError::NoEdgesLoaded);
        },
    };
    let parsed_value_param = match validate_and_parse_u256(value) {
        Ok(value) => value,
        Err(e) => {
            return Err(e);
        },
    };
    let from_address = match validate_and_parse_ethereum_address(from) {
        Ok(a) => a,
        Err(e) => {
            return Err(e);
        },
    };
    let to_address = match validate_and_parse_ethereum_address(to) {
        Ok(a) => a,
        Err(e) => {
            return Err(e);
        },
    };
    let found = compute_flow(&from_address, &to_address, edges, parsed_value_param, None, None);
    let r = match found {
        Ok(found) => Ok(found),
        Err(e) => Err(RequestError::Flow(e)),
    };
    proof {
        assert(flow_answer(r) == plain(found));
        assert(is_answer(
            edges@,
            from_address,
            to_address,
            parsed_value_param@,
            None,
            None,
            flow_answer(r),
        ));
    }
    r
}

/// Reads a file of accounts and publishes the capacity edges that follow from it.
/// Returns the number of edges. Nothing is published where the file cannot be read.
pub fn load_safes_binary(data: &[u8], dispenser: &mut EdgeDbDispenser) -> (r: Result<
    usize,
    ImportError,
>)
    requires
        old(dispenser).wf(),
        old(dispenser).state().counter < u64::MAX,
    ensures
        final(dispenser).wf(),
        match accounts_in(data@) {
            Err(e) => r == Err::<usize, ImportError>(e)
                && final(dispenser).state() == old(dispenser).state(),
            Ok(accounts) => exists|db: DB| #[trigger]
                is_import_of(db, accounts) && final(dispenser).state() == old(
                    dispenser,
                ).state().publish(db.spec_edges()@) && r is Ok && r->Ok_0
                    == db.spec_edges()@.len(),
        },
{
    match import_from_safes_binary(data) {
        Err(e) => Err(e),
        Ok(db) => {
            let ghost read = db;
            let updated_edges = db.into_edges();
            let len = updated_edges.edge_count();
            let ghost edges = updated_edges@;
            dispenser.update(updated_edges);
            assert(is_import_of(read, accounts_in(data@)->Ok_0) && dispenser.state() == old(
                dispenser,
            ).state().publish(read.spec_edges()@));
            Ok(len)
        },
    }
}

/// The edges after one update: the first edge with the identity of the update has
/// its capacity, or the update stands behind the others where there is none.
pub open spec fn with_update(edges: Seq<Edge>, update: Edge) -> Seq<Edge> {
    match position_of(edges, update) {
        Some(i) => edges.update(i, Edge { capacity: update.capacity, ..edges[i] }),
        None => edges.push(update),
    }
}

/// The edges after the first `n` of the updates, one after the other.
pub open spec fn with_updates(edges: Seq<Edge>, updates: Seq<Edge>, n: nat) -> Seq<Edge>
    decreases n,
{
    if n == 0 {
        edges
    } else {
        with_update(with_updates(edges, updates, (n - 1) as nat), updates[n - 1])
    }
}

/// The edges of the latest version, none where nothing has been published.
pub open spec fn latest_edges(dispenser: &EdgeDbDispenser) -> Seq<Edge> {
    if dispenser.state().versions.contains_key(dispenser.state().counter) {
        dispenser.state().versions[dispenser.state().counter]
    } else {
        Seq::empty()
    }
}

/// Applies updates to the edges of the latest version, each by the sender, the
/// receiver and the token of its edge, and publishes the result as a new version.
/// Returns the number of edges of the new version. Returns nothing, with nothing
/// published, where an update finds as many edges as can be counted.
pub fn update_edges(dispenser: &mut EdgeDbDispenser, updates: &Vec<Edge>) -> (r: Option<usize>)
    requires
        old(dispenser).wf(),
        old(dispenser).state().counter < u64::MAX,
    ensures
        final(dispenser).wf(),
        r is None <==> exists|i: int|
            0 <= i < updates@.len() && (#[trigger] with_updates(
                latest_edges(old(dispenser)),
                updates@,
                i as nat,
            )).len() == usize::MAX,
        r is Some ==> final(dispenser).state() == old(dispenser).state().publish(
            with_updates(latest_edges(old(dispenser)), updates@, updates@.len()),
        ) && r->0 == with_updates(latest_edges(old(dispenser)), updates@, updates@.len()).len(),
        r is None ==> final(dispenser).state() == old(dispenser).state(),
{
    let mut edges = match dispenser.latest() {
        Some(current) => current.duplicate(),
        None => EdgeDB::new(Vec::new()),
    };
    let ghost start = edges@;
    let mut i: usize = 0;
    while i < updates.len()
        invariant
            i <= updates@.len(),
            edges.wf(),
            dispenser.wf(),
            *dispenser == *old(dispenser),
            start == latest_edges(old(dispenser)),
            edges@ == with_updates(start, updates@, i as nat),
            forall|k: int|
                0 <= k < i ==> (#[trigger] with_updates(start, updates@, k as nat)).len()
                    != usize::MAX,
        decreases updates@.len() - i,
    {
        if edges.edge_count() == usize::MAX {
            proof {
                let k = i as int;
                assert(with_updates(latest_edges(old(dispenser)), updates@, k as nat).len()
                    == usize::MAX);
            }
            return None;
        }
        edges.update(updates[i]);
        i += 1;
    }
    let len = edges.edge_count();
    dispenser.update(edges);
    Some(len)
}

} // verus!
