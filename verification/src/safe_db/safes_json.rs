use vstd::prelude::*;
use vstd::string::StringSliceAdditionalSpecFns;
use vstd::utf8::encode_utf8;
use crate::io::safes_binary::{account, accounts_of, model_of, with_trust, AccountModel};
use crate::safe_db::db::{capacity_edges, safes_wf, DB};
use crate::types::address::{address_digits, is_address_text, Address};
use crate::types::address_map::AddressMap;
use crate::types::safe::Safe;
use crate::types::u256::{decimal_value, hex_value, is_hex_literal, U256};

verus! {

/// One account of a snapshot: its address, whether it is an organization, the
/// connections that leave it and those that arrive at it, and what it holds.
#[derive(Debug)]
pub struct JsonSafe {
    pub id: String,
    pub organization: bool,
    pub outgoing: Vec<JsonEdge>,
    pub incoming: Vec<JsonEdge>,
    pub balances: Vec<JsonBalance>,
}

/// One connection of a snapshot: `user_address` lets `can_send_to_address` receive
/// its token up to `limit_percentage` percent.
#[derive(Debug)]
pub struct JsonEdge {
    pub limit: Option<String>,
    pub limit_percentage: String,
    pub can_send_to_address: String,
    pub user_address: String,
}

/// One holding of a snapshot: an amount of a token.
#[derive(Debug)]
pub struct JsonBalance {
    pub amount: String,
    pub token: JsonToken,
}

/// A token of a snapshot: its address and the address of its owner.
#[derive(Debug)]
pub struct JsonToken {
    pub id: String,
    pub owner: String,
}

/// Why a snapshot could not be turned into a database.
#[derive(Debug, Clone, Copy, PartialEq, Eq, Structural)]
pub enum SnapshotError {
    /// A text that should be an address is not 40 hexadecimal digits.
    InvalidAddress,
    /// An amount is not `0x` and at most 64 hexadecimal digits.
    InvalidAmount,
    /// A percentage is not a number of at most three digits, or is above 100.
    InvalidPercentage,
    /// A connection starts at an account that the snapshot does not list.
    UnknownAccount,
}

/// Whether the bytes are one to three decimal digits that stand for a number of at
/// most 100.
pub open spec fn is_percentage_text(s: Seq<u8>) -> bool {
    &&& 1 <= s.len() <= 3
    &&& forall|i: int| 0 <= i < s.len() ==> 0x30 <= #[trigger] s[i] <= 0x39
    &&& decimal_value(s) <= 100
}

/// Reads a percentage: one to three decimal digits that stand for at most 100.
pub fn parse_percentage(text: &str) -> (r: Option<u8>)
    ensures
        r is Some <==> is_percentage_text(text.spec_bytes()),
        r is Some ==> r->0 == decimal_value(text.spec_bytes()),
{
    let bytes = text.as_bytes();
    let n = bytes.len();
    if n < 1 || n > 3 {
        return None;
    }
    let mut value: u32 = 0;
    let mut i: usize = 0;
    while i < n
        invariant
            i <= n,
            n == bytes@.len(),
            n <= 3,
            bytes@ == text.spec_bytes(),
            forall|k: int| 0 <= k < i ==> 0x30 <= #[trigger] bytes@[k] <= 0x39,
            value == decimal_value(bytes@.take(i as int)),
            value <= 999,
        decreases n - i,
    {
        let b = bytes[i];
        if b < 0x30 || b > 0x39 {
            return None;
        }
        proof {
            assert(bytes@.take(i + 1).drop_last() =~= bytes@.take(i as int));
            assert(value <= 99) by {
                lemma_decimal_bound(bytes@.take(i as int));
            }
        }
        value = value * 10 + (b - 0x30) as u32;
        i += 1;
    }
    proof {
        assert(bytes@.take(n as int) =~= bytes@);
    }
    if value > 100 {
        None
    } else {
        Some(value as u8)
    }
}

/// One digit stands for less than ten, two for less than a hundred.
proof fn lemma_decimal_bound(s: Seq<u8>)
    requires
        s.len() <= 2,
        forall|k: int| 0 <= k < s.len() ==> 0x30 <= #[trigger] s[k] <= 0x39,
    ensures
        s.len() == 0 ==> decimal_value(s) == 0,
        s.len() == 1 ==> decimal_value(s) <= 9,
        s.len() == 2 ==> decimal_value(s) <= 99,
    decreases s.len(),
{
    if s.len() > 0 {
        lemma_decimal_bound(s.drop_last());
    }
}

/// The address that a text stands for: 40 hexadecimal digits, with or without `0x`
/// before them.
pub open spec fn text_address(text: Seq<char>) -> Option<Address> {
    if is_address_text(encode_utf8(text)) {
        Some(Address::from_nat(hex_value(address_digits(encode_utf8(text)))))
    } else {
        None
    }
}

/// The amount that a text stands for: `0x` and at most 64 hexadecimal digits.
pub open spec fn text_amount(text: Seq<char>) -> Option<U256> {
    if is_hex_literal(encode_utf8(text)) {
        Some(U256::from_nat(hex_value(encode_utf8(text).skip(2))))
    } else {
        None
    }
}

/// The percentage that a text stands for.
pub open spec fn text_percentage(text: Seq<char>) -> Option<u8> {
    if is_percentage_text(encode_utf8(text)) {
        Some(decimal_value(encode_utf8(text)) as u8)
    } else {
        None
    }
}

/// What a snapshot says: what every account says, the token that every account
/// issues, and the owner of every token.
pub struct SnapshotModel {
    pub accounts: Map<Address, AccountModel>,
    pub tokens: Map<Address, Address>,
    pub owners: Map<Address, Address>,
}

/// What an account holds and which token it issues after the holdings of its record
/// from place `i` on, and the owners of the tokens after them: every holding is an
/// amount of a token, the token is the account's own where the account is its owner,
/// and a later holding of a token replaces an earlier one.
pub open spec fn holdings_from(
    address: Address,
    balances: Seq<JsonBalance>,
    i: nat,
    held: Map<Address, U256>,
    token: Address,
    owners: Map<Address, Address>,
) -> Result<(Map<Address, U256>, Address, Map<Address, Address>), SnapshotError>
    decreases balances.len() - i,
{
    if i >= balances.len() {
        Ok((held, token, owners))
    } else {
        match text_address(balances[i as int].token.id@) {
            None => Err(SnapshotError::InvalidAddress),
            Some(t) => match text_address(balances[i as int].token.owner@) {
                None => Err(SnapshotError::InvalidAddress),
                Some(o) => match text_amount(balances[i as int].amount@) {
                    None => Err(SnapshotError::InvalidAmount),
                    Some(x) => holdings_from(
                        address,
                        balances,
                        i + 1,
                        held.insert(t, x),
                        if o == address {
                            t
                        } else {
                            token
                        },
                        owners.insert(t, o),
                    ),
                },
            },
        }
    }
}

/// What the snapshot says after the records from place `i` on: every record is an
/// account with its holdings and without connections, in the place of any account
/// that was listed under its address before.
pub open spec fn records_from(records: Seq<JsonSafe>, i: nat, model: SnapshotModel) -> Result<
    SnapshotModel,
    SnapshotError,
>
    decreases records.len() - i,
{
    if i >= records.len() {
        Ok(model)
    } else {
        match text_address(records[i as int].id@) {
            None => Err(SnapshotError::InvalidAddress),
            Some(a) => match holdings_from(
                a,
                records[i as int].balances@,
                0,
                Map::empty(),
                Address::zero_value(),
                model.owners,
            ) {
                Err(e) => Err(e),
                Ok((held, token, owners)) => records_from(
                    records,
                    i + 1,
                    SnapshotModel {
                        accounts: model.accounts.insert(
                            a,
                            AccountModel {
                                organization: records[i as int].organization,
                                limits: Map::empty(),
                                balances: held,
                            },
                        ),
                        tokens: model.tokens.insert(a, token),
                        owners,
                    },
                ),
            },
        }
    }
}

/// What the accounts say after the connections of a list from place `i` on: every
/// connection lets its receiver receive the token of its user up to its percentage.
/// A connection to oneself, at no percentage, or with the address of all zero bytes
/// at either end changes nothing; any other connection has to start at an account
/// that is listed.
pub open spec fn connections_from(
    connections: Seq<JsonEdge>,
    i: nat,
    accounts: Map<Address, AccountModel>,
) -> Result<Map<Address, AccountModel>, SnapshotError>
    decreases connections.len() - i,
{
    if i >= connections.len() {
        Ok(accounts)
    } else {
        match text_address(connections[i as int].can_send_to_address@) {
            None => Err(SnapshotError::InvalidAddress),
            Some(send_to) => match text_address(connections[i as int].user_address@) {
                None => Err(SnapshotError::InvalidAddress),
                Some(user) => match text_percentage(connections[i as int].limit_percentage@) {
                    None => Err(SnapshotError::InvalidPercentage),
                    Some(p) => if send_to@ != 0 && user@ != 0 && send_to != user && p > 0 {
                        if accounts.contains_key(user) {
                            connections_from(
                                connections,
                                i + 1,
                                with_trust(accounts, user, send_to, p),
                            )
                        } else {
                            Err(SnapshotError::UnknownAccount)
                        }
                    } else {
                        connections_from(connections, i + 1, accounts)
                    },
                },
            },
        }
    }
}

/// What the accounts say after the connections of the records from place `i` on, of
/// every record those that leave it before those that arrive at it.
pub open spec fn all_connections_from(
    records: Seq<JsonSafe>,
    i: nat,
    accounts: Map<Address, AccountModel>,
) -> Result<Map<Address, AccountModel>, SnapshotError>
    decreases records.len() - i,
{
    if i >= records.len() {
        Ok(accounts)
    } else {
        match connections_from(records[i as int].outgoing@, 0, accounts) {
            Err(e) => Err(e),
            Ok(with_outgoing) => match connections_from(
                records[i as int].incoming@,
                0,
                with_outgoing,
            ) {
                Err(e) => Err(e),
                Ok(with_both) => all_connections_from(records, i + 1, with_both),
            },
        }
    }
}

/// What a snapshot says: first the records as accounts with their holdings, then
/// the connections of all records.
pub open spec fn snapshot_of(records: Seq<JsonSafe>) -> Result<SnapshotModel, SnapshotError> {
    match records_from(records, 0, empty_snapshot()) {
        Err(e) => Err(e),
        Ok(listed) => match all_connections_from(records, 0, listed.accounts) {
            Err(e) => Err(e),
            Ok(accounts) => Ok(SnapshotModel { accounts, ..listed }),
        },
    }
}

/// The token that every account of the database issues, by the address of the
/// account.
pub open spec fn tokens_of(safes: AddressMap<Safe>) -> Map<Address, Address> {
    Map::new(|a: Address| safes@.contains_key(a), |a: Address| safes@[a].token_address)
}

/// Reads an address of a snapshot.
fn parse_address(text: &String) -> (r: Result<Address, SnapshotError>)
    ensures
        r is Ok <==> is_address_text(encode_utf8(text@)),
        r is Ok ==> r->Ok_0@ == hex_value(address_digits(encode_utf8(text@))),
        r is Err ==> r == Err::<Address, SnapshotError>(SnapshotError::InvalidAddress),
        r is Ok ==> Some(r->Ok_0) == text_address(text@),
        r is Err ==> text_address(text@) is None,
{
    match Address::from_hex(text.as_str()) {
        Some(a) => {
            proof {
                Address::lemma_bound(a);
                Address::lemma_from_nat(a@);
                Address::lemma_view_injective(a, Address::from_nat(a@));
            }
            Ok(a)
        },
        None => Err(SnapshotError::InvalidAddress),
    }
}

/// The account that one record of a snapshot describes, without its connections,
/// and the owners of the tokens that it holds.
fn account_of_record(
    address: Address,
    record: &JsonSafe,
    token_owner: &mut AddressMap<Address>,
) -> (r: Result<Safe, SnapshotError>)
    requires
        old(token_owner).wf(),
    ensures
        final(token_owner).wf(),
        r is Ok ==> r->Ok_0.wf() && r->Ok_0.organization == record.organization
            && r->Ok_0.limit_percentage@ == Map::<Address, u8>::empty(),
        r is Err ==> r == Err::<Safe, SnapshotError>(SnapshotError::InvalidAddress) || r == Err::<
            Safe,
            SnapshotError,
        >(SnapshotError::InvalidAmount),
        match holdings_from(
            address,
            record.balances@,
            0,
            Map::empty(),
            Address::zero_value(),
            old(token_owner)@,
        ) {
            Err(e) => r == Err::<Safe, SnapshotError>(e),
            Ok((held, token, owners)) => r is Ok && r->Ok_0.balances@ == held
                && r->Ok_0.token_address == token && final(token_owner)@ == owners,
        },
{
    let mut s = Safe::default();
    s.organization = record.organization;
    proof {
        Address::lemma_zero_value();
        Address::lemma_view_injective(s.token_address, Address::zero_value());
    }
    let mut k: usize = 0;
    while k < record.balances.len()
        invariant
            k <= record.balances@.len(),
            token_owner.wf(),
            s.wf(),
            s.organization == record.organization,
            s.limit_percentage@ == Map::<Address, u8>::empty(),
            holdings_from(
                address,
                record.balances@,
                0,
                Map::empty(),
                Address::zero_value(),
                old(token_owner)@,
            ) == holdings_from(
                address,
                record.balances@,
                k as nat,
                s.balances@,
                s.token_address,
                token_owner@,
            ),
        decreases record.balances@.len() - k,
    {
        let balance = &record.balances[k];
        let token_address = match parse_address(&balance.token.id) {
            Ok(a) => a,
            Err(e) => {
                return Err(e);
            },
        };
        let owner = match parse_address(&balance.token.owner) {
            Ok(a) => a,
            Err(e) => {
                return Err(e);
            },
        };
        let amount = match U256::from_hex(balance.amount.as_str()) {
            Some(amount) => amount,
            None => {
                return Err(SnapshotError::InvalidAmount);
            },
        };
        proof {
            U256::lemma_limbs(amount);
            U256::lemma_from_nat(amount@);
            U256::lemma_view_injective(amount, U256::from_nat(amount@));
        }
        let _ = s.balances.insert(token_address, amount);
        if owner == address {
            s.token_address = token_address;
        }
        let _ = token_owner.insert(token_address, owner);
        k += 1;
    }
    Ok(s)
}

/// Enters the connections of a list into the accounts: every connection lets its
/// receiver receive the token of its user up to its percentage. A connection to
/// oneself, at no percentage, or with the address of all zero bytes at either end
/// changes nothing.
fn enter_connections(safes: &mut AddressMap<Safe>, connections: &Vec<JsonEdge>) -> (r: Result<
    (),
    SnapshotError,
>)
    requires
        safes_wf(*old(safes)),
    ensures
        safes_wf(*final(safes)),
        final(safes).keys() == old(safes).keys(),
        r is Err ==> r == Err::<(), SnapshotError>(SnapshotError::InvalidAddress) || r == Err::<
            (),
            SnapshotError,
        >(SnapshotError::InvalidPercentage) || r == Err::<(), SnapshotError>(
            SnapshotError::UnknownAccount,
        ),
        match connections_from(connections@, 0, accounts_of(*old(safes))) {
            Err(e) => r == Err::<(), SnapshotError>(e),
            Ok(accounts) => r is Ok && accounts_of(*final(safes)) == accounts && tokens_of(*final(safes)) == tokens_of(*old(safes)),
        },
{
    let mut k: usize = 0;
    while k < connections.len()
        invariant
            k <= connections@.len(),
            safes_wf(*safes),
            safes.keys() == old(safes).keys(),
            tokens_of(*safes) == tokens_of(*old(safes)),
            connections_from(connections@, 0, accounts_of(*old(safes))) == connections_from(
                connections@,
                k as nat,
                accounts_of(*safes),
            ),
        decreases connections@.len() - k,
    {
        let connection = &connections[k];
        let send_to = match parse_address(&connection.can_send_to_address) {
            Ok(a) => a,
            Err(e) => {
                return Err(e);
            },
        };
        let user = match parse_address(&connection.user_address) {
            Ok(a) => a,
            Err(e) => {
                return Err(e);
            },
        };
        let limit_percentage = match parse_percentage(connection.limit_percentage.as_str()) {
            Some(p) => p,
            None => {
                return Err(SnapshotError::InvalidPercentage);
            },
        };
        proof {
            Address::lemma_zero_value();
            if send_to@ == 0 {
                Address::lemma_view_injective(send_to, Address::zero_value());
            }
            if user@ == 0 {
                Address::lemma_view_injective(user, Address::zero_value());
            }
        }
        if send_to != Address::zero() && user != Address::zero() && send_to != user
            && limit_percentage > 0 {
            let at = match safes.find(user) {
                Some(at) => at,
                None => {
                    return Err(SnapshotError::UnknownAccount);
                },
            };
            let ghost listed = *safes;
            let safe = safes.value_at_mut(at);
            let ghost limits = safe.limit_percentage;
            let p = safe.limit_percentage.insert(send_to, limit_percentage);
            proof {
                AddressMap::lemma_value_changed(listed, *safes, at as int);
                assert(listed.values()[at as int].wf());
                let now = safes.values()[at as int].limit_percentage;
                assert forall|j: int| 0 <= j < now.values().len() implies (
                #[trigger] now.values()[j]) <= 100 by {
                    if limits@.contains_key(send_to) {
                        if j != p {
                            assert(now.values()[j] == limits.values()[j]);
                        }
                    } else {
                        if j != p {
                            let j0 = if j < p { j } else { j - 1 };
                            assert(now.values()[j] == limits.values()[j0]);
                        }
                    }
                }
                assert forall|j: int| 0 <= j < safes.values().len() implies (
                #[trigger] safes.values()[j]).wf() by {
                    if j != at {
                        assert(safes.values()[j] == listed.values()[j]);
                    }
                }
                listed.lemma_entry(at as int);
                safes.lemma_entry(at as int);
                let before_accounts = accounts_of(listed);
                let target = with_trust(before_accounts, user, send_to, limit_percentage);
                assert(safes@[user] == safes.values()[at as int]);
                assert forall|a: Address| #[trigger]
                    accounts_of(*safes).contains_key(a) == target.contains_key(a) by {}
                assert forall|a: Address| accounts_of(*safes).contains_key(a) implies #[trigger] accounts_of(
                    *safes,
                )[a] == target[a] by {
                    if a != user {
                        assert(safes@[a] == listed@[a]);
                    }
                }
                assert(accounts_of(*safes) =~= target);
                assert(tokens_of(*safes) =~= tokens_of(listed)) by {
                    assert forall|a: Address| tokens_of(*safes).contains_key(a) implies #[trigger] tokens_of(
                        *safes,
                    )[a] == tokens_of(listed)[a] by {
                        if a != user {
                            assert(safes@[a] == listed@[a]);
                        }
                    }
                }
            }
        }
        k += 1;
    }
    Ok(())
}

/// Enters one record as an account with its holdings and without connections, in
/// the place of any account that was listed under its address before, and enters
/// the owners of the tokens that it holds.
fn enter_record(
    safes: &mut AddressMap<Safe>,
    token_owner: &mut AddressMap<Address>,
    record: &JsonSafe,
) -> (r: Result<(), SnapshotError>)
    requires
        safes_wf(*old(safes)),
        old(token_owner).wf(),
    ensures
        safes_wf(*final(safes)),
        final(token_owner).wf(),
        match text_address(record.id@) {
            None => r == Err::<(), SnapshotError>(SnapshotError::InvalidAddress),
            Some(a) => match holdings_from(
                a,
                record.balances@,
                0,
                Map::empty(),
                Address::zero_value(),
                old(token_owner)@,
            ) {
                Err(e) => r == Err::<(), SnapshotError>(e),
                Ok((held, token, owners)) => {
                    &&& r is Ok
                    &&& accounts_of(*final(safes)) == accounts_of(*old(safes)).insert(
                        a,
                        AccountModel {
                            organization: record.organization,
                            limits: Map::empty(),
                            balances: held,
                        },
                    )
                    &&& tokens_of(*final(safes)) == tokens_of(*old(safes)).insert(a, token)
                    &&& final(token_owner)@ == owners
                },
            },
        },
{
    let address = match parse_address(&record.id) {
        Ok(a) => a,
        Err(e) => {
            return Err(e);
        },
    };
    let s = match account_of_record(address, record, token_owner) {
        Ok(s) => s,
        Err(e) => {
            return Err(e);
        },
    };
    let ghost before = *safes;
    let ghost described = model_of(s);
    let ghost issued = s.token_address;
    let p = safes.insert(address, s);
    proof {
        safes.lemma_entry(p as int);
        assert(accounts_of(*safes) =~= accounts_of(before).insert(address, described));
        assert(tokens_of(*safes) =~= tokens_of(before).insert(address, issued));
        assert forall|k: int| 0 <= k < safes.values().len() implies (#[trigger] safes.values()[k]).wf() by {
            if before@.contains_key(address) {
                if k != p {
                    assert(safes.values()[k] == before.values()[k]);
                }
            } else {
                if k != p {
                    let k0 = if k < p { k } else { k - 1 };
                    assert(safes.values()[k] == before.values()[k0]);
                }
            }
        }
    }
    Ok(())
}

/// Enters the connections of one record into the accounts, those that leave it
/// before those that arrive at it.
fn enter_record_connections(safes: &mut AddressMap<Safe>, record: &JsonSafe) -> (r: Result<
    (),
    SnapshotError,
>)
    requires
        safes_wf(*old(safes)),
    ensures
        safes_wf(*final(safes)),
        final(safes).keys() == old(safes).keys(),
        match connections_from(record.outgoing@, 0, accounts_of(*old(safes))) {
            Err(e) => r == Err::<(), SnapshotError>(e),
            Ok(with_outgoing) => match connections_from(record.incoming@, 0, with_outgoing) {
                Err(e) => r == Err::<(), SnapshotError>(e),
                Ok(with_both) => r is Ok && accounts_of(*final(safes)) == with_both && tokens_of(*final(safes)) == tokens_of(*old(safes)),
            },
        },
{
    match enter_connections(safes, &record.outgoing) {
        Ok(()) => {},
        Err(e) => {
            return Err(e);
        },
    }
    enter_connections(safes, &record.incoming)
}

/// What a snapshot says before any record is read.
pub open spec fn empty_snapshot() -> SnapshotModel {
    SnapshotModel { accounts: Map::empty(), tokens: Map::empty(), owners: Map::empty() }
}

/// What the database says: its accounts, their tokens, and the owners of the tokens.
pub open spec fn snapshot_model(
    safes: AddressMap<Safe>,
    token_owner: AddressMap<Address>,
) -> SnapshotModel {
    SnapshotModel { accounts: accounts_of(safes), tokens: tokens_of(safes), owners: token_owner@ }
}

/// Enters all records as accounts with their holdings.
fn enter_records(records: &Vec<JsonSafe>) -> (r: Result<
    (AddressMap<Safe>, AddressMap<Address>),
    SnapshotError,
>)
    ensures
        match records_from(records@, 0, empty_snapshot()) {
            Err(e) => r == Err::<(AddressMap<Safe>, AddressMap<Address>), SnapshotError>(e),
            Ok(model) => r is Ok && safes_wf((r->Ok_0).0) && (r->Ok_0).1.wf() && snapshot_model(
                (r->Ok_0).0,
                (r->Ok_0).1,
            ) == model,
        },
{
    let mut safes: AddressMap<Safe> = AddressMap::new();
    let mut token_owner: AddressMap<Address> = AddressMap::new();
    proof {
        assert(accounts_of(safes) =~= empty_snapshot().accounts);
        assert(tokens_of(safes) =~= empty_snapshot().tokens);
    }
    let mut i: usize = 0;
    while i < records.len()
        invariant
            i <= records@.len(),
            safes_wf(safes),
            token_owner.wf(),
            records_from(records@, 0, empty_snapshot()) == records_from(
                records@,
                i as nat,
                snapshot_model(safes, token_owner),
            ),
        decreases records@.len() - i,
    {
        match enter_record(&mut safes, &mut token_owner, &records[i]) {
            Ok(()) => {},
            Err(e) => {
                return Err(e);
            },
        }
        i += 1;
    }
    Ok((safes, token_owner))
}

/// Enters the connections of all records into the accounts.
fn enter_all_connections(safes: &mut AddressMap<Safe>, records: &Vec<JsonSafe>) -> (r: Result<
    (),
    SnapshotError,
>)
    requires
        safes_wf(*old(safes)),
    ensures
        safes_wf(*final(safes)),
        match all_connections_from(records@, 0, accounts_of(*old(safes))) {
            Err(e) => r == Err::<(), SnapshotError>(e),
            Ok(accounts) => r is Ok && accounts_of(*final(safes)) == accounts && tokens_of(*final(safes)) == tokens_of(*old(safes)),
        },
{
    let mut i: usize = 0;
    while i < records.len()
        invariant
            i <= records@.len(),
            safes_wf(*safes),
            tokens_of(*safes) == tokens_of(*old(safes)),
            all_connections_from(records@, 0, accounts_of(*old(safes))) == all_connections_from(
                records@,
                i as nat,
                accounts_of(*safes),
            ),
        decreases records@.len() - i,
    {
        match enter_record_connections(safes, &records[i]) {
            Ok(()) => {},
            Err(e) => {
                return Err(e);
            },
        }
        i += 1;
    }
    Ok(())
}

/// Turns a snapshot of accounts into a database. First every record becomes an
/// account with its holdings, a later record under the same address taking the place
/// of an earlier one, and every token gets its owner; then the connections of every
/// record, those that leave it before those that arrive at it, are entered at the
/// accounts of their users.
///
/// Fails on a text that is no address, no amount or no percentage, and on a
/// connection whose user is no account of the snapshot.
pub fn import_from_safes_json(records: &Vec<JsonSafe>) -> (r: Result<DB, SnapshotError>)
    ensures
        match snapshot_of(records@) {
            Err(e) => r == Err::<DB, SnapshotError>(e),
            Ok(model) => r is Ok && snapshot_model(
                r->Ok_0.spec_safes(),
                r->Ok_0.spec_token_owner(),
            ) == model,
        },
        r is Ok ==> r->Ok_0.wf(),
        r is Ok ==> r->Ok_0.spec_edges()@ == capacity_edges(
            r->Ok_0.spec_safes(),
            r->Ok_0.spec_token_owner()@,
        ),
{
    let (mut safes, token_owner) = match enter_records(records) {
        Ok(listed) => listed,
        Err(e) => {
            return Err(e);
        },
    };
    match enter_all_connections(&mut safes, records) {
        Ok(()) => {},
        Err(e) => {
            return Err(e);
        },
    }
    Ok(DB::new(safes, token_owner))
}

} // verus!
