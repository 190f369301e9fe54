use vstd::prelude::*;
use crate::io::{
    address_at, address_ref, read_address, read_raw_address, read_u256, read_u32, read_u8, u256_at,
    u32_at, u8_at, AddressIndex, ImportError,
};
use crate::safe_db::db::{capacity_edges, safes_wf, DB};
use crate::types::address::Address;
use crate::types::address_map::AddressMap;
use crate::types::safe::Safe;
use crate::types::u256::U256;

verus! {

/// What a file says of one account: whether it is an organization, whom it lets
/// send its token to, and up to which percentage, and what it holds of each token.
pub struct AccountModel {
    pub organization: bool,
    pub limits: Map<Address, u8>,
    pub balances: Map<Address, U256>,
}

/// What an account of the database says.
pub open spec fn model_of(safe: Safe) -> AccountModel {
    AccountModel {
        organization: safe.organization,
        limits: safe.limit_percentage@,
        balances: safe.balances@,
    }
}

/// What the accounts of the database say, by address.
pub open spec fn accounts_of(safes: AddressMap<Safe>) -> Map<Address, AccountModel> {
    Map::new(|a: Address| safes@.contains_key(a), |a: Address| model_of(safes@[a]))
}

/// An account as the accounts list it, and an account that says nothing where they
/// do not list it.
pub open spec fn account(accounts: Map<Address, AccountModel>, a: Address) -> AccountModel {
    if accounts.contains_key(a) {
        accounts[a]
    } else {
        AccountModel { organization: false, limits: Map::empty(), balances: Map::empty() }
    }
}

/// The accounts with one of them marked as an organization.
pub open spec fn with_organization(
    accounts: Map<Address, AccountModel>,
    a: Address,
) -> Map<Address, AccountModel> {
    accounts.insert(a, AccountModel { organization: true, ..account(accounts, a) })
}

/// The accounts with `user` letting `send_to` receive its token up to a percentage.
pub open spec fn with_trust(
    accounts: Map<Address, AccountModel>,
    user: Address,
    send_to: Address,
    percentage: u8,
) -> Map<Address, AccountModel> {
    accounts.insert(
        user,
        AccountModel {
            limits: account(accounts, user).limits.insert(send_to, percentage),
            ..account(accounts, user)
        },
    )
}

/// The accounts with `user` holding `balance` of the token of `token_owner`.
pub open spec fn with_balance(
    accounts: Map<Address, AccountModel>,
    user: Address,
    token_owner: Address,
    balance: U256,
) -> Map<Address, AccountModel> {
    accounts.insert(
        user,
        AccountModel {
            balances: account(accounts, user).balances.insert(token_owner, balance),
            ..account(accounts, user)
        },
    )
}

/// The addresses read so far and the `n` addresses written from a place on, with
/// the place behind them.
pub open spec fn addresses_from(data: Seq<u8>, pos: int, n: nat, read: Seq<Address>) -> Result<
    (Seq<Address>, int),
    ImportError,
>
    decreases n,
{
    if n == 0 {
        Ok((read, pos))
    } else {
        match address_at(data, pos) {
            None => Err(ImportError::UnexpectedEof),
            Some(a) => addresses_from(data, pos + 20, (n - 1) as nat, read.push(a)),
        }
    }
}

/// The accounts after the `n` records of organizations written from a place on,
/// with the place behind them: each record names an account that is an
/// organization.
pub open spec fn organizations_from(
    data: Seq<u8>,
    addresses: Seq<Address>,
    pos: int,
    n: nat,
    accounts: Map<Address, AccountModel>,
) -> Result<(Map<Address, AccountModel>, int), ImportError>
    decreases n,
{
    if n == 0 {
        Ok((accounts, pos))
    } else {
        match address_ref(data, addresses, pos) {
            Err(e) => Err(e),
            Ok(a) => organizations_from(
                data,
                addresses,
                pos + 4,
                (n - 1) as nat,
                with_organization(accounts, a),
            ),
        }
    }
}

/// The record of trust written at a place: the account that lets receive, the
/// account that may receive, and the percentage, which is at most 100. Neither
/// account is the address of all zero bytes.
pub open spec fn trust_at(data: Seq<u8>, addresses: Seq<Address>, pos: int) -> Result<
    (Address, Address, u8),
    ImportError,
> {
    match address_ref(data, addresses, pos) {
        Err(e) => Err(e),
        Ok(user) => if user@ == 0 {
            Err(ImportError::ZeroAddress)
        } else {
            match address_ref(data, addresses, pos + 4) {
                Err(e) => Err(e),
                Ok(send_to) => if send_to@ == 0 {
                    Err(ImportError::ZeroAddress)
                } else {
                    match u8_at(data, pos + 8) {
                        None => Err(ImportError::UnexpectedEof),
                        Some(p) => if p > 100 {
                            Err(ImportError::InvalidPercentage)
                        } else {
                            Ok((user, send_to, p))
                        },
                    }
                },
            }
        },
    }
}

/// The accounts after the `n` records of trust written from a place on, with the
/// place behind them. A record of trust in oneself or at no percentage changes
/// nothing.
pub open spec fn trusts_from(
    data: Seq<u8>,
    addresses: Seq<Address>,
    pos: int,
    n: nat,
    accounts: Map<Address, AccountModel>,
) -> Result<(Map<Address, AccountModel>, int), ImportError>
    decreases n,
{
    if n == 0 {
        Ok((accounts, pos))
    } else {
        match trust_at(data, addresses, pos) {
            Err(e) => Err(e),
            Ok((user, send_to, p)) => trusts_from(
                data,
                addresses,
                pos + 9,
                (n - 1) as nat,
                if send_to != user && p > 0 {
                    with_trust(accounts, user, send_to, p)
                } else {
                    accounts
                },
            ),
        }
    }
}

/// The record of a balance written at a place, with the place behind it: the
/// account that holds, the owner of the token, and the amount. Neither account is
/// the address of all zero bytes.
pub open spec fn balance_at(data: Seq<u8>, addresses: Seq<Address>, pos: int) -> Result<
    (Address, Address, U256, int),
    ImportError,
> {
    match address_ref(data, addresses, pos) {
        Err(e) => Err(e),
        Ok(user) => if user@ == 0 {
            Err(ImportError::ZeroAddress)
        } else {
            match address_ref(data, addresses, pos + 4) {
                Err(e) => Err(e),
                Ok(token_owner) => if token_owner@ == 0 {
                    Err(ImportError::ZeroAddress)
                } else {
                    match u256_at(data, pos + 8) {
                        Err(e) => Err(e),
                        Ok((balance, end)) => Ok((user, token_owner, balance, end)),
                    }
                },
            }
        },
    }
}

/// The accounts after the `n` records of balances written from a place on, with
/// the place behind them. A record of a balance of nothing changes nothing.
pub open spec fn balances_from(
    data: Seq<u8>,
    addresses: Seq<Address>,
    pos: int,
    n: nat,
    accounts: Map<Address, AccountModel>,
) -> Result<(Map<Address, AccountModel>, int), ImportError>
    decreases n,
{
    if n == 0 {
        Ok((accounts, pos))
    } else {
        match balance_at(data, addresses, pos) {
            Err(e) => Err(e),
            Ok((user, token_owner, balance, end)) => balances_from(
                data,
                addresses,
                end,
                (n - 1) as nat,
                if balance@ != 0 {
                    with_balance(accounts, user, token_owner, balance)
                } else {
                    accounts
                },
            ),
        }
    }
}

/// The list of addresses at the head of a file, with the place behind it: their
/// number and the addresses.
pub open spec fn address_index_at(data: Seq<u8>, pos: int) -> Result<
    (Seq<Address>, int),
    ImportError,
> {
    match u32_at(data, pos) {
        None => Err(ImportError::UnexpectedEof),
        Some(n) => addresses_from(data, pos + 4, n as nat, Seq::empty()),
    }
}

/// What a file of accounts says: the list of addresses, then, each with the number
/// of its records before it, the organizations, the records of trust and the
/// balances. What follows the balances is not read.
pub open spec fn accounts_in(data: Seq<u8>) -> Result<Map<Address, AccountModel>, ImportError> {
    match address_index_at(data, 0) {
        Err(e) => Err(e),
        Ok((addresses, behind_addresses)) => match u32_at(data, behind_addresses) {
            None => Err(ImportError::UnexpectedEof),
            Some(n_org) => match organizations_from(
                data,
                addresses,
                behind_addresses + 4,
                n_org as nat,
                Map::empty(),
            ) {
                Err(e) => Err(e),
                Ok((with_orgs, behind_organizations)) => match u32_at(data, behind_organizations) {
                    None => Err(ImportError::UnexpectedEof),
                    Some(n_trust) => match trusts_from(
                        data,
                        addresses,
                        behind_organizations + 4,
                        n_trust as nat,
                        with_orgs,
                    ) {
                        Err(e) => Err(e),
                        Ok((with_trusts, behind_trusts)) => match u32_at(data, behind_trusts) {
                            None => Err(ImportError::UnexpectedEof),
                            Some(n_bal) => match balances_from(
                                data,
                                addresses,
                                behind_trusts + 4,
                                n_bal as nat,
                                with_trusts,
                            ) {
                                Err(e) => Err(e),
                                Ok((all, end)) => Ok(all),
                            },
                        },
                    },
                },
            },
        },
    }
}

/// Reads the list of addresses: their number and the addresses.
pub fn read_address_index(data: &[u8], pos: &mut usize) -> (r: Result<AddressIndex, ImportError>)
    ensures
        match address_index_at(data@, *old(pos) as int) {
            Ok((list, end)) => r is Ok && r->Ok_0.wf() && r->Ok_0@ == list && *final(pos) == end,
            Err(e) => r is Err && r->Err_0 == e,
        },
{
    let ghost start = *pos as int;
    let address_count = match read_u32(data, pos) {
        Ok(n) => n,
        Err(e) => {
            return Err(e);
        },
    };
    let mut addresses = AddressIndex::new();
    let mut i: u32 = 0;
    while i < address_count
        invariant
            i <= address_count,
            addresses.wf(),
            addresses@.len() == i,
            start == *old(pos),
            u32_at(data@, start) == Some(address_count),
            addresses_from(data@, start + 4, address_count as nat, Seq::empty()) == addresses_from(
                data@,
                *pos as int,
                (address_count - i) as nat,
                addresses@,
            ),
        decreases address_count - i,
    {
        match read_raw_address(data, pos) {
            Ok(a) => {
                addresses.push(a);
            },
            Err(e) => {
                return Err(e);
            },
        }
        i += 1;
    }
    Ok(addresses)
}

/// The place of an account in the map, which lists it from now on.
fn account_place(safes: &mut AddressMap<Safe>, a: Address) -> (i: usize)
    requires
        safes_wf(*old(safes)),
    ensures
        safes_wf(*final(safes)),
        i < final(safes).keys().len(),
        final(safes).keys()[i as int] == a,
        final(safes)@.contains_key(a),
        model_of(final(safes)@[a]) == account(accounts_of(*old(safes)), a),
        accounts_of(*final(safes)) == accounts_of(*old(safes)).insert(
            a,
            account(accounts_of(*old(safes)), a),
        ),
{
    let ghost before = *safes;
    match safes.find(a) {
        Some(i) => {
            proof {
                assert(accounts_of(*safes) =~= accounts_of(before).insert(
                    a,
                    account(accounts_of(before), a),
                ));
            }
            i
        },
        None => {
            let i = safes.insert(a, Safe::default());
            proof {
                assert forall|k: int| 0 <= k < safes.values().len() implies (
                #[trigger] safes.values()[k]).wf() by {
                    if k != i {
                        let k0 = if k < i { k } else { k - 1 };
                        assert(safes.values()[k] == before.values()[k0]);
                    }
                }
                safes.lemma_entry(i as int);
                assert(accounts_of(*safes) =~= accounts_of(before).insert(
                    a,
                    account(accounts_of(before), a),
                ));
            }
            i
        },
    }
}

/// Marks an account as an organization.
fn mark_organization(safes: &mut AddressMap<Safe>, a: Address)
    requires
        safes_wf(*old(safes)),
    ensures
        safes_wf(*final(safes)),
        accounts_of(*final(safes)) == with_organization(accounts_of(*old(safes)), a),
{
    let i = account_place(safes, a);
    let ghost listed = *safes;
    let safe = safes.value_at_mut(i);
    safe.organization = true;
    proof {
        AddressMap::lemma_value_changed(listed, *safes, i as int);
        listed.lemma_entry(i as int);
        assert forall|k: int| 0 <= k < safes.values().len() implies (#[trigger] safes.values()[k]).wf() by {
            if k != i {
                assert(safes.values()[k] == listed.values()[k]);
            } else {
                assert(listed.values()[k].wf());
            }
        }
        let before_accounts = accounts_of(*old(safes));
        let target = with_organization(before_accounts, a);
        safes.lemma_entry(i as int);
        assert(safes@[a] == safes.values()[i as int]);
        assert(model_of(listed@[a]) == account(before_accounts, a));
        assert forall|k: Address| #[trigger]
            accounts_of(*safes).contains_key(k) == target.contains_key(k) by {
            assert(accounts_of(listed).contains_key(k) == (k == a || before_accounts.contains_key(
                k,
            )));
        }
        assert forall|k: Address| accounts_of(*safes).contains_key(k) implies #[trigger] accounts_of(
            *safes,
        )[k] == target[k] by {
            if k != a {
                assert(safes@[k] == listed@[k]);
                assert(accounts_of(listed)[k] == model_of(listed@[k]));
                assert(accounts_of(listed)[k] == before_accounts[k]);
            }
        }
        assert(accounts_of(*safes) =~= target);
    }
}

/// Lets `send_to` receive the token of `user` up to a percentage.
fn set_limit(safes: &mut AddressMap<Safe>, user: Address, send_to: Address, percentage: u8)
    requires
        safes_wf(*old(safes)),
        percentage <= 100,
    ensures
        safes_wf(*final(safes)),
        accounts_of(*final(safes)) == with_trust(accounts_of(*old(safes)), user, send_to, percentage),
{
    let i = account_place(safes, user);
    let ghost listed = *safes;
    let safe = safes.value_at_mut(i);
    let ghost limits = safe.limit_percentage;
    let p = safe.limit_percentage.insert(send_to, percentage);
    proof {
        AddressMap::lemma_value_changed(listed, *safes, i as int);
        listed.lemma_entry(i as int);
        assert(listed.values()[i as int].wf());
        let now = safes.values()[i as int].limit_percentage;
        assert forall|k: int| 0 <= k < now.values().len() implies (#[trigger] now.values()[k]) <= 100 by {
            if limits@.contains_key(send_to) {
                if k != p {
                    assert(now.values()[k] == limits.values()[k]);
                }
            } else {
                if k != p {
                    let k0 = if k < p { k } else { k - 1 };
                    assert(now.values()[k] == limits.values()[k0]);
                }
            }
        }
        assert forall|k: int| 0 <= k < safes.values().len() implies (#[trigger] safes.values()[k]).wf() by {
            if k != i {
                assert(safes.values()[k] == listed.values()[k]);
            }
        }
        let before_accounts = accounts_of(*old(safes));
        let target = with_trust(before_accounts, user, send_to, percentage);
        safes.lemma_entry(i as int);
        assert(safes@[user] == safes.values()[i as int]);
        assert(model_of(listed@[user]) == account(before_accounts, user));
        assert forall|k: Address| #[trigger]
            accounts_of(*safes).contains_key(k) == target.contains_key(k) by {
            assert(accounts_of(listed).contains_key(k) == (k == user || before_accounts.contains_key(
                k,
            )));
        }
        assert forall|k: Address| accounts_of(*safes).contains_key(k) implies #[trigger] accounts_of(
            *safes,
        )[k] == target[k] by {
            if k != user {
                assert(safes@[k] == listed@[k]);
                assert(accounts_of(listed)[k] == model_of(listed@[k]));
                assert(accounts_of(listed)[k] == before_accounts[k]);
            }
        }
        assert(accounts_of(*safes) =~= target);
    }
}

/// Lets `user` hold `balance` of the token of `token_owner`.
fn set_balance(safes: &mut AddressMap<Safe>, user: Address, token_owner: Address, balance: U256)
    requires
        safes_wf(*old(safes)),
    ensures
        safes_wf(*final(safes)),
        accounts_of(*final(safes)) == with_balance(accounts_of(*old(safes)), user, token_owner, balance),
{
    let i = account_place(safes, user);
    let ghost listed = *safes;
    let safe = safes.value_at_mut(i);
    let p = safe.balances.insert(token_owner, balance);
    proof {
        AddressMap::lemma_value_changed(listed, *safes, i as int);
        listed.lemma_entry(i as int);
        assert(listed.values()[i as int].wf());
        assert forall|k: int| 0 <= k < safes.values().len() implies (#[trigger] safes.values()[k]).wf() by {
            if k != i {
                assert(safes.values()[k] == listed.values()[k]);
            }
        }
        let before_accounts = accounts_of(*old(safes));
        let target = with_balance(before_accounts, user, token_owner, balance);
        safes.lemma_entry(i as int);
        assert(safes@[user] == safes.values()[i as int]);
        assert(model_of(listed@[user]) == account(before_accounts, user));
        assert forall|k: Address| #[trigger]
            accounts_of(*safes).contains_key(k) == target.contains_key(k) by {
            assert(accounts_of(listed).contains_key(k) == (k == user || before_accounts.contains_key(
                k,
            )));
        }
        assert forall|k: Address| accounts_of(*safes).contains_key(k) implies #[trigger] accounts_of(
            *safes,
        )[k] == target[k] by {
            if k != user {
                assert(safes@[k] == listed@[k]);
                assert(accounts_of(listed)[k] == model_of(listed@[k]));
                assert(accounts_of(listed)[k] == before_accounts[k]);
            }
        }
        assert(accounts_of(*safes) =~= target);
    }
}

/// Reads the records of organizations, their number first, into the accounts.
fn read_organizations(
    data: &[u8],
    pos: &mut usize,
    address_index: &AddressIndex,
    safes: &mut AddressMap<Safe>,
) -> (r: Result<(), ImportError>)
    requires
        address_index.wf(),
        safes_wf(*old(safes)),
    ensures
        safes_wf(*final(safes)),
        match u32_at(data@, *old(pos) as int) {
            None => r == Err::<(), ImportError>(ImportError::UnexpectedEof),
            Some(n) => match organizations_from(
                data@,
                address_index@,
                *old(pos) + 4,
                n as nat,
                accounts_of(*old(safes)),
            ) {
                Err(e) => r == Err::<(), ImportError>(e),
                Ok((accounts, end)) => r is Ok && accounts_of(*final(safes)) == accounts
                    && *final(pos) == end,
            },
        },
{
    let ghost start = *pos as int;
    let count = match read_u32(data, pos) {
        Ok(n) => n,
        Err(e) => {
            return Err(e);
        },
    };
    let mut i: u32 = 0;
    while i < count
        invariant
            address_index.wf(),
            i <= count,
            start == *old(pos),
            u32_at(data@, start) == Some(count),
            safes_wf(*safes),
            organizations_from(
                data@,
                address_index@,
                start + 4,
                count as nat,
                accounts_of(*old(safes)),
            ) == organizations_from(
                data@,
                address_index@,
                *pos as int,
                (count - i) as nat,
                accounts_of(*safes),
            ),
        decreases count - i,
    {
        let org_address = match read_address(data, pos, address_index) {
            Ok(a) => a,
            Err(e) => {
                return Err(e);
            },
        };
        mark_organization(safes, org_address);
        i += 1;
    }
    Ok(())
}

/// Reads the records of trust, their number first, into the accounts.
fn read_trusts(
    data: &[u8],
    pos: &mut usize,
    address_index: &AddressIndex,
    safes: &mut AddressMap<Safe>,
) -> (r: Result<(), ImportError>)
    requires
        address_index.wf(),
        safes_wf(*old(safes)),
    ensures
        safes_wf(*final(safes)),
        match u32_at(data@, *old(pos) as int) {
            None => r == Err::<(), ImportError>(ImportError::UnexpectedEof),
            Some(n) => match trusts_from(
                data@,
                address_index@,
                *old(pos) + 4,
                n as nat,
                accounts_of(*old(safes)),
            ) {
                Err(e) => r == Err::<(), ImportError>(e),
                Ok((accounts, end)) => r is Ok && accounts_of(*final(safes)) == accounts
                    && *final(pos) == end,
            },
        },
{
    let ghost start = *pos as int;
    let count = match read_u32(data, pos) {
        Ok(n) => n,
        Err(e) => {
            return Err(e);
        },
    };
    let mut i: u32 = 0;
    while i < count
        invariant
            address_index.wf(),
            i <= count,
            start == *old(pos),
            u32_at(data@, start) == Some(count),
            safes_wf(*safes),
            trusts_from(data@, address_index@, start + 4, count as nat, accounts_of(*old(safes)))
                == trusts_from(
                data@,
                address_index@,
                *pos as int,
                (count - i) as nat,
                accounts_of(*safes),
            ),
        decreases count - i,
    {
        let ghost here = *pos as int;
        let user = match read_address(data, pos, address_index) {
            Ok(a) => a,
            Err(e) => {
                return Err(e);
            },
        };
        proof {
            Address::lemma_zero_value();
            if user@ == 0 {
                Address::lemma_view_injective(user, Address::zero_value());
            }
        }
        if user == Address::zero() {
            return Err(ImportError::ZeroAddress);
        }
        let send_to = match read_address(data, pos, address_index) {
            Ok(a) => a,
            Err(e) => {
                return Err(e);
            },
        };
        proof {
            Address::lemma_zero_value();
            if send_to@ == 0 {
                Address::lemma_view_injective(send_to, Address::zero_value());
            }
        }
        if send_to == Address::zero() {
            return Err(ImportError::ZeroAddress);
        }
        let limit_percentage = match read_u8(data, pos) {
            Ok(p) => p,
            Err(e) => {
                return Err(e);
            },
        };
        if limit_percentage > 100 {
            return Err(ImportError::InvalidPercentage);
        }
        assert(trust_at(data@, address_index@, here) == Ok::<(Address, Address, u8), ImportError>(
            (user, send_to, limit_percentage),
        ));
        if send_to != user && limit_percentage > 0 {
            set_limit(safes, user, send_to, limit_percentage);
        }
        i += 1;
    }
    Ok(())
}

/// Reads the records of balances, their number first, into the accounts.
fn read_balances(
    data: &[u8],
    pos: &mut usize,
    address_index: &AddressIndex,
    safes: &mut AddressMap<Safe>,
) -> (r: Result<(), ImportError>)
    requires
        address_index.wf(),
        safes_wf(*old(safes)),
    ensures
        safes_wf(*final(safes)),
        match u32_at(data@, *old(pos) as int) {
            None => r == Err::<(), ImportError>(ImportError::UnexpectedEof),
            Some(n) => match balances_from(
                data@,
                address_index@,
                *old(pos) + 4,
                n as nat,
                accounts_of(*old(safes)),
            ) {
                Err(e) => r == Err::<(), ImportError>(e),
                Ok((accounts, end)) => r is Ok && accounts_of(*final(safes)) == accounts,
            },
        },
{
    let ghost start = *pos as int;
    let count = match read_u32(data, pos) {
        Ok(n) => n,
        Err(e) => {
            return Err(e);
        },
    };
    let mut i: u32 = 0;
    while i < count
        invariant
            address_index.wf(),
            i <= count,
            start == *old(pos),
            u32_at(data@, start) == Some(count),
            safes_wf(*safes),
            balances_from(data@, address_index@, start + 4, count as nat, accounts_of(*old(safes)))
                == balances_from(
                data@,
                address_index@,
                *pos as int,
                (count - i) as nat,
                accounts_of(*safes),
            ),
        decreases count - i,
    {
        let ghost here = *pos as int;
        let user = match read_address(data, pos, address_index) {
            Ok(a) => a,
            Err(e) => {
                return Err(e);
            },
        };
        proof {
            Address::lemma_zero_value();
            if user@ == 0 {
                Address::lemma_view_injective(user, Address::zero_value());
            }
        }
        if user == Address::zero() {
            return Err(ImportError::ZeroAddress);
        }
        let token_owner = match read_address(data, pos, address_index) {
            Ok(a) => a,
            Err(e) => {
                return Err(e);
            },
        };
        proof {
            Address::lemma_zero_value();
            if token_owner@ == 0 {
                Address::lemma_view_injective(token_owner, Address::zero_value());
            }
        }
        if token_owner == Address::zero() {
            return Err(ImportError::ZeroAddress);
        }
        let balance = match read_u256(data, pos) {
            Ok(b) => b,
            Err(e) => {
                return Err(e);
            },
        };
        assert(balance_at(data@, address_index@, here) == Ok::<
            (Address, Address, U256, int),
            ImportError,
        >((user, token_owner, balance, *pos as int)));
        if !balance.is_zero() {
            set_balance(safes, user, token_owner, balance);
        }
        i += 1;
    }
    Ok(())
}

/// Whether every account issues the token of its own address.
pub open spec fn own_tokens(safes: AddressMap<Safe>) -> bool {
    forall|k: int|
        0 <= k < safes.keys().len() ==> (#[trigger] safes.values()[k]).token_address
            == safes.keys()[k]
}

/// The map in which every account owns the token of its own address.
pub open spec fn own_token_owners(safes: AddressMap<Safe>) -> Map<Address, Address> {
    Map::new(|a: Address| safes@.contains_key(a), |a: Address| a)
}

/// Gives every account the token of its own address, and returns the owners of the
/// tokens.
fn assign_own_tokens(safes: &mut AddressMap<Safe>) -> (token_owner: AddressMap<Address>)
    requires
        safes_wf(*old(safes)),
    ensures
        safes_wf(*final(safes)),
        accounts_of(*final(safes)) == accounts_of(*old(safes)),
        own_tokens(*final(safes)),
        token_owner.wf(),
        token_owner@ == own_token_owners(*final(safes)),
{
    let mut token_owner: AddressMap<Address> = AddressMap::new();
    let mut i: usize = 0;
    while i < safes.len()
        invariant
            i <= safes.keys().len(),
            safes_wf(*safes),
            safes.keys() == old(safes).keys(),
            accounts_of(*safes) == accounts_of(*old(safes)),
            forall|k: int|
                0 <= k < i ==> (#[trigger] safes.values()[k]).token_address == safes.keys()[k],
            token_owner.wf(),
            token_owner@ == Map::new(
                |a: Address| exists|k: int| 0 <= k < i && #[trigger] safes.keys()[k] == a,
                |a: Address| a,
            ),
        decreases safes.keys().len() - i,
    {
        let addr = safes.key_at(i);
        let ghost before = *safes;
        let ghost owners = token_owner@;
        let safe = safes.value_at_mut(i);
        safe.token_address = addr;
        let _ = token_owner.insert(addr, addr);
        proof {
            AddressMap::lemma_value_changed(before, *safes, i as int);
            before.lemma_entry(i as int);
            safes.lemma_entry(i as int);
            assert(before.values()[i as int].wf());
            assert forall|k: int| 0 <= k < safes.values().len() implies (
            #[trigger] safes.values()[k]).wf() by {
                if k != i {
                    assert(safes.values()[k] == before.values()[k]);
                }
            }
            assert forall|k: int| 0 <= k < i + 1 implies (#[trigger] safes.values()[k]).token_address
                == safes.keys()[k] by {
                if k != i {
                    assert(safes.values()[k] == before.values()[k]);
                }
            }
            assert forall|a: Address| accounts_of(*safes).contains_key(a) implies #[trigger] accounts_of(
                *safes,
            )[a] == accounts_of(before)[a] by {
                if a != addr {
                    assert(safes@[a] == before@[a]);
                }
            }
            assert(accounts_of(*safes) =~= accounts_of(before));
            assert(token_owner@ =~= Map::new(
                |a: Address| exists|k: int| 0 <= k < i + 1 && #[trigger] safes.keys()[k] == a,
                |a: Address| a,
            )) by {
                assert forall|a: Address|
                    owners.insert(addr, addr).contains_key(a) == (exists|k: int|
                        0 <= k < i + 1 && #[trigger] safes.keys()[k] == a) by {
                    if owners.contains_key(a) {
                        let k = choose|k: int| 0 <= k < i && #[trigger] safes.keys()[k] == a;
                        assert(safes.keys()[k] == a);
                    }
                    if a == addr {
                        assert(safes.keys()[i as int] == a);
                    }
                    if exists|k: int| 0 <= k < i + 1 && #[trigger] safes.keys()[k] == a {
                        let k = choose|k: int| 0 <= k < i + 1 && #[trigger] safes.keys()[k] == a;
                        if k < i {
                            assert(safes.keys()[k] == a);
                        }
                    }
                }
            }
        }
        i += 1;
    }
    proof {
        assert(token_owner@ =~= own_token_owners(*safes)) by {
            assert forall|a: Address|
                safes@.contains_key(a) == (exists|k: int|
                    0 <= k < safes.keys().len() && #[trigger] safes.keys()[k] == a) by {
                if safes@.contains_key(a) {
                    let k = safes.lemma_key_place(a);
                }
                if exists|k: int| 0 <= k < safes.keys().len() && #[trigger] safes.keys()[k] == a {
                    let k = choose|k: int|
                        0 <= k < safes.keys().len() && #[trigger] safes.keys()[k] == a;
                    safes.lemma_entry(k);
                }
            }
        }
    }
    token_owner
}

/// Whether the database holds the accounts that a file says, each with the token of
/// its own address, and the capacity edges that follow from them.
pub open spec fn is_import_of(db: DB, accounts: Map<Address, AccountModel>) -> bool {
    &&& db.wf()
    &&& accounts_of(db.spec_safes()) == accounts
    &&& own_tokens(db.spec_safes())
    &&& db.spec_token_owner()@ == own_token_owners(db.spec_safes())
    &&& db.spec_edges()@ == capacity_edges(db.spec_safes(), db.spec_token_owner()@)
}

/// Reads a file of accounts: the list of addresses, the organizations, the records
/// of trust and the balances. Every account that a record names is an account of the
/// database, with the token of its own address. A later record of the same trust or
/// the same balance replaces an earlier one.
pub fn import_from_safes_binary(data: &[u8]) -> (r: Result<DB, ImportError>)
    ensures
        match accounts_in(data@) {
            Err(e) => r == Err::<DB, ImportError>(e),
            Ok(accounts) => r is Ok && is_import_of(r->Ok_0, accounts),
        },
{
    let mut pos: usize = 0;
    let mut safes: AddressMap<Safe> = AddressMap::new();
    proof {
        assert(accounts_of(safes) =~= Map::<Address, AccountModel>::empty());
    }
    let address_index = match read_address_index(data, &mut pos) {
        Ok(index) => index,
        Err(e) => {
            return Err(e);
        },
    };
    match read_organizations(data, &mut pos, &address_index, &mut safes) {
        Ok(()) => {},
        Err(e) => {
            return Err(e);
        },
    }
    match read_trusts(data, &mut pos, &address_index, &mut safes) {
        Ok(()) => {},
        Err(e) => {
            return Err(e);
        },
    }
    match read_balances(data, &mut pos, &address_index, &mut safes) {
        Ok(()) => {},
        Err(e) => {
            return Err(e);
        },
    }
    // we use the safe address as token address
    let token_owner = assign_own_tokens(&mut safes);
    Ok(DB::new(safes, token_owner))
}

} // verus!
