use vstd::prelude::*;
use crate::graph::flow::FlowError;
use crate::graph::flow_map::{capacity_of, has_entry, keys_unique, lemma_place, FlowEntry, FlowMap};
use crate::graph::prune::edge_smaller;
use crate::graph::{lemma_node_order_total, lemma_node_order_transitive, node_before, Node};
use crate::types::address::Address;
use crate::types::address_map::AddressMap;
use crate::types::edge::Edge;
use crate::types::u256::{modulus, U256};

verus! {

/// The transfer that a used edge stands for: a used edge from an account's pool of
/// a token to another account's intake of the same token stands for a transfer of
/// that token between the two accounts. No other used edge stands for a transfer.
pub open spec fn transfer_of(e: FlowEntry) -> Option<Edge> {
    match (e.from, e.to) {
        (Node::BalanceNode(a, t), Node::TrustNode(b, s)) => if s == t {
            Some(Edge { from: a, to: b, token: t, capacity: e.capacity })
        } else {
            None
        },
        _ => None,
    }
}

/// Whether the used edge at place `j` can be taken as the next transfer of an
/// account with the given balance: it stands for a transfer from that account of no
/// more than the balance, and the account has a used edge to the pool that the
/// edge starts at.
pub open spec fn admissible(used: Seq<FlowEntry>, account: Address, balance: U256, j: int) -> bool {
    &&& 0 <= j < used.len()
    &&& transfer_of(used[j]) is Some
    &&& transfer_of(used[j])->0.from == account
    &&& used[j].capacity@ <= balance@
    &&& has_entry(used, Node::Node(account), used[j].from)
}

/// Whether one of the used edges stands for the transfer.
pub open spec fn stands_for(used: Seq<FlowEntry>, transfer: Edge) -> bool {
    exists|j: int| 0 <= j < used.len() && transfer_of(#[trigger] used[j]) == Some(transfer)
}

/// What leaves an account less what arrives at it, over a list of transfers.
pub open spec fn transfer_net(transfers: Seq<Edge>, a: Address) -> int
    decreases transfers.len(),
{
    if transfers.len() == 0 {
        0
    } else {
        transfer_net(transfers.drop_last(), a) + contribution(transfers.last(), a)
    }
}

/// What one transfer adds to what leaves an account less what arrives at it.
pub open spec fn contribution(e: Edge, a: Address) -> int {
    (if e.from == a {
        e.capacity@ as int
    } else {
        0
    }) - (if e.to == a {
        e.capacity@ as int
    } else {
        0
    })
}

/// The sum of a run of amounts.
pub open spec fn sum_of(amounts: Seq<U256>) -> nat
    decreases amounts.len(),
{
    if amounts.len() == 0 {
        0
    } else {
        sum_of(amounts.drop_last()) + amounts.last()@
    }
}

/// Replacing one amount changes the sum by the difference.
pub proof fn lemma_sum_update(s: Seq<U256>, i: int, v: U256)
    requires
        0 <= i < s.len(),
    ensures
        sum_of(s.update(i, v)) == sum_of(s) - s[i]@ + v@,
        s[i]@ <= sum_of(s),
    decreases s.len(),
{
    let t = s.update(i, v);
    if i == s.len() - 1 {
        assert(t.drop_last() =~= s.drop_last());
    } else {
        lemma_sum_update(s.drop_last(), i, v);
        assert(t.drop_last() =~= s.drop_last().update(i, v));
    }
}

/// A new amount adds itself to the sum, wherever it is put.
pub proof fn lemma_sum_insert(s: Seq<U256>, i: int, v: U256)
    requires
        0 <= i <= s.len(),
    ensures
        sum_of(s.insert(i, v)) == sum_of(s) + v@,
    decreases s.len(),
{
    let t = s.insert(i, v);
    if i == s.len() {
        assert(t.drop_last() =~= s);
    } else {
        lemma_sum_insert(s.drop_last(), i, v);
        assert(t.drop_last() =~= s.drop_last().insert(i, v));
        assert(t.last() == s.last());
    }
}

/// An amount that is taken out is taken off the sum.
pub proof fn lemma_sum_remove(s: Seq<U256>, i: int)
    requires
        0 <= i < s.len(),
    ensures
        sum_of(s.remove(i)) == sum_of(s) - s[i]@,
    decreases s.len(),
{
    let t = s.remove(i);
    if i == s.len() - 1 {
        assert(t =~= s.drop_last());
    } else {
        lemma_sum_remove(s.drop_last(), i);
        assert(t.drop_last() =~= s.drop_last().remove(i));
        assert(t.last() == s.last());
    }
}

/// What an account holds: its value in the map, nothing where it is no key.
pub open spec fn balance_of(balances: Map<Address, U256>, a: Address) -> nat {
    if balances.contains_key(a) {
        balances[a]@
    } else {
        0
    }
}

/// The place of the smallest used edge that can be taken as the next transfer of
/// the account: the smallest capacity first, and of two equal capacities the edge
/// whose intake is first in the order of the vertices.
fn smallest_admissible(used_edges: &FlowMap, account: &Address, balance: &U256) -> (r: Option<usize>)
    requires
        used_edges.wf(),
    ensures
        r is None <==> forall|j: int| !#[trigger] admissible(used_edges@, *account, *balance, j),
        r is Some ==> admissible(used_edges@, *account, *balance, r->0 as int) && forall|j: int|
            #[trigger] admissible(used_edges@, *account, *balance, j) && j != r->0 ==> edge_smaller(
                used_edges@[r->0 as int].capacity,
                used_edges@[r->0 as int].to,
                used_edges@[j].capacity,
                used_edges@[j].to,
            ),
{
    let ghost used = used_edges@;
    let mut best: Option<usize> = None;
    let mut j: usize = 0;
    while j < used_edges.len()
        invariant
            j <= used.len(),
            used == used_edges@,
            used_edges.wf(),
            best is None <==> forall|k: int|
                0 <= k < j ==> !#[trigger] admissible(used, *account, *balance, k),
            best is Some ==> best->0 < j && admissible(used, *account, *balance, best->0 as int)
                && forall|k: int|
                0 <= k < j && #[trigger] admissible(used, *account, *balance, k) && k != best->0
                    ==> edge_smaller(
                    used[best->0 as int].capacity,
                    used[best->0 as int].to,
                    used[k].capacity,
                    used[k].to,
                ),
        decreases used.len() - j,
    {
        let e = used_edges.entry_at(j);
        let fits = match (e.from, e.to) {
            (Node::BalanceNode(a, t), Node::TrustNode(_, s)) => s == t && a == *account
                && e.capacity <= *balance && used_edges.contains(&Node::Node(*account), &e.from),
            _ => false,
        };
        assert(fits == admissible(used, *account, *balance, j as int));
        if fits {
            match best {
                None => {
                    best = Some(j);
                },
                Some(i) => {
                    let b = used_edges.entry_at(i);
                    proof {
                        if e.capacity@ == b.capacity@ {
                            U256::lemma_view_injective(e.capacity, b.capacity);
                        }
                        lemma_node_order_total(e.to, b.to);
                        // two edges of one account with one intake start at the same pool
                        assert(!(used[i as int].from == used[j as int].from && used[i as int].to
                            == used[j as int].to));
                    }
                    if e.capacity < b.capacity || (e.capacity == b.capacity && node_before(
                        &e.to,
                        &b.to,
                    )) {
                        proof {
                            assert forall|k: int|
                                0 <= k < j + 1 && #[trigger] admissible(
                                    used,
                                    *account,
                                    *balance,
                                    k,
                                ) && k != j implies edge_smaller(
                                e.capacity,
                                e.to,
                                used[k].capacity,
                                used[k].to,
                            ) by {
                                if k != i {
                                    if e.capacity@ == b.capacity@ && b.capacity@
                                        == used[k].capacity@ {
                                        lemma_node_order_transitive(e.to, b.to, used[k].to);
                                    }
                                }
                            }
                        }
                        best = Some(j);
                    }
                },
            }
        }
        j += 1;
    }
    best
}

/// Whether the used edge at place `j` is the next transfer where the accounts hold
/// the given balances: it can be taken by the account at place `i`, no account
/// before that one can take any edge, and every other edge that the account can
/// take comes behind it, by capacity and then by intake.
pub open spec fn is_next_transfer(
    used: Seq<FlowEntry>,
    accounts: Seq<Address>,
    balances: Seq<U256>,
    i: int,
    j: int,
) -> bool {
    &&& 0 <= i < accounts.len()
    &&& admissible(used, accounts[i], balances[i], j)
    &&& forall|h: int, k: int| 0 <= h < i ==> !#[trigger] admissible(used, accounts[h], balances[h], k)
    &&& forall|k: int|
        #[trigger] admissible(used, accounts[i], balances[i], k) && k != j ==> edge_smaller(
            used[j].capacity,
            used[j].to,
            used[k].capacity,
            used[k].to,
        )
}

/// The next transfer: of the first account, in the order of addresses, that has a
/// used edge it can afford, the smallest such edge. Returns the place of the edge
/// with the transfer.
fn next_full_capacity_edge(used_edges: &FlowMap, account_balances: &AddressMap<U256>) -> (r: Option<
    (usize, Edge),
>)
    requires
        used_edges.wf(),
        account_balances.wf(),
    ensures
        r is None <==> forall|i: int, j: int|
            0 <= i < account_balances.keys().len() ==> !#[trigger] admissible(
                used_edges@,
                account_balances.keys()[i],
                account_balances.values()[i],
                j,
            ),
        r is Some ==> (r->0).0 < used_edges@.len() && transfer_of(used_edges@[(r->0).0 as int])
            == Some((r->0).1) && exists|i: int|
            #[trigger] is_next_transfer(
                used_edges@,
                account_balances.keys(),
                account_balances.values(),
                i,
                (r->0).0 as int,
            ),
{
    let mut i: usize = 0;
    while i < account_balances.len()
        invariant
            i <= account_balances.keys().len(),
            used_edges.wf(),
            account_balances.wf(),
            forall|h: int, j: int|
                0 <= h < i ==> !#[trigger] admissible(
                    used_edges@,
                    account_balances.keys()[h],
                    account_balances.values()[h],
                    j,
                ),
        decreases account_balances.keys().len() - i,
    {
        let account = account_balances.key_at(i);
        let balance = *account_balances.value_at(i);
        match smallest_admissible(used_edges, &account, &balance) {
            Some(j) => {
                let e = used_edges.entry_at(j);
                let edge = match (e.from, e.to) {
                    (Node::BalanceNode(a, t), Node::TrustNode(b, _)) => Edge {
                        from: a,
                        to: b,
                        token: t,
                        capacity: e.capacity,
                    },
                    _ => Edge { from: account, to: account, token: account, capacity: e.capacity },
                };
                assert(is_next_transfer(
                    used_edges@,
                    account_balances.keys(),
                    account_balances.values(),
                    i as int,
                    j as int,
                ));
                return Some((j, edge));
            },
            None => {},
        }
        i += 1;
    }
    None
}

/// Whether the balances hold what is left at each account when `amount` starts at
/// the source and the transfers have been made, and nothing is lost.
pub open spec fn balances_follow(
    balances: AddressMap<U256>,
    transfers: Seq<Edge>,
    source: Address,
    amount: nat,
) -> bool {
    &&& balances.wf()
    &&& sum_of(balances.values()) == amount
    &&& forall|a: Address| #[trigger]
        balance_of(balances@, a) == (if a == source {
            amount as int
        } else {
            0
        }) - transfer_net(transfers, a)
}

/// Whether every account that is listed holds something.
pub open spec fn all_held(balances: AddressMap<U256>) -> bool {
    forall|a: Address| #[trigger] balances@.contains_key(a) ==> balances@[a]@ > 0
}

/// Whether every entry of `now` is an entry of `start`.
pub open spec fn drawn_from(start: Seq<FlowEntry>, now: Seq<FlowEntry>) -> bool {
    forall|j: int| 0 <= j < now.len() ==> start.contains(#[trigger] now[j])
}

/// What has to leave an account less what arrives at it when `amount` is moved from
/// the source to the sink.
pub open spec fn expected_transfer_net(a: Address, source: Address, sink: Address, amount: nat) -> int {
    (if a == source {
        amount as int
    } else {
        0
    }) - (if a == sink {
        amount as int
    } else {
        0
    })
}

/// When nothing is held but by the sink, the transfers have moved the amount from
/// the source to the sink.
proof fn lemma_settled(
    balances: AddressMap<U256>,
    transfers: Seq<Edge>,
    source: Address,
    sink: Address,
    amount: nat,
)
    requires
        balances_follow(balances, transfers, source, amount),
        balances.keys().len() == 0 || (balances.keys().len() == 1 && balances.keys()[0] == sink),
    ensures
        forall|a: Address| #[trigger]
            transfer_net(transfers, a) == expected_transfer_net(a, source, sink, amount),
{
    let vals = balances.values();
    assert forall|a: Address| #[trigger]
        transfer_net(transfers, a) == expected_transfer_net(a, source, sink, amount) by {
        assert(balance_of(balances@, a) == (if a == source {
            amount as int
        } else {
            0
        }) - transfer_net(transfers, a));
        if balances.keys().len() == 0 {
            assert(sum_of(vals) == 0);
            if balances@.contains_key(a) {
                let i = balances.lemma_key_place(a);
            }
        } else {
            assert(vals.drop_last() =~= Seq::<U256>::empty());
            assert(sum_of(vals.drop_last()) == 0);
            assert(sum_of(vals) == vals[0]@);
            balances.lemma_entry(0);
            if a != sink {
                if balances@.contains_key(a) {
                    let i = balances.lemma_key_place(a);
                }
            }
        }
    }
}

/// The balances without an account that holds nothing.
pub open spec fn without_empty(balances: Map<Address, U256>, a: Address) -> Map<Address, U256> {
    if balances.contains_key(a) && balances[a]@ == 0 {
        balances.remove(a)
    } else {
        balances
    }
}

/// The balances after a transfer: its capacity is taken from what its sender holds
/// and added to what its receiver holds, and neither is listed where it is left
/// with nothing.
pub open spec fn moved(balances: Map<Address, U256>, e: Edge) -> Map<Address, U256> {
    let paid = balances.insert(e.from, U256::from_nat((balances[e.from]@ - e.capacity@) as nat));
    let received = paid.insert(e.to, U256::from_nat(balance_of(paid, e.to) + e.capacity@));
    without_empty(without_empty(received, e.from), e.to)
}

/// Whether the used edge at place `j` can be taken as the next transfer by its
/// sender, which the balances list.
pub open spec fn admissible_now(used: Seq<FlowEntry>, balances: Map<Address, U256>, j: int) -> bool {
    &&& 0 <= j < used.len()
    &&& transfer_of(used[j]) is Some
    &&& balances.contains_key(transfer_of(used[j])->0.from)
    &&& admissible(
        used,
        transfer_of(used[j])->0.from,
        balances[transfer_of(used[j])->0.from],
        j,
    )
}

/// Whether the transfer of the used edge at place `j` comes before that of the edge
/// at place `k`: the sender with the lower address first, then the smaller capacity,
/// then the intake that is first in the order of the vertices.
pub open spec fn comes_first(used: Seq<FlowEntry>, j: int, k: int) -> bool {
    let a = transfer_of(used[j])->0.from;
    let b = transfer_of(used[k])->0.from;
    a@ < b@ || (a == b && edge_smaller(used[j].capacity, used[j].to, used[k].capacity, used[k].to))
}

/// Whether the used edge at place `j` is the next transfer: it can be taken, and it
/// comes before every other edge that can be taken.
pub open spec fn is_next(used: Seq<FlowEntry>, balances: Map<Address, U256>, j: int) -> bool {
    &&& admissible_now(used, balances, j)
    &&& forall|k: int| #[trigger] admissible_now(used, balances, k) && k != j ==> comes_first(used, j, k)
}

/// Whether nothing is held but by the sink.
pub open spec fn is_settled(balances: Map<Address, U256>, sink: Address) -> bool {
    forall|a: Address| #[trigger] balances.contains_key(a) ==> a == sink
}

/// What the extraction gives: no transfer where nothing is held but by the sink;
/// else the next transfer and what the extraction gives for the used edges without
/// its edge and the balances after it; and a failure where something is held and no
/// edge can be taken.
pub open spec fn extraction(
    used: Seq<FlowEntry>,
    balances: Map<Address, U256>,
    sink: Address,
) -> Result<Seq<Edge>, FlowError>
    decreases used.len(),
    via extraction_terminates
{
    if is_settled(balances, sink) {
        Ok(Seq::empty())
    } else if exists|j: int| #[trigger] is_next(used, balances, j) {
        let j = choose|j: int| #[trigger] is_next(used, balances, j);
        let e = transfer_of(used[j])->0;
        match extraction(used.remove(j), moved(balances, e), sink) {
            Ok(rest) => Ok(seq![e] + rest),
            Err(x) => Err(x),
        }
    } else {
        Err(FlowError::NoAdmissibleEdge)
    }
}

#[via_fn]
proof fn extraction_terminates(used: Seq<FlowEntry>, balances: Map<Address, U256>, sink: Address) {
    if !is_settled(balances, sink) && exists|j: int| #[trigger] is_next(used, balances, j) {
        let j = choose|j: int| #[trigger] is_next(used, balances, j);
        assert(admissible_now(used, balances, j));
        assert(used.remove(j).len() == used.len() - 1);
    }
}

/// The balances at the start: the amount at the source, and nothing listed where
/// the amount is nothing.
pub open spec fn starting_balances(source: Address, amount: U256) -> Map<Address, U256> {
    if amount@ == 0 {
        Map::empty()
    } else {
        Map::empty().insert(source, amount)
    }
}

/// The transfers made so far before what is still to come.
pub open spec fn after(made: Seq<Edge>, rest: Result<Seq<Edge>, FlowError>) -> Result<
    Seq<Edge>,
    FlowError,
> {
    match rest {
        Ok(list) => Ok(made + list),
        Err(x) => Err(x),
    }
}

/// No two edges are the next transfer.
proof fn lemma_next_unique(used: Seq<FlowEntry>, balances: Map<Address, U256>, j: int, k: int)
    requires
        is_next(used, balances, j),
        is_next(used, balances, k),
    ensures
        j == k,
{
    if j != k {
        assert(admissible_now(used, balances, j));
        assert(admissible_now(used, balances, k));
        assert(comes_first(used, j, k));
        assert(comes_first(used, k, j));
        lemma_node_order_total(used[j].to, used[k].to);
    }
}

/// The edge that the search through the accounts in the order of their addresses
/// finds is the next transfer.
proof fn lemma_found_is_next(used: Seq<FlowEntry>, balances: AddressMap<U256>, i: int, j: int)
    requires
        balances.wf(),
        is_next_transfer(used, balances.keys(), balances.values(), i, j),
    ensures
        is_next(used, balances@, j),
{
    balances.lemma_entry(i);
    assert forall|k: int| #[trigger] admissible_now(used, balances@, k) && k != j implies comes_first(
        used,
        j,
        k,
    ) by {
        let b = transfer_of(used[k])->0.from;
        let h = balances.lemma_key_place(b);
        assert(admissible(used, balances.keys()[h], balances.values()[h], k));
        if h < i {
            assert(!admissible(used, balances.keys()[h], balances.values()[h], k));
        } else if h > i {
            assert(balances.keys()[i]@ < balances.keys()[h]@);
        }
    }
}

/// Where the search through the accounts finds no edge, there is no next transfer.
proof fn lemma_none_found(used: Seq<FlowEntry>, balances: AddressMap<U256>)
    requires
        balances.wf(),
        forall|i: int, j: int|
            0 <= i < balances.keys().len() ==> !#[trigger] admissible(
                used,
                balances.keys()[i],
                balances.values()[i],
                j,
            ),
    ensures
        forall|j: int| !#[trigger] is_next(used, balances@, j),
{
    assert forall|j: int| !#[trigger] is_next(used, balances@, j) by {
        if is_next(used, balances@, j) {
            let b = transfer_of(used[j])->0.from;
            let h = balances.lemma_key_place(b);
            assert(admissible(used, balances.keys()[h], balances.values()[h], j));
        }
    }
}

/// Moves the capacity of a transfer from its sender to its receiver, and takes
/// either out of the balances where it is left with nothing.
fn settle(balances: &mut AddressMap<U256>, edge: &Edge)
    requires
        old(balances).wf(),
        all_held(*old(balances)),
        sum_of(old(balances).values()) < modulus(),
        old(balances)@.contains_key(edge.from),
        edge.capacity@ <= old(balances)@[edge.from]@,
    ensures
        final(balances).wf(),
        all_held(*final(balances)),
        sum_of(final(balances).values()) == sum_of(old(balances).values()),
        forall|a: Address| #[trigger]
            balance_of(final(balances)@, a) == balance_of(old(balances)@, a) - contribution(*edge, a),
        final(balances)@ == moved(old(balances)@, *edge),
{
    let ghost before = *balances;
    // the sender pays
    let at = match balances.find(edge.from) {
        Some(at) => at,
        None => 0,
    };
    let from_balance = *balances.value_at(at);
    let rest = match from_balance.checked_sub(edge.capacity) {
        Some(rest) => rest,
        None => from_balance,
    };
    proof {
        lemma_sum_update(before.values(), at as int, rest);
        U256::lemma_limbs(rest);
        U256::lemma_from_nat(rest@);
        U256::lemma_view_injective(rest, U256::from_nat(rest@));
    }
    balances.set_value_at(at, rest);
    let ghost paid = *balances;
    // the receiver is paid
    match balances.find(edge.to) {
        Some(to_at) => {
            let to_balance = *balances.value_at(to_at);
            proof {
                lemma_sum_update(paid.values(), to_at as int, to_balance);
            }
            let more = match to_balance.checked_add(edge.capacity) {
                Some(more) => more,
                None => to_balance,
            };
            proof {
                lemma_sum_update(paid.values(), to_at as int, more);
                U256::lemma_limbs(more);
                U256::lemma_from_nat(more@);
                U256::lemma_view_injective(more, U256::from_nat(more@));
            }
            balances.set_value_at(to_at, more);
        },
        None => {
            let p = balances.insert(edge.to, edge.capacity);
            proof {
                lemma_sum_insert(paid.values(), p as int, edge.capacity);
                U256::lemma_limbs(edge.capacity);
                U256::lemma_from_nat(edge.capacity@);
                U256::lemma_view_injective(edge.capacity, U256::from_nat(edge.capacity@));
            }
        },
    }
    let ghost received = *balances;
    proof {
        assert forall|a: Address| #[trigger]
            balance_of(received@, a) == balance_of(before@, a) - contribution(*edge, a) by {}
    }
    drop_if_empty(balances, edge.from);
    drop_if_empty(balances, edge.to);
}

/// Takes an account that holds nothing out of the balances.
fn drop_if_empty(balances: &mut AddressMap<U256>, account: Address)
    requires
        old(balances).wf(),
    ensures
        final(balances).wf(),
        sum_of(final(balances).values()) == sum_of(old(balances).values()),
        final(balances)@ == if old(balances)@.contains_key(account) && old(balances)@[account]@
            == 0 {
            old(balances)@.remove(account)
        } else {
            old(balances)@
        },
{
    let ghost before = *balances;
    match balances.find(account) {
        None => {},
        Some(i) => {
            if balances.value_at(i).is_zero() {
                proof {
                    lemma_sum_remove(before.values(), i as int);
                    before.lemma_entry(i as int);
                }
                balances.remove_at(i);
            }
        },
    }
}

/// Turns the used edges into transfers that move `amount` from `source` to `sink`.
/// It starts with `amount` at the source and, as long as anything is held by an
/// account other than the sink, takes the next transfer that its sender can afford
/// in full, moves its capacity from the sender to the receiver, and takes the used
/// edge out. Fails where an account holds something and no used edge can carry
/// it on.
///
/// The transfers that come out move `amount` out of the source and into the sink
/// and leave every other account with what it had, and each of them is the transfer
/// that one of the used edges stands for.
pub fn extract_transfers(
    source: &Address,
    sink: &Address,
    amount: &U256,
    used_edges: FlowMap,
) -> (r: Result<Vec<Edge>, FlowError>)
    requires
        used_edges.wf(),
    ensures
        match extraction(used_edges@, starting_balances(*source, *amount), *sink) {
            Ok(list) => r is Ok && r->Ok_0@ == list,
            Err(x) => r == Err::<Vec<Edge>, FlowError>(x),
        },
        r is Err ==> r == Err::<Vec<Edge>, FlowError>(FlowError::NoAdmissibleEdge),
        r is Ok ==> forall|a: Address| #[trigger]
            transfer_net(r->Ok_0@, a) == expected_transfer_net(a, *source, *sink, amount@),
        r is Ok ==> forall|k: int|
            0 <= k < r->Ok_0@.len() ==> stands_for(used_edges@, #[trigger] r->Ok_0@[k]),
        r is Ok ==> r->Ok_0@.len() <= used_edges@.len(),
{
    let ghost start = used_edges@;
    let mut remaining = used_edges;
    let mut transfers: Vec<Edge> = Vec::new();
    let mut account_balances: AddressMap<U256> = AddressMap::new();
    let ghost fresh = account_balances;
    proof {
        assert(fresh.values() =~= Seq::<U256>::empty());
    }
    if !amount.is_zero() {
        let p = account_balances.insert(*source, *amount);
        proof {
            lemma_sum_insert(Seq::<U256>::empty(), 0, *amount);
            assert(p == 0);
        }
    }
    proof {
        assert(account_balances@ =~= starting_balances(*source, *amount));
        let whole = extraction(start, account_balances@, *sink);
        assert(after(transfers@, whole) == whole) by {
            if whole is Ok {
                assert(transfers@ + whole->Ok_0 =~= whole->Ok_0);
            }
        }
    }
    proof {
        assert forall|j: int| 0 <= j < remaining@.len() implies start.contains(
            #[trigger] remaining@[j],
        ) by {
            assert(start[j] == remaining@[j]);
        }
    }
    loop
        invariant
            remaining.wf(),
            start == used_edges@,
            after(transfers@, extraction(remaining@, account_balances@, *sink)) == extraction(
                start,
                starting_balances(*source, *amount),
                *sink,
            ),
            balances_follow(account_balances, transfers@, *source, amount@),
            all_held(account_balances),
            transfers@.len() + remaining@.len() <= start.len(),
            drawn_from(start, remaining@),
            forall|k: int| 0 <= k < transfers@.len() ==> stands_for(start, #[trigger] transfers@[k]),
        decreases remaining@.len(),
    {
        let held = account_balances.len();
        if held == 0 || (held == 1 && account_balances.key_at(0) == *sink) {
            proof {
                lemma_settled(account_balances, transfers@, *source, *sink, amount@);
                assert(is_settled(account_balances@, *sink)) by {
                    assert forall|a: Address| #[trigger]
                        account_balances@.contains_key(a) implies a == *sink by {
                        let k = account_balances.lemma_key_place(a);
                    }
                }
                assert(transfers@ + Seq::<Edge>::empty() =~= transfers@);
            }
            return Ok(transfers);
        }
        proof {
            assert(!is_settled(account_balances@, *sink)) by {
                account_balances.lemma_entry(0);
                if held >= 2 {
                    account_balances.lemma_entry(1);
                    assert(account_balances.keys()[0]@ < account_balances.keys()[1]@);
                }
            }
        }
        match next_full_capacity_edge(&remaining, &account_balances) {
            None => {
                proof {
                    lemma_none_found(remaining@, account_balances);
                }
                return Err(FlowError::NoAdmissibleEdge);
            },
            Some((j, edge)) => {
                let ghost used_before = remaining@;
                let ghost before = account_balances;
                let ghost made = transfers@;
                proof {
                    let i = choose|i: int|
                        #[trigger] is_next_transfer(
                            remaining@,
                            account_balances.keys(),
                            account_balances.values(),
                            i,
                            j as int,
                        );
                    account_balances.lemma_entry(i);
                    assert(account_balances.keys()[i] == edge.from);
                    U256::lemma_limbs(*amount);
                    lemma_found_is_next(remaining@, account_balances, i, j as int);
                    let chosen = choose|c: int| #[trigger] is_next(remaining@, account_balances@, c);
                    lemma_next_unique(remaining@, account_balances@, chosen, j as int);
                }
                let ghost whole = extraction(remaining@, account_balances@, *sink);
                settle(&mut account_balances, &edge);
                remaining.remove_at(j);
                transfers.push(edge);
                proof {
                    let rest = extraction(remaining@, account_balances@, *sink);
                    assert(whole == after(seq![edge], rest));
                    assert(after(transfers@, rest) == after(made, whole)) by {
                        if rest is Ok {
                            assert(transfers@ + rest->Ok_0 =~= made + (seq![edge] + rest->Ok_0));
                        }
                    }
                    assert(transfers@.drop_last() =~= made);
                    assert forall|a: Address| #[trigger]
                        balance_of(account_balances@, a) == (if a == *source {
                            amount@ as int
                        } else {
                            0
                        }) - transfer_net(transfers@, a) by {
                        assert(balance_of(before@, a) == (if a == *source {
                            amount@ as int
                        } else {
                            0
                        }) - transfer_net(made, a));
                        assert(balance_of(account_balances@, a) == balance_of(before@, a)
                            - contribution(edge, a));
                    }
                    assert forall|l: int| 0 <= l < remaining@.len() implies start.contains(
                        #[trigger] remaining@[l],
                    ) by {
                        let l0 = if l < j { l } else { l + 1 };
                        assert(remaining@[l] == used_before[l0]);
                        assert(start.contains(used_before[l0]));
                    }
                    assert forall|k: int| 0 <= k < transfers@.len() implies stands_for(
                        start,
                        #[trigger] transfers@[k],
                    ) by {
                        if k < made.len() {
                            assert(transfers@[k] == made[k]);
                        } else {
                            assert(start.contains(used_before[j as int]));
                            let j0 = choose|j0: int|
                                0 <= j0 < start.len() && start[j0] == used_before[j as int];
                            assert(transfer_of(start[j0]) == Some(transfers@[k]));
                        }
                    }
                }
            },
        }
    }
}

} // verus!
