use vstd::prelude::*;
use crate::types::address::Address;
use crate::types::address_map::AddressMap;
use crate::types::edge::{Edge, EdgeDB};
use crate::types::safe::{trust_limit, Safe};
use crate::types::u256::U256;

verus! {

/// The accounts, the owner of each token, and the capacity edges that follow from
/// them.
#[derive(Debug)]
pub struct DB {
    safes: AddressMap<Safe>,
    token_owner: AddressMap<Address>,
    edges: EdgeDB,
}

/// Whether the map of accounts is well formed and so is every account in it.
pub open spec fn safes_wf(safes: AddressMap<Safe>) -> bool {
    &&& safes.wf()
    &&& forall|i: int| 0 <= i < safes.values().len() ==> (#[trigger] safes.values()[i]).wf()
}

/// The capacity of the edge on which `user` sends the token of `owner` to
/// `send_to`, where `user` holds `balance` of it and the owner lets `send_to`
/// receive it up to `percentage`: the whole balance where the receiver is an
/// organization or the owner of the token, and the trust limit otherwise. There is
/// no edge to oneself, at no percentage, to an account that is not known, or
/// without capacity.
pub open spec fn edge_to(
    safes: Map<Address, Safe>,
    user: Address,
    safe: Safe,
    token: Address,
    balance: U256,
    owner: Address,
    send_to: Address,
    percentage: u8,
) -> Option<Edge> {
    if percentage == 0 || user == send_to || !safes.contains_key(send_to) {
        None
    } else {
        let receiver = safes[send_to];
        let limit = if receiver.organization || owner == send_to {
            balance@
        } else {
            trust_limit(
                receiver.holds(receiver.token_address),
                receiver.holds(token),
                safe.holds(token),
                percentage as nat,
            )
        };
        if limit == 0 {
            None
        } else {
            Some(Edge { from: user, to: send_to, token: owner, capacity: U256::from_nat(limit) })
        }
    }
}

/// The edges on which `user` sends one token that it holds, to the first `n` of the
/// accounts that the owner of the token lets receive it, in the order of their
/// addresses.
pub open spec fn edges_of_token(
    safes: Map<Address, Safe>,
    user: Address,
    safe: Safe,
    token: Address,
    balance: U256,
    owner: Address,
    receivers: AddressMap<u8>,
    n: nat,
) -> Seq<Edge>
    decreases n,
{
    if n == 0 {
        Seq::empty()
    } else {
        let rest = edges_of_token(safes, user, safe, token, balance, owner, receivers, (n - 1) as nat);
        match edge_to(
            safes,
            user,
            safe,
            token,
            balance,
            owner,
            receivers.keys()[n - 1],
            receivers.values()[n - 1],
        ) {
            Some(e) => rest.push(e),
            None => rest,
        }
    }
}

/// The edges on which `user` sends the token at place `k` of what it holds: none
/// where it holds nothing of it or where the owner of the token is not known.
pub open spec fn edges_of_holding(
    safes: Map<Address, Safe>,
    token_owner: Map<Address, Address>,
    user: Address,
    safe: Safe,
    k: int,
) -> Seq<Edge> {
    let token = safe.balances.keys()[k];
    let balance = safe.balances.values()[k];
    if token_owner.contains_key(token) && balance@ != 0 && safes.contains_key(token_owner[token]) {
        let owner = token_owner[token];
        let receivers = safes[owner].limit_percentage;
        edges_of_token(
            safes,
            user,
            safe,
            token,
            balance,
            owner,
            receivers,
            receivers.keys().len(),
        )
    } else {
        Seq::empty()
    }
}

/// The edges on which `user` sends the first `n` of the tokens that it holds, in the
/// order of their addresses.
pub open spec fn edges_of_user(
    safes: Map<Address, Safe>,
    token_owner: Map<Address, Address>,
    user: Address,
    safe: Safe,
    n: nat,
) -> Seq<Edge>
    decreases n,
{
    if n == 0 {
        Seq::empty()
    } else {
        edges_of_user(safes, token_owner, user, safe, (n - 1) as nat) + edges_of_holding(
            safes,
            token_owner,
            user,
            safe,
            n - 1,
        )
    }
}

/// The capacity edges of the first `n` accounts, in the order of their addresses.
pub open spec fn edges_of_accounts(
    safes: AddressMap<Safe>,
    token_owner: Map<Address, Address>,
    n: nat,
) -> Seq<Edge>
    decreases n,
{
    if n == 0 {
        Seq::empty()
    } else {
        let safe = safes.values()[n - 1];
        edges_of_accounts(safes, token_owner, (n - 1) as nat) + edges_of_user(
            safes@,
            token_owner,
            safes.keys()[n - 1],
            safe,
            safe.balances.keys().len(),
        )
    }
}

/// The capacity edges of all accounts: for every account, every token of which it
/// holds something, and every account that the owner of the token lets receive it,
/// one edge, in the order of the addresses of the accounts, the tokens and the
/// receivers.
pub open spec fn capacity_edges(
    safes: AddressMap<Safe>,
    token_owner: Map<Address, Address>,
) -> Seq<Edge> {
    edges_of_accounts(safes, token_owner, safes.keys().len())
}

impl DB {
    /// The accounts.
    pub closed spec fn spec_safes(&self) -> AddressMap<Safe> {
        self.safes
    }

    /// The owner of each token.
    pub closed spec fn spec_token_owner(&self) -> AddressMap<Address> {
        self.token_owner
    }

    /// The capacity edges.
    pub closed spec fn spec_edges(&self) -> EdgeDB {
        self.edges
    }

    /// The maps and the accounts are well formed, and so are the capacity edges.
    pub open spec fn wf(&self) -> bool {
        &&& safes_wf(self.spec_safes())
        &&& self.spec_token_owner().wf()
        &&& self.spec_edges().wf()
    }

    /// The database of the given accounts, with the capacity edges that follow from
    /// them.
    pub fn new(safes: AddressMap<Safe>, token_owner: AddressMap<Address>) -> (db: DB)
        requires
            safes_wf(safes),
            token_owner.wf(),
        ensures
            db.wf(),
            db.spec_safes() == safes,
            db.spec_token_owner() == token_owner,
            db.spec_edges()@ == capacity_edges(safes, token_owner@),
    {
        let mut db = DB { safes, token_owner, edges: EdgeDB::new(Vec::new()) };
        db.compute_edges();
        db
    }

    /// The accounts.
    pub fn safes(&self) -> (r: &AddressMap<Safe>)
        ensures
            *r == self.spec_safes(),
    {
        &self.safes
    }

    /// The capacity edges.
    pub fn edges(&self) -> (r: &EdgeDB)
        ensures
            *r == self.spec_edges(),
    {
        &self.edges
    }

    /// The capacity edges, which the database gives away.
    pub fn into_edges(self) -> (r: EdgeDB)
        ensures
            r == self.spec_edges(),
    {
        self.edges
    }

    /// Adds to `out` the edges on which `user` sends one token that it holds.
    fn add_edges_of_token(
        &self,
        user: Address,
        safe: &Safe,
        token: Address,
        balance: U256,
        owner: Address,
        receivers: &AddressMap<u8>,
        out: &mut Vec<Edge>,
    )
        requires
            safes_wf(self.safes),
            safe.wf(),
            receivers.wf(),
            forall|i: int| 0 <= i < receivers.values().len() ==> (#[trigger] receivers.values()[i]) <= 100,
        ensures
            final(out)@ == old(out)@ + edges_of_token(
                self.safes@,
                user,
                *safe,
                token,
                balance,
                owner,
                *receivers,
                receivers.keys().len(),
            ),
    {
        let ghost start = out@;
        let mut i: usize = 0;
        assert(start + Seq::<Edge>::empty() =~= start);
        while i < receivers.len()
            invariant
                i <= receivers.keys().len(),
                safes_wf(self.safes),
                safe.wf(),
                receivers.wf(),
                forall|k: int| 0 <= k < receivers.values().len() ==> (#[trigger] receivers.values()[k]) <= 100,
                out@ == start + edges_of_token(
                    self.safes@,
                    user,
                    *safe,
                    token,
                    balance,
                    owner,
                    *receivers,
                    i as nat,
                ),
            decreases receivers.keys().len() - i,
        {
            let send_to = receivers.key_at(i);
            let percentage = *receivers.value_at(i);
            let ghost before = out@;
            let ghost rest = edges_of_token(
                self.safes@,
                user,
                *safe,
                token,
                balance,
                owner,
                *receivers,
                i as nat,
            );
            if percentage != 0 && user != send_to {
                match self.safes.get(send_to) {
                    Some(receiver_safe) => {
                        proof {
                            let at = self.safes.lemma_key_place(send_to);
                        }
                        let limit: U256 = if receiver_safe.organization || owner == send_to {
                            balance
                        } else {
                            safe.trust_transfer_limit(receiver_safe, percentage, &token)
                        };
                        if !limit.is_zero() {
                            proof {
                                U256::lemma_limbs(limit);
                                U256::lemma_from_nat(limit@);
                                U256::lemma_view_injective(limit, U256::from_nat(limit@));
                            }
                            out.push(Edge { from: user, to: send_to, token: owner, capacity: limit });
                            assert(out@ =~= start + rest.push(
                                Edge { from: user, to: send_to, token: owner, capacity: limit },
                            ));
                        }
                    },
                    None => {},
                }
            }
            i += 1;
        }
    }

    /// Adds to `out` the edges on which `user` sends what it holds.
    fn add_edges_of_user(&self, user: Address, safe: &Safe, out: &mut Vec<Edge>)
        requires
            safes_wf(self.safes),
            self.token_owner.wf(),
            safe.wf(),
        ensures
            final(out)@ == old(out)@ + edges_of_user(
                self.safes@,
                self.token_owner@,
                user,
                *safe,
                safe.balances.keys().len(),
            ),
    {
        let ghost start = out@;
        let mut k: usize = 0;
        assert(start + Seq::<Edge>::empty() =~= start);
        while k < safe.balances.len()
            invariant
                k <= safe.balances.keys().len(),
                safes_wf(self.safes),
                self.token_owner.wf(),
                safe.wf(),
                out@ == start + edges_of_user(self.safes@, self.token_owner@, user, *safe, k as nat),
            decreases safe.balances.keys().len() - k,
        {
            let token = safe.balances.key_at(k);
            let balance = *safe.balances.value_at(k);
            let ghost before = out@;
            let ghost done = edges_of_user(self.safes@, self.token_owner@, user, *safe, k as nat);
            match self.token_owner.get(token) {
                Some(owner) => {
                    if !balance.is_zero() {
                        match self.safes.get(*owner) {
                            Some(owner_safe) => {
                                proof {
                                    let at = self.safes.lemma_key_place(*owner);
                                }
                                self.add_edges_of_token(
                                    user,
                                    safe,
                                    token,
                                    balance,
                                    *owner,
                                    &owner_safe.limit_percentage,
                                    out,
                                );
                            },
                            None => {},
                        }
                    }
                },
                None => {},
            }
            proof {
                let added = edges_of_holding(self.safes@, self.token_owner@, user, *safe, k as int);
                assert(out@ =~= start + (done + added));
            }
            k += 1;
        }
    }

    /// Works out the capacity edges of all accounts: for every account, every token
    /// of which it holds something, and every account that the owner of the token
    /// lets receive it, one edge.
    pub fn compute_edges(&mut self)
        requires
            safes_wf(old(self).spec_safes()),
            old(self).spec_token_owner().wf(),
        ensures
            final(self).wf(),
            final(self).spec_safes() == old(self).spec_safes(),
            final(self).spec_token_owner() == old(self).spec_token_owner(),
            final(self).spec_edges()@ == capacity_edges(
                old(self).spec_safes(),
                old(self).spec_token_owner()@,
            ),
    {
        let mut edges: Vec<Edge> = Vec::new();
        let mut i: usize = 0;
        while i < self.safes.len()
            invariant
                i <= self.safes.keys().len(),
                self.safes == old(self).safes,
                self.token_owner == old(self).token_owner,
                safes_wf(self.safes),
                self.token_owner.wf(),
                edges@ == edges_of_accounts(self.safes, self.token_owner@, i as nat),
            decreases self.safes.keys().len() - i,
        {
            let user = self.safes.key_at(i);
            let safe = self.safes.value_at(i);
            self.add_edges_of_user(user, safe, &mut edges);
            i += 1;
        }
        self.edges = EdgeDB::new(edges);
    }
}

/// The edge on which `user` sends its own token to `send_to`, which it lets receive
/// it up to `percentage`: with all that `user` holds of it where the receiver is an
/// organization, and with the trust limit otherwise. There is no edge to oneself, at
/// no percentage, to an account that is not known, or without capacity.
pub open spec fn own_token_edge(
    safes: Map<Address, Safe>,
    user: Address,
    safe: Safe,
    send_to: Address,
    percentage: u8,
) -> Option<Edge> {
    if percentage == 0 || user == send_to || !safes.contains_key(send_to) {
        None
    } else {
        let receiver = safes[send_to];
        let limit = if receiver.organization {
            safe.holds(safe.token_address)
        } else {
            trust_limit(
                receiver.holds(receiver.token_address),
                receiver.holds(safe.token_address),
                safe.holds(safe.token_address),
                percentage as nat,
            )
        };
        if limit == 0 {
            None
        } else {
            Some(Edge { from: user, to: send_to, token: user, capacity: U256::from_nat(limit) })
        }
    }
}

/// The edges on which `user` sends its own token to the first `n` of the accounts
/// that it lets receive it.
pub open spec fn own_token_edges(
    safes: Map<Address, Safe>,
    user: Address,
    safe: Safe,
    n: nat,
) -> Seq<Edge>
    decreases n,
{
    if n == 0 {
        Seq::empty()
    } else {
        let rest = own_token_edges(safes, user, safe, (n - 1) as nat);
        match own_token_edge(
            safes,
            user,
            safe,
            safe.limit_percentage.keys()[n - 1],
            safe.limit_percentage.values()[n - 1],
        ) {
            Some(e) => rest.push(e),
            None => rest,
        }
    }
}

/// The edge on which `user` sends a token of another account back to its owner:
/// with all that it holds of it. There is no such edge for a token whose owner is
/// not known, for its own token, or for a token of which it holds nothing.
pub open spec fn return_edge(
    token_owner: Map<Address, Address>,
    user: Address,
    token: Address,
    balance: U256,
) -> Option<Edge> {
    if token_owner.contains_key(token) && user != token_owner[token] && balance@ != 0 {
        Some(
            Edge {
                from: user,
                to: token_owner[token],
                token: token_owner[token],
                capacity: balance,
            },
        )
    } else {
        None
    }
}

/// The edges on which `user` sends the first `n` of the tokens that it holds back to
/// their owners.
pub open spec fn return_edges(
    token_owner: Map<Address, Address>,
    user: Address,
    safe: Safe,
    n: nat,
) -> Seq<Edge>
    decreases n,
{
    if n == 0 {
        Seq::empty()
    } else {
        let rest = return_edges(token_owner, user, safe, (n - 1) as nat);
        match return_edge(
            token_owner,
            user,
            safe.balances.keys()[n - 1],
            safe.balances.values()[n - 1],
        ) {
            Some(e) => rest.push(e),
            None => rest,
        }
    }
}

/// The edges of the first `n` accounts where each account sends its own token to
/// those it lets receive it, and any other token only back to its owner.
pub open spec fn direct_edges_of_accounts(
    safes: AddressMap<Safe>,
    token_owner: Map<Address, Address>,
    n: nat,
) -> Seq<Edge>
    decreases n,
{
    if n == 0 {
        Seq::empty()
    } else {
        let safe = safes.values()[n - 1];
        let user = safes.keys()[n - 1];
        direct_edges_of_accounts(safes, token_owner, (n - 1) as nat) + own_token_edges(
            safes@,
            user,
            safe,
            safe.limit_percentage.keys().len(),
        ) + return_edges(token_owner, user, safe, safe.balances.keys().len())
    }
}

impl DB {
    /// Adds to `out` the edges on which `user` sends its own token.
    fn add_own_token_edges(&self, user: Address, safe: &Safe, out: &mut Vec<Edge>)
        requires
            safes_wf(self.safes),
            safe.wf(),
        ensures
            final(out)@ == old(out)@ + own_token_edges(
                self.safes@,
                user,
                *safe,
                safe.limit_percentage.keys().len(),
            ),
    {
        let ghost start = out@;
        let mut i: usize = 0;
        assert(start + Seq::<Edge>::empty() =~= start);
        while i < safe.limit_percentage.len()
            invariant
                i <= safe.limit_percentage.keys().len(),
                safes_wf(self.safes),
                safe.wf(),
                out@ == start + own_token_edges(self.safes@, user, *safe, i as nat),
            decreases safe.limit_percentage.keys().len() - i,
        {
            let send_to = safe.limit_percentage.key_at(i);
            let percentage = *safe.limit_percentage.value_at(i);
            let ghost rest = own_token_edges(self.safes@, user, *safe, i as nat);
            if user != send_to && percentage != 0 {
                match self.safes.get(send_to) {
                    Some(receiver_safe) => {
                        proof {
                            let at = self.safes.lemma_key_place(send_to);
                        }
                        let limit: U256 = if receiver_safe.organization {
                            safe.balance(&safe.token_address)
                        } else {
                            safe.trust_transfer_limit(
                                receiver_safe,
                                percentage,
                                &safe.token_address,
                            )
                        };
                        if !limit.is_zero() {
                            proof {
                                U256::lemma_limbs(limit);
                                U256::lemma_from_nat(limit@);
                                U256::lemma_view_injective(limit, U256::from_nat(limit@));
                            }
                            out.push(Edge { from: user, to: send_to, token: user, capacity: limit });
                            assert(out@ =~= start + rest.push(
                                Edge { from: user, to: send_to, token: user, capacity: limit },
                            ));
                        }
                    },
                    None => {},
                }
            }
            i += 1;
        }
    }

    /// Adds to `out` the edges on which `user` sends tokens back to their owners.
    fn add_return_edges(&self, user: Address, safe: &Safe, out: &mut Vec<Edge>)
        requires
            self.token_owner.wf(),
            safe.wf(),
        ensures
            final(out)@ == old(out)@ + return_edges(
                self.token_owner@,
                user,
                *safe,
                safe.balances.keys().len(),
            ),
    {
        let ghost start = out@;
        let mut k: usize = 0;
        assert(start + Seq::<Edge>::empty() =~= start);
        while k < safe.balances.len()
            invariant
                k <= safe.balances.keys().len(),
                self.token_owner.wf(),
                safe.wf(),
                out@ == start + return_edges(self.token_owner@, user, *safe, k as nat),
            decreases safe.balances.keys().len() - k,
        {
            let token = safe.balances.key_at(k);
            let balance = *safe.balances.value_at(k);
            let ghost rest = return_edges(self.token_owner@, user, *safe, k as nat);
            match self.token_owner.get(token) {
                Some(owner) => {
                    if user != *owner && !balance.is_zero() {
                        out.push(Edge { from: user, to: *owner, token: *owner, capacity: balance });
                        assert(out@ =~= start + rest.push(
                            Edge { from: user, to: *owner, token: *owner, capacity: balance },
                        ));
                    }
                },
                None => {},
            }
            k += 1;
        }
    }

    /// Works out the capacity edges anew with fewer edges: every account sends its
    /// own token to those it lets receive it, and a token of another account only
    /// back to its owner.
    pub fn compute_edges_new(&mut self)
        requires
            safes_wf(old(self).spec_safes()),
            old(self).spec_token_owner().wf(),
        ensures
            final(self).wf(),
            final(self).spec_safes() == old(self).spec_safes(),
            final(self).spec_token_owner() == old(self).spec_token_owner(),
            final(self).spec_edges()@ == direct_edges_of_accounts(
                old(self).spec_safes(),
                old(self).spec_token_owner()@,
                old(self).spec_safes().keys().len(),
            ),
    {
        let mut edges: Vec<Edge> = Vec::new();
        let mut i: usize = 0;
        while i < self.safes.len()
            invariant
                i <= self.safes.keys().len(),
                self.safes == old(self).safes,
                self.token_owner == old(self).token_owner,
                safes_wf(self.safes),
                self.token_owner.wf(),
                edges@ == direct_edges_of_accounts(self.safes, self.token_owner@, i as nat),
            decreases self.safes.keys().len() - i,
        {
            let user = self.safes.key_at(i);
            let safe = self.safes.value_at(i);
            self.add_own_token_edges(user, safe, &mut edges);
            self.add_return_edges(user, safe, &mut edges);
            i += 1;
        }
        self.edges = EdgeDB::new(edges);
    }
}

} // verus!
