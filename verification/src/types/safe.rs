use vstd::prelude::*;
use crate::types::address::Address;
use crate::types::address_map::AddressMap;
use crate::types::u256::{modulus, U256};

verus! {

/// An account: the token it issues, what it holds of each token, whom it lets send
/// its token to, and up to which percentage, and whether it is an organization.
#[derive(Debug)]
pub struct Safe {
    /// The address of the token, or the address of the safe if the database does not
    /// use the distinction.
    pub token_address: Address,
    pub balances: AddressMap<U256>,
    /// Limit percentage in "send to" direction.
    pub limit_percentage: AddressMap<u8>,
    pub organization: bool,
}

impl Default for Safe {
    fn default() -> (r: Safe)
        ensures
            r.wf(),
            r.token_address@ == 0,
            r.balances@ == Map::<Address, U256>::empty(),
            r.limit_percentage@ == Map::<Address, u8>::empty(),
            !r.organization,
    {
        let r = Safe {
            token_address: Address::zero(),
            balances: AddressMap::new(),
            limit_percentage: AddressMap::new(),
            organization: false,
        };
        assert forall|i: int| 0 <= i < r.limit_percentage.values().len() implies (
        #[trigger] r.limit_percentage.values()[i]) <= 100 by {}
        r
    }
}

/// How much of a token a sender can send to a receiver that accepts the token up to
/// `percentage` percent of what the receiver holds of its own token. `own` is what
/// the receiver holds of its own token, `held` what it holds of the token already,
/// and `available` what the sender holds of the token. Nothing where the receiver
/// holds more of the token than the percentage allows; else the allowance less the
/// part of `held` that `percentage` does not cover, and no more than `available`.
pub open spec fn trust_limit(own: nat, held: nat, available: nat, percentage: nat) -> nat {
    let amount = (own * percentage) / 100;
    let scaled = (held * (100 - percentage)) / 100;
    if amount < held {
        0
    } else if amount - scaled <= available {
        (amount - scaled) as nat
    } else {
        available
    }
}

impl Safe {
    /// Both maps are well formed and no percentage is above 100.
    pub open spec fn wf(&self) -> bool {
        &&& self.balances.wf()
        &&& self.limit_percentage.wf()
        &&& forall|i: int|
            0 <= i < self.limit_percentage.values().len() ==> (
            #[trigger] self.limit_percentage.values()[i]) <= 100
    }

    /// What the account holds of a token, nothing where the token is not listed.
    pub open spec fn holds(&self, token: Address) -> nat {
        if self.balances@.contains_key(token) {
            self.balances@[token]@
        } else {
            0
        }
    }

    /// What the account holds of a token.
    pub fn balance(&self, token: &Address) -> (r: U256)
        requires
            self.balances.wf(),
        ensures
            r@ == self.holds(*token),
    {
        match self.balances.get(*token) {
            Some(balance) => *balance,
            None => U256::zero(),
        }
    }

    /// How much of a token this account can send to a receiver that is neither an
    /// organization nor the owner of the token, and that accepts the token up to
    /// `trust_percentage` percent of what it holds of its own token.
    pub fn trust_transfer_limit(
        &self,
        receiver: &Safe,
        trust_percentage: u8,
        token: &Address,
    ) -> (r: U256)
        requires
            self.balances.wf(),
            receiver.balances.wf(),
            trust_percentage <= 100,
        ensures
            r@ == trust_limit(
                receiver.holds(receiver.token_address),
                receiver.holds(*token),
                self.holds(*token),
                trust_percentage as nat,
            ),
    {
        let receiver_balance = receiver.balance(token);
        let amount = receiver.balance(&receiver.token_address).scale(trust_percentage as u64, 100);
        let scaled_receiver_balance = receiver_balance.scale((100 - trust_percentage) as u64, 100);
        if amount < receiver_balance {
            U256::zero()
        } else {
            proof {
                let held = receiver_balance@ as int;
                let q = (100 - trust_percentage) as int;
                assert((held * q) / 100 <= held) by (nonlinear_arith)
                    requires
                        0 <= q <= 100,
                        held >= 0,
                ;
            }
            let room = match amount.checked_sub(scaled_receiver_balance) {
                Some(room) => room,
                None => amount,
            };
            room.min(self.balance(token))
        }
    }
}

} // verus!
