use vstd::prelude::*;
use std::collections::HashMap;

use crate::engine::bytes_equal;

verus! {

broadcast use vstd::std_specs::hash::group_hash_axioms;

/// A payment in a token: its identifier, nonce and amount.
#[derive(Debug)]
pub struct TokenPayment {
    pub token_id: Vec<u8>,
    pub nonce: u64,
    pub amount: u128,
}

/// Why a claim of boosted rewards was refused. A refused claim changes
/// nothing.
#[derive(Clone, Copy, Debug, PartialEq, Eq, Structural)]
pub enum ClaimError {
    /// The named user does not let others claim on their behalf.
    ExternalClaimNotAllowed,
    /// The payment is not in the farm token.
    InvalidFarmToken,
    /// The reward reserve holds less than the reward.
    InsufficientReserve,
}

/// The user a claim is for: the one named, or else the caller.
pub open spec fn claimant(caller: u64, opt_user: Option<u64>) -> u64 {
    match opt_user {
        Some(u) => u,
        None => caller,
    }
}

/// Whether `r` is a payment of `amount` in the fungible token `token`.
pub open spec fn pays(r: Result<TokenPayment, ClaimError>, token: Seq<u8>, amount: u128) -> bool {
    r matches Ok(p) && p.token_id@ == token && p.nonce == 0 && p.amount == amount
}

/// Claiming the boosted part of staking rewards, apart from the base rewards.
///
/// The boosted reward itself is worked out by the farm's weekly reward
/// splitting from the user's energy; the claim takes that amount, pays it out
/// of the reward reserve, and hands back the payment to send.
pub trait ClaimOnlyBoostedStakingRewardsModule: Sized {
    /// The rewards held in reserve.
    spec fn reward_reserve(&self) -> u128;

    /// The identifier of the reward token.
    spec fn reward_token(&self) -> Seq<u8>;

    /// The identifier of the farm token.
    spec fn farm_token(&self) -> Seq<u8>;

    /// Whether `user` lets others claim boosted rewards for them.
    spec fn external_claim_allowed(&self, user: u64) -> bool;

    /// Whether `user` holds a farm position.
    spec fn has_farm_position(&self, user: u64) -> bool;

    /// Everything but the reserve is as in `other`.
    spec fn same_apart_from_reserve(&self, other: &Self) -> bool;

    /// Claims `boosted_reward` for `opt_user`, or for `caller` when no user is
    /// named. Naming a user needs that user's consent. A user without a farm
    /// position gets a payment of zero and nothing changes; otherwise the
    /// reward leaves the reserve and is paid in the reward token.
    fn claim_boosted_rewards(&mut self, caller: u64, opt_user: Option<u64>, boosted_reward: u128) -> (r: Result<TokenPayment, ClaimError>)
        ensures
            opt_user matches Some(u) && !old(self).external_claim_allowed(u) ==> r == Err::<TokenPayment, ClaimError>(
                ClaimError::ExternalClaimNotAllowed,
            ) && *final(self) == *old(self),
            (opt_user matches Some(u) ==> old(self).external_claim_allowed(u)) ==> ({
                let user = claimant(caller, opt_user);
                &&& !old(self).has_farm_position(user) ==> *final(self) == *old(self) && pays(r, old(self).reward_token(), 0)
                &&& old(self).has_farm_position(user) && boosted_reward > old(self).reward_reserve() ==> r
                    == Err::<TokenPayment, ClaimError>(ClaimError::InsufficientReserve) && *final(self) == *old(self)
                &&& old(self).has_farm_position(user) && boosted_reward <= old(self).reward_reserve() ==> pays(r, old(self).reward_token(), boosted_reward)
                    && final(self).reward_reserve() == old(self).reward_reserve() - boosted_reward
                    && final(self).same_apart_from_reserve(old(self))
            }),
    ;

    /// Pays `boosted_reward`, worked out for the farm position in `payment`,
    /// out of the reserve in the reward token; `payment` must be in the farm
    /// token.
    fn claim_only_boosted_payment(&mut self, payment: &TokenPayment, boosted_reward: u128) -> (r: Result<TokenPayment, ClaimError>)
        ensures
            payment.token_id@ != old(self).farm_token() ==> r == Err::<TokenPayment, ClaimError>(ClaimError::InvalidFarmToken)
                && *final(self) == *old(self),
            payment.token_id@ == old(self).farm_token() && boosted_reward > old(self).reward_reserve() ==> r
                == Err::<TokenPayment, ClaimError>(ClaimError::InsufficientReserve) && *final(self) == *old(self),
            payment.token_id@ == old(self).farm_token() && boosted_reward <= old(self).reward_reserve() ==> pays(r, old(self).reward_token(), boosted_reward)
                && final(self).reward_reserve() == old(self).reward_reserve() - boosted_reward
                && final(self).same_apart_from_reserve(old(self)),
    ;
}

/// A copy of a byte string.
pub fn copy_bytes(v: &Vec<u8>) -> (r: Vec<u8>)
    ensures
        r@ == v@,
{
    let mut r: Vec<u8> = Vec::new();
    let mut i: usize = 0;
    while i < v.len()
        invariant
            0 <= i <= v@.len(),
            r@ == v@.take(i as int),
        decreases v@.len() - i,
    {
        r.push(v[i]);
        i += 1;
        assert(r@ =~= v@.take(i as int));
    }
    assert(v@.take(v@.len() as int) =~= v@);
    r
}

/// The staking farm's state that boosted claims read and change.
pub struct StakingRewards {
    reward_token_id: Vec<u8>,
    farm_token_id: Vec<u8>,
    reserve: u128,
    external_claims: HashMap<u64, bool>,
    farm_positions: HashMap<u64, u128>,
}

impl StakingRewards {
    /// A farm with the given tokens and reserve, no positions, and no user
    /// letting others claim for them.
    pub fn new(reward_token_id: Vec<u8>, farm_token_id: Vec<u8>, reserve: u128) -> (r: Self)
        ensures
            r.reward_token() == reward_token_id@,
            r.farm_token() == farm_token_id@,
            r.reward_reserve() == reserve,
            forall|u: u64| !#[trigger] r.has_farm_position(u) && !r.external_claim_allowed(u),
    {
        StakingRewards {
            reward_token_id,
            farm_token_id,
            reserve,
            external_claims: HashMap::new(),
            farm_positions: HashMap::new(),
        }
    }

    /// Lets others claim for `user`, or stops them.
    pub fn set_external_claim_allowed(&mut self, user: u64, allowed: bool)
        ensures
            final(self).external_claim_allowed(user) == allowed,
            final(self).reward_reserve() == old(self).reward_reserve(),
            final(self).reward_token() == old(self).reward_token(),
            final(self).farm_token() == old(self).farm_token(),
            forall|u: u64| u != user ==> #[trigger] final(self).external_claim_allowed(u) == old(self).external_claim_allowed(u),
            forall|u: u64| #[trigger] final(self).has_farm_position(u) == old(self).has_farm_position(u),
    {
        self.external_claims.insert(user, allowed);
    }

    /// Records the total farm position of `user`.
    pub fn set_farm_position(&mut self, user: u64, amount: u128)
        ensures
            final(self).has_farm_position(user),
            final(self).reward_reserve() == old(self).reward_reserve(),
            final(self).reward_token() == old(self).reward_token(),
            final(self).farm_token() == old(self).farm_token(),
            forall|u: u64| u != user ==> #[trigger] final(self).has_farm_position(u) == old(self).has_farm_position(u),
            forall|u: u64| #[trigger] final(self).external_claim_allowed(u) == old(self).external_claim_allowed(u),
    {
        self.farm_positions.insert(user, amount);
    }

    /// The rewards held in reserve.
    pub fn reserve(&self) -> (r: u128)
        ensures
            r == self.reward_reserve(),
    {
        self.reserve
    }
}

impl ClaimOnlyBoostedStakingRewardsModule for StakingRewards {
    closed spec fn reward_reserve(&self) -> u128 {
        self.reserve
    }

    closed spec fn reward_token(&self) -> Seq<u8> {
        self.reward_token_id@
    }

    closed spec fn farm_token(&self) -> Seq<u8> {
        self.farm_token_id@
    }

    closed spec fn external_claim_allowed(&self, user: u64) -> bool {
        self.external_claims@.contains_key(user) && self.external_claims@[user]
    }

    closed spec fn has_farm_position(&self, user: u64) -> bool {
        self.farm_positions@.contains_key(user)
    }

    closed spec fn same_apart_from_reserve(&self, other: &Self) -> bool {
        &&& self.reward_token_id@ == other.reward_token_id@
        &&& self.farm_token_id@ == other.farm_token_id@
        &&& self.external_claims@ == other.external_claims@
        &&& self.farm_positions@ == other.farm_positions@
    }

    fn claim_boosted_rewards(&mut self, caller: u64, opt_user: Option<u64>, boosted_reward: u128) -> (r: Result<TokenPayment, ClaimError>) {
        let user = match opt_user {
            Some(u) => {
                let allowed = match self.external_claims.get(&u) {
                    Some(a) => *a,
                    None => false,
                };
                if !allowed {
                    return Err(ClaimError::ExternalClaimNotAllowed);
                }
                u
            },
            None => caller,
        };
        let reward_token_id = copy_bytes(&self.reward_token_id);
        if !self.farm_positions.contains_key(&user) {
            return Ok(TokenPayment { token_id: reward_token_id, nonce: 0, amount: 0 });
        }
        if boosted_reward > self.reserve {
            return Err(ClaimError::InsufficientReserve);
        }
        self.reserve = self.reserve - boosted_reward;
        Ok(TokenPayment { token_id: reward_token_id, nonce: 0, amount: boosted_reward })
    }

    fn claim_only_boosted_payment(&mut self, payment: &TokenPayment, boosted_reward: u128) -> (r: Result<TokenPayment, ClaimError>) {
        if !bytes_equal(&payment.token_id, &self.farm_token_id) {
            return Err(ClaimError::InvalidFarmToken);
        }
        if boosted_reward > self.reserve {
            return Err(ClaimError::InsufficientReserve);
        }
        self.reserve = self.reserve - boosted_reward;
        Ok(TokenPayment { token_id: copy_bytes(&self.reward_token_id), nonce: 0, amount: boosted_reward })
    }
}

} // verus!
