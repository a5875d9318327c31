use energy_factory::claim_only_boosted_staking_rewards::{
    ClaimError, ClaimOnlyBoostedStakingRewardsModule, StakingRewards, TokenPayment,
};

const CALLER: u64 = 1;
const OTHER: u64 = 2;

fn farm() -> StakingRewards {
    StakingRewards::new(b"RIDE-123456".to_vec(), b"STKFARM-123456".to_vec(), 1_000)
}

#[test]
fn no_position_gets_nothing() {
    let mut f = farm();
    let p = f.claim_boosted_rewards(CALLER, None, 50).unwrap();
    assert_eq!(p.token_id, b"RIDE-123456".to_vec());
    assert_eq!(p.amount, 0);
    assert_eq!(f.reserve(), 1_000);
}

#[test]
fn claim_pays_from_reserve() {
    let mut f = farm();
    f.set_farm_position(CALLER, 10);
    let p = f.claim_boosted_rewards(CALLER, None, 50).unwrap();
    assert_eq!((p.token_id, p.nonce, p.amount), (b"RIDE-123456".to_vec(), 0, 50));
    assert_eq!(f.reserve(), 950);
    assert!(matches!(f.claim_boosted_rewards(CALLER, None, 951), Err(ClaimError::InsufficientReserve)));
    assert_eq!(f.reserve(), 950);
}

#[test]
fn claiming_for_another_needs_consent() {
    let mut f = farm();
    f.set_farm_position(OTHER, 10);
    assert!(matches!(
        f.claim_boosted_rewards(CALLER, Some(OTHER), 5),
        Err(ClaimError::ExternalClaimNotAllowed)
    ));
    f.set_external_claim_allowed(OTHER, true);
    assert_eq!(f.claim_boosted_rewards(CALLER, Some(OTHER), 5).unwrap().amount, 5);
    assert_eq!(f.reserve(), 995);
}

#[test]
fn boosted_payment_needs_the_farm_token() {
    let mut f = farm();
    let wrong = TokenPayment { token_id: b"OTHER-123456".to_vec(), nonce: 3, amount: 1 };
    assert!(matches!(f.claim_only_boosted_payment(&wrong, 5), Err(ClaimError::InvalidFarmToken)));
    let right = TokenPayment { token_id: b"STKFARM-123456".to_vec(), nonce: 3, amount: 1 };
    let p = f.claim_only_boosted_payment(&right, 5).unwrap();
    assert_eq!((p.token_id, p.nonce, p.amount), (b"RIDE-123456".to_vec(), 0, 5));
    assert_eq!(f.reserve(), 995);
}
