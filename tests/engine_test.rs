use energy_factory::engine::{EarlyExit, LockConfig, LockEngine, Reduction, Release};
use energy_factory::error::LockError;
use energy_factory::fees::FeeNotice;
use energy_factory::penalty::{LockOption, LockOptionTable};
use energy_factory::positions::LockPosition;

const ASSET: &[u8] = b"MEX-123456";
const USER: u64 = 7;
const OTHER: u64 = 8;

fn table(options: &[(u64, u64)]) -> LockOptionTable {
    let v = options.iter().map(|&(e, b)| LockOption { lock_epochs: e, penalty_bps: b }).collect();
    LockOptionTable::new(v).unwrap()
}

fn engine(options: &[(u64, u64)], month: u64) -> LockEngine {
    LockEngine::new(LockConfig::new(ASSET.to_vec(), table(options), month, 7, 10, 0).unwrap())
}

fn lock(e: &mut LockEngine, user: u64, amount: u128, epochs: u64, now: u64) -> Result<u64, LockError> {
    e.lock(user, &ASSET.to_vec(), amount, epochs, now)
}

#[test]
fn energy_is_linear_in_remaining_epochs() {
    let mut e = engine(&[(360, 4_000), (720, 6_000)], 1);
    assert_eq!(lock(&mut e, USER, 1_000, 360, 5), Ok(1));
    assert_eq!(e.user_energy(USER, 5), Ok(1_000 * 360));
    assert_eq!(e.user_energy(USER, 5 + 100), Ok(1_000 * 260));
    assert_eq!(e.user_energy(USER, 5 + 360), Ok(0));
    assert_eq!(e.user_energy(USER, 5 + 500), Ok(0));
}

#[test]
fn locks_with_the_same_unlock_epoch_merge() {
    let mut e = engine(&[(360, 4_000), (720, 6_000)], 30);
    assert_eq!(lock(&mut e, USER, 300, 360, 2), Ok(1));
    assert_eq!(lock(&mut e, USER, 200, 360, 9), Ok(1));
    assert_eq!(e.position_count(USER), 1);
    assert_eq!(e.position(USER, 1), Ok(LockPosition { id: 1, amount: 500, unlock_epoch: 360 }));
    assert_eq!(e.user_energy(USER, 9), Ok(300 * (360 - 9) + 200 * (360 - 9)));
}

#[test]
fn users_are_kept_apart() {
    let mut e = engine(&[(360, 4_000)], 30);
    assert_eq!(lock(&mut e, USER, 300, 360, 0), Ok(1));
    assert_eq!(lock(&mut e, OTHER, 200, 360, 0), Ok(2));
    assert_eq!(e.position(OTHER, 1), Err(LockError::UnknownPosition));
    assert_eq!(e.user_energy(USER, 0), Ok(300 * 360));
    assert_eq!(e.user_energy(OTHER, 0), Ok(200 * 360));
}

#[test]
fn scenario_lock_then_early_exit_halfway() {
    let mut e = engine(&[(360, 4_000), (720, 6_000)], 30);
    assert_eq!(lock(&mut e, USER, 500, 360, 1), Ok(1));
    assert_eq!(e.user_energy(USER, 1), Ok(500 * 359));
    assert_eq!(e.user_energy(USER, 181), Ok(500 * 179));
    // 40% at full term, scaled by 179/360: 1988 basis points, 99.4 tokens, rounded down.
    let exit = e.unlock_early(USER, 1, 500, 181).unwrap();
    assert_eq!(exit, EarlyExit { released: 401, penalty: 99, claimable_epoch: 191 });
    assert_eq!(e.user_energy(USER, 181), Ok(0));
    assert_eq!(e.position_count(USER), 0);
}

#[test]
fn scenario_reduce_ten_years_to_one() {
    let year = 360;
    let mut e = engine(&[(year, 4_000), (2 * year, 6_000), (4 * year, 8_000), (10 * year, 9_000)], 30);
    assert_eq!(lock(&mut e, USER, 1_000_000, 10 * year, 0), Ok(1));
    let now = 30;
    let full_exit = e.config().options.penalty_amount(1_000_000, 10 * year - now, 0).unwrap();
    let r = e.reduce_lock_period(USER, 1, 1_000_000, year, now).unwrap();
    assert!(r.penalty < full_exit);
    assert_eq!(r.kept + r.penalty, 1_000_000);
    let p = e.position(USER, r.position_id.unwrap()).unwrap();
    assert_eq!(p.unlock_epoch, now + year);
    assert_eq!(p.amount, r.kept);
    // full rate at 3570 epochs left: 8000 + 2130 * 1000 / 2160 = 8986 bps;
    // reduction rate: (8986 - 4000) * 10000 / 6000 = 8310 bps.
    assert_eq!(full_exit, 898_600);
    assert_eq!(r.penalty, 831_000);
    assert_eq!(e.user_energy(USER, now), Ok(r.kept * year as u128));
}

#[test]
fn early_exit_conserves_tokens() {
    let mut e = engine(&[(360, 4_000), (720, 6_000)], 30);
    lock(&mut e, USER, 12_345, 720, 0).unwrap();
    for (amount, now) in [(1_000u128, 3u64), (2_345, 50), (9_000, 400)] {
        let x = e.unlock_early(USER, 1, amount, now).unwrap();
        assert_eq!(x.released + x.penalty, amount);
    }
    assert_eq!(e.position_count(USER), 0);
}

#[test]
fn early_exit_after_maturity_costs_nothing() {
    let mut e = engine(&[(360, 4_000)], 30);
    lock(&mut e, USER, 100, 360, 0).unwrap();
    let x = e.unlock_early(USER, 1, 100, 400).unwrap();
    assert_eq!(x, EarlyExit { released: 100, penalty: 0, claimable_epoch: 410 });
    assert_eq!(e.pending_fee(360), None);
}

#[test]
fn partial_unlock_keeps_the_rest() {
    let mut e = engine(&[(360, 4_000)], 30);
    lock(&mut e, USER, 100, 360, 0).unwrap();
    assert_eq!(e.unlock(USER, 1, 40, 360), Ok(Release { amount: 40, claimable_epoch: 360 }));
    assert_eq!(e.position(USER, 1), Ok(LockPosition { id: 1, amount: 60, unlock_epoch: 360 }));
    assert_eq!(e.user_energy(USER, 360), Ok(0));
}

#[test]
fn error_variants() {
    let mut e = engine(&[(360, 4_000), (720, 6_000)], 30);
    assert_eq!(lock(&mut e, USER, 0, 360, 0), Err(LockError::ZeroAmount));
    assert_eq!(lock(&mut e, USER, 100, 360, 5), Ok(1));
    assert_eq!(lock(&mut e, USER, 100, 360, 4), Err(LockError::StaleEpoch));
    assert_eq!(e.user_energy(USER, 4), Err(LockError::StaleEpoch));
    assert_eq!(e.unlock_early(USER, 9, 10, 5), Err(LockError::UnknownPosition));
    assert_eq!(e.unlock_early(USER, 1, 101, 5), Err(LockError::InsufficientBalance));
    assert_eq!(e.unlock(USER, 1, 100, 5), Err(LockError::NotYetMature));
    assert_eq!(e.reduce_lock_period(USER, 1, 100, 720, 5), Err(LockError::MustShortenPeriod));
    assert_eq!(e.reduce_lock_period(USER, 1, 100, 30, 5), Err(LockError::InvalidLockChoice));
    assert_eq!(e.extend_lock_period(USER, 1, 100, 360, 5), Err(LockError::MustLengthenPeriod));
    assert_eq!(lock(&mut e, USER, u128::MAX, 360, 5), Err(LockError::Overflow));
    // refusals leave everything as it was
    assert_eq!(e.position(USER, 1), Ok(LockPosition { id: 1, amount: 100, unlock_epoch: 360 }));
    assert_eq!(e.user_energy(USER, 5), Ok(100 * 355));
}

#[test]
fn reduce_merges_into_an_existing_position() {
    let mut e = engine(&[(360, 4_000), (720, 6_000)], 30);
    assert_eq!(lock(&mut e, USER, 1_000, 360, 0), Ok(1));
    assert_eq!(lock(&mut e, USER, 1_000, 720, 0), Ok(2));
    let r = e.reduce_lock_period(USER, 2, 1_000, 360, 0).unwrap();
    assert_eq!(r, Reduction { position_id: Some(1), kept: 667, penalty: 333 });
    assert_eq!(e.position(USER, 1), Ok(LockPosition { id: 1, amount: 1_667, unlock_epoch: 360 }));
    assert_eq!(e.position_count(USER), 1);
    assert_eq!(e.user_energy(USER, 0), Ok(1_667 * 360));
}

#[test]
fn penalties_of_one_week_batch_together() {
    let mut e = engine(&[(360, 4_000), (720, 6_000)], 30);
    lock(&mut e, USER, 10_000, 360, 0).unwrap();
    lock(&mut e, OTHER, 10_000, 360, 0).unwrap();
    let a = e.unlock_early(USER, 1, 5_000, 1).unwrap().penalty;
    let b = e.unlock_early(OTHER, 2, 5_000, 6).unwrap().penalty;
    assert_eq!(e.pending_fee(360).unwrap().amount, a + b);
    assert_eq!(e.take_fee_notices(), Vec::<FeeNotice>::new());
    // the next week flushes the batch once
    let c = e.unlock_early(USER, 1, 5_000, 7).unwrap().penalty;
    let d = e.unlock_early(OTHER, 2, 5_000, 8).unwrap().penalty;
    assert_eq!(e.take_fee_notices(), vec![FeeNotice { unlock_epoch: 360, amount: a + b }]);
    assert_eq!(e.pending_fee(360).unwrap().amount, c + d);
}

#[test]
fn sweep_flushes_last_weeks_fees() {
    let mut e = engine(&[(360, 4_000), (720, 6_000)], 30);
    lock(&mut e, USER, 10_000, 360, 0).unwrap();
    lock(&mut e, USER, 10_000, 720, 0).unwrap();
    let a = e.unlock_early(USER, 1, 1_000, 2).unwrap().penalty;
    let b = e.unlock_early(USER, 2, 1_000, 9).unwrap().penalty;
    assert_eq!(e.sweep_fees(8), Err(LockError::StaleEpoch));
    assert_eq!(e.sweep_fees(10), Ok(()));
    assert_eq!(e.take_fee_notices(), vec![FeeNotice { unlock_epoch: 360, amount: a }]);
    assert_eq!(e.pending_fee(360), None);
    assert_eq!(e.pending_fee(720).unwrap().amount, b);
    assert_eq!(e.sweep_fees(14), Ok(()));
    assert_eq!(e.take_fee_notices(), vec![FeeNotice { unlock_epoch: 720, amount: b }]);
    assert_eq!(e.user_energy(USER, 14), Ok(9_000 * (360 - 14) + 9_000 * (720 - 14)));
}
