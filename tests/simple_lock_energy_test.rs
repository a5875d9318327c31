use energy_factory::engine::{LockConfig, LockEngine, Reduction, Release};
use energy_factory::error::LockError;
use energy_factory::fees::FeeNotice;
use energy_factory::penalty::{LockOption, LockOptionTable};
use energy_factory::positions::LockPosition;

const EPOCHS_IN_YEAR: u64 = 360;
const EPOCHS_IN_WEEK: u64 = 7;
const EPOCHS_IN_MONTH: u64 = 30;
const USER_BALANCE: u128 = 1_000_000_000_000_000_000;
const BASE_ASSET_TOKEN_ID: &[u8] = b"MEX-123456";
const LOCK_OPTIONS: [u64; 3] = [EPOCHS_IN_YEAR, 2 * EPOCHS_IN_YEAR, 4 * EPOCHS_IN_YEAR];
const PENALTY_PERCENTAGES: [u64; 3] = [4_000, 6_000, 8_000];
const DEFAULT_UNBOND_EPOCHS: u64 = 10;
const FIRST_USER: u64 = 1;

fn to_start_of_month(epoch: u64) -> u64 {
    epoch - epoch % EPOCHS_IN_MONTH
}

fn setup() -> LockEngine {
    let options = (0..3)
        .map(|i| LockOption { lock_epochs: LOCK_OPTIONS[i], penalty_bps: PENALTY_PERCENTAGES[i] })
        .collect();
    let table = LockOptionTable::new(options).unwrap();
    let config = LockConfig::new(
        BASE_ASSET_TOKEN_ID.to_vec(),
        table,
        EPOCHS_IN_MONTH,
        EPOCHS_IN_WEEK,
        DEFAULT_UNBOND_EPOCHS,
        0,
    )
    .unwrap();
    LockEngine::new(config)
}

fn lock(setup: &mut LockEngine, amount: u128, lock_epochs: u64, epoch: u64) -> Result<u64, LockError> {
    setup.lock(FIRST_USER, &BASE_ASSET_TOKEN_ID.to_vec(), amount, lock_epochs, epoch)
}

fn get_penalty_amount(setup: &LockEngine, amount: u128, prev_remaining: u64, new_remaining: u64) -> u128 {
    setup.config().options.penalty_amount(amount, prev_remaining, new_remaining).unwrap()
}

#[test]
fn init_test() {
    let setup = setup();
    assert_eq!(setup.position_count(FIRST_USER), 0);
}

#[test]
fn try_lock() {
    let mut setup = setup();

    // wrong token
    assert_eq!(
        setup.lock(FIRST_USER, &b"FAKETOKEN-123456".to_vec(), 1_000, LOCK_OPTIONS[0], 0),
        Err(LockError::InvalidAsset)
    );

    // invalid lock option
    assert_eq!(lock(&mut setup, USER_BALANCE, 42, 0), Err(LockError::InvalidLockChoice));
}

#[test]
fn lock_ok() {
    let mut setup = setup();
    let half_balance = USER_BALANCE / 2;

    let mut current_epoch = 1;
    assert_eq!(lock(&mut setup, half_balance, LOCK_OPTIONS[0], current_epoch), Ok(1));

    let first_unlock_epoch = to_start_of_month(current_epoch + LOCK_OPTIONS[0]);
    assert_eq!(
        setup.position(FIRST_USER, 1),
        Ok(LockPosition { id: 1, amount: half_balance, unlock_epoch: first_unlock_epoch })
    );

    let mut expected_user_energy = half_balance * (first_unlock_epoch - current_epoch) as u128;
    let mut actual_user_energy = setup.user_energy(FIRST_USER, current_epoch).unwrap();
    assert_eq!(expected_user_energy, actual_user_energy);

    // check energy after half a year
    let half_year_epochs = EPOCHS_IN_YEAR / 2;
    current_epoch += half_year_epochs;

    expected_user_energy -= half_balance * half_year_epochs as u128;
    actual_user_energy = setup.user_energy(FIRST_USER, current_epoch).unwrap();
    assert_eq!(expected_user_energy, actual_user_energy);

    // lock more tokens
    assert_eq!(lock(&mut setup, half_balance, LOCK_OPTIONS[0], current_epoch), Ok(2));

    let second_unlock_epoch = to_start_of_month(current_epoch + LOCK_OPTIONS[0]);
    assert_eq!(
        setup.position(FIRST_USER, 2),
        Ok(LockPosition { id: 2, amount: half_balance, unlock_epoch: second_unlock_epoch })
    );

    expected_user_energy += half_balance * (second_unlock_epoch - current_epoch) as u128;
    actual_user_energy = setup.user_energy(FIRST_USER, current_epoch).unwrap();
    assert_eq!(expected_user_energy, actual_user_energy);

    // try unlock before deadline
    assert_eq!(
        setup.unlock(FIRST_USER, 1, half_balance, current_epoch),
        Err(LockError::NotYetMature)
    );

    // unlock first tokens
    current_epoch = 1 + LOCK_OPTIONS[0];
    assert_eq!(
        setup.unlock(FIRST_USER, 1, half_balance, current_epoch),
        Ok(Release { amount: half_balance, claimable_epoch: current_epoch })
    );
    assert_eq!(setup.position(FIRST_USER, 1), Err(LockError::UnknownPosition));
}

#[test]
fn unlock_early_test() {
    let mut setup = setup();
    let half_balance = USER_BALANCE / 2;

    let current_epoch = 0;
    lock(&mut setup, half_balance, LOCK_OPTIONS[0], current_epoch).unwrap();

    let penalty_percentage = 4_000u128; // 1 year = 4_000
    let expected_penalty_amount = half_balance * penalty_percentage / 10_000u128;
    let penalty_amount = get_penalty_amount(&setup, half_balance, LOCK_OPTIONS[0], 0);
    assert_eq!(penalty_amount, expected_penalty_amount);

    let exit = setup.unlock_early(FIRST_USER, 1, half_balance, current_epoch).unwrap();

    let received_token_amount = half_balance - penalty_amount;
    assert_eq!(exit.released, received_token_amount);
    assert_eq!(exit.penalty, penalty_amount);
    assert_eq!(exit.claimable_epoch, current_epoch + DEFAULT_UNBOND_EPOCHS);

    let expected_energy = 0;
    let actual_energy = setup.user_energy(FIRST_USER, current_epoch + DEFAULT_UNBOND_EPOCHS).unwrap();
    assert_eq!(actual_energy, expected_energy);
}

#[test]
fn multiple_early_unlocks_same_week_test() {
    let mut setup = setup();
    let half_balance = USER_BALANCE / 2;
    let sixth_balance = half_balance / 3;

    let current_epoch = 0;
    lock(&mut setup, half_balance, LOCK_OPTIONS[0], current_epoch).unwrap();

    let penalty_percentage = 4_000u128; // 1 year = 4_000
    let expected_penalty_amount = sixth_balance * penalty_percentage / 10_000u128;
    let mut penalty_amount = get_penalty_amount(&setup, sixth_balance, LOCK_OPTIONS[0], 0);
    assert_eq!(penalty_amount, expected_penalty_amount);

    // Unlock early 1/3 of the locked tokens
    let first = setup.unlock_early(FIRST_USER, 1, sixth_balance, current_epoch).unwrap();
    let received_token_amount = sixth_balance - penalty_amount;
    assert_eq!(first.released, received_token_amount);

    // After the first early unlock of the week, fees are held by the engine
    let pending = setup.pending_fee(360).unwrap();
    assert_eq!(pending.amount, expected_penalty_amount);
    assert_eq!(pending.week, 0);

    // Unlock early another 1/3 of the locked tokens, same week
    let second = setup.unlock_early(FIRST_USER, 1, sixth_balance, current_epoch).unwrap();
    penalty_amount = get_penalty_amount(&setup, sixth_balance, LOCK_OPTIONS[0], 0);
    assert_eq!(penalty_amount, expected_penalty_amount);
    let received_token_amount_2 = sixth_balance - penalty_amount;
    assert_eq!(second.released, received_token_amount_2);

    // Unlock early the last 1/3 of the locked tokens, same week
    let third = setup.unlock_early(FIRST_USER, 1, sixth_balance, current_epoch).unwrap();
    penalty_amount = get_penalty_amount(&setup, sixth_balance, LOCK_OPTIONS[0], 0);
    assert_eq!(penalty_amount, expected_penalty_amount);
    let received_token_amount_3 = sixth_balance - penalty_amount;
    assert_eq!(third.released, received_token_amount_3);
    assert_eq!(third.claimable_epoch, current_epoch + DEFAULT_UNBOND_EPOCHS);

    let expected_balance =
        received_token_amount_3 + received_token_amount_2 + received_token_amount + half_balance;
    assert_eq!(
        first.released + second.released + third.released + half_balance,
        expected_balance
    );

    // The engine keeps the fees until the end of the week
    // and does not send them to the fee collector yet
    let pending = setup.pending_fee(360).unwrap();
    assert_eq!(pending.amount, expected_penalty_amount * 3);
    assert_eq!(setup.take_fee_notices(), Vec::<FeeNotice>::new());
}

#[test]
fn multiple_early_unlocks_multiple_weeks_fee_collector_check_test() {
    let mut setup = setup();
    let half_balance = USER_BALANCE / 2;
    let quarter_balance = half_balance / 2;

    let mut current_epoch = 0;
    lock(&mut setup, half_balance, LOCK_OPTIONS[0], current_epoch).unwrap();

    let mut penalty_percentage = 4_000u128; // 1 year = 4_000
    let expected_penalty_amount = quarter_balance * penalty_percentage / 10_000u128;
    let mut penalty_amount = get_penalty_amount(&setup, quarter_balance, LOCK_OPTIONS[0], 0);
    assert_eq!(penalty_amount, expected_penalty_amount);

    // Unlock early half of the locked tokens
    let first = setup.unlock_early(FIRST_USER, 1, quarter_balance, current_epoch).unwrap();
    let received_token_amount = quarter_balance - penalty_amount;
    assert_eq!(first.released, received_token_amount);

    let pending = setup.pending_fee(360).unwrap();
    assert_eq!(pending.amount, expected_penalty_amount);

    current_epoch += EPOCHS_IN_WEEK;

    // Unlock early the other 1/4 of the locked tokens
    let second = setup.unlock_early(FIRST_USER, 1, quarter_balance, current_epoch).unwrap();

    penalty_percentage = 3_922u128; // (360 epochs - 7 epochs) / 360 * 4_000 = 3_922
    let expected_penalty_amount_2 = quarter_balance * penalty_percentage / 10_000u128;
    penalty_amount = get_penalty_amount(&setup, quarter_balance, LOCK_OPTIONS[0] - current_epoch, 0);
    assert_eq!(penalty_amount, expected_penalty_amount_2);

    let received_token_amount_2 = quarter_balance - penalty_amount;
    assert_eq!(second.released, received_token_amount_2);
    let expected_balance = received_token_amount_2 + received_token_amount + half_balance;
    assert_eq!(first.released + second.released + half_balance, expected_balance);

    // The first week's fees went to the fee collector when the second week began
    let notices = setup.take_fee_notices();
    assert_eq!(notices, vec![FeeNotice { unlock_epoch: 360, amount: expected_penalty_amount }]);
    let pending = setup.pending_fee(360).unwrap();
    assert_eq!(pending.amount, expected_penalty_amount_2);
    assert_eq!(pending.week, 1);
    assert_eq!(
        notices[0].amount + pending.amount,
        expected_penalty_amount + expected_penalty_amount_2
    );
}

#[test]
fn reduce_lock_period_test() {
    let mut setup = setup();
    let half_balance = USER_BALANCE / 2;

    let current_epoch = 0;
    lock(&mut setup, half_balance, LOCK_OPTIONS[1], current_epoch).unwrap();

    let penalty_percentage = 3_333u128; // (6_000 - 4_000) / (10_000 - 4_000) = 3_333
    let expected_penalty_amount = half_balance * penalty_percentage / 10_000u128;
    let penalty_amount = get_penalty_amount(&setup, half_balance, LOCK_OPTIONS[1], LOCK_OPTIONS[0]);
    assert_eq!(penalty_amount, expected_penalty_amount);

    let reduction = setup
        .reduce_lock_period(FIRST_USER, 1, half_balance, LOCK_OPTIONS[0], current_epoch)
        .unwrap();

    let expected_locked_token_balance = half_balance - penalty_amount;
    let expected_new_unlock_epoch = EPOCHS_IN_YEAR; // from 2 initial years - 1 year = 1 year
    assert_eq!(
        reduction,
        Reduction { position_id: Some(2), kept: expected_locked_token_balance, penalty: penalty_amount }
    );
    assert_eq!(
        setup.position(FIRST_USER, 2),
        Ok(LockPosition { id: 2, amount: expected_locked_token_balance, unlock_epoch: expected_new_unlock_epoch })
    );

    // The engine keeps the fee until the end of the week
    let pending = setup.pending_fee(720).unwrap();
    assert_eq!(pending.amount, penalty_amount);

    // at this point, the fee collector should not receive any tokens
    assert_eq!(setup.take_fee_notices(), Vec::<FeeNotice>::new());

    // check new energy amount
    let expected_energy =
        (expected_new_unlock_epoch - current_epoch) as u128 * expected_locked_token_balance;
    let actual_energy = setup.user_energy(FIRST_USER, current_epoch).unwrap();
    assert_eq!(actual_energy, expected_energy);
}

#[test]
fn extend_locking_period_test() {
    let mut setup = setup();
    let half_balance = USER_BALANCE / 2;

    let current_epoch = 1;
    lock(&mut setup, half_balance, LOCK_OPTIONS[0], current_epoch).unwrap();

    // extend to 3 years - unsupported option
    assert_eq!(
        setup.extend_lock_period(FIRST_USER, 1, half_balance, 3 * EPOCHS_IN_YEAR, current_epoch),
        Err(LockError::InvalidLockChoice)
    );

    // extend to 2 years
    assert_eq!(
        setup.extend_lock_period(FIRST_USER, 1, half_balance, LOCK_OPTIONS[1], current_epoch),
        Ok(2)
    );

    let new_unlock_epoch = to_start_of_month(current_epoch + LOCK_OPTIONS[1]);
    assert_eq!(
        setup.position(FIRST_USER, 2),
        Ok(LockPosition { id: 2, amount: half_balance, unlock_epoch: new_unlock_epoch })
    );

    let expected_energy = (new_unlock_epoch - current_epoch) as u128 * half_balance;
    let actual_energy = setup.user_energy(FIRST_USER, current_epoch).unwrap();
    assert_eq!(actual_energy, expected_energy);

    // try "extend" to 1 year
    assert_eq!(
        setup.extend_lock_period(FIRST_USER, 2, half_balance, LOCK_OPTIONS[0], current_epoch),
        Err(LockError::MustLengthenPeriod)
    );
}

#[test]
fn test_same_token_nonce() {
    let mut setup = setup();
    let half_balance = USER_BALANCE / 2;

    let mut current_epoch = 1;
    lock(&mut setup, half_balance, LOCK_OPTIONS[0], current_epoch).unwrap();

    // lock again after 10 epochs
    current_epoch += 10;
    assert_eq!(lock(&mut setup, half_balance, LOCK_OPTIONS[0], current_epoch), Ok(1));

    assert_eq!(
        setup.position(FIRST_USER, 1),
        Ok(LockPosition { id: 1, amount: USER_BALANCE, unlock_epoch: 360 })
    );
    assert_eq!(setup.position_count(FIRST_USER), 1);
}
