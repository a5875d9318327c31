use energy_factory::energy::EnergyEntry;
use energy_factory::error::LockError;
use energy_factory::positions::{LockPosition, PositionSet};

#[test]
fn create_merge_and_split() {
    let mut s = PositionSet::new();
    assert_eq!(s.create_or_merge(100, 360, 1), 1);
    assert_eq!(s.create_or_merge(50, 720, 2), 2);
    assert_eq!(s.create_or_merge(25, 360, 3), 1);
    assert_eq!(s.len(), 2);
    assert_eq!(s.read(1), Ok(LockPosition { id: 1, amount: 125, unlock_epoch: 360 }));
    assert_eq!(s.read(3), Err(LockError::UnknownPosition));
    assert!(s.can_merge(u128::MAX - 125, 360));
    assert!(!s.can_merge(u128::MAX - 124, 360));
    assert!(s.can_merge(u128::MAX, 390));

    let i = s.find_id(1).unwrap();
    assert_eq!(s.split_partial(i, 25), Some(1));
    assert_eq!(s.read(1), Ok(LockPosition { id: 1, amount: 100, unlock_epoch: 360 }));
    assert_eq!(s.split_partial(i, 100), None);
    assert_eq!(s.read(1), Err(LockError::UnknownPosition));
    assert_eq!(s.len(), 1);
    assert_eq!(s.find_unlock(720), Some(0));
    assert_eq!(s.find_unlock(360), None);
}

#[test]
fn decay_clamps_matured_positions() {
    let mut s = PositionSet::new();
    s.create_or_merge(10, 100, 1);
    s.create_or_merge(3, 50, 2);
    let mut e = EnergyEntry::new(20);
    e.add(10 * 80 + 3 * 30);
    assert_eq!(e.decayed(&s, 40), 10 * 60 + 3 * 10);
    e.decay_to(&s, 70);
    assert_eq!(e.amount(), 10 * 30);
    assert_eq!(e.last_update_epoch(), 70);
    e.decay_to(&s, 200);
    assert_eq!(e.amount(), 0);
    e.add(5);
    e.sub(5);
    assert_eq!(e.amount(), 0);
}
