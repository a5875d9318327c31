use energy_factory::fees::{FeeNotice, PendingFee, WeeklyFeeBatcher};

#[test]
fn same_week_accumulates() {
    let mut split = WeeklyFeeBatcher::new();
    split.accumulate(360, 40, 3);
    split.accumulate(360, 60, 3);
    let mut whole = WeeklyFeeBatcher::new();
    whole.accumulate(360, 100, 3);
    assert_eq!(split.pending_for(360), whole.pending_for(360));
    assert_eq!(split.pending_for(360), Some(PendingFee { unlock_epoch: 360, week: 3, amount: 100 }));
    split.sweep(4);
    whole.sweep(4);
    assert_eq!(split.take_flushed(), whole.take_flushed());
}

#[test]
fn a_new_week_flushes_once() {
    let mut b = WeeklyFeeBatcher::new();
    b.accumulate(360, 40, 0);
    b.accumulate(390, 5, 0);
    b.accumulate(360, 10, 2);
    b.accumulate(360, 20, 2);
    assert_eq!(b.take_flushed(), vec![FeeNotice { unlock_epoch: 360, amount: 40 }]);
    assert_eq!(b.pending_for(360), Some(PendingFee { unlock_epoch: 360, week: 2, amount: 30 }));
    assert_eq!(b.take_flushed(), vec![]);
}

#[test]
fn sweep_flushes_stale_buckets_only() {
    let mut b = WeeklyFeeBatcher::new();
    b.accumulate(360, 1, 0);
    b.accumulate(390, 2, 1);
    b.accumulate(420, 3, 2);
    b.sweep(2);
    assert_eq!(
        b.take_flushed(),
        vec![FeeNotice { unlock_epoch: 360, amount: 1 }, FeeNotice { unlock_epoch: 390, amount: 2 }]
    );
    assert_eq!(b.pending_for(360), None);
    assert_eq!(b.pending_for(420), Some(PendingFee { unlock_epoch: 420, week: 2, amount: 3 }));
    assert!(!b.fits(420, u128::MAX, 2));
    assert!(b.fits(420, u128::MAX, 3));
}
