use vstd::prelude::*;
use std::collections::HashMap;

use crate::energy::{
    EnergyEntry, contribution, energy_at, lemma_energy_linearity, lemma_energy_merged,
    lemma_energy_nonneg, lemma_energy_split,
};
use crate::error::LockError;
use crate::fees::{
    BatchView, FeeNotice, PendingFee, WeeklyFeeBatcher, accumulate_fits, accumulated, buckets_wf,
    index_of_bucket, lemma_accumulated_wf, lemma_current_wf, swept,
};
use crate::penalty::{LockOptionTable, is_option, max_epochs, options_wf, penalty_of};
use crate::positions::{
    LockPosition, PositionSet, ids_below, index_of_id, index_of_unlock, lemma_index_of_id,
    lemma_index_of_unlock, lemma_merged_wf, lemma_split_wf, lemma_unlocks_within, merge_fits,
    merged, merged_id, positions_wf, split, unlocks_within,
};

verus! {

broadcast use vstd::std_specs::hash::group_hash_axioms;

/// The epoch at which a position locked at `now` for `lock_epochs` unlocks:
/// the end of the lock, moved back to the start of its month.
pub open spec fn unlock_epoch_for(now: int, lock_epochs: int, epochs_per_month: int) -> int {
    (now + lock_epochs) - (now + lock_epochs) % epochs_per_month
}

/// The week that `epoch` falls in.
pub open spec fn week_of(epoch: int, epochs_per_week: int) -> int {
    epoch / epochs_per_week
}

/// The engine's configuration, read-only once the engine is built.
pub struct LockConfig {
    /// The identifier of the only asset that can be locked.
    pub base_asset: Vec<u8>,
    /// The supported lock durations and their penalties.
    pub options: LockOptionTable,
    /// Unlock epochs are moved back to a multiple of this.
    pub epochs_per_month: u64,
    /// The length of a fee-batching week.
    pub epochs_per_week: u64,
    /// The delay before tokens released by an early exit can be claimed.
    pub unbond_epochs: u64,
    /// The delay before tokens released at maturity can be claimed.
    pub maturity_unbond_epochs: u64,
}

impl LockConfig {
    /// Months and weeks are at least one epoch long, and every lock option
    /// lasts at least a month, so that a new position never unlocks at once.
    pub open spec fn wf(&self) -> bool {
        &&& self.options.wf()
        &&& self.epochs_per_month >= 1
        &&& self.epochs_per_week >= 1
        &&& self.options@[0].lock_epochs >= self.epochs_per_month
    }

    /// Checks the configuration; `None` when it is not well formed.
    pub fn new(
        base_asset: Vec<u8>,
        options: LockOptionTable,
        epochs_per_month: u64,
        epochs_per_week: u64,
        unbond_epochs: u64,
        maturity_unbond_epochs: u64,
    ) -> (r: Option<LockConfig>)
        requires
            options.wf(),
        ensures
            r is Some <==> (epochs_per_month >= 1 && epochs_per_week >= 1
                && options@[0].lock_epochs >= epochs_per_month),
            r matches Some(c) ==> c.wf() && c.base_asset@ == base_asset@ && c.options@ == options@
                && c.epochs_per_month == epochs_per_month && c.epochs_per_week == epochs_per_week
                && c.unbond_epochs == unbond_epochs && c.maturity_unbond_epochs == maturity_unbond_epochs,
    {
        if epochs_per_month == 0 || epochs_per_week == 0 || options.get(0).lock_epochs < epochs_per_month {
            return None;
        }
        Some(LockConfig { base_asset, options, epochs_per_month, epochs_per_week, unbond_epochs, maturity_unbond_epochs })
    }
}

/// Tokens released to a user, claimable from `claimable_epoch` on.
#[derive(Clone, Copy, Debug, PartialEq, Eq, Structural)]
pub struct Release {
    pub amount: u128,
    pub claimable_epoch: u64,
}

/// The outcome of an early exit: what the user gets back and what is
/// forfeited.
#[derive(Clone, Copy, Debug, PartialEq, Eq, Structural)]
pub struct EarlyExit {
    pub released: u128,
    pub penalty: u128,
    pub claimable_epoch: u64,
}

/// The outcome of a lock-period reduction: the position that holds what is
/// kept (none when nothing is), how much is kept, and the penalty.
#[derive(Clone, Copy, Debug, PartialEq, Eq, Structural)]
pub struct Reduction {
    pub position_id: Option<u64>,
    pub kept: u128,
    pub penalty: u128,
}

/// The epochs left until `p` unlocks, as of `now`.
pub open spec fn remaining(p: LockPosition, now: int) -> int {
    if p.unlock_epoch > now {
        p.unlock_epoch - now
    } else {
        0
    }
}

/// The part of `p` that an operation on `amount` of it acts on.
pub open spec fn part_of(p: LockPosition, amount: u128) -> LockPosition {
    LockPosition { amount, ..p }
}

struct Account {
    positions: PositionSet,
    energy: EnergyEntry,
}

/// An account's positions are well formed, below the next identifier, unlock
/// no later than the longest option from the engine's clock, and its energy
/// entry is correct as of an epoch no later than the clock.
spec fn account_wf(a: Account, next_id: u64, clock: u64, max: int) -> bool {
    &&& positions_wf(a.positions@)
    &&& ids_below(a.positions@, next_id as int)
    &&& a.energy.tracks(a.positions@)
    &&& a.energy.spec_last_update_epoch() <= clock
    &&& unlocks_within(a.positions@, clock + max)
}

proof fn lemma_account_wf_later(a: Account, n1: u64, c1: u64, n2: u64, c2: u64, max: int)
    requires
        account_wf(a, n1, c1, max),
        n1 <= n2,
        c1 <= c2,
    ensures
        account_wf(a, n2, c2, max),
{
    assert forall|i: int| 0 <= i < a.positions@.len() implies #[trigger] a.positions@[i].id < n2 by {
        assert(a.positions@[i].id < n1);
    }
    assert forall|i: int| 0 <= i < a.positions@.len() implies #[trigger] a.positions@[i].unlock_epoch
        <= c2 + max by {
        assert(a.positions@[i].unlock_epoch <= c1 + max);
    }
}

/// Taking `amount` from position `i` and locking `kept` until another epoch
/// `e`: the split leaves the position at `e`, if any, as it was.
proof fn lemma_split_keeps_other(s: Seq<LockPosition>, i: int, amount: int, e: u64)
    requires
        positions_wf(s),
        0 <= i < s.len(),
        0 < amount <= s[i].amount,
        e != s[i].unlock_epoch,
    ensures
        (index_of_unlock(split(s, i, amount), e) < 0) == (index_of_unlock(s, e) < 0),
        index_of_unlock(s, e) >= 0 ==> split(s, i, amount)[index_of_unlock(split(s, i, amount), e)]
            == s[index_of_unlock(s, e)],
{
    let t = split(s, i, amount);
    lemma_index_of_unlock(s, e);
    lemma_index_of_unlock(t, e);
    let j = index_of_unlock(s, e);
    let k = index_of_unlock(t, e);
    let removed = amount == s[i].amount;
    if j >= 0 {
        let j2 = if removed && j > i { j - 1 } else { j };
        assert(t[j2] == s[j]);
        assert(t[j2].unlock_epoch == e);
        let k2 = if removed && k >= i { k + 1 } else { k };
        assert(k2 != i);
        assert(t[k] == s[k2]);
    } else if k >= 0 {
        let k2 = if removed && k >= i { k + 1 } else { k };
        assert(t[k].unlock_epoch == s[k2].unlock_epoch);
    }
}

/// The lock engine: positions and energy per user, the weekly fee batcher, and
/// the latest epoch seen.
pub struct LockEngine {
    config: LockConfig,
    accounts: HashMap<u64, Account>,
    next_position_id: u64,
    clock: u64,
    fees: WeeklyFeeBatcher,
}

impl LockEngine {
    pub closed spec fn spec_config(&self) -> LockConfig {
        self.config
    }

    /// The latest epoch an operation was performed at.
    pub closed spec fn clock(&self) -> u64 {
        self.clock
    }

    /// The identifier the next new position receives.
    pub closed spec fn next_id(&self) -> u64 {
        self.next_position_id
    }

    /// The weekly fee batcher.
    pub closed spec fn fees(&self) -> BatchView {
        self.fees@
    }

    /// The live positions of `user`.
    pub closed spec fn positions_of(&self, user: u64) -> Seq<LockPosition> {
        if self.accounts@.contains_key(user) {
            self.accounts@[user].positions@
        } else {
            Seq::empty()
        }
    }

    /// The energy stored for `user`.
    pub closed spec fn stored_energy(&self, user: u64) -> int {
        if self.accounts@.contains_key(user) {
            self.accounts@[user].energy.spec_amount() as int
        } else {
            0
        }
    }

    /// The epoch the energy stored for `user` is correct as of.
    pub closed spec fn last_update(&self, user: u64) -> int {
        if self.accounts@.contains_key(user) {
            self.accounts@[user].energy.spec_last_update_epoch() as int
        } else {
            0
        }
    }

    pub closed spec fn wf(&self) -> bool {
        &&& self.config.wf()
        &&& self.next_position_id >= 1
        &&& buckets_wf(self.fees@.0, week_of(self.clock as int, self.config.epochs_per_week as int))
        &&& forall|u: u64| #[trigger] self.accounts@.contains_key(u) ==> account_wf(
            self.accounts@[u],
            self.next_position_id,
            self.clock,
            max_epochs(self.config.options@),
        )
    }

    /// Every user but `user` is as in `old`.
    pub open spec fn others_unchanged(&self, old: &LockEngine, user: u64) -> bool {
        forall|v: u64|
            v != user ==> #[trigger] self.positions_of(v) == old.positions_of(v) && self.stored_energy(v)
                == old.stored_energy(v) && self.last_update(v) == old.last_update(v)
    }

    /// The energy of `user` has been brought to `now` and matches the user's
    /// positions.
    pub open spec fn energy_current(&self, user: u64, now: u64) -> bool {
        &&& self.stored_energy(user) == energy_at(self.positions_of(user), now as int)
        &&& self.last_update(user) == now
    }

    /// The week of `epoch` under this engine's configuration.
    pub open spec fn week(&self, epoch: u64) -> u64 {
        week_of(epoch as int, self.spec_config().epochs_per_week as int) as u64
    }

    proof fn lemma_wf_facts(&self, user: u64)
        requires
            self.wf(),
        ensures
            positions_wf(self.positions_of(user)),
            ids_below(self.positions_of(user), self.next_id() as int),
            self.last_update(user) <= self.clock(),
            self.stored_energy(user) == energy_at(self.positions_of(user), self.last_update(user)),
            unlocks_within(self.positions_of(user), self.clock() + max_epochs(self.spec_config().options@)),
            options_wf(self.spec_config().options@),
            self.spec_config().wf(),
    {
        if self.accounts@.contains_key(user) {
            assert(account_wf(self.accounts@[user], self.next_position_id, self.clock, max_epochs(self.config.options@)));
        }
    }

    proof fn lemma_week_later(&self, now: u64)
        requires
            self.wf(),
            self.clock() <= now,
        ensures
            buckets_wf(self.fees().0, week_of(now as int, self.spec_config().epochs_per_week as int)),
            0 <= week_of(now as int, self.spec_config().epochs_per_week as int) <= u64::MAX,
    {
        vstd::arithmetic::div_mod::lemma_div_is_ordered(
            self.clock as int,
            now as int,
            self.config.epochs_per_week as int,
        );
        vstd::arithmetic::div_mod::lemma_div_is_ordered(0, now as int, self.config.epochs_per_week as int);
        vstd::arithmetic::div_mod::lemma_div_is_ordered_by_denominator(now as int, 1, self.config.epochs_per_week as int);
    }

    proof fn lemma_only_user_changed(&self, old: &LockEngine, user: u64, a: Account)
        requires
            self.accounts@ == old.accounts@.remove(user).insert(user, a),
        ensures
            self.others_unchanged(old, user),
    {
        assert forall|v: u64| v != user implies #[trigger] self.positions_of(v) == old.positions_of(v)
            && self.stored_energy(v) == old.stored_energy(v) && self.last_update(v) == old.last_update(v) by {
            assert(self.accounts@.contains_key(v) == old.accounts@.contains_key(v));
            if self.accounts@.contains_key(v) {
                assert(self.accounts@[v] == old.accounts@[v]);
            }
        }
    }

    /// A new engine with no positions, no pending fees, at epoch zero.
    pub fn new(config: LockConfig) -> (r: Self)
        requires
            config.wf(),
        ensures
            r.wf(),
            r.spec_config() == config,
            r.clock() == 0,
            r.next_id() == 1,
            r.fees().0 == Seq::<PendingFee>::empty(),
            r.fees().1 == Seq::<FeeNotice>::empty(),
            forall|u: u64| #[trigger] r.positions_of(u) == Seq::<LockPosition>::empty(),
    {
        LockEngine {
            config,
            accounts: HashMap::new(),
            next_position_id: 1,
            clock: 0,
            fees: WeeklyFeeBatcher::new(),
        }
    }

    /// The configuration the engine was built with.
    pub fn config(&self) -> (r: &LockConfig)
        ensures
            *r == self.spec_config(),
    {
        &self.config
    }

    /// Takes out `user`'s account, or a fresh one as of `now`.
    fn take_account(&mut self, user: u64, now: u64) -> (a: Account)
        requires
            old(self).wf(),
            old(self).clock() <= now,
        ensures
            a.positions@ == old(self).positions_of(user),
            a.energy.tracks(a.positions@),
            a.energy.spec_last_update_epoch() <= now,
            a.energy.spec_amount() == old(self).stored_energy(user),
            final(self).accounts@ == old(self).accounts@.remove(user),
            final(self).config == old(self).config,
            final(self).clock == old(self).clock,
            final(self).next_position_id == old(self).next_position_id,
            final(self).fees == old(self).fees,
    {
        proof {
            self.lemma_wf_facts(user);
        }
        match self.accounts.remove(&user) {
            Some(a) => a,
            None => Account { positions: PositionSet::new(), energy: EnergyEntry::new(now) },
        }
    }

    /// Puts back `user`'s account, moves the clock to `now` and the next
    /// identifier to `next_id`.
    fn put_account(&mut self, user: u64, a: Account, now: u64, next_id: u64)
        requires
            old(self).config.wf(),
            1 <= old(self).next_position_id <= next_id,
            old(self).clock <= now,
            buckets_wf(old(self).fees@.0, week_of(now as int, old(self).config.epochs_per_week as int)),
            forall|u: u64| #[trigger] old(self).accounts@.contains_key(u) ==> account_wf(
                old(self).accounts@[u],
                old(self).next_position_id,
                old(self).clock,
                max_epochs(old(self).config.options@),
            ),
            account_wf(a, next_id, now, max_epochs(old(self).config.options@)),
        ensures
            final(self).wf(),
            final(self).accounts@ == old(self).accounts@.insert(user, a),
            final(self).positions_of(user) == a.positions@,
            final(self).stored_energy(user) == a.energy.spec_amount(),
            final(self).last_update(user) == a.energy.spec_last_update_epoch(),
            final(self).config == old(self).config,
            final(self).clock == now,
            final(self).next_position_id == next_id,
            final(self).fees == old(self).fees,
    {
        let ghost max = max_epochs(self.config.options@);
        let ghost n0 = self.next_position_id;
        proof {
            assert forall|u: u64| #[trigger] self.accounts@.contains_key(u) implies account_wf(
                self.accounts@[u],
                next_id,
                now,
                max,
            ) by {
                lemma_account_wf_later(self.accounts@[u], n0, self.clock, next_id, now, max);
            }
        }
        self.accounts.insert(user, a);
        self.clock = now;
        self.next_position_id = next_id;
    }

    /// Finds position `id` of `user`: its index, the position, and the
    /// user's energy as of `now`.
    fn find_position(&self, user: u64, id: u64, now: u64) -> (r: Option<(usize, LockPosition, u128)>)
        requires
            self.wf(),
            self.clock() <= now,
        ensures
            index_of_id(self.positions_of(user), id) < 0 ==> r is None,
            index_of_id(self.positions_of(user), id) >= 0 ==> r == Some(
                (
                    index_of_id(self.positions_of(user), id) as usize,
                    self.positions_of(user)[index_of_id(self.positions_of(user), id)],
                    energy_at(self.positions_of(user), now as int) as u128,
                ),
            ),
            r matches Some(t) ==> t.0 < self.positions_of(user).len() && t.1 == self.positions_of(user)[t.0 as int]
                && t.1.id == id && t.2 == energy_at(self.positions_of(user), now as int),
    {
        proof {
            self.lemma_wf_facts(user);
            lemma_index_of_id(self.positions_of(user), id);
            lemma_energy_nonneg(self.positions_of(user), now as int);
        }
        match self.accounts.get(&user) {
            Some(a) => match a.positions.find_id(id) {
                Some(i) => Some((i, a.positions.get(i), a.energy.decayed(&a.positions, now))),
                None => None,
            },
            None => None,
        }
    }

    /// The energy of `user` as of `now`, computed from the stored value.
    pub fn user_energy(&self, user: u64, now: u64) -> (r: Result<u128, LockError>)
        requires
            self.wf(),
        ensures
            now < self.clock() ==> r == Err::<u128, LockError>(LockError::StaleEpoch),
            now >= self.clock() ==> r == Ok::<u128, LockError>(energy_at(self.positions_of(user), now as int) as u128),
    {
        if now < self.clock {
            return Err(LockError::StaleEpoch);
        }
        proof {
            self.lemma_wf_facts(user);
            lemma_energy_nonneg(self.positions_of(user), now as int);
        }
        match self.accounts.get(&user) {
            Some(a) => Ok(a.energy.decayed(&a.positions, now)),
            None => Ok(0),
        }
    }

    /// The position `id` of `user`; `UnknownPosition` when the user holds none
    /// with that identifier.
    pub fn position(&self, user: u64, id: u64) -> (r: Result<LockPosition, LockError>)
        requires
            self.wf(),
        ensures
            index_of_id(self.positions_of(user), id) < 0 ==> r == Err::<LockPosition, LockError>(LockError::UnknownPosition),
            index_of_id(self.positions_of(user), id) >= 0 ==> r == Ok::<LockPosition, LockError>(
                self.positions_of(user)[index_of_id(self.positions_of(user), id)],
            ),
    {
        match self.accounts.get(&user) {
            Some(a) => a.positions.read(id),
            None => Err(LockError::UnknownPosition),
        }
    }

    /// The number of live positions of `user`.
    pub fn position_count(&self, user: u64) -> (r: usize)
        ensures
            r == self.positions_of(user).len(),
    {
        match self.accounts.get(&user) {
            Some(a) => a.positions.len(),
            None => 0,
        }
    }

    /// The fees pending for bucket `unlock_epoch`, if any.
    pub fn pending_fee(&self, unlock_epoch: u64) -> (r: Option<PendingFee>)
        ensures
            index_of_bucket(self.fees().0, unlock_epoch) < 0 ==> r is None,
            index_of_bucket(self.fees().0, unlock_epoch) >= 0 ==> r == Some(
                self.fees().0[index_of_bucket(self.fees().0, unlock_epoch)],
            ),
    {
        self.fees.pending_for(unlock_epoch)
    }

    /// Hands over the fee notices flushed so far, for the fee collector.
    pub fn take_fee_notices(&mut self) -> (r: Vec<FeeNotice>)
        requires
            old(self).wf(),
        ensures
            final(self).wf(),
            r@ == old(self).fees().1,
            final(self).fees().0 == old(self).fees().0,
            final(self).fees().1 == Seq::<FeeNotice>::empty(),
            final(self).clock() == old(self).clock(),
            final(self).next_id() == old(self).next_id(),
            final(self).spec_config() == old(self).spec_config(),
            forall|u: u64| #[trigger] final(self).positions_of(u) == old(self).positions_of(u)
                && final(self).stored_energy(u) == old(self).stored_energy(u)
                && final(self).last_update(u) == old(self).last_update(u),
    {
        self.fees.take_flushed()
    }

    /// Flushes, at epoch `now`, every fee bucket from before the current
    /// week, as an end-of-week sweep.
    pub fn sweep_fees(&mut self, now: u64) -> (r: Result<(), LockError>)
        requires
            old(self).wf(),
        ensures
            final(self).wf(),
            now < old(self).clock() ==> r == Err::<(), LockError>(LockError::StaleEpoch) && *final(self) == *old(self),
            now >= old(self).clock() ==> r is Ok && final(self).fees() == swept(old(self).fees(), old(self).week(now) as int)
                && final(self).clock() == now && final(self).next_id() == old(self).next_id()
                && final(self).spec_config() == old(self).spec_config(),
            forall|u: u64| #[trigger] final(self).positions_of(u) == old(self).positions_of(u)
                && final(self).stored_energy(u) == old(self).stored_energy(u)
                && final(self).last_update(u) == old(self).last_update(u),
    {
        if now < self.clock {
            return Err(LockError::StaleEpoch);
        }
        let week = now / self.config.epochs_per_week;
        proof {
            self.lemma_week_later(now);
            lemma_current_wf(self.fees@.0, week as int, week as int);
            let max = max_epochs(self.config.options@);
            assert forall|u: u64| #[trigger] self.accounts@.contains_key(u) implies account_wf(
                self.accounts@[u],
                self.next_position_id,
                now,
                max,
            ) by {
                lemma_account_wf_later(self.accounts@[u], self.next_position_id, self.clock, self.next_position_id, now, max);
            }
        }
        self.fees.sweep(week);
        self.clock = now;
        Ok(())
    }

    /// Why `lock` refuses these arguments, if it does.
    pub open spec fn lock_refusal(&self, user: u64, asset: Seq<u8>, amount: u128, lock_epochs: u64, now: u64) -> Option<LockError> {
        let c = self.spec_config();
        let s = self.positions_of(user);
        let u = unlock_epoch_for(now as int, lock_epochs as int, c.epochs_per_month as int);
        if now < self.clock() {
            Some(LockError::StaleEpoch)
        } else if asset != c.base_asset@ {
            Some(LockError::InvalidAsset)
        } else if amount == 0 {
            Some(LockError::ZeroAmount)
        } else if !is_option(c.options@, lock_epochs as int) {
            Some(LockError::InvalidLockChoice)
        } else if now + lock_epochs > u64::MAX || !merge_fits(s, amount as int, u as u64) || energy_at(s, now as int)
            + amount * (u - now) > u128::MAX || (index_of_unlock(s, u as u64) < 0 && self.next_id() == u64::MAX) {
            Some(LockError::Overflow)
        } else {
            None
        }
    }

    /// Checks that `lock_epochs` is an option and works out the unlock epoch
    /// of a lock at `now`.
    fn new_unlock_epoch(&self, lock_epochs: u64, now: u64) -> (r: Option<u64>)
        requires
            self.wf(),
            is_option(self.spec_config().options@, lock_epochs as int),
        ensures
            now + lock_epochs > u64::MAX ==> r is None,
            now + lock_epochs <= u64::MAX ==> r == Some(
                unlock_epoch_for(now as int, lock_epochs as int, self.spec_config().epochs_per_month as int) as u64,
            ),
            r matches Some(u) ==> now < u <= now + lock_epochs && u <= now + max_epochs(
                self.spec_config().options@,
            ),
    {
        if lock_epochs > u64::MAX - now {
            return None;
        }
        let month = self.config.epochs_per_month;
        let end = now + lock_epochs;
        let unlock = end - end % month;
        proof {
            let c = self.config;
            let k = choose|k: int| 0 <= k < c.options@.len() && #[trigger] c.options@[k].lock_epochs == lock_epochs;
            if k > 0 {
                assert(c.options@[0].lock_epochs < c.options@[k].lock_epochs);
            }
            assert(end % month < month);
            assert(c.options@[k].lock_epochs <= max_epochs(c.options@)) by {
                if k < c.options@.len() - 1 {
                    assert(c.options@[k].lock_epochs < c.options@[c.options@.len() - 1].lock_epochs);
                }
            }
        }
        Some(unlock)
    }

    /// Locks `amount` of `asset` for `user` for `lock_epochs` epochs at epoch
    /// `now`. The tokens join the user's position that unlocks at the same
    /// epoch, or a new position; the identifier of that position is returned.
    pub fn lock(&mut self, user: u64, asset: &Vec<u8>, amount: u128, lock_epochs: u64, now: u64) -> (r: Result<u64, LockError>)
        requires
            old(self).wf(),
        ensures
            final(self).wf(),
            old(self).lock_refusal(user, asset@, amount, lock_epochs, now) matches Some(e) ==> r == Err::<u64, LockError>(e)
                && *final(self) == *old(self),
            old(self).lock_refusal(user, asset@, amount, lock_epochs, now) is None ==> ({
                let s = old(self).positions_of(user);
                let u = unlock_epoch_for(now as int, lock_epochs as int, old(self).spec_config().epochs_per_month as int) as u64;
                &&& r == Ok::<u64, LockError>(merged_id(s, u, old(self).next_id()))
                &&& final(self).positions_of(user) == merged(s, amount as int, u, old(self).next_id())
                &&& final(self).energy_current(user, now)
                &&& final(self).stored_energy(user) == energy_at(s, now as int) + amount * (u - now)
                &&& final(self).next_id() == if index_of_unlock(s, u) < 0 { old(self).next_id() + 1 } else { old(self).next_id() as int }
                &&& final(self).others_unchanged(old(self), user)
                &&& final(self).fees() == old(self).fees()
                &&& final(self).clock() == now
                &&& final(self).spec_config() == old(self).spec_config()
            }),
    {
        if now < self.clock {
            return Err(LockError::StaleEpoch);
        }
        if !bytes_equal(asset, &self.config.base_asset) {
            return Err(LockError::InvalidAsset);
        }
        if amount == 0 {
            return Err(LockError::ZeroAmount);
        }
        if !self.config.options.contains(lock_epochs) {
            return Err(LockError::InvalidLockChoice);
        }
        let unlock = match self.new_unlock_epoch(lock_epochs, now) {
            Some(u) => u,
            None => return Err(LockError::Overflow),
        };
        proof {
            self.lemma_wf_facts(user);
            lemma_index_of_unlock(self.positions_of(user), unlock);
            lemma_energy_nonneg(self.positions_of(user), now as int);
        }
        let (fits, energy_now, is_new) = match self.accounts.get(&user) {
            Some(a) => {
                let e = a.energy.decayed(&a.positions, now);
                (a.positions.can_merge(amount, unlock), e, a.positions.find_unlock(unlock).is_none())
            },
            None => (true, 0u128, true),
        };
        if !fits {
            return Err(LockError::Overflow);
        }
        let gain_fits = match ((unlock - now) as u128).checked_mul(amount) {
            Some(g) => g <= u128::MAX - energy_now,
            None => false,
        };
        proof {
            assert(amount * (unlock - now) == (unlock - now) * amount) by (nonlinear_arith);
        }
        if !gain_fits {
            return Err(LockError::Overflow);
        }
        if is_new && self.next_position_id == u64::MAX {
            return Err(LockError::Overflow);
        }
        let gain: u128 = (unlock - now) as u128 * amount;
        let ghost old_self = *self;
        let ghost s = self.positions_of(user);
        let fresh = self.next_position_id;
        proof {
            self.lemma_week_later(now);
        }
        let mut a = self.take_account(user, now);
        a.energy.decay_to(&a.positions, now);
        let id = a.positions.create_or_merge(amount, unlock, fresh);
        a.energy.add(gain);
        let next = if is_new {
            fresh + 1
        } else {
            fresh
        };
        proof {
            lemma_merged_wf(s, amount as int, unlock, fresh, fresh + 1);
            lemma_energy_merged(s, amount as int, unlock, fresh, now as int);
            lemma_unlocks_within(s, 0, amount as int, unlock, fresh, now + max_epochs(self.config.options@));
        }
        let ghost ga = a;
        self.put_account(user, a, now, next);
        proof {
            self.lemma_only_user_changed(&old_self, user, ga);
        }
        Ok(id)
    }

    /// Why `unlock` refuses these arguments, if it does.
    pub open spec fn unlock_refusal(&self, user: u64, id: u64, amount: u128, now: u64) -> Option<LockError> {
        let s = self.positions_of(user);
        let i = index_of_id(s, id);
        if now < self.clock() {
            Some(LockError::StaleEpoch)
        } else if amount == 0 {
            Some(LockError::ZeroAmount)
        } else if i < 0 {
            Some(LockError::UnknownPosition)
        } else if amount > s[i].amount {
            Some(LockError::InsufficientBalance)
        } else if now < s[i].unlock_epoch {
            Some(LockError::NotYetMature)
        } else if now + self.spec_config().maturity_unbond_epochs > u64::MAX {
            Some(LockError::Overflow)
        } else {
            None
        }
    }

    /// Unlocks `amount` of the matured position `id` of `user` at epoch
    /// `now`. The position is removed once nothing is left of it; a matured
    /// position holds no energy, so the user's energy is only brought to
    /// `now`.
    pub fn unlock(&mut self, user: u64, id: u64, amount: u128, now: u64) -> (r: Result<Release, LockError>)
        requires
            old(self).wf(),
        ensures
            final(self).wf(),
            old(self).unlock_refusal(user, id, amount, now) matches Some(e) ==> r == Err::<Release, LockError>(e)
                && *final(self) == *old(self),
            old(self).unlock_refusal(user, id, amount, now) is None ==> ({
                let s = old(self).positions_of(user);
                let i = index_of_id(s, id);
                &&& r == Ok::<Release, LockError>(Release {
                    amount,
                    claimable_epoch: (now + old(self).spec_config().maturity_unbond_epochs) as u64,
                })
                &&& final(self).positions_of(user) == split(s, i, amount as int)
                &&& final(self).energy_current(user, now)
                &&& final(self).stored_energy(user) == energy_at(s, now as int)
                &&& final(self).others_unchanged(old(self), user)
                &&& final(self).next_id() == old(self).next_id()
                &&& final(self).fees() == old(self).fees()
                &&& final(self).clock() == now
                &&& final(self).spec_config() == old(self).spec_config()
            }),
    {
        if now < self.clock {
            return Err(LockError::StaleEpoch);
        }
        if amount == 0 {
            return Err(LockError::ZeroAmount);
        }
        let (idx, p, _energy_now) = match self.find_position(user, id, now) {
            Some(t) => t,
            None => return Err(LockError::UnknownPosition),
        };
        if amount > p.amount {
            return Err(LockError::InsufficientBalance);
        }
        if now < p.unlock_epoch {
            return Err(LockError::NotYetMature);
        }
        if now > u64::MAX - self.config.maturity_unbond_epochs {
            return Err(LockError::Overflow);
        }
        let ghost old_self = *self;
        let ghost s = self.positions_of(user);
        proof {
            lemma_index_of_id(s, id);
            self.lemma_wf_facts(user);
            self.lemma_week_later(now);
            lemma_split_wf(s, idx as int, amount as int, self.next_position_id as int);
            lemma_energy_split(s, idx as int, amount as int, now as int);
            lemma_unlocks_within(s, idx as int, amount as int, 0, 0, now + max_epochs(self.config.options@));
        }
        let mut a = self.take_account(user, now);
        a.energy.decay_to(&a.positions, now);
        a.positions.split_partial(idx, amount);
        let next = self.next_position_id;
        let ghost ga = a;
        self.put_account(user, a, now, next);
        proof {
            self.lemma_only_user_changed(&old_self, user, ga);
        }
        Ok(Release { amount, claimable_epoch: now + self.config.maturity_unbond_epochs })
    }

    /// The penalty for leaving `amount` of `p` at once at epoch `now`.
    pub open spec fn early_penalty(&self, p: LockPosition, amount: u128, now: u64) -> int {
        penalty_of(self.spec_config().options@, amount as int, remaining(p, now as int), 0)
    }

    /// Why `unlock_early` refuses these arguments, if it does.
    pub open spec fn unlock_early_refusal(&self, user: u64, id: u64, amount: u128, now: u64) -> Option<LockError> {
        let s = self.positions_of(user);
        let i = index_of_id(s, id);
        if now < self.clock() {
            Some(LockError::StaleEpoch)
        } else if amount == 0 {
            Some(LockError::ZeroAmount)
        } else if i < 0 {
            Some(LockError::UnknownPosition)
        } else if amount > s[i].amount {
            Some(LockError::InsufficientBalance)
        } else if now + self.spec_config().unbond_epochs > u64::MAX || (self.early_penalty(s[i], amount, now) > 0
            && !accumulate_fits(self.fees(), s[i].unlock_epoch, self.early_penalty(s[i], amount, now), self.week(now))) {
            Some(LockError::Overflow)
        } else {
            None
        }
    }

    /// Leaves `amount` of position `id` of `user` at epoch `now`, before it
    /// matures. The penalty for the epochs that remain goes to the fee bucket
    /// of the position's unlock epoch; the rest is released after the
    /// unbonding delay. The user's energy loses what that amount held.
    pub fn unlock_early(&mut self, user: u64, id: u64, amount: u128, now: u64) -> (r: Result<EarlyExit, LockError>)
        requires
            old(self).wf(),
        ensures
            final(self).wf(),
            r matches Ok(x) ==> x.released + x.penalty == amount,
            old(self).unlock_early_refusal(user, id, amount, now) matches Some(e) ==> r == Err::<EarlyExit, LockError>(e)
                && *final(self) == *old(self),
            old(self).unlock_early_refusal(user, id, amount, now) is None ==> ({
                let s = old(self).positions_of(user);
                let i = index_of_id(s, id);
                let pen = old(self).early_penalty(s[i], amount, now);
                &&& r == Ok::<EarlyExit, LockError>(EarlyExit {
                    released: (amount - pen) as u128,
                    penalty: pen as u128,
                    claimable_epoch: (now + old(self).spec_config().unbond_epochs) as u64,
                })
                &&& final(self).positions_of(user) == split(s, i, amount as int)
                &&& final(self).energy_current(user, now)
                &&& final(self).stored_energy(user) == energy_at(s, now as int) - contribution(part_of(s[i], amount), now as int)
                &&& final(self).fees() == if pen > 0 {
                    accumulated(old(self).fees(), s[i].unlock_epoch, pen, old(self).week(now))
                } else {
                    old(self).fees()
                }
                &&& final(self).others_unchanged(old(self), user)
                &&& final(self).next_id() == old(self).next_id()
                &&& final(self).clock() == now
                &&& final(self).spec_config() == old(self).spec_config()
            }),
    {
        if now < self.clock {
            return Err(LockError::StaleEpoch);
        }
        if amount == 0 {
            return Err(LockError::ZeroAmount);
        }
        let (idx, p, energy_now) = match self.find_position(user, id, now) {
            Some(t) => t,
            None => return Err(LockError::UnknownPosition),
        };
        if amount > p.amount {
            return Err(LockError::InsufficientBalance);
        }
        if now > u64::MAX - self.config.unbond_epochs {
            return Err(LockError::Overflow);
        }
        let ghost s = self.positions_of(user);
        proof {
            lemma_index_of_id(s, id);
            self.lemma_wf_facts(user);
            self.lemma_week_later(now);
            assert(p.unlock_epoch <= self.clock + max_epochs(self.config.options@));
        }
        let rem: u64 = if p.unlock_epoch > now {
            p.unlock_epoch - now
        } else {
            0
        };
        let penalty = self.config.options.penalty_within(amount, rem, 0);
        let week = now / self.config.epochs_per_week;
        if penalty > 0 && !self.fees.fits(p.unlock_epoch, penalty, week) {
            return Err(LockError::Overflow);
        }
        proof {
            lemma_energy_split(s, idx as int, amount as int, now as int);
            lemma_energy_nonneg(split(s, idx as int, amount as int), now as int);
            if p.unlock_epoch > now {
                assert(amount * (p.unlock_epoch - now) == rem * amount) by (nonlinear_arith)
                    requires
                        rem == p.unlock_epoch - now,
                ;
            }
        }
        let loss: u128 = if p.unlock_epoch > now {
            (rem as u128) * amount
        } else {
            0
        };
        let ghost old_self = *self;
        proof {
            lemma_split_wf(s, idx as int, amount as int, self.next_position_id as int);
            lemma_unlocks_within(s, idx as int, amount as int, 0, 0, now + max_epochs(self.config.options@));
            if penalty > 0 {
                lemma_accumulated_wf(self.fees@, p.unlock_epoch, penalty as int, week, week as int);
            }
        }
        let mut a = self.take_account(user, now);
        a.energy.decay_to(&a.positions, now);
        a.positions.split_partial(idx, amount);
        a.energy.sub(loss);
        if penalty > 0 {
            self.fees.accumulate(p.unlock_epoch, penalty, week);
        }
        let next = self.next_position_id;
        let ghost ga = a;
        self.put_account(user, a, now, next);
        proof {
            self.lemma_only_user_changed(&old_self, user, ga);
        }
        Ok(EarlyExit { released: amount - penalty, penalty, claimable_epoch: now + self.config.unbond_epochs })
    }

    /// The penalty for moving `amount` of `p` to `new_lock_epochs` epochs at
    /// epoch `now`.
    pub open spec fn reduce_penalty(&self, p: LockPosition, amount: u128, new_lock_epochs: u64, now: u64) -> int {
        penalty_of(self.spec_config().options@, amount as int, remaining(p, now as int), new_lock_epochs as int)
    }

    /// Why `reduce_lock_period` refuses these arguments, if it does.
    pub open spec fn reduce_refusal(&self, user: u64, id: u64, amount: u128, new_lock_epochs: u64, now: u64) -> Option<LockError> {
        let c = self.spec_config();
        let s = self.positions_of(user);
        let i = index_of_id(s, id);
        let u = unlock_epoch_for(now as int, new_lock_epochs as int, c.epochs_per_month as int) as u64;
        let pen = self.reduce_penalty(s[i], amount, new_lock_epochs, now);
        let kept = amount - pen;
        if now < self.clock() {
            Some(LockError::StaleEpoch)
        } else if amount == 0 {
            Some(LockError::ZeroAmount)
        } else if !is_option(c.options@, new_lock_epochs as int) {
            Some(LockError::InvalidLockChoice)
        } else if i < 0 {
            Some(LockError::UnknownPosition)
        } else if amount > s[i].amount {
            Some(LockError::InsufficientBalance)
        } else if new_lock_epochs >= remaining(s[i], now as int) {
            Some(LockError::MustShortenPeriod)
        } else if (kept > 0 && (!merge_fits(s, kept, u) || (index_of_unlock(s, u) < 0 && self.next_id() == u64::MAX)))
            || (pen > 0 && !accumulate_fits(self.fees(), s[i].unlock_epoch, pen, self.week(now))) {
            Some(LockError::Overflow)
        } else {
            None
        }
    }

    /// Moves `amount` of position `id` of `user` to a shorter lock of
    /// `new_lock_epochs` epochs from `now`. The penalty for the shortening
    /// goes to the fee bucket of the old unlock epoch; what is kept is locked
    /// until the new unlock epoch, joining a position that already unlocks
    /// then.
    pub fn reduce_lock_period(&mut self, user: u64, id: u64, amount: u128, new_lock_epochs: u64, now: u64) -> (r: Result<Reduction, LockError>)
        requires
            old(self).wf(),
        ensures
            final(self).wf(),
            r matches Ok(x) ==> x.kept + x.penalty == amount,
            old(self).reduce_refusal(user, id, amount, new_lock_epochs, now) matches Some(e) ==> r == Err::<Reduction, LockError>(e)
                && *final(self) == *old(self),
            old(self).reduce_refusal(user, id, amount, new_lock_epochs, now) is None ==> ({
                let s = old(self).positions_of(user);
                let i = index_of_id(s, id);
                let u = unlock_epoch_for(now as int, new_lock_epochs as int, old(self).spec_config().epochs_per_month as int) as u64;
                let pen = old(self).reduce_penalty(s[i], amount, new_lock_epochs, now);
                let kept = amount - pen;
                let t = split(s, i, amount as int);
                &&& u < s[i].unlock_epoch
                &&& r == Ok::<Reduction, LockError>(Reduction {
                    position_id: if kept > 0 { Some(merged_id(t, u, old(self).next_id())) } else { None },
                    kept: kept as u128,
                    penalty: pen as u128,
                })
                &&& final(self).positions_of(user) == if kept > 0 { merged(t, kept, u, old(self).next_id()) } else { t }
                &&& final(self).energy_current(user, now)
                &&& final(self).stored_energy(user) == energy_at(s, now as int) - contribution(part_of(s[i], amount), now as int)
                    + kept * (u - now)
                &&& final(self).fees() == if pen > 0 {
                    accumulated(old(self).fees(), s[i].unlock_epoch, pen, old(self).week(now))
                } else {
                    old(self).fees()
                }
                &&& final(self).next_id() == if kept > 0 && index_of_unlock(t, u) < 0 { old(self).next_id() + 1 } else { old(self).next_id() as int }
                &&& final(self).others_unchanged(old(self), user)
                &&& final(self).clock() == now
                &&& final(self).spec_config() == old(self).spec_config()
            }),
    {
        if now < self.clock {
            return Err(LockError::StaleEpoch);
        }
        if amount == 0 {
            return Err(LockError::ZeroAmount);
        }
        if !self.config.options.contains(new_lock_epochs) {
            return Err(LockError::InvalidLockChoice);
        }
        let (idx, p, energy_now) = match self.find_position(user, id, now) {
            Some(t) => t,
            None => return Err(LockError::UnknownPosition),
        };
        if amount > p.amount {
            return Err(LockError::InsufficientBalance);
        }
        let rem: u64 = if p.unlock_epoch > now {
            p.unlock_epoch - now
        } else {
            0
        };
        if new_lock_epochs >= rem {
            return Err(LockError::MustShortenPeriod);
        }
        let ghost s = self.positions_of(user);
        proof {
            lemma_index_of_id(s, id);
            self.lemma_wf_facts(user);
            self.lemma_week_later(now);
            assert(p.unlock_epoch <= self.clock + max_epochs(self.config.options@));
        }
        let unlock = match self.new_unlock_epoch(new_lock_epochs, now) {
            Some(u) => u,
            None => return Err(LockError::Overflow),
        };
        let penalty = self.config.options.penalty_within(amount, rem, new_lock_epochs);
        let kept = amount - penalty;
        let week = now / self.config.epochs_per_week;
        proof {
            lemma_index_of_unlock(s, unlock);
        }
        let (fits, is_new) = match self.accounts.get(&user) {
            Some(a) => (a.positions.can_merge(kept, unlock), a.positions.find_unlock(unlock).is_none()),
            None => (true, true),
        };
        if kept > 0 && (!fits || (is_new && self.next_position_id == u64::MAX)) {
            return Err(LockError::Overflow);
        }
        if penalty > 0 && !self.fees.fits(p.unlock_epoch, penalty, week) {
            return Err(LockError::Overflow);
        }
        let ghost t = split(s, idx as int, amount as int);
        proof {
            lemma_energy_split(s, idx as int, amount as int, now as int);
            lemma_energy_nonneg(t, now as int);
            assert(amount * (p.unlock_epoch - now) == rem * amount) by (nonlinear_arith)
                requires
                    rem == p.unlock_epoch - now,
            ;
            assert(kept * (unlock - now) <= rem * amount) by (nonlinear_arith)
                requires
                    kept <= amount,
                    unlock - now <= rem,
                    unlock > now,
            ;
            lemma_split_wf(s, idx as int, amount as int, self.next_position_id as int);
            lemma_split_keeps_other(s, idx as int, amount as int, unlock);
            lemma_unlocks_within(s, idx as int, amount as int, unlock, 0, now + max_epochs(self.config.options@));
            if penalty > 0 {
                lemma_accumulated_wf(self.fees@, p.unlock_epoch, penalty as int, week, week as int);
            }
        }
        let loss: u128 = (rem as u128) * amount;
        let gain: u128 = (unlock - now) as u128 * kept;
        let ghost old_self = *self;
        let fresh = self.next_position_id;
        let mut a = self.take_account(user, now);
        a.energy.decay_to(&a.positions, now);
        a.positions.split_partial(idx, amount);
        a.energy.sub(loss);
        let mut next = fresh;
        let position_id = if kept > 0 {
            proof {
                lemma_merged_wf(t, kept as int, unlock, fresh, fresh + 1);
                lemma_energy_merged(t, kept as int, unlock, fresh, now as int);
                lemma_unlocks_within(t, 0, kept as int, unlock, fresh, now + max_epochs(self.config.options@));
                assert(kept * (unlock - now) == (unlock - now) * kept) by (nonlinear_arith);
            }
            let nid = a.positions.create_or_merge(kept, unlock, fresh);
            a.energy.add(gain);
            if is_new {
                next = fresh + 1;
            }
            Some(nid)
        } else {
            proof {
                assert(kept * (unlock - now) == 0) by (nonlinear_arith)
                    requires
                        kept == 0,
                ;
            }
            None
        };
        if penalty > 0 {
            self.fees.accumulate(p.unlock_epoch, penalty, week);
        }
        let ghost ga = a;
        self.put_account(user, a, now, next);
        proof {
            self.lemma_only_user_changed(&old_self, user, ga);
        }
        Ok(Reduction { position_id, kept, penalty })
    }

    /// Why `extend_lock_period` refuses these arguments, if it does.
    pub open spec fn extend_refusal(&self, user: u64, id: u64, amount: u128, new_lock_epochs: u64, now: u64) -> Option<LockError> {
        let c = self.spec_config();
        let s = self.positions_of(user);
        let i = index_of_id(s, id);
        let u = unlock_epoch_for(now as int, new_lock_epochs as int, c.epochs_per_month as int);
        if now < self.clock() {
            Some(LockError::StaleEpoch)
        } else if amount == 0 {
            Some(LockError::ZeroAmount)
        } else if !is_option(c.options@, new_lock_epochs as int) {
            Some(LockError::InvalidLockChoice)
        } else if i < 0 {
            Some(LockError::UnknownPosition)
        } else if amount > s[i].amount {
            Some(LockError::InsufficientBalance)
        } else if now + new_lock_epochs > u64::MAX {
            Some(LockError::Overflow)
        } else if u <= s[i].unlock_epoch {
            Some(LockError::MustLengthenPeriod)
        } else if !merge_fits(s, amount as int, u as u64) || (index_of_unlock(s, u as u64) < 0 && self.next_id() == u64::MAX)
            || energy_at(s, now as int) - contribution(part_of(s[i], amount), now as int) + amount * (u - now) > u128::MAX {
            Some(LockError::Overflow)
        } else {
            None
        }
    }

    /// Moves `amount` of position `id` of `user` to a longer lock of
    /// `new_lock_epochs` epochs from `now`; the new unlock epoch must be later
    /// than the old one. The amount joins a position that already unlocks
    /// then, or a new one, whose identifier is returned.
    pub fn extend_lock_period(&mut self, user: u64, id: u64, amount: u128, new_lock_epochs: u64, now: u64) -> (r: Result<u64, LockError>)
        requires
            old(self).wf(),
        ensures
            final(self).wf(),
            old(self).extend_refusal(user, id, amount, new_lock_epochs, now) matches Some(e) ==> r == Err::<u64, LockError>(e)
                && *final(self) == *old(self),
            old(self).extend_refusal(user, id, amount, new_lock_epochs, now) is None ==> ({
                let s = old(self).positions_of(user);
                let i = index_of_id(s, id);
                let u = unlock_epoch_for(now as int, new_lock_epochs as int, old(self).spec_config().epochs_per_month as int) as u64;
                let t = split(s, i, amount as int);
                &&& r == Ok::<u64, LockError>(merged_id(t, u, old(self).next_id()))
                &&& final(self).positions_of(user) == merged(t, amount as int, u, old(self).next_id())
                &&& final(self).energy_current(user, now)
                &&& final(self).stored_energy(user) == energy_at(s, now as int) - contribution(part_of(s[i], amount), now as int)
                    + amount * (u - now)
                &&& final(self).next_id() == if index_of_unlock(t, u) < 0 { old(self).next_id() + 1 } else { old(self).next_id() as int }
                &&& final(self).others_unchanged(old(self), user)
                &&& final(self).fees() == old(self).fees()
                &&& final(self).clock() == now
                &&& final(self).spec_config() == old(self).spec_config()
            }),
    {
        if now < self.clock {
            return Err(LockError::StaleEpoch);
        }
        if amount == 0 {
            return Err(LockError::ZeroAmount);
        }
        if !self.config.options.contains(new_lock_epochs) {
            return Err(LockError::InvalidLockChoice);
        }
        let (idx, p, energy_now) = match self.find_position(user, id, now) {
            Some(t) => t,
            None => return Err(LockError::UnknownPosition),
        };
        if amount > p.amount {
            return Err(LockError::InsufficientBalance);
        }
        let unlock = match self.new_unlock_epoch(new_lock_epochs, now) {
            Some(u) => u,
            None => return Err(LockError::Overflow),
        };
        if unlock <= p.unlock_epoch {
            return Err(LockError::MustLengthenPeriod);
        }
        let ghost s = self.positions_of(user);
        let ghost t = split(s, idx as int, amount as int);
        proof {
            lemma_index_of_id(s, id);
            self.lemma_wf_facts(user);
            self.lemma_week_later(now);
            lemma_index_of_unlock(s, unlock);
            lemma_energy_split(s, idx as int, amount as int, now as int);
            lemma_energy_nonneg(t, now as int);
            if p.unlock_epoch > now {
                assert(amount * (p.unlock_epoch - now) == ((p.unlock_epoch - now) as int) * amount) by (nonlinear_arith);
            }
        }
        let (fits, is_new) = match self.accounts.get(&user) {
            Some(a) => (a.positions.can_merge(amount, unlock), a.positions.find_unlock(unlock).is_none()),
            None => (true, true),
        };
        if !fits || (is_new && self.next_position_id == u64::MAX) {
            return Err(LockError::Overflow);
        }
        let loss: u128 = if p.unlock_epoch > now {
            ((p.unlock_epoch - now) as u128) * amount
        } else {
            0
        };
        let base = energy_now - loss;
        let gain_fits = match ((unlock - now) as u128).checked_mul(amount) {
            Some(g) => g <= u128::MAX - base,
            None => false,
        };
        proof {
            assert(amount * (unlock - now) == (unlock - now) * amount) by (nonlinear_arith);
        }
        if !gain_fits {
            return Err(LockError::Overflow);
        }
        let gain: u128 = (unlock - now) as u128 * amount;
        proof {
            lemma_split_wf(s, idx as int, amount as int, self.next_position_id as int);
            lemma_split_keeps_other(s, idx as int, amount as int, unlock);
            lemma_unlocks_within(s, idx as int, amount as int, unlock, 0, now + max_epochs(self.config.options@));
            lemma_unlocks_within(t, 0, amount as int, unlock, self.next_position_id, now + max_epochs(self.config.options@));
            lemma_merged_wf(t, amount as int, unlock, self.next_position_id, self.next_position_id + 1);
            lemma_energy_merged(t, amount as int, unlock, self.next_position_id, now as int);
        }
        let ghost old_self = *self;
        let fresh = self.next_position_id;
        let mut a = self.take_account(user, now);
        a.energy.decay_to(&a.positions, now);
        a.positions.split_partial(idx, amount);
        a.energy.sub(loss);
        let nid = a.positions.create_or_merge(amount, unlock, fresh);
        a.energy.add(gain);
        let next = if is_new {
            fresh + 1
        } else {
            fresh
        };
        let ghost ga = a;
        self.put_account(user, a, now, next);
        proof {
            self.lemma_only_user_changed(&old_self, user, ga);
        }
        Ok(nid)
    }
}

/// A user with no positions who locks `amount` for `lock_epochs` at `e0`,
/// where the lock ends on a month boundary (always so with one-epoch months),
/// holds `amount * lock_epochs` energy at `e0` and `amount * (lock_epochs - k)`
/// at `e0 + k`, down to nothing at the unlock epoch.
pub proof fn lemma_lock_energy_linearity(amount: u128, lock_epochs: u64, e0: u64, k: int, epochs_per_month: u64, fresh_id: u64)
    requires
        epochs_per_month >= 1,
        e0 + lock_epochs <= u64::MAX,
        (e0 + lock_epochs) % (epochs_per_month as int) == 0,
        0 <= k <= lock_epochs,
    ensures
        ({
            let u = unlock_epoch_for(e0 as int, lock_epochs as int, epochs_per_month as int) as u64;
            &&& u == e0 + lock_epochs
            &&& energy_at(merged(Seq::empty(), amount as int, u, fresh_id), e0 as int) == amount * lock_epochs
            &&& energy_at(merged(Seq::empty(), amount as int, u, fresh_id), e0 + k) == amount * (lock_epochs - k)
        }),
{
    let u = unlock_epoch_for(e0 as int, lock_epochs as int, epochs_per_month as int) as u64;
    assert(u == e0 + lock_epochs);
    lemma_energy_linearity(amount, u, fresh_id, e0 as int, 0);
    lemma_energy_linearity(amount, u, fresh_id, e0 as int, k);
}

/// Whether two byte strings are equal.
pub fn bytes_equal(a: &Vec<u8>, b: &Vec<u8>) -> (r: bool)
    ensures
        r == (a@ == b@),
{
    if a.len() != b.len() {
        return false;
    }
    let mut i: usize = 0;
    while i < a.len()
        invariant
            a@.len() == b@.len(),
            0 <= i <= a@.len(),
            forall|k: int| 0 <= k < i ==> a@[k] == b@[k],
        decreases a@.len() - i,
    {
        if a[i] != b[i] {
            return false;
        }
        i += 1;
    }
    assert(a@ =~= b@);
    true
}

} // verus!
