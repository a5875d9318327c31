use vstd::prelude::*;

use crate::positions::{
    LockPosition, PositionSet, ids_below, index_of_unlock, lemma_index_of_unlock, lemma_merged_wf,
    merge_fits, merged, merged_id, positions_wf, split,
};

verus! {

/// What one position adds to its owner's energy as of `epoch`: its amount
/// times the epochs left until it unlocks, and nothing once it has matured.
pub open spec fn contribution(p: LockPosition, epoch: int) -> int {
    if p.unlock_epoch > epoch {
        p.amount * (p.unlock_epoch - epoch)
    } else {
        0
    }
}

/// The energy of a set of positions as of `epoch`.
pub open spec fn energy_at(s: Seq<LockPosition>, epoch: int) -> int
    decreases s.len(),
{
    if s.len() == 0 {
        0
    } else {
        energy_at(s.drop_last(), epoch) + contribution(s.last(), epoch)
    }
}

/// What a position's contribution loses between `last` and `now`: its amount
/// for each of those epochs before it matures.
pub open spec fn decay_loss(p: LockPosition, last: int, now: int) -> int {
    if p.unlock_epoch > last {
        let left = p.unlock_epoch - last;
        p.amount * (if now - last < left { now - last } else { left })
    } else {
        0
    }
}

pub proof fn lemma_contribution_nonneg(p: LockPosition, epoch: int)
    ensures
        contribution(p, epoch) >= 0,
{
    if p.unlock_epoch > epoch {
        assert(p.amount * (p.unlock_epoch - epoch) >= 0) by (nonlinear_arith)
            requires
                p.unlock_epoch > epoch,
        ;
    }
}

proof fn lemma_decay_loss(p: LockPosition, last: int, now: int)
    requires
        last <= now,
    ensures
        0 <= decay_loss(p, last, now) <= contribution(p, last),
        contribution(p, last) - decay_loss(p, last, now) == contribution(p, now),
{
    if p.unlock_epoch > last {
        let left = p.unlock_epoch - last;
        let k = if now - last < left { now - last } else { left };
        assert(0 <= p.amount * k <= p.amount * left) by (nonlinear_arith)
            requires
                0 <= k <= left,
                p.amount >= 0,
        ;
        if p.unlock_epoch > now {
            assert(p.amount * left - p.amount * k == p.amount * (p.unlock_epoch - now)) by (nonlinear_arith)
                requires
                    left == p.unlock_epoch - last,
                    k == now - last,
            ;
        }
    }
}

pub proof fn lemma_energy_nonneg(s: Seq<LockPosition>, epoch: int)
    ensures
        energy_at(s, epoch) >= 0,
    decreases s.len(),
{
    if s.len() > 0 {
        lemma_energy_nonneg(s.drop_last(), epoch);
        lemma_contribution_nonneg(s.last(), epoch);
    }
}

proof fn lemma_energy_take(s: Seq<LockPosition>, i: int, epoch: int)
    requires
        0 <= i < s.len(),
    ensures
        energy_at(s.take(i + 1), epoch) == energy_at(s.take(i), epoch) + contribution(s[i], epoch),
{
    assert(s.take(i + 1).drop_last() =~= s.take(i));
}

proof fn lemma_energy_prefix(s: Seq<LockPosition>, i: int, epoch: int)
    requires
        0 <= i <= s.len(),
    ensures
        energy_at(s.take(i), epoch) <= energy_at(s, epoch),
    decreases s.len(),
{
    if i == s.len() {
        assert(s.take(i) =~= s);
    } else {
        lemma_energy_prefix(s.drop_last(), i, epoch);
        assert(s.drop_last().take(i) =~= s.take(i));
        lemma_contribution_nonneg(s.last(), epoch);
    }
}

/// Energy after a new position is appended.
pub proof fn lemma_energy_push(s: Seq<LockPosition>, p: LockPosition, epoch: int)
    ensures
        energy_at(s.push(p), epoch) == energy_at(s, epoch) + contribution(p, epoch),
{
    assert(s.push(p).drop_last() =~= s);
}

/// Energy after the position at `i` is replaced.
pub proof fn lemma_energy_update(s: Seq<LockPosition>, i: int, p: LockPosition, epoch: int)
    requires
        0 <= i < s.len(),
    ensures
        energy_at(s.update(i, p), epoch) == energy_at(s, epoch) - contribution(s[i], epoch)
            + contribution(p, epoch),
    decreases s.len(),
{
    let t = s.update(i, p);
    if i == s.len() - 1 {
        assert(t.drop_last() =~= s.drop_last());
    } else {
        lemma_energy_update(s.drop_last(), i, p, epoch);
        assert(t.drop_last() =~= s.drop_last().update(i, p));
    }
}

/// Energy after the position at `i` is removed.
pub proof fn lemma_energy_remove(s: Seq<LockPosition>, i: int, epoch: int)
    requires
        0 <= i < s.len(),
    ensures
        energy_at(s.remove(i), epoch) == energy_at(s, epoch) - contribution(s[i], epoch),
    decreases s.len(),
{
    let t = s.remove(i);
    if i == s.len() - 1 {
        assert(t =~= s.drop_last());
    } else {
        lemma_energy_remove(s.drop_last(), i, epoch);
        assert(t.drop_last() =~= s.drop_last().remove(i));
        assert(t.last() == s.last());
    }
}

/// Energy after `amount` is locked until `unlock` into the positions.
pub proof fn lemma_energy_merged(s: Seq<LockPosition>, amount: int, unlock: u64, fresh_id: u64, epoch: int)
    requires
        0 <= amount <= u128::MAX,
        index_of_unlock(s, unlock) >= 0 ==> s[index_of_unlock(s, unlock)].amount + amount <= u128::MAX,
        epoch < unlock,
    ensures
        energy_at(merged(s, amount, unlock, fresh_id), epoch) == energy_at(s, epoch) + amount * (unlock - epoch),
{
    lemma_index_of_unlock(s, unlock);
    let i = index_of_unlock(s, unlock);
    if i < 0 {
        lemma_energy_push(s, LockPosition { id: fresh_id, amount: amount as u128, unlock_epoch: unlock }, epoch);
    } else {
        let q = LockPosition { amount: (s[i].amount + amount) as u128, ..s[i] };
        lemma_energy_update(s, i, q, epoch);
        assert((s[i].amount + amount) * (unlock - epoch) == s[i].amount * (unlock - epoch) + amount * (unlock - epoch))
            by (nonlinear_arith);
    }
}

/// Energy after `amount` is taken from the position at `i`.
pub proof fn lemma_energy_split(s: Seq<LockPosition>, i: int, amount: int, epoch: int)
    requires
        0 <= i < s.len(),
        0 <= amount <= s[i].amount,
    ensures
        energy_at(split(s, i, amount), epoch) == energy_at(s, epoch) - contribution(
            LockPosition { amount: amount as u128, ..s[i] },
            epoch,
        ),
{
    let p = s[i];
    if amount == p.amount {
        lemma_energy_remove(s, i, epoch);
    } else {
        let q = LockPosition { amount: (p.amount - amount) as u128, ..p };
        lemma_energy_update(s, i, q, epoch);
        if p.unlock_epoch > epoch {
            assert(p.amount * (p.unlock_epoch - epoch) == (p.amount - amount) * (p.unlock_epoch - epoch)
                + amount * (p.unlock_epoch - epoch)) by (nonlinear_arith);
        }
    }
}

/// A single position of `amount` that unlocks at `unlock`, made at `e0`,
/// holds `amount` times the epochs left: `amount * (unlock - e0 - k)` at
/// epoch `e0 + k` for every `k` up to the unlock, and nothing after it.
pub proof fn lemma_energy_linearity(amount: u128, unlock: u64, fresh_id: u64, e0: int, k: int)
    requires
        e0 <= unlock,
        0 <= k,
    ensures
        k <= unlock - e0 ==> energy_at(merged(Seq::empty(), amount as int, unlock, fresh_id), e0 + k)
            == amount * (unlock - e0 - k),
        k >= unlock - e0 ==> energy_at(merged(Seq::empty(), amount as int, unlock, fresh_id), e0 + k) == 0,
{
    let s = merged(Seq::empty(), amount as int, unlock, fresh_id);
    let p = LockPosition { id: fresh_id, amount, unlock_epoch: unlock };
    assert(index_of_unlock(Seq::<LockPosition>::empty(), unlock) == -1);
    assert(s == Seq::<LockPosition>::empty().push(p));
    lemma_energy_push(Seq::empty(), p, e0 + k);
    if k == unlock - e0 {
        assert(amount * (unlock - e0 - k) == 0) by (nonlinear_arith)
            requires
                unlock - e0 - k == 0,
        ;
    }
}

/// Locking `a1` and then `a2` until the same epoch leaves the positions that
/// one lock of `a1 + a2` would, in one position, and the energy of the two
/// locks taken apart adds up.
pub proof fn lemma_merge_invariant(s: Seq<LockPosition>, a1: int, a2: int, unlock: u64, id1: u64, id2: u64, epoch: int)
    requires
        positions_wf(s),
        ids_below(s, id1 as int),
        0 < a1,
        0 < a2,
        a1 + a2 <= u128::MAX,
        merge_fits(s, a1 + a2, unlock),
        epoch < unlock,
    ensures
        merged(merged(s, a1, unlock, id1), a2, unlock, id2) == merged(s, a1 + a2, unlock, id1),
        merged_id(merged(s, a1, unlock, id1), unlock, id2) == merged_id(s, unlock, id1),
        energy_at(merged(merged(s, a1, unlock, id1), a2, unlock, id2), epoch) == energy_at(s, epoch) + a1 * (unlock
            - epoch) + a2 * (unlock - epoch),
{
    lemma_index_of_unlock(s, unlock);
    let m = merged(s, a1, unlock, id1);
    lemma_merged_wf(s, a1, unlock, id1, id1 + 1);
    lemma_index_of_unlock(m, unlock);
    let i = index_of_unlock(s, unlock);
    let j = index_of_unlock(m, unlock);
    if i < 0 {
        assert(m[s.len() as int].unlock_epoch == unlock);
        assert(j == s.len());
    } else {
        assert(m[i].unlock_epoch == unlock);
        assert(j == i);
    }
    assert(merged(m, a2, unlock, id2) =~= merged(s, a1 + a2, unlock, id1));
    lemma_energy_merged(s, a1, unlock, id1, epoch);
    lemma_energy_merged(m, a2, unlock, id2, epoch);
}

/// One user's energy, correct as of `last_update_epoch`.
pub struct EnergyEntry {
    amount: u128,
    last_update_epoch: u64,
}

impl EnergyEntry {
    pub closed spec fn spec_amount(&self) -> u128 {
        self.amount
    }

    pub closed spec fn spec_last_update_epoch(&self) -> u64 {
        self.last_update_epoch
    }

    /// Whether the entry is the energy of `s` as of its own epoch.
    pub open spec fn tracks(&self, s: Seq<LockPosition>) -> bool {
        self.spec_amount() == energy_at(s, self.spec_last_update_epoch() as int)
    }

    /// A fresh entry for a user with no positions, as of `epoch`.
    pub fn new(epoch: u64) -> (r: Self)
        ensures
            r.spec_amount() == 0,
            r.spec_last_update_epoch() == epoch,
    {
        EnergyEntry { amount: 0, last_update_epoch: epoch }
    }

    /// The stored energy.
    #[verifier::when_used_as_spec(spec_amount)]
    pub fn amount(&self) -> (r: u128)
        ensures
            r == self.spec_amount(),
    {
        self.amount
    }

    /// The epoch the stored energy is correct as of.
    #[verifier::when_used_as_spec(spec_last_update_epoch)]
    pub fn last_update_epoch(&self) -> (r: u64)
        ensures
            r == self.spec_last_update_epoch(),
    {
        self.last_update_epoch
    }

    /// What the energy of `positions` is as of `now`, computed from the stored
    /// value by taking off, for each position, its amount for each epoch that
    /// has passed before it matured.
    pub fn decayed(&self, positions: &PositionSet, now: u64) -> (r: u128)
        requires
            self.tracks(positions@),
            self.spec_last_update_epoch() <= now,
        ensures
            r == energy_at(positions@, now as int),
    {
        let ghost s = positions@;
        let last = self.last_update_epoch;
        let elapsed = now - last;
        let n = positions.len();
        let mut loss: u128 = 0;
        let mut i: usize = 0;
        while i < n
            invariant
                s == positions@,
                n == s.len(),
                0 <= i <= n,
                self.tracks(s),
                last == self.spec_last_update_epoch(),
                last <= now,
                elapsed == now - last,
                loss == energy_at(s.take(i as int), last as int) - energy_at(s.take(i as int), now as int),
            decreases n - i,
        {
            let p = positions.get(i);
            proof {
                lemma_energy_take(s, i as int, last as int);
                lemma_energy_take(s, i as int, now as int);
                lemma_decay_loss(p, last as int, now as int);
                lemma_energy_prefix(s, i + 1, last as int);
                lemma_energy_nonneg(s.take(i + 1), now as int);
            }
            if p.unlock_epoch > last {
                let left = p.unlock_epoch - last;
                let k = if elapsed < left {
                    elapsed
                } else {
                    left
                };
                loss = loss + p.amount * (k as u128);
            }
            i += 1;
        }
        proof {
            assert(s.take(n as int) =~= s);
            lemma_energy_nonneg(s, now as int);
        }
        self.amount - loss
    }

    /// Brings the entry forward to `now`.
    pub fn decay_to(&mut self, positions: &PositionSet, now: u64)
        requires
            old(self).tracks(positions@),
            old(self).spec_last_update_epoch() <= now,
        ensures
            final(self).spec_amount() == energy_at(positions@, now as int),
            final(self).spec_last_update_epoch() == now,
            final(self).tracks(positions@),
    {
        self.amount = self.decayed(positions, now);
        self.last_update_epoch = now;
    }

    /// Adds `delta` to the stored energy.
    pub fn add(&mut self, delta: u128)
        requires
            old(self).spec_amount() + delta <= u128::MAX,
        ensures
            final(self).spec_amount() == old(self).spec_amount() + delta,
            final(self).spec_last_update_epoch() == old(self).spec_last_update_epoch(),
    {
        self.amount = self.amount + delta;
    }

    /// Takes `delta` off the stored energy.
    pub fn sub(&mut self, delta: u128)
        requires
            delta <= old(self).spec_amount(),
        ensures
            final(self).spec_amount() == old(self).spec_amount() - delta,
            final(self).spec_last_update_epoch() == old(self).spec_last_update_epoch(),
    {
        self.amount = self.amount - delta;
    }
}

} // verus!
