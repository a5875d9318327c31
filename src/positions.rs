use vstd::prelude::*;

use crate::error::LockError;

verus! {

/// One open lock position: an amount of the lockable asset that unlocks at
/// `unlock_epoch`, known to its owner by `id`.
#[derive(Clone, Copy, Debug, PartialEq, Eq, Structural)]
pub struct LockPosition {
    pub id: u64,
    pub amount: u128,
    pub unlock_epoch: u64,
}

/// The positions of one owner: every amount is positive, and no two positions
/// share an identifier or an unlock epoch.
pub open spec fn positions_wf(s: Seq<LockPosition>) -> bool {
    &&& forall|i: int| 0 <= i < s.len() ==> #[trigger] s[i].amount > 0
    &&& forall|i: int, j: int|
        0 <= i < s.len() && 0 <= j < s.len() && i != j ==> #[trigger] s[i].id != #[trigger] s[j].id
    &&& forall|i: int, j: int|
        0 <= i < s.len() && 0 <= j < s.len() && i != j ==> #[trigger] s[i].unlock_epoch
            != #[trigger] s[j].unlock_epoch
}

/// Every identifier in `s` is below `bound`.
pub open spec fn ids_below(s: Seq<LockPosition>, bound: int) -> bool {
    forall|i: int| 0 <= i < s.len() ==> #[trigger] s[i].id < bound
}

/// The index of the position with identifier `id`, or -1.
pub open spec fn index_of_id(s: Seq<LockPosition>, id: u64) -> int
    decreases s.len(),
{
    if s.len() == 0 {
        -1
    } else if s.last().id == id {
        s.len() - 1
    } else {
        index_of_id(s.drop_last(), id)
    }
}

/// The index of the position that unlocks at `epoch`, or -1.
pub open spec fn index_of_unlock(s: Seq<LockPosition>, epoch: u64) -> int
    decreases s.len(),
{
    if s.len() == 0 {
        -1
    } else if s.last().unlock_epoch == epoch {
        s.len() - 1
    } else {
        index_of_unlock(s.drop_last(), epoch)
    }
}

/// The positions after `amount` is locked until `epoch`: added to the position
/// that already unlocks then, or else held in a new one with identifier
/// `fresh_id`.
pub open spec fn merged(s: Seq<LockPosition>, amount: int, epoch: u64, fresh_id: u64) -> Seq<LockPosition> {
    let i = index_of_unlock(s, epoch);
    if i < 0 {
        s.push(LockPosition { id: fresh_id, amount: amount as u128, unlock_epoch: epoch })
    } else {
        s.update(i, LockPosition { amount: (s[i].amount + amount) as u128, ..s[i] })
    }
}

/// The identifier of the position that receives `amount` locked until `epoch`.
pub open spec fn merged_id(s: Seq<LockPosition>, epoch: u64, fresh_id: u64) -> u64 {
    let i = index_of_unlock(s, epoch);
    if i < 0 {
        fresh_id
    } else {
        s[i].id
    }
}

/// Whether adding `amount` to the position that unlocks at `epoch`, if there
/// is one, keeps its amount within `u128`.
pub open spec fn merge_fits(s: Seq<LockPosition>, amount: int, epoch: u64) -> bool {
    let i = index_of_unlock(s, epoch);
    i >= 0 ==> s[i].amount + amount <= u128::MAX
}

/// The positions after `amount` is taken from the one at index `i`: it is
/// removed when nothing is left of it.
pub open spec fn split(s: Seq<LockPosition>, i: int, amount: int) -> Seq<LockPosition> {
    if amount == s[i].amount {
        s.remove(i)
    } else {
        s.update(i, LockPosition { amount: (s[i].amount - amount) as u128, ..s[i] })
    }
}

pub proof fn lemma_index_of_id(s: Seq<LockPosition>, id: u64)
    ensures
        -1 <= index_of_id(s, id) < s.len(),
        index_of_id(s, id) >= 0 ==> s[index_of_id(s, id)].id == id,
        index_of_id(s, id) < 0 <==> forall|k: int| 0 <= k < s.len() ==> #[trigger] s[k].id != id,
    decreases s.len(),
{
    if s.len() > 0 {
        lemma_index_of_id(s.drop_last(), id);
        if s.last().id != id {
            assert forall|k: int| 0 <= k < s.len() && #[trigger] s[k].id == id implies k < s.len() - 1
                && s.drop_last()[k].id == id by {}
        }
    }
}

pub proof fn lemma_index_of_unlock(s: Seq<LockPosition>, epoch: u64)
    ensures
        -1 <= index_of_unlock(s, epoch) < s.len(),
        index_of_unlock(s, epoch) >= 0 ==> s[index_of_unlock(s, epoch)].unlock_epoch == epoch,
        index_of_unlock(s, epoch) < 0 <==> forall|k: int|
            0 <= k < s.len() ==> #[trigger] s[k].unlock_epoch != epoch,
    decreases s.len(),
{
    if s.len() > 0 {
        lemma_index_of_unlock(s.drop_last(), epoch);
        if s.last().unlock_epoch != epoch {
            assert forall|k: int|
                0 <= k < s.len() && #[trigger] s[k].unlock_epoch == epoch implies k < s.len() - 1
                && s.drop_last()[k].unlock_epoch == epoch by {}
        }
    }
}

/// Merging keeps the positions well formed, and below a bound on identifiers
/// that the fresh identifier is under.
pub proof fn lemma_merged_wf(s: Seq<LockPosition>, amount: int, epoch: u64, fresh_id: u64, bound: int)
    requires
        positions_wf(s),
        ids_below(s, fresh_id as int),
        fresh_id < bound,
        0 < amount <= u128::MAX,
        merge_fits(s, amount, epoch),
    ensures
        positions_wf(merged(s, amount, epoch, fresh_id)),
        ids_below(merged(s, amount, epoch, fresh_id), bound),
        index_of_unlock(s, epoch) >= 0 ==> ids_below(merged(s, amount, epoch, fresh_id), fresh_id as int),
        index_of_unlock(merged(s, amount, epoch, fresh_id), epoch) >= 0,
{
    lemma_index_of_unlock(s, epoch);
    let r = merged(s, amount, epoch, fresh_id);
    let i = index_of_unlock(s, epoch);
    if i < 0 {
        assert(r.last().unlock_epoch == epoch);
        assert(positions_wf(r)) by {
            assert forall|a: int, b: int|
                0 <= a < r.len() && 0 <= b < r.len() && a != b implies #[trigger] r[a].id
                != #[trigger] r[b].id by {
                if a == s.len() {
                    assert(s[b].id < fresh_id);
                } else if b == s.len() {
                    assert(s[a].id < fresh_id);
                }
            }
            assert forall|a: int, b: int|
                0 <= a < r.len() && 0 <= b < r.len() && a != b implies #[trigger] r[a].unlock_epoch
                != #[trigger] r[b].unlock_epoch by {
                if a == s.len() {
                    assert(s[b].unlock_epoch != epoch);
                } else if b == s.len() {
                    assert(s[a].unlock_epoch != epoch);
                }
            }
        }
        lemma_index_of_unlock(r, epoch);
    } else {
        assert(r[i].unlock_epoch == epoch);
        lemma_index_of_unlock(r, epoch);
        assert forall|j: int| 0 <= j < r.len() implies #[trigger] r[j].id < fresh_id by {
            assert(r[j].id == s[j].id);
        }
    }
}

/// Every position in `s` unlocks no later than `bound`.
pub open spec fn unlocks_within(s: Seq<LockPosition>, bound: int) -> bool {
    forall|i: int| 0 <= i < s.len() ==> #[trigger] s[i].unlock_epoch <= bound
}

/// Merging and splitting keep every unlock epoch within a bound that the new
/// epoch is within.
pub proof fn lemma_unlocks_within(s: Seq<LockPosition>, i: int, amount: int, epoch: u64, fresh_id: u64, bound: int)
    requires
        unlocks_within(s, bound),
        epoch <= bound,
    ensures
        unlocks_within(merged(s, amount, epoch, fresh_id), bound),
        0 <= i < s.len() ==> unlocks_within(split(s, i, amount), bound),
{
    lemma_index_of_unlock(s, epoch);
    let m = merged(s, amount, epoch, fresh_id);
    assert forall|j: int| 0 <= j < m.len() implies #[trigger] m[j].unlock_epoch <= bound by {
        if j < s.len() {
            assert(m[j].unlock_epoch == s[j].unlock_epoch);
        }
    }
    if 0 <= i < s.len() {
        let t = split(s, i, amount);
        assert forall|j: int| 0 <= j < t.len() implies #[trigger] t[j].unlock_epoch <= bound by {
            if amount == s[i].amount {
                let j2 = if j < i { j } else { j + 1 };
                assert(t[j] == s[j2]);
            } else {
                assert(t[j].unlock_epoch == s[j].unlock_epoch);
            }
        }
    }
}

/// Splitting keeps the positions well formed and under the same bound.
pub proof fn lemma_split_wf(s: Seq<LockPosition>, i: int, amount: int, bound: int)
    requires
        positions_wf(s),
        ids_below(s, bound),
        0 <= i < s.len(),
        0 < amount <= s[i].amount,
    ensures
        positions_wf(split(s, i, amount)),
        ids_below(split(s, i, amount), bound),
{
    let r = split(s, i, amount);
    if amount == s[i].amount {
        assert forall|a: int, b: int|
            0 <= a < r.len() && 0 <= b < r.len() && a != b implies #[trigger] r[a].id
            != #[trigger] r[b].id by {
            let a2 = if a < i { a } else { a + 1 };
            let b2 = if b < i { b } else { b + 1 };
            assert(r[a] == s[a2] && r[b] == s[b2]);
        }
        assert forall|a: int, b: int|
            0 <= a < r.len() && 0 <= b < r.len() && a != b implies #[trigger] r[a].unlock_epoch
            != #[trigger] r[b].unlock_epoch by {
            let a2 = if a < i { a } else { a + 1 };
            let b2 = if b < i { b } else { b + 1 };
            assert(r[a] == s[a2] && r[b] == s[b2]);
        }
        assert forall|a: int| 0 <= a < r.len() implies #[trigger] r[a].amount > 0 && r[a].id < bound by {
            let a2 = if a < i { a } else { a + 1 };
            assert(r[a] == s[a2]);
        }
    }
}

/// The positions of one owner.
pub struct PositionSet {
    positions: Vec<LockPosition>,
}

impl View for PositionSet {
    type V = Seq<LockPosition>;

    closed spec fn view(&self) -> Seq<LockPosition> {
        self.positions@
    }
}

impl PositionSet {
    /// An owner with no positions.
    pub fn new() -> (r: Self)
        ensures
            r@ == Seq::<LockPosition>::empty(),
    {
        PositionSet { positions: Vec::new() }
    }

    /// The number of positions.
    pub fn len(&self) -> (r: usize)
        ensures
            r == self@.len(),
    {
        self.positions.len()
    }

    /// The position at `index`.
    pub fn get(&self, index: usize) -> (r: LockPosition)
        requires
            index < self@.len(),
        ensures
            r == self@[index as int],
    {
        self.positions[index]
    }

    /// Where the position with identifier `id` stands, if there is one.
    pub fn find_id(&self, id: u64) -> (r: Option<usize>)
        ensures
            r matches Some(i) ==> i == index_of_id(self@, id),
            r is None ==> index_of_id(self@, id) < 0,
    {
        let ghost s = self@;
        let n = self.positions.len();
        let mut i: usize = n;
        assert(s.take(n as int) =~= s);
        while i > 0
            invariant
                s == self.positions@,
                n == s.len(),
                0 <= i <= n,
                index_of_id(s, id) == index_of_id(s.take(i as int), id),
            decreases i,
        {
            let ghost t = s.take(i as int);
            assert(t.drop_last() =~= s.take(i - 1));
            if self.positions[i - 1].id == id {
                return Some(i - 1);
            }
            i -= 1;
        }
        assert(s.take(0) =~= Seq::<LockPosition>::empty());
        None
    }

    /// Where the position that unlocks at `epoch` stands, if there is one.
    pub fn find_unlock(&self, epoch: u64) -> (r: Option<usize>)
        ensures
            r matches Some(i) ==> i == index_of_unlock(self@, epoch),
            r is None ==> index_of_unlock(self@, epoch) < 0,
    {
        let ghost s = self@;
        let n = self.positions.len();
        let mut i: usize = n;
        assert(s.take(n as int) =~= s);
        while i > 0
            invariant
                s == self.positions@,
                n == s.len(),
                0 <= i <= n,
                index_of_unlock(s, epoch) == index_of_unlock(s.take(i as int), epoch),
            decreases i,
        {
            let ghost t = s.take(i as int);
            assert(t.drop_last() =~= s.take(i - 1));
            if self.positions[i - 1].unlock_epoch == epoch {
                return Some(i - 1);
            }
            i -= 1;
        }
        assert(s.take(0) =~= Seq::<LockPosition>::empty());
        None
    }

    /// The position with identifier `id`; `UnknownPosition` when there is none.
    pub fn read(&self, id: u64) -> (r: Result<LockPosition, LockError>)
        ensures
            index_of_id(self@, id) < 0 ==> r == Err::<LockPosition, LockError>(LockError::UnknownPosition),
            index_of_id(self@, id) >= 0 ==> r == Ok::<LockPosition, LockError>(self@[index_of_id(self@, id)]),
            r matches Ok(p) ==> p.id == id,
    {
        proof {
            lemma_index_of_id(self@, id);
        }
        match self.find_id(id) {
            Some(i) => Ok(self.positions[i]),
            None => Err(LockError::UnknownPosition),
        }
    }

    /// Whether locking `amount` more until `epoch` keeps every amount within
    /// `u128`.
    pub fn can_merge(&self, amount: u128, epoch: u64) -> (r: bool)
        ensures
            r == merge_fits(self@, amount as int, epoch),
    {
        proof {
            lemma_index_of_unlock(self@, epoch);
        }
        match self.find_unlock(epoch) {
            Some(i) => self.positions[i].amount <= u128::MAX - amount,
            None => true,
        }
    }

    /// Locks `amount` until `epoch`: it joins the position that already unlocks
    /// then, or else a new position with identifier `fresh_id`. Returns the
    /// identifier of the position that holds it.
    pub fn create_or_merge(&mut self, amount: u128, epoch: u64, fresh_id: u64) -> (r: u64)
        requires
            merge_fits(old(self)@, amount as int, epoch),
        ensures
            final(self)@ == merged(old(self)@, amount as int, epoch, fresh_id),
            r == merged_id(old(self)@, epoch, fresh_id),
    {
        proof {
            lemma_index_of_unlock(self@, epoch);
        }
        match self.find_unlock(epoch) {
            Some(i) => {
                let p = self.positions[i];
                let q = LockPosition { amount: p.amount + amount, ..p };
                self.positions.set(i, q);
                p.id
            },
            None => {
                self.positions.push(LockPosition { id: fresh_id, amount, unlock_epoch: epoch });
                fresh_id
            },
        }
    }

    /// Takes `amount` from the position at `index`, removing the position
    /// when nothing is left of it. Returns the identifier of what remains,
    /// if anything does.
    pub fn split_partial(&mut self, index: usize, amount: u128) -> (r: Option<u64>)
        requires
            index < old(self)@.len(),
            amount <= old(self)@[index as int].amount,
        ensures
            final(self)@ == split(old(self)@, index as int, amount as int),
            r == if amount == old(self)@[index as int].amount {
                None
            } else {
                Some(old(self)@[index as int].id)
            },
    {
        let p = self.positions[index];
        if amount == p.amount {
            self.positions.remove(index);
            None
        } else {
            self.positions.set(index, LockPosition { amount: p.amount - amount, ..p });
            Some(p.id)
        }
    }
}

} // verus!
