use vstd::prelude::*;

verus! {

/// Penalties gathered during one week for one bucket: the unlock epoch that
/// the forfeited tokens keep.
#[derive(Clone, Copy, Debug, PartialEq, Eq, Structural)]
pub struct PendingFee {
    pub unlock_epoch: u64,
    pub week: u64,
    pub amount: u128,
}

/// A bucket handed on to the fee collector.
#[derive(Clone, Copy, Debug, PartialEq, Eq, Structural)]
pub struct FeeNotice {
    pub unlock_epoch: u64,
    pub amount: u128,
}

/// The pending buckets and the notices not yet taken by the fee collector.
pub type BatchView = (Seq<PendingFee>, Seq<FeeNotice>);

/// The notice that flushing `p` sends.
pub open spec fn notice_of(p: PendingFee) -> FeeNotice {
    FeeNotice { unlock_epoch: p.unlock_epoch, amount: p.amount }
}

/// Distinct buckets, none of them from a week after `week`.
pub open spec fn buckets_wf(s: Seq<PendingFee>, week: int) -> bool {
    &&& forall|i: int| 0 <= i < s.len() ==> #[trigger] s[i].week <= week
    &&& forall|i: int, j: int|
        0 <= i < s.len() && 0 <= j < s.len() && i != j ==> #[trigger] s[i].unlock_epoch
            != #[trigger] s[j].unlock_epoch
}

/// The index of the bucket for `key`, or -1.
pub open spec fn index_of_bucket(s: Seq<PendingFee>, key: u64) -> int
    decreases s.len(),
{
    if s.len() == 0 {
        -1
    } else if s.last().unlock_epoch == key {
        s.len() - 1
    } else {
        index_of_bucket(s.drop_last(), key)
    }
}

/// The batcher after a penalty of `amount` for bucket `key` in `week`: added
/// to the bucket when it is of this week; otherwise the old bucket is flushed
/// and a fresh one holds the penalty.
pub open spec fn accumulated(v: BatchView, key: u64, amount: int, week: u64) -> BatchView {
    let i = index_of_bucket(v.0, key);
    if i < 0 {
        (v.0.push(PendingFee { unlock_epoch: key, week, amount: amount as u128 }), v.1)
    } else if v.0[i].week == week {
        (v.0.update(i, PendingFee { amount: (v.0[i].amount + amount) as u128, ..v.0[i] }), v.1)
    } else {
        (
            v.0.update(i, PendingFee { unlock_epoch: key, week, amount: amount as u128 }),
            v.1.push(notice_of(v.0[i])),
        )
    }
}

/// Whether a penalty of `amount` for `key` in `week` fits in its bucket.
pub open spec fn accumulate_fits(v: BatchView, key: u64, amount: int, week: u64) -> bool {
    let i = index_of_bucket(v.0, key);
    i >= 0 && v.0[i].week == week ==> v.0[i].amount + amount <= u128::MAX
}

/// The buckets from before `week`, in order.
pub open spec fn stale(s: Seq<PendingFee>, week: int) -> Seq<PendingFee>
    decreases s.len(),
{
    if s.len() == 0 {
        s
    } else if s.last().week < week {
        stale(s.drop_last(), week).push(s.last())
    } else {
        stale(s.drop_last(), week)
    }
}

/// The buckets of `week` or later, in order.
pub open spec fn current(s: Seq<PendingFee>, week: int) -> Seq<PendingFee>
    decreases s.len(),
{
    if s.len() == 0 {
        s
    } else if s.last().week < week {
        current(s.drop_last(), week)
    } else {
        current(s.drop_last(), week).push(s.last())
    }
}

/// The batcher after every bucket from before `week` is flushed.
pub open spec fn swept(v: BatchView, week: int) -> BatchView {
    (current(v.0, week), v.1 + stale(v.0, week).map_values(|p: PendingFee| notice_of(p)))
}

pub proof fn lemma_index_of_bucket(s: Seq<PendingFee>, key: u64)
    ensures
        -1 <= index_of_bucket(s, key) < s.len(),
        index_of_bucket(s, key) >= 0 ==> s[index_of_bucket(s, key)].unlock_epoch == key,
        index_of_bucket(s, key) < 0 <==> forall|k: int|
            0 <= k < s.len() ==> #[trigger] s[k].unlock_epoch != key,
    decreases s.len(),
{
    if s.len() > 0 {
        lemma_index_of_bucket(s.drop_last(), key);
        if s.last().unlock_epoch != key {
            assert forall|k: int|
                0 <= k < s.len() && #[trigger] s[k].unlock_epoch == key implies k < s.len() - 1
                && s.drop_last()[k].unlock_epoch == key by {}
        }
    }
}

/// The buckets kept by a sweep are buckets of `s`, of `week` or later, and
/// stay distinct.
pub proof fn lemma_current_wf(s: Seq<PendingFee>, week: int, bound: int)
    requires
        buckets_wf(s, bound),
    ensures
        buckets_wf(current(s, week), bound),
        forall|k: int| 0 <= k < current(s, week).len() ==> s.contains(#[trigger] current(s, week)[k]),
    decreases s.len(),
{
    if s.len() > 0 {
        let t = s.drop_last();
        assert(buckets_wf(t, bound)) by {
            assert forall|a: int, b: int|
                0 <= a < t.len() && 0 <= b < t.len() && a != b implies #[trigger] t[a].unlock_epoch
                != #[trigger] t[b].unlock_epoch by {
                assert(t[a] == s[a] && t[b] == s[b]);
            }
            assert forall|a: int| 0 <= a < t.len() implies #[trigger] t[a].week <= bound by {
                assert(t[a] == s[a]);
            }
        }
        lemma_current_wf(t, week, bound);
        let c = current(t, week);
        assert forall|k: int| 0 <= k < c.len() implies s.contains(#[trigger] c[k]) by {
            let j = choose|j: int| 0 <= j < t.len() && t[j] == c[k];
            assert(s[j] == c[k]);
        }
        if s.last().week >= week {
            let r = c.push(s.last());
            assert forall|a: int, b: int|
                0 <= a < r.len() && 0 <= b < r.len() && a != b implies #[trigger] r[a].unlock_epoch
                != #[trigger] r[b].unlock_epoch by {
                if a == c.len() {
                    let j = choose|j: int| 0 <= j < t.len() && t[j] == c[b];
                    assert(s[j] == r[b]);
                } else if b == c.len() {
                    let j = choose|j: int| 0 <= j < t.len() && t[j] == c[a];
                    assert(s[j] == r[a]);
                }
            }
            assert forall|k: int| 0 <= k < r.len() implies s.contains(#[trigger] r[k]) by {
                if k == c.len() {
                    assert(s[s.len() - 1] == r[k]);
                }
            }
            assert(r[c.len() as int].week <= bound) by {
                assert(s[s.len() - 1] == r[c.len() as int]);
            }
        }
    }
}

/// Accumulating keeps the buckets distinct and none of them later than the
/// week of the penalty.
pub proof fn lemma_accumulated_wf(v: BatchView, key: u64, amount: int, week: u64, later: int)
    requires
        buckets_wf(v.0, week as int),
        week <= later,
    ensures
        buckets_wf(accumulated(v, key, amount, week).0, later),
        index_of_bucket(accumulated(v, key, amount, week).0, key) >= 0,
{
    lemma_index_of_bucket(v.0, key);
    let r = accumulated(v, key, amount, week).0;
    let i = index_of_bucket(v.0, key);
    if i < 0 {
        assert forall|a: int, b: int|
            0 <= a < r.len() && 0 <= b < r.len() && a != b implies #[trigger] r[a].unlock_epoch
            != #[trigger] r[b].unlock_epoch by {
            if a == v.0.len() {
                assert(v.0[b].unlock_epoch != key);
            } else if b == v.0.len() {
                assert(v.0[a].unlock_epoch != key);
            }
        }
        assert(r[r.len() - 1].unlock_epoch == key);
    } else {
        assert(r[i].unlock_epoch == key);
    }
    lemma_index_of_bucket(r, key);
}

/// Two penalties for one bucket in one week leave the batcher as one penalty
/// of their sum does: the same pending amount, and the same notices, so the
/// same total once flushed.
pub proof fn lemma_same_week_batching(v: BatchView, key: u64, a1: int, a2: int, week: u64)
    requires
        buckets_wf(v.0, week as int),
        0 <= a1,
        0 <= a2,
        a1 + a2 <= u128::MAX,
        accumulate_fits(v, key, a1 + a2, week),
    ensures
        accumulated(accumulated(v, key, a1, week), key, a2, week) == accumulated(v, key, a1 + a2, week),
{
    lemma_index_of_bucket(v.0, key);
    let w = accumulated(v, key, a1, week);
    lemma_accumulated_wf(v, key, a1, week, week as int);
    lemma_index_of_bucket(w.0, key);
    let i = index_of_bucket(v.0, key);
    let j = index_of_bucket(w.0, key);
    if i < 0 {
        assert(j == v.0.len()) by {
            assert(w.0[v.0.len() as int].unlock_epoch == key);
        }
        assert(w.0[j].week == week);
    } else {
        assert(j == i) by {
            assert(w.0[i].unlock_epoch == key);
        }
        assert(w.0[j].week == week);
    }
    let lhs = accumulated(w, key, a2, week);
    let rhs = accumulated(v, key, a1 + a2, week);
    assert(lhs.0 =~= rhs.0);
    assert(lhs.1 =~= rhs.1);
}

/// A penalty sends at most one notice: exactly one when its bucket holds
/// penalties of an earlier week, and none otherwise. Another penalty for the
/// same bucket in the same week then sends none.
pub proof fn lemma_flush_once(v: BatchView, key: u64, a1: int, a2: int, week: u64)
    requires
        buckets_wf(v.0, week as int),
    ensures
        ({
            let i = index_of_bucket(v.0, key);
            let w = accumulated(v, key, a1, week);
            &&& i >= 0 && v.0[i].week < week ==> w.1 == v.1.push(notice_of(v.0[i]))
            &&& !(i >= 0 && v.0[i].week < week) ==> w.1 == v.1
            &&& accumulated(w, key, a2, week).1 == w.1
        }),
{
    lemma_index_of_bucket(v.0, key);
    let w = accumulated(v, key, a1, week);
    lemma_accumulated_wf(v, key, a1, week, week as int);
    lemma_index_of_bucket(w.0, key);
    let i = index_of_bucket(v.0, key);
    let j = index_of_bucket(w.0, key);
    if i < 0 {
        assert(j == v.0.len()) by {
            assert(w.0[v.0.len() as int].unlock_epoch == key);
        }
    } else {
        assert(j == i) by {
            assert(w.0[i].unlock_epoch == key);
        }
    }
    assert(w.0[j].week == week);
}

/// Weekly batches of penalties, keyed by the unlock epoch the forfeited tokens
/// keep, and the notices flushed for the fee collector.
pub struct WeeklyFeeBatcher {
    pending: Vec<PendingFee>,
    flushed: Vec<FeeNotice>,
}

impl View for WeeklyFeeBatcher {
    type V = BatchView;

    closed spec fn view(&self) -> BatchView {
        (self.pending@, self.flushed@)
    }
}

impl WeeklyFeeBatcher {
    /// A batcher with nothing pending.
    pub fn new() -> (r: Self)
        ensures
            r@.0 == Seq::<PendingFee>::empty(),
            r@.1 == Seq::<FeeNotice>::empty(),
    {
        WeeklyFeeBatcher { pending: Vec::new(), flushed: Vec::new() }
    }

    fn find(&self, key: u64) -> (r: Option<usize>)
        ensures
            r matches Some(i) ==> i == index_of_bucket(self@.0, key),
            r is None ==> index_of_bucket(self@.0, key) < 0,
    {
        let ghost s = self@.0;
        let n = self.pending.len();
        let mut i: usize = n;
        assert(s.take(n as int) =~= s);
        while i > 0
            invariant
                s == self.pending@,
                n == s.len(),
                0 <= i <= n,
                index_of_bucket(s, key) == index_of_bucket(s.take(i as int), key),
            decreases i,
        {
            assert(s.take(i as int).drop_last() =~= s.take(i - 1));
            if self.pending[i - 1].unlock_epoch == key {
                return Some(i - 1);
            }
            i -= 1;
        }
        assert(s.take(0) =~= Seq::<PendingFee>::empty());
        None
    }

    /// The bucket for `key`, if one is pending.
    pub fn pending_for(&self, key: u64) -> (r: Option<PendingFee>)
        ensures
            index_of_bucket(self@.0, key) < 0 ==> r is None,
            index_of_bucket(self@.0, key) >= 0 ==> r == Some(self@.0[index_of_bucket(self@.0, key)]),
    {
        proof {
            lemma_index_of_bucket(self@.0, key);
        }
        match self.find(key) {
            Some(i) => Some(self.pending[i]),
            None => None,
        }
    }

    /// Whether a penalty of `amount` for `key` in `week` fits in its bucket.
    pub fn fits(&self, key: u64, amount: u128, week: u64) -> (r: bool)
        ensures
            r == accumulate_fits(self@, key, amount as int, week),
    {
        proof {
            lemma_index_of_bucket(self@.0, key);
        }
        match self.find(key) {
            Some(i) => self.pending[i].week != week || self.pending[i].amount <= u128::MAX - amount,
            None => true,
        }
    }

    /// Adds a penalty of `amount` for bucket `key` in `week`, first flushing
    /// the bucket when it holds penalties of an earlier week.
    pub fn accumulate(&mut self, key: u64, amount: u128, week: u64)
        requires
            accumulate_fits(old(self)@, key, amount as int, week),
        ensures
            final(self)@ == accumulated(old(self)@, key, amount as int, week),
    {
        proof {
            lemma_index_of_bucket(self@.0, key);
        }
        match self.find(key) {
            Some(i) => {
                let p = self.pending[i];
                if p.week == week {
                    self.pending.set(i, PendingFee { amount: p.amount + amount, ..p });
                } else {
                    self.flushed.push(FeeNotice { unlock_epoch: p.unlock_epoch, amount: p.amount });
                    self.pending.set(i, PendingFee { unlock_epoch: key, week, amount });
                }
            },
            None => {
                self.pending.push(PendingFee { unlock_epoch: key, week, amount });
            },
        }
    }

    /// Flushes every bucket from before `week`, as an end-of-week sweep.
    pub fn sweep(&mut self, week: u64)
        ensures
            final(self)@ == swept(old(self)@, week as int),
    {
        let ghost s = self@.0;
        let ghost f = self@.1;
        let n = self.pending.len();
        let mut kept: Vec<PendingFee> = Vec::new();
        let mut i: usize = 0;
        assert(s.take(0) =~= Seq::<PendingFee>::empty());
        assert(f + stale(s.take(0), week as int).map_values(|p: PendingFee| notice_of(p)) =~= f);
        while i < n
            invariant
                s == self.pending@,
                n == s.len(),
                0 <= i <= n,
                kept@ == current(s.take(i as int), week as int),
                self.flushed@ == f + stale(s.take(i as int), week as int).map_values(
                    |p: PendingFee| notice_of(p),
                ),
            decreases n - i,
        {
            let p = self.pending[i];
            let ghost t = s.take(i + 1);
            assert(t.drop_last() =~= s.take(i as int));
            assert(t.last() == p);
            if p.week < week {
                self.flushed.push(FeeNotice { unlock_epoch: p.unlock_epoch, amount: p.amount });
                assert(self.flushed@ =~= f + stale(t, week as int).map_values(|p: PendingFee| notice_of(p)));
            } else {
                kept.push(p);
            }
            i += 1;
        }
        assert(s.take(n as int) =~= s);
        self.pending = kept;
    }

    /// Hands over the flushed notices, leaving none.
    pub fn take_flushed(&mut self) -> (r: Vec<FeeNotice>)
        ensures
            r@ == old(self)@.1,
            final(self)@.0 == old(self)@.0,
            final(self)@.1 == Seq::<FeeNotice>::empty(),
    {
        let mut out: Vec<FeeNotice> = Vec::new();
        std::mem::swap(&mut out, &mut self.flushed);
        out
    }
}

} // verus!
