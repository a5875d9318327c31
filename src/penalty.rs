use vstd::prelude::*;
use vstd::arithmetic::div_mod::{lemma_div_is_ordered, lemma_hoist_over_denominator, lemma_fundamental_div_mod};
use vstd::arithmetic::mul::lemma_mul_inequality;

use crate::error::LockError;

verus! {

/// Basis points that make up the whole of an amount.
pub const MAX_PENALTY_BPS: u64 = 10_000;

/// One supported lock duration and the penalty, in basis points, for leaving a
/// position of that full duration at once.
#[derive(Clone, Copy, Debug, PartialEq, Eq, Structural)]
pub struct LockOption {
    pub lock_epochs: u64,
    pub penalty_bps: u64,
}

/// The supported lock options, ordered by duration.
///
/// Durations are positive and strictly increasing; penalties are at most the
/// whole amount and never decrease with the duration.
pub open spec fn options_wf(s: Seq<LockOption>) -> bool {
    &&& s.len() > 0
    &&& forall|i: int| 0 <= i < s.len() ==> #[trigger] s[i].lock_epochs > 0
        && s[i].penalty_bps <= MAX_PENALTY_BPS
    &&& forall|i: int, j: int|
        0 <= i < j < s.len() ==> #[trigger] s[i].lock_epochs < #[trigger] s[j].lock_epochs
            && s[i].penalty_bps <= s[j].penalty_bps
}

/// The longest configured duration.
pub open spec fn max_epochs(s: Seq<LockOption>) -> int {
    s.last().lock_epochs as int
}

/// Whether `epochs` is one of the configured durations.
pub open spec fn is_option(s: Seq<LockOption>, epochs: int) -> bool {
    exists|i: int| 0 <= i < s.len() && #[trigger] s[i].lock_epochs == epochs
}

/// The duration at which tier `i` starts: that of the tier below, or zero.
pub open spec fn tier_floor_epochs(s: Seq<LockOption>, i: int) -> int {
    if i <= 0 {
        0
    } else {
        s[i - 1].lock_epochs as int
    }
}

/// The penalty at which tier `i` starts: that of the tier below, or zero.
pub open spec fn tier_floor_bps(s: Seq<LockOption>, i: int) -> int {
    if i <= 0 {
        0
    } else {
        s[i - 1].penalty_bps as int
    }
}

/// Linear interpolation between two points, rounded down.
pub open spec fn interpolate(min_in: int, max_in: int, x: int, min_out: int, max_out: int) -> int {
    min_out + (x - min_in) * (max_out - min_out) / (max_in - min_in)
}

/// The first tier, from `i` on, whose duration covers `remaining` (the last
/// tier if none does).
pub open spec fn tier_from(s: Seq<LockOption>, i: int, remaining: int) -> int
    decreases s.len() - i,
{
    if i + 1 >= s.len() || remaining <= s[i].lock_epochs {
        i
    } else {
        tier_from(s, i + 1, remaining)
    }
}

/// The tier whose duration range holds `remaining` epochs.
pub open spec fn tier_of(s: Seq<LockOption>, remaining: int) -> int {
    tier_from(s, 0, remaining)
}

/// The penalty, in basis points, for leaving at once a position with
/// `remaining` epochs left: interpolated between the tier below and the tier
/// that covers `remaining`, so that it falls to zero at maturity.
pub open spec fn full_exit_bps(s: Seq<LockOption>, remaining: int) -> int {
    let i = tier_of(s, remaining);
    interpolate(
        tier_floor_epochs(s, i),
        s[i].lock_epochs as int,
        remaining,
        tier_floor_bps(s, i),
        s[i].penalty_bps as int,
    )
}

/// The rate, in basis points of the whole amount, charged for moving from a
/// full-exit rate of `prev_bps` to one of `new_bps`: the share of what is kept
/// that the difference stands for.
pub open spec fn reduce_bps(prev_bps: int, new_bps: int) -> int {
    if new_bps >= MAX_PENALTY_BPS {
        0
    } else {
        (prev_bps - new_bps) * MAX_PENALTY_BPS / (MAX_PENALTY_BPS - new_bps)
    }
}

/// `bps` basis points of `amount`, rounded down.
pub open spec fn bps_of(amount: int, bps: int) -> int {
    amount * bps / MAX_PENALTY_BPS as int
}

/// The penalty on `amount` for going from `prev_remaining` epochs left to
/// `new_remaining` epochs left; a full early exit has `new_remaining == 0`.
pub open spec fn penalty_of(s: Seq<LockOption>, amount: int, prev_remaining: int, new_remaining: int) -> int {
    bps_of(amount, reduce_bps(full_exit_bps(s, prev_remaining), full_exit_bps(s, new_remaining)))
}

proof fn lemma_scaled_bound(a: int, w: int, d: int)
    requires
        0 <= a <= w,
        0 < w,
        0 <= d,
    ensures
        0 <= a * d / w <= d,
{
    lemma_mul_inequality(a, w, d);
    lemma_mul_inequality(0, a, d);
    lemma_div_is_ordered(a * d, w * d, w);
    lemma_div_is_ordered(0, a * d, w);
    assert(w * d / w == d) by (nonlinear_arith)
        requires
            0 < w,
    ;
}

/// The tier found from `i` lies in `[i, len)`, covers `remaining` when any
/// tier does, and starts below `remaining` when it is past the first tier.
proof fn lemma_tier_from(s: Seq<LockOption>, i: int, remaining: int)
    requires
        options_wf(s),
        0 <= i < s.len(),
        i > 0 ==> remaining > s[i - 1].lock_epochs,
    ensures
        i <= tier_from(s, i, remaining) < s.len(),
        remaining <= max_epochs(s) ==> remaining <= s[tier_from(s, i, remaining)].lock_epochs,
        tier_from(s, i, remaining) > 0 ==> remaining > s[tier_from(s, i, remaining) - 1].lock_epochs,
    decreases s.len() - i,
{
    if i + 1 >= s.len() || remaining <= s[i].lock_epochs {
    } else {
        lemma_tier_from(s, i + 1, remaining);
    }
}

/// Facts on the tier that covers `remaining`.
pub proof fn lemma_tier_of(s: Seq<LockOption>, remaining: int)
    requires
        options_wf(s),
        0 <= remaining <= max_epochs(s),
    ensures
        0 <= tier_of(s, remaining) < s.len(),
        tier_floor_epochs(s, tier_of(s, remaining)) <= remaining,
        remaining <= s[tier_of(s, remaining)].lock_epochs,
        tier_of(s, remaining) > 0 ==> remaining > s[tier_of(s, remaining) - 1].lock_epochs,
{
    lemma_tier_from(s, 0, remaining);
}

/// The full-exit rate lies between the floor of its tier and the tier's own
/// penalty, and so within `[0, MAX_PENALTY_BPS]`.
pub proof fn lemma_full_exit_bps_bounds(s: Seq<LockOption>, remaining: int)
    requires
        options_wf(s),
        0 <= remaining <= max_epochs(s),
    ensures
        tier_floor_bps(s, tier_of(s, remaining)) <= full_exit_bps(s, remaining)
            <= s[tier_of(s, remaining)].penalty_bps,
        0 <= full_exit_bps(s, remaining) <= MAX_PENALTY_BPS,
{
    lemma_tier_of(s, remaining);
    let i = tier_of(s, remaining);
    let lo = tier_floor_epochs(s, i);
    let w = s[i].lock_epochs - lo;
    let d = s[i].penalty_bps - tier_floor_bps(s, i);
    if i > 0 {
        assert(s[i - 1].lock_epochs < s[i].lock_epochs);
        assert(s[i - 1].penalty_bps <= s[i].penalty_bps);
    }
    lemma_scaled_bound(remaining - lo, w, d);
}

/// The rate of a reduction lies within `[0, MAX_PENALTY_BPS]` when the old
/// rate is at least the new one.
pub proof fn lemma_reduce_bps_bounds(prev_bps: int, new_bps: int)
    requires
        0 <= new_bps <= prev_bps <= MAX_PENALTY_BPS,
    ensures
        0 <= reduce_bps(prev_bps, new_bps) <= MAX_PENALTY_BPS,
{
    if new_bps < MAX_PENALTY_BPS {
        lemma_scaled_bound(prev_bps - new_bps, MAX_PENALTY_BPS - new_bps, MAX_PENALTY_BPS as int);
        lemma_mul_inequality(prev_bps - new_bps, MAX_PENALTY_BPS - new_bps, MAX_PENALTY_BPS as int);
        lemma_div_is_ordered(
            (prev_bps - new_bps) * MAX_PENALTY_BPS,
            (MAX_PENALTY_BPS - new_bps) * MAX_PENALTY_BPS,
            MAX_PENALTY_BPS - new_bps,
        );
    }
}

/// A share in basis points of an amount is never more than the amount.
pub proof fn lemma_bps_of_bounds(amount: int, bps: int)
    requires
        0 <= amount,
        0 <= bps <= MAX_PENALTY_BPS,
    ensures
        0 <= bps_of(amount, bps) <= amount,
{
    lemma_scaled_bound(bps, MAX_PENALTY_BPS as int, amount);
    assert(amount * bps == bps * amount) by (nonlinear_arith);
}

/// `bps` basis points of `amount`, rounded down, without an intermediate
/// product that could overflow.
pub fn apply_bps(amount: u128, bps: u64) -> (r: u128)
    requires
        bps <= MAX_PENALTY_BPS,
    ensures
        r == bps_of(amount as int, bps as int),
        r <= amount,
{
    let q: u128 = amount / 10_000;
    let rem: u128 = amount % 10_000;
    proof {
        lemma_fundamental_div_mod(amount as int, 10_000);
        lemma_mul_inequality(q as int, amount as int / 10_000, bps as int);
        lemma_mul_inequality(bps as int, MAX_PENALTY_BPS as int, q as int);
        assert(q * 10_000 <= amount) by (nonlinear_arith)
            requires
                q == amount as int / 10_000,
                amount as int == 10_000 * q + rem,
                rem >= 0,
        ;
        assert(q * bps <= amount) by (nonlinear_arith)
            requires
                q * 10_000 <= amount,
                bps <= 10_000,
                q >= 0,
        ;
        lemma_mul_inequality(rem as int, 9_999, bps as int);
        lemma_mul_inequality(bps as int, 10_000, 9_999);
        lemma_bps_of_bounds(amount as int, bps as int);
    }
    let whole: u128 = q * (bps as u128);
    let part: u128 = rem * (bps as u128) / 10_000;
    proof {
        let x = rem as int * bps as int;
        lemma_hoist_over_denominator(x, whole as int, 10_000);
        assert(amount as int * bps as int == x + whole as int * 10_000) by (nonlinear_arith)
            requires
                amount as int == 10_000 * q + rem,
                whole as int == q * bps,
                x == rem * bps,
        ;
        lemma_scaled_bound(rem as int, 10_000, bps as int);
    }
    whole + part
}

/// The supported lock options, ordered by duration.
pub struct LockOptionTable {
    options: Vec<LockOption>,
}

impl View for LockOptionTable {
    type V = Seq<LockOption>;

    closed spec fn view(&self) -> Seq<LockOption> {
        self.options@
    }
}

impl LockOptionTable {
    pub open spec fn wf(&self) -> bool {
        options_wf(self@)
    }

    /// Builds the table from options ordered by duration; `None` when the
    /// options are empty, out of order, have a zero duration, a penalty over
    /// the whole amount, or a penalty that falls as the duration grows.
    pub fn new(options: Vec<LockOption>) -> (r: Option<Self>)
        ensures
            r is Some <==> options_wf(options@),
            r matches Some(t) ==> t@ == options@,
    {
        let n = options.len();
        if n == 0 {
            return None;
        }
        let mut i: usize = 0;
        while i < n
            invariant
                n == options.len(),
                0 <= i <= n,
                forall|k: int| 0 <= k < i ==> #[trigger] options@[k].lock_epochs > 0
                    && options@[k].penalty_bps <= MAX_PENALTY_BPS,
                forall|a: int, b: int|
                    0 <= a < b < i ==> #[trigger] options@[a].lock_epochs
                        < #[trigger] options@[b].lock_epochs && options@[a].penalty_bps
                        <= options@[b].penalty_bps,
            decreases n - i,
        {
            let o = options[i];
            if o.lock_epochs == 0 || o.penalty_bps > MAX_PENALTY_BPS {
                assert(!options_wf(options@)) by {
                    assert(options@[i as int] == o);
                }
                return None;
            }
            if i > 0 {
                let p = options[i - 1];
                if p.lock_epochs >= o.lock_epochs || p.penalty_bps > o.penalty_bps {
                    assert(!options_wf(options@)) by {
                        assert(options@[i - 1] == p);
                        assert(options@[i as int] == o);
                    }
                    return None;
                }
                assert(options@[i - 1] == p);
                assert(options@[i as int] == o);
                assert forall|a: int, b: int|
                    0 <= a < b < i + 1 implies #[trigger] options@[a].lock_epochs
                    < #[trigger] options@[b].lock_epochs && options@[a].penalty_bps
                    <= options@[b].penalty_bps by {
                    if b == i && a < i - 1 {
                        assert(options@[a].lock_epochs < options@[i - 1].lock_epochs);
                    }
                }
            }
            i += 1;
        }
        Some(LockOptionTable { options })
    }

    /// The number of options.
    pub fn len(&self) -> (r: usize)
        ensures
            r == self@.len(),
    {
        self.options.len()
    }

    /// The option at `index`.
    pub fn get(&self, index: usize) -> (r: LockOption)
        requires
            index < self@.len(),
        ensures
            r == self@[index as int],
    {
        self.options[index]
    }

    /// Whether `epochs` is one of the configured durations.
    pub fn contains(&self, epochs: u64) -> (r: bool)
        ensures
            r == is_option(self@, epochs as int),
    {
        let mut i: usize = 0;
        while i < self.options.len()
            invariant
                0 <= i <= self@.len(),
                self@ == self.options@,
                forall|k: int| 0 <= k < i ==> #[trigger] self@[k].lock_epochs != epochs,
            decreases self@.len() - i,
        {
            if self.options[i].lock_epochs == epochs {
                assert(self@[i as int].lock_epochs == epochs);
                return true;
            }
            i += 1;
        }
        false
    }

    /// The longest configured duration.
    pub fn max_lock_epochs(&self) -> (r: u64)
        requires
            self.wf(),
        ensures
            r == max_epochs(self@),
    {
        self.options[self.options.len() - 1].lock_epochs
    }

    /// The penalty rate, in basis points, for leaving at once a position with
    /// `remaining` epochs left.
    pub fn full_exit_bps(&self, remaining: u64) -> (r: u64)
        requires
            self.wf(),
            remaining <= max_epochs(self@),
        ensures
            r == full_exit_bps(self@, remaining as int),
            r <= MAX_PENALTY_BPS,
    {
        let ghost s = self@;
        let n = self.options.len();
        let mut i: usize = 0;
        while i + 1 < n && remaining > self.options[i].lock_epochs
            invariant
                s == self.options@,
                n == s.len(),
                options_wf(s),
                0 <= i < n,
                tier_from(s, i as int, remaining as int) == tier_of(s, remaining as int),
                i > 0 ==> remaining > s[i - 1].lock_epochs,
            decreases n - i,
        {
            i += 1;
        }
        proof {
            lemma_tier_of(s, remaining as int);
            lemma_full_exit_bps_bounds(s, remaining as int);
        }
        let hi = self.options[i];
        let (lo_epochs, lo_bps) = if i == 0 {
            (0u64, 0u64)
        } else {
            (self.options[i - 1].lock_epochs, self.options[i - 1].penalty_bps)
        };
        proof {
            if i > 0 {
                assert(s[i - 1].lock_epochs < s[i as int].lock_epochs);
                assert(s[i - 1].penalty_bps <= s[i as int].penalty_bps);
            }
            lemma_mul_inequality(
                (remaining - lo_epochs) as int,
                u64::MAX as int,
                (hi.penalty_bps - lo_bps) as int,
            );
            lemma_mul_inequality((hi.penalty_bps - lo_bps) as int, MAX_PENALTY_BPS as int, u64::MAX as int);
        }
        let scaled: u128 = ((remaining - lo_epochs) as u128) * ((hi.penalty_bps - lo_bps) as u128)
            / ((hi.lock_epochs - lo_epochs) as u128);
        proof {
            lemma_scaled_bound(
                (remaining - lo_epochs) as int,
                (hi.lock_epochs - lo_epochs) as int,
                (hi.penalty_bps - lo_bps) as int,
            );
        }
        lo_bps + scaled as u64
    }

    /// The penalty on `amount` for going from `prev_remaining` epochs left to
    /// `new_remaining` epochs left (zero for a full early exit).
    ///
    /// Refused with `InvalidLockChoice` when `prev_remaining` is beyond the
    /// longest option, and with `MustShortenPeriod` when `new_remaining` is
    /// longer than `prev_remaining`.
    pub fn penalty_amount(&self, amount: u128, prev_remaining: u64, new_remaining: u64) -> (r: Result<u128, LockError>)
        requires
            self.wf(),
        ensures
            prev_remaining > max_epochs(self@) ==> r == Err::<u128, LockError>(LockError::InvalidLockChoice),
            prev_remaining <= max_epochs(self@) && new_remaining > prev_remaining ==> r == Err::<u128, LockError>(LockError::MustShortenPeriod),
            prev_remaining <= max_epochs(self@) && new_remaining <= prev_remaining ==> r == Ok::<u128, LockError>(
                penalty_of(self@, amount as int, prev_remaining as int, new_remaining as int) as u128,
            ),
            r matches Ok(p) ==> p <= amount,
    {
        if prev_remaining > self.max_lock_epochs() {
            return Err(LockError::InvalidLockChoice);
        }
        if new_remaining > prev_remaining {
            return Err(LockError::MustShortenPeriod);
        }
        Ok(self.penalty_within(amount, prev_remaining, new_remaining))
    }

    /// The penalty on `amount` for going from `prev_remaining` epochs left to
    /// `new_remaining` epochs left, where both are within the table.
    pub fn penalty_within(&self, amount: u128, prev_remaining: u64, new_remaining: u64) -> (r: u128)
        requires
            self.wf(),
            new_remaining <= prev_remaining <= max_epochs(self@),
        ensures
            r == penalty_of(self@, amount as int, prev_remaining as int, new_remaining as int),
            r <= amount,
    {
        let prev_bps = self.full_exit_bps(prev_remaining);
        let new_bps = self.full_exit_bps(new_remaining);
        proof {
            lemma_full_exit_bps_monotonic(self@, new_remaining as int, prev_remaining as int);
            lemma_reduce_bps_bounds(prev_bps as int, new_bps as int);
        }
        let rate: u64 = if new_bps >= MAX_PENALTY_BPS {
            0
        } else {
            (prev_bps - new_bps) * MAX_PENALTY_BPS / (MAX_PENALTY_BPS - new_bps)
        };
        apply_bps(amount, rate)
    }
}

/// The full-exit rate never decreases as more epochs remain.
pub proof fn lemma_full_exit_bps_monotonic(s: Seq<LockOption>, r1: int, r2: int)
    requires
        options_wf(s),
        0 <= r1 <= r2 <= max_epochs(s),
    ensures
        full_exit_bps(s, r1) <= full_exit_bps(s, r2),
{
    lemma_tier_of(s, r1);
    lemma_tier_of(s, r2);
    lemma_full_exit_bps_bounds(s, r1);
    lemma_full_exit_bps_bounds(s, r2);
    let i = tier_of(s, r1);
    let j = tier_of(s, r2);
    if i == j {
        let lo = tier_floor_epochs(s, i);
        let w = s[i].lock_epochs - lo;
        let d = s[i].penalty_bps - tier_floor_bps(s, i);
        if i > 0 {
            assert(s[i - 1].penalty_bps <= s[i].penalty_bps);
        }
        lemma_mul_inequality(r1 - lo, r2 - lo, d);
        lemma_div_is_ordered((r1 - lo) * d, (r2 - lo) * d, w);
    } else if i < j {
        assert(s[i].penalty_bps <= s[j - 1].penalty_bps) by {
            if i < j - 1 {
                assert(s[i].penalty_bps <= s[j - 1].penalty_bps);
            }
        }
    } else {
        // j < i: r2 lies at or under the top of tier j, which is under r1.
        assert(s[j].lock_epochs <= s[i - 1].lock_epochs) by {
            if j < i - 1 {
                assert(s[j].lock_epochs < s[i - 1].lock_epochs);
            }
        }
    }
}

/// For a fixed table, the penalty for leaving a position at once never grows
/// as fewer epochs remain, both as a rate and as an amount, and it is zero at
/// maturity.
pub proof fn lemma_penalty_monotonic(s: Seq<LockOption>, amount: int, r1: int, r2: int)
    requires
        options_wf(s),
        0 <= amount,
        0 <= r1 <= r2 <= max_epochs(s),
    ensures
        full_exit_bps(s, r1) <= full_exit_bps(s, r2),
        penalty_of(s, amount, r1, 0) <= penalty_of(s, amount, r2, 0),
        full_exit_bps(s, 0) == 0,
        penalty_of(s, amount, 0, 0) == 0,
{
    lemma_full_exit_bps_monotonic(s, r1, r2);
    lemma_tier_of(s, 0);
    lemma_full_exit_bps_bounds(s, 0);
    assert(full_exit_bps(s, 0) == 0) by {
        assert(tier_of(s, 0) == 0);
        assert(0 * (s[0].penalty_bps as int) == 0);
    }
    lemma_full_exit_bps_bounds(s, r1);
    lemma_full_exit_bps_bounds(s, r2);
    let b1 = full_exit_bps(s, r1);
    let b2 = full_exit_bps(s, r2);
    assert(reduce_bps(b1, 0) == b1) by {
        assert(b1 * MAX_PENALTY_BPS / MAX_PENALTY_BPS as int == b1) by (nonlinear_arith);
    }
    assert(reduce_bps(b2, 0) == b2) by {
        assert(b2 * MAX_PENALTY_BPS / MAX_PENALTY_BPS as int == b2) by (nonlinear_arith);
    }
    assert(reduce_bps(0, 0) == 0);
    lemma_mul_inequality(b1, b2, amount);
    assert(amount * b1 <= amount * b2) by (nonlinear_arith)
        requires
            b1 * amount <= b2 * amount,
    ;
    lemma_div_is_ordered(amount * b1, amount * b2, MAX_PENALTY_BPS as int);
}

} // verus!
