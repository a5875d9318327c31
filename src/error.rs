use vstd::prelude::*;

verus! {

/// Why an operation of the engine was refused. Every refusal leaves the
/// engine's state as it was.
#[derive(Clone, Copy, Debug, PartialEq, Eq, Structural)]
pub enum LockError {
    /// The deposited asset is not the lockable asset.
    InvalidAsset,
    /// The requested duration is not one of the configured lock options.
    InvalidLockChoice,
    /// The caller holds no position with this identifier.
    UnknownPosition,
    /// The requested amount exceeds the position's balance.
    InsufficientBalance,
    /// A maturity unlock was attempted before the unlock epoch.
    NotYetMature,
    /// An extension would not move the unlock epoch later.
    MustLengthenPeriod,
    /// A reduction would not shorten the remaining lock period.
    MustShortenPeriod,
    /// An amount of zero was given.
    ZeroAmount,
    /// The given epoch is earlier than one the engine has already seen.
    StaleEpoch,
    /// A result would not fit in its integer type.
    Overflow,
}

} // verus!
