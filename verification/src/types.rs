//! The data types of the allocator: contributions in, payout records out,
//! and the configuration of one round.

use vstd::prelude::*;

verus! {

/// One donation event: `sender` gave `amount` base units to `recipient`.
///
/// Amounts are unsigned by design: a negative donation, for which the
/// quadratic formula is undefined, cannot even be expressed, so no rejection
/// at the boundary is needed. Zero amounts are accepted and contribute
/// nothing.
#[derive(Debug, Clone)]
pub struct Contribution {
    pub recipient: String,
    pub amount: u64,
    pub sender: String,
}

/// One payout record: the match awarded to `recipient`, in base units.
#[derive(Debug, Clone)]
pub struct Matcha {
    pub recipient: String,
    pub matcha: u64,
}

/// What happens to the part of a match clamped off by the per-recipient cap:
/// `Cap` discards it, `Redistribute` hands it out once, in equal shares, to
/// the recipients still below the cap.
#[derive(Debug, Clone, Copy, PartialEq, Eq, Structural)]
pub enum MatchingCapStrategy {
    Cap,
    Redistribute,
}

impl Default for MatchingCapStrategy {
    fn default() -> (r: Self)
        ensures
            r is Cap,
    {
        MatchingCapStrategy::Cap
    }
}

/// Configuration of one allocation round.
#[derive(Debug, Clone, Copy)]
pub struct LinearQfOptions {
    /// Per-recipient ceiling on the match, in base units; `None` leaves
    /// matches uncapped.
    pub matching_cap_amount: Option<u64>,
    pub matching_cap_strategy: MatchingCapStrategy,
    /// Scale every match up so the whole pool is consumed when the raw
    /// matches fall short of it.
    pub upscale: bool,
}

impl Default for LinearQfOptions {
    fn default() -> (r: Self)
        ensures
            r.matching_cap_amount is None,
            r.matching_cap_strategy is Cap,
            !r.upscale,
    {
        LinearQfOptions {
            matching_cap_amount: None,
            matching_cap_strategy: MatchingCapStrategy::Cap,
            upscale: false,
        }
    }
}

/// The configurations rejected before any result is produced: upscaling
/// divides by the raw match total, so it is refused when the pool is empty or
/// when the raw match total is zero.
#[derive(Debug, Clone, Copy, PartialEq, Eq, Structural)]
pub enum QfError {
    /// `upscale` was set with `matching_pot == 0`.
    UpscaleWithZeroPot,
    /// `upscale` was set and the raw match total is zero, so no scaling
    /// factor exists.
    UpscaleWithZeroTotal,
}

} // verus!
