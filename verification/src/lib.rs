//! Quadratic-funding matching allocator.
//!
//! Takes one round of contributions (sender, recipient, amount in integer
//! base units), a matching pool, and a configuration, and returns one match
//! amount per distinct recipient: contributions are aggregated per
//! (recipient, sender), each recipient gets the quadratic-funding subsidy
//! `2 * sum over sender pairs of isqrt(a_i * a_j)` (the cross term of
//! `(sum of sqrt a_i)^2 - sum of a_i`), the results are scaled down to the
//! pool when they exceed it, optionally scaled up to consume it, and finally
//! clamped to an optional per-recipient cap, with the clamped-off overflow
//! optionally redistributed among recipients below the cap.

pub mod aggregate;
pub mod allocate;
pub mod isqrt;
pub mod laws;
pub mod score;
pub mod types;

pub use allocate::calculate_linear_qf;
pub use types::Contribution;
pub use types::LinearQfOptions;
pub use types::Matcha;
pub use types::MatchingCapStrategy;
pub use types::QfError;
