//! The parts of a strategy that the service's own logic reads.

use vstd::prelude::*;

verus! {

/// How a bot sizes its positions, by the notional budget each rule works
/// within, in cents. The fractions the percentage and Kelly rules also
/// carry are not read here.
#[derive(Debug, Clone, Copy, PartialEq, Eq, Structural)]
pub enum PositionSizing {
    /// A fixed amount per position.
    FixedAmount { value_cents: u64 },
    /// A share of the portfolio, capped at a notional.
    PercentPortfolio { max_notional_cents: u64 },
    /// A Kelly fraction, capped at a notional.
    Kelly { max_notional_cents: u64 },
}

} // verus!
