//! Fee estimates. No money moves: the estimate states what the posted
//! rates would charge.

use vstd::prelude::*;
use vstd::string::StringExecFns;

verus! {

/// The market a bot trades in, which sets its per-trade fee.
#[derive(Debug, Clone, Copy, PartialEq, Eq, Structural)]
pub enum AssetClass {
    Stocks,
    Crypto,
    Fx,
}

/// How many trades a month, in which market.
pub struct EstimateRequest {
    pub trades_per_month: u32,
    pub asset_class: AssetClass,
}

/// One line of an estimate.
pub struct FeeLine {
    pub label: String,
    pub amount_cents: i64,
}

/// The monthly total and its breakdown.
pub struct EstimateResponse {
    pub monthly_cents: i64,
    pub breakdown: Vec<FeeLine>,
}

/// Fees charged so far.
pub struct UsageResponse {
    pub subscription_status: &'static str,
    pub transaction_fees_ytd_cents: i64,
    pub transaction_fees_this_month_cents: i64,
}

/// The fee per trade, in cents: one for stocks, five for crypto and FX.
pub open spec fn per_trade_cents(c: AssetClass) -> i64 {
    match c {
        AssetClass::Stocks => 1,
        AssetClass::Crypto => 5,
        AssetClass::Fx => 5,
    }
}

/// The label of the fee line for a market.
pub open spec fn fee_label(c: AssetClass) -> Seq<char> {
    match c {
        AssetClass::Stocks => "Per-trade fee ($0.01)"@,
        AssetClass::Crypto => "Per-trade fee (5¢ approx, real rate 0.05% notional)"@,
        AssetClass::Fx => "Per-trade fee (5¢ placeholder)"@,
    }
}

fn label_of(c: AssetClass) -> (s: &'static str)
    ensures
        s@ == fee_label(c),
{
    match c {
        AssetClass::Stocks => "Per-trade fee ($0.01)",
        AssetClass::Crypto => "Per-trade fee (5¢ approx, real rate 0.05% notional)",
        AssetClass::Fx => "Per-trade fee (5¢ placeholder)",
    }
}

/// The monthly fee of a number of trades: one line, the whole total.
pub fn estimate(req: &EstimateRequest) -> (r: EstimateResponse)
    ensures
        r.monthly_cents == req.trades_per_month * per_trade_cents(req.asset_class),
        r.breakdown@.len() == 1,
        r.breakdown@[0].amount_cents == r.monthly_cents,
        r.breakdown@[0].label@ == fee_label(req.asset_class),
{
    let trades = req.trades_per_month as i64;
    let per_trade_cents: i64 = match req.asset_class {
        AssetClass::Stocks => 1,
        AssetClass::Crypto | AssetClass::Fx => 5,
    };
    let total = trades * per_trade_cents;
    let label = String::from_str(label_of(req.asset_class));
    let mut breakdown: Vec<FeeLine> = Vec::new();
    breakdown.push(FeeLine { label, amount_cents: total });
    EstimateResponse { monthly_cents: total, breakdown }
}

/// The usage report of a user: every account is on the free plan; the
/// fees are the sums recorded this year and this month.
pub fn usage(transaction_fees_ytd_cents: i64, transaction_fees_this_month_cents: i64) -> (r: UsageResponse)
    ensures
        r.subscription_status@ == "free"@,
        r.transaction_fees_ytd_cents == transaction_fees_ytd_cents,
        r.transaction_fees_this_month_cents == transaction_fees_this_month_cents,
{
    UsageResponse {
        subscription_status: "free",
        transaction_fees_ytd_cents,
        transaction_fees_this_month_cents,
    }
}

} // verus!
