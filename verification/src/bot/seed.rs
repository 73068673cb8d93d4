//! The demo seeder's decisions: whether to seed at all, and the synthetic
//! trade history it writes: thirty days of trades per
//! bot, drawn from a generator seeded by the bot id alone, so the same bot
//! always gets the same history (relative to the day it is seeded).

use vstd::prelude::*;
use vstd::string::StringSliceAdditionalSpecFns;

use crate::bot::paper::{fold_bytes, lcg_mix, next, rng_at};

verus! {

/// The character of a seeded bot's results.
#[derive(Debug, Clone, Copy, PartialEq, Eq, Structural)]
pub enum TradeProfile {
    /// Two to five trades a day, mostly small wins.
    SteadyWinner,
    /// One to six trades a day, large swings.
    Volatile,
    /// One to three trades a day, small steady gains.
    SlowGrinder,
}

/// One seeded trade. It is stamped `days_back` days, `hours_back` hours
/// and `minutes_back` minutes before the seeding time.
#[derive(Debug, Clone, Copy, PartialEq, Eq, Structural)]
pub struct SeedTrade {
    pub order_id: i64,
    pub side: i32,
    pub price_ticks: i64,
    pub qty: i64,
    pub realised_pnl_cents: i64,
    pub fees_ticks: i64,
    pub days_back: i64,
    pub hours_back: i64,
    pub minutes_back: i64,
}

/// Whether the demo data is to be seeded, given the number of published
/// listings: only into a marketplace that has none, so that seeding a
/// second time does nothing. A count that could not be read counts as
/// none.
pub fn seed_wanted(published: Option<i64>) -> (r: bool)
    ensures
        r == !(published matches Some(n) && n > 0),
{
    match published {
        Some(n) => n <= 0,
        None => true,
    }
}

/// How many trades a day makes, from its draw.
pub open spec fn day_count(profile: TradeProfile, r: u64) -> int {
    match profile {
        TradeProfile::SteadyWinner => (r % 4 + 2) as int,
        TradeProfile::Volatile => (r % 6 + 1) as int,
        TradeProfile::SlowGrinder => (r % 3 + 1) as int,
    }
}

/// The profit or loss of a trade, from its draw of 0 to 799 cents.
pub open spec fn pnl_of(profile: TradeProfile, raw: int) -> int {
    match profile {
        TradeProfile::SteadyWinner => raw - 250,
        TradeProfile::Volatile => (raw - 350) * 4,
        TradeProfile::SlowGrinder => raw / 4 - 60,
    }
}

/// Trade `i` of day `day`, drawn from state `s`: the profit draw, the side,
/// the hours back, the price (100 dollars and up to 1000 ticks), the
/// quantity (1 to 5) and the fees (1 to 19).
pub open spec fn seed_trade_at(s: u64, profile: TradeProfile, day: int, i: int) -> SeedTrade {
    let d = |j: nat| rng_at(s, j);
    SeedTrade {
        order_id: (day * 100 + i + 1) as i64,
        side: (d(2) % 2) as i32,
        price_ticks: (100 * 100_000_000 + d(4) % 1000) as i64,
        qty: (1 + d(5) % 5) as i64,
        realised_pnl_cents: pnl_of(profile, (d(1) % 800) as int) as i64,
        fees_ticks: (if d(6) % 20 > 1 {
            d(6) % 20
        } else {
            1
        }) as i64,
        days_back: day as i64,
        hours_back: (d(3) % 12) as i64,
        minutes_back: (7 * i) as i64,
    }
}

/// Trades `i` to `n - 1` of a day, from state `s`, and the state after.
pub open spec fn seed_day(s: u64, profile: TradeProfile, day: int, i: int, n: int) -> (Seq<SeedTrade>, u64)
    decreases n - i,
{
    if i >= n {
        (Seq::empty(), s)
    } else {
        let rest = seed_day(rng_at(s, 6), profile, day, i + 1, n);
        (seq![seed_trade_at(s, profile, day, i)] + rest.0, rest.1)
    }
}

/// The trades of days `day` to 29, from state `s`.
pub open spec fn seed_days(s: u64, profile: TradeProfile, day: int) -> Seq<SeedTrade>
    decreases 30 - day,
{
    if day >= 30 {
        Seq::empty()
    } else {
        let s1 = rng_at(s, 1);
        let d = seed_day(s1, profile, day, 0, day_count(profile, s1));
        d.0 + seed_days(d.1, profile, day + 1)
    }
}

/// The history seeded for a bot.
pub open spec fn seed_plan_spec(bot_id: Seq<u8>, profile: TradeProfile) -> Seq<SeedTrade> {
    seeds_from(fold_bytes(bot_id, 0xcafebabe), profile)
}

pub open spec fn seeds_from(s: u64, profile: TradeProfile) -> Seq<SeedTrade> {
    seed_days(s, profile, 0)
}

/// The ranges a seeded trade keeps to: on side 0 or 1, one to five units,
/// 100 dollars plus less than 1000 ticks, fees of one to nineteen, up to
/// eleven hours back within its day, and a profit or loss within its
/// profile's band.
pub open spec fn seed_trade_ok(t: SeedTrade, profile: TradeProfile) -> bool {
    &&& (t.side == 0 || t.side == 1)
    &&& 1 <= t.qty <= 5
    &&& 100 * 100_000_000 <= t.price_ticks < 100 * 100_000_000 + 1000
    &&& 1 <= t.fees_ticks <= 19
    &&& 0 <= t.hours_back < 12
    &&& 0 <= t.days_back < 30
    &&& match profile {
        TradeProfile::SteadyWinner => -250 <= t.realised_pnl_cents <= 549,
        TradeProfile::Volatile => -1400 <= t.realised_pnl_cents <= 1796,
        TradeProfile::SlowGrinder => -60 <= t.realised_pnl_cents <= 139,
    }
}

proof fn lemma_seed_day_ok(s: u64, profile: TradeProfile, day: int, i: int, n: int)
    requires
        0 <= day < 30,
        0 <= i,
        n <= 6,
    ensures
        forall|k: int|
            0 <= k < seed_day(s, profile, day, i, n).0.len() ==> seed_trade_ok(
                #[trigger] seed_day(s, profile, day, i, n).0[k],
                profile,
            ),
    decreases n - i,
{
    if i < n {
        lemma_seed_day_ok(rng_at(s, 6), profile, day, i + 1, n);
        let rest = seed_day(rng_at(s, 6), profile, day, i + 1, n);
        let all = seed_day(s, profile, day, i, n).0;
        assert forall|k: int| 0 <= k < all.len() implies seed_trade_ok(#[trigger] all[k], profile) by {
            if k > 0 {
                assert(all[k] == rest.0[k - 1]);
            }
        }
    }
}

proof fn lemma_seed_days_ok(s: u64, profile: TradeProfile, day: int)
    requires
        0 <= day,
    ensures
        forall|k: int|
            0 <= k < seed_days(s, profile, day).len() ==> seed_trade_ok(
                #[trigger] seed_days(s, profile, day)[k],
                profile,
            ),
    decreases 30 - day,
{
    if day < 30 {
        let s1 = rng_at(s, 1);
        let d = seed_day(s1, profile, day, 0, day_count(profile, s1));
        lemma_seed_day_ok(s1, profile, day, 0, day_count(profile, s1));
        lemma_seed_days_ok(d.1, profile, day + 1);
        let all = seed_days(s, profile, day);
        let rest = seed_days(d.1, profile, day + 1);
        assert forall|k: int| 0 <= k < all.len() implies seed_trade_ok(#[trigger] all[k], profile) by {
            if k < d.0.len() {
                assert(all[k] == d.0[k]);
            } else {
                assert(all[k] == rest[k - d.0.len()]);
            }
        }
    }
}

/// Every seeded trade keeps to the ranges of `seed_trade_ok`.
pub proof fn lemma_seed_plan_ok(bot_id: Seq<u8>, profile: TradeProfile)
    ensures
        forall|k: int|
            0 <= k < seed_plan_spec(bot_id, profile).len() ==> seed_trade_ok(
                #[trigger] seed_plan_spec(bot_id, profile)[k],
                profile,
            ),
{
    lemma_seed_days_ok(fold_bytes(bot_id, 0xcafebabe), profile, 0);
}

fn draw_seed_trade(rng: &mut u64, profile: TradeProfile, day: i64, i: u64) -> (t: SeedTrade)
    requires
        0 <= day < 30,
        i < 6,
    ensures
        t == seed_trade_at(*old(rng), profile, day as int, i as int),
        *final(rng) == rng_at(*old(rng), 6),
{
    let ghost s = *rng;
    proof {
        assert(rng_at(s, 1) == lcg_mix(rng_at(s, 0), 1442695040888963407));
        assert(rng_at(s, 2) == lcg_mix(rng_at(s, 1), 1442695040888963407));
        assert(rng_at(s, 3) == lcg_mix(rng_at(s, 2), 1442695040888963407));
        assert(rng_at(s, 4) == lcg_mix(rng_at(s, 3), 1442695040888963407));
        assert(rng_at(s, 5) == lcg_mix(rng_at(s, 4), 1442695040888963407));
        assert(rng_at(s, 6) == lcg_mix(rng_at(s, 5), 1442695040888963407));
    }
    let raw = (next(rng) % 800) as i64;
    let pnl_cents = match profile {
        TradeProfile::SteadyWinner => raw - 250,
        TradeProfile::Volatile => (raw - 350) * 4,
        TradeProfile::SlowGrinder => (raw / 4) - 60,
    };
    let side = (next(rng) % 2) as i32;
    let hours_back = (next(rng) % 12) as i64;
    let price_ticks = 100 * 100_000_000 + (next(rng) % 1000) as i64;
    let qty = 1 + (next(rng) % 5) as i64;
    let fee_draw = (next(rng) % 20) as i64;
    let fees = if fee_draw > 1 {
        fee_draw
    } else {
        1
    };
    SeedTrade {
        order_id: (day * 100 + i as i64) + 1,
        side,
        price_ticks,
        qty,
        realised_pnl_cents: pnl_cents,
        fees_ticks: fees,
        days_back: day,
        hours_back,
        minutes_back: i as i64 * 7,
    }
}

/// Thirty days of synthetic trades for a bot, newest day first.
pub fn seed_trades(bot_id: &str, profile: TradeProfile) -> (v: Vec<SeedTrade>)
    ensures
        v@ == seed_plan_spec(bot_id.spec_bytes(), profile),
{
    let bytes = bot_id.as_bytes();
    let mut rng: u64 = 0xcafebabe;
    let mut k: usize = 0;
    proof {
        assert(bytes@.subrange(0, bytes@.len() as int) =~= bytes@);
    }
    while k < bytes.len()
        invariant
            k <= bytes@.len(),
            bytes@ == bot_id.spec_bytes(),
            fold_bytes(bytes@, 0xcafebabe) == fold_bytes(bytes@.subrange(k as int, bytes@.len() as int), rng),
        decreases bytes@.len() - k,
    {
        proof {
            let sub = bytes@.subrange(k as int, bytes@.len() as int);
            assert(sub.drop_first() =~= bytes@.subrange(k + 1, bytes@.len() as int));
            assert(sub[0] == bytes@[k as int]);
        }
        rng = rng.wrapping_mul(6364136223846793005).wrapping_add(bytes[k] as u64);
        k = k + 1;
    }
    proof {
        assert(bytes@.subrange(bytes@.len() as int, bytes@.len() as int) =~= Seq::<u8>::empty());
    }
    let ghost full = seeds_from(rng, profile);
    let mut out: Vec<SeedTrade> = Vec::new();
    let mut day: i64 = 0;
    proof {
        assert(out@ + seed_days(rng, profile, 0) =~= full);
    }
    while day < 30
        invariant
            0 <= day <= 30,
            full == out@ + seed_days(rng, profile, day as int),
        decreases 30 - day,
    {
        let ghost s0 = rng;
        let r = next(&mut rng);
        proof {
            assert(rng_at(s0, 1) == lcg_mix(rng_at(s0, 0), 1442695040888963407));
        }
        let n: u64 = match profile {
            TradeProfile::SteadyWinner => (r % 4) + 2,
            TradeProfile::Volatile => (r % 6) + 1,
            TradeProfile::SlowGrinder => (r % 3) + 1,
        };
        let ghost after_day = seed_day(rng, profile, day as int, 0, n as int).1;
        let mut i: u64 = 0;
        while i < n
            invariant
                0 <= day < 30,
                i <= n <= 6,
                after_day == seed_day(rng, profile, day as int, i as int, n as int).1,
                full == out@ + seed_day(rng, profile, day as int, i as int, n as int).0 + seed_days(
                    after_day,
                    profile,
                    day + 1,
                ),
            decreases n - i,
        {
            let ghost s = rng;
            let t = draw_seed_trade(&mut rng, profile, day, i);
            proof {
                let rest = seed_day(rng, profile, day as int, i + 1, n as int);
                assert(seed_day(s, profile, day as int, i as int, n as int).0 =~= seq![t] + rest.0);
                assert(out@.push(t) + rest.0 =~= out@ + (seq![t] + rest.0));
            }
            out.push(t);
            i = i + 1;
        }
        proof {
            assert(out@ + Seq::<SeedTrade>::empty() =~= out@);
        }
        day = day + 1;
    }
    proof {
        assert(out@ + Seq::<SeedTrade>::empty() =~= out@);
    }
    out
}

} // verus!
