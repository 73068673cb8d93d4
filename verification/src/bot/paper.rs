//! The paper engine's simulation: for one bot and one minute, a seeded
//! generator decides whether the bot trades, how often, and what each
//! trade looks like. The same bot in the same minute always gets the same
//! trades; the application stores them.

use vstd::prelude::*;
use vstd::string::StringSliceAdditionalSpecFns;

use crate::bot::strategy::PositionSizing;

verus! {

/// Multiplier of the generator.
pub open spec fn lcg_mul() -> u64 {
    6364136223846793005
}

/// One step of the generator, adding `inc`.
pub open spec fn lcg_mix(s: u64, inc: u64) -> u64 {
    s.wrapping_mul(lcg_mul()).wrapping_add(inc)
}

/// Folding the bytes of a bot id into a state.
pub open spec fn fold_bytes(bytes: Seq<u8>, s: u64) -> u64
    decreases bytes.len(),
{
    if bytes.len() == 0 {
        s
    } else {
        fold_bytes(bytes.drop_first(), lcg_mix(s, bytes[0] as u64))
    }
}

/// The seed of a bot in a minute.
pub open spec fn seed_spec(bot_id: Seq<u8>, minute_bucket: u64) -> u64 {
    fold_bytes(bot_id, lcg_mix(minute_bucket, 0xcafebabe))
}

/// The state after `k` draws from `seed`; draw `k` returns it.
pub open spec fn rng_at(seed: u64, k: nat) -> u64
    decreases k,
{
    if k == 0 {
        seed
    } else {
        lcg_mix(rng_at(seed, (k - 1) as nat), 1442695040888963407)
    }
}

/// The generator's seed for a bot id and a minute bucket.
pub fn lcg_seed(bot_id: &str, minute_bucket: u64) -> (s: u64)
    ensures
        s == seed_spec(bot_id.spec_bytes(), minute_bucket),
{
    let bytes = bot_id.as_bytes();
    let mut s = minute_bucket.wrapping_mul(6364136223846793005).wrapping_add(0xcafebabe);
    let mut i: usize = 0;
    proof {
        assert(bytes@.subrange(0, bytes@.len() as int) =~= bytes@);
    }
    while i < bytes.len()
        invariant
            i <= bytes@.len(),
            seed_spec(bytes@, minute_bucket) == fold_bytes(
                bytes@.subrange(i as int, bytes@.len() as int),
                s,
            ),
        decreases bytes@.len() - i,
    {
        proof {
            let sub = bytes@.subrange(i as int, bytes@.len() as int);
            assert(sub.drop_first() =~= bytes@.subrange(i + 1, bytes@.len() as int));
            assert(sub[0] == bytes@[i as int]);
        }
        s = s.wrapping_mul(6364136223846793005).wrapping_add(bytes[i] as u64);
        i = i + 1;
    }
    s
}

/// Draw the next number.
pub fn next(state: &mut u64) -> (r: u64)
    ensures
        r == lcg_mix(*old(state), 1442695040888963407),
        *final(state) == r,
{
    *state = state.wrapping_mul(6364136223846793005).wrapping_add(1442695040888963407);
    *state
}

/// The notional a sizing rule works within, in cents.
pub open spec fn nominal_spec(sizing: PositionSizing) -> u64 {
    match sizing {
        PositionSizing::FixedAmount { value_cents } => value_cents,
        PositionSizing::PercentPortfolio { max_notional_cents } => max_notional_cents,
        PositionSizing::Kelly { max_notional_cents } => max_notional_cents,
    }
}

pub fn sizing_nominal_cents(sizing: &PositionSizing) -> (r: u64)
    ensures
        r == nominal_spec(*sizing),
{
    match sizing {
        PositionSizing::FixedAmount { value_cents } => *value_cents,
        PositionSizing::PercentPortfolio { max_notional_cents } => *max_notional_cents,
        PositionSizing::Kelly { max_notional_cents } => *max_notional_cents,
    }
}

/// One simulated trade. It is stored as executed `seconds_before` seconds
/// before the tick.
#[derive(Debug, Clone, Copy, PartialEq, Eq, Structural)]
pub struct SimTrade {
    pub order_id: i64,
    pub side: i32,
    pub price_ticks: i64,
    pub qty: i64,
    pub realised_pnl_cents: i64,
    pub fees_ticks: i64,
    pub seconds_before: i64,
}

/// The notional a rule counts with: its own, but at least 1000 cents.
pub open spec fn notional_floor(nominal: u64) -> int {
    if (nominal as i64) > 1000 {
        (nominal as i64) as int
    } else {
        1000
    }
}

/// The centre of the profit-and-loss magnitudes: two percent of the
/// floored notional.
pub open spec fn centre_spec(nominal: u64) -> int {
    (notional_floor(nominal) * 2) / 100
}

/// The arithmetic of a tick stays within `i64` for every draw.
pub open spec fn plan_fits(minute_bucket: i64, nominal: u64) -> bool {
    &&& notional_floor(nominal) * 2 <= i64::MAX
    &&& centre_spec(nominal) * 199 <= i64::MAX
    &&& minute_bucket * 1000 + 2 <= i64::MAX
    &&& minute_bucket * 1000 >= i64::MIN
}

/// How many trades a tick makes: none four times in ten, else one to
/// three.
pub open spec fn trade_count(seed: u64) -> nat {
    if rng_at(seed, 1) % 10 < 4 {
        0
    } else {
        (rng_at(seed, 2) % 3 + 1) as nat
    }
}

/// Trade `i` of a tick. It takes six draws, after the two that set the
/// count: whether it wins (55 in 100), the magnitude (half to twice the
/// centre), the side, the price (100 dollars and up to 10000 ticks), the
/// quantity (1 to 5) and the fees (1 to 9).
pub open spec fn sim_trade(seed: u64, minute_bucket: i64, centre: int, i: int) -> SimTrade {
    let d = |j: int| rng_at(seed, (3 + 6 * i + j) as nat);
    let win = d(0) % 100 < 55;
    let mag = centre * (d(1) % 150 + 50) / 100;
    SimTrade {
        order_id: (minute_bucket * 1000 + i) as i64,
        side: (d(2) % 2) as i32,
        price_ticks: (100 * 100_000_000 + d(3) % 10000) as i64,
        qty: (1 + d(4) % 5) as i64,
        realised_pnl_cents: (if win {
            mag
        } else {
            -((mag * 90) / 100)
        }) as i64,
        fees_ticks: (if d(5) % 10 > 1 {
            d(5) % 10
        } else {
            1
        }) as i64,
        seconds_before: (7 * i) as i64,
    }
}

/// The trades a tick makes.
pub open spec fn plan_spec(bot_id: Seq<u8>, minute_bucket: i64, nominal: u64) -> Seq<SimTrade> {
    let seed = seed_spec(bot_id, minute_bucket as u64);
    Seq::new(
        trade_count(seed),
        |i: int| sim_trade(seed, minute_bucket, centre_spec(nominal), i),
    )
}

/// Draw trade `i` of a tick from the generator, which has made the two
/// draws that set the count and `6 * i` more.
fn draw_trade(rng: &mut u64, Ghost(seed): Ghost<u64>, minute_bucket: i64, centre: i64, i: u64) -> (t: SimTrade)
    requires
        *old(rng) == rng_at(seed, (2 + 6 * i) as nat),
        i < 3,
        0 <= centre,
        centre * 199 <= i64::MAX,
        minute_bucket * 1000 + 2 <= i64::MAX,
        minute_bucket * 1000 >= i64::MIN,
    ensures
        *final(rng) == rng_at(seed, (2 + 6 * (i + 1)) as nat),
        t == sim_trade(seed, minute_bucket, centre as int, i as int),
{
    let ghost k = (2 + 6 * i) as nat;
    proof {
        assert(rng_at(seed, k + 1) == lcg_mix(rng_at(seed, k), 1442695040888963407));
        assert(rng_at(seed, k + 2) == lcg_mix(rng_at(seed, k + 1), 1442695040888963407));
        assert(rng_at(seed, k + 3) == lcg_mix(rng_at(seed, k + 2), 1442695040888963407));
        assert(rng_at(seed, k + 4) == lcg_mix(rng_at(seed, k + 3), 1442695040888963407));
        assert(rng_at(seed, k + 5) == lcg_mix(rng_at(seed, k + 4), 1442695040888963407));
        assert(rng_at(seed, k + 6) == lcg_mix(rng_at(seed, k + 5), 1442695040888963407));
    }
    let win = (next(rng) % 100) < 55;
    let jitter = next(rng) % 150 + 50;
    proof {
        assert(centre * jitter <= centre * 199) by (nonlinear_arith)
            requires
                0 <= centre,
                jitter <= 199,
        ;
        assert(0 <= centre * jitter) by (nonlinear_arith)
            requires
                0 <= centre,
                0 <= jitter,
        ;
    }
    let mag = centre * (jitter as i64) / 100;
    let pnl_cents = if win {
        mag
    } else {
        -(mag * 90) / 100
    };
    let side = (next(rng) % 2) as i32;
    let price_ticks = 100 * 100_000_000 + (next(rng) % 10_000) as i64;
    let qty = 1 + (next(rng) % 5) as i64;
    let fee_draw = (next(rng) % 10) as i64;
    let fees = if fee_draw > 1 {
        fee_draw
    } else {
        1
    };
    SimTrade {
        order_id: minute_bucket * 1000 + i as i64,
        side,
        price_ticks,
        qty,
        realised_pnl_cents: pnl_cents,
        fees_ticks: fees,
        seconds_before: 7 * i as i64,
    }
}

/// The trades one tick makes for a bot whose sizing works within
/// `nominal_cents`, in the minute `minute_bucket`.
pub fn plan_trades(bot_id: &str, minute_bucket: i64, nominal_cents: u64) -> (v: Vec<SimTrade>)
    requires
        plan_fits(minute_bucket, nominal_cents),
    ensures
        v@ == plan_spec(bot_id.spec_bytes(), minute_bucket, nominal_cents),
{
    let ghost seed = seed_spec(bot_id.spec_bytes(), minute_bucket as u64);
    let mut rng = lcg_seed(bot_id, minute_bucket as u64);
    let mut out: Vec<SimTrade> = Vec::new();
    proof {
        assert(rng_at(seed, 1) == lcg_mix(rng_at(seed, 0), 1442695040888963407));
        assert(rng_at(seed, 2) == lcg_mix(rng_at(seed, 1), 1442695040888963407));
    }
    if next(&mut rng) % 10 < 4 {
        proof {
            assert(out@ =~= plan_spec(bot_id.spec_bytes(), minute_bucket, nominal_cents));
        }
        return out;
    }
    let n = next(&mut rng) % 3 + 1;
    let floor: i64 = if (nominal_cents as i64) > 1000 {
        nominal_cents as i64
    } else {
        1000
    };
    let centre = (floor * 2) / 100;
    let mut i: u64 = 0;
    while i < n
        invariant
            n == trade_count(seed),
            1 <= n <= 3,
            i <= n,
            plan_fits(minute_bucket, nominal_cents),
            centre == centre_spec(nominal_cents),
            0 <= centre,
            rng == rng_at(seed, (2 + 6 * i) as nat),
            out@ =~= Seq::new(i as nat, |j: int| sim_trade(seed, minute_bucket, centre as int, j)),
        decreases n - i,
    {
        let t = draw_trade(&mut rng, Ghost(seed), minute_bucket, centre, i);
        out.push(t);
        i = i + 1;
    }
    proof {
        assert(out@ =~= plan_spec(bot_id.spec_bytes(), minute_bucket, nominal_cents));
    }
    out
}

/// A tick makes at most three trades. Trade `i` has order id
/// `minute_bucket * 1000 + i` and is stamped `7 * i` seconds back; it is on
/// side 0 or 1, for one to five units, at 100 dollars plus less than 10000
/// ticks, with fees of one to nine.
pub proof fn lemma_plan_shape(bot_id: Seq<u8>, minute_bucket: i64, nominal: u64)
    requires
        plan_fits(minute_bucket, nominal),
    ensures
        ({
            let v = plan_spec(bot_id, minute_bucket, nominal);
            &&& v.len() <= 3
            &&& forall|i: int|
                0 <= i < v.len() ==> {
                    &&& (#[trigger] v[i]).order_id == minute_bucket * 1000 + i
                    &&& v[i].seconds_before == 7 * i
                    &&& (v[i].side == 0 || v[i].side == 1)
                    &&& 1 <= v[i].qty <= 5
                    &&& 100 * 100_000_000 <= v[i].price_ticks < 100 * 100_000_000 + 10000
                    &&& 1 <= v[i].fees_ticks <= 9
                }
        }),
{
}

/// One simulated trade wins or loses by its first draw, and never breaks
/// even.
proof fn lemma_sim_trade_pnl(seed: u64, minute_bucket: i64, c: int, i: int)
    requires
        20 <= c,
        c * 199 <= i64::MAX,
        0 <= i,
    ensures
        ({
            let t = sim_trade(seed, minute_bucket, c, i);
            let lose = rng_at(seed, (3 + 6 * i) as nat) % 100 >= 55;
            &&& (t.realised_pnl_cents < 0 <==> lose)
            &&& t.realised_pnl_cents != 0
            &&& !lose ==> c / 2 <= t.realised_pnl_cents <= 2 * c
            &&& lose ==> -2 * c <= t.realised_pnl_cents <= -9
        }),
{
    let j: int = (rng_at(seed, (3 + 6 * i + 1) as nat) % 150 + 50) as int;
    let p = c * j;
    assert(50 <= j <= 199);
    assert(c * 50 <= p <= c * 199) by (nonlinear_arith)
        requires
            20 <= c,
            50 <= j <= 199,
            p == c * j,
    ;
    let mag = p / 100;
    assert(10 <= mag && c / 2 <= mag <= 2 * c);
    assert(9 <= (mag * 90) / 100 <= mag);
}

/// A simulated trade loses exactly when its win draw (the first of its six
/// draws, out of 100) is 55 or more, and never breaks even. A winner makes
/// between half and twice the centre (two percent of the floored
/// notional); a loser gives back at most twice the centre.
pub proof fn lemma_trade_wins_and_losses(bot_id: Seq<u8>, minute_bucket: i64, nominal: u64)
    requires
        plan_fits(minute_bucket, nominal),
    ensures
        ({
            let v = plan_spec(bot_id, minute_bucket, nominal);
            let seed = seed_spec(bot_id, minute_bucket as u64);
            let c = centre_spec(nominal);
            forall|i: int|
                0 <= i < v.len() ==> {
                    &&& ((#[trigger] v[i]).realised_pnl_cents < 0 <==> rng_at(seed, (3 + 6 * i) as nat)
                        % 100 >= 55)
                    &&& v[i].realised_pnl_cents != 0
                    &&& v[i].realised_pnl_cents > 0 ==> c / 2 <= v[i].realised_pnl_cents <= 2 * c
                    &&& v[i].realised_pnl_cents < 0 ==> -2 * c <= v[i].realised_pnl_cents
                }
        }),
{
    let v = plan_spec(bot_id, minute_bucket, nominal);
    let seed = seed_spec(bot_id, minute_bucket as u64);
    let c = centre_spec(nominal);
    assert(c >= 20);
    assert forall|i: int| 0 <= i < v.len() implies {
        &&& ((#[trigger] v[i]).realised_pnl_cents < 0 <==> rng_at(seed, (3 + 6 * i) as nat) % 100
            >= 55)
        &&& v[i].realised_pnl_cents != 0
        &&& v[i].realised_pnl_cents > 0 ==> c / 2 <= v[i].realised_pnl_cents <= 2 * c
        &&& v[i].realised_pnl_cents < 0 ==> -2 * c <= v[i].realised_pnl_cents
    } by {
        assert(v[i] == sim_trade(seed, minute_bucket, c, i));
        lemma_sim_trade_pnl(seed, minute_bucket, c, i);
    }
}

/// Whether a tick for this minute and notional stays within `i64`: the
/// condition under which `plan_trades` may be called.
pub fn plan_fits_now(minute_bucket: i64, nominal_cents: u64) -> (r: bool)
    ensures
        r == plan_fits(minute_bucket, nominal_cents),
{
    let floor: i128 = if (nominal_cents as i64) > 1000 {
        (nominal_cents as i64) as i128
    } else {
        1000
    };
    let m = minute_bucket as i128;
    floor * 2 <= i64::MAX as i128 && (floor * 2 / 100) * 199 <= i64::MAX as i128
        && m * 1000 + 2 <= i64::MAX as i128 && m * 1000 >= i64::MIN as i128
}

} // verus!
