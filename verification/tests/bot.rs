use trading_server::bot::auth::{hash_key, presented_key, to_hex};
use trading_server::bot::billing::{estimate, AssetClass, EstimateRequest};
use trading_server::bot::db::default_url;
use trading_server::bot::paper::{
    lcg_seed, next, plan_fits_now, plan_trades, sizing_nominal_cents,
};
use trading_server::bot::status::{
    default_source, default_window_days, BotStatus, ListingStatus, SubscriptionStatus,
};
use trading_server::bot::strategy::PositionSizing;
use trading_server::bot::templates::match_template;

#[test]
fn stocks_cost_a_cent_per_trade() {
    let r = estimate(&EstimateRequest { trades_per_month: 50, asset_class: AssetClass::Stocks });
    assert_eq!(r.monthly_cents, 50);
    assert_eq!(r.breakdown.len(), 1);
    assert_eq!(r.breakdown[0].amount_cents, 50);
    assert_eq!(r.breakdown[0].label, "Per-trade fee ($0.01)");
}

#[test]
fn crypto_and_fx_cost_five_cents_per_trade() {
    let c = estimate(&EstimateRequest { trades_per_month: 7, asset_class: AssetClass::Crypto });
    assert_eq!(c.monthly_cents, 35);
    assert_eq!(c.breakdown[0].label, "Per-trade fee (5¢ approx, real rate 0.05% notional)");
    let f = estimate(&EstimateRequest { trades_per_month: u32::MAX, asset_class: AssetClass::Fx });
    assert_eq!(f.monthly_cents, u32::MAX as i64 * 5);
    assert_eq!(f.breakdown[0].label, "Per-trade fee (5¢ placeholder)");
}

#[test]
fn statuses_round_trip_through_their_words() {
    for s in [BotStatus::Draft, BotStatus::Paper, BotStatus::Live, BotStatus::Paused, BotStatus::Stopped] {
        assert_eq!(BotStatus::parse(s.as_str()), Some(s.clone()));
    }
    assert_eq!(BotStatus::Paused.as_str(), "paused");
    assert_eq!(BotStatus::parse("banana"), None);
    assert_eq!(BotStatus::parse("Draft"), None);
    assert_eq!(ListingStatus::parse("published"), Some(ListingStatus::Published));
    assert_eq!(ListingStatus::Unpublished.as_str(), "unpublished");
    assert_eq!(ListingStatus::parse(""), None);
    assert_eq!(SubscriptionStatus::parse("cancelled"), Some(SubscriptionStatus::Cancelled));
    assert_eq!(SubscriptionStatus::Active.as_str(), "active");
    assert_eq!(SubscriptionStatus::parse("active "), None);
}

#[test]
fn defaults() {
    assert_eq!(default_source(), "manual");
    assert_eq!(default_window_days(), 30);
}

#[test]
fn database_urls() {
    assert_eq!(default_url("sqlite::memory:"), "sqlite::memory:");
    assert_eq!(default_url("./bot.db"), "sqlite://./bot.db");
    assert_eq!(default_url("data/x.db"), "sqlite://data/x.db");
}

#[test]
fn api_keys_hash_to_lowercase_sha256_hex() {
    assert_eq!(
        hash_key("abc"),
        "ba7816bf8f01cfea414140de5dae2223b00361a396177a9cb410ff61f20015ad"
    );
    assert_eq!(
        hash_key(""),
        "e3b0c44298fc1c149afbf4c8996fb92427ae41e4649b934ca495991b7852b855"
    );
    assert_eq!(to_hex(&[0x00, 0x0f, 0xa5, 0xff]), "000fa5ff");
}

fn ids() -> Vec<String> {
    ["tpl_ema_cross", "tpl_rsi_oversold", "tpl_breakout_box", "tpl_grid", "tpl_dca_weekly"]
        .iter()
        .map(|s| s.to_string())
        .collect()
}

#[test]
fn prompts_pick_templates_by_keyword() {
    let ids = ids();
    assert_eq!(match_template(&ids, "Buy when RSI is low"), 1);
    assert_eq!(match_template(&ids, "golden cross on majors"), 0);
    assert_eq!(match_template(&ids, "Donchian breakout"), 2);
    assert_eq!(match_template(&ids, "trade the RANGE"), 3);
    assert_eq!(match_template(&ids, "dollar cost average weekly"), 4);
    assert_eq!(match_template(&ids, "something else entirely"), 1);
    // Without the preferred template, the first one is used.
    let only = vec!["tpl_grid".to_string()];
    assert_eq!(match_template(&only, "rsi"), 0);
}

#[test]
fn generator_follows_the_recurrence() {
    let m = 6364136223846793005u64;
    let mut expected = 5u64.wrapping_mul(m).wrapping_add(0xcafebabe);
    for b in "ab".bytes() {
        expected = expected.wrapping_mul(m).wrapping_add(b as u64);
    }
    assert_eq!(lcg_seed("ab", 5), expected);
    let mut s = 1u64;
    let r = next(&mut s);
    assert_eq!(r, m.wrapping_add(1442695040888963407));
    assert_eq!(s, r);
}

#[test]
fn sizing_uses_the_notional_budget() {
    assert_eq!(sizing_nominal_cents(&PositionSizing::FixedAmount { value_cents: 500 }), 500);
    assert_eq!(sizing_nominal_cents(&PositionSizing::Kelly { max_notional_cents: 9 }), 9);
    assert_eq!(
        sizing_nominal_cents(&PositionSizing::PercentPortfolio { max_notional_cents: 100_000 }),
        100_000
    );
}

#[test]
fn simulated_trades_are_deterministic_and_bounded() {
    let mut any = false;
    for minute in 0..200i64 {
        assert!(plan_fits_now(minute, 100_000));
        let a = plan_trades("bot_1", minute, 100_000);
        let b = plan_trades("bot_1", minute, 100_000);
        assert_eq!(a, b);
        assert!(a.len() <= 3);
        for (i, t) in a.iter().enumerate() {
            any = true;
            assert_eq!(t.order_id, minute * 1000 + i as i64);
            assert_eq!(t.seconds_before, 7 * i as i64);
            assert!(t.side == 0 || t.side == 1);
            assert!((1..=5).contains(&t.qty));
            assert!((1..=9).contains(&t.fees_ticks));
            assert!(t.price_ticks >= 100 * 100_000_000 && t.price_ticks < 100 * 100_000_000 + 10_000);
            // Centre is 2% of 100_000 cents: 2000; wins are 1000..=3980.
            assert!(
                (1000..=3980).contains(&t.realised_pnl_cents)
                    || (-3582..=-900).contains(&t.realised_pnl_cents),
                "pnl {}",
                t.realised_pnl_cents
            );
        }
    }
    assert!(any, "no trades in 200 minutes");
    assert!(plan_fits_now(i64::MAX / 1000, 100_000));
    assert!(!plan_fits_now(i64::MAX / 1000 + 1, 100_000));
    assert!(!plan_fits_now(i64::MIN / 1000 - 1, 100_000));
    assert!(!plan_fits_now(0, u64::MAX / 2));
}

#[test]
fn usage_reports_the_free_plan() {
    let u = trading_server::bot::billing::usage(120, 35);
    assert_eq!(u.subscription_status, "free");
    assert_eq!(u.transaction_fees_ytd_cents, 120);
    assert_eq!(u.transaction_fees_this_month_cents, 35);
}

#[test]
fn requests_present_their_trimmed_api_key() {
    assert_eq!(presented_key(Some("  k1 ")), Some("k1"));
    assert_eq!(presented_key(Some("   ")), None);
    assert_eq!(presented_key(None), None);
}
