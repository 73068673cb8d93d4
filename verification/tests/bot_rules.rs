use trading_server::bot::config::{cors_origins, flag_enabled, paper_tick_secs};
use trading_server::bot::rules::{
    check_name, check_prompt, check_publish, check_status_change, check_subscribe, cors_policy,
    status_filter, CorsPolicy, Rejection,
};
use trading_server::bot::seed::{seed_trades, seed_wanted, TradeProfile};
use trading_server::bot::status::BotStatus;
use trading_server::session::offers_subprotocol;

#[test]
fn names_and_prompts_are_trimmed_and_must_not_be_blank() {
    assert_eq!(check_name("  first bot "), Ok("first bot"));
    assert_eq!(check_name(" \t\n"), Err(Rejection::NameEmpty));
    assert_eq!(check_name(""), Err(Rejection::NameEmpty));
    assert_eq!(check_prompt("  rsi "), Ok("rsi"));
    assert_eq!(check_prompt("   "), Err(Rejection::PromptEmpty));
    assert_eq!(Rejection::NameEmpty.text(), "name must not be empty");
    assert_eq!(Rejection::PromptEmpty.text(), "prompt must not be empty");
}

#[test]
fn publishing_needs_a_title_and_a_price_of_at_least_zero() {
    assert_eq!(check_publish("Alice's RSI bot", 1999), Ok(()));
    assert_eq!(check_publish("free", 0), Ok(()));
    assert_eq!(check_publish("  ", 100), Err(Rejection::TitleEmpty));
    assert_eq!(check_publish("  ", -1), Err(Rejection::TitleEmpty));
    assert_eq!(check_publish("x", -1), Err(Rejection::NegativePrice));
    assert_eq!(Rejection::NegativePrice.text(), "monthly_price_cents must be >= 0");
}

#[test]
fn subscribing_checks_owner_capital_and_listing_in_order() {
    assert_eq!(check_subscribe(true, 0, None), Err(Rejection::OwnListing));
    assert_eq!(check_subscribe(false, 0, Some("published")), Err(Rejection::NoCapital));
    assert_eq!(check_subscribe(false, -5, Some("published")), Err(Rejection::NoCapital));
    assert_eq!(check_subscribe(false, 100, None), Err(Rejection::ListingNotFound));
    assert_eq!(check_subscribe(false, 100, Some("unpublished")), Err(Rejection::NotPublished));
    assert_eq!(check_subscribe(false, 100_000, Some("published")), Ok(()));
    assert_eq!(Rejection::OwnListing.text(), "cannot subscribe to your own bot");
}

#[test]
fn live_promotion_is_refused() {
    assert_eq!(check_status_change(&BotStatus::Live), Err(Rejection::LivePromotion));
    assert_eq!(check_status_change(&BotStatus::Paper), Ok(()));
    assert_eq!(check_status_change(&BotStatus::Stopped), Ok(()));
}

#[test]
fn status_filters() {
    assert_eq!(status_filter(None), Ok(None));
    assert_eq!(status_filter(Some("paper")), Ok(Some(BotStatus::Paper)));
    assert_eq!(status_filter(Some("banana")), Err(Rejection::UnknownStatus));
}

#[test]
fn cors_policy_follows_the_configured_origins() {
    assert!(matches!(cors_policy(&vec![]), CorsPolicy::Disabled));
    assert!(matches!(
        cors_policy(&vec!["https://a.example".to_string(), "*".to_string()]),
        CorsPolicy::AnyOrigin
    ));
    match cors_policy(&vec!["https://example.app".to_string()]) {
        CorsPolicy::AllowList(l) => assert_eq!(l, vec!["https://example.app".to_string()]),
        _ => panic!("expected an allow list"),
    }
}

#[test]
fn settings_are_read_from_variable_values() {
    assert!(flag_enabled(Some("1")));
    assert!(flag_enabled(Some("TRUE")));
    assert!(flag_enabled(Some("True")));
    assert!(!flag_enabled(Some("yes")));
    assert!(!flag_enabled(Some("0")));
    assert!(!flag_enabled(None));
    assert_eq!(paper_tick_secs(None), 30);
    assert_eq!(paper_tick_secs(Some("5")), 5);
    assert_eq!(paper_tick_secs(Some("0")), 30);
    assert_eq!(paper_tick_secs(Some("-3")), 30);
    assert_eq!(paper_tick_secs(Some("x")), 30);
    assert_eq!(paper_tick_secs(Some("+7")), 7);
    assert_eq!(paper_tick_secs(Some(" 7")), 30);
    assert_eq!(paper_tick_secs(Some("")), 30);
    assert_eq!(paper_tick_secs(Some("18446744073709551615")), u64::MAX);
    assert_eq!(paper_tick_secs(Some("18446744073709551616")), 30);
    assert_eq!(
        cors_origins(Some(" https://a.example , ,https://b.example")),
        vec!["https://a.example".to_string(), "https://b.example".to_string()]
    );
    assert!(cors_origins(Some("   ")).is_empty());
    assert!(cors_origins(None).is_empty());
    assert_eq!(cors_origins(Some("*")), vec!["*".to_string()]);
    assert_eq!(
        cors_origins(Some("\u{3000}https://c.example\u{a0},\t\u{2028}")),
        vec!["https://c.example".to_string()]
    );
}

#[test]
fn websocket_subprotocol_offer() {
    assert!(offers_subprotocol(&vec!["chat, qftx-binary.v1".to_string()]));
    assert!(offers_subprotocol(&vec!["x".to_string(), " qftx-binary.v1 ".to_string()]));
    assert!(!offers_subprotocol(&vec!["qftx-binary.v2".to_string()]));
    assert!(!offers_subprotocol(&vec![]));
}

#[test]
fn seeded_history_spans_thirty_days_within_profile_bands() {
    for (profile, per_day, band) in [
        (TradeProfile::SteadyWinner, 2..=5usize, -250..=549i64),
        (TradeProfile::Volatile, 1..=6, -1400..=1796),
        (TradeProfile::SlowGrinder, 1..=3, -60..=139),
    ] {
        let a = seed_trades("bot_abc", profile);
        assert_eq!(a, seed_trades("bot_abc", profile));
        for day in 0..30i64 {
            let n = a.iter().filter(|t| t.days_back == day).count();
            assert!(per_day.contains(&n), "day {day}: {n} trades");
        }
        for t in &a {
            assert!(band.contains(&t.realised_pnl_cents));
            assert!((1..=5).contains(&t.qty));
            assert!((1..=19).contains(&t.fees_ticks));
            assert!(t.hours_back < 12);
            assert_eq!(t.order_id % 100, t.minutes_back / 7 + 1);
            assert_eq!(t.order_id / 100, t.days_back);
        }
        // Days come newest first.
        assert!(a.windows(2).all(|w| w[0].days_back <= w[1].days_back));
    }
    assert_ne!(seed_trades("bot_a", TradeProfile::Volatile), seed_trades("bot_b", TradeProfile::Volatile));
}

#[test]
fn demo_seed_runs_only_into_an_empty_marketplace() {
    assert!(seed_wanted(Some(0)));
    assert!(seed_wanted(None));
    assert!(!seed_wanted(Some(1)));
    assert!(!seed_wanted(Some(3)));
}
