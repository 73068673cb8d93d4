use std::time::Duration;

use trading_server::bot::price_cache::{fresh, PriceCache, PriceObservation};

#[test]
fn round_trip_in_window() {
    let mut c = PriceCache::new();
    c.update(7, 12_345);
    let obs = c.get(7, Duration::from_secs(10)).expect("fresh");
    assert_eq!(obs.price_ticks, 12_345);
}

#[test]
fn returns_none_for_unknown_symbol() {
    let c = PriceCache::new();
    assert!(c.get(7, Duration::from_secs(10)).is_none());
}

#[test]
fn zero_window_treats_an_older_reading_as_stale() {
    let mut c = PriceCache::new();
    c.update(7, 12_345);
    let start = std::time::Instant::now();
    while start.elapsed() < Duration::from_millis(2) {}
    assert!(c.get(7, Duration::from_nanos(1)).is_none());
}

#[test]
fn a_newer_price_replaces_the_older_one() {
    let mut c = PriceCache::new();
    c.update(7, 1);
    c.update(8, 2);
    c.update(7, 3);
    assert_eq!(c.get(7, Duration::from_secs(10)).expect("fresh").price_ticks, 3);
    assert_eq!(c.get(8, Duration::from_secs(10)).expect("fresh").price_ticks, 2);
}

#[test]
fn an_observation_is_fresh_up_to_its_limit() {
    let obs = PriceObservation { price_ticks: 42, observed_at: std::time::Instant::now() };
    assert_eq!(fresh(obs, 0, 0).expect("fresh").price_ticks, 42);
    assert_eq!(fresh(obs, 1_000, 1_000).expect("fresh").price_ticks, 42);
    assert!(fresh(obs, 1_001, 1_000).is_none());
    assert!(fresh(obs, u128::MAX, u128::MAX - 1).is_none());
}
