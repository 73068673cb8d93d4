use trading_server::marketdata::{decode_replay, replay_fits, MarketDataEvent, REPLAY_RECORD_SIZE};

fn record(ev_type: u8, symbol: u32, price: i64, qty: u64, ts: u64) -> Vec<u8> {
    let mut r = vec![ev_type];
    r.extend_from_slice(&symbol.to_le_bytes());
    r.extend_from_slice(&price.to_le_bytes());
    r.extend_from_slice(&qty.to_le_bytes());
    r.extend_from_slice(&ts.to_le_bytes());
    r
}

#[test]
fn records_decode_to_trades_and_quotes() {
    let mut buf = record(0, 3, 100, 5, 10);
    buf.extend(record(1, 4, 200, 6, 20));
    buf.extend(record(7, 5, -1, 7, 30));
    buf.extend_from_slice(&[1, 2, 3]);
    assert_eq!(REPLAY_RECORD_SIZE, 29);
    assert!(replay_fits(&buf));
    let evs = decode_replay(&buf);
    assert_eq!(evs.len(), 3);
    assert!(matches!(evs[0], MarketDataEvent::Trade { symbol_id: 3, price: 100, qty: 5, ts_ns: 10 }));
    match evs[1] {
        MarketDataEvent::Quote { symbol_id, bid_price, bid_qty, ask_price, ask_qty, ts_ns } => {
            assert_eq!((symbol_id, bid_price, bid_qty, ask_price, ask_qty, ts_ns), (4, 200, 6, 201, 6, 20));
        }
        other => panic!("expected a quote, got {other:?}"),
    }
    assert!(matches!(evs[2], MarketDataEvent::Trade { symbol_id: 5, price: -1, .. }));
    assert_eq!(evs[2].symbol_id(), 5);
}

#[test]
fn quote_at_the_top_price_does_not_fit() {
    let buf = record(1, 1, i64::MAX, 1, 1);
    assert!(!replay_fits(&buf));
    let buf = record(0, 1, i64::MAX, 1, 1);
    assert!(replay_fits(&buf));
}
