use trading_server::engine::{Engine, EngineMsg, OutboundExec};
use trading_server::marketdata::MarketDataEvent;
use trading_server::protocol::{
    CancelOrderBody, ExecStatus, Header, InboundMessage, NewOrderBody, OrdType, Side, Tif,
};
use trading_server::session::synthetic_header;
use trading_server::wal::WalRecord;
use trading_server::PRICE_SCALE;

fn new_order(order_id: u64, symbol_id: u32, side: Side, price: i64, qty: u64) -> NewOrderBody {
    NewOrderBody {
        price: price * PRICE_SCALE,
        qty,
        client_id: order_id,
        order_id,
        symbol_id,
        side: side as u8,
        ord_type: OrdType::Limit as u8,
        tif: Tif::Day as u8,
        _pad: 0,
        _pad2: 0,
        _pad3: 0,
    }
}

fn header() -> Header {
    synthetic_header(trading_server::protocol::MsgType::NewOrder, 48)
}

#[test]
fn resting_then_crossing_emits_reports() {
    let mut eng = Engine::new(4);
    let mut reports: Vec<OutboundExec> = Vec::new();

    eng.process_new_order(1, new_order(1, 0, Side::Sell, 100, 10), &mut reports);
    eng.process_new_order(2, new_order(2, 0, Side::Buy, 100, 6), &mut reports);

    let statuses: Vec<u8> = reports.iter().map(|r| r.body.status).collect();
    assert!(statuses.contains(&(ExecStatus::New as u8)), "got {statuses:?}");
    assert!(statuses.contains(&(ExecStatus::Filled as u8)), "got {statuses:?}");
}

#[test]
fn crossing_reports_go_to_the_taker_with_increasing_exec_ids() {
    let mut eng = Engine::new(1);
    let mut reports: Vec<OutboundExec> = Vec::new();
    eng.process_new_order(7, new_order(1, 0, Side::Sell, 100, 10), &mut reports);
    eng.process_new_order(8, new_order(2, 0, Side::Buy, 100, 6), &mut reports);
    assert_eq!(reports.len(), 3);
    assert_eq!(reports[0].conn_id, 7);
    assert_eq!(reports[0].body.status, ExecStatus::New as u8);
    assert_eq!(reports[0].body.leaves_qty, 10);
    assert_eq!(reports[0].body.exec_id, 1);
    let fill = &reports[1];
    assert_eq!(fill.conn_id, 8);
    assert_eq!(fill.body.exec_id, 2);
    assert_eq!(fill.body.order_id, 2);
    assert_eq!(fill.body.last_price, 100 * PRICE_SCALE);
    assert_eq!(fill.body.last_qty, 6);
    assert_eq!(fill.body.leaves_qty, 0);
    assert_eq!(fill.body.status, ExecStatus::Filled as u8);
    let terminal = &reports[2];
    assert_eq!(terminal.conn_id, 8);
    assert_eq!(terminal.body.exec_id, 3);
    assert_eq!(terminal.body.order_id, 2);
    assert_eq!(terminal.body.last_qty, 0);
    assert_eq!(terminal.body.leaves_qty, 0);
    assert_eq!(terminal.body.status, ExecStatus::Filled as u8);
    let snap = eng.metrics().snapshot(0, 0, 0, 0, 0);
    assert_eq!(snap.orders_total, 2);
    assert_eq!(snap.fills_total, 1);
}

#[test]
fn sweeping_two_levels_reports_each_fill_then_the_end() {
    let mut eng = Engine::new(4);
    let mut reports: Vec<OutboundExec> = Vec::new();
    eng.process_new_order(1, new_order(1, 0, Side::Sell, 102, 10), &mut reports);
    eng.process_new_order(1, new_order(2, 0, Side::Sell, 101, 5), &mut reports);
    reports.clear();
    eng.process_new_order(2, new_order(10, 0, Side::Buy, 102, 7), &mut reports);
    assert_eq!(reports.len(), 3);
    assert!(reports.iter().all(|r| r.conn_id == 2 && r.body.order_id == 10));
    assert_eq!((reports[0].body.last_price, reports[0].body.last_qty), (101 * PRICE_SCALE, 5));
    assert_eq!(reports[0].body.status, ExecStatus::PartiallyFilled as u8);
    assert_eq!((reports[1].body.last_price, reports[1].body.last_qty), (102 * PRICE_SCALE, 2));
    assert_eq!(reports[1].body.status, ExecStatus::Filled as u8);
    assert_eq!(reports[1].body.leaves_qty, 0);
    assert_eq!(reports[2].body.last_qty, 0);
    assert_eq!(reports[2].body.status, ExecStatus::Filled as u8);
    let ids: Vec<u64> = reports.iter().map(|r| r.body.exec_id).collect();
    assert_eq!(ids, vec![3, 4, 5]);
    let book = eng.book(0).expect("book");
    assert_eq!(book.best_ask(), Some(102 * PRICE_SCALE));
}

#[test]
fn cross_two_clients_emits_fills() {
    let mut eng = Engine::new(4);
    let mut reports: Vec<OutboundExec> = Vec::new();
    eng.process_new_order(1, new_order(1, 0, Side::Sell, 100, 5), &mut reports);
    assert_eq!(reports.len(), 1);
    assert_eq!(reports[0].body.status, ExecStatus::New as u8);
    assert_eq!(reports[0].body.order_id, 1);
    assert_eq!(reports[0].body.leaves_qty, 5);

    reports.clear();
    eng.process_new_order(2, new_order(2, 0, Side::Buy, 100, 3), &mut reports);
    assert_eq!(reports.len(), 2);
    assert!(reports.iter().all(|r| r.conn_id == 2));
    assert!(reports.iter().any(|r| r.body.last_qty == 3 && r.body.last_price == 100 * PRICE_SCALE));
    assert!(reports.iter().any(|r| r.body.status == ExecStatus::Filled as u8));

    reports.clear();
    let cancel = InboundMessage::Cancel {
        header: header(),
        body: CancelOrderBody { order_id: 1, symbol_id: 0, _pad: 0 },
    };
    eng.handle_order(1, cancel, &mut reports);
    assert_eq!(reports.len(), 1);
    assert_eq!(reports[0].conn_id, 1);
    assert_eq!(reports[0].body.status, ExecStatus::Cancelled as u8);
    assert_eq!(reports[0].body.order_id, 1);
    let book = eng.book(0).expect("book");
    assert_eq!(book.order_count(), 0);
    assert_eq!(book.best_ask(), None);
}

#[test]
fn a_partly_filled_day_order_rests_what_it_did_not_fill() {
    let mut eng = Engine::new(1);
    let mut reports: Vec<OutboundExec> = Vec::new();
    eng.process_new_order(1, new_order(1, 0, Side::Sell, 100, 4), &mut reports);
    reports.clear();
    eng.process_new_order(2, new_order(2, 0, Side::Buy, 100, 10), &mut reports);
    assert_eq!(reports.len(), 2);
    assert_eq!(reports[0].body.last_qty, 4);
    assert_eq!(reports[0].body.status, ExecStatus::PartiallyFilled as u8);
    assert_eq!(reports[0].body.leaves_qty, 6);
    assert_eq!(reports[1].body.last_qty, 0);
    assert_eq!(reports[1].body.status, ExecStatus::PartiallyFilled as u8);
    assert_eq!(reports[1].body.leaves_qty, 6);
    let book = eng.book(0).expect("book");
    assert_eq!(book.best_bid(), Some(100 * PRICE_SCALE));
    assert_eq!(book.order_count(), 1);
}

#[test]
fn an_immediate_order_rests_nothing() {
    let mut eng = Engine::new(1);
    let mut reports: Vec<OutboundExec> = Vec::new();
    eng.process_new_order(1, new_order(1, 0, Side::Sell, 100, 4), &mut reports);
    reports.clear();
    let mut ioc = new_order(2, 0, Side::Buy, 100, 10);
    ioc.tif = Tif::Ioc as u8;
    eng.process_new_order(2, ioc, &mut reports);
    let filled: u64 = reports.iter().map(|r| r.body.last_qty).sum();
    assert_eq!(filled, 4);
    assert_eq!(reports.last().unwrap().body.leaves_qty, 0);
    assert_eq!(reports.last().unwrap().body.status, ExecStatus::PartiallyFilled as u8);
    assert_eq!(eng.book(0).expect("book").order_count(), 0);
}

#[test]
fn unknown_symbol_is_rejected() {
    let mut eng = Engine::new(2);
    let mut reports = Vec::new();
    eng.process_new_order(3, new_order(5, 9, Side::Buy, 100, 1), &mut reports);
    assert_eq!(reports.len(), 1);
    assert_eq!(reports[0].conn_id, 3);
    assert_eq!(reports[0].body.status, ExecStatus::Rejected as u8);
    assert_eq!(reports[0].body.order_id, 5);
}

#[test]
fn cancel_is_acknowledged_and_journaled() {
    let mut eng = Engine::new(1);
    let mut reports = Vec::new();
    let msg = InboundMessage::NewOrder { header: header(), body: new_order(1, 0, Side::Buy, 99, 10) };
    assert!(eng.can_handle(&msg));
    let rec = eng.handle_order(4, msg, &mut reports);
    assert!(matches!(rec, Some(WalRecord::NewOrder(b)) if b.order_id == 1));
    let cancel = InboundMessage::Cancel {
        header: header(),
        body: CancelOrderBody { order_id: 1, symbol_id: 0, _pad: 0 },
    };
    let rec = eng.handle_order(4, cancel, &mut reports);
    assert!(matches!(rec, Some(WalRecord::Cancel(b)) if b.order_id == 1));
    let last = reports.last().expect("cancel ack");
    assert_eq!(last.body.status, ExecStatus::Cancelled as u8);
    assert_eq!(eng.book(0).expect("book").order_count(), 0);

    // A second cancel finds nothing.
    let rec = eng.handle_order(4, cancel, &mut reports);
    assert!(rec.is_some());
    assert_eq!(reports.last().unwrap().body.status, ExecStatus::Rejected as u8);
}

#[test]
fn heartbeat_is_neither_journaled_nor_answered() {
    let mut eng = Engine::new(1);
    let mut reports = Vec::new();
    let rec = eng.handle_order(1, InboundMessage::Heartbeat { header: header() }, &mut reports);
    assert!(rec.is_none());
    assert!(reports.is_empty());
}

#[test]
fn market_data_and_dropped_journal_records_are_counted() {
    let mut eng = Engine::new(1);
    eng.handle_market_data(&MarketDataEvent::BookSnapshot { symbol_id: 0, ts_ns: 1 });
    eng.handle_market_data(&MarketDataEvent::Trade { symbol_id: 0, price: 1, qty: 1, ts_ns: 2 });
    eng.record_wal_dropped();
    let snap = eng.metrics().snapshot(0, 0, 0, 0, 0);
    assert_eq!(snap.market_data_total, 2);
    assert_eq!(snap.wal_dropped_total, 1);
    assert_eq!(eng.symbol_count(), 1);
    let _ = EngineMsg::MarketData(MarketDataEvent::BookSnapshot { symbol_id: 0, ts_ns: 0 });
}

#[test]
fn books_never_cross_over_a_stream_of_orders() {
    let mut eng = Engine::new(1);
    let mut reports = Vec::new();
    let mut state: u64 = 7;
    for id in 1..400u64 {
        state = state.wrapping_mul(6364136223846793005).wrapping_add(1442695040888963407);
        let side = if (state >> 33) % 2 == 0 { Side::Buy } else { Side::Sell };
        let price = 95 + ((state >> 40) % 11) as i64;
        let qty = 1 + (state >> 50) % 9;
        let mut body = new_order(id, 0, side, price, qty);
        body.tif = match (state >> 20) % 3 {
            0 => Tif::Day as u8,
            1 => Tif::Ioc as u8,
            _ => Tif::Fok as u8,
        };
        let msg = InboundMessage::NewOrder { header: header(), body };
        assert!(eng.can_handle(&msg));
        eng.handle_order(1, msg, &mut reports);
        if (state >> 10) % 5 == 0 {
            let cancel = InboundMessage::Cancel {
                header: header(),
                body: CancelOrderBody { order_id: id / 2, symbol_id: 0, _pad: 0 },
            };
            eng.handle_order(1, cancel, &mut reports);
        }
        let book = eng.book(0).expect("book");
        if let (Some(b), Some(a)) = (book.best_bid(), book.best_ask()) {
            assert!(b < a, "crossed after order {id}: bid {b} ask {a}");
        }
    }
    let ids: Vec<u64> = reports.iter().map(|r| r.body.exec_id).collect();
    for (i, x) in ids.iter().enumerate() {
        assert_eq!(*x, i as u64 + 1);
    }
}
