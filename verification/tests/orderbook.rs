use trading_server::orderbook::{OrderBook, SubmitOutcome};
use trading_server::protocol::{OrdType, Side, Tif};
use trading_server::{Price, PRICE_SCALE};

fn px(p: i64) -> Price {
    p * PRICE_SCALE
}

fn buy_limit_day(book: &mut OrderBook, id: u64, price: i64, qty: u64) {
    let mut fills = Vec::new();
    book.submit(id, id, Side::Buy, OrdType::Limit, Tif::Day, px(price), qty, &mut fills);
}

fn sell_limit_day(book: &mut OrderBook, id: u64, price: i64, qty: u64) {
    let mut fills = Vec::new();
    book.submit(id, id, Side::Sell, OrdType::Limit, Tif::Day, px(price), qty, &mut fills);
}

#[test]
fn resting_orders_set_best_prices() {
    let mut book = OrderBook::new(0);
    buy_limit_day(&mut book, 1, 99, 10);
    buy_limit_day(&mut book, 2, 100, 5);
    sell_limit_day(&mut book, 3, 101, 7);
    sell_limit_day(&mut book, 4, 102, 4);
    assert_eq!(book.best_bid(), Some(px(100)));
    assert_eq!(book.best_ask(), Some(px(101)));
}

#[test]
fn marketable_buy_fills_against_best_ask_first() {
    let mut book = OrderBook::new(0);
    sell_limit_day(&mut book, 1, 102, 10);
    sell_limit_day(&mut book, 2, 101, 5);

    let mut fills = Vec::new();
    let outcome = book.submit(10, 10, Side::Buy, OrdType::Limit, Tif::Day, px(102), 7, &mut fills);
    // 5 @ 101 + 2 @ 102 = 7
    assert_eq!(fills.len(), 2);
    assert_eq!(fills[0].price, px(101));
    assert_eq!(fills[0].qty, 5);
    assert_eq!(fills[1].price, px(102));
    assert_eq!(fills[1].qty, 2);
    assert_eq!(outcome, SubmitOutcome::FullyFilled);
    assert_eq!(book.best_ask(), Some(px(102)));
}

#[test]
fn fifo_within_a_price_level() {
    let mut book = OrderBook::new(0);
    sell_limit_day(&mut book, 1, 100, 3);
    sell_limit_day(&mut book, 2, 100, 4);
    sell_limit_day(&mut book, 3, 100, 5);

    let mut fills = Vec::new();
    book.submit(10, 10, Side::Buy, OrdType::Limit, Tif::Day, px(100), 6, &mut fills);
    assert_eq!(fills.len(), 2);
    assert_eq!(fills[0].maker_order_id, 1);
    assert_eq!(fills[0].qty, 3);
    assert_eq!(fills[1].maker_order_id, 2);
    assert_eq!(fills[1].qty, 3);
}

#[test]
fn cancel_removes_order_and_empties_level() {
    let mut book = OrderBook::new(0);
    buy_limit_day(&mut book, 1, 99, 10);
    assert_eq!(book.depth(Side::Buy), 1);
    let removed = book.cancel(1);
    assert_eq!(removed, 10);
    assert_eq!(book.depth(Side::Buy), 0);
    assert_eq!(book.order_count(), 0);
    assert_eq!(book.best_bid(), None);
}

#[test]
fn fok_rejects_when_insufficient_liquidity() {
    let mut book = OrderBook::new(0);
    sell_limit_day(&mut book, 1, 100, 3);
    let mut fills = Vec::new();
    let outcome = book.submit(10, 10, Side::Buy, OrdType::Limit, Tif::Fok, px(100), 5, &mut fills);
    assert_eq!(outcome, SubmitOutcome::Rejected);
    assert!(fills.is_empty());
    // Book unchanged.
    assert_eq!(book.best_ask(), Some(px(100)));
}

#[test]
fn ioc_partial_then_done() {
    let mut book = OrderBook::new(0);
    sell_limit_day(&mut book, 1, 100, 3);
    let mut fills = Vec::new();
    let outcome = book.submit(10, 10, Side::Buy, OrdType::Limit, Tif::Ioc, px(100), 5, &mut fills);
    assert_eq!(fills.len(), 1);
    assert_eq!(fills[0].qty, 3);
    assert_eq!(outcome, SubmitOutcome::PartialAndDone { filled_qty: 3 });
    // 2 remaining did NOT rest.
    assert_eq!(book.depth(Side::Buy), 0);
}

#[test]
fn duplicate_id_rejected() {
    let mut book = OrderBook::new(0);
    buy_limit_day(&mut book, 1, 99, 5);
    let mut fills = Vec::new();
    let outcome = book.submit(1, 1, Side::Buy, OrdType::Limit, Tif::Day, px(99), 5, &mut fills);
    assert_eq!(outcome, SubmitOutcome::Rejected);
}

#[test]
fn fok_fills_completely_when_liquidity_suffices() {
    let mut book = OrderBook::new(0);
    sell_limit_day(&mut book, 1, 100, 3);
    sell_limit_day(&mut book, 2, 101, 3);
    let mut fills = Vec::new();
    let outcome = book.submit(10, 10, Side::Buy, OrdType::Limit, Tif::Fok, px(101), 5, &mut fills);
    assert_eq!(outcome, SubmitOutcome::FullyFilled);
    assert_eq!(fills.iter().map(|f| f.qty).sum::<u64>(), 5);
    assert_eq!(book.best_ask(), Some(px(101)));
}

#[test]
fn partially_filled_day_order_rests_remainder() {
    let mut book = OrderBook::new(0);
    sell_limit_day(&mut book, 1, 100, 3);
    let mut fills = Vec::new();
    let outcome = book.submit(10, 10, Side::Buy, OrdType::Limit, Tif::Day, px(101), 5, &mut fills);
    assert_eq!(
        outcome,
        SubmitOutcome::Resting { resting_qty: 2, filled_qty: 3, crossed: true }
    );
    assert_eq!(book.best_bid(), Some(px(101)));
    assert_eq!(book.best_ask(), None);
    assert_eq!(book.order_count(), 1);
}

#[test]
fn market_order_without_liquidity_gets_no_fill() {
    let mut book = OrderBook::new(0);
    let mut fills = Vec::new();
    let outcome = book.submit(10, 10, Side::Sell, OrdType::Market, Tif::Ioc, 0, 5, &mut fills);
    assert_eq!(outcome, SubmitOutcome::NoFill);
    assert!(fills.is_empty());
    assert_eq!(book.depth(Side::Sell), 0);
}

#[test]
fn zero_quantity_is_rejected_and_unknown_cancel_removes_nothing() {
    let mut book = OrderBook::new(3);
    let mut fills = Vec::new();
    let outcome = book.submit(1, 1, Side::Buy, OrdType::Limit, Tif::Day, px(1), 0, &mut fills);
    assert_eq!(outcome, SubmitOutcome::Rejected);
    assert_eq!(book.cancel(99), 0);
}

#[test]
fn overflowing_level_total_is_detected_before_submit() {
    let mut book = OrderBook::new(0);
    buy_limit_day(&mut book, 1, 99, u64::MAX - 1);
    assert!(book.submit_fits_now(2, 2, Side::Buy, OrdType::Limit, Tif::Day, px(99), 1));
    assert!(!book.submit_fits_now(2, 2, Side::Buy, OrdType::Limit, Tif::Day, px(99), 2));
    // At another price, or when it cannot rest, the order fits.
    assert!(book.submit_fits_now(2, 2, Side::Buy, OrdType::Limit, Tif::Day, px(98), 2));
    assert!(book.submit_fits_now(2, 2, Side::Buy, OrdType::Limit, Tif::Ioc, px(99), 2));
}

#[test]
fn resting_order_cancels_for_its_resting_quantity_once() {
    let mut book = OrderBook::new(0);
    sell_limit_day(&mut book, 1, 100, 3);
    let mut fills = Vec::new();
    let outcome = book.submit(7, 7, Side::Buy, OrdType::Limit, Tif::Day, px(100), 8, &mut fills);
    assert_eq!(outcome, SubmitOutcome::Resting { resting_qty: 5, filled_qty: 3, crossed: true });
    assert_eq!(book.cancel(7), 5);
    assert_eq!(book.cancel(7), 0);
    assert_eq!(book.order_count(), 0);
}

#[test]
fn resting_then_cancelling_a_passive_order_restores_the_book() {
    let mut book = OrderBook::new(0);
    buy_limit_day(&mut book, 1, 99, 4);
    buy_limit_day(&mut book, 2, 98, 2);
    sell_limit_day(&mut book, 3, 101, 5);
    let before = (
        book.best_bid(),
        book.best_ask(),
        book.depth(Side::Buy),
        book.depth(Side::Sell),
        book.order_count(),
    );
    let mut fills = Vec::new();
    let outcome = book.submit(9, 9, Side::Buy, OrdType::Limit, Tif::Day, px(100), 7, &mut fills);
    assert_eq!(outcome, SubmitOutcome::Resting { resting_qty: 7, filled_qty: 0, crossed: false });
    assert_eq!(book.best_bid(), Some(px(100)));
    assert_eq!(book.cancel(9), 7);
    let after = (
        book.best_bid(),
        book.best_ask(),
        book.depth(Side::Buy),
        book.depth(Side::Sell),
        book.order_count(),
    );
    assert_eq!(after, before);
    // Later orders trade as they would have before.
    let mut fills = Vec::new();
    book.submit(10, 10, Side::Sell, OrdType::Limit, Tif::Ioc, px(98), 5, &mut fills);
    let trades: Vec<(u64, i64, u64)> = fills.iter().map(|f| (f.maker_order_id, f.price, f.qty)).collect();
    assert_eq!(trades, vec![(1, px(99), 4), (2, px(98), 1)]);
}
