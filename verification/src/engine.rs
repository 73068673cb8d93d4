//! Matching engine.
//!
//! The engine owns one `OrderBook` per `SymbolId` (dense index) and is the
//! only writer to those books. It turns each inbound message into the
//! execution reports it causes, and into the record to journal; the
//! application delivers both. A single scratch `Vec<Fill>` is reused per
//! order.

use vstd::prelude::*;

use crate::marketdata::MarketDataEvent;
use crate::metrics::{after_order, Counters, EngineMetrics};
use crate::orderbook::{
    cancel_spec, fills_qty, lemma_cancel_keeps_uncrossed, lemma_rest_then_cancel,
    lemma_submit_fills, lemma_submit_keeps_uncrossed, lemma_submit_not_resting_absent,
    lemma_submit_trades_at_resting_prices, submit_fits,
    submit_rejected, submit_spec, uncrossed, view_wf, BookView, Fill, OrderBook, SubmitOutcome,
};
use crate::protocol::{
    CancelOrderBody, ExecReportBody, ExecStatus, InboundMessage, NewOrderBody, OrdType, Side, Tif,
};
use crate::session::done_spec;
use crate::wal::WalRecord;
use crate::{ConnId, SymbolId};

verus! {

/// A message handed to the engine.
#[derive(Debug, Clone, Copy)]
pub enum EngineMsg {
    Order { conn_id: ConnId, msg: InboundMessage },
    MarketData(MarketDataEvent),
    Shutdown,
}

/// An execution report routed back to a specific client connection.
#[derive(Debug, Clone, Copy)]
pub struct OutboundExec {
    pub conn_id: ConnId,
    pub body: ExecReportBody,
}

pub struct Engine {
    books: Vec<OrderBook>,
    next_exec_id: u64,
    fills_scratch: Vec<Fill>,
    metrics: EngineMetrics,
}

// ---------------------------------------------------------------------------
// Specification of the reports
// ---------------------------------------------------------------------------
/// The `i`-th execution id handed out from `first` on; ids wrap around.
pub open spec fn exec_id_at(first: u64, i: nat) -> u64
    decreases i,
{
    if i == 0 {
        first
    } else {
        exec_id_at(first, (i - 1) as nat).wrapping_add(1)
    }
}

pub open spec fn report_of(
    conn_id: ConnId,
    order_id: u64,
    exec_id: u64,
    last_price: i64,
    last_qty: u64,
    leaves_qty: u64,
    symbol_id: SymbolId,
    status: u8,
    side: u8,
) -> OutboundExec {
    OutboundExec {
        conn_id,
        body: ExecReportBody {
            order_id,
            exec_id,
            last_price,
            last_qty,
            leaves_qty,
            symbol_id,
            status,
            side,
            _pad: [0, 0],
        },
    }
}

/// The report that an order was refused.
pub open spec fn rejected_report(conn_id: ConnId, order_id: u64, symbol_id: SymbolId, side: u8, exec_id: u64) -> OutboundExec {
    report_of(conn_id, order_id, exec_id, 0, 0, 0, symbol_id, ExecStatus::Rejected.code_spec(), side)
}

/// Quantity filled, quantity resting and terminal status of an accepted
/// order.
pub open spec fn order_status(outcome: SubmitOutcome, qty: u64) -> (u64, u64, ExecStatus) {
    match outcome {
        SubmitOutcome::FullyFilled => (qty, 0, ExecStatus::Filled),
        SubmitOutcome::PartialAndDone { filled_qty } => (filled_qty, 0, ExecStatus::PartiallyFilled),
        SubmitOutcome::NoFill => (0, 0, ExecStatus::New),
        SubmitOutcome::Resting { resting_qty, filled_qty, .. } => (
            filled_qty,
            resting_qty,
            if filled_qty > 0 {
                ExecStatus::PartiallyFilled
            } else {
                ExecStatus::New
            },
        ),
        SubmitOutcome::Rejected => (0, 0, ExecStatus::Rejected),
    }
}

/// The reports for one new order: a refusal; or one report per fill, the
/// last of which carries the order's status and the quantity left resting,
/// followed by a terminal report that carries them too and no fill of its
/// own.
pub open spec fn new_order_reports(
    conn_id: ConnId,
    body: NewOrderBody,
    outcome: SubmitOutcome,
    fills: Seq<Fill>,
    first: u64,
) -> Seq<OutboundExec> {
    if outcome == SubmitOutcome::Rejected {
        seq![rejected_report(conn_id, body.order_id, body.symbol_id, body.side, first)]
    } else {
        let (filled, resting, status) = order_status(outcome, body.qty);
        fill_reports(conn_id, body, fills, first, resting, status) + seq![
            terminal_report(conn_id, body, exec_id_at(first, fills.len()), resting, status),
        ]
    }
}

/// One report per fill of a new order: the price and quantity of the
/// fill. The report of the last fill carries the order's status and the
/// quantity left resting; the earlier ones are marked partially filled,
/// with nothing resting.
pub open spec fn fill_reports(
    conn_id: ConnId,
    body: NewOrderBody,
    fills: Seq<Fill>,
    first: u64,
    resting: u64,
    status: ExecStatus,
) -> Seq<OutboundExec> {
    Seq::new(
        fills.len(),
        |i: int|
            report_of(
                conn_id,
                fills[i].taker_order_id,
                exec_id_at(first, i as nat),
                fills[i].price,
                fills[i].qty,
                if i == fills.len() - 1 {
                    resting
                } else {
                    0
                },
                body.symbol_id,
                if i == fills.len() - 1 {
                    status.code_spec()
                } else {
                    ExecStatus::PartiallyFilled.code_spec()
                },
                body.side,
            ),
    )
}

/// The last report of an accepted order: its status and the quantity left
/// resting.
pub open spec fn terminal_report(
    conn_id: ConnId,
    body: NewOrderBody,
    exec_id: u64,
    resting: u64,
    status: ExecStatus,
) -> OutboundExec {
    report_of(conn_id, body.order_id, exec_id, 0, 0, resting, body.symbol_id, status.code_spec(), body.side)
}

/// The side, type and time in force of a new order, when all three bytes
/// are valid.
pub open spec fn decode_order(body: NewOrderBody) -> Option<(Side, OrdType, Tif)> {
    match (Side::from_code(body.side), OrdType::from_code(body.ord_type), Tif::from_code(body.tif)) {
        (Some(s), Some(o), Some(t)) => Some((s, o, t)),
        _ => None,
    }
}

/// The submission that a new order makes to its book, if it reaches one.
pub open spec fn order_submission(books: Seq<BookView>, body: NewOrderBody) -> Option<
    (SubmitOutcome, BookView, Seq<Fill>),
> {
    if body.symbol_id >= books.len() {
        None
    } else {
        match decode_order(body) {
            None => None,
            Some((s, o, t)) => Some(
                submit_spec(
                    books[body.symbol_id as int],
                    body.order_id,
                    body.client_id,
                    s,
                    o,
                    t,
                    body.price,
                    body.qty,
                ),
            ),
        }
    }
}

/// A new order can be handled without a level's total overflowing.
pub open spec fn order_fits(books: Seq<BookView>, body: NewOrderBody) -> bool {
    body.symbol_id >= books.len() || match decode_order(body) {
        None => true,
        Some((s, o, t)) => submit_fits(
            books[body.symbol_id as int],
            body.order_id,
            body.client_id,
            s,
            o,
            t,
            body.price,
            body.qty,
        ),
    }
}

/// The abstract state of an engine: its books, the next execution id and
/// its counters.
#[verifier::ext_equal]
pub struct EngineState {
    pub books: Seq<BookView>,
    pub next_exec: u64,
    pub counters: Counters,
}

/// What handling a new order does: the engine state afterwards and the
/// reports it sends.
pub open spec fn new_order_spec(e: EngineState, conn_id: ConnId, body: NewOrderBody) -> (
    EngineState,
    Seq<OutboundExec>,
) {
    if body.symbol_id >= e.books.len() {
        (
            EngineState { next_exec: e.next_exec.wrapping_add(1), ..e },
            seq![rejected_report(conn_id, body.order_id, body.symbol_id, body.side, e.next_exec)],
        )
    } else {
        match order_submission(e.books, body) {
            None => (e, Seq::empty()),
            Some(r) => {
                let reps = new_order_reports(conn_id, body, r.0, r.2, e.next_exec);
                (
                    EngineState {
                        books: e.books.update(body.symbol_id as int, r.1),
                        next_exec: exec_id_at(e.next_exec, reps.len()),
                        counters: if r.0 == SubmitOutcome::Rejected {
                            e.counters
                        } else {
                            after_order(e.counters, order_status(r.0, body.qty).0, r.2.len() as u64)
                        },
                    },
                    reps,
                )
            },
        }
    }
}

/// What handling a cancel does: the engine state afterwards and the single
/// report it sends, `Cancelled` when quantity was removed and `Rejected`
/// otherwise.
pub open spec fn cancel_order_spec(e: EngineState, conn_id: ConnId, body: CancelOrderBody) -> (
    EngineState,
    Seq<OutboundExec>,
) {
    let (removed, books) = if body.symbol_id < e.books.len() {
        let c = cancel_spec(e.books[body.symbol_id as int], body.order_id);
        (c.0, e.books.update(body.symbol_id as int, c.1))
    } else {
        (0u64, e.books)
    };
    let status = if removed > 0 {
        ExecStatus::Cancelled
    } else {
        ExecStatus::Rejected
    };
    (
        EngineState { books, next_exec: e.next_exec.wrapping_add(1), counters: e.counters },
        seq![
            report_of(
                conn_id,
                body.order_id,
                e.next_exec,
                0,
                0,
                0,
                body.symbol_id,
                status.code_spec(),
                0,
            ),
        ],
    )
}

impl Engine {
    /// The abstract state: the books, the next execution id and the
    /// counters.
    pub open spec fn state(&self) -> EngineState {
        EngineState {
            books: self.books_view(),
            next_exec: self.next_exec_id_spec(),
            counters: self.counters(),
        }
    }

    pub closed spec fn wf(&self) -> bool {
        &&& self.books@.len() <= u32::MAX + 1
        &&& forall|i: int| 0 <= i < self.books@.len() ==> (#[trigger] self.books@[i]).wf()
            && self.books@[i].symbol() == i
        &&& forall|i: int| 0 <= i < self.books@.len() ==> uncrossed(#[trigger] self.books@[i].view())
    }

    /// The books, one per symbol.
    pub closed spec fn books_view(&self) -> Seq<BookView> {
        self.books@.map_values(|b: OrderBook| b.view())
    }

    /// The next execution id to hand out.
    pub closed spec fn next_exec_id_spec(&self) -> u64 {
        self.next_exec_id
    }

    pub closed spec fn counters(&self) -> Counters {
        self.metrics.counters()
    }

    pub fn new(symbols: u32) -> (e: Self)
        ensures
            e.wf(),
            e.books_view().len() == symbols,
            forall|i: int|
                0 <= i < symbols ==> (#[trigger] e.books_view()[i]).bids.len() == 0
                    && e.books_view()[i].asks.len() == 0,
            e.next_exec_id_spec() == 1,
            e.counters() == (Counters { orders: 0, fills: 0, market_data: 0, wal_dropped: 0 }),
    {
        let mut books: Vec<OrderBook> = Vec::new();
        let mut s: u32 = 0;
        while s < symbols
            invariant
                s <= symbols,
                books@.len() == s,
                forall|i: int|
                    0 <= i < s ==> (#[trigger] books@[i]).wf() && books@[i].symbol() == i
                        && books@[i].view().bids.len() == 0 && books@[i].view().asks.len() == 0,
            decreases symbols - s,
        {
            books.push(OrderBook::new(s));
            s = s + 1;
        }
        Engine { books, next_exec_id: 1, fills_scratch: Vec::new(), metrics: EngineMetrics::new() }
    }

    pub fn metrics(&self) -> (m: &EngineMetrics)
        ensures
            m.counters() == self.counters(),
    {
        &self.metrics
    }

    pub fn symbol_count(&self) -> (n: usize)
        ensures
            n == self.books_view().len(),
    {
        self.books.len()
    }

    pub fn book(&self, symbol_id: SymbolId) -> (b: Option<&OrderBook>)
        requires
            self.wf(),
        ensures
            match b {
                Some(b) => symbol_id < self.books_view().len() && b.wf() && b.view()
                    == self.books_view()[symbol_id as int] && uncrossed(b.view()),
                None => symbol_id >= self.books_view().len(),
            },
    {
        let i = symbol_id as usize;
        if i < self.books.len() {
            Some(&self.books[i])
        } else {
            None
        }
    }

    fn next_exec(&mut self) -> (id: u64)
        ensures
            id == old(self).next_exec_id,
            final(self).next_exec_id == old(self).next_exec_id.wrapping_add(1),
            final(self).books == old(self).books,
            final(self).metrics == old(self).metrics,
            final(self).fills_scratch == old(self).fills_scratch,
    {
        let id = self.next_exec_id;
        self.next_exec_id = self.next_exec_id.wrapping_add(1);
        id
    }
}

impl Engine {
    /// Handle one new order: match it on its book and send the reports it
    /// causes to `execs`.
    #[verifier::rlimit(60)]
    pub fn process_new_order(&mut self, conn_id: ConnId, body: NewOrderBody, execs: &mut Vec<OutboundExec>)
        requires
            old(self).wf(),
            order_fits(old(self).books_view(), body),
        ensures
            final(self).wf(),
            ({
                let r = new_order_spec(old(self).state(), conn_id, body);
                &&& final(self).state() == r.0
                &&& final(execs)@ == old(execs)@ + r.1
            }),
    {
        let ghost e0 = self.state();
        let ghost execs0 = execs@;
        let symbol_idx = body.symbol_id as usize;
        if symbol_idx >= self.books.len() {
            let exec_id = self.next_exec();
            execs.push(
                OutboundExec {
                    conn_id,
                    body: ExecReportBody {
                        order_id: body.order_id,
                        exec_id,
                        last_price: 0,
                        last_qty: 0,
                        leaves_qty: 0,
                        symbol_id: body.symbol_id,
                        status: ExecStatus::Rejected.code(),
                        side: body.side,
                        _pad: [0, 0],
                    },
                },
            );
            proof {
                assert(self.state() =~= new_order_spec(e0, conn_id, body).0);
            }
            return;
        }
        let side = match Side::from_u8(body.side) {
            Some(s) => s,
            None => {
                return;
            },
        };
        let ord_type = match OrdType::from_u8(body.ord_type) {
            Some(o) => o,
            None => {
                return;
            },
        };
        let tif = match Tif::from_u8(body.tif) {
            Some(t) => t,
            None => {
                return;
            },
        };
        proof {
            assert(self.books@[symbol_idx as int].wf());
            assert(self.books_view()[symbol_idx as int] == self.books@[symbol_idx as int].view());
        }
        self.fills_scratch.clear();
        let ghost books0 = self.books@;
        let book = &mut self.books[symbol_idx];
        let outcome = book.submit(
            body.order_id,
            body.client_id,
            side,
            ord_type,
            tif,
            body.price,
            body.qty,
            &mut self.fills_scratch,
        );
        let ghost r = submit_spec(
            books0[symbol_idx as int].view(),
            body.order_id,
            body.client_id,
            side,
            ord_type,
            tif,
            body.price,
            body.qty,
        );
        proof {
            assert(self.fills_scratch@ =~= r.2);
            books0[symbol_idx as int].lemma_view_wf();
            lemma_submit_keeps_uncrossed(
                books0[symbol_idx as int].view(),
                body.order_id,
                body.client_id,
                side,
                ord_type,
                tif,
                body.price,
                body.qty,
            );
            assert forall|i: int| 0 <= i < self.books@.len() implies (#[trigger] self.books@[i]).wf()
                && self.books@[i].symbol() == i && uncrossed(self.books@[i].view()) by {
                if i != symbol_idx {
                    assert(self.books@[i] == books0[i]);
                }
            }
            assert(self.books_view() =~= e0.books.update(symbol_idx as int, r.1));
        }
        let (filled, resting, status) = match outcome {
            SubmitOutcome::FullyFilled => (body.qty, 0, ExecStatus::Filled),
            SubmitOutcome::PartialAndDone { filled_qty } => (
                filled_qty,
                0,
                ExecStatus::PartiallyFilled,
            ),
            SubmitOutcome::NoFill => (0, 0, ExecStatus::New),
            SubmitOutcome::Resting { resting_qty, filled_qty, .. } => {
                let status = if filled_qty > 0 {
                    ExecStatus::PartiallyFilled
                } else {
                    ExecStatus::New
                };
                (filled_qty, resting_qty, status)
            },
            SubmitOutcome::Rejected => {
                let exec_id = self.next_exec();
                execs.push(
                    OutboundExec {
                        conn_id,
                        body: ExecReportBody {
                            order_id: body.order_id,
                            exec_id,
                            last_price: 0,
                            last_qty: 0,
                            leaves_qty: 0,
                            symbol_id: body.symbol_id,
                            status: ExecStatus::Rejected.code(),
                            side: body.side,
                            _pad: [0, 0],
                        },
                    },
                );
                proof {
                    assert(exec_id_at(e0.next_exec, 0) == e0.next_exec);
                    assert(exec_id_at(e0.next_exec, 1) == e0.next_exec.wrapping_add(1));
                    assert(r.1 == books0[symbol_idx as int].view());
                    assert(e0.books.update(symbol_idx as int, r.1) =~= e0.books);
                    assert(self.state() =~= new_order_spec(e0, conn_id, body).0);
                    assert(execs@ =~= execs0 + new_order_spec(e0, conn_id, body).1);
                }
                return;
            },
        };
        let ghost first = self.next_exec_id;
        let ghost reps = new_order_reports(conn_id, body, outcome, r.2, first);
        let ghost freps = fill_reports(conn_id, body, r.2, first, resting, status);
        let total_fills = self.fills_scratch.len();
        let mut i: usize = 0;
        proof {
            assert(exec_id_at(first, 0) == first);
            assert(execs@ =~= execs0 + freps.subrange(0, 0));
        }
        while i < total_fills
            invariant
                0 <= i <= total_fills,
                total_fills == self.fills_scratch@.len(),
                self.fills_scratch@ == r.2,
                freps.len() == total_fills,
                self.books_view() == e0.books.update(symbol_idx as int, r.1),
                forall|k: int| 0 <= k < self.books@.len() ==> (#[trigger] self.books@[k]).wf()
                    && self.books@[k].symbol() == k && uncrossed(self.books@[k].view()),
                self.books@.len() == e0.books.len(),
                self.metrics.counters() == e0.counters,
                self.next_exec_id == exec_id_at(first, i as nat),
                execs@ == execs0 + freps.subrange(0, i as int),
                freps == fill_reports(conn_id, body, r.2, first, resting, status),
            decreases total_fills - i,
        {
            let fill = self.fills_scratch[i];
            let is_last = i == total_fills - 1;
            let report_status = if is_last {
                status.code()
            } else {
                ExecStatus::PartiallyFilled.code()
            };
            let exec_id = self.next_exec();
            let taker_report = ExecReportBody {
                order_id: fill.taker_order_id,
                exec_id,
                last_price: fill.price,
                last_qty: fill.qty,
                leaves_qty: if is_last {
                    resting
                } else {
                    0
                },
                symbol_id: body.symbol_id,
                status: report_status,
                side: body.side,
                _pad: [0, 0],
            };
            execs.push(OutboundExec { conn_id, body: taker_report });
            proof {
                assert(fill == r.2[i as int]);
                assert(freps[i as int] == OutboundExec { conn_id, body: taker_report });
                assert(freps.subrange(0, i + 1) =~= freps.subrange(0, i as int).push(freps[i as int]));
            }
            i = i + 1;
        }
        let exec_id = self.next_exec();
        let final_report = ExecReportBody {
            order_id: body.order_id,
            exec_id,
            last_price: 0,
            last_qty: 0,
            leaves_qty: resting,
            symbol_id: body.symbol_id,
            status: status.code(),
            side: body.side,
            _pad: [0, 0],
        };
        execs.push(OutboundExec { conn_id, body: final_report });
        proof {
            assert(freps.subrange(0, total_fills as int) =~= freps);
            assert(reps == freps + seq![terminal_report(conn_id, body, exec_id_at(first, total_fills as nat), resting, status)]);
            assert(execs@ =~= execs0 + reps);
            assert(exec_id_at(first, (total_fills + 1) as nat) == exec_id_at(first, total_fills as nat).wrapping_add(1));
        }
        self.metrics.record_order(filled, total_fills);
        proof {
            assert(self.state() =~= new_order_spec(e0, conn_id, body).0);
        }
    }
}

/// The record to journal for an inbound message: orders and cancels are
/// journaled, heartbeats are not.
pub open spec fn journal_record(msg: InboundMessage) -> Option<WalRecord> {
    match msg {
        InboundMessage::NewOrder { body, .. } => Some(WalRecord::NewOrder(body)),
        InboundMessage::Cancel { body, .. } => Some(WalRecord::Cancel(body)),
        InboundMessage::Heartbeat { .. } => None,
    }
}

/// What handling an inbound message does to the engine, and the reports
/// it sends.
pub open spec fn handle_spec(e: EngineState, conn_id: ConnId, msg: InboundMessage) -> (
    EngineState,
    Seq<OutboundExec>,
) {
    match msg {
        InboundMessage::NewOrder { body, .. } => new_order_spec(e, conn_id, body),
        InboundMessage::Cancel { body, .. } => cancel_order_spec(e, conn_id, body),
        InboundMessage::Heartbeat { .. } => (e, Seq::empty()),
    }
}

/// A message can be handled without a level's total overflowing.
pub open spec fn msg_fits(books: Seq<BookView>, msg: InboundMessage) -> bool {
    match msg {
        InboundMessage::NewOrder { body, .. } => order_fits(books, body),
        _ => true,
    }
}

impl Engine {
    /// Handle one inbound message from connection `conn_id`. Returns the
    /// record to journal, which is to be enqueued before the reports pushed
    /// to `execs` are sent.
    pub fn handle_order(&mut self, conn_id: ConnId, msg: InboundMessage, execs: &mut Vec<OutboundExec>) -> (wal: Option<WalRecord>)
        requires
            old(self).wf(),
            msg_fits(old(self).books_view(), msg),
        ensures
            final(self).wf(),
            wal == journal_record(msg),
            ({
                let r = handle_spec(old(self).state(), conn_id, msg);
                &&& final(self).state() == r.0
                &&& final(execs)@ == old(execs)@ + r.1
            }),
    {
        match msg {
            InboundMessage::NewOrder { body, .. } => {
                let rec = WalRecord::new_order(body);
                self.process_new_order(conn_id, body, execs);
                Some(rec)
            },
            InboundMessage::Cancel { body, .. } => {
                let rec = WalRecord::cancel(body);
                self.process_cancel(conn_id, body, execs);
                Some(rec)
            },
            InboundMessage::Heartbeat { .. } => None,
        }
    }

    /// Whether `msg` can be handled without a level total overflowing: the
    /// condition under which `handle_order` may be called.
    pub fn can_handle(&self, msg: &InboundMessage) -> (r: bool)
        requires
            self.wf(),
        ensures
            r == msg_fits(self.books_view(), *msg),
    {
        match msg {
            InboundMessage::NewOrder { body, .. } => {
                let idx = body.symbol_id as usize;
                if idx >= self.books.len() {
                    return true;
                }
                let (side, ord_type, tif) = match (
                    Side::from_u8(body.side),
                    OrdType::from_u8(body.ord_type),
                    Tif::from_u8(body.tif),
                ) {
                    (Some(s), Some(o), Some(t)) => (s, o, t),
                    _ => {
                        return true;
                    },
                };
                proof {
                    assert(self.books@[idx as int].wf());
                    assert(self.books_view()[idx as int] == self.books@[idx as int].view());
                }
                self.books[idx].submit_fits_now(
                    body.order_id,
                    body.client_id,
                    side,
                    ord_type,
                    tif,
                    body.price,
                    body.qty,
                )
            },
            _ => true,
        }
    }

    fn process_cancel(&mut self, conn_id: ConnId, body: CancelOrderBody, execs: &mut Vec<OutboundExec>)
        requires
            old(self).wf(),
        ensures
            final(self).wf(),
            ({
                let r = cancel_order_spec(old(self).state(), conn_id, body);
                &&& final(self).state() == r.0
                &&& final(execs)@ == old(execs)@ + r.1
            }),
    {
        let ghost e0 = self.state();
        let ghost books0 = self.books@;
        let idx = body.symbol_id as usize;
        let cancelled = if idx < self.books.len() {
            proof {
                assert(self.books@[idx as int].wf());
                assert(self.books_view()[idx as int] == self.books@[idx as int].view());
            }
            let book = &mut self.books[idx];
            let c = book.cancel(body.order_id);
            proof {
                books0[idx as int].lemma_view_wf();
                lemma_cancel_keeps_uncrossed(books0[idx as int].view(), body.order_id);
                assert forall|i: int| 0 <= i < self.books@.len() implies (#[trigger] self.books@[i]).wf()
                    && self.books@[i].symbol() == i && uncrossed(self.books@[i].view()) by {
                    if i != idx {
                        assert(self.books@[i] == books0[i]);
                    }
                }
                assert(self.books_view() =~= e0.books.update(
                    idx as int,
                    cancel_spec(e0.books[idx as int], body.order_id).1,
                ));
            }
            c
        } else {
            0
        };
        let status = if cancelled > 0 {
            ExecStatus::Cancelled
        } else {
            ExecStatus::Rejected
        };
        let exec_id = self.next_exec();
        let report = ExecReportBody {
            order_id: body.order_id,
            exec_id,
            last_price: 0,
            last_qty: 0,
            leaves_qty: 0,
            symbol_id: body.symbol_id,
            status: status.code(),
            side: 0,
            _pad: [0, 0],
        };
        execs.push(OutboundExec { conn_id, body: report });
        proof {
            assert(self.state() =~= cancel_order_spec(e0, conn_id, body).0);
            assert(execs@ =~= old(execs)@ + cancel_order_spec(e0, conn_id, body).1);
        }
    }

    /// Account for one market-data event.
    pub fn handle_market_data(&mut self, ev: &MarketDataEvent)
        requires
            old(self).wf(),
        ensures
            final(self).wf(),
            final(self).state() == (EngineState {
                counters: Counters {
                    market_data: old(self).state().counters.market_data.wrapping_add(1),
                    ..old(self).state().counters
                },
                ..old(self).state()
            }),
    {
        self.metrics.record_market_data();
    }

    /// Account for a journal record that could not be enqueued.
    pub fn record_wal_dropped(&mut self)
        requires
            old(self).wf(),
        ensures
            final(self).wf(),
            final(self).state() == (EngineState {
                counters: Counters {
                    wal_dropped: old(self).state().counters.wal_dropped.wrapping_add(1),
                    ..old(self).state().counters
                },
                ..old(self).state()
            }),
    {
        self.metrics.record_wal_dropped();
    }
}

/// Every message's reports carry consecutive execution ids from the
/// engine's next one on, and the engine's next id then follows the last.
pub proof fn lemma_exec_ids_consecutive(e: EngineState, conn_id: ConnId, msg: InboundMessage)
    ensures
        ({
            let r = handle_spec(e, conn_id, msg);
            &&& r.0.next_exec == exec_id_at(e.next_exec, r.1.len())
            &&& forall|i: int| 0 <= i < r.1.len() ==> (#[trigger] r.1[i]).body.exec_id == exec_id_at(
                e.next_exec,
                i as nat,
            )
        }),
{
    let r = handle_spec(e, conn_id, msg);
    assert(exec_id_at(e.next_exec, 0) == e.next_exec);
    assert(exec_id_at(e.next_exec, 1) == e.next_exec.wrapping_add(1));
}

/// An order that rests on its book is found by a cancel for its id and
/// symbol: the cancel is acknowledged as `Cancelled`.
pub proof fn lemma_rested_order_cancels(
    e: EngineState,
    conn_id: ConnId,
    body: NewOrderBody,
    cancel_conn: ConnId,
)
    requires
        order_submission(e.books, body) matches Some(r) && r.0 is Resting,
    ensures
        ({
            let after = new_order_spec(e, conn_id, body).0;
            let cancel = CancelOrderBody { order_id: body.order_id, symbol_id: body.symbol_id, _pad: 0 };
            cancel_order_spec(after, cancel_conn, cancel).1[0].body.status
                == ExecStatus::Cancelled.code_spec()
        }),
{
    let (s, o, t) = decode_order(body)->Some_0;
    let v = e.books[body.symbol_id as int];
    lemma_rest_then_cancel(
        v,
        body.order_id,
        body.client_id,
        s,
        o,
        t,
        body.price,
        body.qty,
    );
}

impl Engine {
    /// The views of a well-formed engine's books are well formed.
    pub proof fn lemma_books_wf(&self)
        requires
            self.wf(),
        ensures
            forall|i: int| 0 <= i < self.books_view().len() ==> view_wf(#[trigger] self.books_view()[i]),
    {
        assert forall|i: int| 0 <= i < self.books_view().len() implies view_wf(
            #[trigger] self.books_view()[i],
        ) by {
            self.books@[i].lemma_view_wf();
        }
    }

    /// No book of an engine is ever crossed: in every book the best bid is
    /// below the best ask. A new engine's books are empty, and handling
    /// orders and cancels keeps this.
    pub proof fn lemma_books_uncrossed(&self)
        requires
            self.wf(),
        ensures
            forall|i: int| 0 <= i < self.books_view().len() ==> uncrossed(#[trigger] self.books_view()[i]),
    {
        assert forall|i: int| 0 <= i < self.books_view().len() implies uncrossed(
            #[trigger] self.books_view()[i],
        ) by {
            assert(self.books_view()[i] == self.books@[i].view());
        }
    }
}

/// Handling a message never crosses a book: when every book's best bid is
/// below its best ask before, the same holds after.
pub proof fn lemma_handle_keeps_uncrossed(e: EngineState, conn_id: ConnId, msg: InboundMessage)
    requires
        forall|i: int| 0 <= i < e.books.len() ==> view_wf(#[trigger] e.books[i]),
        forall|i: int| 0 <= i < e.books.len() ==> uncrossed(#[trigger] e.books[i]),
    ensures
        forall|i: int|
            0 <= i < handle_spec(e, conn_id, msg).0.books.len() ==> uncrossed(
                #[trigger] handle_spec(e, conn_id, msg).0.books[i],
            ),
{
    let after = handle_spec(e, conn_id, msg).0;
    match msg {
        InboundMessage::NewOrder { body, .. } => {
            if body.symbol_id < e.books.len() {
                if let Some((s, o, t)) = decode_order(body) {
                    let v = e.books[body.symbol_id as int];
                    lemma_submit_keeps_uncrossed(
                        v,
                        body.order_id,
                        body.client_id,
                        s,
                        o,
                        t,
                        body.price,
                        body.qty,
                    );
                }
            }
        },
        InboundMessage::Cancel { body, .. } => {
            if body.symbol_id < e.books.len() {
                lemma_cancel_keeps_uncrossed(e.books[body.symbol_id as int], body.order_id);
            }
        },
        InboundMessage::Heartbeat { .. } => {},
    }
    assert forall|i: int| 0 <= i < after.books.len() implies uncrossed(#[trigger] after.books[i]) by {
        assert(uncrossed(e.books[i]));
    }
}

/// A positive quantity in every fill makes a non-empty list of fills add
/// up to more than nothing.
proof fn lemma_fills_qty_positive(fs: Seq<Fill>)
    requires
        forall|i: int| 0 <= i < fs.len() ==> (#[trigger] fs[i]).qty > 0,
    ensures
        fills_qty(fs) >= 0,
        fs.len() > 0 ==> fills_qty(fs) > 0,
    decreases fs.len(),
{
    if fs.len() > 0 {
        let rest = fs.drop_first();
        assert forall|i: int| 0 <= i < rest.len() implies (#[trigger] rest[i]).qty > 0 by {
            assert(rest[i] == fs[i + 1]);
        }
        lemma_fills_qty_positive(rest);
    }
}

/// A reader of a new order's reports that stops at the first one that is
/// final for a unary call (`done_spec`) misses nothing: the last report is
/// final, and every report after a final one carries no fill and repeats
/// its status and the quantity left resting.
pub proof fn lemma_unary_reader_sees_whole_order(e: EngineState, conn_id: ConnId, body: NewOrderBody)
    requires
        forall|i: int| 0 <= i < e.books.len() ==> view_wf(#[trigger] e.books[i]),
    ensures
        ({
            let reps = new_order_spec(e, conn_id, body).1;
            &&& reps.len() > 0 ==> done_spec(reps.last().body)
            &&& forall|i: int, j: int|
                0 <= i < j < reps.len() && done_spec(#[trigger] reps[i].body) ==> {
                    &&& (#[trigger] reps[j]).body.last_qty == 0
                    &&& reps[j].body.status == reps[i].body.status
                    &&& reps[j].body.leaves_qty == reps[i].body.leaves_qty
                }
        }),
{
    if body.symbol_id < e.books.len() {
        if let Some((s, o, t)) = decode_order(body) {
            let v = e.books[body.symbol_id as int];
            lemma_submit_fills(v, body.order_id, body.client_id, s, o, t, body.price, body.qty);
            let r = order_submission(e.books, body)->Some_0;
            let reps = new_order_spec(e, conn_id, body).1;
            if r.0 != SubmitOutcome::Rejected {
                lemma_fills_qty_positive(r.2);
                let (filled, resting, status) = order_status(r.0, body.qty);
                let f = fill_reports(conn_id, body, r.2, e.next_exec, resting, status);
                let n = f.len() as int;
                assert(reps == f + seq![terminal_report(conn_id, body, exec_id_at(e.next_exec, r.2.len()), resting, status)]);
                if n > 0 {
                    assert(status == ExecStatus::Filled || status == ExecStatus::PartiallyFilled);
                }
                assert forall|i: int, j: int|
                    0 <= i < j < reps.len() && done_spec(#[trigger] reps[i].body) implies {
                        &&& (#[trigger] reps[j]).body.last_qty == 0
                        &&& reps[j].body.status == reps[i].body.status
                        &&& reps[j].body.leaves_qty == reps[i].body.leaves_qty
                    } by {
                    assert(reps[i] == f[i]);
                    assert(r.2[i].qty > 0);
                    if i < n - 1 {
                        assert(f[i].body.status == ExecStatus::PartiallyFilled.code_spec());
                    } else {
                        assert(j == n);
                    }
                }
            }
        }
    }
}

/// The quantity that a run of reports says was filled.
pub open spec fn reports_qty(reps: Seq<OutboundExec>) -> int
    decreases reps.len(),
{
    if reps.len() == 0 {
        0
    } else {
        reps[0].body.last_qty + reports_qty(reps.drop_first())
    }
}

/// Reports that carry the fills' quantities, then nothing, add up to what
/// the fills add up to.
proof fn lemma_reports_qty(reps: Seq<OutboundExec>, fills: Seq<Fill>)
    requires
        fills.len() <= reps.len(),
        forall|i: int| 0 <= i < fills.len() ==> (#[trigger] reps[i]).body.last_qty == fills[i].qty,
        forall|i: int| fills.len() <= i < reps.len() ==> (#[trigger] reps[i]).body.last_qty == 0,
    ensures
        reports_qty(reps) == fills_qty(fills),
    decreases reps.len(),
{
    if reps.len() > 0 {
        let r = reps.drop_first();
        if fills.len() > 0 {
            let f = fills.drop_first();
            assert forall|i: int| 0 <= i < f.len() implies (#[trigger] r[i]).body.last_qty == f[i].qty by {
                assert(r[i] == reps[i + 1] && f[i] == fills[i + 1]);
            }
            assert forall|i: int| f.len() <= i < r.len() implies (#[trigger] r[i]).body.last_qty == 0 by {
                assert(r[i] == reps[i + 1]);
            }
            lemma_reports_qty(r, f);
        } else {
            assert forall|i: int| fills.len() <= i < r.len() implies (#[trigger] r[i]).body.last_qty == 0 by {
                assert(r[i] == reps[i + 1]);
            }
            lemma_reports_qty(r, fills);
        }
    }
}

/// What the reports of a new order on a known symbol say adds up: every
/// report goes to the sender and names the order, its side and symbol. A
/// refused order gets one refusal, fills nothing and leaves the books as
/// they were. Otherwise the reported fills add up to at most the order's
/// quantity, the last report gives the quantity of the order now resting
/// in its book, and only a limit day order rests, with what it did not
/// fill.
pub proof fn lemma_new_order_accounting(e: EngineState, conn_id: ConnId, body: NewOrderBody)
    requires
        forall|i: int| 0 <= i < e.books.len() ==> view_wf(#[trigger] e.books[i]),
        body.symbol_id < e.books.len(),
        decode_order(body) is Some,
    ensures
        ({
            let (after, reps) = new_order_spec(e, conn_id, body);
            let (s, o, t) = decode_order(body)->Some_0;
            let v = e.books[body.symbol_id as int];
            let rested = cancel_spec(after.books[body.symbol_id as int], body.order_id).0;
            &&& reps.len() > 0
            &&& forall|i: int|
                0 <= i < reps.len() ==> {
                    &&& (#[trigger] reps[i]).conn_id == conn_id
                    &&& reps[i].body.order_id == body.order_id
                    &&& reps[i].body.side == body.side
                    &&& reps[i].body.symbol_id == body.symbol_id
                }
            &&& submit_rejected(v, body.order_id, s, o, t, body.price, body.qty) ==> {
                &&& reps.len() == 1
                &&& reps[0].body.status == ExecStatus::Rejected.code_spec()
                &&& reports_qty(reps) == 0
                &&& after.books == e.books
            }
            &&& !submit_rejected(v, body.order_id, s, o, t, body.price, body.qty) ==> {
                &&& reports_qty(reps) <= body.qty
                &&& reps.last().body.leaves_qty == rested
                &&& rested > 0 ==> o == OrdType::Limit && t == Tif::Day && reports_qty(reps) + rested
                    == body.qty
            }
        }),
{
    let (s, o, t) = decode_order(body)->Some_0;
    let v = e.books[body.symbol_id as int];
    lemma_submit_fills(v, body.order_id, body.client_id, s, o, t, body.price, body.qty);
    lemma_rest_then_cancel(v, body.order_id, body.client_id, s, o, t, body.price, body.qty);
    lemma_submit_not_resting_absent(v, body.order_id, body.client_id, s, o, t, body.price, body.qty);
    let r = order_submission(e.books, body)->Some_0;
    let (after, reps) = new_order_spec(e, conn_id, body);
    assert(after.books[body.symbol_id as int] == r.1);
    if r.0 == SubmitOutcome::Rejected {
        assert(after.books =~= e.books);
        assert(reps.drop_first() =~= Seq::<OutboundExec>::empty());
        assert(reports_qty(reps.drop_first()) == 0);
        assert(reports_qty(reps) == 0);
    } else {
        let (filled, resting, status) = order_status(r.0, body.qty);
        let f = fill_reports(conn_id, body, r.2, e.next_exec, resting, status);
        assert(reps == f + seq![terminal_report(conn_id, body, exec_id_at(e.next_exec, r.2.len()), resting, status)]);
        assert forall|i: int| 0 <= i < reps.len() implies {
            &&& (#[trigger] reps[i]).conn_id == conn_id
            &&& reps[i].body.order_id == body.order_id
            &&& reps[i].body.side == body.side
            &&& reps[i].body.symbol_id == body.symbol_id
        } by {
            if i < f.len() {
                assert(reps[i] == f[i]);
                assert(r.2[i].taker_order_id == body.order_id);
            }
        }
        assert forall|i: int| 0 <= i < r.2.len() implies (#[trigger] reps[i]).body.last_qty == r.2[i].qty by {
            assert(reps[i] == f[i]);
        }
        lemma_reports_qty(reps, r.2);
        assert(reports_qty(reps) == fills_qty(r.2));
        assert(reports_qty(reps) <= body.qty);
        assert(reps.last().body.leaves_qty == resting);
        assert(cancel_spec(after.books[body.symbol_id as int], body.order_id).0 == resting);
    }
}

/// The reports of an accepted new order are its fills, in order, then the
/// order's end: report `i` carries the price and quantity of the book's
/// fill `i`, which is the price of the resting order it traded with.
pub proof fn lemma_fill_reports_carry_fills(e: EngineState, conn_id: ConnId, body: NewOrderBody)
    requires
        forall|i: int| 0 <= i < e.books.len() ==> view_wf(#[trigger] e.books[i]),
        body.symbol_id < e.books.len(),
        decode_order(body) is Some,
    ensures
        ({
            let reps = new_order_spec(e, conn_id, body).1;
            let (s, o, t) = decode_order(body)->Some_0;
            let v = e.books[body.symbol_id as int];
            let r = submit_spec(v, body.order_id, body.client_id, s, o, t, body.price, body.qty);
            let opp = v.side(s.opposite_spec());
            r.0 != SubmitOutcome::Rejected ==> {
                &&& reps.len() == r.2.len() + 1
                &&& forall|i: int|
                    0 <= i < r.2.len() ==> {
                        &&& (#[trigger] reps[i]).body.last_price == r.2[i].price
                        &&& reps[i].body.last_qty == r.2[i].qty
                        &&& exists|k: int|
                            0 <= k < opp.len() && (#[trigger] opp[k]).order_id == r.2[i].maker_order_id
                                && opp[k].price == reps[i].body.last_price
                    }
                &&& reps.last().body.last_qty == 0
            }
        }),
{
    let (s, o, t) = decode_order(body)->Some_0;
    let v = e.books[body.symbol_id as int];
    let r = submit_spec(v, body.order_id, body.client_id, s, o, t, body.price, body.qty);
    lemma_submit_trades_at_resting_prices(v, body.order_id, body.client_id, s, o, t, body.price, body.qty);
    if r.0 != SubmitOutcome::Rejected {
        let reps = new_order_spec(e, conn_id, body).1;
        let (filled, resting, status) = order_status(r.0, body.qty);
        let f = fill_reports(conn_id, body, r.2, e.next_exec, resting, status);
        assert(reps == f + seq![terminal_report(conn_id, body, exec_id_at(e.next_exec, r.2.len()), resting, status)]);
        let opp = v.side(s.opposite_spec());
        assert forall|i: int| 0 <= i < r.2.len() implies {
            &&& (#[trigger] reps[i]).body.last_price == r.2[i].price
            &&& reps[i].body.last_qty == r.2[i].qty
            &&& exists|k: int|
                0 <= k < opp.len() && (#[trigger] opp[k]).order_id == r.2[i].maker_order_id
                    && opp[k].price == reps[i].body.last_price
        } by {
            assert(reps[i] == f[i]);
            let k = choose|k: int|
                0 <= k < opp.len() && (#[trigger] opp[k]).order_id == (#[trigger] r.2[i]).maker_order_id
                    && opp[k].price == r.2[i].price;
        }
    }
}

} // verus!
