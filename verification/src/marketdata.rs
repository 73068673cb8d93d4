//! Market-data events and the decoding of recorded sessions.
//!
//! A recorded session is a sequence of fixed-size little-endian records:
//!
//! ```text
//! event_type:u8 | symbol_id:u32 | price:i64 | qty:u64 | ts_ns:u64
//! ```
//!
//! `event_type` 1 is a quote (price and quantity are the bid; the ask is one
//! tick higher with the same quantity); any other value is a trade.

use vstd::prelude::*;

use crate::protocol::{get32, get64, read_u32, read_u64};
use crate::{Price, Qty, SymbolId};

verus! {

#[derive(Debug, Clone, Copy)]
pub enum MarketDataEvent {
    Trade { symbol_id: SymbolId, price: Price, qty: Qty, ts_ns: u64 },
    Quote {
        symbol_id: SymbolId,
        bid_price: Price,
        bid_qty: Qty,
        ask_price: Price,
        ask_qty: Qty,
        ts_ns: u64,
    },
    BookSnapshot { symbol_id: SymbolId, ts_ns: u64 },
}

impl MarketDataEvent {
    pub open spec fn symbol_spec(self) -> SymbolId {
        match self {
            MarketDataEvent::Trade { symbol_id, .. } => symbol_id,
            MarketDataEvent::Quote { symbol_id, .. } => symbol_id,
            MarketDataEvent::BookSnapshot { symbol_id, .. } => symbol_id,
        }
    }

    pub fn symbol_id(&self) -> (r: SymbolId)
        ensures
            r == self.symbol_spec(),
    {
        match self {
            MarketDataEvent::Trade { symbol_id, .. } => *symbol_id,
            MarketDataEvent::Quote { symbol_id, .. } => *symbol_id,
            MarketDataEvent::BookSnapshot { symbol_id, .. } => *symbol_id,
        }
    }
}

/// Size of one record of a recorded session.
pub const REPLAY_RECORD_SIZE: usize = 29;

/// The event a record stands for.
pub open spec fn replay_event(rec: Seq<u8>) -> MarketDataEvent {
    let symbol_id = get32(rec, 1);
    let price = get64(rec, 5) as i64;
    let qty = get64(rec, 13);
    let ts_ns = get64(rec, 21);
    if rec[0] == 1 {
        MarketDataEvent::Quote {
            symbol_id,
            bid_price: price,
            bid_qty: qty,
            ask_price: (price + 1) as i64,
            ask_qty: qty,
            ts_ns,
        }
    } else {
        MarketDataEvent::Trade { symbol_id, price, qty, ts_ns }
    }
}

/// The `i`-th record of a session.
pub open spec fn replay_record(buf: Seq<u8>, i: int) -> Seq<u8> {
    buf.subrange(i * 29, i * 29 + 29)
}

/// The events of a recorded session, one per complete record; trailing
/// bytes that do not make a record are ignored.
pub open spec fn replay_spec(buf: Seq<u8>) -> Seq<MarketDataEvent> {
    Seq::new(buf.len() / 29, |i: int| replay_event(replay_record(buf, i)))
}

/// Every quote's ask, one tick above its bid, is a valid price.
pub open spec fn replay_ok(buf: Seq<u8>) -> bool {
    forall|i: int|
        0 <= i < buf.len() / 29 ==> (#[trigger] replay_record(buf, i))[0] == 1 ==> (get64(
            replay_record(buf, i),
            5,
        ) as i64) < i64::MAX
}

/// Decode the record at `off`.
fn decode_record(buf: &[u8], off: usize) -> (ev: MarketDataEvent)
    requires
        off + 29 <= buf@.len(),
        buf@[off as int] == 1 ==> (get64(buf@.subrange(off as int, off + 29), 5) as i64) < i64::MAX,
    ensures
        ev == replay_event(buf@.subrange(off as int, off + 29)),
{
    let ghost rec = buf@.subrange(off as int, off + 29);
    proof {
        assert(buf@.subrange(off + 1, off + 5) =~= rec.subrange(1, 5));
        assert(buf@.subrange(off + 5, off + 13) =~= rec.subrange(5, 13));
        assert(buf@.subrange(off + 13, off + 21) =~= rec.subrange(13, 21));
        assert(buf@.subrange(off + 21, off + 29) =~= rec.subrange(21, 29));
    }
    let ev_type = buf[off];
    let symbol_id = read_u32(buf, off + 1);
    let price = read_u64(buf, off + 5) as i64;
    let qty = read_u64(buf, off + 13);
    let ts_ns = read_u64(buf, off + 21);
    if ev_type == 1 {
        MarketDataEvent::Quote {
            symbol_id,
            bid_price: price,
            bid_qty: qty,
            ask_price: price + 1,
            ask_qty: qty,
            ts_ns,
        }
    } else {
        MarketDataEvent::Trade { symbol_id, price, qty, ts_ns }
    }
}

/// Whether a recorded session can be replayed: no quote's ask overflows.
pub fn replay_fits(buf: &[u8]) -> (r: bool)
    ensures
        r == replay_ok(buf@),
{
    let len = buf.len();
    let n = len / REPLAY_RECORD_SIZE;
    let mut i: usize = 0;
    while i < n
        invariant
            len == buf@.len(),
            n == buf@.len() / 29,
            i <= n,
            forall|j: int|
                0 <= j < i ==> (#[trigger] replay_record(buf@, j))[0] == 1 ==> (get64(
                    replay_record(buf@, j),
                    5,
                ) as i64) < i64::MAX,
        decreases n - i,
    {
        proof {
            assert(i * 29 + 29 <= buf@.len()) by (nonlinear_arith)
                requires
                    i < n,
                    n == buf@.len() / 29,
            ;
            assert(i * REPLAY_RECORD_SIZE == i * 29);
        }
        let off = i * REPLAY_RECORD_SIZE;
        proof {
            let rec = replay_record(buf@, i as int);
            assert(buf@.subrange(off + 5, off + 13) =~= rec.subrange(5, 13));
            assert(rec[0] == buf@[off as int]);
        }
        if buf[off] == 1 && read_u64(buf, off + 5) as i64 == i64::MAX {
            return false;
        }
        i = i + 1;
    }
    true
}

/// Decode a recorded session into its events.
pub fn decode_replay(buf: &[u8]) -> (out: Vec<MarketDataEvent>)
    requires
        replay_ok(buf@),
    ensures
        out@ == replay_spec(buf@),
{
    let len = buf.len();
    let n = len / REPLAY_RECORD_SIZE;
    let mut out: Vec<MarketDataEvent> = Vec::new();
    let mut i: usize = 0;
    while i < n
        invariant
            len == buf@.len(),
            n == buf@.len() / 29,
            i <= n,
            replay_ok(buf@),
            out@.len() == i,
            forall|j: int| 0 <= j < i ==> out@[j] == replay_event(#[trigger] replay_record(buf@, j)),
        decreases n - i,
    {
        proof {
            assert(i * 29 + 29 <= buf@.len()) by (nonlinear_arith)
                requires
                    i < n,
                    n == buf@.len() / 29,
            ;
            assert(i * REPLAY_RECORD_SIZE == i * 29);
        }
        let off = i * REPLAY_RECORD_SIZE;
        proof {
            let rec = replay_record(buf@, i as int);
            assert(rec[0] == buf@[off as int]);
        }
        let ev = decode_record(buf, off);
        out.push(ev);
        i = i + 1;
    }
    proof {
        assert(out@ =~= replay_spec(buf@));
    }
    out
}

} // verus!
