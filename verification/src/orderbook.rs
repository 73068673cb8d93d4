//! Single-symbol limit order book with price-time priority.
//!
//! Each side of the book is a vector of price levels ordered from the worst
//! price to the best, so the best level is always last and is consumed with
//! a `pop`. A level holds a `VecDeque<RestingOrder>` for FIFO time priority
//! and the running total of its quantity. An `FxHashMap<OrderId, _>` lets
//! cancels find a resting order without scanning the book.
//!
//! The book is specified by its view: for each side, the sequence of resting
//! orders in the order in which they would trade (best price first, earliest
//! first within a price). Matching, resting and cancelling are stated as
//! functions of that view.

use std::collections::VecDeque;

use rustc_hash::{FxBuildHasher, FxHashMap};
use vstd::prelude::*;

use crate::protocol::{OrdType, Side, Tif};
use crate::{OrderId, Price, Qty, SymbolId};

verus! {

// ---------------------------------------------------------------------------
// The index map, an `FxHashMap` from `rustc-hash`
// ---------------------------------------------------------------------------
/// The hash builder of `rustc-hash`'s `FxHashMap`.
#[verifier::external_type_specification]
#[verifier::external_body]
pub struct ExFxBuildHasher(FxBuildHasher);

/// The order index: where each resting order sits.
type OrderIndex = FxHashMap<OrderId, OrderLocation>;

/// An empty `FxHashMap`, from `rustc_hash::FxHashMap::default`.
#[verifier::external_body]
fn index_new() -> (r: OrderIndex)
    ensures
        r@.dom() == Set::<OrderId>::empty(),
{
    FxHashMap::default()
}

/// Whether the map holds `k`: `HashMap::contains_key` on an `FxHashMap`.
#[verifier::external_body]
fn index_contains(m: &OrderIndex, k: OrderId) -> (r: bool)
    ensures
        r == m@.contains_key(k),
{
    m.contains_key(&k)
}

/// `HashMap::insert` on an `FxHashMap`: afterwards `k` maps to `v`.
#[verifier::external_body]
fn index_insert(m: &mut OrderIndex, k: OrderId, v: OrderLocation)
    ensures
        final(m)@ == old(m)@.insert(k, v),
{
    m.insert(k, v);
}

/// `HashMap::remove` on an `FxHashMap`: afterwards `k` is absent, and the
/// value it had, if any, is returned.
#[verifier::external_body]
fn index_remove(m: &mut OrderIndex, k: OrderId) -> (r: Option<OrderLocation>)
    ensures
        final(m)@ == old(m)@.remove(k),
        r == (if old(m)@.contains_key(k) {
            Some(old(m)@[k])
        } else {
            None
        }),
{
    m.remove(&k)
}

/// `HashMap::len` on an `FxHashMap`: the number of keys.
#[verifier::external_body]
fn index_len(m: &OrderIndex) -> (r: usize)
    ensures
        r == m@.len(),
{
    m.len()
}

// ---------------------------------------------------------------------------
// Types
// ---------------------------------------------------------------------------
#[derive(Debug, Clone, Copy)]
pub struct RestingOrder {
    pub order_id: OrderId,
    pub client_id: u64,
    pub side: Side,
    pub price: Price,
    pub qty_remaining: Qty,
}

#[derive(Debug)]
pub struct PriceLevel {
    pub total_qty: Qty,
    pub queue: VecDeque<RestingOrder>,
}

#[derive(Debug, Clone, Copy)]
struct OrderLocation {
    side: Side,
    price: Price,
}

#[derive(Debug, Clone, Copy)]
pub struct Fill {
    pub maker_order_id: OrderId,
    pub taker_order_id: OrderId,
    pub maker_client_id: u64,
    pub taker_client_id: u64,
    pub price: Price,
    pub qty: Qty,
}

#[derive(Debug, Clone, Copy, PartialEq, Eq, Structural)]
pub enum SubmitOutcome {
    /// Order fully filled by matching.
    FullyFilled,
    /// Order partially filled, the remainder did not rest (IOC, FOK, market).
    PartialAndDone { filled_qty: Qty },
    /// No fills happened at all.
    NoFill,
    /// Order rests on the book (limit + day), possibly after a partial fill.
    Resting { resting_qty: Qty, filled_qty: Qty, crossed: bool },
    /// Order rejected before any state change (zero qty, duplicate id, FOK
    /// without liquidity).
    Rejected,
}

#[derive(Debug)]
pub struct OrderBook {
    pub symbol_id: SymbolId,
    /// Bid levels by ascending price: the best (highest) bid is last.
    bids: Vec<(Price, PriceLevel)>,
    /// Ask levels by descending price: the best (lowest) ask is last.
    asks: Vec<(Price, PriceLevel)>,
    orders: OrderIndex,
}

/// The abstract state of a book: each side's resting orders in the order in
/// which they trade.
#[verifier::ext_equal]
pub struct BookView {
    pub bids: Seq<RestingOrder>,
    pub asks: Seq<RestingOrder>,
}

impl BookView {
    pub open spec fn side(self, s: Side) -> Seq<RestingOrder> {
        match s {
            Side::Buy => self.bids,
            Side::Sell => self.asks,
        }
    }

    pub open spec fn with_side(self, s: Side, orders: Seq<RestingOrder>) -> BookView {
        match s {
            Side::Buy => BookView { bids: orders, asks: self.asks },
            Side::Sell => BookView { bids: self.bids, asks: orders },
        }
    }

    /// Every resting order, bids first.
    pub open spec fn all(self) -> Seq<RestingOrder> {
        self.bids + self.asks
    }

    pub open spec fn contains_id(self, id: OrderId) -> bool {
        exists|i: int| 0 <= i < self.all().len() && #[trigger] self.all()[i].order_id == id
    }
}

// ---------------------------------------------------------------------------
// Specification of prices and matching
// ---------------------------------------------------------------------------
/// Whether price `p` is strictly better than `q` for a resting order on
/// side `s`: higher for bids, lower for asks.
pub open spec fn better(s: Side, p: Price, q: Price) -> bool {
    match s {
        Side::Buy => p > q,
        Side::Sell => p < q,
    }
}

/// Whether a taker on side `taker` with this type and limit accepts a
/// resting price.
pub open spec fn acceptable(taker: Side, ord_type: OrdType, limit: Price, price: Price) -> bool {
    match ord_type {
        OrdType::Market => true,
        OrdType::Limit => match taker {
            Side::Buy => price <= limit,
            Side::Sell => price >= limit,
        },
    }
}

/// Total quantity of a sequence of orders.
pub open spec fn qty_sum(s: Seq<RestingOrder>) -> int
    decreases s.len(),
{
    if s.len() == 0 {
        0
    } else {
        s[0].qty_remaining + qty_sum(s.drop_first())
    }
}

/// Quantity a taker could trade against `opp` (the opposite side in trading
/// order): the total of the leading orders whose price it accepts.
pub open spec fn available(opp: Seq<RestingOrder>, taker: Side, ord_type: OrdType, limit: Price) -> int
    decreases opp.len(),
{
    if opp.len() == 0 || !acceptable(taker, ord_type, limit, opp[0].price) {
        0
    } else {
        opp[0].qty_remaining + available(opp.drop_first(), taker, ord_type, limit)
    }
}

/// The fill of `qty` between maker `m` and a taker.
pub open spec fn fill_of(m: RestingOrder, taker_id: OrderId, taker_client: u64, qty: Qty) -> Fill {
    Fill {
        maker_order_id: m.order_id,
        taker_order_id: taker_id,
        maker_client_id: m.client_id,
        taker_client_id: taker_client,
        price: m.price,
        qty,
    }
}

/// Matching a taker against the opposite side `opp` (in trading order) with
/// `remaining` quantity left: the fills in the order they happen, what is
/// left of the opposite side, and the taker's quantity left over. The taker
/// trades with the first order as long as it has quantity left and accepts
/// that order's price; each trade is for the smaller of the two quantities.
pub open spec fn match_spec(
    opp: Seq<RestingOrder>,
    taker_id: OrderId,
    taker_client: u64,
    taker: Side,
    ord_type: OrdType,
    limit: Price,
    remaining: Qty,
) -> (Seq<Fill>, Seq<RestingOrder>, Qty)
    decreases opp.len(),
{
    if remaining == 0 || opp.len() == 0 || !acceptable(taker, ord_type, limit, opp[0].price) {
        (Seq::empty(), opp, remaining)
    } else {
        let m = opp[0];
        if remaining < m.qty_remaining {
            (
                seq![fill_of(m, taker_id, taker_client, remaining)],
                opp.update(0, RestingOrder { qty_remaining: (m.qty_remaining - remaining) as u64, ..m }),
                0,
            )
        } else {
            let rest = match_spec(
                opp.drop_first(),
                taker_id,
                taker_client,
                taker,
                ord_type,
                limit,
                (remaining - m.qty_remaining) as u64,
            );
            (seq![fill_of(m, taker_id, taker_client, m.qty_remaining)] + rest.0, rest.1, rest.2)
        }
    }
}

/// A side of the book after order `o` joins it: behind every order whose
/// price is at least as good, ahead of every worse one.
pub open spec fn rest_spec(own: Seq<RestingOrder>, o: RestingOrder) -> Seq<RestingOrder>
    decreases own.len(),
{
    if own.len() == 0 {
        seq![o]
    } else if better(o.side, o.price, own[0].price) {
        seq![o] + own
    } else {
        seq![own[0]] + rest_spec(own.drop_first(), o)
    }
}

/// Quantity resting at `price` on a side.
pub open spec fn qty_at(s: Seq<RestingOrder>, price: Price) -> int
    decreases s.len(),
{
    if s.len() == 0 {
        0
    } else {
        (if s[0].price == price {
            s[0].qty_remaining as int
        } else {
            0
        }) + qty_at(s.drop_first(), price)
    }
}

/// Number of distinct prices on a side whose equal prices are adjacent.
pub open spec fn level_count(s: Seq<RestingOrder>) -> nat
    decreases s.len(),
{
    if s.len() == 0 {
        0
    } else if s.len() >= 2 && s[0].price == s[1].price {
        level_count(s.drop_first())
    } else {
        1 + level_count(s.drop_first())
    }
}

// ---------------------------------------------------------------------------
// Representation invariant
// ---------------------------------------------------------------------------
pub open spec fn order_ok(o: RestingOrder, s: Side, price: Price) -> bool {
    &&& o.side == s
    &&& o.price == price
    &&& o.qty_remaining > 0
}

pub open spec fn level_ok(l: (Price, PriceLevel), s: Side) -> bool {
    &&& l.1.queue@.len() > 0
    &&& l.1.total_qty == qty_sum(l.1.queue@)
    &&& forall|k: int| 0 <= k < l.1.queue@.len() ==> #[trigger] order_ok(l.1.queue@[k], s, l.0)
}

/// Levels of side `s`, worst first, each well formed and all at distinct
/// prices.
pub open spec fn levels_ok(levels: Seq<(Price, PriceLevel)>, s: Side) -> bool {
    &&& forall|i: int| 0 <= i < levels.len() ==> #[trigger] level_ok(levels[i], s)
    &&& forall|i: int, j: int| 0 <= i < j < levels.len() ==> better(s, levels[j].0, levels[i].0)
}

/// The orders of a side in trading order: best level first.
pub open spec fn flat(levels: Seq<(Price, PriceLevel)>) -> Seq<RestingOrder>
    decreases levels.len(),
{
    if levels.len() == 0 {
        Seq::empty()
    } else {
        levels.last().1.queue@ + flat(levels.drop_last())
    }
}

pub open spec fn ids(s: Seq<RestingOrder>) -> Seq<OrderId> {
    s.map_values(|o: RestingOrder| o.order_id)
}

spec fn location(o: RestingOrder) -> OrderLocation {
    OrderLocation { side: o.side, price: o.price }
}

/// The index holds exactly the resting orders, each under its own id, and
/// no id rests twice.
spec fn index_ok(index: Map<OrderId, OrderLocation>, all: Seq<RestingOrder>) -> bool {
    &&& ids(all).no_duplicates()
    &&& index.dom() == ids(all).to_set()
    &&& forall|i: int| 0 <= i < all.len() ==> #[trigger] index[all[i].order_id] == location(all[i])
}

impl OrderBook {
    spec fn levels_of(&self, s: Side) -> Seq<(Price, PriceLevel)> {
        match s {
            Side::Buy => self.bids@,
            Side::Sell => self.asks@,
        }
    }

    pub closed spec fn view(&self) -> BookView {
        BookView { bids: flat(self.bids@), asks: flat(self.asks@) }
    }

    /// The instrument this book is for.
    pub closed spec fn symbol(&self) -> SymbolId {
        self.symbol_id
    }

    /// The book's representation invariant.
    pub closed spec fn wf(&self) -> bool {
        &&& levels_ok(self.bids@, Side::Buy)
        &&& levels_ok(self.asks@, Side::Sell)
        &&& index_ok(self.orders@, self.view().all())
    }
}

// ---------------------------------------------------------------------------
// Lemmas about the representation
// ---------------------------------------------------------------------------
proof fn lemma_flat_push(levels: Seq<(Price, PriceLevel)>, l: (Price, PriceLevel))
    ensures
        flat(levels.push(l)) == l.1.queue@ + flat(levels),
{
    assert(levels.push(l).drop_last() =~= levels);
}

proof fn lemma_flat_split(levels: Seq<(Price, PriceLevel)>, j: int)
    requires
        0 <= j < levels.len(),
    ensures
        flat(levels) == flat(levels.subrange(j + 1, levels.len() as int)) + levels[j].1.queue@
            + flat(levels.subrange(0, j)),
    decreases levels.len(),
{
    let n = levels.len() as int;
    if j == n - 1 {
        assert(levels.subrange(j + 1, n) =~= Seq::<(Price, PriceLevel)>::empty());
        assert(levels.subrange(0, j) =~= levels.drop_last());
        assert(flat(levels.subrange(j + 1, n)) =~= Seq::<RestingOrder>::empty());
        assert(flat(levels) =~= flat(levels.subrange(j + 1, n)) + levels[j].1.queue@ + flat(
            levels.subrange(0, j),
        ));
    } else {
        let d = levels.drop_last();
        lemma_flat_split(d, j);
        assert(d.subrange(0, j) =~= levels.subrange(0, j));
        let up = levels.subrange(j + 1, n);
        assert(up.drop_last() =~= d.subrange(j + 1, n - 1));
        assert(up.last() == levels.last());
        assert(flat(up) == up.last().1.queue@ + flat(up.drop_last()));
        assert(flat(levels) =~= flat(up) + levels[j].1.queue@ + flat(levels.subrange(0, j)));
    }
}

/// A property every queued order has holds of every order of the side.
proof fn lemma_flat_forall(levels: Seq<(Price, PriceLevel)>, p: spec_fn(RestingOrder) -> bool)
    requires
        forall|i: int, k: int|
            0 <= i < levels.len() && 0 <= k < levels[i].1.queue@.len() ==> p(
                #[trigger] levels[i].1.queue@[k],
            ),
    ensures
        forall|x: int| 0 <= x < flat(levels).len() ==> p(#[trigger] flat(levels)[x]),
    decreases levels.len(),
{
    if levels.len() > 0 {
        let d = levels.drop_last();
        assert forall|i: int, k: int|
            0 <= i < d.len() && 0 <= k < d[i].1.queue@.len() implies p(
                #[trigger] d[i].1.queue@[k],
            ) by {
            assert(d[i] == levels[i]);
        }
        lemma_flat_forall(d, p);
        let q = levels.last().1.queue@;
        assert forall|x: int| 0 <= x < flat(levels).len() implies p(#[trigger] flat(levels)[x]) by {
            if x < q.len() {
                assert(flat(levels)[x] == levels[levels.len() - 1].1.queue@[x]);
            } else {
                assert(flat(levels)[x] == flat(d)[x - q.len()]);
            }
        }
    }
}

proof fn lemma_qty_sum_push(q: Seq<RestingOrder>, o: RestingOrder)
    ensures
        qty_sum(q.push(o)) == qty_sum(q) + o.qty_remaining,
    decreases q.len(),
{
    if q.len() == 0 {
        assert(q.push(o).drop_first() =~= Seq::<RestingOrder>::empty());
        assert(qty_sum(q.push(o).drop_first()) == 0);
    } else {
        lemma_qty_sum_push(q.drop_first(), o);
        assert(q.push(o).drop_first() =~= q.drop_first().push(o));
        assert(q.push(o)[0] == q[0]);
    }
}

proof fn lemma_qty_sum_remove(q: Seq<RestingOrder>, i: int)
    requires
        0 <= i < q.len(),
    ensures
        qty_sum(q.remove(i)) == qty_sum(q) - q[i].qty_remaining,
    decreases q.len(),
{
    if i == 0 {
        assert(q.remove(0) =~= q.drop_first());
    } else {
        lemma_qty_sum_remove(q.drop_first(), i - 1);
        assert(q.remove(i).drop_first() =~= q.drop_first().remove(i - 1));
    }
}

proof fn lemma_qty_sum_cons(o: RestingOrder, q: Seq<RestingOrder>)
    ensures
        qty_sum(seq![o] + q) == o.qty_remaining + qty_sum(q),
{
    assert((seq![o] + q).drop_first() =~= q);
}

proof fn lemma_qty_sum_nonneg(q: Seq<RestingOrder>)
    ensures
        qty_sum(q) >= 0,
        q.len() > 0 ==> qty_sum(q) >= q[0].qty_remaining,
    decreases q.len(),
{
    if q.len() > 0 {
        lemma_qty_sum_nonneg(q.drop_first());
    }
}

/// Removing the order at `i` from the book and its id from the index keeps
/// the index exact.
proof fn lemma_index_remove(m: Map<OrderId, OrderLocation>, s: Seq<RestingOrder>, i: int)
    requires
        index_ok(m, s),
        0 <= i < s.len(),
    ensures
        index_ok(m.remove(s[i].order_id), s.remove(i)),
{
    let k = s[i].order_id;
    let t = s.remove(i);
    assert(ids(t) =~= ids(s).remove(i));
    assert forall|a: int, b: int| 0 <= a < b < ids(t).len() implies ids(t)[a] != ids(t)[b] by {
        let a2 = if a < i { a } else { a + 1 };
        let b2 = if b < i { b } else { b + 1 };
        assert(ids(t)[a] == ids(s)[a2]);
        assert(ids(t)[b] == ids(s)[b2]);
    }
    assert forall|x: OrderId| #[trigger] ids(t).to_set().contains(x) == m.remove(k).dom().contains(x) by {
        if ids(t).to_set().contains(x) {
            let a = choose|a: int| 0 <= a < ids(t).len() && ids(t)[a] == x;
            let a2 = if a < i { a } else { a + 1 };
            assert(ids(s)[a2] == x);
            assert(ids(s).contains(x));
            assert(a2 != i);
            assert(ids(s)[i] == k);
        }
        if m.remove(k).dom().contains(x) {
            assert(ids(s).to_set().contains(x));
            let a = choose|a: int| 0 <= a < ids(s).len() && ids(s)[a] == x;
            assert(a != i);
            let a3 = if a < i { a } else { a - 1 };
            assert(ids(t)[a3] == x);
            assert(ids(t).contains(x));
        }
    }
    assert(ids(t).to_set() =~= m.remove(k).dom());
    assert forall|a: int| 0 <= a < t.len() implies #[trigger] m.remove(k)[t[a].order_id] == location(t[a]) by {
        let a2 = if a < i { a } else { a + 1 };
        assert(t[a] == s[a2]);
        assert(ids(s)[a2] != ids(s)[i]);
    }
}

/// Replacing an order by one with the same id, side and price keeps the
/// index exact.
proof fn lemma_index_update(m: Map<OrderId, OrderLocation>, s: Seq<RestingOrder>, i: int, o: RestingOrder)
    requires
        index_ok(m, s),
        0 <= i < s.len(),
        o.order_id == s[i].order_id,
        o.side == s[i].side,
        o.price == s[i].price,
    ensures
        index_ok(m, s.update(i, o)),
{
    let t = s.update(i, o);
    assert(ids(t) =~= ids(s));
    assert forall|a: int| 0 <= a < t.len() implies #[trigger] m[t[a].order_id] == location(t[a]) by {
        if a != i {
            assert(t[a] == s[a]);
        }
    }
}

/// Adding an order whose id is not resting, and its location to the index,
/// keeps the index exact.
proof fn lemma_index_insert(m: Map<OrderId, OrderLocation>, s: Seq<RestingOrder>, i: int, o: RestingOrder)
    requires
        index_ok(m, s),
        0 <= i <= s.len(),
        !m.contains_key(o.order_id),
    ensures
        index_ok(m.insert(o.order_id, location(o)), s.insert(i, o)),
{
    let t = s.insert(i, o);
    assert(ids(t) =~= ids(s).insert(i, o.order_id));
    assert(!ids(s).contains(o.order_id)) by {
        if ids(s).contains(o.order_id) {
            assert(ids(s).to_set().contains(o.order_id));
        }
    }
    assert forall|a: int, b: int| 0 <= a < b < ids(t).len() implies ids(t)[a] != ids(t)[b] by {
        if a == i {
            let b2 = b - 1;
            assert(ids(t)[b] == ids(s)[b2]);
        } else if b == i {
            assert(ids(t)[a] == ids(s)[a]);
        } else {
            let a2 = if a < i { a } else { a - 1 };
            let b2 = if b < i { b } else { b - 1 };
            assert(ids(t)[a] == ids(s)[a2]);
            assert(ids(t)[b] == ids(s)[b2]);
        }
    }
    let m2 = m.insert(o.order_id, location(o));
    assert forall|x: OrderId| #[trigger] ids(t).to_set().contains(x) == m2.dom().contains(x) by {
        if ids(t).to_set().contains(x) {
            let a = choose|a: int| 0 <= a < ids(t).len() && ids(t)[a] == x;
            if a != i {
                let a2 = if a < i { a } else { a - 1 };
                assert(ids(s)[a2] == x);
                assert(ids(s).contains(x));
            }
        }
        if m2.dom().contains(x) {
            if x == o.order_id {
                assert(ids(t)[i] == x);
            } else {
                assert(ids(s).to_set().contains(x));
                let a = choose|a: int| 0 <= a < ids(s).len() && ids(s)[a] == x;
                let a2 = if a < i { a } else { a + 1 };
                assert(ids(t)[a2] == x);
            }
            assert(ids(t).contains(x));
        }
    }
    assert(ids(t).to_set() =~= m2.dom());
    assert forall|a: int| 0 <= a < t.len() implies #[trigger] m2[t[a].order_id] == location(t[a]) by {
        if a != i {
            let a2 = if a < i { a } else { a - 1 };
            assert(t[a] == s[a2]);
            assert(ids(s)[a2] == s[a2].order_id);
            assert(ids(s).contains(s[a2].order_id));
        }
    }
}

proof fn lemma_levels_drop_last(levels: Seq<(Price, PriceLevel)>, s: Side)
    requires
        levels_ok(levels, s),
        levels.len() > 0,
    ensures
        levels_ok(levels.drop_last(), s),
{
    let d = levels.drop_last();
    assert forall|i: int| 0 <= i < d.len() implies #[trigger] level_ok(d[i], s) by {
        assert(d[i] == levels[i]);
    }
}

proof fn lemma_levels_replace_last(levels: Seq<(Price, PriceLevel)>, l: (Price, PriceLevel), s: Side)
    requires
        levels_ok(levels, s),
        levels.len() > 0,
        l.0 == levels.last().0,
        level_ok(l, s),
    ensures
        levels_ok(levels.drop_last().push(l), s),
{
    let t = levels.drop_last().push(l);
    assert forall|i: int| 0 <= i < t.len() implies #[trigger] level_ok(t[i], s) by {
        if i < levels.len() - 1 {
            assert(t[i] == levels[i]);
        }
    }
    assert forall|i: int, j: int| 0 <= i < j < t.len() implies better(s, t[j].0, t[i].0) by {
        assert(t[i].0 == levels[i].0);
        assert(t[j].0 == levels[j].0);
    }
}

/// Whether `key`, a resting price on the side opposite `taker`, is one the
/// taker accepts.
fn accepts(taker: Side, ord_type: OrdType, limit: Price, key: Price) -> (r: bool)
    ensures
        r == acceptable(taker, ord_type, limit, key),
{
    match ord_type {
        OrdType::Market => true,
        OrdType::Limit => match taker {
            Side::Buy => key <= limit,
            Side::Sell => key >= limit,
        },
    }
}

/// Match a taker against the levels of one side, best level first, as
/// `match_spec` describes. The index stays exact for the whole book, whose
/// orders are `pre`, then this side, then `post`.
#[verifier::rlimit(40)]
fn match_levels(
    levels: &mut Vec<(Price, PriceLevel)>,
    index: &mut OrderIndex,
    Ghost(pre): Ghost<Seq<RestingOrder>>,
    Ghost(post): Ghost<Seq<RestingOrder>>,
    maker_side: Side,
    taker_id: OrderId,
    taker_client: u64,
    taker_side: Side,
    ord_type: OrdType,
    limit_price: Price,
    remaining: &mut Qty,
    fills: &mut Vec<Fill>,
) -> (any_filled: bool)
    requires
        levels_ok(old(levels)@, maker_side),
        index_ok(old(index)@, pre + flat(old(levels)@) + post),
    ensures
        levels_ok(final(levels)@, maker_side),
        index_ok(final(index)@, pre + flat(final(levels)@) + post),
        ({
            let r = match_spec(
                flat(old(levels)@),
                taker_id,
                taker_client,
                taker_side,
                ord_type,
                limit_price,
                *old(remaining),
            );
            &&& final(fills)@ == old(fills)@ + r.0
            &&& flat(final(levels)@) == r.1
            &&& *final(remaining) == r.2
        }),
        any_filled == (final(fills)@.len() > old(fills)@.len()),
        forall|k: OrderId| !old(index)@.contains_key(k) ==> !final(index)@.contains_key(k),
{
    let ghost idx0 = index@;
    let ghost goal = match_spec(
        flat(levels@),
        taker_id,
        taker_client,
        taker_side,
        ord_type,
        limit_price,
        *remaining,
    );
    let ghost fills0 = fills@;
    let mut any_filled = false;
    loop
        invariant
            levels_ok(levels@, maker_side),
            index_ok(index@, pre + flat(levels@) + post),
            forall|k: OrderId| !idx0.contains_key(k) ==> !index@.contains_key(k),
            fills@.len() >= fills0.len(),
            fills@.subrange(0, fills0.len() as int) == fills0,
            any_filled == (fills@.len() > fills0.len()),
            ({
                let t = match_spec(
                    flat(levels@),
                    taker_id,
                    taker_client,
                    taker_side,
                    ord_type,
                    limit_price,
                    *remaining,
                );
                &&& goal.0 == fills@.subrange(fills0.len() as int, fills@.len() as int) + t.0
                &&& goal.1 == t.1
                &&& goal.2 == t.2
            }),
        ensures
            levels_ok(levels@, maker_side),
            index_ok(index@, pre + flat(levels@) + post),
            forall|k: OrderId| !idx0.contains_key(k) ==> !index@.contains_key(k),
            fills@.len() >= fills0.len(),
            fills@.subrange(0, fills0.len() as int) == fills0,
            any_filled == (fills@.len() > fills0.len()),
            goal.0 == fills@.subrange(fills0.len() as int, fills@.len() as int),
            goal.1 == flat(levels@),
            goal.2 == *remaining,
        decreases flat(levels@).len() + (if *remaining > 0 {
            1int
        } else {
            0int
        }),
    {
        let ghost lv = levels@;
        let ghost f = flat(lv);
        let ghost rem = *remaining;
        if *remaining == 0 {
            break;
        }
        let n = levels.len();
        if n == 0 {
            break;
        }
        let key = levels[n - 1].0;
        proof {
            assert(level_ok(lv[n - 1], maker_side));
            assert(f == lv[n - 1].1.queue@ + flat(lv.drop_last()));
            assert(order_ok(lv[n - 1].1.queue@[0], maker_side, key));
            assert(f[0] == lv[n - 1].1.queue@[0]);
        }
        if !accepts(taker_side, ord_type, limit_price, key) {
            break;
        }
        let (key, mut level) = levels.pop().unwrap();
        let ghost q = level.queue@;
        proof {
            assert(levels@ == lv.drop_last());
            lemma_qty_sum_nonneg(q.drop_first());
        }
        let maker = level.queue.pop_front().unwrap();
        let trade = if *remaining < maker.qty_remaining {
            *remaining
        } else {
            maker.qty_remaining
        };
        fills.push(
            Fill {
                maker_order_id: maker.order_id,
                taker_order_id: taker_id,
                maker_client_id: maker.client_id,
                taker_client_id: taker_client,
                price: maker.price,
                qty: trade,
            },
        );
        any_filled = true;
        *remaining = *remaining - trade;
        level.total_qty = level.total_qty - trade;
        let ghost pos = pre.len() as int;
        proof {
            assert(level.queue@ == q.drop_first());
            assert(fills@.subrange(0, fills0.len() as int) =~= fills0);
        }
        let ghost all = pre + f + post;
        proof {
            assert(all[pos] == maker);
            assert(f.drop_first() =~= q.drop_first() + flat(lv.drop_last()));
            lemma_levels_drop_last(lv, maker_side);
        }
        if trade == maker.qty_remaining {
            let ghost idx = index@;
            index_remove(index, maker.order_id);
            proof {
                lemma_index_remove(idx, all, pos);
                assert(all.remove(pos) =~= pre + f.drop_first() + post);
            }
        } else {
            let ghost q1 = level.queue@;
            let m2 = RestingOrder { qty_remaining: maker.qty_remaining - trade, ..maker };
            level.queue.push_front(m2);
            proof {
                lemma_index_update(index@, all, pos, m2);
                assert(all.update(pos, m2) =~= pre + f.update(0, m2) + post);
                lemma_qty_sum_cons(m2, q1);
                assert(level.queue@ =~= seq![m2] + q1);
                assert(f.update(0, m2) =~= level.queue@ + flat(lv.drop_last()));
            }
        }
        proof {
            assert forall|k: int| 0 <= k < level.queue@.len() implies #[trigger] order_ok(
                level.queue@[k],
                maker_side,
                key,
            ) by {
                if trade == maker.qty_remaining {
                    assert(level.queue@[k] == q[k + 1]);
                } else if k > 0 {
                    assert(level.queue@[k] == q[k]);
                }
            }
        }
        if level.queue.len() > 0 {
            let ghost dl = levels@;
            levels.push((key, level));
            proof {
                lemma_flat_push(dl, (key, level));
                lemma_levels_replace_last(lv, (key, level), maker_side);
                assert(levels@ == lv.drop_last().push((key, level)));
            }
        } else {
            proof {
                assert(q.drop_first() =~= Seq::<RestingOrder>::empty());
                assert(f.drop_first() =~= flat(lv.drop_last()));
            }
        }
    }
    any_filled
}

proof fn lemma_available_concat(
    q: Seq<RestingOrder>,
    b: Seq<RestingOrder>,
    taker: Side,
    ord_type: OrdType,
    limit: Price,
)
    requires
        forall|k: int| 0 <= k < q.len() ==> acceptable(taker, ord_type, limit, #[trigger] q[k].price),
    ensures
        available(q + b, taker, ord_type, limit) == qty_sum(q) + available(b, taker, ord_type, limit),
    decreases q.len(),
{
    if q.len() == 0 {
        assert(q + b =~= b);
    } else {
        lemma_available_concat(q.drop_first(), b, taker, ord_type, limit);
        assert((q + b).drop_first() =~= q.drop_first() + b);
        assert((q + b)[0] == q[0]);
    }
}

proof fn lemma_flat_prefix_step(levels: Seq<(Price, PriceLevel)>, i: int)
    requires
        0 < i <= levels.len(),
    ensures
        flat(levels.subrange(0, i)) == levels[i - 1].1.queue@ + flat(levels.subrange(0, i - 1)),
{
    let sub = levels.subrange(0, i);
    assert(sub.drop_last() =~= levels.subrange(0, i - 1));
    assert(sub.last() == levels[i - 1]);
}

/// How much of `qty` a taker could trade against these levels: the smaller
/// of `qty` and the liquidity it accepts. Walks the side without changing
/// it; the fill-or-kill pre-check compares the result with `qty`.
fn fillable_qty(
    levels: &Vec<(Price, PriceLevel)>,
    maker_side: Side,
    taker_side: Side,
    ord_type: OrdType,
    limit_price: Price,
    qty: Qty,
) -> (r: Qty)
    requires
        levels_ok(levels@, maker_side),
        qty > 0,
    ensures
        r <= qty,
        r == qty <==> available(flat(levels@), taker_side, ord_type, limit_price) >= qty,
        r < qty ==> r == available(flat(levels@), taker_side, ord_type, limit_price),
{
    let mut needed = qty;
    let mut i = levels.len();
    proof {
        assert(levels@.subrange(0, i as int) =~= levels@);
    }
    while i > 0
        invariant
            0 <= i <= levels@.len(),
            levels_ok(levels@, maker_side),
            0 < needed <= qty,
            available(flat(levels@), taker_side, ord_type, limit_price) == (qty - needed)
                + available(flat(levels@.subrange(0, i as int)), taker_side, ord_type, limit_price),
        decreases i,
    {
        let ghost lv = levels@;
        let key = levels[i - 1].0;
        let total = levels[i - 1].1.total_qty;
        proof {
            lemma_flat_prefix_step(lv, i as int);
            assert(level_ok(lv[i - 1], maker_side));
            let q = lv[i - 1].1.queue@;
            assert(order_ok(q[0], maker_side, key));
            assert((q + flat(lv.subrange(0, i - 1)))[0] == q[0]);
        }
        if !accepts(taker_side, ord_type, limit_price, key) {
            return qty - needed;
        }
        proof {
            let q = lv[i - 1].1.queue@;
            assert forall|k: int| 0 <= k < q.len() implies acceptable(
                taker_side,
                ord_type,
                limit_price,
                #[trigger] q[k].price,
            ) by {
                assert(order_ok(q[k], maker_side, key));
            }
            lemma_available_concat(q, flat(lv.subrange(0, i - 1)), taker_side, ord_type, limit_price);
            lemma_available_nonneg(flat(lv.subrange(0, i - 1)), taker_side, ord_type, limit_price);
        }
        if total >= needed {
            return qty;
        }
        needed = needed - total;
        i = i - 1;
    }
    proof {
        assert(levels@.subrange(0, 0) =~= Seq::<(Price, PriceLevel)>::empty());
    }
    qty - needed
}

/// Quantity resting at `price` on these levels: the total of the level at
/// that price, or zero when there is none.
fn level_qty_at(levels: &Vec<(Price, PriceLevel)>, side: Side, price: Price) -> (r: Qty)
    requires
        levels_ok(levels@, side),
    ensures
        r == qty_at(flat(levels@), price),
{
    let mut i = levels.len();
    proof {
        assert(levels@.subrange(0, i as int) =~= levels@);
    }
    while i > 0
        invariant
            0 <= i <= levels@.len(),
            levels_ok(levels@, side),
            qty_at(flat(levels@), price) == qty_at(flat(levels@.subrange(0, i as int)), price),
        decreases i,
    {
        let ghost lv = levels@;
        let key = levels[i - 1].0;
        proof {
            lemma_flat_prefix_step(lv, i as int);
            assert(level_ok(lv[i - 1], side));
            lemma_qty_at_concat(lv[i - 1].1.queue@, flat(lv.subrange(0, i - 1)), price);
        }
        if key == price {
            proof {
                let q = lv[i - 1].1.queue@;
                assert forall|k: int| 0 <= k < q.len() implies (#[trigger] q[k]).price == price by {
                    assert(order_ok(q[k], side, key));
                }
                lemma_qty_at_level(q, price);
                let below = lv.subrange(0, i - 1);
                assert forall|a: int, k: int|
                    0 <= a < below.len() && 0 <= k < below[a].1.queue@.len() implies (
                    #[trigger] below[a].1.queue@[k]).price != price by {
                    assert(below[a] == lv[a]);
                    assert(level_ok(lv[a], side));
                    assert(order_ok(lv[a].1.queue@[k], side, lv[a].0));
                    assert(better(side, lv[i - 1].0, lv[a].0));
                }
                lemma_flat_forall(below, |o: RestingOrder| o.price != price);
                lemma_qty_at_absent(flat(below), price);
            }
            return levels[i - 1].1.total_qty;
        }
        proof {
            let q = lv[i - 1].1.queue@;
            assert forall|k: int| 0 <= k < q.len() implies (#[trigger] q[k]).price != price by {
                assert(order_ok(q[k], side, key));
            }
            lemma_qty_at_absent(q, price);
        }
        i = i - 1;
    }
    proof {
        assert(levels@.subrange(0, 0) =~= Seq::<(Price, PriceLevel)>::empty());
    }
    0
}

proof fn lemma_qty_at_absent(s: Seq<RestingOrder>, price: Price)
    requires
        forall|k: int| 0 <= k < s.len() ==> (#[trigger] s[k]).price != price,
    ensures
        qty_at(s, price) == 0,
    decreases s.len(),
{
    if s.len() > 0 {
        assert(s[0].price != price);
        lemma_qty_at_absent(s.drop_first(), price);
    }
}

/// What a match leaves the taker: nothing when the accepted liquidity
/// covers it, otherwise the shortfall.
proof fn lemma_match_left(
    opp: Seq<RestingOrder>,
    taker_id: OrderId,
    taker_client: u64,
    taker: Side,
    ord_type: OrdType,
    limit: Price,
    remaining: Qty,
)
    requires
        forall|k: int| 0 <= k < opp.len() ==> (#[trigger] opp[k]).qty_remaining > 0,
    ensures
        match_spec(opp, taker_id, taker_client, taker, ord_type, limit, remaining).2 == (if available(
            opp,
            taker,
            ord_type,
            limit,
        ) >= remaining {
            0
        } else {
            remaining - available(opp, taker, ord_type, limit)
        }),
    decreases opp.len(),
{
    lemma_available_nonneg(opp, taker, ord_type, limit);
    if remaining == 0 || opp.len() == 0 || !acceptable(taker, ord_type, limit, opp[0].price) {
    } else if remaining < opp[0].qty_remaining {
        lemma_available_nonneg(opp.drop_first(), taker, ord_type, limit);
    } else {
        assert(opp[0].qty_remaining > 0);
        lemma_match_left(
            opp.drop_first(),
            taker_id,
            taker_client,
            taker,
            ord_type,
            limit,
            (remaining - opp[0].qty_remaining) as u64,
        );
    }
}

proof fn lemma_available_nonneg(s: Seq<RestingOrder>, taker: Side, ord_type: OrdType, limit: Price)
    ensures
        available(s, taker, ord_type, limit) >= 0,
    decreases s.len(),
{
    if s.len() > 0 {
        lemma_available_nonneg(s.drop_first(), taker, ord_type, limit);
    }
}

/// Position at which `rest_spec` places `o`.
pub open spec fn rest_pos(own: Seq<RestingOrder>, o: RestingOrder) -> int
    decreases own.len(),
{
    if own.len() == 0 {
        0
    } else if better(o.side, o.price, own[0].price) {
        0
    } else {
        1 + rest_pos(own.drop_first(), o)
    }
}

proof fn lemma_rest_spec_insert(own: Seq<RestingOrder>, o: RestingOrder)
    ensures
        0 <= rest_pos(own, o) <= own.len(),
        rest_spec(own, o) == own.insert(rest_pos(own, o), o),
    decreases own.len(),
{
    if own.len() == 0 {
        assert(own.insert(0, o) =~= seq![o]);
    } else if better(o.side, o.price, own[0].price) {
        assert(own.insert(0, o) =~= seq![o] + own);
    } else {
        lemma_rest_spec_insert(own.drop_first(), o);
        let p = rest_pos(own.drop_first(), o);
        assert(seq![own[0]] + own.drop_first().insert(p, o) =~= own.insert(p + 1, o));
    }
}

proof fn lemma_rest_spec_concat(x: Seq<RestingOrder>, y: Seq<RestingOrder>, o: RestingOrder)
    requires
        forall|k: int| 0 <= k < x.len() ==> !better(o.side, o.price, #[trigger] x[k].price),
        y.len() == 0 || better(o.side, o.price, y[0].price),
    ensures
        rest_spec(x + y, o) == x + seq![o] + y,
    decreases x.len(),
{
    if x.len() == 0 {
        assert(x + y =~= y);
        if y.len() == 0 {
            assert(x + seq![o] + y =~= seq![o]);
        } else {
            assert(x + seq![o] + y =~= seq![o] + y);
        }
    } else {
        lemma_rest_spec_concat(x.drop_first(), y, o);
        assert((x + y).drop_first() =~= x.drop_first() + y);
        assert((x + y)[0] == x[0]);
        assert(x + seq![o] + y =~= seq![x[0]] + (x.drop_first() + seq![o] + y));
    }
}

proof fn lemma_qty_at_concat(a: Seq<RestingOrder>, b: Seq<RestingOrder>, p: Price)
    ensures
        qty_at(a + b, p) == qty_at(a, p) + qty_at(b, p),
    decreases a.len(),
{
    if a.len() == 0 {
        assert(a + b =~= b);
    } else {
        lemma_qty_at_concat(a.drop_first(), b, p);
        assert((a + b).drop_first() =~= a.drop_first() + b);
        assert((a + b)[0] == a[0]);
    }
}

proof fn lemma_qty_at_nonneg(a: Seq<RestingOrder>, p: Price)
    ensures
        qty_at(a, p) >= 0,
    decreases a.len(),
{
    if a.len() > 0 {
        lemma_qty_at_nonneg(a.drop_first(), p);
    }
}

proof fn lemma_qty_at_level(q: Seq<RestingOrder>, p: Price)
    requires
        forall|k: int| 0 <= k < q.len() ==> (#[trigger] q[k]).price == p,
    ensures
        qty_at(q, p) == qty_sum(q),
    decreases q.len(),
{
    if q.len() > 0 {
        lemma_qty_at_level(q.drop_first(), p);
    }
}

fn better_exec(s: Side, p: Price, q: Price) -> (r: bool)
    ensures
        r == better(s, p, q),
{
    match s {
        Side::Buy => p > q,
        Side::Sell => p < q,
    }
}

/// Every order of the levels from `i` up is at a price strictly better than
/// `price`.
proof fn lemma_above_better(lv: Seq<(Price, PriceLevel)>, i: int, side: Side, price: Price)
    requires
        levels_ok(lv, side),
        0 <= i <= lv.len(),
        forall|k: int| i <= k < lv.len() ==> better(side, #[trigger] lv[k].0, price),
    ensures
        forall|k: int|
            0 <= k < flat(lv.subrange(i, lv.len() as int)).len() ==> !better(
                side,
                price,
                #[trigger] flat(lv.subrange(i, lv.len() as int))[k].price,
            ),
{
    let above = lv.subrange(i, lv.len() as int);
    assert forall|a: int, k: int|
        0 <= a < above.len() && 0 <= k < above[a].1.queue@.len() implies !better(
            side,
            price,
            (#[trigger] above[a].1.queue@[k]).price,
        ) by {
        assert(above[a] == lv[i + a]);
        assert(level_ok(lv[i + a], side));
        assert(order_ok(lv[i + a].1.queue@[k], side, lv[i + a].0));
    }
    lemma_flat_forall(above, |x: RestingOrder| !better(side, price, x.price));
}

/// The first order below level `j` is at a price strictly worse than the
/// level's.
proof fn lemma_below_worse(lv: Seq<(Price, PriceLevel)>, j: int, side: Side, price: Price)
    requires
        levels_ok(lv, side),
        0 <= j <= lv.len(),
        j > 0 ==> better(side, price, lv[j - 1].0),
    ensures
        flat(lv.subrange(0, j)).len() == 0 || better(side, price, flat(lv.subrange(0, j))[0].price),
{
    if j > 0 {
        lemma_flat_prefix_step(lv, j);
        assert(level_ok(lv[j - 1], side));
        assert(order_ok(lv[j - 1].1.queue@[0], side, lv[j - 1].0));
        assert(flat(lv.subrange(0, j))[0] == lv[j - 1].1.queue@[0]);
    } else {
        assert(lv.subrange(0, 0) =~= Seq::<(Price, PriceLevel)>::empty());
    }
}

/// The quantity of one level is at most all the quantity at its price.
proof fn lemma_level_qty_bound(lv: Seq<(Price, PriceLevel)>, j: int, side: Side)
    requires
        levels_ok(lv, side),
        0 <= j < lv.len(),
    ensures
        qty_sum(lv[j].1.queue@) <= qty_at(flat(lv), lv[j].0),
{
    let n = lv.len() as int;
    let q = lv[j].1.queue@;
    let above = flat(lv.subrange(j + 1, n));
    let below = flat(lv.subrange(0, j));
    lemma_flat_split(lv, j);
    assert(level_ok(lv[j], side));
    assert forall|k: int| 0 <= k < q.len() implies (#[trigger] q[k]).price == lv[j].0 by {
        assert(order_ok(q[k], side, lv[j].0));
    }
    lemma_qty_at_level(q, lv[j].0);
    lemma_qty_at_concat(above + q, below, lv[j].0);
    lemma_qty_at_concat(above, q, lv[j].0);
    lemma_qty_at_nonneg(above, lv[j].0);
    lemma_qty_at_nonneg(below, lv[j].0);
}

/// Appending `order` to the level at its own price is `rest_spec`.
proof fn lemma_rest_existing(
    lv: Seq<(Price, PriceLevel)>,
    j: int,
    nl: (Price, PriceLevel),
    order: RestingOrder,
)
    requires
        levels_ok(lv, order.side),
        0 <= j < lv.len(),
        lv[j].0 == order.price,
        forall|k: int| j < k < lv.len() ==> better(order.side, #[trigger] lv[k].0, order.price),
        nl.0 == lv[j].0,
        nl.1.queue@ == lv[j].1.queue@.push(order),
        level_ok(nl, order.side),
    ensures
        levels_ok(lv.update(j, nl), order.side),
        flat(lv.update(j, nl)) == rest_spec(flat(lv), order),
{
    let side = order.side;
    let price = order.price;
    let n = lv.len() as int;
    let t = lv.update(j, nl);
    let q = lv[j].1.queue@;
    let above = lv.subrange(j + 1, n);
    let below = lv.subrange(0, j);
    lemma_flat_split(lv, j);
    lemma_flat_split(t, j);
    assert(t.subrange(j + 1, n) =~= above);
    assert(t.subrange(0, j) =~= below);
    assert forall|a: int| 0 <= a < t.len() implies #[trigger] level_ok(t[a], side) by {
        if a != j {
            assert(t[a] == lv[a]);
        }
    }
    assert forall|a: int, b: int| 0 <= a < b < t.len() implies better(side, t[b].0, t[a].0) by {
        assert(t[a].0 == lv[a].0);
        assert(t[b].0 == lv[b].0);
    }
    lemma_above_better(lv, j + 1, side, price);
    if j > 0 {
        assert(better(side, lv[j].0, lv[j - 1].0));
    }
    lemma_below_worse(lv, j, side, price);
    assert(level_ok(lv[j], side));
    assert forall|k: int| 0 <= k < (flat(above) + q).len() implies !better(
        side,
        price,
        #[trigger] (flat(above) + q)[k].price,
    ) by {
        if k >= flat(above).len() {
            assert((flat(above) + q)[k] == q[k - flat(above).len()]);
            assert(order_ok(q[k - flat(above).len()], side, price));
        }
    }
    lemma_rest_spec_concat(flat(above) + q, flat(below), order);
    assert(flat(above) + q + seq![order] + flat(below) =~= flat(above) + nl.1.queue@ + flat(below));
}

/// Opening a new level at position `i`, between the better and the worse
/// prices, is `rest_spec`.
proof fn lemma_rest_new(
    lv: Seq<(Price, PriceLevel)>,
    i: int,
    nl: (Price, PriceLevel),
    order: RestingOrder,
)
    requires
        levels_ok(lv, order.side),
        0 <= i <= lv.len(),
        forall|k: int| i <= k < lv.len() ==> better(order.side, #[trigger] lv[k].0, order.price),
        i > 0 ==> better(order.side, order.price, lv[i - 1].0),
        nl.0 == order.price,
        nl.1.queue@ == seq![order],
        level_ok(nl, order.side),
    ensures
        levels_ok(lv.insert(i, nl), order.side),
        flat(lv.insert(i, nl)) == rest_spec(flat(lv), order),
{
    let side = order.side;
    let price = order.price;
    let n = lv.len() as int;
    let t = lv.insert(i, nl);
    let above = lv.subrange(i, n);
    let below = lv.subrange(0, i);
    lemma_flat_split(t, i);
    assert(t.subrange(i + 1, n + 1) =~= above);
    assert(t.subrange(0, i) =~= below);
    lemma_flat_concat(lv, i);
    lemma_above_better(lv, i, side, price);
    lemma_below_worse(lv, i, side, price);
    lemma_rest_spec_concat(flat(above), flat(below), order);
    assert forall|a: int| 0 <= a < t.len() implies #[trigger] level_ok(t[a], side) by {
        if a < i {
            assert(t[a] == lv[a]);
        } else if a > i {
            assert(t[a] == lv[a - 1]);
        }
    }
    assert forall|a: int, b: int| 0 <= a < b < t.len() implies better(side, t[b].0, t[a].0) by {
        if a < i && b < i {
            assert(t[a] == lv[a] && t[b] == lv[b]);
        } else if a < i && b == i {
            assert(t[a] == lv[a]);
            if a < i - 1 {
                assert(better(side, lv[i - 1].0, lv[a].0));
            }
        } else if a < i && b > i {
            assert(t[a] == lv[a] && t[b] == lv[b - 1]);
        } else if a == i {
            assert(t[b] == lv[b - 1]);
        } else {
            assert(t[a] == lv[a - 1] && t[b] == lv[b - 1]);
        }
    }
    assert(flat(t) =~= flat(above) + seq![order] + flat(below));
}

/// Put `order` on its side of the book: at the back of the level at its
/// price, or in a new level between the better and the worse prices.
fn rest_levels(levels: &mut Vec<(Price, PriceLevel)>, order: RestingOrder)
    requires
        levels_ok(old(levels)@, order.side),
        order.qty_remaining > 0,
        qty_at(flat(old(levels)@), order.price) + order.qty_remaining <= u64::MAX,
    ensures
        levels_ok(final(levels)@, order.side),
        flat(final(levels)@) == rest_spec(flat(old(levels)@), order),
{
    let side = order.side;
    let price = order.price;
    let n = levels.len();
    let ghost lv = levels@;
    let mut i = n;
    while i > 0 && better_exec(side, levels[i - 1].0, price)
        invariant
            0 <= i <= n,
            n == levels@.len(),
            levels@ == lv,
            forall|k: int| i <= k < n ==> better(side, #[trigger] lv[k].0, price),
        decreases i,
    {
        i = i - 1;
    }
    if i > 0 && levels[i - 1].0 == price {
        let j = i - 1;
        let (key, mut level) = levels.remove(j);
        let ghost q = level.queue@;
        proof {
            lemma_level_qty_bound(lv, j as int, side);
            assert(level_ok(lv[j as int], side));
        }
        level.total_qty = level.total_qty + order.qty_remaining;
        level.queue.push_back(order);
        proof {
            lemma_qty_sum_push(q, order);
            assert forall|k: int| 0 <= k < level.queue@.len() implies #[trigger] order_ok(
                level.queue@[k],
                side,
                key,
            ) by {
                if k < q.len() {
                    assert(level.queue@[k] == q[k]);
                    assert(order_ok(q[k], side, key));
                }
            }
        }
        let ghost nl = (key, level);
        levels.insert(j, (key, level));
        proof {
            assert(levels@ =~= lv.update(j as int, nl));
            lemma_rest_existing(lv, j as int, nl, order);
        }
    } else {
        let mut queue = VecDeque::new();
        queue.push_back(order);
        let level = PriceLevel { total_qty: order.qty_remaining, queue };
        let ghost nl = (price, level);
        proof {
            assert(level.queue@ =~= seq![order]);
            lemma_qty_sum_cons(order, Seq::empty());
            assert(seq![order] =~= seq![order] + Seq::<RestingOrder>::empty());
            assert(level_ok(nl, side));
            if i > 0 {
                assert(!better(side, lv[i - 1].0, price));
                assert(lv[i - 1].0 != price);
            }
        }
        levels.insert(i, (price, level));
        proof {
            assert(levels@ =~= lv.insert(i as int, nl));
            lemma_rest_new(lv, i as int, nl, order);
        }
    }
}

/// The orders of the levels at `i` and above come before those below `i`.
proof fn lemma_flat_concat(levels: Seq<(Price, PriceLevel)>, i: int)
    requires
        0 <= i <= levels.len(),
    ensures
        flat(levels) == flat(levels.subrange(i, levels.len() as int)) + flat(levels.subrange(0, i)),
    decreases levels.len() - i,
{
    let n = levels.len() as int;
    if i == n {
        assert(levels.subrange(n, n) =~= Seq::<(Price, PriceLevel)>::empty());
        assert(levels.subrange(0, n) =~= levels);
        assert(flat(levels.subrange(n, n)) =~= Seq::<RestingOrder>::empty());
        assert(flat(levels) =~= Seq::<RestingOrder>::empty() + flat(levels));
    } else {
        lemma_flat_concat(levels, i + 1);
        lemma_flat_prefix_step(levels, i + 1);
        let up = levels.subrange(i, n);
        lemma_flat_split(up, 0);
        assert(up.subrange(1, up.len() as int) =~= levels.subrange(i + 1, n));
        assert(up.subrange(0, 0) =~= Seq::<(Price, PriceLevel)>::empty());
        assert(flat(up.subrange(0, 0)) =~= Seq::<RestingOrder>::empty());
        assert(flat(levels) =~= flat(up) + flat(levels.subrange(0, i)));
    }
}

/// Remove the order `order_id`, resting at `price`, from the levels of one
/// side. Returns its remaining quantity and its position in trading order.
fn cancel_levels(
    levels: &mut Vec<(Price, PriceLevel)>,
    side: Side,
    price: Price,
    order_id: OrderId,
    Ghost(pos): Ghost<int>,
) -> (removed: Qty)
    requires
        levels_ok(old(levels)@, side),
        0 <= pos < flat(old(levels)@).len(),
        flat(old(levels)@)[pos].order_id == order_id,
        flat(old(levels)@)[pos].price == price,
        ids(flat(old(levels)@)).no_duplicates(),
    ensures
        levels_ok(final(levels)@, side),
        removed == flat(old(levels)@)[pos].qty_remaining,
        flat(final(levels)@) == flat(old(levels)@).remove(pos),
{
    let ghost lv = levels@;
    let ghost f = flat(lv);
    let n = levels.len();
    let mut j: usize = 0;
    while j < n && levels[j].0 != price
        invariant
            0 <= j <= n,
            n == levels@.len(),
            levels@ == lv,
            forall|k: int| 0 <= k < j ==> (#[trigger] lv[k]).0 != price,
        decreases n - j,
    {
        j = j + 1;
    }
    proof {
        if j == n {
            assert forall|a: int, k: int|
                0 <= a < lv.len() && 0 <= k < lv[a].1.queue@.len() implies (#[trigger] lv[a].1.queue@[k]).price
                != price by {
                assert(level_ok(lv[a], side));
                assert(order_ok(lv[a].1.queue@[k], side, lv[a].0));
            }
            lemma_flat_forall(lv, |o: RestingOrder| o.price != price);
            assert(false);
        }
    }
    let (key, mut level) = levels.remove(j);
    let ghost q = level.queue@;
    let qlen = level.queue.len();
    let mut t: usize = 0;
    while t < qlen && level.queue[t].order_id != order_id
        invariant
            0 <= t <= qlen,
            qlen == q.len(),
            level.queue@ == q,
            forall|u: int| 0 <= u < t ==> (#[trigger] q[u]).order_id != order_id,
        decreases qlen - t,
    {
        t = t + 1;
    }
    proof {
        assert(level_ok(lv[j as int], side));
        if t == qlen {
            assert forall|a: int, k: int|
                0 <= a < lv.len() && 0 <= k < lv[a].1.queue@.len() implies !((
                #[trigger] lv[a].1.queue@[k]).order_id == order_id && lv[a].1.queue@[k].price
                == price) by {
                assert(level_ok(lv[a], side));
                assert(order_ok(lv[a].1.queue@[k], side, lv[a].0));
                if a != j {
                    if a < j {
                        assert(better(side, lv[j as int].0, lv[a].0));
                    } else {
                        assert(better(side, lv[a].0, lv[j as int].0));
                    }
                }
            }
            lemma_flat_forall(lv, |o: RestingOrder| !(o.order_id == order_id && o.price == price));
            assert(false);
        }
        lemma_flat_split(lv, j as int);
        lemma_qty_sum_remove(q, t as int);
        lemma_qty_sum_nonneg(q.remove(t as int));
    }
    let ghost above = flat(lv.subrange(j + 1, n as int));
    let ghost below = flat(lv.subrange(0, j as int));
    let o = level.queue.remove(t).unwrap();
    proof {
        let p2 = above.len() + t;
        assert(f[p2] == q[t as int]);
        assert(ids(f)[p2] == order_id);
        assert(ids(f)[pos] == order_id);
        assert(p2 == pos);
        assert(f.remove(pos) =~= above + q.remove(t as int) + below);
    }
    level.total_qty = level.total_qty - o.qty_remaining;
    if level.queue.len() > 0 {
        let ghost nl = (key, level);
        levels.insert(j, (key, level));
        proof {
            let tt = levels@;
            assert(tt =~= lv.update(j as int, nl));
            lemma_flat_split(tt, j as int);
            assert(tt.subrange(j + 1, n as int) =~= lv.subrange(j + 1, n as int));
            assert(tt.subrange(0, j as int) =~= lv.subrange(0, j as int));
            assert forall|k: int| 0 <= k < level.queue@.len() implies #[trigger] order_ok(
                level.queue@[k],
                side,
                key,
            ) by {
                if k < t {
                    assert(level.queue@[k] == q[k]);
                } else {
                    assert(level.queue@[k] == q[k + 1]);
                }
                assert(order_ok(q[if k < t { k } else { k + 1 }], side, key));
            }
            assert forall|a: int| 0 <= a < tt.len() implies #[trigger] level_ok(tt[a], side) by {
                if a != j {
                    assert(tt[a] == lv[a]);
                }
            }
            assert forall|a: int, b: int| 0 <= a < b < tt.len() implies better(side, tt[b].0, tt[a].0) by {
                assert(tt[a].0 == lv[a].0);
                assert(tt[b].0 == lv[b].0);
            }
        }
    } else {
        proof {
            let tt = levels@;
            assert(tt =~= lv.remove(j as int));
            lemma_flat_concat(tt, j as int);
            assert(tt.subrange(j as int, tt.len() as int) =~= lv.subrange(j + 1, n as int));
            assert(tt.subrange(0, j as int) =~= lv.subrange(0, j as int));
            assert(q.remove(t as int) =~= Seq::<RestingOrder>::empty());
            assert(f.remove(pos) =~= above + below);
            assert forall|a: int| 0 <= a < tt.len() implies #[trigger] level_ok(tt[a], side) by {
                if a < j {
                    assert(tt[a] == lv[a]);
                } else {
                    assert(tt[a] == lv[a + 1]);
                }
            }
            assert forall|a: int, b: int| 0 <= a < b < tt.len() implies better(side, tt[b].0, tt[a].0) by {
                let a2 = if a < j { a } else { a + 1 };
                let b2 = if b < j { b } else { b + 1 };
                assert(tt[a] == lv[a2]);
                assert(tt[b] == lv[b2]);
            }
        }
    }
    o.qty_remaining
}

proof fn lemma_match_remaining(
    opp: Seq<RestingOrder>,
    taker_id: OrderId,
    taker_client: u64,
    taker: Side,
    ord_type: OrdType,
    limit: Price,
    remaining: Qty,
)
    requires
        forall|k: int| 0 <= k < opp.len() ==> (#[trigger] opp[k]).qty_remaining > 0,
    ensures
        match_spec(opp, taker_id, taker_client, taker, ord_type, limit, remaining).2 <= remaining,
        match_spec(opp, taker_id, taker_client, taker, ord_type, limit, remaining).2 == remaining
            <==> match_spec(opp, taker_id, taker_client, taker, ord_type, limit, remaining).0.len()
            == 0,
    decreases opp.len(),
{
    if remaining == 0 || opp.len() == 0 || !acceptable(taker, ord_type, limit, opp[0].price) {
    } else if remaining < opp[0].qty_remaining {
    } else {
        lemma_match_remaining(
            opp.drop_first(),
            taker_id,
            taker_client,
            taker,
            ord_type,
            limit,
            (remaining - opp[0].qty_remaining) as u64,
        );
        assert(opp[0].qty_remaining > 0);
    }
}

// ---------------------------------------------------------------------------
// Specification of the public operations
// ---------------------------------------------------------------------------
/// Whether a submission is refused before touching the book: zero
/// quantity, an id already resting, or a fill-or-kill order the opposite
/// side cannot fill at acceptable prices.
pub open spec fn submit_rejected(
    v: BookView,
    order_id: OrderId,
    side: Side,
    ord_type: OrdType,
    tif: Tif,
    limit: Price,
    qty: Qty,
) -> bool {
    ||| qty == 0
    ||| v.contains_id(order_id)
    ||| (tif == Tif::Fok && available(v.side(side.opposite_spec()), side, ord_type, limit) < qty)
}

/// What submitting an order does: its outcome, the book afterwards and the
/// fills, in the order they happen.
pub open spec fn submit_spec(
    v: BookView,
    order_id: OrderId,
    client_id: u64,
    side: Side,
    ord_type: OrdType,
    tif: Tif,
    limit: Price,
    qty: Qty,
) -> (SubmitOutcome, BookView, Seq<Fill>) {
    if submit_rejected(v, order_id, side, ord_type, tif, limit, qty) {
        (SubmitOutcome::Rejected, v, Seq::empty())
    } else {
        let m = match_spec(
            v.side(side.opposite_spec()),
            order_id,
            client_id,
            side,
            ord_type,
            limit,
            qty,
        );
        let remaining = m.2;
        let after = v.with_side(side.opposite_spec(), m.1);
        if ord_type == OrdType::Limit && tif == Tif::Day && remaining > 0 {
            let o = RestingOrder {
                order_id,
                client_id,
                side,
                price: limit,
                qty_remaining: remaining,
            };
            (
                SubmitOutcome::Resting {
                    resting_qty: remaining,
                    filled_qty: (qty - remaining) as u64,
                    crossed: m.0.len() > 0,
                },
                after.with_side(side, rest_spec(v.side(side), o)),
                m.0,
            )
        } else if remaining == qty {
            (SubmitOutcome::NoFill, after, m.0)
        } else if remaining == 0 {
            (SubmitOutcome::FullyFilled, after, m.0)
        } else {
            (SubmitOutcome::PartialAndDone { filled_qty: (qty - remaining) as u64 }, after, m.0)
        }
    }
}

/// The quantity that would rest at the limit price fits the level's `u64`
/// total.
pub open spec fn submit_fits(
    v: BookView,
    order_id: OrderId,
    client_id: u64,
    side: Side,
    ord_type: OrdType,
    tif: Tif,
    limit: Price,
    qty: Qty,
) -> bool {
    let m = match_spec(
        v.side(side.opposite_spec()),
        order_id,
        client_id,
        side,
        ord_type,
        limit,
        qty,
    );
    submit_rejected(v, order_id, side, ord_type, tif, limit, qty) || !(ord_type == OrdType::Limit
        && tif == Tif::Day && m.2 > 0) || qty_at(v.side(side), limit) + m.2 <= u64::MAX
}

/// What cancelling `id` does: the quantity removed and the book afterwards.
pub open spec fn cancel_spec(v: BookView, id: OrderId) -> (Qty, BookView) {
    if exists|i: int| 0 <= i < v.bids.len() && #[trigger] v.bids[i].order_id == id {
        let i = choose|i: int| 0 <= i < v.bids.len() && #[trigger] v.bids[i].order_id == id;
        (v.bids[i].qty_remaining, BookView { bids: v.bids.remove(i), asks: v.asks })
    } else if exists|i: int| 0 <= i < v.asks.len() && #[trigger] v.asks[i].order_id == id {
        let i = choose|i: int| 0 <= i < v.asks.len() && #[trigger] v.asks[i].order_id == id;
        (v.asks[i].qty_remaining, BookView { bids: v.bids, asks: v.asks.remove(i) })
    } else {
        (0, v)
    }
}

/// The price of the first order of a side, if any.
pub open spec fn best_price(s: Seq<RestingOrder>) -> Option<Price> {
    if s.len() == 0 {
        None
    } else {
        Some(s[0].price)
    }
}

proof fn lemma_side_orders(levels: Seq<(Price, PriceLevel)>, s: Side)
    requires
        levels_ok(levels, s),
    ensures
        forall|k: int|
            0 <= k < flat(levels).len() ==> (#[trigger] flat(levels)[k]).side == s && flat(
                levels,
            )[k].qty_remaining > 0,
{
    assert forall|a: int, k: int|
        0 <= a < levels.len() && 0 <= k < levels[a].1.queue@.len() implies ((
        #[trigger] levels[a].1.queue@[k]).side == s && levels[a].1.queue@[k].qty_remaining > 0) by {
        assert(level_ok(levels[a], s));
        assert(order_ok(levels[a].1.queue@[k], s, levels[a].0));
    }
    lemma_flat_forall(levels, |o: RestingOrder| o.side == s && o.qty_remaining > 0);
}

proof fn lemma_level_count_level(q: Seq<RestingOrder>, b: Seq<RestingOrder>, p: Price)
    requires
        q.len() > 0,
        forall|k: int| 0 <= k < q.len() ==> (#[trigger] q[k]).price == p,
        b.len() == 0 || b[0].price != p,
    ensures
        level_count(q + b) == 1 + level_count(b),
    decreases q.len(),
{
    if q.len() == 1 {
        assert((q + b).drop_first() =~= b);
    } else {
        lemma_level_count_level(q.drop_first(), b, p);
        assert((q + b).drop_first() =~= q.drop_first() + b);
        assert((q + b)[1] == q[1]);
    }
}

proof fn lemma_level_count(levels: Seq<(Price, PriceLevel)>, s: Side)
    requires
        levels_ok(levels, s),
    ensures
        level_count(flat(levels)) == levels.len(),
    decreases levels.len(),
{
    if levels.len() > 0 {
        let d = levels.drop_last();
        lemma_levels_drop_last(levels, s);
        lemma_level_count(d, s);
        let l = levels.last();
        assert(level_ok(l, s));
        assert forall|k: int| 0 <= k < l.1.queue@.len() implies (#[trigger] l.1.queue@[k]).price
            == l.0 by {
            assert(order_ok(l.1.queue@[k], s, l.0));
        }
        if d.len() > 0 {
            lemma_flat_prefix_step(levels, levels.len() - 1);
            assert(levels.subrange(0, levels.len() - 1) =~= d);
            assert(d.subrange(0, d.len() - 1) =~= d.drop_last());
            assert(level_ok(d.last(), s));
            assert(order_ok(d.last().1.queue@[0], s, d.last().0));
            assert(flat(d)[0] == d.last().1.queue@[0]);
            assert(better(s, levels[levels.len() - 1].0, levels[levels.len() - 2].0));
        }
        lemma_level_count_level(l.1.queue@, flat(d), l.0);
    }
}

proof fn lemma_ids_concat(a: Seq<RestingOrder>, b: Seq<RestingOrder>)
    requires
        ids(a + b).no_duplicates(),
    ensures
        ids(a).no_duplicates(),
        ids(b).no_duplicates(),
        forall|i: int, j: int|
            0 <= i < a.len() && 0 <= j < b.len() ==> (#[trigger] a[i]).order_id != (
            #[trigger] b[j]).order_id,
{
    assert forall|x: int, y: int| 0 <= x < y < ids(a).len() implies ids(a)[x] != ids(a)[y] by {
        assert(ids(a + b)[x] == ids(a)[x]);
        assert(ids(a + b)[y] == ids(a)[y]);
    }
    assert forall|x: int, y: int| 0 <= x < y < ids(b).len() implies ids(b)[x] != ids(b)[y] by {
        assert(ids(a + b)[a.len() + x] == ids(b)[x]);
        assert(ids(a + b)[a.len() + y] == ids(b)[y]);
    }
    assert forall|i: int, j: int|
        0 <= i < a.len() && 0 <= j < b.len() implies (#[trigger] a[i]).order_id != (
        #[trigger] b[j]).order_id by {
        assert(ids(a + b)[i] == a[i].order_id);
        assert(ids(a + b)[a.len() + j] == b[j].order_id);
    }
}

impl OrderBook {
    pub fn new(symbol_id: SymbolId) -> (book: Self)
        ensures
            book.wf(),
            book.symbol() == symbol_id,
            book.view().bids.len() == 0,
            book.view().asks.len() == 0,
    {
        let book = OrderBook {
            symbol_id,
            bids: Vec::new(),
            asks: Vec::new(),
            orders: index_new(),
        };
        proof {
            assert(book.view().all() =~= Seq::<RestingOrder>::empty());
            assert(ids(book.view().all()).to_set() =~= Set::<OrderId>::empty());
            assert(book.orders@.dom() =~= Set::<OrderId>::empty());
        }
        book
    }

    /// The highest bid price, if any bid rests.
    pub fn best_bid(&self) -> (r: Option<Price>)
        requires
            self.wf(),
        ensures
            r == best_price(self.view().bids),
    {
        let n = self.bids.len();
        if n == 0 {
            None
        } else {
            proof {
                assert(level_ok(self.bids@[n - 1], Side::Buy));
                assert(order_ok(self.bids@[n - 1].1.queue@[0], Side::Buy, self.bids@[n - 1].0));
                assert(flat(self.bids@)[0] == self.bids@[n - 1].1.queue@[0]);
            }
            Some(self.bids[n - 1].0)
        }
    }

    /// The lowest ask price, if any ask rests.
    pub fn best_ask(&self) -> (r: Option<Price>)
        requires
            self.wf(),
        ensures
            r == best_price(self.view().asks),
    {
        let n = self.asks.len();
        if n == 0 {
            None
        } else {
            proof {
                assert(level_ok(self.asks@[n - 1], Side::Sell));
                assert(order_ok(self.asks@[n - 1].1.queue@[0], Side::Sell, self.asks@[n - 1].0));
                assert(flat(self.asks@)[0] == self.asks@[n - 1].1.queue@[0]);
            }
            Some(self.asks[n - 1].0)
        }
    }

    /// The number of distinct prices resting on `side`.
    pub fn depth(&self, side: Side) -> (r: usize)
        requires
            self.wf(),
        ensures
            r == level_count(self.view().side(side)),
    {
        proof {
            lemma_level_count(self.bids@, Side::Buy);
            lemma_level_count(self.asks@, Side::Sell);
        }
        match side {
            Side::Buy => self.bids.len(),
            Side::Sell => self.asks.len(),
        }
    }

    /// The number of resting orders.
    pub fn order_count(&self) -> (r: usize)
        requires
            self.wf(),
        ensures
            r == self.view().all().len(),
    {
        proof {
            ids(self.view().all()).unique_seq_to_set();
        }
        index_len(&self.orders)
    }
}

impl OrderBook {
    /// Try to match an incoming order against resting orders on the opposite
    /// side, then rest the remainder (if any and its time in force allows).
    /// Fills are appended to `fills`.
    pub fn submit(
        &mut self,
        order_id: OrderId,
        client_id: u64,
        side: Side,
        ord_type: OrdType,
        tif: Tif,
        limit_price: Price,
        qty: Qty,
        fills: &mut Vec<Fill>,
    ) -> (outcome: SubmitOutcome)
        requires
            old(self).wf(),
            submit_fits(
                old(self).view(),
                order_id,
                client_id,
                side,
                ord_type,
                tif,
                limit_price,
                qty,
            ),
        ensures
            final(self).wf(),
            final(self).symbol() == old(self).symbol(),
            ({
                let r = submit_spec(
                    old(self).view(),
                    order_id,
                    client_id,
                    side,
                    ord_type,
                    tif,
                    limit_price,
                    qty,
                );
                &&& outcome == r.0
                &&& final(self).view() == r.1
                &&& final(fills)@ == old(fills)@ + r.2
            }),
    {
        let ghost v = self.view();
        if qty == 0 {
            return SubmitOutcome::Rejected;
        }
        proof {
            if v.contains_id(order_id) {
                let i = choose|i: int| 0 <= i < v.all().len() && #[trigger] v.all()[i].order_id == order_id;
                assert(ids(v.all())[i] == order_id);
                assert(ids(v.all()).to_set().contains(order_id));
            }
            if self.orders@.contains_key(order_id) {
                assert(ids(v.all()).contains(order_id));
                let i = choose|i: int| 0 <= i < ids(v.all()).len() && ids(v.all())[i] == order_id;
                assert(v.all()[i].order_id == order_id);
            }
        }
        if index_contains(&self.orders, order_id) {
            return SubmitOutcome::Rejected;
        }
        if tif == Tif::Fok {
            let enough = match side {
                Side::Buy => fillable_qty(&self.asks, Side::Sell, side, ord_type, limit_price, qty) == qty,
                Side::Sell => fillable_qty(&self.bids, Side::Buy, side, ord_type, limit_price, qty) == qty,
            };
            if !enough {
                return SubmitOutcome::Rejected;
            }
        }
        let ghost own0 = v.side(side);
        let ghost opp0 = v.side(side.opposite_spec());
        let ghost m = match_spec(opp0, order_id, client_id, side, ord_type, limit_price, qty);
        let ghost bids0 = flat(self.bids@);
        let ghost asks0 = flat(self.asks@);
        let mut remaining = qty;
        let crossed = match side {
            Side::Buy => {
                proof {
                    assert(bids0 + asks0 + Seq::<RestingOrder>::empty() =~= v.all());
                }
                match_levels(
                    &mut self.asks,
                    &mut self.orders,
                    Ghost(bids0),
                    Ghost(Seq::empty()),
                    Side::Sell,
                    order_id,
                    client_id,
                    side,
                    ord_type,
                    limit_price,
                    &mut remaining,
                    fills,
                )
            },
            Side::Sell => {
                proof {
                    assert(Seq::<RestingOrder>::empty() + bids0 + asks0 =~= v.all());
                }
                match_levels(
                    &mut self.bids,
                    &mut self.orders,
                    Ghost(Seq::empty()),
                    Ghost(asks0),
                    Side::Buy,
                    order_id,
                    client_id,
                    side,
                    ord_type,
                    limit_price,
                    &mut remaining,
                    fills,
                )
            },
        };
        proof {
            lemma_side_orders(if side == Side::Buy { self.asks@ } else { self.bids@ }, side.opposite_spec());
            lemma_side_orders(old(self).levels_of(side.opposite_spec()), side.opposite_spec());
            lemma_match_remaining(opp0, order_id, client_id, side, ord_type, limit_price, qty);
            assert(self.view().all() =~= (if side == Side::Buy {
                bids0 + flat(self.asks@) + Seq::<RestingOrder>::empty()
            } else {
                Seq::<RestingOrder>::empty() + flat(self.bids@) + asks0
            }));
            assert(self.view() =~= v.with_side(side.opposite_spec(), m.1));
        }
        if ord_type == OrdType::Limit && tif == Tif::Day && remaining > 0 {
            let order = RestingOrder {
                order_id,
                client_id,
                side,
                price: limit_price,
                qty_remaining: remaining,
            };
            let ghost idx = self.orders@;
            let ghost all1 = self.view().all();
            let ghost b1 = flat(self.bids@);
            let ghost a1 = flat(self.asks@);
            index_insert(&mut self.orders, order_id, OrderLocation { side, price: limit_price });
            match side {
                Side::Buy => rest_levels(&mut self.bids, order),
                Side::Sell => rest_levels(&mut self.asks, order),
            }
            proof {
                lemma_rest_spec_insert(own0, order);
                let p = rest_pos(own0, order);
                let off = if side == Side::Buy { 0 } else { b1.len() as int };
                assert(self.view().all() =~= all1.insert(off + p, order));
                lemma_index_insert(idx, all1, off + p, order);
                assert(self.view() =~= v.with_side(side.opposite_spec(), m.1).with_side(
                    side,
                    rest_spec(own0, order),
                ));
            }
            return SubmitOutcome::Resting {
                resting_qty: remaining,
                filled_qty: qty - remaining,
                crossed,
            };
        }
        if remaining == qty {
            SubmitOutcome::NoFill
        } else if remaining == 0 {
            SubmitOutcome::FullyFilled
        } else {
            SubmitOutcome::PartialAndDone { filled_qty: qty - remaining }
        }
    }
}

impl OrderBook {
    /// Whether submitting this order keeps every level total within `u64`:
    /// the condition under which `submit` may be called.
    pub fn submit_fits_now(
        &self,
        order_id: OrderId,
        client_id: u64,
        side: Side,
        ord_type: OrdType,
        tif: Tif,
        limit_price: Price,
        qty: Qty,
    ) -> (r: bool)
        requires
            self.wf(),
        ensures
            r == submit_fits(self.view(), order_id, client_id, side, ord_type, tif, limit_price, qty),
    {
        let ghost v = self.view();
        if !(ord_type == OrdType::Limit && tif == Tif::Day) || qty == 0 {
            return true;
        }
        proof {
            if v.contains_id(order_id) {
                let i = choose|i: int| 0 <= i < v.all().len() && #[trigger] v.all()[i].order_id == order_id;
                assert(ids(v.all())[i] == order_id);
                assert(ids(v.all()).to_set().contains(order_id));
            }
            if self.orders@.contains_key(order_id) {
                assert(ids(v.all()).contains(order_id));
                let i = choose|i: int| 0 <= i < ids(v.all()).len() && ids(v.all())[i] == order_id;
                assert(v.all()[i].order_id == order_id);
            }
        }
        if index_contains(&self.orders, order_id) {
            return true;
        }
        let filled = match side {
            Side::Buy => fillable_qty(&self.asks, Side::Sell, side, ord_type, limit_price, qty),
            Side::Sell => fillable_qty(&self.bids, Side::Buy, side, ord_type, limit_price, qty),
        };
        let left = qty - filled;
        let resting = match side {
            Side::Buy => level_qty_at(&self.bids, side, limit_price),
            Side::Sell => level_qty_at(&self.asks, side, limit_price),
        };
        proof {
            let opp = v.side(side.opposite_spec());
            lemma_side_orders(self.levels_of(side.opposite_spec()), side.opposite_spec());
            lemma_match_left(opp, order_id, client_id, side, ord_type, limit_price, qty);
        }
        left == 0 || resting <= u64::MAX - left
    }
}

impl OrderBook {
    /// Remove a resting order. Returns the remaining quantity that was
    /// cancelled (0 if the order was not found).
    pub fn cancel(&mut self, order_id: OrderId) -> (removed: Qty)
        requires
            old(self).wf(),
        ensures
            final(self).wf(),
            final(self).symbol() == old(self).symbol(),
            (removed, final(self).view()) == cancel_spec(old(self).view(), order_id),
    {
        let ghost v = self.view();
        let ghost all = v.all();
        let ghost idx = self.orders@;
        let ghost b0 = flat(self.bids@);
        let ghost a0 = flat(self.asks@);
        proof {
            lemma_ids_concat(b0, a0);
            lemma_side_orders(self.bids@, Side::Buy);
            lemma_side_orders(self.asks@, Side::Sell);
        }
        let loc = index_remove(&mut self.orders, order_id);
        match loc {
            None => {
                proof {
                    assert forall|i: int| 0 <= i < v.bids.len() implies #[trigger] v.bids[i].order_id
                        != order_id by {
                        assert(all[i] == v.bids[i]);
                        assert(ids(all)[i] == v.bids[i].order_id);
                        assert(ids(all).to_set().contains(ids(all)[i]));
                    }
                    assert forall|i: int| 0 <= i < v.asks.len() implies #[trigger] v.asks[i].order_id
                        != order_id by {
                        assert(all[v.bids.len() + i] == v.asks[i]);
                        assert(ids(all)[v.bids.len() + i] == v.asks[i].order_id);
                        assert(ids(all).to_set().contains(ids(all)[v.bids.len() + i]));
                    }
                    assert(self.orders@ =~= idx);
                }
                0
            },
            Some(loc) => {
                let ghost i = choose|i: int| 0 <= i < ids(all).len() && ids(all)[i] == order_id;
                proof {
                    assert(ids(all).to_set().contains(order_id));
                    assert(ids(all).contains(order_id));
                    assert(all[i].order_id == order_id);
                    assert(idx[all[i].order_id] == location(all[i]));
                    lemma_index_remove(idx, all, i);
                }
                match loc.side {
                    Side::Buy => {
                        proof {
                            if i >= b0.len() {
                                assert(all[i] == a0[i - b0.len()]);
                            }
                            assert(all[i] == b0[i]);
                        }
                        let r = cancel_levels(&mut self.bids, Side::Buy, loc.price, order_id, Ghost(i));
                        proof {
                            assert(all.remove(i) =~= flat(self.bids@) + a0);
                            assert forall|k: int| 0 <= k < v.bids.len() && #[trigger] v.bids[k].order_id
                                == order_id implies k == i by {
                                assert(ids(all)[k] == order_id);
                                assert(ids(all)[i] == order_id);
                            }
                            assert(self.view() =~= BookView { bids: v.bids.remove(i), asks: v.asks });
                        }
                        r
                    },
                    Side::Sell => {
                        proof {
                            if i < b0.len() {
                                assert(all[i] == b0[i]);
                            }
                            assert(all[i] == a0[i - b0.len()]);
                            assert forall|k: int| 0 <= k < v.bids.len() implies #[trigger] v.bids[k].order_id
                                != order_id by {
                                assert(ids(all)[k] == v.bids[k].order_id);
                                assert(ids(all)[i] == order_id);
                            }
                        }
                        let r = cancel_levels(
                            &mut self.asks,
                            Side::Sell,
                            loc.price,
                            order_id,
                            Ghost(i - b0.len()),
                        );
                        proof {
                            assert(all.remove(i) =~= b0 + flat(self.asks@));
                            let j = i - b0.len();
                            assert forall|k: int| 0 <= k < v.asks.len() && #[trigger] v.asks[k].order_id
                                == order_id implies k == j by {
                                assert(ids(all)[b0.len() + k] == order_id);
                                assert(ids(all)[i] == order_id);
                            }
                            assert(self.view() =~= BookView { bids: v.bids, asks: v.asks.remove(j) });
                        }
                        r
                    },
                }
            },
        }
    }
}

// ---------------------------------------------------------------------------
// Laws
// ---------------------------------------------------------------------------
/// A side in trading order: no order is at a better price than one before it.
pub open spec fn side_sorted(s: Seq<RestingOrder>, side: Side) -> bool {
    forall|i: int, j: int| 0 <= i < j < s.len() ==> !better(side, #[trigger] s[j].price, #[trigger] s[i].price)
}

/// What every view of a well-formed book satisfies: each side in trading
/// order, on its own side, with positive quantities, and no id twice.
pub open spec fn view_wf(v: BookView) -> bool {
    &&& side_sorted(v.bids, Side::Buy)
    &&& side_sorted(v.asks, Side::Sell)
    &&& forall|i: int| 0 <= i < v.bids.len() ==> (#[trigger] v.bids[i]).side == Side::Buy
        && v.bids[i].qty_remaining > 0
    &&& forall|i: int| 0 <= i < v.asks.len() ==> (#[trigger] v.asks[i]).side == Side::Sell
        && v.asks[i].qty_remaining > 0
    &&& ids(v.all()).no_duplicates()
}

/// The best bid is below the best ask.
pub open spec fn uncrossed(v: BookView) -> bool {
    v.bids.len() > 0 && v.asks.len() > 0 ==> v.bids[0].price < v.asks[0].price
}

/// Total quantity of a sequence of fills.
pub open spec fn fills_qty(fs: Seq<Fill>) -> int
    decreases fs.len(),
{
    if fs.len() == 0 {
        0
    } else {
        fs[0].qty + fills_qty(fs.drop_first())
    }
}

proof fn lemma_flat_sorted(levels: Seq<(Price, PriceLevel)>, s: Side)
    requires
        levels_ok(levels, s),
    ensures
        side_sorted(flat(levels), s),
    decreases levels.len(),
{
    if levels.len() > 0 {
        let d = levels.drop_last();
        let l = levels.last();
        let q = l.1.queue@;
        lemma_levels_drop_last(levels, s);
        lemma_flat_sorted(d, s);
        assert(level_ok(l, s));
        assert forall|a: int, k: int|
            0 <= a < d.len() && 0 <= k < d[a].1.queue@.len() implies better(
                s,
                l.0,
                (#[trigger] d[a].1.queue@[k]).price,
            ) by {
            assert(d[a] == levels[a]);
            assert(level_ok(levels[a], s));
            assert(order_ok(levels[a].1.queue@[k], s, levels[a].0));
            assert(better(s, levels[levels.len() - 1].0, levels[a].0));
        }
        lemma_flat_forall(d, |o: RestingOrder| better(s, l.0, o.price));
        let f = flat(levels);
        assert(f == q + flat(d));
        assert forall|i: int, j: int| 0 <= i < j < f.len() implies !better(
            s,
            #[trigger] f[j].price,
            #[trigger] f[i].price,
        ) by {
            if j < q.len() {
                assert(order_ok(q[i], s, l.0));
                assert(order_ok(q[j], s, l.0));
            } else if i < q.len() {
                assert(order_ok(q[i], s, l.0));
                assert(f[j] == flat(d)[j - q.len()]);
            } else {
                assert(f[i] == flat(d)[i - q.len()]);
                assert(f[j] == flat(d)[j - q.len()]);
            }
        }
    }
}

impl OrderBook {
    /// A well-formed book's view: both sides in trading order, each order
    /// on its own side with a positive quantity, and every id once.
    pub proof fn lemma_view_wf(&self)
        requires
            self.wf(),
        ensures
            view_wf(self.view()),
    {
        lemma_flat_sorted(self.bids@, Side::Buy);
        lemma_flat_sorted(self.asks@, Side::Sell);
        lemma_side_orders(self.bids@, Side::Buy);
        lemma_side_orders(self.asks@, Side::Sell);
    }
}

/// The fills of a match, and what it leaves the taker, add up to what the
/// taker brought; every fill is for a positive quantity, at a price the
/// taker accepts, between the taker and a maker from the opposite side.
pub proof fn lemma_match_fills(
    opp: Seq<RestingOrder>,
    taker_id: OrderId,
    taker_client: u64,
    taker: Side,
    ord_type: OrdType,
    limit: Price,
    remaining: Qty,
)
    requires
        forall|k: int| 0 <= k < opp.len() ==> (#[trigger] opp[k]).qty_remaining > 0,
    ensures
        ({
            let m = match_spec(opp, taker_id, taker_client, taker, ord_type, limit, remaining);
            &&& fills_qty(m.0) + m.2 == remaining
            &&& forall|i: int|
                0 <= i < m.0.len() ==> {
                    &&& (#[trigger] m.0[i]).qty > 0
                    &&& acceptable(taker, ord_type, limit, m.0[i].price)
                    &&& m.0[i].taker_order_id == taker_id
                    &&& m.0[i].taker_client_id == taker_client
                }
        }),
    decreases opp.len(),
{
    let m = match_spec(opp, taker_id, taker_client, taker, ord_type, limit, remaining);
    if remaining == 0 || opp.len() == 0 || !acceptable(taker, ord_type, limit, opp[0].price) {
        assert(fills_qty(m.0) == 0);
    } else if remaining < opp[0].qty_remaining {
        assert(m.0.drop_first() =~= Seq::<Fill>::empty());
        assert(fills_qty(m.0.drop_first()) == 0);
        assert(fills_qty(m.0) == remaining);
    } else {
        let r = (remaining - opp[0].qty_remaining) as u64;
        lemma_match_fills(opp.drop_first(), taker_id, taker_client, taker, ord_type, limit, r);
        let rest = match_spec(opp.drop_first(), taker_id, taker_client, taker, ord_type, limit, r);
        assert(m.0.drop_first() =~= rest.0);
        assert(m.0[0].qty == opp[0].qty_remaining);
        assert(fills_qty(m.0) == m.0[0].qty + fills_qty(rest.0));
        assert forall|i: int| 0 <= i < m.0.len() implies {
            &&& (#[trigger] m.0[i]).qty > 0
            &&& acceptable(taker, ord_type, limit, m.0[i].price)
            &&& m.0[i].taker_order_id == taker_id
            &&& m.0[i].taker_client_id == taker_client
        } by {
            if i > 0 {
                assert(m.0[i] == rest.0[i - 1]);
            }
        }
    }
}

/// Every fill of a match is with an order of the opposite side, at that
/// order's own price: a taker trades at the resting prices, never at its
/// limit.
proof fn lemma_match_maker_prices(
    opp: Seq<RestingOrder>,
    taker_id: OrderId,
    taker_client: u64,
    taker: Side,
    ord_type: OrdType,
    limit: Price,
    remaining: Qty,
)
    ensures
        ({
            let m = match_spec(opp, taker_id, taker_client, taker, ord_type, limit, remaining);
            forall|i: int|
                0 <= i < m.0.len() ==> exists|k: int|
                    0 <= k < opp.len() && (#[trigger] opp[k]).order_id == (#[trigger] m.0[i]).maker_order_id
                        && opp[k].price == m.0[i].price
        }),
    decreases opp.len(),
{
    let m = match_spec(opp, taker_id, taker_client, taker, ord_type, limit, remaining);
    if remaining == 0 || opp.len() == 0 || !acceptable(taker, ord_type, limit, opp[0].price) {
    } else if remaining < opp[0].qty_remaining {
        assert forall|i: int| 0 <= i < m.0.len() implies exists|k: int|
            0 <= k < opp.len() && (#[trigger] opp[k]).order_id == (#[trigger] m.0[i]).maker_order_id
                && opp[k].price == m.0[i].price by {
            assert(opp[0].order_id == m.0[i].maker_order_id);
        }
    } else {
        let d = opp.drop_first();
        let r = (remaining - opp[0].qty_remaining) as u64;
        lemma_match_maker_prices(d, taker_id, taker_client, taker, ord_type, limit, r);
        let rest = match_spec(d, taker_id, taker_client, taker, ord_type, limit, r);
        assert forall|i: int| 0 <= i < m.0.len() implies exists|k: int|
            0 <= k < opp.len() && (#[trigger] opp[k]).order_id == (#[trigger] m.0[i]).maker_order_id
                && opp[k].price == m.0[i].price by {
            if i == 0 {
                assert(opp[0].order_id == m.0[0].maker_order_id);
            } else {
                assert(m.0[i] == rest.0[i - 1]);
                let k = choose|k: int|
                    0 <= k < d.len() && (#[trigger] d[k]).order_id == rest.0[i - 1].maker_order_id
                        && d[k].price == rest.0[i - 1].price;
                assert(opp[k + 1] == d[k]);
            }
        }
    }
}

/// A submission trades only with orders resting on the opposite side of
/// the book, each fill at the resting order's price.
pub proof fn lemma_submit_trades_at_resting_prices(
    v: BookView,
    order_id: OrderId,
    client_id: u64,
    side: Side,
    ord_type: OrdType,
    tif: Tif,
    limit: Price,
    qty: Qty,
)
    ensures
        ({
            let fills = submit_spec(v, order_id, client_id, side, ord_type, tif, limit, qty).2;
            let opp = v.side(side.opposite_spec());
            forall|i: int|
                0 <= i < fills.len() ==> exists|k: int|
                    0 <= k < opp.len() && (#[trigger] opp[k]).order_id == (#[trigger] fills[i]).maker_order_id
                        && opp[k].price == fills[i].price
        }),
{
    lemma_match_maker_prices(v.side(side.opposite_spec()), order_id, client_id, side, ord_type, limit, qty);
}

/// A taker that the opposite side can fill at acceptable prices is filled
/// completely, and only such a taker is.
pub proof fn lemma_match_fills_all(
    opp: Seq<RestingOrder>,
    taker_id: OrderId,
    taker_client: u64,
    taker: Side,
    ord_type: OrdType,
    limit: Price,
    remaining: Qty,
)
    requires
        forall|k: int| 0 <= k < opp.len() ==> (#[trigger] opp[k]).qty_remaining > 0,
    ensures
        match_spec(opp, taker_id, taker_client, taker, ord_type, limit, remaining).2 == 0
            <==> available(opp, taker, ord_type, limit) >= remaining,
    decreases opp.len(),
{
    lemma_available_nonneg(opp, taker, ord_type, limit);
    if remaining == 0 || opp.len() == 0 || !acceptable(taker, ord_type, limit, opp[0].price) {
    } else if remaining < opp[0].qty_remaining {
        lemma_available_nonneg(opp.drop_first(), taker, ord_type, limit);
    } else {
        lemma_match_fills_all(
            opp.drop_first(),
            taker_id,
            taker_client,
            taker,
            ord_type,
            limit,
            (remaining - opp[0].qty_remaining) as u64,
        );
    }
}

/// A fill-or-kill order either is rejected, leaving the book as it was, or
/// fills completely; it never rests and never fills in part.
pub proof fn lemma_fok_all_or_nothing(
    v: BookView,
    order_id: OrderId,
    client_id: u64,
    side: Side,
    ord_type: OrdType,
    limit: Price,
    qty: Qty,
)
    requires
        view_wf(v),
    ensures
        ({
            let r = submit_spec(v, order_id, client_id, side, ord_type, Tif::Fok, limit, qty);
            ||| r.0 == SubmitOutcome::Rejected && r.1 == v && r.2.len() == 0
            ||| r.0 == SubmitOutcome::FullyFilled && fills_qty(r.2) == qty
        }),
{
    let opp = v.side(side.opposite_spec());
    if !submit_rejected(v, order_id, side, ord_type, Tif::Fok, limit, qty) {
        assert forall|k: int| 0 <= k < opp.len() implies (#[trigger] opp[k]).qty_remaining > 0 by {
            if side == Side::Buy {
                assert(v.asks[k].qty_remaining > 0);
            } else {
                assert(v.bids[k].qty_remaining > 0);
            }
        }
        lemma_match_fills_all(opp, order_id, client_id, side, ord_type, limit, qty);
        lemma_match_fills(opp, order_id, client_id, side, ord_type, limit, qty);
    }
}

/// Every fill of a submission is at a price the order accepts, for a
/// positive quantity, and the fills add up to the quantity filled.
pub proof fn lemma_submit_fills(
    v: BookView,
    order_id: OrderId,
    client_id: u64,
    side: Side,
    ord_type: OrdType,
    tif: Tif,
    limit: Price,
    qty: Qty,
)
    requires
        view_wf(v),
    ensures
        ({
            let r = submit_spec(v, order_id, client_id, side, ord_type, tif, limit, qty);
            &&& forall|i: int|
                0 <= i < r.2.len() ==> {
                    &&& (#[trigger] r.2[i]).qty > 0
                    &&& acceptable(side, ord_type, limit, r.2[i].price)
                    &&& r.2[i].taker_order_id == order_id
                }
            &&& match r.0 {
                SubmitOutcome::FullyFilled => fills_qty(r.2) == qty,
                SubmitOutcome::PartialAndDone { filled_qty } => fills_qty(r.2) == filled_qty && 0 < filled_qty
                    < qty,
                SubmitOutcome::Resting { resting_qty, filled_qty, .. } => fills_qty(r.2)
                    == filled_qty && filled_qty + resting_qty == qty,
                SubmitOutcome::NoFill => r.2.len() == 0,
                SubmitOutcome::Rejected => r.2.len() == 0 && r.1 == v,
            }
        }),
{
    let opp = v.side(side.opposite_spec());
    if !submit_rejected(v, order_id, side, ord_type, tif, limit, qty) {
        assert forall|k: int| 0 <= k < opp.len() implies (#[trigger] opp[k]).qty_remaining > 0 by {
            if side == Side::Buy {
                assert(v.asks[k].qty_remaining > 0);
            } else {
                assert(v.bids[k].qty_remaining > 0);
            }
        }
        lemma_match_fills(opp, order_id, client_id, side, ord_type, limit, qty);
        lemma_match_remaining(opp, order_id, client_id, side, ord_type, limit, qty);
    }
}

proof fn lemma_match_front(
    opp: Seq<RestingOrder>,
    taker_id: OrderId,
    taker_client: u64,
    taker: Side,
    ord_type: OrdType,
    limit: Price,
    remaining: Qty,
)
    requires
        side_sorted(opp, taker.opposite_spec()),
    ensures
        ({
            let m = match_spec(opp, taker_id, taker_client, taker, ord_type, limit, remaining);
            &&& m.1.len() == 0 || (opp.len() > 0 && !better(
                taker.opposite_spec(),
                m.1[0].price,
                opp[0].price,
            ))
            &&& m.2 > 0 ==> m.1.len() == 0 || !acceptable(taker, ord_type, limit, m.1[0].price)
        }),
    decreases opp.len(),
{
    if remaining == 0 || opp.len() == 0 || !acceptable(taker, ord_type, limit, opp[0].price) {
    } else if remaining < opp[0].qty_remaining {
    } else {
        let d = opp.drop_first();
        assert forall|i: int, j: int| 0 <= i < j < d.len() implies !better(
            taker.opposite_spec(),
            #[trigger] d[j].price,
            #[trigger] d[i].price,
        ) by {
            assert(d[i] == opp[i + 1] && d[j] == opp[j + 1]);
        }
        lemma_match_front(
            d,
            taker_id,
            taker_client,
            taker,
            ord_type,
            limit,
            (remaining - opp[0].qty_remaining) as u64,
        );
        if d.len() > 0 {
            assert(d[0] == opp[1]);
            assert(!better(taker.opposite_spec(), opp[1].price, opp[0].price));
        }
    }
}

proof fn lemma_rest_front(s: Seq<RestingOrder>, o: RestingOrder)
    ensures
        rest_spec(s, o).len() > 0,
        rest_spec(s, o)[0] == o || (s.len() > 0 && rest_spec(s, o)[0] == s[0] && !better(
            o.side,
            o.price,
            s[0].price,
        )),
{
}

/// Submitting an order to a book whose best bid is below its best ask
/// leaves the best bid below the best ask.
pub proof fn lemma_submit_keeps_uncrossed(
    v: BookView,
    order_id: OrderId,
    client_id: u64,
    side: Side,
    ord_type: OrdType,
    tif: Tif,
    limit: Price,
    qty: Qty,
)
    requires
        view_wf(v),
        uncrossed(v),
    ensures
        uncrossed(submit_spec(v, order_id, client_id, side, ord_type, tif, limit, qty).1),
{
    let opp = v.side(side.opposite_spec());
    let own = v.side(side);
    if !submit_rejected(v, order_id, side, ord_type, tif, limit, qty) {
        lemma_match_front(opp, order_id, client_id, side, ord_type, limit, qty);
        let m = match_spec(opp, order_id, client_id, side, ord_type, limit, qty);
        if ord_type == OrdType::Limit && tif == Tif::Day && m.2 > 0 {
            let o = RestingOrder {
                order_id,
                client_id,
                side,
                price: limit,
                qty_remaining: m.2,
            };
            lemma_rest_front(own, o);
        }
    }
}

/// Cancelling an order from a book whose best bid is below its best ask
/// leaves the best bid below the best ask.
pub proof fn lemma_cancel_keeps_uncrossed(v: BookView, id: OrderId)
    requires
        view_wf(v),
        uncrossed(v),
    ensures
        uncrossed(cancel_spec(v, id).1),
{
    let r = cancel_spec(v, id).1;
    if exists|i: int| 0 <= i < v.bids.len() && #[trigger] v.bids[i].order_id == id {
        let i = choose|i: int| 0 <= i < v.bids.len() && #[trigger] v.bids[i].order_id == id;
        if r.bids.len() > 0 {
            if i == 0 {
                assert(r.bids[0] == v.bids[1]);
            } else {
                assert(r.bids[0] == v.bids[0]);
            }
        }
    } else if exists|i: int| 0 <= i < v.asks.len() && #[trigger] v.asks[i].order_id == id {
        let i = choose|i: int| 0 <= i < v.asks.len() && #[trigger] v.asks[i].order_id == id;
        if r.asks.len() > 0 {
            if i == 0 {
                assert(r.asks[0] == v.asks[1]);
            } else {
                assert(r.asks[0] == v.asks[0]);
            }
        }
    }
}

/// Every id of `a` is an id of `b`.
spec fn ids_within(a: Seq<RestingOrder>, b: Seq<RestingOrder>) -> bool {
    forall|k: int| 0 <= k < a.len() ==> ids(b).contains(#[trigger] a[k].order_id)
}

/// Matching never brings an id onto the opposite side: every order left
/// there was there before.
proof fn lemma_match_ids(
    opp: Seq<RestingOrder>,
    taker_id: OrderId,
    taker_client: u64,
    taker: Side,
    ord_type: OrdType,
    limit: Price,
    remaining: Qty,
)
    ensures
        ids_within(match_spec(opp, taker_id, taker_client, taker, ord_type, limit, remaining).1, opp),
    decreases opp.len(),
{
    let m = match_spec(opp, taker_id, taker_client, taker, ord_type, limit, remaining);
    if remaining == 0 || opp.len() == 0 || !acceptable(taker, ord_type, limit, opp[0].price) {
        assert forall|k: int| 0 <= k < m.1.len() implies ids(opp).contains(#[trigger] m.1[k].order_id) by {
            assert(ids(opp)[k] == m.1[k].order_id);
        }
    } else if remaining < opp[0].qty_remaining {
        assert forall|k: int| 0 <= k < m.1.len() implies ids(opp).contains(#[trigger] m.1[k].order_id) by {
            assert(ids(opp)[k] == m.1[k].order_id);
        }
    } else {
        let r = (remaining - opp[0].qty_remaining) as u64;
        let tail = opp.drop_first();
        lemma_match_ids(tail, taker_id, taker_client, taker, ord_type, limit, r);
        assert forall|k: int| 0 <= k < m.1.len() implies ids(opp).contains(#[trigger] m.1[k].order_id) by {
            assert(ids(tail).contains(m.1[k].order_id));
            let j = choose|j: int| 0 <= j < ids(tail).len() && ids(tail)[j] == m.1[k].order_id;
            assert(ids(opp)[j + 1] == ids(tail)[j]);
        }
    }
}

/// An order that rests after its submission can be cancelled: the cancel
/// removes exactly the quantity it rested with, and puts the order's own
/// side back as it was before the submission.
pub proof fn lemma_rest_then_cancel(
    v: BookView,
    order_id: OrderId,
    client_id: u64,
    side: Side,
    ord_type: OrdType,
    tif: Tif,
    limit: Price,
    qty: Qty,
)
    ensures
        ({
            let r = submit_spec(v, order_id, client_id, side, ord_type, tif, limit, qty);
            r.0 matches SubmitOutcome::Resting { resting_qty, .. } ==> {
                &&& cancel_spec(r.1, order_id).0 == resting_qty
                &&& cancel_spec(r.1, order_id).1 == r.1.with_side(side, v.side(side))
            }
        }),
{
    let r = submit_spec(v, order_id, client_id, side, ord_type, tif, limit, qty);
    if r.0 is Resting {
        let opp = v.side(side.opposite_spec());
        let own = v.side(side);
        let m = match_spec(opp, order_id, client_id, side, ord_type, limit, qty);
        let o = RestingOrder { order_id, client_id, side, price: limit, qty_remaining: m.2 };
        lemma_rest_spec_insert(own, o);
        lemma_match_ids(opp, order_id, client_id, side, ord_type, limit, qty);
        let p = rest_pos(own, o);
        let placed = own.insert(p, o);
        assert(!v.contains_id(order_id));
        assert forall|k: int| 0 <= k < own.len() implies (#[trigger] own[k]).order_id != order_id by {
            if side == Side::Buy {
                assert(v.all()[k] == own[k]);
            } else {
                assert(v.all()[v.bids.len() + k] == own[k]);
            }
        }
        assert forall|k: int| 0 <= k < opp.len() implies (#[trigger] opp[k]).order_id != order_id by {
            if side == Side::Buy {
                assert(v.all()[v.bids.len() + k] == opp[k]);
            } else {
                assert(v.all()[k] == opp[k]);
            }
        }
        assert forall|k: int| 0 <= k < m.1.len() implies (#[trigger] m.1[k]).order_id != order_id by {
            assert(ids(opp).contains(m.1[k].order_id));
            let j = choose|j: int| 0 <= j < ids(opp).len() && ids(opp)[j] == m.1[k].order_id;
            assert(opp[j].order_id == ids(opp)[j]);
        }
        assert(placed[p] == o);
        assert forall|k: int| 0 <= k < placed.len() && #[trigger] placed[k].order_id == order_id implies k
            == p by {
            if k < p {
                assert(placed[k] == own[k]);
            } else if k > p {
                assert(placed[k] == own[k - 1]);
            }
        }
        if side == Side::Buy {
            assert(r.1.bids == placed);
            assert(r.1.bids[p].order_id == order_id);
            let i = choose|i: int| 0 <= i < r.1.bids.len() && #[trigger] r.1.bids[i].order_id == order_id;
            assert(i == p);
            assert(placed.remove(p) =~= own);
        } else {
            assert(r.1.bids == m.1);
            assert(r.1.asks == placed);
            assert(!exists|i: int| 0 <= i < r.1.bids.len() && #[trigger] r.1.bids[i].order_id == order_id);
            assert(r.1.asks[p].order_id == order_id);
            let i = choose|i: int| 0 <= i < r.1.asks.len() && #[trigger] r.1.asks[i].order_id == order_id;
            assert(i == p);
            assert(placed.remove(p) =~= own);
        }
    }
}

/// Matching that fills nothing leaves the opposite side as it was.
proof fn lemma_match_untouched(
    opp: Seq<RestingOrder>,
    taker_id: OrderId,
    taker_client: u64,
    taker: Side,
    ord_type: OrdType,
    limit: Price,
    remaining: Qty,
)
    requires
        forall|k: int| 0 <= k < opp.len() ==> (#[trigger] opp[k]).qty_remaining > 0,
        match_spec(opp, taker_id, taker_client, taker, ord_type, limit, remaining).2 == remaining,
    ensures
        match_spec(opp, taker_id, taker_client, taker, ord_type, limit, remaining).1 == opp,
{
    if !(remaining == 0 || opp.len() == 0 || !acceptable(taker, ord_type, limit, opp[0].price)) {
        if remaining >= opp[0].qty_remaining {
            let d = opp.drop_first();
            assert forall|k: int| 0 <= k < d.len() implies (#[trigger] d[k]).qty_remaining > 0 by {
                assert(d[k] == opp[k + 1]);
            }
            lemma_match_remaining(
                d,
                taker_id,
                taker_client,
                taker,
                ord_type,
                limit,
                (remaining - opp[0].qty_remaining) as u64,
            );
            assert(opp[0].qty_remaining > 0);
        }
    }
}

/// Resting an order that crosses nothing and then cancelling it gives the
/// book back exactly as it was, and the cancel removes the whole order.
pub proof fn lemma_rest_cancel_restores(
    v: BookView,
    order_id: OrderId,
    client_id: u64,
    side: Side,
    ord_type: OrdType,
    tif: Tif,
    limit: Price,
    qty: Qty,
)
    requires
        view_wf(v),
    ensures
        ({
            let r = submit_spec(v, order_id, client_id, side, ord_type, tif, limit, qty);
            r.0 matches SubmitOutcome::Resting { filled_qty, .. } && filled_qty == 0 ==> cancel_spec(
                r.1,
                order_id,
            ) == (qty, v)
        }),
{
    let r = submit_spec(v, order_id, client_id, side, ord_type, tif, limit, qty);
    lemma_rest_then_cancel(v, order_id, client_id, side, ord_type, tif, limit, qty);
    lemma_submit_fills(v, order_id, client_id, side, ord_type, tif, limit, qty);
    if let SubmitOutcome::Resting { filled_qty, .. } = r.0 {
        if filled_qty == 0 {
            let opp = v.side(side.opposite_spec());
            assert forall|k: int| 0 <= k < opp.len() implies (#[trigger] opp[k]).qty_remaining > 0 by {
                if side == Side::Buy {
                    assert(v.asks[k].qty_remaining > 0);
                } else {
                    assert(v.bids[k].qty_remaining > 0);
                }
            }
            lemma_match_untouched(opp, order_id, client_id, side, ord_type, limit, qty);
            assert(cancel_spec(r.1, order_id).1 =~= v);
        }
    }
}

/// An accepted submission that does not rest leaves no order of its id in
/// the book: cancelling that id afterwards removes nothing.
pub proof fn lemma_submit_not_resting_absent(
    v: BookView,
    order_id: OrderId,
    client_id: u64,
    side: Side,
    ord_type: OrdType,
    tif: Tif,
    limit: Price,
    qty: Qty,
)
    ensures
        ({
            let r = submit_spec(v, order_id, client_id, side, ord_type, tif, limit, qty);
            r.0 != SubmitOutcome::Rejected && !(r.0 is Resting) ==> cancel_spec(r.1, order_id).0 == 0
        }),
{
    let r = submit_spec(v, order_id, client_id, side, ord_type, tif, limit, qty);
    if r.0 != SubmitOutcome::Rejected && !(r.0 is Resting) {
        let opp = v.side(side.opposite_spec());
        let own = v.side(side);
        let m = match_spec(opp, order_id, client_id, side, ord_type, limit, qty);
        lemma_match_ids(opp, order_id, client_id, side, ord_type, limit, qty);
        assert(!v.contains_id(order_id));
        assert forall|k: int| 0 <= k < own.len() implies (#[trigger] own[k]).order_id != order_id by {
            if side == Side::Buy {
                assert(v.all()[k] == own[k]);
            } else {
                assert(v.all()[v.bids.len() + k] == own[k]);
            }
        }
        assert forall|k: int| 0 <= k < opp.len() implies (#[trigger] opp[k]).order_id != order_id by {
            if side == Side::Buy {
                assert(v.all()[v.bids.len() + k] == opp[k]);
            } else {
                assert(v.all()[k] == opp[k]);
            }
        }
        assert forall|k: int| 0 <= k < m.1.len() implies (#[trigger] m.1[k]).order_id != order_id by {
            assert(ids(opp).contains(m.1[k].order_id));
            let j = choose|j: int| 0 <= j < ids(opp).len() && ids(opp)[j] == m.1[k].order_id;
            assert(opp[j].order_id == ids(opp)[j]);
        }
        if side == Side::Buy {
            assert(r.1.bids == own && r.1.asks == m.1);
        } else {
            assert(r.1.bids == m.1 && r.1.asks == own);
        }
    }
}

/// A cancelled order is gone: cancelling it again removes nothing.
pub proof fn lemma_cancel_twice(v: BookView, id: OrderId)
    requires
        view_wf(v),
    ensures
        cancel_spec(cancel_spec(v, id).1, id).0 == 0,
{
    let all = v.all();
    let nb = v.bids.len();
    let w = cancel_spec(v, id).1;
    if exists|i: int| 0 <= i < v.bids.len() && #[trigger] v.bids[i].order_id == id {
        let i = choose|i: int| 0 <= i < v.bids.len() && #[trigger] v.bids[i].order_id == id;
        assert(ids(all)[i] == id);
        assert forall|k: int| 0 <= k < w.bids.len() implies (#[trigger] w.bids[k]).order_id != id by {
            let j = if k < i { k } else { k + 1 };
            assert(w.bids[k] == v.bids[j]);
            assert(ids(all)[j] == v.bids[j].order_id);
        }
        assert forall|k: int| 0 <= k < w.asks.len() implies (#[trigger] w.asks[k]).order_id != id by {
            assert(ids(all)[nb + k] == v.asks[k].order_id);
        }
    } else if exists|i: int| 0 <= i < v.asks.len() && #[trigger] v.asks[i].order_id == id {
        let i = choose|i: int| 0 <= i < v.asks.len() && #[trigger] v.asks[i].order_id == id;
        assert(ids(all)[nb + i] == id);
        assert forall|k: int| 0 <= k < w.asks.len() implies (#[trigger] w.asks[k]).order_id != id by {
            let j = if k < i { k } else { k + 1 };
            assert(w.asks[k] == v.asks[j]);
            assert(ids(all)[nb + j] == v.asks[j].order_id);
        }
    }
}

} // verus!
