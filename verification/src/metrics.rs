//! Engine counters.
//!
//! The engine is the only writer, so the counters are plain integers that
//! wrap around like the atomic counters they stand for. Latency percentiles
//! come from a histogram kept by the application and are joined in when a
//! snapshot is taken.

use vstd::prelude::*;

verus! {

/// Counters of what the engine has processed.
#[derive(Debug)]
pub struct EngineMetrics {
    orders_total: u64,
    fills_total: u64,
    market_data_total: u64,
    wal_dropped_total: u64,
}

/// The counters as plain values: orders, fills, market-data events and
/// journal records dropped.
pub struct Counters {
    pub orders: u64,
    pub fills: u64,
    pub market_data: u64,
    pub wal_dropped: u64,
}

/// A point-in-time copy of the counters and the latency percentiles.
#[derive(Debug, Clone, Copy)]
pub struct MetricsSnapshot {
    pub orders_total: u64,
    pub fills_total: u64,
    pub market_data_total: u64,
    pub wal_dropped_total: u64,
    pub p50_ns: u64,
    pub p99_ns: u64,
    pub p999_ns: u64,
    pub max_ns: u64,
    pub samples: u64,
}

/// The counters after one order that filled `filled` units in `fills` fills.
pub open spec fn after_order(c: Counters, filled: u64, fills: u64) -> Counters {
    Counters {
        orders: c.orders.wrapping_add(1),
        fills: if filled > 0 {
            c.fills.wrapping_add(fills)
        } else {
            c.fills
        },
        market_data: c.market_data,
        wal_dropped: c.wal_dropped,
    }
}

impl EngineMetrics {
    pub closed spec fn counters(&self) -> Counters {
        Counters {
            orders: self.orders_total,
            fills: self.fills_total,
            market_data: self.market_data_total,
            wal_dropped: self.wal_dropped_total,
        }
    }

    pub fn new() -> (m: Self)
        ensures
            m.counters() == (Counters { orders: 0, fills: 0, market_data: 0, wal_dropped: 0 }),
    {
        EngineMetrics { orders_total: 0, fills_total: 0, market_data_total: 0, wal_dropped_total: 0 }
    }

    /// Count one processed order; its fills count only if it filled.
    pub fn record_order(&mut self, filled: u64, fills: usize)
        ensures
            final(self).counters() == after_order(old(self).counters(), filled, fills as u64),
    {
        self.orders_total = self.orders_total.wrapping_add(1);
        if filled > 0 {
            self.fills_total = self.fills_total.wrapping_add(fills as u64);
        }
    }

    pub fn record_market_data(&mut self)
        ensures
            final(self).counters() == (Counters {
                market_data: old(self).counters().market_data.wrapping_add(1),
                ..old(self).counters()
            }),
    {
        self.market_data_total = self.market_data_total.wrapping_add(1);
    }

    pub fn record_wal_dropped(&mut self)
        ensures
            final(self).counters() == (Counters {
                wal_dropped: old(self).counters().wal_dropped.wrapping_add(1),
                ..old(self).counters()
            }),
    {
        self.wal_dropped_total = self.wal_dropped_total.wrapping_add(1);
    }

    /// The latency sample to record for an order that took `nanos`
    /// nanoseconds: saturated to 64 bits, and none for a zero duration.
    pub fn latency_sample(nanos: u128) -> (r: Option<u64>)
        ensures
            r == (if nanos == 0 {
                None
            } else if nanos > u64::MAX {
                Some(u64::MAX)
            } else {
                Some(nanos as u64)
            }),
    {
        if nanos == 0 {
            None
        } else if nanos > u64::MAX as u128 {
            Some(u64::MAX)
        } else {
            Some(nanos as u64)
        }
    }

    /// The counters joined with latency percentiles read from a histogram.
    pub fn snapshot(
        &self,
        p50_ns: u64,
        p99_ns: u64,
        p999_ns: u64,
        max_ns: u64,
        samples: u64,
    ) -> (s: MetricsSnapshot)
        ensures
            s == (MetricsSnapshot {
                orders_total: self.counters().orders,
                fills_total: self.counters().fills,
                market_data_total: self.counters().market_data,
                wal_dropped_total: self.counters().wal_dropped,
                p50_ns,
                p99_ns,
                p999_ns,
                max_ns,
                samples,
            }),
    {
        MetricsSnapshot {
            orders_total: self.orders_total,
            fills_total: self.fills_total,
            market_data_total: self.market_data_total,
            wal_dropped_total: self.wal_dropped_total,
            p50_ns,
            p99_ns,
            p999_ns,
            max_ns,
            samples,
        }
    }
}

impl Default for EngineMetrics {
    fn default() -> (m: Self)
        ensures
            m.counters() == (Counters { orders: 0, fills: 0, market_data: 0, wal_dropped: 0 }),
    {
        Self::new()
    }
}

} // verus!
