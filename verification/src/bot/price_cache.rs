//! Last-known price per symbol, for the paper engine. The market-data
//! consumer writes into it and the paper engine reads from it; a reading
//! older than the caller's limit counts as no reading. The application
//! shares one cache between them behind a lock.

use std::collections::HashMap;
use std::time::{Duration, Instant};

use vstd::prelude::*;

use crate::clock::{duration_nanos, elapsed_since, monotonic_now};

verus! {

broadcast use vstd::std_specs::hash::group_hash_axioms;

/// Most recently observed price of a symbol.
#[derive(Debug, Clone, Copy)]
pub struct PriceObservation {
    /// Fixed-point price, at the matching engine's scale.
    pub price_ticks: i64,
    pub observed_at: Instant,
}

/// An observation of age `age_ns`, kept when that age is at most
/// `max_age_ns` nanoseconds.
pub fn fresh(obs: PriceObservation, age_ns: u128, max_age_ns: u128) -> (r: Option<PriceObservation>)
    ensures
        r == (if age_ns <= max_age_ns {
            Some(obs)
        } else {
            None
        }),
{
    if age_ns <= max_age_ns {
        Some(obs)
    } else {
        None
    }
}

pub struct PriceCache {
    by_symbol: HashMap<u32, PriceObservation>,
}

impl PriceCache {
    /// The observations held, by symbol.
    pub closed spec fn view(&self) -> Map<u32, PriceObservation> {
        self.by_symbol@
    }

    pub fn new() -> (c: Self)
        ensures
            c.view() == Map::<u32, PriceObservation>::empty(),
    {
        PriceCache { by_symbol: HashMap::new() }
    }

    /// Record a price for `symbol_id`, observed now; it replaces the
    /// previous observation of that symbol.
    pub fn update(&mut self, symbol_id: u32, price_ticks: i64)
        ensures
            final(self).view().dom() == old(self).view().dom().insert(symbol_id),
            final(self).view()[symbol_id].price_ticks == price_ticks,
            forall|s: u32| s != symbol_id && #[trigger] old(self).view().contains_key(s) ==>
                final(self).view()[s] == old(self).view()[s],
    {
        let observed_at = monotonic_now();
        self.by_symbol.insert(symbol_id, PriceObservation { price_ticks, observed_at });
    }

    /// The latest price of `symbol_id` if it was observed within
    /// `max_age`; `None` means no fresh price. A symbol never observed has
    /// none. For a held one, the time since it was observed is read from
    /// the clock and, with `max_age`, handed to `fresh`, which decides;
    /// a returned observation is the one held.
    pub fn get(&self, symbol_id: u32, max_age: Duration) -> (r: Option<PriceObservation>)
        ensures
            !self.view().contains_key(symbol_id) ==> r.is_none(),
            r matches Some(o) ==> self.view().contains_key(symbol_id) && o == self.view()[symbol_id],
    {
        match self.by_symbol.get(&symbol_id) {
            None => None,
            Some(obs) => {
                let obs = *obs;
                let age_ns = duration_nanos(&elapsed_since(&obs.observed_at));
                let max_age_ns = duration_nanos(&max_age);
                fresh(obs, age_ns, max_age_ns)
            },
        }
    }
}

} // verus!
