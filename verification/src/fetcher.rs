//! The serve-from-cache-or-fetch decision.
//!
//! The surrounding program hands the stored cache text in and performs the
//! network call only when the plan says so; the decision itself, and what a
//! successful refresh must persist, are decided and proved here.

use vstd::prelude::*;
use crate::cache::{cache_serves, load_from_cache, opt_chars_view};
use crate::item::Item;

verus! {

/// What a fetch must do, given the state of the cache.
pub enum FetchPlan {
    /// A fresh snapshot is there: serve these items and make no network
    /// call.
    UseCache(Vec<Item>),
    /// No fresh snapshot: call the network, then save a new snapshot.
    FetchNetwork,
}

/// Decides between cache and network.  The plan is `UseCache` with exactly
/// the snapshot's items whenever a fresh, readable snapshot is there, and
/// `FetchNetwork` exactly otherwise — so no network call happens on a
/// fresh cache.
pub fn plan_fetch(cache_text: Option<&Vec<char>>, now: u64, ttl: u64) -> (r: FetchPlan)
    ensures
        match r {
            FetchPlan::UseCache(items) => cache_serves(opt_chars_view(cache_text), now, ttl)
                == Some(items.deep_view()),
            FetchPlan::FetchNetwork => cache_serves(opt_chars_view(cache_text), now, ttl)
                is None,
        },
{
    match load_from_cache(cache_text, now, ttl) {
        Ok(items) => FetchPlan::UseCache(items),
        Err(_) => FetchPlan::FetchNetwork,
    }
}

} // verus!
