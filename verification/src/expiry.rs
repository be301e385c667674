//! The expiration manager's arithmetic: computing the effective expiry
//! timestamp of a write, and deciding whether an entry is still live at a
//! given time.  Times are milliseconds since the Unix epoch; durations are
//! milliseconds.

use vstd::prelude::*;

verus! {

use crate::codec::EntryModel;

/// The effective expiry of a write made at `now`: an explicit time-to-live
/// always wins, else the engine's configured default applies, else the entry
/// never expires.  The addition saturates at the largest representable time.
pub open spec fn spec_effective_expiry(ttl: Option<u64>, default_ttl: Option<u64>, now: u64) -> Option<u64> {
    match ttl {
        Some(d) => Some(spec_saturating_add(now, d)),
        None => match default_ttl {
            Some(d) => Some(spec_saturating_add(now, d)),
            None => None,
        },
    }
}

pub open spec fn spec_saturating_add(a: u64, b: u64) -> u64 {
    if a + b > u64::MAX {
        u64::MAX
    } else {
        (a + b) as u64
    }
}

/// Whether an entry is still live at time `now`: entries expire as soon as
/// their expiry timestamp is reached.
pub open spec fn live(e: EntryModel, now: u64) -> bool {
    match e.expires_at {
        None => true,
        Some(t) => t > now,
    }
}

/// The map after evicting every entry that is expired at `now`.
pub open spec fn spec_sweep(m: Map<Seq<char>, EntryModel>, now: u64) -> Map<Seq<char>, EntryModel> {
    Map::new(|k: Seq<char>| m.contains_key(k) && live(m[k], now), |k: Seq<char>| m[k])
}

/// Computes the effective expiry of a write made at `now`.
pub fn effective_expiry(ttl: Option<u64>, default_ttl: Option<u64>, now: u64) -> (r: Option<u64>)
    ensures
        r == spec_effective_expiry(ttl, default_ttl, now),
{
    match ttl {
        Some(d) => Some(saturating_add(now, d)),
        None => match default_ttl {
            Some(d) => Some(saturating_add(now, d)),
            None => None,
        },
    }
}

fn saturating_add(a: u64, b: u64) -> (r: u64)
    ensures
        r == spec_saturating_add(a, b),
{
    if a <= u64::MAX - b {
        a + b
    } else {
        u64::MAX
    }
}

} // verus!
