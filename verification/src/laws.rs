//! The engine's laws: properties that hold of every store, stated over the
//! same spec-level transitions that the operations' contracts use, and
//! proved once and for all.  Durability and log-compaction laws live with
//! the engine itself, next to its log invariant.

use vstd::prelude::*;

verus! {

use crate::codec::EntryModel;
use crate::clients::{spec_set_many, spec_collect};
use crate::db::{entry_model, spec_set, spec_get, spec_update};
use crate::expiry::{spec_effective_expiry, spec_saturating_add, spec_sweep, live};

/// Round trip: setting a key without any time-to-live (explicit or default)
/// and then getting it returns exactly the stored value, at any later time.
pub proof fn lemma_set_then_get(
    m: Map<Seq<char>, EntryModel>,
    k: Seq<char>,
    v: Seq<u8>,
    now: u64,
    later: u64,
)
    ensures
        spec_get(spec_set(m, k, v, None, None, now), k, later) == Some(v),
{
}

/// Overwrite: setting a key twice leaves the second value, and only it, to
/// be read back.
pub proof fn lemma_overwrite(
    m: Map<Seq<char>, EntryModel>,
    k: Seq<char>,
    v1: Seq<u8>,
    v2: Seq<u8>,
    n1: u64,
    n2: u64,
    later: u64,
)
    ensures
        spec_get(spec_set(spec_set(m, k, v1, None, None, n1), k, v2, None, None, n2), k, later)
            == Some(v2),
        spec_set(spec_set(m, k, v1, None, None, n1), k, v2, None, None, n2) == spec_set(
            m,
            k,
            v2,
            None,
            None,
            n2,
        ),
{
    assert(spec_set(spec_set(m, k, v1, None, None, n1), k, v2, None, None, n2) =~= spec_set(
        m,
        k,
        v2,
        None,
        None,
        n2,
    ));
}

/// Delete idempotence: deleting an absent key changes nothing, and after
/// deleting a key that was set, getting it finds nothing.
pub proof fn lemma_delete_idempotent(
    m: Map<Seq<char>, EntryModel>,
    k: Seq<char>,
    v: Seq<u8>,
    now: u64,
    later: u64,
)
    ensures
        !m.contains_key(k) ==> m.remove(k) == m,
        spec_get(spec_set(m, k, v, None, None, now).remove(k), k, later) is None,
        m.remove(k).remove(k) == m.remove(k),
{
    if !m.contains_key(k) {
        assert(m.remove(k) =~= m);
    }
    assert(m.remove(k).remove(k) =~= m.remove(k));
}

/// Expiry: an entry set with an explicit time-to-live is gone as soon as
/// that much time has passed — a get finds nothing, and after a sweep the
/// key has no entry at all, so it cannot appear among the listed keys.
pub proof fn lemma_ttl_expiry(
    m: Map<Seq<char>, EntryModel>,
    k: Seq<char>,
    v: Seq<u8>,
    ttl: u64,
    default_ttl: Option<u64>,
    now: u64,
    later: u64,
)
    requires
        later >= spec_saturating_add(now, ttl),
    ensures
        spec_get(spec_set(m, k, v, Some(ttl), default_ttl, now), k, later) is None,
        !spec_sweep(spec_set(m, k, v, Some(ttl), default_ttl, now), later).contains_key(k),
{
    let m2 = spec_set(m, k, v, Some(ttl), default_ttl, now);
    assert(m2[k].expires_at == Some(spec_saturating_add(now, ttl)));
    assert(!live(m2[k], later));
}

/// Update without upsert on a missing key: nothing changes, and the key
/// still has no value.
pub proof fn lemma_update_missing_key(
    m: Map<Seq<char>, EntryModel>,
    k: Seq<char>,
    v: Seq<u8>,
    ttl: Option<u64>,
    default_ttl: Option<u64>,
    now: u64,
    later: u64,
)
    requires
        !m.contains_key(k),
    ensures
        spec_update(m, k, v, ttl, default_ttl, None, now) == m,
        spec_get(spec_update(m, k, v, ttl, default_ttl, None, now), k, later) is None,
{
}

/// A key set later in a batch does not disturb the entries of other keys.
proof fn lemma_set_many_other(
    m: Map<Seq<char>, EntryModel>,
    keys: Seq<Seq<char>>,
    values: Seq<Seq<u8>>,
    k: Seq<char>,
)
    requires
        forall|i: int| 0 <= i < keys.len() ==> keys[i] != k,
    ensures
        spec_set_many(m, keys, values).contains_key(k) == m.contains_key(k),
        m.contains_key(k) ==> spec_set_many(m, keys, values)[k] == m[k],
    decreases keys.len(),
{
    if keys.len() == 0 || values.len() == 0 {
    } else {
        let m1 = m.insert(keys[0], entry_model(keys[0], values[0], None));
        lemma_set_many_other(m1, keys.drop_first(), values.drop_first(), k);
    }
}

/// Batch application: setting several distinct keys and then getting the
/// same keys returns the same values, in the same order as requested.
pub proof fn lemma_batch_round_trip(
    m: Map<Seq<char>, EntryModel>,
    keys: Seq<Seq<char>>,
    values: Seq<Seq<u8>>,
)
    requires
        keys.len() == values.len(),
        forall|i: int, j: int| 0 <= i < j < keys.len() ==> keys[i] != keys[j],
    ensures
        spec_collect(spec_set_many(m, keys, values), keys) == values,
    decreases keys.len(),
{
    if keys.len() == 0 {
        assert(spec_collect(spec_set_many(m, keys, values), keys) =~= values);
    } else {
        let m1 = m.insert(keys[0], entry_model(keys[0], values[0], None));
        let mfin = spec_set_many(m1, keys.drop_first(), values.drop_first());
        lemma_batch_round_trip(m1, keys.drop_first(), values.drop_first());
        assert forall|i: int| 0 <= i < keys.drop_first().len() implies keys.drop_first()[i]
            != keys[0] by {
            assert(keys.drop_first()[i] == keys[i + 1]);
        }
        lemma_set_many_other(m1, keys.drop_first(), values.drop_first(), keys[0]);
        assert(mfin.contains_key(keys[0]) && mfin[keys[0]] == m1[keys[0]]);
        assert(spec_collect(mfin, keys) == seq![mfin[keys[0]].data] + spec_collect(
            mfin,
            keys.drop_first(),
        ));
        assert(seq![values[0]] + values.drop_first() =~= values);
    }
}

/// Purge: after clearing the store, nothing can be read and nothing is
/// listed; and since the engine's purge also empties the log, a restart
/// from that log yields an empty engine again.
pub proof fn lemma_purge(k: Seq<char>, now: u64)
    ensures
        spec_get(Map::<Seq<char>, EntryModel>::empty(), k, now) is None,
        Map::<Seq<char>, EntryModel>::empty().dom().len() == 0,
        crate::codec::parse_stream(Seq::<u8>::empty()) == Some(Seq::<EntryModel>::empty()),
        crate::codec::replay(Seq::<EntryModel>::empty()) == Map::<Seq<char>, EntryModel>::empty(),
{
    assert(Map::<Seq<char>, EntryModel>::empty().dom() =~= Set::<Seq<char>>::empty());
}

/// A get never misses a live entry: if the key holds an entry that has not
/// expired at `now`, the value comes back.
pub proof fn lemma_get_live(m: Map<Seq<char>, EntryModel>, k: Seq<char>, now: u64)
    requires
        m.contains_key(k),
        live(m[k], now),
    ensures
        spec_get(m, k, now) == Some(m[k].data),
{
}

/// The effective expiry honors the precedence the configuration promises:
/// an explicit time-to-live always wins over the default, and with neither
/// the entry never expires.
pub proof fn lemma_effective_expiry_precedence(
    ttl: u64,
    default_ttl: Option<u64>,
    now: u64,
)
    ensures
        spec_effective_expiry(Some(ttl), default_ttl, now) == Some(
            spec_saturating_add(now, ttl),
        ),
        spec_effective_expiry(None, None, now) is None,
        default_ttl is Some ==> spec_effective_expiry(None, default_ttl, now) == Some(
            spec_saturating_add(now, default_ttl->0),
        ),
{
}

} // verus!
