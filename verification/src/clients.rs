//! The client surface: one trait that every front-end client of the engine
//! exposes, and the memory-runtime client, which holds the whole store in
//! memory and needs no file at all.  Disk-backed front ends live in the
//! application around the engine, where the file I/O is.

use vstd::prelude::*;

verus! {

use crate::codec::EntryModel;
use crate::config::{ClientConfig, DatabaseConfiguration, RunTime, RuntTimeType};
use crate::db::{Database, entry_model, spec_set, spec_update, holds_value};
use crate::error::QuickKVError;
use crate::expiry::spec_sweep;

/// The key sequences of a slice of key slices.
pub open spec fn deep_keys(keys: Seq<&str>) -> Seq<Seq<char>> {
    keys.map_values(|s: &str| s@)
}

/// The byte sequences of a slice of values.
pub open spec fn deep_values(values: Seq<Vec<u8>>) -> Seq<Seq<u8>> {
    values.map_values(|v: Vec<u8>| v@)
}

/// No entry of the map carries an expiry.
pub open spec fn no_expiry(m: Map<Seq<char>, EntryModel>) -> bool {
    forall|k: Seq<char>| #[trigger] m.contains_key(k) ==> m[k].expires_at is None
}

/// Setting each key to the paired value in order, without expiry; the
/// shorter of the two lists bounds the work, as with a zip.
pub open spec fn spec_set_many(
    m: Map<Seq<char>, EntryModel>,
    keys: Seq<Seq<char>>,
    values: Seq<Seq<u8>>,
) -> Map<Seq<char>, EntryModel>
    decreases keys.len(),
{
    if keys.len() == 0 || values.len() == 0 {
        m
    } else {
        spec_set_many(
            m.insert(keys[0], entry_model(keys[0], values[0], None)),
            keys.drop_first(),
            values.drop_first(),
        )
    }
}

/// Removing each key in order.
pub open spec fn spec_remove_many(m: Map<Seq<char>, EntryModel>, keys: Seq<Seq<char>>) -> Map<
    Seq<char>,
    EntryModel,
>
    decreases keys.len(),
{
    if keys.len() == 0 {
        m
    } else {
        spec_remove_many(m.remove(keys[0]), keys.drop_first())
    }
}

/// Updating each key to the paired value in order, without expiry: present
/// keys are replaced, absent keys are set only when upsert is enabled.
pub open spec fn spec_update_many(
    m: Map<Seq<char>, EntryModel>,
    keys: Seq<Seq<char>>,
    values: Seq<Seq<u8>>,
    upsert: Option<bool>,
) -> Map<Seq<char>, EntryModel>
    decreases keys.len(),
{
    if keys.len() == 0 || values.len() == 0 {
        m
    } else {
        spec_update_many(
            spec_update(m, keys[0], values[0], None, None, upsert, 0),
            keys.drop_first(),
            values.drop_first(),
            upsert,
        )
    }
}

/// The values found for the requested keys, in request order, skipping
/// absent keys.
pub open spec fn spec_collect(m: Map<Seq<char>, EntryModel>, keys: Seq<Seq<char>>) -> Seq<Seq<u8>>
    decreases keys.len(),
{
    if keys.len() == 0 {
        Seq::empty()
    } else {
        (if m.contains_key(keys[0]) {
            seq![m[keys[0]].data]
        } else {
            Seq::empty()
        }) + spec_collect(m, keys.drop_first())
    }
}

/// What every front-end client of the engine exposes.  Values are opaque
/// serialized payloads; a typed front end around the library serializes its
/// schema type to bytes before calling in.
pub trait BaseClient: Sized {
    /// The client's internal consistency invariant.
    spec fn inv(&self) -> bool;

    /// The mapping from key to current entry the client holds.
    spec fn model(&self) -> Map<Seq<char>, EntryModel>;

    /// The configured default time-to-live.
    spec fn model_default_ttl(&self) -> Option<u64>;

    /// Creates a new instance of the client with empty state.
    fn new(config: ClientConfig) -> (c: Self)
        ensures
            c.inv(),
            c.model() == Map::<Seq<char>, EntryModel>::empty(),
            c.model_default_ttl() == config.default_ttl,
    ;

    /// Get the value associated with a key; `None` if the key was never
    /// set, or has expired.  An entry found expired is evicted first.
    fn get(&mut self, key: &str) -> (r: Result<Option<Vec<u8>>, QuickKVError>)
        requires
            old(self).inv(),
        ensures
            final(self).inv(),
            final(self).model_default_ttl() == old(self).model_default_ttl(),
            r is Ok,
            !old(self).model().contains_key(key@) ==> r->Ok_0 is None && final(self).model()
                == old(self).model(),
            old(self).model().contains_key(key@) && old(self).model()[key@].expires_at is None
                ==> r->Ok_0 is Some && final(self).model() == old(self).model(),
            old(self).model().contains_key(key@) ==> (r->Ok_0 is Some ==> r->Ok_0->0@ == old(
                self,
            ).model()[key@].data && final(self).model() == old(self).model()) && (r->Ok_0 is None
                ==> final(self).model() == old(self).model().remove(key@)),
    ;

    /// Set the value associated with a key, overwriting any existing value.
    fn set(&mut self, key: &str, value: Vec<u8>) -> (r: Result<(), QuickKVError>)
        requires
            old(self).inv(),
        ensures
            final(self).inv(),
            final(self).model_default_ttl() == old(self).model_default_ttl(),
            r is Ok,
            old(self).model_default_ttl() is None ==> final(self).model() == old(
                self,
            ).model().insert(key@, entry_model(key@, value@, None)),
            exists|now: u64|
                final(self).model() == spec_set(
                    old(self).model(),
                    key@,
                    value@,
                    None,
                    old(self).model_default_ttl(),
                    now,
                ),
    ;

    /// Update the value associated with a key: a no-op success when the key
    /// is absent, unless `upsert` is enabled, in which case it behaves as
    /// `set`.
    fn update(&mut self, key: &str, value: Vec<u8>, upsert: Option<bool>) -> (r: Result<
        (),
        QuickKVError,
    >)
        requires
            old(self).inv(),
        ensures
            final(self).inv(),
            final(self).model_default_ttl() == old(self).model_default_ttl(),
            r is Ok,
            !old(self).model().contains_key(key@) && upsert != Some(true) ==> final(self).model()
                == old(self).model(),
            old(self).model_default_ttl() is None ==> final(self).model() == spec_update(
                old(self).model(),
                key@,
                value@,
                None,
                None,
                upsert,
                0,
            ),
            exists|now: u64|
                final(self).model() == spec_update(
                    old(self).model(),
                    key@,
                    value@,
                    None,
                    old(self).model_default_ttl(),
                    upsert,
                    now,
                ),
    ;

    /// Delete the value associated with a key; absent keys are a no-op.
    fn delete(&mut self, key: &str) -> (r: Result<(), QuickKVError>)
        requires
            old(self).inv(),
        ensures
            final(self).inv(),
            final(self).model_default_ttl() == old(self).model_default_ttl(),
            r is Ok,
            final(self).model() == old(self).model().remove(key@),
    ;

    /// Check whether a key currently has an entry.
    fn exists_key(&mut self, key: &str) -> (r: Result<bool, QuickKVError>)
        requires
            old(self).inv(),
        ensures
            final(self).inv(),
            *final(self) == *old(self),
            r is Ok,
            r->Ok_0 == old(self).model().contains_key(key@),
    ;

    /// All keys in the store, or `None` when it is empty.  Expired entries
    /// are swept first.
    fn keys(&mut self) -> (r: Result<Option<Vec<String>>, QuickKVError>)
        requires
            old(self).inv(),
        ensures
            final(self).inv(),
            final(self).model_default_ttl() == old(self).model_default_ttl(),
            r is Ok,
            exists|now: u64| final(self).model() == spec_sweep(old(self).model(), now),
            final(self).model().dom().finite(),
            r->Ok_0 is None <==> final(self).model().dom().len() == 0,
            r->Ok_0 is Some ==> r->Ok_0->0@.len() == final(self).model().dom().len(),
            r->Ok_0 is Some ==> forall|i: int|
                0 <= i < r->Ok_0->0@.len() ==> final(self).model().contains_key(
                    (#[trigger] r->Ok_0->0@[i])@,
                ),
            r->Ok_0 is Some ==> forall|i: int, j: int|
                0 <= i < j < r->Ok_0->0@.len() ==> r->Ok_0->0@[i]@ != r->Ok_0->0@[j]@,
    ;

    /// All values in the store, or `None` when it is empty.  Expired
    /// entries are swept first.
    fn values(&mut self) -> (r: Result<Option<Vec<Vec<u8>>>, QuickKVError>)
        requires
            old(self).inv(),
        ensures
            final(self).inv(),
            final(self).model_default_ttl() == old(self).model_default_ttl(),
            r is Ok,
            exists|now: u64| final(self).model() == spec_sweep(old(self).model(), now),
            final(self).model().dom().finite(),
            r->Ok_0 is None <==> final(self).model().dom().len() == 0,
            r->Ok_0 is Some ==> r->Ok_0->0@.len() == final(self).model().dom().len(),
            r->Ok_0 is Some ==> forall|i: int|
                0 <= i < r->Ok_0->0@.len() ==> holds_value(
                    final(self).model(),
                    (#[trigger] r->Ok_0->0@[i])@,
                ),
    ;

    /// The number of entries in the store.
    fn len(&mut self) -> (r: Result<usize, QuickKVError>)
        requires
            old(self).inv(),
        ensures
            final(self).inv(),
            *final(self) == *old(self),
            r is Ok,
            old(self).model().dom().finite(),
            r->Ok_0 == old(self).model().dom().len(),
    ;

    /// Clears all keys and values from the store.
    fn purge(&mut self) -> (r: Result<(), QuickKVError>)
        requires
            old(self).inv(),
        ensures
            final(self).inv(),
            final(self).model_default_ttl() == old(self).model_default_ttl(),
            r is Ok,
            final(self).model() == Map::<Seq<char>, EntryModel>::empty(),
    ;

    /// Get the values for several keys, in request order, skipping keys
    /// without a value; `None` when nothing was found.
    fn get_many(&mut self, keys: &[&str]) -> (r: Result<Option<Vec<Vec<u8>>>, QuickKVError>)
        requires
            old(self).inv(),
        ensures
            final(self).inv(),
            final(self).model_default_ttl() == old(self).model_default_ttl(),
            r is Ok,
            no_expiry(old(self).model()) ==> final(self).model() == old(self).model() && {
                let found = spec_collect(old(self).model(), deep_keys(keys@));
                &&& (r->Ok_0 is None <==> found.len() == 0)
                &&& (r->Ok_0 is Some ==> deep_values(r->Ok_0->0@) == found)
            },
    ;

    /// Set several keys to the paired values, in order: the sequential
    /// application of `set`, with no cross-key atomicity.
    fn set_many(&mut self, keys: &[&str], values: &[Vec<u8>]) -> (r: Result<(), QuickKVError>)
        requires
            old(self).inv(),
        ensures
            final(self).inv(),
            final(self).model_default_ttl() == old(self).model_default_ttl(),
            r is Ok,
            old(self).model_default_ttl() is None ==> final(self).model() == spec_set_many(
                old(self).model(),
                deep_keys(keys@),
                deep_values(values@),
            ),
    ;

    /// Delete several keys, in order: the sequential application of
    /// `delete`.
    fn delete_many(&mut self, keys: &[&str]) -> (r: Result<(), QuickKVError>)
        requires
            old(self).inv(),
        ensures
            final(self).inv(),
            final(self).model_default_ttl() == old(self).model_default_ttl(),
            r is Ok,
            final(self).model() == spec_remove_many(old(self).model(), deep_keys(keys@)),
    ;

    /// Update several keys to the paired values, in order: the sequential
    /// application of `update`.
    fn update_many(&mut self, keys: &[&str], values: &[Vec<u8>], upsert: Option<bool>) -> (r:
        Result<(), QuickKVError>)
        requires
            old(self).inv(),
        ensures
            final(self).inv(),
            final(self).model_default_ttl() == old(self).model_default_ttl(),
            r is Ok,
            old(self).model_default_ttl() is None ==> final(self).model() == spec_update_many(
                old(self).model(),
                deep_keys(keys@),
                deep_values(values@),
                upsert,
            ),
    ;
}

/// The memory-runtime client: the whole store lives in memory and no file
/// is ever touched.
pub struct QuickMemoryClient {
    db: Database,
}

impl BaseClient for QuickMemoryClient {
    closed spec fn inv(&self) -> bool {
        self.db.wf() && !self.db.is_disk()
    }

    closed spec fn model(&self) -> Map<Seq<char>, EntryModel> {
        self.db.map()
    }

    closed spec fn model_default_ttl(&self) -> Option<u64> {
        self.db.default_ttl()
    }

    fn new(config: ClientConfig) -> (c: Self) {
        let db_config = DatabaseConfiguration::new(
            config.path,
            Some(RunTime::new(RuntTimeType::Memory)),
            config.log,
            config.log_level,
            config.default_ttl,
        );
        QuickMemoryClient { db: Database::new(db_config) }
    }

    fn get(&mut self, key: &str) -> (r: Result<Option<Vec<u8>>, QuickKVError>) {
        let (v, _eff) = self.db.get(key);
        Ok(v)
    }

    fn set(&mut self, key: &str, value: Vec<u8>) -> (r: Result<(), QuickKVError>) {
        let _eff = self.db.set(key, value, None);
        proof {
            let w = choose|now: u64|
                self.db.map() == spec_set(
                    old(self).db.map(),
                    key@,
                    value@,
                    None,
                    old(self).db.default_ttl(),
                    now,
                );
            assert(self.model() == spec_set(
                old(self).model(),
                key@,
                value@,
                None,
                old(self).model_default_ttl(),
                w,
            ));
        }
        Ok(())
    }

    fn update(&mut self, key: &str, value: Vec<u8>, upsert: Option<bool>) -> (r: Result<
        (),
        QuickKVError,
    >) {
        let _eff = self.db.update(key, value, None, upsert);
        proof {
            let w0 = choose|now: u64|
                self.db.map() == spec_update(
                    old(self).db.map(),
                    key@,
                    value@,
                    None,
                    old(self).db.default_ttl(),
                    upsert,
                    now,
                );
            assert(self.model() == spec_update(
                old(self).model(),
                key@,
                value@,
                None,
                old(self).model_default_ttl(),
                upsert,
                w0,
            ));
            if self.db.default_ttl() is None {
                let w = choose|now: u64|
                    self.db.map() == spec_update(
                        old(self).db.map(),
                        key@,
                        value@,
                        None,
                        old(self).db.default_ttl(),
                        upsert,
                        now,
                    );
                assert(spec_update(
                    old(self).db.map(),
                    key@,
                    value@,
                    None,
                    None,
                    upsert,
                    w,
                ) == spec_update(old(self).db.map(), key@, value@, None, None, upsert, 0));
            }
        }
        Ok(())
    }

    fn delete(&mut self, key: &str) -> (r: Result<(), QuickKVError>) {
        let _eff = self.db.delete(key);
        Ok(())
    }

    fn exists_key(&mut self, key: &str) -> (r: Result<bool, QuickKVError>) {
        Ok(self.db.exists_key(key))
    }

    fn keys(&mut self) -> (r: Result<Option<Vec<String>>, QuickKVError>) {
        let _eff = self.db.sweep();
        proof {
            let w = choose|now: u64| self.db.map() == spec_sweep(old(self).db.map(), now);
            assert(self.model() == spec_sweep(old(self).model(), w));
        }
        let ks = self.db.keys();
        if ks.len() == 0 {
            Ok(None)
        } else {
            Ok(Some(ks))
        }
    }

    fn values(&mut self) -> (r: Result<Option<Vec<Vec<u8>>>, QuickKVError>) {
        let _eff = self.db.sweep();
        proof {
            let w = choose|now: u64| self.db.map() == spec_sweep(old(self).db.map(), now);
            assert(self.model() == spec_sweep(old(self).model(), w));
        }
        let vs = self.db.values();
        if vs.len() == 0 {
            Ok(None)
        } else {
            Ok(Some(vs))
        }
    }

    fn len(&mut self) -> (r: Result<usize, QuickKVError>) {
        Ok(self.db.len())
    }

    fn purge(&mut self) -> (r: Result<(), QuickKVError>) {
        let _eff = self.db.purge();
        Ok(())
    }

    fn get_many(&mut self, keys: &[&str]) -> (r: Result<Option<Vec<Vec<u8>>>, QuickKVError>) {
        let ghost m0 = self.db.map();
        let mut out: Vec<Vec<u8>> = Vec::new();
        let mut i: usize = 0;
        proof {
            assert(deep_keys(keys@).skip(0) =~= deep_keys(keys@));
        }
        while i < keys.len()
            invariant
                i <= keys@.len(),
                self.db.wf(),
                !self.db.is_disk(),
                self.db.default_ttl() == old(self).db.default_ttl(),
                no_expiry(m0) ==> self.db.map() == m0 && deep_values(out@) + spec_collect(
                    m0,
                    deep_keys(keys@).skip(i as int),
                ) == spec_collect(m0, deep_keys(keys@)),
            decreases keys@.len() - i,
        {
            let ghost rest = deep_keys(keys@).skip(i as int);
            let (v, _eff) = self.db.get(keys[i]);
            proof {
                assert(rest[0] == keys@[i as int]@);
                assert(rest.drop_first() =~= deep_keys(keys@).skip(i + 1));
            }
            match v {
                Some(value) => {
                    out.push(value);
                    proof {
                        if no_expiry(m0) {
                            assert(deep_values(out@) =~= deep_values(out@.drop_last()) + seq![
                                m0[rest[0]].data,
                            ]);
                            assert(deep_values(out@) + spec_collect(m0, rest.drop_first())
                                =~= deep_values(out@.drop_last()) + spec_collect(m0, rest));
                        }
                    }
                },
                None => {
                    proof {
                        if no_expiry(m0) {
                            assert(spec_collect(m0, rest) == spec_collect(m0, rest.drop_first()));
                        }
                    }
                },
            }
            i += 1;
        }
        proof {
            if no_expiry(m0) {
                assert(deep_keys(keys@).skip(keys@.len() as int) =~= Seq::<Seq<char>>::empty());
                assert(deep_values(out@) + Seq::<Seq<u8>>::empty() =~= deep_values(out@));
            }
        }
        if out.len() == 0 {
            proof {
                if no_expiry(m0) {
                    assert(deep_values(out@) =~= Seq::<Seq<u8>>::empty());
                }
            }
            Ok(None)
        } else {
            Ok(Some(out))
        }
    }

    fn set_many(&mut self, keys: &[&str], values: &[Vec<u8>]) -> (r: Result<(), QuickKVError>) {
        let ghost m0 = self.db.map();
        let ghost dk = deep_keys(keys@);
        let ghost dv = deep_values(values@);
        let mut i: usize = 0;
        let n = if keys.len() < values.len() {
            keys.len()
        } else {
            values.len()
        };
        proof {
            assert(dk.skip(0) =~= dk);
            assert(dv.skip(0) =~= dv);
        }
        while i < n
            invariant
                i <= n,
                n == if keys@.len() < values@.len() {
                    keys@.len()
                } else {
                    values@.len()
                },
                dk == deep_keys(keys@),
                dv == deep_values(values@),
                self.db.wf(),
                !self.db.is_disk(),
                self.db.default_ttl() == old(self).db.default_ttl(),
                old(self).db.default_ttl() is None ==> spec_set_many(m0, dk, dv) == spec_set_many(
                    self.db.map(),
                    dk.skip(i as int),
                    dv.skip(i as int),
                ),
            decreases n - i,
        {
            let value = vstd::slice::slice_to_vec(values[i].as_slice());
            let ghost ks = dk.skip(i as int);
            let ghost vs = dv.skip(i as int);
            let _eff = self.db.set(keys[i], value, None);
            proof {
                assert(ks[0] == keys@[i as int]@ && vs[0] == values@[i as int]@);
                assert(ks.drop_first() =~= dk.skip(i + 1));
                assert(vs.drop_first() =~= dv.skip(i + 1));
            }
            i += 1;
        }
        proof {
            if old(self).db.default_ttl() is None {
                assert(dk.skip(n as int).len() == 0 || dv.skip(n as int).len() == 0);
            }
        }
        Ok(())
    }

    fn delete_many(&mut self, keys: &[&str]) -> (r: Result<(), QuickKVError>) {
        let ghost m0 = self.db.map();
        let ghost dk = deep_keys(keys@);
        let mut i: usize = 0;
        proof {
            assert(dk.skip(0) =~= dk);
        }
        while i < keys.len()
            invariant
                i <= keys@.len(),
                dk == deep_keys(keys@),
                self.db.wf(),
                !self.db.is_disk(),
                self.db.default_ttl() == old(self).db.default_ttl(),
                spec_remove_many(m0, dk) == spec_remove_many(self.db.map(), dk.skip(i as int)),
            decreases keys@.len() - i,
        {
            let ghost ks = dk.skip(i as int);
            let _eff = self.db.delete(keys[i]);
            proof {
                assert(ks[0] == keys@[i as int]@);
                assert(ks.drop_first() =~= dk.skip(i + 1));
            }
            i += 1;
        }
        proof {
            assert(dk.skip(keys@.len() as int).len() == 0);
        }
        Ok(())
    }

    fn update_many(&mut self, keys: &[&str], values: &[Vec<u8>], upsert: Option<bool>) -> (r:
        Result<(), QuickKVError>) {
        let ghost m0 = self.db.map();
        let ghost dk = deep_keys(keys@);
        let ghost dv = deep_values(values@);
        let mut i: usize = 0;
        let n = if keys.len() < values.len() {
            keys.len()
        } else {
            values.len()
        };
        proof {
            assert(dk.skip(0) =~= dk);
            assert(dv.skip(0) =~= dv);
        }
        while i < n
            invariant
                i <= n,
                n == if keys@.len() < values@.len() {
                    keys@.len()
                } else {
                    values@.len()
                },
                dk == deep_keys(keys@),
                dv == deep_values(values@),
                self.db.wf(),
                !self.db.is_disk(),
                self.db.default_ttl() == old(self).db.default_ttl(),
                old(self).db.default_ttl() is None ==> spec_update_many(m0, dk, dv, upsert)
                    == spec_update_many(
                    self.db.map(),
                    dk.skip(i as int),
                    dv.skip(i as int),
                    upsert,
                ),
            decreases n - i,
        {
            let value = vstd::slice::slice_to_vec(values[i].as_slice());
            let ghost ks = dk.skip(i as int);
            let ghost vs = dv.skip(i as int);
            let ghost m_before = self.db.map();
            let _eff = self.db.update(keys[i], value, None, upsert);
            proof {
                assert(ks[0] == keys@[i as int]@ && vs[0] == values@[i as int]@);
                assert(ks.drop_first() =~= dk.skip(i + 1));
                assert(vs.drop_first() =~= dv.skip(i + 1));
                if old(self).db.default_ttl() is None {
                    let w = choose|now: u64|
                        self.db.map() == spec_update(
                            m_before,
                            keys@[i as int]@,
                            values@[i as int]@,
                            None,
                            None,
                            upsert,
                            now,
                        );
                    assert(spec_update(
                        m_before,
                        keys@[i as int]@,
                        values@[i as int]@,
                        None,
                        None,
                        upsert,
                        w,
                    ) == spec_update(
                        m_before,
                        keys@[i as int]@,
                        values@[i as int]@,
                        None,
                        None,
                        upsert,
                        0,
                    ));
                }
            }
            i += 1;
        }
        proof {
            if old(self).db.default_ttl() is None {
                assert(dk.skip(n as int).len() == 0 || dv.skip(n as int).len() == 0);
            }
        }
        Ok(())
    }
}

} // verus!
