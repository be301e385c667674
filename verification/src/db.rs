//! The storage engine facade: get/set/update/delete/purge over the
//! in-memory state, plus startup recovery from the on-disk record log.
//!
//! The engine never touches a file itself.  In the disk runtime it keeps a
//! byte-for-byte image of the backing log and returns, from every mutating
//! operation, a [`DiskEffect`] telling the application exactly what to do to
//! the real file (append bytes, or rewrite it whole).  The engine's
//! invariant is that replaying the log image always reproduces the in-memory
//! map, which is what makes recovery after a restart exact.

use vstd::prelude::*;

verus! {

use vstd::slice::slice_to_vec;
use crate::codec::{Entry, EntryModel, replay, parse_stream, spec_encode, encode_entry, count_key,
    DecodeOutcome, decode_entry, lemma_parse_stream_append, lemma_replay_push};
use crate::config::{DatabaseConfiguration, RuntTimeType};
use crate::error::QuickKVError;
use crate::expiry::{spec_effective_expiry, effective_expiry, live, spec_sweep};
use crate::state::{State, index_of_key, lemma_index_of_key, lemma_index_of_key_unique,
    lemma_replay_len, lemma_key_at_index_contained, lemma_count_key_unique};

/// The record with the given key, value and expiry.
pub open spec fn entry_model(k: Seq<char>, v: Seq<u8>, expires_at: Option<u64>) -> EntryModel {
    EntryModel { key: k, data: v, expires_at }
}

/// What `set` at time `now` does to the map.
pub open spec fn spec_set(
    m: Map<Seq<char>, EntryModel>,
    k: Seq<char>,
    v: Seq<u8>,
    ttl: Option<u64>,
    default_ttl: Option<u64>,
    now: u64,
) -> Map<Seq<char>, EntryModel> {
    m.insert(k, entry_model(k, v, spec_effective_expiry(ttl, default_ttl, now)))
}

/// What `get` at time `now` returns: the stored value if the key is present
/// and not expired.
pub open spec fn spec_get(m: Map<Seq<char>, EntryModel>, k: Seq<char>, now: u64) -> Option<
    Seq<u8>,
> {
    if m.contains_key(k) && live(m[k], now) {
        Some(m[k].data)
    } else {
        None
    }
}

/// What `update` at time `now` does to the map: replace the entry when the
/// key is present, behave as `set` when absent with upsert enabled, and
/// leave the map alone otherwise.
pub open spec fn spec_update(
    m: Map<Seq<char>, EntryModel>,
    k: Seq<char>,
    v: Seq<u8>,
    ttl: Option<u64>,
    default_ttl: Option<u64>,
    upsert: Option<bool>,
    now: u64,
) -> Map<Seq<char>, EntryModel> {
    if m.contains_key(k) || upsert == Some(true) {
        spec_set(m, k, v, ttl, default_ttl, now)
    } else {
        m
    }
}

/// Applies a sequence of records on top of an existing map, later records
/// overwriting earlier ones.
pub open spec fn replay_onto(m: Map<Seq<char>, EntryModel>, es: Seq<EntryModel>) -> Map<
    Seq<char>,
    EntryModel,
>
    decreases es.len(),
{
    if es.len() == 0 {
        m
    } else {
        replay_onto(m, es.drop_last()).insert(es.last().key, es.last())
    }
}

proof fn lemma_replay_onto_head(m: Map<Seq<char>, EntryModel>, e: EntryModel, tail: Seq<EntryModel>)
    ensures
        replay_onto(m, seq![e] + tail) == replay_onto(m.insert(e.key, e), tail),
    decreases tail.len(),
{
    let s = seq![e] + tail;
    if tail.len() == 0 {
        assert(s.len() == 1);
        assert(s.last() == e);
        assert(s.drop_last() =~= Seq::<EntryModel>::empty());
        assert(replay_onto(m, s) == replay_onto(m, s.drop_last()).insert(e.key, e));
        assert(replay_onto(m, s.drop_last()) == m);
    } else {
        assert(s.drop_last() =~= seq![e] + tail.drop_last());
        assert(s.last() == tail.last());
        lemma_replay_onto_head(m, e, tail.drop_last());
        assert(replay_onto(m, s) == replay_onto(m, seq![e] + tail.drop_last()).insert(
            tail.last().key,
            tail.last(),
        ));
        assert(replay_onto(m.insert(e.key, e), tail) == replay_onto(
            m.insert(e.key, e),
            tail.drop_last(),
        ).insert(tail.last().key, tail.last()));
    }
}

proof fn lemma_replay_onto_empty(es: Seq<EntryModel>)
    ensures
        replay_onto(Map::<Seq<char>, EntryModel>::empty(), es) == replay(es),
    decreases es.len(),
{
    if es.len() == 0 {
    } else {
        lemma_replay_onto_empty(es.drop_last());
    }
}

/// Whether some key in the map holds this value.
pub open spec fn holds_value(m: Map<Seq<char>, EntryModel>, d: Seq<u8>) -> bool {
    exists|k: Seq<char>| #[trigger] m.contains_key(k) && m[k].data == d
}

/// Whether a configuration selects the disk runtime; an unset runtime
/// defaults to disk.
pub open spec fn spec_is_disk_config(c: DatabaseConfiguration) -> bool {
    match c.runtime {
        Some(rt) => rt._type is Disk,
        None => true,
    }
}

/// What a mutating operation asks the application to do to the backing
/// file.  In the memory runtime every effect is `Noop`.
pub enum DiskEffect {
    /// Nothing to do.
    Noop,
    /// Append these bytes at the end of the file, then sync.
    Append(Vec<u8>),
    /// Truncate the file and write these bytes from the start, then sync.
    Rewrite(Vec<u8>),
}

/// The storage engine: the in-memory state, the configuration, and (in the
/// disk runtime) the image of the backing log.
pub struct Database {
    state: State,
    config: DatabaseConfiguration,
    log: Vec<u8>,
}

impl Database {
    /// The mapping from key to current entry.
    pub closed spec fn map(self) -> Map<Seq<char>, EntryModel> {
        self.state.map()
    }

    /// Whether the engine runs disk-backed.
    pub closed spec fn is_disk(self) -> bool {
        spec_is_disk_config(self.config)
    }

    /// The configured default time-to-live.
    pub closed spec fn default_ttl(self) -> Option<u64> {
        self.config.default_ttl
    }

    /// The engine's image of the backing log.
    pub closed spec fn log_bytes(self) -> Seq<u8> {
        self.log@
    }

    /// The engine's invariant: the in-memory state is well formed, and in
    /// the disk runtime the log image decodes cleanly and replays to
    /// exactly the in-memory map (in the memory runtime it stays empty).
    pub closed spec fn wf(self) -> bool {
        &&& self.state.wf()
        &&& (self.is_disk() ==> parse_stream(self.log@) is Some && replay(
            parse_stream(self.log@)->0,
        ) == self.map())
        &&& (!self.is_disk() ==> self.log@.len() == 0)
    }

    /// Whether the log holds exactly one record per live key, in storage
    /// order: true after any full rewrite, until the next append.
    pub closed spec fn log_is_compact(self) -> bool {
        parse_stream(self.log@) is Some && parse_stream(self.log@)->0 == self.state.entries_seq()
    }

    /// Read access to the configuration this engine was built with.
    pub fn config(&self) -> (r: &DatabaseConfiguration)
        ensures
            r.default_ttl == self.default_ttl(),
            spec_is_disk_config(*r) == self.is_disk(),
    {
        &self.config
    }

    /// The bytes the backing file must hold right now.  The application
    /// reads this once after recovery if it wants to compact the file.
    pub fn disk_image(&self) -> (r: &Vec<u8>)
        ensures
            r@ == self.log_bytes(),
    {
        &self.log
    }

    fn runtime_is_disk(&self) -> (r: bool)
        ensures
            r == self.is_disk(),
    {
        match &self.config.runtime {
            Some(rt) => match rt._type {
                RuntTimeType::Disk => true,
                RuntTimeType::Memory => false,
            },
            None => true,
        }
    }

    /// A fresh engine with empty state and an empty log.
    pub fn new(config: DatabaseConfiguration) -> (db: Database)
        ensures
            db.wf(),
            db.map() == Map::<Seq<char>, EntryModel>::empty(),
            db.is_disk() == spec_is_disk_config(config),
            db.default_ttl() == config.default_ttl,
            db.log_bytes() == Seq::<u8>::empty(),
            db.log_is_compact(),
    {
        let db = Database { state: State::new(), config, log: Vec::new() };
        proof {
            assert(parse_stream(db.log@) == Some(Seq::<EntryModel>::empty()));
            assert(replay(Seq::<EntryModel>::empty()) == Map::<Seq<char>, EntryModel>::empty());
            assert(db.state.entries_seq() =~= Seq::<EntryModel>::empty());
        }
        db
    }

    /// Startup recovery: rebuilds the engine from the bytes of the backing
    /// log.  Returns an error exactly when the log is corrupt: malformed
    /// bytes that are not a clean end of stream.  A memory-runtime
    /// configuration ignores the bytes and starts empty.
    pub fn recover(config: DatabaseConfiguration, bytes: Vec<u8>) -> (r: Result<
        Database,
        QuickKVError,
    >)
        ensures
            spec_is_disk_config(config) ==> match parse_stream(bytes@) {
                Some(rs) => {
                    &&& r is Ok
                    &&& r->Ok_0.wf()
                    &&& r->Ok_0.map() == replay(rs)
                    &&& r->Ok_0.log_bytes() == bytes@
                    &&& r->Ok_0.is_disk()
                    &&& r->Ok_0.default_ttl() == config.default_ttl
                },
                None => r is Err,
            },
            !spec_is_disk_config(config) ==> r is Ok && r->Ok_0.wf() && r->Ok_0.map() == Map::<
                Seq<char>,
                EntryModel,
            >::empty() && !r->Ok_0.is_disk() && r->Ok_0.default_ttl() == config.default_ttl,
    {
        let disk = {
            match &config.runtime {
                Some(rt) => match rt._type {
                    RuntTimeType::Disk => true,
                    RuntTimeType::Memory => false,
                },
                None => true,
            }
        };
        if !disk {
            return Ok(Database::new(config));
        }
        let mut st = State::new();
        let mut pos: usize = 0;
        proof {
            assert(bytes@.subrange(0, bytes@.len() as int) =~= bytes@);
            if parse_stream(bytes@) is Some {
                lemma_replay_onto_empty(parse_stream(bytes@)->0);
            }
        }
        loop
            invariant
                pos <= bytes@.len(),
                st.wf(),
                spec_is_disk_config(config),
                ({
                    let rest = bytes@.subrange(pos as int, bytes@.len() as int);
                    &&& (parse_stream(rest) is Some <==> parse_stream(bytes@) is Some)
                    &&& (parse_stream(rest) is Some ==> replay(parse_stream(bytes@)->0)
                        == replay_onto(st.map(), parse_stream(rest)->0))
                }),
            decreases bytes@.len() - pos,
        {
            let ghost rest = bytes@.subrange(pos as int, bytes@.len() as int);
            match decode_entry(&bytes, pos) {
                DecodeOutcome::Finished => {
                    proof {
                        assert(rest =~= Seq::<u8>::empty());
                        assert(parse_stream(rest) == Some(Seq::<EntryModel>::empty()));
                        assert(replay_onto(st.map(), Seq::<EntryModel>::empty()) == st.map());
                    }
                    let db = Database { state: st, config, log: bytes };
                    return Ok(db);
                },
                DecodeOutcome::Malformed => {
                    proof {
                        assert(rest.len() > 0);
                        assert(parse_stream(rest) is None);
                    }
                    return Err(
                        QuickKVError::new("corrupt record in the database log".to_owned()),
                    );
                },
                DecodeOutcome::Item(e, next) => {
                    let ghost ev = e@;
                    let ghost rest2 = bytes@.subrange(next as int, bytes@.len() as int);
                    proof {
                        assert(parse_stream(rest) is Some <==> parse_stream(rest2) is Some);
                        if parse_stream(rest2) is Some {
                            assert(parse_stream(rest)->0 == seq![ev] + parse_stream(rest2)->0);
                            lemma_replay_onto_head(st.map(), ev, parse_stream(rest2)->0);
                        }
                    }
                    st.upsert(e);
                    pos = next;
                },
            }
        }
    }

    /// Inserts or overwrites the value for a key, with the entry's expiry
    /// computed from the explicit time-to-live, the configured default, and
    /// the time `now`.  In the disk runtime, returns the encoded record to
    /// append to the log.
    pub fn set_at(&mut self, key: &str, value: Vec<u8>, ttl: Option<u64>, now: u64) -> (eff:
        DiskEffect)
        requires
            old(self).wf(),
        ensures
            final(self).wf(),
            final(self).map() == spec_set(
                old(self).map(),
                key@,
                value@,
                ttl,
                old(self).default_ttl(),
                now,
            ),
            final(self).is_disk() == old(self).is_disk(),
            final(self).default_ttl() == old(self).default_ttl(),
            old(self).is_disk() ==> eff is Append && eff->Append_0@ == spec_encode(
                entry_model(
                    key@,
                    value@,
                    spec_effective_expiry(ttl, old(self).default_ttl(), now),
                ),
            ) && final(self).log_bytes() == old(self).log_bytes() + eff->Append_0@,
            !old(self).is_disk() ==> eff is Noop && final(self).log_bytes() == old(self).log_bytes(),
    {
        let expires_at = effective_expiry(ttl, self.config.default_ttl, now);
        let e = Entry::new(key.to_owned(), value, expires_at);
        let disk = self.runtime_is_disk();
        if disk {
            let enc = encode_entry(&e);
            let ghost ev = e@;
            let ghost log0 = self.log@;
            let ghost rs0 = parse_stream(self.log@)->0;
            self.state.upsert(e);
            let mut enc_copy = slice_to_vec(enc.as_slice());
            self.log.append(&mut enc_copy);
            proof {
                lemma_parse_stream_append(log0, ev);
                assert(self.log@ == log0 + spec_encode(ev));
                assert(parse_stream(self.log@)->0 =~= rs0.push(ev));
                lemma_replay_push(rs0, ev);
            }
            DiskEffect::Append(enc)
        } else {
            self.state.upsert(e);
            DiskEffect::Noop
        }
    }

    /// Removes the entry for a key; absent keys are a no-op.  In the disk
    /// runtime a removal returns the full rewrite image of the log, which
    /// afterwards holds exactly one record per remaining key.
    pub fn delete(&mut self, key: &str) -> (eff: DiskEffect)
        requires
            old(self).wf(),
        ensures
            final(self).wf(),
            final(self).map() == old(self).map().remove(key@),
            final(self).is_disk() == old(self).is_disk(),
            final(self).default_ttl() == old(self).default_ttl(),
            !old(self).map().contains_key(key@) ==> eff is Noop && *final(self) == *old(self),
            old(self).map().contains_key(key@) && old(self).is_disk() ==> eff is Rewrite
                && eff->Rewrite_0@ == final(self).log_bytes() && final(self).log_is_compact(),
            old(self).map().contains_key(key@) && !old(self).is_disk() ==> eff is Noop && final(self).log_bytes() == old(self).log_bytes(),
    {
        let key_s = key.to_owned();
        let removed = self.state.remove_entry(&key_s);
        if !removed {
            proof {
                assert(self.map().remove(key@) =~= self.map());
            }
            return DiskEffect::Noop;
        }
        let disk = self.runtime_is_disk();
        if disk {
            let new_log = self.state.encode_all();
            let copy = slice_to_vec(new_log.as_slice());
            self.log = copy;
            DiskEffect::Rewrite(new_log)
        } else {
            DiskEffect::Noop
        }
    }

    /// Replaces the value (and recomputes the expiry) for a key that is
    /// present; when the key is absent it is a no-op success unless upsert
    /// is enabled, in which case it behaves as `set`.  A replacement in the
    /// disk runtime returns the full rewrite image of the log.
    pub fn update_at(
        &mut self,
        key: &str,
        value: Vec<u8>,
        ttl: Option<u64>,
        upsert: Option<bool>,
        now: u64,
    ) -> (eff: DiskEffect)
        requires
            old(self).wf(),
        ensures
            final(self).wf(),
            final(self).map() == spec_update(
                old(self).map(),
                key@,
                value@,
                ttl,
                old(self).default_ttl(),
                upsert,
                now,
            ),
            final(self).is_disk() == old(self).is_disk(),
            final(self).default_ttl() == old(self).default_ttl(),
            !old(self).map().contains_key(key@) && upsert != Some(true) ==> eff is Noop && *final(self) == *old(self),
            old(self).map().contains_key(key@) && old(self).is_disk() ==> eff is Rewrite
                && eff->Rewrite_0@ == final(self).log_bytes() && final(self).log_is_compact(),
            !old(self).map().contains_key(key@) && upsert == Some(true) && old(self).is_disk()
                ==> eff is Append && final(self).log_bytes() == old(self).log_bytes()
                + eff->Append_0@,
            !old(self).is_disk() ==> eff is Noop && final(self).log_bytes() == old(self).log_bytes(),
    {
        let key_s = key.to_owned();
        let present = self.state.contains(&key_s);
        if present {
            let expires_at = effective_expiry(ttl, self.config.default_ttl, now);
            let e = Entry::new(key_s, value, expires_at);
            self.state.upsert(e);
            let disk = self.runtime_is_disk();
            if disk {
                let new_log = self.state.encode_all();
                let copy = slice_to_vec(new_log.as_slice());
                self.log = copy;
                DiskEffect::Rewrite(new_log)
            } else {
                DiskEffect::Noop
            }
        } else {
            let do_upsert = match upsert {
                Some(u) => u,
                None => false,
            };
            if do_upsert {
                self.set_at(key, value, ttl, now)
            } else {
                DiskEffect::Noop
            }
        }
    }

    /// Clears every entry; in the disk runtime the log becomes empty and
    /// the application must truncate the file.
    pub fn purge(&mut self) -> (eff: DiskEffect)
        requires
            old(self).wf(),
        ensures
            final(self).wf(),
            final(self).map() == Map::<Seq<char>, EntryModel>::empty(),
            final(self).is_disk() == old(self).is_disk(),
            final(self).default_ttl() == old(self).default_ttl(),
            final(self).log_bytes() == Seq::<u8>::empty(),
            final(self).log_is_compact(),
            old(self).is_disk() ==> eff is Rewrite && eff->Rewrite_0@ == Seq::<u8>::empty(),
            !old(self).is_disk() ==> eff is Noop,
    {
        self.state.clear();
        let disk = self.runtime_is_disk();
        proof {
            assert(parse_stream(Seq::<u8>::empty()) == Some(Seq::<EntryModel>::empty()));
            assert(replay(Seq::<EntryModel>::empty()) == Map::<Seq<char>, EntryModel>::empty());
            assert(self.state.entries_seq() =~= Seq::<EntryModel>::empty());
        }
        if disk {
            self.log = Vec::new();
            DiskEffect::Rewrite(Vec::new())
        } else {
            self.log = Vec::new();
            DiskEffect::Noop
        }
    }

    /// Returns the value for a key if it is present and not expired at
    /// `now`.  An entry found expired is evicted before anything is
    /// returned (lazy expiration); in the disk runtime the eviction returns
    /// the rewrite image of the log.
    pub fn get_at(&mut self, key: &str, now: u64) -> (r: (Option<Vec<u8>>, DiskEffect))
        requires
            old(self).wf(),
        ensures
            final(self).wf(),
            final(self).is_disk() == old(self).is_disk(),
            final(self).default_ttl() == old(self).default_ttl(),
            r.0 is Some <==> spec_get(old(self).map(), key@, now) is Some,
            r.0 is Some ==> r.0->0@ == spec_get(old(self).map(), key@, now)->0,
            final(self).map() == (if old(self).map().contains_key(key@) && !live(
                old(self).map()[key@],
                now,
            ) {
                old(self).map().remove(key@)
            } else {
                old(self).map()
            }),
            (old(self).map().contains_key(key@) && !live(old(self).map()[key@], now)) ==> (old(self).is_disk() ==> r.1 is Rewrite && r.1->Rewrite_0@ == final(self).log_bytes() && final(self).log_is_compact()) && (!old(self).is_disk() ==> r.1 is Noop),
            !(old(self).map().contains_key(key@) && !live(old(self).map()[key@], now)) ==> r.1
                is Noop && *final(self) == *old(self),
    {
        let key_s = key.to_owned();
        let mut expired = false;
        let mut result: Option<Vec<u8>> = None;
        match self.state.lookup(&key_s) {
            None => {},
            Some(e) => {
                let is_expired = match e.expires_at {
                    Some(t) => t <= now,
                    None => false,
                };
                if is_expired {
                    expired = true;
                } else {
                    result = Some(slice_to_vec(e.data.as_slice()));
                }
            },
        }
        if expired {
            self.state.remove_entry(&key_s);
            let disk = self.runtime_is_disk();
            if disk {
                let new_log = self.state.encode_all();
                let copy = slice_to_vec(new_log.as_slice());
                self.log = copy;
                (None, DiskEffect::Rewrite(new_log))
            } else {
                (None, DiskEffect::Noop)
            }
        } else {
            (result, DiskEffect::Noop)
        }
    }

    /// The active expiration sweep: evicts every entry expired at `now`,
    /// walking the ordered expiration index from its earliest member.  When
    /// anything was evicted in the disk runtime, returns the rewrite image
    /// of the log.
    pub fn sweep_at(&mut self, now: u64) -> (eff: DiskEffect)
        requires
            old(self).wf(),
        ensures
            final(self).wf(),
            final(self).map() == spec_sweep(old(self).map(), now),
            final(self).is_disk() == old(self).is_disk(),
            final(self).default_ttl() == old(self).default_ttl(),
            old(self).is_disk() && eff is Noop ==> *final(self) == *old(self),
            eff is Rewrite ==> old(self).is_disk() && eff->Rewrite_0@ == final(self).log_bytes()
                && final(self).log_is_compact(),
            !old(self).is_disk() ==> eff is Noop,
            eff is Append ==> false,
    {
        let evicted = self.state.sweep_expired(now);
        if !evicted {
            return DiskEffect::Noop;
        }
        let disk = self.runtime_is_disk();
        if disk {
            let new_log = self.state.encode_all();
            let copy = slice_to_vec(new_log.as_slice());
            self.log = copy;
            DiskEffect::Rewrite(new_log)
        } else {
            DiskEffect::Noop
        }
    }

    /// Whether the key currently has an entry (expired entries that have
    /// not yet been evicted count as present).
    pub fn exists_key(&self, key: &str) -> (r: bool)
        requires
            self.wf(),
        ensures
            r == self.map().contains_key(key@),
    {
        let key_s = key.to_owned();
        self.state.contains(&key_s)
    }

    /// The number of entries.
    pub fn len(&self) -> (r: usize)
        requires
            self.wf(),
        ensures
            self.map().dom().finite(),
            r == self.map().dom().len(),
    {
        self.state.entry_count()
    }

    /// Every key, each exactly once.
    pub fn keys(&self) -> (r: Vec<String>)
        requires
            self.wf(),
        ensures
            self.map().dom().finite(),
            r@.len() == self.map().dom().len(),
            forall|i: int| 0 <= i < r@.len() ==> self.map().contains_key((#[trigger] r@[i])@),
            forall|i: int, j: int| 0 <= i < j < r@.len() ==> r@[i]@ != r@[j]@,
            forall|k: Seq<char>|
                #[trigger] self.map().contains_key(k) ==> exists|i: int|
                    0 <= i < r@.len() && r@[i]@ == k,
    {
        let r = self.state.keys();
        proof {
            let es = self.state.entries_seq();
            lemma_replay_len(es);
            assert forall|i: int| 0 <= i < r@.len() implies self.map().contains_key(
                (#[trigger] r@[i])@,
            ) by {
                lemma_key_at_index_contained(es, i);
            }
            assert forall|k: Seq<char>| #[trigger] self.map().contains_key(k) implies exists|
                i: int,
            | 0 <= i < r@.len() && r@[i]@ == k by {
                lemma_index_of_key(es, k);
                let w = index_of_key(es, k);
                assert(r@[w]@ == k);
            }
        }
        r
    }

    /// Every stored value, one per entry, in storage order.
    pub fn values(&self) -> (r: Vec<Vec<u8>>)
        requires
            self.wf(),
        ensures
            self.map().dom().finite(),
            r@.len() == self.map().dom().len(),
            forall|i: int| 0 <= i < r@.len() ==> holds_value(self.map(), (#[trigger] r@[i])@),
            forall|k: Seq<char>|
                #[trigger] self.map().contains_key(k) ==> exists|i: int|
                    0 <= i < r@.len() && r@[i]@ == self.map()[k].data,
    {
        let r = self.state.values();
        proof {
            let es = self.state.entries_seq();
            lemma_replay_len(es);
            assert forall|i: int| 0 <= i < r@.len() implies holds_value(
                self.map(),
                (#[trigger] r@[i])@,
            ) by {
                lemma_key_at_index_contained(es, i);
                lemma_index_of_key_unique(es, i);
                lemma_index_of_key(es, es[i].key);
                let wk = es[i].key;
                assert(self.map().contains_key(wk) && self.map()[wk].data == r@[i]@);
            }
            assert forall|k: Seq<char>| #[trigger] self.map().contains_key(k) implies exists|
                i: int,
            | 0 <= i < r@.len() && r@[i]@ == self.map()[k].data by {
                lemma_index_of_key(es, k);
                let w = index_of_key(es, k);
                assert(r@[w]@ == self.map()[k].data);
            }
        }
        r
    }

    /// Inserts or overwrites the value for a key at the current time.
    pub fn set(&mut self, key: &str, value: Vec<u8>, ttl: Option<u64>) -> (eff: DiskEffect)
        requires
            old(self).wf(),
        ensures
            final(self).wf(),
            final(self).is_disk() == old(self).is_disk(),
            final(self).default_ttl() == old(self).default_ttl(),
            exists|now: u64|
                final(self).map() == spec_set(
                    old(self).map(),
                    key@,
                    value@,
                    ttl,
                    old(self).default_ttl(),
                    now,
                ),
            ttl is None && old(self).default_ttl() is None ==> final(self).map() == old(self).map().insert(key@, entry_model(key@, value@, None)),
            old(self).is_disk() ==> eff is Append && final(self).log_bytes() == old(self).log_bytes() + eff->Append_0@,
            !old(self).is_disk() ==> eff is Noop,
    {
        let t = now_millis();
        let now = clamp_time(t);
        let eff = self.set_at(key, value, ttl, now);
        proof {
            assert(final(self).map() == spec_set(
                old(self).map(),
                key@,
                value@,
                ttl,
                old(self).default_ttl(),
                now,
            ));
        }
        eff
    }

    /// Returns the value for a key at the current time, evicting it first
    /// if it has expired.
    pub fn get(&mut self, key: &str) -> (r: (Option<Vec<u8>>, DiskEffect))
        requires
            old(self).wf(),
        ensures
            final(self).wf(),
            final(self).is_disk() == old(self).is_disk(),
            final(self).default_ttl() == old(self).default_ttl(),
            !old(self).map().contains_key(key@) ==> r.0 is None && *final(self) == *old(self)
                && r.1 is Noop,
            old(self).map().contains_key(key@) && old(self).map()[key@].expires_at is None ==> r.0
                is Some && r.0->0@ == old(self).map()[key@].data && *final(self) == *old(self)
                && r.1 is Noop,
            old(self).map().contains_key(key@) ==> (r.0 is Some ==> r.0->0@ == old(self).map()[key@].data && *final(self) == *old(self)) && (r.0 is None ==> final(self).map()
                == old(self).map().remove(key@)),
    {
        let t = now_millis();
        let now = clamp_time(t);
        self.get_at(key, now)
    }

    /// Updates the value for a key at the current time; a no-op success on
    /// an absent key unless upsert is enabled.
    pub fn update(&mut self, key: &str, value: Vec<u8>, ttl: Option<u64>, upsert: Option<bool>)
        -> (eff: DiskEffect)
        requires
            old(self).wf(),
        ensures
            final(self).wf(),
            final(self).is_disk() == old(self).is_disk(),
            final(self).default_ttl() == old(self).default_ttl(),
            exists|now: u64|
                final(self).map() == spec_update(
                    old(self).map(),
                    key@,
                    value@,
                    ttl,
                    old(self).default_ttl(),
                    upsert,
                    now,
                ),
            !old(self).map().contains_key(key@) && upsert != Some(true) ==> eff is Noop && *final(self) == *old(self),
            old(self).map().contains_key(key@) && ttl is None && old(self).default_ttl() is None
                ==> final(self).map() == old(self).map().insert(
                key@,
                entry_model(key@, value@, None),
            ),
            !old(self).is_disk() ==> eff is Noop,
    {
        let t = now_millis();
        let now = clamp_time(t);
        let eff = self.update_at(key, value, ttl, upsert, now);
        proof {
            assert(final(self).map() == spec_update(
                old(self).map(),
                key@,
                value@,
                ttl,
                old(self).default_ttl(),
                upsert,
                now,
            ));
        }
        eff
    }

    /// Evicts every entry that has expired by the current time.
    pub fn sweep(&mut self) -> (eff: DiskEffect)
        requires
            old(self).wf(),
        ensures
            final(self).wf(),
            final(self).is_disk() == old(self).is_disk(),
            final(self).default_ttl() == old(self).default_ttl(),
            exists|now: u64| final(self).map() == spec_sweep(old(self).map(), now),
            old(self).is_disk() && eff is Noop ==> *final(self) == *old(self),
            !old(self).is_disk() ==> eff is Noop,
    {
        let t = now_millis();
        let now = clamp_time(t);
        let eff = self.sweep_at(now);
        proof {
            assert(final(self).map() == spec_sweep(old(self).map(), now));
        }
        eff
    }
}

impl Database {
    /// Durability: in the disk runtime the log image always decodes
    /// cleanly, and replaying it reproduces the in-memory map exactly.
    /// Together with the contract of `recover`, an engine rebuilt from the
    /// bytes of this engine's log holds the same map.
    pub proof fn lemma_log_replays_to_map(self)
        requires
            self.wf(),
            self.is_disk(),
        ensures
            parse_stream(self.log_bytes()) is Some,
            replay(parse_stream(self.log_bytes())->0) == self.map(),
    {
    }

    /// After a full rewrite, exactly one record for a live key survives in
    /// the log, and none for an absent key.
    pub proof fn lemma_compact_log_one_record(self, k: Seq<char>)
        requires
            self.wf(),
            self.log_is_compact(),
        ensures
            parse_stream(self.log_bytes()) is Some,
            count_key(parse_stream(self.log_bytes())->0, k) == if self.map().contains_key(k) {
                1int
            } else {
                0int
            },
    {
        lemma_count_key_unique(self.state.entries_seq(), k);
    }
}

/// Relies on `chrono::Utc::now`: the milliseconds since the Unix epoch of
/// the current system time.  Nothing is promised of the value; chrono
/// itself panics if the system clock reads earlier than the epoch.
#[verifier::external_body]
fn now_millis() -> (t: i64) {
    chrono::Utc::now().timestamp_millis()
}

/// The engine's timestamps are unsigned; a clock reading from before the
/// epoch is clamped to it.
fn clamp_time(t: i64) -> (r: u64)
    ensures
        t >= 0 ==> r == t,
        t < 0 ==> r == 0,
{
    if t < 0 {
        0
    } else {
        t as u64
    }
}

} // verus!
