//! The in-memory authoritative state: the mapping from key to current entry,
//! together with an expiration index ordered by expiry time so that the sweep
//! can evict expired entries with a prefix scan instead of a full scan.
//!
//! Every entry whose `expires_at` is `Some(t)` has exactly one `(t, key)`
//! member in the index; removing or overwriting an entry removes its old pair
//! before a new one is inserted, so no stale pair can ever evict a live
//! entry.

use vstd::prelude::*;

verus! {

use crate::codec::{Entry, EntryModel, encodable, replay, stream_encode, parse_stream, encode_entry,
    count_key, lemma_replay_push, lemma_parse_stream_encode};
use crate::expiry::{live, spec_sweep};

/// No two records in the sequence share a key.
pub open spec fn keys_unique(s: Seq<EntryModel>) -> bool {
    forall|i: int, j: int| 0 <= i < j < s.len() ==> s[i].key != s[j].key
}

/// The index of the last record with key `k`, or -1 if there is none.
pub open spec fn index_of_key(s: Seq<EntryModel>, k: Seq<char>) -> int
    decreases s.len(),
{
    if s.len() == 0 {
        -1
    } else if s.last().key == k {
        s.len() - 1
    } else {
        index_of_key(s.drop_last(), k)
    }
}

/// `index_of_key` finds a key exactly when replaying the records yields a
/// map containing it, and then points at the record the map holds.
pub proof fn lemma_index_of_key(s: Seq<EntryModel>, k: Seq<char>)
    ensures
        -1 <= index_of_key(s, k) < s.len(),
        index_of_key(s, k) >= 0 <==> replay(s).contains_key(k),
        index_of_key(s, k) >= 0 ==> s[index_of_key(s, k)].key == k && replay(s)[k] == s[
            index_of_key(s, k)
        ],
    decreases s.len(),
{
    if s.len() == 0 {
    } else if s.last().key == k {
    } else {
        lemma_index_of_key(s.drop_last(), k);
    }
}

/// A record at any index shows up in the replayed map.
pub proof fn lemma_key_at_index_contained(s: Seq<EntryModel>, i: int)
    requires
        0 <= i < s.len(),
    ensures
        replay(s).contains_key(s[i].key),
    decreases s.len(),
{
    if i == s.len() - 1 {
    } else {
        lemma_key_at_index_contained(s.drop_last(), i);
    }
}

/// With unique keys, `index_of_key` is the one index holding the key.
pub proof fn lemma_index_of_key_unique(s: Seq<EntryModel>, i: int)
    requires
        keys_unique(s),
        0 <= i < s.len(),
    ensures
        index_of_key(s, s[i].key) == i,
    decreases s.len(),
{
    if i == s.len() - 1 {
    } else {
        assert(s.last().key != s[i].key);
        lemma_index_of_key_unique(s.drop_last(), i);
    }
}

/// Removing the record at an index removes exactly its key from the
/// replayed map, when keys are unique.
pub proof fn lemma_replay_remove(s: Seq<EntryModel>, i: int)
    requires
        keys_unique(s),
        0 <= i < s.len(),
    ensures
        replay(s.remove(i)) == replay(s).remove(s[i].key),
    decreases s.len(),
{
    let k = s[i].key;
    if i == s.len() - 1 {
        assert(s.remove(i) =~= s.drop_last());
        let front = s.drop_last();
        lemma_index_of_key(front, k);
        if replay(front).contains_key(k) {
            let w = index_of_key(front, k);
            assert(s[w].key == k);
            assert(false);
        }
        assert(replay(front).remove(k) =~= replay(front));
        assert(replay(s).remove(k) =~= replay(front).remove(k));
    } else {
        let front = s.drop_last();
        assert(s.remove(i).drop_last() =~= front.remove(i));
        assert(s.remove(i).last() == s.last());
        lemma_replay_remove(front, i);
        assert(s.last().key != k);
        assert(replay(front).remove(k).insert(s.last().key, s.last()) =~= replay(front).insert(
            s.last().key,
            s.last(),
        ).remove(k));
    }
}

/// Replaying records with unique keys yields a map with one member per
/// record.
pub proof fn lemma_replay_len(s: Seq<EntryModel>)
    requires
        keys_unique(s),
    ensures
        replay(s).dom().finite(),
        replay(s).dom().len() == s.len(),
    decreases s.len(),
{
    if s.len() == 0 {
        assert(replay(s).dom() =~= Set::<Seq<char>>::empty());
    } else {
        let front = s.drop_last();
        lemma_replay_len(front);
        lemma_index_of_key(front, s.last().key);
        if replay(front).contains_key(s.last().key) {
            let w = index_of_key(front, s.last().key);
            assert(s[w].key == s.last().key);
            assert(false);
        }
        assert(replay(s).dom() =~= replay(front).dom().insert(s.last().key));
    }
}

/// With unique keys, a key occurs exactly once among the records when the
/// replayed map holds it, and never otherwise.
pub proof fn lemma_count_key_unique(s: Seq<EntryModel>, k: Seq<char>)
    requires
        keys_unique(s),
    ensures
        count_key(s, k) == if replay(s).contains_key(k) {
            1int
        } else {
            0int
        },
    decreases s.len(),
{
    if s.len() == 0 {
    } else {
        let front = s.drop_last();
        lemma_count_key_unique(front, k);
        lemma_index_of_key(front, k);
        if s.last().key == k {
            if replay(front).contains_key(k) {
                let w = index_of_key(front, k);
                assert(s[w].key == k);
                assert(false);
            }
        }
    }
}

/// Inserting into a sequence keeps every old element and adds the new one.
proof fn lemma_contains_after_insert<T>(s: Seq<T>, p: int, y: T)
    requires
        0 <= p <= s.len(),
    ensures
        forall|x: T| s.contains(x) ==> #[trigger] s.insert(p, y).contains(x),
        s.insert(p, y).contains(y),
{
    let s2 = s.insert(p, y);
    assert(s2[p] == y);
    assert forall|x: T| s.contains(x) implies #[trigger] s2.contains(x) by {
        let w = choose|w: int| 0 <= w < s.len() && s[w] == x;
        if w < p {
            assert(s2[w] == x);
        } else {
            assert(s2[w + 1] == x);
        }
    }
}

/// Removing an index keeps every element that differs from the removed one.
proof fn lemma_contains_after_remove<T>(s: Seq<T>, i: int)
    requires
        0 <= i < s.len(),
    ensures
        forall|x: T| s.contains(x) && x != s[i] ==> #[trigger] s.remove(i).contains(x),
        forall|x: T| #[trigger] s.remove(i).contains(x) ==> s.contains(x),
{
    let s2 = s.remove(i);
    assert forall|x: T| s.contains(x) && x != s[i] implies #[trigger] s2.contains(x) by {
        let w = choose|w: int| 0 <= w < s.len() && s[w] == x;
        if w < i {
            assert(s2[w] == x);
        } else {
            assert(s2[w - 1] == x);
        }
    }
    assert forall|x: T| #[trigger] s2.contains(x) implies s.contains(x) by {
        let w = choose|w: int| 0 <= w < s2.len() && s2[w] == x;
        if w < i {
            assert(s[w] == x);
        } else {
            assert(s[w + 1] == x);
        }
    }
}

/// The in-memory state of the engine: the entry cache and the expiration
/// index, which must always be mutated together.
pub struct State {
    entries: Vec<Entry>,
    expirations: Vec<(u64, String)>,
}

impl State {
    /// The entries as a sequence of models, in storage order.
    pub closed spec fn entries_seq(self) -> Seq<EntryModel> {
        self.entries@.map_values(|e: Entry| e@)
    }

    /// The expiration index as a sequence of (expiry time, key) pairs.
    pub closed spec fn exp_seq(self) -> Seq<(u64, Seq<char>)> {
        self.expirations@.map_values(|p: (u64, String)| (p.0, p.1@))
    }

    /// The mapping from key to current entry that the state represents.
    pub open spec fn map(self) -> Map<Seq<char>, EntryModel> {
        replay(self.entries_seq())
    }

    /// The expiration index invariant: sorted by expiry time, one pair per
    /// key, every pair backed by an entry with that expiry, and every entry
    /// with an expiry backed by a pair.
    pub open spec fn wf_exp(self) -> bool {
        let es = self.entries_seq();
        let xs = self.exp_seq();
        &&& (forall|i: int, j: int| 0 <= i <= j < xs.len() ==> (#[trigger] xs[i]).0 <= (
        #[trigger] xs[j]).0)
        &&& (forall|i: int, j: int| 0 <= i < j < xs.len() ==> (#[trigger] xs[i]).1 != (
        #[trigger] xs[j]).1)
        &&& (forall|i: int|
            0 <= i < xs.len() ==> self.map().contains_key((#[trigger] xs[i]).1) && self.map()[
                xs[i].1
            ].expires_at == Some(xs[i].0))
        &&& (forall|j: int|
            0 <= j < es.len() && (#[trigger] es[j]).expires_at is Some ==> xs.contains(
                (es[j].expires_at->0, es[j].key),
            ))
    }

    /// The state's full invariant.
    pub open spec fn wf(self) -> bool {
        &&& keys_unique(self.entries_seq())
        &&& (forall|i: int|
            0 <= i < self.entries_seq().len() ==> encodable(#[trigger] self.entries_seq()[i]))
        &&& self.wf_exp()
    }

    /// A fresh, empty state.
    pub fn new() -> (s: State)
        ensures
            s.wf(),
            s.map() == Map::<Seq<char>, EntryModel>::empty(),
            s.entries_seq().len() == 0,
    {
        let s = State { entries: Vec::new(), expirations: Vec::new() };
        proof {
            assert(s.entries_seq() =~= Seq::<EntryModel>::empty());
            assert(s.exp_seq() =~= Seq::<(u64, Seq<char>)>::empty());
        }
        s
    }

    /// The position of the entry for a key, if the key is present.
    fn position_of(&self, key: &String) -> (r: Option<usize>)
        requires
            self.wf(),
        ensures
            match r {
                Some(i) => i < self.entries_seq().len() && self.entries_seq()[i as int].key == key@
                    && self.map().contains_key(key@) && self.map()[key@] == self.entries_seq()[
                    i as int
                ],
                None => !self.map().contains_key(key@),
            },
    {
        let ghost es = self.entries_seq();
        let mut i: usize = 0;
        while i < self.entries.len()
            invariant
                i <= es.len(),
                es == self.entries_seq(),
                self.wf(),
                forall|j: int| 0 <= j < i ==> (#[trigger] es[j]).key != key@,
            decreases es.len() - i,
        {
            if self.entries[i].key == *key {
                proof {
                    lemma_index_of_key_unique(es, i as int);
                    lemma_index_of_key(es, key@);
                }
                return Some(i);
            }
            i += 1;
        }
        proof {
            lemma_index_of_key(es, key@);
            if self.map().contains_key(key@) {
                let w = index_of_key(es, key@);
                assert(es[w].key == key@);
                assert(false);
            }
        }
        None
    }

    /// Whether the key currently has an entry.
    pub fn contains(&self, key: &String) -> (r: bool)
        requires
            self.wf(),
        ensures
            r == self.map().contains_key(key@),
    {
        match self.position_of(key) {
            Some(_) => true,
            None => false,
        }
    }

    /// Borrows the entry stored for a key, if the key is present.
    pub fn lookup<'a>(&'a self, key: &String) -> (r: Option<&'a Entry>)
        requires
            self.wf(),
        ensures
            r is Some <==> self.map().contains_key(key@),
            r is Some ==> r->0@ == self.map()[key@],
    {
        match self.position_of(key) {
            Some(i) => Some(&self.entries[i]),
            None => None,
        }
    }

    /// How many entries the state holds.
    pub fn entry_count(&self) -> (r: usize)
        requires
            self.wf(),
        ensures
            r == self.entries_seq().len(),
            r == self.map().dom().len(),
            self.map().dom().finite(),
    {
        proof {
            lemma_replay_len(self.entries_seq());
        }
        self.entries.len()
    }

    /// Removes the entry for a key, and its expiration pair, if present.
    /// Absent keys are a no-op.
    pub fn remove_entry(&mut self, key: &String) -> (removed: bool)
        requires
            old(self).wf(),
        ensures
            final(self).wf(),
            final(self).map() == old(self).map().remove(key@),
            removed == old(self).map().contains_key(key@),
            !removed ==> *final(self) == *old(self),
            final(self).exp_seq().len() == old(self).exp_seq().len() - (
            if removed && old(self).map()[key@].expires_at is Some {
                1int
            } else {
                0int
            }),
    {
        let ghost es0 = self.entries_seq();
        let ghost xs0 = self.exp_seq();
        match self.position_of(key) {
            None => {
                proof {
                    assert(self.map().remove(key@) =~= self.map());
                }
                false
            },
            Some(i) => {
                let has_expiry = self.entries[i].expires_at.is_some();
                let ghost t_old = es0[i as int].expires_at;
                if has_expiry {
                    // The index invariant guarantees the pair is present.
                    proof {
                        assert(xs0.contains((t_old->0, key@)));
                    }
                    let mut h: usize = 0;
                    while h < self.expirations.len() && !(self.expirations[h].1 == *key)
                        invariant
                            h <= xs0.len(),
                            xs0 == self.exp_seq(),
                            es0 == self.entries_seq(),
                            self.wf(),
                            xs0.contains((t_old->0, key@)),
                            forall|j: int| 0 <= j < h ==> (#[trigger] xs0[j]).1 != key@,
                        decreases xs0.len() - h,
                    {
                        h += 1;
                    }
                    proof {
                        if h == xs0.len() {
                            let w = choose|w: int|
                                0 <= w < xs0.len() && xs0[w] == (t_old->0, key@);
                            assert(xs0[w].1 == key@);
                            assert(false);
                        }
                    }
                    self.expirations.remove(h);
                    proof {
                        assert(self.exp_seq() =~= xs0.remove(h as int));
                    }
                }
                let ghost xs1 = self.exp_seq();
                self.entries.remove(i);
                proof {
                    let es1 = self.entries_seq();
                    assert(es1 =~= es0.remove(i as int));
                    lemma_replay_remove(es0, i as int);
                    // keys stay unique
                    assert forall|a: int, b: int| 0 <= a < b < es1.len() implies es1[a].key != es1[
                        b
                    ].key by {
                        let a0 = if a < i { a } else { a + 1 };
                        let b0 = if b < i { b } else { b + 1 };
                        assert(es1[a] == es0[a0] && es1[b] == es0[b0]);
                    }
                    self.lemma_remove_restores_exp(es0, xs0, i as int, key@, has_expiry);
                }
                true
            },
        }
    }

    /// After removing entry `i` (key `k`) and, when it had an expiry, its
    /// pair from the index, the expiration invariant holds again.
    proof fn lemma_remove_restores_exp(
        self,
        es0: Seq<EntryModel>,
        xs0: Seq<(u64, Seq<char>)>,
        i: int,
        k: Seq<char>,
        had_expiry: bool,
    )
        requires
            keys_unique(es0),
            0 <= i < es0.len(),
            es0[i].key == k,
            replay(es0)[k] == es0[i],
            self.entries_seq() == es0.remove(i),
            self.map() == replay(es0).remove(k),
            had_expiry == (es0[i].expires_at is Some),
            !had_expiry ==> self.exp_seq() == xs0,
            had_expiry ==> exists|h: int|
                0 <= h < xs0.len() && xs0[h].1 == k && self.exp_seq() == xs0.remove(h),
            // the old index invariant
            forall|a: int, b: int| 0 <= a <= b < xs0.len() ==> (#[trigger] xs0[a]).0 <= (
            #[trigger] xs0[b]).0,
            forall|a: int, b: int| 0 <= a < b < xs0.len() ==> (#[trigger] xs0[a]).1 != (
            #[trigger] xs0[b]).1,
            forall|a: int|
                0 <= a < xs0.len() ==> replay(es0).contains_key((#[trigger] xs0[a]).1) && replay(
                    es0,
                )[xs0[a].1].expires_at == Some(xs0[a].0),
            forall|j: int|
                0 <= j < es0.len() && (#[trigger] es0[j]).expires_at is Some ==> xs0.contains(
                    (es0[j].expires_at->0, es0[j].key),
                ),
        ensures
            self.wf_exp(),
    {
        let es1 = self.entries_seq();
        let xs1 = self.exp_seq();
        if had_expiry {
            let h = choose|h: int|
                0 <= h < xs0.len() && xs0[h].1 == k && self.exp_seq() == xs0.remove(h);
            lemma_contains_after_remove(xs0, h);
            // sortedness and key-uniqueness carry over through the index shift
            assert forall|a: int, b: int| 0 <= a <= b < xs1.len() implies xs1[a].0 <= xs1[b].0 by {
                let a0 = if a < h { a } else { a + 1 };
                let b0 = if b < h { b } else { b + 1 };
                assert(xs1[a] == xs0[a0] && xs1[b] == xs0[b0]);
            }
            assert forall|a: int, b: int| 0 <= a < b < xs1.len() implies xs1[a].1 != xs1[b].1 by {
                let a0 = if a < h { a } else { a + 1 };
                let b0 = if b < h { b } else { b + 1 };
                assert(xs1[a] == xs0[a0] && xs1[b] == xs0[b0]);
            }
            assert forall|a: int|
                0 <= a < xs1.len() implies self.map().contains_key((#[trigger] xs1[a]).1)
                && self.map()[xs1[a].1].expires_at == Some(xs1[a].0) by {
                let a0 = if a < h { a } else { a + 1 };
                assert(xs1[a] == xs0[a0]);
                assert(xs0[a0].1 != xs0[h].1 || a0 == h);
                assert(xs0[h].1 == k);
                assert(xs1[a].1 != k);
            }
            assert forall|j: int|
                0 <= j < es1.len() && (#[trigger] es1[j]).expires_at is Some implies xs1.contains(
                (es1[j].expires_at->0, es1[j].key),
            ) by {
                let j0 = if j < i { j } else { j + 1 };
                assert(es1[j] == es0[j0]);
                assert(xs0.contains((es0[j0].expires_at->0, es0[j0].key)));
                assert(es0[j0].key != k);
                assert(xs0[h].1 == k);
                let w = choose|w: int|
                    0 <= w < xs0.len() && xs0[w] == (es0[j0].expires_at->0, es0[j0].key);
                assert((es0[j0].expires_at->0, es0[j0].key).1 != xs0[h].1);
                lemma_contains_after_remove(xs0, h);
            }
        } else {
            // no pair existed for `k`, so the index is untouched
            assert forall|a: int|
                0 <= a < xs1.len() implies self.map().contains_key((#[trigger] xs1[a]).1)
                && self.map()[xs1[a].1].expires_at == Some(xs1[a].0) by {
                assert(xs0[a].1 != k) by {
                    if xs0[a].1 == k {
                        assert(replay(es0)[k].expires_at == Some(xs0[a].0));
                    }
                }
            }
            assert forall|j: int|
                0 <= j < es1.len() && (#[trigger] es1[j]).expires_at is Some implies xs1.contains(
                (es1[j].expires_at->0, es1[j].key),
            ) by {
                let j0 = if j < i { j } else { j + 1 };
                assert(es1[j] == es0[j0]);
            }
        }
    }

    /// Adds an entry for a key that is not present, inserting its expiration
    /// pair (if any) at its sorted position in the index.
    pub fn push_entry(&mut self, e: Entry)
        requires
            old(self).wf(),
            !old(self).map().contains_key(e@.key),
        ensures
            final(self).wf(),
            final(self).map() == old(self).map().insert(e@.key, e@),
    {
        let ghost es0 = self.entries_seq();
        let ghost xs0 = self.exp_seq();
        let ghost m0 = self.map();
        // the wire format's 8-byte length fields must fit the key and value
        let key_bytes = e.key.as_str().as_bytes();
        proof {
            assert(vstd::slice::spec_slice_len(key_bytes) == key_bytes@.len());
            assert(vstd::std_specs::vec::spec_vec_len(&e.data) == e.data@.len());
            assert(encodable(e@));
        }
        let expires = e.expires_at;
        let key_copy = e.key.clone();
        let ghost ev = e@;
        self.entries.push(e);
        proof {
            assert(self.entries_seq() =~= es0.push(ev));
            lemma_replay_push(es0, ev);
            let es1 = self.entries_seq();
            assert forall|a: int, b: int| 0 <= a < b < es1.len() implies es1[a].key != es1[
                b
            ].key by {
                if b == es1.len() - 1 {
                    lemma_key_at_index_contained(es0, a);
                }
            }
        }
        match expires {
            None => {
                proof {
                    let es1 = self.entries_seq();
                    let xs1 = self.exp_seq();
                    assert(xs1 == xs0);
                    assert forall|a: int|
                        0 <= a < xs1.len() implies self.map().contains_key((#[trigger] xs1[a]).1)
                        && self.map()[xs1[a].1].expires_at == Some(xs1[a].0) by {
                        assert(m0.contains_key(xs0[a].1));
                        assert(xs0[a].1 != ev.key);
                    }
                    assert forall|j: int|
                        0 <= j < es1.len() && (#[trigger] es1[j]).expires_at is Some implies
                        xs1.contains((es1[j].expires_at->0, es1[j].key)) by {
                        assert(j < es0.len() && es1[j] == es0[j]);
                    }
                }
            },
            Some(t) => {
                proof {
                    assert forall|a: int, b: int|
                        0 <= a <= b < self.expirations@.len() implies (self.expirations@[a]).0 <= (
                    self.expirations@[b]).0 by {
                        assert(self.exp_seq()[a].0 == self.expirations@[a].0);
                        assert(self.exp_seq()[b].0 == self.expirations@[b].0);
                        assert(self.exp_seq()[a].0 <= self.exp_seq()[b].0);
                    }
                }
                let p = insert_sorted(&mut self.expirations, t, key_copy);
                proof {
                    let es1 = self.entries_seq();
                    let xs1 = self.exp_seq();
                    assert(xs1 =~= xs0.insert(p as int, (t, ev.key)));
                    lemma_contains_after_insert(xs0, p as int, (t, ev.key));
                    assert forall|a: int, b: int| 0 <= a <= b < xs1.len() implies xs1[a].0 <= xs1[
                        b
                    ].0 by {
                        let a0 = if a < p { a } else { a - 1 };
                        let b0 = if b < p { b } else { b - 1 };
                        if a == p && b == p {
                        } else if a == p {
                            assert(xs1[b] == xs0[b0]);
                        } else if b == p {
                            assert(xs1[a] == xs0[a0]);
                        } else {
                            assert(xs1[a] == xs0[a0] && xs1[b] == xs0[b0]);
                        }
                    }
                    assert forall|a: int, b: int| 0 <= a < b < xs1.len() implies xs1[a].1 != xs1[
                        b
                    ].1 by {
                        let a0 = if a < p { a } else { a - 1 };
                        let b0 = if b < p { b } else { b - 1 };
                        if a == p {
                            assert(xs1[b] == xs0[b0]);
                            assert(m0.contains_key(xs0[b0].1));
                        } else if b == p {
                            assert(xs1[a] == xs0[a0]);
                            assert(m0.contains_key(xs0[a0].1));
                        } else {
                            assert(xs1[a] == xs0[a0] && xs1[b] == xs0[b0]);
                        }
                    }
                    assert forall|a: int|
                        0 <= a < xs1.len() implies self.map().contains_key((#[trigger] xs1[a]).1)
                        && self.map()[xs1[a].1].expires_at == Some(xs1[a].0) by {
                        if a != p {
                            let a0 = if a < p { a } else { a - 1 };
                            assert(xs1[a] == xs0[a0]);
                            assert(m0.contains_key(xs0[a0].1));
                            assert(xs0[a0].1 != ev.key);
                        }
                    }
                    assert forall|j: int|
                        0 <= j < es1.len() && (#[trigger] es1[j]).expires_at is Some implies
                        xs1.contains((es1[j].expires_at->0, es1[j].key)) by {
                        if j < es0.len() {
                            assert(es1[j] == es0[j]);
                            assert(xs0.contains((es0[j].expires_at->0, es0[j].key)));
                        } else {
                            assert(es1[j] == ev);
                            assert(xs1[p as int] == (t, ev.key));
                        }
                    }
                }
            },
        }
    }

    /// Inserts or overwrites the entry for a key.
    pub fn upsert(&mut self, e: Entry)
        requires
            old(self).wf(),
        ensures
            final(self).wf(),
            final(self).map() == old(self).map().insert(e@.key, e@),
    {
        let key = e.key.clone();
        self.remove_entry(&key);
        self.push_entry(e);
        proof {
            assert(old(self).map().remove(key@).insert(key@, e@) =~= old(self).map().insert(
                key@,
                e@,
            ));
        }
    }

    /// Clears all entries and all expiration pairs.
    pub fn clear(&mut self)
        ensures
            final(self).wf(),
            final(self).map() == Map::<Seq<char>, EntryModel>::empty(),
            final(self).entries_seq().len() == 0,
    {
        self.entries.clear();
        self.expirations.clear();
        proof {
            assert(self.entries_seq() =~= Seq::<EntryModel>::empty());
            assert(self.exp_seq() =~= Seq::<(u64, Seq<char>)>::empty());
        }
    }

    /// Evicts every entry that is expired at `now`, walking the ordered
    /// index from its earliest member and stopping at the first live one.
    pub fn sweep_expired(&mut self, now: u64) -> (evicted: bool)
        requires
            old(self).wf(),
        ensures
            final(self).wf(),
            final(self).map() == spec_sweep(old(self).map(), now),
            !evicted ==> *final(self) == *old(self),
    {
        let ghost m0 = self.map();
        let ghost s0 = *self;
        let n0 = self.expirations.len();
        while self.expirations.len() > 0 && self.expirations[0].0 <= now
            invariant
                self.wf(),
                self.exp_seq().len() <= n0,
                self.exp_seq().len() == n0 ==> *self == s0,
                forall|k: Seq<char>|
                    #[trigger] self.map().contains_key(k) ==> m0.contains_key(k) && self.map()[k]
                        == m0[k],
                forall|k: Seq<char>|
                    #[trigger] m0.contains_key(k) && live(m0[k], now) ==> self.map().contains_key(
                        k,
                    ),
            decreases self.exp_seq().len(),
        {
            let ghost t = self.exp_seq()[0].0;
            let key = self.expirations[0].1.clone();
            proof {
                assert(self.exp_seq()[0] == (t, key@));
                assert(self.map().contains_key(key@));
                assert(self.map()[key@].expires_at == Some(t));
                assert(!live(self.map()[key@], now));
            }
            self.remove_entry(&key);
        }
        proof {
            // at exit every remaining entry is live at `now`
            assert forall|k: Seq<char>| #[trigger] self.map().contains_key(k) implies live(
                self.map()[k],
                now,
            ) by {
                if self.map()[k].expires_at is Some {
                    let t = self.map()[k].expires_at->0;
                    lemma_index_of_key(self.entries_seq(), k);
                    let i = index_of_key(self.entries_seq(), k);
                    assert(self.entries_seq()[i].expires_at is Some);
                    assert(self.exp_seq().contains((t, k)));
                    let w = choose|w: int|
                        0 <= w < self.exp_seq().len() && self.exp_seq()[w] == (t, k);
                    assert(self.exp_seq()[0].0 <= self.exp_seq()[w].0);
                    assert(self.exp_seq()[0].0 > now);
                }
            }
            assert(self.map() =~= spec_sweep(m0, now));
        }
        self.expirations.len() != n0
    }

    /// Serializes every entry, in storage order, to one byte stream: the
    /// full rewrite image of the state.
    pub fn encode_all(&self) -> (out: Vec<u8>)
        requires
            self.wf(),
        ensures
            out@ == stream_encode(self.entries_seq()),
            parse_stream(out@) == Some(self.entries_seq()),
            replay(self.entries_seq()) == self.map(),
    {
        let ghost es = self.entries_seq();
        let mut out: Vec<u8> = Vec::new();
        let mut i: usize = 0;
        proof {
            assert(es.take(0) =~= Seq::<EntryModel>::empty());
        }
        while i < self.entries.len()
            invariant
                self.wf(),
                es == self.entries_seq(),
                i <= es.len(),
                out@ == stream_encode(es.take(i as int)),
            decreases es.len() - i,
        {
            let mut enc = encode_entry(&self.entries[i]);
            out.append(&mut enc);
            proof {
                assert(es.take(i + 1).drop_last() =~= es.take(i as int));
                assert(es.take(i + 1).last() == es[i as int]);
            }
            i += 1;
        }
        proof {
            assert(es.take(es.len() as int) =~= es);
            lemma_parse_stream_encode(es);
        }
        out
    }

    /// Lists every key, in storage order.
    pub fn keys(&self) -> (r: Vec<String>)
        requires
            self.wf(),
        ensures
            r@.len() == self.entries_seq().len(),
            forall|i: int| 0 <= i < r@.len() ==> (#[trigger] r@[i])@ == self.entries_seq()[i].key,
    {
        let mut r: Vec<String> = Vec::new();
        let mut i: usize = 0;
        while i < self.entries.len()
            invariant
                self.wf(),
                i <= self.entries_seq().len(),
                r@.len() == i,
                forall|j: int|
                    0 <= j < i ==> (#[trigger] r@[j])@ == self.entries_seq()[j].key,
            decreases self.entries_seq().len() - i,
        {
            r.push(self.entries[i].key.clone());
            i += 1;
        }
        r
    }

    /// Lists every stored value, in storage order.
    pub fn values(&self) -> (r: Vec<Vec<u8>>)
        requires
            self.wf(),
        ensures
            r@.len() == self.entries_seq().len(),
            forall|i: int| 0 <= i < r@.len() ==> (#[trigger] r@[i])@ == self.entries_seq()[i].data,
    {
        let mut r: Vec<Vec<u8>> = Vec::new();
        let mut i: usize = 0;
        while i < self.entries.len()
            invariant
                self.wf(),
                i <= self.entries_seq().len(),
                r@.len() == i,
                forall|j: int|
                    0 <= j < i ==> (#[trigger] r@[j])@ == self.entries_seq()[j].data,
            decreases self.entries_seq().len() - i,
        {
            r.push(vstd::slice::slice_to_vec(self.entries[i].data.as_slice()));
            i += 1;
        }
        r
    }
}

/// Inserts a pair into a time-sorted vector at its sorted position, and
/// reports that position.
fn insert_sorted(v: &mut Vec<(u64, String)>, t: u64, key: String) -> (p: usize)
    requires
        forall|a: int, b: int| 0 <= a <= b < old(v)@.len() ==> (#[trigger] old(v)@[a]).0 <= (
        #[trigger] old(v)@[b]).0,
    ensures
        p <= old(v)@.len(),
        final(v)@ == old(v)@.insert(p as int, (t, key)),
        forall|j: int| 0 <= j < p ==> (#[trigger] old(v)@[j]).0 <= t,
        forall|j: int| p <= j < old(v)@.len() ==> (#[trigger] old(v)@[j]).0 > t,
{
    let ghost v0 = v@;
    let mut p: usize = 0;
    while p < v.len() && v[p].0 <= t
        invariant
            v@ == v0,
            p <= v0.len(),
            forall|j: int| 0 <= j < p ==> (#[trigger] v0[j]).0 <= t,
            forall|a: int, b: int| 0 <= a <= b < v0.len() ==> (#[trigger] v0[a]).0 <= (
            #[trigger] v0[b]).0,
        decreases v0.len() - p,
    {
        p += 1;
    }
    proof {
        assert forall|j: int| p <= j < v0.len() implies (#[trigger] v0[j]).0 > t by {
            assert(v0[p as int].0 <= v0[j].0);
        }
    }
    v.insert(p, (t, key));
    p
}

} // verus!
