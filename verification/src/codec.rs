//! The record codec: one stored entry (key, value bytes, optional expiry
//! timestamp) is serialized to a self-delimiting binary record, and a stream
//! of concatenated records can be decoded back one record at a time, with a
//! clean distinction between "no more records" and "malformed bytes".
//!
//! Record layout: an 8-byte little-endian key length, an 8-byte little-endian
//! value length, a one-byte expiry flag (0 = never expires, 1 = expires,
//! followed by an 8-byte little-endian timestamp), then the UTF-8 bytes of
//! the key, then the value bytes.

use vstd::prelude::*;

verus! {

use vstd::bytes::{
    spec_u64_to_le_bytes, spec_u64_from_le_bytes, u64_to_le_bytes, u64_from_le_bytes,
    lemma_auto_spec_u64_to_from_le_bytes,
};
use vstd::utf8::{
    encode_utf8, decode_utf8, valid_utf8, encode_utf8_valid_utf8, encode_utf8_decode_utf8,
};
use vstd::slice::{slice_to_vec, slice_subrange};
use vstd::string::StrSliceExecFns;

/// One stored record: the unit of storage, in memory and on disk.
pub struct Entry {
    /// The key, unique among live entries.
    pub key: String,
    /// The stored value, an opaque serialized payload.
    pub data: Vec<u8>,
    /// Absolute time (milliseconds since the Unix epoch) after which the
    /// entry is logically deleted; `None` means it never expires.
    pub expires_at: Option<u64>,
}

/// The mathematical model of an [`Entry`].
#[verifier::ext_equal]
pub struct EntryModel {
    pub key: Seq<char>,
    pub data: Seq<u8>,
    pub expires_at: Option<u64>,
}

impl View for Entry {
    type V = EntryModel;

    open spec fn view(&self) -> EntryModel {
        EntryModel { key: self.key@, data: self.data@, expires_at: self.expires_at }
    }
}

impl Entry {
    pub fn new(key: String, data: Vec<u8>, expires_at: Option<u64>) -> (e: Entry)
        ensures
            e@ == (EntryModel { key: key@, data: data@, expires_at }),
    {
        Entry { key, data, expires_at }
    }
}

/// Whether the record's lengths fit the 8-byte fields of the wire format.
/// Every entry built from executable strings and vectors satisfies this.
pub open spec fn encodable(e: EntryModel) -> bool {
    &&& encode_utf8(e.key).len() <= u64::MAX
    &&& e.data.len() <= u64::MAX
}

/// The fixed-size part of an encoded record.
pub open spec fn spec_header(e: EntryModel) -> Seq<u8> {
    spec_u64_to_le_bytes(encode_utf8(e.key).len() as u64)
        + spec_u64_to_le_bytes(e.data.len() as u64) + (match e.expires_at {
        None => seq![0u8],
        Some(t) => seq![1u8] + spec_u64_to_le_bytes(t),
    })
}

/// The encoded form of one record.
pub open spec fn spec_encode(e: EntryModel) -> Seq<u8> {
    spec_header(e) + encode_utf8(e.key) + e.data
}

/// One decoded record together with the unconsumed remainder of the stream.
#[verifier::ext_equal]
pub struct Parsed {
    pub rec: EntryModel,
    pub rest: Seq<u8>,
}

/// Reads the variable-length fields of a record whose header occupies
/// `b[0 .. off]` and announced a key of `klen` bytes and a value of `vlen`
/// bytes.  Returns the record and the unconsumed remainder of the stream,
/// or `None` if the bytes are malformed.
pub open spec fn parse_fields(
    b: Seq<u8>,
    off: int,
    klen: int,
    vlen: int,
    expires_at: Option<u64>,
) -> Option<Parsed> {
    if b.len() < off + klen + vlen {
        None
    } else {
        let kb = b.subrange(off, off + klen);
        if valid_utf8(kb) {
            Some(
                (Parsed {
                    rec: EntryModel {
                        key: decode_utf8(kb),
                        data: b.subrange(off + klen, off + klen + vlen),
                        expires_at,
                    },
                    rest: b.subrange(off + klen + vlen, b.len() as int),
                }),
            )
        } else {
            None
        }
    }
}

/// Decodes the record at the front of `b`; `None` means the bytes are
/// malformed (the empty sequence is also `None`: end of stream is the
/// caller's case, not a record).
pub open spec fn parse_entry(b: Seq<u8>) -> Option<Parsed> {
    if b.len() < 17 {
        None
    } else {
        let klen = spec_u64_from_le_bytes(b.subrange(0, 8)) as int;
        let vlen = spec_u64_from_le_bytes(b.subrange(8, 16)) as int;
        if b[16] == 0u8 {
            parse_fields(b, 17, klen, vlen, None)
        } else if b[16] == 1u8 {
            if b.len() < 25 {
                None
            } else {
                parse_fields(b, 25, klen, vlen, Some(spec_u64_from_le_bytes(b.subrange(17, 25))))
            }
        } else {
            None
        }
    }
}

/// Decodes a whole stream of concatenated records; `None` means some record
/// is malformed.
pub open spec fn parse_stream(b: Seq<u8>) -> Option<Seq<EntryModel>>
    decreases b.len(),
{
    if b.len() == 0 {
        Some(Seq::empty())
    } else {
        match parse_entry(b) {
            None => None,
            Some(p) => {
                if p.rest.len() < b.len() {
                    match parse_stream(p.rest) {
                        None => None,
                        Some(tail) => Some(seq![p.rec] + tail),
                    }
                } else {
                    None
                }
            },
        }
    }
}

/// The map a sequence of records denotes when applied in order: a later
/// record for the same key overwrites an earlier one.
pub open spec fn replay(es: Seq<EntryModel>) -> Map<Seq<char>, EntryModel>
    decreases es.len(),
{
    if es.len() == 0 {
        Map::empty()
    } else {
        replay(es.drop_last()).insert(es.last().key, es.last())
    }
}

/// How many records in the sequence carry the given key.
pub open spec fn count_key(es: Seq<EntryModel>, k: Seq<char>) -> int
    decreases es.len(),
{
    if es.len() == 0 {
        0
    } else {
        count_key(es.drop_last(), k) + if es.last().key == k {
            1int
        } else {
            0int
        }
    }
}

/// The concatenated encoding of a sequence of records.
pub open spec fn stream_encode(es: Seq<EntryModel>) -> Seq<u8>
    decreases es.len(),
{
    if es.len() == 0 {
        Seq::empty()
    } else {
        stream_encode(es.drop_last()) + spec_encode(es.last())
    }
}

/// A record's encoding is at least as long as its header.
pub proof fn lemma_encode_len(e: EntryModel)
    ensures
        spec_encode(e).len() == spec_header(e).len() + encode_utf8(e.key).len() + e.data.len(),
        spec_header(e).len() == if e.expires_at is Some { 25int } else { 17int },
{
    lemma_auto_spec_u64_to_from_le_bytes();
}

/// Round trip with framing: decoding a stream that starts with the encoding
/// of `e` yields exactly `e` and consumes exactly that encoding.
pub proof fn lemma_parse_encode(e: EntryModel, rest: Seq<u8>)
    requires
        encodable(e),
    ensures
        parse_entry(spec_encode(e) + rest) is Some,
        parse_entry(spec_encode(e) + rest)->0.rec == e,
        parse_entry(spec_encode(e) + rest)->0.rest == rest,
{
    lemma_auto_spec_u64_to_from_le_bytes();
    let kb = encode_utf8(e.key);
    let klen = kb.len() as int;
    let vlen = e.data.len() as int;
    let h1 = spec_u64_to_le_bytes(kb.len() as u64);
    let h2 = spec_u64_to_le_bytes(e.data.len() as u64);
    let full = spec_encode(e) + rest;
    encode_utf8_valid_utf8(e.key);
    encode_utf8_decode_utf8(e.key);
    match e.expires_at {
        None => {
            assert(full =~= h1 + h2 + seq![0u8] + kb + e.data + rest);
            assert(full.len() == 17 + klen + vlen + rest.len());
            assert(full.subrange(0, 8) =~= h1);
            assert(full.subrange(8, 16) =~= h2);
            assert(full[16] == 0u8);
            assert(spec_u64_from_le_bytes(full.subrange(0, 8)) as int == klen);
            assert(spec_u64_from_le_bytes(full.subrange(8, 16)) as int == vlen);
            assert(full.subrange(17, 17 + klen) =~= kb);
            assert(full.subrange(17 + klen, 17 + klen + vlen) =~= e.data);
            assert(full.subrange(17 + klen + vlen, full.len() as int) =~= rest);
            assert(parse_entry(full)->0.rec =~= e);
        },
        Some(t) => {
            let h3 = seq![1u8] + spec_u64_to_le_bytes(t);
            assert(full =~= h1 + h2 + h3 + kb + e.data + rest);
            assert(full.len() == 25 + klen + vlen + rest.len());
            assert(full.subrange(0, 8) =~= h1);
            assert(full.subrange(8, 16) =~= h2);
            assert(full[16] == 1u8);
            assert(full.subrange(17, 25) =~= spec_u64_to_le_bytes(t));
            assert(spec_u64_from_le_bytes(full.subrange(0, 8)) as int == klen);
            assert(spec_u64_from_le_bytes(full.subrange(8, 16)) as int == vlen);
            assert(spec_u64_from_le_bytes(full.subrange(17, 25)) == t);
            assert(full.subrange(25, 25 + klen) =~= kb);
            assert(full.subrange(25 + klen, 25 + klen + vlen) =~= e.data);
            assert(full.subrange(25 + klen + vlen, full.len() as int) =~= rest);
            assert(parse_entry(full)->0.rec =~= e);
        },
    }
}

/// Decoding one record only looks at the bytes it consumes: appending a
/// suffix to the stream leaves the decoded record unchanged and the suffix
/// at the end of the remainder.
pub proof fn lemma_parse_entry_extend(b: Seq<u8>, suffix: Seq<u8>)
    requires
        parse_entry(b) is Some,
    ensures
        parse_entry(b + suffix) is Some,
        parse_entry(b + suffix)->0.rec == parse_entry(b)->0.rec,
        parse_entry(b + suffix)->0.rest == parse_entry(b)->0.rest + suffix,
{
    let full = b + suffix;
    assert(full.subrange(0, 8) =~= b.subrange(0, 8));
    assert(full.subrange(8, 16) =~= b.subrange(8, 16));
    assert(full[16] == b[16]);
    let klen = spec_u64_from_le_bytes(b.subrange(0, 8)) as int;
    let vlen = spec_u64_from_le_bytes(b.subrange(8, 16)) as int;
    let off: int = if b[16] == 0u8 {
        17
    } else {
        25
    };
    if b[16] == 1u8 {
        assert(b.len() >= 25);
        assert(full.subrange(17, 25) =~= b.subrange(17, 25));
    }
    assert(b.len() >= off + klen + vlen);
    assert(full.subrange(off, off + klen) =~= b.subrange(off, off + klen));
    assert(full.subrange(off + klen, off + klen + vlen) =~= b.subrange(
        off + klen,
        off + klen + vlen,
    ));
    assert(full.subrange(off + klen + vlen, full.len() as int) =~= b.subrange(
        off + klen + vlen,
        b.len() as int,
    ) + suffix);
}

/// Appending one encoded record to a well-formed stream appends exactly that
/// record to what the stream decodes to.
pub proof fn lemma_parse_stream_append(b: Seq<u8>, e: EntryModel)
    requires
        parse_stream(b) is Some,
        encodable(e),
    ensures
        parse_stream(b + spec_encode(e)) is Some,
        parse_stream(b + spec_encode(e))->0 == parse_stream(b)->0 + seq![e],
    decreases b.len(),
{
    lemma_encode_len(e);
    if b.len() == 0 {
        assert(b + spec_encode(e) =~= spec_encode(e) + Seq::<u8>::empty());
        lemma_parse_encode(e, Seq::<u8>::empty());
        assert(parse_stream(Seq::<u8>::empty()) == Some(Seq::<EntryModel>::empty()));
        assert(parse_entry(b + spec_encode(e)) is Some);
        assert(parse_entry(b + spec_encode(e))->0.rest.len() == 0);
        assert((b + spec_encode(e)).len() >= 17);
        assert(parse_stream(b + spec_encode(e)) is Some);
        assert(parse_stream(b + spec_encode(e))->0 =~= parse_stream(b)->0 + seq![e]);
    } else {
        let rest0 = parse_entry(b)->0.rest;
        lemma_parse_entry_extend(b, spec_encode(e));
        assert(rest0.len() < b.len());
        lemma_parse_stream_append(rest0, e);
        assert(parse_entry(b + spec_encode(e))->0.rest == rest0 + spec_encode(e));
        assert(parse_stream(b + spec_encode(e))->0 =~= parse_stream(b)->0 + seq![e]);
    }
}

/// The concatenated encoding of a record sequence decodes back to exactly
/// that sequence.
pub proof fn lemma_parse_stream_encode(es: Seq<EntryModel>)
    requires
        forall|i: int| 0 <= i < es.len() ==> encodable(#[trigger] es[i]),
    ensures
        parse_stream(stream_encode(es)) is Some,
        parse_stream(stream_encode(es))->0 == es,
    decreases es.len(),
{
    if es.len() == 0 {
    } else {
        let front = es.drop_last();
        lemma_parse_stream_encode(front);
        lemma_parse_stream_append(stream_encode(front), es.last());
        assert(front + seq![es.last()] =~= es);
    }
}

/// Replaying one more record inserts it into the replayed map.
pub proof fn lemma_replay_push(es: Seq<EntryModel>, e: EntryModel)
    ensures
        replay(es.push(e)) == replay(es).insert(e.key, e),
{
    assert(es.push(e).drop_last() =~= es);
    assert(es.push(e).last() == e);
}

/// The outcome of decoding one record from a byte buffer at a position.
pub enum DecodeOutcome {
    /// The position is exactly the end of the buffer: no more records.
    Finished,
    /// One record was decoded; the second field is the position just past it.
    Item(Entry, usize),
    /// The bytes at the position are not a well-formed record.
    Malformed,
}

/// Relies on `String::from_utf8`: it succeeds exactly on valid UTF-8 input
/// and returns the string whose UTF-8 encoding is that input.
#[verifier::external_body]
fn string_from_utf8(bytes: Vec<u8>) -> (r: Option<String>)
    ensures
        r is Some <==> valid_utf8(bytes@),
        r is Some ==> encode_utf8(r->0@) == bytes@,
{
    String::from_utf8(bytes).ok()
}

/// Encodes one entry to its on-disk record form.
pub fn encode_entry(e: &Entry) -> (out: Vec<u8>)
    ensures
        out@ == spec_encode(e@),
        encodable(e@),
{
    let kb: Vec<u8> = e.key.as_str().as_bytes_vec();
    let mut out = u64_to_le_bytes(kb.len() as u64);
    let mut vl = u64_to_le_bytes(e.data.len() as u64);
    out.append(&mut vl);
    match e.expires_at {
        None => {
            out.push(0u8);
        },
        Some(t) => {
            out.push(1u8);
            let mut tb = u64_to_le_bytes(t);
            out.append(&mut tb);
        },
    }
    let mut kbm = kb;
    out.append(&mut kbm);
    let mut db = slice_to_vec(e.data.as_slice());
    out.append(&mut db);
    proof {
        assert(out@ =~= spec_encode(e@));
    }
    out
}

/// Decodes the record starting at `pos` in `b`, distinguishing a clean end
/// of stream from malformed bytes.
pub fn decode_entry(b: &Vec<u8>, pos: usize) -> (r: DecodeOutcome)
    requires
        pos <= b@.len(),
    ensures
        ({
            let suffix = b@.subrange(pos as int, b@.len() as int);
            match r {
                DecodeOutcome::Finished => pos == b@.len(),
                DecodeOutcome::Malformed => pos < b@.len() && parse_entry(suffix) is None,
                DecodeOutcome::Item(e, next) => {
                    &&& parse_entry(suffix) is Some
                    &&& e@ == parse_entry(suffix)->0.rec
                    &&& pos < next <= b@.len()
                    &&& b@.subrange(next as int, b@.len() as int) == parse_entry(suffix)->0.rest
                    &&& encodable(e@)
                },
            }
        }),
{
    let ghost suffix = b@.subrange(pos as int, b@.len() as int);
    proof {
        lemma_auto_spec_u64_to_from_le_bytes();
    }
    let len = b.len();
    if pos == len {
        return DecodeOutcome::Finished;
    }
    if len - pos < 17 {
        return DecodeOutcome::Malformed;
    }
    proof {
        assert(suffix.subrange(0, 8) =~= b@.subrange(pos as int, pos + 8));
        assert(suffix.subrange(8, 16) =~= b@.subrange(pos + 8, pos + 16));
        assert(suffix[16] == b@[pos + 16]);
    }
    let klen_u = u64_from_le_bytes(slice_subrange(b.as_slice(), pos, pos + 8));
    let vlen_u = u64_from_le_bytes(slice_subrange(b.as_slice(), pos + 8, pos + 16));
    let flag = b[pos + 16];
    let expires_at: Option<u64>;
    let off: usize;
    if flag == 0 {
        expires_at = None;
        off = pos + 17;
    } else if flag == 1 {
        if len - pos < 25 {
            return DecodeOutcome::Malformed;
        }
        proof {
            assert(suffix.subrange(17, 25) =~= b@.subrange(pos + 17, pos + 25));
        }
        let t = u64_from_le_bytes(slice_subrange(b.as_slice(), pos + 17, pos + 25));
        expires_at = Some(t);
        off = pos + 25;
    } else {
        return DecodeOutcome::Malformed;
    }
    let ghost off_rel: int = off - pos;
    let avail = (len - off) as u64;
    if klen_u > avail {
        return DecodeOutcome::Malformed;
    }
    let klen = klen_u as usize;
    if vlen_u > avail - klen_u {
        return DecodeOutcome::Malformed;
    }
    let vlen = vlen_u as usize;
    let key_end = off + klen;
    proof {
        assert(suffix.len() >= off_rel + klen + vlen);
        assert(suffix.subrange(off_rel, off_rel + klen) =~= b@.subrange(
            off as int,
            key_end as int,
        ));
    }
    let kb = slice_to_vec(slice_subrange(b.as_slice(), off, key_end));
    match string_from_utf8(kb) {
        None => DecodeOutcome::Malformed,
        Some(key) => {
            proof {
                encode_utf8_decode_utf8(key@);
                assert(suffix.subrange(off_rel + klen, off_rel + klen + vlen) =~= b@.subrange(
                    key_end as int,
                    (key_end + vlen) as int,
                ));
                assert(suffix.subrange(off_rel + klen + vlen, suffix.len() as int) =~= b@.subrange(
                    (key_end + vlen) as int,
                    b@.len() as int,
                ));
            }
            let data = slice_to_vec(slice_subrange(b.as_slice(), key_end, key_end + vlen));
            let next = key_end + vlen;
            let e = Entry { key, data, expires_at };
            proof {
                assert(e@ =~= parse_entry(suffix)->0.rec);
            }
            DecodeOutcome::Item(e, next)
        },
    }
}

} // verus!
