//! The record codec: how one key and its value are laid out in a segment file
//! and in the write-ahead log, and what a run of such records holds.
//!
//! A record is the key's length as four little-endian bytes, the key, the
//! value's length as four little-endian bytes, and the value. A record whose
//! value is empty marks its key as deleted.

use crate::error::StoreError;
use vstd::bytes::{
    lemma_auto_spec_u32_to_from_le_bytes, spec_u32_from_le_bytes, spec_u32_to_le_bytes,
    u32_from_le_bytes, u32_to_le_bytes,
};
use vstd::prelude::*;
use vstd::slice::{slice_subrange, slice_to_vec};

verus! {

/// The longest key or value that a size field can describe.
pub const MAX_FIELD_BYTES: usize = 0xffff_ffff;

/// A record as it was read: the two size fields and the bytes they announce.
#[derive(Clone, Debug, PartialEq, Eq)]
pub struct KeyValue {
    pub value_size: u32,
    pub key_size: u32,
    pub key: Vec<u8>,
    pub value: Vec<u8>,
}

/// Whether both the key and the value are short enough for a size field.
pub open spec fn fits(key: Seq<u8>, value: Seq<u8>) -> bool {
    key.len() <= MAX_FIELD_BYTES && value.len() <= MAX_FIELD_BYTES
}

/// The encoding of one record.
pub open spec fn encoded(key: Seq<u8>, value: Seq<u8>) -> Seq<u8> {
    spec_u32_to_le_bytes(key.len() as u32) + key + spec_u32_to_le_bytes(value.len() as u32)
        + value
}

/// The number of bytes that the encoding of a record takes.
pub open spec fn encoded_len(key: Seq<u8>, value: Seq<u8>) -> int {
    8 + key.len() as int + value.len() as int
}

/// The bytes of a value that may be missing: none if it is.
pub open spec fn value_or_empty(value: Option<&[u8]>) -> Seq<u8> {
    match value {
        Some(v) => v@,
        None => Seq::empty(),
    }
}

/// What decoding finds at one position: the key, the value, and the position
/// just behind the record.
pub struct Decoded {
    pub key: Seq<u8>,
    pub value: Seq<u8>,
    pub next: int,
}

/// The record that starts at `pos`, if the bytes from there on hold one whole.
pub open spec fn decoded_at(bytes: Seq<u8>, pos: int) -> Option<Decoded> {
    if pos < 0 || pos + 4 > bytes.len() {
        None
    } else {
        let key_size = spec_u32_from_le_bytes(bytes.subrange(pos, pos + 4)) as int;
        if pos + 4 + key_size + 4 > bytes.len() {
            None
        } else {
            let value_size = spec_u32_from_le_bytes(
                bytes.subrange(pos + 4 + key_size, pos + 8 + key_size),
            ) as int;
            if pos + 8 + key_size + value_size > bytes.len() {
                None
            } else {
                Some(
                    Decoded {
                        key: bytes.subrange(pos + 4, pos + 4 + key_size),
                        value: bytes.subrange(
                            pos + 8 + key_size,
                            pos + 8 + key_size + value_size,
                        ),
                        next: pos + 8 + key_size + value_size,
                    },
                )
            }
        }
    }
}

/// A record together with the position at which it starts.
pub struct Stored {
    pub key: Seq<u8>,
    pub value: Seq<u8>,
    pub offset: int,
}

/// The outcome of reading records one after another: the records read, and
/// the position at which reading stopped.
pub struct Scan {
    pub recs: Seq<Stored>,
    pub end: int,
}

/// Reads records from `pos` on, for as long as a whole record follows.
pub open spec fn scan_from(bytes: Seq<u8>, pos: int) -> Scan
    decreases bytes.len() - pos,
{
    match decoded_at(bytes, pos) {
        None => Scan { recs: Seq::empty(), end: pos },
        Some(d) => {
            let rest = scan_from(bytes, d.next);
            Scan {
                recs: seq![Stored { key: d.key, value: d.value, offset: pos }] + rest.recs,
                end: rest.end,
            }
        },
    }
}

/// The records at the start of `bytes`, up to the first position at which no
/// whole record follows.
pub open spec fn scan(bytes: Seq<u8>) -> Scan {
    scan_from(bytes, 0)
}

/// Whether `bytes` is a run of whole records and nothing else.
pub open spec fn well_formed(bytes: Seq<u8>) -> bool {
    scan(bytes).end == bytes.len()
}

/// The records of `bytes`, in the order in which they stand.
pub open spec fn records(bytes: Seq<u8>) -> Seq<Stored> {
    scan(bytes).recs
}

/// The keys of the records, in order.
pub open spec fn record_keys(recs: Seq<Stored>) -> Seq<Seq<u8>> {
    Seq::new(recs.len(), |i: int| recs[i].key)
}

/// The bytes of keys and values that the records with a value hold: what
/// replaying the records counts as written.
pub open spec fn pressure_of(recs: Seq<Stored>) -> nat
    decreases recs.len(),
{
    if recs.len() == 0 {
        0
    } else if recs.last().value.len() == 0 {
        pressure_of(recs.drop_last())
    } else {
        pressure_of(recs.drop_last()) + recs.last().key.len() + recs.last().value.len()
    }
}

/// The map that comes of `start` when each record in turn stores under its
/// key what `f` makes of the record: of several records with one key the last
/// one counts.
pub open spec fn folded<V>(
    start: Map<Seq<u8>, V>,
    recs: Seq<Stored>,
    f: spec_fn(Stored) -> V,
) -> Map<Seq<u8>, V>
    decreases recs.len(),
{
    if recs.len() == 0 {
        start
    } else {
        folded(start, recs.drop_last(), f).insert(recs.last().key, f(recs.last()))
    }
}

/// What a run of records adds to what `start` says of each key: the value of
/// the last record that names the key. An empty value stands for a deletion.
pub open spec fn overlaid(start: Map<Seq<u8>, Seq<u8>>, recs: Seq<Stored>) -> Map<
    Seq<u8>,
    Seq<u8>,
> {
    folded(start, recs, |rec: Stored| rec.value)
}

/// What a run of records says of each key.
pub open spec fn table_of(recs: Seq<Stored>) -> Map<Seq<u8>, Seq<u8>> {
    overlaid(Map::empty(), recs)
}

/// The position of the last record with the given key, or -1 if no record
/// has it.
pub open spec fn last_position(recs: Seq<Stored>, key: Seq<u8>) -> int
    decreases recs.len(),
{
    if recs.len() == 0 {
        -1
    } else if recs.last().key == key {
        recs.len() - 1
    } else {
        last_position(recs.drop_last(), key)
    }
}

/// Decoding the encoding of a record, wherever it stands among other bytes,
/// gives back the key and the value, byte for byte, and ends just behind it.
pub proof fn lemma_decode_encoded(before: Seq<u8>, key: Seq<u8>, value: Seq<u8>, after: Seq<u8>)
    requires
        fits(key, value),
    ensures
        decoded_at(before + encoded(key, value) + after, before.len() as int) == Some(
            Decoded { key, value, next: before.len() + encoded_len(key, value) },
        ),
        encoded(key, value).len() == encoded_len(key, value),
{
    lemma_auto_spec_u32_to_from_le_bytes();
    let bytes = before + encoded(key, value) + after;
    let pos = before.len() as int;
    let key_field = spec_u32_to_le_bytes(key.len() as u32);
    let value_field = spec_u32_to_le_bytes(value.len() as u32);
    assert(bytes.subrange(pos, pos + 4) =~= key_field);
    assert(bytes.subrange(pos + 4 + key.len(), pos + 8 + key.len()) =~= value_field);
    assert(bytes.subrange(pos + 4, pos + 4 + key.len()) =~= key);
    assert(bytes.subrange(pos + 8 + key.len(), pos + 8 + key.len() + value.len()) =~= value);
}

/// A record that is whole within `bytes` stays the same record when more
/// bytes follow.
pub proof fn lemma_decoded_stable(bytes: Seq<u8>, more: Seq<u8>, pos: int)
    requires
        decoded_at(bytes, pos) is Some,
    ensures
        decoded_at(bytes + more, pos) == decoded_at(bytes, pos),
{
    let longer = bytes + more;
    let key_size = spec_u32_from_le_bytes(bytes.subrange(pos, pos + 4)) as int;
    assert(longer.subrange(pos, pos + 4) =~= bytes.subrange(pos, pos + 4));
    assert(longer.subrange(pos + 4 + key_size, pos + 8 + key_size) =~= bytes.subrange(
        pos + 4 + key_size,
        pos + 8 + key_size,
    ));
    let d = decoded_at(bytes, pos)->Some_0;
    assert(longer.subrange(pos + 4, pos + 4 + key_size) =~= d.key);
    assert(longer.subrange(pos + 8 + key_size, d.next) =~= d.value);
}

/// Reading stops within the bytes, at or behind the position where it began.
pub proof fn lemma_scan_end(bytes: Seq<u8>, pos: int)
    requires
        0 <= pos <= bytes.len(),
    ensures
        pos <= scan_from(bytes, pos).end <= bytes.len(),
    decreases bytes.len() - pos,
{
    match decoded_at(bytes, pos) {
        None => {},
        Some(d) => {
            lemma_scan_end(bytes, d.next);
        },
    }
}

/// Every record that reading finds is the record that decoding finds at its
/// offset, and lies within the bytes.
pub proof fn lemma_scan_records(bytes: Seq<u8>, pos: int, i: int)
    requires
        0 <= pos,
        0 <= i < scan_from(bytes, pos).recs.len(),
    ensures
        ({
            let rec = scan_from(bytes, pos).recs[i];
            &&& pos <= rec.offset
            &&& decoded_at(bytes, rec.offset) == Some(
                Decoded {
                    key: rec.key,
                    value: rec.value,
                    next: rec.offset + encoded_len(rec.key, rec.value),
                },
            )
            &&& fits(rec.key, rec.value)
            &&& rec.offset + encoded_len(rec.key, rec.value) <= scan_from(bytes, pos).end
        }),
    decreases bytes.len() - pos,
{
    match decoded_at(bytes, pos) {
        None => {},
        Some(d) => {
            if i > 0 {
                lemma_scan_records(bytes, d.next, i - 1);
            } else {
                if d.next <= bytes.len() {
                    lemma_scan_end(bytes, d.next);
                }
            }
        },
    }
}

/// The records that reading finds stand one behind the other: the first at
/// the position where reading began, each next one where the one before it
/// ends, and reading stops where the last one ends.
pub proof fn lemma_scan_consecutive(bytes: Seq<u8>, pos: int, i: int)
    requires
        0 <= pos,
        0 <= i < scan_from(bytes, pos).recs.len(),
    ensures
        ({
            let found = scan_from(bytes, pos);
            let behind = found.recs[i].offset + encoded_len(found.recs[i].key, found.recs[i].value);
            &&& found.recs[0].offset == pos
            &&& i + 1 < found.recs.len() ==> found.recs[i + 1].offset == behind
            &&& i + 1 == found.recs.len() ==> found.end == behind
        }),
    decreases bytes.len() - pos,
{
    match decoded_at(bytes, pos) {
        None => {},
        Some(d) => {
            let rest = scan_from(bytes, d.next);
            if i > 0 {
                lemma_scan_consecutive(bytes, d.next, i - 1);
            } else if rest.recs.len() > 0 {
                lemma_scan_consecutive(bytes, d.next, 0);
            }
        },
    }
}

/// Appending the encoding of one record to a run of whole records gives a run
/// of whole records: the same records, then the new one at the old end.
pub proof fn lemma_scan_append(bytes: Seq<u8>, pos: int, key: Seq<u8>, value: Seq<u8>)
    requires
        0 <= pos <= bytes.len(),
        scan_from(bytes, pos).end == bytes.len(),
        fits(key, value),
    ensures
        scan_from(bytes + encoded(key, value), pos) == (Scan {
            recs: scan_from(bytes, pos).recs.push(
                Stored { key, value, offset: bytes.len() as int },
            ),
            end: bytes.len() + encoded_len(key, value),
        }),
    decreases bytes.len() - pos,
{
    let longer = bytes + encoded(key, value);
    match decoded_at(bytes, pos) {
        None => {
            assert(pos == bytes.len());
            lemma_decode_encoded(bytes, key, value, Seq::empty());
            assert(longer =~= bytes + encoded(key, value) + Seq::<u8>::empty());
            let d = decoded_at(longer, pos)->Some_0;
            assert(decoded_at(longer, d.next) is None);
            assert(scan_from(longer, d.next).recs =~= Seq::<Stored>::empty());
            assert(scan_from(longer, pos).recs =~= Seq::<Stored>::empty().push(
                Stored { key, value, offset: pos },
            ));
        },
        Some(d) => {
            lemma_decoded_stable(bytes, encoded(key, value), pos);
            lemma_scan_end(bytes, d.next);
            lemma_scan_append(bytes, d.next, key, value);
            let head = seq![Stored { key: d.key, value: d.value, offset: pos }];
            let rest = scan_from(bytes, d.next).recs;
            let last = Stored { key, value, offset: bytes.len() as int };
            assert(head + rest.push(last) =~= (head + rest).push(last));
        },
    }
}

/// What follows the last whole record can be cut off: the bytes up to where
/// reading stops hold the same records, and nothing else.
pub proof fn lemma_scan_prefix(bytes: Seq<u8>, pos: int)
    requires
        0 <= pos <= bytes.len(),
    ensures
        ({
            let found = scan_from(bytes, pos);
            scan_from(bytes.subrange(0, found.end), pos) == found
        }),
    decreases bytes.len() - pos,
{
    lemma_scan_end(bytes, pos);
    let found = scan_from(bytes, pos);
    let kept = bytes.subrange(0, found.end);
    match decoded_at(bytes, pos) {
        None => {},
        Some(d) => {
            lemma_scan_end(bytes, d.next);
            lemma_scan_prefix(bytes, d.next);
            let key_size = spec_u32_from_le_bytes(bytes.subrange(pos, pos + 4)) as int;
            assert(kept.subrange(pos, pos + 4) =~= bytes.subrange(pos, pos + 4));
            assert(kept.subrange(pos + 4 + key_size, pos + 8 + key_size) =~= bytes.subrange(
                pos + 4 + key_size,
                pos + 8 + key_size,
            ));
            assert(kept.subrange(pos + 4, pos + 4 + key_size) =~= d.key);
            assert(kept.subrange(pos + 8 + key_size, d.next) =~= d.value);
        },
    }
}

/// The last position of a key is a position of a record with that key, behind
/// which no record has the key; and it is -1 only if no record has the key.
pub proof fn lemma_last_position(recs: Seq<Stored>, key: Seq<u8>)
    ensures
        -1 <= last_position(recs, key) < recs.len(),
        last_position(recs, key) >= 0 ==> recs[last_position(recs, key)].key == key,
        forall|j: int|
            last_position(recs, key) < j < recs.len() ==> (#[trigger] recs[j]).key != key,
    decreases recs.len(),
{
    if recs.len() > 0 && recs.last().key != key {
        lemma_last_position(recs.drop_last(), key);
        assert forall|j: int| last_position(recs, key) < j < recs.len() implies (#[trigger]
        recs[j]).key != key by {
            if j < recs.len() - 1 {
                assert(recs.drop_last()[j] == recs[j]);
            }
        }
    }
}

/// Under each key a folded map holds what the last record with that key
/// gives, and what `start` held where no record has the key.
pub proof fn lemma_folded<V>(
    start: Map<Seq<u8>, V>,
    recs: Seq<Stored>,
    f: spec_fn(Stored) -> V,
    key: Seq<u8>,
)
    ensures
        ({
            let at = last_position(recs, key);
            let map = folded(start, recs, f);
            if at >= 0 {
                map.contains_key(key) && map[key] == f(recs[at])
            } else {
                map.contains_key(key) == start.contains_key(key) && (start.contains_key(key)
                    ==> map[key] == start[key])
            }
        }),
    decreases recs.len(),
{
    if recs.len() > 0 {
        lemma_folded(start, recs.drop_last(), f, key);
        lemma_last_position(recs, key);
        let at = last_position(recs, key);
        if at >= 0 && at < recs.len() - 1 {
            assert(recs.drop_last()[at] == recs[at]);
        }
    }
}

/// One more record stores one more value.
pub proof fn lemma_folded_push<V>(
    start: Map<Seq<u8>, V>,
    recs: Seq<Stored>,
    rec: Stored,
    f: spec_fn(Stored) -> V,
)
    ensures
        folded(start, recs.push(rec), f) == folded(start, recs, f).insert(rec.key, f(rec)),
{
    assert(recs.push(rec).drop_last() =~= recs);
}

/// One more record overrides what was said of its key.
pub proof fn lemma_overlaid_push(start: Map<Seq<u8>, Seq<u8>>, recs: Seq<Stored>, rec: Stored)
    ensures
        overlaid(start, recs.push(rec)) == overlaid(start, recs).insert(rec.key, rec.value),
{
    lemma_folded_push(start, recs, rec, |rec: Stored| rec.value);
}

/// What the records of some bytes say of a key is short enough for a
/// record, as is the key.
pub proof fn lemma_table_fits(bytes: Seq<u8>, key: Seq<u8>)
    requires
        table_of(records(bytes)).contains_key(key),
    ensures
        fits(key, table_of(records(bytes))[key]),
{
    let recs = records(bytes);
    lemma_folded(Map::<Seq<u8>, Seq<u8>>::empty(), recs, |rec: Stored| rec.value, key);
    lemma_last_position(recs, key);
    lemma_scan_records(bytes, 0, last_position(recs, key));
}

/// Whether a size field can say this length.
pub fn field_holds(length: usize) -> (b: bool)
    ensures
        b == (length <= MAX_FIELD_BYTES),
{
    length <= MAX_FIELD_BYTES
}

/// Appends one record to `writer`: the key's size, the key, the value's
/// size, and the value if there is one. Returns the number of bytes written.
pub fn append_kv_to_file(
    writer: &mut Vec<u8>,
    key_size: u32,
    key: &[u8],
    value_size: u32,
    value: Option<&[u8]>,
) -> (written: usize)
    requires
        key_size == key@.len(),
        value_size == value_or_empty(value).len(),
    ensures
        final(writer)@ == old(writer)@ + encoded(key@, value_or_empty(value)),
        written == encoded_len(key@, value_or_empty(value)),
{
    let ghost before = writer@;
    let start: usize = writer.len();
    let key_size_bytes = u32_to_le_bytes(key_size);
    writer.extend_from_slice(key_size_bytes.as_slice());
    writer.extend_from_slice(key);
    let value_size_bytes = u32_to_le_bytes(value_size);
    writer.extend_from_slice(value_size_bytes.as_slice());
    if let Some(v) = value {
        writer.extend_from_slice(v);
    }
    proof {
        assert(writer@ =~= before + encoded(key@, value_or_empty(value)));
        assert(writer@.len() == before.len() + encoded_len(key@, value_or_empty(value)));
    }
    writer.len() - start
}

/// Encodes one record and appends it to `out`; a missing value is written as
/// an empty one. Returns the number of bytes appended, or refuses a key or a
/// value that is too long for its size field and leaves `out` as it was.
pub fn encode_into(out: &mut Vec<u8>, key: &[u8], value: Option<&[u8]>) -> (r: Result<
    usize,
    StoreError,
>)
    ensures
        match r {
            Ok(written) => {
                &&& fits(key@, value_or_empty(value))
                &&& final(out)@ == old(out)@ + encoded(key@, value_or_empty(value))
                &&& written == encoded_len(key@, value_or_empty(value))
            },
            Err(e) => {
                &&& !fits(key@, value_or_empty(value))
                &&& e == StoreError::InvalidArgument
                &&& final(out)@ == old(out)@
            },
        },
{
    let value_len: usize = match value {
        Some(v) => v.len(),
        None => 0,
    };
    if !field_holds(key.len()) || !field_holds(value_len) {
        return Err(StoreError::InvalidArgument);
    }
    Ok(append_kv_to_file(out, key.len() as u32, key, value_len as u32, value))
}

/// Decodes the record that starts at `*cursor` and moves the cursor just
/// behind it. Where the bytes that remain do not hold a whole record, the
/// cursor stays where it was.
pub fn decode_record(bytes: &[u8], cursor: &mut usize) -> (r: Result<KeyValue, StoreError>)
    ensures
        match decoded_at(bytes@, *old(cursor) as int) {
            Some(d) => {
                &&& r is Ok
                &&& r->Ok_0.key@ == d.key
                &&& r->Ok_0.value@ == d.value
                &&& r->Ok_0.key_size == d.key.len()
                &&& r->Ok_0.value_size == d.value.len()
                &&& *final(cursor) == d.next
            },
            None => {
                &&& r == Err::<KeyValue, StoreError>(StoreError::Malformed)
                &&& *final(cursor) == *old(cursor)
            },
        },
{
    let start: usize = *cursor;
    let len: usize = bytes.len();
    if start > len || len - start < 4 {
        return Err(StoreError::Malformed);
    }
    let key_size: u32 = u32_from_le_bytes(slice_subrange(bytes, start, start + 4));
    let key_start: usize = start + 4;
    let key_len: usize = key_size as usize;
    if len - key_start < key_len || len - key_start - key_len < 4 {
        return Err(StoreError::Malformed);
    }
    let key_end: usize = key_start + key_len;
    let value_size: u32 = u32_from_le_bytes(slice_subrange(bytes, key_end, key_end + 4));
    let value_start: usize = key_end + 4;
    let value_len: usize = value_size as usize;
    if len - value_start < value_len {
        return Err(StoreError::Malformed);
    }
    let value_end: usize = value_start + value_len;
    let key = slice_to_vec(slice_subrange(bytes, key_start, key_end));
    let value = slice_to_vec(slice_subrange(bytes, value_start, value_end));
    *cursor = value_end;
    Ok(KeyValue { value_size, key_size, key, value })
}

/// The records that were read from the start of some bytes, each with the
/// position at which it starts, and the position at which reading stopped.
pub struct Decoding {
    pub records: Vec<KeyValue>,
    pub offsets: Vec<usize>,
    pub end: usize,
}

impl Decoding {
    /// Whether this is what reading `bytes` from the start gives.
    pub open spec fn is_scan_of(&self, bytes: Seq<u8>) -> bool {
        let found = scan(bytes);
        &&& self.end == found.end
        &&& self.end <= bytes.len()
        &&& self.records@.len() == found.recs.len()
        &&& self.offsets@.len() == found.recs.len()
        &&& forall|i: int|
            0 <= i < found.recs.len() ==> {
                &&& (#[trigger] self.records@[i]).key@ == found.recs[i].key
                &&& self.records@[i].value@ == found.recs[i].value
                &&& self.records@[i].key_size == found.recs[i].key.len()
                &&& self.records@[i].value_size == found.recs[i].value.len()
            }
        &&& forall|i: int|
            0 <= i < found.recs.len() ==> (#[trigger] self.offsets@[i]) == found.recs[i].offset
    }
}

/// Decodes records from the start of `bytes` for as long as a whole record
/// follows.
pub fn decode_all(bytes: &[u8]) -> (found: Decoding)
    ensures
        found.is_scan_of(bytes@),
{
    let mut records: Vec<KeyValue> = Vec::new();
    let mut offsets: Vec<usize> = Vec::new();
    let mut cursor: usize = 0;
    let ghost mut seen: Seq<Stored> = Seq::empty();
    proof {
        assert(seen + scan_from(bytes@, 0).recs =~= scan(bytes@).recs);
    }
    loop
        invariant
            cursor <= bytes.len(),
            scan(bytes@).recs == seen + scan_from(bytes@, cursor as int).recs,
            scan(bytes@).end == scan_from(bytes@, cursor as int).end,
            records@.len() == seen.len(),
            offsets@.len() == seen.len(),
            forall|i: int|
                0 <= i < seen.len() ==> {
                    &&& (#[trigger] records@[i]).key@ == seen[i].key
                    &&& records@[i].value@ == seen[i].value
                    &&& records@[i].key_size == seen[i].key.len()
                    &&& records@[i].value_size == seen[i].value.len()
                },
            forall|i: int| 0 <= i < seen.len() ==> (#[trigger] offsets@[i]) == seen[i].offset,
        decreases bytes.len() - cursor,
    {
        let start: usize = cursor;
        match decode_record(bytes, &mut cursor) {
            Err(_) => {
                proof {
                    assert(seen + Seq::<Stored>::empty() =~= seen);
                }
                return Decoding { records, offsets, end: cursor };
            },
            Ok(kv) => {
                proof {
                    let rec = Stored { key: kv.key@, value: kv.value@, offset: start as int };
                    let rest = scan_from(bytes@, cursor as int).recs;
                    assert(seen + (seq![rec] + rest) =~= seen.push(rec) + rest);
                    seen = seen.push(rec);
                }
                records.push(kv);
                offsets.push(start);
            },
        }
    }
}

} // verus!
