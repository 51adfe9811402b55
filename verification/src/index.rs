//! The index of a segment: for each key, where in the segment's file the
//! last record with that key stands. Also the indexes of all segments of a
//! directory, and what the write-ahead log holds.

use crate::byte_map::ByteMap;
use crate::directory::{contents, get_store_files, names_of, Directory};
use crate::error::StoreError;
use crate::mem_table::{entry_of, is_entry_of, lemma_meanings_insert, meanings, TableEntry};
use crate::order::{compare, Rank};
use crate::record::{
    decode_all, folded, last_position, lemma_folded, lemma_folded_push, lemma_last_position,
    lemma_overlaid_push, lemma_scan_end, lemma_scan_records, overlaid, records, table_of,
    well_formed, Decoding, Stored,
};
use crate::segment::{
    file_id_from_path, filename_for_file_id, id_of_name, is_canonical_segment_name,
    is_segment_name, lemma_segment_name, segment_name, wal_name, write_ahead_log_filename,
};
use std::collections::HashMap;
use vstd::prelude::*;
use vstd::slice::slice_to_vec;

verus! {

broadcast use vstd::std_specs::hash::group_hash_axioms;

/// Where a record stands: the sizes of its key and value, the position of
/// its first byte in the segment's file, and the segment's id.
#[derive(Clone, Copy, Debug, PartialEq, Eq, Structural)]
pub struct StoreEntry {
    pub value_size: usize,
    pub key_size: usize,
    pub byte_offset: usize,
    pub file_id: u64,
}

/// The index of one segment.
pub type StoreData = ByteMap<StoreEntry>;

/// The indexes of all segments, by segment id.
pub type StoreIndexes = HashMap<u64, StoreData>;

/// The index entry of one record.
pub open spec fn entry_for(rec: Stored, file_id: u64) -> StoreEntry {
    StoreEntry {
        value_size: rec.value.len() as usize,
        key_size: rec.key.len() as usize,
        byte_offset: rec.offset as usize,
        file_id,
    }
}

/// The index that comes of `start` when the records are entered in order.
pub open spec fn indexed(start: Map<Seq<u8>, StoreEntry>, recs: Seq<Stored>, file_id: u64) -> Map<
    Seq<u8>,
    StoreEntry,
> {
    folded(start, recs, |rec: Stored| entry_for(rec, file_id))
}

/// The index of a segment with the given records: under each key the entry
/// of the last record with that key.
pub open spec fn index_of(recs: Seq<Stored>, file_id: u64) -> Map<Seq<u8>, StoreEntry> {
    indexed(Map::empty(), recs, file_id)
}

/// Whether every file that ends as a segment file's name does is named as
/// segment files are, and holds whole records only.
pub open spec fn openable(files: Map<Seq<u8>, Seq<u8>>) -> bool {
    forall|n: Seq<u8>|
        files.contains_key(n) && #[trigger] is_segment_name(n) ==> is_canonical_segment_name(n)
            && well_formed(files[n])
}

/// Whether `indexes` holds, for each segment file and no other id, the index
/// of that file.
pub open spec fn indexes_match(indexes: Map<u64, StoreData>, files: Map<Seq<u8>, Seq<u8>>) -> bool {
    &&& forall|id: u64| #[trigger]
        indexes.contains_key(id) <==> files.contains_key(segment_name(id))
    &&& forall|id: u64| #[trigger]
        indexes.contains_key(id) ==> indexes[id].wf() && indexes[id]@ == index_of(
            records(files[segment_name(id)]),
            id,
        )
}

/// Whether `highest` is the highest id of a segment file, or 1 where no
/// segment file has an id above 0.
pub open spec fn is_highest(files: Map<Seq<u8>, Seq<u8>>, highest: u64) -> bool {
    &&& highest >= 1
    &&& highest == 1 || files.contains_key(segment_name(highest))
    &&& forall|id: u64| #[trigger] files.contains_key(segment_name(id)) ==> id <= highest
}

/// An index names the keys that the segment's records name.
pub proof fn lemma_index_keys(recs: Seq<Stored>, file_id: u64, key: Seq<u8>)
    ensures
        index_of(recs, file_id).contains_key(key) == table_of(recs).contains_key(key),
{
    lemma_folded(
        Map::<Seq<u8>, StoreEntry>::empty(),
        recs,
        |rec: Stored| entry_for(rec, file_id),
        key,
    );
    lemma_folded(Map::<Seq<u8>, Seq<u8>>::empty(), recs, |rec: Stored| rec.value, key);
}

/// The entry of a key leads to the value that the segment holds for it: the
/// value's bytes stand in the file behind the record's two size fields and
/// its key.
pub proof fn lemma_index_locates(bytes: Seq<u8>, file_id: u64, key: Seq<u8>)
    requires
        bytes.len() <= usize::MAX,
        index_of(records(bytes), file_id).contains_key(key),
    ensures
        ({
            let entry = index_of(records(bytes), file_id)[key];
            let start = entry.byte_offset + 8 + entry.key_size;
            &&& table_of(records(bytes)).contains_key(key)
            &&& entry.file_id == file_id
            &&& entry.key_size == key.len()
            &&& start + entry.value_size <= bytes.len()
            &&& table_of(records(bytes))[key] == bytes.subrange(start, start + entry.value_size)
        }),
{
    let recs = records(bytes);
    lemma_folded(
        Map::<Seq<u8>, StoreEntry>::empty(),
        recs,
        |rec: Stored| entry_for(rec, file_id),
        key,
    );
    lemma_folded(Map::<Seq<u8>, Seq<u8>>::empty(), recs, |rec: Stored| rec.value, key);
    lemma_last_position(recs, key);
    let at = last_position(recs, key);
    lemma_scan_records(bytes, 0, at);
    lemma_scan_end(bytes, 0);
}

/// Entering a record after others overrides what they said of its key.
pub proof fn lemma_overlaid_is_union(start: Map<Seq<u8>, Seq<u8>>, recs: Seq<Stored>)
    ensures
        overlaid(start, recs) == start.union_prefer_right(table_of(recs)),
{
    let left = overlaid(start, recs);
    let right = start.union_prefer_right(table_of(recs));
    assert forall|k: Seq<u8>| #[trigger] left.contains_key(k) implies right.contains_key(k)
        && left[k] == right[k] by {
        lemma_folded(start, recs, |rec: Stored| rec.value, k);
        lemma_folded(Map::<Seq<u8>, Seq<u8>>::empty(), recs, |rec: Stored| rec.value, k);
    }
    assert forall|k: Seq<u8>| #[trigger] right.contains_key(k) implies left.contains_key(k) by {
        lemma_folded(start, recs, |rec: Stored| rec.value, k);
        lemma_folded(Map::<Seq<u8>, Seq<u8>>::empty(), recs, |rec: Stored| rec.value, k);
    }
    assert(left =~= right);
}

/// Reads the segment file `file_id` and enters each of its records into
/// `store_data`, a later record in place of an earlier one with the same key.
/// Fails if the file is missing, and, after entering the records that are
/// whole, if the file does not end with the last of them.
pub fn parse_store_file_into_store_data(
    dir: &Directory,
    file_id: u64,
    store_data: &mut StoreData,
) -> (r: Result<(), StoreError>)
    requires
        dir.wf(),
        old(store_data).wf(),
    ensures
        final(store_data).wf(),
        !dir@.contains_key(segment_name(file_id)) ==> r == Err::<(), StoreError>(StoreError::Io)
            && final(store_data)@ == old(store_data)@,
        dir@.contains_key(segment_name(file_id)) ==> {
            let bytes = dir@[segment_name(file_id)];
            &&& final(store_data)@ == indexed(old(store_data)@, records(bytes), file_id)
            &&& r == (if well_formed(bytes) {
                Ok::<(), StoreError>(())
            } else {
                Err::<(), StoreError>(StoreError::Malformed)
            })
        },
{
    let name = filename_for_file_id(file_id);
    let buffer = match dir.read(name.as_slice()) {
        Some(buffer) => buffer,
        None => {
            return Err(StoreError::Io);
        },
    };
    let found = decode_all(buffer.as_slice());
    let ghost recs = records(buffer@);
    let ghost start = store_data@;
    let count: usize = found.records.len();
    let mut i: usize = 0;
    assert(recs.subrange(0, 0) =~= Seq::<Stored>::empty());
    while i < count
        invariant
            i <= count,
            count == recs.len(),
            recs == records(buffer@),
            found.is_scan_of(buffer@),
            store_data.wf(),
            store_data@ == indexed(start, recs.subrange(0, i as int), file_id),
        decreases count - i,
    {
        let kv = &found.records[i];
        let entry = StoreEntry {
            value_size: kv.value_size as usize,
            key_size: kv.key_size as usize,
            byte_offset: found.offsets[i],
            file_id,
        };
        proof {
            let rec = recs[i as int];
            lemma_scan_records(buffer@, 0, i as int);
            assert(entry == entry_for(rec, file_id));
            assert(recs.subrange(0, i + 1) =~= recs.subrange(0, i as int).push(rec));
            lemma_folded_push(
                start,
                recs.subrange(0, i as int),
                rec,
                |rec: Stored| entry_for(rec, file_id),
            );
        }
        store_data.insert(slice_to_vec(kv.key.as_slice()), entry);
        i += 1;
    }
    assert(recs.subrange(0, i as int) =~= recs);
    if found.end < buffer.len() {
        Err(StoreError::Malformed)
    } else {
        Ok(())
    }
}

/// Reads the segment file `file_id` and stores each of its records' values
/// in `key_values` under the record's key, a later value in place of an
/// earlier one and an empty value as a deletion. Fails as
/// `parse_store_file_into_store_data` does.
pub fn parse_file_into_kv(
    dir: &Directory,
    file_id: u64,
    key_values: &mut ByteMap<TableEntry>,
) -> (r: Result<(), StoreError>)
    requires
        dir.wf(),
        old(key_values).wf(),
    ensures
        final(key_values).wf(),
        !dir@.contains_key(segment_name(file_id)) ==> r == Err::<(), StoreError>(StoreError::Io)
            && final(key_values)@ == old(key_values)@,
        dir@.contains_key(segment_name(file_id)) ==> {
            let bytes = dir@[segment_name(file_id)];
            &&& meanings(final(key_values)@) == overlaid(
                meanings(old(key_values)@),
                records(bytes),
            )
            &&& forall|k: Seq<u8>| #[trigger]
                final(key_values)@.contains_key(k) ==> if last_position(records(bytes), k) >= 0 {
                    is_entry_of(
                        final(key_values)@[k],
                        records(bytes)[last_position(records(bytes), k)].value,
                    )
                } else {
                    old(key_values)@.contains_key(k) && final(key_values)@[k] == old(
                        key_values,
                    )@[k]
                }
            &&& r == (if well_formed(bytes) {
                Ok::<(), StoreError>(())
            } else {
                Err::<(), StoreError>(StoreError::Malformed)
            })
        },
{
    let name = filename_for_file_id(file_id);
    let buffer = match dir.read(name.as_slice()) {
        Some(buffer) => buffer,
        None => {
            return Err(StoreError::Io);
        },
    };
    let found = decode_all(buffer.as_slice());
    let ghost recs = records(buffer@);
    let ghost start = meanings(key_values@);
    let count: usize = found.records.len();
    let mut i: usize = 0;
    assert(recs.subrange(0, 0) =~= Seq::<Stored>::empty());
    while i < count
        invariant
            i <= count,
            count == recs.len(),
            recs == records(buffer@),
            found.is_scan_of(buffer@),
            key_values.wf(),
            meanings(key_values@) == overlaid(start, recs.subrange(0, i as int)),
            forall|k: Seq<u8>| #[trigger]
                key_values@.contains_key(k) ==> if last_position(recs.subrange(0, i as int), k)
                    >= 0 {
                    is_entry_of(
                        key_values@[k],
                        recs[last_position(recs.subrange(0, i as int), k)].value,
                    )
                } else {
                    old(key_values)@.contains_key(k) && key_values@[k] == old(key_values)@[k]
                },
        decreases count - i,
    {
        let kv = &found.records[i];
        let ghost before = key_values@;
        let entry = entry_of(kv.value.as_slice());
        proof {
            let rec = recs[i as int];
            let seen = recs.subrange(0, i as int);
            let seen_more = recs.subrange(0, i + 1);
            assert(seen_more =~= seen.push(rec));
            assert(seen_more.drop_last() =~= seen);
            lemma_overlaid_push(start, seen, rec);
            lemma_meanings_insert(before, rec.key, entry);
            assert forall|k: Seq<u8>| #[trigger]
                before.insert(rec.key, entry).contains_key(k) implies if last_position(
                seen_more,
                k,
            ) >= 0 {
                is_entry_of(
                    before.insert(rec.key, entry)[k],
                    recs[last_position(seen_more, k)].value,
                )
            } else {
                old(key_values)@.contains_key(k) && before.insert(rec.key, entry)[k] == old(
                    key_values,
                )@[k]
            } by {
                lemma_last_position(seen, k);
                if k != rec.key {
                    assert(before.contains_key(k));
                }
            }
        }
        key_values.insert(slice_to_vec(kv.key.as_slice()), entry);
        i += 1;
    }
    assert(recs.subrange(0, i as int) =~= recs);
    if found.end < buffer.len() {
        Err(StoreError::Malformed)
    } else {
        Ok(())
    }
}

/// Reads the write-ahead log: the records at its start that are whole, and
/// where they end. A log that is missing holds none.
pub fn restore_from_wal(dir: &Directory) -> (found: Decoding)
    requires
        dir.wf(),
    ensures
        found.is_scan_of(contents(dir@, wal_name())),
{
    let name = write_ahead_log_filename();
    match dir.read(name.as_slice()) {
        Some(buffer) => decode_all(buffer.as_slice()),
        None => {
            let empty: Vec<u8> = Vec::new();
            decode_all(empty.as_slice())
        },
    }
}

/// Builds the index of every segment file of the directory, and finds the
/// highest segment id. Fails if a file that ends as segment files do is not
/// named as they are, or does not hold whole records only.
pub fn build_store_from_dir(dir: &Directory) -> (r: Result<(StoreIndexes, u64), StoreError>)
    requires
        dir.wf(),
    ensures
        r is Ok <==> openable(dir@),
        r is Err ==> r->Err_0 == StoreError::Malformed,
        r is Ok ==> indexes_match(r->Ok_0.0@, dir@) && is_highest(dir@, r->Ok_0.1),
{
    let entries = get_store_files(dir);
    let mut highest_file_id: u64 = 1;
    let mut store_index: StoreIndexes = HashMap::new();
    let ghost names = names_of(entries@);
    let mut i: usize = 0;
    while i < entries.len()
        invariant
            dir.wf(),
            i <= entries.len(),
            names == names_of(entries@),
            forall|n: Seq<u8>| #[trigger]
                names.contains(n) <==> dir@.contains_key(n) && is_segment_name(n),
            forall|j: int|
                0 <= j < i ==> is_canonical_segment_name(#[trigger] names[j]) && well_formed(
                    dir@[names[j]],
                ),
            forall|id: u64| #[trigger]
                store_index@.contains_key(id) ==> exists|j: int|
                    0 <= j < i && names[j] == segment_name(id),
            forall|j: int|
                0 <= j < i ==> store_index@.contains_key(id_of_name(#[trigger] names[j])->Some_0),
            forall|id: u64| #[trigger]
                store_index@.contains_key(id) ==> store_index@[id].wf() && store_index@[id]@
                    == index_of(records(dir@[segment_name(id)]), id) && id <= highest_file_id,
            highest_file_id >= 1,
            highest_file_id == 1 || store_index@.contains_key(highest_file_id),
        decreases entries.len() - i,
    {
        let entry = &entries[i];
        assert(names[i as int] == entry@);
        assert(names.contains(entry@));
        let current_file_id = match file_id_from_path(entry.as_slice()) {
            Ok(id) => id,
            Err(e) => {
                return Err(e);
            },
        };
        let canonical = filename_for_file_id(current_file_id);
        match compare(canonical.as_slice(), entry.as_slice()) {
            Rank::Same => {},
            _ => {
                return Err(StoreError::Malformed);
            },
        }
        if current_file_id > highest_file_id {
            highest_file_id = current_file_id;
        }
        let mut store_data: StoreData = ByteMap::new();
        match parse_store_file_into_store_data(dir, current_file_id, &mut store_data) {
            Ok(()) => {},
            Err(e) => {
                return Err(e);
            },
        }
        let ghost before = store_index@;
        store_index.insert(current_file_id, store_data);
        proof {
            assert forall|id: u64| #[trigger] store_index@.contains_key(id) implies exists|j: int|
                0 <= j < i + 1 && names[j] == segment_name(id) by {
                if id == current_file_id {
                    assert(names[i as int] == segment_name(id));
                } else {
                    assert(before.contains_key(id));
                    let j = choose|j: int| 0 <= j < i && names[j] == segment_name(id);
                    assert(names[j] == segment_name(id));
                }
            }
        }
        i += 1;
    }
    proof {
        assert forall|n: Seq<u8>| dir@.contains_key(n) && #[trigger] is_segment_name(
            n,
        ) implies is_canonical_segment_name(n) && well_formed(dir@[n]) by {
            assert(names.contains(n));
            let j = choose|j: int| 0 <= j < names.len() && names[j] == n;
            assert(is_canonical_segment_name(names[j]));
        }
        assert forall|id: u64| #[trigger]
            store_index@.contains_key(id) <==> dir@.contains_key(segment_name(id)) by {
            lemma_segment_name(id);
            if store_index@.contains_key(id) {
                let j = choose|j: int| 0 <= j < i && names[j] == segment_name(id);
                assert(names.contains(names[j]));
            }
            if dir@.contains_key(segment_name(id)) {
                assert(names.contains(segment_name(id)));
                let j = choose|j: int| 0 <= j < names.len() && names[j] == segment_name(id);
                assert(store_index@.contains_key(id_of_name(names[j])->Some_0));
            }
        }
        assert forall|id: u64| #[trigger] dir@.contains_key(segment_name(id)) implies id
            <= highest_file_id by {
            assert(store_index@.contains_key(id));
        }
        if highest_file_id != 1 {
            assert(store_index@.contains_key(highest_file_id));
        }
    }
    Ok((store_index, highest_file_id))
}

} // verus!
