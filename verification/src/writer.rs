//! Writing a segment: the records of a table of entries, and their index.

use crate::byte_map::{lemma_ascending_distinct, ByteMap};
use crate::index::{entry_for, index_of, StoreData, StoreEntry};
use crate::mem_table::{all_fit, meaning, meanings, TableEntry};
use crate::record::{
    append_kv_to_file, encoded, encoded_len, fits, lemma_decode_encoded, lemma_folded_push,
    lemma_overlaid_push, lemma_scan_append, record_keys, records, scan, table_of, value_or_empty,
    well_formed, Scan, Stored,
};
use vstd::prelude::*;
use vstd::slice::slice_to_vec;

verus! {

/// Appends the record of one key to `writer`, and gives the index entry of
/// the record, which starts at `file_offset`, with the number of bytes
/// written.
pub fn create_entry(
    writer: &mut Vec<u8>,
    key: &[u8],
    value: Option<&[u8]>,
    file_offset: usize,
    file_id: u64,
) -> (r: (StoreEntry, usize))
    requires
        fits(key@, value_or_empty(value)),
    ensures
        final(writer)@ == old(writer)@ + encoded(key@, value_or_empty(value)),
        r.1 == encoded_len(key@, value_or_empty(value)),
        r.0 == entry_for(
            Stored { key: key@, value: value_or_empty(value), offset: file_offset as int },
            file_id,
        ),
{
    let value_size: u32 = match value {
        Some(v) => v.len() as u32,
        None => 0,
    };
    let key_size: usize = key.len();
    let bytes_written = append_kv_to_file(writer, key_size as u32, key, value_size, value);
    let entry = StoreEntry {
        value_size: value_size as usize,
        key_size,
        byte_offset: file_offset,
        file_id,
    };
    (entry, bytes_written)
}

/// Writes the entries of a table as the records of a segment, in ascending
/// order of their keys, a deleted key as a record with an empty value; and
/// builds the segment's index.
pub fn write_table(table: &ByteMap<TableEntry>, file_id: u64) -> (r: (Vec<u8>, StoreData))
    requires
        table.wf(),
        all_fit(table@),
    ensures
        well_formed(r.0@),
        record_keys(records(r.0@)) == table.keys(),
        table_of(records(r.0@)) == meanings(table@),
        r.1.wf(),
        r.1@ == index_of(records(r.0@), file_id),
{
    let mut writer: Vec<u8> = Vec::new();
    let mut store_index: StoreData = ByteMap::new();
    let mut file_offset: usize = 0;
    let ghost mut recs: Seq<Stored> = Seq::empty();
    let count: usize = table.len();
    let mut i: usize = 0;
    proof {
        assert(record_keys(recs) =~= table.keys().subrange(0, 0));
    }
    while i < count
        invariant
            table.wf(),
            all_fit(table@),
            i <= count,
            count == table.keys().len(),
            file_offset == writer@.len(),
            scan(writer@) == (Scan { recs, end: writer@.len() as int }),
            record_keys(recs) == table.keys().subrange(0, i as int),
            store_index.wf(),
            store_index@ == index_of(recs, file_id),
            forall|j: int|
                0 <= j < i ==> table_of(recs).contains_key(#[trigger] table.keys()[j])
                    && table_of(recs)[table.keys()[j]] == meaning(table.values()[j]),
            forall|k: Seq<u8>| #[trigger]
                table_of(recs).contains_key(k) ==> exists|j: int|
                    0 <= j < i && table.keys()[j] == k,
        decreases count - i,
    {
        let key = table.key_at(i);
        let value: Option<&[u8]> = match table.value_at(i) {
            TableEntry::Tombstone => None,
            TableEntry::Populated(v) => Some(v.as_slice()),
        };
        proof {
            table.lemma_at(i as int);
            assert(value_or_empty(value) == meaning(table.values()[i as int]));
        }
        let ghost before = writer@;
        let ghost rec = Stored {
            key: key@,
            value: value_or_empty(value),
            offset: file_offset as int,
        };
        let (entry, _bytes_written) = create_entry(
            &mut writer,
            key.as_slice(),
            value,
            file_offset,
            file_id,
        );
        store_index.insert(slice_to_vec(key.as_slice()), entry);
        file_offset = writer.len();
        proof {
            lemma_scan_append(before, 0, rec.key, rec.value);
            lemma_decode_encoded(before, rec.key, rec.value, Seq::empty());
            lemma_folded_push(
                Map::<Seq<u8>, StoreEntry>::empty(),
                recs,
                rec,
                |rec: Stored| entry_for(rec, file_id),
            );
            lemma_overlaid_push(Map::<Seq<u8>, Seq<u8>>::empty(), recs, rec);
            let longer = recs.push(rec);
            assert(record_keys(recs).len() == recs.len());
            assert(table.keys().subrange(0, i as int).len() == i);
            assert(record_keys(longer).len() == i + 1);
            assert forall|j: int| 0 <= j < i implies record_keys(longer)[j] == table.keys()[j] by {
                assert(record_keys(recs)[j] == table.keys().subrange(0, i as int)[j]);
                assert(longer[j] == recs[j]);
            }
            assert(record_keys(longer)[i as int] == table.keys()[i as int]);
            assert(record_keys(longer) =~= table.keys().subrange(0, i + 1));
            assert forall|j: int| 0 <= j < i + 1 implies table_of(longer).contains_key(
                #[trigger] table.keys()[j],
            ) && table_of(longer)[table.keys()[j]] == meaning(table.values()[j]) by {
                if j < i && table.keys()[j] == table.keys()[i as int] {
                    lemma_ascending_distinct(table.keys(), j, i as int);
                }
            }
            assert forall|k: Seq<u8>| #[trigger] table_of(longer).contains_key(k) implies exists|
                j: int,
            |
                0 <= j < i + 1 && table.keys()[j] == k by {
                if k == rec.key {
                    assert(table.keys()[i as int] == k);
                } else {
                    assert(table_of(recs).contains_key(k));
                    let j = choose|j: int| 0 <= j < i && table.keys()[j] == k;
                    assert(table.keys()[j] == k);
                }
            }
            recs = longer;
        }
        i += 1;
    }
    proof {
        assert(table.keys().subrange(0, i as int) =~= table.keys());
        let built = table_of(recs);
        let meant = meanings(table@);
        assert forall|k: Seq<u8>| #[trigger] built.contains_key(k) implies meant.contains_key(k)
            && built[k] == meant[k] by {
            let j = choose|j: int| 0 <= j < i && table.keys()[j] == k;
            table.lemma_at(j);
        }
        assert forall|k: Seq<u8>| #[trigger] meant.contains_key(k) implies built.contains_key(
            k,
        ) by {
            let j = table.lemma_position(k);
            assert(table.keys()[j] == k);
        }
        assert(built =~= meant);
    }
    (writer, store_index)
}

} // verus!
