//! The write buffer: what was written since the last flush, by key.

use crate::byte_map::ByteMap;
use crate::record::fits;
use vstd::prelude::*;
use vstd::slice::slice_to_vec;

verus! {

/// What the write buffer holds for a key.
#[derive(Clone, Debug, PartialEq, Eq)]
pub enum TableEntry {
    /// The key was deleted.
    Tombstone,
    /// The key was given this value.
    Populated(Vec<u8>),
}

/// The value that an entry of the write buffer stands for: a deletion is an
/// empty value.
pub open spec fn meaning(entry: TableEntry) -> Seq<u8> {
    match entry {
        TableEntry::Tombstone => Seq::empty(),
        TableEntry::Populated(value) => value@,
    }
}

/// The values that a table of entries stands for.
pub open spec fn meanings(table: Map<Seq<u8>, TableEntry>) -> Map<Seq<u8>, Seq<u8>> {
    Map::new(|k: Seq<u8>| table.contains_key(k), |k: Seq<u8>| meaning(table[k]))
}

/// Whether every key of the table and what it stands for are short enough
/// for a record.
pub open spec fn all_fit(table: Map<Seq<u8>, TableEntry>) -> bool {
    forall|k: Seq<u8>| #[trigger] table.contains_key(k) ==> fits(k, meaning(table[k]))
}

/// Whether the entry stands for a value, and for an empty one as a deletion.
pub open spec fn is_entry_of(entry: TableEntry, value: Seq<u8>) -> bool {
    meaning(entry) == value && (entry is Tombstone <==> value.len() == 0)
}

/// The entry that stands for a value: a deletion if the value is empty.
pub fn entry_of(value: &[u8]) -> (entry: TableEntry)
    ensures
        is_entry_of(entry, value@),
{
    if value.len() == 0 {
        assert(value@ =~= Seq::<u8>::empty());
        TableEntry::Tombstone
    } else {
        TableEntry::Populated(slice_to_vec(value))
    }
}

/// Storing an entry under a key stores what the entry stands for.
pub proof fn lemma_meanings_insert(table: Map<Seq<u8>, TableEntry>, key: Seq<u8>, entry: TableEntry)
    ensures
        meanings(table.insert(key, entry)) == meanings(table).insert(key, meaning(entry)),
{
    assert(meanings(table.insert(key, entry)) =~= meanings(table).insert(key, meaning(entry)));
}

/// Stores `value` under `key` in the write buffer and counts their bytes.
/// Nothing is written to the log.
pub fn put_into_memory(
    mem_table: &mut ByteMap<TableEntry>,
    bytes_written: &mut u64,
    key: &[u8],
    value: &[u8],
)
    requires
        old(mem_table).wf(),
        *old(bytes_written) + key@.len() + value@.len() <= u64::MAX,
    ensures
        final(mem_table).wf(),
        final(mem_table)@ == old(mem_table)@.insert(key@, final(mem_table)@[key@]),
        final(mem_table)@[key@] matches TableEntry::Populated(stored) && stored@ == value@,
        meanings(final(mem_table)@) == meanings(old(mem_table)@).insert(key@, value@),
        *final(bytes_written) == *old(bytes_written) + key@.len() + value@.len(),
{
    let key_len: usize = key.len();
    let ghost before = mem_table@;
    let entry = TableEntry::Populated(slice_to_vec(value));
    mem_table.insert(slice_to_vec(key), entry);
    assert(meanings(before.insert(key@, entry)) =~= meanings(before).insert(key@, value@));
    *bytes_written = *bytes_written + (key_len as u64 + value.len() as u64);
}

} // verus!
