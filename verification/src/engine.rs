//! The store: a write buffer in memory, a write-ahead log, segment files with
//! their indexes, and the operations on them.

use crate::byte_map::{ascending, lemma_ascending_distinct, ByteMap};
use crate::directory::{
    changes_of, contents, get_store_files, lemma_segment_names, lemma_single_name, names_of,
    replayed, segment_names, Change, ChangeModel, Directory,
};
use crate::error::StoreError;
use crate::index::{
    build_store_from_dir, index_of, indexes_match, is_highest, lemma_index_keys,
    lemma_index_locates, openable, parse_file_into_kv, restore_from_wal, StoreData, StoreIndexes,
};
use crate::layout::{
    flushing, lemma_compacted, lemma_flushed, lemma_merge_fits, lemma_merge_step,
    lemma_names_differ, lemma_no_segments, lemma_one_more, lemma_same_segments, log_consistent,
    logging, opening_log, removals, replacing, same_segments, segments_of,
};
use crate::mem_table::{
    all_fit, lemma_meanings_insert, meaning, meanings, put_into_memory, TableEntry,
};
use crate::record::{
    encode_into, encoded, encoded_len, fits, lemma_decode_encoded, lemma_overlaid_push,
    lemma_scan_append, lemma_scan_consecutive, lemma_scan_end, lemma_scan_prefix,
    lemma_scan_records, lemma_table_fits, pressure_of, record_keys, records, scan, table_of,
    well_formed, Decoding, Stored,
};
use crate::segment::{
    file_id_from_path, filename_for_file_id, is_canonical_segment_name, is_segment_name,
    lemma_other_names, lemma_segment_name, lemma_sorted_ids, lemma_temp_segment_name,
    segment_name, sort_file_ids, strictly_ascending, temp_filename_for_file_id,
    temp_segment_name, wal_name, wal_temp_name, write_ahead_log_filename,
    write_ahead_log_temp_filename,
};
use crate::state::{lemma_flush_get, lemma_merged_skip, lemma_put_get, live, merged_below, State};
use crate::writer::write_table;
use vstd::prelude::*;
use vstd::slice::{slice_subrange, slice_to_vec};

verus! {

broadcast use vstd::std_specs::hash::group_hash_axioms;

/// The number of bytes written to the buffer that trigger a flush, unless the
/// limit is set otherwise: 5 MiB.
pub const DEFAULT_MEM_TABLE_SIZE_LIMIT: u64 = 5 * 1024 * 1024;

/// A persistent store of keys and values, both byte strings.
pub struct Store {
    current_file_id: u64,
    dir: Directory,
    /// The count of bytes written to the buffer above which a write flushes.
    pub mem_table_size_limit_in_bytes: u64,
    active_mem_table: ByteMap<TableEntry>,
    store_indexes: StoreIndexes,
    bytes_written_since_last_flush: u64,
}

impl Store {
    /// The files of the store's directory.
    pub closed spec fn directory(&self) -> Map<Seq<u8>, Seq<u8>> {
        self.dir@
    }

    /// The files as they were when the store's changes to its directory
    /// were last handed on.
    pub closed spec fn saved_directory(&self) -> Map<Seq<u8>, Seq<u8>> {
        self.dir.base()
    }

    /// The changes to the directory that were not handed on yet.
    pub closed spec fn pending_changes(&self) -> Seq<ChangeModel> {
        self.dir.pending()
    }

    /// The names of the files that end as segment files do, ascending.
    pub closed spec fn segment_files(&self) -> Seq<Seq<u8>> {
        segment_names(self.dir.names())
    }

    /// The indexes of the segments, by segment id.
    pub closed spec fn indexes(&self) -> Map<u64, StoreData> {
        self.store_indexes@
    }

    /// The count of bytes written to the buffer above which a write flushes.
    pub closed spec fn limit(&self) -> u64 {
        self.mem_table_size_limit_in_bytes
    }

    /// The bytes of keys and values written to the buffer since the last
    /// flush.
    pub closed spec fn bytes_since_flush(&self) -> u64 {
        self.bytes_written_since_last_flush
    }

    /// What the store holds.
    pub closed spec fn state(&self) -> State {
        State {
            pending: meanings(self.active_mem_table@),
            segments: segments_of(self.dir@),
            current: self.current_file_id,
        }
    }

    /// The invariant of the store: its parts are well formed, each segment
    /// file has its index and each index its file, the current id is the
    /// highest, and the log says what is pending.
    pub closed spec fn wf(&self) -> bool {
        &&& self.dir.wf()
        &&& self.active_mem_table.wf()
        &&& openable(self.dir@)
        &&& indexes_match(self.store_indexes@, self.dir@)
        &&& is_highest(self.dir@, self.current_file_id)
        &&& log_consistent(
            self.dir@,
            meanings(self.active_mem_table@),
            self.bytes_written_since_last_flush,
        )
    }

    /// Whether the store is what opening a directory with the given files
    /// gives: the log's whole records are pending, the segments are those of
    /// the files, the current id is the highest, the limit is the default
    /// one, and of the files only the log has changed, which has lost what
    /// followed its last whole record, by way of its temporary replacement.
    pub open spec fn opened(&self, files: Map<Seq<u8>, Seq<u8>>) -> bool {
        let log = contents(files, wal_name());
        &&& self.wf()
        &&& self.state().pending == table_of(records(log))
        &&& self.state().segments == segments_of(files)
        &&& is_highest(files, self.state().current)
        &&& self.limit() == DEFAULT_MEM_TABLE_SIZE_LIMIT
        &&& self.bytes_since_flush() == pressure_of(records(log))
        &&& self.directory() == (if scan(log).end < log.len() {
            files.remove(wal_temp_name())
        } else {
            files
        }).insert(wal_name(), log.subrange(0, scan(log).end))
    }

    /// Whether the store's directory is what a flush makes of `files`: what
    /// was pending stands as the segment with the current id, each key once
    /// and in ascending order, and the log is empty.
    pub open spec fn flushed_from(
        &self,
        files: Map<Seq<u8>, Seq<u8>>,
        pending: Map<Seq<u8>, Seq<u8>>,
        changes: Seq<ChangeModel>,
    ) -> bool {
        let name = segment_name(self.state().current);
        let segment = self.directory()[name];
        &&& self.directory() == files.insert(name, segment).remove(wal_temp_name()).insert(
            wal_name(),
            Seq::<u8>::empty(),
        )
        &&& self.pending_changes() == changes + flushing(self.state().current, segment)
        &&& well_formed(segment)
        &&& ascending(record_keys(records(segment)))
        &&& table_of(records(segment)) == pending
    }

    /// Whether `after` is what writing `value` under `key` makes of this
    /// store, and `r` the answer. A key or a value that is too long is
    /// refused and nothing changes. Else the record is added to the log and
    /// the value is pending; and if more bytes than the limit allows were
    /// written since the last flush, what is pending is flushed, unless no
    /// segment id is left, which is the answer then.
    pub open spec fn written(
        &self,
        after: Store,
        key: Seq<u8>,
        value: Seq<u8>,
        r: Result<(), StoreError>,
    ) -> bool {
        let pressure = self.bytes_since_flush() + key.len() + value.len();
        let stored = self.state().put(key, value);
        let logged = self.directory().insert(
            wal_name(),
            self.directory()[wal_name()] + encoded(key, value),
        );
        &&& after.wf()
        &&& after.limit() == self.limit()
        &&& after.saved_directory() == self.saved_directory()
        &&& if !fits(key, value) {
            &&& r == Err::<(), StoreError>(StoreError::InvalidArgument)
            &&& after.state() == self.state()
            &&& after.directory() == self.directory()
            &&& after.pending_changes() == self.pending_changes()
            &&& after.bytes_since_flush() == self.bytes_since_flush()
        } else if pressure <= self.limit() {
            &&& r == Ok::<(), StoreError>(())
            &&& after.state() == stored
            &&& after.directory() == logged
            &&& after.pending_changes() == self.pending_changes() + logging(key, value)
            &&& after.bytes_since_flush() == pressure
        } else if self.state().current == u64::MAX {
            &&& r == Err::<(), StoreError>(StoreError::OutOfSegmentIds)
            &&& after.state() == stored
            &&& after.directory() == logged
            &&& after.pending_changes() == self.pending_changes() + logging(key, value)
            &&& after.bytes_since_flush() == pressure
        } else {
            &&& r == Ok::<(), StoreError>(())
            &&& after.state() == stored.flush()
            &&& after.bytes_since_flush() == 0
            &&& after.flushed_from(
                logged,
                stored.pending,
                self.pending_changes() + logging(key, value),
            )
        }
    }

    /// What the invariant of the store says. The current id is at least 1
    /// and the highest segment id, unless there is no segment. Every file
    /// that ends as segment files do is named by its id and holds whole
    /// records only; each of them has its index and there is no other
    /// index. The log is there, holds whole records only, and they say what
    /// is pending, so that the directory says all that the store holds. The
    /// changes that were not handed on lead from the files as they were to
    /// the files as they are.
    pub proof fn lemma_wf(&self)
        requires
            self.wf(),
        ensures
            self.state().bounded(),
            is_highest(self.directory(), self.state().current),
            openable(self.directory()),
            indexes_match(self.indexes(), self.directory()),
            log_consistent(self.directory(), self.state().pending, self.bytes_since_flush()),
            self.state().segments == segments_of(self.directory()),
            self.directory() == replayed(self.saved_directory(), self.pending_changes()),
            ascending(self.segment_files()),
            forall|n: Seq<u8>| #[trigger]
                self.segment_files().contains(n) <==> self.directory().contains_key(n)
                    && is_segment_name(n),
    {
        self.dir.lemma_pending();
        self.dir.lemma_names();
        lemma_segment_names(self.dir.names());
    }

    /// After a write the key has the value that was written, none if that
    /// was empty, and every other key has the value that it had, whether
    /// the write flushed or not.
    pub proof fn lemma_written(
        &self,
        after: Store,
        key: Seq<u8>,
        value: Seq<u8>,
        r: Result<(), StoreError>,
        other: Seq<u8>,
    )
        requires
            self.wf(),
            fits(key, value),
            self.written(after, key, value, r),
        ensures
            after.state().get(key) == live(value),
            other != key ==> after.state().get(other) == self.state().get(other),
    {
        let written = self.state().put(key, value);
        lemma_put_get(self.state(), key, value, other);
        if after.state() != written {
            lemma_flush_get(written, key);
            lemma_flush_get(written, other);
        }
    }

    /// Opening the directory of a store gives a store that holds the same:
    /// what was flushed is found in the segments, and what was not is found
    /// in the log.
    pub proof fn lemma_reopen(&self, other: Store)
        requires
            self.wf(),
            other.opened(self.directory()),
        ensures
            openable(self.directory()),
            other.state() == self.state(),
            other.directory() == self.directory(),
    {
        let files = self.dir@;
        let log = files[wal_name()];
        assert(log.subrange(0, scan(log).end) =~= log);
        assert(other.dir@ =~= files);
        assert(other.state().pending =~= self.state().pending);
    }

    /// Opens the store on a directory. Unless the directory is to be kept,
    /// all its files are deleted first. The index of every segment file is
    /// built; the log is created if it is missing, loses what follows its
    /// last whole record, and its records are replayed into the write
    /// buffer: a record with an empty value as a deletion. Refused if a file
    /// that ends as segment files do is not named as they are, or does not
    /// hold whole records only.
    pub fn new(dir: Directory, keep_existing_dir: bool) -> (r: Result<Store, StoreError>)
        requires
            dir.wf(),
        ensures
            ({
                let files = if keep_existing_dir {
                    dir@
                } else {
                    Map::<Seq<u8>, Seq<u8>>::empty()
                };
                &&& r is Ok <==> openable(files)
                &&& r is Err ==> r->Err_0 == StoreError::Malformed
                &&& r is Ok ==> {
                    &&& r->Ok_0.opened(files)
                    &&& r->Ok_0.saved_directory() == dir.base()
                    &&& r->Ok_0.pending_changes() == dir.pending() + (if keep_existing_dir {
                        Seq::<ChangeModel>::empty()
                    } else {
                        seq![ChangeModel::RemoveAll]
                    }) + opening_log(files)
                }
            }),
    {
        let ghost given = dir.pending();
        let mut dir = dir;
        if !keep_existing_dir {
            dir.remove_all();
        }
        let ghost files = dir@;
        proof {
            assert(dir.pending() =~= given + (if keep_existing_dir {
                Seq::<ChangeModel>::empty()
            } else {
                seq![ChangeModel::RemoveAll]
            }));
        }
        let ghost log = contents(files, wal_name());
        let store_info = match build_store_from_dir(&dir) {
            Ok(info) => info,
            Err(e) => {
                return Err(e);
            },
        };
        let recovered_wal_kvs = restore_from_wal(&dir);
        Self::open_log(&mut dir, recovered_wal_kvs.end);
        proof {
            lemma_scan_prefix(log, 0);
            assert(same_segments(files, dir@)) by {
                lemma_other_names(0);
            }
            lemma_same_segments(files, dir@, store_info.0@, store_info.1);
        }
        let (active_mem_table, bytes_written_since_last_flush) = Self::replay(
            &recovered_wal_kvs,
            Ghost(log),
        );
        Ok(
            Store {
                current_file_id: store_info.1,
                dir,
                mem_table_size_limit_in_bytes: DEFAULT_MEM_TABLE_SIZE_LIMIT,
                active_mem_table,
                store_indexes: store_info.0,
                bytes_written_since_last_flush,
            },
        )
    }

    /// Makes the log ready for writing: it is created if it is missing, and
    /// if bytes follow its last whole record, which ends at `whole`, a copy
    /// without them is written under the log's temporary name and takes the
    /// log's place.
    fn open_log(dir: &mut Directory, whole: usize)
        requires
            old(dir).wf(),
            whole == scan(contents(old(dir)@, wal_name())).end,
        ensures
            final(dir).wf(),
            final(dir).base() == old(dir).base(),
            final(dir).pending() == old(dir).pending() + opening_log(old(dir)@),
            ({
                let log = contents(old(dir)@, wal_name());
                final(dir)@ == (if whole < log.len() {
                    old(dir)@.remove(wal_temp_name())
                } else {
                    old(dir)@
                }).insert(wal_name(), log.subrange(0, whole as int))
            }),
    {
        let ghost files = dir@;
        let ghost log = contents(files, wal_name());
        let log_filename = write_ahead_log_filename();
        let kept: Option<Vec<u8>> = match dir.read(log_filename.as_slice()) {
            None => None,
            Some(data) => {
                if whole < data.len() {
                    Some(slice_to_vec(slice_subrange(data.as_slice(), 0, whole)))
                } else {
                    None
                }
            },
        };
        proof {
            lemma_names_differ(0, 0);
            lemma_scan_end(log, 0);
        }
        match kept {
            Some(kept) => {
                let temp_log_filename = write_ahead_log_temp_filename();
                dir.create(temp_log_filename.as_slice());
                dir.append(temp_log_filename.as_slice(), kept.as_slice());
                dir.rename(temp_log_filename.as_slice(), log_filename.as_slice());
                proof {
                    assert(Seq::<u8>::empty() + kept@ =~= kept@);
                    assert(dir@ =~= files.remove(wal_temp_name()).insert(
                        wal_name(),
                        log.subrange(0, whole as int),
                    ));
                    assert(dir.pending() =~= old(dir).pending() + opening_log(files));
                }
            },
            None => {
                if !dir.contains(log_filename.as_slice()) {
                    dir.create(log_filename.as_slice());
                }
                proof {
                    assert(log.subrange(0, whole as int) =~= log);
                    assert(dir@ =~= files.insert(wal_name(), log.subrange(0, whole as int)));
                    assert(dir.pending() =~= old(dir).pending() + opening_log(files));
                }
            },
        }
    }

    /// Replays the records that were read from the log into a new write
    /// buffer, in order: a record with an empty value deletes its key, and a
    /// record with a value stores the value and counts the bytes of both.
    fn replay(recovered: &Decoding, Ghost(log): Ghost<Seq<u8>>) -> (r: (ByteMap<TableEntry>, u64))
        requires
            recovered.is_scan_of(log),
        ensures
            r.0.wf(),
            meanings(r.0@) == table_of(records(log)),
            r.1 == pressure_of(records(log)),
            r.1 <= scan(log).end,
    {
        let mut active_mem_table: ByteMap<TableEntry> = ByteMap::new();
        let mut bytes_written_since_last_flush: u64 = 0;
        let ghost recs = records(log);
        let count: usize = recovered.records.len();
        let mut i: usize = 0;
        proof {
            assert(recs.subrange(0, 0) =~= Seq::<Stored>::empty());
            assert(meanings(active_mem_table@) =~= Map::<Seq<u8>, Seq<u8>>::empty());
        }
        while i < count
            invariant
                i <= count,
                count == recs.len(),
                recs == records(log),
                recovered.is_scan_of(log),
                active_mem_table.wf(),
                meanings(active_mem_table@) == table_of(recs.subrange(0, i as int)),
                bytes_written_since_last_flush == pressure_of(recs.subrange(0, i as int)),
                i < count ==> bytes_written_since_last_flush <= recs[i as int].offset,
                i == count ==> bytes_written_since_last_flush <= scan(log).end,
            decreases count - i,
        {
            let kv = &recovered.records[i];
            let ghost rec = recs[i as int];
            let ghost table = active_mem_table@;
            proof {
                assert(recs.subrange(0, i + 1) =~= recs.subrange(0, i as int).push(rec));
                assert(recs.subrange(0, i + 1).drop_last() =~= recs.subrange(0, i as int));
                lemma_overlaid_push(
                    Map::<Seq<u8>, Seq<u8>>::empty(),
                    recs.subrange(0, i as int),
                    rec,
                );
                lemma_scan_consecutive(log, 0, i as int);
                lemma_scan_records(log, 0, i as int);
                assert(kv.key@ == rec.key && kv.value@ == rec.value);
            }
            if kv.value.len() == 0 {
                active_mem_table.insert(slice_to_vec(kv.key.as_slice()), TableEntry::Tombstone);
                proof {
                    lemma_meanings_insert(table, rec.key, TableEntry::Tombstone);
                    assert(rec.value =~= Seq::<u8>::empty());
                }
            } else {
                put_into_memory(
                    &mut active_mem_table,
                    &mut bytes_written_since_last_flush,
                    kv.key.as_slice(),
                    kv.value.as_slice(),
                );
            }
            i += 1;
        }
        proof {
            assert(recs.subrange(0, i as int) =~= recs);
        }
        (active_mem_table, bytes_written_since_last_flush)
    }

    /// The id of the latest segment.
    pub fn current_file_id(&self) -> (id: u64)
        ensures
            id == self.state().current,
    {
        self.current_file_id
    }

    /// The bytes of keys and values written to the buffer since the last
    /// flush.
    pub fn bytes_written_since_last_flush(&self) -> (count: u64)
        ensures
            count == self.bytes_since_flush(),
    {
        self.bytes_written_since_last_flush
    }

    /// Sets the count of bytes above which a write flushes.
    pub fn set_mem_table_size_limit(&mut self, limit: u64)
        requires
            old(self).wf(),
        ensures
            final(self).wf(),
            final(self).limit() == limit,
            final(self).state() == old(self).state(),
            final(self).directory() == old(self).directory(),
            final(self).saved_directory() == old(self).saved_directory(),
            final(self).pending_changes() == old(self).pending_changes(),
            final(self).bytes_since_flush() == old(self).bytes_since_flush(),
    {
        self.mem_table_size_limit_in_bytes = limit;
    }

    /// The store's directory.
    pub fn dir(&self) -> (dir: &Directory)
        requires
            self.wf(),
        ensures
            dir.wf(),
            dir@ == self.directory(),
            dir.base() == self.saved_directory(),
            dir.pending() == self.pending_changes(),
            segment_names(dir.names()) == self.segment_files(),
    {
        &self.dir
    }

    /// Gives up the store and hands back its directory.
    pub fn into_directory(self) -> (dir: Directory)
        requires
            self.wf(),
        ensures
            dir.wf(),
            dir@ == self.directory(),
            dir.base() == self.saved_directory(),
            dir.pending() == self.pending_changes(),
    {
        self.dir
    }

    /// Hands on the changes that the store made to its directory since this
    /// was last called, in the order in which it made them: carried out on
    /// the files as they were then, they give the files as they are now.
    pub fn take_changes(&mut self) -> (changes: Vec<Change>)
        requires
            old(self).wf(),
        ensures
            final(self).wf(),
            changes_of(changes@) == old(self).pending_changes(),
            replayed(old(self).saved_directory(), changes_of(changes@)) == old(self).directory(),
            final(self).saved_directory() == old(self).directory(),
            final(self).pending_changes() == Seq::<ChangeModel>::empty(),
            final(self).state() == old(self).state(),
            final(self).directory() == old(self).directory(),
            final(self).bytes_since_flush() == old(self).bytes_since_flush(),
            final(self).limit() == old(self).limit(),
    {
        self.dir.take_changes()
    }

    /// Stores `value` under `key`: the record is added to the log, then the
    /// value is put into the write buffer, and if more bytes than the limit
    /// allows were written since the last flush, what is pending is flushed.
    /// An empty value deletes the key. Refused, with nothing changed, if the
    /// key or the value is too long for a record.
    pub fn put(&mut self, key: &[u8], value: &[u8]) -> (r: Result<(), StoreError>)
        requires
            old(self).wf(),
        ensures
            old(self).written(*final(self), key@, value@, r),
    {
        let mut record: Vec<u8> = Vec::new();
        match encode_into(&mut record, key, Some(value)) {
            Err(e) => {
                return Err(e);
            },
            Ok(_) => {},
        }
        let ghost before = *self;
        let log_filename = write_ahead_log_filename();
        self.dir.append(log_filename.as_slice(), record.as_slice());
        proof {
            assert(record@ =~= encoded(key@, value@));
            before.lemma_logged(*self, key@, value@);
            assert(self.dir.pending() =~= before.dir.pending() + logging(key@, value@));
            self.dir.lemma_sizes();
            assert(self.dir@.contains_key(wal_name()));
            assert(self.dir@[wal_name()].len() <= usize::MAX);
        }
        put_into_memory(
            &mut self.active_mem_table,
            &mut self.bytes_written_since_last_flush,
            key,
            value,
        );
        if self.bytes_written_since_last_flush > self.mem_table_size_limit_in_bytes {
            return self.flush_pending_writes();
        }
        Ok(())
    }

    /// Deletes `key`: a record with an empty value is added to the log, and
    /// the key is marked as deleted in the write buffer. The count of bytes
    /// since the last flush stays as it is. Refused, with nothing changed,
    /// if the key is too long for a record.
    pub fn remove(&mut self, key: &[u8]) -> (r: Result<(), StoreError>)
        requires
            old(self).wf(),
        ensures
            final(self).wf(),
            final(self).limit() == old(self).limit(),
            final(self).saved_directory() == old(self).saved_directory(),
            final(self).bytes_since_flush() == old(self).bytes_since_flush(),
            if fits(key@, Seq::<u8>::empty()) {
                &&& r == Ok::<(), StoreError>(())
                &&& final(self).state() == old(self).state().remove(key@)
                &&& final(self).directory() == old(self).directory().insert(
                    wal_name(),
                    old(self).directory()[wal_name()] + encoded(key@, Seq::<u8>::empty()),
                )
                &&& final(self).pending_changes() == old(self).pending_changes() + logging(
                    key@,
                    Seq::<u8>::empty(),
                )
            } else {
                &&& r == Err::<(), StoreError>(StoreError::InvalidArgument)
                &&& final(self).state() == old(self).state()
                &&& final(self).directory() == old(self).directory()
                &&& final(self).pending_changes() == old(self).pending_changes()
            },
    {
        let mut record: Vec<u8> = Vec::new();
        match encode_into(&mut record, key, None) {
            Err(e) => {
                return Err(e);
            },
            Ok(_) => {},
        }
        let ghost before = *self;
        let log_filename = write_ahead_log_filename();
        self.dir.append(log_filename.as_slice(), record.as_slice());
        proof {
            assert(record@ =~= encoded(key@, Seq::<u8>::empty()));
            before.lemma_logged(*self, key@, Seq::<u8>::empty());
            assert(self.dir.pending() =~= before.dir.pending() + logging(
                key@,
                Seq::<u8>::empty(),
            ));
        }
        let ghost table = self.active_mem_table@;
        self.active_mem_table.insert(slice_to_vec(key), TableEntry::Tombstone);
        proof {
            lemma_meanings_insert(table, key@, TableEntry::Tombstone);
        }
        Ok(())
    }

    /// What appending one record to the log leaves as it was, and what it
    /// makes of the log.
    proof fn lemma_logged(&self, after: Store, key: Seq<u8>, value: Seq<u8>)
        requires
            self.wf(),
            fits(key, value),
            after.dir@ == self.dir@.insert(wal_name(), self.dir@[wal_name()] + encoded(key, value)),
        ensures
            openable(after.dir@),
            indexes_match(self.store_indexes@, after.dir@),
            is_highest(after.dir@, self.current_file_id),
            segments_of(after.dir@) == segments_of(self.dir@),
            well_formed(after.dir@[wal_name()]),
            table_of(records(after.dir@[wal_name()])) == meanings(self.active_mem_table@).insert(
                key,
                value,
            ),
            after.dir@[wal_name()].len() == self.dir@[wal_name()].len() + encoded_len(key, value),
    {
        let log = self.dir@[wal_name()];
        lemma_names_differ(0, 0);
        assert(same_segments(self.dir@, after.dir@)) by {
            lemma_other_names(0);
        }
        lemma_same_segments(self.dir@, after.dir@, self.store_indexes@, self.current_file_id);
        lemma_scan_append(log, 0, key, value);
        lemma_decode_encoded(log, key, value, Seq::empty());
        lemma_overlaid_push(
            Map::<Seq<u8>, Seq<u8>>::empty(),
            records(log),
            Stored { key, value, offset: log.len() as int },
        );
    }

    /// The value of `key`, if it has one. What was written since the last
    /// flush is asked first, then the segments from the latest downwards; an
    /// empty value says that the key was deleted.
    pub fn get(&self, key: &[u8]) -> (r: Option<Vec<u8>>)
        requires
            self.wf(),
        ensures
            match r {
                Some(value) => self.state().get(key@) == Some(value@),
                None => self.state().get(key@) is None,
            },
    {
        match self.active_mem_table.get(key) {
            Some(TableEntry::Tombstone) => None,
            Some(TableEntry::Populated(value)) => {
                if value.len() == 0 {
                    None
                } else {
                    Some(slice_to_vec(value.as_slice()))
                }
            },
            None => {
                let mut file_id: u64 = self.current_file_id;
                while file_id >= 1
                    invariant
                        self.wf(),
                        file_id <= self.current_file_id,
                        self.state().get(key@) == self.state().found_in_segments(
                            key@,
                            file_id as nat,
                        ),
                    decreases file_id,
                {
                    match self.store_indexes.get(&file_id) {
                        None => {
                            return None;
                        },
                        Some(index) => {
                            match index.get(key) {
                                Some(entry) => {
                                    proof {
                                        self.dir.lemma_sizes();
                                        lemma_index_locates(
                                            self.dir@[segment_name(file_id)],
                                            file_id,
                                            key@,
                                        );
                                    }
                                    let value_offset_in_file: usize = entry.byte_offset + 4
                                        + entry.key_size + 4;
                                    let buffer = self.read_from_store_file(
                                        file_id,
                                        value_offset_in_file,
                                        entry.value_size,
                                    );
                                    return match buffer {
                                        None => None,
                                        Some(buffer) => {
                                            if buffer.len() == 0 {
                                                None
                                            } else {
                                                Some(buffer)
                                            }
                                        },
                                    };
                                },
                                None => {
                                    proof {
                                        lemma_index_keys(
                                            records(self.dir@[segment_name(file_id)]),
                                            file_id,
                                            key@,
                                        );
                                    }
                                },
                            }
                        },
                    }
                    file_id -= 1;
                }
                None
            },
        }
    }

    /// Reads `length` bytes of the segment file `file_id`, from position
    /// `offset` on. Gives nothing if the file is missing or ends before.
    fn read_from_store_file(&self, file_id: u64, offset: usize, length: usize) -> (r: Option<
        Vec<u8>,
    >)
        requires
            self.dir.wf(),
        ensures
            match r {
                Some(buffer) => {
                    &&& self.dir@.contains_key(segment_name(file_id))
                    &&& offset + length <= self.dir@[segment_name(file_id)].len()
                    &&& buffer@ == self.dir@[segment_name(file_id)].subrange(
                        offset as int,
                        offset + length,
                    )
                },
                None => !self.dir@.contains_key(segment_name(file_id)) || offset + length
                    > self.dir@[segment_name(file_id)].len(),
            },
    {
        let name = filename_for_file_id(file_id);
        match self.dir.read(name.as_slice()) {
            None => None,
            Some(data) => {
                if offset > data.len() || data.len() - offset < length {
                    None
                } else {
                    Some(slice_to_vec(slice_subrange(data.as_slice(), offset, offset + length)))
                }
            },
        }
    }

    /// Writes what is pending as the next segment, in ascending order of the
    /// keys, and empties the log. Refused, with nothing changed, if no
    /// segment id is left.
    pub fn flush_pending_writes(&mut self) -> (r: Result<(), StoreError>)
        requires
            old(self).wf(),
        ensures
            final(self).wf(),
            final(self).limit() == old(self).limit(),
            final(self).saved_directory() == old(self).saved_directory(),
            old(self).state().current == u64::MAX ==> {
                &&& r == Err::<(), StoreError>(StoreError::OutOfSegmentIds)
                &&& final(self).state() == old(self).state()
                &&& final(self).directory() == old(self).directory()
                &&& final(self).pending_changes() == old(self).pending_changes()
                &&& final(self).bytes_since_flush() == old(self).bytes_since_flush()
            },
            old(self).state().current < u64::MAX ==> {
                &&& r == Ok::<(), StoreError>(())
                &&& final(self).state() == old(self).state().flush()
                &&& final(self).bytes_since_flush() == 0
                &&& final(self).flushed_from(
                    old(self).directory(),
                    old(self).state().pending,
                    old(self).pending_changes(),
                )
            },
    {
        if self.current_file_id == u64::MAX {
            return Err(StoreError::OutOfSegmentIds);
        }
        let ghost before = *self;
        self.write_mem_table_to_disk();
        let ghost segment = self.dir@[segment_name(self.current_file_id)];
        self.truncate_wal();
        proof {
            lemma_flushed(
                before.dir@,
                before.store_indexes@,
                before.current_file_id,
                segment,
                self.store_indexes@[self.current_file_id],
            );
            lemma_names_differ(self.current_file_id, self.current_file_id);
            assert(self.dir@ =~= before.dir@.insert(
                segment_name(self.current_file_id),
                segment,
            ).remove(wal_temp_name()).insert(wal_name(), Seq::<u8>::empty()));
            assert(self.dir.pending() =~= before.dir.pending() + flushing(
                self.current_file_id,
                segment,
            ));
            assert(meanings(self.active_mem_table@) =~= Map::<Seq<u8>, Seq<u8>>::empty());
        }
        Ok(())
    }

    /// Writes what is pending as the next segment, with its index, and
    /// empties the write buffer. The log is left as it is.
    fn write_mem_table_to_disk(&mut self)
        requires
            old(self).wf(),
            old(self).current_file_id < u64::MAX,
        ensures
            ({
                let id = (old(self).current_file_id + 1) as u64;
                let name = segment_name(id);
                let segment = final(self).dir@[name];
                &&& final(self).dir.wf()
                &&& final(self).dir.base() == old(self).dir.base()
                &&& final(self).dir.pending() == old(self).dir.pending().push(
                    ChangeModel::Append(name, segment),
                )
                &&& final(self).active_mem_table.wf()
                &&& final(self).current_file_id == id
                &&& final(self).active_mem_table@ == Map::<Seq<u8>, TableEntry>::empty()
                &&& final(self).bytes_written_since_last_flush == 0
                &&& final(self).mem_table_size_limit_in_bytes == old(
                    self,
                ).mem_table_size_limit_in_bytes
                &&& final(self).dir@ == old(self).dir@.insert(name, segment)
                &&& well_formed(segment)
                &&& record_keys(records(segment)) == old(self).active_mem_table.keys()
                &&& table_of(records(segment)) == meanings(old(self).active_mem_table@)
                &&& final(self).store_indexes@ == old(self).store_indexes@.insert(
                    id,
                    final(self).store_indexes@[id],
                )
                &&& final(self).store_indexes@[id].wf()
                &&& final(self).store_indexes@[id]@ == index_of(records(segment), id)
            }),
    {
        proof {
            self.lemma_pending_fits();
        }
        self.current_file_id = self.current_file_id + 1;
        let (writer, store_index) = write_table(&self.active_mem_table, self.current_file_id);
        let name = filename_for_file_id(self.current_file_id);
        proof {
            assert(!self.dir@.contains_key(name@));
            assert(Seq::<u8>::empty() + writer@ =~= writer@);
        }
        self.dir.append(name.as_slice(), writer.as_slice());
        self.store_indexes.insert(self.current_file_id, store_index);
        self.active_mem_table.clear();
        self.bytes_written_since_last_flush = 0;
    }

    /// What is pending is short enough to be written as records.
    proof fn lemma_pending_fits(&self)
        requires
            self.wf(),
        ensures
            all_fit(self.active_mem_table@),
    {
        let log = self.dir@[wal_name()];
        assert forall|k: Seq<u8>| #[trigger] self.active_mem_table@.contains_key(k) implies fits(
            k,
            meaning(self.active_mem_table@[k]),
        ) by {
            assert(meanings(self.active_mem_table@).contains_key(k));
            lemma_table_fits(log, k);
        }
    }

    /// Replaces the log by an empty one: an empty file is created under the
    /// log's temporary name and then given the log's name.
    fn truncate_wal(&mut self)
        requires
            old(self).dir.wf(),
        ensures
            final(self).dir.wf(),
            final(self).dir@ == old(self).dir@.remove(wal_temp_name()).insert(
                wal_name(),
                Seq::<u8>::empty(),
            ),
            final(self).dir.base() == old(self).dir.base(),
            final(self).dir.pending() == old(self).dir.pending().push(
                ChangeModel::Create(wal_temp_name()),
            ).push(ChangeModel::Rename(wal_temp_name(), wal_name())),
            *final(self) == (Store { dir: final(self).dir, ..*old(self) }),
    {
        let temp_log_filename = write_ahead_log_temp_filename();
        let log_filename = write_ahead_log_filename();
        self.dir.create(temp_log_filename.as_slice());
        self.dir.rename(temp_log_filename.as_slice(), log_filename.as_slice());
        proof {
            lemma_names_differ(0, 0);
            assert(self.dir@ =~= old(self).dir@.remove(wal_temp_name()).insert(
                wal_name(),
                Seq::<u8>::empty(),
            ));
        }
    }

    /// Merges all segments into one. The segment files are listed and taken
    /// in ascending order of their ids, by number; of what they say of a key
    /// the latest counts, a deletion too. The merged records are written in
    /// ascending order of their keys under a temporary name, which then
    /// takes the place of the segment with the current id; every other
    /// segment file is deleted with its index. Without segment files nothing
    /// changes.
    pub fn compact(&mut self)
        requires
            old(self).wf(),
        ensures
            final(self).wf(),
            final(self).limit() == old(self).limit(),
            final(self).saved_directory() == old(self).saved_directory(),
            final(self).bytes_since_flush() == old(self).bytes_since_flush(),
            final(self).state() == old(self).state().compact(),
            old(self).state().segments.dom() == Set::<u64>::empty() ==> final(self).directory()
                == old(self).directory() && final(self).pending_changes() == old(
                self,
            ).pending_changes(),
            old(self).state().segments.dom() != Set::<u64>::empty() ==> {
                let name = segment_name(old(self).state().current);
                let segment = final(self).directory()[name];
                &&& final(self).pending_changes() == old(self).pending_changes() + replacing(
                    old(self).state().current,
                    segment,
                ) + removals(old(self).segment_files(), name)
                &&& final(self).segment_files() == seq![name]
                &&& forall|n: Seq<u8>| #[trigger]
                    is_segment_name(n) ==> (final(self).directory().contains_key(n) <==> n == name)
                &&& forall|n: Seq<u8>|
                    !(#[trigger] is_segment_name(n)) ==> final(self).directory().contains_key(n)
                        == old(self).directory().contains_key(n) && (old(
                        self,
                    ).directory().contains_key(n) ==> final(self).directory()[n] == old(
                        self,
                    ).directory()[n])
                &&& well_formed(segment)
                &&& ascending(record_keys(records(segment)))
                &&& table_of(records(segment)) == old(self).state().merged()
            },
    {
        let files_for_compaction = get_store_files(&self.dir);
        let ghost files = self.dir@;
        let ghost names = names_of(files_for_compaction@);
        if files_for_compaction.len() == 0 {
            proof {
                assert forall|n: Seq<u8>| files.contains_key(n) implies !(#[trigger]
                is_segment_name(n)) by {
                    assert(!names.contains(n));
                }
                lemma_no_segments(files);
            }
            return ;
        }
        let ids = self.listed_file_ids(&files_for_compaction);
        let sorted = sort_file_ids(&ids);
        proof {
            lemma_sorted_ids(ids@, sorted@);
            assert(ids@.contains(ids@[0]));
            assert(segments_of(files).dom().contains(ids@[0]));
        }
        let compacted_kvs = self.merge_segments(&sorted);
        let compaction_file_id: u64 = self.current_file_id;
        let (writer, mapping_entries) = write_table(&compacted_kvs, compaction_file_id);
        let ghost merged = writer@;
        let ghost index = mapping_entries;
        proof {
            assert forall|i: int| 0 <= i < names.len() implies files.contains_key(
                #[trigger] names[i],
            ) by {
                assert(names.contains(names[i]));
            }
        }
        self.replace_segment(compaction_file_id, writer, mapping_entries);
        let ghost replaced = self.dir@;
        self.remove_other_segments(&files_for_compaction, &ids, compaction_file_id);
        proof {
            lemma_other_names(0);
            assert(replaced.contains_key(segment_name(compaction_file_id)));
            assert(self.dir@.contains_key(segment_name(compaction_file_id)));
            lemma_compacted(files, compaction_file_id, merged, index, self.dir@);
            assert forall|n: Seq<u8>| !(#[trigger] is_segment_name(n)) implies self.dir@
                .contains_key(n) == files.contains_key(n) && (files.contains_key(n) ==> self.dir@[n]
                == files[n]) by {
                lemma_segment_name(compaction_file_id);
                if files.contains_key(n) {
                    assert(!names.contains(n));
                    assert(replaced.contains_key(n));
                    assert(self.dir@.contains_key(n));
                }
            }
            assert(self.store_indexes@ =~= Map::<u64, StoreData>::empty().insert(
                compaction_file_id,
                index,
            )) by {
                assert forall|id: u64| #[trigger]
                    self.store_indexes@.contains_key(id) implies id == compaction_file_id by {
                    if id != compaction_file_id {
                        assert(files.contains_key(segment_name(id)));
                        assert(ids@.contains(id));
                    }
                }
            }
            assert(self.dir@.contains_key(wal_name()));
            compacted_kvs.lemma_keys_ascend();
            assert(self.dir.pending() =~= old(self).dir.pending() + replacing(
                compaction_file_id,
                merged,
            ) + removals(names, segment_name(compaction_file_id)));
            self.dir.lemma_names();
            lemma_segment_names(self.dir.names());
            lemma_segment_name(compaction_file_id);
            assert forall|n: Seq<u8>| #[trigger]
                self.segment_files().contains(n) <==> n == segment_name(compaction_file_id) by {
                assert(self.segment_files().contains(n) <==> self.dir.names().contains(n)
                    && is_segment_name(n));
                assert(self.dir.names().contains(n) <==> self.dir@.contains_key(n));
            }
            lemma_single_name(self.segment_files(), segment_name(compaction_file_id));
        }
    }

    /// Writes the bytes of a segment under the segment's temporary name,
    /// gives the file the segment's name, in place of the file that had it,
    /// and takes `index` as the segment's index.
    fn replace_segment(&mut self, file_id: u64, writer: Vec<u8>, index: StoreData)
        requires
            old(self).wf(),
        ensures
            final(self).dir.wf(),
            final(self).dir.base() == old(self).dir.base(),
            final(self).dir.pending() == old(self).dir.pending() + replacing(file_id, writer@),
            final(self).dir@ == old(self).dir@.insert(segment_name(file_id), writer@),
            final(self).store_indexes@ == old(self).store_indexes@.insert(file_id, index),
            *final(self) == (Store {
                dir: final(self).dir,
                store_indexes: final(self).store_indexes,
                ..*old(self)
            }),
    {
        let compaction_sacrifice_filename = filename_for_file_id(file_id);
        let compaction_filename = temp_filename_for_file_id(file_id);
        proof {
            lemma_temp_segment_name(file_id);
            lemma_names_differ(file_id, file_id);
            assert(!self.dir@.contains_key(temp_segment_name(file_id)));
            assert(Seq::<u8>::empty() + writer@ =~= writer@);
        }
        self.dir.create(compaction_filename.as_slice());
        self.dir.append(compaction_filename.as_slice(), writer.as_slice());
        self.dir.rename(compaction_filename.as_slice(), compaction_sacrifice_filename.as_slice());
        self.store_indexes.insert(file_id, index);
        proof {
            assert(self.dir@ =~= old(self).dir@.insert(segment_name(file_id), writer@));
            assert(self.dir.pending() =~= old(self).dir.pending() + replacing(file_id, writer@));
        }
    }

    /// Deletes the listed segment files but the one with the id `keep`, each
    /// with its index.
    fn remove_other_segments(&mut self, files: &Vec<Vec<u8>>, ids: &Vec<u64>, keep: u64)
        requires
            old(self).dir.wf(),
            ids@.len() == files@.len(),
            forall|i: int| 0 <= i < ids@.len() ==> files@[i]@ == segment_name(#[trigger] ids@[i]),
            ascending(names_of(files@)),
            forall|i: int|
                0 <= i < files@.len() ==> old(self).dir@.contains_key(
                    #[trigger] names_of(files@)[i],
                ),
        ensures
            final(self).dir.wf(),
            final(self).dir.base() == old(self).dir.base(),
            final(self).dir.pending() == old(self).dir.pending() + removals(
                names_of(files@),
                segment_name(keep),
            ),
            *final(self) == (Store {
                dir: final(self).dir,
                store_indexes: final(self).store_indexes,
                ..*old(self)
            }),
            forall|n: Seq<u8>| #[trigger]
                final(self).dir@.contains_key(n) <==> old(self).dir@.contains_key(n) && (n
                    == segment_name(keep) || !names_of(files@).contains(n)),
            forall|n: Seq<u8>| #[trigger]
                final(self).dir@.contains_key(n) ==> final(self).dir@[n] == old(self).dir@[n],
            forall|id: u64| #[trigger]
                final(self).store_indexes@.contains_key(id) <==> old(
                    self,
                ).store_indexes@.contains_key(id) && (id == keep || !ids@.contains(id)),
            forall|id: u64| #[trigger]
                final(self).store_indexes@.contains_key(id) ==> final(self).store_indexes@[id]
                    == old(self).store_indexes@[id],
    {
        let ghost names = names_of(files@);
        let mut m: usize = 0;
        assert(names.subrange(0, 0) =~= Seq::<Seq<u8>>::empty());
        assert(ids@.subrange(0, 0) =~= Seq::<u64>::empty());
        assert(self.dir.pending() =~= old(self).dir.pending() + removals(
            names.subrange(0, 0),
            segment_name(keep),
        ));
        while m < ids.len()
            invariant
                m <= ids.len(),
                ids@.len() == files@.len(),
                names == names_of(files@),
                ascending(names),
                forall|i: int| 0 <= i < names.len() ==> old(self).dir@.contains_key(
                    #[trigger] names[i],
                ),
                self.dir.pending() == old(self).dir.pending() + removals(
                    names.subrange(0, m as int),
                    segment_name(keep),
                ),
                forall|i: int|
                    0 <= i < ids@.len() ==> files@[i]@ == segment_name(#[trigger] ids@[i]),
                self.dir.wf(),
                self.dir.base() == old(self).dir.base(),
                *self == (Store { dir: self.dir, store_indexes: self.store_indexes, ..*old(self) }),
                forall|n: Seq<u8>| #[trigger]
                    self.dir@.contains_key(n) <==> old(self).dir@.contains_key(n) && (n
                        == segment_name(keep) || !names.subrange(0, m as int).contains(n)),
                forall|n: Seq<u8>| #[trigger]
                    self.dir@.contains_key(n) ==> self.dir@[n] == old(self).dir@[n],
                forall|id: u64| #[trigger]
                    self.store_indexes@.contains_key(id) <==> old(self).store_indexes@.contains_key(
                        id,
                    ) && (id == keep || !ids@.subrange(0, m as int).contains(id)),
                forall|id: u64| #[trigger]
                    self.store_indexes@.contains_key(id) ==> self.store_indexes@[id] == old(
                        self,
                    ).store_indexes@[id],
            decreases ids.len() - m,
        {
            let file_id: u64 = ids[m];
            let ghost dir_before = self.dir@;
            let ghost indexes_before = self.store_indexes@;
            let ghost pending_before = self.dir.pending();
            proof {
                assert(names[m as int] == segment_name(file_id));
                lemma_names_differ(file_id, keep);
                assert(old(self).dir@.contains_key(names[m as int]));
                if names.subrange(0, m as int).contains(names[m as int]) {
                    let q = choose|q: int|
                        0 <= q < m && names.subrange(0, m as int)[q] == names[m as int];
                    lemma_ascending_distinct(names, q, m as int);
                }
                assert(self.dir@.contains_key(names[m as int]));
                assert(names.subrange(0, m + 1).drop_last() =~= names.subrange(0, m as int));
            }
            if file_id != keep {
                let entry = &files[m];
                self.dir.remove(entry.as_slice());
                self.store_indexes.remove(&file_id);
            }
            proof {
                assert forall|n: Seq<u8>| #[trigger]
                    self.dir@.contains_key(n) <==> old(self).dir@.contains_key(n) && (n
                        == segment_name(keep) || !names.subrange(0, m + 1).contains(n)) by {
                    lemma_one_more(names, m as int, n);
                    assert(dir_before.contains_key(n) <==> old(self).dir@.contains_key(n) && (n
                        == segment_name(keep) || !names.subrange(0, m as int).contains(n)));
                }
                assert forall|id: u64| #[trigger]
                    self.store_indexes@.contains_key(id) <==> old(self).store_indexes@.contains_key(
                        id,
                    ) && (id == keep || !ids@.subrange(0, m + 1).contains(id)) by {
                    lemma_one_more(ids@, m as int, id);
                    assert(indexes_before.contains_key(id) <==> old(
                        self,
                    ).store_indexes@.contains_key(id) && (id == keep || !ids@.subrange(
                        0,
                        m as int,
                    ).contains(id)));
                }
                let removed = removals(names.subrange(0, m as int), segment_name(keep));
                if file_id != keep {
                    assert(self.dir.pending() =~= old(self).dir.pending() + removed.push(
                        ChangeModel::Remove(names[m as int]),
                    ));
                }
            }
            m += 1;
        }
        proof {
            assert(names.subrange(0, m as int) =~= names);
            assert(ids@.subrange(0, m as int) =~= ids@);
        }
    }

    /// The ids of the segment files, in the order in which the files are
    /// listed: by name.
    fn listed_file_ids(&self, files_for_compaction: &Vec<Vec<u8>>) -> (ids: Vec<u64>)
        requires
            self.wf(),
            forall|n: Seq<u8>| #[trigger]
                names_of(files_for_compaction@).contains(n) <==> self.dir@.contains_key(n)
                    && is_segment_name(n),
            ascending(names_of(files_for_compaction@)),
        ensures
            ids@.len() == files_for_compaction@.len(),
            forall|i: int|
                0 <= i < ids@.len() ==> files_for_compaction@[i]@ == segment_name(
                    #[trigger] ids@[i],
                ),
            ids@.no_duplicates(),
            forall|id: u64| #[trigger]
                ids@.contains(id) <==> self.dir@.contains_key(segment_name(id)),
    {
        let ghost names = names_of(files_for_compaction@);
        let mut ids: Vec<u64> = Vec::new();
        let mut i: usize = 0;
        while i < files_for_compaction.len()
            invariant
                self.wf(),
                i <= files_for_compaction.len(),
                names == names_of(files_for_compaction@),
                forall|n: Seq<u8>| #[trigger]
                    names.contains(n) <==> self.dir@.contains_key(n) && is_segment_name(n),
                ids@.len() == i,
                forall|j: int| 0 <= j < i ==> names[j] == segment_name(#[trigger] ids@[j]),
            decreases files_for_compaction.len() - i,
        {
            let entry = &files_for_compaction[i];
            proof {
                assert(names[i as int] == entry@);
                assert(names.contains(entry@));
                assert(is_canonical_segment_name(entry@));
            }
            let file_id = match file_id_from_path(entry.as_slice()) {
                Ok(file_id) => file_id,
                Err(_) => 0,
            };
            ids.push(file_id);
            i += 1;
        }
        proof {
            assert forall|a: int, b: int|
                0 <= a < ids@.len() && 0 <= b < ids@.len() && a != b implies ids@[a] != ids@[b] by {
                if ids@[a] == ids@[b] {
                    assert(names[a] == segment_name(ids@[a]));
                    assert(names[b] == segment_name(ids@[b]));
                    lemma_ascending_distinct(names, a, b);
                }
            }
            assert forall|id: u64| #[trigger]
                ids@.contains(id) <==> self.dir@.contains_key(segment_name(id)) by {
                lemma_segment_name(id);
                if ids@.contains(id) {
                    let j = choose|j: int| 0 <= j < ids@.len() && ids@[j] == id;
                    assert(names[j] == segment_name(ids@[j]));
                    assert(names.contains(names[j]));
                }
                if self.dir@.contains_key(segment_name(id)) {
                    assert(names.contains(segment_name(id)));
                    let j = choose|j: int| 0 <= j < names.len() && names[j] == segment_name(id);
                    assert(names[j] == segment_name(ids@[j]));
                    lemma_segment_name(ids@[j]);
                    assert(ids@[j] == id);
                }
            }
        }
        ids
    }

    /// What all segments say together: the segments are read in ascending
    /// order of their ids, and what a later one says of a key replaces what
    /// an earlier one said.
    fn merge_segments(&self, sorted: &Vec<u64>) -> (compacted_kvs: ByteMap<TableEntry>)
        requires
            self.wf(),
            strictly_ascending(sorted@),
            forall|id: u64| #[trigger]
                sorted@.contains(id) <==> self.dir@.contains_key(segment_name(id)),
        ensures
            compacted_kvs.wf(),
            all_fit(compacted_kvs@),
            meanings(compacted_kvs@) == self.state().merged(),
    {
        let mut compacted_kvs: ByteMap<TableEntry> = ByteMap::new();
        let ghost segments = segments_of(self.dir@);
        let ghost mut bound: nat = 0;
        let mut j: usize = 0;
        proof {
            assert(meanings(compacted_kvs@) =~= Map::<Seq<u8>, Seq<u8>>::empty());
        }
        while j < sorted.len()
            invariant
                self.wf(),
                j <= sorted.len(),
                strictly_ascending(sorted@),
                forall|id: u64| #[trigger]
                    sorted@.contains(id) <==> self.dir@.contains_key(segment_name(id)),
                segments == segments_of(self.dir@),
                compacted_kvs.wf(),
                all_fit(compacted_kvs@),
                meanings(compacted_kvs@) == merged_below(segments, bound),
                bound == (if j == 0 {
                    0
                } else {
                    sorted@[j - 1] as nat + 1
                }),
            decreases sorted.len() - j,
        {
            let file_id: u64 = sorted[j];
            let ghost before = compacted_kvs@;
            proof {
                assert(sorted@.contains(file_id));
                if j > 0 {
                    assert(sorted@[j - 1] < sorted@[j as int]);
                }
                assert forall|x: u64| bound <= x < file_id implies !self.dir@.contains_key(
                    #[trigger] segment_name(x),
                ) by {
                    if self.dir@.contains_key(segment_name(x)) {
                        assert(sorted@.contains(x));
                        let q = choose|q: int| 0 <= q < sorted@.len() && sorted@[q] == x;
                        if q < j {
                            if q < j - 1 {
                                assert(sorted@[q] < sorted@[j - 1]);
                            }
                        } else if q > j {
                            assert(sorted@[j as int] < sorted@[q]);
                        }
                    }
                }
                lemma_merge_step(self.dir@, meanings(before), bound, file_id);
            }
            let _ = parse_file_into_kv(&self.dir, file_id, &mut compacted_kvs);
            proof {
                lemma_merge_fits(before, compacted_kvs@, self.dir@[segment_name(file_id)]);
                bound = file_id as nat + 1;
            }
            j += 1;
        }
        proof {
            assert forall|x: u64| bound <= x < u64::MAX as nat + 1 implies !segments.contains_key(
                x,
            ) by {
                if segments.contains_key(x) {
                    assert(self.dir@.contains_key(segment_name(x)));
                    assert(sorted@.contains(x));
                    let q = choose|q: int| 0 <= q < sorted@.len() && sorted@[q] == x;
                    if q < sorted@.len() - 1 {
                        assert(sorted@[q] < sorted@[sorted@.len() - 1]);
                    }
                }
            }
            lemma_merged_skip(segments, bound, u64::MAX as nat + 1);
        }
        compacted_kvs
    }
}

} // verus!
