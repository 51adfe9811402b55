use store::directory::{get_store_files, Change, Directory};
use store::engine::{Store, DEFAULT_MEM_TABLE_SIZE_LIMIT};
use store::error::StoreError;
use store::segment::filename_for_file_id;

fn empty_store() -> Store {
    Store::new(Directory::new(), false).unwrap()
}

fn record(key: &[u8], value: &[u8]) -> Vec<u8> {
    let mut bytes = Vec::new();
    bytes.extend_from_slice(&(key.len() as u32).to_le_bytes());
    bytes.extend_from_slice(key);
    bytes.extend_from_slice(&(value.len() as u32).to_le_bytes());
    bytes.extend_from_slice(value);
    bytes
}

#[test]
fn get_gives_the_last_write_of_a_history() {
    let mut store = empty_store();
    store.put(b"a", b"1").unwrap();
    store.put(b"b", b"2").unwrap();
    store.remove(b"a").unwrap();
    store.put(b"c", b"3").unwrap();
    store.put(b"b", b"22").unwrap();
    store.remove(b"c").unwrap();
    store.put(b"c", b"33").unwrap();
    store.remove(b"d").unwrap();
    assert_eq!(store.get(b"a"), None);
    assert_eq!(store.get(b"b"), Some(b"22".to_vec()));
    assert_eq!(store.get(b"c"), Some(b"33".to_vec()));
    assert_eq!(store.get(b"d"), None);
    assert_eq!(store.get(b"never written"), None);
}

#[test]
fn get_gives_the_last_write_with_a_flush_after_every_write() {
    let mut store = empty_store();
    store.mem_table_size_limit_in_bytes = 0;
    store.put(b"a", b"1").unwrap();
    store.put(b"b", b"2").unwrap();
    store.put(b"a", b"11").unwrap();
    store.remove(b"b").unwrap();
    assert_eq!(store.current_file_id(), 4);
    assert_eq!(store.get(b"a"), Some(b"11".to_vec()));
    assert_eq!(store.get(b"b"), None);
    store.flush_pending_writes().unwrap();
    assert_eq!(store.get(b"a"), Some(b"11".to_vec()));
    assert_eq!(store.get(b"b"), None);
}

#[test]
fn a_write_is_found_after_a_flush() {
    let mut store = empty_store();
    store.put(b"k", b"v").unwrap();
    store.flush_pending_writes().unwrap();
    assert_eq!(store.get(b"k"), Some(b"v".to_vec()));
}

#[test]
fn a_flushed_write_is_found_after_the_directory_is_opened_again() {
    let mut store = empty_store();
    store.put(b"k", b"v").unwrap();
    store.flush_pending_writes().unwrap();
    let store = Store::new(store.into_directory(), true).unwrap();
    assert_eq!(store.get(b"k"), Some(b"v".to_vec()));
    assert_eq!(store.current_file_id(), 2);
}

#[test]
fn a_write_that_was_not_flushed_is_found_after_the_directory_is_opened_again() {
    let mut store = empty_store();
    store.put(b"k", b"v").unwrap();
    store.remove(b"gone").unwrap();
    let store = Store::new(store.into_directory(), true).unwrap();
    assert_eq!(store.get(b"k"), Some(b"v".to_vec()));
    assert_eq!(store.get(b"gone"), None);
    assert_eq!(get_store_files(store.dir()).len(), 0);
}

#[test]
fn opening_without_keeping_forgets_everything() {
    let mut store = empty_store();
    store.put(b"k", b"v").unwrap();
    store.flush_pending_writes().unwrap();
    store.put(b"l", b"w").unwrap();
    let store = Store::new(store.into_directory(), false).unwrap();
    assert_eq!(store.get(b"k"), None);
    assert_eq!(store.get(b"l"), None);
    assert_eq!(store.current_file_id(), 1);
    assert_eq!(get_store_files(store.dir()).len(), 0);
}

#[test]
fn compaction_keeps_the_value_of_every_key() {
    let mut store = empty_store();
    store.put(b"k1", b"10").unwrap();
    store.put(b"k2", b"20").unwrap();
    store.flush_pending_writes().unwrap();
    store.put(b"k1", b"1010").unwrap();
    store.remove(b"k2").unwrap();
    store.put(b"k3", b"30").unwrap();
    store.flush_pending_writes().unwrap();
    store.put(b"k4", b"40").unwrap();
    store.flush_pending_writes().unwrap();
    store.put(b"k3", b"pending").unwrap();
    let keys: [&[u8]; 5] = [b"k1", b"k2", b"k3", b"k4", b"k5"];
    let before: Vec<Option<Vec<u8>>> = keys.iter().map(|k| store.get(k)).collect();
    store.compact();
    let after: Vec<Option<Vec<u8>>> = keys.iter().map(|k| store.get(k)).collect();
    assert_eq!(before, after);
    assert_eq!(
        after,
        vec![
            Some(b"1010".to_vec()),
            None,
            Some(b"pending".to_vec()),
            Some(b"40".to_vec()),
            None
        ]
    );
}

#[test]
fn compaction_leaves_one_segment_file_with_the_current_id() {
    let mut store = empty_store();
    store.put(b"a", b"1").unwrap();
    store.flush_pending_writes().unwrap();
    store.put(b"b", b"2").unwrap();
    store.flush_pending_writes().unwrap();
    store.compact();
    let files = get_store_files(store.dir());
    assert_eq!(files, vec![b"3.store.kv".to_vec()]);
    assert_eq!(store.current_file_id(), 3);
    let mut expected = record(b"a", b"1");
    expected.extend_from_slice(&record(b"b", b"2"));
    assert_eq!(store.dir().read(b"3.store.kv"), Some(&expected));
}

#[test]
fn compaction_keeps_deletions_as_records_with_an_empty_value() {
    let mut store = empty_store();
    store.put(b"a", b"1").unwrap();
    store.flush_pending_writes().unwrap();
    store.remove(b"a").unwrap();
    store.flush_pending_writes().unwrap();
    store.compact();
    assert_eq!(store.dir().read(b"3.store.kv"), Some(&record(b"a", b"")));
    assert_eq!(store.get(b"a"), None);
}

#[test]
fn compaction_without_segments_changes_nothing() {
    let mut store = empty_store();
    store.put(b"a", b"1").unwrap();
    store.compact();
    assert_eq!(get_store_files(store.dir()).len(), 0);
    assert_eq!(store.get(b"a"), Some(b"1".to_vec()));
    assert_eq!(store.current_file_id(), 1);
}

#[test]
fn compaction_takes_segments_by_number_and_not_by_name() {
    let mut dir = Directory::new();
    for id in 1..=11_u64 {
        let mut bytes = record(b"shared", id.to_string().as_bytes());
        bytes.extend_from_slice(&record(format!("only-{}", id).as_bytes(), b"x"));
        dir.append(&filename_for_file_id(id), &bytes);
    }
    let mut store = Store::new(dir, true).unwrap();
    assert_eq!(store.current_file_id(), 11);
    assert_eq!(store.get(b"shared"), Some(b"11".to_vec()));
    store.compact();
    assert_eq!(get_store_files(store.dir()), vec![b"11.store.kv".to_vec()]);
    assert_eq!(store.current_file_id(), 11);
    assert_eq!(store.get(b"shared"), Some(b"11".to_vec()));
    for id in 1..=11_u64 {
        assert_eq!(
            store.get(format!("only-{}", id).as_bytes()),
            Some(b"x".to_vec())
        );
    }
}

#[test]
fn a_flush_without_pending_writes_changes_no_value() {
    let mut store = empty_store();
    store.put(b"a", b"1").unwrap();
    store.flush_pending_writes().unwrap();
    store.flush_pending_writes().unwrap();
    assert_eq!(store.get(b"a"), Some(b"1".to_vec()));
    assert_eq!(store.current_file_id(), 3);
    assert_eq!(store.dir().read(b"3.store.kv"), Some(&Vec::new()));
    store.compact();
    assert_eq!(store.get(b"a"), Some(b"1".to_vec()));
    let store = Store::new(store.into_directory(), true).unwrap();
    assert_eq!(store.get(b"a"), Some(b"1".to_vec()));
}

#[test]
fn removing_twice_is_removing_once() {
    let mut once = empty_store();
    once.put(b"k", b"v").unwrap();
    once.remove(b"k").unwrap();
    let mut twice = empty_store();
    twice.put(b"k", b"v").unwrap();
    twice.remove(b"k").unwrap();
    twice.remove(b"k").unwrap();
    assert_eq!(once.get(b"k"), twice.get(b"k"));
    assert_eq!(twice.get(b"k"), None);
    once.flush_pending_writes().unwrap();
    twice.flush_pending_writes().unwrap();
    assert_eq!(
        once.dir().read(b"2.store.kv"),
        twice.dir().read(b"2.store.kv")
    );
}

#[test]
fn an_empty_value_deletes() {
    let mut store = empty_store();
    store.put(b"k", b"v").unwrap();
    store.put(b"k", b"").unwrap();
    assert_eq!(store.get(b"k"), None);
    store.flush_pending_writes().unwrap();
    assert_eq!(store.get(b"k"), None);
    let store = Store::new(store.into_directory(), true).unwrap();
    assert_eq!(store.get(b"k"), None);
}

#[test]
fn a_key_longer_than_all_that_a_segment_holds_is_read_back() {
    let mut store = empty_store();
    store.put(b"a", b"1").unwrap();
    store.flush_pending_writes().unwrap();
    let long_key = vec![7_u8; 1000];
    store.put(&long_key, b"long").unwrap();
    store.put(b"z", b"26").unwrap();
    store.flush_pending_writes().unwrap();
    assert_eq!(store.get(&long_key), Some(b"long".to_vec()));
    assert_eq!(store.get(b"z"), Some(b"26".to_vec()));
    let store = Store::new(store.into_directory(), true).unwrap();
    assert_eq!(store.get(&long_key), Some(b"long".to_vec()));
    assert_eq!(store.get(b"a"), Some(b"1".to_vec()));
}

#[test]
fn a_flush_writes_the_pending_keys_in_ascending_order_and_empties_the_log() {
    let mut store = empty_store();
    store.put(b"b", b"2").unwrap();
    store.put(b"ab", b"12").unwrap();
    store.put(b"a", b"1").unwrap();
    store.remove(b"b").unwrap();
    let mut log = record(b"b", b"2");
    log.extend_from_slice(&record(b"ab", b"12"));
    log.extend_from_slice(&record(b"a", b"1"));
    log.extend_from_slice(&record(b"b", b""));
    assert_eq!(store.dir().read(b"write_ahead_log.txt"), Some(&log));
    store.flush_pending_writes().unwrap();
    let mut segment = record(b"a", b"1");
    segment.extend_from_slice(&record(b"ab", b"12"));
    segment.extend_from_slice(&record(b"b", b""));
    assert_eq!(store.dir().read(b"2.store.kv"), Some(&segment));
    assert_eq!(store.dir().read(b"write_ahead_log.txt"), Some(&Vec::new()));
    assert_eq!(store.dir().read(b"write_ahead_log.txt.temp"), None);
    assert_eq!(store.bytes_written_since_last_flush(), 0);
}

#[test]
fn writes_count_their_bytes_and_deletions_do_not() {
    let mut store = empty_store();
    assert_eq!(
        store.mem_table_size_limit_in_bytes,
        DEFAULT_MEM_TABLE_SIZE_LIMIT
    );
    assert_eq!(DEFAULT_MEM_TABLE_SIZE_LIMIT, 5 * 1024 * 1024);
    store.put(b"abc", b"12345").unwrap();
    assert_eq!(store.bytes_written_since_last_flush(), 8);
    store.remove(b"abc").unwrap();
    assert_eq!(store.bytes_written_since_last_flush(), 8);
    store.put(b"x", b"").unwrap();
    assert_eq!(store.bytes_written_since_last_flush(), 9);
}

#[test]
fn a_write_flushes_only_above_the_limit() {
    let mut store = empty_store();
    store.set_mem_table_size_limit(8);
    store.put(b"abc", b"12345").unwrap();
    assert_eq!(store.current_file_id(), 1);
    store.put(b"d", b"").unwrap();
    assert_eq!(store.current_file_id(), 2);
    assert_eq!(store.bytes_written_since_last_flush(), 0);
    assert_eq!(store.get(b"abc"), Some(b"12345".to_vec()));
}

#[test]
fn the_log_is_replayed_up_to_its_last_whole_record_and_cut_there() {
    let mut dir = Directory::new();
    let mut log = record(b"kept", b"1");
    log.extend_from_slice(&record(b"dropped", b""));
    let whole = log.clone();
    log.extend_from_slice(&[5, 0, 0, 0, b'x']);
    dir.append(b"write_ahead_log.txt", &log);
    let mut store = Store::new(dir, true).unwrap();
    assert_eq!(store.get(b"kept"), Some(b"1".to_vec()));
    assert_eq!(store.get(b"dropped"), None);
    assert_eq!(store.bytes_written_since_last_flush(), 5);
    assert_eq!(store.dir().read(b"write_ahead_log.txt"), Some(&whole));
    store.put(b"later", b"2").unwrap();
    let store = Store::new(store.into_directory(), true).unwrap();
    assert_eq!(store.get(b"later"), Some(b"2".to_vec()));
    assert_eq!(store.get(b"kept"), Some(b"1".to_vec()));
}

#[test]
fn what_is_pending_hides_what_the_segments_say() {
    let mut dir = Directory::new();
    dir.append(b"1.store.kv", &record(b"k", b"old"));
    dir.append(b"write_ahead_log.txt", &record(b"k", b""));
    let store = Store::new(dir, true).unwrap();
    assert_eq!(store.get(b"k"), None);
}

#[test]
fn a_later_segment_hides_an_earlier_one() {
    let mut dir = Directory::new();
    dir.append(b"1.store.kv", &record(b"k", b"old"));
    dir.append(b"2.store.kv", &record(b"k", b"new"));
    dir.append(b"3.store.kv", &record(b"other", b"x"));
    let store = Store::new(dir, true).unwrap();
    assert_eq!(store.get(b"k"), Some(b"new".to_vec()));
}

#[test]
fn the_search_ends_at_a_missing_segment_id() {
    let mut dir = Directory::new();
    dir.append(b"1.store.kv", &record(b"k", b"below the gap"));
    dir.append(b"3.store.kv", &record(b"other", b"x"));
    let store = Store::new(dir, true).unwrap();
    assert_eq!(store.current_file_id(), 3);
    assert_eq!(store.get(b"k"), None);
    assert_eq!(store.get(b"other"), Some(b"x".to_vec()));
}

#[test]
fn of_two_records_with_one_key_in_a_segment_the_last_counts() {
    let mut dir = Directory::new();
    let mut bytes = record(b"k", b"first");
    bytes.extend_from_slice(&record(b"k", b"second"));
    dir.append(b"1.store.kv", &bytes);
    let store = Store::new(dir, true).unwrap();
    assert_eq!(store.get(b"k"), Some(b"second".to_vec()));
}

#[test]
fn other_files_are_no_segments() {
    let mut dir = Directory::new();
    dir.append(b"notes.txt", b"not a record");
    dir.append(b"7.store.kv.bak", b"not a record");
    dir.append(b"2.store.kv", &record(b"k", b"v"));
    let mut store = Store::new(dir, true).unwrap();
    assert_eq!(get_store_files(store.dir()), vec![b"2.store.kv".to_vec()]);
    assert_eq!(store.current_file_id(), 2);
    store.compact();
    assert_eq!(store.dir().read(b"notes.txt"), Some(&b"not a record".to_vec()));
    assert_eq!(store.get(b"k"), Some(b"v".to_vec()));
}

#[test]
fn a_directory_with_a_torn_segment_is_refused() {
    let mut dir = Directory::new();
    let mut bytes = record(b"k", b"v");
    bytes.extend_from_slice(&[1, 0, 0]);
    dir.append(b"1.store.kv", &bytes);
    assert_eq!(Store::new(dir, true).err(), Some(StoreError::Malformed));
}

#[test]
fn a_directory_with_a_segment_file_that_is_not_named_by_an_id_is_refused() {
    let mut dir = Directory::new();
    dir.append(b"first.store.kv", &record(b"k", b"v"));
    assert_eq!(Store::new(dir, true).err(), Some(StoreError::Malformed));

    let mut dir = Directory::new();
    dir.append(b"007.store.kv", &record(b"k", b"v"));
    assert_eq!(Store::new(dir, true).err(), Some(StoreError::Malformed));

    let mut dir = Directory::new();
    dir.append(b"temp.7.store.kv", &record(b"k", b"v"));
    assert_eq!(Store::new(dir, true).err(), Some(StoreError::Malformed));

    let mut dir = Directory::new();
    dir.append(b"first.store.kv", &record(b"k", b"v"));
    assert!(Store::new(dir, false).is_ok());
}

#[test]
fn no_flush_is_made_when_no_segment_id_is_left() {
    let mut dir = Directory::new();
    dir.append(b"18446744073709551615.store.kv", &record(b"k", b"v"));
    let mut store = Store::new(dir, true).unwrap();
    assert_eq!(store.current_file_id(), u64::MAX);
    assert_eq!(
        store.flush_pending_writes(),
        Err(StoreError::OutOfSegmentIds)
    );
    store.set_mem_table_size_limit(0);
    assert_eq!(store.put(b"a", b"1"), Err(StoreError::OutOfSegmentIds));
    assert_eq!(store.get(b"a"), Some(b"1".to_vec()));
    assert_eq!(store.get(b"k"), Some(b"v".to_vec()));
    assert_eq!(get_store_files(store.dir()).len(), 1);
}

#[test]
fn the_changes_lead_from_the_files_as_they_were_to_the_files_as_they_are() {
    let mut store = empty_store();
    let opened = store.take_changes();
    assert_eq!(
        opened,
        vec![
            Change::RemoveAll,
            Change::Create(b"write_ahead_log.txt".to_vec())
        ]
    );
    store.put(b"k", b"v").unwrap();
    store.flush_pending_writes().unwrap();
    let changes = store.take_changes();
    assert_eq!(
        changes,
        vec![
            Change::Append(b"write_ahead_log.txt".to_vec(), record(b"k", b"v")),
            Change::Append(b"2.store.kv".to_vec(), record(b"k", b"v")),
            Change::Create(b"write_ahead_log.txt.temp".to_vec()),
            Change::Rename(
                b"write_ahead_log.txt.temp".to_vec(),
                b"write_ahead_log.txt".to_vec()
            ),
        ]
    );
    assert_eq!(store.take_changes(), Vec::new());
    store.put(b"k", b"w").unwrap();
    store.flush_pending_writes().unwrap();
    let _ = store.take_changes();
    store.compact();
    let changes = store.take_changes();
    assert_eq!(
        changes,
        vec![
            Change::Create(b"temp.3.store.kv".to_vec()),
            Change::Append(b"temp.3.store.kv".to_vec(), record(b"k", b"w")),
            Change::Rename(b"temp.3.store.kv".to_vec(), b"3.store.kv".to_vec()),
            Change::Remove(b"2.store.kv".to_vec()),
        ]
    );
}

#[test]
fn compaction_brings_back_what_lay_below_a_missing_segment_id() {
    let mut dir = Directory::new();
    dir.append(b"1.store.kv", &record(b"k", b"below the gap"));
    dir.append(b"3.store.kv", &record(b"other", b"x"));
    let mut store = Store::new(dir, true).unwrap();
    assert_eq!(store.get(b"k"), None);
    store.compact();
    assert_eq!(store.get(b"k"), Some(b"below the gap".to_vec()));
    assert_eq!(store.get(b"other"), Some(b"x".to_vec()));
    assert_eq!(get_store_files(store.dir()), vec![b"3.store.kv".to_vec()]);
}

#[test]
fn a_segment_with_the_id_zero_is_merged_into_the_segment_with_the_current_id() {
    let mut dir = Directory::new();
    dir.append(b"0.store.kv", &record(b"k", b"zero"));
    let mut store = Store::new(dir, true).unwrap();
    assert_eq!(store.current_file_id(), 1);
    assert_eq!(store.get(b"k"), None);
    store.compact();
    assert_eq!(store.current_file_id(), 1);
    assert_eq!(get_store_files(store.dir()), vec![b"1.store.kv".to_vec()]);
    assert_eq!(store.get(b"k"), Some(b"zero".to_vec()));
}

#[test]
fn opening_records_how_the_log_was_made_ready() {
    let mut dir = Directory::new();
    let whole = record(b"k", b"v");
    let mut log = whole.clone();
    log.extend_from_slice(&[9, 9]);
    dir.append(b"write_ahead_log.txt", &log);
    dir.take_changes();
    let mut store = Store::new(dir, true).unwrap();
    assert_eq!(
        store.take_changes(),
        vec![
            Change::Create(b"write_ahead_log.txt.temp".to_vec()),
            Change::Append(b"write_ahead_log.txt.temp".to_vec(), whole),
            Change::Rename(
                b"write_ahead_log.txt.temp".to_vec(),
                b"write_ahead_log.txt".to_vec()
            ),
        ]
    );
    let mut store = Store::new(store.into_directory(), true).unwrap();
    assert_eq!(store.take_changes(), Vec::new());
    assert_eq!(store.get(b"k"), Some(b"v".to_vec()));
}

#[test]
fn the_highest_segment_id_is_the_current_one_when_a_directory_is_opened() {
    let mut store = empty_store();
    store.mem_table_size_limit_in_bytes = 1;
    store.put(&1_u32.to_le_bytes(), b"10").unwrap();
    store.put(&2_u32.to_le_bytes(), b"20").unwrap();
    store.put(&3_u32.to_le_bytes(), b"30").unwrap();
    assert_eq!(store.current_file_id(), 4);
    let new_store = Store::new(store.into_directory(), true).unwrap();
    assert_eq!(new_store.current_file_id(), 4);
    assert_eq!(new_store.get(&2_u32.to_le_bytes()), Some(b"20".to_vec()));
}
