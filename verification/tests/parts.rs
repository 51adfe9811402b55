use store::byte_map::ByteMap;
use store::command::{Command, Response};
use store::directory::{get_store_files, Change, Directory};
use store::engine::Store;
use store::error::StoreError;
use store::index::{
    build_store_from_dir, parse_file_into_kv, parse_store_file_into_store_data, restore_from_wal,
    StoreData, StoreEntry,
};
use store::mem_table::{entry_of, put_into_memory, TableEntry};
use store::order::{compare, Rank};
use store::record::{
    append_kv_to_file, decode_all, decode_record, encode_into, field_holds, KeyValue,
    MAX_FIELD_BYTES,
};
use store::segment::{
    file_id_from_path, filename_for_file_id, is_store_file, sort_file_ids,
    store_filename_suffix, temp_filename_for_file_id, write_ahead_log_filename,
    write_ahead_log_temp_filename,
};
use store::server::handle_command;
use store::writer::{create_entry, write_table};

fn record(key: &[u8], value: &[u8]) -> Vec<u8> {
    let mut bytes = Vec::new();
    bytes.extend_from_slice(&(key.len() as u32).to_le_bytes());
    bytes.extend_from_slice(key);
    bytes.extend_from_slice(&(value.len() as u32).to_le_bytes());
    bytes.extend_from_slice(value);
    bytes
}

#[test]
fn a_record_is_its_two_sizes_in_little_endian_order_with_the_key_and_the_value() {
    let mut out = vec![0xff_u8];
    let written = encode_into(&mut out, b"ab", Some(b"xyz")).unwrap();
    assert_eq!(written, 13);
    assert_eq!(
        out,
        vec![0xff, 2, 0, 0, 0, b'a', b'b', 3, 0, 0, 0, b'x', b'y', b'z']
    );
    let key = vec![9_u8; 258];
    let mut out = Vec::new();
    encode_into(&mut out, &key, None).unwrap();
    assert_eq!(&out[..4], &[2, 1, 0, 0]);
    assert_eq!(&out[262..], &[0, 0, 0, 0]);
    assert_eq!(out.len(), 266);
}

#[test]
fn a_size_field_says_lengths_up_to_four_bytes_of_ones() {
    assert_eq!(MAX_FIELD_BYTES, 4_294_967_295);
    assert!(field_holds(0));
    assert!(field_holds(4_294_967_295));
    assert!(!field_holds(4_294_967_296));
    assert!(!field_holds(usize::MAX));
}

#[test]
fn a_missing_value_is_written_as_an_empty_one() {
    let mut with_none = Vec::new();
    let mut with_empty = Vec::new();
    assert_eq!(append_kv_to_file(&mut with_none, 1, b"k", 0, None), 9);
    assert_eq!(append_kv_to_file(&mut with_empty, 1, b"k", 0, Some(b"")), 9);
    assert_eq!(with_none, with_empty);
    assert_eq!(with_none, vec![1, 0, 0, 0, b'k', 0, 0, 0, 0]);
}

#[test]
fn decoding_gives_back_what_was_encoded() {
    let mut out = Vec::new();
    encode_into(&mut out, b"first key", Some(b"first value")).unwrap();
    encode_into(&mut out, b"", Some(b"value of the empty key")).unwrap();
    encode_into(&mut out, b"deleted", None).unwrap();
    let mut cursor = 0;
    let first = decode_record(&out, &mut cursor).unwrap();
    assert_eq!(
        first,
        KeyValue {
            value_size: 11,
            key_size: 9,
            key: b"first key".to_vec(),
            value: b"first value".to_vec()
        }
    );
    assert_eq!(cursor, 28);
    let second = decode_record(&out, &mut cursor).unwrap();
    assert_eq!(second.key, b"");
    assert_eq!(second.value, b"value of the empty key");
    let third = decode_record(&out, &mut cursor).unwrap();
    assert_eq!(third.key, b"deleted");
    assert_eq!(third.value, b"");
    assert_eq!(third.value_size, 0);
    assert_eq!(cursor, out.len());
    assert_eq!(decode_record(&out, &mut cursor), Err(StoreError::Malformed));
    assert_eq!(cursor, out.len());
}

#[test]
fn decoding_fails_where_a_field_is_cut_short() {
    let whole = record(b"key", b"value");
    for cut in 0..whole.len() {
        let mut cursor = 0;
        assert_eq!(
            decode_record(&whole[..cut], &mut cursor),
            Err(StoreError::Malformed)
        );
        assert_eq!(cursor, 0);
    }
    let mut cursor = whole.len() + 1;
    assert_eq!(decode_record(&whole, &mut cursor), Err(StoreError::Malformed));
}

#[test]
fn decoding_all_stops_at_the_first_position_without_a_whole_record() {
    let mut bytes = record(b"a", b"1");
    bytes.extend_from_slice(&record(b"bb", b""));
    let whole = bytes.len();
    bytes.extend_from_slice(&[1, 0, 0, 0]);
    let found = decode_all(&bytes);
    assert_eq!(found.end, whole);
    assert_eq!(found.offsets, vec![0, 10]);
    assert_eq!(found.records.len(), 2);
    assert_eq!(found.records[1].key, b"bb");
    let found = decode_all(&[]);
    assert_eq!(found.end, 0);
    assert!(found.records.is_empty());
}

#[test]
fn byte_strings_are_ordered_byte_by_byte_and_a_prefix_comes_first() {
    assert_eq!(compare(b"", b""), Rank::Same);
    assert_eq!(compare(b"", b"a"), Rank::Before);
    assert_eq!(compare(b"a", b""), Rank::After);
    assert_eq!(compare(b"ab", b"abc"), Rank::Before);
    assert_eq!(compare(b"abd", b"abc"), Rank::After);
    assert_eq!(compare(b"10", b"9"), Rank::Before);
    assert_eq!(compare(&[0xff], &[0x7f, 0xff]), Rank::After);
    assert_eq!(compare(b"same", b"same"), Rank::Same);
}

#[test]
fn a_byte_map_holds_its_keys_in_ascending_order() {
    let mut map: ByteMap<u32> = ByteMap::new();
    assert!(map.is_empty());
    map.insert(b"m".to_vec(), 1);
    map.insert(b"a".to_vec(), 2);
    map.insert(b"z".to_vec(), 3);
    map.insert(b"mm".to_vec(), 4);
    map.insert(b"a".to_vec(), 5);
    assert_eq!(map.len(), 4);
    let keys: Vec<Vec<u8>> = (0..map.len()).map(|i| map.key_at(i).clone()).collect();
    assert_eq!(
        keys,
        vec![b"a".to_vec(), b"m".to_vec(), b"mm".to_vec(), b"z".to_vec()]
    );
    assert_eq!(*map.value_at(0), 5);
    assert_eq!(map.get(b"mm"), Some(&4));
    assert_eq!(map.get(b"n"), None);
    assert!(map.contains_key(b"z"));
    assert_eq!(map.remove(b"m"), Some(1));
    assert_eq!(map.remove(b"m"), None);
    assert_eq!(map.len(), 3);
    assert_eq!(map.key_at(1), &b"mm".to_vec());
    map.clear();
    assert_eq!(map.len(), 0);
    assert_eq!(map.get(b"a"), None);
}

#[test]
fn segment_files_are_named_by_their_id() {
    assert_eq!(filename_for_file_id(0), b"0.store.kv");
    assert_eq!(filename_for_file_id(7), b"7.store.kv");
    assert_eq!(filename_for_file_id(10), b"10.store.kv");
    assert_eq!(filename_for_file_id(1203), b"1203.store.kv");
    assert_eq!(
        filename_for_file_id(u64::MAX),
        b"18446744073709551615.store.kv"
    );
    assert_eq!(temp_filename_for_file_id(42), b"temp.42.store.kv");
    assert_eq!(store_filename_suffix(), b".store.kv");
    assert_eq!(write_ahead_log_filename(), b"write_ahead_log.txt");
    assert_eq!(write_ahead_log_temp_filename(), b"write_ahead_log.txt.temp");
}

#[test]
fn the_id_of_a_file_is_the_number_before_the_first_dot() {
    assert_eq!(file_id_from_path(b"7.store.kv"), Ok(7));
    assert_eq!(file_id_from_path(b"10.store.kv"), Ok(10));
    assert_eq!(file_id_from_path(b"007.store.kv"), Ok(7));
    assert_eq!(file_id_from_path(b"+7.store.kv"), Ok(7));
    assert_eq!(file_id_from_path(b"12"), Ok(12));
    assert_eq!(file_id_from_path(b"3.14.store.kv"), Ok(3));
    assert_eq!(
        file_id_from_path(b"18446744073709551615.store.kv"),
        Ok(u64::MAX)
    );
    for name in [
        &b"18446744073709551616.store.kv"[..],
        b"99999999999999999999999.store.kv",
        b".store.kv",
        b"",
        b"+.store.kv",
        b"-7.store.kv",
        b"++7.store.kv",
        b"7+.store.kv",
        b" 7.store.kv",
        b"7a.store.kv",
        b"temp.7.store.kv",
        b"write_ahead_log.txt",
    ] {
        assert_eq!(file_id_from_path(name), Err(StoreError::Malformed));
    }
}

#[test]
fn the_id_of_a_file_is_what_std_reads_from_the_text_before_the_first_dot() {
    for name in [
        "0.store.kv",
        "00.x",
        "+0",
        "+",
        "-0",
        "1_000.store.kv",
        "18446744073709551615",
        "18446744073709551616",
        "0018446744073709551615.kv",
        "٣.store.kv",
        "5",
    ] {
        let stem = name.split('.').next().unwrap();
        let expected = stem.parse::<u64>().map_err(|_| StoreError::Malformed);
        assert_eq!(file_id_from_path(name.as_bytes()), expected);
    }
    for id in [0_u64, 9, 10, 99, 100, 12345678901234567890, u64::MAX] {
        assert_eq!(filename_for_file_id(id), format!("{}.store.kv", id).as_bytes());
        assert_eq!(file_id_from_path(&filename_for_file_id(id)), Ok(id));
    }
}

#[test]
fn a_segment_file_is_known_by_the_end_of_its_name() {
    assert!(is_store_file(b"1.store.kv"));
    assert!(is_store_file(b".store.kv"));
    assert!(is_store_file(b"temp.1.store.kv"));
    assert!(!is_store_file(b"1.store.kv "));
    assert!(!is_store_file(b"store.kv"));
    assert!(!is_store_file(b"1.store.kw"));
    assert!(!is_store_file(b"write_ahead_log.txt"));
    assert!(!is_store_file(b""));
}

#[test]
fn ids_are_sorted_by_number() {
    assert_eq!(
        sort_file_ids(&vec![10, 9, 2, 11, 1, 100, 20]),
        vec![1, 2, 9, 10, 11, 20, 100]
    );
    assert_eq!(sort_file_ids(&vec![3, 1, 3, 2, 1]), vec![1, 1, 2, 3, 3]);
    assert_eq!(sort_file_ids(&Vec::new()), Vec::<u64>::new());
}

#[test]
fn a_directory_lists_its_files_by_name_and_its_segment_files_apart() {
    let mut dir = Directory::new();
    dir.append(b"9.store.kv", b"");
    dir.append(b"10.store.kv", b"");
    dir.append(b"write_ahead_log.txt", b"");
    dir.append(b"2.store.kv", b"");
    dir.append(b"notes", b"");
    assert_eq!(dir.len(), 5);
    assert_eq!(dir.name_at(0), &b"10.store.kv".to_vec());
    assert_eq!(
        get_store_files(&dir),
        vec![
            b"10.store.kv".to_vec(),
            b"2.store.kv".to_vec(),
            b"9.store.kv".to_vec()
        ]
    );
    assert_eq!(build_store_from_dir(&dir).unwrap().1, 10);
}

#[test]
fn a_directory_carries_out_and_records_changes() {
    let mut dir = Directory::new();
    dir.append(b"a", b"12");
    dir.append(b"a", b"3");
    assert_eq!(dir.read(b"a"), Some(&b"123".to_vec()));
    dir.create(b"b");
    assert_eq!(dir.read(b"b"), Some(&Vec::new()));
    assert!(dir.rename(b"a", b"b"));
    assert_eq!(dir.read(b"a"), None);
    assert_eq!(dir.read(b"b"), Some(&b"123".to_vec()));
    assert!(!dir.rename(b"a", b"c"));
    assert!(dir.rename(b"b", b"b"));
    assert_eq!(dir.read(b"b"), Some(&b"123".to_vec()));
    dir.create(b"b");
    assert_eq!(dir.read(b"b"), Some(&Vec::new()));
    assert!(dir.remove(b"b"));
    assert!(!dir.remove(b"b"));
    assert!(!dir.contains(b"b"));
    assert_eq!(dir.len(), 0);
    let changes = dir.take_changes();
    assert_eq!(
        changes,
        vec![
            Change::Append(b"a".to_vec(), b"12".to_vec()),
            Change::Append(b"a".to_vec(), b"3".to_vec()),
            Change::Create(b"b".to_vec()),
            Change::Rename(b"a".to_vec(), b"b".to_vec()),
            Change::Rename(b"b".to_vec(), b"b".to_vec()),
            Change::Create(b"b".to_vec()),
            Change::Remove(b"b".to_vec()),
        ]
    );
    dir.append(b"c", b"x");
    dir.remove_all();
    assert_eq!(dir.len(), 0);
    assert_eq!(
        dir.take_changes(),
        vec![
            Change::Append(b"c".to_vec(), b"x".to_vec()),
            Change::RemoveAll
        ]
    );
}

#[test]
fn an_index_says_where_the_last_record_of_each_key_stands() {
    let mut dir = Directory::new();
    let mut bytes = record(b"a", b"one");
    bytes.extend_from_slice(&record(b"bb", b""));
    bytes.extend_from_slice(&record(b"a", b"three"));
    dir.append(b"4.store.kv", &bytes);
    let mut index: StoreData = ByteMap::new();
    assert_eq!(parse_store_file_into_store_data(&dir, 4, &mut index), Ok(()));
    assert_eq!(index.len(), 2);
    assert_eq!(
        index.get(b"a"),
        Some(&StoreEntry {
            value_size: 5,
            key_size: 1,
            byte_offset: 22,
            file_id: 4
        })
    );
    assert_eq!(
        index.get(b"bb"),
        Some(&StoreEntry {
            value_size: 0,
            key_size: 2,
            byte_offset: 12,
            file_id: 4
        })
    );
    assert_eq!(
        parse_store_file_into_store_data(&dir, 5, &mut index),
        Err(StoreError::Io)
    );
    dir.append(b"4.store.kv", &[0]);
    let mut torn: StoreData = ByteMap::new();
    assert_eq!(
        parse_store_file_into_store_data(&dir, 4, &mut torn),
        Err(StoreError::Malformed)
    );
    assert_eq!(torn.len(), 2);
}

#[test]
fn the_values_of_a_segment_are_laid_over_those_of_earlier_ones() {
    let mut dir = Directory::new();
    let mut first = record(b"a", b"1");
    first.extend_from_slice(&record(b"b", b"2"));
    dir.append(b"1.store.kv", &first);
    let mut second = record(b"b", b"");
    second.extend_from_slice(&record(b"c", b"3"));
    dir.append(b"2.store.kv", &second);
    let mut table: ByteMap<TableEntry> = ByteMap::new();
    assert_eq!(parse_file_into_kv(&dir, 1, &mut table), Ok(()));
    assert_eq!(parse_file_into_kv(&dir, 2, &mut table), Ok(()));
    assert_eq!(parse_file_into_kv(&dir, 3, &mut table), Err(StoreError::Io));
    assert_eq!(table.len(), 3);
    assert_eq!(table.get(b"a"), Some(&TableEntry::Populated(b"1".to_vec())));
    assert_eq!(table.get(b"b"), Some(&TableEntry::Tombstone));
    assert_eq!(table.get(b"c"), Some(&TableEntry::Populated(b"3".to_vec())));
}

#[test]
fn a_log_that_is_missing_holds_no_records() {
    let dir = Directory::new();
    let found = restore_from_wal(&dir);
    assert!(found.records.is_empty());
    assert_eq!(found.end, 0);
    let mut dir = Directory::new();
    dir.append(b"write_ahead_log.txt", &record(b"k", b"v"));
    let found = restore_from_wal(&dir);
    assert_eq!(found.records.len(), 1);
    assert_eq!(found.records[0].value, b"v");
    assert_eq!(found.end, 10);
}

#[test]
fn an_entry_of_the_write_buffer_stands_for_a_value() {
    assert_eq!(entry_of(b""), TableEntry::Tombstone);
    assert_eq!(entry_of(b"v"), TableEntry::Populated(b"v".to_vec()));
    let mut table: ByteMap<TableEntry> = ByteMap::new();
    let mut count = 10_u64;
    put_into_memory(&mut table, &mut count, b"key", b"value");
    assert_eq!(count, 18);
    assert_eq!(table.get(b"key"), Some(&TableEntry::Populated(b"value".to_vec())));
}

#[test]
fn a_table_is_written_as_a_segment_with_its_index() {
    let mut table: ByteMap<TableEntry> = ByteMap::new();
    table.insert(b"b".to_vec(), TableEntry::Tombstone);
    table.insert(b"a".to_vec(), TableEntry::Populated(b"xy".to_vec()));
    let (bytes, index) = write_table(&table, 9);
    let mut expected = record(b"a", b"xy");
    expected.extend_from_slice(&record(b"b", b""));
    assert_eq!(bytes, expected);
    assert_eq!(
        index.get(b"b"),
        Some(&StoreEntry {
            value_size: 0,
            key_size: 1,
            byte_offset: 11,
            file_id: 9
        })
    );
    let mut writer = vec![1, 2, 3];
    let (entry, written) = create_entry(&mut writer, b"key", Some(b"v"), 3, 5);
    assert_eq!(written, 12);
    assert_eq!(
        entry,
        StoreEntry {
            value_size: 1,
            key_size: 3,
            byte_offset: 3,
            file_id: 5
        }
    );
    assert_eq!(&writer[3..], &record(b"key", b"v")[..]);
}

#[test]
fn the_server_answers_a_ping_and_a_get_and_writes_on_a_put() {
    let mut store = Store::new(Directory::new(), false).unwrap();
    assert_eq!(
        handle_command(&mut store, &Command::Ping),
        Ok(Some(Response::Pong))
    );
    assert_eq!(
        handle_command(&mut store, &Command::Get(b"k".to_vec())),
        Ok(Some(Response::Value(None)))
    );
    assert_eq!(
        handle_command(
            &mut store,
            &Command::Put((b"k".to_vec(), b"Woowee for tests".to_vec()))
        ),
        Ok(None)
    );
    assert_eq!(
        handle_command(&mut store, &Command::Get(b"k".to_vec())),
        Ok(Some(Response::Value(Some(b"Woowee for tests".to_vec()))))
    );
}

#[test]
fn every_error_has_its_message() {
    assert_eq!(StoreError::Io.message(), "file not found");
    assert_eq!(
        StoreError::Malformed.message(),
        "malformed segment or segment file name"
    );
    assert_eq!(
        StoreError::InvalidArgument.message(),
        "key or value longer than 4294967295 bytes"
    );
    assert_eq!(StoreError::OutOfSegmentIds.message(), "segment ids exhausted");
}
