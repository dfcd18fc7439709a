use logkv::data::{is_trimmed_key, KEY_MAX_LEN};
use logkv::directory::DirFile;
use logkv::error::StoreError;
use logkv::ifc::Database;

fn setup() -> logkv::hash::Hash {
    let mut instance = logkv::hash::Hash::new(Vec::new(), 1000);
    instance.init().unwrap();
    instance.reset().unwrap();
    instance
}

fn small(page_size: u64) -> logkv::hash::Hash {
    let mut instance = logkv::hash::Hash::new(Vec::new(), page_size);
    instance.init().unwrap();
    instance
}

fn reopen(store: &logkv::hash::Hash, page_size: u64) -> logkv::hash::Hash {
    let mut again = logkv::hash::Hash::new(store.directory(), page_size);
    again.init().unwrap();
    again
}

fn names(store: &logkv::hash::Hash) -> Vec<String> {
    store.directory().into_iter().map(|f| f.name).collect()
}

#[test]
fn hash_should_write_data() {
    let mut db = setup();
    db.write(b"john", b"smith").unwrap();
}

#[test]
fn hash_should_read_the_last_written_value() {
    let mut db = setup();
    db.write(b"john", b"smith").unwrap();
    db.write(b"johnny", b"sins").unwrap();
    db.write(b"iphone", b"5").unwrap();
    db.write(b"john", b"5").unwrap();
    db.write(b"m3n", b"hund").unwrap();

    let value = db.read(b"john").unwrap();

    assert!(value.is_some());
    assert_eq!(value.unwrap(), b"5".to_vec());
}

#[test]
fn hash_should_return_none_for_non_existing_keys() {
    let mut db = setup();
    db.write(b"john", b"smith").unwrap();

    let value = db.read(b"potato").unwrap();

    assert!(value.is_none());
}

#[test]
fn hash_should_delete_a_key() {
    let mut db = setup();
    db.write(b"john", b"smith").unwrap();
    db.write(b"john", b"5").unwrap();
    db.write(b"john", b"foo").unwrap();
    db.write(b"foo", b"bar").unwrap();

    assert!(db.delete(b"john").unwrap());

    let value = db.read(b"john").unwrap();
    assert!(value.is_none());

    let other = db.read(b"foo").unwrap();
    assert!(other.is_some());
}

#[test]
fn round_trip_of_keys_and_values() {
    let mut db = setup();
    let long_key = vec![b'k'; KEY_MAX_LEN];
    let big_value = vec![7u8; 5000];
    db.write(b"", b"empty key").unwrap();
    db.write(b"a", b"").unwrap();
    db.write(&long_key, &big_value).unwrap();
    db.write(b"in\0side", b"zero inside").unwrap();
    assert_eq!(db.read(b"").unwrap(), Some(b"empty key".to_vec()));
    assert_eq!(db.read(b"a").unwrap(), Some(Vec::new()));
    assert_eq!(db.read(&long_key).unwrap(), Some(big_value));
    assert_eq!(db.read(b"in\0side").unwrap(), Some(b"zero inside".to_vec()));
}

#[test]
fn overwrite_never_returns_the_old_value() {
    let mut db = setup();
    db.write(b"k", b"v1").unwrap();
    db.write(b"k", b"v2").unwrap();
    assert_eq!(db.read(b"k").unwrap(), Some(b"v2".to_vec()));
    assert_ne!(db.read(b"k").unwrap(), Some(b"v1".to_vec()));
}

#[test]
fn delete_of_a_key_never_written_returns_false() {
    let mut db = setup();
    db.write(b"other", b"1").unwrap();
    let before = db.directory();
    assert_eq!(db.delete(b"missing"), Ok(false));
    assert_eq!(db.directory(), before);
    assert_eq!(db.read(b"other").unwrap(), Some(b"1".to_vec()));
}

#[test]
fn delete_appends_a_tombstone() {
    let mut db = setup();
    db.write(b"x", b"y").unwrap();
    let before = db.directory()[0].data.len();
    assert_eq!(db.delete(b"x"), Ok(true));
    assert_eq!(db.directory()[0].data.len(), before + 137);
    assert_eq!(db.delete(b"x"), Ok(false));
    assert_eq!(db.directory()[0].data.len(), before + 137);
}

#[test]
fn rotation_keeps_every_key_readable() {
    let mut db = small(64);
    db.write(b"a", b"1").unwrap();
    db.write(b"b", b"2").unwrap();
    db.write(b"a", b"3").unwrap();
    db.write(b"c", b"4").unwrap();
    assert_eq!(db.read(b"a").unwrap(), Some(b"3".to_vec()));
    assert_eq!(db.read(b"b").unwrap(), Some(b"2".to_vec()));
    assert_eq!(db.read(b"c").unwrap(), Some(b"4".to_vec()));
    assert!(db.directory().len() >= 2);
    assert_eq!(
        names(&db),
        vec!["segment-000000", "segment-000001", "segment-000002", "segment-000003"]
    );
}

#[test]
fn rotation_happens_when_the_threshold_is_reached() {
    let mut db = small(300);
    db.write(b"a", b"1").unwrap();
    assert_eq!(db.directory().len(), 1);
    db.write(b"b", b"2").unwrap();
    assert_eq!(db.directory().len(), 1);
    assert_eq!(db.directory()[0].data.len(), 276);
    db.write(b"c", b"333333333333333333333333").unwrap();
    assert_eq!(db.directory().len(), 1);
    assert_eq!(db.directory()[0].data.len(), 437);
    db.write(b"d", b"4").unwrap();
    assert_eq!(db.directory().len(), 2);
    assert_eq!(db.directory()[1].data.len(), 138);
    assert_eq!(db.read(b"c").unwrap(), Some(b"333333333333333333333333".to_vec()));
}

#[test]
fn deleted_key_stays_deleted_after_reopening() {
    let mut db = setup();
    db.write(b"x", b"y").unwrap();
    assert_eq!(db.delete(b"x"), Ok(true));
    assert_eq!(db.read(b"x").unwrap(), None);
    let mut again = reopen(&db, 1000);
    assert_eq!(again.read(b"x").unwrap(), None);
    assert_eq!(again.delete(b"x"), Ok(false));
}

#[test]
fn reopening_gives_the_same_store() {
    let mut db = small(200);
    db.write(b"a", b"1").unwrap();
    db.write(b"b", b"2").unwrap();
    db.write(b"c", b"3").unwrap();
    db.write(b"a", b"4").unwrap();
    db.write(b"d", b"5").unwrap();
    assert_eq!(db.delete(b"d"), Ok(true));
    let again = reopen(&db, 200);
    assert_eq!(again.directory(), db.directory());
    for key in [&b"a"[..], b"b", b"c", b"d", b"e"] {
        assert_eq!(again.read(key), db.read(key));
        assert_eq!(again.locate(key), db.locate(key));
    }
    assert_eq!(again.read(b"a").unwrap(), Some(b"4".to_vec()));
    assert_eq!(again.read(b"d").unwrap(), None);
}

#[test]
fn init_of_an_open_store_reads_the_segments_anew() {
    let mut db = small(200);
    db.write(b"a", b"1").unwrap();
    db.write(b"b", b"2").unwrap();
    db.write(b"a", b"3").unwrap();
    let files = db.directory();
    db.init().unwrap();
    assert_eq!(db.directory(), files);
    assert_eq!(db.read(b"a").unwrap(), Some(b"3".to_vec()));
    assert_eq!(db.read(b"b").unwrap(), Some(b"2".to_vec()));
}

#[test]
fn tombstone_in_a_newer_segment_does_not_hide_an_older_record_on_reopening() {
    let mut db = small(100);
    db.write(b"x", b"1").unwrap();
    db.write(b"y", b"2").unwrap();
    assert_eq!(db.directory().len(), 2);
    assert_eq!(db.delete(b"x"), Ok(true));
    assert_eq!(db.read(b"x").unwrap(), None);
    let again = reopen(&db, 100);
    assert_eq!(again.read(b"x").unwrap(), Some(b"1".to_vec()));
    assert_eq!(again.read(b"y").unwrap(), Some(b"2".to_vec()));
}

#[test]
fn key_too_large_is_refused_and_changes_nothing() {
    let mut db = setup();
    db.write(b"a", b"1").unwrap();
    db.write(b"b", b"2").unwrap();
    let before = db.directory();
    let key = vec![b'k'; KEY_MAX_LEN + 1];
    assert_eq!(db.write(&key, b"v"), Err(StoreError::KeyTooLarge));
    assert_eq!(db.directory(), before);
    assert_eq!(db.read(b"a").unwrap(), Some(b"1".to_vec()));
    assert_eq!(db.read(b"b").unwrap(), Some(b"2".to_vec()));
    assert_eq!(db.read(&key).unwrap(), None);
    assert_eq!(db.delete(&key), Ok(false));
}

#[test]
fn operations_before_init_fail() {
    let mut db = logkv::hash::Hash::new(Vec::new(), 1000);
    assert_eq!(db.write(b"a", b"1"), Err(StoreError::Uninitialized));
    assert_eq!(db.read(b"a"), Err(StoreError::Uninitialized));
    assert_eq!(db.delete(b"a"), Err(StoreError::Uninitialized));
    assert_eq!(db.compact(), Err(StoreError::Uninitialized));
    assert!(db.directory().is_empty());
    db.init().unwrap();
    assert_eq!(db.write(b"a", b"1"), Ok(()));
}

#[test]
fn init_creates_segment_zero_in_an_empty_directory() {
    let mut db = logkv::hash::Hash::new(
        vec![DirFile { name: "notes.txt".to_string(), data: b"hello".to_vec() }],
        1000,
    );
    assert_eq!(db.init(), Ok(()));
    let files = db.directory();
    assert_eq!(files.len(), 1);
    assert_eq!(files[0].name, "segment-000000");
    assert!(files[0].data.is_empty());
}

#[test]
fn key_with_trailing_zero_is_written_but_not_read_back() {
    let mut db = setup();
    assert!(!is_trimmed_key(b"a\0"));
    assert!(is_trimmed_key(b"a"));
    assert!(is_trimmed_key(b""));
    db.write(b"a", b"plain").unwrap();
    assert_eq!(db.write(b"a\0", b"odd"), Ok(()));
    assert_eq!(db.read(b"a\0"), Err(StoreError::Corruption));
    assert_eq!(db.read(b"a").unwrap(), Some(b"plain".to_vec()));
    assert_eq!(db.delete(b"a\0"), Ok(true));
    assert_eq!(db.read(b"a\0"), Ok(None));
}

#[test]
fn sequence_numbers_run_out() {
    let mut db = logkv::hash::Hash::new(
        vec![DirFile { name: "segment-4294967295".to_string(), data: Vec::new() }],
        0,
    );
    db.init().unwrap();
    assert_eq!(db.write(b"a", b"1"), Err(StoreError::SequenceOverflow));
    assert_eq!(db.read(b"a"), Ok(None));
    assert_eq!(db.directory().len(), 1);
}

#[test]
fn compaction_keeps_values_and_drops_old_records() {
    let mut db = small(200);
    db.write(b"a", b"1").unwrap();
    db.write(b"b", b"2").unwrap();
    db.write(b"a", b"3").unwrap();
    db.write(b"c", b"4").unwrap();
    db.write(b"d", b"5").unwrap();
    assert_eq!(db.delete(b"b"), Ok(true));
    db.write(b"e", b"6").unwrap();
    let before: usize = db.directory().iter().map(|f| f.data.len()).sum();
    let count = db.directory().len();
    assert!(count > 2);
    let active = db.directory().pop().unwrap();

    assert_eq!(db.compact(), Ok(()));

    let files = db.directory();
    assert_eq!(files.len(), 2);
    assert_eq!(files[0].name, "segment-000000");
    assert_eq!(files[1], active);
    let after: usize = files.iter().map(|f| f.data.len()).sum();
    assert!(after <= before);
    assert_eq!(db.read(b"a").unwrap(), Some(b"3".to_vec()));
    assert_eq!(db.read(b"b").unwrap(), None);
    assert_eq!(db.read(b"c").unwrap(), Some(b"4".to_vec()));
    assert_eq!(db.read(b"d").unwrap(), Some(b"5".to_vec()));
    assert_eq!(db.read(b"e").unwrap(), Some(b"6".to_vec()));

    let again = reopen(&db, 200);
    for key in [&b"a"[..], b"b", b"c", b"d", b"e"] {
        assert_eq!(again.read(key), db.read(key));
    }
}

#[test]
fn compaction_of_one_segment_changes_nothing() {
    let mut db = setup();
    db.write(b"a", b"1").unwrap();
    db.write(b"a", b"2").unwrap();
    let before = db.directory();
    assert_eq!(db.compact(), Ok(()));
    assert_eq!(db.directory(), before);
    assert_eq!(db.read(b"a").unwrap(), Some(b"2".to_vec()));
}

#[test]
fn compaction_sizes_are_exact() {
    let mut db = small(138);
    db.write(b"a", b"1").unwrap();
    db.write(b"a", b"22").unwrap();
    db.write(b"b", b"333").unwrap();
    db.write(b"c", b"4").unwrap();
    assert_eq!(db.directory().len(), 4);
    assert_eq!(db.compact(), Ok(()));
    let files = db.directory();
    assert_eq!(files.len(), 2);
    assert_eq!(files[0].data.len(), 139 + 140);
    let mut expected = Vec::new();
    logkv::data::write_entry(&mut expected, b"a", b"22").unwrap();
    logkv::data::write_entry(&mut expected, b"b", b"333").unwrap();
    assert_eq!(files[0].data, expected);
    assert_eq!(files[1].name, "segment-000003");
    assert_eq!(files[1].data.len(), 138);
    assert_eq!(db.locate(b"a"), Some((0, 0)));
    assert_eq!(db.locate(b"b"), Some((0, 139)));
    assert_eq!(db.locate(b"c"), Some((3, 0)));
}

#[test]
fn reset_empties_the_store() {
    let mut db = small(100);
    db.write(b"a", b"1").unwrap();
    db.write(b"b", b"2").unwrap();
    assert_eq!(db.reset(), Ok(()));
    assert_eq!(db.read(b"a"), Ok(None));
    assert_eq!(db.read(b"b"), Ok(None));
    let files = db.directory();
    assert_eq!(files.len(), 1);
    assert_eq!(files[0].name, "segment-000000");
    assert!(files[0].data.is_empty());
}

#[test]
fn init_fails_on_a_damaged_segment() {
    let mut data = Vec::new();
    logkv::data::write_entry(&mut data, b"a", b"1").unwrap();
    data.extend_from_slice(&[0u8; 8]);
    data.push(9);
    data.extend_from_slice(&[0u8; 128]);
    let mut db = logkv::hash::Hash::new(
        vec![DirFile { name: "segment-000000".to_string(), data }],
        1000,
    );
    assert_eq!(db.init(), Err(StoreError::Corruption));
    assert_eq!(db.read(b"a"), Err(StoreError::Uninitialized));
    assert_eq!(db.directory().len(), 1);
}

#[test]
fn init_leaves_out_an_interrupted_write() {
    let mut data = Vec::new();
    logkv::data::write_entry(&mut data, b"a", b"1").unwrap();
    let whole = data.len();
    logkv::data::write_entry(&mut data, b"b", b"22222").unwrap();
    data.truncate(whole + 140);
    let mut db = logkv::hash::Hash::new(
        vec![DirFile { name: "segment-000004".to_string(), data }],
        1000,
    );
    assert_eq!(db.init(), Ok(()));
    assert_eq!(db.read(b"a").unwrap(), Some(b"1".to_vec()));
    assert_eq!(db.read(b"b").unwrap(), None);
    assert_eq!(db.directory()[0].data.len(), whole);
    db.write(b"c", b"3").unwrap();
    let again = reopen(&db, 1000);
    assert_eq!(again.read(b"c").unwrap(), Some(b"3".to_vec()));
    assert_eq!(again.directory()[0].name, "segment-000004");
}
