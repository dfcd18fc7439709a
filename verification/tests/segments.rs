use logkv::data::write_entry;
use logkv::directory::{get_filesystem_segments, get_segment_name, get_segment_number, DirFile};
use logkv::error::StoreError;
use logkv::index::{bytes_eq, Index};
use logkv::segment::FileSegment;

fn file(name: &str, data: &[u8]) -> DirFile {
    DirFile { name: name.to_string(), data: data.to_vec() }
}

#[test]
fn segment_names_are_zero_padded_to_six_digits() {
    assert_eq!(get_segment_name(0), "segment-000000");
    assert_eq!(get_segment_name(7), "segment-000007");
    assert_eq!(get_segment_name(123456), "segment-123456");
    assert_eq!(get_segment_name(999999), "segment-999999");
    assert_eq!(get_segment_name(1000000), "segment-1000000");
    assert_eq!(get_segment_name(1234567), "segment-1234567");
    assert_eq!(get_segment_name(u32::MAX), "segment-4294967295");
}

#[test]
fn segment_numbers_are_read_from_names() {
    assert_eq!(get_segment_number("segment-000000"), Some(0));
    assert_eq!(get_segment_number("segment-000007"), Some(7));
    assert_eq!(get_segment_number("segment-1000000"), Some(1000000));
    assert_eq!(get_segment_number("segment-4294967295"), Some(u32::MAX));
    for num in [0u32, 1, 9, 10, 99999, 100000, 999999, 1000000, 4294967294] {
        assert_eq!(get_segment_number(&get_segment_name(num)), Some(num));
    }
}

#[test]
fn other_names_are_no_segments() {
    for name in [
        "",
        "segment-",
        "segment-7",
        "segment-00007",
        "segment-0000007",
        "segment-4294967296",
        "segment-99999999999",
        "segment-00000a",
        "segment-+00007",
        "segment_000007",
        "Segment-000007",
        "data",
        "segment-000007.tmp",
        "segment-00000\u{663}",
    ] {
        assert_eq!(get_segment_number(name), None, "{}", name);
    }
}

#[test]
fn segments_are_listed_by_number() {
    let files = vec![
        file("segment-000010", b""),
        file("readme", b""),
        file("segment-000002", b""),
        file("segment-1000000", b""),
        file("segment-000002", b"again"),
        file("segment-999999", b""),
    ];
    assert_eq!(
        get_filesystem_segments(&files),
        vec![(2, 2), (0, 10), (5, 999999), (3, 1000000)]
    );
    assert_eq!(get_filesystem_segments(&[]), Vec::new());
}

#[test]
fn create_takes_the_next_number() {
    let first = FileSegment::create(&[]).unwrap();
    assert_eq!(first.num(), 0);
    assert_eq!(first.size(), 0);
    let existing = vec![FileSegment::empty(3), FileSegment::empty(9), FileSegment::empty(4)];
    assert_eq!(FileSegment::create(&existing).unwrap().num(), 10);
    let full = vec![FileSegment::empty(u32::MAX)];
    assert_eq!(FileSegment::create(&full).err(), Some(StoreError::SequenceOverflow));
}

#[test]
fn segment_appends_and_reads_at_offsets() {
    let mut segment = FileSegment::empty(5);
    assert_eq!(segment.write(b"a", b"1"), Ok(0));
    assert_eq!(segment.write(b"b", b"22"), Ok(138));
    assert_eq!(segment.write(b"a", b"333"), Ok(277));
    assert_eq!(segment.size(), 277 + 140);
    assert_eq!(segment.read(b"a", 0), Ok(b"1".to_vec()));
    assert_eq!(segment.read(b"b", 138), Ok(b"22".to_vec()));
    assert_eq!(segment.read(b"a", 277), Ok(b"333".to_vec()));
    assert_eq!(segment.read(b"b", 0), Err(StoreError::Corruption));
    assert_eq!(segment.read(b"a", 1), Err(StoreError::Corruption));
    assert_eq!(segment.read(b"a", 417), Err(StoreError::Corruption));
    assert_eq!(segment.hash().get(b"a"), Some(277));
    assert_eq!(segment.hash().get(b"b"), Some(138));
}

#[test]
fn segment_tombstone_leaves_the_own_index_alone() {
    let mut segment = FileSegment::empty(0);
    segment.write(b"a", b"1").unwrap();
    assert_eq!(segment.delete(b"a"), Ok(()));
    assert_eq!(segment.size(), 138 + 137);
    assert_eq!(segment.hash().get(b"a"), Some(0));
    assert_eq!(segment.read(b"a", 138), Err(StoreError::Corruption));
    segment.replay();
    assert_eq!(segment.hash().get(b"a"), None);
    let long = vec![1u8; 129];
    assert_eq!(segment.delete(&long), Err(StoreError::KeyTooLarge));
    assert_eq!(segment.write(&long, b""), Err(StoreError::KeyTooLarge));
    assert_eq!(segment.size(), 138 + 137);
}

#[test]
fn replay_keeps_the_last_live_record_of_each_key() {
    let mut data = Vec::new();
    write_entry(&mut data, b"a", b"1").unwrap();
    write_entry(&mut data, b"b", b"2").unwrap();
    write_entry(&mut data, b"a", b"3").unwrap();
    logkv::data::delete_entry(&mut data, b"b").unwrap();
    write_entry(&mut data, b"c", b"4").unwrap();
    logkv::data::delete_entry(&mut data, b"never").unwrap();
    let (index, end) = FileSegment::generate_hash_for_file(&data).unwrap();
    assert_eq!(end, data.len());
    assert_eq!(index.len(), 2);
    assert_eq!(index.get(b"a"), Some(276));
    assert_eq!(index.get(b"b"), None);
    assert_eq!(index.get(b"c"), Some(276 + 138 + 137));
}

#[test]
fn replay_stops_before_an_interrupted_write() {
    let mut data = Vec::new();
    write_entry(&mut data, b"a", b"1").unwrap();
    write_entry(&mut data, b"b", b"2").unwrap();
    data.truncate(138 + 50);
    let (index, end) = FileSegment::generate_hash_for_file(&data).unwrap();
    assert_eq!(end, 138);
    assert_eq!(index.get(b"a"), Some(0));
    assert_eq!(index.get(b"b"), None);
}

#[test]
fn replay_fails_on_bytes_that_are_no_record() {
    let mut data = Vec::new();
    write_entry(&mut data, b"a", b"1").unwrap();
    let at = data.len();
    write_entry(&mut data, b"b", b"2").unwrap();
    data[at + 8] = 7;
    write_entry(&mut data, b"c", b"3").unwrap();
    assert_eq!(
        FileSegment::generate_hash_for_file(&data).err(),
        Some(StoreError::Corruption)
    );
}

#[test]
fn from_dir_opens_segments_in_order() {
    let mut one = Vec::new();
    write_entry(&mut one, b"a", b"1").unwrap();
    let mut two = Vec::new();
    write_entry(&mut two, b"b", b"2").unwrap();
    two.extend_from_slice(&[1, 2, 3]);
    let files = vec![file("segment-000002", &two), file("x", b"zzz"), file("segment-000001", &one)];
    let segments = FileSegment::from_dir(&files).unwrap();
    assert_eq!(segments.len(), 2);
    assert_eq!(segments[0].num(), 1);
    assert_eq!(segments[0].data(), &one);
    assert_eq!(segments[1].num(), 2);
    assert_eq!(segments[1].size(), 138);
    assert_eq!(segments[1].hash().get(b"b"), Some(0));
    assert!(FileSegment::from_dir(&[]).unwrap().is_empty());
}

#[test]
fn from_dir_fails_on_a_damaged_file() {
    let mut bad = vec![0u8; 137];
    bad[8] = 3;
    let files = vec![file("segment-000000", b""), file("segment-000001", &bad)];
    assert_eq!(FileSegment::from_dir(&files).err(), Some(StoreError::Corruption));
    let ignored = vec![file("segment-000000", b""), file("other", &bad)];
    assert_eq!(FileSegment::from_dir(&ignored).unwrap().len(), 1);
}

#[test]
fn index_keeps_one_value_for_each_key() {
    let mut index: Index<u64> = Index::new();
    assert_eq!(index.len(), 0);
    index.insert(b"a", 1);
    index.insert(b"b", 2);
    index.insert(b"a", 3);
    assert_eq!(index.len(), 2);
    assert_eq!(index.get(b"a"), Some(3));
    assert_eq!(index.get(b"b"), Some(2));
    assert_eq!(index.get(b"c"), None);
    assert!(index.contains_key(b"a"));
    assert_eq!(index.key_at(0), &b"a".to_vec());
    assert_eq!(index.value_at(1), 2);
    assert!(index.remove(b"a"));
    assert!(!index.remove(b"a"));
    assert_eq!(index.len(), 1);
    assert_eq!(index.key_at(0), &b"b".to_vec());
    assert_eq!(index.get(b"a"), None);
}

#[test]
fn bytes_are_compared() {
    assert!(bytes_eq(b"", b""));
    assert!(bytes_eq(b"abc", b"abc"));
    assert!(!bytes_eq(b"abc", b"abd"));
    assert!(!bytes_eq(b"abc", b"ab"));
    assert!(!bytes_eq(b"", b"a"));
}
