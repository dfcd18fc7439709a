use logkv::data::{
    delete_entry, is_trimmed_key, key_to_bin, read_entry, write_entry, DecodeError, ReadResult,
    HEADER_LEN, KEY_MAX_LEN,
};
use logkv::error::StoreError;

#[test]
fn key_to_bin_pads_with_zeros() {
    let field = key_to_bin(b"ab");
    assert_eq!(field.len(), KEY_MAX_LEN);
    assert_eq!(&field[..2], b"ab");
    assert!(field[2..].iter().all(|b| *b == 0));
    assert_eq!(key_to_bin(b""), vec![0u8; 128]);
    assert_eq!(key_to_bin(&[5u8; 128]), vec![5u8; 128]);
}

#[test]
fn live_record_has_the_documented_layout() {
    let mut data = Vec::new();
    assert_eq!(write_entry(&mut data, b"ab", b"xyz"), Ok(0));
    let mut expected = vec![3u8, 0, 0, 0, 0, 0, 0, 0, 0, b'a', b'b'];
    expected.extend(vec![0u8; 126]);
    expected.extend_from_slice(b"xyz");
    assert_eq!(data, expected);
    assert_eq!(data.len(), 8 + 1 + KEY_MAX_LEN + 3);
    assert_eq!(HEADER_LEN, 137);
}

#[test]
fn value_length_is_little_endian() {
    let mut data = Vec::new();
    write_entry(&mut data, b"k", &vec![1u8; 0x0102]).unwrap();
    assert_eq!(&data[..8], &[0x02, 0x01, 0, 0, 0, 0, 0, 0]);
}

#[test]
fn tombstone_has_the_documented_layout() {
    let mut data = vec![42u8];
    assert_eq!(delete_entry(&mut data, b"ab"), Ok(()));
    let mut expected = vec![42u8, 0, 0, 0, 0, 0, 0, 0, 0, 1, b'a', b'b'];
    expected.extend(vec![0u8; 126]);
    assert_eq!(data, expected);
}

#[test]
fn write_entry_returns_the_start_of_the_record() {
    let mut data = Vec::new();
    assert_eq!(write_entry(&mut data, b"a", b"1"), Ok(0));
    assert_eq!(write_entry(&mut data, b"b", b"22"), Ok(138));
    assert_eq!(write_entry(&mut data, b"c", b""), Ok(138 + 139));
    assert_eq!(data.len(), 138 + 139 + 137);
}

#[test]
fn entries_are_refused_for_a_key_that_is_too_long() {
    let mut data = vec![1u8, 2, 3];
    let key = vec![b'k'; KEY_MAX_LEN + 1];
    assert_eq!(write_entry(&mut data, &key, b"v"), Err(StoreError::KeyTooLarge));
    assert_eq!(delete_entry(&mut data, &key), Err(StoreError::KeyTooLarge));
    assert_eq!(data, vec![1u8, 2, 3]);
}

#[test]
fn read_entry_reads_what_was_written() {
    let mut data = Vec::new();
    write_entry(&mut data, b"john", b"smith").unwrap();
    delete_entry(&mut data, b"john").unwrap();
    write_entry(&mut data, b"", b"").unwrap();
    assert_eq!(
        read_entry(&data, 0),
        Ok((ReadResult::Success(b"john".to_vec(), b"smith".to_vec()), 142))
    );
    assert_eq!(read_entry(&data, 142), Ok((ReadResult::Deleted(b"john".to_vec()), 279)));
    assert_eq!(read_entry(&data, 279), Ok((ReadResult::Success(Vec::new(), Vec::new()), 416)));
    assert_eq!(read_entry(&data, 416), Err(DecodeError::EndOfSegment));
    assert_eq!(read_entry(&data, 5000), Err(DecodeError::EndOfSegment));
}

#[test]
fn read_entry_trims_trailing_zeros_only() {
    let mut data = Vec::new();
    write_entry(&mut data, b"a\0b\0\0", b"v").unwrap();
    assert_eq!(
        read_entry(&data, 0),
        Ok((ReadResult::Success(b"a\0b".to_vec(), b"v".to_vec()), 138))
    );
}

#[test]
fn read_entry_tells_truncated_from_malformed() {
    let mut data = Vec::new();
    write_entry(&mut data, b"k", b"value").unwrap();
    assert_eq!(read_entry(&data[..141], 0), Err(DecodeError::Truncated));
    assert_eq!(read_entry(&data[..137], 0), Err(DecodeError::Truncated));
    assert_eq!(read_entry(&data[..136], 0), Err(DecodeError::Truncated));
    assert_eq!(read_entry(&data[..1], 0), Err(DecodeError::Truncated));
    assert_eq!(read_entry(&data[..0], 0), Err(DecodeError::EndOfSegment));

    let mut bad_flag = data.clone();
    bad_flag[8] = 2;
    assert_eq!(read_entry(&bad_flag, 0), Err(DecodeError::Malformed));

    let mut tombstone_with_length = data.clone();
    tombstone_with_length[8] = 1;
    assert_eq!(read_entry(&tombstone_with_length, 0), Err(DecodeError::Malformed));

    let mut huge = data.clone();
    huge[7] = 0xff;
    assert_eq!(read_entry(&huge, 0), Err(DecodeError::Truncated));
}

#[test]
fn trimmed_keys_are_recognised() {
    assert!(is_trimmed_key(b""));
    assert!(is_trimmed_key(b"abc"));
    assert!(is_trimmed_key(b"\0abc"));
    assert!(!is_trimmed_key(b"abc\0"));
    assert!(!is_trimmed_key(b"\0"));
}

#[test]
fn errors_have_messages() {
    assert_eq!(StoreError::KeyTooLarge.message(), "Key too large");
    assert_eq!(StoreError::Corruption.message(), "Corrupted data");
    assert_eq!(StoreError::Uninitialized.message(), "Uninitialized database");
    assert_ne!(StoreError::SequenceOverflow.message(), "");
}
