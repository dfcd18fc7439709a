use logkv::basic::Basic;
use logkv::directory::DirFile;
use logkv::error::StoreError;
use logkv::ifc::Database;

fn setup() -> Basic {
    let mut instance = Basic::new(Vec::new());
    instance.init().unwrap();
    instance.reset().unwrap();
    instance
}

fn read_through(db: &dyn Database, key: &[u8]) -> Result<Option<Vec<u8>>, StoreError> {
    db.read(key)
}

#[test]
fn basic_should_write_data() {
    let mut db = setup();
    db.write(b"john", b"smith").unwrap();
    db.write(b"balls", b"deep").unwrap();

    assert_eq!(db.read(b"john").unwrap(), Some(b"smith".to_vec()));
}

#[test]
fn basic_entry_has_the_documented_layout() {
    let mut db = setup();
    db.write(b"ab", b"xyz").unwrap();
    let mut expected = b"BAIT".to_vec();
    expected.extend_from_slice(&[2, 0, 3, 0]);
    expected.extend_from_slice(b"abxyz");
    expected.extend_from_slice(&[13, 0, 0, 0]);
    assert_eq!(db.data(), Some(&expected));
}

#[test]
fn basic_reads_the_last_value_of_a_key() {
    let mut db = setup();
    db.write(b"a", b"1").unwrap();
    db.write(b"b", b"2").unwrap();
    db.write(b"a", b"3").unwrap();
    db.write(b"", b"").unwrap();
    assert_eq!(db.read(b"a").unwrap(), Some(b"3".to_vec()));
    assert_eq!(db.read(b"b").unwrap(), Some(b"2".to_vec()));
    assert_eq!(db.read(b"").unwrap(), Some(Vec::new()));
    assert_eq!(db.read(b"c").unwrap(), None);
}

#[test]
fn basic_refuses_what_an_entry_has_no_room_for() {
    let mut db = setup();
    db.write(b"a", b"1").unwrap();
    let before = db.data().cloned();
    let long = vec![1u8; 65536];
    assert_eq!(db.write(&long, b"v"), Err(StoreError::KeyTooLarge));
    assert_eq!(db.write(b"k", &long), Err(StoreError::ValueTooLarge));
    assert_eq!(db.data().cloned(), before);
    let fits = vec![1u8; 65535];
    assert_eq!(db.write(&fits, &fits), Ok(()));
    assert_eq!(db.read(&fits).unwrap(), Some(fits.clone()));
    assert_eq!(db.read(b"a").unwrap(), Some(b"1".to_vec()));
}

#[test]
fn basic_fails_before_init() {
    let mut db = Basic::new(Vec::new());
    assert_eq!(db.write(b"a", b"1"), Err(StoreError::Uninitialized));
    assert_eq!(db.read(b"a"), Err(StoreError::Uninitialized));
    assert_eq!(db.reset(), Err(StoreError::Uninitialized));
    assert_eq!(db.data(), None);
    assert!(db.directory().is_empty());
}

#[test]
fn basic_delete_changes_nothing() {
    let mut db = setup();
    db.write(b"a", b"1").unwrap();
    let before = db.data().cloned();
    assert_eq!(db.delete(b"a"), Ok(true));
    assert_eq!(db.delete(b"missing"), Ok(true));
    assert_eq!(db.data().cloned(), before);
    assert_eq!(db.read(b"a").unwrap(), Some(b"1".to_vec()));
}

#[test]
fn basic_opens_the_data_file_of_its_directory() {
    let mut first = setup();
    first.write(b"a", b"1").unwrap();
    first.write(b"b", b"2").unwrap();
    let files = first.directory();
    assert_eq!(files.len(), 1);
    assert_eq!(files[0].name, "data");

    let mut listing = vec![DirFile { name: "other".to_string(), data: b"zz".to_vec() }];
    listing.extend(files);
    listing.push(DirFile { name: "data".to_string(), data: Vec::new() });
    let mut again = Basic::new(listing);
    assert_eq!(again.directory().len(), 3);
    again.init().unwrap();
    assert_eq!(again.read(b"a").unwrap(), Some(b"1".to_vec()));
    assert_eq!(again.read(b"b").unwrap(), Some(b"2".to_vec()));
    assert_eq!(again.directory().len(), 1);
    again.init().unwrap();
    assert_eq!(again.read(b"a").unwrap(), Some(b"1".to_vec()));
}

#[test]
fn basic_reset_empties_the_file() {
    let mut db = setup();
    db.write(b"a", b"1").unwrap();
    assert_eq!(db.reset(), Ok(()));
    assert_eq!(db.read(b"a").unwrap(), None);
    assert_eq!(db.data(), Some(&Vec::new()));
}

#[test]
fn basic_stops_at_bytes_that_are_no_entry() {
    let mut db = setup();
    db.write(b"a", b"1").unwrap();
    let mut data = db.data().unwrap().clone();
    let good = data.len();
    data.extend_from_slice(b"BAIX");
    data.extend_from_slice(&[1, 0, 1, 0]);
    data.extend_from_slice(b"b2");
    data.extend_from_slice(&[10, 0, 0, 0]);
    assert_eq!(Basic::find(&data, b"a"), None);
    assert_eq!(Basic::find(&data[..good], b"a"), Some(b"1".to_vec()));
    assert_eq!(Basic::find(&data[..good - 1], b"a"), None);
    assert_eq!(Basic::find(&[], b"a"), None);
    assert_eq!(Basic::find(&[0, 0, 0], b"a"), None);
    assert_eq!(Basic::find(&[255, 255, 255, 255], b"a"), None);
    assert_eq!(Basic::find(&[8, 0, 0, 0], b"a"), None);

    let mut mismatch = b"BAIT".to_vec();
    mismatch.extend_from_slice(&[1, 0, 5, 0]);
    mismatch.extend_from_slice(b"b2");
    mismatch.extend_from_slice(&[10, 0, 0, 0]);
    assert_eq!(Basic::find(&mismatch, b"b"), None);
}

#[test]
fn both_stores_answer_through_the_same_interface() {
    let mut basic = setup();
    let mut hash = logkv::hash::Hash::new(Vec::new(), 1000);
    hash.init().unwrap();
    basic.write(b"k", b"v").unwrap();
    hash.write(b"k", b"v").unwrap();
    assert_eq!(read_through(&basic, b"k"), Ok(Some(b"v".to_vec())));
    assert_eq!(read_through(&hash, b"k"), Ok(Some(b"v".to_vec())));
    assert_eq!(read_through(&basic, b"x"), Ok(None));
    assert_eq!(read_through(&hash, b"x"), Ok(None));
}
