//! A store in one file: every write adds an entry at the end, and a read
//! goes through the entries from the end backward.
//!
//! An entry is, in this order: the four bytes `BAIT`, the length of the key
//! and the length of the value as two little-endian bytes each, the key,
//! the value, and as four little-endian bytes the length of all that comes
//! before them in the entry. The last field lets a reader step from the end
//! of an entry to its start.

use vstd::prelude::*;
use vstd::bytes::{
    lemma_auto_spec_u16_to_from_le_bytes, lemma_auto_spec_u32_to_from_le_bytes,
    spec_u16_from_le_bytes, spec_u16_to_le_bytes, spec_u32_from_le_bytes, spec_u32_to_le_bytes,
    u16_from_le_bytes, u16_to_le_bytes, u32_from_le_bytes, u32_to_le_bytes,
};
use vstd::slice::{slice_subrange, slice_to_vec};
use vstd::string::{StringExecFns, StringSliceAdditionalSpecFns};
use crate::data::append_bytes;
use crate::directory::DirFile;
use crate::error::StoreError;
use crate::ifc::Database;
use crate::index::bytes_eq;

verus! {

/// The longest key and the longest value that an entry has room for.
pub const FIELD_MAX_LEN: usize = 65535;

/// Bytes of an entry before its key: the mark and the two lengths.
pub const FRAME_LEN: usize = 8;

/// Bytes of an entry after its value: the length of what comes before.
pub const TRAILER_LEN: usize = 4;

/// The store.
pub struct Basic {
    file: Option<Vec<u8>>,
    path: Vec<DirFile>,
}

/// An entry as a reader finds it, with the position at which it starts.
pub struct Found {
    pub key: Seq<u8>,
    pub value: Seq<u8>,
    pub start: int,
}

/// The four bytes that every entry starts with.
pub open spec fn mark() -> Seq<u8> {
    seq![66u8, 65u8, 73u8, 84u8]
}

/// The name of the file of the store.
pub open spec fn data_name() -> Seq<char> {
    seq!['d', 'a', 't', 'a']
}

/// The bytes of an entry.
pub open spec fn entry_bytes(key: Seq<u8>, value: Seq<u8>) -> Seq<u8>
    recommends
        key.len() <= FIELD_MAX_LEN,
        value.len() <= FIELD_MAX_LEN,
{
    mark() + spec_u16_to_le_bytes(key.len() as u16) + spec_u16_to_le_bytes(value.len() as u16) + key
        + value + spec_u32_to_le_bytes((FRAME_LEN + key.len() + value.len()) as u32)
}

/// The entry that ends at `end`, if the bytes before `end` are one.
pub open spec fn entry_before(data: Seq<u8>, end: int) -> Option<Found> {
    if end < TRAILER_LEN || end > data.len() {
        None
    } else {
        let len = spec_u32_from_le_bytes(data.subrange(end - TRAILER_LEN, end)) as int;
        let start = end - TRAILER_LEN - len;
        if len < FRAME_LEN || start < 0 {
            None
        } else if data.subrange(start, start + 4) != mark() {
            None
        } else {
            let key_len = spec_u16_from_le_bytes(data.subrange(start + 4, start + 6)) as int;
            let value_len = spec_u16_from_le_bytes(data.subrange(start + 6, start + 8)) as int;
            if FRAME_LEN + key_len + value_len != len {
                None
            } else {
                Some(
                    Found {
                        key: data.subrange(start + FRAME_LEN, start + FRAME_LEN + key_len),
                        value: data.subrange(start + FRAME_LEN + key_len, start + len),
                        start,
                    },
                )
            }
        }
    }
}

/// The value of the last entry for `key` among the entries that end at or
/// before `end`, as far back as the bytes are entries.
pub open spec fn lookup_back(data: Seq<u8>, end: int, key: Seq<u8>) -> Option<Seq<u8>>
    decreases end,
{
    match entry_before(data, end) {
        None => None,
        Some(found) => if found.key == key {
            Some(found.value)
        } else {
            lookup_back(data, found.start, key)
        },
    }
}

/// The value that a file has for `key`.
pub open spec fn lookup(data: Seq<u8>, key: Seq<u8>) -> Option<Seq<u8>> {
    lookup_back(data, data.len() as int, key)
}

/// An entry that was appended to a file is found at the new end of the
/// file, and it starts where the file ended.
pub proof fn lemma_entry_appended(data: Seq<u8>, key: Seq<u8>, value: Seq<u8>)
    requires
        key.len() <= FIELD_MAX_LEN,
        value.len() <= FIELD_MAX_LEN,
    ensures
        (data + entry_bytes(key, value)).len() == data.len() + FRAME_LEN + key.len() + value.len()
            + TRAILER_LEN,
        entry_before(
            data + entry_bytes(key, value),
            (data + entry_bytes(key, value)).len() as int,
        ) == Some(Found { key, value, start: data.len() as int }),
{
    lemma_auto_spec_u16_to_from_le_bytes();
    lemma_auto_spec_u32_to_from_le_bytes();
    let entry = entry_bytes(key, value);
    let all = data + entry;
    let start = data.len() as int;
    let len = FRAME_LEN + key.len() + value.len();
    let end = all.len() as int;
    let key_bytes = spec_u16_to_le_bytes(key.len() as u16);
    let value_bytes = spec_u16_to_le_bytes(value.len() as u16);
    let len_bytes = spec_u32_to_le_bytes(len as u32);
    assert(key_bytes.len() == 2);
    assert(value_bytes.len() == 2);
    assert(len_bytes.len() == 4);
    assert(entry.len() == len + TRAILER_LEN);
    assert(all.subrange(end - TRAILER_LEN, end) =~= len_bytes);
    assert(all.subrange(start, start + 4) =~= mark());
    assert(all.subrange(start + 4, start + 6) =~= key_bytes);
    assert(all.subrange(start + 6, start + 8) =~= value_bytes);
    assert(all.subrange(start + FRAME_LEN, start + FRAME_LEN + key.len()) =~= key);
    assert(all.subrange(start + FRAME_LEN + key.len(), start + len) =~= value);
}

/// What is found in a file is found in it when the file has grown.
pub proof fn lemma_lookup_grown(data: Seq<u8>, more: Seq<u8>, end: int, key: Seq<u8>)
    requires
        end <= data.len(),
    ensures
        entry_before(data + more, end) == entry_before(data, end),
        lookup_back(data + more, end, key) == lookup_back(data, end, key),
    decreases end,
{
    let all = data + more;
    if end >= TRAILER_LEN {
        assert(all.subrange(end - TRAILER_LEN, end) =~= data.subrange(end - TRAILER_LEN, end));
        let len = spec_u32_from_le_bytes(data.subrange(end - TRAILER_LEN, end)) as int;
        let start = end - TRAILER_LEN - len;
        if len >= FRAME_LEN && start >= 0 {
            assert(all.subrange(start, start + 4) =~= data.subrange(start, start + 4));
            assert(all.subrange(start + 4, start + 6) =~= data.subrange(start + 4, start + 6));
            assert(all.subrange(start + 6, start + 8) =~= data.subrange(start + 6, start + 8));
            let key_len = spec_u16_from_le_bytes(data.subrange(start + 4, start + 6)) as int;
            let value_len = spec_u16_from_le_bytes(data.subrange(start + 6, start + 8)) as int;
            if FRAME_LEN + key_len + value_len == len {
                assert(all.subrange(start + FRAME_LEN, start + FRAME_LEN + key_len)
                    =~= data.subrange(start + FRAME_LEN, start + FRAME_LEN + key_len));
                assert(all.subrange(start + FRAME_LEN + key_len, start + len) =~= data.subrange(
                    start + FRAME_LEN + key_len,
                    start + len,
                ));
            }
            lemma_lookup_grown(data, more, start, key);
        }
    }
}

/// After an entry for a key was appended, the file has the entry's value
/// for that key, and for every other key what it had before.
pub proof fn lemma_lookup_appended(data: Seq<u8>, key: Seq<u8>, value: Seq<u8>, other: Seq<u8>)
    requires
        key.len() <= FIELD_MAX_LEN,
        value.len() <= FIELD_MAX_LEN,
    ensures
        lookup(data + entry_bytes(key, value), key) == Some(value),
        other != key ==> lookup(data + entry_bytes(key, value), other) == lookup(data, other),
{
    lemma_entry_appended(data, key, value);
    lemma_lookup_grown(data, entry_bytes(key, value), data.len() as int, other);
}

/// Whether a file's name is that of the file of the store.
fn is_data_name(name: &str) -> (same: bool)
    ensures
        same == (name@ == data_name()),
{
    broadcast use vstd::string::is_ascii_spec_bytes;

    proof {
        reveal_strlit("data");
    }
    let wanted: &str = "data";
    assert(wanted@ =~= data_name());
    if !name.is_ascii() {
        assert(vstd::string::is_ascii(wanted));
        return false;
    }
    let same: bool = bytes_eq(name.as_bytes(), wanted.as_bytes());
    proof {
        assert(vstd::string::is_ascii(wanted));
        if same {
            assert(name@.len() == wanted@.len());
            assert forall|k: int| 0 <= k < name@.len() implies name@[k] == wanted@[k] by {
                assert(name.spec_bytes()[k] == name@[k] as u8);
                assert(wanted.spec_bytes()[k] == wanted@[k] as u8);
            }
            assert(name@ =~= wanted@);
        }
    }
    same
}

impl Basic {
    /// The bytes of the file, where the store is open.
    pub closed spec fn contents(&self) -> Option<Seq<u8>> {
        match self.file {
            Some(data) => Some(data@),
            None => None,
        }
    }

    /// The files of the directory that have not been opened.
    pub closed spec fn listing(&self) -> Seq<DirFile> {
        self.path@
    }

    /// The place, in a listing, of the first file with the store's name.
    pub open spec fn data_place(files: Seq<DirFile>) -> int {
        choose|j: int| Self::is_data_file(files, j)
    }

    /// Whether the file at place `j` is the first with the store's name.
    pub open spec fn is_data_file(files: Seq<DirFile>, j: int) -> bool {
        &&& 0 <= j < files.len()
        &&& files[j].name@ == data_name()
        &&& forall|e: int| 0 <= e < j ==> files[e].name@ != data_name()
    }

    /// The bytes that opening a directory gives: those of the first file
    /// with the store's name, and none where there is no such file.
    pub open spec fn found_in(files: Seq<DirFile>) -> Seq<u8> {
        if exists|j: int| Self::is_data_file(files, j) {
            files[Self::data_place(files)].data@
        } else {
            Seq::empty()
        }
    }

    /// A store over the files of a directory. Nothing is opened yet.
    pub fn new(path: Vec<DirFile>) -> (store: Basic)
        ensures
            store.contents() is None,
            store.listing() == path@,
    {
        Basic { file: None, path }
    }

    /// The bytes of the store's file, if the store is open.
    pub fn data(&self) -> (data: Option<&Vec<u8>>)
        ensures
            match data {
                Some(bytes) => self.contents() == Some(bytes@),
                None => self.contents() is None,
            },
    {
        match &self.file {
            Some(bytes) => Some(bytes),
            None => None,
        }
    }

    /// The value that a file has for `key`: that of the last entry for the
    /// key, going from the end of the file backward as far as the bytes
    /// are entries.
    pub fn find(data: &[u8], key: &[u8]) -> (found: Option<Vec<u8>>)
        ensures
            match found {
                Some(value) => lookup(data@, key@) == Some(value@),
                None => lookup(data@, key@) is None,
            },
    {
        let mut end: usize = data.len();
        loop
            invariant
                end <= data@.len(),
                lookup(data@, key@) == lookup_back(data@, end as int, key@),
            decreases end,
        {
            if end < TRAILER_LEN {
                return None;
            }
            let len: u32 = u32_from_le_bytes(slice_subrange(data, end - TRAILER_LEN, end));
            if len < FRAME_LEN as u32 || len as usize > end - TRAILER_LEN {
                return None;
            }
            let start: usize = end - TRAILER_LEN - len as usize;
            if data[start] != 66u8 || data[start + 1] != 65u8 || data[start + 2] != 73u8 || data[start
                + 3] != 84u8 {
                assert(data@.subrange(start as int, start + 4)[0] == data@[start as int]);
                assert(data@.subrange(start as int, start + 4)[1] == data@[start + 1]);
                assert(data@.subrange(start as int, start + 4)[2] == data@[start + 2]);
                assert(data@.subrange(start as int, start + 4)[3] == data@[start + 3]);
                return None;
            }
            assert(data@.subrange(start as int, start + 4) =~= mark());
            let key_len: usize = u16_from_le_bytes(slice_subrange(data, start + 4, start + 6)) as usize;
            let value_len: usize = u16_from_le_bytes(
                slice_subrange(data, start + 6, start + 8),
            ) as usize;
            if FRAME_LEN + key_len + value_len != len as usize {
                return None;
            }
            let key_end: usize = start + FRAME_LEN + key_len;
            if bytes_eq(slice_subrange(data, start + FRAME_LEN, key_end), key) {
                return Some(slice_to_vec(slice_subrange(data, key_end, key_end + value_len)));
            }
            end = start;
        }
    }

    /// The files of the store's directory: those that have not been opened,
    /// and the store's own file where the store is open.
    pub fn directory(&self) -> (files: Vec<DirFile>)
        ensures
            files@.len() == self.listing().len() + (if self.contents() is Some {
                1int
            } else {
                0int
            }),
            forall|i: int|
                0 <= i < self.listing().len() ==> (#[trigger] files@[i]).name@
                    == self.listing()[i].name@ && files@[i].data@ == self.listing()[i].data@,
            self.contents() is Some ==> files@.last().name@ == data_name() && Some(
                files@.last().data@,
            ) == self.contents(),
    {
        let mut files: Vec<DirFile> = Vec::new();
        let mut i: usize = 0;
        while i < self.path.len()
            invariant
                i <= self.path@.len(),
                files@.len() == i,
                forall|e: int|
                    0 <= e < i ==> (#[trigger] files@[e]).name@ == self.path@[e].name@ && files@[e].data@
                        == self.path@[e].data@,
            decreases self.path@.len() - i,
        {
            let name: String = self.path[i].name.clone();
            let data: Vec<u8> = slice_to_vec(self.path[i].data.as_slice());
            files.push(DirFile { name, data });
            i = i + 1;
        }
        match &self.file {
            Some(bytes) => {
                proof {
                    reveal_strlit("data");
                }
                let name: String = String::from_str("data");
                assert(name@ =~= data_name());
                let data: Vec<u8> = slice_to_vec(bytes.as_slice());
                files.push(DirFile { name, data });
            },
            None => {},
        }
        files
    }
}

impl Database for Basic {
    /// Every state of the store is one that the operations work on.
    open spec fn wf(&self) -> bool {
        true
    }

    /// What `read` gives for `key`: nothing before `init`, and after it
    /// the value that the file has for the key.
    open spec fn read_result(&self, key: Seq<u8>) -> Result<Option<Seq<u8>>, StoreError> {
        match self.contents() {
            None => Err(StoreError::Uninitialized),
            Some(data) => Ok(lookup(data, key)),
        }
    }

    /// Opens the store on the first file of its directory that has the
    /// store's name, or on an empty file where there is none. A store that
    /// is open stays as it is.
    fn init(&mut self) -> (r: Result<(), StoreError>)
        ensures
            r is Ok,
            final(self).listing().len() == 0,
            final(self).contents() == (if old(self).contents() is Some {
                old(self).contents()
            } else {
                Some(Self::found_in(old(self).listing()))
            }),
    {
        if self.file.is_none() {
            let mut data: Vec<u8> = Vec::new();
            let mut j: usize = 0;
            while j < self.path.len()
                invariant_except_break
                    data@ == Seq::<u8>::empty(),
                    forall|e: int| 0 <= e < j ==> (#[trigger] self.path@[e]).name@ != data_name(),
                invariant
                    j <= self.path@.len(),
                    self.path@ == old(self).path@,
                ensures
                    data@ == Self::found_in(self.path@),
                    self.path@ == old(self).path@,
                decreases self.path@.len() - j,
            {
                if is_data_name(self.path[j].name.as_str()) {
                    data = slice_to_vec(self.path[j].data.as_slice());
                    proof {
                        assert(Self::is_data_file(self.path@, j as int));
                        let place = Self::data_place(self.path@);
                        if place < j {
                        } else if j < place {
                        }
                    }
                    break ;
                }
                j = j + 1;
            }
            self.file = Some(data);
        }
        self.path = Vec::new();
        Ok(())
    }

    /// Empties the file of an open store.
    fn reset(&mut self) -> (r: Result<(), StoreError>)
        ensures
            old(self).contents() is None ==> r == Err::<(), StoreError>(StoreError::Uninitialized)
                && final(self).contents() is None,
            old(self).contents() is Some ==> r is Ok && final(self).contents() == Some(
                Seq::<u8>::empty(),
            ),
            final(self).listing() == old(self).listing(),
    {
        if self.file.is_none() {
            return Err(StoreError::Uninitialized);
        }
        self.file = Some(Vec::new());
        Ok(())
    }

    /// Appends an entry for `key` and `value` to the file. A key or a
    /// value that an entry has no room for is refused. On an error nothing
    /// changes.
    fn write(&mut self, key: &[u8], value: &[u8]) -> (r: Result<(), StoreError>)
        ensures
            final(self).listing() == old(self).listing(),
            match old(self).contents() {
                None => r == Err::<(), StoreError>(StoreError::Uninitialized),
                Some(data) => if key@.len() > FIELD_MAX_LEN {
                    r == Err::<(), StoreError>(StoreError::KeyTooLarge)
                } else if value@.len() > FIELD_MAX_LEN {
                    r == Err::<(), StoreError>(StoreError::ValueTooLarge)
                } else {
                    r is Ok && final(self).contents() == Some(data + entry_bytes(key@, value@))
                },
            },
            r is Err ==> final(self).contents() == old(self).contents(),
            r is Ok ==> final(self).read_result(key@) == Ok::<Option<Seq<u8>>, StoreError>(
                Some(value@),
            ),
    {
        let key_len: usize = key.len();
        let value_len: usize = value.len();
        match &mut self.file {
            None => Err(StoreError::Uninitialized),
            Some(file) => {
                if key_len > FIELD_MAX_LEN {
                    return Err(StoreError::KeyTooLarge);
                }
                if value_len > FIELD_MAX_LEN {
                    return Err(StoreError::ValueTooLarge);
                }
                let ghost before = file@;
                file.push(66u8);
                file.push(65u8);
                file.push(73u8);
                file.push(84u8);
                append_bytes(file, u16_to_le_bytes(key_len as u16).as_slice());
                append_bytes(file, u16_to_le_bytes(value_len as u16).as_slice());
                append_bytes(file, key);
                append_bytes(file, value);
                append_bytes(
                    file,
                    u32_to_le_bytes((FRAME_LEN + key_len + value_len) as u32).as_slice(),
                );
                proof {
                    assert(file@ =~= before + entry_bytes(key@, value@));
                    assert forall|other: Seq<u8>|
                        other != key@ implies lookup(file@, other) == lookup(before, other) by {
                        lemma_lookup_appended(before, key@, value@, other);
                    }
                    lemma_lookup_appended(before, key@, value@, key@);
                }
                Ok(())
            },
        }
    }

    /// The value of `key`, if the file has an entry for the key.
    fn read(&self, key: &[u8]) -> (r: Result<Option<Vec<u8>>, StoreError>)
    {
        match &self.file {
            None => Err(StoreError::Uninitialized),
            Some(file) => Ok(Self::find(file.as_slice(), key)),
        }
    }

    /// Changes nothing, and says that the key was there: this store has no
    /// way to take a key out.
    fn delete(&mut self, key: &[u8]) -> (r: Result<bool, StoreError>)
        ensures
            r == Ok::<bool, StoreError>(true),
            final(self).contents() == old(self).contents(),
            final(self).listing() == old(self).listing(),
    {
        Ok(true)
    }
}

} // verus!
