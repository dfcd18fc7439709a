//! A segment: one log file of the store, held as the bytes of the file, with
//! its sequence number and the index of its own keys.

use vstd::prelude::*;
use vstd::slice::{slice_subrange, slice_to_vec};
use crate::data::{
    delete_entry, key_of, lemma_parse_appended_live, lemma_parse_appended_tombstone, live_record,
    parse_at, read_entry, tombstone_record, write_entry, DecodeError, ReadResult, KEY_MAX_LEN,
};
use crate::directory::{get_filesystem_segments, is_segment_file, names_segment, DirFile};
use crate::error::StoreError;
use crate::index::{bytes_eq, Index};
use crate::log::{
    applied, clean_len, is_clean, is_damaged, lemma_replay_cut, lemma_replay_grown, lemma_scan_stop,
    next_pos, replay, replay_from, scan_stop, steps, value_at,
};

verus! {

/// One log file of the store.
pub struct FileSegment {
    data: Vec<u8>,
    num: u32,
    hash: Index<u64>,
}

/// The part of a file that is made of whole records.
pub open spec fn clean_part(data: Seq<u8>) -> Seq<u8> {
    data.subrange(0, clean_len(data))
}

/// Whether the segments stand in the order of their sequence numbers, each
/// number once.
pub open spec fn ascending(segments: Seq<FileSegment>) -> bool {
    forall|a: int, b: int|
        0 <= a < b < segments.len() ==> (#[trigger] segments[a]).number() < (
        #[trigger] segments[b]).number()
}

/// Whether one of the segments has the sequence number `num`.
pub open spec fn has_number(segments: Seq<FileSegment>, num: u32) -> bool {
    exists|a: int| 0 <= a < segments.len() && (#[trigger] segments[a]).number() == num
}

/// The sequence number that comes after those of the segments: one more than
/// the largest, and 0 where there is none.
pub open spec fn next_number(segments: Seq<FileSegment>) -> int
    decreases segments.len(),
{
    if segments.len() == 0 {
        0
    } else {
        let before = next_number(segments.drop_last());
        let last = segments.last().number() + 1;
        if before > last {
            before
        } else {
            last
        }
    }
}

/// The bytes that the files of the segments take together.
pub open spec fn total_size(segments: Seq<FileSegment>) -> int
    decreases segments.len(),
{
    if segments.len() == 0 {
        0
    } else {
        total_size(segments.drop_last()) + segments.last().bytes().len()
    }
}

/// Whether a segment is what opening the file of its name in a directory
/// gives: the whole records of the first file of that name.
pub open spec fn opened_from(files: Seq<DirFile>, segment: FileSegment) -> bool {
    exists|j: int| #[trigger]
        is_segment_file(files, j, segment.number()) && segment.bytes() == clean_part(
            files[j].data@,
        )
}

/// Whether a directory holds a segment file with bytes that are no record.
pub open spec fn holds_damage(files: Seq<DirFile>) -> bool {
    exists|j: int, num: u32| #[trigger]
        is_segment_file(files, j, num) && is_damaged(files[j].data@)
}

/// Whether the segments are what opening a directory gives: every segment
/// file of the directory once, in the order of the sequence numbers, each
/// with the index of its own records.
pub open spec fn opens(files: Seq<DirFile>, segments: Seq<FileSegment>) -> bool {
    &&& ascending(segments)
    &&& forall|a: int|
        0 <= a < segments.len() ==> (#[trigger] segments[a]).wf() && segments[a].local() == replay(
            segments[a].bytes(),
        ) && opened_from(files, segments[a])
    &&& forall|j: int, num: u32| #[trigger]
        names_segment(files, j, num) ==> has_number(segments, num)
}

impl FileSegment {
    /// The bytes of the file.
    pub closed spec fn bytes(&self) -> Seq<u8> {
        self.data@
    }

    /// The sequence number.
    pub closed spec fn number(&self) -> u32 {
        self.num
    }

    /// The segment's own index: keys of this file and the positions of
    /// their records.
    pub closed spec fn local(&self) -> Map<Seq<u8>, u64> {
        self.hash@
    }

    /// The file is made of whole records, and the index is well-formed.
    pub closed spec fn wf(&self) -> bool {
        &&& is_clean(self.data@)
        &&& self.data@.len() <= usize::MAX
        &&& self.hash.wf()
    }

    /// A well-formed segment is a clean log that a position of 64 bits can
    /// address.
    pub proof fn lemma_wf(&self)
        requires
            self.wf(),
        ensures
            is_clean(self.bytes()),
            self.bytes().len() <= u64::MAX,
    {
    }

    /// Reads a log from its start and builds the index of its keys: a live
    /// record puts its key at its position, a tombstone takes its key out.
    /// Reading ends at the end of the log, or before a record that the log
    /// ends in; the position where it ended is returned with the index.
    /// Bytes that are no record are an error.
    pub fn generate_hash_for_file(data: &[u8]) -> (r: Result<(Index<u64>, usize), StoreError>)
        ensures
            match r {
                Ok((index, end)) => {
                    &&& index.wf()
                    &&& index@ == replay(data@)
                    &&& end == clean_len(data@)
                    &&& !is_damaged(data@)
                },
                Err(e) => e == StoreError::Corruption && is_damaged(data@),
            },
    {
        let len: usize = data.len();
        let mut index: Index<u64> = Index::new();
        let mut pos: u64 = 0;
        loop
            invariant
                index.wf(),
                len == data@.len(),
                0 <= pos <= data@.len(),
                replay(data@) == replay_from(data@, pos as int, index@),
                clean_len(data@) == scan_stop(data@, pos as int),
            decreases data@.len() - pos,
        {
            let ghost here = parse_at(data@, pos as int);
            let ghost acc = index@;
            assert(steps(data@, pos as int) ==> replay_from(data@, pos as int, acc) == replay_from(
                data@,
                next_pos(data@, pos as int),
                applied(acc, here, pos as int),
            ));
            assert(!steps(data@, pos as int) ==> replay_from(data@, pos as int, acc) == acc
                && scan_stop(data@, pos as int) == pos);
            match read_entry(data, pos) {
                Ok((ReadResult::Success(key, _), next)) => {
                    index.insert(key.as_slice(), pos);
                    pos = next;
                },
                Ok((ReadResult::Deleted(key), next)) => {
                    index.remove(key.as_slice());
                    pos = next;
                },
                Err(DecodeError::Malformed) => {
                    return Err(StoreError::Corruption);
                },
                Err(DecodeError::Truncated) => {
                    return Ok((index, pos as usize));
                },
                Err(DecodeError::EndOfSegment) => {
                    return Ok((index, pos as usize));
                },
            }
        }
    }

    /// An empty segment with the sequence number `num`.
    pub fn empty(num: u32) -> (segment: FileSegment)
        ensures
            segment.wf(),
            segment.number() == num,
            segment.bytes() == Seq::<u8>::empty(),
            segment.local() == Map::<Seq<u8>, u64>::empty(),
            segment.local() == replay(segment.bytes()),
    {
        FileSegment { data: Vec::new(), num, hash: Index::new() }
    }

    /// A new, empty segment with the sequence number that comes after those
    /// of the existing ones: 0 where there is none. Where the largest
    /// number is taken, none is left.
    pub fn create(existing: &[FileSegment]) -> (r: Result<FileSegment, StoreError>)
        ensures
            match r {
                Ok(segment) => {
                    &&& segment.wf()
                    &&& segment.number() == next_number(existing@)
                    &&& segment.bytes() == Seq::<u8>::empty()
                    &&& segment.local() == Map::<Seq<u8>, u64>::empty()
                },
                Err(e) => e == StoreError::SequenceOverflow && next_number(existing@) > u32::MAX,
            },
    {
        let mut next: u64 = 0;
        let mut i: usize = 0;
        while i < existing.len()
            invariant
                i <= existing@.len(),
                next == next_number(existing@.subrange(0, i as int)),
                next <= u32::MAX + 1,
            decreases existing@.len() - i,
        {
            assert(existing@.subrange(0, i + 1).drop_last() == existing@.subrange(0, i as int));
            let after: u64 = existing[i].num as u64 + 1;
            if after > next {
                next = after;
            }
            i = i + 1;
        }
        assert(existing@.subrange(0, i as int) == existing@);
        if next > u32::MAX as u64 {
            return Err(StoreError::SequenceOverflow);
        }
        Ok(Self::empty(next as u32))
    }

    /// Opens the segments of a directory, in the order of their sequence
    /// numbers. Of each segment file the whole records are kept and read
    /// into the segment's index; the rest of an interrupted write at the end
    /// of a file is left out. A file with bytes that are no record is an
    /// error.
    pub fn from_dir(path: &[DirFile]) -> (r: Result<Vec<FileSegment>, StoreError>)
        ensures
            match r {
                Ok(segments) => opens(path@, segments@) && !holds_damage(path@),
                Err(e) => e == StoreError::Corruption && holds_damage(path@),
            },
    {
        let list: Vec<(usize, u32)> = get_filesystem_segments(path);
        let mut segments: Vec<FileSegment> = Vec::new();
        let mut a: usize = 0;
        while a < list.len()
            invariant
                a <= list@.len(),
                segments@.len() == a,
                crate::directory::lists_segments(path@, list@),
                forall|b: int|
                    0 <= b < a ==> {
                        &&& (#[trigger] segments@[b]).wf()
                        &&& segments@[b].number() == list@[b].1
                        &&& segments@[b].local() == replay(segments@[b].bytes())
                        &&& segments@[b].bytes() == clean_part(path@[list@[b].0 as int].data@)
                        &&& !is_damaged(path@[list@[b].0 as int].data@)
                    },
            decreases list@.len() - a,
        {
            let place: usize = list[a].0;
            let num: u32 = list[a].1;
            assert(is_segment_file(path@, place as int, num));
            let file: &[u8] = path[place].data.as_slice();
            match Self::generate_hash_for_file(file) {
                Err(e) => {
                    return Err(e);
                },
                Ok((hash, end)) => {
                    proof {
                        lemma_replay_cut(file@);
                    }
                    let data: Vec<u8> = slice_to_vec(slice_subrange(file, 0, end));
                    segments.push(FileSegment { data, num, hash });
                },
            }
            a = a + 1;
        }
        proof {
            assert forall|x: int, y: int| 0 <= x < y < segments@.len() implies (
            #[trigger] segments@[x]).number() < (#[trigger] segments@[y]).number() by {
                assert(list@[x].1 < list@[y].1);
            }
            assert forall|b: int| 0 <= b < segments@.len() implies opened_from(
                path@,
                #[trigger] segments@[b],
            ) by {
                assert(is_segment_file(path@, list@[b].0 as int, segments@[b].number()));
            }
            assert forall|j: int, num: u32| #[trigger] names_segment(path@, j, num) implies has_number(
                segments@,
                num,
            ) by {
                assert(crate::directory::lists_segment(list@, num));
                let b = choose|b: int| 0 <= b < list@.len() && (#[trigger] list@[b]).1 == num;
                assert(segments@[b].number() == num);
            }
            assert(!holds_damage(path@)) by {
                if holds_damage(path@) {
                    let (j, num) = choose|j: int, num: u32| #[trigger]
                        is_segment_file(path@, j, num) && is_damaged(path@[j].data@);
                    assert(names_segment(path@, j, num));
                    assert(crate::directory::lists_segment(list@, num));
                    let b = choose|b: int| 0 <= b < list@.len() && (#[trigger] list@[b]).1 == num;
                    assert(is_segment_file(path@, list@[b].0 as int, num));
                    assert(list@[b].0 as int == j) by {
                        let k = list@[b].0 as int;
                        if k < j {
                        } else if j < k {
                        }
                    }
                }
            }
        }
        Ok(segments)
    }

    /// Reads the segment's file again from its start and makes the index
    /// that this gives the segment's own.
    pub fn replay(&mut self)
        requires
            old(self).wf(),
        ensures
            final(self).wf(),
            final(self).number() == old(self).number(),
            final(self).bytes() == old(self).bytes(),
            final(self).local() == replay(final(self).bytes()),
    {
        match Self::generate_hash_for_file(self.data.as_slice()) {
            Ok((hash, _)) => {
                self.hash = hash;
            },
            Err(_) => {
                proof {
                    lemma_scan_stop(self.data@, 0);
                }
            },
        }
    }

    /// The sequence number.
    pub fn num(&self) -> (num: u32)
        ensures
            num == self.number(),
    {
        self.num
    }

    /// The length of the file: where the next record will start.
    pub fn size(&self) -> (size: u64)
        ensures
            size == self.bytes().len(),
    {
        self.data.len() as u64
    }

    /// The bytes of the file.
    pub fn data(&self) -> (data: &Vec<u8>)
        ensures
            data@ == self.bytes(),
    {
        &self.data
    }

    /// The segment's own index.
    pub fn hash(&self) -> (hash: &Index<u64>)
        requires
            self.wf(),
        ensures
            hash.wf(),
            hash@ == self.local(),
    {
        &self.hash
    }

    /// Reads the record at `pos` and returns its value, if it is a live
    /// record of `key`. Anything else there means that index and file have
    /// come apart.
    pub fn read(&self, key: &[u8], pos: u64) -> (r: Result<Vec<u8>, StoreError>)
        ensures
            match r {
                Ok(value) => {
                    &&& parse_at(self.bytes(), pos as int) is Live
                    &&& key_of(parse_at(self.bytes(), pos as int)) == key@
                    &&& value@ == value_at(self.bytes(), pos as int)
                },
                Err(e) => {
                    &&& e == StoreError::Corruption
                    &&& !(parse_at(self.bytes(), pos as int) is Live && key_of(
                        parse_at(self.bytes(), pos as int),
                    ) == key@)
                },
            },
    {
        match read_entry(self.data.as_slice(), pos) {
            Ok((ReadResult::Success(found_key, value), _)) => {
                if bytes_eq(found_key.as_slice(), key) {
                    Ok(value)
                } else {
                    Err(StoreError::Corruption)
                }
            },
            _ => Err(StoreError::Corruption),
        }
    }

    /// Appends a live record for `key` and `value`, enters the key with the
    /// record's position in the segment's own index, and returns the
    /// position. A key that does not fit the key field is refused, and
    /// nothing changes.
    pub fn write(&mut self, key: &[u8], value: &[u8]) -> (r: Result<u64, StoreError>)
        requires
            old(self).wf(),
        ensures
            final(self).wf(),
            final(self).number() == old(self).number(),
            key@.len() > KEY_MAX_LEN ==> {
                &&& r == Err::<u64, StoreError>(StoreError::KeyTooLarge)
                &&& final(self).bytes() == old(self).bytes()
                &&& final(self).local() == old(self).local()
            },
            key@.len() <= KEY_MAX_LEN ==> {
                &&& r == Ok::<u64, StoreError>(old(self).bytes().len() as u64)
                &&& final(self).bytes() == old(self).bytes() + live_record(key@, value@)
                &&& final(self).local() == old(self).local().insert(
                    key@,
                    old(self).bytes().len() as u64,
                )
            },
    {
        let value_len: usize = value.len();
        match write_entry(&mut self.data, key, value) {
            Err(e) => Err(e),
            Ok(pos) => {
                let size: usize = self.data.len();
                proof {
                    lemma_parse_appended_live(old(self).data@, key@, value@);
                    lemma_replay_grown(old(self).data@, live_record(key@, value@));
                }
                self.hash.insert(key, pos);
                Ok(pos)
            },
        }
    }

    /// Appends a tombstone for `key`. The segment's own index stays as it
    /// is. A key that does not fit the key field is refused, and nothing
    /// changes.
    pub fn delete(&mut self, key: &[u8]) -> (r: Result<(), StoreError>)
        requires
            old(self).wf(),
        ensures
            final(self).wf(),
            final(self).number() == old(self).number(),
            final(self).local() == old(self).local(),
            key@.len() > KEY_MAX_LEN ==> {
                &&& r == Err::<(), StoreError>(StoreError::KeyTooLarge)
                &&& final(self).bytes() == old(self).bytes()
            },
            key@.len() <= KEY_MAX_LEN ==> {
                &&& r == Ok::<(), StoreError>(())
                &&& final(self).bytes() == old(self).bytes() + tombstone_record(key@)
            },
    {
        match delete_entry(&mut self.data, key) {
            Err(e) => Err(e),
            Ok(()) => {
                let size: usize = self.data.len();
                proof {
                    lemma_parse_appended_tombstone(old(self).data@, key@);
                    lemma_replay_grown(old(self).data@, tombstone_record(key@));
                }
                Ok(())
            },
        }
    }
}

} // verus!
