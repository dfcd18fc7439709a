//! The engine: the segments of a store in the order of their sequence
//! numbers, the last of them active, and the index from each key to the
//! place of its current record.

use vstd::prelude::*;
use vstd::slice::slice_to_vec;
use crate::data::{
    is_trimmed, key_of, lemma_field_is_padded, lemma_key_round_trip, lemma_parse_appended_live,
    lemma_parse_appended_tombstone, lemma_parse_stable, lemma_trimmed_is_prefix, live_record,
    parse_at, read_entry, tombstone_record, ReadResult, HEADER_LEN, KEY_MAX_LEN,
};
use crate::directory::{get_segment_name, is_segment_file, names_segment, segment_name, DirFile};
use crate::error::StoreError;
use crate::ifc::Database;
use crate::index::Index;
use crate::log::{
    holds_live, is_start, lemma_holds_live_grown, lemma_no_start_inside, lemma_reaches_bounds,
    lemma_reaches_in_grown, lemma_reaches_next, lemma_reaches_stop, lemma_replay_entries,
    lemma_replay_grown, lemma_scan_stop, replay, value_at,
};
use crate::compaction::{
    copied_before, current_records, entries_of, holds_copies, holds_only_current, is_current,
    lemma_compacted, lemma_compacted_recoverable, lies_before, merged_bytes, only_copies,
};
use crate::recovery::{
    entry_in, keeps, kept_before_last, lemma_newest_with, lemma_recovered_deleted,
    lemma_recovered_pushed, lemma_recovered_written, newest_with, recovered, same_but_last,
};
use crate::segment::{
    ascending, clean_part, has_number, holds_damage, next_number, opened_from, opens, total_size,
    FileSegment,
};

verus! {

/// Where the current record of a key stands: the sequence number of its
/// segment, and the position in that segment's file.
#[derive(Clone, Copy, Debug, PartialEq, Eq, Structural)]
pub struct HashMemEntry {
    pub segment_num: u32,
    pub pos: u64,
}

/// The store.
pub struct Hash {
    segments: Vec<FileSegment>,
    hash: Index<HashMemEntry>,
    page_size: u64,
    path: Vec<DirFile>,
}

/// The place, among the segments, of the one with the sequence number `num`.
pub open spec fn place_of(segments: Seq<FileSegment>, num: u32) -> int {
    choose|a: int| 0 <= a < segments.len() && (#[trigger] segments[a]).number() == num
}

/// Whether an entry of the index leads to a live record of `key` that
/// reading the segment comes to.
pub open spec fn leads_to(segments: Seq<FileSegment>, entry: HashMemEntry, key: Seq<u8>) -> bool {
    &&& has_number(segments, entry.segment_num)
    &&& holds_live(segments[place_of(segments, entry.segment_num)].bytes(), entry.pos as int, key)
}

/// The value of the record that an entry of the index leads to.
pub open spec fn stored(segments: Seq<FileSegment>, entry: HashMemEntry) -> Seq<u8> {
    value_at(segments[place_of(segments, entry.segment_num)].bytes(), entry.pos as int)
}

/// Every segment is well-formed, and they stand in the order of their
/// sequence numbers.
pub open spec fn segments_wf(segments: Seq<FileSegment>) -> bool {
    &&& ascending(segments)
    &&& forall|a: int| 0 <= a < segments.len() ==> (#[trigger] segments[a]).wf()
}

/// Among segments in the order of their numbers, each is found at its own
/// place by its number.
pub proof fn lemma_place_of(segments: Seq<FileSegment>, a: int)
    requires
        ascending(segments),
        0 <= a < segments.len(),
    ensures
        has_number(segments, segments[a].number()),
        place_of(segments, segments[a].number()) == a,
{
    let found = place_of(segments, segments[a].number());
    if found < a {
        assert(segments[found].number() < segments[a].number());
    } else if a < found {
        assert(segments[a].number() < segments[found].number());
    }
}

/// Among segments in the order of their numbers, the next number is one
/// more than that of the last.
pub proof fn lemma_next_number(segments: Seq<FileSegment>)
    requires
        ascending(segments),
    ensures
        segments.len() > 0 ==> next_number(segments) == segments.last().number() + 1,
        segments.len() == 0 ==> next_number(segments) == 0,
    decreases segments.len(),
{
    if segments.len() > 0 {
        let before = segments.drop_last();
        assert(ascending(before)) by {
            assert forall|a: int, b: int| 0 <= a < b < before.len() implies (#[trigger] before[a]).number()
                < (#[trigger] before[b]).number() by {
                assert(before[a] == segments[a]);
                assert(before[b] == segments[b]);
            }
        }
        lemma_next_number(before);
        if before.len() > 0 {
            assert(before.last() == segments[segments.len() - 2]);
            assert(segments[segments.len() - 2].number() < segments[segments.len() - 1].number());
        }
    }
}

/// An entry that leads to a record still leads to it, and to the same
/// value, when the segments are moved and the entry's segment has only
/// grown.
pub proof fn lemma_entry_kept(
    before: Seq<FileSegment>,
    after: Seq<FileSegment>,
    entry: HashMemEntry,
    key: Seq<u8>,
    b: int,
    more: Seq<u8>,
)
    requires
        ascending(before),
        ascending(after),
        leads_to(before, entry, key),
        0 <= b < after.len(),
        after[b].number() == entry.segment_num,
        after[b].bytes() == before[place_of(before, entry.segment_num)].bytes() + more,
    ensures
        leads_to(after, entry, key),
        stored(after, entry) == stored(before, entry),
{
    lemma_place_of(after, b);
    let data = before[place_of(before, entry.segment_num)].bytes();
    lemma_holds_live_grown(data, more, entry.pos as int, key);
}

/// Whether no file of a listing has the name of a segment.
pub open spec fn no_segment_file(files: Seq<DirFile>) -> bool {
    forall|j: int, num: u32| !#[trigger] names_segment(files, j, num)
}

/// Whether two lists of segments are the same files: as many, with the same
/// numbers and the same bytes.
pub open spec fn same_files(one: Seq<FileSegment>, other: Seq<FileSegment>) -> bool {
    &&& one.len() == other.len()
    &&& forall|a: int|
        0 <= a < one.len() ==> (#[trigger] one[a]).number() == other[a].number() && one[a].bytes()
            == other[a].bytes()
}

/// Whether `key` stands among the first `count` keys of a list.
pub open spec fn among_first(keys: Seq<Seq<u8>>, count: int, key: Seq<u8>) -> bool {
    exists|u: int| 0 <= u < count && u < keys.len() && #[trigger] keys[u] == key
}

/// Every entry of the index that opening the segments gives leads to a live
/// record of its key, and its key is one that the store can give back.
pub proof fn lemma_recovered_entries(segments: Seq<FileSegment>)
    requires
        segments_wf(segments),
    ensures
        forall|key: Seq<u8>| #[trigger]
            recovered(segments).contains_key(key) ==> {
                &&& key.len() <= KEY_MAX_LEN
                &&& is_trimmed(key)
                &&& leads_to(segments, recovered(segments)[key], key)
            },
{
    assert forall|key: Seq<u8>| #[trigger] recovered(segments).contains_key(key) implies {
        &&& key.len() <= KEY_MAX_LEN
        &&& is_trimmed(key)
        &&& leads_to(segments, recovered(segments)[key], key)
    } by {
        lemma_newest_with(segments, key);
        let place = newest_with(segments, key);
        let segment = segments[place];
        segment.lemma_wf();
        lemma_replay_entries(segment.bytes());
        lemma_place_of(segments, place);
        let pos = replay(segment.bytes())[key] as int;
        assert(holds_live(segment.bytes(), pos, key));
        lemma_field_is_padded(
            segment.bytes().subrange(pos + 9, pos + HEADER_LEN),
        );
    }
}

/// Whether two states of a store have the same segments and the same index.
pub open spec fn unchanged(before: Hash, after: Hash) -> bool {
    after.segments() == before.segments() && after.index() == before.index()
}

/// Whether `after` is the store `before` after `init` has opened it.
///
/// A store that was not open has the segment files of its directory as its
/// segments, none of them damaged, or an empty segment 0 where the
/// directory had no segment file. A store that was open has the same files
/// as before. Either way the index is what the records of the segments
/// give, and no file is left unopened.
pub open spec fn opened(before: Hash, after: Hash) -> bool {
    &&& after.is_initialized()
    &&& after.listing().len() == 0
    &&& after.is_recoverable()
    &&& if before.is_initialized() {
        same_files(before.segments(), after.segments())
    } else if no_segment_file(before.listing()) {
        &&& after.segments().len() == 1
        &&& after.active().number() == 0
        &&& after.active().bytes() == Seq::<u8>::empty()
    } else {
        !holds_damage(before.listing()) && opens(before.listing(), after.segments())
    }
}

/// The error that `write` answers a key with in a state, if any.
pub open spec fn write_error(before: Hash, key: Seq<u8>) -> Option<StoreError> {
    if !before.is_initialized() {
        Some(StoreError::Uninitialized)
    } else if key.len() > KEY_MAX_LEN {
        Some(StoreError::KeyTooLarge)
    } else if before.is_full() && before.active().number() == u32::MAX {
        Some(StoreError::SequenceOverflow)
    } else {
        None
    }
}

/// Where the next record of a store goes: to the end of the active
/// segment, or to the start of a new one where the active one is full.
pub open spec fn next_place(before: Hash) -> HashMemEntry {
    if before.is_full() {
        HashMemEntry { segment_num: (before.active().number() + 1) as u32, pos: 0 }
    } else {
        HashMemEntry {
            segment_num: before.active().number(),
            pos: before.active().bytes().len() as u64,
        }
    }
}

/// Whether `after` is the store `before` after `value` was written for
/// `key`.
///
/// The write was not refused. The record stands at the end of the active segment, which is a new one
/// where the old one was full, and the index points at it. A key that the
/// store can give back has the new value; the other keys are as before.
/// Where opening the segments anew gave the index before, it does so after,
/// for a key that the store can give back.
pub open spec fn wrote(before: Hash, after: Hash, key: Seq<u8>, value: Seq<u8>) -> bool {
    &&& write_error(before, key) is None
    &&& after.is_initialized()
    &&& after.index() == before.index().insert(key, next_place(before))
    &&& after@ == (if is_trimmed(key) {
        before@.insert(key, value)
    } else {
        before@
    })
    &&& if before.is_full() {
        &&& after.segments().drop_last() == before.segments()
        &&& after.active().number() == before.active().number() + 1
        &&& after.active().bytes() == live_record(key, value)
    } else {
        &&& same_but_last(before.segments(), after.segments())
        &&& after.active().bytes() == before.active().bytes() + live_record(key, value)
    }
    &&& before.is_recoverable() && is_trimmed(key) ==> after.is_recoverable()
}

/// Whether `after` is the store `before` after `key` was deleted.
///
/// The key is gone from the index and from what the store holds. Where the
/// key was there, a tombstone stands at the end of the active segment;
/// where not, the segments are as before. Where opening the segments anew
/// gave the index before, it does so after, unless the key was there and a
/// segment before the active one keeps a record of it.
pub open spec fn deleted(before: Hash, after: Hash, key: Seq<u8>) -> bool {
    &&& after.is_initialized() == before.is_initialized()
    &&& after.index() == before.index().remove(key)
    &&& after@ == before@.remove(key)
    &&& if before.index().contains_key(key) {
        &&& same_but_last(before.segments(), after.segments())
        &&& after.active().bytes() == before.active().bytes() + tombstone_record(key)
    } else {
        after.segments() == before.segments()
    }
    &&& before.is_recoverable() && !(before.index().contains_key(key) && kept_before_last(
        before.segments(),
        key,
    )) ==> after.is_recoverable()
}

/// Whether `after` is the store `before` after compaction.
///
/// The store was open. It holds the same keys with the same values, the index has the
/// same keys, and the active segment is as before. One segment stands in
/// the place of all the others, with the number of the oldest of them, and
/// all segments together take no more bytes than before. Where opening the
/// segments anew gave the index before, it does so after. The merged
/// segment is made of the current records of the segments that it
/// replaces, in their order, and the index points at each of them.
pub open spec fn compacted(before: Hash, after: Hash) -> bool {
    &&& before.is_initialized()
    &&& after@ == before@
    &&& after.index().dom() == before.index().dom()
    &&& after.is_initialized()
    &&& after.active() == before.active()
    &&& total_size(after.segments()) <= total_size(before.segments())
    &&& before.segments().len() == 1 ==> unchanged(before, after)
    &&& before.segments().len() > 1 ==> {
        &&& after.segments().len() == 2
        &&& after.segments()[0].number() == before.segments()[0].number()
        &&& after.segments()[0].bytes() == merged_bytes(
            before.segments(),
            before.index(),
            before.segments().len() - 1,
        )
        &&& holds_only_current(after.segments()[0], after.index())
    }
    &&& before.is_recoverable() ==> after.is_recoverable()
}

impl View for Hash {
    type V = Map<Seq<u8>, Seq<u8>>;

    /// What the store holds: the keys that it can give back, each with its
    /// value.
    open spec fn view(&self) -> Map<Seq<u8>, Seq<u8>> {
        Map::new(
            |key: Seq<u8>| self.index().contains_key(key) && is_trimmed(key),
            |key: Seq<u8>| stored(self.segments(), self.index()[key]),
        )
    }
}

impl Hash {
    /// The segments, in the order of their sequence numbers. The last one
    /// is the active one.
    pub closed spec fn segments(&self) -> Seq<FileSegment> {
        self.segments@
    }

    /// The index: for each key, the place of its current record.
    pub closed spec fn index(&self) -> Map<Seq<u8>, HashMemEntry> {
        self.hash@
    }

    /// The size at which the active segment is full, in bytes.
    pub closed spec fn threshold(&self) -> u64 {
        self.page_size
    }

    /// The files of the directory that have not been opened.
    pub closed spec fn listing(&self) -> Seq<DirFile> {
        self.path@
    }

    /// The index as a list is well-formed.
    pub closed spec fn index_wf(&self) -> bool {
        self.hash.wf()
    }

    /// Whether `init` has opened the store.
    pub open spec fn is_initialized(&self) -> bool {
        self.segments().len() > 0
    }

    /// The active segment.
    pub open spec fn active(&self) -> FileSegment
        recommends
            self.is_initialized(),
    {
        self.segments().last()
    }

    /// The keys that were written with a zero byte at their end. Their
    /// records come back under the key without it, so the store does not
    /// give them back.
    pub open spec fn unreadable(&self) -> Set<Seq<u8>> {
        Set::new(|key: Seq<u8>| self.index().contains_key(key) && !is_trimmed(key))
    }

    /// What `delete` answers for `key`: nothing before `init`, and after it
    /// whether the index holds the key.
    pub open spec fn delete_result(&self, key: Seq<u8>) -> Result<bool, StoreError> {
        if !self.is_initialized() {
            Err(StoreError::Uninitialized)
        } else {
            Ok(self.index().contains_key(key))
        }
    }

    /// Whether the active segment has reached the size at which a new one
    /// is due.
    pub open spec fn is_full(&self) -> bool {
        self.is_initialized() && self.active().bytes().len() >= self.threshold()
    }

    /// Whether the index is what opening the segments anew would give.
    pub open spec fn is_recoverable(&self) -> bool {
        self.index() == recovered(self.segments())
    }

    /// Whether `files` is the directory of the store: the files that have
    /// not been opened, and after them one file for each segment, with the
    /// segment's name and bytes.
    pub open spec fn is_directory(&self, files: Seq<DirFile>) -> bool {
        &&& files.len() == self.listing().len() + self.segments().len()
        &&& forall|i: int|
            0 <= i < self.listing().len() ==> (#[trigger] files[i]).name@ == self.listing()[i].name@
                && files[i].data@ == self.listing()[i].data@
        &&& forall|a: int|
            0 <= a < self.segments().len() ==> (#[trigger] files[self.listing().len() + a]).name@
                == segment_name(self.segments()[a].number()) && files[self.listing().len()
                + a].data@ == self.segments()[a].bytes()
    }

    /// A store over the files of a directory, with the size at which a
    /// segment is full. Nothing is opened yet.
    pub fn new(path: Vec<DirFile>, page_size: u64) -> (store: Hash)
        ensures
            store.wf(),
            !store.is_initialized(),
            store.listing() == path@,
            store.threshold() == page_size,
            store.index() == Map::<Seq<u8>, HashMemEntry>::empty(),
    {
        Hash { segments: Vec::new(), hash: Index::new(), page_size, path }
    }

    /// The place of the segment with the sequence number `num`.
    fn find_segment(&self, num: u32) -> (place: Option<usize>)
        requires
            ascending(self.segments()),
        ensures
            match place {
                Some(a) => a < self.segments().len() && self.segments()[a as int].number() == num
                    && a == place_of(self.segments(), num) && has_number(self.segments(), num),
                None => !has_number(self.segments(), num),
            },
    {
        let mut a: usize = 0;
        while a < self.segments.len()
            invariant
                a <= self.segments@.len(),
                ascending(self.segments@),
                forall|b: int| 0 <= b < a ==> (#[trigger] self.segments@[b]).number() != num,
            decreases self.segments@.len() - a,
        {
            if self.segments[a].num() == num {
                proof {
                    lemma_place_of(self.segments@, a as int);
                }
                return Some(a);
            }
            a = a + 1;
        }
        None
    }

    /// Where the index says that the current record of `key` stands: the
    /// sequence number of the segment and the position in its file.
    pub fn locate(&self, key: &[u8]) -> (place: Option<(u32, u64)>)
        requires
            self.wf(),
        ensures
            place == (if self.index().contains_key(key@) {
                Some((self.index()[key@].segment_num, self.index()[key@].pos))
            } else {
                None
            }),
    {
        match self.hash.get(key) {
            Some(entry) => Some((entry.segment_num, entry.pos)),
            None => None,
        }
    }

    /// Makes a new segment the active one, if the active one has reached
    /// the size at which it is full. The new segment has the next sequence
    /// number; if none is left, nothing changes.
    fn split(&mut self) -> (r: Result<(), StoreError>)
        requires
            old(self).wf(),
            old(self).is_initialized(),
        ensures
            final(self).wf(),
            final(self).index() == old(self).index(),
            final(self).threshold() == old(self).threshold(),
            final(self).listing() == old(self).listing(),
            final(self)@ == old(self)@,
            recovered(final(self).segments()) == recovered(old(self).segments()),
            !old(self).is_full() ==> r is Ok && final(self).segments() == old(self).segments(),
            old(self).is_full() && old(self).active().number() == u32::MAX ==> r == Err::<
                (),
                StoreError,
            >(StoreError::SequenceOverflow) && final(self).segments() == old(self).segments(),
            old(self).is_full() && old(self).active().number() < u32::MAX ==> {
                &&& r is Ok
                &&& final(self).segments().len() == old(self).segments().len() + 1
                &&& final(self).segments().drop_last() == old(self).segments()
                &&& final(self).active().number() == old(self).active().number() + 1
                &&& final(self).active().bytes() == Seq::<u8>::empty()
            },
    {
        let last: usize = self.segments.len() - 1;
        if self.segments[last].size() < self.page_size {
            return Ok(());
        }
        proof {
            lemma_next_number(self.segments@);
        }
        match FileSegment::create(self.segments.as_slice()) {
            Err(e) => Err(e),
            Ok(segment) => {
                self.segments.push(segment);
                proof {
                    let before = old(self).segments@;
                    let after = self.segments@;
                    assert(after.drop_last() == before);
                    lemma_recovered_pushed(before, segment);
                    assert(ascending(after)) by {
                        assert forall|a: int, b: int| 0 <= a < b < after.len() implies (
                        #[trigger] after[a]).number() < (#[trigger] after[b]).number() by {
                            if b < before.len() {
                                assert(before[a].number() < before[b].number());
                            } else if a < before.len() - 1 {
                                assert(before[a].number() < before[before.len() - 1].number());
                            }
                        }
                    }
                    assert forall|key: Seq<u8>| #[trigger]
                        self.index().contains_key(key) && is_trimmed(key) implies leads_to(
                        after,
                        self.index()[key],
                        key,
                    ) && stored(after, self.index()[key]) == stored(before, self.index()[key]) by {
                        let entry = self.index()[key];
                        assert(old(self).index().contains_key(key));
                        let a = place_of(before, entry.segment_num);
                        assert(after[a] == before[a]);
                        assert(before[a].bytes() + Seq::<u8>::empty() == before[a].bytes());
                        lemma_entry_kept(before, after, entry, key, a, Seq::<u8>::empty());
                    }
                    assert(self@ =~= old(self)@);
                }
                Ok(())
            },
        }
    }

    /// Builds the index from the segments' own indices, from the newest
    /// segment to the oldest: a key gets the entry of the first segment in
    /// which it is met.
    fn init_hash(&mut self)
        requires
            segments_wf(old(self).segments()),
            forall|a: int|
                0 <= a < old(self).segments().len() ==> (#[trigger] old(self).segments()[a]).local()
                    == replay(old(self).segments()[a].bytes()),
        ensures
            final(self).segments() == old(self).segments(),
            final(self).threshold() == old(self).threshold(),
            final(self).listing() == old(self).listing(),
            final(self).index_wf(),
            final(self).index() == recovered(final(self).segments()),
    {
        self.hash = Index::new();
        let ghost segments = self.segments@;
        let mut i: usize = self.segments.len();
        proof {
            assert forall|key: Seq<u8>| newest_with(segments, key) < i by {
                lemma_newest_with(segments, key);
            }
        }
        while i > 0
            invariant
                i <= segments.len(),
                self.segments@ == segments,
                self.page_size == old(self).page_size,
                self.path@ == old(self).path@,
                segments_wf(segments),
                forall|a: int|
                    0 <= a < segments.len() ==> (#[trigger] segments[a]).local() == replay(
                        segments[a].bytes(),
                    ),
                self.hash.wf(),
                forall|key: Seq<u8>| #[trigger]
                    self.hash@.contains_key(key) <==> newest_with(segments, key) >= i,
                forall|key: Seq<u8>| #[trigger]
                    self.hash@.contains_key(key) ==> self.hash@[key] == recovered(segments)[key],
            decreases i,
        {
            i = i - 1;
            let segment: &FileSegment = &self.segments[i];
            let num: u32 = segment.num();
            let local: &Index<u64> = segment.hash();
            let count: usize = local.len();
            proof {
                local.lemma_view();
            }
            let mut t: usize = 0;
            while t < count
                invariant
                    t <= count,
                    count == local.keys().len(),
                    i < segments.len(),
                    self.segments@ == segments,
                    self.page_size == old(self).page_size,
                    self.path@ == old(self).path@,
                    local.wf(),
                    local@ == replay(segments[i as int].bytes()),
                    num == segments[i as int].number(),
                    self.hash.wf(),
                    forall|key: Seq<u8>| #[trigger]
                        self.hash@.contains_key(key) <==> (newest_with(segments, key) > i || (
                        newest_with(segments, key) == i && among_first(
                            local.keys(),
                            t as int,
                            key,
                        ))),
                    forall|key: Seq<u8>| #[trigger]
                        self.hash@.contains_key(key) ==> self.hash@[key] == recovered(segments)[key],
                decreases count - t,
            {
                let key: &Vec<u8> = local.key_at(t);
                let pos: u64 = local.value_at(t);
                let ghost before = self.hash@;
                proof {
                    local.lemma_view();
                    lemma_newest_with(segments, key@);
                    assert(keeps(segments[i as int], key@));
                }
                if !self.hash.contains_key(key.as_slice()) {
                    self.hash.insert(key.as_slice(), HashMemEntry { segment_num: num, pos });
                    assert(newest_with(segments, key@) == i);
                    assert(recovered(segments)[key@] == entry_in(segments[i as int], key@));
                }
                proof {
                    assert forall|other: Seq<u8>| #[trigger]
                        self.hash@.contains_key(other) <==> (newest_with(segments, other) > i || (
                        newest_with(segments, other) == i && among_first(
                            local.keys(),
                            t + 1,
                            other,
                        ))) by {
                        if other == key@ {
                            assert(local.keys()[t as int] == key@);
                        } else {
                            assert(self.hash@.contains_key(other) == before.contains_key(other));
                            if among_first(local.keys(), t + 1, other) {
                                let u = choose|u: int|
                                    0 <= u < t + 1 && u < local.keys().len() && #[trigger] local.keys()[u]
                                        == other;
                                assert(u < t);
                                assert(among_first(local.keys(), t as int, other));
                            }
                            if among_first(local.keys(), t as int, other) {
                                let u = choose|u: int|
                                    0 <= u < t && u < local.keys().len() && #[trigger] local.keys()[u]
                                        == other;
                                assert(among_first(local.keys(), t + 1, other));
                            }
                        }
                    }
                }
                t = t + 1;
            }
            proof {
                assert forall|key: Seq<u8>| #[trigger]
                    self.hash@.contains_key(key) <==> newest_with(segments, key) >= i by {
                    lemma_newest_with(segments, key);
                    if newest_with(segments, key) == i {
                        assert(local@.contains_key(key));
                        let u = local.keys().index_of(key);
                        assert(local.keys()[u] == key);
                        assert(among_first(local.keys(), count as int, key));
                    }
                }
            }
        }
        assert(self.hash@ =~= recovered(segments));
    }

    /// The files of the store's directory: those that have not been opened,
    /// and one for each segment.
    pub fn directory(&self) -> (files: Vec<DirFile>)
        ensures
            self.is_directory(files@),
    {
        let mut files: Vec<DirFile> = Vec::new();
        let mut i: usize = 0;
        while i < self.path.len()
            invariant
                i <= self.path@.len(),
                files@.len() == i,
                forall|e: int|
                    0 <= e < i ==> (#[trigger] files@[e]).name@ == self.path@[e].name@ && files@[e].data@
                        == self.path@[e].data@,
            decreases self.path@.len() - i,
        {
            let name: String = self.path[i].name.clone();
            let data: Vec<u8> = slice_to_vec(self.path[i].data.as_slice());
            files.push(DirFile { name, data });
            i = i + 1;
        }
        let mut a: usize = 0;
        while a < self.segments.len()
            invariant
                a <= self.segments@.len(),
                files@.len() == self.path@.len() + a,
                forall|e: int|
                    0 <= e < self.path@.len() ==> (#[trigger] files@[e]).name@ == self.path@[e].name@
                        && files@[e].data@ == self.path@[e].data@,
                forall|b: int|
                    0 <= b < a ==> (#[trigger] files@[self.path@.len() + b]).name@ == segment_name(
                        self.segments@[b].number(),
                    ) && files@[self.path@.len() + b].data@ == self.segments@[b].bytes(),
            decreases self.segments@.len() - a,
        {
            let name: String = get_segment_name(self.segments[a].num());
            let data: Vec<u8> = slice_to_vec(self.segments[a].data().as_slice());
            files.push(DirFile { name, data });
            a = a + 1;
        }
        files
    }

    /// Goes through the records of the segment at `place` and appends to
    /// `merged` a copy of each live record that the index points at. The
    /// other records are superseded and are left out.
    fn copy_live(&self, place: usize, merged: &mut FileSegment)
        requires
            self.wf(),
            place + 1 < self.segments().len(),
            old(merged).wf(),
            old(merged).local() == replay(old(merged).bytes()),
            holds_copies(self.segments(), self.index(), *old(merged), place as int, 0),
            only_copies(*old(merged)),
            copied_before(self.segments(), self.index(), *old(merged), place as int, 0),
        ensures
            final(merged).wf(),
            final(merged).number() == old(merged).number(),
            final(merged).local() == replay(final(merged).bytes()),
            holds_copies(self.segments(), self.index(), *final(merged), place + 1, 0),
            only_copies(*final(merged)),
            copied_before(self.segments(), self.index(), *final(merged), place + 1, 0),
            final(merged).bytes() == old(merged).bytes() + current_records(
                self.segments()[place as int].bytes(),
                self.segments()[place as int].number(),
                self.index(),
                0,
            ),
            final(merged).bytes().len() <= old(merged).bytes().len() + self.segments()[place as int].bytes().len(),
    {
        let segment: &FileSegment = &self.segments[place];
        let num: u32 = segment.num();
        let data: &[u8] = segment.data().as_slice();
        let len: usize = data.len();
        let ghost segments = self.segments@;
        let ghost index = self.hash@;
        proof {
            segment.lemma_wf();
            lemma_place_of(segments, place as int);
            lemma_place_of(segments, segments.len() - 1);
        }
        let mut pos: u64 = 0;
        loop
            invariant
                self.wf(),
                segments == self.segments(),
                index == self.index(),
                place + 1 < segments.len(),
                segments[place as int].bytes() == data@,
                segments[place as int].number() == num,
                place_of(segments, num) == place,
                num != segments.last().number(),
                crate::log::is_clean(data@),
                len == data@.len(),
                0 <= pos <= len,
                is_start(data@, pos as int),
                merged.wf(),
                merged.number() == old(merged).number(),
                merged.local() == replay(merged.bytes()),
                holds_copies(segments, index, *merged, place as int, pos as int),
                only_copies(*merged),
                copied_before(segments, index, *merged, place as int, pos as int),
                merged.bytes().len() <= old(merged).bytes().len() + pos,
                merged.bytes() + current_records(data@, num, index, pos as int) == old(
                    merged,
                ).bytes() + current_records(data@, num, index, 0),
            ensures
                merged.wf(),
                merged.number() == old(merged).number(),
                merged.local() == replay(merged.bytes()),
                holds_copies(segments, index, *merged, place + 1, 0),
                only_copies(*merged),
                copied_before(segments, index, *merged, place + 1, 0),
                merged.bytes().len() <= old(merged).bytes().len() + len,
                merged.bytes() == old(merged).bytes() + current_records(data@, num, index, 0),
            decreases len - pos,
        {
            let ghost was = *merged;
            let ghost left = current_records(data@, num, index, pos as int);
            match read_entry(data, pos) {
                Ok((ReadResult::Success(key, value), next)) => {
                    proof {
                        lemma_reaches_next(data@, 0, pos as int);
                        lemma_field_is_padded(data@.subrange(pos + 9, pos + HEADER_LEN));
                    }
                    let current: bool = match self.hash.get(key.as_slice()) {
                        Some(entry) => entry.segment_num == num && entry.pos == pos,
                        None => false,
                    };
                    assert(current == is_current(data@, num, index, pos as int));
                    assert(left == (if current {
                        live_record(key@, value@)
                    } else {
                        Seq::<u8>::empty()
                    }) + current_records(data@, num, index, next as int));
                    if current {
                        let value_len: usize = value.len();
                        match merged.write(key.as_slice(), value.as_slice()) {
                            Ok(_) => {},
                            Err(_) => {},
                        }
                        proof {
                            let record = live_record(key@, value@);
                            assert(merged.bytes() + current_records(data@, num, index, next as int)
                                =~= was.bytes() + left);
                            was.lemma_wf();
                            lemma_key_round_trip(key@);
                            lemma_parse_appended_live(was.bytes(), key@, value@);
                            lemma_replay_grown(was.bytes(), record);
                            assert(!was.local().contains_key(key@));
                            assert forall|other: Seq<u8>| #[trigger]
                                merged.local().contains_key(other) implies {
                                &&& index.contains_key(other)
                                &&& is_trimmed(other)
                                &&& index[other].segment_num != segments.last().number()
                                &&& lies_before(segments, index[other], place as int, next as int)
                                &&& holds_live(merged.bytes(), merged.local()[other] as int, other)
                                &&& value_at(merged.bytes(), merged.local()[other] as int) == stored(
                                    segments,
                                    index[other],
                                )
                            } by {
                                if other != key@ {
                                    assert(was.local().contains_key(other));
                                    lemma_holds_live_grown(
                                        was.bytes(),
                                        record,
                                        was.local()[other] as int,
                                        other,
                                    );
                                }
                            }
                            assert forall|at: int| #[trigger]
                                is_start(merged.bytes(), at) && at < merged.bytes().len() implies {
                                &&& parse_at(merged.bytes(), at) is Live
                                &&& merged.local().contains_key(key_of(parse_at(merged.bytes(), at)))
                                &&& merged.local()[key_of(parse_at(merged.bytes(), at))] == at
                            } by {
                                lemma_scan_stop(was.bytes(), 0);
                                lemma_reaches_in_grown(was.bytes(), record, 0, at);
                                lemma_reaches_bounds(was.bytes(), 0, at);
                                if at < was.bytes().len() {
                                    assert(is_start(was.bytes(), at));
                                    lemma_parse_stable(was.bytes(), record, at);
                                }
                            }
                        }
                    } else {
                        proof {
                            assert forall|other: Seq<u8>| #[trigger]
                                merged.local().contains_key(other) implies lies_before(
                                segments,
                                index[other],
                                place as int,
                                next as int,
                            ) by {
                                assert(lies_before(segments, index[other], place as int, pos as int));
                            }
                        }
                    }
                    proof {
                        assert forall|other: Seq<u8>| #[trigger]
                            index.contains_key(other) && is_trimmed(other) && lies_before(
                                segments,
                                index[other],
                                place as int,
                                next as int,
                            ) implies merged.local().contains_key(other) by {
                            if lies_before(segments, index[other], place as int, pos as int) {
                                assert(was.local().contains_key(other));
                            } else {
                                assert(leads_to(segments, index[other], other));
                                lemma_no_start_inside(data@, 0, pos as int, index[other].pos as int);
                            }
                        }
                    }
                    pos = next;
                },
                Ok((ReadResult::Deleted(_), next)) => {
                    proof {
                        lemma_reaches_next(data@, 0, pos as int);
                        assert forall|other: Seq<u8>| #[trigger]
                            merged.local().contains_key(other) implies lies_before(
                            segments,
                            index[other],
                            place as int,
                            next as int,
                        ) by {
                            assert(lies_before(segments, index[other], place as int, pos as int));
                        }
                        assert forall|other: Seq<u8>| #[trigger]
                            index.contains_key(other) && is_trimmed(other) && lies_before(
                                segments,
                                index[other],
                                place as int,
                                next as int,
                            ) implies merged.local().contains_key(other) by {
                            if !lies_before(segments, index[other], place as int, pos as int) {
                                assert(leads_to(segments, index[other], other));
                                lemma_no_start_inside(data@, 0, pos as int, index[other].pos as int);
                            }
                        }
                    }
                    pos = next;
                },
                Err(_) => {
                    proof {
                        lemma_reaches_stop(data@, 0, pos as int);
                        assert(pos == len);
                        assert forall|other: Seq<u8>| #[trigger]
                            merged.local().contains_key(other) implies lies_before(
                            segments,
                            index[other],
                            place + 1,
                            0,
                        ) by {
                            assert(lies_before(segments, index[other], place as int, pos as int));
                        }
                        assert forall|other: Seq<u8>| #[trigger]
                            index.contains_key(other) && is_trimmed(other) && lies_before(
                                segments,
                                index[other],
                                place + 1,
                                0,
                            ) implies merged.local().contains_key(other) by {
                            assert(leads_to(segments, index[other], other));
                            if place_of(segments, index[other].segment_num) == place {
                                assert(parse_at(data@, index[other].pos as int) is Live);
                                assert(lies_before(segments, index[other], place as int, pos as int));
                            } else {
                                assert(lies_before(segments, index[other], place as int, pos as int));
                            }
                        }
                    }
                    break ;
                },
            }
        }
    }

    /// Points the index at `merged` for every key that the own index of
    /// `merged` knows.
    fn repoint(&mut self, merged: &FileSegment)
        requires
            old(self).index_wf(),
            merged.wf(),
        ensures
            final(self).index_wf(),
            final(self).segments() == old(self).segments(),
            final(self).threshold() == old(self).threshold(),
            final(self).listing() == old(self).listing(),
            final(self).index() == old(self).index().union_prefer_right(entries_of(*merged)),
    {
        let num: u32 = merged.num();
        let moved: &Index<u64> = merged.hash();
        let count: usize = moved.len();
        let ghost index = self.hash@;
        proof {
            moved.lemma_view();
        }
        let mut t: usize = 0;
        while t < count
            invariant
                t <= count,
                count == moved.keys().len(),
                moved.wf(),
                moved@ == merged.local(),
                num == merged.number(),
                self.hash.wf(),
                self.segments@ == old(self).segments@,
                self.page_size == old(self).page_size,
                self.path@ == old(self).path@,
                forall|key: Seq<u8>| #[trigger]
                    self.hash@.contains_key(key) <==> (index.contains_key(key) || among_first(
                        moved.keys(),
                        t as int,
                        key,
                    )),
                forall|key: Seq<u8>| #[trigger]
                    self.hash@.contains_key(key) ==> self.hash@[key] == (if among_first(
                        moved.keys(),
                        t as int,
                        key,
                    ) {
                        entries_of(*merged)[key]
                    } else {
                        index[key]
                    }),
            decreases count - t,
        {
            let key: &Vec<u8> = moved.key_at(t);
            let pos: u64 = moved.value_at(t);
            let ghost before = self.hash@;
            proof {
                moved.lemma_view();
            }
            self.hash.insert(key.as_slice(), HashMemEntry { segment_num: num, pos });
            proof {
                assert(moved.keys()[t as int] == key@);
                assert(among_first(moved.keys(), t + 1, key@));
                assert forall|other: Seq<u8>|
                    among_first(moved.keys(), t + 1, other) <==> (other == key@ || among_first(
                        moved.keys(),
                        t as int,
                        other,
                    )) by {
                    if among_first(moved.keys(), t + 1, other) {
                        let u = choose|u: int|
                            0 <= u < t + 1 && u < moved.keys().len() && #[trigger] moved.keys()[u]
                                == other;
                        if u < t {
                            assert(among_first(moved.keys(), t as int, other));
                        }
                    }
                    if among_first(moved.keys(), t as int, other) {
                        let u = choose|u: int|
                            0 <= u < t && u < moved.keys().len() && #[trigger] moved.keys()[u]
                                == other;
                        assert(among_first(moved.keys(), t + 1, other));
                    }
                }
            }
            t = t + 1;
        }
        proof {
            assert forall|key: Seq<u8>|
                among_first(moved.keys(), count as int, key) <==> merged.local().contains_key(
                    key,
                ) by {
                if among_first(moved.keys(), count as int, key) {
                    let u = choose|u: int|
                        0 <= u < count && u < moved.keys().len() && #[trigger] moved.keys()[u] == key;
                    assert(moved@.contains_key(moved.keys()[u]));
                }
                if merged.local().contains_key(key) {
                    let u = moved.keys().index_of(key);
                    assert(moved.keys()[u] == key);
                }
            }
            assert(self.hash@ =~= index.union_prefer_right(entries_of(*merged)));
        }
    }

    /// Merges the segments other than the active one into one. Of their
    /// records those are kept that the index points at; the superseded ones
    /// and the tombstones go. The merged segment takes the number of the
    /// oldest segment that it replaces, the index is pointed at the copies,
    /// and the replaced segments go. The active segment is left as it is.
    /// The store holds the same keys and values as before, in no more
    /// bytes.
    pub fn compact(&mut self) -> (r: Result<(), StoreError>)
        requires
            old(self).wf(),
        ensures
            final(self).wf(),
            final(self).threshold() == old(self).threshold(),
            final(self).listing() == old(self).listing(),
            match r {
                Ok(()) => compacted(*old(self), *final(self)),
                Err(e) => {
                    &&& !old(self).is_initialized()
                    &&& e == StoreError::Uninitialized
                    &&& unchanged(*old(self), *final(self))
                },
            },
    {
        let n: usize = self.segments.len();
        if n == 0 {
            return Err(StoreError::Uninitialized);
        }
        if n == 1 {
            return Ok(());
        }
        let first: u32 = self.segments[0].num();
        let mut merged: FileSegment = FileSegment::empty(first);
        let ghost segments = self.segments@;
        let ghost index = self.hash@;
        let mut i: usize = 0;
        proof {
            assert(segments.subrange(0, 0) == Seq::<FileSegment>::empty());
            assert forall|key: Seq<u8>| #[trigger]
                index.contains_key(key) && is_trimmed(key) implies !lies_before(
                segments,
                index[key],
                0,
                0,
            ) by {
                assert(self.index().contains_key(key));
                assert(leads_to(segments, index[key], key));
            }
        }
        while i < n - 1
            invariant
                self.wf(),
                segments == self.segments(),
                index == self.index(),
                n == segments.len(),
                n >= 2,
                i <= n - 1,
                merged.wf(),
                merged.number() == first,
                first == segments[0].number(),
                merged.local() == replay(merged.bytes()),
                holds_copies(segments, index, merged, i as int, 0),
                only_copies(merged),
                copied_before(segments, index, merged, i as int, 0),
                merged.bytes().len() <= total_size(segments.subrange(0, i as int)),
                merged.bytes() == merged_bytes(segments, index, i as int),
            decreases n - 1 - i,
        {
            self.copy_live(i, &mut merged);
            assert(segments.subrange(0, i + 1).drop_last() == segments.subrange(0, i as int));
            i = i + 1;
        }
        self.repoint(&merged);
        let active: Option<FileSegment> = self.segments.pop();
        match active {
            Some(active) => {
                self.segments.clear();
                self.segments.push(merged);
                self.segments.push(active);
                proof {
                    let after = self.segments@;
                    assert(after =~= seq![merged, segments.last()]);
                    assert(segments.drop_last() == segments.subrange(0, n - 1));
                    assert(after.drop_last() =~= seq![merged]);
                    assert(seq![merged].drop_last() =~= Seq::<FileSegment>::empty());
                    assert(total_size(Seq::<FileSegment>::empty()) == 0);
                    assert(total_size(seq![merged]) == merged.bytes().len());
                    lemma_compacted(segments, index, merged, after);
                    assert(self@ =~= old(self)@);
                    if old(self).is_recoverable() {
                        lemma_compacted_recoverable(segments, index, merged, after);
                    }
                }
            },
            None => {},
        }
        Ok(())
    }
}

impl Database for Hash {
    /// The segments are well-formed and in order, no key of the index is
    /// longer than the key field, and every key of the index that the
    /// store can give back leads to a live record of it.
    open spec fn wf(&self) -> bool {
        &&& self.index_wf()
        &&& segments_wf(self.segments())
        &&& forall|key: Seq<u8>| #[trigger]
            self.index().contains_key(key) ==> key.len() <= KEY_MAX_LEN
        &&& forall|key: Seq<u8>| #[trigger]
            self.index().contains_key(key) && is_trimmed(key) ==> leads_to(
                self.segments(),
                self.index()[key],
                key,
            )
    }

    /// What `read` gives for `key`: nothing before `init`; the value of a
    /// key that the store holds; an error for a key that is unreadable;
    /// and no value for any other key.
    open spec fn read_result(&self, key: Seq<u8>) -> Result<Option<Seq<u8>>, StoreError> {
        if !self.is_initialized() {
            Err(StoreError::Uninitialized)
        } else if self@.contains_key(key) {
            Ok(Some(self@[key]))
        } else if self.unreadable().contains(key) {
            Err(StoreError::Corruption)
        } else {
            Ok(None)
        }
    }

    /// Opens the store. A store that is not open yet opens the segment
    /// files of its directory; where there is none, it starts with an empty
    /// segment 0. A store that is open reads its segments anew. Either way
    /// the index is built from the records of the segments, the newest
    /// segment deciding for each key, and the segment with the highest
    /// number is the active one. A segment file with bytes that are no
    /// record is an error, and the store stays closed.
    fn init(&mut self) -> (r: Result<(), StoreError>)
        ensures
            final(self).wf(),
            final(self).threshold() == old(self).threshold(),
            match r {
                Ok(()) => opened(*old(self), *final(self)),
                Err(e) => {
                    &&& e == StoreError::Corruption
                    &&& !old(self).is_initialized()
                    &&& holds_damage(old(self).listing())
                    &&& unchanged(*old(self), *final(self))
                    &&& final(self).listing() == old(self).listing()
                },
            },
    {
        if self.segments.len() == 0 {
            match FileSegment::from_dir(self.path.as_slice()) {
                Err(e) => {
                    return Err(e);
                },
                Ok(segments) => {
                    self.segments = segments;
                },
            }
            if self.segments.len() == 0 {
                proof {
                    assert(no_segment_file(self.path@)) by {
                        if !no_segment_file(self.path@) {
                            let (j, num) = choose|j: int, num: u32| #[trigger]
                                names_segment(self.path@, j, num);
                            assert(has_number(self.segments@, num));
                        }
                    }
                }
                match FileSegment::create(self.segments.as_slice()) {
                    Ok(segment) => {
                        self.segments.push(segment);
                    },
                    Err(e) => {
                        return Err(e);
                    },
                }
            } else {
                proof {
                    assert(!no_segment_file(self.path@)) by {
                        let segment = self.segments@[0];
                        assert(opened_from(self.path@, segment));
                        let j = choose|j: int| #[trigger]
                            is_segment_file(self.path@, j, segment.number())
                                && segment.bytes() == clean_part(
                                self.path@[j].data@,
                            );
                        assert(names_segment(self.path@, j, segment.number()));
                    }
                }
            }
            self.path = Vec::new();
        } else {
            let ghost before = self.segments@;
            let mut a: usize = 0;
            while a < self.segments.len()
                invariant
                    a <= self.segments@.len(),
                    self.segments@.len() == before.len(),
                    self.page_size == old(self).page_size,
                    segments_wf(before),
                    same_files(before, self.segments@),
                    forall|b: int| 0 <= b < self.segments@.len() ==> (#[trigger] self.segments@[b]).wf(),
                    forall|b: int|
                        0 <= b < a ==> (#[trigger] self.segments@[b]).local() == replay(
                            self.segments@[b].bytes(),
                        ),
                decreases self.segments@.len() - a,
            {
                self.segments[a].replay();
                a = a + 1;
            }
            proof {
                let after = self.segments@;
                assert(ascending(after)) by {
                    assert forall|x: int, y: int| 0 <= x < y < after.len() implies (
                    #[trigger] after[x]).number() < (#[trigger] after[y]).number() by {
                        assert(before[x].number() < before[y].number());
                    }
                }
            }
            self.path = Vec::new();
        }
        self.init_hash();
        proof {
            lemma_recovered_entries(self.segments@);
        }
        Ok(())
    }

    /// Empties the store: every segment and the whole index go, and the
    /// store starts anew with an empty segment 0.
    fn reset(&mut self) -> (r: Result<(), StoreError>)
        ensures
            final(self).wf(),
            final(self).threshold() == old(self).threshold(),
            r is Ok,
            final(self).segments().len() == 1,
            final(self).active().number() == 0,
            final(self).active().bytes() == Seq::<u8>::empty(),
            final(self).listing().len() == 0,
            final(self).index() == Map::<Seq<u8>, HashMemEntry>::empty(),
            final(self)@ == Map::<Seq<u8>, Seq<u8>>::empty(),
            final(self).is_recoverable(),
    {
        self.segments = Vec::new();
        self.hash = Index::new();
        self.path = Vec::new();
        assert(no_segment_file(self.path@));
        let r = self.init();
        proof {
            assert(self.index() =~= Map::<Seq<u8>, HashMemEntry>::empty()) by {
                assert forall|key: Seq<u8>| !recovered(self.segments@).contains_key(key) by {
                    lemma_newest_with(self.segments@, key);
                    if newest_with(self.segments@, key) >= 0 {
                        assert(keeps(self.segments@[0], key));
                    }
                }
            }
            assert(self@ =~= Map::<Seq<u8>, Seq<u8>>::empty());
        }
        r
    }

    /// Keeps `value` for `key`. The record goes to the end of the active
    /// segment; where that segment has reached its full size, a new one is
    /// made active first. A key that is longer than the key field is
    /// refused. On an error nothing changes.
    ///
    /// A key that ends in a zero byte is written like any other, but its
    /// record comes back under the key without that byte: the store then
    /// lists the key as unreadable and keeps no value for it.
    fn write(&mut self, key: &[u8], value: &[u8]) -> (r: Result<(), StoreError>)
        ensures
            final(self).wf(),
            final(self).threshold() == old(self).threshold(),
            final(self).listing() == old(self).listing(),
            match r {
                Ok(()) => wrote(*old(self), *final(self), key@, value@),
                Err(e) => write_error(*old(self), key@) == Some(e) && unchanged(
                    *old(self),
                    *final(self),
                ),
            },
    {
        if self.segments.len() == 0 {
            return Err(StoreError::Uninitialized);
        }
        if key.len() > KEY_MAX_LEN {
            return Err(StoreError::KeyTooLarge);
        }
        match self.split() {
            Err(e) => {
                return Err(e);
            },
            Ok(()) => {},
        }
        let ghost split = *self;
        let last: usize = self.segments.len() - 1;
        let num: u32 = self.segments[last].num();
        let value_len: usize = value.len();
        match self.segments[last].write(key, value) {
            Err(e) => Err(e),
            Ok(pos) => {
                self.hash.insert(key, HashMemEntry { segment_num: num, pos });
                proof {
                    let before = split.segments@;
                    let after = self.segments@;
                    let record = live_record(key@, value@);
                    let grown = after[last as int];
                    assert(after == before.update(last as int, grown));
                    assert(after.drop_last() == before.drop_last());
                    assert(ascending(after)) by {
                        assert forall|a: int, b: int| 0 <= a < b < after.len() implies (
                        #[trigger] after[a]).number() < (#[trigger] after[b]).number() by {
                            assert(before[a].number() < before[b].number());
                        }
                    }
                    lemma_place_of(after, last as int);
                    before[last as int].lemma_wf();
                    lemma_parse_appended_live(before[last as int].bytes(), key@, value@);
                    lemma_replay_grown(before[last as int].bytes(), record);
                    assert forall|other: Seq<u8>| #[trigger]
                        self.index().contains_key(other) && is_trimmed(other) implies leads_to(
                        after,
                        self.index()[other],
                        other,
                    ) && (other != key@ ==> stored(after, self.index()[other]) == stored(
                        before,
                        split.index()[other],
                    )) by {
                        let entry = self.index()[other];
                        if other == key@ {
                            lemma_key_round_trip(key@);
                        } else {
                            let a = place_of(before, entry.segment_num);
                            if a == last {
                                lemma_entry_kept(before, after, entry, other, a, record);
                            } else {
                                assert(after[a] == before[a]);
                                assert(before[a].bytes() + Seq::<u8>::empty() == before[a].bytes());
                                lemma_entry_kept(before, after, entry, other, a, Seq::<u8>::empty());
                            }
                        }
                    }
                    if is_trimmed(key@) {
                        lemma_key_round_trip(key@);
                        assert(self@ =~= old(self)@.insert(key@, value@));
                        lemma_recovered_written(before, after, key@, pos);
                    } else {
                        assert(self@ =~= old(self)@);
                    }
                }
                Ok(())
            },
        }
    }

    /// The value of `key`, if the store holds the key. A key that is not
    /// there is no error. A record that is not the live record of the key,
    /// where the index says it is, is an error: so is every key that was
    /// written with a zero byte at its end.
    fn read(&self, key: &[u8]) -> (r: Result<Option<Vec<u8>>, StoreError>)
        ensures
            match r {
                Ok(Some(value)) => self.read_result(key@) == Ok::<Option<Seq<u8>>, StoreError>(
                    Some(value@),
                ),
                Ok(None) => self.read_result(key@) == Ok::<Option<Seq<u8>>, StoreError>(None),
                Err(e) => self.read_result(key@) == Err::<Option<Seq<u8>>, StoreError>(e),
            },
    {
        if self.segments.len() == 0 {
            return Err(StoreError::Uninitialized);
        }
        match self.hash.get(key) {
            None => Ok(None),
            Some(entry) => {
                match self.find_segment(entry.segment_num) {
                    None => Err(StoreError::Corruption),
                    Some(a) => {
                        match self.segments[a].read(key, entry.pos) {
                            Ok(value) => {
                                proof {
                                    lemma_trimmed_is_prefix(
                                        self.segments@[a as int].bytes().subrange(
                                            entry.pos + 9,
                                            entry.pos + HEADER_LEN,
                                        ),
                                    );
                                }
                                Ok(Some(value))
                            },
                            Err(e) => Err(e),
                        }
                    },
                }
            },
        }
    }

    /// Takes `key` out of the store and says whether it was there. For a
    /// key that was there a tombstone goes to the end of the active segment;
    /// for one that was not, nothing is written.
    fn delete(&mut self, key: &[u8]) -> (r: Result<bool, StoreError>)
        ensures
            final(self).wf(),
            final(self).threshold() == old(self).threshold(),
            final(self).listing() == old(self).listing(),
            r == old(self).delete_result(key@),
            match r {
                Ok(_) => deleted(*old(self), *final(self), key@),
                Err(_) => unchanged(*old(self), *final(self)),
            },
    {
        if self.segments.len() == 0 {
            return Err(StoreError::Uninitialized);
        }
        if !self.hash.contains_key(key) {
            assert(self.index().remove(key@) =~= self.index());
            assert(self@.remove(key@) =~= self@);
            return Ok(false);
        }
        assert(self.index().contains_key(key@));
        assert(key@.len() <= KEY_MAX_LEN);
        let last: usize = self.segments.len() - 1;
        match self.segments[last].delete(key) {
            Err(e) => Err(e),
            Ok(()) => {
                self.hash.remove(key);
                proof {
                    let before = old(self).segments@;
                    let after = self.segments@;
                    let record = tombstone_record(key@);
                    assert(after == before.update(last as int, after[last as int]));
                    assert(after.drop_last() == before.drop_last());
                    assert(ascending(after)) by {
                        assert forall|a: int, b: int| 0 <= a < b < after.len() implies (
                        #[trigger] after[a]).number() < (#[trigger] after[b]).number() by {
                            assert(before[a].number() < before[b].number());
                        }
                    }
                    assert forall|other: Seq<u8>| #[trigger]
                        self.index().contains_key(other) && is_trimmed(other) implies leads_to(
                        after,
                        self.index()[other],
                        other,
                    ) && stored(after, self.index()[other]) == stored(
                        before,
                        old(self).index()[other],
                    ) by {
                        let entry = self.index()[other];
                        assert(old(self).index().contains_key(other));
                        let a = place_of(before, entry.segment_num);
                        if a == last {
                            lemma_entry_kept(before, after, entry, other, a, record);
                        } else {
                            assert(after[a] == before[a]);
                            assert(before[a].bytes() + Seq::<u8>::empty() == before[a].bytes());
                            lemma_entry_kept(before, after, entry, other, a, Seq::<u8>::empty());
                        }
                    }
                    assert(self@ =~= old(self)@.remove(key@));
                    if old(self).is_recoverable() && !kept_before_last(before, key@) {
                        lemma_recovered_entries(before);
                        lemma_key_round_trip(key@);
                        before[last as int].lemma_wf();
                        lemma_parse_appended_tombstone(before[last as int].bytes(), key@);
                        lemma_replay_grown(before[last as int].bytes(), record);
                        lemma_recovered_deleted(before, after, key@);
                    }
                }
                Ok(true)
            },
        }
    }

}


} // verus!
