//! Compaction in terms of the records: what it means that a merged segment
//! holds the current records of the segments that it replaces, and why the
//! store is then the same as before.

use vstd::prelude::*;
use crate::data::{is_trimmed, key_of, live_record, parse_at};
use crate::hash::{
    leads_to, lemma_entry_kept, lemma_place_of, lemma_recovered_entries, place_of, segments_wf,
    stored, HashMemEntry,
};
use crate::log::{holds_live, is_start, next_pos, replay, steps, value_at};
use crate::recovery::{entry_in, keeps, lemma_newest_is, lemma_newest_with, newest_with, recovered};
use crate::segment::{ascending, FileSegment};

verus! {

/// Whether an entry of the index lies before the position `pos` of the
/// segment at place `place`: in an earlier segment, or earlier in that one.
pub open spec fn lies_before(
    segments: Seq<FileSegment>,
    entry: HashMemEntry,
    place: int,
    pos: int,
) -> bool {
    place_of(segments, entry.segment_num) < place || (place_of(segments, entry.segment_num)
        == place && entry.pos < pos)
}

/// Whether every record of `merged` that its own index knows is the copy of
/// the current record of its key, taken from before the position `pos` of
/// the segment at `place`, and not from the active segment.
pub open spec fn holds_copies(
    segments: Seq<FileSegment>,
    index: Map<Seq<u8>, HashMemEntry>,
    merged: FileSegment,
    place: int,
    pos: int,
) -> bool {
    forall|key: Seq<u8>| #[trigger]
        merged.local().contains_key(key) ==> {
            &&& index.contains_key(key)
            &&& is_trimmed(key)
            &&& index[key].segment_num != segments.last().number()
            &&& lies_before(segments, index[key], place, pos)
            &&& holds_live(merged.bytes(), merged.local()[key] as int, key)
            &&& value_at(merged.bytes(), merged.local()[key] as int) == stored(segments, index[key])
        }
}

/// Whether every record of a segment is a live one that the segment's own
/// index points at.
pub open spec fn only_copies(merged: FileSegment) -> bool {
    forall|pos: int| #[trigger]
        is_start(merged.bytes(), pos) && pos < merged.bytes().len() ==> {
            &&& parse_at(merged.bytes(), pos) is Live
            &&& merged.local().contains_key(key_of(parse_at(merged.bytes(), pos)))
            &&& merged.local()[key_of(parse_at(merged.bytes(), pos))] == pos
        }
}

/// Whether every record of a segment is the current record of its key: a
/// live record that the index points at.
pub open spec fn holds_only_current(
    segment: FileSegment,
    index: Map<Seq<u8>, HashMemEntry>,
) -> bool {
    forall|pos: int| #[trigger]
        is_start(segment.bytes(), pos) && pos < segment.bytes().len() ==> {
            &&& parse_at(segment.bytes(), pos) is Live
            &&& index.contains_key(key_of(parse_at(segment.bytes(), pos)))
            &&& index[key_of(parse_at(segment.bytes(), pos))] == (HashMemEntry {
                segment_num: segment.number(),
                pos: pos as u64,
            })
        }
}

/// Whether `merged` holds a copy for every key that the store can give
/// back and whose entry lies before `pos` in the segment at `place`.
pub open spec fn copied_before(
    segments: Seq<FileSegment>,
    index: Map<Seq<u8>, HashMemEntry>,
    merged: FileSegment,
    place: int,
    pos: int,
) -> bool {
    forall|key: Seq<u8>| #[trigger]
        index.contains_key(key) && is_trimmed(key) && lies_before(segments, index[key], place, pos)
            ==> merged.local().contains_key(key)
}

/// The entry of a record of the segment `num` that stands at `pos`.
pub open spec fn entry_at(num: u32, pos: int) -> HashMemEntry {
    HashMemEntry { segment_num: num, pos: pos as u64 }
}

/// Whether the record at `pos` of the log of segment `num` is a live record
/// that the index points at.
pub open spec fn is_current(
    data: Seq<u8>,
    num: u32,
    index: Map<Seq<u8>, HashMemEntry>,
    pos: int,
) -> bool {
    &&& parse_at(data, pos) is Live
    &&& index.contains_key(key_of(parse_at(data, pos)))
    &&& index[key_of(parse_at(data, pos))] == entry_at(num, pos)
}

/// The records of the log of segment `num` from `pos` on that the index
/// points at, one after the other, each as a live record of its key and
/// value.
pub open spec fn current_records(
    data: Seq<u8>,
    num: u32,
    index: Map<Seq<u8>, HashMemEntry>,
    pos: int,
) -> Seq<u8>
    decreases data.len() - pos,
{
    if steps(data, pos) {
        let rest = current_records(data, num, index, next_pos(data, pos));
        if is_current(data, num, index, pos) {
            live_record(key_of(parse_at(data, pos)), value_at(data, pos)) + rest
        } else {
            rest
        }
    } else {
        Seq::empty()
    }
}

/// The bytes of the segment that the first `count` segments are merged
/// into: their current records, segment after segment.
pub open spec fn merged_bytes(
    segments: Seq<FileSegment>,
    index: Map<Seq<u8>, HashMemEntry>,
    count: int,
) -> Seq<u8>
    decreases count,
{
    if count <= 0 {
        Seq::empty()
    } else {
        merged_bytes(segments, index, count - 1) + current_records(
            segments[count - 1].bytes(),
            segments[count - 1].number(),
            index,
            0,
        )
    }
}

/// The entries that the keys of a segment's own index get when the index
/// of the store is pointed at that segment.
pub open spec fn entries_of(segment: FileSegment) -> Map<Seq<u8>, HashMemEntry> {
    Map::new(
        |key: Seq<u8>| segment.local().contains_key(key),
        |key: Seq<u8>| HashMemEntry { segment_num: segment.number(), pos: segment.local()[key] },
    )
}

/// What compaction leaves is a well-formed store with the same keys and
/// values: `merged` in the place of all segments but the active one, and
/// the index pointed at `merged` for the keys that it holds.
pub proof fn lemma_compacted(
    before: Seq<FileSegment>,
    index: Map<Seq<u8>, HashMemEntry>,
    merged: FileSegment,
    after: Seq<FileSegment>,
)
    requires
        segments_wf(before),
        before.len() >= 2,
        forall|key: Seq<u8>| #[trigger]
            index.contains_key(key) && is_trimmed(key) ==> leads_to(before, index[key], key),
        merged.wf(),
        merged.number() == before[0].number(),
        holds_copies(before, index, merged, before.len() - 1, 0),
        only_copies(merged),
        copied_before(before, index, merged, before.len() - 1, 0),
        after == seq![merged, before.last()],
    ensures
        segments_wf(after),
        holds_only_current(merged, index.union_prefer_right(entries_of(merged))),
        forall|key: Seq<u8>| #[trigger]
            index.contains_key(key) && is_trimmed(key) ==> {
                &&& leads_to(after, index.union_prefer_right(entries_of(merged))[key], key)
                &&& stored(after, index.union_prefer_right(entries_of(merged))[key]) == stored(
                    before,
                    index[key],
                )
            },
        index.union_prefer_right(entries_of(merged)).dom() == index.dom(),
{
    let last = before.len() - 1;
    let pointed = index.union_prefer_right(entries_of(merged));
    assert(before[0].number() < before[last].number());
    assert(ascending(after));
    lemma_place_of(after, 0);
    lemma_place_of(after, 1);
    lemma_place_of(before, last);
    assert forall|key: Seq<u8>| #[trigger] index.contains_key(key) && is_trimmed(key) implies {
        &&& leads_to(after, pointed[key], key)
        &&& stored(after, pointed[key]) == stored(before, index[key])
    } by {
        if merged.local().contains_key(key) {
            assert(pointed[key] == entries_of(merged)[key]);
        } else {
            assert(pointed[key] == index[key]);
            assert(leads_to(before, index[key], key));
            let place = place_of(before, index[key].segment_num);
            if place < last {
                assert(lies_before(before, index[key], last, 0));
            }
            assert(before[last].bytes() + Seq::<u8>::empty() == before[last].bytes());
            lemma_entry_kept(before, after, index[key], key, 1, Seq::<u8>::empty());
        }
    }
    assert(pointed.dom() =~= index.dom());
    assert forall|pos: int| #[trigger]
        is_start(merged.bytes(), pos) && pos < merged.bytes().len() implies {
        &&& parse_at(merged.bytes(), pos) is Live
        &&& pointed.contains_key(key_of(parse_at(merged.bytes(), pos)))
        &&& pointed[key_of(parse_at(merged.bytes(), pos))] == (HashMemEntry {
            segment_num: merged.number(),
            pos: pos as u64,
        })
    } by {
        let key = key_of(parse_at(merged.bytes(), pos));
        assert(merged.local().contains_key(key));
        assert(pointed[key] == entries_of(merged)[key]);
    }
}

/// Compaction keeps a store such that opening its segments anew gives its
/// index.
pub proof fn lemma_compacted_recoverable(
    before: Seq<FileSegment>,
    index: Map<Seq<u8>, HashMemEntry>,
    merged: FileSegment,
    after: Seq<FileSegment>,
)
    requires
        segments_wf(before),
        before.len() >= 2,
        index == recovered(before),
        merged.wf(),
        merged.number() == before[0].number(),
        merged.local() == replay(merged.bytes()),
        holds_copies(before, index, merged, before.len() - 1, 0),
        copied_before(before, index, merged, before.len() - 1, 0),
        after == seq![merged, before.last()],
    ensures
        index.union_prefer_right(entries_of(merged)) == recovered(after),
{
    let last = before.len() - 1;
    let active = before[last];
    let pointed = index.union_prefer_right(entries_of(merged));
    lemma_recovered_entries(before);
    lemma_place_of(before, last);
    assert forall|key: Seq<u8>|
        #![trigger pointed.contains_key(key)]
        #![trigger recovered(after).contains_key(key)]
        pointed.contains_key(key) == recovered(after).contains_key(key) && (pointed.contains_key(
            key,
        ) ==> pointed[key] == recovered(after)[key]) by {
        lemma_newest_with(before, key);
        lemma_newest_with(after, key);
        let old_place = newest_with(before, key);
        if keeps(active, key) {
            lemma_newest_is(after, key, 1);
            assert(old_place == last);
            assert(index[key] == entry_in(active, key));
            assert(!merged.local().contains_key(key));
        } else if merged.local().contains_key(key) {
            assert(keeps(merged, key));
            lemma_newest_is(after, key, 0);
        } else {
            lemma_newest_is(after, key, -1);
            if index.contains_key(key) {
                assert(old_place < last);
                lemma_place_of(before, old_place);
                assert(lies_before(before, index[key], last, 0));
            }
        }
    }
    assert(pointed =~= recovered(after));
}

} // verus!
