//! What opening a store finds: the index that the logs of its segments
//! give, the newest segment deciding for each key.

use vstd::prelude::*;
use crate::hash::HashMemEntry;
use crate::log::replay;
use crate::segment::FileSegment;

verus! {

/// Whether the log of a segment, read alone, keeps `key`.
pub open spec fn keeps(segment: FileSegment, key: Seq<u8>) -> bool {
    replay(segment.bytes()).contains_key(key)
}

/// The place of the last segment that keeps `key`, or -1 where none does.
pub open spec fn newest_with(segments: Seq<FileSegment>, key: Seq<u8>) -> int
    decreases segments.len(),
{
    if segments.len() == 0 {
        -1
    } else if keeps(segments.last(), key) {
        segments.len() - 1
    } else {
        newest_with(segments.drop_last(), key)
    }
}

/// The entry that a segment gives for a key that it keeps.
pub open spec fn entry_in(segment: FileSegment, key: Seq<u8>) -> HashMemEntry {
    HashMemEntry { segment_num: segment.number(), pos: replay(segment.bytes())[key] }
}

/// The index that opening the segments gives: each key that some segment
/// keeps, with the entry of the last segment that keeps it.
pub open spec fn recovered(segments: Seq<FileSegment>) -> Map<Seq<u8>, HashMemEntry> {
    Map::new(
        |key: Seq<u8>| newest_with(segments, key) >= 0,
        |key: Seq<u8>| entry_in(segments[newest_with(segments, key)], key),
    )
}

/// The last segment that keeps a key keeps it, and none after it does.
pub proof fn lemma_newest_with(segments: Seq<FileSegment>, key: Seq<u8>)
    ensures
        -1 <= newest_with(segments, key) < segments.len(),
        newest_with(segments, key) >= 0 ==> keeps(segments[newest_with(segments, key)], key),
        forall|a: int|
            newest_with(segments, key) < a < segments.len() ==> !keeps(
                #[trigger] segments[a],
                key,
            ),
    decreases segments.len(),
{
    if segments.len() > 0 && !keeps(segments.last(), key) {
        let before = segments.drop_last();
        lemma_newest_with(before, key);
        assert forall|a: int| newest_with(segments, key) < a < segments.len() implies !keeps(
            #[trigger] segments[a],
            key,
        ) by {
            if a < before.len() {
                assert(before[a] == segments[a]);
            }
        }
    }
}

/// A segment that keeps a key, with none after it that does, is the last
/// that keeps it.
pub proof fn lemma_newest_is(segments: Seq<FileSegment>, key: Seq<u8>, place: int)
    requires
        -1 <= place < segments.len(),
        place >= 0 ==> keeps(segments[place], key),
        forall|a: int| place < a < segments.len() ==> !keeps(#[trigger] segments[a], key),
    ensures
        newest_with(segments, key) == place,
{
    lemma_newest_with(segments, key);
    let found = newest_with(segments, key);
    if found > place {
        assert(!keeps(segments[found], key));
    }
}

/// Segments with the same numbers and the same bytes give the same index.
pub proof fn lemma_recovered_same(one: Seq<FileSegment>, other: Seq<FileSegment>)
    requires
        one.len() == other.len(),
        forall|a: int|
            0 <= a < one.len() ==> (#[trigger] one[a]).number() == other[a].number() && one[a].bytes()
                == other[a].bytes(),
    ensures
        recovered(one) == recovered(other),
{
    assert forall|key: Seq<u8>| newest_with(one, key) == newest_with(other, key) by {
        lemma_newest_with(one, key);
        let place = newest_with(one, key);
        assert forall|a: int| place < a < other.len() implies !keeps(#[trigger] other[a], key) by {
            assert(!keeps(one[a], key));
        }
        lemma_newest_is(other, key, place);
    }
    assert(recovered(one) =~= recovered(other)) by {
        assert forall|key: Seq<u8>| recovered(one).contains_key(key) implies #[trigger] recovered(
            one,
        )[key] == recovered(other)[key] by {
            lemma_newest_with(one, key);
            let place = newest_with(one, key);
            assert(one[place].number() == other[place].number());
        }
    }
}

/// Whether a segment before the last one keeps `key`.
pub open spec fn kept_before_last(segments: Seq<FileSegment>, key: Seq<u8>) -> bool {
    exists|a: int| 0 <= a < segments.len() - 1 && keeps(#[trigger] segments[a], key)
}

/// A new segment without records changes nothing in what opening gives.
pub proof fn lemma_recovered_pushed(segments: Seq<FileSegment>, fresh: FileSegment)
    requires
        replay(fresh.bytes()) == Map::<Seq<u8>, u64>::empty(),
    ensures
        recovered(segments.push(fresh)) == recovered(segments),
{
    let longer = segments.push(fresh);
    assert(longer.drop_last() == segments);
    assert forall|key: Seq<u8>| newest_with(longer, key) == newest_with(segments, key) by {
        assert(!keeps(longer.last(), key));
    }
    assert(recovered(longer) =~= recovered(segments)) by {
        assert forall|key: Seq<u8>| recovered(longer).contains_key(key) implies #[trigger] recovered(
            longer,
        )[key] == recovered(segments)[key] by {
            lemma_newest_with(segments, key);
            assert(longer[newest_with(segments, key)] == segments[newest_with(segments, key)]);
        }
    }
}

/// Whether two lists of segments differ in the bytes of the last segment
/// only.
pub open spec fn same_but_last(before: Seq<FileSegment>, after: Seq<FileSegment>) -> bool {
    &&& before.len() == after.len()
    &&& before.len() > 0
    &&& before.drop_last() == after.drop_last()
    &&& before.last().number() == after.last().number()
}

/// When the last segment gets a live record, opening gives what it gave
/// before, with the record's key at the record's place.
pub proof fn lemma_recovered_written(
    before: Seq<FileSegment>,
    after: Seq<FileSegment>,
    key: Seq<u8>,
    pos: u64,
)
    requires
        same_but_last(before, after),
        replay(after.last().bytes()) == replay(before.last().bytes()).insert(key, pos),
    ensures
        recovered(after) == recovered(before).insert(
            key,
            HashMemEntry { segment_num: after.last().number(), pos },
        ),
{
    let last = before.len() - 1;
    let target = recovered(before).insert(
        key,
        HashMemEntry { segment_num: after.last().number(), pos },
    );
    assert forall|other: Seq<u8>|
        #![trigger recovered(after).contains_key(other)]
        #![trigger target.contains_key(other)]
        recovered(after).contains_key(other) == target.contains_key(other) && (recovered(
            after,
        ).contains_key(other) ==> recovered(after)[other] == target[other]) by {
        lemma_newest_with(before, other);
        lemma_newest_with(after, other);
        if other != key {
            assert(keeps(after.last(), other) == keeps(before.last(), other));
            if !keeps(after.last(), other) {
                let place = newest_with(before, other);
                if place >= 0 {
                    assert(before.drop_last()[place] == before[place]);
                    assert(after.drop_last()[place] == after[place]);
                }
            }
        }
    }
    assert(recovered(after) =~= target);
}

/// When the last segment gets a tombstone for a key that no earlier
/// segment keeps, opening gives what it gave before, without the key.
pub proof fn lemma_recovered_deleted(
    before: Seq<FileSegment>,
    after: Seq<FileSegment>,
    key: Seq<u8>,
)
    requires
        same_but_last(before, after),
        replay(after.last().bytes()) == replay(before.last().bytes()).remove(key),
        !kept_before_last(before, key),
    ensures
        recovered(after) == recovered(before).remove(key),
{
    let last = before.len() - 1;
    let target = recovered(before).remove(key);
    assert forall|other: Seq<u8>|
        #![trigger recovered(after).contains_key(other)]
        #![trigger target.contains_key(other)]
        recovered(after).contains_key(other) == target.contains_key(other) && (recovered(
            after,
        ).contains_key(other) ==> recovered(after)[other] == target[other]) by {
        lemma_newest_with(before, other);
        lemma_newest_with(after, other);
        if other != key {
            assert(keeps(after.last(), other) == keeps(before.last(), other));
            if !keeps(after.last(), other) {
                let place = newest_with(before, other);
                if place >= 0 {
                    assert(before.drop_last()[place] == before[place]);
                    assert(after.drop_last()[place] == after[place]);
                }
            }
        } else {
            let place = newest_with(after, key);
            if place >= 0 {
                assert(place < last);
                assert(after.drop_last()[place] == after[place]);
                assert(before.drop_last()[place] == before[place]);
                assert(keeps(before[place], key));
            }
        }
    }
    assert(recovered(after) =~= target);
}

} // verus!
