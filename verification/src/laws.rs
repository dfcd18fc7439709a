//! What holds of the store as a whole, stated over the relations that the
//! contracts of its operations establish.

use vstd::prelude::*;
use crate::data::{
    is_trimmed, lemma_key_round_trip, lemma_parse_appended_live, lemma_parse_appended_tombstone,
    live_record, parse_at, storable_key, tombstone_record, Parsed, HEADER_LEN,
};
use crate::directory::{
    is_segment_file, lemma_segment_name_injective, names_segment, segment_name, DirFile,
};
use crate::error::StoreError;
use crate::hash::{
    compacted, deleted, lemma_entry_kept, lemma_recovered_entries, opened, place_of, same_files,
    segments_wf, stored, wrote, HashMemEntry,
};
use crate::ifc::Database;
use crate::recovery::{lemma_recovered_same, recovered};
use crate::segment::{
    ascending, clean_part, has_number, opened_from, opens, total_size, FileSegment,
};

verus! {

/// A record is read back as it was written: a live record gives its key and
/// its value, a tombstone its key, and the next record starts where the
/// record ends. This holds of every key that fits the key field and does
/// not end in a zero byte.
pub proof fn law_record_round_trip(key: Seq<u8>, value: Seq<u8>)
    requires
        storable_key(key),
        value.len() <= u64::MAX,
    ensures
        parse_at(live_record(key, value), 0) == (Parsed::Live {
            key,
            value,
            next: HEADER_LEN + value.len(),
        }),
        live_record(key, value).len() == HEADER_LEN + value.len(),
        parse_at(tombstone_record(key), 0) == (Parsed::Tombstone { key, next: HEADER_LEN as int }),
        tombstone_record(key).len() == HEADER_LEN,
{
    let nothing = Seq::<u8>::empty();
    lemma_key_round_trip(key);
    lemma_parse_appended_live(nothing, key, value);
    lemma_parse_appended_tombstone(nothing, key);
    assert(nothing + live_record(key, value) == live_record(key, value));
    assert(nothing + tombstone_record(key) == tombstone_record(key));
}

/// What was written for a key is read for that key, whichever segment the
/// record went to. This holds of every key that does not end in a zero
/// byte.
pub proof fn law_round_trip(
    before: crate::hash::Hash,
    after: crate::hash::Hash,
    key: Seq<u8>,
    value: Seq<u8>,
)
    requires
        wrote(before, after, key, value),
        is_trimmed(key),
    ensures
        after.read_result(key) == Ok::<Option<Seq<u8>>, StoreError>(Some(value)),
{
}

/// Of two values written for one key, the second is read, and the first is
/// not.
pub proof fn law_overwrite(
    start: crate::hash::Hash,
    middle: crate::hash::Hash,
    end: crate::hash::Hash,
    key: Seq<u8>,
    first: Seq<u8>,
    second: Seq<u8>,
)
    requires
        wrote(start, middle, key, first),
        wrote(middle, end, key, second),
        is_trimmed(key),
    ensures
        end.read_result(key) == Ok::<Option<Seq<u8>>, StoreError>(Some(second)),
        first != second ==> end.read_result(key) != Ok::<Option<Seq<u8>>, StoreError>(Some(first)),
{
}

/// A write changes what is read for its own key only: every other key reads
/// as before, whether or not the write made a new segment the active one.
pub proof fn law_write_keeps_others(
    before: crate::hash::Hash,
    after: crate::hash::Hash,
    key: Seq<u8>,
    value: Seq<u8>,
    other: Seq<u8>,
)
    requires
        wrote(before, after, key, value),
        other != key,
    ensures
        after.read_result(other) == before.read_result(other),
        after.delete_result(other) == before.delete_result(other),
{
}

/// A write that finds the active segment full makes a new segment, with the
/// next number, the active one, and the store reads as after any other
/// write: its own key has the new value, every other key reads as before,
/// whichever segment holds its record.
pub proof fn law_rotation(
    before: crate::hash::Hash,
    after: crate::hash::Hash,
    key: Seq<u8>,
    value: Seq<u8>,
    other: Seq<u8>,
)
    requires
        wrote(before, after, key, value),
        before.is_full(),
    ensures
        after.segments().len() == before.segments().len() + 1,
        after.active().number() == before.active().number() + 1,
        is_trimmed(key) ==> after.read_result(key) == Ok::<Option<Seq<u8>>, StoreError>(
            Some(value),
        ),
        other != key ==> after.read_result(other) == before.read_result(other),
{
    assert(after.segments().drop_last().len() == after.segments().len() - 1);
}

/// A key that was written and then deleted is not found, and the delete
/// says that the key was there.
pub proof fn law_delete_hides(
    start: crate::hash::Hash,
    middle: crate::hash::Hash,
    end: crate::hash::Hash,
    key: Seq<u8>,
    value: Seq<u8>,
)
    requires
        wrote(start, middle, key, value),
        deleted(middle, end, key),
    ensures
        middle.delete_result(key) == Ok::<bool, StoreError>(true),
        end.read_result(key) == Ok::<Option<Seq<u8>>, StoreError>(None),
        end.delete_result(key) == Ok::<bool, StoreError>(false),
{
}

/// A delete changes what is read for its own key only.
pub proof fn law_delete_keeps_others(
    before: crate::hash::Hash,
    after: crate::hash::Hash,
    key: Seq<u8>,
    other: Seq<u8>,
)
    requires
        deleted(before, after, key),
        other != key,
    ensures
        after.read_result(other) == before.read_result(other),
{
}

/// In an open store in which nothing was written for a key, deleting the
/// key says that it was not there, and changes nothing.
pub proof fn law_delete_absent(before: crate::hash::Hash, after: crate::hash::Hash, key: Seq<u8>)
    requires
        before.is_initialized(),
        !before.index().contains_key(key),
        deleted(before, after, key),
    ensures
        before.delete_result(key) == Ok::<bool, StoreError>(false),
        after.segments() == before.segments(),
        after.index() == before.index(),
        after@ == before@,
{
    assert(after.index() =~= before.index());
    assert(after@ =~= before@);
}

/// After compaction every key reads as before: a key with a value has the
/// same value, a deleted key is not found. The segments take no more bytes
/// than before.
pub proof fn law_compaction(before: crate::hash::Hash, after: crate::hash::Hash, key: Seq<u8>)
    requires
        compacted(before, after),
    ensures
        after.read_result(key) == before.read_result(key),
        total_size(after.segments()) <= total_size(before.segments()),
{
    assert(after.index().dom().contains(key) == before.index().dom().contains(key));
}

/// Two lists of segments in the order of their numbers that hold the same
/// numbers are equally long and have the same number at each place.
proof fn lemma_same_numbers(one: Seq<FileSegment>, other: Seq<FileSegment>, upto: int)
    requires
        ascending(one),
        ascending(other),
        forall|a: int| 0 <= a < one.len() ==> has_number(other, (#[trigger] one[a]).number()),
        forall|b: int| 0 <= b < other.len() ==> has_number(one, (#[trigger] other[b]).number()),
        0 <= upto,
    ensures
        forall|a: int|
            0 <= a < upto && a < one.len() && a < other.len() ==> (#[trigger] one[a]).number()
                == other[a].number(),
        one.len() == other.len(),
    decreases upto,
{
    if upto > 0 {
        lemma_same_numbers(one, other, upto - 1);
        let a = upto - 1;
        if a < one.len() && a < other.len() {
            let b = choose|b: int| 0 <= b < other.len() && (#[trigger] other[b]).number() == one[a].number();
            if b < a {
                assert(one[b].number() == other[b].number());
                assert(one[b].number() < one[a].number());
            }
            let c = choose|c: int| 0 <= c < one.len() && (#[trigger] one[c]).number() == other[a].number();
            if c < a {
                assert(one[c].number() == other[c].number());
                assert(other[c].number() < other[a].number());
            }
            if a < b {
                assert(other[a].number() < other[b].number());
            }
            if a < c {
                assert(one[a].number() < one[c].number());
            }
        }
    } else {
        lemma_same_length(one, other);
        lemma_same_length(other, one);
    }
}

/// Of two lists of segments in the order of their numbers, the one whose
/// numbers all stand in the other is not the longer one.
proof fn lemma_same_length(one: Seq<FileSegment>, other: Seq<FileSegment>)
    requires
        ascending(one),
        ascending(other),
        forall|a: int| 0 <= a < one.len() ==> has_number(other, (#[trigger] one[a]).number()),
    ensures
        one.len() <= other.len(),
    decreases one.len(),
{
    if one.len() > 0 {
        let last = one.len() - 1;
        let b = choose|b: int| 0 <= b < other.len() && (#[trigger] other[b]).number() == one[last].number();
        let shorter = one.drop_last();
        let cut = other.subrange(0, b);
        assert(ascending(shorter)) by {
            assert forall|x: int, y: int| 0 <= x < y < shorter.len() implies (#[trigger] shorter[x]).number()
                < (#[trigger] shorter[y]).number() by {
                assert(one[x].number() < one[y].number());
            }
        }
        assert(ascending(cut)) by {
            assert forall|x: int, y: int| 0 <= x < y < cut.len() implies (#[trigger] cut[x]).number() < (
            #[trigger] cut[y]).number() by {
                assert(other[x].number() < other[y].number());
            }
        }
        assert forall|a: int| 0 <= a < shorter.len() implies has_number(
            cut,
            (#[trigger] shorter[a]).number(),
        ) by {
            assert(shorter[a] == one[a]);
            assert(has_number(other, one[a].number()));
            let c = choose|c: int| 0 <= c < other.len() && (#[trigger] other[c]).number() == one[a].number();
            assert(one[a].number() < one[last].number());
            if c >= b {
                if c > b {
                    assert(other[b].number() < other[c].number());
                }
            }
            assert(cut[c] == other[c]);
        }
        lemma_same_length(shorter, cut);
    }
}

/// The segments that opening a directory gives are the segments whose
/// files the directory holds.
proof fn lemma_reopened_files(
    ours: Seq<FileSegment>,
    files: Seq<DirFile>,
    theirs: Seq<FileSegment>,
)
    requires
        ascending(ours),
        forall|a: int| 0 <= a < ours.len() ==> (#[trigger] ours[a]).wf(),
        files.len() == ours.len(),
        forall|a: int|
            0 <= a < ours.len() ==> (#[trigger] files[a]).name@ == segment_name(ours[a].number())
                && files[a].data@ == ours[a].bytes(),
        opens(files, theirs),
    ensures
        same_files(ours, theirs),
{
    assert forall|a: int| 0 <= a < ours.len() implies has_number(theirs, (#[trigger] ours[a]).number()) by {
        assert(names_segment(files, a, ours[a].number()));
    }
    assert forall|b: int| 0 <= b < theirs.len() implies has_number(ours, (#[trigger] theirs[b]).number())
        && exists|a: int|
        0 <= a < ours.len() && ours[a].number() == theirs[b].number() && ours[a].bytes()
            == theirs[b].bytes() by {
        assert(opened_from(files, theirs[b]));
        let j = choose|j: int| #[trigger]
            is_segment_file(files, j, theirs[b].number()) && theirs[b].bytes() == clean_part(
                files[j].data@,
            );
        lemma_segment_name_injective(ours[j].number(), theirs[b].number());
        ours[j].lemma_wf();
        assert(clean_part(ours[j].bytes()) == ours[j].bytes());
    }
    lemma_same_numbers(ours, theirs, ours.len() as int);
    assert forall|a: int| 0 <= a < ours.len() implies (#[trigger] ours[a]).bytes() == theirs[a].bytes() by {
        let c = choose|c: int|
            0 <= c < ours.len() && ours[c].number() == theirs[a].number() && ours[c].bytes()
                == theirs[a].bytes();
        if c < a {
            assert(ours[c].number() < ours[a].number());
        } else if a < c {
            assert(ours[a].number() < ours[c].number());
        }
    }
}

/// Opening the directory of a store anew gives the store again: the same
/// files, the same index, the same keys and values. This holds of a store
/// whose index is what its records give, which every operation keeps so
/// but a write of a key that ends in a zero byte and a delete of a key of
/// which an older segment still keeps a record.
pub proof fn law_reopen(
    store: crate::hash::Hash,
    files: Seq<DirFile>,
    closed: crate::hash::Hash,
    reopened: crate::hash::Hash,
)
    requires
        store.wf(),
        store.is_initialized(),
        store.listing().len() == 0,
        store.is_recoverable(),
        store.is_directory(files),
        !closed.is_initialized(),
        closed.listing() == files,
        opened(closed, reopened),
    ensures
        same_files(store.segments(), reopened.segments()),
        reopened.index() == store.index(),
        reopened@ == store@,
{
    let ours = store.segments();
    let theirs = reopened.segments();
    assert forall|a: int| 0 <= a < ours.len() implies (#[trigger] files[a]).name@ == segment_name(
        ours[a].number(),
    ) && files[a].data@ == ours[a].bytes() by {
        assert(files[store.listing().len() + a].name@ == segment_name(ours[a].number()));
    }
    assert(names_segment(files, 0, ours[0].number()));
    lemma_reopened_files(ours, files, theirs);
    lemma_recovered_same(ours, theirs);
    lemma_same_values(ours, theirs, store.index());
    assert(reopened@ =~= store@);
}

/// The entries of an index lead to the same values in two lists of
/// segments that are the same files.
proof fn lemma_same_values(
    ours: Seq<FileSegment>,
    theirs: Seq<FileSegment>,
    index: Map<Seq<u8>, HashMemEntry>,
)
    requires
        segments_wf(ours),
        same_files(ours, theirs),
        index == recovered(ours),
    ensures
        forall|key: Seq<u8>| #[trigger]
            index.contains_key(key) ==> stored(theirs, index[key])
                == stored(ours, index[key]),
{
    assert(ascending(theirs)) by {
        assert forall|x: int, y: int| 0 <= x < y < theirs.len() implies (#[trigger] theirs[x]).number()
            < (#[trigger] theirs[y]).number() by {
            assert(ours[x].number() < ours[y].number());
        }
    }
    assert forall|key: Seq<u8>| #[trigger] index.contains_key(key) implies stored(
        theirs,
        index[key],
    ) == stored(ours, index[key]) by {
        lemma_recovered_entries(ours);
        let entry = index[key];
        let place = place_of(ours, entry.segment_num);
        assert(ours[place].number() == theirs[place].number());
        assert(theirs[place].bytes() == ours[place].bytes() + Seq::<u8>::empty());
        lemma_entry_kept(ours, theirs, entry, key, place, Seq::<u8>::empty());
    }
}

} // verus!
