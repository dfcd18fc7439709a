//! A log as a chain of records: where reading it stops, which positions are
//! starts of records, and the index that reading it from the start gives.

use vstd::prelude::*;
use crate::data::{
    is_record, key_of, lemma_parse_prefix, lemma_parse_stable, next_of, parse_at, Parsed,
};

verus! {

/// Whether a whole record stands at `pos`, so that reading goes on after it.
pub open spec fn steps(data: Seq<u8>, pos: int) -> bool {
    is_record(parse_at(data, pos))
}

/// Where the record after the one at `pos` starts.
pub open spec fn next_pos(data: Seq<u8>, pos: int) -> int {
    next_of(parse_at(data, pos))
}

/// Where reading the log from `pos` on stops: the first position at which
/// no whole record stands.
pub open spec fn scan_stop(data: Seq<u8>, pos: int) -> int
    decreases data.len() - pos,
{
    if steps(data, pos) {
        scan_stop(data, next_pos(data, pos))
    } else {
        pos
    }
}

/// The length of the part of the log that is made of whole records.
pub open spec fn clean_len(data: Seq<u8>) -> int {
    scan_stop(data, 0)
}

/// A log that is made of whole records and nothing else.
pub open spec fn is_clean(data: Seq<u8>) -> bool {
    clean_len(data) == data.len()
}

/// A log in which reading stops at bytes that are no record and that no
/// interrupted write explains.
pub open spec fn is_damaged(data: Seq<u8>) -> bool {
    parse_at(data, clean_len(data)) is Malformed
}

/// Whether reading the log from `from` on comes to `pos` as the start of a
/// record, or as the place where it stops.
pub open spec fn reaches(data: Seq<u8>, from: int, pos: int) -> bool
    decreases data.len() - from,
{
    from == pos || (steps(data, from) && reaches(data, next_pos(data, from), pos))
}

/// Whether `pos` is a position that reading the log from its start comes to.
pub open spec fn is_start(data: Seq<u8>, pos: int) -> bool {
    reaches(data, 0, pos)
}

/// An index after the record `p`, which stands at `pos`, has been applied to
/// it: a live record puts its key at its position, a tombstone takes its key
/// out.
pub open spec fn applied(acc: Map<Seq<u8>, u64>, p: Parsed, pos: int) -> Map<Seq<u8>, u64> {
    match p {
        Parsed::Live { key, .. } => acc.insert(key, pos as u64),
        Parsed::Tombstone { key, .. } => acc.remove(key),
        _ => acc,
    }
}

/// The index after the records from `pos` on have been applied to `acc`.
pub open spec fn replay_from(data: Seq<u8>, pos: int, acc: Map<Seq<u8>, u64>) -> Map<Seq<u8>, u64>
    decreases data.len() - pos,
{
    if steps(data, pos) {
        replay_from(data, next_pos(data, pos), applied(acc, parse_at(data, pos), pos))
    } else {
        acc
    }
}

/// The index that reading the log from its start gives: for each key whose
/// last record is live, the position of that record.
pub open spec fn replay(data: Seq<u8>) -> Map<Seq<u8>, u64> {
    replay_from(data, 0, Map::empty())
}

/// Whether the live record of `key` stands at `pos`, at a place that reading
/// the log comes to.
pub open spec fn holds_live(data: Seq<u8>, pos: int, key: Seq<u8>) -> bool {
    &&& is_start(data, pos)
    &&& parse_at(data, pos) is Live
    &&& key_of(parse_at(data, pos)) == key
}

/// The value of the live record at `pos`.
pub open spec fn value_at(data: Seq<u8>, pos: int) -> Seq<u8> {
    match parse_at(data, pos) {
        Parsed::Live { value, .. } => value,
        _ => Seq::empty(),
    }
}

/// Reading stops inside the log, at a place that it comes to.
pub proof fn lemma_scan_stop(data: Seq<u8>, pos: int)
    requires
        0 <= pos <= data.len(),
    ensures
        pos <= scan_stop(data, pos) <= data.len(),
        reaches(data, pos, scan_stop(data, pos)),
        !steps(data, scan_stop(data, pos)),
    decreases data.len() - pos,
{
    if steps(data, pos) {
        lemma_scan_stop(data, next_pos(data, pos));
    }
}

/// What reading comes to lies at or after where it started, inside the log.
pub proof fn lemma_reaches_bounds(data: Seq<u8>, from: int, pos: int)
    requires
        0 <= from <= data.len(),
        reaches(data, from, pos),
    ensures
        from <= pos <= data.len(),
    decreases data.len() - from,
{
    if from != pos {
        lemma_reaches_bounds(data, next_pos(data, from), pos);
    }
}

/// Reading that comes to a record comes to the record after it.
pub proof fn lemma_reaches_next(data: Seq<u8>, from: int, pos: int)
    requires
        0 <= from <= data.len(),
        reaches(data, from, pos),
        steps(data, pos),
    ensures
        reaches(data, from, next_pos(data, pos)),
    decreases data.len() - from,
{
    if from == pos {
        assert(reaches(data, next_pos(data, pos), next_pos(data, pos)));
    } else {
        lemma_reaches_next(data, next_pos(data, from), pos);
    }
}

/// No start of a record lies inside another record.
pub proof fn lemma_no_start_inside(data: Seq<u8>, from: int, at: int, pos: int)
    requires
        0 <= from <= data.len(),
        reaches(data, from, at),
        reaches(data, from, pos),
        steps(data, at),
        at <= pos < next_pos(data, at),
    ensures
        pos == at,
    decreases data.len() - from,
{
    if from == at {
        if from != pos {
            lemma_reaches_bounds(data, next_pos(data, from), pos);
        }
    } else if from == pos {
        lemma_reaches_bounds(data, next_pos(data, from), at);
    } else {
        lemma_no_start_inside(data, next_pos(data, from), at, pos);
    }
}

/// Where reading comes to no whole record, it stops.
pub proof fn lemma_reaches_stop(data: Seq<u8>, from: int, pos: int)
    requires
        0 <= from <= data.len(),
        reaches(data, from, pos),
        !steps(data, pos),
    ensures
        scan_stop(data, from) == pos,
    decreases data.len() - from,
{
    if from != pos {
        lemma_reaches_stop(data, next_pos(data, from), pos);
    }
}

/// What reading comes to, it still comes to when the log has grown.
pub proof fn lemma_reaches_grown(data: Seq<u8>, more: Seq<u8>, from: int, pos: int)
    requires
        0 <= from <= data.len(),
        reaches(data, from, pos),
    ensures
        reaches(data + more, from, pos),
    decreases data.len() - from,
{
    if from != pos {
        lemma_parse_stable(data, more, from);
        lemma_reaches_grown(data, more, next_pos(data, from), pos);
    }
}

/// What reading a clean log with one more record comes to is what reading
/// the shorter log came to, or the end of the longer one.
pub proof fn lemma_reaches_in_grown(data: Seq<u8>, record: Seq<u8>, from: int, pos: int)
    requires
        0 <= from <= data.len(),
        scan_stop(data, from) == data.len(),
        steps(data + record, data.len() as int),
        next_pos(data + record, data.len() as int) == (data + record).len(),
        reaches(data + record, from, pos),
    ensures
        reaches(data, from, pos) || pos == (data + record).len(),
    decreases data.len() - from,
{
    let grown = data + record;
    if from != pos {
        if steps(data, from) {
            lemma_parse_stable(data, record, from);
            lemma_scan_stop(data, next_pos(data, from));
            lemma_reaches_in_grown(data, record, next_pos(data, from), pos);
        } else {
            let end = grown.len() as int;
            assert(from == data.len());
            assert(reaches(grown, end, pos));
            assert(!steps(grown, end));
        }
    }
}

/// A live record stays where it is when the log grows.
pub proof fn lemma_holds_live_grown(data: Seq<u8>, more: Seq<u8>, pos: int, key: Seq<u8>)
    requires
        holds_live(data, pos, key),
    ensures
        holds_live(data + more, pos, key),
        value_at(data + more, pos) == value_at(data, pos),
{
    lemma_reaches_grown(data, more, 0, pos);
    lemma_parse_stable(data, more, pos);
}

/// Every entry of the index that reading gives is the position of a live
/// record of its key, if that holds of the entries that reading started
/// with.
pub proof fn lemma_replay_from_entries(data: Seq<u8>, pos: int, acc: Map<Seq<u8>, u64>)
    requires
        data.len() <= u64::MAX,
        is_start(data, pos),
        forall|key: Seq<u8>| #[trigger]
            acc.contains_key(key) ==> holds_live(data, acc[key] as int, key),
    ensures
        forall|key: Seq<u8>| #[trigger]
            replay_from(data, pos, acc).contains_key(key) ==> holds_live(
                data,
                replay_from(data, pos, acc)[key] as int,
                key,
            ),
    decreases data.len() - pos,
{
    lemma_reaches_bounds(data, 0, pos);
    if steps(data, pos) {
        let next = next_pos(data, pos);
        let after = applied(acc, parse_at(data, pos), pos);
        lemma_reaches_next(data, 0, pos);
        assert forall|key: Seq<u8>| #[trigger] after.contains_key(key) implies holds_live(
            data,
            after[key] as int,
            key,
        ) by {
            if !acc.contains_key(key) || after[key] != acc[key] {
                assert(parse_at(data, pos) is Live);
                assert(key == key_of(parse_at(data, pos)));
            }
        }
        lemma_replay_from_entries(data, next, after);
        assert(replay_from(data, pos, acc) == replay_from(data, next, after));
    } else {
        assert(replay_from(data, pos, acc) == acc);
    }
}

/// Every entry of the index of a log is the position of a live record of
/// its key.
pub proof fn lemma_replay_entries(data: Seq<u8>)
    requires
        data.len() <= u64::MAX,
    ensures
        forall|key: Seq<u8>| #[trigger]
            replay(data).contains_key(key) ==> holds_live(data, replay(data)[key] as int, key),
{
    lemma_replay_from_entries(data, 0, Map::empty());
}

/// When a log that is read to its end gets one more record, reading the
/// longer log gives the index of the shorter one with that record applied,
/// and the longer log is read to its end too.
pub proof fn lemma_replay_from_grown(
    data: Seq<u8>,
    record: Seq<u8>,
    pos: int,
    acc: Map<Seq<u8>, u64>,
)
    requires
        0 <= pos <= data.len(),
        scan_stop(data, pos) == data.len(),
        steps(data + record, data.len() as int),
        next_pos(data + record, data.len() as int) == (data + record).len(),
    ensures
        replay_from(data + record, pos, acc) == applied(
            replay_from(data, pos, acc),
            parse_at(data + record, data.len() as int),
            data.len() as int,
        ),
        scan_stop(data + record, pos) == (data + record).len(),
    decreases data.len() - pos,
{
    let grown = data + record;
    if steps(data, pos) {
        lemma_parse_stable(data, record, pos);
        lemma_replay_from_grown(
            data,
            record,
            next_pos(data, pos),
            applied(acc, parse_at(data, pos), pos),
        );
    } else {
        let end = grown.len() as int;
        assert(!steps(grown, end));
        assert(scan_stop(grown, end) == end);
        assert(scan_stop(grown, pos) == scan_stop(grown, end));
        let after = applied(acc, parse_at(grown, pos), pos);
        assert(replay_from(grown, end, after) == after);
        assert(replay_from(grown, pos, acc) == replay_from(grown, end, after));
    }
}

/// A clean log with one more record is clean, and its index is that of the
/// shorter log with the record applied.
pub proof fn lemma_replay_grown(data: Seq<u8>, record: Seq<u8>)
    requires
        is_clean(data),
        steps(data + record, data.len() as int),
        next_pos(data + record, data.len() as int) == (data + record).len(),
    ensures
        is_clean(data + record),
        replay(data + record) == applied(
            replay(data),
            parse_at(data + record, data.len() as int),
            data.len() as int,
        ),
        is_start(data + record, data.len() as int),
{
    lemma_replay_from_grown(data, record, 0, Map::empty());
    lemma_scan_stop(data, 0);
    lemma_reaches_grown(data, record, 0, data.len() as int);
}

/// Cutting a log where reading stops leaves a clean log with the same
/// index.
pub proof fn lemma_replay_from_cut(data: Seq<u8>, pos: int, acc: Map<Seq<u8>, u64>)
    requires
        0 <= pos <= data.len(),
    ensures
        replay_from(data.subrange(0, scan_stop(data, pos)), pos, acc) == replay_from(data, pos, acc),
        scan_stop(data.subrange(0, scan_stop(data, pos)), pos) == scan_stop(data, pos),
    decreases data.len() - pos,
{
    let stop = scan_stop(data, pos);
    lemma_scan_stop(data, pos);
    let cut = data.subrange(0, stop);
    if steps(data, pos) {
        let next = next_pos(data, pos);
        lemma_scan_stop(data, next);
        lemma_parse_prefix(data, stop, pos);
        lemma_replay_from_cut(data, next, applied(acc, parse_at(data, pos), pos));
    } else {
        assert(!steps(cut, pos));
    }
}

/// The clean part of a log is a clean log with the index of the whole.
pub proof fn lemma_replay_cut(data: Seq<u8>)
    ensures
        0 <= clean_len(data) <= data.len(),
        is_clean(data.subrange(0, clean_len(data))),
        replay(data.subrange(0, clean_len(data))) == replay(data),
{
    lemma_scan_stop(data, 0);
    lemma_replay_from_cut(data, 0, Map::empty());
}

} // verus!
