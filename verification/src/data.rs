//! The record codec: how one log entry is laid out in bytes, and how a log is
//! read back entry by entry.
//!
//! A record is, in this order and without padding between the fields:
//! the length of the value as eight little-endian bytes, one flag byte
//! (0 for a live record, 1 for a tombstone), the key field of `KEY_MAX_LEN`
//! bytes, and the value. A tombstone has length 0 and no value.

use vstd::prelude::*;
use vstd::bytes::*;
use vstd::slice::*;
use crate::error::StoreError;

verus! {

/// Width of the key field of every record. A key is at most this long.
pub const KEY_MAX_LEN: usize = 128;

/// Bytes of a record before its value: the value length, the tombstone flag
/// and the key field.
pub const HEADER_LEN: usize = 137;

/// One record as it was read: a live one with its key and value, or a
/// tombstone with its key.
#[derive(Debug, PartialEq, Eq)]
pub enum ReadResult {
    /// A live record: its key and its value.
    Success(Vec<u8>, Vec<u8>),
    /// A tombstone: its key.
    Deleted(Vec<u8>),
}

/// Why no record was read at a position.
#[derive(Debug, Clone, Copy, PartialEq, Eq, Structural)]
pub enum DecodeError {
    /// The position is the end of the log.
    EndOfSegment,
    /// The log ends inside the record: the rest of an interrupted write.
    Truncated,
    /// The bytes are not a record, and no interrupted write explains them.
    Malformed,
}

/// What stands at a position of a log.
pub enum Parsed {
    /// A live record, and where the next record starts.
    Live { key: Seq<u8>, value: Seq<u8>, next: int },
    /// A tombstone, and where the next record starts.
    Tombstone { key: Seq<u8>, next: int },
    /// Nothing: the position is the end of the log, or lies outside it.
    End,
    /// The start of a record that the log ends in.
    Truncated,
    /// Bytes that are no record: a flag that is neither 0 nor 1, or a
    /// tombstone with a length.
    Malformed,
}

/// `n` zero bytes.
pub open spec fn zeros(n: nat) -> Seq<u8> {
    Seq::new(n, |i: int| 0u8)
}

/// The key field of a record: the key, left-justified, filled up with zero
/// bytes to `KEY_MAX_LEN`.
pub open spec fn padded_key(key: Seq<u8>) -> Seq<u8>
    recommends
        key.len() <= KEY_MAX_LEN,
{
    key + zeros((KEY_MAX_LEN - key.len()) as nat)
}

/// A key field without its trailing zero bytes.
pub open spec fn trimmed(field: Seq<u8>) -> Seq<u8>
    decreases field.len(),
{
    if field.len() > 0 && field.last() == 0 {
        trimmed(field.drop_last())
    } else {
        field
    }
}

/// A key that comes back from its key field as it went in: it does not end
/// in a zero byte.
pub open spec fn is_trimmed(key: Seq<u8>) -> bool {
    key.len() == 0 || key.last() != 0
}

/// A key that the store keeps and finds again: it fits the key field and
/// survives the trimming.
pub open spec fn storable_key(key: Seq<u8>) -> bool {
    key.len() <= KEY_MAX_LEN && is_trimmed(key)
}

/// The bytes of a live record.
pub open spec fn live_record(key: Seq<u8>, value: Seq<u8>) -> Seq<u8>
    recommends
        key.len() <= KEY_MAX_LEN,
        value.len() <= u64::MAX,
{
    spec_u64_to_le_bytes(value.len() as u64) + seq![0u8] + padded_key(key) + value
}

/// The bytes of a tombstone.
pub open spec fn tombstone_record(key: Seq<u8>) -> Seq<u8>
    recommends
        key.len() <= KEY_MAX_LEN,
{
    spec_u64_to_le_bytes(0u64) + seq![1u8] + padded_key(key)
}

/// What stands at `pos` in `data`.
pub open spec fn parse_at(data: Seq<u8>, pos: int) -> Parsed {
    if pos < 0 || pos >= data.len() {
        Parsed::End
    } else if data.len() - pos < HEADER_LEN {
        Parsed::Truncated
    } else {
        let value_len = spec_u64_from_le_bytes(data.subrange(pos, pos + 8));
        let flag = data[pos + 8];
        let key = trimmed(data.subrange(pos + 9, pos + HEADER_LEN));
        let body = pos + HEADER_LEN;
        if flag == 1 {
            if value_len == 0 {
                Parsed::Tombstone { key, next: body }
            } else {
                Parsed::Malformed
            }
        } else if flag == 0 {
            if data.len() - body < value_len {
                Parsed::Truncated
            } else {
                Parsed::Live { key, value: data.subrange(body, body + value_len), next: body + value_len }
            }
        } else {
            Parsed::Malformed
        }
    }
}

/// Whether a whole record stands at `pos`.
pub open spec fn is_record(p: Parsed) -> bool {
    p is Live || p is Tombstone
}

/// Where the record after the one at `pos` starts.
pub open spec fn next_of(p: Parsed) -> int
    recommends
        is_record(p),
{
    match p {
        Parsed::Live { next, .. } => next,
        Parsed::Tombstone { next, .. } => next,
        _ => 0,
    }
}

/// The key of the record at `pos`.
pub open spec fn key_of(p: Parsed) -> Seq<u8>
    recommends
        is_record(p),
{
    match p {
        Parsed::Live { key, .. } => key,
        Parsed::Tombstone { key, .. } => key,
        _ => Seq::empty(),
    }
}

/// Trimming gives a prefix of the field that is itself trimmed.
pub proof fn lemma_trimmed_is_prefix(field: Seq<u8>)
    ensures
        trimmed(field).len() <= field.len(),
        trimmed(field) == field.subrange(0, trimmed(field).len() as int),
        is_trimmed(trimmed(field)),
        forall|i: int| trimmed(field).len() <= i < field.len() ==> field[i] == 0,
    decreases field.len(),
{
    if field.len() > 0 && field.last() == 0 {
        let shorter = field.drop_last();
        lemma_trimmed_is_prefix(shorter);
        assert(trimmed(field) == shorter.subrange(0, trimmed(field).len() as int));
        assert(shorter.subrange(0, trimmed(field).len() as int) == field.subrange(
            0,
            trimmed(field).len() as int,
        ));
        assert forall|i: int| trimmed(field).len() <= i < field.len() implies field[i] == 0 by {
            if i < shorter.len() {
                assert(field[i] == shorter[i]);
            }
        }
    } else {
        assert(field == field.subrange(0, field.len() as int));
    }
}

/// A trimmed key followed by zero bytes trims back to the key.
pub proof fn lemma_trimmed_after_zeros(key: Seq<u8>, n: nat)
    requires
        is_trimmed(key),
    ensures
        trimmed(key + zeros(n)) == key,
    decreases n,
{
    let field = key + zeros(n);
    if n == 0 {
        assert(field == key);
    } else {
        assert(field.last() == 0);
        assert(field.drop_last() == key + zeros((n - 1) as nat));
        lemma_trimmed_after_zeros(key, (n - 1) as nat);
    }
}

/// A key that fits and does not end in a zero byte comes back from its key
/// field unchanged.
pub proof fn lemma_key_round_trip(key: Seq<u8>)
    requires
        storable_key(key),
    ensures
        trimmed(padded_key(key)) == key,
{
    lemma_trimmed_after_zeros(key, (KEY_MAX_LEN - key.len()) as nat);
}

/// A key field is the padded form of the key that it trims to.
pub proof fn lemma_field_is_padded(field: Seq<u8>)
    requires
        field.len() == KEY_MAX_LEN,
    ensures
        storable_key(trimmed(field)),
        padded_key(trimmed(field)) == field,
{
    lemma_trimmed_is_prefix(field);
    assert(padded_key(trimmed(field)) =~= field);
}

/// A live record that was appended to a log is read back at the old end of
/// the log, and the log ends after it.
pub proof fn lemma_parse_appended_live(data: Seq<u8>, key: Seq<u8>, value: Seq<u8>)
    requires
        key.len() <= KEY_MAX_LEN,
        value.len() <= u64::MAX,
    ensures
        parse_at(data + live_record(key, value), data.len() as int) == (Parsed::Live {
            key: trimmed(padded_key(key)),
            value,
            next: data.len() + HEADER_LEN + value.len(),
        }),
        (data + live_record(key, value)).len() == data.len() + HEADER_LEN + value.len(),
{
    lemma_auto_spec_u64_to_from_le_bytes();
    let record = live_record(key, value);
    let all = data + record;
    let pos = data.len() as int;
    let len_bytes = spec_u64_to_le_bytes(value.len() as u64);
    assert(len_bytes.len() == 8);
    assert(record.len() == HEADER_LEN + value.len());
    assert(all.subrange(pos, pos + 8) =~= len_bytes);
    assert(all[pos + 8] == 0u8);
    assert(all.subrange(pos + 9, pos + HEADER_LEN) =~= padded_key(key));
    assert(all.subrange(pos + HEADER_LEN, pos + HEADER_LEN + value.len()) =~= value);
}

/// A tombstone that was appended to a log is read back at the old end of the
/// log, and the log ends after it.
pub proof fn lemma_parse_appended_tombstone(data: Seq<u8>, key: Seq<u8>)
    requires
        key.len() <= KEY_MAX_LEN,
    ensures
        parse_at(data + tombstone_record(key), data.len() as int) == (Parsed::Tombstone {
            key: trimmed(padded_key(key)),
            next: data.len() + HEADER_LEN,
        }),
        (data + tombstone_record(key)).len() == data.len() + HEADER_LEN,
{
    lemma_auto_spec_u64_to_from_le_bytes();
    let record = tombstone_record(key);
    let all = data + record;
    let pos = data.len() as int;
    let len_bytes = spec_u64_to_le_bytes(0u64);
    assert(len_bytes.len() == 8);
    assert(record.len() == HEADER_LEN);
    assert(all.subrange(pos, pos + 8) =~= len_bytes);
    assert(all[pos + 8] == 1u8);
    assert(all.subrange(pos + 9, pos + HEADER_LEN) =~= padded_key(key));
}

/// A whole record stays what it is when the log grows.
pub proof fn lemma_parse_stable(data: Seq<u8>, more: Seq<u8>, pos: int)
    requires
        is_record(parse_at(data, pos)),
    ensures
        parse_at(data + more, pos) == parse_at(data, pos),
        0 <= pos < next_of(parse_at(data, pos)) <= data.len(),
{
    let all = data + more;
    assert(all.subrange(pos, pos + 8) =~= data.subrange(pos, pos + 8));
    assert(all.subrange(pos + 9, pos + HEADER_LEN) =~= data.subrange(pos + 9, pos + HEADER_LEN));
    let value_len = spec_u64_from_le_bytes(data.subrange(pos, pos + 8));
    if data[pos + 8] == 0 {
        let body = pos + HEADER_LEN;
        assert(all.subrange(body, body + value_len) =~= data.subrange(body, body + value_len));
    }
}

/// A whole record stays what it is when the log is cut after it.
pub proof fn lemma_parse_prefix(data: Seq<u8>, end: int, pos: int)
    requires
        is_record(parse_at(data, pos)),
        next_of(parse_at(data, pos)) <= end <= data.len(),
    ensures
        parse_at(data.subrange(0, end), pos) == parse_at(data, pos),
{
    let cut = data.subrange(0, end);
    assert(cut.subrange(pos, pos + 8) =~= data.subrange(pos, pos + 8));
    assert(cut.subrange(pos + 9, pos + HEADER_LEN) =~= data.subrange(pos + 9, pos + HEADER_LEN));
    let value_len = spec_u64_from_le_bytes(data.subrange(pos, pos + 8));
    if data[pos + 8] == 0 {
        let body = pos + HEADER_LEN;
        assert(cut.subrange(body, body + value_len) =~= data.subrange(body, body + value_len));
    }
}

/// How many bytes of a key field are left after trimming.
fn trimmed_len(field: &[u8]) -> (n: usize)
    ensures
        n <= field@.len(),
        trimmed(field@) == field@.subrange(0, n as int),
{
    let mut n: usize = field.len();
    assert(field@.subrange(0, n as int) == field@);
    while n > 0 && field[n - 1] == 0
        invariant
            n <= field@.len(),
            trimmed(field@) == trimmed(field@.subrange(0, n as int)),
        decreases n,
    {
        assert(field@.subrange(0, n as int).drop_last() == field@.subrange(0, n - 1));
        n = n - 1;
    }
    n
}

/// Whether a key comes back from its key field as it went in.
pub fn is_trimmed_key(key: &[u8]) -> (plain: bool)
    ensures
        plain == is_trimmed(key@),
{
    key.len() == 0 || key[key.len() - 1] != 0
}

/// Lays a key out as the fixed-width key field.
pub fn key_to_bin(key: &[u8]) -> (field: Vec<u8>)
    requires
        key@.len() <= KEY_MAX_LEN,
    ensures
        field@ == padded_key(key@),
{
    let mut field: Vec<u8> = Vec::with_capacity(KEY_MAX_LEN);
    let mut i: usize = 0;
    while i < key.len()
        invariant
            i <= key@.len(),
            field@ == key@.subrange(0, i as int),
        decreases key@.len() - i,
    {
        field.push(key[i]);
        i = i + 1;
    }
    while i < KEY_MAX_LEN
        invariant
            key@.len() <= i <= KEY_MAX_LEN,
            field@ == key@ + zeros((i - key@.len()) as nat),
        decreases KEY_MAX_LEN - i,
    {
        field.push(0u8);
        i = i + 1;
    }
    field
}

/// Appends the bytes of `more` to `data`.
pub fn append_bytes(data: &mut Vec<u8>, more: &[u8])
    ensures
        final(data)@ == old(data)@ + more@,
{
    let mut i: usize = 0;
    while i < more.len()
        invariant
            i <= more@.len(),
            data@ == old(data)@ + more@.subrange(0, i as int),
        decreases more@.len() - i,
    {
        data.push(more[i]);
        i = i + 1;
    }
    assert(more@.subrange(0, i as int) == more@);
}

/// Reads the record that starts at `pos`, and says where the next one
/// starts. At the end of the log there is no record; a record that the log
/// ends in, or bytes that are no record, are told apart.
pub fn read_entry(data: &[u8], pos: u64) -> (r: Result<(ReadResult, u64), DecodeError>)
    ensures
        match r {
            Ok((ReadResult::Success(key, value), next)) => parse_at(data@, pos as int) == (
            Parsed::Live { key: key@, value: value@, next: next as int }),
            Ok((ReadResult::Deleted(key), next)) => parse_at(data@, pos as int) == (
            Parsed::Tombstone { key: key@, next: next as int }),
            Err(DecodeError::EndOfSegment) => parse_at(data@, pos as int) is End,
            Err(DecodeError::Truncated) => parse_at(data@, pos as int) is Truncated,
            Err(DecodeError::Malformed) => parse_at(data@, pos as int) is Malformed,
        },
{
    let len: usize = data.len();
    if pos >= len as u64 {
        return Err(DecodeError::EndOfSegment);
    }
    let start: usize = pos as usize;
    if len - start < HEADER_LEN {
        return Err(DecodeError::Truncated);
    }
    let body: usize = start + HEADER_LEN;
    let value_len: u64 = u64_from_le_bytes(slice_subrange(data, start, start + 8));
    let flag: u8 = data[start + 8];
    let field: &[u8] = slice_subrange(data, start + 9, body);
    let key_len: usize = trimmed_len(field);
    let key: Vec<u8> = slice_to_vec(slice_subrange(field, 0, key_len));
    if flag == 1 {
        if value_len == 0 {
            Ok((ReadResult::Deleted(key), body as u64))
        } else {
            Err(DecodeError::Malformed)
        }
    } else if flag == 0 {
        if ((len - body) as u64) < value_len {
            Err(DecodeError::Truncated)
        } else {
            let end: usize = body + value_len as usize;
            let value: Vec<u8> = slice_to_vec(slice_subrange(data, body, end));
            Ok((ReadResult::Success(key, value), end as u64))
        }
    } else {
        Err(DecodeError::Malformed)
    }
}

/// Appends a live record for `key` and `value` to the log and returns the
/// position at which it starts. A key that does not fit the key field is
/// refused, and the log stays as it was.
pub fn write_entry(data: &mut Vec<u8>, key: &[u8], value: &[u8]) -> (r: Result<u64, StoreError>)
    ensures
        key@.len() > KEY_MAX_LEN ==> r == Err::<u64, StoreError>(StoreError::KeyTooLarge)
            && final(data)@ == old(data)@,
        key@.len() <= KEY_MAX_LEN ==> r == Ok::<u64, StoreError>(old(data)@.len() as u64)
            && final(data)@ == old(data)@ + live_record(key@, value@),
{
    if key.len() > KEY_MAX_LEN {
        return Err(StoreError::KeyTooLarge);
    }
    let pos: u64 = data.len() as u64;
    let value_len: u64 = value.len() as u64;
    let len_bytes: Vec<u8> = u64_to_le_bytes(value_len);
    let field: Vec<u8> = key_to_bin(key);
    append_bytes(data, len_bytes.as_slice());
    data.push(0u8);
    append_bytes(data, field.as_slice());
    append_bytes(data, value);
    assert(data@ == old(data)@ + live_record(key@, value@));
    Ok(pos)
}

/// Appends a tombstone for `key` to the log. A key that does not fit the key
/// field is refused, and the log stays as it was.
pub fn delete_entry(data: &mut Vec<u8>, key: &[u8]) -> (r: Result<(), StoreError>)
    ensures
        key@.len() > KEY_MAX_LEN ==> r == Err::<(), StoreError>(StoreError::KeyTooLarge)
            && final(data)@ == old(data)@,
        key@.len() <= KEY_MAX_LEN ==> r == Ok::<(), StoreError>(())
            && final(data)@ == old(data)@ + tombstone_record(key@),
{
    if key.len() > KEY_MAX_LEN {
        return Err(StoreError::KeyTooLarge);
    }
    let len_bytes: Vec<u8> = u64_to_le_bytes(0u64);
    let field: Vec<u8> = key_to_bin(key);
    append_bytes(data, len_bytes.as_slice());
    data.push(1u8);
    append_bytes(data, field.as_slice());
    assert(data@ == old(data)@ + tombstone_record(key@));
    Ok(())
}

} // verus!
