//! What every store offers: five operations, each of which can fail.

use vstd::prelude::*;
use crate::error::StoreError;

verus! {

/// A key-value store. A key that is not there is no failure: `read` gives
/// no value for it.
pub trait Database {
    /// Whether the state is one that the operations work on, and keep.
    spec fn wf(&self) -> bool;

    /// What `read` gives for `key` in this state.
    spec fn read_result(&self, key: Seq<u8>) -> Result<Option<Seq<u8>>, StoreError>;

    /// Empties the store. An emptied store has no value for any key.
    fn reset(&mut self) -> (r: Result<(), StoreError>)
        requires
            old(self).wf(),
        ensures
            final(self).wf(),
            r is Ok ==> forall|key: Seq<u8>| #[trigger]
                final(self).read_result(key) == Ok::<Option<Seq<u8>>, StoreError>(None),
    ;

    /// Opens the store. An open store answers every `read`.
    fn init(&mut self) -> (r: Result<(), StoreError>)
        requires
            old(self).wf(),
        ensures
            final(self).wf(),
            r is Ok ==> forall|key: Seq<u8>| #[trigger]
                final(self).read_result(key) != Err::<Option<Seq<u8>>, StoreError>(
                    StoreError::Uninitialized,
                ),
    ;

    /// Keeps `value` for `key`. Every other key reads as before, and where
    /// the write fails, every key does.
    fn write(&mut self, key: &[u8], value: &[u8]) -> (r: Result<(), StoreError>)
        requires
            old(self).wf(),
        ensures
            final(self).wf(),
            forall|other: Seq<u8>|
                other != key@ || r is Err ==> #[trigger] final(self).read_result(other) == old(
                    self,
                ).read_result(other),
    ;

    /// The value that the store has for `key`, if it has one.
    fn read(&self, key: &[u8]) -> (r: Result<Option<Vec<u8>>, StoreError>)
        requires
            self.wf(),
        ensures
            match r {
                Ok(Some(value)) => self.read_result(key@) == Ok::<Option<Seq<u8>>, StoreError>(
                    Some(value@),
                ),
                Ok(None) => self.read_result(key@) == Ok::<Option<Seq<u8>>, StoreError>(None),
                Err(e) => self.read_result(key@) == Err::<Option<Seq<u8>>, StoreError>(e),
            },
    ;

    /// Takes `key` out of the store. Every other key reads as before.
    fn delete(&mut self, key: &[u8]) -> (r: Result<bool, StoreError>)
        requires
            old(self).wf(),
        ensures
            final(self).wf(),
            forall|other: Seq<u8>|
                other != key@ ==> #[trigger] final(self).read_result(other) == old(
                    self,
                ).read_result(other),
    ;
}

} // verus!
