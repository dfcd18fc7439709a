//! What can go wrong in the store.

use vstd::prelude::*;

verus! {

/// Why an operation of the store failed. A key that is not there is no
/// failure: `read` and `delete` report it in their result.
#[derive(Debug, Clone, Copy, PartialEq, Eq, Structural)]
pub enum StoreError {
    /// The key is longer than a record has room for.
    KeyTooLarge,
    /// The value is longer than a record has room for.
    ValueTooLarge,
    /// A record is not what the index or the layout says it is.
    Corruption,
    /// The store was used before `init`.
    Uninitialized,
    /// A new segment is due and no sequence number is left for it.
    SequenceOverflow,
}

impl StoreError {
    /// The words for each error.
    pub open spec fn text(&self) -> Seq<char> {
        match self {
            StoreError::KeyTooLarge => "Key too large"@,
            StoreError::ValueTooLarge => "Value too large"@,
            StoreError::Corruption => "Corrupted data"@,
            StoreError::Uninitialized => "Uninitialized database"@,
            StoreError::SequenceOverflow => "No segment number left"@,
        }
    }

    /// A short description, for messages.
    pub fn message(&self) -> (text: &'static str)
        ensures
            text@ == self.text(),
    {
        match self {
            StoreError::KeyTooLarge => "Key too large",
            StoreError::ValueTooLarge => "Value too large",
            StoreError::Corruption => "Corrupted data",
            StoreError::Uninitialized => "Uninitialized database",
            StoreError::SequenceOverflow => "No segment number left",
        }
    }
}

} // verus!
