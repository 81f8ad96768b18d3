//! Why reading an artifact back can fail.
use vstd::prelude::*;

verus! {

/// Why an artifact could not be read back.
#[derive(Debug, Clone, Copy, PartialEq, Eq, Structural)]
pub enum LoadError {
    /// The compressed frame could not be read.
    Frame,
    /// The bytes do not follow the artifact's layout: a length runs past the
    /// end, a string is not UTF-8, an ordinal does not fit, or bytes are left over.
    Layout,
    /// The index artifact holds more blocks than the bloom artifact.
    UnknownBlock,
    /// A block's index names a word twice, or lists ordinals out of order.
    BadIndex,
    /// A block's index names a record that its records artifact does not hold.
    MissingRecord,
    /// There is no block with that number.
    NoSuchBlock,
}

/// Why a query could not be answered from memory.
#[derive(Debug, Clone, Copy, PartialEq, Eq, Structural)]
pub enum QueryError {
    /// The block with this number passed the filter, but its records are
    /// still on disk: it must be loaded first.
    NotResident(usize),
}

/// Why a record could not be inserted yet.
#[derive(Debug, Clone, Copy, PartialEq, Eq, Structural)]
pub enum InsertError {
    /// The last block, which takes inserts until it is full, has its records
    /// still on disk: it must be loaded first, so that the new record gets the
    /// next ordinal after them.
    NotResident(usize),
}

} // verus!
