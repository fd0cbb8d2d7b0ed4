//! The capability interface for append-only log storage. The relay core does
//! not use it; a backend (such as one over a file) lives with the program
//! around the library and implements it there.
use vstd::prelude::*;

verus! {

/// The failure a storage backend reports, as text.
pub struct StorageError {
    pub message: String,
}

/// Append-only log storage.
pub trait LogStorage {
    /// Appends `data` as one entry, creating the log if it does not exist
    /// yet, and returns the number of bytes written.
    fn append_or_create(&mut self, data: String) -> Result<usize, StorageError>;

    /// Retrieves every entry of the log.
    fn get(&mut self) -> Result<Vec<String>, StorageError>;
}

} // verus!
