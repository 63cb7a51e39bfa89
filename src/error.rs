//! The errors every fallible operation of the store reports.
use vstd::prelude::*;

verus! {

/// Why an operation on a store failed.
#[derive(Debug, Clone, Copy, PartialEq, Eq, Structural)]
pub enum ClogError {
    /// The header or the catalog is malformed, or a value no longer fits
    /// the header's fixed-width fields.
    Format,
    /// Authenticated decryption failed: a wrong password or tampered bytes.
    Crypto,
    /// No folder or no entry has the given name.
    NotFound,
    /// An entry of that name already exists in the folder.
    AlreadyExists,
    /// The folder no longer accepts writes.
    ReadOnly,
    /// Reading or writing the underlying file failed.
    Io,
}

} // verus!
