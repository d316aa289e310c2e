//! Error kinds surfaced by the store.
//!
//! Reads may fail because a name was never saved (`NotFound`) or because a
//! block referenced by a saved name is missing from the block table
//! (`CorruptDatabase`). The `Io` variants stand for failures of the byte
//! source or sink that feeds the library; the in-memory operations in this
//! crate never produce them, but callers that stream from readers and
//! writers report their failures through the same enums.

use vstd::prelude::*;

verus! {

/// Why a save failed.
#[derive(Debug)]
pub enum SaveError {
    /// The byte source failed while it was being drained.
    Io,
}

/// The name that was asked for has no file entry.
#[derive(Debug)]
pub struct NotFoundError {}

/// A block key referenced by a file entry is absent from the block table.
#[derive(Debug)]
pub struct CorruptDatabaseError {}

/// Why a load failed.
#[derive(Debug)]
pub enum LoadError {
    /// The byte sink failed while blocks were being written out.
    Io,
    /// The name has no file entry.
    NotFound(NotFoundError),
    /// The keylist references a block that the block table does not hold.
    CorruptDatabase(CorruptDatabaseError),
}

} // verus!
