//! Errors surfaced by persistence: reading or writing the archived model.

use vstd::prelude::*;

verus! {

/// Everything that can go wrong while saving or loading a model.
///
/// Opening or creating the file itself is the caller's business; these
/// cover the archive container and the binary encoding inside it.
#[derive(Debug)]
pub enum Error {
    /// The bytes could not be read as a valid archive container.
    CouldNotReadZip,
    /// The archive holds no readable first entry.
    CouldNotReadFirstFile,
    /// An entry could not be created inside the archive container.
    CouldNotCreateZipEntry,
    /// The stored bytes do not match the expected binary encoding.
    CouldNotDeserialize,
    /// The in-memory model could not be serialized.
    CouldNotSerialize,
}

} // verus!
