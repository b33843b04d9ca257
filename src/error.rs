//! The errors of the library.
use vstd::prelude::*;

verus! {

/// Why a run cannot go on.
#[derive(Clone, Copy, Debug, PartialEq, Eq, Structural)]
pub enum FileError {
    /// A line of the index does not hold a digest, a size and a path.
    CorruptIndex,
    /// A fingerprint group has no record that is kept in the store.
    MissingCanonical,
    /// The command is not one of the known ones.
    BadCommand,
}

impl FileError {
    /// A message for the operator.
    pub fn message(&self) -> (r: &'static str) {
        match self {
            FileError::CorruptIndex => "corrupt index",
            FileError::MissingCanonical => "no stored file for a group",
            FileError::BadCommand => "bad command",
        }
    }
}

} // verus!
