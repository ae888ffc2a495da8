//! File contents by path.

use vstd::prelude::*;

use crate::bytemap::ByteMap;

verus! {

/// Why a file could not be read or written.
#[derive(Clone, Copy, Debug, PartialEq, Eq, Structural)]
pub enum IoError {
    /// There is no such file.
    NotFound,
    /// A file stands where a directory is needed.
    NotADirectory,
    /// A directory stands where a file is needed.
    IsADirectory,
    /// Something else stands where a directory or a link is to be made.
    AlreadyExists,
    /// Links lead to links without end.
    TooManyLinks,
    /// The path leads out of the tree, where nothing is known.
    Outside,
    /// The contents are not valid UTF-8.
    InvalidData,
    /// A text that no link can hold.
    InvalidInput,
    /// Compression reported an error.
    Compression,
}

/// The files of a directory: contents by path.
pub type Files = ByteMap<Vec<u8>>;

} // verus!
