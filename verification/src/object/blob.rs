//! Blobs: uninterpreted file contents.

use vstd::prelude::*;

verus! {

/// A Git blob: a byte sequence without internal structure.
#[derive(Clone, Debug, PartialEq, Eq)]
pub struct Blob {
    pub data: Vec<u8>,
}

impl Blob {
    /// A blob of the given bytes.
    pub fn new(data: Vec<u8>) -> (r: Blob)
        ensures
            r.data@ == data@,
    {
        Blob { data }
    }
}

impl Default for Blob {
    fn default() -> (r: Blob)
        ensures
            r.data@ == Seq::<u8>::empty(),
    {
        Blob { data: Vec::new() }
    }
}

} // verus!
