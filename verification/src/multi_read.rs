//! The in-memory image of a database file.
//!
//! Every part of the reader works against this one image, so lookups,
//! scans and lazy value reads can all be served from the same bytes
//! without a shared cursor.

use vstd::prelude::*;

verus! {

/// Owns the bytes of the database file and hands them to any number of
/// readers.
#[derive(Debug)]
pub struct MultiRead {
    pub bytes: Vec<u8>,
}

impl View for MultiRead {
    type V = Seq<u8>;

    open spec fn view(&self) -> Seq<u8> {
        self.bytes@
    }
}

impl MultiRead {
    /// Wraps a file image.
    pub fn new(bytes: Vec<u8>) -> (r: Self)
        ensures
            r@ == bytes@,
    {
        MultiRead { bytes }
    }

    /// Releases the file image.
    pub fn into_inner(self) -> (r: Vec<u8>)
        ensures
            r@ == self@,
    {
        self.bytes
    }

    /// The number of bytes in the image.
    pub fn len(&self) -> (n: usize)
        ensures
            n == self@.len(),
    {
        self.bytes.len()
    }
}

} // verus!
