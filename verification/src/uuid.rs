//! A 128-bit RFC 4122 identifier, stored as its 16 raw bytes.

use vstd::prelude::*;

verus! {

/// A 128-bit identifier. Tuples store and compare it by its 16 raw bytes.
#[derive(Clone, Debug, PartialEq, Eq, PartialOrd, Ord, Hash)]
pub struct Uuid {
    pub bytes: Vec<u8>,
}

impl View for Uuid {
    type V = Seq<u8>;

    open spec fn view(&self) -> Seq<u8> {
        self.bytes@
    }
}

impl Uuid {
    /// The 16 raw bytes are the whole value.
    pub open spec fn wf(&self) -> bool {
        self.bytes@.len() == 16
    }

    /// Build a [`Uuid`] from its 16 raw bytes.
    pub fn from_bytes(bytes: Vec<u8>) -> (r: Uuid)
        requires
            bytes@.len() == 16,
        ensures
            r@ == bytes@,
            r.wf(),
    {
        Uuid { bytes }
    }

    /// The 16 raw bytes of this identifier.
    pub fn as_bytes(&self) -> (r: &Vec<u8>)
        ensures
            r@ == self@,
    {
        &self.bytes
    }
}

} // verus!
