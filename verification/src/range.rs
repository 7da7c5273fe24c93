//! An exact range of the keyspace and the options of a range read.

use vstd::prelude::*;

use crate::key_util::{rstrip_xff_spec, strinc};

verus! {

/// Streaming modes a range read can use to balance latency and bandwidth.
#[derive(Clone, Copy, Debug, PartialEq, Eq, Structural)]
pub enum StreamingMode {
    /// The client intends to consume the entire range as fast as possible.
    WantAll,
    /// The client does not know ahead how far it will iterate.
    Iterator,
    /// The client has given an exact limit.
    Exact,
    /// Few, small batches.
    Small,
    /// Medium batches.
    Medium,
    /// Large batches.
    Large,
    /// All data in one batch.
    Serial,
}

/// An exact range of keyspace: an inclusive begin key and an exclusive end
/// key.
#[derive(Clone, Debug, PartialEq)]
pub struct Range {
    pub begin: Vec<u8>,
    pub end: Vec<u8>,
}

impl Range {
    /// Construct a new range from an inclusive begin key and an exclusive
    /// end key.
    pub fn new(begin: Vec<u8>, end: Vec<u8>) -> (r: Range)
        ensures
            r.begin@ == begin@,
            r.end@ == end@,
    {
        Range { begin, end }
    }

    /// The range of all keys prefixed by `prefix_key`, which must contain at
    /// least one byte other than `0xFF`.
    pub fn starts_with(prefix_key: Vec<u8>) -> (r: Range)
        requires
            exists|j: int| 0 <= j < prefix_key@.len() && prefix_key@[j] != 0xFF,
        ensures
            r.begin@ == prefix_key@,
            r.end@ == rstrip_xff_spec(prefix_key@).drop_last().push(
                (rstrip_xff_spec(prefix_key@).last() + 1) as u8,
            ),
    {
        let end_key = match strinc(clone_bytes(&prefix_key)) {
            Ok(k) => k,
            Err(_) => {
                proof {
                    assert(false);
                }
                Vec::new()
            },
        };
        Range { begin: prefix_key, end: end_key }
    }

    /// The inclusive beginning of the range.
    pub fn begin(&self) -> (r: &Vec<u8>)
        ensures
            r@ == self.begin@,
    {
        &self.begin
    }

    /// The exclusive end of the range.
    pub fn end(&self) -> (r: &Vec<u8>)
        ensures
            r@ == self.end@,
    {
        &self.end
    }
}

/// Copy a byte vector.
pub fn clone_bytes(b: &Vec<u8>) -> (r: Vec<u8>)
    ensures
        r@ == b@,
{
    vstd::slice::slice_to_vec(b.as_slice())
}

/// Options of a range read: a limit on the number of key-value pairs (zero
/// meaning no limit), a streaming mode, and whether the read runs in
/// reverse lexicographic order.
#[derive(Clone, Debug)]
pub struct RangeOptions {
    pub limit: i32,
    pub mode: StreamingMode,
    pub reverse: bool,
}

impl RangeOptions {
    /// Set the limit.
    pub fn set_limit(&mut self, limit: i32)
        ensures
            final(self).limit == limit,
            final(self).mode == old(self).mode,
            final(self).reverse == old(self).reverse,
    {
        self.limit = limit;
    }

    /// Get the limit.
    pub fn get_limit(&self) -> (r: i32)
        ensures
            r == self.limit,
    {
        self.limit
    }

    /// Set the streaming mode.
    pub fn set_mode(&mut self, mode: StreamingMode)
        ensures
            final(self).mode == mode,
            final(self).limit == old(self).limit,
            final(self).reverse == old(self).reverse,
    {
        self.mode = mode;
    }

    /// Get the streaming mode.
    pub fn get_mode(&self) -> (r: StreamingMode)
        ensures
            r == self.mode,
    {
        self.mode
    }

    /// Set the read order: lexicographic when false, reverse lexicographic
    /// when true.
    pub fn set_reverse(&mut self, reverse: bool)
        ensures
            final(self).reverse == reverse,
            final(self).limit == old(self).limit,
            final(self).mode == old(self).mode,
    {
        self.reverse = reverse;
    }

    /// Get the read order.
    pub fn get_reverse(&self) -> (r: bool)
        ensures
            r == self.reverse,
    {
        self.reverse
    }

    /// Construct options with the given limit, mode and order.
    pub fn new(limit: i32, mode: StreamingMode, reverse: bool) -> (r: RangeOptions)
        ensures
            r.limit == limit,
            r.mode == mode,
            r.reverse == reverse,
    {
        RangeOptions { limit, mode, reverse }
    }
}

impl Default for RangeOptions {
    /// No limit, iterator streaming mode, lexicographic order.
    fn default() -> (r: RangeOptions)
        ensures
            r.limit == 0,
            r.mode == StreamingMode::Iterator,
            !r.reverse,
    {
        RangeOptions { limit: 0, mode: StreamingMode::Iterator, reverse: false }
    }
}

} // verus!
