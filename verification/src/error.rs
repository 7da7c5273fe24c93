//! Error type shared by the tuple codec and its helpers.
//!
//! Every recoverable failure is reported as an [`FdbError`] carrying one of
//! the error codes below; no function in this crate panics on inputs that
//! satisfy its stated preconditions.

use vstd::prelude::*;

verus! {

/// Decoding failed: unrecognized type code, truncated payload, or invalid
/// UTF-8 in a text element.
pub const TUPLE_FROM_BYTES: i32 = 100;

/// A typed accessor was called on an absent element, an element of another
/// type, or a stored integer outside the requested width.
pub const TUPLE_GET: i32 = 101;

/// Packing with a versionstamp found no unresolved versionstamp.
pub const TUPLE_PACK_WITH_VERSIONSTAMP_NOT_FOUND: i32 = 102;

/// Packing with a versionstamp found more than one unresolved versionstamp.
pub const TUPLE_PACK_WITH_VERSIONSTAMP_MULTIPLE_FOUND: i32 = 103;

/// The versionstamp offset does not fit in the 4-byte little-endian trailer.
pub const TUPLE_PACK_WITH_VERSIONSTAMP_OFFSET_OVERFLOW: i32 = 104;

/// `strinc` was given an empty key or a key consisting only of `0xFF` bytes.
pub const TUPLE_KEY_UTIL_STRINC_ERROR: i32 = 105;

/// `Subspace::pack_with_versionstamp` was called on a subspace whose prefix
/// already contains an unresolved versionstamp.
pub const SUBSPACE_PACK_WITH_VERSIONSTAMP_PREFIX_INCOMPLETE: i32 = 106;

/// `Subspace::unpack` was given a key that does not start with the
/// subspace prefix.
pub const SUBSPACE_UNPACK_KEY_MISMATCH: i32 = 107;

/// An error identified by one of the error codes in this module.
#[derive(Clone, Copy, Debug, PartialEq, Eq, Structural)]
pub struct FdbError {
    pub error_code: i32,
}

impl FdbError {
    /// Wrap an error code.
    pub fn new(error_code: i32) -> (r: FdbError)
        ensures
            r.error_code == error_code,
    {
        FdbError { error_code }
    }

    /// The error code carried by this error.
    pub fn code(&self) -> (r: i32)
        ensures
            r == self.error_code,
    {
        self.error_code
    }
}

/// Alias for results whose error side is [`FdbError`].
pub type FdbResult<T> = Result<T, FdbError>;

} // verus!
