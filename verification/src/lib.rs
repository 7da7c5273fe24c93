//! An order-preserving codec for typed key tuples.
//!
//! A [`Tuple`] is an ordered sequence of typed elements (null, byte strings,
//! text, nested tuples, integers, floating-point bit patterns, booleans,
//! UUIDs and versionstamps). [`Tuple::pack`] encodes it into a byte sequence
//! whose unsigned lexicographic order matches the semantic order of the
//! elements, and [`Tuple::from_bytes`] decodes such a byte sequence back.
//! The contracts of both are stated against the specification in
//! [`encoding`]: packing emits exactly the specified bytes, decoding
//! accepts exactly the well-formed encodings and returns a tuple that
//! re-encodes to its input, and [`laws`] proves the encoding injective, so
//! decoding a packed tuple can only give that tuple back.

pub mod bigint;
pub mod decoder;
pub mod element;
pub mod encoder;
pub mod encoding;
pub mod error;
pub mod key_util;
pub mod laws;
pub mod locator;
pub mod order;
pub mod range;
pub mod subspace;
pub mod tuple;
pub mod uuid;
pub mod versionstamp;

pub use error::{FdbError, FdbResult};
pub use range::{Range, RangeOptions, StreamingMode};
pub use subspace::Subspace;
pub use tuple::Tuple;
pub use versionstamp::Versionstamp;
