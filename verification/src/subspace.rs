//! A namespace for keys: a fixed byte prefix prepended to every tuple
//! packed inside it, and stripped again when unpacking.

use vstd::prelude::*;

use crate::element::{repr_encode_seq, repr_stamp_offsets, tv_canon_seq};
use crate::encoding::{incomplete_count_elements, le_bytes, spec_encode_elements};
use crate::error::{
    FdbError, FdbResult, SUBSPACE_PACK_WITH_VERSIONSTAMP_PREFIX_INCOMPLETE,
    SUBSPACE_UNPACK_KEY_MISMATCH, TUPLE_FROM_BYTES, TUPLE_PACK_WITH_VERSIONSTAMP_MULTIPLE_FOUND,
    TUPLE_PACK_WITH_VERSIONSTAMP_NOT_FOUND, TUPLE_PACK_WITH_VERSIONSTAMP_OFFSET_OVERFLOW,
};
use crate::range::{clone_bytes, Range};
use crate::tuple::Tuple;

verus! {

/// A namespace defined by a raw key prefix. The prefix of a subspace built
/// from a tuple with an unresolved versionstamp is not final, which the
/// flag records.
#[derive(Clone, Debug, Eq, PartialEq)]
pub struct Subspace {
    pub raw_prefix_has_incomplete_versionstamp: bool,
    pub raw_prefix: Vec<u8>,
}

impl Subspace {
    /// Whether `key` starts with this subspace's raw prefix.
    pub open spec fn spec_contains(&self, key: Seq<u8>) -> bool {
        self.raw_prefix@.len() <= key.len() && key.subrange(0, self.raw_prefix@.len() as int)
            == self.raw_prefix@
    }

    /// Create a new subspace with the given raw prefix.
    pub fn new(prefix_bytes: Vec<u8>) -> (r: Subspace)
        ensures
            r.raw_prefix@ == prefix_bytes@,
            !r.raw_prefix_has_incomplete_versionstamp,
    {
        Subspace { raw_prefix_has_incomplete_versionstamp: false, raw_prefix: prefix_bytes }
    }

    /// The subspace whose prefix is this subspace's prefix extended by the
    /// packed form of `tuple`.
    pub fn subspace(&self, tuple: &Tuple) -> (r: Subspace)
        requires
            tuple.wf(),
        ensures
            r.raw_prefix@ == self.raw_prefix@ + repr_encode_seq(tuple.elements@, false),
            tuple.tight() ==> r.raw_prefix@ == self.raw_prefix@ + spec_encode_elements(
                tuple@,
                false,
            ),
            r.raw_prefix_has_incomplete_versionstamp == (
            self.raw_prefix_has_incomplete_versionstamp || tuple.has_incomplete_versionstamp),
    {
        let mut raw_prefix = clone_bytes(&self.raw_prefix);
        let packed = tuple.pack();
        crate::encoder::push_all(&mut raw_prefix, packed.as_slice());
        Subspace {
            raw_prefix_has_incomplete_versionstamp: self.raw_prefix_has_incomplete_versionstamp
                || tuple.has_incomplete_versionstamp(),
            raw_prefix,
        }
    }

    /// Whether the given key starts with this subspace's prefix, so that the
    /// subspace logically contains it.
    pub fn contains(&self, key: &Vec<u8>) -> (r: bool)
        ensures
            r == self.spec_contains(key@),
    {
        crate::key_util::starts_with(key, &self.raw_prefix)
    }

    /// The key-encoding prefix of this subspace.
    pub fn pack(&self) -> (r: Vec<u8>)
        ensures
            r@ == self.raw_prefix@,
    {
        clone_bytes(&self.raw_prefix)
    }

    /// Pack `tuple` behind this subspace's prefix for a versionstamped-key
    /// write. Fails if the prefix itself contains an unresolved
    /// versionstamp, and otherwise exactly as [`Tuple::pack_with_versionstamp`].
    pub fn pack_with_versionstamp(&self, tuple: &Tuple) -> (r: FdbResult<Vec<u8>>)
        requires
            tuple.wf(),
        ensures
            self.raw_prefix_has_incomplete_versionstamp ==> (r matches Err(e) && e == (FdbError {
                error_code: SUBSPACE_PACK_WITH_VERSIONSTAMP_PREFIX_INCOMPLETE,
            })),
            !self.raw_prefix_has_incomplete_versionstamp ==> {
                &&& (r is Ok) <==> (incomplete_count_elements(tuple@) == 1
                    && self.raw_prefix@.len() + repr_stamp_offsets(tuple.elements@, false)
                    <= u32::MAX)
                &&& r matches Ok(v) ==> v@ == self.raw_prefix@ + repr_encode_seq(
                    tuple.elements@,
                    false,
                ) + le_bytes(
                    (self.raw_prefix@.len() + repr_stamp_offsets(tuple.elements@, false)) as nat,
                    4,
                )
                &&& incomplete_count_elements(tuple@) == 0 ==> (r matches Err(e) && e == (FdbError {
                    error_code: TUPLE_PACK_WITH_VERSIONSTAMP_NOT_FOUND,
                }))
                &&& incomplete_count_elements(tuple@) >= 2 ==> (r matches Err(e) && e == (FdbError {
                    error_code: TUPLE_PACK_WITH_VERSIONSTAMP_MULTIPLE_FOUND,
                }))
                &&& (incomplete_count_elements(tuple@) == 1 && self.raw_prefix@.len()
                    + repr_stamp_offsets(tuple.elements@, false) > u32::MAX) ==> (r matches Err(e)
                    && e == (FdbError { error_code: TUPLE_PACK_WITH_VERSIONSTAMP_OFFSET_OVERFLOW }))
                &&& r matches Ok(v) ==> (tv_canon_seq(tuple.elements@) ==> forall|j: int|
                    0 <= j < 10 ==> #[trigger] v@[self.raw_prefix@.len() + repr_stamp_offsets(
                        tuple.elements@,
                        false,
                    ) + j] == 0xFF)
            },
    {
        if self.raw_prefix_has_incomplete_versionstamp {
            Err(FdbError::new(SUBSPACE_PACK_WITH_VERSIONSTAMP_PREFIX_INCOMPLETE))
        } else {
            tuple.pack_with_versionstamp(clone_bytes(&self.raw_prefix))
        }
    }

    /// The range of all keys in this subspace strictly extending `tuple`.
    /// Neither the prefix nor the tuple may hold an unresolved versionstamp,
    /// since the packed bytes would not be final.
    pub fn range(&self, tuple: &Tuple) -> (r: Range)
        requires
            tuple.wf(),
            !self.raw_prefix_has_incomplete_versionstamp,
            !tuple.has_incomplete_versionstamp,
        ensures
            r.begin@ == self.raw_prefix@ + repr_encode_seq(tuple.elements@, false) + seq![0x00u8],
            r.end@ == self.raw_prefix@ + repr_encode_seq(tuple.elements@, false) + seq![0xFFu8],
            tuple.tight() ==> r.begin@ == self.raw_prefix@ + spec_encode_elements(tuple@, false)
                + seq![0x00u8] && r.end@ == self.raw_prefix@ + spec_encode_elements(tuple@, false)
                + seq![0xFFu8],
    {
        tuple.range(clone_bytes(&self.raw_prefix))
    }

    /// Decode the tuple encoded by `key` with this subspace's prefix
    /// removed. Fails if `key` does not start with the prefix, or if the
    /// remainder is not a valid encoding.
    pub fn unpack(&self, key: &Vec<u8>) -> (r: FdbResult<Tuple>)
        ensures
            r matches Ok(t) ==> self.spec_contains(key@) && t.wf() && tv_canon_seq(t.elements@)
                && key@ == self.raw_prefix@ + repr_encode_seq(t.elements@, false),
            !self.spec_contains(key@) ==> (r matches Err(e) && e == (FdbError {
                error_code: SUBSPACE_UNPACK_KEY_MISMATCH,
            })),
            self.spec_contains(key@) && r is Err ==> (r matches Err(e) && e == (FdbError {
                error_code: TUPLE_FROM_BYTES,
            })),
            self.spec_contains(key@) && crate::laws::repr_valid_elements_at(
                key@,
                self.raw_prefix@.len() as int,
            ) ==> r is Ok,
            self.spec_contains(key@) && crate::laws::valid_elements_at(
                key@,
                self.raw_prefix@.len() as int,
            ) ==> (r is Ok && (r matches Ok(t) ==> t.tight())),
    {
        if !self.contains(key) {
            return Err(FdbError::new(SUBSPACE_UNPACK_KEY_MISMATCH));
        }
        let mut rest: Vec<u8> = Vec::new();
        let mut i: usize = self.raw_prefix.len();
        proof {
            assert(key@.subrange(self.raw_prefix@.len() as int, self.raw_prefix@.len() as int)
                =~= Seq::<u8>::empty());
        }
        while i < key.len()
            invariant
                self.raw_prefix@.len() <= i <= key@.len(),
                rest@ =~= key@.subrange(self.raw_prefix@.len() as int, i as int),
            decreases key@.len() - i,
        {
            rest.push(key[i]);
            i = i + 1;
        }
        proof {
            assert(rest@ =~= key@.subrange(self.raw_prefix@.len() as int, key@.len() as int));
        }
        let ghost rest_bytes = rest@;
        proof {
            if crate::laws::valid_elements_at(key@, self.raw_prefix@.len() as int) {
                let es = choose|es: Seq<crate::encoding::ElementView>|
                    crate::encoding::canon_elements(es) && key@.subrange(
                        self.raw_prefix@.len() as int,
                        key@.len() as int,
                    ) == spec_encode_elements(es, false);
                assert(rest_bytes.subrange(0, rest_bytes.len() as int) =~= rest_bytes);
                assert(crate::encoding::canon_elements(es) && rest_bytes.subrange(
                    0,
                    rest_bytes.len() as int,
                ) == spec_encode_elements(es, false));
                assert(crate::laws::valid_elements_at(rest_bytes, 0));
            }
            if crate::laws::repr_valid_elements_at(key@, self.raw_prefix@.len() as int) {
                let vs = choose|vs: Seq<crate::element::TupleValue>|
                    crate::element::tv_wf_seq(vs) && key@.subrange(
                        self.raw_prefix@.len() as int,
                        key@.len() as int,
                    ) == repr_encode_seq(vs, false);
                assert(rest_bytes.subrange(0, rest_bytes.len() as int) =~= rest_bytes);
                assert(crate::element::tv_wf_seq(vs) && rest_bytes.subrange(
                    0,
                    rest_bytes.len() as int,
                ) == repr_encode_seq(vs, false));
                assert(crate::laws::repr_valid_elements_at(rest_bytes, 0));
            }
        }
        match Tuple::from_bytes(rest) {
            Ok(t) => {
                proof {
                    assert(key@ =~= key@.subrange(0, self.raw_prefix@.len() as int) + rest_bytes);
                }
                Ok(t)
            },
            Err(e) => Err(e),
        }
    }
}

} // verus!
