//! An ordered sequence of typed elements that packs to an order-preserving
//! byte key.

use vstd::prelude::*;

use crate::bigint::{
    lemma_be_val_bound, lemma_be_val_leading_nonzero, lemma_pow256_increases_le, BigInt,
};
use crate::element::{
    lemma_min_len_of_be, lemma_pow256_values, lemma_repr_encode_matches_view_seq,
    lemma_tv_view_seq_len, lemma_tv_view_seq_push, lemma_tv_wf_seq_index, lemma_tv_wf_seq_push,
    repr_encode_seq, repr_stamp_offsets, tv_canon_seq, tv_tight, tv_tight_seq, tv_view,
    tv_view_seq, tv_wf, tv_wf_seq, TupleValue,
};
use crate::encoder::encode_elements;
use crate::encoding::{
    be_val, has_incomplete_element, has_incomplete_elements, incomplete_count_elements, le_bytes,
    lemma_has_incomplete_iff_count, lemma_has_incomplete_push, pow256, spec_encode_elements,
    ElementView,
};
use crate::error::{
    FdbError, FdbResult, TUPLE_FROM_BYTES, TUPLE_GET, TUPLE_PACK_WITH_VERSIONSTAMP_MULTIPLE_FOUND,
    TUPLE_PACK_WITH_VERSIONSTAMP_NOT_FOUND, TUPLE_PACK_WITH_VERSIONSTAMP_OFFSET_OVERFLOW,
};
use crate::uuid::Uuid;
use crate::versionstamp::Versionstamp;

verus! {

/// An ordered sequence of typed elements. Its abstract value is the
/// sequence of the elements' [`ElementView`]s.
#[derive(Debug)]
pub struct Tuple {
    pub elements: Vec<TupleValue>,
    /// Cached flag: true exactly when some contained versionstamp, at any
    /// nesting depth, is unresolved. Kept in step by every append.
    pub has_incomplete_versionstamp: bool,
}

impl View for Tuple {
    type V = Seq<ElementView>;

    open spec fn view(&self) -> Seq<ElementView> {
        tv_view_seq(self.elements@)
    }
}

/// Whether the stored element contains an unresolved versionstamp, read
/// from the element itself (and, for a nested tuple, its cached flag).
fn element_has_incomplete(v: &TupleValue) -> (r: bool)
    requires
        tv_wf(*v),
    ensures
        r == has_incomplete_element(tv_view(*v)),
{
    match v {
        TupleValue::NestedTuple(t) => t.has_incomplete_versionstamp,
        TupleValue::Versionstamp96Bit(vs) => !vs.complete,
        _ => false,
    }
}

impl Tuple {
    /// Every element is well formed and the cached versionstamp flag agrees
    /// with the elements.
    pub open spec fn wf(&self) -> bool {
        &&& tv_wf_seq(self.elements@)
        &&& self.has_incomplete_versionstamp == has_incomplete_elements(self@)
    }

    /// Every element sits in its tightest width bucket, as the builders
    /// produce and the encoder emits. A decoded tuple is in this form
    /// exactly when its encoding was canonical.
    pub open spec fn tight(&self) -> bool {
        tv_tight_seq(self.elements@)
    }

    /// Create a new empty tuple.
    pub fn new() -> (r: Tuple)
        ensures
            r.wf(),
            r.tight(),
            r@ =~= Seq::<ElementView>::empty(),
            !r.has_incomplete_versionstamp,
    {
        Tuple { elements: Vec::new(), has_incomplete_versionstamp: false }
    }

    /// Append one well-formed stored element.
    fn push_element(&mut self, v: TupleValue)
        requires
            old(self).wf(),
            tv_wf(v),
        ensures
            final(self).wf(),
            final(self)@ == old(self)@.push(tv_view(v)),
            final(self).has_incomplete_versionstamp == (old(self).has_incomplete_versionstamp
                || has_incomplete_element(tv_view(v))),
            old(self).tight() && tv_tight(v) ==> final(self).tight(),
    {
        let inc = element_has_incomplete(&v);
        proof {
            lemma_tv_view_seq_push(self.elements@, v);
            lemma_tv_wf_seq_push(self.elements@, v);
            crate::element::lemma_tv_tight_seq_push(self.elements@, v);
            lemma_has_incomplete_push(self@, tv_view(v));
        }
        self.has_incomplete_versionstamp = self.has_incomplete_versionstamp || inc;
        self.elements.push(v);
    }

    /// Append a null element.
    pub fn add_null(&mut self)
        requires
            old(self).wf(),
        ensures
            final(self).wf(),
            final(self)@ == old(self)@.push(ElementView::Null),
            final(self).has_incomplete_versionstamp == old(self).has_incomplete_versionstamp,
            old(self).tight() ==> final(self).tight(),
    {
        self.push_element(TupleValue::NullValue);
    }

    /// Append a byte-string element.
    pub fn add_bytes(&mut self, b: Vec<u8>)
        requires
            old(self).wf(),
        ensures
            final(self).wf(),
            final(self)@ == old(self)@.push(ElementView::Bytes(b@)),
            final(self).has_incomplete_versionstamp == old(self).has_incomplete_versionstamp,
            old(self).tight() ==> final(self).tight(),
    {
        self.push_element(TupleValue::ByteString(b));
    }

    /// Append a text element.
    pub fn add_string(&mut self, s: String)
        requires
            old(self).wf(),
        ensures
            final(self).wf(),
            final(self)@ == old(self)@.push(ElementView::Text(s@)),
            final(self).has_incomplete_versionstamp == old(self).has_incomplete_versionstamp,
            old(self).tight() ==> final(self).tight(),
    {
        self.push_element(TupleValue::UnicodeString(s));
    }

    /// Append a nested tuple element.
    pub fn add_tuple(&mut self, t: Tuple)
        requires
            old(self).wf(),
            t.wf(),
        ensures
            final(self).wf(),
            final(self)@ == old(self)@.push(ElementView::Nested(t@)),
            final(self).has_incomplete_versionstamp == (old(self).has_incomplete_versionstamp
                || t.has_incomplete_versionstamp),
            old(self).tight() && t.tight() ==> final(self).tight(),
    {
        self.push_element(TupleValue::NestedTuple(t));
    }

    /// Append a boolean element.
    pub fn add_bool(&mut self, b: bool)
        requires
            old(self).wf(),
        ensures
            final(self).wf(),
            final(self)@ == old(self)@.push(ElementView::Bool(b)),
            final(self).has_incomplete_versionstamp == old(self).has_incomplete_versionstamp,
            old(self).tight() ==> final(self).tight(),
    {
        if b {
            self.push_element(TupleValue::TrueValue);
        } else {
            self.push_element(TupleValue::FalseValue);
        }
    }

    /// Append a UUID element.
    pub fn add_uuid(&mut self, u: Uuid)
        requires
            old(self).wf(),
            u.wf(),
        ensures
            final(self).wf(),
            final(self)@ == old(self)@.push(ElementView::Uuid(u@)),
            final(self).has_incomplete_versionstamp == old(self).has_incomplete_versionstamp,
            old(self).tight() ==> final(self).tight(),
    {
        self.push_element(TupleValue::Rfc4122Uuid(u));
    }

    /// Append a versionstamp element.
    pub fn add_versionstamp(&mut self, v: Versionstamp)
        requires
            old(self).wf(),
            v.wf(),
        ensures
            final(self).wf(),
            final(self)@ == old(self)@.push(
                ElementView::Stamp {
                    tr_version: v.tr_version@,
                    user_version: v.user_version,
                    complete: v.complete,
                },
            ),
            final(self).has_incomplete_versionstamp == (old(self).has_incomplete_versionstamp
                || !v.complete),
            old(self).tight() ==> final(self).tight(),
    {
        self.push_element(TupleValue::Versionstamp96Bit(v));
    }

    /// Append a single-precision element, given as its IEEE-754 bit pattern.
    pub fn add_f32(&mut self, bits: u32)
        requires
            old(self).wf(),
        ensures
            final(self).wf(),
            final(self)@ == old(self)@.push(ElementView::Float32(bits)),
            final(self).has_incomplete_versionstamp == old(self).has_incomplete_versionstamp,
            old(self).tight() ==> final(self).tight(),
    {
        self.push_element(TupleValue::IeeeBinaryFloatingPointFloat(bits));
    }

    /// Append a double-precision element, given as its IEEE-754 bit pattern.
    pub fn add_f64(&mut self, bits: u64)
        requires
            old(self).wf(),
        ensures
            final(self).wf(),
            final(self)@ == old(self)@.push(ElementView::Float64(bits)),
            final(self).has_incomplete_versionstamp == old(self).has_incomplete_versionstamp,
            old(self).tight() ==> final(self).tight(),
    {
        self.push_element(TupleValue::IeeeBinaryFloatingPointDouble(bits));
    }

    /// Append an integer element in the tightest width bucket for `i`.
    pub fn add_i64(&mut self, i: i64)
        requires
            old(self).wf(),
        ensures
            final(self).wf(),
            final(self)@ == old(self)@.push(ElementView::Int(i as int)),
            final(self).has_incomplete_versionstamp == old(self).has_incomplete_versionstamp,
            old(self).tight() ==> final(self).tight(),
    {
        if i == 0 {
            self.push_element(TupleValue::IntZero);
        } else if i > 0 {
            let m: u64 = i as u64;
            self.push_element(
                if m < 0x100 {
                    TupleValue::PosInt1(m as u8)
                } else if m < 0x10000 {
                    TupleValue::PosInt2(m as u16)
                } else if m < 0x1000000 {
                    TupleValue::PosInt3(m as u32)
                } else if m < 0x100000000 {
                    TupleValue::PosInt4(m as u32)
                } else if m < 0x10000000000 {
                    TupleValue::PosInt5(m)
                } else if m < 0x1000000000000 {
                    TupleValue::PosInt6(m)
                } else if m < 0x100000000000000 {
                    TupleValue::PosInt7(m)
                } else {
                    TupleValue::PosInt8(m)
                },
            );
        } else {
            let m: u64 = if i == i64::MIN {
                0x8000_0000_0000_0000
            } else {
                (-i) as u64
            };
            self.push_element(
                if m < 0x100 {
                    TupleValue::NegInt1(m as u8)
                } else if m < 0x10000 {
                    TupleValue::NegInt2(m as u16)
                } else if m < 0x1000000 {
                    TupleValue::NegInt3(m as u32)
                } else if m < 0x100000000 {
                    TupleValue::NegInt4(m as u32)
                } else if m < 0x10000000000 {
                    TupleValue::NegInt5(m)
                } else if m < 0x1000000000000 {
                    TupleValue::NegInt6(m)
                } else if m < 0x100000000000000 {
                    TupleValue::NegInt7(m)
                } else {
                    TupleValue::NegInt8(m)
                },
            );
        }
    }

    /// Append a 32-bit integer element.
    pub fn add_i32(&mut self, i: i32)
        requires
            old(self).wf(),
        ensures
            final(self).wf(),
            final(self)@ == old(self)@.push(ElementView::Int(i as int)),
            final(self).has_incomplete_versionstamp == old(self).has_incomplete_versionstamp,
            old(self).tight() ==> final(self).tight(),
    {
        self.add_i64(i as i64);
    }

    /// Append a 16-bit integer element.
    pub fn add_i16(&mut self, i: i16)
        requires
            old(self).wf(),
        ensures
            final(self).wf(),
            final(self)@ == old(self)@.push(ElementView::Int(i as int)),
            final(self).has_incomplete_versionstamp == old(self).has_incomplete_versionstamp,
            old(self).tight() ==> final(self).tight(),
    {
        self.add_i64(i as i64);
    }

    /// Append an 8-bit integer element.
    pub fn add_i8(&mut self, i: i8)
        requires
            old(self).wf(),
        ensures
            final(self).wf(),
            final(self)@ == old(self)@.push(ElementView::Int(i as int)),
            final(self).has_incomplete_versionstamp == old(self).has_incomplete_versionstamp,
            old(self).tight() ==> final(self).tight(),
    {
        self.add_i64(i as i64);
    }

    /// Append an arbitrary-precision integer element, in the tightest width
    /// bucket for its magnitude. The magnitude must encode within 255 bytes.
    pub fn add_bigint(&mut self, i: BigInt)
        requires
            old(self).wf(),
            i.wf(),
            i.magnitude@.len() <= 255,
        ensures
            final(self).wf(),
            final(self)@ == old(self)@.push(ElementView::Int(i@)),
            final(self).has_incomplete_versionstamp == old(self).has_incomplete_versionstamp,
            old(self).tight() ==> final(self).tight(),
    {
        let len = i.magnitude.len();
        if len == 0 {
            self.push_element(TupleValue::IntZero);
        } else if len <= 8 {
            proof {
                lemma_min_len_of_be(i.magnitude@);
                lemma_be_val_bound(i.magnitude@);
                lemma_be_val_leading_nonzero(i.magnitude@);
                lemma_pow256_values();
                lemma_pow256_increases_le(i.magnitude@.len(), 8);
            }
            let m: u64 = be_slice_to_u64(i.magnitude.as_slice());
            let neg = i.negative;
            self.push_element(
                if len == 1 {
                    if neg {
                        TupleValue::NegInt1(m as u8)
                    } else {
                        TupleValue::PosInt1(m as u8)
                    }
                } else if len == 2 {
                    if neg {
                        TupleValue::NegInt2(m as u16)
                    } else {
                        TupleValue::PosInt2(m as u16)
                    }
                } else if len == 3 {
                    if neg {
                        TupleValue::NegInt3(m as u32)
                    } else {
                        TupleValue::PosInt3(m as u32)
                    }
                } else if len == 4 {
                    if neg {
                        TupleValue::NegInt4(m as u32)
                    } else {
                        TupleValue::PosInt4(m as u32)
                    }
                } else if len == 5 {
                    if neg {
                        TupleValue::NegInt5(m)
                    } else {
                        TupleValue::PosInt5(m)
                    }
                } else if len == 6 {
                    if neg {
                        TupleValue::NegInt6(m)
                    } else {
                        TupleValue::PosInt6(m)
                    }
                } else if len == 7 {
                    if neg {
                        TupleValue::NegInt7(m)
                    } else {
                        TupleValue::PosInt7(m)
                    }
                } else {
                    if neg {
                        TupleValue::NegInt8(m)
                    } else {
                        TupleValue::PosInt8(m)
                    }
                },
            );
        } else {
            proof {
                lemma_be_val_leading_nonzero(i.magnitude@);
            }
            if i.negative {
                self.push_element(TupleValue::NegativeArbitraryPrecisionInteger(i.magnitude));
            } else {
                self.push_element(TupleValue::PositiveArbitraryPrecisionInteger(i.magnitude));
            }
        }
    }

    /// Append the elements of `t` to this tuple.
    pub fn append(&mut self, t: Tuple)
        requires
            old(self).wf(),
            t.wf(),
        ensures
            final(self).wf(),
            final(self)@ == old(self)@ + t@,
            final(self).has_incomplete_versionstamp == (old(self).has_incomplete_versionstamp
                || t.has_incomplete_versionstamp),
            old(self).tight() && t.tight() ==> final(self).tight(),
    {
        proof {
            crate::element::lemma_tv_view_seq_concat(self.elements@, t.elements@);
            crate::element::lemma_tv_wf_seq_concat(self.elements@, t.elements@);
            crate::element::lemma_tv_tight_seq_concat(self.elements@, t.elements@);
            crate::encoding::lemma_has_incomplete_concat(self@, t@);
        }
        let mut other = t;
        self.has_incomplete_versionstamp = self.has_incomplete_versionstamp
            || other.has_incomplete_versionstamp;
        self.elements.append(&mut other.elements);
    }

    /// Whether some versionstamp in this tuple, at any nesting depth, has
    /// not had its transaction version set.
    pub fn has_incomplete_versionstamp(&self) -> (r: bool)
        ensures
            r == self.has_incomplete_versionstamp,
            self.wf() ==> r == has_incomplete_elements(self@),
    {
        self.has_incomplete_versionstamp
    }

    /// Whether this tuple contains no elements.
    pub fn is_empty(&self) -> (r: bool)
        ensures
            r == (self@.len() == 0),
    {
        proof {
            lemma_tv_view_seq_len(self.elements@);
        }
        self.elements.len() == 0
    }

    /// The number of elements in this tuple.
    pub fn size(&self) -> (r: usize)
        ensures
            r == self@.len(),
    {
        proof {
            lemma_tv_view_seq_len(self.elements@);
        }
        self.elements.len()
    }

    /// Build a tuple from a vector of well-formed stored elements.
    pub fn from_elements(elements: Vec<TupleValue>) -> (r: Tuple)
        requires
            tv_wf_seq(elements@),
        ensures
            r.wf(),
            r.elements@ == elements@,
            r@ == tv_view_seq(elements@),
            tv_tight_seq(elements@) ==> r.tight(),
    {
        let mut flag = false;
        let mut i: usize = 0;
        proof {
            lemma_tv_wf_seq_index(elements@);
            lemma_tv_view_seq_len(elements@);
            assert(tv_view_seq(elements@).subrange(0, 0) =~= Seq::<ElementView>::empty());
        }
        while i < elements.len()
            invariant
                i <= elements@.len(),
                tv_wf_seq(elements@),
                forall|j: int| 0 <= j < elements@.len() ==> tv_wf(#[trigger] elements@[j]),
                forall|j: int|
                    0 <= j < elements@.len() ==> #[trigger] tv_view_seq(elements@)[j] == tv_view(
                        elements@[j],
                    ),
                tv_view_seq(elements@).len() == elements@.len(),
                flag == has_incomplete_elements(tv_view_seq(elements@).subrange(0, i as int)),
            decreases elements@.len() - i,
        {
            proof {
                assert(tv_view_seq(elements@).subrange(0, (i + 1) as int) =~= tv_view_seq(
                    elements@,
                ).subrange(0, i as int).push(tv_view(elements@[i as int])));
                lemma_has_incomplete_push(
                    tv_view_seq(elements@).subrange(0, i as int),
                    tv_view(elements@[i as int]),
                );
            }
            let inc = element_has_incomplete(&elements[i]);
            flag = flag || inc;
            i = i + 1;
        }
        proof {
            assert(tv_view_seq(elements@).subrange(0, elements@.len() as int) =~= tv_view_seq(
                elements@,
            ));
        }
        Tuple { elements, has_incomplete_versionstamp: flag }
    }

    /// Consume this tuple, returning its stored elements.
    pub fn into_elements(self) -> (r: Vec<TupleValue>)
        ensures
            r@ == self.elements@,
    {
        self.elements
    }


    /// Gets the indexed element as a null element.
    pub fn get_null(&self, index: usize) -> (r: FdbResult<()>)
        requires
            self.wf(),
        ensures
            (r is Ok) <==> (index < self@.len() && self@[index as int] is Null),
            r matches Err(e) ==> e == (FdbError { error_code: TUPLE_GET }),
    {
        proof {
            lemma_tv_view_seq_len(self.elements@);
        }
        if index >= self.elements.len() {
            return Err(FdbError::new(TUPLE_GET));
        }
        match &self.elements[index] {
            TupleValue::NullValue => Ok(()),
            _ => Err(FdbError::new(TUPLE_GET)),
        }
    }

    /// Gets the indexed element as a reference to its byte string.
    pub fn get_bytes_ref(&self, index: usize) -> (r: FdbResult<&Vec<u8>>)
        requires
            self.wf(),
        ensures
            (r is Ok) <==> (index < self@.len() && self@[index as int] is Bytes),
            r matches Ok(b) ==> self@[index as int] == ElementView::Bytes(b@),
            r matches Err(e) ==> e == (FdbError { error_code: TUPLE_GET }),
    {
        proof {
            lemma_tv_view_seq_len(self.elements@);
        }
        if index >= self.elements.len() {
            return Err(FdbError::new(TUPLE_GET));
        }
        match &self.elements[index] {
            TupleValue::ByteString(b) => Ok(b),
            _ => Err(FdbError::new(TUPLE_GET)),
        }
    }

    /// Gets the indexed element as a reference to its text.
    pub fn get_string_ref(&self, index: usize) -> (r: FdbResult<&String>)
        requires
            self.wf(),
        ensures
            (r is Ok) <==> (index < self@.len() && self@[index as int] is Text),
            r matches Ok(s) ==> self@[index as int] == ElementView::Text(s@),
            r matches Err(e) ==> e == (FdbError { error_code: TUPLE_GET }),
    {
        proof {
            lemma_tv_view_seq_len(self.elements@);
        }
        if index >= self.elements.len() {
            return Err(FdbError::new(TUPLE_GET));
        }
        match &self.elements[index] {
            TupleValue::UnicodeString(s) => Ok(s),
            _ => Err(FdbError::new(TUPLE_GET)),
        }
    }

    /// Gets the indexed element as a reference to its nested tuple.
    pub fn get_tuple_ref(&self, index: usize) -> (r: FdbResult<&Tuple>)
        requires
            self.wf(),
        ensures
            (r is Ok) <==> (index < self@.len() && self@[index as int] is Nested),
            r matches Ok(t) ==> self@[index as int] == ElementView::Nested(t@) && t.wf(),
            r matches Err(e) ==> e == (FdbError { error_code: TUPLE_GET }),
    {
        proof {
            lemma_tv_view_seq_len(self.elements@);
            lemma_tv_wf_seq_index(self.elements@);
        }
        if index >= self.elements.len() {
            return Err(FdbError::new(TUPLE_GET));
        }
        match &self.elements[index] {
            TupleValue::NestedTuple(t) => Ok(t),
            _ => Err(FdbError::new(TUPLE_GET)),
        }
    }

    /// Gets the indexed element as a boolean.
    pub fn get_bool(&self, index: usize) -> (r: FdbResult<bool>)
        requires
            self.wf(),
        ensures
            (r is Ok) <==> (index < self@.len() && self@[index as int] is Bool),
            r matches Ok(b) ==> self@[index as int] == ElementView::Bool(b),
            r matches Err(e) ==> e == (FdbError { error_code: TUPLE_GET }),
    {
        proof {
            lemma_tv_view_seq_len(self.elements@);
        }
        if index >= self.elements.len() {
            return Err(FdbError::new(TUPLE_GET));
        }
        match &self.elements[index] {
            TupleValue::FalseValue => Ok(false),
            TupleValue::TrueValue => Ok(true),
            _ => Err(FdbError::new(TUPLE_GET)),
        }
    }

    /// Gets the indexed single-precision element as its IEEE-754 bit
    /// pattern.
    pub fn get_f32(&self, index: usize) -> (r: FdbResult<u32>)
        requires
            self.wf(),
        ensures
            (r is Ok) <==> (index < self@.len() && self@[index as int] is Float32),
            r matches Ok(bits) ==> self@[index as int] == ElementView::Float32(bits),
            r matches Err(e) ==> e == (FdbError { error_code: TUPLE_GET }),
    {
        proof {
            lemma_tv_view_seq_len(self.elements@);
        }
        if index >= self.elements.len() {
            return Err(FdbError::new(TUPLE_GET));
        }
        match &self.elements[index] {
            TupleValue::IeeeBinaryFloatingPointFloat(bits) => Ok(*bits),
            _ => Err(FdbError::new(TUPLE_GET)),
        }
    }

    /// Gets the indexed double-precision element as its IEEE-754 bit
    /// pattern.
    pub fn get_f64(&self, index: usize) -> (r: FdbResult<u64>)
        requires
            self.wf(),
        ensures
            (r is Ok) <==> (index < self@.len() && self@[index as int] is Float64),
            r matches Ok(bits) ==> self@[index as int] == ElementView::Float64(bits),
            r matches Err(e) ==> e == (FdbError { error_code: TUPLE_GET }),
    {
        proof {
            lemma_tv_view_seq_len(self.elements@);
        }
        if index >= self.elements.len() {
            return Err(FdbError::new(TUPLE_GET));
        }
        match &self.elements[index] {
            TupleValue::IeeeBinaryFloatingPointDouble(bits) => Ok(*bits),
            _ => Err(FdbError::new(TUPLE_GET)),
        }
    }

    /// Gets the indexed element as a reference to its UUID.
    pub fn get_uuid_ref(&self, index: usize) -> (r: FdbResult<&Uuid>)
        requires
            self.wf(),
        ensures
            (r is Ok) <==> (index < self@.len() && self@[index as int] is Uuid),
            r matches Ok(u) ==> self@[index as int] == ElementView::Uuid(u@) && u.wf(),
            r matches Err(e) ==> e == (FdbError { error_code: TUPLE_GET }),
    {
        proof {
            lemma_tv_view_seq_len(self.elements@);
            lemma_tv_wf_seq_index(self.elements@);
        }
        if index >= self.elements.len() {
            return Err(FdbError::new(TUPLE_GET));
        }
        match &self.elements[index] {
            TupleValue::Rfc4122Uuid(u) => Ok(u),
            _ => Err(FdbError::new(TUPLE_GET)),
        }
    }

    /// Gets the indexed element as a reference to its versionstamp.
    pub fn get_versionstamp_ref(&self, index: usize) -> (r: FdbResult<&Versionstamp>)
        requires
            self.wf(),
        ensures
            (r is Ok) <==> (index < self@.len() && self@[index as int] is Stamp),
            r matches Ok(v) ==> self@[index as int] == (ElementView::Stamp {
                tr_version: v.tr_version@,
                user_version: v.user_version,
                complete: v.complete,
            }) && v.wf(),
            r matches Err(e) ==> e == (FdbError { error_code: TUPLE_GET }),
    {
        proof {
            lemma_tv_view_seq_len(self.elements@);
            lemma_tv_wf_seq_index(self.elements@);
        }
        if index >= self.elements.len() {
            return Err(FdbError::new(TUPLE_GET));
        }
        match &self.elements[index] {
            TupleValue::Versionstamp96Bit(v) => Ok(v),
            _ => Err(FdbError::new(TUPLE_GET)),
        }
    }

    /// Gets the indexed integer element as an `i64`, failing if the stored
    /// value lies outside the `i64` range.
    pub fn get_i64(&self, index: usize) -> (r: FdbResult<i64>)
        requires
            self.wf(),
        ensures
            (r is Ok) <==> (index < self@.len() && (self@[index as int] matches ElementView::Int(i)
                && i64::MIN <= i <= i64::MAX)),
            r matches Ok(x) ==> self@[index as int] == ElementView::Int(x as int),
            r matches Err(e) ==> e == (FdbError { error_code: TUPLE_GET }),
    {
        proof {
            lemma_tv_view_seq_len(self.elements@);
            lemma_tv_wf_seq_index(self.elements@);
        }
        if index >= self.elements.len() {
            return Err(FdbError::new(TUPLE_GET));
        }
        match int_magnitude(&self.elements[index]) {
            Option::None => Err(FdbError::new(TUPLE_GET)),
            Option::Some((false, m)) => {
                if m <= 0x7FFF_FFFF_FFFF_FFFF {
                    Ok(m as i64)
                } else {
                    Err(FdbError::new(TUPLE_GET))
                }
            },
            Option::Some((true, m)) => {
                if m < 0x8000_0000_0000_0000 {
                    Ok(-(m as i64))
                } else if m == 0x8000_0000_0000_0000 {
                    Ok(i64::MIN)
                } else {
                    Err(FdbError::new(TUPLE_GET))
                }
            },
        }
    }

    /// Gets the indexed integer element as an `i32`, failing if the stored
    /// value lies outside the `i32` range.
    pub fn get_i32(&self, index: usize) -> (r: FdbResult<i32>)
        requires
            self.wf(),
        ensures
            (r is Ok) <==> (index < self@.len() && (self@[index as int] matches ElementView::Int(i)
                && i32::MIN <= i <= i32::MAX)),
            r matches Ok(x) ==> self@[index as int] == ElementView::Int(x as int),
            r matches Err(e) ==> e == (FdbError { error_code: TUPLE_GET }),
    {
        proof {
            lemma_tv_view_seq_len(self.elements@);
            lemma_tv_wf_seq_index(self.elements@);
        }
        if index >= self.elements.len() {
            return Err(FdbError::new(TUPLE_GET));
        }
        match int_magnitude(&self.elements[index]) {
            Option::None => Err(FdbError::new(TUPLE_GET)),
            Option::Some((false, m)) => {
                if m <= 0x7FFF_FFFF {
                    Ok(m as i32)
                } else {
                    Err(FdbError::new(TUPLE_GET))
                }
            },
            Option::Some((true, m)) => {
                if m < 0x8000_0000 {
                    Ok(-(m as i32))
                } else if m == 0x8000_0000 {
                    Ok(i32::MIN)
                } else {
                    Err(FdbError::new(TUPLE_GET))
                }
            },
        }
    }

    /// Gets the indexed integer element as an `i16`, failing if the stored
    /// value lies outside the `i16` range.
    pub fn get_i16(&self, index: usize) -> (r: FdbResult<i16>)
        requires
            self.wf(),
        ensures
            (r is Ok) <==> (index < self@.len() && (self@[index as int] matches ElementView::Int(i)
                && i16::MIN <= i <= i16::MAX)),
            r matches Ok(x) ==> self@[index as int] == ElementView::Int(x as int),
            r matches Err(e) ==> e == (FdbError { error_code: TUPLE_GET }),
    {
        proof {
            lemma_tv_view_seq_len(self.elements@);
            lemma_tv_wf_seq_index(self.elements@);
        }
        if index >= self.elements.len() {
            return Err(FdbError::new(TUPLE_GET));
        }
        match int_magnitude(&self.elements[index]) {
            Option::None => Err(FdbError::new(TUPLE_GET)),
            Option::Some((false, m)) => {
                if m <= 0x7FFF {
                    Ok(m as i16)
                } else {
                    Err(FdbError::new(TUPLE_GET))
                }
            },
            Option::Some((true, m)) => {
                if m < 0x8000 {
                    Ok(-(m as i16))
                } else if m == 0x8000 {
                    Ok(i16::MIN)
                } else {
                    Err(FdbError::new(TUPLE_GET))
                }
            },
        }
    }

    /// Gets the indexed integer element as an `i8`, failing if the stored
    /// value lies outside the `i8` range.
    pub fn get_i8(&self, index: usize) -> (r: FdbResult<i8>)
        requires
            self.wf(),
        ensures
            (r is Ok) <==> (index < self@.len() && (self@[index as int] matches ElementView::Int(i)
                && i8::MIN <= i <= i8::MAX)),
            r matches Ok(x) ==> self@[index as int] == ElementView::Int(x as int),
            r matches Err(e) ==> e == (FdbError { error_code: TUPLE_GET }),
    {
        proof {
            lemma_tv_view_seq_len(self.elements@);
            lemma_tv_wf_seq_index(self.elements@);
        }
        if index >= self.elements.len() {
            return Err(FdbError::new(TUPLE_GET));
        }
        match int_magnitude(&self.elements[index]) {
            Option::None => Err(FdbError::new(TUPLE_GET)),
            Option::Some((false, m)) => {
                if m <= 0x7F {
                    Ok(m as i8)
                } else {
                    Err(FdbError::new(TUPLE_GET))
                }
            },
            Option::Some((true, m)) => {
                if m < 0x80 {
                    Ok(-(m as i8))
                } else if m == 0x80 {
                    Ok(i8::MIN)
                } else {
                    Err(FdbError::new(TUPLE_GET))
                }
            },
        }
    }

    /// Gets the indexed integer element as an arbitrary-precision integer.
    pub fn get_bigint(&self, index: usize) -> (r: FdbResult<BigInt>)
        requires
            self.wf(),
        ensures
            (r is Ok) <==> (index < self@.len() && self@[index as int] is Int),
            r matches Ok(b) ==> b.wf() && self@[index as int] == ElementView::Int(b@),
            r matches Err(e) ==> e == (FdbError { error_code: TUPLE_GET }),
    {
        proof {
            lemma_tv_view_seq_len(self.elements@);
            lemma_tv_wf_seq_index(self.elements@);
        }
        if index >= self.elements.len() {
            return Err(FdbError::new(TUPLE_GET));
        }
        match &self.elements[index] {
            TupleValue::IntZero => Ok(BigInt::from_sign_u64(false, 0)),
            TupleValue::PosInt1(u) => Ok(BigInt::from_sign_u64(false, *u as u64)),
            TupleValue::PosInt2(u) => Ok(BigInt::from_sign_u64(false, *u as u64)),
            TupleValue::PosInt3(u) => Ok(BigInt::from_sign_u64(false, *u as u64)),
            TupleValue::PosInt4(u) => Ok(BigInt::from_sign_u64(false, *u as u64)),
            TupleValue::PosInt5(u) => Ok(BigInt::from_sign_u64(false, *u)),
            TupleValue::PosInt6(u) => Ok(BigInt::from_sign_u64(false, *u)),
            TupleValue::PosInt7(u) => Ok(BigInt::from_sign_u64(false, *u)),
            TupleValue::PosInt8(u) => Ok(BigInt::from_sign_u64(false, *u)),
            TupleValue::NegInt1(u) => Ok(BigInt::from_sign_u64(true, *u as u64)),
            TupleValue::NegInt2(u) => Ok(BigInt::from_sign_u64(true, *u as u64)),
            TupleValue::NegInt3(u) => Ok(BigInt::from_sign_u64(true, *u as u64)),
            TupleValue::NegInt4(u) => Ok(BigInt::from_sign_u64(true, *u as u64)),
            TupleValue::NegInt5(u) => Ok(BigInt::from_sign_u64(true, *u)),
            TupleValue::NegInt6(u) => Ok(BigInt::from_sign_u64(true, *u)),
            TupleValue::NegInt7(u) => Ok(BigInt::from_sign_u64(true, *u)),
            TupleValue::NegInt8(u) => Ok(BigInt::from_sign_u64(true, *u)),
            TupleValue::PositiveArbitraryPrecisionInteger(m) => Ok(
                BigInt::from_sign_magnitude(false, vstd::slice::slice_to_vec(m.as_slice())),
            ),
            TupleValue::NegativeArbitraryPrecisionInteger(m) => Ok(
                BigInt::from_sign_magnitude(true, vstd::slice::slice_to_vec(m.as_slice())),
            ),
            _ => Err(FdbError::new(TUPLE_GET)),
        }
    }



    /// Decode a tuple from its packed bytes. Succeeds exactly on byte
    /// sequences whose elements have recognized type codes, complete
    /// payloads, and valid UTF-8 text. Each integer keeps the width bucket
    /// it arrived in, so the decoded tuple re-encodes to the input byte for
    /// byte.
    pub fn from_bytes(b: Vec<u8>) -> (r: FdbResult<Tuple>)
        ensures
            r matches Ok(t) ==> t.wf() && tv_canon_seq(t.elements@) && repr_encode_seq(
                t.elements@,
                false,
            ) == b@,
            r matches Err(e) ==> e == (FdbError { error_code: TUPLE_FROM_BYTES }),
            (r is Ok) <==> crate::laws::repr_valid_elements_at(b@, 0),
            crate::laws::valid_elements_at(b@, 0) ==> (r is Ok && (r matches Ok(t) ==> t.tight()
                && spec_encode_elements(t@, false) == b@)),
    {
        match crate::decoder::decode_all(&b) {
            Ok(vs) => {
                proof {
                    if crate::laws::valid_elements_at(b@, 0) {
                        lemma_repr_encode_matches_view_seq(vs@, false);
                    }
                }
                Ok(Tuple::from_elements(vs))
            },
            Err(e) => Err(e),
        }
    }

    /// Encode this tuple behind `prefix` for use with a versionstamped-key
    /// write: the packed bytes are followed by a 4-byte little-endian offset
    /// pointing at the transaction version of the single unresolved
    /// versionstamp. Fails when the tuple holds no unresolved versionstamp,
    /// more than one, or when the offset does not fit in 32 bits.
    pub fn pack_with_versionstamp(&self, prefix: Vec<u8>) -> (r: FdbResult<Vec<u8>>)
        requires
            self.wf(),
        ensures
            (r is Ok) <==> (incomplete_count_elements(self@) == 1 && prefix@.len()
                + repr_stamp_offsets(self.elements@, false) <= u32::MAX),
            r matches Ok(v) ==> v@ == prefix@ + repr_encode_seq(self.elements@, false) + le_bytes(
                (prefix@.len() + repr_stamp_offsets(self.elements@, false)) as nat,
                4,
            ),
            incomplete_count_elements(self@) == 0 ==> (r matches Err(e) && e == (FdbError {
                error_code: TUPLE_PACK_WITH_VERSIONSTAMP_NOT_FOUND,
            })),
            incomplete_count_elements(self@) >= 2 ==> (r matches Err(e) && e == (FdbError {
                error_code: TUPLE_PACK_WITH_VERSIONSTAMP_MULTIPLE_FOUND,
            })),
            (incomplete_count_elements(self@) == 1 && prefix@.len() + repr_stamp_offsets(
                self.elements@,
                false,
            ) > u32::MAX) ==> (r matches Err(e) && e == (FdbError {
                error_code: TUPLE_PACK_WITH_VERSIONSTAMP_OFFSET_OVERFLOW,
            })),
            r matches Ok(v) ==> (tv_canon_seq(self.elements@) ==> forall|j: int|
                0 <= j < 10 ==> #[trigger] v@[prefix@.len() + repr_stamp_offsets(
                    self.elements@,
                    false,
                ) + j] == 0xFF),
    {
        proof {
            lemma_has_incomplete_iff_count(self@);
        }
        if !self.has_incomplete_versionstamp {
            return Err(FdbError::new(TUPLE_PACK_WITH_VERSIONSTAMP_NOT_FOUND));
        }
        let packed = self.pack();
        let packed_len = packed.len();
        match crate::locator::query_incomplete(&self.elements, false) {
            crate::locator::IncompleteQuery::NotFound(_) => Err(
                FdbError::new(TUPLE_PACK_WITH_VERSIONSTAMP_NOT_FOUND),
            ),
            crate::locator::IncompleteQuery::Found(o) => {
                let total: u128 = o as u128 + prefix.len() as u128;
                if total > 0xFFFF_FFFF {
                    Err(FdbError::new(TUPLE_PACK_WITH_VERSIONSTAMP_OFFSET_OVERFLOW))
                } else {
                    let mut res = prefix;
                    let ghost prefix_bytes = res@;
                    crate::encoder::push_all(&mut res, packed.as_slice());
                    crate::encoder::push_le32(&mut res, total as u32);
                    proof {
                        assert(res@ =~= prefix_bytes + repr_encode_seq(self.elements@, false)
                            + le_bytes(total as nat, 4));
                        if tv_canon_seq(self.elements@) {
                            // law: the offset names the ten placeholder bytes
                            crate::laws::lemma_offset_names_placeholder_seq(self.elements@, false);
                            let off = repr_stamp_offsets(self.elements@, false);
                            assert forall|j: int|
                                0 <= j < 10 implies #[trigger] res@[prefix_bytes.len() + off + j]
                                == 0xFF by {
                                assert(res@[prefix_bytes.len() + off + j] == repr_encode_seq(
                                    self.elements@,
                                    false,
                                )[off + j]);
                            }
                        }
                    }
                    Ok(res)
                }
            },
            crate::locator::IncompleteQuery::MultipleFound => Err(
                FdbError::new(TUPLE_PACK_WITH_VERSIONSTAMP_MULTIPLE_FOUND),
            ),
        }
    }

    /// The range of keys that encode tuples strictly extending this tuple,
    /// behind `prefix`: from the packed bytes followed by `0x00` up to the
    /// packed bytes followed by `0xFF`. The tuple must not contain an
    /// unresolved versionstamp, since its packed bytes would not be final.
    pub fn range(&self, prefix: Vec<u8>) -> (r: crate::range::Range)
        requires
            self.wf(),
            !self.has_incomplete_versionstamp,
        ensures
            r.begin@ == prefix@ + repr_encode_seq(self.elements@, false) + seq![0x00u8],
            r.end@ == prefix@ + repr_encode_seq(self.elements@, false) + seq![0xFFu8],
            self.tight() ==> r.begin@ == prefix@ + spec_encode_elements(self@, false) + seq![
                0x00u8,
            ] && r.end@ == prefix@ + spec_encode_elements(self@, false) + seq![0xFFu8],
    {
        let packed = self.pack();
        let mut begin = crate::range::clone_bytes(&prefix);
        crate::encoder::push_all(&mut begin, packed.as_slice());
        begin.push(0x00);
        let mut end = prefix;
        let ghost prefix_bytes = end@;
        crate::encoder::push_all(&mut end, packed.as_slice());
        end.push(0xFF);
        proof {
            assert(begin@ =~= prefix_bytes + repr_encode_seq(self.elements@, false) + seq![0x00u8]);
            assert(end@ =~= prefix_bytes + repr_encode_seq(self.elements@, false) + seq![0xFFu8]);
        }
        crate::range::Range::new(begin, end)
    }

    /// Encode this tuple: the concatenation of its elements' encodings.
    pub fn pack(&self) -> (r: Vec<u8>)
        ensures
            r@ == repr_encode_seq(self.elements@, false),
            self.wf() && self.tight() ==> r@ == spec_encode_elements(self@, false),
    {
        encode_elements(&self.elements, false)
    }
}


/// Read the big-endian value of `b` from `start` on, at most 8 bytes.
fn be_range_to_u64(b: &Vec<u8>, start: usize) -> (r: u64)
    requires
        start <= b@.len(),
        b@.len() - start <= 8,
    ensures
        r as nat == be_val(b@.subrange(start as int, b@.len() as int)),
{
    let mut acc: u64 = 0;
    let mut i: usize = start;
    proof {
        assert(b@.subrange(start as int, start as int) =~= Seq::<u8>::empty());
    }
    while i < b.len()
        invariant
            start <= i <= b@.len(),
            b@.len() - start <= 8,
            acc as nat == be_val(b@.subrange(start as int, i as int)),
            (acc as nat) < pow256((i - start) as nat),
        decreases b@.len() - i,
    {
        proof {
            lemma_pow256_values();
            lemma_pow256_increases_le((i + 1 - start) as nat, 8);
            assert(b@.subrange(start as int, (i + 1) as int).drop_last() =~= b@.subrange(
                start as int,
                i as int,
            ));
            assert(b@.subrange(start as int, (i + 1) as int).last() == b@[i as int]);
            crate::bigint::lemma_pow256_mul((i - start) as nat);
            assert((acc as nat) * 256 + 255 < pow256((i + 1 - start) as nat)) by (nonlinear_arith)
                requires
                    (acc as nat) < pow256((i - start) as nat),
                    pow256((i + 1 - start) as nat) == pow256((i - start) as nat) * 256,
            ;
        }
        acc = acc * 256 + (b[i] as u64);
        i = i + 1;
    }
    acc
}

/// The magnitude of an arbitrary-precision payload when it fits 64 bits;
/// leading zero bytes carry no value.
fn arb_magnitude_u64(m: &Vec<u8>) -> (r: Option<u64>)
    ensures
        r matches Some(u) ==> u as nat == be_val(m@),
        (r is Some) <==> be_val(m@) <= u64::MAX,
{
    let mut start: usize = 0;
    while start < m.len() && m[start] == 0
        invariant
            start <= m@.len(),
            forall|i: int| 0 <= i < start ==> m@[i] == 0,
        decreases m@.len() - start,
    {
        start = start + 1;
    }
    proof {
        crate::bigint::lemma_be_val_strip_zeros(m@, start as int);
        assert(m@.skip(start as int) =~= m@.subrange(start as int, m@.len() as int));
    }
    if m.len() - start > 8 {
        proof {
            lemma_be_val_leading_nonzero(m@.subrange(start as int, m@.len() as int));
            lemma_pow256_values();
            lemma_pow256_increases_le(8, (m@.len() - start - 1) as nat);
        }
        return None;
    }
    proof {
        lemma_be_val_bound(m@.subrange(start as int, m@.len() as int));
        lemma_pow256_values();
        lemma_pow256_increases_le((m@.len() - start) as nat, 8);
    }
    Some(be_range_to_u64(m, start))
}

/// Sign and 64-bit magnitude of an integer element, when its value fits.
fn int_magnitude(v: &TupleValue) -> (r: Option<(bool, u64)>)
    requires
        tv_wf(*v),
    ensures
        (r is Some) <==> (tv_view(*v) matches ElementView::Int(i) && -(u64::MAX as int) <= i
            <= u64::MAX as int),
        r matches Some(p) ==> tv_view(*v) == ElementView::Int(
            if p.0 {
                -(p.1 as int)
            } else {
                p.1 as int
            },
        ),
{
    match v {
        TupleValue::IntZero => Some((false, 0)),
        TupleValue::PosInt1(u) => Some((false, *u as u64)),
        TupleValue::PosInt2(u) => Some((false, *u as u64)),
        TupleValue::PosInt3(u) => Some((false, *u as u64)),
        TupleValue::PosInt4(u) => Some((false, *u as u64)),
        TupleValue::PosInt5(u) => Some((false, *u)),
        TupleValue::PosInt6(u) => Some((false, *u)),
        TupleValue::PosInt7(u) => Some((false, *u)),
        TupleValue::PosInt8(u) => Some((false, *u)),
        TupleValue::NegInt1(u) => Some((true, *u as u64)),
        TupleValue::NegInt2(u) => Some((true, *u as u64)),
        TupleValue::NegInt3(u) => Some((true, *u as u64)),
        TupleValue::NegInt4(u) => Some((true, *u as u64)),
        TupleValue::NegInt5(u) => Some((true, *u)),
        TupleValue::NegInt6(u) => Some((true, *u)),
        TupleValue::NegInt7(u) => Some((true, *u)),
        TupleValue::NegInt8(u) => Some((true, *u)),
        TupleValue::PositiveArbitraryPrecisionInteger(m) => match arb_magnitude_u64(m) {
            Some(u) => Some((false, u)),
            None => None,
        },
        TupleValue::NegativeArbitraryPrecisionInteger(m) => match arb_magnitude_u64(m) {
            Some(u) => Some((true, u)),
            None => None,
        },
        _ => None,
    }
}

/// Read a big-endian slice of at most 8 bytes as a 64-bit value.
fn be_slice_to_u64(b: &[u8]) -> (r: u64)
    requires
        b@.len() <= 8,
    ensures
        r as nat == be_val(b@),
{
    let mut acc: u64 = 0;
    let mut i: usize = 0;
    proof {
        assert(b@.subrange(0, 0) =~= Seq::<u8>::empty());
    }
    while i < b.len()
        invariant
            i <= b@.len(),
            b@.len() <= 8,
            acc as nat == be_val(b@.subrange(0, i as int)),
            (acc as nat) < pow256(i as nat),
        decreases b@.len() - i,
    {
        proof {
            lemma_pow256_values();
            lemma_pow256_increases_le((i + 1) as nat, 8);
            assert(b@.subrange(0, (i + 1) as int).drop_last() =~= b@.subrange(0, i as int));
            assert(b@.subrange(0, (i + 1) as int).last() == b@[i as int]);
            crate::bigint::lemma_pow256_mul(i as nat);
            assert((acc as nat) * 256 + 255 < pow256((i + 1) as nat)) by (nonlinear_arith)
                requires
                    (acc as nat) < pow256(i as nat),
                    pow256((i + 1) as nat) == pow256(i as nat) * 256,
            ;
        }
        acc = acc * 256 + (b[i] as u64);
        i = i + 1;
    }
    proof {
        assert(b@.subrange(0, b@.len() as int) =~= b@);
    }
    acc
}

} // verus!
