//! The stored form of one tuple element and its relation to the wire model.
//!
//! [`TupleValue`] mirrors the wire format: integers are kept in the width
//! bucket they encode to, floating-point elements as bit patterns, and
//! arbitrary-precision integers as their big-endian magnitude. The functions
//! here map each stored element to its abstract [`ElementView`], state when
//! a stored element is well formed (its payload fits its bucket's width)
//! and when it is moreover in tightest-bucket form, and give the exact
//! bytes it encodes to at both levels, with
//! [`lemma_repr_encode_matches_view`] tying the two together on tight
//! elements.

use vstd::prelude::*;

use crate::bigint::{lemma_be_val_bound, lemma_be_val_leading_nonzero, lemma_min_len_exact};
use crate::encoding::{
    be_bytes, be_val, comp, escape, has_incomplete_elements, incomplete_count_element,
    incomplete_count_elements, min_len, pow256, spec_encode_element, spec_encode_elements,
    spec_encode_int, ElementView,
};
use crate::tuple::Tuple;
use crate::uuid::Uuid;
use crate::versionstamp::Versionstamp;

verus! {

/// One stored tuple element, in the width bucket it encodes to. The
/// comments give each bucket's type code.
#[derive(Debug, PartialEq)]
pub enum TupleValue {
    /// 0x00
    NullValue,
    /// 0x01
    ByteString(Vec<u8>),
    /// 0x02
    UnicodeString(String),
    /// 0x05
    NestedTuple(Tuple),
    /// 0x0B; the magnitude is stored positive, as big-endian bytes
    NegativeArbitraryPrecisionInteger(Vec<u8>),
    /// 0x0C
    NegInt8(u64),
    /// 0x0D
    NegInt7(u64),
    /// 0x0E
    NegInt6(u64),
    /// 0x0F
    NegInt5(u64),
    /// 0x10
    NegInt4(u32),
    /// 0x11
    NegInt3(u32),
    /// 0x12
    NegInt2(u16),
    /// 0x13
    NegInt1(u8),
    /// 0x14
    IntZero,
    /// 0x15
    PosInt1(u8),
    /// 0x16
    PosInt2(u16),
    /// 0x17
    PosInt3(u32),
    /// 0x18
    PosInt4(u32),
    /// 0x19
    PosInt5(u64),
    /// 0x1A
    PosInt6(u64),
    /// 0x1B
    PosInt7(u64),
    /// 0x1C
    PosInt8(u64),
    /// 0x1D; big-endian magnitude bytes
    PositiveArbitraryPrecisionInteger(Vec<u8>),
    /// 0x20; the IEEE-754 bit pattern
    IeeeBinaryFloatingPointFloat(u32),
    /// 0x21; the IEEE-754 bit pattern
    IeeeBinaryFloatingPointDouble(u64),
    /// 0x26
    FalseValue,
    /// 0x27
    TrueValue,
    /// 0x30
    Rfc4122Uuid(Uuid),
    /// 0x33
    Versionstamp96Bit(Versionstamp),
}

/// The abstract value of a stored element.
pub open spec fn tv_view(v: TupleValue) -> ElementView
    decreases v,
{
    match v {
        TupleValue::NullValue => ElementView::Null,
        TupleValue::ByteString(b) => ElementView::Bytes(b@),
        TupleValue::UnicodeString(s) => ElementView::Text(s@),
        TupleValue::NestedTuple(t) => ElementView::Nested(tv_view_seq(t.elements@)),
        TupleValue::NegativeArbitraryPrecisionInteger(m) => ElementView::Int(-(be_val(m@) as int)),
        TupleValue::NegInt8(u) => ElementView::Int(-(u as int)),
        TupleValue::NegInt7(u) => ElementView::Int(-(u as int)),
        TupleValue::NegInt6(u) => ElementView::Int(-(u as int)),
        TupleValue::NegInt5(u) => ElementView::Int(-(u as int)),
        TupleValue::NegInt4(u) => ElementView::Int(-(u as int)),
        TupleValue::NegInt3(u) => ElementView::Int(-(u as int)),
        TupleValue::NegInt2(u) => ElementView::Int(-(u as int)),
        TupleValue::NegInt1(u) => ElementView::Int(-(u as int)),
        TupleValue::IntZero => ElementView::Int(0),
        TupleValue::PosInt1(u) => ElementView::Int(u as int),
        TupleValue::PosInt2(u) => ElementView::Int(u as int),
        TupleValue::PosInt3(u) => ElementView::Int(u as int),
        TupleValue::PosInt4(u) => ElementView::Int(u as int),
        TupleValue::PosInt5(u) => ElementView::Int(u as int),
        TupleValue::PosInt6(u) => ElementView::Int(u as int),
        TupleValue::PosInt7(u) => ElementView::Int(u as int),
        TupleValue::PosInt8(u) => ElementView::Int(u as int),
        TupleValue::PositiveArbitraryPrecisionInteger(m) => ElementView::Int(be_val(m@) as int),
        TupleValue::IeeeBinaryFloatingPointFloat(bits) => ElementView::Float32(bits),
        TupleValue::IeeeBinaryFloatingPointDouble(bits) => ElementView::Float64(bits),
        TupleValue::FalseValue => ElementView::Bool(false),
        TupleValue::TrueValue => ElementView::Bool(true),
        TupleValue::Rfc4122Uuid(u) => ElementView::Uuid(u.bytes@),
        TupleValue::Versionstamp96Bit(v) => ElementView::Stamp {
            tr_version: v.tr_version@,
            user_version: v.user_version,
            complete: v.complete,
        },
    }
}

/// The abstract values of a sequence of stored elements.
pub open spec fn tv_view_seq(vs: Seq<TupleValue>) -> Seq<ElementView>
    decreases vs,
{
    if vs.len() == 0 {
        Seq::empty()
    } else {
        seq![tv_view(vs[0])] + tv_view_seq(vs.skip(1))
    }
}

/// Structural well-formedness of one stored element: each magnitude fits the
/// width of its bucket, arbitrary-precision magnitudes take at most 255
/// bytes, fixed payloads have their fixed sizes, and a nested tuple is well
/// formed throughout. This is the invariant every tuple keeps; it does not
/// require the bucket to be the tightest one, since decoding keeps whatever
/// bucket a value arrived in.
pub open spec fn tv_wf(v: TupleValue) -> bool
    decreases v,
{
    match v {
        TupleValue::NestedTuple(t) => tv_wf_seq(t.elements@) && t.has_incomplete_versionstamp
            == has_incomplete_elements(tv_view_seq(t.elements@)),
        TupleValue::NegativeArbitraryPrecisionInteger(m) => m@.len() <= 255,
        TupleValue::NegInt7(u) => u < 0x100000000000000,
        TupleValue::NegInt6(u) => u < 0x1000000000000,
        TupleValue::NegInt5(u) => u < 0x10000000000,
        TupleValue::NegInt3(u) => u < 0x1000000,
        TupleValue::PosInt3(u) => u < 0x1000000,
        TupleValue::PosInt5(u) => u < 0x10000000000,
        TupleValue::PosInt6(u) => u < 0x1000000000000,
        TupleValue::PosInt7(u) => u < 0x100000000000000,
        TupleValue::PositiveArbitraryPrecisionInteger(m) => m@.len() <= 255,
        TupleValue::Rfc4122Uuid(u) => u.wf(),
        TupleValue::Versionstamp96Bit(v) => v.wf(),
        _ => true,
    }
}

/// Structural well-formedness of every element of a sequence.
pub open spec fn tv_wf_seq(vs: Seq<TupleValue>) -> bool
    decreases vs,
{
    if vs.len() == 0 {
        true
    } else {
        tv_wf(vs[0]) && tv_wf_seq(vs.skip(1))
    }
}

/// Tightest-bucket form of one stored element, the form the builders
/// produce: each integer magnitude sits in the narrowest bucket that holds
/// it, and arbitrary-precision magnitudes carry no leading zero and at
/// least nine bytes. Decoding keeps arrival buckets, so a decoded element
/// is in this form exactly when its encoding was.
pub open spec fn tv_tight(v: TupleValue) -> bool
    decreases v,
{
    match v {
        TupleValue::NestedTuple(t) => tv_tight_seq(t.elements@),
        TupleValue::NegativeArbitraryPrecisionInteger(m) => 9 <= m@.len() && m@.len() > 0
            && m@[0] != 0,
        TupleValue::NegInt8(u) => u >= 0x100000000000000,
        TupleValue::NegInt7(u) => u >= 0x1000000000000,
        TupleValue::NegInt6(u) => u >= 0x10000000000,
        TupleValue::NegInt5(u) => u >= 0x100000000,
        TupleValue::NegInt4(u) => u >= 0x1000000,
        TupleValue::NegInt3(u) => u >= 0x10000,
        TupleValue::NegInt2(u) => u >= 0x100,
        TupleValue::NegInt1(u) => u >= 1,
        TupleValue::PosInt1(u) => u >= 1,
        TupleValue::PosInt2(u) => u >= 0x100,
        TupleValue::PosInt3(u) => u >= 0x10000,
        TupleValue::PosInt4(u) => u >= 0x1000000,
        TupleValue::PosInt5(u) => u >= 0x100000000,
        TupleValue::PosInt6(u) => u >= 0x10000000000,
        TupleValue::PosInt7(u) => u >= 0x1000000000000,
        TupleValue::PosInt8(u) => u >= 0x100000000000000,
        TupleValue::PositiveArbitraryPrecisionInteger(m) => 9 <= m@.len() && m@.len() > 0
            && m@[0] != 0,
        _ => true,
    }
}

/// Tightest-bucket form of every element of a sequence.
pub open spec fn tv_tight_seq(vs: Seq<TupleValue>) -> bool
    decreases vs,
{
    if vs.len() == 0 {
        true
    } else {
        tv_tight(vs[0]) && tv_tight_seq(vs.skip(1))
    }
}

/// Appending one tight element keeps the sequence tight.
pub proof fn lemma_tv_tight_seq_push(vs: Seq<TupleValue>, x: TupleValue)
    ensures
        tv_tight_seq(vs.push(x)) <==> tv_tight_seq(vs) && tv_tight(x),
    decreases vs,
{
    if vs.len() == 0 {
        assert(vs.push(x)[0] == x);
        assert(vs.push(x).skip(1) =~= Seq::<TupleValue>::empty());
        assert(tv_tight_seq(Seq::<TupleValue>::empty()));
        assert(tv_tight_seq(vs.push(x)) == (tv_tight(x) && tv_tight_seq(
            Seq::<TupleValue>::empty(),
        )));
    } else {
        assert(vs.push(x)[0] == vs[0]);
        assert(vs.push(x).skip(1) =~= vs.skip(1).push(x));
        lemma_tv_tight_seq_push(vs.skip(1), x);
        assert(tv_tight_seq(vs.push(x)) == (tv_tight(vs[0]) && tv_tight_seq(vs.skip(1).push(x))));
        assert(tv_tight_seq(vs) == (tv_tight(vs[0]) && tv_tight_seq(vs.skip(1))));
    }
}

/// Tightness distributes over concatenation.
pub proof fn lemma_tv_tight_seq_concat(a: Seq<TupleValue>, b: Seq<TupleValue>)
    ensures
        tv_tight_seq(a + b) <==> tv_tight_seq(a) && tv_tight_seq(b),
    decreases a,
{
    if a.len() == 0 {
        assert(a + b =~= b);
    } else {
        assert((a + b)[0] == a[0]);
        assert((a + b).skip(1) =~= a.skip(1) + b);
        lemma_tv_tight_seq_concat(a.skip(1), b);
    }
}

/// Exact bytes a stored element encodes to, bucket by bucket. This follows
/// the stored representation; [`lemma_repr_encode_matches_view`] shows that
/// on well-formed elements it coincides with the wire model's encoding of
/// the element's abstract value.
pub open spec fn repr_encode(v: TupleValue, nested: bool) -> Seq<u8>
    decreases v,
{
    match v {
        TupleValue::NullValue => if nested {
            seq![0x00u8, 0xFFu8]
        } else {
            seq![0x00u8]
        },
        TupleValue::ByteString(b) => seq![0x01u8] + escape(b@) + seq![0x00u8],
        TupleValue::UnicodeString(s) => seq![0x02u8] + escape(vstd::utf8::encode_utf8(s@)) + seq![
            0x00u8,
        ],
        TupleValue::NestedTuple(t) => seq![0x05u8] + repr_encode_seq(t.elements@, true) + seq![
            0x00u8,
        ],
        TupleValue::NegativeArbitraryPrecisionInteger(m) => seq![
            0x0Bu8,
            (255 - (m@.len() % 256)) as u8,
        ] + comp(m@),
        TupleValue::NegInt8(u) => seq![0x0Cu8] + comp(be_bytes(u as nat, 8)),
        TupleValue::NegInt7(u) => seq![0x0Du8] + comp(be_bytes(u as nat, 7)),
        TupleValue::NegInt6(u) => seq![0x0Eu8] + comp(be_bytes(u as nat, 6)),
        TupleValue::NegInt5(u) => seq![0x0Fu8] + comp(be_bytes(u as nat, 5)),
        TupleValue::NegInt4(u) => seq![0x10u8] + comp(be_bytes(u as nat, 4)),
        TupleValue::NegInt3(u) => seq![0x11u8] + comp(be_bytes(u as nat, 3)),
        TupleValue::NegInt2(u) => seq![0x12u8] + comp(be_bytes(u as nat, 2)),
        TupleValue::NegInt1(u) => seq![0x13u8] + comp(be_bytes(u as nat, 1)),
        TupleValue::IntZero => seq![0x14u8],
        TupleValue::PosInt1(u) => seq![0x15u8] + be_bytes(u as nat, 1),
        TupleValue::PosInt2(u) => seq![0x16u8] + be_bytes(u as nat, 2),
        TupleValue::PosInt3(u) => seq![0x17u8] + be_bytes(u as nat, 3),
        TupleValue::PosInt4(u) => seq![0x18u8] + be_bytes(u as nat, 4),
        TupleValue::PosInt5(u) => seq![0x19u8] + be_bytes(u as nat, 5),
        TupleValue::PosInt6(u) => seq![0x1Au8] + be_bytes(u as nat, 6),
        TupleValue::PosInt7(u) => seq![0x1Bu8] + be_bytes(u as nat, 7),
        TupleValue::PosInt8(u) => seq![0x1Cu8] + be_bytes(u as nat, 8),
        TupleValue::PositiveArbitraryPrecisionInteger(m) => seq![
            0x1Du8,
            (m@.len() % 256) as u8,
        ] + m@,
        TupleValue::IeeeBinaryFloatingPointFloat(bits) => seq![0x20u8] + be_bytes(
            crate::encoding::mangle32(bits),
            4,
        ),
        TupleValue::IeeeBinaryFloatingPointDouble(bits) => seq![0x21u8] + be_bytes(
            crate::encoding::mangle64(bits),
            8,
        ),
        TupleValue::FalseValue => seq![0x26u8],
        TupleValue::TrueValue => seq![0x27u8],
        TupleValue::Rfc4122Uuid(u) => seq![0x30u8] + u.bytes@,
        TupleValue::Versionstamp96Bit(v) => seq![0x33u8] + v.tr_version@ + be_bytes(
            v.user_version as nat,
            2,
        ),
    }
}

/// Exact bytes a sequence of stored elements encodes to.
pub open spec fn repr_encode_seq(vs: Seq<TupleValue>, nested: bool) -> Seq<u8>
    decreases vs,
{
    if vs.len() == 0 {
        Seq::empty()
    } else {
        repr_encode(vs[0], nested) + repr_encode_seq(vs.skip(1), nested)
    }
}

/// The powers of 256 that bound the integer width buckets.
pub proof fn lemma_pow256_values()
    ensures
        pow256(1) == 0x100,
        pow256(2) == 0x10000,
        pow256(3) == 0x1000000,
        pow256(4) == 0x100000000,
        pow256(5) == 0x10000000000,
        pow256(6) == 0x1000000000000,
        pow256(7) == 0x100000000000000,
        pow256(8) == 0x10000000000000000,
        pow256(9) == 0x1000000000000000000,
{
    reveal_with_fuel(pow256, 10);
}

/// A big-endian sequence without a leading zero is the minimal encoding of
/// its value.
pub proof fn lemma_min_len_of_be(b: Seq<u8>)
    requires
        b.len() >= 1,
        b[0] != 0,
    ensures
        min_len(be_val(b)) == b.len(),
        be_bytes(be_val(b), b.len()) =~= b,
{
    lemma_be_val_bound(b);
    lemma_be_val_leading_nonzero(b);
    lemma_min_len_exact(be_val(b), b.len());
    lemma_be_bytes_of_val(b);
}

/// `be_bytes` inverts `be_val` at the sequence's own width.
pub proof fn lemma_be_bytes_of_val(b: Seq<u8>)
    ensures
        be_bytes(be_val(b), b.len()) =~= b,
    decreases b.len(),
{
    if b.len() > 0 {
        lemma_be_bytes_of_val(b.drop_last());
        let v = be_val(b);
        assert(v == be_val(b.drop_last()) * 256 + b.last());
        vstd::arithmetic::div_mod::lemma_fundamental_div_mod_converse(
            v as int,
            256,
            be_val(b.drop_last()) as int,
            b.last() as int,
        );
        assert(be_bytes(v, b.len()) == be_bytes(v / 256, (b.len() - 1) as nat).push(
            (v % 256) as u8,
        ));
    }
}

/// On well-formed, tight stored elements the stored-form encoding and the
/// wire model's encoding of the abstract value are the same bytes.
pub proof fn lemma_repr_encode_matches_view(v: TupleValue, nested: bool)
    requires
        tv_wf(v),
        tv_tight(v),
    ensures
        repr_encode(v, nested) == spec_encode_element(tv_view(v), nested),
    decreases v, 1nat,
{
    lemma_pow256_values();
    match v {
        TupleValue::NestedTuple(t) => {
            lemma_repr_encode_matches_view_seq(t.elements@, true);
        },
        TupleValue::NegativeArbitraryPrecisionInteger(m) => {
            lemma_min_len_of_be(m@);
            assert(spec_encode_int(-(be_val(m@) as int)) == seq![0x0Bu8, (255 - m@.len()) as u8]
                + comp(be_bytes(be_val(m@), m@.len())));
        },
        TupleValue::PositiveArbitraryPrecisionInteger(m) => {
            lemma_min_len_of_be(m@);
            lemma_be_val_leading_nonzero(m@);
        },
        TupleValue::NegInt8(u) => {
            lemma_min_len_exact(u as nat, 8);
        },
        TupleValue::NegInt7(u) => {
            lemma_min_len_exact(u as nat, 7);
        },
        TupleValue::NegInt6(u) => {
            lemma_min_len_exact(u as nat, 6);
        },
        TupleValue::NegInt5(u) => {
            lemma_min_len_exact(u as nat, 5);
        },
        TupleValue::NegInt4(u) => {
            lemma_min_len_exact(u as nat, 4);
        },
        TupleValue::NegInt3(u) => {
            lemma_min_len_exact(u as nat, 3);
        },
        TupleValue::NegInt2(u) => {
            lemma_min_len_exact(u as nat, 2);
        },
        TupleValue::NegInt1(u) => {
            lemma_min_len_exact(u as nat, 1);
        },
        TupleValue::PosInt1(u) => {
            lemma_min_len_exact(u as nat, 1);
        },
        TupleValue::PosInt2(u) => {
            lemma_min_len_exact(u as nat, 2);
        },
        TupleValue::PosInt3(u) => {
            lemma_min_len_exact(u as nat, 3);
        },
        TupleValue::PosInt4(u) => {
            lemma_min_len_exact(u as nat, 4);
        },
        TupleValue::PosInt5(u) => {
            lemma_min_len_exact(u as nat, 5);
        },
        TupleValue::PosInt6(u) => {
            lemma_min_len_exact(u as nat, 6);
        },
        TupleValue::PosInt7(u) => {
            lemma_min_len_exact(u as nat, 7);
        },
        TupleValue::PosInt8(u) => {
            lemma_min_len_exact(u as nat, 8);
        },
        _ => {},
    }
}

/// Sequence form of [`lemma_repr_encode_matches_view`].
pub proof fn lemma_repr_encode_matches_view_seq(vs: Seq<TupleValue>, nested: bool)
    requires
        tv_wf_seq(vs),
        tv_tight_seq(vs),
    ensures
        repr_encode_seq(vs, nested) == spec_encode_elements(tv_view_seq(vs), nested),
    decreases vs, 0nat,
{
    if vs.len() > 0 {
        lemma_repr_encode_matches_view(vs[0], nested);
        lemma_repr_encode_matches_view_seq(vs.skip(1), nested);
        assert(tv_view_seq(vs)[0] == tv_view(vs[0]));
        assert(tv_view_seq(vs).skip(1) =~= tv_view_seq(vs.skip(1))) by {
            lemma_tv_view_seq_skip(vs);
        }
        assert(spec_encode_elements(tv_view_seq(vs), nested) == spec_encode_element(
            tv_view(vs[0]),
            nested,
        ) + spec_encode_elements(tv_view_seq(vs).skip(1), nested));
    }
}

/// Views commute with dropping the first element.
pub proof fn lemma_tv_view_seq_skip(vs: Seq<TupleValue>)
    requires
        vs.len() > 0,
    ensures
        tv_view_seq(vs).skip(1) =~= tv_view_seq(vs.skip(1)),
        tv_view_seq(vs).len() == vs.len(),
        tv_view_seq(vs)[0] == tv_view(vs[0]),
{
    lemma_tv_view_seq_len(vs);
    lemma_tv_view_seq_len(vs.skip(1));
}

/// Views keep the sequence length, element by element.
pub proof fn lemma_tv_view_seq_len(vs: Seq<TupleValue>)
    ensures
        tv_view_seq(vs).len() == vs.len(),
        forall|i: int| 0 <= i < vs.len() ==> #[trigger] tv_view_seq(vs)[i] == tv_view(vs[i]),
    decreases vs,
{
    if vs.len() > 0 {
        lemma_tv_view_seq_len(vs.skip(1));
    }
}

/// A structural size measure used as a termination witness for executable
/// recursion over stored elements.
pub open spec fn tv_size(v: TupleValue) -> nat
    decreases v,
{
    match v {
        TupleValue::NestedTuple(t) => 1 + tv_size_seq(t.elements@),
        _ => 1,
    }
}

/// Total size of a sequence of stored elements.
pub open spec fn tv_size_seq(vs: Seq<TupleValue>) -> nat
    decreases vs,
{
    if vs.len() == 0 {
        0
    } else {
        tv_size(vs[0]) + tv_size_seq(vs.skip(1))
    }
}

/// Every element's size is bounded by its sequence's size.
pub proof fn lemma_tv_size_seq_index(vs: Seq<TupleValue>, i: int)
    requires
        0 <= i < vs.len(),
    ensures
        tv_size(vs[i]) <= tv_size_seq(vs),
    decreases vs,
{
    if i > 0 {
        lemma_tv_size_seq_index(vs.skip(1), i - 1);
    }
}

/// Appending one element appends its encoding.
pub proof fn lemma_repr_encode_seq_push(vs: Seq<TupleValue>, x: TupleValue, nested: bool)
    ensures
        repr_encode_seq(vs.push(x), nested) =~= repr_encode_seq(vs, nested) + repr_encode(
            x,
            nested,
        ),
    decreases vs,
{
    if vs.len() == 0 {
        assert(vs.push(x)[0] == x);
        assert(vs.push(x).skip(1) =~= Seq::<TupleValue>::empty());
        assert(repr_encode_seq(vs.push(x), nested) == repr_encode(x, nested) + repr_encode_seq(
            Seq::<TupleValue>::empty(),
            nested,
        ));
        assert(repr_encode(x, nested) + Seq::<u8>::empty() =~= repr_encode(x, nested));
        assert(Seq::<u8>::empty() + repr_encode(x, nested) =~= repr_encode(x, nested));
    } else {
        assert(vs.push(x)[0] == vs[0]);
        assert(vs.push(x).skip(1) =~= vs.skip(1).push(x));
        lemma_repr_encode_seq_push(vs.skip(1), x, nested);
        assert(repr_encode(vs[0], nested) + (repr_encode_seq(vs.skip(1), nested) + repr_encode(
            x,
            nested,
        )) =~= (repr_encode(vs[0], nested) + repr_encode_seq(vs.skip(1), nested)) + repr_encode(
            x,
            nested,
        ));
    }
}

/// Appending one element appends its view.
pub proof fn lemma_tv_view_seq_push(vs: Seq<TupleValue>, x: TupleValue)
    ensures
        tv_view_seq(vs.push(x)) =~= tv_view_seq(vs).push(tv_view(x)),
    decreases vs,
{
    if vs.len() == 0 {
        assert(vs.push(x)[0] == x);
        assert(vs.push(x).skip(1) =~= Seq::<TupleValue>::empty());
        assert(tv_view_seq(vs.push(x)) == seq![tv_view(x)] + tv_view_seq(
            Seq::<TupleValue>::empty(),
        ));
        assert(seq![tv_view(x)] + Seq::<ElementView>::empty() =~= tv_view_seq(vs).push(tv_view(x)));
    } else {
        assert(vs.push(x)[0] == vs[0]);
        assert(vs.push(x).skip(1) =~= vs.skip(1).push(x));
        lemma_tv_view_seq_push(vs.skip(1), x);
        assert(seq![tv_view(vs[0])] + tv_view_seq(vs.skip(1)).push(tv_view(x)) =~= (seq![
            tv_view(vs[0]),
        ] + tv_view_seq(vs.skip(1))).push(tv_view(x)));
    }
}

/// Sequence well-formedness is elementwise.
pub proof fn lemma_tv_wf_seq_index(vs: Seq<TupleValue>)
    ensures
        tv_wf_seq(vs) <==> forall|i: int| 0 <= i < vs.len() ==> tv_wf(#[trigger] vs[i]),
    decreases vs,
{
    if vs.len() > 0 {
        lemma_tv_wf_seq_index(vs.skip(1));
        if tv_wf(vs[0]) && tv_wf_seq(vs.skip(1)) {
            assert forall|i: int| 0 <= i < vs.len() implies tv_wf(#[trigger] vs[i]) by {
                if i > 0 {
                    assert(vs[i] == vs.skip(1)[i - 1]);
                }
            }
        }
        if forall|i: int| 0 <= i < vs.len() ==> tv_wf(#[trigger] vs[i]) {
            assert forall|i: int| 0 <= i < vs.skip(1).len() implies tv_wf(
                #[trigger] vs.skip(1)[i],
            ) by {
                assert(vs.skip(1)[i] == vs[i + 1]);
            }
        }
    }
}

/// Appending one well-formed element keeps the sequence well formed.
pub proof fn lemma_tv_wf_seq_push(vs: Seq<TupleValue>, x: TupleValue)
    ensures
        tv_wf_seq(vs.push(x)) <==> tv_wf_seq(vs) && tv_wf(x),
{
    lemma_tv_wf_seq_index(vs);
    lemma_tv_wf_seq_index(vs.push(x));
    if tv_wf_seq(vs) && tv_wf(x) {
        assert forall|i: int| 0 <= i < vs.push(x).len() implies tv_wf(#[trigger] vs.push(x)[i]) by {
            if i < vs.len() {
                assert(vs.push(x)[i] == vs[i]);
            } else {
                assert(vs.push(x)[i] == x);
            }
        }
    }
    if tv_wf_seq(vs.push(x)) {
        assert forall|i: int| 0 <= i < vs.len() implies tv_wf(#[trigger] vs[i]) by {
            assert(vs[i] == vs.push(x)[i]);
        }
        assert(x == vs.push(x)[vs.len() as int]);
    }
}

/// Views distribute over concatenation.
pub proof fn lemma_tv_view_seq_concat(a: Seq<TupleValue>, b: Seq<TupleValue>)
    ensures
        tv_view_seq(a + b) =~= tv_view_seq(a) + tv_view_seq(b),
    decreases a,
{
    if a.len() == 0 {
        assert(a + b =~= b);
        assert(tv_view_seq(a) =~= Seq::<ElementView>::empty());
    } else {
        assert((a + b)[0] == a[0]);
        assert((a + b).skip(1) =~= a.skip(1) + b);
        lemma_tv_view_seq_concat(a.skip(1), b);
        assert(seq![tv_view(a[0])] + (tv_view_seq(a.skip(1)) + tv_view_seq(b)) =~= (seq![
            tv_view(a[0]),
        ] + tv_view_seq(a.skip(1))) + tv_view_seq(b));
    }
}

/// Well-formedness distributes over concatenation.
pub proof fn lemma_tv_wf_seq_concat(a: Seq<TupleValue>, b: Seq<TupleValue>)
    ensures
        tv_wf_seq(a + b) <==> tv_wf_seq(a) && tv_wf_seq(b),
    decreases a,
{
    if a.len() == 0 {
        assert(a + b =~= b);
    } else {
        assert((a + b)[0] == a[0]);
        assert((a + b).skip(1) =~= a.skip(1) + b);
        lemma_tv_wf_seq_concat(a.skip(1), b);
    }
}

/// Stored-form encodings concatenate over sequence concatenation.
pub proof fn lemma_repr_encode_seq_concat(a: Seq<TupleValue>, b: Seq<TupleValue>, nested: bool)
    ensures
        repr_encode_seq(a + b, nested) =~= repr_encode_seq(a, nested) + repr_encode_seq(b, nested),
    decreases a,
{
    if a.len() == 0 {
        assert(a + b =~= b);
        assert(repr_encode_seq(a, nested) =~= Seq::<u8>::empty());
    } else {
        assert((a + b)[0] == a[0]);
        assert((a + b).skip(1) =~= a.skip(1) + b);
        lemma_repr_encode_seq_concat(a.skip(1), b, nested);
        assert(repr_encode(a[0], nested) + (repr_encode_seq(a.skip(1), nested) + repr_encode_seq(
            b,
            nested,
        )) =~= (repr_encode(a[0], nested) + repr_encode_seq(a.skip(1), nested)) + repr_encode_seq(
            b,
            nested,
        ));
    }
}

/// Each element's encoding is no longer than its sequence's encoding.
pub proof fn lemma_repr_encode_piece_le(vs: Seq<TupleValue>, i: int, nested: bool)
    requires
        0 <= i < vs.len(),
    ensures
        repr_encode(vs[i], nested).len() <= repr_encode_seq(vs, nested).len(),
    decreases vs,
{
    if i > 0 {
        lemma_repr_encode_piece_le(vs.skip(1), i - 1, nested);
    }
}


/// Wire-inferred canonicity: every versionstamp's resolved flag is exactly
/// what would be inferred from its bytes (unresolved iff the transaction
/// version is all `0xFF`). Decoded tuples always satisfy this; a
/// constructor-built tuple fails it only for a resolved versionstamp whose
/// transaction version happens to be all `0xFF`.
pub open spec fn tv_canon(v: TupleValue) -> bool
    decreases v,
{
    match v {
        TupleValue::NestedTuple(t) => tv_canon_seq(t.elements@),
        TupleValue::Versionstamp96Bit(vs) => vs.complete == exists|j: int|
            0 <= j < vs.tr_version@.len() && vs.tr_version@[j] != 0xFF,
        _ => true,
    }
}

/// Wire-inferred canonicity of every element of a sequence.
pub open spec fn tv_canon_seq(vs: Seq<TupleValue>) -> bool
    decreases vs,
{
    if vs.len() == 0 {
        true
    } else {
        tv_canon(vs[0]) && tv_canon_seq(vs.skip(1))
    }
}

/// Appending one canonical element keeps the sequence canonical.
pub proof fn lemma_tv_canon_seq_push(vs: Seq<TupleValue>, x: TupleValue)
    ensures
        tv_canon_seq(vs.push(x)) <==> tv_canon_seq(vs) && tv_canon(x),
    decreases vs,
{
    if vs.len() == 0 {
        assert(vs.push(x)[0] == x);
        assert(vs.push(x).skip(1) =~= Seq::<TupleValue>::empty());
        assert(tv_canon_seq(Seq::<TupleValue>::empty()));
        assert(tv_canon_seq(vs.push(x)) == (tv_canon(x) && tv_canon_seq(
            Seq::<TupleValue>::empty(),
        )));
    } else {
        assert(vs.push(x)[0] == vs[0]);
        assert(vs.push(x).skip(1) =~= vs.skip(1).push(x));
        lemma_tv_canon_seq_push(vs.skip(1), x);
        assert(tv_canon_seq(vs.push(x)) == (tv_canon(vs[0]) && tv_canon_seq(vs.skip(1).push(x))));
        assert(tv_canon_seq(vs) == (tv_canon(vs[0]) && tv_canon_seq(vs.skip(1))));
    }
}

/// Byte offset, within the stored element's own encoding, of the
/// transaction version of the first unresolved versionstamp it contains.
pub open spec fn repr_stamp_offset(v: TupleValue, nested: bool) -> nat
    decreases v,
{
    match v {
        TupleValue::NestedTuple(t) => 1 + repr_stamp_offsets(t.elements@, true),
        _ => 1,
    }
}

/// Byte offset, within the stored sequence's encoding, of the transaction
/// version of the first unresolved versionstamp.
pub open spec fn repr_stamp_offsets(vs: Seq<TupleValue>, nested: bool) -> nat
    decreases vs,
{
    if vs.len() == 0 {
        0
    } else if incomplete_count_element(tv_view(vs[0])) > 0 {
        repr_stamp_offset(vs[0], nested)
    } else {
        repr_encode(vs[0], nested).len() + repr_stamp_offsets(vs.skip(1), nested)
    }
}

/// Where the first unresolved versionstamp of a concatenation sits: in the
/// left half if the left half has one, otherwise past the left half's
/// encoding.
pub proof fn lemma_repr_stamp_offsets_concat(a: Seq<TupleValue>, b: Seq<TupleValue>, nested: bool)
    ensures
        incomplete_count_elements(tv_view_seq(a)) >= 1 ==> repr_stamp_offsets(a + b, nested)
            == repr_stamp_offsets(a, nested),
        incomplete_count_elements(tv_view_seq(a)) == 0 ==> repr_stamp_offsets(a + b, nested)
            == repr_encode_seq(a, nested).len() + repr_stamp_offsets(b, nested),
    decreases a,
{
    lemma_tv_view_seq_len(a);
    if a.len() == 0 {
        assert(a + b =~= b);
        assert(repr_encode_seq(a, nested) =~= Seq::<u8>::empty());
    } else {
        assert((a + b)[0] == a[0]);
        assert((a + b).skip(1) =~= a.skip(1) + b);
        lemma_repr_stamp_offsets_concat(a.skip(1), b, nested);
        assert(tv_view_seq(a)[0] == tv_view(a[0]));
        lemma_tv_view_seq_skip(a);
        assert(incomplete_count_elements(tv_view_seq(a)) == incomplete_count_element(tv_view(a[0]))
            + incomplete_count_elements(tv_view_seq(a.skip(1))));
    }
}

/// The offset of a stored sequence's first unresolved versionstamp after
/// appending one element.
pub proof fn lemma_repr_stamp_offsets_push(vs: Seq<TupleValue>, x: TupleValue, nested: bool)
    ensures
        incomplete_count_elements(tv_view_seq(vs)) >= 1 ==> repr_stamp_offsets(vs.push(x), nested)
            == repr_stamp_offsets(vs, nested),
        incomplete_count_elements(tv_view_seq(vs)) == 0 && incomplete_count_element(tv_view(x))
            >= 1 ==> repr_stamp_offsets(vs.push(x), nested) == repr_encode_seq(vs, nested).len()
            + repr_stamp_offset(x, nested),
{
    assert(vs.push(x) =~= vs + seq![x]);
    lemma_repr_stamp_offsets_concat(vs, seq![x], nested);
    assert(seq![x][0] == x);
    assert(seq![x].skip(1) =~= Seq::<TupleValue>::empty());
}

/// The first unresolved versionstamp's offset never passes the end of the
/// stored encoding.
pub proof fn lemma_repr_stamp_offset_bound_seq(vs: Seq<TupleValue>, nested: bool)
    requires
        tv_wf_seq(vs),
    ensures
        repr_stamp_offsets(vs, nested) <= repr_encode_seq(vs, nested).len(),
    decreases vs, 0nat,
{
    if vs.len() == 0 {
    } else {
        lemma_repr_stamp_offset_bound_seq(vs.skip(1), nested);
        if incomplete_count_element(tv_view(vs[0])) > 0 {
            lemma_repr_stamp_offset_bound_element(vs[0], nested);
        }
        assert(repr_encode_seq(vs, nested) == repr_encode(vs[0], nested) + repr_encode_seq(
            vs.skip(1),
            nested,
        ));
    }
}

/// The offset within one stored element's encoding never passes its end.
pub proof fn lemma_repr_stamp_offset_bound_element(v: TupleValue, nested: bool)
    requires
        tv_wf(v),
        incomplete_count_element(tv_view(v)) >= 1,
    ensures
        repr_stamp_offset(v, nested) <= repr_encode(v, nested).len(),
    decreases v, 1nat,
{
    match v {
        TupleValue::NestedTuple(t) => {
            lemma_repr_stamp_offset_bound_seq(t.elements@, true);
        },
        _ => {},
    }
}

} // verus!
