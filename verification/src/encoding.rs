//! Mathematical model of the order-preserving tuple encoding.
//!
//! [`ElementView`] is the abstract value of one tuple element: integers are
//! modelled as unbounded `int`s (the width buckets of the wire format are a
//! property of the encoding, not of the value), text as a sequence of
//! characters, and floating-point elements as their IEEE-754 bit patterns.
//! [`spec_encode_elements`] maps a sequence of element views to the exact
//! byte sequence of the wire format; every executable contract in this crate
//! is stated against it.

use vstd::prelude::*;

verus! {

/// Abstract value of one tuple element.
pub enum ElementView {
    Null,
    Bytes(Seq<u8>),
    Text(Seq<char>),
    Nested(Seq<ElementView>),
    Int(int),
    /// IEEE-754 single-precision bit pattern.
    Float32(u32),
    /// IEEE-754 double-precision bit pattern.
    Float64(u64),
    Bool(bool),
    Uuid(Seq<u8>),
    Stamp { tr_version: Seq<u8>, user_version: u16, complete: bool },
}

/// 256 raised to `k`: the number of values a `k`-byte big-endian magnitude
/// can take.
pub open spec fn pow256(k: nat) -> nat
    decreases k,
{
    if k == 0 {
        1
    } else {
        256 * pow256((k - 1) as nat)
    }
}

/// Number of bytes of the shortest big-endian representation of `m`
/// (1 for `m == 0`).
pub open spec fn min_len(m: nat) -> nat
    decreases m,
{
    if m < 256 {
        1
    } else {
        1 + min_len(m / 256)
    }
}

/// Big-endian bytes of `m`, exactly `k` bytes wide (truncating above).
pub open spec fn be_bytes(m: nat, k: nat) -> Seq<u8>
    decreases k,
{
    if k == 0 {
        Seq::empty()
    } else {
        be_bytes(m / 256, (k - 1) as nat).push((m % 256) as u8)
    }
}

/// The value of a big-endian byte sequence.
pub open spec fn be_val(b: Seq<u8>) -> nat
    decreases b.len(),
{
    if b.len() == 0 {
        0
    } else {
        be_val(b.drop_last()) * 256 + b.last() as nat
    }
}

/// Little-endian bytes of `m`, exactly `k` bytes wide (truncating above);
/// used for the offset trailer appended when packing with a versionstamp.
pub open spec fn le_bytes(m: nat, k: nat) -> Seq<u8>
    decreases k,
{
    if k == 0 {
        Seq::empty()
    } else {
        seq![(m % 256) as u8] + le_bytes(m / 256, (k - 1) as nat)
    }
}

/// Bitwise complement of every byte.
pub open spec fn comp(b: Seq<u8>) -> Seq<u8> {
    Seq::new(b.len(), |i: int| (255 - b[i]) as u8)
}

/// Null-escaped form of a byte string: each `0x00` becomes `0x00 0xFF`.
pub open spec fn escape(b: Seq<u8>) -> Seq<u8>
    decreases b.len(),
{
    if b.len() == 0 {
        Seq::empty()
    } else if b[0] == 0 {
        seq![0u8, 0xFFu8] + escape(b.skip(1))
    } else {
        seq![b[0]] + escape(b.skip(1))
    }
}

/// Encoding of an integer element: a type code choosing the sign and the
/// tightest width bucket, then the big-endian magnitude, complemented for
/// negative values.
pub open spec fn spec_encode_int(i: int) -> Seq<u8> {
    if i == 0 {
        seq![0x14u8]
    } else if i > 0 {
        let m = i as nat;
        let k = min_len(m);
        if k <= 8 {
            seq![(0x14 + k) as u8] + be_bytes(m, k)
        } else {
            seq![0x1Du8, k as u8] + be_bytes(m, k)
        }
    } else {
        let m = (-i) as nat;
        let k = min_len(m);
        if k <= 8 {
            seq![(0x14 - k) as u8] + comp(be_bytes(m, k))
        } else {
            seq![0x0Bu8, (255 - k) as u8] + comp(be_bytes(m, k))
        }
    }
}

/// Order-preserving transform of a single-precision bit pattern: the sign
/// bit is flipped for non-negative values and all bits are flipped for
/// negative values.
pub open spec fn mangle32(bits: u32) -> nat {
    if bits < 0x8000_0000 {
        (bits + 0x8000_0000) as nat
    } else {
        (0xFFFF_FFFFu32 - bits) as nat
    }
}

/// Order-preserving transform of a double-precision bit pattern.
pub open spec fn mangle64(bits: u64) -> nat {
    if bits < 0x8000_0000_0000_0000 {
        (bits + 0x8000_0000_0000_0000) as nat
    } else {
        (0xFFFF_FFFF_FFFF_FFFFu64 - bits) as nat
    }
}

/// Encoding of one element. `nested` is true inside a nested tuple, where a
/// null is written `0x00 0xFF` to keep it distinct from the terminator.
pub open spec fn spec_encode_element(e: ElementView, nested: bool) -> Seq<u8>
    decreases e,
{
    match e {
        ElementView::Null => if nested {
            seq![0x00u8, 0xFFu8]
        } else {
            seq![0x00u8]
        },
        ElementView::Bytes(b) => seq![0x01u8] + escape(b) + seq![0x00u8],
        ElementView::Text(s) => seq![0x02u8] + escape(vstd::utf8::encode_utf8(s)) + seq![0x00u8],
        ElementView::Nested(es) => seq![0x05u8] + spec_encode_elements(es, true) + seq![0x00u8],
        ElementView::Int(i) => spec_encode_int(i),
        ElementView::Float32(bits) => seq![0x20u8] + be_bytes(mangle32(bits), 4),
        ElementView::Float64(bits) => seq![0x21u8] + be_bytes(mangle64(bits), 8),
        ElementView::Bool(b) => if b {
            seq![0x27u8]
        } else {
            seq![0x26u8]
        },
        ElementView::Uuid(b) => seq![0x30u8] + b,
        ElementView::Stamp { tr_version, user_version, .. } => seq![0x33u8] + tr_version
            + be_bytes(user_version as nat, 2),
    }
}

/// Encoding of a sequence of elements: the concatenation of the elements'
/// encodings, in order.
pub open spec fn spec_encode_elements(es: Seq<ElementView>, nested: bool) -> Seq<u8>
    decreases es,
{
    if es.len() == 0 {
        Seq::empty()
    } else {
        spec_encode_element(es[0], nested) + spec_encode_elements(es.skip(1), nested)
    }
}

/// Whether the element is, or contains, an unresolved versionstamp.
pub open spec fn has_incomplete_element(e: ElementView) -> bool
    decreases e,
{
    match e {
        ElementView::Nested(es) => has_incomplete_elements(es),
        ElementView::Stamp { complete, .. } => !complete,
        _ => false,
    }
}

/// Whether any element of the sequence contains an unresolved versionstamp.
pub open spec fn has_incomplete_elements(es: Seq<ElementView>) -> bool
    decreases es,
{
    if es.len() == 0 {
        false
    } else {
        has_incomplete_element(es[0]) || has_incomplete_elements(es.skip(1))
    }
}

/// Number of unresolved versionstamps in the element, at any nesting depth.
pub open spec fn incomplete_count_element(e: ElementView) -> nat
    decreases e,
{
    match e {
        ElementView::Nested(es) => incomplete_count_elements(es),
        ElementView::Stamp { complete, .. } => if complete {
            0
        } else {
            1
        },
        _ => 0,
    }
}

/// Number of unresolved versionstamps in the sequence, at any nesting depth.
pub open spec fn incomplete_count_elements(es: Seq<ElementView>) -> nat
    decreases es,
{
    if es.len() == 0 {
        0
    } else {
        incomplete_count_element(es[0]) + incomplete_count_elements(es.skip(1))
    }
}

/// Validity of one element view: magnitudes small enough for the wire
/// format, payloads of the fixed sizes, and, for versionstamps, the
/// resolved flag agreeing with the wire inference that a transaction
/// version is unresolved exactly when it is all `0xFF`.
pub open spec fn canon_element(e: ElementView) -> bool
    decreases e,
{
    match e {
        ElementView::Int(i) => -(pow256(255) as int) < i < pow256(255) as int,
        ElementView::Nested(es) => canon_elements(es),
        ElementView::Uuid(b) => b.len() == 16,
        ElementView::Stamp { tr_version, complete, .. } => tr_version.len() == 10 && (complete
            <==> exists|j: int| 0 <= j < 10 && tr_version[j] != 0xFF),
        _ => true,
    }
}

/// Validity of every element of the sequence.
pub open spec fn canon_elements(es: Seq<ElementView>) -> bool
    decreases es,
{
    if es.len() == 0 {
        true
    } else {
        canon_element(es[0]) && canon_elements(es.skip(1))
    }
}

/// Escaped form of a single byte.
pub open spec fn escape1(x: u8) -> Seq<u8> {
    if x == 0 {
        seq![0u8, 0xFFu8]
    } else {
        seq![x]
    }
}

/// Escaping processes one byte at a time, from either end.
pub proof fn lemma_escape_push(b: Seq<u8>, x: u8)
    ensures
        escape(b.push(x)) =~= escape(b) + escape1(x),
    decreases b,
{
    if b.len() == 0 {
        assert(b.push(x)[0] == x);
        assert(b.push(x).skip(1) =~= Seq::<u8>::empty());
        assert(escape(Seq::<u8>::empty()) =~= Seq::<u8>::empty());
    } else {
        assert(b.push(x)[0] == b[0]);
        assert(b.push(x).skip(1) =~= b.skip(1).push(x));
        lemma_escape_push(b.skip(1), x);
        assert(escape1(b[0]) + (escape(b.skip(1)) + escape1(x)) =~= (escape1(b[0]) + escape(
            b.skip(1),
        )) + escape1(x));
        assert(escape(b) == escape1(b[0]) + escape(b.skip(1)));
        assert(escape(b.push(x)) == escape1(b[0]) + escape(b.skip(1).push(x)));
    }
}

/// An unresolved versionstamp in an extended sequence is in the old part or
/// in the new element.
pub proof fn lemma_has_incomplete_push(es: Seq<ElementView>, x: ElementView)
    ensures
        has_incomplete_elements(es.push(x)) == (has_incomplete_elements(es)
            || has_incomplete_element(x)),
    decreases es,
{
    if es.len() == 0 {
        assert(es.push(x)[0] == x);
        assert(es.push(x).skip(1) =~= Seq::<ElementView>::empty());
        assert(!has_incomplete_elements(Seq::<ElementView>::empty()));
    } else {
        assert(es.push(x)[0] == es[0]);
        assert(es.push(x).skip(1) =~= es.skip(1).push(x));
        lemma_has_incomplete_push(es.skip(1), x);
        assert(has_incomplete_elements(es.push(x)) == (has_incomplete_element(es[0])
            || has_incomplete_elements(es.skip(1).push(x))));
        assert(has_incomplete_elements(es) == (has_incomplete_element(es[0])
            || has_incomplete_elements(es.skip(1))));
    }
}

/// An unresolved versionstamp in a concatenation is in one of the halves.
pub proof fn lemma_has_incomplete_concat(a: Seq<ElementView>, b: Seq<ElementView>)
    ensures
        has_incomplete_elements(a + b) == (has_incomplete_elements(a) || has_incomplete_elements(
            b,
        )),
    decreases a,
{
    if a.len() == 0 {
        assert(a + b =~= b);
    } else {
        assert((a + b)[0] == a[0]);
        assert((a + b).skip(1) =~= a.skip(1) + b);
        lemma_has_incomplete_concat(a.skip(1), b);
    }
}

/// The number of unresolved versionstamps adds over concatenation.
pub proof fn lemma_incomplete_count_concat(a: Seq<ElementView>, b: Seq<ElementView>)
    ensures
        incomplete_count_elements(a + b) == incomplete_count_elements(a)
            + incomplete_count_elements(b),
    decreases a,
{
    if a.len() == 0 {
        assert(a + b =~= b);
    } else {
        assert((a + b)[0] == a[0]);
        assert((a + b).skip(1) =~= a.skip(1) + b);
        lemma_incomplete_count_concat(a.skip(1), b);
    }
}

/// A sequence has an unresolved versionstamp exactly when it has at least
/// one.
pub proof fn lemma_has_incomplete_iff_count(es: Seq<ElementView>)
    ensures
        has_incomplete_elements(es) <==> incomplete_count_elements(es) >= 1,
    decreases es,
{
    if es.len() > 0 {
        lemma_has_incomplete_iff_count(es.skip(1));
        lemma_has_incomplete_iff_count_element(es[0]);
    }
}

/// An element has an unresolved versionstamp exactly when it contains at
/// least one.
pub proof fn lemma_has_incomplete_iff_count_element(e: ElementView)
    ensures
        has_incomplete_element(e) <==> incomplete_count_element(e) >= 1,
    decreases e,
{
    match e {
        ElementView::Nested(es) => {
            lemma_has_incomplete_iff_count(es);
        },
        _ => {},
    }
}

/// Encodings concatenate over sequence concatenation.
pub proof fn lemma_spec_encode_elements_concat(a: Seq<ElementView>, b: Seq<ElementView>, nested: bool)
    ensures
        spec_encode_elements(a + b, nested) =~= spec_encode_elements(a, nested)
            + spec_encode_elements(b, nested),
    decreases a,
{
    if a.len() == 0 {
        assert(a + b =~= b);
        assert(spec_encode_elements(a, nested) =~= Seq::<u8>::empty());
    } else {
        assert((a + b)[0] == a[0]);
        assert((a + b).skip(1) =~= a.skip(1) + b);
        lemma_spec_encode_elements_concat(a.skip(1), b, nested);
        assert(spec_encode_element(a[0], nested) + (spec_encode_elements(a.skip(1), nested)
            + spec_encode_elements(b, nested)) =~= (spec_encode_element(a[0], nested)
            + spec_encode_elements(a.skip(1), nested)) + spec_encode_elements(b, nested));
    }
}

/// The count of unresolved versionstamps after appending one element.
pub proof fn lemma_incomplete_count_push(es: Seq<ElementView>, x: ElementView)
    ensures
        incomplete_count_elements(es.push(x)) == incomplete_count_elements(es)
            + incomplete_count_element(x),
{
    assert(es.push(x) =~= es + seq![x]);
    lemma_incomplete_count_concat(es, seq![x]);
    assert(seq![x][0] == x);
    assert(seq![x].skip(1) =~= Seq::<ElementView>::empty());
    assert(incomplete_count_elements(Seq::<ElementView>::empty()) == 0);
    assert(incomplete_count_elements(seq![x]) == incomplete_count_element(x));
}


} // verus!
