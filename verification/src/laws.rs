//! The laws of the wire format: no two distinct well-formed element
//! sequences share an encoding, so decoding inverts encoding.
//!
//! The proof works byte by byte: every element's encoding starts with a
//! type-code byte that is never `0xFF`, the escaped form of a byte string
//! can be cut from the stream in only one way when the following byte is not
//! `0xFF`, and each payload determines its element. Together these give the
//! unique-parse lemmas and, from them, injectivity of the encoding.

use vstd::prelude::*;

use crate::bigint::{
    lemma_be_bytes_leading, lemma_be_bytes_len, lemma_be_bytes_val, lemma_be_val_bound,
    lemma_min_len_bounds, lemma_pow256_increases_le,
};
use crate::element::{
    repr_encode, repr_encode_seq, repr_stamp_offset, repr_stamp_offsets, tv_canon, tv_canon_seq,
    tv_size, tv_size_seq, tv_tight, tv_view, tv_view_seq, tv_wf, tv_wf_seq, TupleValue,
};
use crate::encoding::{
    be_bytes, be_val, canon_element, canon_elements, comp, escape, incomplete_count_element,
    incomplete_count_elements, mangle32, mangle64, min_len, pow256, spec_encode_element,
    spec_encode_elements, spec_encode_int, ElementView,
};

verus! {

/// Whether `rest` can follow a terminator: it is empty or does not start
/// with the escape continuation byte `0xFF`.
pub open spec fn okstart(rest: Seq<u8>) -> bool {
    rest.len() == 0 || rest[0] != 0xFF
}

/// Structural size of an element view, the induction measure for the
/// unique-parse lemmas.
pub open spec fn size_element(e: ElementView) -> nat
    decreases e,
{
    match e {
        ElementView::Nested(es) => 1 + size_elements(es),
        _ => 1,
    }
}

/// Structural size of a sequence of element views.
pub open spec fn size_elements(es: Seq<ElementView>) -> nat
    decreases es,
{
    if es.len() == 0 {
        0
    } else {
        size_element(es[0]) + size_elements(es.skip(1))
    }
}

/// The type-code byte that starts an element's encoding.
pub open spec fn elem_code(e: ElementView, nested: bool) -> u8 {
    match e {
        ElementView::Null => 0x00,
        ElementView::Bytes(_) => 0x01,
        ElementView::Text(_) => 0x02,
        ElementView::Nested(_) => 0x05,
        ElementView::Int(i) => int_code(i),
        ElementView::Float32(_) => 0x20,
        ElementView::Float64(_) => 0x21,
        ElementView::Bool(b) => if b {
            0x27u8
        } else {
            0x26u8
        },
        ElementView::Uuid(_) => 0x30,
        ElementView::Stamp { .. } => 0x33,
    }
}

/// The type-code byte of an integer element: sign and width bucket.
pub open spec fn int_code(i: int) -> u8 {
    if i == 0 {
        0x14u8
    } else if i > 0 {
        if min_len(i as nat) <= 8 {
            (0x14 + min_len(i as nat)) as u8
        } else {
            0x1Du8
        }
    } else {
        if min_len((-i) as nat) <= 8 {
            (0x14 - min_len((-i) as nat)) as u8
        } else {
            0x0Bu8
        }
    }
}

/// The minimal width is at least one byte.
pub proof fn lemma_min_len_pos(m: nat)
    ensures
        min_len(m) >= 1,
{
}

/// Every element encoding starts with its type code, which is never `0xFF`,
/// and is at least one byte long.
pub proof fn lemma_enc_code(e: ElementView, nested: bool)
    ensures
        spec_encode_element(e, nested).len() >= 1,
        spec_encode_element(e, nested)[0] == elem_code(e, nested),
        elem_code(e, nested) != 0xFF,
        0x00 <= elem_code(e, nested) <= 0x33,
{
    match e {
        ElementView::Int(i) => {
            if i > 0 {
                lemma_min_len_pos(i as nat);
                lemma_be_bytes_len(i as nat, min_len(i as nat));
            } else if i < 0 {
                lemma_min_len_pos((-i) as nat);
                lemma_be_bytes_len((-i) as nat, min_len((-i) as nat));
            }
        },
        _ => {},
    }
}

/// Two equal concatenations with equal-length left parts have equal parts.
pub proof fn lemma_concat_cancel(a: Seq<u8>, r1: Seq<u8>, b: Seq<u8>, r2: Seq<u8>)
    requires
        a + r1 == b + r2,
        a.len() == b.len(),
    ensures
        a == b,
        r1 == r2,
{
    let total = a + r1;
    assert(a =~= total.subrange(0, a.len() as int));
    assert(b =~= total.subrange(0, b.len() as int));
    assert(r1 =~= total.subrange(a.len() as int, total.len() as int));
    assert(r2 =~= total.subrange(b.len() as int, total.len() as int));
}

/// An escaped byte string followed by its terminator can be cut from the
/// stream in only one way, provided the stream does not continue with
/// `0xFF`.
pub proof fn lemma_escape_unique(b1: Seq<u8>, b2: Seq<u8>, r1: Seq<u8>, r2: Seq<u8>)
    requires
        escape(b1) + seq![0x00u8] + r1 == escape(b2) + seq![0x00u8] + r2,
        okstart(r1),
        okstart(r2),
    ensures
        b1 == b2,
        r1 == r2,
    decreases b1.len() + b2.len(),
{
    let total = escape(b1) + seq![0x00u8] + r1;
    if b1.len() == 0 && b2.len() == 0 {
        assert(escape(b1) =~= Seq::<u8>::empty());
        assert(escape(b2) =~= Seq::<u8>::empty());
        lemma_concat_cancel(
            escape(b1) + seq![0x00u8],
            r1,
            escape(b2) + seq![0x00u8],
            r2,
        );
        assert(b1 =~= b2);
    } else if b1.len() == 0 {
        // the stream starts 0x00 then r1; b2's escape would force 0xFF or a
        // nonzero byte right after that 0x00
        assert(escape(b1) =~= Seq::<u8>::empty());
        assert(total[0] == 0x00);
        if b2[0] == 0 {
            assert(escape(b2) == seq![0u8, 0xFFu8] + escape(b2.skip(1)));
            assert(total[1] == 0xFF);
            assert(total == seq![0x00u8] + r1);
            assert(total.len() == 1 + r1.len());
            assert(total.len() >= escape(b2).len() + 1);
            assert(escape(b2).len() >= 2) by {
                assert(escape(b2)[0] == 0x00);
            }
            assert(r1.len() >= 1);
            assert(r1[0] == total[1]);
            assert(false);
        } else {
            assert(escape(b2) == seq![b2[0]] + escape(b2.skip(1)));
            assert(total[0] == b2[0]);
            assert(false);
        }
    } else if b2.len() == 0 {
        assert(escape(b2) =~= Seq::<u8>::empty());
        assert(total[0] == 0x00);
        if b1[0] == 0 {
            assert(escape(b1) == seq![0u8, 0xFFu8] + escape(b1.skip(1)));
            assert(total[1] == 0xFF);
            assert(escape(b2) + seq![0x00u8] + r2 == seq![0x00u8] + r2);
            assert(total.len() == 1 + r2.len());
            assert(r2.len() >= 1);
            assert(r2[0] == total[1]);
            assert(false);
        } else {
            assert(escape(b1) == seq![b1[0]] + escape(b1.skip(1)));
            assert(total[0] == b1[0]);
            assert(false);
        }
    } else {
        if b1[0] == 0 {
            assert(escape(b1) == seq![0u8, 0xFFu8] + escape(b1.skip(1)));
            assert(total[0] == 0x00);
            if b2[0] != 0 {
                assert(escape(b2) == seq![b2[0]] + escape(b2.skip(1)));
                assert(total[0] == b2[0]);
                assert(false);
            }
            assert(escape(b2) == seq![0u8, 0xFFu8] + escape(b2.skip(1)));
            assert(total =~= seq![0u8, 0xFFu8] + (escape(b1.skip(1)) + seq![0x00u8] + r1));
            assert(escape(b2) + seq![0x00u8] + r2 =~= seq![0u8, 0xFFu8] + (escape(b2.skip(1))
                + seq![0x00u8] + r2));
            lemma_concat_cancel(
                seq![0u8, 0xFFu8],
                escape(b1.skip(1)) + seq![0x00u8] + r1,
                seq![0u8, 0xFFu8],
                escape(b2.skip(1)) + seq![0x00u8] + r2,
            );
            lemma_escape_unique(b1.skip(1), b2.skip(1), r1, r2);
            assert(b1 =~= seq![b1[0]] + b1.skip(1));
            assert(b2 =~= seq![b2[0]] + b2.skip(1));
        } else {
            assert(escape(b1) == seq![b1[0]] + escape(b1.skip(1)));
            assert(total[0] == b1[0]);
            if b2[0] == 0 {
                assert(escape(b2) == seq![0u8, 0xFFu8] + escape(b2.skip(1)));
                assert(total[0] == 0x00);
                assert(false);
            }
            assert(escape(b2) == seq![b2[0]] + escape(b2.skip(1)));
            assert(total[0] == b2[0]);
            assert(total =~= seq![b1[0]] + (escape(b1.skip(1)) + seq![0x00u8] + r1));
            assert(escape(b2) + seq![0x00u8] + r2 =~= seq![b2[0]] + (escape(b2.skip(1)) + seq![
                0x00u8,
            ] + r2));
            lemma_concat_cancel(
                seq![b1[0]],
                escape(b1.skip(1)) + seq![0x00u8] + r1,
                seq![b2[0]],
                escape(b2.skip(1)) + seq![0x00u8] + r2,
            );
            lemma_escape_unique(b1.skip(1), b2.skip(1), r1, r2);
            assert(b1 =~= seq![b1[0]] + b1.skip(1));
            assert(b2 =~= seq![b2[0]] + b2.skip(1));
        }
    }
}

/// Complementing bytes is injective.
pub proof fn lemma_comp_injective(a: Seq<u8>, b: Seq<u8>)
    requires
        crate::encoding::comp(a) == crate::encoding::comp(b),
        a.len() == b.len(),
    ensures
        a == b,
{
    assert forall|i: int| 0 <= i < a.len() implies a[i] == b[i] by {
        assert(crate::encoding::comp(a)[i] == (255 - a[i]) as u8);
        assert(crate::encoding::comp(b)[i] == (255 - b[i]) as u8);
    }
    assert(a =~= b);
}

/// A stream that continues with the encoding of a possibly empty element
/// sequence and then a terminator never starts with `0xFF`.
pub proof fn lemma_okstart_terminated(es: Seq<ElementView>, nested: bool, r: Seq<u8>)
    ensures
        okstart(spec_encode_elements(es, nested) + seq![0x00u8] + r),
{
    let total = spec_encode_elements(es, nested) + seq![0x00u8] + r;
    if es.len() == 0 {
        assert(spec_encode_elements(es, nested) =~= Seq::<u8>::empty());
        assert(total[0] == 0x00);
    } else {
        lemma_enc_code(es[0], nested);
        assert(spec_encode_elements(es, nested) == spec_encode_element(es[0], nested)
            + spec_encode_elements(es.skip(1), nested));
        assert(total[0] == spec_encode_element(es[0], nested)[0]);
    }
}

/// A stream that continues with the encoding of a possibly empty element
/// sequence never starts with `0xFF`.
pub proof fn lemma_okstart_plain(es: Seq<ElementView>, nested: bool)
    ensures
        okstart(spec_encode_elements(es, nested)),
{
    if es.len() > 0 {
        lemma_enc_code(es[0], nested);
        assert(spec_encode_elements(es, nested) == spec_encode_element(es[0], nested)
            + spec_encode_elements(es.skip(1), nested));
        assert(spec_encode_elements(es, nested)[0] == spec_encode_element(es[0], nested)[0]);
    }
}

/// Unique parse of one element: if two well-formed elements' encodings start
/// the same stream, and the stream cannot confuse a continuation for an
/// escape, the elements and the remainders agree.
pub proof fn lemma_unique_element(
    x: ElementView,
    y: ElementView,
    nested: bool,
    r1: Seq<u8>,
    r2: Seq<u8>,
)
    requires
        canon_element(x),
        canon_element(y),
        okstart(r1),
        okstart(r2),
        spec_encode_element(x, nested) + r1 == spec_encode_element(y, nested) + r2,
    ensures
        x == y,
        r1 == r2,
    decreases size_element(x), 0nat,
{
    let ex = spec_encode_element(x, nested);
    let ey = spec_encode_element(y, nested);
    lemma_enc_code(x, nested);
    lemma_enc_code(y, nested);
    assert((ex + r1)[0] == ex[0]);
    assert((ey + r2)[0] == ey[0]);
    assert(elem_code(x, nested) == elem_code(y, nested));
    match (x, y) {
        (ElementView::Null, ElementView::Null) => {
            lemma_concat_cancel(ex, r1, ey, r2);
        },
        (ElementView::Bytes(p1), ElementView::Bytes(p2)) => {
            assert(ex + r1 =~= seq![0x01u8] + (escape(p1) + seq![0x00u8] + r1));
            assert(ey + r2 =~= seq![0x01u8] + (escape(p2) + seq![0x00u8] + r2));
            lemma_concat_cancel(
                seq![0x01u8],
                escape(p1) + seq![0x00u8] + r1,
                seq![0x01u8],
                escape(p2) + seq![0x00u8] + r2,
            );
            lemma_escape_unique(p1, p2, r1, r2);
        },
        (ElementView::Text(s1), ElementView::Text(s2)) => {
            let u1 = vstd::utf8::encode_utf8(s1);
            let u2 = vstd::utf8::encode_utf8(s2);
            assert(ex + r1 =~= seq![0x02u8] + (escape(u1) + seq![0x00u8] + r1));
            assert(ey + r2 =~= seq![0x02u8] + (escape(u2) + seq![0x00u8] + r2));
            lemma_concat_cancel(
                seq![0x02u8],
                escape(u1) + seq![0x00u8] + r1,
                seq![0x02u8],
                escape(u2) + seq![0x00u8] + r2,
            );
            lemma_escape_unique(u1, u2, r1, r2);
            vstd::utf8::encode_utf8_decode_utf8(s1);
            vstd::utf8::encode_utf8_decode_utf8(s2);
        },
        (ElementView::Nested(es1), ElementView::Nested(es2)) => {
            assert(ex + r1 =~= seq![0x05u8] + (spec_encode_elements(es1, true) + seq![0x00u8]
                + r1));
            assert(ey + r2 =~= seq![0x05u8] + (spec_encode_elements(es2, true) + seq![0x00u8]
                + r2));
            lemma_concat_cancel(
                seq![0x05u8],
                spec_encode_elements(es1, true) + seq![0x00u8] + r1,
                seq![0x05u8],
                spec_encode_elements(es2, true) + seq![0x00u8] + r2,
            );
            lemma_unique_elements(es1, es2, r1, r2);
        },
        (ElementView::Int(i), ElementView::Int(j)) => {
            lemma_unique_int(i, j, r1, r2);
        },
        (ElementView::Float32(b1), ElementView::Float32(b2)) => {
            lemma_be_bytes_len(mangle32(b1), 4);
            lemma_be_bytes_len(mangle32(b2), 4);
            lemma_concat_cancel(ex, r1, ey, r2);
            assert(ex.subrange(1, 5) =~= be_bytes(mangle32(b1), 4));
            assert(ey.subrange(1, 5) =~= be_bytes(mangle32(b2), 4));
            crate::element::lemma_pow256_values();
            lemma_be_bytes_val(mangle32(b1), 4);
            lemma_be_bytes_val(mangle32(b2), 4);
        },
        (ElementView::Float64(b1), ElementView::Float64(b2)) => {
            lemma_be_bytes_len(mangle64(b1), 8);
            lemma_be_bytes_len(mangle64(b2), 8);
            lemma_concat_cancel(ex, r1, ey, r2);
            assert(ex.subrange(1, 9) =~= be_bytes(mangle64(b1), 8));
            assert(ey.subrange(1, 9) =~= be_bytes(mangle64(b2), 8));
            crate::element::lemma_pow256_values();
            lemma_be_bytes_val(mangle64(b1), 8);
            lemma_be_bytes_val(mangle64(b2), 8);
        },
        (ElementView::Bool(b1), ElementView::Bool(b2)) => {
            lemma_concat_cancel(ex, r1, ey, r2);
        },
        (ElementView::Uuid(u1), ElementView::Uuid(u2)) => {
            lemma_concat_cancel(ex, r1, ey, r2);
            assert(u1 =~= ex.subrange(1, 17));
            assert(u2 =~= ey.subrange(1, 17));
        },
        (
            ElementView::Stamp { tr_version: t1, user_version: u1, complete: c1 },
            ElementView::Stamp { tr_version: t2, user_version: u2, complete: c2 },
        ) => {
            lemma_be_bytes_len(u1 as nat, 2);
            lemma_be_bytes_len(u2 as nat, 2);
            lemma_concat_cancel(ex, r1, ey, r2);
            assert(t1 =~= ex.subrange(1, 11));
            assert(t2 =~= ey.subrange(1, 11));
            assert(be_bytes(u1 as nat, 2) =~= ex.subrange(11, 13));
            assert(be_bytes(u2 as nat, 2) =~= ey.subrange(11, 13));
            crate::element::lemma_pow256_values();
            lemma_be_bytes_val(u1 as nat, 2);
            lemma_be_bytes_val(u2 as nat, 2);
            assert(t1 == t2);
            assert(c1 == c2);
        },
        _ => {
            lemma_codes_separate(x, nested);
            lemma_codes_separate(y, nested);
            assert(false);
        },
    }
}

/// The type-code ranges of the element kinds do not overlap.
proof fn lemma_codes_separate(e: ElementView, nested: bool)
    ensures
        e is Int ==> 0x0B <= elem_code(e, nested) <= 0x1D,
        !(e is Int) ==> !(0x0B <= elem_code(e, nested) <= 0x1D),
{
    match e {
        ElementView::Int(i) => {
            if i > 0 {
                lemma_min_len_pos(i as nat);
            } else if i < 0 {
                lemma_min_len_pos((-i) as nat);
            }
        },
        _ => {},
    }
}

/// Unique parse of an integer element.
pub proof fn lemma_unique_int(i: int, j: int, r1: Seq<u8>, r2: Seq<u8>)
    requires
        -(pow256(255) as int) < i < pow256(255) as int,
        -(pow256(255) as int) < j < pow256(255) as int,
        spec_encode_int(i) + r1 == spec_encode_int(j) + r2,
        int_code(i) == int_code(j),
    ensures
        i == j,
        r1 == r2,
{
    let ei = spec_encode_int(i);
    let ej = spec_encode_int(j);
    if i == 0 {
        assert(j == 0) by {
            if j > 0 {
                lemma_min_len_pos(j as nat);
            } else if j < 0 {
                lemma_min_len_pos((-j) as nat);
            }
        }
        lemma_concat_cancel(ei, r1, ej, r2);
    } else if i > 0 {
        lemma_min_len_pos(i as nat);
        lemma_min_len_bounds(i as nat);
        if j == 0 {
            assert(false);
        } else if j < 0 {
            lemma_min_len_pos((-j) as nat);
            assert(false);
        }
        lemma_min_len_pos(j as nat);
        lemma_min_len_bounds(j as nat);
        let ki = min_len(i as nat);
        let kj = min_len(j as nat);
        if ki <= 8 {
            assert(kj <= 8 && kj == ki);
            lemma_be_bytes_len(i as nat, ki);
            lemma_be_bytes_len(j as nat, kj);
            lemma_concat_cancel(ei, r1, ej, r2);
            assert(be_bytes(i as nat, ki) =~= ei.subrange(1, ei.len() as int));
            assert(be_bytes(j as nat, kj) =~= ej.subrange(1, ej.len() as int));
            lemma_be_bytes_val(i as nat, ki);
            lemma_be_bytes_val(j as nat, kj);
        } else {
            assert(kj > 8);
            crate::bigint::lemma_min_len_le(i as nat, 255);
            crate::bigint::lemma_min_len_le(j as nat, 255);
            lemma_be_bytes_len(i as nat, ki);
            lemma_be_bytes_len(j as nat, kj);
            assert((ei + r1)[1] == (ki as u8));
            assert((ej + r2)[1] == (kj as u8));
            assert(ki == kj);
            lemma_concat_cancel(ei, r1, ej, r2);
            assert(be_bytes(i as nat, ki) =~= ei.subrange(2, ei.len() as int));
            assert(be_bytes(j as nat, kj) =~= ej.subrange(2, ej.len() as int));
            lemma_be_bytes_val(i as nat, ki);
            lemma_be_bytes_val(j as nat, kj);
        }
    } else {
        lemma_min_len_pos((-i) as nat);
        lemma_min_len_bounds((-i) as nat);
        if j == 0 {
            assert(false);
        } else if j > 0 {
            lemma_min_len_pos(j as nat);
            assert(false);
        }
        lemma_min_len_pos((-j) as nat);
        lemma_min_len_bounds((-j) as nat);
        let ki = min_len((-i) as nat);
        let kj = min_len((-j) as nat);
        if ki <= 8 {
            assert(kj <= 8 && kj == ki);
            lemma_be_bytes_len((-i) as nat, ki);
            lemma_be_bytes_len((-j) as nat, kj);
            lemma_concat_cancel(ei, r1, ej, r2);
            assert(crate::encoding::comp(be_bytes((-i) as nat, ki)) =~= ei.subrange(
                1,
                ei.len() as int,
            ));
            assert(crate::encoding::comp(be_bytes((-j) as nat, kj)) =~= ej.subrange(
                1,
                ej.len() as int,
            ));
            lemma_comp_injective(be_bytes((-i) as nat, ki), be_bytes((-j) as nat, kj));
            lemma_be_bytes_val((-i) as nat, ki);
            lemma_be_bytes_val((-j) as nat, kj);
        } else {
            assert(kj > 8);
            crate::bigint::lemma_min_len_le((-i) as nat, 255);
            crate::bigint::lemma_min_len_le((-j) as nat, 255);
            lemma_be_bytes_len((-i) as nat, ki);
            lemma_be_bytes_len((-j) as nat, kj);
            assert((ei + r1)[1] == ((255 - ki) as u8));
            assert((ej + r2)[1] == ((255 - kj) as u8));
            assert(ki == kj);
            lemma_concat_cancel(ei, r1, ej, r2);
            assert(crate::encoding::comp(be_bytes((-i) as nat, ki)) =~= ei.subrange(
                2,
                ei.len() as int,
            ));
            assert(crate::encoding::comp(be_bytes((-j) as nat, kj)) =~= ej.subrange(
                2,
                ej.len() as int,
            ));
            lemma_comp_injective(be_bytes((-i) as nat, ki), be_bytes((-j) as nat, kj));
            lemma_be_bytes_val((-i) as nat, ki);
            lemma_be_bytes_val((-j) as nat, kj);
        }
    }
}

/// Unique parse of a terminated element sequence, as found inside a nested
/// tuple.
pub proof fn lemma_unique_elements(
    es1: Seq<ElementView>,
    es2: Seq<ElementView>,
    r1: Seq<u8>,
    r2: Seq<u8>,
)
    requires
        canon_elements(es1),
        canon_elements(es2),
        okstart(r1),
        okstart(r2),
        spec_encode_elements(es1, true) + seq![0x00u8] + r1 == spec_encode_elements(es2, true)
            + seq![0x00u8] + r2,
    ensures
        es1 == es2,
        r1 == r2,
    decreases size_elements(es1), 1nat,
{
    let total = spec_encode_elements(es1, true) + seq![0x00u8] + r1;
    if es1.len() == 0 && es2.len() == 0 {
        assert(spec_encode_elements(es1, true) =~= Seq::<u8>::empty());
        assert(spec_encode_elements(es2, true) =~= Seq::<u8>::empty());
        lemma_concat_cancel(
            spec_encode_elements(es1, true) + seq![0x00u8],
            r1,
            spec_encode_elements(es2, true) + seq![0x00u8],
            r2,
        );
        assert(es1 =~= es2);
    } else if es1.len() == 0 {
        assert(spec_encode_elements(es1, true) =~= Seq::<u8>::empty());
        assert(total[0] == 0x00);
        lemma_enc_code(es2[0], true);
        assert(spec_encode_elements(es2, true) == spec_encode_element(es2[0], true)
            + spec_encode_elements(es2.skip(1), true));
        assert(total[0] == spec_encode_element(es2[0], true)[0]);
        // only a nested null starts with 0x00, and it pins the next byte to 0xFF
        assert(es2[0] is Null) by {
            lemma_codes_separate(es2[0], true);
            if !(es2[0] is Null) {
                assert(elem_code(es2[0], true) != 0x00);
            }
        }
        assert(spec_encode_element(es2[0], true) =~= seq![0x00u8, 0xFFu8]);
        assert(total[1] == 0xFF) by {
            assert(total =~= seq![0x00u8, 0xFFu8] + (spec_encode_elements(es2.skip(1), true)
                + seq![0x00u8] + r2));
        }
        assert(total =~= seq![0x00u8] + r1);
        assert(r1.len() >= 1 && r1[0] == 0xFF);
        assert(false);
    } else if es2.len() == 0 {
        assert(spec_encode_elements(es2, true) =~= Seq::<u8>::empty());
        assert(total[0] == 0x00) by {
            assert(spec_encode_elements(es2, true) + seq![0x00u8] + r2 =~= seq![0x00u8] + r2);
        }
        lemma_enc_code(es1[0], true);
        assert(spec_encode_elements(es1, true) == spec_encode_element(es1[0], true)
            + spec_encode_elements(es1.skip(1), true));
        assert(total[0] == spec_encode_element(es1[0], true)[0]);
        assert(es1[0] is Null) by {
            lemma_codes_separate(es1[0], true);
            if !(es1[0] is Null) {
                assert(elem_code(es1[0], true) != 0x00);
            }
        }
        assert(spec_encode_element(es1[0], true) =~= seq![0x00u8, 0xFFu8]);
        assert(total[1] == 0xFF) by {
            assert(total =~= seq![0x00u8, 0xFFu8] + (spec_encode_elements(es1.skip(1), true)
                + seq![0x00u8] + r1));
        }
        assert(spec_encode_elements(es2, true) + seq![0x00u8] + r2 =~= seq![0x00u8] + r2);
        assert(r2.len() >= 1 && r2[0] == 0xFF);
        assert(false);
    } else {
        assert(spec_encode_elements(es1, true) == spec_encode_element(es1[0], true)
            + spec_encode_elements(es1.skip(1), true));
        assert(spec_encode_elements(es2, true) == spec_encode_element(es2[0], true)
            + spec_encode_elements(es2.skip(1), true));
        let t1 = spec_encode_elements(es1.skip(1), true) + seq![0x00u8] + r1;
        let t2 = spec_encode_elements(es2.skip(1), true) + seq![0x00u8] + r2;
        assert(total =~= spec_encode_element(es1[0], true) + t1);
        assert(spec_encode_elements(es2, true) + seq![0x00u8] + r2 =~= spec_encode_element(
            es2[0],
            true,
        ) + t2);
        lemma_okstart_terminated(es1.skip(1), true, r1);
        lemma_okstart_terminated(es2.skip(1), true, r2);
        assert(size_element(es1[0]) >= 1);
        lemma_unique_element(es1[0], es2[0], true, t1, t2);
        lemma_unique_elements(es1.skip(1), es2.skip(1), r1, r2);
        assert(es1 =~= seq![es1[0]] + es1.skip(1));
        assert(es2 =~= seq![es2[0]] + es2.skip(1));
    }
}

/// Law: the encoding is injective on well-formed element sequences. No two
/// distinct sequences share packed bytes, so, together with the contracts
/// of `Tuple::pack` and `Tuple::from_bytes`, decoding a packed tuple can
/// only return that tuple.
pub proof fn lemma_encode_elements_injective(a: Seq<ElementView>, b: Seq<ElementView>)
    requires
        canon_elements(a),
        canon_elements(b),
        spec_encode_elements(a, false) == spec_encode_elements(b, false),
    ensures
        a == b,
    decreases size_elements(a),
{
    if a.len() == 0 && b.len() == 0 {
        assert(a =~= b);
    } else if a.len() == 0 {
        lemma_enc_code(b[0], false);
        assert(spec_encode_elements(b, false) == spec_encode_element(b[0], false)
            + spec_encode_elements(b.skip(1), false));
        assert(spec_encode_elements(a, false) =~= Seq::<u8>::empty());
        assert(spec_encode_elements(b, false).len() >= 1);
    } else if b.len() == 0 {
        lemma_enc_code(a[0], false);
        assert(spec_encode_elements(a, false) == spec_encode_element(a[0], false)
            + spec_encode_elements(a.skip(1), false));
        assert(spec_encode_elements(b, false) =~= Seq::<u8>::empty());
        assert(spec_encode_elements(a, false).len() >= 1);
    } else {
        assert(spec_encode_elements(a, false) == spec_encode_element(a[0], false)
            + spec_encode_elements(a.skip(1), false));
        assert(spec_encode_elements(b, false) == spec_encode_element(b[0], false)
            + spec_encode_elements(b.skip(1), false));
        lemma_okstart_plain(a.skip(1), false);
        lemma_okstart_plain(b.skip(1), false);
        assert(size_element(a[0]) >= 1);
        lemma_unique_element(
            a[0],
            b[0],
            false,
            spec_encode_elements(a.skip(1), false),
            spec_encode_elements(b.skip(1), false),
        );
        lemma_encode_elements_injective(a.skip(1), b.skip(1));
        assert(a =~= seq![a[0]] + a.skip(1));
        assert(b =~= seq![b[0]] + b.skip(1));
    }
}

/// A well-formed, wire-canonical stored element's abstract value satisfies
/// the wire model's validity: this connects the contracts of `pack` and
/// `from_bytes` to the injectivity law.
pub proof fn lemma_stored_canon_element(v: TupleValue)
    requires
        tv_wf(v),
        tv_canon(v),
    ensures
        canon_element(tv_view(v)),
    decreases v, 1nat,
{
    crate::element::lemma_pow256_values();
    lemma_pow256_increases_le(8, 255);
    match v {
        TupleValue::NestedTuple(t) => {
            lemma_stored_canon_seq(t.elements@);
        },
        TupleValue::NegativeArbitraryPrecisionInteger(m) => {
            lemma_be_val_bound(m@);
            lemma_pow256_increases_le(m@.len(), 255);
            assert(be_val(m@) < pow256(255));
        },
        TupleValue::PositiveArbitraryPrecisionInteger(m) => {
            lemma_be_val_bound(m@);
            lemma_pow256_increases_le(m@.len(), 255);
            assert(be_val(m@) < pow256(255));
        },
        TupleValue::Versionstamp96Bit(vs) => {
            assert(tv_view(v) matches ElementView::Stamp { tr_version, complete, .. }
                && tr_version == vs.tr_version@ && complete == vs.complete);
        },
        _ => {
            crate::bigint::lemma_pow256_increases(8, 255);
        },
    }
}


/// Sequence form of [`lemma_stored_canon_element`].
pub proof fn lemma_stored_canon_seq(vs: Seq<TupleValue>)
    requires
        tv_wf_seq(vs),
        tv_canon_seq(vs),
    ensures
        canon_elements(tv_view_seq(vs)),
    decreases vs, 0nat,
{
    if vs.len() > 0 {
        lemma_stored_canon_element(vs[0]);
        lemma_stored_canon_seq(vs.skip(1));
        crate::element::lemma_tv_view_seq_skip(vs);
        assert(tv_view_seq(vs)[0] == tv_view(vs[0]));
        assert(canon_elements(tv_view_seq(vs)) == (canon_element(tv_view_seq(vs)[0])
            && canon_elements(tv_view_seq(vs).skip(1))));
    }
}

/// The stream at `start` holds the encoding of some well-formed element,
/// followed by a remainder that cannot be mistaken for an escape
/// continuation.
pub open spec fn valid_element_at(b: Seq<u8>, start: int, nested: bool) -> bool {
    exists|x: ElementView, rest: Seq<u8>|
        canon_element(x) && okstart(rest) && b.subrange(start, b.len() as int)
            == spec_encode_element(x, nested) + rest
}

/// The stream at `pos` holds the encoding of a well-formed element sequence
/// followed by a terminator and an unambiguous remainder.
pub open spec fn valid_terminated_elements_at(b: Seq<u8>, pos: int) -> bool {
    exists|es: Seq<ElementView>, rest: Seq<u8>|
        canon_elements(es) && okstart(rest) && b.subrange(pos, b.len() as int)
            == spec_encode_elements(es, true) + seq![0x00u8] + rest
}

/// The stream at `pos` is exactly the encoding of a well-formed element
/// sequence.
pub open spec fn valid_elements_at(b: Seq<u8>, pos: int) -> bool {
    exists|es: Seq<ElementView>|
        canon_elements(es) && b.subrange(pos, b.len() as int) == spec_encode_elements(es, false)
}

/// An escape image never contains an unescaped terminator: scanning an
/// escaped byte string cannot run off the end of a well-formed stream.
pub proof fn lemma_escape_no_terminator(x: Seq<u8>, s: Seq<u8>, rest: Seq<u8>)
    requires
        okstart(rest),
    ensures
        escape(x) != escape(s) + seq![0x00u8] + rest,
    decreases x.len(),
{
    if escape(x) == escape(s) + seq![0x00u8] + rest {
        lemma_escape_terminator_case(x, s, rest);
    }
}

/// Case analysis for [`lemma_escape_no_terminator`]: assuming the equality
/// leads to a contradiction.
proof fn lemma_escape_terminator_case(x: Seq<u8>, s: Seq<u8>, rest: Seq<u8>)
    requires
        okstart(rest),
        escape(x) == escape(s) + seq![0x00u8] + rest,
    ensures
        escape(x) != escape(s) + seq![0x00u8] + rest,
    decreases x.len(),
{
    let total = escape(x);
    if x.len() == 0 {
        assert(escape(x) =~= Seq::<u8>::empty());
        assert(total.len() >= 1) by {
            assert(total == escape(s) + seq![0x00u8] + rest);
        }
    } else if x[0] == 0 {
        assert(escape(x) == seq![0u8, 0xFFu8] + escape(x.skip(1)));
        assert(total[0] == 0x00 && total[1] == 0xFF);
        if s.len() == 0 {
            assert(escape(s) =~= Seq::<u8>::empty());
            assert(total =~= seq![0x00u8] + rest);
            assert(rest.len() >= 1 && rest[0] == 0xFF);
        } else {
            assert(s[0] == 0) by {
                if s[0] != 0 {
                    assert(escape(s) == seq![s[0]] + escape(s.skip(1)));
                    assert(total[0] == s[0]);
                }
            }
            assert(escape(s) == seq![0u8, 0xFFu8] + escape(s.skip(1)));
            assert(escape(x.skip(1)) =~= escape(s.skip(1)) + seq![0x00u8] + rest) by {
                assert(total =~= seq![0u8, 0xFFu8] + (escape(x.skip(1))));
                assert(escape(s) + seq![0x00u8] + rest =~= seq![0u8, 0xFFu8] + (escape(s.skip(1))
                    + seq![0x00u8] + rest));
                lemma_concat_cancel(
                    seq![0u8, 0xFFu8],
                    escape(x.skip(1)),
                    seq![0u8, 0xFFu8],
                    escape(s.skip(1)) + seq![0x00u8] + rest,
                );
            }
            lemma_escape_terminator_case(x.skip(1), s.skip(1), rest);
        }
    } else {
        assert(escape(x) == seq![x[0]] + escape(x.skip(1)));
        assert(total[0] == x[0]);
        if s.len() == 0 {
            assert(escape(s) =~= Seq::<u8>::empty());
            assert((escape(s) + seq![0x00u8] + rest)[0] == 0x00);
        } else {
            assert(s[0] != 0) by {
                if s[0] == 0 {
                    assert(escape(s) == seq![0u8, 0xFFu8] + escape(s.skip(1)));
                    assert(total[0] == 0x00);
                }
            }
            assert(escape(s) == seq![s[0]] + escape(s.skip(1)));
            assert(escape(x.skip(1)) =~= escape(s.skip(1)) + seq![0x00u8] + rest) by {
                assert(total =~= seq![x[0]] + (escape(x.skip(1))));
                assert(escape(s) + seq![0x00u8] + rest =~= seq![s[0]] + (escape(s.skip(1)) + seq![
                    0x00u8,
                ] + rest));
                lemma_concat_cancel(
                    seq![x[0]],
                    escape(x.skip(1)),
                    seq![s[0]],
                    escape(s.skip(1)) + seq![0x00u8] + rest,
                );
            }
            lemma_escape_terminator_case(x.skip(1), s.skip(1), rest);
        }
    }
}

/// The type code pins the element's kind.
pub proof fn lemma_elem_class_from_code(x: ElementView, nested: bool)
    ensures
        elem_code(x, nested) == 0x00 ==> x is Null,
        elem_code(x, nested) == 0x01 ==> x is Bytes,
        elem_code(x, nested) == 0x02 ==> x is Text,
        elem_code(x, nested) == 0x05 ==> x is Nested,
        0x0B <= elem_code(x, nested) <= 0x1D ==> x is Int,
        elem_code(x, nested) == 0x20 ==> x is Float32,
        elem_code(x, nested) == 0x21 ==> x is Float64,
        elem_code(x, nested) == 0x26 || elem_code(x, nested) == 0x27 ==> x is Bool,
        elem_code(x, nested) == 0x30 ==> x is Uuid,
        elem_code(x, nested) == 0x33 ==> x is Stamp,
{
    lemma_codes_separate(x, nested);
}

/// The exact type code of an integer element, from the sign and width of
/// its value.
pub proof fn lemma_int_code_cases(i: int)
    ensures
        i == 0 ==> int_code(i) == 0x14,
        i > 0 && min_len(i as nat) <= 8 ==> int_code(i) as int == 0x14 + min_len(i as nat),
        i > 0 && min_len(i as nat) > 8 ==> int_code(i) == 0x1D,
        i < 0 && min_len((-i) as nat) <= 8 ==> int_code(i) as int == 0x14 - min_len((-i) as nat),
        i < 0 && min_len((-i) as nat) > 8 ==> int_code(i) == 0x0B,
{
    if i > 0 {
        lemma_min_len_pos(i as nat);
    } else if i < 0 {
        lemma_min_len_pos((-i) as nat);
    }
}

/// The stream at `start` holds a null-escaped byte string, its terminator,
/// and an unambiguous remainder.
pub open spec fn valid_escaped_at(b: Seq<u8>, start: int) -> bool {
    exists|s: Seq<u8>, rest: Seq<u8>|
        okstart(rest) && b.subrange(start, b.len() as int) == escape(s) + seq![0x00u8] + rest
}

/// Aligning one parsed element against a witnessed one: when the same
/// stream continues both ways, and the remainder after the parsed element is
/// unambiguous wherever that matters (after a variable-length element), the
/// elements and remainders agree.
pub proof fn lemma_step_align(
    x: ElementView,
    y: ElementView,
    nested: bool,
    t1: Seq<u8>,
    t2: Seq<u8>,
)
    requires
        canon_element(x),
        canon_element(y),
        okstart(t1),
        spec_encode_element(x, nested) + t1 == spec_encode_element(y, nested) + t2,
        (y is Bytes || y is Text || y is Nested) ==> okstart(t2),
    ensures
        x == y,
        t1 == t2,
{
    let ex = spec_encode_element(x, nested);
    let ey = spec_encode_element(y, nested);
    lemma_enc_code(x, nested);
    lemma_enc_code(y, nested);
    assert((ex + t1)[0] == ex[0]);
    assert((ey + t2)[0] == ey[0]);
    assert(elem_code(x, nested) == elem_code(y, nested));
    lemma_elem_class_from_code(x, nested);
    lemma_elem_class_from_code(y, nested);
    lemma_codes_separate(x, nested);
    lemma_codes_separate(y, nested);
    if y is Bytes || y is Text || y is Nested {
        lemma_unique_element(x, y, nested, t1, t2);
    } else {
        // fixed-length kinds: the code (and for arbitrary-precision
        // integers the length byte) already determines the length
        assert(ex.len() == ey.len()) by {
            match (x, y) {
                (ElementView::Int(i), ElementView::Int(j)) => {
                    lemma_int_code_cases(i);
                    lemma_int_code_cases(j);
                    lemma_min_len_bounds_for(i);
                    lemma_min_len_bounds_for(j);
                    if int_code(i) == 0x1D || int_code(i) == 0x0B {
                        assert((ex + t1)[1] == ex[1]);
                        assert((ey + t2)[1] == ey[1]);
                    }
                },
                (ElementView::Float32(b1), ElementView::Float32(b2)) => {
                    lemma_be_bytes_len(mangle32(b1), 4);
                    lemma_be_bytes_len(mangle32(b2), 4);
                },
                (ElementView::Float64(b1), ElementView::Float64(b2)) => {
                    lemma_be_bytes_len(mangle64(b1), 8);
                    lemma_be_bytes_len(mangle64(b2), 8);
                },
                (
                    ElementView::Stamp { user_version: u1, .. },
                    ElementView::Stamp { user_version: u2, .. },
                ) => {
                    lemma_be_bytes_len(u1 as nat, 2);
                    lemma_be_bytes_len(u2 as nat, 2);
                },
                _ => {},
            }
        }
        lemma_concat_cancel(ex, t1, ey, t2);
        lemma_unique_element(x, y, nested, t1, t2);
    }
}

/// Encoded widths and the length byte of an integer element, derived from
/// its value.
pub proof fn lemma_min_len_bounds_for(i: int)
    requires
        -(pow256(255) as int) < i < pow256(255) as int,
    ensures
        i != 0 ==> {
            let m = if i > 0 {
                i as nat
            } else {
                (-i) as nat
            };
            1 <= min_len(m) <= 255 && spec_encode_int(i).len() == (if min_len(m) <= 8 {
                1 + min_len(m)
            } else {
                2 + min_len(m)
            })
        },
        i == 0 ==> spec_encode_int(i).len() == 1,
        spec_encode_int(i).len() >= 1,
        min_len(i as nat) >= 1,
{
    if i != 0 {
        let m = if i > 0 {
            i as nat
        } else {
            (-i) as nat
        };
        lemma_min_len_pos(m);
        crate::bigint::lemma_min_len_le(m, 255);
        lemma_be_bytes_len(m, min_len(m));
    }
}

/// What a valid stream pins down at a fixed-width integer type code: the
/// payload is present in full and holds a magnitude that belongs in exactly
/// this bucket.
pub proof fn lemma_fixed_int_witness(b: Seq<u8>, start: int, k: nat, negative: bool, nested: bool)
    requires
        1 <= k <= 8,
        0 <= start < b.len(),
        negative ==> b[start] as int == 0x14 - k,
        !negative ==> b[start] as int == 0x14 + k,
        valid_element_at(b, start, nested),
    ensures
        start + 1 + k <= b.len(),
        ({
            let payload = b.subrange(start + 1, start + 1 + k);
            let m = if negative {
                be_val(comp(payload))
            } else {
                be_val(payload)
            };
            (k > 1 ==> m >= pow256((k - 1) as nat)) && m >= 1
        }),
{
    let (x, rest) = choose|x: ElementView, rest: Seq<u8>|
        canon_element(x) && okstart(rest) && b.subrange(start, b.len() as int)
            == spec_encode_element(x, nested) + rest;
    let ex = spec_encode_element(x, nested);
    lemma_enc_code(x, nested);
    assert(b.subrange(start, b.len() as int)[0] == b[start]);
    assert((ex + rest)[0] == ex[0]);
    assert(elem_code(x, nested) == b[start]);
    lemma_elem_class_from_code(x, nested);
    assert(x is Int);
    let i = x->Int_0;
    lemma_int_code_cases(i);
    lemma_min_len_bounds_for(i);
    assert(i != 0);
    let m = if i > 0 {
        i as nat
    } else {
        (-i) as nat
    };
    assert(min_len(m) == k && (negative <==> i < 0)) by {
        if i > 0 && min_len(i as nat) > 8 {
            assert(int_code(i) == 0x1D);
        }
        if i < 0 && min_len((-i) as nat) > 8 {
            assert(int_code(i) == 0x0B);
        }
    }
    lemma_min_len_bounds(m);
    assert(m >= 1);
    lemma_be_bytes_len(m, k);
    if negative {
        assert(ex =~= seq![(0x14 - k) as u8] + comp(be_bytes(m, k)));
    } else {
        assert(ex =~= seq![(0x14 + k) as u8] + be_bytes(m, k));
    }
    assert(ex.len() == 1 + k);
    let sfx = b.subrange(start, b.len() as int);
    assert(sfx == ex + rest);
    assert(sfx.len() == b.len() - start);
    assert((ex + rest).len() == ex.len() + rest.len());
    assert(start + 1 + k <= b.len());
    let payload = b.subrange(start + 1, start + 1 + k);
    assert forall|j: int| 0 <= j < k implies payload[j] == ex.subrange(1, (1 + k) as int)[j] by {
        assert(payload[j] == b[start + 1 + j]);
        assert(sfx[1 + j] == b[start + 1 + j]);
        assert(sfx[1 + j] == (ex + rest)[1 + j]);
        assert((ex + rest)[1 + j] == ex[1 + j]);
        assert(ex.subrange(1, (1 + k) as int)[j] == ex[1 + j]);
    }
    assert(payload =~= ex.subrange(1, (1 + k) as int));
    if negative {
        assert(payload =~= comp(be_bytes(m, k)));
        crate::decoder::lemma_comp_comp(be_bytes(m, k));
        assert(comp(payload) =~= be_bytes(m, k));
        lemma_be_bytes_val(m, k);
    } else {
        assert(payload =~= be_bytes(m, k));
        lemma_be_bytes_val(m, k);
    }
}

/// Extract the witness element and remainder from a valid stream position.
pub proof fn lemma_element_witness(b: Seq<u8>, start: int, nested: bool) -> (w: (
    ElementView,
    Seq<u8>,
))
    requires
        0 <= start < b.len(),
        valid_element_at(b, start, nested),
    ensures
        canon_element(w.0),
        okstart(w.1),
        b.subrange(start, b.len() as int) == spec_encode_element(w.0, nested) + w.1,
        elem_code(w.0, nested) == b[start],
        b.len() - start >= spec_encode_element(w.0, nested).len(),
{
    let (x, rest) = choose|x: ElementView, rest: Seq<u8>|
        canon_element(x) && okstart(rest) && b.subrange(start, b.len() as int)
            == spec_encode_element(x, nested) + rest;
    lemma_enc_code(x, nested);
    let sfx = b.subrange(start, b.len() as int);
    assert(sfx[0] == b[start]);
    assert((spec_encode_element(x, nested) + rest)[0] == spec_encode_element(x, nested)[0]);
    assert(sfx.len() == b.len() - start);
    (x, rest)
}

/// Every type code that can start a well-formed element's encoding is one
/// the decoder dispatches on.
pub proof fn lemma_code_handled(x: ElementView, nested: bool)
    ensures
        elem_code(x, nested) == 0x00 || elem_code(x, nested) == 0x01 || elem_code(x, nested)
            == 0x02 || elem_code(x, nested) == 0x05 || (0x0B <= elem_code(x, nested) <= 0x1D)
            || elem_code(x, nested) == 0x20 || elem_code(x, nested) == 0x21 || elem_code(x, nested)
            == 0x26 || elem_code(x, nested) == 0x27 || elem_code(x, nested) == 0x30 || elem_code(
            x,
            nested,
        ) == 0x33,
{
    lemma_codes_separate(x, nested);
}

/// What a valid stream pins down at an arbitrary-precision integer type
/// code: the length byte names the magnitude width, the payload is present
/// in full, and its most significant magnitude byte is nonzero.
pub proof fn lemma_arb_int_witness(b: Seq<u8>, start: int, negative: bool, nested: bool) -> (ki:
    nat)
    requires
        0 <= start < b.len(),
        negative ==> b[start] == 0x0B,
        !negative ==> b[start] == 0x1D,
        valid_element_at(b, start, nested),
    ensures
        9 <= ki <= 255,
        start + 2 + ki <= b.len(),
        b[start + 1] as int == if negative {
            255 - ki
        } else {
            ki as int
        },
        ({
            let payload = b.subrange(start + 2, start + 2 + ki);
            let mag = if negative {
                comp(payload)
            } else {
                payload
            };
            mag[0] != 0
        }),
{
    let (x, rest) = lemma_element_witness(b, start, nested);
    lemma_elem_class_from_code(x, nested);
    assert(x is Int);
    let i = x->Int_0;
    lemma_int_code_cases(i);
    lemma_min_len_bounds_for(i);
    assert(i != 0);
    let m = if i > 0 {
        i as nat
    } else {
        (-i) as nat
    };
    assert(min_len(m) > 8 && (negative <==> i < 0)) by {
        if i > 0 && min_len(i as nat) <= 8 {
            assert(int_code(i) as int == 0x14 + min_len(i as nat));
        }
        if i < 0 && min_len((-i) as nat) <= 8 {
            assert(int_code(i) as int == 0x14 - min_len((-i) as nat));
        }
    }
    let k = min_len(m);
    lemma_min_len_bounds(m);
    lemma_be_bytes_len(m, k);
    lemma_be_bytes_leading(m, k);
    let ex = spec_encode_element(x, nested);
    if negative {
        assert(ex =~= seq![0x0Bu8, (255 - k) as u8] + comp(be_bytes(m, k)));
    } else {
        assert(ex =~= seq![0x1Du8, k as u8] + be_bytes(m, k));
    }
    assert(ex.len() == 2 + k);
    let sfx = b.subrange(start, b.len() as int);
    assert(sfx == ex + rest);
    assert(sfx.len() == b.len() - start);
    assert((ex + rest).len() == ex.len() + rest.len());
    assert(start + 2 + k <= b.len());
    assert(sfx[1] == b[start + 1]);
    assert((ex + rest)[1] == ex[1]);
    let payload = b.subrange(start + 2, start + 2 + k);
    assert forall|j: int| 0 <= j < k implies payload[j] == ex.subrange(2, (2 + k) as int)[j] by {
        assert(payload[j] == b[start + 2 + j]);
        assert(sfx[2 + j] == b[start + 2 + j]);
        assert(sfx[2 + j] == (ex + rest)[2 + j]);
        assert((ex + rest)[2 + j] == ex[2 + j]);
        assert(ex.subrange(2, (2 + k) as int)[j] == ex[2 + j]);
    }
    assert(payload =~= ex.subrange(2, (2 + k) as int));
    if negative {
        assert(payload =~= comp(be_bytes(m, k)));
        crate::decoder::lemma_comp_comp(be_bytes(m, k));
        assert(comp(payload) =~= be_bytes(m, k));
    } else {
        assert(payload =~= be_bytes(m, k));
    }
    k
}

/// A valid stream at a byte-string or text type code continues with a
/// well-formed escaped byte string.
pub proof fn lemma_escaped_from_element(b: Seq<u8>, start: int, nested: bool)
    requires
        0 <= start < b.len(),
        b[start] == 0x01 || b[start] == 0x02,
        valid_element_at(b, start, nested),
    ensures
        valid_escaped_at(b, start + 1),
{
    let (x, rest) = lemma_element_witness(b, start, nested);
    lemma_elem_class_from_code(x, nested);
    let u = if x is Bytes {
        x->Bytes_0
    } else {
        vstd::utf8::encode_utf8(x->Text_0)
    };
    let ex = spec_encode_element(x, nested);
    assert(ex =~= seq![b[start]] + (escape(u) + seq![0x00u8]));
    let sfx = b.subrange(start, b.len() as int);
    assert(sfx == ex + rest);
    assert(sfx.len() == b.len() - start);
    let t = b.subrange(start + 1, b.len() as int);
    assert forall|j: int| 0 <= j < t.len() implies t[j] == (escape(u) + seq![0x00u8] + rest)[j] by {
        assert(t[j] == b[start + 1 + j]);
        assert(sfx[1 + j] == b[start + 1 + j]);
        assert(sfx[1 + j] == (ex + rest)[1 + j]);
        if 1 + j < ex.len() {
            assert((ex + rest)[1 + j] == ex[1 + j]);
            assert(ex[1 + j] == (escape(u) + seq![0x00u8])[j]);
            assert((escape(u) + seq![0x00u8] + rest)[j] == (escape(u) + seq![0x00u8])[j]);
        } else {
            assert((ex + rest)[1 + j] == rest[1 + j - ex.len()]);
            assert((escape(u) + seq![0x00u8] + rest)[j] == rest[j - (ex.len() - 1)]);
        }
    }
    assert(t =~= escape(u) + seq![0x00u8] + rest);
}

/// A scan that stopped at an unambiguous terminator recovered exactly the
/// text payload of a valid text element, which is therefore valid UTF-8.
pub proof fn lemma_text_payload(b: Seq<u8>, start: int, nested: bool, scanned: Seq<u8>, end: int)
    requires
        0 <= start < b.len(),
        b[start] == 0x02,
        valid_element_at(b, start, nested),
        start + 1 <= end <= b.len(),
        b.subrange(start + 1, end) == escape(scanned) + seq![0x00u8],
        end == b.len() || b[end] != 0xFF,
    ensures
        vstd::utf8::valid_utf8(scanned),
{
    let (x, rest) = lemma_element_witness(b, start, nested);
    lemma_elem_class_from_code(x, nested);
    assert(x is Text);
    let sx = x->Text_0;
    let u = vstd::utf8::encode_utf8(sx);
    lemma_escaped_from_element(b, start, nested);
    let t = b.subrange(start + 1, b.len() as int);
    // witness side, as in the escape decomposition
    let ex = spec_encode_element(x, nested);
    assert(ex =~= seq![b[start]] + (escape(u) + seq![0x00u8]));
    let sfx = b.subrange(start, b.len() as int);
    assert(sfx == ex + rest);
    assert(sfx.len() == b.len() - start);
    assert forall|j: int| 0 <= j < t.len() implies t[j] == (escape(u) + seq![0x00u8] + rest)[j] by {
        assert(t[j] == b[start + 1 + j]);
        assert(sfx[1 + j] == b[start + 1 + j]);
        assert(sfx[1 + j] == (ex + rest)[1 + j]);
        if 1 + j < ex.len() {
            assert((ex + rest)[1 + j] == ex[1 + j]);
            assert(ex[1 + j] == (escape(u) + seq![0x00u8])[j]);
            assert((escape(u) + seq![0x00u8] + rest)[j] == (escape(u) + seq![0x00u8])[j]);
        } else {
            assert((ex + rest)[1 + j] == rest[1 + j - ex.len()]);
            assert((escape(u) + seq![0x00u8] + rest)[j] == rest[j - (ex.len() - 1)]);
        }
    }
    assert(t =~= escape(u) + seq![0x00u8] + rest);
    // parser side
    let after = b.subrange(end, b.len() as int);
    assert(t =~= b.subrange(start + 1, end) + after);
    assert(t =~= escape(scanned) + seq![0x00u8] + after);
    assert(okstart(after)) by {
        if after.len() > 0 {
            assert(after[0] == b[end]);
        }
    }
    lemma_escape_unique(scanned, u, after, rest);
    vstd::utf8::encode_utf8_valid_utf8(sx);
}

/// The stream at `start` holds the stored-form encoding of some well-formed
/// element (in whatever width bucket it arrived), followed by an
/// unambiguous remainder.
pub open spec fn repr_valid_element_at(b: Seq<u8>, start: int, nested: bool) -> bool {
    exists|v: TupleValue, rest: Seq<u8>|
        tv_wf(v) && okstart(rest) && b.subrange(start, b.len() as int) == repr_encode(v, nested)
            + rest
}

/// The stream at `pos` holds the stored-form encoding of a well-formed
/// element sequence followed by a terminator and an unambiguous remainder.
pub open spec fn repr_valid_terminated_at(b: Seq<u8>, pos: int) -> bool {
    exists|vs: Seq<TupleValue>, rest: Seq<u8>|
        tv_wf_seq(vs) && okstart(rest) && b.subrange(pos, b.len() as int) == repr_encode_seq(
            vs,
            true,
        ) + seq![0x00u8] + rest
}

/// The stream at `pos` is exactly the stored-form encoding of a well-formed
/// element sequence: every type code recognized, every payload complete,
/// every text payload valid UTF-8.
pub open spec fn repr_valid_elements_at(b: Seq<u8>, pos: int) -> bool {
    exists|vs: Seq<TupleValue>|
        tv_wf_seq(vs) && b.subrange(pos, b.len() as int) == repr_encode_seq(vs, false)
}

/// The type-code byte that starts a stored element's encoding.
pub open spec fn repr_code(v: TupleValue) -> u8 {
    match v {
        TupleValue::NullValue => 0x00u8,
        TupleValue::ByteString(_) => 0x01u8,
        TupleValue::UnicodeString(_) => 0x02u8,
        TupleValue::NestedTuple(_) => 0x05u8,
        TupleValue::NegativeArbitraryPrecisionInteger(_) => 0x0Bu8,
        TupleValue::NegInt8(_) => 0x0Cu8,
        TupleValue::NegInt7(_) => 0x0Du8,
        TupleValue::NegInt6(_) => 0x0Eu8,
        TupleValue::NegInt5(_) => 0x0Fu8,
        TupleValue::NegInt4(_) => 0x10u8,
        TupleValue::NegInt3(_) => 0x11u8,
        TupleValue::NegInt2(_) => 0x12u8,
        TupleValue::NegInt1(_) => 0x13u8,
        TupleValue::IntZero => 0x14u8,
        TupleValue::PosInt1(_) => 0x15u8,
        TupleValue::PosInt2(_) => 0x16u8,
        TupleValue::PosInt3(_) => 0x17u8,
        TupleValue::PosInt4(_) => 0x18u8,
        TupleValue::PosInt5(_) => 0x19u8,
        TupleValue::PosInt6(_) => 0x1Au8,
        TupleValue::PosInt7(_) => 0x1Bu8,
        TupleValue::PosInt8(_) => 0x1Cu8,
        TupleValue::PositiveArbitraryPrecisionInteger(_) => 0x1Du8,
        TupleValue::IeeeBinaryFloatingPointFloat(_) => 0x20u8,
        TupleValue::IeeeBinaryFloatingPointDouble(_) => 0x21u8,
        TupleValue::FalseValue => 0x26u8,
        TupleValue::TrueValue => 0x27u8,
        TupleValue::Rfc4122Uuid(_) => 0x30u8,
        TupleValue::Versionstamp96Bit(_) => 0x33u8,
    }
}

/// Every stored element's encoding starts with its type code, which is
/// never `0xFF`.
pub proof fn lemma_repr_code(v: TupleValue, nested: bool)
    ensures
        repr_encode(v, nested).len() >= 1,
        repr_encode(v, nested)[0] == repr_code(v),
        repr_code(v) != 0xFF,
        repr_code(v) <= 0x33,
{
}

/// Extract the stored witness element and remainder from a structurally
/// valid stream position.
pub proof fn lemma_repr_witness(b: Seq<u8>, start: int, nested: bool) -> (w: (TupleValue, Seq<u8>))
    requires
        0 <= start < b.len(),
        repr_valid_element_at(b, start, nested),
    ensures
        tv_wf(w.0),
        okstart(w.1),
        b.subrange(start, b.len() as int) == repr_encode(w.0, nested) + w.1,
        repr_code(w.0) == b[start],
        b.len() - start >= repr_encode(w.0, nested).len(),
{
    let (v, rest) = choose|v: TupleValue, rest: Seq<u8>|
        tv_wf(v) && okstart(rest) && b.subrange(start, b.len() as int) == repr_encode(v, nested)
            + rest;
    lemma_repr_code(v, nested);
    let sfx = b.subrange(start, b.len() as int);
    assert(sfx[0] == b[start]);
    assert((repr_encode(v, nested) + rest)[0] == repr_encode(v, nested)[0]);
    assert(sfx.len() == b.len() - start);
    (v, rest)
}

/// A structurally valid stream at a byte-string or text type code continues
/// with a well-formed escaped byte string.
pub proof fn lemma_repr_escaped_from_element(b: Seq<u8>, start: int, nested: bool)
    requires
        0 <= start < b.len(),
        b[start] == 0x01 || b[start] == 0x02,
        repr_valid_element_at(b, start, nested),
    ensures
        valid_escaped_at(b, start + 1),
{
    let (x, rest) = lemma_repr_witness(b, start, nested);
    let u = if x is ByteString {
        x->ByteString_0@
    } else {
        vstd::utf8::encode_utf8(x->UnicodeString_0@)
    };
    let ex = repr_encode(x, nested);
    assert(ex =~= seq![b[start]] + (escape(u) + seq![0x00u8]));
    let sfx = b.subrange(start, b.len() as int);
    assert(sfx == ex + rest);
    assert(sfx.len() == b.len() - start);
    let t = b.subrange(start + 1, b.len() as int);
    assert forall|j: int| 0 <= j < t.len() implies t[j] == (escape(u) + seq![0x00u8] + rest)[j] by {
        assert(t[j] == b[start + 1 + j]);
        assert(sfx[1 + j] == b[start + 1 + j]);
        assert(sfx[1 + j] == (ex + rest)[1 + j]);
        if 1 + j < ex.len() {
            assert((ex + rest)[1 + j] == ex[1 + j]);
            assert(ex[1 + j] == (escape(u) + seq![0x00u8])[j]);
            assert((escape(u) + seq![0x00u8] + rest)[j] == (escape(u) + seq![0x00u8])[j]);
        } else {
            assert((ex + rest)[1 + j] == rest[1 + j - ex.len()]);
            assert((escape(u) + seq![0x00u8] + rest)[j] == rest[j - (ex.len() - 1)]);
        }
    }
    assert(t =~= escape(u) + seq![0x00u8] + rest);
}

/// A scan that stopped at an unambiguous terminator recovered exactly the
/// text payload of a structurally valid text element, which is therefore
/// valid UTF-8.
pub proof fn lemma_repr_text_payload(
    b: Seq<u8>,
    start: int,
    nested: bool,
    scanned: Seq<u8>,
    end: int,
)
    requires
        0 <= start < b.len(),
        b[start] == 0x02,
        repr_valid_element_at(b, start, nested),
        start + 1 <= end <= b.len(),
        b.subrange(start + 1, end) == escape(scanned) + seq![0x00u8],
        end == b.len() || b[end] != 0xFF,
    ensures
        vstd::utf8::valid_utf8(scanned),
{
    let (x, rest) = lemma_repr_witness(b, start, nested);
    assert(x is UnicodeString);
    let sx = x->UnicodeString_0;
    let u = vstd::utf8::encode_utf8(sx@);
    let ex = repr_encode(x, nested);
    assert(ex =~= seq![b[start]] + (escape(u) + seq![0x00u8]));
    let sfx = b.subrange(start, b.len() as int);
    assert(sfx == ex + rest);
    assert(sfx.len() == b.len() - start);
    let t = b.subrange(start + 1, b.len() as int);
    assert forall|j: int| 0 <= j < t.len() implies t[j] == (escape(u) + seq![0x00u8] + rest)[j] by {
        assert(t[j] == b[start + 1 + j]);
        assert(sfx[1 + j] == b[start + 1 + j]);
        assert(sfx[1 + j] == (ex + rest)[1 + j]);
        if 1 + j < ex.len() {
            assert((ex + rest)[1 + j] == ex[1 + j]);
            assert(ex[1 + j] == (escape(u) + seq![0x00u8])[j]);
            assert((escape(u) + seq![0x00u8] + rest)[j] == (escape(u) + seq![0x00u8])[j]);
        } else {
            assert((ex + rest)[1 + j] == rest[1 + j - ex.len()]);
            assert((escape(u) + seq![0x00u8] + rest)[j] == rest[j - (ex.len() - 1)]);
        }
    }
    assert(t =~= escape(u) + seq![0x00u8] + rest);
    let after = b.subrange(end, b.len() as int);
    assert(t =~= b.subrange(start + 1, end) + after);
    assert(t =~= escape(scanned) + seq![0x00u8] + after);
    assert(okstart(after)) by {
        if after.len() > 0 {
            assert(after[0] == b[end]);
        }
    }
    lemma_escape_unique(scanned, u, after, rest);
    vstd::utf8::encode_utf8_valid_utf8(sx@);
}

/// A stream that continues with the stored-form encoding of a possibly
/// empty element sequence and then a terminator never starts with `0xFF`.
pub proof fn lemma_repr_okstart_terminated(vs: Seq<TupleValue>, nested: bool, r: Seq<u8>)
    ensures
        okstart(repr_encode_seq(vs, nested) + seq![0x00u8] + r),
{
    let total = repr_encode_seq(vs, nested) + seq![0x00u8] + r;
    if vs.len() == 0 {
        assert(repr_encode_seq(vs, nested) =~= Seq::<u8>::empty());
        assert(total[0] == 0x00);
    } else {
        lemma_repr_code(vs[0], nested);
        assert(repr_encode_seq(vs, nested) == repr_encode(vs[0], nested) + repr_encode_seq(
            vs.skip(1),
            nested,
        ));
        assert(total[0] == repr_encode(vs[0], nested)[0]);
    }
}

/// A stream that continues with the stored-form encoding of a possibly
/// empty element sequence never starts with `0xFF`.
pub proof fn lemma_repr_okstart_plain(vs: Seq<TupleValue>, nested: bool)
    ensures
        okstart(repr_encode_seq(vs, nested)),
{
    if vs.len() > 0 {
        lemma_repr_code(vs[0], nested);
        assert(repr_encode_seq(vs, nested) == repr_encode(vs[0], nested) + repr_encode_seq(
            vs.skip(1),
            nested,
        ));
        assert(repr_encode_seq(vs, nested)[0] == repr_encode(vs[0], nested)[0]);
    }
}

/// Every type code that can start a stored element's encoding is one the
/// decoder dispatches on.
pub proof fn lemma_repr_code_handled(v: TupleValue)
    ensures
        repr_code(v) == 0x00 || repr_code(v) == 0x01 || repr_code(v) == 0x02 || repr_code(v)
            == 0x05 || (0x0B <= repr_code(v) <= 0x1D) || repr_code(v) == 0x20 || repr_code(v)
            == 0x21 || repr_code(v) == 0x26 || repr_code(v) == 0x27 || repr_code(v) == 0x30
            || repr_code(v) == 0x33,
{
}

/// Aligning a parsed stored element against a witnessed one: when the same
/// stream continues both ways, the two encodings have the same length (so
/// the remainders agree), whatever width buckets the values sit in. The
/// remainder after a variable-length element must be unambiguous.
pub proof fn lemma_repr_align(x: TupleValue, y: TupleValue, nested: bool, t1: Seq<u8>, t2: Seq<u8>)
    requires
        tv_wf(x),
        tv_wf(y),
        okstart(t1),
        (y is ByteString || y is UnicodeString || y is NestedTuple) ==> okstart(t2),
        repr_encode(x, nested) + t1 == repr_encode(y, nested) + t2,
    ensures
        repr_encode(x, nested).len() == repr_encode(y, nested).len(),
        t1 == t2,
    decreases tv_size(x), 0nat,
{
    let ex = repr_encode(x, nested);
    let ey = repr_encode(y, nested);
    lemma_repr_code(x, nested);
    lemma_repr_code(y, nested);
    assert((ex + t1)[0] == ex[0]);
    assert((ey + t2)[0] == ey[0]);
    assert(repr_code(x) == repr_code(y));
    match (x, y) {
        (TupleValue::ByteString(p1), TupleValue::ByteString(p2)) => {
            assert(ex + t1 =~= seq![0x01u8] + (escape(p1@) + seq![0x00u8] + t1));
            assert(ey + t2 =~= seq![0x01u8] + (escape(p2@) + seq![0x00u8] + t2));
            lemma_concat_cancel(
                seq![0x01u8],
                escape(p1@) + seq![0x00u8] + t1,
                seq![0x01u8],
                escape(p2@) + seq![0x00u8] + t2,
            );
            lemma_escape_unique(p1@, p2@, t1, t2);
        },
        (TupleValue::UnicodeString(s1), TupleValue::UnicodeString(s2)) => {
            let u1 = vstd::utf8::encode_utf8(s1@);
            let u2 = vstd::utf8::encode_utf8(s2@);
            assert(ex + t1 =~= seq![0x02u8] + (escape(u1) + seq![0x00u8] + t1));
            assert(ey + t2 =~= seq![0x02u8] + (escape(u2) + seq![0x00u8] + t2));
            lemma_concat_cancel(
                seq![0x02u8],
                escape(u1) + seq![0x00u8] + t1,
                seq![0x02u8],
                escape(u2) + seq![0x00u8] + t2,
            );
            lemma_escape_unique(u1, u2, t1, t2);
        },
        (TupleValue::NestedTuple(q1), TupleValue::NestedTuple(q2)) => {
            assert(ex + t1 =~= seq![0x05u8] + (repr_encode_seq(q1.elements@, true) + seq![0x00u8]
                + t1));
            assert(ey + t2 =~= seq![0x05u8] + (repr_encode_seq(q2.elements@, true) + seq![0x00u8]
                + t2));
            lemma_concat_cancel(
                seq![0x05u8],
                repr_encode_seq(q1.elements@, true) + seq![0x00u8] + t1,
                seq![0x05u8],
                repr_encode_seq(q2.elements@, true) + seq![0x00u8] + t2,
            );
            lemma_repr_align_seq(q1.elements@, q2.elements@, t1, t2);
        },
        (
            TupleValue::NegativeArbitraryPrecisionInteger(m1),
            TupleValue::NegativeArbitraryPrecisionInteger(m2),
        ) => {
            assert((ex + t1)[1] == ex[1]);
            assert((ey + t2)[1] == ey[1]);
            assert(ex[1] == (255 - (m1@.len() % 256)) as u8);
            assert(ey[1] == (255 - (m2@.len() % 256)) as u8);
            assert(m1@.len() % 256 == m1@.len() && m2@.len() % 256 == m2@.len());
            assert(m1@.len() == m2@.len());
            lemma_concat_cancel(ex, t1, ey, t2);
        },
        (
            TupleValue::PositiveArbitraryPrecisionInteger(m1),
            TupleValue::PositiveArbitraryPrecisionInteger(m2),
        ) => {
            assert((ex + t1)[1] == ex[1]);
            assert((ey + t2)[1] == ey[1]);
            assert(ex[1] == (m1@.len() % 256) as u8);
            assert(ey[1] == (m2@.len() % 256) as u8);
            assert(m1@.len() % 256 == m1@.len() && m2@.len() % 256 == m2@.len());
            assert(m1@.len() == m2@.len());
            lemma_concat_cancel(ex, t1, ey, t2);
        },
        (
            TupleValue::Versionstamp96Bit(v1),
            TupleValue::Versionstamp96Bit(v2),
        ) => {
            lemma_be_bytes_len(v1.user_version as nat, 2);
            lemma_be_bytes_len(v2.user_version as nat, 2);
            lemma_concat_cancel(ex, t1, ey, t2);
        },
        _ => {
            // same type code, so the same kind and a width fixed by the code
            lemma_repr_fixed_lens(x, nested);
            lemma_repr_fixed_lens(y, nested);
            lemma_concat_cancel(ex, t1, ey, t2);
        },
    }
}

/// Encoded widths of the stored element kinds whose length is fixed by the
/// type code alone.
pub proof fn lemma_repr_fixed_lens(v: TupleValue, nested: bool)
    ensures
        v is NullValue ==> repr_encode(v, nested).len() == (if nested {
            2int
        } else {
            1int
        }),
        v is IntZero || v is FalseValue || v is TrueValue ==> repr_encode(v, nested).len() == 1,
        v is NegInt1 || v is PosInt1 ==> repr_encode(v, nested).len() == 2,
        v is NegInt2 || v is PosInt2 ==> repr_encode(v, nested).len() == 3,
        v is NegInt3 || v is PosInt3 ==> repr_encode(v, nested).len() == 4,
        v is NegInt4 || v is PosInt4 ==> repr_encode(v, nested).len() == 5,
        v is NegInt5 || v is PosInt5 ==> repr_encode(v, nested).len() == 6,
        v is NegInt6 || v is PosInt6 ==> repr_encode(v, nested).len() == 7,
        v is NegInt7 || v is PosInt7 ==> repr_encode(v, nested).len() == 8,
        v is NegInt8 || v is PosInt8 ==> repr_encode(v, nested).len() == 9,
        v is IeeeBinaryFloatingPointFloat ==> repr_encode(v, nested).len() == 5,
        v is IeeeBinaryFloatingPointDouble ==> repr_encode(v, nested).len() == 9,
        v matches TupleValue::Rfc4122Uuid(u) ==> repr_encode(v, nested).len() == 1 + u.bytes@.len(),
{
    match v {
        TupleValue::NegInt1(u) => {
            lemma_be_bytes_len(u as nat, 1);
        },
        TupleValue::NegInt2(u) => {
            lemma_be_bytes_len(u as nat, 2);
        },
        TupleValue::NegInt3(u) => {
            lemma_be_bytes_len(u as nat, 3);
        },
        TupleValue::NegInt4(u) => {
            lemma_be_bytes_len(u as nat, 4);
        },
        TupleValue::NegInt5(u) => {
            lemma_be_bytes_len(u as nat, 5);
        },
        TupleValue::NegInt6(u) => {
            lemma_be_bytes_len(u as nat, 6);
        },
        TupleValue::NegInt7(u) => {
            lemma_be_bytes_len(u as nat, 7);
        },
        TupleValue::NegInt8(u) => {
            lemma_be_bytes_len(u as nat, 8);
        },
        TupleValue::PosInt1(u) => {
            lemma_be_bytes_len(u as nat, 1);
        },
        TupleValue::PosInt2(u) => {
            lemma_be_bytes_len(u as nat, 2);
        },
        TupleValue::PosInt3(u) => {
            lemma_be_bytes_len(u as nat, 3);
        },
        TupleValue::PosInt4(u) => {
            lemma_be_bytes_len(u as nat, 4);
        },
        TupleValue::PosInt5(u) => {
            lemma_be_bytes_len(u as nat, 5);
        },
        TupleValue::PosInt6(u) => {
            lemma_be_bytes_len(u as nat, 6);
        },
        TupleValue::PosInt7(u) => {
            lemma_be_bytes_len(u as nat, 7);
        },
        TupleValue::PosInt8(u) => {
            lemma_be_bytes_len(u as nat, 8);
        },
        TupleValue::IeeeBinaryFloatingPointFloat(bits) => {
            lemma_be_bytes_len(crate::encoding::mangle32(bits), 4);
        },
        TupleValue::IeeeBinaryFloatingPointDouble(bits) => {
            lemma_be_bytes_len(crate::encoding::mangle64(bits), 8);
        },
        _ => {},
    }
}

/// Sequence form of [`lemma_repr_align`], for the terminated streams inside
/// nested tuples.
pub proof fn lemma_repr_align_seq(
    vs1: Seq<TupleValue>,
    vs2: Seq<TupleValue>,
    r1: Seq<u8>,
    r2: Seq<u8>,
)
    requires
        tv_wf_seq(vs1),
        tv_wf_seq(vs2),
        okstart(r1),
        okstart(r2),
        repr_encode_seq(vs1, true) + seq![0x00u8] + r1 == repr_encode_seq(vs2, true) + seq![0x00u8]
            + r2,
    ensures
        repr_encode_seq(vs1, true).len() == repr_encode_seq(vs2, true).len(),
        r1 == r2,
    decreases tv_size_seq(vs1), 1nat,
{
    let total = repr_encode_seq(vs1, true) + seq![0x00u8] + r1;
    if vs1.len() == 0 && vs2.len() == 0 {
        lemma_concat_cancel(
            repr_encode_seq(vs1, true) + seq![0x00u8],
            r1,
            repr_encode_seq(vs2, true) + seq![0x00u8],
            r2,
        );
    } else if vs1.len() == 0 {
        assert(repr_encode_seq(vs1, true) =~= Seq::<u8>::empty());
        assert(total[0] == 0x00);
        lemma_repr_code(vs2[0], true);
        assert(repr_encode_seq(vs2, true) == repr_encode(vs2[0], true) + repr_encode_seq(
            vs2.skip(1),
            true,
        ));
        assert(total[0] == repr_encode(vs2[0], true)[0]);
        assert(vs2[0] is NullValue);
        assert(repr_encode(vs2[0], true) =~= seq![0x00u8, 0xFFu8]);
        assert(total[1] == 0xFF) by {
            assert(total =~= seq![0x00u8, 0xFFu8] + (repr_encode_seq(vs2.skip(1), true) + seq![
                0x00u8,
            ] + r2));
        }
        assert(total =~= seq![0x00u8] + r1);
        assert(r1.len() >= 1 && r1[0] == 0xFF);
        assert(false);
    } else if vs2.len() == 0 {
        assert(repr_encode_seq(vs2, true) =~= Seq::<u8>::empty());
        assert(total[0] == 0x00) by {
            assert(repr_encode_seq(vs2, true) + seq![0x00u8] + r2 =~= seq![0x00u8] + r2);
        }
        lemma_repr_code(vs1[0], true);
        assert(repr_encode_seq(vs1, true) == repr_encode(vs1[0], true) + repr_encode_seq(
            vs1.skip(1),
            true,
        ));
        assert(total[0] == repr_encode(vs1[0], true)[0]);
        assert(vs1[0] is NullValue);
        assert(repr_encode(vs1[0], true) =~= seq![0x00u8, 0xFFu8]);
        assert(total[1] == 0xFF) by {
            assert(total =~= seq![0x00u8, 0xFFu8] + (repr_encode_seq(vs1.skip(1), true) + seq![
                0x00u8,
            ] + r1));
        }
        assert(repr_encode_seq(vs2, true) + seq![0x00u8] + r2 =~= seq![0x00u8] + r2);
        assert(r2.len() >= 1 && r2[0] == 0xFF);
        assert(false);
    } else {
        assert(repr_encode_seq(vs1, true) == repr_encode(vs1[0], true) + repr_encode_seq(
            vs1.skip(1),
            true,
        ));
        assert(repr_encode_seq(vs2, true) == repr_encode(vs2[0], true) + repr_encode_seq(
            vs2.skip(1),
            true,
        ));
        let t1 = repr_encode_seq(vs1.skip(1), true) + seq![0x00u8] + r1;
        let t2 = repr_encode_seq(vs2.skip(1), true) + seq![0x00u8] + r2;
        assert(total =~= repr_encode(vs1[0], true) + t1);
        assert(repr_encode_seq(vs2, true) + seq![0x00u8] + r2 =~= repr_encode(vs2[0], true) + t2);
        lemma_repr_okstart_terminated(vs1.skip(1), true, r1);
        lemma_repr_okstart_terminated(vs2.skip(1), true, r2);
        assert(tv_size(vs1[0]) >= 1);
        crate::element::lemma_tv_size_seq_index(vs1, 0);
        lemma_repr_align(vs1[0], vs2[0], true, t1, t2);
        lemma_repr_align_seq(vs1.skip(1), vs2.skip(1), r1, r2);
    }
}

/// Entering a nested tuple: a valid stream at the nested-tuple code is,
/// past the code byte, a valid terminated element stream — in both the
/// canonical-encoding and the stored-form sense.
pub proof fn lemma_nested_entry(b: Seq<u8>, start: int, nested: bool)
    requires
        0 <= start < b.len(),
        b[start] == 0x05,
    ensures
        valid_element_at(b, start, nested) ==> valid_terminated_elements_at(b, start + 1),
        repr_valid_element_at(b, start, nested) ==> repr_valid_terminated_at(b, start + 1),
{
    if valid_element_at(b, start, nested) {
        let (w, rest) = lemma_element_witness(b, start, nested);
        lemma_elem_class_from_code(w, nested);
        assert(w is Nested);
        let es = w->Nested_0;
        let ex = spec_encode_element(w, nested);
        let sfx = b.subrange(start, b.len() as int);
        assert(sfx.len() == b.len() - start);
        assert(ex + rest =~= seq![0x05u8] + (spec_encode_elements(es, true) + seq![0x00u8] + rest));
        let t = b.subrange(start + 1, b.len() as int);
        assert forall|jj: int|
            0 <= jj < t.len() implies t[jj] == (spec_encode_elements(es, true) + seq![0x00u8]
            + rest)[jj] by {
            assert(t[jj] == b[start + 1 + jj]);
            assert(sfx[1 + jj] == b[start + 1 + jj]);
            assert(sfx[1 + jj] == (ex + rest)[1 + jj]);
            assert((ex + rest)[1 + jj] == (seq![0x05u8] + (spec_encode_elements(es, true) + seq![
                0x00u8,
            ] + rest))[1 + jj]);
        }
        assert(t =~= spec_encode_elements(es, true) + seq![0x00u8] + rest);
        assert(valid_terminated_elements_at(b, start + 1));
    }
    if repr_valid_element_at(b, start, nested) {
        let (w, rest) = lemma_repr_witness(b, start, nested);
        assert(w is NestedTuple);
        let inner = w->NestedTuple_0.elements@;
        let ex = repr_encode(w, nested);
        let sfx = b.subrange(start, b.len() as int);
        assert(sfx.len() == b.len() - start);
        assert(ex + rest =~= seq![0x05u8] + (repr_encode_seq(inner, true) + seq![0x00u8] + rest));
        let t = b.subrange(start + 1, b.len() as int);
        assert forall|jj: int|
            0 <= jj < t.len() implies t[jj] == (repr_encode_seq(inner, true) + seq![0x00u8]
            + rest)[jj] by {
            assert(t[jj] == b[start + 1 + jj]);
            assert(sfx[1 + jj] == b[start + 1 + jj]);
            assert(sfx[1 + jj] == (ex + rest)[1 + jj]);
            assert((ex + rest)[1 + jj] == (seq![0x05u8] + (repr_encode_seq(inner, true) + seq![
                0x00u8,
            ] + rest))[1 + jj]);
        }
        assert(t =~= repr_encode_seq(inner, true) + seq![0x00u8] + rest);
        assert(repr_valid_terminated_at(b, start + 1));
    }
}

/// Inside a nested tuple, at a position that is not the terminator, a valid
/// terminated stream continues with a valid element.
pub proof fn lemma_nested_step(b: Seq<u8>, pos: int)
    requires
        0 <= pos < b.len(),
        b[pos] == 0x00 ==> pos + 1 < b.len() && b[pos + 1] == 0xFF,
    ensures
        valid_terminated_elements_at(b, pos) ==> valid_element_at(b, pos, true),
        repr_valid_terminated_at(b, pos) ==> repr_valid_element_at(b, pos, true),
{
    if valid_terminated_elements_at(b, pos) {
        let (es2, r) = choose|es2: Seq<ElementView>, r: Seq<u8>|
            canon_elements(es2) && okstart(r) && b.subrange(pos, b.len() as int)
                == spec_encode_elements(es2, true) + seq![0x00u8] + r;
        let sfx = b.subrange(pos, b.len() as int);
        assert(sfx.len() == b.len() - pos);
        if es2.len() == 0 {
            assert(spec_encode_elements(es2, true) =~= Seq::<u8>::empty());
            assert(sfx =~= seq![0x00u8] + r);
            assert(b[pos] == sfx[0]);
            if r.len() == 0 {
                assert(sfx.len() == 1);
            } else {
                assert(sfx[1] == r[0]);
                assert(b[pos + 1] == sfx[1]);
            }
            assert(false);
        }
        lemma_okstart_terminated(es2.skip(1), true, r);
        assert(spec_encode_elements(es2, true) == spec_encode_element(es2[0], true)
            + spec_encode_elements(es2.skip(1), true));
        assert(sfx =~= spec_encode_element(es2[0], true) + (spec_encode_elements(es2.skip(1), true)
            + seq![0x00u8] + r));
        assert(valid_element_at(b, pos, true));
    }
    if repr_valid_terminated_at(b, pos) {
        let (vs2, r) = choose|vs2: Seq<TupleValue>, r: Seq<u8>|
            tv_wf_seq(vs2) && okstart(r) && b.subrange(pos, b.len() as int) == repr_encode_seq(
                vs2,
                true,
            ) + seq![0x00u8] + r;
        let sfx = b.subrange(pos, b.len() as int);
        assert(sfx.len() == b.len() - pos);
        if vs2.len() == 0 {
            assert(repr_encode_seq(vs2, true) =~= Seq::<u8>::empty());
            assert(sfx =~= seq![0x00u8] + r);
            assert(b[pos] == sfx[0]);
            if r.len() == 0 {
                assert(sfx.len() == 1);
            } else {
                assert(sfx[1] == r[0]);
                assert(b[pos + 1] == sfx[1]);
            }
            assert(false);
        }
        lemma_repr_okstart_terminated(vs2.skip(1), true, r);
        assert(repr_encode_seq(vs2, true) == repr_encode(vs2[0], true) + repr_encode_seq(
            vs2.skip(1),
            true,
        ));
        assert(sfx =~= repr_encode(vs2[0], true) + (repr_encode_seq(vs2.skip(1), true) + seq![
            0x00u8,
        ] + r));
        assert(tv_wf(vs2[0]) && okstart(repr_encode_seq(vs2.skip(1), true) + seq![0x00u8] + r)
            && b.subrange(pos, b.len() as int) == repr_encode(vs2[0], true) + (repr_encode_seq(
            vs2.skip(1),
            true,
        ) + seq![0x00u8] + r));
        assert(repr_valid_element_at(b, pos, true));
    }
}

/// After one element of a nested tuple has been read off a valid terminated
/// stream, the remainder is again a valid terminated stream.
pub proof fn lemma_nested_advance(b: Seq<u8>, pos: int, next: int, child: TupleValue)
    requires
        0 <= pos < next <= b.len(),
        b[pos] == 0x00 ==> pos + 1 < b.len() && b[pos + 1] == 0xFF,
        tv_wf(child),
        tv_canon(child),
        b.subrange(pos, next) == repr_encode(child, true),
        (tv_view(child) is Bytes || tv_view(child) is Text || tv_view(child) is Nested) ==> (next
            == b.len() || b[next] != 0xFF),
    ensures
        valid_terminated_elements_at(b, pos) && tv_tight(child) ==> valid_terminated_elements_at(
            b,
            next,
        ),
        repr_valid_terminated_at(b, pos) ==> repr_valid_terminated_at(b, next),
{
    let after = b.subrange(next, b.len() as int);
    let consumed = b.subrange(pos, next);
    assert(b.subrange(pos, b.len() as int) =~= consumed + after);
    assert((tv_view(child) is Bytes || tv_view(child) is Text || tv_view(child) is Nested)
        ==> okstart(after)) by {
        if next < b.len() {
            assert(after[0] == b[next]);
        }
    }
    if valid_terminated_elements_at(b, pos) && tv_tight(child) {
        let (es2, r) = choose|es2: Seq<ElementView>, r: Seq<u8>|
            canon_elements(es2) && okstart(r) && b.subrange(pos, b.len() as int)
                == spec_encode_elements(es2, true) + seq![0x00u8] + r;
        let sfx = b.subrange(pos, b.len() as int);
        assert(sfx.len() == b.len() - pos);
        if es2.len() == 0 {
            assert(spec_encode_elements(es2, true) =~= Seq::<u8>::empty());
            assert(sfx =~= seq![0x00u8] + r);
            assert(b[pos] == sfx[0]);
            if r.len() == 0 {
                assert(sfx.len() == 1);
            } else {
                assert(sfx[1] == r[0]);
                assert(b[pos + 1] == sfx[1]);
            }
            assert(false);
        }
        lemma_okstart_terminated(es2.skip(1), true, r);
        assert(spec_encode_elements(es2, true) == spec_encode_element(es2[0], true)
            + spec_encode_elements(es2.skip(1), true));
        assert(sfx =~= spec_encode_element(es2[0], true) + (spec_encode_elements(es2.skip(1), true)
            + seq![0x00u8] + r));
        lemma_stored_canon_element(child);
        crate::element::lemma_repr_encode_matches_view(child, true);
        assert(sfx =~= spec_encode_element(tv_view(child), true) + after);
        lemma_step_align(
            es2[0],
            tv_view(child),
            true,
            spec_encode_elements(es2.skip(1), true) + seq![0x00u8] + r,
            after,
        );
        assert(after == spec_encode_elements(es2.skip(1), true) + seq![0x00u8] + r);
        assert(valid_terminated_elements_at(b, next));
    }
    if repr_valid_terminated_at(b, pos) {
        let (vs2, r) = choose|vs2: Seq<TupleValue>, r: Seq<u8>|
            tv_wf_seq(vs2) && okstart(r) && b.subrange(pos, b.len() as int) == repr_encode_seq(
                vs2,
                true,
            ) + seq![0x00u8] + r;
        let sfx = b.subrange(pos, b.len() as int);
        assert(sfx.len() == b.len() - pos);
        if vs2.len() == 0 {
            assert(repr_encode_seq(vs2, true) =~= Seq::<u8>::empty());
            assert(sfx =~= seq![0x00u8] + r);
            assert(b[pos] == sfx[0]);
            if r.len() == 0 {
                assert(sfx.len() == 1);
            } else {
                assert(sfx[1] == r[0]);
                assert(b[pos + 1] == sfx[1]);
            }
            assert(false);
        }
        lemma_repr_okstart_terminated(vs2.skip(1), true, r);
        assert(repr_encode_seq(vs2, true) == repr_encode(vs2[0], true) + repr_encode_seq(
            vs2.skip(1),
            true,
        ));
        assert(sfx =~= repr_encode(vs2[0], true) + (repr_encode_seq(vs2.skip(1), true) + seq![
            0x00u8,
        ] + r));
        assert((child is ByteString || child is UnicodeString || child is NestedTuple) ==> okstart(
            after,
        ));
        assert(sfx =~= repr_encode(child, true) + after);
        lemma_repr_align(
            vs2[0],
            child,
            true,
            repr_encode_seq(vs2.skip(1), true) + seq![0x00u8] + r,
            after,
        );
        assert(after == repr_encode_seq(vs2.skip(1), true) + seq![0x00u8] + r);
        assert(repr_valid_terminated_at(b, next));
    }
}

/// At the top level, a nonempty valid stream continues with a valid
/// element.
pub proof fn lemma_top_step(b: Seq<u8>, pos: int)
    requires
        0 <= pos < b.len(),
    ensures
        valid_elements_at(b, pos) ==> valid_element_at(b, pos, false),
        repr_valid_elements_at(b, pos) ==> repr_valid_element_at(b, pos, false),
{
    if valid_elements_at(b, pos) {
        let es2 = choose|es2: Seq<ElementView>|
            canon_elements(es2) && b.subrange(pos, b.len() as int) == spec_encode_elements(
                es2,
                false,
            );
        let sfx = b.subrange(pos, b.len() as int);
        assert(sfx.len() == b.len() - pos);
        assert(es2.len() > 0) by {
            if es2.len() == 0 {
                assert(spec_encode_elements(es2, false) =~= Seq::<u8>::empty());
            }
        }
        lemma_okstart_plain(es2.skip(1), false);
        assert(spec_encode_elements(es2, false) == spec_encode_element(es2[0], false)
            + spec_encode_elements(es2.skip(1), false));
        assert(valid_element_at(b, pos, false));
    }
    if repr_valid_elements_at(b, pos) {
        let vs2 = choose|vs2: Seq<TupleValue>|
            tv_wf_seq(vs2) && b.subrange(pos, b.len() as int) == repr_encode_seq(vs2, false);
        let sfx = b.subrange(pos, b.len() as int);
        assert(sfx.len() == b.len() - pos);
        assert(vs2.len() > 0) by {
            if vs2.len() == 0 {
                assert(repr_encode_seq(vs2, false) =~= Seq::<u8>::empty());
            }
        }
        lemma_repr_okstart_plain(vs2.skip(1), false);
        assert(repr_encode_seq(vs2, false) == repr_encode(vs2[0], false) + repr_encode_seq(
            vs2.skip(1),
            false,
        ));
        assert(tv_wf(vs2[0]) && okstart(repr_encode_seq(vs2.skip(1), false)) && b.subrange(
            pos,
            b.len() as int,
        ) == repr_encode(vs2[0], false) + repr_encode_seq(vs2.skip(1), false));
        assert(repr_valid_element_at(b, pos, false));
    }
}

/// After one element has been read off a valid top-level stream, the
/// remainder is again a valid stream.
pub proof fn lemma_top_advance(b: Seq<u8>, pos: int, next: int, v: TupleValue)
    requires
        0 <= pos < next <= b.len(),
        tv_wf(v),
        tv_canon(v),
        b.subrange(pos, next) == repr_encode(v, false),
        (tv_view(v) is Bytes || tv_view(v) is Text || tv_view(v) is Nested) ==> (next == b.len()
            || b[next] != 0xFF),
    ensures
        valid_elements_at(b, pos) && tv_tight(v) ==> valid_elements_at(b, next),
        repr_valid_elements_at(b, pos) ==> repr_valid_elements_at(b, next),
{
    let after = b.subrange(next, b.len() as int);
    let consumed = b.subrange(pos, next);
    assert(b.subrange(pos, b.len() as int) =~= consumed + after);
    assert((tv_view(v) is Bytes || tv_view(v) is Text || tv_view(v) is Nested) ==> okstart(
        after,
    )) by {
        if next < b.len() {
            assert(after[0] == b[next]);
        }
    }
    if valid_elements_at(b, pos) && tv_tight(v) {
        let es2 = choose|es2: Seq<ElementView>|
            canon_elements(es2) && b.subrange(pos, b.len() as int) == spec_encode_elements(
                es2,
                false,
            );
        let sfx = b.subrange(pos, b.len() as int);
        assert(sfx.len() == b.len() - pos);
        assert(es2.len() > 0) by {
            if es2.len() == 0 {
                assert(spec_encode_elements(es2, false) =~= Seq::<u8>::empty());
            }
        }
        lemma_okstart_plain(es2.skip(1), false);
        assert(spec_encode_elements(es2, false) == spec_encode_element(es2[0], false)
            + spec_encode_elements(es2.skip(1), false));
        lemma_stored_canon_element(v);
        crate::element::lemma_repr_encode_matches_view(v, false);
        assert(sfx =~= spec_encode_element(tv_view(v), false) + after);
        lemma_step_align(
            es2[0],
            tv_view(v),
            false,
            spec_encode_elements(es2.skip(1), false),
            after,
        );
        assert(after == spec_encode_elements(es2.skip(1), false));
        assert(canon_elements(es2.skip(1)) && b.subrange(next, b.len() as int)
            == spec_encode_elements(es2.skip(1), false));
        assert(valid_elements_at(b, next));
    }
    if repr_valid_elements_at(b, pos) {
        let vs2 = choose|vs2: Seq<TupleValue>|
            tv_wf_seq(vs2) && b.subrange(pos, b.len() as int) == repr_encode_seq(vs2, false);
        let sfx = b.subrange(pos, b.len() as int);
        assert(sfx.len() == b.len() - pos);
        assert(vs2.len() > 0) by {
            if vs2.len() == 0 {
                assert(repr_encode_seq(vs2, false) =~= Seq::<u8>::empty());
            }
        }
        lemma_repr_okstart_plain(vs2.skip(1), false);
        assert(repr_encode_seq(vs2, false) == repr_encode(vs2[0], false) + repr_encode_seq(
            vs2.skip(1),
            false,
        ));
        assert(sfx =~= repr_encode(v, false) + after);
        lemma_repr_align(vs2[0], v, false, repr_encode_seq(vs2.skip(1), false), after);
        assert(after == repr_encode_seq(vs2.skip(1), false));
        assert(tv_wf_seq(vs2.skip(1)) && b.subrange(next, b.len() as int) == repr_encode_seq(
            vs2.skip(1),
            false,
        ));
        assert(repr_valid_elements_at(b, next));
    }
}

/// Law: the versionstamp offset names the placeholder. In a well-formed,
/// wire-canonical sequence with exactly one unresolved versionstamp, the
/// ten bytes of the encoding starting at the reported offset are the
/// `0xFF` placeholder transaction version.
pub proof fn lemma_offset_names_placeholder_seq(vs: Seq<TupleValue>, nested: bool)
    requires
        tv_wf_seq(vs),
        tv_canon_seq(vs),
        incomplete_count_elements(tv_view_seq(vs)) == 1,
    ensures
        repr_stamp_offsets(vs, nested) + 10 <= repr_encode_seq(vs, nested).len(),
        forall|j: int|
            0 <= j < 10 ==> #[trigger] repr_encode_seq(vs, nested)[repr_stamp_offsets(vs, nested)
                + j] == 0xFF,
    decreases vs, 0nat,
{
    crate::element::lemma_tv_view_seq_skip(vs);
    assert(tv_view_seq(vs)[0] == tv_view(vs[0]));
    assert(incomplete_count_elements(tv_view_seq(vs)) == incomplete_count_element(tv_view(vs[0]))
        + incomplete_count_elements(tv_view_seq(vs.skip(1))));
    let e0 = repr_encode(vs[0], nested);
    let erest = repr_encode_seq(vs.skip(1), nested);
    assert(repr_encode_seq(vs, nested) == e0 + erest);
    if incomplete_count_element(tv_view(vs[0])) > 0 {
        lemma_offset_names_placeholder_element(vs[0], nested);
        let off = repr_stamp_offset(vs[0], nested);
        assert(repr_stamp_offsets(vs, nested) == off);
        assert forall|j: int| 0 <= j < 10 implies #[trigger] (e0 + erest)[off + j] == 0xFF by {
            assert((e0 + erest)[off + j] == e0[off + j]);
        }
    } else {
        lemma_offset_names_placeholder_seq(vs.skip(1), nested);
        let off = repr_stamp_offsets(vs.skip(1), nested);
        assert(repr_stamp_offsets(vs, nested) == e0.len() + off);
        assert forall|j: int|
            0 <= j < 10 implies #[trigger] (e0 + erest)[e0.len() + off + j] == 0xFF by {
            assert((e0 + erest)[e0.len() + off + j] == erest[off + j]);
        }
    }
}

/// Element form of [`lemma_offset_names_placeholder_seq`].
pub proof fn lemma_offset_names_placeholder_element(v: TupleValue, nested: bool)
    requires
        tv_wf(v),
        tv_canon(v),
        incomplete_count_element(tv_view(v)) >= 1,
        incomplete_count_element(tv_view(v)) == 1,
    ensures
        repr_stamp_offset(v, nested) + 10 <= repr_encode(v, nested).len(),
        forall|j: int|
            0 <= j < 10 ==> #[trigger] repr_encode(v, nested)[repr_stamp_offset(v, nested) + j]
                == 0xFF,
    decreases v, 1nat,
{
    match v {
        TupleValue::Versionstamp96Bit(stamp) => {
            lemma_be_bytes_len(stamp.user_version as nat, 2);
            assert(!stamp.complete);
            // wire canonicity: an unresolved stamp has no byte other than 0xFF
            assert(forall|j: int| 0 <= j < 10 ==> stamp.tr_version@[j] == 0xFF);
            let ex = repr_encode(v, nested);
            assert(ex =~= seq![0x33u8] + (stamp.tr_version@ + be_bytes(
                stamp.user_version as nat,
                2,
            )));
            assert forall|j: int| 0 <= j < 10 implies #[trigger] ex[1 + j] == 0xFF by {
                assert(ex[1 + j] == stamp.tr_version@[j]);
            }
        },
        TupleValue::NestedTuple(t) => {
            lemma_offset_names_placeholder_seq(t.elements@, true);
            let inner = repr_encode_seq(t.elements@, true);
            let off = repr_stamp_offsets(t.elements@, true);
            let ex = repr_encode(v, nested);
            assert(ex =~= seq![0x05u8] + inner + seq![0x00u8]);
            assert(repr_stamp_offset(v, nested) == 1 + off);
            assert forall|j: int| 0 <= j < 10 implies #[trigger] ex[1 + off + j] == 0xFF by {
                assert(ex[1 + off + j] == inner[off + j]);
            }
        },
        _ => {},
    }
}

} // verus!
