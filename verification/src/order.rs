//! Unsigned lexicographic comparison of byte keys, and the tuple
//! comparisons built on it: tuples compare exactly as their packed bytes
//! do, which is the point of an order-preserving encoding.

use core::cmp::Ordering;
use vstd::prelude::*;

use crate::bigint::{
    lemma_be_bytes_len, lemma_min_len_bounds, lemma_min_len_le, lemma_pow256_increases_le,
    lemma_pow256_mul, lemma_pow256_pos,
};
use crate::element::{lemma_pow256_values, repr_encode_seq};
use crate::encoding::{
    be_bytes, canon_element, canon_elements, comp, min_len, pow256, spec_encode_element,
    spec_encode_elements, spec_encode_int, ElementView,
};
use crate::laws::{lemma_enc_code, lemma_okstart_plain, lemma_unique_element, okstart};
use crate::tuple::Tuple;
use vstd::arithmetic::div_mod::{
    lemma_fundamental_div_mod, lemma_mod_breakdown, lemma_multiply_divide_lt,
    lemma_fundamental_div_mod_converse,
};

verus! {

/// Unsigned lexicographic comparison of two byte sequences: the first
/// differing byte decides; a proper prefix sorts first.
pub open spec fn lex_cmp(a: Seq<u8>, b: Seq<u8>) -> Ordering
    decreases a.len(),
{
    if a.len() == 0 && b.len() == 0 {
        Ordering::Equal
    } else if a.len() == 0 {
        Ordering::Less
    } else if b.len() == 0 {
        Ordering::Greater
    } else if a[0] < b[0] {
        Ordering::Less
    } else if a[0] > b[0] {
        Ordering::Greater
    } else {
        lex_cmp(a.skip(1), b.skip(1))
    }
}

/// Strict unsigned lexicographic order.
pub open spec fn lex_lt(a: Seq<u8>, b: Seq<u8>) -> bool {
    lex_cmp(a, b) == Ordering::Less
}

/// Two byte sequences compare equal exactly when they are equal.
pub proof fn lemma_lex_cmp_eq(a: Seq<u8>, b: Seq<u8>)
    ensures
        (lex_cmp(a, b) == Ordering::Equal) <==> a == b,
    decreases a.len(),
{
    if a.len() == 0 && b.len() == 0 {
        assert(a =~= b);
    } else if a.len() == 0 || b.len() == 0 {
    } else if a[0] == b[0] {
        lemma_lex_cmp_eq(a.skip(1), b.skip(1));
        if lex_cmp(a, b) == Ordering::Equal {
            assert(a =~= seq![a[0]] + a.skip(1));
            assert(b =~= seq![b[0]] + b.skip(1));
        } else {
            if a == b {
                assert(a.skip(1) =~= b.skip(1));
            }
        }
    } else {
        if a == b {
            assert(a[0] == b[0]);
        }
    }
}

/// Skipping a common prefix does not change the comparison.
pub proof fn lemma_lex_cmp_skip(a: Seq<u8>, b: Seq<u8>, i: int)
    requires
        0 <= i <= a.len(),
        i <= b.len(),
        forall|j: int| 0 <= j < i ==> a[j] == b[j],
    ensures
        lex_cmp(a, b) == lex_cmp(a.skip(i), b.skip(i)),
    decreases i,
{
    if i > 0 {
        assert(a.len() > 0 && b.len() > 0);
        assert(a[0] == b[0]);
        lemma_lex_cmp_skip(a.skip(1), b.skip(1), i - 1);
        assert(a.skip(1).skip(i - 1) =~= a.skip(i));
        assert(b.skip(1).skip(i - 1) =~= b.skip(i));
    } else {
        assert(a.skip(0) =~= a);
        assert(b.skip(0) =~= b);
    }
}

/// Compare two byte vectors in unsigned lexicographic order.
pub fn bytes_cmp(a: &Vec<u8>, b: &Vec<u8>) -> (r: Ordering)
    ensures
        r == lex_cmp(a@, b@),
{
    let mut i: usize = 0;
    while i < a.len() && i < b.len()
        invariant
            i <= a@.len(),
            i <= b@.len(),
            forall|j: int| 0 <= j < i ==> a@[j] == b@[j],
        decreases a@.len() - i,
    {
        proof {
            lemma_lex_cmp_skip(a@, b@, i as int);
        }
        if a[i] < b[i] {
            proof {
                assert(a@.skip(i as int)[0] == a@[i as int]);
                assert(b@.skip(i as int)[0] == b@[i as int]);
            }
            return Ordering::Less;
        }
        if a[i] > b[i] {
            proof {
                assert(a@.skip(i as int)[0] == a@[i as int]);
                assert(b@.skip(i as int)[0] == b@[i as int]);
            }
            return Ordering::Greater;
        }
        i = i + 1;
    }
    proof {
        lemma_lex_cmp_skip(a@, b@, i as int);
        assert(a@.skip(i as int).len() == a@.len() - i);
        assert(b@.skip(i as int).len() == b@.len() - i);
    }
    if a.len() == b.len() {
        Ordering::Equal
    } else if a.len() < b.len() {
        Ordering::Less
    } else {
        Ordering::Greater
    }
}

impl PartialEq for Tuple {
    /// Two tuples are equal when their packed bytes are equal, matching the
    /// order-preserving encoding.
    fn eq(&self, other: &Tuple) -> (r: bool) {
        let a = self.pack();
        let b = other.pack();
        let c = bytes_cmp(&a, &b);
        proof {
            lemma_lex_cmp_eq(a@, b@);
        }
        match c {
            Ordering::Equal => true,
            _ => false,
        }
    }
}

impl vstd::std_specs::cmp::PartialEqSpecImpl for Tuple {
    open spec fn obeys_eq_spec() -> bool {
        true
    }

    open spec fn eq_spec(&self, other: &Tuple) -> bool {
        repr_encode_seq(self.elements@, false) == repr_encode_seq(other.elements@, false)
    }
}

impl Eq for Tuple {

}

impl PartialOrd for Tuple {
    /// Tuples sort exactly as their packed bytes do.
    fn partial_cmp(&self, other: &Tuple) -> (r: Option<Ordering>) {
        let a = self.pack();
        let b = other.pack();
        Some(bytes_cmp(&a, &b))
    }
}

impl vstd::std_specs::cmp::PartialOrdSpecImpl for Tuple {
    open spec fn obeys_partial_cmp_spec() -> bool {
        true
    }

    open spec fn partial_cmp_spec(&self, other: &Tuple) -> Option<Ordering> {
        Some(
            lex_cmp(
                repr_encode_seq(self.elements@, false),
                repr_encode_seq(other.elements@, false),
            ),
        )
    }
}

/// A wider fixed width only keeps the low bytes of the value.
pub proof fn lemma_be_bytes_mod(m: nat, k: nat)
    ensures
        be_bytes(m, k) =~= be_bytes(m % pow256(k), k),
    decreases k,
{
    if k > 0 {
        lemma_pow256_pos((k - 1) as nat);
        lemma_pow256_mul((k - 1) as nat);
        lemma_mod_breakdown(m as int, 256, pow256((k - 1) as nat) as int);
        // m % 256^k == 256 * ((m / 256) % 256^(k-1)) + m % 256
        let low = m % pow256(k);
        assert(low == 256 * ((m / 256) % pow256((k - 1) as nat)) + m % 256);
        assert(low / 256 == (m / 256) % pow256((k - 1) as nat) && low % 256 == m % 256) by {
            vstd::arithmetic::div_mod::lemma_mod_bound(m as int, 256);
            vstd::arithmetic::div_mod::lemma_mod_bound(
                (m / 256) as int,
                pow256((k - 1) as nat) as int,
            );
            lemma_fundamental_div_mod_converse(
                low as int,
                256,
                ((m / 256) % pow256((k - 1) as nat)) as int,
                (m % 256) as int,
            );
        }
        lemma_be_bytes_mod(m / 256, (k - 1) as nat);
    }
}

/// At equal width, the unsigned lexicographic order of big-endian bytes is
/// the numeric order of the values.
pub proof fn lemma_be_bytes_order(m1: nat, m2: nat, k: nat)
    requires
        m1 < pow256(k),
        m2 < pow256(k),
    ensures
        lex_lt(be_bytes(m1, k), be_bytes(m2, k)) <==> m1 < m2,
    decreases k,
{
    if k == 0 {
    } else {
        let p = pow256((k - 1) as nat);
        lemma_pow256_pos((k - 1) as nat);
        lemma_pow256_mul((k - 1) as nat);
        crate::bigint::lemma_be_bytes_unfold(m1, k);
        crate::bigint::lemma_be_bytes_unfold(m2, k);
        lemma_be_bytes_len(m1, (k - 1) as nat);
        lemma_be_bytes_len(m2, (k - 1) as nat);
        let d1 = m1 / p;
        let d2 = m2 / p;
        assert(d1 < 256 && d2 < 256) by {
            lemma_multiply_divide_lt(m1 as int, p as int, 256);
            lemma_multiply_divide_lt(m2 as int, p as int, 256);
        }
        vstd::arithmetic::div_mod::lemma_small_mod(d1, 256);
        vstd::arithmetic::div_mod::lemma_small_mod(d2, 256);
        let e1 = be_bytes(m1, k);
        let e2 = be_bytes(m2, k);
        assert(e1[0] == (d1 % 256) as u8 && e2[0] == (d2 % 256) as u8);
        lemma_fundamental_div_mod(m1 as int, p as int);
        lemma_fundamental_div_mod(m2 as int, p as int);
        vstd::arithmetic::div_mod::lemma_mod_bound(m1 as int, p as int);
        vstd::arithmetic::div_mod::lemma_mod_bound(m2 as int, p as int);
        if d1 != d2 {
            // the leading digit decides both the bytes and the values
            assert(d1 < d2 ==> m1 < m2) by (nonlinear_arith)
                requires
                    m1 == p * d1 + m1 % p,
                    m2 == p * d2 + m2 % p,
                    (m1 % p) < p,
                    0 <= m2 % p,
                    0 < p,
            ;
            assert(d2 < d1 ==> m2 < m1) by (nonlinear_arith)
                requires
                    m1 == p * d1 + m1 % p,
                    m2 == p * d2 + m2 % p,
                    (m2 % p) < p,
                    0 <= m1 % p,
                    0 < p,
            ;
        } else {
            lemma_lex_cmp_skip(e1, e2, 1);
            assert(e1.skip(1) =~= be_bytes(m1, (k - 1) as nat));
            assert(e2.skip(1) =~= be_bytes(m2, (k - 1) as nat));
            lemma_be_bytes_mod(m1, (k - 1) as nat);
            lemma_be_bytes_mod(m2, (k - 1) as nat);
            lemma_be_bytes_order(m1 % p, m2 % p, (k - 1) as nat);
        }
    }
}

/// Complementing every byte reverses the lexicographic order of
/// equal-length sequences.
pub proof fn lemma_comp_order(a: Seq<u8>, b: Seq<u8>)
    requires
        a.len() == b.len(),
    ensures
        lex_lt(comp(a), comp(b)) <==> lex_lt(b, a),
    decreases a.len(),
{
    if a.len() > 0 {
        assert(comp(a)[0] == (255 - a[0]) as u8);
        assert(comp(b)[0] == (255 - b[0]) as u8);
        if a[0] == b[0] {
            assert(comp(a).skip(1) =~= comp(a.skip(1)));
            assert(comp(b).skip(1) =~= comp(b.skip(1)));
            lemma_comp_order(a.skip(1), b.skip(1));
        }
    }
}

/// Law: integer encodings sort exactly as the integers do, across signs and
/// width buckets.
pub proof fn lemma_int_order(i: int, j: int)
    requires
        -(pow256(255) as int) < i < pow256(255) as int,
        -(pow256(255) as int) < j < pow256(255) as int,
    ensures
        lex_lt(spec_encode_int(i), spec_encode_int(j)) <==> i < j,
{
    lemma_pow256_values();
    let ei = spec_encode_int(i);
    let ej = spec_encode_int(j);
    crate::laws::lemma_enc_code(
        crate::encoding::ElementView::Int(i),
        false,
    );
    crate::laws::lemma_enc_code(
        crate::encoding::ElementView::Int(j),
        false,
    );
    assert(ei[0] == crate::laws::int_code(i));
    assert(ej[0] == crate::laws::int_code(j));
    if i == j {
        if lex_lt(ei, ej) {
            lemma_lex_cmp_eq(ei, ej);
        }
    } else if i < j {
        lemma_int_order_lt(i, j);
    } else {
        lemma_int_order_lt(j, i);
        lemma_lex_lt_asymmetric(ej, ei);
        if lex_cmp(ei, ej) == Ordering::Equal {
            lemma_lex_cmp_eq(ei, ej);
            crate::laws::lemma_unique_int(i, j, Seq::empty(), Seq::empty());
            assert(ei + Seq::<u8>::empty() =~= ei);
            assert(ej + Seq::<u8>::empty() =~= ej);
        }
    }
}

/// Strict lexicographic order is asymmetric.
pub proof fn lemma_lex_lt_asymmetric(a: Seq<u8>, b: Seq<u8>)
    ensures
        !(lex_lt(a, b) && lex_lt(b, a)),
    decreases a.len(),
{
    if a.len() > 0 && b.len() > 0 && a[0] == b[0] {
        lemma_lex_lt_asymmetric(a.skip(1), b.skip(1));
    }
}

/// The strictly-less half of [`lemma_int_order`].
proof fn lemma_int_order_lt(i: int, j: int)
    requires
        -(pow256(255) as int) < i < pow256(255) as int,
        -(pow256(255) as int) < j < pow256(255) as int,
        i < j,
    ensures
        lex_lt(spec_encode_int(i), spec_encode_int(j)),
{
    lemma_pow256_values();
    let ei = spec_encode_int(i);
    let ej = spec_encode_int(j);
    crate::laws::lemma_enc_code(crate::encoding::ElementView::Int(i), false);
    crate::laws::lemma_enc_code(crate::encoding::ElementView::Int(j), false);
    if i >= 0 && j > 0 {
        if i == 0 {
            crate::laws::lemma_min_len_pos(j as nat);
            assert(ei[0] == 0x14 && ej[0] > 0x14);
        } else {
            lemma_min_len_bounds(i as nat);
            lemma_min_len_bounds(j as nat);
            lemma_min_len_le(j as nat, 255);
            lemma_min_len_le(i as nat, 255);
            let ki = min_len(i as nat);
            let kj = min_len(j as nat);
            assert(ki <= kj) by {
                if ki > kj {
                    lemma_pow256_increases_le(kj, (ki - 1) as nat);
                    assert(pow256(kj) <= pow256((ki - 1) as nat));
                    if ki > 1 {
                        assert(i as nat >= pow256((ki - 1) as nat));
                    }
                    assert((j as nat) < pow256(kj));
                }
            }
            if ki < kj {
                if kj <= 8 {
                    assert(ei[0] == (0x14 + ki) as u8 && ej[0] == (0x14 + kj) as u8);
                } else if ki <= 8 {
                    assert(ei[0] == (0x14 + ki) as u8 && ej[0] == 0x1D);
                } else {
                    // both arbitrary precision: the length byte decides
                    assert(ei[0] == 0x1D && ej[0] == 0x1D);
                    lemma_be_bytes_len(i as nat, ki);
                    lemma_be_bytes_len(j as nat, kj);
                    assert(ei[1] == (ki as u8) && ej[1] == (kj as u8));
                    lemma_lex_cmp_skip(ei, ej, 1);
                    assert(ei.skip(1)[0] == ei[1] && ej.skip(1)[0] == ej[1]);
                }
            } else {
                // same bucket: the payload bytes decide
                if ki <= 8 {
                    lemma_lex_cmp_skip(ei, ej, 1);
                    lemma_be_bytes_len(i as nat, ki);
                    lemma_be_bytes_len(j as nat, kj);
                    assert(ei.skip(1) =~= be_bytes(i as nat, ki));
                    assert(ej.skip(1) =~= be_bytes(j as nat, kj));
                    lemma_be_bytes_order(i as nat, j as nat, ki);
                } else {
                    lemma_lex_cmp_skip(ei, ej, 2);
                    lemma_be_bytes_len(i as nat, ki);
                    lemma_be_bytes_len(j as nat, kj);
                    assert(ei.skip(2) =~= be_bytes(i as nat, ki));
                    assert(ej.skip(2) =~= be_bytes(j as nat, kj));
                    lemma_be_bytes_order(i as nat, j as nat, ki);
                }
            }
        }
    } else if i < 0 && j >= 0 {
        crate::laws::lemma_min_len_pos((-i) as nat);
        if j == 0 {
            assert(ei[0] <= 0x13 && ej[0] == 0x14);
        } else {
            crate::laws::lemma_min_len_pos(j as nat);
            assert(ei[0] <= 0x13 && ej[0] >= 0x15);
        }
    } else {
        // both negative: i < j < 0, so |i| > |j|
        let mi = (-i) as nat;
        let mj = (-j) as nat;
        lemma_min_len_bounds(mi);
        lemma_min_len_bounds(mj);
        lemma_min_len_le(mi, 255);
        lemma_min_len_le(mj, 255);
        let ki = min_len(mi);
        let kj = min_len(mj);
        assert(kj <= ki) by {
            if kj > ki {
                lemma_pow256_increases_le(ki, (kj - 1) as nat);
                if kj > 1 {
                    assert(mj >= pow256((kj - 1) as nat));
                }
                assert(mi < pow256(ki));
            }
        }
        if kj < ki {
            if ki <= 8 {
                assert(ei[0] == (0x14 - ki) as u8 && ej[0] == (0x14 - kj) as u8);
            } else if kj <= 8 {
                assert(ei[0] == 0x0B && ej[0] == (0x14 - kj) as u8);
            } else {
                assert(ei[0] == 0x0B && ej[0] == 0x0B);
                lemma_be_bytes_len(mi, ki);
                lemma_be_bytes_len(mj, kj);
                assert(ei[1] == ((255 - ki) as u8) && ej[1] == ((255 - kj) as u8));
                lemma_lex_cmp_skip(ei, ej, 1);
                assert(ei.skip(1)[0] == ei[1] && ej.skip(1)[0] == ej[1]);
            }
        } else {
            if ki <= 8 {
                lemma_lex_cmp_skip(ei, ej, 1);
                lemma_be_bytes_len(mi, ki);
                lemma_be_bytes_len(mj, kj);
                assert(ei.skip(1) =~= comp(be_bytes(mi, ki)));
                assert(ej.skip(1) =~= comp(be_bytes(mj, kj)));
                lemma_comp_order(be_bytes(mi, ki), be_bytes(mj, kj));
                lemma_be_bytes_order(mj, mi, ki);
            } else {
                lemma_lex_cmp_skip(ei, ej, 2);
                lemma_be_bytes_len(mi, ki);
                lemma_be_bytes_len(mj, kj);
                assert(ei.skip(2) =~= comp(be_bytes(mi, ki)));
                assert(ej.skip(2) =~= comp(be_bytes(mj, kj)));
                lemma_comp_order(be_bytes(mi, ki), be_bytes(mj, kj));
                lemma_be_bytes_order(mj, mi, ki);
            }
        }
    }
}

/// Semantic order of single-precision bit patterns: sign first, then the
/// magnitude, reversed for negative values. For non-NaN patterns this is
/// exactly the numeric order of the floating-point values (with every
/// negative value below every non-negative one, and `-0.0` below `0.0`).
pub open spec fn f32_total_lt(a: u32, b: u32) -> bool {
    let sa = a >= 0x8000_0000;
    let sb = b >= 0x8000_0000;
    if sa != sb {
        sa
    } else if !sa {
        a < b
    } else {
        a > b
    }
}

/// Semantic order of double-precision bit patterns.
pub open spec fn f64_total_lt(a: u64, b: u64) -> bool {
    let sa = a >= 0x8000_0000_0000_0000;
    let sb = b >= 0x8000_0000_0000_0000;
    if sa != sb {
        sa
    } else if !sa {
        a < b
    } else {
        a > b
    }
}

/// Law: single-precision encodings sort exactly as their bit patterns do
/// under the sign-and-magnitude total order.
pub proof fn lemma_float32_order(a: u32, b: u32)
    ensures
        lex_lt(
            crate::encoding::spec_encode_element(crate::encoding::ElementView::Float32(a), false),
            crate::encoding::spec_encode_element(crate::encoding::ElementView::Float32(b), false),
        ) <==> f32_total_lt(a, b),
{
    lemma_pow256_values();
    let ea = crate::encoding::spec_encode_element(crate::encoding::ElementView::Float32(a), false);
    let eb = crate::encoding::spec_encode_element(crate::encoding::ElementView::Float32(b), false);
    lemma_be_bytes_len(crate::encoding::mangle32(a), 4);
    lemma_be_bytes_len(crate::encoding::mangle32(b), 4);
    assert(ea[0] == 0x20u8 && eb[0] == 0x20u8);
    lemma_lex_cmp_skip(ea, eb, 1);
    assert(ea.skip(1) =~= be_bytes(crate::encoding::mangle32(a), 4));
    assert(eb.skip(1) =~= be_bytes(crate::encoding::mangle32(b), 4));
    lemma_be_bytes_order(crate::encoding::mangle32(a), crate::encoding::mangle32(b), 4);
}

/// Law: double-precision encodings sort exactly as their bit patterns do
/// under the sign-and-magnitude total order.
pub proof fn lemma_float64_order(a: u64, b: u64)
    ensures
        lex_lt(
            crate::encoding::spec_encode_element(crate::encoding::ElementView::Float64(a), false),
            crate::encoding::spec_encode_element(crate::encoding::ElementView::Float64(b), false),
        ) <==> f64_total_lt(a, b),
{
    lemma_pow256_values();
    let ea = crate::encoding::spec_encode_element(crate::encoding::ElementView::Float64(a), false);
    let eb = crate::encoding::spec_encode_element(crate::encoding::ElementView::Float64(b), false);
    lemma_be_bytes_len(crate::encoding::mangle64(a), 8);
    lemma_be_bytes_len(crate::encoding::mangle64(b), 8);
    assert(ea[0] == 0x21u8 && eb[0] == 0x21u8);
    lemma_lex_cmp_skip(ea, eb, 1);
    assert(ea.skip(1) =~= be_bytes(crate::encoding::mangle64(a), 8));
    assert(eb.skip(1) =~= be_bytes(crate::encoding::mangle64(b), 8));
    lemma_be_bytes_order(crate::encoding::mangle64(a), crate::encoding::mangle64(b), 8);
}

/// One byte sequence is a proper prefix of another.
pub open spec fn strict_prefix(a: Seq<u8>, b: Seq<u8>) -> bool {
    a.len() < b.len() && b.subrange(0, a.len() as int) == a
}

/// Appending remainders to two distinct byte sequences does not change
/// their comparison, provided a remainder that begins where the other
/// sequence continues with `0xFF` does not itself begin with `0xFF`.
pub proof fn lemma_lex_concat(a: Seq<u8>, b: Seq<u8>, r1: Seq<u8>, r2: Seq<u8>)
    requires
        a != b,
        strict_prefix(a, b) ==> b[a.len() as int] == 0xFF && (r1.len() == 0 || r1[0] != 0xFF),
        strict_prefix(b, a) ==> a[b.len() as int] == 0xFF && (r2.len() == 0 || r2[0] != 0xFF),
    ensures
        lex_cmp(a + r1, b + r2) == lex_cmp(a, b),
        lex_cmp(a, b) != Ordering::Equal,
    decreases a.len(),
{
    lemma_lex_cmp_eq(a, b);
    if a.len() == 0 {
        // a is a proper prefix of b, so b continues with 0xFF
        assert(strict_prefix(a, b)) by {
            assert(b.subrange(0, 0) =~= a);
        }
        assert(b[0] == 0xFF);
        assert((a + r1) =~= r1);
        assert((b + r2)[0] == b[0]);
        assert((b + r2).len() > 0);
        if r1.len() == 0 {
            assert(lex_cmp(a + r1, b + r2) == Ordering::Less);
        } else {
            assert((a + r1)[0] == r1[0]);
            assert(r1[0] != 0xFF);
            assert(r1[0] < 0xFF);
            assert(lex_cmp(a + r1, b + r2) == Ordering::Less);
        }
    } else if b.len() == 0 {
        assert(strict_prefix(b, a)) by {
            assert(a.subrange(0, 0) =~= b);
        }
        assert(a[0] == 0xFF);
        assert((b + r2) =~= r2);
        assert((a + r1)[0] == a[0]);
        assert((a + r1).len() > 0);
        if r2.len() == 0 {
            assert(lex_cmp(a + r1, b + r2) == Ordering::Greater);
        } else {
            assert((b + r2)[0] == r2[0]);
            assert(r2[0] != 0xFF);
            assert(r2[0] < 0xFF);
            assert(lex_cmp(a + r1, b + r2) == Ordering::Greater);
        }
    } else if a[0] != b[0] {
        assert((a + r1)[0] == a[0]);
        assert((b + r2)[0] == b[0]);
    } else {
        assert(a.skip(1) != b.skip(1)) by {
            if a.skip(1) == b.skip(1) {
                assert(a =~= seq![a[0]] + a.skip(1));
                assert(b =~= seq![b[0]] + b.skip(1));
            }
        }
        assert(strict_prefix(a.skip(1), b.skip(1)) ==> strict_prefix(a, b) && b.skip(1)[a.len()
            - 1] == b[a.len() as int]) by {
            if strict_prefix(a.skip(1), b.skip(1)) {
                assert forall|j: int| 0 <= j < a.len() implies b.subrange(0, a.len() as int)[j]
                    == a[j] by {
                    if j > 0 {
                        assert(b.skip(1).subrange(0, a.skip(1).len() as int)[j - 1] == a.skip(
                            1,
                        )[j - 1]);
                    }
                }
                assert(b.subrange(0, a.len() as int) =~= a);
            }
        }
        assert(strict_prefix(b.skip(1), a.skip(1)) ==> strict_prefix(b, a) && a.skip(1)[b.len()
            - 1] == a[b.len() as int]) by {
            if strict_prefix(b.skip(1), a.skip(1)) {
                assert forall|j: int| 0 <= j < b.len() implies a.subrange(0, b.len() as int)[j]
                    == b[j] by {
                    if j > 0 {
                        assert(a.skip(1).subrange(0, b.skip(1).len() as int)[j - 1] == b.skip(
                            1,
                        )[j - 1]);
                    }
                }
                assert(a.subrange(0, b.len() as int) =~= b);
            }
        }
        lemma_lex_concat(a.skip(1), b.skip(1), r1, r2);
        assert((a + r1)[0] == a[0]);
        assert((b + r2)[0] == b[0]);
        assert((a + r1).skip(1) =~= a.skip(1) + r1);
        assert((b + r2).skip(1) =~= b.skip(1) + r2);
    }
}

/// When one well-formed element's encoding is a proper prefix of another's,
/// the longer one continues with `0xFF` — the escape continuation byte that
/// no element stream may follow a shorter parse with.
pub proof fn lemma_enc_strict_prefix_ff(x: ElementView, y: ElementView, nested: bool)
    requires
        canon_element(x),
        canon_element(y),
        x != y,
        strict_prefix(
            spec_encode_element(x, nested),
            spec_encode_element(y, nested),
        ),
    ensures
        spec_encode_element(y, nested)[spec_encode_element(x, nested).len() as int] == 0xFF,
{
    let ex = spec_encode_element(x, nested);
    let ey = spec_encode_element(y, nested);
    if ey[ex.len() as int] != 0xFF {
        let tail = ey.skip(ex.len() as int);
        assert(tail[0] == ey[ex.len() as int]);
        assert(okstart(tail));
        assert(ex + tail =~= ey) by {
            assert forall|j: int| 0 <= j < ey.len() implies (ex + tail)[j] == ey[j] by {
                if j < ex.len() {
                    assert(ey.subrange(0, ex.len() as int)[j] == ey[j]);
                }
            }
        }
        assert(ey + Seq::<u8>::empty() =~= ey);
        assert(okstart(Seq::<u8>::empty()));
        lemma_unique_element(x, y, nested, tail, Seq::empty());
    }
}

/// Appending element streams after two distinct well-formed elements does
/// not change how they compare: the elements' own encodings decide.
pub proof fn lemma_order_align(
    x: ElementView,
    y: ElementView,
    nested: bool,
    r1: Seq<u8>,
    r2: Seq<u8>,
)
    requires
        canon_element(x),
        canon_element(y),
        okstart(r1),
        okstart(r2),
        x != y,
    ensures
        lex_cmp(
            spec_encode_element(x, nested) + r1,
            spec_encode_element(y, nested) + r2,
        ) == lex_cmp(spec_encode_element(x, nested), spec_encode_element(y, nested)),
        lex_cmp(spec_encode_element(x, nested), spec_encode_element(y, nested)) != Ordering::Equal,
{
    let ex = spec_encode_element(x, nested);
    let ey = spec_encode_element(y, nested);
    if ex == ey {
        assert(ex + Seq::<u8>::empty() =~= ex);
        assert(ey + Seq::<u8>::empty() =~= ey);
        assert(okstart(Seq::<u8>::empty()));
        lemma_unique_element(x, y, nested, Seq::empty(), Seq::empty());
    }
    if strict_prefix(ex, ey) {
        lemma_enc_strict_prefix_ff(x, y, nested);
    }
    if strict_prefix(ey, ex) {
        lemma_enc_strict_prefix_ff(y, x, nested);
    }
    lemma_lex_concat(ex, ey, r1, r2);
}

/// Element-wise order of two element sequences: the first differing element
/// decides, compared through its order-preserving encoding; a proper prefix
/// sorts first.
pub open spec fn tuple_cmp(a: Seq<ElementView>, b: Seq<ElementView>) -> Ordering
    decreases a.len(),
{
    if a.len() == 0 && b.len() == 0 {
        Ordering::Equal
    } else if a.len() == 0 {
        Ordering::Less
    } else if b.len() == 0 {
        Ordering::Greater
    } else if a[0] == b[0] {
        tuple_cmp(a.skip(1), b.skip(1))
    } else {
        lex_cmp(
            spec_encode_element(a[0], false),
            spec_encode_element(b[0], false),
        )
    }
}

/// Law: packed tuples sort element-wise. The unsigned lexicographic order
/// of two well-formed sequences' encodings is exactly their element-wise
/// order, where elements compare through their own encodings — which, by
/// [`lemma_int_order`], [`lemma_float32_order`] and [`lemma_float64_order`],
/// is the numeric order for integer and floating-point elements.
pub proof fn lemma_tuple_order(a: Seq<ElementView>, b: Seq<ElementView>)
    requires
        canon_elements(a),
        canon_elements(b),
    ensures
        lex_cmp(
            spec_encode_elements(a, false),
            spec_encode_elements(b, false),
        ) == tuple_cmp(a, b),
    decreases a.len(),
{
    let ea = spec_encode_elements(a, false);
    let eb = spec_encode_elements(b, false);
    if a.len() == 0 && b.len() == 0 {
        assert(ea =~= Seq::<u8>::empty());
        assert(eb =~= Seq::<u8>::empty());
    } else if a.len() == 0 {
        assert(ea =~= Seq::<u8>::empty());
        lemma_enc_code(b[0], false);
        assert(eb == spec_encode_element(b[0], false) + spec_encode_elements(b.skip(1), false));
        assert(eb.len() >= 1);
    } else if b.len() == 0 {
        assert(eb =~= Seq::<u8>::empty());
        lemma_enc_code(a[0], false);
        assert(ea == spec_encode_element(a[0], false) + spec_encode_elements(a.skip(1), false));
        assert(ea.len() >= 1);
    } else {
        assert(ea == spec_encode_element(a[0], false) + spec_encode_elements(a.skip(1), false));
        assert(eb == spec_encode_element(b[0], false) + spec_encode_elements(b.skip(1), false));
        if a[0] == b[0] {
            let e0 = spec_encode_element(a[0], false);
            assert forall|j: int| 0 <= j < e0.len() implies ea[j] == eb[j] by {
                assert(ea[j] == e0[j]);
                assert(eb[j] == e0[j]);
            }
            lemma_lex_cmp_skip(ea, eb, e0.len() as int);
            assert(ea.skip(e0.len() as int) =~= spec_encode_elements(a.skip(1), false));
            assert(eb.skip(e0.len() as int) =~= spec_encode_elements(b.skip(1), false));
            lemma_tuple_order(a.skip(1), b.skip(1));
        } else {
            lemma_okstart_plain(a.skip(1), false);
            lemma_okstart_plain(b.skip(1), false);
            lemma_order_align(
                a[0],
                b[0],
                false,
                spec_encode_elements(a.skip(1), false),
                spec_encode_elements(b.skip(1), false),
            );
        }
    }
}

} // verus!
