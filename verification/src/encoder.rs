//! The executable encoder: from stored elements to wire bytes.

use vstd::prelude::*;

use crate::element::{
    lemma_repr_encode_matches_view_seq, lemma_repr_encode_seq_push, lemma_tv_size_seq_index,
    repr_encode, repr_encode_seq, tv_size, tv_size_seq, tv_view_seq, tv_wf_seq, TupleValue,
};
use crate::encoding::{be_bytes, comp, escape, lemma_escape_push, pow256, spec_encode_elements};

verus! {

/// Append a copy of `b` to `out`.
pub(crate) fn push_all(out: &mut Vec<u8>, b: &[u8])
    ensures
        final(out)@ == old(out)@ + b@,
{
    let mut i: usize = 0;
    while i < b.len()
        invariant
            i <= b@.len(),
            out@ =~= old(out)@ + b@.subrange(0, i as int),
        decreases b@.len() - i,
    {
        out.push(b[i]);
        i = i + 1;
    }
    proof {
        assert(out@ =~= old(out)@ + b@);
    }
}

/// Bitwise complement of a byte slice; every byte is flipped.
pub fn neg_u8_slice_into_vec(i: &[u8]) -> (r: Vec<u8>)
    ensures
        r@ == comp(i@),
{
    let mut res: Vec<u8> = Vec::new();
    let mut j: usize = 0;
    while j < i.len()
        invariant
            j <= i@.len(),
            res@ =~= comp(i@).subrange(0, j as int),
        decreases i@.len() - j,
    {
        res.push(255 - i[j]);
        j = j + 1;
    }
    proof {
        assert(res@ =~= comp(i@));
    }
    res
}

/// Append the null-escaped form of `b` to `out`.
fn push_escaped(out: &mut Vec<u8>, b: &[u8])
    ensures
        final(out)@ == old(out)@ + escape(b@),
{
    let mut i: usize = 0;
    proof {
        assert(b@.subrange(0, 0) =~= Seq::<u8>::empty());
        assert(escape(Seq::<u8>::empty()) =~= Seq::<u8>::empty());
        assert(out@ =~= old(out)@ + escape(b@.subrange(0, 0)));
    }
    while i < b.len()
        invariant
            i <= b@.len(),
            out@ =~= old(out)@ + escape(b@.subrange(0, i as int)),
        decreases b@.len() - i,
    {
        proof {
            assert(b@.subrange(0, (i + 1) as int) =~= b@.subrange(0, i as int).push(b@[i as int]));
            lemma_escape_push(b@.subrange(0, i as int), b@[i as int]);
        }
        let x = b[i];
        if x == 0 {
            out.push(0x00);
            out.push(0xFF);
        } else {
            out.push(x);
        }
        i = i + 1;
        proof {
            assert(out@ =~= old(out)@ + escape(b@.subrange(0, i as int)));
        }
    }
    proof {
        assert(b@.subrange(0, b@.len() as int) =~= b@);
    }
}

/// Append the `k`-byte big-endian form of `m` to `out`, complementing each
/// byte when `complement` is set.
fn push_be_bytes(out: &mut Vec<u8>, m: u64, k: usize, complement: bool)
    ensures
        !complement ==> final(out)@ == old(out)@ + be_bytes(m as nat, k as nat),
        complement ==> final(out)@ == old(out)@ + comp(be_bytes(m as nat, k as nat)),
{
    let mut digits: Vec<u8> = Vec::new();
    let mut x: u64 = m;
    let mut j: usize = 0;
    proof {
        assert(pow256(0) == 1);
        vstd::arithmetic::div_mod::lemma_div_basics(m as int);
        assert(be_bytes(m as nat, 0) =~= Seq::<u8>::empty());
    }
    while j < k
        invariant
            j <= k,
            j == digits@.len(),
            x as nat == m as nat / pow256(j as nat),
            digits@ =~= be_bytes(m as nat, j as nat),
        decreases k - j,
    {
        proof {
            crate::bigint::lemma_pow256_pos(j as nat);
            crate::bigint::lemma_be_bytes_unfold(m as nat, (j + 1) as nat);
            vstd::arithmetic::div_mod::lemma_div_denominator(
                m as int,
                pow256(j as nat) as int,
                256,
            );
            assert(pow256((j + 1) as nat) == pow256(j as nat) * 256) by {
                crate::bigint::lemma_pow256_mul(j as nat);
            }
        }
        digits.insert(0, (x % 256) as u8);
        x = x / 256;
        j = j + 1;
    }
    if complement {
        let flipped = neg_u8_slice_into_vec(digits.as_slice());
        push_all(out, flipped.as_slice());
    } else {
        push_all(out, digits.as_slice());
    }
}

/// Encode one stored element to its exact wire bytes.
pub fn encode_element(v: &TupleValue, nested: bool) -> (r: Vec<u8>)
    ensures
        r@ == repr_encode(*v, nested),
    decreases tv_size(*v),
{
    let mut out: Vec<u8> = Vec::new();
    match v {
        TupleValue::NullValue => {
            out.push(0x00);
            if nested {
                out.push(0xFF);
            }
        },
        TupleValue::ByteString(b) => {
            out.push(0x01);
            push_escaped(&mut out, b.as_slice());
            out.push(0x00);
        },
        TupleValue::UnicodeString(s) => {
            out.push(0x02);
            push_escaped(&mut out, s.as_str().as_bytes());
            out.push(0x00);
        },
        TupleValue::NestedTuple(t) => {
            out.push(0x05);
            let mut i: usize = 0;
            while i < t.elements.len()
                invariant
                    i <= t.elements@.len(),
                    tv_size(*v) == 1 + tv_size_seq(t.elements@),
                    out@ =~= seq![0x05u8] + repr_encode_seq(
                        t.elements@.subrange(0, i as int),
                        true,
                    ),
                decreases t.elements@.len() - i,
            {
                proof {
                    lemma_tv_size_seq_index(t.elements@, i as int);
                }
                let piece = encode_element(&t.elements[i], true);
                push_all(&mut out, piece.as_slice());
                proof {
                    assert(t.elements@.subrange(0, (i + 1) as int) =~= t.elements@.subrange(
                        0,
                        i as int,
                    ).push(t.elements@[i as int]));
                    lemma_repr_encode_seq_push(
                        t.elements@.subrange(0, i as int),
                        t.elements@[i as int],
                        true,
                    );
                }
                i = i + 1;
            }
            out.push(0x00);
            proof {
                assert(t.elements@.subrange(0, t.elements@.len() as int) =~= t.elements@);
            }
        },
        TupleValue::NegativeArbitraryPrecisionInteger(m) => {
            out.push(0x0B);
            out.push(255 - ((m.len() % 256) as u8));
            let flipped = neg_u8_slice_into_vec(m.as_slice());
            push_all(&mut out, flipped.as_slice());
        },
        TupleValue::NegInt8(u) => {
            out.push(0x0C);
            push_be_bytes(&mut out, *u, 8, true);
        },
        TupleValue::NegInt7(u) => {
            out.push(0x0D);
            push_be_bytes(&mut out, *u, 7, true);
        },
        TupleValue::NegInt6(u) => {
            out.push(0x0E);
            push_be_bytes(&mut out, *u, 6, true);
        },
        TupleValue::NegInt5(u) => {
            out.push(0x0F);
            push_be_bytes(&mut out, *u, 5, true);
        },
        TupleValue::NegInt4(u) => {
            out.push(0x10);
            push_be_bytes(&mut out, *u as u64, 4, true);
        },
        TupleValue::NegInt3(u) => {
            out.push(0x11);
            push_be_bytes(&mut out, *u as u64, 3, true);
        },
        TupleValue::NegInt2(u) => {
            out.push(0x12);
            push_be_bytes(&mut out, *u as u64, 2, true);
        },
        TupleValue::NegInt1(u) => {
            out.push(0x13);
            push_be_bytes(&mut out, *u as u64, 1, true);
        },
        TupleValue::IntZero => {
            out.push(0x14);
        },
        TupleValue::PosInt1(u) => {
            out.push(0x15);
            push_be_bytes(&mut out, *u as u64, 1, false);
        },
        TupleValue::PosInt2(u) => {
            out.push(0x16);
            push_be_bytes(&mut out, *u as u64, 2, false);
        },
        TupleValue::PosInt3(u) => {
            out.push(0x17);
            push_be_bytes(&mut out, *u as u64, 3, false);
        },
        TupleValue::PosInt4(u) => {
            out.push(0x18);
            push_be_bytes(&mut out, *u as u64, 4, false);
        },
        TupleValue::PosInt5(u) => {
            out.push(0x19);
            push_be_bytes(&mut out, *u, 5, false);
        },
        TupleValue::PosInt6(u) => {
            out.push(0x1A);
            push_be_bytes(&mut out, *u, 6, false);
        },
        TupleValue::PosInt7(u) => {
            out.push(0x1B);
            push_be_bytes(&mut out, *u, 7, false);
        },
        TupleValue::PosInt8(u) => {
            out.push(0x1C);
            push_be_bytes(&mut out, *u, 8, false);
        },
        TupleValue::PositiveArbitraryPrecisionInteger(m) => {
            out.push(0x1D);
            out.push((m.len() % 256) as u8);
            push_all(&mut out, m.as_slice());
        },
        TupleValue::IeeeBinaryFloatingPointFloat(bits) => {
            out.push(0x20);
            let mangled: u32 = if *bits < 0x8000_0000 {
                *bits + 0x8000_0000
            } else {
                0xFFFF_FFFF - *bits
            };
            push_be_bytes(&mut out, mangled as u64, 4, false);
        },
        TupleValue::IeeeBinaryFloatingPointDouble(bits) => {
            out.push(0x21);
            let mangled: u64 = if *bits < 0x8000_0000_0000_0000 {
                *bits + 0x8000_0000_0000_0000
            } else {
                0xFFFF_FFFF_FFFF_FFFF - *bits
            };
            push_be_bytes(&mut out, mangled, 8, false);
        },
        TupleValue::FalseValue => {
            out.push(0x26);
        },
        TupleValue::TrueValue => {
            out.push(0x27);
        },
        TupleValue::Rfc4122Uuid(u) => {
            out.push(0x30);
            push_all(&mut out, u.bytes.as_slice());
        },
        TupleValue::Versionstamp96Bit(vs) => {
            out.push(0x33);
            push_all(&mut out, vs.tr_version.as_slice());
            push_be_bytes(&mut out, vs.user_version as u64, 2, false);
        },
    }
    proof {
        assert(out@ =~= repr_encode(*v, nested));
    }
    out
}

/// Encode a sequence of stored elements: the concatenation of each
/// element's wire bytes.
pub fn encode_elements(vs: &Vec<TupleValue>, nested: bool) -> (r: Vec<u8>)
    ensures
        r@ == repr_encode_seq(vs@, nested),
        tv_wf_seq(vs@) && crate::element::tv_tight_seq(vs@) ==> r@ == spec_encode_elements(
            tv_view_seq(vs@),
            nested,
        ),
{
    let mut out: Vec<u8> = Vec::new();
    let mut i: usize = 0;
    proof {
        assert(vs@.subrange(0, 0) =~= Seq::<TupleValue>::empty());
    }
    while i < vs.len()
        invariant
            i <= vs@.len(),
            out@ =~= repr_encode_seq(vs@.subrange(0, i as int), nested),
        decreases vs@.len() - i,
    {
        let piece = encode_element(&vs[i], nested);
        push_all(&mut out, piece.as_slice());
        proof {
            assert(vs@.subrange(0, (i + 1) as int) =~= vs@.subrange(0, i as int).push(
                vs@[i as int],
            ));
            lemma_repr_encode_seq_push(vs@.subrange(0, i as int), vs@[i as int], nested);
        }
        i = i + 1;
    }
    proof {
        assert(vs@.subrange(0, vs@.len() as int) =~= vs@);
        if tv_wf_seq(vs@) && crate::element::tv_tight_seq(vs@) {
            lemma_repr_encode_matches_view_seq(vs@, nested);
        }
    }
    out
}

/// Append the 4-byte little-endian form of `x` to `out`.
pub(crate) fn push_le32(out: &mut Vec<u8>, x: u32)
    ensures
        final(out)@ == old(out)@ + crate::encoding::le_bytes(x as nat, 4),
{
    proof {
        lemma_le_bytes_4(x);
    }
    out.push((x % 256) as u8);
    out.push((x / 256 % 256) as u8);
    out.push((x / 65536 % 256) as u8);
    out.push((x / 16777216) as u8);
    proof {
        assert(final(out)@ =~= old(out)@ + crate::encoding::le_bytes(x as nat, 4));
    }
}

/// The four little-endian bytes of a 32-bit value, digit by digit.
proof fn lemma_le_bytes_4(x: u32)
    ensures
        crate::encoding::le_bytes(x as nat, 4) =~= seq![
            (x % 256) as u8,
            (x / 256 % 256) as u8,
            (x / 65536 % 256) as u8,
            (x / 16777216) as u8,
        ],
{
    let n = x as nat;
    vstd::arithmetic::div_mod::lemma_div_denominator(x as int, 256, 256);
    vstd::arithmetic::div_mod::lemma_div_denominator(x as int, 65536, 256);
    assert(n / 256 / 256 == n / 65536);
    assert(n / 65536 / 256 == n / 16777216);
    assert(n / 16777216 < 256) by {
        vstd::arithmetic::div_mod::lemma_multiply_divide_lt(x as int, 16777216, 256);
    }
    vstd::arithmetic::div_mod::lemma_small_mod(n / 16777216, 256);
    assert(n / 16777216 / 256 == 0) by {
        vstd::arithmetic::div_mod::lemma_basic_div((n / 16777216) as int, 256);
    }
    assert(crate::encoding::le_bytes(n / 16777216 / 256, 0) =~= Seq::<u8>::empty());
    assert(crate::encoding::le_bytes(n / 16777216, 1) =~= seq![(n / 16777216 % 256) as u8]);
    assert(crate::encoding::le_bytes(n / 65536, 2) =~= seq![(n / 65536 % 256) as u8] + seq![
        (n / 16777216 % 256) as u8,
    ]);
    assert(crate::encoding::le_bytes(n / 256, 3) =~= seq![(n / 256 % 256) as u8] + (seq![
        (n / 65536 % 256) as u8,
    ] + seq![(n / 16777216 % 256) as u8]));
    assert(crate::encoding::le_bytes(n, 4) =~= seq![(n % 256) as u8] + crate::encoding::le_bytes(
        n / 256,
        3,
    ));
}

} // verus!
