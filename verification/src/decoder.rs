//! The executable decoder: from wire bytes back to stored elements.
//!
//! Decoding fails only on an unrecognized type code, a truncated payload,
//! or invalid UTF-8 in a text payload. An integer keeps whatever width
//! bucket it arrived in, even one wider than its magnitude needs, so every
//! accepted byte sequence re-encodes to itself byte for byte. On a
//! canonically encoded input — the only kind the encoder emits — the
//! decoded elements are moreover in tightest-bucket form.

use vstd::prelude::*;

use crate::bigint::{lemma_be_val_bound, lemma_pow256_increases_le};
use crate::element::{
    lemma_be_bytes_of_val, lemma_pow256_values, lemma_repr_encode_seq_push, lemma_tv_canon_seq_push,
    lemma_tv_wf_seq_push, repr_encode, repr_encode_seq, tv_canon, tv_canon_seq, tv_tight,
    tv_tight_seq, tv_view, tv_wf, tv_wf_seq, TupleValue,
};
use crate::encoding::ElementView;
use crate::encoding::{be_val, comp, escape, lemma_escape_push, pow256};
use crate::error::{FdbError, FdbResult, TUPLE_FROM_BYTES};
use crate::tuple::Tuple;
use crate::uuid::Uuid;
use crate::versionstamp::Versionstamp;

verus! {

/// Complementing every byte twice gives the bytes back.
pub proof fn lemma_comp_comp(b: Seq<u8>)
    ensures
        comp(comp(b)) =~= b,
{
}

/// Relies on `String::from_utf8`: returns the text whose UTF-8 encoding is
/// the input exactly when the input is valid UTF-8.
#[verifier::external_body]
fn utf8_to_string(b: Vec<u8>) -> (r: Option<String>)
    ensures
        r matches Some(s) ==> vstd::utf8::encode_utf8(s@) == b@,
        r is Some <==> vstd::utf8::valid_utf8(b@),
{
    String::from_utf8(b).ok()
}

/// Scan the null-escaped byte string starting at `start`, returning the
/// unescaped bytes and the position just past the unescaped terminator.
fn scan_escaped(b: &Vec<u8>, start: usize) -> (r: FdbResult<(Vec<u8>, usize)>)
    requires
        start <= b@.len(),
    ensures
        r matches Ok((s, end)) ==> start < end <= b@.len() && b@.subrange(start as int, end as int)
            == escape(s@) + seq![0x00u8] && (end == b@.len() || b@[end as int] != 0xFF),
        r matches Err(e) ==> e == (FdbError { error_code: TUPLE_FROM_BYTES }),
        crate::laws::valid_escaped_at(b@, start as int) ==> r is Ok,
{
    let mut out: Vec<u8> = Vec::new();
    let mut pos: usize = start;
    proof {
        assert(b@.subrange(start as int, start as int) =~= Seq::<u8>::empty());
        assert(escape(out@) =~= Seq::<u8>::empty());
    }
    while pos < b.len()
        invariant
            start <= pos <= b@.len(),
            b@.subrange(start as int, pos as int) == escape(out@),
        decreases b@.len() - pos,
    {
        let x = b[pos];
        if x != 0 {
            proof {
                lemma_escape_push(out@, x);
                assert(b@.subrange(start as int, (pos + 1) as int) =~= b@.subrange(
                    start as int,
                    pos as int,
                ).push(x));
            }
            out.push(x);
            pos = pos + 1;
        } else {
            if pos + 1 < b.len() && b[pos + 1] == 0xFF {
                proof {
                    lemma_escape_push(out@, 0u8);
                    assert(b@.subrange(start as int, (pos + 2) as int) =~= b@.subrange(
                        start as int,
                        pos as int,
                    ).push(0u8).push(0xFFu8));
                    assert(escape(out@.push(0u8)) =~= escape(out@) + seq![0u8, 0xFFu8]);
                    assert(b@.subrange(start as int, pos as int).push(0u8).push(0xFFu8)
                        =~= b@.subrange(start as int, pos as int) + seq![0u8, 0xFFu8]);
                }
                out.push(0x00);
                pos = pos + 2;
            } else {
                proof {
                    assert(b@.subrange(start as int, (pos + 1) as int) =~= b@.subrange(
                        start as int,
                        pos as int,
                    ) + seq![0x00u8]);
                }
                return Ok((out, pos + 1));
            }
        }
    }
    proof {
        if crate::laws::valid_escaped_at(b@, start as int) {
            let (w, rest) = choose|w: Seq<u8>, rest: Seq<u8>|
                crate::laws::okstart(rest) && b@.subrange(start as int, b@.len() as int) == escape(
                    w,
                ) + seq![0x00u8] + rest;
            crate::laws::lemma_escape_no_terminator(out@, w, rest);
        }
    }
    Err(FdbError::new(TUPLE_FROM_BYTES))
}

/// Read `k` big-endian payload bytes at `pos`, complementing each one when
/// `complement` is set.
fn read_be(b: &Vec<u8>, pos: usize, k: usize, complement: bool) -> (r: u64)
    requires
        k <= 8,
        pos + k <= b@.len(),
    ensures
        !complement ==> r as nat == be_val(b@.subrange(pos as int, (pos + k) as int)),
        complement ==> r as nat == be_val(comp(b@.subrange(pos as int, (pos + k) as int))),
{
    let ghost raw = b@.subrange(pos as int, (pos + k) as int);
    let ghost digits = if complement {
        comp(raw)
    } else {
        raw
    };
    let blen = b.len();
    let mut acc: u64 = 0;
    let mut j: usize = 0;
    proof {
        assert(digits.subrange(0, 0) =~= Seq::<u8>::empty());
    }
    while j < k
        invariant
            j <= k,
            k <= 8,
            pos + k <= b@.len(),
            b@.len() <= usize::MAX,
            digits == if complement {
                comp(b@.subrange(pos as int, (pos + k) as int))
            } else {
                b@.subrange(pos as int, (pos + k) as int)
            },
            digits.len() == k,
            acc as nat == be_val(digits.subrange(0, j as int)),
            (acc as nat) < pow256(j as nat),
        decreases k - j,
    {
        proof {
            lemma_pow256_values();
            lemma_pow256_increases_le((j + 1) as nat, 8);
            assert(digits.subrange(0, (j + 1) as int).drop_last() =~= digits.subrange(0, j as int));
            assert(digits.subrange(0, (j + 1) as int).last() == digits[j as int]);
            crate::bigint::lemma_pow256_mul(j as nat);
            assert((acc as nat) * 256 + 255 < pow256((j + 1) as nat)) by (nonlinear_arith)
                requires
                    (acc as nat) < pow256(j as nat),
                    pow256((j + 1) as nat) == pow256(j as nat) * 256,
            ;
        }
        let byte = if complement {
            255 - b[pos + j]
        } else {
            b[pos + j]
        };
        acc = acc * 256 + (byte as u64);
        j = j + 1;
    }
    proof {
        assert(digits.subrange(0, k as int) =~= digits);
    }
    acc
}

/// Decode the fixed-width integer bucket with the given sign and width,
/// whose type code has already been matched; rejects magnitudes that belong
/// in a tighter bucket.
fn decode_fixed_int(b: &Vec<u8>, start: usize, k: usize, negative: bool) -> (r: FdbResult<
    (TupleValue, usize),
>)
    requires
        1 <= k <= 8,
        start < b@.len(),
        negative ==> b@[start as int] as int == 0x14 - k,
        !negative ==> b@[start as int] as int == 0x14 + k,
    ensures
        r matches Ok((v, end)) ==> start < end <= b@.len() && tv_wf(v) && tv_canon(v)
            && repr_encode(v, false) == b@.subrange(start as int, end as int) && repr_encode(
            v,
            true,
        ) == b@.subrange(start as int, end as int),
        r matches Err(e) ==> e == (FdbError { error_code: TUPLE_FROM_BYTES }),
        (r is Ok) <==> b@.len() - start > k,
        crate::laws::valid_element_at(b@, start as int, false) ==> (r is Ok && (r matches Ok(p)
            ==> tv_tight(p.0))),
        crate::laws::valid_element_at(b@, start as int, true) ==> (r is Ok && (r matches Ok(p)
            ==> tv_tight(p.0))),
        crate::laws::repr_valid_element_at(b@, start as int, false) ==> r is Ok,
        crate::laws::repr_valid_element_at(b@, start as int, true) ==> r is Ok,
        r matches Ok((v, end)) ==> tv_view(v) is Int,
{
    let blen = b.len();
    if blen - start <= k {
        proof {
            if crate::laws::valid_element_at(b@, start as int, false) {
                crate::laws::lemma_fixed_int_witness(b@, start as int, k as nat, negative, false);
            }
            if crate::laws::valid_element_at(b@, start as int, true) {
                crate::laws::lemma_fixed_int_witness(b@, start as int, k as nat, negative, true);
            }
            if crate::laws::repr_valid_element_at(b@, start as int, false) {
                let (w, rest) = crate::laws::lemma_repr_witness(b@, start as int, false);
                crate::laws::lemma_repr_fixed_lens(w, false);
            }
            if crate::laws::repr_valid_element_at(b@, start as int, true) {
                let (w, rest) = crate::laws::lemma_repr_witness(b@, start as int, true);
                crate::laws::lemma_repr_fixed_lens(w, true);
            }
        }
        return Err(FdbError::new(TUPLE_FROM_BYTES));
    }
    let payload_at = start + 1;
    let u = read_be(b, payload_at, k, negative);
    proof {
        lemma_pow256_values();
        let raw = b@.subrange(payload_at as int, (payload_at + k) as int);
        let digits = if negative {
            comp(raw)
        } else {
            raw
        };
        lemma_be_val_bound(digits);
        lemma_be_bytes_of_val(digits);
        lemma_comp_comp(raw);
        assert(b@.subrange(start as int, (payload_at + k) as int) =~= seq![
            b@[start as int],
        ] + raw);
    }
    proof {
        // a tight arrival: on a stream that encodes some value canonically,
        // the magnitude reaches the bucket's lower bound
        if crate::laws::valid_element_at(b@, start as int, false) {
            crate::laws::lemma_fixed_int_witness(b@, start as int, k as nat, negative, false);
        }
        if crate::laws::valid_element_at(b@, start as int, true) {
            crate::laws::lemma_fixed_int_witness(b@, start as int, k as nat, negative, true);
        }
    }
    let v = if negative {
        match k {
            1 => TupleValue::NegInt1(u as u8),
            2 => TupleValue::NegInt2(u as u16),
            3 => TupleValue::NegInt3(u as u32),
            4 => TupleValue::NegInt4(u as u32),
            5 => TupleValue::NegInt5(u),
            6 => TupleValue::NegInt6(u),
            7 => TupleValue::NegInt7(u),
            _ => TupleValue::NegInt8(u),
        }
    } else {
        match k {
            1 => TupleValue::PosInt1(u as u8),
            2 => TupleValue::PosInt2(u as u16),
            3 => TupleValue::PosInt3(u as u32),
            4 => TupleValue::PosInt4(u as u32),
            5 => TupleValue::PosInt5(u),
            6 => TupleValue::PosInt6(u),
            7 => TupleValue::PosInt7(u),
            _ => TupleValue::PosInt8(u),
        }
    };
    Ok((v, payload_at + k))
}

/// Decode a nested tuple whose `0x05` code sits at `start`.
fn decode_nested(b: &Vec<u8>, start: usize, nested: bool) -> (r: FdbResult<(TupleValue, usize)>)
    requires
        start < b@.len(),
        b@[start as int] == 0x05,
    ensures
        r matches Ok((v, end)) ==> start < end <= b@.len() && tv_wf(v) && tv_canon(v)
            && repr_encode(v, nested) == b@.subrange(start as int, end as int),
        r matches Err(e) ==> e == (FdbError { error_code: TUPLE_FROM_BYTES }),
        crate::laws::valid_element_at(b@, start as int, nested) ==> (r is Ok && (r matches Ok(p)
            ==> tv_tight(p.0))),
        crate::laws::repr_valid_element_at(b@, start as int, nested) ==> r is Ok,
        r matches Ok((v, end)) ==> (end == b@.len() || b@[end as int] != 0xFF),
    decreases b@.len() - start, 1nat,
{
    let blen = b.len();
    let ghost hyp = crate::laws::valid_element_at(b@, start as int, nested);
    let ghost hyp_r = crate::laws::repr_valid_element_at(b@, start as int, nested);
        let mut children: Vec<TupleValue> = Vec::new();
    let mut pos: usize = start + 1;
    proof {
        assert(b@.subrange((start + 1) as int, (start + 1) as int) =~= Seq::<u8>::empty());
        assert(repr_encode_seq(children@, true) =~= Seq::<u8>::empty());
        crate::laws::lemma_nested_entry(b@, start as int, nested);
    }
    loop
        invariant
            start + 1 <= pos <= b@.len(),
            start < b@.len(),
            b@.len() <= usize::MAX,
            b@[start as int] == 0x05,
            hyp == crate::laws::valid_element_at(b@, start as int, nested),
            hyp_r == crate::laws::repr_valid_element_at(b@, start as int, nested),
            hyp ==> crate::laws::valid_terminated_elements_at(b@, pos as int),
            hyp ==> tv_tight_seq(children@),
            hyp_r ==> crate::laws::repr_valid_terminated_at(b@, pos as int),
            b@.subrange((start + 1) as int, pos as int) == repr_encode_seq(children@, true),
            tv_wf_seq(children@),
            tv_canon_seq(children@),
        decreases b@.len() - pos, 1nat,
    {
        if pos >= b.len() {
            proof {
                if hyp {
                    let (es2, r) = choose|es2: Seq<ElementView>, r: Seq<u8>|
                        crate::encoding::canon_elements(es2) && crate::laws::okstart(r)
                            && b@.subrange(pos as int, b@.len() as int)
                            == crate::encoding::spec_encode_elements(es2, true) + seq![0x00u8]
                            + r;
                    assert(b@.subrange(pos as int, b@.len() as int).len() == 0);
                }
                if hyp_r {
                    let (vs2, r) = choose|vs2: Seq<TupleValue>, r: Seq<u8>|
                        tv_wf_seq(vs2) && crate::laws::okstart(r) && b@.subrange(
                            pos as int,
                            b@.len() as int,
                        ) == repr_encode_seq(vs2, true) + seq![0x00u8] + r;
                    assert(b@.subrange(pos as int, b@.len() as int).len() == 0);
                }
            }
            return Err(FdbError::new(TUPLE_FROM_BYTES));
        }
        let x = b[pos];
        if x == 0x00 && (pos + 1 >= b.len() || b[pos + 1] != 0xFF) {
            // the unescaped terminator of this nested tuple
            let t = Tuple::from_elements(children);
            let v = TupleValue::NestedTuple(t);
            proof {
                assert(b@.subrange(start as int, (pos + 1) as int) =~= seq![0x05u8]
                    + b@.subrange((start + 1) as int, pos as int) + seq![0x00u8]);
                if hyp {
                    assert(tv_tight(v));
                }
            }
            return Ok((v, pos + 1));
        }
        proof {
            crate::laws::lemma_nested_step(b@, pos as int);
        }
        let (child, next) = match decode_element(b, pos, true) {
            Ok(p) => p,
            Err(e) => {
                return Err(e);
            },
        };
        proof {
            lemma_repr_encode_seq_push(children@, child, true);
            lemma_tv_wf_seq_push(children@, child);
            lemma_tv_canon_seq_push(children@, child);
            assert(b@.subrange((start + 1) as int, next as int) =~= b@.subrange(
                (start + 1) as int,
                pos as int,
            ) + b@.subrange(pos as int, next as int));
            if hyp {
                // the child's own conditional clause makes it tight here
                assert(tv_tight(child));
                crate::element::lemma_tv_tight_seq_push(children@, child);
            }
            crate::laws::lemma_nested_advance(b@, pos as int, next as int, child);
        }
        children.push(child);
        pos = next;
    }
}

/// Decode one element whose type code sits at `start`. Inside a nested
/// tuple a null is the two bytes `0x00 0xFF`.
#[verifier::rlimit(100)]
#[verifier::spinoff_prover]
pub fn decode_element(b: &Vec<u8>, start: usize, nested: bool) -> (r: FdbResult<(TupleValue, usize)>)
    requires
        start < b@.len(),
    ensures
        r matches Ok((v, end)) ==> start < end <= b@.len() && tv_wf(v) && tv_canon(v)
            && repr_encode(v, nested) == b@.subrange(start as int, end as int),
        r matches Err(e) ==> e == (FdbError { error_code: TUPLE_FROM_BYTES }),
        crate::laws::valid_element_at(b@, start as int, nested) ==> (r is Ok && (r matches Ok(p)
            ==> tv_tight(p.0))),
        crate::laws::repr_valid_element_at(b@, start as int, nested) ==> r is Ok,
        r matches Ok((v, end)) ==> ((tv_view(v) is Bytes || tv_view(v) is Text || tv_view(v)
            is Nested) ==> (end == b@.len() || b@[end as int] != 0xFF)),
    decreases b@.len() - start, 2nat,
{
    let blen = b.len();
    let code = b[start];
    let ghost hyp = crate::laws::valid_element_at(b@, start as int, nested);
    let ghost hyp_r = crate::laws::repr_valid_element_at(b@, start as int, nested);
    if code == 0x00 {
        if !nested {
            proof {
                assert(b@.subrange(start as int, (start + 1) as int) =~= seq![0x00u8]);
            }
            return Ok((TupleValue::NullValue, start + 1));
        }
        if start + 1 < b.len() && b[start + 1] == 0xFF {
            proof {
                assert(b@.subrange(start as int, (start + 2) as int) =~= seq![0x00u8, 0xFFu8]);
            }
            return Ok((TupleValue::NullValue, start + 2));
        }
        proof {
            if hyp {
                let (w, rest) = crate::laws::lemma_element_witness(b@, start as int, nested);
                crate::laws::lemma_elem_class_from_code(w, nested);
                let ex = crate::encoding::spec_encode_element(w, nested);
                assert(ex =~= seq![0x00u8, 0xFFu8]);
                let sfx = b@.subrange(start as int, b@.len() as int);
                assert(sfx.len() == b@.len() - start);
                assert(sfx[1] == (ex + rest)[1]);
                assert((ex + rest)[1] == ex[1]);
                assert(b@[start + 1] == sfx[1]);
            }
            if hyp_r {
                let (w, rest) = crate::laws::lemma_repr_witness(b@, start as int, nested);
                assert(w is NullValue);
                let ex = repr_encode(w, nested);
                assert(ex =~= seq![0x00u8, 0xFFu8]);
                let sfx = b@.subrange(start as int, b@.len() as int);
                assert(sfx.len() == b@.len() - start);
                assert(sfx[1] == (ex + rest)[1]);
                assert((ex + rest)[1] == ex[1]);
                assert(b@[start + 1] == sfx[1]);
            }
        }
        return Err(FdbError::new(TUPLE_FROM_BYTES));
    }
    if code == 0x01 {
        let (bytes, end) = match scan_escaped(b, start + 1) {
            Ok(p) => p,
            Err(e) => {
                proof {
                    if hyp {
                        crate::laws::lemma_escaped_from_element(b@, start as int, nested);
                    }
                    if hyp_r {
                        crate::laws::lemma_repr_escaped_from_element(b@, start as int, nested);
                    }
                }
                return Err(e);
            },
        };
        proof {
            assert(b@.subrange(start as int, end as int) =~= seq![0x01u8] + b@.subrange(
                (start + 1) as int,
                end as int,
            ));
            assert(seq![0x01u8] + (escape(bytes@) + seq![0x00u8]) =~= seq![0x01u8] + escape(bytes@)
                + seq![0x00u8]);
        }
        return Ok((TupleValue::ByteString(bytes), end));
    }
    if code == 0x02 {
        let (bytes, end) = match scan_escaped(b, start + 1) {
            Ok(p) => p,
            Err(e) => {
                proof {
                    if hyp {
                        crate::laws::lemma_escaped_from_element(b@, start as int, nested);
                    }
                    if hyp_r {
                        crate::laws::lemma_repr_escaped_from_element(b@, start as int, nested);
                    }
                }
                return Err(e);
            },
        };
        let ghost raw = bytes@;
        let s = match utf8_to_string(bytes) {
            Some(s) => s,
            None => {
                proof {
                    if hyp {
                        crate::laws::lemma_text_payload(b@, start as int, nested, raw, end as int);
                    }
                    if hyp_r {
                        crate::laws::lemma_repr_text_payload(
                            b@,
                            start as int,
                            nested,
                            raw,
                            end as int,
                        );
                    }
                }
                return Err(FdbError::new(TUPLE_FROM_BYTES));
            },
        };
        proof {
            assert(b@.subrange(start as int, end as int) =~= seq![0x02u8] + b@.subrange(
                (start + 1) as int,
                end as int,
            ));
            assert(seq![0x02u8] + (escape(raw) + seq![0x00u8]) =~= seq![0x02u8] + escape(
                vstd::utf8::encode_utf8(s@),
            ) + seq![0x00u8]);
        }
        return Ok((TupleValue::UnicodeString(s), end));
    }
    if code == 0x05 {
        return decode_nested(b, start, nested);
    }
    if code == 0x14 {
        proof {
            assert(b@.subrange(start as int, (start + 1) as int) =~= seq![0x14u8]);
        }
        return Ok((TupleValue::IntZero, start + 1));
    }
    if 0x15 <= code && code <= 0x1C {
        return decode_fixed_int(b, start, (code - 0x14) as usize, false);
    }
    if 0x0C <= code && code <= 0x13 {
        return decode_fixed_int(b, start, (0x14 - code) as usize, true);
    }
    if code == 0x1D || code == 0x0B {
        let negative = code == 0x0B;
        if start + 1 >= b.len() {
            proof {
                if hyp {
                    let ki = crate::laws::lemma_arb_int_witness(
                        b@,
                        start as int,
                        negative,
                        nested,
                    );
                }
                if hyp_r {
                    let (w, rest) = crate::laws::lemma_repr_witness(b@, start as int, nested);
                    assert(repr_encode(w, nested).len() >= 2) by {
                        assert(w is NegativeArbitraryPrecisionInteger
                            || w is PositiveArbitraryPrecisionInteger);
                    }
                }
            }
            return Err(FdbError::new(TUPLE_FROM_BYTES));
        }
        let len_byte = b[start + 1];
        let len: usize = if negative {
            (255 - len_byte) as usize
        } else {
            len_byte as usize
        };
        if b.len() - start - 2 < len {
            proof {
                if hyp {
                    let ki = crate::laws::lemma_arb_int_witness(
                        b@,
                        start as int,
                        negative,
                        nested,
                    );
                }
                if hyp_r {
                    let (w, rest) = crate::laws::lemma_repr_witness(b@, start as int, nested);
                    assert(w is NegativeArbitraryPrecisionInteger
                        || w is PositiveArbitraryPrecisionInteger);
                    let m = if negative {
                        w->NegativeArbitraryPrecisionInteger_0@
                    } else {
                        w->PositiveArbitraryPrecisionInteger_0@
                    };
                    let ex = repr_encode(w, nested);
                    assert(ex.len() == 2 + m.len()) by {
                        assert(comp(m).len() == m.len());
                    }
                    let sfx = b@.subrange(start as int, b@.len() as int);
                    assert(sfx.len() == b@.len() - start);
                    assert(sfx[1] == (ex + rest)[1]);
                    assert((ex + rest)[1] == ex[1]);
                    assert(b@[start + 1] == sfx[1]);
                    assert(m.len() % 256 == m.len());
                    assert(len == m.len());
                }
            }
            return Err(FdbError::new(TUPLE_FROM_BYTES));
        }
        let payload_at = start + 2;
        let mut magnitude: Vec<u8> = Vec::new();
        let mut j: usize = 0;
        while j < len
            invariant
                payload_at + len <= b@.len(),
                b@.len() <= usize::MAX,
                j <= len,
                magnitude@ =~= if negative {
                    comp(b@.subrange(payload_at as int, (payload_at + j) as int))
                } else {
                    b@.subrange(payload_at as int, (payload_at + j) as int)
                },
            decreases len - j,
        {
            let byte = if negative {
                255 - b[payload_at + j]
            } else {
                b[payload_at + j]
            };
            magnitude.push(byte);
            j = j + 1;
            proof {
                assert(b@.subrange(payload_at as int, (payload_at + j) as int) =~= b@.subrange(
                    payload_at as int,
                    (payload_at + j - 1) as int,
                ).push(b@[payload_at + j - 1]));
            }
        }
        let end = payload_at + len;
        let v = if negative {
            TupleValue::NegativeArbitraryPrecisionInteger(magnitude)
        } else {
            TupleValue::PositiveArbitraryPrecisionInteger(magnitude)
        };
        proof {
            let raw = b@.subrange(payload_at as int, end as int);
            lemma_comp_comp(raw);
            assert(b@.subrange(start as int, end as int) =~= seq![b@[start as int], b@[start + 1]]
                + raw);
            if negative {
                assert((255 - (comp(raw).len() % 256)) as u8 == len_byte);
            }
            if hyp {
                // on a canonically encoded stream the arrival is tight:
                // at least nine magnitude bytes and no leading zero
                let ki = crate::laws::lemma_arb_int_witness(b@, start as int, negative, nested);
                assert(ki == len);
                assert(magnitude@[0] != 0 && magnitude@.len() >= 9);
                assert(tv_tight(v));
            }
        }
        return Ok((v, end));
    }
    if code == 0x20 {
        if b.len() - start <= 4 {
            proof {
                if hyp {
                    let (w, rest) = crate::laws::lemma_element_witness(b@, start as int, nested);
                    crate::laws::lemma_elem_class_from_code(w, nested);
                    crate::bigint::lemma_be_bytes_len(crate::encoding::mangle32(w->Float32_0), 4);
                }
                if hyp_r {
                    let (w, rest) = crate::laws::lemma_repr_witness(b@, start as int, nested);
                    crate::laws::lemma_repr_fixed_lens(w, nested);
                }
            }
            return Err(FdbError::new(TUPLE_FROM_BYTES));
        }
        let v = read_be(b, start + 1, 4, false);
        proof {
            lemma_pow256_values();
            lemma_be_val_bound(b@.subrange((start + 1) as int, (start + 5) as int));
        }
        let mangled = v as u32;
        let bits: u32 = if mangled >= 0x8000_0000 {
            mangled - 0x8000_0000
        } else {
            0xFFFF_FFFF - mangled
        };
        proof {
            lemma_pow256_values();
            let raw = b@.subrange((start + 1) as int, (start + 5) as int);
            lemma_be_val_bound(raw);
            lemma_be_bytes_of_val(raw);
            assert(crate::encoding::mangle32(bits) == v as nat);
            assert(b@.subrange(start as int, (start + 5) as int) =~= seq![0x20u8] + raw);
        }
        return Ok((TupleValue::IeeeBinaryFloatingPointFloat(bits), start + 5));
    }
    if code == 0x21 {
        if b.len() - start <= 8 {
            proof {
                if hyp {
                    let (w, rest) = crate::laws::lemma_element_witness(b@, start as int, nested);
                    crate::laws::lemma_elem_class_from_code(w, nested);
                    crate::bigint::lemma_be_bytes_len(crate::encoding::mangle64(w->Float64_0), 8);
                }
                if hyp_r {
                    let (w, rest) = crate::laws::lemma_repr_witness(b@, start as int, nested);
                    crate::laws::lemma_repr_fixed_lens(w, nested);
                }
            }
            return Err(FdbError::new(TUPLE_FROM_BYTES));
        }
        let v = read_be(b, start + 1, 8, false);
        let bits: u64 = if v >= 0x8000_0000_0000_0000 {
            v - 0x8000_0000_0000_0000
        } else {
            0xFFFF_FFFF_FFFF_FFFF - v
        };
        proof {
            lemma_pow256_values();
            let raw = b@.subrange((start + 1) as int, (start + 9) as int);
            lemma_be_val_bound(raw);
            lemma_be_bytes_of_val(raw);
            assert(crate::encoding::mangle64(bits) == v as nat);
            assert(b@.subrange(start as int, (start + 9) as int) =~= seq![0x21u8] + raw);
        }
        return Ok((TupleValue::IeeeBinaryFloatingPointDouble(bits), start + 9));
    }
    if code == 0x26 {
        proof {
            assert(b@.subrange(start as int, (start + 1) as int) =~= seq![0x26u8]);
        }
        return Ok((TupleValue::FalseValue, start + 1));
    }
    if code == 0x27 {
        proof {
            assert(b@.subrange(start as int, (start + 1) as int) =~= seq![0x27u8]);
        }
        return Ok((TupleValue::TrueValue, start + 1));
    }
    if code == 0x30 {
        if b.len() - start <= 16 {
            proof {
                if hyp {
                    let (w, rest) = crate::laws::lemma_element_witness(b@, start as int, nested);
                    crate::laws::lemma_elem_class_from_code(w, nested);
                    assert(crate::encoding::spec_encode_element(w, nested).len() == 17);
                }
                if hyp_r {
                    let (w, rest) = crate::laws::lemma_repr_witness(b@, start as int, nested);
                    crate::laws::lemma_repr_fixed_lens(w, nested);
                    assert(w matches TupleValue::Rfc4122Uuid(u) && u.bytes@.len() == 16);
                }
            }
            return Err(FdbError::new(TUPLE_FROM_BYTES));
        }
        let mut bytes: Vec<u8> = Vec::new();
        let mut j: usize = 0;
        while j < 16
            invariant
                start + 17 <= b@.len(),
                b@.len() <= usize::MAX,
                j <= 16,
                bytes@ =~= b@.subrange((start + 1) as int, (start + 1 + j) as int),
            decreases 16 - j,
        {
            bytes.push(b[start + 1 + j]);
            j = j + 1;
            proof {
                assert(b@.subrange((start + 1) as int, (start + 1 + j) as int) =~= b@.subrange(
                    (start + 1) as int,
                    (start + j) as int,
                ).push(b@[start + j]));
            }
        }
        let u = Uuid::from_bytes(bytes);
        proof {
            assert(b@.subrange(start as int, (start + 17) as int) =~= seq![0x30u8] + b@.subrange(
                (start + 1) as int,
                (start + 17) as int,
            ));
        }
        return Ok((TupleValue::Rfc4122Uuid(u), start + 17));
    }
    if code == 0x33 {
        if b.len() - start <= 12 {
            proof {
                if hyp {
                    let (w, rest) = crate::laws::lemma_element_witness(b@, start as int, nested);
                    crate::laws::lemma_elem_class_from_code(w, nested);
                    match w {
                        ElementView::Stamp { user_version, .. } => {
                            crate::bigint::lemma_be_bytes_len(user_version as nat, 2);
                            assert(crate::encoding::spec_encode_element(w, nested).len() == 13);
                        },
                        _ => {},
                    }
                }
                if hyp_r {
                    let (w, rest) = crate::laws::lemma_repr_witness(b@, start as int, nested);
                    match w {
                        TupleValue::Versionstamp96Bit(vsw) => {
                            crate::bigint::lemma_be_bytes_len(vsw.user_version as nat, 2);
                            assert(repr_encode(w, nested).len() == 13);
                        },
                        _ => {},
                    }
                }
            }
            return Err(FdbError::new(TUPLE_FROM_BYTES));
        }
        let mut bytes: Vec<u8> = Vec::new();
        let mut j: usize = 0;
        while j < 12
            invariant
                start + 13 <= b@.len(),
                b@.len() <= usize::MAX,
                j <= 12,
                bytes@ =~= b@.subrange((start + 1) as int, (start + 1 + j) as int),
            decreases 12 - j,
        {
            bytes.push(b[start + 1 + j]);
            j = j + 1;
            proof {
                assert(b@.subrange((start + 1) as int, (start + 1 + j) as int) =~= b@.subrange(
                    (start + 1) as int,
                    (start + j) as int,
                ).push(b@[start + j]));
            }
        }
        let ghost raw = bytes@;
        let vs = Versionstamp::from_bytes(bytes);
        proof {
            assert(b@.subrange(start as int, (start + 13) as int) =~= seq![0x33u8] + raw);
            assert(vs.spec_bytes() == raw);
            assert(seq![0x33u8] + vs.tr_version@ + crate::encoding::be_bytes(
                vs.user_version as nat,
                2,
            ) =~= seq![0x33u8] + (vs.tr_version@ + crate::encoding::be_bytes(
                vs.user_version as nat,
                2,
            )));
        }
        return Ok((TupleValue::Versionstamp96Bit(vs), start + 13));
    }
    proof {
        if hyp {
            let (w, rest) = crate::laws::lemma_element_witness(b@, start as int, nested);
            crate::laws::lemma_code_handled(w, nested);
        }
        if hyp_r {
            let (w, rest) = crate::laws::lemma_repr_witness(b@, start as int, nested);
            crate::laws::lemma_repr_code_handled(w);
        }
    }
    Err(FdbError::new(TUPLE_FROM_BYTES))
}

/// Decode a whole byte sequence into stored elements, consuming all input.
pub(crate) fn decode_all(b: &Vec<u8>) -> (r: FdbResult<Vec<TupleValue>>)
    ensures
        r matches Ok(vs) ==> tv_wf_seq(vs@) && tv_canon_seq(vs@) && repr_encode_seq(vs@, false)
            == b@,
        r matches Err(e) ==> e == (FdbError { error_code: TUPLE_FROM_BYTES }),
        (r is Ok) <==> crate::laws::repr_valid_elements_at(b@, 0),
        crate::laws::valid_elements_at(b@, 0) ==> (r is Ok && (r matches Ok(vs) ==> tv_tight_seq(
            vs@,
        ))),
{
    let ghost hyp = crate::laws::valid_elements_at(b@, 0);
    let ghost hyp_r = crate::laws::repr_valid_elements_at(b@, 0);
    let mut out: Vec<TupleValue> = Vec::new();
    let mut pos: usize = 0;
    proof {
        assert(b@.subrange(0, 0) =~= Seq::<u8>::empty());
        assert(repr_encode_seq(out@, false) =~= Seq::<u8>::empty());
    }
    while pos < b.len()
        invariant
            pos <= b@.len(),
            hyp == crate::laws::valid_elements_at(b@, 0),
            hyp_r == crate::laws::repr_valid_elements_at(b@, 0),
            hyp ==> crate::laws::valid_elements_at(b@, pos as int),
            hyp ==> tv_tight_seq(out@),
            hyp_r ==> crate::laws::repr_valid_elements_at(b@, pos as int),
            b@.subrange(0, pos as int) == repr_encode_seq(out@, false),
            tv_wf_seq(out@),
            tv_canon_seq(out@),
        decreases b@.len() - pos,
    {
        proof {
            crate::laws::lemma_top_step(b@, pos as int);
        }
        let (v, next) = match decode_element(b, pos, false) {
            Ok(p) => p,
            Err(e) => {
                return Err(e);
            },
        };
        proof {
            lemma_repr_encode_seq_push(out@, v, false);
            lemma_tv_wf_seq_push(out@, v);
            lemma_tv_canon_seq_push(out@, v);
            assert(b@.subrange(0, next as int) =~= b@.subrange(0, pos as int) + b@.subrange(
                pos as int,
                next as int,
            ));
            if hyp {
                // the element's own conditional clause makes it tight here
                assert(tv_tight(v));
                crate::element::lemma_tv_tight_seq_push(out@, v);
            }
            crate::laws::lemma_top_advance(b@, pos as int, next as int, v);
        }
        out.push(v);
        pos = next;
    }
    proof {
        assert(b@.subrange(0, b@.len() as int) =~= b@);
        assert(tv_wf_seq(out@) && b@.subrange(0, b@.len() as int) == repr_encode_seq(out@, false));
        assert(crate::laws::repr_valid_elements_at(b@, 0));
    }
    Ok(out)
}

} // verus!
