//! A sign-and-magnitude arbitrary-precision integer.
//!
//! The codec only ever reads an integer's sign and its big-endian magnitude
//! bytes, so that is exactly what this type stores. The magnitude carries no
//! leading zero and zero itself is the empty magnitude with a positive sign.

use vstd::arithmetic::div_mod::{
    lemma_basic_div, lemma_div_by_self, lemma_div_decreases, lemma_div_denominator,
    lemma_div_is_ordered, lemma_fundamental_div_mod, lemma_multiply_divide_lt,
    lemma_small_div_converse, lemma_small_mod,
};
use vstd::prelude::*;

use crate::encoding::{be_bytes, be_val, min_len, pow256};

verus! {

/// An integer of arbitrary magnitude, stored as a sign and big-endian
/// magnitude bytes.
#[derive(Clone, Debug, PartialEq, Eq)]
pub struct BigInt {
    pub negative: bool,
    pub magnitude: Vec<u8>,
}

impl View for BigInt {
    type V = int;

    open spec fn view(&self) -> int {
        if self.negative {
            -(be_val(self.magnitude@) as int)
        } else {
            be_val(self.magnitude@) as int
        }
    }
}

impl BigInt {
    /// Canonical representation: no leading zero, and zero is never negative.
    pub open spec fn wf(&self) -> bool {
        &&& (self.magnitude@.len() > 0 ==> self.magnitude@[0] != 0)
        &&& (self.negative ==> self.magnitude@.len() > 0)
    }

    /// Build a [`BigInt`] from a sign and big-endian magnitude bytes.
    /// Leading zeroes are stripped, and a zero magnitude ignores the sign.
    pub fn from_sign_magnitude(negative: bool, magnitude: Vec<u8>) -> (r: BigInt)
        ensures
            r.wf(),
            r@ == if negative {
                -(be_val(magnitude@) as int)
            } else {
                be_val(magnitude@) as int
            },
            r.magnitude@.len() <= magnitude@.len(),
    {
        let mut start: usize = 0;
        while start < magnitude.len() && magnitude[start] == 0
            invariant
                start <= magnitude@.len(),
                forall|i: int| 0 <= i < start ==> magnitude@[i] == 0,
            decreases magnitude@.len() - start,
        {
            start = start + 1;
        }
        let mut stripped: Vec<u8> = Vec::new();
        let mut i: usize = start;
        while i < magnitude.len()
            invariant
                start <= i <= magnitude@.len(),
                stripped@ =~= magnitude@.subrange(start as int, i as int),
            decreases magnitude@.len() - i,
        {
            stripped.push(magnitude[i]);
            i = i + 1;
        }
        proof {
            assert(stripped@ =~= magnitude@.skip(start as int));
            lemma_be_val_strip_zeros(magnitude@, start as int);
        }
        let is_zero = stripped.len() == 0;
        let r = BigInt { negative: negative && !is_zero, magnitude: stripped };
        proof {
            if negative && is_zero {
                assert(be_val(magnitude@) == 0);
            }
        }
        r
    }

    /// Build a [`BigInt`] from a sign and a magnitude that fits in 64 bits.
    pub fn from_sign_u64(negative: bool, magnitude: u64) -> (r: BigInt)
        ensures
            r.wf(),
            r@ == if negative {
                -(magnitude as int)
            } else {
                magnitude as int
            },
            r.magnitude@.len() <= 8,
    {
        let bytes = u64_to_min_be_bytes(magnitude);
        BigInt { negative: negative && magnitude > 0, magnitude: bytes }
    }

    /// Whether this integer is strictly negative.
    pub fn is_negative(&self) -> (r: bool)
        requires
            self.wf(),
        ensures
            r == (self@ < 0),
    {
        proof {
            if self.magnitude@.len() > 0 {
                lemma_be_val_leading_nonzero(self.magnitude@);
            }
        }
        self.negative
    }
}

/// The shortest big-endian representation of `m`, or no bytes at all when
/// `m` is zero.
pub fn u64_to_min_be_bytes(m: u64) -> (r: Vec<u8>)
    ensures
        m == 0 ==> r@ =~= Seq::<u8>::empty(),
        m > 0 ==> r@ == be_bytes(m as nat, min_len(m as nat)) && min_len(m as nat) == r@.len(),
        r@.len() <= 8,
        be_val(r@) == m,
        r@.len() > 0 ==> r@[0] != 0,
{
    if m == 0 {
        let r: Vec<u8> = Vec::new();
        return r;
    }
    let mut out: Vec<u8> = Vec::new();
    let mut x: u64 = m;
    let mut k: usize = 0;
    proof {
        assert(pow256(0) == 1);
        vstd::arithmetic::div_mod::lemma_div_basics(m as int);
        assert(be_bytes(m as nat, 0) =~= Seq::<u8>::empty());
    }
    while x > 0
        invariant
            m > 0,
            k == out@.len(),
            x as nat == m as nat / pow256(k as nat),
            out@ =~= be_bytes(m as nat, k as nat),
            k >= 1 ==> m as nat >= pow256((k - 1) as nat),
            k == 0 ==> x == m,
            k <= 8,
        decreases x,
    {
        proof {
            lemma_pow256_pos(k as nat);
            lemma_be_bytes_unfold(m as nat, (k + 1) as nat);
            lemma_div_denominator(m as int, pow256(k as nat) as int, 256);
            assert(pow256((k + 1) as nat) == pow256(k as nat) * 256) by {
                lemma_pow256_mul(k as nat);
            }
            // x > 0 here, so m >= pow256(k), which also bounds k below 8.
            assert(m as nat >= pow256(k as nat)) by {
                if (m as nat) < pow256(k as nat) {
                    lemma_basic_div(m as int, pow256(k as nat) as int);
                }
            }
            if k >= 8 {
                assert(pow256(8) == 0x1_0000_0000_0000_0000) by {
                    reveal_with_fuel(pow256, 9);
                }
                lemma_pow256_increases_le(8, k as nat);
            }
            lemma_div_decreases(x as int, 256);
        }
        let b: u8 = (x % 256) as u8;
        out.insert(0, b);
        x = x / 256;
        k = k + 1;
    }
    proof {
        lemma_pow256_pos(k as nat);
        lemma_small_div_converse(m as int, pow256(k as nat) as int);
        assert((m as nat) < pow256(k as nat));
        lemma_min_len_exact(m as nat, k as nat);
        lemma_be_bytes_val(m as nat, k as nat);
        lemma_be_bytes_leading(m as nat, k as nat);
    }
    out
}

/// `pow256(k + 1)` unfolds at the top as well as at the bottom.
pub proof fn lemma_pow256_mul(k: nat)
    ensures
        pow256(k + 1) == pow256(k) * 256,
    decreases k,
{
    if k > 0 {
        lemma_pow256_mul((k - 1) as nat);
    }
}

/// Stripping leading zero bytes keeps the big-endian value.
pub proof fn lemma_be_val_strip_zeros(b: Seq<u8>, start: int)
    requires
        0 <= start <= b.len(),
        forall|i: int| 0 <= i < start ==> b[i] == 0,
    ensures
        be_val(b.skip(start)) == be_val(b),
    decreases b.len(),
{
    if start == 0 {
        assert(b.skip(0) =~= b);
    } else if b.len() > 0 {
        if start < b.len() {
            lemma_be_val_strip_zeros(b.drop_last(), start);
            assert(b.skip(start).drop_last() =~= b.drop_last().skip(start));
            assert(b.skip(start).last() == b.last());
            assert(b.skip(start).len() > 0);
        } else {
            lemma_be_val_strip_zeros(b.drop_last(), start - 1);
            assert(b.drop_last().skip(start - 1) =~= Seq::<u8>::empty());
            assert(be_val(b.drop_last()) == 0);
            assert(b.last() == 0);
            assert(b.skip(start) =~= Seq::<u8>::empty());
        }
    }
}

/// A big-endian value with a nonzero leading byte is positive; in fact it
/// reaches the lower bound of its width.
pub proof fn lemma_be_val_leading_nonzero(b: Seq<u8>)
    requires
        b.len() > 0,
        b[0] != 0,
    ensures
        be_val(b) >= pow256((b.len() - 1) as nat),
        be_val(b) > 0,
    decreases b.len(),
{
    lemma_pow256_pos((b.len() - 1) as nat);
    if b.len() == 1 {
        assert(b.drop_last() =~= Seq::<u8>::empty());
    } else {
        lemma_be_val_leading_nonzero(b.drop_last());
        assert(be_val(b) == be_val(b.drop_last()) * 256 + b.last());
        assert(be_val(b.drop_last()) * 256 >= pow256((b.len() - 2) as nat) * 256) by (
        nonlinear_arith)
            requires
                be_val(b.drop_last()) >= pow256((b.len() - 2) as nat),
        ;
        assert(pow256((b.len() - 1) as nat) == 256 * pow256((b.len() - 2) as nat));
    }
}

/// The big-endian value of any byte sequence is below `256^len`.
pub proof fn lemma_be_val_bound(b: Seq<u8>)
    ensures
        be_val(b) < pow256(b.len()),
    decreases b.len(),
{
    if b.len() == 0 {
    } else {
        lemma_be_val_bound(b.drop_last());
        assert(be_val(b.drop_last()) * 256 + 255 < pow256((b.len() - 1) as nat) * 256) by (
        nonlinear_arith)
            requires
                be_val(b.drop_last()) < pow256((b.len() - 1) as nat),
        ;
        assert(pow256(b.len()) == 256 * pow256((b.len() - 1) as nat));
    }
}

/// `pow256` is positive.
pub proof fn lemma_pow256_pos(k: nat)
    ensures
        pow256(k) >= 1,
    decreases k,
{
    if k > 0 {
        lemma_pow256_pos((k - 1) as nat);
    }
}

/// `pow256` is strictly increasing in `k`.
pub proof fn lemma_pow256_increases(j: nat, k: nat)
    requires
        j < k,
    ensures
        pow256(j) < pow256(k),
    decreases k,
{
    lemma_pow256_pos(j);
    if j + 1 < k {
        lemma_pow256_increases(j, (k - 1) as nat);
    }
}

/// `pow256` is monotone.
pub proof fn lemma_pow256_increases_le(j: nat, k: nat)
    requires
        j <= k,
    ensures
        pow256(j) <= pow256(k),
{
    if j < k {
        lemma_pow256_increases(j, k);
    }
}

/// Unfolding of `be_bytes` at the most significant end: one more width
/// byte prepends the next digit of the quotient.
pub proof fn lemma_be_bytes_unfold(m: nat, k: nat)
    requires
        k >= 1,
    ensures
        be_bytes(m, k) =~= seq![(m / pow256((k - 1) as nat) % 256) as u8] + be_bytes(
            m,
            (k - 1) as nat,
        ),
    decreases k,
{
    if k == 1 {
        assert(pow256(0) == 1);
        vstd::arithmetic::div_mod::lemma_div_basics(m as int);
        assert(be_bytes(m, 0) =~= Seq::<u8>::empty());
        assert(be_bytes(m / 256, 0) =~= Seq::<u8>::empty());
        assert(be_bytes(m, 1) =~= seq![(m % 256) as u8]);
        assert(m / pow256(0) == m);
    } else {
        lemma_be_bytes_unfold(m / 256, (k - 1) as nat);
        lemma_pow256_pos((k - 2) as nat);
        lemma_div_denominator(m as int, 256, pow256((k - 2) as nat) as int);
        assert(256 * pow256((k - 2) as nat) == pow256((k - 1) as nat));
        assert((m / 256) / pow256((k - 2) as nat) == m / pow256((k - 1) as nat));
        assert(be_bytes(m, k) == be_bytes(m / 256, (k - 1) as nat).push((m % 256) as u8));
        assert(be_bytes(m, (k - 1) as nat) == be_bytes(m / 256, (k - 2) as nat).push(
            (m % 256) as u8,
        ));
        let q = (m / pow256((k - 1) as nat) % 256) as u8;
        assert((seq![q] + be_bytes(m / 256, (k - 2) as nat)).push((m % 256) as u8) =~= seq![q]
            + be_bytes(m / 256, (k - 2) as nat).push((m % 256) as u8));
    }
}

/// `m < 256^k` bounds the minimal width by `k`.
pub proof fn lemma_min_len_le(m: nat, k: nat)
    requires
        k >= 1,
        m < pow256(k),
    ensures
        min_len(m) <= k,
    decreases k,
{
    if m >= 256 {
        assert(m / 256 < pow256((k - 1) as nat)) by {
            assert(pow256(k) == 256 * pow256((k - 1) as nat));
            lemma_multiply_divide_lt(m as int, 256, pow256((k - 1) as nat) as int);
        }
        lemma_min_len_le(m / 256, (k - 1) as nat);
    }
}

/// When `m` lies between `256^(k-1)` and `256^k`, its minimal width is
/// exactly `k`.
pub proof fn lemma_min_len_exact(m: nat, k: nat)
    requires
        k >= 1,
        m < pow256(k),
        k > 1 ==> m >= pow256((k - 1) as nat),
    ensures
        min_len(m) == k,
    decreases k,
{
    assert(pow256(0) == 1);
    assert(pow256(1) == 256);
    if k == 1 {
    } else {
        assert(m >= 256) by {
            lemma_pow256_increases_le(1, (k - 1) as nat);
        }
        assert(m / 256 < pow256((k - 1) as nat)) by {
            assert(pow256(k) == 256 * pow256((k - 1) as nat));
            lemma_multiply_divide_lt(m as int, 256, pow256((k - 1) as nat) as int);
        }
        if k - 1 > 1 {
            assert(m / 256 >= pow256((k - 2) as nat)) by {
                assert(pow256((k - 1) as nat) == 256 * pow256((k - 2) as nat));
                lemma_div_is_ordered((256 * pow256((k - 2) as nat)) as int, m as int, 256);
                assert((256 * pow256((k - 2) as nat)) as int / 256 == pow256((k - 2) as nat)) by {
                    vstd::arithmetic::div_mod::lemma_div_multiples_vanish(
                        pow256((k - 2) as nat) as int,
                        256,
                    );
                }
            }
        }
        lemma_min_len_exact(m / 256, (k - 1) as nat);
    }
}

/// For a positive `m`, `min_len` names a width that really holds `m`.
pub proof fn lemma_min_len_bounds(m: nat)
    ensures
        m < pow256(min_len(m)),
        min_len(m) >= 1,
        min_len(m) > 1 ==> m >= pow256((min_len(m) - 1) as nat),
    decreases m,
{
    if m < 256 {
    } else {
        lemma_min_len_bounds(m / 256);
        let k = min_len(m / 256);
        assert(min_len(m) == 1 + k);
        assert(pow256(k + 1) == 256 * pow256(k));
        assert(m < 256 * pow256(k)) by {
            lemma_fundamental_div_mod(m as int, 256);
            assert(m == 256 * (m / 256) + m % 256);
            assert(256 * (m / 256) + 255 < 256 * pow256(k)) by (nonlinear_arith)
                requires
                    (m / 256) < pow256(k),
            ;
        }
        if k == 1 {
            assert(m >= pow256(1)) by {
                assert(pow256(1) == 256);
            }
        } else {
            assert(m >= pow256(k)) by {
                assert(m / 256 >= pow256((k - 1) as nat));
                lemma_fundamental_div_mod(m as int, 256);
                assert(m == 256 * (m / 256) + m % 256);
                assert(256 * (m / 256) >= 256 * pow256((k - 1) as nat)) by (nonlinear_arith)
                    requires
                        (m / 256) >= pow256((k - 1) as nat),
                ;
                assert(pow256(k) == 256 * pow256((k - 1) as nat));
            }
        }
    }
}

/// The big-endian bytes of `m` at any width that holds it decode back to `m`.
pub proof fn lemma_be_bytes_val(m: nat, k: nat)
    requires
        m < pow256(k),
    ensures
        be_val(be_bytes(m, k)) == m,
        be_bytes(m, k).len() == k,
    decreases k,
{
    lemma_be_bytes_len(m, k);
    if k == 0 {
    } else {
        assert(m / 256 < pow256((k - 1) as nat)) by {
            assert(pow256(k) == 256 * pow256((k - 1) as nat));
            lemma_multiply_divide_lt(m as int, 256, pow256((k - 1) as nat) as int);
        }
        lemma_be_bytes_val(m / 256, (k - 1) as nat);
        let b = be_bytes(m, k);
        assert(b.drop_last() =~= be_bytes(m / 256, (k - 1) as nat));
        assert(be_val(b) == (m / 256) * 256 + m % 256);
        lemma_fundamental_div_mod(m as int, 256);
    }
}

/// `be_bytes` always has the requested width.
pub proof fn lemma_be_bytes_len(m: nat, k: nat)
    ensures
        be_bytes(m, k).len() == k,
    decreases k,
{
    if k > 0 {
        lemma_be_bytes_len(m / 256, (k - 1) as nat);
    }
}

/// At the minimal width the leading byte of `be_bytes` is nonzero.
pub proof fn lemma_be_bytes_leading(m: nat, k: nat)
    requires
        k >= 1,
        m < pow256(k),
        k > 1 ==> m >= pow256((k - 1) as nat),
        m > 0,
    ensures
        be_bytes(m, k)[0] != 0,
{
    lemma_be_bytes_unfold(m, k);
    lemma_be_bytes_len(m, (k - 1) as nat);
    assert(be_bytes(m, k)[0] == (m / pow256((k - 1) as nat) % 256) as u8);
    let p = pow256((k - 1) as nat);
    lemma_pow256_pos((k - 1) as nat);
    if k == 1 {
        assert(p == 1);
        assert(m / 1 == m);
        lemma_small_mod(m, 256);
    } else {
        assert(m / p >= 1) by {
            lemma_div_is_ordered(p as int, m as int, p as int);
            lemma_div_by_self(p as int);
        }
        assert(m / p < 256) by {
            assert(pow256(k) == 256 * p);
            assert(p * 256 == 256 * p) by (nonlinear_arith);
            lemma_multiply_divide_lt(m as int, p as int, 256);
        }
        lemma_small_mod((m / p) as nat, 256);
    }
}

} // verus!
