//! Little-endian bit encoding of child indices.
//!
//! Dispatch and subdivision share one convention: bit `i` of a child index
//! tells whether the child sits in the upper half of axis `i`.  This module
//! defines that encoding (`nbit`, `from_bits`) and proves the facts the rest
//! of the crate needs: an index built from bits is below `2^k`, its bits are
//! the ones it was built from, and an index below `2^k` is determined by its
//! bits.

use vstd::prelude::*;
use vstd::arithmetic::div_mod::{
    lemma_basic_div, lemma_fundamental_div_mod, lemma_hoist_over_denominator,
    lemma_mod_multiples_vanish, lemma_multiply_divide_lt, lemma_small_mod,
};
use vstd::arithmetic::power2::{
    lemma2_to64, lemma2_to64_rest, lemma_pow2_adds, lemma_pow2_pos, lemma_pow2_strictly_increases,
    lemma_pow2_unfold, pow2,
};

verus! {

/// Bit `i` of `n`, little-endian: the parity of `n / 2^i`.
pub open spec fn nbit(n: nat, i: nat) -> bool {
    (n / pow2(i)) % 2 == 1
}

/// The index whose bit `i` is `f(i)` for `0 <= i < k`: `sum of f(i) * 2^i`.
pub open spec fn from_bits(f: spec_fn(int) -> bool, k: nat) -> nat
    decreases k,
{
    if k == 0 {
        0
    } else {
        from_bits(f, (k - 1) as nat) + if f(k - 1) {
            pow2((k - 1) as nat)
        } else {
            0
        }
    }
}

/// Concrete values of the powers of two that the crate's bounds mention.
pub proof fn pow2_facts()
    ensures
        pow2(0) == 1,
        pow2(1) == 2,
        pow2(2) == 4,
        pow2(60) == 0x1000_0000_0000_0000,
        pow2(61) == 0x2000_0000_0000_0000,
        pow2(62) == 0x4000_0000_0000_0000,
        pow2(63) == 0x8000_0000_0000_0000,
        pow2(64) == 0x1_0000_0000_0000_0000,
        pow2(123) == 0x800_0000_0000_0000_0000_0000_0000_0000,
        pow2(124) == 0x1000_0000_0000_0000_0000_0000_0000_0000,
        pow2(126) == 0x4000_0000_0000_0000_0000_0000_0000_0000,
        pow2(127) == 0x8000_0000_0000_0000_0000_0000_0000_0000,
{
    lemma2_to64();
    lemma2_to64_rest();
    lemma_pow2_adds(63, 60);
    lemma_pow2_adds(63, 61);
    lemma_pow2_adds(63, 63);
    lemma_pow2_adds(64, 63);
}

/// `2^k` as a `u64`, for `k` up to 63.
pub(crate) fn pow2_u64(k: u32) -> (r: u64)
    requires
        k <= 63,
    ensures
        r == pow2(k as nat),
{
    proof {
        pow2_facts();
    }
    let mut r: u64 = 1;
    let mut i: u32 = 0;
    while i < k
        invariant
            i <= k,
            k <= 63,
            r == pow2(i as nat),
        decreases k - i,
    {
        proof {
            pow2_facts();
            if (i as nat) < 63 {
                lemma_pow2_strictly_increases(i as nat, 63);
            }
            lemma_pow2_unfold((i + 1) as nat);
        }
        r = r * 2;
        i = i + 1;
    }
    r
}

/// An index built from `k` bits is below `2^k`.
pub proof fn lemma_from_bits_bound(f: spec_fn(int) -> bool, k: nat)
    ensures
        from_bits(f, k) < pow2(k),
    decreases k,
{
    if k == 0 {
        lemma2_to64();
    } else {
        lemma_from_bits_bound(f, (k - 1) as nat);
        lemma_pow2_unfold(k);
    }
}

/// Bit `i` of an index built from `k > i` bits is the bit it was built from.
pub proof fn lemma_from_bits_agrees(f: spec_fn(int) -> bool, k: nat, i: nat)
    requires
        i < k,
    ensures
        nbit(from_bits(f, k), i) == f(i as int),
    decreases k,
{
    let rest = from_bits(f, (k - 1) as nat);
    lemma_from_bits_bound(f, (k - 1) as nat);
    lemma_pow2_pos(i);
    if i == k - 1 {
        // from_bits(f, k) == rest + c * 2^i with rest < 2^i, so the quotient
        // by 2^i is exactly c.
        lemma_basic_div(rest as int, pow2(i) as int);
        if f(k - 1) {
            lemma_hoist_over_denominator(rest as int, 1, pow2(i));
            lemma_small_mod(1, 2);
            assert(nbit(from_bits(f, k), i));
        } else {
            lemma_small_mod(0, 2);
            assert(!nbit(from_bits(f, k), i));
        }
    } else {
        lemma_from_bits_agrees(f, (k - 1) as nat, i);
        if f(k - 1) {
            // Adding 2^(k-1) = (2 * 2^(k-2-i)) * 2^i changes neither the
            // quotient's parity nor the lower bits.
            let hi = pow2(((k - 1) - (i + 1)) as nat);
            lemma_pow2_adds(((k - 1) - (i + 1)) as nat, 1);
            lemma_pow2_adds(((k - 1) - i) as nat, i);
            assert(pow2((k - 1) as nat) == (2 * hi) * pow2(i)) by {
                lemma2_to64();
                assert(pow2(((k - 1) - i) as nat) == hi * 2);
            }
            lemma_hoist_over_denominator(rest as int, 2 * hi as int, pow2(i));
            assert((rest + pow2((k - 1) as nat)) as int / pow2(i) as int == rest as int / pow2(
                i,
            ) as int + 2 * hi);
            lemma_mod_multiples_vanish(hi as int, rest as int / pow2(i) as int, 2);
            assert(nbit(from_bits(f, k), i) == nbit(rest, i));
        } else {
            assert(from_bits(f, k) == rest);
        }
    }
}

/// Two bit assignments that agree below `k` build the same index.
pub proof fn lemma_from_bits_ext(f: spec_fn(int) -> bool, g: spec_fn(int) -> bool, k: nat)
    requires
        forall|i: int| 0 <= i < k ==> #[trigger] f(i) == g(i),
    ensures
        from_bits(f, k) == from_bits(g, k),
    decreases k,
{
    if k > 0 {
        lemma_from_bits_ext(f, g, (k - 1) as nat);
    }
}

/// An index below `2^k` is the one built from its own `k` bits: building
/// from any bit assignment `f` that matches the bits of `n` returns `n`.
pub proof fn lemma_bits_inverse(n: nat, k: nat, f: spec_fn(int) -> bool)
    requires
        n < pow2(k),
        forall|i: int| 0 <= i < k ==> #[trigger] f(i) == nbit(n, i as nat),
    ensures
        from_bits(f, k) == n,
    decreases k,
{
    if k == 0 {
        lemma2_to64();
        assert(n == 0);
    } else {
        let p = pow2((k - 1) as nat);
        lemma_pow2_pos((k - 1) as nat);
        let hi = n / p;
        let lo = n % p;
        lemma_fundamental_div_mod(n as int, p as int);
        assert(n == p * hi + lo);
        lemma_pow2_unfold(k);
        lemma_multiply_divide_lt(n as int, p as int, 2);
        assert(hi < 2);
        // The top bit of n is hi.
        lemma_small_mod(hi, 2);
        assert(nbit(n, (k - 1) as nat) == (hi == 1));
        // The low bits of n are the bits of lo.
        assert forall|i: int| 0 <= i < k - 1 implies #[trigger] f(i) == nbit(lo, i as nat) by {
            let pi = pow2(i as nat);
            lemma_pow2_pos(i as nat);
            let mid = pow2(((k - 1) - (i + 1)) as nat);
            lemma_pow2_adds(((k - 1) - (i + 1)) as nat, 1);
            lemma_pow2_adds(((k - 1) - i) as nat, i as nat);
            assert(p == (2 * mid) * pi) by {
                lemma2_to64();
                assert(pow2(((k - 1) - i) as nat) == mid * 2);
            }
            assert(n == lo + (hi * (2 * mid)) * pi) by (nonlinear_arith)
                requires
                    n == p * hi + lo,
                    p == (2 * mid) * pi,
            ;
            lemma_hoist_over_denominator(lo as int, hi * (2 * mid) as int, pi);
            assert(n as int / pi as int == lo as int / pi as int + hi * (2 * mid));
            assert(hi * (2 * mid) == 2 * (hi * mid)) by (nonlinear_arith);
            lemma_mod_multiples_vanish((hi * mid) as int, (lo as int / pi as int) as int, 2);
        }
        lemma_bits_inverse(lo, (k - 1) as nat, f);
        if hi == 1 {
            assert(p * hi == p) by (nonlinear_arith)
                requires
                    hi == 1,
            ;
            assert(from_bits(f, k) == lo + p);
        } else {
            assert(hi == 0);
            assert(p * hi == 0) by (nonlinear_arith)
                requires
                    hi == 0,
            ;
            assert(from_bits(f, k) == lo);
        }
        assert(from_bits(f, k) == n);
    }
}

} // verus!
