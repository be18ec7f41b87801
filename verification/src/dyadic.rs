//! Exact dyadic-rational scalars.
//!
//! A scalar is `m / 2^e` with a mantissa `m: i64` and a denominator exponent
//! `e <= EMAX`.  These are exactly the values that repeated halving produces,
//! so widths and centers of subdivided regions stay exact.  All contracts
//! speak of `val()`, the value scaled by `2^EMAX`, which is an integer; the
//! scaling is one fixed positive factor, so comparisons and sums of `val()`
//! mean the same as comparisons and sums of the rational values.

use vstd::prelude::*;
use vstd::arithmetic::mul::{
    lemma_mul_is_associative, lemma_mul_is_distributive_add_other_way,
};
use vstd::arithmetic::power2::{lemma_pow2_adds, lemma_pow2_pos, lemma_pow2_strictly_increases, pow2};
use crate::bits::pow2_facts;

verus! {

/// Largest denominator exponent a scalar may carry: values are multiples of
/// `2^-EMAX`.  Chosen so that every scaled value fits comfortably in an
/// `i128` during comparisons.
pub const EMAX: u32 = 60;

/// An exact dyadic rational: `m / 2^e`.
#[derive(Clone, Copy, Debug, PartialEq, Eq, Structural)]
pub struct Dyadic {
    /// Mantissa.
    pub m: i64,
    /// Denominator exponent: the value is `m / 2^e`.
    pub e: u32,
}

impl Dyadic {
    /// The scalar is representable: its denominator exponent is in range.
    pub open spec fn wf(self) -> bool {
        self.e <= EMAX
    }

    /// The value scaled by `2^EMAX`: `val() == (m / 2^e) * 2^EMAX`, an
    /// integer.  Order and sums of scalars are stated through it.
    pub open spec fn val(self) -> int {
        self.m * pow2((EMAX - self.e) as nat)
    }

    /// Build a scalar from a mantissa and a denominator exponent; rejects an
    /// exponent beyond `EMAX`.
    pub fn new(m: i64, e: u32) -> (r: Option<Dyadic>)
        ensures
            r is Some <==> e <= EMAX,
            r matches Some(d) ==> d == (Dyadic { m, e }) && d.wf(),
    {
        if e <= EMAX {
            Some(Dyadic { m, e })
        } else {
            None
        }
    }

    /// The scalar with the integer value `m`.
    pub fn from_int(m: i64) -> (r: Dyadic)
        ensures
            r.wf(),
            r == (Dyadic { m, e: 0u32 }),
            r.val() == m * pow2(EMAX as nat),
    {
        Dyadic { m, e: 0 }
    }

    /// The scaled value as a machine integer.
    pub fn scaled(&self) -> (r: i128)
        requires
            self.wf(),
        ensures
            r == self.val(),
            -pow2(123) <= r <= pow2(123),
    {
        proof {
            pow2_facts();
            if 0 < self.e {
                lemma_pow2_strictly_increases((EMAX - self.e) as nat, 60);
            }
        }
        let p = pow2_i128(EMAX - self.e);
        proof {
            lemma_pow2_pos((EMAX - self.e) as nat);
            assert(-0x800_0000_0000_0000_0000_0000_0000_0000 <= (self.m as int) * (p as int)
                <= 0x800_0000_0000_0000_0000_0000_0000_0000) by (nonlinear_arith)
                requires
                    -0x8000_0000_0000_0000 <= self.m as int <= 0x7FFF_FFFF_FFFF_FFFF,
                    0 < p as int <= 0x1000_0000_0000_0000,
            ;
        }
        (self.m as i128) * p
    }

    /// Whether the two scalars have the same value, across representations.
    pub fn value_eq(&self, other: &Dyadic) -> (r: bool)
        requires
            self.wf(),
            other.wf(),
        ensures
            r == (self.val() == other.val()),
    {
        self.scaled() == other.scaled()
    }

    /// Whether `self` is strictly below `other` in value.
    pub fn value_lt(&self, other: &Dyadic) -> (r: bool)
        requires
            self.wf(),
            other.wf(),
        ensures
            r == (self.val() < other.val()),
    {
        self.scaled() < other.scaled()
    }

    /// Whether `self` is at most `other` in value.
    pub fn value_le(&self, other: &Dyadic) -> (r: bool)
        requires
            self.wf(),
            other.wf(),
        ensures
            r == (self.val() <= other.val()),
    {
        self.scaled() <= other.scaled()
    }

    /// The exact sum, at the finer of the two exponents; `None` when that
    /// sum's mantissa does not fit in an `i64`.
    pub fn checked_add(&self, other: &Dyadic) -> (r: Option<Dyadic>)
        requires
            self.wf(),
            other.wf(),
        ensures
            r is Some <==> sum_fits(*self, *other),
            r matches Some(d) ==> {
                &&& d.wf()
                &&& d.e == sum_exp(*self, *other)
                &&& d.val() == self.val() + other.val()
            },
    {
        let er = if self.e >= other.e { self.e } else { other.e };
        let ma = self.mant_at(er);
        let mb = other.mant_at(er);
        proof {
            pow2_facts();
        }
        let s = ma + mb;
        if i64::MIN as i128 <= s && s <= i64::MAX as i128 {
            let d = Dyadic { m: s as i64, e: er };
            proof {
                lemma_val_at_coarser(*self, er);
                lemma_val_at_coarser(*other, er);
                lemma_mul_is_distributive_add_other_way(
                    pow2((EMAX - er) as nat) as int,
                    ma as int,
                    mb as int,
                );
            }
            Some(d)
        } else {
            None
        }
    }

    /// The mantissa of `self` rewritten at the coarser exponent `er`.
    fn mant_at(&self, er: u32) -> (r: i128)
        requires
            self.wf(),
            self.e <= er <= EMAX,
        ensures
            r == self.m * pow2((er - self.e) as nat),
            -pow2(123) <= r <= pow2(123),
    {
        proof {
            pow2_facts();
            if (er - self.e) < 60 {
                lemma_pow2_strictly_increases((er - self.e) as nat, 60);
            } else {
                assert(er - self.e == 60);
            }
        }
        let p = pow2_i128(er - self.e);
        proof {
            lemma_pow2_pos((er - self.e) as nat);
            assert(-0x800_0000_0000_0000_0000_0000_0000_0000 <= (self.m as int) * (p as int)
                <= 0x800_0000_0000_0000_0000_0000_0000_0000) by (nonlinear_arith)
                requires
                    -0x8000_0000_0000_0000 <= self.m as int <= 0x7FFF_FFFF_FFFF_FFFF,
                    0 < p as int <= 0x1000_0000_0000_0000,
            ;
        }
        (self.m as i128) * p
    }
}

/// The exponent at which a sum of two scalars is formed: the coarser of the
/// two denominators.
pub open spec fn sum_exp(a: Dyadic, b: Dyadic) -> u32 {
    if a.e >= b.e {
        a.e
    } else {
        b.e
    }
}

/// The mantissa the exact sum of `a` and `b` would have at `sum_exp(a, b)`.
pub open spec fn sum_mant(a: Dyadic, b: Dyadic) -> int {
    a.m * pow2((sum_exp(a, b) - a.e) as nat) + b.m * pow2((sum_exp(a, b) - b.e) as nat)
}

/// Whether the exact sum of `a` and `b` is representable.
pub open spec fn sum_fits(a: Dyadic, b: Dyadic) -> bool {
    i64::MIN <= sum_mant(a, b) <= i64::MAX
}

/// A scalar's value equals its mantissa at any coarser exponent `er` times
/// the remaining scale `2^(EMAX - er)`.
proof fn lemma_val_at_coarser(d: Dyadic, er: u32)
    requires
        d.wf(),
        d.e <= er <= EMAX,
    ensures
        d.val() == (d.m * pow2((er - d.e) as nat)) * pow2((EMAX - er) as nat),
{
    lemma_pow2_adds((er - d.e) as nat, (EMAX - er) as nat);
    lemma_mul_is_associative(
        d.m as int,
        pow2((er - d.e) as nat) as int,
        pow2((EMAX - er) as nat) as int,
    );
}

/// `2^k` as an `i128`, for `k` up to 126.
fn pow2_i128(k: u32) -> (r: i128)
    requires
        k <= 126,
    ensures
        r == pow2(k as nat),
{
    proof {
        pow2_facts();
    }
    let mut r: i128 = 1;
    let mut i: u32 = 0;
    while i < k
        invariant
            i <= k,
            k <= 126,
            r == pow2(i as nat),
        decreases k - i,
    {
        proof {
            pow2_facts();
            if (i as nat) < 126 {
                lemma_pow2_strictly_increases(i as nat, 126);
            }
        }
        r = r * 2;
        proof {
            assert(pow2((i + 1) as nat) == 2 * pow2(i as nat)) by {
                vstd::arithmetic::power2::lemma_pow2_unfold((i + 1) as nat);
            }
        }
        i = i + 1;
    }
    r
}

} // verus!
