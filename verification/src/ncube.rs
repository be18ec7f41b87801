//! The hypercube region: a center point and a positive edge width, with the
//! containment test, the child-index dispatch and the subdivision into `2^N`
//! children.
//!
//! Scalars are dyadic rationals (see [`crate::dyadic`]); all contracts are
//! stated over their integer scaled values `val()`.  Containment is open at
//! each axis minimum and closed at each axis maximum, so two siblings never
//! both claim a point on their shared boundary.  To avoid dividing by two,
//! the per-axis condition `center - width/2 < p <= center + width/2` is
//! written doubled: `2*center - width < 2*p <= 2*center + width`.

use vstd::prelude::*;
use vstd::arithmetic::power2::{
    lemma_pow2_adds, lemma_pow2_pos, lemma_pow2_strictly_increases, lemma_pow2_unfold, pow2,
};
use vstd::pervasive::unreached;
use crate::bits::{from_bits, lemma_from_bits_bound, nbit, pow2_facts, pow2_u64};
use crate::dyadic::{sum_fits, Dyadic, EMAX};

verus! {

/// Why a region could not be constructed.
#[derive(Clone, Copy, Debug, PartialEq, Eq, Structural)]
pub enum NcubeError {
    /// The requested edge width was zero or negative.
    NonPositiveWidth,
}

/// An axis-aligned hypercube region: a center point and an edge width.
/// The dimension is the length of the center vector; the width is positive
/// for every region built through [`Ncube::new`].
#[derive(Clone, Debug)]
pub struct Ncube {
    /// The center point, one scalar per axis.
    pub center: Vec<Dyadic>,
    /// The edge length, common to all axes.
    pub width: Dyadic,
}

/// One axis of the containment test, over scaled values:
/// `c - w/2 < p <= c + w/2`, written without division.
pub open spec fn axis_inside(c: int, w: int, p: int) -> bool {
    2 * c - w < 2 * p <= 2 * c + w
}

/// A point matches a region of dimension `dim`: one representable scalar per
/// axis.
pub open spec fn point_wf(p: Seq<Dyadic>, dim: nat) -> bool {
    p.len() == dim && forall|i: int| 0 <= i < p.len() ==> (#[trigger] p[i]).wf()
}

impl Ncube {
    /// The dimension `N` of the space the region lives in.
    pub open spec fn dim(self) -> nat {
        self.center@.len()
    }

    /// The region is well formed: at least one axis, representable scalars,
    /// and a positive width.
    pub open spec fn wf(self) -> bool {
        &&& 1 <= self.center@.len()
        &&& self.width.wf()
        &&& self.width.val() > 0
        &&& forall|i: int| 0 <= i < self.center@.len() ==> (#[trigger] self.center@[i]).wf()
    }

    /// The point lies inside the region: on every axis it is above the open
    /// minimum and at most the closed maximum.
    pub open spec fn spec_contains(self, p: Seq<Dyadic>) -> bool {
        forall|i: int| 0 <= i < self.dim() ==> axis_inside(
            self.center@[i].val(),
            self.width.val(),
            (#[trigger] p[i]).val(),
        )
    }

    /// Bit `i` of the dispatch index: the point is at or above the center on
    /// axis `i`.
    pub open spec fn upper_bits(self, p: Seq<Dyadic>) -> spec_fn(int) -> bool {
        |i: int| p[i].val() >= self.center@[i].val()
    }

    /// The dispatch index: the little-endian integer whose bit `i` says the
    /// point is at or above the center on axis `i`.
    pub open spec fn spec_dispatch(self, p: Seq<Dyadic>) -> nat {
        from_bits(self.upper_bits(p), self.dim())
    }

    /// Bit `i` of the index of the child whose half-open box holds the
    /// point: the point is strictly above the center on axis `i`.  A point
    /// exactly on a center hyperplane belongs to the lower child there,
    /// because child boxes are open at their minimum.
    pub open spec fn owner_bits(self, p: Seq<Dyadic>) -> spec_fn(int) -> bool {
        |i: int| p[i].val() > self.center@[i].val()
    }

    /// The index of the unique child of this region whose box holds the
    /// point, for a contained point.
    pub open spec fn spec_owner(self, p: Seq<Dyadic>) -> nat {
        from_bits(self.owner_bits(p), self.dim())
    }

    /// The offset from the parent center to an upper child's center: a
    /// quarter width.
    pub open spec fn quarter_up(self) -> Dyadic {
        Dyadic { m: self.width.m, e: (self.width.e + 2) as u32 }
    }

    /// The offset from the parent center to a lower child's center: minus a
    /// quarter width.
    pub open spec fn quarter_down(self) -> Dyadic {
        Dyadic { m: (-(self.width.m as int)) as i64, e: (self.width.e + 2) as u32 }
    }

    /// The children of a subdivision are representable: the width has two
    /// exponent steps of room and every offset center mantissa fits.
    pub open spec fn spec_can_split(self) -> bool {
        &&& self.width.e + 2 <= EMAX
        &&& forall|i: int| 0 <= i < self.dim() ==> sum_fits(
            #[trigger] self.center@[i],
            self.quarter_up(),
        )
        &&& forall|i: int| 0 <= i < self.dim() ==> sum_fits(
            #[trigger] self.center@[i],
            self.quarter_down(),
        )
    }

    /// `child` is the `n`-th child of `self`: same dimension, half the
    /// width, and its center offset by a quarter width up or down on axis
    /// `i` according to bit `i` of `n`.  Stated over scaled values, with
    /// both sides scaled by 4 so they are integers.
    pub open spec fn spec_child(self, child: Ncube, n: nat) -> bool {
        &&& child.wf()
        &&& child.dim() == self.dim()
        &&& 2 * child.width.val() == self.width.val()
        &&& forall|i: int| 0 <= i < self.dim() ==> 4 * (#[trigger] child.center@[i]).val() == 4
            * self.center@[i].val() + (if nbit(n, i as nat) {
            self.width.val()
        } else {
            -self.width.val()
        })
    }

    /// Create a region from its center and width.  Fails exactly when the
    /// width is not strictly positive; any region this returns is well
    /// formed.
    pub fn new(center: Vec<Dyadic>, width: Dyadic) -> (r: Result<Ncube, NcubeError>)
        requires
            1 <= center@.len(),
            width.wf(),
            forall|i: int| 0 <= i < center@.len() ==> (#[trigger] center@[i]).wf(),
        ensures
            r is Ok <==> width.val() > 0,
            r matches Ok(c) ==> c == (Ncube { center, width }) && c.wf(),
            r matches Err(e) ==> e == NcubeError::NonPositiveWidth && width.val() <= 0,
    {
        proof {
            lemma_pow2_pos((EMAX - width.e) as nat);
            assert(width.m > 0 <==> width.val() > 0) by (nonlinear_arith)
                requires
                    width.val() == width.m * pow2((EMAX - width.e) as nat),
                    pow2((EMAX - width.e) as nat) > 0,
            ;
        }
        if width.m > 0 {
            Ok(Ncube { center, width })
        } else {
            Err(NcubeError::NonPositiveWidth)
        }
    }

    /// The edge width of the region.
    pub fn width(&self) -> (r: Dyadic)
        ensures
            r == self.width,
    {
        self.width
    }

    /// A copy of the center point.
    pub fn center(&self) -> (r: Vec<Dyadic>)
        ensures
            r@ == self.center@,
    {
        let mut out: Vec<Dyadic> = Vec::new();
        let mut i: usize = 0;
        while i < self.center.len()
            invariant
                i <= self.center@.len(),
                out@ == self.center@.subrange(0, i as int),
            decreases self.center@.len() - i,
        {
            out.push(self.center[i]);
            proof {
                assert(out@ =~= self.center@.subrange(0, i + 1 as int));
            }
            i = i + 1;
        }
        proof {
            assert(out@ =~= self.center@);
        }
        out
    }

    /// Containment test: true exactly when, on every axis, the point is
    /// strictly above `center - width/2` and at most `center + width/2`.
    pub fn contains(&self, p: &Vec<Dyadic>) -> (r: bool)
        requires
            self.wf(),
            point_wf(p@, self.dim()),
        ensures
            r == self.spec_contains(p@),
    {
        proof {
            pow2_facts();
        }
        let w = self.width.scaled();
        let mut i: usize = 0;
        while i < self.center.len()
            invariant
                self.wf(),
                point_wf(p@, self.dim()),
                w == self.width.val(),
                -pow2(123) <= w <= pow2(123),
                pow2(123) == 0x800_0000_0000_0000_0000_0000_0000_0000,
                i <= self.center@.len(),
                forall|j: int| 0 <= j < i ==> axis_inside(
                    self.center@[j].val(),
                    self.width.val(),
                    (#[trigger] p@[j]).val(),
                ),
            decreases self.center@.len() - i,
        {
            let c = self.center[i].scaled();
            let x = p[i].scaled();
            if !(2 * c - w < 2 * x && 2 * x <= 2 * c + w) {
                return false;
            }
            i = i + 1;
        }
        true
    }

    /// The index of the child sub-region that would own the point: bit `i`
    /// is set exactly when the point is at or above the center on axis `i`.
    /// Usable whether or not the point is contained and whether or not the
    /// region has been subdivided.
    pub fn dispatch(&self, p: &Vec<Dyadic>) -> (r: usize)
        requires
            self.wf(),
            point_wf(p@, self.dim()),
            pow2(self.dim()) <= usize::MAX,
        ensures
            r == self.spec_dispatch(p@),
            r < pow2(self.dim()),
    {
        let ghost f = self.upper_bits(p@);
        proof {
            lemma_dim_bounded(*self);
            pow2_facts();
        }
        let dim = self.center.len();
        let mut acc: u64 = 0;
        let mut mask: u64 = 1;
        let mut k: usize = 0;
        while k < dim
            invariant
                self.wf(),
                point_wf(p@, self.dim()),
                dim == self.dim(),
                self.dim() <= 63,
                k <= dim,
                mask == pow2(k as nat),
                acc == from_bits(f, k as nat),
                f == self.upper_bits(p@),
            decreases dim - k,
        {
            proof {
                pow2_facts();
                lemma_from_bits_bound(f, k as nat);
                if (k as nat) + 1 < 63 {
                    lemma_pow2_strictly_increases((k + 1) as nat, 63);
                }
                lemma_pow2_unfold((k + 1) as nat);
            }
            let upper = !p[k].value_lt(&self.center[k]);
            if upper {
                acc = acc + mask;
            }
            mask = mask * 2;
            k = k + 1;
        }
        proof {
            lemma_from_bits_bound(f, dim as nat);
        }
        acc as usize
    }

    /// Whether the region can be subdivided within the scalar
    /// representation: the width has exponent room for halving twice and
    /// every offset center fits.  This is the machine-representability
    /// guard for [`Ncube::subdivide`]; geometrically every region can be
    /// subdivided.
    pub fn can_subdivide(&self) -> (r: bool)
        requires
            self.wf(),
        ensures
            r == self.spec_can_split(),
    {
        if self.width.e + 2 > EMAX {
            return false;
        }
        proof {
            lemma_quarter_vals(*self);
        }
        let q_up = Dyadic { m: self.width.m, e: self.width.e + 2 };
        let q_down = Dyadic { m: -self.width.m, e: self.width.e + 2 };
        let mut i: usize = 0;
        while i < self.center.len()
            invariant
                self.wf(),
                self.width.e + 2 <= EMAX,
                q_up == self.quarter_up(),
                q_down == self.quarter_down(),
                i <= self.center@.len(),
                forall|j: int| 0 <= j < i ==> sum_fits(#[trigger] self.center@[j], self.quarter_up()),
                forall|j: int| 0 <= j < i ==> sum_fits(
                    #[trigger] self.center@[j],
                    self.quarter_down(),
                ),
            decreases self.center@.len() - i,
        {
            if self.center[i].checked_add(&q_up).is_none() {
                return false;
            }
            if self.center[i].checked_add(&q_down).is_none() {
                return false;
            }
            i = i + 1;
        }
        true
    }

    /// Subdivide the region into its `2^N` children, ordered so that the
    /// child at index `n` is the one [`Ncube::dispatch`] points at for
    /// points strictly inside it: half the parent width, centered a quarter
    /// width up or down on each axis according to the bits of `n`.
    pub fn subdivide(&self) -> (r: Vec<Ncube>)
        requires
            self.wf(),
            self.spec_can_split(),
            pow2(self.dim()) <= usize::MAX,
        ensures
            r@.len() == pow2(self.dim()),
            forall|n: int| 0 <= n < r@.len() ==> self.spec_child(#[trigger] r@[n], n as nat),
    {
        proof {
            lemma_dim_bounded(*self);
            lemma_quarter_vals(*self);
            lemma_half_width(*self);
        }
        let dim = self.center.len();
        let count = pow2_u64(dim as u32) as usize;
        let q_up = Dyadic { m: self.width.m, e: self.width.e + 2 };
        let q_down = Dyadic { m: -self.width.m, e: self.width.e + 2 };
        let half_width = Dyadic { m: self.width.m, e: self.width.e + 1 };
        let mut out: Vec<Ncube> = Vec::new();
        let mut n: usize = 0;
        while n < count
            invariant
                self.wf(),
                self.spec_can_split(),
                self.dim() <= 63,
                dim == self.dim(),
                count == pow2(self.dim()),
                count <= usize::MAX,
                q_up == self.quarter_up(),
                q_down == self.quarter_down(),
                4 * self.quarter_up().val() == self.width.val(),
                4 * self.quarter_down().val() == -self.width.val(),
                half_width.wf(),
                half_width.val() > 0,
                2 * half_width.val() == self.width.val(),
                n <= count,
                out@.len() == n,
                forall|m: int| 0 <= m < n ==> self.spec_child(#[trigger] out@[m], m as nat),
            decreases count - n,
        {
            proof {
                pow2_facts();
            }
            let mut cc: Vec<Dyadic> = Vec::new();
            let mut mask: u64 = 1;
            let mut i: usize = 0;
            while i < dim
                invariant
                    self.wf(),
                    self.spec_can_split(),
                    self.dim() <= 63,
                    dim == self.dim(),
                    q_up == self.quarter_up(),
                    q_down == self.quarter_down(),
                    4 * self.quarter_up().val() == self.width.val(),
                    4 * self.quarter_down().val() == -self.width.val(),
                    n <= usize::MAX,
                    i <= dim,
                    mask == pow2(i as nat),
                    cc@.len() == i,
                    forall|j: int| 0 <= j < i ==> (#[trigger] cc@[j]).wf(),
                    forall|j: int| 0 <= j < i ==> 4 * (#[trigger] cc@[j]).val() == 4
                        * self.center@[j].val() + (if nbit(n as nat, j as nat) {
                        self.width.val()
                    } else {
                        -self.width.val()
                    }),
                decreases dim - i,
            {
                proof {
                    pow2_facts();
                    lemma_pow2_pos(i as nat);
                    if (i as nat) + 1 < 63 {
                        lemma_pow2_strictly_increases((i + 1) as nat, 63);
                    }
                    lemma_pow2_unfold((i + 1) as nat);
                }
                let bit = ((n as u64) / mask) % 2 == 1;
                proof {
                    assert(bit == nbit(n as nat, i as nat));
                }
                let q = if bit {
                    q_up
                } else {
                    q_down
                };
                let added = self.center[i].checked_add(&q);
                let ci = match added {
                    Some(d) => d,
                    None => unreached(),
                };
                cc.push(ci);
                mask = mask * 2;
                i = i + 1;
            }
            let child = Ncube { center: cc, width: half_width };
            proof {
                assert(self.spec_child(child, n as nat));
            }
            out.push(child);
            n = n + 1;
        }
        out
    }
}

/// A region whose child count fits the index type has dimension at most 63.
proof fn lemma_dim_bounded(c: Ncube)
    requires
        pow2(c.dim()) <= usize::MAX,
    ensures
        c.dim() <= 63,
{
    pow2_facts();
    if c.dim() > 64 {
        lemma_pow2_strictly_increases(64, c.dim());
    }
    assert(usize::MAX <= u64::MAX);
}

/// The quarter-width offsets of a splittable region: representable, and
/// worth exactly a quarter of the width, up and down.
proof fn lemma_quarter_vals(c: Ncube)
    requires
        c.wf(),
        c.width.e + 2 <= EMAX,
    ensures
        c.width.m > 0,
        c.quarter_up().wf(),
        c.quarter_down().wf(),
        4 * c.quarter_up().val() == c.width.val(),
        4 * c.quarter_down().val() == -c.width.val(),
        c.quarter_up() == (Dyadic { m: c.width.m, e: (c.width.e + 2) as u32 }),
        c.quarter_down() == (Dyadic { m: (-(c.width.m as int)) as i64, e: (c.width.e + 2) as u32 }),
{
    let p = pow2((EMAX - c.width.e - 2) as nat);
    lemma_pow2_pos((EMAX - c.width.e) as nat);
    lemma_pow2_pos((EMAX - c.width.e - 2) as nat);
    assert(c.width.m > 0) by (nonlinear_arith)
        requires
            c.width.m * pow2((EMAX - c.width.e) as nat) > 0,
            pow2((EMAX - c.width.e) as nat) > 0,
    ;
    lemma_pow2_adds(2, (EMAX - c.width.e - 2) as nat);
    assert(pow2(2) == 4) by {
        pow2_facts();
    }
    assert(pow2((EMAX - c.width.e) as nat) == 4 * p);
    assert(4 * (c.width.m * p) == c.width.m * (4 * p)) by (nonlinear_arith);
    assert(4 * ((-c.width.m) * p) == -(c.width.m * (4 * p))) by (nonlinear_arith);
}

/// Halving the width exponent-wise halves its value and keeps it positive.
proof fn lemma_half_width(c: Ncube)
    requires
        c.wf(),
        c.width.e + 2 <= EMAX,
    ensures
        c.width.m > 0,
        (Dyadic { m: c.width.m, e: (c.width.e + 1) as u32 }).wf(),
        2 * (Dyadic { m: c.width.m, e: (c.width.e + 1) as u32 }).val() == c.width.val(),
        (Dyadic { m: c.width.m, e: (c.width.e + 1) as u32 }).val() > 0,
{
    let p = pow2((EMAX - c.width.e - 1) as nat);
    lemma_pow2_pos((EMAX - c.width.e) as nat);
    lemma_pow2_pos((EMAX - c.width.e - 1) as nat);
    assert(c.width.m > 0) by (nonlinear_arith)
        requires
            c.width.m * pow2((EMAX - c.width.e) as nat) > 0,
            pow2((EMAX - c.width.e) as nat) > 0,
    ;
    lemma_pow2_unfold((EMAX - c.width.e) as nat);
    assert(pow2((EMAX - c.width.e) as nat) == 2 * p);
    assert(2 * (c.width.m * p) == c.width.m * (2 * p)) by (nonlinear_arith);
    assert(c.width.m * p > 0) by (nonlinear_arith)
        requires
            c.width.m > 0,
            p > 0,
    ;
}

} // verus!

