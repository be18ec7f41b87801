//! The laws that tie the three operations together.
//!
//! For any region and any sequence of children meeting the subdivision
//! contract ([`Ncube::spec_child`], which [`Ncube::subdivide`] ensures of its
//! result):
//!
//! - a point contained in the parent is contained in exactly one child
//!   ([`lemma_partition_complete`]);
//! - off the center hyperplanes, that child is the one at the dispatch index
//!   ([`lemma_dispatch_aligned`]);
//! - the children's centers average back to the parent's center, axis by
//!   axis ([`lemma_children_centers_average`]).

use vstd::prelude::*;
use vstd::arithmetic::div_mod::{
    lemma_basic_div, lemma_hoist_over_denominator, lemma_mod_multiples_vanish, lemma_small_mod,
};
use vstd::arithmetic::power2::{
    lemma2_to64, lemma_pow2_adds, lemma_pow2_pos, lemma_pow2_unfold, pow2,
};
use crate::bits::{
    lemma_bits_inverse, lemma_from_bits_agrees, lemma_from_bits_bound, lemma_from_bits_ext, nbit,
};
use crate::dyadic::Dyadic;
use crate::ncube::{axis_inside, point_wf, Ncube};

verus! {

/// On one axis of a point contained in the parent, lying inside the child's
/// half-open slab is the same as matching the child's bit: strictly above
/// the parent center for an upper child, at or below it for a lower child.
proof fn lemma_child_axis(c: Ncube, child: Ncube, n: nat, p: Seq<Dyadic>, i: int)
    requires
        c.wf(),
        c.spec_child(child, n),
        point_wf(p, c.dim()),
        0 <= i < c.dim(),
        axis_inside(c.center@[i].val(), c.width.val(), p[i].val()),
    ensures
        axis_inside(child.center@[i].val(), child.width.val(), p[i].val()) == (nbit(n, i as nat)
            == (p[i].val() > c.center@[i].val())),
{
    let cv = c.center@[i].val();
    let w = c.width.val();
    let pv = p[i].val();
    let cc = child.center@[i].val();
    let cw = child.width.val();
    assert(2 * cw == w);
    if nbit(n, i as nat) {
        assert(4 * cc == 4 * cv + w);
        assert(axis_inside(cc, cw, pv) == (4 * cc - 2 * cw < 4 * pv <= 4 * cc + 2 * cw));
        assert(axis_inside(cc, cw, pv) == (4 * cv < 4 * pv <= 4 * cv + 2 * w));
    } else {
        assert(4 * cc == 4 * cv - w);
        assert(axis_inside(cc, cw, pv) == (4 * cc - 2 * cw < 4 * pv <= 4 * cc + 2 * cw));
        assert(axis_inside(cc, cw, pv) == (4 * cv - 2 * w < 4 * pv <= 4 * cv));
    }
}

/// A child contains a point contained in the parent exactly when every bit
/// of the child's index matches the point's side of the parent center on
/// that axis.
proof fn lemma_child_contains_iff(c: Ncube, child: Ncube, n: nat, p: Seq<Dyadic>)
    requires
        c.wf(),
        c.spec_child(child, n),
        point_wf(p, c.dim()),
        c.spec_contains(p),
    ensures
        child.spec_contains(p) <==> (forall|i: int| 0 <= i < c.dim() ==> #[trigger] nbit(
            n,
            i as nat,
        ) == (p[i].val() > c.center@[i].val())),
{
    if child.spec_contains(p) {
        assert forall|i: int| 0 <= i < c.dim() implies #[trigger] nbit(n, i as nat) == (p[i].val()
            > c.center@[i].val()) by {
            lemma_child_axis(c, child, n, p, i);
        }
    } else {
        let i = choose|i: int| 0 <= i < c.dim() && !axis_inside(
            child.center@[i].val(),
            child.width.val(),
            p[i].val(),
        );
        lemma_child_axis(c, child, n, p, i);
        assert(nbit(n, i as nat) != (p[i].val() > c.center@[i].val()));
    }
}

/// Partition completeness: a point contained in a region is contained in
/// exactly one child of any subdivision of that region, the child whose
/// index is [`Ncube::spec_owner`].
pub proof fn lemma_partition_complete(c: Ncube, children: Seq<Ncube>, p: Seq<Dyadic>)
    requires
        c.wf(),
        children.len() == pow2(c.dim()),
        forall|n: int| 0 <= n < children.len() ==> c.spec_child(#[trigger] children[n], n as nat),
        point_wf(p, c.dim()),
        c.spec_contains(p),
    ensures
        c.spec_owner(p) < children.len(),
        children[c.spec_owner(p) as int].spec_contains(p),
        forall|n: int| 0 <= n < children.len() && n != c.spec_owner(p) ==> !(
        #[trigger] children[n]).spec_contains(p),
{
    let d = c.dim();
    let ob = c.owner_bits(p);
    let o = c.spec_owner(p);
    lemma_from_bits_bound(ob, d);
    assert forall|i: int| 0 <= i < d implies #[trigger] nbit(o, i as nat) == (p[i].val()
        > c.center@[i].val()) by {
        lemma_from_bits_agrees(ob, d, i as nat);
    }
    lemma_child_contains_iff(c, children[o as int], o, p);
    assert(children[o as int].spec_contains(p));
    assert forall|n: int| 0 <= n < children.len() && n != o implies !(
    #[trigger] children[n]).spec_contains(p) by {
        if children[n].spec_contains(p) {
            lemma_child_contains_iff(c, children[n], n as nat, p);
            assert forall|i: int| 0 <= i < d implies #[trigger] ob(i) == nbit(
                n as nat,
                i as nat,
            ) by {
                assert(nbit(n as nat, i as nat) == (p[i].val() > c.center@[i].val()));
            }
            lemma_bits_inverse(n as nat, d, ob);
            assert(false);
        }
    }
}

/// Dispatch/subdivide alignment: for a contained point that lies on none of
/// the center hyperplanes, the child at the dispatch index is the unique
/// child containing the point.  (On a center hyperplane the dispatch bit is
/// 1 but the owning child is the lower one, so the indices differ there.)
pub proof fn lemma_dispatch_aligned(c: Ncube, children: Seq<Ncube>, p: Seq<Dyadic>)
    requires
        c.wf(),
        children.len() == pow2(c.dim()),
        forall|n: int| 0 <= n < children.len() ==> c.spec_child(#[trigger] children[n], n as nat),
        point_wf(p, c.dim()),
        c.spec_contains(p),
        forall|i: int| 0 <= i < c.dim() ==> (#[trigger] p[i]).val() != c.center@[i].val(),
    ensures
        c.spec_dispatch(p) == c.spec_owner(p),
        c.spec_dispatch(p) < children.len(),
        children[c.spec_dispatch(p) as int].spec_contains(p),
        forall|n: int| 0 <= n < children.len() && n != c.spec_dispatch(p) ==> !(
        #[trigger] children[n]).spec_contains(p),
{
    let ub = c.upper_bits(p);
    let ob = c.owner_bits(p);
    assert forall|i: int| 0 <= i < c.dim() implies #[trigger] ub(i) == ob(i) by {
        assert(p[i].val() != c.center@[i].val());
    }
    lemma_from_bits_ext(ub, ob, c.dim());
    lemma_partition_complete(c, children, p);
}

/// The sum of the scaled center coordinates of `children` on axis `i`.
pub open spec fn axis_center_sum(children: Seq<Ncube>, i: int) -> int
    decreases children.len(),
{
    if children.len() == 0 {
        0
    } else {
        axis_center_sum(children.drop_last(), i) + children.last().center@[i].val()
    }
}

/// The sum over `n < k` of `+1` where bit `i` of `n` is set and `-1` where
/// it is clear.
pub open spec fn sign_sum(k: nat, i: nat) -> int
    decreases k,
{
    if k == 0 {
        0
    } else {
        sign_sum((k - 1) as nat, i) + if nbit((k - 1) as nat, i) {
            1int
        } else {
            -1int
        }
    }
}

/// Numbers below `2^i` have bit `i` clear.
proof fn lemma_nbit_low(n: nat, i: nat)
    requires
        n < pow2(i),
    ensures
        !nbit(n, i),
{
    lemma_pow2_pos(i);
    lemma_basic_div(n as int, pow2(i) as int);
    lemma_small_mod(0, 2);
}

/// Adding `2^j` to a number below `2^j` sets bit `j`.
proof fn lemma_nbit_top(t: nat, j: nat)
    requires
        t < pow2(j),
    ensures
        nbit(pow2(j) + t, j),
{
    lemma_pow2_pos(j);
    lemma_basic_div(t as int, pow2(j) as int);
    lemma_hoist_over_denominator(t as int, 1, pow2(j));
    assert((pow2(j) + t) as int / pow2(j) as int == 1);
    lemma_small_mod(1, 2);
}

/// Adding `2^j` to a number leaves every bit below `j` unchanged.
proof fn lemma_nbit_shift(t: nat, j: nat, i: nat)
    requires
        i < j,
    ensures
        nbit(pow2(j) + t, i) == nbit(t, i),
{
    let pi = pow2(i);
    let mid = pow2((j - i - 1) as nat);
    lemma_pow2_pos(i);
    lemma_pow2_adds((j - i - 1) as nat, 1);
    lemma_pow2_adds((j - i) as nat, i);
    assert(pow2(j) == (2 * mid) * pi) by {
        lemma2_to64();
        assert(pow2((j - i) as nat) == mid * 2);
    }
    lemma_hoist_over_denominator(t as int, 2 * mid as int, pi);
    assert((t + pow2(j)) as int / pi as int == t as int / pi as int + 2 * mid);
    lemma_mod_multiples_vanish(mid as int, t as int / pi as int, 2);
}

/// Below `2^i` every number has bit `i` clear, so the sign sum is `-k`.
proof fn lemma_sign_sum_low(k: nat, i: nat)
    requires
        k <= pow2(i),
    ensures
        sign_sum(k, i) == -(k as int),
    decreases k,
{
    if k > 0 {
        lemma_sign_sum_low((k - 1) as nat, i);
        lemma_nbit_low((k - 1) as nat, i);
    }
}

/// For a bit `i` below `j`, the sign sum over a block starting at `2^j`
/// repeats the sign sum over the block starting at zero.
proof fn lemma_sign_sum_split(j: nat, k: nat, i: nat)
    requires
        i < j,
    ensures
        sign_sum((pow2(j) + k) as nat, i) == sign_sum(pow2(j), i) + sign_sum(k, i),
    decreases k,
{
    if k > 0 {
        lemma_sign_sum_split(j, (k - 1) as nat, i);
        lemma_nbit_shift((k - 1) as nat, j, i);
    }
}

/// From `2^j` to `2^j + k - 1` (with `k <= 2^j`), bit `j` is always set, so
/// the sign sum grows by `k` over that block.
proof fn lemma_sign_sum_top(j: nat, k: nat)
    requires
        k <= pow2(j),
    ensures
        sign_sum((pow2(j) + k) as nat, j) == sign_sum(pow2(j), j) + k,
    decreases k,
{
    if k > 0 {
        lemma_sign_sum_top(j, (k - 1) as nat);
        lemma_nbit_top((k - 1) as nat, j);
    }
}

/// Over all indices below `2^d`, each bit `i < d` is set exactly as often
/// as it is clear.
proof fn lemma_sign_sum_zero(d: nat, i: nat)
    requires
        i < d,
    ensures
        sign_sum(pow2(d), i) == 0,
    decreases d,
{
    let h = pow2((d - 1) as nat);
    lemma_pow2_unfold(d);
    assert(pow2(d) == h + h);
    if i == d - 1 {
        lemma_sign_sum_low(h, (d - 1) as nat);
        lemma_sign_sum_top((d - 1) as nat, h);
    } else {
        lemma_sign_sum_zero((d - 1) as nat, i);
        lemma_sign_sum_split((d - 1) as nat, h, i);
    }
}

/// Summing the child-center equation over the first `len` children: four
/// times the center sum is four times `len` parent centers plus the width
/// times the sign sum of the indices.
proof fn lemma_axis_sum_prefix(c: Ncube, children: Seq<Ncube>, i: int)
    requires
        c.wf(),
        0 <= i < c.dim(),
        forall|n: int| 0 <= n < children.len() ==> c.spec_child(#[trigger] children[n], n as nat),
    ensures
        4 * axis_center_sum(children, i) == 4 * children.len() * c.center@[i].val()
            + c.width.val() * sign_sum(children.len() as nat, i as nat),
    decreases children.len(),
{
    let cv = c.center@[i].val();
    let w = c.width.val();
    let len = children.len() as int;
    if children.len() == 0 {
        assert(4 * 0 * cv == 0) by (nonlinear_arith);
        assert(w * 0 == 0) by (nonlinear_arith);
    } else {
        let pre = children.drop_last();
        lemma_axis_sum_prefix(c, pre, i);
        let s = sign_sum((len - 1) as nat, i as nat);
        let b = if nbit((len - 1) as nat, i as nat) {
            1int
        } else {
            -1int
        };
        assert(sign_sum(len as nat, i as nat) == s + b);
        assert(4 * children.last().center@[i].val() == 4 * cv + b * w) by {
            assert(c.spec_child(children[len - 1], (len - 1) as nat));
            if b == 1 {
                assert(1 * w == w) by (nonlinear_arith);
            } else {
                assert((-1) * w == -w) by (nonlinear_arith);
            }
        }
        assert(4 * len * cv == 4 * (len - 1) * cv + 4 * cv) by (nonlinear_arith);
        assert(w * (s + b) == w * s + w * b) by (nonlinear_arith);
        assert(w * b == b * w) by (nonlinear_arith);
    }
}

/// The children's centers average back to the parent center: on every axis
/// the centers of the `2^N` children sum to `2^N` times the parent's center
/// (both sides scaled by four, so that they are integers).
pub proof fn lemma_children_centers_average(c: Ncube, children: Seq<Ncube>)
    requires
        c.wf(),
        children.len() == pow2(c.dim()),
        forall|n: int| 0 <= n < children.len() ==> c.spec_child(#[trigger] children[n], n as nat),
    ensures
        forall|i: int| 0 <= i < c.dim() ==> 4 * axis_center_sum(children, i) == 4 * children.len()
            * (#[trigger] c.center@[i]).val(),
{
    assert forall|i: int| 0 <= i < c.dim() implies 4 * axis_center_sum(children, i) == 4
        * children.len() * (#[trigger] c.center@[i]).val() by {
        lemma_axis_sum_prefix(c, children, i);
        lemma_sign_sum_zero(c.dim(), i as nat);
        assert(c.width.val() * 0 == 0) by (nonlinear_arith);
    }
}

} // verus!
