//! The geometric laws of the layout.
//!
//! These proof functions state, over the mathematical layout
//! [`layout_at_math`] that the engine's contract pins its output to, what
//! the layout guarantees: the output rectangles tile the bounds exactly
//! (their areas sum to the bounds area and none has a negative side), each
//! row divides its strip in exact proportion to the item sizes, a single
//! item fills the bounds, and the layout is a function of its input.

use vstd::prelude::*;
use crate::item::Mappable;
use crate::sort::{sizes_of, all_inv, sort_spec, lemma_sort_spec_correct, lemma_elems_from_multiset};
use crate::rat::{
    Rat, rat_wf, rat_zero, rat_one, rat_add, rat_sub, rat_mul, rat_div, rat_le, rat_lt, rat_eqv,
    lemma_rat_eqv_trans, lemma_rat_add_congruence, lemma_rat_mul_congruence, lemma_rat_add_assoc,
    lemma_rat_add_comm, lemma_rat_mul_assoc, lemma_rat_mul_comm, lemma_rat_div_add_distrib,
    lemma_rat_div_self, lemma_rat_mul_distrib, lemma_rat_mul_one, lemma_rat_le_trans,
    lemma_rat_lt_le_trans, lemma_rat_le_eqv, lemma_rat_add_mono, lemma_rat_div_nonneg,
    lemma_rat_add_pos,
};
use crate::rect::{RectV, rect_wf};
use crate::layout::{
    layout_at_math, row_math, row_slice, row_acc, rat_sum, zero_rect, grow_row, norm_aspect_math,
    aspect_math, all_rats_wf, all_rats_nonneg, lemma_rat_sum_wf, lemma_rat_sum_nonneg,
    lemma_rat_sum_zero, lemma_first_pos, lemma_grow_row_range, lemma_layout_at_math_len,
};

verus! {

/// Laying out one item of positive size into `bounds` yields the bounds
/// themselves: the single row consists of one slice with share one.
pub proof fn lemma_single_item(s: Rat, b: RectV)
    requires
        rat_wf(s),
        rat_lt(rat_zero(), s),
        rect_wf(b),
    ensures
        layout_at_math(seq![s], b).len() == 1,
        rat_eqv(layout_at_math(seq![s], b)[0].x, b.x),
        rat_eqv(layout_at_math(seq![s], b)[0].y, b.y),
        rat_eqv(layout_at_math(seq![s], b)[0].w, b.w),
        rat_eqv(layout_at_math(seq![s], b)[0].h, b.h),
{
    let sizes = seq![s];
    let total = rat_sum(sizes);
    assert(sizes.len() == 1);
    assert(sizes.last() == s);
    assert(sizes.drop_last() =~= Seq::<Rat>::empty());
    assert(rat_sum(sizes.drop_last()) == rat_zero());
    assert(total == rat_add(rat_zero(), s));
    assert(total.n == s.n && total.d == s.d) by (nonlinear_arith)
        requires
            total == rat_add(rat_zero(), s),
    ;
    assert(total.n > 0);
    let q = rat_div(s, total);
    assert(q.n == s.n * s.d && q.d == s.d * s.n);
    let r = layout_at_math(sizes, b)[0];
    assert(r == row_math(sizes, b)[0]);
    assert(row_acc(sizes, total, 0) == rat_zero());
    // The offset share is zero and the slice share is s / s, so each
    // coordinate of the slice is cross-multiplication equal to the
    // corresponding coordinate of the bounds.
    if rat_lt(b.h, b.w) {
        assert(r.x == rat_add(b.x, rat_mul(b.w, rat_zero())) && r.y == b.y && r.w == rat_mul(
            b.w,
            q,
        ) && r.h == b.h);
        assert(rat_eqv(rat_add(b.x, rat_mul(b.w, rat_zero())), b.x)) by (nonlinear_arith)
            requires
                rat_wf(b.x),
                rat_wf(b.w),
        ;
        assert(rat_eqv(rat_mul(b.w, q), b.w)) by (nonlinear_arith)
            requires
                rat_wf(b.w),
                q.n == s.n * s.d,
                q.d == s.d * s.n,
        ;
    } else {
        assert(r.x == b.x && r.y == rat_add(b.y, rat_mul(b.h, rat_zero())) && r.w == b.w && r.h
            == rat_mul(b.h, q));
        assert(rat_eqv(rat_add(b.y, rat_mul(b.h, rat_zero())), b.y)) by (nonlinear_arith)
            requires
                rat_wf(b.y),
                rat_wf(b.h),
        ;
        assert(rat_eqv(rat_mul(b.h, q), b.h)) by (nonlinear_arith)
            requires
                rat_wf(b.h),
                q.n == s.n * s.d,
                q.d == s.d * s.n,
        ;
    }
}

/// The layout is deterministic: it is a function of the size sequence and
/// the bounds alone, with no other state. Together with the engine's
/// contract — the items end in the stable descending order `sort_spec` and
/// each bounds equals the corresponding `layout_at_math` rectangle — equal
/// inputs (ties included) always receive equal bounds.
pub proof fn lemma_layout_deterministic(s1: Seq<Rat>, s2: Seq<Rat>, b1: RectV, b2: RectV)
    requires
        s1 == s2,
        b1 == b2,
    ensures
        layout_at_math(s1, b1) == layout_at_math(s2, b2),
{
}

/// The areas of a sequence of rectangle values.
pub open spec fn areas(rs: Seq<RectV>) -> Seq<Rat> {
    rs.map_values(|r: RectV| rat_mul(r.w, r.h))
}

/// A sequence of rationals in non-increasing order.
pub open spec fn sorted_rats(s: Seq<Rat>) -> bool {
    forall|i: int, j: int| 0 <= i <= j < s.len() ==> rat_le(#[trigger] s[j], #[trigger] s[i])
}

/// A sum of non-negative rationals with a zero numerator has only
/// zero-valued elements.
pub proof fn lemma_rat_sum_zero_rev(s: Seq<Rat>)
    requires
        all_rats_wf(s),
        all_rats_nonneg(s),
        rat_sum(s).n == 0,
    ensures
        forall|k: int| 0 <= k < s.len() ==> (#[trigger] s[k]).n == 0,
    decreases s.len(),
{
    if s.len() == 0 {
    } else {
        let d = s.drop_last();
        let x = s.last();
        lemma_rat_sum_wf(d);
        lemma_rat_sum_nonneg(d);
        assert(rat_sum(d).n >= 0 && x.n >= 0);
        assert(rat_sum(s) == rat_add(rat_sum(d), x));
        assert(rat_sum(d).n == 0 && x.n == 0) by (nonlinear_arith)
            requires
                rat_sum(d).n * x.d + x.n * rat_sum(d).d == 0,
                rat_sum(d).n >= 0,
                x.n >= 0,
                rat_sum(d).d > 0,
                x.d > 0,
        ;
        lemma_rat_sum_zero_rev(d);
        assert forall|k: int| 0 <= k < s.len() implies (#[trigger] s[k]).n == 0 by {
            if k < s.len() - 1 {
                assert(s[k] == d[k]);
            }
        }
    }
}

/// Each element of a non-negative sequence is at most the sum.
pub proof fn lemma_rat_sum_elem(s: Seq<Rat>, k: int)
    requires
        all_rats_wf(s),
        all_rats_nonneg(s),
        0 <= k < s.len(),
    ensures
        rat_le(s[k], rat_sum(s)),
    decreases s.len(),
{
    let d = s.drop_last();
    let x = s.last();
    lemma_rat_sum_wf(d);
    lemma_rat_sum_nonneg(d);
    if k < s.len() - 1 {
        lemma_rat_sum_elem(d, k);
        lemma_rat_add_mono(s[k], rat_sum(d), x);
    } else {
        assert(rat_le(rat_add(rat_zero(), x), rat_add(rat_sum(d), x))) by (nonlinear_arith)
            requires
                rat_wf(x),
                rat_wf(rat_sum(d)),
                rat_le(rat_zero(), rat_sum(d)),
        ;
        assert(rat_le(x, rat_add(rat_zero(), x))) by (nonlinear_arith)
            requires
                rat_wf(x),
        ;
        assert(rat_wf(rat_add(rat_zero(), x)) && rat_wf(rat_add(rat_sum(d), x)))
            by (nonlinear_arith)
            requires
                rat_wf(x),
                rat_wf(rat_sum(d)),
        ;
        lemma_rat_le_trans(x, rat_add(rat_zero(), x), rat_add(rat_sum(d), x));
    }
}

/// Sums split over concatenation.
pub proof fn lemma_rat_sum_append(x: Seq<Rat>, y: Seq<Rat>)
    requires
        all_rats_wf(x),
        all_rats_wf(y),
    ensures
        rat_eqv(rat_sum(x + y), rat_add(rat_sum(x), rat_sum(y))),
        rat_wf(rat_sum(x + y)),
        rat_wf(rat_add(rat_sum(x), rat_sum(y))),
    decreases y.len(),
{
    lemma_rat_sum_wf(x);
    lemma_rat_sum_wf(y);
    assert forall|k: int| 0 <= k < (x + y).len() implies rat_wf(#[trigger] (x + y)[k]) by {
        if k < x.len() {
            assert((x + y)[k] == x[k]);
        } else {
            assert((x + y)[k] == y[k - x.len()]);
        }
    }
    lemma_rat_sum_wf(x + y);
    if y.len() == 0 {
        assert(x + y =~= x);
        assert(rat_add(rat_sum(x), rat_zero()).n == rat_sum(x).n && rat_add(
            rat_sum(x),
            rat_zero(),
        ).d == rat_sum(x).d) by (nonlinear_arith);
        assert(rat_eqv(rat_sum(x + y), rat_add(rat_sum(x), rat_sum(y)))) by (nonlinear_arith)
            requires
                rat_sum(x + y) == rat_sum(x),
                rat_add(rat_sum(x), rat_sum(y)) == rat_sum(x),
        ;
    } else {
        let yd = y.drop_last();
        assert forall|k: int| 0 <= k < yd.len() implies rat_wf(#[trigger] yd[k]) by {
            assert(yd[k] == y[k]);
        }
        lemma_rat_sum_append(x, yd);
        lemma_rat_sum_wf(yd);
        assert((x + y).drop_last() =~= x + yd);
        assert((x + y).last() == y.last());
        assert(rat_sum(x + y) == rat_add(rat_sum(x + yd), y.last()));
        // sum(x + yd) is value-equal to sum(x) + sum(yd); add the last element
        // and re-associate.
        lemma_rat_add_congruence(
            rat_sum(x + yd),
            rat_add(rat_sum(x), rat_sum(yd)),
            y.last(),
            y.last(),
        );
        lemma_rat_add_assoc(rat_sum(x), rat_sum(yd), y.last());
        assert(rat_sum(y) == rat_add(rat_sum(yd), y.last()));
        lemma_rat_eqv_trans(
            rat_sum(x + y),
            rat_add(rat_add(rat_sum(x), rat_sum(yd)), y.last()),
            rat_add(rat_sum(x), rat_sum(y)),
        );
    }
}

/// Dividing each element by a positive rational divides the sum.
pub proof fn lemma_rat_sum_div(s: Seq<Rat>, t: Rat)
    requires
        all_rats_wf(s),
        rat_wf(t),
        rat_lt(rat_zero(), t),
    ensures
        rat_eqv(
            rat_sum(s.map_values(|v: Rat| rat_div(v, t))),
            rat_div(rat_sum(s), t),
        ),
        all_rats_wf(s.map_values(|v: Rat| rat_div(v, t))),
        rat_wf(rat_div(rat_sum(s), t)),
    decreases s.len(),
{
    let qs = s.map_values(|v: Rat| rat_div(v, t));
    lemma_rat_sum_wf(s);
    assert forall|k: int| 0 <= k < qs.len() implies rat_wf(#[trigger] qs[k]) by {
        assert(qs[k] == rat_div(s[k], t));
        assert(rat_wf(rat_div(s[k], t))) by (nonlinear_arith)
            requires
                rat_wf(s[k]),
                t.n > 0,
        ;
    }
    assert(rat_wf(rat_div(rat_sum(s), t))) by (nonlinear_arith)
        requires
            rat_wf(rat_sum(s)),
            t.n > 0,
    ;
    if s.len() == 0 {
        assert(qs.len() == 0);
        assert(rat_eqv(rat_zero(), rat_div(rat_zero(), t))) by (nonlinear_arith)
            requires
                t.n > 0,
                t.d > 0,
        ;
    } else {
        let d = s.drop_last();
        assert forall|k: int| 0 <= k < d.len() implies rat_wf(#[trigger] d[k]) by {
            assert(d[k] == s[k]);
        }
        lemma_rat_sum_div(d, t);
        lemma_rat_sum_wf(d);
        let qd = d.map_values(|v: Rat| rat_div(v, t));
        assert(qs.drop_last() =~= qd);
        assert(qs.last() == rat_div(s.last(), t));
        assert(rat_sum(qs) == rat_add(rat_sum(qd), rat_div(s.last(), t)));
        lemma_rat_sum_wf(qd);
        assert(rat_wf(rat_div(s.last(), t)) && rat_wf(rat_div(rat_sum(d), t)))
            by (nonlinear_arith)
            requires
                rat_wf(s.last()),
                rat_wf(rat_sum(d)),
                t.n > 0,
        ;
        lemma_rat_add_congruence(
            rat_sum(qd),
            rat_div(rat_sum(d), t),
            rat_div(s.last(), t),
            rat_div(s.last(), t),
        );
        lemma_rat_div_add_distrib(rat_sum(d), s.last(), t);
        assert(rat_sum(s) == rat_add(rat_sum(d), s.last()));
        lemma_rat_eqv_trans(
            rat_sum(qs),
            rat_add(rat_div(rat_sum(d), t), rat_div(s.last(), t)),
            rat_div(rat_sum(s), t),
        );
    }
}

/// A common factor moves out of a sum.
pub proof fn lemma_rat_sum_factor(c: Rat, qs: Seq<Rat>)
    requires
        rat_wf(c),
        all_rats_wf(qs),
    ensures
        rat_eqv(
            rat_sum(qs.map_values(|q: Rat| rat_mul(c, q))),
            rat_mul(c, rat_sum(qs)),
        ),
        all_rats_wf(qs.map_values(|q: Rat| rat_mul(c, q))),
        rat_wf(rat_mul(c, rat_sum(qs))),
    decreases qs.len(),
{
    let ms = qs.map_values(|q: Rat| rat_mul(c, q));
    lemma_rat_sum_wf(qs);
    assert forall|k: int| 0 <= k < ms.len() implies rat_wf(#[trigger] ms[k]) by {
        assert(ms[k] == rat_mul(c, qs[k]));
        assert(rat_wf(rat_mul(c, qs[k]))) by (nonlinear_arith)
            requires
                rat_wf(c),
                rat_wf(qs[k]),
        ;
    }
    assert(rat_wf(rat_mul(c, rat_sum(qs)))) by (nonlinear_arith)
        requires
            rat_wf(c),
            rat_wf(rat_sum(qs)),
    ;
    if qs.len() == 0 {
        assert(ms.len() == 0);
        assert(rat_eqv(rat_zero(), rat_mul(c, rat_zero()))) by (nonlinear_arith)
            requires
                rat_wf(c),
        ;
    } else {
        let d = qs.drop_last();
        assert forall|k: int| 0 <= k < d.len() implies rat_wf(#[trigger] d[k]) by {
            assert(d[k] == qs[k]);
        }
        lemma_rat_sum_factor(c, d);
        lemma_rat_sum_wf(d);
        let md = d.map_values(|q: Rat| rat_mul(c, q));
        assert(ms.drop_last() =~= md);
        assert(ms.last() == rat_mul(c, qs.last()));
        assert(rat_sum(ms) == rat_add(rat_sum(md), rat_mul(c, qs.last())));
        lemma_rat_sum_wf(md);
        assert(rat_wf(rat_mul(c, qs.last())) && rat_wf(rat_mul(c, rat_sum(d))))
            by (nonlinear_arith)
            requires
                rat_wf(c),
                rat_wf(qs.last()),
                rat_wf(rat_sum(d)),
        ;
        lemma_rat_add_congruence(
            rat_sum(md),
            rat_mul(c, rat_sum(d)),
            rat_mul(c, qs.last()),
            rat_mul(c, qs.last()),
        );
        lemma_rat_mul_distrib(c, rat_sum(d), qs.last());
        assert(rat_sum(qs) == rat_add(rat_sum(d), qs.last()));
        lemma_rat_eqv_trans(
            rat_sum(ms),
            rat_add(rat_mul(c, rat_sum(d)), rat_mul(c, qs.last())),
            rat_mul(c, rat_sum(qs)),
        );
    }
}

/// Rearrangement: a share multiplies the area whether it scales the width
/// or the height.
pub proof fn lemma_wh_factor(bw: Rat, bh: Rat, f: Rat)
    ensures
        rat_mul(rat_mul(bw, f), bh) == rat_mul(rat_mul(bw, bh), f),
        rat_mul(bw, rat_mul(bh, f)) == rat_mul(rat_mul(bw, bh), f),
{
    lemma_rat_mul_assoc(bw, f, bh);
    lemma_rat_mul_comm(f, bh);
    lemma_rat_mul_assoc(bw, bh, f);
    assert(rat_mul(bw, rat_mul(f, bh)) == rat_mul(bw, rat_mul(bh, f)));
}

/// The area of each row slice is the bounds area times the item's share of
/// the row total, representation included.
pub proof fn lemma_row_area_pointwise(sizes: Seq<Rat>, b: RectV, i: int)
    requires
        rat_sum(sizes).n != 0,
        0 <= i < sizes.len(),
    ensures
        areas(row_math(sizes, b)).len() == sizes.len(),
        areas(row_math(sizes, b))[i] == rat_mul(
            rat_mul(b.w, b.h),
            rat_div(sizes[i], rat_sum(sizes)),
        ),
{
    let total = rat_sum(sizes);
    let q = rat_div(sizes[i], total);
    let r = row_math(sizes, b)[i];
    if rat_lt(b.h, b.w) {
        assert(r.w == rat_mul(b.w, q) && r.h == b.h);
        lemma_wh_factor(b.w, b.h, q);
    } else {
        assert(r.w == b.w && r.h == rat_mul(b.h, q));
        lemma_wh_factor(b.w, b.h, q);
    }
}

/// A row tiles its bounds: the slice areas sum to the bounds area. A row
/// with zero total size receives zero total area instead.
pub proof fn lemma_row_area_sum(sizes: Seq<Rat>, b: RectV)
    requires
        all_rats_wf(sizes),
        all_rats_nonneg(sizes),
        rect_wf(b),
    ensures
        rat_sum(sizes).n != 0 ==> rat_eqv(rat_sum(areas(row_math(sizes, b))), rat_mul(b.w, b.h)),
        rat_sum(sizes).n == 0 ==> rat_eqv(rat_sum(areas(row_math(sizes, b))), rat_zero()),
        all_rats_wf(areas(row_math(sizes, b))),
        rat_wf(rat_sum(areas(row_math(sizes, b)))),
{
    let total = rat_sum(sizes);
    let rs = row_math(sizes, b);
    lemma_rat_sum_nonneg(sizes);
    let c = rat_mul(b.w, b.h);
    assert(rat_wf(c)) by (nonlinear_arith)
        requires
            rat_wf(b.w),
            rat_wf(b.h),
            c == rat_mul(b.w, b.h),
    ;
    if total.n == 0 {
        assert forall|k: int| 0 <= k < areas(rs).len() implies (#[trigger] areas(rs)[k]).n
            == 0 by {
            assert(areas(rs)[k] == rat_mul(rat_zero(), rat_zero()));
        }
        lemma_rat_sum_zero(areas(rs));
        assert forall|k: int| 0 <= k < areas(rs).len() implies rat_wf(#[trigger] areas(rs)[k]) by {
            assert(areas(rs)[k] == rat_mul(rat_zero(), rat_zero()));
        }
        lemma_rat_sum_wf(areas(rs));
    } else {
        assert(rat_lt(rat_zero(), total));
        let qs = sizes.map_values(|v: Rat| rat_div(v, total));
        lemma_rat_sum_div(sizes, total);
        let ms = qs.map_values(|q: Rat| rat_mul(c, q));
        assert forall|k: int| 0 <= k < areas(rs).len() implies #[trigger] areas(rs)[k]
            == ms[k] by {
            lemma_row_area_pointwise(sizes, b, k);
            assert(ms[k] == rat_mul(c, qs[k]));
            assert(qs[k] == rat_div(sizes[k], total));
        }
        assert(areas(rs) =~= ms);
        lemma_rat_sum_factor(c, qs);
        lemma_rat_sum_wf(qs);
        lemma_rat_div_self(total);
        // sum(areas) == sum(ms) ~ c * sum(qs) ~ c * (total / total) ~ c * 1 == c
        lemma_rat_mul_congruence(c, c, rat_sum(qs), rat_div(total, total));
        lemma_rat_mul_congruence(c, c, rat_div(total, total), rat_one());
        lemma_rat_mul_one(c);
        assert(rat_wf(rat_mul(c, rat_sum(qs)))) by (nonlinear_arith)
            requires
                rat_wf(c),
                rat_wf(rat_sum(qs)),
        ;
        assert(rat_wf(rat_mul(c, rat_div(total, total)))) by (nonlinear_arith)
            requires
                rat_wf(c),
                rat_wf(rat_div(total, total)),
        ;
        lemma_rat_sum_wf(ms);
        lemma_rat_eqv_trans(rat_sum(ms), rat_mul(c, rat_sum(qs)), rat_mul(c, rat_div(total, total)));
        lemma_rat_eqv_trans(rat_sum(ms), rat_mul(c, rat_div(total, total)), c);
        assert(all_rats_wf(areas(rs)));
    }
}

/// A partition step splits the bounds area exactly: the row rectangle and
/// the residual rectangle of share `f` and `1 - f` have areas summing to the
/// bounds area.
pub proof fn lemma_split_areas(b: RectV, f: Rat)
    requires
        rect_wf(b),
        rat_wf(f),
    ensures
        rat_eqv(
            rat_add(
                rat_mul(rat_mul(b.w, b.h), f),
                rat_mul(rat_mul(b.w, b.h), rat_sub(rat_one(), f)),
            ),
            rat_mul(b.w, b.h),
        ),
{
    let c = rat_mul(b.w, b.h);
    let g = rat_sub(rat_one(), f);
    assert(rat_wf(c)) by (nonlinear_arith)
        requires
            rat_wf(b.w),
            rat_wf(b.h),
            c == rat_mul(b.w, b.h),
    ;
    assert(rat_wf(g) && rat_wf(rat_add(f, g)) && rat_eqv(rat_add(f, g), rat_one()))
        by (nonlinear_arith)
        requires
            rat_wf(f),
            g == rat_sub(rat_one(), f),
    ;
    lemma_rat_mul_distrib(c, f, g);
    lemma_rat_mul_congruence(c, c, rat_add(f, g), rat_one());
    lemma_rat_mul_one(c);
    // c*f + c*g ~ c*(f+g) ~ c*1 == c
    assert(rat_eqv(rat_add(rat_mul(c, f), rat_mul(c, g)), rat_mul(c, rat_add(f, g))));
    lemma_rat_eqv_trans(
        rat_add(rat_mul(c, f), rat_mul(c, g)),
        rat_mul(c, rat_add(f, g)),
        c,
    );
}

/// The shape of the aspect metric as a pair: numerator `big * small.d *
/// a.d * t.n^2`, denominator `big.d * small.n * a.n * t.d^2`, both positive.
proof fn lemma_aspect_shape(big: Rat, small: Rat, a: Rat, t: Rat)
    requires
        rat_wf(big),
        rat_wf(small),
        rat_wf(a),
        rat_wf(t),
        big.n > 0,
        small.n > 0,
        a.n > 0,
        t.n > 0,
    ensures
        aspect_math(big, small, a, t).n == (big.n * (small.d * a.d)) * (t.n * t.n),
        aspect_math(big, small, a, t).d == (big.d * (small.n * a.n)) * (t.d * t.d),
        aspect_math(big, small, a, t).n > 0,
        aspect_math(big, small, a, t).d > 0,
{
    let at = rat_div(a, t);
    assert(at.n == a.n * t.d && at.d == a.d * t.n);
    let den = rat_mul(small, at);
    assert(den.n == small.n * (a.n * t.d) && den.d == small.d * (a.d * t.n));
    assert(den.n > 0) by (nonlinear_arith)
        requires
            small.n > 0,
            a.n > 0,
            t.d > 0,
            den.n == small.n * (a.n * t.d),
    ;
    let num = rat_mul(big, t);
    let asp = rat_div(num, den);
    assert(asp.n == (big.n * t.n) * (small.d * (a.d * t.n)) && asp.d == (big.d * t.d) * (small.n * (
    a.n * t.d)));
    assert((big.n * t.n) * (small.d * (a.d * t.n)) == (big.n * (small.d * a.d)) * (t.n * t.n))
        by (nonlinear_arith);
    assert((big.d * t.d) * (small.n * (a.n * t.d)) == (big.d * (small.n * a.n)) * (t.d * t.d))
        by (nonlinear_arith);
    assert((big.n * (small.d * a.d)) * (t.n * t.n) > 0 && (big.d * (small.n * a.n)) * (t.d * t.d)
        > 0) by (nonlinear_arith)
        requires
            big.n > 0,
            big.d > 0,
            small.n > 0,
            small.d > 0,
            a.n > 0,
            a.d > 0,
            t.n > 0,
            t.d > 0,
    ;
}

/// The step the greedy row growth rests on: if a candidate does not worsen
/// the normalised aspect metric, the grown share still does not exceed one.
proof fn lemma_accept_le_one(big: Rat, small: Rat, a: Rat, b: Rat, q: Rat)
    requires
        rat_wf(big),
        rat_wf(small),
        rat_wf(a),
        rat_wf(b),
        rat_wf(q),
        big.n > 0,
        small.n > 0,
        a.n > 0,
        b.n > 0,
        rat_le(small, big),
        rat_le(a, b),
        rat_le(b, rat_one()),
        rat_le(rat_zero(), q),
        rat_le(
            norm_aspect_math(big, small, a, rat_add(b, q)),
            norm_aspect_math(big, small, a, b),
        ),
    ensures
        rat_le(rat_add(b, q), rat_one()),
        rat_le(b, rat_add(b, q)),
        rat_lt(rat_zero(), rat_add(b, q)),
        rat_wf(rat_add(b, q)),
{
    let u = rat_add(b, q);
    lemma_rat_add_pos(b, q);
    lemma_rat_le_trans(a, b, rat_one());
    assert(a.n <= a.d);
    let p = big.n * (small.d * a.d);
    let pd = big.d * (small.n * a.n);
    lemma_aspect_shape(big, small, a, b);
    lemma_aspect_shape(big, small, a, u);
    let n1 = aspect_math(big, small, a, b).n;
    let d1 = aspect_math(big, small, a, b).d;
    let n2 = aspect_math(big, small, a, u).n;
    let d2 = aspect_math(big, small, a, u).d;
    // small <= big and a <= 1 make the constant factor of the denominator at
    // most that of the numerator.
    assert(pd <= p) by (nonlinear_arith)
        requires
            p == big.n * (small.d * a.d),
            pd == big.d * (small.n * a.n),
            small.n * big.d <= big.n * small.d,
            a.n <= a.d,
            big.n > 0,
            big.d > 0,
            small.n > 0,
            small.d > 0,
            a.n > 0,
            a.d > 0,
    ;
    assert(p > 0 && pd > 0) by (nonlinear_arith)
        requires
            p == big.n * (small.d * a.d),
            pd == big.d * (small.n * a.n),
            big.n > 0,
            big.d > 0,
            small.n > 0,
            small.d > 0,
            a.n > 0,
            a.d > 0,
    ;
    // a <= b turns into: the denominator constant times b.d is at most the
    // numerator constant times b.n.
    assert(pd * b.d <= p * b.n) by (nonlinear_arith)
        requires
            p == big.n * (small.d * a.d),
            pd == big.d * (small.n * a.n),
            a.n * b.d <= b.n * a.d,
            small.n * big.d <= big.n * small.d,
            big.n > 0,
            big.d > 0,
            small.n > 0,
            small.d > 0,
            a.d > 0,
            b.n > 0,
            b.d > 0,
    ;
    // u is at least b.
    assert(u.n * b.d >= b.n * u.d) by (nonlinear_arith)
        requires
            u.n == b.n * q.d + q.n * b.d,
            u.d == b.d * q.d,
            q.n >= 0,
            b.d > 0,
            q.d > 0,
    ;
    assert(rat_le(b, u));
    if n1 < d1 {
        if n2 < d2 {
            // Both metrics are below one: the aspect bound alone keeps the
            // share below one.
            assert(pd * (u.d * u.d) <= p * (u.d * u.d)) by (nonlinear_arith)
                requires
                    pd <= p,
                    u.d > 0,
            ;
            assert(u.n * u.n < u.d * u.d) by (nonlinear_arith)
                requires
                    p * (u.n * u.n) < pd * (u.d * u.d),
                    pd * (u.d * u.d) <= p * (u.d * u.d),
                    p > 0,
            ;
            assert(u.n <= u.d) by (nonlinear_arith)
                requires
                    u.n * u.n < u.d * u.d,
                    u.n > 0,
                    u.d > 0,
            ;
        } else {
            // The normalised metrics flip sides: the acceptance inequality
            // squares to a product bound.
            assert(rat_le(Rat { n: n2, d: d2 }, Rat { n: d1, d: n1 }));
            assert(n2 * n1 <= d1 * d2);
            assert(n2 * n1 == (p * (b.n * u.n)) * (p * (b.n * u.n))) by (nonlinear_arith)
                requires
                    n1 == p * (b.n * b.n),
                    n2 == p * (u.n * u.n),
            ;
            assert(d1 * d2 == (pd * (b.d * u.d)) * (pd * (b.d * u.d))) by (nonlinear_arith)
                requires
                    d1 == pd * (b.d * b.d),
                    d2 == pd * (u.d * u.d),
            ;
            assert(p * (b.n * u.n) <= pd * (b.d * u.d)) by (nonlinear_arith)
                requires
                    (p * (b.n * u.n)) * (p * (b.n * u.n)) <= (pd * (b.d * u.d)) * (pd * (b.d
                        * u.d)),
                    p > 0,
                    pd > 0,
                    b.n > 0,
                    b.d > 0,
                    u.n > 0,
                    u.d > 0,
            ;
            assert(pd * (b.d * u.d) <= p * (b.n * u.d)) by (nonlinear_arith)
                requires
                    pd * b.d <= p * b.n,
                    u.d > 0,
            ;
            assert(u.n <= u.d) by (nonlinear_arith)
                requires
                    p * (b.n * u.n) <= p * (b.n * u.d),
                    p > 0,
                    b.n > 0,
            ;
        }
    } else {
        if n2 >= d2 {
            // Both metrics are at least one: the aspect grows with the
            // share, so the share cannot have grown past b, and b is at
            // most one.
            assert(rat_le(Rat { n: n2, d: d2 }, Rat { n: n1, d: d1 }));
            assert(n2 * d1 <= n1 * d2);
            assert(n2 * d1 == (p * pd) * ((u.n * b.d) * (u.n * b.d))) by (nonlinear_arith)
                requires
                    n2 == p * (u.n * u.n),
                    d1 == pd * (b.d * b.d),
            ;
            assert(n1 * d2 == (p * pd) * ((b.n * u.d) * (b.n * u.d))) by (nonlinear_arith)
                requires
                    n1 == p * (b.n * b.n),
                    d2 == pd * (u.d * u.d),
            ;
            assert((u.n * b.d) * (u.n * b.d) <= (b.n * u.d) * (b.n * u.d)) by (nonlinear_arith)
                requires
                    (p * pd) * ((u.n * b.d) * (u.n * b.d)) <= (p * pd) * ((b.n * u.d) * (b.n
                        * u.d)),
                    p > 0,
                    pd > 0,
            ;
            assert(u.n * b.d <= b.n * u.d) by (nonlinear_arith)
                requires
                    (u.n * b.d) * (u.n * b.d) <= (b.n * u.d) * (b.n * u.d),
                    u.n > 0,
                    b.d > 0,
                    b.n > 0,
                    u.d > 0,
            ;
            assert(rat_le(u, b));
            lemma_rat_le_trans(u, b, rat_one());
        } else {
            // Impossible: the metric is monotone in the share once it is at
            // least one, so it cannot drop below one by growing the row.
            assert((u.n * b.d) * (u.n * b.d) >= (b.n * u.d) * (b.n * u.d)) by (nonlinear_arith)
                requires
                    u.n * b.d >= b.n * u.d,
                    u.n > 0,
                    b.d > 0,
                    b.n > 0,
                    u.d > 0,
            ;
            assert(n2 * d1 == (p * pd) * ((u.n * b.d) * (u.n * b.d))) by (nonlinear_arith)
                requires
                    n2 == p * (u.n * u.n),
                    d1 == pd * (b.d * b.d),
            ;
            assert(n1 * d2 == (p * pd) * ((b.n * u.d) * (b.n * u.d))) by (nonlinear_arith)
                requires
                    n1 == p * (b.n * b.n),
                    d2 == pd * (u.d * u.d),
            ;
            assert(n2 * d1 >= n1 * d2) by (nonlinear_arith)
                requires
                    n2 * d1 == (p * pd) * ((u.n * b.d) * (u.n * b.d)),
                    n1 * d2 == (p * pd) * ((b.n * u.d) * (b.n * u.d)),
                    (u.n * b.d) * (u.n * b.d) >= (b.n * u.d) * (b.n * u.d),
                    p > 0,
                    pd > 0,
            ;
            assert(n1 * d2 >= d1 * d2) by (nonlinear_arith)
                requires
                    n1 >= d1,
                    d2 > 0,
            ;
            assert(n2 >= d2) by (nonlinear_arith)
                requires
                    n2 * d1 >= d1 * d2,
                    d1 > 0,
            ;
            assert(false);
        }
    }
    assert(rat_le(u, rat_one()));
}

/// A non-empty sum splits off its first element, up to value equality.
pub proof fn lemma_rat_sum_cons(s: Seq<Rat>)
    requires
        all_rats_wf(s),
        s.len() > 0,
    ensures
        rat_eqv(rat_sum(s), rat_add(s[0], rat_sum(s.skip(1)))),
        rat_wf(rat_sum(s)),
        rat_wf(rat_add(s[0], rat_sum(s.skip(1)))),
    decreases s.len(),
{
    lemma_rat_sum_wf(s);
    let tail = s.skip(1);
    assert forall|k: int| 0 <= k < tail.len() implies rat_wf(#[trigger] tail[k]) by {
        assert(tail[k] == s[k + 1]);
    }
    lemma_rat_sum_wf(tail);
    assert(rat_wf(rat_add(s[0], rat_sum(tail)))) by (nonlinear_arith)
        requires
            rat_wf(s[0]),
            rat_wf(rat_sum(tail)),
    ;
    if s.len() == 1 {
        assert(s.drop_last().len() == 0 && tail.len() == 0);
        assert(rat_sum(s.drop_last()) == rat_zero());
        assert(rat_sum(tail) == rat_zero());
        assert(s.last() == s[0]);
        assert(rat_sum(s) == rat_add(rat_zero(), s[0]));
        assert(rat_eqv(rat_add(rat_zero(), s[0]), rat_add(s[0], rat_zero()))) by (nonlinear_arith)
            requires
                rat_wf(s[0]),
        ;
    } else {
        let d = s.drop_last();
        assert forall|k: int| 0 <= k < d.len() implies rat_wf(#[trigger] d[k]) by {
            assert(d[k] == s[k]);
        }
        lemma_rat_sum_cons(d);
        lemma_rat_sum_wf(d);
        assert(d[0] == s[0]);
        assert(tail.drop_last() =~= d.skip(1));
        assert(tail.last() == s.last());
        assert(rat_sum(tail) == rat_add(rat_sum(d.skip(1)), s.last()));
        assert(rat_sum(s) == rat_add(rat_sum(d), s.last()));
        // sum(s) == sum(d) + last ~ (s0 + sum(d.skip(1))) + last
        //        == s0 + (sum(d.skip(1)) + last) == s0 + sum(tail).
        lemma_rat_add_congruence(
            rat_sum(d),
            rat_add(s[0], rat_sum(d.skip(1))),
            s.last(),
            s.last(),
        );
        lemma_rat_add_assoc(s[0], rat_sum(d.skip(1)), s.last());
        lemma_rat_eqv_trans(
            rat_sum(s),
            rat_add(rat_add(s[0], rat_sum(d.skip(1))), s.last()),
            rat_add(s[0], rat_sum(tail)),
        );
    }
}

/// Division by a positive rational respects value equality of the dividend.
pub proof fn lemma_rat_div_congruence(x: Rat, x2: Rat, t: Rat)
    by (nonlinear_arith)
    requires
        rat_wf(x),
        rat_wf(x2),
        rat_wf(t),
        rat_lt(rat_zero(), t),
        rat_eqv(x, x2),
    ensures
        rat_eqv(rat_div(x, t), rat_div(x2, t)),
        rat_wf(rat_div(x, t)),
        rat_wf(rat_div(x2, t)),
{
}

/// What the greedy row growth returns: the share stays between the starting
/// share and one, and equals the starting share plus the shares of the
/// accepted candidates.
pub proof fn lemma_grow_row_props(
    sizes: Seq<Rat>,
    total: Rat,
    big: Rat,
    small: Rat,
    a: Rat,
    b0: Rat,
    mid0: int,
)
    requires
        all_rats_wf(sizes),
        all_rats_nonneg(sizes),
        rat_wf(total),
        rat_lt(rat_zero(), total),
        rat_wf(big),
        rat_wf(small),
        rat_wf(a),
        rat_wf(b0),
        big.n > 0,
        small.n > 0,
        a.n > 0,
        b0.n > 0,
        rat_le(small, big),
        rat_le(a, b0),
        rat_le(b0, rat_one()),
        0 <= mid0,
        mid0 + 2 <= sizes.len(),
    ensures
        ({
            let grown = grow_row(sizes, total, big, small, a, b0, mid0);
            &&& rat_wf(grown.1)
            &&& grown.1.n > 0
            &&& rat_le(a, grown.1)
            &&& rat_le(grown.1, rat_one())
            &&& mid0 <= grown.0
            &&& grown.0 + 2 <= sizes.len()
            &&& rat_eqv(
                grown.1,
                rat_add(b0, rat_div(rat_sum(sizes.subrange(mid0, grown.0)), total)),
            )
        }),
    decreases sizes.len() - mid0,
{
    lemma_grow_row_range(sizes, total, big, small, a, b0, mid0);
    let grown = grow_row(sizes, total, big, small, a, b0, mid0);
    if mid0 + 2 >= sizes.len() || rat_lt(
        norm_aspect_math(big, small, a, b0),
        norm_aspect_math(big, small, a, rat_add(b0, rat_div(sizes[mid0], total))),
    ) {
        assert(grown == (mid0, b0));
        assert(sizes.subrange(mid0, mid0) =~= Seq::<Rat>::empty());
        assert(rat_sum(sizes.subrange(mid0, mid0)) == rat_zero());
        assert(rat_eqv(b0, rat_add(b0, rat_div(rat_zero(), total))) && rat_wf(
            rat_add(b0, rat_div(rat_zero(), total)),
        )) by (nonlinear_arith)
            requires
                rat_wf(b0),
                total.n > 0,
                total.d > 0,
        ;
    } else {
        let q = rat_div(sizes[mid0], total);
        let b1 = rat_add(b0, q);
        lemma_rat_div_nonneg(sizes[mid0], total);
        lemma_rat_add_pos(b0, q);
        lemma_accept_le_one(big, small, a, b0, q);
        lemma_rat_le_trans(a, b0, b1);
        lemma_grow_row_props(sizes, total, big, small, a, b1, mid0 + 1);
        // Fold the first accepted candidate into the subrange sum.
        let rest = sizes.subrange(mid0 + 1, grown.0);
        let whole = sizes.subrange(mid0, grown.0);
        assert forall|k: int| 0 <= k < whole.len() implies rat_wf(#[trigger] whole[k]) by {
            assert(whole[k] == sizes[mid0 + k]);
        }
        assert forall|k: int| 0 <= k < rest.len() implies rat_wf(#[trigger] rest[k]) by {
            assert(rest[k] == sizes[mid0 + 1 + k]);
        }
        lemma_rat_sum_wf(rest);
        lemma_rat_sum_cons(whole);
        assert(whole[0] == sizes[mid0]);
        assert(whole.skip(1) =~= rest);
        // grown.1 ~ b1 + sum(rest)/total
        //        == (b0 + q) + sum(rest)/total
        //        == b0 + (q + sum(rest)/total)
        //         ~ b0 + (sizes[mid0] + sum(rest))/total
        //         ~ b0 + sum(whole)/total.
        lemma_rat_add_assoc(b0, q, rat_div(rat_sum(rest), total));
        lemma_rat_div_add_distrib(sizes[mid0], rat_sum(rest), total);
        assert(rat_wf(rat_add(q, rat_div(rat_sum(rest), total)))) by (nonlinear_arith)
            requires
                rat_wf(q),
                rat_wf(rat_div(rat_sum(rest), total)),
        ;
        lemma_rat_add_congruence(
            rat_add(q, rat_div(rat_sum(rest), total)),
            rat_div(rat_add(sizes[mid0], rat_sum(rest)), total),
            b0,
            b0,
        );
        lemma_rat_add_comm(b0, rat_add(q, rat_div(rat_sum(rest), total)));
        lemma_rat_add_comm(b0, rat_div(rat_add(sizes[mid0], rat_sum(rest)), total));
        lemma_rat_sum_wf(whole);
        lemma_rat_div_congruence(rat_add(sizes[mid0], rat_sum(rest)), rat_sum(whole), total);
        lemma_rat_add_congruence(
            rat_div(rat_add(sizes[mid0], rat_sum(rest)), total),
            rat_div(rat_sum(whole), total),
            b0,
            b0,
        );
        lemma_rat_add_comm(b0, rat_div(rat_sum(whole), total));
        lemma_rat_eqv_trans(
            grown.1,
            rat_add(b1, rat_div(rat_sum(rest), total)),
            rat_add(b0, rat_add(q, rat_div(rat_sum(rest), total))),
        );
        lemma_rat_eqv_trans(
            grown.1,
            rat_add(b0, rat_add(q, rat_div(rat_sum(rest), total))),
            rat_add(b0, rat_div(rat_add(sizes[mid0], rat_sum(rest)), total)),
        );
        lemma_rat_eqv_trans(
            grown.1,
            rat_add(b0, rat_div(rat_add(sizes[mid0], rat_sum(rest)), total)),
            rat_add(b0, rat_div(rat_sum(whole), total)),
        );
    }
}

/// Tiling: for a non-increasing, non-negative size sequence laid out into a
/// well-formed rectangle with non-negative sides, the output rectangle areas
/// sum exactly to the area of the bounds. (A degenerate call whose sizes sum
/// to zero is owed this only when the bounds area is itself zero, which is
/// how the recursion always reaches such a call.)
pub proof fn lemma_layout_tiles(sizes: Seq<Rat>, b: RectV)
    requires
        all_rats_wf(sizes),
        all_rats_nonneg(sizes),
        sorted_rats(sizes),
        rect_wf(b),
        rat_le(rat_zero(), b.w),
        rat_le(rat_zero(), b.h),
        rat_sum(sizes).n == 0 ==> rat_eqv(rat_mul(b.w, b.h), rat_zero()),
    ensures
        rat_eqv(rat_sum(areas(layout_at_math(sizes, b))), rat_mul(b.w, b.h)),
        all_rats_wf(areas(layout_at_math(sizes, b))),
        rat_wf(rat_sum(areas(layout_at_math(sizes, b)))),
    decreases sizes.len(),
{
    let len = sizes.len() as int;
    let out = layout_at_math(sizes, b);
    let area_b = rat_mul(b.w, b.h);
    assert(rat_wf(area_b)) by (nonlinear_arith)
        requires
            rat_wf(b.w),
            rat_wf(b.h),
            area_b == rat_mul(b.w, b.h),
    ;
    lemma_rat_sum_nonneg(sizes);
    if len <= 2 {
        lemma_row_area_sum(sizes, b);
        if rat_sum(sizes).n == 0 {
            lemma_rat_eqv_trans(rat_sum(areas(out)), rat_zero(), area_b);
        }
        return ;
    }
    if b.w.n == 0 || b.h.n == 0 {
        assert forall|k: int| 0 <= k < areas(out).len() implies (#[trigger] areas(out)[k]).n == 0
            && rat_wf(areas(out)[k]) by {
            assert(out[k] == zero_rect(b));
            assert(areas(out)[k] == rat_mul(rat_zero(), rat_zero()));
        }
        lemma_rat_sum_zero(areas(out));
        lemma_rat_sum_wf(areas(out));
        assert(area_b.n == 0) by (nonlinear_arith)
            requires
                area_b == rat_mul(b.w, b.h),
                b.w.n == 0 || b.h.n == 0,
        ;
        assert(rat_eqv(rat_sum(areas(out)), area_b)) by (nonlinear_arith)
            requires
                rat_sum(areas(out)).n == 0,
                area_b.n == 0,
        ;
        return ;
    }
    let head = sizes.take(len - 1);
    let total = rat_sum(head);
    assert forall|k: int| 0 <= k < head.len() implies rat_wf(#[trigger] head[k]) && rat_le(
        rat_zero(),
        head[k],
    ) by {
        assert(head[k] == sizes[k]);
    }
    lemma_rat_sum_nonneg(head);
    if total.n == 0 {
        // A zero head total with a non-increasing, non-negative sequence
        // means every size is zero, so the bounds area is zero by the
        // degenerate-call hypothesis.
        lemma_rat_sum_zero_rev(head);
        assert(head[0] == sizes[0] && sizes[0].n == 0);
        assert forall|k: int| 0 <= k < sizes.len() implies (#[trigger] sizes[k]).n == 0 by {
            assert(rat_le(sizes[k], sizes[0]));
            assert(sizes[k].n == 0) by (nonlinear_arith)
                requires
                    rat_wf(sizes[k]),
                    rat_wf(sizes[0]),
                    rat_le(rat_zero(), sizes[k]),
                    rat_le(sizes[k], sizes[0]),
                    sizes[0].n == 0,
            ;
        }
        lemma_rat_sum_zero(sizes);
        assert forall|k: int| 0 <= k < areas(out).len() implies (#[trigger] areas(out)[k]).n == 0
            && rat_wf(areas(out)[k]) by {
            assert(out[k] == zero_rect(b));
            assert(areas(out)[k] == rat_mul(rat_zero(), rat_zero()));
        }
        lemma_rat_sum_zero(areas(out));
        lemma_rat_sum_wf(areas(out));
        assert(rat_eqv(rat_sum(areas(out)), rat_zero())) by (nonlinear_arith)
            requires
                rat_sum(areas(out)).n == 0,
        ;
        lemma_rat_eqv_trans(rat_sum(areas(out)), rat_zero(), area_b);
        return ;
    }
    // The general partition step.
    assert(total.n > 0);
    assert(rat_lt(rat_zero(), total));
    assert forall|i: int, j: int| 0 <= i <= j < head.len() implies rat_le(
        #[trigger] head[j],
        #[trigger] head[i],
    ) by {
        assert(head[i] == sizes[i] && head[j] == sizes[j]);
    }
    lemma_first_pos(head);
    assert(sizes[0].n > 0);
    let a = rat_div(sizes[0], total);
    assert(a.n == sizes[0].n * total.d && a.d == sizes[0].d * total.n);
    assert(a.n > 0 && rat_wf(a)) by (nonlinear_arith)
        requires
            a.n == sizes[0].n * total.d,
            a.d == sizes[0].d * total.n,
            sizes[0].n > 0,
            sizes[0].d > 0,
            total.n > 0,
            total.d > 0,
    ;
    lemma_rat_sum_elem(head, 0);
    assert(rat_le(a, rat_one())) by (nonlinear_arith)
        requires
            a.n == sizes[0].n * total.d,
            a.d == sizes[0].d * total.n,
            sizes[0].n * total.d <= total.n * sizes[0].d,
    ;
    let vertical = rat_lt(b.w, b.h);
    let big = if vertical { b.h } else { b.w };
    let small = if vertical { b.w } else { b.h };
    assert(big.n > 0 && small.n > 0);
    assert(rat_le(small, big));
    lemma_grow_row_props(sizes, total, big, small, a, a, 0);
    let grown = grow_row(sizes, total, big, small, a, a, 0);
    let mid = grown.0;
    let bfr = grown.1;
    let row = sizes.take(mid + 1);
    let rest = sizes.skip(mid + 1);
    let rect: RectV;
    let rect2: RectV;
    if vertical {
        let hb = rat_mul(b.h, bfr);
        rect = RectV { x: b.x, y: b.y, w: b.w, h: hb };
        rect2 = RectV {
            x: b.x,
            y: rat_add(b.y, hb),
            w: b.w,
            h: rat_mul(b.h, rat_sub(rat_one(), bfr)),
        };
        lemma_wh_factor(b.w, b.h, bfr);
        lemma_wh_factor(b.w, b.h, rat_sub(rat_one(), bfr));
        assert(rat_mul(rect.w, rect.h) == rat_mul(area_b, bfr));
        assert(rat_mul(rect2.w, rect2.h) == rat_mul(area_b, rat_sub(rat_one(), bfr)));
    } else {
        let wb = rat_mul(b.w, bfr);
        rect = RectV { x: b.x, y: b.y, w: wb, h: b.h };
        rect2 = RectV {
            x: rat_add(b.x, wb),
            y: b.y,
            w: rat_mul(b.w, rat_sub(rat_one(), bfr)),
            h: b.h,
        };
        lemma_wh_factor(b.w, b.h, bfr);
        lemma_wh_factor(b.w, b.h, rat_sub(rat_one(), bfr));
        assert(rat_mul(rect.w, rect.h) == rat_mul(area_b, bfr));
        assert(rat_mul(rect2.w, rect2.h) == rat_mul(area_b, rat_sub(rat_one(), bfr)));
    }
    assert(out == row_math(row, rect) + layout_at_math(rest, rect2));
    let one_less_bfr = rat_sub(rat_one(), bfr);
    assert(rat_wf(one_less_bfr) && one_less_bfr.n >= 0 && rat_le(rat_zero(), one_less_bfr))
        by (nonlinear_arith)
        requires
            one_less_bfr == rat_sub(rat_one(), bfr),
            rat_wf(bfr),
            rat_le(bfr, rat_one()),
    ;
    // Both sub-rectangles are well formed with non-negative sides.
    assert(rect_wf(rect) && rect_wf(rect2) && rat_le(rat_zero(), rect.w) && rat_le(
        rat_zero(),
        rect.h,
    ) && rat_le(rat_zero(), rect2.w) && rat_le(rat_zero(), rect2.h)) by (nonlinear_arith)
        requires
            rect_wf(b),
            rat_le(rat_zero(), b.w),
            rat_le(rat_zero(), b.h),
            rat_wf(bfr),
            bfr.n > 0,
            rat_wf(one_less_bfr),
            rat_le(rat_zero(), one_less_bfr),
            vertical ==> rect == (RectV { x: b.x, y: b.y, w: b.w, h: rat_mul(b.h, bfr) })
                && rect2 == (RectV {
                x: b.x,
                y: rat_add(b.y, rat_mul(b.h, bfr)),
                w: b.w,
                h: rat_mul(b.h, one_less_bfr),
            }),
            !vertical ==> rect == (RectV { x: b.x, y: b.y, w: rat_mul(b.w, bfr), h: b.h })
                && rect2 == (RectV {
                x: rat_add(b.x, rat_mul(b.w, bfr)),
                y: b.y,
                w: rat_mul(b.w, one_less_bfr),
                h: b.h,
            }),
    ;
    // Properties of the row and the remainder as size sequences.
    assert forall|k: int| 0 <= k < row.len() implies rat_wf(#[trigger] row[k]) && rat_le(
        rat_zero(),
        row[k],
    ) by {
        assert(row[k] == sizes[k]);
    }
    assert forall|k: int| 0 <= k < rest.len() implies rat_wf(#[trigger] rest[k]) && rat_le(
        rat_zero(),
        rest[k],
    ) by {
        assert(rest[k] == sizes[mid + 1 + k]);
    }
    assert forall|i: int, j: int| 0 <= i <= j < rest.len() implies rat_le(
        #[trigger] rest[j],
        #[trigger] rest[i],
    ) by {
        assert(rest[i] == sizes[mid + 1 + i] && rest[j] == sizes[mid + 1 + j]);
    }
    // The row contains the first (positive) size, so its total is positive.
    lemma_rat_sum_nonneg(row);
    lemma_rat_sum_elem(row, 0);
    assert(row[0] == sizes[0]);
    assert(rat_lt(rat_zero(), sizes[0]));
    lemma_rat_lt_le_trans(rat_zero(), sizes[0], rat_sum(row));
    assert(rat_sum(row).n != 0);
    lemma_row_area_sum(row, rect);
    // If the remainder sums to zero, the residual rectangle has zero area:
    // the accepted share is then exactly one.
    if rat_sum(rest).n == 0 {
        lemma_rat_sum_zero_rev(rest);
        let sub0 = sizes.subrange(0, mid);
        let sub1 = sizes.subrange(0, mid + 1);
        let sub2 = sizes.subrange(mid + 1, len - 1);
        assert forall|k: int| 0 <= k < sub0.len() implies rat_wf(#[trigger] sub0[k]) by {
            assert(sub0[k] == sizes[k]);
        }
        assert forall|k: int| 0 <= k < sub1.len() implies rat_wf(#[trigger] sub1[k]) by {
            assert(sub1[k] == sizes[k]);
        }
        assert forall|k: int| 0 <= k < sub2.len() implies rat_wf(#[trigger] sub2[k]) && (
        #[trigger] sub2[k]).n == 0 by {
            assert(sub2[k] == sizes[mid + 1 + k]);
            assert(sub2[k] == rest[k]);
        }
        lemma_rat_sum_wf(sub0);
        lemma_rat_sum_wf(sub1);
        lemma_rat_sum_zero(sub2);
        lemma_rat_sum_wf(sub2);
        assert(head =~= sub1 + sub2);
        lemma_rat_sum_append(sub1, sub2);
        // total ~ sum(sub1) since sum(sub2) is zero-valued.
        assert(rat_eqv(rat_add(rat_sum(sub1), rat_sum(sub2)), rat_sum(sub1))) by (nonlinear_arith)
            requires
                rat_wf(rat_sum(sub1)),
                rat_wf(rat_sum(sub2)),
                rat_sum(sub2).n == 0,
        ;
        lemma_rat_eqv_trans(total, rat_add(rat_sum(sub1), rat_sum(sub2)), rat_sum(sub1));
        // sum(sub1) ~ sum(sub0) + sizes[mid].
        assert(sub1 =~= sub0 + seq![sizes[mid]]);
        assert forall|k: int| 0 <= k < seq![sizes[mid]].len() implies rat_wf(
            #[trigger] seq![sizes[mid]][k],
        ) by {
            assert(seq![sizes[mid]][k] == sizes[mid]);
        }
        lemma_rat_sum_append(sub0, seq![sizes[mid]]);
        let single = seq![sizes[mid]];
        assert(single.len() == 1);
        assert(single.drop_last().len() == 0);
        assert(rat_sum(single.drop_last()) == rat_zero());
        assert(single.last() == sizes[mid]);
        assert(rat_sum(single) == rat_add(rat_zero(), sizes[mid]));
        assert(rat_eqv(
            rat_add(rat_sum(sub0), rat_add(rat_zero(), sizes[mid])),
            rat_add(rat_sum(sub0), sizes[mid]),
        ) && rat_wf(rat_add(rat_sum(sub0), sizes[mid])) && rat_wf(
            rat_add(rat_sum(sub0), rat_add(rat_zero(), sizes[mid])),
        )) by (nonlinear_arith)
            requires
                rat_wf(rat_sum(sub0)),
                rat_wf(sizes[mid]),
        ;
        lemma_rat_eqv_trans(
            rat_sum(sub1),
            rat_add(rat_sum(sub0), rat_add(rat_zero(), sizes[mid])),
            rat_add(rat_sum(sub0), sizes[mid]),
        );
        lemma_rat_eqv_trans(total, rat_sum(sub1), rat_add(rat_sum(sub0), sizes[mid]));
        // The accepted share is (sizes[0] + sum(sub0)) / total, and
        // sizes[0] + sum(sub0) is at least total because sizes[mid] is at
        // most sizes[0].
        lemma_rat_div_add_distrib(sizes[0], rat_sum(sub0), total);
        assert(rat_wf(rat_add(a, rat_div(rat_sum(sub0), total)))) by (nonlinear_arith)
            requires
                rat_wf(a),
                rat_wf(rat_div(rat_sum(sub0), total)),
        ;
        assert(a == rat_div(sizes[0], total));
        lemma_rat_eqv_trans(
            bfr,
            rat_add(a, rat_div(rat_sum(sub0), total)),
            rat_div(rat_add(sizes[0], rat_sum(sub0)), total),
        );
        let u = rat_add(sizes[0], rat_sum(sub0));
        assert(rat_le(sizes[mid], sizes[0]));
        assert forall|k: int| 0 <= k < sub0.len() implies rat_le(rat_zero(), #[trigger] sub0[k]) by {
            assert(sub0[k] == sizes[k]);
        }
        lemma_rat_sum_nonneg(sub0);
        lemma_rat_add_mono(sizes[mid], sizes[0], rat_sum(sub0));
        lemma_rat_add_comm(sizes[mid], rat_sum(sub0));
        lemma_rat_add_comm(sizes[0], rat_sum(sub0));
        assert(rat_le(rat_add(rat_sum(sub0), sizes[mid]), u));
        lemma_rat_le_eqv(rat_add(rat_sum(sub0), sizes[mid]), total, u, u);
        // total <= u and total > 0 give u / total >= 1.
        assert(rat_le(rat_one(), rat_div(u, total))) by (nonlinear_arith)
            requires
                rat_wf(u),
                rat_wf(total),
                total.n > 0,
                rat_le(total, u),
        ;
        assert(rat_wf(rat_div(u, total))) by (nonlinear_arith)
            requires
                rat_wf(u),
                total.n > 0,
        ;
        lemma_rat_le_eqv(rat_one(), rat_one(), rat_div(u, total), bfr);
        assert(bfr.n == bfr.d);
        assert(one_less_bfr.n == 0);
        assert(rat_eqv(rat_mul(area_b, one_less_bfr), rat_zero())) by (nonlinear_arith)
            requires
                rat_wf(area_b),
                one_less_bfr.n == 0,
        ;
    }
    // Recurse on the remainder.
    lemma_layout_tiles(rest, rect2);
    // Assemble: the areas of the whole output are the row areas followed by
    // the remainder areas.
    let row_out = row_math(row, rect);
    let rest_out = layout_at_math(rest, rect2);
    lemma_layout_at_math_len(rest, rect2);
    assert(areas(out) =~= areas(row_out) + areas(rest_out));
    lemma_rat_sum_append(areas(row_out), areas(rest_out));
    assert(rat_wf(rat_mul(rect.w, rect.h)) && rat_wf(rat_mul(rect2.w, rect2.h)))
        by (nonlinear_arith)
        requires
            rect_wf(rect),
            rect_wf(rect2),
    ;
    lemma_rat_add_congruence(
        rat_sum(areas(row_out)),
        rat_mul(rect.w, rect.h),
        rat_sum(areas(rest_out)),
        rat_mul(rect2.w, rect2.h),
    );
    lemma_split_areas(b, bfr);
    assert(rat_add(rat_mul(rect.w, rect.h), rat_mul(rect2.w, rect2.h)) == rat_add(
        rat_mul(area_b, bfr),
        rat_mul(area_b, one_less_bfr),
    ));
    assert(rat_wf(rat_add(rat_mul(rect.w, rect.h), rat_mul(rect2.w, rect2.h))))
        by (nonlinear_arith)
        requires
            rect_wf(rect),
            rect_wf(rect2),
    ;
    lemma_rat_eqv_trans(
        rat_sum(areas(out)),
        rat_add(rat_sum(areas(row_out)), rat_sum(areas(rest_out))),
        rat_add(rat_mul(rect.w, rect.h), rat_mul(rect2.w, rect2.h)),
    );
    lemma_rat_eqv_trans(
        rat_sum(areas(out)),
        rat_add(rat_mul(rect.w, rect.h), rat_mul(rect2.w, rect2.h)),
        area_b,
    );
    assert forall|k: int| 0 <= k < areas(out).len() implies rat_wf(#[trigger] areas(out)[k]) by {
        if k <= mid {
            assert(out[k] == row_out[k]);
            assert(areas(row_out)[k] == rat_mul(row_out[k].w, row_out[k].h));
            assert(rat_wf(areas(row_out)[k]));
        } else {
            assert(out[k] == rest_out[k - (mid + 1)]);
            assert(areas(rest_out)[k - (mid + 1)] == rat_mul(
                rest_out[k - (mid + 1)].w,
                rest_out[k - (mid + 1)].h,
            ));
            assert(rat_wf(areas(rest_out)[k - (mid + 1)]));
        }
    }
    lemma_rat_sum_wf(areas(out));
}

/// Every rectangle of the layout is well formed with non-negative width and
/// height, when the sizes are non-increasing and non-negative and the bounds
/// are well formed with non-negative sides.
pub proof fn lemma_layout_rects_valid(sizes: Seq<Rat>, b: RectV)
    requires
        all_rats_wf(sizes),
        all_rats_nonneg(sizes),
        sorted_rats(sizes),
        rect_wf(b),
        rat_le(rat_zero(), b.w),
        rat_le(rat_zero(), b.h),
    ensures
        layout_at_math(sizes, b).len() == sizes.len(),
        forall|k: int|
            0 <= k < sizes.len() ==> {
                let r = #[trigger] layout_at_math(sizes, b)[k];
                rect_wf(r) && rat_le(rat_zero(), r.w) && rat_le(rat_zero(), r.h)
            },
    decreases sizes.len(),
{
    let len = sizes.len() as int;
    let out = layout_at_math(sizes, b);
    lemma_layout_at_math_len(sizes, b);
    if len <= 2 {
        assert forall|k: int| 0 <= k < sizes.len() implies {
            let r = #[trigger] out[k];
            rect_wf(r) && rat_le(rat_zero(), r.w) && rat_le(rat_zero(), r.h)
        } by {
            lemma_row_rect_valid(sizes, b, k);
        }
        return ;
    }
    if b.w.n == 0 || b.h.n == 0 {
        assert forall|k: int| 0 <= k < sizes.len() implies {
            let r = #[trigger] out[k];
            rect_wf(r) && rat_le(rat_zero(), r.w) && rat_le(rat_zero(), r.h)
        } by {
            assert(out[k] == zero_rect(b));
        }
        return ;
    }
    let head = sizes.take(len - 1);
    let total = rat_sum(head);
    assert forall|k: int| 0 <= k < head.len() implies rat_wf(#[trigger] head[k]) && rat_le(
        rat_zero(),
        head[k],
    ) by {
        assert(head[k] == sizes[k]);
    }
    lemma_rat_sum_nonneg(head);
    if total.n == 0 {
        assert forall|k: int| 0 <= k < sizes.len() implies {
            let r = #[trigger] out[k];
            rect_wf(r) && rat_le(rat_zero(), r.w) && rat_le(rat_zero(), r.h)
        } by {
            assert(out[k] == zero_rect(b));
        }
        return ;
    }
    assert(total.n > 0);
    assert(rat_lt(rat_zero(), total));
    assert forall|i: int, j: int| 0 <= i <= j < head.len() implies rat_le(
        #[trigger] head[j],
        #[trigger] head[i],
    ) by {
        assert(head[i] == sizes[i] && head[j] == sizes[j]);
    }
    lemma_first_pos(head);
    let a = rat_div(sizes[0], total);
    assert(a.n == sizes[0].n * total.d && a.d == sizes[0].d * total.n);
    assert(a.n > 0 && rat_wf(a)) by (nonlinear_arith)
        requires
            a.n == sizes[0].n * total.d,
            a.d == sizes[0].d * total.n,
            sizes[0].n > 0,
            sizes[0].d > 0,
            total.n > 0,
            total.d > 0,
    ;
    lemma_rat_sum_elem(head, 0);
    assert(rat_le(a, rat_one())) by (nonlinear_arith)
        requires
            a.n == sizes[0].n * total.d,
            a.d == sizes[0].d * total.n,
            sizes[0].n * total.d <= total.n * sizes[0].d,
    ;
    let vertical = rat_lt(b.w, b.h);
    let big = if vertical { b.h } else { b.w };
    let small = if vertical { b.w } else { b.h };
    lemma_grow_row_props(sizes, total, big, small, a, a, 0);
    let grown = grow_row(sizes, total, big, small, a, a, 0);
    let mid = grown.0;
    let bfr = grown.1;
    let row = sizes.take(mid + 1);
    let rest = sizes.skip(mid + 1);
    let rect: RectV;
    let rect2: RectV;
    if vertical {
        let hb = rat_mul(b.h, bfr);
        rect = RectV { x: b.x, y: b.y, w: b.w, h: hb };
        rect2 = RectV {
            x: b.x,
            y: rat_add(b.y, hb),
            w: b.w,
            h: rat_mul(b.h, rat_sub(rat_one(), bfr)),
        };
    } else {
        let wb = rat_mul(b.w, bfr);
        rect = RectV { x: b.x, y: b.y, w: wb, h: b.h };
        rect2 = RectV {
            x: rat_add(b.x, wb),
            y: b.y,
            w: rat_mul(b.w, rat_sub(rat_one(), bfr)),
            h: b.h,
        };
    }
    assert(out == row_math(row, rect) + layout_at_math(rest, rect2));
    let one_less_bfr = rat_sub(rat_one(), bfr);
    assert(rat_wf(one_less_bfr) && rat_le(rat_zero(), one_less_bfr)) by (nonlinear_arith)
        requires
            one_less_bfr == rat_sub(rat_one(), bfr),
            rat_wf(bfr),
            rat_le(bfr, rat_one()),
    ;
    assert(rect_wf(rect) && rect_wf(rect2) && rat_le(rat_zero(), rect.w) && rat_le(
        rat_zero(),
        rect.h,
    ) && rat_le(rat_zero(), rect2.w) && rat_le(rat_zero(), rect2.h)) by (nonlinear_arith)
        requires
            rect_wf(b),
            rat_le(rat_zero(), b.w),
            rat_le(rat_zero(), b.h),
            rat_wf(bfr),
            bfr.n > 0,
            rat_wf(one_less_bfr),
            rat_le(rat_zero(), one_less_bfr),
            vertical ==> rect == (RectV { x: b.x, y: b.y, w: b.w, h: rat_mul(b.h, bfr) })
                && rect2 == (RectV {
                x: b.x,
                y: rat_add(b.y, rat_mul(b.h, bfr)),
                w: b.w,
                h: rat_mul(b.h, one_less_bfr),
            }),
            !vertical ==> rect == (RectV { x: b.x, y: b.y, w: rat_mul(b.w, bfr), h: b.h })
                && rect2 == (RectV {
                x: rat_add(b.x, rat_mul(b.w, bfr)),
                y: b.y,
                w: rat_mul(b.w, one_less_bfr),
                h: b.h,
            }),
    ;
    assert forall|k: int| 0 <= k < row.len() implies rat_wf(#[trigger] row[k]) && rat_le(
        rat_zero(),
        row[k],
    ) by {
        assert(row[k] == sizes[k]);
    }
    assert forall|i: int, j: int| 0 <= i <= j < row.len() implies rat_le(
        #[trigger] row[j],
        #[trigger] row[i],
    ) by {
        assert(row[i] == sizes[i] && row[j] == sizes[j]);
    }
    assert forall|k: int| 0 <= k < rest.len() implies rat_wf(#[trigger] rest[k]) && rat_le(
        rat_zero(),
        rest[k],
    ) by {
        assert(rest[k] == sizes[mid + 1 + k]);
    }
    assert forall|i: int, j: int| 0 <= i <= j < rest.len() implies rat_le(
        #[trigger] rest[j],
        #[trigger] rest[i],
    ) by {
        assert(rest[i] == sizes[mid + 1 + i] && rest[j] == sizes[mid + 1 + j]);
    }
    lemma_layout_rects_valid(row, rect);
    lemma_layout_rects_valid(rest, rect2);
    let row_out = layout_at_math(row, rect);
    lemma_layout_at_math_len(rest, rect2);
    assert(row.len() <= 2 ==> row_math(row, rect) == layout_at_math(row, rect));
    assert forall|k: int| 0 <= k < sizes.len() implies {
        let r = #[trigger] out[k];
        rect_wf(r) && rat_le(rat_zero(), r.w) && rat_le(rat_zero(), r.h)
    } by {
        if k <= mid {
            assert(out[k] == row_math(row, rect)[k]);
            lemma_row_rect_valid(row, rect, k);
        } else {
            assert(out[k] == layout_at_math(rest, rect2)[k - (mid + 1)]);
        }
    }
}

/// The running offset of a row is a well-formed rational.
proof fn lemma_row_acc_wf(sizes: Seq<Rat>, total: Rat, k: int)
    requires
        all_rats_wf(sizes),
        rat_wf(total),
        total.n > 0,
        k <= sizes.len(),
    ensures
        rat_wf(row_acc(sizes, total, k)),
    decreases k,
{
    if k <= 0 {
    } else {
        lemma_row_acc_wf(sizes, total, k - 1);
        assert(rat_wf(rat_add(row_acc(sizes, total, k - 1), rat_div(sizes[k - 1], total))))
            by (nonlinear_arith)
            requires
                rat_wf(row_acc(sizes, total, k - 1)),
                rat_wf(sizes[k - 1]),
                total.n > 0,
        ;
    }
}

/// A single row slice is well formed with non-negative sides.
proof fn lemma_row_rect_valid(sizes: Seq<Rat>, b: RectV, k: int)
    requires
        all_rats_wf(sizes),
        all_rats_nonneg(sizes),
        rect_wf(b),
        rat_le(rat_zero(), b.w),
        rat_le(rat_zero(), b.h),
        0 <= k < sizes.len(),
    ensures
        ({
            let r = row_math(sizes, b)[k];
            rect_wf(r) && rat_le(rat_zero(), r.w) && rat_le(rat_zero(), r.h)
        }),
{
    let total = rat_sum(sizes);
    lemma_rat_sum_nonneg(sizes);
    let r = row_math(sizes, b)[k];
    if total.n == 0 {
        assert(r == zero_rect(b));
    } else {
        assert(total.n > 0);
        lemma_rat_div_nonneg(sizes[k], total);
        let q = rat_div(sizes[k], total);
        let acc = row_acc(sizes, total, k);
        lemma_row_acc_wf(sizes, total, k);
        let horiz = rat_lt(b.h, b.w);
        assert(r == row_slice(b, acc, q, horiz));
        assert(rect_wf(r) && rat_le(rat_zero(), r.w) && rat_le(rat_zero(), r.h))
            by (nonlinear_arith)
            requires
                horiz ==> r == (RectV {
                    x: rat_add(b.x, rat_mul(b.w, acc)),
                    y: b.y,
                    w: rat_mul(b.w, q),
                    h: b.h,
                }),
                !horiz ==> r == (RectV {
                    x: b.x,
                    y: rat_add(b.y, rat_mul(b.h, acc)),
                    w: b.w,
                    h: rat_mul(b.h, q),
                }),
                rect_wf(b),
                rat_wf(acc),
                rat_wf(q),
                rat_le(rat_zero(), b.w),
                rat_le(rat_zero(), b.h),
                rat_le(rat_zero(), q),
        ;
    }
}

/// Tiling at the engine's interface: for any well-formed items with
/// non-negative sizes, at least one of them positive, laid out into a
/// rectangle with non-negative sides, the rectangle areas that
/// `TreemapLayout::layout_items` assigns (the layout of the sorted sizes)
/// sum exactly to the bounds area.
pub proof fn lemma_layout_items_tile<T: Mappable>(s: Seq<T>, b: RectV)
    requires
        all_inv(s),
        forall|k: int| 0 <= k < s.len() ==> rat_le(rat_zero(), #[trigger] s[k].size_v()),
        rect_wf(b),
        rat_le(rat_zero(), b.w),
        rat_le(rat_zero(), b.h),
        exists|k: int| 0 <= k < s.len() && rat_lt(rat_zero(), #[trigger] s[k].size_v()),
    ensures
        rat_eqv(
            rat_sum(areas(layout_at_math(sizes_of(sort_spec(s)), b))),
            rat_mul(b.w, b.h),
        ),
{
    assert forall|k: int| 0 <= k < s.len() implies rat_wf(#[trigger] s[k].size_v()) by {
        s[k].lemma_inv();
    }
    lemma_sort_spec_correct(s);
    let t = sort_spec(s);
    let ts = sizes_of(t);
    lemma_elems_from_multiset(s, t);
    assert forall|k: int| 0 <= k < ts.len() implies rat_wf(#[trigger] ts[k]) && rat_le(
        rat_zero(),
        ts[k],
    ) by {
        assert(ts[k] == t[k].size_v());
        assert(s.contains(t[k]));
        let i = choose|i: int| 0 <= i < s.len() && s[i] == t[k];
        assert(rat_wf(s[i].size_v()) && rat_le(rat_zero(), s[i].size_v()));
    }
    assert forall|i: int, j: int| 0 <= i <= j < ts.len() implies rat_le(
        #[trigger] ts[j],
        #[trigger] ts[i],
    ) by {
        assert(ts[i] == t[i].size_v() && ts[j] == t[j].size_v());
    }
    // Some item has a positive size, so the sorted sizes do not sum to zero.
    let w = choose|k: int| 0 <= k < s.len() && rat_lt(rat_zero(), #[trigger] s[k].size_v());
    lemma_elems_from_multiset(t, s);
    assert(t.contains(s[w]));
    let j = choose|j: int| 0 <= j < t.len() && t[j] == s[w];
    assert(rat_lt(rat_zero(), ts[j]));
    lemma_rat_sum_elem(ts, j);
    lemma_rat_sum_nonneg(ts);
    lemma_rat_lt_le_trans(rat_zero(), ts[j], rat_sum(ts));
    assert(rat_sum(ts).n > 0);
    lemma_layout_tiles(ts, b);
}

} // verus!
