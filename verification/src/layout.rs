//! The squarified treemap layout engine.
//!
//! [`TreemapLayout::layout_items`] sorts the items by descending size and
//! recursively partitions the bounding rectangle into rows. Every step of the
//! executable computation is mirrored by a spec function over ghost
//! rationals, and the engine's contract pins each item's final bounds to
//! [`layout_at_math`], the mathematical layout of the sorted size sequence.
//!
//! Degenerate inputs follow an explicit guard policy: a row whose total size
//! is zero, or a partition step over a zero-area rectangle, assigns the
//! affected items zero-area rectangles at the bounds' origin instead of
//! dividing by zero.

use vstd::prelude::*;
use crate::frac::Frac;
use crate::rat::{
    Rat, rat_wf, rat_zero, rat_one, rat_add, rat_sub, rat_mul, rat_div, rat_le, rat_lt,
    lemma_rat_div_nonneg, lemma_rat_add_pos,
};
use crate::rect::{Rect, RectV, rect_wf, rect_valid};
use crate::item::Mappable;
use crate::sort::{
    sizes_of, all_inv, sorted_desc, sorted_desc_from, sort_spec, sort_descending,
    lemma_elems_from_multiset,
};

verus! {

/// The sum of a sequence of rationals, folded from the left.
pub open spec fn rat_sum(s: Seq<Rat>) -> Rat
    decreases s.len(),
{
    if s.len() == 0 {
        rat_zero()
    } else {
        rat_add(rat_sum(s.drop_last()), s.last())
    }
}

/// Every rational in the sequence is well formed.
pub open spec fn all_rats_wf(s: Seq<Rat>) -> bool {
    forall|k: int| 0 <= k < s.len() ==> rat_wf(#[trigger] s[k])
}

/// Every rational in the sequence is at least zero.
pub open spec fn all_rats_nonneg(s: Seq<Rat>) -> bool {
    forall|k: int| 0 <= k < s.len() ==> rat_le(rat_zero(), #[trigger] s[k])
}

/// The zero-area rectangle placed at the origin of `b`, used for items that
/// cannot receive a proportional share (degenerate geometry).
pub open spec fn zero_rect(b: RectV) -> RectV {
    RectV { x: b.x, y: b.y, w: rat_zero(), h: rat_zero() }
}

/// The running offset of the row layout: the accumulated share of the first
/// `k` items of the row.
pub open spec fn row_acc(sizes: Seq<Rat>, total: Rat, k: int) -> Rat
    decreases k,
{
    if k <= 0 {
        rat_zero()
    } else {
        rat_add(row_acc(sizes, total, k - 1), rat_div(sizes[k - 1], total))
    }
}

/// The sub-rectangle of `b` at offset share `acc` with share `q`, distributed
/// horizontally or vertically.
pub open spec fn row_slice(b: RectV, acc: Rat, q: Rat, horiz: bool) -> RectV {
    if horiz {
        RectV { x: rat_add(b.x, rat_mul(b.w, acc)), y: b.y, w: rat_mul(b.w, q), h: b.h }
    } else {
        RectV { x: b.x, y: rat_add(b.y, rat_mul(b.h, acc)), w: b.w, h: rat_mul(b.h, q) }
    }
}

/// A single row: each item receives the slice of `b` proportional to its
/// share of the row total, in order. A zero-total row receives zero-area
/// rectangles.
pub open spec fn row_math(sizes: Seq<Rat>, b: RectV) -> Seq<RectV> {
    let total = rat_sum(sizes);
    if total.n == 0 {
        Seq::new(sizes.len(), |i: int| zero_rect(b))
    } else {
        let horiz = rat_lt(b.h, b.w);
        Seq::new(
            sizes.len(),
            |i: int| row_slice(b, row_acc(sizes, total, i), rat_div(sizes[i], total), horiz),
        )
    }
}

/// The raw aspect metric `(big * b) / (small * (a / b))`: the aspect ratio a
/// row with first-item share `a` and cumulative share `b` would have in a
/// rectangle with long side `big` and short side `small`.
pub open spec fn aspect_math(big: Rat, small: Rat, a: Rat, b: Rat) -> Rat {
    rat_div(rat_mul(big, b), rat_mul(small, rat_div(a, b)))
}

/// The normalised aspect metric: at least one, larger is worse.
pub open spec fn norm_aspect_math(big: Rat, small: Rat, a: Rat, b: Rat) -> Rat {
    let x = aspect_math(big, small, a, b);
    if rat_lt(x, rat_one()) {
        rat_div(rat_one(), x)
    } else {
        x
    }
}

/// Greedy row growth: starting from row end `mid` with cumulative share `b`,
/// keep admitting the next candidate while it does not worsen the normalised
/// aspect metric. The row never swallows the last remaining item, so the
/// remainder of a partition step is never empty.
pub open spec fn grow_row(
    sizes: Seq<Rat>,
    total: Rat,
    big: Rat,
    small: Rat,
    a: Rat,
    b: Rat,
    mid: int,
) -> (int, Rat)
    decreases sizes.len() - mid,
{
    if mid + 2 >= sizes.len() {
        (mid, b)
    } else {
        let q = rat_div(sizes[mid], total);
        let cur = norm_aspect_math(big, small, a, b);
        let nxt = norm_aspect_math(big, small, a, rat_add(b, q));
        if rat_lt(cur, nxt) {
            (mid, b)
        } else {
            grow_row(sizes, total, big, small, a, rat_add(b, q), mid + 1)
        }
    }
}

/// The row end chosen by [`grow_row`] stays within the remaining range.
pub proof fn lemma_grow_row_range(
    sizes: Seq<Rat>,
    total: Rat,
    big: Rat,
    small: Rat,
    a: Rat,
    b: Rat,
    mid: int,
)
    requires
        0 <= mid,
        mid + 2 <= sizes.len(),
    ensures
        mid <= grow_row(sizes, total, big, small, a, b, mid).0,
        grow_row(sizes, total, big, small, a, b, mid).0 + 2 <= sizes.len(),
    decreases sizes.len() - mid,
{
    if mid + 2 >= sizes.len() {
    } else {
        let q = rat_div(sizes[mid], total);
        let cur = norm_aspect_math(big, small, a, b);
        let nxt = norm_aspect_math(big, small, a, rat_add(b, q));
        if rat_lt(cur, nxt) {
        } else {
            lemma_grow_row_range(sizes, total, big, small, a, rat_add(b, q), mid + 1);
        }
    }
}

/// The mathematical layout: what the engine computes for a (sorted) size
/// sequence and a bounding rectangle, as a sequence of rectangle values.
pub open spec fn layout_at_math(sizes: Seq<Rat>, b: RectV) -> Seq<RectV>
    decreases sizes.len(),
    via layout_at_math_decreases
{
    let len = sizes.len() as int;
    if len <= 2 {
        row_math(sizes, b)
    } else if b.w.n == 0 || b.h.n == 0 {
        Seq::new(sizes.len(), |i: int| zero_rect(b))
    } else {
        let total = rat_sum(sizes.take(len - 1));
        if total.n == 0 {
            Seq::new(sizes.len(), |i: int| zero_rect(b))
        } else {
            let a = rat_div(sizes[0], total);
            if rat_lt(b.w, b.h) {
                let grown = grow_row(sizes, total, b.h, b.w, a, a, 0);
                let mid = grown.0;
                let bfr = grown.1;
                let hb = rat_mul(b.h, bfr);
                let rect = RectV { x: b.x, y: b.y, w: b.w, h: hb };
                let rect2 = RectV {
                    x: b.x,
                    y: rat_add(b.y, hb),
                    w: b.w,
                    h: rat_mul(b.h, rat_sub(rat_one(), bfr)),
                };
                row_math(sizes.take(mid + 1), rect) + layout_at_math(sizes.skip(mid + 1), rect2)
            } else {
                let grown = grow_row(sizes, total, b.w, b.h, a, a, 0);
                let mid = grown.0;
                let bfr = grown.1;
                let wb = rat_mul(b.w, bfr);
                let rect = RectV { x: b.x, y: b.y, w: wb, h: b.h };
                let rect2 = RectV {
                    x: rat_add(b.x, wb),
                    y: b.y,
                    w: rat_mul(b.w, rat_sub(rat_one(), bfr)),
                    h: b.h,
                };
                row_math(sizes.take(mid + 1), rect) + layout_at_math(sizes.skip(mid + 1), rect2)
            }
        }
    }
}

/// The layout assigns exactly one rectangle per size.
pub proof fn lemma_layout_at_math_len(sizes: Seq<Rat>, b: RectV)
    ensures
        layout_at_math(sizes, b).len() == sizes.len(),
    decreases sizes.len(),
{
    let len = sizes.len() as int;
    if len <= 2 {
    } else if b.w.n == 0 || b.h.n == 0 {
    } else {
        let total = rat_sum(sizes.take(len - 1));
        if total.n == 0 {
        } else {
            let a = rat_div(sizes[0], total);
            if rat_lt(b.w, b.h) {
                lemma_grow_row_range(sizes, total, b.h, b.w, a, a, 0);
                let grown = grow_row(sizes, total, b.h, b.w, a, a, 0);
                let bfr = grown.1;
                let hb = rat_mul(b.h, bfr);
                let rect2 = RectV {
                    x: b.x,
                    y: rat_add(b.y, hb),
                    w: b.w,
                    h: rat_mul(b.h, rat_sub(rat_one(), bfr)),
                };
                lemma_layout_at_math_len(sizes.skip(grown.0 + 1), rect2);
            } else {
                lemma_grow_row_range(sizes, total, b.w, b.h, a, a, 0);
                let grown = grow_row(sizes, total, b.w, b.h, a, a, 0);
                let bfr = grown.1;
                let wb = rat_mul(b.w, bfr);
                let rect2 = RectV {
                    x: rat_add(b.x, wb),
                    y: b.y,
                    w: rat_mul(b.w, rat_sub(rat_one(), bfr)),
                    h: b.h,
                };
                lemma_layout_at_math_len(sizes.skip(grown.0 + 1), rect2);
            }
        }
    }
}

#[via_fn]
proof fn layout_at_math_decreases(sizes: Seq<Rat>, b: RectV) {
    let len = sizes.len() as int;
    if len > 2 && b.w.n != 0 && b.h.n != 0 {
        let total = rat_sum(sizes.take(len - 1));
        if total.n != 0 {
            let a = rat_div(sizes[0], total);
            if rat_lt(b.w, b.h) {
                lemma_grow_row_range(sizes, total, b.h, b.w, a, a, 0);
            } else {
                lemma_grow_row_range(sizes, total, b.w, b.h, a, a, 0);
            }
        }
    }
}

/// The sum of a sequence of well-formed rationals is well formed.
pub proof fn lemma_rat_sum_wf(s: Seq<Rat>)
    requires
        all_rats_wf(s),
    ensures
        rat_wf(rat_sum(s)),
    decreases s.len(),
{
    if s.len() == 0 {
    } else {
        lemma_rat_sum_wf(s.drop_last());
        assert(rat_wf(rat_add(rat_sum(s.drop_last()), s.last()))) by (nonlinear_arith)
            requires
                rat_wf(rat_sum(s.drop_last())),
                rat_wf(s.last()),
        ;
    }
}

/// The sum of non-negative rationals is non-negative.
pub proof fn lemma_rat_sum_nonneg(s: Seq<Rat>)
    requires
        all_rats_wf(s),
        all_rats_nonneg(s),
    ensures
        rat_wf(rat_sum(s)),
        rat_le(rat_zero(), rat_sum(s)),
    decreases s.len(),
{
    if s.len() == 0 {
    } else {
        lemma_rat_sum_nonneg(s.drop_last());
        assert(rat_wf(rat_add(rat_sum(s.drop_last()), s.last())) && rat_le(
            rat_zero(),
            rat_add(rat_sum(s.drop_last()), s.last()),
        )) by (nonlinear_arith)
            requires
                rat_wf(rat_sum(s.drop_last())),
                rat_wf(s.last()),
                rat_le(rat_zero(), rat_sum(s.drop_last())),
                rat_le(rat_zero(), s.last()),
        ;
    }
}

/// A sum of zero-valued rationals has a zero numerator.
pub proof fn lemma_rat_sum_zero(s: Seq<Rat>)
    requires
        forall|k: int| 0 <= k < s.len() ==> (#[trigger] s[k]).n == 0,
    ensures
        rat_sum(s).n == 0,
    decreases s.len(),
{
    if s.len() == 0 {
    } else {
        lemma_rat_sum_zero(s.drop_last());
    }
}

/// In a non-increasing, non-negative size sequence whose sum is not zero,
/// the first size is positive.
pub proof fn lemma_first_pos(s: Seq<Rat>)
    requires
        s.len() > 0,
        all_rats_wf(s),
        all_rats_nonneg(s),
        forall|i: int, j: int| 0 <= i <= j < s.len() ==> rat_le(#[trigger] s[j], #[trigger] s[i]),
        rat_sum(s).n != 0,
    ensures
        s[0].n > 0,
{
    if s[0].n <= 0 {
        assert forall|k: int| 0 <= k < s.len() implies (#[trigger] s[k]).n == 0 by {
            assert(rat_le(s[k], s[0]));
            assert(s[k].n == 0) by (nonlinear_arith)
                requires
                    rat_wf(s[k]),
                    rat_wf(s[0]),
                    rat_le(rat_zero(), s[k]),
                    rat_le(s[k], s[0]),
                    s[0].n <= 0,
            ;
        }
        lemma_rat_sum_zero(s);
    }
}

/// The raw aspect metric over [`Frac`] values. The arguments must be
/// non-zero so that the divisions are defined.
fn aspect(big: &Frac, small: &Frac, a: &Frac, b: &Frac) -> (r: Frac)
    requires
        big.wf(),
        small.wf(),
        a.wf(),
        b.wf(),
        big@.n != 0,
        small@.n != 0,
        a@.n != 0,
        b@.n != 0,
    ensures
        r@ == aspect_math(big@, small@, a@, b@),
        r.wf(),
        r@.n != 0,
{
    let ab = a.div(b);
    proof {
        assert(a@.n * b@.d != 0) by (nonlinear_arith)
            requires
                a@.n != 0,
                b@.d > 0,
        ;
    }
    let den = small.mul(&ab);
    proof {
        assert(small@.n * ab@.n != 0) by (nonlinear_arith)
            requires
                small@.n != 0,
                ab@.n != 0,
        ;
    }
    let num = big.mul(b);
    proof {
        assert(big@.n * b@.n != 0) by (nonlinear_arith)
            requires
                big@.n != 0,
                b@.n != 0,
        ;
    }
    let r = num.div(&den);
    proof {
        assert(num@.n * den@.d != 0) by (nonlinear_arith)
            requires
                num@.n != 0,
                den@.d > 0,
        ;
    }
    r
}

/// The normalised aspect metric over [`Frac`] values.
fn norm_aspect(big: &Frac, small: &Frac, a: &Frac, b: &Frac) -> (r: Frac)
    requires
        big.wf(),
        small.wf(),
        a.wf(),
        b.wf(),
        big@.n != 0,
        small@.n != 0,
        a@.n != 0,
        b@.n != 0,
    ensures
        r@ == norm_aspect_math(big@, small@, a@, b@),
        r.wf(),
{
    let x = aspect(big, small, a, b);
    let one = Frac::one();
    if x.lt(&one) {
        one.div(&x)
    } else {
        x
    }
}

/// The layout engine.
pub struct TreemapLayout {}

impl TreemapLayout {
    pub fn new() -> (r: Self) {
        TreemapLayout {  }
    }

    /// The sum of the sizes of `items[start..end]`.
    fn total_item_size<T: Mappable>(&self, items: &Vec<T>, start: usize, end: usize) -> (total:
        Frac)
        requires
            all_inv(items@),
            start <= end <= items@.len(),
        ensures
            total@ == rat_sum(sizes_of(items@).subrange(start as int, end as int)),
            total.wf(),
    {
        let mut total = Frac::zero();
        let mut i: usize = start;
        proof {
            assert(sizes_of(items@).subrange(start as int, start as int) =~= Seq::<Rat>::empty());
        }
        while i < end
            invariant
                start <= i <= end <= items@.len(),
                all_inv(items@),
                total@ == rat_sum(sizes_of(items@).subrange(start as int, i as int)),
                total.wf(),
            decreases end - i,
        {
            let s = items[i].size();
            total = total.add(&s);
            proof {
                let sz = sizes_of(items@);
                assert(sz.subrange(start as int, i as int + 1).drop_last() =~= sz.subrange(
                    start as int,
                    i as int,
                ));
                assert(sz.subrange(start as int, i as int + 1).last() == sz[i as int]);
                assert(sz[i as int] == items@[i as int].size_v());
            }
            i = i + 1;
        }
        total
    }

    /// Give every item of `items[start..end]` the zero-area rectangle at the
    /// origin of `bounds` (the guard policy for degenerate geometry).
    fn zero_fill<T: Mappable>(&self, items: &mut Vec<T>, start: usize, end: usize, bounds: &Rect)
        requires
            all_inv(old(items)@),
            start <= end <= old(items)@.len(),
            rect_wf(bounds@),
        ensures
            final(items)@.len() == old(items)@.len(),
            all_inv(final(items)@),
            sizes_of(final(items)@) == sizes_of(old(items)@),
            forall|k: int|
                0 <= k < old(items)@.len() && !(start <= k < end) ==> final(items)@[k] == old(
                    items,
                )@[k],
            forall|k: int|
                start <= k < end ==> #[trigger] final(items)@[k].bounds_v() == zero_rect(bounds@),
    {
        let ghost orig: Seq<T> = items@;
        let mut i: usize = start;
        while i < end
            invariant
                start <= i <= end <= items@.len(),
                items@.len() == orig.len(),
                all_inv(items@),
                rect_wf(bounds@),
                sizes_of(items@) == sizes_of(orig),
                forall|k: int| 0 <= k < orig.len() && !(start <= k < i) ==> items@[k] == orig[k],
                forall|k: int|
                    start <= k < i ==> #[trigger] items@[k].bounds_v() == zero_rect(bounds@),
            decreases end - i,
        {
            let ghost pre: Seq<T> = items@;
            let r = Rect::from_points(
                bounds.x.clone_frac(),
                bounds.y.clone_frac(),
                Frac::zero(),
                Frac::zero(),
            );
            items[i].set_bounds(r);
            proof {
                assert(sizes_of(items@) =~= sizes_of(pre));
            }
            i = i + 1;
        }
        proof {
            assert(sizes_of(items@) =~= sizes_of(orig));
        }
    }

    /// Lay out `items[start..end]` as one row filling `bounds`.
    fn layout_row<T: Mappable>(&self, items: &mut Vec<T>, start: usize, end: usize, bounds: Rect)
        requires
            all_inv(old(items)@),
            start <= end <= old(items)@.len(),
            rect_wf(bounds@),
        ensures
            final(items)@.len() == old(items)@.len(),
            all_inv(final(items)@),
            sizes_of(final(items)@) == sizes_of(old(items)@),
            forall|k: int|
                0 <= k < old(items)@.len() && !(start <= k < end) ==> final(items)@[k] == old(
                    items,
                )@[k],
            forall|k: int|
                start <= k < end ==> #[trigger] final(items)@[k].bounds_v() == row_math(
                    sizes_of(old(items)@).subrange(start as int, end as int),
                    bounds@,
                )[k - start],
    {
        let ghost orig: Seq<T> = items@;
        let ghost row_sizes: Seq<Rat> = sizes_of(orig).subrange(start as int, end as int);
        let ghost out: Seq<RectV> = row_math(row_sizes, bounds@);
        let total = self.total_item_size(items, start, end);
        if total.is_zero() {
            self.zero_fill(items, start, end, &bounds);
        } else {
            let is_horizontal = bounds.w.gt(&bounds.h);
            let mut acc = Frac::zero();
            let mut i: usize = start;
            while i < end
                invariant
                    start <= i <= end <= items@.len(),
                    items@.len() == orig.len(),
                    all_inv(items@),
                    rect_wf(bounds@),
                    sizes_of(items@) == sizes_of(orig),
                    out == row_math(row_sizes, bounds@),
                    row_sizes == sizes_of(orig).subrange(start as int, end as int),
                    total@ == rat_sum(row_sizes),
                    total@.n != 0,
                    total.wf(),
                    is_horizontal == rat_lt(bounds@.h, bounds@.w),
                    acc@ == row_acc(row_sizes, total@, i - start),
                    acc.wf(),
                    forall|k: int|
                        0 <= k < orig.len() && !(start <= k < i) ==> items@[k] == orig[k],
                    forall|k: int|
                        start <= k < i ==> #[trigger] items@[k].bounds_v() == out[k - start],
                decreases end - i,
            {
                let ghost pre: Seq<T> = items@;
                let s = items[i].size();
                let q = s.div(&total);
                proof {
                    assert(row_sizes[i - start] == items@[i as int].size_v());
                }
                let r = if is_horizontal {
                    Rect::from_points(
                        bounds.x.add(&bounds.w.mul(&acc)),
                        bounds.y.clone_frac(),
                        bounds.w.mul(&q),
                        bounds.h.clone_frac(),
                    )
                } else {
                    Rect::from_points(
                        bounds.x.clone_frac(),
                        bounds.y.add(&bounds.h.mul(&acc)),
                        bounds.w.clone_frac(),
                        bounds.h.mul(&q),
                    )
                };
                items[i].set_bounds(r);
                acc = acc.add(&q);
                proof {
                    assert(sizes_of(items@) =~= sizes_of(pre));
                    assert(items@[i as int].bounds_v() == row_slice(
                        bounds@,
                        row_acc(row_sizes, total@, i - start),
                        rat_div(row_sizes[i - start], total@),
                        rat_lt(bounds@.h, bounds@.w),
                    ));
                    assert(items@[i as int].bounds_v() == out[i - start]);
                }
                i = i + 1;
            }
        }
        proof {
            assert(sizes_of(items@) =~= sizes_of(orig));
        }
    }

    /// Recursively partition `bounds` among `items[start..]`: pick a row by
    /// the greedy aspect heuristic, lay it out in its share of the bounds,
    /// and recurse on the remainder in the residual rectangle.
    #[verifier::rlimit(60)]
    fn layout_items_at<T: Mappable>(&self, items: &mut Vec<T>, start: usize, bounds: Rect)
        requires
            all_inv(old(items)@),
            start <= old(items)@.len(),
            rect_wf(bounds@),
            all_rats_nonneg(sizes_of(old(items)@).skip(start as int)),
            sorted_desc_from(old(items)@, start as int),
        ensures
            final(items)@.len() == old(items)@.len(),
            all_inv(final(items)@),
            sizes_of(final(items)@) == sizes_of(old(items)@),
            forall|k: int| 0 <= k < start ==> final(items)@[k] == old(items)@[k],
            forall|k: int|
                start <= k < final(items)@.len() ==> #[trigger] final(items)@[k].bounds_v()
                    == layout_at_math(sizes_of(old(items)@).skip(start as int), bounds@)[k - start],
        decreases old(items)@.len() - start,
    {
        let n = items.len();
        let ghost orig: Seq<T> = items@;
        let ghost sub: Seq<Rat> = sizes_of(orig).skip(start as int);
        let ghost out: Seq<RectV> = layout_at_math(sub, bounds@);
        let ghost len: int = sub.len() as int;
        proof {
            assert forall|k: int| 0 <= k < sub.len() implies rat_wf(#[trigger] sub[k]) by {
                assert(sub[k] == orig[start + k].size_v());
                orig[start + k].lemma_inv();
            }
        }
        if n - start <= 2 {
            self.layout_row(items, start, n, bounds);
            proof {
                assert(sub =~= sizes_of(orig).subrange(start as int, n as int));
            }
            return ;
        }
        if bounds.w.is_zero() || bounds.h.is_zero() {
            self.zero_fill(items, start, n, &bounds);
            return ;
        }
        let total = self.total_item_size(items, start, n - 1);
        proof {
            assert(sub.take(len - 1) =~= sizes_of(orig).subrange(start as int, n as int - 1));
        }
        if total.is_zero() {
            self.zero_fill(items, start, n, &bounds);
            return ;
        }
        proof {
            let head = sub.take(len - 1);
            assert forall|k: int| 0 <= k < head.len() implies rat_wf(#[trigger] head[k]) && rat_le(
                rat_zero(),
                head[k],
            ) by {
                assert(head[k] == sub[k]);
            }
            assert forall|i: int, j: int| 0 <= i <= j < head.len() implies rat_le(
                #[trigger] head[j],
                #[trigger] head[i],
            ) by {
                assert(head[i] == sub[i] && sub[i] == orig[start + i].size_v());
                assert(head[j] == sub[j] && sub[j] == orig[start + j].size_v());
            }
            lemma_rat_sum_nonneg(head);
            lemma_first_pos(head);
            assert(sub[0].n > 0);
            assert(total@.n > 0);
        }
        let s0 = items[start].size();
        let a = s0.div(&total);
        proof {
            assert(s0@ == sub[0]);
            assert(a@ == rat_div(sub[0], rat_sum(sub.take(len - 1))));
            assert(a@.n == sub[0].n * total@.d && a@.d == sub[0].d * total@.n);
            assert(a@.n > 0) by (nonlinear_arith)
                requires
                    a@.n == sub[0].n * total@.d,
                    sub[0].n > 0,
                    total@.d > 0,
            ;
            assert(rat_lt(rat_zero(), a@));
            assert(rat_lt(rat_zero(), total@));
        }
        let vertical = bounds.w.lt(&bounds.h);
        let big = if vertical {
            bounds.h.clone_frac()
        } else {
            bounds.w.clone_frac()
        };
        let small = if vertical {
            bounds.w.clone_frac()
        } else {
            bounds.h.clone_frac()
        };
        let ghost bigv: Rat = big@;
        let ghost smallv: Rat = small@;
        let ghost target: (int, Rat) = grow_row(sub, total@, bigv, smallv, a@, a@, 0);
        let mut mid: usize = start;
        let mut bfr = a.clone_frac();
        let mut searching: bool = true;
        while searching && mid < n - 2
            invariant
                start <= mid <= n - 2,
                start + 2 < n <= items@.len(),
                items@ == orig,
                all_inv(orig),
                sub == sizes_of(orig).skip(start as int),
                len == sub.len(),
                n - start == len,
                all_rats_wf(sub),
                all_rats_nonneg(sub),
                total.wf(),
                rat_lt(rat_zero(), total@),
                total@.n > 0,
                a.wf(),
                rat_lt(rat_zero(), a@),
                big.wf(),
                small.wf(),
                big@ == bigv,
                small@ == smallv,
                bigv.n != 0,
                smallv.n != 0,
                bfr.wf(),
                rat_lt(rat_zero(), bfr@),
                grow_row(sub, total@, bigv, smallv, a@, bfr@, mid - start) == target,
                !searching ==> (mid - start) + 2 < len && rat_lt(
                    norm_aspect_math(bigv, smallv, a@, bfr@),
                    norm_aspect_math(
                        bigv,
                        smallv,
                        a@,
                        rat_add(bfr@, rat_div(sub[mid - start], total@)),
                    ),
                ),
            decreases (if searching {
                1int
            } else {
                0int
            }), n - mid,
        {
            let sm = items[mid].size();
            let q = sm.div(&total);
            proof {
                assert(sm@ == sub[mid - start]);
                lemma_rat_div_nonneg(sm@, total@);
            }
            let cur = norm_aspect(&big, &small, &a, &bfr);
            let bq = bfr.add(&q);
            proof {
                lemma_rat_add_pos(bfr@, q@);
            }
            let nxt = norm_aspect(&big, &small, &a, &bq);
            if cur.lt(&nxt) {
                searching = false;
            } else {
                mid = mid + 1;
                bfr = bq;
            }
        }
        proof {
            assert(target == ((mid - start) as int, bfr@));
        }
        let rect: Rect;
        let rect2: Rect;
        if vertical {
            let hb = bounds.h.mul(&bfr);
            rect = Rect::from_points(
                bounds.x.clone_frac(),
                bounds.y.clone_frac(),
                bounds.w.clone_frac(),
                hb.clone_frac(),
            );
            rect2 = Rect::from_points(
                bounds.x.clone_frac(),
                bounds.y.add(&hb),
                bounds.w.clone_frac(),
                bounds.h.mul(&Frac::one().sub(&bfr)),
            );
        } else {
            let wb = bounds.w.mul(&bfr);
            rect = Rect::from_points(
                bounds.x.clone_frac(),
                bounds.y.clone_frac(),
                wb.clone_frac(),
                bounds.h.clone_frac(),
            );
            rect2 = Rect::from_points(
                bounds.x.add(&wb),
                bounds.y.clone_frac(),
                bounds.w.mul(&Frac::one().sub(&bfr)),
                bounds.h.clone_frac(),
            );
        }
        proof {
            assert(out == row_math(sub.take(mid - start + 1), rect@) + layout_at_math(
                sub.skip(mid - start + 1),
                rect2@,
            ));
        }
        self.layout_row(items, start, mid + 1, rect);
        let ghost after_row: Seq<T> = items@;
        proof {
            assert(sizes_of(after_row).skip(mid as int + 1) =~= sub.skip(mid - start + 1));
            assert forall|k: int|
                0 <= k < sizes_of(after_row).skip(mid as int + 1).len() implies rat_le(
                rat_zero(),
                #[trigger] sizes_of(after_row).skip(mid as int + 1)[k],
            ) by {
                assert(sizes_of(after_row).skip(mid as int + 1)[k] == sub[mid - start + 1 + k]);
            }
            assert forall|i: int, j: int|
                mid + 1 <= i <= j < after_row.len() implies rat_le(
                #[trigger] after_row[j].size_v(),
                #[trigger] after_row[i].size_v(),
            ) by {
                assert(after_row[i].size_v() == sizes_of(after_row)[i]);
                assert(after_row[j].size_v() == sizes_of(after_row)[j]);
                assert(sizes_of(after_row)[i] == sizes_of(orig)[i]);
                assert(sizes_of(after_row)[j] == sizes_of(orig)[j]);
                assert(orig[i].size_v() == sizes_of(orig)[i]);
                assert(orig[j].size_v() == sizes_of(orig)[j]);
            }
        }
        self.layout_items_at(items, mid + 1, rect2);
        proof {
            assert(sizes_of(items@) =~= sizes_of(orig));
            lemma_layout_at_math_len(sub.skip(mid - start + 1), rect2@);
            lemma_layout_at_math_len(sizes_of(after_row).skip(mid as int + 1), rect2@);
            let row_out = row_math(sub.take(mid - start + 1), rect@);
            assert(sub.take(mid - start + 1) =~= sizes_of(orig).subrange(
                start as int,
                mid as int + 1,
            ));
            assert forall|k: int| start <= k < items@.len() implies #[trigger] items@[k].bounds_v()
                == out[k - start] by {
                if k <= mid {
                    assert(items@[k] == after_row[k]);
                    assert(after_row[k].bounds_v() == row_math(
                        sizes_of(orig).subrange(start as int, mid as int + 1),
                        rect@,
                    )[k - start]);
                    assert(out[k - start] == row_out[k - start]);
                } else {
                    assert(items@[k].bounds_v() == layout_at_math(
                        sizes_of(after_row).skip(mid as int + 1),
                        rect2@,
                    )[k - (mid + 1)]);
                    assert(out[k - start] == layout_at_math(sub.skip(mid - start + 1), rect2@)[k
                        - start - (mid - start + 1)]);
                }
            }
        }
    }

    /// Lay out all items into `bounds`: sort by descending size, then
    /// recursively partition. Afterwards the items are the stable descending
    /// permutation of the input, and each item's bounds is the corresponding
    /// rectangle of the mathematical layout of the sorted sizes.
    pub fn layout_items<T: Mappable>(&self, items: &mut Vec<T>, bounds: Rect)
        requires
            all_inv(old(items)@),
            all_rats_nonneg(sizes_of(old(items)@)),
            rect_valid(bounds@),
        ensures
            final(items)@.len() == old(items)@.len(),
            all_inv(final(items)@),
            sizes_of(final(items)@) == sizes_of(sort_spec(old(items)@)),
            sorted_desc(final(items)@),
            forall|k: int|
                0 <= k < final(items)@.len() ==> #[trigger] final(items)@[k].bounds_v()
                    == layout_at_math(sizes_of(sort_spec(old(items)@)), bounds@)[k],
    {
        let ghost orig: Seq<T> = items@;
        sort_descending(items);
        let ghost sorted: Seq<T> = items@;
        proof {
            lemma_elems_from_multiset(orig, sorted);
            assert forall|k: int| 0 <= k < sizes_of(sorted).len() implies rat_le(
                rat_zero(),
                #[trigger] sizes_of(sorted)[k],
            ) by {
                assert(orig.contains(sorted[k]));
                let i = choose|i: int| 0 <= i < orig.len() && orig[i] == sorted[k];
                assert(sizes_of(orig)[i] == orig[i].size_v());
                assert(sizes_of(sorted)[k] == sorted[k].size_v());
            }
            assert(sizes_of(sorted).skip(0) =~= sizes_of(sorted));
        }
        self.layout_items_at(items, 0, bounds);
        proof {
            assert(sizes_of(items@) == sizes_of(sorted));
            lemma_layout_at_math_len(sizes_of(sorted), bounds@);
            assert forall|i: int, j: int| 0 <= i <= j < items@.len() implies rat_le(
                #[trigger] items@[j].size_v(),
                #[trigger] items@[i].size_v(),
            ) by {
                assert(items@[i].size_v() == sizes_of(items@)[i]);
                assert(items@[j].size_v() == sizes_of(items@)[j]);
                assert(sorted[i].size_v() == sizes_of(sorted)[i]);
                assert(sorted[j].size_v() == sizes_of(sorted)[j]);
            }
        }
    }
}

} // verus!
