//! The rectangle value type.

use vstd::prelude::*;
use crate::frac::Frac;
use crate::rat::{Rat, rat_wf, rat_zero, rat_one, rat_div, rat_lt, rat_le, rat_eqv};

verus! {

/// A rectangle `{x, y, w, h}` with exact rational coordinates.
pub struct Rect {
    pub x: Frac,
    pub y: Frac,
    pub w: Frac,
    pub h: Frac,
}

/// The ghost value of a rectangle: four rationals.
pub ghost struct RectV {
    pub x: Rat,
    pub y: Rat,
    pub w: Rat,
    pub h: Rat,
}

impl View for Rect {
    type V = RectV;

    open spec fn view(&self) -> RectV {
        RectV { x: self.x@, y: self.y@, w: self.w@, h: self.h@ }
    }
}

/// All four coordinates are well-formed rationals.
pub open spec fn rect_wf(r: RectV) -> bool {
    rat_wf(r.x) && rat_wf(r.y) && rat_wf(r.w) && rat_wf(r.h)
}

/// A rectangle a layout call may be given: well formed, with non-negative
/// width and height.
pub open spec fn rect_valid(r: RectV) -> bool {
    rect_wf(r) && rat_le(rat_zero(), r.w) && rat_le(rat_zero(), r.h)
}

/// The aspect ratio of a rectangle value: `max(w/h, h/w)`, or zero when
/// either dimension is zero (a degenerate rectangle is no layout candidate).
pub open spec fn rect_aspect(r: RectV) -> Rat {
    if r.w.n != 0 && r.h.n != 0 {
        let wh = rat_div(r.w, r.h);
        let hw = rat_div(r.h, r.w);
        if rat_lt(wh, hw) {
            hw
        } else {
            wh
        }
    } else {
        rat_zero()
    }
}

impl Rect {
    /// All four coordinates are well-formed rationals.
    pub open spec fn wf(&self) -> bool {
        rect_wf(self@)
    }

    /// The unit square at the origin.
    pub fn new() -> (r: Rect)
        ensures
            r@ == (RectV { x: rat_zero(), y: rat_zero(), w: rat_one(), h: rat_one() }),
            r.wf(),
    {
        Rect { x: Frac::zero(), y: Frac::zero(), w: Frac::one(), h: Frac::one() }
    }

    /// A rectangle from explicit coordinates.
    pub fn from_points(x: Frac, y: Frac, w: Frac, h: Frac) -> (r: Rect)
        ensures
            r@ == (RectV { x: x@, y: y@, w: w@, h: h@ }),
    {
        Rect { x, y, w, h }
    }

    /// `max(w/h, h/w)`, or zero when either dimension is zero.
    pub fn aspect_ratio(&self) -> (r: Frac)
        requires
            self.wf(),
        ensures
            r@ == rect_aspect(self@),
            r.wf(),
    {
        if !self.h.is_zero() && !self.w.is_zero() {
            let wh = self.w.div(&self.h);
            let hw = self.h.div(&self.w);
            if wh.lt(&hw) {
                hw
            } else {
                wh
            }
        } else {
            Frac::zero()
        }
    }

    /// An exact copy.
    pub fn clone_rect(&self) -> (r: Rect)
        ensures
            r@ == self@,
    {
        Rect {
            x: self.x.clone_frac(),
            y: self.y.clone_frac(),
            w: self.w.clone_frac(),
            h: self.h.clone_frac(),
        }
    }

    /// Value equality, coordinate by coordinate.
    pub fn eq_rect(&self, other: &Rect) -> (r: bool)
        ensures
            r == (rat_eqv(self@.x, other@.x) && rat_eqv(self@.y, other@.y) && rat_eqv(
                self@.w,
                other@.w,
            ) && rat_eqv(self@.h, other@.h)),
    {
        self.x.eq_frac(&other.x) && self.y.eq_frac(&other.y) && self.w.eq_frac(&other.w)
            && self.h.eq_frac(&other.h)
    }
}

impl Default for Rect {
    /// The unit square at the origin.
    fn default() -> (r: Rect)
        ensures
            r@ == (RectV { x: rat_zero(), y: rat_zero(), w: rat_one(), h: rat_one() }),
            r.wf(),
    {
        Rect::new()
    }
}

} // verus!
