//! The item capability and its plain implementation.

use vstd::prelude::*;
use crate::frac::Frac;
use crate::rat::{Rat, rat_wf, rat_one, rat_zero};
use crate::rect::{Rect, RectV, rect_wf};

verus! {

/// Interface representing an object that can be placed in a treemap layout.
///
/// An item exposes a numeric `size` (its weight: the area it receives is
/// proportional to it) and a mutable `bounds` rectangle, which the layout
/// engine overwrites.
pub trait Mappable: Sized {
    /// The item's weight, as a ghost rational.
    spec fn size_v(&self) -> Rat;

    /// The item's bounding rectangle, as a ghost value.
    spec fn bounds_v(&self) -> RectV;

    /// The item's internal well-formedness.
    spec fn inv(&self) -> bool;

    /// A well-formed item has a well-formed size and bounds.
    proof fn lemma_inv(&self)
        requires
            self.inv(),
        ensures
            rat_wf(self.size_v()),
            rect_wf(self.bounds_v()),
    ;

    fn size(&self) -> (s: Frac)
        requires
            self.inv(),
        ensures
            s@ == self.size_v(),
            s.wf(),
    ;

    fn bounds(&self) -> (r: &Rect)
        requires
            self.inv(),
        ensures
            r@ == self.bounds_v(),
    ;

    fn set_bounds(&mut self, bounds: Rect)
        requires
            old(self).inv(),
            rect_wf(bounds@),
        ensures
            final(self).inv(),
            final(self).size_v() == old(self).size_v(),
            final(self).bounds_v() == bounds@,
    ;
}

/// A plain item: a weight and a bounding rectangle.
pub struct MapItem {
    size: Frac,
    bounds: Rect,
}

impl MapItem {
    /// An item of unit size.
    pub fn new() -> (r: MapItem)
        ensures
            r.size_v() == rat_one(),
            r.bounds_v() == (RectV { x: rat_zero(), y: rat_zero(), w: rat_one(), h: rat_one() }),
            r.inv(),
    {
        MapItem::with_size(Frac::one())
    }

    /// An item of the given size, with unit-square bounds.
    pub fn with_size(size: Frac) -> (r: MapItem)
        requires
            size.wf(),
        ensures
            r.size_v() == size@,
            r.bounds_v() == (RectV { x: rat_zero(), y: rat_zero(), w: rat_one(), h: rat_one() }),
            r.inv(),
    {
        MapItem { size, bounds: Rect::new() }
    }
}

impl Mappable for MapItem {
    closed spec fn size_v(&self) -> Rat {
        self.size@
    }

    closed spec fn bounds_v(&self) -> RectV {
        self.bounds@
    }

    closed spec fn inv(&self) -> bool {
        self.size.wf() && self.bounds.wf()
    }

    proof fn lemma_inv(&self) {
    }

    fn size(&self) -> (s: Frac) {
        self.size.clone_frac()
    }

    fn bounds(&self) -> (r: &Rect) {
        &self.bounds
    }

    fn set_bounds(&mut self, bounds: Rect) {
        self.bounds = bounds;
    }
}

} // verus!
