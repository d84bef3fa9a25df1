//! Squarified treemap layout over exact rational arithmetic.
//!
//! Given a bounding rectangle and a sequence of weighted items, the layout
//! engine sorts the items by descending weight and recursively partitions the
//! rectangle into rows, so that every item receives a sub-rectangle and the
//! sub-rectangles tile the bounds exactly.
//!
//! All coordinates and weights are exact rationals ([`Frac`]), backed by
//! arbitrary-precision integers, so the geometric contracts hold with
//! mathematical equality rather than up to floating-point rounding.

pub mod bigint;
pub mod frac;
pub mod item;
pub mod laws;
pub mod layout;
pub mod rat;
pub mod rect;
pub mod sort;

pub use frac::Frac;
pub use item::{MapItem, Mappable};
pub use layout::TreemapLayout;
pub use rat::Rat;
pub use rect::Rect;
pub use sort::sort_descending;
