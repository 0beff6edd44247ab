use vstd::prelude::*;
use crate::point::Point;
use crate::scalar::{Scalar, is_sum, is_product, is_square_root, compares_above};

verus! {

/// Whether a shape holds an object.
pub trait Contains<T = Self> {
    fn contains(&self, obj: &T) -> bool;
}

/// An axis-aligned rectangle: its lower corner and its extent.
#[derive(Debug, Clone, Copy)]
pub struct Rectangle<T> {
    pub pt: Point<T>,
    pub width: T,
    pub height: T,
}

/// `r` is the length of the diagonal of a `width` by `height` rectangle.
pub open spec fn is_diagonal<T: Scalar>(width: T, height: T, r: T) -> bool {
    exists|w2: T, h2: T, s: T| #![trigger is_product(width, width, w2), is_product(height, height, h2), is_sum(w2, h2, s)]
    {
        &&& is_product(width, width, w2)
        &&& is_product(height, height, h2)
        &&& is_sum(w2, h2, s)
        &&& is_square_root(s, r)
    }
}

/// `r` says whether `p` lies strictly inside the rectangle at `corner` of the
/// given extent.
pub open spec fn is_strictly_inside<T: Scalar>(corner: Point<T>, width: T, height: T, p: Point<T>, r: bool) -> bool {
    exists|right: T, top: T, b1: bool, b2: bool, b3: bool, b4: bool|
        #![trigger is_sum(corner.x, width, right), is_sum(corner.y, height, top), compares_above(p.x, corner.x, b1), compares_above(p.y, corner.y, b2), compares_above(right, p.x, b3), compares_above(top, p.y, b4)]
    {
        &&& compares_above(p.x, corner.x, b1)
        &&& compares_above(p.y, corner.y, b2)
        &&& is_sum(corner.x, width, right)
        &&& is_sum(corner.y, height, top)
        &&& compares_above(right, p.x, b3)
        &&& compares_above(top, p.y, b4)
        &&& r == (b1 && b2 && b3 && b4)
    }
}

impl<T: Scalar> Rectangle<T> {
    pub fn new(x: T, y: T, width: T, height: T) -> (r: Self)
        ensures
            r.pt.x == x,
            r.pt.y == y,
            r.width == width,
            r.height == height,
    {
        Rectangle { pt: Point::new(x, y), width, height }
    }

    /// The horizontal extent, from its lower to its upper end.
    pub fn x_range(&self) -> (r: (T, T))
        ensures
            r.0 == self.pt.x,
            is_sum(self.pt.x, self.width, r.1),
    {
        (self.pt.x, self.pt.x.plus(self.width))
    }

    /// The vertical extent, from its lower to its upper end.
    pub fn y_range(&self) -> (r: (T, T))
        ensures
            r.0 == self.pt.y,
            is_sum(self.pt.y, self.height, r.1),
    {
        (self.pt.y, self.pt.y.plus(self.height))
    }

    /// The largest distance between two points of the rectangle: its
    /// diagonal.
    pub fn calc_max_span(&self) -> (r: T)
        ensures
            is_diagonal(self.width, self.height, r),
    {
        let w2 = self.width.times(self.width);
        let h2 = self.height.times(self.height);
        let s = w2.plus(h2);
        let r = s.square_root();
        assert(is_product(self.width, self.width, w2) && is_product(self.height, self.height, h2) && is_sum(w2, h2, s));
        r
    }

    /// Whether `p` lies strictly inside.
    pub fn contains_point(&self, p: &Point<T>) -> (r: bool)
        ensures
            is_strictly_inside(self.pt, self.width, self.height, *p, r),
    {
        let b1 = p.x.exceeds(self.pt.x);
        let b2 = p.y.exceeds(self.pt.y);
        let right = self.pt.x.plus(self.width);
        let top = self.pt.y.plus(self.height);
        let b3 = right.exceeds(p.x);
        let b4 = top.exceeds(p.y);
        assert(is_sum(self.pt.x, self.width, right) && is_sum(self.pt.y, self.height, top)
            && compares_above(p.x, self.pt.x, b1) && compares_above(p.y, self.pt.y, b2)
            && compares_above(right, p.x, b3) && compares_above(top, p.y, b4));
        b1 && b2 && b3 && b4
    }
}

impl<T: Scalar> Contains<Point<T>> for Rectangle<T> {
    fn contains(&self, obj: &Point<T>) -> (r: bool)
        ensures
            is_strictly_inside(self.pt, self.width, self.height, *obj, r),
    {
        self.contains_point(obj)
    }
}

} // verus!
