use vstd::prelude::*;
use vstd::math::abs;
use crate::scalar::{Scalar, is_one_value, is_sum, is_difference, is_product, is_quotient, is_square_root};

verus! {

/// A point, or vector, in the plane.
#[derive(Debug, Clone, Copy, PartialEq)]
pub struct Point<T> {
    pub x: T,
    pub y: T,
}

/// `s` holds the powers `x^0 .. x^n`, each the one before times `x`,
/// starting from one.
pub open spec fn powers<T: Scalar>(x: T, s: Seq<T>) -> bool {
    &&& s.len() >= 1
    &&& is_one_value(s[0])
    &&& forall|k: int| 0 <= k < s.len() - 1 ==> is_product(s[k], x, #[trigger] s[k + 1])
}

/// `r` is `x` to the power `k`: one multiplied `|k|` times by `x`, and
/// for a negative `k` one divided by that.
pub open spec fn is_power<T: Scalar>(x: T, k: int, r: T) -> bool {
    exists|s: Seq<T>| #[trigger] powers(x, s) && s.len() == abs(k) + 1 && (
        if k >= 0 { r == s.last() } else { exists|u: T| is_one_value(u) && is_quotient(u, s.last(), r) })
}

/// `r` is the Euclidean distance from `a` to `b`: the square root of the
/// sum of the squared coordinate differences.
pub open spec fn is_distance<T: Scalar>(a: Point<T>, b: Point<T>, r: T) -> bool {
    exists|dx: T, dy: T, sx: T, sy: T, s: T|
        #![trigger is_difference(a.x, b.x, dx), is_difference(a.y, b.y, dy), is_sum(sx, sy, s)]
    {
        &&& is_difference(a.x, b.x, dx)
        &&& is_difference(a.y, b.y, dy)
        &&& is_product(dx, dx, sx)
        &&& is_product(dy, dy, sy)
        &&& is_sum(sx, sy, s)
        &&& is_square_root(s, r)
    }
}

/// `r` is the sum of the squares of the coordinates of `p`.
pub open spec fn is_norm_squared<T: Scalar>(p: Point<T>, r: T) -> bool {
    exists|sx: T, sy: T| is_product(p.x, p.x, sx) && is_product(p.y, p.y, sy) && #[trigger] is_sum(sx, sy, r)
}

/// `x` to the power `amount`.
pub fn power_of<T: Scalar>(x: T, amount: i32) -> (r: T)
    ensures
        is_power(x, amount as int, r),
{
    let n: u32 = if amount >= 0 { amount as u32 } else { (0 - (amount as i64)) as u32 };
    let mut acc = T::one();
    let ghost mut s: Seq<T> = seq![acc];
    let mut k: u32 = 0;
    while k < n
        invariant
            k <= n,
            n == abs(amount as int),
            s.len() == k + 1,
            powers(x, s),
            s.last() == acc,
        decreases n - k,
    {
        let next = acc.times(x);
        proof {
            s = s.push(next);
        }
        acc = next;
        k = k + 1;
    }
    if amount >= 0 {
        assert(powers(x, s));
        acc
    } else {
        let u = T::one();
        let r = u.divided_by(acc);
        assert(is_one_value(u) && is_quotient(u, s.last(), r));
        assert(powers(x, s));
        r
    }
}

impl<T: Scalar> Point<T> {
    pub fn new(x: T, y: T) -> (r: Self)
        ensures
            r.x == x,
            r.y == y,
    {
        Point { x, y }
    }

    /// The Euclidean distance to `pt`.
    pub fn distance_to(&self, pt: &Point<T>) -> (r: T)
        ensures
            is_distance(*self, *pt, r),
    {
        let dx = self.x.minus(pt.x);
        let dy = self.y.minus(pt.y);
        let sx = dx.times(dx);
        let sy = dy.times(dy);
        let s = sx.plus(sy);
        let r = s.square_root();
        assert(is_difference(self.x, pt.x, dx) && is_difference(self.y, pt.y, dy) && is_sum(sx, sy, s));
        r
    }

    /// Each coordinate to the power `amount`.
    pub fn pow(&self, amount: i32) -> (r: Point<T>)
        ensures
            is_power(self.x, amount as int, r.x),
            is_power(self.y, amount as int, r.y),
    {
        Point { x: power_of(self.x, amount), y: power_of(self.y, amount) }
    }

    /// The sum of the coordinates.
    pub fn sum(&self) -> (r: T)
        ensures
            is_sum(self.x, self.y, r),
    {
        self.x.plus(self.y)
    }

    /// The sum of the squares of the coordinates.
    pub fn norm_squared(&self) -> (r: T)
        ensures
            is_norm_squared(*self, r),
    {
        let sx = self.x.times(self.x);
        let sy = self.y.times(self.y);
        let r = sx.plus(sy);
        assert(is_sum(sx, sy, r));
        r
    }

    /// The point with its coordinates exchanged.
    pub fn invert(&self) -> (r: Point<T>)
        ensures
            r.x == self.y,
            r.y == self.x,
    {
        Point { x: self.y, y: self.x }
    }

    /// The coordinatewise sum.
    pub fn plus(&self, rhs: &Point<T>) -> (r: Point<T>)
        ensures
            is_sum(self.x, rhs.x, r.x),
            is_sum(self.y, rhs.y, r.y),
    {
        Point { x: self.x.plus(rhs.x), y: self.y.plus(rhs.y) }
    }

    /// The coordinatewise difference.
    pub fn minus(&self, rhs: &Point<T>) -> (r: Point<T>)
        ensures
            is_difference(self.x, rhs.x, r.x),
            is_difference(self.y, rhs.y, r.y),
    {
        Point { x: self.x.minus(rhs.x), y: self.y.minus(rhs.y) }
    }

    /// The coordinatewise product.
    pub fn times(&self, rhs: &Point<T>) -> (r: Point<T>)
        ensures
            is_product(self.x, rhs.x, r.x),
            is_product(self.y, rhs.y, r.y),
    {
        Point { x: self.x.times(rhs.x), y: self.y.times(rhs.y) }
    }

    /// The coordinatewise quotient.
    pub fn divided_by(&self, rhs: &Point<T>) -> (r: Point<T>)
        ensures
            is_quotient(self.x, rhs.x, r.x),
            is_quotient(self.y, rhs.y, r.y),
    {
        Point { x: self.x.divided_by(rhs.x), y: self.y.divided_by(rhs.y) }
    }

    /// `s` added to both coordinates.
    pub fn plus_scalar(&self, s: T) -> (r: Point<T>)
        ensures
            is_sum(self.x, s, r.x),
            is_sum(self.y, s, r.y),
    {
        Point { x: self.x.plus(s), y: self.y.plus(s) }
    }

    /// `s` taken from both coordinates.
    pub fn minus_scalar(&self, s: T) -> (r: Point<T>)
        ensures
            is_difference(self.x, s, r.x),
            is_difference(self.y, s, r.y),
    {
        Point { x: self.x.minus(s), y: self.y.minus(s) }
    }

    /// Both coordinates multiplied by `s`.
    pub fn times_scalar(&self, s: T) -> (r: Point<T>)
        ensures
            is_product(self.x, s, r.x),
            is_product(self.y, s, r.y),
    {
        Point { x: self.x.times(s), y: self.y.times(s) }
    }

    /// Both coordinates divided by `s`.
    pub fn divided_by_scalar(&self, s: T) -> (r: Point<T>)
        ensures
            is_quotient(self.x, s, r.x),
            is_quotient(self.y, s, r.y),
    {
        Point { x: self.x.divided_by(s), y: self.y.divided_by(s) }
    }
}

} // verus!
