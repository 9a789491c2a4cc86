//! A point, or vector, of three coordinates of one type.
//!
//! The coordinate type is left open: colours are points of `u8`, pixel sums
//! points of `u64`, and a caller may use any type whose operators it has.
//! Contracts speak of the coordinate type's own operators, through the
//! functions that `vstd` names `add_spec`, `mul_spec` and so on.

use std::cmp::Ordering;
use std::ops::{Add, Div, Mul, Neg, Sub};
use vstd::prelude::*;
use vstd::std_specs::cmp::{OrdSpec, PartialEqSpec, PartialOrdIs, PartialOrdSpec};
use vstd::std_specs::ops::{AddSpec, DivSpec, MulSpec, NegSpec, SubSpec};

verus! {

/// Three coordinates.
#[derive(Debug, Clone, Copy)]
pub struct Point<T> {
    pub x: T,
    pub y: T,
    pub z: T,
}

impl<T: PartialEq> PartialEq for Point<T> {
    fn eq(&self, other: &Self) -> (r: bool) {
        self.x == other.x && self.y == other.y && self.z == other.z
    }
}

impl<T: PartialEq> vstd::std_specs::cmp::PartialEqSpecImpl for Point<T> {
    open spec fn obeys_eq_spec() -> bool {
        T::obeys_eq_spec()
    }

    open spec fn eq_spec(&self, other: &Self) -> bool {
        self.x.eq_spec(&other.x) && self.y.eq_spec(&other.y) && self.z.eq_spec(&other.z)
    }
}

impl<T: Eq> Eq for Point<T> {

}

impl<T: Add<Output = T>> Add for Point<T> {
    type Output = Self;

    fn add(self, rhs: Self) -> (r: Self) {
        Point { x: self.x + rhs.x, y: self.y + rhs.y, z: self.z + rhs.z }
    }
}

impl<T: Add<Output = T>> vstd::std_specs::ops::AddSpecImpl for Point<T> {
    open spec fn obeys_add_spec() -> bool {
        T::obeys_add_spec()
    }

    open spec fn add_req(self, rhs: Self) -> bool {
        self.x.add_req(rhs.x) && self.y.add_req(rhs.y) && self.z.add_req(rhs.z)
    }

    open spec fn add_spec(self, rhs: Self) -> Self {
        Point { x: self.x.add_spec(rhs.x), y: self.y.add_spec(rhs.y), z: self.z.add_spec(rhs.z) }
    }
}

impl<T: Sub<Output = T>> Sub for Point<T> {
    type Output = Self;

    fn sub(self, rhs: Self) -> (r: Self) {
        Point { x: self.x - rhs.x, y: self.y - rhs.y, z: self.z - rhs.z }
    }
}

impl<T: Sub<Output = T>> vstd::std_specs::ops::SubSpecImpl for Point<T> {
    open spec fn obeys_sub_spec() -> bool {
        T::obeys_sub_spec()
    }

    open spec fn sub_req(self, rhs: Self) -> bool {
        self.x.sub_req(rhs.x) && self.y.sub_req(rhs.y) && self.z.sub_req(rhs.z)
    }

    open spec fn sub_spec(self, rhs: Self) -> Self {
        Point { x: self.x.sub_spec(rhs.x), y: self.y.sub_spec(rhs.y), z: self.z.sub_spec(rhs.z) }
    }
}

impl<T: Mul<Output = T>> Mul for Point<T> {
    type Output = Self;

    fn mul(self, rhs: Self) -> (r: Self) {
        Point { x: self.x * rhs.x, y: self.y * rhs.y, z: self.z * rhs.z }
    }
}

impl<T: Mul<Output = T>> vstd::std_specs::ops::MulSpecImpl for Point<T> {
    open spec fn obeys_mul_spec() -> bool {
        T::obeys_mul_spec()
    }

    open spec fn mul_req(self, rhs: Self) -> bool {
        self.x.mul_req(rhs.x) && self.y.mul_req(rhs.y) && self.z.mul_req(rhs.z)
    }

    open spec fn mul_spec(self, rhs: Self) -> Self {
        Point { x: self.x.mul_spec(rhs.x), y: self.y.mul_spec(rhs.y), z: self.z.mul_spec(rhs.z) }
    }
}

impl<T: Div<Output = T>> Div for Point<T> {
    type Output = Self;

    fn div(self, rhs: Self) -> (r: Self) {
        Point { x: self.x / rhs.x, y: self.y / rhs.y, z: self.z / rhs.z }
    }
}

impl<T: Div<Output = T>> vstd::std_specs::ops::DivSpecImpl for Point<T> {
    open spec fn obeys_div_spec() -> bool {
        T::obeys_div_spec()
    }

    open spec fn div_req(self, rhs: Self) -> bool {
        self.x.div_req(rhs.x) && self.y.div_req(rhs.y) && self.z.div_req(rhs.z)
    }

    open spec fn div_spec(self, rhs: Self) -> Self {
        Point { x: self.x.div_spec(rhs.x), y: self.y.div_spec(rhs.y), z: self.z.div_spec(rhs.z) }
    }
}

impl<T: Neg<Output = T>> Neg for Point<T> {
    type Output = Self;

    fn neg(self) -> (r: Self) {
        Point { x: self.x.neg(), y: self.y.neg(), z: self.z.neg() }
    }
}

impl<T: Neg<Output = T>> vstd::std_specs::ops::NegSpecImpl for Point<T> {
    open spec fn obeys_neg_spec() -> bool {
        T::obeys_neg_spec()
    }

    open spec fn neg_req(self) -> bool {
        self.x.neg_req() && self.y.neg_req() && self.z.neg_req()
    }

    open spec fn neg_spec(self) -> Self {
        Point { x: self.x.neg_spec(), y: self.y.neg_spec(), z: self.z.neg_spec() }
    }
}

impl<T: Add<Output = T> + Copy> Add<T> for Point<T> {
    type Output = Self;

    fn add(self, rhs: T) -> (r: Self) {
        Point { x: self.x + rhs, y: self.y + rhs, z: self.z + rhs }
    }
}

impl<T: Add<Output = T> + Copy> vstd::std_specs::ops::AddSpecImpl<T> for Point<T> {
    open spec fn obeys_add_spec() -> bool {
        T::obeys_add_spec()
    }

    open spec fn add_req(self, rhs: T) -> bool {
        self.x.add_req(rhs) && self.y.add_req(rhs) && self.z.add_req(rhs)
    }

    open spec fn add_spec(self, rhs: T) -> Self {
        Point { x: self.x.add_spec(rhs), y: self.y.add_spec(rhs), z: self.z.add_spec(rhs) }
    }
}

impl<T: Sub<Output = T> + Copy> Sub<T> for Point<T> {
    type Output = Self;

    fn sub(self, rhs: T) -> (r: Self) {
        Point { x: self.x - rhs, y: self.y - rhs, z: self.z - rhs }
    }
}

impl<T: Sub<Output = T> + Copy> vstd::std_specs::ops::SubSpecImpl<T> for Point<T> {
    open spec fn obeys_sub_spec() -> bool {
        T::obeys_sub_spec()
    }

    open spec fn sub_req(self, rhs: T) -> bool {
        self.x.sub_req(rhs) && self.y.sub_req(rhs) && self.z.sub_req(rhs)
    }

    open spec fn sub_spec(self, rhs: T) -> Self {
        Point { x: self.x.sub_spec(rhs), y: self.y.sub_spec(rhs), z: self.z.sub_spec(rhs) }
    }
}

impl<T: Mul<Output = T> + Copy> Mul<T> for Point<T> {
    type Output = Self;

    fn mul(self, rhs: T) -> (r: Self) {
        Point { x: self.x * rhs, y: self.y * rhs, z: self.z * rhs }
    }
}

impl<T: Mul<Output = T> + Copy> vstd::std_specs::ops::MulSpecImpl<T> for Point<T> {
    open spec fn obeys_mul_spec() -> bool {
        T::obeys_mul_spec()
    }

    open spec fn mul_req(self, rhs: T) -> bool {
        self.x.mul_req(rhs) && self.y.mul_req(rhs) && self.z.mul_req(rhs)
    }

    open spec fn mul_spec(self, rhs: T) -> Self {
        Point { x: self.x.mul_spec(rhs), y: self.y.mul_spec(rhs), z: self.z.mul_spec(rhs) }
    }
}

impl<T: Div<Output = T> + Copy> Div<T> for Point<T> {
    type Output = Self;

    fn div(self, rhs: T) -> (r: Self) {
        Point { x: self.x / rhs, y: self.y / rhs, z: self.z / rhs }
    }
}

impl<T: Div<Output = T> + Copy> vstd::std_specs::ops::DivSpecImpl<T> for Point<T> {
    open spec fn obeys_div_spec() -> bool {
        T::obeys_div_spec()
    }

    open spec fn div_req(self, rhs: T) -> bool {
        self.x.div_req(rhs) && self.y.div_req(rhs) && self.z.div_req(rhs)
    }

    open spec fn div_spec(self, rhs: T) -> Self {
        Point { x: self.x.div_spec(rhs), y: self.y.div_spec(rhs), z: self.z.div_spec(rhs) }
    }
}

impl<T: Copy> Point<T> {
    pub fn new(x: T, y: T, z: T) -> (r: Self)
        ensures
            r == (Point { x, y, z }),
    {
        Point { x, y, z }
    }

    /// The point whose three coordinates all are `xyz`.
    pub fn homogeneous(xyz: T) -> (r: Self)
        ensures
            r == (Point { x: xyz, y: xyz, z: xyz }),
    {
        Point { x: xyz, y: xyz, z: xyz }
    }

    #[allow(non_snake_case)]
    pub fn from_Point(other: &Point<T>) -> (r: Self)
        ensures
            r == *other,
    {
        Point { x: other.x, y: other.y, z: other.z }
    }

    /// `x * x' + y * y' + z * z'`, summed from the left.
    pub open spec fn spec_dot(self, other: Point<T>) -> T where T: Mul<Output = T> + Add<Output = T> {
        self.x.mul_spec(other.x).add_spec(self.y.mul_spec(other.y)).add_spec(
            self.z.mul_spec(other.z),
        )
    }

    /// The coordinate type computes every step of `spec_dot`: no product and
    /// no partial sum leaves its range.
    pub open spec fn dot_defined(self, other: Point<T>) -> bool where
        T: Mul<Output = T> + Add<Output = T>,
     {
        &&& T::obeys_mul_spec()
        &&& T::obeys_add_spec()
        &&& self.x.mul_req(other.x)
        &&& self.y.mul_req(other.y)
        &&& self.z.mul_req(other.z)
        &&& self.x.mul_spec(other.x).add_req(self.y.mul_spec(other.y))
        &&& self.x.mul_spec(other.x).add_spec(self.y.mul_spec(other.y)).add_req(
            self.z.mul_spec(other.z),
        )
    }

    pub fn dot(self, other: &Point<T>) -> (r: T) where T: Mul<Output = T> + Add<Output = T>
        requires
            self.dot_defined(*other),
        ensures
            r == self.spec_dot(*other),
    {
        self.x * other.x + self.y * other.y + self.z * other.z
    }

    /// The cross product: `(y z' - z y', z x' - x z', x y' - y x')`.
    pub open spec fn spec_cross(self, other: Point<T>) -> Point<T> where
        T: Mul<Output = T> + Sub<Output = T>,
     {
        Point {
            x: self.y.mul_spec(other.z).sub_spec(self.z.mul_spec(other.y)),
            y: self.z.mul_spec(other.x).sub_spec(self.x.mul_spec(other.z)),
            z: self.x.mul_spec(other.y).sub_spec(self.y.mul_spec(other.x)),
        }
    }

    /// The coordinate type computes every step of `spec_cross`.
    pub open spec fn cross_defined(self, other: Point<T>) -> bool where
        T: Mul<Output = T> + Sub<Output = T>,
     {
        &&& T::obeys_mul_spec()
        &&& T::obeys_sub_spec()
        &&& self.y.mul_req(other.z)
        &&& self.z.mul_req(other.y)
        &&& self.z.mul_req(other.x)
        &&& self.x.mul_req(other.z)
        &&& self.x.mul_req(other.y)
        &&& self.y.mul_req(other.x)
        &&& self.y.mul_spec(other.z).sub_req(self.z.mul_spec(other.y))
        &&& self.z.mul_spec(other.x).sub_req(self.x.mul_spec(other.z))
        &&& self.x.mul_spec(other.y).sub_req(self.y.mul_spec(other.x))
    }

    pub fn cross(self, other: &Point<T>) -> (r: Point<T>) where
        T: Mul<Output = T> + Sub<Output = T>,

        requires
            self.cross_defined(*other),
        ensures
            r == self.spec_cross(*other),
    {
        Point::new(
            self.y * other.z - self.z * other.y,
            self.z * other.x - self.x * other.z,
            self.x * other.y - self.y * other.x,
        )
    }

    /// The square of the length: the dot product of the point with itself.
    pub fn length2(self) -> (r: T) where T: Mul<Output = T> + Add<Output = T>
        requires
            self.dot_defined(self),
        ensures
            r == self.spec_dot(self),
    {
        self.x * self.x + self.y * self.y + self.z * self.z
    }

    /// The point reached from `self` by `t` steps of `other`.
    pub open spec fn spec_translate(self, other: Point<T>, t: T) -> Point<T> where
        T: Add<Output = T> + Mul<Output = T>,
     {
        Point {
            x: self.x.add_spec(other.x.mul_spec(t)),
            y: self.y.add_spec(other.y.mul_spec(t)),
            z: self.z.add_spec(other.z.mul_spec(t)),
        }
    }

    /// The coordinate type computes every step of `spec_translate`.
    pub open spec fn translate_defined(self, other: Point<T>, t: T) -> bool where
        T: Add<Output = T> + Mul<Output = T>,
     {
        &&& T::obeys_mul_spec()
        &&& T::obeys_add_spec()
        &&& other.x.mul_req(t)
        &&& other.y.mul_req(t)
        &&& other.z.mul_req(t)
        &&& self.x.add_req(other.x.mul_spec(t))
        &&& self.y.add_req(other.y.mul_spec(t))
        &&& self.z.add_req(other.z.mul_spec(t))
    }

    pub fn translate(self, other: Point<T>, t: T) -> (r: Point<T>) where
        T: Add<Output = T> + Mul<Output = T>,

        requires
            self.translate_defined(other, t),
        ensures
            r == self.spec_translate(other, t),
    {
        Point::new(self.x + other.x * t, self.y + other.y * t, self.z + other.z * t)
    }

    /// The difference `self - other`, axis by axis.
    pub open spec fn spec_difference(self, other: Point<T>) -> Point<T> where T: Sub<Output = T> {
        Point {
            x: self.x.sub_spec(other.x),
            y: self.y.sub_spec(other.y),
            z: self.z.sub_spec(other.z),
        }
    }

    /// The coordinate type computes the difference `self - other`, and the
    /// dot product of that difference with itself.
    pub open spec fn distance2_defined(self, other: Point<T>) -> bool where
        T: Sub<Output = T> + Add<Output = T> + Mul<Output = T>,
     {
        &&& T::obeys_sub_spec()
        &&& self.x.sub_req(other.x)
        &&& self.y.sub_req(other.y)
        &&& self.z.sub_req(other.z)
        &&& self.spec_difference(other).dot_defined(self.spec_difference(other))
    }

    /// The square of the distance between two points.
    pub fn distance2(&self, other: &Point<T>) -> (r: T) where
        T: Sub<Output = T> + Add<Output = T> + Mul<Output = T>,

        requires
            self.distance2_defined(*other),
        ensures
            r == self.spec_difference(*other).spec_dot(self.spec_difference(*other)),
    {
        (self.x - other.x) * (self.x - other.x) + (self.y - other.y) * (self.y - other.y) + (self.z
            - other.z) * (self.z - other.z)
    }

    /// The smaller coordinate on each axis. Where the two are equal, that of
    /// `self`.
    pub fn min(self, other: Point<T>) -> (r: Point<T>) where T: Ord
        ensures
            T::obeys_cmp_spec() ==> r == (Point {
                x: lesser(self.x, other.x),
                y: lesser(self.y, other.y),
                z: lesser(self.z, other.z),
            }),
    {
        Point::new(self.x.min(other.x), self.y.min(other.y), self.z.min(other.z))
    }

    /// The larger coordinate on each axis. Where the two are equal, that of
    /// `other`.
    pub fn max(self, other: Point<T>) -> (r: Point<T>) where T: Ord
        ensures
            T::obeys_cmp_spec() ==> r == (Point {
                x: greater(self.x, other.x),
                y: greater(self.y, other.y),
                z: greater(self.z, other.z),
            }),
    {
        Point::new(self.x.max(other.x), self.y.max(other.y), self.z.max(other.z))
    }

    /// On each axis the coordinate of `self` where it is less than or equal
    /// to that of `other`, else that of `other`: also where the two cannot be
    /// compared.
    pub fn min_unsafe(self, other: Point<T>) -> (r: Point<T>) where T: PartialOrd
        ensures
            T::obeys_partial_cmp_spec() ==> r == (Point {
                x: lesser_partial(self.x, other.x),
                y: lesser_partial(self.y, other.y),
                z: lesser_partial(self.z, other.z),
            }),
    {
        Point::new(
            if self.x <= other.x { self.x } else { other.x },
            if self.y <= other.y { self.y } else { other.y },
            if self.z <= other.z { self.z } else { other.z },
        )
    }

    /// On each axis the coordinate of `other` where that of `self` is less
    /// than or equal to it, else that of `self`: also where the two cannot be
    /// compared.
    pub fn max_unsafe(self, other: Point<T>) -> (r: Point<T>) where T: PartialOrd
        ensures
            T::obeys_partial_cmp_spec() ==> r == (Point {
                x: greater_partial(self.x, other.x),
                y: greater_partial(self.y, other.y),
                z: greater_partial(self.z, other.z),
            }),
    {
        Point::new(
            if self.x <= other.x { other.x } else { self.x },
            if self.y <= other.y { other.y } else { self.y },
            if self.z <= other.z { other.z } else { self.z },
        )
    }
}

/// `b` where it is less than `a` in the total order of `T`, else `a`.
pub open spec fn lesser<T: Ord>(a: T, b: T) -> T {
    if b.cmp_spec(&a) == Ordering::Less {
        b
    } else {
        a
    }
}

/// `a` where `b` is less than it in the total order of `T`, else `b`.
pub open spec fn greater<T: Ord>(a: T, b: T) -> T {
    if b.cmp_spec(&a) == Ordering::Less {
        a
    } else {
        b
    }
}

/// `a` where it is less than or equal to `b`, else `b`.
pub open spec fn lesser_partial<T: PartialOrd>(a: T, b: T) -> T {
    if a.is_le(&b) {
        a
    } else {
        b
    }
}

/// `b` where `a` is less than or equal to it, else `a`.
pub open spec fn greater_partial<T: PartialOrd>(a: T, b: T) -> T {
    if a.is_le(&b) {
        b
    } else {
        a
    }
}

} // verus!
