//! Small fixed-size vectors over an arbitrary lane type. The arithmetic is
//! that of the `vecmath` crate, lane by lane, with the lane type's own
//! operators.

use std::ops::{Add, Div, Mul, Sub};
use vstd::prelude::*;
use vstd::std_specs::ops::{AddSpec, MulSpec, SubSpec};

verus! {

/// The lane type's `*` can be applied to every lane of `a` and `n`.
pub open spec fn scale_req<T: Copy + Mul<T, Output = T>>(a: [T; 3], n: T) -> bool {
    a[0].mul_req(n) && a[1].mul_req(n) && a[2].mul_req(n)
}

/// Every lane of `a` times `n`.
pub open spec fn scale_lanes<T: Copy + Mul<T, Output = T>>(a: [T; 3], n: T) -> Seq<T> {
    seq![a[0].mul_spec(n), a[1].mul_spec(n), a[2].mul_spec(n)]
}

/// The lane type's `-` can be applied to every pair of lanes.
pub open spec fn sub_req<T: Copy + Sub<T, Output = T>>(a: [T; 3], b: [T; 3]) -> bool {
    a[0].sub_req(b[0]) && a[1].sub_req(b[1]) && a[2].sub_req(b[2])
}

/// The lane-wise difference of `a` and `b`.
pub open spec fn sub_lanes<T: Copy + Sub<T, Output = T>>(a: [T; 3], b: [T; 3]) -> Seq<T> {
    seq![a[0].sub_spec(b[0]), a[1].sub_spec(b[1]), a[2].sub_spec(b[2])]
}

/// The three products of the dot product, and their two sums from left to
/// right, can be computed in the lane type.
pub open spec fn dot_req<T: Copy + Add<T, Output = T> + Mul<T, Output = T>>(
    a: [T; 3],
    b: [T; 3],
) -> bool {
    &&& a[0].mul_req(b[0])
    &&& a[1].mul_req(b[1])
    &&& a[2].mul_req(b[2])
    &&& a[0].mul_spec(b[0]).add_req(a[1].mul_spec(b[1]))
    &&& a[0].mul_spec(b[0]).add_spec(a[1].mul_spec(b[1])).add_req(a[2].mul_spec(b[2]))
}

/// The dot product of `a` and `b`, summed from left to right.
pub open spec fn dot_lanes<T: Copy + Add<T, Output = T> + Mul<T, Output = T>>(
    a: [T; 3],
    b: [T; 3],
) -> T {
    a[0].mul_spec(b[0]).add_spec(a[1].mul_spec(b[1])).add_spec(a[2].mul_spec(b[2]))
}

/// The six products of the cross product, and their three differences, can
/// be computed in the lane type.
pub open spec fn cross_req<T: Copy + Mul<T, Output = T> + Sub<T, Output = T>>(
    a: [T; 3],
    b: [T; 3],
) -> bool {
    &&& a[1].mul_req(b[2])
    &&& a[2].mul_req(b[1])
    &&& a[1].mul_spec(b[2]).sub_req(a[2].mul_spec(b[1]))
    &&& a[2].mul_req(b[0])
    &&& a[0].mul_req(b[2])
    &&& a[2].mul_spec(b[0]).sub_req(a[0].mul_spec(b[2]))
    &&& a[0].mul_req(b[1])
    &&& a[1].mul_req(b[0])
    &&& a[0].mul_spec(b[1]).sub_req(a[1].mul_spec(b[0]))
}

/// The cross product of `a` and `b`.
pub open spec fn cross_lanes<T: Copy + Mul<T, Output = T> + Sub<T, Output = T>>(
    a: [T; 3],
    b: [T; 3],
) -> Seq<T> {
    seq![
        a[1].mul_spec(b[2]).sub_spec(a[2].mul_spec(b[1])),
        a[2].mul_spec(b[0]).sub_spec(a[0].mul_spec(b[2])),
        a[0].mul_spec(b[1]).sub_spec(a[1].mul_spec(b[0])),
    ]
}

/// `vecmath::vec3_scale` multiplies each lane of `a` by `b` with the lane
/// type's `*`. Where the lane type's `*` is specified, the result is that
/// product.
pub assume_specification<T>[ vecmath::vec3_scale::<T> ](a: [T; 3], b: T) -> (r: [T; 3]) where
    T: Copy + Mul<T, Output = T>,

    requires
        scale_req(a, b),
    ensures
        T::obeys_mul_spec() ==> r@ == scale_lanes(a, b),
;

/// `vecmath::vec3_sub` subtracts `b` from `a` lane by lane with the lane
/// type's `-`.
pub assume_specification<T>[ vecmath::vec3_sub::<T> ](a: [T; 3], b: [T; 3]) -> (r: [T; 3]) where
    T: Copy + Sub<T, Output = T>,

    requires
        sub_req(a, b),
    ensures
        T::obeys_sub_spec() ==> r@ == sub_lanes(a, b),
;

/// `vecmath::vec3_dot` adds up the three lane products from left to right.
/// It is specified for lane types whose `*` and `+` are: the sums take the
/// products, and the second sum takes the first.
pub assume_specification<T>[ vecmath::vec3_dot::<T> ](a: [T; 3], b: [T; 3]) -> (r: T) where
    T: Copy + Add<T, Output = T> + Mul<T, Output = T>,

    requires
        T::obeys_mul_spec(),
        T::obeys_add_spec(),
        dot_req(a, b),
    ensures
        r == dot_lanes(a, b),
;

/// `vecmath::vec3_cross` returns, lane by lane, the differences of products
/// of the cross product. It is specified for lane types whose `*` is: the
/// differences take the products.
pub assume_specification<T>[ vecmath::vec3_cross::<T> ](a: [T; 3], b: [T; 3]) -> (r: [T; 3]) where
    T: Copy + Mul<T, Output = T> + Sub<T, Output = T>,

    requires
        T::obeys_mul_spec(),
        cross_req(a, b),
    ensures
        T::obeys_sub_spec() ==> r@ == cross_lanes(a, b),
;

/// A vector of two lanes.
#[derive(Clone, Copy, Debug)]
pub struct Vec2<T>(pub [T; 2]);

impl<T: Copy> Vec2<T> {
    /// The vector `(x, y)`.
    pub fn new(x: T, y: T) -> (v: Self)
        ensures
            v.0@ == seq![x, y],
    {
        Vec2([x, y])
    }

    /// The lanes as a tuple.
    pub fn as_tuple(&self) -> (t: (T, T))
        ensures
            t == (self.0[0], self.0[1]),
    {
        (self.0[0], self.0[1])
    }
}

/// A vector of three lanes.
#[derive(Clone, Copy, Debug)]
pub struct Vec3<T>(pub [T; 3]);

impl<T: Copy> Vec3<T> {
    /// The vector `(x, y, z)`.
    pub fn new(x: T, y: T, z: T) -> (v: Self)
        ensures
            v.0@ == seq![x, y, z],
    {
        Vec3([x, y, z])
    }

    /// The lanes as a tuple.
    pub fn as_tuple(&self) -> (t: (T, T, T))
        ensures
            t == (self.0[0], self.0[1], self.0[2]),
    {
        (self.0[0], self.0[1], self.0[2])
    }
}

impl<T> Vec3<T> where
    T: Copy + Add<T, Output = T> + Sub<T, Output = T> + Mul<T, Output = T> + Div<T, Output = T>,
 {
    /// Every lane times `n`.
    pub fn scale(&self, n: T) -> (r: Self)
        requires
            scale_req(self.0, n),
        ensures
            T::obeys_mul_spec() ==> r.0@ == scale_lanes(self.0, n),
    {
        Vec3(vecmath::vec3_scale(self.0, n))
    }

    /// This vector minus `v`.
    pub fn sub(&self, v: &Vec3<T>) -> (r: Self)
        requires
            sub_req(self.0, v.0),
        ensures
            T::obeys_sub_spec() ==> r.0@ == sub_lanes(self.0, v.0),
    {
        Vec3(vecmath::vec3_sub(self.0, v.0))
    }

    /// The dot product with `v`, for a lane type whose `*` and `+` are
    /// specified.
    pub fn dot(&self, v: &Vec3<T>) -> (r: T)
        requires
            T::obeys_mul_spec(),
            T::obeys_add_spec(),
            dot_req(self.0, v.0),
        ensures
            r == dot_lanes(self.0, v.0),
    {
        vecmath::vec3_dot(self.0, v.0)
    }

    /// The cross product with `v`, for a lane type whose `*` is specified.
    pub fn cross(&self, v: &Vec3<T>) -> (r: Self)
        requires
            T::obeys_mul_spec(),
            cross_req(self.0, v.0),
        ensures
            T::obeys_sub_spec() ==> r.0@ == cross_lanes(self.0, v.0),
    {
        Vec3(vecmath::vec3_cross(self.0, v.0))
    }
}

} // verus!
