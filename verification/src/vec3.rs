use crate::num::{max, min, Num};
use vstd::prelude::*;

verus! {

/// Three coordinates: a point, a direction or a colour.
#[derive(Debug, Copy, Clone, PartialEq, Eq, Structural)]
pub struct Vec3 {
    pub x: Num,
    pub y: Num,
    pub z: Num,
}

impl Default for Vec3 {
    fn default() -> (v: Vec3)
        ensures
            v == (Vec3 { x: 0, y: 0, z: 0 }),
    {
        Vec3 { x: 0, y: 0, z: 0 }
    }
}

impl Vec3 {
    /// The component-wise lesser of two vectors.
    pub open spec fn lower(self, other: Vec3) -> Vec3 {
        Vec3 {
            x: vstd::math::min(self.x as int, other.x as int) as Num,
            y: vstd::math::min(self.y as int, other.y as int) as Num,
            z: vstd::math::min(self.z as int, other.z as int) as Num,
        }
    }

    /// The component-wise greater of two vectors.
    pub open spec fn upper(self, other: Vec3) -> Vec3 {
        Vec3 {
            x: vstd::math::max(self.x as int, other.x as int) as Num,
            y: vstd::math::max(self.y as int, other.y as int) as Num,
            z: vstd::math::max(self.z as int, other.z as int) as Num,
        }
    }

    /// Whether no component of `self` exceeds that of `other`.
    pub open spec fn le(self, other: Vec3) -> bool {
        self.x <= other.x && self.y <= other.y && self.z <= other.z
    }

    pub fn new(x: Num, y: Num, z: Num) -> (v: Vec3)
        ensures
            v == (Vec3 { x, y, z }),
    {
        Vec3 { x, y, z }
    }

    pub fn from_scalar(x: Num) -> (v: Vec3)
        ensures
            v == (Vec3 { x, y: x, z: x }),
    {
        Self::new(x, x, x)
    }

    pub fn x(&self) -> (c: Num)
        ensures
            c == self.x,
    {
        self.x
    }

    pub fn y(&self) -> (c: Num)
        ensures
            c == self.y,
    {
        self.y
    }

    pub fn z(&self) -> (c: Num)
        ensures
            c == self.z,
    {
        self.z
    }

    pub fn r(&self) -> (c: Num)
        ensures
            c == self.x,
    {
        self.x
    }

    pub fn g(&self) -> (c: Num)
        ensures
            c == self.y,
    {
        self.y
    }

    pub fn b(&self) -> (c: Num)
        ensures
            c == self.z,
    {
        self.z
    }

    pub fn min(&self, other: &Self) -> (v: Vec3)
        ensures
            v == self.lower(*other),
    {
        Vec3 { x: min(self.x, other.x), y: min(self.y, other.y), z: min(self.z, other.z) }
    }

    pub fn max(&self, other: &Self) -> (v: Vec3)
        ensures
            v == self.upper(*other),
    {
        Vec3 { x: max(self.x, other.x), y: max(self.y, other.y), z: max(self.z, other.z) }
    }

    pub fn min_max(&self, other: &Self) -> (pair: (Vec3, Vec3))
        ensures
            pair.0 == self.lower(*other),
            pair.1 == self.upper(*other),
    {
        (self.min(other), self.max(other))
    }
}

} // verus!
