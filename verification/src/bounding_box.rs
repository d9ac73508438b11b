use crate::vec3::Vec3;
use vstd::prelude::*;

verus! {

/// An axis-aligned box between two corners.
#[derive(Debug, Copy, Clone, PartialEq, Eq, Structural)]
pub struct BoundingBox {
    pub a: Vec3,
    pub b: Vec3,
}

impl Default for BoundingBox {
    fn default() -> (bx: BoundingBox)
        ensures
            bx == BoundingBox::zero(),
    {
        BoundingBox { a: Vec3 { x: 0, y: 0, z: 0 }, b: Vec3 { x: 0, y: 0, z: 0 } }
    }
}

impl BoundingBox {
    /// The box of no extent at the origin.
    pub open spec fn zero() -> BoundingBox {
        BoundingBox { a: Vec3 { x: 0, y: 0, z: 0 }, b: Vec3 { x: 0, y: 0, z: 0 } }
    }

    /// The lower corner does not exceed the upper one on any axis.
    pub open spec fn wf(self) -> bool {
        self.a.le(self.b)
    }

    /// Every point of `inner` lies in `self`.
    pub open spec fn encloses(self, inner: BoundingBox) -> bool {
        self.a.le(inner.a) && inner.b.le(self.b)
    }

    /// The smallest box that holds both `self` and `other`.
    pub open spec fn hull(self, other: BoundingBox) -> BoundingBox {
        BoundingBox { a: self.a.lower(other.a), b: self.b.upper(other.b) }
    }

    pub fn new(a: Vec3, b: Vec3) -> (bx: BoundingBox)
        ensures
            bx == (BoundingBox { a, b }),
    {
        BoundingBox { a, b }
    }

    pub fn max(&self) -> (corner: Vec3)
        ensures
            corner == self.b,
    {
        self.b
    }

    pub fn min(&self) -> (corner: Vec3)
        ensures
            corner == self.a,
    {
        self.a
    }

    pub fn surrounding_box(&self, other: &Self) -> (bx: BoundingBox)
        ensures
            bx == self.hull(*other),
    {
        let small = self.a.min(&other.a);
        let big = self.b.max(&other.b);

        Self::new(small, big)
    }

    /// The hull of two boxes holds both, stays well-formed where they are, and
    /// lies inside every box that holds both.
    pub proof fn lemma_hull_is_least(self, other: BoundingBox, outer: BoundingBox)
        ensures
            self.hull(other).encloses(self),
            self.hull(other).encloses(other),
            self.wf() && other.wf() ==> self.hull(other).wf(),
            outer.encloses(self) && outer.encloses(other) ==> outer.encloses(self.hull(other)),
    {
    }
}

} // verus!
