use crate::bounding_box::BoundingBox;
use crate::hitable::{in_window, inside};
use crate::num::{Num, ONE, ZERO};
use crate::vec3::Vec3;
use vstd::prelude::*;

verus! {

/// Three vertices, the normal of their plane as it was given, and the
/// material of the surface.
pub struct Triangle<T> {
    pub normal: Vec3,
    pub p1: Vec3,
    pub p2: Vec3,
    pub p3: Vec3,
    pub material: T,
}

/// Whether a barycentric weight lies between zero and one, both included.
pub open spec fn is_weight(w: Num) -> bool {
    ZERO <= w <= ONE
}

impl<T> Triangle<T> {
    /// The least box that holds the three vertices.
    pub open spec fn bounds(self) -> BoundingBox {
        BoundingBox {
            a: self.p1.lower(self.p2).lower(self.p3),
            b: self.p1.upper(self.p2).upper(self.p3),
        }
    }

    pub fn new(normal: Vec3, p1: Vec3, p2: Vec3, p3: Vec3, material: T) -> (triangle: Self)
        ensures
            triangle == (Triangle { normal, p1, p2, p3, material }),
    {
        Triangle { normal, p1, p2, p3, material }
    }

    pub fn bounding_box(&self) -> (bx: Option<BoundingBox>)
        ensures
            bx == Some(self.bounds()),
    {
        let low = self.p1.min(&self.p2).min(&self.p3);
        let high = self.p1.max(&self.p2).max(&self.p3);
        Some(BoundingBox::new(low, high))
    }

    /// The parameter at which a ray hits the triangle inside the window. Given
    /// are the dot product of the normal and the ray's direction, the
    /// parameter `t` at which the ray meets the plane, and the three
    /// barycentric weights of that point. A ray along the plane is a miss, and
    /// so is a crossing outside the window; a point of which any weight lies
    /// outside zero to one is outside the triangle, and a miss as well.
    pub fn hit(
        slope: Num,
        t: Num,
        gamma: Num,
        beta: Num,
        alpha: Num,
        t_min: Num,
        t_max: Num,
    ) -> (found: Option<Num>)
        ensures
            found == if slope != ZERO && inside(t, t_min, t_max) && is_weight(gamma) && is_weight(
                beta,
            ) && is_weight(alpha) {
                Some(t)
            } else {
                None::<Num>
            },
    {
        if slope != ZERO {
            if in_window(t, t_min, t_max) {
                if gamma < ZERO || gamma > ONE {
                    return None;
                }
                if beta < ZERO || beta > ONE {
                    return None;
                }
                if alpha < ZERO || alpha > ONE {
                    return None;
                }
                return Some(t);
            }
        }
        None
    }

    /// The bounds of a triangle are a box, flat where the triangle is; they
    /// hold its vertices, and every box that holds them holds the bounds.
    pub proof fn lemma_bounds_are_least(self, outer: BoundingBox)
        ensures
            self.bounds().wf(),
            self.bounds().a.le(self.p1) && self.p1.le(self.bounds().b),
            self.bounds().a.le(self.p2) && self.p2.le(self.bounds().b),
            self.bounds().a.le(self.p3) && self.p3.le(self.bounds().b),
            outer.a.le(self.p1) && outer.a.le(self.p2) && outer.a.le(self.p3) && self.p1.le(
                outer.b,
            ) && self.p2.le(outer.b) && self.p3.le(outer.b) ==> outer.encloses(self.bounds()),
    {
    }
}

} // verus!
