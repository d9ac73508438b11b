use crate::hitable::{in_window, inside};
use crate::num::{Num, ZERO};
use crate::vec3::Vec3;
use vstd::prelude::*;

verus! {

/// A centre, a radius, and the material of the surface.
pub struct Sphere<T> {
    pub center: Vec3,
    pub radius: Num,
    pub material: T,
}

/// The first of the two roots that lies strictly inside the window, where
/// the discriminant is positive.
pub open spec fn first_root(
    discriminant: Num,
    near: Num,
    far: Num,
    t_min: Num,
    t_max: Num,
) -> Option<Num> {
    if discriminant > ZERO && inside(near, t_min, t_max) {
        Some(near)
    } else if discriminant > ZERO && inside(far, t_min, t_max) {
        Some(far)
    } else {
        None
    }
}

impl<T> Sphere<T> {
    pub fn new(center: Vec3, radius: Num, material: T) -> (sphere: Self)
        ensures
            sphere == (Sphere { center, radius, material }),
    {
        Sphere { center, radius, material }
    }

    /// The parameter at which a ray hits the sphere inside the window, given
    /// the discriminant of the ray's quadratic and its two roots, the lesser
    /// first. A discriminant that is not positive is a miss. Else both roots
    /// are tried in turn, and the first inside the window is the hit.
    pub fn hit(discriminant: Num, near: Num, far: Num, t_min: Num, t_max: Num) -> (t: Option<Num>)
        ensures
            t == first_root(discriminant, near, far, t_min, t_max),
    {
        if discriminant > ZERO {
            if in_window(near, t_min, t_max) {
                return Some(near);
            }
            if in_window(far, t_min, t_max) {
                return Some(far);
            }
        }
        None
    }
}

} // verus!
