use crate::num::{Num, ONE, ZERO};
use crate::vec3::Vec3;
use vstd::prelude::*;

verus! {

/// A diffuse surface: what it scatters is tinted by its albedo.
#[derive(Debug, Copy, Clone)]
pub struct Lambertian {
    albedo: Vec3,
}

impl Lambertian {
    pub closed spec fn view(&self) -> Vec3 {
        self.albedo
    }

    pub fn new(albedo_x: Num, albedo_y: Num, albedo_z: Num) -> (material: Self)
        ensures
            material@ == (Vec3 { x: albedo_x, y: albedo_y, z: albedo_z }),
    {
        Lambertian { albedo: Vec3::new(albedo_x, albedo_y, albedo_z) }
    }

    pub fn albedo(&self) -> (albedo: Vec3)
        ensures
            albedo == self@,
    {
        self.albedo
    }

    /// The attenuation of the scattered ray: the albedo. A diffuse surface
    /// absorbs no ray.
    pub fn scatter(&self) -> (attenuation: Option<Vec3>)
        ensures
            attenuation == Some(self@),
    {
        Some(self.albedo)
    }
}

/// `f` where it lies between zero and one, else the nearer of the two.
pub open spec fn clamped(f: Num) -> Num {
    if f > ONE {
        ONE
    } else if f < ZERO {
        ZERO
    } else {
        f
    }
}

/// A mirror whose reflection is blurred by `fuzz`, which lies between zero
/// and one.
#[derive(Debug, Copy, Clone)]
pub struct Metal {
    albedo: Vec3,
    fuzz: Num,
}

impl Metal {
    #[verifier::type_invariant]
    spec fn fuzz_in_range(self) -> bool {
        ZERO <= self.fuzz <= ONE
    }

    /// The albedo and the fuzz.
    pub closed spec fn view(&self) -> (Vec3, Num) {
        (self.albedo, self.fuzz)
    }

    pub fn new(albedo_x: Num, albedo_y: Num, albedo_z: Num, f: Num) -> (material: Self)
        ensures
            material@ == (Vec3 { x: albedo_x, y: albedo_y, z: albedo_z }, clamped(f)),
    {
        Metal {
            albedo: Vec3::new(albedo_x, albedo_y, albedo_z),
            fuzz: if f > ONE {
                ONE
            } else if f < ZERO {
                ZERO
            } else {
                f
            },
        }
    }

    pub fn albedo(&self) -> (albedo: Vec3)
        ensures
            albedo == self@.0,
    {
        self.albedo
    }

    /// The attenuation of the scattered ray, the albedo, or nothing where the
    /// ray is absorbed. `facing` is the dot product of the outgoing direction,
    /// reflected and blurred, and the surface normal. A ray that would go into
    /// the surface is absorbed.
    pub fn scatter(&self, facing: Num) -> (attenuation: Option<Vec3>)
        ensures
            facing > ZERO ==> attenuation == Some(self@.0),
            facing <= ZERO ==> attenuation is None,
    {
        if facing > ZERO {
            Some(self.albedo)
        } else {
            None
        }
    }

    pub fn fuzz(&self) -> (fuzz: Num)
        ensures
            fuzz == self@.1,
            ZERO <= fuzz <= ONE,
    {
        proof {
            use_type_invariant(self);
        }
        self.fuzz
    }
}

/// A clear solid with a refractive index.
#[derive(Debug, Copy, Clone)]
pub struct Dielectric {
    ref_idx: Num,
}

impl Dielectric {
    pub closed spec fn view(&self) -> Num {
        self.ref_idx
    }

    pub fn new(ref_idx: Num) -> (material: Self)
        ensures
            material@ == ref_idx,
    {
        Dielectric { ref_idx }
    }

    pub fn ref_idx(&self) -> (ref_idx: Num)
        ensures
            ref_idx == self@,
    {
        self.ref_idx
    }

    /// The attenuation of the scattered ray, which is white, and the way the
    /// ray takes. `discriminant` is that of Snell's law for the ray: where it
    /// is not positive the ray is reflected whole. Else `draw`, a number drawn
    /// evenly from zero to one, is held against `reflectance`, and the ray is
    /// refracted where the draw is no less. A clear solid absorbs no ray.
    pub fn scatter(&self, discriminant: Num, draw: Num, reflectance: Num) -> (out: (Vec3, Bend))
        ensures
            out.0 == (Vec3 { x: ONE, y: ONE, z: ONE }),
            out.1 == if discriminant > ZERO && draw >= reflectance {
                Bend::Refract
            } else {
                Bend::Reflect
            },
    {
        let way = if discriminant > ZERO && draw >= reflectance {
            Bend::Refract
        } else {
            Bend::Reflect
        };
        (Vec3::from_scalar(ONE), way)
    }

    /// Whether the ray leaves the solid, given the dot product of its
    /// direction and the surface normal. For a ray that leaves, the normal is
    /// turned round and the ratio of the indices is the index itself; for one
    /// that enters, the ratio is its inverse.
    pub fn leaves(&self, facing: Num) -> (out: bool)
        ensures
            out == (facing > ZERO),
    {
        facing > ZERO
    }
}

/// The way of a ray at the surface of a clear solid.
#[derive(Debug, Copy, Clone, PartialEq, Eq, Structural)]
pub enum Bend {
    Reflect,
    Refract,
}

/// The material of a surface that scatters nothing.
#[derive(Debug, Copy, Clone)]
pub struct Dummy;

impl Dummy {
    /// Nothing: every ray is absorbed.
    pub fn scatter(&self) -> (attenuation: Option<Vec3>)
        ensures
            attenuation is None,
    {
        None
    }
}

} // verus!
