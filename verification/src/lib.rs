//! The choices of a path tracer: which object a ray hits first, in a flat
//! list of objects or in a tree of bounding volumes; how such a tree is
//! built; which root of a sphere and which crossing of a triangle counts as a
//! hit; what a material lets through; when a path ends; where a pixel stands
//! in the image; how a mesh is framed in a file. The arithmetic on real
//! numbers is the caller's: numbers come in by their keys (see `num`), and
//! nothing but their order is looked at here.

pub mod bounding_box;
pub mod collections;
pub mod hitable;
pub mod material;
pub mod num;
pub mod sphere;
pub mod stl;
pub mod triangle;
pub mod vec3;

use crate::collections::bvh_tree::BVHTree;
use crate::hitable::{first_n, lemma_scan, scan};
use crate::num::Num;
use vstd::prelude::*;

verus! {

/// The number of bounces after which a path is given up.
pub const MAX_DEPTH: u32 = 50;

/// A ray on its way through the world, after `depth` bounces.
#[derive(Debug, Copy, Clone, PartialEq, Eq, Structural)]
pub struct Path {
    pub depth: u32,
}

/// What becomes of a path once the world has answered its ray.
#[derive(Debug, Copy, Clone, PartialEq, Eq, Structural)]
pub enum Traced {
    /// Nothing was hit: the path ends in the sky, with the light of the sky
    /// in the ray's direction.
    Sky,
    /// A surface was hit with all bounces spent: the path ends without light.
    Black,
    /// A surface was hit: its material is asked to scatter the ray. Where it
    /// does, the scattered ray goes on as the path given; where it absorbs,
    /// the path ends without light.
    Scatter(Path),
}

impl Path {
    /// What `traced` answers.
    pub open spec fn after(self, hit: bool) -> Traced {
        if !hit {
            Traced::Sky
        } else if self.depth < MAX_DEPTH {
            Traced::Scatter(Path { depth: (self.depth + 1) as u32 })
        } else {
            Traced::Black
        }
    }

    /// Where a path is after one answer of the world for each of its rays in
    /// turn, every material scattering: ended, or still on its way when the
    /// answers are used up.
    pub open spec fn follow(self, answers: Seq<bool>) -> Traced
        decreases answers.len(),
    {
        if answers.len() == 0 {
            Traced::Scatter(self)
        } else {
            match self.after(answers[0]) {
                Traced::Scatter(next) => next.follow(answers.drop_first()),
                ended => ended,
            }
        }
    }

    /// The path of a ray that leaves the camera.
    pub fn new() -> (path: Path)
        ensures
            path.depth == 0,
    {
        Path { depth: 0 }
    }

    /// What becomes of the path, given whether its ray hit anything.
    pub fn traced(&self, hit: bool) -> (next: Traced)
        ensures
            next == self.after(hit),
    {
        if !hit {
            Traced::Sky
        } else if self.depth < MAX_DEPTH {
            Traced::Scatter(Path { depth: self.depth + 1 })
        } else {
            Traced::Black
        }
    }

    /// No path outlives its bounces: after more answers than it has bounces
    /// left, it has ended.
    pub proof fn lemma_path_ends(self, answers: Seq<bool>)
        requires
            self.depth <= MAX_DEPTH,
            answers.len() > MAX_DEPTH - self.depth,
        ensures
            self.follow(answers) == Traced::Sky || self.follow(answers) == Traced::Black,
        decreases answers.len(),
    {
        if let Traced::Scatter(next) = self.after(answers[0]) {
            next.lemma_path_ends(answers.drop_first());
        }
    }
}

/// A ray that hits no object of a world ends its path in the sky, whether
/// the world is asked as a tree or as a flat list of `n` objects, and
/// whatever the path has behind it.
pub proof fn lemma_miss_ends_in_sky(tree: BVHTree, n: nat, hits: Seq<Option<Num>>, path: Path)
    requires
        forall|i: int| 0 <= i < hits.len() ==> (#[trigger] hits[i]) is None,
    ensures
        scan(hits, tree.items()) is None,
        scan(hits, first_n(n)) is None,
        path.after(scan(hits, tree.items()) is Some) == Traced::Sky,
        path.after(scan(hits, first_n(n)) is Some) == Traced::Sky,
{
    lemma_scan(hits, tree.items());
    lemma_scan(hits, first_n(n));
}

/// The pixel, as column and row, that stands at place `k` of an image `nx`
/// wide and `ny` high: the rows from the top one down, the row 0 being the
/// bottom one, each row from left to right.
pub open spec fn raster(nx: int, ny: int, k: int) -> (int, int) {
    (k % nx, ny - 1 - k / nx)
}

pub fn pixel_at(nx: usize, ny: usize, k: usize) -> (pixel: (usize, usize))
    requires
        k < nx * ny,
    ensures
        pixel.0 < nx,
        pixel.1 < ny,
        (pixel.0 as int, pixel.1 as int) == raster(nx as int, ny as int, k as int),
{
    proof {
        lemma_raster(nx as int, ny as int, k as int);
    }
    (k % nx, ny - 1 - k / nx)
}

/// The place at which a pixel stands in the image.
pub fn place_of(nx: usize, ny: usize, i: usize, j: usize) -> (k: usize)
    requires
        i < nx,
        j < ny,
        nx * ny <= usize::MAX,
    ensures
        k < nx * ny,
        raster(nx as int, ny as int, k as int) == (i as int, j as int),
{
    proof {
        lemma_place(nx as int, ny as int, i as int, j as int);
    }
    (ny - 1 - j) * nx + i
}

/// Every place of an image holds a pixel of it.
pub proof fn lemma_raster(nx: int, ny: int, k: int)
    requires
        0 <= nx,
        0 <= ny,
        0 <= k < nx * ny,
    ensures
        nx > 0,
        0 <= raster(nx, ny, k).0 < nx,
        0 <= raster(nx, ny, k).1 < ny,
        (ny - 1 - raster(nx, ny, k).1) * nx + raster(nx, ny, k).0 == k,
{
    assert(nx > 0 && ny > 0) by (nonlinear_arith)
        requires
            0 <= nx,
            0 <= ny,
            0 <= k < nx * ny,
    ;
    vstd::arithmetic::div_mod::lemma_fundamental_div_mod(k, nx);
    vstd::arithmetic::div_mod::lemma_div_pos_is_pos(k, nx);
    assert(k / nx < ny) by (nonlinear_arith)
        requires
            0 <= k < nx * ny,
            nx > 0,
            k == nx * (k / nx) + k % nx,
            0 <= k % nx,
    ;
    assert((k / nx) * nx == nx * (k / nx)) by (nonlinear_arith);
}

/// Every pixel of an image stands at one place of it.
pub proof fn lemma_place(nx: int, ny: int, i: int, j: int)
    requires
        0 <= i < nx,
        0 <= j < ny,
    ensures
        0 <= (ny - 1 - j) * nx + i < nx * ny,
        raster(nx, ny, (ny - 1 - j) * nx + i) == (i, j),
{
    let row = ny - 1 - j;
    assert(0 <= row * nx && row * nx + nx <= nx * ny) by (nonlinear_arith)
        requires
            0 <= row < ny,
            nx > 0,
    ;
    vstd::arithmetic::div_mod::lemma_fundamental_div_mod_converse(row * nx + i, nx, row, i);
}

} // verus!
