//! Integer vectors: voxel coordinates, chunk-grid positions and displacements.
use vstd::prelude::*;

verus! {

/// A point or displacement on the integer grid.
#[derive(Clone, Copy, PartialEq, Eq, Structural, Debug)]
pub struct IVec3 {
    pub x: i32,
    pub y: i32,
    pub z: i32,
}

impl View for IVec3 {
    type V = (int, int, int);

    open spec fn view(&self) -> (int, int, int) {
        (self.x as int, self.y as int, self.z as int)
    }
}

/// Squared Euclidean norm of an integer triple.
pub open spec fn norm_sq(v: (int, int, int)) -> int {
    v.0 * v.0 + v.1 * v.1 + v.2 * v.2
}

/// Componentwise sum of two integer triples.
pub open spec fn add3(a: (int, int, int), b: (int, int, int)) -> (int, int, int) {
    (a.0 + b.0, a.1 + b.1, a.2 + b.2)
}

/// Whether each component of a triple fits in an `i32`.
pub open spec fn fits_i32(v: (int, int, int)) -> bool {
    i32::MIN <= v.0 <= i32::MAX && i32::MIN <= v.1 <= i32::MAX && i32::MIN <= v.2 <= i32::MAX
}

impl IVec3 {
    pub fn new(x: i32, y: i32, z: i32) -> (r: IVec3)
        ensures
            r@ == (x as int, y as int, z as int),
    {
        IVec3 { x, y, z }
    }

    pub fn zero() -> (r: IVec3)
        ensures
            r@ == (0int, 0int, 0int),
    {
        IVec3 { x: 0, y: 0, z: 0 }
    }

    /// Squared Euclidean norm, exact in 64 bits for every `i32` triple.
    pub fn norm_squared(&self) -> (r: u64)
        ensures
            r as int == norm_sq(self@),
    {
        let x = self.x as i64;
        let y = self.y as i64;
        let z = self.z as i64;
        assert(x * x <= 0x4000_0000_0000_0000) by (nonlinear_arith)
            requires
                -0x8000_0000 <= x <= 0x7fff_ffff,
        ;
        assert(y * y <= 0x4000_0000_0000_0000) by (nonlinear_arith)
            requires
                -0x8000_0000 <= y <= 0x7fff_ffff,
        ;
        assert(z * z <= 0x4000_0000_0000_0000) by (nonlinear_arith)
            requires
                -0x8000_0000 <= z <= 0x7fff_ffff,
        ;
        assert(0 <= x * x && 0 <= y * y && 0 <= z * z) by (nonlinear_arith);
        (x * x) as u64 + (y * y) as u64 + (z * z) as u64
    }
}

} // verus!
