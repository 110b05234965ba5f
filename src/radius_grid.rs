//! A dense cubic grid addressed by signed coordinates around its centre.
use vstd::prelude::*;

verus! {

/// Largest radius of a grid: its volume stays below `2^30` cells.
pub const MAX_GRID_RADIUS: usize = 512;

/// The cell index of `c` in a grid of the given radius: coordinates run from
/// `1 - radius` to `radius - 1` on each axis, x fastest.
pub open spec fn cell_index(radius: int, c: [isize; 3]) -> int {
    let off = radius - 1;
    let w = 2 * radius - 1;
    (c[0] + off) + (c[1] + off) * w + (c[2] + off) * (w * w)
}

/// Whether `c` lies in the grid of the given radius.
pub open spec fn in_grid(radius: int, c: [isize; 3]) -> bool {
    &&& 1 - radius <= c[0] <= radius - 1
    &&& 1 - radius <= c[1] <= radius - 1
    &&& 1 - radius <= c[2] <= radius - 1
}

/// A 3D grid of side `2 * radius - 1` centred on the origin.
pub struct RadiusGrid<T: Clone> {
    grid: Vec<T>,
    radius: usize,
}

impl<T: Clone> RadiusGrid<T> {
    pub closed spec fn cells(self) -> Seq<T> {
        self.grid@
    }

    pub closed spec fn spec_radius(self) -> int {
        self.radius as int
    }

    pub closed spec fn wf(self) -> bool {
        let w = 2 * self.radius - 1;
        &&& 1 <= self.radius <= MAX_GRID_RADIUS
        &&& self.grid@.len() == w * w * w
    }

    proof fn lemma_index_bounds(radius: int, c: [isize; 3])
        requires
            1 <= radius <= MAX_GRID_RADIUS,
            in_grid(radius, c),
        ensures
            0 <= cell_index(radius, c) < (2 * radius - 1) * (2 * radius - 1) * (2 * radius - 1),
            (2 * radius - 1) * (2 * radius - 1) * (2 * radius - 1) <= 0x4000_0000,
            (2 * radius - 1) * (2 * radius - 1) <= 0x10_0000,
    {
        let w = 2 * radius - 1;
        let a = c[0] + radius - 1;
        let b = c[1] + radius - 1;
        let d = c[2] + radius - 1;
        assert(0 <= a + b * w + d * (w * w) <= (w - 1) + (w - 1) * w + (w - 1) * (w * w)) by (nonlinear_arith)
            requires
                0 <= a < w,
                0 <= b < w,
                0 <= d < w,
        ;
        assert((w - 1) + (w - 1) * w + (w - 1) * (w * w) == w * w * w - 1) by (nonlinear_arith);
        assert(w * w <= 0x400 * 0x400) by (nonlinear_arith)
            requires
                1 <= w <= 0x400,
        ;
        assert(w * w * w <= 0x400 * 0x400 * 0x400) by (nonlinear_arith)
            requires
                1 <= w <= 0x400,
                w * w <= 0x400 * 0x400,
        ;
    }

    /// A grid of the given radius with every cell a clone of `default_value`.
    pub fn new(radius: usize, default_value: T) -> (r: RadiusGrid<T>)
        requires
            1 <= radius <= MAX_GRID_RADIUS,
        ensures
            r.wf(),
            r.spec_radius() == radius,
            r.cells().len() == (2 * radius - 1) * (2 * radius - 1) * (2 * radius - 1),
            forall|i: int| 0 <= i < r.cells().len() ==> cloned(default_value, #[trigger] r.cells()[i]),
    {
        proof {
            Self::lemma_index_bounds(radius as int, [0isize, 0isize, 0isize]);
        }
        let w = 2 * radius - 1;
        let grid_volume = w * w * w;
        RadiusGrid { grid: vec![default_value; grid_volume], radius }
    }

    fn grid_index(&self, grid_coordinates: [isize; 3]) -> (r: usize)
        requires
            self.wf(),
            in_grid(self.radius as int, grid_coordinates),
        ensures
            r == cell_index(self.radius as int, grid_coordinates),
            r < self.grid@.len(),
    {
        proof {
            Self::lemma_index_bounds(self.radius as int, grid_coordinates);
        }
        let offset = (self.radius - 1) as isize;
        let w = (self.radius * 2 - 1) as isize;
        let a = grid_coordinates[0] + offset;
        let b = grid_coordinates[1] + offset;
        let d = grid_coordinates[2] + offset;
        proof {
            assert(0 <= b * w <= w * w && 0 <= d * (w * w) <= w * w * w) by (nonlinear_arith)
                requires
                    0 <= b < w,
                    0 <= d < w,
                    w >= 1,
            ;
            assert(w * w <= w * w * w) by (nonlinear_arith)
                requires
                    w >= 1,
            ;
        }
        (a + b * w + d * (w * w)) as usize
    }

    /// A clone of the value at `grid_coordinates`.
    pub fn value(&self, grid_coordinates: [isize; 3]) -> (r: T)
        requires
            self.wf(),
            in_grid(self.spec_radius(), grid_coordinates),
        ensures
            cloned(self.cells()[cell_index(self.spec_radius(), grid_coordinates)], r),
    {
        let i = self.grid_index(grid_coordinates);
        self.grid[i].clone()
    }

    pub fn set_value(&mut self, grid_coordinates: [isize; 3], value: T)
        requires
            old(self).wf(),
            in_grid(old(self).spec_radius(), grid_coordinates),
        ensures
            final(self).wf(),
            final(self).spec_radius() == old(self).spec_radius(),
            final(self).cells() == old(self).cells().update(cell_index(old(self).spec_radius(), grid_coordinates), value),
    {
        let index = self.grid_index(grid_coordinates);
        self.grid.set(index, value);
    }

    /// Every cell, x fastest.
    pub fn grid_slice(&self) -> (r: &[T])
        ensures
            r@ == self.cells(),
    {
        self.grid.as_slice()
    }
}

} // verus!
