//! The generator capability and the row-major layout of a chunk's buffer.
use vstd::prelude::*;
use vstd::arithmetic::div_mod::{lemma_fundamental_div_mod, lemma_div_denominator, lemma_div_pos_is_pos, lemma_mod_pos_bound};

verus! {

/// Fills a chunk's block ids: `block_ids` holds one id per voxel in row-major
/// order (x fastest, then y, then z) for a chunk of size `chunk_dims` at chunk
/// grid position `world_grid_position`. The id `0xFF` (`EMPTY_BLOCK` of the
/// chunk map) means "no block" and is never inserted; the buffer arrives
/// filled with it.
pub trait ChunkGenerator {
    fn generate_chunk(&self, block_ids: &mut [u8], world_grid_position: [i32; 3], chunk_dims: [usize; 3])
        ensures
            final(block_ids)@.len() == old(block_ids)@.len(),
    ;
}

/// The row-major index of `coords` in a buffer of size `dims`.
pub open spec fn index_of(dims: [usize; 3], coords: [usize; 3]) -> int {
    coords[0] + coords[1] * dims[0] + coords[2] * (dims[0] * dims[1])
}

pub fn coord_to_index(dims: &[usize; 3], coords: [usize; 3]) -> (r: usize)
    requires
        dims[0] * dims[1] <= usize::MAX,
        index_of(*dims, coords) <= usize::MAX,
    ensures
        r == index_of(*dims, coords),
{
    let area = dims[0] * dims[1];
    proof {
        assert(0 <= coords[1] * dims[0]) by (nonlinear_arith);
        assert(0 <= coords[2] * area) by (nonlinear_arith);
    }
    coords[0] + coords[1] * dims[0] + coords[2] * area
}

pub fn index_to_coord(dims: &[usize; 3], i: usize) -> (r: [usize; 3])
    requires
        dims[0] > 0,
        dims[1] > 0,
        dims[0] * dims[1] <= usize::MAX,
    ensures
        r[0] == i % dims[0],
        r[1] == (i / dims[0]) % dims[1],
        r[2] == i as int / (dims[0] * dims[1]),
        index_of(*dims, r) == i,
{
    let d0 = dims[0];
    let d1 = dims[1];
    let area = d0 * d1;
    proof {
        assert(area > 0) by (nonlinear_arith)
            requires
                area == d0 * d1,
                d0 > 0,
                d1 > 0,
        ;
    }
    let z = i / area;
    let q = i / d0;
    proof {
        lemma_div_denominator(i as int, d0 as int, d1 as int);
        lemma_fundamental_div_mod(q as int, d1 as int);
        lemma_div_pos_is_pos(q as int, d1 as int);
        lemma_mod_pos_bound(q as int, d1 as int);
        assert(z * d1 == d1 * z) by (nonlinear_arith);
        assert(z * d1 <= q);
    }
    let y = q - z * d1;
    let x = i % d0;
    proof {
        lemma_fundamental_div_mod(i as int, d0 as int);
        assert(y == q % d1);
        let rr = [x, y, z];
        assert(index_of(*dims, rr) == x + y * d0 + z * (d0 * d1));
        assert(z * (d0 * d1) == (z * d1) * d0) by (nonlinear_arith);
        assert(y * d0 + (z * d1) * d0 == (y + z * d1) * d0) by (nonlinear_arith);
        assert(y + z * d1 == q);
        assert(q * d0 == d0 * q) by (nonlinear_arith);
    }
    [x, y, z]
}

} // verus!
