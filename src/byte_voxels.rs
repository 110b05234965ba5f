//! A dense voxel volume that stores one presence bit per voxel: each byte
//! holds a 2x2x2 block.
use vstd::prelude::*;
use vstd::arithmetic::div_mod::lemma_fundamental_div_mod_converse;
use crate::descriptor::mask_bit;

verus! {

/// Largest side of a volume, in voxels.
pub const MAX_VOXEL_DIM: usize = 1024;

/// The number of 2x2x2 blocks along one side of `d` voxels.
pub open spec fn half_up(d: int) -> int {
    (d + 1) / 2
}

/// The byte that holds voxel `c` of a volume of size `dims`.
pub open spec fn byte_index(c: [usize; 3], dims: [usize; 3]) -> int {
    let w0 = half_up(dims[0] as int);
    let w1 = half_up(dims[1] as int);
    c[0] / 2 + (c[1] / 2) * w0 + (c[2] / 2) * (w0 * w1)
}

/// The bit of its byte that holds voxel `c`.
pub open spec fn bit_index(c: [usize; 3]) -> int {
    c[0] % 2 + 2 * (c[1] % 2) + 4 * (c[2] % 2)
}

pub open spec fn in_dims(c: [usize; 3], dims: [usize; 3]) -> bool {
    c[0] < dims[0] && c[1] < dims[1] && c[2] < dims[2]
}

/// Bytes needed for a volume of size `dims`.
pub open spec fn byte_count(dims: [usize; 3]) -> int {
    half_up(dims[0] as int) * half_up(dims[1] as int) * half_up(dims[2] as int)
}

/// A mixed-radix number determines its digits.
proof fn lemma_digits_unique(a0: int, a1: int, a2: int, b0: int, b1: int, b2: int, w0: int, w1: int)
    requires
        0 <= a0 < w0,
        0 <= b0 < w0,
        0 <= a1 < w1,
        0 <= b1 < w1,
        0 <= a2,
        0 <= b2,
        a0 + a1 * w0 + a2 * (w0 * w1) == b0 + b1 * w0 + b2 * (w0 * w1),
    ensures
        a0 == b0 && a1 == b1 && a2 == b2,
{
    let x = a0 + a1 * w0 + a2 * (w0 * w1);
    assert(x == (a1 + a2 * w1) * w0 + a0) by (nonlinear_arith)
        requires
            x == a0 + a1 * w0 + a2 * (w0 * w1),
    ;
    assert(x == (b1 + b2 * w1) * w0 + b0) by (nonlinear_arith)
        requires
            x == b0 + b1 * w0 + b2 * (w0 * w1),
    ;
    lemma_fundamental_div_mod_converse(x, w0, a1 + a2 * w1, a0);
    lemma_fundamental_div_mod_converse(x, w0, b1 + b2 * w1, b0);
    let y = a1 + a2 * w1;
    assert(y == a2 * w1 + a1) by (nonlinear_arith)
        requires
            y == a1 + a2 * w1,
    ;
    assert(y == b2 * w1 + b1) by (nonlinear_arith)
        requires
            y == b1 + b2 * w1,
    ;
    lemma_fundamental_div_mod_converse(y, w1, a2, a1);
    lemma_fundamental_div_mod_converse(y, w1, b2, b1);
}

/// One presence bit per voxel of a volume of size `dims`.
#[derive(Clone)]
pub struct BitVoxels {
    pub dims: [usize; 3],
    pub data: Vec<u8>,
}

impl BitVoxels {
    pub open spec fn wf(&self) -> bool {
        &&& self.dims[0] <= MAX_VOXEL_DIM && self.dims[1] <= MAX_VOXEL_DIM && self.dims[2] <= MAX_VOXEL_DIM
        &&& self.data@.len() == byte_count(self.dims)
    }

    /// Whether voxel `c` is present.
    pub open spec fn voxel(&self, c: [usize; 3]) -> bool {
        mask_bit(self.data@[byte_index(c, self.dims)], bit_index(c) as u8)
    }

    proof fn lemma_byte_bounds(c: [usize; 3], dims: [usize; 3])
        requires
            in_dims(c, dims),
            dims[0] <= MAX_VOXEL_DIM && dims[1] <= MAX_VOXEL_DIM && dims[2] <= MAX_VOXEL_DIM,
        ensures
            0 <= byte_index(c, dims) < byte_count(dims),
            byte_count(dims) <= 0x800_0000,
            0 <= bit_index(c) < 8,
    {
        let w0 = half_up(dims[0] as int);
        let w1 = half_up(dims[1] as int);
        let w2 = half_up(dims[2] as int);
        let h0 = c[0] / 2;
        let h1 = c[1] / 2;
        let h2 = c[2] / 2;
        assert(0 <= h0 + h1 * w0 + h2 * (w0 * w1) <= (w0 - 1) + (w1 - 1) * w0 + (w2 - 1) * (w0 * w1)) by (nonlinear_arith)
            requires
                0 <= h0 < w0,
                0 <= h1 < w1,
                0 <= h2 < w2,
        ;
        assert((w0 - 1) + (w1 - 1) * w0 + (w2 - 1) * (w0 * w1) == w0 * w1 * w2 - 1) by (nonlinear_arith);
        assert(w0 * w1 * w2 <= 0x200 * 0x200 * 0x200) by (nonlinear_arith)
            requires
                0 <= w0 <= 0x200,
                0 <= w1 <= 0x200,
                0 <= w2 <= 0x200,
        ;
    }

    /// Distinct voxels live in distinct bits.
    proof fn lemma_slots_distinct(c: [usize; 3], e: [usize; 3], dims: [usize; 3])
        requires
            in_dims(c, dims),
            in_dims(e, dims),
            byte_index(c, dims) == byte_index(e, dims),
            bit_index(c) == bit_index(e),
        ensures
            c == e,
    {
        let w0 = half_up(dims[0] as int);
        let w1 = half_up(dims[1] as int);
        lemma_digits_unique(c[0] as int / 2, c[1] as int / 2, c[2] as int / 2, e[0] as int / 2, e[1] as int / 2, e[2] as int / 2, w0, w1);
        assert(c[0] == e[0] && c[1] == e[1] && c[2] == e[2]);
        assert(c =~= e);
    }

    /// A volume of size `dims` in which exactly the voxels listed are present.
    pub fn new(dims: [usize; 3], voxels: &Vec<[usize; 3]>) -> (r: BitVoxels)
        requires
            dims[0] <= MAX_VOXEL_DIM && dims[1] <= MAX_VOXEL_DIM && dims[2] <= MAX_VOXEL_DIM,
            forall|k: int| 0 <= k < voxels@.len() ==> in_dims(#[trigger] voxels@[k], dims),
        ensures
            r.wf(),
            r.dims == dims,
            forall|c: [usize; 3]| in_dims(c, dims) ==> (r.voxel(c) == voxels@.contains(c)),
    {
        let data_dims = [(dims[0] + 1) / 2, (dims[1] + 1) / 2, (dims[2] + 1) / 2];
        proof {
            assert(data_dims[0] * data_dims[1] <= 0x200 * 0x200) by (nonlinear_arith)
                requires
                    data_dims[0] <= 0x200,
                    data_dims[1] <= 0x200,
            ;
            assert(data_dims[0] * data_dims[1] * data_dims[2] <= 0x200 * 0x200 * 0x200) by (nonlinear_arith)
                requires
                    data_dims[0] * data_dims[1] <= 0x200 * 0x200,
                    data_dims[2] <= 0x200,
            ;
        }
        let data = vec![0u8; data_dims[0] * data_dims[1] * data_dims[2]];
        let mut b_voxels = BitVoxels { dims, data };
        proof {
            assert forall|c: [usize; 3]| in_dims(c, dims) implies !b_voxels.voxel(c) by {
                Self::lemma_byte_bounds(c, dims);
                let byte = b_voxels.data@[byte_index(c, dims)];
                assert(byte == 0u8);
                let t = bit_index(c) as u8;
                assert(!mask_bit(byte, t)) by (bit_vector)
                    requires
                        byte == 0u8,
                ;
            }
        }
        let mut k: usize = 0;
        while k < voxels.len()
            invariant
                k <= voxels@.len(),
                b_voxels.wf(),
                b_voxels.dims == dims,
                forall|q: int| 0 <= q < voxels@.len() ==> in_dims(#[trigger] voxels@[q], dims),
                forall|c: [usize; 3]| in_dims(c, dims) ==> (b_voxels.voxel(c) == voxels@.subrange(0, k as int).contains(c)),
            decreases voxels@.len() - k,
        {
            let v = voxels[k];
            b_voxels.set_voxel(v, true);
            proof {
                let pre = voxels@.subrange(0, k as int);
                let post = voxels@.subrange(0, k + 1);
                assert(post == pre.push(v));
                assert forall|c: [usize; 3]| in_dims(c, dims) implies (b_voxels.voxel(c) == post.contains(c)) by {
                    if c == v {
                        assert(post[k as int] == c);
                    } else {
                        if pre.contains(c) {
                            let q = choose|q: int| 0 <= q < pre.len() && pre[q] == c;
                            assert(post[q] == c);
                        }
                        if post.contains(c) {
                            let q = choose|q: int| 0 <= q < post.len() && post[q] == c;
                            assert(q < k);
                            assert(pre[q] == c);
                        }
                    }
                }
            }
            k += 1;
        }
        proof {
            assert(voxels@.subrange(0, voxels@.len() as int) == voxels@);
        }
        b_voxels
    }

    /// Sets the presence bit of voxel `coords` to `existence`.
    pub fn set_voxel(&mut self, coords: [usize; 3], existence: bool)
        requires
            old(self).wf(),
            in_dims(coords, old(self).dims),
        ensures
            final(self).wf(),
            final(self).dims == old(self).dims,
            final(self).voxel(coords) == existence,
            forall|c: [usize; 3]| in_dims(c, old(self).dims) && c != coords ==> final(self).voxel(c) == old(self).voxel(c),
    {
        proof {
            Self::lemma_byte_bounds(coords, self.dims);
        }
        let index = BitVoxels::index_from_coords(coords, self.dims);
        let nth_bit = BitVoxels::bit_pos_from_coords(coords) as u8;
        let byte = self.data[index];
        let e: u8 = if existence { 1 } else { 0 };
        let new_byte = (byte & !(1u8 << nth_bit)) | (e << nth_bit);
        self.data.set(index, new_byte);
        proof {
            assert(mask_bit(new_byte, nth_bit) == existence) by (bit_vector)
                requires
                    new_byte == (byte & !(1u8 << nth_bit)) | (e << nth_bit),
                    nth_bit < 8,
                    e == 1u8 || e == 0u8,
                    existence == (e == 1u8),
            ;
            assert forall|t: u8| t < 8 && t != nth_bit implies mask_bit(new_byte, t) == mask_bit(byte, t) by {
                assert(mask_bit(new_byte, t) == mask_bit(byte, t)) by (bit_vector)
                    requires
                        new_byte == (byte & !(1u8 << nth_bit)) | (e << nth_bit),
                        nth_bit < 8,
                        t < 8,
                        t != nth_bit,
                        e == 1u8 || e == 0u8,
                ;
            }
            assert forall|c: [usize; 3]| in_dims(c, old(self).dims) && c != coords implies self.voxel(c) == old(self).voxel(c) by {
                Self::lemma_byte_bounds(c, self.dims);
                if byte_index(c, self.dims) == index as int {
                    if bit_index(c) == bit_index(coords) {
                        Self::lemma_slots_distinct(c, coords, self.dims);
                    }
                    assert((bit_index(c) as u8) != nth_bit);
                }
            }
        }
    }

    /// Whether voxel `coords` is present.
    pub fn get_voxel(&self, coords: [usize; 3]) -> (r: bool)
        requires
            self.wf(),
            in_dims(coords, self.dims),
        ensures
            r == self.voxel(coords),
    {
        proof {
            Self::lemma_byte_bounds(coords, self.dims);
        }
        let byte = self.data[BitVoxels::index_from_coords(coords, self.dims)];
        let t = BitVoxels::bit_pos_from_coords(coords) as u8;
        let r = (byte & (1u8 << t)) != 0;
        assert(r == mask_bit(byte, t)) by (bit_vector)
            requires
                r == ((byte & (1u8 << t)) != 0),
                t < 8,
        ;
        r
    }

    pub fn dims(&self) -> (r: [usize; 3])
        ensures
            r == self.dims,
    {
        self.dims
    }

    fn index_from_coords(coords: [usize; 3], dims: [usize; 3]) -> (r: usize)
        requires
            in_dims(coords, dims),
            dims[0] <= MAX_VOXEL_DIM && dims[1] <= MAX_VOXEL_DIM && dims[2] <= MAX_VOXEL_DIM,
        ensures
            r == byte_index(coords, dims),
    {
        proof {
            Self::lemma_byte_bounds(coords, dims);
            let w0 = half_up(dims[0] as int);
            let w1 = half_up(dims[1] as int);
            assert(0 <= (coords[1] / 2) * w0 <= 0x200 * 0x200) by (nonlinear_arith)
                requires
                    0 <= coords[1] / 2 <= 0x200,
                    0 <= w0 <= 0x200,
            ;
            assert(0 <= w0 * w1 <= 0x200 * 0x200) by (nonlinear_arith)
                requires
                    0 <= w1 <= 0x200,
                    0 <= w0 <= 0x200,
            ;
            assert(0 <= (coords[2] / 2) * (w0 * w1) <= 0x200 * (0x200 * 0x200)) by (nonlinear_arith)
                requires
                    0 <= coords[2] / 2 <= 0x200,
                    0 <= w0 * w1 <= 0x200 * 0x200,
            ;
        }
        let data_dims = [(dims[0] + 1) / 2, (dims[1] + 1) / 2];
        (coords[0] / 2) + (coords[1] / 2) * data_dims[0] + (coords[2] / 2) * (data_dims[0] * data_dims[1])
    }

    /// The bit of a 2x2x2 block that holds the voxel whose odd axes are set.
    fn bit_pos_from_bool_coords(coords: [bool; 3]) -> (r: usize)
        ensures
            r == (if coords[0] { 1int } else { 0int }) + (if coords[1] { 2int } else { 0int }) + (if coords[2] { 4int } else { 0int }),
    {
        (coords[0] as usize) + (coords[1] as usize) * 2 + (coords[2] as usize) * 4
    }

    fn bit_pos_from_coords(coords: [usize; 3]) -> (r: usize)
        ensures
            r == bit_index(coords),
            r < 8,
    {
        BitVoxels::bit_pos_from_bool_coords([(coords[0] % 2) != 0, (coords[1] % 2) != 0, (coords[2] % 2) != 0])
    }
}

} // verus!
