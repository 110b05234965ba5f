//! A 32x32x32 voxel model used as a prefab: its presence bits, the palette
//! index of every voxel and the palette itself.
use vstd::prelude::*;
use crate::byte_voxels::{BitVoxels, in_dims};
use crate::descriptor::NULL_INDEX;
use crate::octree::{SESVOctree, TreeError};
use crate::vector::IVec3;

verus! {

/// Side of a prefab model, in voxels.
pub const PREFAB_WIDTH: usize = 32;

/// Voxels in a prefab model.
pub const PREFAB_VOLUME: usize = 32768;

/// One voxel of a model: its position and its palette index.
#[derive(Clone, Copy, PartialEq, Eq, Structural, Debug)]
pub struct Voxel {
    pub x: u8,
    pub y: u8,
    pub z: u8,
    pub i: u8,
}

impl Voxel {
    pub open spec fn coords(self) -> [usize; 3] {
        [self.x as usize, self.y as usize, self.z as usize]
    }
}

/// Why a model cannot be a prefab.
#[derive(Clone, Copy, PartialEq, Eq, Structural, Debug)]
pub enum PrefabError {
    /// The model is not 32 voxels on every side.
    Dimensions,
    /// A voxel lies outside the model.
    VoxelOutside,
}

/// The row-major index of a voxel of a prefab.
pub open spec fn prefab_index(c: [usize; 3]) -> int {
    c[0] + 32 * c[1] + 1024 * c[2]
}

pub open spec fn in_prefab(c: [usize; 3]) -> bool {
    c[0] < 32 && c[1] < 32 && c[2] < 32
}

/// The palette index at `c` after writing the first `k` voxels in order: the
/// last of them at `c`, or 0.
pub open spec fn palette_at(voxels: Seq<Voxel>, k: int, c: [usize; 3]) -> u8
    decreases k,
{
    if k <= 0 {
        0
    } else if voxels[k - 1].coords() == c {
        voxels[k - 1].i
    } else {
        palette_at(voxels, k - 1, c)
    }
}

/// Whether some voxel of the list sits at `c`.
pub open spec fn occupied(voxels: Seq<Voxel>, c: [usize; 3]) -> bool {
    exists|k: int| 0 <= k < voxels.len() && #[trigger] voxels[k].coords() == c
}

pub struct StandardVoxelPrefab {
    dims: [usize; 3],
    bit_voxels: BitVoxels,
    palette_volume: Vec<u8>,
    palette: [u32; 256],
}

impl StandardVoxelPrefab {
    pub closed spec fn bits(self) -> BitVoxels {
        self.bit_voxels
    }

    pub closed spec fn volume(self) -> Seq<u8> {
        self.palette_volume@
    }

    pub closed spec fn colors(self) -> [u32; 256] {
        self.palette
    }

    pub closed spec fn wf(self) -> bool {
        &&& self.dims == [32usize, 32usize, 32usize]
        &&& self.bit_voxels.wf()
        &&& self.bit_voxels.dims == [32usize, 32usize, 32usize]
        &&& self.palette_volume@.len() == PREFAB_VOLUME
    }

    /// A prefab from a model of size `dims` with the given voxels and palette.
    /// The model must be 32 voxels on every side and hold its voxels.
    pub fn new(dims: [usize; 3], voxels: &Vec<Voxel>, palette: [u32; 256]) -> (r: Result<StandardVoxelPrefab, PrefabError>)
        ensures
            (r == Err::<StandardVoxelPrefab, PrefabError>(PrefabError::Dimensions)) == (dims != [32usize, 32usize, 32usize]),
            (r == Err::<StandardVoxelPrefab, PrefabError>(PrefabError::VoxelOutside)) == (dims == [32usize, 32usize, 32usize]
                && exists|k: int| 0 <= k < voxels@.len() && !in_prefab(#[trigger] voxels@[k].coords())),
            r is Ok ==> r.unwrap().wf(),
            r is Ok ==> r.unwrap().colors() == palette,
            r is Ok ==> forall|c: [usize; 3]| in_prefab(c) ==> r.unwrap().bits().voxel(c) == occupied(voxels@, c),
            r is Ok ==> forall|c: [usize; 3]|
                in_prefab(c) ==> r.unwrap().volume()[prefab_index(c)] == palette_at(voxels@, voxels@.len() as int, c),
    {
        if dims[0] != PREFAB_WIDTH || dims[1] != PREFAB_WIDTH || dims[2] != PREFAB_WIDTH {
            proof {
                assert(dims != [32usize, 32usize, 32usize]);
            }
            return Err(PrefabError::Dimensions);
        }
        proof {
            assert(dims =~= [32usize, 32usize, 32usize]);
        }
        let mut coords: Vec<[usize; 3]> = Vec::new();
        let mut k: usize = 0;
        while k < voxels.len()
            invariant
                dims == [32usize, 32usize, 32usize],
                k <= voxels@.len(),
                coords@.len() == k,
                forall|q: int| 0 <= q < k ==> #[trigger] coords@[q] == voxels@[q].coords(),
                forall|q: int| 0 <= q < k ==> in_prefab(#[trigger] voxels@[q].coords()),
            decreases voxels@.len() - k,
        {
            let v = voxels[k];
            if v.x as usize >= PREFAB_WIDTH || v.y as usize >= PREFAB_WIDTH || v.z as usize >= PREFAB_WIDTH {
                proof {
                    assert(!in_prefab(voxels@[k as int].coords()));
                }
                return Err(PrefabError::VoxelOutside);
            }
            coords.push([v.x as usize, v.y as usize, v.z as usize]);
            k += 1;
        }
        let bit_voxels = BitVoxels::new(dims, &coords);
        let mut palette_volume: Vec<u8> = vec![0u8; PREFAB_VOLUME];
        let mut m: usize = 0;
        while m < voxels.len()
            invariant
                dims == [32usize, 32usize, 32usize],
                m <= voxels@.len(),
                palette_volume@.len() == PREFAB_VOLUME,
                forall|q: int| 0 <= q < voxels@.len() ==> in_prefab(#[trigger] voxels@[q].coords()),
                forall|c: [usize; 3]| in_prefab(c) ==> palette_volume@[prefab_index(c)] == palette_at(voxels@, m as int, c),
            decreases voxels@.len() - m,
        {
            let v = voxels[m];
            proof {
                assert(in_prefab(voxels@[m as int].coords()));
            }
            let index = v.x as usize + v.y as usize * PREFAB_WIDTH + v.z as usize * PREFAB_WIDTH * PREFAB_WIDTH;
            let ghost before = palette_volume@;
            palette_volume.set(index, v.i);
            proof {
                assert(in_prefab(v.coords()));
                assert forall|c: [usize; 3]| in_prefab(c) implies palette_volume@[prefab_index(c)] == palette_at(
                    voxels@,
                    m + 1,
                    c,
                ) by {
                    if c == v.coords() {
                    } else {
                        if c[0] == v.x && c[1] == v.y && c[2] == v.z {
                            assert(c =~= v.coords());
                        }
                        assert(prefab_index(c) != index as int);
                        assert(before[prefab_index(c)] == palette_at(voxels@, m as int, c));
                    }
                }
            }
            m += 1;
        }
        proof {
            assert forall|c: [usize; 3]| in_prefab(c) implies bit_voxels.voxel(c) == occupied(voxels@, c) by {
                assert(in_dims(c, dims));
                if coords@.contains(c) {
                    let q = choose|q: int| 0 <= q < coords@.len() && coords@[q] == c;
                    assert(voxels@[q].coords() == c);
                }
                if occupied(voxels@, c) {
                    let q = choose|q: int| 0 <= q < voxels@.len() && #[trigger] voxels@[q].coords() == c;
                    assert(coords@[q] == c);
                }
            }
        }
        Ok(StandardVoxelPrefab { dims, bit_voxels, palette_volume, palette })
    }

    /// The palette index of every voxel, row-major.
    pub fn palette_volume(&self) -> (r: Vec<u8>)
        ensures
            r@ == self.volume(),
    {
        let mut out: Vec<u8> = Vec::new();
        let mut i: usize = 0;
        while i < self.palette_volume.len()
            invariant
                i <= self.palette_volume@.len(),
                out@ == self.palette_volume@.subrange(0, i as int),
            decreases self.palette_volume@.len() - i,
        {
            out.push(self.palette_volume[i]);
            proof {
                assert(self.palette_volume@.subrange(0, i + 1) == self.palette_volume@.subrange(0, i as int).push(
                    self.palette_volume@[i as int],
                ));
            }
            i += 1;
        }
        proof {
            assert(self.palette_volume@.subrange(0, self.palette_volume@.len() as int) == self.palette_volume@);
        }
        out
    }

    /// The model's 256 colours.
    pub fn palette(&self) -> (r: [u32; 256])
        ensures
            r == self.colors(),
    {
        self.palette
    }

    /// A tree of degree 5 over the model that marks every present voxel. It
    /// fails only where a tree runs out of room for octuples: each insertion
    /// may add up to five octuples and the tree holds at most `MAX_OCTUPLES`,
    /// a bound that the contracts here do not rule out for a full model.
    pub fn tree_volume(&self) -> (r: Result<SESVOctree, TreeError>)
        requires
            self.wf(),
        ensures
            r is Ok ==> r.unwrap().wf(),
            r is Ok ==> r.unwrap().deg() == 5,
            r is Ok ==> r.unwrap().anchor() == (0int, 0int, 0int),
            r is Ok ==> forall|p: (int, int, int)|
                #[trigger] r.unwrap()@.contains_key(p) == (0 <= p.0 < 32 && 0 <= p.1 < 32 && 0 <= p.2 < 32
                    && self.bits().voxel([p.0 as usize, p.1 as usize, p.2 as usize])),
            r is Ok ==> forall|p: (int, int, int)| #[trigger] r.unwrap()@.contains_key(p) ==> r.unwrap()@[p] == NULL_INDEX,
            r is Err ==> r == Err::<SESVOctree, TreeError>(TreeError::Full),
    {
        let mut tree = SESVOctree::new(IVec3::zero(), 5);
        let ghost bits = self.bit_voxels;
        let mut x: usize = 0;
        proof {
            vstd::arithmetic::power2::lemma2_to64();
        }
        while x < 32
            invariant
                x <= 32,
                self.wf(),
                bits == self.bit_voxels,
                tree.wf(),
                tree.deg() == 5,
                tree.anchor() == (0int, 0int, 0int),
                vstd::arithmetic::power2::pow2(5) == 32,
                forall|p: (int, int, int)| #[trigger] tree@.contains_key(p) == (0 <= p.0 < x && 0 <= p.1 < 32 && 0 <= p.2 < 32
                    && bits.voxel([p.0 as usize, p.1 as usize, p.2 as usize])),
                forall|p: (int, int, int)| #[trigger] tree@.contains_key(p) ==> tree@[p] == NULL_INDEX,
            decreases 32 - x,
        {
            let mut y: usize = 0;
            while y < 32
                invariant
                    x < 32,
                    y <= 32,
                    self.wf(),
                    bits == self.bit_voxels,
                    tree.wf(),
                    tree.deg() == 5,
                    tree.anchor() == (0int, 0int, 0int),
                    vstd::arithmetic::power2::pow2(5) == 32,
                    forall|p: (int, int, int)| #[trigger] tree@.contains_key(p) == ((0 <= p.0 < x || (p.0 == x && 0 <= p.1 < y)) && 0 <= p.1
                        < 32 && 0 <= p.2 < 32 && bits.voxel([p.0 as usize, p.1 as usize, p.2 as usize])),
                    forall|p: (int, int, int)| #[trigger] tree@.contains_key(p) ==> tree@[p] == NULL_INDEX,
                decreases 32 - y,
            {
                let mut z: usize = 0;
                while z < 32
                    invariant
                        x < 32,
                        y < 32,
                        z <= 32,
                        self.wf(),
                        bits == self.bit_voxels,
                        tree.wf(),
                        tree.deg() == 5,
                        tree.anchor() == (0int, 0int, 0int),
                        vstd::arithmetic::power2::pow2(5) == 32,
                        forall|p: (int, int, int)| #[trigger] tree@.contains_key(p) == ((0 <= p.0 < x || (p.0 == x && 0 <= p.1 < y) || (p.0
                            == x && p.1 == y && 0 <= p.2 < z)) && 0 <= p.1 < 32 && 0 <= p.2 < 32 && bits.voxel(
                            [p.0 as usize, p.1 as usize, p.2 as usize],
                        )),
                        forall|p: (int, int, int)| #[trigger] tree@.contains_key(p) ==> tree@[p] == NULL_INDEX,
                    decreases 32 - z,
                {
                    proof {
                        assert(in_dims([x, y, z], bits.dims));
                    }
                    if self.bit_voxels.get_voxel([x, y, z]) {
                        let ghost before = tree;
                        let p = IVec3 { x: x as i32, y: y as i32, z: z as i32 };
                        let r = tree.insert_no_val(p);
                        proof {
                            crate::octree::lemma_insert_ok(before, p@, NULL_INDEX, tree, r);
                        }
                        if r.is_err() {
                            return Err(TreeError::Full);
                        }
                        proof {
                            assert forall|q: (int, int, int)| #[trigger] tree@.contains_key(q) == ((0 <= q.0 < x || (q.0 == x && 0 <= q.1 < y) || (
                            q.0 == x && q.1 == y && 0 <= q.2 < z + 1)) && 0 <= q.1 < 32 && 0 <= q.2 < 32 && bits.voxel(
                                [q.0 as usize, q.1 as usize, q.2 as usize],
                            )) by {
                                if q == p@ {
                                    assert([q.0 as usize, q.1 as usize, q.2 as usize] =~= [x, y, z]);
                                }
                            }
                        }
                    } else {
                        proof {
                            assert forall|q: (int, int, int)| #[trigger] tree@.contains_key(q) == ((0 <= q.0 < x || (q.0 == x && 0 <= q.1 < y) || (
                            q.0 == x && q.1 == y && 0 <= q.2 < z + 1)) && 0 <= q.1 < 32 && 0 <= q.2 < 32 && bits.voxel(
                                [q.0 as usize, q.1 as usize, q.2 as usize],
                            )) by {
                                if q.0 == x && q.1 == y && q.2 == z {
                                    assert([q.0 as usize, q.1 as usize, q.2 as usize] =~= [x, y, z]);
                                }
                            }
                        }
                    }
                    z += 1;
                }
                y += 1;
            }
            x += 1;
        }
        Ok(tree)
    }
}

} // verus!
