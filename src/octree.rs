//! A flat, array-backed sparse voxel octree whose node array is uploaded as is.
use vstd::prelude::*;
use vstd::arithmetic::power2::{pow2, lemma_pow2_unfold, lemma_pow2_pos, lemma2_to64, lemma_pow2_strictly_increases};
use vstd::bits::{lemma_u64_shl_is_mul, lemma_u64_pow2_no_overflow};
use crate::descriptor::{ChildDescriptor, NULL_INDEX, lemma_mask_zero_iff_no_child};
use crate::vector::IVec3;

verus! {

/// Most octuples a tree can hold: every child reference must fit below the
/// 16-bit null sentinel.
pub const MAX_OCTUPLES: usize = 65535;

/// Largest degree: the side of the cube, `2^degree`, stays an `i32` distance.
pub const MAX_DEGREE: u32 = 31;

/// Why an insertion was refused.
#[derive(Clone, Copy, PartialEq, Eq, Structural, Debug)]
pub enum TreeError {
    /// The coordinate lies outside the tree's cube.
    OutOfBounds,
    /// The octuples that the insertion may need might not fit any more.
    Full,
}

/// Whether `x` lies in the cube of side `w` whose lowest corner is `o`.
pub open spec fn in_box(x: (int, int, int), o: (int, int, int), w: int) -> bool {
    &&& o.0 <= x.0 < o.0 + w
    &&& o.1 <= x.1 < o.1 + w
    &&& o.2 <= x.2 < o.2 + w
}

/// The child octant of the cube at `o` (half side `half`) that holds `x`:
/// bit `i` is set when coordinate `i` of `x - o` is at least `half`.
pub open spec fn octant_of(x: (int, int, int), o: (int, int, int), half: int) -> int {
    (if x.0 - o.0 >= half { 1int } else { 0int }) + (if x.1 - o.1 >= half { 2int } else { 0int }) + (
    if x.2 - o.2 >= half {
        4int
    } else {
        0int
    })
}

/// Lowest corner of the child cube that holds `x`.
pub open spec fn child_origin(x: (int, int, int), o: (int, int, int), half: int) -> (int, int, int) {
    (
        if x.0 - o.0 >= half { o.0 + half } else { o.0 },
        if x.1 - o.1 >= half { o.1 + half } else { o.1 },
        if x.2 - o.2 >= half { o.2 + half } else { o.2 },
    )
}

/// Follows the octants of `x` for `j` levels from the root descriptor of a
/// tree of degree `d` anchored at `a`: the descriptor index and cube origin
/// reached, or `None` where a needed child does not exist.
pub open spec fn reach(cds: Seq<ChildDescriptor>, a: (int, int, int), d: nat, x: (int, int, int), j: nat) -> Option<(int, (int, int, int))>
    decreases j,
{
    if j == 0 {
        Some((0int, a))
    } else {
        match reach(cds, a, d, x, (j - 1) as nat) {
            None => None,
            Some(r) => {
                let half = pow2((d - j) as nat) as int;
                let t = octant_of(x, r.1, half);
                if cds[r.0].has_child(t) {
                    Some((cds[r.0].octuple_index * 8 + t, child_origin(x, r.1, half)))
                } else {
                    None
                }
            },
        }
    }
}

/// The tree invariant over a node array and the depth of each octuple:
/// descriptors with children point to an existing octuple one level deeper
/// (at the last inner depth they may instead keep the null index, marking
/// occupancy only), no two of them share an octuple, and a child that is not
/// marked is null.
pub open spec fn tree_inv(c: Seq<ChildDescriptor>, dep: Seq<nat>, d: nat) -> bool {
    &&& c.len() == 8 * dep.len()
    &&& 1 <= dep.len() <= MAX_OCTUPLES
    &&& dep[0] == 0
    &&& forall|i: int|
        0 <= i < c.len() && #[trigger] c[i].valid_mask != 0 ==> {
            ||| c[i].octuple_index == NULL_INDEX && dep[i / 8] + 1 == d
            ||| {
                &&& 1 <= c[i].octuple_index < dep.len()
                &&& dep[c[i].octuple_index as int] == dep[i / 8] + 1
                &&& dep[i / 8] < d
            }
        }
    &&& forall|i: int, j: int|
        0 <= i < c.len() && 0 <= j < c.len() && i != j && #[trigger] c[i].valid_mask != 0
            && #[trigger] c[j].valid_mask != 0 && c[i].octuple_index != NULL_INDEX ==> c[i].octuple_index
            != c[j].octuple_index
    &&& forall|i: int, t: int|
        0 <= i < c.len() && 0 <= t < 8 && c[i].valid_mask != 0 && c[i].octuple_index != NULL_INDEX
            && !#[trigger] c[i].has_child(t) ==> c[c[i].octuple_index * 8 + t].is_null()
}

/// A descriptor of the last inner depth that marks occupied voxels only: it
/// has children but no octuple for them.
pub open spec fn occupancy_only(cd: ChildDescriptor) -> bool {
    cd.valid_mask != 0 && cd.octuple_index == NULL_INDEX
}

/// Simple efficient sparse voxel octree: a cube of side `2^degree` anchored at
/// an integer position. Descriptors come in octuples; octuple 0 holds the
/// root descriptor at index 0. Inner descriptors point to the octuple of their
/// children; a descriptor at the final depth holds a stored value.
pub struct SESVOctree {
    cds: Vec<ChildDescriptor>,
    pos: IVec3,
    degree: u32,
    depths: Ghost<Seq<nat>>,
}

impl View for SESVOctree {
    type V = Map<(int, int, int), u16>;

    /// The stored voxels: each coordinate whose path ends in a leaf, with the
    /// leaf's value.
    open spec fn view(&self) -> Map<(int, int, int), u16> {
        Map::new(|x: (int, int, int)| self.contains(x), |x: (int, int, int)| self.value_at(x))
    }
}

impl SESVOctree {
    /// The node array.
    pub closed spec fn nodes(self) -> Seq<ChildDescriptor> {
        self.cds@
    }

    /// The lowest corner of the cube.
    pub closed spec fn anchor(self) -> (int, int, int) {
        self.pos@
    }

    /// The degree: the cube's side is `2^deg()`.
    pub closed spec fn deg(self) -> nat {
        self.degree as nat
    }

    pub closed spec fn wf(self) -> bool {
        &&& tree_inv(self.cds@, self.depths@, self.degree as nat)
        &&& self.degree <= MAX_DEGREE
    }

    pub open spec fn octuple_count(self) -> int {
        self.nodes().len() as int / 8
    }

    pub open spec fn in_cube(self, x: (int, int, int)) -> bool {
        in_box(x, self.anchor(), pow2(self.deg()) as int)
    }

    /// The leaf reached by following the octants of `x` from the root.
    pub open spec fn leaf_of(self, x: (int, int, int)) -> Option<(int, (int, int, int))> {
        reach(self.nodes(), self.anchor(), self.deg(), x, self.deg())
    }

    pub open spec fn contains(self, x: (int, int, int)) -> bool {
        self.in_cube(x) && self.deg() >= 1 && self.leaf_of(x) is Some
    }

    /// The value of the leaf of `x`; a leaf under an occupancy-only descriptor
    /// has no descriptor of its own and reads as the null index.
    pub open spec fn value_at(self, x: (int, int, int)) -> u16 {
        if self.leaf_of(x).unwrap().0 < self.nodes().len() {
            self.nodes()[self.leaf_of(x).unwrap().0].octuple_index
        } else {
            NULL_INDEX
        }
    }

    fn push_octuple(&mut self, Ghost(depth): Ghost<nat>) -> (r: u32)
        requires
            old(self).cds@.len() + 8 <= 8 * MAX_OCTUPLES,
            old(self).cds@.len() == 8 * old(self).depths@.len(),
        ensures
            r as int == old(self).depths@.len(),
            final(self).cds@.len() == old(self).cds@.len() + 8,
            final(self).cds@.subrange(0, old(self).cds@.len() as int) == old(self).cds@,
            forall|i: int|
                old(self).cds@.len() <= i < final(self).cds@.len() ==> (#[trigger] final(self).cds@[i]).is_null(),
            final(self).depths@ == old(self).depths@.push(depth),
            final(self).pos == old(self).pos,
            final(self).degree == old(self).degree,
    {
        let new_index = self.cds.len() / 8;
        let ghost start = self.cds@;
        let mut k: usize = 0;
        while k < 8
            invariant
                k <= 8,
                self.cds@.len() == start.len() + k,
                self.cds@.subrange(0, start.len() as int) == start,
                forall|i: int| start.len() <= i < self.cds@.len() ==> (#[trigger] self.cds@[i]).is_null(),
                start.len() + 8 <= 8 * MAX_OCTUPLES,
                self.pos == old(self).pos,
                self.degree == old(self).degree,
                self.depths == old(self).depths,
            decreases 8 - k,
        {
            self.cds.push(ChildDescriptor::new_null());
            k += 1;
        }
        self.depths = Ghost(self.depths@.push(depth));
        new_index as u32
    }

    /// A tree of one root octuple of null descriptors.
    pub fn new(pos: IVec3, degree: u32) -> (r: SESVOctree)
        requires
            degree <= MAX_DEGREE,
        ensures
            r.wf(),
            r.anchor() == pos@,
            r.deg() == degree,
            r.octuple_count() == 1,
            r.nodes().len() == 8,
            forall|i: int| 0 <= i < 8 ==> (#[trigger] r.nodes()[i]).is_null(),
            r@ == Map::<(int, int, int), u16>::empty(),
    {
        let mut tree = SESVOctree { cds: Vec::new(), pos, degree, depths: Ghost(Seq::empty()) };
        tree.push_octuple(Ghost(0));
        proof {
            tree.lemma_fresh_wf();
        }
        tree
    }

    /// Discards every octuple and starts again from one null root octuple.
    pub fn clear(&mut self)
        requires
            old(self).wf(),
        ensures
            final(self).wf(),
            final(self).anchor() == old(self).anchor(),
            final(self).deg() == old(self).deg(),
            final(self).octuple_count() == 1,
            final(self).nodes().len() == 8,
            forall|i: int| 0 <= i < 8 ==> (#[trigger] final(self).nodes()[i]).is_null(),
            final(self)@ == Map::<(int, int, int), u16>::empty(),
    {
        self.cds.clear();
        self.depths = Ghost(Seq::empty());
        self.push_octuple(Ghost(0));
        proof {
            self.lemma_fresh_wf();
        }
    }

    proof fn lemma_fresh_wf(&self)
        requires
            self.cds@.len() == 8,
            self.depths@ == seq![0nat],
            forall|i: int| 0 <= i < 8 ==> (#[trigger] self.cds@[i]).is_null(),
            self.degree <= MAX_DEGREE,
        ensures
            self.wf(),
            self@ == Map::<(int, int, int), u16>::empty(),
    {
        let c = self.cds@;
        assert forall|i: int, t: int| 0 <= i < c.len() && 0 <= t < 8 && c[i].valid_mask != 0
            && !#[trigger] c[i].has_child(t) implies c[c[i].octuple_index * 8 + t].is_null() by {
            assert(c[i].is_null());
        }
        assert(tree_inv(c, self.depths@, self.degree as nat));
        assert forall|x: (int, int, int)| !self.contains(x) by {
            if self.deg() >= 1 {
                assert(c[0].is_null());
                lemma_mask_zero_iff_no_child(c[0]);
                assert(reach(c, self.anchor(), self.deg(), x, 0) == Some((0int, self.anchor())));
                assert(reach(c, self.anchor(), self.deg(), x, 1) is None);
                lemma_reach_none_mono(c, self.anchor(), self.deg(), x, 1, self.deg());
            }
        }
        assert(self@ =~= Map::<(int, int, int), u16>::empty());
    }

    /// Marks child `t` of descriptor `node` as existing, first giving `node` an
    /// octuple of its own if it had no child yet; returns the child's index.
    fn open_child(&mut self, node: usize, t: u32, Ghost(k): Ghost<nat>, mark_only: bool) -> (child: usize)
        requires
            old(self).wf(),
            node < old(self).cds@.len(),
            old(self).depths@[node as int / 8] == k,
            k < old(self).degree,
            mark_only ==> k + 1 == old(self).degree,
            t < 8,
            !old(self).cds@[node as int].has_child(t as int),
            old(self).depths@.len() < MAX_OCTUPLES,
            not_unmarked_child(old(self).cds@, node as int),
        ensures
            final(self).wf(),
            final(self).pos == old(self).pos,
            final(self).degree == old(self).degree,
            grown(old(self).cds@, final(self).cds@, node as int, t as int),
            depths_kept(old(self).depths@, final(self).depths@),
            final(self).depths@.len() <= old(self).depths@.len() + 1,
            mark_only ==> final(self).depths@ == old(self).depths@,
            !mark_only ==> final(self).cds@[node as int].octuple_index != NULL_INDEX,
            child as int == final(self).cds@[node as int].octuple_index * 8 + t,
            final(self).cds@[node as int].octuple_index != NULL_INDEX ==> child < final(self).cds@.len()
                && final(self).depths@[child as int / 8] == k + 1,
            not_unmarked_child(final(self).cds@, child as int),
            final(self).cds@ == open_step(old(self).cds@, node as int, t as int, mark_only),
    {
        let ghost c1 = self.cds@;
        let ghost dep1 = self.depths@;
        let ghost d = self.degree as nat;
        let mut cd = self.cds[node];
        let no_child = cd.is_no_child_valid();
        let fresh_needed = !mark_only && (no_child || cd.octuple_index == NULL_INDEX);
        if fresh_needed {
            let fresh = self.push_octuple(Ghost(k + 1));
            cd.octuple_index = fresh as u16;
        } else if mark_only && no_child {
            cd.octuple_index = NULL_INDEX;
        }
        let ghost mid = self.cds@;
        cd.set_child_valid(t);
        self.cds.set(node, cd);
        let child = (cd.octuple_index as usize) * 8 + (t as usize);
        proof {
            let c2 = self.cds@;
            let dep2 = self.depths@;
            let n = node as int;
            let ti = t as int;
            lemma_mask_zero_iff_no_child(c1[n]);
            assert forall|i: int| 0 <= i < c1.len() && i != n implies c2[i] == c1[i] by {
                assert(mid[i] == c1[i]);
            }
            assert forall|i: int| c1.len() <= i < c2.len() implies (#[trigger] c2[i]).is_null() by {
                assert(mid[i] == c2[i]);
            }
            let oi = c2[n].octuple_index as int;
            assert(oi != NULL_INDEX ==> 1 <= oi < dep2.len() && dep2[oi] == k + 1);
            assert(child as int / 8 == oi);
            assert(oi != NULL_INDEX ==> c2[oi * 8 + ti].is_null()) by {
                if oi != NULL_INDEX && !fresh_needed {
                    assert(c1[n].valid_mask != 0);
                    assert(!c1[n].has_child(ti));
                    assert(c1[oi * 8 + ti].is_null());
                }
            }
            // The invariant, clause by clause.
            assert forall|i: int| 0 <= i < c2.len() && #[trigger] c2[i].valid_mask != 0 implies {
                ||| c2[i].octuple_index == NULL_INDEX && dep2[i / 8] + 1 == d
                ||| {
                    &&& 1 <= c2[i].octuple_index < dep2.len()
                    &&& dep2[c2[i].octuple_index as int] == dep2[i / 8] + 1
                    &&& dep2[i / 8] < d
                }
            } by {
                if i != n {
                    assert(c2[i] == c1[i]);
                    assert(c1[i].valid_mask != 0);
                }
            }
            assert forall|i: int, j: int|
                0 <= i < c2.len() && 0 <= j < c2.len() && i != j && #[trigger] c2[i].valid_mask != 0
                    && #[trigger] c2[j].valid_mask != 0 && c2[i].octuple_index != NULL_INDEX implies c2[i].octuple_index
                    != c2[j].octuple_index by {
                if i != n {
                    assert(c2[i] == c1[i]);
                }
                if j != n {
                    assert(c2[j] == c1[j]);
                }
            }
            assert forall|i: int, u: int|
                0 <= i < c2.len() && 0 <= u < 8 && c2[i].valid_mask != 0 && c2[i].octuple_index != NULL_INDEX
                    && !#[trigger] c2[i].has_child(u) implies c2[c2[i].octuple_index * 8 + u].is_null() by {
                if i == n {
                    if !fresh_needed {
                        assert(!c1[n].has_child(u));
                        assert(c1[oi * 8 + u].is_null());
                        assert(oi * 8 + u != n);
                        assert(c2[oi * 8 + u] == c1[oi * 8 + u]);
                    }
                } else {
                    assert(c2[i] == c1[i]);
                    let idx = c1[i].octuple_index * 8 + u;
                    assert(c1[idx].is_null());
                    assert(idx != n);
                    assert(idx < c1.len());
                    assert(c2[idx] == c1[idx]);
                }
            }
            assert(tree_inv(c2, dep2, d));
            assert forall|i: int, u: int|
                0 <= i < c2.len() && 0 <= u < 8 && c2[i].valid_mask != 0 && c2[i].octuple_index != NULL_INDEX
                    && !#[trigger] c2[i].has_child(u) implies c2[i].octuple_index * 8 + u != child as int by {
                if i != n && oi != NULL_INDEX {
                    assert(c2[i].octuple_index != c2[n].octuple_index);
                }
            }
            if fresh_needed {
                assert(mid =~= c1 + null_octuple());
                assert(c2 =~= open_step(c1, n, ti, mark_only));
            } else {
                assert(c2 =~= open_step(c1, n, ti, mark_only));
            }
        }
        child
    }

    /// The side of the cube, `2^degree`.
    fn side(&self) -> (r: i64)
        requires
            self.wf(),
        ensures
            r == pow2(self.deg()),
            r <= 0x8000_0000,
    {
        proof {
            lemma_u64_pow2_no_overflow(self.degree as nat);
            lemma_u64_shl_is_mul(1u64, self.degree as u64);
            lemma2_to64();
            if self.degree < 31 {
                lemma_pow2_strictly_increases(self.degree as nat, 31);
            }
        }
        (1u64 << (self.degree as u64)) as i64
    }

    /// Whether `pos` lies in the tree's cube.
    pub fn contains_point(&self, pos: IVec3) -> (r: bool)
        requires
            self.wf(),
        ensures
            r == self.in_cube(pos@),
    {
        let w = self.side();
        let ax = self.pos.x as i64;
        let ay = self.pos.y as i64;
        let az = self.pos.z as i64;
        let px = pos.x as i64;
        let py = pos.y as i64;
        let pz = pos.z as i64;
        ax <= px && px < ax + w && ay <= py && py < ay + w && az <= pz && pz < az + w
    }

    /// The leaf descriptor on the path of `pos`, if the whole path exists.
    fn find_leaf(&self, pos: IVec3) -> (r: Option<usize>)
        requires
            self.wf(),
            self.in_cube(pos@),
            self.deg() >= 1,
        ensures
            r is Some == self.leaf_of(pos@) is Some,
            r is Some ==> r.unwrap() as int == self.leaf_of(pos@).unwrap().0,
    {
        let ghost c = self.cds@;
        let ghost a = self.pos@;
        let ghost dn = self.degree as nat;
        let ghost p = pos@;
        let d = self.degree;
        let mut node: usize = 0;
        let mut ox = self.pos.x as i64;
        let mut oy = self.pos.y as i64;
        let mut oz = self.pos.z as i64;
        proof {
            lemma_pow2_unfold(dn);
        }
        let mut half = self.side() / 2;
        let mut k: u32 = 0;
        while k < d
            invariant
                self.wf(),
                c == self.cds@,
                a == self.pos@,
                d == self.degree,
                dn == d as nat,
                p == pos@,
                1 <= d,
                k <= d,
                in_box(p, a, pow2(dn) as int),
                k < d ==> half == pow2((dn - k - 1) as nat),
                reach(c, a, dn, p, k as nat) == Some((node as int, (ox as int, oy as int, oz as int))),
            decreases d - k,
        {
            proof {
                lemma_reach_box(c, a, dn, p, k as nat);
                lemma_reach_index(c, self.depths@, a, dn, p, k as nat);
                lemma_pow2_unfold((dn - k) as nat);
                lemma_pow2_pos((dn - k - 1) as nat);
                lemma_half_bound(dn, k as nat);
            }
            let (t, nx, ny, nz) = octant_step(pos, ox, oy, oz, half);
            if !self.cds[node].is_child_valid(t) {
                proof {
                    lemma_reach_none_mono(c, a, dn, p, (k + 1) as nat, dn);
                }
                return None;
            }
            proof {
                lemma_has_child_nonzero(c[node as int], t as int);
            }
            node = (self.cds[node].octuple_index as usize) * 8 + (t as usize);
            ox = nx;
            oy = ny;
            oz = nz;
            if k + 1 < d {
                proof {
                    lemma_pow2_unfold((dn - k - 1) as nat);
                }
                half = half / 2;
            }
            k += 1;
        }
        Some(node)
    }

    /// Opens the missing part of the path of `pos` and, when `store` is set,
    /// writes `value` into the new leaf.
    fn insert_path(&mut self, pos: IVec3, value: u16, store: bool)
        requires
            old(self).wf(),
            old(self).in_cube(pos@),
            old(self).deg() >= 1,
            old(self).leaf_of(pos@) is None,
            old(self).depths@.len() + old(self).deg() <= MAX_OCTUPLES,
        ensures
            final(self).wf(),
            final(self).pos == old(self).pos,
            final(self).degree == old(self).degree,
            final(self)@ == old(self)@.insert(pos@, if store { value } else { NULL_INDEX }),
            final(self).depths@.len() <= old(self).depths@.len() + old(self).degree,
            !store ==> final(self).depths@.len() + 1 <= old(self).depths@.len() + old(self).degree,
            store ==> final(self).leaf_of(pos@).unwrap().0 < final(self).nodes().len(),
            final(self).cds@ == insert_nodes(
                old(self).cds@,
                0,
                old(self).pos@,
                old(self).degree as nat,
                pos@,
                if store { Some(value) } else { None },
            ),
            old(self).cds@.len() <= final(self).cds@.len(),
            forall|i: int, u: int|
                0 <= i < old(self).cds@.len() && #[trigger] old(self).cds@[i].has_child(u) ==> final(self).cds@[i].has_child(u),
            forall|i: int|
                0 <= i < old(self).cds@.len() && #[trigger] old(self).cds@[i].valid_mask != 0
                    && old(self).cds@[i].octuple_index != NULL_INDEX ==> final(self).cds@[i].octuple_index
                    == old(self).cds@[i].octuple_index,
    {
        let ghost c0 = self.cds@;
        let ghost vv: Option<u16> = if store { Some(value) } else { None };
        let ghost a = self.pos@;
        let ghost dn = self.degree as nat;
        let ghost p = pos@;
        let ghost w = pow2(dn) as int;
        let d = self.degree;
        let mut node: usize = 0;
        let mut ox = self.pos.x as i64;
        let mut oy = self.pos.y as i64;
        let mut oz = self.pos.z as i64;
        proof {
            lemma_pow2_unfold(dn);
            assert forall|i: int, u: int|
                0 <= i < c0.len() && 0 <= u < 8 && c0[i].valid_mask != 0 && c0[i].octuple_index != NULL_INDEX
                    && !#[trigger] c0[i].has_child(u) implies c0[i].octuple_index * 8 + u != 0 by {}
        }
        let mut half = self.side() / 2;
        let mut k: u32 = 0;
        while k + 1 < d
            invariant
                self.wf(),
                a == self.pos@,
                self.pos == old(self).pos,
                self.degree == old(self).degree,
                d == self.degree,
                dn == d as nat,
                p == pos@,
                w == pow2(dn) as int,
                1 <= d,
                k < d,
                in_box(p, a, w),
                half == pow2((dn - k - 1) as nat),
                reach(self.cds@, a, dn, p, k as nat) == Some((node as int, (ox as int, oy as int, oz as int))),
                reach(self.cds@, a, dn, p, dn) is None,
                not_unmarked_child(self.cds@, node as int),
                self.depths@.len() + (d - k) <= MAX_OCTUPLES,
                self.depths@.len() <= old(self).depths@.len() + k,
                vv == (if store { Some(value) } else { None::<u16> }),
                c0 == old(self).cds@,
                insert_nodes(c0, 0, a, dn, p, vv) == insert_nodes(
                    self.cds@,
                    node as int,
                    (ox as int, oy as int, oz as int),
                    (dn - k) as nat,
                    p,
                    vv,
                ),
                c0.len() <= self.cds@.len(),
                forall|i: int, u: int| 0 <= i < c0.len() && #[trigger] c0[i].has_child(u) ==> self.cds@[i].has_child(u),
                forall|i: int|
                    0 <= i < c0.len() && #[trigger] c0[i].valid_mask != 0 && c0[i].octuple_index != NULL_INDEX
                        ==> self.cds@[i].octuple_index == c0[i].octuple_index,
                forall|x: (int, int, int)|
                    in_box(x, a, w) && x != p ==> #[trigger] reach(c0, a, dn, x, dn) == reach(self.cds@, a, dn, x, dn)
                        && (reach(c0, a, dn, x, dn) is Some && reach(c0, a, dn, x, dn).unwrap().0 < c0.len()
                        ==> self.cds@[reach(c0, a, dn, x, dn).unwrap().0] == c0[reach(c0, a, dn, x, dn).unwrap().0]),
            decreases d - k,
        {
            let ghost c1 = self.cds@;
            let ghost dep1 = self.depths@;
            let ghost o = (ox as int, oy as int, oz as int);
            proof {
                lemma_reach_box(c1, a, dn, p, k as nat);
                lemma_reach_index(c1, dep1, a, dn, p, k as nat);
                lemma_pow2_unfold((dn - k) as nat);
                lemma_pow2_pos((dn - k - 1) as nat);
                lemma_half_bound(dn, k as nat);
            }
            let (t, nx, ny, nz) = octant_step(pos, ox, oy, oz, half);
            let valid = self.cds[node].is_child_valid(t);
            if valid {
                proof {
                    lemma_has_child_nonzero(c1[node as int], t as int);
                    lemma_marked_child(c1, dep1, dn, node as int, t as int);
                    assert(open_step(c1, node as int, t as int, false) == c1);
                    assert(insert_nodes(c1, node as int, o, (dn - k) as nat, p, vv) == insert_nodes(
                        c1,
                        c1[node as int].octuple_index * 8 + t,
                        child_origin(p, o, half as int),
                        (dn - k - 1) as nat,
                        p,
                        vv,
                    ));
                }
                node = (self.cds[node].octuple_index as usize) * 8 + (t as usize);
            } else {
                let child = self.open_child(node, t, Ghost(k as nat), false);
                proof {
                    let c2 = self.cds@;
                    let dep2 = self.depths@;
                    if c1[node as int].valid_mask != 0 {
                        assert(!occupancy_only(c1[node as int]));
                    }
                    lemma_grow_prefix(c1, dep1, c2, a, dn, p, node as int, t as int, k as nat, k as nat);
                    assert(reach(c2, a, dn, p, (k + 1) as nat) == Some((child as int, child_origin(p, o, half as int))));
                    lemma_mask_zero_iff_no_child(c2[child as int]);
                    assert(reach(c2, a, dn, p, (k + 2) as nat) is None);
                    lemma_reach_none_mono(c2, a, dn, p, (k + 2) as nat, dn);
                    assert forall|x: (int, int, int)| in_box(x, a, w) && x != p implies #[trigger] reach(c0, a, dn, x, dn)
                        == reach(c2, a, dn, x, dn) && (reach(c0, a, dn, x, dn) is Some && reach(c0, a, dn, x, dn).unwrap().0
                        < c0.len() ==> c2[reach(c0, a, dn, x, dn).unwrap().0] == c0[reach(c0, a, dn, x, dn).unwrap().0]) by {
                        lemma_grow_frame(c1, dep1, c2, dep2, a, dn, p, x, node as int, o, k as nat);
                    }
                    assert(insert_nodes(c1, node as int, o, (dn - k) as nat, p, vv) == insert_nodes(
                        c2,
                        child as int,
                        child_origin(p, o, half as int),
                        (dn - k - 1) as nat,
                        p,
                        vv,
                    ));
                    lemma_grow_keeps(c0, c1, c2, node as int, t as int);
                }
                node = child;
            }
            ox = nx;
            oy = ny;
            oz = nz;
            proof {
                lemma_pow2_unfold((dn - k - 1) as nat);
            }
            half = half / 2;
            k += 1;
        }
        // The last level: the leaf itself is missing.
        let ghost c1 = self.cds@;
        let ghost dep1 = self.depths@;
        let ghost o = (ox as int, oy as int, oz as int);
        proof {
            lemma_reach_box(c1, a, dn, p, k as nat);
            lemma_reach_index(c1, dep1, a, dn, p, k as nat);
            lemma_pow2_unfold((dn - k) as nat);
            lemma_pow2_pos((dn - k - 1) as nat);
            lemma_half_bound(dn, k as nat);
        }
        let (t, _nx, _ny, _nz) = octant_step(pos, ox, oy, oz, half);
        proof {
            assert(!c1[node as int].has_child(t as int));
        }
        let leaf = self.open_child(node, t, Ghost(k as nat), !store);
        let ghost c2 = self.cds@;
        let ghost dep2 = self.depths@;
        proof {
            lemma_grow_keeps(c0, c1, c2, node as int, t as int);
            lemma_grow_prefix(c1, dep1, c2, a, dn, p, node as int, t as int, k as nat, k as nat);
            assert(reach(c2, a, dn, p, dn) == Some((leaf as int, child_origin(p, o, half as int))));
        }
        if store {
            let mut cd = self.cds[leaf];
            cd.octuple_index = value;
            self.cds.set(leaf, cd);
            proof {
                let c3 = self.cds@;
                assert forall|i: int, u: int|
                    0 <= i < c3.len() && 0 <= u < 8 && c3[i].valid_mask != 0 && c3[i].octuple_index != NULL_INDEX
                        && !#[trigger] c3[i].has_child(u) implies c3[c3[i].octuple_index * 8 + u].is_null() by {
                    assert(c2[i] == c3[i]);
                    assert(c2[i].octuple_index * 8 + u != leaf as int);
                }
                assert(tree_inv(c3, dep2, dn));
            }
        }
        proof {
            let c3 = self.cds@;
            let v = if store { value } else { NULL_INDEX };
            assert(c3.len() == c2.len());
            assert forall|i: int| 0 <= i < c2.len() && i != leaf as int implies c3[i] == c2[i] by {}
            assert(store ==> c3[leaf as int].valid_mask == 0 && leaf < c2.len());
            assert forall|x: (int, int, int)| reach(c3, a, dn, x, dn) == reach(c2, a, dn, x, dn) by {
                lemma_reach_same_shape(c2, c3, dep2, a, dn, x, dn);
            }
            // The new voxel.
            assert(self.contains(p));
            assert(self.value_at(p) == v) by {
                if !store && c2[node as int].octuple_index != NULL_INDEX {
                    assert(c2[leaf as int].is_null());
                }
            }
            // Every other voxel.
            assert forall|x: (int, int, int)| in_box(x, a, w) && x != p implies self.contains(x) == old(self).contains(x)
                && (old(self).contains(x) ==> self.value_at(x) == old(self).value_at(x)) by {
                lemma_grow_frame(c1, dep1, c2, dep2, a, dn, p, x, node as int, o, k as nat);
                lemma_reach_index(c0, old(self).depths@, a, dn, x, dn);
                lemma_reach_index(c2, dep2, a, dn, x, dn);
                if let Some(r0) = reach(c0, a, dn, x, dn) {
                    let r2 = reach(c2, a, dn, x, dn).unwrap();
                    if store && r2.0 == leaf as int {
                        lemma_reach_origin_unique(c2, dep2, a, dn, x, p, dn);
                        lemma_reach_box(c2, a, dn, x, dn);
                        lemma_reach_box(c2, a, dn, p, dn);
                        lemma2_to64();
                        assert(x == p);
                    }
                    if r0.0 < c0.len() {
                        assert(c2[r0.0] == c0[r0.0]);
                    } else {
                        assert(r0.0 >= 8 * MAX_OCTUPLES);
                        if r2.0 < c2.len() {
                            assert(c2[r2.0].is_null());
                        }
                    }
                }
            }
            assert(self@ =~= old(self)@.insert(p, v));
            assert forall|i: int| 0 <= i < c0.len() && #[trigger] c0[i].valid_mask != 0 && c0[i].octuple_index != NULL_INDEX
                implies c3[i].octuple_index == c0[i].octuple_index by {
                lemma_mask_zero_iff_no_child(c0[i]);
                let u = choose|u: int| 0 <= u < 8 && c0[i].has_child(u);
                assert(c2[i].has_child(u));
                lemma_has_child_nonzero(c2[i], u);
                assert(i != leaf as int);
            }
            assert forall|i: int, u: int| 0 <= i < c0.len() && #[trigger] c0[i].has_child(u) implies c3[i].has_child(u) by {
                assert(c2[i].has_child(u));
                if i == leaf as int {
                    lemma_has_child_nonzero(c2[i], u);
                }
            }
        }
    }

    /// An insertion at `x` would need room that might not be left.
    pub open spec fn needs_room(self, x: (int, int, int)) -> bool {
        &&& self.in_cube(x)
        &&& self.deg() >= 1
        &&& !self@.contains_key(x)
        &&& self.octuple_count() + self.deg() > MAX_OCTUPLES
    }

    /// What an insertion of `v` at `x` makes of the contents: a coordinate
    /// that is stored already keeps its value. Whether a second insertion
    /// should overwrite is an open design question; until it is settled the
    /// first value wins, and callers that need another value clear the tree.
    pub open spec fn after_insert(self, x: (int, int, int), v: u16) -> Map<(int, int, int), u16> {
        if self.deg() >= 1 && !self@.contains_key(x) {
            self@.insert(x, v)
        } else {
            self@
        }
    }

    /// `after` is this tree after an insertion of `v` at `x` that returned `r`.
    pub open spec fn insert_effect(self, x: (int, int, int), v: u16, after: SESVOctree, r: Result<(), TreeError>) -> bool {
        &&& after.wf()
        &&& after.anchor() == self.anchor()
        &&& after.deg() == self.deg()
        &&& (r == Err::<(), TreeError>(TreeError::OutOfBounds)) == !self.in_cube(x)
        &&& (r == Err::<(), TreeError>(TreeError::Full)) == self.needs_room(x)
        &&& r is Err ==> after == self
        &&& r is Ok ==> after@ == self.after_insert(x, v)
        &&& after.octuple_count() <= self.octuple_count() + self.deg()
        &&& (self@.contains_key(x) || self.deg() == 0) ==> after == self
    }

    /// The node array of `after`, this tree after an insertion at `x` that
    /// succeeded when `ok` (`v` is the value written into a new leaf, if any): exactly
    /// the array that opening the path gives; old marks and the octuples of
    /// descriptors with children are kept, and growth is by whole octuples, at
    /// most one per level below the root (one fewer when only occupancy is
    /// marked).
    pub open spec fn nodes_effect(self, x: (int, int, int), v: Option<u16>, after: SESVOctree, ok: bool) -> bool {
        &&& ok && self.deg() >= 1 && !self@.contains_key(x) ==> after.nodes() == insert_nodes(
            self.nodes(),
            0,
            self.anchor(),
            self.deg(),
            x,
            v,
        )
        &&& ok && self.deg() >= 1 && !self@.contains_key(x) && v is Some ==> after.leaf_of(x).unwrap().0
            < after.nodes().len()
        &&& self.nodes().len() <= after.nodes().len()
        &&& v is Some ==> after.nodes().len() <= self.nodes().len() + 8 * self.deg()
        &&& v is None && self.deg() >= 1 ==> after.nodes().len() <= self.nodes().len() + 8 * (self.deg() - 1)
        &&& after.nodes().len() % 8 == 0
        &&& forall|i: int, u: int|
            0 <= i < self.nodes().len() && #[trigger] self.nodes()[i].has_child(u) ==> after.nodes()[i].has_child(u)
        &&& forall|i: int|
            0 <= i < self.nodes().len() && #[trigger] self.nodes()[i].valid_mask != 0 && self.nodes()[i].octuple_index
                != NULL_INDEX ==> after.nodes()[i].octuple_index == self.nodes()[i].octuple_index
    }

    fn insert_checked(&mut self, pos: IVec3, value: u16, store: bool) -> (r: Result<(), TreeError>)
        requires
            old(self).wf(),
        ensures
            old(self).insert_effect(pos@, if store { value } else { NULL_INDEX }, *final(self), r),
            old(self).nodes_effect(pos@, if store { Some(value) } else { None }, *final(self), r is Ok),
    {
        if !self.contains_point(pos) {
            return Err(TreeError::OutOfBounds);
        }
        if self.degree == 0 {
            return Ok(());
        }
        if self.find_leaf(pos).is_some() {
            return Ok(());
        }
        if self.cds.len() / 8 + self.degree as usize > MAX_OCTUPLES {
            return Err(TreeError::Full);
        }
        let ghost before = *self;
        self.insert_path(pos, value, store);
        proof {
            assert(self.cds@.len() == 8 * self.depths@.len());
            assert(before.cds@.len() == 8 * before.depths@.len());
            assert(self.nodes().len() <= before.nodes().len() + 8 * before.deg());
            assert(self.nodes().len() % 8 == 0);
            assert(self.nodes() == insert_nodes(before.nodes(), 0, before.anchor(), before.deg(), pos@, if store { Some(value) } else { None }));
            assert(before.nodes().len() <= self.nodes().len());
            assert forall|i: int, u: int| 0 <= i < before.nodes().len() && #[trigger] before.nodes()[i].has_child(u)
                implies self.nodes()[i].has_child(u) by {
                assert(before.cds@[i].has_child(u));
            }
            assert forall|i: int| 0 <= i < before.nodes().len() && #[trigger] before.nodes()[i].valid_mask != 0
                && before.nodes()[i].octuple_index != NULL_INDEX implies self.nodes()[i].octuple_index
                == before.nodes()[i].octuple_index by {
                assert(before.cds@[i].valid_mask != 0);
            }
            assert(!store && before.deg() >= 1 ==> self.nodes().len() <= before.nodes().len() + 8 * (before.deg() - 1));
        }
        Ok(())
    }

    /// Stores `value` at `pos`, creating the path down to it. A coordinate
    /// that holds a value already keeps it: the call then changes nothing.
    pub fn insert(&mut self, pos: IVec3, value: u32) -> (r: Result<(), TreeError>)
        requires
            old(self).wf(),
            value <= 0xFFFF,
        ensures
            old(self).insert_effect(pos@, value as u16, *final(self), r),
            old(self).nodes_effect(pos@, Some(value as u16), *final(self), r is Ok),
    {
        self.insert_checked(pos, value as u16, true)
    }

    /// Marks `pos` as occupied without a payload. The descent is that of
    /// `insert`, but the last inner descriptor only gets the occupancy bit: it
    /// gets no octuple of its own and, when it had no child before, keeps the
    /// null index, so no leaf descriptor is made and the voxel reads as the
    /// null index.
    pub fn insert_no_val(&mut self, pos: IVec3) -> (r: Result<(), TreeError>)
        requires
            old(self).wf(),
        ensures
            old(self).insert_effect(pos@, NULL_INDEX, *final(self), r),
            old(self).nodes_effect(pos@, None, *final(self), r is Ok),
    {
        self.insert_checked(pos, 0, false)
    }

    /// The value stored at `pos`, if any.
    pub fn get(&self, pos: IVec3) -> (r: Option<u16>)
        requires
            self.wf(),
        ensures
            r == (if self@.contains_key(pos@) { Some(self@[pos@]) } else { None::<u16> }),
    {
        if !self.contains_point(pos) || self.degree == 0 {
            return None;
        }
        proof {
            lemma_reach_index(self.cds@, self.depths@, self.pos@, self.degree as nat, pos@, self.degree as nat);
        }
        match self.find_leaf(pos) {
            Some(leaf) => {
                if leaf < self.cds.len() {
                    Some(self.cds[leaf].octuple_index)
                } else {
                    Some(NULL_INDEX)
                }
            },
            None => None,
        }
    }

    /// The node array, for upload.
    pub fn cds(&self) -> (r: &[ChildDescriptor])
        ensures
            r@ == self.nodes(),
    {
        self.cds.as_slice()
    }

    /// The node array as the words the renderer consumes, one per descriptor.
    pub fn packed_nodes(&self) -> (r: Vec<u32>)
        ensures
            r@.len() == self.nodes().len(),
            forall|i: int| 0 <= i < r@.len() ==> r@[i] as int == (#[trigger] self.nodes()[i]).packed(),
    {
        let mut out: Vec<u32> = Vec::new();
        let mut i: usize = 0;
        while i < self.cds.len()
            invariant
                i <= self.cds@.len(),
                out@.len() == i,
                forall|j: int| 0 <= j < i ==> out@[j] as int == (#[trigger] self.cds@[j]).packed(),
            decreases self.cds@.len() - i,
        {
            out.push(self.cds[i].to_u32());
            i += 1;
        }
        out
    }

    pub fn degree(&self) -> (r: u32)
        ensures
            r == self.deg(),
    {
        self.degree
    }

    pub fn anchor_pos(&self) -> (r: IVec3)
        ensures
            r@ == self.anchor(),
    {
        self.pos
    }
}

/// Once a path stops, it stays stopped at every deeper level.
pub proof fn lemma_reach_none_mono(c: Seq<ChildDescriptor>, a: (int, int, int), d: nat, x: (int, int, int), j: nat, j2: nat)
    requires
        reach(c, a, d, x, j) is None,
        j <= j2,
    ensures
        reach(c, a, d, x, j2) is None,
    decreases j2,
{
    if j2 > j {
        lemma_reach_none_mono(c, a, d, x, j, (j2 - 1) as nat);
    }
}

/// Each child index of `c` that is not marked in its parent differs from `m`.
pub open spec fn not_unmarked_child(c: Seq<ChildDescriptor>, m: int) -> bool {
    forall|i: int, u: int|
        0 <= i < c.len() && 0 <= u < 8 && c[i].valid_mask != 0 && c[i].octuple_index != NULL_INDEX
            && !#[trigger] c[i].has_child(u) ==> c[i].octuple_index * 8 + u != m
}

/// `c2` is `c1` after opening child `t` of descriptor `n`: `n` gains the mark
/// for `t` (and an octuple if it had none), fresh octuples are null, and the
/// opened child is null.
pub open spec fn grown(c1: Seq<ChildDescriptor>, c2: Seq<ChildDescriptor>, n: int, t: int) -> bool {
    &&& c1.len() <= c2.len()
    &&& 0 <= n < c1.len()
    &&& forall|i: int| 0 <= i < c1.len() && i != n ==> c2[i] == c1[i]
    &&& forall|i: int| c1.len() <= i < c2.len() ==> (#[trigger] c2[i]).is_null()
    &&& forall|u: int| #[trigger] c2[n].has_child(u) == (u == t || c1[n].has_child(u))
    &&& !occupancy_only(c1[n]) && c1[n].valid_mask != 0 ==> c2[n].octuple_index == c1[n].octuple_index
    &&& occupancy_only(c1[n]) ==> c2[n].octuple_index == c1[n].octuple_index || (c1.len() <= c2[n].octuple_index * 8
        && c2[n].octuple_index * 8 + 8 <= c2.len())
    &&& c2[n].octuple_index != NULL_INDEX ==> c2[c2[n].octuple_index * 8 + t].is_null()
}

/// An octuple of null descriptors.
pub open spec fn null_octuple() -> Seq<ChildDescriptor> {
    Seq::new(8, |i: int| ChildDescriptor { octuple_index: NULL_INDEX, valid_mask: 0 })
}

/// The node array after marking child `t` of descriptor `n`. Unless only
/// occupancy is marked, a descriptor without an octuple first gets a null
/// octuple appended at the end; marking occupancy only at the last inner
/// depth sets the bit alone.
pub open spec fn open_step(c: Seq<ChildDescriptor>, n: int, t: int, mark_only: bool) -> Seq<ChildDescriptor> {
    if c[n].has_child(t) {
        c
    } else if mark_only {
        c.update(
            n,
            ChildDescriptor {
                octuple_index: if c[n].valid_mask == 0 { NULL_INDEX } else { c[n].octuple_index },
                valid_mask: c[n].valid_mask | (1u8 << (t as u8)),
            },
        )
    } else if c[n].valid_mask == 0 || c[n].octuple_index == NULL_INDEX {
        (c + null_octuple()).update(
            n,
            ChildDescriptor { octuple_index: (c.len() / 8) as u16, valid_mask: c[n].valid_mask | (1u8 << (t as u8)) },
        )
    } else {
        c.update(n, ChildDescriptor { octuple_index: c[n].octuple_index, valid_mask: c[n].valid_mask | (1u8 << (t as u8)) })
    }
}

/// The node array after an insertion at `x` that starts at descriptor `n`
/// (cube origin `o`, `rem` levels left): every missing child on the path is
/// opened, and a new leaf gets the value `v` when there is one; without a
/// value the last level only sets the occupancy bit.
pub open spec fn insert_nodes(
    c: Seq<ChildDescriptor>,
    n: int,
    o: (int, int, int),
    rem: nat,
    x: (int, int, int),
    v: Option<u16>,
) -> Seq<ChildDescriptor>
    decreases rem,
{
    if rem == 0 {
        c
    } else {
        let half = pow2((rem - 1) as nat) as int;
        let t = octant_of(x, o, half);
        let c1 = open_step(c, n, t, rem == 1 && v is None);
        let child = c1[n].octuple_index * 8 + t;
        if rem > 1 {
            insert_nodes(c1, child, child_origin(x, o, half), (rem - 1) as nat, x, v)
        } else if c[n].has_child(t) {
            c
        } else {
            match v {
                Some(val) => c1.update(child, ChildDescriptor { octuple_index: val, valid_mask: c1[child].valid_mask }),
                None => c1,
            }
        }
    }
}

/// The octuple depths of `d1` are kept in `d2`.
pub open spec fn depths_kept(d1: Seq<nat>, d2: Seq<nat>) -> bool {
    d1.len() <= d2.len() && forall|i: int| 0 <= i < d1.len() ==> d2[i] == d1[i]
}

proof fn lemma_child_box(x: (int, int, int), o: (int, int, int), half: int)
    requires
        in_box(x, o, 2 * half),
        half > 0,
    ensures
        in_box(x, child_origin(x, o, half), half),
        0 <= octant_of(x, o, half) < 8,
{
}

proof fn lemma_same_octant_same_origin(x: (int, int, int), y: (int, int, int), o: (int, int, int), half: int)
    requires
        octant_of(x, o, half) == octant_of(y, o, half),
    ensures
        child_origin(x, o, half) == child_origin(y, o, half),
{
}

proof fn lemma_has_child_nonzero(cd: ChildDescriptor, t: int)
    requires
        cd.has_child(t),
    ensures
        cd.valid_mask != 0,
        0 <= t < 8,
{
    lemma_mask_zero_iff_no_child(cd);
}

/// A point of the cube stays inside the cube of every descriptor on its path.
pub proof fn lemma_reach_box(c: Seq<ChildDescriptor>, a: (int, int, int), d: nat, x: (int, int, int), j: nat)
    requires
        in_box(x, a, pow2(d) as int),
        j <= d,
    ensures
        reach(c, a, d, x, j) is Some ==> in_box(x, reach(c, a, d, x, j).unwrap().1, pow2((d - j) as nat) as int),
    decreases j,
{
    if j > 0 {
        lemma_reach_box(c, a, d, x, (j - 1) as nat);
        lemma_pow2_unfold((d - j + 1) as nat);
        lemma_pow2_pos((d - j) as nat);
        if let Some(r) = reach(c, a, d, x, (j - 1) as nat) {
            lemma_child_box(x, r.1, pow2((d - j) as nat) as int);
        }
    }
}

/// Under the tree invariant, the descriptor reached at level `j` exists and
/// lies in an octuple of depth `j`.
pub proof fn lemma_reach_index(c: Seq<ChildDescriptor>, dep: Seq<nat>, a: (int, int, int), d: nat, x: (int, int, int), j: nat)
    requires
        tree_inv(c, dep, d),
        j <= d,
    ensures
        reach(c, a, d, x, j) is Some ==> {
            let m = reach(c, a, d, x, j).unwrap().0;
            &&& j == 0 ==> m == 0
            &&& j < d ==> 0 <= m < c.len() && dep[m / 8] == j
            &&& j == d ==> (0 <= m < c.len() && dep[m / 8] == j) || m >= 8 * MAX_OCTUPLES
            &&& m >= 0
        },
    decreases j,
{
    if j > 0 {
        lemma_reach_index(c, dep, a, d, x, (j - 1) as nat);
        if let Some(r) = reach(c, a, d, x, (j - 1) as nat) {
            let half = pow2((d - j) as nat) as int;
            let t = octant_of(x, r.1, half);
            if c[r.0].has_child(t) {
                lemma_has_child_nonzero(c[r.0], t);
                let o = c[r.0].octuple_index as int;
                assert((o * 8 + t) / 8 == o);
            }
        }
    }
}

/// Two paths that reach the same descriptor reach it with the same origin.
pub proof fn lemma_reach_origin_unique(
    c: Seq<ChildDescriptor>,
    dep: Seq<nat>,
    a: (int, int, int),
    d: nat,
    x: (int, int, int),
    y: (int, int, int),
    j: nat,
)
    requires
        tree_inv(c, dep, d),
        j <= d,
        reach(c, a, d, x, j) is Some,
        reach(c, a, d, y, j) is Some,
        reach(c, a, d, x, j).unwrap().0 == reach(c, a, d, y, j).unwrap().0,
        reach(c, a, d, x, j).unwrap().0 < c.len(),
    ensures
        reach(c, a, d, x, j).unwrap().1 == reach(c, a, d, y, j).unwrap().1,
    decreases j,
{
    if j > 0 {
        let rx = reach(c, a, d, x, (j - 1) as nat).unwrap();
        let ry = reach(c, a, d, y, (j - 1) as nat).unwrap();
        let half = pow2((d - j) as nat) as int;
        let tx = octant_of(x, rx.1, half);
        let ty = octant_of(y, ry.1, half);
        lemma_has_child_nonzero(c[rx.0], tx);
        lemma_has_child_nonzero(c[ry.0], ty);
        lemma_reach_index(c, dep, a, d, x, (j - 1) as nat);
        lemma_reach_index(c, dep, a, d, y, (j - 1) as nat);
        let ox = c[rx.0].octuple_index as int;
        let oy = c[ry.0].octuple_index as int;
        assert(ox == oy && tx == ty) by {
            assert(ox * 8 + tx == oy * 8 + ty);
        }
        assert(ox != NULL_INDEX);
        assert(rx.0 == ry.0);
        lemma_reach_origin_unique(c, dep, a, d, x, y, (j - 1) as nat);
        lemma_same_octant_same_origin(x, y, rx.1, half);
    }
}

/// Paths depend only on the marks of descriptors and on the octuples of those
/// that have children.
pub proof fn lemma_reach_same_shape(
    c1: Seq<ChildDescriptor>,
    c2: Seq<ChildDescriptor>,
    dep: Seq<nat>,
    a: (int, int, int),
    d: nat,
    x: (int, int, int),
    j: nat,
)
    requires
        tree_inv(c1, dep, d),
        c1.len() == c2.len(),
        forall|i: int| 0 <= i < c1.len() ==> (#[trigger] c2[i]).valid_mask == c1[i].valid_mask,
        forall|i: int| 0 <= i < c1.len() && c1[i].valid_mask != 0 ==> (#[trigger] c2[i]).octuple_index == c1[i].octuple_index,
        j <= d,
    ensures
        reach(c2, a, d, x, j) == reach(c1, a, d, x, j),
    decreases j,
{
    if j > 0 {
        lemma_reach_same_shape(c1, c2, dep, a, d, x, (j - 1) as nat);
        lemma_reach_index(c1, dep, a, d, x, (j - 1) as nat);
        if let Some(r) = reach(c1, a, d, x, (j - 1) as nat) {
            let half = pow2((d - j) as nat) as int;
            let t = octant_of(x, r.1, half);
            assert(c2[r.0].valid_mask == c1[r.0].valid_mask);
            if c1[r.0].has_child(t) {
                lemma_has_child_nonzero(c1[r.0], t);
            }
        }
    }
}

/// Levels above the opened descriptor are untouched by opening a child.
proof fn lemma_grow_prefix(
    c1: Seq<ChildDescriptor>,
    dep1: Seq<nat>,
    c2: Seq<ChildDescriptor>,
    a: (int, int, int),
    d: nat,
    x: (int, int, int),
    n: int,
    t: int,
    k: nat,
    j: nat,
)
    requires
        tree_inv(c1, dep1, d),
        grown(c1, c2, n, t),
        0 <= n < c1.len(),
        dep1[n / 8] == k,
        j <= k,
        k < d,
    ensures
        reach(c2, a, d, x, j) == reach(c1, a, d, x, j),
    decreases j,
{
    if j > 0 {
        lemma_grow_prefix(c1, dep1, c2, a, d, x, n, t, k, (j - 1) as nat);
        lemma_reach_index(c1, dep1, a, d, x, (j - 1) as nat);
        if let Some(r) = reach(c1, a, d, x, (j - 1) as nat) {
            assert(r.0 != n);
            assert(c2[r.0] == c1[r.0]);
        }
    }
}

/// What opening child `t` of `n` (reached by `p` at level `k` with origin `o`)
/// does to the path of another point `x` at level `j`: nothing, or it goes one
/// level further than before into the null child.
pub open spec fn grow_frame_at(
    c1: Seq<ChildDescriptor>,
    c2: Seq<ChildDescriptor>,
    a: (int, int, int),
    d: nat,
    p: (int, int, int),
    x: (int, int, int),
    n: int,
    o: (int, int, int),
    k: nat,
    j: nat,
) -> bool {
    let half = pow2((d - k - 1) as nat) as int;
    let t = octant_of(p, o, half);
    ||| reach(c2, a, d, x, j) == reach(c1, a, d, x, j)
    ||| reach(c1, a, d, x, j) is None && reach(c2, a, d, x, j) is None
    ||| reach(c1, a, d, x, j) is None && j == k + 1 && reach(c2, a, d, x, j) == Some(
        (c2[n].octuple_index * 8 + t, child_origin(p, o, half)),
    )
    ||| j == k + 1 && occupancy_only(c1[n]) && reach(c1, a, d, x, j) is Some && reach(c2, a, d, x, j) is Some
        && reach(c1, a, d, x, j).unwrap().0 >= 8 * MAX_OCTUPLES && c1.len() <= reach(c2, a, d, x, j).unwrap().0 < c2.len()
}

proof fn lemma_grow_frame_levels(
    c1: Seq<ChildDescriptor>,
    dep1: Seq<nat>,
    c2: Seq<ChildDescriptor>,
    dep2: Seq<nat>,
    a: (int, int, int),
    d: nat,
    p: (int, int, int),
    x: (int, int, int),
    n: int,
    o: (int, int, int),
    k: nat,
    j: nat,
)
    requires
        tree_inv(c1, dep1, d),
        tree_inv(c2, dep2, d),
        depths_kept(dep1, dep2),
        grown(c1, c2, n, octant_of(p, o, pow2((d - k - 1) as nat) as int)),
        !c1[n].has_child(octant_of(p, o, pow2((d - k - 1) as nat) as int)),
        reach(c1, a, d, p, k) == Some((n, o)),
        k < d,
        k < j <= d,
    ensures
        grow_frame_at(c1, c2, a, d, p, x, n, o, k, j),
    decreases j,
{
    let half = pow2((d - k - 1) as nat) as int;
    let t = octant_of(p, o, half);
    lemma_reach_index(c1, dep1, a, d, p, k);
    if j == k + 1 {
        lemma_grow_prefix(c1, dep1, c2, a, d, x, n, t, k, k);
        lemma_reach_index(c1, dep1, a, d, x, k);
        if let Some(r) = reach(c1, a, d, x, k) {
            if r.0 == n {
                lemma_reach_origin_unique(c1, dep1, a, d, x, p, k);
                let tx = octant_of(x, o, half);
                if tx == t {
                    lemma_same_octant_same_origin(x, p, o, half);
                } else if c1[n].has_child(tx) {
                    lemma_has_child_nonzero(c1[n], tx);
                    assert(c2[n].has_child(tx));
                    if occupancy_only(c1[n]) && c2[n].octuple_index != c1[n].octuple_index {
                        assert(c1[n].octuple_index * 8 + tx >= 8 * MAX_OCTUPLES);
                    }
                }
            } else {
                assert(c2[r.0] == c1[r.0]);
            }
        }
    } else {
        lemma_grow_frame_levels(c1, dep1, c2, dep2, a, d, p, x, n, o, k, (j - 1) as nat);
        lemma_reach_index(c1, dep1, a, d, x, (j - 1) as nat);
        let r2 = reach(c2, a, d, x, (j - 1) as nat);
        if reach(c2, a, d, x, (j - 1) as nat) == reach(c1, a, d, x, (j - 1) as nat) {
            if let Some(r) = reach(c1, a, d, x, (j - 1) as nat) {
                assert(r.0 != n);
                assert(c2[r.0] == c1[r.0]);
            }
        } else if r2 is Some {
            if occupancy_only(c1[n]) {
                assert(dep1[n / 8] + 1 == d);
            }
            let cc = c2[n].octuple_index * 8 + t;
            assert(r2.unwrap().0 == cc);
            assert(c2[n].has_child(t));
            lemma_has_child_nonzero(c2[n], t);
            assert(dep2[n / 8] == k);
            assert(c2[n].octuple_index != NULL_INDEX);
            lemma_mask_zero_iff_no_child(c2[cc]);
            assert(reach(c2, a, d, x, j) is None);
        }
    }
}

/// Opening the child of `p`'s path at level `k` leaves the path, and the leaf,
/// of every other point of the cube as it was.
pub proof fn lemma_grow_frame(
    c1: Seq<ChildDescriptor>,
    dep1: Seq<nat>,
    c2: Seq<ChildDescriptor>,
    dep2: Seq<nat>,
    a: (int, int, int),
    d: nat,
    p: (int, int, int),
    x: (int, int, int),
    n: int,
    o: (int, int, int),
    k: nat,
)
    requires
        tree_inv(c1, dep1, d),
        tree_inv(c2, dep2, d),
        depths_kept(dep1, dep2),
        grown(c1, c2, n, octant_of(p, o, pow2((d - k - 1) as nat) as int)),
        !c1[n].has_child(octant_of(p, o, pow2((d - k - 1) as nat) as int)),
        reach(c1, a, d, p, k) == Some((n, o)),
        k < d,
        in_box(x, a, pow2(d) as int),
        in_box(p, a, pow2(d) as int),
        x != p,
    ensures
        !occupancy_only(c1[n]) ==> reach(c2, a, d, x, d) == reach(c1, a, d, x, d),
        (reach(c2, a, d, x, d) is Some) == (reach(c1, a, d, x, d) is Some),
        reach(c1, a, d, x, d) is Some && reach(c1, a, d, x, d).unwrap().0 < c1.len() ==> reach(c2, a, d, x, d) == reach(
            c1,
            a,
            d,
            x,
            d,
        ) && c2[reach(c1, a, d, x, d).unwrap().0] == c1[reach(c1, a, d, x, d).unwrap().0],
        reach(c1, a, d, x, d) is Some && reach(c1, a, d, x, d).unwrap().0 >= c1.len() ==> reach(c2, a, d, x, d).unwrap().0
            >= c2.len() || c2[reach(c2, a, d, x, d).unwrap().0].is_null(),
{
    let half = pow2((d - k - 1) as nat) as int;
    lemma_grow_frame_levels(c1, dep1, c2, dep2, a, d, p, x, n, o, k, d);
    lemma_reach_index(c1, dep1, a, d, p, k);
    lemma_reach_index(c1, dep1, a, d, x, d);
    lemma_reach_index(c2, dep2, a, d, x, d);
    if reach(c2, a, d, x, d) != reach(c1, a, d, x, d) && reach(c2, a, d, x, d) is Some && reach(c1, a, d, x, d) is None {
        // Only the last level can differ: both points then share a unit cube.
        assert(d == k + 1);
        lemma_reach_box(c2, a, d, x, d);
        lemma_reach_box(c1, a, d, p, k);
        lemma_pow2_unfold((d - k) as nat);
        lemma_child_box(p, o, half);
        lemma2_to64();
        assert(x == p);
    }
    if let Some(r) = reach(c1, a, d, x, d) {
        if r.0 < c1.len() {
            assert(r.0 != n);
        }
    }
}

/// Opening a child keeps every mark that an older array had, and the octuple
/// of every descriptor that had children.
proof fn lemma_grow_keeps(c0: Seq<ChildDescriptor>, c1: Seq<ChildDescriptor>, c2: Seq<ChildDescriptor>, n: int, t: int)
    requires
        c0.len() <= c1.len(),
        forall|i: int, u: int| 0 <= i < c0.len() && #[trigger] c0[i].has_child(u) ==> c1[i].has_child(u),
        forall|i: int|
            0 <= i < c0.len() && #[trigger] c0[i].valid_mask != 0 && c0[i].octuple_index != NULL_INDEX ==> c1[i].octuple_index
                == c0[i].octuple_index,
        grown(c1, c2, n, t),
    ensures
        c0.len() <= c2.len(),
        forall|i: int, u: int| 0 <= i < c0.len() && #[trigger] c0[i].has_child(u) ==> c2[i].has_child(u),
        forall|i: int|
            0 <= i < c0.len() && #[trigger] c0[i].valid_mask != 0 && c0[i].octuple_index != NULL_INDEX ==> c2[i].octuple_index
                == c0[i].octuple_index,
{
    assert forall|i: int, u: int| 0 <= i < c0.len() && #[trigger] c0[i].has_child(u) implies c2[i].has_child(u) by {
        if i != n {
            assert(c2[i] == c1[i]);
        }
    }
    assert forall|i: int| 0 <= i < c0.len() && #[trigger] c0[i].valid_mask != 0 && c0[i].octuple_index != NULL_INDEX
        implies c2[i].octuple_index == c0[i].octuple_index by {
        if i != n {
            assert(c2[i] == c1[i]);
        } else {
            lemma_mask_zero_iff_no_child(c0[i]);
            let u = choose|u: int| 0 <= u < 8 && c0[i].has_child(u);
            assert(c1[i].has_child(u));
            lemma_has_child_nonzero(c1[i], u);
        }
    }
}

/// A child that is marked in its parent is nobody's unmarked child.
proof fn lemma_marked_child(c: Seq<ChildDescriptor>, dep: Seq<nat>, d: nat, n: int, t: int)
    requires
        tree_inv(c, dep, d),
        0 <= n < c.len(),
        c[n].has_child(t),
    ensures
        not_unmarked_child(c, c[n].octuple_index * 8 + t),
{
    lemma_has_child_nonzero(c[n], t);
    assert forall|i: int, u: int|
        0 <= i < c.len() && 0 <= u < 8 && c[i].valid_mask != 0 && c[i].octuple_index != NULL_INDEX
            && !#[trigger] c[i].has_child(u) implies c[i].octuple_index * 8 + u != c[n].octuple_index * 8 + t by {
        if i != n {
            assert(c[i].octuple_index != c[n].octuple_index);
        }
    }
}

proof fn lemma_half_bound(d: nat, k: nat)
    requires
        k < d <= MAX_DEGREE,
    ensures
        pow2((d - k - 1) as nat) <= 0x4000_0000,
{
    lemma2_to64();
    if d - k - 1 < 30 {
        lemma_pow2_strictly_increases((d - k - 1) as nat, 30);
    }
}

/// The octant of `pos` in the cube at `(ox, oy, oz)` of side `2 * half`, and
/// the origin of that child cube.
fn octant_step(pos: IVec3, ox: i64, oy: i64, oz: i64, half: i64) -> (r: (u32, i64, i64, i64))
    requires
        0 < half <= 0x4000_0000,
        in_box(pos@, (ox as int, oy as int, oz as int), 2 * half),
    ensures
        r.0 as int == octant_of(pos@, (ox as int, oy as int, oz as int), half as int),
        r.0 < 8,
        (r.1 as int, r.2 as int, r.3 as int) == child_origin(pos@, (ox as int, oy as int, oz as int), half as int),
{
    let hx = pos.x as i64 - ox >= half;
    let hy = pos.y as i64 - oy >= half;
    let hz = pos.z as i64 - oz >= half;
    let t: u32 = (if hx { 1u32 } else { 0u32 }) + (if hy { 2u32 } else { 0u32 }) + (if hz { 4u32 } else { 0u32 });
    let nx = if hx { ox + half } else { ox };
    let ny = if hy { oy + half } else { oy };
    let nz = if hz { oz + half } else { oz };
    (t, nx, ny, nz)
}

/// An insertion succeeds exactly on a coordinate of the cube that needs no
/// room beyond what is left.
pub proof fn lemma_insert_ok(t: SESVOctree, x: (int, int, int), v: u16, after: SESVOctree, r: Result<(), TreeError>)
    requires
        t.insert_effect(x, v, after, r),
    ensures
        r is Ok == (t.in_cube(x) && !t.needs_room(x)),
{
    if let Err(e) = r {
        match e {
            TreeError::OutOfBounds => {},
            TreeError::Full => {},
        }
    }
}

/// Inserting a value at a coordinate of a fresh tree of degree at least one
/// and then following that coordinate's octants from the root reaches a leaf
/// that holds the value; the tree then stores that one voxel.
pub proof fn lemma_insert_then_lookup(t0: SESVOctree, t1: SESVOctree, x: (int, int, int), v: u16, r: Result<(), TreeError>)
    requires
        t0.wf(),
        t0.deg() >= 1,
        t0.octuple_count() == 1,
        t0@ == Map::<(int, int, int), u16>::empty(),
        t0.in_cube(x),
        t0.insert_effect(x, v, t1, r),
        t0.nodes_effect(x, Some(v), t1, r is Ok),
    ensures
        r is Ok,
        t1.leaf_of(x) is Some,
        t1.leaf_of(x).unwrap().0 < t1.nodes().len(),
        t1.nodes()[t1.leaf_of(x).unwrap().0].octuple_index == v,
        t1@ == Map::<(int, int, int), u16>::empty().insert(x, v),
{
    assert(t0.deg() <= MAX_DEGREE);
    assert(!t0.needs_room(x));
    lemma_insert_ok(t0, x, v, t1, r);
    assert(t1@ == Map::<(int, int, int), u16>::empty().insert(x, v));
    assert(t1@.contains_key(x));
    assert(t1.contains(x));
    assert(t1@[x] == v);
    assert(t1@[x] == t1.value_at(x));
}

/// Marking the same coordinate twice: the second call changes no descriptor,
/// so in particular no descriptor's count of valid children.
pub proof fn lemma_insert_no_val_idempotent(
    t0: SESVOctree,
    t1: SESVOctree,
    t2: SESVOctree,
    x: (int, int, int),
    r1: Result<(), TreeError>,
    r2: Result<(), TreeError>,
)
    requires
        t0.wf(),
        t0.insert_effect(x, NULL_INDEX, t1, r1),
        t1.insert_effect(x, NULL_INDEX, t2, r2),
    ensures
        t2.nodes() == t1.nodes(),
        t2@ == t1@,
{
    lemma_insert_ok(t0, x, NULL_INDEX, t1, r1);
    lemma_insert_ok(t1, x, NULL_INDEX, t2, r2);
    if r1 is Ok {
        if t0.deg() >= 1 {
            assert(t1@.contains_key(x));
        }
    } else {
        assert(t1@ =~= t0@);
    }
}

} // verus!
