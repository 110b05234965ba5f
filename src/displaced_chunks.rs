//! A fixed-capacity pool of chunk slots keyed by their displacement from the
//! viewer's chunk.
use vstd::prelude::*;
use crate::octree::{SESVOctree, TreeError, MAX_DEGREE};
use crate::vector::{IVec3, norm_sq, add3};

verus! {

/// Chunks are cubes of side `2^CHUNK_EXPONENT` voxels.
pub const CHUNK_EXPONENT: u32 = 4;

/// Why a block could not be written into a slot.
#[derive(Clone, Copy, PartialEq, Eq, Structural, Debug)]
pub enum ChunkError {
    /// The slot is not in use: the caller wrote out of order.
    NotInUse,
    /// The position lies outside the chunk.
    OutOfBounds,
    /// The slot's tree has no room left for the block.
    Full,
}

/// The views of a sequence of vectors.
pub open spec fn views(s: Seq<IVec3>) -> Seq<(int, int, int)> {
    s.map_values(|v: IVec3| v@)
}

/// Chunk slots in "structure of arrays" form. Every slot owns a tree of block
/// ids, a displacement from the viewer's chunk, and in-use and dirty flags.
/// The displacement set is the shape of the streamed window; the slots hold
/// its displacements one each.
pub struct DisplacedChunks {
    blocks: Vec<SESVOctree>,
    displacement: Vec<IVec3>,
    in_use_flags: Vec<bool>,
    dirty_flags: Vec<bool>,
    displacement_set: Vec<IVec3>,
}

impl DisplacedChunks {
    /// The displacement set, in a fixed order without repeats.
    pub closed spec fn shape(self) -> Seq<(int, int, int)> {
        views(self.displacement_set@)
    }

    /// The displacement of each slot.
    pub closed spec fn disp(self) -> Seq<(int, int, int)> {
        views(self.displacement@)
    }

    pub closed spec fn in_use(self) -> Seq<bool> {
        self.in_use_flags@
    }

    /// Slots whose tree changed since the renderer last took it.
    pub closed spec fn dirty(self) -> Seq<bool> {
        self.dirty_flags@
    }

    pub closed spec fn trees(self) -> Seq<SESVOctree> {
        self.blocks@
    }

    pub open spec fn slot_count(self) -> int {
        self.shape().len() as int
    }

    /// The slots hold the displacements of the set one each (a permutation of
    /// the set), and every slot's tree is a chunk tree at the origin.
    pub closed spec fn wf(self) -> bool {
        let n = self.displacement_set@.len();
        &&& self.displacement@.len() == n
        &&& self.in_use_flags@.len() == n
        &&& self.dirty_flags@.len() == n
        &&& self.blocks@.len() == n
        &&& self.shape().no_duplicates()
        &&& self.disp().no_duplicates()
        &&& forall|i: int| 0 <= i < n ==> self.shape().contains(#[trigger] self.disp()[i])
        &&& forall|i: int| 0 <= i < n ==> (#[trigger] self.blocks@[i]).wf() && self.blocks@[i].deg()
            == CHUNK_EXPONENT && self.blocks@[i].anchor() == (0int, 0int, 0int)
    }

    /// The slot holds the least squared norm among the unused slots.
    pub open spec fn nearest_unused(self, i: int) -> bool {
        &&& 0 <= i < self.slot_count()
        &&& !self.in_use()[i]
        &&& forall|j: int|
            0 <= j < self.slot_count() && !self.in_use()[j] ==> norm_sq(self.disp()[i]) <= norm_sq(
                #[trigger] self.disp()[j],
            )
    }

    /// Builds one slot for each distinct displacement of `displacement_set`;
    /// every slot starts unused and clean with an empty tree. An empty set is
    /// a configuration error that callers refuse before building a pool.
    pub fn new(displacement_set: Vec<IVec3>) -> (r: DisplacedChunks)
        requires
            displacement_set@.len() > 0,
        ensures
            r.slot_count() >= 1,
            r.wf(),
            forall|v: (int, int, int)| r.shape().contains(v) == views(displacement_set@).contains(v),
            r.disp() == r.shape(),
            forall|i: int| 0 <= i < r.slot_count() ==> !#[trigger] r.in_use()[i],
            forall|i: int| 0 <= i < r.slot_count() ==> !#[trigger] r.dirty()[i],
            forall|i: int| 0 <= i < r.slot_count() ==> (#[trigger] r.trees()[i])@ == Map::<(int, int, int), u16>::empty(),
    {
        let mut shape: Vec<IVec3> = Vec::new();
        let mut i: usize = 0;
        while i < displacement_set.len()
            invariant
                i <= displacement_set@.len(),
                views(shape@).no_duplicates(),
                forall|v: (int, int, int)|
                    views(shape@).contains(v) == views(displacement_set@.subrange(0, i as int)).contains(v),
            decreases displacement_set@.len() - i,
        {
            let e = displacement_set[i];
            let ghost before = shape@;
            if !vec_holds(&shape, e) {
                shape.push(e);
            }
            proof {
                let pre = displacement_set@.subrange(0, i as int);
                let post = displacement_set@.subrange(0, i + 1);
                assert(post == pre.push(e));
                assert forall|v: (int, int, int)| views(shape@).contains(v) == views(post).contains(v) by {
                    if views(post).contains(v) {
                        let j = choose|j: int| 0 <= j < views(post).len() && views(post)[j] == v;
                        if j < pre.len() {
                            assert(views(pre)[j] == v);
                        }
                    }
                    if views(pre).contains(v) {
                        let j = choose|j: int| 0 <= j < views(pre).len() && views(pre)[j] == v;
                        assert(views(post)[j] == v);
                    }
                    if views(shape@).contains(v) {
                        let j = choose|j: int| 0 <= j < views(shape@).len() && views(shape@)[j] == v;
                        if j < before.len() {
                            assert(views(before)[j] == v);
                        } else {
                            assert(views(post)[i as int] == v);
                        }
                    }
                    if views(before).contains(v) {
                        let j = choose|j: int| 0 <= j < views(before).len() && views(before)[j] == v;
                        assert(views(shape@)[j] == v);
                    }
                    if v == e@ && !views(before).contains(v) {
                        assert(views(shape@)[before.len() as int] == v);
                    }
                }
                if shape@.len() > before.len() {
                    assert forall|a: int, b: int|
                        0 <= a < views(shape@).len() && 0 <= b < views(shape@).len() && a != b
                            implies views(shape@)[a] != views(shape@)[b] by {
                        if a < before.len() && b == before.len() {
                            assert(views(before)[a] == views(shape@)[a]);
                        }
                        if b < before.len() && a == before.len() {
                            assert(views(before)[b] == views(shape@)[b]);
                        }
                        if a < before.len() && b < before.len() {
                            assert(views(before)[a] == views(shape@)[a]);
                            assert(views(before)[b] == views(shape@)[b]);
                        }
                    }
                }
            }
            i += 1;
        }
        proof {
            assert(displacement_set@.subrange(0, displacement_set@.len() as int) == displacement_set@);
        }
        let n = shape.len();
        let mut blocks: Vec<SESVOctree> = Vec::new();
        let mut displacement: Vec<IVec3> = Vec::new();
        let mut in_use_flags: Vec<bool> = Vec::new();
        let mut dirty_flags: Vec<bool> = Vec::new();
        let mut k: usize = 0;
        while k < n
            invariant
                n == shape@.len(),
                k <= n,
                blocks@.len() == k,
                displacement@ == shape@.subrange(0, k as int),
                in_use_flags@.len() == k,
                dirty_flags@.len() == k,
                forall|j: int| 0 <= j < k ==> !(#[trigger] in_use_flags@[j]) && !dirty_flags@[j],
                forall|j: int| 0 <= j < k ==> (#[trigger] blocks@[j]).wf() && blocks@[j].deg() == CHUNK_EXPONENT
                    && blocks@[j].anchor() == (0int, 0int, 0int) && blocks@[j]@ == Map::<(int, int, int), u16>::empty(),
            decreases n - k,
        {
            blocks.push(SESVOctree::new(IVec3::zero(), CHUNK_EXPONENT));
            displacement.push(shape[k]);
            in_use_flags.push(false);
            dirty_flags.push(false);
            proof {
                assert(shape@.subrange(0, k + 1) == shape@.subrange(0, k as int).push(shape@[k as int]));
            }
            k += 1;
        }
        proof {
            assert(displacement@ == shape@);
        }
        let ghost b = blocks@;
        let ghost u = in_use_flags@;
        let ghost dfl = dirty_flags@;
        let r = DisplacedChunks { blocks, displacement, in_use_flags, dirty_flags, displacement_set: shape };
        proof {
            let first = displacement_set@[0]@;
            assert(views(displacement_set@)[0] == first);
            assert(views(displacement_set@).contains(first));
            assert(r.shape().contains(first));
            assert forall|i: int| 0 <= i < n implies r.shape().contains(#[trigger] r.disp()[i]) by {
                assert(r.shape()[i] == r.disp()[i]);
            }
            assert forall|i: int| 0 <= i < r.slot_count() implies !#[trigger] r.in_use()[i] by {
                assert(!u[i]);
            }
            assert forall|i: int| 0 <= i < r.slot_count() implies !#[trigger] r.dirty()[i] by {
                assert(!u[i]);
                assert(!dfl[i]);
            }
            assert forall|i: int| 0 <= i < r.slot_count() implies (#[trigger] r.trees()[i])@
                == Map::<(int, int, int), u16>::empty() by {
                assert(b[i]@ == Map::<(int, int, int), u16>::empty());
            }
        }
        r
    }

    /// The number of slots: the size of the displacement set.
    pub fn len(&self) -> (r: usize)
        requires
            self.wf(),
        ensures
            r == self.slot_count(),
    {
        self.blocks.len()
    }

    pub fn get_displacement(&self, index: usize) -> (r: IVec3)
        requires
            self.wf(),
            index < self.slot_count(),
        ensures
            r@ == self.disp()[index as int],
    {
        self.displacement[index]
    }

    pub fn is_chunk_in_use(&self, index: usize) -> (r: bool)
        requires
            self.wf(),
            index < self.slot_count(),
        ensures
            r == self.in_use()[index as int],
    {
        self.in_use_flags[index]
    }

    pub fn is_chunk_dirty(&self, index: usize) -> (r: bool)
        requires
            self.wf(),
            index < self.slot_count(),
        ensures
            r == self.dirty()[index as int],
    {
        self.dirty_flags[index]
    }

    /// Records that the renderer has taken the slot's tree.
    pub fn mark_clean(&mut self, index: usize)
        requires
            old(self).wf(),
            index < old(self).slot_count(),
        ensures
            final(self).wf(),
            final(self).dirty() == old(self).dirty().update(index as int, false),
            final(self).shape() == old(self).shape(),
            final(self).disp() == old(self).disp(),
            final(self).in_use() == old(self).in_use(),
            final(self).trees() == old(self).trees(),
    {
        self.dirty_flags.set(index, false);
    }

    /// Writes `block` at `pos_in_chunk` into the tree of a slot in use and
    /// marks the slot dirty. A slot that is not in use is refused.
    pub fn insert_block(&mut self, chunk_index: usize, block: u8, pos_in_chunk: IVec3) -> (r: Result<(), ChunkError>)
        requires
            old(self).wf(),
            chunk_index < old(self).slot_count(),
        ensures
            final(self).wf(),
            final(self).shape() == old(self).shape(),
            final(self).disp() == old(self).disp(),
            final(self).in_use() == old(self).in_use(),
            (r == Err::<(), ChunkError>(ChunkError::NotInUse)) == !old(self).in_use()[chunk_index as int],
            (r == Err::<(), ChunkError>(ChunkError::OutOfBounds)) == (old(self).in_use()[chunk_index as int]
                && !old(self).trees()[chunk_index as int].in_cube(pos_in_chunk@)),
            (r == Err::<(), ChunkError>(ChunkError::Full)) == (old(self).in_use()[chunk_index as int]
                && old(self).trees()[chunk_index as int].needs_room(pos_in_chunk@)),
            r is Ok ==> final(self).trees()[chunk_index as int]@ == old(self).trees()[chunk_index as int].after_insert(
                pos_in_chunk@,
                block as u16,
            ),
            r is Ok ==> final(self).dirty() == old(self).dirty().update(chunk_index as int, true),
            r is Err ==> final(self).trees()[chunk_index as int] == old(self).trees()[chunk_index as int],
            old(self).in_use()[chunk_index as int] && old(self).trees()[chunk_index as int]@.contains_key(pos_in_chunk@)
                ==> final(self).trees()[chunk_index as int] == old(self).trees()[chunk_index as int],
            old(self).in_use()[chunk_index as int] ==> old(self).trees()[chunk_index as int].nodes_effect(
                pos_in_chunk@,
                Some(block as u16),
                final(self).trees()[chunk_index as int],
                r is Ok,
            ),
            r is Err ==> final(self).dirty() == old(self).dirty(),
            forall|j: int| 0 <= j < old(self).slot_count() && j != chunk_index ==> #[trigger] final(self).trees()[j]
                == old(self).trees()[j],
            final(self).trees()[chunk_index as int].octuple_count() <= old(self).trees()[chunk_index as int].octuple_count()
                + CHUNK_EXPONENT,
    {
        if !self.in_use_flags[chunk_index] {
            return Err(ChunkError::NotInUse);
        }
        proof {
            assert(self.blocks@[chunk_index as int].wf());
        }
        let ghost t0 = self.blocks@[chunk_index as int];
        let r = self.blocks[chunk_index].insert(pos_in_chunk, block as u32);
        proof {
            let t1 = self.blocks@[chunk_index as int];
            crate::octree::lemma_insert_ok(t0, pos_in_chunk@, block as u16, t1, r);
            if r is Err {
                assert(t1@ =~= t0@);
            }
            assert forall|i: int| 0 <= i < self.blocks@.len() implies (#[trigger] self.blocks@[i]).wf()
                && self.blocks@[i].deg() == CHUNK_EXPONENT && self.blocks@[i].anchor() == (0int, 0int, 0int) by {
                if i != chunk_index {
                    assert(self.blocks@[i] == old(self).blocks@[i]);
                }
            }
        }
        match r {
            Ok(()) => {
                self.dirty_flags.set(chunk_index, true);
                Ok(())
            },
            Err(TreeError::OutOfBounds) => Err(ChunkError::OutOfBounds),
            Err(TreeError::Full) => Err(ChunkError::Full),
        }
    }

    /// The unused slot of least squared displacement norm, the first such
    /// slot on a tie; `None` when every slot is in use.
    fn closest_unused_chunk_index(&self) -> (r: Option<usize>)
        requires
            self.wf(),
        ensures
            r is None == (forall|i: int| 0 <= i < self.slot_count() ==> #[trigger] self.in_use()[i]),
            r is Some ==> self.nearest_unused(r.unwrap() as int),
            r is Some ==> forall|j: int|
                0 <= j < r.unwrap() && !self.in_use()[j] ==> norm_sq(self.disp()[r.unwrap() as int]) < norm_sq(
                    #[trigger] self.disp()[j],
                ),
    {
        let n = self.blocks.len();
        let mut best: Option<usize> = None;
        let mut best_norm: u64 = 0;
        let mut i: usize = 0;
        while i < n
            invariant
                self.wf(),
                n == self.slot_count(),
                i <= n,
                best is None == (forall|j: int| 0 <= j < i ==> #[trigger] self.in_use()[j]),
                best is Some ==> {
                    let b = best.unwrap() as int;
                    &&& b < i
                    &&& !self.in_use()[b]
                    &&& best_norm as int == norm_sq(self.disp()[b])
                    &&& forall|j: int| 0 <= j < i && !self.in_use()[j] ==> norm_sq(self.disp()[b]) <= norm_sq(#[trigger] self.disp()[j])
                    &&& forall|j: int| 0 <= j < b && !self.in_use()[j] ==> norm_sq(self.disp()[b]) < norm_sq(#[trigger] self.disp()[j])
                },
            decreases n - i,
        {
            proof {
                assert(self.in_use()[i as int] == self.in_use_flags@[i as int]);
            }
            if !self.in_use_flags[i] {
                let m = self.displacement[i].norm_squared();
                proof {
                    assert(self.disp()[i as int] == self.displacement@[i as int]@);
                }
                match best {
                    None => {
                        best = Some(i);
                        best_norm = m;
                    },
                    Some(_) => {
                        if m < best_norm {
                            best = Some(i);
                            best_norm = m;
                        }
                    },
                }
            }
            i += 1;
        }
        best
    }

    /// Claims the nearest unused slot: marks it in use and dirty and clears its
    /// tree. Returns `None`, changing nothing, when every slot is in use.
    pub fn use_chunk(&mut self) -> (r: Option<usize>)
        requires
            old(self).wf(),
        ensures
            final(self).wf(),
            final(self).shape() == old(self).shape(),
            final(self).disp() == old(self).disp(),
            r is None == (forall|i: int| 0 <= i < old(self).slot_count() ==> #[trigger] old(self).in_use()[i]),
            r is Some ==> old(self).nearest_unused(r.unwrap() as int),
            r is Some ==> forall|j: int|
                0 <= j < r.unwrap() && !old(self).in_use()[j] ==> norm_sq(old(self).disp()[r.unwrap() as int]) < norm_sq(
                    #[trigger] old(self).disp()[j],
                ),
            r is Some ==> final(self).in_use() == old(self).in_use().update(r.unwrap() as int, true),
            r is Some ==> final(self).dirty() == old(self).dirty().update(r.unwrap() as int, true),
            r is Some ==> final(self).trees()[r.unwrap() as int]@ == Map::<(int, int, int), u16>::empty(),
            r is Some ==> final(self).trees()[r.unwrap() as int].nodes().len() == 8,
            r is Some ==> forall|k: int| 0 <= k < 8 ==> (#[trigger] final(self).trees()[r.unwrap() as int].nodes()[k]).is_null(),
            r is Some ==> final(self).trees()[r.unwrap() as int].anchor() == (0int, 0int, 0int),
            r is Some ==> final(self).trees()[r.unwrap() as int].deg() == CHUNK_EXPONENT,
            forall|j: int|
                0 <= j < old(self).slot_count() && (r is None || j != r.unwrap()) ==> #[trigger] final(self).trees()[j]
                    == old(self).trees()[j],
            r is None ==> *final(self) == *old(self),
    {
        let some_index = self.closest_unused_chunk_index();
        if let Some(index) = some_index {
            proof {
                assert(self.blocks@[index as int].wf());
            }
            self.blocks[index].clear();
            self.in_use_flags.set(index, true);
            self.dirty_flags.set(index, true);
            proof {
                assert forall|i: int| 0 <= i < self.blocks@.len() implies (#[trigger] self.blocks@[i]).wf()
                    && self.blocks@[i].deg() == CHUNK_EXPONENT && self.blocks@[i].anchor() == (0int, 0int, 0int) by {
                    if i != index {
                        assert(self.blocks@[i] == old(self).blocks@[i]);
                    }
                }
            }
        }
        some_index
    }

    /// Every slot holds a displacement of the set.
    pub proof fn lemma_disp_in_shape(self, i: int)
        requires
            self.wf(),
            0 <= i < self.slot_count(),
        ensures
            self.shape().contains(self.disp()[i]),
    {
    }

    /// What the invariant says, for use outside this module.
    pub proof fn lemma_wf_facts(self)
        requires
            self.wf(),
        ensures
            self.disp().len() == self.slot_count(),
            self.in_use().len() == self.slot_count(),
            self.dirty().len() == self.slot_count(),
            self.trees().len() == self.slot_count(),
            self.shape().no_duplicates(),
            self.disp().no_duplicates(),
            forall|i: int| 0 <= i < self.slot_count() ==> self.shape().contains(#[trigger] self.disp()[i]),
            forall|i: int|
                0 <= i < self.slot_count() ==> (#[trigger] self.trees()[i]).wf() && self.trees()[i].deg() == CHUNK_EXPONENT
                    && self.trees()[i].anchor() == (0int, 0int, 0int),
    {
    }

    /// Whether slot `i`'s displacement, shifted by `delta`, stays in the set.
    pub open spec fn stays(self, i: int, delta: (int, int, int)) -> bool {
        self.shape().contains(add3(self.disp()[i], delta))
    }

    /// Every slot's displacement shifted by `delta`.
    pub open spec fn shifted_set(self, delta: (int, int, int)) -> Set<(int, int, int)> {
        Set::new(|v: (int, int, int)| exists|j: int| 0 <= j < self.slot_count() && v == add3(self.disp()[j], delta))
    }

    /// The displacements of the set that no slot holds once every slot is
    /// shifted by `delta`.
    pub open spec fn freed_set(self, delta: (int, int, int)) -> Set<(int, int, int)> {
        self.shape().to_set().difference(self.shifted_set(delta))
    }

    /// `after` is this pool with every slot shifted by `delta`: a slot that
    /// stays in the set keeps its state at the shifted displacement; any other
    /// slot is unused and holds a displacement that no shifted slot holds.
    pub open spec fn shift_effect(self, delta: (int, int, int), after: DisplacedChunks) -> bool {
        &&& after.wf()
        &&& after.shape() == self.shape()
        &&& after.trees() == self.trees()
        &&& after.dirty() == self.dirty()
        &&& forall|i: int|
            0 <= i < self.slot_count() && #[trigger] self.stays(i, delta) ==> after.disp()[i] == add3(self.disp()[i], delta)
                && after.in_use()[i] == self.in_use()[i]
        &&& forall|i: int|
            0 <= i < self.slot_count() && !#[trigger] self.stays(i, delta) ==> !after.in_use()[i]
                && !self.shifted_set(delta).contains(after.disp()[i])
    }

    /// Shifts every slot by `displacement`. A slot whose new displacement
    /// leaves the set is marked unused and given one of the displacements that
    /// no slot holds any more. Returns those slots in increasing order; there
    /// are as many as there are freed displacements.
    #[verifier::rlimit(60)]
    #[verifier::spinoff_prover]
    pub fn displace(&mut self, displacement: IVec3) -> (r: Vec<usize>)
        requires
            old(self).wf(),
        ensures
            old(self).shift_effect(displacement@, *final(self)),
            forall|a: int, b: int| 0 <= a < b < r@.len() ==> r@[a] < r@[b],
            forall|k: int|
                0 <= k < r@.len() ==> r@[k] < old(self).slot_count() && !old(self).stays(#[trigger] r@[k] as int, displacement@),
            forall|i: int|
                0 <= i < old(self).slot_count() && !#[trigger] old(self).stays(i, displacement@) ==> r@.contains(i as usize),
            r@.len() == old(self).freed_set(displacement@).len(),
    {
        let ghost delta = displacement@;
        let ghost od = old(self).disp();
        let ghost sh = old(self).shape();
        let n = self.blocks.len();
        let mut invalid: Vec<usize> = Vec::new();
        let mut kept: Vec<IVec3> = Vec::new();
        let mut i: usize = 0;
        while i < n
            invariant
                n == old(self).slot_count(),
                i <= n,
                self.displacement_set == old(self).displacement_set,
                self.blocks == old(self).blocks,
                self.in_use_flags == old(self).in_use_flags,
                self.dirty_flags == old(self).dirty_flags,
                self.displacement@.len() == n,
                od == old(self).disp(),
                sh == old(self).shape(),
                delta == displacement@,
                old(self).wf(),
                forall|j: int| 0 <= j < i && old(self).stays(j, delta) ==> self.disp()[j] == add3(od[j], delta),
                forall|j: int| 0 <= j < n && !(j < i && old(self).stays(j, delta)) ==> self.disp()[j] == od[j],
                forall|a: int, b: int| 0 <= a < b < invalid@.len() ==> invalid@[a] < invalid@[b],
                forall|k: int| 0 <= k < invalid@.len() ==> #[trigger] invalid@[k] < i && !old(self).stays(invalid@[k] as int, delta),
                forall|j: int| 0 <= j < i && !#[trigger] old(self).stays(j, delta) ==> invalid@.contains(j as usize),
                views(kept@).no_duplicates(),
                forall|v: (int, int, int)|
                    views(kept@).contains(v) == (exists|j: int| 0 <= j < i && old(self).stays(j, delta) && v == add3(od[j], delta)),
                kept@.len() + invalid@.len() == i,
            decreases n - i,
        {
            let cur = self.displacement[i];
            let moved = shift(cur, displacement);
            let ghost v = add3(od[i as int], delta);
            proof {
                assert(od[i as int] == cur@);
                if !crate::vector::fits_i32(v) {
                    if sh.contains(v) {
                        let k = choose|k: int| 0 <= k < sh.len() && sh[k] == v;
                        assert(sh[k] == self.displacement_set@[k]@);
                    }
                }
            }
            let mut inside = false;
            if let Some(m) = moved {
                if vec_holds(&self.displacement_set, m) {
                    inside = true;
                    let ghost before = kept@;
                    let ghost pre_disp = self.displacement@;
                    self.displacement.set(i, m);
                    kept.push(m);
                    proof {
                        assert(old(self).stays(i as int, delta));
                        assert forall|j: int| 0 <= j < n && !(j < i + 1 && old(self).stays(j, delta)) implies self.disp()[j]
                            == od[j] by {
                            assert(self.displacement@[j] == pre_disp[j]);
                        }
                        assert forall|j: int| 0 <= j < i + 1 && old(self).stays(j, delta) implies self.disp()[j]
                            == add3(od[j], delta) by {
                            if j < i {
                                assert(self.displacement@[j] == pre_disp[j]);
                            }
                        }
                        assert forall|w: (int, int, int)| views(kept@).contains(w) == (exists|j: int|
                            0 <= j < i + 1 && old(self).stays(j, delta) && w == add3(od[j], delta)) by {
                            if views(kept@).contains(w) {
                                let q = choose|q: int| 0 <= q < views(kept@).len() && views(kept@)[q] == w;
                                if q < before.len() {
                                    assert(views(before)[q] == w);
                                    assert(views(before).contains(w));
                                } else {
                                    assert(w == v);
                                }
                            }
                            if exists|j: int| 0 <= j < i + 1 && old(self).stays(j, delta) && w == add3(od[j], delta) {
                                let j = choose|j: int| 0 <= j < i + 1 && old(self).stays(j, delta) && w == add3(od[j], delta);
                                if j < i {
                                    assert(views(before).contains(w));
                                    let q = choose|q: int| 0 <= q < views(before).len() && views(before)[q] == w;
                                    assert(views(kept@)[q] == w);
                                } else {
                                    assert(views(kept@)[before.len() as int] == w);
                                }
                            }
                        }
                        assert(!views(before).contains(v)) by {
                            if views(before).contains(v) {
                                let j = choose|j: int| 0 <= j < i && old(self).stays(j, delta) && v == add3(od[j], delta);
                                assert(od[j] == od[i as int]);
                            }
                        }
                        assert forall|a: int, b: int|
                            0 <= a < views(kept@).len() && 0 <= b < views(kept@).len() && a != b
                                implies views(kept@)[a] != views(kept@)[b] by {
                            if a < before.len() {
                                assert(views(before)[a] == views(kept@)[a]);
                            }
                            if b < before.len() {
                                assert(views(before)[b] == views(kept@)[b]);
                            }
                            if a == before.len() {
                                assert(views(before).contains(views(kept@)[b]) || b == before.len());
                            }
                            if b == before.len() {
                                assert(views(before).contains(views(kept@)[a]) || a == before.len());
                            }
                        }
                    }
                }
            }
            if !inside {
                let ghost before = invalid@;
                invalid.push(i);
                proof {
                    assert(!old(self).stays(i as int, delta));
                    assert forall|j: int| 0 <= j < i + 1 && !#[trigger] old(self).stays(j, delta) implies invalid@.contains(
                        j as usize,
                    ) by {
                        if j < i {
                            assert(before.contains(j as usize));
                            let q = choose|q: int| 0 <= q < before.len() && before[q] == j as usize;
                            assert(invalid@[q] == j as usize);
                        } else {
                            assert(invalid@[before.len() as int] == j as usize);
                        }
                    }
                    assert forall|w: (int, int, int)| views(kept@).contains(w) == (exists|j: int|
                        0 <= j < i + 1 && old(self).stays(j, delta) && w == add3(od[j], delta)) by {
                        if exists|j: int| 0 <= j < i + 1 && old(self).stays(j, delta) && w == add3(od[j], delta) {
                            let j = choose|j: int| 0 <= j < i + 1 && old(self).stays(j, delta) && w == add3(od[j], delta);
                            assert(j < i);
                        }
                    }
                }
            }
            i += 1;
        }
        // The displacements of the set that no kept slot holds.
        let mut free: Vec<IVec3> = Vec::new();
        let mut j: usize = 0;
        while j < n
            invariant
                n == old(self).slot_count(),
                j <= n,
                self.displacement_set == old(self).displacement_set,
                sh == old(self).shape(),
                old(self).wf(),
                views(free@).no_duplicates(),
                forall|q: int| 0 <= q < free@.len() ==> exists|k: int| 0 <= k < j && sh[k] == #[trigger] views(free@)[q],
                forall|q: int| 0 <= q < free@.len() ==> !views(kept@).contains(#[trigger] views(free@)[q]),
                forall|k: int| 0 <= k < j && !views(kept@).contains(sh[k]) ==> views(free@).contains(#[trigger] sh[k]),
            decreases n - j,
        {
            let e = self.displacement_set[j];
            proof {
                assert(sh[j as int] == e@);
            }
            if !vec_holds(&kept, e) {
                let ghost before = free@;
                free.push(e);
                proof {
                    assert(views(free@)[before.len() as int] == e@);
                    assert forall|q: int| 0 <= q < free@.len() implies exists|k: int| 0 <= k < j + 1 && sh[k] == #[trigger] views(free@)[q] by {
                        if q < before.len() {
                            assert(views(before)[q] == views(free@)[q]);
                        } else {
                            assert(sh[j as int] == views(free@)[q]);
                        }
                    }
                    assert forall|q: int| 0 <= q < free@.len() implies !views(kept@).contains(#[trigger] views(free@)[q]) by {
                        if q < before.len() {
                            assert(views(before)[q] == views(free@)[q]);
                        }
                    }
                    assert forall|k: int| 0 <= k < j + 1 && !views(kept@).contains(sh[k]) implies views(free@).contains(#[trigger] sh[k]) by {
                        if k < j {
                            let q = choose|q: int| 0 <= q < views(before).len() && views(before)[q] == sh[k];
                            assert(views(free@)[q] == sh[k]);
                        } else {
                            assert(views(free@)[before.len() as int] == sh[k]);
                        }
                    }
                    assert forall|a: int, b: int|
                        0 <= a < views(free@).len() && 0 <= b < views(free@).len() && a != b
                            implies views(free@)[a] != views(free@)[b] by {
                        if a < before.len() && b < before.len() {
                            assert(views(before)[a] == views(free@)[a]);
                            assert(views(before)[b] == views(free@)[b]);
                        } else if a < before.len() {
                            assert(views(before)[a] == views(free@)[a]);
                            let k = choose|k: int| 0 <= k < j && sh[k] == views(before)[a];
                            assert(sh[k] != sh[j as int]);
                        } else if b < before.len() {
                            assert(views(before)[b] == views(free@)[b]);
                            let k = choose|k: int| 0 <= k < j && sh[k] == views(before)[b];
                            assert(sh[k] != sh[j as int]);
                        }
                    }
                }
            } else {
                proof {
                    assert forall|k: int| 0 <= k < j + 1 && !views(kept@).contains(sh[k]) implies views(free@).contains(#[trigger] sh[k]) by {
                        if k == j {
                            assert(views(kept@).contains(e@));
                        }
                    }
                }
            }
            j += 1;
        }
        proof {
            lemma_freed_count(sh, views(kept@), views(free@), old(self).shifted_set(delta), invalid@.len() as int);
        }
        let ghost d1 = self.disp();
        // Hand the freed displacements to the slots that left the set.
        let mut k: usize = 0;
        while k < invalid.len()
            invariant
                n == old(self).slot_count(),
                k <= invalid@.len(),
                invalid@.len() == free@.len(),
                self.displacement_set == old(self).displacement_set,
                self.blocks == old(self).blocks,
                self.dirty_flags == old(self).dirty_flags,
                self.displacement@.len() == n,
                self.in_use_flags@.len() == n,
                forall|q: int| 0 <= q < invalid@.len() ==> #[trigger] invalid@[q] < n,
                forall|a: int, b: int| 0 <= a < b < invalid@.len() ==> invalid@[a] < invalid@[b],
                forall|q: int| 0 <= q < k ==> self.disp()[#[trigger] invalid@[q] as int] == views(free@)[q]
                    && !self.in_use()[invalid@[q] as int],
                forall|s: int|
                    0 <= s < n && !invalid@.subrange(0, k as int).contains(s as usize) ==> #[trigger] self.disp()[s]
                        == d1[s] && self.in_use()[s] == old(self).in_use()[s],
            decreases invalid@.len() - k,
        {
            let idx = invalid[k];
            let ghost pd = self.disp();
            let ghost pu = self.in_use();
            self.in_use_flags.set(idx, false);
            self.displacement.set(idx, free[k]);
            proof {
                assert(self.disp()[idx as int] == views(free@)[k as int]);
                assert forall|q: int| 0 <= q < k + 1 implies self.disp()[#[trigger] invalid@[q] as int] == views(free@)[q]
                    && !self.in_use()[invalid@[q] as int] by {
                    if q < k {
                        assert(invalid@[q] < invalid@[k as int]);
                    }
                }
                assert(invalid@.subrange(0, k + 1) == invalid@.subrange(0, k as int).push(idx));
                assert forall|s: int|
                    0 <= s < n && !invalid@.subrange(0, k + 1).contains(s as usize) implies #[trigger] self.disp()[s]
                        == d1[s] && self.in_use()[s] == old(self).in_use()[s] by {
                    if invalid@.subrange(0, k as int).contains(s as usize) {
                        let q = choose|q: int| 0 <= q < k && invalid@.subrange(0, k as int)[q] == s as usize;
                        assert(invalid@.subrange(0, k + 1)[q] == s as usize);
                    }
                    assert(invalid@.subrange(0, k + 1)[k as int] == idx);
                    assert(idx as int != s);
                    assert(self.disp()[s] == pd[s]);
                    assert(self.in_use()[s] == pu[s]);
                }
            }
            k += 1;
        }
        proof {
            let fs = old(self).shifted_set(delta);
            // Where each slot that left the set now sits in the freed list.
            assert forall|s: int| 0 <= s < n && !old(self).stays(s, delta) implies exists|q: int|
                0 <= q < invalid@.len() && #[trigger] invalid@[q] == s by {
                assert(invalid@.contains(s as usize));
            }
            assert(invalid@.subrange(0, invalid@.len() as int) == invalid@);
            assert forall|s: int| 0 <= s < n && old(self).stays(s, delta) implies self.disp()[s] == add3(od[s], delta)
                && self.in_use()[s] == old(self).in_use()[s] by {
                if invalid@.contains(s as usize) {
                    let q = choose|q: int| 0 <= q < invalid@.len() && invalid@[q] == s as usize;
                    assert(!old(self).stays(invalid@[q] as int, delta));
                }
                assert(!invalid@.subrange(0, invalid@.len() as int).contains(s as usize));
                assert(self.disp()[s] == d1[s]);
                assert(d1[s] == add3(od[s], delta));
            }
            assert forall|s: int| 0 <= s < n && !old(self).stays(s, delta) implies !self.in_use()[s] && !fs.contains(self.disp()[s])
                && sh.contains(self.disp()[s]) && !views(kept@).contains(self.disp()[s]) by {
                let q = choose|q: int| 0 <= q < invalid@.len() && #[trigger] invalid@[q] == s;
                assert(views(free@)[q] == self.disp()[s]);
                assert(views(free@).to_set().contains(views(free@)[q]));
            }
            assert forall|s: int| 0 <= s < n implies sh.contains(#[trigger] self.disp()[s]) by {}
            assert forall|a: int, b: int| 0 <= a < n && 0 <= b < n && a != b implies self.disp()[a] != self.disp()[b] by {
                if old(self).stays(a, delta) && old(self).stays(b, delta) {
                    assert(od[a] != od[b]);
                } else if old(self).stays(a, delta) {
                    assert(views(kept@).contains(self.disp()[a]));
                } else if old(self).stays(b, delta) {
                    assert(views(kept@).contains(self.disp()[b]));
                } else {
                    let qa = choose|q: int| 0 <= q < invalid@.len() && #[trigger] invalid@[q] == a;
                    let qb = choose|q: int| 0 <= q < invalid@.len() && #[trigger] invalid@[q] == b;
                    assert(views(free@)[qa] != views(free@)[qb]);
                }
            }
            assert(self.disp().no_duplicates());
            assert(self.in_use_flags@.len() == n);
        }
        invalid
    }

    /// The slot's tree, only while the slot is in use.
    pub fn get_tree(&self, index: usize) -> (r: Option<&SESVOctree>)
        requires
            self.wf(),
            index < self.slot_count(),
        ensures
            r == (if self.in_use()[index as int] { Some(&self.trees()[index as int]) } else { None }),
            r is Some ==> r.unwrap().wf(),
    {
        if !self.in_use_flags[index] {
            return None;
        }
        Some(&self.blocks[index])
    }
}

/// Whether `v` holds `e`.
fn vec_holds(v: &Vec<IVec3>, e: IVec3) -> (r: bool)
    ensures
        r == views(v@).contains(e@),
{
    let mut i: usize = 0;
    while i < v.len()
        invariant
            i <= v@.len(),
            forall|j: int| 0 <= j < i ==> views(v@)[j] != e@,
        decreases v@.len() - i,
    {
        if v[i] == e {
            assert(views(v@)[i as int] == e@);
            return true;
        }
        i += 1;
    }
    false
}

/// In every pool that the operations here produce, the slots in use hold
/// distinct displacements, each drawn from the displacement set.
pub proof fn lemma_in_use_distinct(pool: DisplacedChunks)
    requires
        pool.wf(),
    ensures
        forall|i: int, j: int|
            0 <= i < pool.slot_count() && 0 <= j < pool.slot_count() && i != j && pool.in_use()[i] && pool.in_use()[j]
                ==> #[trigger] pool.disp()[i] != #[trigger] pool.disp()[j],
        forall|i: int| 0 <= i < pool.slot_count() && pool.in_use()[i] ==> pool.shape().contains(#[trigger] pool.disp()[i]),
{
    pool.lemma_wf_facts();
}

/// `d` shifted by `delta`, when the sum fits in `i32` on every axis.
fn shift(d: IVec3, delta: IVec3) -> (r: Option<IVec3>)
    ensures
        r is Some == crate::vector::fits_i32(add3(d@, delta@)),
        r is Some ==> r.unwrap()@ == add3(d@, delta@),
{
    let x = d.x as i64 + delta.x as i64;
    let y = d.y as i64 + delta.y as i64;
    let z = d.z as i64 + delta.z as i64;
    if x < i32::MIN as i64 || x > i32::MAX as i64 || y < i32::MIN as i64 || y > i32::MAX as i64 || z < i32::MIN as i64
        || z > i32::MAX as i64 {
        return None;
    }
    Some(IVec3 { x: x as i32, y: y as i32, z: z as i32 })
}

/// The freed displacements are as many as the slots that left the set: the
/// kept displacements are distinct members of the set, the freed ones are the
/// rest of it.
proof fn lemma_freed_count(
    sh: Seq<(int, int, int)>,
    kept: Seq<(int, int, int)>,
    free: Seq<(int, int, int)>,
    shifted: Set<(int, int, int)>,
    invalid_len: int,
)
    requires
        sh.no_duplicates(),
        kept.no_duplicates(),
        free.no_duplicates(),
        kept.len() + invalid_len == sh.len(),
        forall|v: (int, int, int)| kept.contains(v) ==> sh.contains(v),
        forall|q: int| 0 <= q < free.len() ==> sh.contains(#[trigger] free[q]) && !kept.contains(free[q]),
        forall|k: int| 0 <= k < sh.len() && !kept.contains(sh[k]) ==> free.contains(#[trigger] sh[k]),
        forall|v: (int, int, int)| sh.contains(v) ==> (shifted.contains(v) == kept.contains(v)),
    ensures
        free.len() == invalid_len,
        free.to_set() == sh.to_set().difference(shifted),
        free.len() == sh.to_set().difference(shifted).len(),
{
    broadcast use vstd::seq_lib::seq_to_set_is_finite;

    let s = sh.to_set();
    let v = kept.to_set();
    let f = free.to_set();
    sh.unique_seq_to_set();
    kept.unique_seq_to_set();
    free.unique_seq_to_set();
    assert forall|x: (int, int, int)| f.contains(x) == s.difference(v).contains(x) by {
        if f.contains(x) {
            let q = choose|q: int| 0 <= q < free.len() && free[q] == x;
            assert(sh.contains(free[q]));
        }
        if s.difference(v).contains(x) {
            let k = choose|k: int| 0 <= k < sh.len() && sh[k] == x;
            assert(free.contains(sh[k]));
        }
    }
    assert(f =~= s.difference(v));
    assert(s.intersect(v) =~= v);
    vstd::set_lib::lemma_set_difference_len(s, v);
    assert(s.difference(v) =~= s.difference(shifted));
}

/// Pushing `e` adds exactly `e`'s view, and keeps the views distinct when it
/// was not there yet.
pub proof fn lemma_views_push(s: Seq<IVec3>, e: IVec3)
    ensures
        forall|v: (int, int, int)| views(s.push(e)).contains(v) == (views(s).contains(v) || v == e@),
        views(s).no_duplicates() && !views(s).contains(e@) ==> views(s.push(e)).no_duplicates(),
{
    let t = s.push(e);
    assert forall|v: (int, int, int)| views(t).contains(v) == (views(s).contains(v) || v == e@) by {
        if views(t).contains(v) {
            let q = choose|q: int| 0 <= q < views(t).len() && views(t)[q] == v;
            if q < s.len() {
                assert(views(s)[q] == v);
            }
        }
        if views(s).contains(v) {
            let q = choose|q: int| 0 <= q < views(s).len() && views(s)[q] == v;
            assert(views(t)[q] == v);
        }
        if v == e@ {
            assert(views(t)[s.len() as int] == v);
        }
    }
    if views(s).no_duplicates() && !views(s).contains(e@) {
        assert forall|a: int, b: int| 0 <= a < views(t).len() && 0 <= b < views(t).len() && a != b
            implies views(t)[a] != views(t)[b] by {
            if a < s.len() {
                assert(views(s)[a] == views(t)[a]);
            }
            if b < s.len() {
                assert(views(s)[b] == views(t)[b]);
            }
        }
    }
}

} // verus!
