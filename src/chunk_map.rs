//! The chunk map: a pool of chunk slots bound to a moving viewer and filled,
//! one chunk per call, by a generator.
use vstd::prelude::*;
use vstd::arithmetic::power2::{pow2, lemma2_to64};
use crate::chunk_generators::ChunkGenerator;
use crate::displaced_chunks::{DisplacedChunks, CHUNK_EXPONENT, views, lemma_views_push};
use crate::octree::{SESVOctree, MAX_OCTUPLES, reach, insert_nodes, null_octuple};
use crate::descriptor::ChildDescriptor;
use crate::vector::{IVec3, norm_sq, add3};
use crate::input::KeyEventQueue;

verus! {

/// Largest view radius, in chunks. It bounds memory: the window of this
/// radius already holds about 70 million chunk slots, each with a tree.
pub const MAX_VIEW_RADIUS: usize = 256;

/// Side of a chunk in voxels: `2^CHUNK_EXPONENT`.
pub const CHUNK_WIDTH: usize = 16;

/// Voxels in a chunk.
pub const CHUNK_VOLUME: usize = 4096;

/// The block id a generator writes for "no block": it is never inserted.
pub const EMPTY_BLOCK: u8 = 0xFF;

/// Why a map could not be built or moved.
#[derive(Clone, Copy, PartialEq, Eq, Structural, Debug)]
pub enum MapError {
    /// The view radius gives no usable displacement set: it is zero or above
    /// `MAX_VIEW_RADIUS`.
    Configuration,
    /// Some chunk of the window around this position would leave the `i32` grid.
    OutOfWorld,
}

/// Whether `v` lies in the ball of radius `reach` around the origin.
pub open spec fn in_ball(v: (int, int, int), reach: int) -> bool {
    norm_sq(v) <= reach * reach
}

/// Whether every chunk within `reach` of `pos` on each axis has an `i32`
/// position.
pub open spec fn window_fits(pos: (int, int, int), reach: int) -> bool {
    &&& i32::MIN + reach <= pos.0 <= i32::MAX - reach
    &&& i32::MIN + reach <= pos.1 <= i32::MAX - reach
    &&& i32::MIN + reach <= pos.2 <= i32::MAX - reach
}

/// Lexicographic order of triples.
pub open spec fn lex_lt(v: (int, int, int), p: (int, int, int)) -> bool {
    v.0 < p.0 || (v.0 == p.0 && (v.1 < p.1 || (v.1 == p.1 && v.2 < p.2)))
}

/// The voxel of a chunk at row-major index `i` (x fastest).
pub open spec fn chunk_voxel(i: int) -> (int, int, int) {
    (i % 16, (i % 256) / 16, i / 256)
}

/// The blocks of the first `k` entries of a chunk buffer that are not empty,
/// by voxel.
pub open spec fn buffer_blocks(b: Seq<u8>, k: int) -> Map<(int, int, int), u16> {
    Map::new(
        |p: (int, int, int)|
            0 <= p.0 < 16 && 0 <= p.1 < 16 && 0 <= p.2 < 16 && p.0 + 16 * p.1 + 256 * p.2 < k && b[p.0 + 16 * p.1 + 256
                * p.2] != EMPTY_BLOCK,
        |p: (int, int, int)| b[p.0 + 16 * p.1 + 256 * p.2] as u16,
    )
}

/// The node array of a chunk tree after inserting `v` at voxel `p`: unchanged
/// when the voxel is stored already.
pub open spec fn chunk_insert_nodes(c: Seq<ChildDescriptor>, p: (int, int, int), v: u16) -> Seq<ChildDescriptor> {
    if reach(c, (0int, 0int, 0int), CHUNK_EXPONENT as nat, p, CHUNK_EXPONENT as nat) is Some {
        c
    } else {
        insert_nodes(c, 0, (0int, 0int, 0int), CHUNK_EXPONENT as nat, p, Some(v))
    }
}

/// The node array of a chunk tree after inserting, in ascending order, the
/// non-empty blocks of the first `k` entries of the buffer `b`.
pub open spec fn fill_nodes(c: Seq<ChildDescriptor>, b: Seq<u8>, k: nat) -> Seq<ChildDescriptor>
    decreases k,
{
    if k == 0 {
        c
    } else {
        let prev = fill_nodes(c, b, (k - 1) as nat);
        if b[k - 1] == EMPTY_BLOCK {
            prev
        } else {
            chunk_insert_nodes(prev, chunk_voxel(k - 1), b[k - 1] as u16)
        }
    }
}

/// Each component of a point of the ball is within `reach`.
pub proof fn lemma_ball_bounds(v: (int, int, int), reach: int)
    requires
        reach >= 0,
        in_ball(v, reach),
    ensures
        -reach <= v.0 <= reach,
        -reach <= v.1 <= reach,
        -reach <= v.2 <= reach,
{
    assert(v.0 * v.0 >= 0 && v.1 * v.1 >= 0 && v.2 * v.2 >= 0) by (nonlinear_arith);
    assert(-reach <= v.0 <= reach) by (nonlinear_arith)
        requires
            v.0 * v.0 <= reach * reach,
            reach >= 0,
    ;
    assert(-reach <= v.1 <= reach) by (nonlinear_arith)
        requires
            v.1 * v.1 <= reach * reach,
            reach >= 0,
    ;
    assert(-reach <= v.2 <= reach) by (nonlinear_arith)
        requires
            v.2 * v.2 <= reach * reach,
            reach >= 0,
    ;
}

/// A chunk map: the viewer's chunk-grid position and the pool of chunk slots
/// around it. The window is the ball of radius `view_radius - 1`.
pub struct ChunkMap {
    chunks: DisplacedChunks,
    world_grid_pos: IVec3,
    view_radius: usize,
    input_event_queue: KeyEventQueue,
}

impl ChunkMap {
    pub closed spec fn pool(self) -> DisplacedChunks {
        self.chunks
    }

    pub closed spec fn world_pos(self) -> (int, int, int) {
        self.world_grid_pos@
    }

    pub closed spec fn radius(self) -> int {
        self.view_radius as int
    }

    /// The queue of key events for the map.
    pub closed spec fn queue(self) -> KeyEventQueue {
        self.input_event_queue
    }

    /// The window's reach: `view_radius - 1`.
    pub open spec fn reach(self) -> int {
        self.radius() - 1
    }

    /// The pool holds the ball of the view radius and the window fits the grid.
    pub closed spec fn wf(self) -> bool {
        &&& self.chunks.wf()
        &&& 1 <= self.view_radius <= MAX_VIEW_RADIUS
        &&& forall|v: (int, int, int)| self.chunks.shape().contains(v) == in_ball(v, self.reach())
        &&& window_fits(self.world_grid_pos@, self.reach())
        &&& self.input_event_queue.wf()
    }

    /// Whether every chunk of the window of reach `view_radius - 1` around
    /// `pos` has an `i32` position.
    fn fits_window(pos: IVec3, view_radius: usize) -> (r: bool)
        requires
            1 <= view_radius <= MAX_VIEW_RADIUS,
        ensures
            r == window_fits(pos@, view_radius - 1),
    {
        let reach = (view_radius - 1) as i64;
        let lo = i32::MIN as i64 + reach;
        let hi = i32::MAX as i64 - reach;
        let x = pos.x as i64;
        let y = pos.y as i64;
        let z = pos.z as i64;
        lo <= x && x <= hi && lo <= y && y <= hi && lo <= z && z <= hi
    }

    /// A map centred on `viewer_world_grid_pos` whose window holds every chunk
    /// displacement of Euclidean norm at most `view_radius - 1`, one slot each,
    /// all unused.
    pub fn new(viewer_world_grid_pos: IVec3, view_radius: usize) -> (r: Result<ChunkMap, MapError>)
        ensures
            (r == Err::<ChunkMap, MapError>(MapError::Configuration)) == (view_radius == 0 || view_radius
                > MAX_VIEW_RADIUS),
            (r == Err::<ChunkMap, MapError>(MapError::OutOfWorld)) == (1 <= view_radius <= MAX_VIEW_RADIUS
                && !window_fits(viewer_world_grid_pos@, view_radius - 1)),
            r is Ok ==> r.unwrap().wf(),
            r is Ok ==> r.unwrap().world_pos() == viewer_world_grid_pos@,
            r is Ok ==> r.unwrap().radius() == view_radius,
            r is Ok ==> forall|v: (int, int, int)| r.unwrap().pool().shape().contains(v) == in_ball(v, view_radius - 1),
            r is Ok ==> r.unwrap().pool().disp() == r.unwrap().pool().shape(),
            r is Ok ==> forall|i: int| 0 <= i < r.unwrap().pool().slot_count() ==> !#[trigger] r.unwrap().pool().in_use()[i],
    {
        if view_radius == 0 || view_radius > MAX_VIEW_RADIUS {
            return Err(MapError::Configuration);
        }
        if !Self::fits_window(viewer_world_grid_pos, view_radius) {
            return Err(MapError::OutOfWorld);
        }
        let set = Self::radius_displacement_set(view_radius);
        proof {
            assert(in_ball((0int, 0int, 0int), view_radius - 1)) by (nonlinear_arith)
                requires
                    view_radius >= 1,
            ;
            assert(views(set@).contains((0int, 0int, 0int)));
        }
        let chunks = DisplacedChunks::new(set);
        let input_event_queue = KeyEventQueue::new(vec!["interact_1", "interact_2"]);
        Ok(ChunkMap { chunks, world_grid_pos: viewer_world_grid_pos, view_radius, input_event_queue })
    }

    /// The size of a chunk in voxels on each axis.
    pub fn chunk_dims(&self) -> (r: [usize; 3])
        ensures
            r[0] == CHUNK_WIDTH && r[1] == CHUNK_WIDTH && r[2] == CHUNK_WIDTH,
            CHUNK_WIDTH == pow2(CHUNK_EXPONENT as nat),
    {
        proof {
            lemma2_to64();
        }
        [CHUNK_WIDTH, CHUNK_WIDTH, CHUNK_WIDTH]
    }

    /// Voxels per chunk.
    pub fn chunk_len(&self) -> (r: usize)
        ensures
            r == CHUNK_WIDTH * CHUNK_WIDTH * CHUNK_WIDTH,
    {
        CHUNK_VOLUME
    }

    /// Slots in the pool: the size of the displacement set.
    pub fn chunk_count(&self) -> (r: usize)
        requires
            self.wf(),
        ensures
            r == self.pool().slot_count(),
    {
        self.chunks.len()
    }

    /// The viewer's chunk-grid position.
    pub fn world_grid_pos(&self) -> (r: IVec3)
        ensures
            r@ == self.world_pos(),
    {
        self.world_grid_pos
    }

    /// The map's queue of key events. The map stays well formed as long as
    /// the queue does.
    pub fn input_queue(&mut self) -> (r: &mut KeyEventQueue)
        requires
            old(self).wf(),
        ensures
            *r == old(self).queue(),
            r.wf(),
            final(self).queue() == *final(r),
            final(self).pool() == old(self).pool(),
            final(self).world_pos() == old(self).world_pos(),
            final(self).radius() == old(self).radius(),
            final(r).wf() ==> final(self).wf(),
    {
        &mut self.input_event_queue
    }

    /// Records that the renderer has taken the tree of slot `index`.
    pub fn mark_chunk_clean(&mut self, index: usize)
        requires
            old(self).wf(),
            index < old(self).pool().slot_count(),
        ensures
            final(self).wf(),
            final(self).world_pos() == old(self).world_pos(),
            final(self).radius() == old(self).radius(),
            final(self).queue() == old(self).queue(),
            final(self).pool().dirty() == old(self).pool().dirty().update(index as int, false),
            final(self).pool().shape() == old(self).pool().shape(),
            final(self).pool().disp() == old(self).pool().disp(),
            final(self).pool().in_use() == old(self).pool().in_use(),
            final(self).pool().trees() == old(self).pool().trees(),
    {
        self.chunks.mark_clean(index);
    }

    /// The slot pool, for the renderer to read.
    pub fn chunks(&self) -> (r: &DisplacedChunks)
        ensures
            *r == self.pool(),
    {
        &self.chunks
    }

    /// The tree of the viewer's own chunk (displacement zero), or `None`
    /// while that chunk is not generated.
    pub fn render_tree(&self) -> (r: Option<&SESVOctree>)
        requires
            self.wf(),
        ensures
            r is Some ==> exists|i: int|
                0 <= i < self.pool().slot_count() && self.pool().disp()[i] == (0int, 0int, 0int)
                    && #[trigger] self.pool().in_use()[i] && *r.unwrap() == self.pool().trees()[i],
            r is None ==> forall|i: int|
                0 <= i < self.pool().slot_count() && self.pool().disp()[i] == (0int, 0int, 0int) ==> !#[trigger] self.pool().in_use()[i],
    {
        let n = self.chunks.len();
        let zero = IVec3::zero();
        proof {
            self.chunks.lemma_wf_facts();
        }
        let mut c_index: usize = 0;
        while c_index < n
            invariant
                self.wf(),
                n == self.pool().slot_count(),
                c_index <= n,
                zero@ == (0int, 0int, 0int),
                forall|j: int| 0 <= j < c_index ==> self.pool().disp()[j] != (0int, 0int, 0int),
            decreases n - c_index,
        {
            if self.chunks.get_displacement(c_index) == zero {
                let t = self.chunks.get_tree(c_index);
                proof {
                    self.chunks.lemma_wf_facts();
                    assert forall|j: int|
                        0 <= j < n && self.pool().disp()[j] == (0int, 0int, 0int) implies j == c_index by {
                        if j != c_index {
                            assert(self.pool().disp()[j] != self.pool().disp()[c_index as int]);
                        }
                    }
                }
                return t;
            }
            c_index += 1;
        }
        None
    }

    /// Moves the viewer to `viewer_world_grid_pos`: the slots shift the other
    /// way, so that displacements stay relative to the viewer. A position whose
    /// window would leave the `i32` grid is refused.
    pub fn adapt_to_world_position(&mut self, viewer_world_grid_pos: IVec3) -> (r: Result<(), MapError>)
        requires
            old(self).wf(),
        ensures
            final(self).wf(),
            final(self).radius() == old(self).radius(),
            (r == Err::<(), MapError>(MapError::OutOfWorld)) == !window_fits(viewer_world_grid_pos@, old(self).reach()),
            (r is Ok) == window_fits(viewer_world_grid_pos@, old(self).reach()),
            r is Err ==> *final(self) == *old(self),
            r is Ok ==> final(self).queue() == old(self).queue(),
            r is Ok ==> final(self).world_pos() == viewer_world_grid_pos@,
            r is Ok && viewer_world_grid_pos@ == old(self).world_pos() ==> final(self).pool() == old(self).pool(),
            r is Ok && viewer_world_grid_pos@ != old(self).world_pos() ==> old(self).pool().shift_effect(
                sub3(old(self).world_pos(), viewer_world_grid_pos@),
                final(self).pool(),
            ),
            r is Ok ==> forall|i: int|
                0 <= i < final(self).pool().slot_count() && #[trigger] final(self).pool().in_use()[i] ==> add3(
                    final(self).world_pos(),
                    final(self).pool().disp()[i],
                ) == add3(old(self).world_pos(), old(self).pool().disp()[i]),
    {
        if !Self::fits_window(viewer_world_grid_pos, self.view_radius) {
            return Err(MapError::OutOfWorld);
        }
        if viewer_world_grid_pos == self.world_grid_pos {
            return Ok(());
        }
        let reach = (self.view_radius - 1) as i64;
        let cap = 2 * reach + 1;
        let dx = clamp(self.world_grid_pos.x as i64 - viewer_world_grid_pos.x as i64, cap);
        let dy = clamp(self.world_grid_pos.y as i64 - viewer_world_grid_pos.y as i64, cap);
        let dz = clamp(self.world_grid_pos.z as i64 - viewer_world_grid_pos.z as i64, cap);
        let shift = IVec3 { x: dx as i32, y: dy as i32, z: dz as i32 };
        let ghost actual = sub3(old(self).world_pos(), viewer_world_grid_pos@);
        let ghost pool0 = self.chunks;
        self.chunks.displace(shift);
        self.world_grid_pos = viewer_world_grid_pos;
        proof {
            if shift@ != actual {
                lemma_shift_far(pool0, shift@, actual, self.chunks, reach as int);
            }
            pool0.lemma_wf_facts();
            self.chunks.lemma_wf_facts();
            assert forall|i: int| 0 <= i < self.chunks.slot_count() && #[trigger] self.chunks.in_use()[i] implies add3(
                viewer_world_grid_pos@,
                self.chunks.disp()[i],
            ) == add3(old(self).world_pos(), pool0.disp()[i]) by {
                if !pool0.stays(i, actual) {
                    assert(!self.chunks.in_use()[i]);
                }
            }
        }
        Ok(())
    }

    /// Writes every non-empty block of `block_buffer` (one id per voxel of the
    /// chunk, row-major) into the tree of slot `c_index`; voxels that the tree
    /// holds already keep their value.
    pub fn fill_chunk(&mut self, c_index: usize, block_buffer: &Vec<u8>)
        requires
            old(self).wf(),
            c_index < old(self).pool().slot_count(),
            old(self).pool().in_use()[c_index as int],
            block_buffer@.len() == CHUNK_VOLUME,
            old(self).pool().trees()[c_index as int].octuple_count() + 4 * CHUNK_VOLUME <= MAX_OCTUPLES,
        ensures
            final(self).wf(),
            final(self).world_pos() == old(self).world_pos(),
            final(self).radius() == old(self).radius(),
            final(self).queue() == old(self).queue(),
            final(self).pool().shape() == old(self).pool().shape(),
            final(self).pool().disp() == old(self).pool().disp(),
            final(self).pool().in_use() == old(self).pool().in_use(),
            final(self).pool().trees()[c_index as int].nodes() == fill_nodes(
                old(self).pool().trees()[c_index as int].nodes(),
                block_buffer@,
                CHUNK_VOLUME as nat,
            ),
            final(self).pool().trees()[c_index as int]@ == buffer_blocks(block_buffer@, CHUNK_VOLUME as int).union_prefer_right(
                old(self).pool().trees()[c_index as int]@,
            ),
            forall|j: int| 0 <= j < old(self).pool().slot_count() && j != c_index ==> #[trigger] final(self).pool().trees()[j]
                == old(self).pool().trees()[j],
            final(self).pool().dirty() == old(self).pool().dirty().update(
                c_index as int,
                old(self).pool().dirty()[c_index as int] || has_block(block_buffer@),
            ),
    {
        let ghost t0 = self.chunks.trees()[c_index as int];
        let ghost pool0 = self.chunks;
        let ghost b = block_buffer@;
        proof {
            pool0.lemma_wf_facts();
            assert(pool0.dirty().update(c_index as int, pool0.dirty()[c_index as int] || exists|i: int| 0 <= i < 0 && b[i] != EMPTY_BLOCK)
                =~= pool0.dirty());
            assert(buffer_blocks(b, 0).union_prefer_right(t0@) =~= t0@);
        }
        let mut index: usize = 0;
        while index < CHUNK_VOLUME
            invariant
                self.wf(),
                self.world_grid_pos == old(self).world_grid_pos,
                self.view_radius == old(self).view_radius,
                self.input_event_queue == old(self).input_event_queue,
                b == block_buffer@,
                b.len() == CHUNK_VOLUME,
                c_index < pool0.slot_count(),
                pool0 == old(self).chunks,
                pool0.wf(),
                t0 == pool0.trees()[c_index as int],
                index <= CHUNK_VOLUME,
                self.chunks.shape() == pool0.shape(),
                self.chunks.disp() == pool0.disp(),
                self.chunks.in_use() == pool0.in_use(),
                self.chunks.in_use()[c_index as int],
                forall|j: int| 0 <= j < pool0.slot_count() && j != c_index ==> #[trigger] self.chunks.trees()[j]
                    == pool0.trees()[j],
                self.chunks.trees()[c_index as int]@ == buffer_blocks(b, index as int).union_prefer_right(t0@),
                self.chunks.trees()[c_index as int].nodes() == fill_nodes(t0.nodes(), b, index as nat),
                self.chunks.trees()[c_index as int].octuple_count() <= t0.octuple_count() + 4 * index,
                t0.octuple_count() + 4 * CHUNK_VOLUME <= MAX_OCTUPLES,
                self.chunks.dirty() == pool0.dirty().update(
                    c_index as int,
                    pool0.dirty()[c_index as int] || exists|i: int| 0 <= i < index && b[i] != EMPTY_BLOCK,
                ),
            decreases CHUNK_VOLUME - index,
        {
            let block = block_buffer[index];
            let ghost before = self.chunks;
            let ghost p = chunk_voxel(index as int);
            proof {
                lemma_chunk_voxel(index as int);
                before.lemma_wf_facts();
                pool0.lemma_wf_facts();
            }
            if block != EMPTY_BLOCK {
                let pos = IVec3 { x: (index % 16) as i32, y: ((index % 256) / 16) as i32, z: (index / 256) as i32 };
                proof {
                    lemma2_to64();
                    assert(pos@ == p);
                    let t = before.trees()[c_index as int];
                    assert(t.in_cube(p));
                    assert(!t.needs_room(p));
                }
                let r = self.chunks.insert_block(c_index, block, pos);
                proof {
                    if let Err(e) = r {
                        match e {
                            crate::displaced_chunks::ChunkError::NotInUse => {},
                            crate::displaced_chunks::ChunkError::OutOfBounds => {},
                            crate::displaced_chunks::ChunkError::Full => {},
                        }
                    }
                    assert(r is Ok);
                    let t = before.trees()[c_index as int];
                    let t1 = self.chunks.trees()[c_index as int];
                    assert(t1@ =~= buffer_blocks(b, index + 1).union_prefer_right(t0@));
                    assert(t.anchor() == (0int, 0int, 0int) && t.deg() == CHUNK_EXPONENT);
                    assert(t@.contains_key(p) == (reach(t.nodes(), (0int, 0int, 0int), CHUNK_EXPONENT as nat, p, CHUNK_EXPONENT as nat) is Some));
                    assert(t1.nodes() == chunk_insert_nodes(t.nodes(), p, block as u16));
                    assert(fill_nodes(t0.nodes(), b, (index + 1) as nat) == chunk_insert_nodes(fill_nodes(t0.nodes(), b, index as nat), chunk_voxel(index as int), b[index as int] as u16));
                    assert(b[index as int] != EMPTY_BLOCK);
                    assert(exists|i: int| 0 <= i < index + 1 && b[i] != EMPTY_BLOCK);
                    assert(self.chunks.dirty() == before.dirty().update(c_index as int, true));
                    assert(before.dirty().update(c_index as int, true) =~= pool0.dirty().update(c_index as int, true));
                    assert(self.chunks.dirty() =~= pool0.dirty().update(
                        c_index as int,
                        pool0.dirty()[c_index as int] || exists|i: int| 0 <= i < index + 1 && b[i] != EMPTY_BLOCK,
                    ));
                }
            } else {
                proof {
                    assert(buffer_blocks(b, index + 1) =~= buffer_blocks(b, index as int));
                    assert(fill_nodes(t0.nodes(), b, (index + 1) as nat) == fill_nodes(t0.nodes(), b, index as nat));
                    assert((exists|i: int| 0 <= i < index + 1 && b[i] != EMPTY_BLOCK) == (exists|i: int| 0 <= i < index && b[i] != EMPTY_BLOCK));
                }
            }
            index += 1;
        }
    }

    /// The chunk-grid position of slot `c_index`: the viewer's position plus
    /// the slot's displacement.
    pub fn chunk_world_position(&self, c_index: usize) -> (r: [i32; 3])
        requires
            self.wf(),
            c_index < self.pool().slot_count(),
        ensures
            (r[0] as int, r[1] as int, r[2] as int) == add3(self.world_pos(), self.pool().disp()[c_index as int]),
    {
        let d = self.chunks.get_displacement(c_index);
        proof {
            self.chunks.lemma_wf_facts();
            assert(self.chunks.shape().contains(d@));
            lemma_ball_bounds(d@, self.reach());
        }
        [self.world_grid_pos.x + d.x, self.world_grid_pos.y + d.y, self.world_grid_pos.z + d.z]
    }

    /// A chunk buffer in which every voxel is empty.
    pub fn empty_chunk_buffer() -> (r: Vec<u8>)
        ensures
            r@ == Seq::new(CHUNK_VOLUME as nat, |i: int| EMPTY_BLOCK),
    {
        let r = vec![EMPTY_BLOCK; CHUNK_VOLUME];
        assert(r@ =~= Seq::new(CHUNK_VOLUME as nat, |i: int| EMPTY_BLOCK));
        r
    }

    /// What the map's invariant says of its parts.
    pub proof fn lemma_wf_parts(self)
        requires
            self.wf(),
        ensures
            self.pool().wf(),
            self.queue().wf(),
            1 <= self.radius() <= MAX_VIEW_RADIUS,
            forall|v: (int, int, int)| self.pool().shape().contains(v) == in_ball(v, self.reach()),
            window_fits(self.world_pos(), self.reach()),
    {
    }

    /// Claims the nearest unused slot, has `generator` fill a buffer for the
    /// chunk at the slot's world position, and writes the buffer's blocks into
    /// the slot's tree. Does nothing when every slot is in use.
    pub fn generate_next_chunk<G: ChunkGenerator>(&mut self, generator: &G)
        requires
            old(self).wf(),
        ensures
            final(self).wf(),
            final(self).world_pos() == old(self).world_pos(),
            final(self).radius() == old(self).radius(),
            final(self).pool().shape() == old(self).pool().shape(),
            final(self).pool().disp() == old(self).pool().disp(),
            (forall|i: int| 0 <= i < old(self).pool().slot_count() ==> #[trigger] old(self).pool().in_use()[i])
                ==> *final(self) == *old(self),
            final(self).queue() == old(self).queue(),
            !(forall|i: int| 0 <= i < old(self).pool().slot_count() ==> #[trigger] old(self).pool().in_use()[i])
                ==> exists|c: int| #[trigger] old(self).pool().nearest_unused(c) && generated_into(old(self).pool(), final(self).pool(), c),
    {
        let ghost pool0 = self.chunks;
        proof {
            pool0.lemma_wf_facts();
        }
        if let Some(c_index) = self.chunks.use_chunk() {
            let world = self.chunk_world_position(c_index);
            let mut block_buffer = Self::empty_chunk_buffer();
            let dims = self.chunk_dims();
            generator.generate_chunk(block_buffer.as_mut_slice(), world, dims);
            let ghost pool1 = self.chunks;
            self.fill_chunk(c_index, &block_buffer);
            proof {
                let c = c_index as int;
                pool0.lemma_wf_facts();
                self.chunks.lemma_wf_facts();
                assert(block_buffer@.len() == CHUNK_VOLUME);
                assert(self.chunks.in_use() == pool0.in_use().update(c, true));
                assert(self.chunks.dirty() =~= pool0.dirty().update(c, true));
                assert(pool1.trees()[c]@ == Map::<(int, int, int), u16>::empty());
                assert(pool1.trees()[c].nodes() =~= null_octuple());
                assert(buffer_blocks(block_buffer@, CHUNK_VOLUME as int).union_prefer_right(pool1.trees()[c]@)
                    =~= buffer_blocks(block_buffer@, CHUNK_VOLUME as int));
                assert(generated_into(pool0, self.chunks, c));
            }
        }
    }

    /// Whether the squared norm of `d` is at most `length` squared.
    fn displacement_in_length(d: IVec3, length: i64) -> (r: bool)
        requires
            0 <= length <= 0x7fff_ffff,
        ensures
            r == in_ball(d@, length as int),
    {
        let n = d.norm_squared();
        assert(length * length <= 0x3fff_ffff_0000_0001) by (nonlinear_arith)
            requires
                0 <= length <= 0x7fff_ffff,
        ;
        assert(0 <= length * length) by (nonlinear_arith);
        n <= (length * length) as u64
    }

    /// All integer vectors whose Euclidean norm is at most `view_radius - 1`.
    pub fn radius_displacement_set(view_radius: usize) -> (r: Vec<IVec3>)
        requires
            1 <= view_radius <= MAX_VIEW_RADIUS,
        ensures
            views(r@).no_duplicates(),
            forall|v: (int, int, int)| views(r@).contains(v) == in_ball(v, view_radius - 1),
    {
        let mut out: Vec<IVec3> = Vec::new();
        let rr = view_radius as i32;
        let reach = (view_radius - 1) as i64;
        let ghost big = view_radius - 1;
        let lo = 1 - rr;
        let mut x: i32 = lo;
        proof {
            assert forall|v: (int, int, int)| views(out@).contains(v) == (in_ball(v, big) && lex_lt(v, (x as int, lo as int, lo as int))) by {
                if in_ball(v, big) {
                    lemma_ball_bounds(v, big);
                }
            }
        }
        while x < rr
            invariant
                rr == view_radius,
                1 <= view_radius <= MAX_VIEW_RADIUS,
                reach == big,
                big == view_radius - 1,
                lo == 1 - rr,
                lo <= x <= rr,
                views(out@).no_duplicates(),
                forall|v: (int, int, int)| views(out@).contains(v) == (in_ball(v, big) && lex_lt(v, (x as int, lo as int, lo as int))),
            decreases rr - x,
        {
            let mut y: i32 = lo;
            while y < rr
                invariant
                    rr == view_radius,
                    1 <= view_radius <= MAX_VIEW_RADIUS,
                    reach == big,
                    big == view_radius - 1,
                    lo == 1 - rr,
                    lo <= x < rr,
                    lo <= y <= rr,
                    views(out@).no_duplicates(),
                    forall|v: (int, int, int)| views(out@).contains(v) == (in_ball(v, big) && lex_lt(v, (x as int, y as int, lo as int))),
                decreases rr - y,
            {
                let mut z: i32 = lo;
                while z < rr
                    invariant
                        rr == view_radius,
                        1 <= view_radius <= MAX_VIEW_RADIUS,
                        reach == big,
                        big == view_radius - 1,
                        lo == 1 - rr,
                        lo <= x < rr,
                        lo <= y < rr,
                        lo <= z <= rr,
                        views(out@).no_duplicates(),
                        forall|v: (int, int, int)| views(out@).contains(v) == (in_ball(v, big) && lex_lt(v, (x as int, y as int, z as int))),
                    decreases rr - z,
                {
                    let p = IVec3 { x, y, z };
                    let ghost before = out@;
                    if Self::displacement_in_length(p, reach) {
                        proof {
                            lemma_views_push(out@, p);
                        }
                        out.push(p);
                    }
                    proof {
                        assert forall|v: (int, int, int)| views(out@).contains(v) == (in_ball(v, big) && lex_lt(v, (x as int, y as int, (z + 1) as int))) by {
                            assert(views(before).contains(v) == (in_ball(v, big) && lex_lt(v, (x as int, y as int, z as int))));
                            if v == p@ {
                                assert(!lex_lt(v, (x as int, y as int, z as int)));
                            }
                        }
                    }
                    z += 1;
                }
                proof {
                    assert forall|v: (int, int, int)| views(out@).contains(v) == (in_ball(v, big) && lex_lt(v, (x as int, (y + 1) as int, lo as int))) by {
                        if in_ball(v, big) {
                            lemma_ball_bounds(v, big);
                        }
                    }
                }
                y += 1;
            }
            proof {
                assert forall|v: (int, int, int)| views(out@).contains(v) == (in_ball(v, big) && lex_lt(v, ((x + 1) as int, lo as int, lo as int))) by {
                    if in_ball(v, big) {
                        lemma_ball_bounds(v, big);
                    }
                }
            }
            x += 1;
        }
        proof {
            assert forall|v: (int, int, int)| views(out@).contains(v) == in_ball(v, big) by {
                if in_ball(v, big) {
                    lemma_ball_bounds(v, big);
                }
            }
        }
        out
    }
}

/// The window of a map of view radius `r` has as many distinct displacements
/// as the pool has slots, and each has Euclidean norm at most `r - 1`.
pub proof fn lemma_window_is_ball(m: ChunkMap)
    requires
        m.wf(),
    ensures
        m.pool().shape().to_set().len() == m.pool().slot_count(),
        forall|i: int| 0 <= i < m.pool().slot_count() ==> norm_sq(#[trigger] m.pool().shape()[i]) <= m.reach() * m.reach(),
        forall|v: (int, int, int)| m.pool().shape().contains(v) == in_ball(v, m.reach()),
{
    m.pool().lemma_wf_facts();
    m.pool().shape().unique_seq_to_set();
    assert forall|i: int| 0 <= i < m.pool().slot_count() implies norm_sq(#[trigger] m.pool().shape()[i]) <= m.reach()
        * m.reach() by {
        let v = m.pool().shape()[i];
        assert(m.pool().shape().contains(v));
        assert(m.chunks.shape().contains(v) == in_ball(v, m.reach()));
        assert(in_ball(v, m.reach()));
    }
}

/// A map has one slot for each element of the displacement set of its view
/// radius, as `radius_displacement_set` lists it.
pub proof fn lemma_slot_count_is_set_size(m: ChunkMap, set: Seq<IVec3>)
    requires
        m.wf(),
        views(set).no_duplicates(),
        forall|v: (int, int, int)| views(set).contains(v) == in_ball(v, m.reach()),
    ensures
        m.pool().slot_count() == set.len(),
{
    broadcast use vstd::seq_lib::seq_to_set_is_finite;

    m.pool().lemma_wf_facts();
    m.pool().shape().unique_seq_to_set();
    views(set).unique_seq_to_set();
    assert(m.pool().shape().to_set() =~= views(set).to_set());
}

/// Componentwise difference of two integer triples.
pub open spec fn sub3(a: (int, int, int), b: (int, int, int)) -> (int, int, int) {
    (a.0 - b.0, a.1 - b.1, a.2 - b.2)
}

/// Whether a chunk buffer holds any block.
pub open spec fn has_block(b: Seq<u8>) -> bool {
    exists|i: int| 0 <= i < b.len() && b[i] != EMPTY_BLOCK
}

/// `after` is `before` once slot `c` has been claimed and filled from some
/// buffer of a chunk's size: in use, dirty, holding that buffer's blocks, its
/// node array that of a fresh chunk tree after the buffer's insertions.
pub open spec fn generated_into(before: DisplacedChunks, after: DisplacedChunks, c: int) -> bool {
    &&& after.in_use() == before.in_use().update(c, true)
    &&& after.dirty() == before.dirty().update(c, true)
    &&& forall|j: int| 0 <= j < before.slot_count() && j != c ==> #[trigger] after.trees()[j] == before.trees()[j]
    &&& exists|b: Seq<u8>|
        b.len() == CHUNK_VOLUME && #[trigger] buffer_blocks(b, CHUNK_VOLUME as int) == after.trees()[c]@ && after.trees()[c].nodes()
            == fill_nodes(null_octuple(), b, CHUNK_VOLUME as nat)
}

/// `v` limited to `[-cap, cap]`.
fn clamp(v: i64, cap: i64) -> (r: i64)
    requires
        cap >= 0,
    ensures
        -cap <= r <= cap,
        -cap <= v <= cap ==> r == v,
        v > cap ==> r == cap,
        v < -cap ==> r == -cap,
{
    if v > cap {
        cap
    } else if v < -cap {
        -cap
    } else {
        v
    }
}

/// The row-major index of the voxel at index `i` is `i`, and no other voxel of
/// the chunk has that index.
proof fn lemma_chunk_voxel(i: int)
    requires
        0 <= i < 4096,
    ensures
        ({
            let p = chunk_voxel(i);
            &&& 0 <= p.0 < 16 && 0 <= p.1 < 16 && 0 <= p.2 < 16
            &&& p.0 + 16 * p.1 + 256 * p.2 == i
        }),
        forall|q: (int, int, int)|
            0 <= q.0 < 16 && 0 <= q.1 < 16 && 0 <= q.2 < 16 && q.0 + 16 * q.1 + 256 * q.2 == i ==> q == chunk_voxel(i),
{
}

/// A point with one component beyond `reach` is outside the ball.
proof fn lemma_outside_ball(w: (int, int, int), reach: int)
    requires
        reach >= 0,
        w.0 > reach || w.0 < -reach || w.1 > reach || w.1 < -reach || w.2 > reach || w.2 < -reach,
    ensures
        !in_ball(w, reach),
{
    if in_ball(w, reach) {
        lemma_ball_bounds(w, reach);
    }
}

/// Two shifts that each move some axis by more than the window's diameter
/// send every slot out of the set, so they have the same effect.
proof fn lemma_shift_far(pool: DisplacedChunks, a: (int, int, int), b: (int, int, int), after: DisplacedChunks, reach: int)
    requires
        pool.wf(),
        reach >= 0,
        forall|v: (int, int, int)| pool.shape().contains(v) == in_ball(v, reach),
        a.0 > 2 * reach || a.0 < -2 * reach || a.1 > 2 * reach || a.1 < -2 * reach || a.2 > 2 * reach || a.2 < -2 * reach,
        b.0 > 2 * reach || b.0 < -2 * reach || b.1 > 2 * reach || b.1 < -2 * reach || b.2 > 2 * reach || b.2 < -2 * reach,
        pool.shift_effect(a, after),
    ensures
        pool.shift_effect(b, after),
{
    assert forall|j: int, delta: (int, int, int)|
        0 <= j < pool.slot_count() && (delta == a || delta == b) implies !in_ball(add3(pool.disp()[j], delta), reach) by {
        pool.lemma_disp_in_shape(j);
        lemma_ball_bounds(pool.disp()[j], reach);
        lemma_outside_ball(add3(pool.disp()[j], delta), reach);
    }
    assert forall|i: int| 0 <= i < pool.slot_count() implies !pool.stays(i, a) && !pool.stays(i, b) by {}
    assert forall|i: int| 0 <= i < pool.slot_count() implies !pool.shifted_set(b).contains(after.disp()[i]) by {
        after.lemma_disp_in_shape(i);
        if pool.shifted_set(b).contains(after.disp()[i]) {
            let j = choose|j: int| 0 <= j < pool.slot_count() && after.disp()[i] == add3(pool.disp()[j], b);
            assert(!in_ball(add3(pool.disp()[j], b), reach));
        }
    }
}

} // verus!
