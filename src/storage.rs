use vstd::prelude::*;

use crate::block::Block;
use crate::position::{
    block_in_world, chunk_in_bounds, chunk_index, chunk_of, is_local, lemma_chunk_index,
    lemma_chunk_local_round_trip, lemma_storage_slot_injective, linear_index, linearize,
    local_of_block, storage_slot, BlockPos, ChunkPos, CHUNK_AREA, CHUNK_SIZE, WORLD_CHUNKS_X,
    WORLD_CHUNK_COUNT,
};

verus! {

/// Relies on rand::random::<bool>: a fair coin drawn from the thread-local generator.
/// Nothing is known of the outcome.
#[verifier::external_body]
pub(crate) fn coin_flip() -> (r: bool) {
    rand::random::<bool>()
}

/// What a chunk holds: foreground blocks, background walls and cosmetic
/// mirror flags, each indexed by `linear_index`.
pub struct ChunkModel {
    pub blocks: Seq<Block>,
    pub walls: Seq<Block>,
    pub flips: Seq<(bool, bool)>,
}

/// Every layer of the chunk is fully populated.
pub open spec fn chunk_model_wf(m: ChunkModel) -> bool {
    m.blocks.len() == CHUNK_AREA && m.walls.len() == CHUNK_AREA && m.flips.len() == CHUNK_AREA
}

/// The blocks and walls of one chunk as they are right after allocation.
pub open spec fn is_fresh_chunk(m: ChunkModel) -> bool {
    chunk_model_wf(m) && (forall|i: int| 0 <= i < CHUNK_AREA ==> m.blocks[i] == Block::Air)
        && (forall|i: int| 0 <= i < CHUNK_AREA ==> m.walls[i] == Block::Dirt)
}

/// The blocks of one chunk of a fixed grid of chunks.
pub struct ChunkData {
    blocks: Vec<Block>,
    walls: Vec<Block>,
    flip: Vec<(bool, bool)>,
}

impl View for ChunkData {
    type V = ChunkModel;

    closed spec fn view(&self) -> ChunkModel {
        ChunkModel { blocks: self.blocks@, walls: self.walls@, flips: self.flip@ }
    }
}

impl ChunkData {
    pub open spec fn wf(&self) -> bool {
        chunk_model_wf(self@)
    }

    /// A chunk of air in front of dirt walls, with random mirror flags.
    pub fn new() -> (r: Self)
        ensures
            r.wf(),
            is_fresh_chunk(r@),
    {
        let mut blocks: Vec<Block> = Vec::new();
        let mut walls: Vec<Block> = Vec::new();
        let mut flip: Vec<(bool, bool)> = Vec::new();
        let mut i: usize = 0;
        while i < CHUNK_AREA
            invariant
                i <= CHUNK_AREA,
                blocks@.len() == i,
                walls@.len() == i,
                flip@.len() == i,
                forall|j: int| 0 <= j < i ==> blocks@[j] == Block::Air,
                forall|j: int| 0 <= j < i ==> walls@[j] == Block::Dirt,
            decreases CHUNK_AREA - i,
        {
            blocks.push(Block::Air);
            walls.push(Block::Dirt);
            let fx = coin_flip();
            let fy = coin_flip();
            flip.push((fx, fy));
            i = i + 1;
        }
        ChunkData { blocks, walls, flip }
    }

    /// The block at a chunk-local position; `None` off the chunk.
    pub fn get_block(&self, block_pos: BlockPos) -> (r: Option<Block>)
        requires
            self.wf(),
        ensures
            r == (if is_local(block_pos) {
                Some(self@.blocks[linear_index(block_pos)])
            } else {
                None::<Block>
            }),
    {
        if block_pos.x < 0 || block_pos.x >= CHUNK_SIZE || block_pos.y < 0 || block_pos.y >= CHUNK_SIZE {
            return None;
        }
        let lin = linearize(block_pos);
        Some(self.blocks[lin])
    }

    /// The wall at a chunk-local position; `None` off the chunk.
    pub fn get_wall(&self, block_pos: BlockPos) -> (r: Option<Block>)
        requires
            self.wf(),
        ensures
            r == (if is_local(block_pos) {
                Some(self@.walls[linear_index(block_pos)])
            } else {
                None::<Block>
            }),
    {
        if block_pos.x < 0 || block_pos.x >= CHUNK_SIZE || block_pos.y < 0 || block_pos.y >= CHUNK_SIZE {
            return None;
        }
        let lin = linearize(block_pos);
        Some(self.walls[lin])
    }

    /// The mirror flags at a chunk-local position; `None` off the chunk.
    pub fn get_flip(&self, block_pos: BlockPos) -> (r: Option<(bool, bool)>)
        requires
            self.wf(),
        ensures
            r == (if is_local(block_pos) {
                Some(self@.flips[linear_index(block_pos)])
            } else {
                None::<(bool, bool)>
            }),
    {
        if block_pos.x < 0 || block_pos.x >= CHUNK_SIZE || block_pos.y < 0 || block_pos.y >= CHUNK_SIZE {
            return None;
        }
        let lin = linearize(block_pos);
        Some(self.flip[lin])
    }

    /// Sets every block and every wall of the chunk.
    pub fn fill(&mut self, block: Block, wall: Block)
        requires
            old(self).wf(),
        ensures
            final(self).wf(),
            final(self)@.flips == old(self)@.flips,
            forall|i: int| 0 <= i < CHUNK_AREA ==> final(self)@.blocks[i] == block,
            forall|i: int| 0 <= i < CHUNK_AREA ==> final(self)@.walls[i] == wall,
    {
        let mut i: usize = 0;
        while i < CHUNK_AREA
            invariant
                i <= CHUNK_AREA,
                self.wf(),
                self@.flips == old(self)@.flips,
                forall|j: int| 0 <= j < i ==> self@.blocks[j] == block,
                forall|j: int| 0 <= j < i ==> self@.walls[j] == wall,
            decreases CHUNK_AREA - i,
        {
            self.blocks.set(i, block);
            self.walls.set(i, wall);
            i = i + 1;
        }
    }

    /// Replaces the block at a chunk-local position; off the chunk nothing changes.
    pub fn set_block(&mut self, block_pos: BlockPos, block: Block)
        requires
            old(self).wf(),
        ensures
            final(self).wf(),
            final(self)@.walls == old(self)@.walls,
            final(self)@.flips == old(self)@.flips,
            final(self)@.blocks == (if is_local(block_pos) {
                old(self)@.blocks.update(linear_index(block_pos), block)
            } else {
                old(self)@.blocks
            }),
    {
        if block_pos.x < 0 || block_pos.x >= CHUNK_SIZE || block_pos.y < 0 || block_pos.y >= CHUNK_SIZE {
            return;
        }
        let lin = linearize(block_pos);
        self.blocks.set(lin, block);
    }

    /// Replaces the wall at a chunk-local position; off the chunk nothing changes.
    pub fn set_wall(&mut self, block_pos: BlockPos, block: Block)
        requires
            old(self).wf(),
        ensures
            final(self).wf(),
            final(self)@.blocks == old(self)@.blocks,
            final(self)@.flips == old(self)@.flips,
            final(self)@.walls == (if is_local(block_pos) {
                old(self)@.walls.update(linear_index(block_pos), block)
            } else {
                old(self)@.walls
            }),
    {
        if block_pos.x < 0 || block_pos.x >= CHUNK_SIZE || block_pos.y < 0 || block_pos.y >= CHUNK_SIZE {
            return;
        }
        let lin = linearize(block_pos);
        self.walls.set(lin, block);
    }
}

/// The block stored for a world position; `None` off the world grid.
pub open spec fn world_block(w: Seq<ChunkModel>, p: BlockPos) -> Option<Block> {
    if block_in_world(p) {
        Some(w[storage_slot(p).0].blocks[storage_slot(p).1])
    } else {
        None
    }
}

/// The wall stored for a world position; `None` off the world grid.
pub open spec fn world_wall(w: Seq<ChunkModel>, p: BlockPos) -> Option<Block> {
    if block_in_world(p) {
        Some(w[storage_slot(p).0].walls[storage_slot(p).1])
    } else {
        None
    }
}

/// The world after the block at `p` becomes `b`; off the grid the world is unchanged.
pub open spec fn with_block(w: Seq<ChunkModel>, p: BlockPos, b: Block) -> Seq<ChunkModel> {
    if block_in_world(p) {
        let (ci, li) = storage_slot(p);
        w.update(
            ci,
            ChunkModel { blocks: w[ci].blocks.update(li, b), walls: w[ci].walls, flips: w[ci].flips },
        )
    } else {
        w
    }
}

/// The world after the wall at `p` becomes `b`; off the grid the world is unchanged.
pub open spec fn with_wall(w: Seq<ChunkModel>, p: BlockPos, b: Block) -> Seq<ChunkModel> {
    if block_in_world(p) {
        let (ci, li) = storage_slot(p);
        w.update(
            ci,
            ChunkModel { blocks: w[ci].blocks, walls: w[ci].walls.update(li, b), flips: w[ci].flips },
        )
    } else {
        w
    }
}

/// One fully populated chunk for every chunk of the grid.
pub open spec fn world_model_wf(w: Seq<ChunkModel>) -> bool {
    w.len() == WORLD_CHUNK_COUNT && forall|i: int| 0 <= i < w.len() ==> chunk_model_wf(#[trigger] w[i])
}

/// Every chunk of the grid holds the freshly allocated contents.
pub open spec fn is_fresh_world(w: Seq<ChunkModel>) -> bool {
    world_model_wf(w) && forall|i: int| 0 <= i < w.len() ==> is_fresh_chunk(#[trigger] w[i])
}

proof fn lemma_slot_in_range(w: Seq<ChunkModel>, p: BlockPos)
    requires
        world_model_wf(w),
        block_in_world(p),
    ensures
        0 <= storage_slot(p).0 < WORLD_CHUNK_COUNT,
        0 <= storage_slot(p).1 < CHUNK_AREA,
        chunk_model_wf(w[storage_slot(p).0]),
{
    lemma_chunk_index(chunk_of(p));
    lemma_chunk_local_round_trip(p);
}

/// Reading a block back after writing one: the written position reads the new
/// block, every other position reads what it read before, and walls are untouched.
pub proof fn lemma_get_after_set_block(w: Seq<ChunkModel>, p: BlockPos, b: Block, q: BlockPos)
    requires
        world_model_wf(w),
    ensures
        world_model_wf(with_block(w, p, b)),
        world_block(with_block(w, p, b), q) == (if q == p && block_in_world(p) {
            Some(b)
        } else {
            world_block(w, q)
        }),
        world_wall(with_block(w, p, b), q) == world_wall(w, q),
{
    if block_in_world(p) {
        lemma_slot_in_range(w, p);
        let w2 = with_block(w, p, b);
        assert forall|i: int| 0 <= i < w2.len() implies chunk_model_wf(#[trigger] w2[i]) by {
            assert(chunk_model_wf(w[i]));
        }
        if block_in_world(q) {
            lemma_slot_in_range(w, q);
            if q != p {
                if storage_slot(q) == storage_slot(p) {
                    lemma_storage_slot_injective(p, q);
                }
            }
        }
    }
}

/// Reading a wall back after writing one: the written position reads the new
/// wall, every other position reads what it read before, and blocks are untouched.
pub proof fn lemma_get_after_set_wall(w: Seq<ChunkModel>, p: BlockPos, b: Block, q: BlockPos)
    requires
        world_model_wf(w),
    ensures
        world_model_wf(with_wall(w, p, b)),
        world_wall(with_wall(w, p, b), q) == (if q == p && block_in_world(p) {
            Some(b)
        } else {
            world_wall(w, q)
        }),
        world_block(with_wall(w, p, b), q) == world_block(w, q),
{
    if block_in_world(p) {
        lemma_slot_in_range(w, p);
        let w2 = with_wall(w, p, b);
        assert forall|i: int| 0 <= i < w2.len() implies chunk_model_wf(#[trigger] w2[i]) by {
            assert(chunk_model_wf(w[i]));
        }
        if block_in_world(q) {
            lemma_slot_in_range(w, q);
            if q != p {
                if storage_slot(q) == storage_slot(p) {
                    lemma_storage_slot_injective(p, q);
                }
            }
        }
    }
}

/// Writing one block changes what is read at that position only, and no wall.
pub proof fn lemma_set_block_frame(w: Seq<ChunkModel>, p: BlockPos, b: Block)
    requires
        world_model_wf(w),
    ensures
        world_model_wf(with_block(w, p, b)),
        forall|q: BlockPos|
            #[trigger] world_block(with_block(w, p, b), q) == (if q == p && block_in_world(p) {
                Some(b)
            } else {
                world_block(w, q)
            }),
        forall|q: BlockPos| #[trigger] world_wall(with_block(w, p, b), q) == world_wall(w, q),
{
    lemma_get_after_set_block(w, p, b, p);
    assert forall|q: BlockPos|
        #[trigger] world_block(with_block(w, p, b), q) == (if q == p && block_in_world(p) {
            Some(b)
        } else {
            world_block(w, q)
        }) && world_wall(with_block(w, p, b), q) == world_wall(w, q) by {
        lemma_get_after_set_block(w, p, b, q);
    }
}

/// Writing one wall changes what is read at that position only, and no block.
pub proof fn lemma_set_wall_frame(w: Seq<ChunkModel>, p: BlockPos, b: Block)
    requires
        world_model_wf(w),
    ensures
        world_model_wf(with_wall(w, p, b)),
        forall|q: BlockPos|
            #[trigger] world_wall(with_wall(w, p, b), q) == (if q == p && block_in_world(p) {
                Some(b)
            } else {
                world_wall(w, q)
            }),
        forall|q: BlockPos| #[trigger] world_block(with_wall(w, p, b), q) == world_block(w, q),
{
    lemma_get_after_set_wall(w, p, b, p);
    assert forall|q: BlockPos|
        #[trigger] world_wall(with_wall(w, p, b), q) == (if q == p && block_in_world(p) {
            Some(b)
        } else {
            world_wall(w, q)
        }) && world_block(with_wall(w, p, b), q) == world_block(w, q) by {
        lemma_get_after_set_wall(w, p, b, q);
    }
}

/// Setting a block to the same value twice leaves the world exactly as setting it once.
pub proof fn lemma_set_block_idempotent(w: Seq<ChunkModel>, p: BlockPos, b: Block)
    requires
        world_model_wf(w),
    ensures
        with_block(with_block(w, p, b), p, b) == with_block(w, p, b),
{
    if block_in_world(p) {
        lemma_slot_in_range(w, p);
        let (ci, li) = storage_slot(p);
        let w1 = with_block(w, p, b);
        let w2 = with_block(w1, p, b);
        assert(w1[ci].blocks.update(li, b) =~= w1[ci].blocks);
        assert(w2 =~= w1);
    }
}

/// Setting a wall to the same value twice leaves the world exactly as setting it once.
pub proof fn lemma_set_wall_idempotent(w: Seq<ChunkModel>, p: BlockPos, b: Block)
    requires
        world_model_wf(w),
    ensures
        with_wall(with_wall(w, p, b), p, b) == with_wall(w, p, b),
{
    if block_in_world(p) {
        lemma_slot_in_range(w, p);
        let (ci, li) = storage_slot(p);
        let w1 = with_wall(w, p, b);
        let w2 = with_wall(w1, p, b);
        assert(w1[ci].walls.update(li, b) =~= w1[ci].walls);
        assert(w2 =~= w1);
    }
}

/// A well-formed world has one fully populated chunk per grid chunk.
pub proof fn lemma_world_model(w: &WorldStorage)
    requires
        w.wf(),
    ensures
        world_model_wf(w@),
{
    w.lemma_wf_model();
}

/// All the chunks of the bounded world grid, allocated up front.
pub struct WorldStorage {
    chunks: Vec<ChunkData>,
}

impl View for WorldStorage {
    type V = Seq<ChunkModel>;

    closed spec fn view(&self) -> Seq<ChunkModel> {
        self.chunks@.map_values(|c: ChunkData| c@)
    }
}

impl WorldStorage {
    pub closed spec fn wf(&self) -> bool {
        self.chunks@.len() == WORLD_CHUNK_COUNT && forall|i: int|
            0 <= i < self.chunks@.len() ==> (#[trigger] self.chunks@[i]).wf()
    }

    pub proof fn lemma_wf_model(&self)
        requires
            self.wf(),
        ensures
            world_model_wf(self@),
    {
        assert forall|i: int| 0 <= i < self@.len() implies chunk_model_wf(#[trigger] self@[i]) by {
            assert(self.chunks@[i].wf());
        }
    }

    /// A world whose every chunk is freshly allocated (air in front of dirt walls).
    pub fn new() -> (r: Self)
        ensures
            r.wf(),
            world_model_wf(r@),
            is_fresh_world(r@),
    {
        let mut chunks: Vec<ChunkData> = Vec::new();
        let mut i: usize = 0;
        while i < WORLD_CHUNK_COUNT
            invariant
                i <= WORLD_CHUNK_COUNT,
                chunks@.len() == i,
                forall|j: int| 0 <= j < i ==> (#[trigger] chunks@[j]).wf() && is_fresh_chunk(chunks@[j]@),
            decreases WORLD_CHUNK_COUNT - i,
        {
            chunks.push(ChunkData::new());
            i = i + 1;
        }
        let r = WorldStorage { chunks };
        proof {
            r.lemma_wf_model();
            assert forall|j: int| 0 <= j < r@.len() implies is_fresh_chunk(#[trigger] r@[j]) by {
                assert(r.chunks@[j].wf());
            }
        }
        r
    }

    /// The data of an in-bounds chunk; `None` off the grid.
    pub fn get_chunk_data(&self, chunk_pos: ChunkPos) -> (r: Option<&ChunkData>)
        requires
            self.wf(),
        ensures
            r.is_some() == chunk_in_bounds(chunk_pos),
            r.is_some() ==> r.unwrap().wf() && r.unwrap()@ == self@[chunk_index(chunk_pos)],
    {
        if !chunk_pos.in_bounds() {
            return None;
        }
        proof {
            lemma_chunk_index(chunk_pos);
        }
        let ci = (chunk_pos.x + WORLD_CHUNKS_X * chunk_pos.y) as usize;
        Some(&self.chunks[ci])
    }

    /// The block at a world position; `None` off the world grid.
    pub fn get_block(&self, block_pos: BlockPos) -> (r: Option<Block>)
        requires
            self.wf(),
        ensures
            r == world_block(self@, block_pos),
    {
        let chunk_pos = ChunkPos::from_block_pos(block_pos);
        match self.get_chunk_data(chunk_pos) {
            None => None,
            Some(chunk_data) => {
                let local = local_of_block(block_pos);
                proof {
                    lemma_chunk_local_round_trip(block_pos);
                }
                chunk_data.get_block(local)
            },
        }
    }

    /// The wall at a world position; `None` off the world grid.
    pub fn get_wall(&self, block_pos: BlockPos) -> (r: Option<Block>)
        requires
            self.wf(),
        ensures
            r == world_wall(self@, block_pos),
    {
        let chunk_pos = ChunkPos::from_block_pos(block_pos);
        match self.get_chunk_data(chunk_pos) {
            None => None,
            Some(chunk_data) => {
                let local = local_of_block(block_pos);
                chunk_data.get_wall(local)
            },
        }
    }

    /// Sets every block and every wall of the world.
    pub fn fill(&mut self, block: Block, wall: Block)
        requires
            old(self).wf(),
        ensures
            final(self).wf(),
            world_model_wf(final(self)@),
            forall|p: BlockPos|
                block_in_world(p) ==> #[trigger] world_block(final(self)@, p) == Some(block)
                    && world_wall(final(self)@, p) == Some(wall),
    {
        let mut i: usize = 0;
        while i < WORLD_CHUNK_COUNT
            invariant
                i <= WORLD_CHUNK_COUNT,
                self.wf(),
                forall|j: int|
                    0 <= j < i ==> (forall|k: int|
                        0 <= k < CHUNK_AREA ==> (#[trigger] self@[j]).blocks[k] == block && self@[j].walls[k]
                            == wall),
            decreases WORLD_CHUNK_COUNT - i,
        {
            let ghost before = self.chunks@;
            let ghost before_view = self@;
            self.chunks[i].fill(block, wall);
            proof {
                assert(self.chunks@ == before.update(i as int, self.chunks@[i as int]));
                assert forall|j: int| 0 <= j < self.chunks@.len() implies (#[trigger] self.chunks@[j]).wf() by {
                    if j != i {
                        assert(before[j].wf());
                    }
                }
                assert forall|j: int| 0 <= j < i + 1 implies (forall|k: int|
                    0 <= k < CHUNK_AREA ==> (#[trigger] self@[j]).blocks[k] == block && self@[j].walls[k]
                        == wall) by {
                    assert(self@[j] == self.chunks@[j]@);
                    if j != i {
                        assert(before_view[j] == before[j]@);
                        assert(self@[j] == before_view[j]);
                    }
                }
            }
            i = i + 1;
        }
        proof {
            self.lemma_wf_model();
            assert forall|p: BlockPos| block_in_world(p) implies #[trigger] world_block(self@, p) == Some(
                block,
            ) && world_wall(self@, p) == Some(wall) by {
                lemma_slot_in_range(self@, p);
                let ci = storage_slot(p).0;
                assert(forall|k: int|
                    0 <= k < CHUNK_AREA ==> (#[trigger] self@[ci]).blocks[k] == block && self@[ci].walls[k]
                        == wall);
            }
        }
    }

    /// Writes a block at a world position; off the world grid nothing changes.
    pub fn set_block(&mut self, block_pos: BlockPos, block: Block)
        requires
            old(self).wf(),
        ensures
            final(self).wf(),
            final(self)@ == with_block(old(self)@, block_pos, block),
    {
        let chunk_pos = ChunkPos::from_block_pos(block_pos);
        if !chunk_pos.in_bounds() {
            return;
        }
        proof {
            lemma_chunk_index(chunk_pos);
            lemma_chunk_local_round_trip(block_pos);
        }
        let ci = (chunk_pos.x + WORLD_CHUNKS_X * chunk_pos.y) as usize;
        let local = local_of_block(block_pos);
        let ghost before = self.chunks@;
        self.chunks[ci].set_block(local, block);
        proof {
            assert(self.chunks@ == before.update(ci as int, self.chunks@[ci as int]));
            assert forall|i: int| 0 <= i < self.chunks@.len() implies (#[trigger] self.chunks@[i]).wf() by {
                if i != ci {
                    assert(before[i].wf());
                }
            }
            assert(self@ =~= with_block(old(self)@, block_pos, block));
        }
    }

    /// Writes a wall at a world position; off the world grid nothing changes.
    pub fn set_wall(&mut self, block_pos: BlockPos, block: Block)
        requires
            old(self).wf(),
        ensures
            final(self).wf(),
            final(self)@ == with_wall(old(self)@, block_pos, block),
    {
        let chunk_pos = ChunkPos::from_block_pos(block_pos);
        if !chunk_pos.in_bounds() {
            return;
        }
        proof {
            lemma_chunk_index(chunk_pos);
            lemma_chunk_local_round_trip(block_pos);
        }
        let ci = (chunk_pos.x + WORLD_CHUNKS_X * chunk_pos.y) as usize;
        let local = local_of_block(block_pos);
        let ghost before = self.chunks@;
        self.chunks[ci].set_wall(local, block);
        proof {
            assert(self.chunks@ == before.update(ci as int, self.chunks@[ci as int]));
            assert forall|i: int| 0 <= i < self.chunks@.len() implies (#[trigger] self.chunks@[i]).wf() by {
                if i != ci {
                    assert(before[i].wf());
                }
            }
            assert(self@ =~= with_wall(old(self)@, block_pos, block));
        }
    }
}

} // verus!
