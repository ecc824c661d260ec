use vstd::prelude::*;
use vstd::arithmetic::div_mod::lemma_fundamental_div_mod_converse;

verus! {

/// Pixel size of one block; used only when drawing.
pub const BLOCK_SIZE: i32 = 8;

/// Blocks along each side of a chunk.
pub const CHUNK_SIZE: i32 = 32;

/// Blocks in one chunk.
pub const CHUNK_AREA: usize = 1024;

/// Extent of the world grid, in chunks.
pub const WORLD_CHUNKS_X: i32 = 8;
pub const WORLD_CHUNKS_Y: i32 = 8;

/// Chunks in the world grid.
pub const WORLD_CHUNK_COUNT: usize = 64;

/// Extent of the world, in blocks.
pub const WORLD_BLOCKS_X: i32 = 256;
pub const WORLD_BLOCKS_Y: i32 = 256;

/// A block position in absolute world coordinates (or, where stated, inside a chunk).
#[derive(Clone, Copy, PartialEq, Eq, Debug, Hash, Structural)]
pub struct BlockPos {
    pub x: i32,
    pub y: i32,
}

/// A chunk of the world grid.
#[derive(Clone, Copy, PartialEq, Eq, Debug, Hash, Structural)]
pub struct ChunkPos {
    pub x: i32,
    pub y: i32,
}

/// Floor division by the chunk size (Verus's `/` on `int` rounds toward negative infinity here).
pub open spec fn chunk_coord(v: int) -> int {
    v / (CHUNK_SIZE as int)
}

/// Remainder of floor division by the chunk size: always in `[0, CHUNK_SIZE)`.
pub open spec fn local_coord(v: int) -> int {
    v % (CHUNK_SIZE as int)
}

/// The chunk that holds a block position.
pub open spec fn chunk_of(p: BlockPos) -> ChunkPos {
    ChunkPos { x: chunk_coord(p.x as int) as i32, y: chunk_coord(p.y as int) as i32 }
}

/// A block position relative to the origin of its chunk.
pub open spec fn local_of(p: BlockPos) -> BlockPos {
    BlockPos { x: local_coord(p.x as int) as i32, y: local_coord(p.y as int) as i32 }
}

/// A position inside one chunk.
pub open spec fn is_local(p: BlockPos) -> bool {
    0 <= p.x < CHUNK_SIZE && 0 <= p.y < CHUNK_SIZE
}

/// Row-major index of a chunk-local position.
pub open spec fn linear_index(p: BlockPos) -> int {
    p.x + CHUNK_SIZE * p.y
}

/// The chunk lies on the world grid.
pub open spec fn chunk_in_bounds(c: ChunkPos) -> bool {
    0 <= c.x < WORLD_CHUNKS_X && 0 <= c.y < WORLD_CHUNKS_Y
}

/// Row-major index of a chunk of the world grid.
pub open spec fn chunk_index(c: ChunkPos) -> int {
    c.x + WORLD_CHUNKS_X * c.y
}

/// The chunk at a row-major grid index.
pub open spec fn chunk_at_index(i: int) -> ChunkPos {
    ChunkPos { x: (i % (WORLD_CHUNKS_X as int)) as i32, y: (i / (WORLD_CHUNKS_X as int)) as i32 }
}

/// The block lies in a chunk of the world grid.
pub open spec fn block_in_world(p: BlockPos) -> bool {
    chunk_in_bounds(chunk_of(p))
}

/// Where a block of the world is stored: its chunk's grid index and its index inside the chunk.
pub open spec fn storage_slot(p: BlockPos) -> (int, int) {
    (chunk_index(chunk_of(p)), linear_index(local_of(p)))
}

proof fn lemma_div_mod_parts(v: int)
    ensures
        v == CHUNK_SIZE * chunk_coord(v) + local_coord(v),
        0 <= local_coord(v) < CHUNK_SIZE,
        v < 0 ==> chunk_coord(v) < 0,
        v >= 0 ==> 0 <= chunk_coord(v) <= v,
        v < 0 ==> v <= chunk_coord(v),
{
    let q = chunk_coord(v);
    let r = local_coord(v);
    assert(v == q * 32 + r && 0 <= r < 32) by {
        vstd::arithmetic::div_mod::lemma_fundamental_div_mod(v, 32);
        vstd::arithmetic::div_mod::lemma_mod_bound(v, 32);
    }
    assert(v < 0 ==> q < 0) by (nonlinear_arith)
        requires v == q * 32 + r, 0 <= r < 32;
    assert(v >= 0 ==> 0 <= q <= v) by (nonlinear_arith)
        requires v == q * 32 + r, 0 <= r < 32;
    assert(v < 0 ==> v <= q) by (nonlinear_arith)
        requires v == q * 32 + r, 0 <= r < 32;
}

/// A block position is rebuilt from its chunk and its place inside that chunk,
/// the place is a valid local position even for negative coordinates (floor
/// division), and its linear index lies inside the chunk.
pub proof fn lemma_chunk_local_round_trip(p: BlockPos)
    ensures
        CHUNK_SIZE * chunk_of(p).x + local_of(p).x == p.x,
        CHUNK_SIZE * chunk_of(p).y + local_of(p).y == p.y,
        is_local(local_of(p)),
        0 <= linear_index(local_of(p)) < CHUNK_AREA,
{
    lemma_div_mod_parts(p.x as int);
    lemma_div_mod_parts(p.y as int);
}

/// On a negative axis the local coordinate stays in `[0, CHUNK_SIZE)` and the
/// chunk coordinate is negative: the division rounds toward negative infinity.
pub proof fn lemma_negative_axis_local(p: BlockPos)
    ensures
        p.x < 0 ==> 0 <= local_of(p).x < CHUNK_SIZE && chunk_of(p).x < 0,
        p.y < 0 ==> 0 <= local_of(p).y < CHUNK_SIZE && chunk_of(p).y < 0,
{
    lemma_div_mod_parts(p.x as int);
    lemma_div_mod_parts(p.y as int);
}

/// The linear index is one-to-one on the local positions of a chunk.
pub proof fn lemma_linearize_injective(a: BlockPos, b: BlockPos)
    requires
        is_local(a),
        is_local(b),
        linear_index(a) == linear_index(b),
    ensures
        a == b,
{
}

/// Inside one chunk, the linear index of the local position identifies the block.
pub proof fn lemma_slot_identifies_block(p: BlockPos, q: BlockPos)
    requires
        chunk_of(p) == chunk_of(q),
        linear_index(local_of(p)) == linear_index(local_of(q)),
    ensures
        p == q,
{
    lemma_chunk_local_round_trip(p);
    lemma_chunk_local_round_trip(q);
    lemma_linearize_injective(local_of(p), local_of(q));
}

/// Grid indices of the world's chunks are one-to-one and in range.
pub proof fn lemma_chunk_index(c: ChunkPos)
    requires
        chunk_in_bounds(c),
    ensures
        0 <= chunk_index(c) < WORLD_CHUNK_COUNT,
        chunk_at_index(chunk_index(c)) == c,
{
    lemma_fundamental_div_mod_converse(chunk_index(c), 8, c.y as int, c.x as int);
}

/// Every grid index names an in-bounds chunk, which maps back to it.
pub proof fn lemma_chunk_at_index(i: int)
    requires
        0 <= i < WORLD_CHUNK_COUNT,
    ensures
        chunk_in_bounds(chunk_at_index(i)),
        chunk_index(chunk_at_index(i)) == i,
{
    vstd::arithmetic::div_mod::lemma_fundamental_div_mod(i, 8);
}

/// Two blocks of the world share a storage slot only if they are the same block.
pub proof fn lemma_storage_slot_injective(p: BlockPos, q: BlockPos)
    requires
        block_in_world(p),
        block_in_world(q),
        storage_slot(p) == storage_slot(q),
    ensures
        p == q,
{
    lemma_chunk_index(chunk_of(p));
    lemma_chunk_index(chunk_of(q));
    lemma_slot_identifies_block(p, q);
}

/// A block lies on the world grid exactly when both coordinates are within the world's extent.
pub proof fn lemma_block_in_world(p: BlockPos)
    ensures
        block_in_world(p) == (0 <= p.x < WORLD_BLOCKS_X && 0 <= p.y < WORLD_BLOCKS_Y),
{
    lemma_div_mod_parts(p.x as int);
    lemma_div_mod_parts(p.y as int);
}

/// `lemma_block_in_world` for every block at once.
pub proof fn lemma_world_extent()
    ensures
        forall|p: BlockPos|
            #[trigger] block_in_world(p) == (0 <= p.x < WORLD_BLOCKS_X && 0 <= p.y < WORLD_BLOCKS_Y),
{
    assert forall|p: BlockPos|
        #[trigger] block_in_world(p) == (0 <= p.x < WORLD_BLOCKS_X && 0 <= p.y < WORLD_BLOCKS_Y) by {
        lemma_block_in_world(p);
    }
}

/// Floor division of one coordinate by the chunk size.
fn floor_chunk(v: i32) -> (r: i32)
    ensures
        r == chunk_coord(v as int),
{
    proof {
        lemma_div_mod_parts(v as int);
    }
    if v >= 0 {
        v / CHUNK_SIZE
    } else {
        let a: i32 = -(v + 1);
        let q: i32 = a / CHUNK_SIZE;
        proof {
            let m = a as int % 32;
            vstd::arithmetic::div_mod::lemma_fundamental_div_mod(a as int, 32);
            vstd::arithmetic::div_mod::lemma_mod_bound(a as int, 32);
            assert(v as int == (-(q as int) - 1) * 32 + (31 - m));
            lemma_fundamental_div_mod_converse(v as int, 32, -(q as int) - 1, 31 - m);
        }
        -q - 1
    }
}

/// Remainder of floor division of one coordinate by the chunk size.
fn floor_local(v: i32) -> (r: i32)
    ensures
        r == local_coord(v as int),
{
    let q = floor_chunk(v);
    proof {
        lemma_div_mod_parts(v as int);
    }
    v - CHUNK_SIZE * q
}

impl ChunkPos {
    pub fn in_bounds(&self) -> (r: bool)
        ensures
            r == chunk_in_bounds(*self),
    {
        self.x >= 0 && self.x < WORLD_CHUNKS_X && self.y >= 0 && self.y < WORLD_CHUNKS_Y
    }

    /// The chunk that holds a block; negative coordinates round toward negative infinity.
    pub fn from_block_pos(block_pos: BlockPos) -> (r: ChunkPos)
        ensures
            r == chunk_of(block_pos),
    {
        ChunkPos { x: floor_chunk(block_pos.x), y: floor_chunk(block_pos.y) }
    }
}

/// A block position relative to its chunk's origin, each axis in `[0, CHUNK_SIZE)`.
pub fn local_of_block(block_pos: BlockPos) -> (r: BlockPos)
    ensures
        r == local_of(block_pos),
        is_local(r),
{
    proof {
        lemma_chunk_local_round_trip(block_pos);
    }
    BlockPos { x: floor_local(block_pos.x), y: floor_local(block_pos.y) }
}

/// Row-major index of a chunk-local position.
pub fn linearize(block_pos: BlockPos) -> (r: usize)
    requires
        is_local(block_pos),
    ensures
        r == linear_index(block_pos),
        r < CHUNK_AREA,
{
    (block_pos.x + CHUNK_SIZE * block_pos.y) as usize
}

} // verus!
