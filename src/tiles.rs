use vstd::prelude::*;

use crate::block::{flips, tag_of, Block};
use crate::position::{BlockPos, CHUNK_SIZE};
use crate::storage::{ChunkData, ChunkModel};

verus! {

/// One tile of a chunk's tile layer: its chunk-local cell, the texture index of
/// its block, and whether the texture is mirrored on each axis.
#[derive(Clone, Copy, PartialEq, Eq, Debug, Hash, Structural)]
pub struct Tile {
    pub x: u32,
    pub y: u32,
    pub texture_index: u32,
    pub flip_x: bool,
    pub flip_y: bool,
}

/// The tile showing block `b` at cell `(x, y)`: mirrored by the chunk's flags
/// only where the block may be mirrored.
pub open spec fn tile_of(m: ChunkModel, b: Block, x: int, y: int) -> Tile {
    let f = m.flips[x + CHUNK_SIZE * y];
    Tile {
        x: x as u32,
        y: y as u32,
        texture_index: tag_of(b),
        flip_x: flips(b) && f.0,
        flip_y: flips(b) && f.1,
    }
}

/// The foreground tile of cell `(x, y)`.
pub open spec fn block_tile(m: ChunkModel, x: int, y: int) -> Tile {
    tile_of(m, m.blocks[x + CHUNK_SIZE * y], x, y)
}

/// The background tile of cell `(x, y)`: drawn only where the foreground is air.
pub open spec fn wall_tile(m: ChunkModel, x: int, y: int) -> Option<Tile> {
    if m.blocks[x + CHUNK_SIZE * y] == Block::Air {
        Some(tile_of(m, m.walls[x + CHUNK_SIZE * y], x, y))
    } else {
        None
    }
}

/// The entry of cell `(x, y)` in a row-major list of a chunk's cells.
pub open spec fn at_cell<T>(s: Seq<T>, x: int, y: int) -> T {
    s[x + CHUNK_SIZE * y]
}

/// The tile of a block at a chunk-local cell.
fn make_tile(chunk_data: &ChunkData, block: Block, x: i32, y: i32) -> (t: Tile)
    requires
        chunk_data.wf(),
        0 <= x < CHUNK_SIZE,
        0 <= y < CHUNK_SIZE,
    ensures
        t == tile_of(chunk_data@, block, x as int, y as int),
{
    let (fx, fy) = match chunk_data.get_flip(BlockPos { x, y }) {
        Some(f) => f,
        None => (false, false),
    };
    let mirror = block.should_flip();
    Tile {
        x: x as u32,
        y: y as u32,
        texture_index: block.tag(),
        flip_x: mirror && fx,
        flip_y: mirror && fy,
    }
}

/// The foreground tile layer of a chunk, one tile per cell in row-major order.
pub fn chunk_tiles(chunk_data: &ChunkData) -> (r: Vec<Tile>)
    requires
        chunk_data.wf(),
    ensures
        r@.len() == CHUNK_SIZE * CHUNK_SIZE,
        forall|x: int, y: int|
            0 <= x < CHUNK_SIZE && 0 <= y < CHUNK_SIZE ==> #[trigger] at_cell(r@, x, y) == block_tile(
                chunk_data@,
                x,
                y,
            ),
{
    let mut out: Vec<Tile> = Vec::new();
    let mut y: i32 = 0;
    while y < CHUNK_SIZE
        invariant
            0 <= y <= CHUNK_SIZE,
            chunk_data.wf(),
            out@.len() == CHUNK_SIZE * y,
            forall|cx: int, cy: int|
                0 <= cx < CHUNK_SIZE && 0 <= cy < y ==> #[trigger] at_cell(out@, cx, cy) == block_tile(
                    chunk_data@,
                    cx,
                    cy,
                ),
        decreases CHUNK_SIZE - y,
    {
        let mut x: i32 = 0;
        while x < CHUNK_SIZE
            invariant
                0 <= x <= CHUNK_SIZE,
                0 <= y < CHUNK_SIZE,
                chunk_data.wf(),
                out@.len() == CHUNK_SIZE * y + x,
                forall|cx: int, cy: int|
                    0 <= cx < CHUNK_SIZE && 0 <= cy < CHUNK_SIZE && (cy < y || (cy == y && cx < x))
                        ==> #[trigger] at_cell(out@, cx, cy) == block_tile(chunk_data@, cx, cy),
            decreases CHUNK_SIZE - x,
        {
            let block = match chunk_data.get_block(BlockPos { x, y }) {
                Some(b) => b,
                None => Block::Air,
            };
            let t = make_tile(chunk_data, block, x, y);
            let ghost prev = out@;
            out.push(t);
            proof {
                assert forall|cx: int, cy: int|
                    0 <= cx < CHUNK_SIZE && 0 <= cy < CHUNK_SIZE && (cy < y || (cy == y && cx < x + 1))
                        implies #[trigger] at_cell(out@, cx, cy) == block_tile(chunk_data@, cx, cy) by {
                    if cy < y || (cy == y && cx < x) {
                        assert(cx + CHUNK_SIZE * cy < prev.len());
                        assert(at_cell(prev, cx, cy) == block_tile(chunk_data@, cx, cy));
                        assert(out@[cx + CHUNK_SIZE * cy] == prev[cx + CHUNK_SIZE * cy]);
                    } else {
                        assert(cx + CHUNK_SIZE * cy == prev.len());
                    }
                }
            }
            x = x + 1;
        }
        y = y + 1;
    }
    out
}

/// The background tile layer of a chunk, one entry per cell in row-major order:
/// the wall's tile where the foreground is air, nothing elsewhere.
pub fn wall_tiles(chunk_data: &ChunkData) -> (r: Vec<Option<Tile>>)
    requires
        chunk_data.wf(),
    ensures
        r@.len() == CHUNK_SIZE * CHUNK_SIZE,
        forall|x: int, y: int|
            0 <= x < CHUNK_SIZE && 0 <= y < CHUNK_SIZE ==> #[trigger] at_cell(r@, x, y) == wall_tile(
                chunk_data@,
                x,
                y,
            ),
{
    let mut out: Vec<Option<Tile>> = Vec::new();
    let mut y: i32 = 0;
    while y < CHUNK_SIZE
        invariant
            0 <= y <= CHUNK_SIZE,
            chunk_data.wf(),
            out@.len() == CHUNK_SIZE * y,
            forall|cx: int, cy: int|
                0 <= cx < CHUNK_SIZE && 0 <= cy < y ==> #[trigger] at_cell(out@, cx, cy) == wall_tile(
                    chunk_data@,
                    cx,
                    cy,
                ),
        decreases CHUNK_SIZE - y,
    {
        let mut x: i32 = 0;
        while x < CHUNK_SIZE
            invariant
                0 <= x <= CHUNK_SIZE,
                0 <= y < CHUNK_SIZE,
                chunk_data.wf(),
                out@.len() == CHUNK_SIZE * y + x,
                forall|cx: int, cy: int|
                    0 <= cx < CHUNK_SIZE && 0 <= cy < CHUNK_SIZE && (cy < y || (cy == y && cx < x))
                        ==> #[trigger] at_cell(out@, cx, cy) == wall_tile(chunk_data@, cx, cy),
            decreases CHUNK_SIZE - x,
        {
            let front = chunk_data.get_block(BlockPos { x, y });
            let entry = match front {
                Some(Block::Air) => {
                    let wall = match chunk_data.get_wall(BlockPos { x, y }) {
                        Some(b) => b,
                        None => Block::Air,
                    };
                    Some(make_tile(chunk_data, wall, x, y))
                },
                _ => None,
            };
            let ghost prev = out@;
            out.push(entry);
            proof {
                assert forall|cx: int, cy: int|
                    0 <= cx < CHUNK_SIZE && 0 <= cy < CHUNK_SIZE && (cy < y || (cy == y && cx < x + 1))
                        implies #[trigger] at_cell(out@, cx, cy) == wall_tile(chunk_data@, cx, cy) by {
                    if cy < y || (cy == y && cx < x) {
                        assert(cx + CHUNK_SIZE * cy < prev.len());
                        assert(at_cell(prev, cx, cy) == wall_tile(chunk_data@, cx, cy));
                        assert(out@[cx + CHUNK_SIZE * cy] == prev[cx + CHUNK_SIZE * cy]);
                    } else {
                        assert(cx + CHUNK_SIZE * cy == prev.len());
                    }
                }
            }
            x = x + 1;
        }
        y = y + 1;
    }
    out
}

} // verus!
