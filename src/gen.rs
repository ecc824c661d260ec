use vstd::prelude::*;

use crate::block::Block;
use crate::position::{block_in_world, lemma_world_extent, BlockPos, WORLD_BLOCKS_X, WORLD_BLOCKS_Y};
use crate::storage::{
    coin_flip, lemma_set_block_frame, lemma_set_wall_frame, world_block, world_model_wf, world_wall,
    ChunkModel, WorldStorage,
};

verus! {

/// Depth of the band, just under a column's stone line, where dirt and stone mix at random.
pub const STONE_THRESHOLD: i32 = 5;

/// Cells in the world.
pub const WORLD_AREA: usize = 65536;

/// The block at `p` once column `p.x` is carved down to the surface height `h`:
/// air above, grass at the surface, what was there below.
pub open spec fn carved_block(w: Seq<ChunkModel>, h: int, p: BlockPos) -> Option<Block> {
    if !block_in_world(p) {
        None
    } else if p.y > h {
        Some(Block::Air)
    } else if p.y == h {
        Some(Block::Grass)
    } else {
        world_block(w, p)
    }
}

/// The wall at `p` once column `p.x` is carved down to the surface height `h`:
/// air above, dirt at the surface, what was there below.
pub open spec fn carved_wall(w: Seq<ChunkModel>, h: int, p: BlockPos) -> Option<Block> {
    if !block_in_world(p) {
        None
    } else if p.y > h {
        Some(Block::Air)
    } else if p.y == h {
        Some(Block::Dirt)
    } else {
        world_wall(w, p)
    }
}

/// The block at `p` in a world generated from the column heights `heights`.
pub open spec fn terrain_block(heights: Seq<i32>, p: BlockPos) -> Option<Block> {
    if !block_in_world(p) {
        None
    } else if p.y > heights[p.x as int] {
        Some(Block::Air)
    } else if p.y == heights[p.x as int] {
        Some(Block::Grass)
    } else {
        Some(Block::Dirt)
    }
}

/// The wall at `p` in a world generated from the column heights `heights`.
pub open spec fn terrain_wall(heights: Seq<i32>, p: BlockPos) -> Option<Block> {
    if !block_in_world(p) {
        None
    } else if p.y > heights[p.x as int] {
        Some(Block::Air)
    } else {
        Some(Block::Dirt)
    }
}

/// Base fill: every block and every wall of the world becomes dirt.
pub fn fill_dirt(world: &mut WorldStorage)
    requires
        old(world).wf(),
    ensures
        final(world).wf(),
        world_model_wf(final(world)@),
        forall|p: BlockPos|
            block_in_world(p) ==> #[trigger] world_block(final(world)@, p) == Some(Block::Dirt)
                && world_wall(final(world)@, p) == Some(Block::Dirt),
{
    world.fill(Block::Dirt, Block::Dirt);
}

/// Surface carve: in each column `x`, the block at height `heights[x]` becomes
/// grass in front of a dirt wall, and every block and wall above it becomes air.
/// A height off the world carves nothing there.
pub fn carve_surface(world: &mut WorldStorage, heights: &Vec<i32>)
    requires
        old(world).wf(),
        world_model_wf(old(world)@),
        heights@.len() == WORLD_BLOCKS_X,
    ensures
        final(world).wf(),
        world_model_wf(final(world)@),
        forall|p: BlockPos|
            #[trigger] world_block(final(world)@, p) == (if block_in_world(p) {
                carved_block(old(world)@, heights@[p.x as int] as int, p)
            } else {
                None
            }),
        forall|p: BlockPos|
            #[trigger] world_wall(final(world)@, p) == (if block_in_world(p) {
                carved_wall(old(world)@, heights@[p.x as int] as int, p)
            } else {
                None
            }),
{
    proof {
        lemma_world_extent();
    }
    let mut x: i32 = 0;
    while x < WORLD_BLOCKS_X
        invariant
            0 <= x <= WORLD_BLOCKS_X,
            heights@.len() == WORLD_BLOCKS_X,
            world.wf(),
            world_model_wf(world@),
            world_model_wf(old(world)@),
            forall|p: BlockPos|
                #[trigger] world_block(world@, p) == (if block_in_world(p) && p.x < x {
                    carved_block(old(world)@, heights@[p.x as int] as int, p)
                } else {
                    world_block(old(world)@, p)
                }),
            forall|p: BlockPos|
                #[trigger] world_wall(world@, p) == (if block_in_world(p) && p.x < x {
                    carved_wall(old(world)@, heights@[p.x as int] as int, p)
                } else {
                    world_wall(old(world)@, p)
                }),
        decreases WORLD_BLOCKS_X - x,
    {
        let h = heights[x as usize];
        let top = BlockPos { x, y: h };
        proof {
            lemma_set_block_frame(world@, top, Block::Grass);
        }
        world.set_block(top, Block::Grass);
        proof {
            lemma_set_wall_frame(world@, top, Block::Dirt);
        }
        world.set_wall(top, Block::Dirt);
        let mut y: i32 = if h < 0 {
            0
        } else if h >= WORLD_BLOCKS_Y {
            WORLD_BLOCKS_Y
        } else {
            h + 1
        };
        while y < WORLD_BLOCKS_Y
            invariant
                0 <= x < WORLD_BLOCKS_X,
                0 <= y <= WORLD_BLOCKS_Y,
                h == heights@[x as int],
                h < y || y == WORLD_BLOCKS_Y,
                heights@.len() == WORLD_BLOCKS_X,
                world.wf(),
                world_model_wf(world@),
                world_model_wf(old(world)@),
                forall|p: BlockPos|
                    #[trigger] world_block(world@, p) == (if block_in_world(p) && (p.x < x || (p.x == x
                        && p.y <= h) || (p.x == x && p.y < y)) {
                        carved_block(old(world)@, heights@[p.x as int] as int, p)
                    } else {
                        world_block(old(world)@, p)
                    }),
                forall|p: BlockPos|
                    #[trigger] world_wall(world@, p) == (if block_in_world(p) && (p.x < x || (p.x == x
                        && p.y <= h) || (p.x == x && p.y < y)) {
                        carved_wall(old(world)@, heights@[p.x as int] as int, p)
                    } else {
                        world_wall(old(world)@, p)
                    }),
            decreases WORLD_BLOCKS_Y - y,
        {
            let pos = BlockPos { x, y };
            proof {
                lemma_set_block_frame(world@, pos, Block::Air);
            }
            world.set_block(pos, Block::Air);
            proof {
                lemma_set_wall_frame(world@, pos, Block::Air);
            }
            world.set_wall(pos, Block::Air);
            y = y + 1;
        }
        x = x + 1;
    }
}

/// A world made from per-column surface heights: dirt everywhere, then carved
/// so that column `x` has grass at `heights[x]`, air above it and dirt below.
pub fn generate(heights: &Vec<i32>) -> (world: WorldStorage)
    requires
        heights@.len() == WORLD_BLOCKS_X,
    ensures
        world.wf(),
        world_model_wf(world@),
        forall|p: BlockPos| #[trigger] world_block(world@, p) == terrain_block(heights@, p),
        forall|p: BlockPos| #[trigger] world_wall(world@, p) == terrain_wall(heights@, p),
{
    let mut world = WorldStorage::new();
    fill_dirt(&mut world);
    let ghost filled = world@;
    carve_surface(&mut world, heights);
    proof {
        lemma_world_extent();
        assert forall|p: BlockPos| #[trigger] world_block(world@, p) == terrain_block(heights@, p) by {
            if block_in_world(p) {
                assert(world_block(filled, p) == Some(Block::Dirt));
            }
        }
        assert forall|p: BlockPos| #[trigger] world_wall(world@, p) == terrain_wall(heights@, p) by {
            if block_in_world(p) {
                assert(world_block(filled, p) == Some(Block::Dirt));
            }
        }
    }
    world
}

/// Generation is a function of the column heights: two worlds generated from the
/// same heights hold the same block and the same wall at every position, and each
/// column's grass sits at its height.
pub proof fn lemma_generation_deterministic(
    a: Seq<ChunkModel>,
    b: Seq<ChunkModel>,
    heights: Seq<i32>,
)
    requires
        heights.len() == WORLD_BLOCKS_X,
        forall|p: BlockPos| #[trigger] world_block(a, p) == terrain_block(heights, p),
        forall|p: BlockPos| #[trigger] world_wall(a, p) == terrain_wall(heights, p),
        forall|p: BlockPos| #[trigger] world_block(b, p) == terrain_block(heights, p),
        forall|p: BlockPos| #[trigger] world_wall(b, p) == terrain_wall(heights, p),
    ensures
        forall|p: BlockPos| #[trigger] world_block(a, p) == world_block(b, p) && world_wall(a, p) == world_wall(b, p),
        forall|x: int|
            0 <= x < WORLD_BLOCKS_X && 0 <= heights[x] < WORLD_BLOCKS_Y ==> #[trigger] world_block(
                a,
                BlockPos { x: x as i32, y: heights[x] },
            ) == Some(Block::Grass),
{
    lemma_world_extent();
    assert forall|p: BlockPos| #[trigger] world_block(a, p) == world_block(b, p) && world_wall(a, p) == world_wall(b, p) by {
        assert(world_wall(a, p) == terrain_wall(heights, p));
        assert(world_wall(b, p) == terrain_wall(heights, p));
    }
    assert forall|x: int|
        0 <= x < WORLD_BLOCKS_X && 0 <= heights[x] < WORLD_BLOCKS_Y implies #[trigger] world_block(
            a,
            BlockPos { x: x as i32, y: heights[x] },
        ) == Some(Block::Grass) by {
        let p = BlockPos { x: x as i32, y: heights[x] };
        assert(block_in_world(p));
    }
}

/// A block of the stone pass, given the column's stone line `top`: stone well
/// under the line, dirt or stone in the band just under it, unchanged above.
pub open spec fn stone_block_ok(now: Option<Block>, before: Option<Block>, top: int, y: int) -> bool {
    if y + STONE_THRESHOLD < top {
        now == Some(Block::Stone)
    } else if y < top {
        now == Some(Block::Dirt) || now == Some(Block::Stone)
    } else {
        now == before
    }
}

/// A block of the stone pass when the band's coin for its cell is `coin`:
/// stone well under the line, dirt on heads and stone on tails in the band just
/// under it, unchanged above.
pub open spec fn stoned_block(before: Option<Block>, top: int, y: int, coin: bool) -> Option<Block> {
    if y + STONE_THRESHOLD < top {
        Some(Block::Stone)
    } else if y < top {
        Some(if coin { Block::Dirt } else { Block::Stone })
    } else {
        before
    }
}

/// A wall of the stone pass: stone well under the column's stone line, unchanged elsewhere.
pub open spec fn stoned_wall(before: Option<Block>, top: int, y: int) -> Option<Block> {
    if y + STONE_THRESHOLD < top {
        Some(Block::Stone)
    } else {
        before
    }
}

/// Stone pass with the coins given: under each column's stone line
/// `stone_heights[x]`, blocks and walls become stone, except in the band just
/// under the line, where the block becomes dirt if `coins[x + WORLD_BLOCKS_X * y]`
/// is set and stone if not, and the wall stays.
pub fn fill_stone_with(world: &mut WorldStorage, stone_heights: &Vec<i32>, coins: &Vec<bool>)
    requires
        old(world).wf(),
        world_model_wf(old(world)@),
        stone_heights@.len() == WORLD_BLOCKS_X,
        coins@.len() == WORLD_AREA,
    ensures
        final(world).wf(),
        world_model_wf(final(world)@),
        forall|p: BlockPos|
            block_in_world(p) ==> #[trigger] world_block(final(world)@, p) == stoned_block(
                world_block(old(world)@, p),
                stone_heights@[p.x as int] as int,
                p.y as int,
                coins@[p.x + WORLD_BLOCKS_X * p.y],
            ),
        forall|p: BlockPos|
            block_in_world(p) ==> #[trigger] world_wall(final(world)@, p) == stoned_wall(
                world_wall(old(world)@, p),
                stone_heights@[p.x as int] as int,
                p.y as int,
            ),
{
    proof {
        lemma_world_extent();
    }
    let mut x: i32 = 0;
    while x < WORLD_BLOCKS_X
        invariant
            0 <= x <= WORLD_BLOCKS_X,
            stone_heights@.len() == WORLD_BLOCKS_X,
            coins@.len() == WORLD_AREA,
            world.wf(),
            world_model_wf(world@),
            forall|p: BlockPos|
                #[trigger] world_block(world@, p) == if block_in_world(p) && p.x < x {
                    stoned_block(
                        world_block(old(world)@, p),
                        stone_heights@[p.x as int] as int,
                        p.y as int,
                        coins@[p.x + WORLD_BLOCKS_X * p.y],
                    )
                } else {
                    world_block(old(world)@, p)
                },
            forall|p: BlockPos|
                #[trigger] world_wall(world@, p) == if block_in_world(p) && p.x < x {
                    stoned_wall(world_wall(old(world)@, p), stone_heights@[p.x as int] as int, p.y as int)
                } else {
                    world_wall(old(world)@, p)
                },
        decreases WORLD_BLOCKS_X - x,
    {
        let top = stone_heights[x as usize];
        let lim: i32 = if top < 0 {
            0
        } else if top > WORLD_BLOCKS_Y {
            WORLD_BLOCKS_Y
        } else {
            top
        };
        let mut y: i32 = 0;
        while y < lim
            invariant
                0 <= x < WORLD_BLOCKS_X,
                0 <= y <= lim <= WORLD_BLOCKS_Y,
                lim <= top || lim == 0,
                top == stone_heights@[x as int],
                stone_heights@.len() == WORLD_BLOCKS_X,
                coins@.len() == WORLD_AREA,
                world.wf(),
                world_model_wf(world@),
                forall|p: BlockPos|
                    #[trigger] world_block(world@, p) == if block_in_world(p) && (p.x < x || (p.x == x
                        && p.y < y)) {
                        stoned_block(
                            world_block(old(world)@, p),
                            stone_heights@[p.x as int] as int,
                            p.y as int,
                            coins@[p.x + WORLD_BLOCKS_X * p.y],
                        )
                    } else {
                        world_block(old(world)@, p)
                    },
                forall|p: BlockPos|
                    #[trigger] world_wall(world@, p) == if block_in_world(p) && (p.x < x || (p.x == x
                        && p.y < y)) {
                        stoned_wall(world_wall(old(world)@, p), stone_heights@[p.x as int] as int, p.y as int)
                    } else {
                        world_wall(old(world)@, p)
                    },
            decreases lim - y,
        {
            let pos = BlockPos { x, y };
            if y + STONE_THRESHOLD < top {
                proof {
                    lemma_set_block_frame(world@, pos, Block::Stone);
                }
                world.set_block(pos, Block::Stone);
                proof {
                    lemma_set_wall_frame(world@, pos, Block::Stone);
                }
                world.set_wall(pos, Block::Stone);
            } else {
                let block = if coins[(x + WORLD_BLOCKS_X * y) as usize] {
                    Block::Dirt
                } else {
                    Block::Stone
                };
                proof {
                    lemma_set_block_frame(world@, pos, block);
                }
                world.set_block(pos, block);
            }
            y = y + 1;
        }
        x = x + 1;
    }
}

/// Stone pass with a fresh coin for every cell: under each column's stone line
/// `stone_heights[x]`, blocks and walls become stone, except in the band just
/// under the line where each block is dirt or stone at random and the wall stays.
pub fn fill_stone(world: &mut WorldStorage, stone_heights: &Vec<i32>)
    requires
        old(world).wf(),
        world_model_wf(old(world)@),
        stone_heights@.len() == WORLD_BLOCKS_X,
    ensures
        final(world).wf(),
        world_model_wf(final(world)@),
        forall|p: BlockPos|
            block_in_world(p) ==> stone_block_ok(
                #[trigger] world_block(final(world)@, p),
                world_block(old(world)@, p),
                stone_heights@[p.x as int] as int,
                p.y as int,
            ),
        forall|p: BlockPos|
            block_in_world(p) ==> #[trigger] world_wall(final(world)@, p) == stoned_wall(
                world_wall(old(world)@, p),
                stone_heights@[p.x as int] as int,
                p.y as int,
            ),
{
    let mut coins: Vec<bool> = Vec::new();
    let mut i: usize = 0;
    while i < WORLD_AREA
        invariant
            i <= WORLD_AREA,
            coins@.len() == i,
        decreases WORLD_AREA - i,
    {
        coins.push(coin_flip());
        i = i + 1;
    }
    fill_stone_with(world, stone_heights, &coins);
}

/// The block at `p` after cave carving: stone under a set mask cell becomes air.
pub open spec fn caved_block(w: Seq<ChunkModel>, mask: Seq<bool>, p: BlockPos) -> Option<Block> {
    if block_in_world(p) && world_block(w, p) == Some(Block::Stone) && mask[p.x + WORLD_BLOCKS_X * p.y] {
        Some(Block::Air)
    } else {
        world_block(w, p)
    }
}

/// Cave pass: every stone block whose cell is set in `cave_mask` (indexed
/// `x + WORLD_BLOCKS_X * y`) becomes air; walls stay.
pub fn carve_caves(world: &mut WorldStorage, cave_mask: &Vec<bool>)
    requires
        old(world).wf(),
        world_model_wf(old(world)@),
        cave_mask@.len() == WORLD_AREA,
    ensures
        final(world).wf(),
        world_model_wf(final(world)@),
        forall|p: BlockPos| #[trigger] world_block(final(world)@, p) == caved_block(old(world)@, cave_mask@, p),
        forall|p: BlockPos| #[trigger] world_wall(final(world)@, p) == world_wall(old(world)@, p),
{
    proof {
        lemma_world_extent();
    }
    let mut y: i32 = 0;
    while y < WORLD_BLOCKS_Y
        invariant
            0 <= y <= WORLD_BLOCKS_Y,
            cave_mask@.len() == WORLD_AREA,
            world.wf(),
            world_model_wf(world@),
            forall|p: BlockPos|
                #[trigger] world_block(world@, p) == (if p.y < y {
                    caved_block(old(world)@, cave_mask@, p)
                } else {
                    world_block(old(world)@, p)
                }),
            forall|p: BlockPos| #[trigger] world_wall(world@, p) == world_wall(old(world)@, p),
        decreases WORLD_BLOCKS_Y - y,
    {
        let mut x: i32 = 0;
        while x < WORLD_BLOCKS_X
            invariant
                0 <= x <= WORLD_BLOCKS_X,
                0 <= y < WORLD_BLOCKS_Y,
                cave_mask@.len() == WORLD_AREA,
                world.wf(),
                world_model_wf(world@),
                forall|p: BlockPos|
                    #[trigger] world_block(world@, p) == (if p.y < y || (p.y == y && p.x < x) {
                        caved_block(old(world)@, cave_mask@, p)
                    } else {
                        world_block(old(world)@, p)
                    }),
                forall|p: BlockPos| #[trigger] world_wall(world@, p) == world_wall(old(world)@, p),
            decreases WORLD_BLOCKS_X - x,
        {
            let pos = BlockPos { x, y };
            let here = world.get_block(pos);
            let carve = match here {
                Some(Block::Stone) => cave_mask[(x + WORLD_BLOCKS_X * y) as usize],
                _ => false,
            };
            if carve {
                proof {
                    lemma_set_block_frame(world@, pos, Block::Air);
                }
                world.set_block(pos, Block::Air);
            }
            x = x + 1;
        }
        y = y + 1;
    }
}

} // verus!
