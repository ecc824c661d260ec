use vstd::prelude::*;

use crate::block::Block;
use crate::position::{block_in_world, chunk_of, BlockPos, ChunkPos};
use crate::storage::{
    lemma_set_block_frame, with_block, world_block, world_model_wf, world_wall, WorldStorage,
};

verus! {

/// The cell holds a block other than air.
pub open spec fn holds_solid(b: Option<Block>) -> bool {
    b is Some && b.unwrap() != Block::Air
}

/// Mining: a solid block at `block_pos` becomes air, and the block mined and the
/// chunk to redraw come back. Air, or a position off the world, is left alone.
pub fn break_block(world: &mut WorldStorage, block_pos: BlockPos) -> (r: Option<(Block, ChunkPos)>)
    requires
        old(world).wf(),
    ensures
        final(world).wf(),
        holds_solid(world_block(old(world)@, block_pos)) ==> r == Some(
            (world_block(old(world)@, block_pos).unwrap(), chunk_of(block_pos)),
        ) && final(world)@ == with_block(old(world)@, block_pos, Block::Air),
        !holds_solid(world_block(old(world)@, block_pos)) ==> r is None && final(world)@ == old(world)@,
{
    match world.get_block(block_pos) {
        Some(block) => {
            if block.is_solid() {
                let chunk_pos = ChunkPos::from_block_pos(block_pos);
                world.set_block(block_pos, Block::Air);
                Some((block, chunk_pos))
            } else {
                None
            }
        },
        None => None,
    }
}

/// Placing: the block at `block_pos` becomes `block`, and the chunk to redraw
/// comes back; off the world nothing changes and no chunk comes back.
pub fn place_block(world: &mut WorldStorage, block_pos: BlockPos, block: Block) -> (r: Option<ChunkPos>)
    requires
        old(world).wf(),
    ensures
        final(world).wf(),
        final(world)@ == with_block(old(world)@, block_pos, block),
        r == (if block_in_world(block_pos) {
            Some(chunk_of(block_pos))
        } else {
            None::<ChunkPos>
        }),
{
    world.set_block(block_pos, block);
    let chunk_pos = ChunkPos::from_block_pos(block_pos);
    if chunk_pos.in_bounds() {
        Some(chunk_pos)
    } else {
        None
    }
}

/// The chunk the player stands in after moving to `block_pos`, if it differs
/// from `current`: a crossing that calls for a full reload.
pub fn chunk_crossing(current: ChunkPos, block_pos: BlockPos) -> (r: Option<ChunkPos>)
    ensures
        r == (if chunk_of(block_pos) != current {
            Some(chunk_of(block_pos))
        } else {
            None::<ChunkPos>
        }),
{
    let next = ChunkPos::from_block_pos(block_pos);
    if next != current {
        Some(next)
    } else {
        None
    }
}

/// The 4 by 4 cells an arrow clears around where it lands.
pub open spec fn in_blast(center: BlockPos, p: BlockPos) -> bool {
    center.x - 2 <= p.x < center.x + 2 && center.y - 2 <= p.y < center.y + 2
}

/// A cell of the blast, cleared before row `y`, column `x` of the scan, that held
/// a solid block in `w`.
pub open spec fn blast_hit(center: BlockPos, w: Seq<crate::storage::ChunkModel>, y: int, x: int, p: BlockPos) -> bool {
    in_blast(center, p) && (p.y < y || (p.y == y && p.x < x)) && holds_solid(world_block(w, p))
}

/// Some solid cell of the whole blast lies in chunk `c`.
pub open spec fn blast_touches(center: BlockPos, w: Seq<crate::storage::ChunkModel>, c: ChunkPos) -> bool {
    exists|p: BlockPos| #[trigger] in_blast(center, p) && holds_solid(world_block(w, p)) && chunk_of(p) == c
}

spec fn touched_before(center: BlockPos, w: Seq<crate::storage::ChunkModel>, y: int, x: int, c: ChunkPos) -> bool {
    exists|p: BlockPos| #[trigger] blast_hit(center, w, y, x, p) && chunk_of(p) == c
}

/// What an arrow's impact cleared: each solid block with its position, and each
/// chunk that changed, once.
pub struct Blast {
    pub items: Vec<(BlockPos, Block)>,
    pub chunks: Vec<ChunkPos>,
}

fn contains_chunk(v: &Vec<ChunkPos>, c: ChunkPos) -> (r: bool)
    ensures
        r == v@.contains(c),
{
    let mut i: usize = 0;
    while i < v.len()
        invariant
            i <= v@.len(),
            forall|j: int| 0 <= j < i ==> v@[j] != c,
        decreases v@.len() - i,
    {
        if v[i] == c {
            return true;
        }
        i = i + 1;
    }
    false
}

/// Arrow impact: every solid block of the 4 by 4 cells around `center` becomes
/// air. The cleared blocks come back to be dropped as items, with the chunks to
/// redraw; cells off the world are skipped.
pub fn blast(world: &mut WorldStorage, center: BlockPos) -> (r: Blast)
    requires
        old(world).wf(),
        i32::MIN + 2 <= center.x <= i32::MAX - 2,
        i32::MIN + 2 <= center.y <= i32::MAX - 2,
    ensures
        final(world).wf(),
        forall|p: BlockPos|
            #[trigger] world_block(final(world)@, p) == (if in_blast(center, p) && holds_solid(
                world_block(old(world)@, p),
            ) {
                Some(Block::Air)
            } else {
                world_block(old(world)@, p)
            }),
        forall|p: BlockPos| #[trigger] world_wall(final(world)@, p) == world_wall(old(world)@, p),
        forall|p: BlockPos, b: Block|
            #[trigger] r.items@.contains((p, b)) <==> in_blast(center, p) && world_block(old(world)@, p)
                == Some(b) && b != Block::Air,
        r.items@.no_duplicates(),
        forall|c: ChunkPos| #[trigger] r.chunks@.contains(c) <==> blast_touches(center, old(world)@, c),
        r.chunks@.no_duplicates(),
{
    let ghost w0 = old(world)@;
    proof {
        crate::storage::lemma_world_model(world);
    }
    let mut items: Vec<(BlockPos, Block)> = Vec::new();
    let mut chunks: Vec<ChunkPos> = Vec::new();
    let mut y: i32 = center.y - 2;
    while y < center.y + 2
        invariant
            center.y - 2 <= y <= center.y + 2,
            i32::MIN + 2 <= center.x <= i32::MAX - 2,
            i32::MIN + 2 <= center.y <= i32::MAX - 2,
            world.wf(),
            world_model_wf(world@),
            w0 == old(world)@,
            world_model_wf(w0),
            forall|p: BlockPos|
                #[trigger] world_block(world@, p) == (if blast_hit(center, w0, y as int, center.x - 2, p) {
                    Some(Block::Air)
                } else {
                    world_block(w0, p)
                }),
            forall|p: BlockPos| #[trigger] world_wall(world@, p) == world_wall(w0, p),
            forall|p: BlockPos, b: Block|
                #[trigger] items@.contains((p, b)) <==> blast_hit(center, w0, y as int, center.x - 2, p)
                    && world_block(w0, p) == Some(b),
            items@.no_duplicates(),
            forall|i: int| 0 <= i < items@.len() ==> blast_hit(center, w0, y as int, center.x - 2, #[trigger] items@[i].0),
            forall|c: ChunkPos|
                #[trigger] chunks@.contains(c) <==> touched_before(center, w0, y as int, center.x - 2, c),
            chunks@.no_duplicates(),
        decreases center.y + 2 - y,
    {
        let mut x: i32 = center.x - 2;
        while x < center.x + 2
            invariant
                center.y - 2 <= y < center.y + 2,
                center.x - 2 <= x <= center.x + 2,
                i32::MIN + 2 <= center.x <= i32::MAX - 2,
                i32::MIN + 2 <= center.y <= i32::MAX - 2,
                world.wf(),
                world_model_wf(world@),
                world_model_wf(w0),
                forall|p: BlockPos|
                    #[trigger] world_block(world@, p) == (if blast_hit(center, w0, y as int, x as int, p) {
                        Some(Block::Air)
                    } else {
                        world_block(w0, p)
                    }),
                forall|p: BlockPos| #[trigger] world_wall(world@, p) == world_wall(w0, p),
                forall|p: BlockPos, b: Block|
                    #[trigger] items@.contains((p, b)) <==> blast_hit(center, w0, y as int, x as int, p)
                        && world_block(w0, p) == Some(b),
                items@.no_duplicates(),
                forall|i: int| 0 <= i < items@.len() ==> blast_hit(center, w0, y as int, x as int, #[trigger] items@[i].0),
                forall|c: ChunkPos|
                    #[trigger] chunks@.contains(c) <==> touched_before(center, w0, y as int, x as int, c),
                chunks@.no_duplicates(),
            decreases center.x + 2 - x,
        {
            let pos = BlockPos { x, y };
            let ghost before_items = items@;
            let ghost before_chunks = chunks@;
            let here = world.get_block(pos);
            match here {
                Some(block) => {
                    if block.is_solid() {
                        proof {
                            assert forall|i: int| 0 <= i < items@.len() implies items@[i] != (pos, block) by {
                                assert(blast_hit(center, w0, y as int, x as int, items@[i].0));
                            }
                        }
                        items.push((pos, block));
                        proof {
                            assert forall|i: int| 0 <= i < items@.len() implies blast_hit(center, w0, y as int, x + 1, #[trigger] items@[i].0) by {
                                if i < before_items.len() {
                                    assert(items@[i] == before_items[i]);
                                    assert(blast_hit(center, w0, y as int, x as int, before_items[i].0));
                                }
                            }
                        }
                        proof {
                            lemma_set_block_frame(world@, pos, Block::Air);
                        }
                        world.set_block(pos, Block::Air);
                        let chunk_pos = ChunkPos::from_block_pos(pos);
                        if !contains_chunk(&chunks, chunk_pos) {
                            chunks.push(chunk_pos);
                        }
                        proof {
                            assert forall|p: BlockPos, b: Block|
                                #[trigger] items@.contains((p, b)) <==> blast_hit(center, w0, y as int, x + 1, p)
                                    && world_block(w0, p) == Some(b) by {
                                if items@.contains((p, b)) {
                                    let k = choose|k: int| 0 <= k < items@.len() && items@[k] == (p, b);
                                    if k < before_items.len() {
                                        assert(before_items.contains((p, b)));
                                    }
                                }
                                if blast_hit(center, w0, y as int, x + 1, p) && world_block(w0, p) == Some(b) {
                                    if p == pos {
                                        assert(items@[items@.len() - 1] == (p, b));
                                    } else {
                                        assert(before_items.contains((p, b)));
                                        let k = choose|k: int| 0 <= k < before_items.len() && before_items[k] == (p, b);
                                        assert(items@[k] == (p, b));
                                    }
                                }
                            }
                            assert forall|c: ChunkPos|
                                #[trigger] chunks@.contains(c) <==> touched_before(center, w0, y as int, x + 1, c) by {
                                if chunks@.contains(c) {
                                    let k = choose|k: int| 0 <= k < chunks@.len() && chunks@[k] == c;
                                    if k < before_chunks.len() {
                                        assert(before_chunks.contains(c));
                                        let q = choose|q: BlockPos| #[trigger] blast_hit(center, w0, y as int, x as int, q) && chunk_of(q) == c;
                                        assert(blast_hit(center, w0, y as int, x + 1, q));
                                    } else {
                                        assert(blast_hit(center, w0, y as int, x + 1, pos));
                                    }
                                }
                                if touched_before(center, w0, y as int, x + 1, c) {
                                    let q = choose|q: BlockPos| #[trigger] blast_hit(center, w0, y as int, x + 1, q) && chunk_of(q) == c;
                                    if q == pos {
                                        if !before_chunks.contains(c) {
                                            assert(chunks@[chunks@.len() - 1] == c);
                                        } else {
                                            let k = choose|k: int| 0 <= k < before_chunks.len() && before_chunks[k] == c;
                                            assert(chunks@[k] == c);
                                        }
                                    } else {
                                        assert(blast_hit(center, w0, y as int, x as int, q));
                                        assert(before_chunks.contains(c));
                                        let k = choose|k: int| 0 <= k < before_chunks.len() && before_chunks[k] == c;
                                        assert(chunks@[k] == c);
                                    }
                                }
                            }
                        }
                    } else {
                        proof {
                            assert forall|c: ChunkPos|
                                #[trigger] chunks@.contains(c) <==> touched_before(center, w0, y as int, x + 1, c) by {
                                if touched_before(center, w0, y as int, x + 1, c) {
                                    let q = choose|q: BlockPos| #[trigger] blast_hit(center, w0, y as int, x + 1, q) && chunk_of(q) == c;
                                    assert(blast_hit(center, w0, y as int, x as int, q));
                                }
                                if chunks@.contains(c) {
                                    let q = choose|q: BlockPos| #[trigger] blast_hit(center, w0, y as int, x as int, q) && chunk_of(q) == c;
                                    assert(blast_hit(center, w0, y as int, x + 1, q));
                                }
                            }
                        }
                    }
                },
                None => {
                    proof {
                        assert forall|c: ChunkPos|
                            #[trigger] chunks@.contains(c) <==> touched_before(center, w0, y as int, x + 1, c) by {
                            if touched_before(center, w0, y as int, x + 1, c) {
                                let q = choose|q: BlockPos| #[trigger] blast_hit(center, w0, y as int, x + 1, q) && chunk_of(q) == c;
                                assert(blast_hit(center, w0, y as int, x as int, q));
                            }
                            if chunks@.contains(c) {
                                let q = choose|q: BlockPos| #[trigger] blast_hit(center, w0, y as int, x as int, q) && chunk_of(q) == c;
                                assert(blast_hit(center, w0, y as int, x + 1, q));
                            }
                        }
                    }
                },
            }
            x = x + 1;
        }
        proof {
            assert forall|c: ChunkPos|
                #[trigger] chunks@.contains(c) <==> touched_before(center, w0, y + 1, center.x - 2, c) by {
                if touched_before(center, w0, y + 1, center.x - 2, c) {
                    let q = choose|q: BlockPos| #[trigger] blast_hit(center, w0, y + 1, center.x - 2, q) && chunk_of(q) == c;
                    assert(blast_hit(center, w0, y as int, x as int, q));
                }
                if chunks@.contains(c) {
                    let q = choose|q: BlockPos| #[trigger] blast_hit(center, w0, y as int, x as int, q) && chunk_of(q) == c;
                    assert(blast_hit(center, w0, y + 1, center.x - 2, q));
                }
            }
        }
        y = y + 1;
    }
    proof {
        assert forall|c: ChunkPos| #[trigger] chunks@.contains(c) <==> blast_touches(center, w0, c) by {
            if blast_touches(center, w0, c) {
                let q = choose|q: BlockPos| #[trigger] in_blast(center, q) && holds_solid(world_block(w0, q)) && chunk_of(q) == c;
                assert(blast_hit(center, w0, y as int, center.x - 2, q));
            }
            if chunks@.contains(c) {
                let q = choose|q: BlockPos| #[trigger] blast_hit(center, w0, y as int, center.x - 2, q) && chunk_of(q) == c;
                assert(in_blast(center, q));
            }
        }
    }
    Blast { items, chunks }
}

} // verus!
