use astatine::block::Block;
use astatine::position::{linearize, local_of_block, BlockPos, ChunkPos, CHUNK_SIZE};
use astatine::states::GameState;
use astatine::storage::{ChunkData, WorldStorage};

fn bp(x: i32, y: i32) -> BlockPos {
    BlockPos { x, y }
}

#[test]
fn block_from_tags() {
    assert_eq!(Block::from(0), Block::Air);
    assert_eq!(Block::from(1), Block::Grass);
    assert_eq!(Block::from(2), Block::Dirt);
    assert_eq!(Block::from(3), Block::Stone);
    assert_eq!(Block::from(4), Block::Border);
    assert_eq!(Block::from(5), Block::Air);
    assert_eq!(Block::from(u32::MAX), Block::Air);
}

#[test]
fn block_tag_round_trip() {
    for b in [Block::Air, Block::Grass, Block::Dirt, Block::Stone, Block::Border] {
        assert_eq!(Block::from(b.tag()), b);
    }
    assert_eq!(Block::Stone.tag(), 3);
}

#[test]
fn block_flip_and_solidity() {
    assert!(!Block::Air.should_flip());
    assert!(!Block::Grass.should_flip());
    assert!(Block::Dirt.should_flip());
    assert!(Block::Stone.should_flip());
    assert!(Block::Border.should_flip());
    assert!(!Block::Air.is_solid());
    assert!(Block::Grass.is_solid());
    assert!(Block::Border.is_solid());
}

#[test]
fn block_texture_paths() {
    assert_eq!(Block::Air.texture_path(), "tiles/air.png");
    assert_eq!(Block::Grass.texture_path(), "tiles/grass.png");
    assert_eq!(Block::Dirt.texture_path(), "tiles/dirt.png");
    assert_eq!(Block::Stone.texture_path(), "tiles/stone.png");
    assert_eq!(Block::Border.texture_path(), "tiles/border.png");
}

#[test]
fn game_state_starts_loading_assets() {
    assert_eq!(GameState::default(), GameState::AssetLoading);
}

#[test]
fn chunk_of_uses_floor_division() {
    assert_eq!(ChunkPos::from_block_pos(bp(0, 0)), ChunkPos { x: 0, y: 0 });
    assert_eq!(ChunkPos::from_block_pos(bp(31, 32)), ChunkPos { x: 0, y: 1 });
    assert_eq!(ChunkPos::from_block_pos(bp(-1, -32)), ChunkPos { x: -1, y: -1 });
    assert_eq!(ChunkPos::from_block_pos(bp(-33, 255)), ChunkPos { x: -2, y: 7 });
    assert_eq!(ChunkPos::from_block_pos(bp(i32::MIN, i32::MAX)), ChunkPos { x: -67108864, y: 67108863 });
}

#[test]
fn local_of_never_negative() {
    assert_eq!(local_of_block(bp(-1, -1)), bp(31, 31));
    assert_eq!(local_of_block(bp(-32, -33)), bp(0, 31));
    assert_eq!(local_of_block(bp(i32::MIN, -5)), bp(0, 27));
    for v in -100..100 {
        let l = local_of_block(bp(v, -v));
        assert!(l.x >= 0 && l.x < CHUNK_SIZE && l.y >= 0 && l.y < CHUNK_SIZE);
    }
}

#[test]
fn chunk_and_local_round_trip() {
    for x in -70..70 {
        for y in [-65, -1, 0, 5, 64] {
            let c = ChunkPos::from_block_pos(bp(x, y));
            let l = local_of_block(bp(x, y));
            assert_eq!(c.x * CHUNK_SIZE + l.x, x);
            assert_eq!(c.y * CHUNK_SIZE + l.y, y);
        }
    }
}

#[test]
fn linearize_is_injective_on_a_chunk() {
    let mut seen = vec![false; 1024];
    for y in 0..CHUNK_SIZE {
        for x in 0..CHUNK_SIZE {
            let i = linearize(bp(x, y));
            assert_eq!(i, (x + 32 * y) as usize);
            assert!(!seen[i]);
            seen[i] = true;
        }
    }
    assert!(seen.iter().all(|s| *s));
}

#[test]
fn chunk_bounds() {
    assert!(ChunkPos { x: 0, y: 0 }.in_bounds());
    assert!(ChunkPos { x: 7, y: 7 }.in_bounds());
    assert!(!ChunkPos { x: 8, y: 0 }.in_bounds());
    assert!(!ChunkPos { x: 0, y: -1 }.in_bounds());
}

#[test]
fn new_world_holds_default_chunks() {
    let world = WorldStorage::new();
    for cy in 0..8 {
        for cx in 0..8 {
            let data = world.get_chunk_data(ChunkPos { x: cx, y: cy }).expect("chunk data");
            for y in 0..CHUNK_SIZE {
                for x in 0..CHUNK_SIZE {
                    assert_eq!(data.get_block(bp(x, y)), Some(Block::Air));
                    assert_eq!(data.get_wall(bp(x, y)), Some(Block::Dirt));
                    assert!(data.get_flip(bp(x, y)).is_some());
                }
            }
        }
    }
    assert!(world.get_chunk_data(ChunkPos { x: 8, y: 0 }).is_none());
    assert!(world.get_chunk_data(ChunkPos { x: -1, y: 3 }).is_none());
}

#[test]
fn world_get_and_set() {
    let mut world = WorldStorage::new();
    world.set_block(bp(40, 70), Block::Stone);
    world.set_wall(bp(40, 70), Block::Border);
    assert_eq!(world.get_block(bp(40, 70)), Some(Block::Stone));
    assert_eq!(world.get_wall(bp(40, 70)), Some(Block::Border));
    assert_eq!(world.get_block(bp(41, 70)), Some(Block::Air));
    assert_eq!(world.get_wall(bp(41, 70)), Some(Block::Dirt));
    let data = world.get_chunk_data(ChunkPos { x: 1, y: 2 }).unwrap();
    assert_eq!(data.get_block(bp(8, 6)), Some(Block::Stone));
}

#[test]
fn world_off_grid_is_no_value() {
    let mut world = WorldStorage::new();
    assert_eq!(world.get_block(bp(-1, 0)), None);
    assert_eq!(world.get_block(bp(256, 10)), None);
    assert_eq!(world.get_wall(bp(3, 256)), None);
    world.set_block(bp(-1, 0), Block::Stone);
    world.set_wall(bp(300, 300), Block::Stone);
    assert_eq!(world.get_block(bp(0, 0)), Some(Block::Air));
    assert_eq!(world.get_block(bp(255, 255)), Some(Block::Air));
}

fn snapshot(world: &WorldStorage) -> Vec<(Option<Block>, Option<Block>)> {
    let mut out = Vec::new();
    for y in 0..256 {
        for x in 0..256 {
            out.push((world.get_block(bp(x, y)), world.get_wall(bp(x, y))));
        }
    }
    out
}

#[test]
fn set_block_twice_equals_once() {
    let mut once = WorldStorage::new();
    let mut twice = WorldStorage::new();
    once.set_block(bp(100, 200), Block::Grass);
    twice.set_block(bp(100, 200), Block::Grass);
    twice.set_block(bp(100, 200), Block::Grass);
    assert_eq!(snapshot(&once), snapshot(&twice));
    once.set_wall(bp(3, 4), Block::Stone);
    twice.set_wall(bp(3, 4), Block::Stone);
    twice.set_wall(bp(3, 4), Block::Stone);
    assert_eq!(snapshot(&once), snapshot(&twice));
}

#[test]
fn chunk_data_local_access() {
    let mut data = ChunkData::new();
    data.set_block(bp(31, 31), Block::Border);
    data.set_wall(bp(0, 31), Block::Stone);
    assert_eq!(data.get_block(bp(31, 31)), Some(Block::Border));
    assert_eq!(data.get_wall(bp(0, 31)), Some(Block::Stone));
    assert_eq!(data.get_block(bp(32, 0)), None);
    assert_eq!(data.get_wall(bp(-1, 0)), None);
    assert_eq!(data.get_flip(bp(0, 32)), None);
    data.set_block(bp(32, 0), Block::Stone);
    assert_eq!(data.get_block(bp(0, 1)), Some(Block::Air));
}
