use astatine::block::Block;
use astatine::edits::{blast, break_block, chunk_crossing, place_block};
use astatine::gen::{carve_caves, carve_surface, fill_dirt, fill_stone, fill_stone_with, generate};
use astatine::position::{BlockPos, ChunkPos};
use astatine::storage::{ChunkData, WorldStorage};
use astatine::tiles::{chunk_tiles, wall_tiles, Tile};
use noise::{Fbm, NoiseFn, Perlin};

fn bp(x: i32, y: i32) -> BlockPos {
    BlockPos { x, y }
}

fn wavy_heights() -> Vec<i32> {
    (0..256).map(|x| 200 + (x % 17) - 8).collect()
}

fn noise_heights(seed: u32) -> Vec<i32> {
    let fbm = Fbm::<Perlin>::new(seed);
    (0..256).map(|x| (fbm.get([x as f64 / 48.0, 0.0, 0.0]) * 12.0 + 256.0 - 30.0) as i32).collect()
}

/// The topmost non-air block of each column.
fn surface(world: &WorldStorage) -> Vec<Option<i32>> {
    (0..256)
        .map(|x| (0..256).rev().find(|y| world.get_block(bp(x, *y)) != Some(Block::Air)))
        .collect()
}

#[test]
fn fill_dirt_covers_the_world() {
    let mut world = WorldStorage::new();
    fill_dirt(&mut world);
    for y in (0..256).step_by(17) {
        for x in 0..256 {
            assert_eq!(world.get_block(bp(x, y)), Some(Block::Dirt));
            assert_eq!(world.get_wall(bp(x, y)), Some(Block::Dirt));
        }
    }
    assert_eq!(world.get_block(bp(255, 255)), Some(Block::Dirt));
}

#[test]
fn generate_carves_each_column_at_its_height() {
    let heights = wavy_heights();
    let world = generate(&heights);
    for x in 0..256 {
        let h = heights[x as usize];
        assert_eq!(world.get_block(bp(x, h)), Some(Block::Grass));
        assert_eq!(world.get_wall(bp(x, h)), Some(Block::Dirt));
        assert_eq!(world.get_block(bp(x, h + 1)), Some(Block::Air));
        assert_eq!(world.get_wall(bp(x, h + 1)), Some(Block::Air));
        assert_eq!(world.get_block(bp(x, h - 1)), Some(Block::Dirt));
        assert_eq!(world.get_block(bp(x, 0)), Some(Block::Dirt));
        assert_eq!(world.get_block(bp(x, 255)), Some(Block::Air));
    }
}

#[test]
fn same_seed_gives_same_surface() {
    let a = generate(&noise_heights(42));
    let b = generate(&noise_heights(42));
    let sa = surface(&a);
    assert_eq!(sa, surface(&b));
    let expected: Vec<Option<i32>> = noise_heights(42).into_iter().map(Some).collect();
    assert_eq!(sa, expected);
}

#[test]
fn surface_heights_off_the_world() {
    let mut heights = vec![100; 256];
    heights[0] = -5;
    heights[1] = 300;
    heights[2] = 255;
    let world = generate(&heights);
    assert_eq!(world.get_block(bp(0, 0)), Some(Block::Air));
    assert_eq!(world.get_block(bp(1, 255)), Some(Block::Dirt));
    assert_eq!(world.get_block(bp(2, 255)), Some(Block::Grass));
    assert_eq!(world.get_block(bp(3, 100)), Some(Block::Grass));
}

#[test]
fn carve_surface_keeps_what_lies_below() {
    let mut world = WorldStorage::new();
    world.set_block(bp(5, 10), Block::Stone);
    carve_surface(&mut world, &vec![50; 256]);
    assert_eq!(world.get_block(bp(5, 10)), Some(Block::Stone));
    assert_eq!(world.get_block(bp(6, 10)), Some(Block::Air));
    assert_eq!(world.get_block(bp(6, 50)), Some(Block::Grass));
}

#[test]
fn stone_pass_fills_under_the_line() {
    let mut world = generate(&vec![240; 256]);
    fill_stone(&mut world, &vec![200; 256]);
    for x in [0, 100, 255] {
        assert_eq!(world.get_block(bp(x, 0)), Some(Block::Stone));
        assert_eq!(world.get_wall(bp(x, 194)), Some(Block::Stone));
        assert_eq!(world.get_block(bp(x, 194)), Some(Block::Stone));
        for y in 195..200 {
            let b = world.get_block(bp(x, y));
            assert!(b == Some(Block::Dirt) || b == Some(Block::Stone));
            assert_eq!(world.get_wall(bp(x, y)), Some(Block::Dirt));
        }
        assert_eq!(world.get_block(bp(x, 200)), Some(Block::Dirt));
        assert_eq!(world.get_block(bp(x, 240)), Some(Block::Grass));
    }
}

#[test]
fn cave_pass_clears_stone_under_the_mask() {
    let mut world = generate(&vec![240; 256]);
    fill_stone(&mut world, &vec![200; 256]);
    let mut mask = vec![false; 65536];
    mask[10 + 256 * 20] = true;
    mask[10 + 256 * 230] = true;
    carve_caves(&mut world, &mask);
    assert_eq!(world.get_block(bp(10, 20)), Some(Block::Air));
    assert_eq!(world.get_wall(bp(10, 20)), Some(Block::Stone));
    assert_eq!(world.get_block(bp(11, 20)), Some(Block::Stone));
    assert_eq!(world.get_block(bp(10, 230)), Some(Block::Dirt));
}

#[test]
fn breaking_and_placing_blocks() {
    let mut world = generate(&vec![100; 256]);
    assert_eq!(break_block(&mut world, bp(40, 100)), Some((Block::Grass, ChunkPos { x: 1, y: 3 })));
    assert_eq!(world.get_block(bp(40, 100)), Some(Block::Air));
    assert_eq!(break_block(&mut world, bp(40, 100)), None);
    assert_eq!(break_block(&mut world, bp(-3, 5)), None);
    assert_eq!(place_block(&mut world, bp(40, 150), Block::Dirt), Some(ChunkPos { x: 1, y: 4 }));
    assert_eq!(world.get_block(bp(40, 150)), Some(Block::Dirt));
    assert_eq!(place_block(&mut world, bp(400, 150), Block::Dirt), None);
}

#[test]
fn arrow_blast_clears_a_four_by_four_area() {
    let mut world = generate(&vec![33; 256]);
    let result = blast(&mut world, bp(32, 33));
    for y in 31..35 {
        for x in 30..34 {
            assert_eq!(world.get_block(bp(x, y)), Some(Block::Air));
        }
    }
    assert_eq!(world.get_block(bp(29, 31)), Some(Block::Dirt));
    assert_eq!(world.get_block(bp(34, 31)), Some(Block::Dirt));
    assert_eq!(world.get_block(bp(30, 30)), Some(Block::Dirt));
    assert_eq!(result.items.len(), 12);
    assert!(result.items.contains(&(bp(30, 33), Block::Grass)));
    assert!(result.items.contains(&(bp(33, 31), Block::Dirt)));
    assert_eq!(
        result.chunks,
        vec![ChunkPos { x: 0, y: 0 }, ChunkPos { x: 1, y: 0 }, ChunkPos { x: 0, y: 1 }, ChunkPos { x: 1, y: 1 }]
    );
}

#[test]
fn arrow_blast_at_the_world_edge() {
    let mut world = generate(&vec![10; 256]);
    let result = blast(&mut world, bp(0, 0));
    assert_eq!(result.items.len(), 4);
    assert_eq!(result.chunks, vec![ChunkPos { x: 0, y: 0 }]);
    assert_eq!(world.get_block(bp(1, 1)), Some(Block::Air));
    assert_eq!(world.get_block(bp(2, 0)), Some(Block::Dirt));
}

#[test]
fn crossing_into_another_chunk() {
    assert_eq!(chunk_crossing(ChunkPos { x: 0, y: 0 }, bp(31, 31)), None);
    assert_eq!(chunk_crossing(ChunkPos { x: 0, y: 0 }, bp(32, 31)), Some(ChunkPos { x: 1, y: 0 }));
    assert_eq!(chunk_crossing(ChunkPos { x: 0, y: 0 }, bp(-1, 0)), Some(ChunkPos { x: -1, y: 0 }));
}

#[test]
fn tile_layers_follow_blocks_and_walls() {
    let mut data = ChunkData::new();
    data.set_block(bp(3, 4), Block::Stone);
    data.set_block(bp(5, 4), Block::Grass);
    data.set_wall(bp(6, 4), Block::Stone);
    let tiles = chunk_tiles(&data);
    let walls = wall_tiles(&data);
    assert_eq!(tiles.len(), 1024);
    assert_eq!(walls.len(), 1024);
    let (fx, fy) = data.get_flip(bp(3, 4)).unwrap();
    assert_eq!(tiles[3 + 32 * 4], Tile { x: 3, y: 4, texture_index: 3, flip_x: fx, flip_y: fy });
    assert_eq!(tiles[5 + 32 * 4], Tile { x: 5, y: 4, texture_index: 1, flip_x: false, flip_y: false });
    assert_eq!(tiles[0], Tile { x: 0, y: 0, texture_index: 0, flip_x: false, flip_y: false });
    assert_eq!(walls[3 + 32 * 4], None);
    let (wx, wy) = data.get_flip(bp(6, 4)).unwrap();
    assert_eq!(walls[6 + 32 * 4], Some(Tile { x: 6, y: 4, texture_index: 3, flip_x: wx, flip_y: wy }));
    assert_eq!(walls[31 + 32 * 31].unwrap().texture_index, 2);
}

#[test]
fn stone_band_follows_the_coins() {
    let mut world = generate(&vec![240; 256]);
    let mut coins = vec![false; 65536];
    for y in 0..256 {
        coins[7 + 256 * y] = true;
    }
    fill_stone_with(&mut world, &vec![100; 256], &coins);
    for y in 95..100 {
        assert_eq!(world.get_block(bp(7, y)), Some(Block::Dirt));
        assert_eq!(world.get_block(bp(8, y)), Some(Block::Stone));
        assert_eq!(world.get_wall(bp(7, y)), Some(Block::Dirt));
    }
    assert_eq!(world.get_block(bp(7, 94)), Some(Block::Stone));
    assert_eq!(world.get_wall(bp(7, 94)), Some(Block::Stone));
    assert_eq!(world.get_block(bp(7, 100)), Some(Block::Dirt));
}
