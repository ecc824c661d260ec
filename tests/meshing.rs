use astatine::block::Block;
use astatine::colls::{mesh_chunk, Colls, Region};
use astatine::position::{BlockPos, ChunkPos};
use astatine::storage::{ChunkData, WorldStorage};

fn bp(x: i32, y: i32) -> BlockPos {
    BlockPos { x, y }
}

fn contains(r: &Region, x: i32, y: i32) -> bool {
    r.x <= x && x < r.x + r.width && r.y <= y && y < r.y + r.height
}

/// Every solid cell is covered exactly once and no air cell is covered.
fn check_mesh(data: &ChunkData, origin: (i32, i32), regions: &[Region]) {
    for y in 0..32 {
        for x in 0..32 {
            let solid = data.get_block(bp(x, y)).unwrap() != Block::Air;
            let n = regions.iter().filter(|r| contains(r, origin.0 + x, origin.1 + y)).count();
            assert_eq!(n, if solid { 1 } else { 0 }, "cell ({}, {})", x, y);
        }
    }
    for r in regions {
        assert!(r.width >= 1 && r.height >= 1 && r.height <= 2);
        assert!(r.x >= origin.0 && r.x + r.width <= origin.0 + 32);
        assert!(r.y >= origin.1 && r.y + r.height <= origin.1 + 32);
    }
}

#[test]
fn two_equal_rows_merge_into_one_region() {
    let mut data = ChunkData::new();
    for x in 0..5 {
        data.set_block(bp(x, 0), Block::Dirt);
        data.set_block(bp(x, 1), Block::Dirt);
    }
    let regions = mesh_chunk(ChunkPos { x: 0, y: 0 }, &data);
    assert_eq!(regions, vec![Region { x: 0, y: 0, width: 5, height: 2 }]);
}

#[test]
fn isolated_cell_is_a_unit_region() {
    let mut data = ChunkData::new();
    data.set_block(bp(10, 10), Block::Stone);
    let regions = mesh_chunk(ChunkPos { x: 0, y: 0 }, &data);
    assert_eq!(regions, vec![Region { x: 10, y: 10, width: 1, height: 1 }]);
}

#[test]
fn regions_are_in_world_coordinates() {
    let mut data = ChunkData::new();
    data.set_block(bp(10, 10), Block::Stone);
    let regions = mesh_chunk(ChunkPos { x: 2, y: 3 }, &data);
    assert_eq!(regions, vec![Region { x: 74, y: 106, width: 1, height: 1 }]);
}

#[test]
fn run_stops_at_the_right_edge() {
    let mut data = ChunkData::new();
    for x in 28..32 {
        data.set_block(bp(x, 31), Block::Grass);
    }
    let regions = mesh_chunk(ChunkPos { x: 0, y: 0 }, &data);
    assert_eq!(regions, vec![Region { x: 28, y: 31, width: 4, height: 1 }]);
}

#[test]
fn wider_row_above_keeps_its_remainder() {
    let mut data = ChunkData::new();
    for x in 0..3 {
        data.set_block(bp(x, 0), Block::Dirt);
    }
    for x in 0..6 {
        data.set_block(bp(x, 1), Block::Dirt);
    }
    let regions = mesh_chunk(ChunkPos { x: 0, y: 0 }, &data);
    assert_eq!(
        regions,
        vec![Region { x: 0, y: 0, width: 3, height: 2 }, Region { x: 3, y: 1, width: 3, height: 1 }]
    );
    check_mesh(&data, (0, 0), &regions);
}

#[test]
fn expansion_reaches_one_row_only() {
    let mut data = ChunkData::new();
    for y in 0..3 {
        data.set_block(bp(4, y), Block::Stone);
    }
    let regions = mesh_chunk(ChunkPos { x: 0, y: 0 }, &data);
    assert_eq!(
        regions,
        vec![Region { x: 4, y: 0, width: 1, height: 2 }, Region { x: 4, y: 2, width: 1, height: 1 }]
    );
}

#[test]
fn full_chunk_covers_every_cell_once() {
    let mut data = ChunkData::new();
    for y in 0..32 {
        for x in 0..32 {
            data.set_block(bp(x, y), Block::Dirt);
        }
    }
    let regions = mesh_chunk(ChunkPos { x: 7, y: 7 }, &data);
    assert_eq!(regions.len(), 16);
    check_mesh(&data, (224, 224), &regions);
}

#[test]
fn patterned_chunk_covers_exactly_the_solid_cells() {
    let mut data = ChunkData::new();
    for y in 0..32 {
        for x in 0..32 {
            if (x * 7 + y * 13 + x * y) % 5 < 2 {
                data.set_block(bp(x, y), Block::Stone);
            }
        }
    }
    let regions = mesh_chunk(ChunkPos { x: 1, y: 0 }, &data);
    check_mesh(&data, (32, 0), &regions);
}

#[test]
fn empty_chunk_has_no_regions() {
    let data = ChunkData::new();
    assert!(mesh_chunk(ChunkPos { x: 0, y: 0 }, &data).is_empty());
}

#[test]
fn colls_index_replaces_and_removes() {
    let mut world = WorldStorage::new();
    world.set_block(bp(33, 0), Block::Dirt);
    let mut colls = Colls::new();
    let c = ChunkPos { x: 1, y: 0 };
    colls.add_colls(c, world.get_chunk_data(c).unwrap());
    assert_eq!(colls.get(c).unwrap(), &vec![Region { x: 33, y: 0, width: 1, height: 1 }]);
    world.set_block(bp(34, 0), Block::Dirt);
    colls.add_colls(c, world.get_chunk_data(c).unwrap());
    assert_eq!(colls.get(c).unwrap(), &vec![Region { x: 33, y: 0, width: 2, height: 1 }]);
    let d = ChunkPos { x: 0, y: 0 };
    colls.add_colls(d, world.get_chunk_data(d).unwrap());
    assert!(colls.get(d).unwrap().is_empty());
    assert_eq!(colls.all_regions(), vec![Region { x: 33, y: 0, width: 2, height: 1 }]);
    colls.add_colls(ChunkPos { x: 9, y: 0 }, world.get_chunk_data(c).unwrap());
    assert!(colls.get(ChunkPos { x: 9, y: 0 }).is_none());
    colls.remove(c);
    assert!(colls.get(c).is_none());
    assert!(colls.get(d).is_some());
    colls.clear();
    assert!(colls.get(d).is_none());
    assert!(colls.all_regions().is_empty());
}

#[test]
fn same_solid_cells_give_the_same_mesh() {
    let mut a = ChunkData::new();
    let mut b = ChunkData::new();
    for x in 3..9 {
        a.set_block(bp(x, 4), Block::Grass);
        b.set_block(bp(x, 4), Block::Border);
    }
    a.set_block(bp(3, 5), Block::Stone);
    b.set_block(bp(3, 5), Block::Dirt);
    let ma = mesh_chunk(ChunkPos { x: 0, y: 0 }, &a);
    assert_eq!(ma, mesh_chunk(ChunkPos { x: 0, y: 0 }, &b));
    assert_eq!(ma, vec![Region { x: 3, y: 4, width: 6, height: 1 }, Region { x: 3, y: 5, width: 1, height: 1 }]);
}

#[test]
fn run_at_the_right_edge_of_a_later_chunk() {
    let mut data = ChunkData::new();
    data.set_block(bp(30, 0), Block::Dirt);
    data.set_block(bp(31, 0), Block::Dirt);
    let regions = mesh_chunk(ChunkPos { x: 1, y: 0 }, &data);
    assert_eq!(regions, vec![Region { x: 62, y: 0, width: 2, height: 1 }]);
}
