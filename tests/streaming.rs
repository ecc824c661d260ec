use astatine::block::Block;
use astatine::chunks::{
    load_chunk, reload_chunk, spawn_chunks_near_player, window_chunks, ChunkHandles, LoadedChunks,
};
use astatine::colls::{Colls, Region};
use astatine::edits::place_block;
use astatine::position::{BlockPos, ChunkPos};
use astatine::storage::WorldStorage;

fn cp(x: i32, y: i32) -> ChunkPos {
    ChunkPos { x, y }
}

/// Runs a full reload the way the presentation layer does, handing out fresh handles.
fn full_reload(
    loaded: &mut LoadedChunks,
    colls: &mut Colls,
    world: &WorldStorage,
    center: ChunkPos,
    radius: i32,
    next_handle: &mut u64,
) -> Vec<(ChunkPos, ChunkHandles)> {
    let plan = spawn_chunks_near_player(loaded, colls, center, radius, radius);
    for c in plan.spawn.iter() {
        load_chunk(loaded, colls, world, *c, *next_handle, *next_handle + 1);
        *next_handle += 2;
    }
    plan.despawn
}

#[test]
fn window_at_origin_is_clipped_to_the_grid() {
    let w = window_chunks(cp(0, 0), 1, 1);
    assert_eq!(w, vec![cp(0, 0), cp(1, 0), cp(0, 1), cp(1, 1)]);
    let w = window_chunks(cp(3, 3), 1, 1);
    assert_eq!(w.len(), 9);
    let w = window_chunks(cp(20, 20), 2, 2);
    assert!(w.is_empty());
    let w = window_chunks(cp(7, 0), 2, 1);
    assert_eq!(w, vec![cp(5, 0), cp(6, 0), cp(7, 0), cp(5, 1), cp(6, 1), cp(7, 1)]);
}

#[test]
fn full_reload_tracks_exactly_the_window() {
    let world = WorldStorage::new();
    let mut loaded = LoadedChunks::new();
    let mut colls = Colls::new();
    let mut next = 1u64;
    let gone = full_reload(&mut loaded, &mut colls, &world, cp(0, 0), 1, &mut next);
    assert!(gone.is_empty());
    for y in -2..10 {
        for x in -2..10 {
            let expected = (0..=1).contains(&x) && (0..=1).contains(&y);
            assert_eq!(loaded.contains_chunk(cp(x, y)), expected, "chunk ({}, {})", x, y);
            assert_eq!(colls.get(cp(x, y)).is_some(), expected);
        }
    }
}

#[test]
fn full_reload_after_moving_despawns_every_old_chunk() {
    let world = WorldStorage::new();
    let mut loaded = LoadedChunks::new();
    let mut colls = Colls::new();
    let mut next = 1u64;
    full_reload(&mut loaded, &mut colls, &world, cp(3, 3), 1, &mut next);
    let mut before = Vec::new();
    for y in 2..5 {
        for x in 2..5 {
            before.push((cp(x, y), loaded.get_chunk(cp(x, y)).unwrap()));
        }
    }
    let gone = full_reload(&mut loaded, &mut colls, &world, cp(7, 7), 1, &mut next);
    assert_eq!(gone, before);
    assert!(!loaded.contains_chunk(cp(3, 3)));
    assert!(loaded.contains_chunk(cp(6, 6)));
    assert!(loaded.contains_chunk(cp(7, 7)));
    assert!(!loaded.contains_chunk(cp(5, 7)));
}

#[test]
fn single_chunk_reload_leaves_siblings_alone() {
    let mut world = WorldStorage::new();
    let mut loaded = LoadedChunks::new();
    let mut colls = Colls::new();
    let mut next = 1u64;
    full_reload(&mut loaded, &mut colls, &world, cp(3, 3), 1, &mut next);
    let mut before = Vec::new();
    for y in 2..5 {
        for x in 2..5 {
            before.push((cp(x, y), loaded.get_chunk(cp(x, y)).unwrap()));
        }
    }
    let changed = place_block(&mut world, BlockPos { x: 100, y: 100 }, Block::Dirt).unwrap();
    assert_eq!(changed, cp(3, 3));
    let old = reload_chunk(&mut loaded, &mut colls, changed).unwrap();
    assert_eq!(old, loaded_handle(&before, changed));
    assert!(!loaded.contains_chunk(changed));
    assert!(colls.get(changed).is_none());
    load_chunk(&mut loaded, &mut colls, &world, changed, 1000, 1001);
    let fresh = loaded.get_chunk(changed).unwrap();
    assert_eq!(fresh, ChunkHandles { foreground: 1000, background: 1001 });
    assert_eq!(colls.get(changed).unwrap(), &vec![Region { x: 100, y: 100, width: 1, height: 1 }]);
    for (c, h) in before.iter() {
        if *c != changed {
            assert_eq!(loaded.get_chunk(*c), Some(*h));
        }
    }
}

fn loaded_handle(before: &[(ChunkPos, ChunkHandles)], c: ChunkPos) -> ChunkHandles {
    before.iter().find(|(p, _)| *p == c).unwrap().1
}

#[test]
fn reload_of_untracked_chunk_is_ignored() {
    let world = WorldStorage::new();
    let mut loaded = LoadedChunks::new();
    let mut colls = Colls::new();
    let mut next = 1u64;
    full_reload(&mut loaded, &mut colls, &world, cp(0, 0), 1, &mut next);
    assert_eq!(reload_chunk(&mut loaded, &mut colls, cp(5, 5)), None);
    assert_eq!(reload_chunk(&mut loaded, &mut colls, cp(-1, 0)), None);
    assert!(loaded.contains_chunk(cp(1, 1)));
    assert!(colls.get(cp(1, 1)).is_some());
}

#[test]
fn loaded_chunks_bookkeeping() {
    let mut loaded = LoadedChunks::new();
    loaded.add_chunk(cp(2, 2), 5, 6);
    loaded.add_chunk(cp(9, 2), 7, 8);
    assert_eq!(loaded.get_chunk(cp(2, 2)), Some(ChunkHandles { foreground: 5, background: 6 }));
    assert_eq!(loaded.get_chunk(cp(9, 2)), None);
    assert_eq!(loaded.tracked_chunks(), vec![(cp(2, 2), ChunkHandles { foreground: 5, background: 6 })]);
    assert_eq!(loaded.remove_chunk(cp(2, 2)), Some(ChunkHandles { foreground: 5, background: 6 }));
    assert_eq!(loaded.remove_chunk(cp(2, 2)), None);
    loaded.add_chunk(cp(0, 0), 1, 2);
    loaded.add_chunk(cp(1, 0), 1, 2);
    assert_eq!(
        loaded.tracked_chunks(),
        vec![(cp(0, 0), ChunkHandles { foreground: 1, background: 2 }), (cp(1, 0), ChunkHandles { foreground: 1, background: 2 })]
    );
    loaded.remove_all_chunks();
    assert!(loaded.tracked_chunks().is_empty());
}
