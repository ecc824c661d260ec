use vstd::prelude::*;

use crate::colls::{chunk_mesh, chunk_origin, is_chunk_mesh, Colls, Region};
use crate::position::{
    chunk_at_index, chunk_in_bounds, chunk_index, lemma_chunk_at_index, lemma_chunk_index,
    ChunkPos, WORLD_CHUNKS_X, WORLD_CHUNKS_Y, WORLD_CHUNK_COUNT,
};
use crate::storage::WorldStorage;

verus! {

/// The presentation handles of a materialized chunk: its foreground tile layer
/// and its background wall layer. Opaque to the library.
#[derive(Clone, Copy, PartialEq, Eq, Debug, Hash, Structural)]
pub struct ChunkHandles {
    pub foreground: u64,
    pub background: u64,
}

/// The chunks currently materialized, each with its presentation handles.
pub struct LoadedChunks {
    slots: Vec<Option<ChunkHandles>>,
}

impl View for LoadedChunks {
    type V = Map<ChunkPos, ChunkHandles>;

    closed spec fn view(&self) -> Map<ChunkPos, ChunkHandles> {
        Map::new(
            |c: ChunkPos| chunk_in_bounds(c) && self.slots@[chunk_index(c)] is Some,
            |c: ChunkPos| self.slots@[chunk_index(c)].unwrap(),
        )
    }
}

impl LoadedChunks {
    pub closed spec fn wf(&self) -> bool {
        self.slots@.len() == WORLD_CHUNK_COUNT
    }

    /// No chunk is tracked.
    pub fn new() -> (r: Self)
        ensures
            r.wf(),
            r@ == Map::<ChunkPos, ChunkHandles>::empty(),
    {
        let mut slots: Vec<Option<ChunkHandles>> = Vec::new();
        let mut i: usize = 0;
        while i < WORLD_CHUNK_COUNT
            invariant
                i <= WORLD_CHUNK_COUNT,
                slots@.len() == i,
                forall|j: int| 0 <= j < i ==> slots@[j] is None,
            decreases WORLD_CHUNK_COUNT - i,
        {
            slots.push(None);
            i = i + 1;
        }
        let r = LoadedChunks { slots };
        proof {
            assert forall|c: ChunkPos| !r@.dom().contains(c) by {
                if chunk_in_bounds(c) {
                    lemma_chunk_index(c);
                }
            }
            assert(r@ =~= Map::<ChunkPos, ChunkHandles>::empty());
        }
        r
    }

    proof fn lemma_set_slot(&self, other: &Self, chunk_pos: ChunkPos)
        requires
            self.wf(),
            other.wf(),
            chunk_in_bounds(chunk_pos),
            forall|j: int|
                0 <= j < WORLD_CHUNK_COUNT && j != chunk_index(chunk_pos) ==> other.slots@[j]
                    == self.slots@[j],
        ensures
            other@.remove(chunk_pos) == self@.remove(chunk_pos),
            other@.dom().contains(chunk_pos) == other.slots@[chunk_index(chunk_pos)] is Some,
            other@.dom().contains(chunk_pos) ==> other@[chunk_pos] == other.slots@[chunk_index(
                chunk_pos,
            )].unwrap(),
    {
        lemma_chunk_index(chunk_pos);
        assert forall|c: ChunkPos| chunk_in_bounds(c) && c != chunk_pos implies chunk_index(c)
            != chunk_index(chunk_pos) by {
            lemma_chunk_index(c);
        }
        assert(other@.remove(chunk_pos) =~= self@.remove(chunk_pos));
    }

    /// Only chunks of the world grid are ever tracked.
    pub proof fn lemma_tracked_in_bounds(&self)
        ensures
            forall|c: ChunkPos| #[trigger] self@.dom().contains(c) ==> chunk_in_bounds(c),
    {
    }

    /// The handles of a tracked chunk.
    pub fn get_chunk(&self, chunk_pos: ChunkPos) -> (r: Option<ChunkHandles>)
        requires
            self.wf(),
        ensures
            r.is_some() == self@.dom().contains(chunk_pos),
            r.is_some() ==> chunk_in_bounds(chunk_pos),
            r.is_some() ==> r.unwrap() == self@[chunk_pos],
    {
        if !chunk_pos.in_bounds() {
            return None;
        }
        proof {
            lemma_chunk_index(chunk_pos);
        }
        let ci = (chunk_pos.x + WORLD_CHUNKS_X * chunk_pos.y) as usize;
        self.slots[ci]
    }

    /// Whether a chunk is tracked.
    pub fn contains_chunk(&self, chunk_pos: ChunkPos) -> (r: bool)
        requires
            self.wf(),
        ensures
            r == self@.dom().contains(chunk_pos),
    {
        self.get_chunk(chunk_pos).is_some()
    }

    /// Tracks an in-bounds chunk with its handles, replacing any earlier ones;
    /// a chunk off the grid is not tracked.
    pub fn add_chunk(&mut self, chunk_pos: ChunkPos, chunk_entity: u64, wall_chunk_entity: u64)
        requires
            old(self).wf(),
        ensures
            final(self).wf(),
            final(self)@ == (if chunk_in_bounds(chunk_pos) {
                old(self)@.insert(
                    chunk_pos,
                    ChunkHandles { foreground: chunk_entity, background: wall_chunk_entity },
                )
            } else {
                old(self)@
            }),
    {
        if !chunk_pos.in_bounds() {
            return;
        }
        proof {
            lemma_chunk_index(chunk_pos);
        }
        let ci = (chunk_pos.x + WORLD_CHUNKS_X * chunk_pos.y) as usize;
        let ghost before = *self;
        self.slots.set(ci, Some(ChunkHandles { foreground: chunk_entity, background: wall_chunk_entity }));
        proof {
            before.lemma_set_slot(self, chunk_pos);
            let h = ChunkHandles { foreground: chunk_entity, background: wall_chunk_entity };
            assert(self@ =~= before@.insert(chunk_pos, h)) by {
                assert(self@.remove(chunk_pos) == before@.insert(chunk_pos, h).remove(chunk_pos)) by {
                    assert(before@.insert(chunk_pos, h).remove(chunk_pos) =~= before@.remove(chunk_pos));
                }
                assert forall|c: ChunkPos| #[trigger] self@.dom().contains(c) == before@.insert(chunk_pos, h).dom().contains(c) by {
                    if c != chunk_pos {
                        assert(self@.remove(chunk_pos).dom().contains(c) == self@.dom().contains(c));
                        assert(before@.remove(chunk_pos).dom().contains(c) == before@.dom().contains(c));
                    }
                }
                assert forall|c: ChunkPos| #[trigger] self@.dom().contains(c) implies self@[c] == before@.insert(chunk_pos, h)[c] by {
                    if c != chunk_pos {
                        assert(self@.remove(chunk_pos)[c] == self@[c]);
                        assert(before@.remove(chunk_pos)[c] == before@[c]);
                    }
                }
            }
        }
    }

    /// Stops tracking a chunk and hands back its handles, if it was tracked.
    pub fn remove_chunk(&mut self, chunk_pos: ChunkPos) -> (r: Option<ChunkHandles>)
        requires
            old(self).wf(),
        ensures
            final(self).wf(),
            final(self)@ == old(self)@.remove(chunk_pos),
            r.is_some() == old(self)@.dom().contains(chunk_pos),
            r.is_some() ==> r.unwrap() == old(self)@[chunk_pos],
    {
        if !chunk_pos.in_bounds() {
            proof {
                assert(self@ =~= self@.remove(chunk_pos));
            }
            return None;
        }
        proof {
            lemma_chunk_index(chunk_pos);
        }
        let ci = (chunk_pos.x + WORLD_CHUNKS_X * chunk_pos.y) as usize;
        let r = self.slots[ci];
        let ghost before = *self;
        self.slots.set(ci, None);
        proof {
            before.lemma_set_slot(self, chunk_pos);
            assert(self@ =~= before@.remove(chunk_pos));
        }
        r
    }

    /// Stops tracking every chunk.
    pub fn remove_all_chunks(&mut self)
        requires
            old(self).wf(),
        ensures
            final(self).wf(),
            final(self)@ == Map::<ChunkPos, ChunkHandles>::empty(),
    {
        *self = LoadedChunks::new();
    }

    /// Every tracked chunk with its handles, once each, in grid order.
    pub fn tracked_chunks(&self) -> (r: Vec<(ChunkPos, ChunkHandles)>)
        requires
            self.wf(),
        ensures
            forall|c: ChunkPos| #[trigger] self@.dom().contains(c) ==> r@.contains((c, self@[c])),
            forall|i: int|
                0 <= i < r@.len() ==> self@.dom().contains(#[trigger] r@[i].0) && self@[r@[i].0]
                    == r@[i].1,
            forall|i: int, j: int|
                0 <= i < j < r@.len() ==> chunk_index(#[trigger] r@[i].0) < chunk_index(#[trigger] r@[j].0),
            r@.no_duplicates(),
    {
        let mut out: Vec<(ChunkPos, ChunkHandles)> = Vec::new();
        let mut j: usize = 0;
        while j < WORLD_CHUNK_COUNT
            invariant
                self.wf(),
                j <= WORLD_CHUNK_COUNT,
                forall|c: ChunkPos|
                    #[trigger] self@.dom().contains(c) && chunk_index(c) < j ==> out@.contains((c, self@[c])),
                forall|i: int|
                    0 <= i < out@.len() ==> self@.dom().contains(#[trigger] out@[i].0) && self@[out@[i].0]
                        == out@[i].1 && chunk_index(out@[i].0) < j,
                forall|i: int, k: int|
                    0 <= i < k < out@.len() ==> chunk_index(#[trigger] out@[i].0) < chunk_index(
                        #[trigger] out@[k].0,
                    ),
            decreases WORLD_CHUNK_COUNT - j,
        {
            let ghost cj = chunk_at_index(j as int);
            proof {
                lemma_chunk_at_index(j as int);
            }
            match self.slots[j] {
                Some(h) => {
                    let c = ChunkPos { x: (j % 8) as i32, y: (j / 8) as i32 };
                    assert(c == cj);
                    let ghost prev = out@;
                    out.push((c, h));
                    proof {
                        assert(self@.dom().contains(cj));
                        assert forall|d: ChunkPos|
                            #[trigger] self@.dom().contains(d) && chunk_index(d) < j + 1 implies out@.contains((d, self@[d])) by {
                            if chunk_index(d) < j {
                                let k = choose|k: int| 0 <= k < prev.len() && prev[k] == (d, self@[d]);
                                assert(out@[k] == (d, self@[d]));
                            } else {
                                lemma_chunk_index(d);
                                assert(out@[out@.len() - 1] == (d, self@[d]));
                            }
                        }
                        assert forall|i: int|
                            0 <= i < out@.len() implies self@.dom().contains(#[trigger] out@[i].0) && self@[out@[i].0]
                                == out@[i].1 && chunk_index(out@[i].0) < j + 1 by {
                            if i < prev.len() {
                                assert(out@[i] == prev[i]);
                            }
                        }
                        assert forall|i: int, k: int|
                            0 <= i < k < out@.len() implies chunk_index(#[trigger] out@[i].0) < chunk_index(
                                #[trigger] out@[k].0,
                            ) by {
                            assert(out@[i] == prev[i]);
                            if k < prev.len() {
                                assert(out@[k] == prev[k]);
                            }
                        }
                    }
                },
                None => {
                    proof {
                        assert forall|d: ChunkPos|
                            #[trigger] self@.dom().contains(d) && chunk_index(d) < j + 1 implies out@.contains((d, self@[d])) by {
                            if chunk_index(d) == j {
                                lemma_chunk_index(d);
                            }
                        }
                    }
                },
            }
            j = j + 1;
        }
        proof {
            assert forall|c: ChunkPos| #[trigger] self@.dom().contains(c) implies out@.contains((c, self@[c])) by {
                lemma_chunk_index(c);
            }
            assert forall|i: int, k: int| 0 <= i < out@.len() && 0 <= k < out@.len() && i != k implies out@[i]
                != out@[k] by {
                if i < k {
                    assert(chunk_index(out@[i].0) < chunk_index(out@[k].0));
                } else {
                    assert(chunk_index(out@[k].0) < chunk_index(out@[i].0));
                }
            }
        }
        out
    }
}

/// A chunk has collision regions exactly when it is tracked, so physics never
/// sees a drawn chunk without its regions.
pub open spec fn streaming_consistent(loaded_chunks: &LoadedChunks, colls: &Colls) -> bool {
    loaded_chunks@.dom() == colls@.dom()
}

/// Asks for a full reload around the player's chunk.
#[derive(Clone, Copy, PartialEq, Eq, Debug, Hash, Structural)]
pub struct ReloadChunks;

/// Asks for one chunk to be redrawn after an edit.
#[derive(Clone, Copy, PartialEq, Eq, Debug, Hash, Structural)]
pub struct ReloadChunk(pub ChunkPos);

/// The chunk lies within `radius_x` columns and `radius_y` rows of `center`.
pub open spec fn in_window(c: ChunkPos, center: ChunkPos, radius_x: int, radius_y: int) -> bool {
    center.x - radius_x <= c.x <= center.x + radius_x && center.y - radius_y <= c.y <= center.y
        + radius_y
}

/// The in-bounds chunks of the streaming window around `center`, in grid order.
pub fn window_chunks(center: ChunkPos, radius_x: i32, radius_y: i32) -> (r: Vec<ChunkPos>)
    ensures
        forall|c: ChunkPos|
            #[trigger] r@.contains(c) <==> chunk_in_bounds(c) && in_window(
                c,
                center,
                radius_x as int,
                radius_y as int,
            ),
        forall|i: int, j: int|
            0 <= i < j < r@.len() ==> chunk_index(#[trigger] r@[i]) < chunk_index(#[trigger] r@[j]),
{
    let mut out: Vec<ChunkPos> = Vec::new();
    let mut y: i32 = 0;
    while y < WORLD_CHUNKS_Y
        invariant
            0 <= y <= WORLD_CHUNKS_Y,
            forall|c: ChunkPos|
                #[trigger] out@.contains(c) <==> chunk_in_bounds(c) && c.y < y && in_window(
                    c,
                    center,
                    radius_x as int,
                    radius_y as int,
                ),
            forall|i: int| 0 <= i < out@.len() ==> chunk_in_bounds(#[trigger] out@[i]) && out@[i].y < y,
            forall|i: int, j: int|
                0 <= i < j < out@.len() ==> chunk_index(#[trigger] out@[i]) < chunk_index(
                    #[trigger] out@[j],
                ),
        decreases WORLD_CHUNKS_Y - y,
    {
        let mut x: i32 = 0;
        while x < WORLD_CHUNKS_X
            invariant
                0 <= x <= WORLD_CHUNKS_X,
                0 <= y < WORLD_CHUNKS_Y,
                forall|c: ChunkPos|
                    #[trigger] out@.contains(c) <==> chunk_in_bounds(c) && (c.y < y || (c.y == y
                        && c.x < x)) && in_window(c, center, radius_x as int, radius_y as int),
                forall|i: int|
                    0 <= i < out@.len() ==> chunk_in_bounds(#[trigger] out@[i]) && (out@[i].y < y || (
                    out@[i].y == y && out@[i].x < x)),
                forall|i: int, j: int|
                    0 <= i < j < out@.len() ==> chunk_index(#[trigger] out@[i]) < chunk_index(
                        #[trigger] out@[j],
                    ),
            decreases WORLD_CHUNKS_X - x,
        {
            let dx: i64 = x as i64 - center.x as i64;
            let dy: i64 = y as i64 - center.y as i64;
            let c = ChunkPos { x, y };
            if dx <= radius_x as i64 && -dx <= radius_x as i64 && dy <= radius_y as i64 && -dy
                <= radius_y as i64 {
                let ghost prev = out@;
                out.push(c);
                proof {
                    assert forall|d: ChunkPos| #[trigger] out@.contains(d) == (prev.contains(d) || d == c) by {
                        if out@.contains(d) {
                            let k = choose|k: int| 0 <= k < out@.len() && out@[k] == d;
                            if k < prev.len() {
                                assert(prev[k] == d);
                            }
                        }
                        if prev.contains(d) {
                            let k = choose|k: int| 0 <= k < prev.len() && prev[k] == d;
                            assert(out@[k] == d);
                        }
                        if d == c {
                            assert(out@[prev.len() as int] == d);
                        }
                    }
                }
            } else {
            }
            x = x + 1;
        }
        y = y + 1;
    }
    out
}

/// What the presentation layer must do to finish a reload: drop these handles,
/// then draw these chunks and hand each back through `load_chunk`.
pub struct ReloadPlan {
    pub despawn: Vec<(ChunkPos, ChunkHandles)>,
    pub spawn: Vec<ChunkPos>,
}

/// Forgets every tracked chunk and every collision entry, returning each tracked
/// chunk once, with its handles, for the presentation layer to destroy.
pub fn despawn_all_chunks(loaded_chunks: &mut LoadedChunks, colls: &mut Colls) -> (r: Vec<
    (ChunkPos, ChunkHandles),
>)
    requires
        old(loaded_chunks).wf(),
        old(colls).wf(),
    ensures
        final(loaded_chunks).wf(),
        final(colls).wf(),
        final(loaded_chunks)@ == Map::<ChunkPos, ChunkHandles>::empty(),
        final(colls)@ == Map::<ChunkPos, Seq<Region>>::empty(),
        forall|c: ChunkPos|
            #[trigger] old(loaded_chunks)@.dom().contains(c) ==> r@.contains((c, old(loaded_chunks)@[c])),
        forall|i: int|
            0 <= i < r@.len() ==> old(loaded_chunks)@.dom().contains(#[trigger] r@[i].0) && old(
                loaded_chunks,
            )@[r@[i].0] == r@[i].1,
        forall|i: int, j: int|
            0 <= i < j < r@.len() ==> chunk_index(#[trigger] r@[i].0) < chunk_index(#[trigger] r@[j].0),
        r@.no_duplicates(),
{
    let handles = loaded_chunks.tracked_chunks();
    loaded_chunks.remove_all_chunks();
    colls.clear();
    handles
}

/// Full reload around the player's chunk: everything tracked is dropped, and the
/// plan names the old handles to destroy and the in-bounds chunks of the window
/// to draw next.
pub fn spawn_chunks_near_player(
    loaded_chunks: &mut LoadedChunks,
    colls: &mut Colls,
    player_chunk_pos: ChunkPos,
    radius_x: i32,
    radius_y: i32,
) -> (plan: ReloadPlan)
    requires
        old(loaded_chunks).wf(),
        old(colls).wf(),
    ensures
        final(loaded_chunks).wf(),
        final(colls).wf(),
        final(loaded_chunks)@ == Map::<ChunkPos, ChunkHandles>::empty(),
        final(colls)@ == Map::<ChunkPos, Seq<Region>>::empty(),
        streaming_consistent(final(loaded_chunks), final(colls)),
        forall|c: ChunkPos|
            #[trigger] old(loaded_chunks)@.dom().contains(c) ==> plan.despawn@.contains(
                (c, old(loaded_chunks)@[c]),
            ),
        forall|i: int|
            0 <= i < plan.despawn@.len() ==> old(loaded_chunks)@.dom().contains(
                #[trigger] plan.despawn@[i].0,
            ) && old(loaded_chunks)@[plan.despawn@[i].0] == plan.despawn@[i].1,
        forall|i: int, j: int|
            0 <= i < j < plan.despawn@.len() ==> chunk_index(#[trigger] plan.despawn@[i].0)
                < chunk_index(#[trigger] plan.despawn@[j].0),
        plan.despawn@.no_duplicates(),
        forall|c: ChunkPos|
            #[trigger] plan.spawn@.contains(c) <==> chunk_in_bounds(c) && in_window(
                c,
                player_chunk_pos,
                radius_x as int,
                radius_y as int,
            ),
        forall|i: int, j: int|
            0 <= i < j < plan.spawn@.len() ==> chunk_index(#[trigger] plan.spawn@[i]) < chunk_index(
                #[trigger] plan.spawn@[j],
            ),
{
    let despawn = despawn_all_chunks(loaded_chunks, colls);
    proof {
        assert(loaded_chunks@.dom() =~= colls@.dom());
    }
    let spawn = window_chunks(player_chunk_pos, radius_x, radius_y);
    ReloadPlan { despawn, spawn }
}

/// Materializes one chunk: meshes its blocks into the collision index, then
/// records the handles of its freshly drawn layers. Off the grid nothing changes.
pub fn load_chunk(
    loaded_chunks: &mut LoadedChunks,
    colls: &mut Colls,
    world_storage: &WorldStorage,
    chunk_pos: ChunkPos,
    chunk_entity: u64,
    wall_chunk_entity: u64,
)
    requires
        old(loaded_chunks).wf(),
        old(colls).wf(),
        world_storage.wf(),
    ensures
        final(loaded_chunks).wf(),
        final(colls).wf(),
        streaming_consistent(old(loaded_chunks), old(colls)) ==> streaming_consistent(
            final(loaded_chunks),
            final(colls),
        ),
        !chunk_in_bounds(chunk_pos) ==> final(loaded_chunks)@ == old(loaded_chunks)@ && final(colls)@
            == old(colls)@,
        chunk_in_bounds(chunk_pos) ==> final(loaded_chunks)@ == old(loaded_chunks)@.insert(
            chunk_pos,
            ChunkHandles { foreground: chunk_entity, background: wall_chunk_entity },
        ) && final(colls)@.dom() == old(colls)@.dom().insert(chunk_pos) && final(colls)@.remove(
            chunk_pos,
        ) == old(colls)@.remove(chunk_pos) && final(colls)@[chunk_pos] == chunk_mesh(
            chunk_pos,
            world_storage@[chunk_index(chunk_pos)].blocks,
        ) && is_chunk_mesh(
            final(colls)@[chunk_pos],
            world_storage@[chunk_index(chunk_pos)].blocks,
            chunk_origin(chunk_pos).0,
            chunk_origin(chunk_pos).1,
        ),
{
    match world_storage.get_chunk_data(chunk_pos) {
        None => {},
        Some(chunk_data) => {
            colls.add_colls(chunk_pos, chunk_data);
            loaded_chunks.add_chunk(chunk_pos, chunk_entity, wall_chunk_entity);
            proof {
                assert(loaded_chunks@.dom() =~= old(loaded_chunks)@.dom().insert(chunk_pos));
            }
        },
    }
}

/// Single-chunk reload after an edit: a tracked chunk loses its handles and its
/// collision entry, and its old handles come back to be destroyed before it is
/// drawn again through `load_chunk`. Every other chunk is untouched; an untracked
/// chunk is ignored.
pub fn reload_chunk(loaded_chunks: &mut LoadedChunks, colls: &mut Colls, chunk_pos: ChunkPos) -> (r:
    Option<ChunkHandles>)
    requires
        old(loaded_chunks).wf(),
        old(colls).wf(),
    ensures
        final(loaded_chunks).wf(),
        final(colls).wf(),
        streaming_consistent(old(loaded_chunks), old(colls)) ==> streaming_consistent(
            final(loaded_chunks),
            final(colls),
        ),
        r.is_some() == old(loaded_chunks)@.dom().contains(chunk_pos),
        r.is_some() ==> chunk_in_bounds(chunk_pos),
        r.is_some() ==> r.unwrap() == old(loaded_chunks)@[chunk_pos] && final(loaded_chunks)@ == old(
            loaded_chunks,
        )@.remove(chunk_pos) && final(colls)@ == old(colls)@.remove(chunk_pos),
        r.is_none() ==> final(loaded_chunks)@ == old(loaded_chunks)@ && final(colls)@ == old(colls)@,
{
    if !loaded_chunks.contains_chunk(chunk_pos) {
        return None;
    }
    colls.remove(chunk_pos);
    loaded_chunks.remove_chunk(chunk_pos)
}

/// Reloading one tracked chunk (`reload_chunk`, then `load_chunk` with fresh
/// handles) leaves the same chunks tracked, gives that chunk the fresh handles
/// and a fresh mesh, and keeps every other chunk's handles and regions.
pub proof fn lemma_single_chunk_reload(
    loaded0: Map<ChunkPos, ChunkHandles>,
    loaded1: Map<ChunkPos, ChunkHandles>,
    loaded2: Map<ChunkPos, ChunkHandles>,
    colls0: Map<ChunkPos, Seq<Region>>,
    colls1: Map<ChunkPos, Seq<Region>>,
    colls2: Map<ChunkPos, Seq<Region>>,
    c: ChunkPos,
    fresh: ChunkHandles,
    blocks: Seq<crate::block::Block>,
)
    requires
        loaded0.dom().contains(c),
        chunk_in_bounds(c),
        loaded1 == loaded0.remove(c),
        colls1 == colls0.remove(c),
        loaded2 == loaded1.insert(c, fresh),
        colls2.dom() == colls1.dom().insert(c),
        colls2.remove(c) == colls1.remove(c),
        colls2[c] == chunk_mesh(c, blocks),
    ensures
        loaded2.dom() == loaded0.dom(),
        loaded2[c] == fresh,
        forall|d: ChunkPos| d != c && #[trigger] loaded0.dom().contains(d) ==> loaded2[d] == loaded0[d],
        colls2.dom() == colls0.dom().insert(c),
        colls2[c] == chunk_mesh(c, blocks),
        forall|d: ChunkPos|
            d != c && #[trigger] colls0.dom().contains(d) ==> colls2.dom().contains(d) && colls2[d] == colls0[d],
{
    assert(loaded2.dom() =~= loaded0.dom());
    assert(colls2.dom() =~= colls0.dom().insert(c));
    assert forall|d: ChunkPos| d != c && #[trigger] colls0.dom().contains(d) implies colls2.dom().contains(d)
        && colls2[d] == colls0[d] by {
        assert(colls2.remove(c)[d] == colls2[d]);
        assert(colls1.remove(c)[d] == colls1[d]);
    }
}

} // verus!
