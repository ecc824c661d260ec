use vstd::prelude::*;

use crate::block::{is_solid, Block};
use crate::position::{
    chunk_at_index, chunk_in_bounds, chunk_index, lemma_chunk_at_index, lemma_chunk_index, BlockPos, ChunkPos, CHUNK_AREA, CHUNK_SIZE,
    WORLD_CHUNKS_X, WORLD_CHUNK_COUNT,
};
use crate::storage::ChunkData;

verus! {

/// An axis-aligned rectangle of solid blocks, anchored at its minimum corner,
/// `width` by `height` blocks.
#[derive(Clone, Copy, PartialEq, Eq, Debug, Hash, Structural)]
pub struct Region {
    pub x: i32,
    pub y: i32,
    pub width: i32,
    pub height: i32,
}

/// The cell `(x, y)` lies inside the region.
pub open spec fn region_contains(r: Region, x: int, y: int) -> bool {
    r.x <= x < r.x + r.width && r.y <= y < r.y + r.height
}

/// Some region of the list contains the cell `(x, y)`.
pub open spec fn covered(rs: Seq<Region>, x: int, y: int) -> bool {
    exists|i: int| 0 <= i < rs.len() && region_contains(#[trigger] rs[i], x, y)
}

/// No cell belongs to two regions of the list.
pub open spec fn regions_disjoint(rs: Seq<Region>) -> bool {
    forall|i: int, j: int, x: int, y: int|
        0 <= i < rs.len() && 0 <= j < rs.len() && i != j && #[trigger] region_contains(rs[i], x, y)
            ==> !#[trigger] region_contains(rs[j], x, y)
}

/// The chunk-local cell `(x, y)` holds a solid block.
pub open spec fn solid_at(blocks: Seq<Block>, x: int, y: int) -> bool {
    is_solid(blocks[x + CHUNK_SIZE * y])
}

/// A region lies inside the chunk whose minimum corner is `(ox, oy)`, and spans
/// one row or two.
pub open spec fn region_in_chunk(r: Region, ox: int, oy: int) -> bool {
    ox <= r.x && 1 <= r.width && r.x + r.width <= ox + CHUNK_SIZE && oy <= r.y && 1 <= r.height
        <= 2 && r.y + r.height <= oy + CHUNK_SIZE
}

/// The regions are a collision mesh of a chunk's blocks: each lies inside the
/// chunk at `(ox, oy)`, they cover exactly the solid cells, and no two overlap.
pub open spec fn is_chunk_mesh(rs: Seq<Region>, blocks: Seq<Block>, ox: int, oy: int) -> bool {
    &&& forall|i: int| 0 <= i < rs.len() ==> region_in_chunk(#[trigger] rs[i], ox, oy)
    &&& forall|x: int, y: int|
        0 <= x < CHUNK_SIZE && 0 <= y < CHUNK_SIZE ==> (covered(rs, ox + x, oy + y)
            <==> #[trigger] solid_at(blocks, x, y))
    &&& regions_disjoint(rs)
}

/// Minimum corner of a chunk, in blocks.
pub open spec fn chunk_origin(c: ChunkPos) -> (int, int) {
    (CHUNK_SIZE * c.x, CHUNK_SIZE * c.y)
}

/// The chunk-local cell is solid and not yet taken by a region grown from the row below.
pub open spec fn open_at(blocks: Seq<Block>, e: Seq<bool>, x: int, y: int) -> bool {
    solid_at(blocks, x, y) && !e[x + CHUNK_SIZE * y]
}

/// The marks after cells `[s, end)` of row `y` are taken.
pub open spec fn mark_row(e: Seq<bool>, s: int, end: int, y: int) -> Seq<bool> {
    Seq::new(e.len(), |j: int| e[j] || (s + CHUNK_SIZE * y <= j < end + CHUNK_SIZE * y))
}

/// Every cell of row `y` in `[s, end)` is solid.
pub open spec fn row_solid(blocks: Seq<Block>, s: int, end: int, y: int) -> bool {
    forall|cx: int| s <= cx < end ==> #[trigger] solid_at(blocks, cx, y)
}

/// The run of row `y` from `run` (if one is open) to `end` grows one row up when
/// every cell above it is solid; the marks and region list that result.
pub open spec fn close_run(
    blocks: Seq<Block>,
    y: int,
    run: Option<int>,
    end: int,
    e: Seq<bool>,
    rs: Seq<Region>,
) -> (Seq<bool>, Seq<Region>) {
    match run {
        None => (e, rs),
        Some(s) => {
            let grow = y + 1 < CHUNK_SIZE && row_solid(blocks, s, end, y + 1);
            (
                if grow { mark_row(e, s, end, y + 1) } else { e },
                rs.push(
                    Region {
                        x: s as i32,
                        y: y as i32,
                        width: (end - s) as i32,
                        height: if grow { 2 } else { 1 },
                    },
                ),
            )
        },
    }
}

/// Greedy meshing from cell `(x, y)` on, with the run `run` open, marks `e` and
/// the regions `rs` found so far: rows bottom to top, cells left to right; a run
/// of open cells ends at the first cell that is not open or at the row's end.
pub open spec fn mesh_from(
    blocks: Seq<Block>,
    y: int,
    x: int,
    run: Option<int>,
    e: Seq<bool>,
    rs: Seq<Region>,
) -> Seq<Region>
    decreases CHUNK_SIZE - y, CHUNK_SIZE + 1 - x,
{
    if y >= CHUNK_SIZE {
        rs
    } else if x >= CHUNK_SIZE {
        let (e2, rs2) = close_run(blocks, y, run, CHUNK_SIZE as int, e, rs);
        mesh_from(blocks, y + 1, 0, None, e2, rs2)
    } else if open_at(blocks, e, x, y) {
        mesh_from(blocks, y, x + 1, if run is None { Some(x) } else { run }, e, rs)
    } else {
        let (e2, rs2) = close_run(blocks, y, run, x, e, rs);
        mesh_from(blocks, y, x + 1, None, e2, rs2)
    }
}

/// The greedy collision mesh of a chunk, in chunk-local coordinates.
pub open spec fn greedy_mesh(blocks: Seq<Block>) -> Seq<Region> {
    mesh_from(blocks, 0, 0, None, Seq::new(CHUNK_AREA as nat, |j: int| false), Seq::empty())
}

/// The greedy collision mesh of a chunk, moved to the chunk's place in the world.
pub open spec fn chunk_mesh(c: ChunkPos, blocks: Seq<Block>) -> Seq<Region> {
    greedy_mesh(blocks).map_values(|r: Region| shifted(r, chunk_origin(c).0, chunk_origin(c).1))
}

proof fn lemma_row_solid_same(b1: Seq<Block>, b2: Seq<Block>, s: int, end: int, y: int)
    requires
        forall|cx: int, cy: int|
            0 <= cx < CHUNK_SIZE && 0 <= cy < CHUNK_SIZE ==> #[trigger] solid_at(b1, cx, cy) == solid_at(
                b2,
                cx,
                cy,
            ),
        0 <= s,
        end <= CHUNK_SIZE,
        0 <= y < CHUNK_SIZE,
    ensures
        row_solid(b1, s, end, y) == row_solid(b2, s, end, y),
{
    if row_solid(b1, s, end, y) {
        assert forall|cx: int| s <= cx < end implies #[trigger] solid_at(b2, cx, y) by {
            assert(solid_at(b1, cx, y));
        }
    }
    if row_solid(b2, s, end, y) {
        assert forall|cx: int| s <= cx < end implies #[trigger] solid_at(b1, cx, y) by {
            assert(solid_at(b2, cx, y));
        }
    }
}

proof fn lemma_mesh_from_solidity(
    b1: Seq<Block>,
    b2: Seq<Block>,
    y: int,
    x: int,
    run: Option<int>,
    e: Seq<bool>,
    rs: Seq<Region>,
)
    requires
        forall|cx: int, cy: int|
            0 <= cx < CHUNK_SIZE && 0 <= cy < CHUNK_SIZE ==> #[trigger] solid_at(b1, cx, cy) == solid_at(
                b2,
                cx,
                cy,
            ),
        0 <= y,
        0 <= x,
        run is Some ==> 0 <= run.unwrap(),
    ensures
        mesh_from(b1, y, x, run, e, rs) == mesh_from(b2, y, x, run, e, rs),
    decreases CHUNK_SIZE - y, CHUNK_SIZE + 1 - x,
{
    if y >= CHUNK_SIZE {
    } else if x >= CHUNK_SIZE {
        assert(close_run(b1, y, run, CHUNK_SIZE as int, e, rs) == close_run(b2, y, run, CHUNK_SIZE as int, e, rs)) by {
            if run is Some && y + 1 < CHUNK_SIZE {
                lemma_row_solid_same(b1, b2, run.unwrap(), CHUNK_SIZE as int, y + 1);
            }
        }
        let (e2, rs2) = close_run(b1, y, run, CHUNK_SIZE as int, e, rs);
        lemma_mesh_from_solidity(b1, b2, y + 1, 0, None, e2, rs2);
    } else if open_at(b1, e, x, y) {
        lemma_mesh_from_solidity(b1, b2, y, x + 1, if run is None { Some(x) } else { run }, e, rs);
    } else {
        assert(close_run(b1, y, run, x, e, rs) == close_run(b2, y, run, x, e, rs)) by {
            if run is Some && y + 1 < CHUNK_SIZE {
                lemma_row_solid_same(b1, b2, run.unwrap(), x, y + 1);
            }
        }
        let (e2, rs2) = close_run(b1, y, run, x, e, rs);
        lemma_mesh_from_solidity(b1, b2, y, x + 1, None, e2, rs2);
    }
}

/// The mesh depends on which cells are solid and nothing else: two chunks with
/// the same solid cells have the same mesh.
pub proof fn lemma_mesh_depends_on_solidity(b1: Seq<Block>, b2: Seq<Block>)
    requires
        forall|cx: int, cy: int|
            0 <= cx < CHUNK_SIZE && 0 <= cy < CHUNK_SIZE ==> #[trigger] solid_at(b1, cx, cy) == solid_at(
                b2,
                cx,
                cy,
            ),
    ensures
        greedy_mesh(b1) == greedy_mesh(b2),
{
    lemma_mesh_from_solidity(b1, b2, 0, 0, None, Seq::new(CHUNK_AREA as nat, |j: int| false), Seq::empty());
}

/// The cell `(x, y)` of the `expanded` marks.
spec fn marked(e: Seq<bool>, x: int, y: int) -> bool {
    e[x + CHUNK_SIZE * y]
}

proof fn lemma_covered_push(rs: Seq<Region>, r: Region)
    ensures
        forall|x: int, y: int|
            #[trigger] covered(rs.push(r), x, y) == (covered(rs, x, y) || region_contains(r, x, y)),
{
    assert forall|x: int, y: int|
        #[trigger] covered(rs.push(r), x, y) == (covered(rs, x, y) || region_contains(r, x, y)) by {
        let rs2 = rs.push(r);
        if covered(rs, x, y) {
            let i = choose|i: int| 0 <= i < rs.len() && region_contains(rs[i], x, y);
            assert(rs2[i] == rs[i]);
        }
        if region_contains(r, x, y) {
            assert(rs2[rs.len() as int] == r);
        }
        if covered(rs2, x, y) {
            let i = choose|i: int| 0 <= i < rs2.len() && region_contains(rs2[i], x, y);
            if i < rs.len() {
                assert(rs2[i] == rs[i]);
            }
        }
    }
}

proof fn lemma_disjoint_push(rs: Seq<Region>, r: Region)
    requires
        regions_disjoint(rs),
        forall|x: int, y: int| region_contains(r, x, y) ==> !covered(rs, x, y),
    ensures
        regions_disjoint(rs.push(r)),
{
    let rs2 = rs.push(r);
    assert forall|i: int, j: int, x: int, y: int|
        0 <= i < rs2.len() && 0 <= j < rs2.len() && i != j && #[trigger] region_contains(rs2[i], x, y)
            implies !#[trigger] region_contains(rs2[j], x, y) by {
        if i < rs.len() && j < rs.len() {
            assert(rs2[i] == rs[i] && rs2[j] == rs[j]);
        } else if i < rs.len() {
            assert(rs2[i] == rs[i]);
            assert(covered(rs, x, y));
        } else {
            assert(rs2[j] == rs[j]);
            if region_contains(rs2[j], x, y) {
                assert(covered(rs, x, y));
            }
        }
    }
}

/// Whether the chunk-local cell holds a solid block.
fn solid_cell(chunk: &ChunkData, x: i32, y: i32) -> (r: bool)
    requires
        chunk.wf(),
        0 <= x < CHUNK_SIZE,
        0 <= y < CHUNK_SIZE,
    ensures
        r == solid_at(chunk@.blocks, x as int, y as int),
{
    match chunk.get_block(BlockPos { x, y }) {
        Some(b) => b.is_solid(),
        None => false,
    }
}

/// Whether the chunk-local cell is solid and not yet taken by a region grown from the row below.
fn open_cell(chunk: &ChunkData, expanded: &Vec<bool>, x: i32, y: i32) -> (r: bool)
    requires
        chunk.wf(),
        expanded@.len() == CHUNK_AREA,
        0 <= x < CHUNK_SIZE,
        0 <= y < CHUNK_SIZE,
    ensures
        r == (solid_at(chunk@.blocks, x as int, y as int) && !marked(expanded@, x as int, y as int)),
{
    solid_cell(chunk, x, y) && !expanded[(x + CHUNK_SIZE * y) as usize]
}

/// Greedy meshing in chunk-local coordinates: each row is cut into maximal runs
/// of solid cells not yet taken, and a run grows one row up when every cell above
/// it is solid.
fn mesh_local(chunk: &ChunkData) -> (rs: Vec<Region>)
    requires
        chunk.wf(),
    ensures
        is_chunk_mesh(rs@, chunk@.blocks, 0, 0),
        rs@ == greedy_mesh(chunk@.blocks),
{
    let ghost blocks = chunk@.blocks;
    let mut expanded: Vec<bool> = Vec::new();
    let mut k: usize = 0;
    while k < CHUNK_AREA
        invariant
            k <= CHUNK_AREA,
            expanded@.len() == k,
            forall|j: int| 0 <= j < k ==> !expanded@[j],
        decreases CHUNK_AREA - k,
    {
        expanded.push(false);
        k = k + 1;
    }
    let mut rs: Vec<Region> = Vec::new();
    proof {
        assert(expanded@ =~= Seq::new(CHUNK_AREA as nat, |j: int| false));
    }
    let mut y: i32 = 0;
    while y < CHUNK_SIZE
        invariant
            0 <= y <= CHUNK_SIZE,
            mesh_from(blocks, y as int, 0, None, expanded@, rs@) == greedy_mesh(blocks),
            chunk.wf(),
            blocks == chunk@.blocks,
            expanded@.len() == CHUNK_AREA,
            forall|i: int|
                0 <= i < rs@.len() ==> region_in_chunk(#[trigger] rs@[i], 0, 0) && rs@[i].y < y
                    && rs@[i].y + rs@[i].height <= y + 1,
            forall|cx: int, cy: int|
                0 <= cx < CHUNK_SIZE && 0 <= cy < y ==> (#[trigger] covered(rs@, cx, cy) <==> solid_at(
                    blocks,
                    cx,
                    cy,
                )),
            y < CHUNK_SIZE ==> forall|cx: int|
                0 <= cx < CHUNK_SIZE ==> (#[trigger] covered(rs@, cx, y as int) <==> marked(
                    expanded@,
                    cx,
                    y as int,
                )),
            y < CHUNK_SIZE ==> forall|cx: int|
                0 <= cx < CHUNK_SIZE ==> #[trigger] marked(expanded@, cx, y as int) ==> solid_at(
                    blocks,
                    cx,
                    y as int,
                ),
            forall|cx: int, cy: int|
                0 <= cx < CHUNK_SIZE && y < cy < CHUNK_SIZE ==> !#[trigger] marked(expanded@, cx, cy),
            regions_disjoint(rs@),
        decreases CHUNK_SIZE - y,
    {
        let mut x: i32 = 0;
        while x < CHUNK_SIZE
            invariant
                0 <= x <= CHUNK_SIZE,
                0 <= y < CHUNK_SIZE,
                mesh_from(blocks, y as int, x as int, None, expanded@, rs@) == greedy_mesh(blocks),
                chunk.wf(),
                blocks == chunk@.blocks,
                expanded@.len() == CHUNK_AREA,
                forall|i: int|
                    0 <= i < rs@.len() ==> region_in_chunk(#[trigger] rs@[i], 0, 0) && (rs@[i].y < y
                        || (rs@[i].y == y && rs@[i].x + rs@[i].width <= x)) && rs@[i].y
                        + rs@[i].height <= y + 2,
                forall|cx: int, cy: int|
                    0 <= cx < CHUNK_SIZE && 0 <= cy < y ==> (#[trigger] covered(rs@, cx, cy)
                        <==> solid_at(blocks, cx, cy)),
                forall|cx: int|
                    0 <= cx < x ==> (#[trigger] covered(rs@, cx, y as int) <==> solid_at(
                        blocks,
                        cx,
                        y as int,
                    )),
                forall|cx: int|
                    x <= cx < CHUNK_SIZE ==> (#[trigger] covered(rs@, cx, y as int) <==> marked(
                        expanded@,
                        cx,
                        y as int,
                    )),
                forall|cx: int|
                    0 <= cx < CHUNK_SIZE ==> #[trigger] marked(expanded@, cx, y as int) ==> solid_at(
                        blocks,
                        cx,
                        y as int,
                    ),
                y + 1 < CHUNK_SIZE ==> forall|cx: int|
                    0 <= cx < CHUNK_SIZE ==> (#[trigger] covered(rs@, cx, y + 1) <==> marked(
                        expanded@,
                        cx,
                        y + 1,
                    )),
                y + 1 < CHUNK_SIZE ==> forall|cx: int|
                    0 <= cx < CHUNK_SIZE ==> #[trigger] marked(expanded@, cx, y + 1) ==> solid_at(
                        blocks,
                        cx,
                        y + 1,
                    ) && cx < x,
                forall|cx: int, cy: int|
                    0 <= cx < CHUNK_SIZE && y + 1 < cy < CHUNK_SIZE ==> !#[trigger] marked(
                        expanded@,
                        cx,
                        cy,
                    ),
                regions_disjoint(rs@),
            decreases CHUNK_SIZE - x,
        {
            if !open_cell(chunk, &expanded, x, y) {
                proof {
                    assert(!open_at(blocks, expanded@, x as int, y as int));
                }
                x = x + 1;
            } else {
                let start = x;
                proof {
                    assert(open_at(blocks, expanded@, x as int, y as int));
                    assert(mesh_from(blocks, y as int, x as int, Some(start as int), expanded@, rs@)
                        == mesh_from(blocks, y as int, x + 1, Some(start as int), expanded@, rs@));
                }
                while x < CHUNK_SIZE && open_cell(chunk, &expanded, x, y)
                    invariant
                        mesh_from(blocks, y as int, x as int, Some(start as int), expanded@, rs@)
                            == greedy_mesh(blocks),
                        0 <= start < CHUNK_SIZE,
                        start <= x <= CHUNK_SIZE,
                        0 <= y < CHUNK_SIZE,
                        chunk.wf(),
                        blocks == chunk@.blocks,
                        expanded@.len() == CHUNK_AREA,
                        forall|cx: int|
                            start <= cx < x ==> #[trigger] solid_at(blocks, cx, y as int) && !marked(
                                expanded@,
                                cx,
                                y as int,
                            ),
                    decreases CHUNK_SIZE - x,
                {
                    proof {
                        assert(open_at(blocks, expanded@, x as int, y as int));
                    }
                    x = x + 1;
                }
                proof {
                    if x < CHUNK_SIZE {
                        assert(!open_at(blocks, expanded@, x as int, y as int));
                    }
                }
                let ghost rs_run = rs@;
                proof {
                    assert forall|cx: int| start <= cx < x implies !covered(rs@, cx, y as int) && (y + 1
                        < CHUNK_SIZE ==> !covered(rs@, cx, y + 1)) by {}
                }
                let ghost exp_run = expanded@;
                let mut height: i32 = 1;
                if y + 1 < CHUNK_SIZE {
                    let mut c: i32 = start;
                    while c < x && solid_cell(chunk, c, y + 1)
                        invariant
                            0 <= start <= c <= x <= CHUNK_SIZE,
                            0 <= y + 1 < CHUNK_SIZE,
                            chunk.wf(),
                            blocks == chunk@.blocks,
                            forall|cx: int| start <= cx < c ==> #[trigger] solid_at(blocks, cx, y + 1),
                        decreases x - c,
                    {
                        c = c + 1;
                    }
                    proof {
                        if c < x {
                            assert(!solid_at(blocks, c as int, y + 1));
                            assert(!row_solid(blocks, start as int, x as int, y + 1));
                        }
                    }
                    if c == x {
                        let ghost before = expanded@;
                        let mut m: i32 = start;
                        while m < x
                            invariant
                                0 <= start <= m <= x <= CHUNK_SIZE,
                                0 <= y + 1 < CHUNK_SIZE,
                                expanded@.len() == CHUNK_AREA,
                                forall|j: int|
                                    0 <= j < CHUNK_AREA ==> #[trigger] expanded@[j] == if start
                                        + CHUNK_SIZE * (y + 1) <= j < m + CHUNK_SIZE * (y + 1) {
                                        true
                                    } else {
                                        before[j]
                                    },
                            decreases x - m,
                        {
                            expanded.set((m + CHUNK_SIZE * (y + 1)) as usize, true);
                            m = m + 1;
                        }
                        height = 2;
                        proof {
                            assert forall|cx: int, cy: int|
                                0 <= cx < CHUNK_SIZE && 0 <= cy < CHUNK_SIZE implies #[trigger] marked(
                                expanded@,
                                cx,
                                cy,
                            ) == (marked(exp_run, cx, cy) || (cy == y + 1 && start <= cx < x)) by {
                                assert(expanded@[cx + CHUNK_SIZE * cy] == marked(expanded@, cx, cy));
                            }
                        }
                    }
                }
                assert(forall|cx: int, cy: int|
                    0 <= cx < CHUNK_SIZE && 0 <= cy < CHUNK_SIZE ==> #[trigger] marked(expanded@, cx, cy)
                        == (marked(exp_run, cx, cy) || (height == 2 && cy == y + 1 && start <= cx < x)));
                let r = Region { x: start, y, width: x - start, height };
                proof {
                    let grow = y + 1 < CHUNK_SIZE && row_solid(blocks, start as int, x as int, y + 1);
                    assert(grow == (height == 2));
                    if grow {
                        assert(expanded@ =~= mark_row(exp_run, start as int, x as int, y + 1)) by {
                            assert forall|j: int| 0 <= j < CHUNK_AREA implies expanded@[j] == mark_row(
                                exp_run,
                                start as int,
                                x as int,
                                y + 1,
                            )[j] by {}
                        }
                    } else {
                        assert(expanded@ =~= exp_run);
                    }
                    assert(close_run(blocks, y as int, Some(start as int), x as int, exp_run, rs_run) == (
                    expanded@, rs_run.push(r)));
                    if x < CHUNK_SIZE {
                        assert(!open_at(blocks, expanded@, x as int, y as int)) by {
                            assert(marked(expanded@, x as int, y as int) == marked(exp_run, x as int, y as int));
                        }
                    }
                }
                proof {
                    lemma_covered_push(rs@, r);
                    assert forall|px: int, py: int| region_contains(r, px, py) implies !covered(
                        rs@,
                        px,
                        py,
                    ) by {
                        assert(start <= px < x);
                    }
                    lemma_disjoint_push(rs@, r);
                }
                rs.push(r);
            }
        }
        y = y + 1;
    }
    rs
}

/// A region moved by `(dx, dy)`.
pub open spec fn shifted(r: Region, dx: int, dy: int) -> Region {
    Region { x: (r.x + dx) as i32, y: (r.y + dy) as i32, width: r.width, height: r.height }
}

proof fn lemma_shift_mesh(local: Seq<Region>, out: Seq<Region>, blocks: Seq<Block>, ox: int, oy: int)
    requires
        is_chunk_mesh(local, blocks, 0, 0),
        out.len() == local.len(),
        0 <= ox <= 1000,
        0 <= oy <= 1000,
        forall|j: int| 0 <= j < out.len() ==> out[j] == shifted(local[j], ox, oy),
    ensures
        is_chunk_mesh(out, blocks, ox, oy),
{
    assert forall|j: int| 0 <= j < out.len() implies region_in_chunk(#[trigger] out[j], ox, oy) by {
        assert(region_in_chunk(local[j], 0, 0));
    }
    assert forall|j: int, x: int, y: int| 0 <= j < out.len() implies #[trigger] region_contains(
        out[j],
        x,
        y,
    ) == region_contains(local[j], x - ox, y - oy) by {
        assert(region_in_chunk(local[j], 0, 0));
    }
    assert forall|x: int, y: int| 0 <= x < CHUNK_SIZE && 0 <= y < CHUNK_SIZE implies (covered(
        out,
        ox + x,
        oy + y,
    ) <==> #[trigger] solid_at(blocks, x, y)) by {
        if covered(out, ox + x, oy + y) {
            let i = choose|i: int| 0 <= i < out.len() && region_contains(out[i], ox + x, oy + y);
            assert(region_contains(local[i], x, y));
        }
        if covered(local, x, y) {
            let i = choose|i: int| 0 <= i < local.len() && region_contains(local[i], x, y);
            assert(region_contains(out[i], ox + x, oy + y));
        }
    }
    assert forall|i: int, j: int, x: int, y: int|
        0 <= i < out.len() && 0 <= j < out.len() && i != j && #[trigger] region_contains(out[i], x, y)
            implies !#[trigger] region_contains(out[j], x, y) by {
        assert(region_contains(local[i], x - ox, y - oy));
    }
}

/// The collision mesh of one chunk, in world block coordinates: regions inside
/// the chunk that cover exactly its solid cells, none overlapping another.
pub fn mesh_chunk(chunk_pos: ChunkPos, chunk_data: &ChunkData) -> (rs: Vec<Region>)
    requires
        chunk_in_bounds(chunk_pos),
        chunk_data.wf(),
    ensures
        rs@ == chunk_mesh(chunk_pos, chunk_data@.blocks),
        is_chunk_mesh(rs@, chunk_data@.blocks, chunk_origin(chunk_pos).0, chunk_origin(chunk_pos).1),
{
    let local = mesh_local(chunk_data);
    let ox = CHUNK_SIZE * chunk_pos.x;
    let oy = CHUNK_SIZE * chunk_pos.y;
    let mut out: Vec<Region> = Vec::new();
    let mut i: usize = 0;
    while i < local.len()
        invariant
            i <= local@.len(),
            is_chunk_mesh(local@, chunk_data@.blocks, 0, 0),
            0 <= ox <= 1000,
            0 <= oy <= 1000,
            out@.len() == i,
            forall|j: int| 0 <= j < i ==> out@[j] == shifted(local@[j], ox as int, oy as int),
        decreases local@.len() - i,
    {
        let r = local[i];
        proof {
            assert(region_in_chunk(local@[i as int], 0, 0));
        }
        out.push(Region { x: r.x + ox, y: r.y + oy, width: r.width, height: r.height });
        i = i + 1;
    }
    proof {
        lemma_shift_mesh(local@, out@, chunk_data@.blocks, ox as int, oy as int);
        assert(out@ =~= chunk_mesh(chunk_pos, chunk_data@.blocks));
    }
    out
}

/// Some chunk of the index holds the region `g`.
pub open spec fn indexed_region(m: Map<ChunkPos, Seq<Region>>, g: Region) -> bool {
    exists|c: ChunkPos| #[trigger] m.dom().contains(c) && m[c].contains(g)
}

/// Some chunk of the index with grid index under `j` holds the region `g`.
spec fn indexed_before(m: Map<ChunkPos, Seq<Region>>, j: int, g: Region) -> bool {
    exists|c: ChunkPos| #[trigger] m.dom().contains(c) && chunk_index(c) < j && m[c].contains(g)
}

proof fn lemma_contains_push(s: Seq<Region>, x: Region)
    ensures
        forall|g: Region| #[trigger] s.push(x).contains(g) == (s.contains(g) || g == x),
{
    assert forall|g: Region| #[trigger] s.push(x).contains(g) == (s.contains(g) || g == x) by {
        let t = s.push(x);
        if t.contains(g) {
            let k = choose|k: int| 0 <= k < t.len() && t[k] == g;
            if k < s.len() {
                assert(s[k] == g);
            }
        }
        if s.contains(g) {
            let k = choose|k: int| 0 <= k < s.len() && s[k] == g;
            assert(t[k] == g);
        }
        if g == x {
            assert(t[s.len() as int] == g);
        }
    }
}

/// Per loaded chunk, the regions its solid blocks collide through.
pub struct Colls {
    entries: Vec<Option<Vec<Region>>>,
}

impl View for Colls {
    type V = Map<ChunkPos, Seq<Region>>;

    closed spec fn view(&self) -> Map<ChunkPos, Seq<Region>> {
        Map::new(
            |c: ChunkPos| chunk_in_bounds(c) && self.entries@[chunk_index(c)] is Some,
            |c: ChunkPos| self.entries@[chunk_index(c)].unwrap()@,
        )
    }
}

impl Colls {
    /// Only chunks of the world grid ever have an entry.
    pub proof fn lemma_entries_in_bounds(&self)
        ensures
            forall|c: ChunkPos| #[trigger] self@.dom().contains(c) ==> chunk_in_bounds(c),
    {
    }

    pub closed spec fn wf(&self) -> bool {
        self.entries@.len() == WORLD_CHUNK_COUNT
    }

    /// An index with no chunk in it.
    pub fn new() -> (r: Self)
        ensures
            r.wf(),
            r@ == Map::<ChunkPos, Seq<Region>>::empty(),
    {
        let mut entries: Vec<Option<Vec<Region>>> = Vec::new();
        let mut i: usize = 0;
        while i < WORLD_CHUNK_COUNT
            invariant
                i <= WORLD_CHUNK_COUNT,
                entries@.len() == i,
                forall|j: int| 0 <= j < i ==> entries@[j] is None,
            decreases WORLD_CHUNK_COUNT - i,
        {
            entries.push(None);
            i = i + 1;
        }
        let r = Colls { entries };
        proof {
            assert forall|c: ChunkPos| !r@.dom().contains(c) by {
                if chunk_in_bounds(c) {
                    lemma_chunk_index(c);
                }
            }
            assert(r@ =~= Map::<ChunkPos, Seq<Region>>::empty());
        }
        r
    }

    /// The regions of a chunk, if it is in the index.
    pub fn get(&self, chunk_pos: ChunkPos) -> (r: Option<&Vec<Region>>)
        requires
            self.wf(),
        ensures
            r.is_some() == self@.dom().contains(chunk_pos),
            r.is_some() ==> chunk_in_bounds(chunk_pos),
            r.is_some() ==> r.unwrap()@ == self@[chunk_pos],
    {
        if !chunk_pos.in_bounds() {
            return None;
        }
        proof {
            lemma_chunk_index(chunk_pos);
        }
        let ci = (chunk_pos.x + WORLD_CHUNKS_X * chunk_pos.y) as usize;
        match &self.entries[ci] {
            Some(v) => Some(v),
            None => None,
        }
    }

    proof fn lemma_set_entry(&self, other: &Self, chunk_pos: ChunkPos)
        requires
            self.wf(),
            other.wf(),
            chunk_in_bounds(chunk_pos),
            forall|j: int| 0 <= j < WORLD_CHUNK_COUNT && j != chunk_index(chunk_pos) ==> other.entries@[j] == self.entries@[j],
        ensures
            other@.remove(chunk_pos) == self@.remove(chunk_pos),
            other@.dom().contains(chunk_pos) == other.entries@[chunk_index(chunk_pos)] is Some,
            other@.dom().contains(chunk_pos) ==> other@[chunk_pos] == other.entries@[chunk_index(chunk_pos)].unwrap()@,
    {
        lemma_chunk_index(chunk_pos);
        assert forall|c: ChunkPos| chunk_in_bounds(c) && c != chunk_pos implies chunk_index(c) != chunk_index(chunk_pos) by {
            lemma_chunk_index(c);
        }
        assert(other@.remove(chunk_pos) =~= self@.remove(chunk_pos));
    }

    /// Meshes an in-bounds chunk and replaces its entry with the result; other
    /// chunks keep theirs. Off the grid nothing changes.
    pub fn add_colls(&mut self, chunk_pos: ChunkPos, chunk_data: &ChunkData)
        requires
            old(self).wf(),
            chunk_data.wf(),
        ensures
            final(self).wf(),
            !chunk_in_bounds(chunk_pos) ==> final(self)@ == old(self)@,
            chunk_in_bounds(chunk_pos) ==> final(self)@.dom() == old(self)@.dom().insert(chunk_pos)
                && final(self)@.remove(chunk_pos) == old(self)@.remove(chunk_pos) && final(self)@[chunk_pos]
                == chunk_mesh(chunk_pos, chunk_data@.blocks) && is_chunk_mesh(
                final(self)@[chunk_pos],
                chunk_data@.blocks,
                chunk_origin(chunk_pos).0,
                chunk_origin(chunk_pos).1,
            ),
    {
        if !chunk_pos.in_bounds() {
            return;
        }
        proof {
            lemma_chunk_index(chunk_pos);
        }
        let rs = mesh_chunk(chunk_pos, chunk_data);
        let ci = (chunk_pos.x + WORLD_CHUNKS_X * chunk_pos.y) as usize;
        let ghost before = *self;
        self.entries.set(ci, Some(rs));
        proof {
            before.lemma_set_entry(self, chunk_pos);
            assert(self@.dom() =~= before@.dom().insert(chunk_pos));
        }
    }

    /// Drops a chunk's entry; other chunks keep theirs.
    pub fn remove(&mut self, chunk_pos: ChunkPos)
        requires
            old(self).wf(),
        ensures
            final(self).wf(),
            final(self)@ == old(self)@.remove(chunk_pos),
    {
        if !chunk_pos.in_bounds() {
            proof {
                assert(self@ =~= self@.remove(chunk_pos));
            }
            return;
        }
        proof {
            lemma_chunk_index(chunk_pos);
        }
        let ci = (chunk_pos.x + WORLD_CHUNKS_X * chunk_pos.y) as usize;
        let ghost before = *self;
        self.entries.set(ci, None);
        proof {
            before.lemma_set_entry(self, chunk_pos);
            assert(self@ =~= before@.remove(chunk_pos));
        }
    }

    /// Drops every entry.
    pub fn clear(&mut self)
        requires
            old(self).wf(),
        ensures
            final(self).wf(),
            final(self)@ == Map::<ChunkPos, Seq<Region>>::empty(),
    {
        *self = Colls::new();
    }
}

impl Colls {
    /// Every region of every chunk in the index, for broad-phase collision checks.
    pub fn all_regions(&self) -> (r: Vec<Region>)
        requires
            self.wf(),
        ensures
            forall|g: Region| #[trigger] r@.contains(g) <==> indexed_region(self@, g),
    {
        let mut out: Vec<Region> = Vec::new();
        let mut j: usize = 0;
        while j < WORLD_CHUNK_COUNT
            invariant
                self.wf(),
                j <= WORLD_CHUNK_COUNT,
                forall|g: Region| #[trigger] out@.contains(g) <==> indexed_before(self@, j as int, g),
            decreases WORLD_CHUNK_COUNT - j,
        {
            let ghost cj = chunk_at_index(j as int);
            proof {
                lemma_chunk_at_index(j as int);
            }
            let ghost prev = out@;
            match &self.entries[j] {
                Some(v) => {
                    let mut k: usize = 0;
                    while k < v.len()
                        invariant
                            k <= v@.len(),
                            forall|g: Region|
                                #[trigger] out@.contains(g) <==> prev.contains(g) || v@.subrange(
                                    0,
                                    k as int,
                                ).contains(g),
                        decreases v@.len() - k,
                    {
                        proof {
                            lemma_contains_push(out@, v@[k as int]);
                            assert(v@.subrange(0, k + 1) == v@.subrange(0, k as int).push(v@[k as int]));
                            lemma_contains_push(v@.subrange(0, k as int), v@[k as int]);
                        }
                        out.push(v[k]);
                        k = k + 1;
                    }
                    proof {
                        assert(v@.subrange(0, v@.len() as int) == v@);
                        assert(self@.dom().contains(cj) && self@[cj] == v@);
                    }
                },
                None => {
                    proof {
                        assert(!self@.dom().contains(cj));
                    }
                },
            }
            proof {
                assert forall|g: Region| #[trigger] out@.contains(g) <==> indexed_before(self@, j + 1, g) by {
                    if indexed_before(self@, j + 1, g) {
                        let c = choose|c: ChunkPos| #[trigger] self@.dom().contains(c) && chunk_index(c) < j + 1 && self@[c].contains(g);
                        if chunk_index(c) == j {
                            lemma_chunk_index(c);
                        } else {
                            assert(indexed_before(self@, j as int, g));
                        }
                    }
                    if indexed_before(self@, j as int, g) {
                        let c = choose|c: ChunkPos| #[trigger] self@.dom().contains(c) && chunk_index(c) < j && self@[c].contains(g);
                        assert(indexed_before(self@, j + 1, g));
                    }
                    if out@.contains(g) && !prev.contains(g) {
                        assert(self@.dom().contains(cj) && chunk_index(cj) < j + 1 && self@[cj].contains(g));
                    }
                }
            }
            j = j + 1;
        }
        proof {
            assert forall|g: Region| #[trigger] out@.contains(g) <==> indexed_region(self@, g) by {
                if indexed_region(self@, g) {
                    let c = choose|c: ChunkPos| #[trigger] self@.dom().contains(c) && self@[c].contains(g);
                    lemma_chunk_index(c);
                    assert(indexed_before(self@, WORLD_CHUNK_COUNT as int, g));
                }
            }
        }
        out
    }
}

} // verus!
