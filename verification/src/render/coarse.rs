//! The coarse mesh of a chunk.

use crate::render::chunk::{ChunkKey, LodLevel, CHUNK_SIZE, LOD_FAR_STEP, LOD_MID_STEP};
use crate::render::face::{
    spec_quad, BlockSource, Direction, Levels, Quad, DIRECTION_COUNT,
};
use crate::render::lod::{
    aligned, all_proper, append_lod_cell, append_lod_fine_cell, covers_grid, grid_columns,
    lemma_cell_added, lemma_fine_added, lemma_prefix_contains, lemma_same_cell, lod_cell_is_mixed,
    near_enough, on_grid, sample_at, sample_surfaces, sampled, spec_mixed, surfaces_of, with_cell,
    with_fine, LodSurface, Surfaces,
};
use crate::render::mesh::{
    chunk_area, direction_place, is_exposed, lemma_air_has_no_faces, lemma_exposed,
    lemma_faces_held, lemma_quad_place, next_to, push_faces, region_quads, with_faces, VoxelMesh,
    LIGHT_HALO,
};
use crate::render::reach::GROUND_REACH;
use crate::render::snapshot::{
    columns_of, keeps_just, knows_within, lemma_cells_kept, lemma_keeps_just, lemma_only_kept,
    only_kept, world_cells, world_edits, Columns, Edited,
};
use crate::world::atlas::TileTable;
use crate::world::block::{Block, LIGHT_MAX};
use crate::world::column::{Y_MAX, Y_MIN};
use crate::world::column_map::ColumnMap;
use crate::world::forest::{in_order, last_grown, place_before};
use crate::world::generator::{inside, is_generated, tree_rules};
use crate::world::heights::HeightTable;
use crate::world::skylight::{Area, Cells};
use crate::world::tree::{
    forests_list_standing_trees, trees_have_a_trunk_and_a_crown, Placed, Tree,
};
use crate::world::voxel::{applied, layer, GeneratedVoxelWorld, VoxelWorld};
use vstd::prelude::*;

verus! {

/// Whether a cell of a chunk is partly fluid and partly land.
pub open spec fn is_shore(surfaces: Surfaces, area: Area, x: int, z: int, step: int) -> bool {
    area.has(x, z) && surfaces(x, z) is Some && spec_mixed(surfaces, x, z, step)
}

/// Whether a cell is drawn column by column: it or one of its four neighbours in the
/// chunk is partly fluid and partly land.
pub open spec fn is_fine(surfaces: Surfaces, area: Area, x: int, z: int, step: int) -> bool {
    ||| is_shore(surfaces, area, x, z, step)
    ||| is_shore(surfaces, area, x - step, z, step)
    ||| is_shore(surfaces, area, x + step, z, step)
    ||| is_shore(surfaces, area, x, z - step, step)
    ||| is_shore(surfaces, area, x, z + step, step)
}

/// Whether a cell lies at the border of its chunk.
pub open spec fn at_border(area: Area, x: int, z: int, step: int) -> bool {
    x == area.min_x || x + step > area.max_x || z == area.min_z || z + step > area.max_z
}

/// Faces, and after them those of a cell of a chunk.
pub open spec fn with_ground(
    had: Seq<Quad>,
    surfaces: Surfaces,
    area: Area,
    x: int,
    z: int,
    step: int,
) -> Seq<Quad> {
    match surfaces(x, z) {
        Some(surface) => if is_fine(surfaces, area, x, z, step) {
            with_fine(had, surfaces, x, z, step, step as nat)
        } else {
            with_cell(had, surfaces, surface, x, z, step, at_border(area, x, z, step))
        },
        None => had,
    }
}

/// Faces, and after them those of the first `n` cells of a row of a chunk.
pub open spec fn with_ground_row(
    had: Seq<Quad>,
    surfaces: Surfaces,
    area: Area,
    z: int,
    step: int,
    n: nat,
) -> Seq<Quad>
    decreases n,
{
    if n == 0 {
        had
    } else {
        with_ground(
            with_ground_row(had, surfaces, area, z, step, (n - 1) as nat),
            surfaces,
            area,
            area.min_x + (n - 1) * step,
            z,
            step,
        )
    }
}

/// The faces of the first `n` rows of cells of a chunk.
pub open spec fn ground_rows(
    surfaces: Surfaces,
    area: Area,
    step: int,
    across: nat,
    n: nat,
) -> Seq<Quad>
    decreases n,
{
    if n == 0 {
        Seq::empty()
    } else {
        with_ground_row(
            ground_rows(surfaces, area, step, across, (n - 1) as nat),
            surfaces,
            area,
            area.min_z + (n - 1) * step,
            step,
            across,
        )
    }
}

/// The cells of a chunk along each axis.
pub open spec fn cells_across(step: int) -> nat {
    if step == LOD_MID_STEP {
        16
    } else {
        8
    }
}

/// The grid that is sampled for a chunk: its cells and one more on each side.
pub open spec fn sample_corners(area: Area, step: int) -> ((int, int), (int, int)) {
    ((area.min_x - step, area.min_z - step), (area.max_x + step, area.max_z + step))
}

/// Whether a map holds the samples of a chunk.
spec fn samples_chunk(
    samples: &ColumnMap<LodSurface>,
    surfaces: Surfaces,
    area: Area,
    step: int,
) -> bool {
    let (from, to) = sample_corners(area, step);
    samples.wf() && all_proper(samples) && covers_grid(samples, surfaces, from, to, step)
}

/// Whether a cell belongs to a chunk.
pub open spec fn is_cell(area: Area, x: int, z: int, step: int) -> bool {
    area.has(x, z) && aligned(x - area.min_x, step) && aligned(z - area.min_z, step)
}

/// Whether a column is looked at for a cell of a chunk: where it is drawn column by column,
/// all of its columns are, and those around it.
pub open spec fn cell_asks(
    surfaces: Surfaces,
    area: Area,
    step: int,
    x: int,
    z: int,
    a: int,
    b: int,
) -> bool {
    surfaces(x, z) is Some && is_fine(surfaces, area, x, z, step) && x - 1 <= a <= x + step && z - 1
        <= b <= z + step
}

/// The columns that are looked at for the cells of a chunk up to a row and, in that row,
/// up to a column.
spec fn ground_until(
    surfaces: Surfaces,
    area: Area,
    step: int,
    row: int,
    column: int,
) -> Columns {
    |a: int, b: int|
        exists|x: int, z: int|
            is_cell(area, x, z, step) && (z < row || (z == row && x < column))
                && #[trigger] cell_asks(surfaces, area, step, x, z, a, b)
}

/// The columns that are looked at for the cells of a chunk.
pub open spec fn ground_columns(surfaces: Surfaces, area: Area, step: int) -> Columns {
    |a: int, b: int|
        exists|x: int, z: int|
            is_cell(area, x, z, step) && #[trigger] cell_asks(surfaces, area, step, x, z, a, b)
}

/// Whether a column is looked at for a tree block: its own is where it has no edit, and
/// where the block still stands, those around it are too.
pub open spec fn block_asks(
    cells: Cells,
    edits: Edited,
    area: Area,
    placed: Placed,
    a: int,
    b: int,
) -> bool {
    let x = placed.0 as int;
    let y = placed.1 as int;
    let z = placed.2 as int;
    &&& area.has(x, z)
    &&& layer(y)
    &&& (a == x && b == z && edits(x, y, z) is None) || (cells(x, y, z) == placed.3 && x - 1 <= a
        <= x + 1 && z - 1 <= b <= z + 1)
}

/// The columns that are looked at for one tree block.
spec fn block_columns(cells: Cells, edits: Edited, area: Area, placed: Placed) -> Columns {
    |a: int, b: int| block_asks(cells, edits, area, placed, a, b)
}

/// The columns that are looked at for the first `n` of a list of tree blocks.
pub open spec fn tree_columns(
    cells: Cells,
    edits: Edited,
    area: Area,
    trees: Seq<Placed>,
    n: int,
) -> Columns {
    |a: int, b: int|
        exists|i: int| 0 <= i < n && block_asks(cells, edits, area, #[trigger] trees[i], a, b)
}

/// The columns that are looked at for the coarse mesh of a chunk.
pub open spec fn coarse_columns(
    cells: Cells,
    edits: Edited,
    seed: u64,
    ground: &HeightTable,
    area: Area,
    step: int,
) -> Columns {
    let (from, to) = sample_corners(area, step);
    let trees = chunk_trees(seed, ground, area);
    |a: int, b: int|
        {
            ||| grid_columns(from, to, step)(a, b)
            ||| ground_columns(surfaces_of(cells), area, step)(a, b)
            ||| tree_columns(cells, edits, area, trees, trees.len() as int)(a, b)
        }
}

/// The columns that are looked at for the mesh of a chunk at a level of detail.
#[verifier::opaque]
pub open spec fn chunk_columns(
    cells: Cells,
    edits: Edited,
    seed: u64,
    ground: &HeightTable,
    key: ChunkKey,
    lod: LodLevel,
) -> Columns {
    match lod {
        LodLevel::Near => columns_of(chunk_area(key).grown(LIGHT_HALO as int)),
        _ => coarse_columns(cells, edits, seed, ground, chunk_area(key), lod.spec_step() as int),
    }
}

/// One cell more has been looked at.
proof fn lemma_next_cell(
    surfaces: Surfaces,
    area: Area,
    step: int,
    x: int,
    z: int,
)
    requires
        step == LOD_MID_STEP || step == LOD_FAR_STEP,
        is_cell(area, x, z, step),
    ensures
        forall|a: i64, b: i64| #[trigger]
            ground_until(surfaces, area, step, z, x + step)(a as int, b as int) == (ground_until(
                surfaces,
                area,
                step,
                z,
                x,
            )(a as int, b as int) || cell_asks(surfaces, area, step, x, z, a as int, b as int)),
{
    assert forall|a: i64, b: i64| #[trigger]
        ground_until(surfaces, area, step, z, x + step)(a as int, b as int) == (ground_until(
            surfaces,
            area,
            step,
            z,
            x,
        )(a as int, b as int) || cell_asks(surfaces, area, step, x, z, a as int, b as int)) by {
        let a = a as int;
        let b = b as int;
        if ground_until(surfaces, area, step, z, x + step)(a, b) {
            let (c, d) = choose|c: int, d: int|
                is_cell(area, c, d, step) && (d < z || (d == z && c < x + step))
                    && #[trigger] cell_asks(surfaces, area, step, c, d, a, b);
            if !(d < z || c < x) {
                assert(c == x);
            }
        }
        if ground_until(surfaces, area, step, z, x)(a, b) {
            let (c, d) = choose|c: int, d: int|
                is_cell(area, c, d, step) && (d < z || (d == z && c < x))
                    && #[trigger] cell_asks(surfaces, area, step, c, d, a, b);
            assert(cell_asks(surfaces, area, step, c, d, a, b));
        }
    }
}

/// After the cells of a row come those of the next.
#[verifier::rlimit(40)]
proof fn lemma_next_row(surfaces: Surfaces, area: Area, step: int, z: int, end: int)
    requires
        step == LOD_MID_STEP || step == LOD_FAR_STEP,
        area.min_z <= z,
        aligned(z - area.min_z, step),
        end > area.max_x,
    ensures
        ground_until(surfaces, area, step, z, end) == ground_until(
            surfaces,
            area,
            step,
            z + step,
            area.min_x,
        ),
{
    let done = ground_until(surfaces, area, step, z, end);
    let next = ground_until(surfaces, area, step, z + step, area.min_x);
    assert forall|a: int, b: int| #[trigger] done(a, b) == next(a, b) by {
        if done(a, b) {
            let (c, d) = choose|c: int, d: int|
                is_cell(area, c, d, step) && (d < z || (d == z && c < end))
                    && #[trigger] cell_asks(surfaces, area, step, c, d, a, b);
            assert(cell_asks(surfaces, area, step, c, d, a, b));
        }
        if next(a, b) {
            let (c, d) = choose|c: int, d: int|
                is_cell(area, c, d, step) && (d < z + step || (d == z + step && c < area.min_x))
                    && #[trigger] cell_asks(surfaces, area, step, c, d, a, b);
            lemma_no_row_between(z - area.min_z, d - area.min_z, step);
            assert(cell_asks(surfaces, area, step, c, d, a, b));
        }
    }
    assert(done =~= next);
}

proof fn lemma_no_row_between(a: int, b: int, step: int)
    requires
        step == LOD_MID_STEP || step == LOD_FAR_STEP,
        aligned(a, step),
        aligned(b, step),
        b < a + step,
    ensures
        b <= a,
{
}

proof fn lemma_no_cell_yet(surfaces: Surfaces, area: Area, step: int)
    ensures
        forall|a: int, b: int|
            !(#[trigger] ground_until(surfaces, area, step, area.min_z, area.min_x)(a, b)),
{
}

proof fn lemma_all_cells(surfaces: Surfaces, area: Area, step: int, row: int)
    requires
        row > area.max_z,
    ensures
        ground_until(surfaces, area, step, row, area.min_x) == ground_columns(
            surfaces,
            area,
            step,
        ),
{
    let done = ground_until(surfaces, area, step, row, area.min_x);
    let all = ground_columns(surfaces, area, step);
    assert forall|a: int, b: int| #[trigger] done(a, b) == all(a, b) by {
        if all(a, b) {
            let (c, d) = choose|c: int, d: int|
                is_cell(area, c, d, step) && #[trigger] cell_asks(
                    surfaces,
                    area,
                    step,
                    c,
                    d,
                    a,
                    b,
                );
            assert(cell_asks(surfaces, area, step, c, d, a, b));
        }
    }
    assert(done =~= all);
}

/// The samples at the corners and around a cell of a chunk are those of its columns.
proof fn lemma_corner_sampled(
    samples: &ColumnMap<LodSurface>,
    surfaces: Surfaces,
    key: ChunkKey,
    step: int,
    x: int,
    z: int,
)
    requires
        samples_chunk(samples, surfaces, chunk_area(key), step),
        step == LOD_MID_STEP || step == LOD_FAR_STEP,
        chunk_area(key).min_x - step <= x <= chunk_area(key).max_x + step,
        chunk_area(key).min_z - step <= z <= chunk_area(key).max_z + step,
        aligned(x - chunk_area(key).min_x, step),
        aligned(z - chunk_area(key).min_z, step),
    ensures
        sampled(samples)(x, z) == surfaces(x, z),
{
    let area = chunk_area(key);
    let (from, to) = sample_corners(area, step);
    assert(on_grid(x, from.0, to.0, step));
    assert(on_grid(z, from.1, to.1, step));
    assert(sampled(samples)((x as i64) as int, (z as i64) as int) == surfaces(
        (x as i64) as int,
        (z as i64) as int,
    ));
}

proof fn lemma_shore_sampled(
    samples: &ColumnMap<LodSurface>,
    surfaces: Surfaces,
    key: ChunkKey,
    step: int,
    x: int,
    z: int,
)
    requires
        samples_chunk(samples, surfaces, chunk_area(key), step),
        step == LOD_MID_STEP || step == LOD_FAR_STEP,
        is_cell(chunk_area(key), x, z, step),
    ensures
        sampled(samples)(x, z) == surfaces(x, z),
        spec_mixed(sampled(samples), x, z, step) == spec_mixed(surfaces, x, z, step),
{
    lemma_corner_sampled(samples, surfaces, key, step, x, z);
    lemma_corner_sampled(samples, surfaces, key, step, x + step, z);
    lemma_corner_sampled(samples, surfaces, key, step, x, z + step);
    lemma_corner_sampled(samples, surfaces, key, step, x + step, z + step);
}

fn shore(
    samples: &ColumnMap<LodSurface>,
    key: ChunkKey,
    step: i64,
    x: i64,
    z: i64,
    Ghost(surfaces): Ghost<Surfaces>,
) -> (r: bool)
    requires
        samples_chunk(samples, surfaces, chunk_area(key), step as int),
        step == LOD_MID_STEP || step == LOD_FAR_STEP,
        aligned(x - chunk_area(key).min_x, step as int),
        aligned(z - chunk_area(key).min_z, step as int),
    ensures
        r == is_shore(surfaces, chunk_area(key), x as int, z as int, step as int),
{
    if x < key.min_x() || x > key.max_x() || z < key.min_z() || z > key.max_z() {
        return false;
    }
    proof {
        lemma_shore_sampled(samples, surfaces, key, step as int, x as int, z as int);
    }
    sample_at(samples, x, z).is_some() && lod_cell_is_mixed(samples, x, z, step)
}

fn fine(
    samples: &ColumnMap<LodSurface>,
    key: ChunkKey,
    step: i64,
    x: i64,
    z: i64,
    Ghost(surfaces): Ghost<Surfaces>,
) -> (r: bool)
    requires
        samples_chunk(samples, surfaces, chunk_area(key), step as int),
        step == LOD_MID_STEP || step == LOD_FAR_STEP,
        is_cell(chunk_area(key), x as int, z as int, step as int),
    ensures
        r == is_fine(surfaces, chunk_area(key), x as int, z as int, step as int),
{
    shore(samples, key, step, x, z, Ghost(surfaces)) || shore(
        samples,
        key,
        step,
        x - step,
        z,
        Ghost(surfaces),
    ) || shore(samples, key, step, x + step, z, Ghost(surfaces)) || shore(
        samples,
        key,
        step,
        x,
        z - step,
        Ghost(surfaces),
    ) || shore(samples, key, step, x, z + step, Ghost(surfaces))
}

/// Adds the faces of a cell of a chunk that one surface stands for.
fn push_plain(
    mesh: &mut VoxelMesh,
    samples: &ColumnMap<LodSurface>,
    key: ChunkKey,
    step: i64,
    at: (i64, i64),
    surface: LodSurface,
    boundary: bool,
    tiles: &TileTable,
    Ghost(surfaces): Ghost<Surfaces>,
)
    requires
        tiles.wf(),
        samples_chunk(samples, surfaces, chunk_area(key), step as int),
        step == LOD_MID_STEP || step == LOD_FAR_STEP,
        is_cell(chunk_area(key), at.0 as int, at.1 as int, step as int),
        crate::render::lod::is_proper(surface),
    ensures
        forall|had: Seq<Quad>| #[trigger]
            old(mesh).holds(had) ==> final(mesh).holds(
                with_cell(
                    had,
                    surfaces,
                    surface,
                    at.0 as int,
                    at.1 as int,
                    step as int,
                    boundary,
                ),
            ),
{
    proof {
        mesh.lemma_holds();
    }
    append_lod_cell(mesh, samples, surface, at.0, at.1, step, boundary, tiles);
    proof {
        mesh.lemma_holds();
        let x = at.0 as int;
        let z = at.1 as int;
        lemma_corner_sampled(samples, surfaces, key, step as int, x + step, z);
        lemma_corner_sampled(samples, surfaces, key, step as int, x - step, z);
        lemma_corner_sampled(samples, surfaces, key, step as int, x, z + step);
        lemma_corner_sampled(samples, surfaces, key, step as int, x, z - step);
        assert forall|had: Seq<Quad>| #[trigger] old(mesh).holds(had) implies mesh.holds(
            with_cell(had, surfaces, surface, x, z, step as int, boundary),
        ) by {
            lemma_same_cell(
                had,
                sampled(samples),
                surfaces,
                surface,
                x,
                z,
                step as int,
                boundary,
            );
        }
    }
}

/// Adds the faces of a cell of a chunk.
fn push_ground(
    mesh: &mut VoxelMesh,
    world: &mut GeneratedVoxelWorld,
    samples: &ColumnMap<LodSurface>,
    key: ChunkKey,
    step: i64,
    x: i64,
    z: i64,
    tiles: &TileTable,
)
    requires
        old(world).wf(),
        is_mapped(&old(world).ground(), key),
        tiles.wf(),
        samples_chunk(
            samples,
            surfaces_of(world_cells(old(world))),
            chunk_area(key),
            step as int,
        ),
        step == LOD_MID_STEP || step == LOD_FAR_STEP,
        is_cell(chunk_area(key), x as int, z as int, step as int),
    ensures
        only_kept(old(world), final(world)),
        keeps_just(
            old(world),
            final(world),
            |a: int, b: int|
                cell_asks(
                    surfaces_of(world_cells(old(world))),
                    chunk_area(key),
                    step as int,
                    x as int,
                    z as int,
                    a,
                    b,
                ),
        ),
        forall|had: Seq<Quad>| #[trigger]
            old(mesh).holds(had) ==> final(mesh).holds(
                with_ground(
                    had,
                    surfaces_of(world_cells(old(world))),
                    chunk_area(key),
                    x as int,
                    z as int,
                    step as int,
                ),
            ),
{
    let ghost surfaces = surfaces_of(world_cells(old(world)));
    proof {
        world.lemma_keeps_itself();
        lemma_corner_sampled(samples, surfaces, key, step as int, x as int, z as int);
    }
    match sample_at(samples, x, z) {
        Some(surface) => {
            let is_fine_cell = fine(samples, key, step, x, z, Ghost(surfaces));
            if is_fine_cell {
                proof {
                    lemma_mapped(world, key);
                    mesh.lemma_holds();
                }
                append_lod_fine_cell(mesh, world, x, z, step, tiles);
                proof {
                    mesh.lemma_holds();
                }
            } else {
                let boundary = x == key.min_x() || x + step > key.max_x() || z == key.min_z() || z
                    + step > key.max_z();
                proof {
                    let has = samples.has(x, z);
                }
                push_plain(
                    mesh,
                    samples,
                    key,
                    step,
                    (x, z),
                    surface,
                    boundary,
                    tiles,
                    Ghost(surfaces),
                );
            }
        },
        None => {},
    }
}

/// Where a cell of a chunk begins along an axis.
fn cell_start(min: i64, n: i64, step: i64) -> (r: i64)
    requires
        step == LOD_MID_STEP || step == LOD_FAR_STEP,
        0 <= n < cells_across(step as int),
        min <= i64::MAX - CHUNK_SIZE,
    ensures
        r == min + n * step,
        min <= r < min + CHUNK_SIZE,
        aligned(r - min, step as int),
{
    if step == LOD_MID_STEP {
        assert(n * step == n * 2) by (nonlinear_arith)
            requires
                step == 2,
        ;
        min + n * 2
    } else {
        assert(n * step == n * 4) by (nonlinear_arith)
            requires
                step == 4,
        ;
        min + n * 4
    }
}

/// Adds the faces of a row of cells of a chunk.
fn push_ground_row(
    mesh: &mut VoxelMesh,
    world: &mut GeneratedVoxelWorld,
    samples: &ColumnMap<LodSurface>,
    key: ChunkKey,
    step: i64,
    z: i64,
    tiles: &TileTable,
)
    requires
        old(world).wf(),
        is_mapped(&old(world).ground(), key),
        tiles.wf(),
        samples_chunk(
            samples,
            surfaces_of(world_cells(old(world))),
            chunk_area(key),
            step as int,
        ),
        step == LOD_MID_STEP || step == LOD_FAR_STEP,
        is_cell(chunk_area(key), chunk_area(key).min_x, z as int, step as int),
    ensures
        only_kept(old(world), final(world)),
        forall|first: &GeneratedVoxelWorld|
            keeps_just(
                first,
                old(world),
                ground_until(
                    surfaces_of(world_cells(old(world))),
                    chunk_area(key),
                    step as int,
                    z as int,
                    chunk_area(key).min_x,
                ),
            ) ==> #[trigger] keeps_just(
                first,
                final(world),
                ground_until(
                    surfaces_of(world_cells(old(world))),
                    chunk_area(key),
                    step as int,
                    z + step,
                    chunk_area(key).min_x,
                ),
            ),
        forall|had: Seq<Quad>| #[trigger]
            old(mesh).holds(had) ==> final(mesh).holds(
                with_ground_row(
                    had,
                    surfaces_of(world_cells(old(world))),
                    chunk_area(key),
                    z as int,
                    step as int,
                    cells_across(step as int),
                ),
            ),
{
    let ghost surfaces = surfaces_of(world_cells(old(world)));
    let ghost area = chunk_area(key);
    proof {
        world.lemma_keeps_itself();
    }
    let across: i64 = if step == LOD_MID_STEP { 16 } else { 8 };
    let min_x: i64 = key.min_x();
    let mut n: i64 = 0;
    while n < across
        invariant
            0 <= n <= across,
            across == cells_across(step as int),
            min_x == area.min_x,
            area == chunk_area(key),
            tiles.wf(),
            surfaces == surfaces_of(world_cells(old(world))),
            samples_chunk(samples, surfaces, area, step as int),
            step == LOD_MID_STEP || step == LOD_FAR_STEP,
            is_cell(area, area.min_x, z as int, step as int),
            only_kept(old(world), world),
            is_mapped(&old(world).ground(), key),
            world_cells(world) == world_cells(old(world)),
            forall|first: &GeneratedVoxelWorld|
                keeps_just(
                    first,
                    old(world),
                    ground_until(surfaces, area, step as int, z as int, area.min_x),
                ) ==> #[trigger] keeps_just(
                    first,
                    world,
                    ground_until(surfaces, area, step as int, z as int, area.min_x + n * step),
                ),
            forall|had: Seq<Quad>| #[trigger]
                old(mesh).holds(had) ==> mesh.holds(
                    with_ground_row(had, surfaces, area, z as int, step as int, n as nat),
                ),
        decreases across - n,
    {
        let ghost before = *world;
        let x: i64 = cell_start(min_x, n, step);
        assert(is_cell(area, x as int, z as int, step as int));
        push_ground(mesh, world, samples, key, step, x, z, tiles);
        proof {
            lemma_only_kept(old(world), &before, world);
            lemma_next_cell(surfaces, area, step as int, x as int, z as int);
            assert(area.min_x + (n + 1) * step == x + step) by (nonlinear_arith)
                requires
                    x == area.min_x + n * step,
            ;
            assert forall|first: &GeneratedVoxelWorld|
                keeps_just(
                    first,
                    old(world),
                    ground_until(surfaces, area, step as int, z as int, area.min_x),
                ) implies #[trigger] keeps_just(
                first,
                world,
                ground_until(surfaces, area, step as int, z as int, area.min_x + (n + 1) * step),
            ) by {
                lemma_keeps_just(
                    first,
                    &before,
                    world,
                    ground_until(surfaces, area, step as int, z as int, x as int),
                    |a: int, b: int|
                        cell_asks(surfaces, area, step as int, x as int, z as int, a, b),
                    ground_until(surfaces, area, step as int, z as int, x + step),
                );
            }
        }
        n += 1;
    }    proof {
        assert(across * step == CHUNK_SIZE) by (nonlinear_arith)
            requires
                (across == 16 && step == 2) || (across == 8 && step == 4),
        ;
        lemma_next_row(surfaces, area, step as int, z as int, area.min_x + n * step);
    }
}

/// Adds the faces of the ground of a chunk.
fn push_ground_rows(
    world: &mut GeneratedVoxelWorld,
    samples: &ColumnMap<LodSurface>,
    key: ChunkKey,
    step: i64,
    tiles: &TileTable,
) -> (r: VoxelMesh)
    requires
        old(world).wf(),
        is_mapped(&old(world).ground(), key),
        tiles.wf(),
        samples_chunk(
            samples,
            surfaces_of(world_cells(old(world))),
            chunk_area(key),
            step as int,
        ),
        step == LOD_MID_STEP || step == LOD_FAR_STEP,
    ensures
        only_kept(old(world), final(world)),
        keeps_just(
            old(world),
            final(world),
            ground_columns(
                surfaces_of(world_cells(old(world))),
                chunk_area(key),
                step as int,
            ),
        ),
        r.holds(
            ground_rows(
                surfaces_of(world_cells(old(world))),
                chunk_area(key),
                step as int,
                cells_across(step as int),
                cells_across(step as int),
            ),
        ),
{
    let ghost surfaces = surfaces_of(world_cells(old(world)));
    let ghost area = chunk_area(key);
    proof {
        world.lemma_keeps_itself();
    }
    let mut mesh = VoxelMesh::new();
    let across: i64 = if step == LOD_MID_STEP { 16 } else { 8 };
    let min_z: i64 = key.min_z();
    let mut n: i64 = 0;
    proof {
        assert(min_z + 0 * step == min_z);
        lemma_no_cell_yet(surfaces, area, step as int);
    }
    while n < across
        invariant
            0 <= n <= across,
            across == cells_across(step as int),
            min_z == area.min_z,
            area == chunk_area(key),
            tiles.wf(),
            surfaces == surfaces_of(world_cells(old(world))),
            samples_chunk(samples, surfaces, area, step as int),
            step == LOD_MID_STEP || step == LOD_FAR_STEP,
            only_kept(old(world), world),
            is_mapped(&old(world).ground(), key),
            world_cells(world) == world_cells(old(world)),
            keeps_just(
                old(world),
                world,
                ground_until(surfaces, area, step as int, min_z + n * step, area.min_x),
            ),
            mesh.holds(ground_rows(surfaces, area, step as int, across as nat, n as nat)),
        decreases across - n,
    {
        let ghost before = *world;
        let z: i64 = cell_start(min_z, n, step);
        assert(is_cell(area, area.min_x, z as int, step as int)) by {
            assert(aligned(0, step as int));
        }
        push_ground_row(&mut mesh, world, samples, key, step, z, tiles);
        proof {
            lemma_only_kept(old(world), &before, world);
            assert(min_z + (n + 1) * step == z + step) by (nonlinear_arith)
                requires
                    z == min_z + n * step,
            ;
            assert(keeps_just(
                old(world),
                world,
                ground_until(surfaces, area, step as int, z + step, area.min_x),
            ));
        }
        n += 1;
    }
    proof {
        assert(across * step == CHUNK_SIZE) by (nonlinear_arith)
            requires
                (across == 16 && step == 2) || (across == 8 && step == 4),
        ;
        lemma_all_cells(surfaces, area, step as int, min_z + n * step);
    }
    mesh
}

/// Full sky light everywhere.
pub open spec fn full_sky() -> Levels {
    |x: int, y: int, z: int| LIGHT_MAX
}

/// A world that is only looked at, under a full sky.
pub struct WorldView<'a> {
    world: &'a GeneratedVoxelWorld,
}

impl<'a> WorldView<'a> {
    /// The world that is looked at.
    pub closed spec fn spec_world(&self) -> &GeneratedVoxelWorld {
        self.world
    }

    /// Looks at a world.
    pub fn new(world: &'a GeneratedVoxelWorld) -> (r: WorldView<'a>)
        ensures
            r.spec_world() == world,
    {
        WorldView { world }
    }

    /// The block at a position. Nothing is kept.
    fn peek(&self, x: i64, y: i64, z: i64) -> (r: Block)
        requires
            self.world.wf(),
            self.world.knows(x, z),
            inside(x as int),
            inside(z as int),
        ensures
            r == self.world.content(x, y as int, z),
    {
        if y < Y_MIN || y > Y_MAX {
            return Block::Air;
        }
        match self.world.edited_block(x, y, z) {
            Some(block) => block,
            None => match self.world.kept_block(x, y, z) {
                Some(block) => block,
                None => self.world.base_column(x, z).get(y),
            },
        }
    }
}

impl<'a> VoxelWorld for WorldView<'a> {
    open spec fn cell(&self, x: i64, y: i64, z: i64) -> Block {
        self.spec_world().content(x, y as int, z)
    }

    open spec fn valid(&self) -> bool {
        self.spec_world().wf()
    }

    open spec fn known(&self, x: i64, z: i64) -> bool {
        self.spec_world().knows(x, z)
    }

    open spec fn asked_since(&self, before: &WorldView<'a>) -> bool {
        self.spec_world() == before.spec_world()
    }

    fn block_at(&mut self, x: i64, y: i64, z: i64) -> (r: Block) {
        self.peek(x, y, z)
    }
}

impl<'a> BlockSource for WorldView<'a> {
    open spec fn cells(&self) -> Cells {
        world_cells(self.spec_world())
    }

    open spec fn sky(&self) -> Levels {
        full_sky()
    }

    open spec fn covers(&self, x: int, z: int) -> bool {
        self.spec_world().wf() && inside(x) && inside(z) && self.spec_world().knows(
            x as i64,
            z as i64,
        )
    }

    fn block(&mut self, x: i64, y: i64, z: i64) -> (r: Block) {
        self.peek(x, y, z)
    }

    fn light(&mut self, x: i64, y: i64, z: i64) -> (r: u8) {
        LIGHT_MAX
    }
}

/// Whether the heights on which the mesh of a chunk depends have been sampled.
pub open spec fn is_mapped(ground: &HeightTable, key: ChunkKey) -> bool {
    let area = chunk_area(key).grown(GROUND_REACH as int);
    ground.covers(area.min_x, area.max_x, area.min_z, area.max_z)
}

/// Where heights have been sampled, the columns within the reach of light are known.
pub proof fn lemma_mapped(world: &GeneratedVoxelWorld, key: ChunkKey)
    requires
        is_mapped(&world.ground(), key),
    ensures
        knows_within(world, chunk_area(key).grown(LIGHT_HALO as int)),
{
    let area = chunk_area(key).grown(LIGHT_HALO as int);
    assert forall|x: i64, z: i64|
        area.min_x <= x <= area.max_x && area.min_z <= z
            <= area.max_z implies #[trigger] world.knows(
        x,
        z,
    ) by {
        assert(world.surveyed(x, z));
    }
}

/// The first `n` columns of the nine around a column, itself included.
spec fn first_around(x: int, z: int, n: int) -> Columns {
    |a: int, b: int|
        x - 1 <= a <= x + 1 && z - 1 <= b <= z + 1 && (b - z + 1) * 3 + (a - x + 1) < n
}

/// Keeps a column and those around it.
fn keep_around(world: &mut GeneratedVoxelWorld, x: i64, z: i64)
    requires
        old(world).wf(),
        old(world).knows_area(x - 1, x + 1, z - 1, z + 1),
        near_enough(x as int),
        near_enough(z as int),
    ensures
        only_kept(old(world), final(world)),
        keeps_just(
            old(world),
            final(world),
            |a: int, b: int| x - 1 <= a <= x + 1 && z - 1 <= b <= z + 1,
        ),
{
    proof {
        world.lemma_keeps_itself();
    }
    let mut n: i64 = 0;
    while n < 9
        invariant
            0 <= n <= 9,
            near_enough(x as int),
            near_enough(z as int),
            only_kept(old(world), world),
            keeps_just(old(world), world, first_around(x as int, z as int, n as int)),
            old(world).knows_area(x - 1, x + 1, z - 1, z + 1),
        decreases 9 - n,
    {
        let ghost before = *world;
        proof {
            world.lemma_knows_more(old(world));
            assert(old(world).knows((x - 1 + n % 3) as i64, (z - 1 + n / 3) as i64));
        }
        world.keep_column(x - 1 + n % 3, z - 1 + n / 3);
        proof {
            lemma_only_kept(old(world), &before, world);
            lemma_keeps_just(
                old(world),
                &before,
                world,
                first_around(x as int, z as int, n as int),
                |a: int, b: int| a == x - 1 + n % 3 && b == z - 1 + n / 3,
                first_around(x as int, z as int, n + 1),
            );
        }
        n += 1;
    }
}

/// Whether a list holds the blocks of trees, in order.
pub open spec fn lists_trees(list: Seq<Placed>, trees: Seq<Tree>) -> bool {
    &&& in_order(list)
    &&& forall|x: i64, y: i64, z: i64, b: Block| #[trigger]
        list.contains((x, y, z, b)) <==> last_grown(trees, x as int, y as int, z as int) == Some(b)
}

/// The blocks of trees, in order.
pub open spec fn blocks_of(trees: Seq<Tree>) -> Seq<Placed> {
    choose|list: Seq<Placed>| lists_trees(list, trees)
}

/// The trees that can reach a chunk.
pub open spec fn chunk_forest(seed: u64, ground: &HeightTable, area: Area) -> Seq<Tree> {
    tree_rules(seed).forest(
        ground,
        area.min_x - 2,
        area.max_x + 3,
        area.min_z - 2,
        area.max_z + 3,
    )
}

/// The blocks of the trees that can reach a chunk, in order.
pub open spec fn chunk_trees(seed: u64, ground: &HeightTable, area: Area) -> Seq<Placed> {
    blocks_of(chunk_forest(seed, ground, area))
}

/// Faces, and after them those of the first `n` of a list of tree blocks: of those
/// that belong to a chunk and still stand.
pub open spec fn with_trees(
    had: Seq<Quad>,
    cells: Cells,
    area: Area,
    list: Seq<Placed>,
    n: nat,
) -> Seq<Quad>
    decreases n,
{
    if n == 0 {
        had
    } else {
        let before = with_trees(had, cells, area, list, (n - 1) as nat);
        let (x, y, z, block) = list[n - 1];
        if area.has(x as int, z as int) && cells(x as int, y as int, z as int) == block {
            with_faces(
                before,
                cells,
                full_sky(),
                x as int,
                y as int,
                z as int,
                DIRECTION_COUNT as nat,
            )
        } else {
            before
        }
    }
}

/// The coarse mesh of a chunk: its ground, and the trees that still stand, in full.
pub open spec fn coarse_quads(
    cells: Cells,
    seed: u64,
    ground: &HeightTable,
    area: Area,
    step: int,
) -> Seq<Quad> {
    let trees = chunk_trees(seed, ground, area);
    with_trees(
        ground_rows(surfaces_of(cells), area, step, cells_across(step), cells_across(step)),
        cells,
        area,
        trees,
        trees.len(),
    )
}

/// Adds the exposed faces of a tree block that still stands in a chunk.
fn push_tree_block(
    mesh: &mut VoxelMesh,
    world: &mut GeneratedVoxelWorld,
    key: ChunkKey,
    placed: Placed,
    tiles: &TileTable,
)
    requires
        old(world).wf(),
        is_mapped(&old(world).ground(), key),
        tiles.wf(),
    ensures
        only_kept(old(world), final(world)),
        keeps_just(
            old(world),
            final(world),
            block_columns(
                world_cells(old(world)),
                world_edits(old(world)),
                chunk_area(key),
                placed,
            ),
        ),
        ({
            let cells = world_cells(old(world));
            let (x, y, z, block) = placed;
            forall|had: Seq<Quad>| #[trigger]
                old(mesh).holds(had) ==> final(mesh).holds(
                    if chunk_area(key).has(x as int, z as int) && cells(
                        x as int,
                        y as int,
                        z as int,
                    ) == block {
                        with_faces(
                            had,
                            cells,
                            full_sky(),
                            x as int,
                            y as int,
                            z as int,
                            DIRECTION_COUNT as nat,
                        )
                    } else {
                        had
                    },
                )
        }),
{
    let ghost cells = world_cells(old(world));
    let ghost edits = world_edits(old(world));
    let ghost all = block_columns(cells, edits, chunk_area(key), placed);
    let (x, y, z, block) = placed;
    proof {
        world.lemma_keeps_itself();
    }
    if x < key.min_x() || x > key.max_x() || z < key.min_z() || z > key.max_z() {
        return;
    }
    if y < Y_MIN || y > Y_MAX {
        proof {
            assert(cells(x as int, y as int, z as int) == Block::Air);
            assert forall|had: Seq<Quad>| #[trigger]
                with_faces(
                    had,
                    cells,
                    full_sky(),
                    x as int,
                    y as int,
                    z as int,
                    DIRECTION_COUNT as nat,
                ) == had by {
                lemma_air_has_no_faces(
                    had,
                    cells,
                    full_sky(),
                    x as int,
                    y as int,
                    z as int,
                    DIRECTION_COUNT as nat,
                );
            }
        }
        return;
    }
    proof {
        lemma_mapped(world, key);
        assert(world.knows(x, z));
    }
    let found = world.look(x, y, z);
    let ghost own = |a: int, b: int|
        a == x && b == z && edits(x as int, y as int, z as int) is None;
    proof {
        lemma_cells_kept(old(world), world);
        assert(keeps_just(old(world), world, own));
        if found != block {
            assert(own =~= all);
        }
    }
    if found != block {
        return;
    }
    let ghost before = *world;
    proof {
        lemma_mapped(world, key);
    }
    keep_around(world, x, z);
    proof {
        lemma_only_kept(old(world), &before, world);
        lemma_keeps_just(
            old(world),
            &before,
            world,
            own,
            |a: int, b: int| x - 1 <= a <= x + 1 && z - 1 <= b <= z + 1,
            all,
        );
    }
    let mut view = WorldView::new(&*world);
    proof {
        lemma_mapped(world, key);
        assert forall|a: int, b: int| x - 1 <= a <= x + 1 && z - 1 <= b <= z + 1 implies
            #[trigger] view.covers(a, b) by {
            assert(world.knows(a as i64, b as i64));
        }
    }
    proof {
        mesh.lemma_holds();
    }
    push_faces(mesh, &mut view, x, y, z, tiles);
    proof {
        mesh.lemma_holds();
    }
}

/// Lists in order that hold the same blocks are equal.
proof fn lemma_order_is_unique(a: Seq<Placed>, b: Seq<Placed>)
    requires
        in_order(a),
        in_order(b),
        forall|p: Placed| #[trigger] a.contains(p) == b.contains(p),
    ensures
        a == b,
    decreases a.len(),
{
    if a.len() == 0 {
        if b.len() > 0 {
            assert(b.contains(b[0]));
            assert(a.contains(b[0]));
        }
        assert(a =~= b);
    } else {
        assert(a.contains(a[0]));
        assert(b.contains(a[0]));
        let la = a.last();
        let lb = b.last();
        assert(a.contains(la) && b.contains(lb));
        assert(b.contains(la) && a.contains(lb));
        let i = choose|i: int| 0 <= i < b.len() && b[i] == la;
        let j = choose|j: int| 0 <= j < a.len() && a[j] == lb;
        if la != lb {
            assert(place_before(b[i], b[b.len() - 1]));
            assert(place_before(a[j], a[a.len() - 1]));
        }
        let ra = a.drop_last();
        let rb = b.drop_last();
        assert(in_order(ra)) by {
            assert forall|i: int, j: int| 0 <= i < j < ra.len() implies place_before(
                #[trigger] ra[i],
                #[trigger] ra[j],
            ) by {
                assert(place_before(a[i], a[j]));
            }
        }
        assert(in_order(rb)) by {
            assert forall|i: int, j: int| 0 <= i < j < rb.len() implies place_before(
                #[trigger] rb[i],
                #[trigger] rb[j],
            ) by {
                assert(place_before(b[i], b[j]));
            }
        }
        assert forall|p: Placed| #[trigger] ra.contains(p) == rb.contains(p) by {
            lemma_rest_contains(a, p);
            lemma_rest_contains(b, p);
        }
        lemma_order_is_unique(ra, rb);
        assert(a =~= ra.push(la));
        assert(b =~= rb.push(lb));
    }
}

proof fn lemma_rest_contains(a: Seq<Placed>, p: Placed)
    requires
        in_order(a),
        a.len() > 0,
    ensures
        a.drop_last().contains(p) == (a.contains(p) && p != a.last()),
{
    let rest = a.drop_last();
    if rest.contains(p) {
        let k = choose|k: int| 0 <= k < rest.len() && rest[k] == p;
        assert(a[k] == p);
        assert(place_before(a[k], a[a.len() - 1]));
    }
    if a.contains(p) && p != a.last() {
        let k = choose|k: int| 0 <= k < a.len() && a[k] == p;
        assert(rest[k] == p);
    }
}

/// One tree block more has been looked at.
proof fn lemma_next_block(
    cells: Cells,
    edits: Edited,
    area: Area,
    trees: Seq<Placed>,
    n: int,
)
    requires
        0 <= n,
    ensures
        forall|a: i64, b: i64| #[trigger]
            tree_columns(cells, edits, area, trees, n + 1)(a as int, b as int) == (tree_columns(
                cells,
                edits,
                area,
                trees,
                n,
            )(a as int, b as int) || block_columns(cells, edits, area, trees[n])(
                a as int,
                b as int,
            )),
{
}

/// Adds the faces of the trees of a chunk that still stand.
fn push_trees(
    mesh: &mut VoxelMesh,
    world: &mut GeneratedVoxelWorld,
    key: ChunkKey,
    tiles: &TileTable,
)
    requires
        old(world).wf(),
        is_mapped(&old(world).ground(), key),
        tiles.wf(),
    ensures
        only_kept(old(world), final(world)),
        ({
            let trees = chunk_trees(old(world).spec_seed(), &old(world).ground(), chunk_area(key));
            keeps_just(
                old(world),
                final(world),
                tree_columns(
                    world_cells(old(world)),
                    world_edits(old(world)),
                    chunk_area(key),
                    trees,
                    trees.len() as int,
                ),
            )
        }),
        ({
            let trees = chunk_trees(old(world).spec_seed(), &old(world).ground(), chunk_area(key));
            forall|had: Seq<Quad>| #[trigger]
                old(mesh).holds(had) ==> final(mesh).holds(
                    with_trees(
                        had,
                        world_cells(old(world)),
                        chunk_area(key),
                        trees,
                        trees.len(),
                    ),
                )
        }),
{
    let ghost cells = world_cells(old(world));
    let ghost edits = world_edits(old(world));
    let ghost area = chunk_area(key);
    let list = world.tree_blocks_in_region(
        key.min_x() - 2,
        key.max_x() + 3,
        key.min_z() - 2,
        key.max_z() + 3,
    );
    let ghost trees = chunk_trees(world.spec_seed(), &world.ground(), area);
    proof {
        world.lemma_keeps_itself();
        let forest = chunk_forest(world.spec_seed(), &world.ground(), area);
        assert(lists_trees(list@, forest));
        assert(lists_trees(trees, forest));
        assert forall|p: Placed| #[trigger] list@.contains(p) == trees.contains(p) by {
            assert(list@.contains((p.0, p.1, p.2, p.3)) == trees.contains((p.0, p.1, p.2, p.3)));
        }
        lemma_order_is_unique(list@, trees);
    }
    let mut n: usize = 0;
    while n < list.len()
        invariant
            n <= list@.len(),
            list@ == trees,
            area == chunk_area(key),
            tiles.wf(),
            cells == world_cells(old(world)),
            only_kept(old(world), world),
            is_mapped(&old(world).ground(), key),
            world_cells(world) == cells,
            edits == world_edits(old(world)),
            world_edits(world) == edits,
            keeps_just(
                old(world),
                world,
                tree_columns(cells, edits, area, trees, n as int),
            ),
            forall|had: Seq<Quad>| #[trigger]
                old(mesh).holds(had) ==> mesh.holds(with_trees(had, cells, area, trees, n as nat)),
        decreases list@.len() - n,
    {
        let ghost before = *world;
        let ghost held = *mesh;
        push_tree_block(mesh, world, key, list[n], tiles);
        proof {
            lemma_only_kept(old(world), &before, world);
            lemma_next_block(cells, edits, area, trees, n as int);
            lemma_keeps_just(
                old(world),
                &before,
                world,
                tree_columns(cells, edits, area, trees, n as int),
                block_columns(cells, edits, area, trees[n as int]),
                tree_columns(cells, edits, area, trees, n + 1),
            );
            assert forall|had: Seq<Quad>| #[trigger] old(mesh).holds(had) implies mesh.holds(
                with_trees(had, cells, area, trees, (n + 1) as nat),
            ) by {
                assert(held.holds(with_trees(had, cells, area, trees, n as nat)));
            }
        }
        n += 1;
    }
}

impl VoxelMesh {
    /// The coarse mesh of a chunk. The columns that this looks at are kept.
    pub fn build_lod_region(
        world: &mut GeneratedVoxelWorld,
        key: ChunkKey,
        step: i64,
        tiles: &TileTable,
    ) -> (r: VoxelMesh)
        requires
            old(world).wf(),
            tiles.wf(),
            is_mapped(&old(world).ground(), key),
            step == LOD_MID_STEP || step == LOD_FAR_STEP,
        ensures
            r.holds(
                coarse_quads(
                    world_cells(old(world)),
                    old(world).spec_seed(),
                    &old(world).ground(),
                    chunk_area(key),
                    step as int,
                ),
            ),
            only_kept(old(world), final(world)),
            keeps_just(
                old(world),
                final(world),
                coarse_columns(
                    world_cells(old(world)),
                    world_edits(old(world)),
                    old(world).spec_seed(),
                    &old(world).ground(),
                    chunk_area(key),
                    step as int,
                ),
            ),
    {
        let ghost area = chunk_area(key);
        let ghost cells = world_cells(old(world));
        let ghost edits = world_edits(old(world));
        let ghost corners = sample_corners(area, step as int);
        let ghost grid = grid_columns(corners.0, corners.1, step as int);
        let ghost fine = ground_columns(surfaces_of(cells), area, step as int);
        let ghost plain = |a: int, b: int| grid(a, b) || fine(a, b);
        proof {
            lemma_mapped(world, key);
        }
        let samples = sample_surfaces(
            world,
            (key.min_x() - step, key.min_z() - step),
            (key.max_x() + step, key.max_z() + step),
            step,
        );
        let ghost first = *world;
        proof {
            lemma_cells_kept(old(world), &first);
        }
        let mut mesh = push_ground_rows(world, &samples, key, step, tiles);
        let ghost second = *world;
        proof {
            lemma_only_kept(old(world), &first, &second);
            lemma_keeps_just(old(world), &first, &second, grid, fine, plain);
        }
        push_trees(&mut mesh, world, key, tiles);
        proof {
            lemma_only_kept(old(world), &second, world);
            let seed = old(world).spec_seed();
            let ground = old(world).ground();
            let trees = chunk_trees(seed, &ground, area);
            lemma_keeps_just(
                old(world),
                &second,
                world,
                plain,
                tree_columns(cells, edits, area, trees, trees.len() as int),
                coarse_columns(cells, edits, seed, &ground, area, step as int),
            );
        }
        mesh
    }

    /// The mesh of a chunk at a level of detail, after edits have been made. The
    /// columns that this looks at are kept.
    pub fn build_chunk(
        world: &mut GeneratedVoxelWorld,
        key: ChunkKey,
        lod: LodLevel,
        tiles: &TileTable,
        edits: &Vec<Placed>,
    ) -> (r: VoxelMesh)
        requires
            old(world).wf(),
            tiles.wf(),
            is_mapped(&old(world).ground(), key),
            forall|i: int|
                0 <= i < edits@.len() ==> inside((#[trigger] edits@[i]).0 as int) && inside(
                    edits@[i].2 as int,
                ),
        ensures
            r.holds(
                chunk_quads(
                    world_cells(final(world)),
                    old(world).spec_seed(),
                    &old(world).ground(),
                    key,
                    lod,
                ),
            ),
            final(world).wf(),
            final(world).spec_seed() == old(world).spec_seed(),
            final(world).ground() == old(world).ground(),
            final(world).keeps_more(old(world)),
            keeps_just(
                old(world),
                final(world),
                chunk_columns(
                    world_cells(final(world)),
                    world_edits(final(world)),
                    old(world).spec_seed(),
                    &old(world).ground(),
                    key,
                    lod,
                ),
            ),
            forall|x: i64, y: int, z: i64| #[trigger]
                final(world).edit(x, y, z) == applied(edits@, x, y, z, old(world).edit(x, y, z)),
    {
        if edits.len() > 0 {
            world.apply_edits(edits);
        }
        let ghost edited = *world;
        proof {
            old(world).lemma_keeps_itself();
            assert(edited.keeps_more(old(world))) by {
                if edits@.len() > 0 {
                    lemma_edited_keeps(old(world), &edited);
                }
            }
        }
        proof {
            lemma_mapped(world, key);
        }
        let mesh = match lod {
            LodLevel::Near => VoxelMesh::build_near_chunk(world, key, tiles),
            LodLevel::Mid => VoxelMesh::build_lod_region(world, key, LOD_MID_STEP, tiles),
            LodLevel::Far => VoxelMesh::build_lod_region(world, key, LOD_FAR_STEP, tiles),
        };
        proof {
            reveal(chunk_quads);
            reveal(chunk_columns);
            lemma_cells_kept(&edited, world);
            let asked = chunk_columns(
                world_cells(world),
                world_edits(world),
                world.spec_seed(),
                &world.ground(),
                key,
                lod,
            );
            assert(keeps_just(&edited, world, asked));
            lemma_keeps_just(
                old(world),
                &edited,
                world,
                |a: int, b: int| false,
                asked,
                asked,
            );
            GeneratedVoxelWorld::lemma_keeps_more_yet(old(world), &edited, world);
            assert forall|x: i64, y: int, z: i64| #[trigger] world.edit(x, y, z) == applied(
                edits@,
                x,
                y,
                z,
                old(world).edit(x, y, z),
            ) by {
                assert(world.edit(x, y, z) == edited.edit(x, y, z));
            }
        }
        mesh
    }
}

proof fn lemma_edited_keeps(before: &GeneratedVoxelWorld, after: &GeneratedVoxelWorld)
    requires
        after.same_columns(before),
        before.keeps_more(before),
    ensures
        after.keeps_more(before),
{
    assert forall|x: i64, z: i64|
        #![trigger after.cached(x, z)]
        #![trigger before.cached(x, z)]
        if before.cached(x, z) {
            after.cached(x, z) && after.kept(x, z) == before.kept(x, z)
        } else {
            after.cached(x, z) ==> {
                &&& inside(x as int)
                &&& inside(z as int)
                &&& before.surveyed(x, z)
                &&& is_generated(&after.kept(x, z), before.spec_seed(), &before.ground())
                &&& after.kept(x, z).x == x
                &&& after.kept(x, z).z == z
            }
        } by {
        assert(after.cached(x, z) == before.cached(x, z));
    }
}

/// The mesh of a chunk at a level of detail.
#[verifier::opaque]
pub open spec fn chunk_quads(
    cells: Cells,
    seed: u64,
    ground: &HeightTable,
    key: ChunkKey,
    lod: LodLevel,
) -> Seq<Quad> {
    match lod {
        LodLevel::Near => region_quads(cells, chunk_area(key)),
        _ => coarse_quads(cells, seed, ground, chunk_area(key), lod.spec_step() as int),
    }
}

/// A cell is drawn column by column exactly if water meets land in it, or in a cell of the
/// chunk that shares an edge with it.
pub proof fn shores_are_drawn_finely(surfaces: Surfaces, area: Area, x: int, z: int, step: int)
    ensures
        is_fine(surfaces, area, x, z, step) <==> exists|a: int, b: int|
            {
                &&& -1 <= a <= 1 && -1 <= b <= 1 && (a == 0 || b == 0)
                &&& area.has(x + a * step, z + b * step)
                &&& surfaces(x + a * step, z + b * step) is Some
                &&& #[trigger] spec_mixed(surfaces, x + a * step, z + b * step, step)
            },
{
    assert(0 * step == 0 && 1 * step == step && (-1) * step == -step);
    let at = |a: int, b: int|
        area.has(x + a * step, z + b * step) && surfaces(x + a * step, z + b * step) is Some
            && spec_mixed(surfaces, x + a * step, z + b * step, step);
    if is_fine(surfaces, area, x, z, step) {
        if is_shore(surfaces, area, x, z, step) {
            assert(at(0, 0));
        } else if is_shore(surfaces, area, x - step, z, step) {
            assert(at(-1, 0));
        } else if is_shore(surfaces, area, x + step, z, step) {
            assert(at(1, 0));
        } else if is_shore(surfaces, area, x, z - step, step) {
            assert(at(0, -1));
        } else {
            assert(at(0, 1));
        }
    }
}

/// A cell lies at the border of its chunk exactly if one that shares an edge with it does
/// not belong to the chunk.
pub proof fn borders_are_where_the_chunk_ends(key: ChunkKey, x: int, z: int, step: int)
    requires
        step == LOD_MID_STEP || step == LOD_FAR_STEP,
        chunk_area(key).has(x, z),
        aligned(x - chunk_area(key).min_x, step),
        aligned(z - chunk_area(key).min_z, step),
    ensures
        at_border(chunk_area(key), x, z, step) <==> !(chunk_area(key).has(x - step, z)
            && chunk_area(key).has(x + step, z) && chunk_area(key).has(x, z - step) && chunk_area(
            key,
        ).has(x, z + step)),
{
}

/// Coarse ground covers its chunk: the cell of each column has the faces of a coarse cell,
/// or, along a shore, the column has those of a cell of its own.
pub proof fn coarse_ground_covers_the_chunk(
    surfaces: Surfaces,
    key: ChunkKey,
    step: int,
    cx: int,
    cz: int,
    x: int,
    z: int,
)
    requires
        step == LOD_MID_STEP || step == LOD_FAR_STEP,
        chunk_area(key).has(x, z),
        aligned(cx - chunk_area(key).min_x, step),
        aligned(cz - chunk_area(key).min_z, step),
        cx <= x < cx + step,
        cz <= z < cz + step,
    ensures
        ({
            let area = chunk_area(key);
            let across: nat = if step == 2 {
                16
            } else {
                8
            };
            let faces = ground_rows(surfaces, area, step, across, across);
            surfaces(cx, cz) is Some ==> {
                let border = at_border(area, cx, cz, step);
                let coarse = with_cell(
                    Seq::empty(),
                    surfaces,
                    surfaces(cx, cz)->0,
                    cx,
                    cz,
                    step,
                    border,
                );
                let own = with_cell(Seq::empty(), surfaces, surfaces(x, z)->0, x, z, 1, false);
                &&& !is_fine(surfaces, area, cx, cz, step) ==> forall|i: int|
                    0 <= i < coarse.len() ==> faces.contains(#[trigger] coarse[i])
                &&& is_fine(surfaces, area, cx, cz, step) && surfaces(x, z) is Some ==> forall|
                    i: int,
                |
                    0 <= i < own.len() ==> faces.contains(#[trigger] own[i])
            }
        }),
{
    let area = chunk_area(key);
    if step == 2 {
        let i = (cx - area.min_x) / 2;
        let j = (cz - area.min_z) / 2;
        lemma_rows_covered(surfaces, area, step, 16, 16, i, j, x, z);
    } else {
        let i = (cx - area.min_x) / 4;
        let j = (cz - area.min_z) / 4;
        lemma_rows_covered(surfaces, area, step, 8, 8, i, j, x, z);
    }
}

/// Whether faces hold those of a cell, or those of one of its columns where it is fine.
spec fn holds_cell(
    faces: Seq<Quad>,
    surfaces: Surfaces,
    area: Area,
    step: int,
    cx: int,
    cz: int,
    x: int,
    z: int,
) -> bool {
    surfaces(cx, cz) is Some ==> {
        let border = at_border(area, cx, cz, step);
        let coarse = with_cell(
            Seq::empty(),
            surfaces,
            surfaces(cx, cz)->0,
            cx,
            cz,
            step,
            border,
        );
        let own = with_cell(Seq::empty(), surfaces, surfaces(x, z)->0, x, z, 1, false);
        &&& !is_fine(surfaces, area, cx, cz, step) ==> forall|i: int|
            0 <= i < coarse.len() ==> faces.contains(#[trigger] coarse[i])
        &&& is_fine(surfaces, area, cx, cz, step) && surfaces(x, z) is Some ==> forall|i: int|
            0 <= i < own.len() ==> faces.contains(#[trigger] own[i])
    }
}

proof fn lemma_holds_yet(
    had: Seq<Quad>,
    faces: Seq<Quad>,
    surfaces: Surfaces,
    area: Area,
    step: int,
    cx: int,
    cz: int,
    x: int,
    z: int,
)
    requires
        had.is_prefix_of(faces),
        holds_cell(had, surfaces, area, step, cx, cz, x, z),
    ensures
        holds_cell(faces, surfaces, area, step, cx, cz, x, z),
{
    assert forall|quad: Quad| #[trigger] had.contains(quad) implies faces.contains(quad) by {
        lemma_prefix_contains(had, faces, quad);
    }
}

proof fn lemma_ground_added(
    had: Seq<Quad>,
    surfaces: Surfaces,
    area: Area,
    cx: int,
    cz: int,
    step: int,
    x: int,
    z: int,
)
    requires
        step > 0,
        cx <= x < cx + step,
        cz <= z < cz + step,
    ensures
        had.is_prefix_of(with_ground(had, surfaces, area, cx, cz, step)),
        holds_cell(
            with_ground(had, surfaces, area, cx, cz, step),
            surfaces,
            area,
            step,
            cx,
            cz,
            x,
            z,
        ),
{
    let faces = with_ground(had, surfaces, area, cx, cz, step);
    if surfaces(cx, cz) is Some {
        if is_fine(surfaces, area, cx, cz, step) {
            lemma_fine_added(had, surfaces, cx, cz, step, step as nat, x, z);
        } else {
            let border = at_border(area, cx, cz, step);
            let surface = surfaces(cx, cz)->0;
            let own = with_cell(Seq::empty(), surfaces, surface, cx, cz, step, border);
            lemma_cell_added(had, surfaces, surface, cx, cz, step, border);
            assert forall|i: int| 0 <= i < own.len() implies faces.contains(#[trigger] own[i]) by {
                assert(faces[had.len() + i] == own[i]);
            }
        }
    }
}

proof fn lemma_row_covered(
    had: Seq<Quad>,
    surfaces: Surfaces,
    area: Area,
    cz: int,
    step: int,
    n: nat,
    i: int,
    x: int,
    z: int,
)
    requires
        step > 0,
        0 <= i,
        area.min_x + i * step <= x < area.min_x + i * step + step,
        cz <= z < cz + step,
    ensures
        had.is_prefix_of(with_ground_row(had, surfaces, area, cz, step, n)),
        i < n ==> holds_cell(
            with_ground_row(had, surfaces, area, cz, step, n),
            surfaces,
            area,
            step,
            area.min_x + i * step,
            cz,
            x,
            z,
        ),
    decreases n,
{
    if n > 0 {
        let before = with_ground_row(had, surfaces, area, cz, step, (n - 1) as nat);
        let after = with_ground_row(had, surfaces, area, cz, step, n);
        let cx = area.min_x + (n - 1) * step;
        lemma_row_covered(had, surfaces, area, cz, step, (n - 1) as nat, i, x, z);
        if i == n - 1 {
            lemma_ground_added(before, surfaces, area, cx, cz, step, x, z);
        } else {
            lemma_ground_added(before, surfaces, area, cx, cz, step, cx, cz);
            if i < n {
                let own = area.min_x + i * step;
                lemma_holds_yet(before, after, surfaces, area, step, own, cz, x, z);
            }
        }
    }
}

proof fn lemma_rows_covered(
    surfaces: Surfaces,
    area: Area,
    step: int,
    across: nat,
    n: nat,
    i: int,
    j: int,
    x: int,
    z: int,
)
    requires
        step > 0,
        0 <= i < across,
        0 <= j,
        area.min_x + i * step <= x < area.min_x + i * step + step,
        area.min_z + j * step <= z < area.min_z + j * step + step,
    ensures
        j < n ==> holds_cell(
            ground_rows(surfaces, area, step, across, n),
            surfaces,
            area,
            step,
            area.min_x + i * step,
            area.min_z + j * step,
            x,
            z,
        ),
    decreases n,
{
    if n > 0 {
        let before = ground_rows(surfaces, area, step, across, (n - 1) as nat);
        let after = ground_rows(surfaces, area, step, across, n);
        let cz = area.min_z + (n - 1) * step;
        lemma_rows_covered(surfaces, area, step, across, (n - 1) as nat, i, j, x, z);
        if j == n - 1 {
            lemma_row_covered(before, surfaces, area, cz, step, across, i, x, z);
        } else {
            lemma_row_covered(before, surfaces, area, cz, step, across, i, x, cz);
            if j < n {
                let own = area.min_x + i * step;
                let row = area.min_z + j * step;
                lemma_holds_yet(before, after, surfaces, area, step, own, row, x, z);
            }
        }
    }
}

/// A coarse mesh holds all of its ground, and of the trees that still stand every face that
/// can be seen.
pub proof fn coarse_meshes_hold_ground_and_trees(
    cells: Cells,
    seed: u64,
    ground: &HeightTable,
    key: ChunkKey,
    step: int,
    quad: Quad,
    i: int,
    direction: Direction,
)
    requires
        step == LOD_MID_STEP || step == LOD_FAR_STEP,
    ensures
        ({
            let area = chunk_area(key);
            let faces = coarse_quads(cells, seed, ground, area, step);
            let trees = chunk_trees(seed, ground, area);
            let across: nat = if step == 2 {
                16
            } else {
                8
            };
            &&& ground_rows(surfaces_of(cells), area, step, across, across).contains(quad)
                ==> faces.contains(quad)
            &&& 0 <= i < trees.len() ==> {
                let (x, y, z, block) = trees[i];
                let n = next_to(x as int, y as int, z as int, direction);
                let other = cells(n.0, n.1, n.2);
                area.has(x as int, z as int) && cells(x as int, y as int, z as int) == block
                    && block != Block::Air && block != other && (other == Block::Air || other
                    == Block::Water || other == Block::Glass || other == Block::OakLeaves)
                    ==> exists|k: int|
                    0 <= k < faces.len() && {
                        let face = #[trigger] faces[k];
                        &&& face.x == x && face.y == y && face.z == z
                        &&& face.direction == direction && face.block == block
                    }
            }
        }),
{
    let area = chunk_area(key);
    let trees = chunk_trees(seed, ground, area);
    let across = cells_across(step);
    let had = ground_rows(surfaces_of(cells), area, step, across, across);
    let faces = coarse_quads(cells, seed, ground, area, step);
    lemma_trees_held(had, cells, area, trees, trees.len(), quad);
    if 0 <= i < trees.len() {
        let (x, y, z, block) = trees[i];
        let (a, b, c) = (x as int, y as int, z as int);
        let face = spec_quad(cells, full_sky(), a, b, c, direction, block);
        lemma_quad_place(cells, full_sky(), a, b, c, direction, block);
        lemma_exposed(cells, a, b, c, direction);
        lemma_trees_held(had, cells, area, trees, trees.len(), face);
        if area.has(a, c) && cells(a, b, c) == block && is_exposed(cells, a, b, c, direction) {
            assert(tree_face(cells, area, trees[i], direction, face));
            assert(faces.contains(face));
            let k = choose|k: int| 0 <= k < faces.len() && faces[k] == face;
            assert(faces[k].x == x);
        }
    }
}

/// Whether a face is one that can be seen of a tree block that stands in a chunk.
pub open spec fn tree_face(
    cells: Cells,
    area: Area,
    placed: Placed,
    direction: Direction,
    quad: Quad,
) -> bool {
    let (x, y, z, block) = placed;
    &&& area.has(x as int, z as int)
    &&& cells(x as int, y as int, z as int) == block
    &&& is_exposed(cells, x as int, y as int, z as int, direction)
    &&& quad == spec_quad(
        cells,
        full_sky(),
        x as int,
        y as int,
        z as int,
        direction,
        block,
    )
}

proof fn lemma_trees_held(
    had: Seq<Quad>,
    cells: Cells,
    area: Area,
    list: Seq<Placed>,
    n: nat,
    quad: Quad,
)
    requires
        n <= list.len(),
    ensures
        with_trees(had, cells, area, list, n).contains(quad) <==> had.contains(quad) || exists|
            i: int,
            direction: Direction,
        |
            0 <= i < n && #[trigger] tree_face(cells, area, list[i], direction, quad),
    decreases n,
{
    if n > 0 {
        lemma_trees_held(had, cells, area, list, (n - 1) as nat, quad);
        let before = with_trees(had, cells, area, list, (n - 1) as nat);
        let after = with_trees(had, cells, area, list, n);
        let (x, y, z, block) = list[n - 1];
        let (a, b, c) = (x as int, y as int, z as int);
        if area.has(a, c) && cells(a, b, c) == block {
            lemma_faces_held(
                before,
                cells,
                full_sky(),
                a,
                b,
                c,
                DIRECTION_COUNT as nat,
                quad,
            );
            if after.contains(quad) && !before.contains(quad) {
                let direction = choose|direction: Direction|
                    direction_place(direction) < 6 && #[trigger] is_exposed(
                        cells,
                        a,
                        b,
                        c,
                        direction,
                    ) && quad == spec_quad(cells, full_sky(), a, b, c, direction, cells(a, b, c));
                assert(tree_face(cells, area, list[n - 1], direction, quad));
            }
        }
        if exists|i: int, direction: Direction|
            0 <= i < n && #[trigger] tree_face(cells, area, list[i], direction, quad) {
            let (i, direction) = choose|i: int, direction: Direction|
                0 <= i < n && #[trigger] tree_face(cells, area, list[i], direction, quad);
            if i == n - 1 {
                assert(direction_place(direction) < 6);
                assert(is_exposed(cells, a, b, c, direction));
            } else {
                assert(before.contains(quad));
            }
        }
    }
}

/// The trees of a chunk are all that reach into it: wherever a standing tree has a block in
/// one of the chunk's columns, the forest of the chunk has a block.
pub proof fn chunk_forests_reach_their_chunk(
    seed: u64,
    ground: &HeightTable,
    key: ChunkKey,
    tree_x: i64,
    tree_z: i64,
    x: int,
    y: int,
    z: int,
)
    requires
        chunk_area(key).has(x, z),
        tree_rules(seed).stands(ground, tree_x, tree_z),
        tree_rules(seed).tree_at(ground, tree_x, tree_z).block_at(x, y, z) is Some,
    ensures
        last_grown(chunk_forest(seed, ground, chunk_area(key)), x, y, z) is Some,
{
    let area = chunk_area(key);
    let rules = tree_rules(seed);
    let tree = rules.tree_at(ground, tree_x, tree_z);
    trees_have_a_trunk_and_a_crown(tree, x, y, z);
    let trees = chunk_forest(seed, ground, area);
    forests_list_standing_trees(
        &rules,
        ground,
        area.min_x - 2,
        area.max_x + 3,
        area.min_z - 2,
        area.max_z + 3,
    );
    assert(trees.contains(tree));
    let i = choose|i: int| 0 <= i < trees.len() && trees[i] == tree;
    lemma_some_tree_grows(trees, i, x, y, z);
}

proof fn lemma_some_tree_grows(trees: Seq<Tree>, i: int, x: int, y: int, z: int)
    requires
        0 <= i < trees.len(),
        trees[i].block_at(x, y, z) is Some,
    ensures
        last_grown(trees, x, y, z) is Some,
    decreases trees.len(),
{
    if trees.last().block_at(x, y, z) is None {
        assert(trees.drop_last()[i] == trees[i]);
        lemma_some_tree_grows(trees.drop_last(), i, x, y, z);
    }
}

} // verus!
