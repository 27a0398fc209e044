//! Coarse meshes: the ground as a field of heights, with shores and trees in full.

use crate::render::chunk::{CHUNK_SIZE, LOD_FAR_STEP, LOD_MID_STEP};
use crate::render::face::{
    face_texture, spec_face_texture, Corner, Direction, FaceTexture, Quad, Shade, PARTS,
    WATER_SURFACE_PARTS,
};
use crate::render::mesh::{Lists, VoxelMesh};
use crate::render::snapshot::{
    keeps_just, lemma_keeps_just, lemma_only_kept, only_kept, world_cells, Columns,
};
use crate::world::atlas::{tile_number, TileTable};
use crate::world::block::{Block, Face, LIGHT_MAX};
use crate::world::column::{Y_MAX, Y_MIN};
use crate::world::column_map::ColumnMap;
use crate::world::skylight::Cells;
use crate::world::generator::inside;
use crate::world::voxel::{is_surface, layer, GeneratedVoxelWorld};
use vstd::prelude::*;

verus! {

/// How far the sides of ground at the border of a chunk hang down, in parts of a
/// block, to hide cracks. Fluids have no such skirt: it would show through them.
pub const LOD_SKIRT_PARTS: i64 = 64;

/// The surface of a column: the layer of its highest block that belongs to no tree,
/// the height at which that block is seen, in parts, and the block.
#[derive(Clone, Copy, Debug, PartialEq, Eq, Structural)]
pub struct LodSurface {
    pub y: i64,
    pub top: i64,
    pub block: Block,
}

/// The surface of each column.
pub type Surfaces = spec_fn(int, int) -> Option<LodSurface>;

/// The surface of a column whose highest block is known.
pub open spec fn surface_of_block(y: int, block: Block) -> LodSurface {
    LodSurface {
        y: y as i64,
        top: (if block == Block::Water {
            y * PARTS + WATER_SURFACE_PARTS
        } else {
            (y + 1) * PARTS
        }) as i64,
        block,
    }
}

/// The surface of a column whose highest block is known.
pub fn lod_surface_from_block(y: i64, block: Block) -> (r: LodSurface)
    requires
        layer(y as int),
    ensures
        r == surface_of_block(y as int, block),
{
    let top: i64 = if block.is_fluid() {
        y * PARTS + WATER_SURFACE_PARTS
    } else {
        (y + 1) * PARTS
    };
    LodSurface { y, top, block }
}

/// The surface of a column up to a layer.
pub open spec fn surface_up_to(cells: Cells, x: int, z: int, y: int) -> Option<LodSurface>
    decreases y + 1 - Y_MIN,
{
    if y < Y_MIN {
        None
    } else if is_surface(cells(x, y, z), true) {
        Some(surface_of_block(y, cells(x, y, z)))
    } else {
        surface_up_to(cells, x, z, y - 1)
    }
}

/// The surface of each column of a world.
pub open spec fn surfaces_of(cells: Cells) -> Surfaces {
    |x: int, z: int| surface_up_to(cells, x, z, Y_MAX as int)
}

/// Whether a surface is fluid, if there is one.
pub open spec fn is_wet(surface: Option<LodSurface>) -> bool {
    surface is Some && surface->0.block == Block::Water
}

/// Whether a surface is land, if there is one.
pub open spec fn is_dry(surface: Option<LodSurface>) -> bool {
    surface is Some && surface->0.block != Block::Water
}

/// Whether the corners of a cell are partly fluid and partly land.
pub open spec fn spec_mixed(surfaces: Surfaces, x: int, z: int, step: int) -> bool {
    &&& is_wet(surfaces(x, z)) || is_wet(surfaces(x + step, z)) || is_wet(surfaces(x, z + step))
        || is_wet(surfaces(x + step, z + step))
    &&& is_dry(surfaces(x, z)) || is_dry(surfaces(x + step, z)) || is_dry(surfaces(x, z + step))
        || is_dry(surfaces(x + step, z + step))
}

/// The surfaces that a map of samples has.
pub open spec fn sampled(samples: &ColumnMap<LodSurface>) -> Surfaces {
    |x: int, z: int|
        if samples.has(x as i64, z as i64) {
            Some(samples.at(x as i64, z as i64))
        } else {
            None
        }
}

/// The surface that was sampled for a column.
pub fn sample_at(samples: &ColumnMap<LodSurface>, x: i64, z: i64) -> (r: Option<LodSurface>)
    requires
        samples.wf(),
    ensures
        r == sampled(samples)(x as int, z as int),
{
    match samples.get(x, z) {
        Some(surface) => Some(*surface),
        None => None,
    }
}

/// Whether the corners of a cell are partly fluid and partly land. No single column
/// can stand for such a cell.
pub fn lod_cell_is_mixed(samples: &ColumnMap<LodSurface>, x: i64, z: i64, step: i64) -> (r: bool)
    requires
        samples.wf(),
        0 <= step,
        x + step <= i64::MAX,
        z + step <= i64::MAX,
    ensures
        r == spec_mixed(sampled(samples), x as int, z as int, step as int),
{
    let a = sample_at(samples, x, z);
    let b = sample_at(samples, x + step, z);
    let c = sample_at(samples, x, z + step);
    let d = sample_at(samples, x + step, z + step);
    let has_fluid = wet(a) || wet(b) || wet(c) || wet(d);
    let has_land = dry(a) || dry(b) || dry(c) || dry(d);
    has_fluid && has_land
}

fn wet(surface: Option<LodSurface>) -> (r: bool)
    ensures
        r == is_wet(surface),
{
    match surface {
        Some(s) => s.block.is_fluid(),
        None => false,
    }
}

fn dry(surface: Option<LodSurface>) -> (r: bool)
    ensures
        r == is_dry(surface),
{
    match surface {
        Some(s) => !s.block.is_fluid(),
        None => false,
    }
}

/// How far down the side of a cell reaches towards a neighbour, in parts: to the
/// neighbour's surface, with a skirt below it where one is needed or no neighbour
/// is known. The sides of fluids have no height.
pub open spec fn spec_side_bottom(
    surface: LodSurface,
    neighbour: Option<LodSurface>,
    force_skirt: bool,
) -> int {
    if surface.block == Block::Water {
        surface.top as int
    } else {
        let skirt = surface.top - LOD_SKIRT_PARTS;
        match neighbour {
            Some(n) => if force_skirt && skirt < n.top {
                skirt
            } else {
                n.top as int
            },
            None => skirt,
        }
    }
}

/// How far down the side of a cell reaches towards a neighbour.
pub fn lod_side_bottom(
    surface: LodSurface,
    neighbour: Option<LodSurface>,
    force_skirt: bool,
) -> (r: i64)
    requires
        surface.top >= i64::MIN + LOD_SKIRT_PARTS,
    ensures
        r == spec_side_bottom(surface, neighbour, force_skirt),
{
    if surface.block.is_fluid() {
        return surface.top;
    }
    let skirt: i64 = surface.top - LOD_SKIRT_PARTS;
    match neighbour {
        Some(n) => {
            if force_skirt && skirt < n.top {
                skirt
            } else {
                n.top
            }
        },
        None => skirt,
    }
}

/// A corner of a face of a cell.
pub open spec fn lod_corner(
    step: int,
    top: int,
    bottom: int,
    direction: Direction,
    texture: FaceTexture,
    k: int,
) -> Corner {
    let c = direction.spec_corner(k);
    let uv = texture.spec_local_uv(k);
    Corner {
        dx: (c.0 * step * PARTS) as i64,
        dy: (if c.1 == 1 {
            top
        } else {
            bottom
        }) as i64,
        dz: (c.2 * step * PARTS) as i64,
        u: uv.0,
        v: uv.1,
        shade: Shade { occlusion: 0, light: LIGHT_MAX as u32, samples: 1 },
    }
}

/// A face of a cell of ground: its top, or a side that reaches down to a height. The
/// base of the face is at layer zero.
#[verifier::opaque]
pub open spec fn lod_quad(
    surface: LodSurface,
    x: int,
    z: int,
    step: int,
    direction: Direction,
    bottom: int,
) -> Quad {
    let texture = spec_face_texture(surface.block, direction, x, surface.y as int, z);
    let tile = tile_number(surface.block, direction.spec_face());
    let top = surface.top as int;
    Quad {
        x: x as i64,
        y: 0,
        z: z as i64,
        direction,
        block: surface.block,
        tile,
        texture,
        blend_tiles: [tile, tile, tile, tile],
        corners: [
            lod_corner(step, top, bottom, direction, texture, 0),
            lod_corner(step, top, bottom, direction, texture, 1),
            lod_corner(step, top, bottom, direction, texture, 2),
            lod_corner(step, top, bottom, direction, texture, 3),
        ],
    }
}

fn coarse_corner(
    step: i64,
    top: i64,
    bottom: i64,
    direction: Direction,
    texture: FaceTexture,
    k: usize,
) -> (r: Corner)
    requires
        k < 4,
        0 <= step <= CHUNK_SIZE,
    ensures
        r == lod_corner(step as int, top as int, bottom as int, direction, texture, k as int),
{
    let c = direction.corner(k);
    let uv = texture.local_uv(k);
    let wide: i64 = step * PARTS;
    assert(c.0 == 0 || c.0 == 1);
    assert(c.2 == 0 || c.2 == 1);
    assert(0 * step * PARTS == 0 && 1 * step * PARTS == step * PARTS);
    Corner {
        dx: if c.0 == 1 { wide } else { 0 },
        dy: if c.1 == 1 { top } else { bottom },
        dz: if c.2 == 1 { wide } else { 0 },
        u: uv.0,
        v: uv.1,
        shade: Shade { occlusion: 0, light: LIGHT_MAX as u32, samples: 1 },
    }
}

/// A face of a coarse cell.
pub(crate) fn coarse_quad(
    surface: LodSurface,
    x: i64,
    z: i64,
    step: i64,
    direction: Direction,
    bottom: i64,
    tiles: &TileTable,
) -> (r: Quad)
    requires
        tiles.wf(),
        surface.block != Block::Air,
        layer(surface.y as int),
        0 <= step <= CHUNK_SIZE,
        x > i64::MIN,
        z > i64::MIN,
    ensures
        r == lod_quad(surface, x as int, z as int, step as int, direction, bottom as int),
{
    reveal(lod_quad);
    let texture = face_texture(surface.block, direction, x, surface.y, z);
    let tile: u32 = tiles.number(surface.block, direction.face());
    let a = coarse_corner(step, surface.top, bottom, direction, texture, 0);
    let b = coarse_corner(step, surface.top, bottom, direction, texture, 1);
    let c = coarse_corner(step, surface.top, bottom, direction, texture, 2);
    let d = coarse_corner(step, surface.top, bottom, direction, texture, 3);
    Quad {
        x,
        y: 0,
        z,
        direction,
        block: surface.block,
        tile,
        texture,
        blend_tiles: [tile, tile, tile, tile],
        corners: [a, b, c, d],
    }
}

/// The neighbour of a cell in a direction.
pub open spec fn beside(
    surfaces: Surfaces,
    x: int,
    z: int,
    step: int,
    direction: Direction,
) -> Option<LodSurface> {
    let o = direction.spec_offset();
    surfaces(x + o.0 * step, z + o.2 * step)
}

/// Faces, and after them a side of a cell if it has any height.
pub open spec fn with_side(
    had: Seq<Quad>,
    surfaces: Surfaces,
    surface: LodSurface,
    x: int,
    z: int,
    step: int,
    force_skirt: bool,
    direction: Direction,
) -> Seq<Quad> {
    let bottom = spec_side_bottom(surface, beside(surfaces, x, z, step, direction), force_skirt);
    if bottom < surface.top {
        had.push(lod_quad(surface, x, z, step, direction, bottom))
    } else {
        had
    }
}

/// Faces, and after them those of a cell: its top and its sides to the west, east,
/// north and south.
pub open spec fn with_cell(
    had: Seq<Quad>,
    surfaces: Surfaces,
    surface: LodSurface,
    x: int,
    z: int,
    step: int,
    force_skirt: bool,
) -> Seq<Quad> {
    let top = had.push(lod_quad(surface, x, z, step, Direction::Up, surface.top as int));
    let west = with_side(top, surfaces, surface, x, z, step, force_skirt, Direction::West);
    let east = with_side(west, surfaces, surface, x, z, step, force_skirt, Direction::East);
    let north = with_side(east, surfaces, surface, x, z, step, force_skirt, Direction::North);
    with_side(north, surfaces, surface, x, z, step, force_skirt, Direction::South)
}

/// Whether a surface is one that a column can have.
pub open spec fn is_proper(surface: LodSurface) -> bool {
    layer(surface.y as int) && surface == surface_of_block(surface.y as int, surface.block)
        && surface.block != Block::Air
}

/// Whether all samples are surfaces that columns can have.
pub open spec fn all_proper(samples: &ColumnMap<LodSurface>) -> bool {
    forall|x: i64, z: i64|
        #![trigger samples.has(x, z)]
        samples.has(x, z) ==> is_proper(samples.at(x, z))
}

fn push_side(
    mesh: &mut VoxelMesh,
    samples: &ColumnMap<LodSurface>,
    surface: LodSurface,
    at: (i64, i64),
    step: i64,
    force_skirt: bool,
    direction: Direction,
    tiles: &TileTable,
)
    requires
        samples.wf(),
        tiles.wf(),
        is_proper(surface),
        0 <= step <= CHUNK_SIZE,
        i64::MIN + CHUNK_SIZE < at.0 < i64::MAX - CHUNK_SIZE,
        i64::MIN + CHUNK_SIZE < at.1 < i64::MAX - CHUNK_SIZE,
    ensures
        forall|base: Lists, had: Seq<Quad>| #[trigger]
            old(mesh).extends(base, had) ==> final(mesh).extends(
                base,
                with_side(
                    had,
                    sampled(samples),
                    surface,
                    at.0 as int,
                    at.1 as int,
                    step as int,
                    force_skirt,
                    direction,
                ),
            ),
{
    let o = direction.offset();
    proof {
        assert(-step <= o.0 * step <= step) by (nonlinear_arith)
            requires
                -1 <= o.0 <= 1,
                0 <= step,
        ;
        assert(-step <= o.2 * step <= step) by (nonlinear_arith)
            requires
                -1 <= o.2 <= 1,
                0 <= step,
        ;
    }
    let neighbour = sample_at(samples, at.0 + o.0 * step, at.1 + o.2 * step);
    let bottom: i64 = lod_side_bottom(surface, neighbour, force_skirt);
    if bottom < surface.top {
        let quad = coarse_quad(surface, at.0, at.1, step, direction, bottom, tiles);
        mesh.put(quad);
    }
}

/// Adds the faces of a cell of ground.
pub fn append_lod_cell(
    mesh: &mut VoxelMesh,
    samples: &ColumnMap<LodSurface>,
    surface: LodSurface,
    x: i64,
    z: i64,
    step: i64,
    force_skirt: bool,
    tiles: &TileTable,
)
    requires
        samples.wf(),
        tiles.wf(),
        is_proper(surface),
        0 <= step <= CHUNK_SIZE,
        i64::MIN + CHUNK_SIZE < x < i64::MAX - CHUNK_SIZE,
        i64::MIN + CHUNK_SIZE < z < i64::MAX - CHUNK_SIZE,
    ensures
        final(mesh).extends(
            old(mesh).lists(),
            with_cell(
                Seq::empty(),
                sampled(samples),
                surface,
                x as int,
                z as int,
                step as int,
                force_skirt,
            ),
        ),
        forall|base: Lists, had: Seq<Quad>| #[trigger]
            old(mesh).extends(base, had) ==> final(mesh).extends(
                base,
                with_cell(
                    had,
                    sampled(samples),
                    surface,
                    x as int,
                    z as int,
                    step as int,
                    force_skirt,
                ),
            ),
{
    proof {
        mesh.lemma_extends_itself();
    }
    let quad = coarse_quad(surface, x, z, step, Direction::Up, surface.top, tiles);
    mesh.put(quad);
    push_side(mesh, samples, surface, (x, z), step, force_skirt, Direction::West, tiles);
    push_side(mesh, samples, surface, (x, z), step, force_skirt, Direction::East, tiles);
    push_side(mesh, samples, surface, (x, z), step, force_skirt, Direction::North, tiles);
    push_side(mesh, samples, surface, (x, z), step, force_skirt, Direction::South, tiles);
}

/// Whether a distance is a whole number of steps, for the steps that there are.
pub open spec fn aligned(distance: int, step: int) -> bool {
    if step == LOD_MID_STEP {
        distance % 2 == 0
    } else if step == LOD_FAR_STEP {
        distance % 4 == 0
    } else {
        true
    }
}

/// Whether a step is that of a level.
pub open spec fn is_step(step: int) -> bool {
    step == 1 || step == LOD_MID_STEP || step == LOD_FAR_STEP
}

/// Whether a coordinate is that of a sample.
pub open spec fn on_grid(v: int, from: int, to: int, step: int) -> bool {
    from <= v <= to && aligned(v - from, step)
}

/// Whether a coordinate is near enough for the columns around it to exist.
pub open spec fn near_enough(v: int) -> bool {
    inside(v - 2 * CHUNK_SIZE) && inside(v + 2 * CHUNK_SIZE)
}

/// The surface that a search finds is the surface of the column.
proof fn lemma_surface_found(
    world: &GeneratedVoxelWorld,
    x: i64,
    z: i64,
    r: Option<(i64, Block)>,
    y: int,
)
    requires
        world.surface_is(x, z, true, r),
        y <= Y_MAX,
        r is Some ==> y >= (r->0).0,
    ensures
        surface_up_to(world_cells(world), x as int, z as int, y) == (match r {
            Some(found) => Some(surface_of_block(found.0 as int, found.1)),
            None => None,
        }),
    decreases y + 1 - Y_MIN,
{
    if y >= Y_MIN {
        assert(world_cells(world)(x as int, y, z as int) == world.content(x, y, z));
        if r is None || y > (r->0).0 {
            assert(!is_surface(world.content(x, y, z), true));
            lemma_surface_found(world, x, z, r, y - 1);
        }
    }
}

/// The surface of a column. The column is kept.
pub(crate) fn surface_at(world: &mut GeneratedVoxelWorld, x: i64, z: i64) -> (r: Option<LodSurface>)
    requires
        old(world).wf(),
        old(world).knows(x, z),
        inside(x as int),
        inside(z as int),
    ensures
        r == surfaces_of(world_cells(old(world)))(x as int, z as int),
        r is Some ==> is_proper(r->0),
        only_kept(old(world), final(world)),
        keeps_just(old(world), final(world), |a: int, b: int| a == x && b == z),
{
    let found = world.terrain_surface_block(x, z);
    proof {
        lemma_surface_found(old(world), x, z, found, Y_MAX as int);
    }
    match found {
        Some((y, block)) => Some(lod_surface_from_block(y, block)),
        None => None,
    }
}

/// Whether a column of a grid has been sampled: the rows before `row` are, and that
/// row up to `column`.
spec fn is_sampled(
    x: int,
    z: int,
    from: (int, int),
    to: (int, int),
    step: int,
    row: int,
    column: int,
) -> bool {
    on_grid(x, from.0, to.0, step) && on_grid(z, from.1, to.1, step) && (z < row || (z == row && x
        < column))
}

/// The columns of a grid that have been sampled.
spec fn sampled_columns(
    from: (int, int),
    to: (int, int),
    step: int,
    row: int,
    column: int,
) -> Columns {
    |x: int, z: int| is_sampled(x, z, from, to, step, row, column)
}

/// The columns of a row of a grid before a column.
spec fn row_columns(from: int, to: int, step: int, z: int, column: int) -> Columns {
    |x: int, b: int| b == z && on_grid(x, from, to, step) && x < column
}

/// The columns of a grid.
pub open spec fn grid_columns(from: (int, int), to: (int, int), step: int) -> Columns {
    |x: int, z: int| on_grid(x, from.0, to.0, step) && on_grid(z, from.1, to.1, step)
}

/// Whether samples are the surfaces of the columns of a grid, as far as it has been
/// sampled.
#[verifier::opaque]
spec fn samples_grid(
    samples: &ColumnMap<LodSurface>,
    surfaces: Surfaces,
    from: (int, int),
    to: (int, int),
    step: int,
    row: int,
    column: int,
) -> bool {
    forall|x: i64, z: i64|
        #![trigger samples.has(x, z)]
        if is_sampled(x as int, z as int, from, to, step, row, column) {
            sampled(samples)(x as int, z as int) == surfaces(x as int, z as int)
        } else {
            !samples.has(x, z)
        }
}

proof fn lemma_sampled(
    had: &ColumnMap<LodSurface>,
    samples: &ColumnMap<LodSurface>,
    surfaces: Surfaces,
    from: (int, int),
    to: (int, int),
    step: int,
    row: i64,
    column: i64,
)
    requires
        is_step(step),
        on_grid(column as int, from.0, to.0, step),
        on_grid(row as int, from.1, to.1, step),
        samples_grid(had, surfaces, from, to, step, row as int, column as int),
        sampled(samples)(column as int, row as int) == surfaces(column as int, row as int),
        forall|a: i64, b: i64|
            #![trigger samples.has(a, b)]
            !(a == column && b == row) ==> samples.has(a, b) == had.has(a, b) && (had.has(a, b)
                ==> samples.at(a, b) == had.at(a, b)),
    ensures
        samples_grid(samples, surfaces, from, to, step, row as int, column + step),
{
    reveal(samples_grid);
    assert forall|x: i64, z: i64|
        #![trigger samples.has(x, z)]
        if is_sampled(x as int, z as int, from, to, step, row as int, column + step) {
            sampled(samples)(x as int, z as int) == surfaces(x as int, z as int)
        } else {
            !samples.has(x, z)
        } by {
        if x == column && z == row {
        } else {
            assert(had.has(x, z) == samples.has(x, z));
            assert(is_sampled(x as int, z as int, from, to, step, row as int, column + step)
                == is_sampled(x as int, z as int, from, to, step, row as int, column as int));
        }
    }
}

/// Whether samples have the surfaces of all columns of a grid.
pub open spec fn covers_grid(
    samples: &ColumnMap<LodSurface>,
    surfaces: Surfaces,
    from: (int, int),
    to: (int, int),
    step: int,
) -> bool {
    forall|a: i64, b: i64|
        on_grid(a as int, from.0, to.0, step) && on_grid(b as int, from.1, to.1, step)
            ==> #[trigger] sampled(samples)(a as int, b as int) == surfaces(a as int, b as int)
}

/// A row that has been sampled to its end is a row before the next.
proof fn lemma_row_sampled(
    samples: &ColumnMap<LodSurface>,
    surfaces: Surfaces,
    from: (int, int),
    to: (int, int),
    step: int,
    row: int,
    column: int,
)
    requires
        is_step(step),
        column > to.0,
        row >= from.1,
        aligned(row - from.1, step),
        samples_grid(samples, surfaces, from, to, step, row, column),
    ensures
        samples_grid(samples, surfaces, from, to, step, row + step, from.0),
{
    reveal(samples_grid);
    assert forall|x: i64, z: i64|
        #![trigger samples.has(x, z)]
        if is_sampled(x as int, z as int, from, to, step, row + step, from.0) {
            sampled(samples)(x as int, z as int) == surfaces(x as int, z as int)
        } else {
            !samples.has(x, z)
        } by {
        assert(is_sampled(x as int, z as int, from, to, step, row + step, from.0) == is_sampled(
            x as int,
            z as int,
            from,
            to,
            step,
            row,
            column,
        ));
    }
}

/// Adds the surface of a column to the samples. The column is kept.
fn sample_one(
    world: &mut GeneratedVoxelWorld,
    samples: &mut ColumnMap<LodSurface>,
    x: i64,
    z: i64,
    Ghost(from): Ghost<(int, int)>,
    Ghost(to): Ghost<(int, int)>,
    Ghost(step): Ghost<int>,
)
    requires
        old(world).wf(),
        old(world).knows(x, z),
        inside(x as int),
        inside(z as int),
        is_step(step),
        on_grid(x as int, from.0, to.0, step),
        on_grid(z as int, from.1, to.1, step),
        old(samples).wf(),
        all_proper(old(samples)),
        samples_grid(
            old(samples),
            surfaces_of(world_cells(old(world))),
            from,
            to,
            step,
            z as int,
            x as int,
        ),
    ensures
        only_kept(old(world), final(world)),
        keeps_just(old(world), final(world), |a: int, b: int| a == x && b == z),
        final(samples).wf(),
        all_proper(final(samples)),
        samples_grid(
            final(samples),
            surfaces_of(world_cells(old(world))),
            from,
            to,
            step,
            z as int,
            x + step,
        ),
{
    let ghost surfaces = surfaces_of(world_cells(old(world)));
    let surface = surface_at(world, x, z);
    proof {
        reveal(samples_grid);
        assert(!samples.has(x, z));
    }
    match surface {
        Some(s) => {
            samples.insert(x, z, s);
        },
        None => {},
    }
    proof {
        assert(samples.has(x, z) == (surface is Some));
        assert forall|a: i64, b: i64| #[trigger] samples.has(a, b) implies is_proper(
            samples.at(a, b),
        ) by {
            assert(old(samples).has(a, b) || (a == x && b == z));
        }
        lemma_sampled(old(samples), samples, surfaces, from, to, step, z, x);
    }
}

/// Adds the surfaces of a row of a grid to the samples. The columns are kept.
fn sample_row(
    world: &mut GeneratedVoxelWorld,
    samples: &mut ColumnMap<LodSurface>,
    from: (i64, i64),
    to: (i64, i64),
    step: i64,
    z: i64,
)
    requires
        old(world).wf(),
        old(world).knows_area(from.0 as int, to.0 as int, from.1 as int, to.1 as int),
        is_step(step as int),
        from.0 <= to.0,
        near_enough(from.0 as int),
        near_enough(to.0 as int),
        inside(z as int),
        on_grid(z as int, from.1 as int, to.1 as int, step as int),
        old(samples).wf(),
        all_proper(old(samples)),
        samples_grid(
            old(samples),
            surfaces_of(world_cells(old(world))),
            (from.0 as int, from.1 as int),
            (to.0 as int, to.1 as int),
            step as int,
            z as int,
            from.0 as int,
        ),
    ensures
        only_kept(old(world), final(world)),
        keeps_just(
            old(world),
            final(world),
            row_columns(from.0 as int, to.0 as int, step as int, z as int, to.0 + step),
        ),
        final(samples).wf(),
        all_proper(final(samples)),
        samples_grid(
            final(samples),
            surfaces_of(world_cells(old(world))),
            (from.0 as int, from.1 as int),
            (to.0 as int, to.1 as int),
            step as int,
            z + step,
            from.0 as int,
        ),
{
    let ghost surfaces = surfaces_of(world_cells(old(world)));
    let ghost start = (from.0 as int, from.1 as int);
    let ghost end = (to.0 as int, to.1 as int);
    proof {
        world.lemma_keeps_itself();
    }
    let mut x: i64 = from.0;
    while x <= to.0
        invariant
            is_step(step as int),
            near_enough(from.0 as int),
            near_enough(to.0 as int),
            inside(z as int),
            start == (from.0 as int, from.1 as int),
            end == (to.0 as int, to.1 as int),
            on_grid(z as int, from.1 as int, to.1 as int, step as int),
            from.0 <= x <= to.0 + step,
            aligned(x - from.0, step as int),
            surfaces == surfaces_of(world_cells(old(world))),
            samples.wf(),
            all_proper(samples),
            only_kept(old(world), world),
            old(world).knows_area(from.0 as int, to.0 as int, from.1 as int, to.1 as int),
            world_cells(world) == world_cells(old(world)),
            samples_grid(samples, surfaces, start, end, step as int, z as int, x as int),
            keeps_just(
                old(world),
                world,
                row_columns(from.0 as int, to.0 as int, step as int, z as int, x as int),
            ),
        decreases to.0 + step - x,
    {
        let ghost before = *world;
        proof {
            world.lemma_knows_more(old(world));
            assert(old(world).knows(x, z));
        }
        sample_one(world, samples, x, z, Ghost(start), Ghost(end), Ghost(step as int));
        proof {
            lemma_only_kept(old(world), &before, world);
            lemma_keeps_just(
                old(world),
                &before,
                world,
                row_columns(from.0 as int, to.0 as int, step as int, z as int, x as int),
                |a: int, b: int| a == x && b == z,
                row_columns(from.0 as int, to.0 as int, step as int, z as int, x + step),
            );
        }
        x += step;
    }
    proof {
        lemma_row_sampled(samples, surfaces, start, end, step as int, z as int, x as int);
        world.lemma_keeps_itself();
        let asked = row_columns(from.0 as int, to.0 as int, step as int, z as int, x as int);
        let all = row_columns(from.0 as int, to.0 as int, step as int, z as int, to.0 + step);
        assert(asked =~= all);
    }
}

/// Samples the surfaces of a grid of columns. The columns are kept.
pub fn sample_surfaces(
    world: &mut GeneratedVoxelWorld,
    from: (i64, i64),
    to: (i64, i64),
    step: i64,
) -> (r: ColumnMap<LodSurface>)
    requires
        old(world).wf(),
        old(world).knows_area(from.0 as int, to.0 as int, from.1 as int, to.1 as int),
        is_step(step as int),
        from.0 <= to.0,
        from.1 <= to.1,
        near_enough(from.0 as int),
        near_enough(from.1 as int),
        near_enough(to.0 as int),
        near_enough(to.1 as int),
    ensures
        r.wf(),
        all_proper(&r),
        covers_grid(
            &r,
            surfaces_of(world_cells(old(world))),
            (from.0 as int, from.1 as int),
            (to.0 as int, to.1 as int),
            step as int,
        ),
        only_kept(old(world), final(world)),
        keeps_just(
            old(world),
            final(world),
            grid_columns(
                (from.0 as int, from.1 as int),
                (to.0 as int, to.1 as int),
                step as int,
            ),
        ),
{
    let ghost surfaces = surfaces_of(world_cells(old(world)));
    let ghost start = (from.0 as int, from.1 as int);
    let ghost end = (to.0 as int, to.1 as int);
    let mut samples: ColumnMap<LodSurface> = ColumnMap::new();
    proof {
        reveal(samples_grid);
        world.lemma_keeps_itself();
    }
    let mut z: i64 = from.1;
    while z <= to.1
        invariant
            is_step(step as int),
            from.0 <= to.0,
            near_enough(from.0 as int),
            near_enough(from.1 as int),
            near_enough(to.0 as int),
            near_enough(to.1 as int),
            start == (from.0 as int, from.1 as int),
            end == (to.0 as int, to.1 as int),
            from.1 <= z <= to.1 + step,
            aligned(z - from.1, step as int),
            surfaces == surfaces_of(world_cells(old(world))),
            samples.wf(),
            all_proper(&samples),
            only_kept(old(world), world),
            old(world).knows_area(from.0 as int, to.0 as int, from.1 as int, to.1 as int),
            world_cells(world) == world_cells(old(world)),
            samples_grid(&samples, surfaces, start, end, step as int, z as int, start.0),
            keeps_just(
                old(world),
                world,
                sampled_columns(start, end, step as int, z as int, start.0),
            ),
        decreases to.1 + step - z,
    {
        let ghost before = *world;
        proof {
            world.lemma_knows_more(old(world));
        }
        sample_row(world, &mut samples, from, to, step, z);
        proof {
            lemma_only_kept(old(world), &before, world);
            lemma_keeps_just(
                old(world),
                &before,
                world,
                sampled_columns(start, end, step as int, z as int, start.0),
                row_columns(from.0 as int, to.0 as int, step as int, z as int, to.0 + step),
                sampled_columns(start, end, step as int, z + step, start.0),
            );
        }
        z += step;
    }
    proof {
        assert(sampled_columns(start, end, step as int, z as int, start.0) =~= grid_columns(
            start,
            end,
            step as int,
        ));
        reveal(samples_grid);
        assert forall|a: i64, b: i64|
            on_grid(a as int, start.0, end.0, step as int) && on_grid(
                b as int,
                start.1,
                end.1,
                step as int,
            ) implies #[trigger] sampled(&samples)(a as int, b as int) == surfaces(
            a as int,
            b as int,
        ) by {
            assert(is_sampled(
                a as int,
                b as int,
                start,
                end,
                step as int,
                z as int,
                start.0,
            ));
            let has = samples.has(a, b);
        }
    }
    samples
}

/// The faces of a cell depend on the surfaces of its four neighbours.
pub proof fn lemma_same_cell(
    had: Seq<Quad>,
    surfaces: Surfaces,
    others: Surfaces,
    surface: LodSurface,
    x: int,
    z: int,
    step: int,
    force_skirt: bool,
)
    requires
        surfaces(x - step, z) == others(x - step, z),
        surfaces(x + step, z) == others(x + step, z),
        surfaces(x, z - step) == others(x, z - step),
        surfaces(x, z + step) == others(x, z + step),
    ensures
        with_cell(had, surfaces, surface, x, z, step, force_skirt) == with_cell(
            had,
            others,
            surface,
            x,
            z,
            step,
            force_skirt,
        ),
{
    lemma_same_beside(surfaces, others, x, z, step, Direction::West);
    lemma_same_beside(surfaces, others, x, z, step, Direction::East);
    lemma_same_beside(surfaces, others, x, z, step, Direction::North);
    lemma_same_beside(surfaces, others, x, z, step, Direction::South);
}

proof fn lemma_same_beside(
    surfaces: Surfaces,
    others: Surfaces,
    x: int,
    z: int,
    step: int,
    direction: Direction,
)
    requires
        surfaces(x - step, z) == others(x - step, z),
        surfaces(x + step, z) == others(x + step, z),
        surfaces(x, z - step) == others(x, z - step),
        surfaces(x, z + step) == others(x, z + step),
        direction.spec_face() == Face::Side,
    ensures
        beside(surfaces, x, z, step, direction) == beside(others, x, z, step, direction),
{
    let o = direction.spec_offset();
    assert(1 * step == step && (-1) * step == -step && 0 * step == 0);
}

/// Faces, and after them those of the first `n` columns of a row, each its own cell.
pub open spec fn with_fine_row(had: Seq<Quad>, surfaces: Surfaces, x: int, z: int, n: nat) -> Seq<
    Quad,
>
    decreases n,
{
    if n == 0 {
        had
    } else {
        let before = with_fine_row(had, surfaces, x, z, (n - 1) as nat);
        match surfaces(x + n - 1, z) {
            Some(surface) => with_cell(before, surfaces, surface, x + n - 1, z, 1, false),
            None => before,
        }
    }
}

/// Faces, and after them those of the first `n` rows of a cell, each column its own
/// cell.
pub open spec fn with_fine(
    had: Seq<Quad>,
    surfaces: Surfaces,
    x: int,
    z: int,
    step: int,
    n: nat,
) -> Seq<Quad>
    decreases n,
{
    if n == 0 {
        had
    } else {
        with_fine_row(
            with_fine(had, surfaces, x, z, step, (n - 1) as nat),
            surfaces,
            x,
            z + n - 1,
            step as nat,
        )
    }
}

fn push_fine_row(
    mesh: &mut VoxelMesh,
    samples: &ColumnMap<LodSurface>,
    x: i64,
    z: i64,
    step: i64,
    tiles: &TileTable,
    Ghost(surfaces): Ghost<Surfaces>,
    Ghost(at): Ghost<int>,
)
    requires
        samples.wf(),
        all_proper(samples),
        tiles.wf(),
        is_step(step as int),
        near_enough(x as int),
        near_enough(z as int),
        at <= z < at + step,
        covers_grid(samples, surfaces, (x - 1, at - 1), (x + step, at + step), 1),
    ensures
        forall|base: Lists, had: Seq<Quad>| #[trigger]
            old(mesh).extends(base, had) ==> final(mesh).extends(
                base,
                with_fine_row(had, surfaces, x as int, z as int, step as nat),
            ),
{
    let mut n: i64 = 0;
    while n < step
        invariant
            0 <= n <= step,
            samples.wf(),
            all_proper(samples),
            tiles.wf(),
            is_step(step as int),
            near_enough(x as int),
            near_enough(z as int),
            at <= z < at + step,
            covers_grid(samples, surfaces, (x - 1, at - 1), (x + step, at + step), 1),
            forall|base: Lists, had: Seq<Quad>| #[trigger]
                old(mesh).extends(base, had) ==> mesh.extends(
                    base,
                    with_fine_row(had, surfaces, x as int, z as int, n as nat),
                ),
        decreases step - n,
    {
        let cell_x: i64 = x + n;
        assert(sampled(samples)(cell_x as int, z as int) == surfaces(cell_x as int, z as int));
        match sample_at(samples, cell_x, z) {
            Some(surface) => {
                proof {
                    let has = samples.has(cell_x, z);
                    let west = (cell_x - 1) as i64;
                    let east = (cell_x + 1) as i64;
                    let north = (z - 1) as i64;
                    let south = (z + 1) as i64;
                    assert(sampled(samples)(west as int, z as int) == surfaces(
                        west as int,
                        z as int,
                    ));
                    assert(sampled(samples)(east as int, z as int) == surfaces(
                        east as int,
                        z as int,
                    ));
                    assert(sampled(samples)(cell_x as int, north as int) == surfaces(
                        cell_x as int,
                        north as int,
                    ));
                    assert(sampled(samples)(cell_x as int, south as int) == surfaces(
                        cell_x as int,
                        south as int,
                    ));
                    assert forall|had: Seq<Quad>|
                        #![trigger with_fine_row(had, surfaces, x as int, z as int, n as nat)]
                        ({
                            let before = with_fine_row(had, surfaces, x as int, z as int, n as nat);
                            with_cell(
                                before,
                                sampled(samples),
                                surface,
                                cell_x as int,
                                z as int,
                                1,
                                false,
                            ) == with_cell(
                                before,
                                surfaces,
                                surface,
                                cell_x as int,
                                z as int,
                                1,
                                false,
                            )
                        }) by {
                        lemma_same_cell(
                            with_fine_row(had, surfaces, x as int, z as int, n as nat),
                            sampled(samples),
                            surfaces,
                            surface,
                            cell_x as int,
                            z as int,
                            1,
                            false,
                        );
                    }
                }
                append_lod_cell(mesh, samples, surface, cell_x, z, 1, false, tiles);
            },
            None => {},
        }
        n += 1;
        assert forall|base: Lists, had: Seq<Quad>| #[trigger]
            old(mesh).extends(base, had) implies mesh.extends(
            base,
            with_fine_row(had, surfaces, x as int, z as int, n as nat),
        ) by {
            let before = with_fine_row(had, surfaces, x as int, z as int, (n - 1) as nat);
        }
    }
}

/// Adds the faces of a cell in which each column is its own cell. Cells where land
/// meets water are drawn like this, and so are their neighbours. The columns are
/// kept.
pub fn append_lod_fine_cell(
    mesh: &mut VoxelMesh,
    world: &mut GeneratedVoxelWorld,
    x: i64,
    z: i64,
    step: i64,
    tiles: &TileTable,
)
    requires
        old(world).wf(),
        old(world).knows_area(x - 1, x + step, z - 1, z + step),
        tiles.wf(),
        is_step(step as int),
        near_enough(x - CHUNK_SIZE),
        near_enough(x + CHUNK_SIZE),
        near_enough(z - CHUNK_SIZE),
        near_enough(z + CHUNK_SIZE),
    ensures
        only_kept(old(world), final(world)),
        keeps_just(
            old(world),
            final(world),
            grid_columns((x - 1, z - 1), (x + step, z + step), 1),
        ),
        final(mesh).extends(
            old(mesh).lists(),
            with_fine(
                Seq::empty(),
                surfaces_of(world_cells(old(world))),
                x as int,
                z as int,
                step as int,
                step as nat,
            ),
        ),
        forall|base: Lists, had: Seq<Quad>| #[trigger]
            old(mesh).extends(base, had) ==> final(mesh).extends(
                base,
                with_fine(
                    had,
                    surfaces_of(world_cells(old(world))),
                    x as int,
                    z as int,
                    step as int,
                    step as nat,
                ),
            ),
{
    let ghost surfaces = surfaces_of(world_cells(old(world)));
    proof {
        mesh.lemma_extends_itself();
    }
    let samples = sample_surfaces(world, (x - 1, z - 1), (x + step, z + step), 1);
    let mut n: i64 = 0;
    while n < step
        invariant
            0 <= n <= step,
            samples.wf(),
            all_proper(&samples),
            tiles.wf(),
            is_step(step as int),
            near_enough(x as int),
            near_enough(z - CHUNK_SIZE),
            near_enough(z + CHUNK_SIZE),
            covers_grid(&samples, surfaces, (x - 1, z - 1), (x + step, z + step), 1),
            forall|base: Lists, had: Seq<Quad>| #[trigger]
                old(mesh).extends(base, had) ==> mesh.extends(
                    base,
                    with_fine(had, surfaces, x as int, z as int, step as int, n as nat),
                ),
        decreases step - n,
    {
        push_fine_row(
            mesh,
            &samples,
            x,
            z + n,
            step,
            tiles,
            Ghost(surfaces),
            Ghost(z as int),
        );
        n += 1;
    }
}

/// Whether a face is the wall of a cell at one of its sides, from a height up to another:
/// it stands on that edge of the cell and is as long as the edge.
pub open spec fn is_wall(
    quad: Quad,
    x: int,
    z: int,
    step: int,
    direction: Direction,
    low: int,
    high: int,
) -> bool {
    let c = quad.corners@;
    let edge = step * PARTS;
    &&& quad.x == x && quad.y == 0 && quad.z == z && quad.direction == direction
    &&& c[0].dy == low && c[1].dy == low && c[2].dy == high && c[3].dy == high
    &&& c[0].dx == c[3].dx && c[0].dz == c[3].dz && c[1].dx == c[2].dx && c[1].dz == c[2].dz
    &&& match direction {
        Direction::West => c[0].dx == 0 && c[1].dx == 0 && c[0].dz == 0 && c[1].dz == edge,
        Direction::East => c[0].dx == edge && c[1].dx == edge && c[0].dz == edge && c[1].dz == 0,
        Direction::North => c[0].dz == 0 && c[1].dz == 0 && c[0].dx == edge && c[1].dx == 0,
        Direction::South => c[0].dz == edge && c[1].dz == edge && c[0].dx == 0 && c[1].dx == edge,
        _ => false,
    }
}

/// Whether a face is the top of a cell at a height, and as wide as the cell.
pub open spec fn is_lid(quad: Quad, x: int, z: int, step: int, height: int) -> bool {
    let c = quad.corners@;
    let edge = step * PARTS;
    &&& quad.x == x && quad.y == 0 && quad.z == z && quad.direction == Direction::Up
    &&& c[0].dy == height && c[1].dy == height && c[2].dy == height && c[3].dy == height
    &&& c[0].dx == 0 && c[0].dz == 0
    &&& c[1].dx == edge && c[1].dz == 0
    &&& c[2].dx == edge && c[2].dz == edge
    &&& c[3].dx == 0 && c[3].dz == edge
}

/// Whether a face has full light and no shade in its corners.
pub open spec fn is_sunlit(quad: Quad) -> bool {
    forall|k: int|
        0 <= k < 4 ==> {
            let shade = (#[trigger] quad.corners@[k]).shade;
            shade.occlusion == 0 && shade.light == LIGHT_MAX * shade.samples && shade.samples > 0
        }
}

/// Whether some face is the wall of a cell at one of its sides.
pub open spec fn has_wall(
    faces: Seq<Quad>,
    x: int,
    z: int,
    step: int,
    direction: Direction,
    low: int,
    high: int,
) -> bool {
    exists|i: int|
        0 <= i < faces.len() && is_wall(#[trigger] faces[i], x, z, step, direction, low, high)
}

/// Whether no face looks in a direction.
pub open spec fn is_bare(faces: Seq<Quad>, direction: Direction) -> bool {
    forall|i: int| 0 <= i < faces.len() ==> (#[trigger] faces[i]).direction != direction
}

/// Whether a side of a cell of land is closed: towards lower ground by a wall down to it,
/// where nothing is known by a skirt, and at a border by the deeper of both; towards
/// ground as high, away from a border, it stays bare.
pub open spec fn is_closed(
    faces: Seq<Quad>,
    top: int,
    neighbour: Option<LodSurface>,
    x: int,
    z: int,
    step: int,
    at_border: bool,
    direction: Direction,
) -> bool {
    let skirt = top - LOD_SKIRT_PARTS;
    match neighbour {
        None => has_wall(faces, x, z, step, direction, skirt, top),
        Some(other) => {
            &&& at_border && other.top >= skirt ==> has_wall(
                faces,
                x,
                z,
                step,
                direction,
                skirt,
                top,
            )
            &&& at_border && other.top < skirt ==> has_wall(
                faces,
                x,
                z,
                step,
                direction,
                other.top as int,
                top,
            )
            &&& !at_border && other.top < top ==> has_wall(
                faces,
                x,
                z,
                step,
                direction,
                other.top as int,
                top,
            )
            &&& !at_border && other.top >= top ==> is_bare(faces, direction)
        },
    }
}

/// Coarse ground has no holes: a cell has a top, and a cell of land has a wall on each of
/// its four sides where the ground beside it is lower or ends. It has no other faces, and
/// water has nothing but its top.
pub proof fn coarse_cells_are_closed(
    surfaces: Surfaces,
    surface: LodSurface,
    x: i64,
    z: i64,
    step: int,
    at_border: bool,
)
    requires
        0 < step <= CHUNK_SIZE,
        0 <= surface.top <= 4096,
        forall|a: int, b: int|
            #![trigger surfaces(a, b)]
            surfaces(a, b) is Some ==> 0 <= (surfaces(a, b)->0).top <= 4096,
    ensures
        ({
            let faces = with_cell(
                Seq::empty(),
                surfaces,
                surface,
                x as int,
                z as int,
                step,
                at_border,
            );
            let top = surface.top as int;
            let (x, z) = (x as int, z as int);
            &&& faces.len() >= 1
            &&& is_lid(faces[0], x, z, step, top)
            &&& forall|i: int|
                0 <= i < faces.len() ==> (#[trigger] faces[i]).block == surface.block
                    && faces[i].direction != Direction::Down && is_sunlit(faces[i])
                    && faces[i].texture == spec_face_texture(
                    surface.block,
                    faces[i].direction,
                    x,
                    surface.y as int,
                    z,
                )
                    && faces[i].tile == tile_number(
                    surface.block,
                    if i == 0 {
                        Face::Top
                    } else {
                        Face::Side
                    },
                )
            &&& forall|i: int, j: int|
                0 <= i < j < faces.len() ==> (#[trigger] faces[i]).direction
                    != (#[trigger] faces[j]).direction
            &&& surface.block == Block::Water ==> faces.len() == 1
            &&& surface.block != Block::Water ==> {
                let west = surfaces(x - step, z);
                let east = surfaces(x + step, z);
                let north = surfaces(x, z - step);
                let south = surfaces(x, z + step);
                &&& is_closed(faces, top, west, x, z, step, at_border, Direction::West)
                &&& is_closed(faces, top, east, x, z, step, at_border, Direction::East)
                &&& is_closed(faces, top, north, x, z, step, at_border, Direction::North)
                &&& is_closed(faces, top, south, x, z, step, at_border, Direction::South)
            }
        }),
{
    let (x, z) = (x as int, z as int);
    let top = surface.top as int;
    let none = Seq::<Quad>::empty();
    let a = none.push(lod_quad(surface, x, z, step, Direction::Up, top));
    let b = with_side(a, surfaces, surface, x, z, step, at_border, Direction::West);
    let c = with_side(b, surfaces, surface, x, z, step, at_border, Direction::East);
    let d = with_side(c, surfaces, surface, x, z, step, at_border, Direction::North);
    let e = with_side(d, surfaces, surface, x, z, step, at_border, Direction::South);
    assert((-1) * step == -step && 1 * step == step && 0 * step == 0);
    lemma_lid(surface, x, z, step);
    lemma_side_closed(a, surfaces, surface, x, z, step, at_border, Direction::West);
    lemma_side_closed(b, surfaces, surface, x, z, step, at_border, Direction::East);
    lemma_side_closed(c, surfaces, surface, x, z, step, at_border, Direction::North);
    lemma_side_closed(d, surfaces, surface, x, z, step, at_border, Direction::South);
    if surface.block != Block::Water {
        let west = surfaces(x - step, z);
        let east = surfaces(x + step, z);
        let north = surfaces(x, z - step);
        lemma_closed_yet(b, c, top, west, x, z, step, at_border, Direction::West);
        lemma_closed_yet(c, d, top, west, x, z, step, at_border, Direction::West);
        lemma_closed_yet(d, e, top, west, x, z, step, at_border, Direction::West);
        lemma_closed_yet(c, d, top, east, x, z, step, at_border, Direction::East);
        lemma_closed_yet(d, e, top, east, x, z, step, at_border, Direction::East);
        lemma_closed_yet(d, e, top, north, x, z, step, at_border, Direction::North);
    }
}

pub proof fn lemma_lid(surface: LodSurface, x: int, z: int, step: int)
    requires
        0 < step <= CHUNK_SIZE,
        i64::MIN <= x <= i64::MAX,
        i64::MIN <= z <= i64::MAX,
    ensures
        is_lid(
            lod_quad(surface, x, z, step, Direction::Up, surface.top as int),
            x,
            z,
            step,
            surface.top as int,
        ),
        lod_quad(surface, x, z, step, Direction::Up, surface.top as int).block == surface.block,
        lod_quad(surface, x, z, step, Direction::Up, surface.top as int).tile == tile_number(
            surface.block,
            Face::Top,
        ),
        is_sunlit(lod_quad(surface, x, z, step, Direction::Up, surface.top as int)),
        lod_quad(surface, x, z, step, Direction::Up, surface.top as int).texture
            == spec_face_texture(surface.block, Direction::Up, x, surface.y as int, z),
{
    reveal(lod_quad);
    assert(1 * step == step && 0 * step == 0);
}

proof fn lemma_wall(
    surface: LodSurface,
    x: int,
    z: int,
    step: int,
    direction: Direction,
    bottom: int,
)
    requires
        0 < step <= CHUNK_SIZE,
        i64::MIN <= x <= i64::MAX,
        i64::MIN <= z <= i64::MAX,
        -4096 <= bottom <= 4096,
        direction.spec_face() == Face::Side,
    ensures
        is_wall(
            lod_quad(surface, x, z, step, direction, bottom),
            x,
            z,
            step,
            direction,
            bottom,
            surface.top as int,
        ),
        lod_quad(surface, x, z, step, direction, bottom).block == surface.block,
        lod_quad(surface, x, z, step, direction, bottom).tile == tile_number(
            surface.block,
            Face::Side,
        ),
        is_sunlit(lod_quad(surface, x, z, step, direction, bottom)),
        lod_quad(surface, x, z, step, direction, bottom).texture == spec_face_texture(
            surface.block,
            direction,
            x,
            surface.y as int,
            z,
        ),
{
    reveal(lod_quad);
    assert(1 * step == step && 0 * step == 0);
}

/// The faces of a cell come after those that were there.
pub proof fn lemma_cell_added(
    had: Seq<Quad>,
    surfaces: Surfaces,
    surface: LodSurface,
    x: int,
    z: int,
    step: int,
    at_border: bool,
)
    ensures
        with_cell(had, surfaces, surface, x, z, step, at_border) == had + with_cell(
            Seq::empty(),
            surfaces,
            surface,
            x,
            z,
            step,
            at_border,
        ),
{
    assert(with_cell(had, surfaces, surface, x, z, step, at_border) =~= had + with_cell(
        Seq::empty(),
        surfaces,
        surface,
        x,
        z,
        step,
        at_border,
    ));
}

/// The faces of the columns of a row come after those that were there, and each column
/// with a surface has its own.
pub proof fn lemma_fine_row_added(
    had: Seq<Quad>,
    surfaces: Surfaces,
    x: int,
    z: int,
    n: nat,
    a: int,
)
    ensures
        had.is_prefix_of(with_fine_row(had, surfaces, x, z, n)),
        x <= a < x + n && surfaces(a, z) is Some ==> forall|i: int|
            0 <= i < with_cell(Seq::empty(), surfaces, surfaces(a, z)->0, a, z, 1, false).len()
                ==> with_fine_row(had, surfaces, x, z, n).contains(
                #[trigger] with_cell(
                    Seq::empty(),
                    surfaces,
                    surfaces(a, z)->0,
                    a,
                    z,
                    1,
                    false,
                )[i],
            ),
    decreases n,
{
    if n > 0 {
        let before = with_fine_row(had, surfaces, x, z, (n - 1) as nat);
        let after = with_fine_row(had, surfaces, x, z, n);
        lemma_fine_row_added(had, surfaces, x, z, (n - 1) as nat, a);
        if surfaces(x + n - 1, z) is Some {
            lemma_cell_added(before, surfaces, surfaces(x + n - 1, z)->0, x + n - 1, z, 1, false);
        }
        assert(before.is_prefix_of(after));
        if x <= a < x + n && surfaces(a, z) is Some {
            let own = with_cell(Seq::empty(), surfaces, surfaces(a, z)->0, a, z, 1, false);
            assert forall|i: int| 0 <= i < own.len() implies after.contains(#[trigger] own[i]) by {
                if a == x + n - 1 {
                    assert(after[before.len() + i] == own[i]);
                } else {
                    lemma_prefix_contains(before, after, own[i]);
                }
            }
        }
    }
}

pub proof fn lemma_prefix_contains(before: Seq<Quad>, after: Seq<Quad>, quad: Quad)
    requires
        before.is_prefix_of(after),
        before.contains(quad),
    ensures
        after.contains(quad),
{
    let i = choose|i: int| 0 <= i < before.len() && before[i] == quad;
    assert(after[i] == before[i]);
}

/// The faces of the columns of a cell come after those that were there, and each column
/// with a surface has its own.
pub proof fn lemma_fine_added(
    had: Seq<Quad>,
    surfaces: Surfaces,
    x: int,
    z: int,
    step: int,
    n: nat,
    a: int,
    b: int,
)
    requires
        step >= 0,
    ensures
        had.is_prefix_of(with_fine(had, surfaces, x, z, step, n)),
        x <= a < x + step && z <= b < z + n && surfaces(a, b) is Some ==> forall|i: int|
            0 <= i < with_cell(Seq::empty(), surfaces, surfaces(a, b)->0, a, b, 1, false).len()
                ==> with_fine(had, surfaces, x, z, step, n).contains(
                #[trigger] with_cell(
                    Seq::empty(),
                    surfaces,
                    surfaces(a, b)->0,
                    a,
                    b,
                    1,
                    false,
                )[i],
            ),
    decreases n,
{
    if n > 0 {
        let before = with_fine(had, surfaces, x, z, step, (n - 1) as nat);
        let after = with_fine(had, surfaces, x, z, step, n);
        lemma_fine_added(had, surfaces, x, z, step, (n - 1) as nat, a, b);
        lemma_fine_row_added(before, surfaces, x, z + n - 1, step as nat, a);
        assert(before.is_prefix_of(after));
        if x <= a < x + step && z <= b < z + n && surfaces(a, b) is Some {
            let own = with_cell(Seq::empty(), surfaces, surfaces(a, b)->0, a, b, 1, false);
            assert forall|i: int| 0 <= i < own.len() implies after.contains(#[trigger] own[i]) by {
                if b < z + n - 1 {
                    lemma_prefix_contains(before, after, own[i]);
                }
            }
        }
    }
}

/// Adding the faces of a side closes it, and adds no face of another.
proof fn lemma_side_closed(
    had: Seq<Quad>,
    surfaces: Surfaces,
    surface: LodSurface,
    x: int,
    z: int,
    step: int,
    at_border: bool,
    direction: Direction,
)
    requires
        0 < step <= CHUNK_SIZE,
        i64::MIN <= x <= i64::MAX,
        i64::MIN <= z <= i64::MAX,
        0 <= surface.top <= 4096,
        forall|a: int, b: int|
            #![trigger surfaces(a, b)]
            surfaces(a, b) is Some ==> 0 <= (surfaces(a, b)->0).top <= 4096,
        direction.spec_face() == Face::Side,
        is_bare(had, direction),
    ensures
        ({
            let faces = with_side(had, surfaces, surface, x, z, step, at_border, direction);
            &&& surface.block == Block::Water ==> faces == had
            &&& surface.block != Block::Water ==> is_closed(
                faces,
                surface.top as int,
                beside(surfaces, x, z, step, direction),
                x,
                z,
                step,
                at_border,
                direction,
            )
            &&& faces == had || faces == had.push(faces.last()) && faces.last().direction
                == direction && faces.last().block == surface.block && faces.last().tile
                == tile_number(surface.block, Face::Side) && is_sunlit(faces.last())
                && faces.last().texture == spec_face_texture(
                surface.block,
                direction,
                x,
                surface.y as int,
                z,
            )
        }),
{
    let neighbour = beside(surfaces, x, z, step, direction);
    let bottom = spec_side_bottom(surface, neighbour, at_border);
    let faces = with_side(had, surfaces, surface, x, z, step, at_border, direction);
    if surface.block != Block::Water {
        lemma_wall(surface, x, z, step, direction, bottom);
        if bottom < surface.top {
            assert(faces[had.len() as int] == lod_quad(surface, x, z, step, direction, bottom));
        }
    }
}

/// A side that is closed stays closed when faces of another are added.
proof fn lemma_closed_yet(
    had: Seq<Quad>,
    faces: Seq<Quad>,
    top: int,
    neighbour: Option<LodSurface>,
    x: int,
    z: int,
    step: int,
    at_border: bool,
    direction: Direction,
)
    requires
        is_closed(had, top, neighbour, x, z, step, at_border, direction),
        faces == had || faces == had.push(faces.last()) && faces.last().direction != direction,
    ensures
        is_closed(faces, top, neighbour, x, z, step, at_border, direction),
{
    assert forall|low: int| has_wall(had, x, z, step, direction, low, top) implies #[trigger]
        has_wall(faces, x, z, step, direction, low, top) by {
        let i = choose|i: int|
            0 <= i < had.len() && is_wall(#[trigger] had[i], x, z, step, direction, low, top);
        assert(faces[i] == had[i]);
    }
}

/// The surface of a column is its highest block that is not air and no part of a tree: that
/// block is on top of all others but trees.
pub proof fn surfaces_are_the_highest_ground(cells: Cells, x: int, z: int, y: int)
    requires
        Y_MIN <= y <= Y_MAX,
    ensures
        ({
            let bare = |b: Block|
                b == Block::Air || b == Block::OakLog || b == Block::OakLeaves;
            match surfaces_of(cells)(x, z) {
                Some(s) => {
                    &&& Y_MIN <= s.y <= Y_MAX
                    &&& s.block == cells(x, s.y as int, z)
                    &&& !bare(s.block)
                    &&& y > s.y ==> bare(cells(x, y, z))
                    &&& s.block != Block::Water ==> s.top == PARTS * (s.y + 1)
                    &&& s.block == Block::Water ==> PARTS * s.y < s.top < PARTS * (s.y + 1)
                },
                None => bare(cells(x, y, z)),
            }
        }),
{
    lemma_highest_ground(cells, x, z, Y_MAX as int, y);
}

proof fn lemma_highest_ground(cells: Cells, x: int, z: int, from: int, y: int)
    requires
        from <= Y_MAX,
        Y_MIN <= y <= from,
    ensures
        ({
            let bare = |b: Block|
                b == Block::Air || b == Block::OakLog || b == Block::OakLeaves;
            match surface_up_to(cells, x, z, from) {
                Some(s) => {
                    &&& Y_MIN <= s.y <= from
                    &&& s == surface_of_block(s.y as int, cells(x, s.y as int, z))
                    &&& !bare(s.block)
                    &&& y > s.y ==> bare(cells(x, y, z))
                },
                None => bare(cells(x, y, z)),
            }
        }),
    decreases from - Y_MIN,
{
    if from > Y_MIN && !is_surface(cells(x, from, z), true) {
        if y < from {
            lemma_highest_ground(cells, x, z, from - 1, y);
        } else {
            lemma_highest_ground(cells, x, z, from - 1, from - 1);
        }
    } else if from == Y_MIN {
        assert(surface_up_to(cells, x, z, from - 1) is None);
    }
}

/// A cell is mixed exactly if water is at one of its four corners and land at another.
pub proof fn mixed_cells_have_a_shore(surfaces: Surfaces, x: int, z: int, step: int)
    ensures
        spec_mixed(surfaces, x, z, step) <==> exists|a: int, b: int, c: int, d: int|
            {
                &&& 0 <= a <= 1 && 0 <= b <= 1 && 0 <= c <= 1 && 0 <= d <= 1
                &&& (#[trigger] surfaces(x + a * step, z + b * step)) is Some
                &&& (surfaces(x + a * step, z + b * step)->0).block == Block::Water
                &&& (#[trigger] surfaces(x + c * step, z + d * step)) is Some
                &&& (surfaces(x + c * step, z + d * step)->0).block != Block::Water
            },
{
    assert(0 * step == 0 && 1 * step == step);
    let at = |a: int, b: int| surfaces(x + a * step, z + b * step);
    assert(at(0, 0) == surfaces(x, z));
    assert(at(1, 0) == surfaces(x + step, z));
    assert(at(0, 1) == surfaces(x, z + step));
    assert(at(1, 1) == surfaces(x + step, z + step));
    if spec_mixed(surfaces, x, z, step) {
        let (a, b): (int, int) = if is_wet(surfaces(x, z)) {
            (0, 0)
        } else if is_wet(surfaces(x + step, z)) {
            (1, 0)
        } else if is_wet(surfaces(x, z + step)) {
            (0, 1)
        } else {
            (1, 1)
        };
        let (c, d): (int, int) = if is_dry(surfaces(x, z)) {
            (0, 0)
        } else if is_dry(surfaces(x + step, z)) {
            (1, 0)
        } else if is_dry(surfaces(x, z + step)) {
            (0, 1)
        } else {
            (1, 1)
        };
        assert(is_wet(surfaces(x + a * step, z + b * step)));
        assert(is_dry(surfaces(x + c * step, z + d * step)));
    }
}

} // verus!
