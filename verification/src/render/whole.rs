//! Meshes that are built at once, without a cache.

use crate::render::cache::{
    are_mapped, caches_build_one_mesh, chunk_between, chunk_rows, filled_columns, is_view_mapped,
    key_of, lemma_all_filled, lemma_edited_world, lemma_filled_row, lemma_next_filled,
    lemma_small_view_fits, lemma_small_view_known, lemma_view_mapped, level_from, mapped_area,
    picked_columns, view_columns, view_fits, view_quads, with_chunk_row, RegionMeshCache,
};
use crate::render::chunk::{
    in_some_chunk, ChunkKey, LodLevel, CHUNK_SIZE, LOD_MID_STEP, LOD_NEAR_RADIUS,
};
use crate::render::coarse::{chunk_columns, chunk_quads, is_mapped};
use crate::render::face::{Direction, Quad};
use crate::render::lod::{
    coarse_quad, is_lid, lemma_lid, lod_quad, near_enough, surface_at, surfaces_of, Surfaces,
};
use crate::render::mesh::VoxelMesh;
use crate::render::reach::same_heights;
use crate::render::ring::{in_ring, is_ring, lod_ring_cells, RingCell};
use crate::render::snapshot::{
    keeps_just, lemma_cells_kept, lemma_keeps_just, lemma_only_kept, only_kept, world_cells,
    world_edits, Columns,
};
use crate::world::atlas::TileTable;
use crate::world::generator::inside;
use crate::world::tree::Placed;
use crate::world::voxel::{applied, GeneratedVoxelWorld};
use vstd::prelude::*;

verus! {

/// Faces, and after them the tops of the first `n` cells, each at the surface of its
/// corner. Cells without a surface have no top.
pub open spec fn with_tops(
    had: Seq<Quad>,
    surfaces: Surfaces,
    cells: Seq<RingCell>,
    n: nat,
) -> Seq<Quad>
    decreases n,
{
    if n == 0 {
        had
    } else {
        let before = with_tops(had, surfaces, cells, (n - 1) as nat);
        let (x, z, step) = cells[n - 1];
        match surfaces(x as int, z as int) {
            Some(surface) => before.push(
                lod_quad(
                    surface,
                    x as int,
                    z as int,
                    step as int,
                    Direction::Up,
                    surface.top as int,
                ),
            ),
            None => before,
        }
    }
}

/// Builds a chunk of a world whose edits have been made, and adds it to a mesh.
fn push_chunk(
    mesh: &mut VoxelMesh,
    world: &mut GeneratedVoxelWorld,
    key: ChunkKey,
    lod: LodLevel,
    tiles: &TileTable,
)
    requires
        old(world).wf(),
        tiles.wf(),
        is_mapped(&old(world).ground(), key),
    ensures
        only_kept(old(world), final(world)),
        world_cells(final(world)) == world_cells(old(world)),
        world_edits(final(world)) == world_edits(old(world)),
        keeps_just(
            old(world),
            final(world),
            chunk_columns(
                world_cells(old(world)),
                world_edits(old(world)),
                old(world).spec_seed(),
                &old(world).ground(),
                key,
                lod,
            ),
        ),
        forall|had: Seq<Quad>| #[trigger]
            old(mesh).holds(had) ==> final(mesh).holds(
                had + chunk_quads(
                    world_cells(old(world)),
                    old(world).spec_seed(),
                    &old(world).ground(),
                    key,
                    lod,
                ),
            ),
{
    let none: Vec<Placed> = Vec::new();
    let part = VoxelMesh::build_chunk(world, key, lod, tiles, &none);
    proof {
        assert forall|x: i64, y: int, z: i64| #[trigger] world.edit(x, y, z) == old(world).edit(
            x,
            y,
            z,
        ) by {
            assert(applied(none@, x, y, z, old(world).edit(x, y, z)) == old(world).edit(x, y, z));
        }
        lemma_cells_kept(old(world), world);
    }
    mesh.append(&part);
}

/// The columns that are looked at for the chunks before others in a rectangle, all of
/// which are built.
spec fn every_filled(
    world: &GeneratedVoxelWorld,
    center: (i64, i64),
    start: ChunkKey,
    end: ChunkKey,
    row: int,
    n: int,
) -> Columns {
    filled_columns(
        world_cells(world),
        world_edits(world),
        world.spec_seed(),
        &world.ground(),
        center,
        |key: ChunkKey| true,
        start,
        end,
        row,
        n,
    )
}

/// Builds a row of chunks of a view.
fn push_chunk_row(
    mesh: &mut VoxelMesh,
    world: &mut GeneratedVoxelWorld,
    center: (i64, i64),
    start: ChunkKey,
    end: ChunkKey,
    cz: i32,
    tiles: &TileTable,
    Ghost(first): Ghost<&GeneratedVoxelWorld>,
)
    requires
        only_kept(first, old(world)),
        old(world).wf(),
        keeps_just(
            first,
            old(world),
            every_filled(first, center, start, end, cz as int, 0),
        ),
        tiles.wf(),
        start.cx <= end.cx,
        start.cz <= cz <= end.cz,
        in_some_chunk(center.0 as int),
        in_some_chunk(center.1 as int),
        are_mapped(&old(world).ground(), start, end),
    ensures
        only_kept(old(world), final(world)),
        only_kept(first, final(world)),
        keeps_just(
            first,
            final(world),
            every_filled(first, center, start, end, cz + 1, 0),
        ),
        world_cells(final(world)) == world_cells(old(world)),
        forall|had: Seq<Quad>| #[trigger]
            old(mesh).holds(had) ==> final(mesh).holds(
                with_chunk_row(
                    had,
                    world_cells(old(world)),
                    old(world).spec_seed(),
                    &old(world).ground(),
                    center,
                    start.cx as int,
                    cz as int,
                    (end.cx - start.cx + 1) as nat,
                ),
            ),
{
    let ghost cells = world_cells(old(world));
    let ghost seed = old(world).spec_seed();
    let ghost ground = old(world).ground();
    proof {
        world.lemma_keeps_itself();
        lemma_cells_kept(first, world);
    }
    let mut cx: i64 = start.cx as i64;
    let last: i64 = end.cx as i64;
    while cx <= last
        invariant
            tiles.wf(),
            last == end.cx,
            start.cx <= cx <= last + 1,
            start.cz <= cz <= end.cz,
            in_some_chunk(center.0 as int),
            in_some_chunk(center.1 as int),
            cells == world_cells(old(world)),
            seed == old(world).spec_seed(),
            ground == old(world).ground(),
            are_mapped(&ground, start, end),
            only_kept(old(world), world),
            only_kept(first, world),
            first.spec_seed() == seed,
            first.ground() == ground,
            world_cells(first) == cells,
            world_edits(first) == world_edits(world),
            keeps_just(
                first,
                world,
                every_filled(first, center, start, end, cz as int, cx - start.cx),
            ),
            world_cells(world) == cells,
            forall|had: Seq<Quad>| #[trigger]
                old(mesh).holds(had) ==> mesh.holds(
                    with_chunk_row(
                        had,
                        cells,
                        seed,
                        &ground,
                        center,
                        start.cx as int,
                        cz as int,
                        (cx - start.cx) as nat,
                    ),
                ),
        decreases last + 1 - cx,
    {
        let ghost before = *world;
        let ghost held = *mesh;
        let key = ChunkKey { cx: cx as i32, cz };
        let lod = LodLevel::from_distance(key.distance_to(center.0, center.1));
        assert(chunk_between(start, end, key));
        push_chunk(mesh, world, key, lod, tiles);
        proof {
            lemma_only_kept(old(world), &before, world);
            lemma_only_kept(first, &before, world);
            assert(key_of(cx as int, cz as int) == key);
            assert(lod == level_from(center, key));
            let edits = world_edits(first);
            let every = |key: ChunkKey| true;
            lemma_next_filled(cells, edits, seed, &ground, center, every, start, end, key);
            let more = picked_columns(cells, edits, seed, &ground, center, every, key);
            assert(keeps_just(&before, world, more));
            lemma_keeps_just(
                first,
                &before,
                world,
                every_filled(first, center, start, end, cz as int, cx - start.cx),
                more,
                every_filled(first, center, start, end, cz as int, cx - start.cx + 1),
            );
            assert forall|had: Seq<Quad>| #[trigger] old(mesh).holds(had) implies mesh.holds(
                with_chunk_row(
                    had,
                    cells,
                    seed,
                    &ground,
                    center,
                    start.cx as int,
                    cz as int,
                    (cx + 1 - start.cx) as nat,
                ),
            ) by {
                let row = with_chunk_row(
                    had,
                    cells,
                    seed,
                    &ground,
                    center,
                    start.cx as int,
                    cz as int,
                    (cx - start.cx) as nat,
                );
                assert(held.holds(row));
            }
        }
        cx += 1;
    }
    proof {
        let every = |key: ChunkKey| true;
        let edits = world_edits(first);
        lemma_filled_row(cells, edits, seed, &ground, center, every, start, end, cz as int);
    }
}

/// What a view keeps after edits have been made.
proof fn lemma_parallel_kept(
    before: &GeneratedVoxelWorld,
    edited: &GeneratedVoxelWorld,
    after: &GeneratedVoxelWorld,
    edits: Seq<Placed>,
    center: (i64, i64),
    radius: i64,
)
    requires
        edited.same_columns(before),
        forall|x: i64, y: int, z: i64| #[trigger]
            edited.edit(x, y, z) == applied(edits, x, y, z, before.edit(x, y, z)),
        only_kept(edited, after),
        keeps_just(
            edited,
            after,
            view_columns(
                world_cells(edited),
                world_edits(edited),
                edited.spec_seed(),
                &edited.ground(),
                center,
                radius,
                |key: ChunkKey| true,
            ),
        ),
    ensures
        after.keeps_more(before),
        before.pristine() ==> after.pristine(),
        keeps_just(
            before,
            after,
            view_columns(
                world_cells(after),
                world_edits(after),
                before.spec_seed(),
                &before.ground(),
                center,
                radius,
                |key: ChunkKey| true,
            ),
        ),
        forall|x: i64, y: int, z: i64| #[trigger]
            after.edit(x, y, z) == applied(edits, x, y, z, before.edit(x, y, z)),
{
    lemma_edited_world(before, edited);
    lemma_cells_kept(edited, after);
    GeneratedVoxelWorld::lemma_keeps_more_yet(before, edited, after);
    after.lemma_same_content(edited);
    let asked = view_columns(
        world_cells(after),
        world_edits(after),
        before.spec_seed(),
        &before.ground(),
        center,
        radius,
        |key: ChunkKey| true,
    );
    lemma_keeps_just(before, edited, after, |x: int, z: int| false, asked, asked);
    assert forall|x: i64, y: int, z: i64| #[trigger] after.edit(x, y, z) == applied(
        edits,
        x,
        y,
        z,
        before.edit(x, y, z),
    ) by {
        assert(after.edit(x, y, z) == edited.edit(x, y, z));
    }
}

impl VoxelMesh {
    /// The mesh of a view after edits have been made, with every chunk of it built anew: a
    /// small view in full, a larger one chunk by chunk, each at the level of detail for its
    /// distance. The columns that this looks at are kept.
    pub fn build_parallel(
        world: &mut GeneratedVoxelWorld,
        center: (i64, i64),
        radius: i64,
        tiles: &TileTable,
        edits: &Vec<Placed>,
    ) -> (r: VoxelMesh)
        requires
            old(world).wf(),
            tiles.wf(),
            view_fits(center, radius),
            is_view_mapped(&old(world).ground(), center, radius),
            forall|i: int|
                0 <= i < edits@.len() ==> inside((#[trigger] edits@[i]).0 as int) && inside(
                    edits@[i].2 as int,
                ),
        ensures
            final(world).wf(),
            final(world).spec_seed() == old(world).spec_seed(),
            final(world).ground() == old(world).ground(),
            final(world).keeps_more(old(world)),
            old(world).pristine() ==> final(world).pristine(),
            keeps_just(
                old(world),
                final(world),
                view_columns(
                    world_cells(final(world)),
                    world_edits(final(world)),
                    old(world).spec_seed(),
                    &old(world).ground(),
                    center,
                    radius,
                    |key: ChunkKey| true,
                ),
            ),
            forall|x: i64, y: int, z: i64| #[trigger]
                final(world).edit(x, y, z) == applied(edits@, x, y, z, old(world).edit(x, y, z)),
            r.holds(
                view_quads(
                    world_cells(final(world)),
                    old(world).spec_seed(),
                    &old(world).ground(),
                    center,
                    radius,
                ),
            ),
    {
        world.apply_edits(edits);
        let ghost edited = *world;
        let ghost seed = edited.spec_seed();
        let ghost ground = edited.ground();
        let ghost every = |key: ChunkKey| true;
        proof {
            world.lemma_keeps_itself();
            lemma_edited_world(old(world), &edited);
        }
        if radius <= CHUNK_SIZE {
            proof {
                lemma_small_view_fits(center, radius);
                lemma_small_view_known(world, center, radius);
            }
            let mesh = VoxelMesh::build(world, center.0, center.1, radius, tiles);
            proof {
                lemma_cells_kept(&edited, world);
                lemma_parallel_kept(old(world), &edited, world, edits@, center, radius);
            }
            return mesh;
        }
        let start = ChunkKey::from_block(center.0 - radius, center.1 - radius);
        let end = ChunkKey::from_block(center.0 + radius, center.1 + radius);
        let mut mesh = VoxelMesh::new();
        let mut cz: i64 = start.cz as i64;
        let last: i64 = end.cz as i64;
        let ghost cells = world_cells(world);
        let ghost across = (end.cx - start.cx + 1) as nat;
        proof {
            lemma_view_mapped(&ground, center, radius);
        }
        while cz <= last
            invariant
                tiles.wf(),
                last == end.cz,
                start.cx <= end.cx,
                start.cz <= cz <= last + 1,
                across == end.cx - start.cx + 1,
                in_some_chunk(center.0 as int),
                in_some_chunk(center.1 as int),
                seed == edited.spec_seed(),
                ground == edited.ground(),
                are_mapped(&ground, start, end),
                only_kept(&edited, world),
                keeps_just(
                    &edited,
                    world,
                    every_filled(&edited, center, start, end, cz as int, 0),
                ),
                world_cells(world) == cells,
                mesh.holds(
                    chunk_rows(
                        cells,
                        seed,
                        &ground,
                        center,
                        start,
                        across,
                        (cz - start.cz) as nat,
                    ),
                ),
            decreases last + 1 - cz,
        {
            let ghost before = *world;
            push_chunk_row(
                &mut mesh,
                world,
                center,
                start,
                end,
                cz as i32,
                tiles,
                Ghost(&edited),
            );
            proof {
                lemma_only_kept(&edited, &before, world);
            }
            cz += 1;
        }
        proof {
            lemma_cells_kept(&edited, world);
            lemma_all_filled(
                cells,
                world_edits(&edited),
                seed,
                &ground,
                center,
                radius,
                every,
            );
            lemma_parallel_kept(old(world), &edited, world, edits@, center, radius);
        }
        mesh
    }

    /// The tops of the coarse cells of the ring around the part of a view that has full
    /// resolution. The columns that this looks at are kept.
    pub fn build_lod_rings(
        world: &mut GeneratedVoxelWorld,
        center: (i64, i64),
        radius: i64,
        tiles: &TileTable,
    ) -> (r: VoxelMesh)
        requires
            old(world).wf(),
            tiles.wf(),
            near_enough(center.0 - radius - LOD_NEAR_RADIUS),
            near_enough(center.0 + radius + LOD_NEAR_RADIUS),
            near_enough(center.1 - radius - LOD_NEAR_RADIUS),
            near_enough(center.1 + radius + LOD_NEAR_RADIUS),
            old(world).knows_area(
                center.0 - radius - LOD_MID_STEP,
                center.0 + radius,
                center.1 - radius - LOD_MID_STEP,
                center.1 + radius,
            ),
        ensures
            only_kept(old(world), final(world)),
            keeps_just(
                old(world),
                final(world),
                ring_columns(
                    center,
                    radius as int,
                    LOD_NEAR_RADIUS as int,
                    LOD_MID_STEP as int,
                ),
            ),
            exists|cells: Seq<RingCell>| #[trigger]
                is_ring(
                    cells,
                    center,
                    radius as int,
                    LOD_NEAR_RADIUS as int,
                    LOD_MID_STEP as int,
                ) && r.holds(
                    with_tops(
                        Seq::empty(),
                        surfaces_of(world_cells(old(world))),
                        cells,
                        cells.len(),
                    ),
                ),
    {
        let ghost surfaces = surfaces_of(world_cells(old(world)));
        let cells = lod_ring_cells(center, radius, LOD_NEAR_RADIUS, LOD_MID_STEP);
        let mut mesh = VoxelMesh::new();
        let mut i: usize = 0;
        proof {
            world.lemma_keeps_itself();
        }
        while i < cells.len()
            invariant
                i <= cells@.len(),
                tiles.wf(),
                near_enough(center.0 - radius - LOD_NEAR_RADIUS),
                near_enough(center.0 + radius + LOD_NEAR_RADIUS),
                near_enough(center.1 - radius - LOD_NEAR_RADIUS),
                near_enough(center.1 + radius + LOD_NEAR_RADIUS),
                old(world).knows_area(
                    center.0 - radius - LOD_MID_STEP,
                    center.0 + radius,
                    center.1 - radius - LOD_MID_STEP,
                    center.1 + radius,
                ),
                is_ring(
                    cells@,
                    center,
                    radius as int,
                    LOD_NEAR_RADIUS as int,
                    LOD_MID_STEP as int,
                ),
                surfaces == surfaces_of(world_cells(old(world))),
                only_kept(old(world), world),
                world_cells(world) == world_cells(old(world)),
                mesh.holds(with_tops(Seq::empty(), surfaces, cells@, i as nat)),
                keeps_just(old(world), world, first_columns(cells@, i as int)),
            decreases cells@.len() - i,
        {
            let (x, z, step) = cells[i];
            let ghost before = *world;
            proof {
                assert(cells@.contains(cells@[i as int]));
                assert(in_ring(
                    cells@[i as int],
                    center,
                    radius as int,
                    LOD_NEAR_RADIUS as int,
                    LOD_MID_STEP as int,
                ));
                world.lemma_knows_more(old(world));
                assert(old(world).knows(x, z));
            }
            let surface = surface_at(world, x, z);
            proof {
                lemma_only_kept(old(world), &before, world);
                lemma_next_column(old(world), &before, world, cells@, i as int);
            }
            if let Some(surface) = surface {
                let quad = coarse_quad(surface, x, z, step, Direction::Up, surface.top, tiles);
                mesh.put(quad);
            }
            i += 1;
        }
        proof {
            lemma_ring_columns(cells@, center, radius as int);
        }
        mesh
    }
}

/// The columns of the first `n` cells of a list.
spec fn first_columns(cells: Seq<RingCell>, n: int) -> Columns {
    |x: int, z: int|
        exists|i: int| 0 <= i < n && (#[trigger] cells[i]).0 == x && cells[i].1 == z
}

/// The column of one cell more has been looked at.
proof fn lemma_next_column(
    first: &GeneratedVoxelWorld,
    before: &GeneratedVoxelWorld,
    after: &GeneratedVoxelWorld,
    cells: Seq<RingCell>,
    i: int,
)
    requires
        0 <= i < cells.len(),
        keeps_just(first, before, first_columns(cells, i)),
        keeps_just(before, after, |a: int, b: int| a == cells[i].0 && b == cells[i].1),
    ensures
        keeps_just(first, after, first_columns(cells, i + 1)),
{
    let was = first_columns(cells, i);
    let is = first_columns(cells, i + 1);
    let more = |a: int, b: int| a == cells[i].0 && b == cells[i].1;
    assert forall|x: i64, z: i64| #[trigger] is(x as int, z as int) == (was(x as int, z as int)
        || more(x as int, z as int)) by {
        if more(x as int, z as int) {
            assert(cells[i].0 == x && cells[i].1 == z);
        }
    }
    lemma_keeps_just(first, before, after, was, more, is);
}

/// The columns at the corners of the cells of a ring.
pub open spec fn ring_columns(
    center: (i64, i64),
    radius: int,
    inner_radius: int,
    step: int,
) -> Columns {
    |x: int, z: int|
        in_ring((x as i64, z as i64, step as i64), center, radius, inner_radius, step)
}

proof fn lemma_ring_columns(cells: Seq<RingCell>, center: (i64, i64), radius: int)
    requires
        is_ring(cells, center, radius, LOD_NEAR_RADIUS as int, LOD_MID_STEP as int),
    ensures
        ({
            let first = first_columns(cells, cells.len() as int);
            let ring = ring_columns(center, radius, LOD_NEAR_RADIUS as int, LOD_MID_STEP as int);
            forall|x: i64, z: i64| #[trigger]
                first(x as int, z as int) == ring(x as int, z as int)
        }),
{
    let first = first_columns(cells, cells.len() as int);
    let ring = ring_columns(center, radius, LOD_NEAR_RADIUS as int, LOD_MID_STEP as int);
    assert forall|x: i64, z: i64| #[trigger] first(x as int, z as int) == ring(
        x as int,
        z as int,
    ) by {
        let cell = (x, z, LOD_MID_STEP);
        if first(x as int, z as int) {
            let i = choose|i: int|
                0 <= i < cells.len() && (#[trigger] cells[i]).0 == x && cells[i].1 == z;
            assert(cells.contains(cells[i]));
            assert(cells[i] == cell);
        }
        if ring(x as int, z as int) {
            assert(cells.contains(cell));
            let i = choose|i: int| 0 <= i < cells.len() && cells[i] == cell;
            assert(cells[i].0 == x && cells[i].1 == z);
        }
    }
}

/// A view from a cache is the view built anew: once both worlds have the edits of a list
/// and no others, a cache that has been used before gives the mesh that a build of every
/// chunk gives.
pub proof fn cached_views_are_views_built_anew(
    cache: &RegionMeshCache,
    world: &GeneratedVoxelWorld,
    edits: Seq<Placed>,
    center: (i64, i64),
    radius: i64,
    cached: &VoxelMesh,
    anew: &VoxelMesh,
)
    requires
        view_fits(center, radius),
        cache.spec_world().wf() && cache.spec_world().pristine(),
        world.wf() && world.pristine(),
        cache.spec_world().spec_seed() == world.spec_seed(),
        same_heights(
            &cache.spec_world().ground(),
            &world.ground(),
            mapped_area(center, radius),
        ),
        forall|x: i64, y: int, z: i64| #[trigger]
            cache.spec_world().edit(x, y, z) == applied(edits, x, y, z, None),
        forall|x: i64, y: int, z: i64| #[trigger]
            world.edit(x, y, z) == applied(edits, x, y, z, None),
        cached.holds(
            view_quads(
                world_cells(&cache.spec_world()),
                cache.spec_world().spec_seed(),
                &cache.spec_world().ground(),
                center,
                radius,
            ),
        ),
        anew.holds(
            view_quads(world_cells(world), world.spec_seed(), &world.ground(), center, radius),
        ),
    ensures
        cached.quads@ == anew.quads@,
        cached.transparent_quads@ == anew.transparent_quads@,
{
    let used = cache.spec_world();
    assert forall|x: i64, y: int, z: i64| #[trigger] used.edit(x, y, z) == world.edit(
        x,
        y,
        z,
    ) by {
        assert(world.edit(x, y, z) == applied(edits, x, y, z, None));
    }
    caches_build_one_mesh(&used, world, center, radius, cached, anew);
}

/// Each cell of a ring shows its top, at the height of its surface and as wide as the cell.
pub proof fn rings_show_their_tops(surfaces: Surfaces, cells: Seq<RingCell>, n: nat, k: int)
    requires
        0 <= k < n <= cells.len(),
        forall|i: int| 0 <= i < cells.len() ==> 0 < (#[trigger] cells[i]).2 <= CHUNK_SIZE,
        surfaces(cells[k].0 as int, cells[k].1 as int) is Some,
    ensures
        ({
            let faces = with_tops(Seq::empty(), surfaces, cells, n);
            let (x, z, step) = cells[k];
            let surface = surfaces(x as int, z as int)->0;
            exists|i: int|
                0 <= i < faces.len() && is_lid(
                    #[trigger] faces[i],
                    x as int,
                    z as int,
                    step as int,
                    surface.top as int,
                ) && faces[i].block == surface.block
        }),
    decreases n,
{
    let before = with_tops(Seq::empty(), surfaces, cells, (n - 1) as nat);
    let faces = with_tops(Seq::empty(), surfaces, cells, n);
    let (x, z, step) = cells[k];
    let surface = surfaces(x as int, z as int)->0;
    if k == n - 1 {
        lemma_lid(surface, x as int, z as int, step as int);
        assert(faces[before.len() as int] == faces.last());
    } else {
        rings_show_their_tops(surfaces, cells, (n - 1) as nat, k);
        let i = choose|i: int|
            0 <= i < before.len() && is_lid(
                #[trigger] before[i],
                x as int,
                z as int,
                step as int,
                surface.top as int,
            ) && before[i].block == surface.block;
        assert(faces[i] == before[i]);
    }
}

/// A ring has no more faces than cells: one for each that has a surface.
pub proof fn rings_have_one_face_per_cell(surfaces: Surfaces, cells: Seq<RingCell>, n: nat)
    requires
        n <= cells.len(),
    ensures
        with_tops(Seq::empty(), surfaces, cells, n).len() <= n,
        (forall|i: int|
            0 <= i < n ==> surfaces((#[trigger] cells[i]).0 as int, cells[i].1 as int) is Some)
            ==> with_tops(Seq::empty(), surfaces, cells, n).len() == n,
    decreases n,
{
    if n > 0 {
        rings_have_one_face_per_cell(surfaces, cells, (n - 1) as nat);
        let last = cells[n - 1];
    }
}

} // verus!
