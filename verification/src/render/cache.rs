//! The meshes of the chunks in view, kept from one request to the next.

use crate::double::Double;
use crate::render::chunk::{in_some_chunk, ChunkKey, LodLevel, CHUNK_SIZE};
use crate::render::coarse::{chunk_columns, chunk_quads, coarse_quads, is_mapped, WorldView};
use crate::render::face::Quad;
use crate::render::mesh::{
    around, around_fits, chunk_area, meshes_depend_on_near_blocks, region_quads, VoxelMesh,
    LIGHT_HALO,
};
use crate::render::probe::{
    cells_of, grid_origin, in_range, is_baked, known_to_probes, probes_see_layers_only,
    ProbeVolume, Ray, PROBE_REACH, TEXELS,
};
use crate::render::reach::{chunk_meshes_depend_on_near_heights, same_heights, GROUND_REACH};
use crate::render::snapshot::{
    columns_of, keeps_just, knows_within, lemma_cells_kept, lemma_keeps_just, lemma_listed_edit,
    lemma_only_kept, only_kept, world_cells, world_edits, Columns, Edited,
};
use crate::world::atlas::TileTable;
use crate::world::block::Block;
use crate::world::column::{Y_MAX, Y_MIN};
use crate::world::column_map::ColumnMap;
use crate::world::generator::{
    columns_depend_on_near_heights, inside, is_generated, same_ground, HEIGHT_REACH,
};
use crate::world::heights::HeightTable;
use crate::world::skylight::{Area, Cells};
use crate::world::tree::Placed;
use crate::world::voxel::{
    applied, lemma_grid_len, lemma_grid_of_ones, on_grid, worlds_of_one_source_agree,
    GeneratedVoxelWorld, VoxelWorld,
};
use vstd::prelude::*;

verus! {

/// How far around the probes of a view columns are generated at once.
pub const PRELOAD_REACH: i64 = 112;

/// How far from the centre of a view columns are kept: its radius and two chunks.
pub const KEPT_RADIUS: i64 = 256;

/// A kept mesh and its level of detail.
pub struct CachedChunkMesh {
    lod: LodLevel,
    mesh: VoxelMesh,
}

/// A world and the meshes of chunks that have been built from it.
pub struct RegionMeshCache {
    world: GeneratedVoxelWorld,
    chunks: ColumnMap<CachedChunkMesh>,
    rebuilt_chunks: u64,
}

/// The chunk with given numbers.
pub open spec fn key_of(cx: int, cz: int) -> ChunkKey {
    ChunkKey { cx: cx as i32, cz: cz as i32 }
}

/// Whether a column is within a distance of a chunk.
pub open spec fn is_near(key: ChunkKey, reach: int, x: int, z: int) -> bool {
    chunk_area(key).grown(reach).has(x, z)
}

impl RegionMeshCache {
    /// The world.
    pub closed spec fn spec_world(&self) -> GeneratedVoxelWorld {
        self.world
    }

    /// Whether the mesh of a chunk is kept.
    pub closed spec fn keeps(&self, key: ChunkKey) -> bool {
        self.chunks.has(key.cx as i64, key.cz as i64)
    }

    /// The level of detail at which the mesh of a chunk is kept.
    pub closed spec fn kept_level(&self, key: ChunkKey) -> LodLevel {
        self.chunks.at(key.cx as i64, key.cz as i64).lod
    }

    /// Chunks that the last request built.
    pub closed spec fn rebuilt(&self) -> nat {
        self.rebuilt_chunks as nat
    }

    spec fn is_current(&self, cx: i64, cz: i64) -> bool {
        let key = key_of(cx as int, cz as int);
        &&& key.cx == cx
        &&& key.cz == cz
        &&& is_mapped(&self.world.ground(), key)
        &&& self.chunks.at(cx, cz).mesh.holds(
            chunk_quads(
                world_cells(&self.world),
                self.world.spec_seed(),
                &self.world.ground(),
                key,
                self.chunks.at(cx, cz).lod,
            ),
        )
    }

    /// Whether every kept mesh is that of its chunk as the world is now.
    pub closed spec fn wf(&self) -> bool {
        &&& self.world.wf()
        &&& self.chunks.wf()
        &&& forall|cx: i64, cz: i64| #[trigger]
            self.chunks.has(cx, cz) ==> self.is_current(cx, cz)
    }

    /// The world of a cache is a proper one.
    pub proof fn lemma_world_wf(&self)
        requires
            self.wf(),
        ensures
            self.spec_world().wf(),
    {
    }

    /// A cache without meshes.
    pub fn new(world: GeneratedVoxelWorld) -> (r: RegionMeshCache)
        requires
            world.wf(),
        ensures
            r.wf(),
            r.spec_world() == world,
            forall|key: ChunkKey| !#[trigger] r.keeps(key),
            r.rebuilt() == 0,
    {
        RegionMeshCache { world, chunks: ColumnMap::new(), rebuilt_chunks: 0 }
    }

    /// The world.
    pub fn world(&self) -> (r: &GeneratedVoxelWorld)
        ensures
            *r == self.spec_world(),
    {
        &self.world
    }

    /// Number of meshes that are kept.
    pub fn kept_chunks(&self) -> (r: usize)
        ensures
            r == self.kept_total(),
    {
        self.chunks.len()
    }

    /// Number of meshes that are kept.
    pub closed spec fn kept_total(&self) -> nat {
        self.chunks.list().len()
    }

    /// Chunks that the last request built.
    pub fn rebuilt_chunks(&self) -> (r: u64)
        ensures
            r == self.rebuilt(),
    {
        self.rebuilt_chunks
    }
}

/// Whether some column of a list is within a distance of a chunk.
pub open spec fn any_near(columns: Seq<(i64, i64)>, reach: int, key: ChunkKey) -> bool {
    exists|i: int|
        0 <= i < columns.len() && is_near(
            key,
            reach,
            (#[trigger] columns[i]).0 as int,
            columns[i].1 as int,
        )
}

/// Whether some column of a list is within a distance of a chunk.
fn touches(columns: &Vec<(i64, i64)>, reach: i64, key: ChunkKey) -> (r: bool)
    requires
        0 <= reach <= CHUNK_SIZE,
    ensures
        r == any_near(columns@, reach as int, key),
{
    let mut i: usize = 0;
    while i < columns.len()
        invariant
            0 <= reach <= CHUNK_SIZE,
            i <= columns@.len(),
            forall|k: int|
                0 <= k < i ==> !is_near(
                    key,
                    reach as int,
                    (#[trigger] columns@[k]).0 as int,
                    columns@[k].1 as int,
                ),
        decreases columns@.len() - i,
    {
        let (x, z) = columns[i];
        if x >= key.min_x() - reach && x <= key.max_x() + reach && z >= key.min_z() - reach && z
            <= key.max_z() + reach {
            assert(is_near(
                key,
                reach as int,
                columns@[i as int].0 as int,
                columns@[i as int].1 as int,
            ));
            return true;
        }
        i += 1;
    }
    false
}

fn no_mesh() -> (r: CachedChunkMesh) {
    CachedChunkMesh { lod: LodLevel::Near, mesh: VoxelMesh::new() }
}

/// The kept meshes of the chunks that are not near any of the columns.
fn without_near(
    chunks: &mut ColumnMap<CachedChunkMesh>,
    columns: &Vec<(i64, i64)>,
    reach: i64,
) -> (r: ColumnMap<CachedChunkMesh>)
    requires
        old(chunks).wf(),
        forall|cx: i64, cz: i64| #[trigger]
            old(chunks).has(cx, cz) ==> i32::MIN <= cx <= i32::MAX && i32::MIN <= cz <= i32::MAX,
        0 <= reach <= CHUNK_SIZE,
    ensures
        r.wf(),
        forall|cx: i64, cz: i64| #[trigger]
            r.has(cx, cz) == (old(chunks).has(cx, cz) && !any_near(
                columns@,
                reach as int,
                key_of(cx as int, cz as int),
            )),
        forall|cx: i64, cz: i64|
            r.has(cx, cz) ==> #[trigger] r.at(cx, cz) == old(chunks).at(cx, cz),
{
    let mut left: ColumnMap<CachedChunkMesh> = ColumnMap::new();
    let mut i: usize = 0;
    proof {
        chunks.lemma_listed();
    }
    while i < chunks.len()
        invariant
            old(chunks).wf(),
            chunks.wf(),
            left.wf(),
            0 <= reach <= CHUNK_SIZE,
            i <= chunks.list().len(),
            chunks.list().len() == old(chunks).list().len(),
            forall|cx: i64, cz: i64| #[trigger]
                old(chunks).has(cx, cz) ==> i32::MIN <= cx <= i32::MAX && i32::MIN <= cz
                    <= i32::MAX,
            forall|k: int|
                0 <= k < chunks.list().len() ==> (#[trigger] chunks.list()[k]).x == old(
                    chunks,
                ).list()[k].x && chunks.list()[k].z == old(chunks).list()[k].z,
            forall|k: int|
                i <= k < chunks.list().len() ==> (#[trigger] chunks.list()[k]).value == old(
                    chunks,
                ).list()[k].value,
            forall|cx: i64, cz: i64| #[trigger]
                left.has(cx, cz) == (old(chunks).has(cx, cz) && old(chunks).place(cx, cz) < i
                    && !any_near(columns@, reach as int, key_of(cx as int, cz as int))),
            forall|cx: i64, cz: i64|
                left.has(cx, cz) ==> #[trigger] left.at(cx, cz) == old(chunks).at(cx, cz),
        decreases chunks.list().len() - i,
    {
        let ghost had = left;
        let x: i64 = chunks.entry(i).x;
        let z: i64 = chunks.entry(i).z;
        proof {
            old(chunks).lemma_listed();
            assert(old(chunks).has(x, z));
            assert(old(chunks).place(x, z) == i);
        }
        let key = ChunkKey { cx: x as i32, cz: z as i32 };
        let value = chunks.replace(i, no_mesh());
        if !touches(columns, reach, key) {
            left.insert(x, z, value);
        }
        proof {
            assert forall|cx: i64, cz: i64| #[trigger]
                left.has(cx, cz) == (old(chunks).has(cx, cz) && old(chunks).place(cx, cz) < i + 1
                    && !any_near(columns@, reach as int, key_of(cx as int, cz as int))) by {
                if old(chunks).has(cx, cz) && old(chunks).place(cx, cz) == i {
                    assert(cx == x && cz == z);
                }
                assert(had.has(cx, cz) || !had.has(cx, cz));
            }
            assert forall|cx: i64, cz: i64| left.has(cx, cz) implies #[trigger] left.at(cx, cz)
                == old(chunks).at(cx, cz) by {
                if !(cx == x && cz == z) {
                    assert(had.has(cx, cz));
                    assert(left.at(cx, cz) == had.at(cx, cz));
                }
            }
        }
        i += 1;
    }
    proof {
        old(chunks).lemma_listed();
    }
    left
}

/// What a world holds, as far as one more height does not matter.
proof fn lemma_height_matters_near(
    before: &GeneratedVoxelWorld,
    after: &GeneratedVoxelWorld,
    x: i64,
    z: i64,
    h: Double,
    a: i64,
    y: int,
    b: i64,
)
    requires
        after.ground().gained(&before.ground(), x, z, h),
        after.spec_seed() == before.spec_seed(),
        after.cached(a, b) == before.cached(a, b),
        after.kept(a, b) == before.kept(a, b),
        after.edit(a, y, b) == before.edit(a, y, b),
        inside(a as int),
        inside(b as int),
        !(-HEIGHT_REACH <= x - a <= HEIGHT_REACH && -HEIGHT_REACH <= z - b <= HEIGHT_REACH),
    ensures
        after.content(a, y, b) == before.content(a, y, b),
{
    assert(same_ground(&after.ground(), &before.ground(), a, b)) by {
        assert forall|c: i64, d: i64|
            -HEIGHT_REACH <= c - a <= HEIGHT_REACH && -HEIGHT_REACH <= d - b
                <= HEIGHT_REACH implies #[trigger] after.ground().at(c, d) == before.ground().at(
            c,
            d,
        ) by {}
    }
    columns_depend_on_near_heights(
        after.spec_seed(),
        &after.ground(),
        &before.ground(),
        a,
        y,
        b,
    );
}

proof fn lemma_chunk_inside(key: ChunkKey, reach: int, x: int, z: int)
    requires
        is_near(key, reach, x, z),
        0 <= reach <= CHUNK_SIZE,
    ensures
        inside(x),
        inside(z),
        (x as i64) as int == x,
        (z as i64) as int == z,
{
}

impl RegionMeshCache {
    /// Takes the height of a column, unless it is known. No mesh that is kept depends on
    /// it.
    pub fn supply_height(&mut self, x: i64, z: i64, h: Double)
        requires
            old(self).wf(),
        ensures
            final(self).wf(),
            final(self).spec_world().ground().gained(&old(self).spec_world().ground(), x, z, h),
            final(self).spec_world().spec_seed() == old(self).spec_world().spec_seed(),
            forall|a: i64, y: int, b: i64| #[trigger]
                final(self).spec_world().edit(a, y, b) == old(self).spec_world().edit(a, y, b),
            forall|key: ChunkKey| #[trigger] final(self).keeps(key) == old(self).keeps(key),
            forall|key: ChunkKey| #[trigger]
                final(self).kept_level(key) == old(self).kept_level(key),
            final(self).rebuilt() == old(self).rebuilt(),
            final(self).kept_total() == old(self).kept_total(),
            forall|a: i64, b: i64|
                #![trigger final(self).spec_world().cached(a, b)]
                #![trigger final(self).spec_world().kept(a, b)]
                final(self).spec_world().cached(a, b) == old(self).spec_world().cached(a, b)
                    && final(self).spec_world().kept(a, b) == old(self).spec_world().kept(a, b),
            final(self).spec_world().kept_count() == old(self).spec_world().kept_count(),
            old(self).spec_world().pristine() ==> final(self).spec_world().pristine(),
    {
        self.world.supply_height(x, z, h);
        proof {
            self.lemma_still_current(old(self), x, z, h);
        }
    }

    /// A height that is new is near no mesh that is kept, so the meshes stay current.
    proof fn lemma_still_current(&self, before: &RegionMeshCache, x: i64, z: i64, h: Double)
        requires
            before.wf(),
            self.world.wf(),
            self.chunks.wf(),
            self.world.ground().gained(&before.world.ground(), x, z, h),
            self.world.spec_seed() == before.world.spec_seed(),
            forall|a: i64, b: i64|
                #![trigger self.world.cached(a, b)]
                self.world.cached(a, b) == before.world.cached(a, b) && self.world.kept(a, b)
                    == before.world.kept(a, b),
            forall|a: i64, y: int, b: i64| #[trigger]
                self.world.edit(a, y, b) == before.world.edit(a, y, b),
            self.chunks == before.chunks,
        ensures
            self.wf(),
    {
        assert forall|cx: i64, cz: i64| #[trigger] self.chunks.has(cx, cz) implies self.is_current(
            cx,
            cz,
        ) by {
            assert(before.is_current(cx, cz));
            assert(self.chunks.at(cx, cz) == before.chunks.at(cx, cz));
            let key = key_of(cx as int, cz as int);
            let area = chunk_area(key);
            let now = world_cells(&self.world);
            let then = world_cells(&before.world);
            assert(before.world.ground().known(x, z) || !is_near(
                key,
                GROUND_REACH as int,
                x as int,
                z as int,
            ));
            assert forall|a: int, y: int, b: int| area.grown(LIGHT_HALO as int).has(
                a,
                b,
            ) implies #[trigger] now(a, y, b) == then(a, y, b) by {
                assert(is_near(key, LIGHT_HALO as int, a, b));
                lemma_chunk_inside(key, LIGHT_HALO as int, a, b);
                let has = self.world.cached(a as i64, b as i64);
                if before.world.ground().known(x, z) {
                    lemma_known_height(&before.world, &self.world, x, z, h, a as i64, y, b as i64);
                } else {
                    lemma_height_matters_near(
                        &before.world,
                        &self.world,
                        x,
                        z,
                        h,
                        a as i64,
                        y,
                        b as i64,
                    );
                }
            }
            assert(same_heights(
                &self.world.ground(),
                &before.world.ground(),
                area.grown(GROUND_REACH as int),
            ));
            chunk_meshes_depend_on_near_heights(
                now,
                then,
                self.world.spec_seed(),
                &self.world.ground(),
                &before.world.ground(),
                key,
                self.chunks.at(cx, cz).lod,
            );
        }
    }
}

/// A height that is known already changes nothing.
proof fn lemma_known_height(
    before: &GeneratedVoxelWorld,
    after: &GeneratedVoxelWorld,
    x: i64,
    z: i64,
    h: Double,
    a: i64,
    y: int,
    b: i64,
)
    requires
        before.ground().known(x, z),
        after.ground().gained(&before.ground(), x, z, h),
        after.spec_seed() == before.spec_seed(),
        after.cached(a, b) == before.cached(a, b),
        after.kept(a, b) == before.kept(a, b),
        after.edit(a, y, b) == before.edit(a, y, b),
        inside(a as int),
        inside(b as int),
    ensures
        after.content(a, y, b) == before.content(a, y, b),
{
    assert(same_ground(&after.ground(), &before.ground(), a, b)) by {
        assert forall|c: i64, d: i64|
            -HEIGHT_REACH <= c - a <= HEIGHT_REACH && -HEIGHT_REACH <= d - b
                <= HEIGHT_REACH implies #[trigger] after.ground().at(c, d) == before.ground().at(
            c,
            d,
        ) by {}
    }
    columns_depend_on_near_heights(
        after.spec_seed(),
        &after.ground(),
        &before.ground(),
        a,
        y,
        b,
    );
}

/// Whether the edits of a column differ between two worlds.
pub open spec fn edits_differ(
    a: &GeneratedVoxelWorld,
    b: &GeneratedVoxelWorld,
    x: i64,
    z: i64,
) -> bool {
    exists|y: int| #[trigger] a.edit(x, y, z) != b.edit(x, y, z)
}

/// The columns of the blocks of a list that another world's edits do not have.
fn unlike(list: &Vec<Placed>, world: &GeneratedVoxelWorld, columns: &mut Vec<(i64, i64)>)
    requires
        world.wf(),
    ensures
        forall|c: (i64, i64)| #[trigger]
            final(columns)@.contains(c) <==> old(columns)@.contains(c) || is_unlike(
                list@,
                world,
                c,
                list@.len() as int,
            ),
{
    let mut i: usize = 0;
    while i < list.len()
        invariant
            world.wf(),
            i <= list@.len(),
            forall|c: (i64, i64)| #[trigger]
                columns@.contains(c) <==> old(columns)@.contains(c) || is_unlike(
                    list@,
                    world,
                    c,
                    i as int,
                ),
        decreases list@.len() - i,
    {
        let (x, y, z, block) = list[i];
        let ghost had = columns@;
        let differs = match world.edited_block(x, y, z) {
            Some(other) => other != block,
            None => true,
        };
        if differs {
            columns.push((x, z));
        }
        proof {
            assert forall|c: (i64, i64)| #[trigger]
                columns@.contains(c) <==> old(columns)@.contains(c) || is_unlike(
                    list@,
                    world,
                    c,
                    i + 1,
                ) by {
                assert(had.contains(c) <==> old(columns)@.contains(c) || is_unlike(
                    list@,
                    world,
                    c,
                    i as int,
                ));
                if differs {
                    assert(columns@[had.len() as int] == (x, z));
                    if had.contains(c) {
                        let k = choose|k: int| 0 <= k < had.len() && had[k] == c;
                        assert(columns@[k] == c);
                    }
                    if columns@.contains(c) {
                        let k = choose|k: int| 0 <= k < columns@.len() && columns@[k] == c;
                        if k < had.len() {
                            assert(had[k] == c);
                        }
                    }
                }
                lemma_unlike_step(list@, world, c, i as int);
            }
        }
        i += 1;
    }
}

/// Whether one of the first `n` blocks of a list is in a column, and is not an edit of
/// a world.
spec fn is_unlike(list: Seq<Placed>, world: &GeneratedVoxelWorld, c: (i64, i64), n: int) -> bool {
    exists|k: int|
        0 <= k < n && (#[trigger] list[k]).0 == c.0 && list[k].2 == c.1 && world.edit(
            list[k].0,
            list[k].1 as int,
            list[k].2,
        ) != Some(list[k].3)
}

proof fn lemma_unlike_step(
    list: Seq<Placed>,
    world: &GeneratedVoxelWorld,
    c: (i64, i64),
    n: int,
)
    requires
        0 <= n < list.len(),
    ensures
        is_unlike(list, world, c, n + 1) == (is_unlike(list, world, c, n) || (list[n].0 == c.0
            && list[n].2 == c.1 && world.edit(list[n].0, list[n].1 as int, list[n].2) != Some(
            list[n].3,
        ))),
{
    if is_unlike(list, world, c, n) {
        let k = choose|k: int|
            0 <= k < n && (#[trigger] list[k]).0 == c.0 && list[k].2 == c.1 && world.edit(
                list[k].0,
                list[k].1 as int,
                list[k].2,
            ) != Some(list[k].3);
        assert(0 <= k < n + 1);
    }
}

proof fn lemma_unlike_is_differing(
    list: Seq<Placed>,
    of: &GeneratedVoxelWorld,
    other: &GeneratedVoxelWorld,
    c: (i64, i64),
)
    requires
        forall|x: i64, y: i64, z: i64, block: Block| #[trigger]
            list.contains((x, y, z, block)) <==> of.edit(x, y as int, z) == Some(block),
        is_unlike(list, other, c, list.len() as int),
    ensures
        edits_differ(of, other, c.0, c.1),
{
    let k = choose|k: int|
        0 <= k < list.len() && (#[trigger] list[k]).0 == c.0 && list[k].2 == c.1 && other.edit(
            list[k].0,
            list[k].1 as int,
            list[k].2,
        ) != Some(list[k].3);
    let p = list[k];
    assert(list.contains((p.0, p.1, p.2, p.3)));
    assert(of.edit(c.0, p.1 as int, c.1) != other.edit(c.0, p.1 as int, c.1));
}

proof fn lemma_differing_is_unlike(
    list: Seq<Placed>,
    of: &GeneratedVoxelWorld,
    other: &GeneratedVoxelWorld,
    c: (i64, i64),
    y: int,
)
    requires
        of.wf(),
        forall|x: i64, y: i64, z: i64, block: Block| #[trigger]
            list.contains((x, y, z, block)) <==> of.edit(x, y as int, z) == Some(block),
        of.edit(c.0, y, c.1) is Some,
        of.edit(c.0, y, c.1) != other.edit(c.0, y, c.1),
    ensures
        is_unlike(list, other, c, list.len() as int),
{
    of.lemma_edits_in_layers(c.0, y, c.1);
    let block = of.edit(c.0, y, c.1)->0;
    assert(list.contains((c.0, y as i64, c.1, block)));
    let k = choose|k: int| 0 <= k < list.len() && list[k] == (c.0, y as i64, c.1, block);
    assert(list[k].0 == c.0);
}

/// The columns whose edits differ between two worlds.
fn changed_columns(a: &GeneratedVoxelWorld, b: &GeneratedVoxelWorld) -> (r: Vec<(i64, i64)>)
    requires
        a.wf(),
        b.wf(),
    ensures
        forall|c: (i64, i64)| #[trigger]
            r@.contains(c) <==> edits_differ(a, b, c.0, c.1),
{
    let mut columns: Vec<(i64, i64)> = Vec::new();
    let first = a.edits();
    let second = b.edits();
    unlike(&first, b, &mut columns);
    unlike(&second, a, &mut columns);
    proof {
        assert forall|c: (i64, i64)| #[trigger] columns@.contains(c) <==> edits_differ(
            a,
            b,
            c.0,
            c.1,
        ) by {
            if is_unlike(first@, b, c, first@.len() as int) {
                lemma_unlike_is_differing(first@, a, b, c);
            }
            if is_unlike(second@, a, c, second@.len() as int) {
                lemma_unlike_is_differing(second@, b, a, c);
                let y = choose|y: int| #[trigger] b.edit(c.0, y, c.1) != a.edit(c.0, y, c.1);
                assert(a.edit(c.0, y, c.1) != b.edit(c.0, y, c.1));
            }
            if edits_differ(a, b, c.0, c.1) {
                let y = choose|y: int| #[trigger] a.edit(c.0, y, c.1) != b.edit(c.0, y, c.1);
                if a.edit(c.0, y, c.1) is Some {
                    lemma_differing_is_unlike(first@, a, b, c, y);
                } else {
                    lemma_differing_is_unlike(second@, b, a, c, y);
                }
            }
        }
    }
    columns
}

/// A world without columns that has the edits of another.
fn copy_edits(world: &GeneratedVoxelWorld) -> (r: GeneratedVoxelWorld)
    requires
        world.wf(),
    ensures
        r.wf(),
        forall|x: i64, y: int, z: i64| #[trigger] r.edit(x, y, z) == world.edit(x, y, z),
{
    let list = world.edits();
    let mut copy = GeneratedVoxelWorld::new(world.seed());
    proof {
        assert forall|i: int| 0 <= i < list@.len() implies inside((#[trigger] list@[i]).0 as int)
            && inside(list@[i].2 as int) by {
            let p = list@[i];
            assert(list@.contains((p.0, p.1, p.2, p.3)));
            world.lemma_edits_in_layers(p.0, p.1 as int, p.2);
        }
    }
    copy.replace_edits(&list);
    proof {
        assert forall|x: i64, y: int, z: i64| #[trigger] copy.edit(x, y, z) == world.edit(
            x,
            y,
            z,
        ) by {
            lemma_listed_edit(list@, x, y, z);
            world.lemma_edits_in_layers(x, y, z);
            match applied(list@, x, y, z, None) {
                Some(block) => {
                    assert(world.edit(x, (y as i64) as int, z) == Some(block));
                },
                None => {
                    match world.edit(x, y, z) {
                        Some(block) => {
                            assert(list@.contains((x, y as i64, z, block)));
                        },
                        None => {},
                    }
                },
            }
        }
    }
    copy
}

/// Whether some block within the reach of light from a chunk would be edited.
pub open spec fn edits_reach(
    before: &GeneratedVoxelWorld,
    edits: Seq<Placed>,
    key: ChunkKey,
) -> bool {
    exists|x: i64, y: int, z: i64|
        is_near(key, LIGHT_HALO as int, x as int, z as int) && #[trigger] before.edit(x, y, z)
            != applied(edits, x, y, z, None)
}

impl RegionMeshCache {
    /// Replaces the edits of the world. The meshes that could depend on a change are
    /// dropped.
    fn set_edits(&mut self, edits: &Vec<Placed>)
        requires
            old(self).wf(),
            forall|i: int|
                0 <= i < edits@.len() ==> inside((#[trigger] edits@[i]).0 as int) && inside(
                    edits@[i].2 as int,
                ),
        ensures
            final(self).wf(),
            final(self).world.same_columns(&old(self).world),
            forall|x: i64, y: int, z: i64| #[trigger]
                final(self).world.edit(x, y, z) == applied(edits@, x, y, z, None),
            forall|key: ChunkKey| #[trigger]
                final(self).keeps(key) == (old(self).keeps(key) && !edits_reach(
                    &old(self).world,
                    edits@,
                    key,
                )),
            forall|key: ChunkKey|
                final(self).keeps(key) ==> #[trigger] final(self).kept_level(key) == old(
                    self,
                ).kept_level(key),
    {
        let previous = copy_edits(&self.world);
        self.world.replace_edits(edits);
        let changed = changed_columns(&previous, &self.world);
        proof {
            assert forall|cx: i64, cz: i64| #[trigger] self.chunks.has(cx, cz) implies i32::MIN
                <= cx <= i32::MAX && i32::MIN <= cz <= i32::MAX by {
                assert(old(self).is_current(cx, cz));
            }
        }
        self.chunks = without_near(&mut self.chunks, &changed, LIGHT_HALO);
        proof {
            assert forall|key: ChunkKey| #[trigger]
                any_near(changed@, LIGHT_HALO as int, key) == edits_reach(
                    &old(self).world,
                    edits@,
                    key,
                ) by {
                lemma_changes_reach(&old(self).world, &previous, &self.world, edits@, changed@, key);
            }
            assert forall|key: ChunkKey| #[trigger]
                self.keeps(key) == (old(self).keeps(key) && !edits_reach(
                    &old(self).world,
                    edits@,
                    key,
                )) by {
                assert(key_of(key.cx as i64 as int, key.cz as i64 as int) == key);
            }
            assert forall|key: ChunkKey| self.keeps(key) implies #[trigger] self.kept_level(key)
                == old(self).kept_level(key) by {
                let has = self.chunks.has(key.cx as i64, key.cz as i64);
            }
            assert forall|cx: i64, cz: i64| #[trigger]
                self.chunks.has(cx, cz) implies self.is_current(cx, cz) by {
                let key = key_of(cx as int, cz as int);
                assert(old(self).is_current(cx, cz));
                assert(self.chunks.at(cx, cz) == old(self).chunks.at(cx, cz));
                lemma_edits_out_of_reach(
                    &old(self).world,
                    &self.world,
                    edits@,
                    key,
                    self.chunks.at(cx, cz).lod,
                );
            }
        }
    }
}

proof fn lemma_changes_reach(
    before: &GeneratedVoxelWorld,
    previous: &GeneratedVoxelWorld,
    after: &GeneratedVoxelWorld,
    edits: Seq<Placed>,
    changed: Seq<(i64, i64)>,
    key: ChunkKey,
)
    requires
        forall|x: i64, y: int, z: i64| #[trigger] previous.edit(x, y, z) == before.edit(x, y, z),
        forall|x: i64, y: int, z: i64| #[trigger]
            after.edit(x, y, z) == applied(edits, x, y, z, None),
        forall|c: (i64, i64)| #[trigger]
            changed.contains(c) <==> edits_differ(previous, after, c.0, c.1),
    ensures
        any_near(changed, LIGHT_HALO as int, key) == edits_reach(before, edits, key),
{
    if any_near(changed, LIGHT_HALO as int, key) {
        let i = choose|i: int|
            0 <= i < changed.len() && is_near(
                key,
                LIGHT_HALO as int,
                (#[trigger] changed[i]).0 as int,
                changed[i].1 as int,
            );
        let c = changed[i];
        assert(changed.contains(c));
        let y = choose|y: int| #[trigger] previous.edit(c.0, y, c.1) != after.edit(c.0, y, c.1);
        assert(before.edit(c.0, y, c.1) != applied(edits, c.0, y, c.1, None));
    }
    if edits_reach(before, edits, key) {
        let (x, y, z) = choose|x: i64, y: int, z: i64|
            is_near(key, LIGHT_HALO as int, x as int, z as int) && #[trigger] before.edit(x, y, z)
                != applied(edits, x, y, z, None);
        assert(previous.edit(x, y, z) != after.edit(x, y, z));
        assert(changed.contains((x, z)));
        let i = choose|i: int| 0 <= i < changed.len() && changed[i] == (x, z);
        assert(is_near(
            key,
            LIGHT_HALO as int,
            changed[i].0 as int,
            changed[i].1 as int,
        ));
    }
}

/// Edits out of the reach of light leave the mesh of a chunk as it is.
proof fn lemma_edits_out_of_reach(
    before: &GeneratedVoxelWorld,
    after: &GeneratedVoxelWorld,
    edits: Seq<Placed>,
    key: ChunkKey,
    lod: LodLevel,
)
    requires
        after.same_columns(before),
        forall|x: i64, y: int, z: i64| #[trigger]
            after.edit(x, y, z) == applied(edits, x, y, z, None),
        !edits_reach(before, edits, key),
    ensures
        chunk_quads(world_cells(after), after.spec_seed(), &after.ground(), key, lod)
            == chunk_quads(world_cells(before), before.spec_seed(), &before.ground(), key, lod),
{
    let now = world_cells(after);
    let then = world_cells(before);
    assert forall|x: int, y: int, z: int| chunk_area(key).grown(LIGHT_HALO as int).has(
        x,
        z,
    ) implies #[trigger] now(x, y, z) == then(x, y, z) by {
        assert(is_near(key, LIGHT_HALO as int, x, z));
        lemma_chunk_inside(key, LIGHT_HALO as int, x, z);
        let a = x as i64;
        let b = z as i64;
        assert(before.edit(a, y, b) == applied(edits, a, y, b, None));
        assert(after.edit(a, y, b) == applied(edits, a, y, b, None));
        assert(after.cached(a, b) == before.cached(a, b));
    }
    chunk_meshes_depend_on_near_heights(
        now,
        then,
        after.spec_seed(),
        &after.ground(),
        &before.ground(),
        key,
        lod,
    );
}

/// The level of detail of a chunk as seen from a centre.
pub open spec fn level_from(center: (i64, i64), key: ChunkKey) -> LodLevel {
    LodLevel::at_distance(key.spec_distance(center.0 as int, center.1 as int))
}

/// Faces, and after them those of the first `n` chunks of a row.
pub open spec fn with_chunk_row(
    had: Seq<Quad>,
    cells: Cells,
    seed: u64,
    ground: &HeightTable,
    center: (i64, i64),
    cx: int,
    cz: int,
    n: nat,
) -> Seq<Quad>
    decreases n,
{
    if n == 0 {
        had
    } else {
        let key = key_of(cx + n - 1, cz);
        with_chunk_row(had, cells, seed, ground, center, cx, cz, (n - 1) as nat) + chunk_quads(
            cells,
            seed,
            ground,
            key,
            level_from(center, key),
        )
    }
}

/// The faces of the first `n` rows of chunks.
pub open spec fn chunk_rows(
    cells: Cells,
    seed: u64,
    ground: &HeightTable,
    center: (i64, i64),
    start: ChunkKey,
    across: nat,
    n: nat,
) -> Seq<Quad>
    decreases n,
{
    if n == 0 {
        Seq::empty()
    } else {
        with_chunk_row(
            chunk_rows(cells, seed, ground, center, start, across, (n - 1) as nat),
            cells,
            seed,
            ground,
            center,
            start.cx as int,
            start.cz + n - 1,
            across,
        )
    }
}

/// The chunk of a column.
pub open spec fn chunk_at(x: int, z: int) -> ChunkKey {
    key_of(x / (CHUNK_SIZE as int), z / (CHUNK_SIZE as int))
}

/// The faces of a view: those of a small square in full, those of a larger one chunk
/// by chunk, each at the level of detail for its distance.
pub open spec fn view_quads(
    cells: Cells,
    seed: u64,
    ground: &HeightTable,
    center: (i64, i64),
    radius: i64,
) -> Seq<Quad> {
    if radius <= CHUNK_SIZE {
        region_quads(cells, around(center.0, center.1, radius))
    } else {
        let start = chunk_at(center.0 - radius, center.1 - radius);
        let end = chunk_at(center.0 + radius, center.1 + radius);
        chunk_rows(
            cells,
            seed,
            ground,
            center,
            start,
            (end.cx - start.cx + 1) as nat,
            (end.cz - start.cz + 1) as nat,
        )
    }
}

/// Whether a column is looked at for a chunk of a view.
pub open spec fn view_chunk_asks(
    cells: Cells,
    edits: Edited,
    seed: u64,
    ground: &HeightTable,
    center: (i64, i64),
    key: ChunkKey,
    x: int,
    z: int,
) -> bool {
    chunk_columns(cells, edits, seed, ground, key, level_from(center, key))(x, z)
}

/// The columns that are looked at for a view: those in reach of a small square, and those
/// that the chunks of a larger one need, of which a condition picks those to be built.
pub open spec fn view_columns(
    cells: Cells,
    edits: Edited,
    seed: u64,
    ground: &HeightTable,
    center: (i64, i64),
    radius: i64,
    pick: spec_fn(ChunkKey) -> bool,
) -> Columns {
    if radius <= CHUNK_SIZE {
        columns_of(around(center.0, center.1, radius).grown(LIGHT_HALO as int))
    } else {
        let start = chunk_at(center.0 - radius, center.1 - radius);
        let end = chunk_at(center.0 + radius, center.1 + radius);
        |x: int, z: int|
            exists|key: ChunkKey|
                chunk_between(start, end, key) && pick(key) && #[trigger] view_chunk_asks(
                    cells,
                    edits,
                    seed,
                    ground,
                    center,
                    key,
                    x,
                    z,
                )
    }
}

/// The columns that are looked at for the chunks before others in a rectangle.
pub(crate) open spec fn filled_columns(
    cells: Cells,
    edits: Edited,
    seed: u64,
    ground: &HeightTable,
    center: (i64, i64),
    pick: spec_fn(ChunkKey) -> bool,
    start: ChunkKey,
    end: ChunkKey,
    row: int,
    n: int,
) -> Columns {
    |x: int, z: int|
        exists|key: ChunkKey|
            is_filled(start, end, row, n, key) && pick(key) && #[trigger] view_chunk_asks(
                cells,
                edits,
                seed,
                ground,
                center,
                key,
                x,
                z,
            )
}

/// The columns that are looked at for a chunk of a view, where it is picked.
pub(crate) open spec fn picked_columns(
    cells: Cells,
    edits: Edited,
    seed: u64,
    ground: &HeightTable,
    center: (i64, i64),
    pick: spec_fn(ChunkKey) -> bool,
    key: ChunkKey,
) -> Columns {
    |x: int, z: int|
        pick(key) && view_chunk_asks(cells, edits, seed, ground, center, key, x, z)
}

/// One chunk more has been filled.
pub(crate) proof fn lemma_next_filled(
    cells: Cells,
    edits: Edited,
    seed: u64,
    ground: &HeightTable,
    center: (i64, i64),
    pick: spec_fn(ChunkKey) -> bool,
    start: ChunkKey,
    end: ChunkKey,
    key: ChunkKey,
)
    requires
        chunk_between(start, end, key),
    ensures
        ({
            let n = key.cx - start.cx;
            let row = key.cz as int;
            let was = filled_columns(
                cells,
                edits,
                seed,
                ground,
                center,
                pick,
                start,
                end,
                row,
                n,
            );
            let is = filled_columns(
                cells,
                edits,
                seed,
                ground,
                center,
                pick,
                start,
                end,
                row,
                n + 1,
            );
            let more = picked_columns(cells, edits, seed, ground, center, pick, key);
            forall|x: i64, z: i64| #[trigger]
                is(x as int, z as int) == (was(x as int, z as int) || more(x as int, z as int))
        }),
{
    let n = key.cx - start.cx;
    let row = key.cz as int;
    assert forall|other: ChunkKey| #[trigger]
        is_filled(start, end, row, n + 1, other) == (other == key || is_filled(
            start,
            end,
            row,
            n,
            other,
        )) by {}
}

/// After the chunks of a row come those of the next.
pub(crate) proof fn lemma_filled_row(
    cells: Cells,
    edits: Edited,
    seed: u64,
    ground: &HeightTable,
    center: (i64, i64),
    pick: spec_fn(ChunkKey) -> bool,
    start: ChunkKey,
    end: ChunkKey,
    row: int,
)
    ensures
        filled_columns(
            cells,
            edits,
            seed,
            ground,
            center,
            pick,
            start,
            end,
            row,
            end.cx - start.cx + 1,
        ) == filled_columns(cells, edits, seed, ground, center, pick, start, end, row + 1, 0),
{
    let n = end.cx - start.cx + 1;
    assert forall|key: ChunkKey| #[trigger]
        is_filled(start, end, row, n, key) == is_filled(start, end, row + 1, 0, key) by {}
    let was = filled_columns(cells, edits, seed, ground, center, pick, start, end, row, n);
    let is = filled_columns(cells, edits, seed, ground, center, pick, start, end, row + 1, 0);
    assert(was =~= is);
}

/// All chunks of a view have been filled.
pub(crate) proof fn lemma_all_filled(
    cells: Cells,
    edits: Edited,
    seed: u64,
    ground: &HeightTable,
    center: (i64, i64),
    radius: i64,
    pick: spec_fn(ChunkKey) -> bool,
)
    requires
        radius > CHUNK_SIZE,
    ensures
        ({
            let start = chunk_at(center.0 - radius, center.1 - radius);
            let end = chunk_at(center.0 + radius, center.1 + radius);
            filled_columns(
                cells,
                edits,
                seed,
                ground,
                center,
                pick,
                start,
                end,
                end.cz + 1,
                0,
            ) == view_columns(cells, edits, seed, ground, center, radius, pick)
        }),
{
    let start = chunk_at(center.0 - radius, center.1 - radius);
    let end = chunk_at(center.0 + radius, center.1 + radius);
    assert forall|key: ChunkKey| #[trigger]
        is_filled(start, end, end.cz + 1, 0, key) == chunk_between(start, end, key) by {}
    let row = end.cz + 1;
    let is = filled_columns(cells, edits, seed, ground, center, pick, start, end, row, 0);
    let all = view_columns(cells, edits, seed, ground, center, radius, pick);
    assert forall|x: int, z: int| #[trigger] is(x, z) == all(x, z) by {
        if all(x, z) {
            let key = choose|key: ChunkKey|
                chunk_between(start, end, key) && pick(key) && #[trigger] view_chunk_asks(
                    cells,
                    edits,
                    seed,
                    ground,
                    center,
                    key,
                    x,
                    z,
                );
            assert(is_filled(start, end, row, 0, key));
        }
    }
    assert(is =~= all);
}

/// Whether the heights on which the meshes of a rectangle of chunks depend have been
/// sampled.
pub open spec fn are_mapped(ground: &HeightTable, start: ChunkKey, end: ChunkKey) -> bool {
    forall|key: ChunkKey| #[trigger] chunk_between(start, end, key) ==> is_mapped(ground, key)
}

/// Whether the heights on which the mesh of a view depends have been sampled.
pub open spec fn is_view_mapped(ground: &HeightTable, center: (i64, i64), radius: i64) -> bool {
    let reach = radius + CHUNK_SIZE + GROUND_REACH;
    ground.covers(center.0 - reach, center.0 + reach, center.1 - reach, center.1 + reach)
}

/// Where the heights of a view have been sampled, so have those of its chunks.
pub(crate) proof fn lemma_view_mapped(ground: &HeightTable, center: (i64, i64), radius: i64)
    requires
        in_some_chunk(center.0 - radius),
        in_some_chunk(center.0 + radius),
        in_some_chunk(center.1 - radius),
        in_some_chunk(center.1 + radius),
        is_view_mapped(ground, center, radius),
    ensures
        are_mapped(
            ground,
            chunk_at(center.0 - radius, center.1 - radius),
            chunk_at(center.0 + radius, center.1 + radius),
        ),
{
    let start = chunk_at(center.0 - radius, center.1 - radius);
    let end = chunk_at(center.0 + radius, center.1 + radius);
    assert forall|key: ChunkKey| #[trigger] chunk_between(start, end, key) implies is_mapped(
        ground,
        key,
    ) by {
        lemma_chunk_in_view(center, radius, key);
    }
}

/// Where the heights of a view have been sampled, its columns are known.
pub(crate) proof fn lemma_small_view_known(
    world: &GeneratedVoxelWorld,
    center: (i64, i64),
    radius: i64,
)
    requires
        is_view_mapped(&world.ground(), center, radius),
    ensures
        knows_within(world, around(center.0, center.1, radius).grown(LIGHT_HALO as int)),
{
    let area = around(center.0, center.1, radius).grown(LIGHT_HALO as int);
    assert forall|x: i64, z: i64|
        area.min_x <= x <= area.max_x && area.min_z <= z
            <= area.max_z implies #[trigger] world.knows(
        x,
        z,
    ) by {
        assert(world.surveyed(x, z));
    }
}

/// Whether a chunk belongs to a rectangle of chunks.
pub open spec fn chunk_between(start: ChunkKey, end: ChunkKey, key: ChunkKey) -> bool {
    start.cx <= key.cx <= end.cx && start.cz <= key.cz <= end.cz
}

/// How many of the first `n` chunks of a row a condition picks.
pub open spec fn picked_in_row(pick: spec_fn(ChunkKey) -> bool, cx: int, cz: int, n: nat) -> nat
    decreases n,
{
    if n == 0 {
        0
    } else {
        picked_in_row(pick, cx, cz, (n - 1) as nat) + (if pick(key_of(cx + n - 1, cz)) {
            1nat
        } else {
            0nat
        })
    }
}

/// How many chunks of the first `n` rows a condition picks.
pub open spec fn picked(
    pick: spec_fn(ChunkKey) -> bool,
    start: ChunkKey,
    across: nat,
    n: nat,
) -> nat
    decreases n,
{
    if n == 0 {
        0
    } else {
        picked(pick, start, across, (n - 1) as nat) + picked_in_row(
            pick,
            start.cx as int,
            start.cz + n - 1,
            across,
        )
    }
}

impl RegionMeshCache {
    /// Whether the mesh of a chunk has to be built for a view: none is kept for its
    /// level of detail, or edits reach it.
    pub open spec fn must_build(
        &self,
        center: (i64, i64),
        edits: Seq<Placed>,
        key: ChunkKey,
    ) -> bool {
        ||| !self.keeps(key)
        ||| self.kept_level(key) != level_from(center, key)
        ||| edits_reach(&self.spec_world(), edits, key)
    }

    /// Builds the mesh of a chunk, unless it is kept at that level of detail. Says
    /// whether it was built.
    fn ensure_chunk(&mut self, key: ChunkKey, lod: LodLevel, tiles: &TileTable) -> (r: bool)
        requires
            old(self).wf(),
            is_mapped(&old(self).world.ground(), key),
            tiles.wf(),
        ensures
            final(self).wf(),
            only_kept(&old(self).world, &final(self).world),
            final(self).rebuilt_chunks == old(self).rebuilt_chunks,
            forall|other: ChunkKey| #[trigger]
                final(self).keeps(other) == (other == key || old(self).keeps(other)),
            forall|other: ChunkKey|
                final(self).keeps(other) ==> #[trigger] final(self).kept_level(other) == (if other
                    == key {
                    lod
                } else {
                    old(self).kept_level(other)
                }),
            r == !(old(self).keeps(key) && old(self).kept_level(key) == lod),
            keeps_just(
                &old(self).world,
                &final(self).world,
                |x: int, z: int|
                    r && chunk_columns(
                        world_cells(&old(self).world),
                        world_edits(&old(self).world),
                        old(self).world.spec_seed(),
                        &old(self).world.ground(),
                        key,
                        lod,
                    )(x, z),
            ),
    {
        proof {
            self.world.lemma_keeps_itself();
        }
        let cx: i64 = key.cx as i64;
        let cz: i64 = key.cz as i64;
        if let Some(entry) = self.chunks.get(cx, cz) {
            if entry.lod == lod {
                return false;
            }
        }
        let none: Vec<Placed> = Vec::new();
        let mesh = VoxelMesh::build_chunk(&mut self.world, key, lod, tiles, &none);
        let ghost built = self.chunks;
        proof {
            assert forall|x: i64, y: int, z: i64| #[trigger] self.world.edit(x, y, z) == old(
                self,
            ).world.edit(x, y, z) by {
                assert(applied(none@, x, y, z, old(self).world.edit(x, y, z)) == old(
                    self,
                ).world.edit(x, y, z));
            }
            lemma_cells_kept(&old(self).world, &self.world);
        }
        self.chunks.insert(cx, cz, CachedChunkMesh { lod, mesh });
        proof {
            assert forall|a: i64, b: i64| #[trigger] self.chunks.has(a, b) implies self.is_current(
                a,
                b,
            ) by {
                if a == cx && b == cz {
                    assert(key_of(a as int, b as int) == key);
                } else {
                    assert(built.has(a, b));
                    assert(old(self).is_current(a, b));
                    assert(self.chunks.at(a, b) == built.at(a, b));
                }
            }
            assert forall|other: ChunkKey| self.keeps(other) implies #[trigger] self.kept_level(
                other,
            ) == (if other == key {
                lod
            } else {
                old(self).kept_level(other)
            }) by {
                let at = self.chunks.at(other.cx as i64, other.cz as i64);
                if other != key {
                    assert(built.has(other.cx as i64, other.cz as i64));
                }
            }
        }
        true
    }

    /// Drops the meshes outside a rectangle of chunks.
    fn keep_between(&mut self, start: ChunkKey, end: ChunkKey)
        requires
            old(self).wf(),
        ensures
            final(self).wf(),
            final(self).world == old(self).world,
            final(self).rebuilt_chunks == old(self).rebuilt_chunks,
            forall|key: ChunkKey| #[trigger]
                final(self).keeps(key) == (old(self).keeps(key) && chunk_between(start, end, key)),
            forall|key: ChunkKey|
                final(self).keeps(key) ==> #[trigger] final(self).kept_level(key) == old(
                    self,
                ).kept_level(key),
    {
        self.chunks.retain_within(
            start.cx as i64,
            end.cx as i64,
            start.cz as i64,
            end.cz as i64,
        );
        proof {
            assert forall|cx: i64, cz: i64| #[trigger] self.chunks.has(cx, cz) implies self.is_current(
                cx,
                cz,
            ) by {
                assert(old(self).is_current(cx, cz));
                assert(self.chunks.at(cx, cz) == old(self).chunks.at(cx, cz));
            }
            assert forall|key: ChunkKey| self.keeps(key) implies #[trigger] self.kept_level(key)
                == old(self).kept_level(key) by {
                let at = self.chunks.at(key.cx as i64, key.cz as i64);
            }
        }
    }
}

/// Whether a chunk comes before others in a rectangle: in an earlier row, or among the
/// first `n` of a row.
pub(crate) open spec fn is_filled(start: ChunkKey, end: ChunkKey, row: int, n: int, key: ChunkKey) -> bool {
    chunk_between(start, end, key) && (key.cz < row || (key.cz == row && key.cx < start.cx + n))
}

proof fn lemma_picked_few(pick: spec_fn(ChunkKey) -> bool, start: ChunkKey, across: nat, n: nat)
    ensures
        picked(pick, start, across, n) <= across * n,
    decreases n,
{
    if n > 0 {
        lemma_picked_few(pick, start, across, (n - 1) as nat);
        lemma_row_picked_few(pick, start.cx as int, start.cz + n - 1, across);
        assert(across * (n - 1) + across == across * n) by (nonlinear_arith);
    } else {
        assert(across * n == 0) by (nonlinear_arith)
            requires
                n == 0,
        ;
    }
}

proof fn lemma_row_picked_few(pick: spec_fn(ChunkKey) -> bool, cx: int, cz: int, n: nat)
    ensures
        picked_in_row(pick, cx, cz, n) <= n,
    decreases n,
{
    if n > 0 {
        lemma_row_picked_few(pick, cx, cz, (n - 1) as nat);
    }
}

impl RegionMeshCache {
    /// What holds between two steps of filling a view: the chunks before are kept at
    /// their level of detail, the others are as they were.
    spec fn filling(
        &self,
        first: &RegionMeshCache,
        center: (i64, i64),
        pick: spec_fn(ChunkKey) -> bool,
        start: ChunkKey,
        end: ChunkKey,
        row: int,
        n: int,
    ) -> bool {
        &&& self.wf()
        &&& only_kept(&first.world, &self.world)
        &&& keeps_just(
            &first.world,
            &self.world,
            filled_columns(
                world_cells(&first.world),
                world_edits(&first.world),
                first.world.spec_seed(),
                &first.world.ground(),
                center,
                pick,
                start,
                end,
                row,
                n,
            ),
        )
        &&& forall|key: ChunkKey| #[trigger]
            self.keeps(key) == (first.keeps(key) || is_filled(start, end, row, n, key))
        &&& forall|key: ChunkKey|
            self.keeps(key) ==> #[trigger] self.kept_level(key) == (if is_filled(
                start,
                end,
                row,
                n,
                key,
            ) {
                level_from(center, key)
            } else {
                first.kept_level(key)
            })
    }

    /// Builds what is missing of a row of chunks.
    fn fill_row(
        &mut self,
        center: (i64, i64),
        start: ChunkKey,
        end: ChunkKey,
        cz: i32,
        tiles: &TileTable,
        Ghost(first): Ghost<&RegionMeshCache>,
        Ghost(pick): Ghost<spec_fn(ChunkKey) -> bool>,
    ) -> (r: u64)
        requires
            tiles.wf(),
            start.cx <= end.cx,
            start.cz <= cz <= end.cz,
            in_some_chunk(center.0 as int),
            in_some_chunk(center.1 as int),
            old(self).filling(first, center, pick, start, end, cz as int, 0),
            are_mapped(&first.world.ground(), start, end),
            forall|key: ChunkKey|
                chunk_between(start, end, key) ==> #[trigger] pick(key) == !(first.keeps(key)
                    && first.kept_level(key) == level_from(center, key)),
        ensures
            final(self).filling(first, center, pick, start, end, cz + 1, 0),
            r == picked_in_row(
                pick,
                start.cx as int,
                cz as int,
                (end.cx - start.cx + 1) as nat,
            ),
    {
        let mut count: u64 = 0;
        let mut cx: i64 = start.cx as i64;
        let last: i64 = end.cx as i64;
        while cx <= last
            invariant
                tiles.wf(),
                last == end.cx,
                start.cx <= cx <= last + 1,
                start.cz <= cz <= end.cz,
                in_some_chunk(center.0 as int),
                in_some_chunk(center.1 as int),
                self.filling(first, center, pick, start, end, cz as int, cx - start.cx),
                are_mapped(&first.world.ground(), start, end),
                forall|key: ChunkKey|
                    chunk_between(start, end, key) ==> #[trigger] pick(key) == !(first.keeps(key)
                        && first.kept_level(key) == level_from(center, key)),
                count == picked_in_row(
                    pick,
                    start.cx as int,
                    cz as int,
                    (cx - start.cx) as nat,
                ),
            decreases last + 1 - cx,
        {
            let ghost before = *self;
            let key = ChunkKey { cx: cx as i32, cz };
            let lod = LodLevel::from_distance(key.distance_to(center.0, center.1));
            assert(chunk_between(start, end, key));
            let built = self.ensure_chunk(key, lod, tiles);
            proof {
                lemma_only_kept(&first.world, &before.world, &self.world);
                let cells = world_cells(&first.world);
                let edits = world_edits(&first.world);
                let seed = first.world.spec_seed();
                let ground = first.world.ground();
                let row = cz as int;
                let n = cx - start.cx;
                let more = picked_columns(cells, edits, seed, &ground, center, pick, key);
                lemma_next_filled(
                    cells,
                    edits,
                    seed,
                    &ground,
                    center,
                    pick,
                    start,
                    end,
                    key,
                );
                assert(built == pick(key)) by {
                    assert(before.keeps(key) == first.keeps(key));
                    assert(before.keeps(key) ==> before.kept_level(key) == first.kept_level(key));
                }
                assert(keeps_just(&before.world, &self.world, more));
                lemma_keeps_just(
                    &first.world,
                    &before.world,
                    &self.world,
                    filled_columns(
                        cells,
                        edits,
                        seed,
                        &ground,
                        center,
                        pick,
                        start,
                        end,
                        row,
                        n,
                    ),
                    more,
                    filled_columns(
                        cells,
                        edits,
                        seed,
                        &ground,
                        center,
                        pick,
                        start,
                        end,
                        row,
                        n + 1,
                    ),
                );
                lemma_row_picked_few(pick, start.cx as int, cz as int, (cx - start.cx) as nat);
                assert(key_of(cx as int, cz as int) == key);
                assert(before.keeps(key) == first.keeps(key));
                assert(before.keeps(key) ==> before.kept_level(key) == first.kept_level(key));
                assert(built == pick(key));
                assert forall|other: ChunkKey| #[trigger]
                    is_filled(start, end, cz as int, cx + 1 - start.cx, other) == (other == key
                        || is_filled(start, end, cz as int, cx - start.cx, other)) by {}
                assert forall|other: ChunkKey| #[trigger]
                    self.keeps(other) == (first.keeps(other) || is_filled(
                        start,
                        end,
                        cz as int,
                        cx + 1 - start.cx,
                        other,
                    )) by {
                    assert(before.keeps(other) || !before.keeps(other));
                }
                assert forall|other: ChunkKey|
                    self.keeps(other) implies #[trigger] self.kept_level(other) == (if is_filled(
                    start,
                    end,
                    cz as int,
                    cx + 1 - start.cx,
                    other,
                ) {
                    level_from(center, other)
                } else {
                    first.kept_level(other)
                }) by {
                    if other != key {
                        assert(before.keeps(other));
                        assert(before.kept_level(other) == self.kept_level(other));
                    }
                }
            }
            if built {
                count = count + 1;
            }
            cx += 1;
        }
        proof {
            lemma_filled_row(
                world_cells(&first.world),
                world_edits(&first.world),
                first.world.spec_seed(),
                &first.world.ground(),
                center,
                pick,
                start,
                end,
                cz as int,
            );
            assert forall|key: ChunkKey| #[trigger]
                is_filled(start, end, cz + 1, 0, key) == is_filled(
                    start,
                    end,
                    cz as int,
                    cx - start.cx,
                    key,
                ) by {}
        }
        count
    }
}

impl RegionMeshCache {
    /// Whether the chunks of a row are kept at their levels of detail.
    spec fn row_ready(&self, center: (i64, i64), start: ChunkKey, end: ChunkKey, cz: int) -> bool {
        forall|key: ChunkKey|
            start.cx <= key.cx <= end.cx && key.cz == cz ==> #[trigger] self.keeps(key)
                && self.kept_level(key) == level_from(center, key)
    }

    /// Adds the faces of a kept chunk.
    fn gather_chunk(&self, mesh: &mut VoxelMesh, key: ChunkKey)
        requires
            self.wf(),
            self.keeps(key),
        ensures
            forall|had: Seq<Quad>| #[trigger]
                old(mesh).holds(had) ==> final(mesh).holds(
                    had + chunk_quads(
                        world_cells(&self.world),
                        self.world.spec_seed(),
                        &self.world.ground(),
                        key,
                        self.kept_level(key),
                    ),
                ),
    {
        let cx: i64 = key.cx as i64;
        let cz: i64 = key.cz as i64;
        proof {
            assert(self.chunks.has(cx, cz));
            assert(self.is_current(cx, cz));
            assert(key_of(cx as int, cz as int) == key);
        }
        if let Some(entry) = self.chunks.get(cx, cz) {
            mesh.append(&entry.mesh);
        }
    }

    /// Adds the faces of a row of kept chunks.
    fn gather_row(
        &self,
        mesh: &mut VoxelMesh,
        center: (i64, i64),
        start: ChunkKey,
        end: ChunkKey,
        cz: i32,
    )
        requires
            self.wf(),
            start.cx <= end.cx,
            self.row_ready(center, start, end, cz as int),
        ensures
            forall|had: Seq<Quad>| #[trigger]
                old(mesh).holds(had) ==> final(mesh).holds(
                    with_chunk_row(
                        had,
                        world_cells(&self.world),
                        self.world.spec_seed(),
                        &self.world.ground(),
                        center,
                        start.cx as int,
                        cz as int,
                        (end.cx - start.cx + 1) as nat,
                    ),
                ),
    {
        let ghost cells = world_cells(&self.world);
        let ghost seed = self.world.spec_seed();
        let ghost ground = self.world.ground();
        let mut cx: i64 = start.cx as i64;
        let last: i64 = end.cx as i64;
        while cx <= last
            invariant
                self.wf(),
                last == end.cx,
                start.cx <= cx <= last + 1,
                cells == world_cells(&self.world),
                seed == self.world.spec_seed(),
                ground == self.world.ground(),
                self.row_ready(center, start, end, cz as int),
                forall|had: Seq<Quad>| #[trigger]
                    old(mesh).holds(had) ==> mesh.holds(
                        with_chunk_row(
                            had,
                            cells,
                            seed,
                            &ground,
                            center,
                            start.cx as int,
                            cz as int,
                            (cx - start.cx) as nat,
                        ),
                    ),
            decreases last + 1 - cx,
        {
            let key = ChunkKey { cx: cx as i32, cz };
            let ghost before = *mesh;
            assert(self.keeps(key));
            self.gather_chunk(mesh, key);
            proof {
                assert(key == key_of(start.cx + (cx + 1 - start.cx) - 1, cz as int));
                assert forall|had: Seq<Quad>| #[trigger] old(mesh).holds(had) implies mesh.holds(
                    with_chunk_row(
                        had,
                        cells,
                        seed,
                        &ground,
                        center,
                        start.cx as int,
                        cz as int,
                        (cx + 1 - start.cx) as nat,
                    ),
                ) by {
                    assert(before.holds(
                        with_chunk_row(
                            had,
                            cells,
                            seed,
                            &ground,
                            center,
                            start.cx as int,
                            cz as int,
                            (cx - start.cx) as nat,
                        ),
                    ));
                }
            }
            cx += 1;
        }
    }

    /// The mesh of a view. Meshes that are kept are used again where nothing near them
    /// has changed; the others are built. What is out of view is dropped.
    pub fn build(
        &mut self,
        center: (i64, i64),
        radius: i64,
        tiles: &TileTable,
        edits: &Vec<Placed>,
    ) -> (r: VoxelMesh)
        requires
            old(self).wf(),
            tiles.wf(),
            view_fits(center, radius),
            is_view_mapped(&old(self).spec_world().ground(), center, radius),
            forall|i: int|
                0 <= i < edits@.len() ==> inside((#[trigger] edits@[i]).0 as int) && inside(
                    edits@[i].2 as int,
                ),
        ensures
            final(self).wf(),
            r.holds(
                view_quads(
                    world_cells(&final(self).spec_world()),
                    old(self).spec_world().spec_seed(),
                    &old(self).spec_world().ground(),
                    center,
                    radius,
                ),
            ),
            final(self).spec_world().spec_seed() == old(self).spec_world().spec_seed(),
            final(self).spec_world().ground() == old(self).spec_world().ground(),
            final(self).spec_world().keeps_more(&old(self).spec_world()),
            old(self).spec_world().pristine() ==> final(self).spec_world().pristine(),
            final(self).spec_world().wf(),
            keeps_just(
                &old(self).spec_world(),
                &final(self).spec_world(),
                view_columns(
                    world_cells(&final(self).spec_world()),
                    world_edits(&final(self).spec_world()),
                    old(self).spec_world().spec_seed(),
                    &old(self).spec_world().ground(),
                    center,
                    radius,
                    |key: ChunkKey| old(self).must_build(center, edits@, key),
                ),
            ),
            forall|x: i64, y: int, z: i64| #[trigger]
                final(self).spec_world().edit(x, y, z) == applied(edits@, x, y, z, None),
            final(self).kept_total() == if radius <= CHUNK_SIZE {
                0
            } else {
                view_size(center, radius)
            },
            ({
                let start = chunk_at(center.0 - radius, center.1 - radius);
                let end = chunk_at(center.0 + radius, center.1 + radius);
                &&& forall|key: ChunkKey| #[trigger]
                    final(self).keeps(key) <==> radius > CHUNK_SIZE && chunk_between(
                        start,
                        end,
                        key,
                    )
                &&& forall|key: ChunkKey|
                    final(self).keeps(key) ==> #[trigger] final(self).kept_level(key)
                        == level_from(center, key)
                &&& final(self).rebuilt() == if radius <= CHUNK_SIZE {
                    0
                } else {
                    picked(
                        |key: ChunkKey| old(self).must_build(center, edits@, key),
                        start,
                        (end.cx - start.cx + 1) as nat,
                        (end.cz - start.cz + 1) as nat,
                    )
                }
            }),
    {
        self.set_edits(edits);
        let ghost edited = *self;
        let ghost pick = |key: ChunkKey| old(self).must_build(center, edits@, key);
        proof {
            edited.world.lemma_keeps_itself();
            lemma_edited_world(&old(self).world, &edited.world);
        }
        if radius <= CHUNK_SIZE {
            self.chunks.clear();
            self.rebuilt_chunks = 0;
            proof {
                lemma_small_view_fits(center, radius);
                lemma_small_view_known(&self.world, center, radius);
            }
            let mesh = VoxelMesh::build(&mut self.world, center.0, center.1, radius, tiles);
            proof {
                lemma_cells_kept(&edited.world, &self.world);
                lemma_keeps_just(
                    &old(self).world,
                    &edited.world,
                    &self.world,
                    |x: int, z: int| false,
                    columns_of(around(center.0, center.1, radius).grown(LIGHT_HALO as int)),
                    columns_of(around(center.0, center.1, radius).grown(LIGHT_HALO as int)),
                );
                self.world.lemma_same_content(&edited.world);
                GeneratedVoxelWorld::lemma_keeps_more_yet(
                    &old(self).world,
                    &edited.world,
                    &self.world,
                );
                assert forall|x: i64, y: int, z: i64| #[trigger]
                    self.world.edit(x, y, z) == applied(edits@, x, y, z, None) by {
                    assert(self.world.edit(x, y, z) == edited.world.edit(x, y, z));
                }
            }
            return mesh;
        }
        let start = ChunkKey::from_block(center.0 - radius, center.1 - radius);
        let end = ChunkKey::from_block(center.0 + radius, center.1 + radius);
        self.keep_between(start, end);
        let ghost first = *self;
        proof {
            assert forall|key: ChunkKey| chunk_between(start, end, key) implies #[trigger] pick(key)
                == !(first.keeps(key) && first.kept_level(key) == level_from(center, key)) by {
                assert(edited.keeps(key) == (old(self).keeps(key) && !edits_reach(
                    &old(self).world,
                    edits@,
                    key,
                )));
                assert(first.keeps(key) == edited.keeps(key));
                if first.keeps(key) {
                    assert(first.kept_level(key) == edited.kept_level(key));
                    assert(edited.kept_level(key) == old(self).kept_level(key));
                }
            }
        }
        proof {
            lemma_view_mapped(&self.world.ground(), center, radius);
        }
        let count: u64 = self.fill(center, start, end, tiles, Ghost(pick));
        proof {
            self.lemma_view_ready(&first, center, pick, start, end);
            lemma_cells_kept(&edited.world, &self.world);
            let cells = world_cells(&edited.world);
            let placed = world_edits(&edited.world);
            let seed = edited.world.spec_seed();
            let ground = edited.world.ground();
            lemma_all_filled(cells, placed, seed, &ground, center, radius, pick);
            let asked = view_columns(cells, placed, seed, &ground, center, radius, pick);
            lemma_keeps_just(
                &old(self).world,
                &edited.world,
                &self.world,
                |x: int, z: int| false,
                asked,
                asked,
            );
            self.lemma_view_counted(start, end);
            self.world.lemma_same_content(&edited.world);
            GeneratedVoxelWorld::lemma_keeps_more_yet(
                &old(self).world,
                &edited.world,
                &self.world,
            );
            assert forall|x: i64, y: int, z: i64| #[trigger]
                self.world.edit(x, y, z) == applied(edits@, x, y, z, None) by {
                assert(self.world.edit(x, y, z) == edited.world.edit(x, y, z));
            }
        }
        let mesh = self.gather(center, start, end);
        let ghost filled = *self;
        self.rebuilt_chunks = count;
        proof {
            self.lemma_count_is_apart(&filled);
        }
        mesh
    }

    /// A cache that keeps the chunks of a rectangle keeps as many as that has.
    proof fn lemma_view_counted(&self, start: ChunkKey, end: ChunkKey)
        requires
            self.wf(),
            start.cx <= end.cx,
            start.cz <= end.cz,
            forall|key: ChunkKey| #[trigger] self.keeps(key) == chunk_between(start, end, key),
        ensures
            self.kept_total() == (end.cx - start.cx + 1) * (end.cz - start.cz + 1),
    {
        let (x0, z0) = (start.cx as int, start.cz as int);
        let nx = (end.cx - start.cx + 1) as nat;
        let nz = (end.cz - start.cz + 1) as nat;
        self.chunks.lemma_count();
        assert forall|x: i64, z: i64| #[trigger]
            self.chunks.columns().contains((x, z)) == (on_grid(x0, nx as int, 1, x as int)
                && on_grid(z0, nz as int, 1, z as int)) by {
            lemma_grid_of_ones(x0, nx as int, x as int);
            lemma_grid_of_ones(z0, nz as int, z as int);
            let key = key_of(x as int, z as int);
            if self.chunks.has(x, z) {
                assert(self.is_current(x, z));
                assert(self.keeps(key));
            }
            if start.cx <= x <= end.cx && start.cz <= z <= end.cz {
                assert(chunk_between(start, end, key));
                assert(self.keeps(key));
            }
        }
        lemma_grid_len(self.chunks.columns(), x0, nx, z0, nz, 1);
    }

    proof fn lemma_count_is_apart(&self, other: &RegionMeshCache)
        requires
            self.world == other.world,
            self.chunks == other.chunks,
        ensures
            self.wf() == other.wf(),
            forall|key: ChunkKey| #[trigger] self.keeps(key) == other.keeps(key),
            forall|key: ChunkKey| #[trigger] self.kept_level(key) == other.kept_level(key),
    {
        assert forall|cx: i64, cz: i64| #[trigger] self.is_current(cx, cz) == other.is_current(
            cx,
            cz,
        ) by {}
        if self.wf() {
            assert forall|cx: i64, cz: i64| #[trigger]
                other.chunks.has(cx, cz) implies other.is_current(cx, cz) by {
                assert(self.is_current(cx, cz));
            }
        }
    }

    proof fn lemma_view_ready(
        &self,
        first: &RegionMeshCache,
        center: (i64, i64),
        pick: spec_fn(ChunkKey) -> bool,
        start: ChunkKey,
        end: ChunkKey,
    )
        requires
            self.filling(first, center, pick, start, end, end.cz + 1, 0),
            forall|key: ChunkKey| #[trigger]
                first.keeps(key) ==> chunk_between(start, end, key),
        ensures
            forall|key: ChunkKey| #[trigger] self.keeps(key) == chunk_between(start, end, key),
            forall|key: ChunkKey|
                self.keeps(key) ==> #[trigger] self.kept_level(key) == level_from(center, key),
            forall|cz: int|
                start.cz <= cz <= end.cz ==> #[trigger] self.row_ready(center, start, end, cz),
    {
        assert forall|key: ChunkKey| #[trigger]
            self.keeps(key) == chunk_between(start, end, key) by {
            assert(is_filled(start, end, end.cz + 1, 0, key) == chunk_between(start, end, key));
            assert(first.keeps(key) || !first.keeps(key));
        }
        assert forall|key: ChunkKey| self.keeps(key) implies #[trigger] self.kept_level(key)
            == level_from(center, key) by {
            assert(is_filled(start, end, end.cz + 1, 0, key));
        }
        assert forall|cz: int| start.cz <= cz <= end.cz implies #[trigger] self.row_ready(
            center,
            start,
            end,
            cz,
        ) by {
            assert forall|key: ChunkKey|
                start.cx <= key.cx <= end.cx && key.cz == cz implies #[trigger] self.keeps(key)
                && self.kept_level(key) == level_from(center, key) by {
                let level = self.kept_level(key);
            }
        }
    }

    fn fill(
        &mut self,
        center: (i64, i64),
        start: ChunkKey,
        end: ChunkKey,
        tiles: &TileTable,
        Ghost(pick): Ghost<spec_fn(ChunkKey) -> bool>,
    ) -> (r: u64)
        requires
            old(self).wf(),
            tiles.wf(),
            start.cx <= end.cx,
            start.cz <= end.cz,
            (end.cx - start.cx + 1) * (end.cz - start.cz + 1) <= u64::MAX,
            are_mapped(&old(self).world.ground(), start, end),
            in_some_chunk(center.0 as int),
            in_some_chunk(center.1 as int),
            forall|key: ChunkKey|
                chunk_between(start, end, key) ==> #[trigger] pick(key) == !(old(self).keeps(key)
                    && old(self).kept_level(key) == level_from(center, key)),
        ensures
            final(self).filling(old(self), center, pick, start, end, end.cz + 1, 0),
            r == picked(
                pick,
                start,
                (end.cx - start.cx + 1) as nat,
                (end.cz - start.cz + 1) as nat,
            ),
    {
        let mut count: u64 = 0;
        let mut cz: i64 = start.cz as i64;
        let last: i64 = end.cz as i64;
        let ghost across = (end.cx - start.cx + 1) as nat;
        proof {
            self.world.lemma_keeps_itself();
        }
        while cz <= last
            invariant
                tiles.wf(),
                last == end.cz,
                start.cx <= end.cx,
                start.cz <= cz <= last + 1,
                across == end.cx - start.cx + 1,
                across * (end.cz - start.cz + 1) <= u64::MAX,
                in_some_chunk(center.0 as int),
                in_some_chunk(center.1 as int),
                self.filling(old(self), center, pick, start, end, cz as int, 0),
                are_mapped(&old(self).world.ground(), start, end),
                forall|key: ChunkKey|
                    chunk_between(start, end, key) ==> #[trigger] pick(key) == !(old(self).keeps(
                        key,
                    ) && old(self).kept_level(key) == level_from(center, key)),
                count == picked(pick, start, across, (cz - start.cz) as nat),
            decreases last + 1 - cz,
        {
            let built: u64 = self.fill_row(
                center,
                start,
                end,
                cz as i32,
                tiles,
                Ghost(old(self)),
                Ghost(pick),
            );
            proof {
                lemma_picked_few(pick, start, across, (cz + 1 - start.cz) as nat);
                assert(across * (cz + 1 - start.cz) <= across * (end.cz - start.cz + 1))
                    by (nonlinear_arith)
                    requires
                        cz + 1 - start.cz <= end.cz - start.cz + 1,
                        across >= 0,
                ;
            }
            count = count + built;
            cz += 1;
        }
        count
    }

    fn gather(&self, center: (i64, i64), start: ChunkKey, end: ChunkKey) -> (r: VoxelMesh)
        requires
            self.wf(),
            start.cx <= end.cx,
            start.cz <= end.cz,
            forall|cz: int|
                start.cz <= cz <= end.cz ==> #[trigger] self.row_ready(center, start, end, cz),
        ensures
            r.holds(
                chunk_rows(
                    world_cells(&self.world),
                    self.world.spec_seed(),
                    &self.world.ground(),
                    center,
                    start,
                    (end.cx - start.cx + 1) as nat,
                    (end.cz - start.cz + 1) as nat,
                ),
            ),
    {
        let mut mesh = VoxelMesh::new();
        let mut cz: i64 = start.cz as i64;
        let last: i64 = end.cz as i64;
        let ghost across = (end.cx - start.cx + 1) as nat;
        while cz <= last
            invariant
                self.wf(),
                last == end.cz,
                start.cx <= end.cx,
                start.cz <= cz <= last + 1,
                across == end.cx - start.cx + 1,
                forall|cz: int|
                    start.cz <= cz <= end.cz ==> #[trigger] self.row_ready(center, start, end, cz),
                mesh.holds(
                    chunk_rows(
                        world_cells(&self.world),
                        self.world.spec_seed(),
                        &self.world.ground(),
                        center,
                        start,
                        across,
                        (cz - start.cz) as nat,
                    ),
                ),
            decreases last + 1 - cz,
        {
            assert(self.row_ready(center, start, end, cz as int));
            self.gather_row(&mut mesh, center, start, end, cz as i32);
            cz += 1;
        }
        mesh
    }
}

/// A world whose edits were replaced keeps what it kept.
pub(crate) proof fn lemma_edited_world(before: &GeneratedVoxelWorld, after: &GeneratedVoxelWorld)
    requires
        after.same_columns(before),
    ensures
        after.keeps_more(before),
        before.pristine() ==> after.pristine(),
{
    assert forall|x: i64, z: i64|
        #![trigger after.cached(x, z)]
        #![trigger before.cached(x, z)]
        if before.cached(x, z) {
            after.cached(x, z) && after.kept(x, z) == before.kept(x, z)
        } else {
            !after.cached(x, z)
        } by {
        assert(after.cached(x, z) == before.cached(x, z));
    }
    if before.pristine() {
        assert forall|x: i64, z: i64| #[trigger] after.cached(x, z) implies {
            &&& inside(x as int)
            &&& inside(z as int)
            &&& after.surveyed(x, z)
            &&& is_generated(&after.kept(x, z), after.spec_seed(), &after.ground())
        } by {
            assert(before.cached(x, z));
            assert(before.surveyed(x, z));
        }
    }
}

/// Whether a view can be built: a small square has columns once it has its margin, and a
/// larger one has chunks that can be numbered and counted.
pub open spec fn view_fits(center: (i64, i64), radius: i64) -> bool {
    if radius <= CHUNK_SIZE {
        &&& -LIGHT_HALO <= radius
        &&& inside(center.0 - radius - LIGHT_HALO)
        &&& inside(center.0 + radius + LIGHT_HALO + 1)
        &&& inside(center.1 - radius - LIGHT_HALO)
        &&& inside(center.1 + radius + LIGHT_HALO + 1)
    } else {
        &&& in_some_chunk(center.0 - radius)
        &&& in_some_chunk(center.0 + radius)
        &&& in_some_chunk(center.1 - radius)
        &&& in_some_chunk(center.1 + radius)
        &&& view_size(center, radius) <= u64::MAX
    }
}

/// A small view can be meshed.
pub proof fn lemma_small_view_fits(center: (i64, i64), radius: i64)
    requires
        radius <= CHUNK_SIZE,
        view_fits(center, radius),
    ensures
        around_fits(center.0, center.1, radius),
{
    let wide = around(center.0, center.1, radius).grown(LIGHT_HALO as int);
    assert(wide.width() * wide.depth() * crate::world::skylight::HEIGHT <= 97 * 97 * 128)
        by (nonlinear_arith)
        requires
            0 <= wide.width() <= 97,
            0 <= wide.depth() <= 97,
    ;
}

/// Number of chunks of a view.
pub open spec fn view_size(center: (i64, i64), radius: i64) -> int {
    let start = chunk_at(center.0 - radius, center.1 - radius);
    let end = chunk_at(center.0 + radius, center.1 + radius);
    (end.cx - start.cx + 1) * (end.cz - start.cz + 1)
}

proof fn lemma_view_knows(world: &GeneratedVoxelWorld, view: &WorldView<'_>, center: (i64, i64))
    requires
        view.spec_world() == world,
        world.knows_area(
            center.0 - PROBE_REACH,
            center.0 + PROBE_REACH,
            center.1 - PROBE_REACH,
            center.1 + PROBE_REACH,
        ),
    ensures
        known_to_probes(view, center),
{
    assert forall|x: i64, z: i64|
        center.0 - PROBE_REACH <= x <= center.0 + PROBE_REACH && center.1 - PROBE_REACH <= z
            <= center.1 + PROBE_REACH implies #[trigger] view.known(x, z) by {
        assert(world.knows(x, z));
    }
}

impl RegionMeshCache {
    /// Asks the probes around a centre. The columns around it are generated at once and kept.
    pub fn bake_probes(&mut self, center: (i64, i64), rays: &Vec<Ray>) -> (r: ProbeVolume)
        requires
            old(self).wf(),
            old(self).spec_world().knows_area(
                center.0 - PROBE_REACH,
                center.0 + PROBE_REACH,
                center.1 - PROBE_REACH,
                center.1 + PROBE_REACH,
            ),
            inside(center.0 - 200),
            inside(center.0 + 200),
            inside(center.1 - 200),
            inside(center.1 + 200),
            forall|i: int| 0 <= i < rays@.len() ==> in_range((#[trigger] rays@[i])@),
        ensures
            final(self).wf(),
            r.origin.0 == grid_origin(center).0,
            r.origin.1 == Y_MIN,
            r.origin.2 == grid_origin(center).1,
            r.probes@.len() == TEXELS,
            is_baked(
                world_cells(&old(self).spec_world()),
                center,
                rays@,
                r.probes@,
                TEXELS as int,
            ),
            only_kept(&old(self).spec_world(), &final(self).spec_world()),
            keeps_just(
                &old(self).spec_world(),
                &final(self).spec_world(),
                columns_of(around(center.0, center.1, PRELOAD_REACH)),
            ),
            final(self).kept_total() == old(self).kept_total(),
            old(self).spec_world().pristine() ==> final(self).spec_world().pristine(),
            forall|key: ChunkKey| #[trigger] final(self).keeps(key) == old(self).keeps(key),
            forall|key: ChunkKey| #[trigger]
                final(self).kept_level(key) == old(self).kept_level(key),
            final(self).rebuilt() == old(self).rebuilt(),
    {
        self.world.preload_columns_parallel(
            center.0 - PRELOAD_REACH,
            center.0 + PRELOAD_REACH,
            center.1 - PRELOAD_REACH,
            center.1 + PRELOAD_REACH,
        );
        proof {
            lemma_cells_kept(&old(self).world, &self.world);
            self.world.lemma_same_content(&old(self).world);
            self.lemma_world_kept(old(self));
            self.world.lemma_knows_more(&old(self).world);
        }
        let mut view = WorldView::new(&self.world);
        proof {
            lemma_view_knows(&self.world, &view, center);
        }
        let ghost seen = cells_of(&view);
        let r = ProbeVolume::bake_in(&mut view, center, rays);
        proof {
            let cells = world_cells(&self.world);
            assert forall|a: int, b: int, c: int| Y_MIN <= b <= Y_MAX implies #[trigger] seen(
                a,
                b,
                c,
            ) == cells(a, b, c) by {}
            probes_see_layers_only(seen, cells, center, rays@, r.probes@, TEXELS as int);
        }
        r
    }

    /// Keeping columns leaves the meshes current.
    proof fn lemma_world_kept(&self, before: &RegionMeshCache)
        requires
            before.wf(),
            only_kept(&before.world, &self.world),
            self.chunks == before.chunks,
        ensures
            self.wf(),
    {
        lemma_cells_kept(&before.world, &self.world);
        assert forall|cx: i64, cz: i64| #[trigger] self.chunks.has(cx, cz) implies self.is_current(
            cx,
            cz,
        ) by {
            assert(before.is_current(cx, cz));
        }
    }

    /// Drops the columns that are far from a chunk. The meshes stay as they are.
    #[verifier::rlimit(40)]
    pub fn forget_far(&mut self, center: (i64, i64))
        requires
            old(self).wf(),
            old(self).spec_world().pristine(),
        ensures
            final(self).wf(),
            final(self).spec_world().pristine(),
            final(self).spec_world().same_source(&old(self).spec_world()),
            world_cells(&final(self).spec_world()) == world_cells(&old(self).spec_world()),
            ({
                let key = chunk_at(center.0 as int, center.1 as int);
                let x = key.west() + CHUNK_SIZE / 2;
                let z = key.north() + CHUNK_SIZE / 2;
                forall|a: i64, b: i64| #[trigger]
                    final(self).spec_world().cached(a, b) == (old(self).spec_world().cached(a, b)
                        && -KEPT_RADIUS <= a - x <= KEPT_RADIUS && -KEPT_RADIUS <= b - z
                        <= KEPT_RADIUS)
            }),
            forall|a: i64, b: i64|
                #![trigger final(self).spec_world().kept(a, b)]
                final(self).spec_world().cached(a, b) ==> final(self).spec_world().kept(a, b)
                    == old(self).spec_world().kept(a, b),
            final(self).rebuilt() == old(self).rebuilt(),
            final(self).kept_total() == old(self).kept_total(),
            forall|key: ChunkKey| #[trigger] final(self).keeps(key) == old(self).keeps(key),
            forall|key: ChunkKey| #[trigger]
                final(self).kept_level(key) == old(self).kept_level(key),
    {
        let middle = ChunkKey::from_block(center.0, center.1).center();
        self.world.retain_columns_within(middle.0, middle.1, KEPT_RADIUS);
        proof {
            self.lemma_forgotten(old(self));
        }
    }

    /// Dropping columns that can be generated again leaves the meshes current.
    proof fn lemma_forgotten(&self, before: &RegionMeshCache)
        requires
            before.wf(),
            self.chunks == before.chunks,
            self.world.wf(),
            self.world.spec_seed() == before.world.spec_seed(),
            self.world.ground() == before.world.ground(),
            forall|x: i64, y: int, z: i64| #[trigger]
                self.world.content(x, y, z) == before.world.content(x, y, z),
        ensures
            self.wf(),
            world_cells(&self.world) == world_cells(&before.world),
            forall|key: ChunkKey| #[trigger] self.keeps(key) == before.keeps(key),
            forall|key: ChunkKey| #[trigger] self.kept_level(key) == before.kept_level(key),
            self.kept_total() == before.kept_total(),
    {
        assert(world_cells(&self.world) =~= world_cells(&before.world));
        assert forall|cx: i64, cz: i64| #[trigger]
            self.chunks.has(cx, cz) implies self.is_current(cx, cz) by {
            assert(before.is_current(cx, cz));
        }
    }
}

/// Whether two worlds have the same seed, the same edits and, as far as a view depends on
/// them, the same heights, and nothing that the generator does not give.
pub open spec fn same_makings(
    a: &GeneratedVoxelWorld,
    b: &GeneratedVoxelWorld,
    center: (i64, i64),
    radius: i64,
) -> bool {
    &&& a.wf() && a.pristine()
    &&& b.wf() && b.pristine()
    &&& a.spec_seed() == b.spec_seed()
    &&& same_heights(&a.ground(), &b.ground(), mapped_area(center, radius))
    &&& forall|x: i64, y: int, z: i64| #[trigger] a.edit(x, y, z) == b.edit(x, y, z)
}

/// The columns on whose heights the mesh of a view depends.
pub open spec fn mapped_area(center: (i64, i64), radius: i64) -> Area {
    around(center.0, center.1, radius).grown(CHUNK_SIZE + GROUND_REACH)
}

/// A cache that has been used builds the same mesh as a fresh one: the mesh of a view is
/// the same for any two caches whose worlds, after the request, have the same seed and
/// edits and agree on the heights on which the view depends, whatever else each of them
/// was asked and given before.
pub proof fn caches_build_one_mesh(
    used: &GeneratedVoxelWorld,
    fresh: &GeneratedVoxelWorld,
    center: (i64, i64),
    radius: i64,
    first: &VoxelMesh,
    second: &VoxelMesh,
)
    requires
        view_fits(center, radius),
        same_makings(used, fresh, center, radius),
        first.holds(
            view_quads(world_cells(used), used.spec_seed(), &used.ground(), center, radius),
        ),
        second.holds(
            view_quads(world_cells(fresh), fresh.spec_seed(), &fresh.ground(), center, radius),
        ),
    ensures
        first.quads@ == second.quads@,
        first.transparent_quads@ == second.transparent_quads@,
{
    let (a, b) = (world_cells(used), world_cells(fresh));
    if radius <= CHUNK_SIZE {
        let area = around(center.0, center.1, radius);
        assert forall|x: int, y: int, z: int| area.grown(LIGHT_HALO as int).has(x, z) implies
            #[trigger] a(x, y, z) == b(x, y, z) by {
            lemma_cells_of_makings(used, fresh, center, radius, x, y, z);
        }
        meshes_depend_on_near_blocks(a, b, area);
    } else {
        let start = chunk_at(center.0 - radius, center.1 - radius);
        let end = chunk_at(center.0 + radius, center.1 + radius);
        lemma_rows_of_makings(
            used,
            fresh,
            center,
            radius,
            (end.cx - start.cx + 1) as nat,
            (end.cz - start.cz + 1) as nat,
        );
    }
}

/// Worlds of the same makings hold the same blocks in and around a view.
proof fn lemma_cells_of_makings(
    used: &GeneratedVoxelWorld,
    fresh: &GeneratedVoxelWorld,
    center: (i64, i64),
    radius: i64,
    x: int,
    y: int,
    z: int,
)
    requires
        same_makings(used, fresh, center, radius),
        around(center.0, center.1, radius).grown(CHUNK_SIZE + LIGHT_HALO).has(x, z),
        inside(x),
        inside(z),
    ensures
        world_cells(used)(x, y, z) == world_cells(fresh)(x, y, z),
{
    let (c, d) = (x as i64, z as i64);
    assert(same_ground(&used.ground(), &fresh.ground(), c, d)) by {
        assert forall|e: i64, f: i64|
            -HEIGHT_REACH <= e - c <= HEIGHT_REACH && -HEIGHT_REACH <= f - d
                <= HEIGHT_REACH implies #[trigger] used.ground().at(e, f) == fresh.ground().at(
            e,
            f,
        ) by {
            assert(mapped_area(center, radius).has(e as int, f as int));
        }
    }
    assert(used.edit(c, y, d) == fresh.edit(c, y, d));
    worlds_of_one_source_agree(used, fresh, c, y, d);
}

proof fn lemma_rows_of_makings(
    used: &GeneratedVoxelWorld,
    fresh: &GeneratedVoxelWorld,
    center: (i64, i64),
    radius: i64,
    across: nat,
    n: nat,
)
    requires
        0 <= radius,
        in_some_chunk(center.0 - radius),
        in_some_chunk(center.0 + radius),
        in_some_chunk(center.1 - radius),
        in_some_chunk(center.1 + radius),
        same_makings(used, fresh, center, radius),
        ({
            let start = chunk_at(center.0 - radius, center.1 - radius);
            let end = chunk_at(center.0 + radius, center.1 + radius);
            across == end.cx - start.cx + 1 && n <= end.cz - start.cz + 1
        }),
    ensures
        ({
            let start = chunk_at(center.0 - radius, center.1 - radius);
            chunk_rows(
                world_cells(used),
                used.spec_seed(),
                &used.ground(),
                center,
                start,
                across,
                n,
            ) == chunk_rows(
                world_cells(fresh),
                fresh.spec_seed(),
                &fresh.ground(),
                center,
                start,
                across,
                n,
            )
        }),
    decreases n,
{
    let start = chunk_at(center.0 - radius, center.1 - radius);
    if n > 0 {
        lemma_rows_of_makings(used, fresh, center, radius, across, (n - 1) as nat);
        let had = chunk_rows(
            world_cells(used),
            used.spec_seed(),
            &used.ground(),
            center,
            start,
            across,
            (n - 1) as nat,
        );
        lemma_row_of_makings(used, fresh, center, radius, had, start.cz + n - 1, across);
    }
}

proof fn lemma_row_of_makings(
    used: &GeneratedVoxelWorld,
    fresh: &GeneratedVoxelWorld,
    center: (i64, i64),
    radius: i64,
    had: Seq<Quad>,
    cz: int,
    n: nat,
)
    requires
        0 <= radius,
        in_some_chunk(center.0 - radius),
        in_some_chunk(center.0 + radius),
        in_some_chunk(center.1 - radius),
        in_some_chunk(center.1 + radius),
        same_makings(used, fresh, center, radius),
        ({
            let start = chunk_at(center.0 - radius, center.1 - radius);
            let end = chunk_at(center.0 + radius, center.1 + radius);
            start.cz <= cz <= end.cz && n <= end.cx - start.cx + 1
        }),
    ensures
        ({
            let start = chunk_at(center.0 - radius, center.1 - radius);
            with_chunk_row(
                had,
                world_cells(used),
                used.spec_seed(),
                &used.ground(),
                center,
                start.cx as int,
                cz,
                n,
            ) == with_chunk_row(
                had,
                world_cells(fresh),
                fresh.spec_seed(),
                &fresh.ground(),
                center,
                start.cx as int,
                cz,
                n,
            )
        }),
    decreases n,
{
    if n > 0 {
        let start = chunk_at(center.0 - radius, center.1 - radius);
        let end = chunk_at(center.0 + radius, center.1 + radius);
        lemma_row_of_makings(used, fresh, center, radius, had, cz, (n - 1) as nat);
        let key = key_of(start.cx + n - 1, cz);
        assert(chunk_between(start, end, key));
        lemma_chunk_in_view(center, radius, key);
        let (a, b) = (world_cells(used), world_cells(fresh));
        assert forall|x: int, y: int, z: int| chunk_area(key).grown(LIGHT_HALO as int).has(
            x,
            z,
        ) implies #[trigger] a(x, y, z) == b(x, y, z) by {
            lemma_cells_of_makings(used, fresh, center, radius, x, y, z);
        }
        assert(same_heights(
            &used.ground(),
            &fresh.ground(),
            chunk_area(key).grown(GROUND_REACH as int),
        ));
        chunk_meshes_depend_on_near_heights(
            a,
            b,
            used.spec_seed(),
            &used.ground(),
            &fresh.ground(),
            key,
            level_from(center, key),
        );
    }
}

/// The chunks of a view lie within a chunk's length of it.
proof fn lemma_chunk_in_view(center: (i64, i64), radius: i64, key: ChunkKey)
    requires
        in_some_chunk(center.0 - radius),
        in_some_chunk(center.0 + radius),
        in_some_chunk(center.1 - radius),
        in_some_chunk(center.1 + radius),
        chunk_between(
            chunk_at(center.0 - radius, center.1 - radius),
            chunk_at(center.0 + radius, center.1 + radius),
            key,
        ),
    ensures
        center.0 - radius - CHUNK_SIZE < chunk_area(key).min_x,
        chunk_area(key).max_x < center.0 + radius + CHUNK_SIZE,
        center.1 - radius - CHUNK_SIZE < chunk_area(key).min_z,
        chunk_area(key).max_z < center.1 + radius + CHUNK_SIZE,
{
    let start = chunk_at(center.0 - radius, center.1 - radius);
    let end = chunk_at(center.0 + radius, center.1 + radius);
    assert(start.west() <= key.west() <= end.west());
    assert(start.north() <= key.north() <= end.north());
}

/// A view holds the faces of all its chunks: for each column within the radius, those of its
/// chunk at the level of detail for the chunk's distance. A small view holds the faces of
/// its columns in full.
pub proof fn views_hold_their_chunks(
    cells: Cells,
    seed: u64,
    ground: &HeightTable,
    center: (i64, i64),
    radius: i64,
    x: int,
    z: int,
    key: ChunkKey,
    quad: Quad,
)
    requires
        view_fits(center, radius),
        center.0 - radius <= x <= center.0 + radius,
        center.1 - radius <= z <= center.1 + radius,
        key.covers(x, z),
    ensures
        ({
            let faces = view_quads(cells, seed, ground, center, radius);
            let level = LodLevel::at_distance(
                key.spec_distance(center.0 as int, center.1 as int),
            );
            &&& radius > CHUNK_SIZE && chunk_quads(cells, seed, ground, key, level).contains(quad)
                ==> faces.contains(quad)
            &&& radius <= CHUNK_SIZE ==> faces == region_quads(
                cells,
                Area {
                    min_x: center.0 - radius,
                    max_x: center.0 + radius,
                    min_z: center.1 - radius,
                    max_z: center.1 + radius,
                },
            )
        }),
{
    if radius > CHUNK_SIZE {
        let start = chunk_at(center.0 - radius, center.1 - radius);
        let end = chunk_at(center.0 + radius, center.1 + radius);
        let across = (end.cx - start.cx + 1) as nat;
        let n = (end.cz - start.cz + 1) as nat;
        assert(start.cx <= key.cx <= end.cx && start.cz <= key.cz <= end.cz);
        if chunk_quads(cells, seed, ground, key, level_from(center, key)).contains(quad) {
            lemma_rows_hold(cells, seed, ground, center, start, across, n, key, quad);
        }
    }
}

proof fn lemma_row_holds(
    had: Seq<Quad>,
    cells: Cells,
    seed: u64,
    ground: &HeightTable,
    center: (i64, i64),
    cx: int,
    cz: int,
    n: nat,
    key: ChunkKey,
    quad: Quad,
)
    requires
        i32::MIN <= cx,
        cx + n - 1 <= i32::MAX,
        i32::MIN <= cz <= i32::MAX,
    ensures
        ({
            let faces = with_chunk_row(had, cells, seed, ground, center, cx, cz, n);
            &&& had.contains(quad) ==> faces.contains(quad)
            &&& key.cz == cz && cx <= key.cx < cx + n && chunk_quads(
                cells,
                seed,
                ground,
                key,
                level_from(center, key),
            ).contains(quad) ==> faces.contains(quad)
        }),
    decreases n,
{
    if n > 0 {
        let before = with_chunk_row(had, cells, seed, ground, center, cx, cz, (n - 1) as nat);
        lemma_row_holds(had, cells, seed, ground, center, cx, cz, (n - 1) as nat, key, quad);
        let last = key_of(cx + n - 1, cz);
        let own = chunk_quads(cells, seed, ground, last, level_from(center, last));
        let faces = before + own;
        if before.contains(quad) {
            let i = choose|i: int| 0 <= i < before.len() && before[i] == quad;
            assert(faces[i] == quad);
        }
        if own.contains(quad) {
            let i = choose|i: int| 0 <= i < own.len() && own[i] == quad;
            assert(faces[before.len() + i] == quad);
        }
        if key.cz == cz && key.cx == cx + n - 1 {
            assert(last == key);
        }
    }
}

proof fn lemma_rows_hold(
    cells: Cells,
    seed: u64,
    ground: &HeightTable,
    center: (i64, i64),
    start: ChunkKey,
    across: nat,
    n: nat,
    key: ChunkKey,
    quad: Quad,
)
    requires
        start.cx + across - 1 <= i32::MAX,
        start.cz + n - 1 <= i32::MAX,
        start.cx <= key.cx < start.cx + across,
        start.cz <= key.cz,
        chunk_quads(cells, seed, ground, key, level_from(center, key)).contains(quad),
    ensures
        key.cz < start.cz + n ==> chunk_rows(
            cells,
            seed,
            ground,
            center,
            start,
            across,
            n,
        ).contains(quad),
    decreases n,
{
    if n > 0 {
        let before = chunk_rows(cells, seed, ground, center, start, across, (n - 1) as nat);
        lemma_rows_hold(cells, seed, ground, center, start, across, (n - 1) as nat, key, quad);
        lemma_row_holds(
            before,
            cells,
            seed,
            ground,
            center,
            start.cx as int,
            start.cz + n - 1,
            across,
            key,
            quad,
        );
    }
}

/// The mesh of a chunk that is near is that of its columns in full, and that of a far one
/// is the coarse one for its level.
pub proof fn chunks_are_meshed_by_level(
    cells: Cells,
    seed: u64,
    ground: &HeightTable,
    key: ChunkKey,
)
    ensures
        chunk_quads(cells, seed, ground, key, LodLevel::Near) == region_quads(
            cells,
            Area {
                min_x: 32 * key.cx,
                max_x: 32 * key.cx + 31,
                min_z: 32 * key.cz,
                max_z: 32 * key.cz + 31,
            },
        ),
        chunk_quads(cells, seed, ground, key, LodLevel::Mid) == coarse_quads(
            cells,
            seed,
            ground,
            chunk_area(key),
            2,
        ),
        chunk_quads(cells, seed, ground, key, LodLevel::Far) == coarse_quads(
            cells,
            seed,
            ground,
            chunk_area(key),
            4,
        ),
{
    reveal(chunk_quads);
}

} // verus!
