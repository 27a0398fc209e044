//! Faces, meshes, levels of detail, probes and draw batches.

use mc::double::Double;
use mc::render::batch::{
    face_indices, face_materials, mesh_batches, visible_ranges, DrawBatch, INDICES_PER_BATCH,
};
use mc::render::cache::RegionMeshCache;
use mc::render::chunk::{
    floor_div, ChunkKey, LodLevel, CHUNK_SIZE, CHUNK_VIEW_RADIUS, LOD_FAR_STEP, LOD_MID_RADIUS,
    LOD_MID_STEP, LOD_NEAR_RADIUS, VIEW_RADIUS,
};
use mc::render::coarse::WorldView;
use mc::render::face::{
    blendable, face_axes, face_quad, face_texture, Direction, FaceTexture, Quad, Shade, DIRECTIONS,
};
use mc::render::lod::{
    lod_cell_is_mixed, lod_side_bottom, lod_surface_from_block, LOD_SKIRT_PARTS,
};
use mc::render::mesh::VoxelMesh;
use mc::render::probe::{
    blocks_sky, ray_visibility, sky_visibility, ProbeVolume, Ray, DIM_X, DIM_Y, RAY_RANGE, TEXELS,
};
use mc::render::requests::MeshRequests;
use mc::render::snapshot::MeshingBlocks;
use mc::render::ring::lod_ring_cells;
use mc::render::stats::{
    drawn_indices, grown_capacity, mip_levels, upload_bytes, GpuDebugStats,
};
use mc::world::atlas::TileTable;
use mc::world::block::{should_draw_face, Block, LIGHT_MAX};
use mc::world::column::{Y_MAX, Y_MIN};
use mc::world::column_map::ColumnMap;
use mc::world::voxel::{GeneratedVoxelWorld, VoxelWorld};

fn double(v: f64) -> Double {
    Double { bits: v.to_bits() }
}

fn ground(x: i64, z: i64) -> f64 {
    let (x, z) = (x as f64, z as f64);
    63.0 + 5.0 * (x * 0.05).sin() * (z * 0.04).cos()
}

fn world(seed: u64, reach: i64) -> GeneratedVoxelWorld {
    let mut world = GeneratedVoxelWorld::new(seed);
    for (x, z) in world.missing_heights(-reach, reach, -reach, reach) {
        world.supply_height(x, z, double(ground(x, z)));
    }
    world
}

fn without_light(quads: &[Quad]) -> Vec<Quad> {
    quads
        .iter()
        .map(|quad| {
            let mut quad = *quad;
            for corner in quad.corners.iter_mut() {
                corner.shade = Shade { occlusion: corner.shade.occlusion, light: 0, samples: 0 };
            }
            quad
        })
        .collect()
}

#[test]
fn dense_meshing_preserves_faces_ao_and_edits() {
    let tiles = TileTable::new();
    let mut world = world(2026_0904, 24);
    world.apply_edits(&vec![
        (-1, 110, -1, Block::Stone),
        (0, 110, -1, Block::Glass),
        (1, 110, 0, Block::Water),
        (0, 10, 0, Block::Air),
        (2, 127, 2, Block::Stone),
    ]);
    let mut reference = VoxelMesh::new();
    for z in -2..=2 {
        for x in -2..=2 {
            for y in Y_MIN..=Y_MAX {
                let current = world.block_at(x, y, z);
                if current == Block::Air {
                    continue;
                }
                for direction in DIRECTIONS {
                    let offset = direction.offset();
                    let neighbor = world.block_at(x + offset.0, y + offset.1, z + offset.2);
                    if should_draw_face(current, neighbor) {
                        let mut view = WorldView::new(&world);
                        let quad = face_quad(&mut view, (x, y, z), direction, current, &tiles);
                        reference.put(quad);
                    }
                }
            }
        }
    }
    let dense = VoxelMesh::build(&mut world, 0, 0, 2, &tiles);
    assert!(!dense.is_empty());
    assert_eq!(without_light(&reference.quads), without_light(&dense.quads));
    assert_eq!(
        without_light(&reference.transparent_quads),
        without_light(&dense.transparent_quads)
    );
}

#[test]
fn meshed_vertices_bake_flood_filled_sky_light() {
    let tiles = TileTable::new();
    let mut world = world(2026_0904, 28);
    let ground = world.surface_top(0, 0);
    let roof_y = ground + 3;
    let mut edits = Vec::new();
    for x in -2..=2 {
        for z in -2..=2 {
            edits.push((x, roof_y, z, Block::Stone));
        }
    }
    world.apply_edits(&edits);
    let mesh = VoxelMesh::build(&mut world, 0, 0, 6, &tiles);
    let mut light: Vec<f32> = mesh
        .quads
        .iter()
        .chain(&mesh.transparent_quads)
        .flat_map(|quad| quad.corners)
        .map(|corner| {
            corner.shade.light as f32 / (corner.shade.samples * LIGHT_MAX as u32) as f32
        })
        .collect();
    light.sort_by(f32::total_cmp);
    assert!(light.first().is_some_and(|&value| value < 0.99));
    assert!(light.last().is_some_and(|&value| value > 0.99));
}

#[test]
fn region_cache_reuses_rebases_and_invalidates_boundary_edits() {
    let tiles = TileTable::new();
    let mut cache = RegionMeshCache::new(world(2026_0904, 120));
    let original = cache.build((16, 16), 33, &tiles, &Vec::new());
    assert_eq!(cache.rebuilt_chunks(), 9);
    let repeated = cache.build((16, 16), 33, &tiles, &Vec::new());
    assert_eq!(cache.rebuilt_chunks(), 0);
    assert_eq!(original.quads, repeated.quads);
    assert_eq!(original.transparent_quads, repeated.transparent_quads);

    let edits = vec![(32, 110, 32, Block::Glass)];
    let edited = cache.build((17, 16), 33, &tiles, &edits);
    assert_eq!(cache.rebuilt_chunks(), 4);
    let mut fresh = world(2026_0904, 120);
    let reference = VoxelMesh::build_parallel(&mut fresh, (17, 16), 33, &tiles, &edits);
    assert_eq!(edited.quads, reference.quads);
    assert_eq!(edited.transparent_quads, reference.transparent_quads);
    assert_ne!(edited.transparent_quads, original.transparent_quads);

    let restored = cache.build((17, 16), 33, &tiles, &Vec::new());
    assert_eq!(cache.rebuilt_chunks(), 4);
    let mut fresh = world(2026_0904, 120);
    let reference = VoxelMesh::build_parallel(&mut fresh, (17, 16), 33, &tiles, &Vec::new());
    assert_eq!(restored.quads, reference.quads);
    assert_eq!(restored.transparent_quads, reference.transparent_quads);

    for (x, z) in cache.world().missing_heights(924, 1124, -1124, -924) {
        cache.supply_height(x, z, double(ground(x, z)));
    }
    cache.build((1024, -1024), 33, &tiles, &Vec::new());
    assert_eq!(cache.kept_chunks(), 16);
    assert_eq!(cache.rebuilt_chunks(), 16);
}

#[test]
fn new_heights_leave_the_meshes_alone() {
    let tiles = TileTable::new();
    let mut cache = RegionMeshCache::new(world(5, 120));
    let first = cache.build((16, 16), 33, &tiles, &Vec::new());
    assert_eq!(cache.kept_chunks(), 9);
    cache.supply_height(16, 16, double(90.0));
    cache.supply_height(400, 16, double(70.0));
    assert_eq!(cache.kept_chunks(), 9);
    let second = cache.build((16, 16), 33, &tiles, &Vec::new());
    assert_eq!(cache.rebuilt_chunks(), 0);
    assert_eq!(first.quads, second.quads);
    cache.build((16, 16), 8, &tiles, &Vec::new());
    assert_eq!((cache.kept_chunks(), cache.rebuilt_chunks()), (0, 0));
}

#[test]
fn far_columns_are_forgotten() {
    let mut cache = RegionMeshCache::new(world(3, 60));
    let tiles = TileTable::new();
    cache.build((0, 0), 2, &tiles, &Vec::new());
    let kept = cache.world().cached_column_count();
    assert!(kept > 0);
    cache.forget_far((0, 0));
    assert_eq!(cache.world().cached_column_count(), kept);
    cache.forget_far((4000, 0));
    assert_eq!(cache.world().cached_column_count(), 0);
}

#[test]
fn mesh_contains_only_exposed_faces() {
    let tiles = TileTable::new();
    let mut world = world(2026_0904, 24);
    let mesh = VoxelMesh::build(&mut world, 0, 0, 1, &tiles);
    assert!(!mesh.is_empty());
    assert!(mesh.quads.len() < 3 * 3 * 3 * 128 * 6);
    for quad in mesh.quads.iter().chain(&mesh.transparent_quads) {
        let offset = quad.direction.offset();
        assert_eq!(world.block_at(quad.x, quad.y, quad.z), quad.block);
        let next = world.block_at(quad.x + offset.0, quad.y + offset.1, quad.z + offset.2);
        assert!(should_draw_face(quad.block, next));
    }
}

#[test]
fn parallel_mesh_matches_serial_face_count() {
    let tiles = TileTable::new();
    let mut serial_world = world(2026_0904, 60);
    let serial = VoxelMesh::build(&mut serial_world, 0, 0, 2, &tiles);
    let mut parallel_world = world(2026_0904, 60);
    let parallel =
        VoxelMesh::build_parallel(&mut parallel_world, (0, 0), 2, &tiles, &Vec::new());
    assert_eq!(parallel.quads.len(), serial.quads.len());
    assert_eq!(parallel.transparent_quads.len(), serial.transparent_quads.len());
}

#[test]
fn coarse_chunks_have_fewer_faces_and_keep_standing_trees() {
    let tiles = TileTable::new();
    let mut world = world(2026_0904, 60);
    let key = ChunkKey { cx: 0, cz: 0 };
    let near = VoxelMesh::build_chunk(&mut world, key, LodLevel::Near, &tiles, &Vec::new());
    let mid = VoxelMesh::build_chunk(&mut world, key, LodLevel::Mid, &tiles, &Vec::new());
    let far = VoxelMesh::build_chunk(&mut world, key, LodLevel::Far, &tiles, &Vec::new());
    let ground = |mesh: &VoxelMesh| mesh.quads.iter().filter(|q| !q.block.is_tree()).count();
    assert!(ground(&near) > ground(&mid) && ground(&mid) > ground(&far));
    let wood = |mesh: &VoxelMesh| mesh.quads.iter().filter(|q| q.block.is_tree()).count();
    assert!(wood(&far) > 0);
    assert_eq!(wood(&mid), wood(&far));
    let trunk = far.quads.iter().find(|q| q.block == Block::OakLog).copied().unwrap();
    let edits = vec![(trunk.x, trunk.y, trunk.z, Block::Air)];
    let cut = VoxelMesh::build_chunk(&mut world, key, LodLevel::Far, &tiles, &edits);
    assert!(!cut.quads.iter().any(|q| (q.x, q.y, q.z) == (trunk.x, trunk.y, trunk.z)
        && q.block == Block::OakLog));
}

/// Where a point of a face lies in the photo, in quarters of a tile.
fn photo_uv(texture: FaceTexture, local: [f32; 2]) -> [f32; 2] {
    let u = if texture.mirror_u { 1.0 - local[0] } else { local[0] };
    let v = if texture.mirror_v { 1.0 - local[1] } else { local[1] };
    [
        (texture.region[0] as f32 + u).rem_euclid(texture.region[2] as f32),
        (texture.region[1] as f32 + v).rem_euclid(texture.region[3] as f32),
    ]
}

#[test]
fn neighbouring_natural_blocks_share_the_photo_edge() {
    for x in -8..8 {
        for z in -8..8 {
            for t in [0.0, 0.17, 0.63, 1.0] {
                let left = face_texture(Block::Dirt, Direction::Up, x, 0, z);
                let right = face_texture(Block::Dirt, Direction::Up, x + 1, 0, z);
                let join_u = |a: FaceTexture, b: FaceTexture| {
                    let a = photo_uv(a, [1.0, t]);
                    let b = photo_uv(b, [0.0, t]);
                    (a[0] - b[0]).abs() + (a[1] - b[1]).abs()
                };
                assert!(join_u(left, right) < 1e-6, "x={x} z={z}");

                let front = face_texture(Block::Dirt, Direction::Up, x, 0, z);
                let back = face_texture(Block::Dirt, Direction::Up, x, 0, z + 1);
                let join_v = |a: FaceTexture, b: FaceTexture| {
                    let a = photo_uv(a, [t, 0.0]);
                    let b = photo_uv(b, [t, 1.0]);
                    (a[0] - b[0]).abs() + (a[1] - b[1]).abs()
                };
                assert!(join_v(front, back) < 1e-6, "x={x} z={z}");
            }
        }
    }
}

#[test]
fn one_photo_cell_shares_a_single_orientation() {
    for cell in -4..4 {
        let mut seen: Option<(bool, bool)> = None;
        for u in 0..2 {
            for v in 0..2 {
                let x = cell * 2 + u;
                let z = -cell * 2 - v;
                let texture = face_texture(Block::Sand, Direction::Up, x, 0, z);
                let flips = (texture.mirror_u, texture.mirror_v);
                match seen {
                    Some(expected) => assert_eq!(expected, flips, "{cell}"),
                    None => seen = Some(flips),
                }
            }
        }
    }
}

#[test]
fn grass_sides_keep_the_turf_edge_on_top() {
    for x in -6..6 {
        for y in -3..3 {
            let texture = face_texture(Block::GrassBlock, Direction::West, x, y, 0);
            assert!(!texture.mirror_v);
            assert_eq!(texture.region[1], 0);
            assert_eq!(texture.region[3], 1);
        }
    }
}

#[test]
fn authored_and_directional_faces_stay_unmirrored() {
    for block in [
        Block::CoalOre,
        Block::IronOre,
        Block::OakPlanks,
        Block::OakLeaves,
        Block::Water,
    ] {
        for x in -4..4 {
            for y in -4..4 {
                let texture = face_texture(block, Direction::West, x, y, 0);
                assert!(!texture.mirror_u && !texture.mirror_v, "{block:?}");
            }
        }
    }
    let log = face_texture(Block::OakLog, Direction::West, 1, 1, 0);
    assert_eq!(log.region, [0, 1, 2, 2]);
    assert!(!log.mirror_u && !log.mirror_v);
}

#[test]
fn complete_faces_still_use_the_whole_tile() {
    let texture = face_texture(Block::Bookshelf, Direction::West, 5, 3, 7);
    assert_eq!(texture, FaceTexture::complete());
    assert_eq!(texture.local_uv(0), (0, 1));
    assert_eq!(texture.local_uv(2), (1, 0));
    let mirrored = FaceTexture { mirror_u: true, mirror_v: true, ..texture };
    assert_eq!(mirrored.local_uv(0), (1, 0));
}

#[test]
fn opposite_faces_are_wound_in_opposite_ways() {
    assert_eq!(face_axes(Direction::Up, 1, 2, 3), (1, -3));
    assert_eq!(face_axes(Direction::Down, 1, 2, 3), (1, 3));
    assert_eq!(face_axes(Direction::North, 1, 2, 3), (-1, -2));
    assert_eq!(face_axes(Direction::South, 1, 2, 3), (1, -2));
    assert_eq!(face_axes(Direction::West, 1, 2, 3), (3, -2));
    assert_eq!(face_axes(Direction::East, 1, 2, 3), (-3, -2));
    for direction in DIRECTIONS {
        let c0 = direction.corner(0);
        let c1 = direction.corner(1);
        let c3 = direction.corner(3);
        assert_eq!(direction.tangent(), (c1.0 - c0.0, c1.1 - c0.1, c1.2 - c0.2));
        assert_eq!(direction.bitangent(), (c0.0 - c3.0, c0.1 - c3.1, c0.2 - c3.2));
    }
}

#[test]
fn corners_darken_and_edges_fade() {
    let tiles = TileTable::new();
    let mut world = world(1, 4);
    world.set_block(0, 100, 0, Block::Stone);
    world.set_block(1, 101, 0, Block::Stone);
    world.set_block(0, 101, 1, Block::Stone);
    world.set_block(-1, 100, 0, Block::Sand);
    let mut view = WorldView::new(&world);
    let quad = face_quad(&mut view, (0, 100, 0), Direction::Up, Block::Stone, &tiles);
    let dark: Vec<u8> = quad.corners.iter().map(|corner| corner.shade.occlusion).collect();
    assert_eq!(dark, [0, 1, 3, 1]);
    assert_eq!(quad.corners[2].shade, Shade { occlusion: 3, light: 15, samples: 1 });
    assert_eq!(quad.corners[0].shade, Shade { occlusion: 0, light: 60, samples: 4 });
    let sand = tiles.number(Block::Sand, mc::world::block::Face::Top);
    let stone = tiles.number(Block::Stone, mc::world::block::Face::Top);
    assert_eq!(quad.blend_tiles, [sand, stone, stone, stone]);
    assert!(blendable(Block::Sand) && !blendable(Block::Glass));
    world.set_block(0, 101, 0, Block::Water);
    let mut view = WorldView::new(&world);
    let water = face_quad(&mut view, (0, 101, 0), Direction::Up, Block::Water, &tiles);
    assert!(water.corners.iter().all(|corner| corner.dy == 7));
}

#[test]
fn fluid_lod_sides_are_not_emitted() {
    let water = lod_surface_from_block(60, Block::Water);
    let lower_water = lod_surface_from_block(56, Block::Water);
    let land = lod_surface_from_block(60, Block::GrassBlock);
    let higher_land = lod_surface_from_block(64, Block::Stone);
    assert_eq!(lod_side_bottom(water, Some(water), true), water.top);
    assert_eq!(lod_side_bottom(water, Some(lower_water), false), water.top);
    assert_eq!(lod_side_bottom(water, Some(lower_water), true), water.top);
    assert_eq!(lod_side_bottom(water, None, false), water.top);
    assert_eq!(
        lod_side_bottom(land, Some(higher_land), true),
        land.top - LOD_SKIRT_PARTS
    );
    assert_eq!(lod_side_bottom(land, Some(lower_water), false), lower_water.top);
    assert_eq!(lod_side_bottom(land, None, false), land.top - LOD_SKIRT_PARTS);
    assert_eq!((water.top, land.top), (60 * 8 + 7, 61 * 8));
}

#[test]
fn lod_cell_is_mixed_only_when_water_and_land_corners_are_present() {
    let water = lod_surface_from_block(60, Block::Water);
    let land = lod_surface_from_block(62, Block::GrassBlock);
    let mut surfaces = ColumnMap::new();
    for (x, z) in [(0, 0), (2, 0), (0, 2), (2, 2)] {
        surfaces.insert(x, z, water);
    }
    assert!(!lod_cell_is_mixed(&surfaces, 0, 0, 2));
    surfaces.insert(2, 2, land);
    assert!(lod_cell_is_mixed(&surfaces, 0, 0, 2));
    for (x, z) in [(0, 0), (2, 0), (0, 2), (2, 2)] {
        surfaces.insert(x, z, land);
    }
    assert!(!lod_cell_is_mixed(&surfaces, 0, 0, 2));
}

#[test]
fn lod_ring_cells_skip_the_high_resolution_inner_square() {
    let mid = lod_ring_cells((0, 0), LOD_MID_RADIUS, LOD_NEAR_RADIUS, LOD_MID_STEP);
    assert!(!mid.is_empty());
    assert!(mid.iter().all(|&(x, z, step)| {
        !(x >= -LOD_NEAR_RADIUS
            && x + step - 1 <= LOD_NEAR_RADIUS
            && z >= -LOD_NEAR_RADIUS
            && z + step - 1 <= LOD_NEAR_RADIUS)
    }));

    let far = lod_ring_cells((0, 0), 192, LOD_MID_RADIUS, LOD_FAR_STEP);
    assert!(!far.is_empty());
    assert!(far.iter().all(|&(x, z, step)| {
        !(x >= -LOD_MID_RADIUS
            && x + step - 1 <= LOD_MID_RADIUS
            && z >= -LOD_MID_RADIUS
            && z + step - 1 <= LOD_MID_RADIUS)
    }));
    let cells = lod_ring_cells((0, 0), 80, LOD_NEAR_RADIUS, LOD_MID_STEP);
    assert!(cells.len() < (161 * 161) / 3);
    assert_eq!(lod_ring_cells((-3, 5), 1, 0, 3), vec![(-6, 3, 3), (-6, 6, 3), (-3, 6, 3)]);
}

#[test]
fn chunks_cover_columns() {
    let key = ChunkKey::from_block(-1, 32);
    assert_eq!(key, ChunkKey { cx: -1, cz: 1 });
    assert_eq!((key.min_x(), key.max_x()), (-32, -1));
    assert_eq!((key.min_z(), key.max_z()), (32, 63));
    assert_eq!(key.center(), (-16, 48));
    assert_eq!(key.distance_to(-5, 40), 0);
    assert_eq!(key.distance_to(10, 30), 11);
    assert_eq!(key.distance_to(-40, 100), 37);
    assert_eq!(floor_div(-1, 32), -1);
    assert_eq!(floor_div(i64::MIN, 1), i64::MIN);
    assert_eq!(LodLevel::from_distance(64), LodLevel::Near);
    assert_eq!(LodLevel::from_distance(65), LodLevel::Mid);
    assert_eq!(LodLevel::from_distance(129), LodLevel::Far);
    assert_eq!(LodLevel::Near.step() + LodLevel::Mid.step() + LodLevel::Far.step(), 7);
    assert!(CHUNK_VIEW_RADIUS * CHUNK_SIZE >= VIEW_RADIUS);
}

struct TestWorld {
    ground: i64,
    roof: Option<i64>,
}

impl VoxelWorld for TestWorld {
    fn cell(&self, _x: i64, _y: i64, _z: i64) -> Block {
        unreachable!()
    }

    fn valid(&self) -> bool {
        unreachable!()
    }

    fn known(&self, _x: i64, _z: i64) -> bool {
        unreachable!()
    }

    fn asked_since(&self, _before: &Self) -> bool {
        unreachable!()
    }

    fn block_at(&mut self, _x: i64, y: i64, _z: i64) -> Block {
        if self.roof == Some(y) || y < self.ground {
            Block::Stone
        } else {
            Block::Air
        }
    }
}

fn ray(dx: f64, dy: f64, dz: f64) -> Ray {
    (1..=RAY_RANGE)
        .map(|step| {
            let t = step as f64;
            ((dx * t).round() as i64, (dy * t).round() as i64, (dz * t).round() as i64)
        })
        .collect()
}

fn rays() -> Vec<Ray> {
    vec![ray(0.0, 1.0, 0.0), ray(0.0, -1.0, 0.0), ray(0.6, 0.8, 0.0), ray(0.0, 0.0, 1.0)]
}

#[test]
fn open_sky_reconstructs_to_full_visibility() {
    let mut world = TestWorld { ground: Y_MIN, roof: None };
    let seen = sky_visibility(&mut world, 0, 64, 0, &rays()).unwrap();
    assert_eq!(seen, vec![40, 40, 40, 40]);
}

#[test]
fn ground_blocks_downward_visibility() {
    let mut world = TestWorld { ground: 64, roof: None };
    let seen = sky_visibility(&mut world, 0, 65, 0, &rays()).unwrap();
    assert_eq!(seen, vec![40, 2, 40, 40]);
}

#[test]
fn roof_shadows_the_probe_below() {
    let mut open = TestWorld { ground: 64, roof: None };
    let mut roofed = TestWorld { ground: 64, roof: Some(70) };
    let above = ray(0.0, 1.0, 0.0);
    assert_eq!(ray_visibility(&mut open, 0, 69, 0, &above), 40);
    assert_eq!(ray_visibility(&mut roofed, 0, 69, 0, &above), 1);
}

#[test]
fn probe_inside_solid_is_dark() {
    let mut world = TestWorld { ground: 64, roof: None };
    assert_eq!(sky_visibility(&mut world, 0, 10, 0, &rays()), None);
    assert!(blocks_sky(Block::Water) && blocks_sky(Block::OakLeaves) && !blocks_sky(Block::Glass));
}

#[test]
fn bake_fills_grid_and_darkens_buried_probes() {
    let mut world = TestWorld { ground: 64, roof: None };
    let volume = ProbeVolume::bake_in(&mut world, (0, 0), &rays());
    assert_eq!(volume.probes.len(), TEXELS);
    assert_eq!(volume.origin, (-96, Y_MIN, -96));
    assert_eq!(volume.probes[ProbeVolume::index(12, 4, 12)], None);
    let open = volume.probes[ProbeVolume::index(12, 15, 12)].clone().unwrap();
    assert_eq!(open[0], 40);
    assert_eq!(ProbeVolume::index(1, 2, 3), (3 * DIM_Y + 2) * DIM_X + 1);
}

#[test]
fn cached_worlds_bake_probes_too() {
    let mut cache = RegionMeshCache::new(world(9, 140));
    let volume = cache.bake_probes((0, 0), &vec![ray(0.0, 1.0, 0.0)]);
    assert_eq!(volume.probes.len(), TEXELS);
    assert_eq!(volume.probes[ProbeVolume::index(12, 15, 12)], Some(vec![40]));
    assert_eq!(volume.probes[ProbeVolume::index(12, 3, 12)], None);
}

#[test]
fn draw_ranges_preserve_order_merge_neighbors_and_exclude_water_shadows() {
    let batches: Vec<DrawBatch> = (0..4)
        .map(|i| DrawBatch {
            start: i * 6,
            end: (i + 1) * 6,
            has_water: i == 2,
            casts_shadow: i != 2,
        })
        .collect();
    let seen = vec![true; 4];
    assert_eq!(visible_ranges(&batches, &seen, false), vec![(0, 24)]);
    assert_eq!(visible_ranges(&batches, &seen, true), vec![(0, 12), (18, 24)]);
    assert!(visible_ranges(&Vec::new(), &Vec::new(), false).is_empty());
    assert_eq!(
        visible_ranges(&batches, &vec![true, false, true, true], false),
        vec![(0, 6), (12, 24)]
    );
    assert_eq!(drawn_indices(&vec![(0, 12), (18, 24)]), 18);
}

#[test]
fn water_bounds_include_shader_displacement() {
    let batches = mesh_batches(&vec![1], &vec![0, 0, 0]);
    assert_eq!(batches.len(), 1);
    assert!(batches[0].has_water);
    assert_eq!(visible_ranges(&batches, &vec![true], false), vec![(0, 3)]);
    assert!(visible_ranges(&batches, &vec![true], true).is_empty());
}

#[test]
fn cutout_leaves_are_not_water_and_keep_casting_shadows() {
    let batches = mesh_batches(&vec![2], &vec![0, 0, 0]);
    assert!(!batches[0].has_water);
    assert_eq!(visible_ranges(&batches, &vec![true], false), vec![(0, 3)]);
    assert_eq!(visible_ranges(&batches, &vec![true], true), vec![(0, 3)]);
}

#[test]
fn batches_split_meshes_evenly() {
    let tiles = TileTable::new();
    let mut world = world(2026_0904, 28);
    let mesh = VoxelMesh::build(&mut world, 0, 0, 8, &tiles);
    let materials = face_materials(&mesh.quads);
    let indices = face_indices(mesh.quads.len());
    assert_eq!(materials.len(), 4 * mesh.quads.len());
    assert_eq!(&indices[6..12], &[4, 5, 6, 4, 6, 7]);
    let batches = mesh_batches(&materials, &indices);
    assert_eq!(batches.len(), indices.len().div_ceil(INDICES_PER_BATCH));
    assert_eq!(batches.last().unwrap().end as usize, indices.len());
    assert!(batches.iter().all(|batch| batch.casts_shadow && !batch.has_water));
}

#[test]
fn only_the_newest_answer_counts() {
    let mut requests = MeshRequests::new();
    assert!(!requests.awaits());
    let first = requests.number();
    requests.sent();
    let second = requests.number();
    requests.sent();
    requests.sent_chunk();
    assert_eq!(requests.pending_requests(), 3);
    assert_ne!(first, second);
    assert_eq!(requests.take_latest(&vec![first, 0]), None);
    assert_eq!(requests.pending_requests(), 1);
    assert!(requests.awaits());
    assert_eq!(requests.take_latest(&vec![first, second, 0]), Some(1));
    assert!(!requests.awaits());
    assert_eq!(requests.pending_requests(), 0);
    requests.answered();
    assert_eq!(requests.pending_requests(), 0);
}

#[test]
fn graphics_memory_is_summed_up() {
    let mut stats = GpuDebugStats::default();
    assert_eq!(stats.total_gpu_bytes(), 0);
    stats.vertex_buffer_bytes = 100;
    stats.transparent_index_buffer_bytes = 11;
    stats.index_count = 10;
    stats.transparent_index_count = 9;
    stats.set_textures(640, 480, 4, 3168);
    assert_eq!(stats.mesh_buffer_bytes(), 111);
    assert_eq!(stats.scene_texture_bytes, 640 * 480 * 4);
    assert_eq!(stats.atlas_texture_bytes, 3168 * 3168 * 16);
    assert_eq!(
        stats.total_gpu_bytes(),
        111 + 2 * 640 * 480 * 4 + 2048 * 2048 * 4 + 3168 * 3168 * 16 + 9216 * 8
    );
    assert_eq!((stats.opaque_triangles(), stats.transparent_triangles()), (3, 3));
    assert_eq!(grown_capacity(100, 128), 128);
    assert_eq!(grown_capacity(129, 128), 256);
    assert_eq!(grown_capacity(1, 0), 1);
    assert_eq!(upload_bytes(2, 84), 2 * (4 * 84 + 24));
    assert_eq!(mip_levels(3168, 1), 12);
    assert_eq!(mip_levels(0, 0), 1);
}

#[test]
fn coarse_lod_ring_builds_heightfield_faces() {
    let tiles = TileTable::new();
    let mut world = world(2026_0904, 96);
    world.preload_columns_grid_parallel(0, 0, 80, LOD_MID_STEP);
    let mesh = VoxelMesh::build_lod_rings(&mut world, (0, 0), 80, &tiles);
    assert!(!mesh.is_empty());
    for quads in [&mesh.quads, &mesh.transparent_quads] {
        assert_eq!(face_materials(quads).len() % 4, 0);
        assert_eq!(face_indices(quads.len()).len() % 6, 0);
    }
    let cells = lod_ring_cells((0, 0), 80, LOD_NEAR_RADIUS, LOD_MID_STEP);
    assert!(cells.len() < (161 * 161) / 3);
    assert_eq!(mesh.quads.len() + mesh.transparent_quads.len(), cells.len());
}

#[test]
fn views_of_a_negative_radius_are_empty() {
    let tiles = TileTable::new();
    let mut at_once = world(3, 120);
    assert!(VoxelMesh::build(&mut at_once, 0, 0, -16, &tiles).is_empty());
    assert_eq!(at_once.cached_column_count(), 1);
    assert!(VoxelMesh::build(&mut at_once, 0, 0, -1, &tiles).is_empty());
    assert_eq!(at_once.cached_column_count(), 31 * 31);
    assert!(VoxelMesh::build_region(&mut at_once, 2, 1, 0, 3, &tiles).is_empty());
    let mut cache = RegionMeshCache::new(world(3, 120));
    assert!(cache.build((0, 0), -1, &tiles, &Vec::new()).is_empty());
    assert_eq!(cache.world().cached_column_count(), 31 * 31);
    assert_eq!(cache.kept_chunks(), 0);
    assert!(lod_ring_cells((0, 0), -1, LOD_NEAR_RADIUS, LOD_MID_STEP).is_empty());
}

#[test]
fn building_keeps_the_columns_in_reach() {
    let tiles = TileTable::new();
    let mut square = world(3, 60);
    VoxelMesh::build(&mut square, 0, 0, 2, &tiles);
    assert_eq!(square.cached_column_count(), 37 * 37);
    let key = ChunkKey { cx: 0, cz: 0 };
    let mut near = world(3, 120);
    VoxelMesh::build_near_chunk(&mut near, key, &tiles);
    assert_eq!(near.cached_column_count(), 64 * 64);
    let mut far = world(3, 120);
    VoxelMesh::build_lod_region(&mut far, key, LOD_FAR_STEP, &tiles);
    let kept: Vec<(i64, i64)> = (0..far.cached_column_count())
        .map(|i| {
            let column = far.cached_column(i);
            (column.x, column.z)
        })
        .collect();
    let sampled = kept.iter().filter(|(x, z)| x % 4 == 0 && z % 4 == 0).count();
    assert_eq!(sampled, 10 * 10);
    assert!(kept.iter().all(|(x, z)| (-4..=35).contains(x) && (-4..=35).contains(z)));
    let mut ring = world(3, 120);
    VoxelMesh::build_lod_rings(&mut ring, (0, 0), 80, &tiles);
    let cells = lod_ring_cells((0, 0), 80, LOD_NEAR_RADIUS, LOD_MID_STEP);
    assert_eq!(ring.cached_column_count(), cells.len());
}

#[test]
fn kept_meshes_are_those_of_the_view() {
    let tiles = TileTable::new();
    let mut cache = RegionMeshCache::new(world(3, 160));
    cache.build((0, 0), 40, &tiles, &Vec::new());
    assert_eq!(cache.kept_chunks(), 16);
    cache.build((0, 0), 33, &tiles, &Vec::new());
    assert_eq!(cache.kept_chunks(), 16);
    cache.build((16, 16), 33, &tiles, &Vec::new());
    assert_eq!(cache.kept_chunks(), 9);
    cache.build((16, 16), 32, &tiles, &Vec::new());
    assert_eq!(cache.kept_chunks(), 0);
}

#[test]
fn faces_are_added_to_any_mesh() {
    let tiles = TileTable::new();
    let mut world = world(3, 40);
    world.set_block(0, 100, 0, Block::Glass);
    let part = VoxelMesh::build(&mut world, 0, 0, 0, &tiles);
    let mut odd = VoxelMesh::new();
    odd.quads.push(part.transparent_quads[0]);
    odd.append(&part);
    assert_eq!(odd.quads.len(), part.quads.len() + 1);
    assert_eq!(odd.quads[1..], part.quads[..]);
    assert_eq!(odd.transparent_quads, part.transparent_quads);
    odd.put(part.transparent_quads[0]);
    odd.put(part.quads[0]);
    assert_eq!(odd.transparent_quads.len(), part.transparent_quads.len() + 1);
    assert_eq!(odd.quads.last(), part.quads.first());
}

#[test]
fn copies_know_the_tops_of_their_columns() {
    let mut world = world(3, 40);
    let length = world.clone_columns_region(1, 1, 1, 1)[0].blocks.len() as i64;
    world.set_block(0, 110, 0, Block::Glass);
    world.set_block(0, 120, 0, Block::Air);
    world.set_block(1, 2, 1, Block::Glass);
    let copy = MeshingBlocks::new(&mut world, -1, 1, -1, 1);
    assert_eq!(copy.top(0, 0), 120);
    assert_eq!(copy.top(1, 1), length - 1);
}
