//! Columns, trees and the editable world.

use mc::double::Double;
use mc::world::block::Block;
use mc::world::column::{Column, ColumnGen, SEA_Y, Y_MAX, Y_MIN};
use mc::world::generator::generate_column;
use mc::world::hash::{hash53, hash64, noise_seeds, splitmix64};
use mc::world::heights::HeightTable;
use mc::world::tree::{is_grass_surface, Tree, TreeDecorator};
use mc::world::voxel::{GeneratedVoxelWorld, VoxelWorld};
use std::collections::{HashMap, HashSet};

fn double(v: f64) -> Double {
    Double { bits: v.to_bits() }
}

/// Rolling ground between 54 and 72.
fn ground(x: i64, z: i64) -> f64 {
    let (x, z) = (x as f64, z as f64);
    63.0 + 6.0 * (x * 0.013).sin() * (z * 0.017).cos() + 3.0 * (x * 0.07 + z * 0.05).sin()
}

/// Islands in a sea that covers most of the ground.
fn islands(x: i64, z: i64) -> f64 {
    ground(x, z) - 5.0
}

/// Grass that lies within reach of trees everywhere.
fn meadow(x: i64, z: i64) -> f64 {
    66.0 + 2.0 * (x as f64 * 0.031).sin() + (z as f64 * 0.047).cos()
}

fn heights(
    field: fn(i64, i64) -> f64,
    x0: i64,
    x1: i64,
    z0: i64,
    z1: i64,
) -> HeightTable {
    let mut table = HeightTable::new();
    for z in z0 - 4..z1 + 4 {
        for x in x0 - 4..x1 + 4 {
            table.supply(x, z, double(field(x, z)));
        }
    }
    table
}

fn survey(world: &mut GeneratedVoxelWorld, x0: i64, x1: i64, z0: i64, z1: i64) {
    for (x, z) in world.missing_heights(x0, x1, z0, z1) {
        world.supply_height(x, z, double(ground(x, z)));
    }
    assert!(world.missing_heights(x0, x1, z0, z1).is_empty());
}

fn world(seed: u64) -> GeneratedVoxelWorld {
    let mut world = GeneratedVoxelWorld::new(seed);
    survey(&mut world, -12, 12, -12, 12);
    world
}

#[test]
fn column_deterministic() {
    let g = ColumnGen::new(99);
    let a = g.generate(12, -34, double(64.2));
    let b = g.generate(12, -34, double(64.2));
    assert_eq!(a.blocks, b.blocks);
}

#[test]
fn layers_land() {
    let g = ColumnGen::new(7);
    let c = g.generate(0, 0, double(70.0));
    assert_eq!(c.get(0), Block::Bedrock);
    assert_eq!(c.get(70), Block::GrassBlock);
    assert_eq!(c.get(69), Block::Dirt);
    assert_eq!(c.get(68), Block::Dirt);
    assert_eq!(c.get(67), Block::Dirt);
    assert_eq!(c.get(71), Block::Air);
    assert_eq!(c.top_solid(), 70);
}

#[test]
fn beach_and_sea() {
    let g = ColumnGen::new(7);
    let b = g.generate(5, 5, double(61.3));
    assert_eq!(b.get(61), Block::Sand);
    assert_eq!(b.get(60), Block::Sand);
    let s = g.generate(5, 6, double(58.0));
    assert_eq!(s.get(58), Block::Sand);
    for y in 59..=SEA_Y {
        assert_eq!(s.get(y), Block::Water, "y={y}");
    }
    assert_eq!(s.top_solid(), 58);
}

#[test]
fn solid_contiguous_no_air_pockets() {
    let g = ColumnGen::new(1234);
    for h in [44.0f64, 55.0, 60.4, 60.6, 62.0, 70.0, 100.0] {
        let c = g.generate(11, -7, double(h));
        let top = h.floor() as i64;
        for y in Y_MIN..=top {
            let b = c.get(y);
            assert!(b != Block::Air && b != Block::Water, "h={h} y={y}: {b:?}");
        }
    }
}

#[test]
fn ores_only_in_stone_zone() {
    let g = ColumnGen::new(42);
    let c = g.generate(3, 9, double(90.0));
    for y in 1..=90 {
        let b = c.get(y);
        let is_ore = matches!(
            b,
            Block::CoalOre | Block::IronOre | Block::GoldOre | Block::DiamondOre
        );
        if is_ore {
            assert!(y <= 90 - 6, "y={y}");
        }
        if y >= 90 - 3 {
            assert!(!is_ore, "y={y}");
        }
    }
}

#[test]
fn world_integration_counts() {
    let g = ColumnGen::new(2026_0904);
    let mut land = 0;
    let mut sea = 0;
    let mut counts: HashMap<Block, u32> = HashMap::new();
    for i in 0..16 {
        for j in 0..16 {
            let (x, z) = (i * 997 - 8000, j * 761 + 3000);
            let h = ground(x, z);
            let c = g.generate(x, z, double(h));
            *counts.entry(c.get(c.top_solid())).or_insert(0) += 1;
            let top = h.floor() as i64;
            if h > 60.5 {
                land += 1;
                assert_eq!(c.get(top + 1), Block::Air);
            } else {
                sea += 1;
                if top < SEA_Y {
                    assert_eq!(c.get(SEA_Y), Block::Water);
                }
            }
        }
    }
    assert!(land > 0 && sea > 0);
    assert!(counts.contains_key(&Block::GrassBlock));
    assert!(counts.contains_key(&Block::Sand) || counts.contains_key(&Block::Gravel));
}

#[test]
fn extreme_heights_stay_in_the_layers() {
    let g = ColumnGen::new(5);
    assert_eq!(g.generate(0, 0, double(-40.0)).get(0), Block::Bedrock);
    assert_eq!(g.generate(0, 0, double(1.0e9)).blocks.len() as i64, Y_MAX + 1);
    assert_eq!(g.generate(0, 0, double(f64::NEG_INFINITY)).blocks.len() as i64, SEA_Y + 1);
}

#[test]
fn tree_blocks_shape() {
    let t = Tree { x: 0, z: 0, ground: 64, height: 4 };
    let blocks = t.blocks();
    let trunks: Vec<_> = blocks.iter().filter(|(_, _, _, b)| *b == Block::OakLog).collect();
    assert_eq!(trunks.len(), 4);
    for &(_, y, _, _) in &trunks {
        assert!((65i64..=68).contains(y), "trunk y={y}");
    }
    let leaves: Vec<_> = blocks.iter().filter(|(_, _, _, b)| *b == Block::OakLeaves).collect();
    assert!(!leaves.is_empty());
    for &(x, y, z, b) in &blocks {
        if b == Block::OakLog {
            assert!(!leaves.iter().any(|(lx, ly, lz, _)| *lx == x && *ly == y && *lz == z));
        }
    }
    for &(x, y, z, b) in &blocks {
        if b == Block::OakLeaves {
            let dx = x.abs();
            let dz = z.abs();
            assert!(!(dx == 2 && dz == 2), "corner leaf at ({x},{z})");
            assert!(dx <= 2 && dz <= 2, "leaf at ({x},{y},{z}) too far");
        }
    }
}

#[test]
fn varied_shapes_stay_inside_column_query_halo() {
    let mut silhouettes = HashSet::new();
    for x in -32..32 {
        for height in 4..=7 {
            let tree = Tree { x, z: -17, ground: 64, height };
            let blocks = tree.blocks();
            assert_eq!(blocks, tree.blocks());
            let mut occupied = HashSet::new();
            for &(bx, by, bz, _) in &blocks {
                assert!((bx - x).abs() <= 2 && (bz + 17).abs() <= 2);
                assert!((65..=65 + height).contains(&by));
                assert!(occupied.insert((bx, by, bz)), "overlapping wood/leaves");
            }
            silhouettes.insert(
                blocks
                    .iter()
                    .filter_map(|&(bx, by, bz, block)| {
                        (block == Block::OakLeaves).then_some((bx - x, by - height, bz + 17))
                    })
                    .collect::<Vec<_>>(),
            );
        }
    }
    assert!(silhouettes.len() > 32, "canopies should visibly vary");
}

#[test]
fn tree_deterministic() {
    let table = heights(ground, 0, 300, 0, 300);
    let d = TreeDecorator::new(42);
    let a = d.generate(&table, 0, 300, 0, 300);
    let b = d.generate(&table, 0, 300, 0, 300);
    assert!(!a.is_empty());
    assert_eq!(a.len(), b.len());
    for (ta, tb) in a.iter().zip(b.iter()) {
        assert_eq!(ta.x, tb.x);
        assert_eq!(ta.z, tb.z);
        assert_eq!(ta.height, tb.height);
    }
}

#[test]
fn local_queries_agree_with_global_generation() {
    let table = heights(ground, 400, 500, 900, 1000);
    let d = TreeDecorator::new(2026_0904);
    let global = d.generate(&table, 400, 500, 900, 1000);
    assert!(!global.is_empty());
    for tree in global {
        let local = d.generate(&table, tree.x - 2, tree.x + 3, tree.z - 2, tree.z + 3);
        assert!(local.iter().any(|candidate| candidate.x == tree.x
            && candidate.z == tree.z
            && candidate.height == tree.height));
    }
}

#[test]
fn tree_heights_cover_varied_range() {
    let table = heights(meadow, 0, 1200, 0, 1200);
    let d = TreeDecorator::with_density(2026_0904, double(0.15));
    let trees = d.generate(&table, 0, 1200, 0, 1200);
    assert!(!trees.is_empty());
    for expected in [4, 5, 6, 7] {
        assert!(trees.iter().any(|tree| tree.height == expected));
    }
}

#[test]
fn min_spacing() {
    let table = heights(ground, 0, 2000, 0, 2000);
    let d = TreeDecorator::with_density(2026_0904, double(0.15));
    let trees = d.generate(&table, 0, 2000, 0, 2000);
    assert!(!trees.is_empty());
    let trunks: HashSet<(i64, i64)> = trees.iter().map(|tree| (tree.x, tree.z)).collect();
    assert_eq!(trunks.len(), trees.len());
    for tree in &trees {
        for dx in -3i64..=3 {
            for dz in -3i64..=3 {
                let dist = ((dx * dx + dz * dz) as f64).sqrt();
                let other = (tree.x + dx, tree.z + dz);
                if (dx, dz) != (0, 0) && trunks.contains(&other) {
                    assert!(dist >= 3.0, "({},{}) and {other:?}: {dist}", tree.x, tree.z);
                }
            }
        }
    }
}

#[test]
fn trees_only_on_grass() {
    assert!(is_grass_surface(double(64.0)));
    assert!(is_grass_surface(double(68.0)));
    assert!(!is_grass_surface(double(60.0)));
    assert!(!is_grass_surface(double(61.0)));
    assert!(!is_grass_surface(double(75.0)));
    assert!(!is_grass_surface(double(62.5)));
    assert!(is_grass_surface(double(70.5)));
    assert!(!is_grass_surface(double(f64::NAN)));
}

#[test]
fn reasonable_tree_count() {
    let table = heights(islands, 0, 2000, 0, 2000);
    let d = TreeDecorator::new(2026_0904);
    let trees = d.generate(&table, 0, 2000, 0, 2000);
    assert!(trees.len() > 50 && trees.len() < 20000, "tree count: {}", trees.len());
}

#[test]
fn generated_world_is_deterministic_and_caches_columns() {
    let mut a = world(1234);
    let mut b = world(1234);
    assert_eq!(a.block_at(4, 70, -3), b.block_at(4, 70, -3));
    assert_eq!(a.cached_column_count(), 1);
    assert_eq!(a.block_at(4, 71, -3), b.block_at(4, 71, -3));
    assert_eq!(a.cached_column_count(), 1);
    assert_eq!(a.block_at(5, 70, -3), b.block_at(5, 70, -3));
    assert_eq!(a.cached_column_count(), 2);
}

#[test]
fn columns_are_known_once_their_heights_are() {
    let mut world = GeneratedVoxelWorld::new(3);
    assert!(!world.is_known(0, 0));
    survey(&mut world, 0, 0, 0, 0);
    assert!(world.is_known(0, 0));
    assert!(!world.is_known(1, 0));
    assert_eq!(world.block_at(0, 0, 0), Block::Bedrock);
    assert_eq!(world.cached_column_count(), 1);
}

#[test]
fn edits_fall_in_columns_that_are_not_kept() {
    let mut world = GeneratedVoxelWorld::new(3);
    world.set_block(0, 100, 0, Block::Sand);
    world.set_block(1, 100, 0, Block::Gravel);
    world.set_block(500, 100, 0, Block::Stone);
    let missing = world.missing_heights_of_edits();
    assert_eq!(missing.len(), 90);
    assert_eq!(missing.iter().collect::<HashSet<_>>().len(), 90);
    assert!(missing.iter().all(|(x, z)| (-4..=5).contains(x) && (-4..=4).contains(z)));
    for (x, z) in missing {
        world.supply_height(x, z, double(64.0));
    }
    assert!(world.missing_heights_of_edits().is_empty());
    assert_eq!(world.cached_column_count(), 0);
    assert!(world.tick_gravity());
    assert_eq!(world.block_at(0, 100, 0), Block::Air);
    assert_eq!(world.block_at(1, 100, 0), Block::Air);
    let top = (0..100).rev().find(|y| world.block_at(0, *y, 0) != Block::Air).unwrap();
    assert_eq!(world.block_at(0, top, 0), Block::Sand);
    assert!(!world.tick_gravity());
}

#[test]
fn terrain_surface_block_skips_manual_tree_blocks() {
    let mut world = world(1);
    let tree = Tree { x: 0, z: 0, ground: 100, height: 4 };
    for (x, y, z, block) in tree.blocks() {
        world.set_block(x, y, z, block);
    }
    let (leaf_x, leaf_y, leaf_z, _) = tree
        .blocks()
        .into_iter()
        .find(|(_, _, _, block)| *block == Block::OakLeaves)
        .expect("tree should have leaves");
    assert_eq!(world.block_at(leaf_x, leaf_y, leaf_z), Block::OakLeaves);

    let (surface_y, surface) = world
        .terrain_surface_block(leaf_x, leaf_z)
        .expect("terrain surface below tree");
    assert!(!surface.is_tree());
    assert!(surface_y < leaf_y);

    let (tree_top_y, tree_top) = world
        .surface_block(leaf_x, leaf_z)
        .expect("tree column has blocks");
    assert!(tree_top.is_tree());
    assert!(tree_top_y >= leaf_y);
}

fn wooded(seed: u64) -> (GeneratedVoxelWorld, Tree) {
    let mut world = GeneratedVoxelWorld::new(seed);
    for (x, z) in world.missing_heights(400, 500, 900, 1000) {
        world.supply_height(x, z, double(meadow(x, z)));
    }
    let tree = TreeDecorator::new(seed)
        .generate(world.heights(), 410, 490, 910, 990)
        .into_iter()
        .next()
        .expect("the region has a tree");
    (world, tree)
}

#[test]
fn tree_blocks_in_region_returns_generated_trees() {
    let (world, tree) = wooded(2026_0904);
    let blocks = world.tree_blocks_in_region(tree.x - 2, tree.x + 3, tree.z - 2, tree.z + 3);
    assert!(blocks.iter().any(|(_, _, _, block)| *block == Block::OakLog));
    assert!(blocks.iter().any(|(_, _, _, block)| *block == Block::OakLeaves));
}

#[test]
fn tree_blocks_in_region_are_deduplicated() {
    let (world, _) = wooded(2026_0904);
    let blocks = world.tree_blocks_in_region(400, 500, 900, 1000);
    assert!(!blocks.is_empty());
    let mut positions: Vec<_> = blocks.iter().map(|(x, y, z, _)| (*x, *y, *z)).collect();
    let before = positions.len();
    positions.sort_unstable();
    positions.dedup();
    assert_eq!(before, positions.len());
}

#[test]
fn column_decoration_matches_global_tree_blocks() {
    let seed = 2026_0904;
    let (_, tree) = wooded(seed);
    // Grass at the tree's own column only, so that no other tree can stand near it.
    let field = |x: i64, z: i64| if (x, z) == (tree.x, tree.z) { 66.0 } else { 61.0 };
    let mut world = GeneratedVoxelWorld::new(seed);
    for (x, z) in world.missing_heights(tree.x - 4, tree.x + 4, tree.z - 4, tree.z + 4) {
        world.supply_height(x, z, double(field(x, z)));
    }
    let trees = TreeDecorator::new(seed).generate(
        world.heights(),
        tree.x - 4,
        tree.x + 5,
        tree.z - 4,
        tree.z + 5,
    );
    assert_eq!(trees, vec![Tree { ground: 66, ..tree }]);
    for (x, y, z, block) in trees[0].blocks() {
        assert_eq!(world.block_at(x, y, z), block, "({x},{y},{z})");
    }
}

#[test]
fn trees_have_their_shape_on_any_ground() {
    for height in 4..=7 {
        let low = Tree { x: 12, z: -5, ground: 64, height };
        let high = Tree { ground: 70, ..low };
        let lifted: Vec<_> =
            low.blocks().into_iter().map(|(x, y, z, block)| (x, y + 6, z, block)).collect();
        assert_eq!(high.blocks(), lifted);
        assert_eq!(low.blocks(), low.blocks());
    }
}

#[test]
fn worlds_of_one_seed_agree_whatever_they_keep() {
    let mut a = world(11);
    let mut b = world(11);
    a.preload_columns_parallel(-4, 4, -4, 4);
    a.retain_columns_within(0, 0, 1);
    for world in [&mut a, &mut b] {
        world.set_block(2, 70, 2, Block::Glass);
        world.set_block(2, 60, 2, Block::Air);
    }
    for x in -4..=4 {
        for z in -4..=4 {
            for y in Y_MIN - 1..=Y_MAX + 1 {
                assert_eq!(a.block_at(x, y, z), b.block_at(x, y, z));
            }
        }
    }
    assert_eq!(a.block_at(2, 70, 2), Block::Glass);
    assert_eq!(a.block_at(2, 60, 2), Block::Air);
}

#[test]
fn retaining_columns_evicts_distant_generations() {
    let mut near = world(11);
    near.preload_columns_parallel(0, 4, 0, 4);
    assert_eq!(near.cached_column_count(), 25);
    near.retain_columns_within(0, 0, 2);
    assert_eq!(near.cached_column_count(), 9);
    let expected = world(11).block_at(4, 70, 4);
    assert_eq!(near.block_at(4, 70, 4), expected);
    assert_eq!(near.cached_column_count(), 10);
}

#[test]
fn parallel_columns_are_the_single_ones() {
    let mut all = world(21);
    all.preload_columns_parallel(-3, 3, -2, 2);
    assert_eq!(all.cached_column_count(), 35);
    for i in 0..all.cached_column_count() {
        let column: &Column = all.cached_column(i);
        let single = generate_column(21, all.heights(), column.x, column.z);
        assert_eq!(column.blocks, single.blocks);
    }
}

#[test]
fn coarse_grid_preload_only_generates_step_points() {
    let mut world = GeneratedVoxelWorld::new(2026_0904);
    survey(&mut world, -10, 10, -10, 10);
    world.preload_columns_grid_parallel(0, 0, 10, 2);
    assert_eq!(world.cached_column_count(), 11 * 11);
}

#[test]
fn outside_vertical_range_is_air() {
    let mut world = world(7);
    assert_eq!(world.block_at(0, Y_MIN - 1, 0), Block::Air);
    assert_eq!(world.block_at(0, Y_MAX + 1, 0), Block::Air);
    assert_eq!(world.cached_column_count(), 0);
}

#[test]
fn edits_override_generated_blocks_and_persist_as_air() {
    let mut world = world(7);
    let original = world.block_at(0, 60, 0);
    world.set_block(0, 60, 0, Block::OakPlanks);
    assert_eq!(world.block_at(0, 60, 0), Block::OakPlanks);
    world.set_block(0, 60, 0, Block::Air);
    assert_eq!(world.block_at(0, 60, 0), Block::Air);
    assert_ne!(original, Block::OakPlanks);
}

#[test]
fn applying_saved_edits_overrides_generation_and_tracks_column_tops() {
    let mut world = world(7);
    let original = world.block_at(2, 60, 2);
    world.apply_edits(&vec![
        (2, 60, 2, Block::DiamondOre),
        (2, 60, 2, Block::Air),
        (2, 70, 2, Block::Air),
    ]);
    assert_eq!(world.block_at(2, 60, 2), Block::Air);
    assert_ne!(original, Block::Air);
    assert!(world.surface_top(2, 2) >= 70);
    let mut edits = world.edits();
    edits.sort_by_key(|edit| (edit.0, edit.1, edit.2));
    assert_eq!(edits, vec![(2, 60, 2, Block::Air), (2, 70, 2, Block::Air)]);
    world.replace_edits(&vec![(1, 1, 1, Block::Glass)]);
    assert_eq!(world.block_at(2, 60, 2), original);
    assert_eq!(world.edits(), vec![(1, 1, 1, Block::Glass)]);
}

#[test]
fn removing_block_refills_from_adjacent_water() {
    let mut world = world(7);
    world.set_block(0, 60, 0, Block::Water);
    world.set_block(1, 60, 0, Block::OakPlanks);
    world.remove_block_with_fluid_update(1, 60, 0);
    assert_eq!(world.block_at(1, 60, 0), Block::Water);
}

#[test]
fn removing_block_without_adjacent_water_stays_air() {
    let mut world = world(7);
    for (dx, dy, dz) in [
        (-1, 0, 0),
        (1, 0, 0),
        (0, -1, 0),
        (0, 1, 0),
        (0, 0, -1),
        (0, 0, 1),
    ] {
        world.set_block(1 + dx, 60 + dy, dz, Block::Stone);
    }
    world.set_block(1, 60, 0, Block::OakPlanks);
    world.remove_block_with_fluid_update(1, 60, 0);
    assert_eq!(world.block_at(1, 60, 0), Block::Air);
}

#[test]
fn gravity_block_falls_to_lowest_air_above_support() {
    let mut world = world(7);
    world.set_block(0, 5, 0, Block::Stone);
    for y in 6..20 {
        world.set_block(0, y, 0, Block::Air);
    }
    world.set_block(0, 20, 0, Block::Sand);
    assert!(world.tick_gravity());
    assert_eq!(world.block_at(0, 20, 0), Block::Air);
    assert_eq!(world.block_at(0, 6, 0), Block::Sand);
}

#[test]
fn stacked_gravity_blocks_fall_in_order() {
    let mut world = world(7);
    world.set_block(0, 5, 0, Block::Stone);
    for y in 6..10 {
        world.set_block(0, y, 0, Block::Air);
    }
    world.set_block(0, 10, 0, Block::Sand);
    world.set_block(0, 11, 0, Block::Gravel);
    assert!(world.tick_gravity());
    assert_eq!(world.block_at(0, 11, 0), Block::Gravel);
    assert_eq!(world.block_at(0, 6, 0), Block::Sand);
    assert!(world.tick_gravity());
    assert_eq!(world.block_at(0, 7, 0), Block::Gravel);
    assert_eq!(world.block_at(0, 6, 0), Block::Sand);
}

#[test]
fn hashes_are_fixed() {
    assert_eq!(splitmix64(0), 0xe220_a839_7b1d_cdaf);
    assert_eq!(hash64(1, 2, 3, 4), hash64(1, 2, 3, 4));
    assert_ne!(hash64(1, 2, 3, 4), hash64(1, 2, 3, 5));
    assert_eq!(hash53(1, 2, 3, 4), hash64(1, 2, 3, 4) >> 11);
    let seeds = noise_seeds(9, 0, 3);
    assert_eq!(seeds[0] as u64, splitmix64(splitmix64(9)) & 0x7fff_ffff);
    assert_eq!(seeds.len(), 3);
    assert_ne!(noise_seeds(9, 1, 1)[0], seeds[0]);
}

#[test]
fn doubles_compare_and_round_down() {
    for (a, b) in [(1.0, 2.0), (-3.5, -3.25), (0.0, -0.0), (f64::NAN, 1.0), (1e300, f64::INFINITY)] {
        assert_eq!(double(a).less(double(b)), a < b);
        assert_eq!(double(a).at_most(double(b)), a <= b);
        assert_eq!(double(b).less(double(a)), b < a);
    }
    for v in [0.5f64, -0.5, 63.999, -64.0, 1.0e15, 4.0e-300] {
        assert_eq!(double(v).floor(), v.floor() as i64);
        assert_eq!(double(v).abs().bits, v.abs().to_bits());
    }
    assert!(double(f64::NAN).is_nan());
    assert!(!double(f64::INFINITY).is_finite());
    assert_eq!(Double::of_fraction(1 << 52).bits, 0.5f64.to_bits());
}

#[test]
fn kept_columns_are_listed_once_and_counted() {
    let mut world = world(7);
    world.preload_columns_parallel(-2, 2, -1, 1);
    assert_eq!(world.cached_column_count(), 15);
    let listed: HashSet<_> = (0..15)
        .map(|i| {
            let column = world.cached_column(i);
            (column.x, column.z)
        })
        .collect();
    let expected: HashSet<_> = (-2..=2).flat_map(|x| (-1..=1).map(move |z| (x, z))).collect();
    assert_eq!(listed, expected);
    world.preload_columns_grid_parallel(0, 0, 8, 4);
    assert_eq!(world.cached_column_count(), 39);
    world.retain_columns_within(0, 0, 1);
    assert_eq!(world.cached_column_count(), 9);
    assert_eq!(world.clone_columns_region(-1, 2, -1, 1).len(), 12);
    assert_eq!(world.cached_column_count(), 12);
}

fn sorted_edits(world: &GeneratedVoxelWorld) -> Vec<(i64, i64, i64, Block)> {
    let mut edits = world.edits();
    edits.sort_by_key(|(x, y, z, _)| (*x, *z, *y));
    edits
}

#[test]
fn falling_moves_edits_and_asks_only_where_there_are_none() {
    let mut world = world(7);
    world.set_block(0, 5, 0, Block::Stone);
    world.set_block(0, 6, 0, Block::Air);
    world.set_block(0, 7, 0, Block::Sand);
    assert!(world.tick_gravity());
    assert_eq!(world.cached_column_count(), 0);
    assert_eq!(
        sorted_edits(&world),
        vec![
            (0, 5, 0, Block::Stone),
            (0, 6, 0, Block::Sand),
            (0, 7, 0, Block::Air),
        ]
    );
    world.set_block(3, 100, 0, Block::Gravel);
    assert!(world.tick_gravity());
    assert_eq!(world.cached_column_count(), 1);
    assert_eq!(world.cached_column(0).x, 3);
    assert_eq!(world.edits().len(), 5);
}

#[test]
fn removing_a_block_asks_its_neighbours_in_turn() {
    let mut world = world(7);
    world.set_block(0, 60, 0, Block::Water);
    world.remove_block_with_fluid_update(1, 60, 0);
    assert_eq!(world.cached_column_count(), 0);
    assert_eq!(
        sorted_edits(&world),
        vec![(0, 60, 0, Block::Water), (1, 60, 0, Block::Water)]
    );
    world.set_block(3, 110, 0, Block::Stone);
    world.set_block(4, 110, 1, Block::Water);
    world.remove_block_with_fluid_update(4, 110, 0);
    assert_eq!(world.cached_column_count(), 3);
    assert_eq!(world.block_at(4, 110, 0), Block::Water);
    world.remove_block_with_fluid_update(4, 200, 0);
    assert_eq!(world.edits().len(), 5);
}

#[test]
fn asking_for_blocks_makes_no_edits() {
    let mut world = world(7);
    world.set_block(2, 90, 2, Block::Glass);
    for y in -3..140 {
        world.block_at(2, y, 2);
        world.block_at(-5, y, 5);
    }
    assert_eq!(world.edits(), vec![(2, 90, 2, Block::Glass)]);
    assert_eq!(world.cached_column_count(), 2);
    let mut other = self::world(7);
    other.block_at(1, -1, 1);
    other.block_at(1, 128, 1);
    assert_eq!(other.cached_column_count(), 0);
}
