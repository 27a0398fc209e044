//! Blocks, recipes, light and the atlas.

use image::RgbaImage;
use mc::world::atlas::{
    cover, is_turf, load_tile, map_name, Atlas, AtlasError, MapKind, TileTable, GUTTER, STRIDE,
    TILE,
};
use mc::world::block::{should_draw_face, Block, Face, ALL, COUNT, LIGHT_MAX};
use mc::world::light::{flood_fill_block, flood_fill_sky, propagate};
use mc::world::recipe::{all, for_output, using};
use std::collections::VecDeque;

#[test]
fn ids_stable() {
    assert_eq!(Block::Air.id(), 0);
    assert_eq!(Block::GrassBlock.id(), 1);
    assert_eq!(Block::Water.id(), 19);
    assert_eq!(Block::Bookshelf.id(), 20);
    assert_eq!(Block::DeepslateRedstoneOre.id(), 25);
    for (i, b) in ALL.iter().enumerate() {
        assert_eq!(b.id() as usize, i);
        assert_eq!(b.def().id as usize, i);
        assert_eq!(Block::from_id(i as u16), Some(*b));
    }
    assert_eq!(Block::from_id(COUNT as u16), None);
    assert_eq!(Block::from_name("mc:stone"), Some(Block::Stone));
    assert_eq!(Block::from_name("mc:nope"), None);
}

#[test]
fn textures_complete() {
    let tex = Block::unique_textures();
    assert_eq!(tex.len(), 33, "{tex:?}");
    assert_eq!(tex[0], "grass_block_top.png");
    assert_eq!(tex[1], "grass_block_side_overlay.png");
    assert_eq!(tex[2], "dirt.png");
    assert_eq!(tex[22], "water_overlay.png");
    assert_eq!(tex[31], "piston_inner.png");
    assert_eq!(Block::OakLog.tile(Face::Top), "oak_log_top.png");
    assert_eq!(Block::OakLog.tile(Face::Side), "oak_log.png");
    assert_eq!(Block::GrassBlock.tile(Face::Bottom), "dirt.png");
}

#[test]
fn opacity_and_fluid_flags() {
    assert!(!Block::Air.is_opaque() && !Block::Air.is_solid());
    assert!(!Block::OakLeaves.is_opaque() && Block::OakLeaves.is_solid());
    assert!(!Block::Glass.is_opaque() && Block::Glass.is_solid());
    assert!(Block::Water.is_fluid() && !Block::Water.is_solid());
    assert!(Block::Water.is_transparent() && Block::Glass.is_transparent());
    assert!(!Block::OakLeaves.is_transparent() && !Block::Stone.is_transparent());
    assert_eq!(Block::Stone.render_material(), 0);
    assert_eq!(Block::GrassBlock.render_material(), 3);
    assert_eq!(Block::Water.render_material(), 1);
    assert_eq!(Block::OakLeaves.render_material(), 2);
    assert_eq!(Block::Sand.render_material(), 4);
    assert!(Block::Sand.def().gravity && Block::Gravel.def().gravity);
    assert!(!Block::Stone.def().gravity);
    assert_eq!(Block::Bedrock.def().hardness, None);
}

#[test]
fn face_culling_rules() {
    assert!(!should_draw_face(Block::Stone, Block::Stone));
    assert!(!should_draw_face(Block::Stone, Block::Dirt));
    assert!(should_draw_face(Block::Stone, Block::Air));
    assert!(should_draw_face(Block::Stone, Block::Glass));
    assert!(should_draw_face(Block::Stone, Block::Water));
    assert!(!should_draw_face(Block::Glass, Block::Stone));
    assert!(!should_draw_face(Block::Glass, Block::Glass));
    assert!(should_draw_face(Block::Glass, Block::Air));
    assert!(!should_draw_face(Block::Water, Block::Water));
    assert!(should_draw_face(Block::Water, Block::Air));
    assert!(!should_draw_face(Block::Air, Block::Stone));
}

#[test]
fn recipes_have_valid_outputs_and_ids() {
    let mut ids = std::collections::HashSet::new();
    for recipe in all() {
        assert_ne!(recipe.output, Block::Air);
        assert!(recipe.output_count > 0);
        assert!(ids.insert(recipe.id));
        assert!(recipe
            .ingredients
            .iter()
            .flatten()
            .all(|block| *block != Block::Air));
    }
}

#[test]
fn lookup_supports_recipe_and_usage_views() {
    assert_eq!(for_output(Block::OakPlanks).len(), 1);
    assert_eq!(for_output(Block::Dirt).len(), 0);
    assert_eq!(using(Block::Sand).len(), 2);
    assert_eq!(using(Block::OakLog).len(), 1);
}

fn at(light: &[u8], width: usize, height: usize, x: usize, y: usize, z: usize) -> u8 {
    light[(z * width + x) * height + y]
}

#[test]
fn open_column_is_fully_lit() {
    let (width, depth, height) = (1, 1, 4);
    let blocks = vec![Block::Air; width * depth * height];
    let light = flood_fill_sky(&blocks, width, depth, height, height - 1);
    for y in 0..height {
        assert_eq!(at(&light, width, height, 0, y, 0), LIGHT_MAX);
    }
}

#[test]
fn solid_column_is_dark_below_the_surface() {
    let (width, depth, height) = (1, 1, 4);
    let blocks = vec![Block::Stone, Block::Stone, Block::Air, Block::Air];
    let light = flood_fill_sky(&blocks, width, depth, height, height - 1);
    assert_eq!(at(&light, width, height, 0, 0, 0), 0);
    assert_eq!(at(&light, width, height, 0, 1, 0), 0);
    assert_eq!(at(&light, width, height, 0, 2, 0), LIGHT_MAX);
    assert_eq!(at(&light, width, height, 0, 3, 0), LIGHT_MAX);
}

#[test]
fn overhang_shadow_falls_off_laterally() {
    let (width, depth, height) = (3, 1, 6);
    let mut blocks = vec![Block::Air; width * depth * height];
    for x in 1..3 {
        for y in 4..6 {
            blocks[x * height + y] = Block::Stone;
        }
    }
    let light = flood_fill_sky(&blocks, width, depth, height, height - 1);
    assert_eq!(at(&light, width, height, 0, 0, 0), LIGHT_MAX);
    let near = at(&light, width, height, 1, 0, 0);
    let far = at(&light, width, height, 2, 0, 0);
    assert!(near < LIGHT_MAX, "roofed cell must not be fully lit: {near}");
    assert!(far < near, "light must fall off with distance: {far} < {near}");
    assert_eq!((near, far), (14, 13));
}

#[test]
fn propagation_attenuates_by_one_per_air_cell() {
    let (width, depth, height) = (5, 1, 1);
    let blocks = vec![Block::Air; width * depth * height];
    let mut light = vec![0u8; width * depth * height];
    light[0] = LIGHT_MAX;
    let mut queue = VecDeque::from([0]);
    propagate(&mut light, &blocks, width, depth, height, &mut queue);
    assert_eq!(light, vec![15, 14, 13, 12, 11]);
}

#[test]
fn water_and_leaves_attenuate_faster_than_air() {
    let (width, depth, height) = (3, 1, 1);
    let blocks = vec![Block::Air, Block::Water, Block::OakLeaves];
    let mut light = vec![0u8; width];
    light[0] = LIGHT_MAX;
    let mut queue = VecDeque::from([0]);
    propagate(&mut light, &blocks, width, depth, height, &mut queue);
    assert_eq!(light, vec![15, 13, 11]);
}

#[test]
fn opaque_blocks_stop_propagation() {
    let (width, depth, height) = (3, 1, 1);
    let blocks = vec![Block::Air, Block::Stone, Block::Air];
    let mut light = vec![0u8; width];
    light[0] = LIGHT_MAX;
    let mut queue = VecDeque::from([0]);
    propagate(&mut light, &blocks, width, depth, height, &mut queue);
    assert_eq!(light, vec![15, 0, 0]);
}

#[test]
fn block_light_is_dark_until_emissive_blocks_exist() {
    let (width, depth, height) = (2, 1, 2);
    let blocks = vec![Block::Stone; width * depth * height];
    let light = flood_fill_block(&blocks, width, depth, height);
    assert!(light.iter().all(|&value| value == 0));
}

#[test]
fn a_low_ceiling_leaves_the_light_below_it_unchanged() {
    let (width, depth, height) = (4, 3, 8);
    let mut blocks = vec![Block::Air; width * depth * height];
    for column in 0..width * depth {
        blocks[column * height] = Block::Stone;
        if column % 3 == 0 {
            blocks[column * height + 3] = Block::Stone;
        }
    }
    let whole = flood_fill_sky(&blocks, width, depth, height, height - 1);
    let low = flood_fill_sky(&blocks, width, depth, height, 3);
    for column in 0..width * depth {
        for y in 0..=4 {
            assert_eq!(low[column * height + y], whole[column * height + y]);
        }
        for y in 5..height {
            assert_eq!(whole[column * height + y], LIGHT_MAX);
        }
    }
}

fn tile(fill: impl Fn(u32, u32) -> [u8; 4]) -> Vec<u8> {
    let image = RgbaImage::from_fn(TILE, TILE, |x, y| image::Rgba(fill(x, y)));
    image.into_raw()
}

#[test]
fn atlas_builds_and_indexed() {
    let mut a = Atlas::blank();
    assert_eq!(a.tiles.len(), 33);
    assert_eq!(a.cols, 6);
    assert_eq!(a.size, 3168);
    assert_eq!(a.tile_index("grass_block_top.png"), Some(0));
    assert_eq!(a.tile_index("dirt.png"), Some(2));
    assert_eq!(a.tile_index("water_overlay.png"), Some(22));
    assert_eq!(a.tile_index("piston_inner.png"), Some(31));
    assert_eq!(a.tile_index("nope.png"), None);

    let dirt = load_tile(TILE, TILE, tile(|_, _| [120, 80, 40, 255])).unwrap();
    let grass = load_tile(TILE, TILE, tile(|_, y| [30, 160, 30, if y < 64 { 255 } else { 0 }])).unwrap();
    let side = cover(dirt, &grass);
    let grass_side = a.tile_index(Block::GrassBlock.def().side).unwrap();
    assert!(a.place(grass_side, MapKind::Color, &side).is_ok());
    let bytes = a.bytes(MapKind::Color);
    let x0 = (grass_side as u32 % a.cols) * STRIDE + GUTTER;
    let y0 = (grass_side as u32 / a.cols) * STRIDE + GUTTER;
    let pixel = |x: u32, y: u32| {
        let i = 4 * (y as usize * a.size as usize + x as usize);
        [bytes[i], bytes[i + 1], bytes[i + 2], bytes[i + 3]]
    };
    for dy in 0..TILE {
        for dx in 0..TILE {
            assert_eq!(pixel(x0 + dx, y0 + dy)[3], 255);
        }
    }
    assert_eq!(pixel(x0 + 3, y0 + 3), [30, 160, 30, 255]);
    assert_eq!(pixel(x0 + 3, y0 + 400), [120, 80, 40, 255]);

    let (u0, v0, u1, v1) = a.uv(0);
    assert!(u0 < u1 && v0 < v1);
    assert_eq!(u1, GUTTER + TILE);
    let full = a.uv(0);
    let half = a.uv_region(0, 0, 0, 2, 2);
    assert!(half.2 - half.0 < full.2 - full.0);
    assert_eq!(a.uv_region(7, 1, 3, 2, 2), (528 + 8 + 256, 528 + 8 + 256, 528 + 8 + 512, 528 + 8 + 512));
    let top = a.tile_id(Block::OakLog, Block::OakLog.def().top);
    let side = a.tile_id(Block::OakLog, Block::OakLog.def().side);
    assert_ne!(top, side);
}

#[test]
fn gutters_repeat_the_edges_of_a_tile() {
    let mut a = Atlas::blank();
    let picture = load_tile(TILE, TILE, tile(|x, y| [(x / 2) as u8, (y / 2) as u8, 7, 255])).unwrap();
    assert!(a.place(8, MapKind::Normal, &picture).is_ok());
    let bytes = a.bytes(MapKind::Normal);
    let (x0, y0) = (2 * STRIDE, STRIDE);
    let pixel = |x: u32, y: u32| {
        let i = 4 * (y as usize * a.size as usize + x as usize);
        [bytes[i], bytes[i + 1], bytes[i + 2], bytes[i + 3]]
    };
    assert_eq!(pixel(x0, y0), [0, 0, 7, 255]);
    assert_eq!(pixel(x0 + 7, y0 + 8 + 100), [0, 50, 7, 255]);
    assert_eq!(pixel(x0 + 8 + 200, y0 + 527), [100, 255, 7, 255]);
    assert_eq!(pixel(x0 + 527, y0 + 527), [255, 255, 7, 255]);
    assert_eq!(pixel(x0 + 8 + 300, y0 + 8 + 40), [150, 20, 7, 255]);
    assert_eq!(pixel(x0 + 528, y0), [0, 0, 0, 0]);
    assert!(a.bytes(MapKind::Roughness).iter().all(|b| *b == 0));
}

#[test]
fn textures_of_the_wrong_size_are_rejected() {
    assert!(matches!(
        load_tile(16, TILE, vec![0; 16 * 512 * 4]),
        Err(AtlasError::WrongSize { width: 16, height: 512 })
    ));
    assert!(matches!(load_tile(TILE, TILE, vec![0; 12]), Err(AtlasError::TooShort)));
}

#[test]
fn textures_have_maps_beside_them() {
    assert_eq!(map_name("dirt.png", MapKind::Color), "dirt.png");
    assert_eq!(map_name("dirt.png", MapKind::Normal), "dirt_normal.png");
    assert_eq!(map_name("dirt.png", MapKind::Roughness), "dirt_roughness.png");
    assert_eq!(map_name("png", MapKind::Normal), "png_normal.png");
    assert!(is_turf("grass_block_side_overlay.png"));
    assert!(!is_turf("dirt.png"));
}

#[test]
fn tiles_are_numbered_like_the_textures() {
    let table = TileTable::new();
    let names = Block::unique_textures();
    for block in ALL {
        if block != Block::Air {
            for face in [Face::Top, Face::Side, Face::Bottom] {
                assert_eq!(names[table.number(block, face) as usize], block.tile(face));
            }
        }
    }
}

#[test]
fn atlases_come_in_all_sizes() {
    let mut atlas = Atlas::blank();
    let tile = load_tile(TILE, TILE, tile(|_, _| [200, 100, 50, 255])).unwrap();
    assert!(atlas.place(0, MapKind::Normal, &tile).is_ok());
    let mips = atlas.mips(MapKind::Normal);
    let sides: Vec<u32> = mips.iter().map(|mip| mip.side).collect();
    assert_eq!(sides, [3168, 1584, 792, 396, 198, 99, 49, 24, 12, 6, 3, 1]);
    for mip in &mips {
        assert_eq!(mip.bytes.len(), 4 * mip.side as usize * mip.side as usize);
    }
    assert_eq!(mips[0].bytes, atlas.bytes(MapKind::Normal));
    let middle = 4 * (130 * 1584 + 130);
    assert_eq!(mips[1].bytes[middle..middle + 4], [200, 100, 50, 255]);
}
