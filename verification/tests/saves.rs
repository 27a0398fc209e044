//! Saves and the names of worlds.

use mc::double::Double;
use mc::player::inventory::{ItemStack, INVENTORY_SIZE};
use mc::player::mode::GameMode;
use mc::world::block::{Block, COUNT};
use mc::world::codec::{get, get_signed, put, put_bytes, put_signed};
use mc::world::names::{
    list_worlds, numbered_dir_name, sanitize_dir_name, sort_by_name, unique_world_dir,
};
use mc::world::save::{
    parse_world_save, BlockEdit, Point, SavedPlayer, SavedStack, WorldSave, FORMAT_VERSION,
};

const HOTBAR_SIZE: usize = 9;
const HOTBAR_INDEX: usize = 8;

fn double(v: f64) -> Double {
    Double { bits: v.to_bits() }
}

fn sample_save() -> WorldSave {
    WorldSave {
        name: "测试 世界/名".to_string(),
        seed: 0xDEAD_BEEF_CAFE_F00D,
        spawn_x: 3,
        spawn_z: -4,
        spawn_height: 63,
        player: Some(SavedPlayer {
            position: Point { x: double(3.5), y: double(64.0), z: double(-3.5) },
            yaw: double(0.785),
            pitch: double(-0.2),
            mode: GameMode::Creative,
            selected: INVENTORY_SIZE - HOTBAR_INDEX,
            stacks: vec![
                SavedStack {
                    slot: INVENTORY_SIZE - HOTBAR_SIZE,
                    block: Block::GrassBlock,
                    count: 64,
                },
                SavedStack {
                    slot: INVENTORY_SIZE - HOTBAR_SIZE + 1,
                    block: Block::DiamondOre,
                    count: 1,
                },
            ],
        }),
        edits: vec![
            BlockEdit { x: 10, y: 61, z: 10, block: Block::Air },
            BlockEdit { x: 11, y: 62, z: 10, block: Block::OakLog },
        ],
    }
}

#[test]
fn roundtrip_full_save() {
    let original = sample_save();
    let loaded = parse_world_save(&original.encode()).expect("the save is readable");
    assert_eq!(loaded, original);
}

#[test]
fn save_without_player_roundtrips() {
    let original = WorldSave {
        player: None,
        edits: Vec::new(),
        ..sample_save()
    };
    let loaded = parse_world_save(&original.encode()).expect("the save is readable");
    assert_eq!(loaded, original);
}

#[test]
fn truncated_file_is_rejected() {
    let data = sample_save().encode();
    assert!(parse_world_save(&data[..data.len() - 3]).is_none());
    for length in 0..data.len() {
        assert!(parse_world_save(&data[..length]).is_none());
    }
}

#[test]
fn wrong_magic_is_rejected() {
    let mut data = sample_save().encode();
    data[0] = b'X';
    assert!(parse_world_save(&data).is_none());
}

fn header() -> Vec<u8> {
    let mut out = Vec::new();
    put_bytes(&mut out, b"MCS1");
    put(&mut out, FORMAT_VERSION as u64, 2);
    put(&mut out, COUNT as u64, 2);
    put(&mut out, 1, 2);
    put_bytes(&mut out, b"a");
    put(&mut out, 1, 8);
    put_signed(&mut out, 0);
    put_signed(&mut out, 0);
    put_signed(&mut out, 0);
    out
}

fn one_edit(block: u64) -> Vec<u8> {
    let mut out = header();
    put(&mut out, 0, 1);
    put(&mut out, 1, 4);
    put_signed(&mut out, 1);
    put_signed(&mut out, 1);
    put_signed(&mut out, 1);
    put(&mut out, block, 1);
    out
}

#[test]
fn unknown_block_id_is_rejected() {
    assert!(parse_world_save(&one_edit(0xFF)).is_none());
    let known = parse_world_save(&one_edit(3)).expect("the save is readable");
    assert_eq!(known.edits[0].block, Block::Stone);
}

fn with_stacks(slots: [u64; 2]) -> Vec<u8> {
    let mut out = header();
    put(&mut out, 1, 1);
    for value in [1.0, 1.0, 1.0, 0.0, 0.0] {
        put(&mut out, f64::to_bits(value), 8);
    }
    put(&mut out, 0, 1);
    put(&mut out, 0, 1);
    put(&mut out, 2, 2);
    for slot in slots {
        put(&mut out, slot, 1);
        put(&mut out, Block::Stone.id() as u64, 1);
        put(&mut out, 1, 2);
    }
    put(&mut out, 0, 4);
    out
}

#[test]
fn duplicate_stack_slot_is_rejected() {
    assert!(parse_world_save(&with_stacks([0, 0])).is_none());
    assert!(parse_world_save(&with_stacks([0, 1])).is_some());
}

#[test]
fn duplicate_edits_keep_last() {
    let mut save = sample_save();
    save.edits.push(BlockEdit { x: 10, y: 61, z: 10, block: Block::Stone });
    let loaded = parse_world_save(&save.encode()).expect("the save is readable");
    let at_position: Vec<Block> = loaded
        .edits
        .iter()
        .filter(|edit| (edit.x, edit.y, edit.z) == (10, 61, 10))
        .map(|edit| edit.block)
        .collect();
    assert_eq!(at_position, vec![Block::Stone]);
}

#[test]
fn trailing_bytes_and_bad_text_are_rejected() {
    let mut long = sample_save().encode();
    long.push(0);
    assert!(parse_world_save(&long).is_none());
    let mut bad = one_edit(3);
    bad[10] = 0xff;
    assert!(parse_world_save(&bad).is_none());
}

#[test]
fn sanitize_name_strips_path_characters() {
    assert_eq!(sanitize_dir_name("a/b\\c:d"), "a_b_c_d");
    assert_eq!(sanitize_dir_name("  x  "), "x");
    assert_eq!(sanitize_dir_name("///"), "world");
    assert_eq!(sanitize_dir_name("新世界"), "新世界");
}

#[test]
fn control_characters_are_removed_and_white_space_is_folded() {
    assert_eq!(sanitize_dir_name("a\u{7f}b"), "ab");
    assert_eq!(sanitize_dir_name("a\0b\tc\u{85}d\u{9f}"), "abcd");
    assert_eq!(sanitize_dir_name("a\u{a0}\u{3000} b\u{2009}"), "a_b");
    assert_eq!(sanitize_dir_name("\u{1}\u{3000}"), "world");
}

#[test]
fn unique_dir_avoids_collision() {
    let first = unique_world_dir("a", &vec![]);
    let second = unique_world_dir("a", &vec![first.clone()]);
    assert_ne!(first, second);
    assert_eq!(first, "a");
    assert_eq!(second, "a (2)");
    let taken = vec![second.clone(), "b".to_string(), first, "a (4)".to_string()];
    assert_eq!(unique_world_dir("a", &taken), "a (3)");
    assert_eq!(unique_world_dir(" a/ ", &taken), "a (3)");
    assert_eq!(unique_world_dir("c", &taken), "c");
    assert_eq!(numbered_dir_name("a", 1205), "a (1205)");
}

#[test]
fn list_worlds_skips_invalid_entries() {
    let good = WorldSave { name: "good".to_string(), ..sample_save() };
    let files = vec![b"not a save".to_vec(), good.encode(), Vec::new()];
    let worlds = list_worlds(&files);
    assert_eq!(worlds.len(), 1);
    assert_eq!(worlds[0].name, "good");
    let early = WorldSave { name: "early".to_string(), ..sample_save() };
    let worlds = list_worlds(&vec![good.encode(), early.encode()]);
    assert_eq!(worlds, vec![early, good]);
    assert!(list_worlds(&vec![]).is_empty());
}

#[test]
fn worlds_are_listed_by_name() {
    let named = |name: &str| WorldSave { name: name.to_string(), ..sample_save() };
    let sorted = sort_by_name(vec![named("b"), named("a"), named("ab"), named("B")]);
    let names: Vec<&str> = sorted.iter().map(|save| save.name.as_str()).collect();
    assert_eq!(names, ["B", "a", "ab", "b"]);
}

#[test]
fn restored_inventory_slots_match_stacks() {
    let original = sample_save();
    let loaded = parse_world_save(&original.encode()).expect("the save is readable");
    let mut slots = [None; INVENTORY_SIZE];
    if let Some(player) = &loaded.player {
        for stack in &player.stacks {
            slots[stack.slot] = Some(ItemStack::new(stack.block, stack.count));
        }
    }
    assert_eq!(
        slots[INVENTORY_SIZE - HOTBAR_SIZE],
        Some(ItemStack::new(Block::GrassBlock, 64))
    );
    assert_eq!(slots[0], None);
}

#[test]
fn numbers_are_stored_low_byte_first() {
    let mut out = Vec::new();
    put(&mut out, 0x0102, 2);
    put_signed(&mut out, -2);
    assert_eq!(out, [2, 1, 0xfe, 0xff, 0xff, 0xff, 0xff, 0xff, 0xff, 0xff]);
    assert_eq!(get(&out, 0, 2), 0x0102);
    assert_eq!(get_signed(&out, 2), -2);
}
