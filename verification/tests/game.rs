//! The rules of play.

use mc::double::Double;
use mc::game::catalog::{
    jei_matches, matches_query, page_count, page_items, recipe_detail, shown_face,
};
use mc::game::controls::{
    on_click, on_key, Button, ClickAction, Controls, Key, KeyAction, KeyPress,
};
use mc::game::form::{
    form_message, form_outcome, scatter, seed_from_time, submit_form, FormOutcome,
};
use mc::game::process::{read_status, read_ticks, ProcessStatus};
use mc::game::screen::{
    listed_worlds, next_screen, CreationStage, LauncherEvent, LauncherScreen,
};
use mc::game::slots::{apply_gesture, return_cursor, Cursor, Gesture};
use mc::game::spawn::{
    nearest_spawn, ring_positions, safe_spawn_y, search_step, spawn_candidate, SearchStep,
    MAX_RING, SEARCH_STEP,
};
use mc::game::target::{can_mine, mine_block, place_block};
use mc::game::text::{has_part, parse_number};
use mc::game::view::MeshView;
use mc::player::aim::BlockHit;
use mc::player::inventory::{Inventory, ItemStack, HOTBAR_START};
use mc::player::mode::GameMode;
use mc::world::block::{Block, Face};
use mc::world::column::ColumnGen;
use mc::world::voxel::{GeneratedVoxelWorld, VoxelWorld};
use std::collections::HashSet;

fn double(v: f64) -> Double {
    Double { bits: v.to_bits() }
}

#[test]
fn generated_spawn_is_not_in_water() {
    let seed = 2026_0904;
    let field = |x: i64, z: i64| 58.0 + ((x * x + z * z) as f64).sqrt() / 100.0;
    let mut found = None;
    for ring in 0..=256 {
        let positions = ring_positions(ring);
        let layers: Vec<Option<i64>> = positions
            .iter()
            .map(|&(x, z)| spawn_candidate(seed, x, z, double(field(x, z))))
            .collect();
        if let Some(k) = nearest_spawn(&positions, &layers) {
            found = Some((positions[k], layers[k].unwrap()));
            break;
        }
    }
    let ((x, z), y) = found.expect("some ring is dry");
    let column = ColumnGen::new(seed).generate(x, z, double(field(x, z)));
    assert_eq!(safe_spawn_y(&column), Some(y));
    assert!(field(x, z) >= 60.0);
    assert_eq!((x, z), (0, -256));
}

#[test]
fn rings_go_round_the_origin() {
    assert_eq!(ring_positions(0), vec![(0, 0)]);
    let one = ring_positions(1);
    assert_eq!(one.len(), 8);
    assert_eq!(one[0], (-SEARCH_STEP, -SEARCH_STEP));
    assert_eq!(one[1], (-SEARCH_STEP, SEARCH_STEP));
    assert_eq!(one[6], (-SEARCH_STEP, 0));
    assert_eq!(one[7], (SEARCH_STEP, 0));
    let three = ring_positions(3);
    assert_eq!(three.iter().collect::<HashSet<_>>().len(), 24);
    assert!(three.iter().all(|(x, z)| x.abs().max(z.abs()) == 3 * SEARCH_STEP));
}

#[test]
fn the_nearest_candidate_wins() {
    let positions = vec![(3, 4), (0, 5), (5, 0), (1, 1)];
    assert_eq!(nearest_spawn(&positions, &vec![Some(1), Some(2), Some(3), None]), Some(0));
    assert_eq!(nearest_spawn(&positions, &vec![None, Some(2), Some(3), Some(4)]), Some(3));
    assert_eq!(nearest_spawn(&positions, &vec![None, None, None, None]), None);
}

#[test]
fn the_search_goes_on_ring_by_ring() {
    assert_eq!(search_step(0, &vec![Some(64)]), SearchStep::Found { x: 0, z: 0, y: 64 });
    assert_eq!(search_step(0, &vec![None]), SearchStep::Next(1));
    let mut layers = vec![None; 8];
    assert_eq!(search_step(1, &layers), SearchStep::Next(2));
    layers[0] = Some(70);
    layers[7] = Some(71);
    assert_eq!(search_step(1, &layers), SearchStep::Found { x: SEARCH_STEP, z: 0, y: 71 });
    let last = vec![None; 8 * MAX_RING as usize];
    assert_eq!(search_step(MAX_RING, &last), SearchStep::Failed);
}

#[test]
fn water_and_roofs_are_no_place_to_begin() {
    assert_eq!(spawn_candidate(1, 0, 0, double(50.0)), None);
    assert_eq!(spawn_candidate(1, 0, 0, double(60.2)), Some(61));
    assert_eq!(spawn_candidate(1, 0, 0, double(66.9)), Some(67));
}

fn press(key: Key, pressed: bool, repeat: bool) -> KeyPress {
    KeyPress { key, pressed, repeat }
}

#[test]
fn keys_move_the_player_and_ask_for_things() {
    let mut held = Controls::new();
    assert_eq!(on_key(&mut held, false, false, press(Key::Forward, true, false)), KeyAction::Nothing);
    assert!(held.move_forward);
    assert_eq!((held.forward(), held.rightward()), (1, 0));
    on_key(&mut held, false, false, press(Key::Backward, true, false));
    on_key(&mut held, false, false, press(Key::Left, true, false));
    assert_eq!((held.forward(), held.rightward()), (0, -1));
    on_key(&mut held, false, false, press(Key::Jump, true, false));
    assert!(held.space_held && held.jump_requested);
    on_key(&mut held, false, false, press(Key::Jump, false, false));
    assert!(!held.space_held && held.jump_requested);
    on_key(&mut held, false, false, press(Key::Sink, true, false));
    assert!(held.swim_down);
    held.stop();
    assert_eq!(held, Controls::new());
    assert_eq!(
        on_key(&mut held, false, false, press(Key::Slot(4), true, false)),
        KeyAction::Select(HOTBAR_START + 4)
    );
    assert_eq!(on_key(&mut held, false, false, press(Key::Escape, true, false)), KeyAction::LeaveWorld);
    assert_eq!(on_key(&mut held, false, false, press(Key::Mode, true, false)), KeyAction::ToggleMode);
    assert_eq!(on_key(&mut held, false, false, press(Key::Browser, true, false)), KeyAction::Nothing);
    assert_eq!(on_key(&mut held, false, false, press(Key::Inventory, true, true)), KeyAction::Nothing);
}

#[test]
fn an_open_inventory_takes_most_keys() {
    let mut held = Controls::new();
    assert_eq!(on_key(&mut held, true, false, press(Key::Escape, true, false)), KeyAction::CloseInventory);
    assert_eq!(on_key(&mut held, true, true, press(Key::Escape, true, false)), KeyAction::CloseInventory);
    assert_eq!(on_key(&mut held, true, true, press(Key::Inventory, true, false)), KeyAction::Nothing);
    assert_eq!(on_key(&mut held, true, false, press(Key::Inventory, true, false)), KeyAction::ToggleInventory);
    assert_eq!(on_key(&mut held, true, false, press(Key::Browser, true, false)), KeyAction::ToggleBrowser);
    assert_eq!(on_key(&mut held, true, false, press(Key::Mode, true, false)), KeyAction::Nothing);
    assert_eq!(on_key(&mut held, true, false, press(Key::Slot(0), true, false)), KeyAction::Nothing);
    on_key(&mut held, true, false, press(Key::Forward, true, false));
    assert_eq!(held, Controls::new());
    assert_eq!(on_click(true, Button::Left), ClickAction::Nothing);
    assert_eq!(on_click(false, Button::Left), ClickAction::Mine);
    assert_eq!(on_click(false, Button::Right), ClickAction::Place);
    assert_eq!(on_click(false, Button::Other), ClickAction::Nothing);
}

#[test]
fn screens_follow_buttons() {
    let home = LauncherScreen::Home;
    let worlds = next_screen(home, LauncherEvent::OpenWorlds);
    assert_eq!(worlds, LauncherScreen::Worlds);
    let form = next_screen(worlds, LauncherEvent::OpenForm);
    assert_eq!(form, LauncherScreen::CreateWorld);
    assert_eq!(next_screen(form, LauncherEvent::Back), LauncherScreen::Worlds);
    let creating = next_screen(form, LauncherEvent::CreationStarted);
    assert_eq!(creating, LauncherScreen::CreatingWorld);
    let inside = next_screen(creating, LauncherEvent::EnterWorld);
    assert_eq!(inside, LauncherScreen::InWorld);
    assert_eq!(next_screen(inside, LauncherEvent::LeaveWorld), LauncherScreen::Worlds);
    assert_eq!(next_screen(worlds, LauncherEvent::Back), home);
    assert_eq!(next_screen(home, LauncherEvent::LeaveWorld), home);
    assert_eq!(listed_worlds(9, 4), (4, 5));
    assert_eq!(listed_worlds(3, 4), (3, 0));
}

#[test]
fn stages_follow_the_progress() {
    let stage = |amount: f32| CreationStage::at(double(amount as f64));
    assert_eq!(stage(0.02), CreationStage::Preparing);
    assert_eq!(stage(0.16), CreationStage::Searching);
    assert_eq!(stage(0.4999), CreationStage::Searching);
    assert_eq!(stage(0.5), CreationStage::Terrain);
    assert_eq!(stage(0.92), CreationStage::Tidying);
    assert_eq!(stage(0.96).label(), "整理出生区域");
}

#[test]
fn views_are_asked_for_when_needed() {
    let mut view = MeshView::entered();
    assert!(view.needs_request((0, 0)));
    view.asked((0, 0));
    assert!(!view.needs_request((31, -31)));
    assert!(view.needs_request((32, 0)));
    view.arrived((0, 0));
    assert!(!view.needs_request((0, 31)));
    assert!(view.needs_request((0, -32)));
    view.block_changed();
    assert!(view.needs_request((0, 0)));
    view.asked((0, 0));
    view.world_changed();
    assert!(!view.needs_request((0, 0)));
    view.leave();
    assert!(!view.needs_request((0, 0)));
    assert!(view.needs_request((i64::MAX, i64::MIN)));
}

#[test]
fn slots_are_worked_with_clicks_and_drags() {
    let mut inventory = Inventory::new();
    inventory.slots[0] = Some(ItemStack::new(Block::Dirt, 9));
    let mut cursor = Cursor { stack: None, source: None };
    apply_gesture(&mut inventory, &mut cursor, 0, Gesture::Secondary);
    assert_eq!(cursor, Cursor { stack: Some(ItemStack::new(Block::Dirt, 5)), source: Some(0) });
    apply_gesture(&mut inventory, &mut cursor, 1, Gesture::Secondary);
    assert_eq!(inventory.slots[1], Some(ItemStack::new(Block::Dirt, 1)));
    assert_eq!(cursor, Cursor { stack: Some(ItemStack::new(Block::Dirt, 4)), source: None });
    apply_gesture(&mut inventory, &mut cursor, 0, Gesture::Release);
    assert_eq!(inventory.slots[0], Some(ItemStack::new(Block::Dirt, 8)));
    assert_eq!(cursor.stack, None);
    apply_gesture(&mut inventory, &mut cursor, 0, Gesture::Release);
    apply_gesture(&mut inventory, &mut cursor, 0, Gesture::Nothing);
    assert_eq!(inventory.slots[0], Some(ItemStack::new(Block::Dirt, 8)));
    apply_gesture(&mut inventory, &mut cursor, 0, Gesture::DragStart);
    assert_eq!(cursor.stack, Some(ItemStack::new(Block::Dirt, 8)));
    apply_gesture(&mut inventory, &mut cursor, 0, Gesture::Primary);
    assert_eq!(inventory.slots[0], Some(ItemStack::new(Block::Dirt, 8)));
    apply_gesture(&mut inventory, &mut cursor, 0, Gesture::Primary);
    return_cursor(&mut inventory, &mut cursor);
    assert_eq!(inventory.slots[1], Some(ItemStack::new(Block::Dirt, 9)));
    assert_eq!(cursor, Cursor { stack: None, source: None });
}

fn flat_world() -> GeneratedVoxelWorld {
    let mut world = GeneratedVoxelWorld::new(7);
    for (x, z) in world.missing_heights(-8, 8, -8, 8) {
        world.supply_height(x, z, double(75.0));
    }
    world
}

fn hit(block: (i64, i64, i64), place: (i64, i64, i64)) -> BlockHit {
    BlockHit { block, place }
}

#[test]
fn mined_blocks_are_taken_in_survival() {
    let mut world = flat_world();
    let mut inventory = Inventory::new();
    inventory.slots[HOTBAR_START] = None;
    let target = hit((0, 75, 0), (0, 76, 0));
    assert!(mine_block(&mut world, &mut inventory, GameMode::Survival, target));
    assert_eq!(world.block_at(0, 75, 0), Block::Air);
    assert_eq!(inventory.slots[0], Some(ItemStack::new(Block::GrassBlock, 1)));
    assert!(!mine_block(&mut world, &mut inventory, GameMode::Survival, target));
    let bottom = hit((0, 0, 0), (0, 1, 0));
    assert!(!mine_block(&mut world, &mut inventory, GameMode::Survival, bottom));
    assert!(mine_block(&mut world, &mut inventory, GameMode::Creative, bottom));
    assert_eq!(inventory.slots[1], None);
    assert!(!can_mine(Block::Water, GameMode::Creative));
}

#[test]
fn mining_and_placing_are_edits() {
    let mut world = flat_world();
    world.set_block(1, 75, 0, Block::Water);
    let mut inventory = Inventory::new();
    let target = hit((0, 75, 0), (0, 76, 0));
    assert!(place_block(&mut world, &mut inventory, GameMode::Creative, target, false));
    let mut edits = world.edits();
    edits.sort_by_key(|(x, y, z, _)| (*x, *z, *y));
    assert_eq!(edits, vec![(0, 76, 0, Block::GrassBlock), (1, 75, 0, Block::Water)]);
    assert!(mine_block(&mut world, &mut inventory, GameMode::Creative, target));
    let mut edits = world.edits();
    edits.sort_by_key(|(x, y, z, _)| (*x, *z, *y));
    assert_eq!(
        edits,
        vec![
            (0, 75, 0, Block::Water),
            (0, 76, 0, Block::GrassBlock),
            (1, 75, 0, Block::Water),
        ]
    );
    let missed = hit((0, 120, 0), (0, 76, 0));
    assert!(!mine_block(&mut world, &mut inventory, GameMode::Creative, missed));
    assert!(!place_block(&mut world, &mut inventory, GameMode::Creative, missed, false));
    assert_eq!(world.edits().len(), 3);
}

#[test]
fn placed_blocks_are_used_up_in_survival() {
    let mut world = flat_world();
    let mut inventory = Inventory::new();
    let target = hit((0, 75, 0), (0, 76, 0));
    assert!(!place_block(&mut world, &mut inventory, GameMode::Survival, target, true));
    assert!(place_block(&mut world, &mut inventory, GameMode::Survival, target, false));
    assert_eq!(world.block_at(0, 76, 0), Block::GrassBlock);
    assert_eq!(inventory.selected_stack().unwrap().count, 63);
    assert!(!place_block(&mut world, &mut inventory, GameMode::Survival, target, false));
    let above = hit((0, 127, 0), (0, 128, 0));
    assert!(!place_block(&mut world, &mut inventory, GameMode::Creative, above, false));
    let beside = hit((0, 76, 0), (1, 76, 0));
    assert!(place_block(&mut world, &mut inventory, GameMode::Creative, beside, false));
    assert_eq!(inventory.selected_stack().unwrap().count, 63);
    inventory.select(0);
    assert!(!place_block(&mut world, &mut inventory, GameMode::Creative, hit((2, 75, 2), (2, 76, 2)), false));
}

#[test]
fn searches_ignore_case_and_margins() {
    assert_eq!(jei_matches("").len(), 25);
    let ores = jei_matches("  _ORE ");
    assert!(ores.contains(&Block::CoalOre) && ores.contains(&Block::DeepslateRedstoneOre));
    assert!(!ores.contains(&Block::Stone));
    assert_eq!(jei_matches("草方块"), vec![Block::GrassBlock]);
    assert!(jei_matches("no such thing").is_empty());
    assert!(matches_query("", "a", "b"));
    assert!(matches_query("b", "a", "abc"));
    assert!(!matches_query("bc", "b", "c"));
}

#[test]
fn items_are_shown_in_pages() {
    assert_eq!(page_count(0, 10), 1);
    assert_eq!(page_count(10, 10), 1);
    assert_eq!(page_count(11, 10), 2);
    assert_eq!(page_items(25, 10, 2), (2, 20, 25));
    assert_eq!(page_items(25, 10, 9), (2, 20, 25));
    assert_eq!(page_items(25, 10, 1), (1, 10, 20));
    assert_eq!(page_items(0, 10, 3), (0, 0, 0));
    assert_eq!(shown_face(3), Face::Side);
    assert_eq!(shown_face(4), Face::Top);
    assert_eq!(shown_face(5), Face::Bottom);
}

#[test]
fn recipe_details_show_the_first_recipes() {
    let planks = recipe_detail(Block::OakPlanks);
    assert_eq!(planks.made_by.unwrap().output, Block::OakPlanks);
    let sand = recipe_detail(Block::Sand);
    assert!(sand.made_by.is_none());
    assert_eq!(sand.used_in.len(), 2);
}

#[test]
fn forms_want_a_name_and_a_number() {
    assert_eq!(submit_form("   ", "1"), FormOutcome::NoName);
    assert_eq!(
        submit_form(" 新世界 ", "  "),
        FormOutcome::FreshSeed { name: "新世界".to_string() }
    );
    assert_eq!(
        submit_form("w", " 18446744073709551615 "),
        FormOutcome::GivenSeed { name: "w".to_string(), seed: u64::MAX }
    );
    assert_eq!(submit_form("w", "-1"), FormOutcome::BadSeed);
    assert_eq!(
        form_outcome("w".to_string(), "12a".to_string()),
        FormOutcome::BadSeed
    );
    assert_eq!(form_message(&FormOutcome::NoName), Some("世界名称不能为空"));
    assert_eq!(form_message(&FormOutcome::BadSeed), Some("世界种子必须是非负整数"));
    assert_eq!(form_message(&FormOutcome::FreshSeed { name: String::new() }), None);
}

#[test]
fn numbers_and_parts_are_recognised() {
    for text in ["0", "+7", "007", "18446744073709551615", "18446744073709551616", "", "+", "1 ", "++1", "٣"] {
        assert_eq!(parse_number(text), text.parse::<u64>().ok(), "{text}");
    }
    for (text, part) in [("abc", ""), ("abc", "bc"), ("abc", "cb"), ("", "a"), ("aab", "ab"), ("石头", "头")] {
        assert_eq!(has_part(text, part), text.contains(part));
    }
}

#[test]
fn seeds_and_backdrops_are_scattered() {
    assert_eq!(seed_from_time(0), 0xe220_a839_7b1d_cdaf);
    assert_eq!(scatter(0), 0);
    assert_eq!(scatter(1), 0xb456_bcfc_34c2_cb2c >> 11);
    assert!(scatter(12345) < 1 << 53);
}

#[test]
fn process_texts_are_read() {
    let status = "Name:\tmc\nVmHWM:\t  2048 kB\nVmRSS:\t  1024 kB\nThreads:\t12\n";
    assert_eq!(
        read_status(status),
        ProcessStatus { resident: 1024, peak: 2048, threads: 12 }
    );
    assert_eq!(
        read_status("VmRSS: many\nVmRSS:\nThreads: 99999999999"),
        ProcessStatus { resident: 0, peak: 0, threads: 0 }
    );
    let stat = "42 (a ) b) S 1 2 3 4 5 6 7 8 9 10 111 222 0 0";
    assert_eq!(read_ticks(stat), Some((111, 222)));
    assert_eq!(read_ticks("42 (a) S 1 2"), None);
    assert_eq!(read_ticks("no brackets"), None);
    assert_eq!(
        read_status("VmRSS:\u{a0}7\u{3000}kB\nThreads:\u{2003}3"),
        ProcessStatus { resident: 7, peak: 0, threads: 3 }
    );
}

#[test]
fn gestures_keep_every_item() {
    let mut inventory = Inventory::new();
    let mut cursor = Cursor { stack: None, source: None };
    let total = |inventory: &Inventory, cursor: &Cursor| -> Vec<u32> {
        mc::world::block::ALL
            .iter()
            .map(|block| {
                inventory
                    .slots
                    .iter()
                    .chain([&cursor.stack])
                    .flatten()
                    .filter(|stack| stack.block == *block)
                    .map(|stack| stack.count as u32)
                    .sum()
            })
            .collect()
    };
    let before = total(&inventory, &cursor);
    let steps = [
        (27, Gesture::Secondary),
        (0, Gesture::Secondary),
        (28, Gesture::Primary),
        (1, Gesture::Release),
        (28, Gesture::DragStart),
        (27, Gesture::Release),
        (0, Gesture::Secondary),
    ];
    for (index, gesture) in steps {
        apply_gesture(&mut inventory, &mut cursor, index, gesture);
        assert_eq!(total(&inventory, &cursor), before);
    }
    return_cursor(&mut inventory, &mut cursor);
    assert_eq!(cursor.stack, None);
    assert_eq!(total(&inventory, &cursor), before);
}
