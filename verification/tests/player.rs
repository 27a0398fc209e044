//! The player: inventory, modes, collisions and aim.

use mc::double::Double;
use mc::player::aim::{raycast_block, set_voxel_axis, voxel_axis, BlockHit, RayPath};
use mc::player::inventory::{Inventory, ItemStack, HOTBAR_SIZE, INVENTORY_SIZE, STACK_MAX};
use mc::player::mode::GameMode;
use mc::player::physics::{
    collides, first_stop, footing, head_intersects_fluid, intersects_fluid, lift, Axis, BlockBox,
    Footing, Lift, LiftInput, Matter, StepResult,
};
use mc::world::block::Block;
use mc::world::voxel::VoxelWorld;
use std::collections::HashSet;

#[test]
fn starts_with_a_populated_hotbar() {
    let inventory = Inventory::new();
    assert_eq!(inventory.selected, INVENTORY_SIZE - HOTBAR_SIZE);
    assert_eq!(
        inventory.slots[INVENTORY_SIZE - HOTBAR_SIZE],
        Some(ItemStack::new(Block::GrassBlock, 64))
    );
    assert!(inventory.slots[INVENTORY_SIZE - HOTBAR_SIZE..]
        .iter()
        .all(Option::is_some));
}

#[test]
fn selecting_outside_inventory_is_ignored() {
    let mut inventory = Inventory::new();
    inventory.select(INVENTORY_SIZE);
    assert_eq!(inventory.selected, INVENTORY_SIZE - HOTBAR_SIZE);
}

#[test]
fn toggle_and_close_work() {
    let mut inventory = Inventory::new();
    inventory.toggle();
    assert!(inventory.open);
    inventory.close();
    assert!(!inventory.open);
}

#[test]
fn selected_stack_can_be_consumed_and_mined_block_returned() {
    let mut inventory = Inventory::new();
    assert_eq!(inventory.take_selected(), Some(Block::GrassBlock));
    assert_eq!(inventory.selected_stack().unwrap().count, 63);
    inventory.give(Block::GrassBlock);
    assert_eq!(inventory.selected_stack().unwrap().count, 64);
}

#[test]
fn stacks_can_be_picked_up_merged_and_swapped() {
    let mut inventory = Inventory::new();
    inventory.slots[0] = Some(ItemStack::new(Block::Stone, 16));
    inventory.slots[1] = Some(ItemStack::new(Block::Stone, 60));
    let mut cursor = inventory.take_stack(0);
    inventory.put_stack(1, &mut cursor);
    assert_eq!(inventory.slots[0], None);
    assert_eq!(inventory.slots[1], Some(ItemStack::new(Block::Stone, 64)));
    assert_eq!(cursor, Some(ItemStack::new(Block::Stone, 12)));

    inventory.slots[2] = Some(ItemStack::new(Block::Dirt, 4));
    inventory.put_stack(2, &mut cursor);
    assert_eq!(inventory.slots[2], Some(ItemStack::new(Block::Stone, 12)));
    assert_eq!(cursor, Some(ItemStack::new(Block::Dirt, 4)));
}

#[test]
fn half_and_one_item_operations_match_vanilla_gestures() {
    let mut inventory = Inventory::new();
    inventory.slots[0] = Some(ItemStack::new(Block::Dirt, 7));
    let mut cursor = inventory.take_half(0);
    assert_eq!(cursor, Some(ItemStack::new(Block::Dirt, 4)));
    assert_eq!(inventory.slots[0], Some(ItemStack::new(Block::Dirt, 3)));
    inventory.put_one(1, &mut cursor);
    assert_eq!(inventory.slots[1], Some(ItemStack::new(Block::Dirt, 1)));
    assert_eq!(cursor, Some(ItemStack::new(Block::Dirt, 3)));
}

#[test]
fn refill_hotbar_restores_creative_mode_blocks() {
    let mut inventory = Inventory::new();
    inventory.slots[INVENTORY_SIZE - HOTBAR_SIZE] = None;
    inventory.refill_hotbar();

    assert_eq!(
        inventory.slots[INVENTORY_SIZE - HOTBAR_SIZE],
        Some(ItemStack::new(Block::GrassBlock, 64))
    );
    assert!(inventory.slots[INVENTORY_SIZE - HOTBAR_SIZE..]
        .iter()
        .all(|stack| stack.is_some_and(|stack| stack.count == 64)));
}

#[test]
fn returned_stacks_fill_up_others_first() {
    let mut inventory = Inventory::new();
    inventory.slots[3] = Some(ItemStack::new(Block::Glass, 60));
    let rest = inventory.return_stack(Some(ItemStack::new(Block::Glass, 10)));
    assert_eq!(rest, None);
    assert_eq!(inventory.slots[3], Some(ItemStack::new(Block::Glass, STACK_MAX)));
    assert_eq!(inventory.slots[0], Some(ItemStack::new(Block::Glass, 6)));
}

#[test]
fn full_inventories_hand_stacks_back() {
    let mut inventory = Inventory::new();
    for slot in inventory.slots.iter_mut() {
        *slot = Some(ItemStack::new(Block::Stone, STACK_MAX));
    }
    let stack = Some(ItemStack::new(Block::Dirt, 5));
    assert_eq!(inventory.return_stack(stack), stack);
    let before = inventory.clone();
    inventory.give(Block::Dirt);
    assert_eq!(inventory, before);
}

#[test]
fn putting_keeps_the_number_of_items() {
    let mut inventory = Inventory::new();
    inventory.slots[0] = Some(ItemStack::new(Block::Stone, 50));
    let mut cursor = Some(ItemStack::new(Block::Stone, 40));
    inventory.put_stack(0, &mut cursor);
    let total = inventory.slots[0].unwrap().count + cursor.unwrap().count;
    assert_eq!(total, 90);
}

#[test]
fn toggles_between_survival_and_creative() {
    assert_eq!(GameMode::Survival.toggle(), GameMode::Creative);
    assert_eq!(GameMode::Creative.toggle(), GameMode::Survival);
}

#[test]
fn save_ids_are_stable() {
    assert_eq!(GameMode::Survival.as_u8(), 0);
    assert_eq!(GameMode::Creative.as_u8(), 1);
}

#[test]
fn modes_are_read_back_and_named() {
    for mode in [GameMode::Survival, GameMode::Creative] {
        assert_eq!(GameMode::from_u8(mode.as_u8()), Some(mode));
        assert_eq!(mode.toggle().toggle(), mode);
    }
    assert_eq!(GameMode::from_u8(2), None);
    assert_eq!(GameMode::default(), GameMode::Survival);
    assert_eq!(GameMode::Creative.display(), "创造模式");
    assert!(GameMode::Creative.is_creative());
}

#[derive(Default)]
struct RayWorld {
    blocks: HashSet<(i64, i64, i64)>,
    fluids: HashSet<(i64, i64, i64)>,
}

impl VoxelWorld for RayWorld {
    fn cell(&self, _x: i64, _y: i64, _z: i64) -> Block {
        unreachable!()
    }

    fn valid(&self) -> bool {
        unreachable!()
    }

    fn known(&self, _x: i64, _z: i64) -> bool {
        unreachable!()
    }

    fn asked_since(&self, _before: &Self) -> bool {
        unreachable!()
    }

    fn block_at(&mut self, x: i64, y: i64, z: i64) -> Block {
        if self.blocks.contains(&(x, y, z)) {
            Block::Stone
        } else if self.fluids.contains(&(x, y, z)) {
            Block::Water
        } else {
            Block::Air
        }
    }
}

fn crossings(start: f64, direction: f64, reach: f64) -> (i64, Vec<Double>) {
    if direction == 0.0 {
        return (0, Vec::new());
    }
    let cell = start.floor();
    let mut t = if direction > 0.0 {
        (cell + 1.0 - start) / direction
    } else {
        (start - cell) / -direction
    };
    let delta = (1.0 / direction).abs();
    let mut list = Vec::new();
    while t <= reach {
        list.push(Double { bits: t.to_bits() });
        t += delta;
    }
    list.push(Double { bits: t.to_bits() });
    (if direction > 0.0 { 1 } else { -1 }, list)
}

fn cast(
    world: &mut RayWorld,
    origin: (f64, f64, f64),
    direction: (f64, f64, f64),
    reach: f64,
) -> Option<BlockHit> {
    let (step_x, crossings_x) = crossings(origin.0, direction.0, reach);
    let (step_y, crossings_y) = crossings(origin.1, direction.1, reach);
    let (step_z, crossings_z) = crossings(origin.2, direction.2, reach);
    let path = RayPath {
        start: (
            origin.0.floor() as i64,
            origin.1.floor() as i64,
            origin.2.floor() as i64,
        ),
        step_x,
        step_y,
        step_z,
        crossings_x,
        crossings_y,
        crossings_z,
    };
    raycast_block(world, &path, Double { bits: reach.to_bits() })
}

#[test]
fn raycast_returns_hit_block_and_adjacent_placement_cell() {
    let mut world = RayWorld {
        blocks: HashSet::from([(3, 1, 0)]),
        ..Default::default()
    };
    let hit = cast(&mut world, (0.5, 1.5, 0.5), (1.0, 0.0, 0.0), 8.0);
    assert_eq!(
        hit,
        Some(BlockHit {
            block: (3, 1, 0),
            place: (2, 1, 0),
        })
    );
}

#[test]
fn raycast_respects_reach() {
    let mut world = RayWorld {
        blocks: HashSet::from([(3, 1, 0)]),
        ..Default::default()
    };
    assert!(cast(&mut world, (0.5, 1.5, 0.5), (1.0, 0.0, 0.0), 2.49).is_none());
    assert!(cast(&mut world, (0.5, 1.5, 0.5), (1.0, 0.0, 0.0), 2.5).is_some());
}

#[test]
fn raycast_passes_through_water_and_places_against_submerged_block() {
    let mut world = RayWorld {
        blocks: HashSet::from([(3, 1, 0)]),
        fluids: HashSet::from([(1, 1, 0), (2, 1, 0)]),
    };
    let hit = cast(&mut world, (0.5, 1.5, 0.5), (1.0, 0.0, 0.0), 8.0);
    assert_eq!(
        hit,
        Some(BlockHit {
            block: (3, 1, 0),
            place: (2, 1, 0),
        })
    );
}

#[test]
fn rays_turn_corners_one_axis_at_a_time() {
    let mut world = RayWorld {
        blocks: HashSet::from([(-2, 2, 0)]),
        ..Default::default()
    };
    let hit = cast(&mut world, (0.5, 0.25, 0.5), (-0.8, 0.6, 0.0), 8.0).unwrap();
    assert_eq!(hit.block, (-2, 2, 0));
    let apart = (hit.block.0 - hit.place.0).abs()
        + (hit.block.1 - hit.place.1).abs()
        + (hit.block.2 - hit.place.2).abs();
    assert_eq!(apart, 1);
}

#[test]
fn rays_that_start_in_a_block_hit_nothing() {
    let mut world = RayWorld {
        blocks: HashSet::from([(0, 1, 0), (3, 1, 0)]),
        ..Default::default()
    };
    assert!(cast(&mut world, (0.5, 1.5, 0.5), (1.0, 0.0, 0.0), 8.0).is_none());
}

#[test]
fn axes_of_cells_can_be_read_and_set() {
    let mut cell = (4, 5, 6);
    assert_eq!(voxel_axis(cell, 0), 4);
    assert_eq!(voxel_axis(cell, 1), 5);
    assert_eq!(voxel_axis(cell, 2), 6);
    set_voxel_axis(&mut cell, 1, -7);
    assert_eq!(cell, (4, -7, 6));
}

fn body() -> BlockBox {
    BlockBox {
        min_x: -1,
        max_x: 2,
        min_y: 1,
        max_y: 2,
        min_z: 0,
        max_z: 0,
    }
}

#[test]
fn bodies_stop_at_the_nearest_solid_block() {
    let mut world = RayWorld {
        blocks: HashSet::from([(1, 2, 0), (2, 1, 0), (5, 1, 0)]),
        ..Default::default()
    };
    assert!(collides(&mut world, body()));
    assert_eq!(first_stop(&mut world, body(), Matter::Solid, Axis::X, true), Some(1));
    assert_eq!(first_stop(&mut world, body(), Matter::Solid, Axis::X, false), Some(2));
    assert_eq!(first_stop(&mut world, body(), Matter::Solid, Axis::Y, false), Some(2));
    assert_eq!(first_stop(&mut world, body(), Matter::Fluid, Axis::Y, false), None);
}

#[test]
fn empty_boxes_meet_nothing() {
    let mut world = RayWorld {
        blocks: HashSet::from([(0, 1, 0)]),
        ..Default::default()
    };
    let mut empty = body();
    empty.max_z = -1;
    assert!(!collides(&mut world, empty));
    let mut flat = body();
    flat.max_x = -2;
    assert!(!collides(&mut world, flat));
}

#[test]
fn heads_and_bodies_feel_water() {
    let mut world = RayWorld {
        fluids: HashSet::from([(0, 1, 0)]),
        ..Default::default()
    };
    assert!(intersects_fluid(&mut world, body()));
    assert!(!head_intersects_fluid(&mut world, body(), 2));
    assert!(head_intersects_fluid(&mut world, body(), 1));
    assert!(!collides(&mut world, body()));
}

#[test]
fn steps_land_and_hit_ceilings() {
    assert_eq!(StepResult::default(), StepResult::of(false, false, false, true, false));
    let landed = StepResult::of(false, true, false, true, false);
    assert!(landed.landed && !landed.hit_ceiling && landed.collided_y);
    let bumped = StepResult::of(true, true, true, false, true);
    assert!(!bumped.landed && bumped.hit_ceiling && bumped.collided_x && bumped.collided_z);
}

#[test]
fn bodies_swim_sink_jump_and_fall() {
    let idle = LiftInput { jump: false, swim_up: false, swim_down: false };
    let up = LiftInput { jump: false, swim_up: true, swim_down: false };
    let down = LiftInput { jump: false, swim_up: false, swim_down: true };
    let jump = LiftInput { jump: true, swim_up: false, swim_down: false };
    assert_eq!(lift(true, true, false, idle), Lift::Swim(0));
    assert_eq!(lift(true, true, false, up), Lift::Swim(1));
    assert_eq!(lift(true, true, false, down), Lift::Swim(-1));
    assert_eq!(lift(true, false, false, idle), Lift::Sink);
    assert_eq!(lift(true, false, false, jump), Lift::Swim(1));
    assert_eq!(lift(false, false, true, jump), Lift::Fall { jump: true });
    assert_eq!(lift(false, false, false, jump), Lift::Fall { jump: false });
    assert_eq!(footing(true, true), Footing::Water);
    assert_eq!(footing(false, true), Footing::Ground);
    assert_eq!(footing(false, false), Footing::Air);
}
