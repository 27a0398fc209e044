//! Mining and placing blocks.

use crate::player::aim::BlockHit;
use crate::player::inventory::{
    first_empty, first_with_room, has_room, lemma_first_empty, lemma_tally_update, one_less,
    one_more, tally, the_first_slot_is_first, within_stacks, Inventory, ItemStack, Slots,
    INVENTORY_SIZE, STACK_MAX,
};
use crate::player::mode::GameMode;
use crate::world::block::Block;
use crate::world::column::{Y_MAX, Y_MIN};
use crate::world::generator::inside;
use crate::world::gravity::{lemma_asks_alike, lemma_edit_keeps, lemma_edited};
use crate::world::voxel::{layer, GeneratedVoxelWorld};
use vstd::prelude::*;

verus! {

/// Whether a block can be mined. What has no hardness only gives way to creators.
pub open spec fn is_mineable(block: Block, mode: GameMode) -> bool {
    &&& block != Block::Air
    &&& block != Block::Water
    &&& mode == GameMode::Creative || block.spec_def().hardness is Some
}

/// Whether a block can be mined.
pub fn can_mine(block: Block, mode: GameMode) -> (r: bool)
    ensures
        r == is_mineable(block, mode),
{
    block != Block::Air && !block.is_fluid() && (mode.is_creative()
        || block.def().hardness.is_some())
}

/// Slots with one more block: on the first stack with room, else in the first empty
/// slot, else nowhere.
pub open spec fn given(slots: Slots, block: Block) -> Slots {
    let room = first_with_room(slots, block, 0);
    let empty = first_empty(slots, 0);
    if room < INVENTORY_SIZE {
        slots.update(room, one_more(slots[room], block))
    } else if empty < INVENTORY_SIZE {
        slots.update(empty, Some(ItemStack { block, count: 1 }))
    } else {
        slots
    }
}

/// Whether a position is far enough from the limits of coordinates.
pub open spec fn in_bounds(p: (i64, i64, i64)) -> bool {
    &&& inside(p.0 - 1)
    &&& inside(p.0 + 1)
    &&& inside(p.2 - 1)
    &&& inside(p.2 + 1)
    &&& i64::MIN < p.1 < i64::MAX
}

/// Mines the block that is aimed at, if it can be mined: it is gone, or water from
/// beside it flows in, and in survival the player gets it. Says whether it was mined.
pub fn mine_block(
    world: &mut GeneratedVoxelWorld,
    inventory: &mut Inventory,
    mode: GameMode,
    target: BlockHit,
) -> (r: bool)
    requires
        old(world).wf(),
        old(world).knows_cross(target.block.0, target.block.2),
        in_bounds(target.block),
    ensures
        final(world).wf(),
        final(world).spec_seed() == old(world).spec_seed(),
        final(world).ground() == old(world).ground(),
        final(world).keeps_more(old(world)),
        ({
            let (x, y, z) = target.block;
            let block = old(world).content(x, y as int, z);
            &&& r == is_mineable(block, mode)
            &&& forall|a: i64, c: i64|
                #![trigger final(world).cached(a, c)]
                final(world).cached(a, c) == (old(world).cached(a, c) || (a == x && c == z
                    && layer(y as int) && old(world).edit(x, y as int, z) is None) || (r && old(
                    world).asks_beside(x, y as int, z, 6, a, c)))
            &&& forall|a: i64, b: int, c: i64| #[trigger]
                final(world).edit(a, b, c) == if r && a == x && b == y && c == z {
                    Some(
                        if old(world).by_water(x, y as int, z) {
                            Block::Water
                        } else {
                            Block::Air
                        },
                    )
                } else {
                    old(world).edit(a, b, c)
                }
            &&& forall|a: i64, b: int, c: i64| #[trigger]
                final(world).content(a, b, c) == if r && a == x && b == y && c == z {
                    if old(world).by_water(x, y as int, z) {
                        Block::Water
                    } else {
                        Block::Air
                    }
                } else {
                    old(world).content(a, b, c)
                }
            &&& final(inventory).held() == if r && mode == GameMode::Survival {
                given(old(inventory).held(), block)
            } else {
                old(inventory).held()
            }
            &&& r ==> final(world).content(x, y as int, z) == Block::Air || final(world).content(
                x,
                y as int,
                z,
            ) == Block::Water
            &&& !r ==> final(world).content(x, y as int, z) == block
            &&& mode == GameMode::Creative ==> final(inventory).held() == old(inventory).held()
        }),
        final(inventory).same_but_slots(old(inventory)),
{
    let (x, y, z) = target.block;
    let block = world.look(x, y, z);
    let ghost looked = *world;
    proof {
        looked.lemma_knows_more(old(world));
        looked.lemma_same_content(old(world));
    }
    if !can_mine(block, mode) {
        return false;
    }
    assert(layer(y as int));
    world.remove_block_with_fluid_update(x, y, z);
    proof {
        GeneratedVoxelWorld::lemma_keeps_more_yet(old(world), &looked, world);
        assert forall|a: i64, c: i64|
            #![trigger world.cached(a, c)]
            looked.asks_beside(x, y as int, z, 6, a, c) == old(world).asks_beside(
                x,
                y as int,
                z,
                6,
                a,
                c,
            ) by {
            lemma_asks_alike(old(world), &looked, x, y as int, z, a, c);
        }
        assert forall|a: i64, c: i64|
            #![trigger world.cached(a, c)]
            world.cached(a, c) == (old(world).cached(a, c) || (a == x && c == z && layer(y as int)
                && old(world).edit(x, y as int, z) is None) || old(world).asks_beside(
                x,
                y as int,
                z,
                6,
                a,
                c,
            )) by {
            assert(looked.cached(a, c) || !looked.cached(a, c));
        }
        assert forall|a: i64, b: int, c: i64| #[trigger] world.edit(a, b, c) == if a == x && b
            == y && c == z {
            Some(
                if old(world).by_water(x, y as int, z) {
                    Block::Water
                } else {
                    Block::Air
                },
            )
        } else {
            old(world).edit(a, b, c)
        } by {
            assert(looked.edit(a, b, c) == old(world).edit(a, b, c));
        }
    }
    if !mode.is_creative() {
        inventory.give(block);
    }
    true
}

/// Whether a block can be put where another one is.
pub open spec fn gives_way(block: Block) -> bool {
    block == Block::Air || block == Block::Water
}

/// Puts the selected block in front of the face that is aimed at, if there is room and
/// the player is not in the way. In survival it is used up. Says whether it was put.
pub fn place_block(
    world: &mut GeneratedVoxelWorld,
    inventory: &mut Inventory,
    mode: GameMode,
    target: BlockHit,
    player_in_the_way: bool,
) -> (r: bool)
    requires
        old(world).wf(),
        old(inventory).wf(),
        old(world).knows(target.place.0, target.place.2),
        inside(target.place.0 as int),
        inside(target.place.2 as int),
    ensures
        final(world).wf(),
        final(world).spec_seed() == old(world).spec_seed(),
        final(world).ground() == old(world).ground(),
        final(world).keeps_more(old(world)),
        ({
            let (x, y, z) = target.place;
            let slot = old(inventory).held()[old(inventory).selected as int];
            &&& r == (slot is Some && layer(y as int) && gives_way(
                old(world).content(x, y as int, z),
            ) && !player_in_the_way)
            &&& forall|a: i64, c: i64|
                #![trigger final(world).cached(a, c)]
                final(world).cached(a, c) == (old(world).cached(a, c) || (a == x && c == z
                    && slot is Some && layer(y as int) && old(world).edit(
                    x,
                    y as int,
                    z,
                ) is None))
            &&& forall|a: i64, b: int, c: i64| #[trigger]
                final(world).edit(a, b, c) == if r && a == x && b == y && c == z {
                    Some((slot->0).block)
                } else {
                    old(world).edit(a, b, c)
                }
            &&& forall|a: i64, b: int, c: i64| #[trigger]
                final(world).content(a, b, c) == if r && a == x && b == y && c == z {
                    (slot->0).block
                } else {
                    old(world).content(a, b, c)
                }
            &&& final(inventory).held() == if r && mode == GameMode::Survival && (slot->0).count
                > 0 {
                old(inventory).held().update(
                    old(inventory).selected as int,
                    one_less(slot->0),
                )
            } else {
                old(inventory).held()
            }
            &&& player_in_the_way || slot is None || y < 0 || y > 127 ==> !r
            &&& !player_in_the_way && slot is Some && 0 <= y <= 127 && (old(world).content(
                x,
                y as int,
                z,
            ) == Block::Air || old(world).content(x, y as int, z) == Block::Water) ==> r
            &&& r ==> final(world).content(x, y as int, z) == (slot->0).block
            &&& mode == GameMode::Creative ==> final(inventory).held() == old(inventory).held()
        }),
        final(inventory).same_but_slots(old(inventory)),
{
    let (x, y, z) = target.place;
    proof {
        world.lemma_keeps_itself();
    }
    let block = match inventory.selected_stack() {
        Some(stack) => stack.block,
        None => {
            return false;
        },
    };
    if y < Y_MIN || y > Y_MAX {
        return false;
    }
    let there = world.look(x, y, z);
    let ghost looked = *world;
    proof {
        looked.lemma_same_content(old(world));
    }
    if player_in_the_way || !(there == Block::Air || there.is_fluid()) {
        return false;
    }
    world.set_block_raw(x, y, z, block);
    proof {
        lemma_edit_keeps(&looked, world, x, y as int, z, block);
        GeneratedVoxelWorld::lemma_keeps_more_yet(old(world), &looked, world);
        assert forall|a: i64, b: int, c: i64| #[trigger] world.edit(a, b, c) == if a == x && b
            == y && c == z {
            Some(block)
        } else {
            old(world).edit(a, b, c)
        } by {
            assert(looked.edit(a, b, c) == old(world).edit(a, b, c));
        }
        assert forall|a: i64, c: i64| #[trigger] world.cached(a, c) == (old(world).cached(a, c)
            || (a == x && c == z && old(world).edit(x, y as int, z) is None)) by {
            assert(looked.cached(a, c) || !looked.cached(a, c));
        }
        assert forall|a: i64, b: int, c: i64| #[trigger] world.content(a, b, c) == if a == x && b
            == y && c == z {
            block
        } else {
            old(world).content(a, b, c)
        } by {
            lemma_edited(&looked, world, x, y as int, z, block, a, b, c);
        }
    }
    if !mode.is_creative() {
        inventory.take_selected();
    }
    true
}

/// A mined block is one item more, as long as some slot takes it, and no stack grows
/// past its limit; a placed block is one item less.
pub proof fn mining_gives_and_placing_takes_one(
    slots: Slots,
    mined: Block,
    selected: int,
    block: Block,
)
    requires
        slots.len() == INVENTORY_SIZE,
        0 <= selected < slots.len(),
        slots[selected] is Some && (slots[selected]->0).count > 0,
    ensures
        first_with_room(slots, mined, 0) < INVENTORY_SIZE || first_empty(slots, 0)
            < INVENTORY_SIZE ==> tally(given(slots, mined), block) == tally(slots, block) + (
        mined == block) as int,
        within_stacks(slots) ==> within_stacks(given(slots, mined)),
        tally(slots.update(selected, one_less(slots[selected]->0)), block) == tally(slots, block)
            - ((slots[selected]->0).block == block) as int,
{
    lemma_first_with_room_has_room(slots, mined, 0);
    lemma_first_empty(slots, 0);
    let room = first_with_room(slots, mined, 0);
    let empty = first_empty(slots, 0);
    if room < INVENTORY_SIZE {
        lemma_tally_update(slots, room, one_more(slots[room], mined), block);
    } else if empty < INVENTORY_SIZE {
        lemma_tally_update(slots, empty, Some(ItemStack { block: mined, count: 1 }), block);
    }
    lemma_tally_update(slots, selected, one_less(slots[selected]->0), block);
    let after = given(slots, mined);
    if within_stacks(slots) {
        assert forall|k: int| 0 <= k < after.len() && #[trigger] after[k] is Some implies (
        after[k]->0).count <= STACK_MAX by {
            assert(slots[k] is Some ==> (slots[k]->0).count <= STACK_MAX);
        }
    }
}

proof fn lemma_first_with_room_has_room(slots: Slots, block: Block, from: int)
    requires
        0 <= from <= slots.len(),
    ensures
        from <= first_with_room(slots, block, from) <= slots.len(),
        first_with_room(slots, block, from) < slots.len() ==> has_room(
            slots[first_with_room(slots, block, from)],
            block,
        ),
    decreases slots.len() - from,
{
    if from < slots.len() && !has_room(slots[from], block) {
        lemma_first_with_room_has_room(slots, block, from + 1);
    }
}

/// A block that was mined goes onto the first stack of its kind that is not full, else into
/// the first empty slot; it is lost only where there is neither. No other slot changes.
pub proof fn mined_blocks_find_a_slot(slots: Slots, block: Block, k: int)
    requires
        slots.len() == INVENTORY_SIZE,
        0 <= k < slots.len(),
    ensures
        ({
            let after = given(slots, block);
            let fits = |i: int|
                slots[i] is Some && (slots[i]->0).block == block && (slots[i]->0).count < 64;
            let first_fit = fits(k) && forall|i: int| 0 <= i < k ==> !(#[trigger] fits(i));
            let none_fits = forall|i: int| 0 <= i < slots.len() ==> !(#[trigger] fits(i));
            let first_free = slots[k] is None && forall|i: int|
                0 <= i < k ==> (#[trigger] slots[i]) is Some;
            &&& after.len() == slots.len()
            &&& first_fit ==> after[k] == Some(
                ItemStack { block, count: ((slots[k]->0).count + 1) as u16 },
            )
            &&& none_fits && first_free ==> after[k] == Some(ItemStack { block, count: 1 })
            &&& !first_fit && !(none_fits && first_free) ==> after[k] == slots[k]
        }),
{
    let fits = |i: int|
        slots[i] is Some && (slots[i]->0).block == block && (slots[i]->0).count < 64;
    let room = first_with_room(slots, block, 0);
    let empty = first_empty(slots, 0);
    the_first_slot_is_first(slots, block, k);
    if room < slots.len() {
        the_first_slot_is_first(slots, block, room);
        assert(fits(room));
        if k > room {
            assert(fits(room));
        }
        assert forall|i: int| 0 <= i < room implies !(#[trigger] fits(i)) by {
            the_first_slot_is_first(slots, block, i);
        }
    } else {
        assert forall|i: int| 0 <= i < slots.len() implies !(#[trigger] fits(i)) by {
            the_first_slot_is_first(slots, block, i);
        }
        if empty < slots.len() {
            assert forall|i: int| 0 <= i < empty implies (#[trigger] slots[i]) is Some by {
                the_first_slot_is_first(slots, block, i);
            }
            assert(slots[empty] is None);
        }
    }
}

/// Blocks are put where there is nothing to stand in the way: into air and water, which
/// gives way to them.
pub proof fn air_and_water_give_way(block: Block)
    ensures
        gives_way(block) <==> block == Block::Air || block == Block::Water,
        gives_way(block) <==> !block.spec_solid(),
{
}

/// In survival everything can be mined but air, water and bedrock, and creators can mine
/// bedrock too.
pub proof fn all_but_bedrock_can_be_mined(block: Block)
    ensures
        is_mineable(block, GameMode::Survival) <==> block != Block::Air && block != Block::Water
            && block != Block::Bedrock,
        is_mineable(block, GameMode::Creative) <==> block != Block::Air && block != Block::Water,
{
}

/// Bedrock and water stay where they are in survival; creators can take anything but
/// fluids away.
pub proof fn some_blocks_stay(block: Block)
    ensures
        !is_mineable(Block::Water, GameMode::Survival),
        !is_mineable(Block::Water, GameMode::Creative),
        !is_mineable(Block::Bedrock, GameMode::Survival),
        block != Block::Air && block != Block::Water ==> is_mineable(block, GameMode::Creative),
        is_mineable(block, GameMode::Survival) ==> is_mineable(block, GameMode::Creative),
{
}

} // verus!
