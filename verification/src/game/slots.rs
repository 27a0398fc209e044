//! What clicks and drags do to the slots of the inventory.

use crate::player::inventory::{
    amount, first_empty, first_with_room, lemma_first_empty, lemma_poured_keeps, lemma_tally_update,
    one_less, one_more, placing_keeps_items, poured, pouring_fills_slots, put,
    putting_keeps_items, putting_one_keeps_items, returning_keeps_items, takes_one, tally,
    the_first_slot_is_first, within_stacks, Inventory, ItemStack, Slots, INVENTORY_SIZE,
};
use crate::world::block::Block;
use vstd::prelude::*;

verus! {

/// What the pointer does on a slot.
#[derive(Clone, Copy, Debug, PartialEq, Eq, Structural)]
pub enum Gesture {
    /// A drag begins.
    DragStart,
    /// A click with the main button.
    Primary,
    /// A click with the other button.
    Secondary,
    /// The main button is let go after a drag.
    Release,
    Nothing,
}

/// The stack that the pointer carries, and the slot from which it was taken.
#[derive(Clone, Copy, Debug, PartialEq, Eq)]
pub struct Cursor {
    pub stack: Option<ItemStack>,
    pub source: Option<usize>,
}

/// The larger half of a stack.
pub open spec fn larger_half(stack: ItemStack) -> ItemStack {
    ItemStack { block: stack.block, count: ((stack.count + 1) / 2) as u16 }
}

/// What stays of a stack without its larger half.
pub open spec fn smaller_half(stack: ItemStack) -> Option<ItemStack> {
    let left = stack.count - (stack.count + 1) / 2;
    if left == 0 {
        None
    } else {
        Some(ItemStack { block: stack.block, count: left as u16 })
    }
}

/// Slots and cursor after a whole stack is picked up.
pub open spec fn picked_up(slots: Slots, index: usize) -> (Slots, Cursor) {
    (
        slots.update(index as int, None),
        Cursor { stack: slots[index as int], source: Some(index) },
    )
}

/// Slots and cursor after half a stack is picked up.
pub open spec fn half_picked_up(slots: Slots, index: usize) -> (Slots, Cursor) {
    match slots[index as int] {
        None => (slots, Cursor { stack: None, source: Some(index) }),
        Some(held) => (
            slots.update(index as int, smaller_half(held)),
            Cursor { stack: Some(larger_half(held)), source: Some(index) },
        ),
    }
}

/// Slots and cursor after the stack on the cursor is put down.
pub open spec fn put_down(slots: Slots, index: usize, stack: ItemStack) -> (Slots, Cursor) {
    let after = put(slots[index as int], stack);
    (slots.update(index as int, after.0), Cursor { stack: after.1, source: None })
}

/// Slots and cursor after one item of the stack on the cursor is put down.
pub open spec fn one_put_down(slots: Slots, index: usize, stack: ItemStack) -> (Slots, Cursor) {
    let slot = slots[index as int];
    if takes_one(slot, stack.block) {
        (
            slots.update(index as int, one_more(slot, stack.block)),
            Cursor { stack: one_less(stack), source: None },
        )
    } else {
        (slots, Cursor { stack: Some(stack), source: None })
    }
}

/// Slots and cursor after a gesture on a slot. With an empty cursor a drag or click
/// picks up, all or half; with a full one a click or the end of a drag puts down, all
/// or one.
pub open spec fn after_gesture(
    slots: Slots,
    cursor: Cursor,
    index: usize,
    gesture: Gesture,
) -> (Slots, Cursor) {
    match (gesture, cursor.stack) {
        (Gesture::DragStart, None) | (Gesture::Primary, None) => picked_up(slots, index),
        (Gesture::Secondary, None) => half_picked_up(slots, index),
        (Gesture::Primary, Some(stack)) | (Gesture::Release, Some(stack)) => put_down(
            slots,
            index,
            stack,
        ),
        (Gesture::Secondary, Some(stack)) => one_put_down(slots, index, stack),
        _ => (slots, cursor),
    }
}

/// Carries out a gesture on a slot.
pub fn apply_gesture(
    inventory: &mut Inventory,
    cursor: &mut Cursor,
    index: usize,
    gesture: Gesture,
)
    requires
        index < INVENTORY_SIZE,
        old(cursor).stack is Some ==> (old(cursor).stack->0).count > 0,
    ensures
        (final(inventory).held(), *final(cursor)) == after_gesture(
            old(inventory).held(),
            *old(cursor),
            index,
            gesture,
        ),
        final(inventory).same_but_slots(old(inventory)),
{
    let full = cursor.stack.is_some();
    match gesture {
        Gesture::DragStart => {
            if !full {
                cursor.stack = inventory.take_stack(index);
                cursor.source = Some(index);
            }
        },
        Gesture::Primary => {
            if !full {
                cursor.stack = inventory.take_stack(index);
                cursor.source = Some(index);
            } else {
                put_all(inventory, cursor, index);
            }
        },
        Gesture::Secondary => {
            if !full {
                cursor.stack = inventory.take_half(index);
                cursor.source = Some(index);
            } else {
                let mut stack = cursor.stack;
                inventory.put_one(index, &mut stack);
                cursor.stack = stack;
                cursor.source = None;
            }
        },
        Gesture::Release => {
            if full {
                put_all(inventory, cursor, index);
            }
        },
        Gesture::Nothing => {},
    }
}

fn put_all(inventory: &mut Inventory, cursor: &mut Cursor, index: usize)
    requires
        index < INVENTORY_SIZE,
        old(cursor).stack is Some,
    ensures
        (final(inventory).held(), *final(cursor)) == put_down(
            old(inventory).held(),
            index,
            old(cursor).stack->0,
        ),
        final(inventory).same_but_slots(old(inventory)),
{
    let mut stack = cursor.stack;
    inventory.put_stack(index, &mut stack);
    cursor.stack = stack;
    cursor.source = None;
}

/// Puts what the cursor carries back into the inventory.
pub fn return_cursor(inventory: &mut Inventory, cursor: &mut Cursor)
    ensures
        final(cursor).source is None,
        old(cursor).stack is None ==> final(cursor).stack is None && final(inventory).held()
            == old(inventory).held(),
        old(cursor).stack is Some ==> returned(
            old(inventory).held(),
            old(cursor).stack->0,
            final(inventory).held(),
            final(cursor).stack,
        ),
        final(inventory).same_but_slots(old(inventory)),
{
    if cursor.stack.is_some() {
        cursor.stack = inventory.return_stack(cursor.stack);
    }
    cursor.source = None;
}

/// Whether slots have taken a stack back, as far as they have room, and what is left
/// of it is left.
pub open spec fn returned(
    slots: Slots,
    stack: ItemStack,
    after: Slots,
    rest: Option<ItemStack>,
) -> bool {
    let (filled, left) = poured(slots, stack, INVENTORY_SIZE as int);
    let matched = first_with_room(slots, stack.block, 0) < INVENTORY_SIZE;
    let empty = first_empty(filled, 0);
    let remainder = Some(ItemStack { block: stack.block, count: left });
    if left == 0 && matched {
        rest is None && after == filled
    } else if empty < INVENTORY_SIZE {
        rest is None && after == filled.update(empty, remainder)
    } else {
        rest == remainder && after == filled
    }
}

/// No gesture makes or loses an item: what the slots and the cursor hold of a kind stays
/// the same together. Nor does one leave an empty stack on the cursor.
pub proof fn gestures_keep_items(
    slots: Slots,
    cursor: Cursor,
    index: usize,
    gesture: Gesture,
    block: Block,
)
    requires
        index < slots.len(),
        cursor.stack is Some ==> (cursor.stack->0).count > 0,
    ensures
        ({
            let after = after_gesture(slots, cursor, index, gesture);
            tally(after.0, block) + amount(after.1.stack, block) == tally(slots, block) + amount(
                cursor.stack,
                block,
            )
        }),
        ({
            let left = after_gesture(slots, cursor, index, gesture).1.stack;
            left is Some && !(slots[index as int] is Some && (slots[index as int]->0).count == 0)
                ==> (left->0).count > 0
        }),
{
    let i = index as int;
    match (gesture, cursor.stack) {
        (Gesture::DragStart, None) | (Gesture::Primary, None) => {
            lemma_tally_update(slots, i, None, block);
        },
        (Gesture::Secondary, None) => {
            if slots[i] is Some {
                lemma_tally_update(slots, i, smaller_half(slots[i]->0), block);
            }
        },
        (Gesture::Primary, Some(stack)) | (Gesture::Release, Some(stack)) => {
            putting_keeps_items(slots, i, stack, block);
        },
        (Gesture::Secondary, Some(stack)) => {
            if takes_one(slots[i], stack.block) {
                putting_one_keeps_items(slots, i, stack, block);
            }
        },
        _ => {},
    }
}

/// Returning a stack to the slots makes and loses no item.
pub proof fn returns_keep_items(
    slots: Slots,
    stack: ItemStack,
    after: Slots,
    rest: Option<ItemStack>,
    block: Block,
)
    requires
        slots.len() == INVENTORY_SIZE,
        returned(slots, stack, after, rest),
    ensures
        tally(after, block) + amount(rest, block) == tally(slots, block) + amount(
            Some(stack),
            block,
        ),
{
    returning_keeps_items(slots, stack, INVENTORY_SIZE as int, block);
    let (filled, left) = poured(slots, stack, INVENTORY_SIZE as int);
    let empty = first_empty(filled, 0);
    lemma_poured_keeps(slots, stack, INVENTORY_SIZE as int);
    lemma_first_empty(filled, 0);
    if empty < INVENTORY_SIZE {
        let remainder = ItemStack { block: stack.block, count: left };
        placing_keeps_items(filled, empty, remainder, block);
    }
}

/// A stack that is picked up and put down again on the same slot is as it was.
pub proof fn picking_up_is_undone(slots: Slots, index: usize)
    requires
        index < slots.len(),
        slots[index as int] is Some,
    ensures
        ({
            let up = after_gesture(
                slots,
                Cursor { stack: None, source: None },
                index,
                Gesture::Primary,
            );
            let down = after_gesture(up.0, up.1, index, Gesture::Primary);
            down == (slots, Cursor { stack: None, source: None })
        }),
{
    let up = picked_up(slots, index);
    assert(put_down(up.0, index, slots[index as int]->0).0 =~= slots);
}

/// A stack is split evenly: the two halves make up the whole, the larger is at most one
/// more, and nothing is left of a single item.
pub proof fn halves_make_the_whole(stack: ItemStack)
    requires
        stack.count > 0,
    ensures
        larger_half(stack).block == stack.block,
        ({
            let large = larger_half(stack).count as int;
            let small = match smaller_half(stack) {
                Some(rest) => rest.count as int,
                None => 0,
            };
            &&& large + small == stack.count
            &&& small <= large <= small + 1
        }),
        smaller_half(stack) is Some ==> (smaller_half(stack)->0).block == stack.block && (
        smaller_half(stack)->0).count > 0,
{
}

/// What gestures do to the slot they are made on: an empty hand takes the whole stack with
/// the main button or a drag, and the larger half with the other one; a full hand puts its
/// stack down with the main button or where a drag ends, and one item with the other one.
/// No other slot changes.
pub proof fn gestures_work_on_their_slot(
    slots: Slots,
    cursor: Cursor,
    index: usize,
    gesture: Gesture,
    k: int,
)
    requires
        index < slots.len(),
        0 <= k < slots.len(),
    ensures
        ({
            let (after, hand) = after_gesture(slots, cursor, index, gesture);
            let slot = slots[index as int];
            let now = after[index as int];
            &&& after.len() == slots.len()
            &&& k != index ==> after[k] == slots[k]
            &&& cursor.stack is None && (gesture == Gesture::Primary || gesture
                == Gesture::DragStart) ==> now is None && hand.stack == slot && hand.source
                == Some(index)
            &&& cursor.stack is None && gesture == Gesture::Secondary && slot is Some && (
            slot->0).count > 0 ==> hand.stack == Some(larger_half(slot->0)) && now == smaller_half(
                slot->0,
            ) && hand.source == Some(index)
            &&& cursor.stack is None && gesture == Gesture::Release ==> (after, hand) == (
                slots,
                cursor,
            )
            &&& cursor.stack is Some && (gesture == Gesture::Primary || gesture
                == Gesture::Release) ==> (now, hand.stack) == put(slot, cursor.stack->0)
                && hand.source is None
            &&& cursor.stack is Some && gesture == Gesture::Secondary && takes_one(
                slot,
                (cursor.stack->0).block,
            ) ==> now == one_more(slot, (cursor.stack->0).block) && hand.stack == one_less(
                cursor.stack->0,
            )
            &&& cursor.stack is Some && gesture == Gesture::Secondary && !takes_one(
                slot,
                (cursor.stack->0).block,
            ) ==> after == slots && hand.stack == cursor.stack
            &&& cursor.stack is Some && gesture == Gesture::DragStart ==> (after, hand) == (
                slots,
                cursor,
            )
            &&& gesture == Gesture::Nothing ==> (after, hand) == (slots, cursor)
        }),
{
}

/// A stack that is given back finds its place: something is left over only if no slot is
/// empty and every stack of its kind is full.
pub proof fn returned_stacks_find_a_place(
    slots: Slots,
    stack: ItemStack,
    after: Slots,
    rest: Option<ItemStack>,
    k: int,
)
    requires
        slots.len() == INVENTORY_SIZE,
        within_stacks(slots),
        returned(slots, stack, after, rest),
        rest is Some,
        (rest->0).count > 0,
        0 <= k < slots.len(),
    ensures
        slots[k] is Some,
        (slots[k]->0).block == stack.block ==> after[k] is Some && (after[k]->0).block
            == stack.block && (after[k]->0).count == 64,
        (slots[k]->0).block != stack.block ==> after[k] == slots[k],
        (rest->0).block == stack.block,
{
    let filled = poured(slots, stack, INVENTORY_SIZE as int).0;
    pouring_fills_slots(slots, stack, INVENTORY_SIZE as int, k);
    lemma_poured_keeps(slots, stack, INVENTORY_SIZE as int);
    the_first_slot_is_first(filled, stack.block, k);
}

} // verus!
