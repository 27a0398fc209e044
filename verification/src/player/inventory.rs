//! The inventory: 36 slots, the last nine of which are the hotbar.
//!
//! A slot holds up to 64 blocks of one kind. Moving stacks between slots and the
//! cursor neither makes nor loses items.

use crate::world::block::Block;
use vstd::prelude::*;

verus! {

/// The number of hotbar slots.
pub const HOTBAR_SIZE: usize = 9;

/// The number of slots.
pub const INVENTORY_SIZE: usize = 36;

/// The index of the first hotbar slot.
pub const HOTBAR_START: usize = 27;

/// The size of a full stack.
pub const STACK_MAX: u16 = 64;

/// Blocks of one kind.
#[derive(Clone, Copy, Debug, PartialEq, Eq, Structural)]
pub struct ItemStack {
    pub block: Block,
    pub count: u16,
}

impl ItemStack {
    /// A stack.
    pub fn new(block: Block, count: u16) -> (r: ItemStack)
        ensures
            r == (ItemStack { block, count }),
    {
        ItemStack { block, count }
    }
}

/// The slots, the selected one, and whether the inventory is shown.
#[derive(Debug, PartialEq, Eq)]
pub struct Inventory {
    pub slots: [Option<ItemStack>; INVENTORY_SIZE],
    pub selected: usize,
    pub open: bool,
}

impl Clone for Inventory {
    fn clone(&self) -> (r: Self)
        ensures
            r == *self,
    {
        Inventory { slots: self.slots, selected: self.selected, open: self.open }
    }
}

/// What slots hold.
pub type Slots = Seq<Option<ItemStack>>;

/// The block that a fresh hotbar has at a place.
pub open spec fn hotbar_block(i: int) -> Block {
    if i == 0 {
        Block::GrassBlock
    } else if i == 1 {
        Block::Dirt
    } else if i == 2 {
        Block::Stone
    } else if i == 3 {
        Block::Cobblestone
    } else if i == 4 {
        Block::Sand
    } else if i == 5 {
        Block::OakLog
    } else if i == 6 {
        Block::OakPlanks
    } else if i == 7 {
        Block::Bookshelf
    } else {
        Block::RedstoneOre
    }
}

/// Slots with a fresh hotbar.
pub open spec fn with_hotbar(slots: Slots) -> Slots {
    Seq::new(
        slots.len(),
        |i: int|
            if i >= HOTBAR_START {
                Some(ItemStack { block: hotbar_block(i - HOTBAR_START), count: STACK_MAX })
            } else {
                slots[i]
            },
    )
}

/// Whether a slot holds blocks of a kind and has room for more.
pub open spec fn has_room(slot: Option<ItemStack>, block: Block) -> bool {
    slot is Some && (slot->0).block == block && (slot->0).count < STACK_MAX
}

/// The first slot from `i` on that has room for a kind; the number of slots if none
/// has.
pub open spec fn first_with_room(slots: Slots, block: Block, i: int) -> int
    decreases slots.len() - i,
{
    if i >= slots.len() || has_room(slots[i], block) {
        i
    } else {
        first_with_room(slots, block, i + 1)
    }
}

/// The first empty slot from `i` on; the number of slots if there is none.
pub open spec fn first_empty(slots: Slots, i: int) -> int
    decreases slots.len() - i,
{
    if i >= slots.len() || slots[i] is None {
        i
    } else {
        first_empty(slots, i + 1)
    }
}

/// What goes from a stack of `count` into a slot that holds `held`.
pub open spec fn moved_into(held: u16, count: u16) -> u16 {
    if held >= STACK_MAX {
        0
    } else if count <= STACK_MAX - held {
        count
    } else {
        (STACK_MAX - held) as u16
    }
}

/// A slot after a stack is put on it, and what stays on the cursor: kinds that match
/// are merged up to a full stack, others are swapped.
pub open spec fn put(
    slot: Option<ItemStack>,
    incoming: ItemStack,
) -> (Option<ItemStack>, Option<ItemStack>) {
    match slot {
        None => (Some(incoming), None),
        Some(held) => {
            if held.block == incoming.block {
                let moved = moved_into(held.count, incoming.count);
                (
                    Some(ItemStack { block: held.block, count: (held.count + moved) as u16 }),
                    if moved < incoming.count {
                        Some(
                            ItemStack {
                                block: incoming.block,
                                count: (incoming.count - moved) as u16,
                            },
                        )
                    } else {
                        None
                    },
                )
            } else {
                (Some(incoming), slot)
            }
        },
    }
}

/// Whether one item of a kind goes into a slot.
pub open spec fn takes_one(slot: Option<ItemStack>, block: Block) -> bool {
    slot is None || has_room(slot, block)
}

/// A slot with one more item of a kind.
pub open spec fn one_more(slot: Option<ItemStack>, block: Block) -> Option<ItemStack> {
    match slot {
        None => Some(ItemStack { block, count: 1 }),
        Some(held) => Some(ItemStack { block: held.block, count: (held.count + 1) as u16 }),
    }
}

/// A cursor with one item less.
pub open spec fn one_less(stack: ItemStack) -> Option<ItemStack> {
    if stack.count == 1 {
        None
    } else {
        Some(ItemStack { block: stack.block, count: (stack.count - 1) as u16 })
    }
}

/// The slots after the first `n` have taken what they have room for, and what is
/// left of the stack.
pub open spec fn poured(slots: Slots, stack: ItemStack, n: int) -> (Slots, u16)
    decreases n,
{
    if n <= 0 {
        (slots, stack.count)
    } else {
        let (before, left) = poured(slots, stack, n - 1);
        if has_room(slots[n - 1], stack.block) {
            let held = (slots[n - 1]->0).count;
            let moved = moved_into(held, left);
            (
                before.update(
                    n - 1,
                    Some(ItemStack { block: stack.block, count: (held + moved) as u16 }),
                ),
                (left - moved) as u16,
            )
        } else {
            (before, left)
        }
    }
}

impl Inventory {
    /// What the slots hold.
    pub open spec fn held(&self) -> Slots {
        self.slots@
    }

    /// Whether the selected slot exists.
    pub open spec fn wf(&self) -> bool {
        self.selected < INVENTORY_SIZE
    }

    /// Whether only the slots differ from another inventory.
    pub open spec fn same_but_slots(&self, other: &Inventory) -> bool {
        self.selected == other.selected && self.open == other.open
    }

    /// An inventory with a fresh hotbar and nothing else.
    pub fn new() -> (r: Inventory)
        ensures
            r.held() == with_hotbar(
                Seq::new(INVENTORY_SIZE as nat, |i: int| Option::<ItemStack>::None),
            ),
            r.selected == HOTBAR_START,
            !r.open,
            r.wf(),
    {
        let mut r = Inventory {
            slots: [None; INVENTORY_SIZE],
            selected: HOTBAR_START,
            open: false,
        };
        r.refill_hotbar();
        r
    }

    /// Shows or hides the inventory.
    pub fn toggle(&mut self)
        ensures
            final(self).open == !old(self).open,
            final(self).held() == old(self).held(),
            final(self).selected == old(self).selected,
    {
        self.open = !self.open;
    }

    /// Hides the inventory.
    pub fn close(&mut self)
        ensures
            !final(self).open,
            final(self).held() == old(self).held(),
            final(self).selected == old(self).selected,
    {
        self.open = false;
    }

    /// Selects a slot; a slot that does not exist is ignored.
    pub fn select(&mut self, slot: usize)
        ensures
            final(self).selected == (if slot < INVENTORY_SIZE {
                slot
            } else {
                old(self).selected
            }),
            final(self).held() == old(self).held(),
            final(self).open == old(self).open,
    {
        if slot < INVENTORY_SIZE {
            self.selected = slot;
        }
    }

    /// What the selected slot holds.
    pub fn selected_stack(&self) -> (r: Option<ItemStack>)
        requires
            self.wf(),
        ensures
            r == self.held()[self.selected as int],
    {
        self.slots[self.selected]
    }

    /// Picks a whole stack up.
    pub fn take_stack(&mut self, index: usize) -> (r: Option<ItemStack>)
        ensures
            final(self).same_but_slots(old(self)),
            index < INVENTORY_SIZE ==> r == old(self).held()[index as int] && final(self).held()
                == old(self).held().update(index as int, None),
            index >= INVENTORY_SIZE ==> r is None && final(self).held() == old(self).held(),
    {
        if index >= INVENTORY_SIZE {
            return None;
        }
        let stack = self.slots[index];
        self.slots[index] = None;
        stack
    }

    /// Picks half of a stack up, the larger half where it does not divide.
    pub fn take_half(&mut self, index: usize) -> (r: Option<ItemStack>)
        ensures
            final(self).same_but_slots(old(self)),
            index >= INVENTORY_SIZE || old(self).held()[index as int] is None ==> r is None
                && final(self).held() == old(self).held(),
            index < INVENTORY_SIZE && old(self).held()[index as int] is Some ==> ({
                let held = old(self).held()[index as int]->0;
                let half = (held.count + 1) / 2;
                &&& r == Some(ItemStack { block: held.block, count: half as u16 })
                &&& final(self).held() == old(self).held().update(
                    index as int,
                    if held.count == half {
                        None
                    } else {
                        Some(ItemStack { block: held.block, count: (held.count - half) as u16 })
                    },
                )
            }),
    {
        if index >= INVENTORY_SIZE {
            return None;
        }
        match self.slots[index] {
            None => None,
            Some(held) => {
                let half: u16 = held.count / 2 + held.count % 2;
                self.slots[index] = if held.count == half {
                    None
                } else {
                    Some(ItemStack::new(held.block, held.count - half))
                };
                Some(ItemStack::new(held.block, half))
            },
        }
    }

    /// Puts the stack on the cursor on a slot.
    pub fn put_stack(&mut self, index: usize, cursor: &mut Option<ItemStack>)
        ensures
            final(self).same_but_slots(old(self)),
            index >= INVENTORY_SIZE || *old(cursor) is None ==> final(self).held() == old(
                self,
            ).held() && *final(cursor) == *old(cursor),
            index < INVENTORY_SIZE && *old(cursor) is Some ==> ({
                let after = put(old(self).held()[index as int], old(cursor)->0);
                final(self).held() == old(self).held().update(index as int, after.0)
                    && *final(cursor) == after.1
            }),
    {
        let incoming = match *cursor {
            None => {
                return;
            },
            Some(incoming) => incoming,
        };
        if index >= INVENTORY_SIZE {
            return;
        }
        match self.slots[index] {
            Some(held) => {
                if held.block == incoming.block {
                    let room: u16 = STACK_MAX.saturating_sub(held.count);
                    let moved: u16 = if incoming.count < room {
                        incoming.count
                    } else {
                        room
                    };
                    self.slots[index] = Some(ItemStack::new(held.block, held.count + moved));
                    *cursor = if moved < incoming.count {
                        Some(ItemStack::new(incoming.block, incoming.count - moved))
                    } else {
                        None
                    };
                } else {
                    self.slots[index] = Some(incoming);
                    *cursor = Some(held);
                }
            },
            None => {
                self.slots[index] = Some(incoming);
                *cursor = None;
            },
        }
    }

    /// Puts one item of the stack on the cursor on a slot.
    pub fn put_one(&mut self, index: usize, cursor: &mut Option<ItemStack>)
        requires
            index < INVENTORY_SIZE && *old(cursor) is Some && takes_one(
                old(self).held()[index as int],
                (old(cursor)->0).block,
            ) ==> (old(cursor)->0).count > 0,
        ensures
            final(self).same_but_slots(old(self)),
            index >= INVENTORY_SIZE || *old(cursor) is None ==> final(self).held() == old(
                self,
            ).held() && *final(cursor) == *old(cursor),
            index < INVENTORY_SIZE && *old(cursor) is Some ==> ({
                let slot = old(self).held()[index as int];
                let stack = old(cursor)->0;
                if takes_one(slot, stack.block) {
                    final(self).held() == old(self).held().update(
                        index as int,
                        one_more(slot, stack.block),
                    ) && *final(cursor) == one_less(stack)
                } else {
                    final(self).held() == old(self).held() && *final(cursor) == (if stack.count
                        == 0 {
                        None
                    } else {
                        *old(cursor)
                    })
                }
            }),
    {
        let mut incoming = match *cursor {
            None => {
                return;
            },
            Some(incoming) => incoming,
        };
        if index >= INVENTORY_SIZE {
            return;
        }
        match self.slots[index] {
            Some(held) => {
                if held.block == incoming.block && held.count < STACK_MAX {
                    self.slots[index] = Some(ItemStack::new(held.block, held.count + 1));
                    incoming.count = incoming.count - 1;
                }
            },
            None => {
                self.slots[index] = Some(ItemStack::new(incoming.block, 1));
                incoming.count = incoming.count - 1;
            },
        }
        if incoming.count == 0 {
            *cursor = None;
        } else {
            *cursor = Some(incoming);
        }
    }

    /// Puts a stack back: first onto stacks of its kind, then into the first empty
    /// slot. What finds no place is handed back.
    pub fn return_stack(&mut self, stack: Option<ItemStack>) -> (r: Option<ItemStack>)
        ensures
            final(self).same_but_slots(old(self)),
            stack is None ==> r is None && final(self).held() == old(self).held(),
            stack is Some ==> ({
                let slots = old(self).held();
                let block = (stack->0).block;
                let (after, left) = poured(slots, stack->0, INVENTORY_SIZE as int);
                let matched = first_with_room(slots, block, 0) < INVENTORY_SIZE;
                let empty = first_empty(after, 0);
                let rest = Some(ItemStack { block, count: left });
                if left == 0 && matched {
                    r is None && final(self).held() == after
                } else if empty < INVENTORY_SIZE {
                    r is None && final(self).held() == after.update(empty, rest)
                } else {
                    r == rest && final(self).held() == after
                }
            }),
    {
        let mut incoming = match stack {
            None => {
                return None;
            },
            Some(incoming) => incoming,
        };
        let ghost given = incoming;
        let ghost slots = self.held();
        let mut i: usize = 0;
        proof {
            lemma_room_is_later(slots, given.block, 0);
        }
        while i < INVENTORY_SIZE
            invariant
                i <= INVENTORY_SIZE,
                slots.len() == INVENTORY_SIZE,
                stack == Some(given),
                slots == old(self).held(),
                self.same_but_slots(old(self)),
                incoming.block == given.block,
                self.held().len() == INVENTORY_SIZE,
                (self.held(), incoming.count) == poured(slots, given, i as int),
                forall|k: int| i <= k < INVENTORY_SIZE ==> #[trigger] self.held()[k] == slots[k],
                first_with_room(slots, given.block, 0) >= i || incoming.count > 0,
                first_with_room(slots, given.block, 0) >= i ==> first_with_room(
                    slots,
                    given.block,
                    0,
                ) == first_with_room(slots, given.block, i as int),
            decreases INVENTORY_SIZE - i,
        {
            proof {
                lemma_room_is_later(slots, given.block, i + 1);
            }
            if let Some(held) = self.slots[i] {
                if held.block == incoming.block && held.count < STACK_MAX {
                    let room: u16 = STACK_MAX - held.count;
                    let moved: u16 = if incoming.count < room {
                        incoming.count
                    } else {
                        room
                    };
                    self.slots[i] = Some(ItemStack::new(held.block, held.count + moved));
                    incoming.count = incoming.count - moved;
                    proof {
                        assert(has_room(slots[i as int], given.block));
                        assert((self.held(), incoming.count) == poured(slots, given, i + 1));
                    }
                    if incoming.count == 0 {
                        proof {
                            lemma_poured_out(slots, given, i + 1, INVENTORY_SIZE as int);
                            lemma_first_with_room(slots, given.block, 0, i as int);
                        }
                        return None;
                    }
                }
            }
            i += 1;
        }
        let mut j: usize = 0;
        while j < INVENTORY_SIZE
            invariant
                j <= INVENTORY_SIZE,
                self.held().len() == INVENTORY_SIZE,
                self.same_but_slots(old(self)),
                incoming.block == given.block,
                (self.held(), incoming.count) == poured(slots, given, INVENTORY_SIZE as int),
                first_with_room(slots, given.block, 0) >= INVENTORY_SIZE || incoming.count > 0,
                first_empty(self.held(), 0) == first_empty(self.held(), j as int),
                stack == Some(given),
                slots == old(self).held(),
            decreases INVENTORY_SIZE - j,
        {
            if self.slots[j].is_none() {
                self.slots[j] = Some(incoming);
                return None;
            }
            j += 1;
        }
        Some(incoming)
    }

    /// Uses one item of the selected slot up.
    pub fn take_selected(&mut self) -> (r: Option<Block>)
        requires
            old(self).wf(),
        ensures
            final(self).same_but_slots(old(self)),
            ({
                let slot = old(self).held()[old(self).selected as int];
                if slot is None || (slot->0).count == 0 {
                    r is None && final(self).held() == old(self).held()
                } else {
                    r == Some((slot->0).block) && final(self).held() == old(self).held().update(
                        old(self).selected as int,
                        one_less(slot->0),
                    )
                }
            }),
    {
        match self.slots[self.selected] {
            None => None,
            Some(held) => {
                if held.count == 0 {
                    return None;
                }
                self.slots[self.selected] = if held.count == 1 {
                    None
                } else {
                    Some(ItemStack::new(held.block, held.count - 1))
                };
                Some(held.block)
            },
        }
    }

    /// Adds one item: to the first stack of its kind with room, else to the first
    /// empty slot, else nowhere.
    pub fn give(&mut self, block: Block)
        ensures
            final(self).same_but_slots(old(self)),
            ({
                let slots = old(self).held();
                let room = first_with_room(slots, block, 0);
                let empty = first_empty(slots, 0);
                final(self).held() == (if room < INVENTORY_SIZE {
                    slots.update(room, one_more(slots[room], block))
                } else if empty < INVENTORY_SIZE {
                    slots.update(empty, Some(ItemStack { block, count: 1 }))
                } else {
                    slots
                })
            }),
    {
        let ghost slots = self.held();
        let mut i: usize = 0;
        while i < INVENTORY_SIZE
            invariant
                i <= INVENTORY_SIZE,
                slots.len() == INVENTORY_SIZE,
                self.held() == slots,
                self.same_but_slots(old(self)),
                slots == old(self).held(),
                first_with_room(slots, block, 0) == first_with_room(slots, block, i as int),
            decreases INVENTORY_SIZE - i,
        {
            if let Some(held) = self.slots[i] {
                if held.block == block && held.count < STACK_MAX {
                    self.slots[i] = Some(ItemStack::new(held.block, held.count + 1));
                    return;
                }
            }
            i += 1;
        }
        let mut j: usize = 0;
        while j < INVENTORY_SIZE
            invariant
                j <= INVENTORY_SIZE,
                slots.len() == INVENTORY_SIZE,
                self.held() == slots,
                self.same_but_slots(old(self)),
                slots == old(self).held(),
                first_with_room(slots, block, 0) == INVENTORY_SIZE,
                first_empty(slots, 0) == first_empty(slots, j as int),
            decreases INVENTORY_SIZE - j,
        {
            if self.slots[j].is_none() {
                self.slots[j] = Some(ItemStack::new(block, 1));
                return;
            }
            j += 1;
        }
    }

    /// Fills the hotbar with full stacks of the usual blocks.
    pub fn refill_hotbar(&mut self)
        ensures
            final(self).same_but_slots(old(self)),
            final(self).held() == with_hotbar(old(self).held()),
    {
        let blocks = [
            Block::GrassBlock,
            Block::Dirt,
            Block::Stone,
            Block::Cobblestone,
            Block::Sand,
            Block::OakLog,
            Block::OakPlanks,
            Block::Bookshelf,
            Block::RedstoneOre,
        ];
        let mut i: usize = 0;
        while i < HOTBAR_SIZE
            invariant
                i <= HOTBAR_SIZE,
                self.same_but_slots(old(self)),
                self.held().len() == INVENTORY_SIZE,
                old(self).held().len() == INVENTORY_SIZE,
                forall|k: int| 0 <= k < HOTBAR_SIZE ==> #[trigger] blocks@[k] == hotbar_block(k),
                forall|k: int|
                    0 <= k < HOTBAR_START + i ==> #[trigger] self.held()[k] == with_hotbar(
                        old(self).held(),
                    )[k],
            decreases HOTBAR_SIZE - i,
        {
            self.slots[HOTBAR_START + i] = Some(ItemStack::new(blocks[i], STACK_MAX));
            i += 1;
        }
        assert(self.held() =~= with_hotbar(old(self).held()));
    }
}

impl Default for Inventory {
    fn default() -> (r: Self)
        ensures
            r.held() == with_hotbar(
                Seq::new(INVENTORY_SIZE as nat, |i: int| Option::<ItemStack>::None),
            ),
            r.selected == HOTBAR_START,
            !r.open,
    {
        Inventory::new()
    }
}

proof fn lemma_poured_out(slots: Slots, stack: ItemStack, n: int, m: int)
    requires
        0 <= n <= m <= slots.len(),
        poured(slots, stack, n).1 == 0,
    ensures
        poured(slots, stack, m) == poured(slots, stack, n),
    decreases m,
{
    if n < m {
        lemma_poured_out(slots, stack, n, m - 1);
        lemma_poured_keeps(slots, stack, m - 1);
        let (before, left) = poured(slots, stack, m - 1);
        if has_room(slots[m - 1], stack.block) {
            assert(before.update(m - 1, slots[m - 1]) =~= before);
        }
    }
}

/// Pouring into the first slots leaves the others as they were.
pub proof fn lemma_poured_keeps(slots: Slots, stack: ItemStack, n: int)
    requires
        0 <= n <= slots.len(),
    ensures
        poured(slots, stack, n).0.len() == slots.len(),
        forall|k: int| n <= k < slots.len() ==> #[trigger] poured(slots, stack, n).0[k] == slots[k],
    decreases n,
{
    if n > 0 {
        lemma_poured_keeps(slots, stack, n - 1);
    }
}

proof fn lemma_room_is_later(slots: Slots, block: Block, i: int)
    requires
        0 <= i <= slots.len(),
    ensures
        i <= first_with_room(slots, block, i) <= slots.len(),
    decreases slots.len() - i,
{
    if i < slots.len() && !has_room(slots[i], block) {
        lemma_room_is_later(slots, block, i + 1);
    }
}

proof fn lemma_first_with_room(slots: Slots, block: Block, i: int, k: int)
    requires
        0 <= i <= k < slots.len(),
        has_room(slots[k], block),
    ensures
        first_with_room(slots, block, i) <= k,
    decreases k - i,
{
    if !has_room(slots[i], block) {
        lemma_first_with_room(slots, block, i + 1, k);
    }
}

/// How many items of a kind a slot or the cursor holds.
pub open spec fn amount(slot: Option<ItemStack>, block: Block) -> int {
    if slot is Some && (slot->0).block == block {
        (slot->0).count as int
    } else {
        0
    }
}

/// The first empty slot is empty.
pub proof fn lemma_first_empty(slots: Slots, from: int)
    requires
        0 <= from <= slots.len(),
    ensures
        from <= first_empty(slots, from) <= slots.len(),
        first_empty(slots, from) < slots.len() ==> slots[first_empty(slots, from)] is None,
    decreases slots.len() - from,
{
    if from < slots.len() && slots[from] is Some {
        lemma_first_empty(slots, from + 1);
    }
}

/// How many items of a kind all slots hold.
pub open spec fn tally(slots: Slots, block: Block) -> int
    decreases slots.len(),
{
    if slots.len() == 0 {
        0
    } else {
        tally(slots.drop_last(), block) + amount(slots.last(), block)
    }
}

/// Whether no slot holds more than a full stack.
pub open spec fn within_stacks(slots: Slots) -> bool {
    forall|i: int|
        0 <= i < slots.len() && #[trigger] slots[i] is Some ==> (slots[i]->0).count <= STACK_MAX
}

/// Changing a slot changes what all slots hold by the difference.
pub proof fn lemma_tally_update(slots: Slots, i: int, slot: Option<ItemStack>, block: Block)
    requires
        0 <= i < slots.len(),
    ensures
        tally(slots.update(i, slot), block) == tally(slots, block) - amount(slots[i], block)
            + amount(slot, block),
    decreases slots.len(),
{
    let next = slots.update(i, slot);
    if i == slots.len() - 1 {
        assert(next.drop_last() =~= slots.drop_last());
    } else {
        lemma_tally_update(slots.drop_last(), i, slot, block);
        assert(next.drop_last() =~= slots.drop_last().update(i, slot));
    }
}

/// Putting a stack on a slot keeps the number of items of every kind.
pub proof fn putting_keeps_items(slots: Slots, i: int, stack: ItemStack, block: Block)
    requires
        0 <= i < slots.len(),
    ensures
        tally(slots.update(i, put(slots[i], stack).0), block) + amount(
            put(slots[i], stack).1,
            block,
        ) == tally(slots, block) + amount(Some(stack), block),
{
    lemma_tally_update(slots, i, put(slots[i], stack).0, block);
}

/// Putting one item on a slot that takes it keeps the number of items of every kind.
pub proof fn putting_one_keeps_items(slots: Slots, i: int, stack: ItemStack, block: Block)
    requires
        0 <= i < slots.len(),
        takes_one(slots[i], stack.block),
        stack.count > 0,
    ensures
        tally(slots.update(i, one_more(slots[i], stack.block)), block) + amount(
            one_less(stack),
            block,
        ) == tally(slots, block) + amount(Some(stack), block),
{
    lemma_tally_update(slots, i, one_more(slots[i], stack.block), block);
}

/// Putting a stack back keeps the number of items of its kind, wherever they go.
pub proof fn returning_keeps_items(slots: Slots, stack: ItemStack, n: int, block: Block)
    requires
        0 <= n <= slots.len(),
    ensures
        tally(poured(slots, stack, n).0, block) + amount(
            Some(ItemStack { block: stack.block, count: poured(slots, stack, n).1 }),
            block,
        ) == tally(slots, block) + amount(Some(stack), block),
    decreases n,
{
    if n > 0 {
        returning_keeps_items(slots, stack, n - 1, block);
        lemma_poured_keeps(slots, stack, n - 1);
        let before = poured(slots, stack, n - 1).0;
        if has_room(slots[n - 1], stack.block) {
            lemma_tally_update(before, n - 1, poured(slots, stack, n).0[n - 1], block);
        }
    }
}

/// What finds no room on other stacks goes into an empty slot as it is.
pub proof fn placing_keeps_items(slots: Slots, i: int, stack: ItemStack, block: Block)
    requires
        0 <= i < slots.len(),
        slots[i] is None,
    ensures
        tally(slots.update(i, Some(stack)), block) == tally(slots, block) + amount(
            Some(stack),
            block,
        ),
{
    lemma_tally_update(slots, i, Some(stack), block);
}

/// No operation makes a stack of more than 64 out of stacks of at most 64.
pub proof fn stacks_stay_within_limit(slots: Slots, i: int, stack: ItemStack, n: int)
    requires
        within_stacks(slots),
        stack.count <= STACK_MAX,
        0 <= i < slots.len(),
        0 <= n <= slots.len(),
    ensures
        within_stacks(slots.update(i, put(slots[i], stack).0)),
        put(slots[i], stack).1 is Some ==> (put(slots[i], stack).1->0).count <= STACK_MAX,
        takes_one(slots[i], stack.block) ==> within_stacks(
            slots.update(i, one_more(slots[i], stack.block)),
        ),
        within_stacks(poured(slots, stack, n).0),
        poured(slots, stack, n).1 <= stack.count,
        within_stacks(with_hotbar(slots)),
    decreases n,
{
    if n > 0 {
        stacks_stay_within_limit(slots, i, stack, n - 1);
        lemma_poured_keeps(slots, stack, n - 1);
    }
    let put_slots = slots.update(i, put(slots[i], stack).0);
    assert forall|k: int|
        0 <= k < put_slots.len() && #[trigger] put_slots[k] is Some implies (put_slots[k]->0).count
        <= STACK_MAX by {
        assert(slots[k] is Some ==> (slots[k]->0).count <= STACK_MAX);
    }
    let poured_slots = poured(slots, stack, n).0;
    assert forall|k: int|
        0 <= k < poured_slots.len()
            && #[trigger] poured_slots[k] is Some implies (poured_slots[k]->0).count
        <= STACK_MAX by {
        if n > 0 {
            let before = poured(slots, stack, n - 1).0;
            assert(before[k] is Some ==> (before[k]->0).count <= STACK_MAX);
        }
    }
}

/// A stack that is put on another of its kind fills it up: either nothing is left over, or
/// the stack below holds all that fits. Put on an empty slot it lies there, and put on a
/// stack of another kind it takes its place and that one is handed back.
pub proof fn stacks_fill_up(slot: Option<ItemStack>, incoming: ItemStack)
    requires
        incoming.count <= STACK_MAX,
    ensures
        slot is None ==> put(slot, incoming) == (Some(incoming), None::<ItemStack>),
        slot is Some && (slot->0).block != incoming.block ==> put(slot, incoming) == (
            Some(incoming),
            slot,
        ),
        slot is Some && (slot->0).block == incoming.block && (slot->0).count <= STACK_MAX ==> {
            let (after, rest) = put(slot, incoming);
            &&& after is Some && (after->0).block == incoming.block
            &&& (slot->0).count <= (after->0).count <= STACK_MAX
            &&& rest is None || (after->0).count == STACK_MAX
            &&& rest is Some ==> (rest->0).block == incoming.block && (rest->0).count > 0
            &&& rest is None ==> (after->0).count == (slot->0).count + incoming.count
            &&& rest is Some ==> (after->0).count + (rest->0).count == (slot->0).count
                + incoming.count
        },
{
}

/// One item goes onto a slot that is empty or holds fewer than 64 of its kind, and nowhere
/// else; it is one more there and one less where it came from.
pub proof fn one_item_moves(slot: Option<ItemStack>, stack: ItemStack)
    requires
        stack.count > 0,
    ensures
        takes_one(slot, stack.block) <==> slot is None || (slot->0).block == stack.block && (
        slot->0).count < 64,
        slot is None ==> one_more(slot, stack.block) == Some(
            ItemStack { block: stack.block, count: 1 },
        ),
        slot is Some && takes_one(slot, stack.block) ==> one_more(slot, stack.block) is Some && (
        one_more(slot, stack.block)->0).block == stack.block && (one_more(
            slot,
            stack.block,
        )->0).count == (slot->0).count + 1,
        one_less(stack) is None <==> stack.count == 1,
        one_less(stack) is Some ==> (one_less(stack)->0).block == stack.block && (one_less(
            stack,
        )->0).count == stack.count - 1,
{
}

/// The first slot with room is the first: it holds fewer than 64 of the kind, and none
/// before it does. Likewise the first empty slot.
pub proof fn the_first_slot_is_first(slots: Slots, block: Block, k: int)
    requires
        0 <= k < slots.len(),
    ensures
        ({
            let i = first_with_room(slots, block, 0);
            let fits = |slot: Option<ItemStack>|
                slot is Some && (slot->0).block == block && (slot->0).count < 64;
            &&& 0 <= i <= slots.len()
            &&& i < slots.len() ==> fits(slots[i])
            &&& k < i ==> !fits(slots[k])
        }),
        ({
            let i = first_empty(slots, 0);
            &&& 0 <= i <= slots.len()
            &&& i < slots.len() ==> slots[i] is None
            &&& k < i ==> slots[k] is Some
        }),
{
    lemma_first_of(slots, block, 0, k);
}

proof fn lemma_first_of(slots: Slots, block: Block, from: int, k: int)
    requires
        0 <= from <= slots.len(),
        0 <= k < slots.len(),
    ensures
        ({
            let i = first_with_room(slots, block, from);
            &&& from <= i <= slots.len()
            &&& i < slots.len() ==> has_room(slots[i], block)
            &&& from <= k < i ==> !has_room(slots[k], block)
        }),
        ({
            let i = first_empty(slots, from);
            &&& from <= i <= slots.len()
            &&& i < slots.len() ==> slots[i] is None
            &&& from <= k < i ==> slots[k] is Some
        }),
    decreases slots.len() - from,
{
    if from < slots.len() {
        lemma_first_of(slots, block, from + 1, k);
    }
}

/// A stack that is poured over the slots fills those of its kind in turn: as long as any is
/// left, every slot of its kind that has been reached is full, and no slot of another kind
/// changes.
pub proof fn pouring_fills_slots(slots: Slots, stack: ItemStack, n: int, k: int)
    requires
        0 <= k < n <= slots.len(),
        within_stacks(slots),
    ensures
        ({
            let (after, left) = poured(slots, stack, n);
            &&& after.len() == slots.len()
            &&& slots[k] is Some && (slots[k]->0).block == stack.block ==> {
                &&& after[k] is Some && (after[k]->0).block == stack.block
                &&& left > 0 ==> (after[k]->0).count == STACK_MAX
                &&& (slots[k]->0).count <= (after[k]->0).count <= STACK_MAX
            }
            &&& !(slots[k] is Some && (slots[k]->0).block == stack.block) ==> after[k] == slots[k]
        }),
    decreases n,
{
    lemma_poured_keeps(slots, stack, n);
    lemma_poured_keeps(slots, stack, n - 1);
    if k < n - 1 {
        pouring_fills_slots(slots, stack, n - 1, k);
    }
}

/// The hotbar that creators get holds nine different blocks, a full stack of each, and all
/// other slots stay as they are.
pub proof fn hotbars_are_full(slots: Slots, i: int, j: int)
    requires
        slots.len() == INVENTORY_SIZE,
        0 <= i < INVENTORY_SIZE,
        0 <= j < INVENTORY_SIZE,
    ensures
        ({
            let after = with_hotbar(slots);
            let bar = |k: int| k >= INVENTORY_SIZE - 9;
            &&& after.len() == INVENTORY_SIZE
            &&& !bar(i) ==> after[i] == slots[i]
            &&& bar(i) ==> after[i] is Some && (after[i]->0).count == 64 && (after[i]->0).block
                != Block::Air && (after[i]->0).block != Block::Water && (after[i]->0).block
                != Block::Bedrock
            &&& bar(i) && bar(j) && i != j ==> (after[i]->0).block != (after[j]->0).block
            &&& bar(i) ==> {
                let block = (after[i]->0).block;
                block == Block::GrassBlock || block == Block::Dirt || block == Block::Stone || block
                    == Block::Cobblestone || block == Block::Sand || block == Block::OakLog || block
                    == Block::OakPlanks || block == Block::Bookshelf || block == Block::RedstoneOre
            }
        }),
{
}

} // verus!
