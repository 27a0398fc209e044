//! What keys and mouse buttons do in a world.

use crate::player::inventory::{HOTBAR_SIZE, HOTBAR_START};
use vstd::prelude::*;

verus! {

/// A key that means something in a world.
#[derive(Clone, Copy, Debug, PartialEq, Eq, Structural)]
pub enum Key {
    Escape,
    /// Shows or hides the inventory.
    Inventory,
    /// Shows or hides the item browser.
    Browser,
    /// Switches the game mode.
    Mode,
    /// Selects a hotbar slot, counted from zero.
    Slot(usize),
    Forward,
    Backward,
    Left,
    Right,
    /// Jumps, and swims up while it is held.
    Jump,
    /// Swims down while it is held.
    Sink,
    Other,
}

/// A key going down or up. A key that is held goes down again and again.
#[derive(Clone, Copy, Debug, PartialEq, Eq, Structural)]
pub struct KeyPress {
    pub key: Key,
    pub pressed: bool,
    pub repeat: bool,
}

/// What a key asks for.
#[derive(Clone, Copy, Debug, PartialEq, Eq, Structural)]
pub enum KeyAction {
    Nothing,
    CloseInventory,
    LeaveWorld,
    ToggleInventory,
    ToggleBrowser,
    ToggleMode,
    Select(usize),
}

/// The keys that are held.
#[derive(Clone, Copy, Debug, PartialEq, Eq, Structural)]
pub struct Controls {
    pub move_forward: bool,
    pub move_backward: bool,
    pub move_left: bool,
    pub move_right: bool,
    pub space_held: bool,
    pub swim_down: bool,
    pub jump_requested: bool,
}

impl Controls {
    /// Nothing is held.
    pub open spec fn idle() -> Controls {
        Controls {
            move_forward: false,
            move_backward: false,
            move_left: false,
            move_right: false,
            space_held: false,
            swim_down: false,
            jump_requested: false,
        }
    }

    /// Nothing is held.
    pub fn new() -> (r: Controls)
        ensures
            r == Controls::idle(),
    {
        Controls {
            move_forward: false,
            move_backward: false,
            move_left: false,
            move_right: false,
            space_held: false,
            swim_down: false,
            jump_requested: false,
        }
    }

    /// Lets go of everything.
    pub fn stop(&mut self)
        ensures
            *final(self) == Controls::idle(),
    {
        *self = Controls::new();
    }

    /// What is held after a key that moves the player. Only a first press asks for a
    /// jump.
    pub open spec fn held_after(self, press: KeyPress) -> Controls {
        match press.key {
            Key::Forward => Controls { move_forward: press.pressed, ..self },
            Key::Backward => Controls { move_backward: press.pressed, ..self },
            Key::Left => Controls { move_left: press.pressed, ..self },
            Key::Right => Controls { move_right: press.pressed, ..self },
            Key::Jump => Controls {
                space_held: press.pressed,
                jump_requested: self.jump_requested || (press.pressed && !press.repeat),
                ..self
            },
            Key::Sink => Controls { swim_down: press.pressed, ..self },
            _ => self,
        }
    }

    /// How far to the right the player wants to go: 1, 0 or -1.
    pub fn rightward(&self) -> (r: i8)
        ensures
            r == self.move_right as int - self.move_left as int,
    {
        (if self.move_right { 1 } else { 0 }) - (if self.move_left { 1i8 } else { 0 })
    }

    /// How far ahead the player wants to go: 1, 0 or -1.
    pub fn forward(&self) -> (r: i8)
        ensures
            r == self.move_forward as int - self.move_backward as int,
    {
        (if self.move_forward { 1 } else { 0 }) - (if self.move_backward { 1i8 } else { 0 })
    }
}

/// Whether a key is kept for the text that is being typed.
pub open spec fn is_typed(inventory_open: bool, typing: bool, press: KeyPress) -> bool {
    inventory_open && typing && press.key != Key::Escape
}

/// What a key asks for: on a first press only, and in an open inventory nothing but
/// leaving it and the browser.
pub open spec fn action_of(inventory_open: bool, typing: bool, press: KeyPress) -> KeyAction {
    if is_typed(inventory_open, typing, press) || !press.pressed || press.repeat {
        KeyAction::Nothing
    } else {
        match press.key {
            Key::Escape => if inventory_open {
                KeyAction::CloseInventory
            } else {
                KeyAction::LeaveWorld
            },
            Key::Inventory => KeyAction::ToggleInventory,
            Key::Browser => if inventory_open {
                KeyAction::ToggleBrowser
            } else {
                KeyAction::Nothing
            },
            Key::Mode => if inventory_open {
                KeyAction::Nothing
            } else {
                KeyAction::ToggleMode
            },
            Key::Slot(slot) => if inventory_open || slot >= HOTBAR_SIZE {
                KeyAction::Nothing
            } else {
                KeyAction::Select((HOTBAR_START + slot) as usize)
            },
            _ => KeyAction::Nothing,
        }
    }
}

/// Takes a key: says what it asks for, and notes what is held. While the inventory is
/// open nothing moves the player.
pub fn on_key(
    controls: &mut Controls,
    inventory_open: bool,
    typing: bool,
    press: KeyPress,
) -> (r: KeyAction)
    ensures
        r == action_of(inventory_open, typing, press),
        *final(controls) == if inventory_open {
            *old(controls)
        } else {
            old(controls).held_after(press)
        },
{
    if inventory_open && typing && press.key != Key::Escape {
        return KeyAction::Nothing;
    }
    let first = press.pressed && !press.repeat;
    match press.key {
        Key::Escape => {
            if first {
                return if inventory_open {
                    KeyAction::CloseInventory
                } else {
                    KeyAction::LeaveWorld
                };
            }
        },
        Key::Inventory => {
            if first {
                return KeyAction::ToggleInventory;
            }
        },
        Key::Browser => {
            if first && inventory_open {
                return KeyAction::ToggleBrowser;
            }
        },
        Key::Mode => {
            if first && !inventory_open {
                return KeyAction::ToggleMode;
            }
        },
        _ => {},
    }
    if inventory_open {
        return KeyAction::Nothing;
    }
    match press.key {
        Key::Slot(slot) => {
            if first && slot < HOTBAR_SIZE {
                return KeyAction::Select(HOTBAR_START + slot);
            }
        },
        Key::Forward => {
            controls.move_forward = press.pressed;
        },
        Key::Backward => {
            controls.move_backward = press.pressed;
        },
        Key::Left => {
            controls.move_left = press.pressed;
        },
        Key::Right => {
            controls.move_right = press.pressed;
        },
        Key::Jump => {
            controls.space_held = press.pressed;
            if first {
                controls.jump_requested = true;
            }
        },
        Key::Sink => {
            controls.swim_down = press.pressed;
        },
        _ => {},
    }
    KeyAction::Nothing
}

/// A mouse button.
#[derive(Clone, Copy, Debug, PartialEq, Eq, Structural)]
pub enum Button {
    Left,
    Right,
    Other,
}

/// What a click asks for.
#[derive(Clone, Copy, Debug, PartialEq, Eq, Structural)]
pub enum ClickAction {
    Nothing,
    Mine,
    Place,
}

/// What a click in a world asks for: nothing while the inventory is open.
pub fn on_click(inventory_open: bool, button: Button) -> (r: ClickAction)
    ensures
        r == (if inventory_open {
            ClickAction::Nothing
        } else {
            match button {
                Button::Left => ClickAction::Mine,
                Button::Right => ClickAction::Place,
                Button::Other => ClickAction::Nothing,
            }
        }),
{
    if inventory_open {
        return ClickAction::Nothing;
    }
    match button {
        Button::Left => ClickAction::Mine,
        Button::Right => ClickAction::Place,
        Button::Other => ClickAction::Nothing,
    }
}

/// A key that went down and up again leaves nothing held, but for the wish to jump.
pub proof fn releasing_undoes_pressing(key: Key)
    ensures
        ({
            let down = KeyPress { key, pressed: true, repeat: false };
            let up = KeyPress { key, pressed: false, repeat: false };
            let after = Controls::idle().held_after(down).held_after(up);
            after == (Controls { jump_requested: key == Key::Jump, ..Controls::idle() })
        }),
{
}

/// Each key that moves the player holds its own way and no other, as long as it is down, and
/// the first press of the key for jumping asks for a jump.
pub proof fn keys_hold_their_own_way(held: Controls, press: KeyPress)
    ensures
        ({
            let after = held.held_after(press);
            let key = press.key;
            &&& after.move_forward == if key == Key::Forward {
                press.pressed
            } else {
                held.move_forward
            }
            &&& after.move_backward == if key == Key::Backward {
                press.pressed
            } else {
                held.move_backward
            }
            &&& after.move_left == if key == Key::Left {
                press.pressed
            } else {
                held.move_left
            }
            &&& after.move_right == if key == Key::Right {
                press.pressed
            } else {
                held.move_right
            }
            &&& after.space_held == if key == Key::Jump {
                press.pressed
            } else {
                held.space_held
            }
            &&& after.swim_down == if key == Key::Sink {
                press.pressed
            } else {
                held.swim_down
            }
            &&& after.jump_requested <==> held.jump_requested || key == Key::Jump && press.pressed
                && !press.repeat
        }),
{
}

/// Keys act when they go down, once: not when they come up, nor while they are held. While
/// a text is typed nothing but Escape acts.
pub proof fn keys_act_once(open: bool, typing: bool, press: KeyPress)
    ensures
        !press.pressed || press.repeat ==> action_of(open, typing, press) == KeyAction::Nothing,
        open && typing && press.key != Key::Escape ==> action_of(open, typing, press)
            == KeyAction::Nothing,
        press.pressed && !press.repeat ==> {
            let action = action_of(open, typing, press);
            let plain = !(open && typing);
            &&& press.key == Key::Escape ==> action == if open {
                KeyAction::CloseInventory
            } else {
                KeyAction::LeaveWorld
            }
            &&& press.key == Key::Inventory && plain ==> action == KeyAction::ToggleInventory
            &&& press.key == Key::Browser && plain ==> (action == KeyAction::ToggleBrowser <==> open)
            &&& press.key == Key::Mode ==> (action == KeyAction::ToggleMode <==> !open)
            &&& press.key matches Key::Slot(n) ==> {
                &&& !open && n < 9 ==> action == KeyAction::Select((27 + n) as usize)
                &&& open || n >= 9 ==> action == KeyAction::Nothing
            }
            &&& press.key == Key::Forward || press.key == Key::Backward || press.key == Key::Left
                || press.key == Key::Right || press.key == Key::Jump || press.key == Key::Sink
                || press.key == Key::Other ==> action == KeyAction::Nothing
        },
{
}

} // verus!
