//! The player: items, modes, movement and aim.

pub mod aim;
pub mod inventory;
pub mod mode;
pub mod physics;
