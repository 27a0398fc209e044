//! A block sandbox: blocks and terrain, saves, lighting, inventory, meshing
//! decisions and the launcher's rules.

pub mod chars;
pub mod double;
pub mod game;
pub mod player;
pub mod render;
pub mod world;
