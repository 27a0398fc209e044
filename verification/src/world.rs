//! Blocks, terrain columns, trees, light, saves and the editable world.

pub mod atlas;
pub mod block;
pub mod codec;
pub mod column;
pub mod column_map;
pub mod forest;
pub mod generator;
pub mod gravity;
pub mod hash;
pub mod heights;
pub mod light;
pub mod names;
pub mod picture;
pub mod recipe;
pub mod save;
pub mod skylight;
pub mod tree;
pub mod voxel;
