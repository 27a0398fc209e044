//! The rules of play: where a world begins, what keys and clicks do, and what the
//! launcher shows.

pub mod catalog;
pub mod controls;
pub mod form;
pub mod process;
pub mod screen;
pub mod slots;
pub mod spawn;
pub mod target;
pub mod text;
pub mod view;
