//! What is drawn: chunks, faces and meshes, in whole numbers.

pub mod batch;
pub mod cache;
pub mod chunk;
pub mod coarse;
pub mod face;
pub mod lod;
pub mod mesh;
pub mod probe;
pub mod reach;
pub mod requests;
pub mod ring;
pub mod snapshot;
pub mod stats;
pub mod whole;
