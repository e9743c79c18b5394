//! A spatial index of point light sources over an extreme coordinate range,
//! with a level-of-detail visibility query.
pub mod fp;
pub mod wide;
pub mod sector;
pub mod tree;
pub mod lod;
pub mod laws;
pub mod graph;
pub mod mailbox;
