//! Core of a tile-based 2D game: exact collision geometry over integer
//! coordinates, and a decoder that turns tileset and tile-grid documents
//! into a queryable map of texture names.

pub mod gridtext;
pub mod isqrt;
pub mod json;
pub mod physics;
pub mod tilemap;

