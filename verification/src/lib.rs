//! Simulation core of a tile-based dungeon exploration game.
//!
//! The crate holds a procedural level generator (random non-overlapping
//! rooms joined by L-shaped corridors), a tile map with fog-of-war flags,
//! a symmetric line-of-sight field-of-view computation, and the per-turn
//! orchestration that recomputes stale viewsheds, folds the player's view
//! into the map, and reports hostile entities that can see the player.

pub mod components;
pub mod connectivity;
pub mod map;
pub mod mapgen;
pub mod rect;
pub mod rng;
pub mod visibility;
pub mod world;

pub use map::TileMap;
pub use map::TileType;
pub use rect::Rect;
