//! Core rules of a small real-time strategy game: the tile map, A* path
//! finding over it, unit and enemy kinds, wave spawning, formation orders
//! and combat bookkeeping.

pub mod engine;
pub mod math;
pub mod hud;
