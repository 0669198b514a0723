pub mod combat;
pub mod enemy;
pub mod input;
pub mod map;
pub mod pathfinding;
pub mod projectile;
pub mod spawn;
pub mod unit;
