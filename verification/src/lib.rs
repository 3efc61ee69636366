//! Turn resolution and spatial reasoning for a grid-based roguelike: a chunked
//! tile world, a shortest-path search over tile snapshots, an entity store with
//! hostility ledgers, an event resolver and an energy-driven turn scheduler.

pub mod math;
pub mod tiles;
pub mod pathfinding;
pub mod random;
pub mod map;
pub mod components;
pub mod events;
pub mod world;
pub mod queries;
pub mod systems;
pub mod world_setup;
pub mod collision;
pub mod errors;
pub mod logging;
