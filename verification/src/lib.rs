//! Game logic of the blastcap dungeon crawler: integer geometry, a pooled
//! pseudo random generator, the voxel map, actors, the server state machine
//! and the bindings generator.

pub mod math;
pub mod random;
pub mod map;
pub mod chance;
pub mod identity;
pub mod text;
pub mod abilities;
pub mod messages;
pub mod actor;
pub mod paths;
pub mod game;
pub mod states;
pub mod sharpify;
pub mod waiting;
pub mod logging;
pub mod network;
pub mod dataset;
pub mod mapgen;
pub mod poolcheck;
pub mod sparse;
