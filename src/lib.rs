//! A turn-based dungeon simulation: an entity/component store, a spatial
//! index kept in step with every position change, and the systems that run
//! once per tick (level generation, movement, combat, looting, AI, sight).

pub mod common;
pub mod store;
pub mod components;
pub mod world;
pub mod lookup;
pub mod random;
pub mod game;
pub mod level_generation;
pub mod movement;
pub mod combat;
pub mod looting;
pub mod ai;
pub mod player_command;
pub mod raycast;
pub mod perspective;
pub mod climbing;
pub mod rendering;
pub mod ui;
pub mod tick;
