//! Zelduh: a deterministic top-down action-adventure engine in the style of
//! the Game Boy Zelda games, with its integer maths, map logic, entity slab,
//! snapshots, world generation and asset decoding verified.
pub mod fixed;
pub mod geom;
pub mod input;
pub mod tiles;
pub mod event;
pub mod items;
pub mod entity;
pub mod level;
pub mod physics;
pub mod rng;
pub mod text;
pub mod save;
pub mod gen;
pub mod assets;
pub mod world;
pub mod player;
pub mod boss;
pub mod enemy;
pub mod objects;
pub mod combat;
pub mod server;
pub mod cli;
pub mod render;
