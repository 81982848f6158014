//! Verified core of "Not your house", a horror ray caster: the maze and its
//! block grid, the enemy's breadth-first pathfinding, the wallpaper scatter,
//! the CPU texture used for floor casting, the menus and the screen flow.

pub mod difficulty;
pub mod engine;
pub mod entities;
pub mod game;
pub mod map;
pub mod render;
pub mod screens;
