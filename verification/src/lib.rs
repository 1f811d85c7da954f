//! Procedural dungeon level generator.
//!
//! The core lays out a jittered grid of rooms, carves randomized winding
//! corridors between neighbouring rooms, derives wall placement from tile
//! connectivity, and reduces the per-tile floor geometry to a compact list
//! of walkable polygons.

pub mod projection;
pub mod rng;
pub mod floor_set;
pub mod corridor;
pub mod walkable;
pub mod sink;
pub mod walls;
pub mod room;
pub mod dungeon;
pub mod gfx;
pub mod inventory;
pub mod animation;
pub mod sound;
pub mod map;
pub mod ui;
pub mod editor;
pub mod views;
pub mod item;
