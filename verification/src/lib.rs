//! Procedural generation of hex-grid dungeon levels.
//!
//! A [`grid::Grid`] is a sparse store of terrain cells.  Room templates are
//! stamped onto it under adjacency rules, disconnected floor regions are
//! joined by tunnels, and finished sectors are assembled into a world of
//! several depths that staircases link.

pub mod geom;
pub mod terrain;
pub mod cell;
pub mod order;
pub mod grid;
pub mod placement;
pub mod tunnel;
pub mod regions;
pub mod rng;
pub mod query;
pub mod connect;
pub mod rooms;
pub mod vault;
pub mod location;
pub mod components;
pub mod world;
pub mod bitmap;
pub mod sector;
pub mod digger;
pub mod forms;
pub mod caves;
pub mod worldgen;
