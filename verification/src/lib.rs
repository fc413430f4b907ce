//! A 2D tile-grid world store for a dungeon-style game.
//!
//! The `World` holds an ordered stack of placed objects per grid cell and
//! manages object identities; the codec converts a `World` to and from a
//! nested textual document; the designer validates and carves rooms and
//! corridors into the grid.

pub mod tile;
pub mod world;
pub mod codec;
pub mod designer;
