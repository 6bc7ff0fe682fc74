//! Addresses for 4×4 boards of the 2048 family.
//!
//! Every board gets an address of two parts: the global id of its occupancy
//! shape in an exhaustive catalog, and a local id that spells the tile
//! exponents over the occupied cells. The crate holds the catalog, the codec
//! between addresses and boards, the slide-and-merge moves, and the resolver
//! that finds the address of a board again.

pub mod address;
pub mod board;
pub mod catalog;
pub mod codec;
pub mod enumerate;
pub mod error;
pub mod format;
pub mod moves;
pub mod palette;
pub mod play;
pub mod shape;
pub mod store;
pub mod text;
pub mod written;
