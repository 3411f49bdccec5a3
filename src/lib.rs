//! Reader for the Anvil world-storage format.
//!
//! The decoding stack, leaves first:
//! - `cursor`: big-endian reads over a byte buffer.
//! - `tag`: the NBT tag tree, its model, the parse of bytes into the model,
//!   and typed accessors.
//! - `nbt`: the executable parser, proved to follow the model's parse.
//! - `encode`: the byte encoding of the model and the laws that tie it to the
//!   parse (round trip, exact consumption, truncation).
//! - `frame`: chunk frames and their decompression.
//! - `region`: the region index, slot ranges, region file names and regions.
//! - `grid`: palette-indexed grids unpacked from packed long arrays.
//! - `fields`, `section`, `chunk`: projection of a chunk's root compound into
//!   a typed chunk record.
//! - `world`: the regions of a world.
//! - `versions`: ordering of game version names.

pub mod cursor;
pub mod tag;
pub mod nbt;
pub mod encode;
pub mod grid;
pub mod error;
pub mod frame;
pub mod region;
pub mod fields;
pub mod section;
pub mod chunk;
pub mod world;
pub mod versions;
