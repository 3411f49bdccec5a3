//! Errors at the chunk and region level.

use vstd::prelude::*;
use crate::cursor::NbtError;
use crate::grid::UnpackError;
use crate::tag::TagError;

verus! {

/// Why one chunk could not be read. Such an error concerns that chunk only.
#[derive(Debug, Clone, PartialEq, Eq)]
pub enum ChunkError {
    /// The slot's sector range lies outside the file or inside its header.
    OutOfRangeSlot,
    /// The frame's length field does not fit the slot, or is zero.
    BadFrameLength,
    UnknownCompression(u8),
    ChunkTooLarge,
    DecompressFailed,
    Nbt(NbtError),
    Tag(TagError),
    Unpack(UnpackError),
    MissingRequiredField(String),
    /// A data version older than the packing rules this reader decodes.
    UnsupportedDataVersion(i32),
}

/// Why a region file could not be read.
#[derive(Debug, Clone, Copy, PartialEq, Eq, Structural)]
pub enum RegionError {
    Io,
    TruncatedRegionHeader,
    /// A file name other than `r.<x>.<z>.mca` or `r.<x>.<z>.mcr`.
    BadFileName,
}

} // verus!
