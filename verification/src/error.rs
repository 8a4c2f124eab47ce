//! What can go wrong while a frame is read or handed over.
use vstd::prelude::*;

verus! {

/// The reasons for which the library refuses its input.
#[derive(Clone, Copy, Debug, PartialEq, Eq, Structural)]
pub enum Error {
    /// A header field lies beyond the last byte.
    PastEnd,
    /// An arithmetic-coded section has no bytes at all.
    EmptyInput,
    /// The first two bits of a frame are not the frame marker.
    BadFrameMarker,
    /// The three bytes that open a key frame or an intra-only frame are wrong.
    BadSyncCode,
    /// A bit that the format reserves is set.
    ReservedBit,
    /// The profile does not have the colour format.
    UnsupportedFormat,
    /// The compressed header does not fit into the frame.
    CompressedHeaderOutOfBounds,
    /// A tile's size field lies beyond the end of the frame.
    TileSizeOverrun,
    /// A tile's bytes lie beyond the end of the frame.
    TileDataOverrun,
}

pub type Result<T> = core::result::Result<T, Error>;

} // verus!
