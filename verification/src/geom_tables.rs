//! Tables of the geometry of blocks and transforms.
//!
//! Block sizes are numbered 4x4, 4x8, 8x4, 8x8, and so on up to 64x64.
use vstd::prelude::*;

verus! {

/// The width of each block size in units of four pixels, as a power of two.
pub const B_WIDTH_LOG2: [u8; 13] = [0, 0, 1, 1, 1, 2, 2, 2, 3, 3, 3, 4, 4];

/// The height of each block size in units of four pixels, as a power of two.
pub const B_HEIGHT_LOG2: [u8; 13] = [0, 1, 0, 1, 2, 1, 2, 3, 2, 3, 4, 3, 4];

/// The largest transform that fits into each block size.
pub const MAX_TXSIZE: [u8; 13] = [0, 0, 0, 1, 1, 1, 2, 2, 2, 3, 3, 3, 3];

/// The group of each block size for the coding of luma modes in inter frames.
pub const SIZE_GROUP: [u8; 13] = [0, 0, 0, 1, 1, 1, 2, 2, 2, 3, 3, 3, 3];

/// The largest transform of each transform mode.
pub const TX_MODE_TO_BIGGEST_TX: [u8; 5] = [0, 1, 2, 3, 3];

/// The size of the parts into which each partition cuts each block size; 13 where
/// it cannot.
pub const SUBSIZE_LOOKUP: [[u8; 13]; 4] = [
    [0, 1, 2, 3, 4, 5, 6, 7, 8, 9, 10, 11, 12],
    [13, 13, 13, 2, 13, 13, 5, 13, 13, 8, 13, 13, 11],
    [13, 13, 13, 1, 13, 13, 4, 13, 13, 7, 13, 13, 10],
    [13, 13, 13, 0, 13, 13, 3, 13, 13, 6, 13, 13, 9],
];

/// The partition context that each block size leaves below it.
pub const PARTITION_CTX_ABOVE: [u8; 13] = [15, 15, 14, 14, 14, 12, 12, 12, 8, 8, 8, 0, 0];

/// The partition context that each block size leaves to its right.
pub const PARTITION_CTX_LEFT: [u8; 13] = [15, 14, 15, 14, 12, 14, 12, 8, 12, 8, 0, 8, 0];

} // verus!
