//! VP9 bitstream syntax and coding decisions, with machine-checked contracts.
use vstd::prelude::*;

pub use crate::bits::{BitReader, BoolDecoder};
pub use crate::error::{Error, Result};
pub use crate::header::{parse_uncompressed_header, FrameHeader};

pub mod adapt;
pub mod bits;
pub mod block;
pub mod coding;
pub mod context;
pub mod decode;
pub mod encode;
pub mod error;
pub mod geom_tables;
pub mod grid;
pub mod header;
pub mod mv;
pub mod prob;
pub mod prob_tables;
pub mod token;

verus! {

} // verus!
