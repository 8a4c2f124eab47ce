//! Reading frames.
pub mod compressed;
pub mod contexts;
pub mod counts;
pub mod finish;
pub mod frame;
pub mod inter;
pub mod modeinfo;
pub mod motion;
pub mod partition;
pub mod plane;
pub mod reconstructor;
pub mod residual;
pub mod segmentation;
pub mod tally;
pub mod tiles;
pub mod tour;
