//! Writing frames.
pub mod bitwriter;
pub mod compressed;
pub mod frame;
pub mod header;
pub mod intermode;
pub mod prob;
pub mod syntax;
pub mod mv;
pub mod block;
pub mod pixels;
pub mod scoring;
pub mod predicting;
pub mod search;
pub mod trellis;
pub mod txblock;
pub mod cost;
pub mod modemap;
pub mod snapshot;
pub mod plane;
pub mod refine;
pub mod decide;
pub mod parts;
pub mod intertrials;
pub mod partition;
pub mod cuttrials;
pub mod aq;
pub mod gate;
pub mod superframe;
pub mod source;
pub mod sequence;
pub mod frameenc;
pub mod tile;
pub mod roundtrip;
