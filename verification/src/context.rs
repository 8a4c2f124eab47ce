//! The probabilities of a frame: what is kept from frame to frame.
use vstd::prelude::*;

use crate::prob_tables;
use crate::prob_tables::{
    default_coef_probs, default_nmv_context, NmvContext, DEFAULT_COMP_INTER_P, DEFAULT_COMP_REF_P,
    DEFAULT_IF_UV_PROBS, DEFAULT_IF_Y_PROBS, DEFAULT_INTER_MODE_PROBS, DEFAULT_INTRA_INTER_P,
    DEFAULT_MV_JOINTS, DEFAULT_PARTITION_PROBS, DEFAULT_SINGLE_REF_P, DEFAULT_SKIP_PROB,
    DEFAULT_SWITCHABLE_INTERP_PROB,
};

verus! {

/// The coefficient probabilities of one transform size: by plane type, reference
/// type, band, context and node.
pub type CoefProbs = [[[[[u8; 3]; 6]; 6]; 2]; 2];

/// The entropy state of a frame. It is kept across frames, updated by the compressed
/// header and adapted to what was coded.
#[derive(Clone, Copy, Debug, PartialEq, Eq)]
pub struct FrameContext {
    pub coef_probs: [CoefProbs; 4],
    pub skip_probs: [u8; 3],
    pub tx_p8x8: [[u8; 1]; 2],
    pub tx_p16x16: [[u8; 2]; 2],
    pub tx_p32x32: [[u8; 3]; 2],
    pub tx_mode: usize,
    pub y_mode_prob: [[u8; 9]; 4],
    pub uv_mode_prob: [[u8; 9]; 10],
    pub partition_prob: [[u8; 3]; 16],
    pub inter_mode_probs: [[u8; 3]; 7],
    pub intra_inter_prob: [u8; 4],
    pub comp_inter_prob: [u8; 5],
    pub comp_ref_prob: [u8; 5],
    pub single_ref_prob: [[u8; 2]; 5],
    pub switchable_interp_prob: [[u8; 2]; 4],
    pub nmvc: NmvContext,
    /// 0: one reference, 1: two references, 2: each block states which.
    pub reference_mode: usize,
    /// The reference that every block with two references has.
    pub comp_fixed_ref: usize,
    /// The references of which such a block has one.
    pub comp_var_ref: [usize; 2],
}

/// The first probabilities of the transform sizes.
pub const DEFAULT_TX_8X8: [[u8; 1]; 2] = [[100], [66]];

pub const DEFAULT_TX_16X16: [[u8; 2]; 2] = [[20, 152], [15, 101]];

pub const DEFAULT_TX_32X32: [[u8; 3]; 2] = [[3, 136, 37], [5, 52, 13]];

impl FrameContext {
    /// These are the probabilities with which decoding starts.
    pub open spec fn is_default(&self) -> bool {
        &&& self.coef_probs == prob_tables::coef_defaults()
        &&& self.skip_probs == DEFAULT_SKIP_PROB
        &&& self.tx_p8x8 == DEFAULT_TX_8X8
        &&& self.tx_p16x16 == DEFAULT_TX_16X16
        &&& self.tx_p32x32 == DEFAULT_TX_32X32
        &&& self.tx_mode == 0
        &&& self.y_mode_prob == DEFAULT_IF_Y_PROBS
        &&& self.uv_mode_prob == DEFAULT_IF_UV_PROBS
        &&& self.partition_prob == DEFAULT_PARTITION_PROBS
        &&& self.inter_mode_probs == DEFAULT_INTER_MODE_PROBS
        &&& self.intra_inter_prob == DEFAULT_INTRA_INTER_P
        &&& self.comp_inter_prob == DEFAULT_COMP_INTER_P
        &&& self.comp_ref_prob == DEFAULT_COMP_REF_P
        &&& self.single_ref_prob == DEFAULT_SINGLE_REF_P
        &&& self.switchable_interp_prob == DEFAULT_SWITCHABLE_INTERP_PROB
        &&& self.nmvc.joints == DEFAULT_MV_JOINTS
        &&& self.nmvc.comps[0] == prob_tables::nmv_component_defaults(0)
        &&& self.nmvc.comps[1] == prob_tables::nmv_component_defaults(1)
        &&& self.reference_mode == 0
        &&& self.comp_fixed_ref == 0
        &&& self.comp_var_ref@ == seq![0usize, 1]
    }

    /// The probabilities with which decoding starts.
    pub fn defaults() -> (r: FrameContext)
        ensures
            r.is_default(),
    {
        FrameContext {
            coef_probs: default_coef_probs(),
            skip_probs: DEFAULT_SKIP_PROB,
            tx_p8x8: DEFAULT_TX_8X8,
            tx_p16x16: DEFAULT_TX_16X16,
            tx_p32x32: DEFAULT_TX_32X32,
            tx_mode: 0,
            y_mode_prob: DEFAULT_IF_Y_PROBS,
            uv_mode_prob: DEFAULT_IF_UV_PROBS,
            partition_prob: DEFAULT_PARTITION_PROBS,
            inter_mode_probs: DEFAULT_INTER_MODE_PROBS,
            intra_inter_prob: DEFAULT_INTRA_INTER_P,
            comp_inter_prob: DEFAULT_COMP_INTER_P,
            comp_ref_prob: DEFAULT_COMP_REF_P,
            single_ref_prob: DEFAULT_SINGLE_REF_P,
            switchable_interp_prob: DEFAULT_SWITCHABLE_INTERP_PROB,
            nmvc: default_nmv_context(),
            reference_mode: 0,
            comp_fixed_ref: 0,
            comp_var_ref: [0, 1],
        }
    }
}

impl Default for FrameContext {
    /// The same as [`FrameContext::defaults`].
    fn default() -> (r: FrameContext)
        ensures
            r.is_default(),
    {
        FrameContext::defaults()
    }
}

} // verus!
