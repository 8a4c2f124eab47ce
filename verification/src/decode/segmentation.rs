//! Segments: parts of a frame with parameters of their own.
use vstd::prelude::*;

use crate::adapt::clamped;
use crate::header::FrameHeader;
use crate::token;

verus! {

/// The tree of segment numbers.
pub const SEGMENT_TREE: [i8; 14] = [2, 4, 6, 8, 10, 12, 0, -1, -2, -3, -4, -5, -6, -7];

/// The feature that replaces or shifts the quantizer.
pub const SEG_LVL_ALT_Q: usize = 0;

/// The feature that fixes the reference.
pub const SEG_LVL_REF_FRAME: usize = 2;

/// The feature that leaves out the residual.
pub const SEG_LVL_SKIP: usize = 3;

/// The segmentation parameters of a frame.
#[derive(Clone, Copy, Debug)]
pub struct Seg {
    pub enabled: bool,
    pub update_map: bool,
    pub temporal_update: bool,
    pub abs_delta: bool,
    pub tree_probs: [u8; 7],
    pub pred_probs: [u8; 3],
    pub feature_enabled: [[bool; 4]; 8],
    pub feature_data: [[i32; 4]; 8],
}

impl Default for Seg {
    /// No segmentation.
    fn default() -> (s: Seg)
        ensures
            !s.enabled && !s.update_map && !s.temporal_update && !s.abs_delta,
            s.tree_probs@ == seq![0u8, 0, 0, 0, 0, 0, 0],
            s.pred_probs@ == seq![0u8, 0, 0],
            forall|i: int, j: int|
                0 <= i < 8 && 0 <= j < 4 ==> !#[trigger] s.feature_enabled[i][j],
            forall|i: int, j: int|
                0 <= i < 8 && 0 <= j < 4 ==> #[trigger] s.feature_data[i][j] == 0,
    {
        let no: [bool; 4] = [false, false, false, false];
        let zero: [i32; 4] = [0, 0, 0, 0];
        Seg {
            enabled: false,
            update_map: false,
            temporal_update: false,
            abs_delta: false,
            tree_probs: [0, 0, 0, 0, 0, 0, 0],
            pred_probs: [0, 0, 0],
            feature_enabled: [no, no, no, no, no, no, no, no],
            feature_data: [zero, zero, zero, zero, zero, zero, zero, zero],
        }
    }
}

impl Seg {
    /// Segment `sid` has feature `feature`.
    pub open spec fn has(&self, sid: int, feature: int) -> bool {
        self.enabled && self.feature_enabled[sid][feature]
    }

    /// The quantizer index of segment `sid`.
    pub open spec fn q(&self, sid: int, base_q: int) -> int {
        if self.has(sid, 0) {
            let data = self.feature_data[sid][0] as int;
            clamped(
                if self.abs_delta {
                    data
                } else {
                    base_q + data
                },
                0,
                255,
            )
        } else {
            base_q
        }
    }

    /// The segmentation parameters that a header states.
    pub fn from_header(h: &FrameHeader) -> (s: Seg)
        ensures
            s.enabled == h.seg_enabled,
            s.update_map == h.seg_update_map,
            s.temporal_update == h.seg_temporal_update,
            s.abs_delta == h.seg_abs_delta,
            s.tree_probs == h.seg_tree_probs,
            s.pred_probs == h.seg_pred_probs,
            s.feature_enabled == h.seg_feature_enabled,
            s.feature_data == h.seg_feature_data,
    {
        Seg {
            enabled: h.seg_enabled,
            update_map: h.seg_update_map,
            temporal_update: h.seg_temporal_update,
            abs_delta: h.seg_abs_delta,
            tree_probs: h.seg_tree_probs,
            pred_probs: h.seg_pred_probs,
            feature_enabled: h.seg_feature_enabled,
            feature_data: h.seg_feature_data,
        }
    }

    /// Whether segment `sid` has feature `feature`.
    pub fn active(&self, sid: usize, feature: usize) -> (r: bool)
        requires
            sid < 8,
            feature < 4,
        ensures
            r == self.has(sid as int, feature as int),
    {
        self.enabled && self.feature_enabled[sid][feature]
    }

    /// The quantizer index of segment `sid` in a frame with index `base_q`.
    pub fn qindex(&self, sid: usize, base_q: i32) -> (r: i32)
        requires
            sid < 8,
            self.has(sid as int, 0) && !self.abs_delta ==> i32::MIN <= base_q
                + self.feature_data[sid as int][0] <= i32::MAX,
        ensures
            r == self.q(sid as int, base_q as int),
    {
        if self.active(sid, SEG_LVL_ALT_Q) {
            let data: i32 = self.feature_data[sid][0];
            let q: i32 = if self.abs_delta {
                data
            } else {
                base_q + data
            };
            if q < 0 {
                0
            } else if q > 255 {
                255
            } else {
                q
            }
        } else {
            base_q
        }
    }
}

/// The tree of segment numbers is one, and its leaves are the numbers.
pub proof fn lemma_segment_tree()
    ensures
        token::is_tree(SEGMENT_TREE@, 7),
        forall|s: int| #[trigger] token::in_tree(SEGMENT_TREE@, s) <==> 0 <= s < 8,
{
    reveal_with_fuel(token::tree_ok, 4);
    reveal_with_fuel(token::has_leaf, 4);
}

/// The quantizer of a segment without one of its own is that of the frame; else the segment
/// replaces it or shifts it, and it stays in its range.
pub proof fn law_segment_quantizer(seg: Seg, sid: int, base_q: int)
    requires
        0 <= sid < 8,
        0 <= base_q <= 255,
    ensures
        0 <= seg.q(sid, base_q) <= 255,
        !seg.enabled || !seg.feature_enabled[sid][0] ==> seg.q(sid, base_q) == base_q,
        seg.enabled && seg.feature_enabled[sid][0] ==> {
            let d = seg.feature_data[sid][0] as int;
            &&& seg.abs_delta && 0 <= d <= 255 ==> seg.q(sid, base_q) == d
            &&& !seg.abs_delta && 0 <= base_q + d <= 255 ==> seg.q(sid, base_q) == base_q + d
            &&& !seg.abs_delta && base_q + d < 0 ==> seg.q(sid, base_q) == 0
            &&& !seg.abs_delta && base_q + d > 255 ==> seg.q(sid, base_q) == 255
            &&& seg.abs_delta && d < 0 ==> seg.q(sid, base_q) == 0
            &&& seg.abs_delta && d > 255 ==> seg.q(sid, base_q) == 255
        },
{
}

/// A segment number is three bits, the most significant first: the first is coded with the
/// first probability, the second with one of two, the third with one of four.
pub proof fn law_segment_is_three_bits(c: crate::coding::Cursor, probs: Seq<u8>)
    requires
        probs.len() == 7,
    ensures
        ({
            let s = token::tree_read(c, SEGMENT_TREE@, probs);
            let b0 = crate::coding::read_bit(c, probs[0]);
            let c1 = crate::coding::read_next(c, probs[0]);
            let p1 = if b0 {
                probs[2]
            } else {
                probs[1]
            };
            let b1 = crate::coding::read_bit(c1, p1);
            let c2 = crate::coding::read_next(c1, p1);
            let p2 = if b0 && b1 {
                probs[6]
            } else if b0 {
                probs[5]
            } else if b1 {
                probs[4]
            } else {
                probs[3]
            };
            let b2 = crate::coding::read_bit(c2, p2);
            &&& b0 <==> s >= 4
            &&& b1 <==> (s == 2 || s == 3 || s == 6 || s == 7)
            &&& b2 <==> (s == 1 || s == 3 || s == 5 || s == 7)
            &&& 0 <= s < 8
        }),
{
    reveal_with_fuel(token::tree_value, 4);
}

} // verus!
