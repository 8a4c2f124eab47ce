//! The uncompressed header of a frame, and the reading of it.
use vstd::arithmetic::power2::*;
use vstd::prelude::*;

use crate::bits;
use crate::bits::{BitReader, Scan};
use crate::coding;
use crate::error::{Error, Result};

verus! {

/// The two bits that open every frame.
pub const FRAME_MARKER: u32 = 2;

/// The three bytes that open the colour description.
pub const SYNC_CODE: u32 = 0x49_83_42;

/// The colour space that is not luma and chroma.
pub const CS_RGB: u32 = 7;

/// The filter that each value of the two-bit field stands for, and back.
pub const LITERAL_TO_FILTER: [u32; 4] = [1, 0, 2, 3];

/// The loop filter deltas of the references where none was set.
pub const LF_REF_DELTA_DEFAULTS: [i32; 4] = [1, 0, -1, -1];

/// The number of bits of each segment feature.
pub const SEG_FEATURE_BITS: [u32; 4] = [8, 6, 2, 0];

/// Which segment features have a sign.
pub const SEG_FEATURE_SIGNED: [bool; 4] = [true, true, false, false];

/// Everything that the uncompressed header of a frame says.
#[derive(Clone, Copy, Debug, PartialEq, Eq)]
pub struct FrameHeader {
    pub profile: u32,
    pub show_existing_frame: bool,
    pub frame_to_show: u32,
    pub key_frame: bool,
    pub show_frame: bool,
    pub error_resilient: bool,
    pub intra_only: bool,
    pub reset_frame_context: u32,
    pub refresh_frame_flags: u32,
    pub ref_frame_idx: [usize; 3],
    pub ref_sign_bias: [bool; 3],
    pub allow_high_precision_mv: bool,
    /// The interpolation filter; 4 where each block names its own.
    pub interp_filter: u32,
    pub bit_depth: u32,
    pub color_space: u32,
    pub subsampling_x: u32,
    pub subsampling_y: u32,
    pub width: u32,
    pub height: u32,
    /// Whether the size of the frame is known.
    pub sized: bool,
    pub refresh_frame_context: bool,
    pub frame_parallel_decoding_mode: bool,
    pub frame_context_idx: u32,
    pub loop_filter_level: u32,
    pub loop_filter_sharpness: u32,
    pub lf_delta_enabled: bool,
    pub lf_ref_delta_updated: [bool; 4],
    pub lf_ref_deltas: [i32; 4],
    pub lf_mode_delta_updated: [bool; 2],
    pub lf_mode_deltas: [i32; 2],
    pub base_q_idx: u32,
    pub delta_q_y_dc: i32,
    pub delta_q_uv_dc: i32,
    pub delta_q_uv_ac: i32,
    /// The quantizer index and all its deltas are zero.
    pub lossless: bool,
    pub seg_enabled: bool,
    pub seg_update_map: bool,
    pub seg_temporal_update: bool,
    pub seg_update_data: bool,
    pub seg_abs_delta: bool,
    pub seg_tree_probs: [u8; 7],
    pub seg_pred_probs: [u8; 3],
    pub seg_feature_enabled: [[bool; 4]; 8],
    pub seg_feature_data: [[i32; 4]; 8],
    pub tile_cols_log2: u32,
    pub tile_rows_log2: u32,
    /// The number of bytes of the compressed header.
    pub header_size: u32,
    /// The number of bytes of this header.
    pub uncompressed_bytes: usize,
}

/// The colour format of a frame.
pub struct Format {
    pub bit_depth: int,
    pub color_space: int,
    pub subsampling_x: int,
    pub subsampling_y: int,
}

/// The loop filter: six deltas, of the four references and of the two modes, each
/// of which may be set anew.
#[verifier::ext_equal]
pub struct LoopFilter {
    pub level: int,
    pub sharpness: int,
    pub delta_enabled: bool,
    pub updates: Seq<Option<int>>,
}

pub struct Quant {
    pub base: int,
    pub y_dc: int,
    pub uv_dc: int,
    pub uv_ac: int,
}

/// The segmentation: a tree of probabilities, three probabilities of predicted
/// segments, and four features for each of eight segments.
#[verifier::ext_equal]
pub struct Segmentation {
    pub enabled: bool,
    pub update_map: bool,
    pub temporal_update: bool,
    pub update_data: bool,
    pub abs_delta: bool,
    pub tree_probs: Seq<int>,
    pub pred_probs: Seq<int>,
    pub features: Seq<Option<int>>,
}

/// What says how a frame is coded that does not replace the display of a frame:
/// the tail that all such frames share.
#[verifier::ext_equal]
pub struct Tail {
    pub refresh_context: bool,
    pub parallel: bool,
    pub context: int,
    pub lf: LoopFilter,
    pub quant: Quant,
    pub seg: Segmentation,
    pub tile_cols_log2: int,
    pub tile_rows_log2: int,
    pub header_size: int,
}

// ---------------------------------------------------------------------------
// What bits say
// ---------------------------------------------------------------------------

/// Bit `p` is set.
pub open spec fn set_at(d: Seq<u8>, p: nat) -> bool {
    coding::data_bit(d, p) == 1
}

/// An optional signed value of `n` bits at `p`, and where it ends.
pub open spec fn opt_signed_at(d: Seq<u8>, p: nat, n: nat) -> (Option<int>, nat) {
    if set_at(d, p) {
        (Some(bits::signed_at(d, p + 1, n)), p + n + 2)
    } else {
        (None, p + 1)
    }
}

/// `k` optional signed values of `n` bits from `p` on, and where they end.
pub open spec fn opt_signeds_at(d: Seq<u8>, p: nat, n: nat, k: nat) -> (Seq<Option<int>>, nat)
    decreases k,
{
    if k == 0 {
        (Seq::empty(), p)
    } else {
        let (xs, q) = opt_signeds_at(d, p, n, (k - 1) as nat);
        let (x, r) = opt_signed_at(d, q, n);
        (xs.push(x), r)
    }
}

/// An optional probability at `p`, 255 if there is none, and where it ends.
pub open spec fn opt_prob_at(d: Seq<u8>, p: nat) -> (int, nat) {
    if set_at(d, p) {
        (coding::take_bits(d, p + 1, 8), p + 9)
    } else {
        (255, p + 1)
    }
}

/// `k` optional probabilities from `p` on, and where they end.
pub open spec fn opt_probs_at(d: Seq<u8>, p: nat, k: nat) -> (Seq<int>, nat)
    decreases k,
{
    if k == 0 {
        (Seq::empty(), p)
    } else {
        let (xs, q) = opt_probs_at(d, p, (k - 1) as nat);
        let (x, r) = opt_prob_at(d, q);
        (xs.push(x), r)
    }
}

/// Feature `j` of a segment at `p`, and where it ends.
pub open spec fn feature_at(d: Seq<u8>, p: nat, j: int) -> (Option<int>, nat) {
    let n = SEG_FEATURE_BITS[j] as nat;
    if !set_at(d, p) {
        (None, p + 1)
    } else if SEG_FEATURE_SIGNED[j] {
        (Some(bits::signed_at(d, p + 1, n)), p + n + 2)
    } else {
        (Some(coding::take_bits(d, p + 1, n)), p + n + 1)
    }
}

/// The first `k` features from `p` on, segment by segment, and where they end.
pub open spec fn features_at(d: Seq<u8>, p: nat, k: nat) -> (Seq<Option<int>>, nat)
    decreases k,
{
    if k == 0 {
        (Seq::empty(), p)
    } else {
        let (xs, q) = features_at(d, p, (k - 1) as nat);
        let (x, r) = feature_at(d, q, (k - 1) % 4);
        (xs.push(x), r)
    }
}

/// No update of any of the six loop filter deltas.
pub open spec fn no_updates() -> Seq<Option<int>> {
    Seq::new(6, |i: int| None)
}

/// The loop filter at `p`, and where it ends.
#[verifier::opaque]
pub open spec fn loop_filter_at(d: Seq<u8>, p: nat) -> (LoopFilter, nat) {
    let level = coding::take_bits(d, p, 6);
    let sharpness = coding::take_bits(d, p + 6, 3);
    let delta_enabled = set_at(d, p + 9);
    let (updates, end) = if !delta_enabled {
        (no_updates(), p + 10)
    } else if !set_at(d, p + 10) {
        (no_updates(), p + 11)
    } else {
        opt_signeds_at(d, p + 11, 6, 6)
    };
    (LoopFilter { level, sharpness, delta_enabled, updates }, end)
}

/// A quantizer delta at `p`, and where it ends.
pub open spec fn delta_q_at(d: Seq<u8>, p: nat) -> (int, nat) {
    let (v, q) = opt_signed_at(d, p, 4);
    (
        match v {
            Some(x) => x,
            None => 0,
        },
        q,
    )
}

/// The quantizer at `p`, and where it ends.
#[verifier::opaque]
pub open spec fn quant_at(d: Seq<u8>, p: nat) -> (Quant, nat) {
    let base = coding::take_bits(d, p, 8);
    let (y_dc, p1) = delta_q_at(d, p + 8);
    let (uv_dc, p2) = delta_q_at(d, p1);
    let (uv_ac, p3) = delta_q_at(d, p2);
    (Quant { base, y_dc, uv_dc, uv_ac }, p3)
}

/// `k` probabilities of 255.
pub open spec fn no_probs(k: nat) -> Seq<int> {
    Seq::new(k, |i: int| 255int)
}

/// No feature of any segment.
pub open spec fn no_features() -> Seq<Option<int>> {
    Seq::new(32, |i: int| None)
}

/// The segmentation at `p`, and where it ends.
#[verifier::opaque]
pub open spec fn segmentation_at(d: Seq<u8>, p: nat) -> (Segmentation, nat) {
    let enabled = set_at(d, p);
    let update_map = enabled && set_at(d, p + 1);
    let (tree_probs, p1) = if update_map {
        opt_probs_at(d, p + 2, 7)
    } else if enabled {
        (no_probs(7), p + 2)
    } else {
        (no_probs(7), p + 1)
    };
    let temporal_update = update_map && set_at(d, p1);
    let (pred_probs, p2) = if temporal_update {
        opt_probs_at(d, p1 + 1, 3)
    } else if update_map {
        (no_probs(3), p1 + 1)
    } else {
        (no_probs(3), p1)
    };
    let update_data = enabled && set_at(d, p2);
    let abs_delta = update_data && set_at(d, p2 + 1);
    let (features, p3) = if update_data {
        features_at(d, p2 + 2, 32)
    } else if enabled {
        (no_features(), p2 + 1)
    } else {
        (no_features(), p2)
    };
    (
        Segmentation {
            enabled,
            update_map,
            temporal_update,
            update_data,
            abs_delta,
            tree_probs,
            pred_probs,
            features,
        },
        p3,
    )
}

/// The number of 64-pixel columns of a frame.
pub open spec fn sb64_cols(width: int) -> nat {
    (((width + 7) / 8 + 7) / 8) as nat
}

/// The smallest number of doublings from `log2` on for which as many tiles of 64
/// such columns cover the frame.
pub open spec fn min_tile_log2(sb64: nat, log2: nat) -> nat
    decreases
            if 64 * pow2(log2) < sb64 {
                sb64 - 64 * pow2(log2)
            } else {
                0
            },
{
    if 64 * pow2(log2) < sb64 {
        proof {
            lemma_pow2_unfold(log2 + 1);
            lemma_pow2_pos(log2);
        }
        min_tile_log2(sb64, log2 + 1)
    } else {
        log2
    }
}

/// The largest number of halvings from `log2` on that leaves tiles of four such
/// columns.
pub open spec fn max_tile_log2(sb64: nat, log2: nat) -> nat
    decreases sb64 / pow2(log2),
{
    if sb64 / pow2(log2) >= 4 {
        proof {
            lemma_pow2_unfold(log2 + 1);
            lemma_pow2_pos(log2);
            vstd::arithmetic::div_mod::lemma_div_denominator(sb64 as int, pow2(log2) as int, 2);
            vstd::arithmetic::mul::lemma_mul_is_commutative(pow2(log2) as int, 2);
        }
        max_tile_log2(sb64, log2 + 1)
    } else {
        log2
    }
}

/// The bounds on the logarithm of the number of tile columns.
pub open spec fn tile_bounds(width: int) -> (nat, nat) {
    (min_tile_log2(sb64_cols(width), 0), (max_tile_log2(sb64_cols(width), 1) - 1) as nat)
}

/// The logarithm of the number of tile columns: one bit for each step above the
/// least, up to the most; and where it ends.
pub open spec fn tile_cols_at(d: Seq<u8>, p: nat, cur: nat, most: nat) -> (nat, nat)
    decreases most - cur,
{
    if cur >= most {
        (cur, p)
    } else if set_at(d, p) {
        tile_cols_at(d, p + 1, cur + 1, most)
    } else {
        (cur, p + 1)
    }
}

/// The tail at `p` of the header of a frame that is `width` pixels wide, and where
/// it ends.
#[verifier::opaque]
pub open spec fn tail_at(d: Seq<u8>, p: nat, error_resilient: bool, width: int) -> (Tail, nat) {
    let refresh_context = !error_resilient && set_at(d, p);
    let parallel = error_resilient || set_at(d, p + 1);
    let p1 = if error_resilient {
        p
    } else {
        p + 2
    };
    let context = coding::take_bits(d, p1, 2);
    let (lf, p2) = loop_filter_at(d, p1 + 2);
    let (quant, p3) = quant_at(d, p2);
    let (seg, p4) = segmentation_at(d, p3);
    let (tile_cols, p5) = tile_cols_at(d, p4, tile_bounds(width).0, tile_bounds(width).1);
    let rows0 = set_at(d, p5);
    let rows1 = rows0 && set_at(d, p5 + 1);
    let p6 = if rows0 {
        p5 + 2
    } else {
        p5 + 1
    };
    (
        Tail {
            refresh_context,
            parallel,
            context,
            lf,
            quant,
            seg,
            tile_cols_log2: tile_cols as int,
            tile_rows_log2: if rows1 {
                2
            } else if rows0 {
                1
            } else {
                0
            },
            header_size: coding::take_bits(d, p6, 16),
        },
        p6 + 16,
    )
}

/// What comes before the tail.
#[verifier::ext_equal]
pub struct Lead {
    pub profile: int,
    pub show_existing: bool,
    pub frame_to_show: int,
    pub key: bool,
    pub show: bool,
    pub resilient: bool,
    pub intra_only: bool,
    pub reset_context: int,
    pub refresh_flags: int,
    pub refs: Seq<int>,
    pub signs: Seq<bool>,
    pub hp: bool,
    pub filter: int,
    pub format: Format,
    pub width: int,
    pub height: int,
}

/// No colour format.
pub open spec fn no_format() -> Format {
    Format { bit_depth: 0, color_space: 0, subsampling_x: 0, subsampling_y: 0 }
}

/// A lead that says nothing.
pub open spec fn blank_lead() -> Lead {
    Lead {
        profile: 0,
        show_existing: false,
        frame_to_show: 0,
        key: false,
        show: false,
        resilient: false,
        intra_only: false,
        reset_context: 0,
        refresh_flags: 0,
        refs: seq![0, 0, 0],
        signs: seq![false, false, false],
        hp: false,
        filter: 0,
        format: no_format(),
        width: 0,
        height: 0,
    }
}

/// What is wrong once everything before `p` has been read: the data has ended, or
/// `bad` holds.
pub open spec fn wrong_at(d: Seq<u8>, p: nat, bad: bool, e: Error) -> Option<Error> {
    if p > 8 * d.len() {
        Some(Error::PastEnd)
    } else if bad {
        Some(e)
    } else {
        None
    }
}

/// The colour format at `p`, what is wrong with it, and where it ends.
#[verifier::opaque]
pub open spec fn format_at(d: Seq<u8>, p: nat, profile: int) -> (Format, Option<Error>, nat) {
    let deep = profile >= 2;
    let odd = profile == 1 || profile == 3;
    let bit_depth = if !deep {
        8int
    } else if set_at(d, p) {
        12
    } else {
        10
    };
    let p1 = if deep {
        p + 1
    } else {
        p
    };
    let color_space = coding::take_bits(d, p1, 3);
    if color_space != CS_RGB {
        if odd {
            (
                Format {
                    bit_depth,
                    color_space,
                    subsampling_x: coding::data_bit(d, p1 + 4),
                    subsampling_y: coding::data_bit(d, p1 + 5),
                },
                wrong_at(d, p1 + 7, set_at(d, p1 + 6), Error::ReservedBit),
                p1 + 7,
            )
        } else {
            (Format { bit_depth, color_space, subsampling_x: 1, subsampling_y: 1 }, None, p1 + 4)
        }
    } else if odd {
        (
            Format { bit_depth, color_space, subsampling_x: 0, subsampling_y: 0 },
            wrong_at(d, p1 + 4, set_at(d, p1 + 3), Error::ReservedBit),
            p1 + 4,
        )
    } else {
        (
            Format { bit_depth, color_space, subsampling_x: 0, subsampling_y: 0 },
            wrong_at(d, p1 + 3, true, Error::UnsupportedFormat),
            p1 + 3,
        )
    }
}

/// The size at `p`.
pub open spec fn size_at(d: Seq<u8>, p: nat) -> (int, int) {
    (coding::take_bits(d, p, 16) + 1, coding::take_bits(d, p + 16, 16) + 1)
}

/// Where the display size that may stand at `p` ends.
pub open spec fn after_render_size(d: Seq<u8>, p: nat) -> nat {
    if set_at(d, p) {
        p + 33
    } else {
        p + 1
    }
}

/// The size at `p`, which may be that of one of the references `refs`, and where it
/// ends. `sizes` holds the sizes of all frames that are kept.
pub open spec fn size_with_refs_at(
    d: Seq<u8>,
    p: nat,
    refs: Seq<int>,
    sizes: Seq<(u32, u32)>,
) -> (int, int, nat) {
    if set_at(d, p) {
        (sizes[refs[0]].0 as int, sizes[refs[0]].1 as int, p + 1)
    } else if set_at(d, p + 1) {
        (sizes[refs[1]].0 as int, sizes[refs[1]].1 as int, p + 2)
    } else if set_at(d, p + 2) {
        (sizes[refs[2]].0 as int, sizes[refs[2]].1 as int, p + 3)
    } else {
        (size_at(d, p + 3).0, size_at(d, p + 3).1, p + 35)
    }
}

/// The interpolation filter at `p`, and where it ends.
pub open spec fn filter_at(d: Seq<u8>, p: nat) -> (int, nat) {
    if set_at(d, p) {
        (4, p + 1)
    } else {
        (LITERAL_TO_FILTER[coding::take_bits(d, p + 1, 2)] as int, p + 3)
    }
}

/// The part of the lead of a key frame from its sync code at `p` on.
#[verifier::opaque]
pub open spec fn key_lead_at(d: Seq<u8>, p: nat, base: Lead) -> core::result::Result<
    (Lead, nat),
    Error,
> {
    let sync = wrong_at(d, p + 24, coding::take_bits(d, p, 24) != SYNC_CODE, Error::BadSyncCode);
    let (format, wrong, p1) = format_at(d, p + 24, base.profile);
    if sync is Some {
        Err(sync.unwrap())
    } else if wrong is Some {
        Err(wrong.unwrap())
    } else {
        Ok(
            (
                Lead { format, width: size_at(d, p1).0, height: size_at(d, p1).1, ..base },
                after_render_size(d, p1 + 32),
            ),
        )
    }
}

/// The part of the lead of an intra-only frame from its sync code at `p` on. In
/// profile 0 the colour format is fixed.
#[verifier::opaque]
pub open spec fn intra_lead_at(d: Seq<u8>, p: nat, base: Lead) -> core::result::Result<
    (Lead, nat),
    Error,
> {
    let sync = wrong_at(d, p + 24, coding::take_bits(d, p, 24) != SYNC_CODE, Error::BadSyncCode);
    let (format, wrong, p1) = if base.profile > 0 {
        format_at(d, p + 24, base.profile)
    } else {
        (
            Format { bit_depth: 8, color_space: 1, subsampling_x: 1, subsampling_y: 1 },
            None,
            p + 24,
        )
    };
    if sync is Some {
        Err(sync.unwrap())
    } else if wrong is Some {
        Err(wrong.unwrap())
    } else {
        Ok(
            (
                Lead {
                    format,
                    refresh_flags: coding::take_bits(d, p1, 8),
                    width: size_at(d, p1 + 8).0,
                    height: size_at(d, p1 + 8).1,
                    ..base
                },
                after_render_size(d, p1 + 40),
            ),
        )
    }
}

/// The part of the lead of an inter frame from its refresh flags at `p` on.
#[verifier::opaque]
pub open spec fn inter_lead_at(
    d: Seq<u8>,
    p: nat,
    base: Lead,
    sizes: Seq<(u32, u32)>,
) -> (Lead, nat) {
    let refs = Seq::new(3, |i: int| coding::take_bits(d, (p + 8 + 4 * i) as nat, 3));
    let signs = Seq::new(3, |i: int| set_at(d, (p + 11 + 4 * i) as nat));
    let (width, height, p1) = size_with_refs_at(d, p + 20, refs, sizes);
    let p2 = after_render_size(d, p1);
    let (filter, p3) = filter_at(d, p2 + 1);
    (
        Lead {
            refresh_flags: coding::take_bits(d, p, 8),
            refs,
            signs,
            width,
            height,
            hp: set_at(d, p2),
            filter,
            ..base
        },
        p3,
    )
}

/// The lead at `p`, or what is wrong with it.
#[verifier::opaque]
pub open spec fn lead_at(d: Seq<u8>, p: nat, sizes: Seq<(u32, u32)>) -> core::result::Result<
    (Lead, nat),
    Error,
> {
    let marker = wrong_at(
        d,
        p + 2,
        coding::take_bits(d, p, 2) != FRAME_MARKER,
        Error::BadFrameMarker,
    );
    let profile = coding::data_bit(d, p + 2) + 2 * coding::data_bit(d, p + 3);
    let reserved = if profile == 3 {
        wrong_at(d, p + 5, set_at(d, p + 4), Error::ReservedBit)
    } else {
        None
    };
    let p1 = if profile == 3 {
        p + 5
    } else {
        p + 4
    };
    let shown = Lead {
        profile,
        show_existing: true,
        frame_to_show: coding::take_bits(d, p1 + 1, 3),
        ..blank_lead()
    };
    let key = !set_at(d, p1 + 1);
    let show = set_at(d, p1 + 2);
    let resilient = set_at(d, p1 + 3);
    let intra_only = !key && !show && set_at(d, p1 + 4);
    let p2 = if show {
        p1 + 4
    } else {
        p1 + 5
    };
    let p3 = if resilient {
        p2
    } else {
        p2 + 2
    };
    let reset_context = if key || resilient {
        0
    } else {
        coding::take_bits(d, p2, 2)
    };
    let base = Lead { profile, key, show, resilient, intra_only, reset_context, ..blank_lead() };
    if marker is Some {
        Err(marker.unwrap())
    } else if reserved is Some {
        Err(reserved.unwrap())
    } else if set_at(d, p1) {
        Ok((shown, p1 + 4))
    } else if key {
        key_lead_at(d, p1 + 4, base)
    } else if intra_only {
        intra_lead_at(d, p3, base)
    } else {
        Ok(inter_lead_at(d, p3, base, sizes))
    }
}

/// Where the header at `p` ends, or what is wrong with it.
pub open spec fn header_end(d: Seq<u8>, p: nat, sizes: Seq<(u32, u32)>) -> core::result::Result<
    nat,
    Error,
> {
    match lead_at(d, p, sizes) {
        Err(e) => Err(e),
        Ok((lead, q)) => {
            let end = if lead.show_existing {
                q
            } else {
                tail_at(d, q, lead.resilient, lead.width).1
            };
            if end > 8 * d.len() {
                Err(Error::PastEnd)
            } else {
                Ok(end)
            }
        },
    }
}

// ---------------------------------------------------------------------------
// What a header says
// ---------------------------------------------------------------------------

/// `v`, or `default` if there is none.
pub open spec fn or_else(v: Option<int>, default: int) -> int {
    match v {
        Some(x) => x,
        None => default,
    }
}

impl FrameHeader {
    /// The header says what `l` says.
    pub open spec fn says_lead(&self, l: Lead) -> bool {
        &&& self.profile == l.profile
        &&& self.show_existing_frame == l.show_existing
        &&& self.frame_to_show == l.frame_to_show
        &&& self.key_frame == l.key
        &&& self.show_frame == l.show
        &&& self.error_resilient == l.resilient
        &&& self.intra_only == l.intra_only
        &&& self.reset_frame_context == l.reset_context
        &&& self.refresh_frame_flags == l.refresh_flags
        &&& l.refs.len() == 3
        &&& forall|i: int| 0 <= i < 3 ==> #[trigger] self.ref_frame_idx[i] == l.refs[i]
        &&& self.ref_sign_bias@ == l.signs
        &&& self.allow_high_precision_mv == l.hp
        &&& self.interp_filter == l.filter
        &&& self.bit_depth == l.format.bit_depth
        &&& self.color_space == l.format.color_space
        &&& self.subsampling_x == l.format.subsampling_x
        &&& self.subsampling_y == l.format.subsampling_y
        &&& self.width == l.width
        &&& self.height == l.height
        &&& self.sized == (l.width > 0 && l.height > 0)
    }

    /// The header says what `m` says of the loop filter.
    pub open spec fn says_lf(&self, m: LoopFilter) -> bool {
        &&& self.loop_filter_level == m.level
        &&& self.loop_filter_sharpness == m.sharpness
        &&& self.lf_delta_enabled == m.delta_enabled
        &&& m.updates.len() == 6
        &&& forall|i: int|
            0 <= i < 4 ==> #[trigger] self.lf_ref_delta_updated[i] == (m.updates[i] is Some)
        &&& forall|i: int|
            0 <= i < 4 ==> #[trigger] self.lf_ref_deltas[i] == or_else(
                m.updates[i],
                LF_REF_DELTA_DEFAULTS[i] as int,
            )
        &&& forall|i: int|
            0 <= i < 2 ==> #[trigger] self.lf_mode_delta_updated[i] == (m.updates[i + 4] is Some)
        &&& forall|i: int|
            0 <= i < 2 ==> #[trigger] self.lf_mode_deltas[i] == or_else(m.updates[i + 4], 0)
    }

    /// The header says what `m` says of the quantizer.
    pub open spec fn says_quant(&self, m: Quant) -> bool {
        &&& self.base_q_idx == m.base
        &&& self.delta_q_y_dc == m.y_dc
        &&& self.delta_q_uv_dc == m.uv_dc
        &&& self.delta_q_uv_ac == m.uv_ac
        &&& self.lossless == (m.base == 0 && m.y_dc == 0 && m.uv_dc == 0 && m.uv_ac == 0)
    }

    /// The header says what `m` says of the segmentation.
    pub open spec fn says_seg(&self, m: Segmentation) -> bool {
        &&& self.seg_enabled == m.enabled
        &&& self.seg_update_map == m.update_map
        &&& self.seg_temporal_update == m.temporal_update
        &&& self.seg_update_data == m.update_data
        &&& self.seg_abs_delta == m.abs_delta
        &&& m.tree_probs.len() == 7
        &&& m.pred_probs.len() == 3
        &&& m.features.len() == 32
        &&& forall|i: int| 0 <= i < 7 ==> #[trigger] self.seg_tree_probs[i] == m.tree_probs[i]
        &&& forall|i: int| 0 <= i < 3 ==> #[trigger] self.seg_pred_probs[i] == m.pred_probs[i]
        &&& forall|i: int, j: int|
            0 <= i < 8 && 0 <= j < 4 ==> #[trigger] self.seg_feature_enabled[i][j] == (m.features[4
                * i + j] is Some)
        &&& forall|i: int, j: int|
            0 <= i < 8 && 0 <= j < 4 ==> #[trigger] self.seg_feature_data[i][j] == or_else(
                m.features[4 * i + j],
                0,
            )
    }

    /// The header says what `t` says.
    pub open spec fn says_tail(&self, t: Tail) -> bool {
        &&& self.refresh_frame_context == t.refresh_context
        &&& self.frame_parallel_decoding_mode == t.parallel
        &&& self.frame_context_idx == t.context
        &&& self.says_lf(t.lf)
        &&& self.says_quant(t.quant)
        &&& self.says_seg(t.seg)
        &&& self.tile_cols_log2 == t.tile_cols_log2
        &&& self.tile_rows_log2 == t.tile_rows_log2
        &&& self.header_size == t.header_size
    }

    /// The header says nothing that belongs to a tail.
    pub open spec fn no_tail(&self) -> bool {
        &&& !self.refresh_frame_context && !self.frame_parallel_decoding_mode
        &&& self.frame_context_idx == 0
        &&& self.loop_filter_level == 0 && self.loop_filter_sharpness == 0
        &&& !self.lf_delta_enabled
        &&& self.lf_ref_delta_updated@ == seq![false, false, false, false]
        &&& self.lf_ref_deltas@ == seq![0i32, 0, 0, 0]
        &&& self.lf_mode_delta_updated@ == seq![false, false]
        &&& self.lf_mode_deltas@ == seq![0i32, 0]
        &&& self.base_q_idx == 0 && self.delta_q_y_dc == 0 && self.delta_q_uv_dc == 0
            && self.delta_q_uv_ac == 0
        &&& !self.lossless
        &&& !self.seg_enabled && !self.seg_update_map && !self.seg_temporal_update
            && !self.seg_update_data && !self.seg_abs_delta
        &&& self.seg_tree_probs@ == seq![0u8, 0, 0, 0, 0, 0, 0]
        &&& self.seg_pred_probs@ == seq![0u8, 0, 0]
        &&& forall|i: int, j: int|
            0 <= i < 8 && 0 <= j < 4 ==> !#[trigger] self.seg_feature_enabled[i][j]
        &&& forall|i: int, j: int|
            0 <= i < 8 && 0 <= j < 4 ==> #[trigger] self.seg_feature_data[i][j] == 0
        &&& self.tile_cols_log2 == 0 && self.tile_rows_log2 == 0
        &&& self.header_size == 0
    }

    /// The header says exactly what the bits from `p` on say.
    pub open spec fn says(&self, d: Seq<u8>, p: nat, sizes: Seq<(u32, u32)>) -> bool {
        match (lead_at(d, p, sizes), header_end(d, p, sizes)) {
            (Ok((lead, q)), Ok(end)) => {
                &&& self.says_lead(lead)
                &&& if lead.show_existing {
                    self.no_tail()
                } else {
                    self.says_tail(tail_at(d, q, lead.resilient, lead.width).0)
                }
                &&& self.uncompressed_bytes == (end + 7) / 8
            },
            _ => false,
        }
    }
}

impl Default for FrameHeader {
    /// A header in which every number is zero and every flag is clear.
    fn default() -> (h: FrameHeader)
        ensures
            h.says_lead(blank_lead()),
            h.no_tail(),
            h.uncompressed_bytes == 0,
    {
        let no: [bool; 4] = [false, false, false, false];
        let zero: [i32; 4] = [0, 0, 0, 0];
        FrameHeader {
            profile: 0,
            show_existing_frame: false,
            frame_to_show: 0,
            key_frame: false,
            show_frame: false,
            error_resilient: false,
            intra_only: false,
            reset_frame_context: 0,
            refresh_frame_flags: 0,
            ref_frame_idx: [0, 0, 0],
            ref_sign_bias: [false, false, false],
            allow_high_precision_mv: false,
            interp_filter: 0,
            bit_depth: 0,
            color_space: 0,
            subsampling_x: 0,
            subsampling_y: 0,
            width: 0,
            height: 0,
            sized: false,
            refresh_frame_context: false,
            frame_parallel_decoding_mode: false,
            frame_context_idx: 0,
            loop_filter_level: 0,
            loop_filter_sharpness: 0,
            lf_delta_enabled: false,
            lf_ref_delta_updated: no,
            lf_ref_deltas: zero,
            lf_mode_delta_updated: [false, false],
            lf_mode_deltas: [0, 0],
            base_q_idx: 0,
            delta_q_y_dc: 0,
            delta_q_uv_dc: 0,
            delta_q_uv_ac: 0,
            lossless: false,
            seg_enabled: false,
            seg_update_map: false,
            seg_temporal_update: false,
            seg_update_data: false,
            seg_abs_delta: false,
            seg_tree_probs: [0, 0, 0, 0, 0, 0, 0],
            seg_pred_probs: [0, 0, 0],
            seg_feature_enabled: [no, no, no, no, no, no, no, no],
            seg_feature_data: [zero, zero, zero, zero, zero, zero, zero, zero],
            tile_cols_log2: 0,
            tile_rows_log2: 0,
            header_size: 0,
            uncompressed_bytes: 0,
        }
    }
}

// ---------------------------------------------------------------------------
// Reading
// ---------------------------------------------------------------------------

/// `s` has read on from `p` to `end` in the same data as before.
spec fn moved(before: &Scan, after: &Scan, end: nat) -> bool {
    &&& after.wf()
    &&& after.data() == before.data()
    &&& after.at() == end
}

fn read_opt_signed(s: &mut Scan, n: u32) -> (r: Option<i32>)
    requires
        old(s).wf(),
        n <= 30,
    ensures
        moved(old(s), final(s), opt_signed_at(old(s).data(), old(s).at(), n as nat).1),
        match r {
            Some(v) => opt_signed_at(old(s).data(), old(s).at(), n as nat).0 == Some(v as int),
            None => opt_signed_at(old(s).data(), old(s).at(), n as nat).0 is None,
        },
{
    if s.bit() {
        Some(s.sint(n))
    } else {
        None
    }
}

fn read_loop_filter(s: &mut Scan, h: &mut FrameHeader)
    requires
        old(s).wf(),
    ensures
        moved(old(s), final(s), loop_filter_at(old(s).data(), old(s).at()).1),
        final(h).says_lf(loop_filter_at(old(s).data(), old(s).at()).0),
        *final(h) == (FrameHeader {
            loop_filter_level: final(h).loop_filter_level,
            loop_filter_sharpness: final(h).loop_filter_sharpness,
            lf_delta_enabled: final(h).lf_delta_enabled,
            lf_ref_delta_updated: final(h).lf_ref_delta_updated,
            lf_ref_deltas: final(h).lf_ref_deltas,
            lf_mode_delta_updated: final(h).lf_mode_delta_updated,
            lf_mode_deltas: final(h).lf_mode_deltas,
            ..*old(h)
        }),
{
    proof {
        reveal(loop_filter_at);
    }
    let ghost d = s.data();
    let ghost p = s.at();
    proof {
        lemma2_to64();
    }
    let level: u32 = s.uint(6);
    let sharpness: u32 = s.uint(3);
    let enabled: bool = s.bit();
    let mut ref_updated: [bool; 4] = [false, false, false, false];
    let mut ref_deltas: [i32; 4] = [1, 0, -1, -1];
    let mut mode_updated: [bool; 2] = [false, false];
    let mut mode_deltas: [i32; 2] = [0, 0];
    if enabled && s.bit() {
        let ghost q = s.at();
        let mut i: usize = 0;
        while i < 4
            invariant
                i <= 4,
                s.wf(),
                s.data() == d,
                s.at() == opt_signeds_at(d, q, 6, i as nat).1,
                opt_signeds_at(d, q, 6, i as nat).0.len() == i,
                forall|j: int|
                    0 <= j < i ==> #[trigger] ref_updated[j] == (opt_signeds_at(
                        d,
                        q,
                        6,
                        i as nat,
                    ).0[j] is Some),
                forall|j: int|
                    0 <= j < i ==> #[trigger] ref_deltas[j] == or_else(
                        opt_signeds_at(d, q, 6, i as nat).0[j],
                        LF_REF_DELTA_DEFAULTS[j] as int,
                    ),
                forall|j: int|
                    i <= j < 4 ==> !#[trigger] ref_updated[j],
                forall|j: int|
                    i <= j < 4 ==> #[trigger] ref_deltas[j] == LF_REF_DELTA_DEFAULTS[j],
            decreases 4 - i,
        {
            match read_opt_signed(s, 6) {
                Some(v) => {
                    ref_updated[i] = true;
                    ref_deltas[i] = v;
                },
                None => {},
            }
            i = i + 1;
        }
        let mut k: usize = 0;
        while k < 2
            invariant
                k <= 2,
                s.wf(),
                s.data() == d,
                s.at() == opt_signeds_at(d, q, 6, (k + 4) as nat).1,
                opt_signeds_at(d, q, 6, (k + 4) as nat).0.len() == k + 4,
                forall|j: int|
                    0 <= j < 4 ==> #[trigger] ref_updated[j] == (opt_signeds_at(
                        d,
                        q,
                        6,
                        (k + 4) as nat,
                    ).0[j] is Some),
                forall|j: int|
                    0 <= j < 4 ==> #[trigger] ref_deltas[j] == or_else(
                        opt_signeds_at(d, q, 6, (k + 4) as nat).0[j],
                        LF_REF_DELTA_DEFAULTS[j] as int,
                    ),
                forall|j: int|
                    0 <= j < k ==> #[trigger] mode_updated[j] == (opt_signeds_at(
                        d,
                        q,
                        6,
                        (k + 4) as nat,
                    ).0[j + 4] is Some),
                forall|j: int|
                    0 <= j < k ==> #[trigger] mode_deltas[j] == or_else(
                        opt_signeds_at(d, q, 6, (k + 4) as nat).0[j + 4],
                        0,
                    ),
                forall|j: int|
                    k <= j < 2 ==> !#[trigger] mode_updated[j],
                forall|j: int|
                    k <= j < 2 ==> #[trigger] mode_deltas[j] == 0,
            decreases 2 - k,
        {
            match read_opt_signed(s, 6) {
                Some(v) => {
                    mode_updated[k] = true;
                    mode_deltas[k] = v;
                },
                None => {},
            }
            k = k + 1;
            assert((k + 4) as nat - 1 == (k - 1) + 4);
        }
    }
    *h = FrameHeader {
        loop_filter_level: level,
        loop_filter_sharpness: sharpness,
        lf_delta_enabled: enabled,
        lf_ref_delta_updated: ref_updated,
        lf_ref_deltas: ref_deltas,
        lf_mode_delta_updated: mode_updated,
        lf_mode_deltas: mode_deltas,
        ..*h
    };
}

fn read_delta_q(s: &mut Scan) -> (r: i32)
    requires
        old(s).wf(),
    ensures
        moved(old(s), final(s), delta_q_at(old(s).data(), old(s).at()).1),
        r == delta_q_at(old(s).data(), old(s).at()).0,
{
    match read_opt_signed(s, 4) {
        Some(v) => v,
        None => 0,
    }
}

fn read_quant(s: &mut Scan, h: &mut FrameHeader)
    requires
        old(s).wf(),
    ensures
        moved(old(s), final(s), quant_at(old(s).data(), old(s).at()).1),
        final(h).says_quant(quant_at(old(s).data(), old(s).at()).0),
        *final(h) == (FrameHeader {
            base_q_idx: final(h).base_q_idx,
            delta_q_y_dc: final(h).delta_q_y_dc,
            delta_q_uv_dc: final(h).delta_q_uv_dc,
            delta_q_uv_ac: final(h).delta_q_uv_ac,
            lossless: final(h).lossless,
            ..*old(h)
        }),
{
    proof {
        reveal(quant_at);
    }
    let base: u32 = s.uint(8);
    let y_dc: i32 = read_delta_q(s);
    let uv_dc: i32 = read_delta_q(s);
    let uv_ac: i32 = read_delta_q(s);
    let lossless: bool = base == 0 && y_dc == 0 && uv_dc == 0 && uv_ac == 0;
    *h = FrameHeader {
        base_q_idx: base,
        delta_q_y_dc: y_dc,
        delta_q_uv_dc: uv_dc,
        delta_q_uv_ac: uv_ac,
        lossless,
        ..*h
    };
}

/// Reads optional probabilities into `probs`.
fn read_opt_probs(s: &mut Scan, probs: &mut [u8])
    requires
        old(s).wf(),
    ensures
        moved(
            old(s),
            final(s),
            opt_probs_at(old(s).data(), old(s).at(), old(probs)@.len()).1,
        ),
        final(probs)@.len() == old(probs)@.len(),
        opt_probs_at(old(s).data(), old(s).at(), old(probs)@.len()).0.len() == old(probs)@.len(),
        forall|j: int|
            0 <= j < old(probs)@.len() ==> #[trigger] final(probs)@[j] == opt_probs_at(
                old(s).data(),
                old(s).at(),
                old(probs)@.len(),
            ).0[j],
{
    let ghost d = s.data();
    let ghost p = s.at();
    let n: usize = probs.len();
    let mut i: usize = 0;
    while i < n
        invariant
            i <= n,
            n == probs@.len(),
            n == old(probs)@.len(),
            s.wf(),
            s.data() == d,
            s.at() == opt_probs_at(d, p, i as nat).1,
            opt_probs_at(d, p, i as nat).0.len() == i,
            forall|j: int|
                0 <= j < i ==> #[trigger] probs@[j] == opt_probs_at(d, p, i as nat).0[j],
        decreases n - i,
    {
        proof {
            lemma2_to64();
        }
        let v: u8 = if s.bit() {
            s.uint(8) as u8
        } else {
            255
        };
        probs[i] = v;
        i = i + 1;
    }
}

fn read_feature(s: &mut Scan, j: usize) -> (r: Option<i32>)
    requires
        old(s).wf(),
        j < 4,
    ensures
        moved(old(s), final(s), feature_at(old(s).data(), old(s).at(), j as int).1),
        match r {
            Some(v) => feature_at(old(s).data(), old(s).at(), j as int).0 == Some(v as int),
            None => feature_at(old(s).data(), old(s).at(), j as int).0 is None,
        },
{
    if !s.bit() {
        return None;
    }
    let n: u32 = SEG_FEATURE_BITS[j];
    assert(n <= 8);
    proof {
        lemma2_to64();
        if n < 8 {
            lemma_pow2_strictly_increases(n as nat, 8);
        }
    }
    if SEG_FEATURE_SIGNED[j] {
        Some(s.sint(n))
    } else {
        Some(s.uint(n) as i32)
    }
}

/// The features of all segments: which there are, and their values.
fn read_features(s: &mut Scan) -> (r: ([[bool; 4]; 8], [[i32; 4]; 8]))
    requires
        old(s).wf(),
    ensures
        moved(old(s), final(s), features_at(old(s).data(), old(s).at(), 32).1),
        features_at(old(s).data(), old(s).at(), 32).0.len() == 32,
        forall|i: int, j: int|
            0 <= i < 8 && 0 <= j < 4 ==> #[trigger] r.0[i][j] == (features_at(
                old(s).data(),
                old(s).at(),
                32,
            ).0[4 * i + j] is Some),
        forall|i: int, j: int|
            0 <= i < 8 && 0 <= j < 4 ==> #[trigger] r.1[i][j] == or_else(
                features_at(old(s).data(), old(s).at(), 32).0[4 * i + j],
                0,
            ),
{
    let ghost d = s.data();
    let ghost p = s.at();
    let no: [bool; 4] = [false, false, false, false];
    let zero: [i32; 4] = [0, 0, 0, 0];
    let mut enabled: [[bool; 4]; 8] = [no, no, no, no, no, no, no, no];
    let mut data: [[i32; 4]; 8] = [zero, zero, zero, zero, zero, zero, zero, zero];
    let mut k: usize = 0;
    while k < 32
        invariant
            k <= 32,
            s.wf(),
            s.data() == d,
            s.at() == features_at(d, p, k as nat).1,
            features_at(d, p, k as nat).0.len() == k,
            forall|i: int, j: int|
                0 <= i < 8 && 0 <= j < 4 ==> #[trigger] enabled[i][j] == (4 * i + j < k
                    && features_at(d, p, k as nat).0[4 * i + j] is Some),
            forall|i: int, j: int|
                0 <= i < 8 && 0 <= j < 4 ==> #[trigger] data[i][j] == (if 4 * i + j < k {
                    or_else(features_at(d, p, k as nat).0[4 * i + j], 0)
                } else {
                    0
                }),
        decreases 32 - k,
    {
        let (i, j): (usize, usize) = (k / 4, k % 4);
        match read_feature(s, j) {
            Some(v) => {
                enabled[i][j] = true;
                data[i][j] = v;
            },
            None => {},
        }
        k = k + 1;
    }
    (enabled, data)
}

fn read_segmentation(s: &mut Scan, h: &mut FrameHeader)
    requires
        old(s).wf(),
    ensures
        moved(old(s), final(s), segmentation_at(old(s).data(), old(s).at()).1),
        final(h).says_seg(segmentation_at(old(s).data(), old(s).at()).0),
        *final(h) == (FrameHeader {
            seg_enabled: final(h).seg_enabled,
            seg_update_map: final(h).seg_update_map,
            seg_temporal_update: final(h).seg_temporal_update,
            seg_update_data: final(h).seg_update_data,
            seg_abs_delta: final(h).seg_abs_delta,
            seg_tree_probs: final(h).seg_tree_probs,
            seg_pred_probs: final(h).seg_pred_probs,
            seg_feature_enabled: final(h).seg_feature_enabled,
            seg_feature_data: final(h).seg_feature_data,
            ..*old(h)
        }),
{
    proof {
        reveal(segmentation_at);
    }
    let ghost d = s.data();
    let ghost p = s.at();
    let no: [bool; 4] = [false, false, false, false];
    let zero: [i32; 4] = [0, 0, 0, 0];
    let mut tree_probs: [u8; 7] = [255, 255, 255, 255, 255, 255, 255];
    let mut pred_probs: [u8; 3] = [255, 255, 255];
    let mut features: ([[bool; 4]; 8], [[i32; 4]; 8]) = (
        [no, no, no, no, no, no, no, no],
        [zero, zero, zero, zero, zero, zero, zero, zero],
    );
    let mut update_map: bool = false;
    let mut temporal_update: bool = false;
    let mut update_data: bool = false;
    let mut abs_delta: bool = false;
    let enabled: bool = s.bit();
    if enabled {
        update_map = s.bit();
        if update_map {
            read_opt_probs(s, &mut tree_probs);
            temporal_update = s.bit();
            if temporal_update {
                read_opt_probs(s, &mut pred_probs);
            }
        }
        update_data = s.bit();
        if update_data {
            abs_delta = s.bit();
            features = read_features(s);
        }
    }
    *h = FrameHeader {
        seg_enabled: enabled,
        seg_update_map: update_map,
        seg_temporal_update: temporal_update,
        seg_update_data: update_data,
        seg_abs_delta: abs_delta,
        seg_tree_probs: tree_probs,
        seg_pred_probs: pred_probs,
        seg_feature_enabled: features.0,
        seg_feature_data: features.1,
        ..*h
    };
}

/// The bounds on the logarithm of the number of tile columns of a frame that is
/// `width` pixels wide.
pub fn tile_log2_bounds(width: u32) -> (r: (u32, u32))
    requires
        width <= u32::MAX - 7,
    ensures
        r.0 == tile_bounds(width as int).0,
        r.1 == tile_bounds(width as int).1,
        r.0 <= 20,
        r.1 <= 26,
{
    let sb64: u32 = ((width + 7) / 8 + 7) / 8;
    let mut least: u32 = 0;
    let mut tiles: u32 = 64;
    proof {
        lemma2_to64();
    }
    while tiles < sb64
        invariant
            sb64 == sb64_cols(width as int),
            sb64 <= 0x400_0000,
            least <= 20,
            64 <= tiles,
            tiles == 64 * pow2(least as nat),
            min_tile_log2(sb64 as nat, least as nat) == min_tile_log2(sb64 as nat, 0),
        decreases 0x800_0000 - tiles,
    {
        proof {
            lemma_pow2_unfold((least + 1) as nat);
            if least == 20 {
                lemma2_to64();
            }
        }
        least = least + 1;
        tiles = tiles * 2;
    }
    let mut most: u32 = 1;
    let mut cols: u32 = sb64 / 2;
    while cols >= 4
        invariant
            sb64 == sb64_cols(width as int),
            sb64 <= 0x400_0000,
            1 <= most <= 27,
            cols == sb64 as nat / pow2(most as nat),
            max_tile_log2(sb64 as nat, most as nat) == max_tile_log2(sb64 as nat, 1),
        decreases cols,
    {
        proof {
            lemma_pow2_unfold((most + 1) as nat);
            lemma_pow2_pos(most as nat);
            vstd::arithmetic::div_mod::lemma_div_denominator(
                sb64 as int,
                pow2(most as nat) as int,
                2,
            );
            vstd::arithmetic::mul::lemma_mul_is_commutative(pow2(most as nat) as int, 2);
            if most == 27 {
                lemma2_to64();
                assert(sb64 as nat / 0x800_0000nat == 0);
            }
        }
        most = most + 1;
        cols = cols / 2;
    }
    (least, most - 1)
}

fn read_tile_info(s: &mut Scan, width: u32) -> (r: (u32, u32))
    requires
        old(s).wf(),
        width <= u32::MAX - 7,
    ensures
        ({
            let b = tile_bounds(width as int);
            let (cols, p) = tile_cols_at(old(s).data(), old(s).at(), b.0, b.1);
            let rows0 = set_at(old(s).data(), p);
            &&& r.0 == cols
            &&& r.1 == (if !rows0 {
                0int
            } else if set_at(old(s).data(), p + 1) {
                2
            } else {
                1
            })
            &&& moved(
                old(s),
                final(s),
                if rows0 {
                    p + 2
                } else {
                    p + 1
                },
            )
        }),
{
    let ghost d = s.data();
    let (least, most): (u32, u32) = tile_log2_bounds(width);
    let mut cols: u32 = least;
    let mut more: bool = true;
    let ghost goal = tile_cols_at(d, s.at(), least as nat, most as nat);
    while more && cols < most
        invariant
            s.wf(),
            s.data() == d,
            most <= 26,
            more ==> tile_cols_at(d, s.at(), cols as nat, most as nat) == goal,
            !more ==> goal == (cols as nat, s.at()),
        decreases
                most - cols + (if more {
                    1int
                } else {
                    0
                }),
    {
        if s.bit() {
            cols = cols + 1;
        } else {
            more = false;
        }
    }
    let mut rows: u32 = 0;
    if s.bit() {
        rows = 1;
        if s.bit() {
            rows = 2;
        }
    }
    (cols, rows)
}

/// The error for everything read so far: the end was passed, or `bad` holds.
fn check(s: &Scan, bad: bool, e: Error) -> (r: Option<Error>)
    requires
        s.wf(),
    ensures
        r == wrong_at(s.data(), s.at(), bad, e),
{
    if s.ended() {
        Some(Error::PastEnd)
    } else if bad {
        Some(e)
    } else {
        None
    }
}

fn read_format(s: &mut Scan, h: &mut FrameHeader) -> (r: Option<Error>)
    requires
        old(s).wf(),
        old(h).profile <= 3,
    ensures
        ({
            let (f, wrong, end) = format_at(old(s).data(), old(s).at(), old(h).profile as int);
            &&& r == wrong
            &&& moved(old(s), final(s), end)
            &&& final(h).bit_depth == f.bit_depth
            &&& final(h).color_space == f.color_space
            &&& final(h).subsampling_x == f.subsampling_x
            &&& final(h).subsampling_y == f.subsampling_y
        }),
        *final(h) == (FrameHeader {
            bit_depth: final(h).bit_depth,
            color_space: final(h).color_space,
            subsampling_x: final(h).subsampling_x,
            subsampling_y: final(h).subsampling_y,
            ..*old(h)
        }),
{
    proof {
        reveal(format_at);
    }
    let profile: u32 = h.profile;
    let odd: bool = profile == 1 || profile == 3;
    let mut bit_depth: u32 = 8;
    if profile >= 2 {
        bit_depth = if s.bit() {
            12
        } else {
            10
        };
    }
    let color_space: u32 = s.uint(3);
    let mut subsampling: (u32, u32) = (0, 0);
    let mut wrong: Option<Error> = None;
    if color_space != CS_RGB {
        let _range: bool = s.bit();
        if odd {
            let x: bool = s.bit();
            let y: bool = s.bit();
            subsampling = (
                if x {
                    1
                } else {
                    0
                },
                if y {
                    1
                } else {
                    0
                },
            );
            let reserved: bool = s.bit();
            wrong = check(s, reserved, Error::ReservedBit);
        } else {
            subsampling = (1, 1);
        }
    } else if odd {
        let reserved: bool = s.bit();
        wrong = check(s, reserved, Error::ReservedBit);
    } else {
        wrong = check(s, true, Error::UnsupportedFormat);
    }
    *h = FrameHeader {
        bit_depth,
        color_space,
        subsampling_x: subsampling.0,
        subsampling_y: subsampling.1,
        ..*h
    };
    wrong
}

/// Reads a frame size.
fn read_size(s: &mut Scan) -> (r: (u32, u32))
    requires
        old(s).wf(),
    ensures
        moved(old(s), final(s), old(s).at() + 32),
        r.0 == size_at(old(s).data(), old(s).at()).0,
        r.1 == size_at(old(s).data(), old(s).at()).1,
        1 <= r.0 <= 65536,
        1 <= r.1 <= 65536,
{
    proof {
        lemma2_to64();
    }
    let w: u32 = s.uint(16);
    let h: u32 = s.uint(16);
    (w + 1, h + 1)
}

/// Reads past the display size.
fn skip_render_size(s: &mut Scan)
    requires
        old(s).wf(),
    ensures
        moved(old(s), final(s), after_render_size(old(s).data(), old(s).at())),
{
    if s.bit() {
        let _w: u32 = s.uint(16);
        let _h: u32 = s.uint(16);
    }
}

/// Reads the rest of the lead of a key frame.
fn read_key_lead(s: &mut Scan, h: &mut FrameHeader, Ghost(base): Ghost<Lead>) -> (r: Option<Error>)
    requires
        old(s).wf(),
        old(h).says_lead(base),
        old(h).profile <= 3,
    ensures
        match key_lead_at(old(s).data(), old(s).at(), base) {
            Ok((lead, end)) => r is None && moved(old(s), final(s), end) && final(h).says_lead(lead)
                && lead.width <= 65536 && lead.show_existing == base.show_existing
                && lead.resilient == base.resilient,
            Err(e) => r == Some(e),
        },
{
    proof {
        reveal(key_lead_at);
    }
    let sync: u32 = s.uint(24);
    let wrong: Option<Error> = check(s, sync != SYNC_CODE, Error::BadSyncCode);
    if wrong.is_some() {
        return wrong;
    }
    let wrong: Option<Error> = read_format(s, h);
    if wrong.is_some() {
        return wrong;
    }
    let (width, height): (u32, u32) = read_size(s);
    skip_render_size(s);
    *h = FrameHeader { width, height, sized: true, ..*h };
    None
}

/// Reads the rest of the lead of an intra-only frame.
fn read_intra_lead(s: &mut Scan, h: &mut FrameHeader, Ghost(base): Ghost<Lead>) -> (r: Option<
    Error,
>)
    requires
        old(s).wf(),
        old(h).says_lead(base),
        old(h).profile <= 3,
    ensures
        match intra_lead_at(old(s).data(), old(s).at(), base) {
            Ok((lead, end)) => r is None && moved(old(s), final(s), end) && final(h).says_lead(lead)
                && lead.width <= 65536 && lead.show_existing == base.show_existing
                && lead.resilient == base.resilient,
            Err(e) => r == Some(e),
        },
{
    proof {
        reveal(intra_lead_at);
    }
    let sync: u32 = s.uint(24);
    let wrong: Option<Error> = check(s, sync != SYNC_CODE, Error::BadSyncCode);
    if wrong.is_some() {
        return wrong;
    }
    if h.profile > 0 {
        let wrong: Option<Error> = read_format(s, h);
        if wrong.is_some() {
            return wrong;
        }
    } else {
        *h = FrameHeader { bit_depth: 8, color_space: 1, subsampling_x: 1, subsampling_y: 1, ..*h };
    }
    let refresh: u32 = s.uint(8);
    let (width, height): (u32, u32) = read_size(s);
    skip_render_size(s);
    *h = FrameHeader { refresh_frame_flags: refresh, width, height, sized: true, ..*h };
    None
}

/// Reads the three references and their signs.
fn read_refs(s: &mut Scan) -> (r: ([usize; 3], [bool; 3]))
    requires
        old(s).wf(),
    ensures
        moved(old(s), final(s), old(s).at() + 12),
        forall|i: int|
            0 <= i < 3 ==> #[trigger] r.0[i] == coding::take_bits(
                old(s).data(),
                (old(s).at() + 4 * i) as nat,
                3,
            ) && r.0[i] < 8,
        forall|i: int|
            0 <= i < 3 ==> #[trigger] r.1[i] == set_at(
                old(s).data(),
                (old(s).at() + 3 + 4 * i) as nat,
            ),
{
    let ghost d = s.data();
    let ghost p = s.at();
    let mut refs: [usize; 3] = [0, 0, 0];
    let mut signs: [bool; 3] = [false, false, false];
    let mut i: usize = 0;
    while i < 3
        invariant
            i <= 3,
            s.wf(),
            s.data() == d,
            s.at() == p + 4 * i,
            forall|j: int|
                0 <= j < i ==> #[trigger] refs[j] == coding::take_bits(d, (p + 4 * j) as nat, 3)
                    && refs[j] < 8,
            forall|j: int|
                0 <= j < i ==> #[trigger] signs[j] == set_at(d, (p + 3 + 4 * j) as nat),
        decreases 3 - i,
    {
        proof {
            lemma2_to64();
        }
        let idx: u32 = s.uint(3);
        refs[i] = idx as usize;
        signs[i] = s.bit();
        i = i + 1;
    }
    (refs, signs)
}

/// Reads the size of an inter frame, which may be that of a reference.
fn read_size_with_refs(s: &mut Scan, refs: &[usize; 3], sizes: &[(u32, u32); 8]) -> (r: (u32, u32))
    requires
        old(s).wf(),
        forall|i: int| 0 <= i < 3 ==> #[trigger] refs@[i] < 8,
    ensures
        ({
            let (w, h, end) = size_with_refs_at(
                old(s).data(),
                old(s).at(),
                refs@.map_values(|x: usize| x as int),
                sizes@,
            );
            &&& r.0 == w
            &&& r.1 == h
            &&& moved(old(s), final(s), end)
            &&& r.0 <= 65536 || exists|i: int| 0 <= i < 8 && r == #[trigger] sizes@[i]
        }),
{
    let ghost all = refs@.map_values(|x: usize| x as int);
    assert(all[0] == refs@[0] && all[1] == refs@[1] && all[2] == refs@[2]);
    if s.bit() {
        sizes[refs[0]]
    } else if s.bit() {
        sizes[refs[1]]
    } else if s.bit() {
        sizes[refs[2]]
    } else {
        read_size(s)
    }
}

/// Reads the interpolation filter.
fn read_filter(s: &mut Scan) -> (r: u32)
    requires
        old(s).wf(),
    ensures
        r == filter_at(old(s).data(), old(s).at()).0,
        moved(old(s), final(s), filter_at(old(s).data(), old(s).at()).1),
{
    proof {
        lemma2_to64();
    }
    if s.bit() {
        4
    } else {
        LITERAL_TO_FILTER[s.uint(2) as usize]
    }
}

/// Reads the rest of the lead of an inter frame.
fn read_inter_lead(
    s: &mut Scan,
    h: &mut FrameHeader,
    sizes: &[(u32, u32); 8],
    Ghost(base): Ghost<Lead>,
)
    requires
        old(s).wf(),
        old(h).says_lead(base),
        forall|i: int| 0 <= i < 8 ==> (#[trigger] sizes@[i]).0 <= u32::MAX - 7,
    ensures
        ({
            let (lead, end) = inter_lead_at(old(s).data(), old(s).at(), base, sizes@);
            &&& moved(old(s), final(s), end)
            &&& final(h).says_lead(lead)
            &&& lead.width <= u32::MAX - 7
            &&& lead.show_existing == base.show_existing
            &&& lead.resilient == base.resilient
        }),
{
    proof {
        reveal(inter_lead_at);
    }
    let ghost lead = inter_lead_at(s.data(), s.at(), base, sizes@).0;
    let refresh: u32 = s.uint(8);
    let (refs, signs): ([usize; 3], [bool; 3]) = read_refs(s);
    assert(refs@.map_values(|x: usize| x as int) =~= lead.refs);
    assert(signs@ =~= lead.signs);
    let (width, height): (u32, u32) = read_size_with_refs(s, &refs, sizes);
    skip_render_size(s);
    let hp: bool = s.bit();
    let filter: u32 = read_filter(s);
    *h = FrameHeader {
        refresh_frame_flags: refresh,
        ref_frame_idx: refs,
        ref_sign_bias: signs,
        width,
        height,
        sized: width > 0 && height > 0,
        allow_high_precision_mv: hp,
        interp_filter: filter,
        ..*h
    };
    assert forall|i: int| 0 <= i < 3 implies #[trigger] h.ref_frame_idx[i] == lead.refs[i] by {
        assert(lead.refs[i] == refs@.map_values(|x: usize| x as int)[i]);
    }
}

/// Reads the tail.
fn read_tail(s: &mut Scan, h: &mut FrameHeader, Ghost(lead): Ghost<Lead>)
    requires
        old(s).wf(),
        old(h).says_lead(lead),
        lead.width <= u32::MAX - 7,
    ensures
        ({
            let (tail, end) = tail_at(old(s).data(), old(s).at(), lead.resilient, lead.width);
            &&& moved(old(s), final(s), end)
            &&& final(h).says_lead(lead)
            &&& final(h).says_tail(tail)
        }),
{
    proof {
        reveal(tail_at);
    }
    let mut refresh: bool = false;
    let mut parallel: bool = true;
    if !h.error_resilient {
        refresh = s.bit();
        parallel = s.bit();
    }
    let context: u32 = s.uint(2);
    read_loop_filter(s, h);
    read_quant(s, h);
    read_segmentation(s, h);
    let (cols, rows): (u32, u32) = read_tile_info(s, h.width);
    let size: u32 = s.uint(16);
    *h = FrameHeader {
        refresh_frame_context: refresh,
        frame_parallel_decoding_mode: parallel,
        frame_context_idx: context,
        tile_cols_log2: cols,
        tile_rows_log2: rows,
        header_size: size,
        ..*h
    };
}

/// Reads the lead into a blank header.
fn read_lead(s: &mut Scan, h: &mut FrameHeader, sizes: &[(u32, u32); 8]) -> (r: Option<Error>)
    requires
        old(s).wf(),
        old(h).says_lead(blank_lead()),
        old(h).no_tail(),
        forall|i: int| 0 <= i < 8 ==> (#[trigger] sizes@[i]).0 <= u32::MAX - 7,
    ensures
        match lead_at(old(s).data(), old(s).at(), sizes@) {
            Ok((lead, end)) => r is None && moved(old(s), final(s), end) && final(h).says_lead(lead)
                && lead.width <= u32::MAX - 7 && (lead.show_existing ==> final(h).no_tail()),
            Err(e) => r == Some(e),
        },
{
    proof {
        reveal(lead_at);
    }
    let marker: u32 = s.uint(2);
    let wrong: Option<Error> = check(s, marker != FRAME_MARKER, Error::BadFrameMarker);
    if wrong.is_some() {
        return wrong;
    }
    let low: bool = s.bit();
    let high: bool = s.bit();
    let profile: u32 = (if low {
        1
    } else {
        0
    }) + (if high {
        2
    } else {
        0
    });
    if profile == 3 {
        let reserved: bool = s.bit();
        let wrong: Option<Error> = check(s, reserved, Error::ReservedBit);
        if wrong.is_some() {
            return wrong;
        }
    }
    if s.bit() {
        let frame: u32 = s.uint(3);
        *h = FrameHeader { profile, show_existing_frame: true, frame_to_show: frame, ..*h };
        return None;
    }
    let key_frame: bool = !s.bit();
    let show_frame: bool = s.bit();
    let error_resilient: bool = s.bit();
    let mut intra_only: bool = false;
    let mut reset: u32 = 0;
    if !key_frame {
        if !show_frame {
            intra_only = s.bit();
        }
        if !error_resilient {
            reset = s.uint(2);
        }
    }
    *h = FrameHeader {
        profile,
        key_frame,
        show_frame,
        error_resilient,
        intra_only,
        reset_frame_context: reset,
        ..*h
    };
    let ghost base = Lead {
        profile: profile as int,
        key: key_frame,
        show: show_frame,
        resilient: error_resilient,
        intra_only,
        reset_context: reset as int,
        ..blank_lead()
    };
    assert(h.says_lead(base));
    if key_frame {
        read_key_lead(s, h, Ghost(base))
    } else if intra_only {
        read_intra_lead(s, h, Ghost(base))
    } else {
        read_inter_lead(s, h, sizes, Ghost(base));
        None
    }
}

/// Reads the uncompressed header of a frame. `sizes` holds the sizes of the frames
/// that are kept, one of which an inter frame may take over.
pub fn parse_uncompressed_header(r: &mut BitReader, sizes: &[(u32, u32); 8]) -> (res: Result<
    FrameHeader,
>)
    requires
        old(r).wf(),
        forall|i: int| 0 <= i < 8 ==> (#[trigger] sizes@[i]).0 <= u32::MAX - 7,
    ensures
        final(r).wf(),
        final(r).data() == old(r).data(),
        match res {
            Ok(h) => h.says(old(r).data(), old(r).pos(), sizes@) && header_end(
                old(r).data(),
                old(r).pos(),
                sizes@,
            ) == Ok::<nat, Error>(final(r).pos()),
            Err(e) => header_end(old(r).data(), old(r).pos(), sizes@) == Err::<nat, Error>(e),
        },
{
    let ghost d = r.data();
    let ghost p = r.pos();
    let mut scan: Scan = Scan::new(r);
    let mut h: FrameHeader = FrameHeader::default();
    if let Some(e) = read_lead(&mut scan, &mut h, sizes) {
        return Err(e);
    }
    if !h.show_existing_frame {
        let ghost lead = lead_at(d, p, sizes@).unwrap().0;
        read_tail(&mut scan, &mut h, Ghost(lead));
    }
    if scan.ended() {
        return Err(Error::PastEnd);
    }
    r.follow(&scan);
    let bits: usize = r.bit_pos();
    let bytes: usize = bits / 8 + if bits % 8 == 0 {
        0
    } else {
        1
    };
    h = FrameHeader { uncompressed_bytes: bytes, ..h };
    Ok(h)
}

proof fn lemma_fewest_tiles(sb64: nat, log2: nat)
    requires
        log2 > 0 ==> 64 * pow2((log2 - 1) as nat) < sb64,
    ensures
        ({
            let n = min_tile_log2(sb64, log2);
            &&& n >= log2
            &&& sb64 <= 64 * pow2(n)
            &&& n > 0 ==> 64 * pow2((n - 1) as nat) < sb64
        }),
    decreases
            if 64 * pow2(log2) < sb64 {
                sb64 - 64 * pow2(log2)
            } else {
                0
            },
{
    if 64 * pow2(log2) < sb64 {
        lemma_pow2_unfold(log2 + 1);
        lemma_pow2_pos(log2);
        lemma_fewest_tiles(sb64, log2 + 1);
    }
}

proof fn lemma_most_tiles(sb64: nat, log2: nat)
    requires
        log2 >= 1,
        log2 > 1 ==> sb64 / pow2((log2 - 1) as nat) >= 4,
    ensures
        ({
            let n = max_tile_log2(sb64, log2);
            &&& n >= log2
            &&& sb64 / pow2(n) < 4
            &&& n > 1 ==> sb64 / pow2((n - 1) as nat) >= 4
        }),
    decreases sb64 / pow2(log2),
{
    if sb64 / pow2(log2) >= 4 {
        lemma_pow2_unfold(log2 + 1);
        lemma_pow2_pos(log2);
        vstd::arithmetic::div_mod::lemma_div_denominator(sb64 as int, pow2(log2) as int, 2);
        vstd::arithmetic::mul::lemma_mul_is_commutative(pow2(log2) as int, 2);
        lemma_most_tiles(sb64, log2 + 1);
    }
}

/// The fewest tile columns of a frame are the fewest that need none over 4096 pixels wide;
/// the most are the most that leave each at least 256 pixels wide, or one.
pub proof fn law_tiles_are_neither_wide_nor_narrow(width: int)
    requires
        1 <= width,
    ensures
        ({
            let (least, most) = tile_bounds(width);
            let sbs = sb64_cols(width);
            &&& 64 * sbs - 64 < width <= 64 * sbs
            &&& sbs <= 64 * pow2(least)
            &&& least > 0 ==> 64 * pow2((least - 1) as nat) < sbs
            &&& most > 0 ==> sbs / pow2(most) >= 4
            &&& sbs / pow2(most + 1) < 4
        }),
{
    lemma_fewest_tiles(sb64_cols(width), 0);
    lemma_most_tiles(sb64_cols(width), 1);
}

} // verus!
