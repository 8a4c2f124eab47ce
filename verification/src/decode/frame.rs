//! Frames: the state in which reading one begins, the tiles, and what is kept of it.
use vstd::arithmetic::div_mod::*;
use vstd::arithmetic::mul::*;
use vstd::arithmetic::power2::{lemma2_to64, lemma_pow2_pos, pow2};
use vstd::prelude::*;
use vstd::slice::slice_subrange;

use crate::block::{is_default_mode_info, ModeInfo, Mv, TX_MODE_SELECT};
use crate::coding;
use crate::context::FrameContext;
use crate::decode::compressed::{
    coef_slot, header_gives, lemma_coef_slot, parse_compressed_header, tx_mode_read,
};
use crate::decode::counts::{
    adapt_coef_probs, adapt_mode_probs, adapt_mv_probs, coefs_adapted, follows,
    law_mode_flags_follow_counts, law_tokens_follow_counts, law_vector_flags_follow_counts,
    modes_adapted, mv_component_adapted, mv_component_fits, row_fits, slot_adapted, slot_fits,
    tree_adapted, FrameCounts, MV_JOINT_TREE,
};
use crate::decode::modeinfo::valid_context;
use crate::decode::reconstructor::{aligned, valid_map, Reconstructor};
use crate::decode::segmentation::Seg;
use crate::decode::tiles::{tile_offset, tile_start};
use crate::error::{Error, Result};
use crate::grid;
use crate::header::FrameHeader;
use crate::prob;

verus! {

/// How often a coefficient must be counted until the counts weigh most.
pub const COEF_COUNT_SAT: u32 = 24;

/// The weight of the counts of coefficients.
pub const COEF_MAX_UPDATE: u32 = 112;

/// The weight of the counts of coefficients right behind a key frame.
pub const COEF_MAX_UPDATE_AFTER_KEY: u32 = 128;

/// A decoded frame: its planes with the room around them, and their visible sizes.
#[derive(Debug)]
pub struct RefFrame {
    pub planes: [Vec<u16>; 3],
    pub stride: [usize; 3],
    pub w: [usize; 3],
    pub h: [usize; 3],
    /// The subsampling of the chroma planes.
    pub ss_x: usize,
    pub ss_y: usize,
    pub bit_depth: u32,
}

/// The visible samples of a plane, row by row, each cut to eight bits.
pub open spec fn visible(samples: Seq<u16>, stride: int, w: int, h: int) -> Seq<u8> {
    Seq::new((h * w) as nat, |i: int| samples[(i / w) * stride + i % w] as u8)
}

impl RefFrame {
    /// The visible part of every plane lies in it.
    pub open spec fn wf(&self) -> bool {
        forall|p: int|
            0 <= p < 3 ==> self.w[p] <= self.stride[p] && self.stride[p] * self.h[p] <= (
            #[trigger] self.planes[p])@.len()
    }

    /// The visible samples of a plane, cut to eight bits.
    pub fn visible(&self, p: usize) -> (r: Vec<u8>)
        requires
            self.wf(),
            p < 3,
        ensures
            r@ == visible(
                self.planes[p as int]@,
                self.stride[p as int] as int,
                self.w[p as int] as int,
                self.h[p as int] as int,
            ),
    {
        let (stride, w, h): (usize, usize, usize) = (self.stride[p], self.w[p], self.h[p]);
        let samples: &[u16] = self.planes[p].as_slice();
        let len: usize = samples.len();
        let ghost goal = visible(samples@, stride as int, w as int, h as int);
        let mut out: Vec<u8> = Vec::new();
        assert(0 * w == 0);
        let mut y: usize = 0;
        while y < h
            invariant
                y <= h,
                len == samples@.len(),
                w <= stride,
                stride * h <= len,
                goal == visible(samples@, stride as int, w as int, h as int),
                y * w <= h * w,
                out@ =~= goal.take(y * w),
            decreases h - y,
        {
            assert((y + 1) * stride <= h * stride && (y + 1) * w <= h * w) by (nonlinear_arith)
                requires
                    y + 1 <= h,
                    0 <= stride,
                    0 <= w,
            ;
            assert(y * stride + stride == (y + 1) * stride && y * w + w == (y + 1) * w && h * stride
                == stride * h && 0 <= y * stride && 0 <= y * w) by (nonlinear_arith);
            let base: usize = y * stride;
            let mut x: usize = 0;
            while x < w
                invariant
                    x <= w <= stride,
                    y < h,
                    base == y * stride,
                    base + stride <= len,
                    len == samples@.len(),
                    goal == visible(samples@, stride as int, w as int, h as int),
                    y * w + w <= h * w,
                    0 <= y * w,
                    out@ =~= goal.take(y * w + x),
                decreases w - x,
            {
                proof {
                    let i = y * w + x;
                    lemma_fundamental_div_mod_converse(i, w as int, y as int, x as int);
                    assert(goal.take(i + 1) =~= goal.take(i).push(goal[i]));
                }
                out.push(samples[base + x] as u8);
                x += 1;
            }
            y += 1;
        }
        assert(goal.take(h * w) =~= goal);
        out
    }
}

/// What is remembered of the motion of a block.
#[derive(Clone, Copy, Debug, PartialEq, Eq)]
pub struct MvRef {
    pub ref_frame: [i8; 2],
    pub mv: [Mv; 2],
}

/// The end of the compressed header.
pub open spec fn header_ends(h: FrameHeader) -> int {
    h.uncompressed_bytes + h.header_size
}

/// The header names a frame that can be read: its size is known and within bounds, and
/// its features are in range.
pub open spec fn readable(h: FrameHeader) -> bool {
    &&& 1 <= h.width <= 0x10000
    &&& 1 <= h.height <= 0x10000
    &&& h.subsampling_x <= 1
    &&& h.subsampling_y <= 1
    &&& h.interp_filter <= 4
    &&& h.base_q_idx <= 255
    &&& forall|s: int|
        0 <= s < 8 ==> -0x10000 <= (#[trigger] h.seg_feature_data[s])[0] <= 0x10000 && 0
            <= h.seg_feature_data[s][2] <= 3
}

/// `n` units of eight pixels hold `pixels`.
pub open spec fn mis(pixels: int) -> int {
    (pixels + 7) / 8
}

/// The state in which reading a frame begins.
pub open spec fn begins(
    rec: Reconstructor,
    h: FrameHeader,
    data: Seq<u8>,
    pre_fc: FrameContext,
    prev: Option<Vec<u8>>,
) -> bool {
    let rows = mis(h.height as int);
    let cols = mis(h.width as int);
    let seg = Seg {
        enabled: h.seg_enabled,
        update_map: h.seg_update_map,
        temporal_update: h.seg_temporal_update,
        abs_delta: h.seg_abs_delta,
        tree_probs: h.seg_tree_probs,
        pred_probs: h.seg_pred_probs,
        feature_enabled: h.seg_feature_enabled,
        feature_data: h.seg_feature_data,
    };
    &&& header_in(
        data.subrange(h.uncompressed_bytes as int, header_ends(h)),
        pre_fc,
        h,
        rec.fc,
    )
    &&& rec.lossless == h.lossless
    &&& rec.seg == seg
    &&& forall|s: int| 0 <= s < 8 ==> #[trigger] rec.qindex[s] == seg.q(s, h.base_q_idx as int)
    &&& rec.prev_seg_map == prev
    &&& rec.cur_seg_map@ == Seq::new((rows * cols) as nat, |i: int| 0u8)
    &&& rec.tile_col_start == 0 && rec.tile_col_end == cols && rec.tile_row_start == 0
    &&& rec.mi_rows == rows && rec.mi_cols == cols
    &&& rec.mi@.len() == rows * cols
    &&& forall|i: int| 0 <= i < rec.mi@.len() ==> is_default_mode_info(#[trigger] rec.mi@[i])
    &&& rec.clear_above() && rec.clear_left()
    &&& rec.is_inter_frame == !(h.key_frame || h.intra_only)
    &&& rec.interp_filter == h.interp_filter
    &&& rec.allow_hp == h.allow_high_precision_mv
    &&& rec.sign_bias@ == seq![
        false,
        h.ref_sign_bias[0],
        h.ref_sign_bias[1],
        h.ref_sign_bias[2],
    ]
    &&& rec.counts.is_zero()
    &&& rec.ss_x == h.subsampling_x && rec.ss_y == h.subsampling_y
}

/// The compressed header in `part` turns `pre` into `post`.
#[verifier::opaque]
pub open spec fn header_in(
    part: Seq<u8>,
    pre: FrameContext,
    h: FrameHeader,
    post: FrameContext,
) -> bool {
    header_gives(coding::opened(part), pre, h, post)
}

/// A compressed header leaves a context valid.
proof fn lemma_header_keeps_valid(
    c: coding::Cursor,
    pre: FrameContext,
    h: FrameHeader,
    post: FrameContext,
)
    requires
        valid_context(pre),
        header_gives(c, pre, h, post),
    ensures
        valid_context(post),
{
    prob::lemma_literal_bound(c, 2);
    lemma2_to64();
    assert(post.tx_mode == tx_mode_read(c, h.lossless).0);
}

/// Reads the compressed header in `part`.
fn read_header(part: &[u8], h: &FrameHeader, pre: &FrameContext) -> (r: Result<FrameContext>)
    requires
        valid_context(*pre),
        part@.len() > 0,
    ensures
        r is Ok,
        header_in(part@, *pre, *h, r.unwrap()),
        valid_context(r.unwrap()),
{
    let fc: FrameContext = match parse_compressed_header(part, h, pre) {
        Ok(fc) => fc,
        Err(e) => {
            return Err(e);
        },
    };
    proof {
        reveal(header_in);
        lemma_header_keeps_valid(coding::opened(part@), *pre, *h, fc);
    }
    Ok(fc)
}

impl Reconstructor {
    /// The contexts above are all zero.
    pub open spec fn clear_above(&self) -> bool {
        let cols = aligned(self.mi_cols as int);
        &&& self.above_seg@ == Seq::new(cols as nat, |i: int| 0u8)
        &&& forall|p: int|
            0 <= p < 3 ==> (#[trigger] self.above_ctx[p])@ == Seq::new(
                (2 * cols) as nat,
                |i: int| 0u8,
            )
    }

    /// The contexts to the left are all zero.
    pub open spec fn clear_left(&self) -> bool {
        &&& self.left_seg@ == Seq::new(8, |i: int| 0u8)
        &&& forall|p: int| 0 <= p < 3 ==> (#[trigger] self.left_ctx[p])@ == Seq::new(16, |i: int| 0u8)
    }

    /// Begins to read the frame with header `h` in `data`: reads the compressed header,
    /// and sets up the state. Returns also where the tiles begin.
    pub fn begin(
        h: &FrameHeader,
        data: &[u8],
        pre_fc: &FrameContext,
        prev_seg_map: Option<Vec<u8>>,
    ) -> (r: Result<(Reconstructor, usize)>)
        requires
            readable(*h),
            valid_context(*pre_fc),
            prev_seg_map is Some ==> prev_seg_map.unwrap()@.len() == mis(h.height as int) * mis(
                h.width as int,
            ) && valid_map(prev_seg_map.unwrap()@),
        ensures
            match r {
                Ok((rec, end)) => {
                    &&& h.header_size > 0
                    &&& header_ends(*h) <= data@.len()
                    &&& end == header_ends(*h)
                    &&& begins(rec, *h, data@, *pre_fc, prev_seg_map)
                    &&& rec.wf()
                },
                Err(e) => {
                    &&& h.header_size == 0 || header_ends(*h) > data@.len()
                    &&& e == Error::CompressedHeaderOutOfBounds
                },
            },
    {
        let start: usize = h.uncompressed_bytes;
        let size: usize = h.header_size as usize;
        if h.header_size == 0 || start > data.len() || size > data.len() - start {
            return Err(Error::CompressedHeaderOutOfBounds);
        }
        let end: usize = start + size;
        let part: &[u8] = slice_subrange(data, start, end);
        let fc: FrameContext = match read_header(part, h, pre_fc) {
            Ok(fc) => fc,
            Err(e) => {
                return Err(e);
            },
        };
        let seg: Seg = Seg::from_header(h);
        let mut qindex: [i32; 8] = [0; 8];
        let mut s: usize = 0;
        while s < 8
            invariant
                s <= 8,
                readable(*h),
                seg.feature_data == h.seg_feature_data,
                forall|k: int| 0 <= k < s ==> #[trigger] qindex[k] == seg.q(k, h.base_q_idx as int),
            decreases 8 - s,
        {
            assert(-0x10000 <= seg.feature_data[s as int][0] <= 0x10000);
            qindex[s] = seg.qindex(s, h.base_q_idx as i32);
            s += 1;
        }
        let mi_cols: usize = (h.width as usize + 7) / 8;
        let mi_rows: usize = (h.height as usize + 7) / 8;
        let cols: usize = (mi_cols + 7) / 8 * 8;
        assert(mi_rows * mi_cols <= 8192 * 8192) by (nonlinear_arith)
            requires
                mi_rows <= 8192,
                mi_cols <= 8192,
        ;
        let m: ModeInfo = ModeInfo::default();
        let rec = Reconstructor {
            fc,
            lossless: h.lossless,
            seg,
            qindex,
            prev_seg_map,
            cur_seg_map: grid::repeat(0u8, mi_rows * mi_cols),
            tile_col_start: 0,
            tile_col_end: mi_cols,
            tile_row_start: 0,
            mi_rows,
            mi_cols,
            mi: grid::repeat(m, mi_rows * mi_cols),
            above_seg: grid::repeat(0u8, cols),
            left_seg: [0; 8],
            above_ctx: [
                grid::repeat(0u8, 2 * cols),
                grid::repeat(0u8, 2 * cols),
                grid::repeat(0u8, 2 * cols),
            ],
            left_ctx: [[0; 16]; 3],
            is_inter_frame: !(h.key_frame || h.intra_only),
            interp_filter: h.interp_filter,
            allow_hp: h.allow_high_precision_mv,
            sign_bias: [false, h.ref_sign_bias[0], h.ref_sign_bias[1], h.ref_sign_bias[2]],
            counts: FrameCounts::zeroed(),
            ss_x: h.subsampling_x as usize,
            ss_y: h.subsampling_y as usize,
        };
        proof {
            assert(rec.left_seg@ =~= Seq::new(8, |i: int| 0u8));
            assert forall|p: int| 0 <= p < 3 implies (#[trigger] rec.left_ctx[p])@ == Seq::new(
                16,
                |i: int| 0u8,
            ) by {
                assert(rec.left_ctx[p]@ =~= Seq::new(16, |i: int| 0u8));
            }
            assert(rec.sign_bias@ =~= seq![
                false,
                h.ref_sign_bias[0],
                h.ref_sign_bias[1],
                h.ref_sign_bias[2],
            ]);
        }
        Ok((rec, end))
    }

    /// Begins a row of tiles: no block above is known.
    pub fn begin_tile_row(&mut self, tile_row: usize, log2: u32)
        requires
            old(self).wf(),
            tile_row <= 64,
            log2 <= 6,
        ensures
            final(self).wf(),
            final(self).clear_above(),
            final(self).tile_row_start == tile_start(
                tile_row as int,
                old(self).mi_rows as int,
                log2 as nat,
            ),
            *final(self) == (Reconstructor {
                tile_row_start: final(self).tile_row_start,
                above_seg: final(self).above_seg,
                above_ctx: final(self).above_ctx,
                ..*old(self)
            }),
    {
        self.tile_row_start = tile_edge(tile_row, self.mi_rows, log2);
        let cols: usize = (self.mi_cols + 7) / 8 * 8;
        self.above_seg = grid::repeat(0u8, cols);
        self.above_ctx = [
            grid::repeat(0u8, 2 * cols),
            grid::repeat(0u8, 2 * cols),
            grid::repeat(0u8, 2 * cols),
        ];
    }

    /// Begins a tile: sets its first column and the one behind its last.
    pub fn begin_tile(&mut self, tile_col: usize, log2: u32)
        requires
            old(self).wf(),
            tile_col < 64,
            log2 <= 6,
        ensures
            final(self).wf(),
            final(self).tile_col_start == tile_start(
                tile_col as int,
                old(self).mi_cols as int,
                log2 as nat,
            ),
            final(self).tile_col_end == tile_start(
                tile_col + 1,
                old(self).mi_cols as int,
                log2 as nat,
            ),
            *final(self) == (Reconstructor {
                tile_col_start: final(self).tile_col_start,
                tile_col_end: final(self).tile_col_end,
                ..*old(self)
            }),
    {
        let first: usize = tile_edge(tile_col, self.mi_cols, log2);
        let end: usize = tile_edge(tile_col + 1, self.mi_cols, log2);
        proof {
            let n = (self.mi_cols + 7) / 8 as int;
            lemma_pow2_pos(log2 as nat);
            assert(tile_col * n <= (tile_col + 1) * n) by (nonlinear_arith)
                requires
                    n >= 0,
            ;
            lemma_div_is_ordered(tile_col * n, (tile_col + 1) * n, pow2(log2 as nat) as int);
        }
        self.tile_col_start = first;
        self.tile_col_end = end;
    }

    /// Begins a row of 64x64 blocks of a tile: no block to the left is known.
    pub fn begin_superblock_row(&mut self)
        requires
            old(self).wf(),
        ensures
            final(self).wf(),
            final(self).clear_left(),
            *final(self) == (Reconstructor {
                left_seg: final(self).left_seg,
                left_ctx: final(self).left_ctx,
                ..*old(self)
            }),
    {
        self.left_seg = [0; 8];
        self.left_ctx = [[0; 16]; 3];
        proof {
            assert(self.left_seg@ =~= Seq::new(8, |i: int| 0u8));
            assert forall|p: int| 0 <= p < 3 implies (#[trigger] self.left_ctx[p])@ == Seq::new(
                16,
                |i: int| 0u8,
            ) by {
                assert(self.left_ctx[p]@ =~= Seq::new(16, |i: int| 0u8));
            }
        }
    }

    /// What is remembered of the motion of the frame, cell by cell.
    pub fn motion_records(&self) -> (r: Vec<MvRef>)
        ensures
            r@ == self.mi@.map_values(|m: ModeInfo| MvRef { ref_frame: m.ref_frame, mv: m.mv }),
    {
        let ghost f = |m: ModeInfo| MvRef { ref_frame: m.ref_frame, mv: m.mv };
        let n: usize = self.mi.len();
        let mut out: Vec<MvRef> = Vec::new();
        let mut i: usize = 0;
        while i < n
            invariant
                i <= n,
                n == self.mi@.len(),
                f == (|m: ModeInfo| MvRef { ref_frame: m.ref_frame, mv: m.mv }),
                out@ =~= self.mi@.take(i as int).map_values(f),
            decreases n - i,
        {
            let m: ModeInfo = self.mi[i];
            out.push(MvRef { ref_frame: m.ref_frame, mv: m.mv });
            i += 1;
        }
        assert(self.mi@.take(n as int) =~= self.mi@);
        out
    }
}

/// The first row or column of tile `idx` of a frame.
pub fn tile_edge(idx: usize, mis: usize, log2: u32) -> (r: usize)
    requires
        idx <= 64,
        mis <= 8192,
        log2 <= 6,
    ensures
        r == tile_start(idx as int, mis as int, log2 as nat),
        r <= mis,
{
    proof {
        let n = (mis + 7) / 8 as int;
        assert(0 <= idx * n <= 64 * 1024) by (nonlinear_arith)
            requires
                0 <= idx <= 64,
                0 <= n <= 1024,
        ;
        lemma_pow2_pos(log2 as nat);
        lemma_div_nonincreasing(idx * n, pow2(log2 as nat) as int);
    }
    tile_offset(idx, mis, log2)
}

/// What was remembered of the motion at a cell of the last frame, if it may be used.
pub fn prev_mv(
    prev_mvs: &Option<Vec<MvRef>>,
    use_prev_mvs: bool,
    mi_rows: usize,
    mi_cols: usize,
    mi_row: usize,
    mi_col: usize,
) -> (r: Option<MvRef>)
    requires
        mi_row < mi_rows,
        mi_col < mi_cols,
        use_prev_mvs && *prev_mvs is Some ==> prev_mvs.unwrap()@.len() == mi_rows * mi_cols,
    ensures
        match *prev_mvs {
            Some(g) if use_prev_mvs => r == Some(
                g@[grid::cell(mi_cols as int, mi_row as int, mi_col as int)],
            ),
            _ => r is None,
        },
{
    if use_prev_mvs {
        match prev_mvs {
            Some(g) => {
                let _len: usize = g.len();
                proof {
                    grid::lemma_cell(mi_rows as int, mi_cols as int, mi_row as int, mi_col as int);
                }
                Some(g[grid::index(mi_rows, mi_cols, mi_row, mi_col)])
            },
            None => None,
        }
    } else {
        None
    }
}

/// The counts of a frame can be adapted to.
pub open spec fn counts_fit(c: FrameCounts) -> bool {
    &&& c.coefs_fit()
    &&& c.modes_fit()
    &&& row_fits(c.mv.joints@)
    &&& mv_component_fits(c.mv.comps[0])
    &&& mv_component_fits(c.mv.comps[1])
}

/// The probabilities `out` are kept of a frame that was read with the probabilities
/// `fc` and gave the counts `c`, after a frame that left `pre`. They are adapted only
/// where the header asks for it, those of modes and vectors only in inter frames.
pub open spec fn kept_context(
    h: FrameHeader,
    pre: FrameContext,
    fc: FrameContext,
    c: FrameCounts,
    last_frame_key: bool,
    out: FrameContext,
) -> bool {
    let intra = h.key_frame || h.intra_only;
    let factor = if intra || !last_frame_key {
        COEF_MAX_UPDATE as int
    } else {
        COEF_MAX_UPDATE_AFTER_KEY as int
    };
    if !h.refresh_frame_context || h.frame_parallel_decoding_mode {
        out == fc
    } else {
        &&& coefs_adapted(pre, fc, out, c, COEF_COUNT_SAT as int, factor, 4)
        &&& out.tx_mode == fc.tx_mode
        &&& out.reference_mode == fc.reference_mode
        &&& out.comp_fixed_ref == fc.comp_fixed_ref
        &&& out.comp_var_ref == fc.comp_var_ref
        &&& if intra {
            out == (FrameContext { coef_probs: out.coef_probs, ..fc })
        } else {
            &&& modes_adapted(
                pre,
                fc,
                out,
                c,
                h.interp_filter == 4,
                fc.tx_mode == TX_MODE_SELECT,
            )
            &&& tree_adapted(
                MV_JOINT_TREE@,
                pre.nmvc.joints@,
                fc.nmvc.joints@,
                out.nmvc.joints@,
                c.mv.joints@,
            )
            &&& forall|i: int|
                0 <= i < 2 ==> mv_component_adapted(
                    pre.nmvc.comps[i],
                    fc.nmvc.comps[i],
                    #[trigger] out.nmvc.comps[i],
                    c.mv.comps[i],
                    h.allow_high_precision_mv,
                )
        }
    }
}

/// The probabilities to keep of a frame.
pub fn adapt_context(
    h: &FrameHeader,
    pre: &FrameContext,
    fc: &FrameContext,
    counts: &FrameCounts,
    last_frame_key: bool,
) -> (out: FrameContext)
    requires
        counts_fit(*counts),
    ensures
        kept_context(*h, *pre, *fc, *counts, last_frame_key, out),
{
    let mut out: FrameContext = *fc;
    if h.refresh_frame_context && !h.frame_parallel_decoding_mode {
        let intra: bool = h.key_frame || h.intra_only;
        let factor: u32 = if intra || !last_frame_key {
            COEF_MAX_UPDATE
        } else {
            COEF_MAX_UPDATE_AFTER_KEY
        };
        let tx_select: bool = out.tx_mode == TX_MODE_SELECT;
        adapt_coef_probs(&mut out, pre, counts, COEF_COUNT_SAT, factor);
        if !intra {
            adapt_mode_probs(&mut out, pre, counts, h.interp_filter == 4, tx_select);
            adapt_mv_probs(&mut out, pre, counts, h.allow_high_precision_mv);
        }
    }
    out
}

/// Where an inter frame asks for adaptation, each flag that it keeps has followed what was
/// counted: whether blocks are skipped, inter, of two references and of which, and the
/// bits of vectors.
pub proof fn law_kept_flags_follow_counts(
    h: FrameHeader,
    pre: FrameContext,
    fc: FrameContext,
    c: FrameCounts,
    last_frame_key: bool,
    out: FrameContext,
    i: int,
)
    requires
        kept_context(h, pre, fc, c, last_frame_key, out),
        h.refresh_frame_context && !h.frame_parallel_decoding_mode,
        !h.key_frame && !h.intra_only,
        0 <= i < 10,
    ensures
        i < 3 ==> follows(
            pre.skip_probs[i],
            out.skip_probs[i],
            c.skip[i][0] as int,
            c.skip[i][1] as int,
        ),
        i < 4 ==> follows(
            pre.intra_inter_prob[i],
            out.intra_inter_prob[i],
            c.intra_inter[i][0] as int,
            c.intra_inter[i][1] as int,
        ),
        i < 5 ==> follows(
            pre.comp_inter_prob[i],
            out.comp_inter_prob[i],
            c.comp_inter[i][0] as int,
            c.comp_inter[i][1] as int,
        ),
        i < 5 ==> follows(
            pre.comp_ref_prob[i],
            out.comp_ref_prob[i],
            c.comp_ref[i][0] as int,
            c.comp_ref[i][1] as int,
        ),
        i < 5 ==> follows(
            pre.single_ref_prob[i][0],
            out.single_ref_prob[i][0],
            c.single_ref[i][0][0] as int,
            c.single_ref[i][0][1] as int,
        ) && follows(
            pre.single_ref_prob[i][1],
            out.single_ref_prob[i][1],
            c.single_ref[i][1][0] as int,
            c.single_ref[i][1][1] as int,
        ),
        forall|k: int|
            0 <= k < 2 ==> follows(
                pre.nmvc.comps[k].bits[i],
                (#[trigger] out.nmvc.comps[k]).bits[i],
                c.mv.comps[k].bits[i][0] as int,
                c.mv.comps[k].bits[i][1] as int,
            ) && follows(
                pre.nmvc.comps[k].sign,
                out.nmvc.comps[k].sign,
                c.mv.comps[k].sign[0] as int,
                c.mv.comps[k].sign[1] as int,
            ),
{
    if i < 5 {
        law_mode_flags_follow_counts(
            pre,
            fc,
            out,
            c,
            h.interp_filter == 4,
            fc.tx_mode == TX_MODE_SELECT,
            i,
        );
    }
    assert forall|k: int| 0 <= k < 2 implies follows(
        pre.nmvc.comps[k].bits[i],
        (#[trigger] out.nmvc.comps[k]).bits[i],
        c.mv.comps[k].bits[i][0] as int,
        c.mv.comps[k].bits[i][1] as int,
    ) && follows(
        pre.nmvc.comps[k].sign,
        out.nmvc.comps[k].sign,
        c.mv.comps[k].sign[0] as int,
        c.mv.comps[k].sign[1] as int,
    ) by {
        law_vector_flags_follow_counts(
            pre.nmvc.comps[k],
            fc.nmvc.comps[k],
            out.nmvc.comps[k],
            c.mv.comps[k],
            h.allow_high_precision_mv,
            i,
        );
    }
}

/// Where a frame asks for adaptation, the probabilities of the coefficients in band `k` and
/// context `l` follow what was counted there: of ends of blocks, of zeros and of ones.
pub proof fn law_kept_tokens_follow_counts(
    h: FrameHeader,
    pre: FrameContext,
    fc: FrameContext,
    c: FrameCounts,
    last_frame_key: bool,
    out: FrameContext,
    tx: int,
    i: int,
    j: int,
    k: int,
    l: int,
)
    requires
        kept_context(h, pre, fc, c, last_frame_key, out),
        h.refresh_frame_context && !h.frame_parallel_decoding_mode,
        c.coefs_fit(),
        0 <= tx < 4,
        0 <= i < 2,
        0 <= j < 2,
        0 <= k < 6,
        0 <= l < 6,
        k == 0 ==> l < 3,
        forall|n: int| 0 <= n < 3 ==> 1 <= #[trigger] pre.coef_probs[tx][i][j][k][l][n],
    ensures
        ({
            let p = pre.coef_probs[tx][i][j][k][l];
            let q = out.coef_probs[tx][i][j][k][l];
            let n = c.coef[tx][i][j][k][l];
            &&& n[3] == c.eob_branch[tx][i][j][k][l] ==> q[0] >= p[0]
            &&& n[3] == 0 ==> q[0] <= p[0]
            &&& n[1] == 0 && n[2] == 0 ==> q[1] >= p[1]
            &&& n[0] == 0 ==> q[1] <= p[1]
            &&& n[2] == 0 ==> q[2] >= p[2]
            &&& n[1] == 0 ==> q[2] <= p[2]
        }),
{
    let r = 66 * i + 33 * j + (if k == 0 {
        l
    } else {
        6 * k - 3 + l
    });
    lemma_coef_slot(r);
    assert(coef_slot(r) == (i, j, k, l));
    let intra = h.key_frame || h.intra_only;
    let factor = if intra || !last_frame_key {
        112int
    } else {
        128
    };
    assert(slot_fits(c.coef[tx], c.eob_branch[tx], r));
    assert(slot_adapted(
        pre.coef_probs[tx],
        out.coef_probs[tx],
        c.coef[tx],
        c.eob_branch[tx],
        24,
        factor,
        r,
    ));
    let p = pre.coef_probs[tx][i][j][k][l];
    assert(forall|n: int| 0 <= n < 3 ==> 1 <= #[trigger] p@[n]) by {
        assert(p[0] == pre.coef_probs[tx][i][j][k][l][0]);
        assert(p[1] == pre.coef_probs[tx][i][j][k][l][1]);
        assert(p[2] == pre.coef_probs[tx][i][j][k][l][2]);
    }
    law_tokens_follow_counts(
        p@,
        out.coef_probs[tx][i][j][k][l]@,
        c.coef[tx][i][j][k][l]@,
        c.eob_branch[tx][i][j][k][l],
        24,
        factor,
    );
}

/// Right behind a key frame the counts of coefficients weigh half, else seven sixteenths:
/// where one coefficient was zero each of at least 24 times, its probability goes that far
/// towards the end of the range.
pub proof fn law_coefs_follow_faster_behind_key_frames(
    h: FrameHeader,
    pre: FrameContext,
    fc: FrameContext,
    c: FrameCounts,
    last_frame_key: bool,
    out: FrameContext,
    tx: int,
    i: int,
    j: int,
)
    requires
        kept_context(h, pre, fc, c, last_frame_key, out),
        h.refresh_frame_context && !h.frame_parallel_decoding_mode,
        0 <= tx < 4,
        0 <= i < 2,
        0 <= j < 2,
        c.coef[tx][i][j][0][0][0] >= 24,
        c.coef[tx][i][j][0][0][1] == 0,
        c.coef[tx][i][j][0][0][2] == 0,
    ensures
        ({
            let p = pre.coef_probs[tx][i][j][0][0][1];
            let q = out.coef_probs[tx][i][j][0][0][1];
            if last_frame_key && !h.key_frame && !h.intra_only {
                q == (p + 256) / 2
            } else {
                q == (144 * p + 112 * 255 + 128) / 256
            }
        }),
{
    let r = 66 * i + 33 * j;
    lemma_coef_slot(r);
    assert(coef_slot(r) == (i, j, 0int, 0int));
    let intra = h.key_frame || h.intra_only;
    let factor = if intra || !last_frame_key {
        112int
    } else {
        128
    };
    assert(slot_adapted(
        pre.coef_probs[tx],
        out.coef_probs[tx],
        c.coef[tx],
        c.eob_branch[tx],
        24,
        factor,
        r,
    ));
    let n = c.coef[tx][i][j][0][0][0] as int;
    let q = out.coef_probs[tx][i][j][0][0]@;
    let p = pre.coef_probs[tx][i][j][0][0]@;
    assert(q[1] == crate::adapt::merged_coef(p[1] as int, n, 0, 24, factor));
    assert(crate::adapt::prob_of(n, n) == 255) by {
        lemma_fundamental_div_mod_converse(n * 256 + n / 2, n, 256, n / 2);
    }
    assert(crate::adapt::coef_factor(n, 0, 24, factor) == factor);
    assert(q[1] == crate::adapt::blend(p[1] as int, 255, factor));
    if factor == 128 {
        assert(q[1] == (p[1] * 128 + 255 * 128 + 128) / 256);
    } else {
        assert(q[1] == (p[1] * 144 + 255 * 112 + 128) / 256);
    }
}

/// An intra frame keeps all but its coefficient probabilities as they were read, and the
/// modes of transforms and references stay as they were read in every frame.
pub proof fn law_intra_frames_adapt_coefs_alone(
    h: FrameHeader,
    pre: FrameContext,
    fc: FrameContext,
    c: FrameCounts,
    last_frame_key: bool,
    out: FrameContext,
)
    requires
        kept_context(h, pre, fc, c, last_frame_key, out),
    ensures
        h.key_frame || h.intra_only ==> {
            &&& out.skip_probs == fc.skip_probs
            &&& out.tx_p8x8 == fc.tx_p8x8 && out.tx_p16x16 == fc.tx_p16x16
            &&& out.tx_p32x32 == fc.tx_p32x32
            &&& out.y_mode_prob == fc.y_mode_prob && out.uv_mode_prob == fc.uv_mode_prob
            &&& out.partition_prob == fc.partition_prob
            &&& out.inter_mode_probs == fc.inter_mode_probs
            &&& out.intra_inter_prob == fc.intra_inter_prob
            &&& out.comp_inter_prob == fc.comp_inter_prob
            &&& out.comp_ref_prob == fc.comp_ref_prob
            &&& out.single_ref_prob == fc.single_ref_prob
            &&& out.switchable_interp_prob == fc.switchable_interp_prob
            &&& out.nmvc == fc.nmvc
        },
        h.interp_filter != 4 ==> out.switchable_interp_prob == fc.switchable_interp_prob,
        fc.tx_mode != 4 ==> out.tx_p8x8 == fc.tx_p8x8 && out.tx_p16x16 == fc.tx_p16x16
            && out.tx_p32x32 == fc.tx_p32x32,
        !h.refresh_frame_context || h.frame_parallel_decoding_mode ==> out == fc,
        out.tx_mode == fc.tx_mode,
        out.reference_mode == fc.reference_mode,
        out.comp_fixed_ref == fc.comp_fixed_ref,
        out.comp_var_ref == fc.comp_var_ref,
{
}

} // verus!
