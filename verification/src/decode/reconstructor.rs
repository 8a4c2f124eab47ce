//! The state of reading a frame, and the reading of its blocks.
use vstd::prelude::*;

use crate::adapt::min_int;
use crate::bits::BoolDecoder;
use crate::block;
use crate::block::{flag, skip_context, skip_ctx, ModeInfo, DC_PRED};
use crate::coding;
use crate::coding::Cursor;
use crate::context::FrameContext;
use crate::decode::contexts;
use crate::decode::contexts::intra_inter_context;
use crate::decode::counts::FrameCounts;
use crate::decode::modeinfo;
use crate::decode::modeinfo::{valid_context, valid_mi};
use crate::decode::motion;
use crate::decode::motion::MvCandidates;
use crate::decode::segmentation::{
    lemma_segment_tree, Seg, SEGMENT_TREE, SEG_LVL_REF_FRAME, SEG_LVL_SKIP,
};
use crate::decode::tally;
use crate::decode::tally::{tallied, Count};
use crate::grid;
use crate::grid::{cell, copied, filled, least, Rect};
use crate::token;
use crate::token::read_tree;

verus! {

/// The width of each block size in units of eight pixels, at least one.
pub const BLOCK_MI_WIDTH: [usize; 13] = [1, 1, 1, 1, 1, 2, 2, 2, 4, 4, 4, 8, 8];

/// The height of each block size in units of eight pixels, at least one.
pub const BLOCK_MI_HEIGHT: [usize; 13] = [1, 1, 1, 1, 2, 1, 2, 4, 2, 4, 8, 4, 8];

/// The state of reading a frame: its probabilities and counts, the mode information
/// of the blocks read so far, and the contexts that they leave.
pub struct Reconstructor {
    pub fc: FrameContext,
    pub lossless: bool,
    pub seg: Seg,
    /// The quantizer index of each segment.
    pub qindex: [i32; 8],
    pub prev_seg_map: Option<Vec<u8>>,
    pub cur_seg_map: Vec<u8>,
    /// The bounds of the tile that is being read.
    pub tile_col_start: usize,
    pub tile_col_end: usize,
    pub tile_row_start: usize,
    pub mi_rows: usize,
    pub mi_cols: usize,
    pub mi: Vec<ModeInfo>,
    pub above_seg: Vec<u8>,
    pub left_seg: [u8; 8],
    pub above_ctx: [Vec<u8>; 3],
    pub left_ctx: [[u8; 16]; 3],
    pub is_inter_frame: bool,
    pub interp_filter: u32,
    pub allow_hp: bool,
    /// In which direction each reference lies.
    pub sign_bias: [bool; 4],
    pub counts: FrameCounts,
    /// The subsampling of the chroma planes.
    pub ss_x: usize,
    pub ss_y: usize,
}

/// `cols` rounded up to a multiple of eight.
pub open spec fn aligned(cols: int) -> int {
    8 * ((cols + 7) / 8)
}

/// Every number of a segment map is that of a segment.
pub open spec fn valid_map(map: Seq<u8>) -> bool {
    forall|i: int| 0 <= i < map.len() ==> #[trigger] map[i] < 8
}

/// The cells that a block of size `bsize` covers, clipped to the frame.
pub open spec fn block_rect(bsize: int, row: int, col: int, rows: int, cols: int) -> Rect {
    Rect {
        row,
        col,
        w: min_int(BLOCK_MI_WIDTH[bsize] as int, cols - col),
        h: min_int(BLOCK_MI_HEIGHT[bsize] as int, rows - row),
    }
}

/// The contents of an optional map.
pub open spec fn map_of(prev: Option<Vec<u8>>) -> Option<Seq<u8>> {
    match prev {
        Some(p) => Some(p@),
        None => None,
    }
}

/// The map with the numbers of the last frame in a block; as it is if there was none.
pub open spec fn kept_map(
    map: Seq<u8>,
    prev: Option<Seq<u8>>,
    cols: int,
    r: Rect,
) -> Seq<u8> {
    match prev {
        Some(p) => copied(map, p, cols, r),
        None => map,
    }
}

/// The segment that the last frame's map predicts for a block: the least number in it.
pub open spec fn predicted_segment(prev: Option<Seq<u8>>, cols: int, r: Rect) -> int {
    match prev {
        Some(p) => least(p, cols, r, 7, (r.w * r.h) as nat),
        None => 0,
    }
}

/// A segment number read from `c`.
pub open spec fn segment_read(c: Cursor, seg: Seg) -> (int, Cursor) {
    (
        token::tree_read(c, SEGMENT_TREE@, seg.tree_probs@),
        token::tree_done(c, SEGMENT_TREE@, seg.tree_probs@),
    )
}

/// The segment of a block of an intra frame, the map with it, and the state after it.
pub open spec fn intra_segment_read(
    c: Cursor,
    seg: Seg,
    prev: Option<Seq<u8>>,
    map: Seq<u8>,
    cols: int,
    r: Rect,
) -> (int, Seq<u8>, Cursor) {
    if !seg.enabled {
        (0, map, c)
    } else if !seg.update_map {
        (0, kept_map(map, prev, cols, r), c)
    } else {
        let (sid, d) = segment_read(c, seg);
        (sid, filled(map, cols, r, sid as u8), d)
    }
}

/// How many of the neighbours had the predicted segment.
pub open spec fn segment_ctx(above: Option<&ModeInfo>, left: Option<&ModeInfo>) -> int {
    flag(above is Some && above.unwrap().seg_id_predicted) + flag(
        left is Some && left.unwrap().seg_id_predicted,
    )
}

/// The segment of a block of an inter frame, whether it was predicted, the map with
/// it, and the state after it.
pub open spec fn inter_segment_read(
    c: Cursor,
    seg: Seg,
    prev: Option<Seq<u8>>,
    map: Seq<u8>,
    cols: int,
    r: Rect,
    above: Option<&ModeInfo>,
    left: Option<&ModeInfo>,
) -> (int, bool, Seq<u8>, Cursor) {
    let predicted = predicted_segment(prev, cols, r);
    let p = seg.pred_probs[segment_ctx(above, left)];
    if !seg.enabled {
        (0, false, map, c)
    } else if !seg.update_map {
        (predicted, false, kept_map(map, prev, cols, r), c)
    } else if !seg.temporal_update {
        let (sid, d) = segment_read(c, seg);
        (sid, false, filled(map, cols, r, sid as u8), d)
    } else if coding::read_bit(c, p) {
        (predicted, true, filled(map, cols, r, predicted as u8), coding::read_next(c, p))
    } else {
        let (sid, d) = segment_read(coding::read_next(c, p), seg);
        (sid, false, filled(map, cols, r, sid as u8), d)
    }
}

impl Reconstructor {
    /// The frame is of a size that occurs, and every table has its shape.
    pub open spec fn shaped(&self) -> bool {
        &&& 1 <= self.mi_rows <= 8192
        &&& 1 <= self.mi_cols <= 8192
        &&& self.cur_seg_map@.len() == self.mi_rows * self.mi_cols
        &&& self.mi@.len() == self.mi_rows * self.mi_cols
        &&& self.prev_seg_map is Some ==> self.prev_seg_map.unwrap()@.len() == self.mi_rows
            * self.mi_cols && valid_map(self.prev_seg_map.unwrap()@)
        &&& self.above_seg@.len() == aligned(self.mi_cols as int)
        &&& forall|p: int|
            0 <= p < 3 ==> (#[trigger] self.above_ctx[p])@.len() == 2 * aligned(
                self.mi_cols as int,
            )
        &&& self.tile_col_start <= self.tile_col_end <= self.mi_cols
        &&& self.tile_row_start <= self.mi_rows
        &&& self.ss_x <= 1
        &&& self.ss_y <= 1
    }

    /// What holds at every moment: the shape, and that everything read is valid.
    pub open spec fn wf(&self) -> bool {
        &&& self.shaped()
        &&& valid_map(self.cur_seg_map@)
        &&& forall|i: int| 0 <= i < self.mi@.len() ==> valid_mi(#[trigger] self.mi@[i])
        &&& valid_context(self.fc)
        &&& self.interp_filter <= 4
        &&& forall|s: int|
            0 <= s < 8 ==> 0 <= (#[trigger] self.seg.feature_data[s])[2] <= 3
                || !self.seg.feature_enabled[s][2]
    }

    /// The block above, unless it lies in another tile.
    pub open spec fn above(&self, row: int, col: int) -> Option<ModeInfo> {
        if row > self.tile_row_start {
            Some(self.mi@[cell(self.mi_cols as int, row - 1, col)])
        } else {
            None
        }
    }

    /// The block to the left, unless it lies in another tile.
    pub open spec fn left(&self, row: int, col: int) -> Option<ModeInfo> {
        if col > self.tile_col_start {
            Some(self.mi@[cell(self.mi_cols as int, row, col - 1)])
        } else {
            None
        }
    }

    /// The cells of a block.
    pub open spec fn rect(&self, bsize: int, row: int, col: int) -> Rect {
        block_rect(bsize, row, col, self.mi_rows as int, self.mi_cols as int)
    }

    /// The block above, unless it lies in another tile.
    pub fn above_mi(&self, mi_row: usize, mi_col: usize) -> (r: Option<ModeInfo>)
        requires
            self.wf(),
            mi_row < self.mi_rows,
            mi_col < self.mi_cols,
        ensures
            r == self.above(mi_row as int, mi_col as int),
            r is Some ==> valid_mi(r.unwrap()),
    {
        if mi_row > self.tile_row_start {
            proof {
                grid::lemma_cell(
                    self.mi_rows as int,
                    self.mi_cols as int,
                    mi_row - 1,
                    mi_col as int,
                );
            }
            let _len: usize = self.mi.len();
            let i: usize = grid::index(self.mi_rows, self.mi_cols, mi_row - 1, mi_col);
            Some(self.mi[i])
        } else {
            None
        }
    }

    /// The block to the left, unless it lies in another tile.
    pub fn left_mi(&self, mi_row: usize, mi_col: usize) -> (r: Option<ModeInfo>)
        requires
            self.wf(),
            mi_row < self.mi_rows,
            mi_col < self.mi_cols,
        ensures
            r == self.left(mi_row as int, mi_col as int),
            r is Some ==> valid_mi(r.unwrap()),
    {
        if mi_col > self.tile_col_start {
            proof {
                grid::lemma_cell(
                    self.mi_rows as int,
                    self.mi_cols as int,
                    mi_row as int,
                    mi_col - 1,
                );
            }
            let _len: usize = self.mi.len();
            let i: usize = grid::index(self.mi_rows, self.mi_cols, mi_row, mi_col - 1);
            Some(self.mi[i])
        } else {
            None
        }
    }

    /// The number of columns and rows of cells that a block covers.
    pub fn seg_mis(&self, mi_row: usize, mi_col: usize, bsize: usize) -> (r: (usize, usize))
        requires
            mi_row < self.mi_rows,
            mi_col < self.mi_cols,
            bsize < 13,
        ensures
            r.0 == self.rect(bsize as int, mi_row as int, mi_col as int).w,
            r.1 == self.rect(bsize as int, mi_row as int, mi_col as int).h,
            grid::fits(
                self.rect(bsize as int, mi_row as int, mi_col as int),
                self.mi_rows as int,
                self.mi_cols as int,
            ),
            1 <= r.0 <= 8,
            1 <= r.1 <= 8,
    {
        let bw: usize = BLOCK_MI_WIDTH[bsize];
        let bh: usize = BLOCK_MI_HEIGHT[bsize];
        assert(1 <= bw <= 8 && 1 <= bh <= 8) by {
            assert(forall|i: int| 0 <= i < 13 ==> 1 <= #[trigger] BLOCK_MI_WIDTH[i] <= 8);
            assert(forall|i: int| 0 <= i < 13 ==> 1 <= #[trigger] BLOCK_MI_HEIGHT[i] <= 8);
        }
        let w: usize = if bw < self.mi_cols - mi_col {
            bw
        } else {
            self.mi_cols - mi_col
        };
        let h: usize = if bh < self.mi_rows - mi_row {
            bh
        } else {
            self.mi_rows - mi_row
        };
        (w, h)
    }

    /// Everything but the segment map is as it was.
    pub open spec fn same_but_map(&self, other: &Reconstructor) -> bool {
        *self == (Reconstructor { cur_seg_map: self.cur_seg_map, ..*other })
    }

    /// Sets the segment of a block.
    fn set_seg_id(&mut self, mi_row: usize, mi_col: usize, bsize: usize, sid: u8)
        requires
            old(self).wf(),
            mi_row < old(self).mi_rows,
            mi_col < old(self).mi_cols,
            bsize < 13,
            sid < 8,
        ensures
            final(self).wf(),
            final(self).same_but_map(old(self)),
            final(self).cur_seg_map@ == filled(
                old(self).cur_seg_map@,
                old(self).mi_cols as int,
                old(self).rect(bsize as int, mi_row as int, mi_col as int),
                sid,
            ),
    {
        let (w, h): (usize, usize) = self.seg_mis(mi_row, mi_col, bsize);
        grid::fill(
            &mut self.cur_seg_map,
            self.mi_rows,
            self.mi_cols,
            mi_row,
            mi_col,
            w,
            h,
            sid,
        );
    }

    /// Keeps the last frame's segments in a block.
    fn copy_seg_id(&mut self, mi_row: usize, mi_col: usize, bsize: usize)
        requires
            old(self).wf(),
            mi_row < old(self).mi_rows,
            mi_col < old(self).mi_cols,
            bsize < 13,
        ensures
            final(self).wf(),
            final(self).same_but_map(old(self)),
            final(self).cur_seg_map@ == kept_map(
                old(self).cur_seg_map@,
                map_of(old(self).prev_seg_map),
                old(self).mi_cols as int,
                old(self).rect(bsize as int, mi_row as int, mi_col as int),
            ),
    {
        let (w, h): (usize, usize) = self.seg_mis(mi_row, mi_col, bsize);
        match &self.prev_seg_map {
            Some(prev) => {
                grid::copy(
                    &mut self.cur_seg_map,
                    prev,
                    self.mi_rows,
                    self.mi_cols,
                    mi_row,
                    mi_col,
                    w,
                    h,
                );
            },
            None => {},
        }
    }

    /// The segment that the last frame's map predicts for a block.
    fn prev_seg_min(&self, mi_row: usize, mi_col: usize, bsize: usize) -> (r: u8)
        requires
            self.wf(),
            mi_row < self.mi_rows,
            mi_col < self.mi_cols,
            bsize < 13,
        ensures
            r == predicted_segment(
                map_of(self.prev_seg_map),
                self.mi_cols as int,
                self.rect(bsize as int, mi_row as int, mi_col as int),
            ),
            r < 8,
    {
        let (w, h): (usize, usize) = self.seg_mis(mi_row, mi_col, bsize);
        match &self.prev_seg_map {
            Some(prev) => {
                proof {
                    let r = self.rect(bsize as int, mi_row as int, mi_col as int);
                    assert(w * h >= 0) by (nonlinear_arith);
                    grid::law_least_is_minimum(
                        prev@,
                        self.mi_rows as int,
                        self.mi_cols as int,
                        r,
                        7,
                        (w * h) as nat,
                    );
                }
                grid::minimum(prev, self.mi_rows, self.mi_cols, mi_row, mi_col, w, h, 7)
            },
            None => 0,
        }
    }

    fn read_segment_id_tree(&self, b: &mut BoolDecoder) -> (r: u8)
        requires
            old(b).wf(),
        ensures
            final(b).wf(),
            (r as int, final(b)@) == segment_read(old(b)@, self.seg),
            r < 8,
    {
        proof {
            lemma_segment_tree();
        }
        read_tree(b, &SEGMENT_TREE, &self.seg.tree_probs) as u8
    }

    /// Reads the segment of a block of an intra frame.
    pub fn read_intra_segment_id(
        &mut self,
        b: &mut BoolDecoder,
        mi_row: usize,
        mi_col: usize,
        bsize: usize,
    ) -> (r: u8)
        requires
            old(self).wf(),
            old(b).wf(),
            mi_row < old(self).mi_rows,
            mi_col < old(self).mi_cols,
            bsize < 13,
        ensures
            final(self).wf(),
            final(b).wf(),
            final(self).same_but_map(old(self)),
            (r as int, final(self).cur_seg_map@, final(b)@) == intra_segment_read(
                old(b)@,
                old(self).seg,
                map_of(old(self).prev_seg_map),
                old(self).cur_seg_map@,
                old(self).mi_cols as int,
                old(self).rect(bsize as int, mi_row as int, mi_col as int),
            ),
            r < 8,
    {
        if !self.seg.enabled {
            return 0;
        }
        if !self.seg.update_map {
            self.copy_seg_id(mi_row, mi_col, bsize);
            return 0;
        }
        let sid: u8 = self.read_segment_id_tree(b);
        self.set_seg_id(mi_row, mi_col, bsize, sid);
        sid
    }

    /// Reads the segment of a block of an inter frame, and whether it was predicted.
    pub fn read_inter_segment_id(
        &mut self,
        b: &mut BoolDecoder,
        mi_row: usize,
        mi_col: usize,
        bsize: usize,
        above: Option<&ModeInfo>,
        left: Option<&ModeInfo>,
    ) -> (r: (u8, bool))
        requires
            old(self).wf(),
            old(b).wf(),
            mi_row < old(self).mi_rows,
            mi_col < old(self).mi_cols,
            bsize < 13,
        ensures
            final(self).wf(),
            final(b).wf(),
            final(self).same_but_map(old(self)),
            (r.0 as int, r.1, final(self).cur_seg_map@, final(b)@) == inter_segment_read(
                old(b)@,
                old(self).seg,
                map_of(old(self).prev_seg_map),
                old(self).cur_seg_map@,
                old(self).mi_cols as int,
                old(self).rect(bsize as int, mi_row as int, mi_col as int),
                above,
                left,
            ),
            r.0 < 8,
    {
        if !self.seg.enabled {
            return (0, false);
        }
        let predicted: u8 = self.prev_seg_min(mi_row, mi_col, bsize);
        if !self.seg.update_map {
            self.copy_seg_id(mi_row, mi_col, bsize);
            return (predicted, false);
        }
        let mut seg_pred: bool = false;
        let mut sid: u8 = predicted;
        if self.seg.temporal_update {
            let a: usize = match above {
                Some(m) => if m.seg_id_predicted {
                    1
                } else {
                    0
                },
                None => 0,
            };
            let l: usize = match left {
                Some(m) => if m.seg_id_predicted {
                    1
                } else {
                    0
                },
                None => 0,
            };
            seg_pred = b.read_bool(self.seg.pred_probs[a + l]) != 0;
            if !seg_pred {
                sid = self.read_segment_id_tree(b);
            }
        } else {
            sid = self.read_segment_id_tree(b);
        }
        self.set_seg_id(mi_row, mi_col, bsize, sid);
        (sid, seg_pred)
    }
}

// ---------------------------------------------------------------------------
// Mode information
// ---------------------------------------------------------------------------

/// An optional block, borrowed.
pub open spec fn side(m: &Option<ModeInfo>) -> Option<&ModeInfo> {
    match m {
        Some(x) => Some(x),
        None => None,
    }
}

/// What a block of an inter frame says before its prediction: segment, residual or
/// not, inter or intra, transform size.
pub struct Prelude {
    pub sid: int,
    pub predicted: bool,
    pub skip: bool,
    pub inter: bool,
    pub tx: int,
    pub map: Seq<u8>,
    pub after: Cursor,
    pub log: Seq<Count>,
}

/// Whether a block has no residual: coded unless its segment says so.
pub open spec fn skip_read(
    c: Cursor,
    fc: FrameContext,
    seg: Seg,
    sid: int,
    above: Option<&ModeInfo>,
    left: Option<&ModeInfo>,
) -> (bool, Cursor, Seq<Count>) {
    let ctx = skip_ctx(above, left);
    let p = fc.skip_probs[ctx];
    if seg.has(sid, 3) {
        (true, c, Seq::empty())
    } else {
        let v = coding::read_bit(c, p);
        (v, coding::read_next(c, p), seq![Count::Skip(ctx, flag(v))])
    }
}

/// Whether a block is an inter block: coded unless its segment fixes the reference.
pub open spec fn inter_read(
    c: Cursor,
    fc: FrameContext,
    seg: Seg,
    sid: int,
    above: Option<&ModeInfo>,
    left: Option<&ModeInfo>,
) -> (bool, Cursor, Seq<Count>) {
    let ctx = contexts::intra_inter_ctx(above, left);
    let p = fc.intra_inter_prob[ctx];
    if seg.has(sid, 2) {
        (seg.feature_data[sid][2] != 0, c, Seq::empty())
    } else {
        let v = coding::read_bit(c, p);
        (v, coding::read_next(c, p), seq![Count::IntraInter(ctx, flag(v))])
    }
}

fn read_skip(
    b: &mut BoolDecoder,
    fc: &FrameContext,
    seg: &Seg,
    counts: &mut FrameCounts,
    sid: usize,
    above: Option<&ModeInfo>,
    left: Option<&ModeInfo>,
) -> (r: bool)
    requires
        old(b).wf(),
        sid < 8,
        old(counts).room(1),
    ensures
        final(b).wf(),
        ({
            let (v, c, log) = skip_read(old(b)@, *fc, *seg, sid as int, above, left);
            &&& r == v
            &&& final(b)@ == c
            &&& tallied(*old(counts), *final(counts), log)
            &&& log.len() <= 1
        }),
{
    proof {
        tally::lemma_tally_none(*counts);
    }
    if seg.active(sid, SEG_LVL_SKIP) {
        return true;
    }
    let ctx: usize = skip_context(above, left);
    let bit: u32 = b.read_bool(fc.skip_probs[ctx]);
    counts.count_skip(ctx, bit as usize);
    bit != 0
}

fn read_is_inter(
    b: &mut BoolDecoder,
    fc: &FrameContext,
    seg: &Seg,
    counts: &mut FrameCounts,
    sid: usize,
    above: Option<&ModeInfo>,
    left: Option<&ModeInfo>,
) -> (r: bool)
    requires
        old(b).wf(),
        sid < 8,
        old(counts).room(1),
    ensures
        final(b).wf(),
        ({
            let (v, c, log) = inter_read(old(b)@, *fc, *seg, sid as int, above, left);
            &&& r == v
            &&& final(b)@ == c
            &&& tallied(*old(counts), *final(counts), log)
            &&& log.len() <= 1
        }),
{
    proof {
        tally::lemma_tally_none(*counts);
    }
    if seg.active(sid, SEG_LVL_REF_FRAME) {
        return seg.feature_data[sid][2] != 0;
    }
    let ctx: usize = intra_inter_context(above, left);
    let bit: u32 = b.read_bool(fc.intra_inter_prob[ctx]);
    counts.count_intra_inter(ctx, bit as usize);
    bit != 0
}

/// What follows the segment number: residual or not, inter or intra, transform size.
pub open spec fn flags_read(
    c: Cursor,
    fc: FrameContext,
    seg: Seg,
    sid: int,
    bsize: int,
    above: Option<&ModeInfo>,
    left: Option<&ModeInfo>,
) -> ((bool, bool, int), Cursor, Seq<Count>) {
    let (skip, c1, l1) = skip_read(c, fc, seg, sid, above, left);
    let (inter, c2, l2) = inter_read(c1, fc, seg, sid, above, left);
    let (tx, c3, l3) = modeinfo::tx_read(c2, fc, bsize, above, left, !skip || !inter);
    ((skip, inter, tx), c3, l1 + l2 + l3)
}

/// Reads what follows the segment number.
fn read_flags(
    b: &mut BoolDecoder,
    fc: &FrameContext,
    seg: &Seg,
    counts: &mut FrameCounts,
    m: &ModeInfo,
    above: Option<&ModeInfo>,
    left: Option<&ModeInfo>,
) -> (r: (bool, bool, u8))
    requires
        old(b).wf(),
        fc.tx_mode < 5,
        m.segment_id < 8,
        m.sb_type < 13,
        old(counts).room(3),
    ensures
        final(b).wf(),
        ({
            let (v, c, log) = flags_read(
                old(b)@,
                *fc,
                *seg,
                m.segment_id as int,
                m.sb_type as int,
                above,
                left,
            );
            &&& (r.0, r.1, r.2 as int) == v
            &&& final(b)@ == c
            &&& tallied(*old(counts), *final(counts), log)
            &&& log.len() <= 3
        }),
        r.2 <= 3,
{
    let ghost start = *counts;
    let ghost sid = m.segment_id as int;
    let ghost c = b@;
    let ghost (_, c1, l1) = skip_read(c, *fc, *seg, sid, above, left);
    let ghost (_, c2, l2) = inter_read(c1, *fc, *seg, sid, above, left);
    proof {
        lemma_room(start, 3, 1);
    }
    let skip: bool = read_skip(b, fc, seg, counts, m.segment_id as usize, above, left);
    let ghost k1 = *counts;
    proof {
        tally::lemma_tally_room(start, k1, l1, 3);
        lemma_room(k1, 3 - l1.len(), 1);
    }
    let inter: bool = read_is_inter(b, fc, seg, counts, m.segment_id as usize, above, left);
    let ghost k2 = *counts;
    proof {
        tally::lemma_tally(start, k1, k2, l1, l2);
        tally::lemma_tally_room(start, k2, l1 + l2, 3);
        lemma_room(k2, 3 - (l1 + l2).len(), 1);
    }
    let select: bool = !skip || !inter;
    let tx: u8 = modeinfo::read_tx_size(b, fc, counts, m, above, left, select);
    proof {
        let l3 = modeinfo::tx_read(c2, *fc, m.sb_type as int, above, left, select).2;
        tally::lemma_tally(start, k2, *counts, l1 + l2, l3);
    }
    (skip, inter, tx)
}

proof fn lemma_room(k: FrameCounts, n: int, m: int)
    requires
        k.room(n),
        m <= n,
    ensures
        k.room(m),
{
    assert forall|x: Count| tally::counted(x) implies #[trigger] k.times(x) + m <= u32::MAX by {
        assert(k.times(x) + n <= u32::MAX);
    }
}

impl Reconstructor {
    /// The prelude of a block, read from `c`.
    pub open spec fn prelude(&self, c: Cursor, row: int, col: int, bsize: int) -> Prelude {
        let a = self.above(row, col);
        let l = self.left(row, col);
        let (above, left) = (side(&a), side(&l));
        let (sid, predicted, map, c1) = inter_segment_read(
            c,
            self.seg,
            map_of(self.prev_seg_map),
            self.cur_seg_map@,
            self.mi_cols as int,
            self.rect(bsize, row, col),
            above,
            left,
        );
        let ((skip, inter, tx), c2, log) = flags_read(
            c1,
            self.fc,
            self.seg,
            sid,
            bsize,
            above,
            left,
        );
        Prelude { sid, predicted, skip, inter, tx, map, after: c2, log }
    }

    /// `m` is what a block says before its prediction.
    pub open spec fn says_prelude(p: Prelude, bsize: int, m: ModeInfo) -> bool {
        &&& m.sb_type == bsize
        &&& m.segment_id == p.sid
        &&& m.seg_id_predicted == p.predicted
        &&& m.skip == p.skip
        &&& m.is_inter == p.inter
        &&& m.tx_size == p.tx
    }

    /// Everything but the segment map and the counts is as it was.
    pub open spec fn same_but_reading(&self, other: &Reconstructor) -> bool {
        *self == (Reconstructor {
            cur_seg_map: self.cur_seg_map,
            counts: self.counts,
            ..*other
        })
    }

    /// Reads the mode information of a block of an intra frame.
    pub fn read_intra_frame_block(
        &mut self,
        b: &mut BoolDecoder,
        mi_row: usize,
        mi_col: usize,
        bsize: usize,
    ) -> (m: ModeInfo)
        requires
            old(self).wf(),
            old(b).wf(),
            mi_row < old(self).mi_rows,
            mi_col < old(self).mi_cols,
            bsize < 13,
            old(self).counts.room(1),
        ensures
            final(self).wf(),
            final(b).wf(),
            final(self).same_but_reading(old(self)),
            ({
                let a = old(self).above(mi_row as int, mi_col as int);
                let l = old(self).left(mi_row as int, mi_col as int);
                let (sid, map, c) = intra_segment_read(
                    old(b)@,
                    old(self).seg,
                    map_of(old(self).prev_seg_map),
                    old(self).cur_seg_map@,
                    old(self).mi_cols as int,
                    old(self).rect(bsize as int, mi_row as int, mi_col as int),
                );
                let (d, log) = modeinfo::intra_frame_done(
                    c,
                    old(self).fc,
                    bsize as int,
                    side(&a),
                    side(&l),
                    m,
                );
                &&& modeinfo::intra_frame_info(
                    c,
                    old(self).fc,
                    sid,
                    bsize as int,
                    side(&a),
                    side(&l),
                    m,
                )
                &&& final(self).cur_seg_map@ == map
                &&& final(b)@ == d
                &&& tallied(old(self).counts, final(self).counts, log)
            }),
            valid_mi(m),
    {
        let above: Option<ModeInfo> = self.above_mi(mi_row, mi_col);
        let left: Option<ModeInfo> = self.left_mi(mi_row, mi_col);
        let sid: u8 = self.read_intra_segment_id(b, mi_row, mi_col, bsize);
        modeinfo::read_intra_frame_mode_info(
            b,
            &self.fc,
            &mut self.counts,
            sid,
            bsize,
            above.as_ref(),
            left.as_ref(),
        )
    }

    /// Reads what a block of an inter frame says before its prediction.
    pub fn read_inter_frame_prelude(
        &mut self,
        b: &mut BoolDecoder,
        mi_row: usize,
        mi_col: usize,
        bsize: usize,
    ) -> (m: ModeInfo)
        requires
            old(self).wf(),
            old(b).wf(),
            mi_row < old(self).mi_rows,
            mi_col < old(self).mi_cols,
            bsize < 13,
            old(self).counts.room(3),
        ensures
            final(self).wf(),
            final(b).wf(),
            final(self).same_but_reading(old(self)),
            ({
                let p = old(self).prelude(old(b)@, mi_row as int, mi_col as int, bsize as int);
                &&& Reconstructor::says_prelude(p, bsize as int, m)
                &&& final(self).cur_seg_map@ == p.map
                &&& final(b)@ == p.after
                &&& tallied(old(self).counts, final(self).counts, p.log)
                &&& p.log.len() <= 3
            }),
            m.mode == DC_PRED,
            m.uv_mode == DC_PRED,
            m.bmi@ == seq![DC_PRED, DC_PRED, DC_PRED, DC_PRED],
            modeinfo::no_motion(m),
            m.segment_id < 8,
            m.tx_size <= 3,
    {
        let above: Option<ModeInfo> = self.above_mi(mi_row, mi_col);
        let left: Option<ModeInfo> = self.left_mi(mi_row, mi_col);
        let mut m: ModeInfo = ModeInfo::default();
        m.sb_type = bsize as u8;
        let (sid, predicted): (u8, bool) = self.read_inter_segment_id(
            b,
            mi_row,
            mi_col,
            bsize,
            above.as_ref(),
            left.as_ref(),
        );
        m.segment_id = sid;
        m.seg_id_predicted = predicted;
        let (skip, inter, tx): (bool, bool, u8) = read_flags(
            b,
            &self.fc,
            &self.seg,
            &mut self.counts,
            &m,
            above.as_ref(),
            left.as_ref(),
        );
        m.skip = skip;
        m.is_inter = inter;
        m.tx_size = tx;
        m
    }
}

impl Reconstructor {
    /// Reads the modes of an intra block of an inter frame, behind its prelude.
    pub fn read_inter_frame_intra(&mut self, b: &mut BoolDecoder, m: &mut ModeInfo)
        requires
            old(self).wf(),
            old(b).wf(),
            old(m).sb_type < 13,
            old(m).segment_id < 8,
            old(m).tx_size <= 3,
            !old(m).is_inter,
            old(m).bmi@ == seq![DC_PRED, DC_PRED, DC_PRED, DC_PRED],
            modeinfo::no_motion(*old(m)),
            old(self).counts.room(5),
        ensures
            final(self).wf(),
            final(b).wf(),
            final(self).same_but_reading(old(self)),
            final(self).cur_seg_map == old(self).cur_seg_map,
            modeinfo::intra_block_info(old(b)@, old(self).fc, *final(m)),
            final(b)@ == modeinfo::intra_block_done(old(b)@, old(self).fc, *final(m)).0,
            tallied(
                old(self).counts,
                final(self).counts,
                modeinfo::intra_block_done(old(b)@, old(self).fc, *final(m)).1,
            ),
            *final(m) == (ModeInfo {
                mode: final(m).mode,
                bmi: final(m).bmi,
                uv_mode: final(m).uv_mode,
                ..*old(m)
            }),
            valid_mi(*final(m)),
    {
        modeinfo::read_intra_block_mode_info_inter(b, &self.fc, &mut self.counts, m);
    }

    /// Reads the references, the mode and the filter of an inter block, behind its
    /// prelude.
    pub fn read_inter_frame_head(
        &mut self,
        b: &mut BoolDecoder,
        mi_row: usize,
        mi_col: usize,
        mode_ctx: usize,
        m: &mut ModeInfo,
    )
        requires
            old(self).wf(),
            old(b).wf(),
            mi_row < old(self).mi_rows,
            mi_col < old(self).mi_cols,
            old(m).sb_type < 13,
            old(m).segment_id < 8,
            old(m).mode == DC_PRED,
            mode_ctx < 7,
            old(self).counts.room(5),
        ensures
            final(self).wf(),
            final(b).wf(),
            final(self).same_but_reading(old(self)),
            final(self).cur_seg_map == old(self).cur_seg_map,
            ({
                let a = old(self).above(mi_row as int, mi_col as int);
                let l = old(self).left(mi_row as int, mi_col as int);
                let (c, log) = modeinfo::inter_head_done(
                    old(b)@,
                    old(self).fc,
                    old(self).seg,
                    old(m).segment_id as int,
                    old(m).sb_type as int,
                    old(self).sign_bias@,
                    old(self).interp_filter as int,
                    mode_ctx as int,
                    side(&a),
                    side(&l),
                );
                &&& modeinfo::inter_head(
                    old(b)@,
                    old(self).fc,
                    old(self).seg,
                    old(self).sign_bias@,
                    old(self).interp_filter as int,
                    mode_ctx as int,
                    side(&a),
                    side(&l),
                    *final(m),
                )
                &&& final(b)@ == c
                &&& tallied(old(self).counts, final(self).counts, log)
            }),
            *final(m) == (ModeInfo {
                ref_frame: final(m).ref_frame,
                mode: final(m).mode,
                interp_filter: final(m).interp_filter,
                ..*old(m)
            }),
            final(m).interp_filter <= 3,
            forall|i: int| 0 <= i < 2 ==> -1 <= #[trigger] final(m).ref_frame[i] <= 3,
            final(m).sb_type >= 3 ==> 10 <= final(m).mode <= 13,
    {
        let above: Option<ModeInfo> = self.above_mi(mi_row, mi_col);
        let left: Option<ModeInfo> = self.left_mi(mi_row, mi_col);
        modeinfo::read_inter_block_head(
            b,
            &self.fc,
            &self.seg,
            &mut self.counts,
            &self.sign_bias,
            self.interp_filter,
            mode_ctx,
            above.as_ref(),
            left.as_ref(),
            m,
        );
    }

    /// Reads the motion vectors of an inter block, behind its references, mode and
    /// filter.
    pub fn read_inter_frame_motion(
        &mut self,
        b: &mut BoolDecoder,
        cands: &MvCandidates,
        mode_ctx: usize,
        m: &mut ModeInfo,
    )
        requires
            old(self).wf(),
            old(b).wf(),
            cands.wf(),
            mode_ctx < 7,
            old(m).sb_type < 13,
            old(m).segment_id < 8,
            old(m).tx_size <= 3,
            old(m).is_inter,
            old(m).interp_filter <= 3,
            forall|i: int| 0 <= i < 2 ==> -1 <= #[trigger] old(m).ref_frame[i] <= 3,
            old(m).sb_type >= 3 ==> 10 <= old(m).mode <= 13,
            old(self).counts.room(236),
        ensures
            final(self).wf(),
            final(b).wf(),
            final(self).same_but_reading(old(self)),
            final(self).cur_seg_map == old(self).cur_seg_map,
            motion::motion_info(
                old(b)@,
                old(self).fc,
                *cands,
                mode_ctx as int,
                old(self).allow_hp,
                *old(m),
                *final(m),
            ),
            ({
                let (c, log) = motion::motion_done(
                    old(b)@,
                    old(self).fc,
                    *cands,
                    mode_ctx as int,
                    old(self).allow_hp,
                    *old(m),
                    *final(m),
                );
                &&& final(b)@ == c
                &&& tallied(old(self).counts, final(self).counts, log)
            }),
            *final(m) == (ModeInfo {
                bmi_mv: final(m).bmi_mv,
                mode: final(m).mode,
                mv: final(m).mv,
                ..*old(m)
            }),
            valid_mi(*final(m)),
    {
        motion::read_inter_block_motion(
            b,
            &self.fc,
            &mut self.counts,
            cands,
            mode_ctx,
            self.allow_hp,
            m,
        );
    }

    /// Puts the mode information of a block into all cells that it covers.
    pub fn store_mi(&mut self, mi_row: usize, mi_col: usize, m: ModeInfo)
        requires
            old(self).wf(),
            mi_row < old(self).mi_rows,
            mi_col < old(self).mi_cols,
            valid_mi(m),
        ensures
            final(self).wf(),
            final(self).mi@ == filled(
                old(self).mi@,
                old(self).mi_cols as int,
                old(self).rect(m.sb_type as int, mi_row as int, mi_col as int),
                m,
            ),
            *final(self) == (Reconstructor { mi: final(self).mi, ..*old(self) }),
    {
        let (w, h): (usize, usize) = self.seg_mis(mi_row, mi_col, m.sb_type as usize);
        grid::fill(&mut self.mi, self.mi_rows, self.mi_cols, mi_row, mi_col, w, h, m);
    }
}

/// The segment that is predicted is the least in the block's cells of the map before: no
/// cell has a lesser one, and where all cells agree it is theirs. Without a map it is 0.
pub proof fn law_predicted_segment_is_least(p: Seq<u8>, rows: int, cols: int, r: Rect, y: int, x: int)
    requires
        p.len() == rows * cols,
        grid::fits(r, rows, cols),
        valid_map(p),
        0 <= y < r.h,
        0 <= x < r.w,
    ensures
        predicted_segment(None, cols, r) == 0,
        predicted_segment(Some(p), cols, r) <= p[cell(cols, r.row + y, r.col + x)],
{
    let k = y * r.w + x;
    assert(0 <= k < r.w * r.h) by (nonlinear_arith)
        requires
            0 <= y < r.h,
            0 <= x < r.w,
            k == y * r.w + x,
    ;
    vstd::arithmetic::div_mod::lemma_fundamental_div_mod_converse(k, r.w, y, x);
    grid::law_least_is_minimum(p, rows, cols, r, 7, (r.w * r.h) as nat);
    assert(predicted_segment(Some(p), cols, r) <= p[cell(
        cols,
        r.row + k / r.w,
        r.col + k % r.w,
    )]);
}

/// The context of the prediction flag is the number of neighbours that were predicted.
pub proof fn law_segment_context_counts(a: &ModeInfo, l: &ModeInfo)
    ensures
        segment_ctx(None, None) == 0,
        a.seg_id_predicted <==> segment_ctx(Some(a), None) == 1,
        a.seg_id_predicted <==> segment_ctx(None, Some(a)) == 1,
        a.seg_id_predicted && l.seg_id_predicted <==> segment_ctx(Some(a), Some(l)) == 2,
        a.seg_id_predicted != l.seg_id_predicted <==> segment_ctx(Some(a), Some(l)) == 1,
{
}

/// Where segments are off, or the map is not sent, nothing is read of them; else the number
/// that a block has is the one in each of its cells of the map, and cells outside it keep
/// theirs.
pub proof fn law_segment_goes_to_map(
    c: Cursor,
    seg: Seg,
    prev: Option<Seq<u8>>,
    map: Seq<u8>,
    cols: int,
    r: Rect,
    above: Option<&ModeInfo>,
    left: Option<&ModeInfo>,
    i: int,
)
    requires
        0 <= i < map.len(),
        0 < cols,
    ensures
        ({
            let (sid, predicted, after, d) = inter_segment_read(
                c,
                seg,
                prev,
                map,
                cols,
                r,
                above,
                left,
            );
            let (key_sid, key_after, key_d) = intra_segment_read(c, seg, prev, map, cols, r);
            &&& !seg.enabled ==> sid == 0 && !predicted && after == map && d == c
            &&& !seg.enabled ==> key_sid == 0 && key_after == map && key_d == c
            &&& seg.enabled && !seg.update_map ==> d == c && !predicted && key_d == c && key_sid
                == 0 && sid == predicted_segment(prev, cols, r)
            &&& seg.enabled && seg.update_map ==> {
                &&& after[i] == (if r.row <= i / cols < r.row + r.h && r.col <= i % cols < r.col + r.w {
                    sid as u8
                } else {
                    map[i]
                })
                &&& key_after[i] == (if r.row <= i / cols < r.row + r.h && r.col <= i % cols < r.col + r.w {
                    key_sid as u8
                } else {
                    map[i]
                })
            }
            &&& predicted ==> seg.enabled && seg.update_map && seg.temporal_update && sid
                == predicted_segment(prev, cols, r)
            &&& seg.enabled && seg.update_map && !seg.temporal_update ==> (sid, d) == segment_read(
                c,
                seg,
            )
            &&& seg.enabled && seg.update_map && seg.temporal_update ==> predicted
                == coding::read_bit(c, seg.pred_probs[segment_ctx(above, left)])
        }),
{
}

/// A segment can leave out the residual of its blocks and fix their reference; then neither
/// is read. A transform size is read for all blocks but inter blocks without residual.
pub proof fn law_flags_as_far_as_open(
    c: Cursor,
    fc: FrameContext,
    seg: Seg,
    sid: int,
    bsize: int,
    above: Option<&ModeInfo>,
    left: Option<&ModeInfo>,
)
    requires
        0 <= sid < 8,
        0 <= bsize < 13,
    ensures
        ({
            let (v, d, log) = flags_read(c, fc, seg, sid, bsize, above, left);
            let skips = seg.enabled && seg.feature_enabled[sid][3];
            let fixed = seg.enabled && seg.feature_enabled[sid][2];
            let p = fc.skip_probs[skip_ctx(above, left)];
            let q = fc.intra_inter_prob[contexts::intra_inter_ctx(above, left)];
            let c1 = if skips {
                c
            } else {
                coding::read_next(c, p)
            };
            let c2 = if fixed {
                c1
            } else {
                coding::read_next(c1, q)
            };
            &&& skips ==> v.0
            &&& !skips ==> v.0 == coding::read_bit(c, p)
            &&& fixed ==> v.1 == (seg.feature_data[sid][2] != 0)
            &&& !fixed ==> v.1 == coding::read_bit(c1, q)
            &&& v.0 && v.1 ==> d == c2
            &&& !(v.0 && v.1) ==> (v.2, d) == ({
                let t = modeinfo::tx_read(c2, fc, bsize, above, left, true);
                (t.0, t.1)
            })
        }),
{
}

/// What was read of the residual and of intra or inter is counted with its context, and
/// nothing where it was not read.
pub proof fn law_flags_are_counted(
    c: Cursor,
    fc: FrameContext,
    seg: Seg,
    sid: int,
    above: Option<&ModeInfo>,
    left: Option<&ModeInfo>,
)
    requires
        0 <= sid < 8,
    ensures
        ({
            let (skip, _, l1) = skip_read(c, fc, seg, sid, above, left);
            let (inter, _, l2) = inter_read(c, fc, seg, sid, above, left);
            let x = skip_ctx(above, left);
            let y = contexts::intra_inter_ctx(above, left);
            let skips = seg.enabled && seg.feature_enabled[sid][3];
            let fixed = seg.enabled && seg.feature_enabled[sid][2];
            &&& skips ==> l1.len() == 0
            &&& !skips && skip ==> l1 == seq![Count::Skip(x, 1)]
            &&& !skips && !skip ==> l1 == seq![Count::Skip(x, 0)]
            &&& fixed ==> l2.len() == 0
            &&& !fixed && inter ==> l2 == seq![Count::IntraInter(y, 1)]
            &&& !fixed && !inter ==> l2 == seq![Count::IntraInter(y, 0)]
        }),
{
}

} // verus!
