//! Reading the mode information of blocks.
use vstd::prelude::*;

use crate::adapt::min_int;
use crate::bits::BoolDecoder;
use crate::block;
use crate::block::{
    flag, kf_uv_mode_probs, kf_y_mode_probs, mode_above, mode_left, read_intra_mode,
    read_selected_tx_size, skip_context, skip_ctx, tx_size_context, tx_size_ctx, ModeInfo,
    ALTREF_FRAME, BLOCK_8X8, DC_PRED, GOLDEN_FRAME, INTRA_FRAME, INTRA_MODE_TREE, LAST_FRAME,
    NEARESTMV, NONE_FRAME, TX_MODE_SELECT, ZEROMV,
};
use crate::coding;
use crate::coding::Cursor;
use crate::context::FrameContext;
use crate::decode::contexts;
use crate::decode::contexts::{
    comp_ref_context, reference_mode_context, single_ref_p1, single_ref_p2,
    switchable_interp_context,
};
use crate::decode::counts::{FrameCounts, INTER_MODE_TREE, SWITCHABLE_INTERP_TREE};
use crate::decode::segmentation::{Seg, SEG_LVL_REF_FRAME, SEG_LVL_SKIP};
use crate::decode::tally;
use crate::decode::tally::{tallied, Count};
use crate::geom_tables::{MAX_TXSIZE, SIZE_GROUP, TX_MODE_TO_BIGGEST_TX};
use crate::prob_tables;
use crate::prob_tables::KF_UV_MODE_PROBS;
use crate::token;
use crate::token::read_tree;

verus! {

// ---------------------------------------------------------------------------
// Validity
// ---------------------------------------------------------------------------

/// What holds of the mode information of every block.
pub open spec fn valid_mi(m: ModeInfo) -> bool {
    &&& m.sb_type < 13
    &&& !m.is_inter ==> m.mode < 10 && forall|i: int| 0 <= i < 4 ==> #[trigger] m.bmi[i] < 10
    &&& m.tx_size <= 3
    &&& m.interp_filter <= 3
    &&& m.segment_id < 8
    &&& forall|i: int| 0 <= i < 2 ==> -1 <= #[trigger] m.ref_frame[i] <= 3
}

/// What holds of a neighbour, if there is one.
pub open spec fn valid_side(m: Option<&ModeInfo>) -> bool {
    m is Some ==> valid_mi(*m.unwrap())
}

/// What holds of the probabilities of a frame: its modes are modes.
pub open spec fn valid_context(fc: FrameContext) -> bool {
    &&& fc.tx_mode < 5
    &&& fc.reference_mode <= 2
    &&& fc.comp_fixed_ref < 4
    &&& fc.comp_var_ref[0] < 4
    &&& fc.comp_var_ref[1] < 4
}

// ---------------------------------------------------------------------------
// Transform size
// ---------------------------------------------------------------------------

/// The transform size of a block of size `bsize`, and what is counted of it.
pub open spec fn tx_read(
    c: Cursor,
    fc: FrameContext,
    bsize: int,
    above: Option<&ModeInfo>,
    left: Option<&ModeInfo>,
    allow_select: bool,
) -> (int, Cursor, Seq<Count>) {
    let max_tx = MAX_TXSIZE[bsize] as int;
    if allow_select && fc.tx_mode == TX_MODE_SELECT && bsize >= BLOCK_8X8 {
        let ctx = tx_size_ctx(max_tx, above, left);
        if max_tx == 1 {
            let (t, d) = block::selected_tx_read(c, fc.tx_p8x8[ctx]@, max_tx);
            (t, d, seq![Count::Tx8(ctx, t)])
        } else if max_tx == 2 {
            let (t, d) = block::selected_tx_read(c, fc.tx_p16x16[ctx]@, max_tx);
            (t, d, seq![Count::Tx16(ctx, t)])
        } else {
            let (t, d) = block::selected_tx_read(c, fc.tx_p32x32[ctx]@, max_tx);
            (t, d, seq![Count::Tx32(ctx, t)])
        }
    } else {
        (min_int(max_tx, TX_MODE_TO_BIGGEST_TX[fc.tx_mode as int] as int), c, Seq::empty())
    }
}

/// Reads or derives the transform size of the block `cur`.
pub fn read_tx_size(
    b: &mut BoolDecoder,
    fc: &FrameContext,
    counts: &mut FrameCounts,
    cur: &ModeInfo,
    above: Option<&ModeInfo>,
    left: Option<&ModeInfo>,
    allow_select: bool,
) -> (r: u8)
    requires
        old(b).wf(),
        fc.tx_mode < 5,
        cur.sb_type < 13,
        old(counts).room(1),
    ensures
        final(b).wf(),
        ({
            let (t, c, log) = tx_read(
                old(b)@,
                *fc,
                cur.sb_type as int,
                above,
                left,
                allow_select,
            );
            &&& r == t
            &&& final(b)@ == c
            &&& tallied(*old(counts), *final(counts), log)
            &&& log.len() <= 1
        }),
        r <= 3,
{
    proof {
        tally::lemma_tally_none(*counts);
    }
    let bsize: usize = cur.sb_type as usize;
    let max_tx: usize = MAX_TXSIZE[bsize] as usize;
    assert(max_tx <= 3 && (bsize >= 3 ==> max_tx >= 1)) by {
        assert(forall|i: int| 0 <= i < 13 ==> #[trigger] MAX_TXSIZE[i] <= 3);
        assert(forall|i: int| 3 <= i < 13 ==> #[trigger] MAX_TXSIZE[i] >= 1);
    }
    if allow_select && fc.tx_mode == TX_MODE_SELECT && bsize >= BLOCK_8X8 {
        let ctx: usize = tx_size_context(cur, above, left);
        if max_tx == 1 {
            let t: u8 = read_selected_tx_size(b, &fc.tx_p8x8[ctx], max_tx);
            counts.count_tx_p8x8(ctx, t as usize);
            t
        } else if max_tx == 2 {
            let t: u8 = read_selected_tx_size(b, &fc.tx_p16x16[ctx], max_tx);
            counts.count_tx_p16x16(ctx, t as usize);
            t
        } else {
            let t: u8 = read_selected_tx_size(b, &fc.tx_p32x32[ctx], max_tx);
            counts.count_tx_p32x32(ctx, t as usize);
            t
        }
    } else {
        let cap: usize = TX_MODE_TO_BIGGEST_TX[fc.tx_mode] as usize;
        if max_tx < cap {
            max_tx as u8
        } else {
            cap as u8
        }
    }
}

// ---------------------------------------------------------------------------
// Key frames
// ---------------------------------------------------------------------------

/// The probabilities of the luma mode of part `b` in a key frame.
pub open spec fn kf_probs(
    m: ModeInfo,
    above: Option<&ModeInfo>,
    left: Option<&ModeInfo>,
    b: int,
) -> Seq<u8> {
    prob_tables::kf_y_mode_row(mode_above(m, above, b) as int, mode_left(m, left, b) as int)@
}

/// The luma mode of part `b` that is read from `c`, given the parts before it.
pub open spec fn kf_mode(
    c: Cursor,
    m: ModeInfo,
    above: Option<&ModeInfo>,
    left: Option<&ModeInfo>,
    b: int,
) -> int {
    token::tree_read(c, INTRA_MODE_TREE@, kf_probs(m, above, left, b))
}

/// The state after that.
pub open spec fn kf_done(
    c: Cursor,
    m: ModeInfo,
    above: Option<&ModeInfo>,
    left: Option<&ModeInfo>,
    b: int,
) -> Cursor {
    token::tree_done(c, INTRA_MODE_TREE@, kf_probs(m, above, left, b))
}

/// The luma modes of `m` are those read from `c` in a key frame: one for each part of
/// a 4x4 block, one for each half of a 4x8 or an 8x4 block, else one.
pub open spec fn kf_modes(
    c: Cursor,
    m: ModeInfo,
    above: Option<&ModeInfo>,
    left: Option<&ModeInfo>,
) -> bool {
    let c1 = kf_done(c, m, above, left, 0);
    if m.sb_type == 0 {
        let c2 = kf_done(c1, m, above, left, 1);
        let c3 = kf_done(c2, m, above, left, 2);
        &&& m.bmi[0] == kf_mode(c, m, above, left, 0)
        &&& m.bmi[1] == kf_mode(c1, m, above, left, 1)
        &&& m.bmi[2] == kf_mode(c2, m, above, left, 2)
        &&& m.bmi[3] == kf_mode(c3, m, above, left, 3)
        &&& m.mode == m.bmi[3]
    } else if m.sb_type == 1 {
        &&& m.bmi[0] == kf_mode(c, m, above, left, 0) && m.bmi[2] == m.bmi[0]
        &&& m.bmi[1] == kf_mode(c1, m, above, left, 1) && m.bmi[3] == m.bmi[1]
        &&& m.mode == m.bmi[1]
    } else if m.sb_type == 2 {
        &&& m.bmi[0] == kf_mode(c, m, above, left, 0) && m.bmi[1] == m.bmi[0]
        &&& m.bmi[2] == kf_mode(c1, m, above, left, 2) && m.bmi[3] == m.bmi[2]
        &&& m.mode == m.bmi[2]
    } else {
        &&& m.mode == kf_mode(c, m, above, left, 0)
        &&& m.bmi@ == seq![DC_PRED, DC_PRED, DC_PRED, DC_PRED]
    }
}

/// The state after the luma modes.
pub open spec fn kf_modes_done(
    c: Cursor,
    m: ModeInfo,
    above: Option<&ModeInfo>,
    left: Option<&ModeInfo>,
) -> Cursor {
    let c1 = kf_done(c, m, above, left, 0);
    if m.sb_type == 0 {
        let c2 = kf_done(c1, m, above, left, 1);
        let c3 = kf_done(c2, m, above, left, 2);
        kf_done(c3, m, above, left, 3)
    } else if m.sb_type == 1 {
        kf_done(c1, m, above, left, 1)
    } else if m.sb_type == 2 {
        kf_done(c1, m, above, left, 2)
    } else {
        c1
    }
}

/// The fields of `m` that only inter blocks have say nothing.
pub open spec fn no_motion(m: ModeInfo) -> bool {
    &&& m.ref_frame@ == seq![INTRA_FRAME, NONE_FRAME]
    &&& m.mv@ == seq![(0i32, 0i32), (0i32, 0i32)]
    &&& forall|i: int| 0 <= i < 4 ==> (#[trigger] m.bmi_mv[i])@ == seq![(0i32, 0i32), (0i32, 0i32)]
    &&& m.interp_filter == 3
}

/// `m` is the mode information of a block of size `bsize` that is read from `c` in a
/// key frame or an intra-only frame, behind its segment number `sid`.
pub open spec fn intra_frame_info(
    c: Cursor,
    fc: FrameContext,
    sid: int,
    bsize: int,
    above: Option<&ModeInfo>,
    left: Option<&ModeInfo>,
    m: ModeInfo,
) -> bool {
    let skip_prob = fc.skip_probs[skip_ctx(above, left)];
    let c1 = coding::read_next(c, skip_prob);
    let (tx, c2, _) = tx_read(c1, fc, bsize, above, left, true);
    let c3 = kf_modes_done(c2, m, above, left);
    &&& m.sb_type == bsize
    &&& !m.is_inter
    &&& m.segment_id == sid
    &&& !m.seg_id_predicted
    &&& m.skip == coding::read_bit(c, skip_prob)
    &&& m.tx_size == tx
    &&& kf_modes(c2, m, above, left)
    &&& m.uv_mode == token::tree_read(
        c3,
        INTRA_MODE_TREE@,
        KF_UV_MODE_PROBS[m.mode as int]@,
    )
    &&& no_motion(m)
}

/// The state after that, and what is counted.
pub open spec fn intra_frame_done(
    c: Cursor,
    fc: FrameContext,
    bsize: int,
    above: Option<&ModeInfo>,
    left: Option<&ModeInfo>,
    m: ModeInfo,
) -> (Cursor, Seq<Count>) {
    let c1 = coding::read_next(c, fc.skip_probs[skip_ctx(above, left)]);
    let (_, c2, log) = tx_read(c1, fc, bsize, above, left, true);
    let c3 = kf_modes_done(c2, m, above, left);
    (token::tree_done(c3, INTRA_MODE_TREE@, KF_UV_MODE_PROBS[m.mode as int]@), log)
}

/// The modes around part `b` of `m` are modes.
proof fn lemma_around(m: ModeInfo, above: Option<&ModeInfo>, left: Option<&ModeInfo>, b: int)
    requires
        valid_side(above),
        valid_side(left),
        0 <= b < 4,
        forall|i: int| 0 <= i < 4 ==> #[trigger] m.bmi[i] < 10,
    ensures
        mode_above(m, above, b) < 10,
        mode_left(m, left, b) < 10,
{
}

/// Reads the luma mode of part `part` in a key frame.
fn read_kf_mode(
    b: &mut BoolDecoder,
    m: &ModeInfo,
    above: Option<&ModeInfo>,
    left: Option<&ModeInfo>,
    part: usize,
) -> (r: u8)
    requires
        old(b).wf(),
        valid_side(above),
        valid_side(left),
        part < 4,
        forall|i: int| 0 <= i < 4 ==> #[trigger] m.bmi[i] < 10,
    ensures
        final(b).wf(),
        r == kf_mode(old(b)@, *m, above, left, part as int),
        final(b)@ == kf_done(old(b)@, *m, above, left, part as int),
        r < 10,
{
    proof {
        lemma_around(*m, above, left, part as int);
    }
    let p: &[u8; 9] = kf_y_mode_probs(m, above, left, part);
    read_intra_mode(b, p)
}

/// Reads the luma modes of a block of a key frame.
fn read_kf_modes(
    b: &mut BoolDecoder,
    m: &mut ModeInfo,
    above: Option<&ModeInfo>,
    left: Option<&ModeInfo>,
)
    requires
        old(b).wf(),
        valid_side(above),
        valid_side(left),
        old(m).bmi@ == seq![DC_PRED, DC_PRED, DC_PRED, DC_PRED],
    ensures
        final(b).wf(),
        kf_modes(old(b)@, *final(m), above, left),
        final(b)@ == kf_modes_done(old(b)@, *final(m), above, left),
        *final(m) == (ModeInfo { mode: final(m).mode, bmi: final(m).bmi, ..*old(m) }),
        final(m).mode < 10,
        forall|i: int| 0 <= i < 4 ==> #[trigger] final(m).bmi[i] < 10,
{
    if m.sb_type == 0 {
        let m0: u8 = read_kf_mode(b, m, above, left, 0);
        m.bmi[0] = m0;
        let m1: u8 = read_kf_mode(b, m, above, left, 1);
        m.bmi[1] = m1;
        let m2: u8 = read_kf_mode(b, m, above, left, 2);
        m.bmi[2] = m2;
        let m3: u8 = read_kf_mode(b, m, above, left, 3);
        m.bmi[3] = m3;
        m.mode = m3;
    } else if m.sb_type == 1 {
        let m0: u8 = read_kf_mode(b, m, above, left, 0);
        m.bmi[0] = m0;
        m.bmi[2] = m0;
        let m1: u8 = read_kf_mode(b, m, above, left, 1);
        m.bmi[1] = m1;
        m.bmi[3] = m1;
        m.mode = m1;
    } else if m.sb_type == 2 {
        let m0: u8 = read_kf_mode(b, m, above, left, 0);
        m.bmi[0] = m0;
        m.bmi[1] = m0;
        let m2: u8 = read_kf_mode(b, m, above, left, 2);
        m.bmi[2] = m2;
        m.bmi[3] = m2;
        m.mode = m2;
    } else {
        let m0: u8 = read_kf_mode(b, m, above, left, 0);
        m.mode = m0;
    }
}

/// Reads the mode information of a block of a key frame or an intra-only frame, behind
/// its segment number.
pub fn read_intra_frame_mode_info(
    b: &mut BoolDecoder,
    fc: &FrameContext,
    counts: &mut FrameCounts,
    sid: u8,
    bsize: usize,
    above: Option<&ModeInfo>,
    left: Option<&ModeInfo>,
) -> (m: ModeInfo)
    requires
        old(b).wf(),
        fc.tx_mode < 5,
        bsize < 13,
        sid < 8,
        valid_side(above),
        valid_side(left),
        old(counts).room(1),
    ensures
        final(b).wf(),
        intra_frame_info(old(b)@, *fc, sid as int, bsize as int, above, left, m),
        final(b)@ == intra_frame_done(old(b)@, *fc, bsize as int, above, left, m).0,
        tallied(
            *old(counts),
            *final(counts),
            intra_frame_done(old(b)@, *fc, bsize as int, above, left, m).1,
        ),
        intra_frame_done(old(b)@, *fc, bsize as int, above, left, m).1.len() <= 1,
        valid_mi(m),
{
    let mut m: ModeInfo = ModeInfo::default();
    m.sb_type = bsize as u8;
    m.segment_id = sid;
    let ctx: usize = skip_context(above, left);
    m.skip = b.read_bool(fc.skip_probs[ctx]) != 0;
    m.tx_size = read_tx_size(b, fc, counts, &m, above, left, true);
    read_kf_modes(b, &mut m, above, left);
    m.uv_mode = read_intra_mode(b, kf_uv_mode_probs(m.mode));
    m
}

// ---------------------------------------------------------------------------
// Intra blocks of inter frames
// ---------------------------------------------------------------------------

/// A luma mode of an inter frame, read from `c` in size group `g`.
pub open spec fn y_mode_read(c: Cursor, fc: FrameContext, g: int) -> int {
    token::tree_read(c, INTRA_MODE_TREE@, fc.y_mode_prob[g]@)
}

/// The state after that.
pub open spec fn y_mode_done(c: Cursor, fc: FrameContext, g: int) -> Cursor {
    token::tree_done(c, INTRA_MODE_TREE@, fc.y_mode_prob[g]@)
}

/// The luma modes of `m` are those read from `c` in an inter frame.
pub open spec fn y_modes(c: Cursor, fc: FrameContext, m: ModeInfo) -> bool {
    let c1 = y_mode_done(c, fc, 0);
    if m.sb_type == 0 {
        let c2 = y_mode_done(c1, fc, 0);
        let c3 = y_mode_done(c2, fc, 0);
        &&& m.bmi[0] == y_mode_read(c, fc, 0)
        &&& m.bmi[1] == y_mode_read(c1, fc, 0)
        &&& m.bmi[2] == y_mode_read(c2, fc, 0)
        &&& m.bmi[3] == y_mode_read(c3, fc, 0)
        &&& m.mode == m.bmi[3]
    } else if m.sb_type == 1 {
        &&& m.bmi[0] == y_mode_read(c, fc, 0) && m.bmi[2] == m.bmi[0]
        &&& m.bmi[1] == y_mode_read(c1, fc, 0) && m.bmi[3] == m.bmi[1]
        &&& m.mode == m.bmi[1]
    } else if m.sb_type == 2 {
        &&& m.bmi[0] == y_mode_read(c, fc, 0) && m.bmi[1] == m.bmi[0]
        &&& m.bmi[2] == y_mode_read(c1, fc, 0) && m.bmi[3] == m.bmi[2]
        &&& m.mode == m.bmi[2]
    } else {
        &&& m.mode == y_mode_read(c, fc, SIZE_GROUP[m.sb_type as int] as int)
        &&& m.bmi@ == seq![DC_PRED, DC_PRED, DC_PRED, DC_PRED]
    }
}

/// The state after the luma modes of `m`, and what is counted of them.
pub open spec fn y_modes_done(c: Cursor, fc: FrameContext, m: ModeInfo) -> (Cursor, Seq<Count>) {
    let c1 = y_mode_done(c, fc, 0);
    if m.sb_type == 0 {
        (
            y_mode_done(y_mode_done(y_mode_done(c1, fc, 0), fc, 0), fc, 0),
            seq![
                Count::YMode(0, m.bmi[0] as int),
                Count::YMode(0, m.bmi[1] as int),
                Count::YMode(0, m.bmi[2] as int),
                Count::YMode(0, m.bmi[3] as int),
            ],
        )
    } else if m.sb_type == 1 {
        (
            y_mode_done(c1, fc, 0),
            seq![Count::YMode(0, m.bmi[0] as int), Count::YMode(0, m.bmi[1] as int)],
        )
    } else if m.sb_type == 2 {
        (
            y_mode_done(c1, fc, 0),
            seq![Count::YMode(0, m.bmi[0] as int), Count::YMode(0, m.bmi[2] as int)],
        )
    } else {
        let g = SIZE_GROUP[m.sb_type as int] as int;
        (y_mode_done(c, fc, g), seq![Count::YMode(g, m.mode as int)])
    }
}

/// The modes of `m` are those of an intra block read from `c` in an inter frame.
pub open spec fn intra_block_info(c: Cursor, fc: FrameContext, m: ModeInfo) -> bool {
    let c1 = y_modes_done(c, fc, m).0;
    &&& y_modes(c, fc, m)
    &&& m.uv_mode == token::tree_read(c1, INTRA_MODE_TREE@, fc.uv_mode_prob[m.mode as int]@)
    &&& no_motion(m)
}

/// The state after that, and what is counted.
pub open spec fn intra_block_done(c: Cursor, fc: FrameContext, m: ModeInfo) -> (
    Cursor,
    Seq<Count>,
) {
    let (c1, log) = y_modes_done(c, fc, m);
    (
        token::tree_done(c1, INTRA_MODE_TREE@, fc.uv_mode_prob[m.mode as int]@),
        log + seq![Count::UvMode(m.mode as int, m.uv_mode as int)],
    )
}

/// Reads and counts a luma mode.
fn read_y_mode(
    b: &mut BoolDecoder,
    fc: &FrameContext,
    counts: &mut FrameCounts,
    g: usize,
) -> (r: u8)
    requires
        old(b).wf(),
        g < 4,
        old(counts).room(1),
    ensures
        final(b).wf(),
        r == y_mode_read(old(b)@, *fc, g as int),
        final(b)@ == y_mode_done(old(b)@, *fc, g as int),
        r < 10,
        tallied(*old(counts), *final(counts), seq![Count::YMode(g as int, r as int)]),
{
    let m: u8 = read_intra_mode(b, &fc.y_mode_prob[g]);
    counts.count_y_mode(g, m as usize);
    m
}

/// Two symbols counted one after the other.
proof fn lemma_tally2(a: FrameCounts, b: FrameCounts, c: FrameCounts, x: Seq<Count>, y: Count)
    requires
        tallied(a, b, x),
        tallied(b, c, seq![y]),
    ensures
        tallied(a, c, x.push(y)),
{
    tally::lemma_tally(a, b, c, x, seq![y]);
    assert(x + seq![y] =~= x.push(y));
}

/// Reads the modes of an intra block of an inter frame.
pub fn read_intra_block_mode_info_inter(
    b: &mut BoolDecoder,
    fc: &FrameContext,
    counts: &mut FrameCounts,
    m: &mut ModeInfo,
)
    requires
        old(b).wf(),
        old(m).sb_type < 13,
        old(m).bmi@ == seq![DC_PRED, DC_PRED, DC_PRED, DC_PRED],
        no_motion(*old(m)),
        old(counts).room(5),
    ensures
        final(b).wf(),
        intra_block_info(old(b)@, *fc, *final(m)),
        final(b)@ == intra_block_done(old(b)@, *fc, *final(m)).0,
        tallied(
            *old(counts),
            *final(counts),
            intra_block_done(old(b)@, *fc, *final(m)).1,
        ),
        intra_block_done(old(b)@, *fc, *final(m)).1.len() <= 5,
        *final(m) == (ModeInfo {
            mode: final(m).mode,
            bmi: final(m).bmi,
            uv_mode: final(m).uv_mode,
            ..*old(m)
        }),
        final(m).mode < 10,
        forall|i: int| 0 <= i < 4 ==> #[trigger] final(m).bmi[i] < 10,
{
    let ghost start = *counts;
    let ghost c0 = b@;
    let bsize: usize = m.sb_type as usize;
    let ghost mut log: Seq<Count> = Seq::empty();
    if bsize == 0 {
        let m0: u8 = read_y_mode(b, fc, counts, 0);
        let ghost k1 = *counts;
        let ghost l1 = seq![Count::YMode(0, m0 as int)];
        proof {
            tally::lemma_tally_room(start, k1, l1, 5);
        }
        let m1: u8 = read_y_mode(b, fc, counts, 0);
        let ghost k2 = *counts;
        let ghost l2 = l1.push(Count::YMode(0, m1 as int));
        proof {
            lemma_tally2(start, k1, k2, l1, Count::YMode(0, m1 as int));
            tally::lemma_tally_room(start, k2, l2, 5);
        }
        let m2: u8 = read_y_mode(b, fc, counts, 0);
        let ghost k3 = *counts;
        let ghost l3 = l2.push(Count::YMode(0, m2 as int));
        proof {
            lemma_tally2(start, k2, k3, l2, Count::YMode(0, m2 as int));
            tally::lemma_tally_room(start, k3, l3, 5);
        }
        let m3: u8 = read_y_mode(b, fc, counts, 0);
        proof {
            lemma_tally2(start, k3, *counts, l3, Count::YMode(0, m3 as int));
            log = l3.push(Count::YMode(0, m3 as int));
        }
        m.bmi = [m0, m1, m2, m3];
        m.mode = m3;
    } else if bsize == 1 {
        let m0: u8 = read_y_mode(b, fc, counts, 0);
        let ghost k1 = *counts;
        let ghost l1 = seq![Count::YMode(0, m0 as int)];
        proof {
            tally::lemma_tally_room(start, k1, l1, 5);
        }
        let m1: u8 = read_y_mode(b, fc, counts, 0);
        proof {
            lemma_tally2(start, k1, *counts, l1, Count::YMode(0, m1 as int));
            log = l1.push(Count::YMode(0, m1 as int));
        }
        m.bmi = [m0, m1, m0, m1];
        m.mode = m1;
    } else if bsize == 2 {
        let m0: u8 = read_y_mode(b, fc, counts, 0);
        let ghost k1 = *counts;
        let ghost l1 = seq![Count::YMode(0, m0 as int)];
        proof {
            tally::lemma_tally_room(start, k1, l1, 5);
        }
        let m2: u8 = read_y_mode(b, fc, counts, 0);
        proof {
            lemma_tally2(start, k1, *counts, l1, Count::YMode(0, m2 as int));
            log = l1.push(Count::YMode(0, m2 as int));
        }
        m.bmi = [m0, m0, m2, m2];
        m.mode = m2;
    } else {
        let g: usize = SIZE_GROUP[bsize] as usize;
        assert(g < 4) by {
            assert(forall|i: int| 0 <= i < 13 ==> #[trigger] SIZE_GROUP[i] < 4);
        }
        let m0: u8 = read_y_mode(b, fc, counts, g);
        m.mode = m0;
        proof {
            log = seq![Count::YMode(g as int, m0 as int)];
        }
    }
    let ghost k = *counts;
    proof {
        assert(log =~= y_modes_done(c0, *fc, *m).1);
        tally::lemma_tally_room(start, k, log, 5);
        assert(k.room(1)) by {
            assert forall|x: Count| tally::counted(x) implies #[trigger] k.times(x) + 1
                <= u32::MAX by {
                assert(k.times(x) + (5 - log.len()) <= u32::MAX);
            }
        }
    }
    let uv: u8 = read_intra_mode(b, &fc.uv_mode_prob[m.mode as usize]);
    counts.count_uv_mode(m.mode as usize, uv as usize);
    m.uv_mode = uv;
    proof {
        assert(y_modes_done(c0, *fc, *m).1 =~= log);
        tally::lemma_tally(
            start,
            k,
            *counts,
            log,
            seq![Count::UvMode(m.mode as int, m.uv_mode as int)],
        );
    }
}

// ---------------------------------------------------------------------------
// References, modes and filters of inter blocks
// ---------------------------------------------------------------------------

/// One reference or two: coded where each block states it.
pub open spec fn is_compound_read(
    c: Cursor,
    fc: FrameContext,
    above: Option<&ModeInfo>,
    left: Option<&ModeInfo>,
) -> (bool, Cursor, Seq<Count>) {
    if fc.reference_mode == 2 {
        let ctx = contexts::reference_mode_ctx(above, left, fc.comp_fixed_ref as int);
        let p = fc.comp_inter_prob[ctx];
        let two = coding::read_bit(c, p);
        (two, coding::read_next(c, p), seq![Count::CompInter(ctx, flag(two))])
    } else {
        (fc.reference_mode == 1, c, Seq::empty())
    }
}

/// The two references: the fixed one stands first or second by its direction.
pub open spec fn two_refs_read(
    c: Cursor,
    fc: FrameContext,
    sign_bias: Seq<bool>,
    above: Option<&ModeInfo>,
    left: Option<&ModeInfo>,
) -> ((int, int), Cursor, Seq<Count>) {
    let fixed = fc.comp_fixed_ref as int;
    let ctx = contexts::comp_ref_ctx(
        above,
        left,
        1 - flag(sign_bias[fixed]),
        fixed,
        fc.comp_var_ref[0] as int,
        fc.comp_var_ref[1] as int,
    );
    let p = fc.comp_ref_prob[ctx];
    let bit = flag(coding::read_bit(c, p));
    let var = fc.comp_var_ref[bit] as int;
    (
        if sign_bias[fixed] {
            (var, fixed)
        } else {
            (fixed, var)
        },
        coding::read_next(c, p),
        seq![Count::CompRef(ctx, bit)],
    )
}

/// The one reference.
pub open spec fn one_ref_read(
    c: Cursor,
    fc: FrameContext,
    above: Option<&ModeInfo>,
    left: Option<&ModeInfo>,
) -> (int, Cursor, Seq<Count>) {
    let ctx1 = contexts::single_ref_ctx1(above, left);
    let ctx2 = contexts::single_ref_ctx2(above, left);
    let p1 = fc.single_ref_prob[ctx1][0];
    let p2 = fc.single_ref_prob[ctx2][1];
    let c1 = coding::read_next(c, p1);
    if !coding::read_bit(c, p1) {
        (1, c1, seq![Count::SingleRef(ctx1, 0, 0)])
    } else {
        let alt = coding::read_bit(c1, p2);
        (
            2 + flag(alt),
            coding::read_next(c1, p2),
            seq![Count::SingleRef(ctx1, 0, 1), Count::SingleRef(ctx2, 1, flag(alt))],
        )
    }
}

/// The references of a block of segment `sid`, which may fix the reference.
pub open spec fn refs_read(
    c: Cursor,
    fc: FrameContext,
    seg: Seg,
    sid: int,
    sign_bias: Seq<bool>,
    above: Option<&ModeInfo>,
    left: Option<&ModeInfo>,
) -> ((int, int), Cursor, Seq<Count>) {
    if seg.has(sid, 2) {
        ((seg.feature_data[sid][2] as int, -1), c, Seq::empty())
    } else {
        let (two, c1, l1) = is_compound_read(c, fc, above, left);
        if two {
            let (refs, c2, l2) = two_refs_read(c1, fc, sign_bias, above, left);
            (refs, c2, l1 + l2)
        } else {
            let (f, c2, l2) = one_ref_read(c1, fc, above, left);
            ((f, -1), c2, l1 + l2)
        }
    }
}

/// Reads the references of a block.
pub fn read_ref_frames(
    b: &mut BoolDecoder,
    fc: &FrameContext,
    seg: &Seg,
    counts: &mut FrameCounts,
    sid: usize,
    sign_bias: &[bool; 4],
    above: Option<&ModeInfo>,
    left: Option<&ModeInfo>,
) -> (r: [i8; 2])
    requires
        old(b).wf(),
        valid_context(*fc),
        sid < 8,
        seg.has(sid as int, 2) ==> 0 <= seg.feature_data[sid as int][2] <= 3,
        old(counts).room(3),
    ensures
        final(b).wf(),
        ({
            let (refs, c, log) = refs_read(
                old(b)@,
                *fc,
                *seg,
                sid as int,
                sign_bias@,
                above,
                left,
            );
            &&& r[0] == refs.0
            &&& r[1] == refs.1
            &&& final(b)@ == c
            &&& tallied(*old(counts), *final(counts), log)
            &&& log.len() <= 3
        }),
        -1 <= r[0] <= 3,
        -1 <= r[1] <= 3,
{
    let ghost start = *counts;
    proof {
        tally::lemma_tally_none(start);
    }
    if seg.active(sid, SEG_LVL_REF_FRAME) {
        return [seg.feature_data[sid][2] as i8, NONE_FRAME];
    }
    let ghost l1 = is_compound_read(b@, *fc, above, left).2;
    let two: bool = if fc.reference_mode == 2 {
        let ctx: usize = reference_mode_context(above, left, fc.comp_fixed_ref);
        let bit: u32 = b.read_bool(fc.comp_inter_prob[ctx]);
        counts.count_comp_inter(ctx, bit as usize);
        bit == 1
    } else {
        fc.reference_mode == 1
    };
    let ghost k = *counts;
    proof {
        tally::lemma_tally_room(start, k, l1, 3);
    }
    if two {
        let ctx: usize = comp_ref_context(
            above,
            left,
            sign_bias,
            fc.comp_fixed_ref,
            &fc.comp_var_ref,
        );
        let bit: u32 = b.read_bool(fc.comp_ref_prob[ctx]);
        proof {
            lemma_room_less(k, 3 - l1.len(), 1);
        }
        counts.count_comp_ref(ctx, bit as usize);
        proof {
            tally::lemma_tally(start, k, *counts, l1, seq![Count::CompRef(ctx as int, bit as int)]);
        }
        let fixed: i8 = fc.comp_fixed_ref as i8;
        let var: i8 = fc.comp_var_ref[bit as usize] as i8;
        if sign_bias[fc.comp_fixed_ref] {
            [var, fixed]
        } else {
            [fixed, var]
        }
    } else {
        let ctx1: usize = single_ref_p1(above, left);
        let bit1: u32 = b.read_bool(fc.single_ref_prob[ctx1][0]);
        proof {
            lemma_room_less(k, 3 - l1.len(), 1);
        }
        counts.count_single_ref(ctx1, 0, bit1 as usize);
        let ghost k2 = *counts;
        let ghost x = seq![Count::SingleRef(ctx1 as int, 0, bit1 as int)];
        proof {
            tally::lemma_tally_room(k, k2, x, 3 - l1.len());
        }
        if bit1 != 0 {
            let ctx2: usize = single_ref_p2(above, left);
            let bit2: u32 = b.read_bool(fc.single_ref_prob[ctx2][1]);
            proof {
                lemma_room_less(k2, 2 - l1.len(), 1);
            }
            counts.count_single_ref(ctx2, 1, bit2 as usize);
            proof {
                let y = Count::SingleRef(ctx2 as int, 1, bit2 as int);
                lemma_tally2(k, k2, *counts, x, y);
                assert(x.push(y) =~= seq![x[0], y]);
                tally::lemma_tally(start, k, *counts, l1, x.push(y));
            }
            if bit2 != 0 {
                [ALTREF_FRAME, NONE_FRAME]
            } else {
                [GOLDEN_FRAME, NONE_FRAME]
            }
        } else {
            proof {
                tally::lemma_tally(start, k, *counts, l1, x);
            }
            [LAST_FRAME, NONE_FRAME]
        }
    }
}

/// Room for more is room for less.
proof fn lemma_room_less(k: FrameCounts, n: int, m: int)
    requires
        k.room(n),
        m <= n,
    ensures
        k.room(m),
{
    assert forall|x: Count| tally::counted(x) implies #[trigger] k.times(x) + m <= u32::MAX by {
        assert(k.times(x) + n <= u32::MAX);
    }
}

/// The tree of inter modes is one, and its leaves are the modes.
pub proof fn lemma_inter_mode_tree()
    ensures
        token::is_tree(INTER_MODE_TREE@, 3),
        forall|s: int| #[trigger] token::in_tree(INTER_MODE_TREE@, s) <==> 0 <= s < 4,
        token::is_tree(SWITCHABLE_INTERP_TREE@, 2),
        forall|s: int| #[trigger] token::in_tree(SWITCHABLE_INTERP_TREE@, s) <==> 0 <= s < 3,
{
    reveal_with_fuel(token::tree_ok, 4);
    reveal_with_fuel(token::has_leaf, 4);
}

/// Reads an inter mode.
pub fn read_inter_mode(b: &mut BoolDecoder, probs: &[u8; 3]) -> (r: u8)
    requires
        old(b).wf(),
    ensures
        final(b).wf(),
        r == 10 + token::tree_read(old(b)@, INTER_MODE_TREE@, probs@),
        final(b)@ == token::tree_done(old(b)@, INTER_MODE_TREE@, probs@),
        10 <= r <= 13,
{
    proof {
        lemma_inter_mode_tree();
    }
    NEARESTMV + read_tree(b, &INTER_MODE_TREE, probs) as u8
}

/// The interpolation filter: coded where each block names its own.
pub open spec fn filter_read(
    c: Cursor,
    fc: FrameContext,
    frame_filter: int,
    above: Option<&ModeInfo>,
    left: Option<&ModeInfo>,
) -> (int, Cursor, Seq<Count>) {
    if frame_filter == 4 {
        let ctx = contexts::interp_ctx(above, left);
        let probs = fc.switchable_interp_prob[ctx]@;
        let f = token::tree_read(c, SWITCHABLE_INTERP_TREE@, probs);
        (
            f,
            token::tree_done(c, SWITCHABLE_INTERP_TREE@, probs),
            seq![Count::Interp(ctx, f)],
        )
    } else {
        (frame_filter, c, Seq::empty())
    }
}

/// Reads the interpolation filter of a block.
pub fn read_switchable_interp_filter(
    b: &mut BoolDecoder,
    fc: &FrameContext,
    counts: &mut FrameCounts,
    frame_filter: u32,
    above: Option<&ModeInfo>,
    left: Option<&ModeInfo>,
) -> (r: u8)
    requires
        old(b).wf(),
        frame_filter <= 4,
        valid_side(above),
        valid_side(left),
        old(counts).room(1),
    ensures
        final(b).wf(),
        ({
            let (f, c, log) = filter_read(old(b)@, *fc, frame_filter as int, above, left);
            &&& r == f
            &&& final(b)@ == c
            &&& tallied(*old(counts), *final(counts), log)
            &&& log.len() <= 1
        }),
        r <= 3,
{
    proof {
        tally::lemma_tally_none(*counts);
        lemma_inter_mode_tree();
    }
    if frame_filter == 4 {
        let ctx: usize = switchable_interp_context(above, left);
        let f: u8 = read_tree(b, &SWITCHABLE_INTERP_TREE, &fc.switchable_interp_prob[ctx]) as u8;
        counts.count_switchable_interp(ctx, f as usize);
        f
    } else {
        frame_filter as u8
    }
}

/// The mode of an inter block: fixed by its segment, or coded unless its parts have
/// modes of their own.
pub open spec fn mode_read(
    c: Cursor,
    fc: FrameContext,
    seg: Seg,
    sid: int,
    bsize: int,
    mode_ctx: int,
) -> (int, Cursor, Seq<Count>) {
    if seg.has(sid, 3) {
        (ZEROMV as int, c, Seq::empty())
    } else if bsize >= BLOCK_8X8 {
        let probs = fc.inter_mode_probs[mode_ctx]@;
        let m = token::tree_read(c, INTER_MODE_TREE@, probs);
        (
            10 + m,
            token::tree_done(c, INTER_MODE_TREE@, probs),
            seq![Count::InterMode(mode_ctx, m)],
        )
    } else {
        (0, c, Seq::empty())
    }
}

/// The references, the mode and the filter of `m` are those of an inter block read
/// from `c`.
pub open spec fn inter_head(
    c: Cursor,
    fc: FrameContext,
    seg: Seg,
    sign_bias: Seq<bool>,
    frame_filter: int,
    mode_ctx: int,
    above: Option<&ModeInfo>,
    left: Option<&ModeInfo>,
    m: ModeInfo,
) -> bool {
    let sid = m.segment_id as int;
    let (refs, c1, _) = refs_read(c, fc, seg, sid, sign_bias, above, left);
    let (mode, c2, _) = mode_read(c1, fc, seg, sid, m.sb_type as int, mode_ctx);
    let (filter, _, _) = filter_read(c2, fc, frame_filter, above, left);
    &&& m.ref_frame[0] == refs.0
    &&& m.ref_frame[1] == refs.1
    &&& m.mode == mode
    &&& m.interp_filter == filter
}

/// The state after that, and what is counted.
pub open spec fn inter_head_done(
    c: Cursor,
    fc: FrameContext,
    seg: Seg,
    sid: int,
    bsize: int,
    sign_bias: Seq<bool>,
    frame_filter: int,
    mode_ctx: int,
    above: Option<&ModeInfo>,
    left: Option<&ModeInfo>,
) -> (Cursor, Seq<Count>) {
    let (_, c1, l1) = refs_read(c, fc, seg, sid, sign_bias, above, left);
    let (_, c2, l2) = mode_read(c1, fc, seg, sid, bsize, mode_ctx);
    let (_, c3, l3) = filter_read(c2, fc, frame_filter, above, left);
    (c3, l1 + l2 + l3)
}

/// Reads the references, the mode and the filter of an inter block. `mode_ctx` is the
/// context of its mode.
pub fn read_inter_block_head(
    b: &mut BoolDecoder,
    fc: &FrameContext,
    seg: &Seg,
    counts: &mut FrameCounts,
    sign_bias: &[bool; 4],
    frame_filter: u32,
    mode_ctx: usize,
    above: Option<&ModeInfo>,
    left: Option<&ModeInfo>,
    m: &mut ModeInfo,
)
    requires
        old(b).wf(),
        valid_context(*fc),
        old(m).sb_type < 13,
        old(m).segment_id < 8,
        old(m).mode == DC_PRED,
        seg.has(old(m).segment_id as int, 2) ==> 0 <= seg.feature_data[old(
            m,
        ).segment_id as int][2] <= 3,
        frame_filter <= 4,
        mode_ctx < 7,
        valid_side(above),
        valid_side(left),
        old(counts).room(5),
    ensures
        final(b).wf(),
        inter_head(
            old(b)@,
            *fc,
            *seg,
            sign_bias@,
            frame_filter as int,
            mode_ctx as int,
            above,
            left,
            *final(m),
        ),
        ({
            let (c, log) = inter_head_done(
                old(b)@,
                *fc,
                *seg,
                old(m).segment_id as int,
                old(m).sb_type as int,
                sign_bias@,
                frame_filter as int,
                mode_ctx as int,
                above,
                left,
            );
            &&& final(b)@ == c
            &&& tallied(*old(counts), *final(counts), log)
            &&& log.len() <= 5
        }),
        *final(m) == (ModeInfo {
            ref_frame: final(m).ref_frame,
            mode: final(m).mode,
            interp_filter: final(m).interp_filter,
            ..*old(m)
        }),
        final(m).interp_filter <= 3,
        forall|i: int| 0 <= i < 2 ==> -1 <= #[trigger] final(m).ref_frame[i] <= 3,
        final(m).sb_type >= 3 ==> 10 <= final(m).mode <= 13,
{
    let ghost start = *counts;
    let ghost c0 = b@;
    let sid: usize = m.segment_id as usize;
    proof {
        lemma_room_less(start, 5, 3);
    }
    let refs: [i8; 2] = read_ref_frames(b, fc, seg, counts, sid, sign_bias, above, left);
    let ghost (g1, c1, l1) = refs_read(c0, *fc, *seg, sid as int, sign_bias@, above, left);
    let ghost k1 = *counts;
    proof {
        tally::lemma_tally_room(start, k1, l1, 5);
        lemma_room_less(k1, 5 - l1.len(), 2);
        tally::lemma_tally_none(k1);
    }
    let mut mode: u8 = m.mode;
    let ghost (g2, c2, l2) = mode_read(
        c1,
        *fc,
        *seg,
        sid as int,
        m.sb_type as int,
        mode_ctx as int,
    );
    if seg.active(sid, SEG_LVL_SKIP) {
        mode = ZEROMV;
    } else if m.sb_type as usize >= BLOCK_8X8 {
        mode = read_inter_mode(b, &fc.inter_mode_probs[mode_ctx]);
        proof {
            lemma_room_less(k1, 2, 1);
        }
        counts.count_inter_mode(mode_ctx, (mode - NEARESTMV) as usize);
    }
    let ghost k2 = *counts;
    proof {
        tally::lemma_tally(start, k1, k2, l1, l2);
        tally::lemma_tally_room(start, k2, l1 + l2, 5);
        lemma_room_less(k2, 5 - (l1 + l2).len(), 1);
    }
    let filter: u8 = read_switchable_interp_filter(b, fc, counts, frame_filter, above, left);
    proof {
        let l3 = filter_read(c2, *fc, frame_filter as int, above, left).2;
        tally::lemma_tally(start, k2, *counts, l1 + l2, l3);
    }
    m.ref_frame = refs;
    m.mode = mode;
    m.interp_filter = filter;
}

/// The transform size is coded for blocks from 8x8 on where each may choose, with the
/// probabilities of the largest that fits; else nothing is read, and it is the largest
/// that fits the block and the mode of the frame.
pub proof fn law_tx_size_read_or_derived(
    c: Cursor,
    fc: FrameContext,
    bsize: int,
    above: Option<&ModeInfo>,
    left: Option<&ModeInfo>,
    allow_select: bool,
)
    requires
        0 <= bsize < 13,
        fc.tx_mode < 5,
    ensures
        ({
            let (t, d, log) = tx_read(c, fc, bsize, above, left, allow_select);
            let ctx = tx_size_ctx(MAX_TXSIZE[bsize] as int, above, left);
            let coded = allow_select && fc.tx_mode == 4 && bsize >= 3;
            &&& !coded ==> d == c && log.len() == 0 && t <= MAX_TXSIZE[bsize]
            &&& !coded && fc.tx_mode <= 3 ==> t <= fc.tx_mode && (t == MAX_TXSIZE[bsize] || t
                == fc.tx_mode)
            &&& !coded && fc.tx_mode == 4 ==> t == MAX_TXSIZE[bsize]
            &&& coded && 3 <= bsize < 6 ==> (t, d) == block::selected_tx_read(
                c,
                fc.tx_p8x8[ctx]@,
                1,
            ) && log == seq![Count::Tx8(ctx, t)]
            &&& coded && 6 <= bsize < 9 ==> (t, d) == block::selected_tx_read(
                c,
                fc.tx_p16x16[ctx]@,
                2,
            ) && log == seq![Count::Tx16(ctx, t)]
            &&& coded && bsize >= 9 ==> (t, d) == block::selected_tx_read(
                c,
                fc.tx_p32x32[ctx]@,
                3,
            ) && log == seq![Count::Tx32(ctx, t)]
        }),
{
}

/// Of two references the fixed one stands second if it lies in the other direction, else
/// first; the context of the other one looks at the place where it then stands.
pub proof fn law_fixed_reference_stands_by_direction(
    c: Cursor,
    fc: FrameContext,
    sign_bias: Seq<bool>,
    above: Option<&ModeInfo>,
    left: Option<&ModeInfo>,
)
    requires
        sign_bias.len() == 4,
        valid_context(fc),
    ensures
        ({
            let fixed = fc.comp_fixed_ref as int;
            let (refs, d, log) = two_refs_read(c, fc, sign_bias, above, left);
            let place = if sign_bias[fixed] {
                0int
            } else {
                1
            };
            let ctx = contexts::comp_ref_ctx(
                above,
                left,
                place,
                fixed,
                fc.comp_var_ref[0] as int,
                fc.comp_var_ref[1] as int,
            );
            let second = coding::read_bit(c, fc.comp_ref_prob[ctx]);
            let var = if second {
                fc.comp_var_ref[1] as int
            } else {
                fc.comp_var_ref[0] as int
            };
            &&& sign_bias[fixed] ==> refs.1 == fixed && refs.0 == var
            &&& !sign_bias[fixed] ==> refs.0 == fixed && refs.1 == var
            &&& d == coding::read_next(c, fc.comp_ref_prob[ctx])
            &&& log == seq![Count::CompRef(ctx, flag(second))]
        }),
{
}

/// A single reference is the last frame if the first bit is 0; else the second bit tells
/// golden from altref. Each bit has a context and a probability of its own.
pub proof fn law_single_reference_by_bits(
    c: Cursor,
    fc: FrameContext,
    above: Option<&ModeInfo>,
    left: Option<&ModeInfo>,
)
    ensures
        ({
            let x = contexts::single_ref_ctx1(above, left);
            let y = contexts::single_ref_ctx2(above, left);
            let c1 = coding::read_next(c, fc.single_ref_prob[x][0]);
            let (f, d, log) = one_ref_read(c, fc, above, left);
            let b1 = coding::read_bit(c, fc.single_ref_prob[x][0]);
            let b2 = coding::read_bit(c1, fc.single_ref_prob[y][1]);
            &&& !b1 <==> f == 1
            &&& b1 && !b2 <==> f == 2
            &&& b1 && b2 <==> f == 3
            &&& !b1 ==> d == c1
            &&& b1 ==> d == coding::read_next(c1, fc.single_ref_prob[y][1])
        }),
{
}

/// A segment may fix the reference of its blocks, and then nothing is read of it; a frame
/// may have blocks of one or of two references only, and then that is not read.
pub proof fn law_references_as_far_as_open(
    c: Cursor,
    fc: FrameContext,
    seg: Seg,
    sid: int,
    sign_bias: Seq<bool>,
    above: Option<&ModeInfo>,
    left: Option<&ModeInfo>,
)
    requires
        0 <= sid < 8,
    ensures
        ({
            let (refs, d, log) = refs_read(c, fc, seg, sid, sign_bias, above, left);
            let fixed = seg.enabled && seg.feature_enabled[sid][2];
            let one = one_ref_read(c, fc, above, left);
            let two = two_refs_read(c, fc, sign_bias, above, left);
            &&& fixed ==> refs == (seg.feature_data[sid][2] as int, -1int) && d == c && log.len()
                == 0
            &&& !fixed && fc.reference_mode == 0 ==> refs == (one.0, -1int) && d == one.1
            &&& !fixed && fc.reference_mode == 1 ==> refs == two.0 && d == two.1
        }),
{
}

/// Where blocks state whether they have one or two references, the bit 1 means two.
pub proof fn law_two_references_by_bit(
    c: Cursor,
    fc: FrameContext,
    seg: Seg,
    sid: int,
    sign_bias: Seq<bool>,
    above: Option<&ModeInfo>,
    left: Option<&ModeInfo>,
)
    requires
        0 <= sid < 8,
        !(seg.enabled && seg.feature_enabled[sid][2]),
        fc.reference_mode == 2,
    ensures
        ({
            let (refs, d, log) = refs_read(c, fc, seg, sid, sign_bias, above, left);
            let x = contexts::reference_mode_ctx(above, left, fc.comp_fixed_ref as int);
            let c1 = coding::read_next(c, fc.comp_inter_prob[x]);
            let one = one_ref_read(c1, fc, above, left);
            let two = two_refs_read(c1, fc, sign_bias, above, left);
            &&& coding::read_bit(c, fc.comp_inter_prob[x]) ==> refs == two.0 && d == two.1
            &&& !coding::read_bit(c, fc.comp_inter_prob[x]) ==> refs == (one.0, -1int) && d
                == one.1
        }),
{
}

/// The inter modes by their bits: zero if the first is 0, nearest if the second is, near if
/// the third is, else new.
pub proof fn law_inter_mode_by_bits(c: Cursor, probs: Seq<u8>)
    requires
        probs.len() == 3,
    ensures
        ({
            let m = 10 + token::tree_read(c, INTER_MODE_TREE@, probs);
            let c1 = coding::read_next(c, probs[0]);
            let c2 = coding::read_next(c1, probs[1]);
            let (b0, b1, b2) = (
                coding::read_bit(c, probs[0]),
                coding::read_bit(c1, probs[1]),
                coding::read_bit(c2, probs[2]),
            );
            &&& !b0 <==> m == 12
            &&& b0 && !b1 <==> m == 10
            &&& b0 && b1 && !b2 <==> m == 11
            &&& b0 && b1 && b2 <==> m == 13
        }),
{
    reveal_with_fuel(token::tree_value, 4);
}

/// The filter of a block is that of the frame, or is read where the frame leaves it to the
/// blocks: the number of 1 bits before the first 0 bit, up to two.
pub proof fn law_filter_of_frame_or_block(
    c: Cursor,
    fc: FrameContext,
    frame_filter: int,
    above: Option<&ModeInfo>,
    left: Option<&ModeInfo>,
)
    ensures
        ({
            let (f, d, log) = filter_read(c, fc, frame_filter, above, left);
            let probs = fc.switchable_interp_prob[contexts::interp_ctx(above, left)]@;
            let c1 = coding::read_next(c, probs[0]);
            &&& frame_filter != 4 ==> f == frame_filter && d == c && log.len() == 0
            &&& frame_filter == 4 ==> {
                &&& !coding::read_bit(c, probs[0]) <==> f == 0
                &&& coding::read_bit(c, probs[0]) && !coding::read_bit(c1, probs[1]) <==> f == 1
                &&& coding::read_bit(c, probs[0]) && coding::read_bit(c1, probs[1]) <==> f == 2
            }
        }),
{
    reveal_with_fuel(token::tree_value, 3);
}

/// A block of a segment without residual has the zero mode; else the mode is read for
/// blocks from 8x8 on, and smaller ones have modes of their parts.
pub proof fn law_mode_as_far_as_open(
    c: Cursor,
    fc: FrameContext,
    seg: Seg,
    sid: int,
    bsize: int,
    mode_ctx: int,
)
    requires
        0 <= sid < 8,
        0 <= mode_ctx < 7,
    ensures
        ({
            let (m, d, log) = mode_read(c, fc, seg, sid, bsize, mode_ctx);
            let skips = seg.enabled && seg.feature_enabled[sid][3];
            let probs = fc.inter_mode_probs[mode_ctx]@;
            &&& skips ==> m == 12 && d == c && log.len() == 0
            &&& !skips && bsize < 3 ==> d == c && log.len() == 0
            &&& !skips && bsize >= 3 ==> m == 10 + token::tree_read(c, INTER_MODE_TREE@, probs)
                && log == seq![Count::InterMode(mode_ctx, m - 10)]
        }),
{
}

/// Blocks from 8x8 on have one luma mode, and in inter frames it is read with the
/// probabilities of their size: those of 8x8 for sizes with a side of eight pixels, then
/// those of 16, 32 and more.
pub proof fn law_size_groups_by_short_side(bsize: int)
    requires
        0 <= bsize < 13,
    ensures
        SIZE_GROUP[bsize] == MAX_TXSIZE[bsize],
{
}

/// The mode of a block below 8x8 is that of its last part, so that its neighbours see the
/// part that touches them.
pub proof fn law_mode_of_parts_is_last(
    c: Cursor,
    fc: FrameContext,
    m: ModeInfo,
    above: Option<&ModeInfo>,
    left: Option<&ModeInfo>,
)
    requires
        m.sb_type < 3,
    ensures
        kf_modes(c, m, above, left) ==> m.mode == m.bmi[3],
        y_modes(c, fc, m) ==> m.mode == m.bmi[3],
{
}

/// What is counted of the references is what was read: of one or two, of each bit of a
/// single one, each with its context.
pub proof fn law_references_are_counted(
    c: Cursor,
    fc: FrameContext,
    above: Option<&ModeInfo>,
    left: Option<&ModeInfo>,
)
    ensures
        ({
            let x = contexts::single_ref_ctx1(above, left);
            let y = contexts::single_ref_ctx2(above, left);
            let z = contexts::reference_mode_ctx(above, left, fc.comp_fixed_ref as int);
            let (f, _, log) = one_ref_read(c, fc, above, left);
            let (two, _, more) = is_compound_read(c, fc, above, left);
            &&& f == 1 ==> log == seq![Count::SingleRef(x, 0, 0)]
            &&& f == 2 ==> log == seq![Count::SingleRef(x, 0, 1), Count::SingleRef(y, 1, 0)]
            &&& f == 3 ==> log == seq![Count::SingleRef(x, 0, 1), Count::SingleRef(y, 1, 1)]
            &&& fc.reference_mode != 2 ==> more.len() == 0
            &&& fc.reference_mode == 2 && two ==> more == seq![Count::CompInter(z, 1)]
            &&& fc.reference_mode == 2 && !two ==> more == seq![Count::CompInter(z, 0)]
        }),
{
}

/// What is counted of the references of a block is that of one or two and that of those,
/// one behind the other.
pub proof fn law_all_references_are_counted(
    c: Cursor,
    fc: FrameContext,
    seg: Seg,
    sid: int,
    sign_bias: Seq<bool>,
    above: Option<&ModeInfo>,
    left: Option<&ModeInfo>,
)
    requires
        0 <= sid < 8,
        !(seg.enabled && seg.feature_enabled[sid][2]),
    ensures
        ({
            let (two, c1, l1) = is_compound_read(c, fc, above, left);
            let log = refs_read(c, fc, seg, sid, sign_bias, above, left).2;
            &&& two ==> log == l1 + two_refs_read(c1, fc, sign_bias, above, left).2
            &&& !two ==> log == l1 + one_ref_read(c1, fc, above, left).2
        }),
{
}

/// The filter that was read is counted, where one was.
pub proof fn law_filters_are_counted(
    c: Cursor,
    fc: FrameContext,
    above: Option<&ModeInfo>,
    left: Option<&ModeInfo>,
)
    ensures
        ({
            let (f, _, log) = filter_read(c, fc, 4, above, left);
            log == seq![Count::Interp(contexts::interp_ctx(above, left), f)]
        }),
{
}

/// Each luma mode that was read in an inter frame is counted once, those of parts in the
/// first group, and the chroma mode with the luma mode.
pub proof fn law_intra_modes_are_counted(c: Cursor, fc: FrameContext, m: ModeInfo)
    requires
        m.sb_type < 13,
    ensures
        ({
            let log = intra_block_done(c, fc, m).1;
            let b = m.bmi;
            let uv = Count::UvMode(m.mode as int, m.uv_mode as int);
            &&& m.sb_type == 0 ==> log == seq![
                Count::YMode(0, b[0] as int),
                Count::YMode(0, b[1] as int),
                Count::YMode(0, b[2] as int),
                Count::YMode(0, b[3] as int),
                uv,
            ]
            &&& m.sb_type == 1 ==> log == seq![
                Count::YMode(0, b[0] as int),
                Count::YMode(0, b[1] as int),
                uv,
            ]
            &&& m.sb_type == 2 ==> log == seq![
                Count::YMode(0, b[0] as int),
                Count::YMode(0, b[2] as int),
                uv,
            ]
            &&& m.sb_type >= 3 ==> log == seq![
                Count::YMode(MAX_TXSIZE[m.sb_type as int] as int, m.mode as int),
                uv,
            ]
        }),
{
    let log = intra_block_done(c, fc, m).1;
    let uv = Count::UvMode(m.mode as int, m.uv_mode as int);
    let b = m.bmi;
    if m.sb_type == 0 {
        assert(log =~= seq![
            Count::YMode(0, b[0] as int),
            Count::YMode(0, b[1] as int),
            Count::YMode(0, b[2] as int),
            Count::YMode(0, b[3] as int),
            uv,
        ]);
    } else if m.sb_type == 1 {
        assert(log =~= seq![Count::YMode(0, b[0] as int), Count::YMode(0, b[1] as int), uv]);
    } else if m.sb_type == 2 {
        assert(log =~= seq![Count::YMode(0, b[0] as int), Count::YMode(0, b[2] as int), uv]);
    } else {
        law_size_groups_by_short_side(m.sb_type as int);
        assert(log =~= seq![
            Count::YMode(MAX_TXSIZE[m.sb_type as int] as int, m.mode as int),
            uv,
        ]);
    }
}

} // verus!
