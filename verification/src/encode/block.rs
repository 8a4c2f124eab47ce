//! Writing the mode information of blocks.
use vstd::prelude::*;

use crate::block::{
    flag, kf_uv_mode_probs, kf_y_mode_probs, skip_context, skip_ctx, tx_size_context, tx_size_ctx,
    ModeInfo, Mv, BLOCK_8X8, NEARESTMV, NEARMV, NEWMV, TX_MODE_SELECT,
};
use crate::coding;
use crate::coding::{sym, Cursor, Sym};
use crate::context::FrameContext;
use crate::decode::contexts;
use crate::decode::contexts::{
    comp_ref_context, intra_inter_context, reference_mode_context, single_ref_p1, single_ref_p2,
    switchable_interp_context,
};
use crate::decode::modeinfo;
use crate::decode::modeinfo::{valid_context, valid_mi, valid_side};
use crate::decode::motion;
use crate::decode::motion::{part_bases, part_nears, part_read, MvCandidates};
use crate::decode::reconstructor;
use crate::decode::segmentation::Seg;
use crate::encode::bitwriter::BoolEncoder;
use crate::encode::intermode::{
    filter_syms, inter_mode_syms, law_filter_read_inverts_write, law_inter_mode_read_inverts_write,
    law_single_ref_read_inverts_write, single_ref_syms, write_comp_inter, write_comp_ref,
    write_inter_mode, write_interp_filter, write_is_inter, write_single_ref,
};
use crate::encode::mv::{
    component_codable, difference_syms, encode_mv, law_difference_read_inverts_write,
};
use crate::encode::syntax::{
    intra_mode_syms, law_intra_mode_read_inverts_write, law_segment_read_inverts_write,
    law_tx_size_read_inverts_write, segment_syms, tx_size_syms, write_intra_mode,
    write_segment_id, write_selected_tx_size, write_skip,
};
use crate::geom_tables::{MAX_TXSIZE, SIZE_GROUP};
use crate::mv::{abs, is_short};
use crate::prob_tables::{NmvContext, KF_UV_MODE_PROBS};

verus! {

// ---------------------------------------------------------------------------
// What is written
// ---------------------------------------------------------------------------

/// The segment of a block, where the frame has segments.
pub open spec fn segment_part(sid: int, tree: Option<Seq<u8>>) -> Seq<Sym> {
    match tree {
        Some(probs) => segment_syms(sid, probs),
        None => Seq::empty(),
    }
}

/// The probabilities of the transform size of a block.
pub open spec fn tx_probs(fc: FrameContext, max_tx: int, ctx: int) -> Seq<u8> {
    if max_tx == 1 {
        fc.tx_p8x8[ctx]@
    } else if max_tx == 2 {
        fc.tx_p16x16[ctx]@
    } else {
        fc.tx_p32x32[ctx]@
    }
}

/// The transform size of a block, where each block names its own.
#[verifier::opaque]
pub open spec fn tx_part(
    fc: FrameContext,
    m: ModeInfo,
    select: bool,
    above: Option<&ModeInfo>,
    left: Option<&ModeInfo>,
) -> Seq<Sym> {
    let max_tx = MAX_TXSIZE[m.sb_type as int] as int;
    if select && max_tx >= 1 {
        tx_size_syms(
            m.tx_size as int,
            tx_probs(fc, max_tx, tx_size_ctx(max_tx, above, left)),
            max_tx,
        )
    } else {
        Seq::empty()
    }
}

/// What comes before the prediction of a block of an inter frame.
#[verifier::opaque]
pub open spec fn flags_part(
    fc: FrameContext,
    m: ModeInfo,
    select: bool,
    above: Option<&ModeInfo>,
    left: Option<&ModeInfo>,
) -> Seq<Sym> {
    seq![sym(m.skip, fc.skip_probs[skip_ctx(above, left)])] + (seq![
        sym(m.is_inter, fc.intra_inter_prob[contexts::intra_inter_ctx(above, left)]),
    ] + tx_part(fc, m, select && !m.skip, above, left))
}

/// The reference of a block with one.
pub open spec fn one_ref_part(
    fc: FrameContext,
    ref_frame: int,
    above: Option<&ModeInfo>,
    left: Option<&ModeInfo>,
) -> Seq<Sym> {
    single_ref_syms(
        ref_frame,
        fc.single_ref_prob[contexts::single_ref_ctx1(above, left)][0],
        fc.single_ref_prob[contexts::single_ref_ctx2(above, left)][1],
    )
}

/// The variable reference of a block with two: that which does not stand in the place
/// of the fixed one.
pub open spec fn var_ref(fc: FrameContext, m: ModeInfo, sign_bias: Seq<bool>) -> int {
    m.ref_frame[1 - flag(sign_bias[fc.comp_fixed_ref as int])] as int
}

/// The context of the variable reference.
pub open spec fn var_ref_ctx(
    fc: FrameContext,
    sign_bias: Seq<bool>,
    above: Option<&ModeInfo>,
    left: Option<&ModeInfo>,
) -> int {
    let fixed = fc.comp_fixed_ref as int;
    contexts::comp_ref_ctx(
        above,
        left,
        1 - flag(sign_bias[fixed]),
        fixed,
        fc.comp_var_ref[0] as int,
        fc.comp_var_ref[1] as int,
    )
}

/// The references of a block.
pub open spec fn refs_part(
    fc: FrameContext,
    m: ModeInfo,
    sign_bias: Seq<bool>,
    above: Option<&ModeInfo>,
    left: Option<&ModeInfo>,
) -> Seq<Sym> {
    if fc.reference_mode == 2 {
        let ctx = contexts::reference_mode_ctx(above, left, fc.comp_fixed_ref as int);
        seq![sym(m.compound(), fc.comp_inter_prob[ctx])] + (if m.compound() {
            seq![
                sym(
                    var_ref(fc, m, sign_bias) == fc.comp_var_ref[1],
                    fc.comp_ref_prob[var_ref_ctx(fc, sign_bias, above, left)],
                ),
            ]
        } else {
            one_ref_part(fc, m.ref_frame[0] as int, above, left)
        })
    } else {
        one_ref_part(fc, m.ref_frame[0] as int, above, left)
    }
}

/// The mode of a block from 8x8 on.
pub open spec fn mode_part(fc: FrameContext, m: ModeInfo, mode_ctx: int) -> Seq<Sym> {
    if m.sb_type >= BLOCK_8X8 {
        inter_mode_syms(m.mode as int, fc.inter_mode_probs[mode_ctx]@)
    } else {
        Seq::empty()
    }
}

/// The filter of a block, where each block names its own.
pub open spec fn filter_part(
    fc: FrameContext,
    m: ModeInfo,
    frame_filter: int,
    above: Option<&ModeInfo>,
    left: Option<&ModeInfo>,
) -> Seq<Sym> {
    if frame_filter == 4 {
        filter_syms(
            m.interp_filter as int,
            fc.switchable_interp_prob[contexts::interp_ctx(above, left)]@,
        )
    } else {
        Seq::empty()
    }
}

/// The references, the mode and the filter of an inter block.
#[verifier::opaque]
pub open spec fn head_part(
    fc: FrameContext,
    m: ModeInfo,
    sign_bias: Seq<bool>,
    frame_filter: int,
    mode_ctx: int,
    above: Option<&ModeInfo>,
    left: Option<&ModeInfo>,
) -> Seq<Sym> {
    refs_part(fc, m, sign_bias, above, left) + (mode_part(fc, m, mode_ctx) + filter_part(
        fc,
        m,
        frame_filter,
        above,
        left,
    ))
}

/// The difference of two vectors.
pub open spec fn difference(v: Mv, base: Mv) -> (int, int) {
    (v.0 - base.0, v.1 - base.1)
}

/// A new vector, as its difference from `base`.
pub open spec fn vector_part(n: NmvContext, v: Mv, base: Mv, allow_hp: bool) -> Seq<Sym> {
    difference_syms(difference(v, base), n, allow_hp && is_short(base))
}

/// The vectors of a block from 8x8 on: only new ones are coded.
pub open spec fn vectors_part(
    n: NmvContext,
    mode: int,
    vs: Seq<Mv>,
    base: Seq<Mv>,
    compound: bool,
    allow_hp: bool,
) -> Seq<Sym> {
    if mode != NEWMV {
        Seq::empty()
    } else if compound {
        vector_part(n, vs[0], base[0], allow_hp) + vector_part(n, vs[1], base[1], allow_hp)
    } else {
        vector_part(n, vs[0], base[0], allow_hp)
    }
}

/// The mode and the vector of a part of a block below 8x8.
#[verifier::opaque]
pub open spec fn part_part(
    fc: FrameContext,
    m: ModeInfo,
    base: Mv,
    mode_ctx: int,
    allow_hp: bool,
    part: int,
) -> Seq<Sym> {
    inter_mode_syms(m.bmi[part] as int, fc.inter_mode_probs[mode_ctx]@) + (if m.bmi[part]
        == NEWMV {
        vector_part(fc.nmvc, m.bmi_mv[part][0], base, allow_hp)
    } else {
        Seq::empty()
    })
}

/// The parts of a block below 8x8: all four of a 4x4 block, or the first of each half.
#[verifier::opaque]
pub open spec fn parts_part(
    fc: FrameContext,
    m: ModeInfo,
    base: Mv,
    mode_ctx: int,
    allow_hp: bool,
) -> Seq<Sym> {
    let p = |i: int| part_part(fc, m, base, mode_ctx, allow_hp, i);
    if m.sb_type == 0 {
        p(0) + (p(1) + (p(2) + p(3)))
    } else if m.sb_type == 1 {
        p(0) + p(1)
    } else {
        p(0) + p(2)
    }
}

/// The vectors of an inter block.
#[verifier::opaque]
pub open spec fn motion_part(
    fc: FrameContext,
    m: ModeInfo,
    base: Seq<Mv>,
    mode_ctx: int,
    allow_hp: bool,
) -> Seq<Sym> {
    if m.sb_type < BLOCK_8X8 {
        parts_part(fc, m, base[0], mode_ctx, allow_hp)
    } else {
        vectors_part(fc.nmvc, m.mode as int, m.mv@, base, m.compound(), allow_hp)
    }
}

/// The modes of an intra block of an inter frame.
pub open spec fn intra_part(fc: FrameContext, m: ModeInfo) -> Seq<Sym> {
    intra_mode_syms(m.mode as int, fc.y_mode_prob[SIZE_GROUP[m.sb_type as int] as int]@)
        + intra_mode_syms(m.uv_mode as int, fc.uv_mode_prob[m.mode as int]@)
}

/// A block of an inter frame.
pub open spec fn inter_frame_block(
    fc: FrameContext,
    m: ModeInfo,
    sid: int,
    tree: Option<Seq<u8>>,
    select: bool,
    sign_bias: Seq<bool>,
    frame_filter: int,
    mode_ctx: int,
    base: Seq<Mv>,
    allow_hp: bool,
    above: Option<&ModeInfo>,
    left: Option<&ModeInfo>,
) -> Seq<Sym> {
    segment_part(sid, tree) + (flags_part(fc, m, select, above, left) + (if m.is_inter {
        head_part(fc, m, sign_bias, frame_filter, mode_ctx, above, left) + motion_part(
            fc,
            m,
            base,
            mode_ctx,
            allow_hp,
        )
    } else {
        intra_part(fc, m)
    }))
}

/// The modes of a block of an intra frame from 8x8 on.
#[verifier::opaque]
pub open spec fn kf_part(
    m: ModeInfo,
    above: Option<&ModeInfo>,
    left: Option<&ModeInfo>,
) -> Seq<Sym> {
    intra_mode_syms(m.mode as int, modeinfo::kf_probs(m, above, left, 0)) + intra_mode_syms(
        m.uv_mode as int,
        KF_UV_MODE_PROBS[m.mode as int]@,
    )
}

/// A block of an intra frame from 8x8 on.
pub open spec fn intra_frame_block(
    fc: FrameContext,
    m: ModeInfo,
    sid: int,
    tree: Option<Seq<u8>>,
    select: bool,
    above: Option<&ModeInfo>,
    left: Option<&ModeInfo>,
) -> Seq<Sym> {
    segment_part(sid, tree) + (seq![sym(m.skip, fc.skip_probs[skip_ctx(above, left)])] + (tx_part(
        fc,
        m,
        select,
        above,
        left,
    ) + kf_part(m, above, left)))
}

/// The contents of optional tree probabilities.
pub open spec fn tree_of(tree: Option<&[u8; 7]>) -> Option<Seq<u8>> {
    match tree {
        Some(t) => Some(t@),
        None => None,
    }
}

/// A vector can be coded as its difference from `base`.
pub open spec fn reachable(v: Mv, base: Mv) -> bool {
    abs(v.0 - base.0) <= 16384 && abs(v.1 - base.1) <= 16384
}

/// The new vectors of `m` can be coded.
pub open spec fn vectors_reachable(m: ModeInfo, base: Seq<Mv>) -> bool {
    if m.sb_type < BLOCK_8X8 {
        forall|i: int|
            0 <= i < 4 && m.bmi[i] == NEWMV ==> reachable(#[trigger] m.bmi_mv[i][0], base[0])
    } else {
        m.mode == NEWMV ==> reachable(m.mv[0], base[0]) && (m.compound() ==> reachable(
            m.mv[1],
            base[1],
        ))
    }
}

/// The modes of `m` are modes that can be coded.
pub open spec fn modes_codable(m: ModeInfo) -> bool {
    if !m.is_inter {
        m.sb_type >= BLOCK_8X8 && m.mode < 10 && m.uv_mode < 10
    } else if m.sb_type < BLOCK_8X8 {
        !m.compound() && forall|i: int| 0 <= i < 4 ==> 10 <= #[trigger] m.bmi[i] <= 13
    } else {
        10 <= m.mode <= 13
    }
}

// ---------------------------------------------------------------------------
// Writing
// ---------------------------------------------------------------------------

/// Writes the transform size of a block.
pub fn write_tx_size(
    enc: &mut BoolEncoder,
    fc: &FrameContext,
    tx_size: u8,
    ctx: usize,
    max_tx: usize,
)
    requires
        old(enc).wf(),
        ctx < 2,
        max_tx <= 3,
    ensures
        final(enc).wf(),
        final(enc)@ == old(enc)@ + tx_size_syms(
            tx_size as int,
            tx_probs(*fc, max_tx as int, ctx as int),
            max_tx as int,
        ),
{
    if max_tx == 1 {
        write_selected_tx_size(enc, tx_size, &fc.tx_p8x8[ctx], max_tx);
    } else if max_tx == 2 {
        write_selected_tx_size(enc, tx_size, &fc.tx_p16x16[ctx], max_tx);
    } else {
        write_selected_tx_size(enc, tx_size, &fc.tx_p32x32[ctx], max_tx);
    }
}

/// Writes the transform size of a block, where each block names its own.
fn write_tx_part(
    enc: &mut BoolEncoder,
    fc: &FrameContext,
    m: &ModeInfo,
    select: bool,
    above: Option<&ModeInfo>,
    left: Option<&ModeInfo>,
)
    requires
        old(enc).wf(),
        m.sb_type < 13,
        valid_side(above),
        valid_side(left),
    ensures
        final(enc).wf(),
        final(enc)@ == old(enc)@ + tx_part(*fc, *m, select, above, left),
{
    proof {
        reveal(tx_part);
    }
    let max_tx: usize = MAX_TXSIZE[m.sb_type as usize] as usize;
    assert(max_tx <= 3) by {
        assert(forall|i: int| 0 <= i < 13 ==> #[trigger] MAX_TXSIZE[i] <= 3);
    }
    if select && max_tx >= 1 {
        let ctx: usize = tx_size_context(m, above, left);
        write_tx_size(enc, fc, m.tx_size, ctx, max_tx);
    } else {
        assert(enc@ =~= enc@ + Seq::<Sym>::empty());
    }
}

/// Writes the segment of a block, where the frame has segments.
fn write_segment_part(enc: &mut BoolEncoder, sid: u8, tree: Option<&[u8; 7]>)
    requires
        old(enc).wf(),
        sid < 8,
    ensures
        final(enc).wf(),
        final(enc)@ == old(enc)@ + segment_part(sid as int, tree_of(tree)),
{
    match tree {
        Some(probs) => {
            write_segment_id(enc, sid, probs);
        },
        None => {
            assert(enc@ =~= enc@ + Seq::<Sym>::empty());
        },
    }
}

/// Writes what comes before the prediction of a block of an inter frame.
fn write_flags(
    enc: &mut BoolEncoder,
    fc: &FrameContext,
    m: &ModeInfo,
    select: bool,
    above: Option<&ModeInfo>,
    left: Option<&ModeInfo>,
)
    requires
        old(enc).wf(),
        m.sb_type < 13,
        valid_side(above),
        valid_side(left),
    ensures
        final(enc).wf(),
        final(enc)@ == old(enc)@ + flags_part(*fc, *m, select, above, left),
{
    proof {
        reveal(flags_part);
    }
    let ghost start = enc@;
    let sctx: usize = skip_context(above, left);
    write_skip(enc, m.skip, fc.skip_probs[sctx]);
    let ictx: usize = intra_inter_context(above, left);
    write_is_inter(enc, m.is_inter, fc.intra_inter_prob[ictx]);
    write_tx_part(enc, fc, m, select && !m.skip, above, left);
    assert(enc@ =~= start + flags_part(*fc, *m, select, above, left));
}

/// Writes the reference of a block with one.
fn write_one_ref(
    enc: &mut BoolEncoder,
    fc: &FrameContext,
    ref_frame: i8,
    above: Option<&ModeInfo>,
    left: Option<&ModeInfo>,
)
    requires
        old(enc).wf(),
    ensures
        final(enc).wf(),
        final(enc)@ == old(enc)@ + one_ref_part(*fc, ref_frame as int, above, left),
{
    let ctx0: usize = single_ref_p1(above, left);
    let ctx1: usize = single_ref_p2(above, left);
    write_single_ref(enc, ref_frame, fc.single_ref_prob[ctx0][0], fc.single_ref_prob[ctx1][1]);
}

/// Writes the references of a block.
fn write_refs(
    enc: &mut BoolEncoder,
    fc: &FrameContext,
    m: &ModeInfo,
    sign_bias: &[bool; 4],
    above: Option<&ModeInfo>,
    left: Option<&ModeInfo>,
)
    requires
        old(enc).wf(),
        valid_context(*fc),
        -1 <= m.ref_frame[0] <= 3,
        -1 <= m.ref_frame[1] <= 3,
    ensures
        final(enc).wf(),
        final(enc)@ == old(enc)@ + refs_part(*fc, *m, sign_bias@, above, left),
{
    let ghost start = enc@;
    if fc.reference_mode == 2 {
        let ctx: usize = reference_mode_context(above, left, fc.comp_fixed_ref);
        let two: bool = m.has_second_ref();
        write_comp_inter(enc, two, fc.comp_inter_prob[ctx]);
        if two {
            let cctx: usize = comp_ref_context(
                above,
                left,
                sign_bias,
                fc.comp_fixed_ref,
                &fc.comp_var_ref,
            );
            let idx: usize = if sign_bias[fc.comp_fixed_ref] {
                0
            } else {
                1
            };
            let var: i8 = m.ref_frame[idx];
            let bit: bool = var == fc.comp_var_ref[1] as i8;
            write_comp_ref(enc, bit as u32, fc.comp_ref_prob[cctx]);
        } else {
            write_one_ref(enc, fc, m.ref_frame[0], above, left);
        }
        assert(enc@ =~= start + refs_part(*fc, *m, sign_bias@, above, left));
    } else {
        write_one_ref(enc, fc, m.ref_frame[0], above, left);
    }
}

/// Writes the references, the mode and the filter of an inter block.
fn write_head(
    enc: &mut BoolEncoder,
    fc: &FrameContext,
    m: &ModeInfo,
    sign_bias: &[bool; 4],
    frame_filter: u32,
    mode_ctx: usize,
    above: Option<&ModeInfo>,
    left: Option<&ModeInfo>,
)
    requires
        old(enc).wf(),
        valid_context(*fc),
        m.is_inter,
        modes_codable(*m),
        -1 <= m.ref_frame[0] <= 3,
        -1 <= m.ref_frame[1] <= 3,
        frame_filter == 4 ==> m.interp_filter < 3,
        mode_ctx < 7,
        valid_side(above),
        valid_side(left),
    ensures
        final(enc).wf(),
        final(enc)@ == old(enc)@ + head_part(
            *fc,
            *m,
            sign_bias@,
            frame_filter as int,
            mode_ctx as int,
            above,
            left,
        ),
{
    proof {
        reveal(head_part);
    }
    let ghost start = enc@;
    write_refs(enc, fc, m, sign_bias, above, left);
    if m.sb_type as usize >= BLOCK_8X8 {
        write_inter_mode(enc, m.mode, &fc.inter_mode_probs[mode_ctx]);
    }
    if frame_filter == 4 {
        let ctx: usize = switchable_interp_context(above, left);
        write_interp_filter(enc, m.interp_filter, &fc.switchable_interp_prob[ctx]);
    }
    assert(enc@ =~= start + head_part(
        *fc,
        *m,
        sign_bias@,
        frame_filter as int,
        mode_ctx as int,
        above,
        left,
    ));
}

/// Writes the mode and the vector of a part of a block below 8x8.
fn write_part(
    enc: &mut BoolEncoder,
    fc: &FrameContext,
    m: &ModeInfo,
    base: Mv,
    mode_ctx: usize,
    allow_hp: bool,
    part: usize,
)
    requires
        old(enc).wf(),
        mode_ctx < 7,
        part < 4,
        10 <= m.bmi[part as int] <= 13,
        m.bmi[part as int] == NEWMV ==> reachable(m.bmi_mv[part as int][0], base),
    ensures
        final(enc).wf(),
        final(enc)@ == old(enc)@ + part_part(
            *fc,
            *m,
            base,
            mode_ctx as int,
            allow_hp,
            part as int,
        ),
{
    proof {
        reveal(part_part);
    }
    let ghost start = enc@;
    write_inter_mode(enc, m.bmi[part], &fc.inter_mode_probs[mode_ctx]);
    if m.bmi[part] == NEWMV {
        encode_mv(enc, m.bmi_mv[part][0], base, &fc.nmvc, allow_hp);
    }
    assert(enc@ =~= start + part_part(*fc, *m, base, mode_ctx as int, allow_hp, part as int));
}

/// Writes the parts of a block below 8x8.
fn write_parts(
    enc: &mut BoolEncoder,
    fc: &FrameContext,
    m: &ModeInfo,
    base: Mv,
    mode_ctx: usize,
    allow_hp: bool,
)
    requires
        old(enc).wf(),
        mode_ctx < 7,
        forall|i: int| 0 <= i < 4 ==> 10 <= #[trigger] m.bmi[i] <= 13,
        forall|i: int|
            0 <= i < 4 && m.bmi[i] == NEWMV ==> reachable(#[trigger] m.bmi_mv[i][0], base),
    ensures
        final(enc).wf(),
        final(enc)@ == old(enc)@ + parts_part(*fc, *m, base, mode_ctx as int, allow_hp),
{
    let ghost start = enc@;
    let ghost p0 = part_part(*fc, *m, base, mode_ctx as int, allow_hp, 0);
    let ghost p1 = part_part(*fc, *m, base, mode_ctx as int, allow_hp, 1);
    let ghost p2 = part_part(*fc, *m, base, mode_ctx as int, allow_hp, 2);
    let ghost p3 = part_part(*fc, *m, base, mode_ctx as int, allow_hp, 3);
    proof {
        reveal(parts_part);
        assert(reachable(m.bmi_mv[0][0], base) || m.bmi[0] != NEWMV);
        assert(reachable(m.bmi_mv[1][0], base) || m.bmi[1] != NEWMV);
        assert(reachable(m.bmi_mv[2][0], base) || m.bmi[2] != NEWMV);
        assert(reachable(m.bmi_mv[3][0], base) || m.bmi[3] != NEWMV);
    }
    write_part(enc, fc, m, base, mode_ctx, allow_hp, 0);
    if m.sb_type == 0 {
        write_part(enc, fc, m, base, mode_ctx, allow_hp, 1);
        write_part(enc, fc, m, base, mode_ctx, allow_hp, 2);
        write_part(enc, fc, m, base, mode_ctx, allow_hp, 3);
        assert(start + p0 + p1 + p2 + p3 =~= start + (p0 + (p1 + (p2 + p3))));
    } else if m.sb_type == 1 {
        write_part(enc, fc, m, base, mode_ctx, allow_hp, 1);
        assert(start + p0 + p1 =~= start + (p0 + p1));
    } else {
        write_part(enc, fc, m, base, mode_ctx, allow_hp, 2);
        assert(start + p0 + p2 =~= start + (p0 + p2));
    }
}

/// Writes the vectors of an inter block.
fn write_motion(
    enc: &mut BoolEncoder,
    fc: &FrameContext,
    m: &ModeInfo,
    base: &[Mv; 2],
    mode_ctx: usize,
    allow_hp: bool,
)
    requires
        old(enc).wf(),
        mode_ctx < 7,
        m.is_inter,
        modes_codable(*m),
        vectors_reachable(*m, base@),
    ensures
        final(enc).wf(),
        final(enc)@ == old(enc)@ + motion_part(*fc, *m, base@, mode_ctx as int, allow_hp),
{
    proof {
        reveal(motion_part);
    }
    let ghost start = enc@;
    if (m.sb_type as usize) < BLOCK_8X8 {
        write_parts(enc, fc, m, base[0], mode_ctx, allow_hp);
    } else if m.mode == NEWMV {
        let ghost v0 = vector_part(fc.nmvc, m.mv[0], base[0], allow_hp);
        let ghost v1 = vector_part(fc.nmvc, m.mv[1], base[1], allow_hp);
        encode_mv(enc, m.mv[0], base[0], &fc.nmvc, allow_hp);
        if m.has_second_ref() {
            encode_mv(enc, m.mv[1], base[1], &fc.nmvc, allow_hp);
            assert(start + v0 + v1 =~= start + (v0 + v1));
        }
    } else {
        assert(start =~= start + Seq::<Sym>::empty());
    }
}

/// Writes a block of an inter frame. `tree` holds the probabilities of segments where
/// the frame has segments, `select` says whether each block names its transform size,
/// `mode_ctx` is the context of the mode, and `base` holds the vectors from which new
/// ones are coded.
pub fn write_inter_frame_block(
    enc: &mut BoolEncoder,
    fc: &FrameContext,
    m: &ModeInfo,
    sid: u8,
    tree: Option<&[u8; 7]>,
    select: bool,
    sign_bias: &[bool; 4],
    frame_filter: u32,
    mode_ctx: usize,
    base: &[Mv; 2],
    allow_hp: bool,
    above: Option<&ModeInfo>,
    left: Option<&ModeInfo>,
)
    requires
        old(enc).wf(),
        valid_context(*fc),
        m.sb_type < 13,
        -1 <= m.ref_frame[0] <= 3,
        -1 <= m.ref_frame[1] <= 3,
        modes_codable(*m),
        m.is_inter ==> vectors_reachable(*m, base@),
        frame_filter == 4 && m.is_inter ==> m.interp_filter < 3,
        sid < 8,
        mode_ctx < 7,
        valid_side(above),
        valid_side(left),
    ensures
        final(enc).wf(),
        final(enc)@ == old(enc)@ + inter_frame_block(
            *fc,
            *m,
            sid as int,
            tree_of(tree),
            select,
            sign_bias@,
            frame_filter as int,
            mode_ctx as int,
            base@,
            allow_hp,
            above,
            left,
        ),
{
    let ghost start = enc@;
    let ghost s = segment_part(sid as int, tree_of(tree));
    let ghost f = flags_part(*fc, *m, select, above, left);
    write_segment_part(enc, sid, tree);
    write_flags(enc, fc, m, select, above, left);
    if m.is_inter {
        let ghost h = head_part(
            *fc,
            *m,
            sign_bias@,
            frame_filter as int,
            mode_ctx as int,
            above,
            left,
        );
        let ghost v = motion_part(*fc, *m, base@, mode_ctx as int, allow_hp);
        write_head(enc, fc, m, sign_bias, frame_filter, mode_ctx, above, left);
        write_motion(enc, fc, m, base, mode_ctx, allow_hp);
        assert(start + s + f + h + v =~= start + (s + (f + (h + v))));
    } else {
        assert(SIZE_GROUP[m.sb_type as int] < 4) by {
            assert(forall|i: int| 0 <= i < 13 ==> #[trigger] SIZE_GROUP[i] < 4);
        }
        let ghost y = intra_mode_syms(
            m.mode as int,
            fc.y_mode_prob[SIZE_GROUP[m.sb_type as int] as int]@,
        );
        let ghost u = intra_mode_syms(m.uv_mode as int, fc.uv_mode_prob[m.mode as int]@);
        write_intra_mode(enc, m.mode, &fc.y_mode_prob[SIZE_GROUP[m.sb_type as usize] as usize]);
        write_intra_mode(enc, m.uv_mode, &fc.uv_mode_prob[m.mode as usize]);
        assert(start + s + f + y + u =~= start + (s + (f + (y + u))));
    }
}

/// Writes the modes of a block of an intra frame, from 8x8 on.
fn write_kf_modes(
    enc: &mut BoolEncoder,
    m: &ModeInfo,
    above: Option<&ModeInfo>,
    left: Option<&ModeInfo>,
)
    requires
        old(enc).wf(),
        m.sb_type >= 3,
        m.mode < 10,
        m.uv_mode < 10,
        valid_side(above),
        valid_side(left),
    ensures
        final(enc).wf(),
        final(enc)@ == old(enc)@ + kf_part(*m, above, left),
{
    let ghost start = enc@;
    proof {
        reveal(kf_part);
    }
    let yprobs: [u8; 9] = *kf_y_mode_probs(m, above, left, 0);
    write_intra_mode(enc, m.mode, &yprobs);
    write_intra_mode(enc, m.uv_mode, kf_uv_mode_probs(m.mode));
    assert(enc@ =~= start + kf_part(*m, above, left));
}

/// Writes a block of an intra frame, from 8x8 on.
pub fn write_intra_frame_block(
    enc: &mut BoolEncoder,
    fc: &FrameContext,
    m: &ModeInfo,
    sid: u8,
    tree: Option<&[u8; 7]>,
    select: bool,
    above: Option<&ModeInfo>,
    left: Option<&ModeInfo>,
)
    requires
        old(enc).wf(),
        3 <= m.sb_type < 13,
        valid_mi(*m),
        !m.is_inter,
        m.uv_mode < 10,
        sid < 8,
        valid_side(above),
        valid_side(left),
    ensures
        final(enc).wf(),
        final(enc)@ == old(enc)@ + intra_frame_block(
            *fc,
            *m,
            sid as int,
            tree_of(tree),
            select,
            above,
            left,
        ),
{
    let ghost start = enc@;
    let ghost g = segment_part(sid as int, tree_of(tree));
    let ghost s = seq![sym(m.skip, fc.skip_probs[skip_ctx(above, left)])];
    let ghost t = tx_part(*fc, *m, select, above, left);
    let ghost k = kf_part(*m, above, left);
    write_segment_part(enc, sid, tree);
    let sctx: usize = skip_context(above, left);
    write_skip(enc, m.skip, fc.skip_probs[sctx]);
    assert(enc@ =~= start + g + s);
    write_tx_part(enc, fc, m, select, above, left);
    write_kf_modes(enc, m, above, left);
    assert(start + g + s + t + k =~= start + (g + (s + (t + k))));
}

// ---------------------------------------------------------------------------
// Reading gives back what was written
// ---------------------------------------------------------------------------

/// The frame has the segments that `tree` says: none, or a map that is read through the
/// tree, and no segment fixes a reference or leaves out residuals.
pub open spec fn plain_segments(seg: Seg, tree: Option<Seq<u8>>) -> bool {
    &&& seg.enabled == tree is Some
    &&& tree is Some ==> seg.update_map && !seg.temporal_update && seg.tree_probs@ == tree.unwrap()
    &&& forall|s: int| 0 <= s < 8 ==> !#[trigger] seg.has(s, 2) && !seg.has(s, 3)
}

/// The transform size of `m` is one that its frame can say: at most the largest that
/// fits, and where it is not coded the one that follows from the frame's.
pub open spec fn tx_fits(fc: FrameContext, m: ModeInfo, select: bool, coded: bool) -> bool {
    let max_tx = MAX_TXSIZE[m.sb_type as int] as int;
    &&& (fc.tx_mode == TX_MODE_SELECT) == select
    &&& m.tx_size <= max_tx
    &&& !(coded && select && m.sb_type >= BLOCK_8X8) ==> m.tx_size == crate::adapt::min_int(
        max_tx,
        crate::geom_tables::TX_MODE_TO_BIGGEST_TX[fc.tx_mode as int] as int,
    )
}

/// Reading a transform size gives back what was written.
proof fn lemma_tx_read(
    c: Cursor,
    fc: FrameContext,
    m: ModeInfo,
    select: bool,
    coded: bool,
    above: Option<&ModeInfo>,
    left: Option<&ModeInfo>,
)
    requires
        m.sb_type < 13,
        tx_fits(fc, m, select, coded),
        coding::holds(c, tx_part(fc, m, select && coded, above, left)),
    ensures
        ({
            let (t, d, _) = modeinfo::tx_read(c, fc, m.sb_type as int, above, left, coded);
            &&& t == m.tx_size
            &&& d == coding::after(c, tx_part(fc, m, select && coded, above, left))
        }),
{
    reveal(tx_part);
    let max_tx = MAX_TXSIZE[m.sb_type as int] as int;
    assert(max_tx <= 3 && (m.sb_type >= 3 <==> max_tx >= 1));
    if coded && select && max_tx >= 1 {
        let ctx = tx_size_ctx(max_tx, above, left);
        law_tx_size_read_inverts_write(c, m.tx_size as int, tx_probs(fc, max_tx, ctx), max_tx);
    }
}

/// Reading what comes before the prediction of a block gives back what was written.
pub proof fn law_flags_read_inverts_write(
    c: Cursor,
    fc: FrameContext,
    seg: Seg,
    m: ModeInfo,
    sid: int,
    select: bool,
    above: Option<&ModeInfo>,
    left: Option<&ModeInfo>,
)
    requires
        m.sb_type < 13,
        0 <= sid < 8,
        !seg.has(sid, 2),
        !seg.has(sid, 3),
        m.skip ==> m.is_inter,
        tx_fits(fc, m, select, !m.skip),
        coding::holds(c, flags_part(fc, m, select, above, left)),
    ensures
        ({
            let (v, d, _) = reconstructor::flags_read(
                c,
                fc,
                seg,
                sid,
                m.sb_type as int,
                above,
                left,
            );
            &&& v == (m.skip, m.is_inter, m.tx_size as int)
            &&& d == coding::after(c, flags_part(fc, m, select, above, left))
        }),
{
    reveal(flags_part);
    let s = sym(m.skip, fc.skip_probs[skip_ctx(above, left)]);
    let i = sym(m.is_inter, fc.intra_inter_prob[contexts::intra_inter_ctx(above, left)]);
    let t = tx_part(fc, m, select && !m.skip, above, left);
    coding::lemma_holds_concat(c, seq![s], seq![i] + t);
    coding::lemma_holds_one(c, s);
    let c1 = coding::read_next(c, s.prob);
    coding::lemma_holds_concat(c1, seq![i], t);
    coding::lemma_holds_one(c1, i);
    let c2 = coding::read_next(c1, i.prob);
    lemma_tx_read(c2, fc, m, select, !m.skip, above, left);
}

/// The references of `m` are ones that its frame can say.
pub open spec fn refs_codable(fc: FrameContext, m: ModeInfo, sign_bias: Seq<bool>) -> bool {
    if m.compound() {
        let fixed = fc.comp_fixed_ref as int;
        let at = flag(sign_bias[fixed]);
        &&& fc.reference_mode == 2
        &&& m.ref_frame[at] == fixed
        &&& fc.comp_var_ref[0] != fc.comp_var_ref[1]
        &&& m.ref_frame[1 - at] == fc.comp_var_ref[0] || m.ref_frame[1 - at] == fc.comp_var_ref[1]
    } else {
        &&& fc.reference_mode != 1
        &&& 1 <= m.ref_frame[0] <= 3
        &&& m.ref_frame[1] == -1
    }
}

/// Reading the references of a block gives back what was written.
pub proof fn law_refs_read_inverts_write(
    c: Cursor,
    fc: FrameContext,
    seg: Seg,
    m: ModeInfo,
    sid: int,
    sign_bias: Seq<bool>,
    above: Option<&ModeInfo>,
    left: Option<&ModeInfo>,
)
    requires
        !seg.has(sid, 2),
        valid_context(fc),
        refs_codable(fc, m, sign_bias),
        coding::holds(c, refs_part(fc, m, sign_bias, above, left)),
    ensures
        ({
            let (refs, d, _) = modeinfo::refs_read(c, fc, seg, sid, sign_bias, above, left);
            &&& refs == (m.ref_frame[0] as int, m.ref_frame[1] as int)
            &&& d == coding::after(c, refs_part(fc, m, sign_bias, above, left))
        }),
{
    let one = one_ref_part(fc, m.ref_frame[0] as int, above, left);
    let p1 = fc.single_ref_prob[contexts::single_ref_ctx1(above, left)][0];
    let p2 = fc.single_ref_prob[contexts::single_ref_ctx2(above, left)][1];
    if fc.reference_mode == 2 {
        let ctx = contexts::reference_mode_ctx(above, left, fc.comp_fixed_ref as int);
        let s = sym(m.compound(), fc.comp_inter_prob[ctx]);
        let c1 = coding::read_next(c, s.prob);
        coding::lemma_holds_one(c, s);
        if m.compound() {
            let v = sym(
                var_ref(fc, m, sign_bias) == fc.comp_var_ref[1],
                fc.comp_ref_prob[var_ref_ctx(fc, sign_bias, above, left)],
            );
            coding::lemma_holds_concat(c, seq![s], seq![v]);
            coding::lemma_holds_one(c1, v);
        } else {
            coding::lemma_holds_concat(c, seq![s], one);
            law_single_ref_read_inverts_write(c1, m.ref_frame[0] as int, p1, p2);
        }
    } else {
        law_single_ref_read_inverts_write(c, m.ref_frame[0] as int, p1, p2);
    }
}

/// Reading the references, the mode and the filter of an inter block gives back what was
/// written. The mode of a block below 8x8 comes with its parts.
pub proof fn law_head_read_inverts_write(
    c: Cursor,
    fc: FrameContext,
    seg: Seg,
    m: ModeInfo,
    sid: int,
    sign_bias: Seq<bool>,
    frame_filter: int,
    mode_ctx: int,
    above: Option<&ModeInfo>,
    left: Option<&ModeInfo>,
)
    requires
        m.is_inter,
        modes_codable(m),
        !seg.has(sid, 2),
        !seg.has(sid, 3),
        valid_context(fc),
        refs_codable(fc, m, sign_bias),
        0 <= frame_filter <= 4,
        frame_filter == 4 ==> m.interp_filter < 3,
        frame_filter != 4 ==> m.interp_filter == frame_filter,
        coding::holds(
            c,
            head_part(fc, m, sign_bias, frame_filter, mode_ctx, above, left),
        ),
    ensures
        ({
            let (refs, c1, _) = modeinfo::refs_read(c, fc, seg, sid, sign_bias, above, left);
            let (mode, c2, _) = modeinfo::mode_read(
                c1,
                fc,
                seg,
                sid,
                m.sb_type as int,
                mode_ctx,
            );
            let (filter, c3, _) = modeinfo::filter_read(c2, fc, frame_filter, above, left);
            &&& refs == (m.ref_frame[0] as int, m.ref_frame[1] as int)
            &&& m.sb_type >= BLOCK_8X8 ==> mode == m.mode
            &&& filter == m.interp_filter
            &&& c3 == coding::after(
                c,
                head_part(fc, m, sign_bias, frame_filter, mode_ctx, above, left),
            )
        }),
{
    reveal(head_part);
    let r = refs_part(fc, m, sign_bias, above, left);
    let o = mode_part(fc, m, mode_ctx);
    let f = filter_part(fc, m, frame_filter, above, left);
    coding::lemma_holds_concat(c, r, o + f);
    law_refs_read_inverts_write(c, fc, seg, m, sid, sign_bias, above, left);
    let c1 = coding::after(c, r);
    coding::lemma_holds_concat(c1, o, f);
    let c2 = coding::after(c1, o);
    if m.sb_type >= BLOCK_8X8 {
        law_inter_mode_read_inverts_write(c1, m.mode as int, fc.inter_mode_probs[mode_ctx]@);
    }
    if frame_filter == 4 {
        law_filter_read_inverts_write(
            c2,
            m.interp_filter as int,
            fc.switchable_interp_prob[contexts::interp_ctx(above, left)]@,
        );
    }
}

/// A new vector can be coded exactly: it is in reach, and as precise as its base allows.
pub open spec fn vector_codable(v: Mv, base: Mv, allow_hp: bool) -> bool {
    let usehp = allow_hp && is_short(base);
    component_codable(v.0 - base.0, usehp) && component_codable(v.1 - base.1, usehp)
}

/// The vectors `vs` are those that mode `mode` can give: new ones that can be coded, or
/// just those that the surroundings suggest, or zero.
pub open spec fn vectors_codable(
    mode: int,
    vs: Seq<Mv>,
    base: Seq<Mv>,
    near: Seq<Mv>,
    compound: bool,
    allow_hp: bool,
) -> bool {
    &&& vs.len() == 2
    &&& if mode == NEWMV {
        &&& vector_codable(vs[0], base[0], allow_hp)
        &&& if compound {
            vector_codable(vs[1], base[1], allow_hp)
        } else {
            vs[1] == (0i32, 0i32)
        }
    } else if mode == NEARESTMV || mode == NEARMV {
        vs == near
    } else {
        vs == seq![(0i32, 0i32), (0i32, 0i32)]
    }
}

/// Reading the vectors that a mode gives gives back what was written.
pub proof fn law_vectors_read_inverts_write(
    c: Cursor,
    n: NmvContext,
    allow_hp: bool,
    mode: int,
    vs: Seq<Mv>,
    base: Seq<Mv>,
    near: Seq<Mv>,
    compound: bool,
)
    requires
        10 <= mode <= 13,
        vectors_codable(mode, vs, base, near, compound, allow_hp),
        coding::holds(c, vectors_part(n, mode, vs, base, compound, allow_hp)),
    ensures
        ({
            let (r, d, _) = motion::vectors_read(c, n, allow_hp, mode, base, near, compound);
            &&& r == vs
            &&& d == coding::after(c, vectors_part(n, mode, vs, base, compound, allow_hp))
        }),
{
    let r = motion::vectors_read(c, n, allow_hp, mode, base, near, compound).0;
    if mode == NEWMV {
        let d0 = difference(vs[0], base[0]);
        let h0 = allow_hp && is_short(base[0]);
        let s0 = difference_syms(d0, n, h0);
        if compound {
            let d1 = difference(vs[1], base[1]);
            let h1 = allow_hp && is_short(base[1]);
            coding::lemma_holds_concat(c, s0, difference_syms(d1, n, h1));
            law_difference_read_inverts_write(c, d0, n, h0);
            law_difference_read_inverts_write(coding::after(c, s0), d1, n, h1);
        } else {
            law_difference_read_inverts_write(c, d0, n, h0);
        }
    }
    assert(r =~= vs);
}

/// The mode and the vectors of part `part` of `m` can be coded.
pub open spec fn part_codable(
    cands: MvCandidates,
    m: ModeInfo,
    allow_hp: bool,
    part: int,
) -> bool {
    &&& 10 <= m.bmi[part] <= 13
    &&& vectors_codable(
        m.bmi[part] as int,
        m.bmi_mv[part]@,
        part_bases(cands, m, allow_hp),
        part_nears(cands, m, m.bmi[part] as int, part),
        m.compound(),
        allow_hp,
    )
}

/// Reading a part of a block below 8x8 gives back what was written.
proof fn lemma_part_read(
    c: Cursor,
    fc: FrameContext,
    cands: MvCandidates,
    m: ModeInfo,
    mode_ctx: int,
    allow_hp: bool,
    part: int,
)
    requires
        0 <= part < 4,
        !m.compound(),
        part_codable(cands, m, allow_hp, part),
        coding::holds(
            c,
            part_part(fc, m, part_bases(cands, m, allow_hp)[0], mode_ctx, allow_hp, part),
        ),
    ensures
        ({
            let (mode, vs, d, _) = part_read(c, fc, cands, m, mode_ctx, allow_hp, part);
            &&& mode == m.bmi[part]
            &&& vs == m.bmi_mv[part]@
            &&& d == coding::after(
                c,
                part_part(fc, m, part_bases(cands, m, allow_hp)[0], mode_ctx, allow_hp, part),
            )
        }),
{
    reveal(part_read);
    reveal(part_part);
    let mode = m.bmi[part] as int;
    let base = part_bases(cands, m, allow_hp);
    let near = part_nears(cands, m, mode, part);
    let probs = fc.inter_mode_probs[mode_ctx]@;
    let o = inter_mode_syms(mode, probs);
    let v = vectors_part(fc.nmvc, mode, m.bmi_mv[part]@, base, false, allow_hp);
    assert(part_part(fc, m, base[0], mode_ctx, allow_hp, part) =~= o + v);
    coding::lemma_holds_concat(c, o, v);
    law_inter_mode_read_inverts_write(c, mode, probs);
    law_vectors_read_inverts_write(
        coding::after(c, o),
        fc.nmvc,
        allow_hp,
        mode,
        m.bmi_mv[part]@,
        base,
        near,
        false,
    );
}

/// The parts of a block below 8x8 can be coded, parts that are not coded are those that
/// stand for them, and the block as a whole is its last part.
pub open spec fn parts_codable(cands: MvCandidates, m: ModeInfo, allow_hp: bool) -> bool {
    &&& !m.compound()
    &&& part_codable(cands, m, allow_hp, 0)
    &&& if m.sb_type == 0 {
        &&& part_codable(cands, m, allow_hp, 1)
        &&& part_codable(cands, m, allow_hp, 2)
        &&& part_codable(cands, m, allow_hp, 3)
        &&& m.mode == m.bmi[3]
    } else if m.sb_type == 1 {
        &&& part_codable(cands, m, allow_hp, 1)
        &&& m.bmi_mv[2]@ == m.bmi_mv[0]@
        &&& m.bmi_mv[3]@ == m.bmi_mv[1]@
        &&& m.mode == m.bmi[1]
    } else {
        &&& part_codable(cands, m, allow_hp, 2)
        &&& m.bmi_mv[1]@ == m.bmi_mv[0]@
        &&& m.bmi_mv[3]@ == m.bmi_mv[2]@
        &&& m.mode == m.bmi[2]
    }
    &&& m.mv == m.bmi_mv[3]
}

/// The vectors of an inter block can be coded, given what its surroundings suggest.
pub open spec fn motion_codable(cands: MvCandidates, m: ModeInfo, allow_hp: bool) -> bool {
    if m.sb_type < BLOCK_8X8 {
        parts_codable(cands, m, allow_hp)
    } else {
        let base = motion::base_mvs(cands, m, allow_hp);
        &&& 10 <= m.mode <= 13
        &&& vectors_codable(m.mode as int, m.mv@, base, base, m.compound(), allow_hp)
    }
}

/// The vectors from which the new ones of a block are coded.
pub open spec fn new_bases(cands: MvCandidates, m: ModeInfo, allow_hp: bool) -> Seq<Mv> {
    if m.sb_type < BLOCK_8X8 {
        part_bases(cands, m, allow_hp)
    } else {
        motion::base_mvs(cands, m, allow_hp)
    }
}

/// Reading the vectors of an inter block gives back what was written. The vectors of
/// modes that code none must be those that the surroundings suggest.
pub proof fn law_motion_read_inverts_write(
    c: Cursor,
    fc: FrameContext,
    cands: MvCandidates,
    before: ModeInfo,
    m: ModeInfo,
    mode_ctx: int,
    allow_hp: bool,
)
    requires
        motion_codable(cands, m, allow_hp),
        m.sb_type < 13,
        before == (ModeInfo { bmi_mv: before.bmi_mv, mode: before.mode, mv: before.mv, ..m }),
        m.sb_type >= BLOCK_8X8 ==> before.mode == m.mode && before.bmi_mv == m.bmi_mv,
        coding::holds(
            c,
            motion_part(fc, m, new_bases(cands, m, allow_hp), mode_ctx, allow_hp),
        ),
    ensures
        motion::motion_info(c, fc, cands, mode_ctx, allow_hp, before, m),
        motion::motion_done(c, fc, cands, mode_ctx, allow_hp, before, m).0 == coding::after(
            c,
            motion_part(fc, m, new_bases(cands, m, allow_hp), mode_ctx, allow_hp),
        ),
{
    reveal(parts_part);
    reveal(motion_part);
    if m.sb_type < BLOCK_8X8 {
        let base = part_bases(cands, m, allow_hp)[0];
        let p = |i: int| part_part(fc, m, base, mode_ctx, allow_hp, i);
        let c1 = coding::after(c, p(0));
        if m.sb_type == 0 {
            coding::lemma_holds_concat(c, p(0), p(1) + (p(2) + p(3)));
            coding::lemma_holds_concat(c1, p(1), p(2) + p(3));
            let c2 = coding::after(c1, p(1));
            coding::lemma_holds_concat(c2, p(2), p(3));
            let c3 = coding::after(c2, p(2));
            lemma_part_read(c, fc, cands, m, mode_ctx, allow_hp, 0);
            lemma_part_read(c1, fc, cands, m, mode_ctx, allow_hp, 1);
            lemma_part_read(c2, fc, cands, m, mode_ctx, allow_hp, 2);
            lemma_part_read(c3, fc, cands, m, mode_ctx, allow_hp, 3);
        } else if m.sb_type == 1 {
            coding::lemma_holds_concat(c, p(0), p(1));
            lemma_part_read(c, fc, cands, m, mode_ctx, allow_hp, 0);
            lemma_part_read(c1, fc, cands, m, mode_ctx, allow_hp, 1);
        } else {
            coding::lemma_holds_concat(c, p(0), p(2));
            lemma_part_read(c, fc, cands, m, mode_ctx, allow_hp, 0);
            lemma_part_read(c1, fc, cands, m, mode_ctx, allow_hp, 2);
        }
        assert(motion::part_vectors(m) =~= motion::parts_read(
            c,
            fc,
            cands,
            m,
            mode_ctx,
            allow_hp,
        ).0);
    } else {
        let base = motion::base_mvs(cands, m, allow_hp);
        assert(motion::base_mvs(cands, before, allow_hp) == base);
        law_vectors_read_inverts_write(
            c,
            fc.nmvc,
            allow_hp,
            m.mode as int,
            m.mv@,
            base,
            base,
            m.compound(),
        );
    }
}

/// Reading the modes of an intra block of an inter frame gives back what was written.
pub proof fn law_intra_block_read_inverts_write(c: Cursor, fc: FrameContext, m: ModeInfo)
    requires
        3 <= m.sb_type < 13,
        !m.is_inter,
        modes_codable(m),
        modeinfo::no_motion(m),
        m.bmi@ == seq![0u8, 0u8, 0u8, 0u8],
        coding::holds(c, intra_part(fc, m)),
    ensures
        modeinfo::intra_block_info(c, fc, m),
        modeinfo::intra_block_done(c, fc, m).0 == coding::after(c, intra_part(fc, m)),
{
    let yp = fc.y_mode_prob[SIZE_GROUP[m.sb_type as int] as int]@;
    let up = fc.uv_mode_prob[m.mode as int]@;
    let y = intra_mode_syms(m.mode as int, yp);
    let u = intra_mode_syms(m.uv_mode as int, up);
    coding::lemma_holds_concat(c, y, u);
    law_intra_mode_read_inverts_write(c, m.mode as int, yp);
    law_intra_mode_read_inverts_write(coding::after(c, y), m.uv_mode as int, up);
}

/// Reading the segment of a block gives back what was written.
pub proof fn law_segment_part_read_inverts_write(
    c: Cursor,
    seg: Seg,
    sid: int,
    tree: Option<Seq<u8>>,
    map: Seq<u8>,
    prev: Option<Seq<u8>>,
    cols: int,
    r: crate::grid::Rect,
    above: Option<&ModeInfo>,
    left: Option<&ModeInfo>,
)
    requires
        plain_segments(seg, tree),
        0 <= sid < 8,
        tree is None ==> sid == 0,
        coding::holds(c, segment_part(sid, tree)),
    ensures
        ({
            let (s, predicted, _, d) = reconstructor::inter_segment_read(
                c,
                seg,
                prev,
                map,
                cols,
                r,
                above,
                left,
            );
            &&& s == sid
            &&& !predicted
            &&& d == coding::after(c, segment_part(sid, tree))
        }),
        ({
            let (s, _, d) = reconstructor::intra_segment_read(c, seg, prev, map, cols, r);
            &&& s == sid
            &&& d == coding::after(c, segment_part(sid, tree))
        }),
{
    if tree is Some {
        law_segment_read_inverts_write(c, sid, tree.unwrap());
    }
}

/// Reading a block of an intra frame gives back what was written, behind its segment.
pub proof fn law_intra_frame_read_inverts_write(
    c: Cursor,
    fc: FrameContext,
    m: ModeInfo,
    select: bool,
    above: Option<&ModeInfo>,
    left: Option<&ModeInfo>,
)
    requires
        3 <= m.sb_type < 13,
        !m.is_inter,
        m.mode < 10,
        m.uv_mode < 10,
        !m.seg_id_predicted,
        modeinfo::no_motion(m),
        m.bmi@ == seq![0u8, 0u8, 0u8, 0u8],
        tx_fits(fc, m, select, true),
        coding::holds(c, intra_frame_block(fc, m, 0, None, select, above, left)),
    ensures
        modeinfo::intra_frame_info(
            c,
            fc,
            m.segment_id as int,
            m.sb_type as int,
            above,
            left,
            m,
        ),
        modeinfo::intra_frame_done(c, fc, m.sb_type as int, above, left, m).0 == coding::after(
            c,
            intra_frame_block(fc, m, 0, None, select, above, left),
        ),
{
    let s = sym(m.skip, fc.skip_probs[skip_ctx(above, left)]);
    let t = tx_part(fc, m, select, above, left);
    let yp = modeinfo::kf_probs(m, above, left, 0);
    let up = KF_UV_MODE_PROBS[m.mode as int]@;
    let y = intra_mode_syms(m.mode as int, yp);
    let u = intra_mode_syms(m.uv_mode as int, up);
    let all = seq![s] + (t + (y + u));
    reveal(kf_part);
    assert(intra_frame_block(fc, m, 0, None, select, above, left) =~= all);
    coding::lemma_holds_concat(c, seq![s], t + (y + u));
    coding::lemma_holds_one(c, s);
    let c1 = coding::read_next(c, s.prob);
    coding::lemma_holds_concat(c1, t, y + u);
    lemma_tx_read(c1, fc, m, select, true, above, left);
    let c2 = coding::after(c1, t);
    coding::lemma_holds_concat(c2, y, u);
    law_intra_mode_read_inverts_write(c2, m.mode as int, yp);
    law_intra_mode_read_inverts_write(coding::after(c2, y), m.uv_mode as int, up);
}

} // verus!
