//! What syntax costs, in 1/256 of bits. The costs of blocks are those of just the binary
//! decisions that are written for them; only new vectors are estimated.
use vstd::prelude::*;

use crate::block::{
    flag, kf_uv_mode_probs, kf_y_mode_probs, lemma_intra_mode_tree, lemma_partition_tree,
    skip_context, skip_ctx, tx_size_context, ModeInfo, Mv, ALTREF_FRAME, INTRA_MODE_TREE,
    LAST_FRAME, NEARESTMV, NEWMV, PARTITION_SPLIT, PARTITION_TREE,
};
use crate::coding::{sym, Sym};
use crate::context::FrameContext;
use crate::decode::contexts;
use crate::decode::contexts::{intra_inter_context, single_ref_p1, single_ref_p2};
use crate::decode::counts::INTER_MODE_TREE;
use crate::decode::modeinfo;
use crate::decode::modeinfo::{valid_mi, valid_side};
use crate::encode::bitwriter::{find_tree_path, path_fits, path_syms};
use crate::encode::block::{
    flags_part, intra_frame_block, intra_part, kf_part, modes_codable, one_ref_part, segment_part,
    tx_part, tx_probs,
};
use crate::encode::intermode::inter_mode_syms;
use crate::encode::syntax::{intra_mode_syms, partition_syms, tx_size_syms};
use crate::geom_tables::{MAX_TXSIZE, SIZE_GROUP};
use crate::mv::abs;
use crate::prob_tables::KF_UV_MODE_PROBS;
use crate::token;

verus! {

/// What a binary decision costs, for each value and each probability.
#[derive(Debug)]
pub struct BitCosts {
    pub of: [[u32; 256]; 2],
}

/// What a binary decision costs.
pub open spec fn sym_cost(t: BitCosts, s: Sym) -> int {
    t.of[flag(s.bit)][s.prob as int] as int
}

/// What some binary decisions cost.
pub open spec fn syms_cost(t: BitCosts, syms: Seq<Sym>) -> int
    decreases syms.len(),
{
    if syms.len() == 0 {
        0
    } else {
        syms_cost(t, syms.drop_last()) + sym_cost(t, syms.last())
    }
}

/// The costs of parts add up.
pub proof fn law_costs_add_up(t: BitCosts, a: Seq<Sym>, b: Seq<Sym>)
    ensures
        syms_cost(t, a + b) == syms_cost(t, a) + syms_cost(t, b),
    decreases b.len(),
{
    if b.len() == 0 {
        assert(a + b =~= a);
    } else {
        assert((a + b).drop_last() =~= a + b.drop_last());
        assert((a + b).last() == b.last());
        law_costs_add_up(t, a, b.drop_last());
    }
}

/// What one decision costs.
proof fn lemma_one(t: BitCosts, s: Sym)
    ensures
        syms_cost(t, seq![s]) == sym_cost(t, s),
{
    assert(seq![s].drop_last() =~= Seq::<Sym>::empty());
    reveal_with_fuel(syms_cost, 2);
}

/// What `n` decisions can cost at most.
proof fn lemma_cost_bound(t: BitCosts, syms: Seq<Sym>)
    ensures
        0 <= syms_cost(t, syms) <= syms.len() * u32::MAX,
    decreases syms.len(),
{
    if syms.len() > 0 {
        lemma_cost_bound(t, syms.drop_last());
        assert(syms.len() * u32::MAX == (syms.len() - 1) * u32::MAX + u32::MAX)
            by (nonlinear_arith);
    }
}

/// A path in a tree is no longer than the tree.
proof fn lemma_path_len(
    tree: Seq<i8>,
    probs: Seq<u8>,
    symbol: int,
    node: int,
    depth: nat,
)
    ensures
        match token::tree_path(tree, probs, symbol, node, depth) {
            Some(p) => p.len() <= depth,
            None => true,
        },
    decreases depth,
{
    if depth > 0 {
        let d = (depth - 1) as nat;
        lemma_path_len(tree, probs, symbol, tree[node] as int, d);
        lemma_path_len(tree, probs, symbol, tree[node + 1] as int, d);
    }
}

/// What a binary decision costs.
pub fn cost_bit(t: &BitCosts, prob: u8, bit: bool) -> (c: u64)
    ensures
        c == sym_cost(*t, sym(bit, prob)),
        c == syms_cost(*t, seq![sym(bit, prob)]),
        c <= u32::MAX,
{
    proof {
        lemma_one(*t, sym(bit, prob));
    }
    if bit {
        t.of[1][prob as usize] as u64
    } else {
        t.of[0][prob as usize] as u64
    }
}

/// What a symbol costs that is written through a tree.
pub fn tree_bit_cost(t: &BitCosts, tree: &[i8], probs: &[u8], symbol: i32) -> (c: u64)
    requires
        token::is_tree(tree@, probs@.len()),
        token::in_tree(tree@, symbol as int),
        tree@.len() <= 32,
    ensures
        c == syms_cost(*t, token::tree_syms(tree@, probs@, symbol as int)),
        c <= 0x20_0000_0000,
{
    let mut path: Vec<(usize, u32)> = Vec::new();
    let _found: bool = find_tree_path(
        tree,
        0,
        symbol,
        &mut path,
        Ghost(probs@),
        Ghost(tree@.len()),
    );
    let ghost all = path_syms(path@, probs@);
    proof {
        token::lemma_leaf_has_path(tree@, probs@, symbol as int, 0, tree@.len());
        assert(all =~= token::tree_syms(tree@, probs@, symbol as int));
        lemma_path_len(tree@, probs@, symbol as int, 0, tree@.len());
    }
    let n: usize = path.len();
    let mut c: u64 = 0;
    let mut i: usize = 0;
    while i < n
        invariant
            i <= n <= 32,
            n == path@.len(),
            all == path_syms(path@, probs@),
            path_fits(path@, probs@.len()),
            c == syms_cost(*t, all.take(i as int)),
            c <= i * 0xffff_ffff,
        decreases n - i,
    {
        let step: (usize, u32) = path[i];
        assert(all.take(i + 1).drop_last() =~= all.take(i as int));
        c = c + cost_bit(t, probs[step.0 / 2], step.1 != 0);
        i += 1;
    }
    assert(all.take(n as int) =~= all);
    c
}

/// What a transform size costs.
pub fn tx_size_cost_q8(
    t: &BitCosts,
    fc: &FrameContext,
    tx_size: u8,
    ctx: usize,
    max_tx: usize,
) -> (c: u64)
    requires
        ctx < 2,
        1 <= max_tx <= 3,
    ensures
        c == syms_cost(
            *t,
            tx_size_syms(
                tx_size as int,
                tx_probs(*fc, max_tx as int, ctx as int),
                max_tx as int,
            ),
        ),
        c <= 0x4_0000_0000,
{
    let ghost p = tx_probs(*fc, max_tx as int, ctx as int);
    let probs: &[u8] = if max_tx == 1 {
        &fc.tx_p8x8[ctx]
    } else if max_tx == 2 {
        &fc.tx_p16x16[ctx]
    } else {
        &fc.tx_p32x32[ctx]
    };
    let ghost s0 = sym(tx_size != 0, p[0]);
    let ghost s1 = sym(tx_size != 1, p[1]);
    let ghost s2 = sym(tx_size != 2, p[2]);
    let mut c: u64 = cost_bit(t, probs[0], tx_size != 0);
    if tx_size != 0 && max_tx >= 2 {
        c = c + cost_bit(t, probs[1], tx_size != 1);
        proof {
            law_costs_add_up(*t, seq![s0], seq![s1]);
            assert(seq![s0].push(s1) =~= seq![s0] + seq![s1]);
        }
        if tx_size != 1 && max_tx >= 3 {
            c = c + cost_bit(t, probs[2], tx_size != 2);
            proof {
                law_costs_add_up(*t, seq![s0].push(s1), seq![s2]);
                assert(seq![s0].push(s1).push(s2) =~= seq![s0].push(s1) + seq![s2]);
            }
        }
    }
    c
}

/// What the transform size of a block costs, where each block names its own.
fn tx_cost(
    t: &BitCosts,
    fc: &FrameContext,
    m: &ModeInfo,
    select: bool,
    above: Option<&ModeInfo>,
    left: Option<&ModeInfo>,
) -> (c: u64)
    requires
        m.sb_type < 13,
        valid_side(above),
        valid_side(left),
    ensures
        c == syms_cost(*t, tx_part(*fc, *m, select, above, left)),
        c <= 0x4_0000_0000,
{
    proof {
        reveal(tx_part);
    }
    let max_tx: usize = MAX_TXSIZE[m.sb_type as usize] as usize;
    assert(max_tx <= 3) by {
        assert(forall|i: int| 0 <= i < 13 ==> #[trigger] MAX_TXSIZE[i] <= 3);
    }
    if select && max_tx >= 1 {
        let ctx: usize = tx_size_context(m, above, left);
        tx_size_cost_q8(t, fc, m.tx_size, ctx, max_tx)
    } else {
        0
    }
}

/// What the mode information of a block of an intra frame costs: that of a block with a
/// residual, without its segment.
pub fn intra_modeinfo_cost_q8(
    t: &BitCosts,
    fc: &FrameContext,
    m: &ModeInfo,
    select: bool,
    above: Option<&ModeInfo>,
    left: Option<&ModeInfo>,
) -> (c: u64)
    requires
        3 <= m.sb_type < 13,
        valid_mi(*m),
        !m.is_inter,
        !m.skip,
        m.uv_mode < 10,
        valid_side(above),
        valid_side(left),
    ensures
        c == syms_cost(*t, intra_frame_block(*fc, *m, 0, None, select, above, left)),
{
    let sctx: usize = skip_context(above, left);
    let skip: u64 = cost_bit(t, fc.skip_probs[sctx], false);
    let tx: u64 = tx_cost(t, fc, m, select, above, left);
    let yprobs: [u8; 9] = *kf_y_mode_probs(m, above, left, 0);
    proof {
        lemma_intra_mode_tree();
    }
    let y: u64 = tree_bit_cost(t, &INTRA_MODE_TREE, &yprobs, m.mode as i32);
    let u: u64 = tree_bit_cost(
        t,
        &INTRA_MODE_TREE,
        kf_uv_mode_probs(m.mode),
        m.uv_mode as i32,
    );
    proof {
        let s = seq![sym(m.skip, fc.skip_probs[skip_ctx(above, left)])];
        let x = tx_part(*fc, *m, select, above, left);
        let ys = intra_mode_syms(m.mode as int, modeinfo::kf_probs(*m, above, left, 0));
        let us = intra_mode_syms(m.uv_mode as int, KF_UV_MODE_PROBS[m.mode as int]@);
        reveal(kf_part);
        let k = kf_part(*m, above, left);
        law_costs_add_up(*t, ys, us);
        law_costs_add_up(*t, x, k);
        law_costs_add_up(*t, s, x + k);
        assert(segment_part(0, None) + (s + (x + k)) =~= s + (x + k));
    }
    skip + tx + y + u
}

/// The number of binary digits of `v`.
pub open spec fn digits(v: nat) -> nat
    decreases v,
{
    if v == 0 {
        0
    } else {
        1 + digits(v / 2)
    }
}

/// The number of binary digits of `v`.
fn count_digits(v: u32) -> (r: u32)
    ensures
        r == digits(v as nat),
        r <= 32,
{
    let mut rest: u32 = v;
    let mut n: u32 = 0;
    proof {
        vstd::arithmetic::power2::lemma2_to64();
        lemma_digits_bound(v as nat, 32);
    }
    while rest > 0
        invariant
            n + digits(rest as nat) == digits(v as nat),
            digits(v as nat) <= 32,
        decreases rest,
    {
        rest = rest / 2;
        n += 1;
    }
    n
}

/// A number below `2^n` has at most `n` digits.
pub proof fn lemma_digits_bound(v: nat, n: nat)
    requires
        v < vstd::arithmetic::power2::pow2(n),
    ensures
        digits(v) <= n,
    decreases n,
{
    vstd::arithmetic::power2::lemma2_to64();
    if v > 0 {
        if n == 0 {
        } else {
            vstd::arithmetic::power2::lemma_pow2_unfold(n);
            lemma_digits_bound(v / 2, (n - 1) as nat);
        }
    }
}

/// An estimate of what a new vector costs, in bits: ten, and two for each digit of its
/// difference from the predictor.
pub open spec fn vector_bits(mv: Mv, predictor: Mv) -> int {
    10 + 2 * (digits(abs(mv.0 - predictor.0) as nat) as int + digits(
        abs(mv.1 - predictor.1) as nat,
    ) as int)
}

/// An estimate of what a new vector costs, in bits.
pub fn mv_bits(mv: Mv, predictor: Mv) -> (r: u32)
    requires
        abs(mv.0 - predictor.0) <= i32::MAX,
        abs(mv.1 - predictor.1) <= i32::MAX,
    ensures
        r == vector_bits(mv, predictor),
        r <= 138,
{
    let dr: i64 = mv.0 as i64 - predictor.0 as i64;
    let dc: i64 = mv.1 as i64 - predictor.1 as i64;
    let ar: u32 = (if dr < 0 {
        -dr
    } else {
        dr
    }) as u32;
    let ac: u32 = (if dc < 0 {
        -dc
    } else {
        dc
    }) as u32;
    10 + 2 * (count_digits(ar) + count_digits(ac))
}

/// What comes before the prediction of a block of an inter frame costs.
fn flags_cost(
    t: &BitCosts,
    fc: &FrameContext,
    m: &ModeInfo,
    select: bool,
    above: Option<&ModeInfo>,
    left: Option<&ModeInfo>,
) -> (c: u64)
    requires
        m.sb_type < 13,
        valid_side(above),
        valid_side(left),
    ensures
        c == syms_cost(*t, flags_part(*fc, *m, select, above, left)),
        c <= 0x6_0000_0000,
{
    let sctx: usize = skip_context(above, left);
    let ictx: usize = intra_inter_context(above, left);
    let a: u64 = cost_bit(t, fc.skip_probs[sctx], m.skip);
    let b: u64 = cost_bit(t, fc.intra_inter_prob[ictx], m.is_inter);
    let x: u64 = tx_cost(t, fc, m, select && !m.skip, above, left);
    proof {
        reveal(flags_part);
        let s = seq![sym(m.skip, fc.skip_probs[skip_ctx(above, left)])];
        let i = seq![sym(m.is_inter, fc.intra_inter_prob[contexts::intra_inter_ctx(above, left)])];
        let xs = tx_part(*fc, *m, select && !m.skip, above, left);
        law_costs_add_up(*t, i, xs);
        law_costs_add_up(*t, s, i + xs);
    }
    a + b + x
}

/// The cost of the mode information of a block of an inter frame: of its flags, and of
/// one reference, its mode and the estimated vector of an inter block, or of the modes
/// of an intra block.
pub open spec fn inter_cost(
    t: BitCosts,
    fc: FrameContext,
    m: ModeInfo,
    select: bool,
    mode_ctx: int,
    predictor: Mv,
    above: Option<&ModeInfo>,
    left: Option<&ModeInfo>,
) -> int {
    syms_cost(t, flags_part(fc, m, select, above, left)) + (if m.is_inter {
        syms_cost(t, one_ref_part(fc, m.ref_frame[0] as int, above, left)) + syms_cost(
            t,
            inter_mode_syms(m.mode as int, fc.inter_mode_probs[mode_ctx]@),
        ) + (if m.mode == NEWMV {
            256 * vector_bits(m.mv[0], predictor)
        } else {
            0
        })
    } else {
        syms_cost(t, intra_part(fc, m))
    })
}

/// What one reference costs.
fn one_ref_cost(
    t: &BitCosts,
    fc: &FrameContext,
    ref_frame: i8,
    above: Option<&ModeInfo>,
    left: Option<&ModeInfo>,
) -> (c: u64)
    ensures
        c == syms_cost(*t, one_ref_part(*fc, ref_frame as int, above, left)),
        c <= 0x2_0000_0000,
{
    let ctx0: usize = single_ref_p1(above, left);
    let p1: u8 = fc.single_ref_prob[ctx0][0];
    if ref_frame == LAST_FRAME {
        cost_bit(t, p1, false)
    } else {
        let ctx1: usize = single_ref_p2(above, left);
        let p2: u8 = fc.single_ref_prob[ctx1][1];
        proof {
            let a = sym(true, p1);
            let b = sym(ref_frame == ALTREF_FRAME, p2);
            law_costs_add_up(*t, seq![a], seq![b]);
            assert(seq![a] + seq![b] =~= seq![a, b]);
        }
        cost_bit(t, p1, true) + cost_bit(t, p2, ref_frame == ALTREF_FRAME)
    }
}

/// What the mode information of a block of an inter frame costs.
pub fn inter_modeinfo_cost_q8(
    t: &BitCosts,
    fc: &FrameContext,
    m: &ModeInfo,
    select: bool,
    mode_ctx: usize,
    predictor: Mv,
    above: Option<&ModeInfo>,
    left: Option<&ModeInfo>,
) -> (c: u64)
    requires
        3 <= m.sb_type < 13,
        modes_codable(*m),
        mode_ctx < 7,
        abs(m.mv[0].0 - predictor.0) <= i32::MAX,
        abs(m.mv[0].1 - predictor.1) <= i32::MAX,
        valid_side(above),
        valid_side(left),
    ensures
        c == inter_cost(*t, *fc, *m, select, mode_ctx as int, predictor, above, left),
{
    let flags: u64 = flags_cost(t, fc, m, select, above, left);
    if m.is_inter {
        let one: u64 = one_ref_cost(t, fc, m.ref_frame[0], above, left);
        proof {
            modeinfo::lemma_inter_mode_tree();
        }
        let mode: u64 = tree_bit_cost(
            t,
            &INTER_MODE_TREE,
            &fc.inter_mode_probs[mode_ctx],
            (m.mode - NEARESTMV) as i32,
        );
        let vector: u64 = if m.mode == NEWMV {
            mv_bits(m.mv[0], predictor) as u64 * 256
        } else {
            0
        };
        flags + one + mode + vector
    } else {
        proof {
            lemma_intra_mode_tree();
            assert(forall|i: int| 0 <= i < 13 ==> #[trigger] SIZE_GROUP[i] < 4);
        }
        let y: u64 = tree_bit_cost(
            t,
            &INTRA_MODE_TREE,
            &fc.y_mode_prob[SIZE_GROUP[m.sb_type as usize] as usize],
            m.mode as i32,
        );
        let u: u64 = tree_bit_cost(
            t,
            &INTRA_MODE_TREE,
            &fc.uv_mode_prob[m.mode as usize],
            m.uv_mode as i32,
        );
        proof {
            let g = SIZE_GROUP[m.sb_type as int] as int;
            law_costs_add_up(
                *t,
                intra_mode_syms(m.mode as int, fc.y_mode_prob[g]@),
                intra_mode_syms(m.uv_mode as int, fc.uv_mode_prob[m.mode as int]@),
            );
        }
        flags + y + u
    }
}

/// The cost of part `part` of a block below 8x8: of its mode and its estimated vector.
pub open spec fn part_cost(
    t: BitCosts,
    fc: FrameContext,
    m: ModeInfo,
    mode_ctx: int,
    predictor: Mv,
    part: int,
) -> int {
    syms_cost(t, inter_mode_syms(m.bmi[part] as int, fc.inter_mode_probs[mode_ctx]@)) + (
    if m.bmi[part] == NEWMV {
        256 * vector_bits(m.bmi_mv[part][0], predictor)
    } else {
        0
    })
}

/// What a part of a block below 8x8 costs.
fn sub_cost(
    t: &BitCosts,
    fc: &FrameContext,
    m: &ModeInfo,
    mode_ctx: usize,
    predictor: Mv,
    part: usize,
) -> (c: u64)
    requires
        part < 4,
        mode_ctx < 7,
        10 <= m.bmi[part as int] <= 13,
        abs(m.bmi_mv[part as int][0].0 - predictor.0) <= i32::MAX,
        abs(m.bmi_mv[part as int][0].1 - predictor.1) <= i32::MAX,
    ensures
        c == part_cost(*t, *fc, *m, mode_ctx as int, predictor, part as int),
        c <= 0x40_0000_0000,
{
    proof {
        modeinfo::lemma_inter_mode_tree();
    }
    let mode: u64 = tree_bit_cost(
        t,
        &INTER_MODE_TREE,
        &fc.inter_mode_probs[mode_ctx],
        (m.bmi[part] - NEARESTMV) as i32,
    );
    if m.bmi[part] == NEWMV {
        mode + mv_bits(m.bmi_mv[part][0], predictor) as u64 * 256
    } else {
        mode
    }
}

/// What the mode information of a block below 8x8 costs, which refers to the last frame:
/// flags, reference and parts.
pub fn sub8x8_modeinfo_cost_q8(
    t: &BitCosts,
    fc: &FrameContext,
    m: &ModeInfo,
    mode_ctx: usize,
    predictor: Mv,
    above: Option<&ModeInfo>,
    left: Option<&ModeInfo>,
) -> (c: u64)
    requires
        m.sb_type < 3,
        mode_ctx < 7,
        forall|i: int| 0 <= i < 4 ==> 10 <= #[trigger] m.bmi[i] <= 13,
        forall|i: int|
            0 <= i < 4 ==> abs((#[trigger] m.bmi_mv[i])[0].0 - predictor.0) <= i32::MAX && abs(
                m.bmi_mv[i][0].1 - predictor.1,
            ) <= i32::MAX,
        valid_side(above),
        valid_side(left),
    ensures
        ({
            let p = |i: int| part_cost(*t, *fc, *m, mode_ctx as int, predictor, i);
            c == syms_cost(*t, flags_part(*fc, *m, false, above, left)) + syms_cost(
                *t,
                one_ref_part(*fc, 1, above, left),
            ) + (if m.sb_type == 0 {
                p(0) + p(1) + p(2) + p(3)
            } else if m.sb_type == 1 {
                p(0) + p(1)
            } else {
                p(0) + p(2)
            })
        }),
{
    let flags: u64 = flags_cost(t, fc, m, false, above, left);
    let one: u64 = one_ref_cost(t, fc, LAST_FRAME, above, left);
    assert(abs(m.bmi_mv[0][0].0 - predictor.0) <= i32::MAX);
    assert(abs(m.bmi_mv[1][0].0 - predictor.0) <= i32::MAX);
    assert(abs(m.bmi_mv[2][0].0 - predictor.0) <= i32::MAX);
    assert(abs(m.bmi_mv[3][0].0 - predictor.0) <= i32::MAX);
    let p0: u64 = sub_cost(t, fc, m, mode_ctx, predictor, 0);
    if m.sb_type == 0 {
        let p1: u64 = sub_cost(t, fc, m, mode_ctx, predictor, 1);
        let p2: u64 = sub_cost(t, fc, m, mode_ctx, predictor, 2);
        let p3: u64 = sub_cost(t, fc, m, mode_ctx, predictor, 3);
        flags + one + p0 + p1 + p2 + p3
    } else if m.sb_type == 1 {
        let p1: u64 = sub_cost(t, fc, m, mode_ctx, predictor, 1);
        flags + one + p0 + p1
    } else {
        let p2: u64 = sub_cost(t, fc, m, mode_ctx, predictor, 2);
        flags + one + p0 + p2
    }
}

/// What a partition costs: that of just the choices that the frame's edges leave open.
pub fn partition_cost_q8(
    t: &BitCosts,
    partition: usize,
    probs: &[u8; 3],
    has_rows: bool,
    has_cols: bool,
) -> (c: u64)
    requires
        partition < 4,
    ensures
        c == syms_cost(*t, partition_syms(partition as int, probs@, has_rows, has_cols)),
{
    if has_rows && has_cols {
        proof {
            lemma_partition_tree();
        }
        tree_bit_cost(t, &PARTITION_TREE, probs, partition as i32)
    } else if has_cols {
        cost_bit(t, probs[1], partition == PARTITION_SPLIT)
    } else if has_rows {
        cost_bit(t, probs[2], partition == PARTITION_SPLIT)
    } else {
        0
    }
}

/// A number of `n` digits lies between the powers of two before and behind it.
pub proof fn law_digits_are_a_logarithm(v: nat)
    ensures
        v > 0 ==> vstd::arithmetic::power2::pow2((digits(v) - 1) as nat) <= v,
        v < vstd::arithmetic::power2::pow2(digits(v)),
        digits(v) == 0 <==> v == 0,
    decreases v,
{
    vstd::arithmetic::power2::lemma2_to64();
    if v > 0 {
        law_digits_are_a_logarithm(v / 2);
        vstd::arithmetic::power2::lemma_pow2_unfold(digits(v));
        if v >= 2 {
            vstd::arithmetic::power2::lemma_pow2_unfold((digits(v) - 1) as nat);
        } else {
            assert(digits(0) == 0);
        }
    }
}

/// A new vector costs ten bits where it is the predictor, and the same in each direction;
/// twice the distance costs two bits more.
pub proof fn law_vector_cost_grows_with_distance(p: Mv, d: int, e: int)
    requires
        0 < d <= 0x100_0000,
        -0x1000_0000 <= p.0 <= 0x1000_0000,
        -0x1000_0000 <= p.1 <= 0x1000_0000,
    ensures
        vector_bits(p, p) == 10,
        vector_bits(((p.0 + d) as i32, p.1), p) == vector_bits(((p.0 - d) as i32, p.1), p),
        vector_bits((p.0, (p.1 + d) as i32), p) == vector_bits(((p.0 + d) as i32, p.1), p),
        vector_bits(((p.0 + 2 * d) as i32, p.1), p) == vector_bits(((p.0 + d) as i32, p.1), p) + 2,
        vector_bits(((p.0 + 1) as i32, p.1), p) == 12,
{
    assert(digits(0) == 0);
    assert(digits(1) == 1 + digits(0));
    assert(((2 * d) as nat) / 2 == d as nat);
    assert(digits((2 * d) as nat) == 1 + digits(d as nat));
}

} // verus!
