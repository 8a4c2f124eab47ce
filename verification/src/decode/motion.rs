//! Reading the motion vectors of inter blocks.
use vstd::prelude::*;

use crate::bits::BoolDecoder;
use crate::block::{flag, ModeInfo, Mv, NEARESTMV, NEARMV, NEWMV, ZEROMV};
use crate::coding;
use crate::coding::Cursor;
use crate::context::FrameContext;
use crate::decode::counts::{FrameCounts, INTER_MODE_TREE};
use crate::decode::modeinfo::read_inter_mode;
use crate::decode::tally;
use crate::decode::tally::{tallied, Count};
use crate::mv;
use crate::mv::{lower_mv_precision, read_mv};
use crate::prob_tables::NmvContext;
use crate::token;

verus! {

/// The vectors that the surroundings of a block suggest, best first, and how many
/// there are.
#[derive(Clone, Copy, Debug)]
pub struct MvList {
    pub mvs: [Mv; 2],
    pub count: usize,
}

/// The suggestions for a block: for each of its references, each inter mode, and the
/// whole block (0) or one of its four parts (1 to 4).
#[derive(Clone, Copy, Debug)]
pub struct MvCandidates {
    pub lists: [[[MvList; 5]; 4]; 2],
}

/// A vector of a size that occurs.
pub open spec fn moderate(v: Mv) -> bool {
    mv::abs(v.0 as int) <= 0x2000_0000 && mv::abs(v.1 as int) <= 0x2000_0000
}

impl MvCandidates {
    /// The suggestions for reference `r`, mode `mode` and part `part`; -1 is the whole
    /// block.
    pub open spec fn at(&self, r: int, mode: int, part: int) -> MvList {
        self.lists[r][mode - 10][part + 1]
    }

    /// The suggestions are of sizes that occur, and there is at least one.
    pub open spec fn wf(&self) -> bool {
        forall|r: int, m: int, k: int|
            0 <= r < 2 && 0 <= m < 4 && 0 <= k < 5 ==> {
                let l = #[trigger] self.lists[r][m][k];
                1 <= l.count <= 2 && moderate(l.mvs[0]) && moderate(l.mvs[1])
            }
    }
}

/// A vector as precise as it may be.
pub open spec fn lowered_mv(v: Mv, allow_hp: bool) -> Mv {
    if allow_hp && mv::is_short(v) {
        v
    } else {
        (mv::lowered(v.0 as int) as i32, mv::lowered(v.1 as int) as i32)
    }
}

/// The number of references of `m`.
pub open spec fn nrefs(m: ModeInfo) -> int {
    1 + flag(m.compound())
}

/// The vector `v` moved by `d`.
pub open spec fn moved(v: Mv, d: (int, int)) -> Mv {
    ((v.0 + d.0) as i32, (v.1 + d.1) as i32)
}

/// The vectors that mode `mode` gives a block: read as differences from `base`, taken
/// from `near`, or zero.
pub open spec fn vectors_read(
    c: Cursor,
    n: NmvContext,
    allow_hp: bool,
    mode: int,
    base: Seq<Mv>,
    near: Seq<Mv>,
    compound: bool,
) -> (Seq<Mv>, Cursor, Seq<Count>) {
    let zero: Mv = (0, 0);
    if mode == NEWMV {
        let (d0, c1) = mv::difference_read(c, n, allow_hp && mv::is_short(base[0]));
        let l1 = mv::difference_log(d0);
        if compound {
            let (d1, c2) = mv::difference_read(c1, n, allow_hp && mv::is_short(base[1]));
            (
                seq![moved(base[0], d0), moved(base[1], d1)],
                c2,
                l1 + mv::difference_log(d1),
            )
        } else {
            (seq![moved(base[0], d0), zero], c1, l1)
        }
    } else if mode == NEARESTMV || mode == NEARMV {
        (near, c, Seq::empty())
    } else {
        (seq![zero, zero], c, Seq::empty())
    }
}

/// Reads the vectors of a block.
pub fn assign_mv(
    b: &mut BoolDecoder,
    fc: &FrameContext,
    counts: &mut FrameCounts,
    mode: u8,
    base: &[Mv; 2],
    near: &[Mv; 2],
    compound: bool,
    allow_hp: bool,
) -> (r: [Mv; 2])
    requires
        old(b).wf(),
        moderate(base[0]),
        moderate(base[1]),
        old(counts).room(58),
    ensures
        final(b).wf(),
        ({
            let (vs, c, log) = vectors_read(
                old(b)@,
                fc.nmvc,
                allow_hp,
                mode as int,
                base@,
                near@,
                compound,
            );
            &&& r@ == vs
            &&& final(b)@ == c
            &&& tallied(*old(counts), *final(counts), log)
            &&& log.len() <= 58
        }),
{
    let ghost start = *counts;
    proof {
        tally::lemma_tally_none(start);
    }
    if mode == NEWMV {
        proof {
            lemma_room(start, 58, 29);
        }
        let ghost c0 = b@;
        let v0: Mv = read_mv(b, base[0], &fc.nmvc, allow_hp, counts);
        let ghost (d0, c1) = mv::difference_read(
            c0,
            fc.nmvc,
            allow_hp && mv::is_short(base[0]),
        );
        let ghost l1 = mv::difference_log(d0);
        let ghost k1 = *counts;
        let mut v1: Mv = (0, 0);
        if compound {
            proof {
                tally::lemma_tally_room(start, k1, l1, 58);
                lemma_room(k1, 58 - l1.len(), 29);
            }
            v1 = read_mv(b, base[1], &fc.nmvc, allow_hp, counts);
            proof {
                let d1 = mv::difference_read(c1, fc.nmvc, allow_hp && mv::is_short(base[1])).0;
                tally::lemma_tally(start, k1, *counts, l1, mv::difference_log(d1));
            }
        }
        let r: [Mv; 2] = [v0, v1];
        assert(r@ =~= vectors_read(
            c0,
            fc.nmvc,
            allow_hp,
            mode as int,
            base@,
            near@,
            compound,
        ).0);
        r
    } else if mode == NEARESTMV || mode == NEARMV {
        *near
    } else {
        let r: [Mv; 2] = [(0, 0), (0, 0)];
        assert(r@ =~= seq![(0i32, 0i32), (0i32, 0i32)]);
        r
    }
}

proof fn lemma_room(k: FrameCounts, n: int, m: int)
    requires
        k.room(n),
        m <= n,
    ensures
        k.room(m),
{
    assert forall|x: Count| tally::counted(x) implies #[trigger] k.times(x) + m <= u32::MAX by {
        assert(k.times(x) + n <= u32::MAX);
    }
}

// ---------------------------------------------------------------------------
// Blocks from 8x8 on
// ---------------------------------------------------------------------------

/// The vector of reference `r` that mode `mode` starts from: the second suggestion for
/// the near mode, the first for the others.
pub open spec fn base_mv(
    cands: MvCandidates,
    r: int,
    mode: int,
    count: int,
    allow_hp: bool,
) -> Mv {
    if r < count && mode != ZEROMV {
        lowered_mv(
            cands.at(r, mode, -1).mvs[if mode == NEARMV {
                1int
            } else {
                0
            }],
            allow_hp,
        )
    } else {
        (0, 0)
    }
}

pub open spec fn base_mvs(cands: MvCandidates, m: ModeInfo, allow_hp: bool) -> Seq<Mv> {
    seq![
        base_mv(cands, 0, m.mode as int, nrefs(m), allow_hp),
        base_mv(cands, 1, m.mode as int, nrefs(m), allow_hp),
    ]
}

/// The vectors of a block from 8x8 on.
pub open spec fn block_vectors(
    c: Cursor,
    fc: FrameContext,
    cands: MvCandidates,
    m: ModeInfo,
    allow_hp: bool,
) -> (Seq<Mv>, Cursor, Seq<Count>) {
    let base = base_mvs(cands, m, allow_hp);
    vectors_read(c, fc.nmvc, allow_hp, m.mode as int, base, base, m.compound())
}

/// Lowering keeps a vector moderate.
proof fn lemma_lowered(v: Mv, allow_hp: bool)
    requires
        moderate(v),
    ensures
        moderate(lowered_mv(v, allow_hp)),
        lowered_mv(v, allow_hp).0 == mv::lowered(v.0 as int) || lowered_mv(v, allow_hp) == v,
{
}

fn lower(v: Mv, allow_hp: bool) -> (r: Mv)
    requires
        moderate(v),
    ensures
        r == lowered_mv(v, allow_hp),
        moderate(r),
{
    proof {
        lemma_lowered(v, allow_hp);
    }
    lower_mv_precision(v, allow_hp)
}

fn base_vector(
    cands: &MvCandidates,
    r: usize,
    mode: u8,
    count: usize,
    allow_hp: bool,
) -> (v: Mv)
    requires
        cands.wf(),
        r < 2,
        10 <= mode <= 13,
    ensures
        v == base_mv(*cands, r as int, mode as int, count as int, allow_hp),
        moderate(v),
{
    if r < count && mode != ZEROMV {
        let l: MvList = cands.lists[r][(mode - NEARESTMV) as usize][0];
        assert(l == cands.lists[r as int][mode - 10][0]);
        let i: usize = if mode == NEARMV {
            1
        } else {
            0
        };
        lower(l.mvs[i], allow_hp)
    } else {
        (0, 0)
    }
}

/// Reads the vectors of a block from 8x8 on.
fn read_block_mvs(
    b: &mut BoolDecoder,
    fc: &FrameContext,
    counts: &mut FrameCounts,
    cands: &MvCandidates,
    allow_hp: bool,
    m: &mut ModeInfo,
)
    requires
        old(b).wf(),
        cands.wf(),
        10 <= old(m).mode <= 13,
        old(counts).room(58),
    ensures
        final(b).wf(),
        ({
            let (vs, c, log) = block_vectors(old(b)@, *fc, *cands, *old(m), allow_hp);
            &&& final(m).mv@ == vs
            &&& final(b)@ == c
            &&& tallied(*old(counts), *final(counts), log)
            &&& log.len() <= 58
        }),
        *final(m) == (ModeInfo { mv: final(m).mv, ..*old(m) }),
{
    let compound: bool = m.has_second_ref();
    let count: usize = if compound {
        2
    } else {
        1
    };
    let base: [Mv; 2] = [
        base_vector(cands, 0, m.mode, count, allow_hp),
        base_vector(cands, 1, m.mode, count, allow_hp),
    ];
    assert(base@ =~= base_mvs(*cands, *m, allow_hp));
    m.mv = assign_mv(b, fc, counts, m.mode, &base, &base, compound, allow_hp);
}

// ---------------------------------------------------------------------------
// Blocks below 8x8
// ---------------------------------------------------------------------------

/// The first suggestion that differs from `v`; zero if none does.
pub open spec fn first_other(l: MvList, v: Mv) -> Mv {
    if l.mvs[0] != v {
        l.mvs[0]
    } else if l.mvs[1] != v {
        l.mvs[1]
    } else {
        (0, 0)
    }
}

/// The nearest or the near vector of part `part` for reference `r`: the vectors of the
/// parts before it come before the suggestions of the surroundings.
pub open spec fn part_near(
    cands: MvCandidates,
    m: ModeInfo,
    mode: int,
    part: int,
    r: int,
) -> Mv {
    let l = cands.at(r, mode, part);
    if part == 0 {
        l.mvs[l.count - 1]
    } else if part == 1 || part == 2 {
        if mode == NEARESTMV {
            m.bmi_mv[0][r]
        } else {
            first_other(l, m.bmi_mv[0][r])
        }
    } else if mode == NEARESTMV {
        m.bmi_mv[2][r]
    } else if m.bmi_mv[2][r] != m.bmi_mv[1][r] {
        m.bmi_mv[1][r]
    } else if m.bmi_mv[2][r] != m.bmi_mv[0][r] {
        m.bmi_mv[0][r]
    } else {
        first_other(l, m.bmi_mv[2][r])
    }
}

/// The nearest or the near vector of a part.
pub fn append_sub8x8_mvs(
    cands: &MvCandidates,
    m: &ModeInfo,
    mode: u8,
    part: usize,
    r: usize,
) -> (v: Mv)
    requires
        cands.wf(),
        mode == NEARESTMV || mode == NEARMV,
        part < 4,
        r < 2,
    ensures
        v == part_near(*cands, *m, mode as int, part as int, r as int),
{
    let l: MvList = cands.lists[r][(mode - NEARESTMV) as usize][part + 1];
    assert(l == cands.lists[r as int][mode - 10][part + 1]);
    if part == 0 {
        l.mvs[l.count - 1]
    } else if part == 1 || part == 2 {
        if mode == NEARESTMV {
            m.bmi_mv[0][r]
        } else {
            pick_other(&l, m.bmi_mv[0][r])
        }
    } else if mode == NEARESTMV {
        m.bmi_mv[2][r]
    } else if !same(m.bmi_mv[2][r], m.bmi_mv[1][r]) {
        m.bmi_mv[1][r]
    } else if !same(m.bmi_mv[2][r], m.bmi_mv[0][r]) {
        m.bmi_mv[0][r]
    } else {
        pick_other(&l, m.bmi_mv[2][r])
    }
}

fn same(a: Mv, b: Mv) -> (r: bool)
    ensures
        r == (a == b),
{
    a.0 == b.0 && a.1 == b.1
}

fn pick_other(l: &MvList, v: Mv) -> (r: Mv)
    ensures
        r == first_other(*l, v),
{
    if !same(l.mvs[0], v) {
        l.mvs[0]
    } else if !same(l.mvs[1], v) {
        l.mvs[1]
    } else {
        (0, 0)
    }
}

/// The vectors from which a new vector of a part is read.
pub open spec fn part_bases(cands: MvCandidates, m: ModeInfo, allow_hp: bool) -> Seq<Mv> {
    seq![
        base_mv(cands, 0, NEWMV as int, nrefs(m), allow_hp),
        base_mv(cands, 1, NEWMV as int, nrefs(m), allow_hp),
    ]
}

/// The nearest or the near vectors of a part.
pub open spec fn part_nears(cands: MvCandidates, m: ModeInfo, mode: int, part: int) -> Seq<Mv> {
    if mode == NEARESTMV || mode == NEARMV {
        seq![
            part_near(cands, m, mode, part, 0),
            if m.compound() {
                part_near(cands, m, mode, part, 1)
            } else {
                (0, 0)
            },
        ]
    } else {
        seq![(0i32, 0i32), (0i32, 0i32)]
    }
}

/// The mode and the vectors of part `part` of `m`, given the parts before it.
#[verifier::opaque]
pub open spec fn part_read(
    c: Cursor,
    fc: FrameContext,
    cands: MvCandidates,
    m: ModeInfo,
    mode_ctx: int,
    allow_hp: bool,
    part: int,
) -> (int, Seq<Mv>, Cursor, Seq<Count>) {
    let probs = fc.inter_mode_probs[mode_ctx]@;
    let mode = 10 + token::tree_read(c, INTER_MODE_TREE@, probs);
    let c1 = token::tree_done(c, INTER_MODE_TREE@, probs);
    let (vs, c2, log) = vectors_read(
        c1,
        fc.nmvc,
        allow_hp,
        mode,
        part_bases(cands, m, allow_hp),
        part_nears(cands, m, mode, part),
        m.compound(),
    );
    (mode, vs, c2, seq![Count::InterMode(mode_ctx, mode - 10)] + log)
}

/// Reads the mode and the vectors of a part.
fn read_part(
    b: &mut BoolDecoder,
    fc: &FrameContext,
    counts: &mut FrameCounts,
    cands: &MvCandidates,
    m: &ModeInfo,
    mode_ctx: usize,
    allow_hp: bool,
    part: usize,
) -> (r: (u8, [Mv; 2]))
    requires
        old(b).wf(),
        cands.wf(),
        mode_ctx < 7,
        part < 4,
        old(counts).room(59),
    ensures
        final(b).wf(),
        ({
            let (mode, vs, c, log) = part_read(
                old(b)@,
                *fc,
                *cands,
                *m,
                mode_ctx as int,
                allow_hp,
                part as int,
            );
            &&& r.0 == mode
            &&& r.1@ == vs
            &&& final(b)@ == c
            &&& tallied(*old(counts), *final(counts), log)
            &&& log.len() <= 59
        }),
        10 <= r.0 <= 13,
{
    proof {
        reveal(part_read);
    }
    let ghost start = *counts;
    let mode: u8 = read_inter_mode(b, &fc.inter_mode_probs[mode_ctx]);
    proof {
        lemma_room(start, 59, 1);
    }
    counts.count_inter_mode(mode_ctx, (mode - NEARESTMV) as usize);
    let ghost k = *counts;
    let ghost l1 = seq![Count::InterMode(mode_ctx as int, mode - 10)];
    proof {
        tally::lemma_tally_room(start, k, l1, 59);
    }
    let compound: bool = m.has_second_ref();
    let count: usize = if compound {
        2
    } else {
        1
    };
    let mut near: [Mv; 2] = [(0, 0), (0, 0)];
    if mode == NEARESTMV || mode == NEARMV {
        near[0] = append_sub8x8_mvs(cands, m, mode, part, 0);
        if compound {
            near[1] = append_sub8x8_mvs(cands, m, mode, part, 1);
        }
    }
    let base: [Mv; 2] = [
        base_vector(cands, 0, NEWMV, count, allow_hp),
        base_vector(cands, 1, NEWMV, count, allow_hp),
    ];
    assert(base@ =~= part_bases(*cands, *m, allow_hp));
    assert(near@ =~= part_nears(*cands, *m, mode as int, part as int));
    let ghost c1 = b@;
    let v: [Mv; 2] = assign_mv(b, fc, counts, mode, &base, &near, compound, allow_hp);
    proof {
        let l2 = vectors_read(
            c1,
            fc.nmvc,
            allow_hp,
            mode as int,
            base@,
            near@,
            compound,
        ).2;
        tally::lemma_tally(start, k, *counts, l1, l2);
    }
    (mode, v)
}

/// What reading the parts of a block below 8x8 gives, given the finished `m`: the
/// vectors of its parts, its mode, the state after them, and what is counted. The
/// parts are all four of a 4x4 block, or the first of each half.
pub open spec fn parts_read(
    c: Cursor,
    fc: FrameContext,
    cands: MvCandidates,
    m: ModeInfo,
    mode_ctx: int,
    allow_hp: bool,
) -> (Seq<Seq<Mv>>, int, Cursor, Seq<Count>) {
    let (m0, v0, c1, l0) = part_read(c, fc, cands, m, mode_ctx, allow_hp, 0);
    if m.sb_type == 0 {
        let (m1, v1, c2, l1) = part_read(c1, fc, cands, m, mode_ctx, allow_hp, 1);
        let (m2, v2, c3, l2) = part_read(c2, fc, cands, m, mode_ctx, allow_hp, 2);
        let (m3, v3, c4, l3) = part_read(c3, fc, cands, m, mode_ctx, allow_hp, 3);
        (seq![v0, v1, v2, v3], m3, c4, l0 + l1 + l2 + l3)
    } else if m.sb_type == 1 {
        let (m1, v1, c2, l1) = part_read(c1, fc, cands, m, mode_ctx, allow_hp, 1);
        (seq![v0, v1, v0, v1], m1, c2, l0 + l1)
    } else {
        let (m2, v2, c2, l2) = part_read(c1, fc, cands, m, mode_ctx, allow_hp, 2);
        (seq![v0, v0, v2, v2], m2, c2, l0 + l2)
    }
}

/// What is read of part `part` depends on the parts before it alone.
pub proof fn lemma_part_frame(
    c: Cursor,
    fc: FrameContext,
    cands: MvCandidates,
    a: ModeInfo,
    b: ModeInfo,
    mode_ctx: int,
    allow_hp: bool,
    part: int,
)
    requires
        0 <= part < 4,
        a.ref_frame == b.ref_frame,
        forall|i: int| 0 <= i < part ==> #[trigger] a.bmi_mv[i] == b.bmi_mv[i],
    ensures
        part_read(c, fc, cands, a, mode_ctx, allow_hp, part) == part_read(
            c,
            fc,
            cands,
            b,
            mode_ctx,
            allow_hp,
            part,
        ),
{
    reveal(part_read);
    assert(part > 0 ==> a.bmi_mv[0] == b.bmi_mv[0]);
    assert(part > 1 ==> a.bmi_mv[1] == b.bmi_mv[1]);
    assert(part > 2 ==> a.bmi_mv[2] == b.bmi_mv[2]);
    let mode = 10 + token::tree_read(c, INTER_MODE_TREE@, fc.inter_mode_probs[mode_ctx]@);
    assert(part_nears(cands, a, mode, part) =~= part_nears(cands, b, mode, part));
    assert(part_bases(cands, a, allow_hp) =~= part_bases(cands, b, allow_hp));
}

/// The vectors of the parts of `m`, as sequences.
pub open spec fn part_vectors(m: ModeInfo) -> Seq<Seq<Mv>> {
    Seq::new(4, |i: int| m.bmi_mv[i]@)
}

/// Reads the modes and vectors of the parts of a block below 8x8.
#[verifier::rlimit(30)]
fn read_part_mvs(
    b: &mut BoolDecoder,
    fc: &FrameContext,
    counts: &mut FrameCounts,
    cands: &MvCandidates,
    mode_ctx: usize,
    allow_hp: bool,
    m: &mut ModeInfo,
)
    requires
        old(b).wf(),
        cands.wf(),
        mode_ctx < 7,
        old(m).sb_type < 3,
        old(counts).room(236),
    ensures
        final(b).wf(),
        ({
            let (vs, mode, c, log) = parts_read(
                old(b)@,
                *fc,
                *cands,
                *final(m),
                mode_ctx as int,
                allow_hp,
            );
            &&& part_vectors(*final(m)) == vs
            &&& final(m).mode == mode
            &&& final(m).mv == final(m).bmi_mv[3]
            &&& final(b)@ == c
            &&& tallied(*old(counts), *final(counts), log)
            &&& log.len() <= 236
        }),
        *final(m) == (ModeInfo {
            bmi_mv: final(m).bmi_mv,
            mode: final(m).mode,
            mv: final(m).mv,
            ..*old(m)
        }),
        10 <= final(m).mode <= 13,
{
    let ghost start = *counts;
    let ghost c0 = b@;
    let ghost x = mode_ctx as int;
    proof {
        lemma_room(start, 236, 59);
    }
    let ghost m0 = *m;
    let (mode0, v0): (u8, [Mv; 2]) = read_part(b, fc, counts, cands, m, mode_ctx, allow_hp, 0);
    let ghost (_, _, c1, l0) = part_read(c0, *fc, *cands, m0, x, allow_hp, 0);
    let ghost k0 = *counts;
    proof {
        tally::lemma_tally_room(start, k0, l0, 236);
        lemma_room(k0, 236 - l0.len(), 59);
    }
    if m.sb_type == 0 {
        m.bmi_mv[0] = v0;
        let ghost m1 = *m;
        let (mode1, v1): (u8, [Mv; 2]) = read_part(b, fc, counts, cands, m, mode_ctx, allow_hp, 1);
        let ghost (_, _, c2, l1) = part_read(c1, *fc, *cands, m1, x, allow_hp, 1);
        let ghost k1 = *counts;
        proof {
            tally::lemma_tally(start, k0, k1, l0, l1);
            tally::lemma_tally_room(start, k1, l0 + l1, 236);
            lemma_room(k1, 236 - (l0 + l1).len(), 59);
        }
        m.bmi_mv[1] = v1;
        let ghost m2 = *m;
        let (mode2, v2): (u8, [Mv; 2]) = read_part(b, fc, counts, cands, m, mode_ctx, allow_hp, 2);
        let ghost (_, _, c3, l2) = part_read(c2, *fc, *cands, m2, x, allow_hp, 2);
        let ghost k2 = *counts;
        proof {
            tally::lemma_tally(start, k1, k2, l0 + l1, l2);
            tally::lemma_tally_room(start, k2, l0 + l1 + l2, 236);
            lemma_room(k2, 236 - (l0 + l1 + l2).len(), 59);
        }
        m.bmi_mv[2] = v2;
        let ghost m3 = *m;
        let (mode3, v3): (u8, [Mv; 2]) = read_part(b, fc, counts, cands, m, mode_ctx, allow_hp, 3);
        proof {
            let l3 = part_read(c3, *fc, *cands, m3, x, allow_hp, 3).3;
            tally::lemma_tally(start, k2, *counts, l0 + l1 + l2, l3);
        }
        m.bmi_mv[3] = v3;
        m.mode = mode3;
        m.mv = v3;
        proof {
            lemma_part_frame(c0, *fc, *cands, m0, *m, x, allow_hp, 0);
            lemma_part_frame(c1, *fc, *cands, m1, *m, x, allow_hp, 1);
            lemma_part_frame(c2, *fc, *cands, m2, *m, x, allow_hp, 2);
            lemma_part_frame(c3, *fc, *cands, m3, *m, x, allow_hp, 3);
            assert(part_vectors(*m) =~= seq![v0@, v1@, v2@, v3@]);
        }
    } else if m.sb_type == 1 {
        m.bmi_mv[0] = v0;
        m.bmi_mv[2] = v0;
        let ghost m1 = *m;
        let (mode1, v1): (u8, [Mv; 2]) = read_part(b, fc, counts, cands, m, mode_ctx, allow_hp, 1);
        proof {
            let l1 = part_read(c1, *fc, *cands, m1, x, allow_hp, 1).3;
            tally::lemma_tally(start, k0, *counts, l0, l1);
        }
        m.bmi_mv[1] = v1;
        m.bmi_mv[3] = v1;
        m.mode = mode1;
        m.mv = v1;
        proof {
            lemma_part_frame(c0, *fc, *cands, m0, *m, x, allow_hp, 0);
            lemma_part_frame(c1, *fc, *cands, m1, *m, x, allow_hp, 1);
            assert(part_vectors(*m) =~= seq![v0@, v1@, v0@, v1@]);
        }
    } else {
        m.bmi_mv[0] = v0;
        m.bmi_mv[1] = v0;
        let ghost m2 = *m;
        let (mode2, v2): (u8, [Mv; 2]) = read_part(b, fc, counts, cands, m, mode_ctx, allow_hp, 2);
        proof {
            let l2 = part_read(c1, *fc, *cands, m2, x, allow_hp, 2).3;
            tally::lemma_tally(start, k0, *counts, l0, l2);
        }
        m.bmi_mv[2] = v2;
        m.bmi_mv[3] = v2;
        m.mode = mode2;
        m.mv = v2;
        proof {
            lemma_part_frame(c0, *fc, *cands, m0, *m, x, allow_hp, 0);
            lemma_part_frame(c1, *fc, *cands, m2, *m, x, allow_hp, 2);
            assert(part_vectors(*m) =~= seq![v0@, v0@, v2@, v2@]);
        }
    }
}

/// The vectors of `m` are those read from `c`, behind its references, mode and filter;
/// `before` is what `m` was then.
pub open spec fn motion_info(
    c: Cursor,
    fc: FrameContext,
    cands: MvCandidates,
    mode_ctx: int,
    allow_hp: bool,
    before: ModeInfo,
    m: ModeInfo,
) -> bool {
    if m.sb_type < 3 {
        let (vs, mode, _, _) = parts_read(c, fc, cands, m, mode_ctx, allow_hp);
        &&& part_vectors(m) == vs
        &&& m.mode == mode
        &&& m.mv == m.bmi_mv[3]
    } else {
        &&& m.mv@ == block_vectors(c, fc, cands, before, allow_hp).0
        &&& m.bmi_mv == before.bmi_mv
        &&& m.mode == before.mode
    }
}

/// The state after that, and what is counted.
pub open spec fn motion_done(
    c: Cursor,
    fc: FrameContext,
    cands: MvCandidates,
    mode_ctx: int,
    allow_hp: bool,
    before: ModeInfo,
    m: ModeInfo,
) -> (Cursor, Seq<Count>) {
    if m.sb_type < 3 {
        let (_, _, d, log) = parts_read(c, fc, cands, m, mode_ctx, allow_hp);
        (d, log)
    } else {
        let (_, d, log) = block_vectors(c, fc, cands, before, allow_hp);
        (d, log)
    }
}

/// Reads the motion vectors of an inter block, behind its references, mode and filter.
/// `cands` holds what its surroundings suggest.
pub fn read_inter_block_motion(
    b: &mut BoolDecoder,
    fc: &FrameContext,
    counts: &mut FrameCounts,
    cands: &MvCandidates,
    mode_ctx: usize,
    allow_hp: bool,
    m: &mut ModeInfo,
)
    requires
        old(b).wf(),
        cands.wf(),
        mode_ctx < 7,
        old(m).sb_type >= 3 ==> 10 <= old(m).mode <= 13,
        old(counts).room(236),
    ensures
        final(b).wf(),
        motion_info(
            old(b)@,
            *fc,
            *cands,
            mode_ctx as int,
            allow_hp,
            *old(m),
            *final(m),
        ),
        ({
            let (c, log) = motion_done(
                old(b)@,
                *fc,
                *cands,
                mode_ctx as int,
                allow_hp,
                *old(m),
                *final(m),
            );
            &&& final(b)@ == c
            &&& tallied(*old(counts), *final(counts), log)
            &&& log.len() <= 236
        }),
        *final(m) == (ModeInfo {
            bmi_mv: final(m).bmi_mv,
            mode: final(m).mode,
            mv: final(m).mv,
            ..*old(m)
        }),
        10 <= final(m).mode <= 13,
{
    if (m.sb_type as usize) < 3 {
        read_part_mvs(b, fc, counts, cands, mode_ctx, allow_hp, m);
    } else {
        proof {
            lemma_room(*counts, 236, 58);
        }
        read_block_mvs(b, fc, counts, cands, allow_hp, m);
    }
}

/// The nearest vector of a part is the vector of another part of the same block, whatever
/// else was read or suggested: for the last part that to its left, for the upper right and
/// the lower left part that of the first. Only the first part has it from the surroundings.
pub proof fn law_nearest_of_parts(cands: MvCandidates, m: ModeInfo, r: int)
    requires
        0 <= r < 2,
    ensures
        part_near(cands, m, NEARESTMV as int, 3, r) == m.bmi_mv[2][r],
        part_near(cands, m, NEARESTMV as int, 2, r) == m.bmi_mv[0][r],
        part_near(cands, m, NEARESTMV as int, 1, r) == m.bmi_mv[0][r],
{
}

/// The near vector of a part behind the first is never its nearest vector, unless both
/// are zero.
pub proof fn law_near_is_not_nearest(cands: MvCandidates, m: ModeInfo, part: int, r: int)
    requires
        0 <= r < 2,
        1 <= part < 4,
    ensures
        ({
            let near = part_near(cands, m, NEARMV as int, part, r);
            near != part_near(cands, m, NEARESTMV as int, part, r) || near == (0i32, 0i32)
        }),
{
}

/// The near vector of a part behind the first is the first vector that differs from the
/// nearest one, among those in `queue`: for the last part those of the parts above it and
/// of the first part, then, for each part, the two that the surroundings suggest.
pub proof fn law_near_is_first_other(
    cands: MvCandidates,
    m: ModeInfo,
    part: int,
    r: int,
    queue: Seq<Mv>,
    i: int,
)
    requires
        0 <= r < 2,
        1 <= part < 4,
        ({
            let l = cands.lists[r][1][part + 1];
            queue == (if part == 3 {
                seq![m.bmi_mv[1][r], m.bmi_mv[0][r], l.mvs[0], l.mvs[1]]
            } else {
                seq![l.mvs[0], l.mvs[1]]
            })
        }),
        0 <= i < queue.len(),
        queue[i] != part_near(cands, m, NEARESTMV as int, part, r),
        forall|k: int|
            0 <= k < i ==> #[trigger] queue[k] == part_near(cands, m, NEARESTMV as int, part, r),
    ensures
        part_near(cands, m, NEARMV as int, part, r) == queue[i],
{
    if part == 3 {
        assert(i > 0 ==> queue[0] == m.bmi_mv[1][r]);
        assert(i > 1 ==> queue[1] == m.bmi_mv[0][r]);
        assert(i > 2 ==> queue[2] == queue[2]);
        let near = part_near(cands, m, NEARESTMV as int, part, r);
        assert(i > 0 ==> queue[0] == near);
        assert(i > 1 ==> queue[1] == near);
        assert(i > 2 ==> queue[2] == near);
    } else {
        assert(i > 0 ==> queue[0] == part_near(cands, m, NEARESTMV as int, part, r));
    }
}

/// The first part has the last of the vectors that the surroundings suggest for it in its
/// mode.
pub proof fn law_first_part_is_suggested(cands: MvCandidates, m: ModeInfo, r: int)
    requires
        0 <= r < 2,
        cands.wf(),
    ensures
        ({
            let nearest = cands.lists[r][0][1];
            let near = cands.lists[r][1][1];
            &&& nearest.count == 1 ==> part_near(cands, m, NEARESTMV as int, 0, r)
                == nearest.mvs[0]
            &&& nearest.count == 2 ==> part_near(cands, m, NEARESTMV as int, 0, r)
                == nearest.mvs[1]
            &&& near.count == 1 ==> part_near(cands, m, NEARMV as int, 0, r) == near.mvs[0]
            &&& near.count == 2 ==> part_near(cands, m, NEARMV as int, 0, r) == near.mvs[1]
        }),
{
    assert(1 <= cands.lists[r][0][1].count <= 2);
    assert(1 <= cands.lists[r][1][1].count <= 2);
}

/// A zero vector is read from nothing, a near one is taken as it is, and neither moves the
/// reader or counts anything.
pub proof fn law_only_new_vectors_are_read(
    c: Cursor,
    n: NmvContext,
    allow_hp: bool,
    mode: int,
    base: Seq<Mv>,
    near: Seq<Mv>,
    compound: bool,
)
    requires
        10 <= mode <= 12,
    ensures
        ({
            let (vs, d, log) = vectors_read(c, n, allow_hp, mode, base, near, compound);
            &&& d == c
            &&& log.len() == 0
            &&& mode == 12 ==> vs.len() == 2 && vs[0] == (0i32, 0i32) && vs[1] == (0i32, 0i32)
            &&& mode != 12 ==> vs == near
        }),
{
}

/// A vector that is moved lies as far away as the difference says.
pub proof fn law_moved_by_difference(v: Mv, d: (int, int))
    requires
        moderate(v),
        mv::abs(d.0) <= 16384,
        mv::abs(d.1) <= 16384,
    ensures
        moved(v, d).0 - v.0 == d.0,
        moved(v, d).1 - v.1 == d.1,
{
}

/// A new vector is that which it starts from, moved by the difference that was read; the
/// second of two is read behind the first, and is zero where there is none.
#[verifier::rlimit(60)]
pub proof fn law_new_vectors_start_from_base(
    c: Cursor,
    n: NmvContext,
    allow_hp: bool,
    base: Seq<Mv>,
    near: Seq<Mv>,
    compound: bool,
)
    ensures
        ({
            let one = mv::difference_read(c, n, allow_hp && mv::is_short(base[0]));
            let two = mv::difference_read(one.1, n, allow_hp && mv::is_short(base[1]));
            let r = vectors_read(c, n, allow_hp, 13, base, near, compound);
            &&& r.0.len() == 2
            &&& r.0[0] == moved(base[0], one.0)
            &&& r.0[1] == (if compound {
                moved(base[1], two.0)
            } else {
                (0i32, 0i32)
            })
            &&& r.1 == (if compound {
                two.1
            } else {
                one.1
            })
        }),
{
}

/// The nearest and the new mode start from the first suggestion, the near mode from the
/// second, and the zero mode from nothing; the suggestion loses at most an eighth, and
/// towards zero.
pub proof fn law_base_is_suggestion(
    cands: MvCandidates,
    r: int,
    mode: int,
    count: int,
    allow_hp: bool,
)
    requires
        cands.wf(),
        0 <= r < 2,
        10 <= mode <= 13,
    ensures
        ({
            let v = base_mv(cands, r, mode, count, allow_hp);
            let w = if mode == 11 {
                cands.lists[r][1][0].mvs[1]
            } else {
                cands.lists[r][mode - 10][0].mvs[0]
            };
            &&& r >= count || mode == 12 ==> v == (0i32, 0i32)
            &&& r < count && mode != 12 ==> {
                &&& mv::abs(v.0 as int) <= mv::abs(w.0 as int) <= mv::abs(v.0 as int) + 1
                &&& mv::abs(v.1 as int) <= mv::abs(w.1 as int) <= mv::abs(v.1 as int) + 1
                &&& v != w ==> v.0 % 2 == 0 && v.1 % 2 == 0
                &&& -64 < w.0 < 64 && -64 < w.1 < 64 && allow_hp ==> v == w
                &&& !allow_hp ==> v.0 % 2 == 0 && v.1 % 2 == 0
                &&& w.0 >= 64 || w.0 <= -64 || w.1 >= 64 || w.1 <= -64 ==> v.0 % 2 == 0 && v.1 % 2
                    == 0
            }
        }),
{
    let w = if mode == 11 {
        cands.lists[r][1][0].mvs[1]
    } else {
        cands.lists[r][mode - 10][0].mvs[0]
    };
    assert(1 <= cands.lists[r][mode - 10][0].count);
    assert(moderate(w));
}

/// The halves of a block below 8x8 share their vectors: the left and the right half of
/// one that is cut upright, the upper and the lower half of one that is cut across. The
/// vectors of the second half are read behind those of the first, and those of the four
/// parts row by row.
pub proof fn law_parts_share_vectors(
    c: Cursor,
    fc: FrameContext,
    cands: MvCandidates,
    m: ModeInfo,
    mode_ctx: int,
    allow_hp: bool,
)
    requires
        m.sb_type < 3,
    ensures
        ({
            let (vs, mode, d, log) = parts_read(c, fc, cands, m, mode_ctx, allow_hp);
            let (m0, v0, c1, _) = part_read(c, fc, cands, m, mode_ctx, allow_hp, 0);
            &&& vs.len() == 4
            &&& vs[0] == v0
            &&& m.sb_type == 1 ==> vs[2] == vs[0] && vs[3] == vs[1] && ({
                let p = part_read(c1, fc, cands, m, mode_ctx, allow_hp, 1);
                vs[1] == p.1 && mode == p.0 && d == p.2
            })
            &&& m.sb_type == 2 ==> vs[1] == vs[0] && vs[3] == vs[2] && ({
                let p = part_read(c1, fc, cands, m, mode_ctx, allow_hp, 2);
                vs[2] == p.1 && mode == p.0 && d == p.2
            })
            &&& m.sb_type == 0 ==> ({
                let p1 = part_read(c1, fc, cands, m, mode_ctx, allow_hp, 1);
                let p2 = part_read(p1.2, fc, cands, m, mode_ctx, allow_hp, 2);
                let p3 = part_read(p2.2, fc, cands, m, mode_ctx, allow_hp, 3);
                &&& vs[1] == p1.1 && vs[2] == p2.1 && vs[3] == p3.1
                &&& mode == p3.0 && d == p3.2
            })
        }),
{
}

/// A block below 8x8 has the vectors of its last part, and the mode of the part that was
/// read last.
pub proof fn law_small_blocks_have_their_last_vectors(
    c: Cursor,
    fc: FrameContext,
    cands: MvCandidates,
    mode_ctx: int,
    allow_hp: bool,
    before: ModeInfo,
    m: ModeInfo,
)
    requires
        m.sb_type < 3,
        motion_info(c, fc, cands, mode_ctx, allow_hp, before, m),
    ensures
        m.mv[0] == m.bmi_mv[3][0],
        m.mv[1] == m.bmi_mv[3][1],
{
}

/// The mode of each part is counted first, in the context of the block; nothing more is
/// counted of a part whose vectors are not new.
pub proof fn law_modes_of_parts_are_counted(
    c: Cursor,
    fc: FrameContext,
    cands: MvCandidates,
    m: ModeInfo,
    mode_ctx: int,
    allow_hp: bool,
    part: int,
)
    ensures
        ({
            let (mode, vs, d, log) = part_read(c, fc, cands, m, mode_ctx, allow_hp, part);
            &&& log.len() >= 1 && log[0] == Count::InterMode(mode_ctx, mode - 10)
            &&& mode != NEWMV ==> log.len() == 1
            &&& mode == ZEROMV ==> vs == seq![(0i32, 0i32), (0i32, 0i32)]
        }),
{
    reveal(part_read);
    let probs = fc.inter_mode_probs[mode_ctx]@;
    let mode = 10 + token::tree_read(c, INTER_MODE_TREE@, probs);
    let (vs, d, log) = vectors_read(
        token::tree_done(c, INTER_MODE_TREE@, probs),
        fc.nmvc,
        allow_hp,
        mode,
        part_bases(cands, m, allow_hp),
        part_nears(cands, m, mode, part),
        m.compound(),
    );
    let all = seq![Count::InterMode(mode_ctx, mode - 10)] + log;
    assert(part_read(c, fc, cands, m, mode_ctx, allow_hp, part) == (mode, vs, d, all));
    assert(all.len() == 1 + log.len());
    assert(all[0] == Count::InterMode(mode_ctx, mode - 10));
    if mode != NEWMV {
        assert(log.len() == 0);
    }
}

} // verus!
