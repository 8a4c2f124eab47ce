//! Reading a tile gives back the squares, blocks and modes that were written.
use vstd::prelude::*;

use crate::block::{ModeInfo, BLOCK_8X8};
use crate::coding;
use crate::coding::{Cursor, Sym};
use crate::context::FrameContext;
use crate::decode::modeinfo;
use crate::decode::modeinfo::valid_context;
use crate::decode::motion;
use crate::decode::motion::{lemma_part_frame, part_read, MvCandidates};
use crate::decode::partition::{steps_to, Step, Task};
use crate::decode::reconstructor::{intra_segment_read, map_of, side, Reconstructor};
use crate::encode::block::{
    flags_part, head_part, inter_frame_block, intra_frame_block, intra_part,
    law_flags_read_inverts_write, law_head_read_inverts_write, law_intra_block_read_inverts_write,
    law_intra_frame_read_inverts_write, law_motion_read_inverts_write,
    law_segment_part_read_inverts_write, modes_codable, motion_codable, motion_part, new_bases,
    plain_segments, refs_codable, segment_part, tx_fits,
};
use crate::encode::partition::{emits, emitted, law_cut_read_inverts_write, PartitionContext};

verus! {

// ---------------------------------------------------------------------------
// Squares
// ---------------------------------------------------------------------------

/// The reader has the partition contexts of the writer.
pub open spec fn agree(pc: PartitionContext, rec: Reconstructor) -> bool {
    &&& rec.above_seg@ == pc.above_seg@
    &&& rec.left_seg@ == pc.left_seg@
    &&& rec.is_inter_frame == pc.is_inter
    &&& rec.mi_rows == pc.mi_rows
    &&& rec.mi_cols == pc.mi_cols
}

/// The cut of the first task, if it is a square, can be written.
pub open spec fn first_cuttable(tasks: Seq<Task>, pc: PartitionContext, partition: int) -> bool {
    tasks.len() > 0 ==> match tasks[0] {
        Task::Square { row, col, bsize } => row < pc.mi_rows && col < pc.mi_cols ==> pc.cuttable(
            row as int,
            col as int,
            bsize as int,
            partition,
        ),
        _ => true,
    }
}

/// A step of a reader that has the contexts of the writer asks for what the step of the
/// writer asks for, leaves the same tasks, and leaves the contexts of the writer.
pub proof fn law_step_read_inverts_write(
    tasks: Seq<Task>,
    c: Cursor,
    pc: PartitionContext,
    partition: int,
    asked: Step,
    left: Seq<Task>,
    pc2: PartitionContext,
    rec: Reconstructor,
    next: Step,
    rest: Seq<Task>,
    rec2: Reconstructor,
    d: Cursor,
)
    requires
        agree(pc, rec),
        first_cuttable(tasks, pc, partition),
        coding::holds(c, emitted(tasks, pc, rec.fc, partition)),
        emits(tasks, pc, partition, asked, left, pc2),
        steps_to(tasks, rec, c, next, rest, rec2, d),
    ensures
        next == asked,
        rest == left,
        agree(pc2, rec2),
        rec2.fc == rec.fc,
        d == coding::after(c, emitted(tasks, pc, rec.fc, partition)),
{
    assert(rec.left_seg =~= pc.left_seg);
    if tasks.len() > 0 {
        match tasks[0] {
            Task::Square { row, col, bsize } => {
                if row < pc.mi_rows && col < pc.mi_cols {
                    law_cut_read_inverts_write(
                        c,
                        rec,
                        pc,
                        row as int,
                        col as int,
                        bsize as int,
                        partition,
                    );
                }
            },
            Task::Leave { row, col, bsize, width } => {
                assert(rec2.above_seg@ =~= pc2.above_seg@);
                assert(rec2.left_seg@ =~= pc2.left_seg@);
            },
            Task::Block { .. } => {},
        }
    }
}

// ---------------------------------------------------------------------------
// Walks
// ---------------------------------------------------------------------------

/// A writer before a step: the tasks that are left, its contexts, how it cuts the first
/// square, and what it writes of a block.
pub struct Writing {
    pub tasks: Seq<Task>,
    pub pc: PartitionContext,
    pub cut: int,
    pub block: Seq<Sym>,
}

/// A reader before a step.
pub struct Reading {
    pub tasks: Seq<Task>,
    pub rec: Reconstructor,
    pub c: Cursor,
}

/// The first task is a block.
pub open spec fn at_block(tasks: Seq<Task>) -> bool {
    tasks.len() > 0 && tasks[0] is Block
}

/// What a writer writes in a step.
pub open spec fn step_syms(w: Writing, fc: FrameContext) -> Seq<Sym> {
    emitted(w.tasks, w.pc, fc, w.cut) + w.block
}

/// What a writer writes in all steps.
pub open spec fn walk_syms(ws: Seq<Writing>, fc: FrameContext) -> Seq<Sym>
    decreases ws.len(),
{
    if ws.len() == 0 {
        Seq::empty()
    } else {
        walk_syms(ws.drop_last(), fc) + step_syms(ws.last(), fc)
    }
}

/// The writer goes from `w` to `t` in a step.
pub open spec fn writes_to(w: Writing, t: Writing) -> bool {
    exists|asked: Step| #[trigger] emits(w.tasks, w.pc, w.cut, asked, t.tasks, t.pc)
}

/// Each step of a writer follows from the one before it, and it writes blocks only where
/// the walk comes to them.
pub open spec fn writes_on(ws: Seq<Writing>) -> bool {
    &&& forall|i: int|
        0 <= i < ws.len() ==> first_cuttable((#[trigger] ws[i]).tasks, ws[i].pc, ws[i].cut) && (
        !at_block(ws[i].tasks) ==> ws[i].block.len() == 0)
    &&& forall|i: int| 0 <= i < ws.len() - 1 ==> writes_to(#[trigger] ws[i], ws[i + 1])
}

/// The reader goes from `r` to `t`: it takes a step, and where that asks for a block it
/// reads that block. Where the block is the one that was written, it is read to its end.
/// Reading a block leaves the partition contexts as they are.
pub open spec fn reads_to(r: Reading, t: Reading, block: Seq<Sym>) -> bool {
    exists|next: Step, mid: Reconstructor, d: Cursor|
        {
            &&& #[trigger] steps_to(r.tasks, r.rec, r.c, next, t.tasks, mid, d)
            &&& forall|pc: PartitionContext| #[trigger] agree(pc, mid) ==> agree(pc, t.rec)
            &&& t.rec.fc == mid.fc
            &&& coding::holds(d, block) ==> t.c == coding::after(d, block)
        }
}

/// A reader that starts with the tasks and contexts of the writer comes to the same
/// squares and blocks, step by step, up to the end of what was written.
pub proof fn law_walk_read_inverts_write(ws: Seq<Writing>, rs: Seq<Reading>, n: int)
    requires
        0 <= n < ws.len(),
        ws.len() == rs.len(),
        writes_on(ws),
        rs[0].tasks == ws[0].tasks,
        agree(ws[0].pc, rs[0].rec),
        coding::holds(rs[0].c, walk_syms(ws, rs[0].rec.fc)),
        forall|i: int|
            0 <= i < rs.len() - 1 ==> reads_to(#[trigger] rs[i], rs[i + 1], ws[i].block),
    ensures
        rs[n].tasks == ws[n].tasks,
        agree(ws[n].pc, rs[n].rec),
        rs[n].rec.fc == rs[0].rec.fc,
        rs[n].c == coding::after(rs[0].c, walk_syms(ws.take(n), rs[0].rec.fc)),
    decreases n,
{
    let fc = rs[0].rec.fc;
    let c = rs[0].c;
    if n == 0 {
        assert(ws.take(0).len() == 0);
    } else {
        law_walk_read_inverts_write(ws, rs, n - 1);
        let k = n - 1;
        let (w, r) = (ws[k], rs[k]);
        lemma_walk_prefix(ws, fc, n);
        assert(ws.take(n).drop_last() =~= ws.take(k));
        assert(ws.take(n).last() == w);
        let before = walk_syms(ws.take(k), fc);
        let cut = emitted(w.tasks, w.pc, fc, w.cut);
        assert(walk_syms(ws.take(n), fc) == before + (cut + w.block));
        let tail = walk_tail(ws, fc, n);
        coding::lemma_holds_concat(c, walk_syms(ws.take(n), fc), tail);
        coding::lemma_holds_concat(c, before, cut + w.block);
        coding::lemma_holds_concat(r.c, cut, w.block);
        assert(reads_to(r, rs[k + 1], w.block));
        let (next, mid, d) = choose|next: Step, mid: Reconstructor, d: Cursor|
            {
                &&& #[trigger] steps_to(r.tasks, r.rec, r.c, next, rs[n].tasks, mid, d)
                &&& forall|pc: PartitionContext| #[trigger] agree(pc, mid) ==> agree(pc, rs[n].rec)
                &&& rs[n].rec.fc == mid.fc
                &&& coding::holds(d, w.block) ==> rs[n].c == coding::after(d, w.block)
            };
        assert(writes_to(w, ws[k + 1]));
        let asked = choose|asked: Step| #[trigger]
            emits(w.tasks, w.pc, w.cut, asked, ws[n].tasks, ws[n].pc);
        law_step_read_inverts_write(
            w.tasks,
            r.c,
            w.pc,
            w.cut,
            asked,
            ws[n].tasks,
            ws[n].pc,
            r.rec,
            next,
            rs[n].tasks,
            mid,
            d,
        );
    }
}

/// What is written in the steps from the `n`th on.
pub open spec fn walk_tail(ws: Seq<Writing>, fc: FrameContext, n: int) -> Seq<Sym>
    decreases ws.len(),
{
    if ws.len() == 0 || ws.len() <= n {
        Seq::empty()
    } else {
        walk_tail(ws.drop_last(), fc, n) + step_syms(ws.last(), fc)
    }
}

/// What is written in all steps is what is written in the first `n` and in the others.
proof fn lemma_walk_prefix(ws: Seq<Writing>, fc: FrameContext, n: int)
    requires
        0 <= n <= ws.len(),
    ensures
        walk_syms(ws, fc) == walk_syms(ws.take(n), fc) + walk_tail(ws, fc, n),
    decreases ws.len(),
{
    if ws.len() == n {
        assert(ws.take(n) =~= ws);
        assert(walk_syms(ws, fc) =~= walk_syms(ws.take(n), fc) + Seq::<Sym>::empty());
    } else {
        let most = ws.drop_last();
        lemma_walk_prefix(most, fc, n);
        assert(most.take(n) =~= ws.take(n));
        let (a, b) = (walk_syms(ws.take(n), fc), walk_tail(most, fc, n));
        let s = step_syms(ws.last(), fc);
        assert((a + b) + s =~= a + (b + s));
    }
}

// ---------------------------------------------------------------------------
// Blocks
// ---------------------------------------------------------------------------

/// The inter block that a reader finds at `c`, and the state after it: `m0` is what it
/// knows behind the flags of the block, `m1` behind its references, mode and filter, and
/// `m` behind its vectors.
pub open spec fn reads_inter_block(
    rec: Reconstructor,
    c: Cursor,
    row: int,
    col: int,
    bsize: int,
    cands: MvCandidates,
    mode_ctx: int,
    m0: ModeInfo,
    m1: ModeInfo,
    m: ModeInfo,
    d: Cursor,
) -> bool {
    let a = rec.above(row, col);
    let l = rec.left(row, col);
    let p = rec.prelude(c, row, col, bsize);
    let c2 = modeinfo::inter_head_done(
        p.after,
        rec.fc,
        rec.seg,
        m0.segment_id as int,
        bsize,
        rec.sign_bias@,
        rec.interp_filter as int,
        mode_ctx,
        side(&a),
        side(&l),
    ).0;
    &&& Reconstructor::says_prelude(p, bsize, m0)
    &&& m0.uv_mode == 0
    &&& m0.bmi@ == seq![0u8, 0u8, 0u8, 0u8]
    &&& modeinfo::no_motion(m0)
    &&& modeinfo::inter_head(
        p.after,
        rec.fc,
        rec.seg,
        rec.sign_bias@,
        rec.interp_filter as int,
        mode_ctx,
        side(&a),
        side(&l),
        m1,
    )
    &&& m1 == (ModeInfo {
        ref_frame: m1.ref_frame,
        mode: m1.mode,
        interp_filter: m1.interp_filter,
        ..m0
    })
    &&& motion::motion_info(c2, rec.fc, cands, mode_ctx, rec.allow_hp, m1, m)
    &&& m == (ModeInfo { bmi_mv: m.bmi_mv, mode: m.mode, mv: m.mv, ..m1 })
    &&& d == motion::motion_done(c2, rec.fc, cands, mode_ctx, rec.allow_hp, m1, m).0
}

/// The frame of a reader says everything of an inter block `m` that can be said of it,
/// given what its surroundings suggest. Below 8x8 the four modes of its parts stand in
/// `m`; what is not coded has the values that a reader gives it.
pub open spec fn inter_block_codable(
    rec: Reconstructor,
    m: ModeInfo,
    tree: Option<Seq<u8>>,
    select: bool,
    cands: MvCandidates,
) -> bool {
    &&& m.is_inter
    &&& m.sb_type < 13
    &&& m.segment_id < 8
    &&& !m.seg_id_predicted
    &&& m.uv_mode == 0
    &&& modes_codable(m)
    &&& plain_segments(rec.seg, tree)
    &&& tree is None ==> m.segment_id == 0
    &&& valid_context(rec.fc)
    &&& refs_codable(rec.fc, m, rec.sign_bias@)
    &&& tx_fits(rec.fc, m, select, !m.skip)
    &&& rec.interp_filter <= 4
    &&& if rec.interp_filter == 4 {
        m.interp_filter < 3
    } else {
        m.interp_filter == rec.interp_filter
    }
    &&& motion_codable(cands, m, rec.allow_hp)
    &&& m.sb_type >= BLOCK_8X8 ==> forall|i: int|
        0 <= i < 4 ==> (#[trigger] m.bmi_mv[i])@ == seq![(0i32, 0i32), (0i32, 0i32)]
}

/// What a writer writes of `m` where a reader `rec` will find it.
pub open spec fn inter_block_syms(
    rec: Reconstructor,
    row: int,
    col: int,
    m: ModeInfo,
    tree: Option<Seq<u8>>,
    select: bool,
    cands: MvCandidates,
    mode_ctx: int,
) -> Seq<Sym> {
    let a = rec.above(row, col);
    let l = rec.left(row, col);
    inter_frame_block(
        rec.fc,
        m,
        m.segment_id as int,
        tree,
        select,
        rec.sign_bias@,
        rec.interp_filter as int,
        mode_ctx,
        new_bases(cands, m, rec.allow_hp),
        rec.allow_hp,
        side(&a),
        side(&l),
    )
}

/// Reading an inter block gives back the block that was written, all of it but for the
/// modes of parts, of which a reader keeps only the vectors.
pub proof fn law_inter_block_read_inverts_write(
    rec: Reconstructor,
    c: Cursor,
    row: int,
    col: int,
    tree: Option<Seq<u8>>,
    select: bool,
    cands: MvCandidates,
    mode_ctx: int,
    m: ModeInfo,
    m0: ModeInfo,
    m1: ModeInfo,
    m2: ModeInfo,
    d: Cursor,
)
    requires
        inter_block_codable(rec, m, tree, select, cands),
        0 <= mode_ctx < 7,
        coding::holds(c, inter_block_syms(rec, row, col, m, tree, select, cands, mode_ctx)),
        reads_inter_block(
            rec,
            c,
            row,
            col,
            m.sb_type as int,
            cands,
            mode_ctx,
            m0,
            m1,
            m2,
            d,
        ),
    ensures
        m2 == (ModeInfo { bmi: m2.bmi, ..m }),
        d == coding::after(c, inter_block_syms(rec, row, col, m, tree, select, cands, mode_ctx)),
{
    let a = rec.above(row, col);
    let l = rec.left(row, col);
    let (above, left) = (side(&a), side(&l));
    let hp = rec.allow_hp;
    let sid = m.segment_id as int;
    let s = segment_part(sid, tree);
    let f = flags_part(rec.fc, m, select, above, left);
    let h = head_part(
        rec.fc,
        m,
        rec.sign_bias@,
        rec.interp_filter as int,
        mode_ctx,
        above,
        left,
    );
    let v = motion_part(rec.fc, m, new_bases(cands, m, hp), mode_ctx, hp);
    coding::lemma_holds_concat(c, s, f + (h + v));
    let c1 = coding::after(c, s);
    coding::lemma_holds_concat(c1, f, h + v);
    let c2 = coding::after(c1, f);
    coding::lemma_holds_concat(c2, h, v);
    let c3 = coding::after(c2, h);
    law_segment_part_read_inverts_write(
        c,
        rec.seg,
        sid,
        tree,
        rec.cur_seg_map@,
        map_of(rec.prev_seg_map),
        rec.mi_cols as int,
        rec.rect(m.sb_type as int, row, col),
        above,
        left,
    );
    assert(!rec.seg.has(sid, 2) && !rec.seg.has(sid, 3));
    law_flags_read_inverts_write(c1, rec.fc, rec.seg, m, sid, select, above, left);
    law_head_read_inverts_write(
        c2,
        rec.fc,
        rec.seg,
        m,
        sid,
        rec.sign_bias@,
        rec.interp_filter as int,
        mode_ctx,
        above,
        left,
    );
    assert(m1.ref_frame =~= m.ref_frame);
    let before = ModeInfo { bmi_mv: m1.bmi_mv, mode: m1.mode, mv: m1.mv, ..m };
    if m.sb_type >= BLOCK_8X8 {
        assert(m1.bmi_mv =~= m.bmi_mv) by {
            assert forall|i: int| 0 <= i < 4 implies m1.bmi_mv[i] == m.bmi_mv[i] by {
                assert(m0.bmi_mv[i]@ == seq![(0i32, 0i32), (0i32, 0i32)]);
                assert(m.bmi_mv[i]@ == seq![(0i32, 0i32), (0i32, 0i32)]);
                assert(m0.bmi_mv[i] =~= m.bmi_mv[i]);
            }
        }
    }
    law_motion_read_inverts_write(c3, rec.fc, cands, before, m, mode_ctx, hp);
    if m.sb_type < BLOCK_8X8 {
        lemma_parts_are_one(c3, rec.fc, cands, m, m2, mode_ctx, hp);
    } else {
        assert(m2.mv =~= m.mv);
    }
}

/// What every intra block has that is coded from 8x8 on: no vectors, and no modes of
/// parts.
pub open spec fn whole_intra(m: ModeInfo) -> bool {
    &&& !m.is_inter
    &&& 3 <= m.sb_type < 13
    &&& m.segment_id < 8
    &&& !m.seg_id_predicted
    &&& m.mode < 10
    &&& m.uv_mode < 10
    &&& modeinfo::no_motion(m)
    &&& m.bmi@ == seq![0u8, 0u8, 0u8, 0u8]
}

/// Reading an intra block of an inter frame gives back the block that was written. `m0`
/// is what the reader knows behind the flags of the block, `m1` behind its modes.
pub proof fn law_intra_in_inter_read_inverts_write(
    rec: Reconstructor,
    c: Cursor,
    row: int,
    col: int,
    tree: Option<Seq<u8>>,
    select: bool,
    cands: MvCandidates,
    mode_ctx: int,
    m: ModeInfo,
    m0: ModeInfo,
    m1: ModeInfo,
)
    requires
        whole_intra(m),
        !m.skip,
        plain_segments(rec.seg, tree),
        tree is None ==> m.segment_id == 0,
        tx_fits(rec.fc, m, select, true),
        coding::holds(c, inter_block_syms(rec, row, col, m, tree, select, cands, mode_ctx)),
        ({
            let p = rec.prelude(c, row, col, m.sb_type as int);
            &&& Reconstructor::says_prelude(p, m.sb_type as int, m0)
            &&& modeinfo::intra_block_info(p.after, rec.fc, m1)
        }),
        m1 == (ModeInfo { mode: m1.mode, bmi: m1.bmi, uv_mode: m1.uv_mode, ..m0 }),
    ensures
        m1 == m,
        modeinfo::intra_block_done(
            rec.prelude(c, row, col, m.sb_type as int).after,
            rec.fc,
            m1,
        ).0 == coding::after(
            c,
            inter_block_syms(rec, row, col, m, tree, select, cands, mode_ctx),
        ),
{
    let a = rec.above(row, col);
    let l = rec.left(row, col);
    let (above, left) = (side(&a), side(&l));
    let sid = m.segment_id as int;
    let s = segment_part(sid, tree);
    let f = flags_part(rec.fc, m, select, above, left);
    let v = intra_part(rec.fc, m);
    coding::lemma_holds_concat(c, s, f + v);
    let c1 = coding::after(c, s);
    coding::lemma_holds_concat(c1, f, v);
    law_segment_part_read_inverts_write(
        c,
        rec.seg,
        sid,
        tree,
        rec.cur_seg_map@,
        map_of(rec.prev_seg_map),
        rec.mi_cols as int,
        rec.rect(m.sb_type as int, row, col),
        above,
        left,
    );
    assert(!rec.seg.has(sid, 2) && !rec.seg.has(sid, 3));
    law_flags_read_inverts_write(c1, rec.fc, rec.seg, m, sid, select, above, left);
    law_intra_block_read_inverts_write(coding::after(c1, f), rec.fc, m);
    lemma_same_still(m, m1);
    assert(m1.bmi =~= m.bmi);
}

/// Blocks without vectors do not differ in them.
proof fn lemma_same_still(a: ModeInfo, b: ModeInfo)
    requires
        modeinfo::no_motion(a),
        modeinfo::no_motion(b),
    ensures
        a.ref_frame == b.ref_frame,
        a.mv == b.mv,
        a.bmi_mv == b.bmi_mv,
        a.interp_filter == b.interp_filter,
{
    assert(a.ref_frame =~= b.ref_frame);
    assert(a.mv =~= b.mv);
    assert forall|i: int| 0 <= i < 4 implies a.bmi_mv[i] == b.bmi_mv[i] by {
        assert(a.bmi_mv[i]@ == b.bmi_mv[i]@);
        assert(a.bmi_mv[i] =~= b.bmi_mv[i]);
    }
    assert(a.bmi_mv =~= b.bmi_mv);
}

/// Reading a block of an intra frame gives back the block that was written.
pub proof fn law_intra_frame_block_read_inverts_write(
    rec: Reconstructor,
    c: Cursor,
    row: int,
    col: int,
    tree: Option<Seq<u8>>,
    select: bool,
    m: ModeInfo,
    m1: ModeInfo,
)
    requires
        whole_intra(m),
        plain_segments(rec.seg, tree),
        tree is None ==> m.segment_id == 0,
        tx_fits(rec.fc, m, select, true),
        ({
            let a = rec.above(row, col);
            let l = rec.left(row, col);
            let (sid, _, c1) = intra_segment_read(
                c,
                rec.seg,
                map_of(rec.prev_seg_map),
                rec.cur_seg_map@,
                rec.mi_cols as int,
                rec.rect(m.sb_type as int, row, col),
            );
            &&& coding::holds(
                c,
                intra_frame_block(
                    rec.fc,
                    m,
                    m.segment_id as int,
                    tree,
                    select,
                    side(&a),
                    side(&l),
                ),
            )
            &&& modeinfo::intra_frame_info(
                c1,
                rec.fc,
                sid,
                m.sb_type as int,
                side(&a),
                side(&l),
                m1,
            )
        }),
    ensures
        m1 == m,
        ({
            let a = rec.above(row, col);
            let l = rec.left(row, col);
            let (_, _, c1) = intra_segment_read(
                c,
                rec.seg,
                map_of(rec.prev_seg_map),
                rec.cur_seg_map@,
                rec.mi_cols as int,
                rec.rect(m.sb_type as int, row, col),
            );
            modeinfo::intra_frame_done(
                c1,
                rec.fc,
                m.sb_type as int,
                side(&a),
                side(&l),
                m1,
            ).0 == coding::after(
                c,
                intra_frame_block(
                    rec.fc,
                    m,
                    m.segment_id as int,
                    tree,
                    select,
                    side(&a),
                    side(&l),
                ),
            )
        }),
{
    let a = rec.above(row, col);
    let l = rec.left(row, col);
    let (above, left) = (side(&a), side(&l));
    let sid = m.segment_id as int;
    let s = segment_part(sid, tree);
    let rest = intra_frame_block(rec.fc, m, 0, None, select, above, left);
    assert(intra_frame_block(rec.fc, m, sid, tree, select, above, left) =~= s + rest);
    coding::lemma_holds_concat(c, s, rest);
    law_segment_part_read_inverts_write(
        c,
        rec.seg,
        sid,
        tree,
        rec.cur_seg_map@,
        map_of(rec.prev_seg_map),
        rec.mi_cols as int,
        rec.rect(m.sb_type as int, row, col),
        above,
        left,
    );
    law_intra_frame_read_inverts_write(
        coding::after(c, s),
        rec.fc,
        m,
        select,
        above,
        left,
    );
    lemma_same_still(m, m1);
    assert(m1.bmi =~= m.bmi);
}

/// The parts of a block below 8x8 that are read from `c` are the same for every block
/// that says so.
proof fn lemma_parts_are_one(
    c: Cursor,
    fc: FrameContext,
    cands: MvCandidates,
    a: ModeInfo,
    b: ModeInfo,
    mode_ctx: int,
    hp: bool,
)
    requires
        a.sb_type < 3,
        a.sb_type == b.sb_type,
        a.ref_frame == b.ref_frame,
        motion::part_vectors(a) == motion::parts_read(c, fc, cands, a, mode_ctx, hp).0,
        motion::part_vectors(b) == motion::parts_read(c, fc, cands, b, mode_ctx, hp).0,
    ensures
        a.bmi_mv == b.bmi_mv,
        motion::parts_read(c, fc, cands, a, mode_ctx, hp) == motion::parts_read(
            c,
            fc,
            cands,
            b,
            mode_ctx,
            hp,
        ),
{
    let (va, vb) = (motion::part_vectors(a), motion::part_vectors(b));
    lemma_part_frame(c, fc, cands, a, b, mode_ctx, hp, 0);
    let (_, _, c1, _) = part_read(c, fc, cands, a, mode_ctx, hp, 0);
    assert(va[0] == vb[0]);
    assert(a.bmi_mv[0] =~= b.bmi_mv[0]);
    if a.sb_type == 0 {
        lemma_part_frame(c1, fc, cands, a, b, mode_ctx, hp, 1);
        let (_, _, c2, _) = part_read(c1, fc, cands, a, mode_ctx, hp, 1);
        assert(va[1] == vb[1]);
        assert(a.bmi_mv[1] =~= b.bmi_mv[1]);
        lemma_part_frame(c2, fc, cands, a, b, mode_ctx, hp, 2);
        let (_, _, c3, _) = part_read(c2, fc, cands, a, mode_ctx, hp, 2);
        assert(va[2] == vb[2]);
        assert(a.bmi_mv[2] =~= b.bmi_mv[2]);
        lemma_part_frame(c3, fc, cands, a, b, mode_ctx, hp, 3);
        assert(va[3] == vb[3]);
        assert(a.bmi_mv[3] =~= b.bmi_mv[3]);
    } else if a.sb_type == 1 {
        lemma_part_frame(c1, fc, cands, a, b, mode_ctx, hp, 1);
        assert(va[1] == vb[1] && va[2] == vb[2] && va[3] == vb[3]);
        assert(a.bmi_mv[1] =~= b.bmi_mv[1]);
        assert(a.bmi_mv[2] =~= b.bmi_mv[2]);
        assert(a.bmi_mv[3] =~= b.bmi_mv[3]);
    } else {
        assert(va[1] == vb[1]);
        assert(a.bmi_mv[1] =~= b.bmi_mv[1]);
        lemma_part_frame(c1, fc, cands, a, b, mode_ctx, hp, 2);
        assert(va[2] == vb[2] && va[3] == vb[3]);
        assert(a.bmi_mv[2] =~= b.bmi_mv[2]);
        assert(a.bmi_mv[3] =~= b.bmi_mv[3]);
    }
    assert(a.bmi_mv =~= b.bmi_mv);
}

} // verus!
