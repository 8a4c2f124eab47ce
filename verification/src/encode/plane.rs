//! The planes of a block that is coded: where its transform blocks lie, how they are
//! predicted, and the contexts of their coefficients.
use vstd::prelude::*;

use crate::block::{ModeInfo, BLOCK_8X8};
use crate::decode::inter::{block_patches, patches, small_vectors, Patch};
use crate::decode::modeinfo::valid_mi;
use crate::decode::plane::{block_in_plane, plane_block, PlaneBlock};
use crate::decode::reconstructor::Reconstructor;
use crate::decode::residual::{
    any_set, first_context, mark, marked, plan_tx, some_set, tx_plan, TxPlan,
};
use crate::encode::snapshot::Canvas;

verus! {

/// The subsampling of a plane: chroma has half the width and height of luma.
pub open spec fn half_of(plane: int) -> int {
    if plane == 0 {
        0
    } else {
        1
    }
}

impl Canvas {
    /// The block with mode information `m` in a plane.
    pub open spec fn in_plane(&self, m: ModeInfo, plane: int, row: int, col: int) -> PlaneBlock {
        plane_block(
            m,
            plane,
            row,
            col,
            self.mi_rows as int,
            self.mi_cols as int,
            half_of(plane),
            half_of(plane),
        )
    }

    /// The block with mode information `m` in a plane.
    pub fn plane_block(&self, m: &ModeInfo, plane: usize, mi_row: usize, mi_col: usize) -> (r:
        PlaneBlock)
        requires
            self.wf(),
            m.sb_type < 13,
            mi_row < self.mi_rows,
            mi_col < self.mi_cols,
        ensures
            r == self.in_plane(*m, plane as int, mi_row as int, mi_col as int),
    {
        let ss: usize = if plane == 0 {
            0
        } else {
            1
        };
        block_in_plane(m, plane, mi_row, mi_col, self.mi_rows, self.mi_cols, ss, ss)
    }

    /// The rectangles that predict the block with mode information `m` in a plane.
    pub fn inter_patches(&self, m: &ModeInfo, plane: usize, mi_row: usize, mi_col: usize) -> (r:
        Vec<Patch>)
        requires
            self.wf(),
            m.sb_type < 13,
            small_vectors(*m),
            mi_row < self.mi_rows,
            mi_col < self.mi_cols,
        ensures
            r@ == patches(
                *m,
                mi_row as int,
                mi_col as int,
                half_of(plane as int),
                half_of(plane as int),
            ),
    {
        let ss: usize = if plane == 0 {
            0
        } else {
            1
        };
        block_patches(m, mi_row, mi_col, ss, ss)
    }

    /// Decides how the transform block at `row`, `col` of the block at `mi_row`, `mi_col`
    /// is predicted and transformed, in a tile that starts at `tile_start`.
    pub fn tx_plan(
        &self,
        m: &ModeInfo,
        pb: &PlaneBlock,
        plane: usize,
        mi_row: usize,
        mi_col: usize,
        tile_start: usize,
        lossless: bool,
        row: usize,
        col: usize,
    ) -> (r: TxPlan)
        requires
            valid_mi(*m),
            m.uv_mode < 10,
            pb.tx_size <= 3,
            row < pb.max_h <= 16,
            col < pb.max_w <= 16,
            m.sb_type < BLOCK_8X8 ==> row < 2 && col < 2,
            pb.base_x <= 0x10000,
            pb.base_y <= 0x10000,
        ensures
            r == tx_plan(
                *m,
                *pb,
                plane as int,
                row as int,
                col as int,
                mi_row > 0,
                mi_col > tile_start,
                lossless,
            ),
    {
        plan_tx(m, pb, plane, row, col, mi_row > 0, mi_col > tile_start, lossless)
    }

    /// The context of the first coefficient of a transform block: on how many of its two
    /// sides there were coefficients.
    pub fn coef_context(&self, plane: usize, above_idx: usize, left_idx: usize, txw: usize) -> (r:
        usize)
        requires
            plane < 3,
            above_idx + txw <= self.above_ctx[plane as int]@.len(),
            left_idx + txw <= 16,
        ensures
            r == first_context(
                self.above_ctx[plane as int]@,
                self.left_ctx[plane as int]@,
                above_idx as int,
                left_idx as int,
                txw as int,
            ),
    {
        let above: bool = any_set(self.above_ctx[plane].as_slice(), above_idx, txw);
        let left: bool = any_set(self.left_ctx[plane].as_slice(), left_idx, txw);
        (if above {
            1usize
        } else {
            0
        }) + (if left {
            1usize
        } else {
            0
        })
    }

    /// Leaves the context of a transform block: whether it had coefficients, in the part
    /// that lies in the frame.
    pub fn set_ctx(
        &mut self,
        plane: usize,
        above_idx: usize,
        left_idx: usize,
        txw: usize,
        inframe_w: usize,
        inframe_h: usize,
        nonzero: bool,
    )
        requires
            old(self).wf(),
            plane < 3,
            above_idx + txw <= old(self).above_ctx[plane as int]@.len(),
            left_idx + txw <= 16,
        ensures
            final(self).wf(),
            final(self).above_ctx[plane as int]@ == marked(
                old(self).above_ctx[plane as int]@,
                above_idx as int,
                txw as int,
                inframe_w as int,
                nonzero,
            ),
            final(self).left_ctx[plane as int]@ == marked(
                old(self).left_ctx[plane as int]@,
                left_idx as int,
                txw as int,
                inframe_h as int,
                nonzero,
            ),
            forall|p: int|
                0 <= p < 3 && p != plane ==> #[trigger] final(self).above_ctx[p] == old(
                    self).above_ctx[p] && final(self).left_ctx[p] == old(self).left_ctx[p],
            *final(self) == (Canvas {
                above_ctx: final(self).above_ctx,
                left_ctx: final(self).left_ctx,
                ..*old(self)
            }),
    {
        mark(self.above_ctx[plane].as_mut_slice(), above_idx, txw, inframe_w, nonzero);
        let mut left: [u8; 16] = self.left_ctx[plane];
        mark(&mut left, left_idx, txw, inframe_h, nonzero);
        self.left_ctx[plane] = left;
        proof {
            assert(forall|p: int| 0 <= p < 3 ==> #[trigger] old(self).plane_ok(p));
            assert(forall|p: int|
                0 <= p < 3 ==> old(self).plane_ok(p) ==> #[trigger] self.plane_ok(p));
        }
    }
}

/// A writer and a reader of the same frame find a block, and the rectangles that predict
/// it, at the same places in every plane.
pub proof fn law_same_places(
    c: Canvas,
    rec: Reconstructor,
    m: ModeInfo,
    plane: int,
    row: int,
    col: int,
)
    requires
        rec.mi_rows == c.mi_rows,
        rec.mi_cols == c.mi_cols,
        rec.ss_x == 1,
        rec.ss_y == 1,
    ensures
        c.in_plane(m, plane, row, col) == plane_block(
            m,
            plane,
            row,
            col,
            rec.mi_rows as int,
            rec.mi_cols as int,
            rec.ss(plane).0,
            rec.ss(plane).1,
        ),
        patches(m, row, col, half_of(plane), half_of(plane)) == patches(
            m,
            row,
            col,
            rec.ss(plane).0,
            rec.ss(plane).1,
        ),
{
}

/// A writer and a reader of the same tile, with one row of tiles, predict and transform a
/// transform block alike: what they hand on to the work on samples is the same.
pub proof fn law_same_plans(
    rec: Reconstructor,
    m: ModeInfo,
    pb: PlaneBlock,
    plane: int,
    mi_row: int,
    mi_col: int,
    tile_start: int,
    row: int,
    col: int,
)
    requires
        rec.tile_row_start == 0,
        rec.tile_col_start == tile_start,
    ensures
        tx_plan(
            m,
            pb,
            plane,
            row,
            col,
            mi_row > 0,
            mi_col > tile_start,
            rec.lossless,
        ) == tx_plan(
            m,
            pb,
            plane,
            row,
            col,
            rec.above(mi_row, mi_col) is Some,
            rec.left(mi_row, mi_col) is Some,
            rec.lossless,
        ),
{
}

/// A writer and a reader that have left the same contexts behind give the next transform
/// block the same one.
pub proof fn law_same_contexts(
    c: Canvas,
    rec: Reconstructor,
    plane: int,
    above_idx: int,
    left_idx: int,
    n: int,
)
    requires
        0 <= plane < 3,
        0 <= above_idx,
        0 <= left_idx,
        0 <= n,
        above_idx + n <= c.above_ctx[plane]@.len(),
        above_idx + n <= rec.above_ctx[plane]@.len(),
        left_idx + n <= 16,
        forall|i: int|
            above_idx <= i < above_idx + n ==> #[trigger] c.above_ctx[plane]@[i]
                == rec.above_ctx[plane]@[i],
        forall|i: int|
            left_idx <= i < left_idx + n ==> #[trigger] c.left_ctx[plane]@[i]
                == rec.left_ctx[plane]@[i],
    ensures
        first_context(
            c.above_ctx[plane]@,
            c.left_ctx[plane]@,
            above_idx,
            left_idx,
            n,
        ) == first_context(
            rec.above_ctx[plane]@,
            rec.left_ctx[plane]@,
            above_idx,
            left_idx,
            n,
        ),
{
    let (a, b) = (c.above_ctx[plane]@, rec.above_ctx[plane]@);
    let (l, k) = (c.left_ctx[plane]@, rec.left_ctx[plane]@);
    if some_set(a, above_idx, n) {
        let i = choose|i: int| above_idx <= i < above_idx + n && #[trigger] a[i] != 0;
        assert(b[i] != 0);
    }
    if some_set(b, above_idx, n) {
        let i = choose|i: int| above_idx <= i < above_idx + n && #[trigger] b[i] != 0;
        assert(a[i] != 0);
    }
    if some_set(l, left_idx, n) {
        let i = choose|i: int| left_idx <= i < left_idx + n && #[trigger] l[i] != 0;
        assert(k[i] != 0);
    }
    if some_set(k, left_idx, n) {
        let i = choose|i: int| left_idx <= i < left_idx + n && #[trigger] k[i] != 0;
        assert(l[i] != 0);
    }
}

} // verus!
