//! The transform blocks of a coded block: their order, their prediction, their
//! transform, and the contexts of their coefficients.
use vstd::arithmetic::div_mod::*;
use vstd::arithmetic::mul::*;
use vstd::prelude::*;

use crate::adapt::min_int;
use crate::block::{flag, ModeInfo, BLOCK_8X8};
use crate::coding::Cursor;
use crate::context::FrameContext;
use crate::decode::modeinfo::{
    kf_done, kf_mode, kf_modes, valid_mi, y_mode_done, y_mode_read, y_modes,
};
use crate::decode::plane::{
    at_least_one, chroma_size, chroma_tx, halved, lemma_size_found, plane_block, PlaneBlock, N4H, N4W,
};
use crate::decode::reconstructor::{aligned, Reconstructor, BLOCK_MI_HEIGHT, BLOCK_MI_WIDTH};
use crate::geom_tables::MAX_TXSIZE;

verus! {

/// How a block of coefficients is transformed: by columns, then by rows.
#[derive(Clone, Copy, Debug, PartialEq, Eq, Structural)]
pub enum TxType {
    DctDct,
    AdstDct,
    DctAdst,
    AdstAdst,
}

/// The transform that goes with an intra mode.
pub open spec fn mode_tx_type(mode: int) -> TxType {
    if mode == 1 || mode == 5 || mode == 8 {
        TxType::AdstDct
    } else if mode == 2 || mode == 6 || mode == 7 {
        TxType::DctAdst
    } else if mode == 4 || mode == 9 {
        TxType::AdstAdst
    } else {
        TxType::DctDct
    }
}

/// The width of a transform block in units of four pixels.
pub open spec fn tx_width(tx_size: int) -> int {
    if tx_size == 0 {
        1
    } else if tx_size == 1 {
        2
    } else if tx_size == 2 {
        4
    } else {
        8
    }
}

/// The width of a transform block in units of four pixels.
fn tx_units(tx_size: usize) -> (r: usize)
    requires
        tx_size <= 3,
    ensures
        r == tx_width(tx_size as int),
{
    if tx_size == 0 {
        1
    } else if tx_size == 1 {
        2
    } else if tx_size == 2 {
        4
    } else {
        8
    }
}

/// How many steps of `step` it takes to cover `n`.
pub open spec fn steps(n: int, step: int) -> int {
    (n + step - 1) / step
}

/// The places of the transform blocks of a block that shows `w` by `h` units: row by row.
pub open spec fn tx_places(w: int, h: int, step: int) -> Seq<(usize, usize)> {
    Seq::new(
        (steps(h, step) * steps(w, step)) as nat,
        |k: int| ((step * (k / steps(w, step))) as usize, (step * (k % steps(w, step))) as usize),
    )
}

/// The places of the transform blocks of a block, as rows and columns in units of four
/// pixels, in the order in which they are coded.
pub fn tx_blocks(pb: &PlaneBlock) -> (r: Vec<(usize, usize)>)
    requires
        pb.tx_size <= 3,
        pb.max_w <= 16,
        pb.max_h <= 16,
    ensures
        r@ == tx_places(pb.max_w as int, pb.max_h as int, tx_width(pb.tx_size as int)),
{
    let step: usize = tx_units(pb.tx_size);
    let (w, h): (usize, usize) = (pb.max_w, pb.max_h);
    let nw: usize = (w + step - 1) / step;
    let nh: usize = (h + step - 1) / step;
    let ghost goal = tx_places(w as int, h as int, step as int);
    assert(nw <= 16 && nh <= 16);
    let mut out: Vec<(usize, usize)> = Vec::new();
    let mut i: usize = 0;
    while i < nh
        invariant
            i <= nh <= 16,
            nw <= 16,
            1 <= step <= 8,
            nw == steps(w as int, step as int),
            nh == steps(h as int, step as int),
            goal == tx_places(w as int, h as int, step as int),
            out@ =~= goal.take(i * nw),
            i * nw <= nh * nw,
        decreases nh - i,
    {
        let mut j: usize = 0;
        while j < nw
            invariant
                i < nh <= 16,
                j <= nw <= 16,
                1 <= step <= 8,
                nw == steps(w as int, step as int),
                nh == steps(h as int, step as int),
                goal == tx_places(w as int, h as int, step as int),
                out@ =~= goal.take(i * nw + j),
                i * nw + j <= nh * nw,
            decreases nw - j,
        {
            proof {
                let k = i * nw + j;
                lemma_fundamental_div_mod_converse(k, nw as int, i as int, j as int);
                assert((i + 1) * nw <= nh * nw) by (nonlinear_arith)
                    requires
                        i + 1 <= nh,
                        0 <= nw,
                ;
                assert((i + 1) * nw == i * nw + nw) by (nonlinear_arith);
                assert(k < goal.len());
                assert(step * i <= 8 * 16) by (nonlinear_arith)
                    requires
                        1 <= step <= 8,
                        i <= 16,
                ;
                assert(step * j <= 8 * 16) by (nonlinear_arith)
                    requires
                        1 <= step <= 8,
                        j <= 16,
                ;
                assert(goal[k] == ((step * i) as usize, (step * j) as usize));
                assert(goal.take(k + 1) =~= goal.take(k).push(goal[k]));
            }
            out.push((step * i, step * j));
            j += 1;
        }
        proof {
            assert((i + 1) * nw == i * nw + nw) by (nonlinear_arith);
        }
        i += 1;
    }
    assert(goal.take(nh * nw) =~= goal);
    out
}

/// The transform blocks neither leave out a unit of the part of a block that lies in the
/// frame, nor hold one twice: a unit lies in a transform block if and only if that is
/// the one of its row and column.
pub proof fn law_tx_blocks_tile(w: int, h: int, tx_size: int, row: int, col: int, k: int)
    requires
        0 <= row < h <= 16,
        0 <= col < w <= 16,
        0 <= tx_size <= 3,
        0 <= k < tx_places(w, h, tx_width(tx_size)).len(),
    ensures
        ({
            let step = tx_width(tx_size);
            let own = (row / step) * steps(w, step) + col / step;
            let (r, c) = tx_places(w, h, step)[k];
            &&& 0 <= own < tx_places(w, h, step).len()
            &&& (r <= row < r + step && c <= col < c + step) <==> k == own
        }),
{
    let step = tx_width(tx_size);
    let nw = steps(w, step);
    let nh = steps(h, step);
    let (i, j) = (row / step, col / step);
    let own = i * nw + j;
    assert(0 <= j < nw && 0 <= i < nh);
    lemma_fundamental_div_mod_converse(own, nw, i, j);
    assert(0 <= own < nh * nw) by (nonlinear_arith)
        requires
            0 <= i < nh,
            0 <= j < nw,
            own == i * nw + j,
    ;
    lemma_fundamental_div_mod(k, nw);
    lemma_mod_bound(k, nw);
    let (p, q) = (k / nw, k % nw);
    lemma_mul_is_commutative(nw, p);
    assert(0 <= p < nh) by (nonlinear_arith)
        requires
            0 <= k < nh * nw,
            k == p * nw + q,
            0 <= q < nw,
    ;
    assert(nh <= 16 && nw <= 16);
    assert(step * p <= 128 && step * q <= 128) by (nonlinear_arith)
        requires
            1 <= step <= 8,
            0 <= p < 16,
            0 <= q < 16,
    ;
    assert(0 <= step * p && 0 <= step * q) by (nonlinear_arith)
        requires
            1 <= step,
            0 <= p,
            0 <= q,
    ;
    if step * p <= row < step * p + step {
        lemma_fundamental_div_mod_converse(row, step, p, row - step * p);
    }
    if step * q <= col < step * q + step {
        lemma_fundamental_div_mod_converse(col, step, q, col - step * q);
    }
    lemma_fundamental_div_mod(row, step);
    lemma_fundamental_div_mod(col, step);
    lemma_mod_bound(row, step);
    lemma_mod_bound(col, step);
}

/// What is decided of a transform block before its coefficients are read.
#[derive(Clone, Copy, Debug, PartialEq, Eq, Structural)]
pub struct TxPlan {
    /// Its first pixel.
    pub x0: usize,
    pub y0: usize,
    /// The intra mode that predicts it; none in inter blocks.
    pub intra_mode: Option<u8>,
    /// Which of its neighbours the prediction may use.
    pub up_avail: bool,
    pub left_avail: bool,
    pub right_avail: bool,
    /// The part of it that lies in the frame, in units of four pixels.
    pub inframe_w: usize,
    pub inframe_h: usize,
    pub tx_type: TxType,
}

/// The intra mode of the luma or chroma transform block at `row`, `col` of a block.
pub open spec fn tx_mode_of(m: ModeInfo, plane: int, row: int, col: int) -> u8 {
    if plane != 0 {
        m.uv_mode
    } else if m.sb_type < BLOCK_8X8 {
        m.bmi[2 * row + col]
    } else {
        m.mode
    }
}

/// What is decided of the transform block at `row`, `col` of a block.
pub open spec fn tx_plan(
    m: ModeInfo,
    pb: PlaneBlock,
    plane: int,
    row: int,
    col: int,
    above: bool,
    left: bool,
    lossless: bool,
) -> TxPlan {
    let mode = tx_mode_of(m, plane, row, col);
    let txw = tx_width(pb.tx_size as int);
    TxPlan {
        x0: (pb.base_x + 4 * col) as usize,
        y0: (pb.base_y + 4 * row) as usize,
        intra_mode: if m.is_inter {
            None
        } else {
            Some(mode)
        },
        up_avail: !m.is_inter && (row > 0 || above),
        left_avail: !m.is_inter && (col > 0 || left),
        right_avail: !m.is_inter && col + txw < pb.n4_w,
        inframe_w: min_int(pb.max_w - col, txw) as usize,
        inframe_h: min_int(pb.max_h - row, txw) as usize,
        tx_type: if m.is_inter || lossless || plane != 0 || pb.tx_size == 3 {
            TxType::DctDct
        } else {
            mode_tx_type(mode as int)
        },
    }
}

/// The transform that goes with an intra mode.
pub fn intra_mode_to_tx_type(mode: u8) -> (r: TxType)
    requires
        mode < 10,
    ensures
        r == mode_tx_type(mode as int),
{
    match mode {
        1 | 5 | 8 => TxType::AdstDct,
        2 | 6 | 7 => TxType::DctAdst,
        4 | 9 => TxType::AdstAdst,
        _ => TxType::DctDct,
    }
}

/// What a decoded transform block adds to its prediction.
#[derive(Clone, Copy, Debug, PartialEq, Eq, Structural)]
pub enum Residual {
    /// Nothing: there are no coefficients.
    Nothing,
    /// The inverse Walsh-Hadamard transform.
    Lossless,
    /// The same value everywhere: only the first coefficient is there.
    Flat,
    /// The inverse transform of the first rows.
    Rows(usize),
}

/// What is added for `eob` coefficients, of which the last row is `max_row`.
pub open spec fn residual(lossless: bool, tx_type: TxType, eob: int, max_row: int) -> Residual {
    if eob == 0 {
        Residual::Nothing
    } else if lossless {
        Residual::Lossless
    } else if eob == 1 && tx_type == TxType::DctDct {
        Residual::Flat
    } else {
        Residual::Rows((max_row + 1) as usize)
    }
}

/// Decides how `eob` coefficients, of which the last row is `max_row`, are added.
pub fn residual_of(lossless: bool, tx_type: TxType, eob: usize, max_row: usize) -> (r: Residual)
    requires
        max_row < usize::MAX,
    ensures
        r == residual(lossless, tx_type, eob as int, max_row as int),
{
    if eob == 0 {
        Residual::Nothing
    } else if lossless {
        Residual::Lossless
    } else if eob == 1 && tx_type == TxType::DctDct {
        Residual::Flat
    } else {
        Residual::Rows(max_row + 1)
    }
}

/// Whether some of the `n` entries from `from` on is not zero.
pub open spec fn some_set(s: Seq<u8>, from: int, n: int) -> bool {
    exists|i: int| from <= i < from + n && #[trigger] s[i] != 0
}

/// `s` with `n` entries from `from` on overwritten: the first `shown` by `v`, the others
/// by zero.
pub open spec fn marked(s: Seq<u8>, from: int, n: int, shown: int, v: bool) -> Seq<u8> {
    s.map(
        |i: int, x: u8|
            if from <= i < from + n {
                if i < from + shown && v {
                    1u8
                } else {
                    0u8
                }
            } else {
                x
            },
    )
}

/// Whether some of the `n` entries from `from` on is not zero.
pub fn any_set(s: &[u8], from: usize, n: usize) -> (r: bool)
    requires
        from + n <= s@.len(),
    ensures
        r == some_set(s@, from as int, n as int),
{
    let len: usize = s.len();
    let mut i: usize = from;
    while i < from + n
        invariant
            from <= i <= from + n <= len,
            len == s@.len(),
            forall|k: int| from <= k < i ==> #[trigger] s@[k] == 0,
        decreases from + n - i,
    {
        if s[i] != 0 {
            return true;
        }
        i += 1;
    }
    false
}

/// Overwrites `n` entries from `from` on: the first `shown` by `v`, the others by zero.
pub fn mark(s: &mut [u8], from: usize, n: usize, shown: usize, v: bool)
    requires
        from + n <= old(s)@.len(),
    ensures
        final(s)@ == marked(old(s)@, from as int, n as int, shown as int, v),
{
    let len: usize = s.len();
    let ghost before = s@;
    let mut i: usize = 0;
    while i < n
        invariant
            i <= n,
            from + n <= len,
            len == s@.len(),
            len == before.len(),
            forall|k: int|
                0 <= k < len ==> #[trigger] s@[k] == (if from <= k < from + i {
                    marked(before, from as int, n as int, shown as int, v)[k]
                } else {
                    before[k]
                }),
        decreases n - i,
    {
        s[from + i] = if i < shown && v {
            1
        } else {
            0
        };
        i += 1;
    }
    assert(s@ =~= marked(before, from as int, n as int, shown as int, v));
}

/// Decides how the transform block at `row`, `col` of a block is predicted and
/// transformed; `above` and `left` say on which sides of the block there are others.
pub fn plan_tx(
    m: &ModeInfo,
    pb: &PlaneBlock,
    plane: usize,
    row: usize,
    col: usize,
    above: bool,
    left: bool,
    lossless: bool,
) -> (r: TxPlan)
    requires
        valid_mi(*m),
        m.uv_mode < 10,
        pb.tx_size <= 3,
        row < pb.max_h <= 16,
        col < pb.max_w <= 16,
        m.sb_type < BLOCK_8X8 ==> row < 2 && col < 2,
        pb.base_x <= 0x10000,
        pb.base_y <= 0x10000,
    ensures
        r == tx_plan(
            *m,
            *pb,
            plane as int,
            row as int,
            col as int,
            above,
            left,
            lossless,
        ),
{
    let txw: usize = tx_units(pb.tx_size);
    let mode: u8 = if plane != 0 {
        m.uv_mode
    } else if (m.sb_type as usize) < BLOCK_8X8 {
        m.bmi[2 * row + col]
    } else {
        m.mode
    };
    let tx_type: TxType = if m.is_inter || lossless || plane != 0 || pb.tx_size == 3 {
        TxType::DctDct
    } else {
        intra_mode_to_tx_type(mode)
    };
    let (rest_w, rest_h): (usize, usize) = (pb.max_w - col, pb.max_h - row);
    TxPlan {
        x0: pb.base_x + col * 4,
        y0: pb.base_y + row * 4,
        intra_mode: if m.is_inter {
            None
        } else {
            Some(mode)
        },
        up_avail: !m.is_inter && (row > 0 || above),
        left_avail: !m.is_inter && (col > 0 || left),
        right_avail: !m.is_inter && col + txw < pb.n4_w,
        inframe_w: if rest_w < txw {
            rest_w
        } else {
            txw
        },
        inframe_h: if rest_h < txw {
            rest_h
        } else {
            txw
        },
        tx_type,
    }
}

/// The context of the first coefficient of a transform block: on how many of its two
/// sides there were coefficients.
pub open spec fn first_context(above: Seq<u8>, left: Seq<u8>, a: int, l: int, n: int) -> int {
    flag(some_set(above, a, n)) + flag(some_set(left, l, n))
}

impl Reconstructor {
    /// Decides how the transform block at `row`, `col` of the block at `mi_row`, `mi_col`
    /// is predicted and transformed.
    pub fn tx_plan(
        &self,
        m: &ModeInfo,
        pb: &PlaneBlock,
        plane: usize,
        mi_row: usize,
        mi_col: usize,
        row: usize,
        col: usize,
    ) -> (r: TxPlan)
        requires
            self.wf(),
            valid_mi(*m),
            m.uv_mode < 10,
            plane < 3,
            mi_row < self.mi_rows,
            mi_col < self.mi_cols,
            pb.tx_size <= 3,
            row < pb.max_h <= 16,
            col < pb.max_w <= 16,
            m.sb_type < BLOCK_8X8 ==> row < 2 && col < 2,
            pb.base_x <= 0x10000,
            pb.base_y <= 0x10000,
        ensures
            r == tx_plan(
                *m,
                *pb,
                plane as int,
                row as int,
                col as int,
                self.above(mi_row as int, mi_col as int) is Some,
                self.left(mi_row as int, mi_col as int) is Some,
                self.lossless,
            ),
    {
        let above: bool = mi_row > self.tile_row_start;
        let left: bool = mi_col > self.tile_col_start;
        plan_tx(m, pb, plane, row, col, above, left, self.lossless)
    }

    /// The context of the first coefficient of a transform block: on how many of its two
    /// sides there were coefficients.
    pub fn coef_context(
        &self,
        plane: usize,
        above_idx: usize,
        left_idx: usize,
        txw: usize,
    ) -> (r: usize)
        requires
            self.wf(),
            plane < 3,
            above_idx + txw <= 2 * aligned(self.mi_cols as int),
            left_idx + txw <= 16,
        ensures
            r == first_context(
                self.above_ctx[plane as int]@,
                self.left_ctx[plane as int]@,
                above_idx as int,
                left_idx as int,
                txw as int,
            ),
    {
        let above: bool = any_set(self.above_ctx[plane].as_slice(), above_idx, txw);
        let left: bool = any_set(self.left_ctx[plane].as_slice(), left_idx, txw);
        (if above {
            1usize
        } else {
            0
        }) + (if left {
            1usize
        } else {
            0
        })
    }

    /// Leaves the context of a transform block: whether it had coefficients, in the part
    /// that lies in the frame.
    pub fn set_ctx(
        &mut self,
        plane: usize,
        above_idx: usize,
        left_idx: usize,
        txw: usize,
        inframe_w: usize,
        inframe_h: usize,
        nonzero: bool,
    )
        requires
            old(self).wf(),
            plane < 3,
            above_idx + txw <= 2 * aligned(old(self).mi_cols as int),
            left_idx + txw <= 16,
        ensures
            final(self).wf(),
            final(self).above_ctx[plane as int]@ == marked(
                old(self).above_ctx[plane as int]@,
                above_idx as int,
                txw as int,
                inframe_w as int,
                nonzero,
            ),
            final(self).left_ctx[plane as int]@ == marked(
                old(self).left_ctx[plane as int]@,
                left_idx as int,
                txw as int,
                inframe_h as int,
                nonzero,
            ),
            forall|p: int|
                0 <= p < 3 && p != plane ==> #[trigger] final(self).above_ctx[p] == old(
                    self).above_ctx[p] && final(self).left_ctx[p] == old(self).left_ctx[p],
            *final(self) == (Reconstructor {
                above_ctx: final(self).above_ctx,
                left_ctx: final(self).left_ctx,
                ..*old(self)
            }),
    {
        mark(self.above_ctx[plane].as_mut_slice(), above_idx, txw, inframe_w, nonzero);
        let mut left: [u8; 16] = self.left_ctx[plane];
        mark(&mut left, left_idx, txw, inframe_h, nonzero);
        self.left_ctx[plane] = left;
    }
}

/// The contexts of all transform blocks of a block lie in the tables: those of a block
/// at a multiple of its size, with a transform that fits into it.
pub proof fn law_tx_contexts_in_reach(
    m: ModeInfo,
    plane: int,
    mi_row: int,
    mi_col: int,
    rows: int,
    cols: int,
    ss_x: int,
    ss_y: int,
    k: int,
)
    requires
        m.sb_type < 13,
        0 <= plane < 3,
        0 <= mi_row < rows <= 8192,
        0 <= mi_col < cols <= 8192,
        mi_row % (BLOCK_MI_HEIGHT[m.sb_type as int] as int) == 0,
        mi_col % (BLOCK_MI_WIDTH[m.sb_type as int] as int) == 0,
        0 <= ss_x <= 1,
        0 <= ss_y <= 1,
        plane == 0 ==> ss_x == 0 && ss_y == 0,
        m.tx_size <= MAX_TXSIZE[m.sb_type as int],
        ({
            let pb = plane_block(m, plane, mi_row, mi_col, rows, cols, ss_x, ss_y);
            0 <= k < tx_places(
                pb.max_w as int,
                pb.max_h as int,
                tx_width(pb.tx_size as int),
            ).len()
        }),
    ensures
        ({
            let pb = plane_block(m, plane, mi_row, mi_col, rows, cols, ss_x, ss_y);
            let step = tx_width(pb.tx_size as int);
            let (row, col) = tx_places(pb.max_w as int, pb.max_h as int, step)[k];
            &&& row < pb.max_h && col < pb.max_w
            &&& pb.above_col0 + col + step <= 2 * aligned(cols)
            &&& pb.left_row0 + row + step <= 16
        }),
{
    let pb = plane_block(m, plane, mi_row, mi_col, rows, cols, ss_x, ss_y);
    let step = tx_width(pb.tx_size as int);
    lemma_tx_fits(m, plane, ss_x, ss_y);
    let w = BLOCK_MI_WIDTH[m.sb_type as int] as int;
    let h = BLOCK_MI_HEIGHT[m.sb_type as int] as int;
    lemma_aligned(mi_row, h, rows);
    lemma_aligned(mi_col, w, cols);
    let (nw, nh) = (steps(pb.max_w as int, step), steps(pb.max_h as int, step));
    lemma_fundamental_div_mod(k, nw);
    lemma_mul_is_commutative(nw, k / nw);
    assert(nw > 0) by {
        if nw <= 0 {
            assert(nh * nw <= 0) by (nonlinear_arith)
                requires
                    nh >= 0,
                    nw <= 0,
            ;
        }
    }
    lemma_mod_bound(k, nw);
    assert(0 <= k / nw < nh) by (nonlinear_arith)
        requires
            0 <= k < nh * nw,
            k == k / nw * nw + k % nw,
            0 <= k % nw < nw,
    ;
    lemma_step_inside(pb.max_h as int, pb.n4_h as int, step, k / nw);
    lemma_step_inside(pb.max_w as int, pb.n4_w as int, step, k % nw);
}

/// The transform of a block fits into it, in every plane.
proof fn lemma_tx_fits(m: ModeInfo, plane: int, ss_x: int, ss_y: int)
    requires
        m.sb_type < 13,
        0 <= ss_x <= 1,
        0 <= ss_y <= 1,
        plane == 0 ==> ss_x == 0 && ss_y == 0,
        m.tx_size <= MAX_TXSIZE[m.sb_type as int],
    ensures
        ({
            let b = m.sb_type as int;
            let tx = if plane == 0 {
                m.tx_size as int
            } else {
                chroma_tx(b, m.tx_size as int, ss_x, ss_y)
            };
            &&& 0 <= tx <= 3
            &&& tx_width(tx) <= halved(2 * BLOCK_MI_WIDTH[b], ss_x)
            &&& tx_width(tx) <= halved(2 * BLOCK_MI_HEIGHT[b], ss_y)
        }),
{
    let b = m.sb_type as int;
    assert(forall|s: int|
        0 <= s < 13 ==> tx_width(#[trigger] MAX_TXSIZE[s] as int) <= N4W[s] && tx_width(
            MAX_TXSIZE[s] as int,
        ) <= N4H[s] && MAX_TXSIZE[s] <= 3);
    assert(b >= 3 ==> N4W[b] == 2 * BLOCK_MI_WIDTH[b] && N4H[b] == 2 * BLOCK_MI_HEIGHT[b]);
    assert(b < 3 ==> MAX_TXSIZE[b] == 0 && BLOCK_MI_WIDTH[b] == 1 && BLOCK_MI_HEIGHT[b] == 1);
    if plane != 0 && b >= 3 {
        let w = at_least_one(halved(N4W[b] as int, ss_x));
        let h = at_least_one(halved(N4H[b] as int, ss_y));
        lemma_size_found(w, h);
        let s = chroma_size(b, ss_x, ss_y);
        assert(0 <= s < 13);
        let _ = MAX_TXSIZE[s];
    }
}

/// A block at a multiple of its size `n` stays within its 64x64 block.
proof fn lemma_aligned(at: int, n: int, end: int)
    requires
        n == 1 || n == 2 || n == 4 || n == 8,
        0 <= at < end,
        at % n == 0,
    ensures
        at % 8 + n <= 8,
        at + n <= aligned(end),
{
    if n == 4 {
        assert(at % 8 == 0 || at % 8 == 4);
    } else if n == 2 {
        assert(at % 8 == 0 || at % 8 == 2 || at % 8 == 4 || at % 8 == 6);
    }
}

/// The steps that start within `shown` lie within `n`.
proof fn lemma_step_inside(shown: int, n: int, step: int, i: int)
    requires
        step == 1 || step == 2 || step == 4 || step == 8,
        n == 1 || n == 2 || n == 4 || n == 8 || n == 16,
        step <= n,
        shown <= n,
        0 <= i < steps(shown, step),
    ensures
        0 <= step * i < shown,
        step * i + step <= n,
{
    if step == 1 {
        lemma_div_basics(shown);
        assert(step * i == i) by (nonlinear_arith)
            requires
                step == 1,
        ;
    } else if step == 2 {
        assert(steps(shown, 2) == (shown + 1) / 2);
        assert(step * i == 2 * i) by (nonlinear_arith)
            requires
                step == 2,
        ;
        assert(n % 2 == 0);
    } else if step == 4 {
        assert(steps(shown, 4) == (shown + 3) / 4);
        assert(step * i == 4 * i) by (nonlinear_arith)
            requires
                step == 4,
        ;
        assert(n % 4 == 0);
    } else {
        assert(steps(shown, 8) == (shown + 7) / 8);
        assert(step * i == 8 * i) by (nonlinear_arith)
            requires
                step == 8,
        ;
        assert(n % 8 == 0);
    }
}

/// A transform block lies four pixels to the right for each column and four below for each
/// row, and is predicted with the mode of the part of the block that it lies in: below
/// 8x8 the parts are numbered row by row, so that the second mode is that of the upper
/// right and the third that of the lower left four by four pixels.
pub proof fn law_parts_predict_their_pixels(
    m: ModeInfo,
    pb: PlaneBlock,
    row: int,
    col: int,
    above: bool,
    left: bool,
    lossless: bool,
)
    requires
        m.sb_type < 3,
        !m.is_inter,
        0 <= row < 2,
        0 <= col < 2,
        pb.base_x <= 0x10000,
        pb.base_y <= 0x10000,
    ensures
        ({
            let p = tx_plan(m, pb, 0, row, col, above, left, lossless);
            let (right, below) = (p.x0 >= pb.base_x + 4, p.y0 >= pb.base_y + 4);
            &&& p.x0 - pb.base_x == 4 * col
            &&& p.y0 - pb.base_y == 4 * row
            &&& !right && !below ==> p.intra_mode == Some(m.bmi[0])
            &&& right && !below ==> p.intra_mode == Some(m.bmi[1])
            &&& !right && below ==> p.intra_mode == Some(m.bmi[2])
            &&& right && below ==> p.intra_mode == Some(m.bmi[3])
        }),
{
}

/// The modes of a 4x4 block of a key frame predict its parts in the order in which they
/// were read: the upper left, the upper right, the lower left and the lower right one. The
/// two modes of a block that is cut upright predict its left and its right half, those of
/// one that is cut across its upper and its lower half.
pub proof fn law_modes_predict_in_reading_order(
    c: Cursor,
    m: ModeInfo,
    above: Option<&ModeInfo>,
    left: Option<&ModeInfo>,
    pb: PlaneBlock,
    up: bool,
    beside: bool,
    lossless: bool,
)
    requires
        kf_modes(c, m, above, left),
        m.sb_type < 3,
        !m.is_inter,
    ensures
        ({
            let c1 = kf_done(c, m, above, left, 0);
            let c2 = kf_done(c1, m, above, left, 1);
            let c3 = kf_done(c2, m, above, left, 2);
            let at = |row: int, col: int|
                tx_plan(m, pb, 0, row, col, up, beside, lossless).intra_mode.unwrap();
            &&& at(0, 0) == kf_mode(c, m, above, left, 0)
            &&& m.sb_type == 0 ==> at(0, 1) == kf_mode(c1, m, above, left, 1) && at(1, 0)
                == kf_mode(c2, m, above, left, 2) && at(1, 1) == kf_mode(c3, m, above, left, 3)
            &&& m.sb_type == 1 ==> at(1, 0) == at(0, 0) && at(0, 1) == kf_mode(
                c1,
                m,
                above,
                left,
                1,
            ) && at(1, 1) == at(0, 1)
            &&& m.sb_type == 2 ==> at(0, 1) == at(0, 0) && at(1, 0) == kf_mode(
                c1,
                m,
                above,
                left,
                2,
            ) && at(1, 1) == at(1, 0)
        }),
{
}

/// The same of an intra block of an inter frame.
pub proof fn law_inter_frame_modes_predict_in_reading_order(
    c: Cursor,
    fc: FrameContext,
    m: ModeInfo,
    pb: PlaneBlock,
    up: bool,
    beside: bool,
    lossless: bool,
)
    requires
        y_modes(c, fc, m),
        m.sb_type < 3,
        !m.is_inter,
    ensures
        ({
            let c1 = y_mode_done(c, fc, 0);
            let c2 = y_mode_done(c1, fc, 0);
            let c3 = y_mode_done(c2, fc, 0);
            let at = |row: int, col: int|
                tx_plan(m, pb, 0, row, col, up, beside, lossless).intra_mode.unwrap();
            &&& at(0, 0) == y_mode_read(c, fc, 0)
            &&& m.sb_type == 0 ==> at(0, 1) == y_mode_read(c1, fc, 0) && at(1, 0) == y_mode_read(
                c2,
                fc,
                0,
            ) && at(1, 1) == y_mode_read(c3, fc, 0)
            &&& m.sb_type == 1 ==> at(1, 0) == at(0, 0) && at(0, 1) == y_mode_read(c1, fc, 0)
                && at(1, 1) == at(0, 1)
            &&& m.sb_type == 2 ==> at(0, 1) == at(0, 0) && at(1, 0) == y_mode_read(c1, fc, 0)
                && at(1, 1) == at(1, 0)
        }),
{
}

/// A block from 8x8 on has one luma mode in all its transform blocks, the chroma planes
/// have one of their own in blocks of every size, and an inter block has none.
pub proof fn law_whole_blocks_have_one_mode(
    m: ModeInfo,
    pb: PlaneBlock,
    plane: int,
    row: int,
    col: int,
    above: bool,
    left: bool,
    lossless: bool,
)
    requires
        0 <= plane < 3,
    ensures
        ({
            let p = tx_plan(m, pb, plane, row, col, above, left, lossless);
            &&& m.is_inter <==> p.intra_mode is None
            &&& !m.is_inter && plane == 0 && m.sb_type >= 3 ==> p.intra_mode == Some(m.mode)
            &&& !m.is_inter && plane > 0 ==> p.intra_mode == Some(m.uv_mode)
        }),
{
}

/// An intra mode that predicts from above is transformed with a sine transform down the
/// columns, one that predicts from the left along the rows, and one that predicts from
/// both with both. Modes are DC, V, H, D45, D135, D117, D153, D207, D63, TM.
pub proof fn law_transform_follows_direction(mode: int)
    requires
        0 <= mode < 10,
    ensures
        ({
            let from_above = mode == 1 || mode == 4 || mode == 5 || mode == 8 || mode == 9;
            let from_left = mode == 2 || mode == 4 || mode == 6 || mode == 7 || mode == 9;
            let t = mode_tx_type(mode);
            &&& from_above <==> t == TxType::AdstDct || t == TxType::AdstAdst
            &&& from_left <==> t == TxType::DctAdst || t == TxType::AdstAdst
        }),
{
}

/// Only luma transform blocks up to 16x16 of intra blocks with loss have a transform that
/// goes with their mode; all others have the cosine transform both ways.
pub proof fn law_transform_type_is_of_its_mode(
    m: ModeInfo,
    pb: PlaneBlock,
    plane: int,
    row: int,
    col: int,
    above: bool,
    left: bool,
    lossless: bool,
)
    requires
        0 <= plane < 3,
    ensures
        ({
            let p = tx_plan(m, pb, plane, row, col, above, left, lossless);
            &&& m.is_inter || lossless || plane > 0 || pb.tx_size == 3 ==> p.tx_type
                == TxType::DctDct
            &&& !m.is_inter && !lossless && plane == 0 && pb.tx_size != 3 ==> p.tx_type
                == mode_tx_type(p.intra_mode.unwrap() as int)
        }),
{
}

/// A transform block inside its block has neighbours above and to the left; on the border
/// it has those that the block has. To its right there is one where the block goes on.
/// Inter blocks need none.
pub proof fn law_neighbours_of_transform_blocks(
    m: ModeInfo,
    pb: PlaneBlock,
    plane: int,
    row: int,
    col: int,
    above: bool,
    left: bool,
    lossless: bool,
)
    requires
        0 <= row,
        0 <= col,
        pb.tx_size <= 3,
    ensures
        ({
            let p = tx_plan(m, pb, plane, row, col, above, left, lossless);
            &&& m.is_inter ==> !p.up_avail && !p.left_avail && !p.right_avail
            &&& !m.is_inter && row > 0 ==> p.up_avail
            &&& !m.is_inter && row == 0 ==> p.up_avail == above
            &&& !m.is_inter && col > 0 ==> p.left_avail
            &&& !m.is_inter && col == 0 ==> p.left_avail == left
            &&& !m.is_inter && pb.tx_size == 0 ==> p.right_avail == (col + 1 < pb.n4_w)
            &&& !m.is_inter && pb.tx_size == 1 ==> p.right_avail == (col + 2 < pb.n4_w)
            &&& !m.is_inter && pb.tx_size == 2 ==> p.right_avail == (col + 4 < pb.n4_w)
            &&& !m.is_inter && pb.tx_size == 3 ==> p.right_avail == (col + 8 < pb.n4_w)
        }),
{
}

/// The part of a transform block that counts as in the frame is all of it, or ends where
/// the block does.
pub proof fn law_part_in_frame(
    m: ModeInfo,
    pb: PlaneBlock,
    plane: int,
    row: int,
    col: int,
    above: bool,
    left: bool,
    lossless: bool,
)
    requires
        0 <= row < pb.max_h,
        0 <= col < pb.max_w,
        pb.tx_size <= 3,
    ensures
        ({
            let p = tx_plan(m, pb, plane, row, col, above, left, lossless);
            let n = tx_width(pb.tx_size as int);
            &&& 1 <= p.inframe_w <= n && col + p.inframe_w <= pb.max_w
            &&& p.inframe_w == n || col + p.inframe_w == pb.max_w
            &&& 1 <= p.inframe_h <= n && row + p.inframe_h <= pb.max_h
            &&& p.inframe_h == n || row + p.inframe_h == pb.max_h
        }),
{
}

/// A transform is twice as wide as the next smaller one, and the smallest is one unit.
pub proof fn law_transforms_double(tx_size: int)
    requires
        0 <= tx_size < 3,
    ensures
        tx_width(0) == 1,
        tx_width(tx_size + 1) == 2 * tx_width(tx_size),
{
}

/// What is added for a transform block depends on its coefficients: nothing without any,
/// one value for the first alone with the cosine transform, else the rows up to the last
/// with one. Without loss it is always the same transform.
pub proof fn law_residual_by_coefficients(
    lossless: bool,
    tx_type: TxType,
    eob: int,
    max_row: int,
)
    requires
        eob >= 0,
        0 <= max_row < usize::MAX,
    ensures
        eob == 0 <==> residual(lossless, tx_type, eob, max_row) == Residual::Nothing,
        eob > 0 && lossless <==> residual(lossless, tx_type, eob, max_row) == Residual::Lossless,
        eob == 1 && !lossless && tx_type == TxType::DctDct <==> residual(
            lossless,
            tx_type,
            eob,
            max_row,
        ) == Residual::Flat,
        residual(lossless, tx_type, eob, max_row) matches Residual::Rows(n) ==> n == max_row + 1,
{
}

/// What a transform block leaves is found by the next one: after a mark the units that
/// were shown say whether there were coefficients, those over the edge say no, and no
/// others change.
pub proof fn law_marks_are_found(s: Seq<u8>, from: int, n: int, shown: int, v: bool, i: int)
    requires
        0 <= from,
        0 < n,
        from + n <= s.len(),
        0 < shown <= n,
        0 <= i < s.len(),
    ensures
        some_set(marked(s, from, n, shown, v), from, n) == v,
        some_set(marked(s, from, n, shown, v), from, shown) == v,
        shown < n ==> !some_set(marked(s, from, n, shown, v), from + shown, n - shown),
        !(from <= i < from + n) ==> marked(s, from, n, shown, v)[i] == s[i],
        marked(s, from, n, shown, v).len() == s.len(),
{
    let t = marked(s, from, n, shown, v);
    assert(v ==> t[from] == 1);
}

/// The context of the first coefficient is the number of sides with coefficients.
pub proof fn law_first_context_counts_sides(
    above: Seq<u8>,
    left: Seq<u8>,
    a: int,
    l: int,
    n: int,
)
    ensures
        ({
            let c = first_context(above, left, a, l, n);
            let up = exists|i: int| a <= i < a + n && #[trigger] above[i] != 0;
            let side = exists|i: int| l <= i < l + n && #[trigger] left[i] != 0;
            &&& c == 2 <==> up && side
            &&& c == 1 <==> up != side
            &&& c == 0 <==> !up && !side
        }),
{
}

} // verus!
