//! What a trial changes, and how it is taken back.
use vstd::prelude::*;

use crate::adapt::min_int;
use crate::block::ModeInfo;
use crate::decode::plane::{halve, halved};
use crate::decode::reconstructor::{block_rect, BLOCK_MI_HEIGHT, BLOCK_MI_WIDTH};
use crate::encode::pixels::Picture;
use crate::grid;
use crate::grid::{cut, filled, fits, inside, pasted, Rect};

verus! {

/// What the coding of blocks changes: the reconstruction, the contexts, and the mode
/// information.
pub struct Canvas {
    pub rec: [Picture; 3],
    /// The rows of each plane that there is room for.
    pub rows: [usize; 3],
    pub mi_rows: usize,
    pub mi_cols: usize,
    pub mi: Vec<ModeInfo>,
    pub above_ctx: [Vec<u8>; 3],
    pub left_ctx: [[u8; 16]; 3],
    pub above_seg: Vec<u8>,
    pub left_seg: [u8; 8],
}

/// The part of a block that lies in the frame, in pixels of a plane: luma, or chroma of
/// half the width and height.
pub open spec fn pixel_rect(plane: int, bsize: int, row: int, col: int, rows: int, cols: int) -> Rect {
    let ss = if plane == 0 {
        0int
    } else {
        1
    };
    let (x, y) = (halved(8 * col, ss), halved(8 * row, ss));
    Rect {
        row: y,
        col: x,
        w: min_int(halved(8 * BLOCK_MI_WIDTH[bsize], ss), halved(8 * cols, ss) - x),
        h: min_int(halved(8 * BLOCK_MI_HEIGHT[bsize], ss), halved(8 * rows, ss) - y),
    }
}

/// The place of a block in the contexts above it, as a rectangle of one row.
pub open spec fn ctx_rect(plane: int, bsize: int, col: int, cols: int, len: int) -> Rect {
    let ss = if plane == 0 {
        0int
    } else {
        1
    };
    let w = halved(2 * min_int(BLOCK_MI_WIDTH[bsize] as int, cols - col), ss);
    let first = halved(2 * col, ss);
    Rect { row: 0, col: first, w: min_int(w, len - first), h: 1 }
}

/// The place of a block in the partition contexts above it, as a rectangle of one row.
pub open spec fn seg_rect(bsize: int, col: int, cols: int, len: int) -> Rect {
    let w = min_int(BLOCK_MI_WIDTH[bsize] as int, cols - col);
    Rect { row: 0, col, w: min_int(w, len - col), h: 1 }
}

impl Canvas {
    /// Every table has its shape.
    pub open spec fn wf(&self) -> bool {
        &&& 1 <= self.mi_rows <= 8192
        &&& 1 <= self.mi_cols <= 8192
        &&& self.mi@.len() == self.mi_rows * self.mi_cols
        &&& forall|p: int| 0 <= p < 3 ==> #[trigger] self.plane_ok(p)
        &&& 2 * self.mi_cols <= self.above_ctx[0]@.len()
        &&& self.mi_cols <= self.above_ctx[1]@.len()
        &&& self.mi_cols <= self.above_ctx[2]@.len()
        &&& self.mi_cols <= self.above_seg@.len()
    }

    /// A plane holds the pixels of all units of eight pixels.
    pub open spec fn plane_ok(&self, p: int) -> bool {
        let ss = if p == 0 {
            0int
        } else {
            1
        };
        &&& self.rec[p].buf@.len() == self.rows[p] * self.rec[p].stride
        &&& halved(8 * self.mi_cols, ss) <= self.rec[p].stride
        &&& halved(8 * self.mi_rows, ss) <= self.rows[p]
    }

    /// Where a block lies in plane `p`.
    pub open spec fn px(&self, p: int, bsize: int, row: int, col: int) -> Rect {
        pixel_rect(p, bsize, row, col, self.mi_rows as int, self.mi_cols as int)
    }

    /// Where a block lies in the contexts above it in plane `p`.
    pub open spec fn ctx(&self, p: int, bsize: int, col: int) -> Rect {
        ctx_rect(p, bsize, col, self.mi_cols as int, self.above_ctx[p]@.len() as int)
    }

    /// Where a block lies in the partition contexts above it.
    pub open spec fn seg(&self, bsize: int, col: int) -> Rect {
        seg_rect(bsize, col, self.mi_cols as int, self.above_seg@.len() as int)
    }

    /// Where a block lies in the mode information.
    pub open spec fn cells(&self, bsize: int, row: int, col: int) -> Rect {
        block_rect(bsize, row, col, self.mi_rows as int, self.mi_cols as int)
    }
}

/// What a block covers, before a trial changes it.
pub struct BlockSnap {
    pub rec: [Vec<u16>; 3],
    pub above_ctx: [Vec<u8>; 3],
    pub left_ctx: [[u8; 16]; 3],
    pub above_seg: Vec<u8>,
    pub left_seg: [u8; 8],
    pub mi: Vec<ModeInfo>,
}

/// `s` holds what the block covers on `c`.
pub open spec fn snapped(c: Canvas, s: BlockSnap, bsize: int, row: int, col: int) -> bool {
    &&& forall|p: int|
        0 <= p < 3 ==> (#[trigger] s.rec[p])@ == cut(
            c.rec[p].buf@,
            c.rec[p].stride as int,
            c.px(p, bsize, row, col),
        )
    &&& forall|p: int|
        0 <= p < 3 ==> (#[trigger] s.above_ctx[p])@ == cut(
            c.above_ctx[p]@,
            c.above_ctx[p]@.len() as int,
            c.ctx(p, bsize, col),
        )
    &&& s.left_ctx == c.left_ctx
    &&& s.above_seg@ == cut(c.above_seg@, c.above_seg@.len() as int, c.seg(bsize, col))
    &&& s.left_seg == c.left_seg
    &&& s.mi@ == cut(c.mi@, c.mi_cols as int, c.cells(bsize, row, col))
}

/// `after` is `c` with what `s` holds in the place of the block.
pub open spec fn restored(
    c: Canvas,
    s: BlockSnap,
    bsize: int,
    row: int,
    col: int,
    after: Canvas,
) -> bool {
    &&& forall|p: int|
        0 <= p < 3 ==> (#[trigger] after.rec[p]).buf@ == pasted(
            c.rec[p].buf@,
            c.rec[p].stride as int,
            c.px(p, bsize, row, col),
            s.rec[p]@,
        )
    &&& forall|p: int|
        0 <= p < 3 ==> {
            &&& (#[trigger] after.rec[p]).stride == c.rec[p].stride
            &&& after.rec[p].w == c.rec[p].w
            &&& after.rec[p].h == c.rec[p].h
            &&& after.rec[p].ss_x == c.rec[p].ss_x
            &&& after.rec[p].ss_y == c.rec[p].ss_y
        }
    &&& forall|p: int|
        0 <= p < 3 ==> (#[trigger] after.above_ctx[p])@ == pasted(
            c.above_ctx[p]@,
            c.above_ctx[p]@.len() as int,
            c.ctx(p, bsize, col),
            s.above_ctx[p]@,
        )
    &&& after.left_ctx == s.left_ctx
    &&& after.above_seg@ == pasted(
        c.above_seg@,
        c.above_seg@.len() as int,
        c.seg(bsize, col),
        s.above_seg@,
    )
    &&& after.left_seg == s.left_seg
    &&& after.mi@ == pasted(c.mi@, c.mi_cols as int, c.cells(bsize, row, col), s.mi@)
    &&& after.rows == c.rows
    &&& after.mi_rows == c.mi_rows
    &&& after.mi_cols == c.mi_cols
}

/// The parts of a block lie in the tables.
proof fn lemma_rects(c: Canvas, bsize: int, row: int, col: int, p: int)
    requires
        c.wf(),
        0 <= bsize < 13,
        0 <= row < c.mi_rows,
        0 <= col < c.mi_cols,
        0 <= p < 3,
    ensures
        fits(c.px(p, bsize, row, col), c.rows[p] as int, c.rec[p].stride as int),
        fits(c.ctx(p, bsize, col), 1, c.above_ctx[p]@.len() as int),
        fits(c.seg(bsize, col), 1, c.above_seg@.len() as int),
        fits(c.cells(bsize, row, col), c.mi_rows as int, c.mi_cols as int),
        c.px(p, bsize, row, col).w <= 64 && c.px(p, bsize, row, col).h <= 64,
{
    assert(c.plane_ok(p));
}

impl Canvas {
    /// The part of a block that lies in the frame: its first pixel, width and height in
    /// plane `p`.
    pub fn block_px(&self, p: usize, bsize: usize, mi_row: usize, mi_col: usize) -> (r: (
        usize,
        usize,
        usize,
        usize,
    ))
        requires
            self.wf(),
            p < 3,
            bsize < 13,
            mi_row < self.mi_rows,
            mi_col < self.mi_cols,
        ensures
            (Rect { row: r.1 as int, col: r.0 as int, w: r.2 as int, h: r.3 as int }) == self.px(
                p as int,
                bsize as int,
                mi_row as int,
                mi_col as int,
            ),
    {
        let ss: usize = if p == 0 {
            0
        } else {
            1
        };
        let (x0, y0): (usize, usize) = (halve(mi_col * 8, ss), halve(mi_row * 8, ss));
        let (cw, ch): (usize, usize) = (
            halve(self.mi_cols * 8, ss),
            halve(self.mi_rows * 8, ss),
        );
        let bw: usize = halve(BLOCK_MI_WIDTH[bsize] * 8, ss);
        let bh: usize = halve(BLOCK_MI_HEIGHT[bsize] * 8, ss);
        (
            x0,
            y0,
            if bw < cw - x0 {
                bw
            } else {
                cw - x0
            },
            if bh < ch - y0 {
                bh
            } else {
                ch - y0
            },
        )
    }

    /// The place of a block in the contexts above it.
    fn ctx_span(&self, p: usize, bsize: usize, mi_col: usize) -> (r: (usize, usize))
        requires
            self.wf(),
            p < 3,
            bsize < 13,
            mi_col < self.mi_cols,
        ensures
            (Rect { row: 0int, col: r.0 as int, w: r.1 as int, h: 1int }) == self.ctx(
                p as int,
                bsize as int,
                mi_col as int,
            ),
    {
        let ss: usize = if p == 0 {
            0
        } else {
            1
        };
        let rest: usize = self.mi_cols - mi_col;
        let cells: usize = if BLOCK_MI_WIDTH[bsize] < rest {
            BLOCK_MI_WIDTH[bsize]
        } else {
            rest
        };
        let w: usize = halve(2 * cells, ss);
        let first: usize = halve(2 * mi_col, ss);
        let len: usize = self.above_ctx[p].len();
        (
            first,
            if w < len - first {
                w
            } else {
                len - first
            },
        )
    }

    /// The place of a block in the partition contexts above it.
    fn seg_span(&self, bsize: usize, mi_col: usize) -> (w: usize)
        requires
            self.wf(),
            bsize < 13,
            mi_col < self.mi_cols,
        ensures
            w == self.seg(bsize as int, mi_col as int).w,
    {
        let rest: usize = self.mi_cols - mi_col;
        let cells: usize = if BLOCK_MI_WIDTH[bsize] < rest {
            BLOCK_MI_WIDTH[bsize]
        } else {
            rest
        };
        let len: usize = self.above_seg.len();
        if cells < len - mi_col {
            cells
        } else {
            len - mi_col
        }
    }

    /// The columns and rows of cells that a block covers.
    fn cell_span(&self, bsize: usize, mi_row: usize, mi_col: usize) -> (r: (usize, usize))
        requires
            self.wf(),
            bsize < 13,
            mi_row < self.mi_rows,
            mi_col < self.mi_cols,
        ensures
            r.0 == self.cells(bsize as int, mi_row as int, mi_col as int).w,
            r.1 == self.cells(bsize as int, mi_row as int, mi_col as int).h,
    {
        let (cols, rows): (usize, usize) = (self.mi_cols - mi_col, self.mi_rows - mi_row);
        (
            if BLOCK_MI_WIDTH[bsize] < cols {
                BLOCK_MI_WIDTH[bsize]
            } else {
                cols
            },
            if BLOCK_MI_HEIGHT[bsize] < rows {
                BLOCK_MI_HEIGHT[bsize]
            } else {
                rows
            },
        )
    }

    fn snap_plane(&self, p: usize, bsize: usize, mi_row: usize, mi_col: usize) -> (r: Vec<u16>)
        requires
            self.wf(),
            p < 3,
            bsize < 13,
            mi_row < self.mi_rows,
            mi_col < self.mi_cols,
        ensures
            r@ == cut(
                self.rec[p as int].buf@,
                self.rec[p as int].stride as int,
                self.px(p as int, bsize as int, mi_row as int, mi_col as int),
            ),
    {
        proof {
            lemma_rects(*self, bsize as int, mi_row as int, mi_col as int, p as int);
        }
        let (x, y, w, h): (usize, usize, usize, usize) = self.block_px(p, bsize, mi_row, mi_col);
        assert(self.plane_ok(p as int));
        grid::take(&self.rec[p].buf, self.rows[p], self.rec[p].stride, y, x, w, h)
    }

    fn snap_ctx(&self, p: usize, bsize: usize, mi_row: usize, mi_col: usize) -> (r: Vec<u8>)
        requires
            self.wf(),
            p < 3,
            bsize < 13,
            mi_row < self.mi_rows,
            mi_col < self.mi_cols,
        ensures
            r@ == cut(
                self.above_ctx[p as int]@,
                self.above_ctx[p as int]@.len() as int,
                self.ctx(p as int, bsize as int, mi_col as int),
            ),
    {
        proof {
            lemma_rects(*self, bsize as int, mi_row as int, mi_col as int, p as int);
        }
        let (first, w): (usize, usize) = self.ctx_span(p, bsize, mi_col);
        let len: usize = self.above_ctx[p].len();
        grid::take(&self.above_ctx[p], 1, len, 0, first, w, 1)
    }

    /// Remembers what a block covers.
    pub fn snap_block(&self, bsize: usize, mi_row: usize, mi_col: usize) -> (s: BlockSnap)
        requires
            self.wf(),
            bsize < 13,
            mi_row < self.mi_rows,
            mi_col < self.mi_cols,
        ensures
            snapped(*self, s, bsize as int, mi_row as int, mi_col as int),
    {
        proof {
            lemma_rects(*self, bsize as int, mi_row as int, mi_col as int, 0);
        }
        let sw: usize = self.seg_span(bsize, mi_col);
        let seg_len: usize = self.above_seg.len();
        let (cw, ch): (usize, usize) = self.cell_span(bsize, mi_row, mi_col);
        BlockSnap {
            rec: [
                self.snap_plane(0, bsize, mi_row, mi_col),
                self.snap_plane(1, bsize, mi_row, mi_col),
                self.snap_plane(2, bsize, mi_row, mi_col),
            ],
            above_ctx: [
                self.snap_ctx(0, bsize, mi_row, mi_col),
                self.snap_ctx(1, bsize, mi_row, mi_col),
                self.snap_ctx(2, bsize, mi_row, mi_col),
            ],
            left_ctx: self.left_ctx,
            above_seg: grid::take(&self.above_seg, 1, seg_len, 0, mi_col, sw, 1),
            left_seg: self.left_seg,
            mi: grid::take(&self.mi, self.mi_rows, self.mi_cols, mi_row, mi_col, cw, ch),
        }
    }

    /// Puts the mode information of a block into all cells that it covers.
    pub fn store_mi(&mut self, bsize: usize, mi_row: usize, mi_col: usize, m: ModeInfo)
        requires
            old(self).wf(),
            bsize < 13,
            mi_row < old(self).mi_rows,
            mi_col < old(self).mi_cols,
        ensures
            final(self).wf(),
            final(self).mi@ == filled(
                old(self).mi@,
                old(self).mi_cols as int,
                old(self).cells(bsize as int, mi_row as int, mi_col as int),
                m,
            ),
            *final(self) == (Canvas { mi: final(self).mi, ..*old(self) }),
    {
        let (cw, ch): (usize, usize) = self.cell_span(bsize, mi_row, mi_col);
        grid::fill(&mut self.mi, self.mi_rows, self.mi_cols, mi_row, mi_col, cw, ch, m);
        assert forall|p: int| 0 <= p < 3 implies #[trigger] self.plane_ok(p) by {
            assert(old(self).plane_ok(p));
        }
    }

    /// Puts back what a block covered. `s` must be of a block of the same size at the
    /// same place.
    pub fn restore_block(&mut self, bsize: usize, mi_row: usize, mi_col: usize, s: &BlockSnap)
        requires
            old(self).wf(),
            bsize < 13,
            mi_row < old(self).mi_rows,
            mi_col < old(self).mi_cols,
            ({
                let c = *old(self);
                let (b, r, k) = (bsize as int, mi_row as int, mi_col as int);
                &&& forall|p: int|
                    0 <= p < 3 ==> (#[trigger] s.rec[p])@.len() == c.px(p, b, r, k).h * c.px(
                        p,
                        b,
                        r,
                        k,
                    ).w
                &&& forall|p: int|
                    0 <= p < 3 ==> (#[trigger] s.above_ctx[p])@.len() == c.ctx(p, b, k).w
                &&& s.above_seg@.len() == c.seg(b, k).w
                &&& s.mi@.len() == c.cells(b, r, k).h * c.cells(b, r, k).w
            }),
        ensures
            final(self).wf(),
            restored(
                *old(self),
                *s,
                bsize as int,
                mi_row as int,
                mi_col as int,
                *final(self),
            ),
    {
        let mut p: usize = 0;
        let ghost start = *self;
        while p < 3
            invariant
                p <= 3,
                start.wf(),
                bsize < 13,
                mi_row < start.mi_rows,
                mi_col < start.mi_cols,
                forall|q: int|
                    0 <= q < 3 ==> (#[trigger] s.rec[q])@.len() == start.px(
                        q,
                        bsize as int,
                        mi_row as int,
                        mi_col as int,
                    ).h * start.px(q, bsize as int, mi_row as int, mi_col as int).w,
                forall|q: int|
                    0 <= q < 3 ==> (#[trigger] s.above_ctx[q])@.len() == start.ctx(
                        q,
                        bsize as int,
                        mi_col as int,
                    ).w,
                forall|q: int|
                    0 <= q < 3 ==> (#[trigger] self.rec[q]).buf@ == (if q < p {
                        pasted(
                            start.rec[q].buf@,
                            start.rec[q].stride as int,
                            start.px(q, bsize as int, mi_row as int, mi_col as int),
                            s.rec[q]@,
                        )
                    } else {
                        start.rec[q].buf@
                    }),
                forall|q: int|
                    0 <= q < 3 ==> {
                        &&& (#[trigger] self.rec[q]).stride == start.rec[q].stride
                        &&& self.rec[q].w == start.rec[q].w
                        &&& self.rec[q].h == start.rec[q].h
                        &&& self.rec[q].ss_x == start.rec[q].ss_x
                        &&& self.rec[q].ss_y == start.rec[q].ss_y
                    },
                forall|q: int|
                    0 <= q < 3 ==> (#[trigger] self.above_ctx[q])@ == (if q < p {
                        pasted(
                            start.above_ctx[q]@,
                            start.above_ctx[q]@.len() as int,
                            start.ctx(q, bsize as int, mi_col as int),
                            s.above_ctx[q]@,
                        )
                    } else {
                        start.above_ctx[q]@
                    }),
                *self == (Canvas { rec: self.rec, above_ctx: self.above_ctx, ..start }),
            decreases 3 - p,
        {
            proof {
                lemma_rects(start, bsize as int, mi_row as int, mi_col as int, p as int);
                assert(start.plane_ok(p as int));
                assert forall|q: int| 0 <= q < 3 implies #[trigger] self.plane_ok(q) by {
                    assert(start.plane_ok(q));
                    assert(self.rec[q].stride == start.rec[q].stride);
                }
                assert(self.above_ctx[0]@.len() == start.above_ctx[0]@.len());
                assert(self.above_ctx[1]@.len() == start.above_ctx[1]@.len());
                assert(self.above_ctx[2]@.len() == start.above_ctx[2]@.len());
                assert(self.wf());
                assert(s.rec[p as int]@.len() == start.px(
                    p as int,
                    bsize as int,
                    mi_row as int,
                    mi_col as int,
                ).h * start.px(p as int, bsize as int, mi_row as int, mi_col as int).w);
                assert(s.above_ctx[p as int]@.len() == start.ctx(
                    p as int,
                    bsize as int,
                    mi_col as int,
                ).w);
            }
            let (x, y, w, h): (usize, usize, usize, usize) = self.block_px(
                p,
                bsize,
                mi_row,
                mi_col,
            );
            let (first, cw): (usize, usize) = self.ctx_span(p, bsize, mi_col);
            let len: usize = self.above_ctx[p].len();
            let (rows, stride): (usize, usize) = (self.rows[p], self.rec[p].stride);
            grid::paste(&mut self.rec[p].buf, &s.rec[p], rows, stride, y, x, w, h);
            grid::paste(&mut self.above_ctx[p], &s.above_ctx[p], 1, len, 0, first, cw, 1);
            p += 1;
        }
        proof {
            lemma_rects(start, bsize as int, mi_row as int, mi_col as int, 0);
            assert forall|q: int| 0 <= q < 3 implies #[trigger] self.plane_ok(q) by {
                assert(start.plane_ok(q));
                assert(self.rec[q].stride == start.rec[q].stride);
            }
            assert(self.above_ctx[0]@.len() == start.above_ctx[0]@.len());
            assert(self.above_ctx[1]@.len() == start.above_ctx[1]@.len());
            assert(self.above_ctx[2]@.len() == start.above_ctx[2]@.len());
        }
        let sw: usize = self.seg_span(bsize, mi_col);
        let seg_len: usize = self.above_seg.len();
        let (cw, ch): (usize, usize) = self.cell_span(bsize, mi_row, mi_col);
        let (mi_rows, mi_cols): (usize, usize) = (self.mi_rows, self.mi_cols);
        self.left_ctx = s.left_ctx;
        self.left_seg = s.left_seg;
        grid::paste(&mut self.above_seg, &s.above_seg, 1, seg_len, 0, mi_col, sw, 1);
        grid::paste(&mut self.mi, &s.mi, mi_rows, mi_cols, mi_row, mi_col, cw, ch);
        proof {
            assert forall|q: int| 0 <= q < 3 implies #[trigger] self.plane_ok(q) by {
                assert(start.plane_ok(q));
                assert(self.rec[q].stride == start.rec[q].stride);
            }
        }
    }
}

/// A trial changed nothing outside the block: neither pixels, nor contexts above, nor
/// mode information.
pub open spec fn confined(a: Canvas, b: Canvas, bsize: int, row: int, col: int) -> bool {
    &&& b.rows == a.rows && b.mi_rows == a.mi_rows && b.mi_cols == a.mi_cols
    &&& forall|p: int|
        0 <= p < 3 ==> {
            &&& (#[trigger] b.rec[p]).stride == a.rec[p].stride
            &&& b.rec[p].w == a.rec[p].w && b.rec[p].h == a.rec[p].h
            &&& b.rec[p].ss_x == a.rec[p].ss_x && b.rec[p].ss_y == a.rec[p].ss_y
            &&& b.rec[p].buf@.len() == a.rec[p].buf@.len()
            &&& b.above_ctx[p]@.len() == a.above_ctx[p]@.len()
        }
    &&& forall|p: int, i: int|
        0 <= p < 3 && 0 <= i < a.rec[p].buf@.len() && !inside(
            i,
            a.rec[p].stride as int,
            a.px(p, bsize, row, col),
        ) ==> #[trigger] b.rec[p].buf@[i] == a.rec[p].buf@[i]
    &&& forall|p: int, i: int|
        0 <= p < 3 && 0 <= i < a.above_ctx[p]@.len() && !inside(
            i,
            a.above_ctx[p]@.len() as int,
            a.ctx(p, bsize, col),
        ) ==> #[trigger] b.above_ctx[p]@[i] == a.above_ctx[p]@[i]
    &&& b.above_seg@.len() == a.above_seg@.len()
    &&& forall|i: int|
        0 <= i < a.above_seg@.len() && !inside(
            i,
            a.above_seg@.len() as int,
            a.seg(bsize, col),
        ) ==> #[trigger] b.above_seg@[i] == a.above_seg@[i]
    &&& b.mi@.len() == a.mi@.len()
    &&& forall|i: int|
        0 <= i < a.mi@.len() && !inside(i, a.mi_cols as int, a.cells(bsize, row, col)) ==>
            #[trigger] b.mi@[i] == a.mi@[i]
}

/// Two canvases hold the same.
pub open spec fn same_canvas(a: Canvas, b: Canvas) -> bool {
    &&& forall|p: int|
        0 <= p < 3 ==> (#[trigger] a.rec[p]).buf@ == b.rec[p].buf@ && a.rec[p].stride
            == b.rec[p].stride && a.rec[p].w == b.rec[p].w && a.rec[p].h == b.rec[p].h
            && a.rec[p].ss_x == b.rec[p].ss_x && a.rec[p].ss_y == b.rec[p].ss_y
    &&& forall|p: int| 0 <= p < 3 ==> (#[trigger] a.above_ctx[p])@ == b.above_ctx[p]@
    &&& a.left_ctx == b.left_ctx
    &&& a.above_seg@ == b.above_seg@
    &&& a.left_seg == b.left_seg
    &&& a.mi@ == b.mi@
    &&& a.rows == b.rows && a.mi_rows == b.mi_rows && a.mi_cols == b.mi_cols
}

/// Whatever a trial does to a block, putting back what was remembered of it undoes the
/// trial.
pub proof fn law_restore_undoes_trial(
    before: Canvas,
    s: BlockSnap,
    trial: Canvas,
    after: Canvas,
    bsize: int,
    row: int,
    col: int,
)
    requires
        before.wf(),
        0 <= bsize < 13,
        0 <= row < before.mi_rows,
        0 <= col < before.mi_cols,
        snapped(before, s, bsize, row, col),
        confined(before, trial, bsize, row, col),
        restored(trial, s, bsize, row, col, after),
    ensures
        same_canvas(after, before),
{
    assert forall|p: int| 0 <= p < 3 implies (#[trigger] after.rec[p]).buf@
        == before.rec[p].buf@ by {
        lemma_rects(before, bsize, row, col, p);
        assert(before.plane_ok(p));
        assert(trial.rec[p].stride == before.rec[p].stride);
        let _ = s.rec[p];
        grid::law_paste_undoes(
            before.rec[p].buf@,
            trial.rec[p].buf@,
            before.rows[p] as int,
            before.rec[p].stride as int,
            before.px(p, bsize, row, col),
        );
    }
    assert forall|p: int| 0 <= p < 3 implies (#[trigger] after.above_ctx[p])@
        == before.above_ctx[p]@ by {
        lemma_rects(before, bsize, row, col, p);
        assert(trial.rec[p].stride == before.rec[p].stride);
        let _ = s.above_ctx[p];
        grid::law_paste_undoes(
            before.above_ctx[p]@,
            trial.above_ctx[p]@,
            1,
            before.above_ctx[p]@.len() as int,
            before.ctx(p, bsize, col),
        );
    }
    assert forall|p: int| 0 <= p < 3 implies (#[trigger] after.rec[p]).stride
        == before.rec[p].stride && after.rec[p].w == before.rec[p].w && after.rec[p].h
        == before.rec[p].h && after.rec[p].ss_x == before.rec[p].ss_x && after.rec[p].ss_y
        == before.rec[p].ss_y by {
        assert(trial.rec[p].stride == before.rec[p].stride);
    }
    lemma_rects(before, bsize, row, col, 0);
    grid::law_paste_undoes(
        before.above_seg@,
        trial.above_seg@,
        1,
        before.above_seg@.len() as int,
        before.seg(bsize, col),
    );
    grid::law_paste_undoes(
        before.mi@,
        trial.mi@,
        before.mi_rows as int,
        before.mi_cols as int,
        before.cells(bsize, row, col),
    );
}

// ---------------------------------------------------------------------------
// Trials of luma alone
// ---------------------------------------------------------------------------

/// The luma of what a block covers, before a trial changes it.
pub struct LumaSnap {
    pub y: Vec<u16>,
    pub above: Vec<u8>,
    pub left: [u8; 16],
}

/// `s` holds the luma of what the block covers on `c`.
pub open spec fn luma_snapped(c: Canvas, s: LumaSnap, bsize: int, row: int, col: int) -> bool {
    &&& s.y@ == cut(c.rec[0].buf@, c.rec[0].stride as int, c.px(0, bsize, row, col))
    &&& s.above@ == cut(c.above_ctx[0]@, c.above_ctx[0]@.len() as int, c.ctx(0, bsize, col))
    &&& s.left == c.left_ctx[0]
}

impl Canvas {
    /// Remembers the luma of what a block covers.
    pub fn snap_y(&self, bsize: usize, mi_row: usize, mi_col: usize) -> (s: LumaSnap)
        requires
            self.wf(),
            bsize < 13,
            mi_row < self.mi_rows,
            mi_col < self.mi_cols,
        ensures
            luma_snapped(*self, s, bsize as int, mi_row as int, mi_col as int),
    {
        LumaSnap {
            y: self.snap_plane(0, bsize, mi_row, mi_col),
            above: self.snap_ctx(0, bsize, mi_row, mi_col),
            left: self.left_ctx[0],
        }
    }

    /// Puts back the luma of what a block covered.
    pub fn restore_y(&mut self, bsize: usize, mi_row: usize, mi_col: usize, s: &LumaSnap)
        requires
            old(self).wf(),
            bsize < 13,
            mi_row < old(self).mi_rows,
            mi_col < old(self).mi_cols,
            ({
                let r = old(self).px(0, bsize as int, mi_row as int, mi_col as int);
                s.y@.len() == r.h * r.w
            }),
            s.above@.len() == old(self).ctx(0, bsize as int, mi_col as int).w,
        ensures
            final(self).wf(),
            final(self).rec[0].buf@ == pasted(
                old(self).rec[0].buf@,
                old(self).rec[0].stride as int,
                old(self).px(0, bsize as int, mi_row as int, mi_col as int),
                s.y@,
            ),
            final(self).above_ctx[0]@ == pasted(
                old(self).above_ctx[0]@,
                old(self).above_ctx[0]@.len() as int,
                old(self).ctx(0, bsize as int, mi_col as int),
                s.above@,
            ),
            final(self).left_ctx[0] == s.left,
            forall|p: int|
                1 <= p < 3 ==> #[trigger] final(self).rec[p] == old(self).rec[p] && final(
                    self).above_ctx[p] == old(self).above_ctx[p] && final(self).left_ctx[p] == old(
                    self).left_ctx[p],
            final(self).rec[0] == (Picture { buf: final(self).rec[0].buf, ..old(self).rec[0] }),
            *final(self) == (Canvas {
                rec: final(self).rec,
                above_ctx: final(self).above_ctx,
                left_ctx: final(self).left_ctx,
                ..*old(self)
            }),
    {
        let ghost start = *self;
        proof {
            lemma_rects(start, bsize as int, mi_row as int, mi_col as int, 0);
            assert(start.plane_ok(0));
        }
        let (x, y, w, h): (usize, usize, usize, usize) = self.block_px(0, bsize, mi_row, mi_col);
        let (first, cw): (usize, usize) = self.ctx_span(0, bsize, mi_col);
        let len: usize = self.above_ctx[0].len();
        let (rows, stride): (usize, usize) = (self.rows[0], self.rec[0].stride);
        grid::paste(&mut self.rec[0].buf, &s.y, rows, stride, y, x, w, h);
        grid::paste(&mut self.above_ctx[0], &s.above, 1, len, 0, first, cw, 1);
        self.left_ctx[0] = s.left;
        assert forall|q: int| 0 <= q < 3 implies #[trigger] self.plane_ok(q) by {
            assert(start.plane_ok(q));
            if q > 0 {
                assert(self.rec[q] == start.rec[q]);
            }
        }
    }
}

/// Whatever a trial of luma does to a block, putting back what was remembered of it
/// undoes the trial.
pub proof fn law_restore_y_undoes_trial(
    before: Canvas,
    s: LumaSnap,
    trial: Canvas,
    bsize: int,
    row: int,
    col: int,
)
    requires
        before.wf(),
        0 <= bsize < 13,
        0 <= row < before.mi_rows,
        0 <= col < before.mi_cols,
        luma_snapped(before, s, bsize, row, col),
        confined(before, trial, bsize, row, col),
    ensures
        pasted(
            trial.rec[0].buf@,
            before.rec[0].stride as int,
            before.px(0, bsize, row, col),
            s.y@,
        ) == before.rec[0].buf@,
        pasted(
            trial.above_ctx[0]@,
            before.above_ctx[0]@.len() as int,
            before.ctx(0, bsize, col),
            s.above@,
        ) == before.above_ctx[0]@,
        s.left == before.left_ctx[0],
{
    lemma_rects(before, bsize, row, col, 0);
    assert(before.plane_ok(0));
    assert(trial.rec[0].stride == before.rec[0].stride);
    grid::law_paste_undoes(
        before.rec[0].buf@,
        trial.rec[0].buf@,
        before.rows[0] as int,
        before.rec[0].stride as int,
        before.px(0, bsize, row, col),
    );
    grid::law_paste_undoes(
        before.above_ctx[0]@,
        trial.above_ctx[0]@,
        1,
        before.above_ctx[0]@.len() as int,
        before.ctx(0, bsize, col),
    );
}

/// A block covers eight pixels of luma for each of its units in the frame, and four of
/// chroma; in the contexts above two entries of luma and one of chroma; and one in the
/// partition contexts.
pub proof fn law_block_covers_its_units(c: Canvas, bsize: int, row: int, col: int, p: int)
    requires
        c.wf(),
        0 <= bsize < 13,
        0 <= row < c.mi_rows,
        0 <= col < c.mi_cols,
        0 <= p < 3,
    ensures
        ({
            let units = c.cells(bsize, row, col);
            let px = c.px(p, bsize, row, col);
            let ctx = c.ctx(p, bsize, col);
            let seg = c.seg(bsize, col);
            let side = if p == 0 {
                8int
            } else {
                4
            };
            let entries = if p == 0 {
                2int
            } else {
                1
            };
            &&& px.row == side * row && px.col == side * col
            &&& px.w == side * units.w && px.h == side * units.h
            &&& ctx.row == 0 && ctx.h == 1 && ctx.col == entries * col && ctx.w == entries
                * units.w
            &&& seg.row == 0 && seg.h == 1 && seg.col == col && seg.w == units.w
            &&& units.row == row && units.col == col
            &&& 1 <= units.w <= c.mi_cols - col && 1 <= units.h <= c.mi_rows - row
        }),
{
    assert(BLOCK_MI_WIDTH[bsize] >= 1 && BLOCK_MI_HEIGHT[bsize] >= 1);
}

} // verus!
