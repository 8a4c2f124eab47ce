//! How squares are cut: the choice, and writing it.
use vstd::prelude::*;

use crate::block;
use crate::block::{
    partition_plane_context, update_partition_context, PARTITION_NONE, PARTITION_SPLIT,
};
use crate::coding;
use crate::coding::{Cursor, Sym};
use crate::context::FrameContext;
use crate::decode::partition::{
    cut_read, is_square, leaving, partition_probs, parts, square_ctx, square_level, square_width,
    Step, Task, Walk,
};
use crate::decode::reconstructor::{aligned, Reconstructor};
use crate::encode::bitwriter::BoolEncoder;
use crate::encode::syntax::{
    law_partition_read_inverts_write, partition_codable, partition_syms, write_partition,
};
use crate::geom_tables::{PARTITION_CTX_ABOVE, PARTITION_CTX_LEFT};
use crate::prob_tables::KF_PARTITION_PROBS;

verus! {

// ---------------------------------------------------------------------------
// The choice
// ---------------------------------------------------------------------------

/// Whether a square can be coded as one block: its lower half begins in the frame, and
/// it does not reach beyond the right edge.
pub open spec fn fits_whole(row: int, col: int, bsize: int, rows: int, cols: int) -> bool {
    row + square_width(bsize) / 2 < rows && col + square_width(bsize) <= cols
}

/// The width of a square in units of eight pixels.
fn width_of(bsize: usize) -> (w: usize)
    requires
        is_square(bsize as int),
    ensures
        w == square_width(bsize as int),
{
    if bsize == 12 {
        8
    } else if bsize == 9 {
        4
    } else if bsize == 6 {
        2
    } else {
        1
    }
}

/// Whether a square can be coded as one block.
pub fn full_fit(mi_row: usize, mi_col: usize, bsize: usize, mi_rows: usize, mi_cols: usize) -> (r:
    bool)
    requires
        is_square(bsize as int),
        mi_row <= 16384,
        mi_col <= 16384,
    ensures
        r == fits_whole(
            mi_row as int,
            mi_col as int,
            bsize as int,
            mi_rows as int,
            mi_cols as int,
        ),
{
    let w: usize = width_of(bsize);
    mi_row + w / 2 < mi_rows && mi_col + w <= mi_cols
}

/// The cut that is best: none if that is no worse than `limit`, which is the better of
/// the others or a little more; else the better of the cuts below 8x8 and of four
/// squares. A cut that was not tried has the largest score.
pub open spec fn best_cut(none: u64, limit: u64, split: u64, sub: Option<(usize, u64)>) -> usize {
    if none <= limit {
        PARTITION_NONE
    } else {
        match sub {
            Some((cut, score)) if score <= split => cut,
            _ => PARTITION_SPLIT,
        }
    }
}

/// Chooses how a square is cut.
pub fn pick_partition(none: u64, limit: u64, split: u64, sub: Option<(usize, u64)>) -> (r: usize)
    ensures
        r == best_cut(none, limit, split, sub),
{
    if none <= limit {
        return PARTITION_NONE;
    }
    match sub {
        Some((cut, score)) => if score <= split {
            cut
        } else {
            PARTITION_SPLIT
        },
        None => PARTITION_SPLIT,
    }
}

/// Where none must be no worse than the better of the others, no cut is better than the chosen one.
pub proof fn law_cut_is_least(none: u64, split: u64, sub: Option<(usize, u64)>)
    requires
        sub is Some ==> sub.unwrap().0 != PARTITION_NONE && sub.unwrap().0 != PARTITION_SPLIT,
    ensures
        ({
            let other = match sub {
                Some((_, s)) if s < split => s,
                _ => split,
            };
            let cut = best_cut(none, other, split, sub);
            let score = if cut == PARTITION_NONE {
                none
            } else if sub is Some && cut == sub.unwrap().0 {
                sub.unwrap().1
            } else {
                split
            };
            &&& score <= none
            &&& score <= split
            &&& sub is Some ==> score <= sub.unwrap().1
        }),
{
}

/// How a square is cut by its variance alone: an 8x8 square is one block, a square that
/// must not be one block is four, others are one block where they vary little.
pub open spec fn variance_cut(bsize: int, fits: bool, variance: int, threshold: int) -> usize {
    if bsize == 3 || (fits && variance < threshold) {
        PARTITION_NONE
    } else {
        PARTITION_SPLIT
    }
}

/// Chooses how a square is cut by its variance.
pub fn var_pick_partition(bsize: usize, fits: bool, variance: i64, threshold: i64) -> (r: usize)
    ensures
        r == variance_cut(bsize as int, fits, variance as int, threshold as int),
{
    if bsize == 3 || (fits && variance < threshold) {
        PARTITION_NONE
    } else {
        PARTITION_SPLIT
    }
}

/// The place of a square of level `level` among those of its 64x64 block: its row and
/// its column.
pub fn place_in_superblock(mi_row: usize, mi_col: usize, bsize: usize) -> (r: (usize, usize))
    requires
        is_square(bsize as int),
    ensures
        r.0 == (mi_row as int % 8) / square_width(bsize as int),
        r.1 == (mi_col as int % 8) / square_width(bsize as int),
{
    let w: usize = width_of(bsize);
    (mi_row % 8 / w, mi_col % 8 / w)
}

/// The cut that is written for a square: the recorded one, four squares if none was
/// recorded; where cuts are not chosen, one block from `min_bsize` down if it fits.
pub open spec fn written_cut(
    chosen: bool,
    recorded: Option<u8>,
    bsize: int,
    min_bsize: int,
    has_rows: bool,
    has_cols: bool,
) -> int {
    if chosen {
        match recorded {
            Some(p) => p as int,
            None => PARTITION_SPLIT as int,
        }
    } else if bsize == 3 || (bsize <= min_bsize && has_rows && has_cols) {
        PARTITION_NONE as int
    } else {
        PARTITION_SPLIT as int
    }
}

/// The cut that is written for a square.
pub fn cut_to_write(
    chosen: bool,
    recorded: Option<u8>,
    bsize: usize,
    min_bsize: usize,
    has_rows: bool,
    has_cols: bool,
) -> (r: usize)
    ensures
        r == written_cut(
            chosen,
            recorded,
            bsize as int,
            min_bsize as int,
            has_rows,
            has_cols,
        ),
{
    if chosen {
        match recorded {
            Some(p) => p as usize,
            None => PARTITION_SPLIT,
        }
    } else if bsize == 3 || (bsize <= min_bsize && has_rows && has_cols) {
        PARTITION_NONE
    } else {
        PARTITION_SPLIT
    }
}

// ---------------------------------------------------------------------------
// Writing
// ---------------------------------------------------------------------------

/// The partition contexts of a tile that is being written.
pub struct PartitionContext {
    pub above_seg: Vec<u8>,
    pub left_seg: [u8; 8],
    pub mi_rows: usize,
    pub mi_cols: usize,
    pub is_inter: bool,
}

impl PartitionContext {
    /// The contexts have their shape.
    pub open spec fn wf(&self) -> bool {
        &&& 1 <= self.mi_rows <= 8192
        &&& 1 <= self.mi_cols <= 8192
        &&& self.above_seg@.len() == aligned(self.mi_cols as int)
    }

    /// The context of a square.
    pub open spec fn ctx(&self, row: int, col: int, bsize: int) -> int {
        block::partition_ctx(self.above_seg@[col], self.left_seg[row % 8], square_level(bsize))
    }

    /// The probabilities of the cut of a square.
    pub open spec fn probs(&self, fc: FrameContext, row: int, col: int, bsize: int) -> Seq<u8> {
        if self.is_inter {
            fc.partition_prob[self.ctx(row, col, bsize)]@
        } else {
            KF_PARTITION_PROBS[self.ctx(row, col, bsize)]@
        }
    }

    /// The binary decisions that say how a square is cut.
    pub open spec fn cut_syms(
        &self,
        fc: FrameContext,
        row: int,
        col: int,
        bsize: int,
        partition: int,
    ) -> Seq<Sym> {
        let half = square_width(bsize) / 2;
        partition_syms(
            partition,
            self.probs(fc, row, col, bsize),
            row + half < self.mi_rows,
            col + half < self.mi_cols,
        )
    }

    /// A cut that can be written for a square.
    pub open spec fn cuttable(&self, row: int, col: int, bsize: int, partition: int) -> bool {
        let half = square_width(bsize) / 2;
        partition_codable(
            partition,
            row + half < self.mi_rows,
            col + half < self.mi_cols,
        )
    }

    /// Writes how a square is cut.
    pub fn write_cut(
        &self,
        enc: &mut BoolEncoder,
        fc: &FrameContext,
        row: usize,
        col: usize,
        bsize: usize,
        partition: usize,
    )
        requires
            self.wf(),
            old(enc).wf(),
            row < self.mi_rows,
            col < self.mi_cols,
            is_square(bsize as int),
            self.cuttable(row as int, col as int, bsize as int, partition as int),
        ensures
            final(enc).wf(),
            final(enc)@ == old(enc)@ + self.cut_syms(
                *fc,
                row as int,
                col as int,
                bsize as int,
                partition as int,
            ),
    {
        let half: usize = width_of(bsize) / 2;
        let level: usize = if bsize == 12 {
            3
        } else if bsize == 9 {
            2
        } else if bsize == 6 {
            1
        } else {
            0
        };
        let has_rows: bool = row + half < self.mi_rows;
        let has_cols: bool = col + half < self.mi_cols;
        let ctx: usize = partition_plane_context(
            self.above_seg.as_slice(),
            &self.left_seg,
            row,
            col,
            level,
        );
        if self.is_inter {
            write_partition(enc, partition, &fc.partition_prob[ctx], has_rows, has_cols);
        } else {
            write_partition(enc, partition, &KF_PARTITION_PROBS[ctx], has_rows, has_cols);
        }
    }
}

/// What is written for the first task of a walk: nothing but for squares.
pub open spec fn emitted(
    tasks: Seq<Task>,
    pc: PartitionContext,
    fc: FrameContext,
    partition: int,
) -> Seq<Sym> {
    if tasks.len() == 0 {
        Seq::empty()
    } else {
        match tasks[0] {
            Task::Square { row, col, bsize } if row < pc.mi_rows && col < pc.mi_cols => pc.cut_syms(
                fc,
                row as int,
                col as int,
                bsize as int,
                partition,
            ),
            _ => Seq::empty(),
        }
    }
}

/// The first task of a walk is done while writing: `next` is asked for, `left` is what is
/// left, and `after` are the contexts after it.
pub open spec fn emits(
    tasks: Seq<Task>,
    pc: PartitionContext,
    partition: int,
    next: Step,
    left: Seq<Task>,
    after: PartitionContext,
) -> bool {
    if tasks.len() == 0 {
        next == Step::Done && left == tasks && after == pc
    } else {
        match tasks[0] {
            Task::Block { row, col, bsize } => {
                &&& next == (Step::Block { row, col, bsize })
                &&& left == tasks.drop_first()
                &&& after == pc
            },
            Task::Leave { row, col, bsize, width } => {
                &&& next == Step::Next
                &&& left == tasks.drop_first()
                &&& after.above_seg@ == pc.above_seg@.map(
                    |i: int, v: u8|
                        if col <= i < col + width {
                            PARTITION_CTX_ABOVE[bsize as int]
                        } else {
                            v
                        },
                )
                &&& after.left_seg@ == pc.left_seg@.map(
                    |i: int, v: u8|
                        if row % 8 <= i < row % 8 + width {
                            PARTITION_CTX_LEFT[bsize as int]
                        } else {
                            v
                        },
                )
                &&& after == (PartitionContext {
                    above_seg: after.above_seg,
                    left_seg: after.left_seg,
                    ..pc
                })
            },
            Task::Square { row, col, bsize } => {
                let (r, k, s) = (row as int, col as int, bsize as int);
                &&& next == Step::Next
                &&& after == pc
                &&& if row >= pc.mi_rows || col >= pc.mi_cols {
                    left == tasks.drop_first()
                } else {
                    left == parts(
                        r,
                        k,
                        s,
                        partition,
                        pc.mi_rows as int,
                        pc.mi_cols as int,
                    ) + leaving(r, k, s, partition) + tasks.drop_first()
                }
            },
        }
    }
}

/// Does the first task of a walk while writing. `partition` is how its square is cut.
pub fn emit_step(
    walk: &mut Walk,
    pc: &mut PartitionContext,
    enc: &mut BoolEncoder,
    fc: &FrameContext,
    partition: usize,
) -> (next: Step)
    requires
        old(pc).wf(),
        old(enc).wf(),
        old(walk).wf(old(pc).mi_rows as int, old(pc).mi_cols as int),
        old(walk)@.len() > 0 ==> match old(walk)@[0] {
            Task::Square { row, col, bsize } => row < old(pc).mi_rows && col < old(pc).mi_cols
                ==> old(pc).cuttable(row as int, col as int, bsize as int, partition as int),
            _ => true,
        },
    ensures
        final(pc).wf(),
        final(enc).wf(),
        final(walk).wf(final(pc).mi_rows as int, final(pc).mi_cols as int),
        emits(old(walk)@, *old(pc), partition as int, next, final(walk)@, *final(pc)),
        final(enc)@ == old(enc)@ + emitted(old(walk)@, *old(pc), *fc, partition as int),
{
    let ghost tasks = walk@;
    let ghost start = enc@;
    let (rows, cols): (usize, usize) = (pc.mi_rows, pc.mi_cols);
    proof {
        assert(start =~= start + Seq::<Sym>::empty());
    }
    let task: Task = match walk.take() {
        Some(t) => t,
        None => {
            return Step::Done;
        },
    };
    let ghost rest = walk@;
    proof {
        assert(crate::decode::partition::valid_task(tasks[0], rows as int, cols as int));
        assert forall|i: int| 0 <= i < rest.len() implies crate::decode::partition::valid_task(
            #[trigger] rest[i],
            rows as int,
            cols as int,
        ) by {
            assert(rest[i] == tasks[i + 1]);
        }
    }
    match task {
        Task::Block { row, col, bsize } => Step::Block { row, col, bsize },
        Task::Leave { row, col, bsize, width } => {
            let mut left: [u8; 8] = pc.left_seg;
            update_partition_context(
                pc.above_seg.as_mut_slice(),
                &mut left,
                row,
                col,
                bsize,
                width,
            );
            pc.left_seg = left;
            Step::Next
        },
        Task::Square { row, col, bsize } => {
            if row < rows && col < cols {
                pc.write_cut(enc, fc, row, col, bsize, partition);
                walk.cut(row, col, bsize, partition, rows, cols);
            }
            Step::Next
        },
    }
}

/// Reading how a square is cut gives back what was written, where the reader has the
/// contexts of the writer. So both walk over the same squares and blocks.
pub proof fn law_cut_read_inverts_write(
    c: Cursor,
    rec: Reconstructor,
    pc: PartitionContext,
    row: int,
    col: int,
    bsize: int,
    partition: int,
)
    requires
        rec.above_seg@ == pc.above_seg@,
        rec.left_seg == pc.left_seg,
        rec.is_inter_frame == pc.is_inter,
        rec.mi_rows == pc.mi_rows,
        rec.mi_cols == pc.mi_cols,
        pc.cuttable(row, col, bsize, partition),
        coding::holds(c, pc.cut_syms(rec.fc, row, col, bsize, partition)),
    ensures
        cut_read(c, rec, row, col, bsize) == (
            partition,
            coding::after(c, pc.cut_syms(rec.fc, row, col, bsize, partition)),
        ),
{
    let half = square_width(bsize) / 2;
    law_partition_read_inverts_write(
        c,
        partition,
        partition_probs(rec, square_ctx(rec, row, col, bsize)),
        row + half < rec.mi_rows,
        col + half < rec.mi_cols,
    );
}

/// A square can be one block where it does not reach over the right edge and its lower half
/// begins in the frame.
pub proof fn law_whole_squares(row: int, col: int, rows: int, cols: int)
    ensures
        fits_whole(row, col, 12, rows, cols) <==> row + 4 < rows && col + 8 <= cols,
        fits_whole(row, col, 9, rows, cols) <==> row + 2 < rows && col + 4 <= cols,
        fits_whole(row, col, 6, rows, cols) <==> row + 1 < rows && col + 2 <= cols,
        fits_whole(row, col, 3, rows, cols) <==> row < rows && col + 1 <= cols,
{
}

/// By variance alone an 8x8 square is never split, a larger one that does not fit always is,
/// and one that fits just where it varies at least by the threshold.
pub proof fn law_variance_decides(bsize: int, fits: bool, variance: int, threshold: int)
    ensures
        variance_cut(3, fits, variance, threshold) == 0,
        bsize != 3 && !fits ==> variance_cut(bsize, fits, variance, threshold) == 3,
        bsize != 3 && fits ==> (variance_cut(bsize, fits, variance, threshold) == 3 <==> variance
            >= threshold),
        bsize != 3 && fits ==> (variance_cut(bsize, fits, variance, threshold) == 0 <==> variance
            < threshold),
{
}

/// Where cuts were chosen the recorded one is written, and four squares where none was; else
/// squares are split down to the least size, and over the edges.
pub proof fn law_written_cuts(
    p: u8,
    bsize: int,
    min_bsize: int,
    has_rows: bool,
    has_cols: bool,
)
    ensures
        written_cut(true, Some(p), bsize, min_bsize, has_rows, has_cols) == p,
        written_cut(true, None, bsize, min_bsize, has_rows, has_cols) == 3,
        written_cut(false, Some(p), 3, min_bsize, has_rows, has_cols) == 0,
        bsize != 3 && bsize > min_bsize ==> written_cut(
            false,
            Some(p),
            bsize,
            min_bsize,
            has_rows,
            has_cols,
        ) == 3,
        bsize != 3 && (!has_rows || !has_cols) ==> written_cut(
            false,
            Some(p),
            bsize,
            min_bsize,
            has_rows,
            has_cols,
        ) == 3,
        bsize <= min_bsize && has_rows && has_cols ==> written_cut(
            false,
            Some(p),
            bsize,
            min_bsize,
            has_rows,
            has_cols,
        ) == 0,
{
}

} // verus!
