//! The partition of a frame into blocks: 64x64 blocks that are cut up recursively.
//!
//! Reading a block comes between reading the partitions around it, so the walk over
//! the partitions is a list of tasks. Each step takes the first task: a square is cut
//! into parts, a block is handed out to be read, or a square that is done leaves its
//! context behind.
use vstd::prelude::*;

use crate::bits::BoolDecoder;
use crate::block;
use crate::block::{
    partition_plane_context, read_partition, subsize, update_partition_context, PARTITION_HORZ,
    PARTITION_NONE, PARTITION_SPLIT, PARTITION_VERT,
};
use crate::coding;
use crate::coding::Cursor;
use crate::decode::reconstructor::{aligned, block_rect, Reconstructor};
use crate::decode::tally;
use crate::decode::tally::{tallied, Count};
use crate::decode::reconstructor::{BLOCK_MI_HEIGHT, BLOCK_MI_WIDTH};
use crate::geom_tables::{PARTITION_CTX_ABOVE, PARTITION_CTX_LEFT, SUBSIZE_LOOKUP};
use crate::prob_tables::KF_PARTITION_PROBS;

verus! {

/// A task of the walk. Places are in units of eight pixels.
#[derive(Clone, Copy, Debug, PartialEq, Eq, Structural)]
pub enum Task {
    /// Read how the square of size `bsize` is cut, and do its parts.
    Square { row: usize, col: usize, bsize: usize },
    /// Read the block of size `bsize`.
    Block { row: usize, col: usize, bsize: usize },
    /// Leave the context of the size `bsize` around a square of `width` units.
    Leave { row: usize, col: usize, bsize: usize, width: usize },
}

/// What one step of the walk asks for.
#[derive(Clone, Copy, Debug, PartialEq, Eq, Structural)]
pub enum Step {
    /// Nothing is left.
    Done,
    /// Take the next step.
    Next,
    /// Read this block.
    Block { row: usize, col: usize, bsize: usize },
}

/// One of the four sizes of squares from 8x8 on.
pub open spec fn is_square(bsize: int) -> bool {
    bsize == 3 || bsize == 6 || bsize == 9 || bsize == 12
}

/// The width of a square in units of eight pixels.
pub open spec fn square_width(bsize: int) -> int {
    if bsize == 12 {
        8
    } else if bsize == 9 {
        4
    } else if bsize == 6 {
        2
    } else {
        1
    }
}

/// The level of a square: the logarithm of its width.
pub open spec fn square_level(bsize: int) -> nat {
    if bsize == 12 {
        3
    } else if bsize == 9 {
        2
    } else if bsize == 6 {
        1
    } else {
        0
    }
}

/// A task that the walk can come to: squares stand at multiples of their width.
pub open spec fn valid_task(t: Task, rows: int, cols: int) -> bool {
    match t {
        Task::Square { row, col, bsize } => {
            &&& is_square(bsize as int)
            &&& row as int % square_width(bsize as int) == 0
            &&& col as int % square_width(bsize as int) == 0
            &&& row <= 16384 && col <= 16384
        },
        Task::Block { row, col, bsize } => bsize < 13 && row < rows && col < cols,
        Task::Leave { row, col, bsize, width } => {
            &&& bsize < 13
            &&& row as int % 8 + width <= 8
            &&& col + width <= aligned(cols)
        },
    }
}

/// The tasks that cutting a square by `partition` makes.
pub open spec fn parts(row: int, col: int, bsize: int, partition: int, rows: int, cols: int) -> Seq<
    Task,
> {
    let sub = SUBSIZE_LOOKUP[partition][bsize] as int;
    let half = square_width(bsize) / 2;
    let at = |r: int, c: int|
        Task::Block { row: r as usize, col: c as usize, bsize: sub as usize };
    let square = |r: int, c: int|
        Task::Square { row: r as usize, col: c as usize, bsize: sub as usize };
    if half == 0 || partition == PARTITION_NONE {
        seq![at(row, col)]
    } else if partition == PARTITION_HORZ {
        if row + half < rows {
            seq![at(row, col), at(row + half, col)]
        } else {
            seq![at(row, col)]
        }
    } else if partition == PARTITION_VERT {
        if col + half < cols {
            seq![at(row, col), at(row, col + half)]
        } else {
            seq![at(row, col)]
        }
    } else {
        seq![
            square(row, col),
            square(row, col + half),
            square(row + half, col),
            square(row + half, col + half),
        ]
    }
}

/// The context that a square leaves once it is done, unless its parts have done so.
pub open spec fn leaving(row: int, col: int, bsize: int, partition: int) -> Seq<Task> {
    if bsize == 3 || partition != PARTITION_SPLIT {
        seq![
            Task::Leave {
                row: row as usize,
                col: col as usize,
                bsize: SUBSIZE_LOOKUP[partition][bsize] as usize,
                width: square_width(bsize) as usize,
            },
        ]
    } else {
        Seq::empty()
    }
}

/// The sizes of the parts of squares.
proof fn lemma_subsizes(partition: int, bsize: int)
    requires
        0 <= partition < 4,
        is_square(bsize),
    ensures
        SUBSIZE_LOOKUP[partition][bsize] < 13,
        partition == 3 && bsize > 3 ==> is_square(SUBSIZE_LOOKUP[partition][bsize] as int)
            && square_width(SUBSIZE_LOOKUP[partition][bsize] as int) * 2 == square_width(bsize),
        partition == 0 ==> SUBSIZE_LOOKUP[partition][bsize] == bsize,
{
}

/// Every part of a square inside the frame is a task that the walk can come to.
proof fn lemma_parts_valid(
    row: int,
    col: int,
    bsize: int,
    partition: int,
    rows: int,
    cols: int,
)
    requires
        0 <= row < rows <= 8192,
        0 <= col < cols <= 8192,
        is_square(bsize),
        row % square_width(bsize) == 0,
        col % square_width(bsize) == 0,
        0 <= partition < 4,
    ensures
        forall|i: int|
            0 <= i < parts(row, col, bsize, partition, rows, cols).len() ==> valid_task(
                #[trigger] parts(row, col, bsize, partition, rows, cols)[i],
                rows,
                cols,
            ),
        forall|i: int|
            0 <= i < leaving(row, col, bsize, partition).len() ==> valid_task(
                #[trigger] leaving(row, col, bsize, partition)[i],
                rows,
                cols,
            ),
{
    lemma_subsizes(partition, bsize);
    let w = square_width(bsize);
    assert(w == 1 || w == 2 || w == 4 || w == 8);
    if w == 8 {
        assert((row + 4) % 4 == 0 && (col + 4) % 4 == 0 && row % 4 == 0 && col % 4 == 0);
        assert(col + 8 <= aligned(cols));
    } else if w == 4 {
        assert((row + 2) % 2 == 0 && (col + 2) % 2 == 0 && row % 2 == 0 && col % 2 == 0);
        assert(row % 8 + 4 <= 8);
        assert(col + 4 <= aligned(cols));
    } else if w == 2 {
        assert(row % 8 + 2 <= 8);
        assert(col + 2 <= aligned(cols));
    }
}

/// A walk over the partitions of a part of a frame: the tasks that are left, the first
/// one last.
pub struct Walk {
    stack: Vec<Task>,
}

impl Walk {
    /// The tasks that are left, in order.
    pub closed spec fn view(&self) -> Seq<Task> {
        self.stack@.reverse()
    }

    /// Every task is one that the walk can come to.
    pub open spec fn wf(&self, rows: int, cols: int) -> bool {
        forall|i: int| 0 <= i < self@.len() ==> valid_task(#[trigger] self@[i], rows, cols)
    }

    /// The walk over the 64x64 block at `row`, `col`.
    pub fn new(row: usize, col: usize) -> (w: Walk)
        ensures
            w@ == seq![Task::Square { row, col, bsize: 12usize }],
    {
        let mut stack: Vec<Task> = Vec::new();
        stack.push(Task::Square { row, col, bsize: 12 });
        assert(stack@.reverse() =~= seq![Task::Square { row, col, bsize: 12usize }]);
        Walk { stack }
    }

    /// The walk in which nothing is left.
    pub fn idle() -> (w: Walk)
        ensures
            w@ == Seq::<Task>::empty(),
    {
        let stack: Vec<Task> = Vec::new();
        assert(stack@.reverse() =~= Seq::<Task>::empty());
        Walk { stack }
    }

    /// Puts a task before all others.
    fn put(&mut self, t: Task)
        ensures
            final(self)@ == seq![t] + old(self)@,
    {
        let ghost before = self.stack@;
        self.stack.push(t);
        assert(self.stack@.reverse() =~= seq![t] + before.reverse());
    }

    /// Takes the first task.
    pub(crate) fn take(&mut self) -> (t: Option<Task>)
        ensures
            match t {
                Some(x) => old(self)@.len() > 0 && x == old(self)@[0] && final(self)@ == old(self)@.drop_first(),
                None => old(self)@.len() == 0 && final(self)@ == old(self)@,
            },
    {
        let ghost before = self.stack@;
        let t: Option<Task> = self.stack.pop();
        assert(before.len() > 0 ==> self.stack@.reverse() =~= before.reverse().drop_first());
        t
    }

    /// Puts the parts of a square before all others.
    fn put_parts(
        &mut self,
        row: usize,
        col: usize,
        bsize: usize,
        partition: usize,
        rows: usize,
        cols: usize,
    )
        requires
            is_square(bsize as int),
            partition < 4,
            row < rows <= 8192,
            col < cols <= 8192,
        ensures
            final(self)@ == parts(
                row as int,
                col as int,
                bsize as int,
                partition as int,
                rows as int,
                cols as int,
            ) + old(self)@,
    {
        let ghost start = self@;
        let ghost goal = parts(
            row as int,
            col as int,
            bsize as int,
            partition as int,
            rows as int,
            cols as int,
        );
        let sub: usize = subsize(partition, bsize) as usize;
        let half: usize = if bsize == 12 {
            4
        } else if bsize == 9 {
            2
        } else if bsize == 6 {
            1
        } else {
            0
        };
        if half == 0 || partition == PARTITION_NONE {
            self.put(Task::Block { row, col, bsize: sub });
        } else if partition == PARTITION_HORZ {
            if row + half < rows {
                self.put(Task::Block { row: row + half, col, bsize: sub });
            }
            self.put(Task::Block { row, col, bsize: sub });
        } else if partition == PARTITION_VERT {
            if col + half < cols {
                self.put(Task::Block { row, col: col + half, bsize: sub });
            }
            self.put(Task::Block { row, col, bsize: sub });
        } else {
            self.put(Task::Square { row: row + half, col: col + half, bsize: sub });
            self.put(Task::Square { row: row + half, col, bsize: sub });
            self.put(Task::Square { row, col: col + half, bsize: sub });
            self.put(Task::Square { row, col, bsize: sub });
        }
        assert(self@ =~= goal + start);
    }

    /// Puts the parts of a square before all others, and behind them the context that
    /// the square leaves.
    pub(crate) fn cut(
        &mut self,
        row: usize,
        col: usize,
        bsize: usize,
        partition: usize,
        rows: usize,
        cols: usize,
    )
        requires
            old(self).wf(rows as int, cols as int),
            is_square(bsize as int),
            row as int % square_width(bsize as int) == 0,
            col as int % square_width(bsize as int) == 0,
            partition < 4,
            row < rows <= 8192,
            col < cols <= 8192,
        ensures
            final(self).wf(rows as int, cols as int),
            final(self)@ == parts(
                row as int,
                col as int,
                bsize as int,
                partition as int,
                rows as int,
                cols as int,
            ) + leaving(row as int, col as int, bsize as int, partition as int) + old(self)@,
    {
        proof {
            lemma_subsizes(partition as int, bsize as int);
            lemma_parts_valid(
                row as int,
                col as int,
                bsize as int,
                partition as int,
                rows as int,
                cols as int,
            );
        }
        let ghost rest = self@;
        let ghost out = leaving(row as int, col as int, bsize as int, partition as int);
        if bsize == 3 || partition != PARTITION_SPLIT {
            let sub: usize = subsize(partition, bsize) as usize;
            let width: usize = if bsize == 12 {
                8
            } else if bsize == 9 {
                4
            } else if bsize == 6 {
                2
            } else {
                1
            };
            self.put(Task::Leave { row, col, bsize: sub, width });
        }
        assert(self@ =~= out + rest);
        self.put_parts(row, col, bsize, partition, rows, cols);
        proof {
            let ps = parts(
                row as int,
                col as int,
                bsize as int,
                partition as int,
                rows as int,
                cols as int,
            );
            assert(ps + (out + rest) =~= ps + out + rest);
            assert forall|i: int| 0 <= i < self@.len() implies valid_task(
                #[trigger] self@[i],
                rows as int,
                cols as int,
            ) by {
                if i < ps.len() {
                    assert(self@[i] == ps[i]);
                } else if i < ps.len() + out.len() {
                    assert(self@[i] == out[i - ps.len()]);
                } else {
                    assert(self@[i] == rest[i - ps.len() - out.len()]);
                }
            }
        }
    }

    /// The first task.
    pub fn first(&self) -> (t: Option<Task>)
        ensures
            match t {
                Some(x) => self@.len() > 0 && x == self@[0],
                None => self@.len() == 0,
            },
    {
        if self.stack.len() == 0 {
            None
        } else {
            Some(self.stack[self.stack.len() - 1])
        }
    }
}

/// The probabilities of the partition at a context.
pub open spec fn partition_probs(rec: Reconstructor, ctx: int) -> Seq<u8> {
    if rec.is_inter_frame {
        rec.fc.partition_prob[ctx]@
    } else {
        KF_PARTITION_PROBS[ctx]@
    }
}

/// The context of the partition of a square.
pub open spec fn square_ctx(rec: Reconstructor, row: int, col: int, bsize: int) -> int {
    block::partition_ctx(rec.above_seg@[col], rec.left_seg[row % 8], square_level(bsize))
}

/// How a square is cut, read from `c`, and the state after it.
pub open spec fn cut_read(
    c: Cursor,
    rec: Reconstructor,
    row: int,
    col: int,
    bsize: int,
) -> (int, Cursor) {
    let half = square_width(bsize) / 2;
    block::partition_read(
        c,
        partition_probs(rec, square_ctx(rec, row, col, bsize)),
        row + half < rec.mi_rows,
        col + half < rec.mi_cols,
    )
}

/// What is counted of it: nothing in intra frames.
pub open spec fn cut_log(rec: Reconstructor, ctx: int, partition: int) -> Seq<Count> {
    if rec.is_inter_frame {
        seq![Count::Partition(ctx, partition)]
    } else {
        Seq::empty()
    }
}

impl Reconstructor {
    /// Reads how a square is cut.
    pub fn read_cut(
        &mut self,
        b: &mut BoolDecoder,
        row: usize,
        col: usize,
        bsize: usize,
    ) -> (partition: usize)
        requires
            old(self).wf(),
            old(b).wf(),
            row < old(self).mi_rows,
            col < old(self).mi_cols,
            is_square(bsize as int),
            old(self).counts.room(1),
        ensures
            final(self).wf(),
            final(b).wf(),
            (partition as int, final(b)@) == cut_read(
                old(b)@,
                *old(self),
                row as int,
                col as int,
                bsize as int,
            ),
            partition < 4,
            tallied(
                old(self).counts,
                final(self).counts,
                cut_log(
                    *old(self),
                    square_ctx(*old(self), row as int, col as int, bsize as int),
                    partition as int,
                ),
            ),
            *final(self) == (Reconstructor { counts: final(self).counts, ..*old(self) }),
    {
        proof {
            tally::lemma_tally_none(self.counts);
        }
        let (level, half): (usize, usize) = if bsize == 12 {
            (3, 4)
        } else if bsize == 9 {
            (2, 2)
        } else if bsize == 6 {
            (1, 1)
        } else {
            (0, 0)
        };
        let has_rows: bool = row + half < self.mi_rows;
        let has_cols: bool = col + half < self.mi_cols;
        let ctx: usize = partition_plane_context(
            self.above_seg.as_slice(),
            &self.left_seg,
            row,
            col,
            level,
        );
        if self.is_inter_frame {
            let partition: usize = read_partition(
                b,
                &self.fc.partition_prob[ctx],
                has_rows,
                has_cols,
            );
            self.counts.count_partition(ctx, partition);
            partition
        } else {
            read_partition(b, &KF_PARTITION_PROBS[ctx], has_rows, has_cols)
        }
    }

    /// Leaves the context of the size `bsize` around a square.
    pub fn leave_context(&mut self, row: usize, col: usize, bsize: usize, width: usize)
        requires
            old(self).wf(),
            bsize < 13,
            row as int % 8 + width <= 8,
            col + width <= aligned(old(self).mi_cols as int),
        ensures
            final(self).wf(),
            final(self).above_seg@ == old(self).above_seg@.map(
                |i: int, v: u8|
                    if col <= i < col + width {
                        PARTITION_CTX_ABOVE[bsize as int]
                    } else {
                        v
                    },
            ),
            final(self).left_seg@ == old(self).left_seg@.map(
                |i: int, v: u8|
                    if row % 8 <= i < row % 8 + width {
                        PARTITION_CTX_LEFT[bsize as int]
                    } else {
                        v
                    },
            ),
            *final(self) == (Reconstructor {
                above_seg: final(self).above_seg,
                left_seg: final(self).left_seg,
                ..*old(self)
            }),
    {
        let mut left: [u8; 8] = self.left_seg;
        update_partition_context(
            self.above_seg.as_mut_slice(),
            &mut left,
            row,
            col,
            bsize,
            width,
        );
        self.left_seg = left;
    }
}

/// The first task of a walk is done: `next` is asked for, `left` is what is left, and
/// `after` and `c` are the states after it.
pub open spec fn steps_to(
    tasks: Seq<Task>,
    rec: Reconstructor,
    c: Cursor,
    next: Step,
    left: Seq<Task>,
    after: Reconstructor,
    d: Cursor,
) -> bool {
    if tasks.len() == 0 {
        next == Step::Done && left == tasks && after == rec && d == c
    } else {
        match tasks[0] {
            Task::Block { row, col, bsize } => {
                &&& next == (Step::Block { row, col, bsize })
                &&& left == tasks.drop_first()
                &&& after == rec
                &&& d == c
            },
            Task::Leave { row, col, bsize, width } => {
                &&& next == Step::Next
                &&& left == tasks.drop_first()
                &&& d == c
                &&& after.above_seg@ == rec.above_seg@.map(
                    |i: int, v: u8|
                        if col <= i < col + width {
                            PARTITION_CTX_ABOVE[bsize as int]
                        } else {
                            v
                        },
                )
                &&& after.left_seg@ == rec.left_seg@.map(
                    |i: int, v: u8|
                        if row % 8 <= i < row % 8 + width {
                            PARTITION_CTX_LEFT[bsize as int]
                        } else {
                            v
                        },
                )
                &&& after == (Reconstructor {
                    above_seg: after.above_seg,
                    left_seg: after.left_seg,
                    ..rec
                })
            },
            Task::Square { row, col, bsize } => {
                let (r, k, s) = (row as int, col as int, bsize as int);
                &&& next == Step::Next
                &&& if row >= rec.mi_rows || col >= rec.mi_cols {
                    left == tasks.drop_first() && after == rec && d == c
                } else {
                    let partition = cut_read(c, rec, r, k, s).0;
                    &&& d == cut_read(c, rec, r, k, s).1
                    &&& left == parts(
                        r,
                        k,
                        s,
                        partition,
                        rec.mi_rows as int,
                        rec.mi_cols as int,
                    ) + leaving(r, k, s, partition) + tasks.drop_first()
                    &&& tallied(
                        rec.counts,
                        after.counts,
                        cut_log(rec, square_ctx(rec, r, k, s), partition),
                    )
                    &&& after == (Reconstructor { counts: after.counts, ..rec })
                }
            },
        }
    }
}

impl Walk {
    /// Does the first task of the walk.
    pub fn step(&mut self, rec: &mut Reconstructor, b: &mut BoolDecoder) -> (next: Step)
        requires
            old(rec).wf(),
            old(b).wf(),
            old(self).wf(old(rec).mi_rows as int, old(rec).mi_cols as int),
            old(rec).counts.room(1),
        ensures
            final(rec).wf(),
            final(b).wf(),
            final(self).wf(final(rec).mi_rows as int, final(rec).mi_cols as int),
            steps_to(
                old(self)@,
                *old(rec),
                old(b)@,
                next,
                final(self)@,
                *final(rec),
                final(b)@,
            ),
            match next {
                Step::Block { row, col, bsize } => row < final(rec).mi_rows && col < final(rec).mi_cols && bsize < 13,
                _ => true,
            },
    {
        let ghost tasks = self@;
        let (rows, cols): (usize, usize) = (rec.mi_rows, rec.mi_cols);
        let task: Task = match self.take() {
            Some(t) => t,
            None => {
                return Step::Done;
            },
        };
        assert(valid_task(tasks[0], rows as int, cols as int));
        let ghost rest = self@;
        assert forall|i: int| 0 <= i < rest.len() implies valid_task(
            #[trigger] rest[i],
            rows as int,
            cols as int,
        ) by {
            assert(rest[i] == tasks[i + 1]);
        }
        match task {
            Task::Block { row, col, bsize } => Step::Block { row, col, bsize },
            Task::Leave { row, col, bsize, width } => {
                rec.leave_context(row, col, bsize, width);
                Step::Next
            },
            Task::Square { row, col, bsize } => {
                if row < rec.mi_rows && col < rec.mi_cols {
                    let partition: usize = rec.read_cut(b, row, col, bsize);
                    self.cut(row, col, bsize, partition, rows, cols);
                }
                Step::Next
            },
        }
    }
}

/// The cells that a task covers, clipped to the frame: those of the block, or of the
/// square; a context covers none.
pub open spec fn covers(t: Task, r: int, c: int, rows: int, cols: int) -> bool {
    match t {
        Task::Square { row, col, bsize } => {
            &&& row <= r < row + square_width(bsize as int) && r < rows
            &&& col <= c < col + square_width(bsize as int) && c < cols
        },
        Task::Block { row, col, bsize } => {
            let k = block_rect(bsize as int, row as int, col as int, rows, cols);
            k.row <= r < k.row + k.h && k.col <= c < k.col + k.w
        },
        Task::Leave { .. } => false,
    }
}

/// How many of the tasks cover a cell.
pub open spec fn cover_count(ts: Seq<Task>, r: int, c: int, rows: int, cols: int) -> int
    decreases ts.len(),
{
    if ts.len() == 0 {
        0
    } else {
        cover_count(ts.drop_last(), r, c, rows, cols) + (if covers(ts.last(), r, c, rows, cols) {
            1int
        } else {
            0
        })
    }
}

/// Cutting a square neither loses nor doubles a cell: its parts cover each cell of the
/// square that lies in the frame exactly once, and no other cell. Where a half lies
/// outside the frame, the cut is one that can be coded there.
pub proof fn law_parts_tile_square(
    row: int,
    col: int,
    bsize: int,
    partition: int,
    rows: int,
    cols: int,
    r: int,
    c: int,
)
    requires
        0 <= row < rows <= 8192,
        0 <= col < cols <= 8192,
        is_square(bsize),
        0 <= partition < 4,
        row + square_width(bsize) / 2 >= rows ==> partition == 1 || partition == 3 || bsize == 3,
        col + square_width(bsize) / 2 >= cols ==> partition == 2 || partition == 3 || bsize == 3,
    ensures
        cover_count(parts(row, col, bsize, partition, rows, cols), r, c, rows, cols) == (if covers(
            (Task::Square { row: row as usize, col: col as usize, bsize: bsize as usize }),
            r,
            c,
            rows,
            cols,
        ) {
            1int
        } else {
            0
        }),
{
    lemma_subsizes(partition, bsize);
    let ps = parts(row, col, bsize, partition, rows, cols);
    reveal_with_fuel(cover_count, 5);
    if ps.len() == 1 {
        assert(ps.drop_last() =~= Seq::empty());
    } else if ps.len() == 2 {
        assert(ps.drop_last() =~= seq![ps[0]]);
        assert(seq![ps[0]].drop_last() =~= Seq::empty());
    } else {
        assert(ps.drop_last() =~= seq![ps[0], ps[1], ps[2]]);
        assert(seq![ps[0], ps[1], ps[2]].drop_last() =~= seq![ps[0], ps[1]]);
        assert(seq![ps[0], ps[1]].drop_last() =~= seq![ps[0]]);
        assert(seq![ps[0]].drop_last() =~= Seq::empty());
    }
}

/// A square is as wide and as high as a block of its size; its level counts the halvings to
/// the least; and the context that it leaves spans its width, whatever it is cut into.
pub proof fn law_contexts_span_their_square(row: int, col: int, bsize: int, partition: int)
    requires
        is_square(bsize),
        0 <= partition < 4,
    ensures
        square_width(bsize) == BLOCK_MI_WIDTH[bsize],
        square_width(bsize) == BLOCK_MI_HEIGHT[bsize],
        square_level(bsize) == 0 <==> bsize == 3,
        square_level(bsize) > 0 ==> square_width(bsize) == 2 * square_width(bsize - 3)
            && square_level(bsize) == square_level(bsize - 3) + 1,
        leaving(row, col, bsize, partition).len() == (if bsize > 3 && partition == 3 {
            0int
        } else {
            1
        }),
        forall|i: int|
            0 <= i < leaving(row, col, bsize, partition).len() ==> #[trigger] leaving(
                row,
                col,
                bsize,
                partition,
            )[i] is Leave && leaving(row, col, bsize, partition)[i]->Leave_width
                == BLOCK_MI_WIDTH[bsize],
{
}

} // verus!
