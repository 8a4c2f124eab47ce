//! The tour over a frame: tile by tile, in each of them 64x64 block by 64x64 block, and
//! in each of those along its partition.
//!
//! Reading a block comes between the steps of the tour, so each step is a call of its
//! own. It says which block is to be read next, if it has come to one.
use vstd::arithmetic::div_mod::*;
use vstd::arithmetic::mul::*;
use vstd::arithmetic::power2::*;
use vstd::prelude::*;
use vstd::slice::slice_subrange;

use crate::bits::BoolDecoder;
use crate::coding;
use crate::coding::Cursor;
use crate::decode::frame::tile_edge;
use crate::decode::partition::{steps_to, Step, Task, Walk};
use crate::decode::reconstructor::Reconstructor;
use crate::decode::tiles::{
    law_tiles_partition, span_at, superblock_count, superblock_places, superblocks, tile_span,
    tile_start,
};
use crate::error::{Error, Result};

verus! {

/// Where a tour is: the tile, how many of its 64x64 blocks it has come to, where the
/// bytes of the next tile begin, and what is left of the partition.
pub struct Place {
    pub tile: int,
    pub begun: int,
    pub off: nat,
    pub tasks: Seq<Task>,
}

/// The shape of a tour: how many rows and columns of tiles there are, as logarithms.
pub struct Shape {
    pub rows_log2: nat,
    pub cols_log2: nat,
}

impl Shape {
    /// The number of tiles.
    pub open spec fn tiles(self) -> int {
        (pow2(self.rows_log2) * pow2(self.cols_log2)) as int
    }

    /// The row of tiles that a tile stands in.
    pub open spec fn row_of(self, tile: int) -> int {
        tile / (pow2(self.cols_log2) as int)
    }

    /// The column of tiles that a tile stands in.
    pub open spec fn col_of(self, tile: int) -> int {
        tile % (pow2(self.cols_log2) as int)
    }

    /// The 64x64 blocks of a tile of a frame.
    pub open spec fn places(self, tile: int, rows: int, cols: int) -> Seq<(usize, usize)> {
        superblock_places(
            tile_start(self.row_of(tile), rows, self.rows_log2),
            tile_start(self.row_of(tile) + 1, rows, self.rows_log2),
            tile_start(self.col_of(tile), cols, self.cols_log2),
            tile_start(self.col_of(tile) + 1, cols, self.cols_log2),
        )
    }
}

/// The bytes of the tile at `off`, which must not be empty.
pub open spec fn tile_bytes(d: Seq<u8>, off: nat, last: bool) -> core::result::Result<
    (nat, nat),
    Error,
> {
    match span_at(d, off, last) {
        Ok(span) => if span.0 == span.1 {
            Err(Error::EmptyInput)
        } else {
            Ok(span)
        },
        Err(e) => Err(e),
    }
}

/// `after` is `rec` at the start of a tile: its bounds are known, and at the start of a
/// row of tiles no block above is.
pub open spec fn tile_begun(
    rec: Reconstructor,
    shape: Shape,
    tile: int,
    after: Reconstructor,
) -> bool {
    let (r, c) = (shape.row_of(tile), shape.col_of(tile));
    &&& after.tile_col_start == tile_start(c, rec.mi_cols as int, shape.cols_log2)
    &&& after.tile_col_end == tile_start(c + 1, rec.mi_cols as int, shape.cols_log2)
    &&& if c == 0 {
        &&& after.clear_above()
        &&& after.tile_row_start == tile_start(r, rec.mi_rows as int, shape.rows_log2)
        &&& after == (Reconstructor {
            tile_row_start: after.tile_row_start,
            tile_col_start: after.tile_col_start,
            tile_col_end: after.tile_col_end,
            above_seg: after.above_seg,
            above_ctx: after.above_ctx,
            ..rec
        })
    } else {
        after == (Reconstructor {
            tile_col_start: after.tile_col_start,
            tile_col_end: after.tile_col_end,
            ..rec
        })
    }
}

/// What a step of a tour has come to.
#[derive(Clone, Copy, Debug, PartialEq, Eq, Structural)]
pub enum Stop {
    /// The end of the frame.
    End,
    /// Nothing yet.
    Further,
    /// This block is to be read.
    Block { row: usize, col: usize, bsize: usize },
}

/// The stop that a step along the partition makes.
pub open spec fn stop_of(s: Step) -> Stop {
    match s {
        Step::Block { row, col, bsize } => Stop::Block { row, col, bsize },
        _ => Stop::Further,
    }
}

/// A tour goes from `p` to `q`, with the state of the reader from `rec` and `c` to `after`
/// and `d`, and makes the stop `stop`.
pub open spec fn tours(
    data: Seq<u8>,
    shape: Shape,
    p: Place,
    rec: Reconstructor,
    c: Cursor,
    stop: Stop,
    q: Place,
    after: Reconstructor,
    d: Cursor,
) -> bool {
    let places = shape.places(p.tile, rec.mi_rows as int, rec.mi_cols as int);
    if p.tasks.len() > 0 {
        &&& q == (Place { tasks: q.tasks, ..p })
        &&& exists|next: Step|
            #[trigger] steps_to(p.tasks, rec, c, next, q.tasks, after, d) && stop == stop_of(next)
    } else if p.begun < places.len() {
        let (row, col) = places[p.begun];
        &&& stop == Stop::Further
        &&& q == (Place {
            begun: p.begun + 1,
            tasks: seq![Task::Square { row, col, bsize: 12usize }],
            ..p
        })
        &&& d == c
        &&& if col == rec.tile_col_start {
            &&& after.clear_left()
            &&& after == (Reconstructor {
                left_seg: after.left_seg,
                left_ctx: after.left_ctx,
                ..rec
            })
        } else {
            after == rec
        }
    } else if p.tile + 1 < shape.tiles() {
        let span = tile_bytes(data, p.off, p.tile + 2 == shape.tiles());
        &&& stop == Stop::Further
        &&& span is Ok
        &&& q == (Place { tile: p.tile + 1, begun: 0, off: span.unwrap().1, tasks: Seq::empty() })
        &&& tile_begun(rec, shape, p.tile + 1, after)
        &&& d == coding::opened(data.subrange(span.unwrap().0 as int, span.unwrap().1 as int))
    } else {
        stop == Stop::End && q == p && after == rec && d == c
    }
}

/// A tour over the tiles of a frame.
pub struct Tour<'a> {
    data: &'a [u8],
    off: usize,
    rows_log2: u32,
    cols_log2: u32,
    /// The number of tiles.
    count: usize,
    tile: usize,
    places: Vec<(usize, usize)>,
    begun: usize,
    walk: Walk,
}

impl<'a> Tour<'a> {
    /// The bytes of all tiles.
    pub closed spec fn data(&self) -> Seq<u8> {
        self.data@
    }

    pub closed spec fn shape(&self) -> Shape {
        Shape { rows_log2: self.rows_log2 as nat, cols_log2: self.cols_log2 as nat }
    }

    /// Where the tour is.
    pub closed spec fn view(&self) -> Place {
        Place {
            tile: self.tile as int,
            begun: self.begun as int,
            off: self.off as nat,
            tasks: self.walk@,
        }
    }

    /// The tour is one over the frame of `rec`, and `rec` is in the tile where the tour is.
    pub closed spec fn wf(&self, rec: Reconstructor) -> bool {
        let shape = self.shape();
        let (r, c) = (shape.row_of(self.tile as int), shape.col_of(self.tile as int));
        &&& self.rows_log2 <= 6
        &&& self.cols_log2 <= 6
        &&& self.count == shape.tiles()
        &&& self.count <= 4096
        &&& self.tile < self.count
        &&& self.off <= self.data@.len()
        &&& self.places@ == shape.places(
            self.tile as int,
            rec.mi_rows as int,
            rec.mi_cols as int,
        )
        &&& self.begun <= self.places@.len()
        &&& self.walk.wf(rec.mi_rows as int, rec.mi_cols as int)
        &&& rec.tile_row_start == tile_start(r, rec.mi_rows as int, shape.rows_log2)
        &&& rec.tile_col_start == tile_start(c, rec.mi_cols as int, shape.cols_log2)
        &&& rec.tile_col_end == tile_start(c + 1, rec.mi_cols as int, shape.cols_log2)
    }
}

/// Two to the power of a small number.
fn power(log2: u32) -> (r: usize)
    requires
        log2 <= 6,
    ensures
        r == pow2(log2 as nat),
        1 <= r <= 64,
{
    let mut r: usize = 1;
    let mut k: u32 = 0;
    proof {
        lemma2_to64();
    }
    while k < log2
        invariant
            k <= log2 <= 6,
            r == pow2(k as nat),
        decreases log2 - k,
    {
        proof {
            lemma2_to64();
            lemma_pow2_unfold((k + 1) as nat);
        }
        r = r * 2;
        k += 1;
    }
    proof {
        lemma2_to64();
    }
    r
}

/// The rows and columns of tiles of a tile among `n` columns.
proof fn lemma_tile_place(shape: Shape, tile: int)
    requires
        0 <= tile < shape.tiles(),
    ensures
        0 <= shape.row_of(tile) < pow2(shape.rows_log2),
        0 <= shape.col_of(tile) < pow2(shape.cols_log2),
        tile == shape.row_of(tile) * pow2(shape.cols_log2) + shape.col_of(tile),
{
    let n = pow2(shape.cols_log2) as int;
    let m = pow2(shape.rows_log2) as int;
    lemma_pow2_pos(shape.cols_log2);
    lemma_fundamental_div_mod(tile, n);
    lemma_mod_bound(tile, n);
    lemma_mul_is_commutative(n, tile / n);
    assert(0 <= tile / n < m) by (nonlinear_arith)
        requires
            0 <= tile < m * n,
            tile == (tile / n) * n + tile % n,
            0 <= tile % n < n,
    ;
}

/// Behind a tile that is not the last of its row stands the next one of the same row.
proof fn lemma_next_tile(shape: Shape, tile: int)
    requires
        0 <= tile,
        tile + 1 < shape.tiles(),
        shape.col_of(tile + 1) != 0,
    ensures
        shape.row_of(tile + 1) == shape.row_of(tile),
{
    let n = pow2(shape.cols_log2) as int;
    lemma_tile_place(shape, tile);
    lemma_tile_place(shape, tile + 1);
    let (r, c) = (shape.row_of(tile), shape.col_of(tile));
    let (s, d) = (shape.row_of(tile + 1), shape.col_of(tile + 1));
    if s < r {
        assert(s * n + n <= r * n) by (nonlinear_arith)
            requires
                s + 1 <= r,
                n > 0,
        ;
    } else if s > r {
        assert(r * n + n <= s * n) by (nonlinear_arith)
            requires
                r + 1 <= s,
                n > 0,
        ;
    }
}

/// Begins a tile: sets the bounds of the reader, and opens the bytes of the tile.
fn begin_tile<'a>(
    data: &'a [u8],
    off: usize,
    tile: usize,
    rows_log2: u32,
    cols_log2: u32,
    rec: &mut Reconstructor,
) -> (r: Result<(usize, Vec<(usize, usize)>, BoolDecoder<'a>)>)
    requires
        old(rec).wf(),
        rows_log2 <= 6,
        cols_log2 <= 6,
        off <= data@.len(),
        ({
            let shape = Shape { rows_log2: rows_log2 as nat, cols_log2: cols_log2 as nat };
            &&& tile < shape.tiles()
            &&& shape.tiles() <= 4096
            &&& shape.col_of(tile as int) != 0 ==> old(rec).tile_row_start == tile_start(
                shape.row_of(tile as int),
                old(rec).mi_rows as int,
                shape.rows_log2,
            )
        }),
    ensures
        final(rec).wf(),
        ({
            let shape = Shape { rows_log2: rows_log2 as nat, cols_log2: cols_log2 as nat };
            let span = tile_bytes(data@, off as nat, tile + 1 == shape.tiles());
            &&& tile_begun(*old(rec), shape, tile as int, *final(rec))
            &&& match r {
                Ok((end, places, b)) => {
                    &&& span is Ok
                    &&& end == span.unwrap().1
                    &&& end <= data@.len()
                    &&& places@ == shape.places(
                        tile as int,
                        old(rec).mi_rows as int,
                        old(rec).mi_cols as int,
                    )
                    &&& b.wf()
                    &&& b@ == coding::opened(
                        data@.subrange(span.unwrap().0 as int, span.unwrap().1 as int),
                    )
                },
                Err(e) => span == Err::<(nat, nat), Error>(e),
            }
        }),
{
    let ghost shape = Shape { rows_log2: rows_log2 as nat, cols_log2: cols_log2 as nat };
    let cols: usize = power(cols_log2);
    let rows: usize = power(rows_log2);
    proof {
        lemma_tile_place(shape, tile as int);
        lemma_mul_is_commutative(rows as int, cols as int);
        assert(rows * cols <= 4096) by (nonlinear_arith)
            requires
                rows <= 64,
                cols <= 64,
        ;
    }
    let (tr, tc): (usize, usize) = (tile / cols, tile % cols);
    if tc == 0 {
        rec.begin_tile_row(tr, rows_log2);
    }
    rec.begin_tile(tc, cols_log2);
    let row_end: usize = tile_edge(tr + 1, rec.mi_rows, rows_log2);
    proof {
        law_tiles_partition(rec.mi_rows as int, rows_log2 as nat, tr as int);
        law_tiles_partition(rec.mi_cols as int, cols_log2 as nat, tc as int);
    }
    let (from, to): (usize, usize) = match tile_span(data, off, tile + 1 == rows * cols) {
        Ok(s) => s,
        Err(e) => {
            return Err(e);
        },
    };
    let b: BoolDecoder<'a> = match BoolDecoder::new(slice_subrange(data, from, to)) {
        Ok(b) => b,
        Err(e) => {
            return Err(e);
        },
    };
    let places: Vec<(usize, usize)> = superblocks(
        rec.tile_row_start,
        row_end,
        rec.tile_col_start,
        rec.tile_col_end,
    );
    Ok((to, places, b))
}

/// The 64x64 blocks of a tile stand at multiples of 64 pixels inside the frame.
proof fn lemma_places_aligned(shape: Shape, tile: int, rows: int, cols: int, k: int)
    requires
        0 <= tile < shape.tiles(),
        0 <= rows <= 8192,
        0 <= cols <= 8192,
        0 <= k < shape.places(tile, rows, cols).len(),
    ensures
        ({
            let (r, c) = shape.places(tile, rows, cols)[k];
            r as int % 8 == 0 && c as int % 8 == 0 && r < rows && c < cols
        }),
{
    lemma_tile_place(shape, tile);
    let (tr, tc) = (shape.row_of(tile), shape.col_of(tile));
    law_tiles_partition(rows, shape.rows_log2, tr);
    law_tiles_partition(cols, shape.cols_log2, tc);
    let (r0, r1) = (
        tile_start(tr, rows, shape.rows_log2),
        tile_start(tr + 1, rows, shape.rows_log2),
    );
    let (c0, c1) = (
        tile_start(tc, cols, shape.cols_log2),
        tile_start(tc + 1, cols, shape.cols_log2),
    );
    let n = superblock_count(c0, c1);
    let m = superblock_count(r0, r1);
    assert(n > 0 && m > 0) by {
        if n <= 0 || m <= 0 {
            assert(m * n <= 0) by (nonlinear_arith)
                requires
                    m >= 0,
                    n >= 0,
                    n <= 0 || m <= 0,
            ;
        }
    }
    lemma_fundamental_div_mod(k, n);
    lemma_mod_bound(k, n);
    lemma_mul_is_commutative(n, k / n);
    assert(0 <= k / n < m) by (nonlinear_arith)
        requires
            0 <= k < m * n,
            k == (k / n) * n + k % n,
            0 <= k % n < n,
    ;
}

/// Reading a block leaves the tour where it is: whatever else it changes, the frame and
/// the tile stay the same.
pub proof fn law_reading_keeps_tour(t: Tour, rec: Reconstructor, after: Reconstructor)
    requires
        t.wf(rec),
        after.mi_rows == rec.mi_rows,
        after.mi_cols == rec.mi_cols,
        after.tile_row_start == rec.tile_row_start,
        after.tile_col_start == rec.tile_col_start,
        after.tile_col_end == rec.tile_col_end,
    ensures
        t.wf(after),
{
}

/// A step of a tour leaves the probabilities, the sizes of the frame, the mode information
/// and the segments as they are: all of those come from the header and from blocks alone.
pub proof fn law_tour_keeps_blocks(
    data: Seq<u8>,
    shape: Shape,
    p: Place,
    rec: Reconstructor,
    c: Cursor,
    stop: Stop,
    q: Place,
    after: Reconstructor,
    d: Cursor,
)
    requires
        tours(data, shape, p, rec, c, stop, q, after, d),
    ensures
        after.fc == rec.fc,
        after.mi_rows == rec.mi_rows,
        after.mi_cols == rec.mi_cols,
        after.mi == rec.mi,
        after.cur_seg_map == rec.cur_seg_map,
        after.seg == rec.seg,
{
}

/// A tile holds a cell of a frame of `rows` by `cols` cells.
pub open spec fn tile_holds(
    shape: Shape,
    rows: int,
    cols: int,
    tile: int,
    row: int,
    col: int,
) -> bool {
    let (r, c) = (shape.row_of(tile), shape.col_of(tile));
    &&& tile_start(r, rows, shape.rows_log2) <= row < tile_start(r + 1, rows, shape.rows_log2)
    &&& tile_start(c, cols, shape.cols_log2) <= col < tile_start(c + 1, cols, shape.cols_log2)
}

/// Tiles start in order.
proof fn lemma_tiles_in_order(mis: int, log2: nat, a: int, b: int)
    requires
        mis >= 0,
        0 <= a <= b <= pow2(log2),
    ensures
        tile_start(a, mis, log2) <= tile_start(b, mis, log2),
    decreases b - a,
{
    if a < b {
        lemma_tiles_in_order(mis, log2, a, b - 1);
        law_tiles_partition(mis, log2, b - 1);
    }
}

/// The row or column of tiles that holds `x`, among the first `n`.
proof fn lemma_tile_of(mis: int, log2: nat, x: int, n: int) -> (i: int)
    requires
        0 <= x < mis,
        0 <= n <= pow2(log2),
        x < tile_start(n, mis, log2),
    ensures
        0 <= i < n,
        tile_start(i, mis, log2) <= x < tile_start(i + 1, mis, log2),
    decreases n,
{
    lemma_pow2_pos(log2);
    law_tiles_partition(mis, log2, 0);
    if tile_start(n - 1, mis, log2) <= x {
        n - 1
    } else {
        lemma_tile_of(mis, log2, x, n - 1)
    }
}

/// Every cell of a frame lies in just one tile, so a tour, which comes to all 64x64 blocks
/// of all tiles, comes to every cell just once.
pub proof fn law_cell_in_one_tile(shape: Shape, rows: int, cols: int, row: int, col: int)
    requires
        0 <= row < rows,
        0 <= col < cols,
    ensures
        exists|t: int|
            0 <= t < shape.tiles() && #[trigger] tile_holds(shape, rows, cols, t, row, col),
        forall|t: int, u: int|
            0 <= t < shape.tiles() && 0 <= u < shape.tiles() && #[trigger] tile_holds(
                shape,
                rows,
                cols,
                t,
                row,
                col,
            ) && #[trigger] tile_holds(shape, rows, cols, u, row, col) ==> t == u,
{
    let (m, n) = (pow2(shape.rows_log2) as int, pow2(shape.cols_log2) as int);
    lemma_pow2_pos(shape.rows_log2);
    lemma_pow2_pos(shape.cols_log2);
    law_tiles_partition(rows, shape.rows_log2, 0);
    law_tiles_partition(cols, shape.cols_log2, 0);
    let r = lemma_tile_of(rows, shape.rows_log2, row, m);
    let c = lemma_tile_of(cols, shape.cols_log2, col, n);
    let t = r * n + c;
    lemma_fundamental_div_mod_converse(t, n, r, c);
    assert(0 <= t < m * n) by (nonlinear_arith)
        requires
            0 <= r < m,
            0 <= c < n,
            t == r * n + c,
    ;
    assert(tile_holds(shape, rows, cols, t, row, col));
    assert forall|t: int, u: int|
        0 <= t < shape.tiles() && 0 <= u < shape.tiles() && #[trigger] tile_holds(
            shape,
            rows,
            cols,
            t,
            row,
            col,
        ) && #[trigger] tile_holds(shape, rows, cols, u, row, col) implies t == u by {
        lemma_tile_place(shape, t);
        lemma_tile_place(shape, u);
        lemma_same_strip(
            rows,
            shape.rows_log2,
            row,
            shape.row_of(t),
            shape.row_of(u),
        );
        lemma_same_strip(
            cols,
            shape.cols_log2,
            col,
            shape.col_of(t),
            shape.col_of(u),
        );
    }
}

/// Only one row or column of tiles holds `x`.
proof fn lemma_same_strip(mis: int, log2: nat, x: int, a: int, b: int)
    requires
        mis >= 0,
        0 <= a < pow2(log2),
        0 <= b < pow2(log2),
        tile_start(a, mis, log2) <= x < tile_start(a + 1, mis, log2),
        tile_start(b, mis, log2) <= x < tile_start(b + 1, mis, log2),
    ensures
        a == b,
{
    if a < b {
        lemma_tiles_in_order(mis, log2, a + 1, b);
    } else if b < a {
        lemma_tiles_in_order(mis, log2, b + 1, a);
    }
}

impl<'a> Tour<'a> {
    /// Begins a tour over the tiles in `data`: begins the first tile.
    pub fn begin(data: &'a [u8], rows_log2: u32, cols_log2: u32, rec: &mut Reconstructor) -> (r:
        Result<(Tour<'a>, BoolDecoder<'a>)>)
        requires
            old(rec).wf(),
            rows_log2 <= 6,
            cols_log2 <= 6,
        ensures
            final(rec).wf(),
            ({
                let shape = Shape { rows_log2: rows_log2 as nat, cols_log2: cols_log2 as nat };
                let span = tile_bytes(data@, 0, shape.tiles() == 1);
                match r {
                    Ok((t, b)) => {
                        &&& span is Ok
                        &&& t.wf(*final(rec))
                        &&& t.data() == data@
                        &&& t.shape() == shape
                        &&& t@ == (Place {
                            tile: 0,
                            begun: 0,
                            off: span.unwrap().1,
                            tasks: Seq::empty(),
                        })
                        &&& tile_begun(*old(rec), shape, 0, *final(rec))
                        &&& b.wf()
                        &&& b@ == coding::opened(
                            data@.subrange(span.unwrap().0 as int, span.unwrap().1 as int),
                        )
                    },
                    Err(e) => span == Err::<(nat, nat), Error>(e),
                }
            }),
    {
        let ghost shape = Shape { rows_log2: rows_log2 as nat, cols_log2: cols_log2 as nat };
        let cols: usize = power(cols_log2);
        let rows: usize = power(rows_log2);
        proof {
            assert(1 <= rows * cols <= 4096) by (nonlinear_arith)
                requires
                    1 <= rows <= 64,
                    1 <= cols <= 64,
            ;
            lemma_tile_place(shape, 0);
            lemma_small_mod(0, cols as nat);
        }
        match begin_tile(data, 0, 0, rows_log2, cols_log2, rec) {
            Ok((off, places, b)) => {
                let t: Tour<'a> = Tour {
                    data,
                    off,
                    rows_log2,
                    cols_log2,
                    count: rows * cols,
                    tile: 0,
                    places,
                    begun: 0,
                    walk: Walk::idle(),
                };
                Ok((t, b))
            },
            Err(e) => Err(e),
        }
    }

    /// Takes a step. The block at which the last step stopped must have been read.
    pub fn next(&mut self, rec: &mut Reconstructor, b: &mut BoolDecoder<'a>) -> (r: Result<Stop>)
        requires
            old(self).wf(*old(rec)),
            old(rec).wf(),
            old(b).wf(),
            old(rec).counts.room(1),
        ensures
            final(rec).wf(),
            final(b).wf(),
            match r {
                Ok(stop) => {
                    &&& final(self).wf(*final(rec))
                    &&& final(self).data() == old(self).data()
                    &&& final(self).shape() == old(self).shape()
                    &&& tours(
                        old(self).data(),
                        old(self).shape(),
                        old(self)@,
                        *old(rec),
                        old(b)@,
                        stop,
                        final(self)@,
                        *final(rec),
                        final(b)@,
                    )
                    &&& match stop {
                        Stop::Block { row, col, bsize } => row < final(rec).mi_rows && col
                            < final(rec).mi_cols && bsize < 13,
                        _ => true,
                    }
                },
                Err(e) => {
                    let p = old(self)@;
                    let shape = old(self).shape();
                    &&& p.tasks.len() == 0
                    &&& p.begun >= shape.places(
                        p.tile,
                        old(rec).mi_rows as int,
                        old(rec).mi_cols as int,
                    ).len()
                    &&& p.tile + 1 < shape.tiles()
                    &&& tile_bytes(old(self).data(), p.off, p.tile + 2 == shape.tiles()) == Err::<
                        (nat, nat),
                        Error,
                    >(e)
                },
            },
    {
        let ghost shape = self.shape();
        if self.walk.first().is_some() {
            let next: Step = self.walk.step(rec, b);
            return Ok(
                match next {
                    Step::Block { row, col, bsize } => Stop::Block { row, col, bsize },
                    _ => Stop::Further,
                },
            );
        }
        if self.begun < self.places.len() {
            let (row, col): (usize, usize) = self.places[self.begun];
            proof {
                lemma_places_aligned(
                    shape,
                    self.tile as int,
                    rec.mi_rows as int,
                    rec.mi_cols as int,
                    self.begun as int,
                );
            }
            if col == rec.tile_col_start {
                rec.begin_superblock_row();
            }
            self.begun = self.begun + 1;
            self.walk = Walk::new(row, col);
            return Ok(Stop::Further);
        }
        if self.tile + 1 < self.count {
            let tile: usize = self.tile + 1;
            proof {
                if shape.col_of(tile as int) != 0 {
                    lemma_next_tile(shape, self.tile as int);
                }
            }
            match begin_tile(self.data, self.off, tile, self.rows_log2, self.cols_log2, rec) {
                Ok((off, places, opened)) => {
                    *b = opened;
                    self.off = off;
                    self.tile = tile;
                    self.places = places;
                    self.begun = 0;
                    self.walk = Walk::idle();
                },
                Err(e) => {
                    return Err(e);
                },
            }
            return Ok(Stop::Further);
        }
        Ok(Stop::End)
    }
}

} // verus!
