//! Inter prediction: which parts of the references predict a block.
use vstd::arithmetic::div_mod::*;
use vstd::arithmetic::mul::*;
use vstd::prelude::*;

use crate::adapt::clamped;
use crate::block::{ModeInfo, Mv, BLOCK_8X8};
use crate::decode::modeinfo::valid_mi;
use crate::decode::plane::{halve, halved};
use crate::decode::reconstructor::{Reconstructor, BLOCK_MI_HEIGHT, BLOCK_MI_WIDTH};
use crate::mv::abs;

verus! {

/// The largest component of a motion vector that prediction is defined for.
pub const MV_LIMIT: i32 = 0x0800_0000;

/// The components of a vector are within bounds.
pub open spec fn small(mv: Mv) -> bool {
    &&& -MV_LIMIT <= mv.0 <= MV_LIMIT
    &&& -MV_LIMIT <= mv.1 <= MV_LIMIT
}

/// The distances of the left, right, upper and lower edge of a block to those of the
/// frame, in eighths of pixels; those to the left and up are negative.
pub open spec fn edges(bsize: int, row: int, col: int, rows: int, cols: int) -> (
    int,
    int,
    int,
    int,
) {
    (
        -64 * col,
        64 * (cols - BLOCK_MI_WIDTH[bsize] - col),
        -64 * row,
        64 * (rows - BLOCK_MI_HEIGHT[bsize] - row),
    )
}

/// The distances of the edges of a block to those of the frame.
pub fn block_edges(
    bsize: usize,
    mi_row: usize,
    mi_col: usize,
    mi_rows: usize,
    mi_cols: usize,
) -> (r: (i32, i32, i32, i32))
    requires
        bsize < 13,
        mi_row < mi_rows <= 8192,
        mi_col < mi_cols <= 8192,
    ensures
        (r.0 as int, r.1 as int, r.2 as int, r.3 as int) == edges(
            bsize as int,
            mi_row as int,
            mi_col as int,
            mi_rows as int,
            mi_cols as int,
        ),
        -0x100000 <= r.0 <= 0 && -448 <= r.1 <= 0x100000,
        -0x100000 <= r.2 <= 0 && -448 <= r.3 <= 0x100000,
{
    let bw8: usize = BLOCK_MI_WIDTH[bsize];
    let bh8: usize = BLOCK_MI_HEIGHT[bsize];
    let left: i32 = -(mi_col as i32 * 64);
    let right: i32 = (mi_cols as i32 - bw8 as i32 - mi_col as i32) * 64;
    let top: i32 = -(mi_row as i32 * 64);
    let bottom: i32 = (mi_rows as i32 - bh8 as i32 - mi_row as i32) * 64;
    (left, right, top, bottom)
}

/// A component of a vector in sixteenths of a plane's pixels, clamped so that a block
/// of `size` pixels lies no more than four pixels outside the frame, between `low` and
/// `high`.
pub open spec fn umv_clamped(v: int, size: int, ss: int, low: int, high: int) -> int {
    let scale = 2 - ss;
    clamped(scale * v, scale * low - 16 * (4 + size), scale * high + 16 * (4 + size) - 16)
}

/// Scales a component to sixteenths of a plane's pixels and clamps it.
fn clamp_component(v: i32, size: i32, ss: usize, low: i32, high: i32) -> (r: i32)
    requires
        -MV_LIMIT <= v <= MV_LIMIT,
        0 <= size <= 128,
        ss <= 1,
        -0x100000 <= low <= 0,
        -0x100000 <= high <= 0x100000,
    ensures
        r == umv_clamped(v as int, size as int, ss as int, low as int, high as int),
{
    let scale: i32 = if ss == 0 {
        2
    } else {
        1
    };
    let reach: i32 = (4 + size) * 16;
    let x: i32 = v * scale;
    let lo: i32 = low * scale - reach;
    let hi: i32 = high * scale + (reach - 16);
    if x < lo {
        lo
    } else if x > hi {
        hi
    } else {
        x
    }
}

/// Scales a motion vector to sixteenths of a plane's pixels, and clamps it so that the
/// reference is read at most a little outside the frame.
pub fn clamp_mv_umv(
    mv: Mv,
    bw: i32,
    bh: i32,
    ss_x: usize,
    ss_y: usize,
    edges: (i32, i32, i32, i32),
) -> (r: Mv)
    requires
        small(mv),
        0 <= bw <= 128,
        0 <= bh <= 128,
        ss_x <= 1,
        ss_y <= 1,
        -0x100000 <= edges.0 <= 0 && -0x100000 <= edges.1 <= 0x100000,
        -0x100000 <= edges.2 <= 0 && -0x100000 <= edges.3 <= 0x100000,
    ensures
        r.0 == umv_clamped(mv.0 as int, bh as int, ss_y as int, edges.2 as int, edges.3 as int),
        r.1 == umv_clamped(mv.1 as int, bw as int, ss_x as int, edges.0 as int, edges.1 as int),
{
    (
        clamp_component(mv.0, bh, ss_y, edges.2, edges.3),
        clamp_component(mv.1, bw, ss_x, edges.0, edges.1),
    )
}

/// `v` divided by `n`, an even number, to the nearest integer, halves away from zero.
pub open spec fn rounded(v: int, n: int) -> int {
    if v < 0 {
        -((-v + n / 2) / n)
    } else {
        (v + n / 2) / n
    }
}

/// Half of `v`, rounded.
pub fn round_q2(v: i32) -> (r: i32)
    requires
        i32::MIN < v < i32::MAX,
    ensures
        r == rounded(v as int, 2),
{
    if v < 0 {
        (-((-(v as i64) + 1) / 2)) as i32
    } else {
        (v + 1) / 2
    }
}

/// A quarter of `v`, rounded.
pub fn round_q4(v: i32) -> (r: i32)
    requires
        i32::MIN + 2 <= v <= i32::MAX - 2,
    ensures
        r == rounded(v as int, 4),
{
    if v < 0 {
        (-((-(v as i64) + 2) / 4)) as i32
    } else {
        (v + 2) / 4
    }
}

/// The blocks whose vectors predict part `block` of a block below 8x8 in a plane.
pub open spec fn split_of(block: int, ss_x: int, ss_y: int) -> Seq<int> {
    if ss_x == 0 && ss_y == 0 {
        seq![block]
    } else if ss_x == 0 {
        seq![block, block + 2]
    } else if ss_y == 0 {
        seq![block, block + 1]
    } else {
        seq![0, 1, 2, 3]
    }
}

/// The sum of the rows of the vectors of `blocks`.
pub open spec fn row_sum(m: ModeInfo, r: int, blocks: Seq<int>) -> int
    decreases blocks.len(),
{
    if blocks.len() == 0 {
        0
    } else {
        row_sum(m, r, blocks.drop_last()) + m.bmi_mv[blocks.last()][r].0
    }
}

/// The sum of the columns of the vectors of `blocks`.
pub open spec fn col_sum(m: ModeInfo, r: int, blocks: Seq<int>) -> int
    decreases blocks.len(),
{
    if blocks.len() == 0 {
        0
    } else {
        col_sum(m, r, blocks.drop_last()) + m.bmi_mv[blocks.last()][r].1
    }
}

/// The mean of the vectors of `blocks`, rounded; that of one is itself.
pub open spec fn mean_mv(m: ModeInfo, r: int, blocks: Seq<int>) -> (int, int) {
    let n = blocks.len() as int;
    if n == 1 {
        (m.bmi_mv[blocks[0]][r].0 as int, m.bmi_mv[blocks[0]][r].1 as int)
    } else {
        (rounded(row_sum(m, r, blocks), n), rounded(col_sum(m, r, blocks), n))
    }
}

/// The motion vector of part `block` of a block below 8x8 in a plane.
pub fn average_split_mvs(m: &ModeInfo, r: usize, block: usize, ss_x: usize, ss_y: usize) -> (mv: Mv)
    requires
        r < 2,
        ss_x <= 1,
        ss_y <= 1,
        ss_x == 0 && ss_y == 0 ==> block < 4,
        ss_x == 0 && ss_y == 1 ==> block < 2,
        ss_x == 1 && ss_y == 0 ==> block < 3,
        forall|k: int| 0 <= k < 4 ==> small(#[trigger] m.bmi_mv[k][r as int]),
    ensures
        (mv.0 as int, mv.1 as int) == mean_mv(
            *m,
            r as int,
            split_of(block as int, ss_x as int, ss_y as int),
        ),
        small(mv),
{
    proof {
        reveal_with_fuel(row_sum, 5);
        reveal_with_fuel(col_sum, 5);
        let s = split_of(block as int, ss_x as int, ss_y as int);
        if ss_x == 1 && ss_y == 1 {
            assert(s.drop_last() =~= seq![0int, 1, 2]);
            assert(seq![0int, 1, 2].drop_last() =~= seq![0int, 1]);
            assert(seq![0int, 1].drop_last() =~= seq![0int]);
            assert(seq![0int].drop_last() =~= Seq::empty());
        } else if ss_x + ss_y == 1 {
            assert(s.drop_last() =~= seq![s[0]]);
            assert(seq![s[0]].drop_last() =~= Seq::empty());
        }
    }
    if ss_x == 0 && ss_y == 0 {
        m.bmi_mv[block][r]
    } else if ss_x == 0 || ss_y == 0 {
        let second: usize = if ss_x == 0 {
            block + 2
        } else {
            block + 1
        };
        let (a, b): (Mv, Mv) = (m.bmi_mv[block][r], m.bmi_mv[second][r]);
        assert(small(a) && small(b));
        (round_q2(a.0 + b.0), round_q2(a.1 + b.1))
    } else {
        let (a, b): (Mv, Mv) = (m.bmi_mv[0][r], m.bmi_mv[1][r]);
        let (c, d): (Mv, Mv) = (m.bmi_mv[2][r], m.bmi_mv[3][r]);
        assert(small(a) && small(b) && small(c) && small(d));
        (round_q4(a.0 + b.0 + c.0 + d.0), round_q4(a.1 + b.1 + c.1 + d.1))
    }
}

/// A rectangle of a plane that is predicted from one reference.
#[derive(Clone, Copy, Debug, PartialEq, Eq)]
pub struct Patch {
    /// The first or the second reference of the block. The second prediction is averaged
    /// with the first.
    pub second: bool,
    pub mv: Mv,
    pub x: usize,
    pub y: usize,
    pub w: usize,
    pub h: usize,
}

/// The rectangles that one reference predicts in a block of `w` by `h` units of four
/// pixels at `x`, `y`: the block as a whole, or below 8x8 each 4x4 part.
pub open spec fn patches_of(
    m: ModeInfo,
    r: int,
    x: int,
    y: int,
    w: int,
    h: int,
    ss_x: int,
    ss_y: int,
) -> Seq<Patch> {
    if m.sb_type < BLOCK_8X8 {
        Seq::new(
            (h * w) as nat,
            |i: int|
                {
                    let mv = mean_mv(m, r, split_of(i, ss_x, ss_y));
                    Patch {
                        second: r == 1,
                        mv: (mv.0 as i32, mv.1 as i32),
                        x: (x + 4 * (i % w)) as usize,
                        y: (y + 4 * (i / w)) as usize,
                        w: 4,
                        h: 4,
                    }
                },
        )
    } else {
        seq![
            Patch {
                second: r == 1,
                mv: m.mv[r],
                x: x as usize,
                y: y as usize,
                w: (4 * w) as usize,
                h: (4 * h) as usize,
            },
        ]
    }
}

/// All rectangles of the block with mode information `m` in a plane.
pub open spec fn patches(m: ModeInfo, row: int, col: int, ss_x: int, ss_y: int) -> Seq<Patch> {
    let x = halved(8 * col, ss_x);
    let y = halved(8 * row, ss_y);
    let w = halved(2 * BLOCK_MI_WIDTH[m.sb_type as int], ss_x);
    let h = halved(2 * BLOCK_MI_HEIGHT[m.sb_type as int], ss_y);
    let first = patches_of(m, 0, x, y, w, h, ss_x, ss_y);
    if m.compound() {
        first + patches_of(m, 1, x, y, w, h, ss_x, ss_y)
    } else {
        first
    }
}

/// The vectors of a block are within bounds.
pub open spec fn small_vectors(m: ModeInfo) -> bool {
    &&& forall|r: int| 0 <= r < 2 ==> small(#[trigger] m.mv[r])
    &&& forall|k: int, r: int| 0 <= k < 4 && 0 <= r < 2 ==> small(#[trigger] m.bmi_mv[k][r])
}

/// Appends the rectangles that one reference predicts.
fn push_patches(
    out: &mut Vec<Patch>,
    m: &ModeInfo,
    r: usize,
    x: usize,
    y: usize,
    w: usize,
    h: usize,
    ss_x: usize,
    ss_y: usize,
)
    requires
        r < 2,
        ss_x <= 1,
        ss_y <= 1,
        small_vectors(*m),
        x <= 0x10000,
        y <= 0x10000,
        1 <= w <= 16,
        1 <= h <= 16,
        m.sb_type < BLOCK_8X8 ==> w == 2 - ss_x && h == 2 - ss_y,
    ensures
        final(out)@ == old(out)@ + patches_of(
            *m,
            r as int,
            x as int,
            y as int,
            w as int,
            h as int,
            ss_x as int,
            ss_y as int,
        ),
{
    let ghost start = out@;
    let ghost all = patches_of(
        *m,
        r as int,
        x as int,
        y as int,
        w as int,
        h as int,
        ss_x as int,
        ss_y as int,
    );
    let second: bool = r == 1;
    if (m.sb_type as usize) < BLOCK_8X8 {
        assert(w * h == (if w == 1 {
            h as int
        } else {
            2 * h
        })) by (nonlinear_arith)
            requires
                w == 1 || w == 2,
        ;
        let n: usize = w * h;
        let mut i: usize = 0;
        while i < n
            invariant
                i <= n,
                n == w * h,
                n <= 4,
                r < 2,
                second == (r == 1),
                ss_x <= 1,
                ss_y <= 1,
                small_vectors(*m),
                x <= 0x10000,
                y <= 0x10000,
                m.sb_type < BLOCK_8X8,
                w == 2 - ss_x,
                h == 2 - ss_y,
                all == patches_of(
                    *m,
                    r as int,
                    x as int,
                    y as int,
                    w as int,
                    h as int,
                    ss_x as int,
                    ss_y as int,
                ),
                out@ =~= start + all.take(i as int),
            decreases n - i,
        {
            proof {
                lemma_mul_is_commutative(w as int, h as int);
                assert(n == if w == 1 {
                    h as int
                } else {
                    2 * h
                }) by (nonlinear_arith)
                    requires
                        w == 1 || w == 2,
                        n == w * h,
                ;
                assert(all.len() == n);
                assert(all.take(i + 1) =~= all.take(i as int).push(all[i as int]));
                if w == 1 {
                    assert(i / w == i && i % w == 0) by (nonlinear_arith)
                        requires
                            w == 1,
                    ;
                } else {
                    assert(i / w == i / 2 && i % w == i % 2);
                }
            }
            let mv: Mv = average_split_mvs(m, r, i, ss_x, ss_y);
            out.push(Patch { second, mv, x: x + 4 * (i % w), y: y + 4 * (i / w), w: 4, h: 4 });
            i += 1;
        }
        proof {
            lemma_mul_is_commutative(w as int, h as int);
            assert(all.take(n as int) =~= all);
        }
    } else {
        out.push(Patch { second, mv: m.mv[r], x, y, w: 4 * w, h: 4 * h });
        assert(out@ =~= start + all);
    }
}

/// Where a rectangle lies in its reference: the first pixel, the part of a pixel in
/// sixteenths, and the step from pixel to pixel in sixteenths.
#[derive(Clone, Copy, Debug, PartialEq, Eq, Structural)]
pub struct Source {
    pub x: i32,
    pub y: i32,
    pub subpel_x: usize,
    pub subpel_y: usize,
    pub step_x: i32,
    pub step_y: i32,
}

/// A place along one axis of a reference of the same size: `at` moved by `mv`
/// sixteenths of pixels.
pub open spec fn plain_place(at: int, mv: int) -> (int, int) {
    (at + mv / 16, mv % 16)
}

/// The factor between two lengths, in units of 2^-14.
pub open spec fn scale_factor(from: int, to: int) -> int {
    (from * 0x4000) / to
}

/// `v` times a factor in units of 2^-14, rounded down.
pub open spec fn scaled(v: int, factor: int) -> int {
    (v * factor) / 0x4000
}

/// A place along one axis of a reference of another size: `at` and `mv` scaled, with
/// the part of a pixel that scaling the place in the luma plane leaves.
pub open spec fn scaled_place(at: int, mv: int, ss: int, factor: int) -> (int, int) {
    let luma = if ss == 0 {
        at
    } else {
        2 * at
    };
    let moved = scaled(mv, factor) + scaled(16 * luma, factor) % 16;
    (scaled(at, factor) + moved / 16, moved % 16)
}

/// `x` divided by `n`, rounded down.
fn floor_div(x: i64, n: i64) -> (r: i64)
    requires
        0 < n,
        i64::MIN < x,
    ensures
        r == x as int / n as int,
{
    if x >= 0 {
        x / n
    } else {
        let y: i64 = -(x + 1);
        proof {
            let q = y as int / n as int;
            lemma_fundamental_div_mod(y as int, n as int);
            lemma_mod_bound(y as int, n as int);
            lemma_div_pos_is_pos(y as int, n as int);
            lemma_div_nonincreasing(y as int, n as int);
            assert(x == (-q - 1) * n + (n - 1 - y as int % n as int)) by (nonlinear_arith)
                requires
                    y == n * q + y as int % n as int,
                    y == -(x + 1),
            ;
            lemma_fundamental_div_mod_converse(
                x as int,
                n as int,
                -q - 1,
                n - 1 - y as int % n as int,
            );
        }
        -(y / n) - 1
    }
}

/// `v` times `factor`, in units of 2^-14, rounded down.
fn scale(v: i64, factor: i64) -> (r: i64)
    requires
        0 <= factor <= 0x4000_0000,
        -0x100_0000 <= v <= 0x100_0000,
    ensures
        r == scaled(v as int, factor as int),
        v >= 0 ==> r >= 0,
{
    assert(-0x100_0000 * 0x4000_0000 <= v * factor <= 0x100_0000 * 0x4000_0000)
        by (nonlinear_arith)
        requires
            0 <= factor <= 0x4000_0000,
            -0x100_0000 <= v <= 0x100_0000,
    ;
    assert(v >= 0 ==> v * factor >= 0) by (nonlinear_arith)
        requires
            0 <= factor,
    ;
    floor_div(v * factor, 0x4000)
}

/// The place and the step along one axis of a reference, with scaling by `factor`.
fn scaled_axis(at: usize, mv: i32, ss: usize, factor: i64) -> (r: (i32, usize, i32))
    requires
        at <= 0x20000,
        ss <= 1,
        -0x100_0000 <= mv <= 0x100_0000,
        0 <= factor <= 0x4000_0000,
        (32 * at + abs(mv as int) + 16) * factor <= 0x1000_0000_0000,
    ensures
        (r.0 as int, r.1 as int) == scaled_place(at as int, mv as int, ss as int, factor as int),
        r.2 == scaled(16, factor as int),
{
    let luma: i64 = if ss == 0 {
        at as i64
    } else {
        2 * at as i64
    };
    proof {
        let all = 32 * at + abs(mv as int) + 16;
        lemma_scaled_fits(mv as int, all, factor as int);
        lemma_scaled_fits(16 * luma, all, factor as int);
        lemma_scaled_fits(32 * at, all, factor as int);
        lemma_scaled_fits(16, all, factor as int);
        lemma_scaled_part(at as int, factor as int);
    }
    let moved: i64 = scale(mv as i64, factor) + scale(16 * luma, factor) % 16;
    let whole: i64 = floor_div(moved, 16);
    let first: i64 = scale(at as i64, factor);
    let part: i64 = moved - 16 * whole;
    ((first + whole) as i32, part as usize, scale(16, factor) as i32)
}

/// Where a rectangle at `x`, `y` of a plane lies in a reference, when its vector is `mv`
/// in sixteenths of the plane's pixels. `cur` and `reference` are the widths and heights
/// of the luma planes.
pub open spec fn is_source(
    s: Source,
    x: int,
    y: int,
    mv: (int, int),
    ss_x: int,
    ss_y: int,
    cur: (int, int),
    reference: (int, int),
) -> bool {
    let same = cur == reference;
    let ax = if same {
        (plain_place(x, mv.1), 16)
    } else {
        let f = scale_factor(reference.0, cur.0);
        (scaled_place(x, mv.1, ss_x, f), scaled(16, f))
    };
    let ay = if same {
        (plain_place(y, mv.0), 16)
    } else {
        let f = scale_factor(reference.1, cur.1);
        (scaled_place(y, mv.0, ss_y, f), scaled(16, f))
    };
    &&& (s.x as int, s.subpel_x as int) == ax.0
    &&& s.step_x == ax.1
    &&& (s.y as int, s.subpel_y as int) == ay.0
    &&& s.step_y == ay.1
}

/// A number that is no larger than `all` is scaled to at most 2^30, if `all` is.
proof fn lemma_scaled_fits(v: int, all: int, factor: int)
    requires
        -all <= v <= all,
        0 <= factor,
        all * factor <= 0x1000_0000_0000,
    ensures
        -0x4000_0000 <= scaled(v, factor) <= 0x4000_0000,
{
    assert(-0x1000_0000_0000 <= v * factor <= 0x1000_0000_0000) by (nonlinear_arith)
        requires
            -all <= v <= all,
            0 <= factor,
            all * factor <= 0x1000_0000_0000,
    ;
}

/// A place is scaled to no more than a part of 32 times the place.
proof fn lemma_scaled_part(at: int, factor: int)
    requires
        0 <= at,
        0 <= factor,
    ensures
        0 <= 32 * scaled(at, factor) <= scaled(32 * at, factor),
{
    assert(0 <= at * factor && (32 * at) * factor == 32 * (at * factor)) by (nonlinear_arith)
        requires
            0 <= at,
            0 <= factor,
    ;
}

/// The place and the vector along an axis stay within 2^30 pixels when they are brought
/// from a length `to` to a length `from`.
pub open spec fn stays_near(at: int, mv: int, from: int, to: int) -> bool {
    (32 * at + abs(mv) + 16) * from <= 0x4000_0000 * to
}

/// The factor between two lengths, and what it makes of a place and a vector.
proof fn lemma_factor(at: int, mv: int, from: int, to: int)
    requires
        0 <= at,
        0 <= from <= 0x10000,
        0 < to,
        stays_near(at, mv, from, to),
    ensures
        0 <= scale_factor(from, to) <= 0x4000_0000,
        (32 * at + abs(mv) + 16) * scale_factor(from, to) <= 0x1000_0000_0000,
{
    let f = scale_factor(from, to);
    let v = 32 * at + abs(mv) + 16;
    lemma_div_pos_is_pos(from * 0x4000, to);
    lemma_fundamental_div_mod(from * 0x4000, to);
    lemma_mod_bound(from * 0x4000, to);
    assert(f * to <= from * 0x4000) by (nonlinear_arith)
        requires
            from * 0x4000 == to * f + (from * 0x4000) % to,
            0 <= (from * 0x4000) % to,
    ;
    assert(f <= 0x4000_0000) by (nonlinear_arith)
        requires
            f * to <= from * 0x4000,
            from <= 0x10000,
            1 <= to,
            0 <= f,
    ;
    assert(v * f <= 0x1000_0000_0000) by (nonlinear_arith)
        requires
            f * to <= from * 0x4000,
            v * from <= 0x4000_0000 * to,
            0 <= v,
            1 <= to,
    {
        assert(v * (f * to) <= v * (from * 0x4000)) by (nonlinear_arith)
            requires
                f * to <= from * 0x4000,
                0 <= v,
        ;
        assert((v * f) * to == v * (f * to)) by (nonlinear_arith);
        assert(v * (from * 0x4000) == (v * from) * 0x4000) by (nonlinear_arith);
        assert((v * f) * to <= 0x1000_0000_0000 * to);
        assert(v * f <= 0x1000_0000_0000) by (nonlinear_arith)
            requires
                (v * f) * to <= 0x1000_0000_0000 * to,
                1 <= to,
        ;
    }
}

/// Finds where a rectangle lies in its reference, which may be of another size.
pub fn source_of(
    x: usize,
    y: usize,
    mv_q4: Mv,
    ss_x: usize,
    ss_y: usize,
    cur: (usize, usize),
    reference: (usize, usize),
) -> (s: Source)
    requires
        x <= 0x20000,
        y <= 0x20000,
        ss_x <= 1,
        ss_y <= 1,
        -0x100_0000 <= mv_q4.0 <= 0x100_0000,
        -0x100_0000 <= mv_q4.1 <= 0x100_0000,
        0 < cur.0 <= 0x10000 && 0 < cur.1 <= 0x10000,
        reference.0 <= 0x10000 && reference.1 <= 0x10000,
        cur == reference || (stays_near(
            x as int,
            mv_q4.1 as int,
            reference.0 as int,
            cur.0 as int,
        ) && stays_near(y as int, mv_q4.0 as int, reference.1 as int, cur.1 as int)),
    ensures
        is_source(
            s,
            x as int,
            y as int,
            (mv_q4.0 as int, mv_q4.1 as int),
            ss_x as int,
            ss_y as int,
            (cur.0 as int, cur.1 as int),
            (reference.0 as int, reference.1 as int),
        ),
{
    if reference.0 != cur.0 || reference.1 != cur.1 {
        proof {
            lemma_factor(x as int, mv_q4.1 as int, reference.0 as int, cur.0 as int);
            lemma_factor(y as int, mv_q4.0 as int, reference.1 as int, cur.1 as int);
        }
        let fx: i64 = (reference.0 as i64 * 0x4000) / cur.0 as i64;
        let fy: i64 = (reference.1 as i64 * 0x4000) / cur.1 as i64;
        let (sx, px, step_x): (i32, usize, i32) = scaled_axis(x, mv_q4.1, ss_x, fx);
        let (sy, py, step_y): (i32, usize, i32) = scaled_axis(y, mv_q4.0, ss_y, fy);
        Source { x: sx, y: sy, subpel_x: px, subpel_y: py, step_x, step_y }
    } else {
        let wx: i64 = floor_div(mv_q4.1 as i64, 16);
        let wy: i64 = floor_div(mv_q4.0 as i64, 16);
        Source {
            x: (x as i64 + wx) as i32,
            y: (y as i64 + wy) as i32,
            subpel_x: (mv_q4.1 as i64 - 16 * wx) as usize,
            subpel_y: (mv_q4.0 as i64 - 16 * wy) as usize,
            step_x: 16,
            step_y: 16,
        }
    }
}

/// Every rectangle that lies in a frame, with a vector that is clamped to it, stays near
/// when it is brought to a reference, however large that is: `at` is a place in a frame of
/// length `cur`, `v` a vector, `size` the length of its block, and `low` and `high` are the
/// distances of the block to the edges of the frame, in eighths of pixels.
pub proof fn law_blocks_stay_near(
    at: int,
    v: int,
    size: int,
    ss: int,
    low: int,
    high: int,
    cur: int,
    reference: int,
)
    requires
        1 <= cur,
        0 <= reference <= 0x10000,
        0 <= at < cur + 64,
        0 <= size <= 64,
        0 <= ss <= 1,
        -8 * (cur + 8) <= low <= 0,
        -8 * 64 <= high <= 8 * (cur + 8),
    ensures
        stays_near(at, umv_clamped(v, size, ss, low, high), reference, cur),
{
    let mv = umv_clamped(v, size, ss, low, high);
    let all = 32 * at + abs(mv) + 16;
    if ss == 0 {
        assert(mv == clamped(2 * v, 2 * low - 16 * (4 + size), 2 * high + 16 * (4 + size) - 16));
    } else {
        assert((2 - ss) * low == low && (2 - ss) * high == high && (2 - ss) * v == v)
            by (nonlinear_arith)
            requires
                ss == 1,
        ;
        assert(mv == clamped(v, low - 16 * (4 + size), high + 16 * (4 + size) - 16));
    }
    assert(0 <= all <= 48 * cur + 4000);
    assert(all * reference <= (48 * cur + 4000) * 0x10000) by (nonlinear_arith)
        requires
            0 <= all <= 48 * cur + 4000,
            0 <= reference <= 0x10000,
    ;
}

/// In a reference of the same size a vector of whole pixels moves a rectangle by just
/// these pixels.
pub proof fn law_whole_pixels_move(at: int, pixels: int)
    ensures
        plain_place(at, 16 * pixels) == (at + pixels, 0int),
{
}

/// A reference of the same size would be scaled by one: a place scaled so is the place
/// itself.
pub proof fn law_scaling_by_one(at: int, mv: int, ss: int, length: int)
    requires
        0 < length,
        0 <= at,
    ensures
        scale_factor(length, length) == 0x4000,
        scaled_place(at, mv, ss, 0x4000) == plain_place(at, mv),
{
    lemma_mul_is_commutative(length, 0x4000);
    lemma_div_multiples_vanish(0x4000, length);
    assert(forall|v: int| #[trigger] scaled(v, 0x4000) == v);
}

/// The rectangles that predict the block with mode information `m` in a plane subsampled
/// by `ss_x` and `ss_y`, in the order in which they are predicted.
pub fn block_patches(m: &ModeInfo, mi_row: usize, mi_col: usize, ss_x: usize, ss_y: usize) -> (r:
    Vec<Patch>)
    requires
        m.sb_type < 13,
        small_vectors(*m),
        mi_row < 8192,
        mi_col < 8192,
        ss_x <= 1,
        ss_y <= 1,
    ensures
        r@ == patches(*m, mi_row as int, mi_col as int, ss_x as int, ss_y as int),
{
    let bsize: usize = m.sb_type as usize;
    let x: usize = halve(8 * mi_col, ss_x);
    let y: usize = halve(8 * mi_row, ss_y);
    let w: usize = halve(2 * BLOCK_MI_WIDTH[bsize], ss_x);
    let h: usize = halve(2 * BLOCK_MI_HEIGHT[bsize], ss_y);
    let mut out: Vec<Patch> = Vec::new();
    push_patches(&mut out, m, 0, x, y, w, h, ss_x, ss_y);
    let ghost first = out@;
    assert(first =~= patches_of(
        *m,
        0,
        x as int,
        y as int,
        w as int,
        h as int,
        ss_x as int,
        ss_y as int,
    ));
    if m.has_second_ref() {
        push_patches(&mut out, m, 1, x, y, w, h, ss_x, ss_y);
    }
    out
}

impl Reconstructor {
    /// The rectangles that predict the block with mode information `m` in a plane, in
    /// the order in which they are predicted.
    pub fn inter_patches(&self, m: &ModeInfo, plane: usize, mi_row: usize, mi_col: usize) -> (r:
        Vec<Patch>)
        requires
            self.wf(),
            valid_mi(*m),
            small_vectors(*m),
            plane < 3,
            mi_row < self.mi_rows,
            mi_col < self.mi_cols,
        ensures
            r@ == patches(
                *m,
                mi_row as int,
                mi_col as int,
                self.ss(plane as int).0,
                self.ss(plane as int).1,
            ),
    {
        let (ss_x, ss_y): (usize, usize) = if plane == 0 {
            (0, 0)
        } else {
            (self.ss_x, self.ss_y)
        };
        block_patches(m, mi_row, mi_col, ss_x, ss_y)
    }
}

/// The mean of equal vectors is that vector, and the mean of two or four lies between the
/// least and the greatest of them.
pub proof fn law_mean_is_between(v: int, n: int, sum: int, least: int, most: int)
    requires
        n == 2 || n == 4,
        n * least <= sum <= n * most,
    ensures
        least <= rounded(sum, n) <= most,
        rounded(n * v, n) == v,
{
    if n == 2 {
        assert(n * least == 2 * least && n * most == 2 * most && n * v == 2 * v);
    } else {
        assert(n * least == 4 * least && n * most == 4 * most && n * v == 4 * v);
    }
}

/// A mean is rounded to the nearest, halves away from zero, and alike for both signs.
pub proof fn law_rounding_is_symmetric(v: int, n: int)
    requires
        n == 2 || n == 4,
    ensures
        rounded(-v, n) == -rounded(v, n),
        v >= 0 ==> n * rounded(v, n) - n / 2 <= v < n * rounded(v, n) + n / 2,
{
    if n == 2 {
        assert(n * rounded(v, n) == 2 * rounded(v, n));
    } else {
        assert(n * rounded(v, n) == 4 * rounded(v, n));
    }
}

/// In a plane that is not subsampled each part of a block below 8x8 has its own vector; in
/// one that is halved both ways the block has the mean of all four, in one that is halved
/// across or down that of the two parts side by side or over each other.
pub proof fn law_parts_mean_by_subsampling(m: ModeInfo, r: int, k: int)
    requires
        0 <= r < 2,
        0 <= k < 4,
    ensures
        mean_mv(m, r, split_of(k, 0, 0)) == (
            m.bmi_mv[k][r].0 as int,
            m.bmi_mv[k][r].1 as int,
        ),
        mean_mv(m, r, split_of(k, 1, 1)) == (
            rounded(
                m.bmi_mv[0][r].0 + m.bmi_mv[1][r].0 + m.bmi_mv[2][r].0 + m.bmi_mv[3][r].0,
                4,
            ),
            rounded(
                m.bmi_mv[0][r].1 + m.bmi_mv[1][r].1 + m.bmi_mv[2][r].1 + m.bmi_mv[3][r].1,
                4,
            ),
        ),
        k < 2 ==> mean_mv(m, r, split_of(k, 0, 1)) == (
            rounded(m.bmi_mv[k][r].0 + m.bmi_mv[k + 2][r].0, 2),
            rounded(m.bmi_mv[k][r].1 + m.bmi_mv[k + 2][r].1, 2),
        ),
        k < 3 ==> mean_mv(m, r, split_of(k, 1, 0)) == (
            rounded(m.bmi_mv[k][r].0 + m.bmi_mv[k + 1][r].0, 2),
            rounded(m.bmi_mv[k][r].1 + m.bmi_mv[k + 1][r].1, 2),
        ),
{
    reveal_with_fuel(row_sum, 5);
    reveal_with_fuel(col_sum, 5);
    let four = split_of(k, 1, 1);
    assert(four.drop_last() =~= seq![0int, 1, 2]);
    assert(seq![0int, 1, 2].drop_last() =~= seq![0int, 1]);
    assert(seq![0int, 1].drop_last() =~= seq![0int]);
    assert(seq![0int].drop_last() =~= Seq::empty());
    let down = split_of(k, 0, 1);
    let across = split_of(k, 1, 0);
    assert(down.drop_last() =~= seq![k]);
    assert(across.drop_last() =~= seq![k]);
    assert(seq![k].drop_last() =~= Seq::empty());
}

/// A vector that keeps its block within reach of the frame is only brought to sixteenths,
/// and one that does not is moved back to the edge of that reach: to where the block lies
/// four pixels and its own size outside.
pub proof fn law_clamping_keeps_near_vectors(v: int, size: int, low: int, high: int)
    requires
        0 <= size <= 64,
        low <= 0,
        low <= high,
    ensures
        8 * (4 + size) - 8 + high >= v >= low - 8 * (4 + size) ==> umv_clamped(
            v,
            size,
            0,
            low,
            high,
        ) == 2 * v,
        v < low - 8 * (4 + size) ==> umv_clamped(v, size, 0, low, high) == 2 * low - 16 * (4
            + size),
        v > high + 8 * (4 + size) - 8 ==> umv_clamped(v, size, 0, low, high) == 2 * high + 16 * (4
            + size) - 16,
        low - 16 * (4 + size) <= v <= high + 16 * (4 + size) - 16 ==> umv_clamped(
            v,
            size,
            1,
            low,
            high,
        ) == v,
        v < low - 16 * (4 + size) ==> umv_clamped(v, size, 1, low, high) == low - 16 * (4 + size),
        v > high + 16 * (4 + size) - 16 ==> umv_clamped(v, size, 1, low, high) == high + 16 * (4
            + size) - 16,
{
    assert((2 - 0) * v == 2 * v && (2 - 0) * low == 2 * low && (2 - 0) * high == 2 * high);
    assert((2 - 1) * v == v && (2 - 1) * low == low && (2 - 1) * high == high);
}

/// A block that touches an edge of the frame is at distance zero from it, and each unit of
/// eight pixels between them is 64 eighths. Those to the left and above are negative.
pub proof fn law_edges_measure_distance(bsize: int, row: int, col: int, rows: int, cols: int)
    requires
        0 <= bsize < 13,
    ensures
        ({
            let e = edges(bsize, row, col, rows, cols);
            let f = edges(bsize, row + 1, col + 1, rows + 1, cols + 1);
            &&& col == 0 <==> e.0 == 0
            &&& row == 0 <==> e.2 == 0
            &&& col + BLOCK_MI_WIDTH[bsize] == cols <==> e.1 == 0
            &&& row + BLOCK_MI_HEIGHT[bsize] == rows <==> e.3 == 0
            &&& f.0 == e.0 - 64 && f.2 == e.2 - 64 && f.1 == e.1 && f.3 == e.3
            &&& e.1 - e.0 == 64 * (cols - BLOCK_MI_WIDTH[bsize])
            &&& e.3 - e.2 == 64 * (rows - BLOCK_MI_HEIGHT[bsize])
        }),
{
}

/// The rectangles of one reference: a block from 8x8 on is one, with the vector of that
/// reference; one below 8x8 has one of four by four pixels for each unit, row by row.
pub proof fn law_patches_cover_their_block(
    m: ModeInfo,
    r: int,
    x: int,
    y: int,
    w: int,
    h: int,
    ss_x: int,
    ss_y: int,
    i: int,
    j: int,
)
    requires
        0 <= r < 2,
        0 <= x <= 0x20000,
        0 <= y <= 0x20000,
        1 <= w <= 16,
        1 <= h <= 16,
        m.sb_type < 3 ==> w <= 2 && h <= 2,
        0 <= i < h,
        0 <= j < w,
    ensures
        ({
            let ps = patches_of(m, r, x, y, w, h, ss_x, ss_y);
            &&& m.sb_type >= 3 ==> ps.len() == 1 && ps[0].mv == m.mv[r] && ps[0].x == x && ps[0].y
                == y && ps[0].w == 4 * w && ps[0].h == 4 * h && ps[0].second == (r == 1)
            &&& m.sb_type < 3 ==> {
                let p = ps[i * w + j];
                let mv = mean_mv(m, r, split_of(i * w + j, ss_x, ss_y));
                &&& ps.len() == h * w
                &&& 0 <= i * w + j < ps.len()
                &&& p.x == x + 4 * j && p.y == y + 4 * i && p.w == 4 && p.h == 4
                &&& p.mv == (mv.0 as i32, mv.1 as i32)
                &&& p.second == (r == 1)
            }
        }),
{
    lemma_fundamental_div_mod_converse(i * w + j, w, i, j);
    assert(0 <= i * w + j < h * w) by (nonlinear_arith)
        requires
            0 <= i < h,
            0 <= j < w,
    ;
}

/// A block with two references is predicted from the first, then from the second, with the
/// same rectangles.
pub proof fn law_two_references_cover_alike(m: ModeInfo, row: int, col: int, ss_x: int, ss_y: int)
    ensures
        ({
            let one = ModeInfo { ref_frame: [m.ref_frame[0], -1i8], ..m };
            let ps = patches(m, row, col, ss_x, ss_y);
            let first = patches(one, row, col, ss_x, ss_y);
            &&& m.ref_frame[1] <= 0 ==> ps.len() == first.len()
            &&& m.ref_frame[1] > 0 ==> ps.len() == 2 * first.len()
        }),
{
}

/// A reference twice as long is scaled by two: a place in it lies twice as far, and the
/// step from pixel to pixel is two pixels. Of half the length, likewise half.
pub proof fn law_scaling_by_two(at: int, mv: int, length: int)
    requires
        0 < length,
        0 <= at,
    ensures
        scale_factor(2 * length, length) == 0x8000,
        scale_factor(length, 2 * length) == 0x2000,
        scaled(16, 0x8000) == 32,
        scaled(16, 0x2000) == 8,
        scaled_place(at, 16 * mv, 0, 0x8000) == (2 * at + 2 * mv, 0int),
        scaled_place(2 * at, 32 * mv, 0, 0x2000) == (at + mv, 0int),
{
    assert((2 * length) * 0x4000 == 0x8000 * length);
    lemma_div_multiples_vanish(0x8000, length);
    lemma_mul_is_commutative(0x8000, length);
    assert(length * 0x4000 == 0x2000 * (2 * length));
    lemma_div_multiples_vanish(0x2000, 2 * length);
    lemma_mul_is_commutative(0x2000, 2 * length);
    assert(forall|v: int| #[trigger] scaled(v, 0x8000) == 2 * v);
    assert(forall|v: int| #[trigger] scaled(2 * v, 0x2000) == v);
    assert(scaled(2 * at, 0x2000) == at);
    assert(scaled(2 * (16 * mv), 0x2000) == 16 * mv);
    assert(scaled(2 * (16 * at), 0x2000) == 16 * at);
}

} // verus!
