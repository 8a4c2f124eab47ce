//! How far predictions are off: a block is predicted tile by tile, and each tile is
//! compared with the source.
use vstd::arithmetic::div_mod::lemma_div_basics;
use vstd::prelude::*;

use crate::encode::pixels::{lemma_sum1_bound, lemma_sum1_part, sum1, sum2, Picture};
use crate::encode::scoring::{
    block_tiles, bounded, lemma_tiles_fit, part_sad, pred_diff, pred_square, sad_step, tile_count, tile_sad,
    tiles_of, upscale, upscaled, window_sse,
};
use crate::mv::abs;

verus! {

/// What a predictor says of the tile at a place.
pub open spec fn prediction<F: Fn(usize, usize) -> [u16; 64]>(f: F, at: (usize, usize)) -> Seq<
    u16,
> {
    (choose|r: [u16; 64]| call_ensures(f, at, r))@
}

/// A predictor can be asked about all tiles, and answers the same each time.
pub open spec fn predicts<F: Fn(usize, usize) -> [u16; 64]>(
    f: F,
    tiles: Seq<(usize, usize)>,
) -> bool {
    &&& forall|i: int| 0 <= i < tiles.len() ==> call_requires(f, #[trigger] tiles[i])
    &&& forall|i: int, r: [u16; 64]|
        0 <= i < tiles.len() && #[trigger] call_ensures(f, tiles[i], r) ==> r@ == prediction(
            f,
            tiles[i],
        )
}

/// The absolute differences of a tile and of its prediction, added up.
pub open spec fn tile_off(src: Picture, at: (usize, usize), pred: Seq<u16>) -> int {
    sum2(|y: int, x: int| abs(pred_diff(src, at.0 as int, at.1 as int, pred, 0, 8)(y, x)), 8, 8)
}

/// The squared differences of a tile and of its prediction, added up.
pub open spec fn tile_error(src: Picture, at: (usize, usize), pred: Seq<u16>) -> int {
    sum2(pred_square(src, at.0 as int, at.1 as int, pred, 0, 8), 8, 8)
}

/// The absolute differences of each tile.
pub open spec fn tiles_off<F: Fn(usize, usize) -> [u16; 64]>(
    src: Picture,
    f: F,
    tiles: Seq<(usize, usize)>,
) -> spec_fn(int) -> int {
    |i: int| tile_off(src, tiles[i], prediction(f, tiles[i]))
}

/// The squared differences of each tile.
pub open spec fn tile_errors<F: Fn(usize, usize) -> [u16; 64]>(
    src: Picture,
    f: F,
    tiles: Seq<(usize, usize)>,
) -> spec_fn(int) -> int {
    |i: int| tile_error(src, tiles[i], prediction(f, tiles[i]))
}

/// Sums of terms that are not negative are not negative.
proof fn lemma_sum2_positive(f: spec_fn(int, int) -> int)
    requires
        forall|y: int, x: int| 0 <= y < 8 && 0 <= x < 8 ==> 0 <= #[trigger] f(y, x),
    ensures
        0 <= sum2(f, 8, 8),
{
    let rows = |y: int| sum1(|x: int| f(y, x), 8);
    assert forall|y: int| 0 <= y < 8 implies 0 <= #[trigger] rows(y) by {
        let row = |x: int| f(y, x);
        assert forall|x: int| 0 <= x < 8 implies 0 <= #[trigger] row(x) by {
            assert(0 <= f(y, x));
        }
        lemma_sum1_part(row, 0, 8);
    }
    lemma_sum1_part(rows, 0, 8);
}

/// How far a tile is off is not negative, by absolute differences and by squares.
proof fn lemma_tile_positive(src: Picture, at: (usize, usize), pred: Seq<u16>)
    ensures
        0 <= tile_off(src, at, pred),
        0 <= tile_error(src, at, pred),
{
    let (x0, y0) = (at.0 as int, at.1 as int);
    lemma_sum2_positive(|y: int, x: int| abs(pred_diff(src, x0, y0, pred, 0, 8)(y, x)));
    let g = pred_square(src, x0, y0, pred, 0, 8);
    assert forall|y: int, x: int| 0 <= y < 8 && 0 <= x < 8 implies 0 <= #[trigger] g(y, x) by {
        let d = pred_diff(src, x0, y0, pred, 0, 8)(y, x);
        assert(0 <= d * d) by (nonlinear_arith);
    }
    lemma_sum2_positive(g);
}

/// The tiles of a block lie in the plane, and there are not too many of them.
proof fn lemma_block_tiles(src: Picture, base_x: int, base_y: int, tw: int, th: int, step: int)
    requires
        src.wf(),
        0 <= base_x <= 0x20000,
        0 <= base_y <= 0x20000,
        1 <= tw <= 8,
        1 <= th <= 8,
        1 <= step <= 2,
    ensures
        ({
            let t = tiles_of(base_x, base_y, tw, th, step, src.w as int, src.h as int);
            &&& t.len() <= 64
            &&& forall|k: int|
                0 <= k < t.len() ==> (#[trigger] t[k]).0 + 8 <= src.w && t[k].1 + 8 <= src.h
        }),
{
    let (nw, nh) = (tile_count(tw, step), tile_count(th, step));
    if step == 1 {
        lemma_div_basics(tw);
        lemma_div_basics(th);
    }
    assert(step == 2 ==> nw == (tw + 1) / 2 && nh == (th + 1) / 2);
    assert(1 <= nw <= 8 && 1 <= nh <= 8);
    assert(0 <= nh * nw <= 64) by (nonlinear_arith)
        requires
            1 <= nw <= 8,
            1 <= nh <= 8,
    ;
    assert(nh * nw <= 64 * nw) by (nonlinear_arith)
        requires
            1 <= nw,
            nh <= 8,
    ;
    lemma_tiles_fit(
        base_x,
        base_y,
        nw,
        step,
        src.w as int,
        src.h as int,
        (nh * nw) as nat,
    );
}

/// How far the prediction of a block of `tw` by `th` tiles is off, by absolute
/// differences: of the tiles of blocks over 16x16 every other one in each direction is
/// looked at. `i64::MAX` where it is over `bound`.
pub fn predicted_sad_sized<F: Fn(usize, usize) -> [u16; 64]>(
    src: &Picture,
    base_x: usize,
    base_y: usize,
    tw: usize,
    th: usize,
    bound: i64,
    f: F,
) -> (sad: i64)
    requires
        src.wf(),
        base_x <= 0x20000,
        base_y <= 0x20000,
        1 <= tw <= 8,
        1 <= th <= 8,
        bound >= 0,
        predicts(
            f,
            tiles_of(
                base_x as int,
                base_y as int,
                tw as int,
                th as int,
                sad_step(tw as int, th as int),
                src.w as int,
                src.h as int,
            ),
        ),
    ensures
        ({
            let tiles = tiles_of(
                base_x as int,
                base_y as int,
                tw as int,
                th as int,
                sad_step(tw as int, th as int),
                src.w as int,
                src.h as int,
            );
            sad == bounded(sum1(tiles_off(*src, f, tiles), tiles.len()), bound as int)
        }),
        sad >= 0,
{
    let step: usize = if tw > 2 || th > 2 {
        2
    } else {
        1
    };
    let tiles: Vec<(usize, usize)> = block_tiles(base_x, base_y, tw, th, step, src.w, src.h);
    let ghost terms = tiles_off(*src, f, tiles@);
    proof {
        lemma_block_tiles(*src, base_x as int, base_y as int, tw as int, th as int, step as int);
        assert forall|i: int| 0 <= i < tiles@.len() implies 0 <= #[trigger] terms(i) by {
            lemma_tile_positive(*src, tiles@[i], prediction(f, tiles@[i]));
        }
    }
    let n: usize = tiles.len();
    let mut sad: i64 = 0;
    let mut i: usize = 0;
    while i < n
        invariant
            i <= n <= 64,
            n == tiles@.len(),
            src.wf(),
            predicts(f, tiles@),
            forall|k: int|
                0 <= k < n ==> (#[trigger] tiles@[k]).0 + 8 <= src.w && tiles@[k].1 + 8 <= src.h,
            terms == tiles_off(*src, f, tiles@),
            tiles@ == tiles_of(
                base_x as int,
                base_y as int,
                tw as int,
                th as int,
                sad_step(tw as int, th as int),
                src.w as int,
                src.h as int,
            ),
            forall|i: int| 0 <= i < n ==> 0 <= #[trigger] terms(i),
            sad == sum1(terms, i as nat),
            0 <= sad <= i * 4194240,
            sad <= bound,
        decreases n - i,
    {
        let at: (usize, usize) = tiles[i];
        let pred: [u16; 64] = f(at.0, at.1);
        assert(call_ensures(f, tiles@[i as int], pred));
        let d: i64 = tile_sad(src, at.0, at.1, &pred);
        assert(terms(i as int) == d);
        sad = sad + d;
        i += 1;
        if sad > bound {
            proof {
                lemma_sum1_part(terms, i as nat, n as nat);
            }
            return i64::MAX;
        }
    }
    sad
}

/// Every other tile is looked at where that is asked for and there are several.
pub open spec fn sse_step(fast: bool, tw: int, th: int) -> int {
    if fast && (tw > 1 || th > 1) {
        2
    } else {
        1
    }
}

/// The squared error of the prediction of a block, brought to the size of all its tiles
/// where only some are looked at; `i64::MAX` where that of the tiles is over `bound`.
pub open spec fn block_error<F: Fn(usize, usize) -> [u16; 64]>(
    src: Picture,
    base_x: int,
    base_y: int,
    tw: int,
    th: int,
    fast: bool,
    bound: int,
    f: F,
) -> int {
    let (w, h) = (src.w as int, src.h as int);
    let tiles = tiles_of(base_x, base_y, tw, th, sse_step(fast, tw, th), w, h);
    let all = tiles_of(base_x, base_y, tw, th, 1, w, h).len();
    let total = sum1(tile_errors(src, f, tiles), tiles.len());
    if total > bound {
        i64::MAX as int
    } else {
        upscaled(total, tiles.len() as int, all as int)
    }
}

/// The squared error of the prediction of a block of `tw` by `th` tiles. With `fast` every
/// other tile in each direction is looked at, and the error is brought to the size of all
/// tiles. `i64::MAX` where the error of the tiles is over `bound`.
pub fn pred_sse<F: Fn(usize, usize) -> [u16; 64]>(
    src: &Picture,
    base_x: usize,
    base_y: usize,
    tw: usize,
    th: usize,
    fast: bool,
    bound: i64,
    f: F,
) -> (sse: i64)
    requires
        src.wf(),
        base_x <= 0x20000,
        base_y <= 0x20000,
        1 <= tw <= 8,
        1 <= th <= 8,
        bound >= 0,
        predicts(
            f,
            tiles_of(
                base_x as int,
                base_y as int,
                tw as int,
                th as int,
                sse_step(fast, tw as int, th as int),
                src.w as int,
                src.h as int,
            ),
        ),
    ensures
        sse == block_error(
            *src,
            base_x as int,
            base_y as int,
            tw as int,
            th as int,
            fast,
            bound as int,
            f,
        ),
        sse >= 0,
{
    let step: usize = if fast && (tw > 1 || th > 1) {
        2
    } else {
        1
    };
    let tiles: Vec<(usize, usize)> = block_tiles(base_x, base_y, tw, th, step, src.w, src.h);
    let all: usize = block_tiles(base_x, base_y, tw, th, 1, src.w, src.h).len();
    let ghost terms = tile_errors(*src, f, tiles@);
    proof {
        lemma_block_tiles(*src, base_x as int, base_y as int, tw as int, th as int, step as int);
        lemma_block_tiles(*src, base_x as int, base_y as int, tw as int, th as int, 1);
        assert forall|i: int| 0 <= i < tiles@.len() implies 0 <= #[trigger] terms(i) by {
            lemma_tile_positive(*src, tiles@[i], prediction(f, tiles@[i]));
        }
    }
    let n: usize = tiles.len();
    let mut sse: i64 = 0;
    let mut i: usize = 0;
    while i < n
        invariant
            i <= n <= 64,
            n == tiles@.len(),
            src.wf(),
            predicts(f, tiles@),
            forall|k: int|
                0 <= k < n ==> (#[trigger] tiles@[k]).0 + 8 <= src.w && tiles@[k].1 + 8 <= src.h,
            terms == tile_errors(*src, f, tiles@),
            tiles@ == tiles_of(
                base_x as int,
                base_y as int,
                tw as int,
                th as int,
                sse_step(fast, tw as int, th as int),
                src.w as int,
                src.h as int,
            ),
            forall|i: int| 0 <= i < n ==> 0 <= #[trigger] terms(i),
            sse == sum1(terms, i as nat),
            0 <= sse <= i * 0x40_0000_0000,
            sse <= bound,
        decreases n - i,
    {
        let at: (usize, usize) = tiles[i];
        let pred: [u16; 64] = f(at.0, at.1);
        assert(call_ensures(f, tiles@[i as int], pred));
        proof {
            assert(src.stride * (at.1 + 8) <= src.stride * src.h) by (nonlinear_arith)
                requires
                    at.1 + 8 <= src.h,
            ;
            assert(terms(i as int) == tile_error(*src, at, pred@));
            lemma_error_bound(*src, at, pred@);
        }
        let p: &[u16] = &pred;
        let d: u64 = window_sse(src, at.0, at.1, p, 0, 8, 8, 8);
        sse = sse + d as i64;
        i += 1;
        if sse > bound {
            proof {
                lemma_sum1_part(terms, i as nat, n as nat);
            }
            return i64::MAX;
        }
    }
    proof {
        assert(0 <= sse <= 0x1000_0000_0000);
        if n > 0 && all > n {
            let (a, b) = (sse as int, all as int);
            assert(0 <= (a * b) / (n as int)) by (nonlinear_arith)
                requires
                    0 <= a,
                    0 <= b,
                    n > 0,
            ;
        }
    }
    upscale(sse, n, all)
}

/// The squared error of a tile is not too large.
proof fn lemma_error_bound(src: Picture, at: (usize, usize), pred: Seq<u16>)
    ensures
        tile_error(src, at, pred) <= 0x40_0000_0000,
{
    let f = pred_square(src, at.0 as int, at.1 as int, pred, 0, 8);
    let rows = |y: int| sum1(|x: int| f(y, x), 8);
    assert forall|y: int| 0 <= y < 8 implies 0 <= #[trigger] rows(y) <= 0x8_0000_0000 by {
        let row = |x: int| f(y, x);
        assert forall|x: int| 0 <= x < 8 implies 0 <= #[trigger] row(x) <= 0x1_0000_0000 by {
            let d = pred_diff(src, at.0 as int, at.1 as int, pred, 0, 8)(y, x);
            assert(0 <= d * d <= 0x1_0000_0000) by (nonlinear_arith)
                requires
                    -65535 <= d <= 65535,
            ;
        }
        lemma_sum1_bound(row, 8, 0x1_0000_0000);
    }
    lemma_sum1_bound(rows, 8, 0x8_0000_0000);
}

// ---------------------------------------------------------------------------
// Intra modes
// ---------------------------------------------------------------------------

/// The intra modes that are tried, in order: without direction, down, across, and along
/// the gradient.
pub const INTRA_TRIALS: [u8; 4] = [0, 1, 2, 9];

/// What a predictor says of a 4x4 part in a mode.
pub open spec fn intra_prediction<F: Fn(u8) -> [u16; 16]>(f: F, mode: u8) -> Seq<u16> {
    (choose|r: [u16; 16]| #[trigger] call_ensures(f, (mode,), r))@
}

/// A predictor can be asked about the modes that are tried, and answers the same each
/// time.
pub open spec fn predicts_intra<F: Fn(u8) -> [u16; 16]>(f: F) -> bool {
    &&& forall|i: int| 0 <= i < 4 ==> call_requires(f, (#[trigger] INTRA_TRIALS[i],))
    &&& forall|i: int, r: [u16; 16]|
        0 <= i < 4 && #[trigger] call_ensures(f, (INTRA_TRIALS[i],), r) ==> r@
            == intra_prediction(f, INTRA_TRIALS[i])
}

/// How far the prediction in the `i`th mode is off.
pub open spec fn intra_off<F: Fn(u8) -> [u16; 16]>(
    src: Picture,
    x0: int,
    y0: int,
    f: F,
    i: int,
) -> int {
    let pred = intra_prediction(f, INTRA_TRIALS[i]);
    sum2(|y: int, x: int| abs(pred_diff(src, x0, y0, pred, 0, 4)(y, x)), 4, 4)
}

/// Picks the intra mode whose prediction of a 4x4 part is off least, the first of several.
pub fn best_intra_mode<F: Fn(u8) -> [u16; 16]>(src: &Picture, x0: usize, y0: usize, f: F) -> (mode:
    u8)
    requires
        src.wf(),
        x0 + 4 <= src.stride,
        src.stride * (y0 + 4) <= src.buf@.len(),
        predicts_intra(f),
    ensures
        exists|k: int|
            {
                &&& 0 <= k < 4
                &&& mode == #[trigger] INTRA_TRIALS[k]
                &&& forall|i: int|
                    0 <= i < 4 ==> intra_off(*src, x0 as int, y0 as int, f, k) <= #[trigger]
                        intra_off(*src, x0 as int, y0 as int, f, i)
                &&& forall|i: int|
                    0 <= i < k ==> intra_off(*src, x0 as int, y0 as int, f, k) < #[trigger]
                        intra_off(*src, x0 as int, y0 as int, f, i)
            },
{
    let ghost off = |i: int| intra_off(*src, x0 as int, y0 as int, f, i);
    let first: [u16; 16] = f(INTRA_TRIALS[0]);
    let mut best: usize = 0;
    let mut least: i64 = part_sad(src, x0, y0, &first);
    assert(call_ensures(f, (INTRA_TRIALS[0],), first));
    let mut i: usize = 1;
    while i < 4
        invariant
            1 <= i <= 4,
            best < i,
            src.wf(),
            x0 + 4 <= src.stride,
            src.stride * (y0 + 4) <= src.buf@.len(),
            predicts_intra(f),
            off == (|i: int| intra_off(*src, x0 as int, y0 as int, f, i)),
            least == off(best as int),
            forall|k: int| 0 <= k < i ==> least <= #[trigger] off(k),
            forall|k: int| 0 <= k < best ==> least < #[trigger] off(k),
        decreases 4 - i,
    {
        let mode: u8 = INTRA_TRIALS[i];
        let pred: [u16; 16] = f(mode);
        let sad: i64 = part_sad(src, x0, y0, &pred);
        assert(call_ensures(f, (INTRA_TRIALS[i as int],), pred));
        assert(sad == off(i as int));
        if sad < least {
            least = sad;
            best = i;
        }
        i += 1;
    }
    proof {
        assert forall|i: int| 0 <= i < 4 implies off(best as int) <= #[trigger] intra_off(
            *src,
            x0 as int,
            y0 as int,
            f,
            i,
        ) by {
            assert(least <= off(i));
        }
        assert forall|i: int| 0 <= i < best implies off(best as int) < #[trigger] intra_off(
            *src,
            x0 as int,
            y0 as int,
            f,
            i,
        ) by {
            assert(least < off(i));
        }
    }
    INTRA_TRIALS[best]
}

/// A sum of which one term alone is not zero is that term.
proof fn lemma_one_term(f: spec_fn(int) -> int, n: nat, k: int)
    requires
        0 <= k < n,
        forall|i: int| 0 <= i < n && i != k ==> #[trigger] f(i) == 0,
    ensures
        sum1(f, n) == f(k),
    decreases n,
{
    if k < n - 1 {
        lemma_one_term(f, (n - 1) as nat, k);
        assert(f(n - 1) == 0);
    } else {
        lemma_no_terms(f, (n - 1) as nat);
    }
}

/// A sum of zeros is zero.
proof fn lemma_no_terms(f: spec_fn(int) -> int, n: nat)
    requires
        forall|i: int| 0 <= i < n ==> #[trigger] f(i) == 0,
    ensures
        sum1(f, n) == 0,
    decreases n,
{
    if n > 0 {
        lemma_no_terms(f, (n - 1) as nat);
        assert(f(n - 1) == 0);
    }
}

/// A sum over rows and columns of which one term alone is not zero is that term.
proof fn lemma_one_cell(f: spec_fn(int, int) -> int, n: nat, y: int, x: int)
    requires
        0 <= y < n,
        0 <= x < n,
        forall|i: int, j: int|
            0 <= i < n && 0 <= j < n && (i != y || j != x) ==> #[trigger] f(i, j) == 0,
    ensures
        sum2(f, n, n) == f(y, x),
{
    let rows = |i: int| sum1(|j: int| f(i, j), n);
    assert forall|i: int| 0 <= i < n && i != y implies #[trigger] rows(i) == 0 by {
        lemma_no_terms(|j: int| f(i, j), n);
    }
    lemma_one_term(rows, n, y);
    lemma_one_term(|j: int| f(y, j), n, x);
}

/// The prediction of a square of `n` by `n` samples at `x0`, `y0`, row by row, is right but
/// for the sample at `x`, `y`, which is `off` too small.
pub open spec fn off_in_one_sample(
    src: Picture,
    x0: int,
    y0: int,
    pred: Seq<u16>,
    n: int,
    y: int,
    x: int,
    off: int,
) -> bool {
    forall|i: int, j: int|
        0 <= i < n && 0 <= j < n ==> #[trigger] src.at(y0 + i, x0 + j) == pred[i * n + j] + (if i
            == y && j == x {
            off
        } else {
            0
        })
}

/// A prediction that is wrong in one sample alone is off by what that sample is: in
/// magnitude, or squared.
pub proof fn law_tiles_are_off_by_their_samples(
    src: Picture,
    at: (usize, usize),
    pred: Seq<u16>,
    y: int,
    x: int,
    off: int,
)
    requires
        0 <= y < 8,
        0 <= x < 8,
        off_in_one_sample(src, at.0 as int, at.1 as int, pred, 8, y, x, off),
    ensures
        tile_off(src, at, pred) == abs(off),
        tile_error(src, at, pred) == off * off,
{
    let d = pred_diff(src, at.0 as int, at.1 as int, pred, 0, 8);
    let m = |i: int, j: int| abs(d(i, j));
    let q = pred_square(src, at.0 as int, at.1 as int, pred, 0, 8);
    assert forall|i: int, j: int| 0 <= i < 8 && 0 <= j < 8 implies {
        &&& #[trigger] d(i, j) == (if i == y && j == x {
            off
        } else {
            0
        })
    } by {
        assert(src.at(at.1 + i, at.0 + j) == src.at(at.1 as int + i, at.0 as int + j));
    }
    assert forall|i: int, j: int| 0 <= i < 8 && 0 <= j < 8 && (i != y || j != x) implies #[trigger] m(
        i,
        j,
    ) == 0 by {
        assert(d(i, j) == 0);
    }
    assert forall|i: int, j: int| 0 <= i < 8 && 0 <= j < 8 && (i != y || j != x) implies #[trigger] q(
        i,
        j,
    ) == 0 by {
        assert(d(i, j) == 0);
    }
    assert(d(y, x) == off);
    lemma_one_cell(m, 8, y, x);
    lemma_one_cell(q, 8, y, x);
}

/// A part that is predicted wrong in one sample alone is off by what that sample is.
pub proof fn law_parts_are_off_by_their_samples<F: Fn(u8) -> [u16; 16]>(
    src: Picture,
    x0: int,
    y0: int,
    f: F,
    i: int,
    y: int,
    x: int,
    off: int,
)
    requires
        0 <= y < 4,
        0 <= x < 4,
        off_in_one_sample(src, x0, y0, intra_prediction(f, INTRA_TRIALS[i]), 4, y, x, off),
    ensures
        intra_off(src, x0, y0, f, i) == abs(off),
{
    let d = pred_diff(src, x0, y0, intra_prediction(f, INTRA_TRIALS[i]), 0, 4);
    let m = |i: int, j: int| abs(d(i, j));
    assert forall|i: int, j: int| 0 <= i < 4 && 0 <= j < 4 implies {
        &&& #[trigger] d(i, j) == (if i == y && j == x {
            off
        } else {
            0
        })
    } by {
        assert(src.at(y0 + i, x0 + j) == src.at(y0 + i, x0 + j));
    }
    assert forall|i: int, j: int| 0 <= i < 4 && 0 <= j < 4 && (i != y || j != x) implies #[trigger] m(
        i,
        j,
    ) == 0 by {
        assert(d(i, j) == 0);
    }
    assert(d(y, x) == off);
    lemma_one_cell(m, 4, y, x);
}

/// A block of which all tiles are looked at has the error of its tiles; one of which some
/// are, on average that of those; and what is over the bound is given up.
pub proof fn law_errors_are_brought_to_size<F: Fn(usize, usize) -> [u16; 64]>(
    src: Picture,
    base_x: int,
    base_y: int,
    tw: int,
    th: int,
    fast: bool,
    bound: int,
    f: F,
)
    requires
        1 <= tw <= 8,
        1 <= th <= 8,
    ensures
        ({
            let step = if fast && (tw >= 2 || th >= 2) {
                2int
            } else {
                1
            };
            let seen = tiles_of(base_x, base_y, tw, th, step, src.w as int, src.h as int);
            let all = tiles_of(base_x, base_y, tw, th, 1, src.w as int, src.h as int);
            let total = sum1(tile_errors(src, f, seen), seen.len());
            let r = block_error(src, base_x, base_y, tw, th, fast, bound, f);
            &&& total > bound ==> r == i64::MAX
            &&& total <= bound && step == 1 ==> r == total
            &&& total <= bound && 0 < seen.len() < all.len() ==> r == (total * all.len())
                / seen.len() as int
        }),
{
}

} // verus!
