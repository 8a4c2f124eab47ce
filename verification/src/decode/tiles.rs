//! Tiles: where they lie in a frame, and where their bytes lie in its data.
use vstd::arithmetic::div_mod::*;
use vstd::arithmetic::mul::*;
use vstd::arithmetic::power2::*;
use vstd::prelude::*;

use crate::adapt::min_int;
use crate::coding;
use crate::error::{Error, Result};

verus! {

/// The first row or column, in units of eight pixels, of tile `idx` of `2^log2`
/// tiles over `mis` such units: tiles start at multiples of 64 pixels.
pub open spec fn tile_start(idx: int, mis: int, log2: nat) -> int {
    min_int(8 * ((idx * ((mis + 7) / 8)) / pow2(log2) as int), mis)
}

/// The first row or column of tile `idx`.
pub fn tile_offset(idx: usize, mis: usize, log2: u32) -> (r: usize)
    requires
        log2 < usize::BITS,
        mis + 7 <= usize::MAX,
        idx * ((mis + 7) / 8) <= usize::MAX,
        8 * ((idx * ((mis + 7) / 8)) / pow2(log2 as nat) as int) <= usize::MAX,
    ensures
        r == tile_start(idx as int, mis as int, log2 as nat),
        r <= mis,
{
    let sb_cols: usize = (mis + 7) / 8;
    proof {
        assert(idx * sb_cols >= 0) by (nonlinear_arith);
    }
    let product: usize = idx * sb_cols;
    proof {
        vstd::bits::lemma_usize_shr_is_div(product, log2 as usize);
    }
    let start: usize = (product >> (log2 as usize)) * 8;
    if start < mis {
        start
    } else {
        mis
    }
}

/// Tiles follow one another without gaps, from the first unit of the frame to its
/// last.
pub proof fn law_tiles_partition(mis: int, log2: nat, idx: int)
    requires
        mis >= 0,
        0 <= idx < pow2(log2),
    ensures
        tile_start(0, mis, log2) == 0,
        tile_start(pow2(log2) as int, mis, log2) == mis,
        tile_start(idx, mis, log2) <= tile_start(idx + 1, mis, log2) <= mis,
        tile_start(idx, mis, log2) % 8 == 0 || tile_start(idx, mis, log2) == mis,
{
    let n = pow2(log2) as int;
    let sb = (mis + 7) / 8;
    lemma_pow2_pos(log2);
    assert(0 * sb == 0);
    lemma_basic_div(0, n);
    lemma_mul_is_commutative(n, sb);
    lemma_div_multiples_vanish(sb, n);
    assert(idx * sb <= (idx + 1) * sb) by (nonlinear_arith)
        requires
            sb >= 0,
    ;
    lemma_div_is_ordered(idx * sb, (idx + 1) * sb, n);
}

/// Where the bytes of the tile at `off` lie: behind four bytes of length, or, for the
/// last tile, up to the end.
pub open spec fn span_at(d: Seq<u8>, off: nat, last: bool) -> core::result::Result<
    (nat, nat),
    Error,
> {
    if last {
        Ok((off, d.len()))
    } else if off + 4 > d.len() {
        Err(Error::TileSizeOverrun)
    } else {
        let size = coding::number(d.subrange(off as int, (off + 4) as int));
        if off + 4 + size > d.len() {
            Err(Error::TileDataOverrun)
        } else {
            Ok(((off + 4) as nat, (off + 4 + size) as nat))
        }
    }
}

/// Where the bytes of `n` tiles from `off` on lie.
pub open spec fn spans_from(d: Seq<u8>, off: nat, n: nat) -> core::result::Result<
    Seq<(nat, nat)>,
    Error,
>
    decreases n,
{
    if n == 0 {
        Ok(Seq::empty())
    } else {
        match span_at(d, off, n == 1) {
            Err(e) => Err(e),
            Ok(span) => match spans_from(d, span.1, (n - 1) as nat) {
                Err(e) => Err(e),
                Ok(spans) => Ok(seq![span] + spans),
            },
        }
    }
}

/// Where the bytes of the tile at `off` lie.
pub fn tile_span(data: &[u8], off: usize, last: bool) -> (r: Result<(usize, usize)>)
    requires
        off <= data@.len(),
    ensures
        match r {
            Ok(s) => span_at(data@, off as nat, last) == Ok::<(nat, nat), Error>(
                (s.0 as nat, s.1 as nat),
            ) && s.0 <= s.1 <= data@.len(),
            Err(e) => span_at(data@, off as nat, last) == Err::<(nat, nat), Error>(e),
        },
{
    if last {
        return Ok((off, data.len()));
    }
    if data.len() - off < 4 {
        return Err(Error::TileSizeOverrun);
    }
    let start: usize = off + 4;
    let b0: u32 = data[off] as u32;
    let b1: u32 = data[off + 1] as u32;
    let b2: u32 = data[off + 2] as u32;
    let b3: u32 = data[off + 3] as u32;
    let size: u32 = ((b0 * 256 + b1) * 256 + b2) * 256 + b3;
    proof {
        let s = data@.subrange(off as int, off + 4);
        reveal_with_fuel(coding::number, 5);
        assert(s.drop_last().drop_last().drop_last().drop_last() =~= Seq::empty());
        assert(coding::number(s) == size);
    }
    if (data.len() - start) < size as usize {
        return Err(Error::TileDataOverrun);
    }
    Ok((start, start + size as usize))
}

/// Where the bytes of `n` tiles lie, one after the other from the start of the data.
pub fn split_tiles(data: &[u8], n: usize) -> (r: Result<Vec<(usize, usize)>>)
    ensures
        match r {
            Ok(spans) => spans_from(data@, 0, n as nat) == Ok::<Seq<(nat, nat)>, Error>(
                spans@.map_values(|s: (usize, usize)| (s.0 as nat, s.1 as nat)),
            ),
            Err(e) => spans_from(data@, 0, n as nat) == Err::<Seq<(nat, nat)>, Error>(e),
        },
{
    let mut spans: Vec<(usize, usize)> = Vec::new();
    let mut off: usize = 0;
    let mut left: usize = n;
    let ghost view = |s: (usize, usize)| (s.0 as nat, s.1 as nat);
    assert(spans_from(data@, 0, n as nat) is Ok ==> spans@.map_values(view) + spans_from(
        data@,
        0,
        n as nat,
    ).unwrap() =~= spans_from(data@, 0, n as nat).unwrap());
    while left > 0
        invariant
            left <= n,
            off <= data@.len(),
            view == (|s: (usize, usize)| (s.0 as nat, s.1 as nat)),
            match spans_from(data@, off as nat, left as nat) {
                Ok(rest) => spans_from(data@, 0, n as nat) == Ok::<Seq<(nat, nat)>, Error>(
                    spans@.map_values(view) + rest,
                ),
                Err(e) => spans_from(data@, 0, n as nat) == Err::<Seq<(nat, nat)>, Error>(e),
            },
        decreases left,
    {
        let ghost before = spans@;
        let span: (usize, usize) = match tile_span(data, off, left == 1) {
            Ok(s) => s,
            Err(e) => {
                return Err(e);
            },
        };
        spans.push(span);
        off = span.1;
        left = left - 1;
        proof {
            assert(spans@.map_values(view) =~= before.map_values(view) + seq![view(span)]);
            match spans_from(data@, off as nat, left as nat) {
                Ok(rest) => {
                    assert(before.map_values(view) + (seq![view(span)] + rest)
                        =~= spans@.map_values(view) + rest);
                },
                Err(_) => {},
            }
        }
    }
    assert(spans@.map_values(view) + Seq::<(nat, nat)>::empty() =~= spans@.map_values(view));
    Ok(spans)
}

/// How many 64x64 blocks there are from `from` to `to`, in units of eight pixels.
pub open spec fn superblock_count(from: int, to: int) -> int {
    (to - from + 7) / 8
}

/// The places of the 64x64 blocks of a tile, row by row.
pub open spec fn superblock_places(
    row_start: int,
    row_end: int,
    col_start: int,
    col_end: int,
) -> Seq<(usize, usize)> {
    let n = superblock_count(col_start, col_end);
    Seq::new(
        (superblock_count(row_start, row_end) * n) as nat,
        |k: int| ((row_start + 8 * (k / n)) as usize, (col_start + 8 * (k % n)) as usize),
    )
}

/// Lists the 64x64 blocks of a tile in the order in which they are coded.
pub fn superblocks(row_start: usize, row_end: usize, col_start: usize, col_end: usize) -> (r: Vec<
    (usize, usize),
>)
    requires
        row_start <= row_end <= 8192,
        col_start <= col_end <= 8192,
    ensures
        r@ == superblock_places(
            row_start as int,
            row_end as int,
            col_start as int,
            col_end as int,
        ),
{
    let n: usize = (col_end - col_start + 7) / 8;
    let m: usize = (row_end - row_start + 7) / 8;
    let ghost goal = superblock_places(
        row_start as int,
        row_end as int,
        col_start as int,
        col_end as int,
    );
    let mut out: Vec<(usize, usize)> = Vec::new();
    assert(0 * n == 0);
    let mut i: usize = 0;
    while i < m
        invariant
            i <= m <= 1024,
            n <= 1024,
            row_start <= 8192,
            col_start <= 8192,
            n == superblock_count(col_start as int, col_end as int),
            m == superblock_count(row_start as int, row_end as int),
            goal == superblock_places(
                row_start as int,
                row_end as int,
                col_start as int,
                col_end as int,
            ),
            i * n <= m * n,
            out@ =~= goal.take(i * n),
        decreases m - i,
    {
        assert((i + 1) * n <= m * n && (i + 1) * n == i * n + n && 0 <= i * n) by (nonlinear_arith)
            requires
                i + 1 <= m,
                0 <= n,
        ;
        let mut j: usize = 0;
        while j < n
            invariant
                j <= n <= 1024,
                i < m <= 1024,
                row_start <= 8192,
                col_start <= 8192,
                n == superblock_count(col_start as int, col_end as int),
                m == superblock_count(row_start as int, row_end as int),
                goal == superblock_places(
                    row_start as int,
                    row_end as int,
                    col_start as int,
                    col_end as int,
                ),
                i * n + n <= m * n,
                0 <= i * n,
                out@ =~= goal.take(i * n + j),
            decreases n - j,
        {
            proof {
                let k = i * n + j;
                lemma_fundamental_div_mod_converse(k, n as int, i as int, j as int);
                assert(goal.take(k + 1) =~= goal.take(k).push(goal[k]));
            }
            out.push((row_start + 8 * i, col_start + 8 * j));
            j += 1;
        }
        i += 1;
    }
    assert(goal.take(m * n) =~= goal);
    out
}

/// Each unit of a tile lies in just one of its 64x64 blocks.
pub proof fn law_superblocks_tile(
    row_start: int,
    row_end: int,
    col_start: int,
    col_end: int,
    row: int,
    col: int,
    k: int,
)
    requires
        0 <= row_start <= row < row_end <= 8192,
        0 <= col_start <= col < col_end <= 8192,
        0 <= k < superblock_places(row_start, row_end, col_start, col_end).len(),
    ensures
        ({
            let n = superblock_count(col_start, col_end);
            let own = ((row - row_start) / 8) * n + (col - col_start) / 8;
            let (r, c) = superblock_places(row_start, row_end, col_start, col_end)[k];
            &&& 0 <= own < superblock_places(row_start, row_end, col_start, col_end).len()
            &&& (r <= row < r + 8 && c <= col < c + 8) <==> k == own
        }),
{
    let n = superblock_count(col_start, col_end);
    let m = superblock_count(row_start, row_end);
    let (i, j) = ((row - row_start) / 8, (col - col_start) / 8);
    let own = i * n + j;
    assert(0 <= i < m && 0 <= j < n);
    lemma_fundamental_div_mod_converse(own, n, i, j);
    assert(0 <= own < m * n) by (nonlinear_arith)
        requires
            0 <= i < m,
            0 <= j < n,
            own == i * n + j,
    ;
    lemma_fundamental_div_mod(k, n);
    lemma_mod_bound(k, n);
    let (p, q) = (k / n, k % n);
    lemma_mul_is_commutative(n, p);
    assert(0 <= p < m) by (nonlinear_arith)
        requires
            0 <= k < m * n,
            k == p * n + q,
            0 <= q < n,
    ;
}

} // verus!
