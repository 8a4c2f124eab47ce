//! Decisions over a frame as a whole: how its 64x64 blocks are ranked by their variance,
//! which of them are quantized finer or coarser, and how strongly it is filtered.
use vstd::multiset::Multiset;
use vstd::prelude::*;
use vstd::relations::sorted_by;
use vstd::seq_lib::{lemma_multiset_commutative, lemma_sorted_unique};

use crate::adapt::clamped;

verus! {

/// The probabilities of the tree of two segments.
pub const AQ_TREE_PROBS: [u8; 7] = [255, 255, 255, 128, 255, 255, 255];

/// The median variance up to which a frame is quantized in two segments.
pub const AQ_MAX_VARIANCE: i64 = 8000;

/// Numbers, least first.
pub open spec fn ordered(s: Seq<i64>) -> bool {
    forall|i: int, j: int| 0 <= i <= j < s.len() ==> #[trigger] s[i] <= #[trigger] s[j]
}

/// Sorts numbers, least first.
pub fn sort_values(v: &[i64]) -> (r: Vec<i64>)
    ensures
        ordered(r@),
        r@.to_multiset() == v@.to_multiset(),
        r@.len() == v@.len(),
{
    broadcast use vstd::seq_lib::group_to_multiset_ensures;

    let n: usize = v.len();
    let mut r: Vec<i64> = Vec::new();
    let mut i: usize = 0;
    assert(v@.take(0) =~= Seq::<i64>::empty());
    while i < n
        invariant
            i <= n,
            n == v@.len(),
            r@.len() == i,
            ordered(r@),
            r@.to_multiset() == v@.take(i as int).to_multiset(),
        decreases n - i,
    {
        broadcast use vstd::seq_lib::group_to_multiset_ensures;

        let x: i64 = v[i];
        let mut k: usize = i;
        while k > 0 && x < r[k - 1]
            invariant
                k <= i,
                r@.len() == i,
                ordered(r@),
                forall|a: int| k <= a < i ==> x < #[trigger] r@[a],
            decreases k,
        {
            k -= 1;
        }
        let ghost before = r@;
        r.insert(k, x);
        proof {
            assert(v@.take(i + 1) =~= v@.take(i as int).push(x));
            before.insert_ensures(k as int, x);
            assert forall|a: int, b: int| 0 <= a <= b < r@.len() implies #[trigger] r@[a]
                <= #[trigger] r@[b] by {
                let p = if a < k {
                    a
                } else {
                    a - 1
                };
                let q = if b < k {
                    b
                } else {
                    b - 1
                };
                if a != k {
                    assert(r@[a] == before[p]);
                }
                if b != k {
                    assert(r@[b] == before[q]);
                }
                if a == k && b != k {
                    assert(x < before[q]);
                } else if b == k && a != k {
                    assert(before[p] <= before[k - 1]);
                }
            }
        }
        i += 1;
    }
    assert(v@.take(n as int) =~= v@);
    r
}

/// The segments of the 64x64 blocks of a frame: 1 for those that vary more than the
/// median, 0 for the others.
pub open spec fn segments_of(vars: Seq<i64>, median: i64) -> Seq<u8> {
    vars.map_values(
        |v: i64|
            if v > median {
                1u8
            } else {
                0u8
            },
    )
}

/// `s` holds the numbers `v`, least first.
pub open spec fn sorted_from(v: Seq<i64>, s: Seq<i64>) -> bool {
    ordered(s) && s.to_multiset() == v.to_multiset() && s.len() == v.len()
}

/// `m` is the upper median of `v`: the number in the middle once they are sorted.
pub open spec fn is_median(v: Seq<i64>, m: i64) -> bool {
    exists|s: Seq<i64>| #[trigger] sorted_from(v, s) && m == s[(v.len() / 2) as int]
}

/// There is one way to sort numbers.
pub proof fn law_sorted_is_one(v: Seq<i64>, s: Seq<i64>, t: Seq<i64>)
    requires
        sorted_from(v, s),
        sorted_from(v, t),
    ensures
        s == t,
{
    let leq = |a: i64, b: i64| a <= b;
    assert(sorted_by(s, leq));
    assert(sorted_by(t, leq));
    lemma_sorted_unique(s, t, leq);
}

/// Numbers have one median.
pub proof fn law_median_is_one(v: Seq<i64>, a: i64, b: i64)
    requires
        is_median(v, a),
        is_median(v, b),
    ensures
        a == b,
{
    let s = choose|s: Seq<i64>| #[trigger] sorted_from(v, s) && a == s[(v.len() / 2) as int];
    let t = choose|t: Seq<i64>| #[trigger] sorted_from(v, t) && b == t[(v.len() / 2) as int];
    law_sorted_is_one(v, s, t);
}

/// The upper median of some numbers: that in the middle once they are sorted.
pub fn median(vars: &[i64]) -> (m: i64)
    requires
        vars@.len() > 0,
    ensures
        is_median(vars@, m),
{
    let s: Vec<i64> = sort_values(vars);
    assert(sorted_from(vars@, s@));
    s[vars.len() / 2]
}

/// The segments of the 64x64 blocks of a frame, where it has any: segments are asked for,
/// and the frame is calm by its median variance.
pub fn choose_segments(aq: i32, vars: &[i64]) -> (r: Option<Vec<u8>>)
    requires
        vars@.len() > 0,
    ensures
        exists|m: i64| is_median(vars@, m),
        forall|m: i64| #[trigger]
            is_median(vars@, m) ==> (r is Some <==> aq != 0 && m <= AQ_MAX_VARIANCE) && (
            r is Some ==> r.unwrap()@ == segments_of(vars@, m)),
{
    let m: i64 = median(vars);
    proof {
        assert forall|k: i64| is_median(vars@, k) implies k == m by {
            law_median_is_one(vars@, k, m);
        }
    }
    if aq != 0 && m <= AQ_MAX_VARIANCE {
        Some(segment_map(vars, m))
    } else {
        None
    }
}

/// The segments of the 64x64 blocks of a frame.
pub fn segment_map(vars: &[i64], median: i64) -> (r: Vec<u8>)
    ensures
        r@ == segments_of(vars@, median),
{
    let n: usize = vars.len();
    let mut r: Vec<u8> = Vec::new();
    let mut i: usize = 0;
    while i < n
        invariant
            i <= n,
            n == vars@.len(),
            r@ =~= segments_of(vars@.take(i as int), median),
        decreases n - i,
    {
        r.push(
            if vars[i] > median {
                1
            } else {
                0
            },
        );
        i += 1;
        assert(vars@.take(i as int) =~= vars@.take(i - 1).push(vars@[i - 1]));
    }
    assert(vars@.take(n as int) =~= vars@);
    r
}

/// The quantizer indices of the two segments: `delta` finer and `delta` coarser.
pub fn segment_qindex(base: i32, delta: i32) -> (r: (i32, i32))
    requires
        0 <= base <= 255,
        -0x10000 <= delta <= 0x10000,
    ensures
        r.0 == clamped(base - delta, 1, 255),
        r.1 == clamped(base + delta, 1, 255),
{
    let (a, b): (i32, i32) = (base - delta, base + delta);
    (
        if a < 1 {
            1
        } else if a > 255 {
            255
        } else {
            a
        },
        if b < 1 {
            1
        } else if b > 255 {
            255
        } else {
            b
        },
    )
}

/// The segment of the 64x64 block that a block lies in.
pub open spec fn superblock_segment(
    active: bool,
    map: Seq<u8>,
    cols: int,
    row: int,
    col: int,
) -> u8 {
    let i = (row / 8) * cols + col / 8;
    if active && i < map.len() {
        map[i]
    } else {
        0
    }
}

/// The segment of the 64x64 block that a block lies in.
pub fn sb_seg(active: bool, map: &[u8], cols: usize, mi_row: usize, mi_col: usize) -> (r: u8)
    requires
        cols <= 1024,
        mi_row <= 8192,
        mi_col <= 8192,
    ensures
        r == superblock_segment(active, map@, cols as int, mi_row as int, mi_col as int),
{
    if !active {
        return 0;
    }
    assert(0 <= (mi_row as int / 8) * cols <= 1024 * 1024) by (nonlinear_arith)
        requires
            0 <= (mi_row as int / 8) <= 1024,
            0 <= cols <= 1024,
    ;
    let i: usize = (mi_row / 8) * cols + mi_col / 8;
    if i < map.len() {
        map[i]
    } else {
        0
    }
}

/// The variance that parts the `idx` least of some from the others: below all for 0, above
/// all from their number on.
pub fn dispatch_threshold(vars: &[i64], idx: usize) -> (t: i64)
    ensures
        idx == 0 ==> t == i64::MIN,
        idx > 0 && idx >= vars@.len() ==> t == i64::MAX,
        0 < idx < vars@.len() ==> exists|s: Seq<i64>| #[trigger]
            sorted_from(vars@, s) && t == s[idx as int],
{
    if idx == 0 {
        i64::MIN
    } else if idx >= vars.len() {
        i64::MAX
    } else {
        let s: Vec<i64> = sort_values(vars);
        assert(sorted_from(vars@, s@));
        s[idx]
    }
}

/// No more than `n` of some numbers are below the one that `n` others stand before once
/// they are sorted: whatever a frame holds, no more of its blocks are cut by their
/// variance than were asked for.
pub proof fn law_no_more_below(v: Seq<i64>, s: Seq<i64>, n: int)
    requires
        sorted_from(v, s),
        0 <= n < v.len(),
    ensures
        v.to_multiset().filter(|x: i64| x < s[n]).len() <= n,
{
    broadcast use vstd::seq_lib::group_to_multiset_ensures;
    broadcast use vstd::multiset::group_multiset_axioms;

    let (a, b) = (s.take(n), s.skip(n));
    let below = |x: i64| x < s[n];
    assert(a + b =~= s);
    lemma_multiset_commutative(a, b);
    let all = v.to_multiset();
    assert forall|x: i64| #[trigger] all.filter(below).count(x) <= a.to_multiset().count(x) by {
        if below(x) {
            if b.to_multiset().count(x) > 0 {
                assert(b.contains(x));
                let i = choose|i: int| 0 <= i < b.len() && b[i] == x;
                assert(s[n] <= s[n + i]);
            }
        }
    }
    assert(all.filter(below).subset_of(a.to_multiset()));
    lemma_subset_len(all.filter(below), a.to_multiset());
}

/// A part of a collection has no more items than the whole.
proof fn lemma_subset_len(a: Multiset<i64>, b: Multiset<i64>)
    requires
        a.subset_of(b),
    ensures
        a.len() <= b.len(),
{
    broadcast use vstd::multiset::group_multiset_axioms;

    let rest = b.sub(a);
    assert(a.add(rest) =~= b);
}

/// Whether a 64x64 block is cut by its variance alone: those that vary much if `high`,
/// else those that vary little.
pub fn by_variance(variance: i64, threshold: i64, high: bool) -> (r: bool)
    ensures
        r == (if high {
            variance >= threshold
        } else {
            variance < threshold
        }),
{
    if high {
        variance >= threshold
    } else {
        variance < threshold
    }
}

// ---------------------------------------------------------------------------
// The strength of the loop filter
// ---------------------------------------------------------------------------

/// The strength that the quantizer suggests, in a frame without and with references.
pub open spec fn level_from_q(q: int, intra: bool) -> int {
    clamped(
        if intra {
            (q * 29193 + 279970 + 0x20000) / 0x40000
        } else {
            (q * 17952 + 1823274 + 0x20000) / 0x40000
        },
        0,
        63,
    )
}

/// The strength of the loop filter that the quantizer suggests.
pub fn lf_level_from_q(q: i32, intra: bool) -> (l: u32)
    requires
        0 <= q <= 0x8000,
    ensures
        l == level_from_q(q as int, intra),
{
    let v: i32 = if intra {
        (q * 29193 + 279970 + 0x20000) / 0x40000
    } else {
        (q * 17952 + 1823274 + 0x20000) / 0x40000
    };
    if v > 63 {
        63
    } else {
        v as u32
    }
}

/// The strength with the least error so far, and its error.
#[derive(Clone, Copy, Debug, PartialEq, Eq, Structural)]
pub struct Level {
    pub level: u32,
    pub sse: u64,
}

/// What a strength leaves as error.
pub open spec fn error_of<F: Fn(u32) -> u64>(f: F) -> spec_fn(u32) -> u64 {
    |level: u32| choose|r: u64| call_ensures(f, (level,), r)
}

/// Every strength can be tried, and leaves the same error each time.
pub open spec fn measures<F: Fn(u32) -> u64>(f: F) -> bool {
    &&& forall|l: u32| l <= 63 ==> #[trigger] call_requires(f, (l,))
    &&& forall|l: u32, r: u64|
        l <= 63 && #[trigger] call_ensures(f, (l,), r) ==> r == error_of(f)(l)
}

/// The best after one more strength.
pub open spec fn level_tried(e: spec_fn(u32) -> u64, b: Level, level: u32) -> Level {
    if e(level) < b.sse {
        Level { level, sse: e(level) }
    } else {
        b
    }
}

/// The best after some more strengths.
pub open spec fn levels_tried(e: spec_fn(u32) -> u64, b: Level, levels: Seq<u32>) -> Level
    decreases levels.len(),
{
    if levels.len() == 0 {
        b
    } else {
        level_tried(e, levels_tried(e, b, levels.drop_last()), levels.last())
    }
}

/// The best after the strengths `step` below and `step` above it, but for zero and for
/// the best itself.
pub open spec fn around(e: spec_fn(u32) -> u64, b: Level, step: u32) -> Level {
    let low = (if b.level < step {
        0
    } else {
        b.level - step
    }) as u32;
    let high = (if b.level + step > 63 {
        63
    } else {
        b.level + step
    }) as u32;
    let b1 = if low == 0 || low == b.level {
        b
    } else {
        level_tried(e, b, low)
    };
    if high == 0 || high == b1.level {
        b1
    } else {
        level_tried(e, b1, high)
    }
}

/// The strengths that are tried first.
pub open spec fn coarse_levels() -> Seq<u32> {
    seq![8u32, 16, 24, 32, 40, 48, 56, 63]
}

/// The strength that is found, where no filtering leaves the error `plain`.
pub open spec fn level_searched(e: spec_fn(u32) -> u64, plain: u64) -> Level {
    let b = levels_tried(e, Level { level: 0, sse: plain }, coarse_levels());
    around(e, around(e, around(e, b, 4), 2), 1)
}

/// Tries a strength.
fn try_level<F: Fn(u32) -> u64>(f: &F, b: Level, level: u32) -> (r: Level)
    requires
        measures(*f),
        level <= 63,
    ensures
        r == level_tried(error_of(*f), b, level),
{
    let sse: u64 = f(level);
    if sse < b.sse {
        Level { level, sse }
    } else {
        b
    }
}

/// Tries strengths around the best.
fn try_around<F: Fn(u32) -> u64>(f: &F, b: Level, step: u32) -> (r: Level)
    requires
        measures(*f),
        b.level <= 63,
        1 <= step <= 4,
    ensures
        r == around(error_of(*f), b, step),
        r.level <= 63,
{
    let low: u32 = if b.level < step {
        0
    } else {
        b.level - step
    };
    let high: u32 = if b.level + step > 63 {
        63
    } else {
        b.level + step
    };
    let b1: Level = if low == 0 || low == b.level {
        b
    } else {
        try_level(f, b, low)
    };
    if high == 0 || high == b1.level {
        b1
    } else {
        try_level(f, b1, high)
    }
}

/// Searches the strength of the loop filter: in steps of eight, then around the best.
pub fn search_level<F: Fn(u32) -> u64>(f: F, plain: u64) -> (r: Level)
    requires
        measures(f),
    ensures
        r == level_searched(error_of(f), plain),
        r.level <= 63,
{
    let coarse: [u32; 8] = [8, 16, 24, 32, 40, 48, 56, 63];
    let ghost all = coarse_levels();
    let ghost start = Level { level: 0, sse: plain };
    assert(coarse@ =~= all);
    let mut b: Level = Level { level: 0, sse: plain };
    let mut i: usize = 0;
    while i < 8
        invariant
            i <= 8,
            measures(f),
            coarse@ == all,
            all == coarse_levels(),
            b == levels_tried(error_of(f), start, all.take(i as int)),
            b.level <= 63,
        decreases 8 - i,
    {
        assert(all.take(i + 1).drop_last() =~= all.take(i as int));
        b = try_level(&f, b, coarse[i]);
        i += 1;
    }
    assert(all.take(8) =~= all);
    let b4: Level = try_around(&f, b, 4);
    let b2: Level = try_around(&f, b4, 2);
    try_around(&f, b2, 1)
}

/// The filter that is found leaves no more error than none.
pub proof fn law_level_never_worsens(e: spec_fn(u32) -> u64, plain: u64)
    ensures
        level_searched(e, plain).sse <= plain,
{
    lemma_levels_lower(e, Level { level: 0, sse: plain }, coarse_levels());
}

/// Trying strengths never raises the error.
proof fn lemma_levels_lower(e: spec_fn(u32) -> u64, b: Level, levels: Seq<u32>)
    ensures
        levels_tried(e, b, levels).sse <= b.sse,
    decreases levels.len(),
{
    if levels.len() > 0 {
        lemma_levels_lower(e, b, levels.drop_last());
    }
}

/// A 64x64 block is in the second segment just where it varies more than the median, so
/// that one that varies more is never in the first while one that varies less is in the
/// second.
pub proof fn law_segments_split_at_the_median(vars: Seq<i64>, median: i64, i: int, j: int)
    requires
        0 <= i < vars.len(),
        0 <= j < vars.len(),
    ensures
        segments_of(vars, median).len() == vars.len(),
        segments_of(vars, median)[i] == 1 <==> vars[i] > median,
        segments_of(vars, median)[i] == 0 <==> vars[i] <= median,
        vars[i] <= vars[j] ==> segments_of(vars, median)[i] <= segments_of(vars, median)[j],
{
}

/// A block has the segment of the 64x64 block that it lies in: all blocks within one have
/// the same, and the first of the next one has that of the next.
pub proof fn law_blocks_share_a_segment(
    map: Seq<u8>,
    cols: int,
    row: int,
    col: int,
    y: int,
    x: int,
)
    requires
        0 <= row,
        0 <= col,
        0 <= y < 8,
        0 <= x < 8,
        0 < cols,
    ensures
        superblock_segment(true, map, cols, 8 * row + y, 8 * col + x) == superblock_segment(
            true,
            map,
            cols,
            8 * row,
            8 * col,
        ),
        row * cols + col < map.len() ==> superblock_segment(true, map, cols, 8 * row, 8 * col)
            == map[row * cols + col],
        superblock_segment(false, map, cols, 8 * row, 8 * col) == 0,
{
    assert((8 * row + y) / 8 == row && (8 * col + x) / 8 == col);
    assert((8 * row) / 8 == row && (8 * col) / 8 == col);
}

/// The filter that a quantizer suggests is in range, and no weaker for a coarser one.
pub proof fn law_level_grows_with_quantizer(q: int, r: int, intra: bool)
    requires
        0 <= q <= r,
    ensures
        0 <= level_from_q(q, intra) <= 63,
        level_from_q(q, intra) <= level_from_q(r, intra),
{
}

/// What is known after a strength was tried.
proof fn lemma_tried_level(e: spec_fn(u32) -> u64, b: Level, level: u32)
    ensures
        level_tried(e, b, level).sse <= b.sse,
        level_tried(e, b, level).sse <= e(level),
        level_tried(e, b, level) == b || level_tried(e, b, level) == (Level {
            level,
            sse: e(level),
        }),
{
}

/// Of some strengths none leaves less error than the best.
proof fn lemma_levels_least(e: spec_fn(u32) -> u64, b: Level, levels: Seq<u32>, i: int)
    requires
        0 <= i < levels.len(),
    ensures
        levels_tried(e, b, levels).sse <= e(levels[i]),
    decreases levels.len(),
{
    if i < levels.len() - 1 {
        lemma_levels_least(e, b, levels.drop_last(), i);
    }
}

/// The best of some strengths is one of them or the one before, with its error.
proof fn lemma_levels_one(e: spec_fn(u32) -> u64, b: Level, levels: Seq<u32>)
    ensures
        ({
            let r = levels_tried(e, b, levels);
            r == b || (levels.contains(r.level) && r.sse == e(r.level))
        }),
    decreases levels.len(),
{
    if levels.len() > 0 {
        let rest = levels.drop_last();
        lemma_levels_one(e, b, rest);
        let r = levels_tried(e, b, levels);
        let before = levels_tried(e, b, rest);
        if r == before && before != b {
            let k = choose|k: int| 0 <= k < rest.len() && rest[k] == before.level;
            assert(levels[k] == r.level);
        } else if r != before {
            assert(levels[levels.len() - 1] == r.level);
        }
    }
}

/// The filter that is found leaves no more error than none, than each of the strengths 8,
/// 16, 24, 32, 40, 48, 56 and 63, and its error is the one that it was found with.
pub proof fn law_level_beats_coarse_ones(e: spec_fn(u32) -> u64, plain: u64, i: int)
    requires
        1 <= i <= 8,
    ensures
        ({
            let r = level_searched(e, plain);
            let level = if i == 8 {
                63u32
            } else {
                (8 * i) as u32
            };
            &&& r.sse <= plain
            &&& r.sse <= e(level)
            &&& r.level <= 63
            &&& (r.level == 0 && r.sse == plain) || r.sse == e(r.level)
        }),
{
    let b0 = Level { level: 0, sse: plain };
    let b = levels_tried(e, b0, coarse_levels());
    lemma_levels_lower(e, b0, coarse_levels());
    lemma_levels_least(e, b0, coarse_levels(), i - 1);
    lemma_levels_one(e, b0, coarse_levels());
    if b != b0 {
        let k = choose|k: int| 0 <= k < coarse_levels().len() && coarse_levels()[k] == b.level;
        assert(b.level <= 63);
    }
    lemma_around(e, b, 4);
    lemma_around(e, around(e, b, 4), 2);
    lemma_around(e, around(e, around(e, b, 4), 2), 1);
}

/// What is known after the strengths around the best were tried.
proof fn lemma_around(e: spec_fn(u32) -> u64, b: Level, step: u32)
    requires
        b.level <= 63,
        1 <= step <= 4,
    ensures
        ({
            let r = around(e, b, step);
            let low = (if b.level < step {
                0
            } else {
                b.level - step
            }) as u32;
            let high = (if b.level + step > 63 {
                63
            } else {
                b.level + step
            }) as u32;
            &&& r.sse <= b.sse
            &&& r.level <= 63
            &&& r == b || r.sse == e(r.level)
            &&& low > 0 && low != b.level ==> r.sse <= e(low)
            &&& high != b.level && b.sse <= e(low) ==> r.sse <= e(high)
            &&& (low == 0 || low == b.level || b.sse <= e(low)) && (high == b.level || b.sse <= e(
                high,
            )) ==> r == b
        }),
{
}

/// The search for a filter goes on around the best of the coarse strengths: where that is
/// `c`, the only best of them, it ends with no more error than four below and four above
/// it, and where these are no better than two, then one below and above.
pub proof fn law_level_looks_around(e: spec_fn(u32) -> u64, plain: u64, c: u32)
    requires
        coarse_levels().contains(c),
        e(c) < plain,
        forall|k: int|
            0 <= k < 8 && #[trigger] coarse_levels()[k] != c ==> e(c) < e(coarse_levels()[k]),
        8 < c < 60,
    ensures
        ({
            let r = level_searched(e, plain);
            let still4 = e(c) <= e((c - 4) as u32) && e(c) <= e((c + 4) as u32);
            let still2 = e(c) <= e((c - 2) as u32) && e(c) <= e((c + 2) as u32);
            &&& r.sse <= e((c - 4) as u32)
            &&& e(c) <= e((c - 4) as u32) ==> r.sse <= e((c + 4) as u32)
            &&& still4 ==> r.sse <= e((c - 2) as u32)
            &&& still4 && e(c) <= e((c - 2) as u32) ==> r.sse <= e((c + 2) as u32)
            &&& still4 && still2 ==> r.sse <= e((c - 1) as u32)
            &&& still4 && still2 && e(c) <= e((c - 1) as u32) ==> r.sse <= e((c + 1) as u32)
        }),
{
    let b0 = Level { level: 0, sse: plain };
    let b = levels_tried(e, b0, coarse_levels());
    let at = choose|k: int| 0 <= k < coarse_levels().len() && coarse_levels()[k] == c;
    lemma_levels_least(e, b0, coarse_levels(), at);
    lemma_levels_one(e, b0, coarse_levels());
    assert(b.sse <= e(c));
    if b.level != c {
        assert(b != b0);
        let k = choose|k: int| 0 <= k < coarse_levels().len() && coarse_levels()[k] == b.level;
        assert(e(c) < e(coarse_levels()[k]));
        assert(false);
    }
    let b4 = around(e, b, 4);
    let b2 = around(e, b4, 2);
    lemma_around(e, b, 4);
    lemma_around(e, b4, 2);
    lemma_around(e, b2, 1);
}

} // verus!
