//! Motion search: which vector predicts a block best.
//!
//! A scorer says how badly a vector fits, and may give up once it is over a bound: the
//! score of the best vector so far. Of two vectors with the same score the shorter one
//! is better.
use vstd::prelude::*;

use crate::block::Mv;
use crate::decode::inter::{block_edges, clamp_mv_umv, edges, umv_clamped};
use crate::encode::pixels::Picture;
use crate::encode::scoring::{block_sad_sized, law_perfect_match_scores_zero, moved_sad};
use crate::mv::{abs, is_short, use_mv_hp};

verus! {

/// A vector and its score.
#[derive(Clone, Copy, Debug, PartialEq, Eq)]
pub struct Best {
    pub mv: Mv,
    pub sad: i64,
}

/// The length of a vector.
pub open spec fn length(v: Mv) -> int {
    abs(v.0 as int) + abs(v.1 as int)
}

/// What a scorer says of a vector, given a bound.
pub open spec fn reply<F: Fn(Mv, i64) -> i64>(f: F) -> spec_fn(Mv, int) -> int {
    |mv: Mv, bound: int| (choose|r: i64| #[trigger] call_ensures(f, (mv, bound as i64), r)) as int
}

/// A vector that a search can come to.
pub open spec fn in_range(v: Mv) -> bool {
    abs(v.0 as int) <= 0x1000000 && abs(v.1 as int) <= 0x1000000
}

/// A vector that leaves `room` to the end of the range.
pub open spec fn roomy(v: Mv, room: int) -> bool {
    abs(v.0 as int) + room <= 0x1000000 && abs(v.1 as int) + room <= 0x1000000
}

/// `f` scores as `s` says, and never below zero.
pub open spec fn scores_as<F: Fn(Mv, i64) -> i64>(f: F, s: spec_fn(Mv, int) -> int) -> bool {
    &&& forall|mv: Mv, b: i64| in_range(mv) && b >= 0 ==> #[trigger] call_requires(f, (mv, b))
    &&& forall|mv: Mv, b: i64, r: i64|
        in_range(mv) && b >= 0 && #[trigger] call_ensures(f, (mv, b), r) ==> r == s(mv, b as int)
            && r >= 0
}

/// A vector with score `sad` is better than the best so far.
pub open spec fn better(b: Best, mv: Mv, sad: int) -> bool {
    sad < b.sad || (sad == b.sad && length(mv) < length(b.mv))
}

/// The best after one more vector.
pub open spec fn offered(s: spec_fn(Mv, int) -> int, b: Best, mv: Mv) -> Best {
    let sad = s(mv, b.sad as int);
    if better(b, mv, sad) {
        Best { mv, sad: sad as i64 }
    } else {
        b
    }
}

/// The best after some more vectors.
pub open spec fn offered_all(s: spec_fn(Mv, int) -> int, b: Best, mvs: Seq<Mv>) -> Best
    decreases mvs.len(),
{
    if mvs.len() == 0 {
        b
    } else {
        offered(s, offered_all(s, b, mvs.drop_last()), mvs.last())
    }
}

/// `a` is better than `b`.
pub open spec fn improves(a: Best, b: Best) -> bool {
    better(b, a.mv, a.sad as int)
}

/// The vector `(r, c)` away from `v`.
pub open spec fn shifted(v: Mv, r: int, c: int) -> Mv {
    ((v.0 + r) as i32, (v.1 + c) as i32)
}

/// The eight vectors around `v`, `step` away: first the four in a line with it.
pub open spec fn ring(v: Mv, step: int) -> Seq<Mv> {
    seq![
        shifted(v, -step, 0),
        shifted(v, step, 0),
        shifted(v, 0, -step),
        shifted(v, 0, step),
        shifted(v, -step, -step),
        shifted(v, -step, step),
        shifted(v, step, -step),
        shifted(v, step, step),
    ]
}

/// Moving to the best of a ring, up to `n` times, while that improves.
pub open spec fn ring_rounds(s: spec_fn(Mv, int) -> int, b: Best, step: int, n: nat) -> Best
    decreases n,
{
    if n == 0 {
        b
    } else {
        let b1 = offered_all(s, b, ring(b.mv, step));
        if b1 == b {
            b
        } else {
            ring_rounds(s, b1, step, (n - 1) as nat)
        }
    }
}

/// Moving in rings of eight, four, two and one.
pub open spec fn descended(s: spec_fn(Mv, int) -> int, b: Best) -> Best {
    let b8 = ring_rounds(s, b, 8, 8);
    let b4 = ring_rounds(s, b8, 4, 8);
    let b2 = ring_rounds(s, b4, 2, 8);
    ring_rounds(s, b2, 1, 8)
}

/// Nothing found yet.
pub open spec fn nothing() -> Best {
    Best { mv: (0, 0), sad: i64::MAX }
}

/// The diamond search from zero and from `center`.
pub open spec fn diamond(s: spec_fn(Mv, int) -> int, center: Mv) -> Best {
    let b0 = offered(s, nothing(), (0, 0));
    let b1 = if center != (0i32, 0i32) {
        offered(s, b0, center)
    } else {
        b0
    };
    descended(s, b1)
}

/// All vectors up to eight away from `v`, row by row.
pub open spec fn window(v: Mv) -> Seq<Mv> {
    Seq::new(289, |i: int| shifted(v, i / 17 - 8, i % 17 - 8))
}

/// The exhaustive search around zero and around `center`.
pub open spec fn exhaustive(s: spec_fn(Mv, int) -> int, center: Mv) -> Best {
    offered_all(s, offered_all(s, nothing(), window((0, 0))), window(center))
}

/// The absolute value of a component.
fn magnitude(v: i32) -> (r: i32)
    requires
        v > i32::MIN,
    ensures
        r == abs(v as int),
{
    if v < 0 {
        -v
    } else {
        v
    }
}

/// Whether two vectors are the same.
fn same(a: Mv, b: Mv) -> (r: bool)
    ensures
        r == (a == b),
{
    a.0 == b.0 && a.1 == b.1
}

/// The vector `(r, c)` away from `v`.
fn shift(v: Mv, r: i32, c: i32) -> (w: Mv)
    requires
        in_range(v),
        -0x1000000 <= r <= 0x1000000,
        -0x1000000 <= c <= 0x1000000,
    ensures
        w == shifted(v, r as int, c as int),
{
    (v.0 + r, v.1 + c)
}

/// Takes a vector with score `sad` if it is better than the best so far.
pub fn offer(best: &mut Best, mv: Mv, sad: i64) -> (taken: bool)
    requires
        in_range(mv),
        in_range(old(best).mv),
    ensures
        taken == better(*old(best), mv, sad as int),
        *final(best) == (if taken {
            Best { mv, sad }
        } else {
            *old(best)
        }),
{
    let shorter: bool = magnitude(mv.0) + magnitude(mv.1) < magnitude(best.mv.0) + magnitude(
        best.mv.1,
    );
    if sad < best.sad || (sad == best.sad && shorter) {
        best.mv = mv;
        best.sad = sad;
        true
    } else {
        false
    }
}

/// Scores a vector and takes it if it is better than the best so far.
fn consider<F: Fn(Mv, i64) -> i64>(
    f: &F,
    best: &mut Best,
    mv: Mv,
    Ghost(s): Ghost<spec_fn(Mv, int) -> int>,
) -> (taken: bool)
    requires
        scores_as(*f, s),
        in_range(mv),
        in_range(old(best).mv),
        old(best).sad >= 0,
    ensures
        *final(best) == offered(s, *old(best), mv),
        final(best).sad >= 0,
        taken ==> improves(*final(best), *old(best)) && final(best).mv == mv,
        !taken ==> *final(best) == *old(best),
{
    let sad: i64 = f(mv, best.sad);
    offer(best, mv, sad)
}

/// Moves to the best of the vectors around the best so far.
fn try_ring<F: Fn(Mv, i64) -> i64>(
    f: &F,
    best: &mut Best,
    step: i32,
    Ghost(s): Ghost<spec_fn(Mv, int) -> int>,
) -> (moved: bool)
    requires
        scores_as(*f, s),
        1 <= step <= 8,
        roomy(old(best).mv, 8),
        old(best).sad >= 0,
    ensures
        *final(best) == offered_all(s, *old(best), ring(old(best).mv, step as int)),
        final(best).sad >= 0,
        moved == (*final(best) != *old(best)),
        forall|room: int|
            room >= 8 && #[trigger] roomy(old(best).mv, room) ==> roomy(final(best).mv, room - 8),
{
    let ghost start = *best;
    let center: Mv = best.mv;
    let offsets: [(i32, i32); 8] = [
        (-step, 0),
        (step, 0),
        (0, -step),
        (0, step),
        (-step, -step),
        (-step, step),
        (step, -step),
        (step, step),
    ];
    let ghost all = ring(center, step as int);
    let mut moved: bool = false;
    let mut k: usize = 0;
    while k < 8
        invariant
            k <= 8,
            scores_as(*f, s),
            1 <= step <= 8,
            roomy(center, 8),
            center == start.mv,
            all == ring(center, step as int),
            forall|i: int|
                0 <= i < 8 ==> all[i] == shifted(
                    center,
                    (#[trigger] offsets[i]).0 as int,
                    offsets[i].1 as int,
                ) && abs(offsets[i].0 as int) <= 8 && abs(offsets[i].1 as int) <= 8,
            *best == offered_all(s, start, all.take(k as int)),
            best.sad >= 0,
            moved ==> improves(*best, start),
            !moved ==> *best == start,
            forall|room: int|
                room >= 8 && #[trigger] roomy(center, room) ==> roomy(best.mv, room - 8),
        decreases 8 - k,
    {
        let o: (i32, i32) = offsets[k];
        assert(all[k as int] == shifted(center, offsets[k as int].0 as int, offsets[k as int].1 as int));
        assert(all.take(k + 1).drop_last() =~= all.take(k as int));
        let mv: Mv = shift(center, o.0, o.1);
        let taken: bool = consider(f, best, mv, Ghost(s));
        moved = moved || taken;
        k += 1;
    }
    assert(all.take(8) =~= all);
    moved
}

/// Moves in rings, while that improves.
fn try_rings<F: Fn(Mv, i64) -> i64>(
    f: &F,
    best: &mut Best,
    step: i32,
    Ghost(s): Ghost<spec_fn(Mv, int) -> int>,
)
    requires
        scores_as(*f, s),
        1 <= step <= 8,
        roomy(old(best).mv, 64),
        old(best).sad >= 0,
    ensures
        *final(best) == ring_rounds(s, *old(best), step as int, 8),
        final(best).sad >= 0,
        forall|room: int|
            room >= 64 && #[trigger] roomy(old(best).mv, room) ==> roomy(final(best).mv, room - 64),
{
    let ghost start = *best;
    let mut i: usize = 0;
    let mut moved: bool = true;
    while i < 8 && moved
        invariant
            i <= 8,
            scores_as(*f, s),
            1 <= step <= 8,
            best.sad >= 0,
            roomy(start.mv, 64),
            roomy(best.mv, 64 - 8 * i),
            forall|room: int|
                room >= 64 && #[trigger] roomy(start.mv, room) ==> roomy(best.mv, room - 8 * i),
            ring_rounds(s, start, step as int, 8) == (if moved {
                ring_rounds(s, *best, step as int, (8 - i) as nat)
            } else {
                *best
            }),
        decreases 8 - i,
    {
        let ghost before = *best;
        assert(forall|room: int|
            room >= 64 && #[trigger] roomy(start.mv, room) ==> roomy(before.mv, room - 8 * i));
        moved = try_ring(f, best, step, Ghost(s));
        assert(roomy(before.mv, 64 - 8 * i));
        i += 1;
    }
}

/// The diamond search over whole pixels.
fn search_diamond<F: Fn(Mv, i64) -> i64>(
    f: &F,
    center: Mv,
    Ghost(s): Ghost<spec_fn(Mv, int) -> int>,
) -> (best: Best)
    requires
        scores_as(*f, s),
        roomy(center, 256),
    ensures
        best == diamond(s, center),
        best.sad >= 0,
        in_range(best.mv),
        roomy(center, 0xF80000) ==> roomy(best.mv, 0xF80000 - 256),
{
    let mut best: Best = Best { mv: (0, 0), sad: i64::MAX };
    consider(f, &mut best, (0, 0), Ghost(s));
    if !same(center, (0, 0)) {
        consider(f, &mut best, center, Ghost(s));
    }
    assert(roomy(best.mv, 256));
    let ghost b1 = best;
    try_rings(f, &mut best, 8, Ghost(s));
    let ghost b8 = best;
    assert(roomy(b8.mv, 192));
    try_rings(f, &mut best, 4, Ghost(s));
    let ghost b4 = best;
    assert(roomy(b4.mv, 128));
    try_rings(f, &mut best, 2, Ghost(s));
    let ghost b2 = best;
    assert(roomy(b2.mv, 64));
    try_rings(f, &mut best, 1, Ghost(s));
    proof {
        if roomy(center, 0xF80000) {
            assert(roomy(b1.mv, 0xF80000));
            assert(roomy(b8.mv, 0xF80000 - 64));
            assert(roomy(b4.mv, 0xF80000 - 128));
            assert(roomy(b2.mv, 0xF80000 - 192));
            assert(roomy(best.mv, 0xF80000 - 256));
        }
        assert(roomy(best.mv, 0));
    }
    best
}

/// Tries all vectors up to eight away from `center`.
fn search_window<F: Fn(Mv, i64) -> i64>(
    f: &F,
    best: &mut Best,
    center: Mv,
    Ghost(s): Ghost<spec_fn(Mv, int) -> int>,
)
    requires
        scores_as(*f, s),
        roomy(center, 8),
        in_range(old(best).mv),
        old(best).sad >= 0,
    ensures
        *final(best) == offered_all(s, *old(best), window(center)),
        in_range(final(best).mv),
        final(best).sad >= 0,
        roomy(center, 0xF80000) && roomy(old(best).mv, 0xF80000 - 256) ==> roomy(
            final(best).mv,
            0xF80000 - 256,
        ),
{
    let ghost start = *best;
    let ghost all = window(center);
    let mut i: i32 = 0;
    while i < 289
        invariant
            0 <= i <= 289,
            scores_as(*f, s),
            roomy(center, 8),
            in_range(best.mv),
            best.sad >= 0,
            all == window(center),
            *best == offered_all(s, start, all.take(i as int)),
            roomy(center, 0xF80000) && roomy(start.mv, 0xF80000 - 256) ==> roomy(
                best.mv,
                0xF80000 - 256,
            ),
        decreases 289 - i,
    {
        assert(all.take(i + 1).drop_last() =~= all.take(i as int));
        let mv: Mv = shift(center, i / 17 - 8, i % 17 - 8);
        assert(mv == all[i as int]);
        consider(f, best, mv, Ghost(s));
        i += 1;
    }
    assert(all.take(289) =~= all);
}

/// The exhaustive search over whole pixels.
fn search_exhaustive<F: Fn(Mv, i64) -> i64>(
    f: &F,
    center: Mv,
    Ghost(s): Ghost<spec_fn(Mv, int) -> int>,
) -> (best: Best)
    requires
        scores_as(*f, s),
        roomy(center, 256),
    ensures
        best == exhaustive(s, center),
        best.sad >= 0,
        in_range(best.mv),
        roomy(center, 0xF80000) ==> roomy(best.mv, 0xF80000 - 256),
{
    let mut best: Best = Best { mv: (0, 0), sad: i64::MAX };
    search_window(f, &mut best, (0, 0), Ghost(s));
    search_window(f, &mut best, center, Ghost(s));
    best
}

// ---------------------------------------------------------------------------
// Fractions of pixels
// ---------------------------------------------------------------------------

/// The most vectors that are remembered as tried.
pub const TRAIL: usize = 32;

/// The best and the vectors that were tried, after one more.
pub open spec fn tried(
    s: spec_fn(Mv, int) -> int,
    st: (Best, Seq<Mv>),
    mv: Mv,
) -> (Best, Seq<Mv>) {
    if st.1.contains(mv) {
        st
    } else {
        (
            offered(s, st.0, mv),
            if st.1.len() < TRAIL {
                st.1.push(mv)
            } else {
                st.1
            },
        )
    }
}

/// The best and the vectors that were tried, after some more.
pub open spec fn tried_all(
    s: spec_fn(Mv, int) -> int,
    st: (Best, Seq<Mv>),
    mvs: Seq<Mv>,
) -> (Best, Seq<Mv>)
    decreases mvs.len(),
{
    if mvs.len() == 0 {
        st
    } else {
        tried(s, tried_all(s, st, mvs.drop_last()), mvs.last())
    }
}

/// The four vectors in a line with `v`, `step` away.
pub open spec fn plus(v: Mv, step: int) -> Seq<Mv> {
    seq![
        shifted(v, -step, 0),
        shifted(v, step, 0),
        shifted(v, 0, -step),
        shifted(v, 0, step),
    ]
}

/// Moving to the best of four vectors while that improves, up to `limit` times unless
/// that is zero, and as long as the vector stays in range.
pub open spec fn plus_rounds(
    s: spec_fn(Mv, int) -> int,
    st: (Best, Seq<Mv>),
    step: int,
    limit: nat,
) -> (Best, Seq<Mv>)
    decreases st.0.sad, length(st.0.mv),
{
    let st1 = tried_all(s, st, plus(st.0.mv, step));
    if limit != 1 && improves(st1.0, st.0) && st1.0.sad >= 0 && roomy(st1.0.mv, 8) {
        plus_rounds(
            s,
            st1,
            step,
            if limit == 0 {
                0
            } else {
                (limit - 1) as nat
            },
        )
    } else {
        st1
    }
}

/// The search in steps of halves, quarters and, with `hp`, eighths. With `tree`,
/// quarters are tried only if a half was better.
pub open spec fn fast_search(
    s: spec_fn(Mv, int) -> int,
    b: Best,
    hp: bool,
    tree: bool,
    limit: nat,
) -> Best {
    let st4 = plus_rounds(s, (b, seq![b.mv]), 4, limit);
    if (tree && st4.0 == b) || !roomy(st4.0.mv, 8) {
        st4.0
    } else {
        let st2 = plus_rounds(s, st4, 2, limit);
        if hp && roomy(st2.0.mv, 8) {
            plus_rounds(s, st2, 1, limit).0
        } else {
            st2.0
        }
    }
}

/// The state of a level of the diagonal search: the best, the vectors that were tried,
/// and the last rows and columns that were better.
pub struct Level {
    pub best: Best,
    pub trail: Seq<Mv>,
    pub row: int,
    pub col: int,
}

/// A level after one more vector, `row` and `col` away from `center`.
pub open spec fn level_tried(
    s: spec_fn(Mv, int) -> int,
    l: Level,
    center: Mv,
    row: int,
    col: int,
) -> Level {
    let st = tried(s, (l.best, l.trail), shifted(center, row, col));
    let taken = st.0 != l.best;
    Level {
        best: st.0,
        trail: st.1,
        row: if taken && row != 0 {
            row
        } else {
            l.row
        },
        col: if taken && row == 0 {
            col
        } else {
            l.col
        },
    }
}

/// A level of the diagonal search: four vectors in a line, then the corner between the
/// directions that were better.
pub open spec fn level(
    s: spec_fn(Mv, int) -> int,
    st: (Best, Seq<Mv>),
    step: int,
) -> (Best, Seq<Mv>) {
    let c = st.0.mv;
    let l0 = Level { best: st.0, trail: st.1, row: 0, col: 0 };
    let l1 = level_tried(s, l0, c, 0, -step);
    let l2 = level_tried(s, l1, c, 0, step);
    let l3 = level_tried(s, l2, c, -step, 0);
    let l4 = level_tried(s, l3, c, step, 0);
    if l4.row != 0 && l4.col != 0 {
        tried(s, (l4.best, l4.trail), shifted(c, l4.row, l4.col))
    } else {
        (l4.best, l4.trail)
    }
}

/// The diagonal search in levels of halves, quarters and, with `hp`, eighths.
pub open spec fn diagonal_search(s: spec_fn(Mv, int) -> int, b: Best, hp: bool) -> Best {
    let st4 = level(s, (b, seq![b.mv]), 4);
    let st2 = level(s, st4, 2);
    if hp {
        level(s, st2, 1).0
    } else {
        st2.0
    }
}

/// The vectors up to a half away from `v` in steps of quarters, row by row, without `v`.
pub open spec fn quarter_grid(v: Mv) -> Seq<Mv> {
    Seq::new(
        24,
        |i: int|
            {
                let k = if i < 12 {
                    i
                } else {
                    i + 1
                };
                shifted(v, 2 * (k / 5) - 4, 2 * (k % 5) - 4)
            },
    )
}

/// How fractions of pixels are searched.
#[derive(Clone, Copy, Debug, PartialEq, Eq, Structural)]
pub enum Subpel {
    /// All quarters around the best.
    Grid,
    /// Moving in a line while that improves.
    Fast { tree: bool, rounds: u32 },
    /// One level for each step, with a corner.
    Diagonal,
}

/// The search for fractions of pixels from `b` on.
pub open spec fn subpel_search(s: spec_fn(Mv, int) -> int, b: Best, hp: bool, how: Subpel) -> Best {
    if b.sad == 0 {
        b
    } else {
        match how {
            Subpel::Grid => offered_all(s, b, quarter_grid(b.mv)),
            Subpel::Fast { tree, rounds } => fast_search(s, b, hp, tree, rounds as nat),
            Subpel::Diagonal => diagonal_search(s, b, hp),
        }
    }
}

/// Whether a vector was tried.
fn was_tried(trail: &Vec<Mv>, mv: Mv) -> (r: bool)
    ensures
        r == trail@.contains(mv),
{
    let n: usize = trail.len();
    let mut i: usize = 0;
    while i < n
        invariant
            i <= n,
            n == trail@.len(),
            forall|k: int| 0 <= k < i ==> #[trigger] trail@[k] != mv,
        decreases n - i,
    {
        if same(trail[i], mv) {
            assert(trail@[i as int] == mv);
            return true;
        }
        i += 1;
    }
    false
}

/// Tries a vector unless it was tried.
fn attempt<F: Fn(Mv, i64) -> i64>(
    f: &F,
    best: &mut Best,
    trail: &mut Vec<Mv>,
    mv: Mv,
    Ghost(s): Ghost<spec_fn(Mv, int) -> int>,
) -> (taken: bool)
    requires
        scores_as(*f, s),
        in_range(mv),
        in_range(old(best).mv),
        old(best).sad >= 0,
    ensures
        (*final(best), final(trail)@) == tried(s, (*old(best), old(trail)@), mv),
        final(best).sad >= 0,
        taken == (*final(best) != *old(best)),
        taken ==> improves(*final(best), *old(best)) && final(best).mv == mv,
{
    if was_tried(trail, mv) {
        return false;
    }
    if trail.len() < TRAIL {
        trail.push(mv);
    }
    consider(f, best, mv, Ghost(s))
}

/// Tries the four vectors in a line with the best so far.
fn try_plus<F: Fn(Mv, i64) -> i64>(
    f: &F,
    best: &mut Best,
    trail: &mut Vec<Mv>,
    step: i32,
    Ghost(s): Ghost<spec_fn(Mv, int) -> int>,
) -> (moved: bool)
    requires
        scores_as(*f, s),
        1 <= step <= 4,
        roomy(old(best).mv, 8),
        old(best).sad >= 0,
    ensures
        (*final(best), final(trail)@) == tried_all(
            s,
            (*old(best), old(trail)@),
            plus(old(best).mv, step as int),
        ),
        final(best).sad >= 0,
        in_range(final(best).mv),
        moved == (*final(best) != *old(best)),
        moved ==> improves(*final(best), *old(best)),
{
    let ghost start = (*best, trail@);
    let c: Mv = best.mv;
    let ghost all = plus(c, step as int);
    proof {
        reveal_with_fuel(tried_all, 5);
        assert(all.drop_last() =~= seq![all[0], all[1], all[2]]);
        assert(seq![all[0], all[1], all[2]].drop_last() =~= seq![all[0], all[1]]);
        assert(seq![all[0], all[1]].drop_last() =~= seq![all[0]]);
        assert(seq![all[0]].drop_last() =~= Seq::<Mv>::empty());
    }
    let m0: bool = attempt(f, best, trail, shift(c, -step, 0), Ghost(s));
    let m1: bool = attempt(f, best, trail, shift(c, step, 0), Ghost(s));
    let m2: bool = attempt(f, best, trail, shift(c, 0, -step), Ghost(s));
    let m3: bool = attempt(f, best, trail, shift(c, 0, step), Ghost(s));
    m0 || m1 || m2 || m3
}

/// Whether a vector leaves room for another step.
fn has_room(v: Mv) -> (r: bool)
    requires
        in_range(v),
    ensures
        r == roomy(v, 8),
{
    magnitude(v.0) + 8 <= 0x1000000 && magnitude(v.1) + 8 <= 0x1000000
}

/// Moves in a line while that improves.
fn try_pluses<F: Fn(Mv, i64) -> i64>(
    f: &F,
    best: &mut Best,
    trail: &mut Vec<Mv>,
    step: i32,
    limit: u32,
    Ghost(s): Ghost<spec_fn(Mv, int) -> int>,
)
    requires
        scores_as(*f, s),
        1 <= step <= 4,
        roomy(old(best).mv, 8),
        old(best).sad >= 0,
    ensures
        (*final(best), final(trail)@) == plus_rounds(
            s,
            (*old(best), old(trail)@),
            step as int,
            limit as nat,
        ),
        final(best).sad >= 0,
        in_range(final(best).mv),
{
    let ghost goal = plus_rounds(s, (*best, trail@), step as int, limit as nat);
    let mut left: u32 = limit;
    let mut going: bool = true;
    while going
        invariant
            scores_as(*f, s),
            1 <= step <= 4,
            best.sad >= 0,
            in_range(best.mv),
            going ==> roomy(best.mv, 8),
            goal == (if going {
                plus_rounds(s, (*best, trail@), step as int, left as nat)
            } else {
                (*best, trail@)
            }),
        decreases
                (if going {
                    1int
                } else {
                    0
                }) + best.sad,
                length(best.mv),
                (if going {
                    1int
                } else {
                    0
                }),
    {
        let ghost before = *best;
        let moved: bool = try_plus(f, best, trail, step, Ghost(s));
        if left == 1 || !moved || !has_room(best.mv) {
            going = false;
        } else if left > 0 {
            left = left - 1;
        }
    }
}

/// The search in steps of halves, quarters and eighths.
fn search_fast<F: Fn(Mv, i64) -> i64>(
    f: &F,
    b: Best,
    hp: bool,
    tree: bool,
    limit: u32,
    Ghost(s): Ghost<spec_fn(Mv, int) -> int>,
) -> (r: Best)
    requires
        scores_as(*f, s),
        roomy(b.mv, 8),
        b.sad >= 0,
    ensures
        r == fast_search(s, b, hp, tree, limit as nat),
{
    let mut best: Best = b;
    let mut trail: Vec<Mv> = Vec::new();
    trail.push(b.mv);
    assert(trail@ =~= seq![b.mv]);
    try_pluses(f, &mut best, &mut trail, 4, limit, Ghost(s));
    let half_moved: bool = !(same(best.mv, b.mv) && best.sad == b.sad);
    if (tree && !half_moved) || !has_room(best.mv) {
        return best;
    }
    try_pluses(f, &mut best, &mut trail, 2, limit, Ghost(s));
    if hp && has_room(best.mv) {
        try_pluses(f, &mut best, &mut trail, 1, limit, Ghost(s));
    }
    best
}

/// One level of the diagonal search.
fn try_level<F: Fn(Mv, i64) -> i64>(
    f: &F,
    best: &mut Best,
    trail: &mut Vec<Mv>,
    step: i32,
    Ghost(s): Ghost<spec_fn(Mv, int) -> int>,
)
    requires
        scores_as(*f, s),
        1 <= step <= 4,
        roomy(old(best).mv, 8),
        old(best).sad >= 0,
    ensures
        (*final(best), final(trail)@) == level(s, (*old(best), old(trail)@), step as int),
        final(best).sad >= 0,
        forall|room: int|
            room >= 8 && #[trigger] roomy(old(best).mv, room) ==> roomy(final(best).mv, room - 4),
{
    let c: Mv = best.mv;
    let mut row: i32 = 0;
    let mut col: i32 = 0;
    if attempt(f, best, trail, shift(c, 0, -step), Ghost(s)) {
        col = -step;
    }
    if attempt(f, best, trail, shift(c, 0, step), Ghost(s)) {
        col = step;
    }
    if attempt(f, best, trail, shift(c, -step, 0), Ghost(s)) {
        row = -step;
    }
    if attempt(f, best, trail, shift(c, step, 0), Ghost(s)) {
        row = step;
    }
    if row != 0 && col != 0 {
        attempt(f, best, trail, shift(c, row, col), Ghost(s));
    }
}

/// The diagonal search.
fn search_diagonal<F: Fn(Mv, i64) -> i64>(
    f: &F,
    b: Best,
    hp: bool,
    Ghost(s): Ghost<spec_fn(Mv, int) -> int>,
) -> (r: Best)
    requires
        scores_as(*f, s),
        roomy(b.mv, 16),
        b.sad >= 0,
    ensures
        r == diagonal_search(s, b, hp),
{
    let mut best: Best = b;
    let mut trail: Vec<Mv> = Vec::new();
    trail.push(b.mv);
    assert(trail@ =~= seq![b.mv]);
    try_level(f, &mut best, &mut trail, 4, Ghost(s));
    assert(roomy(best.mv, 12));
    try_level(f, &mut best, &mut trail, 2, Ghost(s));
    assert(roomy(best.mv, 8));
    if hp {
        try_level(f, &mut best, &mut trail, 1, Ghost(s));
    }
    best
}

/// Tries all quarters around the best.
fn search_grid<F: Fn(Mv, i64) -> i64>(
    f: &F,
    b: Best,
    Ghost(s): Ghost<spec_fn(Mv, int) -> int>,
) -> (r: Best)
    requires
        scores_as(*f, s),
        roomy(b.mv, 8),
        b.sad >= 0,
    ensures
        r == offered_all(s, b, quarter_grid(b.mv)),
{
    let ghost all = quarter_grid(b.mv);
    let mut best: Best = b;
    let mut i: i32 = 0;
    while i < 24
        invariant
            0 <= i <= 24,
            scores_as(*f, s),
            roomy(b.mv, 8),
            in_range(best.mv),
            best.sad >= 0,
            all == quarter_grid(b.mv),
            best == offered_all(s, b, all.take(i as int)),
        decreases 24 - i,
    {
        assert(all.take(i + 1).drop_last() =~= all.take(i as int));
        let k: i32 = if i < 12 {
            i
        } else {
            i + 1
        };
        let mv: Mv = shift(b.mv, 2 * (k / 5) - 4, 2 * (k % 5) - 4);
        assert(mv == all[i as int]);
        consider(f, &mut best, mv, Ghost(s));
        i += 1;
    }
    assert(all.take(24) =~= all);
    best
}

/// Searches for fractions of pixels from `b` on. A vector that fits perfectly is kept.
pub fn search_subpel<F: Fn(Mv, i64) -> i64>(f: F, b: Best, hp: bool, how: Subpel) -> (r: Best)
    requires
        scores_as(f, reply(f)),
        roomy(b.mv, 16),
        b.sad >= 0,
    ensures
        r == subpel_search(reply(f), b, hp, how),
{
    let ghost s = reply(f);
    if b.sad == 0 {
        return b;
    }
    match how {
        Subpel::Grid => search_grid(&f, b, Ghost(s)),
        Subpel::Fast { tree, rounds } => search_fast(&f, b, hp, tree, rounds, Ghost(s)),
        Subpel::Diagonal => search_diagonal(&f, b, hp, Ghost(s)),
    }
}

// ---------------------------------------------------------------------------
// The whole search
// ---------------------------------------------------------------------------

/// How a block is searched.
#[derive(Clone, Copy, Debug, PartialEq, Eq, Structural)]
pub struct SearchPlan {
    /// Try all vectors in a window, not only those around better ones.
    pub exhaustive: bool,
    /// Look at the first tile of the block alone.
    pub corner: bool,
    /// The score below which the predictor is taken as it is.
    pub good_enough: Option<i64>,
    /// Whether eighths of pixels may be coded.
    pub hp: bool,
    pub how: Subpel,
}

/// `v` divided by eight, towards zero.
pub open spec fn eighth(v: int) -> int {
    if v < 0 {
        -((-v) / 8)
    } else {
        v / 8
    }
}

/// How badly vectors of whole pixels fit.
pub open spec fn whole_scorer(
    src: Picture,
    reference: Picture,
    base_x: int,
    base_y: int,
    tw: int,
    th: int,
) -> spec_fn(Mv, int) -> int {
    |mv: Mv, bound: int|
        moved_sad(src, reference, base_x, base_y, mv.0 as int, mv.1 as int, tw, th, bound)
}

/// The vector of whole pixels that a search finds.
pub open spec fn whole_search(
    s: spec_fn(Mv, int) -> int,
    center: Mv,
    exhaustively: bool,
) -> Best {
    if exhaustively {
        exhaustive(s, center)
    } else {
        diamond(s, center)
    }
}

/// The vector that is found for a block of `tw` by `th` tiles, with the scores `s` of
/// whole pixels and `f` of fractions.
pub open spec fn searched(
    s: spec_fn(Mv, int) -> int,
    f: spec_fn(Mv, int) -> int,
    mi_row: int,
    mi_col: int,
    mi_rows: int,
    mi_cols: int,
    predictor: Mv,
    tw: int,
    th: int,
    plan: SearchPlan,
) -> Mv {
    let center = (eighth(predictor.0 as int) as i32, eighth(predictor.1 as int) as i32);
    if plan.good_enough is Some && s(center, i64::MAX as int) < plan.good_enough.unwrap() {
        predictor
    } else {
        let b = whole_search(s, center, plan.exhaustive);
        let mv = ((8 * b.mv.0) as i32, (8 * b.mv.1) as i32);
        let e = edges(3, mi_row, mi_col, mi_rows, mi_cols);
        let unclamped = umv_clamped(mv.0 as int, 8 * th, 0, e.2, e.3) == 2 * mv.0
            && umv_clamped(mv.1 as int, 8 * tw, 0, e.0, e.1) == 2 * mv.1;
        let sad = if !plan.corner && unclamped {
            b.sad as int
        } else {
            f(mv, i64::MAX as int)
        };
        subpel_search(
            f,
            Best { mv, sad: sad as i64 },
            plan.hp && is_short(predictor),
            plan.how,
        ).mv
    }
}

/// `v` divided by eight, towards zero.
fn div_eight(v: i32) -> (r: i32)
    requires
        v > i32::MIN,
    ensures
        r == eighth(v as int),
{
    if v < 0 {
        -((-v) / 8)
    } else {
        v / 8
    }
}

/// Finds the vector, in eighths of pixels, that predicts a block of `tw` by `th` tiles
/// best: first over whole pixels, around zero and around the predictor, then over
/// fractions, which `f` scores.
#[verifier::rlimit(30)]
pub fn search_mv<F: Fn(Mv, i64) -> i64>(
    src: &Picture,
    reference: &Picture,
    mi_row: usize,
    mi_col: usize,
    mi_rows: usize,
    mi_cols: usize,
    predictor: Mv,
    tw: usize,
    th: usize,
    plan: SearchPlan,
    f: F,
) -> (r: Mv)
    requires
        src.wf(),
        reference.wf(),
        mi_row < mi_rows <= 8192,
        mi_col < mi_cols <= 8192,
        abs(predictor.0 as int) <= 0x400000,
        abs(predictor.1 as int) <= 0x400000,
        1 <= tw <= 8,
        1 <= th <= 8,
        scores_as(f, reply(f)),
    ensures
        ({
            let s = if plan.corner {
                whole_scorer(*src, *reference, 8 * mi_col, 8 * mi_row, 1, 1)
            } else {
                whole_scorer(*src, *reference, 8 * mi_col, 8 * mi_row, tw as int, th as int)
            };
            r == searched(
                s,
                reply(f),
                mi_row as int,
                mi_col as int,
                mi_rows as int,
                mi_cols as int,
                predictor,
                tw as int,
                th as int,
                plan,
            )
        }),
{
    let (sw, sh): (usize, usize) = if plan.corner {
        (1, 1)
    } else {
        (tw, th)
    };
    let (base_x, base_y): (usize, usize) = (8 * mi_col, 8 * mi_row);
    let ghost s = whole_scorer(
        *src,
        *reference,
        base_x as int,
        base_y as int,
        sw as int,
        sh as int,
    );
    let center: Mv = (div_eight(predictor.0), div_eight(predictor.1));
    match plan.good_enough {
        Some(limit) => {
            let psad: i64 = block_sad_sized(
                src,
                reference,
                base_x,
                base_y,
                center.0,
                center.1,
                sw,
                sh,
                i64::MAX,
            );
            assert(psad == s(center, i64::MAX as int));
            if psad < limit {
                return predictor;
            }
        },
        None => {},
    }
    let g = |mv: Mv, bound: i64| -> (r: i64)
        requires
            in_range(mv),
            bound >= 0,
        ensures
            r == s(mv, bound as int),
            r >= 0,
        { block_sad_sized(src, reference, base_x, base_y, mv.0, mv.1, sw, sh, bound) };
    assert(roomy(center, 0xF80000));
    assert(roomy(center, 256));
    let b: Best = if plan.exhaustive {
        search_exhaustive(&g, center, Ghost(s))
    } else {
        search_diamond(&g, center, Ghost(s))
    };
    assert(roomy(b.mv, 0xF80000 - 256));
    let mv: Mv = (b.mv.0 * 8, b.mv.1 * 8);
    let e: (i32, i32, i32, i32) = block_edges(3, mi_row, mi_col, mi_rows, mi_cols);
    let q4: Mv = clamp_mv_umv(mv, 8 * tw as i32, 8 * th as i32, 0, 0, e);
    let sad: i64 = if !plan.corner && q4.0 == 2 * mv.0 && q4.1 == 2 * mv.1 {
        b.sad
    } else {
        f(mv, i64::MAX)
    };
    let hp: bool = plan.hp && use_mv_hp(predictor);
    search_subpel(f, Best { mv, sad }, hp, plan.how).mv
}

// ---------------------------------------------------------------------------
// Laws
// ---------------------------------------------------------------------------

/// Giving up over the best score so far changes nothing: a scorer that does so finds
/// the same vector as one that never gives up.
pub proof fn law_giving_up_changes_nothing(t: spec_fn(Mv) -> int, b: Best, mvs: Seq<Mv>)
    requires
        forall|mv: Mv| 0 <= #[trigger] t(mv) <= i64::MAX,
    ensures
        offered_all(
            |mv: Mv, bound: int| crate::encode::scoring::bounded(t(mv), bound),
            b,
            mvs,
        ) == offered_all(|mv: Mv, bound: int| t(mv), b, mvs),
    decreases mvs.len(),
{
    if mvs.len() > 0 {
        law_giving_up_changes_nothing(t, b, mvs.drop_last());
        assert(0 <= t(mvs.last()) <= i64::MAX);
    }
}

/// Trying more vectors never makes the best worse.
pub proof fn law_trying_never_worsens(s: spec_fn(Mv, int) -> int, b: Best, mvs: Seq<Mv>)
    requires
        forall|mv: Mv, bound: int| i64::MIN <= #[trigger] s(mv, bound) <= i64::MAX,
    ensures
        offered_all(s, b, mvs) == b || improves(offered_all(s, b, mvs), b),
    decreases mvs.len(),
{
    if mvs.len() > 0 {
        law_trying_never_worsens(s, b, mvs.drop_last());
        let b1 = offered_all(s, b, mvs.drop_last());
        assert(i64::MIN <= s(mvs.last(), b1.sad as int) <= i64::MAX);
    }
}

/// The best of some vectors is at least as good as each of them.
pub proof fn law_best_is_least(t: spec_fn(Mv) -> int, b: Best, mvs: Seq<Mv>, i: int)
    requires
        forall|mv: Mv| 0 <= #[trigger] t(mv) <= i64::MAX,
        0 <= i < mvs.len(),
    ensures
        offered_all(|mv: Mv, bound: int| t(mv), b, mvs).sad <= t(mvs[i]),
    decreases mvs.len(),
{
    let s = |mv: Mv, bound: int| t(mv);
    let before = offered_all(s, b, mvs.drop_last());
    assert(0 <= t(mvs.last()) <= i64::MAX);
    if i < mvs.len() - 1 {
        law_best_is_least(t, b, mvs.drop_last(), i);
        assert(mvs.drop_last()[i] == mvs[i]);
    }
    assert(offered_all(s, b, mvs) == offered(s, before, mvs.last()));
}

/// The best of some vectors and of one that was there before is one of them, none of them
/// has a lesser score, and none with the same score is shorter.
pub proof fn law_best_is_shortest(t: spec_fn(Mv) -> int, b: Best, mvs: Seq<Mv>, i: int)
    requires
        forall|mv: Mv| 0 <= #[trigger] t(mv) <= i64::MAX,
        b.sad == t(b.mv),
        0 <= i < mvs.len(),
    ensures
        ({
            let r = offered_all(|mv: Mv, bound: int| t(mv), b, mvs);
            &&& r.sad == t(r.mv)
            &&& r.mv == b.mv || mvs.contains(r.mv)
            &&& r.sad < t(mvs[i]) || (r.sad == t(mvs[i]) && length(r.mv) <= length(mvs[i]))
        }),
    decreases mvs.len(),
{
    let s = |mv: Mv, bound: int| t(mv);
    let rest = mvs.drop_last();
    let before = offered_all(s, b, rest);
    lemma_best_is_one(t, b, rest);
    assert(0 <= t(mvs.last()) <= i64::MAX);
    let r = offered_all(s, b, mvs);
    assert(r == offered(s, before, mvs.last()));
    if i < mvs.len() - 1 {
        law_best_is_shortest(t, b, rest, i);
        assert(rest[i] == mvs[i]);
    }
    lemma_best_is_one(t, b, mvs);
}

/// The best of some vectors and of one that was there before is one of them.
proof fn lemma_best_is_one(t: spec_fn(Mv) -> int, b: Best, mvs: Seq<Mv>)
    requires
        forall|mv: Mv| 0 <= #[trigger] t(mv) <= i64::MAX,
        b.sad == t(b.mv),
    ensures
        ({
            let r = offered_all(|mv: Mv, bound: int| t(mv), b, mvs);
            &&& r.sad == t(r.mv)
            &&& r.mv == b.mv || mvs.contains(r.mv)
        }),
    decreases mvs.len(),
{
    if mvs.len() > 0 {
        let s = |mv: Mv, bound: int| t(mv);
        let rest = mvs.drop_last();
        lemma_best_is_one(t, b, rest);
        let before = offered_all(s, b, rest);
        assert(0 <= t(mvs.last()) <= i64::MAX);
        let r = offered_all(s, b, mvs);
        assert(r == offered(s, before, mvs.last()));
        if r.mv == mvs.last() {
            assert(mvs[mvs.len() - 1] == r.mv);
        } else if r.mv != b.mv {
            let k = choose|k: int| 0 <= k < rest.len() && rest[k] == r.mv;
            assert(mvs[k] == r.mv);
        }
    }
}

/// The exhaustive search finds the best of all vectors up to eight pixels away from zero
/// and from the predictor.
pub proof fn law_exhaustive_is_least(t: spec_fn(Mv) -> int, center: Mv, i: int)
    requires
        forall|mv: Mv| 0 <= #[trigger] t(mv) <= i64::MAX,
        0 <= i < 289,
    ensures
        exhaustive(|mv: Mv, bound: int| t(mv), center).sad <= t(window((0, 0))[i]),
        exhaustive(|mv: Mv, bound: int| t(mv), center).sad <= t(window(center)[i]),
{
    let s = |mv: Mv, bound: int| t(mv);
    let b = offered_all(s, nothing(), window((0, 0)));
    law_best_is_least(t, nothing(), window((0, 0)), i);
    law_best_is_least(t, b, window(center), i);
    assert forall|mv: Mv, bound: int| i64::MIN <= #[trigger] s(mv, bound) <= i64::MAX by {
        assert(0 <= t(mv) <= i64::MAX);
    }
    law_trying_never_worsens(s, b, window(center));
}

// ---------------------------------------------------------------------------
// What a search comes to
// ---------------------------------------------------------------------------

/// `r` is the score `score`, which may have been given up over `bound`.
pub open spec fn fair_at(r: int, score: int, bound: int) -> bool {
    &&& 0 <= score <= i64::MAX
    &&& 0 <= r <= i64::MAX
    &&& score <= bound ==> r == score
    &&& score > bound ==> r > bound
}

/// `s` scores vectors as `t` does, but may give up over its bound.
pub open spec fn fair(s: spec_fn(Mv, int) -> int, t: spec_fn(Mv) -> int) -> bool {
    forall|mv: Mv, bound: int|
        0 <= bound <= i64::MAX ==> fair_at(#[trigger] s(mv, bound), t(mv), bound)
}

/// `b` scores no worse than `mv`, and where they score the same it is no longer.
pub open spec fn as_good(t: spec_fn(Mv) -> int, b: Best, mv: Mv) -> bool {
    b.sad < t(mv) || (b.sad == t(mv) && length(b.mv) <= length(mv))
}

/// Trying some more vectors gives the best of them and of the one before.
proof fn lemma_offered_all(
    s: spec_fn(Mv, int) -> int,
    t: spec_fn(Mv) -> int,
    b: Best,
    mvs: Seq<Mv>,
)
    requires
        fair(s, t),
        b.sad >= 0,
    ensures
        ({
            let r = offered_all(s, b, mvs);
            &&& r.sad >= 0
            &&& r == b || (improves(r, b) && r.sad == t(r.mv) && mvs.contains(r.mv))
            &&& forall|i: int| 0 <= i < mvs.len() ==> as_good(t, r, #[trigger] mvs[i])
        }),
    decreases mvs.len(),
{
    if mvs.len() > 0 {
        let rest = mvs.drop_last();
        let before = offered_all(s, b, rest);
        lemma_offered_all(s, t, b, rest);
        let last = mvs.last();
        let r = offered_all(s, b, mvs);
        assert(r == offered(s, before, last));
        let sad = s(last, before.sad as int);
        assert(t(last) <= before.sad ==> sad == t(last));
        assert forall|i: int| 0 <= i < mvs.len() implies as_good(t, r, #[trigger] mvs[i]) by {
            if i < rest.len() {
                assert(rest[i] == mvs[i]);
                assert(as_good(t, before, rest[i]));
            }
        }
        if r == before {
            if before != b {
                let k = choose|k: int| 0 <= k < rest.len() && rest[k] == before.mv;
                assert(mvs[k] == r.mv);
            }
        } else {
            assert(mvs[mvs.len() - 1] == r.mv);
        }
    }
}

/// The vector `i` rows and `j` columns of `step` away from `v`.
pub open spec fn hop(v: Mv, step: int, i: int, j: int) -> Mv {
    ((v.0 + i * step) as i32, (v.1 + j * step) as i32)
}

/// The ring around `v` holds just the vectors one step away in some direction.
proof fn lemma_ring(v: Mv, step: int)
    ensures
        ring(v, step).len() == 8,
        ring(v, step)[0] == hop(v, step, -1, 0),
        ring(v, step)[1] == hop(v, step, 1, 0),
        ring(v, step)[2] == hop(v, step, 0, -1),
        ring(v, step)[3] == hop(v, step, 0, 1),
        ring(v, step)[4] == hop(v, step, -1, -1),
        ring(v, step)[5] == hop(v, step, -1, 1),
        ring(v, step)[6] == hop(v, step, 1, -1),
        ring(v, step)[7] == hop(v, step, 1, 1),
        hop(v, step, 0, 0) == v,
{
    assert(-1 * step == -step && 1 * step == step && 0 * step == 0);
}

/// After the ring around it was tried, the best is as good as each vector a step away.
proof fn lemma_ring_tried(
    s: spec_fn(Mv, int) -> int,
    t: spec_fn(Mv) -> int,
    b: Best,
    step: int,
    i: int,
    j: int,
)
    requires
        fair(s, t),
        b.sad >= 0,
        b.sad == t(b.mv),
        -1 <= i <= 1,
        -1 <= j <= 1,
    ensures
        as_good(t, offered_all(s, b, ring(b.mv, step)), hop(b.mv, step, i, j)),
{
    let all = ring(b.mv, step);
    lemma_ring(b.mv, step);
    lemma_offered_all(s, t, b, all);
    let r = offered_all(s, b, all);
    assert(as_good(t, r, all[0]) && as_good(t, r, all[1]) && as_good(t, r, all[2]) && as_good(
        t,
        r,
        all[3],
    ) && as_good(t, r, all[4]) && as_good(t, r, all[5]) && as_good(t, r, all[6]) && as_good(
        t,
        r,
        all[7],
    ));
    if i == 0 && j == 0 {
        assert(as_good(t, b, b.mv));
    }
}

/// No vector one step away from that of `b` is better.
pub open spec fn in_a_dip(t: spec_fn(Mv) -> int, b: Best, step: int) -> bool {
    forall|i: int, j: int|
        -1 <= i <= 1 && -1 <= j <= 1 ==> as_good(t, b, #[trigger] hop(b.mv, step, i, j))
}

/// The vector `w` lies at most `step` from `v` in each direction and scores less, or the
/// same and is shorter.
pub open spec fn steps_down(t: spec_fn(Mv) -> int, v: Mv, w: Mv, step: int) -> bool {
    &&& abs(w.0 - v.0) <= step && abs(w.1 - v.1) <= step
    &&& t(w) < t(v) || (t(w) == t(v) && length(w) < length(v))
}

/// A path from `path[0]` on, on which each vector lies one step from the one before it and
/// scores less, or the same and is shorter.
pub open spec fn goes_down(t: spec_fn(Mv) -> int, path: Seq<Mv>, step: int) -> bool {
    forall|h: int, k: int|
        0 <= h && k == h + 1 && k < path.len() ==> steps_down(
            t,
            #[trigger] path[h],
            #[trigger] path[k],
            step,
        )
}

/// One round of moving in rings.
proof fn lemma_round(s: spec_fn(Mv, int) -> int, t: spec_fn(Mv) -> int, b: Best, step: int)
    requires
        fair(s, t),
        b.sad == t(b.mv),
        1 <= step <= 8,
        roomy(b.mv, 8),
    ensures
        ({
            let r = offered_all(s, b, ring(b.mv, step));
            &&& r.sad == t(r.mv)
            &&& r == b || improves(r, b)
            &&& forall|i: int, j: int|
                -1 <= i <= 1 && -1 <= j <= 1 ==> as_good(t, r, #[trigger] hop(b.mv, step, i, j))
            &&& abs(r.mv.0 - b.mv.0) <= step && abs(r.mv.1 - b.mv.1) <= step
        }),
{
    assert(s(b.mv, 0) >= 0);
    let all = ring(b.mv, step);
    let r = offered_all(s, b, all);
    lemma_offered_all(s, t, b, all);
    assert forall|i: int, j: int| -1 <= i <= 1 && -1 <= j <= 1 implies as_good(
        t,
        r,
        #[trigger] hop(b.mv, step, i, j),
    ) by {
        lemma_ring_tried(s, t, b, step, i, j);
    }
    if r != b {
        let k = choose|k: int| 0 <= k < all.len() && all[k] == r.mv;
        assert(all.len() == 8);
    }
}

/// A path stays downhill with one more vector before it.
proof fn lemma_path(t: spec_fn(Mv) -> int, v: Mv, tail: Seq<Mv>, step: int)
    requires
        tail.len() >= 1,
        goes_down(t, tail, step),
        steps_down(t, v, tail[0], step),
    ensures
        goes_down(t, seq![v] + tail, step),
{
    let path = seq![v] + tail;
    assert forall|h: int, k: int| 0 <= h && k == h + 1 && k < path.len() implies steps_down(
        t,
        #[trigger] path[h],
        #[trigger] path[k],
        step,
    ) by {
        if h > 0 {
            assert(path[k] == tail[k - 1] && path[h] == tail[h - 1]);
        }
    }
}

/// Moving in rings ends in a dip, or after `n` moves downhill.
proof fn lemma_rounds_path(
    s: spec_fn(Mv, int) -> int,
    t: spec_fn(Mv) -> int,
    b: Best,
    step: int,
    n: nat,
) -> (path: Seq<Mv>)
    requires
        fair(s, t),
        b.sad == t(b.mv),
        1 <= step <= 8,
        n <= 8,
        roomy(b.mv, (8 * n) as int),
    ensures
        ({
            let r = ring_rounds(s, b, step, n);
            &&& r.sad == t(r.mv)
            &&& r == b || improves(r, b)
            &&& in_a_dip(t, r, step) || path.len() == n + 1
            &&& 1 <= path.len() <= n + 1
            &&& path[0] == b.mv
            &&& path.last() == r.mv
            &&& goes_down(t, path, step)
        }),
    decreases n,
{
    if n == 0 {
        seq![b.mv]
    } else {
        assert(roomy(b.mv, 8));
        lemma_round(s, t, b, step);
        let b1 = offered_all(s, b, ring(b.mv, step));
        if b1 == b {
            seq![b.mv]
        } else {
            assert(roomy(b1.mv, 8 * n - 8));
            let tail = lemma_rounds_path(s, t, b1, step, (n - 1) as nat);
            lemma_path(t, b.mv, tail, step);
            seq![b.mv] + tail
        }
    }
}

/// Moving in rings does not lead far.
proof fn lemma_rounds_reach(
    s: spec_fn(Mv, int) -> int,
    t: spec_fn(Mv) -> int,
    b: Best,
    step: int,
    n: nat,
    room: int,
)
    requires
        fair(s, t),
        b.sad == t(b.mv),
        1 <= step <= 8,
        n <= 8,
        8 * n <= room,
        roomy(b.mv, room),
    ensures
        ({
            let r = ring_rounds(s, b, step, n);
            &&& abs(r.mv.0 - b.mv.0) <= n * step && abs(r.mv.1 - b.mv.1) <= n * step
            &&& roomy(r.mv, room - 8 * n)
        }),
    decreases n,
{
    assert(0 <= n * step) by (nonlinear_arith)
        requires
            1 <= step,
    ;
    if n > 0 {
        lemma_round(s, t, b, step);
        let b1 = offered_all(s, b, ring(b.mv, step));
        if b1 != b {
            lemma_rounds_reach(s, t, b1, step, (n - 1) as nat, room - 8);
            assert(n * step == (n - 1) * step + step) by (nonlinear_arith);
        }
    }
}

/// What moving in rings comes to.
proof fn lemma_rounds(
    s: spec_fn(Mv, int) -> int,
    t: spec_fn(Mv) -> int,
    b: Best,
    step: int,
    n: nat,
) -> (path: Seq<Mv>)
    requires
        fair(s, t),
        b.sad == t(b.mv),
        1 <= step <= 8,
        n <= 8,
        roomy(b.mv, (8 * n) as int),
    ensures
        ({
            let r = ring_rounds(s, b, step, n);
            &&& r.sad == t(r.mv)
            &&& r == b || improves(r, b)
            &&& n > 0 ==> forall|i: int, j: int|
                -1 <= i <= 1 && -1 <= j <= 1 ==> as_good(t, r, #[trigger] hop(b.mv, step, i, j))
            &&& in_a_dip(t, r, step) || path.len() == n + 1
            &&& 1 <= path.len() <= n + 1
            &&& path[0] == b.mv
            &&& path.last() == r.mv
            &&& goes_down(t, path, step)
            &&& abs(r.mv.0 - b.mv.0) <= n * step && abs(r.mv.1 - b.mv.1) <= n * step
            &&& forall|room: int|
                room >= 8 * n && #[trigger] roomy(b.mv, room) ==> roomy(r.mv, room - 8 * n)
        }),
{
    let r = ring_rounds(s, b, step, n);
    let path = lemma_rounds_path(s, t, b, step, n);
    lemma_rounds_reach(s, t, b, step, n, (8 * n) as int);
    assert forall|room: int| room >= 8 * n && #[trigger] roomy(b.mv, room) implies roomy(
        r.mv,
        room - 8 * n,
    ) by {
        lemma_rounds_reach(s, t, b, step, n, room);
    }
    if n > 0 {
        assert(roomy(b.mv, 8));
        lemma_round(s, t, b, step);
        let b1 = offered_all(s, b, ring(b.mv, step));
        if b1 != b {
            assert(roomy(b1.mv, 8 * n - 8));
            let _ = lemma_rounds_path(s, t, b1, step, (n - 1) as nat);
        }
        assert forall|i: int, j: int| -1 <= i <= 1 && -1 <= j <= 1 implies as_good(
            t,
            r,
            #[trigger] hop(b.mv, step, i, j),
        ) by {
            assert(as_good(t, b1, hop(b.mv, step, i, j)));
        }
    }
    path
}

/// The better of the two vectors that a diamond search starts from: zero, unless `center`
/// scores less.
pub open spec fn start_of(t: spec_fn(Mv) -> int, center: Mv) -> Mv {
    if t(center) < t((0, 0)) {
        center
    } else {
        (0, 0)
    }
}

proof fn lemma_start(s: spec_fn(Mv, int) -> int, t: spec_fn(Mv) -> int, center: Mv) -> (b: Best)
    requires
        fair(s, t),
    ensures
        b.mv == start_of(t, center),
        b.sad == t(b.mv),
        diamond(s, center) == descended(s, b),
{
    let b0 = offered(s, nothing(), (0, 0));
    let b1 = if center != (0i32, 0i32) {
        offered(s, b0, center)
    } else {
        b0
    };
    assert(s((0, 0), i64::MAX as int) == t((0, 0)));
    assert(s(center, b0.sad as int) >= 0);
    assert(b0.mv == (0i32, 0i32));
    assert(b0.sad == t((0, 0)));
    b1
}

/// The four stages of a descent.
proof fn lemma_descended(s: spec_fn(Mv, int) -> int, t: spec_fn(Mv) -> int, b: Best)
    requires
        fair(s, t),
        b.sad == t(b.mv),
        roomy(b.mv, 256),
    ensures
        ({
            let b8 = ring_rounds(s, b, 8, 8);
            let b4 = ring_rounds(s, b8, 4, 8);
            let b2 = ring_rounds(s, b4, 2, 8);
            let r = ring_rounds(s, b2, 1, 8);
            &&& r == descended(s, b)
            &&& b8.sad == t(b8.mv) && b4.sad == t(b4.mv) && b2.sad == t(b2.mv) && r.sad == t(r.mv)
            &&& roomy(b8.mv, 192) && roomy(b4.mv, 128) && roomy(b2.mv, 64)
            &&& r.sad <= b2.sad <= b4.sad <= b8.sad <= b.sad
            &&& abs(r.mv.0 - b.mv.0) <= 120 && abs(r.mv.1 - b.mv.1) <= 120
        }),
{
    let b8 = ring_rounds(s, b, 8, 8);
    let _ = lemma_rounds(s, t, b, 8, 8);
    assert(roomy(b8.mv, 192));
    let b4 = ring_rounds(s, b8, 4, 8);
    let _ = lemma_rounds(s, t, b8, 4, 8);
    assert(roomy(b4.mv, 128));
    let b2 = ring_rounds(s, b4, 2, 8);
    let _ = lemma_rounds(s, t, b4, 2, 8);
    assert(roomy(b2.mv, 64));
    let _ = lemma_rounds(s, t, b2, 1, 8);
}

/// The vector that the diamond search ends on scores no worse than any of its eight
/// neighbours one pixel away, unless the search went downhill for eight moves of one pixel
/// at its end: `path` is the way it then took.
pub proof fn law_diamond_ends_in_a_dip(
    s: spec_fn(Mv, int) -> int,
    t: spec_fn(Mv) -> int,
    center: Mv,
) -> (path: Seq<Mv>)
    requires
        fair(s, t),
        roomy(center, 256),
    ensures
        ({
            let r = diamond(s, center);
            &&& r.sad == t(r.mv)
            &&& path.last() == r.mv
            &&& path.len() <= 9
            &&& goes_down(t, path, 1)
            &&& path.len() == 9 || forall|i: int, j: int|
                -1 <= i <= 1 && -1 <= j <= 1 ==> r.sad <= t(
                    #[trigger] hop(r.mv, 1, i, j),
                )
        }),
{
    let b = lemma_start(s, t, center);
    lemma_descended(s, t, b);
    let b8 = ring_rounds(s, b, 8, 8);
    let b4 = ring_rounds(s, b8, 4, 8);
    let b2 = ring_rounds(s, b4, 2, 8);
    let path = lemma_rounds(s, t, b2, 1, 8);
    let r = diamond(s, center);
    if path.len() != 9 {
        assert forall|i: int, j: int| -1 <= i <= 1 && -1 <= j <= 1 implies r.sad <= t(
            #[trigger] hop(r.mv, 1, i, j),
        ) by {
            assert(as_good(t, r, hop(r.mv, 1, i, j)));
        }
    }
    path
}

/// The diamond search never ends on a worse vector than it started from, zero and the
/// predictor, and no farther than 120 pixels from the better of them.
pub proof fn law_diamond_beats_its_starts(
    s: spec_fn(Mv, int) -> int,
    t: spec_fn(Mv) -> int,
    center: Mv,
)
    requires
        fair(s, t),
        roomy(center, 256),
    ensures
        ({
            let r = diamond(s, center);
            let v = start_of(t, center);
            &&& r.sad == t(r.mv)
            &&& r.sad <= t((0, 0))
            &&& r.sad <= t(center)
            &&& abs(r.mv.0 - v.0) <= 120 && abs(r.mv.1 - v.1) <= 120
        }),
{
    let b = lemma_start(s, t, center);
    lemma_descended(s, t, b);
}

/// No vector `step` away from `v` is better than it, in any of the steps of a search that
/// are larger than `step`.
pub open spec fn no_larger_step_helps(t: spec_fn(Mv) -> int, v: Mv, step: int) -> bool {
    forall|w: int, i: int, j: int|
        (w == 8 || w == 4 || w == 2) && w > step && -1 <= i <= 1 && -1 <= j <= 1 ==> {
            let u = #[trigger] hop(v, w, i, j);
            t(v) < t(u) || (t(v) == t(u) && length(v) <= length(u))
        }
}

/// Rounds in which nothing is better leave the best as it is.
proof fn lemma_rounds_rest(
    s: spec_fn(Mv, int) -> int,
    t: spec_fn(Mv) -> int,
    b: Best,
    step: int,
)
    requires
        fair(s, t),
        b.sad == t(b.mv),
        forall|i: int, j: int|
            -1 <= i <= 1 && -1 <= j <= 1 ==> as_good(t, b, #[trigger] hop(b.mv, step, i, j)),
    ensures
        ring_rounds(s, b, step, 8) == b,
{
    let all = ring(b.mv, step);
    assert(s(b.mv, 0) >= 0);
    lemma_offered_all(s, t, b, all);
    lemma_ring(b.mv, step);
    let b1 = offered_all(s, b, all);
    if b1 != b {
        let k = choose|k: int| 0 <= k < all.len() && all[k] == b1.mv;
        assert(as_good(t, b, hop(b.mv, step, -1, 0)));
        assert(as_good(t, b, hop(b.mv, step, 1, 0)));
        assert(as_good(t, b, hop(b.mv, step, 0, -1)));
        assert(as_good(t, b, hop(b.mv, step, 0, 1)));
        assert(as_good(t, b, hop(b.mv, step, -1, -1)));
        assert(as_good(t, b, hop(b.mv, step, -1, 1)));
        assert(as_good(t, b, hop(b.mv, step, 1, -1)));
        assert(as_good(t, b, hop(b.mv, step, 1, 1)));
        assert(false);
    }
}

/// Each vector of `chain` behind the first lies one step from the one before it, and scores
/// less than all others that lie one step from it.
pub open spec fn steepest(t: spec_fn(Mv) -> int, chain: Seq<Mv>, step: int) -> bool {
    forall|k: int, i: int, j: int|
        0 < k < chain.len() && -1 <= i <= 1 && -1 <= j <= 1 ==> {
            let u = #[trigger] hop(chain[k - 1], step, i, j);
            u == #[trigger] chain[k] || t(chain[k]) < t(u)
        }
}

/// The vector `w` lies one step from `v`.
pub open spec fn one_hop(v: Mv, w: Mv, step: int) -> bool {
    exists|i: int, j: int| -1 <= i <= 1 && -1 <= j <= 1 && w == #[trigger] hop(v, step, i, j)
}

/// Each vector of `chain` behind the first lies one step from the one before it.
pub open spec fn stepwise(chain: Seq<Mv>, step: int) -> bool {
    forall|k: int| 0 < k < chain.len() ==> one_hop(chain[k - 1], #[trigger] chain[k], step)
}

/// Rounds follow the steepest way down for as long as they last.
proof fn lemma_rounds_follow(
    s: spec_fn(Mv, int) -> int,
    t: spec_fn(Mv) -> int,
    b: Best,
    step: int,
    n: nat,
    chain: Seq<Mv>,
)
    requires
        fair(s, t),
        b.sad == t(b.mv),
        1 <= step <= 8,
        n <= 8,
        roomy(b.mv, (8 * n) as int),
        1 <= chain.len() <= n + 1,
        chain[0] == b.mv,
        steepest(t, chain, step),
        stepwise(chain, step),
    ensures
        ring_rounds(s, b, step, n).sad <= t(chain.last()),
    decreases n,
{
    assert(s(b.mv, 0) >= 0);
    if chain.len() == 1 {
        let _ = lemma_rounds(s, t, b, step, n);
    } else {
        let all = ring(b.mv, step);
        let b1 = offered_all(s, b, all);
        let next = chain[1];
        lemma_ring(b.mv, step);
        lemma_offered_all(s, t, b, all);
        assert(one_hop(chain[1 - 1], chain[1], step));
        let (i, j) = choose|i: int, j: int|
            -1 <= i <= 1 && -1 <= j <= 1 && chain[1] == #[trigger] hop(chain[1 - 1], step, i, j);
        lemma_ring_tried(s, t, b, step, i, j);
        assert(as_good(t, b1, next));
        assert(hop(chain[0], step, -1, 0) == next || t(next) < t(hop(chain[0], step, -1, 0)));
        assert(hop(chain[0], step, 1, 0) == next || t(next) < t(hop(chain[0], step, 1, 0)));
        assert(hop(chain[0], step, 0, -1) == next || t(next) < t(hop(chain[0], step, 0, -1)));
        assert(hop(chain[0], step, 0, 1) == next || t(next) < t(hop(chain[0], step, 0, 1)));
        assert(hop(chain[0], step, -1, -1) == next || t(next) < t(hop(chain[0], step, -1, -1)));
        assert(hop(chain[0], step, -1, 1) == next || t(next) < t(hop(chain[0], step, -1, 1)));
        assert(hop(chain[0], step, 1, -1) == next || t(next) < t(hop(chain[0], step, 1, -1)));
        assert(hop(chain[0], step, 1, 1) == next || t(next) < t(hop(chain[0], step, 1, 1)));
        assert(hop(chain[0], step, 0, 0) == next || t(next) < t(hop(chain[0], step, 0, 0)));
        assert(b1.mv == next);
        assert(b1.sad == t(next));
        if b1 == b {
            // A vector that is its own next one leads nowhere: the chain stays where it is.
            lemma_chain_rests(t, chain, step);
        } else {
            assert(roomy(b1.mv, 8 * n - 8));
            let rest = chain.skip(1);
            assert forall|k: int, i: int, j: int|
                0 < k < rest.len() && -1 <= i <= 1 && -1 <= j <= 1 implies {
                let u = #[trigger] hop(rest[k - 1], step, i, j);
                u == #[trigger] rest[k] || t(rest[k]) < t(u)
            } by {
                assert(rest[k] == chain[k + 1] && rest[k - 1] == chain[k + 1 - 1]);
                assert(hop(chain[k + 1 - 1], step, i, j) == chain[k + 1] || t(chain[k + 1]) < t(
                    hop(chain[k + 1 - 1], step, i, j),
                ));
            }
            assert forall|k: int| 0 < k < rest.len() implies one_hop(
                rest[k - 1],
                #[trigger] rest[k],
                step,
            ) by {
                assert(one_hop(chain[k + 1 - 1], chain[k + 1], step));
            }
            lemma_rounds_follow(s, t, b1, step, (n - 1) as nat, rest);
            assert(rest.last() == chain.last());
        }
    }
}

/// A steepest way that does not leave its first vector ends there.
proof fn lemma_chain_rests(t: spec_fn(Mv) -> int, chain: Seq<Mv>, step: int)
    requires
        chain.len() >= 2,
        chain[1] == chain[0],
        steepest(t, chain, step),
        stepwise(chain, step),
    ensures
        chain.last() == chain[0],
    decreases chain.len(),
{
    if chain.len() > 2 {
        lemma_chain_rests_at(t, chain, step, 2);
        let rest = chain.drop_last();
        assert forall|k: int, i: int, j: int|
            0 < k < rest.len() && -1 <= i <= 1 && -1 <= j <= 1 implies {
            let u = #[trigger] hop(rest[k - 1], step, i, j);
            u == #[trigger] rest[k] || t(rest[k]) < t(u)
        } by {
            assert(rest[k] == chain[k] && rest[k - 1] == chain[k - 1]);
            assert(hop(chain[k - 1], step, i, j) == chain[k] || t(chain[k]) < t(
                hop(chain[k - 1], step, i, j),
            ));
        }
        assert forall|k: int| 0 < k < rest.len() implies one_hop(
            rest[k - 1],
            #[trigger] rest[k],
            step,
        ) by {
            assert(one_hop(chain[k - 1], chain[k], step));
        }
        lemma_chain_rests(t, rest, step);
        lemma_chain_rests_at(t, chain, step, chain.len() - 1);
    }
}

/// A steepest way rests behind a vector where it rested before.
proof fn lemma_chain_rests_at(t: spec_fn(Mv) -> int, chain: Seq<Mv>, step: int, k: int)
    requires
        2 <= k < chain.len(),
        chain[1] == chain[0],
        chain[k - 1] == chain[0],
        steepest(t, chain, step),
        stepwise(chain, step),
    ensures
        chain[k] == chain[0],
{
    assert(one_hop(chain[k - 1], chain[k], step));
    let (i, j) = choose|i: int, j: int|
        -1 <= i <= 1 && -1 <= j <= 1 && chain[k] == #[trigger] hop(chain[k - 1], step, i, j);
    assert(hop(chain[1 - 1], step, i, j) == chain[1] || t(chain[1]) < t(
        hop(chain[1 - 1], step, i, j),
    ));
    let v = chain[0];
    assert(hop(v, step, 0, 0) == v) by {
        assert(0 * step == 0);
    }
    assert(hop(chain[k - 1], step, 0, 0) == chain[k] || t(chain[k]) < t(
        hop(chain[k - 1], step, 0, 0),
    ));
}

/// The diamond search looks in steps of eight, four, two and one pixels, in this order:
/// where no larger step helps, it ends on a vector that scores no worse than each that lies
/// `step` away from its start.
pub proof fn law_diamond_looks_in_all_steps(
    s: spec_fn(Mv, int) -> int,
    t: spec_fn(Mv) -> int,
    center: Mv,
    step: int,
    i: int,
    j: int,
)
    requires
        fair(s, t),
        roomy(center, 256),
        step == 8 || step == 4 || step == 2 || step == 1,
        no_larger_step_helps(t, start_of(t, center), step),
        -1 <= i <= 1,
        -1 <= j <= 1,
    ensures
        diamond(s, center).sad <= t(hop(start_of(t, center), step, i, j)),
{
    let b = lemma_start(s, t, center);
    lemma_descended(s, t, b);
    if step < 8 {
        assert forall|i: int, j: int| -1 <= i <= 1 && -1 <= j <= 1 implies as_good(
            t,
            b,
            #[trigger] hop(b.mv, 8, i, j),
        ) by {}
        lemma_rounds_rest(s, t, b, 8);
    }
    if step < 4 {
        assert forall|i: int, j: int| -1 <= i <= 1 && -1 <= j <= 1 implies as_good(
            t,
            b,
            #[trigger] hop(b.mv, 4, i, j),
        ) by {}
        lemma_rounds_rest(s, t, b, 4);
    }
    if step < 2 {
        assert forall|i: int, j: int| -1 <= i <= 1 && -1 <= j <= 1 implies as_good(
            t,
            b,
            #[trigger] hop(b.mv, 2, i, j),
        ) by {}
        lemma_rounds_rest(s, t, b, 2);
    }
    let _ = lemma_rounds(s, t, b, step, 8);
    let r = ring_rounds(s, b, step, 8);
    assert(as_good(t, r, hop(b.mv, step, i, j)));
}

/// The diamond search follows the steepest way down for eight moves in each step: where no
/// larger step helps at its start, it ends on a vector that scores no worse than the last
/// of a chain of up to eight moves, each to the only best of the vectors `step` away.
pub proof fn law_diamond_follows_descent(
    s: spec_fn(Mv, int) -> int,
    t: spec_fn(Mv) -> int,
    center: Mv,
    step: int,
    chain: Seq<Mv>,
)
    requires
        fair(s, t),
        roomy(center, 256),
        step == 8 || step == 4 || step == 2 || step == 1,
        no_larger_step_helps(t, start_of(t, center), step),
        1 <= chain.len() <= 9,
        chain[0] == start_of(t, center),
        steepest(t, chain, step),
        stepwise(chain, step),
    ensures
        diamond(s, center).sad <= t(chain.last()),
{
    let b = lemma_start(s, t, center);
    lemma_descended(s, t, b);
    if step < 8 {
        assert forall|i: int, j: int| -1 <= i <= 1 && -1 <= j <= 1 implies as_good(
            t,
            b,
            #[trigger] hop(b.mv, 8, i, j),
        ) by {}
        lemma_rounds_rest(s, t, b, 8);
    }
    if step < 4 {
        assert forall|i: int, j: int| -1 <= i <= 1 && -1 <= j <= 1 implies as_good(
            t,
            b,
            #[trigger] hop(b.mv, 4, i, j),
        ) by {}
        lemma_rounds_rest(s, t, b, 4);
    }
    if step < 2 {
        assert forall|i: int, j: int| -1 <= i <= 1 && -1 <= j <= 1 implies as_good(
            t,
            b,
            #[trigger] hop(b.mv, 2, i, j),
        ) by {}
        lemma_rounds_rest(s, t, b, 2);
    }
    lemma_rounds_follow(s, t, b, step, 8, chain);
}

/// The exhaustive search ends on a vector that scores no worse than any up to eight pixels
/// away from zero or from the predictor, in every direction, and on one of those.
pub proof fn law_exhaustive_finds_the_least(
    s: spec_fn(Mv, int) -> int,
    t: spec_fn(Mv) -> int,
    center: Mv,
    dr: int,
    dc: int,
)
    requires
        fair(s, t),
        roomy(center, 8),
        -8 <= dr <= 8,
        -8 <= dc <= 8,
    ensures
        ({
            let r = exhaustive(s, center);
            &&& r.sad <= t((dr as i32, dc as i32))
            &&& r.sad <= t(((center.0 + dr) as i32, (center.1 + dc) as i32))
            &&& r.sad == t(r.mv)
            &&& (abs(r.mv.0 as int) <= 8 && abs(r.mv.1 as int) <= 8) || (abs(r.mv.0 - center.0)
                <= 8 && abs(r.mv.1 - center.1) <= 8)
        }),
{
    let (z, w) = (window((0, 0)), window(center));
    let b = offered_all(s, nothing(), z);
    let r = exhaustive(s, center);
    lemma_offered_all(s, t, nothing(), z);
    assert(s((0, 0), 0) >= 0);
    let i = (dr + 8) * 17 + dc + 8;
    assert(i / 17 == dr + 8 && i % 17 == dc + 8);
    assert(as_good(t, b, z[i]));
    assert(z[i] == (dr as i32, dc as i32));
    lemma_offered_all(s, t, b, w);
    assert(as_good(t, r, w[i]));
    assert(w[i] == ((center.0 + dr) as i32, (center.1 + dc) as i32));
    assert(z[144] == (0i32, 0i32));
    assert(as_good(t, b, z[144]));
    if b == nothing() {
        assert(t((0, 0)) == i64::MAX);
    } else {
        let k = choose|k: int| 0 <= k < z.len() && z[k] == b.mv;
        assert(abs(k / 17 - 8) <= 8 && abs(k % 17 - 8) <= 8);
    }
    if r != b {
        let k = choose|k: int| 0 <= k < w.len() && w[k] == r.mv;
        assert(abs(k / 17 - 8) <= 8 && abs(k % 17 - 8) <= 8);
    }
}

/// The sum of absolute differences of a block and of the moved reference.
pub open spec fn whole_sad(
    src: Picture,
    reference: Picture,
    base_x: int,
    base_y: int,
    tw: int,
    th: int,
) -> spec_fn(Mv) -> int {
    |mv: Mv|
        moved_sad(
            src,
            reference,
            base_x,
            base_y,
            mv.0 as int,
            mv.1 as int,
            tw,
            th,
            i64::MAX as int,
        )
}

/// The scorer of whole pixels gives the sums of absolute differences, or gives up over its
/// bound: what is said of a search with a fair scorer holds of the search for a block.
pub proof fn law_whole_scorer_is_fair(
    src: Picture,
    reference: Picture,
    base_x: int,
    base_y: int,
    tw: int,
    th: int,
)
    ensures
        fair(
            whole_scorer(src, reference, base_x, base_y, tw, th),
            whole_sad(src, reference, base_x, base_y, tw, th),
        ),
{
    let t = whole_sad(src, reference, base_x, base_y, tw, th);
    let s = whole_scorer(src, reference, base_x, base_y, tw, th);
    assert forall|mv: Mv, bound: int| 0 <= bound <= i64::MAX implies fair_at(
        #[trigger] s(mv, bound),
        t(mv),
        bound,
    ) by {
        let (r, c) = (mv.0 as int, mv.1 as int);
        law_perfect_match_scores_zero(
            src,
            reference,
            base_x,
            base_y,
            r,
            c,
            tw,
            th,
            i64::MAX as int,
        );
        law_perfect_match_scores_zero(src, reference, base_x, base_y, r, c, tw, th, bound);
    }
}

/// The whole pixels that a predictor points to lie between it and zero, less than a pixel
/// from it.
pub proof fn law_eighths_are_cut_off(v: int)
    ensures
        abs(8 * eighth(v)) <= abs(v) < abs(8 * eighth(v)) + 8,
        v >= 0 ==> eighth(v) >= 0,
        v <= 0 ==> eighth(v) <= 0,
{
}

/// `st` holds a vector with its score, and none of those that were tried is better.
spec fn settled_on(t: spec_fn(Mv) -> int, st: (Best, Seq<Mv>)) -> bool {
    &&& st.0.sad == t(st.0.mv)
    &&& forall|k: int| 0 <= k < st.1.len() ==> as_good(t, st.0, #[trigger] st.1[k])
}

proof fn lemma_tried(
    s: spec_fn(Mv, int) -> int,
    t: spec_fn(Mv) -> int,
    st: (Best, Seq<Mv>),
    mv: Mv,
)
    requires
        fair(s, t),
        settled_on(t, st),
    ensures
        ({
            let r = tried(s, st, mv);
            &&& settled_on(t, r)
            &&& as_good(t, r.0, mv)
            &&& r.0 == st.0 || (improves(r.0, st.0) && r.0.mv == mv)
        }),
{
    assert(s(st.0.mv, 0) >= 0);
    let r = tried(s, st, mv);
    if st.1.contains(mv) {
        let k = choose|k: int| 0 <= k < st.1.len() && st.1[k] == mv;
        assert(as_good(t, st.0, st.1[k]));
    } else {
        assert(s(mv, st.0.sad as int) >= 0);
        assert forall|k: int| 0 <= k < r.1.len() implies as_good(t, r.0, #[trigger] r.1[k]) by {
            if k < st.1.len() {
                assert(r.1[k] == st.1[k]);
                assert(as_good(t, st.0, st.1[k]));
            }
        }
    }
}

/// The four vectors in a line are tried one after the other.
proof fn lemma_plus(
    s: spec_fn(Mv, int) -> int,
    t: spec_fn(Mv) -> int,
    st: (Best, Seq<Mv>),
    step: int,
)
    requires
        fair(s, t),
        settled_on(t, st),
        1 <= step <= 4,
        roomy(st.0.mv, 8),
    ensures
        ({
            let r = tried_all(s, st, plus(st.0.mv, step));
            let v = st.0.mv;
            &&& settled_on(t, r)
            &&& r.0 == st.0 || improves(r.0, st.0)
            &&& as_good(t, r.0, hop(v, step, -1, 0)) && as_good(t, r.0, hop(v, step, 1, 0))
            &&& as_good(t, r.0, hop(v, step, 0, -1)) && as_good(t, r.0, hop(v, step, 0, 1))
            &&& r.0.mv.0 - v.0 == -step || r.0.mv.0 == v.0 || r.0.mv.0 - v.0 == step
            &&& r.0.mv.1 - v.1 == -step || r.0.mv.1 == v.1 || r.0.mv.1 - v.1 == step
            &&& as_good(t, st.0, hop(v, step, -1, 0)) && as_good(t, st.0, hop(v, step, 1, 0))
                && as_good(t, st.0, hop(v, step, 0, -1)) && as_good(t, st.0, hop(v, step, 0, 1))
                ==> r.0 == st.0
        }),
{
    let v = st.0.mv;
    let all = plus(v, step);
    reveal_with_fuel(tried_all, 5);
    assert(all.drop_last() =~= seq![all[0], all[1], all[2]]);
    assert(seq![all[0], all[1], all[2]].drop_last() =~= seq![all[0], all[1]]);
    assert(seq![all[0], all[1]].drop_last() =~= seq![all[0]]);
    assert(seq![all[0]].drop_last() =~= Seq::<Mv>::empty());
    assert(-1 * step == -step && 1 * step == step && 0 * step == 0);
    assert(all[0] == hop(v, step, -1, 0) && all[1] == hop(v, step, 1, 0));
    assert(all[2] == hop(v, step, 0, -1) && all[3] == hop(v, step, 0, 1));
    let s0 = tried(s, st, all[0]);
    let s1 = tried(s, s0, all[1]);
    let s2 = tried(s, s1, all[2]);
    let s3 = tried(s, s2, all[3]);
    lemma_tried(s, t, st, all[0]);
    lemma_tried(s, t, s0, all[1]);
    lemma_tried(s, t, s1, all[2]);
    lemma_tried(s, t, s2, all[3]);
    assert(tried_all(s, st, all) == s3);
}

/// Moving in a line ends no worse than it began and than the four vectors around the
/// beginning, and without a limit in a dip.
#[verifier::rlimit(60)]
proof fn lemma_plus_rounds(
    s: spec_fn(Mv, int) -> int,
    t: spec_fn(Mv) -> int,
    st: (Best, Seq<Mv>),
    step: int,
    limit: nat,
)
    requires
        fair(s, t),
        settled_on(t, st),
        1 <= step <= 4,
        roomy(st.0.mv, 8),
    ensures
        ({
            let r = plus_rounds(s, st, step, limit);
            let (v, w) = (st.0.mv, r.0.mv);
            &&& settled_on(t, r)
            &&& r.0 == st.0 || improves(r.0, st.0)
            &&& as_good(t, r.0, hop(v, step, -1, 0)) && as_good(t, r.0, hop(v, step, 1, 0))
            &&& as_good(t, r.0, hop(v, step, 0, -1)) && as_good(t, r.0, hop(v, step, 0, 1))
            &&& limit == 0 && roomy(w, 8) ==> {
                &&& as_good(t, r.0, hop(w, step, -1, 0)) && as_good(t, r.0, hop(w, step, 1, 0))
                &&& as_good(t, r.0, hop(w, step, 0, -1)) && as_good(t, r.0, hop(w, step, 0, 1))
            }
            &&& step == 4 || step == 2 ==> (w.0 - v.0) % 2 == 0 && (w.1 - v.1) % 2 == 0
            &&& as_good(t, st.0, hop(v, step, -1, 0)) && as_good(t, st.0, hop(v, step, 1, 0))
                && as_good(t, st.0, hop(v, step, 0, -1)) && as_good(t, st.0, hop(v, step, 0, 1))
                ==> r.0 == st.0
        }),
    decreases st.0.sad, length(st.0.mv),
{
    assert(s(st.0.mv, 0) >= 0);
    let st1 = tried_all(s, st, plus(st.0.mv, step));
    lemma_plus(s, t, st, step);
    assert(t(st1.0.mv) >= 0) by {
        assert(s(st1.0.mv, 0) >= 0);
    }
    if limit != 1 && improves(st1.0, st.0) && st1.0.sad >= 0 && roomy(st1.0.mv, 8) {
        lemma_plus_rounds(
            s,
            t,
            st1,
            step,
            if limit == 0 {
                0
            } else {
                (limit - 1) as nat
            },
        );
    }
}

/// A vector `step` away from `v` in a line with it.
pub open spec fn beside(v: Mv, step: int, i: int) -> Mv {
    if i == 0 {
        ((v.0 - step) as i32, v.1)
    } else if i == 1 {
        ((v.0 + step) as i32, v.1)
    } else if i == 2 {
        (v.0, (v.1 - step) as i32)
    } else {
        (v.0, (v.1 + step) as i32)
    }
}

/// No vector `step` away from that of `b` in a line with it is better.
pub open spec fn none_beside(t: spec_fn(Mv) -> int, b: Best, step: int) -> bool {
    forall|i: int| 0 <= i < 4 ==> as_good(t, b, #[trigger] beside(b.mv, step, i))
}

proof fn lemma_beside(v: Mv, step: int)
    ensures
        hop(v, step, -1, 0) == beside(v, step, 0),
        hop(v, step, 1, 0) == beside(v, step, 1),
        hop(v, step, 0, -1) == beside(v, step, 2),
        hop(v, step, 0, 1) == beside(v, step, 3),
{
    assert(-1 * step == -step && 1 * step == step && 0 * step == 0);
}

/// The fast search for fractions ends no worse than it began and than the four vectors
/// half a pixel away. With `tree` it ends where it began if none of these is better, else
/// it goes on to quarters and, with `hp`, to eighths: where nothing larger helped it ends
/// no worse than the four vectors that far away. Without a limit it ends in a dip.
pub proof fn law_fast_search_finds_fractions(
    s: spec_fn(Mv, int) -> int,
    t: spec_fn(Mv) -> int,
    b: Best,
    hp: bool,
    tree: bool,
    limit: nat,
    i: int,
)
    requires
        fair(s, t),
        b.sad == t(b.mv),
        roomy(b.mv, 8),
        0 <= i < 4,
    ensures
        ({
            let r = fast_search(s, b, hp, tree, limit);
            &&& r.sad == t(r.mv)
            &&& r == b || improves(r, b)
            &&& r.sad <= t(beside(b.mv, 4, i))
            &&& tree && none_beside(t, b, 4) ==> r == b
            &&& !tree && none_beside(t, b, 4) ==> r.sad <= t(beside(b.mv, 2, i))
            &&& !tree && hp && none_beside(t, b, 4) && none_beside(t, b, 2) ==> r.sad <= t(
                beside(b.mv, 1, i),
            )
            &&& !tree && limit == 0 && roomy(r.mv, 8) ==> r.sad <= t(
                beside(
                    r.mv,
                    if hp {
                        1
                    } else {
                        2
                    },
                    i,
                ),
            )
            &&& !hp ==> (r.mv.0 - b.mv.0) % 2 == 0 && (r.mv.1 - b.mv.1) % 2 == 0
        }),
{
    assert(s(b.mv, 0) >= 0);
    let st = (b, seq![b.mv]);
    let st4 = plus_rounds(s, st, 4, limit);
    lemma_plus_rounds(s, t, st, 4, limit);
    lemma_beside(b.mv, 4);
    let r = fast_search(s, b, hp, tree, limit);
    if none_beside(t, b, 4) {
        assert(as_good(t, b, beside(b.mv, 4, 0)) && as_good(t, b, beside(b.mv, 4, 1)) && as_good(
            t,
            b,
            beside(b.mv, 4, 2),
        ) && as_good(t, b, beside(b.mv, 4, 3)));
        assert(st4.0 == b);
    }
    if !((tree && st4.0 == b) || !roomy(st4.0.mv, 8)) {
        let st2 = plus_rounds(s, st4, 2, limit);
        lemma_plus_rounds(s, t, st4, 2, limit);
        lemma_beside(b.mv, 2);
        lemma_beside(st2.0.mv, 2);
        if none_beside(t, b, 2) {
            assert(as_good(t, b, beside(b.mv, 2, 0)) && as_good(t, b, beside(b.mv, 2, 1))
                && as_good(t, b, beside(b.mv, 2, 2)) && as_good(t, b, beside(b.mv, 2, 3)));
        }
        if hp && roomy(st2.0.mv, 8) {
            let st1 = plus_rounds(s, st2, 1, limit);
            lemma_plus_rounds(s, t, st2, 1, limit);
            lemma_beside(b.mv, 1);
            lemma_beside(st1.0.mv, 1);
        }
    }
}

/// One level of the diagonal search.
proof fn lemma_level(
    s: spec_fn(Mv, int) -> int,
    t: spec_fn(Mv) -> int,
    st: (Best, Seq<Mv>),
    step: int,
)
    requires
        fair(s, t),
        settled_on(t, st),
        1 <= step <= 4,
        roomy(st.0.mv, 8),
    ensures
        ({
            let r = level(s, st, step);
            let (v, w) = (st.0.mv, r.0.mv);
            &&& settled_on(t, r)
            &&& r.0 == st.0 || improves(r.0, st.0)
            &&& as_good(t, r.0, beside(v, step, 0)) && as_good(t, r.0, beside(v, step, 1))
            &&& as_good(t, r.0, beside(v, step, 2)) && as_good(t, r.0, beside(v, step, 3))
            &&& w.0 - v.0 == -step || w.0 == v.0 || w.0 - v.0 == step
            &&& w.1 - v.1 == -step || w.1 == v.1 || w.1 - v.1 == step
            &&& forall|room: int|
                room >= 4 && #[trigger] roomy(v, room) ==> roomy(w, room - 4)
            &&& none_beside(t, st.0, step) ==> r.0 == st.0
        }),
{
    let c = st.0.mv;
    let l0 = Level { best: st.0, trail: st.1, row: 0, col: 0 };
    let l1 = level_tried(s, l0, c, 0, -step);
    let l2 = level_tried(s, l1, c, 0, step);
    let l3 = level_tried(s, l2, c, -step, 0);
    let l4 = level_tried(s, l3, c, step, 0);
    lemma_tried(s, t, st, shifted(c, 0, -step));
    lemma_tried(s, t, (l1.best, l1.trail), shifted(c, 0, step));
    lemma_tried(s, t, (l2.best, l2.trail), shifted(c, -step, 0));
    lemma_tried(s, t, (l3.best, l3.trail), shifted(c, step, 0));
    assert(shifted(c, 0, -step) == beside(c, step, 2));
    assert(shifted(c, 0, step) == beside(c, step, 3));
    assert(shifted(c, -step, 0) == beside(c, step, 0));
    assert(shifted(c, step, 0) == beside(c, step, 1));
    lemma_tried(s, t, (l4.best, l4.trail), shifted(c, l4.row, l4.col));
    if none_beside(t, st.0, step) {
        assert(as_good(t, st.0, beside(c, step, 0)) && as_good(t, st.0, beside(c, step, 1)));
        assert(as_good(t, st.0, beside(c, step, 2)) && as_good(t, st.0, beside(c, step, 3)));
    }
}

/// The diagonal search for fractions ends no worse than it began and than the four vectors
/// half a pixel away; where none of these is better, no worse than those a quarter away,
/// and with `hp` likewise an eighth. It goes no farther than these steps together, and
/// without `hp` not to eighths.
#[verifier::rlimit(60)]
pub proof fn law_diagonal_search_finds_fractions(
    s: spec_fn(Mv, int) -> int,
    t: spec_fn(Mv) -> int,
    b: Best,
    hp: bool,
    i: int,
)
    requires
        fair(s, t),
        b.sad == t(b.mv),
        roomy(b.mv, 16),
        0 <= i < 4,
    ensures
        ({
            let r = diagonal_search(s, b, hp);
            &&& r.sad == t(r.mv)
            &&& r == b || improves(r, b)
            &&& r.sad <= t(beside(b.mv, 4, i))
            &&& none_beside(t, b, 4) ==> r.sad <= t(beside(b.mv, 2, i))
            &&& hp && none_beside(t, b, 4) && none_beside(t, b, 2) ==> r.sad <= t(
                beside(b.mv, 1, i),
            )
            &&& abs(r.mv.0 - b.mv.0) <= 7 && abs(r.mv.1 - b.mv.1) <= 7
            &&& !hp ==> (r.mv.0 - b.mv.0) % 2 == 0 && (r.mv.1 - b.mv.1) % 2 == 0
        }),
{
    assert(s(b.mv, 0) >= 0);
    let st = (b, seq![b.mv]);
    let st4 = level(s, st, 4);
    assert(roomy(b.mv, 8));
    lemma_level(s, t, st, 4);
    assert(roomy(st4.0.mv, 12));
    assert(roomy(st4.0.mv, 8));
    let st2 = level(s, st4, 2);
    lemma_level(s, t, st4, 2);
    assert(roomy(st2.0.mv, 8));
    if hp {
        lemma_level(s, t, st2, 1);
    }
}

/// Where a vector half a pixel up or down is the best of the four in a line, and one to the
/// side is better than the beginning and than that to the other side, the diagonal search
/// ends no worse than the corner between them.
pub proof fn law_diagonal_search_looks_at_the_corner(
    s: spec_fn(Mv, int) -> int,
    t: spec_fn(Mv) -> int,
    b: Best,
    hp: bool,
    dr: int,
    dc: int,
)
    requires
        fair(s, t),
        b.sad == t(b.mv),
        roomy(b.mv, 16),
        dr == 4 || dr == -4,
        dc == 4 || dc == -4,
        t(shifted(b.mv, 0, dc)) < b.sad,
        t(shifted(b.mv, 0, dc)) < t(shifted(b.mv, 0, -dc)),
        t(shifted(b.mv, dr, 0)) < t(shifted(b.mv, 0, dc)),
        t(shifted(b.mv, dr, 0)) < t(shifted(b.mv, -dr, 0)),
    ensures
        diagonal_search(s, b, hp).sad <= t(shifted(b.mv, dr, dc)),
{
    assert(s(b.mv, 0) >= 0);
    let st = (b, seq![b.mv]);
    let c = b.mv;
    let l0 = Level { best: st.0, trail: st.1, row: 0, col: 0 };
    let l1 = level_tried(s, l0, c, 0, -4);
    let l2 = level_tried(s, l1, c, 0, 4);
    let l3 = level_tried(s, l2, c, -4, 0);
    let l4 = level_tried(s, l3, c, 4, 0);
    lemma_tried(s, t, st, shifted(c, 0, -4));
    lemma_tried(s, t, (l1.best, l1.trail), shifted(c, 0, 4));
    lemma_tried(s, t, (l2.best, l2.trail), shifted(c, -4, 0));
    lemma_tried(s, t, (l3.best, l3.trail), shifted(c, 4, 0));
    lemma_tried(s, t, (l4.best, l4.trail), shifted(c, l4.row, l4.col));
    assert(l2.col == dc);
    assert(l4.row == dr && l4.col == dc);
    let st4 = level(s, st, 4);
    assert(as_good(t, st4.0, shifted(c, dr, dc)));
    assert(roomy(b.mv, 8));
    lemma_level(s, t, st, 4);
    assert(roomy(st4.0.mv, 12));
    assert(roomy(st4.0.mv, 8));
    let st2 = level(s, st4, 2);
    lemma_level(s, t, st4, 2);
    assert(roomy(st2.0.mv, 8));
    if hp {
        lemma_level(s, t, st2, 1);
    }
}

/// The search of all quarters ends on the best vector of those up to half a pixel away.
pub proof fn law_grid_search_finds_the_least(
    s: spec_fn(Mv, int) -> int,
    t: spec_fn(Mv) -> int,
    b: Best,
    i: int,
    j: int,
)
    requires
        fair(s, t),
        b.sad == t(b.mv),
        roomy(b.mv, 8),
        -2 <= i <= 2,
        -2 <= j <= 2,
    ensures
        ({
            let r = offered_all(s, b, quarter_grid(b.mv));
            &&& r.sad == t(r.mv)
            &&& r.sad <= t(((b.mv.0 + 2 * i) as i32, (b.mv.1 + 2 * j) as i32))
            &&& abs(r.mv.0 - b.mv.0) <= 4 && abs(r.mv.1 - b.mv.1) <= 4
            &&& (r.mv.0 - b.mv.0) % 2 == 0 && (r.mv.1 - b.mv.1) % 2 == 0
        }),
{
    let g = quarter_grid(b.mv);
    assert(s(b.mv, 0) >= 0);
    lemma_offered_all(s, t, b, g);
    let r = offered_all(s, b, g);
    let k = 5 * (i + 2) + j + 2;
    assert(k / 5 == i + 2 && k % 5 == j + 2);
    if k < 12 {
        assert(as_good(t, r, g[k]));
    } else if k > 12 {
        assert(as_good(t, r, g[k - 1]));
    }
    if r != b {
        let n = choose|n: int| 0 <= n < g.len() && g[n] == r.mv;
        let m = if n < 12 {
            n
        } else {
            n + 1
        };
        assert(0 <= m / 5 <= 4 && 0 <= m % 5 <= 4);
    }
}

/// A vector that fits perfectly is kept: where the search over whole pixels finds one for
/// the whole block that needs no clamping, that is the vector of the block, whatever is
/// said of fractions. A predictor that is good enough is kept as well.
pub proof fn law_perfect_vectors_are_kept(
    s: spec_fn(Mv, int) -> int,
    f: spec_fn(Mv, int) -> int,
    mi_row: int,
    mi_col: int,
    mi_rows: int,
    mi_cols: int,
    predictor: Mv,
    tw: int,
    th: int,
    plan: SearchPlan,
)
    ensures
        ({
            let center = (eighth(predictor.0 as int) as i32, eighth(predictor.1 as int) as i32);
            let r = searched(s, f, mi_row, mi_col, mi_rows, mi_cols, predictor, tw, th, plan);
            let b = whole_search(s, center, plan.exhaustive);
            let mv = ((8 * b.mv.0) as i32, (8 * b.mv.1) as i32);
            let e = edges(3, mi_row, mi_col, mi_rows, mi_cols);
            &&& plan.good_enough is Some && s(center, i64::MAX as int) < plan.good_enough.unwrap()
                ==> r == predictor
            &&& plan.good_enough is None && !plan.corner && b.sad == 0 && umv_clamped(
                mv.0 as int,
                8 * th,
                0,
                e.2,
                e.3,
            ) == 2 * mv.0 && umv_clamped(mv.1 as int, 8 * tw, 0, e.0, e.1) == 2 * mv.1 ==> r == mv
        }),
{
}

} // verus!
