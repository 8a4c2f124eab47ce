//! Motion search for parts of blocks and for the two vectors of a block: a vector is
//! taken only if its score is less, however short it is.
use vstd::prelude::*;

use crate::block::Mv;
use crate::encode::search::{
    beside, eighth, fair, fair_at, hop, in_range, nothing, plus, quarter_grid, reply, ring, roomy,
    scores_as, shifted, start_of, Best,
};
use crate::mv::abs;

verus! {

/// The best after one more vector.
pub open spec fn lessened(s: spec_fn(Mv, int) -> int, b: Best, mv: Mv) -> Best {
    let sad = s(mv, b.sad as int);
    if sad < b.sad {
        Best { mv, sad: sad as i64 }
    } else {
        b
    }
}

/// The best after some more vectors.
pub open spec fn lessened_all(s: spec_fn(Mv, int) -> int, b: Best, mvs: Seq<Mv>) -> Best
    decreases mvs.len(),
{
    if mvs.len() == 0 {
        b
    } else {
        lessened(s, lessened_all(s, b, mvs.drop_last()), mvs.last())
    }
}

/// The refinement of one of the two vectors of a block: by a half, then by a quarter.
pub open spec fn refined(s: spec_fn(Mv, int) -> int, start: Mv) -> Best {
    let b0 = Best { mv: start, sad: s(start, i64::MAX as int) as i64 };
    let b4 = lessened_all(s, b0, plus(b0.mv, 4));
    lessened_all(s, b4, plus(b4.mv, 2))
}

/// Scores a vector and takes it if its score is less.
fn consider<F: Fn(Mv, i64) -> i64>(
    f: &F,
    best: &mut Best,
    mv: Mv,
    Ghost(s): Ghost<spec_fn(Mv, int) -> int>,
) -> (taken: bool)
    requires
        scores_as(*f, s),
        in_range(mv),
        old(best).sad >= 0,
    ensures
        *final(best) == lessened(s, *old(best), mv),
        final(best).sad >= 0,
        taken == (final(best).sad < old(best).sad),
        taken ==> final(best).mv == mv,
        !taken ==> *final(best) == *old(best),
{
    let sad: i64 = f(mv, best.sad);
    if sad < best.sad {
        best.mv = mv;
        best.sad = sad;
        true
    } else {
        false
    }
}

/// The vector `(r, c)` away from `v`.
fn shift(v: Mv, r: i32, c: i32) -> (w: Mv)
    requires
        in_range(v),
        -64 <= r <= 64,
        -64 <= c <= 64,
    ensures
        w == shifted(v, r as int, c as int),
{
    (v.0 + r, v.1 + c)
}

/// Tries the four vectors in a line with the best so far.
fn try_plus<F: Fn(Mv, i64) -> i64>(
    f: &F,
    best: &mut Best,
    step: i32,
    Ghost(s): Ghost<spec_fn(Mv, int) -> int>,
)
    requires
        scores_as(*f, s),
        1 <= step <= 4,
        roomy(old(best).mv, 8),
        old(best).sad >= 0,
    ensures
        *final(best) == lessened_all(s, *old(best), plus(old(best).mv, step as int)),
        final(best).sad >= 0,
        forall|room: int|
            room >= 8 && #[trigger] roomy(old(best).mv, room) ==> roomy(final(best).mv, room - 4),
{
    let c: Mv = best.mv;
    let ghost all = plus(c, step as int);
    proof {
        reveal_with_fuel(lessened_all, 5);
        assert(all.drop_last() =~= seq![all[0], all[1], all[2]]);
        assert(seq![all[0], all[1], all[2]].drop_last() =~= seq![all[0], all[1]]);
        assert(seq![all[0], all[1]].drop_last() =~= seq![all[0]]);
        assert(seq![all[0]].drop_last() =~= Seq::<Mv>::empty());
    }
    consider(f, best, shift(c, -step, 0), Ghost(s));
    consider(f, best, shift(c, step, 0), Ghost(s));
    consider(f, best, shift(c, 0, -step), Ghost(s));
    consider(f, best, shift(c, 0, step), Ghost(s));
}

/// Refines one of the two vectors of a block, while the other is held.
pub fn compound_refine<F: Fn(Mv, i64) -> i64>(f: F, start: Mv) -> (r: Mv)
    requires
        scores_as(f, reply(f)),
        roomy(start, 16),
    ensures
        r == refined(reply(f), start).mv,
{
    let ghost s = reply(f);
    let sad: i64 = f(start, i64::MAX);
    let mut best: Best = Best { mv: start, sad };
    try_plus(&f, &mut best, 4, Ghost(s));
    assert(roomy(best.mv, 12));
    try_plus(&f, &mut best, 2, Ghost(s));
    best.mv
}

/// Moving in a ring, up to `n` times, while that lessens the score.
pub open spec fn sub_rounds(s: spec_fn(Mv, int) -> int, b: Best, step: int, n: nat) -> Best
    decreases n,
{
    if n == 0 {
        b
    } else {
        let b1 = lessened_all(s, b, ring(b.mv, step));
        if b1.sad == b.sad {
            b
        } else {
            sub_rounds(s, b1, step, (n - 1) as nat)
        }
    }
}

/// All vectors up to four pixels away from `v`, row by row.
pub open spec fn sub_window(v: Mv) -> Seq<Mv> {
    Seq::new(81, |i: int| shifted(v, 8 * (i / 9) - 32, 8 * (i % 9) - 32))
}

/// The search for a part over whole pixels: around zero and around `center`.
pub open spec fn sub_whole(s: spec_fn(Mv, int) -> int, center: Mv, exhaustive: bool) -> Best {
    if exhaustive {
        lessened_all(s, lessened_all(s, nothing(), sub_window((0, 0))), sub_window(center))
    } else {
        let b0 = lessened(s, nothing(), (0, 0));
        let b1 = if center != (0i32, 0i32) {
            lessened(s, b0, center)
        } else {
            b0
        };
        sub_rounds(s, sub_rounds(s, sub_rounds(s, b1, 32, 8), 16, 8), 8, 8)
    }
}

/// The vector that is found for a part.
pub open spec fn sub_searched(s: spec_fn(Mv, int) -> int, predictor: Mv, exhaustive: bool) -> Mv {
    let center = (
        (8 * eighth(predictor.0 as int)) as i32,
        (8 * eighth(predictor.1 as int)) as i32,
    );
    let b = sub_whole(s, center, exhaustive);
    lessened_all(s, b, quarter_grid(b.mv)).mv
}

/// Moves to the best of the vectors around the best so far.
fn try_ring<F: Fn(Mv, i64) -> i64>(
    f: &F,
    best: &mut Best,
    step: i32,
    Ghost(s): Ghost<spec_fn(Mv, int) -> int>,
) -> (moved: bool)
    requires
        scores_as(*f, s),
        1 <= step <= 32,
        roomy(old(best).mv, 32),
        old(best).sad >= 0,
    ensures
        *final(best) == lessened_all(s, *old(best), ring(old(best).mv, step as int)),
        final(best).sad >= 0,
        moved == (final(best).sad != old(best).sad),
        !moved ==> *final(best) == *old(best),
        forall|room: int|
            room >= 32 && #[trigger] roomy(old(best).mv, room) ==> roomy(final(best).mv, room - 32),
{
    let ghost start = *best;
    let center: Mv = best.mv;
    let offsets: [(i32, i32); 8] = [
        (-step, 0),
        (step, 0),
        (0, -step),
        (0, step),
        (-step, -step),
        (-step, step),
        (step, -step),
        (step, step),
    ];
    let ghost all = ring(center, step as int);
    let mut moved: bool = false;
    let mut k: usize = 0;
    while k < 8
        invariant
            k <= 8,
            scores_as(*f, s),
            1 <= step <= 32,
            roomy(center, 32),
            center == start.mv,
            all == ring(center, step as int),
            forall|i: int|
                0 <= i < 8 ==> all[i] == shifted(
                    center,
                    (#[trigger] offsets[i]).0 as int,
                    offsets[i].1 as int,
                ) && abs(offsets[i].0 as int) <= 32 && abs(offsets[i].1 as int) <= 32,
            *best == lessened_all(s, start, all.take(k as int)),
            best.sad >= 0,
            moved ==> best.sad < start.sad,
            !moved ==> *best == start,
            forall|room: int|
                room >= 32 && #[trigger] roomy(center, room) ==> roomy(best.mv, room - 32),
        decreases 8 - k,
    {
        let o: (i32, i32) = offsets[k];
        assert(all[k as int] == shifted(
            center,
            offsets[k as int].0 as int,
            offsets[k as int].1 as int,
        ));
        assert(all.take(k + 1).drop_last() =~= all.take(k as int));
        let mv: Mv = shift(center, o.0, o.1);
        let taken: bool = consider(f, best, mv, Ghost(s));
        moved = moved || taken;
        k += 1;
    }
    assert(all.take(8) =~= all);
    moved
}

/// Moves in rings, while that lessens the score.
fn try_rings<F: Fn(Mv, i64) -> i64>(
    f: &F,
    best: &mut Best,
    step: i32,
    Ghost(s): Ghost<spec_fn(Mv, int) -> int>,
)
    requires
        scores_as(*f, s),
        1 <= step <= 32,
        roomy(old(best).mv, 256),
        old(best).sad >= 0,
    ensures
        *final(best) == sub_rounds(s, *old(best), step as int, 8),
        final(best).sad >= 0,
        forall|room: int|
            room >= 256 && #[trigger] roomy(old(best).mv, room) ==> roomy(final(best).mv, room - 256),
{
    let ghost start = *best;
    let mut i: usize = 0;
    let mut moved: bool = true;
    while i < 8 && moved
        invariant
            i <= 8,
            scores_as(*f, s),
            1 <= step <= 32,
            best.sad >= 0,
            roomy(start.mv, 256),
            roomy(best.mv, 256 - 32 * i),
            forall|room: int|
                room >= 256 && #[trigger] roomy(start.mv, room) ==> roomy(best.mv, room - 32 * i),
            sub_rounds(s, start, step as int, 8) == (if moved {
                sub_rounds(s, *best, step as int, (8 - i) as nat)
            } else {
                *best
            }),
        decreases 8 - i,
    {
        let ghost before = *best;
        assert(forall|room: int|
            room >= 256 && #[trigger] roomy(start.mv, room) ==> roomy(before.mv, room - 32 * i));
        moved = try_ring(f, best, step, Ghost(s));
        assert(roomy(before.mv, 256 - 32 * i));
        i += 1;
    }
}

/// Tries all vectors up to four pixels away from `center`.
fn try_window<F: Fn(Mv, i64) -> i64>(
    f: &F,
    best: &mut Best,
    center: Mv,
    Ghost(s): Ghost<spec_fn(Mv, int) -> int>,
)
    requires
        scores_as(*f, s),
        roomy(center, 32),
        old(best).sad >= 0,
    ensures
        *final(best) == lessened_all(s, *old(best), sub_window(center)),
        final(best).sad >= 0,
        forall|room: int|
            room >= 32 && #[trigger] roomy(center, room) && roomy(old(best).mv, room - 32) ==> roomy(
                final(best).mv,
                room - 32,
            ),
{
    let ghost start = *best;
    let ghost all = sub_window(center);
    let mut i: i32 = 0;
    while i < 81
        invariant
            0 <= i <= 81,
            scores_as(*f, s),
            roomy(center, 32),
            best.sad >= 0,
            all == sub_window(center),
            *best == lessened_all(s, start, all.take(i as int)),
            forall|room: int|
                room >= 32 && #[trigger] roomy(center, room) && roomy(start.mv, room - 32) ==> roomy(
                    best.mv,
                    room - 32,
                ),
        decreases 81 - i,
    {
        assert(all.take(i + 1).drop_last() =~= all.take(i as int));
        let mv: Mv = shift(center, 8 * (i / 9) - 32, 8 * (i % 9) - 32);
        assert(mv == all[i as int]);
        consider(f, best, mv, Ghost(s));
        i += 1;
    }
    assert(all.take(81) =~= all);
}

/// The search for a part over whole pixels.
fn search_whole<F: Fn(Mv, i64) -> i64>(
    f: &F,
    center: Mv,
    exhaustive: bool,
    Ghost(s): Ghost<spec_fn(Mv, int) -> int>,
) -> (best: Best)
    requires
        scores_as(*f, s),
        roomy(center, 1024),
    ensures
        best == sub_whole(s, center, exhaustive),
        best.sad >= 0,
        roomy(best.mv, 256),
{
    let mut best: Best = Best { mv: (0, 0), sad: i64::MAX };
    assert(roomy((0, 0), 1024));
    assert(roomy(best.mv, 1024 - 32));
    assert(roomy(center, 32));
    if exhaustive {
        try_window(f, &mut best, (0, 0), Ghost(s));
        assert(roomy(best.mv, 1024 - 32));
        try_window(f, &mut best, center, Ghost(s));
        assert(roomy(best.mv, 1024 - 32));
        return best;
    }
    consider(f, &mut best, (0, 0), Ghost(s));
    if center.0 != 0 || center.1 != 0 {
        consider(f, &mut best, center, Ghost(s));
    }
    assert(roomy(best.mv, 1024));
    assert(roomy(best.mv, 256));
    try_rings(f, &mut best, 32, Ghost(s));
    assert(roomy(best.mv, 768));
    assert(roomy(best.mv, 256));
    try_rings(f, &mut best, 16, Ghost(s));
    assert(roomy(best.mv, 512));
    assert(roomy(best.mv, 256));
    try_rings(f, &mut best, 8, Ghost(s));
    assert(roomy(best.mv, 256));
    best
}

/// The greatest multiple of eight towards zero.
fn whole_pixels(v: i32) -> (r: i32)
    requires
        -0x1000_0000 <= v <= 0x1000_0000,
    ensures
        r == 8 * eighth(v as int),
{
    if v < 0 {
        -((-v) / 8) * 8
    } else {
        v / 8 * 8
    }
}

/// Finds a vector for a part of a block, which `f` scores as `s` says.
pub(crate) fn search_part<F: Fn(Mv, i64) -> i64>(
    f: &F,
    predictor: Mv,
    exhaustive: bool,
    Ghost(s): Ghost<spec_fn(Mv, int) -> int>,
) -> (r: Mv)
    requires
        scores_as(*f, s),
        abs(predictor.0 as int) <= 0x400000,
        abs(predictor.1 as int) <= 0x400000,
    ensures
        r == sub_searched(s, predictor, exhaustive),
        in_range(r),
{
    let center: Mv = (whole_pixels(predictor.0), whole_pixels(predictor.1));
    let b: Best = search_whole(f, center, exhaustive, Ghost(s));
    let ghost all = quarter_grid(b.mv);
    let mut best: Best = b;
    let mut i: i32 = 0;
    while i < 24
        invariant
            0 <= i <= 24,
            scores_as(*f, s),
            roomy(b.mv, 256),
            best.sad >= 0,
            in_range(best.mv),
            all == quarter_grid(b.mv),
            best == lessened_all(s, b, all.take(i as int)),
        decreases 24 - i,
    {
        assert(all.take(i + 1).drop_last() =~= all.take(i as int));
        let k: i32 = if i < 12 {
            i
        } else {
            i + 1
        };
        let mv: Mv = shift(b.mv, 2 * (k / 5) - 4, 2 * (k % 5) - 4);
        assert(mv == all[i as int]);
        consider(f, &mut best, mv, Ghost(s));
        i += 1;
    }
    assert(all.take(24) =~= all);
    best.mv
}

/// Finds a vector, in eighths of pixels, for a part of a block: first over whole pixels,
/// around zero and around the predictor, then over the quarters around the best.
pub fn search_mv_sub<F: Fn(Mv, i64) -> i64>(f: F, predictor: Mv, exhaustive: bool) -> (r: Mv)
    requires
        scores_as(f, reply(f)),
        abs(predictor.0 as int) <= 0x400000,
        abs(predictor.1 as int) <= 0x400000,
    ensures
        r == sub_searched(reply(f), predictor, exhaustive),
{
    search_part(&f, predictor, exhaustive, Ghost(reply(f)))
}

// ---------------------------------------------------------------------------
// Laws
// ---------------------------------------------------------------------------

/// Trying some more vectors gives the least score of them and of the one before.
proof fn lemma_lessened_all(
    s: spec_fn(Mv, int) -> int,
    t: spec_fn(Mv) -> int,
    b: Best,
    mvs: Seq<Mv>,
)
    requires
        fair(s, t),
        b.sad >= 0,
    ensures
        ({
            let r = lessened_all(s, b, mvs);
            &&& 0 <= r.sad <= b.sad
            &&& r == b || (r.sad < b.sad && r.sad == t(r.mv) && mvs.contains(r.mv))
            &&& forall|i: int| 0 <= i < mvs.len() ==> r.sad <= t(#[trigger] mvs[i])
        }),
    decreases mvs.len(),
{
    if mvs.len() > 0 {
        let rest = mvs.drop_last();
        let before = lessened_all(s, b, rest);
        lemma_lessened_all(s, t, b, rest);
        let last = mvs.last();
        let r = lessened_all(s, b, mvs);
        assert(r == lessened(s, before, last));
        assert(fair_at(s(last, before.sad as int), t(last), before.sad as int));
        assert forall|i: int| 0 <= i < mvs.len() implies r.sad <= t(#[trigger] mvs[i]) by {
            if i < rest.len() {
                assert(rest[i] == mvs[i]);
                assert(before.sad <= t(rest[i]));
            }
        }
        if r == before {
            if before != b {
                let k = choose|k: int| 0 <= k < rest.len() && rest[k] == before.mv;
                assert(mvs[k] == r.mv);
            }
        } else {
            assert(mvs[mvs.len() - 1] == r.mv);
        }
    }
}

/// The refinement of a vector ends no worse than where it began and than the four vectors
/// half a pixel away, and where none of these is better than the four a quarter away.
pub proof fn law_refinement_finds_fractions(
    s: spec_fn(Mv, int) -> int,
    t: spec_fn(Mv) -> int,
    start: Mv,
    i: int,
)
    requires
        fair(s, t),
        roomy(start, 8),
        0 <= i < 4,
    ensures
        ({
            let r = refined(s, start);
            &&& r.sad == t(r.mv)
            &&& r.sad <= t(start)
            &&& r.sad <= t(beside(start, 4, i))
            &&& (forall|k: int| 0 <= k < 4 ==> t(start) <= t(#[trigger] beside(start, 4, k)))
                ==> r.sad <= t(beside(start, 2, i))
            &&& abs(r.mv.0 - start.0) <= 6 && abs(r.mv.1 - start.1) <= 6
        }),
{
    assert(fair_at(s(start, i64::MAX as int), t(start), i64::MAX as int));
    let b0 = Best { mv: start, sad: s(start, i64::MAX as int) as i64 };
    let p4 = plus(b0.mv, 4);
    let b4 = lessened_all(s, b0, p4);
    lemma_lessened_all(s, t, b0, p4);
    assert(p4[0] == beside(start, 4, 0) && p4[1] == beside(start, 4, 1));
    assert(p4[2] == beside(start, 4, 2) && p4[3] == beside(start, 4, 3));
    assert(b4.sad <= t(p4[0]) && b4.sad <= t(p4[1]) && b4.sad <= t(p4[2]) && b4.sad <= t(p4[3]));
    assert(t(start) <= t(beside(start, 4, 0)) && t(start) <= t(beside(start, 4, 1)) && t(start)
        <= t(beside(start, 4, 2)) && t(start) <= t(beside(start, 4, 3)) ==> b4 == b0);
    let p2 = plus(b4.mv, 2);
    lemma_lessened_all(s, t, b4, p2);
    let r = lessened_all(s, b4, p2);
    assert(r.sad <= t(p2[0]) && r.sad <= t(p2[1]) && r.sad <= t(p2[2]) && r.sad <= t(p2[3]));
    assert(b4 == b0 ==> p2[0] == beside(start, 2, 0) && p2[1] == beside(start, 2, 1) && p2[2]
        == beside(start, 2, 2) && p2[3] == beside(start, 2, 3));
    if forall|k: int| 0 <= k < 4 ==> t(start) <= t(#[trigger] beside(start, 4, k)) {
        assert(t(start) <= t(beside(start, 4, 0)) && t(start) <= t(beside(start, 4, 1)));
        assert(t(start) <= t(beside(start, 4, 2)) && t(start) <= t(beside(start, 4, 3)));
    }
}

/// One round of moving in a ring.
proof fn lemma_sub_round(
    s: spec_fn(Mv, int) -> int,
    t: spec_fn(Mv) -> int,
    b: Best,
    step: int,
)
    requires
        fair(s, t),
        b.sad == t(b.mv),
        1 <= step <= 32,
        roomy(b.mv, 32),
    ensures
        ({
            let r = lessened_all(s, b, ring(b.mv, step));
            &&& r.sad == t(r.mv)
            &&& r.sad <= b.sad
            &&& r.sad == b.sad ==> r == b
            &&& forall|i: int, j: int|
                -1 <= i <= 1 && -1 <= j <= 1 ==> r.sad <= t(#[trigger] hop(b.mv, step, i, j))
            &&& abs(r.mv.0 - b.mv.0) <= step && abs(r.mv.1 - b.mv.1) <= step
        }),
{
    assert(fair_at(s(b.mv, 0), t(b.mv), 0));
    let all = ring(b.mv, step);
    let r = lessened_all(s, b, all);
    lemma_lessened_all(s, t, b, all);
    assert(-1 * step == -step && 1 * step == step && 0 * step == 0);
    assert(all[0] == hop(b.mv, step, -1, 0) && all[1] == hop(b.mv, step, 1, 0));
    assert(all[2] == hop(b.mv, step, 0, -1) && all[3] == hop(b.mv, step, 0, 1));
    assert(all[4] == hop(b.mv, step, -1, -1) && all[5] == hop(b.mv, step, -1, 1));
    assert(all[6] == hop(b.mv, step, 1, -1) && all[7] == hop(b.mv, step, 1, 1));
    assert(hop(b.mv, step, 0, 0) == b.mv);
    assert(r.sad <= t(all[0]) && r.sad <= t(all[1]) && r.sad <= t(all[2]) && r.sad <= t(all[3])
        && r.sad <= t(all[4]) && r.sad <= t(all[5]) && r.sad <= t(all[6]) && r.sad <= t(all[7]));
    assert forall|i: int, j: int| -1 <= i <= 1 && -1 <= j <= 1 implies r.sad <= t(
        #[trigger] hop(b.mv, step, i, j),
    ) by {
        assert(i == -1 || i == 0 || i == 1);
        assert(j == -1 || j == 0 || j == 1);
    }
    if r != b {
        let k = choose|k: int| 0 <= k < all.len() && all[k] == r.mv;
        assert(all.len() == 8);
    }
}

/// Each vector of a path lies at most a step from the one before and scores less.
pub open spec fn falls(t: spec_fn(Mv) -> int, v: Mv, w: Mv, step: int) -> bool {
    abs(w.0 - v.0) <= step && abs(w.1 - v.1) <= step && t(w) < t(v)
}

/// What moving in a ring comes to: no worse than the vectors around its beginning, and in
/// a dip unless it moved `n` times.
proof fn lemma_sub_rounds(
    s: spec_fn(Mv, int) -> int,
    t: spec_fn(Mv) -> int,
    b: Best,
    step: int,
    n: nat,
    room: int,
) -> (path: Seq<Mv>)
    requires
        fair(s, t),
        b.sad == t(b.mv),
        1 <= step <= 32,
        n <= 8,
        32 * n <= room,
        roomy(b.mv, room),
    ensures
        ({
            let r = sub_rounds(s, b, step, n);
            &&& r.sad == t(r.mv)
            &&& r.sad <= b.sad
            &&& roomy(r.mv, room - 32 * n)
            &&& n > 0 ==> forall|i: int, j: int|
                -1 <= i <= 1 && -1 <= j <= 1 ==> r.sad <= t(#[trigger] hop(b.mv, step, i, j))
            &&& path.len() == n + 1 || forall|i: int, j: int|
                -1 <= i <= 1 && -1 <= j <= 1 ==> r.sad <= t(#[trigger] hop(r.mv, step, i, j))
            &&& 1 <= path.len() <= n + 1
            &&& path[0] == b.mv && path.last() == r.mv
            &&& forall|h: int, k: int|
                0 <= h && k == h + 1 && k < path.len() ==> falls(
                    t,
                    #[trigger] path[h],
                    #[trigger] path[k],
                    step,
                )
        }),
    decreases n,
{
    if n == 0 {
        seq![b.mv]
    } else {
        lemma_sub_round(s, t, b, step);
        let b1 = lessened_all(s, b, ring(b.mv, step));
        if b1.sad == b.sad {
            seq![b.mv]
        } else {
            let tail = lemma_sub_rounds(s, t, b1, step, (n - 1) as nat, room - 32);
            let path = seq![b.mv] + tail;
            assert forall|h: int, k: int| 0 <= h && k == h + 1 && k < path.len() implies falls(
                t,
                #[trigger] path[h],
                #[trigger] path[k],
                step,
            ) by {
                if h > 0 {
                    assert(path[k] == tail[k - 1] && path[h] == tail[h - 1]);
                }
            }
            path
        }
    }
}

/// The search for a part over whole pixels, in steps of four, two and one pixels: it ends
/// no worse than zero and than `center`, and on a vector that scores no worse than each a
/// pixel away, unless it went down for eight moves at its end.
pub proof fn law_part_search_ends_in_a_dip(
    s: spec_fn(Mv, int) -> int,
    t: spec_fn(Mv) -> int,
    center: Mv,
) -> (path: Seq<Mv>)
    requires
        fair(s, t),
        roomy(center, 1024),
    ensures
        ({
            let r = sub_whole(s, center, false);
            &&& r.sad == t(r.mv)
            &&& r.sad <= t((0, 0)) && r.sad <= t(center)
            &&& path.len() == 9 || forall|i: int, j: int|
                -1 <= i <= 1 && -1 <= j <= 1 ==> r.sad <= t(#[trigger] hop(r.mv, 8, i, j))
            &&& path.len() <= 9 && path.last() == r.mv
            &&& forall|h: int, k: int|
                0 <= h && k == h + 1 && k < path.len() ==> falls(
                    t,
                    #[trigger] path[h],
                    #[trigger] path[k],
                    8,
                )
        }),
{
    let b1 = lemma_sub_start(s, t, center);
    let _ = lemma_sub_rounds(s, t, b1, 32, 8, 1024);
    let b32 = sub_rounds(s, b1, 32, 8);
    let _ = lemma_sub_rounds(s, t, b32, 16, 8, 768);
    let b16 = sub_rounds(s, b32, 16, 8);
    lemma_sub_rounds(s, t, b16, 8, 8, 512)
}

proof fn lemma_sub_start(s: spec_fn(Mv, int) -> int, t: spec_fn(Mv) -> int, center: Mv) -> (b: Best)
    requires
        fair(s, t),
        roomy(center, 1024),
    ensures
        b.sad == t(b.mv),
        b.sad <= t((0, 0)) && b.sad <= t(center),
        b.mv == (if t(center) < t((0, 0)) {
            center
        } else {
            (0i32, 0i32)
        }) || t((0, 0)) == i64::MAX,
        roomy(b.mv, 1024),
        sub_whole(s, center, false) == sub_rounds(
            s,
            sub_rounds(s, sub_rounds(s, b, 32, 8), 16, 8),
            8,
            8,
        ),
{
    let b0 = lessened(s, nothing(), (0, 0));
    let b1 = if center != (0i32, 0i32) {
        lessened(s, b0, center)
    } else {
        b0
    };
    assert(fair_at(s((0, 0), i64::MAX as int), t((0, 0)), i64::MAX as int));
    assert(fair_at(s(center, b0.sad as int), t(center), b0.sad as int));
    b1
}

/// The search for a part looks in steps of four, two and one pixels, in this order: where no
/// larger step helps, it ends no worse than each vector `step` away from its start.
pub proof fn law_part_search_looks_in_all_steps(
    s: spec_fn(Mv, int) -> int,
    t: spec_fn(Mv) -> int,
    center: Mv,
    step: int,
    i: int,
    j: int,
)
    requires
        fair(s, t),
        roomy(center, 1024),
        t((0, 0)) < i64::MAX,
        step == 32 || step == 16 || step == 8,
        -1 <= i <= 1,
        -1 <= j <= 1,
        ({
            let v = start_of(t, center);
            forall|w: int, i: int, j: int|
                (w == 32 || w == 16) && w > step && -1 <= i <= 1 && -1 <= j <= 1 ==> t(v) <= t(
                    #[trigger] hop(v, w, i, j),
                )
        }),
    ensures
        sub_whole(s, center, false).sad <= t(hop(start_of(t, center), step, i, j)),
{
    let b = lemma_sub_start(s, t, center);
    assert(b.mv == start_of(t, center));
    let _ = lemma_sub_rounds(s, t, b, 32, 8, 1024);
    let b32 = sub_rounds(s, b, 32, 8);
    if step < 32 {
        lemma_sub_rest(s, t, b, 32);
    }
    let _ = lemma_sub_rounds(s, t, b32, 16, 8, 768);
    let b16 = sub_rounds(s, b32, 16, 8);
    if step < 16 {
        lemma_sub_rest(s, t, b, 16);
    }
    let _ = lemma_sub_rounds(s, t, b16, 8, 8, 512);
}

/// Rounds in which nothing is less leave the best as it is.
proof fn lemma_sub_rest(s: spec_fn(Mv, int) -> int, t: spec_fn(Mv) -> int, b: Best, step: int)
    requires
        fair(s, t),
        b.sad == t(b.mv),
        1 <= step <= 32,
        roomy(b.mv, 32),
        forall|i: int, j: int|
            -1 <= i <= 1 && -1 <= j <= 1 ==> t(b.mv) <= t(#[trigger] hop(b.mv, step, i, j)),
    ensures
        sub_rounds(s, b, step, 8) == b,
{
    assert(fair_at(s(b.mv, 0), t(b.mv), 0));
    let all = ring(b.mv, step);
    lemma_lessened_all(s, t, b, all);
    let r = lessened_all(s, b, all);
    assert(-1 * step == -step && 1 * step == step && 0 * step == 0);
    if r != b {
        let k = choose|k: int| 0 <= k < all.len() && all[k] == r.mv;
        assert(all[0] == hop(b.mv, step, -1, 0) && all[1] == hop(b.mv, step, 1, 0));
        assert(all[2] == hop(b.mv, step, 0, -1) && all[3] == hop(b.mv, step, 0, 1));
        assert(all[4] == hop(b.mv, step, -1, -1) && all[5] == hop(b.mv, step, -1, 1));
        assert(all[6] == hop(b.mv, step, 1, -1) && all[7] == hop(b.mv, step, 1, 1));
        assert(false);
    }
}

/// The exhaustive search for a part ends no worse than each vector up to four whole pixels
/// away from zero and from `center`, in every direction.
pub proof fn law_part_search_exhausts(
    s: spec_fn(Mv, int) -> int,
    t: spec_fn(Mv) -> int,
    center: Mv,
    dr: int,
    dc: int,
)
    requires
        fair(s, t),
        roomy(center, 64),
        -4 <= dr <= 4,
        -4 <= dc <= 4,
    ensures
        ({
            let r = sub_whole(s, center, true);
            &&& r.sad <= t(((8 * dr) as i32, (8 * dc) as i32))
            &&& r.sad <= t(((center.0 + 8 * dr) as i32, (center.1 + 8 * dc) as i32))
        }),
{
    let (z, w) = (sub_window((0, 0)), sub_window(center));
    let b = lessened_all(s, nothing(), z);
    lemma_lessened_all(s, t, nothing(), z);
    lemma_lessened_all(s, t, b, w);
    let i = (dr + 4) * 9 + dc + 4;
    assert(i / 9 == dr + 4 && i % 9 == dc + 4);
    assert(z[i] == ((8 * dr) as i32, (8 * dc) as i32));
    assert(w[i] == ((center.0 + 8 * dr) as i32, (center.1 + 8 * dc) as i32));
    assert(b.sad <= t(z[i]));
    assert(lessened_all(s, b, w).sad <= t(w[i]));
}

/// The vector of a part scores no worse than each vector of quarters up to half a pixel
/// from the one that was found over whole pixels.
pub proof fn law_part_vector_is_least_of_quarters(
    s: spec_fn(Mv, int) -> int,
    t: spec_fn(Mv) -> int,
    predictor: Mv,
    exhaustive: bool,
    i: int,
    j: int,
)
    requires
        fair(s, t),
        -2 <= i <= 2,
        -2 <= j <= 2,
        ({
            let center = (
                (8 * eighth(predictor.0 as int)) as i32,
                (8 * eighth(predictor.1 as int)) as i32,
            );
            let b = sub_whole(s, center, exhaustive);
            b.sad == t(b.mv) && roomy(b.mv, 8)
        }),
    ensures
        ({
            let center = (
                (8 * eighth(predictor.0 as int)) as i32,
                (8 * eighth(predictor.1 as int)) as i32,
            );
            let b = sub_whole(s, center, exhaustive);
            let r = sub_searched(s, predictor, exhaustive);
            &&& t(r) <= t(((b.mv.0 + 2 * i) as i32, (b.mv.1 + 2 * j) as i32))
            &&& abs(r.0 - b.mv.0) <= 4 && abs(r.1 - b.mv.1) <= 4
        }),
{
    let center = (
        (8 * eighth(predictor.0 as int)) as i32,
        (8 * eighth(predictor.1 as int)) as i32,
    );
    let b = sub_whole(s, center, exhaustive);
    let g = quarter_grid(b.mv);
    assert(fair_at(s(b.mv, 0), t(b.mv), 0));
    lemma_lessened_all(s, t, b, g);
    let r = lessened_all(s, b, g);
    let k = 5 * (i + 2) + j + 2;
    assert(k / 5 == i + 2 && k % 5 == j + 2);
    if k < 12 {
        assert(r.sad <= t(g[k]));
    } else if k > 12 {
        assert(r.sad <= t(g[k - 1]));
    }
    if r != b {
        let n = choose|n: int| 0 <= n < g.len() && g[n] == r.mv;
        let m = if n < 12 {
            n
        } else {
            n + 1
        };
        assert(0 <= m / 5 <= 4 && 0 <= m % 5 <= 4);
    }
}

} // verus!
