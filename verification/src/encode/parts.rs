//! Blocks below 8x8: each of their parts gets the mode and the vector that fit it best.
use vstd::prelude::*;

use crate::block::{ModeInfo, Mv, NEARESTMV, NEARMV, NEWMV, ZEROMV};
use crate::decode::motion::{append_sub8x8_mvs, lowered_mv, part_near, MvCandidates};
use crate::encode::decide::{
    best_suggested, finish_parts, good_enough, is_single, or_new, set_part, single_choice,
    stands_for, suggested, PartChoice, NEW_PART_PENALTY,
};
use crate::encode::refine::{search_part, sub_searched};
use crate::encode::search::in_range;
use crate::mv::{abs, lower_mv_precision};

verus! {

/// What a scorer says of a vector for a part.
pub open spec fn part_reply<F: Fn(usize, Mv) -> i64>(f: F) -> spec_fn(int, Mv) -> int {
    |part: int, mv: Mv| (choose|r: i64| #[trigger] call_ensures(f, (part as usize, mv), r)) as int
}

/// `f` scores the vectors of parts as `s` says: never below zero, and not too high.
pub open spec fn scores_parts<F: Fn(usize, Mv) -> i64>(
    f: F,
    s: spec_fn(int, Mv) -> int,
) -> bool {
    &&& forall|p: usize, mv: Mv| p < 4 && in_range(mv) ==> #[trigger] call_requires(f, (p, mv))
    &&& forall|p: usize, mv: Mv, r: i64|
        p < 4 && in_range(mv) && #[trigger] call_ensures(f, (p, mv), r) ==> r == s(p as int, mv)
            && 0 <= r <= 0x1_0000_0000
}

/// What the surroundings suggest is not too far away.
pub open spec fn suggests_near(cands: MvCandidates) -> bool {
    forall|r: int, m: int, k: int, i: int|
        0 <= r < 2 && 0 <= m < 4 && 0 <= k < 5 && 0 <= i < 2 ==> {
            let v = #[trigger] cands.lists[r][m][k].mvs[i];
            abs(v.0 as int) <= 0x400000 && abs(v.1 as int) <= 0x400000
        }
}

/// How the parts of a block are decided.
#[derive(Clone, Copy, Debug, PartialEq, Eq, Structural)]
pub struct PartPlan {
    /// Whether eighths of pixels may be coded.
    pub hp: bool,
    /// The score up to which no new vector is searched; 0 to search always.
    pub prescreen: i64,
    /// Try all vectors in a window.
    pub exhaustive: bool,
}

/// The vector from which new ones are coded.
pub open spec fn new_base(cands: MvCandidates, hp: bool) -> Mv {
    lowered_mv(cands.at(0, NEWMV as int, -1).mvs[0], hp)
}

/// The choice for part `part` of `m`, whose earlier parts are decided.
pub open spec fn choice_at(
    s: spec_fn(int, Mv) -> int,
    cands: MvCandidates,
    plan: PartPlan,
    m: ModeInfo,
    part: int,
) -> PartChoice {
    let nearest = lowered_mv(part_near(cands, m, NEARESTMV as int, part, 0), plan.hp);
    let near = lowered_mv(part_near(cands, m, NEARMV as int, part, 0), plan.hp);
    let c = suggested(
        s(part, (0i32, 0i32)) as i64,
        (nearest, s(part, nearest) as i64),
        (near, s(part, near) as i64),
    );
    if plan.prescreen > 0 && c.cost <= plan.prescreen {
        c
    } else {
        let mv = sub_searched(
            |v: Mv, _bound: int| s(part, v),
            new_base(cands, plan.hp),
            plan.exhaustive,
        );
        let cost = s(part, mv) + NEW_PART_PENALTY;
        if cost < c.cost {
            PartChoice { mode: NEWMV, mv, cost: cost as i64 }
        } else {
            c
        }
    }
}

/// Part `part` of `m`, and those that it stands for, are as chosen.
pub open spec fn part_is(m: ModeInfo, part: int, c: PartChoice) -> bool {
    forall|i: int|
        0 <= i < 4 && stands_for(m.sb_type as int, i) == part ==> (#[trigger] m.bmi[i]) == c.mode
            && m.bmi_mv[i]@ == seq![c.mv, (0i32, 0i32)]
}

/// The parts of `m` that are coded are those that are chosen one after the other, and
/// their scores add up to `total`.
pub open spec fn parts_chosen(
    s: spec_fn(int, Mv) -> int,
    cands: MvCandidates,
    plan: PartPlan,
    m: ModeInfo,
    total: int,
) -> bool {
    let c = |part: int| choice_at(s, cands, plan, m, part);
    &&& part_is(m, 0, c(0))
    &&& if m.sb_type == 0 {
        &&& part_is(m, 1, c(1))
        &&& part_is(m, 2, c(2))
        &&& part_is(m, 3, c(3))
        &&& total == c(0).cost + c(1).cost + c(2).cost + c(3).cost
    } else if m.sb_type == 1 {
        part_is(m, 1, c(1)) && total == c(0).cost + c(1).cost
    } else {
        part_is(m, 2, c(2)) && total == c(0).cost + c(2).cost
    }
}

/// The choice for a part depends on the parts before it alone.
proof fn lemma_choice_frame(
    s: spec_fn(int, Mv) -> int,
    cands: MvCandidates,
    plan: PartPlan,
    a: ModeInfo,
    b: ModeInfo,
    part: int,
)
    requires
        0 <= part < 4,
        forall|i: int| 0 <= i < part ==> (#[trigger] a.bmi_mv[i])@ == b.bmi_mv[i]@,
    ensures
        choice_at(s, cands, plan, a, part) == choice_at(s, cands, plan, b, part),
{
    assert(part > 0 ==> a.bmi_mv[0]@[0] == b.bmi_mv[0]@[0]);
    assert(part > 1 ==> a.bmi_mv[1]@[0] == b.bmi_mv[1]@[0]);
    assert(part > 2 ==> a.bmi_mv[2]@[0] == b.bmi_mv[2]@[0]);
    assert(part_near(cands, a, NEARESTMV as int, part, 0) == part_near(
        cands,
        b,
        NEARESTMV as int,
        part,
        0,
    ));
    assert(part_near(cands, a, NEARMV as int, part, 0) == part_near(
        cands,
        b,
        NEARMV as int,
        part,
        0,
    ));
}

/// The suggested vector of a part is one that can be scored.
proof fn lemma_near_in_range(cands: MvCandidates, m: ModeInfo, mode: int, part: int)
    requires
        cands.wf(),
        suggests_near(cands),
        mode == NEARESTMV || mode == NEARMV,
        0 <= part < 4,
        forall|i: int| 0 <= i < 4 ==> in_range((#[trigger] m.bmi_mv[i])@[0]),
    ensures
        in_range(part_near(cands, m, mode, part, 0)),
{
    let l = cands.lists[0][mode - 10][part + 1];
    assert(l == cands.at(0, mode, part));
    assert(in_range(l.mvs[0])) by {
        let v = cands.lists[0][mode - 10][part + 1].mvs[0];
    }
    assert(in_range(l.mvs[1])) by {
        let v = cands.lists[0][mode - 10][part + 1].mvs[1];
    }
    assert(in_range(m.bmi_mv[0]@[0]));
    assert(in_range(m.bmi_mv[1]@[0]));
    assert(in_range(m.bmi_mv[2]@[0]));
}

/// Decides a part of a block whose earlier parts are decided.
fn choose_part<F: Fn(usize, Mv) -> i64>(
    f: &F,
    cands: &MvCandidates,
    plan: PartPlan,
    m: &ModeInfo,
    part: usize,
    Ghost(s): Ghost<spec_fn(int, Mv) -> int>,
) -> (c: PartChoice)
    requires
        scores_parts(*f, s),
        cands.wf(),
        suggests_near(*cands),
        part < 4,
        forall|i: int| 0 <= i < 4 ==> in_range((#[trigger] m.bmi_mv[i])@[0]),
    ensures
        c == choice_at(s, *cands, plan, *m, part as int),
        in_range(c.mv),
        0 <= c.cost <= 0x1_0000_0000 + NEW_PART_PENALTY,
{
    proof {
        lemma_near_in_range(*cands, *m, NEARESTMV as int, part as int);
        lemma_near_in_range(*cands, *m, NEARMV as int, part as int);
    }
    let raw_nearest: Mv = append_sub8x8_mvs(cands, m, NEARESTMV, part, 0);
    let nearest: Mv = lower_mv_precision(raw_nearest, plan.hp);
    let raw_near: Mv = append_sub8x8_mvs(cands, m, NEARMV, part, 0);
    let near: Mv = lower_mv_precision(raw_near, plan.hp);
    assert(nearest == lowered_mv(raw_nearest, plan.hp));
    assert(near == lowered_mv(raw_near, plan.hp));
    assert(in_range(nearest) && in_range(near) && in_range((0i32, 0i32)));
    let zero: i64 = f(part, (0, 0));
    let a: i64 = f(part, nearest);
    let b: i64 = f(part, near);
    let c: PartChoice = best_suggested(zero, (nearest, a), (near, b));
    if good_enough(&c, plan.prescreen) {
        return c;
    }
    let l: [Mv; 2] = cands.lists[0][3][0].mvs;
    proof {
        assert(cands.at(0, NEWMV as int, -1) == cands.lists[0][3][0]);
        let v = cands.lists[0][3][0].mvs[0];
        assert(abs(v.0 as int) <= 0x400000 && abs(v.1 as int) <= 0x400000);
    }
    let base: Mv = lower_mv_precision(l[0], plan.hp);
    assert(base == new_base(*cands, plan.hp));
    let ghost sp = |v: Mv, _bound: int| s(part as int, v);
    let g = |mv: Mv, _bound: i64| -> (r: i64)
        requires
            in_range(mv),
        ensures
            r == s(part as int, mv),
            r >= 0,
        { f(part, mv) };
    let mv: Mv = search_part(&g, base, plan.exhaustive, Ghost(sp));
    let sad: i64 = f(part, mv);
    or_new(c, mv, sad)
}

/// Finds the modes and vectors of the parts of a block below 8x8 that is predicted from
/// one reference, and returns the block and how far its parts are off. `f` scores a vector
/// for a part, `cands` holds what the surroundings suggest.
pub fn sub8x8_search_ref<F: Fn(usize, Mv) -> i64>(
    cands: &MvCandidates,
    bsize: usize,
    ref_frame: i8,
    filter: u8,
    plan: PartPlan,
    f: F,
) -> (r: (ModeInfo, i64))
    requires
        bsize < 3,
        cands.wf(),
        suggests_near(*cands),
        scores_parts(f, part_reply(f)),
    ensures
        parts_chosen(part_reply(f), *cands, plan, r.0, r.1 as int),
        r.0.mode == r.0.bmi[3],
        r.0.mv == r.0.bmi_mv[3],
        exists|b: ModeInfo| #[trigger]
            is_single(b, bsize as int, 0, ref_frame, ZEROMV, (0i32, 0i32), filter) && r.0 == (
            ModeInfo { mode: r.0.mode, mv: r.0.mv, bmi: r.0.bmi, bmi_mv: r.0.bmi_mv, ..b }),
{
    let ghost s = part_reply(f);
    let mut m: ModeInfo = single_choice(bsize, 0, ref_frame, ZEROMV, (0, 0), filter);
    let ghost blank = m;
    assert forall|i: int| 0 <= i < 4 implies in_range((#[trigger] m.bmi_mv[i])@[0]) by {
        assert(m.bmi_mv[i]@ == seq![(0i32, 0i32), (0i32, 0i32)]);
    }
    let c0: PartChoice = choose_part(&f, cands, plan, &m, 0, Ghost(s));
    set_part(&mut m, 0, &c0);
    let ghost m0 = m;
    assert forall|i: int| 0 <= i < 4 implies in_range((#[trigger] m.bmi_mv[i])@[0]) by {
        assert(blank.bmi_mv[i]@ == seq![(0i32, 0i32), (0i32, 0i32)]);
    }
    let mut total: i64 = c0.cost;
    if bsize == 0 {
        let c1: PartChoice = choose_part(&f, cands, plan, &m, 1, Ghost(s));
        set_part(&mut m, 1, &c1);
        let ghost m1 = m;
        assert forall|i: int| 0 <= i < 4 implies in_range((#[trigger] m.bmi_mv[i])@[0]) by {
            assert(in_range(m0.bmi_mv[i]@[0]));
        }
        let c2: PartChoice = choose_part(&f, cands, plan, &m, 2, Ghost(s));
        set_part(&mut m, 2, &c2);
        let ghost m2 = m;
        assert forall|i: int| 0 <= i < 4 implies in_range((#[trigger] m.bmi_mv[i])@[0]) by {
            assert(in_range(m1.bmi_mv[i]@[0]));
        }
        let c3: PartChoice = choose_part(&f, cands, plan, &m, 3, Ghost(s));
        set_part(&mut m, 3, &c3);
        total = total + c1.cost + c2.cost + c3.cost;
        proof {
            assert(m.bmi_mv[0]@ == m2.bmi_mv[0]@ && m2.bmi_mv[0]@ == m1.bmi_mv[0]@
                && m1.bmi_mv[0]@ == m0.bmi_mv[0]@);
            assert(m.bmi_mv[1]@ == m2.bmi_mv[1]@ && m2.bmi_mv[1]@ == m1.bmi_mv[1]@);
            assert(m.bmi_mv[2]@ == m2.bmi_mv[2]@);
            assert(m.bmi[0] == m2.bmi[0] && m2.bmi[0] == m1.bmi[0] && m1.bmi[0] == m0.bmi[0]);
            assert(m.bmi[1] == m2.bmi[1] && m2.bmi[1] == m1.bmi[1]);
            assert(m.bmi[2] == m2.bmi[2]);
            lemma_choice_frame(s, *cands, plan, blank, m, 0);
            lemma_choice_frame(s, *cands, plan, m0, m, 1);
            lemma_choice_frame(s, *cands, plan, m1, m, 2);
            lemma_choice_frame(s, *cands, plan, m2, m, 3);
        }
    } else {
        let part: usize = if bsize == 1 {
            1
        } else {
            2
        };
        let c1: PartChoice = choose_part(&f, cands, plan, &m, part, Ghost(s));
        set_part(&mut m, part, &c1);
        total = total + c1.cost;
        proof {
            assert(forall|i: int|
                0 <= i < 4 && stands_for(bsize as int, i) == 0 ==> (#[trigger] m.bmi[i])
                    == m0.bmi[i] && m.bmi_mv[i]@ == m0.bmi_mv[i]@) by {
                assert forall|i: int|
                    0 <= i < 4 && stands_for(bsize as int, i) == 0 implies (#[trigger] m.bmi[i])
                    == m0.bmi[i] && m.bmi_mv[i]@ == m0.bmi_mv[i]@ by {
                    let _ = m.bmi_mv[i];
                }
            }
            assert(stands_for(bsize as int, 0) == 0);
            assert(bsize == 2 ==> stands_for(bsize as int, 1) == 0);
            assert(m.bmi[0] == m0.bmi[0]);
            assert(bsize == 2 ==> m.bmi[1] == m0.bmi[1]);
            lemma_choice_frame(s, *cands, plan, blank, m, 0);
            lemma_choice_frame(s, *cands, plan, m0, m, part as int);
        }
    }
    let ghost done = m;
    finish_parts(&mut m);
    proof {
        lemma_parts_frame(s, *cands, plan, done, m, total as int);
        assert(is_single(blank, bsize as int, 0, ref_frame, ZEROMV, (0i32, 0i32), filter));
    }
    (m, total)
}

/// Whether parts are chosen depends on the modes and vectors of parts alone.
proof fn lemma_parts_frame(
    s: spec_fn(int, Mv) -> int,
    cands: MvCandidates,
    plan: PartPlan,
    a: ModeInfo,
    b: ModeInfo,
    total: int,
)
    requires
        parts_chosen(s, cands, plan, a, total),
        a.sb_type == b.sb_type,
        a.bmi == b.bmi,
        a.bmi_mv == b.bmi_mv,
    ensures
        parts_chosen(s, cands, plan, b, total),
{
    lemma_choice_frame(s, cands, plan, a, b, 0);
    lemma_choice_frame(s, cands, plan, a, b, 1);
    lemma_choice_frame(s, cands, plan, a, b, 2);
    lemma_choice_frame(s, cands, plan, a, b, 3);
}

/// What is chosen for a part costs what its vector scores, and a new vector a fixed amount
/// on top; no motion, the nearest and the near vector are no better. A vector is searched
/// unless one of these three is good enough, and is taken just where it is better.
pub proof fn law_part_choice_is_best(
    s: spec_fn(int, Mv) -> int,
    cands: MvCandidates,
    plan: PartPlan,
    m: ModeInfo,
    part: int,
)
    requires
        forall|mv: Mv| 0 <= #[trigger] s(part, mv) <= 0x1_0000_0000,
    ensures
        ({
            let c = choice_at(s, cands, plan, m, part);
            let zero = s(part, (0i32, 0i32));
            let nearest = lowered_mv(part_near(cands, m, NEARESTMV as int, part, 0), plan.hp);
            let near = lowered_mv(part_near(cands, m, NEARMV as int, part, 0), plan.hp);
            let found = sub_searched(
                |v: Mv, _bound: int| s(part, v),
                new_base(cands, plan.hp),
                plan.exhaustive,
            );
            let extra = if c.mode == NEWMV {
                NEW_PART_PENALTY as int
            } else {
                0
            };
            &&& c.cost == s(part, c.mv) + extra
            &&& c.cost <= zero && c.cost <= s(part, nearest) && c.cost <= s(part, near)
            &&& c.mode == ZEROMV ==> c.mv == (0i32, 0i32)
            &&& c.mode == NEARESTMV ==> c.mv == nearest
            &&& c.mode == NEARMV ==> c.mv == near
            &&& c.mode == NEWMV ==> c.mv == found && c.cost < zero
            &&& plan.prescreen <= 0 || c.cost > plan.prescreen ==> c.cost <= s(part, found)
                + NEW_PART_PENALTY
            &&& c.mode == NEWMV && plan.prescreen > 0 ==> zero > plan.prescreen && s(part, nearest)
                > plan.prescreen && s(part, near) > plan.prescreen
        }),
{
}

} // verus!
