//! Choosing modes. What a choice costs is judged outside; a score here is a number of
//! which only the order counts, and the largest number stands for a choice that was
//! given up.
use vstd::prelude::*;

use crate::adapt::min_int;
use crate::block::{
    ModeInfo, Mv, ALTREF_FRAME, DC_PRED, GOLDEN_FRAME, NEARESTMV, NEARMV, NEWMV, NONE_FRAME,
    ZEROMV,
};
use crate::encode::cost::digits;
use crate::geom_tables::MAX_TXSIZE;

verus! {

/// A choice that was given up.
pub const GIVEN_UP: u64 = 0xffff_ffff_ffff_ffff;

/// The added score of a new vector for a part of a block below 8x8.
pub const NEW_PART_PENALTY: i64 = 48;

// ---------------------------------------------------------------------------
// The best of several
// ---------------------------------------------------------------------------

/// The best choice so far, and its score.
#[derive(Clone, Copy, Debug, PartialEq, Eq, Structural)]
pub struct Pick {
    pub index: usize,
    pub score: u64,
}

/// The best after the first `n` choices have been offered to `p`.
pub open spec fn picked(p: Pick, scores: Seq<u64>, n: nat) -> Pick
    decreases n,
{
    if n == 0 {
        p
    } else {
        let before = picked(p, scores, (n - 1) as nat);
        if scores[n - 1] < before.score {
            Pick { index: (n - 1) as usize, score: scores[n - 1] }
        } else {
            before
        }
    }
}

impl Pick {
    /// No choice yet; `index` stands if all are given up.
    pub fn none(index: usize) -> (p: Pick)
        ensures
            p == (Pick { index, score: GIVEN_UP }),
    {
        Pick { index, score: GIVEN_UP }
    }

    /// Takes choice `index` if it is better than the best so far.
    pub fn offer(&mut self, index: usize, score: u64) -> (taken: bool)
        ensures
            taken == (score < old(self).score),
            *final(self) == (if taken {
                Pick { index, score }
            } else {
                *old(self)
            }),
    {
        if score < self.score {
            self.index = index;
            self.score = score;
            true
        } else {
            false
        }
    }
}

/// The best of some choices is the first of those with the least score, unless all of
/// them were given up.
pub proof fn law_pick_is_first_least(index: usize, scores: Seq<u64>)
    requires
        scores.len() <= usize::MAX,
    ensures
        ({
            let p = picked(Pick { index, score: GIVEN_UP }, scores, scores.len());
            &&& forall|i: int| 0 <= i < scores.len() ==> p.score <= #[trigger] scores[i]
            &&& p.score < GIVEN_UP ==> p.index < scores.len() && scores[p.index as int] == p.score
                && forall|i: int| 0 <= i < p.index ==> p.score < #[trigger] scores[i]
            &&& p.score == GIVEN_UP ==> p.index == index
        }),
{
    lemma_picked(index, scores, scores.len());
}

/// What holds of the best of the first `n` choices.
proof fn lemma_picked(index: usize, scores: Seq<u64>, n: nat)
    requires
        n <= scores.len() <= usize::MAX,
    ensures
        ({
            let p = picked(Pick { index, score: GIVEN_UP }, scores, n);
            &&& forall|i: int| 0 <= i < n ==> p.score <= #[trigger] scores[i]
            &&& p.score < GIVEN_UP ==> p.index < n && scores[p.index as int] == p.score && forall|
                i: int,
            |
                0 <= i < p.index ==> p.score < #[trigger] scores[i]
            &&& p.score == GIVEN_UP ==> p.index == index
        }),
    decreases n,
{
    if n > 0 {
        lemma_picked(index, scores, (n - 1) as nat);
    }
}

/// The best of some choices.
pub fn pick_best(index: usize, scores: &[u64]) -> (p: Pick)
    ensures
        p == picked(Pick { index, score: GIVEN_UP }, scores@, scores@.len()),
{
    let mut p: Pick = Pick::none(index);
    let n: usize = scores.len();
    let mut i: usize = 0;
    while i < n
        invariant
            i <= n,
            n == scores@.len(),
            p == picked(Pick { index, score: GIVEN_UP }, scores@, i as nat),
        decreases n - i,
    {
        p.offer(i, scores[i]);
        i += 1;
    }
    p
}

/// The best transform size after one more: of equal ones the smaller.
pub open spec fn better_tx(best: Pick, tx: usize, score: u64) -> bool {
    score < best.score || (score == best.score && tx < best.index)
}

/// Takes a transform size if it is better than the best so far: of equal ones the
/// smaller is better.
pub fn offer_tx(best: &mut Pick, tx: usize, score: u64) -> (taken: bool)
    ensures
        taken == better_tx(*old(best), tx, score),
        *final(best) == (if taken {
            Pick { index: tx, score }
        } else {
            *old(best)
        }),
{
    if score < best.score || (score == best.score && tx < best.index) {
        best.index = tx;
        best.score = score;
        true
    } else {
        false
    }
}

/// The transform size that is tried as number `i`: the largest first for blocks that
/// move little and code no vector, the smallest first for others.
pub open spec fn tx_in_order(m: ModeInfo, max_tx: int, likely_first: bool, i: int) -> int {
    let still = crate::mv::abs(m.mv[0].0 as int) + crate::mv::abs(m.mv[0].1 as int) <= 16
        && m.mode != NEWMV;
    if likely_first && still {
        max_tx - i
    } else {
        i
    }
}

/// The transform size that is tried as number `i`.
pub fn tx_order(m: &ModeInfo, max_tx: u8, likely_first: bool, i: u8) -> (t: u8)
    requires
        i <= max_tx,
        m.mv[0].0 > i32::MIN,
        m.mv[0].1 > i32::MIN,
    ensures
        t == tx_in_order(*m, max_tx as int, likely_first, i as int),
{
    let (r, c): (i64, i64) = (m.mv[0].0 as i64, m.mv[0].1 as i64);
    let ar: i64 = if r < 0 {
        -r
    } else {
        r
    };
    let ac: i64 = if c < 0 {
        -c
    } else {
        c
    };
    if likely_first && ar + ac <= 16 && m.mode != NEWMV {
        max_tx - i
    } else {
        i
    }
}

// ---------------------------------------------------------------------------
// The shortlist
// ---------------------------------------------------------------------------

/// Four scores, least first.
pub open spec fn ascending(t: Seq<u64>) -> bool {
    t.len() == 4 && t[0] <= t[1] <= t[2] <= t[3]
}

/// The four least of four scores and one more.
pub open spec fn with_score(t: Seq<u64>, v: u64) -> Seq<u64> {
    Seq::new(
        4,
        |k: int|
            if t[k] <= v {
                t[k]
            } else if k == 0 || t[k - 1] <= v {
                v
            } else {
                t[k - 1]
            },
    )
}

/// Keeps the four least scores.
pub fn keep_least(t: &mut [u64; 4], score: u64)
    requires
        ascending(old(t)@),
    ensures
        final(t)@ == with_score(old(t)@, score),
        ascending(final(t)@),
{
    let ghost before = t@;
    let mut v: u64 = score;
    let mut k: usize = 0;
    while k < 4
        invariant
            k <= 4,
            ascending(before),
            forall|i: int| 0 <= i < k ==> #[trigger] t[i] == with_score(before, score)[i],
            forall|i: int| k <= i < 4 ==> #[trigger] t[i] == before[i],
            v == (if k == 0 || before[k - 1] <= score {
                score
            } else {
                before[k - 1]
            }),
        decreases 4 - k,
    {
        if v < t[k] {
            let x: u64 = t[k];
            t[k] = v;
            v = x;
        }
        k += 1;
    }
    assert(t@ =~= with_score(before, score));
}

/// The score that a candidate must not exceed to enter a shortlist of `k`; none if there
/// is no shortlist, or fewer than `k` candidates so far.
pub open spec fn entry(t: Seq<u64>, shortlist: bool, k: int) -> Option<u64> {
    let q = if k < 1 {
        1
    } else if k > 4 {
        4
    } else {
        k
    };
    if shortlist && t[q - 1] < GIVEN_UP {
        Some(t[q - 1])
    } else {
        None
    }
}

/// The score that a candidate must not exceed to enter the shortlist.
pub fn entry_score(t: &[u64; 4], shortlist: bool, k: usize) -> (r: Option<u64>)
    ensures
        r == entry(t@, shortlist, k as int),
{
    let q: usize = if k < 1 {
        1
    } else if k > 4 {
        4
    } else {
        k
    };
    if shortlist && t[q - 1] < GIVEN_UP {
        Some(t[q - 1])
    } else {
        None
    }
}

/// Candidate `i` comes before candidate `j`: it has a lesser score, or it was there
/// first.
pub open spec fn comes_before(scores: Seq<u64>, i: int, j: int) -> bool {
    scores[i] < scores[j] || (scores[i] == scores[j] && i < j)
}

/// An order of the candidates by score. There is only one.
pub open spec fn is_ranking(scores: Seq<u64>, order: Seq<usize>) -> bool {
    &&& order.len() == scores.len()
    &&& forall|i: int| 0 <= i < order.len() ==> #[trigger] order[i] < scores.len()
    &&& forall|i: int, j: int|
        0 <= i < j < order.len() ==> comes_before(
            scores,
            #[trigger] order[i] as int,
            #[trigger] order[j] as int,
        )
}

/// Orders candidates by score, equal ones as they came.
pub fn rank(scores: &[u64]) -> (order: Vec<usize>)
    ensures
        is_ranking(scores@, order@),
{
    let n: usize = scores.len();
    let mut order: Vec<usize> = Vec::new();
    let mut i: usize = 0;
    while i < n
        invariant
            i <= n,
            n == scores@.len(),
            order@.len() == i,
            forall|a: int| 0 <= a < i ==> #[trigger] order@[a] < i,
            forall|a: int, b: int|
                0 <= a < b < i ==> comes_before(
                    scores@,
                    #[trigger] order@[a] as int,
                    #[trigger] order@[b] as int,
                ),
        decreases n - i,
    {
        let mut k: usize = i;
        while k > 0 && scores[i] < scores[order[k - 1]]
            invariant
                k <= i < n,
                n == scores@.len(),
                order@.len() == i,
                forall|a: int| 0 <= a < i ==> #[trigger] order@[a] < i,
                forall|a: int, b: int|
                    0 <= a < b < i ==> comes_before(
                        scores@,
                        #[trigger] order@[a] as int,
                        #[trigger] order@[b] as int,
                    ),
                forall|a: int| k <= a < i ==> scores@[i as int] < scores@[#[trigger] order@[a] as int],
            decreases k,
        {
            k -= 1;
        }
        let ghost before = order@;
        order.insert(k, i);
        proof {
            assert forall|a: int, b: int| 0 <= a < b < i + 1 implies comes_before(
                scores@,
                #[trigger] order@[a] as int,
                #[trigger] order@[b] as int,
            ) by {
                let x = if a < k {
                    a
                } else {
                    a - 1
                };
                let y = if b < k {
                    b
                } else {
                    b - 1
                };
                if a == k {
                    assert(order@[b] == before[y]);
                    assert(scores@[i as int] < scores@[before[y] as int]);
                } else if b == k {
                    assert(order@[a] == before[x]);
                    if x < k - 1 {
                        assert(comes_before(scores@, before[x] as int, before[k - 1] as int));
                    }
                    assert(before[x] < i);
                } else {
                    assert(order@[a] == before[x]);
                    assert(order@[b] == before[y]);
                    assert(comes_before(scores@, before[x] as int, before[y] as int));
                }
            }
            assert forall|a: int| 0 <= a < i + 1 implies #[trigger] order@[a] < i + 1 by {
                if a < k {
                    assert(order@[a] == before[a]);
                } else if a > k {
                    assert(order@[a] == before[a - 1]);
                }
            }
        }
        i += 1;
    }
    order
}

/// How many of `n` ranked candidates are tried in full.
pub open spec fn tried_in_full(n: int, shortlist: bool, k: int) -> int {
    if shortlist {
        min_int(
            n,
            if k < 1 {
                1
            } else {
                k
            },
        )
    } else {
        n
    }
}

/// How many of `n` ranked candidates are tried in full.
pub fn full_trials(n: usize, shortlist: bool, k: usize) -> (r: usize)
    ensures
        r == tried_in_full(n as int, shortlist, k as int),
{
    let q: usize = if k < 1 {
        1
    } else {
        k
    };
    if shortlist && q < n {
        q
    } else {
        n
    }
}

// ---------------------------------------------------------------------------
// Candidates
// ---------------------------------------------------------------------------

/// A vector that is not zero.
pub open spec fn moves(v: Mv) -> bool {
    v.0 != 0 || v.1 != 0
}

/// The candidates for a reference, in the order in which they are tried: no motion, the
/// vector that was searched, the nearest and the near vector. Those that do not move or
/// repeat another are left out.
pub open spec fn candidates_of(nearest: Mv, searched: Mv, near: Mv) -> Seq<(u8, Mv)> {
    seq![(ZEROMV, (0i32, 0i32))] + (if moves(searched) {
        seq![(NEWMV, searched)]
    } else {
        Seq::empty()
    }) + (if moves(nearest) {
        seq![(NEARESTMV, nearest)]
    } else {
        Seq::empty()
    }) + (if moves(near) && near != nearest {
        seq![(NEARMV, near)]
    } else {
        Seq::empty()
    })
}

/// The candidates for a reference.
pub fn ref_candidates(nearest: Mv, searched: Mv, near: Mv) -> (r: Vec<(u8, Mv)>)
    ensures
        r@ == candidates_of(nearest, searched, near),
{
    let mut out: Vec<(u8, Mv)> = Vec::new();
    out.push((ZEROMV, (0, 0)));
    if searched.0 != 0 || searched.1 != 0 {
        out.push((NEWMV, searched));
    }
    if nearest.0 != 0 || nearest.1 != 0 {
        out.push((NEARESTMV, nearest));
    }
    if (near.0 != 0 || near.1 != 0) && (near.0 != nearest.0 || near.1 != nearest.1) {
        out.push((NEARMV, near));
    }
    assert(out@ =~= candidates_of(nearest, searched, near));
    out
}

/// A reference that was searched: one of the three.
pub open spec fn was_searched(r: int, searched: Seq<bool>) -> bool {
    1 <= r <= 3 && searched[r - 1]
}

/// The variable reference that predicts better on its own, of those that were searched;
/// the first of equal ones.
pub open spec fn better_var(vars: Seq<usize>, searched: Seq<bool>, scores: Seq<u64>) -> Option<
    usize,
> {
    let a = was_searched(vars[0] as int, searched);
    let b = was_searched(vars[1] as int, searched);
    if a && b {
        Some(
            if scores[vars[1] - 1] < scores[vars[0] - 1] {
                vars[1]
            } else {
                vars[0]
            },
        )
    } else if a {
        Some(vars[0])
    } else if b {
        Some(vars[1])
    } else {
        None
    }
}

/// The variable references that a fixed one is paired with: the better one, or all that
/// were searched; none if the fixed one was not.
pub open spec fn vars_to_try(
    fixed: int,
    vars: Seq<usize>,
    searched: Seq<bool>,
    scores: Seq<u64>,
    all: bool,
) -> Seq<usize> {
    if !was_searched(fixed, searched) {
        Seq::empty()
    } else if all {
        vars.filter(|v: usize| was_searched(v as int, searched))
    } else {
        vars.filter(
            |v: usize|
                was_searched(v as int, searched) && better_var(vars, searched, scores) == Some(v),
        )
    }
}

/// The variable references that a fixed one is paired with.
pub fn compound_vars(
    fixed: usize,
    vars: &[usize; 2],
    searched: &[bool; 3],
    scores: &[u64; 3],
    all: bool,
) -> (r: Vec<usize>)
    ensures
        r@ == vars_to_try(fixed as int, vars@, searched@, scores@, all),
{
    let mut out: Vec<usize> = Vec::new();
    if fixed < 1 || fixed > 3 || !searched[fixed - 1] {
        return out;
    }
    let a: bool = 1 <= vars[0] && vars[0] <= 3 && searched[vars[0] - 1];
    let b: bool = 1 <= vars[1] && vars[1] <= 3 && searched[vars[1] - 1];
    let second: bool = b && (!a || scores[vars[1] - 1] < scores[vars[0] - 1]);
    let best: usize = if second {
        vars[1]
    } else {
        vars[0]
    };
    if a && (all || vars[0] == best) {
        out.push(vars[0]);
    }
    if b && (all || vars[1] == best) {
        out.push(vars[1]);
    }
    proof {
        reveal_with_fuel(Seq::filter, 3);
        let v = vars@;
        assert(v.drop_last() =~= seq![v[0]]);
        assert(seq![v[0]].drop_last() =~= Seq::<usize>::empty());
        assert(out@ =~= vars_to_try(fixed as int, v, searched@, scores@, all));
    }
    out
}

/// The candidates for two references: no motion, the vectors that were searched, those
/// that were refined together if they differ, and the nearest and the near ones.
pub open spec fn pairs_of(
    searched: (Mv, Mv),
    joint: Option<(Mv, Mv)>,
    near: Option<((Mv, Mv), (Mv, Mv))>,
) -> Seq<(u8, Mv, Mv)> {
    let zero: Mv = (0, 0);
    seq![(ZEROMV, zero, zero), (NEWMV, searched.0, searched.1)] + (match joint {
        Some(j) if j != searched => seq![(NEWMV, j.0, j.1)],
        _ => Seq::empty(),
    }) + (match near {
        Some((a, b)) => seq![(NEARESTMV, a.0, a.1), (NEARMV, b.0, b.1)],
        None => Seq::empty(),
    })
}

/// The candidates for two references.
pub fn compound_candidates(
    searched: (Mv, Mv),
    joint: Option<(Mv, Mv)>,
    near: Option<((Mv, Mv), (Mv, Mv))>,
) -> (r: Vec<(u8, Mv, Mv)>)
    ensures
        r@ == pairs_of(searched, joint, near),
{
    let mut out: Vec<(u8, Mv, Mv)> = Vec::new();
    out.push((ZEROMV, (0, 0), (0, 0)));
    out.push((NEWMV, searched.0, searched.1));
    if let Some(j) = joint {
        let same: bool = j.0.0 == searched.0.0 && j.0.1 == searched.0.1 && j.1.0 == searched.1.0
            && j.1.1 == searched.1.1;
        if !same {
            out.push((NEWMV, j.0, j.1));
        }
    }
    if let Some((a, b)) = near {
        out.push((NEARESTMV, a.0, a.1));
        out.push((NEARMV, b.0, b.1));
    }
    assert(out@ =~= pairs_of(searched, joint, near));
    out
}

// ---------------------------------------------------------------------------
// The choice for a block
// ---------------------------------------------------------------------------

/// How a block is predicted.
#[derive(Clone, Copy, Debug, PartialEq, Eq, Structural)]
pub enum Winner {
    Single,
    Compound,
    Intra,
}

/// The winner of the best of one reference, of two and of none: two must be better than
/// both others, none better than one.
pub open spec fn winner_of(single: u64, compound: Option<u64>, intra: u64) -> Winner {
    if compound is Some && compound.unwrap() < single && compound.unwrap() < intra {
        Winner::Compound
    } else if intra < single {
        Winner::Intra
    } else {
        Winner::Single
    }
}

/// Chooses between one reference, two and none.
pub fn choose_winner(single: u64, compound: Option<u64>, intra: u64) -> (w: Winner)
    ensures
        w == winner_of(single, compound, intra),
{
    if let Some(c) = compound {
        if c < single && c < intra {
            return Winner::Compound;
        }
    }
    if intra < single {
        Winner::Intra
    } else {
        Winner::Single
    }
}

/// No choice is better than the winner.
pub proof fn law_winner_is_least(single: u64, compound: Option<u64>, intra: u64)
    ensures
        ({
            let s = match winner_of(single, compound, intra) {
                Winner::Single => single,
                Winner::Compound => compound.unwrap(),
                Winner::Intra => intra,
            };
            &&& s <= single
            &&& s <= intra
            &&& compound is Some ==> s <= compound.unwrap()
        }),
{
}

/// The transform size that trials start from, and that is coded where blocks do not
/// name their own: the largest up to `cap`, or 4x4 where sizes are searched or pinned.
pub open spec fn start_tx(bsize: int, search: bool, only_4x4: bool, cap: int) -> int {
    if search || only_4x4 {
        0
    } else {
        min_int(MAX_TXSIZE[bsize] as int, cap)
    }
}

/// The transform size that trials start from.
pub fn base_tx(bsize: usize, search: bool, only_4x4: bool, cap: u8) -> (t: u8)
    requires
        bsize < 13,
    ensures
        t == start_tx(bsize as int, search, only_4x4, cap as int),
{
    if search || only_4x4 {
        0
    } else if MAX_TXSIZE[bsize] < cap {
        MAX_TXSIZE[bsize]
    } else {
        cap
    }
}

/// The transform size of a block without residual: that which a reader derives.
pub open spec fn skip_tx(bsize: int, search: bool, only_4x4: bool, cap: int) -> int {
    if search {
        MAX_TXSIZE[bsize] as int
    } else {
        start_tx(bsize, search, only_4x4, cap)
    }
}

/// The transform size of a block without residual.
pub fn tx_of_skip(bsize: usize, search: bool, only_4x4: bool, cap: u8) -> (t: u8)
    requires
        bsize < 13,
    ensures
        t == skip_tx(bsize as int, search, only_4x4, cap as int),
{
    if search {
        MAX_TXSIZE[bsize]
    } else {
        base_tx(bsize, search, only_4x4, cap)
    }
}

/// Whether a block is left without residual: where there are no coefficients, or where
/// the scores say that leaving them out is no worse. Intra blocks never are.
pub open spec fn skips(intra: bool, eob: int, scores: Option<(u64, u64)>) -> bool {
    !intra && (eob == 0 || (scores is Some && scores.unwrap().0 <= scores.unwrap().1))
}

/// Decides whether a block is left without residual. `scores` holds those of the block
/// without and with it, where they are to be weighed.
pub fn decide_skip(intra: bool, eob: u32, scores: Option<(u64, u64)>) -> (r: bool)
    ensures
        r == skips(intra, eob as int, scores),
{
    if intra {
        return false;
    }
    if eob == 0 {
        return true;
    }
    match scores {
        Some((without, with)) => without <= with,
        None => false,
    }
}

/// What is settled of a block once it is known whether it is left without residual, its
/// bits and its error. A block without residual codes no bits; from 8x8 on it has the
/// transform size that readers derive; and where coefficients were dropped its error is
/// that of the prediction.
pub open spec fn settlement(
    m: ModeInfo,
    skip: bool,
    eobs: int,
    bits: u64,
    sse: u64,
    pred_sse: u64,
    skip_tx: u8,
) -> (ModeInfo, u64, u64) {
    let tx_size = if skip && m.sb_type >= 3 {
        skip_tx
    } else {
        m.tx_size
    };
    (
        ModeInfo { skip, tx_size, ..m },
        if skip {
            0
        } else {
            bits
        },
        if skip && eobs > 0 {
            pred_sse
        } else {
            sse
        },
    )
}

/// Settles a block that was tried with `eobs` coefficients, `bits` bits and an error of
/// `sse`, and whose prediction alone has an error of `pred_sse`.
pub fn settled(
    m: ModeInfo,
    skip: bool,
    eobs: u32,
    bits: u64,
    sse: u64,
    pred_sse: u64,
    skip_tx: u8,
) -> (r: (ModeInfo, u64, u64))
    ensures
        r == settlement(m, skip, eobs as int, bits, sse, pred_sse, skip_tx),
{
    let mut out: ModeInfo = m;
    out.skip = skip;
    if !skip {
        return (out, bits, sse);
    }
    if m.sb_type >= 3 {
        out.tx_size = skip_tx;
    }
    let error: u64 = if eobs > 0 {
        pred_sse
    } else {
        sse
    };
    (out, 0, error)
}

/// Whether a residual is so small against the quantizer that it is left out unseen: the
/// logarithm of `xsq`, rounded down, is at least `limit`.
pub open spec fn negligible(xsq: nat, limit: int) -> bool {
    digits(if xsq == 0 {
        1
    } else {
        xsq
    }) - 1 >= limit
}

/// Whether a residual is so small that it is left out unseen.
pub fn is_negligible(xsq: u64, limit: u32) -> (r: bool)
    ensures
        r == negligible(xsq as nat, limit as int),
{
    let mut rest: u64 = if xsq == 0 {
        1
    } else {
        xsq
    };
    let ghost all = digits(rest as nat);
    let mut n: u32 = 0;
    proof {
        vstd::arithmetic::power2::lemma2_to64();
        vstd::arithmetic::power2::lemma2_to64_rest();
        crate::encode::cost::lemma_digits_bound(rest as nat, 64);
    }
    while rest > 0
        invariant
            n + digits(rest as nat) == all,
            all <= 64,
        decreases rest,
    {
        rest = rest / 2;
        n += 1;
    }
    n > limit
}

/// A block predicted from one reference.
pub open spec fn is_single(
    m: ModeInfo,
    bsize: int,
    tx: int,
    ref_frame: i8,
    mode: u8,
    mv: Mv,
    filter: u8,
) -> bool {
    &&& is_compound_choice(m, bsize, tx, mode, mv, (0, 0), filter)
    &&& m.ref_frame@ == seq![ref_frame, NONE_FRAME]
}

/// What blocks with one and with two references have in common.
pub open spec fn is_compound_choice(
    m: ModeInfo,
    bsize: int,
    tx: int,
    mode: u8,
    mv0: Mv,
    mv1: Mv,
    filter: u8,
) -> bool {
    &&& m.sb_type == bsize
    &&& m.mode == mode
    &&& m.bmi@ == seq![DC_PRED, DC_PRED, DC_PRED, DC_PRED]
    &&& m.uv_mode == DC_PRED
    &&& !m.skip
    &&& m.tx_size == tx
    &&& m.is_inter
    &&& m.mv@ == seq![mv0, mv1]
    &&& forall|i: int| 0 <= i < 4 ==> (#[trigger] m.bmi_mv[i])@ == seq![(0i32, 0i32), (0i32, 0i32)]
    &&& m.interp_filter == filter
    &&& m.segment_id == 0
    &&& !m.seg_id_predicted
}

/// Makes a block that is predicted from one reference.
pub fn single_choice(
    bsize: usize,
    tx: u8,
    ref_frame: i8,
    mode: u8,
    mv: Mv,
    filter: u8,
) -> (m: ModeInfo)
    requires
        bsize < 13,
    ensures
        is_single(m, bsize as int, tx as int, ref_frame, mode, mv, filter),
{
    let mut m: ModeInfo = ModeInfo::default();
    m.sb_type = bsize as u8;
    m.skip = false;
    m.tx_size = tx;
    m.is_inter = true;
    m.ref_frame = [ref_frame, NONE_FRAME];
    m.mode = mode;
    m.mv = [mv, (0, 0)];
    m.interp_filter = filter;
    m
}

/// Makes a block that is predicted from two references.
pub fn compound_choice(
    bsize: usize,
    tx: u8,
    refs: (i8, i8),
    mode: u8,
    mvs: (Mv, Mv),
    filter: u8,
) -> (m: ModeInfo)
    requires
        bsize < 13,
    ensures
        is_compound_choice(m, bsize as int, tx as int, mode, mvs.0, mvs.1, filter),
        m.ref_frame@ == seq![refs.0, refs.1],
{
    let mut m: ModeInfo = single_choice(bsize, tx, refs.0, mode, mvs.0, filter);
    m.ref_frame = [refs.0, refs.1];
    m.mv = [mvs.0, mvs.1];
    m
}

/// Makes a block that is predicted from its surroundings.
pub fn intra_choice(bsize: usize, tx: u8, mode: u8, uv_mode: u8) -> (m: ModeInfo)
    requires
        bsize < 13,
    ensures
        m.sb_type == bsize,
        m.mode == mode,
        m.uv_mode == uv_mode,
        m.tx_size == tx,
        !m.is_inter,
        !m.skip,
        m.bmi@ == seq![DC_PRED, DC_PRED, DC_PRED, DC_PRED],
        crate::decode::modeinfo::no_motion(m),
        m.segment_id == 0,
        !m.seg_id_predicted,
{
    let mut m: ModeInfo = ModeInfo::default();
    m.sb_type = bsize as u8;
    m.tx_size = tx;
    m.mode = mode;
    m.uv_mode = uv_mode;
    m
}

/// The place of the first reference of a block among the three.
pub open spec fn slot_of(ref_frame: i8) -> int {
    if ref_frame == GOLDEN_FRAME {
        1
    } else if ref_frame == ALTREF_FRAME {
        2
    } else {
        0
    }
}

/// The place of the first reference of a block among the three.
pub fn active_slot(m: &ModeInfo) -> (r: usize)
    ensures
        r == slot_of(m.ref_frame[0]),
{
    if m.ref_frame[0] == GOLDEN_FRAME {
        1
    } else if m.ref_frame[0] == ALTREF_FRAME {
        2
    } else {
        0
    }
}

/// The filter with which a block is predicted: its own where each block names one, else
/// that of the frame.
pub fn active_filter(m: &ModeInfo, frame_filter: u32) -> (r: u8)
    requires
        frame_filter <= 4,
    ensures
        r == (if frame_filter == 4 {
            m.interp_filter as int
        } else {
            frame_filter as int
        }),
{
    if frame_filter == 4 {
        m.interp_filter
    } else {
        frame_filter as u8
    }
}

// ---------------------------------------------------------------------------
// Blocks below 8x8
// ---------------------------------------------------------------------------

/// The choice for a part of a block below 8x8.
#[derive(Clone, Copy, Debug, PartialEq, Eq)]
pub struct PartChoice {
    pub mode: u8,
    pub mv: Mv,
    pub cost: i64,
}

/// The best of no motion, the nearest and the near vector of a part, by their scores.
pub open spec fn suggested(zero: i64, nearest: (Mv, i64), near: (Mv, i64)) -> PartChoice {
    let a = PartChoice { mode: ZEROMV, mv: (0, 0), cost: zero };
    let b = if nearest.1 < a.cost {
        PartChoice { mode: NEARESTMV, mv: nearest.0, cost: nearest.1 }
    } else {
        a
    };
    if near.1 < b.cost {
        PartChoice { mode: NEARMV, mv: near.0, cost: near.1 }
    } else {
        b
    }
}

/// The best of no motion, the nearest and the near vector of a part.
pub fn best_suggested(zero: i64, nearest: (Mv, i64), near: (Mv, i64)) -> (c: PartChoice)
    ensures
        c == suggested(zero, nearest, near),
{
    let mut c: PartChoice = PartChoice { mode: ZEROMV, mv: (0, 0), cost: zero };
    if nearest.1 < c.cost {
        c = PartChoice { mode: NEARESTMV, mv: nearest.0, cost: nearest.1 };
    }
    if near.1 < c.cost {
        c = PartChoice { mode: NEARMV, mv: near.0, cost: near.1 };
    }
    c
}

/// Whether a part fits so well that no new vector is searched.
pub fn good_enough(c: &PartChoice, prescreen: i64) -> (r: bool)
    ensures
        r == (prescreen > 0 && c.cost <= prescreen),
{
    prescreen > 0 && c.cost <= prescreen
}

/// The better of a choice and of a new vector with score `sad`, which costs more to code.
pub fn or_new(c: PartChoice, mv: Mv, sad: i64) -> (r: PartChoice)
    requires
        sad <= 0x1_0000_0000,
    ensures
        r == (if sad + NEW_PART_PENALTY < c.cost {
            PartChoice { mode: NEWMV, mv, cost: (sad + NEW_PART_PENALTY) as i64 }
        } else {
            c
        }),
{
    if sad + NEW_PART_PENALTY < c.cost {
        PartChoice { mode: NEWMV, mv, cost: sad + NEW_PART_PENALTY }
    } else {
        c
    }
}

/// The part that stands for part `i` of a block of size `bsize`: itself in a 4x4 block,
/// the upper one in a 4x8 block, the left one in an 8x4 block.
pub open spec fn stands_for(bsize: int, i: int) -> int {
    if bsize == 0 {
        i
    } else if bsize == 1 {
        i % 2
    } else {
        2 * (i / 2)
    }
}

/// Puts the choice for a part, and for those that it stands for, into a block.
pub fn set_part(m: &mut ModeInfo, part: usize, c: &PartChoice)
    requires
        old(m).sb_type < 3,
        part < 4,
        stands_for(old(m).sb_type as int, part as int) == part,
    ensures
        forall|i: int|
            0 <= i < 4 ==> #[trigger] final(m).bmi[i] == (if stands_for(
                old(m).sb_type as int,
                i,
            ) == part {
                c.mode
            } else {
                old(m).bmi[i]
            }),
        forall|i: int|
            0 <= i < 4 ==> (#[trigger] final(m).bmi_mv[i])@ == (if stands_for(
                old(m).sb_type as int,
                i,
            ) == part {
                seq![c.mv, (0i32, 0i32)]
            } else {
                old(m).bmi_mv[i]@
            }),
        *final(m) == (ModeInfo { bmi: final(m).bmi, bmi_mv: final(m).bmi_mv, ..*old(m) }),
{
    let ghost before = *m;
    let mut bmi: [u8; 4] = m.bmi;
    let mut bmi_mv: [[Mv; 2]; 4] = m.bmi_mv;
    let v: [Mv; 2] = [c.mv, (0, 0)];
    assert(v@ =~= seq![c.mv, (0i32, 0i32)]);
    bmi[part] = c.mode;
    bmi_mv[part] = v;
    if m.sb_type == 1 {
        bmi[part + 2] = c.mode;
        bmi_mv[part + 2] = v;
    } else if m.sb_type == 2 {
        bmi[part + 1] = c.mode;
        bmi_mv[part + 1] = v;
    }
    m.bmi = bmi;
    m.bmi_mv = bmi_mv;
}

/// Finishes a block below 8x8: its mode and its vectors are those of its last part.
pub fn finish_parts(m: &mut ModeInfo)
    requires
        old(m).sb_type < 3,
    ensures
        *final(m) == (ModeInfo { mode: old(m).bmi[3], mv: old(m).bmi_mv[3], ..*old(m) }),
{
    m.mode = m.bmi[3];
    m.mv = m.bmi_mv[3];
}

// ---------------------------------------------------------------------------
// More laws
// ---------------------------------------------------------------------------

/// Of two different transform sizes with their scores just one is better: that with the
/// lesser score, of equal scores the smaller size.
pub proof fn law_one_transform_is_better(a: Pick, b: Pick)
    requires
        a != b,
    ensures
        better_tx(a, b.index, b.score) != better_tx(b, a.index, a.score),
        b.score < a.score ==> better_tx(a, b.index, b.score),
        b.score == a.score && b.index < a.index ==> better_tx(a, b.index, b.score),
{
}

/// The order of the transform sizes leaves out none and repeats none: the largest comes
/// first where that is asked for and the block hardly moves, else the smallest.
pub proof fn law_all_transforms_are_tried(m: ModeInfo, max_tx: int, likely_first: bool, i: int, j: int)
    requires
        0 <= i <= max_tx,
        0 <= j <= max_tx,
    ensures
        0 <= tx_in_order(m, max_tx, likely_first, i) <= max_tx,
        i != j ==> tx_in_order(m, max_tx, likely_first, i) != tx_in_order(
            m,
            max_tx,
            likely_first,
            j,
        ),
        !likely_first ==> tx_in_order(m, max_tx, likely_first, i) == i,
        likely_first && m.mode != 13 && m.mv[0] == (0i32, 0i32) ==> tx_in_order(
            m,
            max_tx,
            likely_first,
            0,
        ) == max_tx,
        m.mode == 13 ==> tx_in_order(m, max_tx, likely_first, 0) == 0,
        m.mv[0].0 > 16 || m.mv[0].0 < -16 || m.mv[0].1 > 16 || m.mv[0].1 < -16 ==> tx_in_order(
            m,
            max_tx,
            likely_first,
            0,
        ) == 0,
{
}

/// Four scores and one more, of which the four least are kept: where the new one is the
/// greatest they stay, else it takes its place among them and the greatest goes.
pub proof fn law_four_least_are_kept(t: Seq<u64>, v: u64)
    requires
        ascending(t),
    ensures
        ascending(with_score(t, v)),
        v >= t[3] ==> with_score(t, v) == t,
        v < t[0] ==> with_score(t, v) == seq![v, t[0], t[1], t[2]],
        t[0] <= v < t[1] ==> with_score(t, v) == seq![t[0], v, t[1], t[2]],
        t[1] <= v < t[2] ==> with_score(t, v) == seq![t[0], t[1], v, t[2]],
        t[2] <= v < t[3] ==> with_score(t, v) == seq![t[0], t[1], t[2], v],
{
    let r = with_score(t, v);
    if v >= t[3] {
        assert(r =~= t);
    } else if v < t[0] {
        assert(r =~= seq![v, t[0], t[1], t[2]]);
    } else if v < t[1] {
        assert(r =~= seq![t[0], v, t[1], t[2]]);
    } else if v < t[2] {
        assert(r =~= seq![t[0], t[1], v, t[2]]);
    } else {
        assert(r =~= seq![t[0], t[1], t[2], v]);
    }
}

/// The score that lets a candidate into a shortlist of one to four is the last of the list,
/// unless fewer were estimated; without a shortlist there is none.
pub proof fn law_shortlist_entry(t: Seq<u64>, k: int)
    requires
        ascending(t),
    ensures
        entry(t, false, k) is None,
        k <= 1 && t[0] < u64::MAX ==> entry(t, true, k) == Some(t[0]),
        k == 2 && t[1] < u64::MAX ==> entry(t, true, k) == Some(t[1]),
        k == 3 && t[2] < u64::MAX ==> entry(t, true, k) == Some(t[2]),
        k >= 4 && t[3] < u64::MAX ==> entry(t, true, k) == Some(t[3]),
        k >= 4 && t[3] == u64::MAX ==> entry(t, true, k) is None,
        t[0] == u64::MAX ==> entry(t, true, k) is None,
{
}

/// With a shortlist at least one candidate is tried in full, and no more than its length;
/// without one all are.
pub proof fn law_full_trials(n: int, k: int)
    requires
        n >= 0,
    ensures
        tried_in_full(n, false, k) == n,
        0 <= tried_in_full(n, true, k) <= n,
        n >= 1 ==> tried_in_full(n, true, k) >= 1,
        1 <= k <= n ==> tried_in_full(n, true, k) == k,
        k <= 1 && n >= 1 ==> tried_in_full(n, true, k) == 1,
        k >= n ==> tried_in_full(n, true, k) == n,
{
}

/// The candidates of a reference: no motion first; then the searched vector as a new one,
/// then nearest, then near. None but the first stands still, and near is not nearest.
pub proof fn law_candidates_in_order(nearest: Mv, searched: Mv, near: Mv, i: int, j: int)
    requires
        0 <= i < j < candidates_of(nearest, searched, near).len(),
    ensures
        ({
            let c = candidates_of(nearest, searched, near);
            let order = |mode: u8|
                if mode == 12 {
                    0int
                } else if mode == 13 {
                    1
                } else if mode == 10 {
                    2
                } else {
                    3
                };
            &&& c[0] == (12u8, (0i32, 0i32))
            &&& order(c[i].0) < order(c[j].0)
            &&& c[j].1 != (0i32, 0i32)
            &&& c[j].0 == 13 ==> c[j].1 == searched
            &&& c[j].0 == 10 ==> c[j].1 == nearest
            &&& c[j].0 == 11 ==> c[j].1 == near && near != nearest
            &&& c[j].0 == 13 || c[j].0 == 10 || c[j].0 == 11
        }),
{
}

/// How many candidates a reference has: one, and one for each vector that moves, but for a
/// near one that repeats the nearest.
pub proof fn law_candidates_are_complete(nearest: Mv, searched: Mv, near: Mv)
    ensures
        ({
            let zero = (0i32, 0i32);
            let c = candidates_of(nearest, searched, near);
            let n = 1 + (if searched != zero {
                1int
            } else {
                0
            }) + (if nearest != zero {
                1int
            } else {
                0
            }) + (if near != zero && near != nearest {
                1int
            } else {
                0
            });
            c.len() == n
        }),
{
}

/// Of two variable references that were searched the one with the lesser score is better,
/// the first of equal ones; of one that was and one that was not, the one that was.
pub proof fn law_better_reference(vars: Seq<usize>, searched: Seq<bool>, scores: Seq<u64>)
    requires
        vars.len() == 2,
        searched.len() == 3,
        scores.len() == 3,
        1 <= vars[0] <= 3,
        1 <= vars[1] <= 3,
    ensures
        ({
            let (a, b) = (searched[vars[0] - 1], searched[vars[1] - 1]);
            let (x, y) = (scores[vars[0] - 1], scores[vars[1] - 1]);
            let r = better_var(vars, searched, scores);
            &&& !a && !b <==> r is None
            &&& a && !b ==> r == Some(vars[0])
            &&& b && !a ==> r == Some(vars[1])
            &&& a && b && x <= y ==> r == Some(vars[0])
            &&& a && b && y < x ==> r == Some(vars[1])
        }),
{
}

/// Two references are tried only with a fixed one that was searched, and each variable one
/// that is tried was searched; where not all are asked for it is the better one.
pub proof fn law_pairs_to_try(
    fixed: int,
    vars: Seq<usize>,
    searched: Seq<bool>,
    scores: Seq<u64>,
    all: bool,
    v: usize,
)
    ensures
        ({
            let r = vars_to_try(fixed, vars, searched, scores, all);
            let known = 1 <= fixed <= 3 && searched[fixed - 1];
            let found = 1 <= v <= 3 && searched[v - 1];
            &&& !known ==> r.len() == 0
            &&& known && all ==> (r.contains(v) <==> vars.contains(v) && found)
            &&& known && !all ==> (r.contains(v) <==> vars.contains(v) && found && better_var(
                vars,
                searched,
                scores,
            ) == Some(v))
        }),
{
    let p = |v: usize| was_searched(v as int, searched);
    let q = |v: usize|
        was_searched(v as int, searched) && better_var(vars, searched, scores) == Some(v);
    lemma_filter_has(vars, p, v);
    lemma_filter_has(vars, q, v);
}

proof fn lemma_filter_has(s: Seq<usize>, p: spec_fn(usize) -> bool, v: usize)
    ensures
        s.filter(p).contains(v) <==> s.contains(v) && p(v),
    decreases s.len(),
{
    reveal(Seq::filter);
    if s.len() > 0 {
        let rest = s.drop_last();
        lemma_filter_has(rest, p, v);
        let (f, g) = (rest.filter(p), s.filter(p));
        if s.contains(v) {
            let k = choose|k: int| 0 <= k < s.len() && s[k] == v;
            if k < rest.len() {
                assert(rest[k] == v);
            }
        }
        if rest.contains(v) {
            let k = choose|k: int| 0 <= k < rest.len() && rest[k] == v;
            assert(s[k] == v);
        }
        assert(s[s.len() - 1] == s.last());
        if p(s.last()) {
            assert(g == f.push(s.last()));
            assert(g[g.len() - 1] == s.last());
            if f.contains(v) {
                let k = choose|k: int| 0 <= k < f.len() && f[k] == v;
                assert(g[k] == v);
            }
            if g.contains(v) && v != s.last() {
                let k = choose|k: int| 0 <= k < g.len() && g[k] == v;
                assert(f[k] == v);
            }
        }
    }
}

/// The candidates with two references: no motion and the two that were searched, then the
/// pair that was searched together if it differs, then the nearest and the near pairs.
pub proof fn law_pairs_in_order(
    searched: (Mv, Mv),
    joint: Option<(Mv, Mv)>,
    near: Option<((Mv, Mv), (Mv, Mv))>,
)
    ensures
        ({
            let c = pairs_of(searched, joint, near);
            let more = if joint is Some && joint.unwrap() != searched {
                1int
            } else {
                0
            };
            let zero: Mv = (0, 0);
            &&& c[0] == (12u8, zero, zero)
            &&& c[1] == (13u8, searched.0, searched.1)
            &&& more == 1 ==> c[2] == (13u8, joint.unwrap().0, joint.unwrap().1)
            &&& near is None ==> c.len() == 2 + more
            &&& near is Some ==> {
                let n = near.unwrap();
                &&& c.len() == 4 + more
                &&& c[2 + more] == (10u8, n.0.0, n.0.1)
                &&& c[3 + more] == (11u8, n.1.0, n.1.1)
            }
        }),
{
}

/// Trials that search for a transform size start from the smallest, those that do not have
/// the largest that fits and is allowed; a block without residual has the one that a
/// reader derives.
pub proof fn law_transforms_to_start_from(bsize: int, only_4x4: bool, cap: int)
    requires
        0 <= bsize < 13,
        0 <= cap <= 3,
    ensures
        start_tx(bsize, true, only_4x4, cap) == 0,
        start_tx(bsize, false, true, cap) == 0,
        start_tx(bsize, false, false, cap) <= cap,
        start_tx(bsize, false, false, cap) <= MAX_TXSIZE[bsize],
        start_tx(bsize, false, false, cap) == cap || start_tx(bsize, false, false, cap)
            == MAX_TXSIZE[bsize],
        skip_tx(bsize, true, only_4x4, cap) == MAX_TXSIZE[bsize],
        skip_tx(bsize, false, only_4x4, cap) == start_tx(bsize, false, only_4x4, cap),
{
}

/// An intra block always has its residual coded. An inter block goes without where it has no
/// coefficients, or where that scores no worse.
pub proof fn law_skip_where_it_pays(eob: int, without: u64, with: u64)
    ensures
        !skips(true, eob, Some((without, with))),
        !skips(true, eob, None),
        eob == 0 ==> skips(false, eob, None) && skips(false, eob, Some((without, with))),
        eob != 0 ==> !skips(false, eob, None),
        eob != 0 && without <= with ==> skips(false, eob, Some((without, with))),
        eob != 0 && without > with ==> !skips(false, eob, Some((without, with))),
{
}

/// A block that is left without residual costs no bits for it, and has the error of its
/// prediction where coefficients were dropped; any other block is as it was tried.
pub proof fn law_settled_blocks(
    m: ModeInfo,
    eobs: int,
    bits: u64,
    sse: u64,
    pred_sse: u64,
    skip_tx: u8,
)
    requires
        eobs >= 0,
    ensures
        ({
            let (a, b, e) = settlement(m, true, eobs, bits, sse, pred_sse, skip_tx);
            &&& a.skip && b == 0
            &&& eobs > 0 ==> e == pred_sse
            &&& eobs == 0 ==> e == sse
            &&& m.sb_type >= 3 ==> a.tx_size == skip_tx
            &&& m.sb_type < 3 ==> a.tx_size == m.tx_size
            &&& a.mode == m.mode && a.mv == m.mv && a.ref_frame == m.ref_frame && a.sb_type
                == m.sb_type
        }),
        ({
            let (a, b, e) = settlement(m, false, eobs, bits, sse, pred_sse, skip_tx);
            !a.skip && b == bits && e == sse && a.tx_size == m.tx_size && a.mode == m.mode
        }),
{
}

/// Each reference has a place of its own: last, golden, altref.
pub proof fn law_slots_of_references()
    ensures
        slot_of(1) == 0,
        slot_of(2) == 1,
        slot_of(3) == 2,
{
}

/// The best of the suggested vectors of a part has the least cost: of equal ones no motion
/// comes first, then nearest.
pub proof fn law_suggested_is_least(zero: i64, nearest: (Mv, i64), near: (Mv, i64))
    ensures
        ({
            let c = suggested(zero, nearest, near);
            &&& c.cost <= zero && c.cost <= nearest.1 && c.cost <= near.1
            &&& c.mode == 12 ==> c.cost == zero && c.mv == (0i32, 0i32)
            &&& c.mode == 10 ==> c.cost == nearest.1 && c.mv == nearest.0 && nearest.1 < zero
            &&& c.mode == 11 ==> c.cost == near.1 && c.mv == near.0 && near.1 < nearest.1
                && near.1 < zero
            &&& c.mode == 12 || c.mode == 10 || c.mode == 11
        }),
{
}

/// In a 4x4 block each part stands for itself; in one that is cut upright the upper for the
/// lower, in one that is cut across the left for the right.
pub proof fn law_parts_stand_for_others()
    ensures
        stands_for(0, 0) == 0 && stands_for(0, 1) == 1 && stands_for(0, 2) == 2 && stands_for(0, 3)
            == 3,
        stands_for(1, 0) == 0 && stands_for(1, 1) == 1 && stands_for(1, 2) == 0 && stands_for(1, 3)
            == 1,
        stands_for(2, 0) == 0 && stands_for(2, 1) == 0 && stands_for(2, 2) == 2 && stands_for(2, 3)
            == 2,
{
}

} // verus!
