//! The decision over an inter block, trial by trial: candidates are estimated, the best
//! of them are tried in full, and then pairs of references and intra modes. Estimating
//! and trying is done outside; here it is kept what was found, and in the end who wins.
use vstd::prelude::*;

use crate::block::{ModeInfo, Mv};
use crate::encode::decide::{
    ascending, candidates_of, choose_winner, compound_vars, entry, entry_score, full_trials,
    is_ranking, is_single, keep_least, rank, ref_candidates, single_choice, tried_in_full,
    vars_to_try, winner_of, with_score, Pick, Winner, GIVEN_UP,
};

verus! {

/// A candidate with one reference, and what is estimated of it.
#[derive(Clone, Copy, Debug, PartialEq, Eq)]
pub struct Candidate {
    pub slot: usize,
    pub mode: u8,
    pub mv: Mv,
    pub estimate: u64,
}

/// The state of the decision over a block.
pub struct InterTrials {
    bsize: usize,
    tx: u8,
    filter: u8,
    /// The predictor and the vector that was searched, of each reference.
    found: [Option<(Mv, Mv)>; 3],
    candidates: Vec<Candidate>,
    least: [u64; 4],
    slot_scores: [u64; 3],
    single: Pick,
    pair: Option<(ModeInfo, u64)>,
    intra: Option<(ModeInfo, u64)>,
    /// The scores of all trials.
    tried: Ghost<Seq<u64>>,
}

/// The lesser of two scores.
pub open spec fn lesser(a: u64, b: u64) -> u64 {
    if b < a {
        b
    } else {
        a
    }
}

/// The score of an optional choice.
pub open spec fn score_or_none(c: Option<(ModeInfo, u64)>) -> u64 {
    match c {
        Some(x) => x.1,
        None => GIVEN_UP,
    }
}

/// The scores of an optional choice, as an option.
pub open spec fn score_of(c: Option<(ModeInfo, u64)>) -> Option<u64> {
    match c {
        Some(x) => Some(x.1),
        None => None,
    }
}

/// No score is less, and the least was one of them unless all were given up.
pub open spec fn is_least(least: u64, scores: Seq<u64>) -> bool {
    &&& forall|i: int| 0 <= i < scores.len() ==> least <= #[trigger] scores[i]
    &&& least < GIVEN_UP ==> scores.contains(least)
}

/// All candidates have one of the three references.
pub open spec fn slots_known(c: Seq<Candidate>) -> bool {
    forall|i: int| 0 <= i < c.len() ==> (#[trigger] c[i]).slot < 3
}

impl InterTrials {
    pub closed spec fn bsize(&self) -> int {
        self.bsize as int
    }

    pub closed spec fn tx(&self) -> int {
        self.tx as int
    }

    pub closed spec fn filter(&self) -> u8 {
        self.filter
    }

    /// The candidates with one reference, in the order in which they were estimated.
    pub closed spec fn candidates(&self) -> Seq<Candidate> {
        self.candidates@
    }

    /// The four least estimates.
    pub closed spec fn least(&self) -> Seq<u64> {
        self.least@
    }

    /// The predictor and the vector that was searched, of each reference.
    pub closed spec fn found(&self) -> Seq<Option<(Mv, Mv)>> {
        self.found@
    }

    /// The least estimate of each reference.
    pub closed spec fn slot_scores(&self) -> Seq<u64> {
        self.slot_scores@
    }

    /// The best candidate with one reference.
    pub closed spec fn single(&self) -> Pick {
        self.single
    }

    /// The best block with two references.
    pub closed spec fn pair(&self) -> Option<(ModeInfo, u64)> {
        self.pair
    }

    /// The intra block that was tried.
    pub closed spec fn intra(&self) -> Option<(ModeInfo, u64)> {
        self.intra
    }

    /// The scores of all trials.
    pub closed spec fn tried(&self) -> Seq<u64> {
        self.tried@
    }

    /// The least score of all.
    pub open spec fn best_score(&self) -> u64 {
        lesser(
            lesser(self.single().score, score_or_none(self.pair())),
            score_or_none(self.intra()),
        )
    }

    /// What is kept is in order: no trial was better than the best, and the best was one.
    pub open spec fn wf(&self) -> bool {
        &&& 0 <= self.bsize() < 13
        &&& ascending(self.least())
        &&& self.found().len() == 3
        &&& self.slot_scores().len() == 3
        &&& self.least().len() == 4
        &&& slots_known(self.candidates())
        &&& self.single().score < GIVEN_UP ==> self.single().index < self.candidates().len()
        &&& self.single().score == GIVEN_UP ==> self.single().index == 0
        &&& self.pair() is Some ==> self.pair().unwrap().1 < self.single().score
        &&& is_least(self.best_score(), self.tried())
    }

    /// Nothing has been looked at yet.
    pub fn new(bsize: usize, tx: u8, filter: u8) -> (t: InterTrials)
        requires
            bsize < 13,
        ensures
            t.wf(),
            t.bsize() == bsize,
            t.tx() == tx,
            t.filter() == filter,
            t.candidates().len() == 0,
            t.found() == seq![None::<(Mv, Mv)>, None, None],
            t.least() == seq![GIVEN_UP, GIVEN_UP, GIVEN_UP, GIVEN_UP],
            t.slot_scores() == seq![GIVEN_UP, GIVEN_UP, GIVEN_UP],
            t.single() == (Pick { index: 0, score: GIVEN_UP }),
            t.pair() is None,
            t.intra() is None,
            t.tried().len() == 0,
    {
        let t: InterTrials = InterTrials {
            bsize,
            tx,
            filter,
            found: [None, None, None],
            candidates: Vec::new(),
            least: [GIVEN_UP, GIVEN_UP, GIVEN_UP, GIVEN_UP],
            slot_scores: [GIVEN_UP, GIVEN_UP, GIVEN_UP],
            single: Pick::none(0),
            pair: None,
            intra: None,
            tried: Ghost(Seq::empty()),
        };
        assert(t.found@ =~= seq![None::<(Mv, Mv)>, None, None]);
        assert(t.least@ =~= seq![GIVEN_UP, GIVEN_UP, GIVEN_UP, GIVEN_UP]);
        assert(t.slot_scores@ =~= seq![GIVEN_UP, GIVEN_UP, GIVEN_UP]);
        t
    }

    /// Takes in what was found for a reference, and lists the candidates to estimate.
    pub fn search_done(&mut self, slot: usize, predictor: Mv, searched: Mv, near: Mv) -> (r: Vec<
        (u8, Mv),
    >)
        requires
            old(self).wf(),
            slot < 3,
        ensures
            final(self).wf(),
            r@ == candidates_of(predictor, searched, near),
            final(self).found() == old(self).found().update(
                slot as int,
                Some((predictor, searched)),
            ),
            same_but_found(*old(self), *final(self)),
    {
        self.found[slot] = Some((predictor, searched));
        ref_candidates(predictor, searched, near)
    }

    /// Takes in what is estimated of a candidate.
    pub fn estimated(&mut self, slot: usize, mode: u8, mv: Mv, estimate: u64)
        requires
            old(self).wf(),
            slot < 3,
        ensures
            final(self).wf(),
            final(self).candidates() == old(self).candidates().push(
                Candidate { slot, mode, mv, estimate },
            ),
            final(self).least() == with_score(old(self).least(), estimate),
            final(self).slot_scores() == old(self).slot_scores().update(
                slot as int,
                lesser(old(self).slot_scores()[slot as int], estimate),
            ),
            same_but_estimates(*old(self), *final(self)),
    {
        let ghost before = *self;
        self.candidates.push(Candidate { slot, mode, mv, estimate });
        keep_least(&mut self.least, estimate);
        if estimate < self.slot_scores[slot] {
            self.slot_scores[slot] = estimate;
        }
        proof {
            assert(self.slot_scores@ =~= before.slot_scores@.update(
                slot as int,
                lesser(before.slot_scores@[slot as int], estimate),
            ));
            assert(slots_known(before.candidates@));
            assert(slots_known(self.candidates@));
        }
    }

    /// The estimate that the next candidate must not exceed to be among the first `k`.
    pub fn entry(&self, k: usize) -> (r: Option<u64>)
        ensures
            r == entry(self.least(), true, k as int),
    {
        entry_score(&self.least, true, k)
    }

    /// The candidates that are tried in full: the first `k` by their estimates, least
    /// first.
    pub fn shortlist(&self, k: usize) -> (r: Vec<usize>)
        requires
            self.wf(),
        ensures
            ({
                let s = self.candidates().map_values(|c: Candidate| c.estimate);
                exists|order: Seq<usize>| #[trigger]
                    is_ranking(s, order) && r@ == order.take(
                        tried_in_full(s.len() as int, true, k as int),
                    )
            }),
            forall|a: int| 0 <= a < r@.len() ==> #[trigger] r@[a] < self.candidates().len(),
    {
        let n: usize = self.candidates.len();
        let mut estimates: Vec<u64> = Vec::new();
        let mut i: usize = 0;
        while i < n
            invariant
                i <= n,
                n == self.candidates@.len(),
                estimates@ =~= self.candidates@.take(i as int).map_values(
                    |c: Candidate| c.estimate,
                ),
            decreases n - i,
        {
            estimates.push(self.candidates[i].estimate);
            i += 1;
            assert(self.candidates@.take(i as int) =~= self.candidates@.take(i - 1).push(
                self.candidates@[i - 1],
            ));
        }
        assert(self.candidates@.take(n as int) =~= self.candidates@);
        let mut order: Vec<usize> = rank(estimates.as_slice());
        let ghost all = order@;
        let k: usize = full_trials(n, true, k);
        order.truncate(k);
        proof {
            assert(order@ =~= all.take(k as int));
            assert(is_ranking(estimates@, all));
            assert forall|a: int| 0 <= a < order@.len() implies #[trigger] order@[a]
                < self.candidates@.len() by {
                assert(order@[a] == all[a]);
            }
        }
        order
    }

    /// The block that a candidate stands for.
    pub fn block(&self, i: usize) -> (m: ModeInfo)
        requires
            self.wf(),
            i < self.candidates().len(),
        ensures
            ({
                let c = self.candidates()[i as int];
                is_single(m, self.bsize(), self.tx(), (c.slot + 1) as i8, c.mode, c.mv, self.filter())
            }),
    {
        let c: Candidate = self.candidates[i];
        assert(self.candidates()[i as int].slot < 3);
        single_choice(self.bsize, self.tx, (c.slot + 1) as i8, c.mode, c.mv, self.filter)
    }

    /// Takes in the score of a candidate that was tried in full. Singles come before
    /// pairs.
    pub fn single_tried(&mut self, i: usize, score: u64) -> (taken: bool)
        requires
            old(self).wf(),
            i < old(self).candidates().len(),
            old(self).pair() is None,
        ensures
            final(self).wf(),
            taken == (score < old(self).single().score),
            final(self).single() == (if taken {
                Pick { index: i, score }
            } else {
                old(self).single()
            }),
            final(self).tried() == old(self).tried().push(score),
            final(self).pair() == old(self).pair(),
            final(self).intra() == old(self).intra(),
            same_candidates(*old(self), *final(self)),
    {
        let ghost before = *self;
        let taken: bool = self.single.offer(i, score);
        self.tried = Ghost(self.tried@.push(score));
        proof {
            lemma_tried(before, *self, score);
        }
        taken
    }

    /// The references that the fixed one is paired with.
    pub fn partners(&self, fixed: usize, vars: &[usize; 2], all: bool) -> (r: Vec<usize>)
        requires
            self.wf(),
        ensures
            r@ == vars_to_try(
                fixed as int,
                vars@,
                self.found().map_values(|f: Option<(Mv, Mv)>| f is Some),
                self.slot_scores(),
                all,
            ),
    {
        let searched: [bool; 3] = [
            self.found[0].is_some(),
            self.found[1].is_some(),
            self.found[2].is_some(),
        ];
        assert(searched@ =~= self.found@.map_values(|f: Option<(Mv, Mv)>| f is Some));
        compound_vars(fixed, vars, &searched, &self.slot_scores, all)
    }

    /// Takes in the score of a block with two references: it must be better than all that
    /// were tried before it with one or two.
    pub fn pair_tried(&mut self, m: ModeInfo, score: u64) -> (taken: bool)
        requires
            old(self).wf(),
        ensures
            final(self).wf(),
            taken == (score < old(self).single().score && score < score_or_none(old(self).pair())),
            final(self).pair() == (if taken {
                Some((m, score))
            } else {
                old(self).pair()
            }),
            final(self).tried() == old(self).tried().push(score),
            final(self).single() == old(self).single(),
            final(self).intra() == old(self).intra(),
            same_candidates(*old(self), *final(self)),
    {
        let ghost before = *self;
        let so_far: u64 = match self.pair {
            Some((_, s)) => s,
            None => GIVEN_UP,
        };
        let taken: bool = score < self.single.score && score < so_far;
        if taken {
            self.pair = Some((m, score));
        }
        self.tried = Ghost(self.tried@.push(score));
        proof {
            lemma_tried(before, *self, score);
        }
        taken
    }

    /// Takes in the intra block that is judged against the others.
    pub fn intra_tried(&mut self, m: ModeInfo, score: u64)
        requires
            old(self).wf(),
            old(self).intra() is None,
        ensures
            final(self).wf(),
            final(self).intra() == Some((m, score)),
            final(self).tried() == old(self).tried().push(score),
            final(self).single() == old(self).single(),
            final(self).pair() == old(self).pair(),
            same_candidates(*old(self), *final(self)),
    {
        let ghost before = *self;
        self.intra = Some((m, score));
        self.tried = Ghost(self.tried@.push(score));
        proof {
            lemma_tried(before, *self, score);
        }
    }

    /// Who wins, and its score: that of no trial is less.
    pub fn winner(&self) -> (r: (Winner, u64))
        requires
            self.wf(),
        ensures
            r.0 == winner_of(
                self.single().score,
                score_of(self.pair()),
                score_or_none(self.intra()),
            ),
            r.1 == self.best_score(),
            r.1 == match r.0 {
                Winner::Single => self.single().score,
                Winner::Compound => score_or_none(self.pair()),
                Winner::Intra => score_or_none(self.intra()),
            },
            is_least(r.1, self.tried()),
    {
        let pair: Option<u64> = match self.pair {
            Some((_, s)) => Some(s),
            None => None,
        };
        let intra: u64 = match self.intra {
            Some((_, s)) => s,
            None => GIVEN_UP,
        };
        let w: Winner = choose_winner(self.single.score, pair, intra);
        let score: u64 = match w {
            Winner::Single => self.single.score,
            Winner::Compound => match pair {
                Some(s) => s,
                None => GIVEN_UP,
            },
            Winner::Intra => intra,
        };
        (w, score)
    }

    /// The block that wins, and the vector from which new ones of its first reference are
    /// coded.
    pub fn chosen(&self) -> (r: (ModeInfo, Mv))
        requires
            self.wf(),
            self.candidates().len() > 0,
            self.pair() is Some ==> 1 <= self.pair().unwrap().0.ref_frame[0] <= 3,
        ensures
            ({
                let c = self.candidates()[self.single().index as int];
                let w = winner_of(
                    self.single().score,
                    score_of(self.pair()),
                    score_or_none(self.intra()),
                );
                &&& match w {
                    Winner::Single => is_single(
                        r.0,
                        self.bsize(),
                        self.tx(),
                        (c.slot + 1) as i8,
                        c.mode,
                        c.mv,
                        self.filter(),
                    ),
                    Winner::Compound => r.0 == self.pair().unwrap().0,
                    Winner::Intra => r.0 == self.intra().unwrap().0,
                }
                &&& r.1 == predictor_of(
                    self.found(),
                    if w == Winner::Compound {
                        self.pair().unwrap().0.ref_frame[0] - 1
                    } else {
                        c.slot as int
                    },
                )
            }),
    {
        let (w, _): (Winner, u64) = self.winner();
        let i: usize = self.single.index;
        assert(self.candidates()[i as int].slot < 3);
        let c: Candidate = self.candidates[i];
        let m: ModeInfo = match (w, self.pair, self.intra) {
            (Winner::Compound, Some((m, _)), _) => m,
            (Winner::Intra, _, Some((m, _))) => m,
            _ => self.block(i),
        };
        let slot: usize = match (w, self.pair) {
            (Winner::Compound, Some((m, _))) => (m.ref_frame[0] - 1) as usize,
            _ => c.slot,
        };
        let predictor: Mv = match self.found[slot] {
            Some((p, _)) => p,
            None => (0, 0),
        };
        (m, predictor)
    }
}

/// The predictor of a reference.
pub open spec fn predictor_of(found: Seq<Option<(Mv, Mv)>>, slot: int) -> Mv {
    match found[slot] {
        Some(f) => f.0,
        None => (0, 0),
    }
}

/// Only what was found differs.
pub open spec fn same_but_found(a: InterTrials, b: InterTrials) -> bool {
    &&& b.bsize() == a.bsize()
    &&& b.tx() == a.tx()
    &&& b.filter() == a.filter()
    &&& b.candidates() == a.candidates()
    &&& b.least() == a.least()
    &&& b.slot_scores() == a.slot_scores()
    &&& b.single() == a.single()
    &&& b.pair() == a.pair()
    &&& b.intra() == a.intra()
    &&& b.tried() == a.tried()
}

/// Only the candidates and their estimates differ.
pub open spec fn same_but_estimates(a: InterTrials, b: InterTrials) -> bool {
    &&& b.bsize() == a.bsize()
    &&& b.tx() == a.tx()
    &&& b.filter() == a.filter()
    &&& b.found() == a.found()
    &&& b.single() == a.single()
    &&& b.pair() == a.pair()
    &&& b.intra() == a.intra()
    &&& b.tried() == a.tried()
}

/// The candidates, and what is known of them, are the same.
pub open spec fn same_candidates(a: InterTrials, b: InterTrials) -> bool {
    &&& b.bsize() == a.bsize()
    &&& b.tx() == a.tx()
    &&& b.filter() == a.filter()
    &&& b.found() == a.found()
    &&& b.candidates() == a.candidates()
    &&& b.least() == a.least()
    &&& b.slot_scores() == a.slot_scores()
}

/// The best of all trials, after one more.
proof fn lemma_tried(a: InterTrials, b: InterTrials, score: u64)
    requires
        a.wf(),
        b.tried() == a.tried().push(score),
        b.best_score() == lesser(a.best_score(), score),
    ensures
        is_least(b.best_score(), b.tried()),
{
    assert forall|i: int| 0 <= i < b.tried().len() implies b.best_score()
        <= #[trigger] b.tried()[i] by {
        if i < a.tried().len() {
            assert(b.tried()[i] == a.tried()[i]);
        }
    }
    if b.best_score() < GIVEN_UP {
        if score < a.best_score() {
            assert(b.tried()[a.tried().len() as int] == score);
        } else {
            let i = choose|i: int|
                0 <= i < a.tried().len() && a.tried()[i] == a.best_score();
            assert(b.tried()[i] == a.best_score());
        }
    }
}

} // verus!
