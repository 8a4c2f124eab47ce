//! The decision over how a square is cut, trial by trial: first the square as one block,
//! then its four quarters one by one, or the cuts below 8x8. Trying is done outside; here
//! it is kept which trial comes next, and in the end which cut is chosen. A score is a
//! number of which only the order counts.
use vstd::prelude::*;

use crate::block::{PARTITION_HORZ, PARTITION_NONE, PARTITION_SPLIT, PARTITION_VERT};
use crate::decode::partition::is_square;
use crate::encode::decide::GIVEN_UP;
use crate::encode::intertrials::is_least;
use crate::encode::partition::pick_partition;

verus! {

/// A trial of a cut.
#[derive(Clone, Copy, Debug, PartialEq, Eq, Structural)]
pub enum CutTrial {
    /// The square as one block.
    Whole,
    /// One of its quarters, row by row.
    Quarter(usize),
    /// A cut of an 8x8 square into blocks below 8x8.
    Sub(usize),
    /// None is left.
    Nothing,
}

/// The cuts below 8x8, in the order in which they are tried.
pub const SUB_CUTS: [usize; 3] = [PARTITION_SPLIT, PARTITION_HORZ, PARTITION_VERT];

/// What is tried of a square.
#[derive(Clone, Copy, Debug, PartialEq, Eq, Structural)]
pub struct CutRules {
    pub bsize: usize,
    /// Whether the square can be one block.
    pub fits: bool,
    /// Whether an 8x8 square may be cut into blocks below 8x8.
    pub sub8x8: bool,
    /// Whether quarters are given up once they cost more than the square as one block.
    pub split_early: bool,
}

/// The state of the decision over a square.
pub struct PartitionTrials {
    rules: CutRules,
    /// The score of the square as one block, once it was tried.
    none: Option<u64>,
    /// Whether that was so good that nothing else is tried.
    enough: bool,
    quarters: usize,
    lost: bool,
    /// The score of the four quarters, once all were tried.
    split: Option<u64>,
    subs: usize,
    /// The best cut below 8x8 so far.
    sub: Option<(usize, u64)>,
    /// The scores of all cuts that were tried to the end.
    tried: Ghost<Seq<u64>>,
}

/// What is known of a square while it is decided how it is cut.
pub struct CutState {
    pub none: Option<u64>,
    pub enough: bool,
    pub quarters: int,
    pub lost: bool,
    pub split: Option<u64>,
    pub subs: int,
    pub sub: Option<(usize, u64)>,
}

/// The trial that is owed next. The square as one block comes first, wherever it can be
/// one. Where that is good enough nothing follows. Else squares over 8x8 are tried in
/// quarters until they have lost, and 8x8 squares in the cuts below 8x8, if those are on.
pub open spec fn owed(r: CutRules, s: CutState) -> CutTrial {
    if r.fits && s.none is None {
        CutTrial::Whole
    } else if s.enough {
        CutTrial::Nothing
    } else if r.bsize > 3 {
        if !s.lost && s.quarters < 4 {
            CutTrial::Quarter(s.quarters as usize)
        } else {
            CutTrial::Nothing
        }
    } else if r.sub8x8 && r.fits && s.subs < 3 {
        CutTrial::Sub(SUB_CUTS[s.subs])
    } else {
        CutTrial::Nothing
    }
}

/// Behind the first `n + 1` quarters with the score `total`: whether the others are given
/// up. The last quarter decides nothing more.
pub open spec fn loses(r: CutRules, s: CutState, total: u64) -> bool {
    r.split_early && s.quarters < 3 && s.none is Some && total > s.none.unwrap()
}

/// The score of an optional trial.
pub open spec fn or_given_up(s: Option<u64>) -> u64 {
    match s {
        Some(x) => x,
        None => GIVEN_UP,
    }
}

/// The score of the best cut below 8x8.
pub open spec fn sub_score(s: Option<(usize, u64)>) -> u64 {
    match s {
        Some(x) => x.1,
        None => GIVEN_UP,
    }
}

/// The lesser of two scores.
pub open spec fn lesser(a: u64, b: u64) -> u64 {
    if b < a {
        b
    } else {
        a
    }
}

impl CutState {
    /// The least score of a square that is cut.
    pub open spec fn cut_score(self) -> u64 {
        lesser(or_given_up(self.split), sub_score(self.sub))
    }

    /// The least score of all.
    pub open spec fn best_score(self) -> u64 {
        lesser(or_given_up(self.none), self.cut_score())
    }

    /// Something was tried to the end.
    pub open spec fn any(self) -> bool {
        self.none is Some || self.split is Some || self.sub is Some
    }
}

/// The cut that is chosen, and its score: none where it was tried and is no worse than
/// `limit`, else the better of the others.
pub open spec fn chosen_cut(s: CutState, limit: u64) -> (usize, u64) {
    if s.none is Some && (s.none.unwrap() <= limit || (s.split is None && s.sub is None)) {
        (PARTITION_NONE, s.none.unwrap())
    } else if s.sub is Some && sub_score(s.sub) <= or_given_up(s.split) {
        s.sub.unwrap()
    } else {
        (PARTITION_SPLIT, or_given_up(s.split))
    }
}

/// One of the cuts below 8x8.
pub open spec fn is_sub_cut(cut: int) -> bool {
    cut == PARTITION_SPLIT || cut == PARTITION_HORZ || cut == PARTITION_VERT
}

/// What holds of a square at every moment.
pub open spec fn cut_state_ok(r: CutRules, s: CutState) -> bool {
    &&& is_square(r.bsize as int)
    &&& r.bsize == 3 ==> r.fits
    &&& 0 <= s.quarters <= 4
    &&& 0 <= s.subs <= 3
    &&& s.none is Some ==> r.fits
    &&& r.fits && s.none is None ==> s.quarters == 0 && s.subs == 0
    &&& s.enough ==> s.none is Some && s.quarters == 0 && s.subs == 0
    &&& r.bsize > 3 ==> s.subs == 0
    &&& !r.sub8x8 ==> s.subs == 0
    &&& r.bsize == 3 ==> s.quarters == 0
    &&& s.lost ==> s.none is Some && 0 < s.quarters < 4
    &&& s.split is Some <==> s.quarters == 4
    &&& s.sub is Some <==> s.subs > 0
    &&& s.sub is Some ==> is_sub_cut(s.sub.unwrap().0 as int)
}

impl PartitionTrials {
    /// What is tried of the square.
    pub closed spec fn rules(&self) -> CutRules {
        self.rules
    }

    /// What is known of the square.
    pub closed spec fn view(&self) -> CutState {
        CutState {
            none: self.none,
            enough: self.enough,
            quarters: self.quarters as int,
            lost: self.lost,
            split: self.split,
            subs: self.subs as int,
            sub: self.sub,
        }
    }

    /// The scores of all cuts that were tried to the end.
    pub closed spec fn tried(&self) -> Seq<u64> {
        self.tried@
    }

    /// The state is one that trials lead to, and no cut that was tried is better than the
    /// best.
    pub open spec fn wf(&self) -> bool {
        cut_state_ok(self.rules(), self@) && is_least(self@.best_score(), self.tried())
    }

    /// Nothing has been tried yet.
    pub fn new(rules: CutRules) -> (t: PartitionTrials)
        requires
            is_square(rules.bsize as int),
            rules.bsize == 3 ==> rules.fits,
        ensures
            t.wf(),
            t.rules() == rules,
            t@ == (CutState {
                none: None,
                enough: false,
                quarters: 0,
                lost: false,
                split: None,
                subs: 0,
                sub: None,
            }),
            t.tried().len() == 0,
    {
        PartitionTrials {
            rules,
            none: None,
            enough: false,
            quarters: 0,
            lost: false,
            split: None,
            subs: 0,
            sub: None,
            tried: Ghost(Seq::empty()),
        }
    }

    /// The trial that is owed next.
    pub fn next(&self) -> (r: CutTrial)
        requires
            self.wf(),
        ensures
            r == owed(self.rules(), self@),
    {
        if self.rules.fits && self.none.is_none() {
            CutTrial::Whole
        } else if self.enough {
            CutTrial::Nothing
        } else if self.rules.bsize > 3 {
            if !self.lost && self.quarters < 4 {
                CutTrial::Quarter(self.quarters)
            } else {
                CutTrial::Nothing
            }
        } else if self.rules.sub8x8 && self.rules.fits && self.subs < 3 {
            CutTrial::Sub(SUB_CUTS[self.subs])
        } else {
            CutTrial::Nothing
        }
    }

    /// Takes in the score of the square as one block, and whether that is good enough to
    /// try nothing else.
    pub fn none_tried(&mut self, score: u64, enough: bool)
        requires
            old(self).wf(),
            owed(old(self).rules(), old(self)@) == CutTrial::Whole,
        ensures
            final(self).wf(),
            final(self).rules() == old(self).rules(),
            final(self)@ == (CutState { none: Some(score), enough, ..old(self)@ }),
            final(self).tried() == old(self).tried().push(score),
    {
        let ghost before = *self;
        self.none = Some(score);
        self.enough = enough;
        self.tried = Ghost(self.tried@.push(score));
        proof {
            lemma_pushed(before, *self, score);
        }
    }

    /// Takes in the score of the quarters that were tried so far, the last one among them.
    /// The answer is whether the square has lost so, and the others are given up.
    pub fn quarter_tried(&mut self, total: u64) -> (lost: bool)
        requires
            old(self).wf(),
            owed(old(self).rules(), old(self)@) is Quarter,
        ensures
            final(self).wf(),
            final(self).rules() == old(self).rules(),
            lost == loses(old(self).rules(), old(self)@, total),
            final(self)@ == (CutState {
                quarters: old(self)@.quarters + 1,
                lost,
                split: if old(self)@.quarters == 3 {
                    Some(total)
                } else {
                    None
                },
                ..old(self)@
            }),
            final(self).tried() == (if old(self)@.quarters == 3 {
                old(self).tried().push(total)
            } else {
                old(self).tried()
            }),
    {
        let ghost before = *self;
        let i: usize = self.quarters;
        let lost: bool = match self.none {
            Some(n) => self.rules.split_early && i < 3 && total > n,
            None => false,
        };
        self.lost = lost;
        self.quarters = i + 1;
        if i == 3 {
            self.split = Some(total);
            self.tried = Ghost(self.tried@.push(total));
            proof {
                lemma_pushed(before, *self, total);
            }
        }
        lost
    }

    /// Takes in the score of a cut below 8x8. The answer is whether it is the best of them
    /// so far: of equal ones the first is.
    pub fn sub_tried(&mut self, score: u64) -> (taken: bool)
        requires
            old(self).wf(),
            owed(old(self).rules(), old(self)@) is Sub,
        ensures
            final(self).wf(),
            final(self).rules() == old(self).rules(),
            taken == (old(self)@.sub is None || score < old(self)@.sub.unwrap().1),
            final(self)@ == (CutState {
                subs: old(self)@.subs + 1,
                sub: if taken {
                    Some((SUB_CUTS[old(self)@.subs], score))
                } else {
                    old(self)@.sub
                },
                ..old(self)@
            }),
            final(self).tried() == old(self).tried().push(score),
    {
        let ghost before = *self;
        let taken: bool = match self.sub {
            Some((_, s)) => score < s,
            None => true,
        };
        if taken {
            self.sub = Some((SUB_CUTS[self.subs], score));
        }
        self.subs = self.subs + 1;
        self.tried = Ghost(self.tried@.push(score));
        proof {
            lemma_pushed(before, *self, score);
        }
        taken
    }

    /// The cut that is chosen once no trial is owed, and its score. `limit` is the score up
    /// to which the square is left as one block: that of the best cut, or a little more.
    pub fn chosen(&self, limit: u64) -> (r: (usize, u64))
        requires
            self.wf(),
            owed(self.rules(), self@) == CutTrial::Nothing,
        ensures
            self@.any(),
            r == chosen_cut(self@, limit),
            limit == self@.cut_score() ==> is_least(r.1, self.tried()),
    {
        let split: u64 = match self.split {
            Some(s) => s,
            None => GIVEN_UP,
        };
        let uncut: bool = self.split.is_none() && self.sub.is_none();
        let cut: usize = match self.none {
            Some(n) => if uncut {
                PARTITION_NONE
            } else {
                pick_partition(n, limit, split, self.sub)
            },
            None => PARTITION_SPLIT,
        };
        if cut == PARTITION_NONE {
            if let Some(n) = self.none {
                return (cut, n);
            }
        }
        match self.sub {
            Some((c, s)) => if s <= split {
                (c, s)
            } else {
                (PARTITION_SPLIT, split)
            },
            None => (PARTITION_SPLIT, split),
        }
    }
}

/// The best of all cuts, after one more was tried.
proof fn lemma_pushed(a: PartitionTrials, b: PartitionTrials, score: u64)
    requires
        is_least(a@.best_score(), a.tried()),
        b.tried() == a.tried().push(score),
        b@.best_score() == lesser(a@.best_score(), score),
    ensures
        is_least(b@.best_score(), b.tried()),
{
    let (x, y) = (a@.best_score(), b@.best_score());
    assert forall|i: int| 0 <= i < b.tried().len() implies y <= #[trigger] b.tried()[i] by {
        if i < a.tried().len() {
            assert(b.tried()[i] == a.tried()[i]);
        }
    }
    if y < GIVEN_UP {
        if score < x {
            assert(b.tried()[a.tried().len() as int] == score);
        } else {
            let i = choose|i: int| 0 <= i < a.tried().len() && a.tried()[i] == x;
            assert(b.tried()[i] == x);
        }
    }
}

/// Giving up quarters early changes no choice: where the square as one block is no worse
/// than what it costs to have tried some of them, and more of them never cost less, all
/// four would not have been chosen either.
pub proof fn law_lost_quarters_lose(s: CutState, total: u64, all: u64)
    requires
        s.none is Some,
        s.split is None,
        s.sub is None,
        total > s.none.unwrap(),
        all >= total,
    ensures
        ({
            let t = CutState { split: Some(all), ..s };
            &&& chosen_cut(t, t.cut_score()) == (PARTITION_NONE, s.none.unwrap())
            &&& chosen_cut(s, s.cut_score()) == (PARTITION_NONE, s.none.unwrap())
        }),
{
}

/// A trial is owed only while it is still missing: the whole square once, first of all; the
/// quarters one after the other, of squares over 8x8 alone; the other cuts of 8x8 squares
/// alone. Where nothing is owed, the square was tried as a whole if it can be one, and
/// nothing was left that could be better.
pub proof fn law_trials_in_order(r: CutRules, s: CutState)
    requires
        cut_state_ok(r, s),
    ensures
        match owed(r, s) {
            CutTrial::Whole => s.none is None && r.fits && s.quarters == 0 && s.subs == 0,
            CutTrial::Quarter(k) => k == s.quarters && k < 4 && r.bsize > 3 && !s.lost,
            CutTrial::Sub(cut) => r.bsize == 3 && r.sub8x8 && s.none is Some && is_sub_cut(
                cut as int,
            ),
            CutTrial::Nothing => {
                &&& r.fits ==> s.none is Some
                &&& !s.enough && !s.lost && r.bsize > 3 ==> s.split is Some
                &&& !s.enough && r.sub8x8 && r.bsize == 3 ==> s.subs == 3
            },
        },
{
}

/// Each cut below 8x8 is tried in a turn of its own, the one into four first.
pub proof fn law_each_cut_has_its_turn(r: CutRules, a: CutState, b: CutState)
    requires
        cut_state_ok(r, a),
        cut_state_ok(r, b),
        owed(r, a) is Sub,
        owed(r, b) is Sub,
        a.subs != b.subs,
    ensures
        owed(r, a) != owed(r, b),
        a.subs == 0 ==> owed(r, a) == CutTrial::Sub(PARTITION_SPLIT),
{
}

/// What is chosen of a square has the least of all its scores; the whole square is chosen
/// only where no cut is better, and is where it is as good as every cut.
pub proof fn law_chosen_cut_is_best(r: CutRules, s: CutState)
    requires
        cut_state_ok(r, s),
        s.any(),
    ensures
        ({
            let (cut, score) = chosen_cut(s, s.cut_score());
            &&& s.none is Some ==> score <= s.none.unwrap()
            &&& s.split is Some ==> score <= s.split.unwrap()
            &&& s.sub is Some ==> score <= s.sub.unwrap().1
            &&& cut == PARTITION_NONE ==> s.none == Some(score)
            &&& cut != PARTITION_NONE ==> s.sub == Some((cut, score)) || (cut == PARTITION_SPLIT
                && s.split == Some(score))
            &&& s.none == Some(score) ==> cut == PARTITION_NONE
        }),
{
}

} // verus!
