//! Trimming coefficients: fewer and smaller levels cost less, and where the error that
//! they leave is small enough the block is better without them.
//!
//! What a block costs is judged outside. A trial is proposed, judged, and then kept or
//! taken back.
use vstd::prelude::*;

use crate::mv::abs;

verus! {

/// The levels of a block, the coefficients that they stand for, and the end of the
/// block: the number of levels in scan order up to the last that is not zero.
pub struct Coefs {
    pub levels: Seq<i32>,
    pub dq: Seq<i32>,
    pub eob: int,
}

/// The end of a block of which the first `e` levels in scan order may be not zero.
pub open spec fn trimmed(levels: Seq<i32>, scan: Seq<i16>, e: nat) -> nat
    decreases e,
{
    if e > 0 && levels[scan[e - 1] as int] == 0 {
        trimmed(levels, scan, (e - 1) as nat)
    } else {
        e
    }
}

/// The last of the first `at` levels in scan order that is not zero; -1 if there is none.
pub open spec fn last_level(levels: Seq<i32>, scan: Seq<i16>, at: nat) -> int {
    trimmed(levels, scan, at) - 1
}

/// The coefficient that a level stands for.
pub open spec fn dequantized(level: int, step: int, shift: int) -> int {
    let m = (abs(level) * step) / (if shift == 0 {
        1int
    } else {
        2
    });
    if level < 0 {
        -m
    } else {
        m
    }
}

/// A level one closer to zero.
pub open spec fn closer(level: int) -> int {
    if level < 0 {
        level + 1
    } else {
        level - 1
    }
}

/// How a block is quantized.
#[derive(Clone, Copy, Debug, PartialEq, Eq, Structural)]
pub struct Steps {
    pub dc: i64,
    pub ac: i64,
    pub shift: u32,
}

/// The step at a place.
pub open spec fn step_at(q: Steps, pos: int) -> int {
    if pos == 0 {
        q.dc as int
    } else {
        q.ac as int
    }
}

/// The block without its last level.
pub open spec fn without_last(c: Coefs, scan: Seq<i16>) -> Coefs {
    let pos = scan[c.eob - 1] as int;
    let levels = c.levels.update(pos, 0);
    Coefs {
        levels,
        dq: c.dq.update(pos, 0),
        eob: trimmed(levels, scan, (c.eob - 1) as nat) as int,
    }
}

/// The block with the level at place `i` in scan order one closer to zero.
pub open spec fn with_lower(c: Coefs, scan: Seq<i16>, q: Steps, i: int) -> Coefs {
    let pos = scan[i] as int;
    let lv = closer(c.levels[pos] as int);
    let levels = c.levels.update(pos, lv as i32);
    Coefs {
        levels,
        dq: c.dq.update(pos, dequantized(lv, step_at(q, pos), q.shift as int) as i32),
        eob: trimmed(levels, scan, c.eob as nat) as int,
    }
}

/// A trial that stands: where a level was changed, what was there, and the end of the
/// block with the change.
struct Trial {
    pos: usize,
    level: i32,
    dq: i32,
    eob: usize,
}

/// The trimming of a block: first the last levels are dropped while that pays, then
/// each level from the last to the first is tried one closer to zero.
pub struct Trellis {
    levels: Vec<i32>,
    dq: Vec<i32>,
    scan: Vec<i16>,
    steps: Steps,
    eob: usize,
    cost: u64,
    trimming: bool,
    at: usize,
    trial: Option<Trial>,
}

/// Places in scan order are places in the block.
pub open spec fn valid_scan(scan: Seq<i16>, n: int) -> bool {
    &&& scan.len() == n
    &&& forall|i: int| 0 <= i < n ==> 0 <= #[trigger] scan[i] < n
}

/// Levels that are not too large for their steps.
pub open spec fn valid_levels(levels: Seq<i32>, q: Steps) -> bool {
    forall|p: int|
        0 <= p < levels.len() ==> abs(#[trigger] levels[p] as int) * step_at(q, p) <= i32::MAX
            && levels[p] > i32::MIN
}

impl Trellis {
    /// The block as it is without the trial.
    pub closed spec fn base(&self) -> Coefs {
        match self.trial {
            Some(t) => Coefs {
                levels: self.levels@.update(t.pos as int, t.level),
                dq: self.dq@.update(t.pos as int, t.dq),
                eob: self.eob as int,
            },
            None => Coefs { levels: self.levels@, dq: self.dq@, eob: self.eob as int },
        }
    }

    /// The block with the trial.
    pub closed spec fn trial(&self) -> Coefs {
        Coefs {
            levels: self.levels@,
            dq: self.dq@,
            eob: match self.trial {
                Some(t) => t.eob as int,
                None => self.eob as int,
            },
        }
    }

    /// Whether a trial stands.
    pub closed spec fn pending(&self) -> bool {
        self.trial is Some
    }

    /// What the block costs without the trial.
    pub closed spec fn spec_cost(&self) -> u64 {
        self.cost
    }

    /// Whether last levels are being dropped.
    pub closed spec fn trimming(&self) -> bool {
        self.trimming
    }

    /// The number of levels in scan order that are still to be tried.
    pub closed spec fn at(&self) -> nat {
        self.at as nat
    }

    /// The scan order.
    pub closed spec fn scan(&self) -> Seq<i16> {
        self.scan@
    }

    /// How the block is quantized.
    pub closed spec fn steps(&self) -> Steps {
        self.steps
    }

    /// A bound on the trials that are left; none once there are no `more`.
    spec fn work_left(&self, more: bool) -> int {
        if !more {
            0
        } else if self.trimming {
            self.levels@.len() + 2 + self.eob
        } else {
            1 + self.at as int
        }
    }

    /// What holds at every moment.
    pub closed spec fn wf(&self) -> bool {
        &&& self.levels@.len() == self.dq@.len()
        &&& valid_scan(self.scan@, self.levels@.len() as int)
        &&& valid_levels(self.base().levels, self.steps)
        &&& 0 <= self.steps.dc && 0 <= self.steps.ac
        &&& self.eob <= self.levels@.len()
        &&& self.at <= self.levels@.len()
        &&& match self.trial {
            Some(t) => {
                &&& t.pos < self.levels@.len()
                &&& t.eob <= self.eob
                &&& valid_levels(self.levels@, self.steps)
                &&& self.trimming ==> self.eob > 0
            },
            None => true,
        }
    }

    /// Begins to trim a block that costs `cost`.
    pub fn new(
        levels: Vec<i32>,
        dq: Vec<i32>,
        scan: Vec<i16>,
        steps: Steps,
        eob: usize,
        cost: u64,
    ) -> (t: Trellis)
        requires
            levels@.len() == dq@.len(),
            valid_scan(scan@, levels@.len() as int),
            valid_levels(levels@, steps),
            0 <= steps.dc,
            0 <= steps.ac,
            steps.shift <= 1,
            eob <= levels@.len(),
        ensures
            t.wf(),
            !t.pending(),
            t.trimming(),
            t.base() == (Coefs { levels: levels@, dq: dq@, eob: eob as int }),
            t.trial() == t.base(),
            t.at() == eob,
            t.spec_cost() == cost,
            t.scan() == scan@,
            t.steps() == steps,
    {
        Trellis { levels, dq, scan, steps, eob, cost, trimming: true, at: eob, trial: None }
    }

    /// The levels, with the trial.
    pub fn levels(&self) -> (r: &Vec<i32>)
        ensures
            r@ == self.trial().levels,
    {
        &self.levels
    }

    /// The coefficients that the levels stand for, with the trial.
    pub fn dqcoeff(&self) -> (r: &Vec<i32>)
        ensures
            r@ == self.trial().dq,
    {
        &self.dq
    }

    /// The end of the block, with the trial.
    pub fn eob(&self) -> (r: usize)
        ensures
            r == self.trial().eob,
    {
        match &self.trial {
            Some(t) => t.eob,
            None => self.eob,
        }
    }

    /// What the block costs without the trial.
    pub fn cost(&self) -> (r: u64)
        ensures
            r == self.spec_cost(),
    {
        self.cost
    }

    /// The place in scan order of the level that the trial changes, and whether the trial
    /// drops it.
    pub fn place(&self) -> (r: (usize, bool))
        requires
            self.wf(),
            self.pending(),
        ensures
            r.0 == (if self.trimming() {
                self.base().eob - 1
            } else {
                self.at() as int
            }),
            r.1 == self.trimming(),
    {
        if self.trimming {
            (self.eob - 1, true)
        } else {
            (self.at, false)
        }
    }

    /// The end of the block without the trial.
    pub fn base_eob(&self) -> (r: usize)
        ensures
            r == self.base().eob,
    {
        self.eob
    }

    /// The block as it stands: its levels, what they stand for, and its end.
    pub fn into_parts(self) -> (r: (Vec<i32>, Vec<i32>, usize))
        requires
            !self.pending(),
        ensures
            (Coefs { levels: r.0@, dq: r.1@, eob: r.2 as int }) == self.base(),
    {
        (self.levels, self.dq, self.eob)
    }

    /// The end of the first `e` levels in scan order.
    fn trim(&self, e: usize) -> (r: usize)
        requires
            valid_scan(self.scan@, self.levels@.len() as int),
            e <= self.levels@.len(),
        ensures
            r == trimmed(self.levels@, self.scan@, e as nat),
            r <= e,
    {
        let ghost goal = trimmed(self.levels@, self.scan@, e as nat);
        let mut ne: usize = e;
        while ne > 0 && self.levels[self.scan[ne - 1] as usize] == 0
            invariant
                ne <= e <= self.levels@.len(),
                valid_scan(self.scan@, self.levels@.len() as int),
                goal == trimmed(self.levels@, self.scan@, ne as nat),
            decreases ne,
        {
            ne -= 1;
        }
        ne
    }

    /// Makes the next trial. The answer is whether there is one.
    pub fn propose(&mut self) -> (r: bool)
        requires
            old(self).wf(),
            !old(self).pending(),
        ensures
            final(self).wf(),
            final(self).base() == old(self).base(),
            final(self).spec_cost() == old(self).spec_cost(),
            final(self).scan() == old(self).scan(),
            final(self).steps() == old(self).steps(),
            r == final(self).pending(),
            !r ==> final(self).trial() == final(self).base(),
            ({
                let b = old(self).base();
                let scan = old(self).scan();
                let i = last_level(b.levels, scan, old(self).at());
                if old(self).trimming() && b.eob > 0 {
                    &&& r
                    &&& final(self).trimming()
                    &&& final(self).trial() == without_last(b, scan)
                } else if old(self).trimming() || i < 0 {
                    &&& !r
                    &&& !final(self).trimming()
                } else {
                    &&& r
                    &&& !final(self).trimming()
                    &&& final(self).at() == i
                    &&& final(self).trial() == with_lower(b, scan, old(self).steps(), i)
                }
            }),
    {
        if self.trimming {
            if self.eob == 0 {
                self.trimming = false;
                return false;
            }
            let pos: usize = self.scan[self.eob - 1] as usize;
            let (level, dq): (i32, i32) = (self.levels[pos], self.dq[pos]);
            let ghost b = self.base();
            self.levels.set(pos, 0);
            self.dq.set(pos, 0);
            let eob: usize = self.trim(self.eob - 1);
            self.trial = Some(Trial { pos, level, dq, eob });
            proof {
                assert(self.base().levels =~= b.levels);
                assert(self.base().dq =~= b.dq);
                assert(abs(0) * step_at(self.steps, pos as int) == 0) by (nonlinear_arith);
            }
            true
        } else {
            let e: usize = self.trim(self.at);
            if e == 0 {
                return false;
            }
            let i: usize = e - 1;
            self.at = i;
            let pos: usize = self.scan[i] as usize;
            let (level, dq): (i32, i32) = (self.levels[pos], self.dq[pos]);
            let step: i64 = if pos == 0 {
                self.steps.dc
            } else {
                self.steps.ac
            };
            let ghost b = self.base();
            proof {
                lemma_trimmed_level(self.levels@, self.scan@, i as nat, old(self).at());
                assert(abs(b.levels[pos as int] as int) * step <= i32::MAX);
            }
            let mag: i64 = if level < 0 {
                -(level as i64) - 1
            } else {
                level as i64 - 1
            };
            proof {
                assert(mag * step <= abs(level as int) * step && 0 <= mag * step)
                    by (nonlinear_arith)
                    requires
                        0 <= mag <= abs(level as int),
                        0 <= step,
                ;
                vstd::arithmetic::div_mod::lemma_div_basics(mag * step);
            }
            let m: i64 = if self.steps.shift == 0 {
                mag * step
            } else {
                mag * step / 2
            };
            let (lv, d): (i32, i32) = if level < 0 {
                (-(mag as i32), -(m as i32))
            } else {
                (mag as i32, m as i32)
            };
            self.levels.set(pos, lv);
            self.dq.set(pos, d);
            let eob: usize = self.trim(self.eob);
            self.trial = Some(Trial { pos, level, dq, eob });
            proof {
                assert(self.base().levels =~= b.levels);
                assert(self.base().dq =~= b.dq);
                assert(abs(lv as int) * step <= i32::MAX);
                assert(mag == 0 ==> mag * step == 0) by (nonlinear_arith);
                assert(d == dequantized(lv as int, step as int, self.steps.shift as int));
                assert(self.trial() == with_lower(b, self.scan@, self.steps, i as int));
            }
            true
        }
    }

    /// Keeps the trial if it costs less, else takes it back.
    pub fn decide(&mut self, cost: u64) -> (taken: bool)
        requires
            old(self).wf(),
            old(self).pending(),
        ensures
            taken == (cost < old(self).spec_cost()),
            final(self).wf(),
            !final(self).pending(),
            final(self).trial() == final(self).base(),
            final(self).scan() == old(self).scan(),
            final(self).steps() == old(self).steps(),
            final(self).base() == (if cost < old(self).spec_cost() {
                old(self).trial()
            } else {
                old(self).base()
            }),
            final(self).spec_cost() == (if cost < old(self).spec_cost() {
                cost
            } else {
                old(self).spec_cost()
            }),
            final(self).trimming() == (old(self).trimming() && cost < old(self).spec_cost()),
            final(self).at() == (if old(self).trimming() {
                final(self).base().eob as nat
            } else {
                old(self).at()
            }),
    {
        let taken: bool = cost < self.cost;
        let trial: Option<Trial> = self.trial.take();
        if let Some(t) = trial {
            if taken {
                self.cost = cost;
                self.eob = t.eob;
            } else {
                self.levels.set(t.pos, t.level);
                self.dq.set(t.pos, t.dq);
                if self.trimming {
                    self.trimming = false;
                    self.at = self.eob;
                    return taken;
                }
            }
            if self.trimming {
                self.at = self.eob;
            }
        }
        taken
    }
}

/// The level that is tried is not zero.
proof fn lemma_trimmed_level(levels: Seq<i32>, scan: Seq<i16>, i: nat, at: nat)
    requires
        i + 1 == trimmed(levels, scan, at),
    ensures
        levels[scan[i as int] as int] != 0,
        i < at,
    decreases at,
{
    if at > 0 && levels[scan[at - 1] as int] == 0 {
        lemma_trimmed_level(levels, scan, i, (at - 1) as nat);
    }
}

/// Every coefficient is the one that its level stands for.
pub open spec fn faithful(c: Coefs, q: Steps) -> bool {
    &&& c.dq.len() == c.levels.len()
    &&& forall|p: int|
        0 <= p < c.levels.len() ==> #[trigger] c.dq[p] == dequantized(
            c.levels[p] as int,
            step_at(q, p),
            q.shift as int,
        )
}

/// Trials leave every coefficient the one that its level stands for, so what is coded
/// is what is reconstructed.
pub proof fn law_trials_stay_faithful(c: Coefs, scan: Seq<i16>, q: Steps, i: int)
    requires
        faithful(c, q),
        valid_scan(scan, c.levels.len() as int),
        valid_levels(c.levels, q),
        0 <= q.dc,
        0 <= q.ac,
        0 <= i < scan.len(),
        c.levels[scan[i] as int] != 0,
        0 < c.eob <= scan.len(),
    ensures
        faithful(without_last(c, scan), q),
        faithful(with_lower(c, scan, q, i), q),
{
    let pos = scan[i] as int;
    let step = step_at(q, pos);
    let lv = closer(c.levels[pos] as int);
    assert(abs(c.levels[pos] as int) * step <= i32::MAX);
    assert(0 <= abs(lv) * step <= abs(c.levels[pos] as int) * step) by (nonlinear_arith)
        requires
            0 <= abs(lv) <= abs(c.levels[pos] as int),
            0 <= step,
    ;
    vstd::arithmetic::div_mod::lemma_div_basics(abs(lv) * step);
    let last = scan[c.eob - 1] as int;
    assert(abs(0) * step_at(q, last) == 0) by (nonlinear_arith);
    assert(lv == 0 ==> abs(lv) * step == 0) by (nonlinear_arith)
        requires
            lv == 0 ==> abs(lv) == 0,
    ;
}

/// No trial makes a level larger or changes its sign, and none moves the end of the
/// block up.
pub proof fn law_trials_shrink(c: Coefs, scan: Seq<i16>, q: Steps, i: int, p: int)
    requires
        valid_scan(scan, c.levels.len() as int),
        forall|k: int| 0 <= k < c.levels.len() ==> #[trigger] c.levels[k] > i32::MIN,
        0 <= i < scan.len(),
        c.levels[scan[i] as int] != 0,
        0 < c.eob <= scan.len(),
        0 <= p < c.levels.len(),
    ensures
        abs(without_last(c, scan).levels[p] as int) <= abs(c.levels[p] as int),
        abs(with_lower(c, scan, q, i).levels[p] as int) <= abs(c.levels[p] as int),
        with_lower(c, scan, q, i).levels[p] == 0 || (with_lower(c, scan, q, i).levels[p] < 0) == (
        c.levels[p] < 0),
        without_last(c, scan).eob < c.eob,
        with_lower(c, scan, q, i).eob <= c.eob,
{
    let a = without_last(c, scan);
    let b = with_lower(c, scan, q, i);
    lemma_trimmed_bound(a.levels, scan, (c.eob - 1) as nat);
    lemma_trimmed_bound(b.levels, scan, c.eob as nat);
}

/// Trimming moves no end up.
proof fn lemma_trimmed_bound(levels: Seq<i32>, scan: Seq<i16>, e: nat)
    ensures
        trimmed(levels, scan, e) <= e,
    decreases e,
{
    if e > 0 && levels[scan[e - 1] as int] == 0 {
        lemma_trimmed_bound(levels, scan, (e - 1) as nat);
    }
}

// ---------------------------------------------------------------------------
// The whole trimming
// ---------------------------------------------------------------------------

/// The block and its cost once its last levels are dropped while that costs less. `s`
/// says what a block costs.
pub open spec fn dropped(s: spec_fn(Coefs) -> u64, c: Coefs, cost: u64, scan: Seq<i16>) -> (
    Coefs,
    u64,
)
    decreases c.eob,
{
    let t = without_last(c, scan);
    if c.eob > 0 && s(t) < cost && t.eob < c.eob {
        dropped(s, t, s(t), scan)
    } else {
        (c, cost)
    }
}

/// The block and its cost once each of its first `at` levels, from the last to the first,
/// is one closer to zero where that costs less.
pub open spec fn lowered(
    s: spec_fn(Coefs) -> u64,
    c: Coefs,
    cost: u64,
    scan: Seq<i16>,
    q: Steps,
    at: nat,
) -> (Coefs, u64)
    decreases at,
{
    let i = last_level(c.levels, scan, at);
    let t = with_lower(c, scan, q, i);
    if i < 0 || i >= at {
        (c, cost)
    } else if s(t) < cost {
        lowered(s, t, s(t), scan, q, i as nat)
    } else {
        lowered(s, c, cost, scan, q, i as nat)
    }
}

/// The block and its cost once it is trimmed: first its last levels are dropped, then
/// the others are lowered.
pub open spec fn trimming_of(s: spec_fn(Coefs) -> u64, c: Coefs, scan: Seq<i16>, q: Steps) -> (
    Coefs,
    u64,
) {
    let (d, cost) = dropped(s, c, s(c), scan);
    lowered(s, d, cost, scan, q, d.eob as nat)
}

/// What is left of the trimming of a block that costs `cost`.
spec fn rest_of(
    s: spec_fn(Coefs) -> u64,
    c: Coefs,
    cost: u64,
    scan: Seq<i16>,
    q: Steps,
    trimming: bool,
    at: nat,
) -> (Coefs, u64) {
    if trimming {
        let (d, k) = dropped(s, c, cost, scan);
        lowered(s, d, k, scan, q, d.eob as nat)
    } else {
        lowered(s, c, cost, scan, q, at)
    }
}

/// A judge may say that a block costs `r`.
pub open spec fn may_say<F: Fn(&Vec<i32>, &Vec<i32>, usize) -> u64>(f: F, c: Coefs, r: u64) -> bool {
    exists|l: &Vec<i32>, d: &Vec<i32>|
        l@ == c.levels && d@ == c.dq && #[trigger] call_ensures(f, (l, d, c.eob as usize), r)
}

/// What a judge says a block costs.
pub open spec fn verdict<F: Fn(&Vec<i32>, &Vec<i32>, usize) -> u64>(f: F) -> spec_fn(Coefs) -> u64 {
    |c: Coefs| choose|r: u64| #[trigger] may_say(f, c, r)
}

/// `f` judges every block as `s` says.
pub open spec fn judges<F: Fn(&Vec<i32>, &Vec<i32>, usize) -> u64>(
    f: F,
    s: spec_fn(Coefs) -> u64,
) -> bool {
    &&& forall|l: &Vec<i32>, d: &Vec<i32>, e: usize| #[trigger] call_requires(f, (l, d, e))
    &&& forall|l: &Vec<i32>, d: &Vec<i32>, e: usize, r: u64| #[trigger]
        call_ensures(f, (l, d, e), r) ==> r == s(Coefs { levels: l@, dq: d@, eob: e as int })
}

/// Trims a block: drops its last levels and lowers the others, each only where `f` judges
/// that the block costs less. Returns its levels, what they stand for, its end, and what
/// it costs.
pub fn trellis_eob<F: Fn(&Vec<i32>, &Vec<i32>, usize) -> u64>(
    levels: Vec<i32>,
    dq: Vec<i32>,
    scan: Vec<i16>,
    steps: Steps,
    eob: usize,
    f: F,
) -> (r: (Vec<i32>, Vec<i32>, usize, u64))
    requires
        levels@.len() == dq@.len(),
        valid_scan(scan@, levels@.len() as int),
        valid_levels(levels@, steps),
        0 <= steps.dc,
        0 <= steps.ac,
        steps.shift <= 1,
        eob <= levels@.len(),
        judges(f, verdict(f)),
    ensures
        (Coefs { levels: r.0@, dq: r.1@, eob: r.2 as int }, r.3) == trimming_of(
            verdict(f),
            Coefs { levels: levels@, dq: dq@, eob: eob as int },
            scan@,
            steps,
        ),
{
    let ghost s = verdict(f);
    let ghost order = scan@;
    let ghost start = Coefs { levels: levels@, dq: dq@, eob: eob as int };
    let ghost goal = trimming_of(s, start, order, steps);
    let cost: u64 = f(&levels, &dq, eob);
    let mut t: Trellis = Trellis::new(levels, dq, scan, steps, eob, cost);
    let mut more: bool = true;
    while more
        invariant
            t.wf(),
            !t.pending(),
            t.scan() == order,
            t.steps() == steps,
            judges(f, s),
            more ==> goal == rest_of(
                s,
                t.base(),
                t.spec_cost(),
                order,
                steps,
                t.trimming(),
                t.at(),
            ),
            !more ==> goal == (t.base(), t.spec_cost()),
        decreases t.work_left(more),
    {
        let ghost b = t.base();
        let ghost at = t.at();
        let ghost trimming = t.trimming();
        proof {
            if b.eob > 0 {
                lemma_trimmed_bound(without_last(b, order).levels, order, (b.eob - 1) as nat);
            }
            lemma_trimmed_bound(b.levels, order, at);
        }
        more = t.propose();
        if more {
            let ghost c = t.trial();
            let k: u64 = f(t.levels(), t.dqcoeff(), t.eob());
            assert(k == s(c));
            t.decide(k);
        }
    }
    let cost: u64 = t.cost();
    let (l, d, e): (Vec<i32>, Vec<i32>, usize) = t.into_parts();
    (l, d, e, cost)
}

/// The block ends behind its last level that is not zero.
pub open spec fn tight(c: Coefs, scan: Seq<i16>) -> bool {
    &&& 0 <= c.eob <= scan.len()
    &&& forall|k: int| c.eob <= k < scan.len() ==> c.levels[#[trigger] scan[k] as int] == 0
    &&& c.eob > 0 ==> c.levels[scan[c.eob - 1] as int] != 0
}

/// The level at a place, and what it stands for, are the same in both blocks.
pub open spec fn same_at(a: Coefs, b: Coefs, p: int) -> bool {
    b.levels[p] == a.levels[p] && b.dq[p] == a.dq[p]
}

/// The level at a place is one closer to zero in `b`, and stands for what it then does.
pub open spec fn lower_at(a: Coefs, b: Coefs, q: Steps, p: int) -> bool {
    &&& a.levels[p] != 0
    &&& b.levels[p] == closer(a.levels[p] as int)
    &&& b.dq[p] == dequantized(b.levels[p] as int, step_at(q, p), q.shift as int) as i32
}

/// The level at a place is gone in `b`.
pub open spec fn gone_at(b: Coefs, p: int) -> bool {
    b.levels[p] == 0 && b.dq[p] == 0
}

/// `b` is `a` trimmed, of which the first `kept` levels in scan order are not dropped:
/// each of those is as it was or one closer to zero, and behind them there are none.
pub open spec fn is_trimmed(a: Coefs, b: Coefs, scan: Seq<i16>, q: Steps, kept: int) -> bool {
    &&& b.levels.len() == a.levels.len() && b.dq.len() == a.dq.len()
    &&& tight(b, scan)
    &&& b.eob <= kept <= a.eob <= scan.len()
    &&& forall|k: int|
        0 <= k < scan.len() ==> {
            let p = #[trigger] scan[k] as int;
            if k < kept {
                same_at(a, b, p) || lower_at(a, b, q, p)
            } else {
                b.levels[p] == 0 && (same_at(a, b, p) || gone_at(b, p))
            }
        }
}

/// Where trimming ends: behind it there are no levels, and it is itself not zero.
proof fn lemma_trimmed_ends(levels: Seq<i32>, scan: Seq<i16>, e: nat)
    ensures
        ({
            let t = trimmed(levels, scan, e);
            &&& t <= e
            &&& forall|k: int| t <= k < e ==> levels[#[trigger] scan[k] as int] == 0
            &&& t > 0 ==> levels[scan[t - 1] as int] != 0
        }),
    decreases e,
{
    if e > 0 && levels[scan[e - 1] as int] == 0 {
        lemma_trimmed_ends(levels, scan, (e - 1) as nat);
    }
}

/// Dropping the last level of a block of which only last levels were dropped.
proof fn lemma_drop(a: Coefs, c: Coefs, scan: Seq<i16>, q: Steps)
    requires
        valid_scan(scan, a.levels.len() as int),
        scan.no_duplicates(),
        a.dq.len() == a.levels.len(),
        is_trimmed(a, c, scan, q, c.eob),
        forall|k: int| 0 <= k < c.eob ==> same_at(a, c, #[trigger] scan[k] as int),
        c.eob > 0,
    ensures
        ({
            let d = without_last(c, scan);
            &&& d.eob < c.eob
            &&& is_trimmed(a, d, scan, q, d.eob)
            &&& forall|k: int| 0 <= k < d.eob ==> same_at(a, d, #[trigger] scan[k] as int)
        }),
{
    let d = without_last(c, scan);
    let last = c.eob - 1;
    lemma_trimmed_ends(d.levels, scan, last as nat);
    assert forall|k: int| 0 <= k < scan.len() && k != last implies d.levels[#[trigger] scan[k] as int]
        == c.levels[scan[k] as int] && d.dq[scan[k] as int] == c.dq[scan[k] as int] by {
        assert(scan[k] != scan[last]);
    }
    assert forall|k: int| 0 <= k < scan.len() implies {
        let p = #[trigger] scan[k] as int;
        if k < d.eob {
            same_at(a, d, p) || lower_at(a, d, q, p)
        } else {
            d.levels[p] == 0 && (same_at(a, d, p) || gone_at(d, p))
        }
    } by {
        let p = scan[k] as int;
        if k < c.eob {
            assert(same_at(a, c, p));
        }
    }
}

/// Dropping last levels trims a block.
proof fn lemma_dropped(
    s: spec_fn(Coefs) -> u64,
    a: Coefs,
    c: Coefs,
    cost: u64,
    scan: Seq<i16>,
    q: Steps,
)
    requires
        valid_scan(scan, a.levels.len() as int),
        scan.no_duplicates(),
        a.dq.len() == a.levels.len(),
        is_trimmed(a, c, scan, q, c.eob),
        forall|k: int| 0 <= k < c.eob ==> same_at(a, c, #[trigger] scan[k] as int),
    ensures
        ({
            let (d, k) = dropped(s, c, cost, scan);
            &&& k <= cost
            &&& is_trimmed(a, d, scan, q, d.eob)
            &&& forall|k: int| 0 <= k < d.eob ==> same_at(a, d, #[trigger] scan[k] as int)
        }),
    decreases c.eob,
{
    let t = without_last(c, scan);
    if c.eob > 0 && s(t) < cost && t.eob < c.eob {
        lemma_drop(a, c, scan, q);
        lemma_dropped(s, a, t, s(t), scan, q);
    }
}

/// `c` is a block of which the levels behind the first `at` may be lowered.
spec fn is_lowered(a: Coefs, c: Coefs, scan: Seq<i16>, q: Steps, kept: int, at: int) -> bool {
    &&& is_trimmed(a, c, scan, q, kept)
    &&& at <= kept
    &&& forall|k: int| 0 <= k < at ==> same_at(a, c, #[trigger] scan[k] as int)
}

/// Lowering a level that has not been tried trims a block.
proof fn lemma_lower(
    a: Coefs,
    c: Coefs,
    scan: Seq<i16>,
    q: Steps,
    kept: int,
    at: nat,
)
    requires
        valid_scan(scan, a.levels.len() as int),
        scan.no_duplicates(),
        a.dq.len() == a.levels.len(),
        forall|p: int| 0 <= p < a.levels.len() ==> #[trigger] a.levels[p] > i32::MIN,
        is_lowered(a, c, scan, q, kept, at as int),
        last_level(c.levels, scan, at) >= 0,
    ensures
        ({
            let i = last_level(c.levels, scan, at);
            &&& i < at
            &&& is_lowered(a, c, scan, q, kept, i)
            &&& is_lowered(a, with_lower(c, scan, q, i), scan, q, kept, i)
        }),
{
    let i = last_level(c.levels, scan, at);
    lemma_trimmed_ends(c.levels, scan, at);
    let pos = scan[i] as int;
    assert(c.levels[pos] != 0);
    assert(i < c.eob) by {
        if i >= c.eob {
            assert(c.levels[scan[i] as int] == 0);
        }
    }
    assert(same_at(a, c, pos));
    let d = with_lower(c, scan, q, i);
    lemma_trimmed_ends(d.levels, scan, c.eob as nat);
    assert forall|k: int| 0 <= k < scan.len() && k != i implies d.levels[#[trigger] scan[k] as int]
        == c.levels[scan[k] as int] && d.dq[scan[k] as int] == c.dq[scan[k] as int] by {
        assert(scan[k] != scan[i]);
    }
    assert(lower_at(a, d, q, pos));
    assert forall|k: int| d.eob <= k < scan.len() implies d.levels[#[trigger] scan[k] as int]
        == 0 by {
        if k >= c.eob {
            assert(c.levels[scan[k] as int] == 0);
        }
    }
    assert forall|k: int| 0 <= k < scan.len() implies {
        let p = #[trigger] scan[k] as int;
        if k < kept {
            same_at(a, d, p) || lower_at(a, d, q, p)
        } else {
            d.levels[p] == 0 && (same_at(a, d, p) || gone_at(d, p))
        }
    } by {
        let p = scan[k] as int;
        if k < kept {
            assert(same_at(a, c, p) || lower_at(a, c, q, p));
        } else {
            assert(c.levels[p] == 0);
        }
    }
    assert forall|k: int| 0 <= k < i implies same_at(a, d, #[trigger] scan[k] as int) by {
        assert(same_at(a, c, scan[k] as int));
    }
}

/// Lowering levels trims a block.
proof fn lemma_lowered(
    s: spec_fn(Coefs) -> u64,
    a: Coefs,
    c: Coefs,
    cost: u64,
    scan: Seq<i16>,
    q: Steps,
    kept: int,
    at: nat,
)
    requires
        valid_scan(scan, a.levels.len() as int),
        scan.no_duplicates(),
        a.dq.len() == a.levels.len(),
        forall|p: int| 0 <= p < a.levels.len() ==> #[trigger] a.levels[p] > i32::MIN,
        is_lowered(a, c, scan, q, kept, at as int),
    ensures
        is_trimmed(a, lowered(s, c, cost, scan, q, at).0, scan, q, kept),
        lowered(s, c, cost, scan, q, at).1 <= cost,
    decreases at,
{
    let i = last_level(c.levels, scan, at);
    let t = with_lower(c, scan, q, i);
    if i >= 0 && i < at {
        lemma_lower(a, c, scan, q, kept, at);
        if s(t) < cost {
            lemma_lowered(s, a, t, s(t), scan, q, kept, i as nat);
        } else {
            lemma_lowered(s, a, c, cost, scan, q, kept, i as nat);
        }
    }
}

/// A block that is trimmed ends behind its last level that is not zero, and all behind it
/// is zero. Some of its last levels are gone, and each of the others is as it was or one
/// closer to zero, never more. It costs no more than before.
pub proof fn law_trellis_trims(s: spec_fn(Coefs) -> u64, c: Coefs, scan: Seq<i16>, q: Steps)
    requires
        c.dq.len() == c.levels.len(),
        valid_scan(scan, c.levels.len() as int),
        scan.no_duplicates(),
        valid_levels(c.levels, q),
        tight(c, scan),
    ensures
        exists|kept: int| #[trigger]
            is_trimmed(c, trimming_of(s, c, scan, q).0, scan, q, kept),
        tight(trimming_of(s, c, scan, q).0, scan),
        trimming_of(s, c, scan, q).1 <= s(c),
{
    assert forall|k: int| 0 <= k < scan.len() implies same_at(c, c, #[trigger] scan[k] as int) by {}
    assert(is_trimmed(c, c, scan, q, c.eob));
    lemma_dropped(s, c, c, s(c), scan, q);
    let (d, cost) = dropped(s, c, s(c), scan);
    assert(is_lowered(c, d, scan, q, d.eob, d.eob));
    lemma_lowered(s, c, d, cost, scan, q, d.eob, d.eob as nat);
    assert(trimming_of(s, c, scan, q) == lowered(s, d, cost, scan, q, d.eob as nat));
    assert(is_trimmed(c, trimming_of(s, c, scan, q).0, scan, q, d.eob));
}

/// What a trimmed block is coded as is what it is reconstructed from: every coefficient is
/// the one that its level stands for, if that was so before.
pub proof fn law_trellis_stays_faithful(
    s: spec_fn(Coefs) -> u64,
    c: Coefs,
    scan: Seq<i16>,
    q: Steps,
    k: int,
)
    requires
        faithful(c, q),
        valid_scan(scan, c.levels.len() as int),
        scan.no_duplicates(),
        valid_levels(c.levels, q),
        0 <= q.dc,
        0 <= q.ac,
        tight(c, scan),
        0 <= k < scan.len(),
    ensures
        ({
            let r = trimming_of(s, c, scan, q).0;
            let p = scan[k] as int;
            r.dq[p] == dequantized(r.levels[p] as int, step_at(q, p), q.shift as int)
        }),
{
    law_trellis_trims(s, c, scan, q);
    let r = trimming_of(s, c, scan, q).0;
    let kept = choose|kept: int| #[trigger] is_trimmed(c, r, scan, q, kept);
    let p = scan[k] as int;
    let step = step_at(q, p);
    assert(c.dq[p] == dequantized(c.levels[p] as int, step, q.shift as int));
    let (a, b) = (abs(c.levels[p] as int), abs(r.levels[p] as int));
    assert(b <= a);
    assert(a * step <= i32::MAX);
    assert(0 <= b * step <= a * step) by (nonlinear_arith)
        requires
            0 <= b <= a,
            0 <= step,
    ;
    assert(r.levels[p] == 0 ==> b * step == 0) by (nonlinear_arith)
        requires
            r.levels[p] == 0 ==> b == 0,
    ;
    vstd::arithmetic::div_mod::lemma_div_basics(b * step);
}

/// A level stands for the same coefficient with either sign, for none if it is zero, and for
/// one no smaller if it is larger; a larger transform has half of it.
pub proof fn law_levels_stand_for_coefficients(a: int, b: int, step: int)
    requires
        0 <= a <= b,
        0 <= step,
    ensures
        dequantized(0, step, 0) == 0,
        dequantized(a, step, 0) == a * step,
        dequantized(-a, step, 0) == -dequantized(a, step, 0),
        dequantized(-a, step, 1) == -dequantized(a, step, 1),
        dequantized(a, step, 1) == a * step / 2,
        dequantized(a, step, 0) <= dequantized(b, step, 0),
        dequantized(a, step, 1) <= dequantized(b, step, 1),
{
    assert(0 * step == 0);
    assert(0 <= a * step <= b * step) by (nonlinear_arith)
        requires
            0 <= a <= b,
            0 <= step,
    ;
}

/// A level that is one closer to zero keeps its side and is one less in magnitude.
pub proof fn law_closer_is_smaller(level: int)
    requires
        level != 0,
    ensures
        abs(closer(level)) == abs(level) - 1,
        level > 0 ==> closer(level) == level - 1,
        level < 0 ==> closer(level) == level + 1,
{
}

/// A block is trimmed behind its last level that is not zero: all behind it are zero, and it
/// is not.
pub proof fn law_trimming_ends_at_the_last_level(levels: Seq<i32>, scan: Seq<i16>, e: nat)
    ensures
        ({
            let r = trimmed(levels, scan, e);
            &&& r <= e
            &&& r > 0 ==> levels[scan[r - 1] as int] != 0
            &&& forall|k: int| r <= k < e ==> levels[#[trigger] scan[k] as int] == 0
        }),
    decreases e,
{
    if e > 0 && levels[scan[e - 1] as int] == 0 {
        law_trimming_ends_at_the_last_level(levels, scan, (e - 1) as nat);
    }
}

/// The first coefficient has a step of its own, all others share one.
pub proof fn law_first_step_is_its_own(q: Steps, pos: int)
    requires
        pos > 0,
    ensures
        step_at(q, 0) == q.dc,
        step_at(q, pos) == q.ac,
{
}

/// Last levels are dropped just as long as that pays: what is left costs what is said, is
/// worth no less than before, and dropping one more level would not make it cheaper.
pub proof fn law_dropping_stops_where_it_pays_no_more(
    s: spec_fn(Coefs) -> u64,
    c: Coefs,
    scan: Seq<i16>,
)
    requires
        0 <= c.eob <= scan.len(),
    ensures
        ({
            let (d, cost) = dropped(s, c, s(c), scan);
            &&& cost == s(d) <= s(c)
            &&& d.eob > 0 ==> s(without_last(d, scan)) >= s(d)
            &&& d != c ==> s(d) < s(c)
        }),
    decreases c.eob,
{
    let t = without_last(c, scan);
    if c.eob > 0 {
        lemma_trimmed_bound(t.levels, scan, (c.eob - 1) as nat);
        if s(t) < s(c) {
            law_dropping_stops_where_it_pays_no_more(s, t, scan);
        }
    }
}

/// Every place of the block is in the scan order, once.
pub open spec fn complete_scan(scan: Seq<i16>, n: int) -> bool {
    &&& valid_scan(scan, n)
    &&& scan.no_duplicates()
    &&& forall|p: int| 0 <= p < n ==> #[trigger] has_place(scan, p)
}

/// A place is in the scan order.
pub open spec fn has_place(scan: Seq<i16>, p: int) -> bool {
    exists|j: int| 0 <= j < scan.len() && #[trigger] scan[j] == p
}

/// `m` is the block that has the first `k + 1` levels of `a` in scan order, and behind them
/// those of `b`.
pub open spec fn is_joined(m: Coefs, a: Coefs, b: Coefs, scan: Seq<i16>, k: int) -> bool {
    &&& m.levels.len() == a.levels.len() && m.dq.len() == a.dq.len()
    &&& tight(m, scan)
    &&& forall|j: int|
        0 <= j < scan.len() ==> {
            let p = #[trigger] scan[j] as int;
            if j <= k {
                same_at(a, m, p)
            } else {
                same_at(b, m, p)
            }
        }
}

/// Lowering the first `at` levels leaves the others alone.
proof fn lemma_lowered_leaves(
    s: spec_fn(Coefs) -> u64,
    c: Coefs,
    cost: u64,
    scan: Seq<i16>,
    q: Steps,
    at: nat,
)
    requires
        valid_scan(scan, c.levels.len() as int),
        scan.no_duplicates(),
        c.dq.len() == c.levels.len(),
        at <= scan.len(),
    ensures
        ({
            let r = lowered(s, c, cost, scan, q, at).0;
            &&& r.levels.len() == c.levels.len() && r.dq.len() == c.dq.len()
            &&& forall|j: int| at <= j < scan.len() ==> same_at(c, r, #[trigger] scan[j] as int)
        }),
    decreases at,
{
    let i = last_level(c.levels, scan, at);
    let t = with_lower(c, scan, q, i);
    if i >= 0 && i < at {
        if s(t) < cost {
            lemma_lowered_leaves(s, t, s(t), scan, q, i as nat);
            let r = lowered(s, t, s(t), scan, q, i as nat).0;
            assert forall|j: int| at <= j < scan.len() implies same_at(
                c,
                r,
                #[trigger] scan[j] as int,
            ) by {
                assert(scan[j] != scan[i]);
                assert(same_at(t, r, scan[j] as int));
            }
        } else {
            lemma_lowered_leaves(s, c, cost, scan, q, i as nat);
        }
    }
}

/// Blocks that have the same levels at all places are the same.
proof fn lemma_same_blocks(a: Coefs, b: Coefs, scan: Seq<i16>)
    requires
        complete_scan(scan, a.levels.len() as int),
        a.dq.len() == a.levels.len(),
        b.levels.len() == a.levels.len(),
        b.dq.len() == a.dq.len(),
        tight(a, scan),
        tight(b, scan),
        forall|j: int| 0 <= j < scan.len() ==> same_at(a, b, #[trigger] scan[j] as int),
    ensures
        a == b,
{
    assert forall|p: int| 0 <= p < a.levels.len() implies same_at(a, b, p) by {
        assert(has_place(scan, p));
        let j = choose|j: int| 0 <= j < scan.len() && #[trigger] scan[j] == p;
        assert(same_at(a, b, scan[j] as int));
    }
    assert forall|p: int| 0 <= p < a.levels.len() implies a.levels[p] == b.levels[p] && a.dq[p]
        == b.dq[p] by {
        assert(same_at(a, b, p));
    }
    assert(a.levels =~= b.levels);
    assert(a.dq =~= b.dq);
    if a.eob > b.eob {
        assert(b.levels[scan[a.eob - 1] as int] == 0);
    }
    if b.eob > a.eob {
        assert(a.levels[scan[b.eob - 1] as int] == 0);
    }
}

/// Lowering a level keeps the block ending behind its last level.
proof fn lemma_lower_stays_tight(c: Coefs, scan: Seq<i16>, q: Steps, i: int)
    requires
        valid_scan(scan, c.levels.len() as int),
        scan.no_duplicates(),
        c.dq.len() == c.levels.len(),
        tight(c, scan),
        0 <= i < scan.len(),
        c.levels[scan[i] as int] != 0,
    ensures
        tight(with_lower(c, scan, q, i), scan),
{
    let t = with_lower(c, scan, q, i);
    law_trimming_ends_at_the_last_level(t.levels, scan, c.eob as nat);
    assert(i < c.eob);
    assert forall|k: int| t.eob <= k < scan.len() implies t.levels[#[trigger] scan[k] as int] == 0 by {
        if k >= c.eob {
            assert(scan[k] != scan[i]);
            assert(c.levels[scan[k] as int] == 0);
        }
    }
}

proof fn lemma_lowered_decides(
    s: spec_fn(Coefs) -> u64,
    c: Coefs,
    scan: Seq<i16>,
    q: Steps,
    at: nat,
    k: int,
    m: Coefs,
)
    requires
        complete_scan(scan, c.levels.len() as int),
        c.dq.len() == c.levels.len(),
        tight(c, scan),
        0 <= k < at <= scan.len(),
        c.levels[scan[k] as int] != 0,
        is_joined(m, c, lowered(s, c, s(c), scan, q, at).0, scan, k),
    ensures
        ({
            let r = lowered(s, c, s(c), scan, q, at).0;
            let p = scan[k] as int;
            if s(with_lower(m, scan, q, k)) < s(m) {
                r.levels[p] == closer(c.levels[p] as int) as i32
            } else {
                r.levels[p] == c.levels[p]
            }
        }),
    decreases at,
{
    let r = lowered(s, c, s(c), scan, q, at).0;
    let i = last_level(c.levels, scan, at);
    law_trimming_ends_at_the_last_level(c.levels, scan, at);
    assert(k <= i < at);
    let t = with_lower(c, scan, q, i);
    let next = if s(t) < s(c) {
        t
    } else {
        c
    };
    assert(r == lowered(s, next, s(next), scan, q, i as nat).0);
    lemma_lower_stays_tight(c, scan, q, i);
    lemma_lowered_leaves(s, next, s(next), scan, q, i as nat);
    if k == i {
        assert(same_at(next, r, scan[k] as int));
        assert forall|j: int| 0 <= j < scan.len() implies same_at(c, m, #[trigger] scan[j] as int) by {
            if j > k {
                assert(scan[j] != scan[k]);
                assert(same_at(next, r, scan[j] as int));
                assert(same_at(r, m, scan[j] as int));
            }
        }
        lemma_same_blocks(c, m, scan);
    } else {
        assert(scan[k] != scan[i]);
        assert forall|j: int| 0 <= j < scan.len() implies {
            let p = #[trigger] scan[j] as int;
            if j <= k {
                same_at(next, m, p)
            } else {
                same_at(r, m, p)
            }
        } by {
            if j <= k {
                assert(scan[j] != scan[i]);
                assert(same_at(c, m, scan[j] as int));
            }
        }
        lemma_lowered_decides(s, next, scan, q, i as nat, k, m);
    }
}

/// Of the levels that are not dropped each is one closer to zero just where that makes the
/// block cheaper in which the levels behind it are already settled and those before it are
/// not.
pub proof fn law_levels_are_lowered_where_it_pays(
    s: spec_fn(Coefs) -> u64,
    c: Coefs,
    scan: Seq<i16>,
    q: Steps,
    k: int,
    m: Coefs,
)
    requires
        complete_scan(scan, c.levels.len() as int),
        c.dq.len() == c.levels.len(),
        valid_levels(c.levels, q),
        tight(c, scan),
        0 <= k < dropped(s, c, s(c), scan).0.eob,
        dropped(s, c, s(c), scan).0.levels[scan[k] as int] != 0,
        is_joined(m, dropped(s, c, s(c), scan).0, trimming_of(s, c, scan, q).0, scan, k),
    ensures
        ({
            let d = dropped(s, c, s(c), scan).0;
            let r = trimming_of(s, c, scan, q).0;
            let p = scan[k] as int;
            if s(with_lower(m, scan, q, k)) < s(m) {
                r.levels[p] == closer(d.levels[p] as int) as i32
            } else {
                r.levels[p] == d.levels[p]
            }
        }),
{
    assert forall|j: int| 0 <= j < scan.len() implies same_at(c, c, #[trigger] scan[j] as int) by {}
    assert(is_trimmed(c, c, scan, q, c.eob));
    lemma_dropped(s, c, c, s(c), scan, q);
    law_dropping_stops_where_it_pays_no_more(s, c, scan);
    let d = dropped(s, c, s(c), scan).0;
    lemma_lowered_decides(s, d, scan, q, d.eob as nat, k, m);
}

} // verus!
