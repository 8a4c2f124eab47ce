//! Sequences of frames: how a group of frames is coded around a hidden frame that lies
//! ahead of them, and the settings of a sequence.
use vstd::prelude::*;

use crate::adapt::clamped;

verus! {

/// The most frames before the hidden one that it is averaged with.
pub const HIDDEN_WINDOW: usize = 4;

/// A step of coding a group of frames.
#[derive(Clone, Copy, Debug, PartialEq, Eq, Structural)]
pub enum Action {
    /// Code a frame as a key frame.
    Key { frame: usize },
    /// Code a frame from those before it.
    Plain { frame: usize },
    /// Code a frame that is not shown, averaged with the frames from `from` on.
    Hidden { frame: usize, from: usize },
    /// Code a frame also from the hidden one, in one packet with it.
    Paired { frame: usize },
    /// Code a frame also from the hidden one.
    Forward { frame: usize },
    /// Show the hidden frame.
    Show { frame: usize },
}

/// The steps that code the frames from `i` to `n` from those before them.
pub open spec fn plain_steps(i: nat, n: nat, need_key: bool) -> Seq<Action>
    decreases n - i,
{
    if i >= n {
        Seq::empty()
    } else {
        seq![
            if need_key && i == 0 {
                Action::Key { frame: 0 }
            } else {
                Action::Plain { frame: i as usize }
            },
        ] + plain_steps(i + 1, n, need_key)
    }
}

/// The steps that code the frames from `i` to `n` also from the hidden one.
pub open spec fn forward_steps(i: nat, n: nat) -> Seq<Action>
    decreases n - i,
{
    if i >= n {
        Seq::empty()
    } else {
        seq![Action::Forward { frame: i as usize }] + forward_steps(i + 1, n)
    }
}

/// The first frame that the hidden one is averaged with.
pub open spec fn window_start(n: int, first: int) -> int {
    let w = if n - 1 < HIDDEN_WINDOW {
        0
    } else {
        n - 1 - HIDDEN_WINDOW
    };
    if w < first {
        first
    } else {
        w
    }
}

/// The steps that code a group of `n` frames: plainly if there are but two or they move
/// little, else around the last of them, which is coded first and shown last.
pub open spec fn group_steps(n: nat, need_key: bool, still: bool) -> Seq<Action> {
    if n <= 2 || still {
        plain_steps(0, n, need_key)
    } else {
        let first = if need_key {
            1nat
        } else {
            0
        };
        (if need_key {
            seq![Action::Key { frame: 0 }]
        } else {
            Seq::empty()
        }) + (seq![
            Action::Hidden {
                frame: (n - 1) as usize,
                from: window_start(n as int, first as int) as usize,
            },
            Action::Paired { frame: first as usize },
        ] + (forward_steps(first + 1, (n - 1) as nat) + seq![
            Action::Show { frame: (n - 1) as usize },
        ]))
    }
}

/// Plans how a group of `n` frames is coded.
pub fn plan_group(n: usize, need_key: bool, still: bool) -> (plan: Vec<Action>)
    ensures
        plan@ == group_steps(n as nat, need_key, still),
{
    let mut plan: Vec<Action> = Vec::new();
    if n <= 2 || still {
        let mut i: usize = 0;
        assert(plan@ + plain_steps(0, n as nat, need_key) =~= plain_steps(
            0,
            n as nat,
            need_key,
        ));
        while i < n
            invariant
                i <= n,
                plan@ + plain_steps(i as nat, n as nat, need_key) == plain_steps(
                    0,
                    n as nat,
                    need_key,
                ),
            decreases n - i,
        {
            let ghost before = plan@;
            let a: Action = if need_key && i == 0 {
                Action::Key { frame: 0 }
            } else {
                Action::Plain { frame: i }
            };
            plan.push(a);
            i += 1;
            assert(plan@ + plain_steps(i as nat, n as nat, need_key) =~= before + plain_steps(
                (i - 1) as nat,
                n as nat,
                need_key,
            ));
        }
        assert(plan@ + Seq::<Action>::empty() =~= plan@);
        return plan;
    }
    let first: usize = if need_key {
        1
    } else {
        0
    };
    if need_key {
        plan.push(Action::Key { frame: 0 });
    }
    let window: usize = if n - 1 < HIDDEN_WINDOW {
        0
    } else {
        n - 1 - HIDDEN_WINDOW
    };
    let from: usize = if window < first {
        first
    } else {
        window
    };
    plan.push(Action::Hidden { frame: n - 1, from });
    plan.push(Action::Paired { frame: first });
    let ghost head = plan@;
    let ghost all = forward_steps((first + 1) as nat, (n - 1) as nat);
    let mut i: usize = first + 1;
    while i < n - 1
        invariant
            first + 1 <= i <= n - 1,
            3 <= n,
            all == forward_steps((first + 1) as nat, (n - 1) as nat),
            plan@ + forward_steps(i as nat, (n - 1) as nat) == head + all,
        decreases n - 1 - i,
    {
        let ghost before = plan@;
        plan.push(Action::Forward { frame: i });
        i += 1;
        assert(plan@ + forward_steps(i as nat, (n - 1) as nat) =~= before + forward_steps(
            (i - 1) as nat,
            (n - 1) as nat,
        ));
    }
    assert(plan@ + Seq::<Action>::empty() =~= plan@);
    plan.push(Action::Show { frame: n - 1 });
    assert(plan@ =~= group_steps(n as nat, need_key, still));
    plan
}

/// The frames that a step shows.
pub open spec fn shown(a: Action) -> Seq<int> {
    match a {
        Action::Key { frame } => seq![frame as int],
        Action::Plain { frame } => seq![frame as int],
        Action::Hidden { .. } => Seq::empty(),
        Action::Paired { frame } => seq![frame as int],
        Action::Forward { frame } => seq![frame as int],
        Action::Show { frame } => seq![frame as int],
    }
}

/// The frames that some steps show, in order.
pub open spec fn shown_by(plan: Seq<Action>) -> Seq<int>
    decreases plan.len(),
{
    if plan.len() == 0 {
        Seq::empty()
    } else {
        shown(plan[0]) + shown_by(plan.drop_first())
    }
}

/// The numbers from `i` to `n`.
pub open spec fn numbers(i: int, n: int) -> Seq<int> {
    Seq::new(
        (if n < i {
            0
        } else {
            n - i
        }) as nat,
        |k: int| i + k,
    )
}

/// What two plans one after the other show.
proof fn lemma_shown_concat(a: Seq<Action>, b: Seq<Action>)
    ensures
        shown_by(a + b) == shown_by(a) + shown_by(b),
    decreases a.len(),
{
    if a.len() == 0 {
        assert(a + b =~= b);
        assert(shown_by(a) + shown_by(b) =~= shown_by(b));
    } else {
        assert((a + b).drop_first() =~= a.drop_first() + b);
        lemma_shown_concat(a.drop_first(), b);
        assert(shown(a[0]) + (shown_by(a.drop_first()) + shown_by(b)) =~= shown(a[0]) + shown_by(
            a.drop_first(),
        ) + shown_by(b));
    }
}

/// What one step shows.
proof fn lemma_shown_one(a: Action)
    ensures
        shown_by(seq![a]) == shown(a),
{
    assert(seq![a].drop_first() =~= Seq::<Action>::empty());
    reveal_with_fuel(shown_by, 2);
    assert(shown(a) + Seq::<int>::empty() =~= shown(a));
}

/// What plain steps show.
proof fn lemma_plain_shows(i: nat, n: nat, need_key: bool)
    requires
        n <= usize::MAX,
    ensures
        shown_by(plain_steps(i, n, need_key)) == numbers(i as int, n as int),
    decreases n - i,
{
    if i < n {
        lemma_plain_shows(i + 1, n, need_key);
        let a = plain_steps(i, n, need_key)[0];
        assert(plain_steps(i, n, need_key).drop_first() =~= plain_steps(i + 1, n, need_key));
        assert(shown(a) + numbers(i as int + 1, n as int) =~= numbers(i as int, n as int));
    } else {
        assert(shown_by(plain_steps(i, n, need_key)) =~= numbers(i as int, n as int));
    }
}

/// What steps around a hidden frame show.
proof fn lemma_forward_shows(i: nat, n: nat)
    requires
        n <= usize::MAX,
    ensures
        shown_by(forward_steps(i, n)) == numbers(i as int, n as int),
    decreases n - i,
{
    if i < n {
        lemma_forward_shows(i + 1, n);
        let a = forward_steps(i, n)[0];
        assert(forward_steps(i, n).drop_first() =~= forward_steps(i + 1, n));
        assert(shown(a) + numbers(i as int + 1, n as int) =~= numbers(i as int, n as int));
    } else {
        assert(shown_by(forward_steps(i, n)) =~= numbers(i as int, n as int));
    }
}

/// However a group is coded, each of its frames is shown once, in order.
pub proof fn law_group_shows_all(n: nat, need_key: bool, still: bool)
    requires
        n <= usize::MAX,
    ensures
        shown_by(group_steps(n, need_key, still)) == numbers(0, n as int),
{
    if n <= 2 || still {
        lemma_plain_shows(0, n, need_key);
    } else {
        let first = if need_key {
            1nat
        } else {
            0
        };
        let k = if need_key {
            seq![Action::Key { frame: 0 }]
        } else {
            Seq::empty()
        };
        let h = Action::Hidden {
            frame: (n - 1) as usize,
            from: window_start(n as int, first as int) as usize,
        };
        let p = Action::Paired { frame: first as usize };
        let f = forward_steps(first + 1, (n - 1) as nat);
        let s = Action::Show { frame: (n - 1) as usize };
        lemma_shown_concat(k, seq![h, p] + (f + seq![s]));
        lemma_shown_concat(seq![h, p], f + seq![s]);
        lemma_shown_concat(f, seq![s]);
        assert(seq![h, p] =~= seq![h] + seq![p]);
        lemma_shown_concat(seq![h], seq![p]);
        lemma_shown_one(h);
        lemma_shown_one(p);
        lemma_shown_one(s);
        lemma_forward_shows(first + 1, (n - 1) as nat);
        if need_key {
            lemma_shown_one(Action::Key { frame: 0 });
        } else {
            assert(shown_by(k) =~= Seq::<int>::empty());
        }
        assert(shown_by(group_steps(n, need_key, still)) =~= numbers(0, n as int));
    }
}

/// Where the references of a sequence are kept: the last hidden frame, and the next.
#[derive(Clone, Copy, Debug, PartialEq, Eq, Structural)]
pub struct Slots {
    pub golden: usize,
    pub arf: usize,
}

impl Slots {
    /// The slots of a new sequence.
    pub fn new() -> (s: Slots)
        ensures
            s == (Slots { golden: 1, arf: 2 }),
    {
        Slots { golden: 1, arf: 2 }
    }

    /// The references of a frame: the last frame, the last hidden one, and the next.
    pub fn refs(&self) -> (r: [usize; 3])
        ensures
            r@ == seq![0usize, self.golden, self.arf],
    {
        let r: [usize; 3] = [0, self.golden, self.arf];
        assert(r@ =~= seq![0usize, self.golden, self.arf]);
        r
    }

    /// After a group its hidden frame is the last one.
    pub fn turn(&mut self)
        ensures
            *final(self) == (Slots { golden: old(self).arf, arf: old(self).golden }),
    {
        let g: usize = self.golden;
        self.golden = self.arf;
        self.arf = g;
    }
}

/// The quantizer index that settings ask for: an index as it is, or a quality from 0 to
/// 63, four to one; the first that is given counts, and none leaves `current`.
pub open spec fn asked_qindex(
    qp: Option<u32>,
    crf: Option<u32>,
    q: Option<u32>,
    current: u32,
) -> int {
    if qp is Some {
        clamped(qp.unwrap() as int, 0, 255)
    } else if crf is Some {
        clamped(4 * crf.unwrap(), 1, 255)
    } else if q is Some {
        clamped(q.unwrap() as int, 0, 255)
    } else {
        current as int
    }
}

/// The quantizer index that settings ask for.
pub fn qindex_setting(qp: Option<u32>, crf: Option<u32>, q: Option<u32>, current: u32) -> (r: u32)
    ensures
        r == asked_qindex(qp, crf, q, current),
{
    if let Some(v) = qp {
        return if v > 255 {
            255
        } else {
            v
        };
    }
    if let Some(v) = crf {
        return if v < 1 {
            1
        } else if v > 63 {
            255
        } else {
            4 * v
        };
    }
    if let Some(v) = q {
        return if v > 255 {
            255
        } else {
            v
        };
    }
    current
}

/// What is done with a frame that arrives.
#[derive(Clone, Copy, Debug, PartialEq, Eq, Structural)]
pub enum Intake {
    /// Keep it.
    Keep,
    /// Keep it, and code all that are kept as a group.
    CodeGroup,
    /// Code it at once.
    CodeNow,
}

/// Decides what is done with a frame that arrives while `kept` are kept: all are kept
/// for two passes, groups of `lag` are coded around a hidden frame.
pub fn on_frame(twopass: bool, lag: usize, kept: usize) -> (r: Intake)
    ensures
        r == (if twopass {
            Intake::Keep
        } else if lag > 1 {
            if kept + 1 >= lag {
                Intake::CodeGroup
            } else {
                Intake::Keep
            }
        } else {
            Intake::CodeNow
        }),
{
    if twopass {
        Intake::Keep
    } else if lag > 1 {
        if kept >= lag - 1 {
            Intake::CodeGroup
        } else {
            Intake::Keep
        }
    } else {
        Intake::CodeNow
    }
}

/// A group that needs a key frame begins with one, and with no other; a group that needs
/// none has none.
pub proof fn law_groups_begin_with_their_key(n: nat, need_key: bool, still: bool, i: int)
    requires
        1 <= n <= usize::MAX,
        0 <= i < group_steps(n, need_key, still).len(),
    ensures
        group_steps(n, need_key, still)[i] is Key <==> need_key && i == 0,
{
    if n <= 2 || still {
        lemma_plain_at(0, n, need_key, i);
    } else {
        let first = if need_key {
            1nat
        } else {
            0
        };
        let rest = forward_steps(first + 1, (n - 1) as nat);
        let at = if need_key {
            3int
        } else {
            2
        };
        if at <= i < at + rest.len() {
            lemma_forward_at(first + 1, (n - 1) as nat, i - at);
        }
    }
}

/// A group that moves is coded around its last frame: that is coded hidden before any other
/// frame but a key frame, from the frames of a window that ends with it, and shown last.
pub proof fn law_hidden_frame_comes_first(n: nat, need_key: bool)
    requires
        3 <= n <= usize::MAX,
    ensures
        ({
            let s = group_steps(n, need_key, false);
            let at = if need_key {
                1int
            } else {
                0
            };
            &&& s[at] matches Action::Hidden { frame, from } && frame == n - 1 && at <= from
                && from <= n - 1 && n - 1 - from <= 4 && (from == at || n - 1 - from == 4)
            &&& s[at + 1] == (Action::Paired { frame: at as usize })
            &&& s.last() == (Action::Show { frame: (n - 1) as usize })
        }),
{
}

/// A group that hardly moves, or is short, has no hidden frame.
pub proof fn law_still_groups_hide_nothing(n: nat, need_key: bool, still: bool, i: int)
    requires
        n <= 2 || still,
        n <= usize::MAX,
        0 <= i < group_steps(n, need_key, still).len(),
    ensures
        group_steps(n, need_key, still).len() == n,
        !(group_steps(n, need_key, still)[i] is Hidden),
        shown(group_steps(n, need_key, still)[i]) == seq![i],
{
    lemma_plain_at(0, n, need_key, i);
}

proof fn lemma_plain_at(from: nat, n: nat, need_key: bool, i: int)
    requires
        n <= usize::MAX,
        0 <= i < plain_steps(from, n, need_key).len(),
    ensures
        plain_steps(from, n, need_key).len() == n - from,
        plain_steps(from, n, need_key)[i] == (if need_key && from + i == 0 {
            Action::Key { frame: 0 }
        } else {
            Action::Plain { frame: (from + i) as usize }
        }),
    decreases n - from,
{
    if from < n {
        let rest = plain_steps(from + 1, n, need_key);
        if i > 0 {
            lemma_plain_at(from + 1, n, need_key, i - 1);
        } else {
            lemma_plain_len(from + 1, n, need_key);
        }
        assert(plain_steps(from, n, need_key).len() == 1 + rest.len());
    }
}

proof fn lemma_plain_len(from: nat, n: nat, need_key: bool)
    requires
        from <= n,
    ensures
        plain_steps(from, n, need_key).len() == n - from,
    decreases n - from,
{
    if from < n {
        lemma_plain_len(from + 1, n, need_key);
    }
}

proof fn lemma_forward_at(from: nat, n: nat, i: int)
    requires
        n <= usize::MAX,
        0 <= i < forward_steps(from, n).len(),
    ensures
        forward_steps(from, n)[i] is Forward,
    decreases n - from,
{
    if from < n && i > 0 {
        lemma_forward_at(from + 1, n, i - 1);
    }
}

/// An index is taken as it is, a quality of 0 to 63 is a fourth of one but never lossless,
/// and what is given first counts; nothing leaves the index as it is. All are kept in
/// range.
pub proof fn law_asked_quantizer(
    qp: Option<u32>,
    crf: Option<u32>,
    q: Option<u32>,
    current: u32,
    v: u32,
)
    requires
        current <= 255,
    ensures
        0 <= asked_qindex(qp, crf, q, current) <= 255,
        asked_qindex(None, None, None, current) == current,
        v <= 255 ==> asked_qindex(Some(v), crf, q, current) == v,
        v > 255 ==> asked_qindex(Some(v), crf, q, current) == 255,
        1 <= v <= 63 ==> asked_qindex(None, Some(v), q, current) == 4 * v,
        v == 0 ==> asked_qindex(None, Some(v), q, current) == 1,
        v >= 64 ==> asked_qindex(None, Some(v), q, current) == 255,
        v <= 255 ==> asked_qindex(None, None, Some(v), current) == v,
{
}

} // verus!
