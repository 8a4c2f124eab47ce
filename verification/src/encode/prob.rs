//! Writing updates of probabilities.
use vstd::arithmetic::div_mod::*;
use vstd::arithmetic::power2::*;
use vstd::prelude::*;

use crate::bits;
use crate::coding;
use crate::coding::{Cursor, Sym};
use crate::encode::bitwriter;
use crate::encode::bitwriter::{literal_syms, BoolEncoder};
use crate::prob;
use crate::prob::{forward_remap_prob, DIFF_UPDATE_PROB};

verus! {

/// A literal bit.
pub open spec fn half(bit: bool) -> Seq<Sym> {
    seq![coding::sym(bit, 128)]
}

/// The symbols that code the update code `v`.
pub open spec fn subexp_syms(v: int) -> Seq<Sym> {
    if v < 16 {
        half(false) + literal_syms(v, 4)
    } else if v < 32 {
        half(true) + half(false) + literal_syms(v - 16, 4)
    } else if v < 64 {
        half(true) + half(true) + half(false) + literal_syms(v - 32, 5)
    } else if v < 129 {
        half(true) + half(true) + half(true) + literal_syms(v - 64, 7)
    } else {
        half(true) + half(true) + half(true) + literal_syms((v + 1) / 2, 7) + half((v + 1) % 2 == 1)
    }
}

/// The probability `p` can be moved to `t`, or stays where it is.
pub open spec fn reachable(p: u8, t: u8) -> bool {
    p == t || prob::update_code(p as int, t as int) is Some
}

/// The symbols that move the probability `p` to `t`.
pub open spec fn diff_syms(p: u8, t: u8) -> Seq<Sym> {
    if p == t {
        seq![coding::sym(false, DIFF_UPDATE_PROB)]
    } else {
        seq![coding::sym(true, DIFF_UPDATE_PROB)] + subexp_syms(
            prob::update_code(p as int, t as int).unwrap(),
        )
    }
}

/// The symbols that move each of `ps` to the one of `ts` at the same place.
pub open spec fn diffs_syms(ps: Seq<u8>, ts: Seq<u8>) -> Seq<Sym>
    decreases ps.len(),
{
    if ps.len() == 0 {
        Seq::empty()
    } else {
        diffs_syms(ps.drop_last(), ts.drop_last()) + diff_syms(ps.last(), ts.last())
    }
}

pub open spec fn all_reachable(ps: Seq<u8>, ts: Seq<u8>) -> bool {
    &&& ps.len() == ts.len()
    &&& forall|i: int| 0 <= i < ps.len() ==> reachable(#[trigger] ps[i], ts[i])
}

/// The symbols that move each row of `ps` to that of `ts`.
pub open spec fn rows_syms(ps: Seq<Seq<u8>>, ts: Seq<Seq<u8>>) -> Seq<Sym>
    decreases ps.len(),
{
    if ps.len() == 0 {
        Seq::empty()
    } else {
        rows_syms(ps.drop_last(), ts.drop_last()) + diffs_syms(ps.last(), ts.last())
    }
}

pub open spec fn rows_reachable(ps: Seq<Seq<u8>>, ts: Seq<Seq<u8>>) -> bool {
    &&& ps.len() == ts.len()
    &&& forall|i: int| 0 <= i < ps.len() ==> all_reachable(#[trigger] ps[i], ts[i])
}

/// The motion probability `p` can be moved to `t`, or stays where it is: moved ones
/// are odd.
pub open spec fn mv_reachable(p: u8, t: u8) -> bool {
    p == t || t % 2 == 1
}

/// The symbols that move the motion probability `p` to `t`.
pub open spec fn mv_syms(p: u8, t: u8) -> Seq<Sym> {
    if p == t {
        seq![coding::sym(false, DIFF_UPDATE_PROB)]
    } else {
        seq![coding::sym(true, DIFF_UPDATE_PROB)] + literal_syms(t as int / 2, 7)
    }
}

/// The symbols that move each of the motion probabilities `ps` to that of `ts`.
pub open spec fn mvs_syms(ps: Seq<u8>, ts: Seq<u8>) -> Seq<Sym>
    decreases ps.len(),
{
    if ps.len() == 0 {
        Seq::empty()
    } else {
        mvs_syms(ps.drop_last(), ts.drop_last()) + mv_syms(ps.last(), ts.last())
    }
}

pub open spec fn all_mv_reachable(ps: Seq<u8>, ts: Seq<u8>) -> bool {
    &&& ps.len() == ts.len()
    &&& forall|i: int| 0 <= i < ps.len() ==> mv_reachable(#[trigger] ps[i], ts[i])
}

// ---------------------------------------------------------------------------
// Writing
// ---------------------------------------------------------------------------

/// Writes the update code `v`.
pub fn encode_term_subexp(enc: &mut BoolEncoder, v: u32)
    requires
        old(enc).wf(),
        v <= 254,
    ensures
        final(enc).wf(),
        final(enc)@ == old(enc)@ + subexp_syms(v as int),
{
    let ghost start = enc@;
    if v < 16 {
        enc.write_bool(0, 128);
        enc.write_literal(v, 4);
    } else if v < 32 {
        enc.write_bool(1, 128);
        enc.write_bool(0, 128);
        enc.write_literal(v - 16, 4);
    } else if v < 64 {
        enc.write_bool(1, 128);
        enc.write_bool(1, 128);
        enc.write_bool(0, 128);
        enc.write_literal(v - 32, 5);
    } else {
        enc.write_bool(1, 128);
        enc.write_bool(1, 128);
        enc.write_bool(1, 128);
        if v < 129 {
            enc.write_literal(v - 64, 7);
        } else {
            enc.write_literal((v + 1) / 2, 7);
            enc.write_bool((v + 1) % 2, 128);
        }
    }
    assert(enc@ =~= start + subexp_syms(v as int));
}

/// Writes the update of the probability `p` to `t`.
pub fn diff_update_encode(enc: &mut BoolEncoder, p: u8, t: u8)
    requires
        old(enc).wf(),
        reachable(p, t),
    ensures
        final(enc).wf(),
        final(enc)@ == old(enc)@ + diff_syms(p, t),
{
    let ghost start = enc@;
    if p == t {
        enc.write_bool(0, DIFF_UPDATE_PROB);
        assert(enc@ =~= start + diff_syms(p, t));
    } else {
        enc.write_bool(1, DIFF_UPDATE_PROB);
        match forward_remap_prob(p, t) {
            Some(v) => {
                encode_term_subexp(enc, v);
            },
            None => {},
        }
        assert(enc@ =~= start + diff_syms(p, t));
    }
}

/// Writes the update of each of `pre` to that of `target`.
pub fn diff_update_slice(enc: &mut BoolEncoder, pre: &[u8], target: &[u8])
    requires
        old(enc).wf(),
        all_reachable(pre@, target@),
    ensures
        final(enc).wf(),
        final(enc)@ == old(enc)@ + diffs_syms(pre@, target@),
{
    let ghost start = enc@;
    let mut i: usize = 0;
    assert(start + diffs_syms(pre@.take(0), target@.take(0)) =~= start);
    while i < pre.len()
        invariant
            i <= pre@.len(),
            all_reachable(pre@, target@),
            enc.wf(),
            enc@ == start + diffs_syms(pre@.take(i as int), target@.take(i as int)),
        decreases pre@.len() - i,
    {
        diff_update_encode(enc, pre[i], target[i]);
        i = i + 1;
        proof {
            assert(pre@.take(i as int).drop_last() =~= pre@.take(i - 1));
            assert(target@.take(i as int).drop_last() =~= target@.take(i - 1));
            let a = diffs_syms(pre@.take(i - 1), target@.take(i - 1));
            let b = diff_syms(pre@[i - 1], target@[i - 1]);
            assert(start + (a + b) =~= (start + a) + b);
        }
    }
    assert(pre@.take(i as int) =~= pre@);
    assert(target@.take(i as int) =~= target@);
}

/// Writes the updates of a whole table.
pub fn diff_update_rows<const C: usize, const R: usize>(
    enc: &mut BoolEncoder,
    pre: &[[u8; C]; R],
    target: &[[u8; C]; R],
)
    requires
        old(enc).wf(),
        rows_reachable(prob::rows(*pre), prob::rows(*target)),
    ensures
        final(enc).wf(),
        final(enc)@ == old(enc)@ + rows_syms(prob::rows(*pre), prob::rows(*target)),
{
    let ghost start = enc@;
    let ghost ps = prob::rows(*pre);
    let ghost ts = prob::rows(*target);
    let mut i: usize = 0;
    assert(start + rows_syms(ps.take(0), ts.take(0)) =~= start);
    while i < R
        invariant
            i <= R,
            ps == prob::rows(*pre),
            ts == prob::rows(*target),
            rows_reachable(ps, ts),
            enc.wf(),
            enc@ == start + rows_syms(ps.take(i as int), ts.take(i as int)),
        decreases R - i,
    {
        assert(all_reachable(ps[i as int], ts[i as int]));
        diff_update_slice(enc, &pre[i], &target[i]);
        i = i + 1;
        proof {
            assert(ps.take(i as int).drop_last() =~= ps.take(i - 1));
            assert(ts.take(i as int).drop_last() =~= ts.take(i - 1));
            let a = rows_syms(ps.take(i - 1), ts.take(i - 1));
            let b = diffs_syms(ps[i - 1], ts[i - 1]);
            assert(start + (a + b) =~= (start + a) + b);
        }
    }
    assert(ps.take(i as int) =~= ps);
    assert(ts.take(i as int) =~= ts);
}

/// Writes the update of the motion probability `p` to `t`.
pub fn update_mv_prob_encode(enc: &mut BoolEncoder, p: u8, t: u8)
    requires
        old(enc).wf(),
    ensures
        final(enc).wf(),
        final(enc)@ == old(enc)@ + mv_syms(p, t),
{
    let ghost start = enc@;
    if p == t {
        enc.write_bool(0, DIFF_UPDATE_PROB);
    } else {
        enc.write_bool(1, DIFF_UPDATE_PROB);
        enc.write_literal(t as u32 / 2, 7);
    }
    assert(enc@ =~= start + mv_syms(p, t));
}

/// Writes the update of each of the motion probabilities `pre` to that of `target`.
pub fn update_mv_slice(enc: &mut BoolEncoder, pre: &[u8], target: &[u8])
    requires
        old(enc).wf(),
        pre@.len() == target@.len(),
    ensures
        final(enc).wf(),
        final(enc)@ == old(enc)@ + mvs_syms(pre@, target@),
{
    let ghost start = enc@;
    let mut i: usize = 0;
    assert(start + mvs_syms(pre@.take(0), target@.take(0)) =~= start);
    while i < pre.len()
        invariant
            i <= pre@.len(),
            pre@.len() == target@.len(),
            enc.wf(),
            enc@ == start + mvs_syms(pre@.take(i as int), target@.take(i as int)),
        decreases pre@.len() - i,
    {
        update_mv_prob_encode(enc, pre[i], target[i]);
        i = i + 1;
        proof {
            assert(pre@.take(i as int).drop_last() =~= pre@.take(i - 1));
            assert(target@.take(i as int).drop_last() =~= target@.take(i - 1));
            let a = mvs_syms(pre@.take(i - 1), target@.take(i - 1));
            let b = mv_syms(pre@[i - 1], target@[i - 1]);
            assert(start + (a + b) =~= (start + a) + b);
        }
    }
    assert(pre@.take(i as int) =~= pre@);
    assert(target@.take(i as int) =~= target@);
}

// ---------------------------------------------------------------------------
// Reading back
// ---------------------------------------------------------------------------

proof fn lemma_half(c: Cursor, bit: bool)
    ensures
        coding::holds(c, half(bit)) == (coding::read_bit(c, 128) == bit),
        coding::after(c, half(bit)) == coding::read_next(c, 128),
{
    coding::lemma_holds_one(c, coding::sym(bit, 128));
}

proof fn lemma_literal(c: Cursor, v: int, n: nat)
    requires
        0 <= v < pow2(n),
        coding::holds(c, literal_syms(v, n)),
    ensures
        bits::literal_value(c, n) == v,
        bits::literal_after(c, n) == coding::after(c, literal_syms(v, n)),
{
    bitwriter::law_literal_read_inverts_write(c, v, n);
    lemma_small_mod(v as nat, pow2(n));
}

/// Reading an update code inverts writing it.
pub proof fn law_subexp_read_inverts_write(c: Cursor, v: int)
    requires
        0 <= v <= 254,
        coding::holds(c, subexp_syms(v)),
    ensures
        prob::subexp_read(c) == (v, coding::after(c, subexp_syms(v))),
{
    lemma2_to64();
    let c1 = coding::read_next(c, 128);
    let c2 = coding::read_next(c1, 128);
    let c3 = coding::read_next(c2, 128);
    let b0 = v >= 16;
    let b1 = v >= 32;
    let b2 = v >= 64;
    lemma_half(c, b0);
    lemma_half(c1, b1);
    lemma_half(c2, b2);
    if v < 16 {
        let l = literal_syms(v, 4);
        coding::lemma_holds_concat(c, half(false), l);
        lemma_literal(c1, v, 4);
    } else if v < 32 {
        let l = literal_syms(v - 16, 4);
        coding::lemma_holds_concat(c, half(true) + half(false), l);
        coding::lemma_holds_concat(c, half(true), half(false));
        lemma_literal(c2, v - 16, 4);
    } else {
        let head = half(true) + half(true) + half(b2);
        coding::lemma_holds_concat(c, half(true) + half(true), half(b2));
        coding::lemma_holds_concat(c, half(true), half(true));
        if v < 64 {
            coding::lemma_holds_concat(c, head, literal_syms(v - 32, 5));
            lemma_literal(c3, v - 32, 5);
        } else if v < 129 {
            coding::lemma_holds_concat(c, head, literal_syms(v - 64, 7));
            lemma_literal(c3, v - 64, 7);
        } else {
            let w = (v + 1) / 2;
            let l = literal_syms(w, 7);
            let last = half((v + 1) % 2 == 1);
            coding::lemma_holds_concat(c, head + l, last);
            coding::lemma_holds_concat(c, head, l);
            lemma_literal(c3, w, 7);
            lemma_half(coding::after(c3, l), (v + 1) % 2 == 1);
        }
    }
}

/// Reading the update of a probability inverts writing it.
pub proof fn law_diff_read_inverts_write(c: Cursor, p: u8, t: u8)
    requires
        reachable(p, t),
        coding::holds(c, diff_syms(p, t)),
    ensures
        prob::diff_read(c, p) == (t, coding::after(c, diff_syms(p, t))),
{
    coding::lemma_holds_one(c, coding::sym(p != t, DIFF_UPDATE_PROB));
    if p != t {
        let v = prob::update_code(p as int, t as int).unwrap();
        prob::law_update_code_reaches(p as int, t as int);
        coding::lemma_holds_concat(
            c,
            seq![coding::sym(true, DIFF_UPDATE_PROB)],
            subexp_syms(v),
        );
        law_subexp_read_inverts_write(coding::read_next(c, DIFF_UPDATE_PROB), v);
    }
}

/// Reading the updates of a list inverts writing them.
pub proof fn lemma_diffs_back(c: Cursor, ps: Seq<u8>, ts: Seq<u8>)
    requires
        all_reachable(ps, ts),
        coding::holds(c, diffs_syms(ps, ts)),
    ensures
        prob::diffs_read(c, ps) == (ts, coding::after(c, diffs_syms(ps, ts))),
    decreases ps.len(),
{
    if ps.len() == 0 {
        assert(ps =~= ts);
    } else {
        let a = diffs_syms(ps.drop_last(), ts.drop_last());
        coding::lemma_holds_concat(c, a, diff_syms(ps.last(), ts.last()));
        assert forall|i: int| 0 <= i < ps.drop_last().len() implies reachable(
            #[trigger] ps.drop_last()[i],
            ts.drop_last()[i],
        ) by {
            assert(reachable(ps[i], ts[i]));
        }
        lemma_diffs_back(c, ps.drop_last(), ts.drop_last());
        assert(reachable(ps[ps.len() - 1], ts[ps.len() - 1]));
        law_diff_read_inverts_write(coding::after(c, a), ps.last(), ts.last());
        assert(ts =~= ts.drop_last().push(ts.last()));
    }
}

/// Reading the updates of a table inverts writing them.
pub proof fn lemma_rows_back(c: Cursor, ps: Seq<Seq<u8>>, ts: Seq<Seq<u8>>)
    requires
        rows_reachable(ps, ts),
        coding::holds(c, rows_syms(ps, ts)),
    ensures
        prob::rows_read(c, ps) == (ts, coding::after(c, rows_syms(ps, ts))),
    decreases ps.len(),
{
    if ps.len() == 0 {
        assert(ps =~= ts);
    } else {
        let a = rows_syms(ps.drop_last(), ts.drop_last());
        coding::lemma_holds_concat(c, a, diffs_syms(ps.last(), ts.last()));
        assert forall|i: int| 0 <= i < ps.drop_last().len() implies all_reachable(
            #[trigger] ps.drop_last()[i],
            ts.drop_last()[i],
        ) by {
            assert(all_reachable(ps[i], ts[i]));
        }
        lemma_rows_back(c, ps.drop_last(), ts.drop_last());
        assert(all_reachable(ps[ps.len() - 1], ts[ps.len() - 1]));
        lemma_diffs_back(coding::after(c, a), ps.last(), ts.last());
        assert(ts =~= ts.drop_last().push(ts.last()));
    }
}

/// Reading the updates of motion probabilities inverts writing them.
pub proof fn lemma_mvs_back(c: Cursor, ps: Seq<u8>, ts: Seq<u8>)
    requires
        all_mv_reachable(ps, ts),
        coding::holds(c, mvs_syms(ps, ts)),
    ensures
        prob::mvs_read(c, ps) == (ts, coding::after(c, mvs_syms(ps, ts))),
    decreases ps.len(),
{
    if ps.len() == 0 {
        assert(ps =~= ts);
    } else {
        let a = mvs_syms(ps.drop_last(), ts.drop_last());
        let (p, t) = (ps.last(), ts.last());
        coding::lemma_holds_concat(c, a, mv_syms(p, t));
        assert forall|i: int| 0 <= i < ps.drop_last().len() implies mv_reachable(
            #[trigger] ps.drop_last()[i],
            ts.drop_last()[i],
        ) by {
            assert(mv_reachable(ps[i], ts[i]));
        }
        lemma_mvs_back(c, ps.drop_last(), ts.drop_last());
        assert(mv_reachable(ps[ps.len() - 1], ts[ps.len() - 1]));
        let c1 = coding::after(c, a);
        coding::lemma_holds_one(c1, coding::sym(p != t, DIFF_UPDATE_PROB));
        if p != t {
            let l = literal_syms(t as int / 2, 7);
            coding::lemma_holds_concat(c1, seq![coding::sym(true, DIFF_UPDATE_PROB)], l);
            lemma2_to64();
            lemma_literal(coding::read_next(c1, DIFF_UPDATE_PROB), t as int / 2, 7);
        }
        assert(ts =~= ts.drop_last().push(ts.last()));
    }
}

} // verus!
