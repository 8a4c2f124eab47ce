//! Motion vector differences: how they are read and counted.
//!
//! A component is a sign, a magnitude class, an integer part within the class, a
//! fraction of quarters, and a last bit of eighths that only short vectors have.
use vstd::arithmetic::power2::*;
use vstd::prelude::*;

use crate::bits::BoolDecoder;
use crate::block::{flag, Mv};
use crate::coding;
use crate::coding::Cursor;
use crate::decode::counts::{FrameCounts, MV_CLASS_TREE, MV_FP_TREE, MV_JOINT_TREE};
use crate::decode::tally;
use crate::decode::tally::{tallied, Count};
use crate::prob_tables::{NmvComponent, NmvContext};
use crate::token;
use crate::token::read_tree;

verus! {

pub open spec fn abs(v: int) -> int {
    if v < 0 {
        -v
    } else {
        v
    }
}

/// Whether a vector is short enough for eighths.
pub open spec fn is_short(mv: Mv) -> bool {
    abs(mv.0 as int) < 64 && abs(mv.1 as int) < 64
}

/// Whether a vector is short enough for eighths: each component below eight pixels.
pub fn use_mv_hp(mv: Mv) -> (r: bool)
    ensures
        r == is_short(mv),
{
    -64 < mv.0 && mv.0 < 64 && -64 < mv.1 && mv.1 < 64
}

/// A component without its eighths: odd ones move towards zero.
pub open spec fn lowered(v: int) -> int {
    if v % 2 == 0 {
        v
    } else if v > 0 {
        v - 1
    } else {
        v + 1
    }
}

/// A vector as precise as it may be: long ones, or all where `allow_hp` does not
/// hold, lose their eighths.
pub fn lower_mv_precision(mv: Mv, allow_hp: bool) -> (r: Mv)
    ensures
        if allow_hp && is_short(mv) {
            r == mv
        } else {
            r.0 == lowered(mv.0 as int) && r.1 == lowered(mv.1 as int)
        },
{
    if allow_hp && use_mv_hp(mv) {
        mv
    } else {
        (lower(mv.0), lower(mv.1))
    }
}

fn lower(v: i32) -> (r: i32)
    ensures
        r == lowered(v as int),
{
    if v >= 0 {
        v - v % 2
    } else if v == i32::MIN {
        v
    } else {
        let m: i32 = -v;
        -(m - m % 2)
    }
}

// ---------------------------------------------------------------------------
// What is read
// ---------------------------------------------------------------------------

/// The first `n` bits of the integer part, least significant first.
pub open spec fn integer_bits(c: Cursor, probs: Seq<u8>, n: nat) -> (int, Cursor)
    decreases n,
{
    if n == 0 {
        (0, c)
    } else {
        let (d, c1) = integer_bits(c, probs, (n - 1) as nat);
        let p = probs[n - 1];
        (
            d + flag(coding::read_bit(c1, p)) * pow2((n - 1) as nat),
            coding::read_next(c1, p),
        )
    }
}

/// The smallest magnitude of a class, less one.
pub open spec fn class_base(class: int) -> int {
    if class == 0 {
        0
    } else {
        pow2((class + 3) as nat) as int
    }
}

/// The last bit, which is one where it is not coded.
pub open spec fn hp_read(c: Cursor, prob: u8, usehp: bool) -> (int, Cursor) {
    if usehp {
        (flag(coding::read_bit(c, prob)), coding::read_next(c, prob))
    } else {
        (1, c)
    }
}

/// The magnitude of a component, less one, read in class `class`.
pub open spec fn magnitude_read(
    c: Cursor,
    n: NmvComponent,
    class: int,
    usehp: bool,
) -> (int, Cursor) {
    let (d, c1) = if class == 0 {
        (flag(coding::read_bit(c, n.class0[0])), coding::read_next(c, n.class0[0]))
    } else {
        integer_bits(c, n.bits@, class as nat)
    };
    let fp = if class == 0 {
        n.class0_fp[d]@
    } else {
        n.fp@
    };
    let f = token::tree_read(c1, MV_FP_TREE@, fp);
    let c2 = token::tree_done(c1, MV_FP_TREE@, fp);
    let (e, c3) = hp_read(
        c2,
        if class == 0 {
            n.class0_hp
        } else {
            n.hp
        },
        usehp,
    );
    (class_base(class) + 8 * d + 2 * f + e, c3)
}

/// A component of a difference.
pub open spec fn component_read(c: Cursor, n: NmvComponent, usehp: bool) -> (int, Cursor) {
    let c1 = coding::read_next(c, n.sign);
    let class = token::tree_read(c1, MV_CLASS_TREE@, n.classes@);
    let c2 = token::tree_done(c1, MV_CLASS_TREE@, n.classes@);
    let (z, c3) = magnitude_read(c2, n, class, usehp);
    (
        if coding::read_bit(c, n.sign) {
            -(z + 1)
        } else {
            z + 1
        },
        c3,
    )
}

/// A difference: which components are not zero, then those.
pub open spec fn difference_read(c: Cursor, n: NmvContext, usehp: bool) -> ((int, int), Cursor) {
    let joint = token::tree_read(c, MV_JOINT_TREE@, n.joints@);
    let c1 = token::tree_done(c, MV_JOINT_TREE@, n.joints@);
    let (row, c2) = if joint >= 2 {
        component_read(c1, n.comps[0], usehp)
    } else {
        (0, c1)
    };
    let (col, c3) = if joint == 1 || joint == 3 {
        component_read(c2, n.comps[1], usehp)
    } else {
        (0, c2)
    };
    ((row, col), c3)
}

// ---------------------------------------------------------------------------
// What is counted
// ---------------------------------------------------------------------------

/// The class of a magnitude, less one: the first ten classes double from sixteen on.
pub open spec fn class_of(z: int) -> int {
    if z < 16 {
        0
    } else if z < 32 {
        1
    } else if z < 64 {
        2
    } else if z < 128 {
        3
    } else if z < 256 {
        4
    } else if z < 512 {
        5
    } else if z < 1024 {
        6
    } else if z < 2048 {
        7
    } else if z < 4096 {
        8
    } else if z < 8192 {
        9
    } else {
        10
    }
}

/// The first `n` bits of the integer part, counted.
pub open spec fn bits_log(comp: int, d: int, n: nat) -> Seq<Count>
    decreases n,
{
    if n == 0 {
        Seq::empty()
    } else {
        bits_log(comp, d, (n - 1) as nat).push(
            Count::MvBit(comp, n - 1, (d / pow2((n - 1) as nat) as int) % 2),
        )
    }
}

/// What is counted of component `comp` with the value `v`. The last bit counts even
/// where it was not coded.
pub open spec fn component_log(comp: int, v: int) -> Seq<Count> {
    let z = abs(v) - 1;
    let class = class_of(z);
    let o = z - class_base(class);
    let (d, f, e) = (o / 8, (o / 2) % 4, o % 2);
    seq![Count::MvSign(comp, flag(v < 0)), Count::MvClass(comp, class)] + (if class == 0 {
        seq![
            Count::MvClass0(comp, d),
            Count::MvClass0Fp(comp, d, f),
            Count::MvClass0Hp(comp, e),
        ]
    } else {
        bits_log(comp, d, class as nat) + seq![Count::MvFp(comp, f), Count::MvHp(comp, e)]
    })
}

/// The joint of a difference.
pub open spec fn joint_of(diff: (int, int)) -> int {
    2 * flag(diff.0 != 0) + flag(diff.1 != 0)
}

/// What is counted of a difference.
pub open spec fn difference_log(diff: (int, int)) -> Seq<Count> {
    seq![Count::MvJoint(joint_of(diff))] + (if diff.0 != 0 {
        component_log(0, diff.0)
    } else {
        Seq::empty()
    }) + (if diff.1 != 0 {
        component_log(1, diff.1)
    } else {
        Seq::empty()
    })
}

// ---------------------------------------------------------------------------
// Reading
// ---------------------------------------------------------------------------

/// The trees of motion vectors are trees.
pub proof fn lemma_mv_trees()
    ensures
        token::is_tree(MV_JOINT_TREE@, 3),
        token::is_tree(MV_FP_TREE@, 3),
        token::is_tree(MV_CLASS_TREE@, 10),
        forall|s: int| #[trigger] token::in_tree(MV_JOINT_TREE@, s) <==> 0 <= s < 4,
        forall|s: int| #[trigger] token::in_tree(MV_FP_TREE@, s) <==> 0 <= s < 4,
        forall|s: int| #[trigger] token::in_tree(MV_CLASS_TREE@, s) <==> 0 <= s < 11,
{
    reveal_with_fuel(token::tree_ok, 8);
    reveal_with_fuel(token::has_leaf, 8);
}

fn read_integer_bits(b: &mut BoolDecoder, probs: &[u8; 10], n: usize) -> (r: u32)
    requires
        old(b).wf(),
        n <= 10,
    ensures
        final(b).wf(),
        (r as int, final(b)@) == integer_bits(old(b)@, probs@, n as nat),
        r < 1024,
        r < pow2(n as nat),
{
    let ghost c = b@;
    let mut d: u32 = 0;
    let mut weight: u32 = 1;
    let mut i: usize = 0;
    proof {
        lemma2_to64();
    }
    while i < n
        invariant
            i <= n <= 10,
            b.wf(),
            weight == pow2(i as nat),
            weight <= 1024,
            (d as int, b@) == integer_bits(c, probs@, i as nat),
            d < weight,
        decreases n - i,
    {
        proof {
            lemma_pow2_unfold((i + 1) as nat);
            lemma2_to64();
            if i + 1 < 10 {
                lemma_pow2_strictly_increases((i + 1) as nat, 10);
            }
        }
        let bit: u32 = b.read_bool(probs[i]);
        assert(flag(bit == 1) * pow2(i as nat) == bit * weight) by {
            assert(1 * weight == weight && 0 * weight == 0);
        }
        if bit != 0 {
            d = d + weight;
        }
        i = i + 1;
        weight = weight * 2;
    }
    proof {
        lemma2_to64();
        if n < 10 {
            lemma_pow2_strictly_increases(n as nat, 10);
        }
    }
    d
}

/// The smallest magnitude of a class, less one.
pub(crate) fn base_of(class: usize) -> (r: u32)
    requires
        class <= 10,
    ensures
        r == class_base(class as int),
        r <= 8192,
{
    proof {
        lemma2_to64();
    }
    if class == 0 {
        0
    } else if class == 1 {
        16
    } else if class == 2 {
        32
    } else if class == 3 {
        64
    } else if class == 4 {
        128
    } else if class == 5 {
        256
    } else if class == 6 {
        512
    } else if class == 7 {
        1024
    } else if class == 8 {
        2048
    } else if class == 9 {
        4096
    } else {
        8192
    }
}

fn read_hp(b: &mut BoolDecoder, prob: u8, usehp: bool) -> (r: u32)
    requires
        old(b).wf(),
    ensures
        final(b).wf(),
        (r as int, final(b)@) == hp_read(old(b)@, prob, usehp),
        r <= 1,
{
    if usehp {
        b.read_bool(prob)
    } else {
        1
    }
}

fn read_magnitude(b: &mut BoolDecoder, n: &NmvComponent, class: usize, usehp: bool) -> (r: u32)
    requires
        old(b).wf(),
        class <= 10,
    ensures
        final(b).wf(),
        (r as int, final(b)@) == magnitude_read(old(b)@, *n, class as int, usehp),
        r < 16384,
{
    proof {
        lemma_mv_trees();
    }
    let base: u32 = base_of(class);
    if class == 0 {
        let d: u32 = b.read_bool(n.class0[0]);
        let f: u32 = read_tree(b, &MV_FP_TREE, &n.class0_fp[d as usize]) as u32;
        let e: u32 = read_hp(b, n.class0_hp, usehp);
        base + 8 * d + 2 * f + e
    } else {
        let d: u32 = read_integer_bits(b, &n.bits, class);
        let f: u32 = read_tree(b, &MV_FP_TREE, &n.fp) as u32;
        let e: u32 = read_hp(b, n.hp, usehp);
        base + 8 * d + 2 * f + e
    }
}

fn read_component(b: &mut BoolDecoder, n: &NmvComponent, usehp: bool) -> (r: i32)
    requires
        old(b).wf(),
    ensures
        final(b).wf(),
        (r as int, final(b)@) == component_read(old(b)@, *n, usehp),
        1 <= abs(r as int) <= 16384,
{
    proof {
        lemma_mv_trees();
    }
    let sign: u32 = b.read_bool(n.sign);
    let class: usize = read_tree(b, &MV_CLASS_TREE, &n.classes) as usize;
    let z: u32 = read_magnitude(b, n, class, usehp);
    if sign == 1 {
        -(z as i32 + 1)
    } else {
        z as i32 + 1
    }
}

/// Reads a difference.
fn read_difference(b: &mut BoolDecoder, n: &NmvContext, usehp: bool) -> (r: Mv)
    requires
        old(b).wf(),
    ensures
        final(b).wf(),
        ((r.0 as int, r.1 as int), final(b)@) == difference_read(old(b)@, *n, usehp),
        abs(r.0 as int) <= 16384,
        abs(r.1 as int) <= 16384,
{
    proof {
        lemma_mv_trees();
    }
    let joint: i32 = read_tree(b, &MV_JOINT_TREE, &n.joints);
    let mut row: i32 = 0;
    let mut col: i32 = 0;
    if joint >= 2 {
        row = read_component(b, &n.comps[0], usehp);
    }
    if joint == 1 || joint == 3 {
        col = read_component(b, &n.comps[1], usehp);
    }
    (row, col)
}

/// The class of a magnitude, less one.
pub(crate) fn class_index(z: u32) -> (r: usize)
    ensures
        r == class_of(z as int),
        r <= 10,
{
    if z < 16 {
        0
    } else if z < 32 {
        1
    } else if z < 64 {
        2
    } else if z < 128 {
        3
    } else if z < 256 {
        4
    } else if z < 512 {
        5
    } else if z < 1024 {
        6
    } else if z < 2048 {
        7
    } else if z < 4096 {
        8
    } else if z < 8192 {
        9
    } else {
        10
    }
}

pub proof fn lemma_class_base(z: int)
    requires
        0 <= z,
    ensures
        class_base(class_of(z)) <= z,
        class_of(z) == 0 ==> z < 16,
        z < 16384 ==> z - class_base(class_of(z)) < 8 * pow2(class_of(z) as nat) || class_of(z) == 0,
{
    lemma2_to64();
}

/// Counts a component.
fn count_component(counts: &mut FrameCounts, comp: usize, v: i32)
    requires
        comp < 2,
        1 <= abs(v as int) <= 16384,
        old(counts).room(14),
    ensures
        tallied(*old(counts), *final(counts), component_log(comp as int, v as int)),
        component_log(comp as int, v as int).len() <= 14,
{
    let ghost start = *counts;
    let z: u32 = if v < 0 {
        (-v) as u32 - 1
    } else {
        v as u32 - 1
    };
    let class: usize = class_index(z);
    proof {
        lemma_class_base(z as int);
    }
    let o: u32 = z - base_of(class);
    let d: u32 = o / 8;
    let f: usize = ((o / 2) % 4) as usize;
    let e: usize = (o % 2) as usize;
    let ghost c = comp as int;
    let negative: usize = if v < 0 {
        1
    } else {
        0
    };
    let ghost mut log: Seq<Count> = Seq::empty();
    proof {
        tally::lemma_tally_none(start);
    }
    let ghost before = *counts;
    counts.count_mv_sign(comp, negative);
    proof {
        let x = seq![Count::MvSign(c, negative as int)];
        tally::lemma_tally(start, before, *counts, log, x);
        log = log + x;
        tally::lemma_tally_room(start, *counts, log, 14);
    }
    let ghost before = *counts;
    counts.count_mv_classes(comp, class);
    proof {
        let x = seq![Count::MvClass(c, class as int)];
        tally::lemma_tally(start, before, *counts, log, x);
        log = log + x;
        tally::lemma_tally_room(start, *counts, log, 14);
    }
    let ghost head = log;
    if class == 0 {
        let ghost before = *counts;
        counts.count_mv_class0(comp, d as usize);
        proof {
            let x = seq![Count::MvClass0(c, d as int)];
            tally::lemma_tally(start, before, *counts, log, x);
            log = log + x;
            tally::lemma_tally_room(start, *counts, log, 14);
        }
        let ghost before = *counts;
        counts.count_mv_class0_fp(comp, d as usize, f);
        proof {
            let x = seq![Count::MvClass0Fp(c, d as int, f as int)];
            tally::lemma_tally(start, before, *counts, log, x);
            log = log + x;
            tally::lemma_tally_room(start, *counts, log, 14);
        }
        let ghost before = *counts;
        counts.count_mv_class0_hp(comp, e);
        proof {
            let x = seq![Count::MvClass0Hp(c, e as int)];
            tally::lemma_tally(start, before, *counts, log, x);
            log = log + x;
        }
        assert(log =~= component_log(c, v as int));
    } else {
        let mut i: usize = 0;
        let mut rest: u32 = d;
        let ghost mut bits: Seq<Count> = Seq::empty();
        proof {
            lemma2_to64();
            assert(d as int / 1 == d);
        }
        while i < class
            invariant
                i <= class <= 10,
                comp < 2,
                c == comp,
                start.room(14),
                head.len() == 2,
                log == head + bits,
                bits == bits_log(c, d as int, i as nat),
                bits.len() == i,
                tallied(start, *counts, log),
                rest == d as int / pow2(i as nat) as int,
            decreases class - i,
        {
            let bit: usize = (rest % 2) as usize;
            proof {
                tally::lemma_tally_room(start, *counts, log, 14);
                lemma_pow2_unfold((i + 1) as nat);
                lemma_pow2_pos(i as nat);
                vstd::arithmetic::div_mod::lemma_div_denominator(
                    d as int,
                    pow2(i as nat) as int,
                    2,
                );
                vstd::arithmetic::mul::lemma_mul_is_commutative(pow2(i as nat) as int, 2);
            }
            let ghost before = *counts;
            counts.count_mv_bit(comp, i, bit);
            proof {
                let x = seq![Count::MvBit(c, i as int, bit as int)];
                tally::lemma_tally(start, before, *counts, log, x);
                assert(head + bits + x =~= head + bits.push(x[0]));
                bits = bits.push(x[0]);
                log = head + bits;
            }
            rest = rest / 2;
            i = i + 1;
        }
        proof {
            tally::lemma_tally_room(start, *counts, log, 14);
        }
        let ghost before = *counts;
        counts.count_mv_fp(comp, f);
        proof {
            let x = seq![Count::MvFp(c, f as int)];
            tally::lemma_tally(start, before, *counts, log, x);
            log = log + x;
            tally::lemma_tally_room(start, *counts, log, 14);
        }
        let ghost before = *counts;
        counts.count_mv_hp(comp, e);
        proof {
            let x = seq![Count::MvHp(c, e as int)];
            tally::lemma_tally(start, before, *counts, log, x);
            log = log + x;
        }
        assert(log =~= component_log(c, v as int));
    }
}

/// Reads a motion vector as its difference from `reference`, and counts it.
pub fn read_mv(
    b: &mut BoolDecoder,
    reference: Mv,
    n: &NmvContext,
    allow_hp: bool,
    counts: &mut FrameCounts,
) -> (r: Mv)
    requires
        old(b).wf(),
        abs(reference.0 as int) <= 0x4000_0000,
        abs(reference.1 as int) <= 0x4000_0000,
        old(counts).room(29),
    ensures
        final(b).wf(),
        ({
            let (diff, c) = difference_read(old(b)@, *n, allow_hp && is_short(reference));
            &&& r.0 == reference.0 + diff.0
            &&& r.1 == reference.1 + diff.1
            &&& final(b)@ == c
            &&& tallied(*old(counts), *final(counts), difference_log(diff))
            &&& difference_log(diff).len() <= 29
            &&& abs(diff.0) <= 16384 && abs(diff.1) <= 16384
        }),
{
    let usehp: bool = allow_hp && use_mv_hp(reference);
    let diff: Mv = read_difference(b, n, usehp);
    let ghost start = *counts;
    let ghost g = (diff.0 as int, diff.1 as int);
    let joint: usize = (if diff.0 != 0 {
        2
    } else {
        0
    }) + (if diff.1 != 0 {
        1
    } else {
        0
    });
    counts.count_mv_joint(joint);
    let ghost mut log = seq![Count::MvJoint(joint as int)];
    if diff.0 != 0 {
        let ghost before = *counts;
        proof {
            tally::lemma_tally_room(start, before, log, 29);
            assert(before.room(14)) by {
                assert forall|k: Count| tally::counted(k) implies #[trigger] before.times(k) + 14
                    <= u32::MAX by {
                    assert(before.times(k) + 28 <= u32::MAX);
                }
            }
        }
        count_component(counts, 0, diff.0);
        proof {
            tally::lemma_tally(start, before, *counts, log, component_log(0, g.0));
            log = log + component_log(0, g.0);
        }
    }
    if diff.1 != 0 {
        let ghost before = *counts;
        proof {
            tally::lemma_tally_room(start, before, log, 29);
            assert(before.room(14)) by {
                assert forall|k: Count| tally::counted(k) implies #[trigger] before.times(k) + 14
                    <= u32::MAX by {
                    assert(before.times(k) + (29 - log.len()) <= u32::MAX);
                }
            }
        }
        count_component(counts, 1, diff.1);
        proof {
            tally::lemma_tally(start, before, *counts, log, component_log(1, g.1));
            log = log + component_log(1, g.1);
        }
    }
    assert(log =~= difference_log(g));
    (reference.0 + diff.0, reference.1 + diff.1)
}

// ---------------------------------------------------------------------------
// Laws
// ---------------------------------------------------------------------------

/// A component without its eighths is even, at most one closer to zero, and keeps its side;
/// an even one stays as it is.
pub proof fn law_lowering_goes_towards_zero(v: int)
    ensures
        lowered(v) % 2 == 0,
        abs(lowered(v)) <= abs(v) <= abs(lowered(v)) + 1,
        v % 2 == 0 ==> lowered(v) == v,
        v >= 0 ==> 0 <= lowered(v) <= v,
        v <= 0 ==> v <= lowered(v) <= 0,
        lowered(-v) == -lowered(v),
        lowered(lowered(v)) == lowered(v),
{
}

/// A vector is short where both components stay below eight pixels.
pub proof fn law_short_vectors(r: i32, c: i32)
    ensures
        is_short((r, c)) <==> -64 < r < 64 && -64 < c < 64,
{
}

/// The classes of magnitudes follow each other: each begins where the one before ends, and
/// from the second on each is as long as all before it together.
pub proof fn law_classes_follow_each_other(z: int)
    requires
        0 <= z < 16384,
    ensures
        ({
            let k = class_of(z);
            &&& 0 <= k <= 10
            &&& class_base(k) <= z
            &&& k < 10 ==> z < class_base(k + 1)
            &&& class_base(0) == 0 && class_base(1) == 16
            &&& 1 <= k < 10 ==> class_base(k + 1) == 2 * class_base(k)
        }),
{
    lemma2_to64();
    let k = class_of(z);
    lemma_pow2_unfold((k + 4) as nat);
}

/// What the bits of an integer part add up to fits into that many bits.
proof fn lemma_integer_bits_fit(c: Cursor, probs: Seq<u8>, n: nat)
    ensures
        0 <= integer_bits(c, probs, n).0 < pow2(n),
    decreases n,
{
    lemma2_to64();
    if n > 0 {
        lemma_integer_bits_fit(c, probs, (n - 1) as nat);
        lemma_pow2_unfold(n);
        let w = pow2((n - 1) as nat) as int;
        assert(flag(true) * w == w && flag(false) * w == 0);
    }
}

/// A magnitude that is read in a class lies in that class, so that the class that is counted
/// of it is the one that was read.
pub proof fn law_magnitude_lies_in_its_class(c: Cursor, n: NmvComponent, class: int, usehp: bool)
    requires
        0 <= class <= 10,
    ensures
        class_of(magnitude_read(c, n, class, usehp).0) == class,
        0 <= magnitude_read(c, n, class, usehp).0 < 16384,
        !usehp ==> magnitude_read(c, n, class, usehp).0 % 2 == 1,
{
    lemma2_to64();
    reveal_with_fuel(token::tree_value, 4);
    let (d, c1) = if class == 0 {
        (flag(coding::read_bit(c, n.class0[0])), coding::read_next(c, n.class0[0]))
    } else {
        integer_bits(c, n.bits@, class as nat)
    };
    let fp = if class == 0 {
        n.class0_fp[d]@
    } else {
        n.fp@
    };
    lemma_integer_bits_fit(c, n.bits@, class as nat);
    lemma_fraction(c1, fp);
    lemma_pow2_unfold((class + 3) as nat);
    lemma_pow2_unfold((class + 2) as nat);
    lemma_pow2_unfold((class + 1) as nat);
    let (z, _) = magnitude_read(c, n, class, usehp);
    if class > 0 {
        assert(class_base(class) == 8 * pow2(class as nat));
        assert(z - class_base(class) < 8 * pow2(class as nat));
        assert(class == 1 || class == 2 || class == 3 || class == 4 || class == 5 || class == 6
            || class == 7 || class == 8 || class == 9 || class == 10);
    }
    assert(class_base(class) % 2 == 0);
}

proof fn lemma_fraction(c: Cursor, probs: Seq<u8>)
    ensures
        0 <= token::tree_read(c, MV_FP_TREE@, probs) <= 3,
{
    reveal_with_fuel(token::tree_value, 4);
}

/// The joint says which components are not zero: 1 the column, 2 the row, 3 both.
pub proof fn law_joint_names_components(diff: (int, int))
    ensures
        joint_of(diff) == 0 <==> diff.0 == 0 && diff.1 == 0,
        joint_of(diff) == 1 <==> diff.0 == 0 && diff.1 != 0,
        joint_of(diff) == 2 <==> diff.0 != 0 && diff.1 == 0,
        joint_of(diff) == 3 <==> diff.0 != 0 && diff.1 != 0,
{
}

/// A difference has a row where its joint is 2 or more, and a column where it is odd: the
/// row is read first, with the probabilities of rows.
pub proof fn law_difference_by_joint(c: Cursor, n: NmvContext, usehp: bool)
    ensures
        ({
            let j = token::tree_read(c, MV_JOINT_TREE@, n.joints@);
            let c1 = token::tree_done(c, MV_JOINT_TREE@, n.joints@);
            let (d, e) = difference_read(c, n, usehp);
            &&& j == 0 ==> d == (0int, 0int) && e == c1
            &&& j == 1 ==> d.0 == 0 && (d.1, e) == component_read(c1, n.comps[1], usehp)
            &&& j == 2 ==> d.1 == 0 && (d.0, e) == component_read(c1, n.comps[0], usehp)
            &&& j == 3 ==> d.0 == component_read(c1, n.comps[0], usehp).0 && (d.1, e)
                == component_read(component_read(c1, n.comps[0], usehp).1, n.comps[1], usehp)
        }),
{
}

/// Of a component its sign is counted, 1 if it is negative, and the class of its magnitude.
pub proof fn law_component_counts_begin(comp: int, v: int)
    requires
        0 < v <= 16384,
    ensures
        component_log(comp, v).len() >= 5,
        component_log(comp, v)[0] == Count::MvSign(comp, 0),
        component_log(comp, -v)[0] == Count::MvSign(comp, 1),
        component_log(comp, v)[1] == Count::MvClass(comp, class_of(v - 1)),
        component_log(comp, -v)[1] == Count::MvClass(comp, class_of(v - 1)),
{
    lemma_bits_log_len(comp, (v - 1 - class_base(class_of(v - 1))) / 8, class_of(v - 1) as nat);
}

proof fn lemma_bits_log_len(comp: int, d: int, n: nat)
    ensures
        bits_log(comp, d, n).len() == n,
    decreases n,
{
    if n > 0 {
        lemma_bits_log_len(comp, d, (n - 1) as nat);
    }
}

/// Of a small component the integer, the fraction and the last bit are counted as those of
/// the lowest class, and they make up its magnitude.
pub proof fn law_small_component_counts(comp: int, v: int, d: int, f: int, e: int)
    requires
        0 <= d < 2,
        0 <= f < 4,
        0 <= e < 2,
        v == 8 * d + 2 * f + e + 1,
    ensures
        component_log(comp, v) == seq![
            Count::MvSign(comp, 0),
            Count::MvClass(comp, 0),
            Count::MvClass0(comp, d),
            Count::MvClass0Fp(comp, d, f),
            Count::MvClass0Hp(comp, e),
        ],
{
    assert(component_log(comp, v) =~= seq![
        Count::MvSign(comp, 0),
        Count::MvClass(comp, 0),
        Count::MvClass0(comp, d),
        Count::MvClass0Fp(comp, d, f),
        Count::MvClass0Hp(comp, e),
    ]);
}

/// A large component ends with its fraction and its last bit.
pub proof fn law_large_component_counts(comp: int, v: int)
    requires
        17 <= v <= 16384,
    ensures
        ({
            let log = component_log(comp, v);
            &&& log.len() == 4 + class_of(v - 1)
            &&& log[log.len() - 1] == Count::MvHp(comp, (v - 1) % 2)
            &&& log[log.len() - 2] == Count::MvFp(comp, ((v - 1) / 2) % 4)
        }),
{
    lemma2_to64();
    let z = v - 1;
    let k = class_of(z);
    law_classes_follow_each_other(z);
    let o = z - class_base(k);
    lemma_bits_log_len(comp, o / 8, k as nat);
    lemma_pow2_unfold((k + 3) as nat);
    lemma_pow2_unfold((k + 2) as nat);
    lemma_pow2_unfold((k + 1) as nat);
    let m = pow2(k as nat) as int;
    assert(class_base(k) == 8 * m);
    assert(o % 2 == z % 2);
    assert((o / 2) % 4 == (z / 2) % 4);
}

} // verus!
