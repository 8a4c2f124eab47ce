//! Writing motion vectors.
use vstd::arithmetic::power2::*;
use vstd::prelude::*;

use crate::block::{flag, Mv};
use crate::coding;
use crate::coding::{sym, Cursor, Sym};
use crate::decode::counts::{MV_CLASS_TREE, MV_FP_TREE, MV_JOINT_TREE};
use crate::encode::bitwriter::BoolEncoder;
use crate::mv;
use crate::mv::{
    abs, class_base, class_of, component_read, difference_read, integer_bits, is_short, joint_of,
    lemma_class_base, lemma_mv_trees, magnitude_read, base_of, class_index, use_mv_hp,
};
use crate::prob_tables::{NmvComponent, NmvContext};
use crate::token;

verus! {

/// The low `n` bits of `d`, least significant first.
pub open spec fn integer_syms(d: int, probs: Seq<u8>, n: nat) -> Seq<Sym>
    decreases n,
{
    if n == 0 {
        Seq::empty()
    } else {
        integer_syms(d, probs, (n - 1) as nat).push(
            sym((d / pow2((n - 1) as nat) as int) % 2 == 1, probs[n - 1]),
        )
    }
}

/// The last bit, where it is coded.
pub open spec fn hp_syms(e: int, prob: u8, usehp: bool) -> Seq<Sym> {
    if usehp {
        seq![sym(e == 1, prob)]
    } else {
        Seq::empty()
    }
}

/// The binary decisions that say a magnitude, less one, within its class.
#[verifier::opaque]
pub open spec fn magnitude_syms(z: int, n: NmvComponent, usehp: bool) -> Seq<Sym> {
    let class = class_of(z);
    let o = z - class_base(class);
    let (d, f, e) = (o / 8, (o / 2) % 4, o % 2);
    if class == 0 {
        seq![sym(d == 1, n.class0[0])] + token::tree_syms(MV_FP_TREE@, n.class0_fp[d]@, f)
            + hp_syms(e, n.class0_hp, usehp)
    } else {
        integer_syms(d, n.bits@, class as nat) + token::tree_syms(MV_FP_TREE@, n.fp@, f) + hp_syms(
            e,
            n.hp,
            usehp,
        )
    }
}

/// The binary decisions that say a component of a difference that is not zero.
pub open spec fn component_syms(v: int, n: NmvComponent, usehp: bool) -> Seq<Sym> {
    let z = abs(v) - 1;
    seq![sym(v < 0, n.sign)] + (token::tree_syms(MV_CLASS_TREE@, n.classes@, class_of(z))
        + magnitude_syms(z, n, usehp))
}

/// The binary decisions that say a difference.
#[verifier::opaque]
pub open spec fn difference_syms(diff: (int, int), n: NmvContext, usehp: bool) -> Seq<Sym> {
    token::tree_syms(MV_JOINT_TREE@, n.joints@, joint_of(diff)) + ((if diff.0 != 0 {
        component_syms(diff.0, n.comps[0], usehp)
    } else {
        Seq::empty()
    }) + (if diff.1 != 0 {
        component_syms(diff.1, n.comps[1], usehp)
    } else {
        Seq::empty()
    }))
}

/// A component that can be coded: not too long, and even where eighths are not coded.
pub open spec fn component_codable(v: int, usehp: bool) -> bool {
    abs(v) <= 16384 && (usehp || v % 2 == 0)
}

/// The low `n` bits of a number below `2^n`, read back.
proof fn lemma_integer_read(c: Cursor, d: int, probs: Seq<u8>, n: nat)
    requires
        0 <= d,
        coding::holds(c, integer_syms(d, probs, n)),
    ensures
        integer_bits(c, probs, n) == (
            d % pow2(n) as int,
            coding::after(c, integer_syms(d, probs, n)),
        ),
    decreases n,
{
    if n == 0 {
        lemma2_to64();
        assert(d % 1 == 0);
    } else {
        let k = (n - 1) as nat;
        let before = integer_syms(d, probs, k);
        let p = pow2(k) as int;
        let last = sym((d / p) % 2 == 1, probs[n - 1]);
        assert(integer_syms(d, probs, n) =~= before + seq![last]);
        coding::lemma_holds_concat(c, before, seq![last]);
        lemma_integer_read(c, d, probs, k);
        let c1 = coding::after(c, before);
        coding::lemma_holds_one(c1, last);
        lemma_pow2_pos(k);
        lemma_pow2_unfold(n);
        vstd::arithmetic::div_mod::lemma_mod_breakdown(d, p, 2);
        assert(p * 2 == pow2(n) as int);
        let bit = (d / p) % 2;
        assert(flag(last.bit) * p == p * bit) by {
            if bit == 1 {
                assert(p * 1 == p && 1 * p == p);
            } else {
                assert(bit == 0);
                assert(p * 0 == 0 && 0 * p == 0);
            }
        }
    }
}

/// A last bit, read back; it is one where it is not coded.
proof fn lemma_hp_read(c: Cursor, e: int, prob: u8, usehp: bool)
    requires
        0 <= e <= 1,
        !usehp ==> e == 1,
        coding::holds(c, hp_syms(e, prob, usehp)),
    ensures
        mv::hp_read(c, prob, usehp) == (e, coding::after(c, hp_syms(e, prob, usehp))),
{
    if usehp {
        coding::lemma_holds_one(c, sym(e == 1, prob));
    }
}

/// A fraction and a last bit, read back.
proof fn lemma_fraction_read(c: Cursor, f: int, e: int, fp: Seq<u8>, hp: u8, usehp: bool)
    requires
        0 <= f < 4,
        0 <= e <= 1,
        !usehp ==> e == 1,
        coding::holds(c, token::tree_syms(MV_FP_TREE@, fp, f) + hp_syms(e, hp, usehp)),
    ensures
        token::tree_read(c, MV_FP_TREE@, fp) == f,
        mv::hp_read(token::tree_done(c, MV_FP_TREE@, fp), hp, usehp) == (
            e,
            coding::after(c, token::tree_syms(MV_FP_TREE@, fp, f) + hp_syms(e, hp, usehp)),
        ),
{
    lemma_mv_trees();
    let second = token::tree_syms(MV_FP_TREE@, fp, f);
    let third = hp_syms(e, hp, usehp);
    coding::lemma_holds_concat(c, second, third);
    token::law_tree_read_inverts_write(c, MV_FP_TREE@, fp, f);
    lemma_hp_read(coding::after(c, second), e, hp, usehp);
}

/// The parts of a magnitude: the last bit is one where eighths are not coded.
proof fn lemma_magnitude_parts(z: int, usehp: bool)
    requires
        0 <= z < 16384,
        !usehp ==> z % 2 == 1,
    ensures
        ({
            let class = class_of(z);
            let o = z - class_base(class);
            let (d, f, e) = (o / 8, (o / 2) % 4, o % 2);
            &&& 0 <= o
            &&& z == class_base(class) + 8 * d + 2 * f + e
            &&& 0 <= f < 4 && 0 <= e <= 1 && 0 <= d
            &&& !usehp ==> e == 1
            &&& class == 0 ==> d < 2
            &&& class > 0 ==> d < pow2(class as nat)
        }),
{
    lemma_class_base(z);
    let class = class_of(z);
    let base = class_base(class);
    assert(base % 2 == 0) by {
        if class > 0 {
            lemma_pow2_unfold((class + 3) as nat);
        }
    }
    let o = z - base;
    assert(o == 8 * (o / 8) + 2 * ((o / 2) % 4) + o % 2);
}

/// A magnitude, read back.
proof fn lemma_magnitude_read(c: Cursor, z: int, n: NmvComponent, usehp: bool)
    requires
        0 <= z < 16384,
        !usehp ==> z % 2 == 1,
        coding::holds(c, magnitude_syms(z, n, usehp)),
    ensures
        magnitude_read(c, n, class_of(z), usehp) == (
            z,
            coding::after(c, magnitude_syms(z, n, usehp)),
        ),
{
    reveal(magnitude_syms);
    lemma_magnitude_parts(z, usehp);
    let class = class_of(z);
    let o = z - class_base(class);
    let (d, f, e) = (o / 8, (o / 2) % 4, o % 2);
    let (first, fp, hp) = if class == 0 {
        (seq![sym(d == 1, n.class0[0])], n.class0_fp[d]@, n.class0_hp)
    } else {
        (integer_syms(d, n.bits@, class as nat), n.fp@, n.hp)
    };
    let second = token::tree_syms(MV_FP_TREE@, fp, f);
    let third = hp_syms(e, hp, usehp);
    assert(first + second + third =~= first + (second + third));
    coding::lemma_holds_concat(c, first, second + third);
    let c1 = coding::after(c, first);
    if class == 0 {
        coding::lemma_holds_one(c, sym(d == 1, n.class0[0]));
        assert(d == 0 || d == 1);
    } else {
        lemma_integer_read(c, d, n.bits@, class as nat);
        vstd::arithmetic::div_mod::lemma_small_mod(d as nat, pow2(class as nat));
    }
    lemma_fraction_read(c1, f, e, fp, hp, usehp);
}

/// A component, read back.
proof fn lemma_component_read(c: Cursor, v: int, n: NmvComponent, usehp: bool)
    requires
        v != 0,
        component_codable(v, usehp),
        coding::holds(c, component_syms(v, n, usehp)),
    ensures
        component_read(c, n, usehp) == (v, coding::after(c, component_syms(v, n, usehp))),
{
    lemma_mv_trees();
    let z = abs(v) - 1;
    let s = seq![sym(v < 0, n.sign)];
    let t = token::tree_syms(MV_CLASS_TREE@, n.classes@, class_of(z));
    let m = magnitude_syms(z, n, usehp);
    coding::lemma_holds_concat(c, s, t + m);
    coding::lemma_holds_one(c, s[0]);
    let c1 = coding::read_next(c, n.sign);
    coding::lemma_holds_concat(c1, t, m);
    token::law_tree_read_inverts_write(c1, MV_CLASS_TREE@, n.classes@, class_of(z));
    lemma_magnitude_read(coding::after(c1, t), z, n, usehp);
}

/// Reading a difference gives back what was written.
pub proof fn law_difference_read_inverts_write(
    c: Cursor,
    diff: (int, int),
    n: NmvContext,
    usehp: bool,
)
    requires
        component_codable(diff.0, usehp),
        component_codable(diff.1, usehp),
        coding::holds(c, difference_syms(diff, n, usehp)),
    ensures
        difference_read(c, n, usehp) == (
            diff,
            coding::after(c, difference_syms(diff, n, usehp)),
        ),
{
    reveal(difference_syms);
    lemma_mv_trees();
    let joint = joint_of(diff);
    let j = token::tree_syms(MV_JOINT_TREE@, n.joints@, joint);
    let row = if diff.0 != 0 {
        component_syms(diff.0, n.comps[0], usehp)
    } else {
        Seq::empty()
    };
    let col = if diff.1 != 0 {
        component_syms(diff.1, n.comps[1], usehp)
    } else {
        Seq::empty()
    };
    assert(difference_syms(diff, n, usehp) == j + (row + col));
    coding::lemma_holds_concat(c, j, row + col);
    token::law_tree_read_inverts_write(c, MV_JOINT_TREE@, n.joints@, joint);
    let c1 = coding::after(c, j);
    coding::lemma_holds_concat(c1, row, col);
    let c2 = coding::after(c1, row);
    if diff.0 != 0 {
        lemma_component_read(c1, diff.0, n.comps[0], usehp);
    }
    if diff.1 != 0 {
        lemma_component_read(c2, diff.1, n.comps[1], usehp);
    }
}

/// Writes the low bits of the integer part.
fn write_integer_bits(enc: &mut BoolEncoder, d: u32, probs: &[u8; 10], n: usize)
    requires
        old(enc).wf(),
        n <= 10,
    ensures
        final(enc).wf(),
        final(enc)@ == old(enc)@ + integer_syms(d as int, probs@, n as nat),
{
    let ghost start = enc@;
    let mut i: usize = 0;
    let mut rest: u32 = d;
    proof {
        lemma2_to64();
        assert(start + integer_syms(d as int, probs@, 0) =~= start);
    }
    while i < n
        invariant
            i <= n <= 10,
            enc.wf(),
            rest == d as int / pow2(i as nat) as int,
            enc@ == start + integer_syms(d as int, probs@, i as nat),
        decreases n - i,
    {
        enc.write_bool(rest % 2, probs[i]);
        proof {
            lemma_pow2_pos(i as nat);
            lemma_pow2_unfold((i + 1) as nat);
            vstd::arithmetic::div_mod::lemma_div_denominator(d as int, pow2(i as nat) as int, 2);
            assert(enc@ =~= start + integer_syms(d as int, probs@, (i + 1) as nat));
        }
        rest = rest / 2;
        i += 1;
    }
}

/// Writes a magnitude, less one, within its class.
fn write_magnitude(enc: &mut BoolEncoder, z: u32, class: usize, n: &NmvComponent, usehp: bool)
    requires
        old(enc).wf(),
        z < 16384,
        class == class_of(z as int),
    ensures
        final(enc).wf(),
        final(enc)@ == old(enc)@ + magnitude_syms(z as int, *n, usehp),
{
    let ghost start = enc@;
    proof {
        reveal(magnitude_syms);
        lemma_mv_trees();
        lemma_class_base(z as int);
        lemma2_to64();
    }
    let o: u32 = z - base_of(class);
    let (d, f, e): (u32, u32, u32) = (o / 8, (o / 2) % 4, o % 2);
    let ghost (first, fp, hp) = if class == 0 {
        (seq![sym(d == 1, n.class0[0])], n.class0_fp[d as int]@, n.class0_hp)
    } else {
        (integer_syms(d as int, n.bits@, class as nat), n.fp@, n.hp)
    };
    let ghost second = token::tree_syms(MV_FP_TREE@, fp, f as int);
    if class == 0 {
        assert(d < 2);
        enc.write_bool(d, n.class0[0]);
        assert(enc@ =~= start + first);
        enc.write_tree(&MV_FP_TREE, &n.class0_fp[d as usize], f as i32);
        if usehp {
            enc.write_bool(e, n.class0_hp);
        }
    } else {
        write_integer_bits(enc, d, &n.bits, class);
        enc.write_tree(&MV_FP_TREE, &n.fp, f as i32);
        if usehp {
            enc.write_bool(e, n.hp);
        }
    }
    assert(enc@ =~= start + (first + second + hp_syms(e as int, hp, usehp)));
}

/// Writes a component of a difference that is not zero.
fn write_component(enc: &mut BoolEncoder, v: i32, n: &NmvComponent, usehp: bool)
    requires
        old(enc).wf(),
        v != 0,
        abs(v as int) <= 16384,
    ensures
        final(enc).wf(),
        final(enc)@ == old(enc)@ + component_syms(v as int, *n, usehp),
{
    let ghost start = enc@;
    let z: u32 = (if v < 0 {
        -v - 1
    } else {
        v - 1
    }) as u32;
    proof {
        lemma_mv_trees();
    }
    let class: usize = class_index(z);
    let ghost s = seq![sym(v < 0, n.sign)];
    let ghost t = token::tree_syms(MV_CLASS_TREE@, n.classes@, class as int);
    let ghost m = magnitude_syms(z as int, *n, usehp);
    enc.write_bool((v < 0) as u32, n.sign);
    enc.write_tree(&MV_CLASS_TREE, &n.classes, class as i32);
    write_magnitude(enc, z, class, n, usehp);
    assert(start.push(s[0]) + t + m =~= start + (s + (t + m)));
}

/// Writes the vector `mv` as its difference from `reference`.
pub fn encode_mv(
    enc: &mut BoolEncoder,
    mv: Mv,
    reference: Mv,
    n: &NmvContext,
    allow_hp: bool,
)
    requires
        old(enc).wf(),
        abs(mv.0 - reference.0) <= 16384,
        abs(mv.1 - reference.1) <= 16384,
    ensures
        final(enc).wf(),
        final(enc)@ == old(enc)@ + difference_syms(
            (mv.0 - reference.0, mv.1 - reference.1),
            *n,
            allow_hp && is_short(reference),
        ),
{
    let ghost start = enc@;
    let usehp: bool = allow_hp && use_mv_hp(reference);
    let (row, col): (i32, i32) = (mv.0 - reference.0, mv.1 - reference.1);
    proof {
        reveal(difference_syms);
        lemma_mv_trees();
    }
    let joint: i32 = (if row != 0 {
        2
    } else {
        0
    }) + (if col != 0 {
        1
    } else {
        0
    });
    enc.write_tree(&MV_JOINT_TREE, &n.joints, joint);
    if row != 0 {
        write_component(enc, row, &n.comps[0], usehp);
    }
    if col != 0 {
        write_component(enc, col, &n.comps[1], usehp);
    }
    assert(enc@ =~= start + difference_syms((row as int, col as int), *n, usehp));
}

} // verus!
