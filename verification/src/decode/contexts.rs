//! The contexts of inter prediction: what the blocks above and to the left say of
//! the references and filters of a block.
use vstd::prelude::*;

use crate::block::{flag, ModeInfo, ALTREF_FRAME, GOLDEN_FRAME, LAST_FRAME};

verus! {

/// One of the references of `m` is `f`.
pub open spec fn either_ref(m: &ModeInfo, f: i8) -> bool {
    m.ref_frame[0] == f || m.ref_frame[1] == f
}

fn has_ref(m: &ModeInfo, f: i8) -> (r: bool)
    ensures
        r == either_ref(m, f),
{
    m.ref_frame[0] == f || m.ref_frame[1] == f
}

fn count(b: bool) -> (r: usize)
    ensures
        r == flag(b),
{
    if b {
        1
    } else {
        0
    }
}

/// The context of intra or inter: 3 between two intra blocks, 2 beside an intra block
/// at the edge of the frame, 1 beside an intra and an inter block, else 0.
pub open spec fn intra_inter_ctx(above: Option<&ModeInfo>, left: Option<&ModeInfo>) -> int {
    match (above, left) {
        (Some(a), Some(l)) => if !a.inter() && !l.inter() {
            3
        } else {
            flag(!a.inter() || !l.inter())
        },
        (Some(m), None) => 2 * flag(!m.inter()),
        (None, Some(m)) => 2 * flag(!m.inter()),
        (None, None) => 0,
    }
}

/// The context of intra or inter.
pub fn intra_inter_context(above: Option<&ModeInfo>, left: Option<&ModeInfo>) -> (r: usize)
    ensures
        r == intra_inter_ctx(above, left),
        r <= 3,
{
    match (above, left) {
        (Some(a), Some(l)) => {
            let ai: bool = !a.is_inter_block();
            let li: bool = !l.is_inter_block();
            if li && ai {
                3
            } else {
                count(li || ai)
            }
        },
        (Some(m), None) => 2 * count(!m.is_inter_block()),
        (None, Some(m)) => 2 * count(!m.is_inter_block()),
        (None, None) => 0,
    }
}

/// The filter of a neighbour; 3 where there is none.
pub open spec fn side_filter(m: Option<&ModeInfo>) -> int {
    match m {
        Some(m) => m.interp_filter as int,
        None => 3,
    }
}

/// The context of the interpolation filter: the filter that the neighbours agree on,
/// or that one of them has, else 3.
pub open spec fn interp_ctx(above: Option<&ModeInfo>, left: Option<&ModeInfo>) -> int {
    let (a, l) = (side_filter(above), side_filter(left));
    if a == l || a == 3 {
        l
    } else if l == 3 {
        a
    } else {
        3
    }
}

/// The context of the interpolation filter.
pub fn switchable_interp_context(above: Option<&ModeInfo>, left: Option<&ModeInfo>) -> (r: usize)
    ensures
        r == interp_ctx(above, left),
{
    let left_type: usize = match left {
        Some(m) => m.interp_filter as usize,
        None => 3,
    };
    let above_type: usize = match above {
        Some(m) => m.interp_filter as usize,
        None => 3,
    };
    if left_type == above_type {
        left_type
    } else if left_type == 3 {
        above_type
    } else if above_type == 3 {
        left_type
    } else {
        3
    }
}

/// What a single inter neighbour says of whether the reference is the last frame.
pub open spec fn last_side(m: &ModeInfo) -> int {
    if !m.compound() {
        4 * flag(m.ref_frame[0] == LAST_FRAME)
    } else {
        1 + flag(either_ref(m, LAST_FRAME))
    }
}

/// The context of the first bit of a single reference: last frame or not.
pub open spec fn single_ref_ctx1(above: Option<&ModeInfo>, left: Option<&ModeInfo>) -> int {
    match (above, left) {
        (Some(a), Some(l)) => if !a.inter() && !l.inter() {
            2
        } else if !a.inter() {
            last_side(l)
        } else if !l.inter() {
            last_side(a)
        } else if a.compound() && l.compound() {
            1 + flag(either_ref(a, LAST_FRAME) || either_ref(l, LAST_FRAME))
        } else if a.compound() || l.compound() {
            let (single, double) = if a.compound() {
                (l, a)
            } else {
                (a, l)
            };
            3 * flag(single.ref_frame[0] == LAST_FRAME) + flag(either_ref(double, LAST_FRAME))
        } else {
            2 * flag(a.ref_frame[0] == LAST_FRAME) + 2 * flag(l.ref_frame[0] == LAST_FRAME)
        },
        (Some(m), None) => if m.inter() {
            last_side(m)
        } else {
            2
        },
        (None, Some(m)) => if m.inter() {
            last_side(m)
        } else {
            2
        },
        (None, None) => 2,
    }
}

fn last_beside(m: &ModeInfo) -> (r: usize)
    ensures
        r == last_side(m),
        r <= 4,
{
    if !m.has_second_ref() {
        4 * count(m.ref_frame[0] == LAST_FRAME)
    } else {
        1 + count(has_ref(m, LAST_FRAME))
    }
}

/// The context of the first bit of a single reference.
pub fn single_ref_p1(above: Option<&ModeInfo>, left: Option<&ModeInfo>) -> (r: usize)
    ensures
        r == single_ref_ctx1(above, left),
        r <= 4,
{
    match (above, left) {
        (Some(a), Some(l)) => {
            let ai: bool = !a.is_inter_block();
            let li: bool = !l.is_inter_block();
            if ai && li {
                2
            } else if ai {
                last_beside(l)
            } else if li {
                last_beside(a)
            } else {
                let ah: bool = a.has_second_ref();
                let lh: bool = l.has_second_ref();
                if ah && lh {
                    1 + count(has_ref(a, LAST_FRAME) || has_ref(l, LAST_FRAME))
                } else if ah {
                    3 * count(l.ref_frame[0] == LAST_FRAME) + count(has_ref(a, LAST_FRAME))
                } else if lh {
                    3 * count(a.ref_frame[0] == LAST_FRAME) + count(has_ref(l, LAST_FRAME))
                } else {
                    2 * count(a.ref_frame[0] == LAST_FRAME) + 2 * count(
                        l.ref_frame[0] == LAST_FRAME,
                    )
                }
            }
        },
        (Some(m), None) => if m.is_inter_block() {
            last_beside(m)
        } else {
            2
        },
        (None, Some(m)) => if m.is_inter_block() {
            last_beside(m)
        } else {
            2
        },
        (None, None) => 2,
    }
}

/// What a single inter neighbour beside an intra block says of whether the reference
/// is the golden frame.
pub open spec fn golden_side(m: &ModeInfo) -> int {
    if m.compound() {
        1 + 2 * flag(either_ref(m, GOLDEN_FRAME))
    } else if m.ref_frame[0] == LAST_FRAME {
        3
    } else {
        4 * flag(m.ref_frame[0] == GOLDEN_FRAME)
    }
}

/// What the one neighbour at the edge of the frame says of whether the reference is
/// the golden frame.
pub open spec fn golden_edge(m: &ModeInfo) -> int {
    if !m.inter() || (m.ref_frame[0] == LAST_FRAME && !m.compound()) {
        2
    } else if !m.compound() {
        4 * flag(m.ref_frame[0] == GOLDEN_FRAME)
    } else {
        3 * flag(either_ref(m, GOLDEN_FRAME))
    }
}

/// What a neighbour with one reference and one with two say of whether the reference
/// is the golden frame.
pub open spec fn golden_mixed(single: &ModeInfo, double: &ModeInfo) -> int {
    let g = flag(either_ref(double, GOLDEN_FRAME));
    if single.ref_frame[0] == GOLDEN_FRAME {
        3 + g
    } else if single.ref_frame[0] == ALTREF_FRAME {
        g
    } else {
        1 + 2 * g
    }
}

/// The context of the second bit of a single reference: golden or altref frame.
pub open spec fn single_ref_ctx2(above: Option<&ModeInfo>, left: Option<&ModeInfo>) -> int {
    match (above, left) {
        (Some(a), Some(l)) => if !a.inter() && !l.inter() {
            2
        } else if !a.inter() {
            golden_side(l)
        } else if !l.inter() {
            golden_side(a)
        } else if a.compound() && l.compound() {
            if a.ref_frame[0] == l.ref_frame[0] && a.ref_frame[1] == l.ref_frame[1] {
                3 * flag(either_ref(a, GOLDEN_FRAME))
            } else {
                2
            }
        } else if a.compound() {
            golden_mixed(l, a)
        } else if l.compound() {
            golden_mixed(a, l)
        } else if a.ref_frame[0] == LAST_FRAME && l.ref_frame[0] == LAST_FRAME {
            3
        } else if a.ref_frame[0] == LAST_FRAME {
            4 * flag(l.ref_frame[0] == GOLDEN_FRAME)
        } else if l.ref_frame[0] == LAST_FRAME {
            4 * flag(a.ref_frame[0] == GOLDEN_FRAME)
        } else {
            2 * flag(a.ref_frame[0] == GOLDEN_FRAME) + 2 * flag(l.ref_frame[0] == GOLDEN_FRAME)
        },
        (Some(m), None) => golden_edge(m),
        (None, Some(m)) => golden_edge(m),
        (None, None) => 2,
    }
}

fn golden_beside(m: &ModeInfo) -> (r: usize)
    ensures
        r == golden_side(m),
        r <= 4,
{
    if !m.has_second_ref() {
        if m.ref_frame[0] == LAST_FRAME {
            3
        } else {
            4 * count(m.ref_frame[0] == GOLDEN_FRAME)
        }
    } else {
        1 + 2 * count(has_ref(m, GOLDEN_FRAME))
    }
}

fn golden_at_edge(m: &ModeInfo) -> (r: usize)
    ensures
        r == golden_edge(m),
        r <= 4,
{
    if !m.is_inter_block() || (m.ref_frame[0] == LAST_FRAME && !m.has_second_ref()) {
        2
    } else if !m.has_second_ref() {
        4 * count(m.ref_frame[0] == GOLDEN_FRAME)
    } else {
        3 * count(has_ref(m, GOLDEN_FRAME))
    }
}

fn golden_between(single: &ModeInfo, double: &ModeInfo) -> (r: usize)
    ensures
        r == golden_mixed(single, double),
        r <= 4,
{
    let g: usize = count(has_ref(double, GOLDEN_FRAME));
    if single.ref_frame[0] == GOLDEN_FRAME {
        3 + g
    } else if single.ref_frame[0] == ALTREF_FRAME {
        g
    } else {
        1 + 2 * g
    }
}

/// The context of the second bit of a single reference.
pub fn single_ref_p2(above: Option<&ModeInfo>, left: Option<&ModeInfo>) -> (r: usize)
    ensures
        r == single_ref_ctx2(above, left),
        r <= 4,
{
    match (above, left) {
        (Some(a), Some(l)) => {
            let ai: bool = !a.is_inter_block();
            let li: bool = !l.is_inter_block();
            if ai && li {
                2
            } else if ai {
                golden_beside(l)
            } else if li {
                golden_beside(a)
            } else {
                let (a0, a1): (i8, i8) = (a.ref_frame[0], a.ref_frame[1]);
                let (l0, l1): (i8, i8) = (l.ref_frame[0], l.ref_frame[1]);
                if a.has_second_ref() && l.has_second_ref() {
                    if a0 == l0 && a1 == l1 {
                        3 * count(has_ref(a, GOLDEN_FRAME))
                    } else {
                        2
                    }
                } else if a.has_second_ref() {
                    golden_between(l, a)
                } else if l.has_second_ref() {
                    golden_between(a, l)
                } else if a0 == LAST_FRAME && l0 == LAST_FRAME {
                    3
                } else if a0 == LAST_FRAME {
                    4 * count(l0 == GOLDEN_FRAME)
                } else if l0 == LAST_FRAME {
                    4 * count(a0 == GOLDEN_FRAME)
                } else {
                    2 * count(a0 == GOLDEN_FRAME) + 2 * count(l0 == GOLDEN_FRAME)
                }
            }
        },
        (Some(m), None) => golden_at_edge(m),
        (None, Some(m)) => golden_at_edge(m),
        (None, None) => 2,
    }
}

/// The context of one or two references: how far the neighbours have two already.
pub open spec fn reference_mode_ctx(
    above: Option<&ModeInfo>,
    left: Option<&ModeInfo>,
    fixed: int,
) -> int {
    match (above, left) {
        (Some(a), Some(l)) => if !a.compound() && !l.compound() {
            flag((a.ref_frame[0] == fixed) != (l.ref_frame[0] == fixed))
        } else if !a.compound() {
            2 + flag(a.ref_frame[0] == fixed || !a.inter())
        } else if !l.compound() {
            2 + flag(l.ref_frame[0] == fixed || !l.inter())
        } else {
            4
        },
        (Some(m), None) => if !m.compound() {
            flag(m.ref_frame[0] == fixed)
        } else {
            3
        },
        (None, Some(m)) => if !m.compound() {
            flag(m.ref_frame[0] == fixed)
        } else {
            3
        },
        (None, None) => 1,
    }
}

/// The context of one or two references.
pub fn reference_mode_context(
    above: Option<&ModeInfo>,
    left: Option<&ModeInfo>,
    fixed: usize,
) -> (r: usize)
    requires
        fixed < 128,
    ensures
        r == reference_mode_ctx(above, left, fixed as int),
        r <= 4,
{
    let f: i8 = fixed as i8;
    match (above, left) {
        (Some(a), Some(l)) => if !a.has_second_ref() && !l.has_second_ref() {
            count((a.ref_frame[0] == f) != (l.ref_frame[0] == f))
        } else if !a.has_second_ref() {
            2 + count(a.ref_frame[0] == f || !a.is_inter_block())
        } else if !l.has_second_ref() {
            2 + count(l.ref_frame[0] == f || !l.is_inter_block())
        } else {
            4
        },
        (Some(m), None) => if !m.has_second_ref() {
            count(m.ref_frame[0] == f)
        } else {
            3
        },
        (None, Some(m)) => if !m.has_second_ref() {
            count(m.ref_frame[0] == f)
        } else {
            3
        },
        (None, None) => 1,
    }
}

/// The variable reference of `m`, which stands at `var_idx` if there are two.
pub open spec fn variable_ref(m: &ModeInfo, var_idx: int) -> i8 {
    if m.compound() {
        m.ref_frame[var_idx]
    } else {
        m.ref_frame[0]
    }
}

/// The context of the variable one of two references, for two inter neighbours.
pub open spec fn comp_ref_both(
    a: &ModeInfo,
    l: &ModeInfo,
    var_idx: int,
    fixed: int,
    var0: int,
    var1: int,
) -> int {
    let (va, vl) = (variable_ref(a, var_idx), variable_ref(l, var_idx));
    if va == vl && var1 == va {
        0
    } else if !a.compound() && !l.compound() {
        if (va == fixed && vl == var0) || (vl == fixed && va == var0) {
            4
        } else if va == vl {
            3
        } else {
            1
        }
    } else if !a.compound() || !l.compound() {
        let (double, single) = if a.compound() {
            (va, vl)
        } else {
            (vl, va)
        };
        if double == var1 && single != var1 {
            1
        } else if single == var1 && double != var1 {
            2
        } else {
            4
        }
    } else if va == vl {
        4
    } else {
        2
    }
}

/// The context of the variable one of two references, for one neighbour at the edge
/// of the frame.
pub open spec fn comp_ref_edge(e: &ModeInfo, var_idx: int, var1: int) -> int {
    if !e.inter() {
        2
    } else if e.compound() {
        4 * flag(e.ref_frame[var_idx] != var1)
    } else {
        3 * flag(e.ref_frame[0] != var1)
    }
}

/// The context of the variable one of two references.
pub open spec fn comp_ref_ctx(
    above: Option<&ModeInfo>,
    left: Option<&ModeInfo>,
    var_idx: int,
    fixed: int,
    var0: int,
    var1: int,
) -> int {
    match (above, left) {
        (Some(a), Some(l)) => if !a.inter() && !l.inter() {
            2
        } else if !a.inter() {
            1 + 2 * flag(variable_ref(l, var_idx) != var1)
        } else if !l.inter() {
            1 + 2 * flag(variable_ref(a, var_idx) != var1)
        } else {
            comp_ref_both(a, l, var_idx, fixed, var0, var1)
        },
        (Some(e), None) => comp_ref_edge(e, var_idx, var1),
        (None, Some(e)) => comp_ref_edge(e, var_idx, var1),
        (None, None) => 2,
    }
}

fn variable_of(m: &ModeInfo, var_idx: usize) -> (r: i8)
    requires
        var_idx < 2,
    ensures
        r == variable_ref(m, var_idx as int),
{
    if m.has_second_ref() {
        m.ref_frame[var_idx]
    } else {
        m.ref_frame[0]
    }
}

fn comp_ref_at_edge(e: &ModeInfo, var_idx: usize, var1: i8) -> (r: usize)
    requires
        var_idx < 2,
    ensures
        r == comp_ref_edge(e, var_idx as int, var1 as int),
        r <= 4,
{
    if !e.is_inter_block() {
        2
    } else if e.has_second_ref() {
        4 * count(e.ref_frame[var_idx] != var1)
    } else {
        3 * count(e.ref_frame[0] != var1)
    }
}

/// The context of the variable one of two references. `sign_bias` says in which
/// direction each reference lies, which fixes the place of the variable one.
pub fn comp_ref_context(
    above: Option<&ModeInfo>,
    left: Option<&ModeInfo>,
    sign_bias: &[bool; 4],
    comp_fixed_ref: usize,
    comp_var_ref: &[usize; 2],
) -> (r: usize)
    requires
        comp_fixed_ref < 4,
        comp_var_ref[0] < 128,
        comp_var_ref[1] < 128,
    ensures
        r == comp_ref_ctx(
            above,
            left,
            1 - flag(sign_bias[comp_fixed_ref as int]),
            comp_fixed_ref as int,
            comp_var_ref[0] as int,
            comp_var_ref[1] as int,
        ),
        r <= 4,
{
    let fixed: i8 = comp_fixed_ref as i8;
    let var0: i8 = comp_var_ref[0] as i8;
    let var1: i8 = comp_var_ref[1] as i8;
    let var_idx: usize = if sign_bias[comp_fixed_ref] {
        0
    } else {
        1
    };
    match (above, left) {
        (Some(a), Some(l)) => {
            let ai: bool = !a.is_inter_block();
            let li: bool = !l.is_inter_block();
            let va: i8 = variable_of(a, var_idx);
            let vl: i8 = variable_of(l, var_idx);
            if ai && li {
                2
            } else if ai {
                1 + 2 * count(vl != var1)
            } else if li {
                1 + 2 * count(va != var1)
            } else {
                let a_sg: bool = !a.has_second_ref();
                let l_sg: bool = !l.has_second_ref();
                if va == vl && var1 == va {
                    0
                } else if l_sg && a_sg {
                    if (va == fixed && vl == var0) || (vl == fixed && va == var0) {
                        4
                    } else if va == vl {
                        3
                    } else {
                        1
                    }
                } else if l_sg || a_sg {
                    let double: i8 = if l_sg {
                        va
                    } else {
                        vl
                    };
                    let single: i8 = if a_sg {
                        va
                    } else {
                        vl
                    };
                    if double == var1 && single != var1 {
                        1
                    } else if single == var1 && double != var1 {
                        2
                    } else {
                        4
                    }
                } else if va == vl {
                    4
                } else {
                    2
                }
            }
        },
        (Some(e), None) => comp_ref_at_edge(e, var_idx, var1),
        (None, Some(e)) => comp_ref_at_edge(e, var_idx, var1),
        (None, None) => 2,
    }
}

/// No context depends on which of the neighbours stands above and which to the left.
pub proof fn law_contexts_symmetric(
    a: Option<&ModeInfo>,
    b: Option<&ModeInfo>,
    var_idx: int,
    fixed: int,
    var0: int,
    var1: int,
)
    ensures
        intra_inter_ctx(a, b) == intra_inter_ctx(b, a),
        interp_ctx(a, b) == interp_ctx(b, a),
        single_ref_ctx1(a, b) == single_ref_ctx1(b, a),
        single_ref_ctx2(a, b) == single_ref_ctx2(b, a),
        reference_mode_ctx(a, b, fixed) == reference_mode_ctx(b, a, fixed),
        comp_ref_ctx(a, b, var_idx, fixed, var0, var1) == comp_ref_ctx(
            b,
            a,
            var_idx,
            fixed,
            var0,
            var1,
        ),
{
}

/// The context of intra or inter tells apart how many neighbours are intra: between two
/// neighbours it is 0, 1 or 3 for none, one or two of them; beside a single neighbour it
/// is 0 or 2; with none it is 0.
pub proof fn law_intra_inter_tells_intra(a: &ModeInfo, l: &ModeInfo)
    ensures
        intra_inter_ctx(None, None) == 0,
        a.ref_frame[0] > 0 <==> intra_inter_ctx(Some(a), None) == 0,
        a.ref_frame[0] <= 0 <==> intra_inter_ctx(Some(a), None) == 2,
        intra_inter_ctx(None, Some(a)) == intra_inter_ctx(Some(a), None),
        a.ref_frame[0] > 0 && l.ref_frame[0] > 0 <==> intra_inter_ctx(Some(a), Some(l)) == 0,
        (a.ref_frame[0] > 0) != (l.ref_frame[0] > 0) <==> intra_inter_ctx(Some(a), Some(l)) == 1,
        a.ref_frame[0] <= 0 && l.ref_frame[0] <= 0 <==> intra_inter_ctx(Some(a), Some(l)) == 3,
{
}

/// Neighbours that agree on a filter give it as the context, one that is missing or has
/// none leaves it to the other, and two that differ give 3.
pub proof fn law_filters_that_agree(a: &ModeInfo, l: &ModeInfo)
    ensures
        interp_ctx(None, None) == 3,
        interp_ctx(Some(a), None) == a.interp_filter,
        interp_ctx(None, Some(a)) == a.interp_filter,
        a.interp_filter == l.interp_filter ==> interp_ctx(Some(a), Some(l)) == a.interp_filter,
        a.interp_filter == 3 ==> interp_ctx(Some(a), Some(l)) == l.interp_filter,
        l.interp_filter == 3 ==> interp_ctx(Some(a), Some(l)) == a.interp_filter,
        a.interp_filter != l.interp_filter && a.interp_filter != 3 && l.interp_filter != 3
            ==> interp_ctx(Some(a), Some(l)) == 3,
{
}

/// `m` has one reference, the frame `f`.
pub open spec fn refers_to(m: &ModeInfo, f: int) -> bool {
    f > 0 && m.ref_frame[0] == f && m.ref_frame[1] <= 0
}

/// `m` has two references, the frames `f` and `g`.
pub open spec fn refers_to_both(m: &ModeInfo, f: int, g: int) -> bool {
    f > 0 && g > 0 && m.ref_frame[0] == f && m.ref_frame[1] == g
}

/// `m` has no reference.
pub open spec fn refers_to_none(m: &ModeInfo) -> bool {
    m.ref_frame[0] <= 0 && m.ref_frame[1] <= 0
}

/// Between two neighbours with one reference each, the context of the first bit of a
/// reference is twice the number of them that refer to the last frame, so that it grows
/// with each that does.
pub proof fn law_last_frame_counts(a: &ModeInfo, l: &ModeInfo, f: int, g: int)
    requires
        refers_to(a, f),
        refers_to(l, g),
    ensures
        f == 1 && g == 1 ==> single_ref_ctx1(Some(a), Some(l)) == 4,
        (f == 1) != (g == 1) ==> single_ref_ctx1(Some(a), Some(l)) == 2,
        f != 1 && g != 1 ==> single_ref_ctx1(Some(a), Some(l)) == 0,
{
}

/// A neighbour that refers to the last frame raises the context of the first bit by at
/// least two over one in its place that does not, whatever the other neighbour is.
pub proof fn law_last_frame_raises(
    with: &ModeInfo,
    without: &ModeInfo,
    other: Option<&ModeInfo>,
    f: int,
)
    requires
        refers_to(with, 1),
        refers_to(without, f),
        f != 1,
    ensures
        single_ref_ctx1(Some(without), other) + 2 <= single_ref_ctx1(Some(with), other),
        single_ref_ctx1(other, Some(without)) + 2 <= single_ref_ctx1(other, Some(with)),
{
}

/// A neighbour with two references, one of them the last frame, has a context of the
/// first bit one higher than one in its place with neither, unless the other neighbour
/// has two references with the last frame among them already.
pub proof fn law_last_of_two_raises(
    with: &ModeInfo,
    without: &ModeInfo,
    other: Option<&ModeInfo>,
    f: int,
    g: int,
    h: int,
    k: int,
)
    requires
        refers_to_both(with, f, g),
        f == 1 || g == 1,
        refers_to_both(without, h, k),
        h != 1 && k != 1,
    ensures
        ({
            let lo = single_ref_ctx1(Some(without), other);
            let hi = single_ref_ctx1(Some(with), other);
            let known = other is Some && other.unwrap().ref_frame[0] > 0
                && other.unwrap().ref_frame[1] > 0 && (other.unwrap().ref_frame[0] == 1
                || other.unwrap().ref_frame[1] == 1);
            &&& known ==> lo == 2 && hi == 2
            &&& !known ==> hi == lo + 1
        }),
{
}

/// Beside nothing or beside an intra block, a neighbour with one reference has the context
/// 4 or 0 of the first bit, one with two has 2 or 1; between blocks without references
/// it is 2.
pub proof fn law_last_frame_beside_intra(m: &ModeInfo, intra: &ModeInfo, f: int, g: int)
    requires
        refers_to_none(intra),
    ensures
        single_ref_ctx1(None, None) == 2,
        single_ref_ctx1(Some(intra), None) == 2,
        single_ref_ctx1(Some(intra), Some(intra)) == 2,
        single_ref_ctx1(Some(m), None) == single_ref_ctx1(Some(m), Some(intra)),
        refers_to(m, 1) ==> single_ref_ctx1(Some(m), None) == 4,
        refers_to(m, f) && f != 1 ==> single_ref_ctx1(Some(m), None) == 0,
        refers_to_both(m, f, g) && (f == 1 || g == 1) ==> single_ref_ctx1(Some(m), None) == 2,
        refers_to_both(m, f, g) && f != 1 && g != 1 ==> single_ref_ctx1(Some(m), None) == 1,
{
}

/// Of a neighbour with one reference and one with two, the first decides whether the
/// context of the first bit is high (3 and 4) or low (0 and 1), the second which of two.
pub proof fn law_last_frame_of_one_and_two(
    one: &ModeInfo,
    two: &ModeInfo,
    f: int,
    g: int,
    h: int,
)
    requires
        refers_to(one, f),
        refers_to_both(two, g, h),
    ensures
        single_ref_ctx1(Some(one), Some(two)) >= 3 <==> f == 1,
        single_ref_ctx1(Some(one), Some(two)) <= 1 <==> f != 1,
        single_ref_ctx1(Some(one), Some(two)) == 4 ==> g == 1 || h == 1,
        single_ref_ctx1(Some(one), Some(two)) == 0 ==> g != 1 && h != 1,
        single_ref_ctx1(Some(one), Some(two)) == 3 ==> g != 1 && h != 1,
        single_ref_ctx1(Some(one), Some(two)) == 1 ==> g == 1 || h == 1,
{
}

/// Between two neighbours that refer to one of golden and altref each, the context of the
/// second bit is twice the number of them that refer to golden. One that refers to the
/// last frame instead leaves it all to the other, and two of those give 3.
pub proof fn law_golden_counts(a: &ModeInfo, l: &ModeInfo, f: int, g: int)
    requires
        refers_to(a, f),
        refers_to(l, g),
        f <= 3,
        g <= 3,
    ensures
        ({
            let c = single_ref_ctx2(Some(a), Some(l));
            &&& f == 1 && g == 1 <==> c == 3
            &&& f == 2 && g == 2 ==> c == 4
            &&& f == 3 && g == 3 ==> c == 0
            &&& (f == 2 && g == 3) || (f == 3 && g == 2) <==> c == 2
            &&& (f == 1 && g == 2) || (f == 2 && g == 1) ==> c == 4
            &&& (f == 1 && g == 3) || (f == 3 && g == 1) ==> c == 0
        }),
{
}

/// A neighbour that refers to golden raises the context of the second bit by at least two
/// over one in its place that refers to altref, whatever the other neighbour is.
pub proof fn law_golden_raises(
    golden: &ModeInfo,
    altref: &ModeInfo,
    other: Option<&ModeInfo>,
)
    requires
        refers_to(golden, 2),
        refers_to(altref, 3),
    ensures
        single_ref_ctx2(Some(altref), other) + 2 <= single_ref_ctx2(Some(golden), other),
        single_ref_ctx2(other, Some(altref)) + 2 <= single_ref_ctx2(other, Some(golden)),
{
}

/// What the context of the second bit is with one neighbour, beside an intra block, and
/// beside a neighbour with two references.
pub proof fn law_golden_beside(
    m: &ModeInfo,
    intra: &ModeInfo,
    two: &ModeInfo,
    f: int,
    g: int,
    h: int,
    k: int,
)
    requires
        refers_to_none(intra),
        refers_to_both(two, h, k),
    ensures
        single_ref_ctx2(None, None) == 2,
        single_ref_ctx2(Some(intra), None) == 2,
        single_ref_ctx2(Some(intra), Some(intra)) == 2,
        refers_to(m, 1) ==> {
            &&& single_ref_ctx2(Some(m), None) == 2
            &&& single_ref_ctx2(Some(m), Some(intra)) == 3
            &&& h == 2 || k == 2 <==> single_ref_ctx2(Some(m), Some(two)) == 3
            &&& h != 2 && k != 2 <==> single_ref_ctx2(Some(m), Some(two)) == 1
        },
        refers_to(m, 2) ==> {
            &&& single_ref_ctx2(Some(m), None) == 4
            &&& single_ref_ctx2(Some(m), Some(intra)) == 4
            &&& h == 2 || k == 2 <==> single_ref_ctx2(Some(m), Some(two)) == 4
            &&& h != 2 && k != 2 <==> single_ref_ctx2(Some(m), Some(two)) == 3
        },
        refers_to(m, 3) ==> {
            &&& single_ref_ctx2(Some(m), None) == 0
            &&& single_ref_ctx2(Some(m), Some(intra)) == 0
            &&& h == 2 || k == 2 <==> single_ref_ctx2(Some(m), Some(two)) == 1
            &&& h != 2 && k != 2 <==> single_ref_ctx2(Some(m), Some(two)) == 0
        },
        refers_to_both(m, f, g) && (f == 2 || g == 2) ==> {
            &&& single_ref_ctx2(Some(m), None) == 3
            &&& single_ref_ctx2(Some(m), Some(intra)) == 3
            &&& f == h && g == k ==> single_ref_ctx2(Some(m), Some(two)) == 3
        },
        refers_to_both(m, f, g) && f != 2 && g != 2 ==> {
            &&& single_ref_ctx2(Some(m), None) == 0
            &&& single_ref_ctx2(Some(m), Some(intra)) == 1
            &&& f == h && g == k ==> single_ref_ctx2(Some(m), Some(two)) == 0
        },
        refers_to_both(m, f, g) && (f != h || g != k) ==> single_ref_ctx2(Some(m), Some(two))
            == 2,
{
}

/// The context of one or two references is 4 between two neighbours with two, 2 or 3 where
/// one of them has two, and below 2 where none has: 1 where just one of two neighbours,
/// or the only one, refers to the fixed reference.
pub proof fn law_two_references_spread(a: &ModeInfo, l: &ModeInfo, fixed: int)
    requires
        0 < fixed < 128,
    ensures
        ({
            let c = reference_mode_ctx(Some(a), Some(l), fixed);
            let (a2, l2) = (a.ref_frame[1] > 0, l.ref_frame[1] > 0);
            let (af, lf) = (a.ref_frame[0] == fixed, l.ref_frame[0] == fixed);
            &&& a2 && l2 <==> c == 4
            &&& a2 != l2 <==> c == 2 || c == 3
            &&& !a2 && !l2 <==> c == 0 || c == 1
            &&& a2 && !l2 ==> (c == 3 <==> lf || l.ref_frame[0] <= 0)
            &&& l2 && !a2 ==> (c == 3 <==> af || a.ref_frame[0] <= 0)
            &&& !a2 && !l2 ==> (c == 1 <==> af != lf)
        }),
        reference_mode_ctx(None, None, fixed) == 1,
        a.ref_frame[1] > 0 ==> reference_mode_ctx(Some(a), None, fixed) == 3,
        a.ref_frame[1] <= 0 && a.ref_frame[0] == fixed ==> reference_mode_ctx(Some(a), None, fixed)
            == 1,
        a.ref_frame[1] <= 0 && a.ref_frame[0] != fixed ==> reference_mode_ctx(Some(a), None, fixed)
            == 0,
{
}

/// The context of the variable reference is 0 just where both neighbours, or the only one,
/// are inter and have the second variable reference.
pub proof fn law_variable_reference_known(
    a: &ModeInfo,
    l: &ModeInfo,
    at: int,
    fixed: int,
    var0: int,
    var1: int,
)
    requires
        0 <= at < 2,
        a.ref_frame[0] > 0,
        l.ref_frame[0] > 0,
    ensures
        ({
            let va = if a.ref_frame[1] > 0 {
                a.ref_frame[at]
            } else {
                a.ref_frame[0]
            };
            let vl = if l.ref_frame[1] > 0 {
                l.ref_frame[at]
            } else {
                l.ref_frame[0]
            };
            let c = comp_ref_ctx(Some(a), Some(l), at, fixed, var0, var1);
            let e = comp_ref_ctx(Some(a), None, at, fixed, var0, var1);
            let (a2, l2) = (a.ref_frame[1] > 0, l.ref_frame[1] > 0);
            &&& va == var1 && vl == var1 <==> c == 0
            &&& va == var1 <==> e == 0
            &&& va != var1 <==> e == (if a2 {
                4int
            } else {
                3
            })
            &&& a2 && l2 && va == vl && va != var1 ==> c == 4
            &&& a2 && l2 && va != vl ==> c == 2
            &&& a2 != l2 && va != var1 && vl != var1 ==> c == 4
            &&& a2 && !l2 && va == var1 && vl != var1 ==> c == 1
            &&& a2 && !l2 && va != var1 && vl == var1 ==> c == 2
            &&& !a2 && !l2 && va == vl && va != var1 && !(va == fixed && va == var0) ==> c == 3
            &&& !a2 && !l2 && va == fixed && vl == var0 && va != vl ==> c == 4
            &&& !a2 && !l2 && va != vl && (va == var1 || vl == var1) && var1 != fixed && var1
                != var0 ==> c == 1
        }),
{
}

/// Beside an intra block the variable reference of the other neighbour gives 1 or 3, and
/// between intra blocks, at the edge beside one, or with no neighbour at all it is 2.
pub proof fn law_variable_reference_beside_intra(
    m: &ModeInfo,
    intra: &ModeInfo,
    at: int,
    fixed: int,
    var0: int,
    var1: int,
)
    requires
        0 <= at < 2,
        intra.ref_frame[0] <= 0,
        m.ref_frame[0] > 0,
    ensures
        comp_ref_ctx(None, None, at, fixed, var0, var1) == 2,
        comp_ref_ctx(Some(intra), None, at, fixed, var0, var1) == 2,
        comp_ref_ctx(Some(intra), Some(intra), at, fixed, var0, var1) == 2,
        ({
            let v = if m.ref_frame[1] > 0 {
                m.ref_frame[at]
            } else {
                m.ref_frame[0]
            };
            let c = comp_ref_ctx(Some(m), Some(intra), at, fixed, var0, var1);
            (v == var1 <==> c == 1) && (v != var1 <==> c == 3)
        }),
{
}

} // verus!
