//! Writing the modes of inter blocks. Each writer is given the probabilities that the
//! contexts of the block choose.
use vstd::prelude::*;

use crate::block::{flag, ALTREF_FRAME, LAST_FRAME, NEARESTMV};
use crate::coding;
use crate::coding::{sym, Cursor, Sym};
use crate::decode::counts::{INTER_MODE_TREE, SWITCHABLE_INTERP_TREE};
use crate::decode::modeinfo;
use crate::encode::bitwriter::BoolEncoder;
use crate::token;

verus! {

/// The binary decisions that say an inter mode.
pub open spec fn inter_mode_syms(mode: int, probs: Seq<u8>) -> Seq<Sym> {
    token::tree_syms(INTER_MODE_TREE@, probs, mode - NEARESTMV)
}

/// The binary decisions that say an interpolation filter.
pub open spec fn filter_syms(filter: int, probs: Seq<u8>) -> Seq<Sym> {
    token::tree_syms(SWITCHABLE_INTERP_TREE@, probs, filter)
}

/// The binary decisions that say the reference of a block with one reference.
pub open spec fn single_ref_syms(ref_frame: int, p1: u8, p2: u8) -> Seq<Sym> {
    if ref_frame == LAST_FRAME {
        seq![sym(false, p1)]
    } else {
        seq![sym(true, p1), sym(ref_frame == ALTREF_FRAME, p2)]
    }
}

/// The tree of filters is one, and its leaves are the filters.
pub proof fn lemma_filter_tree()
    ensures
        token::is_tree(SWITCHABLE_INTERP_TREE@, 2),
        forall|s: int| #[trigger] token::in_tree(SWITCHABLE_INTERP_TREE@, s) <==> 0 <= s < 3,
{
    reveal_with_fuel(token::tree_ok, 4);
    reveal_with_fuel(token::has_leaf, 4);
}

/// Writes an inter mode.
pub fn write_inter_mode(enc: &mut BoolEncoder, mode: u8, probs: &[u8; 3])
    requires
        old(enc).wf(),
        10 <= mode <= 13,
    ensures
        final(enc).wf(),
        final(enc)@ == old(enc)@ + inter_mode_syms(mode as int, probs@),
{
    proof {
        modeinfo::lemma_inter_mode_tree();
    }
    enc.write_tree(&INTER_MODE_TREE, probs, (mode - NEARESTMV) as i32);
}

/// Writes an interpolation filter.
pub fn write_interp_filter(enc: &mut BoolEncoder, filter: u8, probs: &[u8; 2])
    requires
        old(enc).wf(),
        filter < 3,
    ensures
        final(enc).wf(),
        final(enc)@ == old(enc)@ + filter_syms(filter as int, probs@),
{
    proof {
        lemma_filter_tree();
    }
    enc.write_tree(&SWITCHABLE_INTERP_TREE, probs, filter as i32);
}

/// Writes whether a block is an inter block.
pub fn write_is_inter(enc: &mut BoolEncoder, is_inter: bool, prob: u8)
    requires
        old(enc).wf(),
    ensures
        final(enc).wf(),
        final(enc)@ == old(enc)@.push(sym(is_inter, prob)),
{
    enc.write_bool(is_inter as u32, prob);
}

/// Writes whether a block has two references.
pub fn write_comp_inter(enc: &mut BoolEncoder, is_compound: bool, prob: u8)
    requires
        old(enc).wf(),
    ensures
        final(enc).wf(),
        final(enc)@ == old(enc)@.push(sym(is_compound, prob)),
{
    enc.write_bool(is_compound as u32, prob);
}

/// Writes the reference of a block with one: whether it is the last frame, and if not,
/// which of the other two.
pub fn write_single_ref(enc: &mut BoolEncoder, ref_frame: i8, p1: u8, p2: u8)
    requires
        old(enc).wf(),
    ensures
        final(enc).wf(),
        final(enc)@ == old(enc)@ + single_ref_syms(ref_frame as int, p1, p2),
{
    let ghost start = enc@;
    if ref_frame == LAST_FRAME {
        enc.write_bool(0, p1);
        assert(enc@ =~= start + single_ref_syms(ref_frame as int, p1, p2));
    } else {
        enc.write_bool(1, p1);
        enc.write_bool((ref_frame == ALTREF_FRAME) as u32, p2);
        assert(enc@ =~= start + single_ref_syms(ref_frame as int, p1, p2));
    }
}

/// Writes which of the two variable references a block with two has.
pub fn write_comp_ref(enc: &mut BoolEncoder, var_bit: u32, prob: u8)
    requires
        old(enc).wf(),
    ensures
        final(enc).wf(),
        final(enc)@ == old(enc)@.push(sym(var_bit != 0, prob)),
{
    enc.write_bool(var_bit, prob);
}

/// Reading an inter mode gives back what was written.
pub proof fn law_inter_mode_read_inverts_write(c: Cursor, mode: int, probs: Seq<u8>)
    requires
        10 <= mode <= 13,
        coding::holds(c, inter_mode_syms(mode, probs)),
    ensures
        10 + token::tree_read(c, INTER_MODE_TREE@, probs) == mode,
        token::tree_done(c, INTER_MODE_TREE@, probs) == coding::after(
            c,
            inter_mode_syms(mode, probs),
        ),
{
    modeinfo::lemma_inter_mode_tree();
    token::law_tree_read_inverts_write(c, INTER_MODE_TREE@, probs, mode - 10);
}

/// Reading an interpolation filter gives back what was written.
pub proof fn law_filter_read_inverts_write(c: Cursor, filter: int, probs: Seq<u8>)
    requires
        0 <= filter < 3,
        coding::holds(c, filter_syms(filter, probs)),
    ensures
        token::tree_read(c, SWITCHABLE_INTERP_TREE@, probs) == filter,
        token::tree_done(c, SWITCHABLE_INTERP_TREE@, probs) == coding::after(
            c,
            filter_syms(filter, probs),
        ),
{
    lemma_filter_tree();
    token::law_tree_read_inverts_write(c, SWITCHABLE_INTERP_TREE@, probs, filter);
}

/// Reading the reference of a block with one gives back what was written: a first bit
/// tells the last frame from the others, a second one these two from each other.
pub proof fn law_single_ref_read_inverts_write(c: Cursor, ref_frame: int, p1: u8, p2: u8)
    requires
        1 <= ref_frame <= 3,
        coding::holds(c, single_ref_syms(ref_frame, p1, p2)),
    ensures
        coding::read_bit(c, p1) == (ref_frame != 1),
        ref_frame != 1 ==> ref_frame == 2 + flag(coding::read_bit(coding::read_next(c, p1), p2)),
        coding::after(c, single_ref_syms(ref_frame, p1, p2)) == (if ref_frame == 1 {
            coding::read_next(c, p1)
        } else {
            coding::read_next(coding::read_next(c, p1), p2)
        }),
{
    let all = single_ref_syms(ref_frame, p1, p2);
    if ref_frame == 1 {
        coding::lemma_holds_one(c, all[0]);
    } else {
        assert(all =~= seq![all[0]] + seq![all[1]]);
        coding::lemma_holds_concat(c, seq![all[0]], seq![all[1]]);
        coding::lemma_holds_one(c, all[0]);
        coding::lemma_holds_one(coding::read_next(c, p1), all[1]);
    }
}

} // verus!
