//! Writing the elements that all blocks have.
use vstd::prelude::*;

use crate::block;
use crate::block::{
    lemma_intra_mode_tree, lemma_partition_tree, INTRA_MODE_TREE, PARTITION_SPLIT, PARTITION_TREE,
};
use crate::coding;
use crate::coding::{sym, Cursor, Sym};
use crate::decode::segmentation::{lemma_segment_tree, SEGMENT_TREE};
use crate::encode::bitwriter::BoolEncoder;
use crate::token;

verus! {

/// A partition that can be coded where the lower or the right half of a square may lie
/// outside the frame.
pub open spec fn partition_codable(partition: int, has_rows: bool, has_cols: bool) -> bool {
    &&& 0 <= partition < 4
    &&& !has_rows ==> partition == 1 || partition == 3
    &&& !has_cols ==> partition == 2 || partition == 3
}

/// The binary decisions that say a partition.
pub open spec fn partition_syms(
    partition: int,
    probs: Seq<u8>,
    has_rows: bool,
    has_cols: bool,
) -> Seq<Sym> {
    if has_rows && has_cols {
        token::tree_syms(PARTITION_TREE@, probs, partition)
    } else if has_cols {
        seq![sym(partition == PARTITION_SPLIT, probs[1])]
    } else if has_rows {
        seq![sym(partition == PARTITION_SPLIT, probs[2])]
    } else {
        Seq::empty()
    }
}

/// The binary decisions that say a transform size of at most `max_tx`.
pub open spec fn tx_size_syms(tx_size: int, probs: Seq<u8>, max_tx: int) -> Seq<Sym> {
    let first = seq![sym(tx_size != 0, probs[0])];
    if tx_size == 0 || max_tx < 2 {
        first
    } else if tx_size == 1 || max_tx < 3 {
        first.push(sym(tx_size != 1, probs[1]))
    } else {
        first.push(sym(tx_size != 1, probs[1])).push(sym(tx_size != 2, probs[2]))
    }
}

/// The binary decisions that say an intra mode.
pub open spec fn intra_mode_syms(mode: int, probs: Seq<u8>) -> Seq<Sym> {
    token::tree_syms(INTRA_MODE_TREE@, probs, mode)
}

/// The binary decisions that say a segment.
pub open spec fn segment_syms(sid: int, probs: Seq<u8>) -> Seq<Sym> {
    token::tree_syms(SEGMENT_TREE@, probs, sid)
}

/// Writes a partition: only the choices that the frame's edges leave open.
pub fn write_partition(
    enc: &mut BoolEncoder,
    partition: usize,
    probs: &[u8; 3],
    has_rows: bool,
    has_cols: bool,
)
    requires
        old(enc).wf(),
        partition_codable(partition as int, has_rows, has_cols),
    ensures
        final(enc).wf(),
        final(enc)@ == old(enc)@ + partition_syms(partition as int, probs@, has_rows, has_cols),
{
    let ghost start = enc@;
    let ghost all = partition_syms(partition as int, probs@, has_rows, has_cols);
    if has_rows && has_cols {
        proof {
            lemma_partition_tree();
        }
        enc.write_tree(&PARTITION_TREE, probs, partition as i32);
    } else if has_cols {
        enc.write_bool((partition == PARTITION_SPLIT) as u32, probs[1]);
        assert(enc@ =~= start + all);
    } else if has_rows {
        enc.write_bool((partition == PARTITION_SPLIT) as u32, probs[2]);
        assert(enc@ =~= start + all);
    } else {
        assert(enc@ =~= start + all);
    }
}

/// Writes a transform size of at most `max_tx`: one bit for each size that is passed
/// over.
pub fn write_selected_tx_size(enc: &mut BoolEncoder, tx_size: u8, probs: &[u8], max_tx: usize)
    requires
        old(enc).wf(),
        probs@.len() >= 1,
        max_tx >= 2 ==> probs@.len() >= 2,
        max_tx >= 3 ==> probs@.len() >= 3,
    ensures
        final(enc).wf(),
        final(enc)@ == old(enc)@ + tx_size_syms(tx_size as int, probs@, max_tx as int),
{
    let ghost start = enc@;
    let ghost all = tx_size_syms(tx_size as int, probs@, max_tx as int);
    enc.write_bool((tx_size != 0) as u32, probs[0]);
    if tx_size != 0 && max_tx >= 2 {
        enc.write_bool((tx_size != 1) as u32, probs[1]);
        if tx_size != 1 && max_tx >= 3 {
            enc.write_bool((tx_size != 2) as u32, probs[2]);
        }
    }
    assert(enc@ =~= start + all);
}

/// Writes an intra mode.
pub fn write_intra_mode(enc: &mut BoolEncoder, mode: u8, probs: &[u8; 9])
    requires
        old(enc).wf(),
        mode < 10,
    ensures
        final(enc).wf(),
        final(enc)@ == old(enc)@ + intra_mode_syms(mode as int, probs@),
{
    proof {
        lemma_intra_mode_tree();
    }
    enc.write_tree(&INTRA_MODE_TREE, probs, mode as i32);
}

/// Writes whether a block has no coefficients.
pub fn write_skip(enc: &mut BoolEncoder, skip: bool, prob: u8)
    requires
        old(enc).wf(),
    ensures
        final(enc).wf(),
        final(enc)@ == old(enc)@.push(sym(skip, prob)),
{
    enc.write_bool(skip as u32, prob);
}

/// Writes the segment of a block.
pub fn write_segment_id(enc: &mut BoolEncoder, sid: u8, probs: &[u8; 7])
    requires
        old(enc).wf(),
        sid < 8,
    ensures
        final(enc).wf(),
        final(enc)@ == old(enc)@ + segment_syms(sid as int, probs@),
{
    proof {
        lemma_segment_tree();
    }
    enc.write_tree(&SEGMENT_TREE, probs, sid as i32);
}

/// Reading a partition gives back what was written.
pub proof fn law_partition_read_inverts_write(
    c: Cursor,
    partition: int,
    probs: Seq<u8>,
    has_rows: bool,
    has_cols: bool,
)
    requires
        partition_codable(partition, has_rows, has_cols),
        coding::holds(c, partition_syms(partition, probs, has_rows, has_cols)),
    ensures
        block::partition_read(c, probs, has_rows, has_cols) == (
            partition,
            coding::after(c, partition_syms(partition, probs, has_rows, has_cols)),
        ),
{
    let all = partition_syms(partition, probs, has_rows, has_cols);
    if has_rows && has_cols {
        lemma_partition_tree();
        token::law_tree_read_inverts_write(c, PARTITION_TREE@, probs, partition);
    } else if has_rows || has_cols {
        coding::lemma_holds_one(c, all[0]);
    }
}

/// Reading a transform size gives back what was written.
pub proof fn law_tx_size_read_inverts_write(c: Cursor, tx_size: int, probs: Seq<u8>, max_tx: int)
    requires
        0 <= tx_size <= max_tx <= 3,
        1 <= max_tx,
        coding::holds(c, tx_size_syms(tx_size, probs, max_tx)),
    ensures
        block::selected_tx_read(c, probs, max_tx) == (
            tx_size,
            coding::after(c, tx_size_syms(tx_size, probs, max_tx)),
        ),
{
    let all = tx_size_syms(tx_size, probs, max_tx);
    let c1 = coding::read_next(c, probs[0]);
    coding::lemma_holds_one(c, all[0]);
    if all.len() == 1 {
        assert(all =~= seq![all[0]]);
    } else {
        coding::lemma_holds_one(c1, all[1]);
        if all.len() == 2 {
            assert(all =~= seq![all[0]] + seq![all[1]]);
            coding::lemma_holds_concat(c, seq![all[0]], seq![all[1]]);
        } else {
            let c2 = coding::read_next(c1, probs[1]);
            assert(all =~= seq![all[0]] + (seq![all[1]] + seq![all[2]]));
            coding::lemma_holds_concat(c, seq![all[0]], seq![all[1]] + seq![all[2]]);
            coding::lemma_holds_concat(c1, seq![all[1]], seq![all[2]]);
            coding::lemma_holds_one(c2, all[2]);
        }
    }
}

/// Reading an intra mode gives back what was written.
pub proof fn law_intra_mode_read_inverts_write(c: Cursor, mode: int, probs: Seq<u8>)
    requires
        0 <= mode < 10,
        coding::holds(c, intra_mode_syms(mode, probs)),
    ensures
        token::tree_read(c, INTRA_MODE_TREE@, probs) == mode,
        token::tree_done(c, INTRA_MODE_TREE@, probs) == coding::after(
            c,
            intra_mode_syms(mode, probs),
        ),
{
    lemma_intra_mode_tree();
    token::law_tree_read_inverts_write(c, INTRA_MODE_TREE@, probs, mode);
}

/// Reading a segment gives back what was written.
pub proof fn law_segment_read_inverts_write(c: Cursor, sid: int, probs: Seq<u8>)
    requires
        0 <= sid < 8,
        coding::holds(c, segment_syms(sid, probs)),
    ensures
        token::tree_read(c, SEGMENT_TREE@, probs) == sid,
        token::tree_done(c, SEGMENT_TREE@, probs) == coding::after(c, segment_syms(sid, probs)),
{
    lemma_segment_tree();
    token::law_tree_read_inverts_write(c, SEGMENT_TREE@, probs, sid);
}

} // verus!
