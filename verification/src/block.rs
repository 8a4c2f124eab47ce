//! Blocks: their mode information, the contexts that neighbours give, and the
//! reading of partitions, modes and transform sizes.
use vstd::prelude::*;

use crate::bits::BoolDecoder;
use crate::coding;
use crate::coding::Cursor;
use crate::geom_tables::{
    B_HEIGHT_LOG2, B_WIDTH_LOG2, MAX_TXSIZE, PARTITION_CTX_ABOVE, PARTITION_CTX_LEFT, SUBSIZE_LOOKUP, TX_MODE_TO_BIGGEST_TX,
};
use crate::prob_tables;
use crate::prob_tables::KF_UV_MODE_PROBS;
use crate::token;
use crate::token::read_tree;

verus! {

pub const BLOCK_8X8: usize = 3;

pub const BLOCK_64X64: usize = 12;

/// In [`SUBSIZE_LOOKUP`](crate::geom_tables::SUBSIZE_LOOKUP): no such block.
pub const BLOCK_INVALID: u8 = 13;

pub const DC_PRED: u8 = 0;

pub const TM_PRED: u8 = 9;

pub const INTRA_MODES: usize = 10;

pub const PARTITION_NONE: usize = 0;

pub const PARTITION_HORZ: usize = 1;

pub const PARTITION_VERT: usize = 2;

pub const PARTITION_SPLIT: usize = 3;

/// The transform mode in which each block states its transform size.
pub const TX_MODE_SELECT: usize = 4;

/// Selects a row within a 64x64 block, in units of eight pixels.
pub const MI_MASK: usize = 7;

/// The tree of intra modes: DC, TM, V, then the rest.
pub const INTRA_MODE_TREE: [i8; 18] = [
    0,
    2,
    -9,
    4,
    -1,
    6,
    8,
    12,
    -2,
    10,
    -4,
    -5,
    -3,
    14,
    -8,
    16,
    -6,
    -7,
];

/// The tree of partitions: none, horizontal, vertical, split.
pub const PARTITION_TREE: [i8; 6] = [0, 2, -1, 4, -2, -3];

/// A motion vector in eighths of a pixel: row, column.
pub type Mv = (i32, i32);

pub const NONE_FRAME: i8 = -1;

pub const INTRA_FRAME: i8 = 0;

pub const LAST_FRAME: i8 = 1;

pub const GOLDEN_FRAME: i8 = 2;

pub const ALTREF_FRAME: i8 = 3;

// The inter modes follow the intra modes.
pub const NEARESTMV: u8 = 10;

pub const NEARMV: u8 = 11;

pub const ZEROMV: u8 = 12;

pub const NEWMV: u8 = 13;

/// The mode information of a block, of a key frame or of an inter frame.
#[derive(Clone, Copy, Debug)]
pub struct ModeInfo {
    /// The block size.
    pub sb_type: u8,
    /// The luma mode, or the inter mode from [`NEARESTMV`] on.
    pub mode: u8,
    /// The luma modes of the four parts of a block below 8x8.
    pub bmi: [u8; 4],
    /// The chroma mode.
    pub uv_mode: u8,
    /// Whether the block has no residual.
    pub skip: bool,
    /// The transform size.
    pub tx_size: u8,
    pub is_inter: bool,
    /// The references, [`NONE_FRAME`] for a missing second one.
    pub ref_frame: [i8; 2],
    /// The motion vector of each reference.
    pub mv: [Mv; 2],
    /// The motion vectors of the four parts of a block below 8x8.
    pub bmi_mv: [[Mv; 2]; 4],
    /// The interpolation filter, 3 where there is none.
    pub interp_filter: u8,
    pub segment_id: u8,
    pub seg_id_predicted: bool,
}

/// The mode information of a block that nothing has been said of.
pub open spec fn is_default_mode_info(m: ModeInfo) -> bool {
    &&& m.sb_type == 12
    &&& m.mode == DC_PRED
    &&& m.bmi@ == seq![DC_PRED, DC_PRED, DC_PRED, DC_PRED]
    &&& m.uv_mode == DC_PRED
    &&& !m.skip
    &&& m.tx_size == 0
    &&& !m.is_inter
    &&& m.ref_frame@ == seq![INTRA_FRAME, NONE_FRAME]
    &&& m.mv@ == seq![(0i32, 0i32), (0i32, 0i32)]
    &&& forall|i: int| 0 <= i < 4 ==> (#[trigger] m.bmi_mv[i])@ == seq![(0i32, 0i32), (0i32, 0i32)]
    &&& m.interp_filter == 3
    &&& m.segment_id == 0
    &&& !m.seg_id_predicted
}

impl Default for ModeInfo {
    fn default() -> (m: ModeInfo)
        ensures
            is_default_mode_info(m),
    {
        let zero: [Mv; 2] = [(0, 0), (0, 0)];
        ModeInfo {
            sb_type: 12,
            mode: DC_PRED,
            bmi: [DC_PRED, DC_PRED, DC_PRED, DC_PRED],
            uv_mode: DC_PRED,
            skip: false,
            tx_size: 0,
            is_inter: false,
            ref_frame: [INTRA_FRAME, NONE_FRAME],
            mv: zero,
            bmi_mv: [zero, zero, zero, zero],
            interp_filter: 3,
            segment_id: 0,
            seg_id_predicted: false,
        }
    }
}

impl ModeInfo {
    /// The luma mode of part `block`.
    pub open spec fn y_mode(&self, block: int) -> u8 {
        if self.sb_type < 3 {
            self.bmi[block]
        } else {
            self.mode
        }
    }

    /// The first reference is a frame.
    pub open spec fn inter(&self) -> bool {
        self.ref_frame[0] > INTRA_FRAME
    }

    /// The second reference is a frame.
    pub open spec fn compound(&self) -> bool {
        self.ref_frame[1] > INTRA_FRAME
    }

    /// The luma mode of part `block`: blocks below 8x8 have one for each part.
    pub fn get_y_mode(&self, block: usize) -> (r: u8)
        requires
            self.sb_type < 3 ==> block < 4,
        ensures
            r == self.y_mode(block as int),
    {
        if (self.sb_type as usize) < BLOCK_8X8 {
            self.bmi[block]
        } else {
            self.mode
        }
    }

    /// Whether the block is predicted from another frame.
    pub fn is_inter_block(&self) -> (r: bool)
        ensures
            r == self.inter(),
    {
        self.ref_frame[0] > INTRA_FRAME
    }

    /// Whether the block is predicted from two frames.
    pub fn has_second_ref(&self) -> (r: bool)
        ensures
            r == self.compound(),
    {
        self.ref_frame[1] > INTRA_FRAME
    }
}

// ---------------------------------------------------------------------------
// Contexts
// ---------------------------------------------------------------------------

/// The luma mode that part `b` of `cur` has above it.
pub open spec fn mode_above(cur: ModeInfo, above: Option<&ModeInfo>, b: int) -> u8 {
    if b == 0 || b == 1 {
        match above {
            Some(a) => if a.is_inter {
                DC_PRED
            } else {
                a.y_mode(b + 2)
            },
            None => DC_PRED,
        }
    } else {
        cur.bmi[b - 2]
    }
}

/// The luma mode that part `b` of `cur` has to its left.
pub open spec fn mode_left(cur: ModeInfo, left: Option<&ModeInfo>, b: int) -> u8 {
    if b == 0 || b == 2 {
        match left {
            Some(l) => if l.is_inter {
                DC_PRED
            } else {
                l.y_mode(b + 1)
            },
            None => DC_PRED,
        }
    } else {
        cur.bmi[b - 1]
    }
}

/// The luma mode above part `b`: of the neighbour for the upper parts, of the block
/// itself for the lower ones. A neighbour that is missing or inter counts as DC.
pub fn above_block_mode(cur: &ModeInfo, above: Option<&ModeInfo>, b: usize) -> (r: u8)
    requires
        b <= 5,
    ensures
        r == mode_above(*cur, above, b as int),
{
    if b == 0 || b == 1 {
        match above {
            Some(a) => if a.is_inter {
                DC_PRED
            } else {
                a.get_y_mode(b + 2)
            },
            None => DC_PRED,
        }
    } else {
        cur.bmi[b - 2]
    }
}

/// The luma mode to the left of part `b`, likewise.
pub fn left_block_mode(cur: &ModeInfo, left: Option<&ModeInfo>, b: usize) -> (r: u8)
    requires
        b <= 4,
    ensures
        r == mode_left(*cur, left, b as int),
{
    if b == 0 || b == 2 {
        match left {
            Some(l) => if l.is_inter {
                DC_PRED
            } else {
                l.get_y_mode(b + 1)
            },
            None => DC_PRED,
        }
    } else {
        cur.bmi[b - 1]
    }
}

/// The luma mode probabilities of part `b` in a key frame.
pub fn kf_y_mode_probs(
    cur: &ModeInfo,
    above: Option<&ModeInfo>,
    left: Option<&ModeInfo>,
    b: usize,
) -> (r: &'static [u8; 9])
    requires
        b <= 4,
        mode_above(*cur, above, b as int) < 10,
        mode_left(*cur, left, b as int) < 10,
    ensures
        *r == prob_tables::kf_y_mode_row(
            mode_above(*cur, above, b as int) as int,
            mode_left(*cur, left, b as int) as int,
        ),
{
    let a: usize = above_block_mode(cur, above, b) as usize;
    let l: usize = left_block_mode(cur, left, b) as usize;
    prob_tables::kf_y_mode_entry(a, l)
}

/// The chroma mode probabilities in a key frame.
pub fn kf_uv_mode_probs(y_mode: u8) -> (r: &'static [u8; 9])
    requires
        y_mode < 10,
    ensures
        *r == KF_UV_MODE_PROBS[y_mode as int],
{
    &KF_UV_MODE_PROBS[y_mode as usize]
}

pub open spec fn flag(b: bool) -> int {
    if b {
        1
    } else {
        0
    }
}

/// How many of the neighbours are there and have no residual.
pub open spec fn skip_ctx(above: Option<&ModeInfo>, left: Option<&ModeInfo>) -> int {
    flag(above is Some && above.unwrap().skip) + flag(left is Some && left.unwrap().skip)
}

/// How many of the neighbours are there and have no residual.
pub fn skip_context(above: Option<&ModeInfo>, left: Option<&ModeInfo>) -> (r: usize)
    ensures
        r == skip_ctx(above, left),
        r <= 2,
{
    let a: usize = match above {
        Some(m) => if m.skip {
            1
        } else {
            0
        },
        None => 0,
    };
    let l: usize = match left {
        Some(m) => if m.skip {
            1
        } else {
            0
        },
        None => 0,
    };
    a + l
}

/// What a neighbour contributes to the transform size context: its transform size,
/// or the largest there can be where it has no residual.
pub open spec fn tx_side(m: &ModeInfo, max_tx_size: int) -> int {
    if m.skip {
        max_tx_size
    } else {
        m.tx_size as int
    }
}

/// Whether the neighbours' transforms are together larger than the largest that
/// fits the block. A missing neighbour counts as the other one; if both are
/// missing, each counts as the largest.
pub open spec fn tx_size_ctx(
    max_tx_size: int,
    above: Option<&ModeInfo>,
    left: Option<&ModeInfo>,
) -> int {
    let sum = match (above, left) {
        (Some(a), Some(l)) => tx_side(a, max_tx_size) + tx_side(l, max_tx_size),
        (Some(a), None) => 2 * tx_side(a, max_tx_size),
        (None, Some(l)) => 2 * tx_side(l, max_tx_size),
        (None, None) => 2 * max_tx_size,
    };
    flag(sum > max_tx_size)
}

/// The context of the transform size of `cur`.
pub fn tx_size_context(
    cur: &ModeInfo,
    above: Option<&ModeInfo>,
    left: Option<&ModeInfo>,
) -> (r: usize)
    requires
        cur.sb_type < 13,
    ensures
        r == tx_size_ctx(MAX_TXSIZE[cur.sb_type as int] as int, above, left),
        r <= 1,
{
    let max_tx_size: i32 = MAX_TXSIZE[cur.sb_type as usize] as i32;
    let mut above_ctx: i32 = match above {
        Some(a) => if a.skip {
            max_tx_size
        } else {
            a.tx_size as i32
        },
        None => max_tx_size,
    };
    let mut left_ctx: i32 = match left {
        Some(l) => if l.skip {
            max_tx_size
        } else {
            l.tx_size as i32
        },
        None => max_tx_size,
    };
    if left.is_none() {
        left_ctx = above_ctx;
    }
    if above.is_none() {
        above_ctx = left_ctx;
    }
    if above_ctx + left_ctx > max_tx_size {
        1
    } else {
        0
    }
}

/// Bit `i` of `v`.
pub open spec fn bit_at(v: u8, i: nat) -> int {
    (v as int / vstd::arithmetic::power2::pow2(i) as int) % 2
}

/// The context of a partition: whether the blocks to the left and above are
/// smaller, for each of the four levels.
pub open spec fn partition_ctx(above: u8, left: u8, bsl: nat) -> int {
    2 * bit_at(left, bsl) + bit_at(above, bsl) + 4 * bsl
}

/// The context of the partition at `mi_row`, `mi_col` on level `bsl`.
pub fn partition_plane_context(
    above_seg: &[u8],
    left_seg: &[u8],
    mi_row: usize,
    mi_col: usize,
    bsl: usize,
) -> (r: usize)
    requires
        mi_col < above_seg@.len(),
        mi_row % 8 < left_seg@.len(),
        bsl < 8,
    ensures
        r == partition_ctx(above_seg@[mi_col as int], left_seg@[mi_row as int % 8], bsl as nat),
        r < 4 * bsl + 4,
{
    assert(mi_row & 7 == mi_row % 8) by (bit_vector);
    let a: u8 = above_seg[mi_col];
    let l: u8 = left_seg[mi_row & MI_MASK];
    let k: u8 = bsl as u8;
    proof {
        vstd::bits::lemma_u8_shr_is_div(a, k);
        vstd::bits::lemma_u8_shr_is_div(l, k);
        let (p, q) = (a >> k, l >> k);
        assert(p & 1 == p % 2) by (bit_vector);
        assert(q & 1 == q % 2) by (bit_vector);
    }
    let above: u8 = (a >> k) & 1;
    let left: u8 = (l >> k) & 1;
    (left as usize * 2 + above as usize) + bsl * 4
}

/// Leaves the partition context of a block of size `subsize` below and to the right
/// of a square of `bw` units of eight pixels.
pub fn update_partition_context(
    above_seg: &mut [u8],
    left_seg: &mut [u8],
    mi_row: usize,
    mi_col: usize,
    subsize: usize,
    bw: usize,
)
    requires
        subsize < 13,
        mi_col + bw <= old(above_seg)@.len(),
        mi_row % 8 + bw <= old(left_seg)@.len(),
    ensures
        final(above_seg)@ == old(above_seg)@.map(
            |i: int, v: u8|
                if mi_col <= i < mi_col + bw {
                    PARTITION_CTX_ABOVE[subsize as int]
                } else {
                    v
                },
        ),
        final(left_seg)@ == old(left_seg)@.map(
            |i: int, v: u8|
                if mi_row % 8 <= i < mi_row % 8 + bw {
                    PARTITION_CTX_LEFT[subsize as int]
                } else {
                    v
                },
        ),
{
    let a: u8 = PARTITION_CTX_ABOVE[subsize];
    let l: u8 = PARTITION_CTX_LEFT[subsize];
    assert(mi_row & 7 == mi_row % 8) by (bit_vector);
    let row: usize = mi_row & MI_MASK;
    let above_len: usize = above_seg.len();
    let left_len: usize = left_seg.len();
    let mut i: usize = 0;
    while i < bw
        invariant
            i <= bw,
            above_len == above_seg@.len(),
            left_len == left_seg@.len(),
            row == mi_row % 8,
            above_seg@.len() == old(above_seg)@.len(),
            left_seg@.len() == old(left_seg)@.len(),
            mi_col + bw <= above_seg@.len(),
            row + bw <= left_seg@.len(),
            forall|j: int|
                0 <= j < above_seg@.len() ==> above_seg@[j] == (if mi_col <= j < mi_col + i {
                    a
                } else {
                    old(above_seg)@[j]
                }),
            forall|j: int|
                0 <= j < left_seg@.len() ==> left_seg@[j] == (if row <= j < row + i {
                    l
                } else {
                    old(left_seg)@[j]
                }),
        decreases bw - i,
    {
        above_seg[mi_col + i] = a;
        left_seg[row + i] = l;
        i = i + 1;
    }
}

/// The size of the parts into which `partition` cuts a block of size `bsize`;
/// [`BLOCK_INVALID`] where it cannot.
pub fn subsize(partition: usize, bsize: usize) -> (r: u8)
    requires
        partition < 4,
        bsize < 13,
    ensures
        r == SUBSIZE_LOOKUP[partition as int][bsize as int],
{
    SUBSIZE_LOOKUP[partition][bsize]
}

// ---------------------------------------------------------------------------
// Reading
// ---------------------------------------------------------------------------

/// The partition tree is one, and its leaves are the partitions.
pub proof fn lemma_partition_tree()
    ensures
        token::is_tree(PARTITION_TREE@, 3),
        forall|s: int| #[trigger] token::in_tree(PARTITION_TREE@, s) <==> 0 <= s < 4,
{
    reveal_with_fuel(token::tree_ok, 4);
    reveal_with_fuel(token::has_leaf, 4);
}

/// The tree of intra modes is one, and its leaves are the modes.
pub proof fn lemma_intra_mode_tree()
    ensures
        token::is_tree(INTRA_MODE_TREE@, 9),
        forall|s: int| #[trigger] token::in_tree(INTRA_MODE_TREE@, s) <==> 0 <= s < 10,
{
    reveal_with_fuel(token::tree_ok, 8);
    reveal_with_fuel(token::has_leaf, 8);
}

/// The partition read from `c`: only the choices that the frame's edges leave
/// open are coded.
pub open spec fn partition_read(
    c: Cursor,
    probs: Seq<u8>,
    has_rows: bool,
    has_cols: bool,
) -> (int, Cursor) {
    if has_rows && has_cols {
        (
            token::tree_read(c, PARTITION_TREE@, probs),
            token::tree_done(c, PARTITION_TREE@, probs),
        )
    } else if has_cols {
        (
            if coding::read_bit(c, probs[1]) {
                3
            } else {
                1
            },
            coding::read_next(c, probs[1]),
        )
    } else if has_rows {
        (
            if coding::read_bit(c, probs[2]) {
                3
            } else {
                2
            },
            coding::read_next(c, probs[2]),
        )
    } else {
        (3, c)
    }
}

/// Reads a partition. `has_rows` and `has_cols` say whether the lower and the right
/// half lie inside the frame.
pub fn read_partition(
    bd: &mut BoolDecoder,
    probs: &[u8; 3],
    has_rows: bool,
    has_cols: bool,
) -> (r: usize)
    requires
        old(bd).wf(),
    ensures
        final(bd).wf(),
        (r as int, final(bd)@) == partition_read(old(bd)@, probs@, has_rows, has_cols),
        r < 4,
{
    if has_rows && has_cols {
        proof {
            lemma_partition_tree();
        }
        read_tree(bd, &PARTITION_TREE, probs) as usize
    } else if !has_rows && has_cols {
        if bd.read_bool(probs[1]) != 0 {
            PARTITION_SPLIT
        } else {
            PARTITION_HORZ
        }
    } else if has_rows && !has_cols {
        if bd.read_bool(probs[2]) != 0 {
            PARTITION_SPLIT
        } else {
            PARTITION_VERT
        }
    } else {
        PARTITION_SPLIT
    }
}

/// The intra mode read from `c`.
pub open spec fn intra_mode_read(c: Cursor, probs: Seq<u8>) -> (int, Cursor) {
    (
        token::tree_read(c, INTRA_MODE_TREE@, probs),
        token::tree_done(c, INTRA_MODE_TREE@, probs),
    )
}

/// Reads an intra mode.
pub fn read_intra_mode(bd: &mut BoolDecoder, probs: &[u8; 9]) -> (r: u8)
    requires
        old(bd).wf(),
    ensures
        final(bd).wf(),
        (r as int, final(bd)@) == intra_mode_read(old(bd)@, probs@),
        r < 10,
{
    proof {
        lemma_intra_mode_tree();
    }
    read_tree(bd, &INTRA_MODE_TREE, probs) as u8
}

/// The transform size read from `c`: one bit for each size that is passed over, up
/// to `max_tx_size`.
pub open spec fn selected_tx_read(c: Cursor, probs: Seq<u8>, max_tx_size: int) -> (int, Cursor) {
    let c1 = coding::read_next(c, probs[0]);
    if !coding::read_bit(c, probs[0]) {
        (0, c1)
    } else if max_tx_size < 2 {
        (1, c1)
    } else {
        let c2 = coding::read_next(c1, probs[1]);
        if !coding::read_bit(c1, probs[1]) {
            (1, c2)
        } else if max_tx_size < 3 {
            (2, c2)
        } else {
            (2 + flag(coding::read_bit(c2, probs[2])), coding::read_next(c2, probs[2]))
        }
    }
}

/// Reads a transform size of at most `max_tx_size`.
pub fn read_selected_tx_size(bd: &mut BoolDecoder, tx_probs: &[u8], max_tx_size: usize) -> (r: u8)
    requires
        old(bd).wf(),
        tx_probs@.len() >= 1,
        max_tx_size >= 2 ==> tx_probs@.len() >= 2,
        max_tx_size >= 3 ==> tx_probs@.len() >= 3,
    ensures
        final(bd).wf(),
        (r as int, final(bd)@) == selected_tx_read(old(bd)@, tx_probs@, max_tx_size as int),
        r <= 3,
        max_tx_size >= 1 ==> r <= max_tx_size,
{
    let mut tx_size: usize = bd.read_bool(tx_probs[0]) as usize;
    if tx_size != 0 && max_tx_size >= 2 {
        tx_size = tx_size + bd.read_bool(tx_probs[1]) as usize;
        if tx_size != 1 && max_tx_size >= 3 {
            tx_size = tx_size + bd.read_bool(tx_probs[2]) as usize;
        }
    }
    tx_size as u8
}

/// The transform size of a block of size `bsize`: coded where the frame lets each
/// block choose, else the largest that the block and the transform mode allow.
pub open spec fn tx_size_read(
    c: Cursor,
    bsize: int,
    tx_mode: int,
    allow_select: bool,
    probs: Seq<u8>,
) -> (int, Cursor) {
    let max_tx_size = MAX_TXSIZE[bsize] as int;
    if allow_select && tx_mode == TX_MODE_SELECT && bsize >= BLOCK_8X8 {
        selected_tx_read(c, probs, max_tx_size)
    } else {
        (crate::adapt::min_int(max_tx_size, TX_MODE_TO_BIGGEST_TX[tx_mode] as int), c)
    }
}

/// Reads or derives the transform size of a block.
pub fn read_tx_size(
    bd: &mut BoolDecoder,
    bsize: usize,
    tx_mode: usize,
    allow_select: bool,
    tx_probs: &[u8],
    ctx_max_tx_probs: usize,
) -> (r: u8)
    requires
        old(bd).wf(),
        bsize < 13,
        tx_mode < 5,
        allow_select && tx_mode == TX_MODE_SELECT && bsize >= BLOCK_8X8 ==> tx_probs@.len()
            >= MAX_TXSIZE[bsize as int],
    ensures
        final(bd).wf(),
        (r as int, final(bd)@) == tx_size_read(
            old(bd)@,
            bsize as int,
            tx_mode as int,
            allow_select,
            tx_probs@,
        ),
{
    let _ = ctx_max_tx_probs;
    let max_tx_size: usize = MAX_TXSIZE[bsize] as usize;
    if allow_select && tx_mode == TX_MODE_SELECT && bsize >= BLOCK_8X8 {
        assert(forall|i: int| 3 <= i < 13 ==> #[trigger] MAX_TXSIZE[i] >= 1);
        read_selected_tx_size(bd, tx_probs, max_tx_size)
    } else {
        let cap: usize = TX_MODE_TO_BIGGEST_TX[tx_mode] as usize;
        assert(forall|i: int| 0 <= i < 13 ==> #[trigger] MAX_TXSIZE[i] <= 3);
        if max_tx_size < cap {
            max_tx_size as u8
        } else {
            cap as u8
        }
    }
}

// ---------------------------------------------------------------------------
// Laws
// ---------------------------------------------------------------------------

/// The parts of a block below 8x8 lie row by row: a lower part has the part over it above,
/// a right part the one before it to the left. The upper and the left parts have the part
/// of the neighbour that they touch: its lower row above, its right column to the left.
pub proof fn law_modes_around_parts(cur: ModeInfo, a: &ModeInfo, l: &ModeInfo)
    ensures
        mode_above(cur, Some(a), 2) == cur.bmi[0],
        mode_above(cur, Some(a), 3) == cur.bmi[1],
        mode_left(cur, Some(l), 1) == cur.bmi[0],
        mode_left(cur, Some(l), 3) == cur.bmi[2],
        !a.is_inter && a.sb_type < 3 ==> mode_above(cur, Some(a), 0) == a.bmi[2] && mode_above(
            cur,
            Some(a),
            1,
        ) == a.bmi[3],
        !l.is_inter && l.sb_type < 3 ==> mode_left(cur, Some(l), 0) == l.bmi[1] && mode_left(
            cur,
            Some(l),
            2,
        ) == l.bmi[3],
        !a.is_inter && a.sb_type >= 3 ==> mode_above(cur, Some(a), 0) == a.mode && mode_above(
            cur,
            Some(a),
            1,
        ) == a.mode,
        !l.is_inter && l.sb_type >= 3 ==> mode_left(cur, Some(l), 0) == l.mode && mode_left(
            cur,
            Some(l),
            2,
        ) == l.mode,
{
}

/// A neighbour that is missing or inter counts as DC.
pub proof fn law_missing_modes_are_dc(cur: ModeInfo, m: Option<&ModeInfo>)
    requires
        m is None || m.unwrap().is_inter,
    ensures
        mode_above(cur, m, 0) == 0,
        mode_above(cur, m, 1) == 0,
        mode_left(cur, m, 0) == 0,
        mode_left(cur, m, 2) == 0,
{
}

/// The context of a residual is the number of neighbours without one.
pub proof fn law_skip_context_counts(a: &ModeInfo, l: &ModeInfo)
    ensures
        skip_ctx(None, None) == 0,
        a.skip <==> skip_ctx(Some(a), None) == 1,
        a.skip <==> skip_ctx(None, Some(a)) == 1,
        !a.skip <==> skip_ctx(Some(a), None) == 0,
        a.skip && l.skip <==> skip_ctx(Some(a), Some(l)) == 2,
        a.skip != l.skip <==> skip_ctx(Some(a), Some(l)) == 1,
        !a.skip && !l.skip <==> skip_ctx(Some(a), Some(l)) == 0,
{
}

/// The context of the transform size tells whether the transforms around are together
/// larger than the largest that fits. A neighbour without residual counts as the largest,
/// a missing one as the other.
pub proof fn law_tx_context_compares(max_tx: int, a: &ModeInfo, l: &ModeInfo)
    requires
        1 <= max_tx <= 3,
    ensures
        tx_size_ctx(max_tx, None, None) == 1,
        tx_size_ctx(max_tx, Some(a), None) == tx_size_ctx(max_tx, Some(a), Some(a)),
        tx_size_ctx(max_tx, None, Some(a)) == tx_size_ctx(max_tx, Some(a), Some(a)),
        tx_size_ctx(max_tx, Some(a), Some(l)) == tx_size_ctx(max_tx, Some(l), Some(a)),
        !a.skip && !l.skip ==> (tx_size_ctx(max_tx, Some(a), Some(l)) == 1 <==> a.tx_size
            + l.tx_size > max_tx),
        !a.skip && l.skip ==> (tx_size_ctx(max_tx, Some(a), Some(l)) == 1 <==> a.tx_size > 0),
        a.skip && l.skip ==> tx_size_ctx(max_tx, Some(a), Some(l)) == 1,
        0 <= tx_size_ctx(max_tx, Some(a), Some(l)) <= 1,
{
}

/// The context that a block leaves says, for each of the four squares, whether the block is
/// narrower below it, and whether it is lower to its right: bit `level` stands for the
/// square of eight pixels times two to the `level`.
pub proof fn law_partition_context_tells_size(bsize: int, level: nat)
    requires
        0 <= bsize < 13,
        level < 4,
    ensures
        ({
            let (w, h) = (B_WIDTH_LOG2[bsize] as int, B_HEIGHT_LOG2[bsize] as int);
            &&& bit_at(PARTITION_CTX_ABOVE[bsize], level) == (if w < level + 1 {
                1int
            } else {
                0
            })
            &&& bit_at(PARTITION_CTX_LEFT[bsize], level) == (if h < level + 1 {
                1int
            } else {
                0
            })
        }),
{
    vstd::arithmetic::power2::lemma2_to64();
    let (a, l) = (PARTITION_CTX_ABOVE[bsize], PARTITION_CTX_LEFT[bsize]);
    if level == 0 {
        assert(bit_at(a, 0) == (a as int) % 2 && bit_at(l, 0) == (l as int) % 2);
    } else if level == 1 {
        assert(bit_at(a, 1) == (a as int / 2) % 2 && bit_at(l, 1) == (l as int / 2) % 2);
    } else if level == 2 {
        assert(bit_at(a, 2) == (a as int / 4) % 2 && bit_at(l, 2) == (l as int / 4) % 2);
    } else {
        assert(bit_at(a, 3) == (a as int / 8) % 2 && bit_at(l, 3) == (l as int / 8) % 2);
    }
}

/// The context of a partition tells apart the four squares, and for each whether what lies
/// to the left is smaller and whether what lies above is: the first counts twice.
pub proof fn law_partition_context_by_sides(above: u8, left: u8, level: nat)
    requires
        level < 4,
    ensures
        ({
            let c = partition_ctx(above, left, level);
            let (a, l) = (bit_at(above, level), bit_at(left, level));
            &&& 4 * level <= c < 4 * level + 4
            &&& l == 1 <==> c >= 4 * level + 2
            &&& a == 1 <==> (c == 4 * level + 1 || c == 4 * level + 3)
        }),
{
    vstd::arithmetic::power2::lemma2_to64();
}

/// A square that is cut across has parts of its width and half its height, one that is cut
/// upright of half its width and its height, one that is split of half of both. No other
/// size can be cut.
pub proof fn law_parts_are_halves(bsize: int)
    requires
        0 <= bsize < 13,
    ensures
        ({
            let (w, h) = (B_WIDTH_LOG2[bsize], B_HEIGHT_LOG2[bsize]);
            let across = SUBSIZE_LOOKUP[1][bsize] as int;
            let upright = SUBSIZE_LOOKUP[2][bsize] as int;
            let split = SUBSIZE_LOOKUP[3][bsize] as int;
            &&& SUBSIZE_LOOKUP[0][bsize] == bsize
            &&& w == h && w >= 1 ==> {
                &&& across < 13 && B_WIDTH_LOG2[across] == w && B_HEIGHT_LOG2[across] == h - 1
                &&& upright < 13 && B_WIDTH_LOG2[upright] == w - 1 && B_HEIGHT_LOG2[upright] == h
                &&& split < 13 && B_WIDTH_LOG2[split] == w - 1 && B_HEIGHT_LOG2[split] == h - 1
            }
            &&& w != h || w == 0 ==> across == 13 && upright == 13 && split == 13
        }),
{
}

/// The largest transform that fits a block is as wide as its shorter side, up to 32 pixels.
pub proof fn law_largest_transform_fits(bsize: int)
    requires
        0 <= bsize < 13,
    ensures
        ({
            let (w, h) = (B_WIDTH_LOG2[bsize], B_HEIGHT_LOG2[bsize]);
            let short = if w < h {
                w
            } else {
                h
            };
            MAX_TXSIZE[bsize] == (if short < 3 {
                short
            } else {
                3
            })
        }),
{
}

/// A partition is none if the first bit is 0, across if the second is, upright if the third
/// is, and split if none is; at the lower or the right edge of the frame only the bit
/// between that cut and split is coded, in the corner nothing.
pub proof fn law_partition_by_bits(c: Cursor, probs: Seq<u8>)
    requires
        probs.len() == 3,
    ensures
        ({
            let c1 = coding::read_next(c, probs[0]);
            let c2 = coding::read_next(c1, probs[1]);
            let (p, d) = partition_read(c, probs, true, true);
            let (b0, b1, b2) = (
                coding::read_bit(c, probs[0]),
                coding::read_bit(c1, probs[1]),
                coding::read_bit(c2, probs[2]),
            );
            &&& !b0 ==> p == 0 && d == c1
            &&& b0 && !b1 ==> p == 1 && d == c2
            &&& b0 && b1 && !b2 ==> p == 2 && d == coding::read_next(c2, probs[2])
            &&& b0 && b1 && b2 ==> p == 3 && d == coding::read_next(c2, probs[2])
            &&& partition_read(c, probs, false, true) == (
                if coding::read_bit(c, probs[1]) {
                    3int
                } else {
                    1
                },
                coding::read_next(c, probs[1]),
            )
            &&& partition_read(c, probs, true, false) == (
                if coding::read_bit(c, probs[2]) {
                    3int
                } else {
                    2
                },
                coding::read_next(c, probs[2]),
            )
            &&& partition_read(c, probs, false, false) == (3int, c)
        }),
{
    reveal_with_fuel(token::tree_value, 4);
    reveal_with_fuel(token::tree_after, 4);
}

/// The intra modes in the order in which bits tell them apart: DC, TM, V; then either H,
/// D135, D117 or D45, D63, D153, D207.
pub proof fn law_intra_mode_by_bits(c: Cursor, probs: Seq<u8>)
    requires
        probs.len() == 9,
    ensures
        ({
            let m = intra_mode_read(c, probs).0;
            let c1 = coding::read_next(c, probs[0]);
            let c2 = coding::read_next(c1, probs[1]);
            let c3 = coding::read_next(c2, probs[2]);
            let c4 = coding::read_next(c3, probs[3]);
            let rest = coding::read_bit(c, probs[0]) && coding::read_bit(c1, probs[1])
                && coding::read_bit(c2, probs[2]);
            let other = coding::read_bit(c3, probs[3]);
            &&& !coding::read_bit(c, probs[0]) <==> m == 0
            &&& coding::read_bit(c, probs[0]) && !coding::read_bit(c1, probs[1]) <==> m == 9
            &&& coding::read_bit(c, probs[0]) && coding::read_bit(c1, probs[1])
                && !coding::read_bit(c2, probs[2]) <==> m == 1
            &&& rest && !other && !coding::read_bit(c4, probs[4]) <==> m == 2
            &&& rest && !other && coding::read_bit(c4, probs[4]) && !coding::read_bit(
                coding::read_next(c4, probs[4]),
                probs[5],
            ) <==> m == 4
            &&& rest && !other && coding::read_bit(c4, probs[4]) && coding::read_bit(
                coding::read_next(c4, probs[4]),
                probs[5],
            ) <==> m == 5
            &&& rest && other && !coding::read_bit(c4, probs[6]) <==> m == 3
            &&& rest && other && coding::read_bit(c4, probs[6]) && !coding::read_bit(
                coding::read_next(c4, probs[6]),
                probs[7],
            ) <==> m == 8
            &&& m == 6 || m == 7 ==> rest && other && coding::read_bit(c4, probs[6])
                && coding::read_bit(coding::read_next(c4, probs[6]), probs[7])
            &&& m == 7 ==> coding::read_bit(
                coding::read_next(coding::read_next(c4, probs[6]), probs[7]),
                probs[8],
            )
            &&& m == 6 ==> !coding::read_bit(
                coding::read_next(coding::read_next(c4, probs[6]), probs[7]),
                probs[8],
            )
        }),
{
    reveal_with_fuel(token::tree_value, 8);
}

/// A transform size is the number of 1 bits before the first 0 bit, up to the largest.
pub proof fn law_tx_size_counts_bits(c: Cursor, probs: Seq<u8>, max_tx: int)
    requires
        1 <= max_tx <= 3,
    ensures
        ({
            let c1 = coding::read_next(c, probs[0]);
            let c2 = coding::read_next(c1, probs[1]);
            let (b0, b1, b2) = (
                coding::read_bit(c, probs[0]),
                coding::read_bit(c1, probs[1]),
                coding::read_bit(c2, probs[2]),
            );
            let (t, d) = selected_tx_read(c, probs, max_tx);
            &&& 0 <= t <= max_tx
            &&& !b0 <==> t == 0
            &&& max_tx >= 2 && b0 ==> (!b1 <==> t == 1)
            &&& max_tx == 3 && b0 && b1 ==> (!b2 <==> t == 2)
            &&& !b0 || max_tx == 1 ==> d == c1
            &&& max_tx >= 2 && b0 && (!b1 || max_tx == 2) ==> d == c2
            &&& max_tx == 3 && b0 && b1 ==> d == coding::read_next(c2, probs[2])
        }),
{
}

} // verus!
