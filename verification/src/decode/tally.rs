//! Counting: which symbols were coded, and how often.
use vstd::prelude::*;

use crate::decode::counts::{
    CoefCounts, EobCounts, FrameCounts, NmvComponentCounts, NmvCounts,
};

verus! {

/// A symbol that is counted, with its context.
pub enum Count {
    Skip(int, int),
    IntraInter(int, int),
    CompInter(int, int),
    CompRef(int, int),
    InterMode(int, int),
    YMode(int, int),
    UvMode(int, int),
    Partition(int, int),
    Interp(int, int),
    Tx8(int, int),
    Tx16(int, int),
    Tx32(int, int),
    SingleRef(int, int, int),
    MvJoint(int),
    MvSign(int, int),
    MvClass(int, int),
    MvClass0(int, int),
    MvFp(int, int),
    MvClass0Hp(int, int),
    MvHp(int, int),
    MvBit(int, int, int),
    MvClass0Fp(int, int, int),
}

/// There is such a symbol.
pub open spec fn counted(k: Count) -> bool {
    match k {
        Count::Skip(i, j) => 0 <= i < 3 && 0 <= j < 2,
        Count::IntraInter(i, j) => 0 <= i < 4 && 0 <= j < 2,
        Count::CompInter(i, j) => 0 <= i < 5 && 0 <= j < 2,
        Count::CompRef(i, j) => 0 <= i < 5 && 0 <= j < 2,
        Count::InterMode(i, j) => 0 <= i < 7 && 0 <= j < 4,
        Count::YMode(i, j) => 0 <= i < 4 && 0 <= j < 10,
        Count::UvMode(i, j) => 0 <= i < 10 && 0 <= j < 10,
        Count::Partition(i, j) => 0 <= i < 16 && 0 <= j < 4,
        Count::Interp(i, j) => 0 <= i < 4 && 0 <= j < 3,
        Count::Tx8(i, j) => 0 <= i < 2 && 0 <= j < 2,
        Count::Tx16(i, j) => 0 <= i < 2 && 0 <= j < 3,
        Count::Tx32(i, j) => 0 <= i < 2 && 0 <= j < 4,
        Count::SingleRef(i, j, b) => 0 <= i < 5 && 0 <= j < 2 && 0 <= b < 2,
        Count::MvJoint(j) => 0 <= j < 4,
        Count::MvSign(c, j) => 0 <= c < 2 && 0 <= j < 2,
        Count::MvClass(c, j) => 0 <= c < 2 && 0 <= j < 11,
        Count::MvClass0(c, j) => 0 <= c < 2 && 0 <= j < 2,
        Count::MvFp(c, j) => 0 <= c < 2 && 0 <= j < 4,
        Count::MvClass0Hp(c, j) => 0 <= c < 2 && 0 <= j < 2,
        Count::MvHp(c, j) => 0 <= c < 2 && 0 <= j < 2,
        Count::MvBit(c, i, b) => 0 <= c < 2 && 0 <= i < 10 && 0 <= b < 2,
        Count::MvClass0Fp(c, d, f) => 0 <= c < 2 && 0 <= d < 2 && 0 <= f < 4,
    }
}

impl FrameCounts {
    /// How often `k` was counted.
    pub open spec fn times(&self, k: Count) -> int {
        match k {
            Count::Skip(i, j) => self.skip[i][j] as int,
            Count::IntraInter(i, j) => self.intra_inter[i][j] as int,
            Count::CompInter(i, j) => self.comp_inter[i][j] as int,
            Count::CompRef(i, j) => self.comp_ref[i][j] as int,
            Count::InterMode(i, j) => self.inter_mode[i][j] as int,
            Count::YMode(i, j) => self.y_mode[i][j] as int,
            Count::UvMode(i, j) => self.uv_mode[i][j] as int,
            Count::Partition(i, j) => self.partition[i][j] as int,
            Count::Interp(i, j) => self.switchable_interp[i][j] as int,
            Count::Tx8(i, j) => self.tx_p8x8[i][j] as int,
            Count::Tx16(i, j) => self.tx_p16x16[i][j] as int,
            Count::Tx32(i, j) => self.tx_p32x32[i][j] as int,
            Count::SingleRef(i, j, b) => self.single_ref[i][j][b] as int,
            Count::MvJoint(j) => self.mv.joints[j] as int,
            Count::MvSign(c, j) => self.mv.comps[c].sign[j] as int,
            Count::MvClass(c, j) => self.mv.comps[c].classes[j] as int,
            Count::MvClass0(c, j) => self.mv.comps[c].class0[j] as int,
            Count::MvFp(c, j) => self.mv.comps[c].fp[j] as int,
            Count::MvClass0Hp(c, j) => self.mv.comps[c].class0_hp[j] as int,
            Count::MvHp(c, j) => self.mv.comps[c].hp[j] as int,
            Count::MvBit(c, i, b) => self.mv.comps[c].bits[i][b] as int,
            Count::MvClass0Fp(c, d, f) => self.mv.comps[c].class0_fp[d][f] as int,
        }
    }

    /// Every symbol can be counted `n` more times.
    pub open spec fn room(&self, n: int) -> bool {
        forall|k: Count| counted(k) ==> #[trigger] self.times(k) + n <= u32::MAX
    }
}

/// How often `k` stands in `log`.
pub open spec fn occurs(log: Seq<Count>, k: Count) -> int
    decreases log.len(),
{
    if log.len() == 0 {
        0
    } else {
        occurs(log.drop_last(), k) + (if log.last() == k {
            1int
        } else {
            0
        })
    }
}

/// `after` has counted what stands in `log` on top of what `before` had.
pub open spec fn tallied(before: FrameCounts, after: FrameCounts, log: Seq<Count>) -> bool {
    &&& forall|k: Count|
        counted(k) ==> #[trigger] after.times(k) == before.times(k) + occurs(log, k)
    &&& after.coef == before.coef
    &&& after.eob_branch == before.eob_branch
}

pub proof fn lemma_occurs_concat(a: Seq<Count>, b: Seq<Count>, k: Count)
    ensures
        occurs(a + b, k) == occurs(a, k) + occurs(b, k),
    decreases b.len(),
{
    if b.len() == 0 {
        assert(a + b =~= a);
    } else {
        lemma_occurs_concat(a, b.drop_last(), k);
        assert((a + b).drop_last() =~= a + b.drop_last());
    }
}

pub proof fn lemma_occurs_bound(a: Seq<Count>, k: Count)
    ensures
        0 <= occurs(a, k) <= a.len(),
    decreases a.len(),
{
    if a.len() > 0 {
        lemma_occurs_bound(a.drop_last(), k);
    }
}

/// Counting nothing.
pub proof fn lemma_tally_none(a: FrameCounts)
    ensures
        tallied(a, a, Seq::empty()),
{
}

/// Counting in two steps, and the room that is left.
pub proof fn lemma_tally(
    a: FrameCounts,
    b: FrameCounts,
    c: FrameCounts,
    l: Seq<Count>,
    m: Seq<Count>,
)
    requires
        tallied(a, b, l),
        tallied(b, c, m),
    ensures
        tallied(a, c, l + m),
{
    assert forall|k: Count| counted(k) implies #[trigger] c.times(k) == a.times(k) + occurs(
        l + m,
        k,
    ) by {
        lemma_occurs_concat(l, m, k);
        assert(b.times(k) == a.times(k) + occurs(l, k));
    }
}

/// The room that counting leaves.
pub proof fn lemma_tally_room(a: FrameCounts, b: FrameCounts, l: Seq<Count>, n: int)
    requires
        tallied(a, b, l),
        a.room(n),
    ensures
        b.room(n - l.len()),
{
    assert forall|k: Count| counted(k) implies #[trigger] b.times(k) + (n - l.len())
        <= u32::MAX by {
        lemma_occurs_bound(l, k);
        assert(a.times(k) + n <= u32::MAX);
    }
}

/// One symbol occurs once in a log of its own.
proof fn lemma_one(x: Count)
    ensures
        forall|k: Count|
            #[trigger] occurs(seq![x], k) == (if k == x {
                1int
            } else {
                0
            }),
{
    assert forall|k: Count| #[trigger] occurs(seq![x], k) == (if k == x {
        1int
    } else {
        0
    }) by {
        reveal_with_fuel(occurs, 2);
        assert(seq![x].drop_last() =~= Seq::<Count>::empty());
    }
}

impl FrameCounts {
    /// Counts symbol `j` in context `i` of `skip`.
    pub fn count_skip(&mut self, i: usize, j: usize)
        requires
            i < 3,
            j < 2,
            old(self).room(1),
        ensures
            tallied(*old(self), *final(self), seq![Count::Skip(i as int, j as int)]),
    {
        proof {
            lemma_one(Count::Skip(i as int, j as int));
        }
        assert(self.times(Count::Skip(i as int, j as int)) < u32::MAX);
        self.skip[i][j] = self.skip[i][j] + 1;
    }

    /// Counts symbol `j` in context `i` of `intra_inter`.
    pub fn count_intra_inter(&mut self, i: usize, j: usize)
        requires
            i < 4,
            j < 2,
            old(self).room(1),
        ensures
            tallied(*old(self), *final(self), seq![Count::IntraInter(i as int, j as int)]),
    {
        proof {
            lemma_one(Count::IntraInter(i as int, j as int));
        }
        assert(self.times(Count::IntraInter(i as int, j as int)) < u32::MAX);
        self.intra_inter[i][j] = self.intra_inter[i][j] + 1;
    }

    /// Counts symbol `j` in context `i` of `comp_inter`.
    pub fn count_comp_inter(&mut self, i: usize, j: usize)
        requires
            i < 5,
            j < 2,
            old(self).room(1),
        ensures
            tallied(*old(self), *final(self), seq![Count::CompInter(i as int, j as int)]),
    {
        proof {
            lemma_one(Count::CompInter(i as int, j as int));
        }
        assert(self.times(Count::CompInter(i as int, j as int)) < u32::MAX);
        self.comp_inter[i][j] = self.comp_inter[i][j] + 1;
    }

    /// Counts symbol `j` in context `i` of `comp_ref`.
    pub fn count_comp_ref(&mut self, i: usize, j: usize)
        requires
            i < 5,
            j < 2,
            old(self).room(1),
        ensures
            tallied(*old(self), *final(self), seq![Count::CompRef(i as int, j as int)]),
    {
        proof {
            lemma_one(Count::CompRef(i as int, j as int));
        }
        assert(self.times(Count::CompRef(i as int, j as int)) < u32::MAX);
        self.comp_ref[i][j] = self.comp_ref[i][j] + 1;
    }

    /// Counts symbol `j` in context `i` of `inter_mode`.
    pub fn count_inter_mode(&mut self, i: usize, j: usize)
        requires
            i < 7,
            j < 4,
            old(self).room(1),
        ensures
            tallied(*old(self), *final(self), seq![Count::InterMode(i as int, j as int)]),
    {
        proof {
            lemma_one(Count::InterMode(i as int, j as int));
        }
        assert(self.times(Count::InterMode(i as int, j as int)) < u32::MAX);
        self.inter_mode[i][j] = self.inter_mode[i][j] + 1;
    }

    /// Counts symbol `j` in context `i` of `y_mode`.
    pub fn count_y_mode(&mut self, i: usize, j: usize)
        requires
            i < 4,
            j < 10,
            old(self).room(1),
        ensures
            tallied(*old(self), *final(self), seq![Count::YMode(i as int, j as int)]),
    {
        proof {
            lemma_one(Count::YMode(i as int, j as int));
        }
        assert(self.times(Count::YMode(i as int, j as int)) < u32::MAX);
        self.y_mode[i][j] = self.y_mode[i][j] + 1;
    }

    /// Counts symbol `j` in context `i` of `uv_mode`.
    pub fn count_uv_mode(&mut self, i: usize, j: usize)
        requires
            i < 10,
            j < 10,
            old(self).room(1),
        ensures
            tallied(*old(self), *final(self), seq![Count::UvMode(i as int, j as int)]),
    {
        proof {
            lemma_one(Count::UvMode(i as int, j as int));
        }
        assert(self.times(Count::UvMode(i as int, j as int)) < u32::MAX);
        self.uv_mode[i][j] = self.uv_mode[i][j] + 1;
    }

    /// Counts symbol `j` in context `i` of `partition`.
    pub fn count_partition(&mut self, i: usize, j: usize)
        requires
            i < 16,
            j < 4,
            old(self).room(1),
        ensures
            tallied(*old(self), *final(self), seq![Count::Partition(i as int, j as int)]),
    {
        proof {
            lemma_one(Count::Partition(i as int, j as int));
        }
        assert(self.times(Count::Partition(i as int, j as int)) < u32::MAX);
        self.partition[i][j] = self.partition[i][j] + 1;
    }

    /// Counts symbol `j` in context `i` of `switchable_interp`.
    pub fn count_switchable_interp(&mut self, i: usize, j: usize)
        requires
            i < 4,
            j < 3,
            old(self).room(1),
        ensures
            tallied(*old(self), *final(self), seq![Count::Interp(i as int, j as int)]),
    {
        proof {
            lemma_one(Count::Interp(i as int, j as int));
        }
        assert(self.times(Count::Interp(i as int, j as int)) < u32::MAX);
        self.switchable_interp[i][j] = self.switchable_interp[i][j] + 1;
    }

    /// Counts symbol `j` in context `i` of `tx_p8x8`.
    pub fn count_tx_p8x8(&mut self, i: usize, j: usize)
        requires
            i < 2,
            j < 2,
            old(self).room(1),
        ensures
            tallied(*old(self), *final(self), seq![Count::Tx8(i as int, j as int)]),
    {
        proof {
            lemma_one(Count::Tx8(i as int, j as int));
        }
        assert(self.times(Count::Tx8(i as int, j as int)) < u32::MAX);
        self.tx_p8x8[i][j] = self.tx_p8x8[i][j] + 1;
    }

    /// Counts symbol `j` in context `i` of `tx_p16x16`.
    pub fn count_tx_p16x16(&mut self, i: usize, j: usize)
        requires
            i < 2,
            j < 3,
            old(self).room(1),
        ensures
            tallied(*old(self), *final(self), seq![Count::Tx16(i as int, j as int)]),
    {
        proof {
            lemma_one(Count::Tx16(i as int, j as int));
        }
        assert(self.times(Count::Tx16(i as int, j as int)) < u32::MAX);
        self.tx_p16x16[i][j] = self.tx_p16x16[i][j] + 1;
    }

    /// Counts symbol `j` in context `i` of `tx_p32x32`.
    pub fn count_tx_p32x32(&mut self, i: usize, j: usize)
        requires
            i < 2,
            j < 4,
            old(self).room(1),
        ensures
            tallied(*old(self), *final(self), seq![Count::Tx32(i as int, j as int)]),
    {
        proof {
            lemma_one(Count::Tx32(i as int, j as int));
        }
        assert(self.times(Count::Tx32(i as int, j as int)) < u32::MAX);
        self.tx_p32x32[i][j] = self.tx_p32x32[i][j] + 1;
    }

    /// Counts bit `b` of decision `j` in context `i` of the single reference.
    pub fn count_single_ref(&mut self, i: usize, j: usize, b: usize)
        requires
            i < 5,
            j < 2,
            b < 2,
            old(self).room(1),
        ensures
            tallied(*old(self), *final(self), seq![Count::SingleRef(i as int, j as int, b as int)]),
    {
        proof {
            lemma_one(Count::SingleRef(i as int, j as int, b as int));
        }
        assert(self.times(Count::SingleRef(i as int, j as int, b as int)) < u32::MAX);
        self.single_ref[i][j][b] = self.single_ref[i][j][b] + 1;
    }

    /// Counts joint `j` of a motion vector difference.
    pub fn count_mv_joint(&mut self, j: usize)
        requires
            j < 4,
            old(self).room(1),
        ensures
            tallied(*old(self), *final(self), seq![Count::MvJoint(j as int)]),
    {
        proof {
            lemma_one(Count::MvJoint(j as int));
        }
        assert(self.times(Count::MvJoint(j as int)) < u32::MAX);
        self.mv.joints[j] = self.mv.joints[j] + 1;
    }

    /// Counts symbol `j` of `sign` of motion component `c`.
    pub fn count_mv_sign(&mut self, c: usize, j: usize)
        requires
            c < 2,
            j < 2,
            old(self).room(1),
        ensures
            tallied(*old(self), *final(self), seq![Count::MvSign(c as int, j as int)]),
    {
        proof {
            lemma_one(Count::MvSign(c as int, j as int));
        }
        assert(self.times(Count::MvSign(c as int, j as int)) < u32::MAX);
        self.mv.comps[c].sign[j] = self.mv.comps[c].sign[j] + 1;
    }

    /// Counts symbol `j` of `classes` of motion component `c`.
    pub fn count_mv_classes(&mut self, c: usize, j: usize)
        requires
            c < 2,
            j < 11,
            old(self).room(1),
        ensures
            tallied(*old(self), *final(self), seq![Count::MvClass(c as int, j as int)]),
    {
        proof {
            lemma_one(Count::MvClass(c as int, j as int));
        }
        assert(self.times(Count::MvClass(c as int, j as int)) < u32::MAX);
        self.mv.comps[c].classes[j] = self.mv.comps[c].classes[j] + 1;
    }

    /// Counts symbol `j` of `class0` of motion component `c`.
    pub fn count_mv_class0(&mut self, c: usize, j: usize)
        requires
            c < 2,
            j < 2,
            old(self).room(1),
        ensures
            tallied(*old(self), *final(self), seq![Count::MvClass0(c as int, j as int)]),
    {
        proof {
            lemma_one(Count::MvClass0(c as int, j as int));
        }
        assert(self.times(Count::MvClass0(c as int, j as int)) < u32::MAX);
        self.mv.comps[c].class0[j] = self.mv.comps[c].class0[j] + 1;
    }

    /// Counts symbol `j` of `fp` of motion component `c`.
    pub fn count_mv_fp(&mut self, c: usize, j: usize)
        requires
            c < 2,
            j < 4,
            old(self).room(1),
        ensures
            tallied(*old(self), *final(self), seq![Count::MvFp(c as int, j as int)]),
    {
        proof {
            lemma_one(Count::MvFp(c as int, j as int));
        }
        assert(self.times(Count::MvFp(c as int, j as int)) < u32::MAX);
        self.mv.comps[c].fp[j] = self.mv.comps[c].fp[j] + 1;
    }

    /// Counts symbol `j` of `class0_hp` of motion component `c`.
    pub fn count_mv_class0_hp(&mut self, c: usize, j: usize)
        requires
            c < 2,
            j < 2,
            old(self).room(1),
        ensures
            tallied(*old(self), *final(self), seq![Count::MvClass0Hp(c as int, j as int)]),
    {
        proof {
            lemma_one(Count::MvClass0Hp(c as int, j as int));
        }
        assert(self.times(Count::MvClass0Hp(c as int, j as int)) < u32::MAX);
        self.mv.comps[c].class0_hp[j] = self.mv.comps[c].class0_hp[j] + 1;
    }

    /// Counts symbol `j` of `hp` of motion component `c`.
    pub fn count_mv_hp(&mut self, c: usize, j: usize)
        requires
            c < 2,
            j < 2,
            old(self).room(1),
        ensures
            tallied(*old(self), *final(self), seq![Count::MvHp(c as int, j as int)]),
    {
        proof {
            lemma_one(Count::MvHp(c as int, j as int));
        }
        assert(self.times(Count::MvHp(c as int, j as int)) < u32::MAX);
        self.mv.comps[c].hp[j] = self.mv.comps[c].hp[j] + 1;
    }

    /// Counts value `b` of bit `i` of the integer part of motion component `c`.
    pub fn count_mv_bit(&mut self, c: usize, i: usize, b: usize)
        requires
            c < 2,
            i < 10,
            b < 2,
            old(self).room(1),
        ensures
            tallied(*old(self), *final(self), seq![Count::MvBit(c as int, i as int, b as int)]),
    {
        proof {
            lemma_one(Count::MvBit(c as int, i as int, b as int));
        }
        assert(self.times(Count::MvBit(c as int, i as int, b as int)) < u32::MAX);
        self.mv.comps[c].bits[i][b] = self.mv.comps[c].bits[i][b] + 1;
    }

    /// Counts fraction `f` beside integer part `d` of motion component `c`.
    pub fn count_mv_class0_fp(&mut self, c: usize, d: usize, f: usize)
        requires
            c < 2,
            d < 2,
            f < 4,
            old(self).room(1),
        ensures
            tallied(*old(self), *final(self), seq![Count::MvClass0Fp(c as int, d as int, f as int)]),
    {
        proof {
            lemma_one(Count::MvClass0Fp(c as int, d as int, f as int));
        }
        assert(self.times(Count::MvClass0Fp(c as int, d as int, f as int)) < u32::MAX);
        self.mv.comps[c].class0_fp[d][f] = self.mv.comps[c].class0_fp[d][f] + 1;
    }

    /// Nothing counted.
    pub open spec fn is_zero(&self) -> bool {
        &&& forall|k: Count| counted(k) ==> #[trigger] self.times(k) == 0
        &&& forall|t: int, i: int, j: int, k: int, l: int, m: int|
            0 <= t < 4 && 0 <= i < 2 && 0 <= j < 2 && 0 <= k < 6 && 0 <= l < 6 && 0 <= m < 4
                ==> #[trigger] self.coef[t][i][j][k][l][m] == 0
        &&& forall|t: int, i: int, j: int, k: int, l: int|
            0 <= t < 4 && 0 <= i < 2 && 0 <= j < 2 && 0 <= k < 6 && 0 <= l < 6
                ==> #[trigger] self.eob_branch[t][i][j][k][l] == 0
    }

    /// Counts of zero.
    pub fn zeroed() -> (r: FrameCounts)
        ensures
            r.is_zero(),
    {
        let z2: [u32; 2] = [0; 2];
        let z3: [u32; 3] = [0; 3];
        let z4: [u32; 4] = [0; 4];
        let z10: [u32; 10] = [0; 10];
        let coef: CoefCounts = [[[[z4; 6]; 6]; 2]; 2];
        let eob: EobCounts = [[[[0; 6]; 6]; 2]; 2];
        let comp = NmvComponentCounts {
            sign: z2,
            classes: [0; 11],
            class0: z2,
            bits: [z2; 10],
            class0_fp: [z4; 2],
            fp: z4,
            class0_hp: z2,
            hp: z2,
        };
        FrameCounts {
            coef: [coef; 4],
            eob_branch: [eob; 4],
            intra_inter: [z2; 4],
            comp_inter: [z2; 5],
            comp_ref: [z2; 5],
            single_ref: [[z2; 2]; 5],
            inter_mode: [z4; 7],
            y_mode: [z10; 4],
            uv_mode: [z10; 10],
            partition: [z4; 16],
            switchable_interp: [z3; 4],
            skip: [z2; 3],
            tx_p8x8: [z2; 2],
            tx_p16x16: [z3; 2],
            tx_p32x32: [z4; 2],
            mv: NmvCounts { joints: z4, comps: [comp; 2] },
        }
    }
}

/// A symbol that is counted once more raises its own count and no other: `k` that of the
/// skip flag, and so on for all flags of references.
pub proof fn law_counts_are_of_their_symbols(a: FrameCounts, b: FrameCounts, k: Count, i: int, j: int)
    requires
        tallied(a, b, seq![k]),
        counted(k),
        0 <= i,
        0 <= j,
    ensures
        i < 3 && j < 2 ==> b.skip[i][j] - a.skip[i][j] == (if k == Count::Skip(i, j) {
            1int
        } else {
            0
        }),
        i < 4 && j < 2 ==> b.intra_inter[i][j] - a.intra_inter[i][j] == (if k
            == Count::IntraInter(i, j) {
            1int
        } else {
            0
        }),
        i < 5 && j < 2 ==> b.comp_inter[i][j] - a.comp_inter[i][j] == (if k == Count::CompInter(
            i,
            j,
        ) {
            1int
        } else {
            0
        }),
        i < 5 && j < 2 ==> b.comp_ref[i][j] - a.comp_ref[i][j] == (if k == Count::CompRef(i, j) {
            1int
        } else {
            0
        }),
        i < 5 && j < 2 ==> b.single_ref[i][0][j] - a.single_ref[i][0][j] == (if k
            == Count::SingleRef(i, 0, j) {
            1int
        } else {
            0
        }),
        i < 5 && j < 2 ==> b.single_ref[i][1][j] - a.single_ref[i][1][j] == (if k
            == Count::SingleRef(i, 1, j) {
            1int
        } else {
            0
        }),
        i < 7 && j < 4 ==> b.inter_mode[i][j] - a.inter_mode[i][j] == (if k == Count::InterMode(
            i,
            j,
        ) {
            1int
        } else {
            0
        }),
        i < 4 && j < 10 ==> b.y_mode[i][j] - a.y_mode[i][j] == (if k == Count::YMode(i, j) {
            1int
        } else {
            0
        }),
        i < 10 && j < 10 ==> b.uv_mode[i][j] - a.uv_mode[i][j] == (if k == Count::UvMode(i, j) {
            1int
        } else {
            0
        }),
        i < 16 && j < 4 ==> b.partition[i][j] - a.partition[i][j] == (if k == Count::Partition(
            i,
            j,
        ) {
            1int
        } else {
            0
        }),
        i < 4 && j < 3 ==> b.switchable_interp[i][j] - a.switchable_interp[i][j] == (if k
            == Count::Interp(i, j) {
            1int
        } else {
            0
        }),
{
    assert(forall|x: Count| occurs(seq![k], x) == (if x == k {
        1int
    } else {
        0
    })) by {
        assert forall|x: Count| #[trigger] occurs(seq![k], x) == (if x == k {
            1int
        } else {
            0
        }) by {
            reveal_with_fuel(occurs, 2);
            assert(seq![k].drop_last() =~= Seq::empty());
        }
    }
    assert(i < 3 && j < 2 ==> counted(Count::Skip(i, j)) && b.times(Count::Skip(i, j)) == a.times(
        Count::Skip(i, j),
    ) + occurs(seq![k], Count::Skip(i, j)));
    let x1 = Count::IntraInter(i, j);
    let x2 = Count::CompInter(i, j);
    let x3 = Count::CompRef(i, j);
    let x4 = Count::SingleRef(i, 0, j);
    let x5 = Count::SingleRef(i, 1, j);
    let x6 = Count::InterMode(i, j);
    let x7 = Count::YMode(i, j);
    let x8 = Count::UvMode(i, j);
    let x9 = Count::Partition(i, j);
    let x10 = Count::Interp(i, j);
    assert(counted(x1) ==> b.times(x1) == a.times(x1) + occurs(seq![k], x1));
    assert(counted(x2) ==> b.times(x2) == a.times(x2) + occurs(seq![k], x2));
    assert(counted(x3) ==> b.times(x3) == a.times(x3) + occurs(seq![k], x3));
    assert(counted(x4) ==> b.times(x4) == a.times(x4) + occurs(seq![k], x4));
    assert(counted(x5) ==> b.times(x5) == a.times(x5) + occurs(seq![k], x5));
    assert(counted(x6) ==> b.times(x6) == a.times(x6) + occurs(seq![k], x6));
    assert(counted(x7) ==> b.times(x7) == a.times(x7) + occurs(seq![k], x7));
    assert(counted(x8) ==> b.times(x8) == a.times(x8) + occurs(seq![k], x8));
    assert(counted(x9) ==> b.times(x9) == a.times(x9) + occurs(seq![k], x9));
    assert(counted(x10) ==> b.times(x10) == a.times(x10) + occurs(seq![k], x10));
}

/// The same of transform sizes and of vectors.
pub proof fn law_vector_counts_are_of_their_symbols(
    a: FrameCounts,
    b: FrameCounts,
    k: Count,
    c: int,
    i: int,
    j: int,
)
    requires
        tallied(a, b, seq![k]),
        counted(k),
        0 <= c < 2,
        0 <= i,
        0 <= j,
    ensures
        j < 2 ==> b.tx_p8x8[c][j] - a.tx_p8x8[c][j] == (if k == Count::Tx8(c, j) {
            1int
        } else {
            0
        }),
        j < 3 ==> b.tx_p16x16[c][j] - a.tx_p16x16[c][j] == (if k == Count::Tx16(c, j) {
            1int
        } else {
            0
        }),
        j < 4 ==> b.tx_p32x32[c][j] - a.tx_p32x32[c][j] == (if k == Count::Tx32(c, j) {
            1int
        } else {
            0
        }),
        j < 4 ==> b.mv.joints[j] - a.mv.joints[j] == (if k == Count::MvJoint(j) {
            1int
        } else {
            0
        }),
        j < 2 ==> b.mv.comps[c].sign[j] - a.mv.comps[c].sign[j] == (if k == Count::MvSign(c, j) {
            1int
        } else {
            0
        }),
        j < 11 ==> b.mv.comps[c].classes[j] - a.mv.comps[c].classes[j] == (if k == Count::MvClass(
            c,
            j,
        ) {
            1int
        } else {
            0
        }),
        j < 2 ==> b.mv.comps[c].class0[j] - a.mv.comps[c].class0[j] == (if k == Count::MvClass0(
            c,
            j,
        ) {
            1int
        } else {
            0
        }),
        j < 4 ==> b.mv.comps[c].fp[j] - a.mv.comps[c].fp[j] == (if k == Count::MvFp(c, j) {
            1int
        } else {
            0
        }),
        j < 2 ==> b.mv.comps[c].class0_hp[j] - a.mv.comps[c].class0_hp[j] == (if k
            == Count::MvClass0Hp(c, j) {
            1int
        } else {
            0
        }),
        j < 2 ==> b.mv.comps[c].hp[j] - a.mv.comps[c].hp[j] == (if k == Count::MvHp(c, j) {
            1int
        } else {
            0
        }),
        i < 10 && j < 2 ==> b.mv.comps[c].bits[i][j] - a.mv.comps[c].bits[i][j] == (if k
            == Count::MvBit(c, i, j) {
            1int
        } else {
            0
        }),
        i < 2 && j < 4 ==> b.mv.comps[c].class0_fp[i][j] - a.mv.comps[c].class0_fp[i][j] == (if k
            == Count::MvClass0Fp(c, i, j) {
            1int
        } else {
            0
        }),
{
    assert forall|x: Count| #[trigger] occurs(seq![k], x) == (if x == k {
        1int
    } else {
        0
    }) by {
        reveal_with_fuel(occurs, 2);
        assert(seq![k].drop_last() =~= Seq::empty());
    }
    let x1 = Count::Tx8(c, j);
    let x2 = Count::Tx16(c, j);
    let x3 = Count::Tx32(c, j);
    let x4 = Count::MvJoint(j);
    let x5 = Count::MvSign(c, j);
    let x6 = Count::MvClass(c, j);
    let x7 = Count::MvClass0(c, j);
    let x8 = Count::MvFp(c, j);
    let x9 = Count::MvClass0Hp(c, j);
    let x10 = Count::MvHp(c, j);
    let x11 = Count::MvBit(c, i, j);
    let x12 = Count::MvClass0Fp(c, i, j);
    assert(counted(x1) ==> b.times(x1) == a.times(x1) + occurs(seq![k], x1));
    assert(counted(x2) ==> b.times(x2) == a.times(x2) + occurs(seq![k], x2));
    assert(counted(x3) ==> b.times(x3) == a.times(x3) + occurs(seq![k], x3));
    assert(counted(x4) ==> b.times(x4) == a.times(x4) + occurs(seq![k], x4));
    assert(counted(x5) ==> b.times(x5) == a.times(x5) + occurs(seq![k], x5));
    assert(counted(x6) ==> b.times(x6) == a.times(x6) + occurs(seq![k], x6));
    assert(counted(x7) ==> b.times(x7) == a.times(x7) + occurs(seq![k], x7));
    assert(counted(x8) ==> b.times(x8) == a.times(x8) + occurs(seq![k], x8));
    assert(counted(x9) ==> b.times(x9) == a.times(x9) + occurs(seq![k], x9));
    assert(counted(x10) ==> b.times(x10) == a.times(x10) + occurs(seq![k], x10));
    assert(counted(x11) ==> b.times(x11) == a.times(x11) + occurs(seq![k], x11));
    assert(counted(x12) ==> b.times(x12) == a.times(x12) + occurs(seq![k], x12));
}

} // verus!
