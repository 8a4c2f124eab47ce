//! Decisions that are remembered: what was chosen for each block, and how each square
//! was cut.
use std::collections::HashMap;

use vstd::prelude::*;

use crate::block::{ModeInfo, Mv};

verus! {

/// A block, as one number: its size, its row and its column.
pub open spec fn block_key(row: int, col: int, bsize: int) -> int {
    bsize * 0x400_0000 + row * 0x2000 + col
}

/// A place and a size that have a key.
pub open spec fn keyed(row: int, col: int, bsize: int) -> bool {
    0 <= row < 0x2000 && 0 <= col < 0x2000 && 0 <= bsize < 0x20
}

/// No two blocks have the same key.
pub proof fn law_block_keys_differ(r: int, c: int, b: int, r2: int, c2: int, b2: int)
    requires
        keyed(r, c, b),
        keyed(r2, c2, b2),
        block_key(r, c, b) == block_key(r2, c2, b2),
    ensures
        r == r2 && c == c2 && b == b2,
{
}

/// The key of a block.
pub fn mm_key(mi_row: usize, mi_col: usize, bsize: usize) -> (k: u32)
    requires
        keyed(mi_row as int, mi_col as int, bsize as int),
    ensures
        k == block_key(mi_row as int, mi_col as int, bsize as int),
{
    bsize as u32 * 0x400_0000 + mi_row as u32 * 0x2000 + mi_col as u32
}

/// What was decided for a block: its mode information, the predictor of its vector, and
/// the transform size that was tried.
#[derive(Clone, Copy, Debug)]
pub struct Decision {
    pub mi: ModeInfo,
    pub predictor: Mv,
    pub trial_tx: u8,
}

/// Decisions by block, and the keys of all blocks that have one.
pub struct ModeMap {
    map: HashMap<u32, Decision>,
    keys: Vec<u32>,
}

impl ModeMap {
    /// The decisions by the keys of their blocks.
    pub closed spec fn view(&self) -> Map<u32, Decision> {
        self.map@
    }

    /// The keys are those of just the blocks that have a decision.
    pub closed spec fn wf(&self) -> bool {
        forall|k: u32| #[trigger] self.map@.contains_key(k) <==> self.keys@.contains(k)
    }

    /// What was decided for a block.
    pub open spec fn at(&self, row: int, col: int, bsize: int) -> Option<Decision> {
        let k = block_key(row, col, bsize) as u32;
        if self@.contains_key(k) {
            Some(self@[k])
        } else {
            None
        }
    }

    /// No decisions.
    pub fn new() -> (m: ModeMap)
        ensures
            m.wf(),
            m@ == Map::<u32, Decision>::empty(),
    {
        ModeMap { map: HashMap::new(), keys: Vec::new() }
    }

    /// What was decided for a block.
    pub fn get(&self, mi_row: usize, mi_col: usize, bsize: usize) -> (r: Option<Decision>)
        requires
            keyed(mi_row as int, mi_col as int, bsize as int),
        ensures
            r == self.at(mi_row as int, mi_col as int, bsize as int),
    {
        broadcast use vstd::std_specs::hash::group_hash_axioms;

        let k: u32 = mm_key(mi_row, mi_col, bsize);
        match self.map.get(&k) {
            Some(d) => Some(*d),
            None => None,
        }
    }

    /// Remembers what was decided for a block; every other block keeps its decision.
    pub fn insert(&mut self, mi_row: usize, mi_col: usize, bsize: usize, d: Decision)
        requires
            old(self).wf(),
            keyed(mi_row as int, mi_col as int, bsize as int),
        ensures
            final(self).wf(),
            final(self)@ == old(self)@.insert(
                block_key(mi_row as int, mi_col as int, bsize as int) as u32,
                d,
            ),
            forall|r: int, c: int, b: int| #[trigger]
                keyed(r, c, b) ==> final(self).at(r, c, b) == (if r == mi_row && c == mi_col && b
                    == bsize {
                    Some(d)
                } else {
                    old(self).at(r, c, b)
                }),
    {
        broadcast use vstd::std_specs::hash::group_hash_axioms;

        let k: u32 = mm_key(mi_row, mi_col, bsize);
        self.put(k, d);
        proof {
            assert forall|r: int, c: int, b: int| #[trigger] keyed(r, c, b) implies self.at(r, c, b)
                == (if r == mi_row && c == mi_col && b == bsize {
                Some(d)
            } else {
                old(self).at(r, c, b)
            }) by {
                if block_key(r, c, b) == k {
                    law_block_keys_differ(
                        r,
                        c,
                        b,
                        mi_row as int,
                        mi_col as int,
                        bsize as int,
                    );
                }
            }
        }
    }

    /// Remembers a decision under a key.
    fn put(&mut self, k: u32, d: Decision)
        requires
            old(self).wf(),
        ensures
            final(self).wf(),
            final(self)@ == old(self)@.insert(k, d),
    {
        broadcast use vstd::std_specs::hash::group_hash_axioms;

        let ghost before = self.keys@;
        let known: bool = self.map.contains_key(&k);
        if !known {
            self.keys.push(k);
        }
        self.map.insert(k, d);
        proof {
            assert forall|x: u32| #[trigger] self.map@.contains_key(x) <==> self.keys@.contains(
                x,
            ) by {
                if before.contains(x) {
                    let j = choose|j: int| 0 <= j < before.len() && before[j] == x;
                    assert(self.keys@[j] == x);
                }
                if !known && x == k {
                    assert(self.keys@[before.len() as int] == x);
                }
            }
        }
    }

    /// Forgets all decisions.
    pub fn clear(&mut self)
        ensures
            final(self).wf(),
            final(self)@ == Map::<u32, Decision>::empty(),
    {
        broadcast use vstd::std_specs::hash::group_hash_axioms;

        self.map.clear();
        self.keys.clear();
    }

    /// Takes over the decisions of another map.
    pub fn merge(&mut self, other: ModeMap)
        requires
            old(self).wf(),
            other.wf(),
        ensures
            final(self).wf(),
            final(self)@ == old(self)@.union_prefer_right(other@),
    {
        broadcast use vstd::std_specs::hash::group_hash_axioms;

        let ghost start = self@;
        let n: usize = other.keys.len();
        let mut i: usize = 0;
        while i < n
            invariant
                self.wf(),
                other.wf(),
                i <= n,
                n == other.keys@.len(),
                forall|k: u32| #[trigger]
                    self@.contains_key(k) <==> start.contains_key(k) || other.keys@.take(
                        i as int,
                    ).contains(k),
                forall|k: u32| #[trigger]
                    self@.contains_key(k) ==> self@[k] == (if other.keys@.take(
                        i as int,
                    ).contains(k) {
                        other@[k]
                    } else {
                        start[k]
                    }),
            decreases n - i,
        {
            broadcast use vstd::std_specs::hash::group_hash_axioms;

            let k: u32 = other.keys[i];
            assert(other.keys@.contains(k));
            proof {
                let a = other.keys@.take(i as int);
                let b = other.keys@.take(i + 1);
                assert(b =~= a.push(k));
                assert forall|x: u32| #[trigger] b.contains(x) <==> a.contains(x) || x == k by {
                    if a.contains(x) {
                        let j = choose|j: int| 0 <= j < a.len() && a[j] == x;
                        assert(b[j] == x);
                    }
                    if x == k {
                        assert(b[i as int] == x);
                    }
                }
            }
            if let Some(d) = other.map.get(&k) {
                self.put(k, *d);
            }
            i += 1;
        }
        assert(other.keys@.take(n as int) =~= other.keys@);
        assert(self@ =~= start.union_prefer_right(other@));
    }
}

/// How squares are cut.
pub struct PartMap {
    map: HashMap<u32, u8>,
}

impl PartMap {
    /// The cuts by the keys of their squares.
    pub closed spec fn view(&self) -> Map<u32, u8> {
        self.map@
    }

    /// How a square is cut.
    pub open spec fn at(&self, row: int, col: int, bsize: int) -> Option<u8> {
        let k = block_key(row, col, bsize) as u32;
        if self@.contains_key(k) {
            Some(self@[k])
        } else {
            None
        }
    }

    /// No cuts.
    pub fn new() -> (m: PartMap)
        ensures
            m@ == Map::<u32, u8>::empty(),
    {
        PartMap { map: HashMap::new() }
    }

    /// How a square is cut.
    pub fn get(&self, mi_row: usize, mi_col: usize, bsize: usize) -> (r: Option<u8>)
        requires
            keyed(mi_row as int, mi_col as int, bsize as int),
        ensures
            r == self.at(mi_row as int, mi_col as int, bsize as int),
    {
        broadcast use vstd::std_specs::hash::group_hash_axioms;

        let k: u32 = mm_key(mi_row, mi_col, bsize);
        match self.map.get(&k) {
            Some(p) => Some(*p),
            None => None,
        }
    }

    /// Remembers how a square is cut.
    pub fn insert(&mut self, mi_row: usize, mi_col: usize, bsize: usize, partition: u8)
        requires
            keyed(mi_row as int, mi_col as int, bsize as int),
        ensures
            final(self)@ == old(self)@.insert(
                block_key(mi_row as int, mi_col as int, bsize as int) as u32,
                partition,
            ),
    {
        broadcast use vstd::std_specs::hash::group_hash_axioms;

        let k: u32 = mm_key(mi_row, mi_col, bsize);
        self.map.insert(k, partition);
    }
}

} // verus!
