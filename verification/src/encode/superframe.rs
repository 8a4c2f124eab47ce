//! Superframes: several coded frames in one packet. Behind the frames stands an index of
//! their lengths, between two copies of a marker.
use vstd::prelude::*;

use crate::encode::frame::{append, contents};

verus! {

/// The lengths of `fs` frames up to frame `n`, in all.
pub open spec fn total_len(fs: Seq<Seq<u8>>, n: nat) -> nat
    decreases n,
{
    if n == 0 {
        0
    } else {
        total_len(fs, (n - 1) as nat) + fs[n - 1].len()
    }
}

/// The first `n` frames, one behind the other.
pub open spec fn joined(fs: Seq<Seq<u8>>, n: nat) -> Seq<u8>
    decreases n,
{
    if n == 0 {
        Seq::empty()
    } else {
        joined(fs, (n - 1) as nat) + fs[n - 1]
    }
}

/// The length of the longest of the first `n` frames.
pub open spec fn longest(fs: Seq<Seq<u8>>, n: nat) -> nat
    decreases n,
{
    if n == 0 {
        0
    } else {
        let before = longest(fs, (n - 1) as nat);
        if fs[n - 1].len() > before {
            fs[n - 1].len()
        } else {
            before
        }
    }
}

/// The number of bytes that each length of the index takes.
pub open spec fn size_bytes(longest: nat) -> nat {
    if longest < 0x100 {
        1
    } else if longest < 0x10000 {
        2
    } else if longest < 0x100_0000 {
        3
    } else {
        4
    }
}

/// The lowest `n` bytes of `v`, the lowest first.
pub open spec fn low_bytes(v: nat, n: nat) -> Seq<u8>
    decreases n,
{
    if n == 0 {
        Seq::empty()
    } else {
        seq![(v % 256) as u8] + low_bytes(v / 256, (n - 1) as nat)
    }
}

/// The lengths of the first `n` frames, in `mag` bytes each.
pub open spec fn index_of(fs: Seq<Seq<u8>>, mag: nat, n: nat) -> Seq<u8>
    decreases n,
{
    if n == 0 {
        Seq::empty()
    } else {
        index_of(fs, mag, (n - 1) as nat) + low_bytes(fs[n - 1].len(), mag)
    }
}

/// The marker of an index of `n` lengths of `mag` bytes.
pub open spec fn marker_of(mag: nat, n: nat) -> int {
    0xc0 + 8 * (mag - 1) + (n - 1)
}

/// Frames in a superframe.
pub open spec fn packed(fs: Seq<Seq<u8>>) -> Seq<u8> {
    let mag = size_bytes(longest(fs, fs.len()));
    let marker = seq![marker_of(mag, fs.len()) as u8];
    joined(fs, fs.len()) + (marker + (index_of(fs, mag, fs.len()) + marker))
}

/// The length of the longest frame.
fn max_len(frames: &[Vec<u8>]) -> (m: usize)
    ensures
        m == longest(contents(frames@), frames@.len()),
{
    let n: usize = frames.len();
    let ghost fs = contents(frames@);
    let mut m: usize = 0;
    let mut i: usize = 0;
    while i < n
        invariant
            i <= n,
            n == frames@.len(),
            fs == contents(frames@),
            m == longest(fs, i as nat),
        decreases n - i,
    {
        assert(fs[i as int] == frames@[i as int]@);
        let len: usize = frames[i].len();
        if len > m {
            m = len;
        }
        i += 1;
    }
    m
}

/// Appends the lowest `mag` bytes of `v`, the lowest first.
fn push_low(out: &mut Vec<u8>, v: usize, mag: usize)
    requires
        mag <= 4,
    ensures
        final(out)@ == old(out)@ + low_bytes(v as nat, mag as nat),
{
    let ghost start = out@;
    let ghost goal = low_bytes(v as nat, mag as nat);
    let mut rest: usize = v;
    let mut k: usize = 0;
    assert(start + goal =~= out@ + goal);
    while k < mag
        invariant
            k <= mag <= 4,
            goal == low_bytes(v as nat, mag as nat),
            out@ + low_bytes(rest as nat, (mag - k) as nat) == start + goal,
        decreases mag - k,
    {
        let ghost before = out@;
        let ghost r = rest as nat;
        out.push((rest % 256) as u8);
        rest = rest / 256;
        k += 1;
        proof {
            let left = low_bytes(rest as nat, (mag - k) as nat);
            assert(low_bytes(r, (mag - k + 1) as nat) == seq![(r % 256) as u8] + left);
            assert(out@ + left =~= before + (seq![(r % 256) as u8] + left));
        }
    }
    assert(out@ + Seq::<u8>::empty() =~= out@);
}

/// Packs coded frames into a superframe.
pub fn pack_superframe(frames: &[Vec<u8>]) -> (out: Vec<u8>)
    requires
        1 <= frames@.len() <= 8,
    ensures
        out@ == packed(contents(frames@)),
{
    let n: usize = frames.len();
    let ghost fs = contents(frames@);
    let max: usize = max_len(frames);
    let mag: usize = if max < 0x100 {
        1
    } else if max < 0x10000 {
        2
    } else if max < 0x100_0000 {
        3
    } else {
        4
    };
    let marker: u8 = 0xc0 + 8 * (mag as u8 - 1) + (n as u8 - 1);
    let mut out: Vec<u8> = Vec::new();
    let mut i: usize = 0;
    while i < n
        invariant
            i <= n,
            n == frames@.len(),
            fs == contents(frames@),
            out@ == joined(fs, i as nat),
        decreases n - i,
    {
        assert(fs[i as int] == frames@[i as int]@);
        append(&mut out, frames[i].as_slice());
        i += 1;
    }
    out.push(marker);
    let ghost head = out@;
    i = 0;
    assert(head + index_of(fs, mag as nat, 0) =~= head);
    while i < n
        invariant
            i <= n,
            n == frames@.len(),
            mag <= 4,
            fs == contents(frames@),
            out@ == head + index_of(fs, mag as nat, i as nat),
        decreases n - i,
    {
        assert(fs[i as int] == frames@[i as int]@);
        push_low(&mut out, frames[i].len(), mag);
        i += 1;
        assert(head + index_of(fs, mag as nat, (i - 1) as nat) + low_bytes(
            fs[i - 1].len(),
            mag as nat,
        ) =~= head + index_of(fs, mag as nat, i as nat));
    }
    out.push(marker);
    assert(out@ =~= packed(fs));
    out
}

// ---------------------------------------------------------------------------
// Reading an index
// ---------------------------------------------------------------------------

/// The number in `n` bytes of `d` from `at` on, the lowest first.
pub open spec fn low_number(d: Seq<u8>, at: int, n: nat) -> nat
    decreases n,
{
    if n == 0 {
        0
    } else {
        (d[at] as nat) + 256 * low_number(d, at + 1, (n - 1) as nat)
    }
}

/// Whether the last byte of `d` is a marker, and an index as long as it says stands
/// before it, behind the same marker.
pub open spec fn has_index(d: Seq<u8>) -> bool {
    let m = d.last() as int;
    let n = m % 8 + 1;
    let mag = (m / 8) % 4 + 1;
    &&& d.len() > 0
    &&& m / 32 == 6
    &&& d.len() >= 2 + n * mag
    &&& d[d.len() - 2 - n * mag] == d.last()
}

/// The number of frames that the index of `d` lists.
pub open spec fn listed(d: Seq<u8>) -> nat {
    (d.last() % 8 + 1) as nat
}

/// The length of frame `i` by the index of `d`.
pub open spec fn listed_len(d: Seq<u8>, i: int) -> nat {
    let n = d.last() as int % 8 + 1;
    let mag = (d.last() as int / 8) % 4 + 1;
    low_number(d, d.len() - 1 - n * mag + i * mag, mag as nat)
}

/// Reading `n` bytes gives back the number that was written in them.
proof fn lemma_low_number(d: Seq<u8>, at: int, v: nat, n: nat)
    requires
        0 <= at,
        at + n <= d.len(),
        d.subrange(at, at + n) == low_bytes(v, n),
        v < vstd::arithmetic::power::pow(256, n),
    ensures
        low_number(d, at, n) == v,
    decreases n,
{
    lemma_low_len(v, n);
    if n == 0 {
        vstd::arithmetic::power::lemma_pow0(256);
    } else {
        let rest = low_bytes(v / 256, (n - 1) as nat);
        let all = d.subrange(at, at + n);
        assert(all == seq![(v % 256) as u8] + rest);
        assert(all[0] == d[at]);
        lemma_low_len(v / 256, (n - 1) as nat);
        assert(d.subrange(at + 1, at + n) =~= rest) by {
            assert forall|i: int| 0 <= i < n - 1 implies d.subrange(at + 1, at + n)[i]
                == rest[i] by {
                assert(all[i + 1] == rest[i]);
            }
        }
        assert(at + 1 + (n - 1) == at + n);
        vstd::arithmetic::power::lemma_pow1(256);
        vstd::arithmetic::power::lemma_pow_adds(256, 1, (n - 1) as nat);
        let p = vstd::arithmetic::power::pow(256, (n - 1) as nat);
        assert(v / 256 < p) by {
            assert(v < 256 * p);
        }
        lemma_low_number(d, at + 1, v / 256, (n - 1) as nat);
    }
}

/// A number takes as many bytes as it is given.
proof fn lemma_low_len(v: nat, n: nat)
    ensures
        low_bytes(v, n).len() == n,
    decreases n,
{
    if n > 0 {
        lemma_low_len(v / 256, (n - 1) as nat);
    }
}

/// An index is as long as its lengths.
proof fn lemma_index_len(fs: Seq<Seq<u8>>, mag: nat, n: nat)
    requires
        n <= fs.len(),
    ensures
        index_of(fs, mag, n).len() == n * mag,
    decreases n,
{
    if n > 0 {
        lemma_index_len(fs, mag, (n - 1) as nat);
        lemma_low_len(fs[n - 1].len(), mag);
        assert(n * mag == (n - 1) * mag + mag) by (nonlinear_arith);
    } else {
        assert(0 * mag == 0);
    }
}

/// The length of frame `i` stands in its place in the index.
proof fn lemma_index_at(fs: Seq<Seq<u8>>, mag: nat, n: nat, i: int)
    requires
        0 <= i < n <= fs.len(),
    ensures
        index_of(fs, mag, n).subrange(i * mag, i * mag + mag) == low_bytes(fs[i].len(), mag),
        0 <= i * mag,
        i * mag + mag <= n * mag,
    decreases n,
{
    lemma_index_len(fs, mag, n);
    lemma_index_len(fs, mag, (n - 1) as nat);
    lemma_low_len(fs[n - 1].len(), mag);
    let before = index_of(fs, mag, (n - 1) as nat);
    assert(0 <= i * mag && i * mag + mag <= n * mag) by (nonlinear_arith)
        requires
            0 <= i,
            i + 1 <= n,
            0 <= mag,
    ;
    if i == n - 1 {
        assert(index_of(fs, mag, n).subrange(i * mag, i * mag + mag) =~= low_bytes(
            fs[i].len(),
            mag,
        ));
    } else {
        lemma_index_at(fs, mag, (n - 1) as nat, i);
        assert(index_of(fs, mag, n).subrange(i * mag, i * mag + mag) =~= before.subrange(
            i * mag,
            i * mag + mag,
        ));
    }
}

/// No frame is longer than the longest.
proof fn lemma_longest(fs: Seq<Seq<u8>>, n: nat, i: int)
    requires
        0 <= i < n <= fs.len(),
    ensures
        fs[i].len() <= longest(fs, n),
    decreases n,
{
    if i < n - 1 {
        lemma_longest(fs, (n - 1) as nat, i);
    }
}

/// The frames of a superframe stand where their lengths say.
proof fn lemma_joined(fs: Seq<Seq<u8>>, n: nat, i: int)
    requires
        0 <= i < n <= fs.len(),
    ensures
        joined(fs, n).len() == total_len(fs, n),
        total_len(fs, i as nat) + fs[i].len() <= total_len(fs, n),
        joined(fs, n).subrange(
            total_len(fs, i as nat) as int,
            (total_len(fs, i as nat) + fs[i].len()) as int,
        ) == fs[i],
    decreases n,
{
    let before = joined(fs, (n - 1) as nat);
    if n > 1 {
        lemma_joined(fs, (n - 1) as nat, 0);
    } else {
        assert(before =~= Seq::<u8>::empty());
        assert(total_len(fs, 0) == 0);
    }
    let at = total_len(fs, i as nat) as int;
    if i == n - 1 {
        assert(joined(fs, n).subrange(at, at + fs[i].len()) =~= fs[i]);
    } else {
        lemma_joined(fs, (n - 1) as nat, i);
        assert(joined(fs, n).subrange(at, at + fs[i].len()) =~= before.subrange(
            at,
            at + fs[i].len(),
        ));
    }
}

/// The index of a superframe lists just its frames, with their lengths, and each frame
/// stands where the lengths of those before it say.
pub proof fn law_index_lists_frames(fs: Seq<Seq<u8>>, i: int)
    requires
        1 <= fs.len() <= 8,
        forall|k: int| 0 <= k < fs.len() ==> (#[trigger] fs[k]).len() < 0x1_0000_0000,
        0 <= i < fs.len(),
    ensures
        has_index(packed(fs)),
        listed(packed(fs)) == fs.len(),
        listed_len(packed(fs), i) == fs[i].len(),
        packed(fs).subrange(
            total_len(fs, i as nat) as int,
            (total_len(fs, i as nat) + fs[i].len()) as int,
        ) == fs[i],
{
    let n = fs.len();
    let most = longest(fs, n);
    let mag = size_bytes(most);
    let m = marker_of(mag, n);
    let d = packed(fs);
    let idx = index_of(fs, mag, n);
    let body = joined(fs, n);
    lemma_index_len(fs, mag, n);
    lemma_joined(fs, n, i);
    assert(d.last() == m);
    assert(m % 8 + 1 == n);
    assert((m / 8) % 4 + 1 == mag);
    assert(n * mag >= 0) by (nonlinear_arith);
    assert(d.len() == body.len() + 2 + n * mag);
    assert(d[d.len() - 2 - n * mag] == m);
    let at = d.len() - 1 - n * mag + i * mag;
    lemma_index_at(fs, mag, n, i);
    assert(d.subrange(at, at + mag) =~= idx.subrange(i * mag, i * mag + mag));
    lemma_longest(fs, n, i);
    lemma_longest_bound(fs, n);
    assert(fs[i].len() < vstd::arithmetic::power::pow(256, mag)) by {
        vstd::arithmetic::power::lemma_pow1(256);
        vstd::arithmetic::power::lemma_pow_adds(256, 1, 1);
        vstd::arithmetic::power::lemma_pow_adds(256, 1, 2);
        vstd::arithmetic::power::lemma_pow_adds(256, 1, 3);
    }
    lemma_low_number(d, at, fs[i].len(), mag);
    assert(d.subrange(
        total_len(fs, i as nat) as int,
        (total_len(fs, i as nat) + fs[i].len()) as int,
    ) =~= body.subrange(
        total_len(fs, i as nat) as int,
        (total_len(fs, i as nat) + fs[i].len()) as int,
    ));
}

/// The longest frame is one of the frames.
proof fn lemma_longest_bound(fs: Seq<Seq<u8>>, n: nat)
    requires
        n <= fs.len(),
        forall|k: int| 0 <= k < fs.len() ==> (#[trigger] fs[k]).len() < 0x1_0000_0000,
    ensures
        longest(fs, n) < 0x1_0000_0000,
    decreases n,
{
    if n > 0 {
        lemma_longest_bound(fs, (n - 1) as nat);
        assert(fs[n - 1].len() < 0x1_0000_0000);
    }
}

} // verus!
