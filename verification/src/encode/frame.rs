//! Putting a frame together: the two headers and the tiles.
use vstd::arithmetic::power2::*;
use vstd::prelude::*;

use crate::coding;
use crate::decode::tiles;

verus! {

/// Appends `bytes` to `out`.
pub(crate) fn append(out: &mut Vec<u8>, bytes: &[u8])
    ensures
        final(out)@ == old(out)@ + bytes@,
{
    let ghost start = out@;
    let mut i: usize = 0;
    assert(start + bytes@.take(0) =~= start);
    while i < bytes.len()
        invariant
            i <= bytes@.len(),
            out@ == start + bytes@.take(i as int),
        decreases bytes@.len() - i,
    {
        out.push(bytes[i]);
        i = i + 1;
        assert(start + bytes@.take(i as int) =~= (start + bytes@.take(i - 1)).push(bytes@[i - 1]));
    }
    assert(bytes@.take(i as int) =~= bytes@);
}

/// The tiles from tile `i` on, each but the last behind its length in four bytes.
pub open spec fn framed(ts: Seq<Seq<u8>>, i: int) -> Seq<u8>
    decreases ts.len() - i,
{
    if i >= ts.len() {
        Seq::empty()
    } else if i + 1 == ts.len() {
        ts[i]
    } else {
        coding::spell(ts[i].len() as int, 4) + ts[i] + framed(ts, i + 1)
    }
}

/// The contents of a list of byte vectors.
pub open spec fn contents(ts: Seq<Vec<u8>>) -> Seq<Seq<u8>> {
    Seq::new(ts.len(), |i: int| ts[i]@)
}

/// Appends the four bytes of `v`, most significant first.
fn append_be32(out: &mut Vec<u8>, v: u32)
    ensures
        final(out)@ == old(out)@ + coding::spell(v as int, 4),
{
    let ghost start = out@;
    out.push((v / 0x100_0000) as u8);
    out.push((v / 0x1_0000 % 256) as u8);
    out.push((v / 256 % 256) as u8);
    out.push((v % 256) as u8);
    proof {
        let x = v as int;
        reveal_with_fuel(coding::spell, 5);
        assert(x / 256 / 256 == x / 0x1_0000);
        assert(x / 256 / 256 / 256 == x / 0x100_0000);
        assert(x / 0x100_0000 < 256);
        assert(out@ =~= start + coding::spell(x, 4));
    }
}

/// The four low bytes of a number do not depend on the rest of it.
proof fn lemma_spell_low(v: int)
    requires
        v >= 0,
    ensures
        coding::spell(v % 0x1_0000_0000, 4) == coding::spell(v, 4),
{
    reveal_with_fuel(coding::spell, 5);
    let m = v % 0x1_0000_0000;
    assert(m % 256 == v % 256);
    assert((m / 256) % 256 == (v / 256) % 256);
    assert((m / 256 / 256) % 256 == (v / 256 / 256) % 256);
    assert((m / 256 / 256 / 256) % 256 == (v / 256 / 256 / 256) % 256);
    assert(coding::spell(m, 4) =~= coding::spell(v, 4));
}

/// Packs the tiles of a frame: each tile but the last is preceded by its length in
/// four bytes, most significant first.
pub fn assemble_tiles(tiles: &[Vec<u8>]) -> (out: Vec<u8>)
    ensures
        out@ == framed(contents(tiles@), 0),
{
    let mut out: Vec<u8> = Vec::new();
    let n: usize = tiles.len();
    let ghost ts = contents(tiles@);
    let mut i: usize = 0;
    assert(out@ + framed(ts, 0) =~= framed(ts, 0));
    while i < n
        invariant
            i <= n,
            n == tiles@.len(),
            ts == contents(tiles@),
            out@ + framed(ts, i as int) == framed(ts, 0),
        decreases n - i,
    {
        let ghost before = out@;
        assert(ts[i as int] == tiles@[i as int]@);
        let len: usize = tiles[i].len();
        if i + 1 != n {
            let low: u32 = (len as u64 % 0x1_0000_0000) as u32;
            proof {
                lemma_spell_low(len as int);
            }
            append_be32(&mut out, low);
        }
        append(&mut out, tiles[i].as_slice());
        i = i + 1;
        proof {
            let t = ts[i - 1];
            if i != n {
                let s = coding::spell(t.len() as int, 4);
                assert(before + (s + t + framed(ts, i as int)) =~= before + s + t + framed(
                    ts,
                    i as int,
                ));
            } else {
                assert(before + t + framed(ts, i as int) =~= before + t);
            }
        }
    }
    assert(out@ + framed(ts, i as int) =~= out@);
    out
}

/// Puts a frame together: the uncompressed header, the compressed header, the tiles.
pub fn assemble_frame(
    uncompressed_header: &[u8],
    compressed_header: &[u8],
    tile_data: &[u8],
) -> (out: Vec<u8>)
    ensures
        out@ == uncompressed_header@ + compressed_header@ + tile_data@,
{
    let mut out: Vec<u8> = Vec::new();
    append(&mut out, uncompressed_header);
    append(&mut out, compressed_header);
    append(&mut out, tile_data);
    assert(out@ =~= uncompressed_header@ + compressed_header@ + tile_data@);
    out
}

/// Each part of an assembled frame is found where the lengths of the parts before it
/// say.
pub proof fn law_frame_parts(u: Seq<u8>, c: Seq<u8>, t: Seq<u8>)
    ensures
        (u + c + t).take(u.len() as int) == u,
        (u + c + t).subrange(u.len() as int, (u.len() + c.len()) as int) == c,
        (u + c + t).skip((u.len() + c.len()) as int) == t,
{
    assert((u + c + t).take(u.len() as int) =~= u);
    assert((u + c + t).subrange(u.len() as int, (u.len() + c.len()) as int) =~= c);
    assert((u + c + t).skip((u.len() + c.len()) as int) =~= t);
}

/// The bytes of the spans of `d` are the tiles `ts` from tile `i` on.
pub open spec fn spans_hold(
    d: Seq<u8>,
    spans: Seq<(nat, nat)>,
    ts: Seq<Seq<u8>>,
    i: int,
) -> bool {
    &&& spans.len() == ts.len() - i
    &&& forall|j: int|
        0 <= j < spans.len() ==> (#[trigger] spans[j]).0 <= spans[j].1 <= d.len() && d.subrange(
            spans[j].0 as int,
            spans[j].1 as int,
        ) == ts[i + j]
}

proof fn lemma_split_from(ts: Seq<Seq<u8>>, d: Seq<u8>, off: nat, i: int)
    requires
        0 <= i < ts.len(),
        off <= d.len(),
        d.skip(off as int) == framed(ts, i),
        forall|j: int| 0 <= j < ts.len() - 1 ==> (#[trigger] ts[j]).len() < 0x1_0000_0000,
    ensures
        match tiles::spans_from(d, off, (ts.len() - i) as nat) {
            Ok(spans) => spans_hold(d, spans, ts, i),
            Err(_) => false,
        },
    decreases ts.len() - i,
{
    let n = (ts.len() - i) as nat;
    if n == 1 {
        assert(tiles::spans_from(d, off, 0).unwrap() =~= Seq::empty());
        let spans = tiles::spans_from(d, off, 1).unwrap();
        reveal_with_fuel(tiles::spans_from, 2);
        assert(spans[0] == (off, d.len()));
        assert(d.subrange(off as int, d.len() as int) =~= d.skip(off as int));
    } else {
        let t = ts[i];
        let s = coding::spell(t.len() as int, 4);
        let rest = framed(ts, i + 1);
        lemma2_to64();
        coding::lemma_number_spell(t.len() as int, 4);
        let f = d.skip(off as int);
        assert(f == s + t + rest);
        assert(d.subrange(off as int, (off + 4) as int) =~= s) by {
            assert(d.subrange(off as int, (off + 4) as int) =~= f.take(4));
            assert(f.take(4) =~= s);
        }
        let next = (off + 4 + t.len()) as nat;
        assert(f.len() == 4 + t.len() + rest.len());
        assert(d.skip(next as int) =~= f.skip((4 + t.len()) as int));
        assert(f.skip((4 + t.len()) as int) =~= rest);
        lemma_split_from(ts, d, next, i + 1);
        assert(d.subrange((off + 4) as int, next as int) =~= f.subrange(4, (4 + t.len()) as int));
        assert(f.subrange(4, (4 + t.len()) as int) =~= t);
        let tail = tiles::spans_from(d, next, (n - 1) as nat).unwrap();
        let spans = seq![((off + 4) as nat, next)] + tail;
        assert(tiles::spans_from(d, off, n).unwrap() == spans);
        assert forall|j: int| 0 <= j < spans.len() implies (#[trigger] spans[j]).0 <= spans[j].1
            <= d.len() && d.subrange(spans[j].0 as int, spans[j].1 as int) == ts[i + j] by {
            if j > 0 {
                assert(spans[j] == tail[j - 1]);
                assert(d.subrange(tail[j - 1].0 as int, tail[j - 1].1 as int) == ts[i + 1 + (j
                    - 1)]);
            }
        }
    }
}

/// Splitting inverts assembling: the spans that the decoder finds in assembled tiles
/// hold exactly the tiles. A tile that is not the last is shorter than 2^32 bytes.
pub proof fn law_split_inverts_assemble(ts: Seq<Seq<u8>>)
    requires
        ts.len() > 0,
        forall|j: int| 0 <= j < ts.len() - 1 ==> (#[trigger] ts[j]).len() < 0x1_0000_0000,
    ensures
        match tiles::spans_from(framed(ts, 0), 0, ts.len()) {
            Ok(spans) => spans_hold(framed(ts, 0), spans, ts, 0),
            Err(_) => false,
        },
{
    assert(framed(ts, 0).skip(0) =~= framed(ts, 0));
    lemma_split_from(ts, framed(ts, 0), 0, 0);
}

} // verus!
