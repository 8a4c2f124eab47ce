//! What a frame says is what was put into it.
use vstd::arithmetic::power2::lemma2_to64;
use vstd::prelude::*;

use crate::coding;
use crate::context::FrameContext;
use crate::decode::frame::{header_ends, header_in};
use crate::encode::bitwriter::{has_bits, packs};
use crate::encode::compressed;
use crate::encode::compressed::{header_syms, law_compressed_read_inverts_write};
use crate::encode::frame::framed;
use crate::encode::frameenc::{
    compressed_part, guarded, is_frame, is_frame_header, sized_header, uncompressed_part,
    FrameEncoder,
};
use crate::encode::header;
use crate::encode::header::{
    header_bits, law_bits_say_one_header, law_header_read_inverts_write,
};
use crate::error::Error;
use crate::header::{blank_lead, tile_bounds, FrameHeader};

verus! {

/// Bytes that hold bits still do so with more bytes behind them.
proof fn lemma_packs_prefix(u: Seq<u8>, rest: Seq<u8>, bits: Seq<bool>)
    requires
        packs(u, bits),
    ensures
        has_bits(u + rest, 0, bits),
        bits.len() <= 8 * u.len(),
{
    let d = u + rest;
    assert forall|i: nat| i < bits.len() implies (#[trigger] coding::data_bit(d, 0 + i) == 1)
        == bits[i as int] by {
        assert(d[(i / 8) as int] == u[(i / 8) as int]);
        assert(coding::data_bit(d, i) == coding::data_bit(u, i));
    }
}

/// Two headers say the same.
#[verifier::opaque]
spec fn say_same(a: FrameHeader, b: FrameHeader) -> bool {
    &&& a.lead() == b.lead()
    &&& a.tail() == b.tail()
    &&& a.show_existing_frame == b.show_existing_frame
    &&& a.error_resilient == b.error_resilient
    &&& a.width == b.width
}

/// The length of a header is no part of what it says.
proof fn lemma_say_same(b: FrameHeader, n: usize)
    ensures
        say_same((FrameHeader { uncompressed_bytes: n, ..b }), b),
{
    reveal(say_same);
    let a = FrameHeader { uncompressed_bytes: n, ..b };
    assert(a.lead().refs =~= b.lead().refs);
    assert(a.lf().updates =~= b.lf().updates);
    assert(a.seg().tree_probs =~= b.seg().tree_probs);
    assert(a.seg().pred_probs =~= b.seg().pred_probs);
    assert(a.seg().features =~= b.seg().features);
}

/// Headers that say the same have the same bits.
proof fn lemma_same_bits(a: FrameHeader, b: FrameHeader)
    requires
        say_same(a, b),
    ensures
        header_bits(a) == header_bits(b),
{
    reveal(say_same);
}

/// The header as it is read: frames that are made to survive losses are read without
/// adaptation.
pub open spec fn as_read(h: FrameHeader) -> FrameHeader {
    FrameHeader {
        frame_parallel_decoding_mode: h.frame_parallel_decoding_mode || h.error_resilient,
        ..h
    }
}

/// The bits of a header are those of the header as it is read.
proof fn lemma_read_bits(b: FrameHeader)
    ensures
        header_bits(as_read(b)) == header_bits(b),
{
    let a = as_read(b);
    if b.error_resilient {
        assert(a.lead().refs =~= b.lead().refs);
        assert(a.lead() == b.lead());
        lemma_tail_parallel(a, b);
    } else {
        assert(a == b);
    }
}

/// The tail of a header that is made to survive losses does not say whether there is
/// adaptation.
proof fn lemma_tail_parallel(a: FrameHeader, b: FrameHeader)
    requires
        a == (FrameHeader {
            frame_parallel_decoding_mode: a.frame_parallel_decoding_mode,
            ..b
        }),
        b.error_resilient,
    ensures
        header::tail_bits(a.tail(), true, a.width as int) == header::tail_bits(
            b.tail(),
            true,
            b.width as int,
        ),
{
    reveal(header::tail_bits);
    assert(a.lf().updates =~= b.lf().updates);
    assert(a.seg().tree_probs =~= b.seg().tree_probs);
    assert(a.seg().pred_probs =~= b.seg().pred_probs);
    assert(a.seg().features =~= b.seg().features);
    assert(a.lf() == b.lf());
    assert(a.seg() == b.seg());
    assert(a.quant() == b.quant());
}

/// The bytes `u` are a header as it is read, whatever its length is said to be.
proof fn lemma_header_bytes(b: FrameHeader, n: usize, u: Seq<u8>)
    requires
        uncompressed_part(b, u),
    ensures
        uncompressed_part((FrameHeader { uncompressed_bytes: n, ..as_read(b) }), u),
{
    reveal(uncompressed_part);
    lemma_read_bits(b);
    lemma_say_same(as_read(b), n);
    lemma_same_bits(FrameHeader { uncompressed_bytes: n, ..as_read(b) }, as_read(b));
}

/// Whether a header can be coded does not depend on its length.
proof fn lemma_codable(b: FrameHeader, n: usize)
    requires
        header::codable(b),
    ensures
        header::codable((FrameHeader { uncompressed_bytes: n, ..b })),
{
    lemma_say_same(b, n);
    reveal(say_same);
}

/// The header that bytes say is read from them, whatever follows them.
proof fn lemma_header_back(f: FrameHeader, u: Seq<u8>, rest: Seq<u8>, sizes: Seq<(u32, u32)>)
    requires
        header::codable(f),
        uncompressed_part(f, u),
        f.uncompressed_bytes == u.len(),
    ensures
        f.says(u + rest, 0, sizes),
{
    reveal(uncompressed_part);
    lemma_packs_prefix(u, rest, header_bits(f));
    law_header_read_inverts_write(f, u + rest, 0, sizes);
}

/// The compressed header of a finished frame is that of the frame.
proof fn lemma_compressed_back(
    h: FrameHeader,
    f: FrameHeader,
    initial: FrameContext,
    target: FrameContext,
)
    requires
        compressed::codable(initial, target, h),
        f == (FrameHeader {
            uncompressed_bytes: f.uncompressed_bytes,
            header_size: f.header_size,
            frame_parallel_decoding_mode: f.frame_parallel_decoding_mode,
            ..h
        }),
    ensures
        header_in(compressed_part(h, initial, target), initial, f, target),
{
    reveal(header_in);
    reveal(compressed_part);
    let syms = header_syms(initial, target, h);
    assert(header_syms(initial, target, f) == syms);
    assert(compressed::codable(initial, target, f));
    law_compressed_read_inverts_write(initial, target, f, Seq::empty());
    assert(syms + Seq::<coding::Sym>::empty() =~= syms);
}

/// A finished stream is not empty.
proof fn lemma_code_nonempty(h: FrameHeader, initial: FrameContext, target: FrameContext)
    ensures
        compressed_part(h, initial, target).len() > 0,
{
    reveal(compressed_part);
    coding::lemma_code_len(header_syms(initial, target, h));
}

/// The header of a finished frame, whose header takes `n` bytes.
pub open spec fn finished_header(
    h: FrameHeader,
    initial: FrameContext,
    target: FrameContext,
    n: usize,
) -> FrameHeader {
    FrameHeader {
        uncompressed_bytes: n,
        ..as_read(sized_header(h, compressed_part(h, initial, target)))
    }
}

/// The parts of a frame are found in it: `f` is read as its header, the compressed
/// header behind that turns `initial` into `target`, and what is left are the tiles,
/// with at most one byte behind them.
pub open spec fn frame_says(
    f: FrameHeader,
    initial: FrameContext,
    target: FrameContext,
    tiles: Seq<Seq<u8>>,
    out: Seq<u8>,
    sizes: Seq<(u32, u32)>,
) -> bool {
    let start = f.uncompressed_bytes as int;
    &&& f.says(out, 0, sizes)
    &&& 0 < f.header_size
    &&& header_ends(f) <= out.len()
    &&& header_in(out.subrange(start, header_ends(f)), initial, f, target)
    &&& out.skip(header_ends(f)) == framed(tiles, 0) || out.skip(header_ends(f)) == framed(
        tiles,
        0,
    ).push(0)
}

/// The parts of a frame stand one behind the other.
proof fn lemma_parts(u: Seq<u8>, c: Seq<u8>, t: Seq<u8>, out: Seq<u8>)
    requires
        out == guarded(u + c + t),
    ensures
        out == u + out.skip(u.len() as int),
        u.len() + c.len() <= out.len(),
        out.subrange(u.len() as int, (u.len() + c.len()) as int) == c,
        out.skip((u.len() + c.len()) as int) == t || out.skip((u.len() + c.len()) as int) == t.push(
            0,
        ),
{
    assert(out =~= u + out.skip(u.len() as int));
    assert(out.subrange(u.len() as int, (u.len() + c.len()) as int) =~= c);
    if out.len() == (u + c + t).len() {
        assert(out.skip((u.len() + c.len()) as int) =~= t);
    } else {
        assert(out.skip((u.len() + c.len()) as int) =~= t.push(0));
    }
}

/// Reading a frame inverts writing it: the header that is read is the one that was
/// written, with the lengths of the parts; the compressed header that is found behind it
/// turns the old probabilities into the new ones; and what is left are the tiles.
pub proof fn law_frame_read_inverts_write(
    h: FrameHeader,
    initial: FrameContext,
    target: FrameContext,
    tiles: Seq<Seq<u8>>,
    out: Seq<u8>,
    sizes: Seq<(u32, u32)>,
)
    requires
        is_frame(h, initial, target, tiles, out),
        header::codable(as_read(sized_header(h, compressed_part(h, initial, target)))),
        compressed::codable(initial, target, h),
        compressed_part(h, initial, target).len() < 0x10000,
    ensures
        exists|n: usize|
            frame_says(
                #[trigger] finished_header(h, initial, target, n),
                initial,
                target,
                tiles,
                out,
                sizes,
            ),
{
    let c = compressed_part(h, initial, target);
    let sized = sized_header(h, c);
    let t = framed(tiles, 0);
    let u = choose|u: Seq<u8>| #[trigger]
        uncompressed_part(sized, u) && out == guarded(u + c + t);
    assert(u.len() <= 88) by {
        reveal(uncompressed_part);
    }
    let n = u.len() as usize;
    let f = finished_header(h, initial, target, n);
    lemma_header_bytes(sized, n, u);
    lemma_codable(as_read(sized), n);
    lemma_parts(u, c, t, out);
    lemma_header_back(f, u, out.skip(u.len() as int), sizes);
    lemma_code_nonempty(h, initial, target);
    lemma_compressed_back(h, f, initial, target);
    assert(frame_says(f, initial, target, tiles, out, sizes));
}

/// The headers that an encoder makes can be coded, and so are read back: those of
/// frames with a quantizer index over zero, with a number of tiles that their width
/// allows.
pub proof fn law_encoder_headers_codable(e: FrameEncoder, h: FrameHeader, level: u32, size: u32)
    requires
        e.wf(),
        is_frame_header(e, h),
        e.qindex > 0,
        e.refresh_frame_flags < 256,
        level < 64,
        size < 0x10000,
        ({
            let (least, most) = tile_bounds(e.width as int);
            least <= e.tile_cols_log2 <= most
        }),
    ensures
        header::codable(
            as_read((FrameHeader { loop_filter_level: level, header_size: size, ..h })),
        ),
{
    let f = as_read(FrameHeader { loop_filter_level: level, header_size: size, ..h });
    lemma2_to64();
    assert(f.says_lead(f.lead()));
    assert(f.ref_sign_bias@.len() == 3);
    if !e.is_inter {
        assert(f.lead().refs =~= blank_lead().refs);
        assert(f.lead().signs =~= blank_lead().signs);
    }
    assert(header::codable_lead(f.lead()));
    lemma_plain_tail(f);
}

/// The tail of a header without deltas and segments says all of it.
proof fn lemma_plain_tail(f: FrameHeader)
    requires
        !f.lf_delta_enabled,
        f.loop_filter_level < 64,
        f.loop_filter_sharpness == 0,
        f.lf_ref_delta_updated@ == seq![false, false, false, false],
        f.lf_ref_deltas@ == seq![1i32, 0i32, -1i32, -1i32],
        f.lf_mode_delta_updated@ == seq![false, false],
        f.lf_mode_deltas@ == seq![0i32, 0i32],
        0 < f.base_q_idx <= 255,
        f.delta_q_y_dc == 0 && f.delta_q_uv_dc == 0 && f.delta_q_uv_ac == 0,
        !f.lossless,
        !f.seg_enabled && !f.seg_update_map && !f.seg_temporal_update && !f.seg_update_data
            && !f.seg_abs_delta,
        forall|i: int| 0 <= i < 7 ==> #[trigger] f.seg_tree_probs[i] == 255,
        forall|i: int| 0 <= i < 3 ==> #[trigger] f.seg_pred_probs[i] == 255,
        forall|i: int, j: int|
            0 <= i < 8 && 0 <= j < 4 ==> !#[trigger] f.seg_feature_enabled[i][j],
        forall|i: int, j: int|
            0 <= i < 8 && 0 <= j < 4 ==> #[trigger] f.seg_feature_data[i][j] == 0,
        f.frame_context_idx == 0,
        f.tile_rows_log2 == 0,
        f.header_size < 0x10000,
        f.error_resilient ==> !f.refresh_frame_context && f.frame_parallel_decoding_mode,
        ({
            let (least, most) = tile_bounds(f.width as int);
            least <= f.tile_cols_log2 <= most
        }),
    ensures
        f.says_tail(f.tail()),
        header::codable_tail(f.tail(), f.error_resilient, f.width as int),
{
    lemma2_to64();
    let lf = f.lf();
    let seg = f.seg();
    assert(f.lf_ref_delta_updated[0] == f.lf_ref_delta_updated@[0]);
    assert forall|i: int| 0 <= i < 6 implies #[trigger] lf.updates[i] is None by {
        if i < 4 {
            assert(f.lf_ref_delta_updated@[i] == seq![false, false, false, false][i]);
        } else {
            assert(f.lf_mode_delta_updated@[i - 4] == seq![false, false][i - 4]);
        }
    }
    assert(lf.updates =~= crate::header::no_updates());
    assert forall|i: int| 0 <= i < 4 implies #[trigger] f.lf_ref_deltas[i]
        == crate::header::LF_REF_DELTA_DEFAULTS[i] by {
        assert(f.lf_ref_deltas@[i] == seq![1i32, 0i32, -1i32, -1i32][i]);
    }
    assert forall|i: int| 0 <= i < 2 implies #[trigger] f.lf_mode_deltas[i] == 0 by {
        assert(f.lf_mode_deltas@[i] == seq![0i32, 0i32][i]);
    }
    assert(seg.tree_probs =~= crate::header::no_probs(7));
    assert(seg.pred_probs =~= crate::header::no_probs(3));
    assert forall|k: int| 0 <= k < 32 implies #[trigger] seg.features[k] is None by {
        assert(!f.seg_feature_enabled[k / 4][k % 4]);
    }
    assert(seg.features =~= crate::header::no_features());
    assert(f.says_lf(lf));
    assert(f.says_seg(seg)) by {
        assert forall|i: int, j: int| 0 <= i < 8 && 0 <= j < 4 implies
            #[trigger] f.seg_feature_enabled[i][j] == (seg.features[4 * i + j] is Some) by {}
    }
}

/// What a writer packed of a header is read without an error, whatever the sizes of the
/// kept frames, and reading stops right behind it.
pub proof fn law_header_is_read(h: FrameHeader, d: Seq<u8>, sizes: Seq<(u32, u32)>)
    requires
        header::codable(h),
        packs(d, header_bits(h)),
        d.len() <= usize::MAX,
    ensures
        crate::header::header_end(d, 0, sizes) == Ok::<nat, Error>(header_bits(h).len()),
        (FrameHeader { uncompressed_bytes: d.len() as usize, ..h }).says(d, 0, sizes),
{
    let n = d.len() as usize;
    let f = FrameHeader { uncompressed_bytes: n, ..h };
    lemma_codable(h, n);
    lemma_say_same(h, n);
    lemma_same_bits(f, h);
    lemma_packs_prefix(d, Seq::empty(), header_bits(h));
    assert(d + Seq::<u8>::empty() =~= d);
    law_header_read_inverts_write(f, d, 0, sizes);
}

/// What is read behind writing a header is that header: the bytes of
/// [`write_uncompressed_header`](crate::encode::header::write_uncompressed_header) from an
/// empty writer are read without an error, whatever the sizes of the kept frames, and
/// whatever header they are found to say is the one that was written, but for its length
/// in bytes, which only reading finds.
pub proof fn law_header_gives_header(
    h: FrameHeader,
    d: Seq<u8>,
    sizes: Seq<(u32, u32)>,
    read: FrameHeader,
)
    requires
        header::codable(h),
        packs(d, header_bits(h)),
        d.len() <= usize::MAX,
        read.says(d, 0, sizes),
    ensures
        crate::header::header_end(d, 0, sizes) == Ok::<nat, Error>(header_bits(h).len()),
        read == (FrameHeader { uncompressed_bytes: d.len() as usize, ..h }),
{
    let f = FrameHeader { uncompressed_bytes: d.len() as usize, ..h };
    law_header_is_read(h, d, sizes);
    law_bits_say_one_header(read, f, d, 0, sizes);
}

} // verus!
