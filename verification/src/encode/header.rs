//! Writing the uncompressed header.
//!
//! [`write_uncompressed_header`] is the inverse of
//! [`parse_uncompressed_header`](crate::header::parse_uncompressed_header): reading
//! what was written gives the header back ([`law_header_read_inverts_write`]).
use vstd::arithmetic::power2::*;
use vstd::prelude::*;

use crate::bits;
use crate::coding;
use crate::encode::bitwriter;
use crate::encode::bitwriter::{bits_of, has_bits, signed_bits, BitWriter};
use crate::error::Error;
use crate::header;
use crate::header::{
    tile_log2_bounds, Format, FrameHeader, Lead, LoopFilter, Quant, Segmentation, Tail, CS_RGB,
    FRAME_MARKER, LITERAL_TO_FILTER, SEG_FEATURE_BITS, SEG_FEATURE_SIGNED, SYNC_CODE,
};

verus! {

broadcast use {bitwriter::lemma_bits_len, bitwriter::lemma_add_assoc};

// ---------------------------------------------------------------------------
// The model of a header
// ---------------------------------------------------------------------------

impl FrameHeader {
    /// What the header says before its tail.
    pub open spec fn lead(&self) -> Lead {
        Lead {
            profile: self.profile as int,
            show_existing: self.show_existing_frame,
            frame_to_show: self.frame_to_show as int,
            key: self.key_frame,
            show: self.show_frame,
            resilient: self.error_resilient,
            intra_only: self.intra_only,
            reset_context: self.reset_frame_context as int,
            refresh_flags: self.refresh_frame_flags as int,
            refs: Seq::new(3, |i: int| self.ref_frame_idx[i] as int),
            signs: self.ref_sign_bias@,
            hp: self.allow_high_precision_mv,
            filter: self.interp_filter as int,
            format: Format {
                bit_depth: self.bit_depth as int,
                color_space: self.color_space as int,
                subsampling_x: self.subsampling_x as int,
                subsampling_y: self.subsampling_y as int,
            },
            width: self.width as int,
            height: self.height as int,
        }
    }

    /// What the header says of the loop filter.
    pub open spec fn lf(&self) -> LoopFilter {
        LoopFilter {
            level: self.loop_filter_level as int,
            sharpness: self.loop_filter_sharpness as int,
            delta_enabled: self.lf_delta_enabled,
            updates: Seq::new(
                6,
                |i: int|
                    if i < 4 {
                        if self.lf_ref_delta_updated[i] {
                            Some(self.lf_ref_deltas[i] as int)
                        } else {
                            None
                        }
                    } else if self.lf_mode_delta_updated[i - 4] {
                        Some(self.lf_mode_deltas[i - 4] as int)
                    } else {
                        None
                    },
            ),
        }
    }

    /// What the header says of the quantizer.
    pub open spec fn quant(&self) -> Quant {
        Quant {
            base: self.base_q_idx as int,
            y_dc: self.delta_q_y_dc as int,
            uv_dc: self.delta_q_uv_dc as int,
            uv_ac: self.delta_q_uv_ac as int,
        }
    }

    /// What the header says of the segmentation.
    pub open spec fn seg(&self) -> Segmentation {
        Segmentation {
            enabled: self.seg_enabled,
            update_map: self.seg_update_map,
            temporal_update: self.seg_temporal_update,
            update_data: self.seg_update_data,
            abs_delta: self.seg_abs_delta,
            tree_probs: Seq::new(7, |i: int| self.seg_tree_probs[i] as int),
            pred_probs: Seq::new(3, |i: int| self.seg_pred_probs[i] as int),
            features: Seq::new(
                32,
                |k: int|
                    if self.seg_feature_enabled[k / 4][k % 4] {
                        Some(self.seg_feature_data[k / 4][k % 4] as int)
                    } else {
                        None
                    },
            ),
        }
    }

    /// What the header says in its tail.
    pub open spec fn tail(&self) -> Tail {
        Tail {
            refresh_context: self.refresh_frame_context,
            parallel: self.frame_parallel_decoding_mode,
            context: self.frame_context_idx as int,
            lf: self.lf(),
            quant: self.quant(),
            seg: self.seg(),
            tile_cols_log2: self.tile_cols_log2 as int,
            tile_rows_log2: self.tile_rows_log2 as int,
            header_size: self.header_size as int,
        }
    }
}

// ---------------------------------------------------------------------------
// The bits of a header
// ---------------------------------------------------------------------------

pub open spec fn opt_signed_bits(v: Option<int>, n: nat) -> Seq<bool> {
    match v {
        Some(x) => seq![true] + signed_bits(x, n),
        None => seq![false],
    }
}

pub open spec fn opt_signeds_bits(vs: Seq<Option<int>>, n: nat, k: nat) -> Seq<bool>
    decreases k,
{
    if k == 0 {
        Seq::empty()
    } else {
        opt_signeds_bits(vs, n, (k - 1) as nat) + opt_signed_bits(vs[k - 1], n)
    }
}

pub open spec fn opt_prob_bits(v: int) -> Seq<bool> {
    if v != 255 {
        seq![true] + bits_of(v, 8)
    } else {
        seq![false]
    }
}

pub open spec fn opt_probs_bits(vs: Seq<int>, k: nat) -> Seq<bool>
    decreases k,
{
    if k == 0 {
        Seq::empty()
    } else {
        opt_probs_bits(vs, (k - 1) as nat) + opt_prob_bits(vs[k - 1])
    }
}

pub open spec fn magnitude(v: int) -> int {
    if v < 0 {
        -v
    } else {
        v
    }
}

pub open spec fn feature_bits(v: Option<int>, j: int) -> Seq<bool> {
    match v {
        Some(x) => seq![true] + bits_of(magnitude(x), SEG_FEATURE_BITS[j] as nat) + (
        if SEG_FEATURE_SIGNED[j] {
            seq![x < 0]
        } else {
            Seq::empty()
        }),
        None => seq![false],
    }
}

pub open spec fn features_bits(vs: Seq<Option<int>>, k: nat) -> Seq<bool>
    decreases k,
{
    if k == 0 {
        Seq::empty()
    } else {
        features_bits(vs, (k - 1) as nat) + feature_bits(vs[k - 1], (k - 1) % 4)
    }
}

/// Whether any of the deltas is set anew.
pub open spec fn any_update(m: LoopFilter) -> bool {
    exists|i: int| 0 <= i < 6 && (#[trigger] m.updates[i]) is Some
}

#[verifier::opaque]
pub open spec fn lf_bits(m: LoopFilter) -> Seq<bool> {
    bits_of(m.level, 6) + bits_of(m.sharpness, 3) + seq![m.delta_enabled] + (if !m.delta_enabled {
        Seq::empty()
    } else if any_update(m) {
        seq![true] + opt_signeds_bits(m.updates, 6, 6)
    } else {
        seq![false]
    })
}

pub open spec fn delta_q_bits(v: int) -> Seq<bool> {
    if v != 0 {
        seq![true] + signed_bits(v, 4)
    } else {
        seq![false]
    }
}

#[verifier::opaque]
pub open spec fn quant_bits(m: Quant) -> Seq<bool> {
    bits_of(m.base, 8) + delta_q_bits(m.y_dc) + delta_q_bits(m.uv_dc) + delta_q_bits(m.uv_ac)
}

pub open spec fn seg_map_bits(m: Segmentation) -> Seq<bool> {
    if m.update_map {
        seq![true] + opt_probs_bits(m.tree_probs, 7) + seq![m.temporal_update] + (
        if m.temporal_update {
            opt_probs_bits(m.pred_probs, 3)
        } else {
            Seq::empty()
        })
    } else {
        seq![false]
    }
}

pub open spec fn seg_data_bits(m: Segmentation) -> Seq<bool> {
    if m.update_data {
        seq![true] + seq![m.abs_delta] + features_bits(m.features, 32)
    } else {
        seq![false]
    }
}

#[verifier::opaque]
pub open spec fn seg_bits(m: Segmentation) -> Seq<bool> {
    if m.enabled {
        seq![true] + seg_map_bits(m) + seg_data_bits(m)
    } else {
        seq![false]
    }
}

/// One set bit for each step from `cur` up to `want`, then a clear one unless the
/// most has been reached.
pub open spec fn tile_cols_bits(cur: nat, most: nat, want: int) -> Seq<bool>
    decreases most - cur,
{
    if cur >= most {
        Seq::empty()
    } else if cur < want {
        seq![true] + tile_cols_bits(cur + 1, most, want)
    } else {
        seq![false]
    }
}

#[verifier::opaque]
pub open spec fn tile_rows_bits(rows: int) -> Seq<bool> {
    if rows >= 1 {
        seq![true] + seq![rows >= 2]
    } else {
        seq![false]
    }
}

#[verifier::opaque]
pub open spec fn tail_bits(t: Tail, resilient: bool, width: int) -> Seq<bool> {
    (if resilient {
        Seq::empty()
    } else {
        seq![t.refresh_context] + seq![t.parallel]
    }) + bits_of(t.context, 2) + lf_bits(t.lf) + quant_bits(t.quant) + seg_bits(t.seg)
        + tile_cols_bits(
        header::tile_bounds(width).0,
        header::tile_bounds(width).1,
        t.tile_cols_log2,
    ) + tile_rows_bits(t.tile_rows_log2) + bits_of(t.header_size, 16)
}

#[verifier::opaque]
pub open spec fn format_bits(f: Format, profile: int) -> Seq<bool> {
    let odd = profile == 1 || profile == 3;
    (if profile >= 2 {
        seq![f.bit_depth == 12]
    } else {
        Seq::empty()
    }) + bits_of(f.color_space, 3) + (if f.color_space != CS_RGB {
        if odd {
            seq![false] + seq![f.subsampling_x % 2 == 1] + seq![f.subsampling_y % 2 == 1]
                + seq![false]
        } else {
            seq![false]
        }
    } else if odd {
        seq![false]
    } else {
        Seq::empty()
    })
}

#[verifier::opaque]
pub open spec fn size_bits(width: int, height: int) -> Seq<bool> {
    bits_of(width - 1, 16) + bits_of(height - 1, 16) + seq![false]
}

/// The bits of the first `k` references and their signs.
pub open spec fn refs_bits(refs: Seq<int>, signs: Seq<bool>, k: nat) -> Seq<bool>
    decreases k,
{
    if k == 0 {
        Seq::empty()
    } else {
        refs_bits(refs, signs, (k - 1) as nat) + bits_of(refs[k - 1], 3) + seq![signs[k - 1]]
    }
}

pub open spec fn filter_bits(filter: int) -> Seq<bool> {
    if filter == 4 {
        seq![true]
    } else {
        seq![false] + bits_of(LITERAL_TO_FILTER[filter] as int, 2)
    }
}

#[verifier::opaque]
pub open spec fn key_bits(l: Lead) -> Seq<bool> {
    bits_of(SYNC_CODE as int, 24) + format_bits(l.format, l.profile) + size_bits(l.width, l.height)
}

#[verifier::opaque]
pub open spec fn intra_bits(l: Lead) -> Seq<bool> {
    bits_of(SYNC_CODE as int, 24) + (if l.profile > 0 {
        format_bits(l.format, l.profile)
    } else {
        Seq::empty()
    }) + bits_of(l.refresh_flags, 8) + size_bits(l.width, l.height)
}

#[verifier::opaque]
pub open spec fn inter_bits(l: Lead) -> Seq<bool> {
    bits_of(l.refresh_flags, 8) + refs_bits(l.refs, l.signs, 3) + seq![false] + seq![false]
        + seq![false] + size_bits(l.width, l.height) + seq![l.hp] + filter_bits(l.filter)
}

#[verifier::opaque]
pub open spec fn lead_bits(l: Lead) -> Seq<bool> {
    bits_of(FRAME_MARKER as int, 2) + seq![l.profile % 2 == 1] + seq![(l.profile / 2) % 2 == 1] + (
    if l.profile == 3 {
        seq![false]
    } else {
        Seq::empty()
    }) + seq![l.show_existing] + (if l.show_existing {
        bits_of(l.frame_to_show, 3)
    } else {
        seq![!l.key] + seq![l.show] + seq![l.resilient] + (if l.key {
            key_bits(l)
        } else {
            (if l.show {
                Seq::empty()
            } else {
                seq![l.intra_only]
            }) + (if l.resilient {
                Seq::empty()
            } else {
                bits_of(l.reset_context, 2)
            }) + (if l.intra_only {
                intra_bits(l)
            } else {
                inter_bits(l)
            })
        })
    })
}

/// The bits of a header.
pub open spec fn header_bits(h: FrameHeader) -> Seq<bool> {
    lead_bits(h.lead()) + (if h.show_existing_frame {
        Seq::empty()
    } else {
        tail_bits(h.tail(), h.error_resilient, h.width as int)
    })
}

// ---------------------------------------------------------------------------
// Writing
// ---------------------------------------------------------------------------

/// `w` has room for `n` more bits.
pub open spec fn room(w: &BitWriter, n: int) -> bool {
    w.wf() && w@.len() + n <= usize::MAX
}

/// `after` has written `bits`, at most `n` of them, behind what `before` had.
spec fn wrote(before: &BitWriter, after: &BitWriter, bits: Seq<bool>, n: int) -> bool {
    &&& after.wf()
    &&& after@ == before@ + bits
    &&& bits.len() <= n
}

fn put_flag(w: &mut BitWriter, b: bool)
    requires
        room(old(w), 1),
    ensures
        wrote(old(w), final(w), seq![b], 1),
{
    w.put_bit(
        if b {
            1
        } else {
            0
        },
    );
    assert(w@ =~= old(w)@ + seq![b]);
}

fn write_opt_signed(w: &mut BitWriter, updated: bool, v: i32, n: u32)
    requires
        room(old(w), n + 2),
        n <= 32,
    ensures
        wrote(
            old(w),
            final(w),
            opt_signed_bits(
                if updated {
                    Some(v as int)
                } else {
                    None
                },
                n as nat,
            ),
            n + 2,
        ),
{
    put_flag(w, updated);
    if updated {
        w.put_signed(v, n);
    }
}

fn write_loop_filter(w: &mut BitWriter, h: &FrameHeader)
    requires
        room(old(w), 60),
    ensures
        wrote(old(w), final(w), lf_bits(h.lf()), 60),
{
    proof {
        reveal(lf_bits);
    }
    let ghost m = h.lf();
    w.put(h.loop_filter_level, 6);
    w.put(h.loop_filter_sharpness, 3);
    put_flag(w, h.lf_delta_enabled);
    if h.lf_delta_enabled {
        let any: bool = h.lf_ref_delta_updated[0] || h.lf_ref_delta_updated[1]
            || h.lf_ref_delta_updated[2] || h.lf_ref_delta_updated[3] || h.lf_mode_delta_updated[0]
            || h.lf_mode_delta_updated[1];
        proof {
            assert(h.lf_ref_delta_updated[0] ==> m.updates[0] is Some);
            assert(h.lf_ref_delta_updated[1] ==> m.updates[1] is Some);
            assert(h.lf_ref_delta_updated[2] ==> m.updates[2] is Some);
            assert(h.lf_ref_delta_updated[3] ==> m.updates[3] is Some);
            assert(h.lf_mode_delta_updated[0] ==> m.updates[4] is Some);
            assert(h.lf_mode_delta_updated[1] ==> m.updates[5] is Some);
            assert(any == any_update(m));
        }
        put_flag(w, any);
        if any {
            let ghost before = w@;
            let mut i: usize = 0;
            assert(before + opt_signeds_bits(m.updates, 6, 0) =~= before);
            while i < 6
                invariant
                    i <= 6,
                    m == h.lf(),
                    w.wf(),
                    before.len() + 48 <= usize::MAX,
                    w@ == before + opt_signeds_bits(m.updates, 6, i as nat),
                    opt_signeds_bits(m.updates, 6, i as nat).len() <= 8 * i,
                decreases 6 - i,
            {
                if i < 4 {
                    write_opt_signed(w, h.lf_ref_delta_updated[i], h.lf_ref_deltas[i], 6);
                } else {
                    write_opt_signed(w, h.lf_mode_delta_updated[i - 4], h.lf_mode_deltas[i - 4], 6);
                }
                i = i + 1;
            }
        }
    } else {
        assert(w@ + Seq::<bool>::empty() =~= w@);
    }
}

fn write_delta_q(w: &mut BitWriter, dq: i32)
    requires
        room(old(w), 6),
    ensures
        wrote(old(w), final(w), delta_q_bits(dq as int), 6),
{
    if dq != 0 {
        put_flag(w, true);
        w.put_signed(dq, 4);
    } else {
        put_flag(w, false);
    }
}

fn write_quant(w: &mut BitWriter, h: &FrameHeader)
    requires
        room(old(w), 26),
    ensures
        wrote(old(w), final(w), quant_bits(h.quant()), 26),
{
    proof {
        reveal(quant_bits);
    }
    w.put(h.base_q_idx, 8);
    write_delta_q(w, h.delta_q_y_dc);
    write_delta_q(w, h.delta_q_uv_dc);
    write_delta_q(w, h.delta_q_uv_ac);
}

fn write_opt_probs(w: &mut BitWriter, probs: &[u8])
    requires
        room(old(w), 9 * probs@.len() as int),
    ensures
        wrote(
            old(w),
            final(w),
            opt_probs_bits(
                Seq::new(probs@.len(), |i: int| probs@[i] as int),
                probs@.len(),
            ),
            9 * probs@.len() as int,
        ),
{
    let ghost vs = Seq::new(probs@.len(), |i: int| probs@[i] as int);
    let ghost before = w@;
    assert(before + opt_probs_bits(vs, 0) =~= before);
    let mut i: usize = 0;
    while i < probs.len()
        invariant
            i <= probs@.len(),
            vs == Seq::new(probs@.len(), |i: int| probs@[i] as int),
            w.wf(),
            before.len() + 9 * probs@.len() <= usize::MAX,
            w@ == before + opt_probs_bits(vs, i as nat),
            opt_probs_bits(vs, i as nat).len() <= 9 * i,
        decreases probs@.len() - i,
    {
        if probs[i] != 255 {
            put_flag(w, true);
            w.put(probs[i] as u32, 8);
        } else {
            put_flag(w, false);
        }
        i = i + 1;
    }
}

fn write_feature(w: &mut BitWriter, enabled: bool, data: i32, j: usize)
    requires
        room(old(w), 10),
        j < 4,
    ensures
        wrote(
            old(w),
            final(w),
            feature_bits(
                if enabled {
                    Some(data as int)
                } else {
                    None
                },
                j as int,
            ),
            10,
        ),
{
    put_flag(w, enabled);
    if enabled {
        let size: u32 = if data < 0 {
            (-(data as i64)) as u32
        } else {
            data as u32
        };
        let n: u32 = SEG_FEATURE_BITS[j];
        assert(n <= 8);
        w.put(size, n);
        if SEG_FEATURE_SIGNED[j] {
            put_flag(w, data < 0);
        } else {
            assert(w@ + Seq::<bool>::empty() =~= w@);
        }
    }
}

fn write_segmentation(w: &mut BitWriter, h: &FrameHeader)
    requires
        room(old(w), 430),
    ensures
        wrote(old(w), final(w), seg_bits(h.seg()), 430),
{
    proof {
        reveal(seg_bits);
    }
    let ghost m = h.seg();
    put_flag(w, h.seg_enabled);
    if !h.seg_enabled {
        return;
    }
    put_flag(w, h.seg_update_map);
    if h.seg_update_map {
        write_opt_probs(w, &h.seg_tree_probs);
        assert(Seq::new(7, |i: int| h.seg_tree_probs@[i] as int) =~= m.tree_probs);
        put_flag(w, h.seg_temporal_update);
        if h.seg_temporal_update {
            write_opt_probs(w, &h.seg_pred_probs);
            assert(Seq::new(3, |i: int| h.seg_pred_probs@[i] as int) =~= m.pred_probs);
        } else {
            assert(w@ + Seq::<bool>::empty() =~= w@);
        }
    }
    assert(wrote(old(w), w, seq![true] + seg_map_bits(m), 93));
    put_flag(w, h.seg_update_data);
    if h.seg_update_data {
        put_flag(w, h.seg_abs_delta);
        let ghost before = w@;
        assert(before + features_bits(m.features, 0) =~= before);
        let mut k: usize = 0;
        while k < 32
            invariant
                k <= 32,
                m == h.seg(),
                w.wf(),
                before.len() + 320 <= usize::MAX,
                w@ == before + features_bits(m.features, k as nat),
                features_bits(m.features, k as nat).len() <= 10 * k,
            decreases 32 - k,
        {
            write_feature(
                w,
                h.seg_feature_enabled[k / 4][k % 4],
                h.seg_feature_data[k / 4][k % 4],
                k % 4,
            );
            k = k + 1;
        }
    }
}

fn write_tile_info(w: &mut BitWriter, h: &FrameHeader)
    requires
        room(old(w), 30),
        h.width <= u32::MAX - 7,
    ensures
        wrote(
            old(w),
            final(w),
            tile_cols_bits(
                header::tile_bounds(h.width as int).0,
                header::tile_bounds(h.width as int).1,
                h.tile_cols_log2 as int,
            ) + tile_rows_bits(h.tile_rows_log2 as int),
            30,
        ),
{
    proof {
        reveal(tile_rows_bits);
    }
    let (least, most): (u32, u32) = tile_log2_bounds(h.width);
    let ghost goal = tile_cols_bits(least as nat, most as nat, h.tile_cols_log2 as int);
    let ghost before = w@;
    let mut cur: u32 = least;
    let mut more: bool = true;
    let ghost mut done: Seq<bool> = Seq::empty();
    assert(before + done =~= before);
    assert(done + goal =~= goal);
    while more && cur < most
        invariant
            w.wf(),
            most <= 26,
            before.len() + 30 <= usize::MAX,
            w@ == before + done,
            done.len() <= cur + (if more {
                0int
            } else {
                1
            }),
            cur <= 26 || cur == least,
            least <= 20,
            more ==> done + tile_cols_bits(cur as nat, most as nat, h.tile_cols_log2 as int)
                == goal,
            !more ==> done == goal,
        decreases
                most - cur + (if more {
                    1int
                } else {
                    0
                }),
    {
        let step: bool = cur < h.tile_cols_log2;
        put_flag(w, step);
        proof {
            let rest = tile_cols_bits((cur + 1) as nat, most as nat, h.tile_cols_log2 as int);
            if step {
                assert(done + (seq![true] + rest) == (done + seq![true]) + rest);
            }
            done = done + seq![step];
        }
        if step {
            cur = cur + 1;
        } else {
            more = false;
        }
    }
    assert(done =~= goal);
    put_flag(w, h.tile_rows_log2 >= 1);
    if h.tile_rows_log2 >= 1 {
        put_flag(w, h.tile_rows_log2 >= 2);
    }
}

fn write_color_config(w: &mut BitWriter, h: &FrameHeader)
    requires
        room(old(w), 8),
    ensures
        wrote(old(w), final(w), format_bits(h.lead().format, h.profile as int), 8),
{
    proof {
        reveal(format_bits);
    }
    let odd: bool = h.profile == 1 || h.profile == 3;
    if h.profile >= 2 {
        put_flag(w, h.bit_depth == 12);
    } else {
        assert(w@ + Seq::<bool>::empty() =~= w@);
    }
    w.put(h.color_space, 3);
    if h.color_space != CS_RGB {
        put_flag(w, false);
        if odd {
            put_flag(w, h.subsampling_x % 2 == 1);
            put_flag(w, h.subsampling_y % 2 == 1);
            put_flag(w, false);
        }
    } else if odd {
        put_flag(w, false);
    } else {
        assert(w@ + Seq::<bool>::empty() =~= w@);
    }
}

/// Writes the size, and that the display size is the same.
fn write_frame_size(w: &mut BitWriter, h: &FrameHeader)
    requires
        room(old(w), 33),
        h.width >= 1,
        h.height >= 1,
    ensures
        wrote(old(w), final(w), size_bits(h.width as int, h.height as int), 33),
{
    proof {
        reveal(size_bits);
    }
    w.put(h.width - 1, 16);
    w.put(h.height - 1, 16);
    put_flag(w, false);
}

fn write_key(w: &mut BitWriter, h: &FrameHeader)
    requires
        room(old(w), 65),
        h.width >= 1,
        h.height >= 1,
    ensures
        wrote(old(w), final(w), key_bits(h.lead()), 65),
{
    proof {
        reveal(key_bits);
    }
    w.put(SYNC_CODE, 24);
    write_color_config(w, h);
    write_frame_size(w, h);
}

fn write_intra_only(w: &mut BitWriter, h: &FrameHeader)
    requires
        room(old(w), 73),
        h.width >= 1,
        h.height >= 1,
    ensures
        wrote(old(w), final(w), intra_bits(h.lead()), 73),
{
    proof {
        reveal(intra_bits);
    }
    w.put(SYNC_CODE, 24);
    if h.profile > 0 {
        write_color_config(w, h);
    } else {
        assert(w@ + Seq::<bool>::empty() =~= w@);
    }
    w.put(h.refresh_frame_flags, 8);
    write_frame_size(w, h);
}

fn write_inter(w: &mut BitWriter, h: &FrameHeader)
    requires
        room(old(w), 60),
        h.width >= 1,
        h.height >= 1,
        h.interp_filter <= 4,
        forall|i: int| 0 <= i < 3 ==> #[trigger] h.ref_frame_idx[i] <= u32::MAX,
    ensures
        wrote(old(w), final(w), inter_bits(h.lead()), 60),
{
    proof {
        reveal(inter_bits);
    }
    let ghost l = h.lead();
    w.put(h.refresh_frame_flags, 8);
    let ghost before = w@;
    assert(before + refs_bits(l.refs, l.signs, 0) =~= before);
    let mut i: usize = 0;
    while i < 3
        invariant
            i <= 3,
            l == h.lead(),
            w.wf(),
            before.len() + 12 <= usize::MAX,
            forall|i: int| 0 <= i < 3 ==> #[trigger] h.ref_frame_idx[i] <= u32::MAX,
            w@ == before + refs_bits(l.refs, l.signs, i as nat),
            refs_bits(l.refs, l.signs, i as nat).len() == 4 * i,
        decreases 3 - i,
    {
        let idx: usize = h.ref_frame_idx[i];
        w.put(idx as u32, 3);
        put_flag(w, h.ref_sign_bias[i]);
        i = i + 1;
    }
    // The size is always stated, never taken over from a reference.
    put_flag(w, false);
    put_flag(w, false);
    put_flag(w, false);
    write_frame_size(w, h);
    put_flag(w, h.allow_high_precision_mv);
    if h.interp_filter == 4 {
        put_flag(w, true);
    } else {
        put_flag(w, false);
        w.put(LITERAL_TO_FILTER[h.interp_filter as usize], 2);
    }
}

fn write_lead(w: &mut BitWriter, h: &FrameHeader)
    requires
        room(old(w), 100),
        !h.show_existing_frame ==> h.width >= 1 && h.height >= 1,
        !h.show_existing_frame && !h.key_frame && !h.intra_only ==> h.interp_filter <= 4 && (
        forall|i: int| 0 <= i < 3 ==> #[trigger] h.ref_frame_idx[i] <= u32::MAX),
    ensures
        wrote(old(w), final(w), lead_bits(h.lead()), 100),
{
    proof {
        reveal(lead_bits);
    }
    w.put(FRAME_MARKER, 2);
    put_flag(w, h.profile % 2 == 1);
    put_flag(w, (h.profile / 2) % 2 == 1);
    if h.profile == 3 {
        put_flag(w, false);
    } else {
        assert(w@ + Seq::<bool>::empty() =~= w@);
    }
    put_flag(w, h.show_existing_frame);
    if h.show_existing_frame {
        w.put(h.frame_to_show, 3);
        return;
    }
    put_flag(w, !h.key_frame);
    put_flag(w, h.show_frame);
    put_flag(w, h.error_resilient);
    if h.key_frame {
        write_key(w, h);
    } else {
        if !h.show_frame {
            put_flag(w, h.intra_only);
        } else {
            assert(w@ + Seq::<bool>::empty() =~= w@);
        }
        if !h.error_resilient {
            w.put(h.reset_frame_context, 2);
        } else {
            assert(w@ + Seq::<bool>::empty() =~= w@);
        }
        if h.intra_only {
            write_intra_only(w, h);
        } else {
            write_inter(w, h);
        }
    }
}

/// Writes the uncompressed header of a frame.
pub fn write_uncompressed_header(w: &mut BitWriter, h: &FrameHeader)
    requires
        old(w).wf(),
        old(w)@.len() + 700 <= usize::MAX,
        !h.show_existing_frame ==> 1 <= h.width <= u32::MAX - 7 && h.height >= 1,
        !h.show_existing_frame && !h.key_frame && !h.intra_only ==> h.interp_filter <= 4 && (
        forall|i: int| 0 <= i < 3 ==> #[trigger] h.ref_frame_idx[i] <= u32::MAX),
    ensures
        final(w).wf(),
        final(w)@ == old(w)@ + header_bits(*h),
        header_bits(*h).len() <= 700,
{
    proof {
        reveal(tail_bits);
    }
    write_lead(w, h);
    if h.show_existing_frame {
        assert(w@ + Seq::<bool>::empty() =~= w@);
        return;
    }
    if !h.error_resilient {
        put_flag(w, h.refresh_frame_context);
        put_flag(w, h.frame_parallel_decoding_mode);
    } else {
        assert(w@ + Seq::<bool>::empty() =~= w@);
    }
    w.put(h.frame_context_idx, 2);
    write_loop_filter(w, h);
    write_quant(w, h);
    write_segmentation(w, h);
    write_tile_info(w, h);
    w.put(h.header_size, 16);
}

// ---------------------------------------------------------------------------
// Reading back
// ---------------------------------------------------------------------------

/// `v` has at most `n` bits.
pub open spec fn fits(v: int, n: nat) -> bool {
    0 <= v < pow2(n)
}

/// The magnitude of `v` has at most `n` bits.
pub open spec fn fits_signed(v: int, n: nat) -> bool {
    -pow2(n) < v < pow2(n)
}

/// The bits of a loop filter say all of `m`.
pub open spec fn codable_lf(m: LoopFilter) -> bool {
    &&& fits(m.level, 6)
    &&& fits(m.sharpness, 3)
    &&& m.updates.len() == 6
    &&& !m.delta_enabled ==> m.updates == header::no_updates()
    &&& forall|i: int|
        0 <= i < 6 && (#[trigger] m.updates[i]) is Some ==> fits_signed(m.updates[i].unwrap(), 6)
}

/// The bits of a quantizer say all of `m`.
pub open spec fn codable_quant(m: Quant) -> bool {
    fits(m.base, 8) && fits_signed(m.y_dc, 4) && fits_signed(m.uv_dc, 4) && fits_signed(m.uv_ac, 4)
}

/// Feature `j` can have the value `v`.
pub open spec fn codable_feature(v: int, j: int) -> bool {
    if SEG_FEATURE_SIGNED[j] {
        fits_signed(v, SEG_FEATURE_BITS[j] as nat)
    } else {
        fits(v, SEG_FEATURE_BITS[j] as nat)
    }
}

/// The bits of a segmentation say all of `m`.
pub open spec fn codable_seg(m: Segmentation) -> bool {
    &&& m.tree_probs.len() == 7 && m.pred_probs.len() == 3 && m.features.len() == 32
    &&& !m.enabled ==> !m.update_map && !m.update_data
    &&& !m.update_map ==> !m.temporal_update && m.tree_probs == header::no_probs(7)
    &&& !m.temporal_update ==> m.pred_probs == header::no_probs(3)
    &&& !m.update_data ==> !m.abs_delta && m.features == header::no_features()
    &&& forall|i: int| 0 <= i < 7 ==> 0 <= #[trigger] m.tree_probs[i] <= 255
    &&& forall|i: int| 0 <= i < 3 ==> 0 <= #[trigger] m.pred_probs[i] <= 255
    &&& forall|k: int|
        0 <= k < 32 && (#[trigger] m.features[k]) is Some ==> codable_feature(
            m.features[k].unwrap(),
            k % 4,
        )
}

/// The bits of a tail say all of `t`.
pub open spec fn codable_tail(t: Tail, resilient: bool, width: int) -> bool {
    let (least, most) = header::tile_bounds(width);
    &&& resilient ==> !t.refresh_context && t.parallel
    &&& fits(t.context, 2)
    &&& codable_lf(t.lf)
    &&& codable_quant(t.quant)
    &&& codable_seg(t.seg)
    &&& least <= t.tile_cols_log2 && (t.tile_cols_log2 <= most || t.tile_cols_log2 == least)
    &&& 0 <= t.tile_rows_log2 <= 2
    &&& fits(t.header_size, 16)
}

/// The bits of a colour format say all of `f`.
pub open spec fn codable_format(f: Format, profile: int) -> bool {
    let odd = profile == 1 || profile == 3;
    &&& if profile >= 2 {
        f.bit_depth == 10 || f.bit_depth == 12
    } else {
        f.bit_depth == 8
    }
    &&& fits(f.color_space, 3)
    &&& f.color_space == CS_RGB ==> odd && f.subsampling_x == 0 && f.subsampling_y == 0
    &&& f.color_space != CS_RGB ==> if odd {
        0 <= f.subsampling_x <= 1 && 0 <= f.subsampling_y <= 1
    } else {
        f.subsampling_x == 1 && f.subsampling_y == 1
    }
}

/// The bits of a lead say all of `l`.
pub open spec fn codable_lead(l: Lead) -> bool {
    let blank = header::blank_lead();
    &&& 0 <= l.profile <= 3
    &&& l.refs.len() == 3 && l.signs.len() == 3
    &&& if l.show_existing {
        &&& fits(l.frame_to_show, 3)
        &&& l == (Lead {
            profile: l.profile,
            show_existing: true,
            frame_to_show: l.frame_to_show,
            ..blank
        })
    } else {
        &&& l.frame_to_show == 0
        &&& 1 <= l.width <= 65536 && 1 <= l.height <= 65536
        &&& l.key || l.show ==> !l.intra_only
        &&& l.key || l.resilient ==> l.reset_context == 0
        &&& fits(l.reset_context, 2)
        &&& fits(l.refresh_flags, 8)
        &&& l.key ==> l.refresh_flags == 0
        &&& if l.key || l.intra_only {
            &&& l.refs == blank.refs && l.signs == blank.signs && l.hp == blank.hp && l.filter
                == blank.filter
            &&& if l.key || l.profile > 0 {
                codable_format(l.format, l.profile)
            } else {
                l.format == (Format {
                    bit_depth: 8,
                    color_space: 1,
                    subsampling_x: 1,
                    subsampling_y: 1,
                })
            }
        } else {
            &&& forall|i: int| 0 <= i < 3 ==> fits(#[trigger] l.refs[i], 3)
            &&& 0 <= l.filter <= 4
            &&& l.format == header::no_format()
        }
    }
}

/// The bits of a header say all of `h` but its length in bytes: every field is in
/// its range, and those that are not written have the values that reading gives
/// them.
pub open spec fn codable(h: FrameHeader) -> bool {
    &&& h.says_lead(h.lead())
    &&& codable_lead(h.lead())
    &&& if h.show_existing_frame {
        h.no_tail()
    } else {
        h.says_tail(h.tail()) && codable_tail(h.tail(), h.error_resilient, h.width as int)
    }
}

proof fn lemma_flag(d: Seq<u8>, p: nat, b: bool)
    requires
        has_bits(d, p, seq![b]),
    ensures
        header::set_at(d, p) == b,
{
    assert((coding::data_bit(d, p + 0) == 1) == seq![b][0]);
}

proof fn lemma_uint(d: Seq<u8>, p: nat, v: int, n: nat)
    requires
        has_bits(d, p, bits_of(v, n)),
        fits(v, n),
    ensures
        coding::take_bits(d, p, n) == v,
{
    bitwriter::law_bits_read_inverts_write(d, p, v, n);
    vstd::arithmetic::div_mod::lemma_small_mod(v as nat, pow2(n));
}

proof fn lemma_opt_signed(d: Seq<u8>, p: nat, v: Option<int>, n: nat)
    requires
        has_bits(d, p, opt_signed_bits(v, n)),
        n <= 31,
        v is Some ==> fits_signed(v.unwrap(), n),
    ensures
        header::opt_signed_at(d, p, n) == (v, p + opt_signed_bits(v, n).len()),
{
    broadcast use bitwriter::lemma_has_concat;

    match v {
        Some(x) => {
            lemma_flag(d, p, true);
            bitwriter::law_signed_read_inverts_write(d, p + 1, x, n);
        },
        None => {
            lemma_flag(d, p, false);
        },
    }
}

proof fn lemma_opt_signeds(d: Seq<u8>, p: nat, vs: Seq<Option<int>>, n: nat, k: nat)
    requires
        has_bits(d, p, opt_signeds_bits(vs, n, k)),
        n <= 31,
        k <= vs.len(),
        forall|i: int|
            0 <= i < k && (#[trigger] vs[i]) is Some ==> fits_signed(vs[i].unwrap(), n),
    ensures
        header::opt_signeds_at(d, p, n, k) == (
            vs.take(k as int),
            p + opt_signeds_bits(vs, n, k).len(),
        ),
    decreases k,
{
    broadcast use bitwriter::lemma_has_concat;

    if k == 0 {
        assert(vs.take(0) =~= Seq::empty());
    } else {
        let j = (k - 1) as nat;
        lemma_opt_signeds(d, p, vs, n, j);
        lemma_opt_signed(d, p + opt_signeds_bits(vs, n, j).len(), vs[k - 1], n);
        assert(vs.take(k as int) =~= vs.take(j as int).push(vs[k - 1]));
    }
}

proof fn lemma_opt_probs(d: Seq<u8>, p: nat, vs: Seq<int>, k: nat)
    requires
        has_bits(d, p, opt_probs_bits(vs, k)),
        k <= vs.len(),
        forall|i: int| 0 <= i < k ==> 0 <= #[trigger] vs[i] <= 255,
    ensures
        header::opt_probs_at(d, p, k) == (vs.take(k as int), p + opt_probs_bits(vs, k).len()),
    decreases k,
{
    broadcast use bitwriter::lemma_has_concat;

    if k == 0 {
        assert(vs.take(0) =~= Seq::empty());
    } else {
        let j = (k - 1) as nat;
        lemma_opt_probs(d, p, vs, j);
        let q = p + opt_probs_bits(vs, j).len();
        let v = vs[k - 1];
        lemma2_to64();
        lemma_flag(d, q, v != 255);
        if v != 255 {
            lemma_uint(d, q + 1, v, 8);
        }
        assert(vs.take(k as int) =~= vs.take(j as int).push(v));
    }
}

proof fn lemma_feature(d: Seq<u8>, p: nat, v: Option<int>, j: int)
    requires
        has_bits(d, p, feature_bits(v, j)),
        0 <= j < 4,
        v is Some ==> codable_feature(v.unwrap(), j),
    ensures
        header::feature_at(d, p, j) == (v, p + feature_bits(v, j).len()),
{
    broadcast use bitwriter::lemma_has_concat;

    lemma_flag(d, p, v is Some);
    let n = SEG_FEATURE_BITS[j] as nat;
    assert(n <= 8);
    if v is Some {
        let x = v.unwrap();
        if SEG_FEATURE_SIGNED[j] {
            assert(signed_bits(x, n) =~= bits_of(magnitude(x), n) + seq![x < 0]);
            bitwriter::law_signed_read_inverts_write(d, p + 1, x, n);
        } else {
            lemma_uint(d, p + 1, x, n);
        }
    }
}

proof fn lemma_features(d: Seq<u8>, p: nat, vs: Seq<Option<int>>, k: nat)
    requires
        has_bits(d, p, features_bits(vs, k)),
        k <= vs.len(),
        forall|i: int|
            0 <= i < k && (#[trigger] vs[i]) is Some ==> codable_feature(vs[i].unwrap(), i % 4),
    ensures
        header::features_at(d, p, k) == (vs.take(k as int), p + features_bits(vs, k).len()),
    decreases k,
{
    broadcast use bitwriter::lemma_has_concat;

    if k == 0 {
        assert(vs.take(0) =~= Seq::empty());
    } else {
        let j = (k - 1) as nat;
        lemma_features(d, p, vs, j);
        lemma_feature(d, p + features_bits(vs, j).len(), vs[k - 1], (k - 1) % 4);
        assert(vs.take(k as int) =~= vs.take(j as int).push(vs[k - 1]));
    }
}

proof fn lemma_lf(d: Seq<u8>, p: nat, m: LoopFilter)
    requires
        has_bits(d, p, lf_bits(m)),
        codable_lf(m),
    ensures
        header::loop_filter_at(d, p) == (m, p + lf_bits(m).len()),
{
    reveal(lf_bits);
    reveal(header::loop_filter_at);
    broadcast use bitwriter::lemma_has_concat;

    lemma_uint(d, p, m.level, 6);
    lemma_uint(d, p + 6, m.sharpness, 3);
    lemma_flag(d, p + 9, m.delta_enabled);
    if m.delta_enabled {
        lemma_flag(d, p + 10, any_update(m));
        if any_update(m) {
            lemma_opt_signeds(d, p + 11, m.updates, 6, 6);
            assert(m.updates.take(6) =~= m.updates);
        } else {
            assert forall|i: int| 0 <= i < 6 implies m.updates[i] == header::no_updates()[i] by {
                assert(!(m.updates[i] is Some));
            }
            assert(m.updates =~= header::no_updates());
        }
    }
}

proof fn lemma_delta_q(d: Seq<u8>, p: nat, v: int)
    requires
        has_bits(d, p, delta_q_bits(v)),
        fits_signed(v, 4),
    ensures
        header::delta_q_at(d, p) == (v, p + delta_q_bits(v).len()),
{
    if v != 0 {
        lemma_opt_signed(d, p, Some(v), 4);
    } else {
        lemma_opt_signed(d, p, None, 4);
    }
}

proof fn lemma_quant(d: Seq<u8>, p: nat, m: Quant)
    requires
        has_bits(d, p, quant_bits(m)),
        codable_quant(m),
    ensures
        header::quant_at(d, p) == (m, p + quant_bits(m).len()),
{
    reveal(quant_bits);
    reveal(header::quant_at);
    broadcast use bitwriter::lemma_has_concat;

    lemma_uint(d, p, m.base, 8);
    lemma_delta_q(d, p + 8, m.y_dc);
    let q = p + 8 + delta_q_bits(m.y_dc).len();
    lemma_delta_q(d, q, m.uv_dc);
    lemma_delta_q(d, q + delta_q_bits(m.uv_dc).len(), m.uv_ac);
}

proof fn lemma_seg(d: Seq<u8>, p: nat, m: Segmentation)
    requires
        has_bits(d, p, seg_bits(m)),
        codable_seg(m),
    ensures
        header::segmentation_at(d, p) == (m, p + seg_bits(m).len()),
{
    reveal(seg_bits);
    reveal(header::segmentation_at);
    broadcast use bitwriter::lemma_has_concat;

    lemma_flag(d, p, m.enabled);
    if m.enabled {
        assert(has_bits(d, p + 1, seg_map_bits(m)));
        assert(has_bits(d, p + 1 + seg_map_bits(m).len(), seg_data_bits(m)));
        lemma_flag(d, p + 1, m.update_map);
        if m.update_map {
            lemma_opt_probs(d, p + 2, m.tree_probs, 7);
            assert(m.tree_probs.take(7) =~= m.tree_probs);
            let q = p + 2 + opt_probs_bits(m.tree_probs, 7).len();
            lemma_flag(d, q, m.temporal_update);
            if m.temporal_update {
                lemma_opt_probs(d, q + 1, m.pred_probs, 3);
                assert(m.pred_probs.take(3) =~= m.pred_probs);
            }
        }
        let r = p + 1 + seg_map_bits(m).len();
        lemma_flag(d, r, m.update_data);
        if m.update_data {
            lemma_flag(d, r + 1, m.abs_delta);
            lemma_features(d, r + 2, m.features, 32);
            assert(m.features.take(32) =~= m.features);
        }
    }
}

proof fn lemma_tile_cols(d: Seq<u8>, p: nat, cur: nat, most: nat, want: int)
    requires
        has_bits(d, p, tile_cols_bits(cur, most, want)),
        cur <= want,
        want <= most || want == cur,
    ensures
        header::tile_cols_at(d, p, cur, most) == (
            want as nat,
            p + tile_cols_bits(cur, most, want).len(),
        ),
    decreases most - cur,
{
    broadcast use bitwriter::lemma_has_concat;

    if cur < most {
        lemma_flag(d, p, cur < want);
        if cur < want {
            lemma_tile_cols(d, p + 1, cur + 1, most, want);
        }
    }
}

proof fn lemma_tail(d: Seq<u8>, p: nat, t: Tail, resilient: bool, width: int)
    requires
        has_bits(d, p, tail_bits(t, resilient, width)),
        codable_tail(t, resilient, width),
    ensures
        header::tail_at(d, p, resilient, width) == (t, p + tail_bits(t, resilient, width).len()),
{
    reveal(tail_bits);
    reveal(header::tail_at);
    reveal(tile_rows_bits);
    broadcast use bitwriter::lemma_has_concat;

    let (least, most) = header::tile_bounds(width);
    let flags = if resilient {
        Seq::<bool>::empty()
    } else {
        seq![t.refresh_context] + seq![t.parallel]
    };
    if !resilient {
        lemma_flag(d, p, t.refresh_context);
        lemma_flag(d, p + 1, t.parallel);
    }
    let p1 = p + flags.len();
    lemma_uint(d, p1, t.context, 2);
    let p2 = p1 + 2;
    lemma_lf(d, p2, t.lf);
    let p3 = p2 + lf_bits(t.lf).len();
    lemma_quant(d, p3, t.quant);
    let p4 = p3 + quant_bits(t.quant).len();
    lemma_seg(d, p4, t.seg);
    let p5 = p4 + seg_bits(t.seg).len();
    lemma_tile_cols(d, p5, least, most, t.tile_cols_log2);
    let p6 = p5 + tile_cols_bits(least, most, t.tile_cols_log2).len();
    lemma_flag(d, p6, t.tile_rows_log2 >= 1);
    if t.tile_rows_log2 >= 1 {
        lemma_flag(d, p6 + 1, t.tile_rows_log2 >= 2);
    }
    lemma_uint(d, p6 + tile_rows_bits(t.tile_rows_log2).len(), t.header_size, 16);
}

proof fn lemma_format(d: Seq<u8>, p: nat, f: Format, profile: int)
    requires
        has_bits(d, p, format_bits(f, profile)),
        codable_format(f, profile),
        0 <= profile <= 3,
        p + format_bits(f, profile).len() <= 8 * d.len(),
    ensures
        header::format_at(d, p, profile) == (f, None::<Error>, p + format_bits(f, profile).len()),
{
    reveal(format_bits);
    reveal(header::format_at);
    broadcast use bitwriter::lemma_has_concat;

    if profile >= 2 {
        lemma_flag(d, p, f.bit_depth == 12);
    }
    let p1 = if profile >= 2 {
        p + 1
    } else {
        p
    };
    lemma_uint(d, p1, f.color_space, 3);
    let odd = profile == 1 || profile == 3;
    if f.color_space != CS_RGB {
        if odd {
            lemma_flag(d, p1 + 4, f.subsampling_x % 2 == 1);
            lemma_flag(d, p1 + 5, f.subsampling_y % 2 == 1);
            lemma_flag(d, p1 + 6, false);
        }
    } else {
        lemma_flag(d, p1 + 3, false);
    }
}

proof fn lemma_size(d: Seq<u8>, p: nat, width: int, height: int)
    requires
        has_bits(d, p, size_bits(width, height)),
        1 <= width <= 65536,
        1 <= height <= 65536,
    ensures
        header::size_at(d, p) == (width, height),
        header::after_render_size(d, p + 32) == p + 33,
{
    reveal(size_bits);
    broadcast use bitwriter::lemma_has_concat;

    lemma2_to64();
    lemma_uint(d, p, width - 1, 16);
    lemma_uint(d, p + 16, height - 1, 16);
    lemma_flag(d, p + 32, false);
}

proof fn lemma_key(d: Seq<u8>, p: nat, l: Lead, base: Lead)
    requires
        has_bits(d, p, key_bits(l)),
        codable_lead(l),
        !l.show_existing && l.key,
        p + key_bits(l).len() <= 8 * d.len(),
        base == (Lead {
            profile: l.profile,
            key: l.key,
            show: l.show,
            resilient: l.resilient,
            intra_only: l.intra_only,
            reset_context: l.reset_context,
            ..header::blank_lead()
        }),
    ensures
        header::key_lead_at(d, p, base) == Ok::<(Lead, nat), Error>((l, p + key_bits(l).len())),
{
    reveal(key_bits);
    reveal(header::key_lead_at);
    broadcast use bitwriter::lemma_has_concat;

    lemma2_to64();
    lemma_uint(d, p, SYNC_CODE as int, 24);
    lemma_format(d, p + 24, l.format, l.profile);
    lemma_size(d, p + 24 + format_bits(l.format, l.profile).len(), l.width, l.height);
    assert(size_bits(l.width, l.height).len() == 33) by {
        reveal(size_bits);
    }
    assert(header::key_lead_at(d, p, base).unwrap().0 =~= l);
}

proof fn lemma_intra(d: Seq<u8>, p: nat, l: Lead, base: Lead)
    requires
        has_bits(d, p, intra_bits(l)),
        codable_lead(l),
        !l.show_existing && !l.key && l.intra_only,
        p + intra_bits(l).len() <= 8 * d.len(),
        base == (Lead {
            profile: l.profile,
            key: l.key,
            show: l.show,
            resilient: l.resilient,
            intra_only: l.intra_only,
            reset_context: l.reset_context,
            ..header::blank_lead()
        }),
    ensures
        header::intra_lead_at(d, p, base) == Ok::<(Lead, nat), Error>((l, p + intra_bits(l).len())),
{
    reveal(intra_bits);
    reveal(header::intra_lead_at);
    broadcast use bitwriter::lemma_has_concat;

    lemma2_to64();
    lemma_uint(d, p, SYNC_CODE as int, 24);
    if l.profile > 0 {
        lemma_format(d, p + 24, l.format, l.profile);
    }
    let q = if l.profile > 0 {
        p + 24 + format_bits(l.format, l.profile).len()
    } else {
        p + 24
    };
    lemma_uint(d, q, l.refresh_flags, 8);
    lemma_size(d, q + 8, l.width, l.height);
    assert(size_bits(l.width, l.height).len() == 33) by {
        reveal(size_bits);
    }
    assert(header::intra_lead_at(d, p, base).unwrap().0 =~= l);
}

proof fn lemma_refs(d: Seq<u8>, p: nat, refs: Seq<int>, signs: Seq<bool>, k: nat)
    requires
        has_bits(d, p, refs_bits(refs, signs, k)),
        k <= refs.len(),
        k <= signs.len(),
        forall|i: int| 0 <= i < k ==> fits(#[trigger] refs[i], 3),
    ensures
        refs_bits(refs, signs, k).len() == 4 * k,
        forall|i: int|
            0 <= i < k ==> #[trigger] refs[i] == coding::take_bits(d, (p + 4 * i) as nat, 3),
        forall|i: int|
            0 <= i < k ==> #[trigger] signs[i] == header::set_at(d, (p + 3 + 4 * i) as nat),
    decreases k,
{
    broadcast use bitwriter::lemma_has_concat;

    if k > 0 {
        let j = (k - 1) as nat;
        assert(refs_bits(refs, signs, k) == refs_bits(refs, signs, j) + bits_of(refs[j as int], 3)
            + seq![signs[j as int]]);
        lemma_refs(d, p, refs, signs, j);
        lemma_uint(d, p + 4 * j, refs[j as int], 3);
        lemma_flag(d, p + 4 * j + 3, signs[j as int]);
    }
}

proof fn lemma_inter(d: Seq<u8>, p: nat, l: Lead, base: Lead, sizes: Seq<(u32, u32)>)
    requires
        has_bits(d, p, inter_bits(l)),
        codable_lead(l),
        !l.show_existing && !l.key && !l.intra_only,
        base == (Lead {
            profile: l.profile,
            key: l.key,
            show: l.show,
            resilient: l.resilient,
            intra_only: l.intra_only,
            reset_context: l.reset_context,
            ..header::blank_lead()
        }),
    ensures
        header::inter_lead_at(d, p, base, sizes) == (l, p + inter_bits(l).len()),
{
    reveal(inter_bits);
    reveal(header::inter_lead_at);
    broadcast use bitwriter::lemma_has_concat;

    lemma2_to64();
    lemma_uint(d, p, l.refresh_flags, 8);
    lemma_refs(d, p + 8, l.refs, l.signs, 3);
    assert(size_bits(l.width, l.height).len() == 33) by {
        reveal(size_bits);
    }
    lemma_flag(d, p + 20, false);
    lemma_flag(d, p + 21, false);
    lemma_flag(d, p + 22, false);
    lemma_size(d, p + 23, l.width, l.height);
    lemma_flag(d, p + 56, l.hp);
    lemma_flag(d, p + 57, l.filter == 4);
    if l.filter != 4 {
        lemma_uint(d, p + 58, LITERAL_TO_FILTER[l.filter] as int, 2);
    }
    let got = header::inter_lead_at(d, p, base, sizes).0;
    assert forall|i: int| 0 <= i < 3 implies got.refs[i] == l.refs[i] && got.signs[i]
        == l.signs[i] by {
        assert((p + 8 + 4 * i) as nat == ((p + 8) as nat + 4 * i) as nat);
        assert((p + 11 + 4 * i) as nat == ((p + 8) as nat + 3 + 4 * i) as nat);
    }
    assert(got.refs =~= l.refs);
    assert(got.signs =~= l.signs);
}

#[verifier::rlimit(60)]
proof fn lemma_lead(d: Seq<u8>, p: nat, l: Lead, sizes: Seq<(u32, u32)>)
    requires
        has_bits(d, p, lead_bits(l)),
        codable_lead(l),
        p + lead_bits(l).len() <= 8 * d.len(),
    ensures
        header::lead_at(d, p, sizes) == Ok::<(Lead, nat), Error>((l, p + lead_bits(l).len())),
{
    reveal(lead_bits);
    reveal(header::lead_at);
    broadcast use bitwriter::lemma_has_concat;

    lemma2_to64();
    lemma_uint(d, p, FRAME_MARKER as int, 2);
    lemma_flag(d, p + 2, l.profile % 2 == 1);
    lemma_flag(d, p + 3, (l.profile / 2) % 2 == 1);
    if l.profile == 3 {
        lemma_flag(d, p + 4, false);
    }
    let p1 = if l.profile == 3 {
        p + 5
    } else {
        p + 4
    };
    lemma_flag(d, p1, l.show_existing);
    if l.show_existing {
        lemma_uint(d, p1 + 1, l.frame_to_show, 3);
    } else {
        lemma_flag(d, p1 + 1, !l.key);
        lemma_flag(d, p1 + 2, l.show);
        lemma_flag(d, p1 + 3, l.resilient);
        let base = Lead {
            profile: l.profile,
            key: l.key,
            show: l.show,
            resilient: l.resilient,
            intra_only: l.intra_only,
            reset_context: l.reset_context,
            ..header::blank_lead()
        };
        if l.key {
            lemma_key(d, p1 + 4, l, base);
        } else {
            if !l.show {
                lemma_flag(d, p1 + 4, l.intra_only);
            }
            let p2 = if l.show {
                p1 + 4
            } else {
                p1 + 5
            };
            if !l.resilient {
                lemma_uint(d, p2, l.reset_context, 2);
            }
            let p3 = if l.resilient {
                p2
            } else {
                p2 + 2
            };
            if l.intra_only {
                lemma_intra(d, p3, l, base);
            } else {
                lemma_inter(d, p3, l, base, sizes);
            }
        }
    }
}

/// Reading a header inverts writing it: what [`write_uncompressed_header`] writes
/// of a codable header says that header and nothing else, whatever follows it and
/// whatever the sizes of the kept frames.
pub proof fn law_header_read_inverts_write(
    h: FrameHeader,
    d: Seq<u8>,
    p: nat,
    sizes: Seq<(u32, u32)>,
)
    requires
        codable(h),
        has_bits(d, p, header_bits(h)),
        p + header_bits(h).len() <= 8 * d.len(),
        h.uncompressed_bytes == (p + header_bits(h).len() + 7) / 8,
    ensures
        header::header_end(d, p, sizes) == Ok::<nat, Error>(p + header_bits(h).len()),
        h.says(d, p, sizes),
{
    broadcast use bitwriter::lemma_has_concat;

    let l = h.lead();
    lemma_lead(d, p, l, sizes);
    if !h.show_existing_frame {
        lemma_tail(d, p + lead_bits(l).len(), h.tail(), h.error_resilient, h.width as int);
    }
}

/// Bits say at most one header.
pub proof fn law_bits_say_one_header(
    a: FrameHeader,
    b: FrameHeader,
    d: Seq<u8>,
    p: nat,
    sizes: Seq<(u32, u32)>,
)
    requires
        a.says(d, p, sizes),
        b.says(d, p, sizes),
    ensures
        a == b,
{
    let lead = header::lead_at(d, p, sizes).unwrap().0;
    assert(a.ref_frame_idx =~= b.ref_frame_idx) by {
        assert forall|i: int| 0 <= i < 3 implies a.ref_frame_idx@[i] == b.ref_frame_idx@[i] by {
            assert(a.ref_frame_idx[i] == lead.refs[i]);
            assert(b.ref_frame_idx[i] == lead.refs[i]);
        }
    }
    assert(a.ref_sign_bias =~= b.ref_sign_bias);
    let t = header::tail_at(
        d,
        header::lead_at(d, p, sizes).unwrap().1,
        lead.resilient,
        lead.width,
    ).0;
    assert forall|i: int| 0 <= i < 4 implies a.lf_ref_delta_updated@[i]
        == b.lf_ref_delta_updated@[i] && a.lf_ref_deltas@[i] == b.lf_ref_deltas@[i] by {
        assert(a.lf_ref_delta_updated[i] == b.lf_ref_delta_updated[i]);
        assert(a.lf_ref_deltas[i] == b.lf_ref_deltas[i]);
    }
    assert(a.lf_ref_delta_updated =~= b.lf_ref_delta_updated);
    assert(a.lf_ref_deltas =~= b.lf_ref_deltas);
    assert forall|i: int| 0 <= i < 2 implies a.lf_mode_delta_updated@[i]
        == b.lf_mode_delta_updated@[i] && a.lf_mode_deltas@[i] == b.lf_mode_deltas@[i] by {
        assert(a.lf_mode_delta_updated[i] == b.lf_mode_delta_updated[i]);
        assert(a.lf_mode_deltas[i] == b.lf_mode_deltas[i]);
    }
    assert(a.lf_mode_delta_updated =~= b.lf_mode_delta_updated);
    assert(a.lf_mode_deltas =~= b.lf_mode_deltas);
    assert forall|i: int| 0 <= i < 7 implies a.seg_tree_probs@[i] == b.seg_tree_probs@[i] by {
        assert(a.seg_tree_probs[i] == b.seg_tree_probs[i]);
    }
    assert(a.seg_tree_probs =~= b.seg_tree_probs);
    assert forall|i: int| 0 <= i < 3 implies a.seg_pred_probs@[i] == b.seg_pred_probs@[i] by {
        assert(a.seg_pred_probs[i] == b.seg_pred_probs[i]);
    }
    assert(a.seg_pred_probs =~= b.seg_pred_probs);
    assert forall|i: int| 0 <= i < 8 implies a.seg_feature_enabled@[i] == b.seg_feature_enabled@[i]
        && a.seg_feature_data@[i] == b.seg_feature_data@[i] by {
        assert forall|j: int| 0 <= j < 4 implies a.seg_feature_enabled@[i]@[j]
            == b.seg_feature_enabled@[i]@[j] && a.seg_feature_data@[i]@[j]
            == b.seg_feature_data@[i]@[j] by {
            assert(a.seg_feature_enabled[i][j] == b.seg_feature_enabled[i][j]);
            assert(a.seg_feature_data[i][j] == b.seg_feature_data[i][j]);
        }
        assert(a.seg_feature_enabled@[i] =~= b.seg_feature_enabled@[i]);
        assert(a.seg_feature_data@[i] =~= b.seg_feature_data@[i]);
    }
    assert(a.seg_feature_enabled =~= b.seg_feature_enabled);
    assert(a.seg_feature_data =~= b.seg_feature_data);
}

} // verus!
