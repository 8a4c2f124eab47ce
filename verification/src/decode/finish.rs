//! What is left once all blocks of a frame are read: the frame, what is kept of its
//! probabilities, its motion and its segments.
use vstd::arithmetic::div_mod::*;
use vstd::prelude::*;

use crate::block::ModeInfo;
use crate::coding;
use crate::coding::Cursor;
use crate::context::FrameContext;
use crate::decode::compressed::header_gives;
use crate::decode::frame::{
    adapt_context, begins, counts_fit, header_ends, header_in, kept_context, visible, MvRef,
    RefFrame,
};
use crate::decode::plane::Plane;
use crate::decode::reconstructor::Reconstructor;
use crate::decode::tour::{tile_begun, tours, Place, Shape, Stop};
use crate::encode::compressed::law_compressed_gives_one;
use crate::error::Result;
use crate::header::FrameHeader;

verus! {

/// A frame that was read, and what the frames behind it may build on.
pub struct Decoded {
    pub frame: RefFrame,
    pub context: FrameContext,
    pub motion: Vec<MvRef>,
    pub segments: Vec<u8>,
}

/// The visible samples of the three planes, and their widths and heights.
pub type Visible = ([Vec<u8>; 3], [usize; 3], [usize; 3]);

/// The visible part of a plane lies in it.
pub open spec fn plane_holds(p: Plane) -> bool {
    p.width <= p.stride && p.stride * p.height <= p.buf@.len()
}

/// Plane `p` of `f` is `from`.
pub open spec fn is_plane(f: RefFrame, p: int, from: Plane) -> bool {
    &&& f.planes[p]@ == from.buf@
    &&& f.stride[p] == from.stride
    &&& f.w[p] == from.width
    &&& f.h[p] == from.height
}

impl Reconstructor {
    /// Finishes a frame whose blocks are all read and whose planes are filtered.
    pub fn finish(
        self,
        h: &FrameHeader,
        pre_fc: &FrameContext,
        planes: (Plane, Plane, Plane),
        last_frame_key: bool,
    ) -> (r: Decoded)
        requires
            counts_fit(self.counts),
            plane_holds(planes.0),
            plane_holds(planes.1),
            plane_holds(planes.2),
        ensures
            r.frame.wf(),
            is_plane(r.frame, 0, planes.0),
            is_plane(r.frame, 1, planes.1),
            is_plane(r.frame, 2, planes.2),
            r.frame.ss_x == self.ss_x,
            r.frame.ss_y == self.ss_y,
            r.frame.bit_depth == (if h.bit_depth < 8 {
                8
            } else {
                h.bit_depth
            }),
            kept_context(*h, *pre_fc, self.fc, self.counts, last_frame_key, r.context),
            r.motion@ == self.mi@.map_values(
                |m: ModeInfo| MvRef { ref_frame: m.ref_frame, mv: m.mv },
            ),
            r.segments@ == self.cur_seg_map@,
    {
        let context: FrameContext = adapt_context(
            h,
            pre_fc,
            &self.fc,
            &self.counts,
            last_frame_key,
        );
        let motion: Vec<MvRef> = self.motion_records();
        let (y, u, v): (Plane, Plane, Plane) = planes;
        let frame: RefFrame = RefFrame {
            stride: [y.stride, u.stride, v.stride],
            w: [y.width, u.width, v.width],
            h: [y.height, u.height, v.height],
            planes: [y.buf, u.buf, v.buf],
            ss_x: self.ss_x,
            ss_y: self.ss_y,
            bit_depth: if h.bit_depth < 8 {
                8
            } else {
                h.bit_depth
            },
        };
        Decoded { frame, context, motion, segments: self.cur_seg_map }
    }
}

impl RefFrame {
    /// The visible samples of all planes, cut to eight bits.
    pub fn visible_planes(&self) -> (r: Visible)
        requires
            self.wf(),
        ensures
            r.1 == self.w,
            r.2 == self.h,
            forall|p: int|
                0 <= p < 3 ==> (#[trigger] r.0[p])@ == visible(
                    self.planes[p]@,
                    self.stride[p] as int,
                    self.w[p] as int,
                    self.h[p] as int,
                ),
    {
        let (y, u, v): (Vec<u8>, Vec<u8>, Vec<u8>) = (
            self.visible(0),
            self.visible(1),
            self.visible(2),
        );
        ([y, u, v], self.w, self.h)
    }
}

/// The visible samples of a plane are those of its rows, from the first on, as far as the
/// frame is wide and high, each cut to eight bits.
pub proof fn law_visible_is_crop(samples: Seq<u16>, stride: int, w: int, h: int, y: int, x: int)
    requires
        0 <= x < w,
        0 <= y < h,
    ensures
        visible(samples, stride, w, h).len() == w * h,
        y * w + x < w * h,
        visible(samples, stride, w, h)[y * w + x] == samples[y * stride + x] as u8,
{
    let i = y * w + x;
    assert(0 <= i < h * w && h * w == w * h) by (nonlinear_arith)
        requires
            0 <= x < w,
            0 <= y < h,
            i == y * w + x,
    ;
    lemma_fundamental_div_mod_converse(i, w, y, x);
}

/// What is kept of the probabilities of a frame: those that its compressed header gives,
/// unless the frame is adapted to; and in a frame without references they then differ from
/// those in the coefficients alone. `first` is the state in which reading begins, `parsed`
/// what the compressed header gives, and `fc` the probabilities at the end, which reading
/// blocks leaves as they are.
pub proof fn law_kept_is_parsed(
    first: Reconstructor,
    h: FrameHeader,
    data: Seq<u8>,
    pre: FrameContext,
    prev: Option<Vec<u8>>,
    parsed: FrameContext,
    last: Reconstructor,
    last_frame_key: bool,
    kept: FrameContext,
)
    requires
        begins(first, h, data, pre, prev),
        header_gives(
            coding::opened(data.subrange(h.uncompressed_bytes as int, header_ends(h))),
            pre,
            h,
            parsed,
        ),
        last.fc == first.fc,
        kept_context(h, pre, last.fc, last.counts, last_frame_key, kept),
    ensures
        !h.refresh_frame_context || h.frame_parallel_decoding_mode ==> kept == parsed,
        h.key_frame || h.intra_only ==> kept == (FrameContext {
            coef_probs: kept.coef_probs,
            ..parsed
        }),
{
    reveal(header_in);
    law_compressed_gives_one(
        coding::opened(data.subrange(h.uncompressed_bytes as int, header_ends(h))),
        pre,
        h,
        first.fc,
        parsed,
    );
}

// ---------------------------------------------------------------------------
// A whole frame
// ---------------------------------------------------------------------------

/// What reading and reconstructing a block may change of the state: the segments, the
/// counts, the mode information, and the contexts of coefficients.
pub open spec fn reads_block(rec: Reconstructor, after: Reconstructor) -> bool {
    after == (Reconstructor {
        cur_seg_map: after.cur_seg_map,
        counts: after.counts,
        mi: after.mi,
        above_ctx: after.above_ctx,
        left_ctx: after.left_ctx,
        ..rec
    })
}

/// Whatever reads a part of a block changes no more than that: reading modes, storing
/// them, and leaving the contexts of coefficients. So does one part after the other.
pub proof fn law_parts_read_block(
    rec: Reconstructor,
    mid: Reconstructor,
    after: Reconstructor,
)
    ensures
        after.same_but_reading(&rec) ==> reads_block(rec, after),
        after == (Reconstructor { mi: after.mi, ..rec }) ==> reads_block(rec, after),
        after == (Reconstructor { counts: after.counts, ..rec }) ==> reads_block(rec, after),
        after == (Reconstructor {
            above_ctx: after.above_ctx,
            left_ctx: after.left_ctx,
            ..rec
        }) ==> reads_block(rec, after),
        reads_block(rec, mid) && reads_block(mid, after) ==> reads_block(rec, after),
{
}

/// A moment of reading a frame: where the tour is, and the state of the reader.
pub struct Moment {
    pub place: Place,
    pub rec: Reconstructor,
    pub c: Cursor,
}

/// The tour takes a step.
pub open spec fn tour_goes_on(data: Seq<u8>, shape: Shape, a: Moment, b: Moment) -> bool {
    exists|stop: Stop| #[trigger]
        tours(data, shape, a.place, a.rec, a.c, stop, b.place, b.rec, b.c)
}

/// From one moment of reading a frame to the next, the tour takes a step, or a block is
/// read while the tour stays where it is.
pub open spec fn goes_on(data: Seq<u8>, shape: Shape, a: Moment, b: Moment) -> bool {
    tour_goes_on(data, shape, a, b) || (b.place == a.place && reads_block(a.rec, b.rec))
}

/// A frame is read, moment by moment, from the state `first` in which the header leaves
/// the reader: the first tile is begun, and then the tour goes on and blocks are read.
/// `tiles` holds the bytes of all tiles.
pub open spec fn is_reading(
    first: Reconstructor,
    tiles: Seq<u8>,
    shape: Shape,
    ms: Seq<Moment>,
) -> bool {
    &&& ms.len() > 0
    &&& tile_begun(first, shape, 0, ms[0].rec)
    &&& forall|i: int| 0 <= i < ms.len() - 1 ==> goes_on(tiles, shape, #[trigger] ms[i], ms[i + 1])
}

/// What the header of a frame says stays as it is.
pub open spec fn same_header_state(a: Reconstructor, b: Reconstructor) -> bool {
    &&& b.fc == a.fc
    &&& b.lossless == a.lossless
    &&& b.seg == a.seg
    &&& b.qindex == a.qindex
    &&& b.prev_seg_map == a.prev_seg_map
    &&& b.mi_rows == a.mi_rows
    &&& b.mi_cols == a.mi_cols
    &&& b.is_inter_frame == a.is_inter_frame
    &&& b.interp_filter == a.interp_filter
    &&& b.allow_hp == a.allow_hp
    &&& b.sign_bias == a.sign_bias
    &&& b.ss_x == a.ss_x
    &&& b.ss_y == a.ss_y
}

/// Reading a whole frame leaves what its headers say as it is, the probabilities among it.
pub proof fn law_reading_keeps_header(
    first: Reconstructor,
    tiles: Seq<u8>,
    shape: Shape,
    ms: Seq<Moment>,
    n: int,
)
    requires
        is_reading(first, tiles, shape, ms),
        0 <= n < ms.len(),
    ensures
        same_header_state(first, ms[n].rec),
    decreases n,
{
    if n > 0 {
        law_reading_keeps_header(first, tiles, shape, ms, n - 1);
        let (a, b) = (ms[n - 1], ms[n - 1 + 1]);
        assert(goes_on(tiles, shape, a, b));
        if tour_goes_on(tiles, shape, a, b) {
            let stop = choose|stop: Stop| #[trigger]
                tours(tiles, shape, a.place, a.rec, a.c, stop, b.place, b.rec, b.c);
            lemma_step_keeps_header(tiles, shape, a, b, stop);
        }
    }
}

/// A step of the tour leaves what the headers say as it is.
proof fn lemma_step_keeps_header(
    data: Seq<u8>,
    shape: Shape,
    a: Moment,
    b: Moment,
    stop: Stop,
)
    requires
        tours(data, shape, a.place, a.rec, a.c, stop, b.place, b.rec, b.c),
    ensures
        same_header_state(a.rec, b.rec),
{
}

/// What is kept of the probabilities of a whole frame. A frame is read from its headers to
/// its last block and then finished: if it is not adapted to, the probabilities that are
/// kept are those that its compressed header gives; and on a frame without references they
/// differ from those in the coefficients alone, adapted to or not.
pub proof fn law_frame_keeps_parsed(
    first: Reconstructor,
    h: FrameHeader,
    data: Seq<u8>,
    pre: FrameContext,
    prev: Option<Vec<u8>>,
    parsed: FrameContext,
    shape: Shape,
    ms: Seq<Moment>,
    last_frame_key: bool,
    kept: FrameContext,
)
    requires
        begins(first, h, data, pre, prev),
        header_gives(
            coding::opened(data.subrange(h.uncompressed_bytes as int, header_ends(h))),
            pre,
            h,
            parsed,
        ),
        is_reading(first, data.skip(header_ends(h)), shape, ms),
        kept_context(h, pre, ms.last().rec.fc, ms.last().rec.counts, last_frame_key, kept),
    ensures
        ms.last().rec.fc == parsed,
        !h.refresh_frame_context || h.frame_parallel_decoding_mode ==> kept == parsed,
        h.key_frame || h.intra_only ==> kept == (FrameContext {
            coef_probs: kept.coef_probs,
            ..parsed
        }),
{
    let last = ms.last().rec;
    law_reading_keeps_header(first, data.skip(header_ends(h)), shape, ms, ms.len() - 1);
    reveal(header_in);
    law_compressed_gives_one(
        coding::opened(data.subrange(h.uncompressed_bytes as int, header_ends(h))),
        pre,
        h,
        first.fc,
        parsed,
    );
    law_kept_is_parsed(first, h, data, pre, prev, parsed, last, last_frame_key, kept);
}

/// The visible samples of a frame, where it could be read; else the reason why not.
pub fn visible_of(decoded: Result<Decoded>) -> (r: Result<Visible>)
    requires
        decoded is Ok ==> decoded.unwrap().frame.wf(),
    ensures
        match (decoded, r) {
            (Ok(d), Ok(v)) => {
                &&& v.1 == d.frame.w
                &&& v.2 == d.frame.h
                &&& forall|p: int|
                    0 <= p < 3 ==> (#[trigger] v.0[p])@ == visible(
                        d.frame.planes[p]@,
                        d.frame.stride[p] as int,
                        d.frame.w[p] as int,
                        d.frame.h[p] as int,
                    )
            },
            (Err(e), Err(f)) => e == f,
            _ => false,
        },
{
    match decoded {
        Ok(d) => Ok(d.frame.visible_planes()),
        Err(e) => Err(e),
    }
}

} // verus!
