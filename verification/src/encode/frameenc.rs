//! Coding a frame: its setup, its references, its header, and putting it together.
use vstd::arithmetic::power2::{lemma2_to64, lemma_pow2_unfold, pow2};
use vstd::prelude::*;

use crate::adapt::min_int;
use crate::block::{is_default_mode_info, ModeInfo, TX_MODE_SELECT};
use crate::coding;
use crate::context::FrameContext;
use crate::decode::frame;
use crate::decode::frame::MvRef;
use crate::encode::aq::AQ_TREE_PROBS;
use crate::encode::bitwriter::{packs, BitWriter, BoolEncoder};
use crate::encode::compressed::{header_syms, in_reach, write_compressed_header};
use crate::encode::frame::{assemble_frame, assemble_tiles, contents, framed};
use crate::encode::header::{header_bits, write_uncompressed_header};
use crate::encode::pixels::Picture;
use crate::encode::snapshot::Canvas;
use crate::encode::source::{pad_rows, padded};
use crate::grid;
use crate::header::FrameHeader;

verus! {

/// The colour space of the frames that are coded.
pub const CS_BT_601: u32 = 1;

// ---------------------------------------------------------------------------
// Setup
// ---------------------------------------------------------------------------

/// The tools that a speed leaves on. Higher speeds leave out more.
#[derive(Clone, Copy, Debug, PartialEq, Eq, Structural)]
pub struct Tools {
    /// Blocks below 8x8.
    pub sub8x8: bool,
    /// The exhaustive search over whole pixels.
    pub full_msearch: bool,
    /// The short search over fractions of pixels.
    pub subpel_fast: bool,
    /// How much earlier than by default a square is not cut.
    pub gate_scale: u32,
    /// The search of transform sizes.
    pub use_tx_search: bool,
    /// New probabilities of coefficients.
    pub use_prob_updates: bool,
    /// Scoring every other tile.
    pub motion_fast: bool,
    /// Bilinear prediction while searching.
    pub subpel_bilinear: bool,
    /// The diagonal search over fractions of pixels.
    pub subpel_diag: bool,
    /// The strength of the loop filter by the quantizer.
    pub lf_from_q: bool,
    /// Giving up a cut that is worse than none.
    pub split_early: bool,
    /// Quarters of pixels only behind a better half.
    pub subpel_tree: bool,
    /// Cutting some 64x64 blocks by their variance.
    pub dispatch: bool,
    /// How many of them, in percent.
    pub dispatch_percent: u32,
    /// Deciding blocks that are cut by their variance from the last frame alone.
    pub fast_leaves: bool,
    /// Judging blocks by chroma too.
    pub chroma_rd: bool,
}

/// All tools are on that cost time, and none that saves it.
pub open spec fn all_tools() -> Tools {
    Tools {
        sub8x8: true,
        full_msearch: true,
        subpel_fast: false,
        gate_scale: 1,
        use_tx_search: true,
        use_prob_updates: true,
        motion_fast: false,
        subpel_bilinear: false,
        subpel_diag: false,
        lf_from_q: false,
        split_early: false,
        subpel_tree: false,
        dispatch: false,
        dispatch_percent: 50,
        fast_leaves: false,
        chroma_rd: false,
    }
}

/// The tools that a speed leaves on of `t`. What a speed has left out stays out at lower
/// ones.
pub open spec fn tools_after(t: Tools, speed: int) -> Tools {
    Tools {
        sub8x8: t.sub8x8 && speed < 1,
        full_msearch: t.full_msearch && speed < 1,
        subpel_fast: t.subpel_fast || speed >= 1,
        gate_scale: if speed >= 2 {
            4
        } else if speed >= 1 {
            2
        } else {
            t.gate_scale
        },
        use_tx_search: t.use_tx_search && speed < 2,
        use_prob_updates: t.use_prob_updates && speed < 2,
        motion_fast: t.motion_fast || speed >= 2,
        subpel_bilinear: t.subpel_bilinear || speed >= 2,
        subpel_diag: t.subpel_diag || speed >= 2,
        lf_from_q: t.lf_from_q || speed >= 4,
        split_early: t.split_early || speed >= 3,
        subpel_tree: t.subpel_tree || speed >= 3,
        dispatch: t.dispatch || speed >= 4,
        dispatch_percent: if speed >= 6 {
            90
        } else if speed == 5 {
            75
        } else if speed == 4 {
            50
        } else {
            t.dispatch_percent
        },
        fast_leaves: t.fast_leaves || speed >= 4,
        chroma_rd: speed <= 3,
    }
}

impl Tools {
    /// All tools that cost time, and none that saves it.
    pub fn all() -> (t: Tools)
        ensures
            t == all_tools(),
    {
        Tools {
            sub8x8: true,
            full_msearch: true,
            subpel_fast: false,
            gate_scale: 1,
            use_tx_search: true,
            use_prob_updates: true,
            motion_fast: false,
            subpel_bilinear: false,
            subpel_diag: false,
            lf_from_q: false,
            split_early: false,
            subpel_tree: false,
            dispatch: false,
            dispatch_percent: 50,
            fast_leaves: false,
            chroma_rd: false,
        }
    }

    /// Leaves out the tools that a speed leaves out.
    pub fn speed_up(&mut self, speed: u32)
        ensures
            *final(self) == tools_after(*old(self), speed as int),
    {
        if speed >= 1 {
            self.sub8x8 = false;
            self.full_msearch = false;
            self.subpel_fast = true;
            self.gate_scale = 2;
        }
        if speed >= 2 {
            self.use_tx_search = false;
            self.use_prob_updates = false;
            self.gate_scale = 4;
            self.motion_fast = true;
            self.subpel_bilinear = true;
            self.subpel_diag = true;
        }
        if speed >= 3 {
            self.split_early = true;
            self.subpel_tree = true;
        }
        if speed >= 4 {
            self.lf_from_q = true;
            self.dispatch = true;
            self.fast_leaves = true;
            self.dispatch_percent = if speed >= 6 {
                90
            } else if speed == 5 {
                75
            } else {
                50
            };
        }
        self.chroma_rd = speed <= 3;
    }
}

/// A higher speed leaves on no tool that costs time and that a lower one leaves out.
pub proof fn law_speeds_only_leave_out(t: Tools, slow: int, fast: int)
    requires
        0 <= slow <= fast,
    ensures
        ({
            let (a, b) = (tools_after(t, slow), tools_after(t, fast));
            &&& b.sub8x8 ==> a.sub8x8
            &&& b.full_msearch ==> a.full_msearch
            &&& b.use_tx_search ==> a.use_tx_search
            &&& b.use_prob_updates ==> a.use_prob_updates
            &&& b.chroma_rd ==> a.chroma_rd
            &&& a.subpel_fast ==> b.subpel_fast
            &&& a.motion_fast ==> b.motion_fast
            &&& a.lf_from_q ==> b.lf_from_q
            &&& a.split_early ==> b.split_early
            &&& a.dispatch ==> b.dispatch
            &&& a.fast_leaves ==> b.fast_leaves
            &&& slow == 0 || a.gate_scale <= b.gate_scale
        }),
{
}

/// A number of tile columns, as a logarithm, that leaves each at least 256 pixels wide:
/// at most `want`.
pub open spec fn tiles_for(sb_cols: int, want: nat) -> nat
    decreases want,
{
    if want > 0 && sb_cols / (pow2(want) as int) < 4 {
        tiles_for(sb_cols, (want - 1) as nat)
    } else {
        want
    }
}

/// The number of tile columns of a frame, as a logarithm: `wanted`, or four from 1024
/// pixels on, but never so many that one is narrower than 256 pixels.
pub fn choose_tile_cols(sb_cols: usize, wanted: Option<u32>) -> (l: u32)
    requires
        match wanted {
            Some(w) => w <= 6,
            None => true,
        },
    ensures
        l == tiles_for(
            sb_cols as int,
            match wanted {
                Some(w) => w as nat,
                None => if sb_cols >= 16 {
                    2
                } else {
                    0
                },
            },
        ),
        l <= 6,
{
    let want: u32 = match wanted {
        Some(w) => w,
        None => if sb_cols >= 16 {
            2
        } else {
            0
        },
    };
    let ghost goal = tiles_for(sb_cols as int, want as nat);
    let mut l: u32 = want;
    let mut width: usize = 1;
    let mut k: u32 = 0;
    proof {
        lemma2_to64();
    }
    while k < want
        invariant
            k <= want <= 6,
            width == pow2(k as nat),
            width <= 64,
        decreases want - k,
    {
        proof {
            lemma2_to64();
            lemma_pow2_unfold((k + 1) as nat);
        }
        width = width * 2;
        k += 1;
    }
    while l > 0 && sb_cols / width < 4
        invariant
            l <= want <= 6,
            width == pow2(l as nat),
            1 <= width <= 64,
            goal == tiles_for(sb_cols as int, l as nat),
        decreases l,
    {
        proof {
            lemma2_to64();
            lemma_pow2_unfold(l as nat);
        }
        width = width / 2;
        l -= 1;
    }
    l
}

/// The first `n` samples of a plane.
pub fn first_samples(p: &Picture) -> (r: Vec<u16>)
    requires
        p.wf(),
        p.stride == p.w,
    ensures
        r@ == p.buf@.take(p.w * p.h),
{
    let _len: usize = p.buf.len();
    let ghost goal = p.buf@.take(p.w * p.h);
    let n: usize = p.w * p.h;
    let mut r: Vec<u16> = Vec::new();
    let mut i: usize = 0;
    while i < n
        invariant
            i <= n <= p.buf@.len(),
            r@ =~= p.buf@.take(i as int),
        decreases n - i,
    {
        r.push(p.buf[i]);
        i += 1;
    }
    r
}

/// A plane of `w` by `h` samples.
fn picture(buf: Vec<u16>, w: usize, h: usize, ss: usize) -> (p: Picture)
    ensures
        p == (Picture { buf, stride: w, w, h, ss_x: ss, ss_y: ss }),
{
    Picture { buf, stride: w, w, h, ss_x: ss, ss_y: ss }
}

/// A frame that is being coded.
pub struct FrameEncoder {
    pub width: u32,
    pub height: u32,
    pub qindex: u32,
    /// The source, with its last rows repeated.
    pub src: [Picture; 3],
    pub canvas: Canvas,
    pub is_inter: bool,
    /// The references, each where it is there.
    pub refs: [Option<[Picture; 3]>; 3],
    pub refresh_frame_flags: u32,
    pub show_frame: bool,
    pub ref_frame_idx: [usize; 3],
    pub interp_filter: u32,
    pub sign_bias: [bool; 4],
    pub fc: FrameContext,
    pub hp_mv: bool,
    pub compound: bool,
    pub no_compound: bool,
    /// Whether the third reference lies ahead.
    pub altref_future: bool,
    /// Whether the frame builds on the probabilities of those before it.
    pub chain: bool,
    /// What is remembered of the motion of the last frame, cell by cell.
    pub prev_mvs: Option<Vec<MvRef>>,
    pub tile_cols_log2: u32,
    pub tools: Tools,
    pub tx4x4: bool,
    pub tx_cap: u8,
    /// By how much segments are quantized finer and coarser; 0 if there are none.
    pub aq: i32,
    pub lf_level: u32,
}

/// `n` units of eight pixels hold `pixels`.
pub open spec fn units(pixels: u32) -> int {
    (pixels + 7) / 8
}

/// A plane `p` of `w` by `h` samples, padded to `hp` rows.
pub open spec fn is_padded_plane(p: Picture, from: Seq<u16>, w: int, h: int, hp: int) -> bool {
    &&& p.buf@ == padded(from, w, h, hp)
    &&& p.stride == w && p.w == w && p.h == h
}

/// A plane `p` of `w` by `h` samples, with room for `hp` rows, all zero.
pub open spec fn is_blank_plane(p: Picture, w: int, h: int, hp: int) -> bool {
    &&& p.buf@ == Seq::new((hp * w) as nat, |i: int| 0u16)
    &&& p.stride == w && p.w == w && p.h == h
}

/// The samples of a frame: luma and the two chroma planes.
pub type Planes = (Vec<u16>, Vec<u16>, Vec<u16>);

/// The planes of a reference of a frame of `cols` by `rows` units of eight pixels.
pub open spec fn is_reference(r: [Picture; 3], planes: Planes, rows: int, cols: int) -> bool {
    &&& r[0].buf@ == planes.0@ && r[0].stride == 8 * cols && r[0].w == 8 * cols && r[0].h == 8
        * rows && r[0].ss_x == 0 && r[0].ss_y == 0
    &&& r[1].buf@ == planes.1@ && r[1].stride == 4 * cols && r[1].w == 4 * cols && r[1].h == 4
        * rows && r[1].ss_x == 1 && r[1].ss_y == 1
    &&& r[2].buf@ == planes.2@ && r[2].stride == 4 * cols && r[2].w == 4 * cols && r[2].h == 4
        * rows && r[2].ss_x == 1 && r[2].ss_y == 1
}

/// Makes a reference of the planes of a frame.
pub fn ref_planes_from(planes: Planes, mi_rows: usize, mi_cols: usize) -> (r: [Picture; 3])
    requires
        mi_rows <= 8192,
        mi_cols <= 8192,
    ensures
        is_reference(r, planes, mi_rows as int, mi_cols as int),
{
    [
        picture(planes.0, 8 * mi_cols, 8 * mi_rows, 0),
        picture(planes.1, 4 * mi_cols, 4 * mi_rows, 1),
        picture(planes.2, 4 * mi_cols, 4 * mi_rows, 1),
    ]
}

impl FrameEncoder {
    /// The frame is of a size that occurs, and its settings are in range.
    pub open spec fn wf(&self) -> bool {
        &&& 1 <= self.width <= 0x10000
        &&& 1 <= self.height <= 0x10000
        &&& self.canvas.wf()
        &&& self.interp_filter <= 4
        &&& self.qindex <= 255
        &&& self.tile_cols_log2 <= 6
        &&& self.tx_cap <= 3
        &&& forall|i: int| 0 <= i < 3 ==> #[trigger] self.ref_frame_idx[i] < 8
    }

    /// Sets up a frame. `last` holds the planes of the last frame; without it the frame
    /// is a key frame. The planes are of the size that is coded.
    pub fn new(
        width: u32,
        height: u32,
        qindex: u32,
        src_planes: &Planes,
        last: Option<Planes>,
    ) -> (e: FrameEncoder)
        requires
            1 <= width <= 0x10000,
            1 <= height <= 0x10000,
            qindex <= 255,
            64 * units(height) * units(width) <= src_planes.0@.len(),
            16 * units(height) * units(width) <= src_planes.1@.len(),
            16 * units(height) * units(width) <= src_planes.2@.len(),
            64 * ((units(height) + 7) / 8) * (8 * units(width)) <= usize::MAX,
        ensures
            e.wf(),
            e.width == width && e.height == height && e.qindex == qindex,
            e.canvas.mi_rows == units(height),
            e.canvas.mi_cols == units(width),
            ({
                let (r, c) = (units(height), units(width));
                let hp = 64 * ((r + 7) / 8);
                &&& is_padded_plane(e.src[0], src_planes.0@, 8 * c, 8 * r, hp)
                &&& is_padded_plane(e.src[1], src_planes.1@, 4 * c, 4 * r, hp / 2)
                &&& is_padded_plane(e.src[2], src_planes.2@, 4 * c, 4 * r, hp / 2)
                &&& is_blank_plane(e.canvas.rec[0], 8 * c, 8 * r, hp)
                &&& is_blank_plane(e.canvas.rec[1], 4 * c, 4 * r, hp / 2)
                &&& is_blank_plane(e.canvas.rec[2], 4 * c, 4 * r, hp / 2)
                &&& forall|i: int|
                    0 <= i < e.canvas.mi@.len() ==> is_default_mode_info(
                        #[trigger] e.canvas.mi@[i],
                    )
                &&& e.tile_cols_log2 == tiles_for(
                    (c + 7) / 8,
                    if (c + 7) / 8 >= 16 {
                        2
                    } else {
                        0
                    },
                )
            }),
            match last {
                Some(p) => e.is_inter && e.refs[0] is Some && is_reference(
                    e.refs[0].unwrap(),
                    p,
                    units(height),
                    units(width),
                ),
                None => !e.is_inter && e.refs[0] is None,
            },
            e.refs[1] is None && e.refs[2] is None,
            e.refresh_frame_flags == 1,
            e.show_frame,
            e.ref_frame_idx@ == seq![0usize, 1usize, 2usize],
            e.interp_filter == 4,
            e.sign_bias@ == seq![false, false, false, false],
            e.fc.is_default(),
            e.hp_mv,
            !e.compound && !e.no_compound && !e.altref_future && !e.chain,
            e.tools == all_tools(),
            e.prev_mvs is None,
            !e.tx4x4 && e.tx_cap == 1 && e.aq == 0 && e.lf_level == 0,
    {
        let mi_cols: usize = ((width + 7) / 8) as usize;
        let mi_rows: usize = ((height + 7) / 8) as usize;
        let (cw, ch): (usize, usize) = (8 * mi_cols, 8 * mi_rows);
        let hp: usize = 64 * ((mi_rows + 7) / 8);
        let (cw2, ch2, hp2): (usize, usize, usize) = (4 * mi_cols, 4 * mi_rows, hp / 2);
        proof {
            let (r, c) = (mi_rows as int, mi_cols as int);
            assert(ch * cw == 64 * r * c && ch2 * cw2 == 16 * r * c) by (nonlinear_arith)
                requires
                    ch == 8 * r,
                    cw == 8 * c,
                    ch2 == 4 * r,
                    cw2 == 4 * c,
            ;
            assert(hp2 * cw2 <= hp * cw && ch * cw <= hp * cw && ch2 * cw2 <= hp2 * cw2)
                by (nonlinear_arith)
                requires
                    0 <= hp2 <= hp,
                    0 <= cw2 <= cw,
                    0 <= ch <= hp,
                    0 <= ch2 <= hp2,
            ;
            assert(r * c <= 8192 * 8192) by (nonlinear_arith)
                requires
                    0 <= r <= 8192,
                    0 <= c <= 8192,
            ;
        }
        let src: [Picture; 3] = [
            picture(pad_rows(src_planes.0.as_slice(), cw, ch, hp), cw, ch, 0),
            picture(pad_rows(src_planes.1.as_slice(), cw2, ch2, hp2), cw2, ch2, 1),
            picture(pad_rows(src_planes.2.as_slice(), cw2, ch2, hp2), cw2, ch2, 1),
        ];
        let m: ModeInfo = ModeInfo::default();
        let canvas = Canvas {
            rec: [
                picture(grid::repeat(0u16, hp * cw), cw, ch, 0),
                picture(grid::repeat(0u16, hp2 * cw2), cw2, ch2, 1),
                picture(grid::repeat(0u16, hp2 * cw2), cw2, ch2, 1),
            ],
            rows: [hp, hp2, hp2],
            mi_rows,
            mi_cols,
            mi: grid::repeat(m, mi_rows * mi_cols),
            above_ctx: [
                grid::repeat(0u8, mi_cols * 2),
                grid::repeat(0u8, mi_cols),
                grid::repeat(0u8, mi_cols),
            ],
            left_ctx: [[0; 16]; 3],
            above_seg: grid::repeat(0u8, mi_cols),
            left_seg: [0; 8],
        };
        proof {
            assert forall|p: int| 0 <= p < 3 implies #[trigger] canvas.plane_ok(p) by {
                assert(p == 0 || p == 1 || p == 2);
            }
        }
        let is_inter: bool = last.is_some();
        let first: Option<[Picture; 3]> = match last {
            Some(planes) => Some(ref_planes_from(planes, mi_rows, mi_cols)),
            None => None,
        };
        let no: [bool; 4] = [false, false, false, false];
        let idx: [usize; 3] = [0, 1, 2];
        let tile_cols_log2: u32 = choose_tile_cols((mi_cols + 7) / 8, None);
        proof {
            assert(no@ =~= seq![false, false, false, false]);
            assert(idx@ =~= seq![0usize, 1usize, 2usize]);
        }
        FrameEncoder {
            width,
            height,
            qindex,
            src,
            canvas,
            is_inter,
            refs: [first, None, None],
            refresh_frame_flags: 1,
            show_frame: true,
            ref_frame_idx: idx,
            interp_filter: 4,
            sign_bias: no,
            fc: FrameContext::defaults(),
            hp_mv: true,
            compound: false,
            no_compound: false,
            altref_future: false,
            chain: false,
            prev_mvs: None,
            tile_cols_log2,
            tools: Tools::all(),
            tx4x4: false,
            tx_cap: 1,
            aq: 0,
            lf_level: 0,
        }
    }
}

impl FrameEncoder {
    /// Sets the second reference.
    pub fn set_golden(&mut self, planes: Planes)
        requires
            old(self).wf(),
        ensures
            final(self).wf(),
            final(self).refs[1] is Some && is_reference(
                final(self).refs[1].unwrap(),
                planes,
                old(self).canvas.mi_rows as int,
                old(self).canvas.mi_cols as int,
            ),
            final(self).refs[0] == old(self).refs[0] && final(self).refs[2] == old(self).refs[2],
            *final(self) == (FrameEncoder { refs: final(self).refs, ..*old(self) }),
    {
        let r: [Picture; 3] = ref_planes_from(planes, self.canvas.mi_rows, self.canvas.mi_cols);
        self.refs[1] = Some(r);
    }

    /// Sets the third reference, which lies ahead.
    pub fn set_altref(&mut self, planes: Planes)
        requires
            old(self).wf(),
        ensures
            final(self).wf(),
            final(self).refs[2] is Some && is_reference(
                final(self).refs[2].unwrap(),
                planes,
                old(self).canvas.mi_rows as int,
                old(self).canvas.mi_cols as int,
            ),
            final(self).refs[0] == old(self).refs[0] && final(self).refs[1] == old(self).refs[1],
            *final(self) == (FrameEncoder {
                refs: final(self).refs,
                altref_future: true,
                ..*old(self)
            }),
    {
        let r: [Picture; 3] = ref_planes_from(planes, self.canvas.mi_rows, self.canvas.mi_cols);
        self.refs[2] = Some(r);
        self.altref_future = true;
    }

    /// Asks for blocks with two references, unless they are ruled out.
    pub fn set_compound(&mut self, on: bool)
        ensures
            *final(self) == (FrameEncoder {
                compound: if old(self).no_compound {
                    old(self).compound
                } else {
                    on
                },
                ..*old(self)
            }),
    {
        if !self.no_compound {
            self.compound = on;
        }
    }

    /// Makes the frame a hidden one that only slot `slot` keeps.
    pub fn set_hidden_altref(&mut self, slot: usize)
        requires
            slot < 8,
        ensures
            *final(self) == (FrameEncoder {
                show_frame: false,
                refresh_frame_flags: pow2(slot as nat) as u32,
                ..*old(self)
            }),
    {
        proof {
            lemma2_to64();
        }
        self.show_frame = false;
        self.refresh_frame_flags = match slot {
            0 => 1,
            1 => 2,
            2 => 4,
            3 => 8,
            4 => 16,
            5 => 32,
            6 => 64,
            _ => 128,
        };
    }

    /// Sets which slots the three references are kept in.
    pub fn set_ref_frame_idx(&mut self, idx: [usize; 3])
        ensures
            *final(self) == (FrameEncoder { ref_frame_idx: idx, ..*old(self) }),
    {
        self.ref_frame_idx = idx;
    }

    /// Sets which slots keep the frame.
    pub fn set_refresh_frame_flags(&mut self, flags: u32)
        ensures
            *final(self) == (FrameEncoder { refresh_frame_flags: flags, ..*old(self) }),
    {
        self.refresh_frame_flags = flags;
    }

    /// Builds the frame on the probabilities of those before it, and on the motion of the
    /// last one where it may be used.
    pub fn set_chain(&mut self, fc: FrameContext, prev_mvs: Option<Vec<MvRef>>)
        ensures
            *final(self) == (FrameEncoder { fc, prev_mvs, chain: true, ..*old(self) }),
    {
        self.fc = fc;
        self.prev_mvs = prev_mvs;
        self.chain = true;
    }

    /// What is remembered of the motion of the last frame at a cell.
    pub fn prev_mv(&self, mi_row: usize, mi_col: usize) -> (r: Option<MvRef>)
        requires
            self.wf(),
            mi_row < self.canvas.mi_rows,
            mi_col < self.canvas.mi_cols,
            self.prev_mvs is Some ==> self.prev_mvs.unwrap()@.len() == self.canvas.mi_rows
                * self.canvas.mi_cols,
        ensures
            r == match self.prev_mvs {
                Some(v) => Some(
                    v@[grid::cell(self.canvas.mi_cols as int, mi_row as int, mi_col as int)],
                ),
                None => None,
            },
    {
        frame::prev_mv(
            &self.prev_mvs,
            true,
            self.canvas.mi_rows,
            self.canvas.mi_cols,
            mi_row,
            mi_col,
        )
    }

    /// Sets the speed: which tools are left out.
    pub fn set_speed(&mut self, speed: u32)
        ensures
            *final(self) == (FrameEncoder {
                tools: tools_after(old(self).tools, speed as int),
                ..*old(self)
            }),
    {
        self.tools.speed_up(speed);
    }

    /// The strength of the loop filter.
    pub fn lf_level(&self) -> (l: u32)
        ensures
            l == self.lf_level,
    {
        self.lf_level
    }

    /// The reconstruction of plane `p`, without the room below it.
    pub fn recon_plane(&self, p: usize) -> (r: Vec<u16>)
        requires
            p < 3,
            self.canvas.rec[p as int].wf(),
            self.canvas.rec[p as int].stride == self.canvas.rec[p as int].w,
        ensures
            r@ == self.canvas.rec[p as int].buf@.take(
                self.canvas.rec[p as int].w * self.canvas.rec[p as int].h,
            ),
    {
        first_samples(&self.canvas.rec[p])
    }

    /// The reconstruction: what a reader of the frame must get.
    pub fn recon_owned(&self) -> (r: Planes)
        requires
            forall|p: int|
                0 <= p < 3 ==> (#[trigger] self.canvas.rec[p]).wf() && self.canvas.rec[p].stride
                    == self.canvas.rec[p].w,
        ensures
            r.0@ == self.canvas.rec[0].buf@.take(self.canvas.rec[0].w * self.canvas.rec[0].h),
            r.1@ == self.canvas.rec[1].buf@.take(self.canvas.rec[1].w * self.canvas.rec[1].h),
            r.2@ == self.canvas.rec[2].buf@.take(self.canvas.rec[2].w * self.canvas.rec[2].h),
    {
        assert(self.canvas.rec[0].wf() && self.canvas.rec[1].wf() && self.canvas.rec[2].wf());
        (self.recon_plane(0), self.recon_plane(1), self.recon_plane(2))
    }
}

// ---------------------------------------------------------------------------
// References
// ---------------------------------------------------------------------------

/// How the references of a frame are set up: `after` is `e` with two references where
/// that is asked for and there are two that lie in different directions, or that are
/// taken to.
pub open spec fn references_set(e: FrameEncoder, after: FrameEncoder) -> bool {
    let asked = e.is_inter && e.compound && !e.no_compound;
    if asked && e.altref_future && e.refs[2] is Some {
        &&& after.sign_bias@ == seq![false, false, false, true]
        &&& after.fc.comp_var_ref@ == seq![1usize, 2usize]
        &&& after == (FrameEncoder {
            sign_bias: after.sign_bias,
            fc: FrameContext {
                reference_mode: 2,
                comp_fixed_ref: 3,
                comp_var_ref: after.fc.comp_var_ref,
                ..e.fc
            },
            ..e
        })
    } else if asked && e.refs[1] is Some {
        &&& after.sign_bias@ == seq![false, false, true, false]
        &&& after.fc.comp_var_ref@ == seq![1usize, 3usize]
        &&& after == (FrameEncoder {
            sign_bias: after.sign_bias,
            fc: FrameContext {
                reference_mode: 2,
                comp_fixed_ref: 2,
                comp_var_ref: after.fc.comp_var_ref,
                ..e.fc
            },
            ..e
        })
    } else {
        after == (FrameEncoder { compound: false, ..e })
    }
}

impl FrameEncoder {
    /// Sets up the references of the frame.
    pub fn set_up_references(&mut self)
        requires
            old(self).wf(),
        ensures
            final(self).wf(),
            references_set(*old(self), *final(self)),
    {
        let asked: bool = self.is_inter && self.compound && !self.no_compound;
        if asked && self.altref_future && self.refs[2].is_some() {
            self.sign_bias = [false, false, false, true];
            self.fc.reference_mode = 2;
            self.fc.comp_fixed_ref = 3;
            self.fc.comp_var_ref = [1, 2];
            assert(self.sign_bias@ =~= seq![false, false, false, true]);
            assert(self.fc.comp_var_ref@ =~= seq![1usize, 2usize]);
        } else if asked && self.refs[1].is_some() {
            self.sign_bias = [false, false, true, false];
            self.fc.reference_mode = 2;
            self.fc.comp_fixed_ref = 2;
            self.fc.comp_var_ref = [1, 3];
            assert(self.sign_bias@ =~= seq![false, false, true, false]);
            assert(self.fc.comp_var_ref@ =~= seq![1usize, 3usize]);
        } else {
            self.compound = false;
        }
    }
}

/// The references that are set up are those that a reader sets up from the header: the
/// fixed one is that which lies in the other direction.
pub proof fn law_references_agree(e: FrameEncoder, after: FrameEncoder, h: FrameHeader)
    requires
        references_set(e, after),
        is_frame_header(after, h),
        after.is_inter,
        after.compound,
    ensures
        crate::decode::compressed::compound_refs(h.ref_sign_bias@) == (
            after.fc.comp_fixed_ref,
            after.fc.comp_var_ref@,
        ),
        forall|i: int| 0 <= i < 3 ==> #[trigger] h.ref_sign_bias[i] == after.sign_bias@[i + 1],
{
}

// ---------------------------------------------------------------------------
// The header
// ---------------------------------------------------------------------------

/// `h` is the header of the frame, but for what is known only once it is coded.
pub open spec fn is_frame_header(e: FrameEncoder, h: FrameHeader) -> bool {
    &&& h.profile == 0 && !h.show_existing_frame && h.frame_to_show == 0
    &&& h.key_frame == !e.is_inter && !h.intra_only
    &&& h.show_frame == e.show_frame
    &&& h.width == e.width && h.height == e.height && h.sized
    &&& !h.lossless
    &&& h.base_q_idx == e.qindex && h.delta_q_y_dc == 0 && h.delta_q_uv_dc == 0
        && h.delta_q_uv_ac == 0
    &&& h.loop_filter_level == 0 && h.loop_filter_sharpness == 0 && !h.lf_delta_enabled
    &&& h.lf_ref_delta_updated@ == seq![false, false, false, false]
    &&& h.lf_ref_deltas@ == seq![1i32, 0i32, -1i32, -1i32]
    &&& h.lf_mode_delta_updated@ == seq![false, false] && h.lf_mode_deltas@ == seq![0i32, 0i32]
    &&& !h.seg_enabled && !h.seg_update_map && !h.seg_temporal_update && !h.seg_update_data
        && !h.seg_abs_delta
    &&& forall|i: int| 0 <= i < 7 ==> #[trigger] h.seg_tree_probs[i] == 255
    &&& forall|i: int| 0 <= i < 3 ==> #[trigger] h.seg_pred_probs[i] == 255
    &&& forall|i: int, j: int|
        0 <= i < 8 && 0 <= j < 4 ==> !#[trigger] h.seg_feature_enabled[i][j]
    &&& forall|i: int, j: int|
        0 <= i < 8 && 0 <= j < 4 ==> #[trigger] h.seg_feature_data[i][j] == 0
    &&& h.tile_cols_log2 == e.tile_cols_log2 && h.tile_rows_log2 == 0
    &&& h.reset_frame_context == 0 && h.frame_context_idx == 0
    &&& h.header_size == 0 && h.uncompressed_bytes == 0
    &&& if e.is_inter {
        &&& h.refresh_frame_flags == e.refresh_frame_flags
        &&& h.ref_frame_idx == e.ref_frame_idx
        &&& h.ref_sign_bias@ == (if !e.compound {
            seq![false, false, false]
        } else if e.fc.comp_fixed_ref == 3 {
            seq![false, false, true]
        } else {
            seq![false, true, false]
        })
        &&& h.allow_high_precision_mv == e.hp_mv
        &&& h.interp_filter == e.interp_filter
        &&& h.error_resilient == !e.chain
        &&& h.refresh_frame_context == e.chain && !h.frame_parallel_decoding_mode
        &&& h.bit_depth == 0 && h.color_space == 0 && h.subsampling_x == 0 && h.subsampling_y == 0
    } else {
        &&& h.refresh_frame_flags == 0
        &&& forall|i: int| 0 <= i < 3 ==> #[trigger] h.ref_frame_idx[i] == 0
        &&& h.ref_sign_bias@ == seq![false, false, false]
        &&& !h.allow_high_precision_mv && h.interp_filter == 0
        &&& !h.error_resilient && !h.refresh_frame_context && !h.frame_parallel_decoding_mode
        &&& h.bit_depth == 8 && h.color_space == CS_BT_601 && h.subsampling_x == 1
            && h.subsampling_y == 1
    }
}

impl FrameEncoder {
    /// The header of the frame, but for what is known only once it is coded.
    pub fn frame_header(&self) -> (h: FrameHeader)
        requires
            self.wf(),
        ensures
            is_frame_header(*self, h),
    {
        let mut h: FrameHeader = FrameHeader::default();
        h.show_frame = self.show_frame;
        h.width = self.width;
        h.height = self.height;
        h.base_q_idx = self.qindex;
        h.lf_ref_deltas = [1, 0, -1, -1];
        h.seg_tree_probs = [255; 7];
        h.seg_pred_probs = [255; 3];
        h.tile_cols_log2 = self.tile_cols_log2;
        h.sized = true;
        assert(h.lf_ref_deltas@ =~= seq![1i32, 0i32, -1i32, -1i32]);
        if self.is_inter {
            h.refresh_frame_flags = self.refresh_frame_flags;
            h.ref_frame_idx = self.ref_frame_idx;
            if self.compound {
                h.ref_sign_bias = if self.fc.comp_fixed_ref == 3 {
                    [false, false, true]
                } else {
                    [false, true, false]
                };
                assert(h.ref_sign_bias@ =~= (if self.fc.comp_fixed_ref == 3 {
                    seq![false, false, true]
                } else {
                    seq![false, true, false]
                }));
            }
            h.allow_high_precision_mv = self.hp_mv;
            h.interp_filter = self.interp_filter;
            h.error_resilient = !self.chain;
            h.refresh_frame_context = self.chain;
        } else {
            h.key_frame = true;
            h.bit_depth = 8;
            h.color_space = CS_BT_601;
            h.subsampling_x = 1;
            h.subsampling_y = 1;
        }
        h
    }
}

/// `after` is the header `h` of a frame with two segments, `aq` finer and `aq` coarser.
pub open spec fn segments_set(h: FrameHeader, aq: i32, after: FrameHeader) -> bool {
    &&& after.seg_tree_probs == AQ_TREE_PROBS
    &&& forall|i: int, j: int|
        0 <= i < 8 && 0 <= j < 4 ==> #[trigger] after.seg_feature_enabled[i][j] == (
        h.seg_feature_enabled[i][j] || (i < 2 && j == 0))
    &&& forall|i: int, j: int|
        0 <= i < 8 && 0 <= j < 4 ==> #[trigger] after.seg_feature_data[i][j] == (if i == 0 && j
            == 0 {
            -aq
        } else if i == 1 && j == 0 {
            aq as int
        } else {
            h.seg_feature_data[i][j] as int
        })
    &&& after == (FrameHeader {
        seg_enabled: true,
        seg_update_map: true,
        seg_temporal_update: false,
        seg_update_data: true,
        seg_abs_delta: false,
        seg_tree_probs: after.seg_tree_probs,
        seg_feature_enabled: after.seg_feature_enabled,
        seg_feature_data: after.seg_feature_data,
        ..h
    })
}

/// Puts two segments into a header, `aq` finer and `aq` coarser.
pub fn set_segments(h: &mut FrameHeader, aq: i32)
    requires
        aq > i32::MIN,
    ensures
        segments_set(*old(h), aq, *final(h)),
{
    h.seg_enabled = true;
    h.seg_update_map = true;
    h.seg_temporal_update = false;
    h.seg_update_data = true;
    h.seg_abs_delta = false;
    h.seg_tree_probs = AQ_TREE_PROBS;
    h.seg_feature_enabled[0][0] = true;
    h.seg_feature_data[0][0] = -aq;
    h.seg_feature_enabled[1][0] = true;
    h.seg_feature_data[1][0] = aq;
}

/// The transform mode of a frame: each block names its size, or the largest up to a cap.
pub open spec fn tx_mode_for(search: bool, only_4x4: bool, cap: int, before: int) -> int {
    if search {
        TX_MODE_SELECT as int
    } else if only_4x4 {
        before
    } else {
        cap
    }
}

/// The transform mode of a frame.
pub fn frame_tx_mode(search: bool, only_4x4: bool, cap: u8, before: usize) -> (r: usize)
    ensures
        r == tx_mode_for(search, only_4x4, cap as int, before as int),
{
    if search {
        TX_MODE_SELECT
    } else if only_4x4 {
        before
    } else {
        cap as usize
    }
}

/// The size that a reader derives for blocks that do not name theirs is the one they are
/// coded with.
pub proof fn law_derived_tx_agrees(bsize: int, cap: int)
    requires
        0 <= bsize < 13,
        0 <= cap <= 3,
    ensures
        ({
            let mode = tx_mode_for(false, false, cap, 0);
            min_int(
                crate::geom_tables::MAX_TXSIZE[bsize] as int,
                crate::geom_tables::TX_MODE_TO_BIGGEST_TX[mode] as int,
            ) == crate::encode::decide::start_tx(bsize, false, false, cap)
        }),
{
}

// ---------------------------------------------------------------------------
// Putting a frame together
// ---------------------------------------------------------------------------

/// A byte that looks like the marker of a superframe.
pub open spec fn looks_like_marker(b: u8) -> bool {
    b / 32 == 6
}

/// A frame, with one more byte if its last one looks like a marker.
pub open spec fn guarded(d: Seq<u8>) -> Seq<u8> {
    if d.len() > 0 && looks_like_marker(d.last()) {
        d.push(0)
    } else {
        d
    }
}

/// Appends a byte to a frame whose last one looks like the marker of a superframe.
pub fn guard_marker(frame: &mut Vec<u8>)
    ensures
        final(frame)@ == guarded(old(frame)@),
{
    let n: usize = frame.len();
    if n > 0 && frame[n - 1] / 32 == 6 {
        frame.push(0);
    }
}

/// No frame is taken for a superframe.
pub proof fn law_guarded_is_no_superframe(d: Seq<u8>)
    requires
        d.len() > 0,
    ensures
        !looks_like_marker(guarded(d).last()),
        guarded(d).take(d.len() as int) == d,
{
    assert(guarded(d).take(d.len() as int) =~= d);
}

/// A frame that shows the frame in slot `idx` again is `out`.
pub open spec fn shows_again(idx: u32, h: FrameHeader, out: Seq<u8>) -> bool {
    &&& h.says_lead(
        (crate::header::Lead {
            show_existing: true,
            frame_to_show: idx as int,
            ..crate::header::blank_lead()
        }),
    )
    &&& h.no_tail()
    &&& exists|u: Seq<u8>| #[trigger] packs(u, header_bits(h)) && out == guarded(u)
}

impl FrameEncoder {
    /// Writes a frame that shows the frame in slot `idx` again.
    pub fn encode_show_existing_frame(idx: u32) -> (out: Vec<u8>)
        requires
            idx < 8,
        ensures
            exists|h: FrameHeader| #[trigger] shows_again(idx, h, out@),
    {
        let mut h: FrameHeader = FrameHeader::default();
        h.show_existing_frame = true;
        h.frame_to_show = idx;
        let mut w: BitWriter = BitWriter::new();
        write_uncompressed_header(&mut w, &h);
        assert(w@ =~= header_bits(h));
        let mut frame: Vec<u8> = w.into_bytes();
        assert(packs(frame@, header_bits(h)));
        guard_marker(&mut frame);
        assert(shows_again(idx, h, frame@));
        frame
    }
}

/// The header `h` with the length of its compressed header.
pub open spec fn sized_header(h: FrameHeader, compressed: Seq<u8>) -> FrameHeader {
    FrameHeader { header_size: compressed.len() as u32, ..h }
}

/// The compressed header of a frame that turns `initial` into `target`.
#[verifier::opaque]
pub open spec fn compressed_part(
    h: FrameHeader,
    initial: FrameContext,
    target: FrameContext,
) -> Seq<u8> {
    coding::code_bytes(header_syms(initial, target, h))
}

/// The bytes `u` are the header `h`.
#[verifier::opaque]
pub open spec fn uncompressed_part(h: FrameHeader, u: Seq<u8>) -> bool {
    packs(u, header_bits(h)) && u.len() <= 88
}

/// `out` is the frame with header `h`, whose compressed header turns `initial` into
/// `target`, and whose tiles are `tiles`.
pub open spec fn is_frame(
    h: FrameHeader,
    initial: FrameContext,
    target: FrameContext,
    tiles: Seq<Seq<u8>>,
    out: Seq<u8>,
) -> bool {
    let c = compressed_part(h, initial, target);
    exists|u: Seq<u8>| #[trigger]
        uncompressed_part(sized_header(h, c), u) && out == guarded(u + c + framed(tiles, 0))
}

/// Writes the compressed header of a frame.
fn compress_header(h: &FrameHeader, initial: &FrameContext, target: &FrameContext) -> (out: Vec<u8>)
    requires
        target.tx_mode < 5,
        in_reach(*initial, *target, *h),
    ensures
        out@ == compressed_part(*h, *initial, *target),
{
    proof {
        reveal(compressed_part);
    }
    let mut enc: BoolEncoder = BoolEncoder::new();
    let ghost none = enc@;
    write_compressed_header(&mut enc, initial, target, h);
    let ghost syms = header_syms(*initial, *target, *h);
    assert(none + syms =~= syms);
    enc.finish()
}

/// Writes the header of a frame.
fn write_header(h: &FrameHeader) -> (out: Vec<u8>)
    requires
        !h.show_existing_frame,
        1 <= h.width <= 0x10000,
        1 <= h.height,
        h.interp_filter <= 4,
        forall|i: int| 0 <= i < 3 ==> #[trigger] h.ref_frame_idx[i] < 8,
    ensures
        uncompressed_part(*h, out@),
{
    proof {
        reveal(uncompressed_part);
    }
    let mut w: BitWriter = BitWriter::new();
    let ghost none = w@;
    write_uncompressed_header(&mut w, h);
    let ghost bits = header_bits(*h);
    assert(none + bits =~= bits);
    w.into_bytes()
}

/// Puts a frame together: its header, the compressed header, and its tiles.
pub fn finish_frame(
    header: &FrameHeader,
    initial: &FrameContext,
    target: &FrameContext,
    tiles: &[Vec<u8>],
) -> (out: Vec<u8>)
    requires
        !header.show_existing_frame,
        1 <= header.width <= 0x10000,
        1 <= header.height,
        header.interp_filter <= 4,
        forall|i: int| 0 <= i < 3 ==> #[trigger] header.ref_frame_idx[i] < 8,
        target.tx_mode < 5,
        in_reach(*initial, *target, *header),
    ensures
        is_frame(*header, *initial, *target, contents(tiles@), out@),
{
    let compressed: Vec<u8> = compress_header(header, initial, target);
    let mut h: FrameHeader = *header;
    h.header_size = compressed.len() as u32;
    let uncompressed: Vec<u8> = write_header(&h);
    let data: Vec<u8> = assemble_tiles(tiles);
    let mut frame: Vec<u8> = assemble_frame(
        uncompressed.as_slice(),
        compressed.as_slice(),
        data.as_slice(),
    );
    guard_marker(&mut frame);
    proof {
        let c = compressed_part(*header, *initial, *target);
        assert(uncompressed_part(sized_header(*header, c), uncompressed@));
    }
    frame
}

impl FrameEncoder {
    /// Begins a tile: the contexts above it are cleared.
    pub fn begin_tile(&mut self, tile_start: usize, tile_end: usize)
        requires
            old(self).wf(),
            tile_start <= tile_end <= old(self).canvas.mi_cols,
        ensures
            final(self).wf(),
            final(self).canvas.above_ctx[0]@ == cleared(
                old(self).canvas.above_ctx[0]@,
                2 * tile_start,
                2 * tile_end,
            ),
            final(self).canvas.above_ctx[1]@ == cleared(
                old(self).canvas.above_ctx[1]@,
                tile_start as int,
                tile_end as int,
            ),
            final(self).canvas.above_ctx[2]@ == cleared(
                old(self).canvas.above_ctx[2]@,
                tile_start as int,
                tile_end as int,
            ),
            final(self).canvas.above_seg@ == cleared(
                old(self).canvas.above_seg@,
                tile_start as int,
                tile_end as int,
            ),
            *final(self) == (FrameEncoder {
                canvas: Canvas {
                    above_ctx: final(self).canvas.above_ctx,
                    above_seg: final(self).canvas.above_seg,
                    ..old(self).canvas
                },
                ..*old(self)
            }),
    {
        clear(&mut self.canvas.above_ctx[0], 2 * tile_start, 2 * tile_end);
        clear(&mut self.canvas.above_ctx[1], tile_start, tile_end);
        clear(&mut self.canvas.above_ctx[2], tile_start, tile_end);
        clear(&mut self.canvas.above_seg, tile_start, tile_end);
        assert forall|p: int| 0 <= p < 3 implies #[trigger] self.canvas.plane_ok(p) by {
            assert(old(self).canvas.plane_ok(p));
        }
    }
}

/// `s` with zeros from `from` to `to`.
pub open spec fn cleared(s: Seq<u8>, from: int, to: int) -> Seq<u8> {
    s.map(
        |i: int, x: u8|
            if from <= i < to {
                0u8
            } else {
                x
            },
    )
}

/// Puts zeros from `from` to `to`.
fn clear(v: &mut Vec<u8>, from: usize, to: usize)
    requires
        from <= to <= old(v)@.len(),
    ensures
        final(v)@ == cleared(old(v)@, from as int, to as int),
{
    let ghost before = v@;
    let mut i: usize = from;
    while i < to
        invariant
            from <= i <= to <= v@.len(),
            v@.len() == before.len(),
            forall|k: int|
                0 <= k < v@.len() ==> #[trigger] v@[k] == (if from <= k < i {
                    0u8
                } else {
                    before[k]
                }),
        decreases to - i,
    {
        v.set(i, 0);
        i += 1;
    }
    assert(v@ =~= cleared(before, from as int, to as int));
}

/// How often each reference was chosen: the last frame, the second, the third, and two.
#[derive(Clone, Copy, Debug, PartialEq, Eq)]
pub struct RefHistogram {
    pub counts: [u64; 4],
}

/// The place of an inter block in the histogram.
pub open spec fn hist_slot(m: ModeInfo) -> int {
    if m.compound() {
        3
    } else {
        crate::adapt::clamped(m.ref_frame[0] - 1, 0, 2)
    }
}

impl RefHistogram {
    /// Nothing counted.
    pub fn new() -> (h: RefHistogram)
        ensures
            forall|i: int| 0 <= i < 4 ==> #[trigger] h.counts[i] == 0,
    {
        RefHistogram { counts: [0; 4] }
    }

    /// Counts an inter block.
    pub fn count(&mut self, m: &ModeInfo)
        requires
            forall|i: int| 0 <= i < 4 ==> #[trigger] old(self).counts[i] < u64::MAX,
        ensures
            forall|i: int|
                0 <= i < 4 ==> #[trigger] final(self).counts[i] == old(self).counts[i] + (if i
                    == hist_slot(*m) {
                    1int
                } else {
                    0
                }),
    {
        let i: usize = if m.has_second_ref() {
            3
        } else if m.ref_frame[0] <= 1 {
            0
        } else if m.ref_frame[0] == 2 {
            1
        } else {
            2
        };
        assert(self.counts[i as int] < u64::MAX);
        self.counts[i] = self.counts[i] + 1;
    }
}

/// Reads the histogram, and starts it anew.
pub fn ref_hist_take(h: &mut RefHistogram) -> (r: [u64; 4])
    ensures
        r == old(h).counts,
        forall|i: int| 0 <= i < 4 ==> #[trigger] final(h).counts[i] == 0,
{
    let r: [u64; 4] = h.counts;
    h.counts = [0; 4];
    r
}

/// From which speed on each tool is left out: the first leaves out parts below 8x8 and the
/// exhaustive search, the second the search for transforms and the updates of
/// probabilities, the third tries fewer cuts, the fourth measures no filters and no chroma.
pub proof fn law_speeds_leave_out_in_steps(speed: int)
    requires
        speed >= 0,
    ensures
        ({
            let t = tools_after(all_tools(), speed);
            &&& t.sub8x8 <==> speed == 0
            &&& t.full_msearch <==> speed == 0
            &&& t.subpel_fast <==> speed >= 1
            &&& t.use_tx_search <==> speed <= 1
            &&& t.use_prob_updates <==> speed <= 1
            &&& t.motion_fast <==> speed >= 2
            &&& t.subpel_bilinear <==> speed >= 2
            &&& t.subpel_diag <==> speed >= 2
            &&& t.split_early <==> speed >= 3
            &&& t.subpel_tree <==> speed >= 3
            &&& t.lf_from_q <==> speed >= 4
            &&& t.dispatch <==> speed >= 4
            &&& t.fast_leaves <==> speed >= 4
            &&& t.chroma_rd <==> speed <= 3
            &&& speed == 0 ==> t.gate_scale == 1
            &&& speed == 1 ==> t.gate_scale == 2
            &&& speed >= 2 ==> t.gate_scale == 4
            &&& speed <= 4 ==> t.dispatch_percent == 50
            &&& speed == 5 ==> t.dispatch_percent == 75
            &&& speed >= 6 ==> t.dispatch_percent == 90
        }),
{
}

/// The tile columns are as many as are asked for, or as leave each at least four squares of
/// 64 pixels: one more level would leave less.
pub proof fn law_tiles_stay_wide(sb_cols: int, want: nat)
    ensures
        ({
            let r = tiles_for(sb_cols, want);
            &&& r <= want
            &&& r > 0 ==> sb_cols / (pow2(r) as int) >= 4
            &&& r < want ==> sb_cols / (pow2((r + 1) as nat) as int) < 4
        }),
    decreases want,
{
    if want > 0 && sb_cols / (pow2(want) as int) < 4 {
        law_tiles_stay_wide(sb_cols, (want - 1) as nat);
    }
}

/// Of two references the fixed one lies in the other direction than both variable ones,
/// and is neither of them.
pub proof fn law_fixed_reference_faces_the_others(e: FrameEncoder, after: FrameEncoder)
    requires
        references_set(e, after),
    ensures
        after.compound && e.is_inter && !e.no_compound ==> {
            let f = after.fc.comp_fixed_ref as int;
            let v = after.fc.comp_var_ref;
            &&& after.sign_bias[f]
            &&& !after.sign_bias[v[0] as int] && !after.sign_bias[v[1] as int]
            &&& v[0] != f && v[1] != f && v[0] != v[1]
            &&& after.fc.reference_mode == 2
            &&& f == 3 ==> e.altref_future && e.refs[2] is Some
            &&& f == 2 ==> e.refs[1] is Some
        },
        !e.is_inter || !e.compound || e.no_compound ==> !after.compound,
        e.refs[1] is None && e.refs[2] is None ==> !after.compound,
{
    if after.compound && e.is_inter && !e.no_compound {
        let s = after.sign_bias@;
        assert(after.sign_bias[0] == s[0] && after.sign_bias[1] == s[1] && after.sign_bias[2]
            == s[2] && after.sign_bias[3] == s[3]);
        let v = after.fc.comp_var_ref@;
        assert(after.fc.comp_var_ref[0] == v[0] && after.fc.comp_var_ref[1] == v[1]);
    }
}

/// Of the two segments the first is as much finer as the second is coarser than the frame.
pub proof fn law_segments_lie_around_the_frame(h: FrameHeader, aq: i32, after: FrameHeader)
    requires
        segments_set(h, aq, after),
        -255 <= aq <= 255,
    ensures
        after.seg_enabled && after.seg_update_map && after.seg_update_data,
        !after.seg_abs_delta && !after.seg_temporal_update,
        after.seg_feature_enabled[0][0] && after.seg_feature_enabled[1][0],
        after.seg_feature_data[0][0] + after.seg_feature_data[1][0] == 0,
        after.seg_feature_data[1][0] == aq,
        after.base_q_idx == h.base_q_idx,
{
    assert(after.seg_feature_data[0][0] == -aq);
    assert(after.seg_feature_data[1][0] == aq);
    assert(after.seg_feature_enabled[0][0] == (h.seg_feature_enabled[0][0] || true));
}

/// A block with one reference is counted with that reference, one with two on its own.
pub proof fn law_references_are_told_apart(m: ModeInfo)
    requires
        1 <= m.ref_frame[0] <= 3,
    ensures
        m.ref_frame[1] > 0 <==> hist_slot(m) == 3,
        m.ref_frame[1] <= 0 ==> hist_slot(m) == m.ref_frame[0] - 1,
{
}

/// A transform mode leaves the size to each block where sizes are searched, else names the
/// largest.
pub proof fn law_transform_mode(cap: int, before: int, only_4x4: bool)
    ensures
        tx_mode_for(true, only_4x4, cap, before) == 4,
        tx_mode_for(false, true, cap, before) == before,
        tx_mode_for(false, false, cap, before) == cap,
{
}

} // verus!
