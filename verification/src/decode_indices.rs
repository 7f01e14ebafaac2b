//! Side information of a SILK frame.
//!
//! A frame starts with its type and quantization offset, the gains of its
//! subframes, the indices of its spectral envelope and the interpolation of
//! that envelope. A voiced frame goes on with pitch lag, contour, long-term
//! filters and their scale. The seed of the dither comes last.
use crate::error::{CadenceError, Corruption, Result};
use crate::pitch::{contour_count, ltp_count};
use crate::range::{
    bit_next, bit_value, icdf_next, icdf_symbol, lemma_symbol_bound, RangeDecoder, RangeState,
};
use crate::synthesis::{valid_fs, valid_nb};
use crate::tables::{
    NlsfCbStruct, NlsfCbView, DELTA_GAIN_ICDF, GAIN_ICDF, LBRR_FLAGS_2_ICDF, LBRR_FLAGS_3_ICDF,
    LTPSCALE_ICDF, LTP_GAIN_ICDF_0, LTP_GAIN_ICDF_1, LTP_GAIN_ICDF_2, LTP_PER_INDEX_ICDF,
    NLSF_EXT_ICDF, NLSF_INTERPOLATION_FACTOR_ICDF, PITCH_CONTOUR_10_MS_ICDF,
    PITCH_CONTOUR_10_MS_NB_ICDF, PITCH_CONTOUR_ICDF, PITCH_CONTOUR_NB_ICDF, PITCH_DELTA_ICDF,
    PITCH_LAG_ICDF, TYPE_OFFSET_NO_VAD_ICDF, TYPE_OFFSET_VAD_ICDF, UNIFORM4_ICDF, UNIFORM6_ICDF,
    UNIFORM8_ICDF,
};
use vstd::prelude::*;

verus! {

pub const TYPE_NO_VOICE_ACTIVITY: i8 = 0;

pub const TYPE_UNVOICED: i8 = 1;

pub const TYPE_VOICED: i8 = 2;

/// Subframes of 5 ms in a frame of 20 ms.
pub const MAX_NB_SUBFR: usize = 4;

pub const MAX_LPC_ORDER: usize = 16;

/// Largest residual that needs no extension symbol.
pub const NLSF_QUANT_MAX_AMPLITUDE: i32 = 4;

/// Frames of 20 ms in a packet of 60 ms.
pub const MAX_FRAMES_PER_PACKET: usize = 3;

/// Decoded side information of a frame. What a frame type does not code keeps
/// its value from the frame before.
#[derive(Clone, Copy, Debug, PartialEq, Eq)]
pub struct SideInfoIndices {
    /// Gain index per subframe: 0 to 63 absolute, 0 to 40 as a delta.
    pub gains_indices: [i8; 4],
    /// Long-term filter per subframe.
    pub ltp_index: [i8; 4],
    /// First-stage NLSF index, then one residual per coefficient.
    pub nlsf_indices: [i8; 17],
    /// Pitch lag above the minimum.
    pub lag_index: i16,
    /// Pitch contour.
    pub contour_index: i8,
    /// One of the three frame types.
    pub signal_type: i8,
    /// 0 or 1.
    pub quant_offset_type: i8,
    /// Quarters of the way from the previous NLSF vector, 0 to 4.
    pub nlsf_interp_coef_q2: i8,
    /// Long-term codebook, 0 to 2.
    pub per_index: i8,
    /// Long-term scaling, 0 to 2.
    pub ltp_scale_index: i8,
    /// Seed of the excitation dither, 0 to 3.
    pub seed: i8,
}

/// The contents of [`SideInfoIndices`].
#[verifier::ext_equal]
pub struct IndicesView {
    pub gains_indices: Seq<i8>,
    pub ltp_index: Seq<i8>,
    pub nlsf_indices: Seq<i8>,
    pub lag_index: i16,
    pub contour_index: i8,
    pub signal_type: i8,
    pub quant_offset_type: i8,
    pub nlsf_interp_coef_q2: i8,
    pub per_index: i8,
    pub ltp_scale_index: i8,
    pub seed: i8,
}

impl View for SideInfoIndices {
    type V = IndicesView;

    open spec fn view(&self) -> IndicesView {
        IndicesView {
            gains_indices: self.gains_indices@,
            ltp_index: self.ltp_index@,
            nlsf_indices: self.nlsf_indices@,
            lag_index: self.lag_index,
            contour_index: self.contour_index,
            signal_type: self.signal_type,
            quant_offset_type: self.quant_offset_type,
            nlsf_interp_coef_q2: self.nlsf_interp_coef_q2,
            per_index: self.per_index,
            ltp_scale_index: self.ltp_scale_index,
            seed: self.seed,
        }
    }
}

impl IndicesView {
    /// All indices zero.
    pub open spec fn zero() -> IndicesView {
        IndicesView {
            gains_indices: Seq::new(4, |i: int| 0i8),
            ltp_index: Seq::new(4, |i: int| 0i8),
            nlsf_indices: Seq::new(17, |i: int| 0i8),
            lag_index: 0,
            contour_index: 0,
            signal_type: 0,
            quant_offset_type: 0,
            nlsf_interp_coef_q2: 0,
            per_index: 0,
            ltp_scale_index: 0,
            seed: 0,
        }
    }
}

impl Default for SideInfoIndices {
    fn default() -> (r: SideInfoIndices)
        ensures
            r@ == IndicesView::zero(),
    {
        let r: SideInfoIndices = SideInfoIndices {
            gains_indices: [0; 4],
            ltp_index: [0; 4],
            nlsf_indices: [0; 17],
            lag_index: 0,
            contour_index: 0,
            signal_type: 0,
            quant_offset_type: 0,
            nlsf_interp_coef_q2: 0,
            per_index: 0,
            ltp_scale_index: 0,
            seed: 0,
        };
        assert(r@ =~= IndicesView::zero());
        r
    }
}

/// Offset of the residual table of coefficient `i` under the first-stage
/// vector `v`.
pub open spec fn unpack_ec_spec(cb: NlsfCbView, v: int, i: int) -> int {
    let e = cb.select(v, i) as int;
    if i % 2 == 0 {
        (e / 2) % 8 * 9
    } else {
        (e / 32) % 8 * 9
    }
}

/// Backward predictor of coefficient `i` under the first-stage vector `v`.
pub open spec fn unpack_pred_spec(cb: NlsfCbView, v: int, i: int) -> u8 {
    let e = cb.select(v, i) as int;
    let set = if i % 2 == 0 {
        e % 2
    } else {
        (e / 16) % 2
    };
    cb.pred_q8[if set == 1 {
        i + (cb.order - 1)
    } else {
        i
    }]
}

/// Residual table offsets and predictors of all coefficients of a first-stage
/// vector; entries from the codebook's order on are zero.
pub fn nlsf_unpack(cb: &NlsfCbStruct, cb1_index: usize) -> (r: ([usize; 16], [u8; 16]))
    requires
        cb@.wf(),
        cb1_index < 32,
    ensures
        forall|i: int|
            0 <= i < cb@.order ==> {
                &&& #[trigger] r.0@[i] == unpack_ec_spec(cb@, cb1_index as int, i)
                &&& r.0@[i] <= 63
                &&& r.0@[i] % 9 == 0
            },
        forall|i: int|
            0 <= i < cb@.order ==> #[trigger] r.1@[i] == unpack_pred_spec(cb@, cb1_index as int, i),
        forall|i: int| cb@.order <= i < 16 ==> #[trigger] r.0@[i] == 0,
        forall|i: int| cb@.order <= i < 16 ==> #[trigger] r.1@[i] == 0,
{
    let order: usize = cb.order as usize;
    let mut ec_ix: [usize; 16] = [0; 16];
    let mut pred_q8: [u8; 16] = [0; 16];
    let half: usize = order / 2;
    let mut j: usize = 0;
    while j < half
        invariant
            cb@.wf(),
            cb1_index < 32,
            order == cb@.order,
            half == order / 2,
            j <= half,
            forall|i: int|
                0 <= i < 2 * j ==> {
                    &&& #[trigger] ec_ix@[i] == unpack_ec_spec(cb@, cb1_index as int, i)
                    &&& ec_ix@[i] <= 63
                    &&& ec_ix@[i] % 9 == 0
                },
            forall|i: int|
                0 <= i < 2 * j ==> #[trigger] pred_q8@[i] == unpack_pred_spec(
                    cb@,
                    cb1_index as int,
                    i,
                ),
            forall|i: int| 2 * j <= i < 16 ==> #[trigger] ec_ix@[i] == 0,
            forall|i: int| 2 * j <= i < 16 ==> #[trigger] pred_q8@[i] == 0,
        decreases half - j,
    {
        assert(0 <= cb1_index * half <= 31 * half) by (nonlinear_arith)
            requires
                cb1_index <= 31,
                half >= 0,
        ;
        let entry: u8 = cb.ec_sel[cb1_index * half + j];
        let i: usize = 2 * j;
        proof {
            assert(entry == cb@.select(cb1_index as int, i as int));
            assert(entry == cb@.select(cb1_index as int, i + 1));
            if i + 1 == order - 1 {
                assert((cb@.select(cb1_index as int, cb@.order - 1) / 16) % 2 == 0);
            }
        }
        ec_ix[i] = ((entry / 2) % 8) as usize * 9;
        ec_ix[i + 1] = ((entry / 32) % 8) as usize * 9;
        pred_q8[i] = if entry % 2 == 1 {
            cb.pred_q8[i + (order - 1)]
        } else {
            cb.pred_q8[i]
        };
        pred_q8[i + 1] = if (entry / 16) % 2 == 1 {
            cb.pred_q8[i + 1 + (order - 1)]
        } else {
            cb.pred_q8[i + 1]
        };
        j = j + 1;
    }
    (ec_ix, pred_q8)
}

// ---------------------------------------------------------------------
// A frame's indices
// ---------------------------------------------------------------------

/// How a frame's indices depend on the frame before.
#[derive(Clone, Copy, Debug, PartialEq, Eq, Structural)]
pub enum CondCoding {
    /// On their own, with a scale for the long-term prediction.
    Independently,
    /// On their own, without that scale.
    IndependentlyNoLtpScaling,
    /// As differences.
    Conditionally,
}

/// What the indices of the next frame may refer to.
#[derive(Clone, Copy, Debug, PartialEq, Eq, Structural)]
pub struct EcPrevState {
    /// Type of the last frame.
    pub ec_prev_signal_type: i8,
    /// Lag of the last voiced frame.
    pub ec_prev_lag_index: i16,
}

impl EcPrevState {
    /// Before the first frame.
    pub open spec fn zero() -> EcPrevState {
        EcPrevState { ec_prev_signal_type: 0, ec_prev_lag_index: 0 }
    }
}

impl Default for EcPrevState {
    fn default() -> (r: EcPrevState)
        ensures
            r == EcPrevState::zero(),
    {
        EcPrevState { ec_prev_signal_type: 0, ec_prev_lag_index: 0 }
    }
}

/// What decoding a frame's indices depends on.
#[derive(Clone, Copy, Debug)]
pub struct FrameParams {
    /// Codebook of the rate.
    pub nlsf_cb: NlsfCbStruct,
    /// 8, 12 or 16.
    pub fs_khz: u32,
    /// 4 in frames of 20 ms, 2 in frames of 10 ms.
    pub nb_subfr: usize,
    /// Position in the packet.
    pub frame_index: usize,
    /// Whether the frame is marked as active.
    pub vad_flag: bool,
    /// Whether the frame is a redundant copy.
    pub decode_lbrr: bool,
    pub cond_coding: CondCoding,
}

/// The contents of [`FrameParams`].
#[verifier::ext_equal]
pub struct ParamsView {
    pub nlsf_cb: NlsfCbView,
    pub fs_khz: u32,
    pub nb_subfr: usize,
    pub vad_flag: bool,
    pub decode_lbrr: bool,
    pub cond_coding: CondCoding,
}

impl View for FrameParams {
    type V = ParamsView;

    open spec fn view(&self) -> ParamsView {
        ParamsView {
            nlsf_cb: self.nlsf_cb@,
            fs_khz: self.fs_khz,
            nb_subfr: self.nb_subfr,
            vad_flag: self.vad_flag,
            decode_lbrr: self.decode_lbrr,
            cond_coding: self.cond_coding,
        }
    }
}

impl ParamsView {
    pub open spec fn wf(self) -> bool {
        &&& self.nlsf_cb.wf()
        &&& valid_nb(self.nb_subfr as int)
    }

    pub open spec fn conditional(self) -> bool {
        self.cond_coding == CondCoding::Conditionally
    }
}

/// Range decoder, indices and context while a frame is decoded.
#[verifier::ext_equal]
pub struct SideState {
    pub st: RangeState,
    pub ix: IndicesView,
    pub ec: EcPrevState,
}

pub open spec fn next_symbol(st: RangeState, icdf: Seq<u8>) -> int {
    icdf_symbol(st, icdf, 8)
}

pub open spec fn after_symbol(st: RangeState, icdf: Seq<u8>) -> RangeState {
    icdf_next(st, icdf, 8)
}

/// Type and quantization offset.
pub open spec fn type_stage(s: SideState, p: ParamsView) -> SideState {
    let active = p.decode_lbrr || p.vad_flag;
    let table = if active {
        TYPE_OFFSET_VAD_ICDF@
    } else {
        TYPE_OFFSET_NO_VAD_ICDF@
    };
    let x = next_symbol(s.st, table) + if active {
        2int
    } else {
        0int
    };
    SideState {
        st: after_symbol(s.st, table),
        ix: IndicesView {
            signal_type: (x / 2) as i8,
            quant_offset_type: (x % 2) as i8,
            ..s.ix
        },
        ..s
    }
}

/// The gains of the first `n` subframes.
pub open spec fn gain_stage(s: SideState, p: ParamsView, n: int) -> SideState
    decreases n,
{
    if n <= 0 {
        s
    } else if n == 1 && !p.conditional() {
        let table = GAIN_ICDF@[s.ix.signal_type as int]@;
        let msb = next_symbol(s.st, table);
        let st = after_symbol(s.st, table);
        let lsb = next_symbol(st, UNIFORM8_ICDF@);
        SideState {
            st: after_symbol(st, UNIFORM8_ICDF@),
            ix: IndicesView {
                gains_indices: s.ix.gains_indices.update(0, (8 * msb + lsb) as i8),
                ..s.ix
            },
            ..s
        }
    } else {
        let t = gain_stage(s, p, n - 1);
        SideState {
            st: after_symbol(t.st, DELTA_GAIN_ICDF@),
            ix: IndicesView {
                gains_indices: t.ix.gains_indices.update(
                    n - 1,
                    next_symbol(t.st, DELTA_GAIN_ICDF@) as i8,
                ),
                ..t.ix
            },
            ..t
        }
    }
}

/// The first `n` residuals of the envelope under the first-stage vector `v`.
/// The two outermost symbols are extended by another one.
pub open spec fn residual_stage(s: SideState, cb: NlsfCbView, v: int, n: int) -> SideState
    decreases n,
{
    if n <= 0 {
        s
    } else {
        let t = residual_stage(s, cb, v, n - 1);
        let table = cb.ec_icdf.subrange(unpack_ec_spec(cb, v, n - 1), 72);
        let x = next_symbol(t.st, table);
        let st = after_symbol(t.st, table);
        let more = next_symbol(st, NLSF_EXT_ICDF@);
        let extended = x == 0 || x == 8;
        let value = if x == 0 {
            -4 - more
        } else if x == 8 {
            4 + more
        } else {
            x - 4
        };
        SideState {
            st: if extended {
                after_symbol(st, NLSF_EXT_ICDF@)
            } else {
                st
            },
            ix: IndicesView { nlsf_indices: t.ix.nlsf_indices.update(n, value as i8), ..t.ix },
            ..t
        }
    }
}

/// The table of first-stage vectors of a frame type.
pub open spec fn cb1_table(cb: NlsfCbView, signal_type: int) -> Seq<u8> {
    cb.cb1_icdf.subrange((signal_type / 2) * cb.n_vectors, cb.cb1_icdf.len() as int)
}

/// The first-stage vector.
pub open spec fn vector_stage(s: SideState, cb: NlsfCbView) -> SideState {
    let table = cb1_table(cb, s.ix.signal_type as int);
    SideState {
        st: after_symbol(s.st, table),
        ix: IndicesView {
            nlsf_indices: s.ix.nlsf_indices.update(0, next_symbol(s.st, table) as i8),
            ..s.ix
        },
        ..s
    }
}

/// All indices of the envelope.
pub open spec fn nlsf_stage(s: SideState, cb: NlsfCbView) -> SideState {
    let t = vector_stage(s, cb);
    residual_stage(t, cb, t.ix.nlsf_indices[0] as int, cb.order)
}

/// The interpolation of the envelope, which short frames do not code.
pub open spec fn interp_stage(s: SideState, p: ParamsView) -> SideState {
    if p.nb_subfr == 4 {
        SideState {
            st: after_symbol(s.st, NLSF_INTERPOLATION_FACTOR_ICDF@),
            ix: IndicesView {
                nlsf_interp_coef_q2: next_symbol(s.st, NLSF_INTERPOLATION_FACTOR_ICDF@) as i8,
                ..s.ix
            },
            ..s
        }
    } else {
        SideState { ix: IndicesView { nlsf_interp_coef_q2: 4, ..s.ix }, ..s }
    }
}

/// Whether the lag may be coded as a difference.
pub open spec fn lag_relative(s: SideState, p: ParamsView) -> bool {
    p.conditional() && s.ec.ec_prev_signal_type == TYPE_VOICED
}

/// Whether the lag is coded on its own.
pub open spec fn lag_absolute(s: SideState, p: ParamsView) -> bool {
    !(lag_relative(s, p) && next_symbol(s.st, PITCH_DELTA_ICDF@) > 0)
}

/// The table of the low part of a lag.
pub open spec fn low_bits_spec(fs_khz: int) -> Seq<u8> {
    if fs_khz == 8 {
        UNIFORM4_ICDF@
    } else if fs_khz == 12 {
        UNIFORM6_ICDF@
    } else {
        UNIFORM8_ICDF@
    }
}

/// The table of contours.
pub open spec fn contour_table_spec(fs_khz: int, nb_subfr: int) -> Seq<u8> {
    if fs_khz == 8 {
        if nb_subfr == 4 {
            PITCH_CONTOUR_NB_ICDF@
        } else {
            PITCH_CONTOUR_10_MS_NB_ICDF@
        }
    } else if nb_subfr == 4 {
        PITCH_CONTOUR_ICDF@
    } else {
        PITCH_CONTOUR_10_MS_ICDF@
    }
}

/// The table of long-term filters.
pub open spec fn ltp_table_spec(per_index: int) -> Seq<u8> {
    if per_index == 0 {
        LTP_GAIN_ICDF_0@
    } else if per_index == 1 {
        LTP_GAIN_ICDF_1@
    } else {
        LTP_GAIN_ICDF_2@
    }
}

/// The lag.
pub open spec fn lag_stage(s: SideState, p: ParamsView) -> SideState {
    let st0 = if lag_relative(s, p) {
        after_symbol(s.st, PITCH_DELTA_ICDF@)
    } else {
        s.st
    };
    let st1 = after_symbol(st0, PITCH_LAG_ICDF@);
    let low = low_bits_spec(p.fs_khz as int);
    let absolute = lag_absolute(s, p);
    let lag = if absolute {
        next_symbol(st0, PITCH_LAG_ICDF@) * (p.fs_khz as int / 2) + next_symbol(st1, low)
    } else {
        s.ec.ec_prev_lag_index + next_symbol(s.st, PITCH_DELTA_ICDF@) - 9
    } as i16;
    SideState {
        st: if absolute {
            after_symbol(st1, low)
        } else {
            st0
        },
        ix: IndicesView { lag_index: lag, ..s.ix },
        ec: EcPrevState { ec_prev_lag_index: lag, ..s.ec },
    }
}

/// The contour and the codebook of long-term filters.
pub open spec fn contour_stage(s: SideState, p: ParamsView) -> SideState {
    let table = contour_table_spec(p.fs_khz as int, p.nb_subfr as int);
    let st = after_symbol(s.st, table);
    SideState {
        st: after_symbol(st, LTP_PER_INDEX_ICDF@),
        ix: IndicesView {
            contour_index: next_symbol(s.st, table) as i8,
            per_index: next_symbol(st, LTP_PER_INDEX_ICDF@) as i8,
            ..s.ix
        },
        ..s
    }
}

/// The long-term filters of the first `n` subframes.
pub open spec fn ltp_stage(s: SideState, n: int) -> SideState
    decreases n,
{
    if n <= 0 {
        s
    } else {
        let t = ltp_stage(s, n - 1);
        let table = ltp_table_spec(s.ix.per_index as int);
        SideState {
            st: after_symbol(t.st, table),
            ix: IndicesView {
                ltp_index: t.ix.ltp_index.update(n - 1, next_symbol(t.st, table) as i8),
                ..t.ix
            },
            ..t
        }
    }
}

/// The scale of the long-term prediction.
pub open spec fn scale_stage(s: SideState, p: ParamsView) -> SideState {
    if p.cond_coding == CondCoding::Independently {
        SideState {
            st: after_symbol(s.st, LTPSCALE_ICDF@),
            ix: IndicesView {
                ltp_scale_index: next_symbol(s.st, LTPSCALE_ICDF@) as i8,
                ..s.ix
            },
            ..s
        }
    } else {
        SideState { ix: IndicesView { ltp_scale_index: 0, ..s.ix }, ..s }
    }
}

/// What only voiced frames code.
pub open spec fn voiced_stage(s: SideState, p: ParamsView) -> SideState {
    scale_stage(ltp_stage(contour_stage(lag_stage(s, p), p), p.nb_subfr as int), p)
}

/// What every frame codes in front of the seed and the voiced part.
pub open spec fn common_stage(s: SideState, p: ParamsView) -> SideState {
    interp_stage(
        nlsf_stage(gain_stage(type_stage(s, p), p, p.nb_subfr as int), p.nlsf_cb),
        p,
    )
}

/// All indices of a frame.
#[verifier::opaque]
pub open spec fn decode_indices_spec(s: SideState, p: ParamsView) -> SideState {
    let c = common_stage(s, p);
    let v = if c.ix.signal_type == TYPE_VOICED {
        voiced_stage(c, p)
    } else {
        c
    };
    SideState {
        st: after_symbol(v.st, UNIFORM4_ICDF@),
        ix: IndicesView { seed: next_symbol(v.st, UNIFORM4_ICDF@) as i8, ..v.ix },
        ec: EcPrevState { ec_prev_signal_type: v.ix.signal_type, ..v.ec },
    }
}

/// Whether a frame's lag cannot be decoded because the rate is none of the
/// three.
#[verifier::opaque]
pub open spec fn lag_fails(s: SideState, p: ParamsView) -> bool {
    let c = common_stage(s, p);
    c.ix.signal_type == TYPE_VOICED && lag_absolute(c, p) && !valid_fs(p.fs_khz as int)
}

/// Where a frame stops whose lag cannot be decoded: behind what every frame
/// codes, and behind the difference of the lag if one is coded.
pub open spec fn failed_stage(s: SideState, p: ParamsView) -> SideState {
    let c = common_stage(s, p);
    SideState {
        st: if lag_relative(c, p) {
            after_symbol(c.st, PITCH_DELTA_ICDF@)
        } else {
            c.st
        },
        ..c
    }
}

impl IndicesView {
    /// Arrays of the right lengths.
    pub open spec fn shaped(self) -> bool {
        &&& self.gains_indices.len() == 4
        &&& self.ltp_index.len() == 4
        &&& self.nlsf_indices.len() == 17
    }

    /// Indices that lie inside the tables that they choose from.
    pub open spec fn usable(self, fs_khz: int, nb_subfr: int) -> bool {
        &&& self.shaped()
        &&& 0 <= self.signal_type <= 2
        &&& 0 <= self.quant_offset_type <= 1
        &&& 0 <= self.nlsf_indices[0] < 32
        &&& 0 <= self.nlsf_interp_coef_q2 <= 4
        &&& 0 <= self.seed <= 3
        &&& self.signal_type == TYPE_VOICED ==> {
            &&& 0 <= self.contour_index < contour_count(fs_khz, nb_subfr)
            &&& 0 <= self.per_index <= 2
            &&& 0 <= self.ltp_scale_index <= 2
            &&& forall|k: int|
                0 <= k < nb_subfr ==> 0 <= #[trigger] self.ltp_index[k] < ltp_count(
                    self.per_index as int,
                )
        }
    }
}

fn decode_type(
    dec: &mut RangeDecoder<'_>,
    indices: &mut SideInfoIndices,
    params: &FrameParams,
    Ghost(ec): Ghost<EcPrevState>,
) -> (r: Result<()>)
    requires
        old(dec)@.wf(),
    ensures
        r is Ok,
        final(dec)@.wf(),
        final(dec)@.buf == old(dec)@.buf,
        ({
            let s = SideState { st: old(dec)@, ix: old(indices)@, ec };
            type_stage(s, params@) == (SideState { st: final(dec)@, ix: final(indices)@, ec })
        }),
        0 <= final(indices).signal_type <= 2,
        0 <= final(indices).quant_offset_type <= 1,
{
    assert(TYPE_OFFSET_VAD_ICDF@[3] == 0);
    assert(TYPE_OFFSET_NO_VAD_ICDF@[1] == 0);
    let x: u32 = if params.decode_lbrr || params.vad_flag {
        dec.decode_icdf(&TYPE_OFFSET_VAD_ICDF, 8)? + 2
    } else {
        dec.decode_icdf(&TYPE_OFFSET_NO_VAD_ICDF, 8)?
    };
    indices.signal_type = (x / 2) as i8;
    indices.quant_offset_type = (x % 2) as i8;
    Ok(())
}

fn decode_gains(
    dec: &mut RangeDecoder<'_>,
    indices: &mut SideInfoIndices,
    params: &FrameParams,
    Ghost(ec): Ghost<EcPrevState>,
) -> (r: Result<()>)
    requires
        old(dec)@.wf(),
        valid_nb(params.nb_subfr as int),
        0 <= old(indices).signal_type <= 2,
    ensures
        r is Ok,
        final(dec)@.wf(),
        final(dec)@.buf == old(dec)@.buf,
        ({
            let s = SideState { st: old(dec)@, ix: old(indices)@, ec };
            gain_stage(s, params@, params.nb_subfr as int) == (SideState {
                st: final(dec)@,
                ix: final(indices)@,
                ec,
            })
        }),
{
    let ghost s = SideState { st: dec@, ix: indices@, ec };
    assert(DELTA_GAIN_ICDF@[40] == 0);
    assert(UNIFORM8_ICDF@[7] == 0);
    if params.cond_coding == CondCoding::Conditionally {
        indices.gains_indices[0] = dec.decode_icdf(&DELTA_GAIN_ICDF, 8)? as i8;
        proof {
            assert(gain_stage(s, params@, 0) == s);
        }
    } else {
        let row: [u8; 8] = GAIN_ICDF[indices.signal_type as usize];
        assert(row@[7] == 0);
        let msb: u32 = dec.decode_icdf(&row, 8)?;
        let lsb: u32 = dec.decode_icdf(&UNIFORM8_ICDF, 8)?;
        indices.gains_indices[0] = (msb * 8 + lsb) as i8;
    }
    assert(indices@ =~= gain_stage(s, params@, 1).ix);
    let mut k: usize = 1;
    while k < params.nb_subfr
        invariant
            1 <= k <= params.nb_subfr,
            valid_nb(params.nb_subfr as int),
            dec@.wf(),
            dec@.buf == old(dec)@.buf,
            gain_stage(s, params@, k as int) == (SideState { st: dec@, ix: indices@, ec }),
        decreases params.nb_subfr - k,
    {
        assert(DELTA_GAIN_ICDF@[40] == 0);
        let ghost before = indices@;
        indices.gains_indices[k] = dec.decode_icdf(&DELTA_GAIN_ICDF, 8)? as i8;
        proof {
            assert(indices@ =~= gain_stage(s, params@, k + 1).ix);
        }
        k = k + 1;
    }
    Ok(())
}

fn decode_nlsf_indices(
    dec: &mut RangeDecoder<'_>,
    indices: &mut SideInfoIndices,
    cb: &NlsfCbStruct,
    Ghost(ec): Ghost<EcPrevState>,
) -> (r: Result<()>)
    requires
        old(dec)@.wf(),
        cb@.wf(),
        0 <= old(indices).signal_type <= 2,
    ensures
        r is Ok,
        final(dec)@.wf(),
        final(dec)@.buf == old(dec)@.buf,
        ({
            let s = SideState { st: old(dec)@, ix: old(indices)@, ec };
            nlsf_stage(s, cb@) == (SideState { st: final(dec)@, ix: final(indices)@, ec })
        }),
        0 <= final(indices)@.nlsf_indices[0] < 32,
{
    let ghost s = SideState { st: dec@, ix: indices@, ec };
    let start: usize = (indices.signal_type as usize / 2) * cb.n_vectors as usize;
    let table: &[u8] = &cb.cb1_icdf[start..cb.cb1_icdf.len()];
    assert(table@[31] == 0);
    let cb1_index: usize = dec.decode_icdf(table, 8)? as usize;
    indices.nlsf_indices[0] = cb1_index as i8;
    let ghost t = vector_stage(s, cb@);
    assert(indices@ =~= t.ix);
    let order: usize = cb.order as usize;
    let (ec_ix, _pred_q8) = nlsf_unpack(cb, cb1_index);
    let ghost v = cb1_index as int;
    let mut i: usize = 0;
    while i < order
        invariant
            i <= order,
            order == cb@.order,
            cb@.wf(),
            v == cb1_index,
            cb1_index < 32,
            dec@.wf(),
            dec@.buf == old(dec)@.buf,
            indices@.nlsf_indices[0] == v,
            forall|j: int|
                0 <= j < order ==> {
                    &&& #[trigger] ec_ix@[j] == unpack_ec_spec(cb@, v, j)
                    &&& ec_ix@[j] <= 63
                    &&& ec_ix@[j] % 9 == 0
                },
            residual_stage(t, cb@, v, i as int) == (SideState { st: dec@, ix: indices@, ec }),
        decreases order - i,
    {
        let offset: usize = ec_ix[i];
        let table: &[u8] = &cb.ec_icdf[offset..72];
        proof {
            let k = offset as int / 9;
            assert(cb@.ec_icdf[(9 * k) + 8] == 0);
            assert(table@[8] == 0);
            assert(NLSF_EXT_ICDF@[6] == 0);
        }
        let mut x: i32 = dec.decode_icdf(table, 8)? as i32;
        if x == 0 {
            x = x - dec.decode_icdf(&NLSF_EXT_ICDF, 8)? as i32;
        } else if x == 2 * NLSF_QUANT_MAX_AMPLITUDE {
            x = x + dec.decode_icdf(&NLSF_EXT_ICDF, 8)? as i32;
        }
        indices.nlsf_indices[i + 1] = (x - NLSF_QUANT_MAX_AMPLITUDE) as i8;
        proof {
            assert(indices@ =~= residual_stage(t, cb@, v, i + 1).ix);
        }
        i = i + 1;
    }
    Ok(())
}

/// The table of the low part of a lag.
fn pitch_lag_low_bits_icdf(fs_khz: u32) -> (r: Result<&'static [u8]>)
    ensures
        r is Ok <==> valid_fs(fs_khz as int),
        r is Ok ==> r->Ok_0@ == low_bits_spec(fs_khz as int),
        r is Ok ==> r->Ok_0@.len() == fs_khz / 2 && r->Ok_0@[r->Ok_0@.len() - 1] == 0,
        r is Err ==> r->Err_0 == CadenceError::CorruptData(Corruption::InternalRateKhz(fs_khz)),
{
    if fs_khz == 8 {
        Ok(&UNIFORM4_ICDF)
    } else if fs_khz == 12 {
        Ok(&UNIFORM6_ICDF)
    } else if fs_khz == 16 {
        Ok(&UNIFORM8_ICDF)
    } else {
        Err(CadenceError::CorruptData(Corruption::InternalRateKhz(fs_khz)))
    }
}

/// The table of contours.
fn pitch_contour_icdf(fs_khz: u32, nb_subfr: usize) -> (r: &'static [u8])
    ensures
        r@ == contour_table_spec(fs_khz as int, nb_subfr as int),
        r@.len() == contour_count(fs_khz as int, nb_subfr as int),
        r@[r@.len() - 1] == 0,
{
    if fs_khz == 8 {
        if nb_subfr == 4 {
            &PITCH_CONTOUR_NB_ICDF
        } else {
            &PITCH_CONTOUR_10_MS_NB_ICDF
        }
    } else if nb_subfr == 4 {
        &PITCH_CONTOUR_ICDF
    } else {
        &PITCH_CONTOUR_10_MS_ICDF
    }
}

/// The table of long-term filters.
fn ltp_gain_icdf(per_index: i8) -> (r: &'static [u8])
    requires
        0 <= per_index <= 2,
    ensures
        r@ == ltp_table_spec(per_index as int),
        r@.len() == ltp_count(per_index as int),
        r@[r@.len() - 1] == 0,
{
    if per_index == 0 {
        &LTP_GAIN_ICDF_0
    } else if per_index == 1 {
        &LTP_GAIN_ICDF_1
    } else {
        &LTP_GAIN_ICDF_2
    }
}

fn decode_lag(
    dec: &mut RangeDecoder<'_>,
    indices: &mut SideInfoIndices,
    ec_state: &mut EcPrevState,
    params: &FrameParams,
) -> (r: Result<()>)
    requires
        old(dec)@.wf(),
    ensures
        final(dec)@.wf(),
        final(dec)@.buf == old(dec)@.buf,
        ({
            let s = SideState { st: old(dec)@, ix: old(indices)@, ec: *old(ec_state) };
            if lag_absolute(s, params@) && !valid_fs(params.fs_khz as int) {
                &&& r == Err::<(), CadenceError>(
                    CadenceError::CorruptData(Corruption::InternalRateKhz(params.fs_khz)),
                )
                &&& final(dec)@ == (if lag_relative(s, params@) {
                    after_symbol(s.st, PITCH_DELTA_ICDF@)
                } else {
                    s.st
                })
                &&& final(indices)@ == s.ix
                &&& *final(ec_state) == s.ec
            } else {
                &&& r is Ok
                &&& lag_stage(s, params@) == (SideState {
                    st: final(dec)@,
                    ix: final(indices)@,
                    ec: *final(ec_state),
                })
            }
        }),
{
    let ghost s = SideState { st: dec@, ix: indices@, ec: *ec_state };
    assert(PITCH_DELTA_ICDF@[20] == 0);
    assert(PITCH_LAG_ICDF@[31] == 0);
    let mut absolute: bool = true;
    if params.cond_coding == CondCoding::Conditionally && ec_state.ec_prev_signal_type
        == TYPE_VOICED {
        let delta: i32 = dec.decode_icdf(&PITCH_DELTA_ICDF, 8)? as i32;
        if delta > 0 {
            let lag: i32 = ec_state.ec_prev_lag_index as i32 + delta - 9;
            indices.lag_index = #[verifier::truncate] (lag as i16);
            absolute = false;
        }
    }
    if absolute {
        let low_bits_icdf: &'static [u8] = match pitch_lag_low_bits_icdf(params.fs_khz) {
            Ok(table) => table,
            Err(e) => {
                return Err(e);
            },
        };
        let high: i32 = dec.decode_icdf(&PITCH_LAG_ICDF, 8)? as i32;
        let low: i32 = dec.decode_icdf(low_bits_icdf, 8)? as i32;
        proof {
            assert(0 <= high * (params.fs_khz as int / 2) <= 31 * 8) by (nonlinear_arith)
                requires
                    0 <= high <= 31,
                    params.fs_khz <= 16,
            ;
        }
        indices.lag_index = (high * (params.fs_khz as i32 / 2) + low) as i16;
    }
    ec_state.ec_prev_lag_index = indices.lag_index;
    Ok(())
}

fn decode_ltp(
    dec: &mut RangeDecoder<'_>,
    indices: &mut SideInfoIndices,
    params: &FrameParams,
    Ghost(ec): Ghost<EcPrevState>,
) -> (r: Result<()>)
    requires
        old(dec)@.wf(),
        valid_nb(params.nb_subfr as int),
    ensures
        r is Ok,
        final(dec)@.wf(),
        final(dec)@.buf == old(dec)@.buf,
        ({
            let s = SideState { st: old(dec)@, ix: old(indices)@, ec };
            scale_stage(ltp_stage(contour_stage(s, params@), params.nb_subfr as int), params@) == (
            SideState { st: final(dec)@, ix: final(indices)@, ec })
        }),
        0 <= final(indices).contour_index < contour_count(
            params.fs_khz as int,
            params.nb_subfr as int,
        ),
        0 <= final(indices).per_index <= 2,
        0 <= final(indices).ltp_scale_index <= 2,
        forall|k: int|
            0 <= k < params.nb_subfr ==> 0 <= #[trigger] final(indices).ltp_index@[k] < ltp_count(
                final(indices).per_index as int,
            ),
{
    let ghost s = SideState { st: dec@, ix: indices@, ec };
    assert(LTP_PER_INDEX_ICDF@[2] == 0);
    assert(LTPSCALE_ICDF@[2] == 0);
    let contour_icdf: &'static [u8] = pitch_contour_icdf(params.fs_khz, params.nb_subfr);
    indices.contour_index = dec.decode_icdf(contour_icdf, 8)? as i8;
    indices.per_index = dec.decode_icdf(&LTP_PER_INDEX_ICDF, 8)? as i8;
    let ghost c = contour_stage(s, params@);
    assert(indices@ =~= c.ix);
    let table: &'static [u8] = ltp_gain_icdf(indices.per_index);
    let mut k: usize = 0;
    while k < params.nb_subfr
        invariant
            k <= params.nb_subfr,
            valid_nb(params.nb_subfr as int),
            dec@.wf(),
            dec@.buf == old(dec)@.buf,
            0 <= indices.contour_index < contour_count(
                params.fs_khz as int,
                params.nb_subfr as int,
            ),
            0 <= indices.per_index <= 2,
            indices.per_index == c.ix.per_index,
            table@ == ltp_table_spec(c.ix.per_index as int),
            table@.len() == ltp_count(c.ix.per_index as int),
            table@[table@.len() - 1] == 0,
            ltp_stage(c, k as int) == (SideState { st: dec@, ix: indices@, ec }),
            forall|i: int|
                0 <= i < k ==> 0 <= #[trigger] indices.ltp_index@[i] < ltp_count(
                    indices.per_index as int,
                ),
        decreases params.nb_subfr - k,
    {
        indices.ltp_index[k] = dec.decode_icdf(table, 8)? as i8;
        proof {
            assert(indices@ =~= ltp_stage(c, k + 1).ix);
        }
        k = k + 1;
    }
    if params.cond_coding == CondCoding::Independently {
        assert(LTPSCALE_ICDF@[2] == 0);
        indices.ltp_scale_index = dec.decode_icdf(&LTPSCALE_ICDF, 8)? as i8;
    } else {
        indices.ltp_scale_index = 0;
    }
    Ok(())
}

/// Decodes the indices of a frame.
pub fn decode_indices(
    dec: &mut RangeDecoder<'_>,
    indices: &mut SideInfoIndices,
    ec_state: &mut EcPrevState,
    params: &FrameParams,
) -> (r: Result<()>)
    requires
        old(dec)@.wf(),
        params@.wf(),
    ensures
        final(dec)@.wf(),
        final(dec)@.buf == old(dec)@.buf,
        ({
            let s = SideState { st: old(dec)@, ix: old(indices)@, ec: *old(ec_state) };
            &&& valid_fs(params.fs_khz as int) ==> !lag_fails(s, params@)
            &&& if lag_fails(s, params@) {
                &&& r == Err::<(), CadenceError>(
                    CadenceError::CorruptData(Corruption::InternalRateKhz(params.fs_khz)),
                )
                &&& failed_stage(s, params@) == (SideState {
                    st: final(dec)@,
                    ix: final(indices)@,
                    ec: *final(ec_state),
                })
            } else {
                &&& r is Ok
                &&& decode_indices_spec(s, params@) == (SideState {
                    st: final(dec)@,
                    ix: final(indices)@,
                    ec: *final(ec_state),
                })
                &&& final(indices)@.usable(params.fs_khz as int, params.nb_subfr as int)
            }
        }),
{
    reveal(decode_indices_spec);
    reveal(lag_fails);
    let ghost s = SideState { st: dec@, ix: indices@, ec: *ec_state };
    let ghost ec = *ec_state;
    decode_type(dec, indices, params, Ghost(ec))?;
    decode_gains(dec, indices, params, Ghost(ec))?;
    proof {
        lemma_gain_frame(type_stage(s, params@), params@, params.nb_subfr as int);
    }
    decode_nlsf_indices(dec, indices, &params.nlsf_cb, Ghost(ec))?;
    if params.nb_subfr == MAX_NB_SUBFR {
        assert(NLSF_INTERPOLATION_FACTOR_ICDF@[4] == 0);
        indices.nlsf_interp_coef_q2 = dec.decode_icdf(&NLSF_INTERPOLATION_FACTOR_ICDF, 8)? as i8;
    } else {
        indices.nlsf_interp_coef_q2 = 4;
    }
    let ghost c = common_stage(s, params@);
    assert(c == (SideState { st: dec@, ix: indices@, ec }));
    proof {
        lemma_common_ranges(s, params@);
    }
    if indices.signal_type == TYPE_VOICED {
        match decode_lag(dec, indices, ec_state, params) {
            Ok(()) => {},
            Err(e) => {
                return Err(e);
            },
        }
        let ghost lag_ec = *ec_state;
        decode_ltp(dec, indices, params, Ghost(lag_ec))?;
        proof {
            lemma_voiced_frame(c, params@);
        }
    }
    ec_state.ec_prev_signal_type = indices.signal_type;
    assert(UNIFORM4_ICDF@[3] == 0);
    indices.seed = dec.decode_icdf(&UNIFORM4_ICDF, 8)? as i8;
    Ok(())
}

/// The gains leave the other indices as they are.
proof fn lemma_gain_frame(s: SideState, p: ParamsView, n: int)
    requires
        s.ix.gains_indices.len() == 4,
        n <= 4,
    ensures
        gain_stage(s, p, n).ix == (IndicesView {
            gains_indices: gain_stage(s, p, n).ix.gains_indices,
            ..s.ix
        }),
        gain_stage(s, p, n).ec == s.ec,
        gain_stage(s, p, n).ix.gains_indices.len() == 4,
    decreases n,
{
    if n > 0 {
        lemma_gain_frame(s, p, n - 1);
    }
}

/// The residuals leave the other indices as they are.
proof fn lemma_residual_frame(s: SideState, cb: NlsfCbView, v: int, n: int)
    requires
        s.ix.nlsf_indices.len() == 17,
        n <= 16,
    ensures
        residual_stage(s, cb, v, n).ix == (IndicesView {
            nlsf_indices: residual_stage(s, cb, v, n).ix.nlsf_indices,
            ..s.ix
        }),
        residual_stage(s, cb, v, n).ec == s.ec,
        residual_stage(s, cb, v, n).ix.nlsf_indices.len() == 17,
        residual_stage(s, cb, v, n).ix.nlsf_indices[0] == s.ix.nlsf_indices[0],
    decreases n,
{
    if n > 0 {
        lemma_residual_frame(s, cb, v, n - 1);
    }
}

/// The long-term filters leave the other indices as they are.
proof fn lemma_ltp_frame(s: SideState, n: int)
    ensures
        ltp_stage(s, n).ix == (IndicesView {
            ltp_index: ltp_stage(s, n).ix.ltp_index,
            ..s.ix
        }),
        ltp_stage(s, n).ec == s.ec,
    decreases n,
{
    if n > 0 {
        lemma_ltp_frame(s, n - 1);
    }
}

/// The common indices lie in their ranges.
proof fn lemma_common_ranges(s: SideState, p: ParamsView)
    requires
        s.st.wf(),
        s.ix.shaped(),
        p.wf(),
    ensures
        ({
            let ix = common_stage(s, p).ix;
            &&& 0 <= ix.signal_type <= 2
            &&& 0 <= ix.quant_offset_type <= 1
            &&& 0 <= ix.nlsf_indices[0] < 32
            &&& 0 <= ix.nlsf_interp_coef_q2 <= 4
        }),
        common_stage(s, p).ec == s.ec,
{
    assert(TYPE_OFFSET_VAD_ICDF@[3] == 0);
    assert(TYPE_OFFSET_NO_VAD_ICDF@[1] == 0);
    if p.decode_lbrr || p.vad_flag {
        lemma_symbol_bound(s.st, TYPE_OFFSET_VAD_ICDF@, 8, 3);
    } else {
        lemma_symbol_bound(s.st, TYPE_OFFSET_NO_VAD_ICDF@, 8, 1);
    }
    let a = type_stage(s, p);
    let b = gain_stage(a, p, p.nb_subfr as int);
    lemma_gain_frame(a, p, p.nb_subfr as int);
    let table = cb1_table(p.nlsf_cb, b.ix.signal_type as int);
    assert(table[31] == 0);
    lemma_symbol_bound(b.st, table, 8, 31);
    let t = vector_stage(b, p.nlsf_cb);
    lemma_residual_frame(t, p.nlsf_cb, t.ix.nlsf_indices[0] as int, p.nlsf_cb.order);
    let c = nlsf_stage(b, p.nlsf_cb);
    assert(NLSF_INTERPOLATION_FACTOR_ICDF@[4] == 0);
    lemma_symbol_bound(c.st, NLSF_INTERPOLATION_FACTOR_ICDF@, 8, 4);
}

/// The voiced part leaves the common indices as they are.
proof fn lemma_voiced_frame(s: SideState, p: ParamsView)
    ensures
        ({
            let ix = voiced_stage(s, p).ix;
            &&& ix.gains_indices == s.ix.gains_indices
            &&& ix.nlsf_indices == s.ix.nlsf_indices
            &&& ix.signal_type == s.ix.signal_type
            &&& ix.quant_offset_type == s.ix.quant_offset_type
            &&& ix.nlsf_interp_coef_q2 == s.ix.nlsf_interp_coef_q2
        }),
{
    lemma_ltp_frame(contour_stage(lag_stage(s, p), p), p.nb_subfr as int);
}

// ---------------------------------------------------------------------
// Flags of a packet
// ---------------------------------------------------------------------

/// The state behind `n` even bits.
pub open spec fn bits_stage(st: RangeState, n: int) -> RangeState
    decreases n,
{
    if n <= 0 {
        st
    } else {
        bit_next(bits_stage(st, n - 1), 1)
    }
}

/// Decodes the activity flags of a packet's frames and the flag that says
/// whether redundant frames follow.
pub fn decode_vad_flags_and_lbrr_flag(dec: &mut RangeDecoder<'_>, n_frames: usize) -> (r: Result<
    ([bool; 3], bool),
>)
    requires
        old(dec)@.wf(),
        1 <= n_frames <= 3,
    ensures
        r is Ok,
        final(dec)@.wf(),
        final(dec)@.buf == old(dec)@.buf,
        final(dec)@ == bits_stage(old(dec)@, n_frames + 1),
        forall|i: int|
            0 <= i < 3 ==> #[trigger] r->Ok_0.0@[i] == (i < n_frames && bit_value(
                bits_stage(old(dec)@, i),
                1,
            )),
        r->Ok_0.1 == bit_value(bits_stage(old(dec)@, n_frames as int), 1),
{
    let mut vad_flags: [bool; 3] = [false; 3];
    let ghost st = dec@;
    let mut i: usize = 0;
    while i < n_frames
        invariant
            i <= n_frames <= 3,
            dec@.wf(),
            dec@.buf == old(dec)@.buf,
            dec@ == bits_stage(st, i as int),
            forall|j: int|
                0 <= j < 3 ==> #[trigger] vad_flags@[j] == (j < i && bit_value(
                    bits_stage(st, j),
                    1,
                )),
        decreases n_frames - i,
    {
        vad_flags[i] = dec.decode_bit_logp(1)?;
        i = i + 1;
    }
    let lbrr_flag: bool = dec.decode_bit_logp(1)?;
    Ok((vad_flags, lbrr_flag))
}

/// The pattern of redundant frames in a packet of two or three, one bit for
/// each frame; never all clear.
pub open spec fn lbrr_pattern_spec(st: RangeState, n_frames: int) -> int {
    1 + next_symbol(
        st,
        if n_frames == 2 {
            LBRR_FLAGS_2_ICDF@
        } else {
            LBRR_FLAGS_3_ICDF@
        },
    )
}

/// Bit `i` of a pattern.
pub open spec fn pattern_bit(pattern: int, i: int) -> bool {
    if i == 0 {
        pattern % 2 == 1
    } else if i == 1 {
        (pattern / 2) % 2 == 1
    } else {
        (pattern / 4) % 2 == 1
    }
}

/// The flag of frame `i` in a packet of `n_frames`.
pub open spec fn lbrr_flag_spec(st: RangeState, n_frames: int, i: int) -> bool {
    if n_frames == 1 {
        i == 0
    } else {
        i < n_frames && pattern_bit(lbrr_pattern_spec(st, n_frames), i)
    }
}

/// The state behind the flags.
pub open spec fn lbrr_stage(st: RangeState, n_frames: int) -> RangeState {
    if n_frames == 1 {
        st
    } else if n_frames == 2 {
        after_symbol(st, LBRR_FLAGS_2_ICDF@)
    } else {
        after_symbol(st, LBRR_FLAGS_3_ICDF@)
    }
}

/// Decodes which frames of a packet with redundant frames have one.
pub fn decode_lbrr_flags(dec: &mut RangeDecoder<'_>, n_frames: usize) -> (r: Result<[bool; 3]>)
    requires
        old(dec)@.wf(),
        1 <= n_frames <= 3,
    ensures
        r is Ok,
        final(dec)@.wf(),
        final(dec)@.buf == old(dec)@.buf,
        final(dec)@ == lbrr_stage(old(dec)@, n_frames as int),
        forall|i: int|
            0 <= i < 3 ==> #[trigger] r->Ok_0@[i] == lbrr_flag_spec(
                old(dec)@,
                n_frames as int,
                i,
            ),
        r->Ok_0@[0] || r->Ok_0@[1] || r->Ok_0@[2],
{
    let mut flags: [bool; 3] = [false; 3];
    if n_frames == 1 {
        flags[0] = true;
        return Ok(flags);
    }
    assert(LBRR_FLAGS_2_ICDF@[2] == 0);
    assert(LBRR_FLAGS_3_ICDF@[6] == 0);
    let pattern: u32 = 1 + if n_frames == 2 {
        dec.decode_icdf(&LBRR_FLAGS_2_ICDF, 8)?
    } else {
        dec.decode_icdf(&LBRR_FLAGS_3_ICDF, 8)?
    };
    flags[0] = pattern % 2 == 1;
    flags[1] = (pattern / 2) % 2 == 1;
    if n_frames == 3 {
        flags[2] = (pattern / 4) % 2 == 1;
    }
    assert(flags@[0] || flags@[1] || (n_frames == 3 && flags@[2]));
    Ok(flags)
}

} // verus!
