//! One channel of the decoder: rates, parameters and frames.
use crate::decode_indices::{
    CondCoding, EcPrevState, IndicesView, SideInfoIndices, TYPE_NO_VOICE_ACTIVITY, TYPE_VOICED,
};
use crate::error::{CadenceError, Corruption, Result, Unsupported};
use crate::gains::{
    gains_dequant, gains_spec, level_spec, LAST_GAIN_INDEX_ON_PACKET_LOSS, MAX_GAIN_Q16,
    MIN_GAIN_Q16,
};
use crate::nlsf::{
    bwexpander, bwexpander_spec, lemma_interpolated, nlsf2a, nlsf2a_spec, nlsf_decode,
    nlsf_decode_spec, nlsf_interpolate, nlsf_interpolate_spec,
};
use crate::pitch::{decode_pitch, lags_spec, ltp_coefs_q14, ltp_coefs_spec, ltp_scale_q14};
use crate::plc::{cng_reset, plc_reset, CngState, CngView, PlcState, PlcView};
use crate::resampler::{any_rate, lemma_start_wf, Resampler, ResamplerView};
use crate::synthesis::{
    valid_fs, valid_nb, zeros_i16, zeros_i32, CtrlView, DecoderControl, FrameInfo, SynthView,
    SynthesisState,
};
use crate::tables::{
    lemma_nlsf_cb_wf, nlsf_cb, nlsf_cb_spec, NlsfCbStruct, NlsfCbView, LTPSCALES_TABLE_Q14,
};
use vstd::prelude::*;

verus! {

/// Expansion of the prediction filters after a loss: 0.97 in Q16.
pub const BWE_AFTER_LOSS_Q16: i32 = 63570;

/// The state of a channel.
#[derive(Clone, Copy, Debug)]
pub struct ChannelState {
    /// Filter and output history.
    pub synth: SynthesisState,
    /// Excitation of the last coded frame in Q14.
    pub exc_q14: [i32; 320],
    /// Lag of the last subframe.
    pub lag_prev: i32,
    /// Gain level of the last subframe.
    pub last_gain_index: i8,
    /// Internal rate; 0 before the first frame.
    pub fs_khz: u32,
    /// Output rate.
    pub fs_api_hz: i32,
    /// Subframes in a frame.
    pub nb_subfr: usize,
    pub frame_length: usize,
    pub subfr_length: usize,
    pub ltp_mem_length: usize,
    pub lpc_order: usize,
    /// Spectral envelope of the last coded frame in Q15.
    pub prev_nlsf_q15: [i16; 16],
    /// Whether no frame was decoded since the last change of rate.
    pub first_frame_after_reset: bool,
    /// Frames of the packet that were decoded.
    pub n_frames_decoded: usize,
    pub n_frames_per_packet: usize,
    /// What the next frame's indices may refer to.
    pub ec_prev: EcPrevState,
    /// Activity of the packet's frames.
    pub vad_flags: [bool; 3],
    /// Whether the packet has redundant frames.
    pub lbrr_flag: bool,
    /// Which frames have a redundant copy.
    pub lbrr_flags: [bool; 3],
    pub resampler: Resampler,
    pub nlsf_cb: NlsfCbStruct,
    /// Indices of the last coded frame.
    pub indices: SideInfoIndices,
    pub cng: CngState,
    /// Frames lost in a row.
    pub loss_cnt: i32,
    /// Type of the last coded frame.
    pub prev_signal_type: i8,
    pub plc: PlcState,
    /// Quantization indices of the last coded frame.
    pub pulses: [i16; 320],
}

/// The contents of [`ChannelState`].
#[verifier::ext_equal]
pub struct ChannelView {
    pub synth: SynthView,
    pub exc_q14: Seq<i32>,
    pub lag_prev: i32,
    pub last_gain_index: i8,
    pub fs_khz: u32,
    pub fs_api_hz: i32,
    pub nb_subfr: usize,
    pub frame_length: usize,
    pub subfr_length: usize,
    pub ltp_mem_length: usize,
    pub lpc_order: usize,
    pub prev_nlsf_q15: Seq<i16>,
    pub first_frame_after_reset: bool,
    pub n_frames_decoded: usize,
    pub n_frames_per_packet: usize,
    pub ec_prev: EcPrevState,
    pub vad_flags: Seq<bool>,
    pub lbrr_flag: bool,
    pub lbrr_flags: Seq<bool>,
    pub resampler: ResamplerView,
    pub nlsf_cb: NlsfCbView,
    pub indices: IndicesView,
    pub cng: CngView,
    pub loss_cnt: i32,
    pub prev_signal_type: i8,
    pub plc: PlcView,
    pub pulses: Seq<i16>,
}

impl View for ChannelState {
    type V = ChannelView;

    open spec fn view(&self) -> ChannelView {
        ChannelView {
            synth: self.synth@,
            exc_q14: self.exc_q14@,
            lag_prev: self.lag_prev,
            last_gain_index: self.last_gain_index,
            fs_khz: self.fs_khz,
            fs_api_hz: self.fs_api_hz,
            nb_subfr: self.nb_subfr,
            frame_length: self.frame_length,
            subfr_length: self.subfr_length,
            ltp_mem_length: self.ltp_mem_length,
            lpc_order: self.lpc_order,
            prev_nlsf_q15: self.prev_nlsf_q15@,
            first_frame_after_reset: self.first_frame_after_reset,
            n_frames_decoded: self.n_frames_decoded,
            n_frames_per_packet: self.n_frames_per_packet,
            ec_prev: self.ec_prev,
            vad_flags: self.vad_flags@,
            lbrr_flag: self.lbrr_flag,
            lbrr_flags: self.lbrr_flags@,
            resampler: self.resampler@,
            nlsf_cb: self.nlsf_cb@,
            indices: self.indices@,
            cng: self.cng@,
            loss_cnt: self.loss_cnt,
            prev_signal_type: self.prev_signal_type,
            plc: self.plc@,
            pulses: self.pulses@,
        }
    }
}

/// Order of the prediction filters at an internal rate.
pub open spec fn order_spec(fs_khz: int) -> int {
    if fs_khz == 16 {
        16
    } else {
        10
    }
}

/// The codebook of an internal rate.
#[verifier::opaque]
pub open spec fn codebook_of(cb: NlsfCbView, fs_khz: u32) -> bool {
    &&& cb == nlsf_cb_spec(fs_khz)
    &&& cb.wf()
    &&& cb.order == order_spec(fs_khz as int)
}

proof fn lemma_codebook(fs_khz: u32)
    requires
        valid_fs(fs_khz as int),
    ensures
        codebook_of(nlsf_cb_spec(fs_khz), fs_khz),
{
    reveal(codebook_of);
    lemma_nlsf_cb_wf(fs_khz);
}

pub open spec fn no_flags() -> Seq<bool> {
    seq![false, false, false]
}

impl ChannelView {
    /// Everything zero but for the previous gain and the mark of a first
    /// frame.
    pub open spec fn zero() -> ChannelView {
        ChannelView {
            synth: SynthView::reset_state(),
            exc_q14: zeros_i32(320),
            lag_prev: 0,
            last_gain_index: 0,
            fs_khz: 0,
            fs_api_hz: 0,
            nb_subfr: 0,
            frame_length: 0,
            subfr_length: 0,
            ltp_mem_length: 0,
            lpc_order: 0,
            prev_nlsf_q15: zeros_i16(16),
            first_frame_after_reset: true,
            n_frames_decoded: 0,
            n_frames_per_packet: 0,
            ec_prev: EcPrevState::zero(),
            vad_flags: no_flags(),
            lbrr_flag: false,
            lbrr_flags: no_flags(),
            resampler: ResamplerView::start(8000, 8000, false),
            nlsf_cb: nlsf_cb_spec(8),
            indices: IndicesView::zero(),
            cng: CngView::zero(),
            loss_cnt: 0,
            prev_signal_type: 0,
            plc: PlcView::zero(),
            pulses: zeros_i16(320),
        }
    }

    /// The state after a reset.
    pub open spec fn reset_state() -> ChannelView {
        ChannelView {
            cng: CngView::zero().reset(0),
            plc: PlcView::zero().reset(0),
            ..ChannelView::zero()
        }
    }

    /// Frame length and rates fit each other: the channel can decode.
    pub open spec fn ready(self) -> bool {
        &&& valid_fs(self.fs_khz as int)
        &&& valid_nb(self.nb_subfr as int)
        &&& self.subfr_length == 5 * self.fs_khz
        &&& self.frame_length == self.nb_subfr * self.subfr_length
    }

    /// Lengths of a frame.
    pub open spec fn geometry(self) -> FrameInfo {
        FrameInfo::spec_new(self.fs_khz as int, self.nb_subfr as int)
    }

    /// What every operation keeps.
    #[verifier::opaque]
    pub open spec fn wf(self) -> bool {
        &&& self.fs_khz == 0 || valid_fs(self.fs_khz as int)
        &&& self.fs_khz != 0 ==> {
            &&& self.ltp_mem_length == 20 * self.fs_khz
            &&& self.lpc_order == order_spec(self.fs_khz as int)
            &&& codebook_of(self.nlsf_cb, self.fs_khz)
            &&& any_rate(self.fs_api_hz)
            &&& self.resampler.fs_in == self.fs_khz
            &&& self.resampler.fs_out * 1000 == self.fs_api_hz
            &&& self.prev_signal_type == TYPE_VOICED ==> 2 <= self.lag_prev <= 18 * self.fs_khz
        }
        &&& self.resampler.wf()
        &&& 0 <= self.prev_signal_type <= 2
        &&& self.synth.prev_gain_q16 > 0
        &&& forall|i: int| 0 <= i < 16 ==> 0 <= #[trigger] self.prev_nlsf_q15[i]
        &&& self.plc_wf()
        &&& self.cng_wf()
        &&& 0 <= self.loss_cnt
    }

    /// Everything that a frame leaves as it is.
    pub open spec fn same_setup(self, c: ChannelView) -> bool {
        &&& self.fs_khz == c.fs_khz
        &&& self.fs_api_hz == c.fs_api_hz
        &&& self.nb_subfr == c.nb_subfr
        &&& self.frame_length == c.frame_length
        &&& self.subfr_length == c.subfr_length
        &&& self.n_frames_decoded == c.n_frames_decoded
        &&& self.n_frames_per_packet == c.n_frames_per_packet
        &&& self.vad_flags == c.vad_flags
        &&& self.lbrr_flag == c.lbrr_flag
        &&& self.lbrr_flags == c.lbrr_flags
        &&& self.resampler == c.resampler
    }

    /// The concealment can go on from the last frame.
    pub open spec fn plc_wf(self) -> bool {
        &&& self.plc.fs_khz == 0 || valid_fs(self.plc.fs_khz as int)
        &&& self.plc.fs_khz != 0 ==> self.plc.usable(self.plc.fs_khz as int, 320)
        &&& 0 <= self.plc.conc_energy_shift <= 3
    }

    /// The comfort noise has a usable spectrum.
    pub open spec fn cng_wf(self) -> bool {
        &&& self.cng.fs_khz == 0 || valid_fs(self.cng.fs_khz as int)
        &&& self.cng.fs_khz != 0 ==> self.cng.usable(order_spec(self.cng.fs_khz as int))
    }

    /// The channel at the rates `fs_khz` and `fs_api_hz`. A new internal
    /// rate forgets the history; a new one of either starts the resampler
    /// anew.
    pub open spec fn at_rate(self, fs_khz: u32, fs_api_hz: i32) -> ChannelView {
        let fs_changed = self.fs_khz != fs_khz;
        let c = ChannelView {
            resampler: if fs_changed || self.fs_api_hz != fs_api_hz {
                ResamplerView::start((fs_khz * 1000) as i32, fs_api_hz, false)
            } else {
                self.resampler
            },
            fs_api_hz,
            fs_khz,
            subfr_length: (5 * fs_khz) as usize,
            frame_length: (self.nb_subfr * (5 * fs_khz)) as usize,
            ..self
        };
        if fs_changed {
            ChannelView {
                ltp_mem_length: (20 * fs_khz) as usize,
                lpc_order: order_spec(fs_khz as int) as usize,
                nlsf_cb: nlsf_cb_spec(fs_khz),
                ..c.without_history()
            }
        } else {
            c
        }
    }

    /// The channel before its first frame at a rate.
    pub open spec fn without_history(self) -> ChannelView {
        ChannelView {
            first_frame_after_reset: true,
            lag_prev: 100,
            last_gain_index: LAST_GAIN_INDEX_ON_PACKET_LOSS,
            prev_signal_type: TYPE_NO_VOICE_ACTIVITY,
            synth: SynthView {
                out_buf: zeros_i16(480),
                s_lpc_q14_buf: zeros_i32(16),
                ..self.synth
            },
            ..self
        }
    }
}

impl ChannelState {
    /// What every operation keeps.
    pub open spec fn wf(self) -> bool {
        self@.wf() && self.resampler.wf()
    }
}

impl Default for ChannelState {
    #[verifier::rlimit(60)]
    fn default() -> (r: ChannelState)
        ensures
            r@ == ChannelView::zero(),
            r.wf(),
    {
        let resampler: Resampler = Resampler::new(8000, 8000, false).unwrap();
        let r = ChannelState {
            synth: SynthesisState::default(),
            exc_q14: [0; 320],
            lag_prev: 0,
            last_gain_index: 0,
            fs_khz: 0,
            fs_api_hz: 0,
            nb_subfr: 0,
            frame_length: 0,
            subfr_length: 0,
            ltp_mem_length: 0,
            lpc_order: 0,
            prev_nlsf_q15: [0; 16],
            first_frame_after_reset: true,
            n_frames_decoded: 0,
            n_frames_per_packet: 0,
            ec_prev: EcPrevState::default(),
            vad_flags: [false; 3],
            lbrr_flag: false,
            lbrr_flags: [false; 3],
            resampler,
            nlsf_cb: nlsf_cb(8),
            indices: SideInfoIndices::default(),
            cng: CngState::default(),
            loss_cnt: 0,
            prev_signal_type: 0,
            plc: PlcState::default(),
            pulses: [0; 320],
        };
        assert(r@ =~= ChannelView::zero());
        reveal(ChannelView::wf);
        r
    }
}

impl ChannelState {
    /// Forgets everything.
    pub fn reset(&mut self)
        ensures
            final(self)@ == ChannelView::reset_state(),
            final(self).wf(),
    {
        *self = ChannelState::default();
        reveal(ChannelView::wf);
        cng_reset(&mut self.cng, 0);
        plc_reset(&mut self.plc, 0);
        assert(self@ =~= ChannelView::reset_state());
    }

    /// Moves the channel to an internal and an output rate. The number of
    /// subframes is set before.
    #[verifier::rlimit(60)]
    pub fn set_fs(&mut self, fs_khz: u32, fs_api_hz: i32) -> (r: Result<()>)
        requires
            old(self).wf(),
            valid_fs(fs_khz as int) ==> valid_nb(old(self).nb_subfr as int),
        ensures
            !valid_fs(fs_khz as int) ==> r == Err::<(), CadenceError>(
                CadenceError::CorruptData(Corruption::InternalRateKhz(fs_khz)),
            ),
            valid_fs(fs_khz as int) && !any_rate(fs_api_hz) ==> r == Err::<(), CadenceError>(
                CadenceError::UnsupportedFeature(
                    Unsupported::RatePair((fs_khz * 1000) as i32, fs_api_hz),
                ),
            ),
            valid_fs(fs_khz as int) && any_rate(fs_api_hz) ==> {
                &&& r is Ok
                &&& final(self)@ == old(self)@.at_rate(fs_khz, fs_api_hz)
                &&& final(self)@.ready()
            },
            final(self).wf(),
            r is Err ==> *final(self) == *old(self),
    {
        if fs_khz != 8 && fs_khz != 12 && fs_khz != 16 {
            return Err(CadenceError::CorruptData(Corruption::InternalRateKhz(fs_khz)));
        }
        let ghost before = self@;
        proof {
            lemma_rates(before);
        }
        let subfr_length: usize = 5 * fs_khz as usize;
        assert(self.nb_subfr * subfr_length <= 320) by (nonlinear_arith)
            requires
                self.nb_subfr <= 4,
                subfr_length <= 80,
        ;
        let frame_length: usize = self.nb_subfr * subfr_length;
        if self.fs_khz != fs_khz || self.fs_api_hz != fs_api_hz {
            match Resampler::new(fs_khz as i32 * 1000, fs_api_hz, false) {
                Ok(x) => {
                    self.resampler = x;
                },
                Err(e) => {
                    return Err(e);
                },
            }
            self.fs_api_hz = fs_api_hz;
        }
        if self.fs_khz != fs_khz {
            self.ltp_mem_length = 20 * fs_khz as usize;
            self.lpc_order = if fs_khz == 16 {
                16
            } else {
                10
            };
            self.nlsf_cb = nlsf_cb(fs_khz);
            self.first_frame_after_reset = true;
            self.lag_prev = 100;
            self.last_gain_index = LAST_GAIN_INDEX_ON_PACKET_LOSS;
            self.prev_signal_type = TYPE_NO_VOICE_ACTIVITY;
            self.synth.out_buf = [0; 480];
            self.synth.s_lpc_q14_buf = [0; 16];
            assert(self.synth@ =~= before.without_history().synth);
        }
        self.fs_khz = fs_khz;
        self.frame_length = frame_length;
        self.subfr_length = subfr_length;
        proof {
            assert(self@ =~= before.at_rate(fs_khz, fs_api_hz));
            lemma_at_rate_wf(before, fs_khz, fs_api_hz);
        }
        Ok(())
    }
}

/// A channel that has a rate has an output rate too, and what depends on
/// both.
pub proof fn lemma_rates(c: ChannelView)
    requires
        c.wf(),
    ensures
        c.fs_khz != 0 ==> {
            &&& any_rate(c.fs_api_hz)
            &&& c.lpc_order == order_spec(c.fs_khz as int)
            &&& c.ltp_mem_length == 20 * c.fs_khz
            &&& codebook_of(c.nlsf_cb, c.fs_khz)
            &&& c.resampler.fs_in == c.fs_khz
            &&& c.resampler.fs_out * 1000 == c.fs_api_hz
            &&& c.prev_signal_type == TYPE_VOICED ==> 2 <= c.lag_prev <= 18 * c.fs_khz
        },
        c.fs_khz <= 16,
        c.resampler.wf(),
        forall|i: int| 0 <= i < 16 ==> 0 <= #[trigger] c.prev_nlsf_q15[i],
{
    reveal(ChannelView::wf);
}

/// A change of rates keeps the invariant.
pub proof fn lemma_at_rate_wf(c: ChannelView, fs_khz: u32, fs_api_hz: i32)
    requires
        c.wf(),
        valid_fs(fs_khz as int),
        valid_nb(c.nb_subfr as int),
        any_rate(fs_api_hz),
    ensures
        c.at_rate(fs_khz, fs_api_hz).wf(),
        c.at_rate(fs_khz, fs_api_hz).ready(),
{
    reveal(ChannelView::wf);
    lemma_start_wf((fs_khz * 1000) as i32, fs_api_hz, false);
    lemma_codebook(fs_khz);
    let nb = c.nb_subfr as int;
    assert(0 <= nb * (5 * fs_khz) <= 320) by (nonlinear_arith)
        requires
            nb <= 4,
            nb >= 0,
            0 <= fs_khz <= 16,
    ;
}

// ---------------------------------------------------------------------
// Parameters of a frame
// ---------------------------------------------------------------------

impl ChannelView {
    /// Spectral envelope of the frame.
    pub open spec fn nlsf(self) -> Seq<i16> {
        nlsf_decode_spec(
            self.indices.nlsf_indices.subrange(0, self.lpc_order + 1),
            self.nlsf_cb,
        )
    }

    /// Interpolation between the last envelope and the frame's. There is none
    /// in the first frame after a reset.
    pub open spec fn interp_coef_q2(self) -> i8 {
        if self.first_frame_after_reset {
            4
        } else {
            self.indices.nlsf_interp_coef_q2
        }
    }

    /// Indices as the frame uses them.
    pub open spec fn effective_indices(self) -> IndicesView {
        IndicesView {
            nlsf_interp_coef_q2: self.interp_coef_q2(),
            per_index: if self.indices.signal_type == TYPE_VOICED {
                self.indices.per_index
            } else {
                0
            },
            ..self.indices
        }
    }

    /// Prediction filter of the frame's second half.
    pub open spec fn filter1(self, pred1: Seq<i16>) -> Seq<i16> {
        nlsf2a_spec(self.nlsf()) + pred1.subrange(self.lpc_order as int, 16)
    }

    /// Prediction filter of the frame's first half.
    pub open spec fn filter0(self, pred0: Seq<i16>, pred1: Seq<i16>) -> Seq<i16> {
        if self.interp_coef_q2() < 4 {
            nlsf2a_spec(
                nlsf_interpolate_spec(
                    self.prev_nlsf_q15.subrange(0, self.lpc_order as int),
                    self.nlsf(),
                    self.interp_coef_q2() as int,
                ),
            ) + pred0.subrange(self.lpc_order as int, 16)
        } else {
            self.filter1(pred1)
        }
    }

    /// A filter, expanded if frames were lost before.
    pub open spec fn after_loss(self, a: Seq<i16>) -> Seq<i16> {
        let order = self.lpc_order as int;
        if self.loss_cnt != 0 {
            bwexpander_spec(a.subrange(0, order), BWE_AFTER_LOSS_Q16) + a.subrange(order, 16)
        } else {
            a
        }
    }

    /// The parameters of the frame whose indices the channel holds.
    pub open spec fn parameters(self, ctrl: CtrlView, conditional: bool) -> CtrlView {
        let nb = self.nb_subfr as int;
        let voiced = self.indices.signal_type == TYPE_VOICED;
        CtrlView {
            gains_q16: gains_spec(
                ctrl.gains_q16,
                self.indices.gains_indices,
                self.last_gain_index as int,
                conditional,
                nb,
            ),
            pred0_q12: self.after_loss(self.filter0(ctrl.pred0_q12, ctrl.pred1_q12)),
            pred1_q12: self.after_loss(self.filter1(ctrl.pred1_q12)),
            pitch_l: if voiced {
                lags_spec(
                    zeros_i32(4),
                    self.indices.lag_index as int,
                    self.indices.contour_index as int,
                    self.fs_khz as int,
                    nb,
                )
            } else {
                Seq::new(
                    4,
                    |k: int|
                        if k < nb {
                            0
                        } else {
                            ctrl.pitch_l[k]
                        },
                )
            },
            ltp_coef_q14: if voiced {
                ltp_coefs_spec(
                    zeros_i16(20),
                    self.indices.per_index as int,
                    self.indices.ltp_index,
                    nb,
                )
            } else {
                Seq::new(
                    20,
                    |j: int|
                        if j < 5 * nb {
                            0
                        } else {
                            ctrl.ltp_coef_q14[j]
                        },
                )
            },
            ltp_scale_q14: if voiced {
                LTPSCALES_TABLE_Q14@[self.indices.ltp_scale_index as int]
            } else {
                0
            },
        }
    }

    /// The channel when the parameters are decoded.
    pub open spec fn with_parameters(self, conditional: bool) -> ChannelView {
        ChannelView {
            last_gain_index: level_spec(
                self.indices.gains_indices,
                self.last_gain_index as int,
                conditional,
                self.nb_subfr as int,
            ) as i8,
            prev_nlsf_q15: self.nlsf() + self.prev_nlsf_q15.subrange(self.lpc_order as int, 16),
            indices: self.effective_indices(),
            ..self
        }
    }
}

/// Decodes the prediction filters of the two halves of a frame.
#[verifier::rlimit(60)]
fn decode_filters(ch: &mut ChannelState, ctrl: &mut DecoderControl)
    requires
        old(ch).wf(),
        old(ch)@.ready(),
        0 <= old(ch)@.indices.nlsf_indices[0] < 32,
        0 <= old(ch).indices.nlsf_interp_coef_q2 <= 4,
    ensures
        final(ctrl)@ == (CtrlView {
            pred0_q12: old(ch)@.after_loss(
                old(ch)@.filter0(old(ctrl)@.pred0_q12, old(ctrl)@.pred1_q12),
            ),
            pred1_q12: old(ch)@.after_loss(old(ch)@.filter1(old(ctrl)@.pred1_q12)),
            ..old(ctrl)@
        }),
        final(ch)@ == (ChannelView {
            prev_nlsf_q15: old(ch)@.nlsf() + old(ch)@.prev_nlsf_q15.subrange(
                old(ch).lpc_order as int,
                16,
            ),
            indices: IndicesView {
                nlsf_interp_coef_q2: old(ch)@.interp_coef_q2(),
                ..old(ch)@.indices
            },
            ..old(ch)@
        }),
        final(ch).wf(),
{
    let ghost c0 = ch@;
    let ghost k0 = ctrl@;
    let order: usize = ch.lpc_order;
    proof {
        lemma_rates(c0);
    }
    assert(ch.nlsf_cb@.wf() && ch.nlsf_cb@.order == order) by {
        reveal(codebook_of);
    }
    let mut nlsf_q15: [i16; 16] = [0; 16];
    let (nlsf, _) = nlsf_q15.split_at_mut(order);
    nlsf_decode(nlsf, &ch.indices.nlsf_indices[0..order + 1], &ch.nlsf_cb);
    let ghost cur = c0.nlsf();
    assert(nlsf_q15@.subrange(0, order as int) =~= cur);
    assert(forall|i: int| 0 <= i < order ==> 0 <= #[trigger] nlsf_q15@[i]) by {
        assert(forall|i: int|
            0 <= i < order ==> #[trigger] nlsf_q15@[i] == nlsf_q15@.subrange(0, order as int)[i]);
    }
    let mut pred1: [i16; 16] = ctrl.pred_coef_q12[1];
    let (a1, _) = pred1.split_at_mut(order);
    nlsf2a(a1, &nlsf_q15[0..order], order);
    assert(pred1@ =~= c0.filter1(k0.pred1_q12));
    if ch.first_frame_after_reset {
        ch.indices.nlsf_interp_coef_q2 = 4;
    }
    let mut pred0: [i16; 16] = ctrl.pred_coef_q12[0];
    if ch.indices.nlsf_interp_coef_q2 < 4 {
        let coef_q2: i32 = ch.indices.nlsf_interp_coef_q2 as i32;
        let mut between_q15: [i16; 16] = [0; 16];
        let (between, _) = between_q15.split_at_mut(order);
        nlsf_interpolate(between, &ch.prev_nlsf_q15[0..order], &nlsf_q15[0..order], coef_q2);
        let ghost b = nlsf_interpolate_spec(
            c0.prev_nlsf_q15.subrange(0, order as int),
            cur,
            coef_q2 as int,
        );
        assert(between_q15@.subrange(0, order as int) =~= b);
        assert forall|i: int| 0 <= i < order implies 0 <= #[trigger] b[i] by {
            lemma_interpolated(c0.prev_nlsf_q15[i], cur[i], coef_q2 as int);
            assert(cur[i] == nlsf_q15@[i]);
        }
        let (a0, _) = pred0.split_at_mut(order);
        nlsf2a(a0, &between_q15[0..order], order);
    } else {
        pred0 = pred1;
    }
    assert(pred0@ =~= c0.filter0(k0.pred0_q12, k0.pred1_q12));
    let mut i: usize = 0;
    let ghost mid = ch@;
    while i < order
        invariant
            i <= order <= 16,
            ch@ == (ChannelView { prev_nlsf_q15: ch.prev_nlsf_q15@, ..mid }),
            ch.resampler.wf(),
            forall|k: int| 0 <= k < i ==> #[trigger] ch.prev_nlsf_q15@[k] == nlsf_q15@[k],
            forall|k: int| i <= k < 16 ==> #[trigger] ch.prev_nlsf_q15@[k] == c0.prev_nlsf_q15[k],
        decreases order - i,
    {
        ch.prev_nlsf_q15[i] = nlsf_q15[i];
        i = i + 1;
    }
    assert(ch.prev_nlsf_q15@ =~= cur + c0.prev_nlsf_q15.subrange(order as int, 16));
    let ghost f0 = pred0@;
    let ghost f1 = pred1@;
    if ch.loss_cnt != 0 {
        let (a0, _) = pred0.split_at_mut(order);
        bwexpander(a0, BWE_AFTER_LOSS_Q16);
        let (a1, _) = pred1.split_at_mut(order);
        bwexpander(a1, BWE_AFTER_LOSS_Q16);
    }
    assert(pred0@ =~= c0.after_loss(f0));
    assert(pred1@ =~= c0.after_loss(f1));
    ctrl.pred_coef_q12 = [pred0, pred1];
    proof {
        lemma_wf_envelope(c0, ch@);
    }
}

/// A spectral envelope without negative frequencies keeps the invariant.
proof fn lemma_wf_envelope(a: ChannelView, b: ChannelView)
    requires
        a.wf(),
        b == (ChannelView { indices: b.indices, prev_nlsf_q15: b.prev_nlsf_q15, ..a }),
        forall|i: int| 0 <= i < 16 ==> 0 <= #[trigger] b.prev_nlsf_q15[i],
    ensures
        b.wf(),
{
    reveal(ChannelView::wf);
}

/// Clears the lags and long-term filters of a frame's subframes.
fn clear_pitch(ctrl: &mut DecoderControl, nb: usize)
    requires
        nb <= 4,
    ensures
        final(ctrl)@ == (CtrlView {
            pitch_l: Seq::new(
                4,
                |k: int|
                    if k < nb {
                        0
                    } else {
                        old(ctrl)@.pitch_l[k]
                    },
            ),
            ltp_coef_q14: Seq::new(
                20,
                |j: int|
                    if j < 5 * nb {
                        0
                    } else {
                        old(ctrl)@.ltp_coef_q14[j]
                    },
            ),
            ..old(ctrl)@
        }),
{
    let mut pitch_l: [i32; 4] = ctrl.pitch_l;
    let mut ltp_coef: [i16; 20] = ctrl.ltp_coef_q14;
    let mut k: usize = 0;
    while k < nb
        invariant
            k <= nb <= 4,
            forall|i: int| 0 <= i < k ==> #[trigger] pitch_l@[i] == 0,
            forall|i: int| k <= i < 4 ==> #[trigger] pitch_l@[i] == old(ctrl).pitch_l@[i],
        decreases nb - k,
    {
        pitch_l[k] = 0;
        k = k + 1;
    }
    let mut j: usize = 0;
    while j < 5 * nb
        invariant
            j <= 5 * nb <= 20,
            forall|i: int| 0 <= i < j ==> #[trigger] ltp_coef@[i] == 0,
            forall|i: int| j <= i < 20 ==> #[trigger] ltp_coef@[i] == old(ctrl).ltp_coef_q14@[i],
        decreases 5 * nb - j,
    {
        ltp_coef[j] = 0;
        j = j + 1;
    }
    ctrl.pitch_l = pitch_l;
    ctrl.ltp_coef_q14 = ltp_coef;
    assert(ctrl@ =~= (CtrlView {
        pitch_l: Seq::new(
            4,
            |k: int|
                if k < nb {
                    0
                } else {
                    old(ctrl)@.pitch_l[k]
                },
        ),
        ltp_coef_q14: Seq::new(
            20,
            |j: int|
                if j < 5 * nb {
                    0
                } else {
                    old(ctrl)@.ltp_coef_q14[j]
                },
        ),
        ..old(ctrl)@
    }));
}

/// Decodes the parameters of a frame from the indices that the channel
/// holds.
#[verifier::rlimit(60)]
pub fn decode_parameters(ch: &mut ChannelState, ctrl: &mut DecoderControl, cond_coding: CondCoding)
    requires
        old(ch).wf(),
        old(ch)@.ready(),
        old(ch)@.indices.usable(old(ch).fs_khz as int, old(ch).nb_subfr as int),
    ensures
        final(ctrl)@ == old(ch)@.parameters(
            old(ctrl)@,
            cond_coding == CondCoding::Conditionally,
        ),
        final(ch)@ == old(ch)@.with_parameters(cond_coding == CondCoding::Conditionally),
        final(ch).wf(),
        forall|k: int|
            0 <= k < old(ch).nb_subfr ==> MIN_GAIN_Q16 <= #[trigger] final(ctrl)@.gains_q16[k]
                <= MAX_GAIN_Q16,
        old(ch).indices.signal_type == TYPE_VOICED ==> forall|k: int|
            0 <= k < old(ch).nb_subfr ==> 2 * old(ch).fs_khz <= #[trigger] final(ctrl)@.pitch_l[k]
                <= 18 * old(ch).fs_khz,
{
    let nb: usize = ch.nb_subfr;
    let ghost c0 = ch@;
    let ghost k0 = ctrl@;
    let conditional: bool = cond_coding == CondCoding::Conditionally;
    gains_dequant(
        &mut ctrl.gains_q16,
        &ch.indices.gains_indices,
        &mut ch.last_gain_index,
        conditional,
        nb,
    );
    let ghost c1 = ch@;
    proof {
        lemma_wf_same(c0, c1);
    }
    assert(c1.nlsf() == c0.nlsf());
    decode_filters(ch, ctrl);
    let ghost c2 = ch@;
    if ch.indices.signal_type == TYPE_VOICED {
        let mut pitch_l: [i32; 4] = [0; 4];
        assert(pitch_l@ =~= zeros_i32(4));
        let r = decode_pitch(
            ch.indices.lag_index,
            ch.indices.contour_index,
            &mut pitch_l,
            ch.fs_khz,
            nb,
        );
        assert(r is Ok);
        ctrl.pitch_l = pitch_l;
        let mut ltp_coef: [i16; 20] = [0; 20];
        assert(ltp_coef@ =~= zeros_i16(20));
        assert(forall|k: int| 0 <= k < nb ==> #[trigger] ch.indices.ltp_index@[k] == c0.indices.ltp_index[k]);
        ltp_coefs_q14(ch.indices.per_index, &ch.indices.ltp_index, &mut ltp_coef, nb);
        ctrl.ltp_coef_q14 = ltp_coef;
        ctrl.ltp_scale_q14 = ltp_scale_q14(ch.indices.ltp_scale_index);
    } else {
        clear_pitch(ctrl, nb);
        ch.indices.per_index = 0;
        ctrl.ltp_scale_q14 = 0;
    }
    proof {
        let want = c0.parameters(k0, conditional);
        assert(ctrl@.gains_q16 =~= want.gains_q16);
        assert(ctrl@.pred0_q12 =~= want.pred0_q12);
        assert(ctrl@.pred1_q12 =~= want.pred1_q12);
        assert(ctrl@.pitch_l =~= want.pitch_l);
        assert(ctrl@.ltp_coef_q14 =~= want.ltp_coef_q14);
        assert(ctrl@ =~= want);
        assert(ch@ =~= c0.with_parameters(conditional));
        lemma_wf_same(c2, ch@);
    }
}

/// Indices and gain level have no part in the invariant.
proof fn lemma_wf_same(a: ChannelView, b: ChannelView)
    requires
        a.wf(),
        b == (ChannelView { indices: b.indices, last_gain_index: b.last_gain_index, ..a }),
    ensures
        b.wf(),
{
    reveal(ChannelView::wf);
}

} // verus!
