//! Packet loss concealment and comfort noise.
use crate::decode_indices::{TYPE_NO_VOICE_ACTIVITY, TYPE_VOICED};
use crate::nlsf::{
    bwexpander, bwexpander_spec, inverse32_varq, inverse32_varq_spec, lpc_inverse_pred_gain,
    lpc_inverse_pred_gain_spec, nlsf2a, nlsf2a_spec,
};
use crate::sigproc::{
    add_sat16, add_sat16_spec, clz, clz_spec, div32, div32_16, lemma_rshift_round_bounds,
    lemma_shl_i32, lemma_shr_i32, lemma_smulwb_bound, lemma_trunc_div_bound, lpc_analysis_filter,
    lpc_analysis_filter_spec, rand, rand_spec, rshift_round, rshift_round_spec, sat16,
    sat16_spec, smlawb, smlawb_spec, smulbb, smulbb_spec, smultt, smultt_spec, smulwb,
    smulwb_spec, smulww, smulww_spec, sqrt_approx, sqrt_approx_spec, sub_lshift32,
    sum_sqr_shift, sum_sqr_shift_spec, trunc_div,
};
use crate::synthesis::{
    lemma_lpc_synth_len, lpc_synth_spec, lpc_synthesis_in_place, ltp_pred, ltp_pred_spec,
    scaled_sample_spec, valid_fs, valid_nb, zeros_i16, zeros_i32, CtrlView,
    DecoderControl, FrameInfo, SynthView, SynthesisState,
};
use vstd::arithmetic::power2::{lemma2_to64, pow2};
use vstd::prelude::*;

verus! {

/// Attenuation of the long-term taps on the first and on later losses, 0.99
/// and 0.95 in Q15.
pub const HARM_ATT_Q15: [i32; 2] = [32440, 31130];

/// Attenuation of the noise after voiced frames, 0.95 and 0.8 in Q15.
pub const PLC_RAND_ATTENUATE_V_Q15: [i32; 2] = [31130, 26214];

/// Attenuation of the noise after other frames, 0.99 and 0.9 in Q15.
pub const PLC_RAND_ATTENUATE_UV_Q15: [i32; 2] = [32440, 29491];

/// Bandwidth expansion per loss, 0.99 in Q16.
pub const BWE_COEF_Q16: i32 = 64881;

/// 0.7 in Q14.
pub const V_PITCH_GAIN_START_MIN_Q14: i32 = 11469;

/// 0.95 in Q14.
pub const V_PITCH_GAIN_START_MAX_Q14: i32 = 15565;

pub const MAX_PITCH_LAG_MS: i32 = 18;

/// Window of the noise source.
pub const RAND_BUF_SIZE: usize = 128;

/// Drift of the pitch lag per subframe, 0.01 in Q16.
pub const PITCH_DRIFT_FAC_Q16: i32 = 655;

/// Least noise scale after a voiced frame, 0.2 in Q14.
pub const MIN_RAND_SCALE_Q14: i16 = 3277;

pub const CNG_BUF_MASK_MAX: i32 = 255;

/// Smoothing of the comfort noise gain in Q16.
pub const CNG_GAIN_SMTH_Q16: i32 = 4634;

/// -3 dB in Q16.
pub const CNG_GAIN_SMTH_THRESHOLD_Q16: i32 = 46396;

/// Smoothing of the comfort noise spectrum in Q16.
pub const CNG_NLSF_SMTH_Q16: i32 = 16348;

/// Seed of the comfort noise.
pub const CNG_SEED: i32 = 3176576;

// ---------------------------------------------------------------------
// State
// ---------------------------------------------------------------------

/// What concealment keeps of the last frames.
#[derive(Clone, Copy, Debug, PartialEq, Eq)]
pub struct PlcState {
    /// Pitch lag in Q8.
    pub pitch_l_q8: i32,
    /// Long-term taps in Q14.
    pub ltp_coef_q14: [i16; 5],
    /// Prediction filter of the last good frame in Q12, expanded further on
    /// every loss.
    pub prev_lpc_q12: [i16; 16],
    pub last_frame_lost: bool,
    /// Seed of the noise.
    pub rand_seed: i32,
    /// Scale of the noise in Q14.
    pub rand_scale_q14: i16,
    /// Energy of the last concealed frame.
    pub conc_energy: i32,
    /// Shift of that energy.
    pub conc_energy_shift: i32,
    /// Long-term scaling of the last good frame in Q14.
    pub prev_ltp_scale_q14: i16,
    /// Last two gains of the last good frame in Q16.
    pub prev_gain_q16: [i32; 2],
    /// Rate that the state belongs to.
    pub fs_khz: u32,
    /// Geometry of the last good frame.
    pub nb_subfr: usize,
    pub subfr_length: usize,
}

/// The contents of [`PlcState`].
#[verifier::ext_equal]
pub struct PlcView {
    pub pitch_l_q8: i32,
    pub ltp_coef_q14: Seq<i16>,
    pub prev_lpc_q12: Seq<i16>,
    pub last_frame_lost: bool,
    pub rand_seed: i32,
    pub rand_scale_q14: i16,
    pub conc_energy: i32,
    pub conc_energy_shift: i32,
    pub prev_ltp_scale_q14: i16,
    pub prev_gain_q16: Seq<i32>,
    pub fs_khz: u32,
    pub nb_subfr: usize,
    pub subfr_length: usize,
}

impl View for PlcState {
    type V = PlcView;

    open spec fn view(&self) -> PlcView {
        PlcView {
            pitch_l_q8: self.pitch_l_q8,
            ltp_coef_q14: self.ltp_coef_q14@,
            prev_lpc_q12: self.prev_lpc_q12@,
            last_frame_lost: self.last_frame_lost,
            rand_seed: self.rand_seed,
            rand_scale_q14: self.rand_scale_q14,
            conc_energy: self.conc_energy,
            conc_energy_shift: self.conc_energy_shift,
            prev_ltp_scale_q14: self.prev_ltp_scale_q14,
            prev_gain_q16: self.prev_gain_q16@,
            fs_khz: self.fs_khz,
            nb_subfr: self.nb_subfr,
            subfr_length: self.subfr_length,
        }
    }
}

impl PlcView {
    pub open spec fn zero() -> PlcView {
        PlcView {
            pitch_l_q8: 0,
            ltp_coef_q14: zeros_i16(5),
            prev_lpc_q12: zeros_i16(16),
            last_frame_lost: false,
            rand_seed: 0,
            rand_scale_q14: 0,
            conc_energy: 0,
            conc_energy_shift: 0,
            prev_ltp_scale_q14: 0,
            prev_gain_q16: zeros_i32(2),
            fs_khz: 0,
            nb_subfr: 0,
            subfr_length: 0,
        }
    }

    /// After a change of rate: unity gains, a lag of half a frame.
    pub open spec fn reset(self, frame_length: int) -> PlcView {
        PlcView {
            pitch_l_q8: (frame_length * 128) as i32,
            prev_gain_q16: seq![65536i32, 65536i32],
            subfr_length: 20,
            nb_subfr: 2,
            ..self
        }
    }

    /// The state that a frame at `fs_khz` starts from.
    pub open spec fn at_rate(self, fs_khz: u32, frame_length: int) -> PlcView {
        if fs_khz != self.fs_khz {
            PlcView { fs_khz, ..self.reset(frame_length) }
        } else {
            self
        }
    }

    /// What a frame or a reset leaves for concealment at `fs_khz`: a lag from
    /// two samples to 18 ms, gains to divide by, and a noise window inside
    /// `exc_len` excitation samples.
    pub open spec fn usable(self, fs_khz: int, exc_len: int) -> bool {
        &&& 512 <= self.pitch_l_q8 <= 18 * fs_khz * 256
        &&& self.prev_gain_q16[1] != 0
        &&& self.prev_gain_q16[1] != i32::MIN
        &&& 1 <= self.nb_subfr <= 4
        &&& self.subfr_length <= 80
        &&& self.nb_subfr * self.subfr_length <= exc_len
    }

    /// The lag of subframe `k` of a lost frame.
    pub open spec fn lag_at(self, fs_khz: int, k: int) -> int {
        rshift_round_spec(drifted_n_spec(self.pitch_l_q8, fs_khz, k), 8) as int
    }

    /// What a lost frame relies on: lags behind and ahead of which the
    /// long-term memory does not end, gains to divide by, and a noise window
    /// inside `exc_len` excitation samples.
    pub open spec fn concealable(self, frame: FrameInfo, fs_khz: int, exc_len: int) -> bool {
        &&& self.lag_at(fs_khz, 0) + frame.lpc_order + 2 < frame.ltp_mem_length
        &&& forall|k: int|
            0 <= k < frame.nb_subfr ==> {
                &&& 0 <= #[trigger] self.lag_at(fs_khz, k)
                &&& frame.ltp_mem_length + (k + 1) * frame.subfr_length + 2 - self.lag_at(fs_khz, k)
                    <= 640
            }
        &&& self.prev_gain_q16[1] != 0
        &&& self.prev_gain_q16[1] != i32::MIN
        &&& 1 <= self.nb_subfr <= 4
        &&& self.subfr_length <= 80
        &&& self.nb_subfr * self.subfr_length <= exc_len
    }
}

impl Default for PlcState {
    fn default() -> (r: PlcState)
        ensures
            r@ == PlcView::zero(),
    {
        let r: PlcState = PlcState {
            pitch_l_q8: 0,
            ltp_coef_q14: [0; 5],
            prev_lpc_q12: [0; 16],
            last_frame_lost: false,
            rand_seed: 0,
            rand_scale_q14: 0,
            conc_energy: 0,
            conc_energy_shift: 0,
            prev_ltp_scale_q14: 0,
            prev_gain_q16: [0; 2],
            fs_khz: 0,
            nb_subfr: 0,
            subfr_length: 0,
        };
        assert(r@ =~= PlcView::zero());
        r
    }
}

/// What comfort noise keeps of inactive frames.
#[derive(Clone, Copy, Debug, PartialEq, Eq)]
pub struct CngState {
    /// Excitation of the loudest inactive subframes in Q14, newest first.
    pub cng_exc_buf_q14: [i32; 320],
    /// Smoothed spectrum in Q15.
    pub cng_smth_nlsf_q15: [i16; 16],
    /// Filter state of the last noise frame in Q14.
    pub cng_synth_state: [i32; 16],
    /// Smoothed gain in Q16.
    pub cng_smth_gain_q16: i32,
    pub rand_seed: i32,
    /// Rate that the state belongs to.
    pub fs_khz: u32,
}

/// The contents of [`CngState`].
#[verifier::ext_equal]
pub struct CngView {
    pub cng_exc_buf_q14: Seq<i32>,
    pub cng_smth_nlsf_q15: Seq<i16>,
    pub cng_synth_state: Seq<i32>,
    pub cng_smth_gain_q16: i32,
    pub rand_seed: i32,
    pub fs_khz: u32,
}

impl View for CngState {
    type V = CngView;

    open spec fn view(&self) -> CngView {
        CngView {
            cng_exc_buf_q14: self.cng_exc_buf_q14@,
            cng_smth_nlsf_q15: self.cng_smth_nlsf_q15@,
            cng_synth_state: self.cng_synth_state@,
            cng_smth_gain_q16: self.cng_smth_gain_q16,
            rand_seed: self.rand_seed,
            fs_khz: self.fs_khz,
        }
    }
}

impl CngView {
    pub open spec fn zero() -> CngView {
        CngView {
            cng_exc_buf_q14: zeros_i32(320),
            cng_smth_nlsf_q15: zeros_i16(16),
            cng_synth_state: zeros_i32(16),
            cng_smth_gain_q16: 0,
            rand_seed: 0,
            fs_khz: 0,
        }
    }

    /// A flat spectrum of `order` coefficients and no gain.
    pub open spec fn reset(self, order: int) -> CngView {
        let step = 32767int / (order + 1);
        CngView {
            cng_smth_nlsf_q15: Seq::new(
                16,
                |i: int|
                    if i < order {
                        (step * (i + 1)) as i16
                    } else {
                        self.cng_smth_nlsf_q15[i]
                    },
            ),
            cng_smth_gain_q16: 0,
            rand_seed: CNG_SEED,
            ..self
        }
    }

    /// The state that a frame at `fs_khz` starts from.
    pub open spec fn at_rate(self, fs_khz: u32, order: int) -> CngView {
        if fs_khz != self.fs_khz {
            CngView { fs_khz, ..self.reset(order) }
        } else {
            self
        }
    }

    /// The spectrum has no negative frequency.
    pub open spec fn usable(self, order: int) -> bool {
        forall|i: int| 0 <= i < order ==> 0 <= #[trigger] self.cng_smth_nlsf_q15[i]
    }
}

impl Default for CngState {
    fn default() -> (r: CngState)
        ensures
            r@ == CngView::zero(),
    {
        let r: CngState = CngState {
            cng_exc_buf_q14: [0; 320],
            cng_smth_nlsf_q15: [0; 16],
            cng_synth_state: [0; 16],
            cng_smth_gain_q16: 0,
            rand_seed: 0,
            fs_khz: 0,
        };
        assert(r@ =~= CngView::zero());
        r
    }
}

/// Forgets what was concealed at another rate.
pub fn plc_reset(ps_plc: &mut PlcState, frame_length: usize)
    requires
        frame_length <= 0xff_ffff,
    ensures
        final(ps_plc)@ == old(ps_plc)@.reset(frame_length as int),
{
    ps_plc.pitch_l_q8 = frame_length as i32 * 128;
    ps_plc.prev_gain_q16 = [65536, 65536];
    ps_plc.subfr_length = 20;
    ps_plc.nb_subfr = 2;
    assert(ps_plc@ =~= old(ps_plc)@.reset(frame_length as int));
}

/// Starts comfort noise from a flat spectrum.
pub fn cng_reset(ps_cng: &mut CngState, lpc_order: usize)
    requires
        lpc_order <= 16,
    ensures
        final(ps_cng)@ == old(ps_cng)@.reset(lpc_order as int),
        final(ps_cng)@.usable(lpc_order as int),
{
    let step: i32 = 32767 / (lpc_order as i32 + 1);
    let mut acc: i32 = 0;
    let mut i: usize = 0;
    proof {
        assert(step * (lpc_order + 1) <= 32767) by (nonlinear_arith)
            requires
                step == 32767int / (lpc_order + 1) as int,
                0 <= lpc_order <= 16,
        ;
        assert(step >= 0) by (nonlinear_arith)
            requires
                step == 32767int / (lpc_order + 1) as int,
                0 <= lpc_order <= 16,
        ;
    }
    while i < lpc_order
        invariant
            i <= lpc_order <= 16,
            step == 32767int / (lpc_order + 1) as int,
            step >= 0,
            step * (lpc_order + 1) <= 32767,
            acc == step * i,
            ps_cng.cng_exc_buf_q14 == old(ps_cng).cng_exc_buf_q14,
            ps_cng.cng_synth_state == old(ps_cng).cng_synth_state,
            ps_cng.cng_smth_gain_q16 == old(ps_cng).cng_smth_gain_q16,
            ps_cng.fs_khz == old(ps_cng).fs_khz,
            forall|k: int|
                0 <= k < i ==> #[trigger] ps_cng.cng_smth_nlsf_q15@[k] == (step * (k + 1)) as i16,
            forall|k: int| 0 <= k < i ==> 0 <= #[trigger] ps_cng.cng_smth_nlsf_q15@[k],
            forall|k: int|
                i <= k < 16 ==> #[trigger] ps_cng.cng_smth_nlsf_q15@[k] == old(
                    ps_cng
                ).cng_smth_nlsf_q15@[k],
        decreases lpc_order - i,
    {
        proof {
            assert(step * (i + 1) == step * i + step) by (nonlinear_arith);
            assert(0 <= step * (i + 1) <= step * (lpc_order + 1)) by (nonlinear_arith)
                requires
                    step >= 0,
                    0 <= i < lpc_order,
            ;
        }
        acc = acc + step;
        ps_cng.cng_smth_nlsf_q15[i] = acc as i16;
        i = i + 1;
    }
    ps_cng.cng_smth_gain_q16 = 0;
    ps_cng.rand_seed = CNG_SEED;
    assert(ps_cng@ =~= old(ps_cng)@.reset(lpc_order as int));
}

// ---------------------------------------------------------------------
// After a good frame
// ---------------------------------------------------------------------

/// Sum of the five taps of subframe `k`.
pub open spec fn tap_sum_spec(ltp_coef_q14: Seq<i16>, k: int) -> int {
    ltp_coef_q14[5 * k] + ltp_coef_q14[5 * k + 1] + ltp_coef_q14[5 * k + 2] + ltp_coef_q14[5 * k + 3]
        + ltp_coef_q14[5 * k + 4]
}

/// The largest tap sum among the last `j` subframes, zero at least, and the
/// lag of its subframe in Q8, or `lag0` if none is positive.
pub open spec fn strongest_spec(ctrl: CtrlView, nb: int, lag0: i32, j: int) -> (int, i32)
    decreases j,
{
    if j <= 0 {
        (0, lag0)
    } else {
        let (g, l) = strongest_spec(ctrl, nb, lag0, j - 1);
        let t = tap_sum_spec(ctrl.ltp_coef_q14, nb - j);
        if t > g {
            (t, ctrl.pitch_l[nb - j] << 8u32)
        } else {
            (g, l)
        }
    }
}

/// Subframes that the last pitch period reaches into; all of them if the lag
/// is negative.
pub open spec fn period_subframes_spec(nb: int, subfr_length: int, lag: int) -> int {
    let n = (lag + subfr_length - 1) / subfr_length;
    if lag >= 0 && n < nb {
        n
    } else {
        nb
    }
}

/// The single tap that concealment starts from, from the strongest tap sum:
/// moved into the range from 0.7 to 0.95.
pub open spec fn start_tap_spec(g: int) -> i16 {
    let m: int = if g < 1 {
        1
    } else {
        g
    };
    if g < V_PITCH_GAIN_START_MIN_Q14 {
        (smulbb_spec(
            (g as i16) as i32,
            trunc_div(V_PITCH_GAIN_START_MIN_Q14 * 1024, m) as i32,
        ) >> 10u32) as i16
    } else if g > V_PITCH_GAIN_START_MAX_Q14 {
        (smulbb_spec(
            (g as i16) as i32,
            trunc_div(V_PITCH_GAIN_START_MAX_Q14 * 16384, m) as i32,
        ) >> 14u32) as i16
    } else {
        g as i16
    }
}

/// The concealment state after a good frame.
#[verifier::opaque]
pub open spec fn plc_update_spec(
    p: PlcView,
    ctrl: CtrlView,
    frame: FrameInfo,
    fs_khz: u32,
    signal_type: i8,
) -> PlcView {
    let nb = frame.nb_subfr as int;
    let order = frame.lpc_order as int;
    let (g, lag) = strongest_spec(
        ctrl,
        nb,
        p.pitch_l_q8,
        period_subframes_spec(nb, frame.subfr_length as int, ctrl.pitch_l[nb - 1] as int),
    );
    PlcView {
        pitch_l_q8: if signal_type == TYPE_VOICED {
            lag
        } else {
            (fs_khz * 18 * 256) as i32
        },
        ltp_coef_q14: if signal_type == TYPE_VOICED {
            seq![0i16, 0i16, start_tap_spec(g), 0i16, 0i16]
        } else {
            zeros_i16(5)
        },
        prev_lpc_q12: ctrl.pred1_q12.subrange(0, order) + p.prev_lpc_q12.subrange(order, 16),
        prev_ltp_scale_q14: ctrl.ltp_scale_q14,
        prev_gain_q16: ctrl.gains_q16.subrange(nb - 2, nb),
        subfr_length: frame.subfr_length,
        nb_subfr: frame.nb_subfr,
        ..p
    }
}

/// Subframe `j` from the end belongs to the last period exactly if it starts
/// within the lag.
proof fn lemma_period(nb: int, n: int, lag: int, j: int)
    requires
        n == 40 || n == 60 || n == 80,
        0 <= j <= nb <= 4,
    ensures
        j < nb ==> (lag < 0 || j * n < lag <==> j < period_subframes_spec(nb, n, lag)),
        0 <= period_subframes_spec(nb, n, lag) <= nb,
        j * n <= 320,
        (j + 1) * n == j * n + n,
{
    if n == 40 {
        assert(j * n == 40 * j && (j + 1) * n == 40 * j + 40) by (nonlinear_arith)
            requires
                n == 40,
        ;
    } else if n == 60 {
        assert(j * n == 60 * j && (j + 1) * n == 60 * j + 60) by (nonlinear_arith)
            requires
                n == 60,
        ;
    } else {
        assert(j * n == 80 * j && (j + 1) * n == 80 * j + 80) by (nonlinear_arith)
            requires
                n == 80,
        ;
    }
}

/// Remembers a good frame.
fn plc_update(
    ps_plc: &mut PlcState,
    ctrl: &DecoderControl,
    frame_info: &FrameInfo,
    fs_khz: u32,
    signal_type: i8,
)
    requires
        frame_info.wf(),
        valid_fs(fs_khz as int),
    ensures
        final(ps_plc)@ == plc_update_spec(
            old(ps_plc)@,
            ctrl@,
            *frame_info,
            fs_khz,
            signal_type,
        ),
        final(ps_plc).fs_khz == old(ps_plc).fs_khz,
        final(ps_plc).conc_energy_shift == old(ps_plc).conc_energy_shift,
{
    let nb: usize = frame_info.nb_subfr;
    let n: usize = frame_info.subfr_length;
    let order: usize = frame_info.lpc_order;
    proof {
        frame_info.lemma_bounds();
    }
    if signal_type == TYPE_VOICED {
        let last_lag: i32 = ctrl.pitch_l[nb - 1];
        let ghost lag0 = ps_plc.pitch_l_q8;
        let mut g: i32 = 0;
        let mut lag: i32 = ps_plc.pitch_l_q8;
        let mut j: usize = 0;
        let mut pos: usize = 0;
        let ghost span = period_subframes_spec(nb as int, n as int, last_lag as int);
        while j < nb && (last_lag < 0 || pos < last_lag as usize)
            invariant
                nb == 2 || nb == 4,
                n == 40 || n == 60 || n == 80,
                j <= nb,
                pos == j * n,
                pos <= 320,
                span == period_subframes_spec(nb as int, n as int, last_lag as int),
                j <= span,
                0 <= g <= 163835,
                strongest_spec(ctrl@, nb as int, lag0, j as int) == (g as int, lag),
            decreases nb - j,
        {
            let b: usize = 5 * (nb - 1 - j);
            let t: i32 = ctrl.ltp_coef_q14[b] as i32 + ctrl.ltp_coef_q14[b + 1] as i32
                + ctrl.ltp_coef_q14[b + 2] as i32 + ctrl.ltp_coef_q14[b + 3] as i32
                + ctrl.ltp_coef_q14[b + 4] as i32;
            assert(t == tap_sum_spec(ctrl@.ltp_coef_q14, nb - (j + 1)));
            if t > g {
                g = t;
                lag = ctrl.pitch_l[nb - 1 - j] << 8u32;
            }
            proof {
                lemma_period(nb as int, n as int, last_lag as int, j as int);
            }
            j = j + 1;
            pos = pos + n;
        }
        proof {
            lemma_period(nb as int, n as int, last_lag as int, j as int);
        }
        assert(j == span);
        let m: i32 = if g < 1 {
            1
        } else {
            g
        };
        let c: i32 = (g as i16) as i32;
        proof {
            lemma_trunc_div_bound(V_PITCH_GAIN_START_MIN_Q14 * 1024, m as int);
            lemma_trunc_div_bound(V_PITCH_GAIN_START_MAX_Q14 * 16384, m as int);
        }
        let tap: i16 = if g < V_PITCH_GAIN_START_MIN_Q14 {
            let scale_q10: i32 = div32(V_PITCH_GAIN_START_MIN_Q14 * 1024, m);
            (smulbb(c, scale_q10) >> 10u32) as i16
        } else if g > V_PITCH_GAIN_START_MAX_Q14 {
            let scale_q14: i32 = div32(V_PITCH_GAIN_START_MAX_Q14 * 16384, m);
            (smulbb(c, scale_q14) >> 14u32) as i16
        } else {
            g as i16
        };
        ps_plc.pitch_l_q8 = lag;
        ps_plc.ltp_coef_q14 = [0, 0, tap, 0, 0];
    } else {
        ps_plc.pitch_l_q8 = fs_khz as i32 * 18 * 256;
        ps_plc.ltp_coef_q14 = [0; 5];
    }
    let ghost mid = ps_plc@;
    let mut i: usize = 0;
    while i < order
        invariant
            i <= order,
            order <= 16,
            ps_plc@.pitch_l_q8 == mid.pitch_l_q8,
            ps_plc@.ltp_coef_q14 == mid.ltp_coef_q14,
            ps_plc@.last_frame_lost == mid.last_frame_lost,
            ps_plc@.rand_seed == mid.rand_seed,
            ps_plc@.rand_scale_q14 == mid.rand_scale_q14,
            ps_plc@.conc_energy == mid.conc_energy,
            ps_plc@.conc_energy_shift == mid.conc_energy_shift,
            ps_plc@.fs_khz == mid.fs_khz,
            forall|k: int|
                0 <= k < i ==> #[trigger] ps_plc.prev_lpc_q12@[k] == ctrl.pred_coef_q12@[1]@[k],
            forall|k: int| i <= k < 16 ==> #[trigger] ps_plc.prev_lpc_q12@[k] == mid.prev_lpc_q12[k],
        decreases order - i,
    {
        ps_plc.prev_lpc_q12[i] = ctrl.pred_coef_q12[1][i];
        i = i + 1;
    }
    ps_plc.prev_ltp_scale_q14 = ctrl.ltp_scale_q14;
    ps_plc.prev_gain_q16 = [ctrl.gains_q16[nb - 2], ctrl.gains_q16[nb - 1]];
    ps_plc.subfr_length = n;
    ps_plc.nb_subfr = nb;
    proof {
        reveal(plc_update_spec);
        let spec = plc_update_spec(old(ps_plc)@, ctrl@, *frame_info, fs_khz, signal_type);
        assert(ps_plc@.ltp_coef_q14 =~= spec.ltp_coef_q14);
        assert(ps_plc@.prev_lpc_q12 =~= spec.prev_lpc_q12);
        assert(ps_plc@.prev_gain_q16 =~= spec.prev_gain_q16);
        assert(ps_plc@ =~= spec);
    }
}

// ---------------------------------------------------------------------
// Concealment
// ---------------------------------------------------------------------

/// The generator after `n` steps.
pub open spec fn rand_n_spec(seed: i32, n: int) -> i32
    decreases n,
{
    if n <= 0 {
        seed
    } else {
        rand_spec(rand_n_spec(seed, n - 1))
    }
}

/// Place in the noise window that a generator value picks: its top seven
/// bits.
pub open spec fn noise_index_spec(seed: i32) -> int {
    ((seed >> 25u32) & 127) as int
}

pub proof fn lemma_masked(x: i32, m: i32)
    requires
        0 <= m,
    ensures
        0 <= x & m <= m,
{
    assert(0 <= m ==> 0 <= x & m && x & m <= m) by (bit_vector);
}

/// Excitation at signal level in the last two subframes; `k` is 0 or 1.
pub open spec fn exc_level_spec(exc: Seq<i32>, gain_q10: i32, nb: int, n: int, k: int) -> Seq<i16> {
    Seq::new(
        n as nat,
        |i: int| sat16_spec(smulww_spec(exc[i + (k + nb - 2) * n], gain_q10) >> 8u32),
    )
}

/// Energies and shifts of the last two subframes.
pub open spec fn plc_energy_spec(exc: Seq<i32>, g0: i32, g1: i32, n: int, nb: int) -> (i32, u32, i32, u32) {
    let (e1, s1) = sum_sqr_shift_spec(exc_level_spec(exc, g0, nb, n, 0));
    let (e2, s2) = sum_sqr_shift_spec(exc_level_spec(exc, g1, nb, n, 1));
    (e1, s1, e2, s2)
}

fn plc_energy(exc_q14: &[i32], prev_gain_q10: &[i32; 2], subfr_length: usize, nb_subfr: usize) -> (r: (
    i32,
    u32,
    i32,
    u32,
))
    requires
        1 <= subfr_length <= 80,
        2 <= nb_subfr <= 4,
        nb_subfr * subfr_length <= exc_q14@.len(),
    ensures
        r == plc_energy_spec(
            exc_q14@,
            prev_gain_q10@[0],
            prev_gain_q10@[1],
            subfr_length as int,
            nb_subfr as int,
        ),
        r.1 <= 3,
        r.3 <= 3,
{
    let n: usize = subfr_length;
    let mut buf0: [i16; 80] = [0; 80];
    let mut buf1: [i16; 80] = [0; 80];
    assert(0 <= (nb_subfr - 2) * n && (nb_subfr - 1) * n == (nb_subfr - 2) * n + n && nb_subfr * n
        == (nb_subfr - 1) * n + n && nb_subfr * n <= 320) by (nonlinear_arith)
        requires
            2 <= nb_subfr <= 4,
            1 <= n <= 80,
    ;
    let base0: usize = (nb_subfr - 2) * n;
    let base1: usize = base0 + n;
    let ghost l0 = exc_level_spec(exc_q14@, prev_gain_q10@[0], nb_subfr as int, n as int, 0);
    let ghost l1 = exc_level_spec(exc_q14@, prev_gain_q10@[1], nb_subfr as int, n as int, 1);
    let mut i: usize = 0;
    while i < n
        invariant
            1 <= n <= 80,
            i <= n,
            base0 == (nb_subfr - 2) * n,
            base1 == (nb_subfr - 1) * n,
            base1 + n <= exc_q14@.len(),
            base0 + n == base1,
            l0 == exc_level_spec(exc_q14@, prev_gain_q10@[0], nb_subfr as int, n as int, 0),
            l1 == exc_level_spec(exc_q14@, prev_gain_q10@[1], nb_subfr as int, n as int, 1),
            forall|k: int| 0 <= k < i ==> #[trigger] buf0@[k] == l0[k],
            forall|k: int| 0 <= k < i ==> #[trigger] buf1@[k] == l1[k],
        decreases n - i,
    {
        buf0[i] = sat16(smulww(exc_q14[base0 + i], prev_gain_q10[0]) >> 8u32);
        buf1[i] = sat16(smulww(exc_q14[base1 + i], prev_gain_q10[1]) >> 8u32);
        i = i + 1;
    }
    let s0: &[i16] = &buf0[0..n];
    let s1: &[i16] = &buf1[0..n];
    assert(s0@ =~= l0);
    assert(s1@ =~= l1);
    let (energy1, shift1) = sum_sqr_shift(s0);
    let (energy2, shift2) = sum_sqr_shift(s1);
    (energy1, shift1, energy2, shift2)
}

/// Start of the noise window: the end of the quieter of the last two
/// subframes.
pub open spec fn noise_base_spec(p: PlcView, exc: Seq<i32>, frame: FrameInfo) -> int {
    let (e1, s1, e2, s2) = plc_energy_spec(
        exc,
        p.prev_gain_q16[0] >> 6u32,
        p.prev_gain_q16[1] >> 6u32,
        frame.subfr_length as int,
        frame.nb_subfr as int,
    );
    let end = if (e1 >> s2) < (e2 >> s1) {
        (p.nb_subfr - 1) * p.subfr_length
    } else {
        p.nb_subfr * p.subfr_length
    };
    if end > 128 {
        end - 128
    } else {
        0
    }
}

/// Which of the two attenuations applies.
pub open spec fn att_index_spec(loss_cnt: i32) -> int {
    if loss_cnt > 0 {
        1
    } else {
        0
    }
}

/// The filter that concealment uses: the last one, expanded.
pub open spec fn conceal_lpc_spec(p: PlcView, order: int, first_frame_after_reset: bool) -> Seq<i16> {
    let a = if first_frame_after_reset {
        zeros_i16(16)
    } else {
        p.prev_lpc_q12
    };
    bwexpander_spec(a.subrange(0, order), BWE_COEF_Q16) + a.subrange(order, 16)
}

/// Noise scale at the first loss after a voiced frame.
pub open spec fn voiced_scale_spec(p: PlcView) -> i16 {
    let b = p.ltp_coef_q14;
    let s = 16384i16.wrapping_sub(b[0]).wrapping_sub(b[1]).wrapping_sub(b[2]).wrapping_sub(
        b[3],
    ).wrapping_sub(b[4]);
    let m = if s < MIN_RAND_SCALE_Q14 {
        MIN_RAND_SCALE_Q14
    } else {
        s
    };
    (smulbb_spec(m as i32, p.prev_ltp_scale_q14 as i32) >> 14u32) as i16
}

/// Noise attenuation at the first loss after another frame: stronger under a
/// filter with a high gain.
pub open spec fn unvoiced_gain_spec(lpc: Seq<i16>, order: int, rand_gain_q15: i32) -> i32 {
    let inv = lpc_inverse_pred_gain_spec(lpc, order);
    let d: int = if inv > 0x800_0000 {
        0x800_0000
    } else if inv < 0x40_0000 {
        0x40_0000
    } else {
        inv as int
    };
    smulwb_spec((d * 8) as i32, rand_gain_q15) >> 14u32
}

/// Noise scale and attenuation that a lost frame starts with.
pub open spec fn noise_start_spec(
    p: PlcView,
    lpc: Seq<i16>,
    order: int,
    loss_cnt: i32,
    prev_signal_type: i8,
) -> (i16, i32) {
    let voiced = prev_signal_type == TYPE_VOICED;
    let att = if voiced {
        PLC_RAND_ATTENUATE_V_Q15@[att_index_spec(loss_cnt)]
    } else {
        PLC_RAND_ATTENUATE_UV_Q15@[att_index_spec(loss_cnt)]
    };
    if loss_cnt == 0 && voiced {
        (voiced_scale_spec(p), att)
    } else if loss_cnt == 0 {
        (16384, unvoiced_gain_spec(lpc, order, att))
    } else {
        (p.rand_scale_q14, att)
    }
}

/// The long-term state after `n` concealed samples written from `bi` on:
/// prediction plus scaled noise.
pub open spec fn conceal_ltp_spec(
    ltp: Seq<i32>,
    noise: Seq<i32>,
    b_q14: Seq<i16>,
    scale_q14: i16,
    seed: i32,
    lag: int,
    bi: int,
    n: int,
) -> Seq<i32>
    decreases n,
{
    if n <= 0 {
        ltp
    } else {
        let s = conceal_ltp_spec(ltp, noise, b_q14, scale_q14, seed, lag, bi, n - 1);
        s.update(
            bi + n - 1,
            smlawb_spec(
                ltp_pred_spec(s, b_q14, bi + n - 1 - lag + 2),
                noise[noise_index_spec(rand_n_spec(seed, n))],
                scale_q14 as i32,
            ).wrapping_shl(2),
        )
    }
}

/// Concealment between two subframes.
#[verifier::ext_equal]
pub struct ConcealView {
    pub ltp_q14: Seq<i32>,
    pub seed: i32,
    pub b_q14: Seq<i16>,
    pub scale_q14: i16,
    pub pitch_l_q8: i32,
}

/// What all subframes of a concealed frame share.
pub struct ConcealInput {
    /// The noise window.
    pub noise: Seq<i32>,
    pub harm_gain_q15: i32,
    pub rand_gain_q15: i32,
    pub subfr_length: int,
    pub ltp_mem_length: int,
    pub fs_khz: int,
}

/// The next lag in Q8: one percent longer, up to 18 ms.
pub open spec fn drifted_spec(pitch_l_q8: i32, fs_khz: int) -> i32 {
    let p = smlawb_spec(pitch_l_q8, pitch_l_q8, PITCH_DRIFT_FAC_Q16);
    if p < 18 * fs_khz * 256 {
        p
    } else {
        (18 * fs_khz * 256) as i32
    }
}

/// The lag in Q8 after `k` subframes.
pub open spec fn drifted_n_spec(pitch_l_q8: i32, fs_khz: int, k: int) -> i32
    decreases k,
{
    if k <= 0 {
        pitch_l_q8
    } else {
        drifted_spec(drifted_n_spec(pitch_l_q8, fs_khz, k - 1), fs_khz)
    }
}

/// One concealed subframe: samples, then weaker taps, weaker noise and a
/// longer lag.
pub open spec fn conceal_step_spec(inp: ConcealInput, c: ConcealView, k: int) -> ConcealView {
    ConcealView {
        ltp_q14: conceal_ltp_spec(
            c.ltp_q14,
            inp.noise,
            c.b_q14,
            c.scale_q14,
            c.seed,
            rshift_round_spec(c.pitch_l_q8, 8) as int,
            inp.ltp_mem_length + k * inp.subfr_length,
            inp.subfr_length,
        ),
        seed: rand_n_spec(c.seed, inp.subfr_length),
        b_q14: Seq::new(
            5,
            |i: int| (smulbb_spec(inp.harm_gain_q15, c.b_q14[i] as i32) >> 15u32) as i16,
        ),
        scale_q14: (smulbb_spec(c.scale_q14 as i32, inp.rand_gain_q15) >> 15u32) as i16,
        pitch_l_q8: drifted_spec(c.pitch_l_q8, inp.fs_khz),
    }
}

pub open spec fn conceal_subframes_spec(inp: ConcealInput, c: ConcealView, k: int) -> ConcealView
    decreases k,
{
    if k <= 0 {
        c
    } else {
        conceal_step_spec(inp, conceal_subframes_spec(inp, c, k - 1), k - 1)
    }
}

/// Long-term state that concealment starts from: the rewhitened output of the
/// last pitch period.
pub open spec fn conceal_memory_spec(
    out_buf: Seq<i16>,
    lpc: Seq<i16>,
    order: int,
    lag: int,
    mem: int,
    prev_gain_q16: i32,
) -> Seq<i32> {
    let idx = mem - lag - order - 2;
    let white = lpc_analysis_filter_spec(out_buf.subrange(idx, mem), lpc, order);
    let inv = inverse32_varq_spec(prev_gain_q16, 46);
    let g = if inv > 0x3fff_ffff {
        0x3fff_ffff
    } else {
        inv
    };
    Seq::new(
        640,
        |t: int|
            if idx + order <= t < mem {
                smulwb_spec(g, white[t - idx] as i32)
            } else {
                0
            },
    )
}

/// The lag drifts within its range.
proof fn lemma_drift(pitch_l_q8: i32, fs_khz: int)
    requires
        valid_fs(fs_khz),
        512 <= pitch_l_q8 <= 18 * fs_khz * 256,
    ensures
        2 <= rshift_round_spec(pitch_l_q8, 8) <= 18 * fs_khz,
        512 <= drifted_spec(pitch_l_q8, fs_khz) <= 18 * fs_khz * 256,
{
    lemma2_to64();
    lemma_rshift_round_bounds(pitch_l_q8, 8);
    reveal(smulwb_spec);
    assert(0 <= pitch_l_q8 * 655 <= 73728 * 655);
}

/// No lag drifts beyond 18 ms.
proof fn lemma_drift_cap(pitch_l_q8: i32, fs_khz: int)
    requires
        valid_fs(fs_khz),
    ensures
        rshift_round_spec(drifted_spec(pitch_l_q8, fs_khz), 8) <= 18 * fs_khz,
{
    lemma2_to64();
    lemma_rshift_round_bounds(drifted_spec(pitch_l_q8, fs_khz), 8);
}

proof fn lemma_usable_lags(p: PlcView, fs_khz: int, k: int)
    requires
        valid_fs(fs_khz),
        512 <= p.pitch_l_q8 <= 18 * fs_khz * 256,
        0 <= k,
    ensures
        512 <= drifted_n_spec(p.pitch_l_q8, fs_khz, k) <= 18 * fs_khz * 256,
        2 <= p.lag_at(fs_khz, k) <= 18 * fs_khz,
    decreases k,
{
    if k > 0 {
        lemma_usable_lags(p, fs_khz, k - 1);
        lemma_drift(drifted_n_spec(p.pitch_l_q8, fs_khz, k - 1), fs_khz);
    }
    lemma_drift(drifted_n_spec(p.pitch_l_q8, fs_khz, k), fs_khz);
}

/// From what a frame or a reset leaves, a lost frame can be made up.
pub proof fn lemma_usable_concealable(p: PlcView, frame: FrameInfo, fs_khz: int, exc_len: int)
    requires
        valid_fs(fs_khz),
        valid_nb(frame.nb_subfr as int),
        frame == FrameInfo::spec_new(fs_khz, frame.nb_subfr as int),
        p.usable(fs_khz, exc_len),
    ensures
        p.concealable(frame, fs_khz, exc_len),
{
    let n = frame.subfr_length as int;
    let nb = frame.nb_subfr as int;
    assert forall|k: int| 0 <= k < nb implies {
        &&& 0 <= #[trigger] p.lag_at(fs_khz, k)
        &&& frame.ltp_mem_length + (k + 1) * n + 2 - p.lag_at(fs_khz, k) <= 640
    } by {
        lemma_usable_lags(p, fs_khz, k);
        assert((k + 1) * n <= 320) by (nonlinear_arith)
            requires
                0 <= k < 4,
                0 <= n <= 80,
        ;
    }
    lemma_usable_lags(p, fs_khz, 0);
}

/// A lost frame.
pub struct Concealed {
    pub plc: PlcView,
    pub s_lpc_q14_buf: Seq<i32>,
    pub frame: Seq<i16>,
    pub lag: i32,
}

/// The start of the subframe loop of a lost frame.
pub open spec fn conceal_start_spec(
    p: PlcView,
    st: SynthView,
    frame: FrameInfo,
    loss_cnt: i32,
    prev_signal_type: i8,
    lpc: Seq<i16>,
) -> ConcealView {
    ConcealView {
        ltp_q14: conceal_memory_spec(
            st.out_buf,
            lpc,
            frame.lpc_order as int,
            rshift_round_spec(p.pitch_l_q8, 8) as int,
            frame.ltp_mem_length as int,
            p.prev_gain_q16[1],
        ),
        seed: p.rand_seed,
        b_q14: p.ltp_coef_q14,
        scale_q14: noise_start_spec(
            p,
            lpc,
            frame.lpc_order as int,
            loss_cnt,
            prev_signal_type,
        ).0,
        pitch_l_q8: p.pitch_l_q8,
    }
}

pub open spec fn conceal_input_spec(
    p: PlcView,
    exc: Seq<i32>,
    frame: FrameInfo,
    fs_khz: u32,
    loss_cnt: i32,
    prev_signal_type: i8,
    lpc: Seq<i16>,
) -> ConcealInput {
    let base = noise_base_spec(p, exc, frame);
    ConcealInput {
        noise: exc.subrange(base, base + 128),
        harm_gain_q15: HARM_ATT_Q15@[att_index_spec(loss_cnt)],
        rand_gain_q15: noise_start_spec(
            p,
            lpc,
            frame.lpc_order as int,
            loss_cnt,
            prev_signal_type,
        ).1,
        subfr_length: frame.subfr_length as int,
        ltp_mem_length: frame.ltp_mem_length as int,
        fs_khz: fs_khz as int,
    }
}

/// A concealed continuation of the last frames.
#[verifier::opaque]
pub open spec fn plc_conceal_spec(
    p: PlcView,
    st: SynthView,
    exc: Seq<i32>,
    frame: FrameInfo,
    fs_khz: u32,
    loss_cnt: i32,
    prev_signal_type: i8,
    first_frame_after_reset: bool,
) -> Concealed {
    let order = frame.lpc_order as int;
    let mem = frame.ltp_mem_length as int;
    let n = frame.spec_frame_length();
    let lpc = conceal_lpc_spec(p, order, first_frame_after_reset);
    let inp = conceal_input_spec(p, exc, frame, fs_khz, loss_cnt, prev_signal_type, lpc);
    let c = conceal_subframes_spec(
        inp,
        conceal_start_spec(p, st, frame, loss_cnt, prev_signal_type, lpc),
        frame.nb_subfr as int,
    );
    let synth = lpc_synth_spec(
        st.s_lpc_q14_buf,
        c.ltp_q14.subrange(mem, mem + n),
        lpc,
        order,
        n,
    );
    Concealed {
        plc: PlcView {
            prev_lpc_q12: lpc,
            rand_seed: c.seed,
            rand_scale_q14: c.scale_q14,
            ltp_coef_q14: c.b_q14,
            pitch_l_q8: c.pitch_l_q8,
            ..p
        },
        s_lpc_q14_buf: synth.subrange(n, n + 16),
        frame: Seq::new(
            n as nat,
            |i: int| scaled_sample_spec(synth[16 + i], p.prev_gain_q16[1] >> 6u32),
        ),
        lag: rshift_round_spec(c.pitch_l_q8, 8),
    }
}

/// Writes `n` concealed samples from `bi` on and returns the generator.
fn conceal_ltp(
    sltp_q14: &mut [i32; 640],
    noise: &[i32],
    b_q14: &[i16; 5],
    scale_q14: i16,
    seed: i32,
    lag: usize,
    bi: usize,
    n: usize,
) -> (r: i32)
    requires
        noise@.len() == 128,
        lag + 2 <= bi,
        bi + n <= 640,
        bi + n + 2 <= 640 + lag,
        n <= 80,
    ensures
        final(sltp_q14)@ == conceal_ltp_spec(
            old(sltp_q14)@,
            noise@,
            b_q14@,
            scale_q14,
            seed,
            lag as int,
            bi as int,
            n as int,
        ),
        r == rand_n_spec(seed, n as int),
{
    let mut s: i32 = seed;
    let mut i: usize = 0;
    while i < n
        invariant
            noise@.len() == 128,
            lag + 2 <= bi,
            bi + n <= 640,
            bi + n + 2 <= 640 + lag,
            i <= n,
            s == rand_n_spec(seed, i as int),
            sltp_q14@ == conceal_ltp_spec(
                old(sltp_q14)@,
                noise@,
                b_q14@,
                scale_q14,
                seed,
                lag as int,
                bi as int,
                i as int,
            ),
        decreases n - i,
    {
        let pred: i32 = ltp_pred(sltp_q14, b_q14, bi + i + 2 - lag);
        s = rand(s);
        let at: i32 = (s >> 25u32) & 127;
        proof {
            lemma_masked(s >> 25u32, 127);
        }
        sltp_q14[bi + i] = smlawb(pred, noise[at as usize], scale_q14 as i32).wrapping_shl(2);
        i = i + 1;
    }
    s
}

/// The expanded filter, which also replaces the stored one.
fn conceal_lpc(ps_plc: &mut PlcState, order: usize, first_frame_after_reset: bool)
    requires
        order == 10 || order == 16,
    ensures
        final(ps_plc)@ == (PlcView {
            prev_lpc_q12: conceal_lpc_spec(old(ps_plc)@, order as int, first_frame_after_reset),
            ..old(ps_plc)@
        }),
{
    if first_frame_after_reset {
        ps_plc.prev_lpc_q12 = [0; 16];
        assert(ps_plc.prev_lpc_q12@ =~= zeros_i16(16));
    }
    let ghost a = ps_plc.prev_lpc_q12@;
    let (head, tail) = ps_plc.prev_lpc_q12.split_at_mut(order);
    bwexpander(head, BWE_COEF_Q16);
    proof {
        assert(tail@ == a.subrange(order as int, 16));
        assert(ps_plc@ =~= (PlcView {
            prev_lpc_q12: conceal_lpc_spec(old(ps_plc)@, order as int, first_frame_after_reset),
            ..old(ps_plc)@
        }));
    }
}

/// Noise scale and attenuation of a lost frame; the filter is already
/// expanded.
fn noise_start(ps_plc: &PlcState, order: usize, loss_cnt: i32, prev_signal_type: i8) -> (r: (i16, i32))
    requires
        order == 10 || order == 16,
    ensures
        r == noise_start_spec(
            ps_plc@,
            ps_plc@.prev_lpc_q12,
            order as int,
            loss_cnt,
            prev_signal_type,
        ),
{
    let ix: usize = if loss_cnt > 0 {
        1
    } else {
        0
    };
    let voiced: bool = prev_signal_type == TYPE_VOICED;
    let att: i32 = if voiced {
        PLC_RAND_ATTENUATE_V_Q15[ix]
    } else {
        PLC_RAND_ATTENUATE_UV_Q15[ix]
    };
    if loss_cnt == 0 && voiced {
        let b: [i16; 5] = ps_plc.ltp_coef_q14;
        let s: i16 = 16384i16.wrapping_sub(b[0]).wrapping_sub(b[1]).wrapping_sub(b[2]).wrapping_sub(
            b[3],
        ).wrapping_sub(b[4]);
        let m: i16 = if s < MIN_RAND_SCALE_Q14 {
            MIN_RAND_SCALE_Q14
        } else {
            s
        };
        ((smulbb(m as i32, ps_plc.prev_ltp_scale_q14 as i32) >> 14u32) as i16, att)
    } else if loss_cnt == 0 {
        let inv: i32 = lpc_inverse_pred_gain(&ps_plc.prev_lpc_q12, order);
        let d: i32 = if inv > 0x800_0000 {
            0x800_0000
        } else if inv < 0x40_0000 {
            0x40_0000
        } else {
            inv
        };
        (16384, smulwb(d * 8, att) >> 14u32)
    } else {
        (ps_plc.rand_scale_q14, att)
    }
}

/// Start of the noise window.
fn noise_base(ps_plc: &PlcState, exc_q14: &[i32], frame_info: &FrameInfo) -> (base: usize)
    requires
        frame_info.wf(),
        exc_q14@.len() >= frame_info.spec_frame_length(),
        exc_q14@.len() >= 128,
        1 <= ps_plc.nb_subfr <= 4,
        ps_plc.subfr_length <= 80,
        ps_plc.nb_subfr * ps_plc.subfr_length <= exc_q14@.len(),
    ensures
        base == noise_base_spec(ps_plc@, exc_q14@, *frame_info),
        base + 128 <= exc_q14@.len(),
        base <= 192,
{
    proof {
        frame_info.lemma_bounds();
    }
    let prev_gain_q10: [i32; 2] = [
        ps_plc.prev_gain_q16[0] >> 6u32,
        ps_plc.prev_gain_q16[1] >> 6u32,
    ];
    let (energy1, shift1, energy2, shift2) = plc_energy(
        exc_q14,
        &prev_gain_q10,
        frame_info.subfr_length,
        frame_info.nb_subfr,
    );
    let nb: usize = ps_plc.nb_subfr;
    let n: usize = ps_plc.subfr_length;
    assert(0 <= (nb - 1) * n <= nb * n && nb * n <= 320) by (nonlinear_arith)
        requires
            1 <= nb <= 4,
            0 <= n <= 80,
    ;
    let end: usize = if (energy1 >> shift2) < (energy2 >> shift1) {
        (nb - 1) * n
    } else {
        nb * n
    };
    if end > RAND_BUF_SIZE {
        end - RAND_BUF_SIZE
    } else {
        0
    }
}

/// The rewhitened last pitch period.
fn conceal_memory(
    out_buf: &[i16; 480],
    lpc: &[i16; 16],
    order: usize,
    lag: usize,
    mem: usize,
    prev_gain_q16: i32,
) -> (sltp_q14: [i32; 640])
    requires
        order == 10 || order == 16,
        lag + order + 2 <= mem <= 320,
        prev_gain_q16 != 0,
        prev_gain_q16 != i32::MIN,
    ensures
        sltp_q14@ == conceal_memory_spec(
            out_buf@,
            lpc@,
            order as int,
            lag as int,
            mem as int,
            prev_gain_q16,
        ),
{
    let idx: usize = mem - lag - order - 2;
    let len: usize = mem - idx;
    let mut sltp_q14: [i32; 640] = [0; 640];
    let mut sltp: [i16; 320] = [0; 320];
    let (white, _rest) = sltp.split_at_mut(len);
    lpc_analysis_filter(white, &out_buf[idx..mem], lpc, order);
    let inv: i32 = inverse32_varq(prev_gain_q16, 46);
    let g: i32 = if inv > 0x3fff_ffff {
        0x3fff_ffff
    } else {
        inv
    };
    let ghost spec = conceal_memory_spec(
        out_buf@,
        lpc@,
        order as int,
        lag as int,
        mem as int,
        prev_gain_q16,
    );
    let mut i: usize = idx + order;
    while i < mem
        invariant
            idx == mem - lag - order - 2,
            len == mem - idx,
            mem <= 320,
            idx + order <= i <= mem,
            white@.len() == len,
            white@ == lpc_analysis_filter_spec(
                out_buf@.subrange(idx as int, mem as int),
                lpc@,
                order as int,
            ),
            g == (if inverse32_varq_spec(prev_gain_q16, 46) > 0x3fff_ffff {
                0x3fff_ffff
            } else {
                inverse32_varq_spec(prev_gain_q16, 46)
            }),
            spec == conceal_memory_spec(
                out_buf@,
                lpc@,
                order as int,
                lag as int,
                mem as int,
                prev_gain_q16,
            ),
            forall|t: int| idx + order <= t < i ==> #[trigger] sltp_q14@[t] == spec[t],
            forall|t: int|
                0 <= t < 640 && !(idx + order <= t < i) ==> #[trigger] sltp_q14@[t] == 0,
        decreases mem - i,
    {
        sltp_q14[i] = smulwb(g, white[i - idx] as i32);
        i = i + 1;
    }
    assert(sltp_q14@ =~= spec);
    sltp_q14
}

/// Attenuates the long-term taps.
fn attenuate_taps(b_q14: &mut [i16; 5], harm_gain_q15: i32)
    ensures
        final(b_q14)@ == Seq::new(
            5,
            |i: int| (smulbb_spec(harm_gain_q15, old(b_q14)@[i] as i32) >> 15u32) as i16,
        ),
{
    let mut i: usize = 0;
    while i < 5
        invariant
            i <= 5,
            forall|k: int|
                0 <= k < i ==> #[trigger] b_q14@[k] == (smulbb_spec(
                    harm_gain_q15,
                    old(b_q14)@[k] as i32,
                ) >> 15u32) as i16,
            forall|k: int| i <= k < 5 ==> #[trigger] b_q14@[k] == old(b_q14)@[k],
        decreases 5 - i,
    {
        b_q14[i] = (smulbb(harm_gain_q15, b_q14[i] as i32) >> 15u32) as i16;
        i = i + 1;
    }
    assert(b_q14@ =~= Seq::new(
        5,
        |i: int| (smulbb_spec(harm_gain_q15, old(b_q14)@[i] as i32) >> 15u32) as i16,
    ));
}

/// Generates a lost frame.
fn plc_conceal(
    ps_plc: &mut PlcState,
    state: &mut SynthesisState,
    ctrl: &mut DecoderControl,
    exc_q14: &[i32],
    frame: &mut [i16],
    frame_info: &FrameInfo,
    fs_khz: u32,
    loss_cnt: i32,
    prev_signal_type: i8,
    first_frame_after_reset: bool,
)
    requires
        valid_fs(fs_khz as int),
        valid_nb(frame_info.nb_subfr as int),
        *frame_info == FrameInfo::spec_new(fs_khz as int, frame_info.nb_subfr as int),
        old(ps_plc)@.concealable(*frame_info, fs_khz as int, exc_q14@.len() as int),
        exc_q14@.len() >= 128,
        exc_q14@.len() >= frame_info.spec_frame_length(),
        old(frame)@.len() >= frame_info.spec_frame_length(),
    ensures
        ({
            let r = plc_conceal_spec(
                old(ps_plc)@,
                old(state)@,
                exc_q14@,
                *frame_info,
                fs_khz,
                loss_cnt,
                prev_signal_type,
                first_frame_after_reset,
            );
            let n = frame_info.spec_frame_length();
            &&& final(ps_plc)@ == r.plc
            &&& final(state)@ == (SynthView { s_lpc_q14_buf: r.s_lpc_q14_buf, ..old(state)@ })
            &&& final(ctrl)@ == (CtrlView { pitch_l: Seq::new(4, |i: int| r.lag), ..old(ctrl)@ })
            &&& final(frame)@ == r.frame + old(frame)@.subrange(n, old(frame)@.len() as int)
            &&& r.frame.len() == n
            &&& old(ps_plc)@.usable(fs_khz as int, exc_q14@.len() as int) ==> 2 <= r.lag <= 18
                * fs_khz
        }),
        old(ps_plc)@.usable(fs_khz as int, exc_q14@.len() as int) ==> final(ps_plc)@.usable(
            fs_khz as int,
            exc_q14@.len() as int,
        ),
        final(ps_plc).fs_khz == old(ps_plc).fs_khz,
        final(ps_plc).conc_energy_shift == old(ps_plc).conc_energy_shift,
{
    let order: usize = frame_info.lpc_order;
    let mem: usize = frame_info.ltp_mem_length;
    let n: usize = frame_info.subfr_length;
    let nb: usize = frame_info.nb_subfr;
    assert(frame_info.wf());
    let frame_length: usize = frame_info.frame_length();
    let ghost p0 = ps_plc@;
    let ghost st0 = state@;
    proof {
        frame_info.lemma_bounds();
        assert(p0.lag_at(fs_khz as int, 0) >= 0);
    }
    let gain_q10: i32 = ps_plc.prev_gain_q16[1] >> 6u32;
    let base: usize = noise_base(ps_plc, exc_q14, frame_info);
    let noise: &[i32] = &exc_q14[base..base + RAND_BUF_SIZE];
    conceal_lpc(ps_plc, order, first_frame_after_reset);
    let ghost lpc = conceal_lpc_spec(p0, order as int, first_frame_after_reset);
    let a_q12: [i16; 16] = ps_plc.prev_lpc_q12;
    let ix: usize = if loss_cnt > 0 {
        1
    } else {
        0
    };
    let harm_gain_q15: i32 = HARM_ATT_Q15[ix];
    let (scale0, rand_gain_q15) = noise_start(ps_plc, order, loss_cnt, prev_signal_type);
    let ghost inp = conceal_input_spec(
        p0,
        exc_q14@,
        *frame_info,
        fs_khz,
        loss_cnt,
        prev_signal_type,
        lpc,
    );
    let ghost c0 = conceal_start_spec(p0, st0, *frame_info, loss_cnt, prev_signal_type, lpc);
    let mut lag: i32 = rshift_round(ps_plc.pitch_l_q8, 8);
    let mut sltp_q14: [i32; 640] = conceal_memory(
        &state.out_buf,
        &a_q12,
        order,
        lag as usize,
        mem,
        ps_plc.prev_gain_q16[1],
    );
    let mut b_q14: [i16; 5] = ps_plc.ltp_coef_q14;
    let mut scale_q14: i16 = scale0;
    let mut seed: i32 = ps_plc.rand_seed;
    let mut pitch_l_q8: i32 = ps_plc.pitch_l_q8;
    let mut bi: usize = mem;
    let mut k: usize = 0;
    while k < nb
        invariant
            valid_fs(fs_khz as int),
            nb == 2 || nb == 4,
            n == 5 * fs_khz,
            mem == 20 * fs_khz,
            k <= nb,
            bi == mem + k * n,
            bi <= 640,
            mem + nb * n <= 640,
            noise@.len() == 128,
            inp.noise == noise@,
            inp.harm_gain_q15 == harm_gain_q15,
            inp.rand_gain_q15 == rand_gain_q15,
            inp.subfr_length == n,
            inp.ltp_mem_length == mem,
            inp.fs_khz == fs_khz,
            lag == rshift_round_spec(pitch_l_q8, 8),
            pitch_l_q8 == drifted_n_spec(p0.pitch_l_q8, fs_khz as int, k as int),
            lag + 2 <= mem,
            nb == frame_info.nb_subfr,
            mem == frame_info.ltp_mem_length,
            n == frame_info.subfr_length,
            p0.concealable(*frame_info, fs_khz as int, exc_q14@.len() as int),
            ({
                let c = conceal_subframes_spec(inp, c0, k as int);
                &&& c.ltp_q14 == sltp_q14@
                &&& c.seed == seed
                &&& c.b_q14 == b_q14@
                &&& c.scale_q14 == scale_q14
                &&& c.pitch_l_q8 == pitch_l_q8
            }),
        decreases nb - k,
    {
        proof {
            assert(mem + k * n + n <= 640 && (k + 1) * n == k * n + n) by (nonlinear_arith)
                requires
                    k < nb,
                    mem + nb * n <= 640,
                    n >= 0,
            ;
        }
        assert(lag == p0.lag_at(fs_khz as int, k as int));
        seed = conceal_ltp(&mut sltp_q14, noise, &b_q14, scale_q14, seed, lag as usize, bi, n);
        attenuate_taps(&mut b_q14, harm_gain_q15);
        scale_q14 = (smulbb(scale_q14 as i32, rand_gain_q15) >> 15u32) as i16;
        let drifted: i32 = smlawb(pitch_l_q8, pitch_l_q8, PITCH_DRIFT_FAC_Q16);
        let cap: i32 = MAX_PITCH_LAG_MS * fs_khz as i32 * 256;
        proof {
            lemma_drift_cap(pitch_l_q8, fs_khz as int);
        }
        pitch_l_q8 = if drifted < cap {
            drifted
        } else {
            cap
        };
        lag = rshift_round(pitch_l_q8, 8);
        bi = bi + n;
        k = k + 1;
    }
    let ghost c = conceal_subframes_spec(inp, c0, nb as int);
    let mut i: usize = 0;
    while i < 16
        invariant
            i <= 16,
            16 <= mem <= 320,
            forall|t: int| 0 <= t < i ==> #[trigger] sltp_q14@[mem - 16 + t] == st0.s_lpc_q14_buf[t],
            forall|t: int| mem <= t < 640 ==> #[trigger] sltp_q14@[t] == c.ltp_q14[t],
            st0.s_lpc_q14_buf == state.s_lpc_q14_buf@,
        decreases 16 - i,
    {
        sltp_q14[mem - 16 + i] = state.s_lpc_q14_buf[i];
        i = i + 1;
    }
    let ghost res = c.ltp_q14.subrange(mem as int, mem + frame_length);
    proof {
        assert(sltp_q14@.subrange(mem - 16, mem as int) =~= st0.s_lpc_q14_buf) by {
            assert forall|t: int| 0 <= t < 16 implies sltp_q14@.subrange(mem - 16, mem as int)[t]
                == st0.s_lpc_q14_buf[t] by {
                assert(sltp_q14@[mem - 16 + t] == st0.s_lpc_q14_buf[t]);
            }
        }
        assert(sltp_q14@.subrange(mem as int, mem + frame_length) =~= res);
    }
    lpc_synthesis_in_place(&mut sltp_q14, mem, &a_q12, order, frame_length);
    let ghost synth = lpc_synth_spec(st0.s_lpc_q14_buf, res, lpc, order as int, frame_length as int);
    proof {
        assert forall|t: int| 0 <= t < 16 + frame_length implies #[trigger] sltp_q14@[mem - 16 + t]
            == synth[t] by {
            assert(sltp_q14@.subrange(mem - 16, mem + frame_length)[t] == sltp_q14@[mem - 16 + t]);
        }
    }
    let frame_len: usize = frame.len();
    let mut i: usize = 0;
    while i < frame_length
        invariant
            i <= frame_length <= 320,
            16 <= mem <= 320,
            frame@.len() == frame_len,
            frame_length <= frame_len,
            frame@.len() == old(frame)@.len(),
            forall|t: int|
                0 <= t < 16 + frame_length ==> #[trigger] sltp_q14@[mem - 16 + t] == synth[t],
            forall|t: int|
                0 <= t < i ==> #[trigger] frame@[t] == scaled_sample_spec(synth[16 + t], gain_q10),
            forall|t: int| i <= t < frame@.len() ==> #[trigger] frame@[t] == old(frame)@[t],
        decreases frame_length - i,
    {
        assert(sltp_q14@[mem - 16 + (16 + i)] == synth[16 + i]);
        frame[i] = sat16(rshift_round(smulww(sltp_q14[mem + i], gain_q10), 8));
        i = i + 1;
    }
    let mut i: usize = 0;
    while i < 16
        invariant
            i <= 16,
            16 <= mem <= 320,
            frame_length <= 320,
            state.out_buf@ == st0.out_buf,
            state.prev_gain_q16 == st0.prev_gain_q16,
            forall|t: int|
                0 <= t < 16 + frame_length ==> #[trigger] sltp_q14@[mem - 16 + t] == synth[t],
            forall|t: int|
                0 <= t < i ==> #[trigger] state.s_lpc_q14_buf@[t] == synth[frame_length + t],
        decreases 16 - i,
    {
        assert(sltp_q14@[mem - 16 + (frame_length + i)] == synth[frame_length + i]);
        state.s_lpc_q14_buf[i] = sltp_q14[mem - 16 + frame_length + i];
        i = i + 1;
    }
    ps_plc.rand_seed = seed;
    ps_plc.rand_scale_q14 = scale_q14;
    ps_plc.ltp_coef_q14 = b_q14;
    ps_plc.pitch_l_q8 = pitch_l_q8;
    ctrl.pitch_l = [lag; 4];
    proof {
        lemma_lpc_synth_len(st0.s_lpc_q14_buf, res, lpc, order as int, frame_length as int);
        if p0.usable(fs_khz as int, exc_q14@.len() as int) {
            lemma_usable_lags(p0, fs_khz as int, nb as int);
        }
        reveal(plc_conceal_spec);
        let r = plc_conceal_spec(
            p0,
            st0,
            exc_q14@,
            *frame_info,
            fs_khz,
            loss_cnt,
            prev_signal_type,
            first_frame_after_reset,
        );
        assert(ps_plc@ =~= r.plc);
        assert(state@.s_lpc_q14_buf =~= r.s_lpc_q14_buf);
        assert(state@ =~= (SynthView { s_lpc_q14_buf: r.s_lpc_q14_buf, ..st0 }));
        assert(ctrl@.pitch_l =~= Seq::new(4, |i: int| r.lag));
        assert(ctrl@ =~= (CtrlView { pitch_l: Seq::new(4, |i: int| r.lag), ..old(ctrl)@ }));
        assert(frame@ =~= r.frame + old(frame)@.subrange(
            frame_length as int,
            old(frame)@.len() as int,
        ));
    }
}

/// Concealment for one frame: after a loss the generated frame, after a good
/// frame the update of the state. A state of another rate is reset first.
/// `prev_signal_type` is the type of the last frame that was decoded, which
/// behind a good frame is that frame's own.
pub fn plc(
    ps_plc: &mut PlcState,
    state: &mut SynthesisState,
    ctrl: &mut DecoderControl,
    exc_q14: &[i32],
    frame: &mut [i16],
    frame_info: &FrameInfo,
    fs_khz: u32,
    loss_cnt: i32,
    prev_signal_type: i8,
    first_frame_after_reset: bool,
    lost: bool,
)
    requires
        valid_fs(fs_khz as int),
        valid_nb(frame_info.nb_subfr as int),
        *frame_info == FrameInfo::spec_new(fs_khz as int, frame_info.nb_subfr as int),
        lost ==> {
            &&& old(ps_plc)@.at_rate(fs_khz, frame_info.spec_frame_length()).concealable(
                *frame_info,
                fs_khz as int,
                exc_q14@.len() as int,
            )
            &&& exc_q14@.len() >= 128
            &&& exc_q14@.len() >= frame_info.spec_frame_length()
            &&& old(frame)@.len() >= frame_info.spec_frame_length()
        },
    ensures
        !lost ==> {
            &&& final(ps_plc)@ == plc_update_spec(
                old(ps_plc)@.at_rate(fs_khz, frame_info.spec_frame_length()),
                old(ctrl)@,
                *frame_info,
                fs_khz,
                prev_signal_type,
            )
            &&& final(state)@ == old(state)@
            &&& final(ctrl)@ == old(ctrl)@
            &&& final(frame)@ == old(frame)@
        },
        lost ==> {
            let r = plc_conceal_spec(
                old(ps_plc)@.at_rate(fs_khz, frame_info.spec_frame_length()),
                old(state)@,
                exc_q14@,
                *frame_info,
                fs_khz,
                loss_cnt,
                prev_signal_type,
                first_frame_after_reset,
            );
            let n = frame_info.spec_frame_length();
            &&& final(ps_plc)@ == r.plc
            &&& final(state)@ == (SynthView { s_lpc_q14_buf: r.s_lpc_q14_buf, ..old(state)@ })
            &&& final(ctrl)@ == (CtrlView { pitch_l: Seq::new(4, |i: int| r.lag), ..old(ctrl)@ })
            &&& final(frame)@ == r.frame + old(frame)@.subrange(n, old(frame)@.len() as int)
            &&& r.frame.len() == n
            &&& old(ps_plc)@.at_rate(fs_khz, n).usable(fs_khz as int, exc_q14@.len() as int) ==> {
                &&& 2 <= r.lag <= 18 * fs_khz
                &&& final(ps_plc)@.usable(fs_khz as int, exc_q14@.len() as int)
            }
        },
        final(ps_plc).fs_khz == fs_khz,
        final(ps_plc).conc_energy_shift == old(ps_plc).conc_energy_shift,
{
    assert(frame_info.wf());
    if fs_khz != ps_plc.fs_khz {
        let n: usize = frame_info.frame_length();
        plc_reset(ps_plc, n);
        ps_plc.fs_khz = fs_khz;
        assert(ps_plc@ =~= old(ps_plc)@.at_rate(fs_khz, frame_info.spec_frame_length()));
    }
    if lost {
        plc_conceal(
            ps_plc,
            state,
            ctrl,
            exc_q14,
            frame,
            frame_info,
            fs_khz,
            loss_cnt,
            prev_signal_type,
            first_frame_after_reset,
        );
    } else {
        plc_update(ps_plc, ctrl, frame_info, fs_khz, prev_signal_type);
    }
}

// ---------------------------------------------------------------------
// Transition from concealed to good frames
// ---------------------------------------------------------------------

/// A frame from sample `i` on under a rising gain, up to the sample at which
/// the gain passes one.
pub open spec fn faded_spec(frame: Seq<i16>, gain_q16: i32, slope_q16: i32, i: int) -> Seq<i16>
    decreases frame.len() - i,
{
    if i < 0 || i >= frame.len() {
        frame
    } else {
        let f = frame.update(i, smulwb_spec(gain_q16, frame[i] as i32) as i16);
        let g = gain_q16.wrapping_add(slope_q16);
        if g > 65536 {
            f
        } else {
            faded_spec(f, g, slope_q16, i + 1)
        }
    }
}

/// Concealed and decoded energy at the same shift.
pub open spec fn common_energies_spec(conc: i32, conc_shift: i32, energy: i32, shift: u32) -> (i32, i32) {
    if shift > conc_shift {
        (conc >> ((shift - conc_shift) as u32), energy)
    } else if shift < conc_shift {
        (conc, energy >> ((conc_shift - shift) as u32))
    } else {
        (conc, energy)
    }
}

/// The concealed energy as the fade leaves it: normalized.
pub open spec fn normalized_conc_spec(conc: i32) -> i32 {
    conc.wrapping_shl(((clz_spec(conc) - 1) as i32) as u32)
}

/// The gain that a louder frame after a loss starts at, in Q16.
pub open spec fn fade_gain_spec(conc: i32, energy: i32) -> i32 {
    let lz = clz_spec(conc) - 1;
    let shift = if lz < 24 {
        24 - lz
    } else {
        0
    };
    let e = energy >> (shift as u32);
    let frac_q24 = trunc_div(
        normalized_conc_spec(conc) as int,
        if e < 1 {
            1
        } else {
            e as int
        },
    ) as i32;
    sqrt_approx_spec(frac_q24).wrapping_shl(4)
}

/// Rise of that gain per sample: four times as steep as the frame is long.
/// The length counts in 16 bits.
pub open spec fn fade_slope_spec(gain_q16: i32, length: int) -> i32 {
    (trunc_div(65536 - gain_q16, ((length as i32) as i16) as int) as i32) << 2u32
}

/// Whether a frame after a loss is louder than what stood in for the loss.
#[verifier::opaque]
pub open spec fn louder_spec(p: PlcView, frame: Seq<i16>) -> bool {
    let (energy, shift) = sum_sqr_shift_spec(frame);
    let (conc, e) = common_energies_spec(p.conc_energy, p.conc_energy_shift, energy, shift);
    e > conc
}

/// State and frame after the transition: a lost frame's energy is kept; the
/// first good frame after a loss fades in if it is louder.
#[verifier::opaque]
pub open spec fn glue_spec(p: PlcView, frame: Seq<i16>, lost: bool) -> (PlcView, Seq<i16>) {
    let (energy, shift) = sum_sqr_shift_spec(frame);
    if lost {
        (
            PlcView {
                conc_energy: energy,
                conc_energy_shift: shift as i32,
                last_frame_lost: true,
                ..p
            },
            frame,
        )
    } else if p.last_frame_lost {
        let (conc, e) = common_energies_spec(p.conc_energy, p.conc_energy_shift, energy, shift);
        if e > conc {
            let gain = fade_gain_spec(conc, e);
            (
                PlcView {
                    conc_energy: normalized_conc_spec(conc),
                    last_frame_lost: false,
                    ..p
                },
                faded_spec(frame, gain, fade_slope_spec(gain, frame.len() as int), 0),
            )
        } else {
            (PlcView { conc_energy: conc, last_frame_lost: false, ..p }, frame)
        }
    } else {
        (PlcView { last_frame_lost: false, ..p }, frame)
    }
}

pub proof fn lemma_faded_len(frame: Seq<i16>, gain_q16: i32, slope_q16: i32, i: int)
    ensures
        faded_spec(frame, gain_q16, slope_q16, i).len() == frame.len(),
    decreases frame.len() - i,
{
    if 0 <= i < frame.len() {
        let f = frame.update(i, smulwb_spec(gain_q16, frame[i] as i32) as i16);
        let g = gain_q16.wrapping_add(slope_q16);
        if g <= 65536 {
            lemma_faded_len(f, g, slope_q16, i + 1);
        }
    }
}

/// Fades the first `length` samples in.
fn fade(frame: &mut [i16], length: usize, gain_q16: i32, slope_q16: i32)
    requires
        length <= old(frame)@.len(),
    ensures
        final(frame)@ == faded_spec(
            old(frame)@.subrange(0, length as int),
            gain_q16,
            slope_q16,
            0,
        ) + old(frame)@.subrange(length as int, old(frame)@.len() as int),
{
    let ghost spec = faded_spec(frame@.subrange(0, length as int), gain_q16, slope_q16, 0);
    let ghost rest = frame@.subrange(length as int, frame@.len() as int);
    let mut gain: i32 = gain_q16;
    let mut i: usize = 0;
    while i < length
        invariant
            i <= length <= frame@.len(),
            frame@.len() == old(frame)@.len(),
            faded_spec(frame@.subrange(0, length as int), gain, slope_q16, i as int) == spec,
            spec == faded_spec(old(frame)@.subrange(0, length as int), gain_q16, slope_q16, 0),
            rest == old(frame)@.subrange(length as int, old(frame)@.len() as int),
            frame@.subrange(length as int, frame@.len() as int) == rest,
        decreases length - i,
    {
        let ghost f0 = frame@.subrange(0, length as int);
        let v: i16 = smulwb(gain, frame[i] as i32) as i16;
        frame[i] = v;
        proof {
            assert(frame@.subrange(0, length as int) =~= f0.update(i as int, v));
            assert(frame@.subrange(length as int, frame@.len() as int) =~= rest);
        }
        gain = gain.wrapping_add(slope_q16);
        if gain > 65536 {
            proof {
                assert(frame@.subrange(0, length as int) == spec);
                assert(frame@ =~= spec + rest);
            }
            return;
        }
        i = i + 1;
    }
    proof {
        assert(frame@.subrange(0, length as int) == spec);
        assert(frame@ =~= spec + rest);
    }
}

/// Smooths the change from concealed to good frames.
pub fn plc_glue_frames(ps_plc: &mut PlcState, frame: &mut [i16], length: usize, lost: bool)
    requires
        lost || old(ps_plc).last_frame_lost ==> 1 <= length <= i32::MAX,
        length <= old(frame)@.len(),
        !lost && old(ps_plc).last_frame_lost && louder_spec(
            old(ps_plc)@,
            old(frame)@.subrange(0, length as int),
        ) ==> (length as i32) as i16 != 0,
        !lost && old(ps_plc).last_frame_lost ==> -28 <= old(ps_plc).conc_energy_shift <= 31,
    ensures
        ({
            let (p, f) = glue_spec(old(ps_plc)@, old(frame)@.subrange(0, length as int), lost);
            &&& final(ps_plc)@ == p
            &&& final(frame)@ == f + old(frame)@.subrange(length as int, old(frame)@.len() as int)
            &&& f.len() == length
        }),
        0 <= final(ps_plc).conc_energy_shift <= 3 || final(ps_plc).conc_energy_shift == old(ps_plc).conc_energy_shift,
        final(ps_plc)@ == (PlcView {
            conc_energy: final(ps_plc).conc_energy,
            conc_energy_shift: final(ps_plc).conc_energy_shift,
            last_frame_lost: lost,
            ..old(ps_plc)@
        }),
{
    reveal(glue_spec);
    let ghost f0 = frame@.subrange(0, length as int);
    let ghost rest = frame@.subrange(length as int, frame@.len() as int);
    let ghost p0 = ps_plc@;
    assert(frame@ =~= f0 + rest);
    if lost {
        let s: &[i16] = &frame[0..length];
        let (energy, shift) = sum_sqr_shift(s);
        ps_plc.conc_energy = energy;
        ps_plc.conc_energy_shift = shift as i32;
        ps_plc.last_frame_lost = true;
        assert(ps_plc@ =~= glue_spec(p0, f0, lost).0);
    } else {
        if ps_plc.last_frame_lost {
            let s: &[i16] = &frame[0..length];
            let (energy0, shift) = sum_sqr_shift(s);
            let mut energy: i32 = energy0;
            let conc_shift: i32 = ps_plc.conc_energy_shift;
            let mut conc: i32 = ps_plc.conc_energy;
            if shift as i32 > conc_shift {
                conc = conc >> ((shift as i32 - conc_shift) as u32);
            } else if (shift as i32) < conc_shift {
                energy = energy >> ((conc_shift - shift as i32) as u32);
            }
            assert((conc, energy) == common_energies_spec(
                p0.conc_energy,
                p0.conc_energy_shift,
                energy0,
                shift,
            ));
            if energy > conc {
                let ghost conc0 = conc;
                let lz: i32 = clz(conc) as i32 - 1;
                conc = conc.wrapping_shl(lz as u32);
                let down: i32 = if lz < 24 {
                    24 - lz
                } else {
                    0
                };
                let e: i32 = energy >> (down as u32);
                let den: i32 = if e < 1 {
                    1
                } else {
                    e
                };
                proof {
                    lemma_trunc_div_bound(conc as int, den as int);
                    if conc < 0 && den == 1 {
                        assert(conc as int / 1 == conc);
                    }
                }
                let frac_q24: i32 = div32(conc, den);
                let root: i32 = sqrt_approx(frac_q24);
                proof {
                    lemma2_to64();
                    lemma_shl_i32(root, 4);
                }
                let gain_q16: i32 = root.wrapping_shl(4);
                proof {
                    reveal(louder_spec);
                    lemma_trunc_div_bound(65536 - gain_q16, ((length as i32) as i16) as int);
                }
                let slope_q16: i32 = div32_16(65536 - gain_q16, length as i32) << 2u32;
                assert(gain_q16 == fade_gain_spec(conc0, energy));
                fade(frame, length, gain_q16, slope_q16);
                proof {
                    lemma_faded_len(f0, gain_q16, slope_q16, 0);
                }
            }
            ps_plc.conc_energy = conc;
        }
        ps_plc.last_frame_lost = false;
        assert(ps_plc@ =~= glue_spec(p0, f0, lost).0);
    }
}

// ---------------------------------------------------------------------
// Comfort noise
// ---------------------------------------------------------------------

/// A mask of ones no larger than `length`, from `mask` down.
pub open spec fn cng_mask_spec(mask: int, length: int) -> int
    decreases mask,
{
    if mask <= 0 || mask <= length {
        mask
    } else {
        cng_mask_spec(mask / 2, length)
    }
}

/// `length` samples picked at random from the front of the buffer.
pub open spec fn cng_exc_spec(buf: Seq<i32>, seed: i32, length: int) -> Seq<i32> {
    let mask = cng_mask_spec(255, length) as i32;
    Seq::new(length as nat, |i: int| buf[((rand_n_spec(seed, i + 1) >> 24u32) & mask) as int])
}

/// Fills `exc_q14` with random picks and returns the generator.
fn cng_exc(exc_q14: &mut [i32], exc_buf_q14: &[i32], rand_seed: i32) -> (r: i32)
    requires
        exc_buf_q14@.len() >= 256,
        old(exc_q14)@.len() <= 0x7fff_ffff,
    ensures
        final(exc_q14)@ == cng_exc_spec(exc_buf_q14@, rand_seed, old(exc_q14)@.len() as int),
        r == rand_n_spec(rand_seed, old(exc_q14)@.len() as int),
{
    let length: usize = exc_q14.len();
    let mut mask: i32 = CNG_BUF_MASK_MAX;
    while mask > length as i32
        invariant
            0 <= mask <= 255,
            length <= 0x7fff_ffff,
            cng_mask_spec(mask as int, length as int) == cng_mask_spec(255, length as int),
        decreases mask,
    {
        mask = mask / 2;
    }
    let mut seed: i32 = rand_seed;
    let ghost spec = cng_exc_spec(exc_buf_q14@, rand_seed, length as int);
    let mut i: usize = 0;
    while i < length
        invariant
            i <= length,
            length == exc_q14@.len(),
            exc_buf_q14@.len() >= 256,
            0 <= mask <= 255,
            mask == cng_mask_spec(255, length as int),
            seed == rand_n_spec(rand_seed, i as int),
            spec == cng_exc_spec(exc_buf_q14@, rand_seed, length as int),
            forall|k: int| 0 <= k < i ==> #[trigger] exc_q14@[k] == spec[k],
        decreases length - i,
    {
        seed = rand(seed);
        proof {
            lemma_masked(seed >> 24u32, mask);
        }
        let at: i32 = (seed >> 24u32) & mask;
        exc_q14[i] = exc_buf_q14[at as usize];
        i = i + 1;
    }
    assert(exc_q14@ =~= spec);
    seed
}

/// A spectral coefficient a quarter of the way closer to the last frame's.
pub open spec fn smoothed_nlsf_spec(smth: i16, prev: i16) -> i16 {
    (smth + smulwb_spec((prev - smth) as i32, CNG_NLSF_SMTH_Q16)) as i16
}

/// Smoothing stays between the two coefficients.
proof fn lemma_smoothed_nlsf(smth: i16, prev: i16)
    ensures
        smth <= prev ==> smth <= smoothed_nlsf_spec(smth, prev) <= prev,
        smth >= prev ==> prev <= smoothed_nlsf_spec(smth, prev) <= smth,
        smoothed_nlsf_spec(smth, prev) == smth + smulwb_spec((prev - smth) as i32, CNG_NLSF_SMTH_Q16),
{
    let d = prev - smth;
    lemma_smulwb_bound(d as i32, CNG_NLSF_SMTH_Q16, 65535);
    assert((CNG_NLSF_SMTH_Q16 as i16) == 16348);
    assert(d >= 0 ==> 0 <= (d * 16348) / 65536 <= d);
    assert(d <= 0 ==> d <= (d * 16348) / 65536 <= 0);
}

/// The subframe with the largest positive gain among the first `n`.
pub open spec fn loudest_spec(gains: Seq<i32>, n: int) -> (i32, int)
    decreases n,
{
    if n <= 0 {
        (0, 0)
    } else {
        let (g, k) = loudest_spec(gains, n - 1);
        if gains[n - 1] > g {
            (gains[n - 1], n - 1)
        } else {
            (g, k)
        }
    }
}

/// The smoothed gain after the first `n` subframes; it drops at once to a
/// gain more than 3 dB below it.
pub open spec fn smoothed_gain_spec(smth: i32, gains: Seq<i32>, n: int) -> i32
    decreases n,
{
    if n <= 0 {
        smth
    } else {
        let g = smoothed_gain_spec(smth, gains, n - 1);
        let gain = gains[n - 1];
        let s = g.wrapping_add(smulwb_spec(gain.wrapping_sub(g), CNG_GAIN_SMTH_Q16));
        if smulww_spec(s, CNG_GAIN_SMTH_THRESHOLD_Q16) > gain {
            gain
        } else {
            s
        }
    }
}

/// The noise estimate after an inactive frame.
pub open spec fn cng_update_spec(
    c: CngView,
    ctrl: CtrlView,
    exc: Seq<i32>,
    frame: FrameInfo,
    prev_nlsf: Seq<i16>,
) -> CngView {
    let order = frame.lpc_order as int;
    let n = frame.subfr_length as int;
    let nb = frame.nb_subfr as int;
    let loud = loudest_spec(ctrl.gains_q16, nb).1;
    CngView {
        cng_smth_nlsf_q15: Seq::new(
            16,
            |i: int|
                if i < order {
                    smoothed_nlsf_spec(c.cng_smth_nlsf_q15[i], prev_nlsf[i])
                } else {
                    c.cng_smth_nlsf_q15[i]
                },
        ),
        cng_exc_buf_q14: Seq::new(
            320,
            |i: int|
                if i < n {
                    exc[loud * n + i]
                } else if i < nb * n {
                    c.cng_exc_buf_q14[i - n]
                } else {
                    c.cng_exc_buf_q14[i]
                },
        ),
        cng_smth_gain_q16: smoothed_gain_spec(c.cng_smth_gain_q16, ctrl.gains_q16, nb),
        ..c
    }
}

/// Gain of the comfort noise in Q10: what the noise of the concealment lacks.
pub open spec fn cng_gain_spec(c: CngView, p: PlcView) -> i32 {
    let g = smulww_spec(p.rand_scale_q14 as i32, p.prev_gain_q16[1]);
    let s = c.cng_smth_gain_q16;
    let gain_q16 = if g >= 0x20_0000 || s > 0x80_0000 {
        sqrt_approx_spec(
            smultt_spec(s, s).wrapping_sub(smultt_spec(g, g).wrapping_shl(5)),
        ).wrapping_shl(16)
    } else {
        sqrt_approx_spec(
            smulww_spec(s, s).wrapping_sub(smulww_spec(g, g).wrapping_shl(5)),
        ).wrapping_shl(8)
    };
    gain_q16 >> 6u32
}

/// Filter history and outputs of the comfort noise of a frame.
pub open spec fn cng_synth_spec(c: CngView, order: int, length: int) -> Seq<i32> {
    lpc_synth_spec(
        c.cng_synth_state,
        cng_exc_spec(c.cng_exc_buf_q14, c.rand_seed, length),
        nlsf2a_spec(c.cng_smth_nlsf_q15.subrange(0, order)),
        order,
        length,
    )
}

/// State and frame after comfort noise: an inactive frame updates the
/// estimate, a lost one gets noise added.
#[verifier::opaque]
pub open spec fn cng_spec(
    c0: CngView,
    p: PlcView,
    ctrl: CtrlView,
    exc: Seq<i32>,
    samples: Seq<i16>,
    frame: FrameInfo,
    fs_khz: u32,
    loss_cnt: i32,
    prev_signal_type: i8,
    prev_nlsf: Seq<i16>,
) -> (CngView, Seq<i16>) {
    let order = frame.lpc_order as int;
    let n = samples.len() as int;
    let c1 = c0.at_rate(fs_khz, order);
    let c = if loss_cnt == 0 && prev_signal_type == TYPE_NO_VOICE_ACTIVITY {
        cng_update_spec(c1, ctrl, exc, frame, prev_nlsf)
    } else {
        c1
    };
    if loss_cnt != 0 {
        let synth = cng_synth_spec(c, order, n);
        let gain = cng_gain_spec(c, p);
        (
            CngView {
                cng_synth_state: synth.subrange(n, n + 16),
                rand_seed: rand_n_spec(c.rand_seed, n),
                ..c
            },
            Seq::new(
                n as nat,
                |i: int|
                    add_sat16_spec(
                        samples[i] as i32,
                        scaled_sample_spec(synth[16 + i], gain) as i32,
                    ),
            ),
        )
    } else {
        (
            CngView {
                cng_synth_state: Seq::new(
                    16,
                    |i: int|
                        if i < order {
                            0
                        } else {
                            c.cng_synth_state[i]
                        },
                ),
                ..c
            },
            samples,
        )
    }
}

/// Updates the noise estimate from an inactive frame.
fn cng_update(
    ps_cng: &mut CngState,
    ctrl: &DecoderControl,
    exc_q14: &[i32],
    frame_info: &FrameInfo,
    prev_nlsf_q15: &[i16],
)
    requires
        frame_info.wf(),
        exc_q14@.len() >= frame_info.spec_frame_length(),
        prev_nlsf_q15@.len() >= frame_info.lpc_order,
    ensures
        final(ps_cng)@ == cng_update_spec(
            old(ps_cng)@,
            ctrl@,
            exc_q14@,
            *frame_info,
            prev_nlsf_q15@,
        ),
        old(ps_cng)@.usable(frame_info.lpc_order as int) && (forall|i: int|
            0 <= i < frame_info.lpc_order ==> 0 <= #[trigger] prev_nlsf_q15@[i])
            ==> final(ps_cng)@.usable(frame_info.lpc_order as int),
{
    let order: usize = frame_info.lpc_order;
    let n: usize = frame_info.subfr_length;
    let nb: usize = frame_info.nb_subfr;
    let ghost c = ps_cng@;
    let ghost spec = cng_update_spec(c, ctrl@, exc_q14@, *frame_info, prev_nlsf_q15@);
    proof {
        frame_info.lemma_bounds();
    }
    let mut nlsf: [i16; 16] = ps_cng.cng_smth_nlsf_q15;
    let mut i: usize = 0;
    while i < order
        invariant
            i <= order <= 16,
            prev_nlsf_q15@.len() >= order,
            c.cng_smth_nlsf_q15.len() == 16,
            forall|k: int|
                0 <= k < i ==> #[trigger] nlsf@[k] == smoothed_nlsf_spec(
                    c.cng_smth_nlsf_q15[k],
                    prev_nlsf_q15@[k],
                ),
            forall|k: int|
                0 <= k < i && 0 <= c.cng_smth_nlsf_q15[k] && 0 <= prev_nlsf_q15@[k] ==> 0
                    <= #[trigger] nlsf@[k],
            forall|k: int| i <= k < 16 ==> #[trigger] nlsf@[k] == c.cng_smth_nlsf_q15[k],
        decreases order - i,
    {
        let smth: i16 = nlsf[i];
        let prev: i16 = prev_nlsf_q15[i];
        proof {
            lemma_smoothed_nlsf(smth, prev);
        }
        nlsf[i] = (smth as i32 + smulwb(prev as i32 - smth as i32, CNG_NLSF_SMTH_Q16)) as i16;
        i = i + 1;
    }
    let mut max_gain_q16: i32 = 0;
    let mut subfr: usize = 0;
    let mut gain_smth: i32 = ps_cng.cng_smth_gain_q16;
    let mut i: usize = 0;
    while i < nb
        invariant
            i <= nb,
            nb == 2 || nb == 4,
            subfr < nb,
            loudest_spec(ctrl@.gains_q16, i as int) == (max_gain_q16, subfr as int),
            gain_smth == smoothed_gain_spec(c.cng_smth_gain_q16, ctrl@.gains_q16, i as int),
        decreases nb - i,
    {
        let gain: i32 = ctrl.gains_q16[i];
        if gain > max_gain_q16 {
            max_gain_q16 = gain;
            subfr = i;
        }
        let s: i32 = gain_smth.wrapping_add(smulwb(gain.wrapping_sub(gain_smth), CNG_GAIN_SMTH_Q16));
        gain_smth = if smulww(s, CNG_GAIN_SMTH_THRESHOLD_Q16) > gain {
            gain
        } else {
            s
        };
        i = i + 1;
    }
    proof {
        assert(subfr * n + n <= nb * n && nb * n <= 320 && 0 <= subfr * n) by (nonlinear_arith)
            requires
                0 <= subfr < nb,
                nb <= 4,
                0 <= n <= 80,
        ;
    }
    let base: usize = subfr * n;
    let total: usize = nb * n;
    let mut exc: [i32; 320] = ps_cng.cng_exc_buf_q14;
    let mut i: usize = 0;
    while i < total
        invariant
            i <= total <= 320,
            n <= total,
            base <= 320,
            c.cng_exc_buf_q14.len() == 320,
            ps_cng.cng_exc_buf_q14@ == c.cng_exc_buf_q14,
            base + n <= exc_q14@.len(),
            forall|k: int|
                0 <= k < i ==> #[trigger] exc@[k] == (if k < n {
                    exc_q14@[base + k]
                } else {
                    c.cng_exc_buf_q14[k - n]
                }),
            forall|k: int| i <= k < 320 ==> #[trigger] exc@[k] == c.cng_exc_buf_q14[k],
        decreases total - i,
    {
        exc[i] = if i < n {
            exc_q14[base + i]
        } else {
            ps_cng.cng_exc_buf_q14[i - n]
        };
        i = i + 1;
    }
    ps_cng.cng_smth_nlsf_q15 = nlsf;
    ps_cng.cng_exc_buf_q14 = exc;
    ps_cng.cng_smth_gain_q16 = gain_smth;
    proof {
        assert(ps_cng@.cng_smth_nlsf_q15 =~= spec.cng_smth_nlsf_q15);
        assert(ps_cng@.cng_exc_buf_q14 =~= spec.cng_exc_buf_q14);
        assert(ps_cng@ =~= spec);
    }
}

/// Gain of the comfort noise in Q10.
fn cng_gain(ps_cng: &CngState, ps_plc: &PlcState) -> (r: i32)
    ensures
        r == cng_gain_spec(ps_cng@, ps_plc@),
{
    let g: i32 = smulww(ps_plc.rand_scale_q14 as i32, ps_plc.prev_gain_q16[1]);
    let s: i32 = ps_cng.cng_smth_gain_q16;
    let gain_q16: i32 = if g >= 0x20_0000 || s > 0x80_0000 {
        sqrt_approx(sub_lshift32(smultt(s, s), smultt(g, g), 5)).wrapping_shl(16)
    } else {
        sqrt_approx(sub_lshift32(smulww(s, s), smulww(g, g), 5)).wrapping_shl(8)
    };
    gain_q16 >> 6u32
}

/// Comfort noise for one frame. A state of another rate is reset first.
pub fn cng(
    ps_cng: &mut CngState,
    ps_plc: &PlcState,
    ctrl: &DecoderControl,
    exc_q14: &[i32],
    frame: &mut [i16],
    length: usize,
    frame_info: &FrameInfo,
    fs_khz: u32,
    loss_cnt: i32,
    prev_signal_type: i8,
    prev_nlsf_q15: &[i16],
)
    requires
        frame_info.wf(),
        length <= 320,
        length <= old(frame)@.len(),
        exc_q14@.len() >= frame_info.spec_frame_length(),
        prev_nlsf_q15@.len() >= frame_info.lpc_order,
        loss_cnt != 0 && fs_khz == old(ps_cng).fs_khz ==> old(ps_cng)@.usable(
            frame_info.lpc_order as int,
        ),
    ensures
        ({
            let (c, f) = cng_spec(
                old(ps_cng)@,
                ps_plc@,
                ctrl@,
                exc_q14@,
                old(frame)@.subrange(0, length as int),
                *frame_info,
                fs_khz,
                loss_cnt,
                prev_signal_type,
                prev_nlsf_q15@,
            );
            &&& final(ps_cng)@ == c
            &&& final(frame)@ == f + old(frame)@.subrange(length as int, old(frame)@.len() as int)
            &&& f.len() == length
        }),
        (fs_khz == old(ps_cng).fs_khz ==> old(ps_cng)@.usable(frame_info.lpc_order as int)) && (
        forall|i: int| 0 <= i < frame_info.lpc_order ==> 0 <= #[trigger] prev_nlsf_q15@[i])
            ==> final(ps_cng)@.usable(frame_info.lpc_order as int),
        final(ps_cng).fs_khz == fs_khz,
{
    let order: usize = frame_info.lpc_order;
    proof {
        frame_info.lemma_bounds();
    }
    let ghost samples = frame@.subrange(0, length as int);
    let ghost rest = frame@.subrange(length as int, frame@.len() as int);
    assert(frame@ =~= samples + rest);
    if fs_khz != ps_cng.fs_khz {
        cng_reset(ps_cng, order);
        ps_cng.fs_khz = fs_khz;
    }
    assert(ps_cng@ =~= old(ps_cng)@.at_rate(fs_khz, order as int));
    if loss_cnt == 0 && prev_signal_type == TYPE_NO_VOICE_ACTIVITY {
        cng_update(ps_cng, ctrl, exc_q14, frame_info, prev_nlsf_q15);
    }
    let ghost c = ps_cng@;
    if loss_cnt != 0 {
        let gain_q10: i32 = cng_gain(ps_cng, ps_plc);
        let mut sig: [i32; 336] = [0; 336];
        let (_head, tail) = sig.split_at_mut(16);
        let (noise, _after) = tail.split_at_mut(length);
        let seed: i32 = cng_exc(noise, &ps_cng.cng_exc_buf_q14, ps_cng.rand_seed);
        let ghost exc = cng_exc_spec(c.cng_exc_buf_q14, c.rand_seed, length as int);
        assert(sig@.subrange(16, 16 + length) =~= exc);
        let mut a_q12: [i16; 16] = [0; 16];
        let (a, _unused) = a_q12.split_at_mut(order);
        let nlsf: &[i16] = &ps_cng.cng_smth_nlsf_q15[0..order];
        nlsf2a(a, nlsf, order);
        let mut i: usize = 0;
        while i < 16
            invariant
                i <= 16,
                length <= 320,
                ps_cng.cng_synth_state@ == c.cng_synth_state,
                sig@.subrange(16, 16 + length) == exc,
                forall|k: int| 0 <= k < i ==> #[trigger] sig@[k] == c.cng_synth_state[k],
            decreases 16 - i,
        {
            sig[i] = ps_cng.cng_synth_state[i];
            assert(sig@.subrange(16, 16 + length) =~= exc);
            i = i + 1;
        }
        assert(sig@.subrange(16 - 16, 16) =~= c.cng_synth_state);
        lpc_synthesis_in_place(&mut sig, 16, a, order, length);
        let ghost synth = cng_synth_spec(c, order as int, length as int);
        proof {
            lemma_lpc_synth_len(
                c.cng_synth_state,
                exc,
                nlsf2a_spec(c.cng_smth_nlsf_q15.subrange(0, order as int)),
                order as int,
                length as int,
            );
            assert forall|k: int| 0 <= k < 16 + length implies #[trigger] sig@[k] == synth[k] by {
                assert(sig@.subrange(16 - 16, 16 + length)[k] == sig@[k]);
            }
        }
        let frame_len: usize = frame.len();
        let mut i: usize = 0;
        while i < length
            invariant
                i <= length <= 320,
                length <= frame_len,
                frame@.len() == frame_len,
                frame@.len() == old(frame)@.len(),
                samples == old(frame)@.subrange(0, length as int),
                forall|k: int| 0 <= k < 16 + length ==> #[trigger] sig@[k] == synth[k],
                forall|k: int|
                    0 <= k < i ==> #[trigger] frame@[k] == add_sat16_spec(
                        samples[k] as i32,
                        scaled_sample_spec(synth[16 + k], gain_q10) as i32,
                    ),
                forall|k: int| i <= k < frame@.len() ==> #[trigger] frame@[k] == old(frame)@[k],
            decreases length - i,
        {
            assert(sig@[16 + i] == synth[16 + i]);
            let v: i16 = sat16(rshift_round(smulww(sig[16 + i], gain_q10), 8));
            frame[i] = add_sat16(frame[i] as i32, v as i32);
            i = i + 1;
        }
        let mut st: [i32; 16] = [0; 16];
        let mut i: usize = 0;
        while i < 16
            invariant
                i <= 16,
                length <= 320,
                forall|k: int| 0 <= k < 16 + length ==> #[trigger] sig@[k] == synth[k],
                forall|k: int| 0 <= k < i ==> #[trigger] st@[k] == synth[length + k],
            decreases 16 - i,
        {
            assert(sig@[length + i] == synth[length + i]);
            st[i] = sig[length + i];
            i = i + 1;
        }
        ps_cng.cng_synth_state = st;
        ps_cng.rand_seed = seed;
        assert(st@ =~= synth.subrange(length as int, length + 16));
    } else {
        let mut st: [i32; 16] = ps_cng.cng_synth_state;
        let mut i: usize = 0;
        while i < order
            invariant
                i <= order <= 16,
                c.cng_synth_state.len() == 16,
                forall|k: int| 0 <= k < i ==> #[trigger] st@[k] == 0,
                forall|k: int| i <= k < 16 ==> #[trigger] st@[k] == c.cng_synth_state[k],
            decreases order - i,
        {
            st[i] = 0;
            i = i + 1;
        }
        ps_cng.cng_synth_state = st;
    }
    proof {
        reveal(cng_spec);
        let (cf, f) = cng_spec(
            old(ps_cng)@,
            ps_plc@,
            ctrl@,
            exc_q14@,
            samples,
            *frame_info,
            fs_khz,
            loss_cnt,
            prev_signal_type,
            prev_nlsf_q15@,
        );
        assert(ps_cng@.cng_synth_state =~= cf.cng_synth_state);
        assert(ps_cng@ =~= cf);
        assert(frame@ =~= f + rest);
    }
}

/// A state that is reset when it belongs to another rate is usable.
pub proof fn lemma_plc_at_rate(p: PlcView, fs_khz: u32, frame_length: int)
    requires
        valid_fs(fs_khz as int),
        p.fs_khz != 0 ==> p.usable(p.fs_khz as int, 320),
        80 <= frame_length <= 320,
        frame_length <= 20 * fs_khz,
    ensures
        p.at_rate(fs_khz, frame_length).usable(fs_khz as int, 320),
        p.at_rate(fs_khz, frame_length).fs_khz == fs_khz,
{
    let q = p.at_rate(fs_khz, frame_length);
    if fs_khz != p.fs_khz {
        assert(q.pitch_l_q8 == frame_length * 128);
        assert(q.prev_gain_q16[1] == 65536);
        assert(q.nb_subfr * q.subfr_length == 40) by (nonlinear_arith)
            requires
                q.nb_subfr == 2,
                q.subfr_length == 20,
        ;
    }
}

/// The lag that the concealment takes over lies in the range of lags.
proof fn lemma_strongest(ctrl: CtrlView, nb: int, lag0: i32, j: int, fs_khz: int)
    requires
        0 <= j <= nb <= 4,
        8 <= fs_khz <= 16,
        512 <= lag0 <= 18 * fs_khz * 256,
        forall|k: int|
            0 <= k < nb ==> 2 <= #[trigger] ctrl.pitch_l[k] <= 18 * fs_khz || tap_sum_spec(
                ctrl.ltp_coef_q14,
                k,
            ) <= 0,
    ensures
        512 <= strongest_spec(ctrl, nb, lag0, j).1 <= 18 * fs_khz * 256,
        strongest_spec(ctrl, nb, lag0, j).0 >= 0,
    decreases j,
{
    if j > 0 {
        lemma_strongest(ctrl, nb, lag0, j - 1, fs_khz);
        let x = ctrl.pitch_l[nb - j];
        if tap_sum_spec(ctrl.ltp_coef_q14, nb - j) > 0 {
            lemma2_to64();
            assert(x * pow2(8) == x * 256) by (nonlinear_arith)
                requires
                    pow2(8) == 256,
            ;
            lemma_shl_i32(x, 8);
        }
    }
}

/// Behind a good frame the concealment can go on.
pub proof fn lemma_plc_update(
    p: PlcView,
    ctrl: CtrlView,
    frame: FrameInfo,
    fs_khz: u32,
    signal_type: i8,
)
    requires
        valid_fs(fs_khz as int),
        valid_nb(frame.nb_subfr as int),
        frame == FrameInfo::spec_new(fs_khz as int, frame.nb_subfr as int),
        p.usable(fs_khz as int, 320),
        ctrl.shaped(),
        forall|k: int| 0 <= k < frame.nb_subfr ==> #[trigger] ctrl.gains_q16[k] > 0,
        forall|k: int|
            0 <= k < frame.nb_subfr ==> 2 <= #[trigger] ctrl.pitch_l[k] <= 18 * fs_khz
                || tap_sum_spec(ctrl.ltp_coef_q14, k) <= 0,
    ensures
        plc_update_spec(p, ctrl, frame, fs_khz, signal_type).usable(fs_khz as int, 320),
{
    reveal(plc_update_spec);
    let nb = frame.nb_subfr as int;
    let n = frame.subfr_length as int;
    let lag = ctrl.pitch_l[nb - 1] as int;
    let j = period_subframes_spec(nb, n, lag);
    assert(0 <= j <= nb) by {
        if lag >= 0 {
            assert((lag + n - 1) / n >= 0) by (nonlinear_arith)
                requires
                    lag >= 0,
                    n >= 40,
            ;
        }
    }
    lemma_strongest(ctrl, nb, p.pitch_l_q8, j, fs_khz as int);
    let u = plc_update_spec(p, ctrl, frame, fs_khz, signal_type);
    assert(u.prev_gain_q16[1] == ctrl.gains_q16[nb - 1]);
    assert(u.nb_subfr * u.subfr_length <= 320) by (nonlinear_arith)
        requires
            u.nb_subfr <= 4,
            u.subfr_length <= 80,
    ;
}

/// Only the first good frame after a loss changes in the transition, and only
/// if it is louder than what stood in.
pub proof fn lemma_glue_keeps(p: PlcView, frame: Seq<i16>, lost: bool)
    ensures
        lost || !p.last_frame_lost || !louder_spec(p, frame) ==> glue_spec(p, frame, lost).1
            == frame,
        glue_spec(p, frame, lost).0.last_frame_lost == lost,
        !lost && !p.last_frame_lost ==> glue_spec(p, frame, lost).0 == p,
{
    reveal(glue_spec);
    reveal(louder_spec);
}

/// A fade-in makes no sample louder and turns none around.
pub proof fn lemma_fade_only_softens(frame: Seq<i16>, gain_q16: i32, slope_q16: i32, i: int, k: int)
    requires
        0 <= i,
        0 <= k < frame.len(),
        0 <= gain_q16 <= 65536,
        0 <= slope_q16 <= 0x4000_0000,
    ensures
        ({
            let f = faded_spec(frame, gain_q16, slope_q16, i)[k];
            &&& frame[k] >= 0 ==> 0 <= f <= frame[k]
            &&& frame[k] <= 0 ==> frame[k] <= f <= 0
            &&& k < i ==> f == frame[k]
        }),
    decreases frame.len() - i,
{
    if i < frame.len() {
        reveal(smulwb_spec);
        let x = frame[i];
        assert((x as i32) as i16 == x);
        let y = gain_q16 * x;
        assert(x >= 0 ==> 0 <= y <= 65536 * x) by (nonlinear_arith)
            requires
                y == gain_q16 * x,
                0 <= gain_q16 <= 65536,
        ;
        assert(x <= 0 ==> 65536 * x <= y <= 0) by (nonlinear_arith)
            requires
                y == gain_q16 * x,
                0 <= gain_q16 <= 65536,
        ;
        let f = frame.update(i, smulwb_spec(gain_q16, x as i32) as i16);
        let g = gain_q16.wrapping_add(slope_q16);
        if g <= 65536 {
            lemma_fade_only_softens(f, g, slope_q16, i + 1, k);
        }
    }
}

/// The loudest subframe is the first with the largest gain, if one is positive.
pub proof fn lemma_loudest(gains: Seq<i32>, n: int)
    requires
        0 <= n <= gains.len(),
    ensures
        ({
            let (g, k) = loudest_spec(gains, n);
            &&& g >= 0
            &&& forall|i: int| 0 <= i < n ==> #[trigger] gains[i] <= g
            &&& g > 0 ==> {
                &&& 0 <= k < n
                &&& gains[k] == g
                &&& forall|i: int| 0 <= i < k ==> #[trigger] gains[i] < g
            }
        }),
    decreases n,
{
    if n > 0 {
        lemma_loudest(gains, n - 1);
    }
}

/// Comfort noise leaves a received frame alone, and a lost one teaches it
/// nothing of the noise.
pub proof fn lemma_noise_and_losses(
    c: CngView,
    p: PlcView,
    ctrl: CtrlView,
    exc: Seq<i32>,
    samples: Seq<i16>,
    frame: FrameInfo,
    fs_khz: u32,
    loss_cnt: i32,
    prev_signal_type: i8,
    prev_nlsf: Seq<i16>,
)
    ensures
        ({
            let r = cng_spec(
                c,
                p,
                ctrl,
                exc,
                samples,
                frame,
                fs_khz,
                loss_cnt,
                prev_signal_type,
                prev_nlsf,
            );
            let a = c.at_rate(fs_khz, frame.lpc_order as int);
            &&& loss_cnt == 0 ==> r.1 == samples && r.0.rand_seed == a.rand_seed
            &&& loss_cnt != 0 || prev_signal_type != TYPE_NO_VOICE_ACTIVITY ==> {
                &&& r.0.cng_smth_gain_q16 == a.cng_smth_gain_q16
                &&& r.0.cng_smth_nlsf_q15 == a.cng_smth_nlsf_q15
                &&& r.0.cng_exc_buf_q14 == a.cng_exc_buf_q14
            }
        }),
{
    reveal(cng_spec);
}

/// Nearer to zero on the same side; a positive number strictly so.
pub open spec fn weaker(new: int, old: int) -> bool {
    &&& old > 0 ==> 0 <= new < old
    &&& old <= 0 ==> old <= new <= 0
}

proof fn lemma_weaker(g: i32, b: i16)
    requires
        0 <= g <= 32767,
    ensures
        weaker(((smulbb_spec(g, b as i32) >> 15u32) as i16) as int, b as int),
        weaker(((smulbb_spec(b as i32, g) >> 15u32) as i16) as int, b as int),
{
    reveal(smulbb_spec);
    assert((b as i32) as i16 == b && g as i16 == g);
    let y = g * b;
    assert(b * g == y) by (nonlinear_arith)
        requires
            y == g * b,
    ;
    assert((b > 0 ==> 0 <= y < 32768 * b) && (b <= 0 ==> 32768 * b <= y <= 0)) by (nonlinear_arith)
        requires
            y == g * b,
            0 <= g <= 32767,
    ;
    lemma2_to64();
    lemma_shr_i32(y as i32, 15);
}

/// Taps, noise and lag between two subframes of a concealed frame, against
/// those at its start.
spec fn receding(inp: ConcealInput, c: ConcealView, a: ConcealView, strictly: bool) -> bool {
    &&& a.b_q14.len() == 5
    &&& forall|i: int|
        0 <= i < 5 ==> weaker((#[trigger] a.b_q14[i]) as int, c.b_q14[i] as int) || (!strictly
            && a.b_q14[i] == c.b_q14[i])
    &&& weaker(a.scale_q14 as int, c.scale_q14 as int) || (!strictly && a.scale_q14 == c.scale_q14)
    &&& c.pitch_l_q8 <= a.pitch_l_q8 <= 18 * inp.fs_khz * 256
}

proof fn lemma_recedes(inp: ConcealInput, c: ConcealView, k: int)
    requires
        0 <= inp.harm_gain_q15 <= 32767,
        0 <= inp.rand_gain_q15 <= 32767,
        valid_fs(inp.fs_khz),
        c.b_q14.len() == 5,
        512 <= c.pitch_l_q8 <= 18 * inp.fs_khz * 256,
        k >= 0,
    ensures
        receding(inp, c, conceal_subframes_spec(inp, c, k), k > 0),
    decreases k,
{
    if k > 0 {
        lemma_recedes(inp, c, k - 1);
        let a = conceal_subframes_spec(inp, c, k - 1);
        let n = conceal_step_spec(inp, a, k - 1);
        assert forall|i: int| 0 <= i < 5 implies weaker(
            (#[trigger] n.b_q14[i]) as int,
            c.b_q14[i] as int,
        ) by {
            lemma_weaker(inp.harm_gain_q15, a.b_q14[i]);
            assert(weaker(a.b_q14[i] as int, c.b_q14[i] as int) || a.b_q14[i] == c.b_q14[i]);
        }
        lemma_weaker(inp.rand_gain_q15, a.scale_q14);
        reveal(smulwb_spec);
        let l = a.pitch_l_q8;
        assert(0 <= l * 655 <= 73728 * 655);
    }
}

/// Concealment fades: from loss to loss the pitch taps get weaker, the noise
/// too, and the lag does not shorten and stays within 18 ms.
pub proof fn lemma_concealment_fades(
    p: PlcView,
    st: SynthView,
    exc: Seq<i32>,
    frame: FrameInfo,
    fs_khz: u32,
    loss_cnt: i32,
    prev_signal_type: i8,
    first_frame_after_reset: bool,
)
    requires
        valid_fs(fs_khz as int),
        valid_nb(frame.nb_subfr as int),
        p.ltp_coef_q14.len() == 5,
        512 <= p.pitch_l_q8 <= 18 * fs_khz * 256,
        loss_cnt > 0,
    ensures
        ({
            let r = plc_conceal_spec(
                p,
                st,
                exc,
                frame,
                fs_khz,
                loss_cnt,
                prev_signal_type,
                first_frame_after_reset,
            );
            &&& forall|i: int|
                0 <= i < 5 ==> weaker(
                    (#[trigger] r.plc.ltp_coef_q14[i]) as int,
                    p.ltp_coef_q14[i] as int,
                )
            &&& weaker(r.plc.rand_scale_q14 as int, p.rand_scale_q14 as int)
            &&& p.pitch_l_q8 <= r.plc.pitch_l_q8 <= 18 * fs_khz * 256
            &&& r.lag == rshift_round_spec(r.plc.pitch_l_q8, 8)
            &&& r.frame.len() == frame.spec_frame_length()
            &&& r.plc.prev_gain_q16 == p.prev_gain_q16
        }),
{
    reveal(plc_conceal_spec);
    let lpc = conceal_lpc_spec(p, frame.lpc_order as int, first_frame_after_reset);
    let inp = conceal_input_spec(p, exc, frame, fs_khz, loss_cnt, prev_signal_type, lpc);
    let c = conceal_start_spec(p, st, frame, loss_cnt, prev_signal_type, lpc);
    assert(0 <= HARM_ATT_Q15@[1] <= 32767);
    assert(0 <= PLC_RAND_ATTENUATE_V_Q15@[1] <= 32767);
    assert(0 <= PLC_RAND_ATTENUATE_UV_Q15@[1] <= 32767);
    lemma_recedes(inp, c, frame.nb_subfr as int);
    let a = conceal_subframes_spec(inp, c, frame.nb_subfr as int);
    assert forall|i: int| 0 <= i < 5 implies weaker(
        (#[trigger] a.b_q14[i]) as int,
        p.ltp_coef_q14[i] as int,
    ) by {
        assert(weaker(a.b_q14[i] as int, c.b_q14[i] as int));
    }
}

} // verus!
