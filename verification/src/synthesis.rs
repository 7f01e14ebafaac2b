//! Inverse noise-shaping quantization, long-term prediction and short-term
//! synthesis.
use crate::decode_indices::{IndicesView, SideInfoIndices, MAX_NB_SUBFR, TYPE_VOICED};
use crate::excitation::{excitation_spec, reconstruct_excitation};
use crate::nlsf::{inverse32_varq, inverse32_varq_spec};
use crate::sigproc::{
    add_lshift32, add_sat32, div32_varq, div32_varq_spec, lemma_rshift_round_bounds,
    lpc_analysis_filter, lpc_analysis_filter_spec, lshift_sat32, lshift_sat32_spec,
    rshift_round, rshift_round_spec, sat16, sat16_spec, sat32_spec, smlawb, smlawb_spec, smulwb,
    smulwb_spec, smulww, smulww_spec,
};
use vstd::prelude::*;

verus! {

pub const SUB_FRAME_LENGTH_MS: usize = 5;

pub const LTP_MEM_LENGTH_MS: usize = 20;

/// 20 ms at 16 kHz.
pub const MAX_FRAME_LENGTH: usize = 320;

/// 5 ms at 16 kHz.
pub const MAX_SUB_FRAME_LENGTH: usize = 80;

/// Taps of the long-term predictor.
pub const LTP_ORDER: usize = 5;

/// 0.25 in Q14: the only tap of the filter that eases the change from voiced
/// concealment to an unvoiced frame.
pub const LTP_PLC_CENTER_Q14: i16 = 4096;

// ---------------------------------------------------------------------
// Geometry
// ---------------------------------------------------------------------

/// Lengths of a frame at an internal rate.
#[derive(Clone, Copy, Debug, PartialEq, Eq, Structural)]
pub struct FrameInfo {
    /// 4 in frames of 20 ms, 2 in frames of 10 ms.
    pub nb_subfr: usize,
    /// Samples in 5 ms.
    pub subfr_length: usize,
    /// 16 at 16 kHz, else 10.
    pub lpc_order: usize,
    /// Samples in 20 ms.
    pub ltp_mem_length: usize,
}

/// The internal rates in kHz.
pub open spec fn valid_fs(fs_khz: int) -> bool {
    fs_khz == 8 || fs_khz == 12 || fs_khz == 16
}

/// The numbers of subframes in a frame.
pub open spec fn valid_nb(nb_subfr: int) -> bool {
    nb_subfr == 2 || nb_subfr == 4
}

impl FrameInfo {
    pub open spec fn spec_new(fs_khz: int, nb_subfr: int) -> FrameInfo {
        FrameInfo {
            nb_subfr: nb_subfr as usize,
            subfr_length: (5 * fs_khz) as usize,
            lpc_order: if fs_khz == 16 {
                16
            } else {
                10
            },
            ltp_mem_length: (20 * fs_khz) as usize,
        }
    }

    /// The geometry of one of the internal rates.
    pub open spec fn wf(self) -> bool {
        exists|fs: int, nb: int|
            valid_fs(fs) && valid_nb(nb) && self == #[trigger] FrameInfo::spec_new(fs, nb)
    }

    pub open spec fn spec_frame_length(self) -> int {
        self.nb_subfr * self.subfr_length
    }

    /// The geometry of an internal rate and a frame duration.
    pub fn new(fs_khz: u32, nb_subfr: usize) -> (f: FrameInfo)
        requires
            valid_fs(fs_khz as int),
            valid_nb(nb_subfr as int),
        ensures
            f == FrameInfo::spec_new(fs_khz as int, nb_subfr as int),
            f.wf(),
    {
        let f: FrameInfo = FrameInfo {
            nb_subfr,
            subfr_length: SUB_FRAME_LENGTH_MS * fs_khz as usize,
            lpc_order: if fs_khz == 16 {
                16
            } else {
                10
            },
            ltp_mem_length: LTP_MEM_LENGTH_MS * fs_khz as usize,
        };
        assert(f == FrameInfo::spec_new(fs_khz as int, nb_subfr as int));
        f
    }

    /// Samples in the frame.
    pub fn frame_length(&self) -> (n: usize)
        requires
            self.wf(),
        ensures
            n == self.spec_frame_length(),
            n <= 320,
    {
        proof {
            self.lemma_bounds();
        }
        self.nb_subfr * self.subfr_length
    }

    /// The lengths that occur.
    pub proof fn lemma_bounds(self)
        requires
            self.wf(),
        ensures
            self.nb_subfr == 2 || self.nb_subfr == 4,
            self.subfr_length == 40 || self.subfr_length == 60 || self.subfr_length == 80,
            self.lpc_order == 10 || self.lpc_order == 16,
            self.ltp_mem_length == 4 * self.subfr_length,
            self.spec_frame_length() == self.nb_subfr * self.subfr_length,
            self.nb_subfr == 2 ==> self.spec_frame_length() == 2 * self.subfr_length,
            self.nb_subfr == 4 ==> self.spec_frame_length() == 4 * self.subfr_length,
            self.lpc_order == 16 <==> self.subfr_length == 80,
    {
    }
}

// ---------------------------------------------------------------------
// Control data and state
// ---------------------------------------------------------------------

/// Parameters of a frame.
#[derive(Clone, Copy, Debug, PartialEq, Eq)]
pub struct DecoderControl {
    /// Pitch lag per subframe in samples; zero unless the frame is voiced.
    pub pitch_l: [i32; 4],
    /// Gain per subframe in Q16.
    pub gains_q16: [i32; 4],
    /// Prediction filters of the two halves of the frame in Q12.
    pub pred_coef_q12: [[i16; 16]; 2],
    /// Long-term filter per subframe in Q14.
    pub ltp_coef_q14: [i16; 20],
    /// Long-term scaling in Q14.
    pub ltp_scale_q14: i16,
}

/// The contents of [`DecoderControl`].
#[verifier::ext_equal]
pub struct CtrlView {
    pub pitch_l: Seq<i32>,
    pub gains_q16: Seq<i32>,
    pub pred0_q12: Seq<i16>,
    pub pred1_q12: Seq<i16>,
    pub ltp_coef_q14: Seq<i16>,
    pub ltp_scale_q14: i16,
}

impl View for DecoderControl {
    type V = CtrlView;

    open spec fn view(&self) -> CtrlView {
        CtrlView {
            pitch_l: self.pitch_l@,
            gains_q16: self.gains_q16@,
            pred0_q12: self.pred_coef_q12@[0]@,
            pred1_q12: self.pred_coef_q12@[1]@,
            ltp_coef_q14: self.ltp_coef_q14@,
            ltp_scale_q14: self.ltp_scale_q14,
        }
    }
}

/// A sequence of zeros.
pub open spec fn zeros_i16(n: nat) -> Seq<i16> {
    Seq::new(n, |i: int| 0i16)
}

/// A sequence of zeros.
pub open spec fn zeros_i32(n: nat) -> Seq<i32> {
    Seq::new(n, |i: int| 0i32)
}

impl CtrlView {
    pub open spec fn zero() -> CtrlView {
        CtrlView {
            pitch_l: zeros_i32(4),
            gains_q16: zeros_i32(4),
            pred0_q12: zeros_i16(16),
            pred1_q12: zeros_i16(16),
            ltp_coef_q14: zeros_i16(20),
            ltp_scale_q14: 0,
        }
    }

    /// The lengths of the arrays.
    pub open spec fn shaped(self) -> bool {
        &&& self.pitch_l.len() == 4
        &&& self.gains_q16.len() == 4
        &&& self.pred0_q12.len() == 16
        &&& self.pred1_q12.len() == 16
        &&& self.ltp_coef_q14.len() == 20
    }
}

impl Default for DecoderControl {
    fn default() -> (r: DecoderControl)
        ensures
            r@ == CtrlView::zero(),
    {
        let r: DecoderControl = DecoderControl {
            pitch_l: [0; 4],
            gains_q16: [0; 4],
            pred_coef_q12: [[0; 16], [0; 16]],
            ltp_coef_q14: [0; 20],
            ltp_scale_q14: 0,
        };
        assert(r@ =~= CtrlView::zero());
        r
    }
}

/// What the synthesis carries from frame to frame.
#[derive(Clone, Copy, Debug, PartialEq, Eq)]
pub struct SynthesisState {
    /// The last 16 outputs of the synthesis filter in Q14.
    pub s_lpc_q14_buf: [i32; 16],
    /// The last decoded samples, followed by room for two subframes.
    pub out_buf: [i16; 480],
    /// Gain of the previous subframe in Q16.
    pub prev_gain_q16: i32,
}

/// The contents of [`SynthesisState`].
#[verifier::ext_equal]
pub struct SynthView {
    pub s_lpc_q14_buf: Seq<i32>,
    pub out_buf: Seq<i16>,
    pub prev_gain_q16: i32,
}

impl View for SynthesisState {
    type V = SynthView;

    open spec fn view(&self) -> SynthView {
        SynthView {
            s_lpc_q14_buf: self.s_lpc_q14_buf@,
            out_buf: self.out_buf@,
            prev_gain_q16: self.prev_gain_q16,
        }
    }
}

impl SynthView {
    /// All zero but for a previous gain of one.
    pub open spec fn reset_state() -> SynthView {
        SynthView {
            s_lpc_q14_buf: zeros_i32(16),
            out_buf: zeros_i16(480),
            prev_gain_q16: 65536,
        }
    }

    /// The buffer after a frame: what was there moves down by the length of
    /// the frame, which takes the end of the first `mem` samples.
    pub open spec fn with_frame(self, xq: Seq<i16>, mem: int) -> SynthView {
        SynthView {
            out_buf: self.out_buf.subrange(xq.len() as int, mem) + xq + self.out_buf.subrange(
                mem,
                self.out_buf.len() as int,
            ),
            ..self
        }
    }
}

impl Default for SynthesisState {
    fn default() -> (r: SynthesisState)
        ensures
            r@ == SynthView::reset_state(),
    {
        let r: SynthesisState = SynthesisState {
            s_lpc_q14_buf: [0; 16],
            out_buf: [0; 480],
            prev_gain_q16: 65536,
        };
        assert(r@ =~= SynthView::reset_state());
        r
    }
}

impl SynthesisState {
    /// Back to the state of a new decoder.
    pub fn reset(&mut self)
        ensures
            final(self)@ == SynthView::reset_state(),
    {
        *self = SynthesisState::default();
    }

    /// Slides the buffer by the length of a frame and appends the frame to
    /// the last `ltp_mem_length` samples.
    pub fn update_out_buf(&mut self, xq: &[i16], ltp_mem_length: usize)
        requires
            xq@.len() <= ltp_mem_length <= 480,
        ensures
            final(self)@ == old(self)@.with_frame(xq@, ltp_mem_length as int),
    {
        let n: usize = xq.len();
        let ghost before = self.out_buf@;
        let keep: usize = ltp_mem_length - n;
        let mut i: usize = 0;
        while i < keep
            invariant
                n + keep <= 480,
                i <= keep,
                before.len() == 480,
                self.s_lpc_q14_buf == old(self).s_lpc_q14_buf,
                self.prev_gain_q16 == old(self).prev_gain_q16,
                forall|k: int| 0 <= k < i ==> #[trigger] self.out_buf@[k] == before[k + n],
                forall|k: int| i <= k < 480 ==> #[trigger] self.out_buf@[k] == before[k],
            decreases keep - i,
        {
            let v: i16 = self.out_buf[i + n];
            self.out_buf[i] = v;
            i = i + 1;
        }
        let mut i: usize = 0;
        while i < n
            invariant
                n == xq@.len(),
                n + keep == ltp_mem_length,
                ltp_mem_length <= 480,
                i <= n,
                before.len() == 480,
                self.s_lpc_q14_buf == old(self).s_lpc_q14_buf,
                self.prev_gain_q16 == old(self).prev_gain_q16,
                forall|k: int| 0 <= k < keep ==> #[trigger] self.out_buf@[k] == before[k + n],
                forall|k: int| keep <= k < keep + i ==> #[trigger] self.out_buf@[k] == xq@[k - keep],
                forall|k: int| ltp_mem_length <= k < 480 ==> #[trigger] self.out_buf@[k] == before[k],
            decreases n - i,
        {
            self.out_buf[keep + i] = xq[i];
            i = i + 1;
        }
        assert(self@ =~= old(self)@.with_frame(xq@, ltp_mem_length as int));
    }
}

// ---------------------------------------------------------------------
// Short-term synthesis
// ---------------------------------------------------------------------

/// Prediction of the sample at `pos` from its first `j` predecessors, in Q10,
/// with a bias of half the order against the downward rounding.
pub open spec fn lpc_pred_spec(s: Seq<i32>, a_q12: Seq<i16>, order: int, pos: int, j: int) -> i32
    decreases j,
{
    if j <= 0 {
        (order / 2) as i32
    } else {
        smlawb_spec(lpc_pred_spec(s, a_q12, order, pos, j - 1), s[pos - j], a_q12[j - 1] as i32)
    }
}

/// The filter history `hist` followed by the first `n` outputs for the
/// residual `res`, in Q14.
pub open spec fn lpc_synth_spec(
    hist: Seq<i32>,
    res: Seq<i32>,
    a_q12: Seq<i16>,
    order: int,
    n: int,
) -> Seq<i32>
    decreases n,
{
    if n <= 0 {
        hist
    } else {
        let s = lpc_synth_spec(hist, res, a_q12, order, n - 1);
        s.push(
            sat32_spec(
                res[n - 1] + lshift_sat32_spec(
                    lpc_pred_spec(s, a_q12, order, s.len() as int, order),
                    4,
                ),
            ),
        )
    }
}

/// An output sample: the filter output in Q14 times the gain in Q10.
pub open spec fn scaled_sample_spec(v: i32, gain_q10: i32) -> i16 {
    sat16_spec(rshift_round_spec(smulww_spec(v, gain_q10), 8))
}

pub proof fn lemma_lpc_synth_len(hist: Seq<i32>, res: Seq<i32>, a_q12: Seq<i16>, order: int, n: int)
    requires
        n >= 0,
    ensures
        lpc_synth_spec(hist, res, a_q12, order, n).len() == hist.len() + n,
    decreases n,
{
    if n > 0 {
        lemma_lpc_synth_len(hist, res, a_q12, order, n - 1);
    }
}

/// Later outputs do not change earlier ones.
pub proof fn lemma_lpc_synth_prefix(
    hist: Seq<i32>,
    res: Seq<i32>,
    a_q12: Seq<i16>,
    order: int,
    n: int,
    m: int,
    i: int,
)
    requires
        0 <= n <= m,
        0 <= i < hist.len() + n,
    ensures
        lpc_synth_spec(hist, res, a_q12, order, m)[i] == lpc_synth_spec(
            hist,
            res,
            a_q12,
            order,
            n,
        )[i],
    decreases m,
{
    if n < m {
        lemma_lpc_synth_prefix(hist, res, a_q12, order, n, m - 1, i);
        lemma_lpc_synth_len(hist, res, a_q12, order, m - 1);
    }
}

/// Predicts the sample behind the first `pos` entries of `s`.
pub fn lpc_pred(s: &[i32], a_q12: &[i16], order: usize, pos: usize) -> (r: i32)
    requires
        order <= pos <= s@.len(),
        order <= a_q12@.len(),
        order <= 16,
    ensures
        r == lpc_pred_spec(s@, a_q12@, order as int, pos as int, order as int),
{
    let mut pred: i32 = (order / 2) as i32;
    let mut j: usize = 0;
    while j < order
        invariant
            order <= pos <= s@.len(),
            order <= a_q12@.len(),
            j <= order,
            pred == lpc_pred_spec(s@, a_q12@, order as int, pos as int, j as int),
        decreases order - j,
    {
        pred = smlawb(pred, s[pos - 1 - j], a_q12[j] as i32);
        j = j + 1;
    }
    pred
}

/// A prediction only looks at the samples before its own.
pub proof fn lemma_lpc_pred_ext(s: Seq<i32>, t: Seq<i32>, a_q12: Seq<i16>, order: int, pos: int, j: int)
    requires
        0 <= j <= pos,
        pos <= s.len(),
        pos <= t.len(),
        forall|i: int| 0 <= i < pos ==> #[trigger] s[i] == t[i],
    ensures
        lpc_pred_spec(s, a_q12, order, pos, j) == lpc_pred_spec(t, a_q12, order, pos, j),
    decreases j,
{
    if j > 0 {
        lemma_lpc_pred_ext(s, t, a_q12, order, pos, j - 1);
        assert(s[pos - j] == t[pos - j]);
    }
}

/// A prediction in a longer sequence is the one in its part.
proof fn lemma_lpc_pred_shift(
    s: Seq<i32>,
    t: Seq<i32>,
    off: int,
    a_q12: Seq<i16>,
    order: int,
    pos: int,
    j: int,
)
    requires
        0 <= j <= pos,
        forall|i: int| 0 <= i < pos ==> #[trigger] s[i] == t[i + off],
    ensures
        lpc_pred_spec(s, a_q12, order, pos, j) == lpc_pred_spec(t, a_q12, order, pos + off, j),
    decreases j,
{
    if j > 0 {
        lemma_lpc_pred_shift(s, t, off, a_q12, order, pos, j - 1);
        assert(s[pos - j] == t[pos - j + off]);
    }
}

/// Runs the synthesis filter over the `n` residuals from `start` on, in
/// place; the 16 entries before them are the history.
pub fn lpc_synthesis_in_place(buf: &mut [i32], start: usize, a_q12: &[i16], order: usize, n: usize)
    requires
        order <= 16 <= start,
        order <= a_q12@.len(),
        start + n <= old(buf)@.len(),
    ensures
        final(buf)@.len() == old(buf)@.len(),
        final(buf)@.subrange(start - 16, start + n) == lpc_synth_spec(
            old(buf)@.subrange(start - 16, start as int),
            old(buf)@.subrange(start as int, start + n),
            a_q12@,
            order as int,
            n as int,
        ),
        forall|i: int|
            0 <= i < old(buf)@.len() && !(start <= i < start + n) ==> #[trigger] final(buf)@[i] == old(buf)@[i],
{
    let len: usize = buf.len();
    let ghost hist = buf@.subrange(start - 16, start as int);
    let ghost res = buf@.subrange(start as int, start + n);
    let mut i: usize = 0;
    assert(buf@.subrange(start - 16, start + 0) =~= lpc_synth_spec(hist, res, a_q12@, order as int, 0));
    while i < n
        invariant
            order <= 16 <= start,
            order <= a_q12@.len(),
            start + n <= buf@.len(),
            buf@.len() == len,
            buf@.len() == old(buf)@.len(),
            i <= n,
            hist.len() == 16,
            res == old(buf)@.subrange(start as int, start + n),
            buf@.subrange(start - 16, start + i) == lpc_synth_spec(
                hist,
                res,
                a_q12@,
                order as int,
                i as int,
            ),
            forall|k: int|
                0 <= k < buf@.len() && !(start <= k < start + i) ==> #[trigger] buf@[k] == old(buf)@[k],
        decreases n - i,
    {
        let ghost s = buf@.subrange(start - 16, start + i);
        let pred: i32 = lpc_pred(buf, a_q12, order, start + i);
        proof {
            assert forall|k: int| 0 <= k < 16 + i implies #[trigger] s[k] == buf@[k + (start - 16)] by {
            }
            lemma_lpc_pred_shift(s, buf@, start - 16, a_q12@, order as int, 16 + i, order as int);
            assert(res[i as int] == buf@[start + i]);
        }
        let v: i32 = add_sat32(buf[start + i], lshift_sat32(pred, 4));
        buf[start + i] = v;
        proof {
            assert(buf@.subrange(start - 16, start + i + 1) =~= s.push(v));
        }
        i = i + 1;
    }
}

/// Runs the synthesis filter over a subframe. The first 16 entries of
/// `s_lpc_q14` are the history; the outputs follow them, and go to `xq` from
/// `xq_base` on, scaled by the gain.
fn lpc_synthesis_subframe(
    s_lpc_q14: &mut [i32; 96],
    pres_q14: &[i32],
    a_q12: &[i16; 16],
    lpc_order: usize,
    gain_q10: i32,
    xq: &mut [i16],
    xq_base: usize,
)
    requires
        lpc_order <= 16,
        pres_q14@.len() <= 80,
        xq_base + pres_q14@.len() <= old(xq)@.len(),
    ensures
        final(s_lpc_q14)@.subrange(0, (16 + pres_q14@.len()) as int) == lpc_synth_spec(
            old(s_lpc_q14)@.subrange(0, 16),
            pres_q14@,
            a_q12@,
            lpc_order as int,
            pres_q14@.len() as int,
        ),
        final(xq)@.len() == old(xq)@.len(),
        forall|i: int|
            0 <= i < final(xq)@.len() ==> #[trigger] final(xq)@[i] == (if xq_base <= i < xq_base
                + pres_q14@.len() {
                scaled_sample_spec(final(s_lpc_q14)@[16 + i - xq_base], gain_q10)
            } else {
                old(xq)@[i]
            }),
{
    let n: usize = pres_q14.len();
    let xq_len: usize = xq.len();
    let ghost hist = s_lpc_q14@.subrange(0, 16);
    let ghost res = pres_q14@;
    let mut i: usize = 0;
    assert(s_lpc_q14@.subrange(0, 16) =~= lpc_synth_spec(hist, res, a_q12@, lpc_order as int, 0));
    while i < n
        invariant
            n == res.len(),
            res == pres_q14@,
            n <= 80,
            i <= n,
            lpc_order <= 16,
            hist.len() == 16,
            xq@.len() == xq_len,
            xq@.len() == old(xq)@.len(),
            xq_base + n <= xq_len,
            s_lpc_q14@.subrange(0, 16 + i) == lpc_synth_spec(
                hist,
                res,
                a_q12@,
                lpc_order as int,
                i as int,
            ),
            forall|k: int|
                0 <= k < xq@.len() ==> #[trigger] xq@[k] == (if xq_base <= k < xq_base + i {
                    scaled_sample_spec(s_lpc_q14@[16 + k - xq_base], gain_q10)
                } else {
                    old(xq)@[k]
                }),
        decreases n - i,
    {
        let ghost s = s_lpc_q14@.subrange(0, 16 + i);
        let ghost before = s_lpc_q14@;
        let pred: i32 = lpc_pred(s_lpc_q14, a_q12, lpc_order, 16 + i);
        proof {
            lemma_lpc_pred_ext(before, s, a_q12@, lpc_order as int, 16 + i, lpc_order as int);
        }
        let v: i32 = add_sat32(pres_q14[i], lshift_sat32(pred, 4));
        s_lpc_q14[16 + i] = v;
        xq[xq_base + i] = sat16(rshift_round(smulww(v, gain_q10), 8));
        proof {
            assert(s_lpc_q14@.subrange(0, 16 + i + 1) =~= s.push(v));
        }
        i = i + 1;
    }
}

// ---------------------------------------------------------------------
// Long-term prediction
// ---------------------------------------------------------------------

/// Five-tap prediction in Q13 around the newest tap `tap`.
pub open spec fn ltp_pred_spec(ltp: Seq<i32>, b_q14: Seq<i16>, tap: int) -> i32 {
    smlawb_spec(
        smlawb_spec(
            smlawb_spec(
                smlawb_spec(
                    smlawb_spec(2, ltp[tap], b_q14[0] as i32),
                    ltp[tap - 1],
                    b_q14[1] as i32,
                ),
                ltp[tap - 2],
                b_q14[2] as i32,
            ),
            ltp[tap - 3],
            b_q14[3] as i32,
        ),
        ltp[tap - 4],
        b_q14[4] as i32,
    )
}

pub fn ltp_pred(ltp: &[i32], b_q14: &[i16; 5], tap: usize) -> (r: i32)
    requires
        4 <= tap < ltp@.len(),
    ensures
        r == ltp_pred_spec(ltp@, b_q14@, tap as int),
{
    let mut pred: i32 = 2;
    pred = smlawb(pred, ltp[tap], b_q14[0] as i32);
    pred = smlawb(pred, ltp[tap - 1], b_q14[1] as i32);
    pred = smlawb(pred, ltp[tap - 2], b_q14[2] as i32);
    pred = smlawb(pred, ltp[tap - 3], b_q14[3] as i32);
    smlawb(pred, ltp[tap - 4], b_q14[4] as i32)
}

/// The residual of a sample: its excitation plus the long-term prediction.
pub open spec fn ltp_residual_spec(ltp: Seq<i32>, exc: i32, b_q14: Seq<i16>, tap: int) -> i32 {
    exc.wrapping_add(ltp_pred_spec(ltp, b_q14, tap).wrapping_shl(1))
}

/// The long-term state after `n` samples written from `bi` on.
pub open spec fn ltp_synth_spec(
    ltp: Seq<i32>,
    exc: Seq<i32>,
    b_q14: Seq<i16>,
    lag: int,
    bi: int,
    n: int,
) -> Seq<i32>
    decreases n,
{
    if n <= 0 {
        ltp
    } else {
        let s = ltp_synth_spec(ltp, exc, b_q14, lag, bi, n - 1);
        s.update(
            bi + n - 1,
            ltp_residual_spec(s, exc[n - 1], b_q14, bi + n - 1 - lag + 2).wrapping_shl(1),
        )
    }
}

/// The residuals of `exc` under long-term prediction.
pub open spec fn ltp_residuals_spec(
    ltp: Seq<i32>,
    exc: Seq<i32>,
    b_q14: Seq<i16>,
    lag: int,
    bi: int,
) -> Seq<i32> {
    Seq::new(
        exc.len(),
        |i: int|
            ltp_residual_spec(
                ltp_synth_spec(ltp, exc, b_q14, lag, bi, i),
                exc[i],
                b_q14,
                bi + i - lag + 2,
            ),
    )
}

/// The last `lag + 2` entries before `bi` replaced by the rewhitened output
/// that ends at `bi`, scaled.
pub open spec fn rewhitened_spec(
    ltp: Seq<i32>,
    out_buf: Seq<i16>,
    a_q12: Seq<i16>,
    order: int,
    lag: int,
    bi: int,
    inv_gain_q31: i32,
) -> Seq<i32> {
    let len = lag + order + 2;
    let white = lpc_analysis_filter_spec(out_buf.subrange(bi - len, bi), a_q12, order);
    Seq::new(
        ltp.len(),
        |t: int|
            if bi - lag - 2 <= t < bi {
                smulwb_spec(inv_gain_q31, white[len - (bi - t)] as i32)
            } else {
                ltp[t]
            },
    )
}

/// The last `lag + 2` entries before `bi` rescaled.
pub open spec fn rescaled_spec(ltp: Seq<i32>, adj_q16: i32, lag: int, bi: int) -> Seq<i32> {
    Seq::new(
        ltp.len(),
        |t: int|
            if bi - lag - 2 <= t < bi {
                smulww_spec(adj_q16, ltp[t])
            } else {
                ltp[t]
            },
    )
}

fn rewhiten(
    s_ltp_q15: &mut [i32; 640],
    out_buf: &[i16; 480],
    a_q12: &[i16; 16],
    order: usize,
    lag: usize,
    bi: usize,
    inv_gain_q31: i32,
)
    requires
        1 <= order <= 16,
        lag + order + 2 <= 320,
        lag + order + 2 <= bi <= 480,
    ensures
        final(s_ltp_q15)@ == rewhitened_spec(
            old(s_ltp_q15)@,
            out_buf@,
            a_q12@,
            order as int,
            lag as int,
            bi as int,
            inv_gain_q31,
        ),
{
    let len: usize = lag + order + 2;
    let mut s_ltp: [i16; 320] = [0; 320];
    let (white, _rest) = s_ltp.split_at_mut(len);
    lpc_analysis_filter(white, &out_buf[bi - len..bi], a_q12, order);
    let ghost spec = rewhitened_spec(
        s_ltp_q15@,
        out_buf@,
        a_q12@,
        order as int,
        lag as int,
        bi as int,
        inv_gain_q31,
    );
    let mut i: usize = 0;
    while i < lag + 2
        invariant
            len == lag + order + 2,
            lag + order + 2 <= 320,
            len <= bi <= 480,
            i <= lag + 2,
            white@.len() == len,
            white@ == lpc_analysis_filter_spec(
                out_buf@.subrange(bi - len, bi as int),
                a_q12@,
                order as int,
            ),
            spec == rewhitened_spec(
                old(s_ltp_q15)@,
                out_buf@,
                a_q12@,
                order as int,
                lag as int,
                bi as int,
                inv_gain_q31,
            ),
            forall|t: int| bi - i <= t < bi ==> #[trigger] s_ltp_q15@[t] == spec[t],
            forall|t: int|
                0 <= t < 640 && !(bi - i <= t < bi) ==> #[trigger] s_ltp_q15@[t] == old(
                    s_ltp_q15
                )@[t],
        decreases lag + 2 - i,
    {
        s_ltp_q15[bi - i - 1] = smulwb(inv_gain_q31, white[len - i - 1] as i32);
        i = i + 1;
    }
    assert(s_ltp_q15@ =~= spec);
}

fn rescale_ltp(s_ltp_q15: &mut [i32; 640], adj_q16: i32, lag: usize, bi: usize)
    requires
        lag + 2 <= bi <= 640,
    ensures
        final(s_ltp_q15)@ == rescaled_spec(old(s_ltp_q15)@, adj_q16, lag as int, bi as int),
{
    let ghost spec = rescaled_spec(s_ltp_q15@, adj_q16, lag as int, bi as int);
    let mut i: usize = 0;
    while i < lag + 2
        invariant
            lag + 2 <= bi <= 640,
            i <= lag + 2,
            spec == rescaled_spec(old(s_ltp_q15)@, adj_q16, lag as int, bi as int),
            forall|t: int| bi - i <= t < bi ==> #[trigger] s_ltp_q15@[t] == spec[t],
            forall|t: int|
                0 <= t < 640 && !(bi - i <= t < bi) ==> #[trigger] s_ltp_q15@[t] == old(
                    s_ltp_q15
                )@[t],
        decreases lag + 2 - i,
    {
        s_ltp_q15[bi - i - 1] = smulww(adj_q16, s_ltp_q15[bi - i - 1]);
        i = i + 1;
    }
    assert(s_ltp_q15@ =~= spec);
}

fn ltp_synthesis(
    s_ltp_q15: &mut [i32; 640],
    exc: &[i32],
    b_q14: &[i16; 5],
    lag: usize,
    bi: usize,
    res_q14: &mut [i32; 80],
)
    requires
        exc@.len() <= 80,
        lag + 2 <= bi,
        bi + exc@.len() <= 640,
        bi + exc@.len() + 2 - lag <= 640,
    ensures
        final(s_ltp_q15)@ == ltp_synth_spec(
            old(s_ltp_q15)@,
            exc@,
            b_q14@,
            lag as int,
            bi as int,
            exc@.len() as int,
        ),
        final(res_q14)@.subrange(0, exc@.len() as int) == ltp_residuals_spec(
            old(s_ltp_q15)@,
            exc@,
            b_q14@,
            lag as int,
            bi as int,
        ),
{
    let n: usize = exc.len();
    let ghost res = ltp_residuals_spec(s_ltp_q15@, exc@, b_q14@, lag as int, bi as int);
    let mut i: usize = 0;
    while i < n
        invariant
            n == exc@.len(),
            n <= 80,
            lag + 2 <= bi,
            bi + n <= 640,
            bi + n + 2 - lag <= 640,
            i <= n,
            res == ltp_residuals_spec(old(s_ltp_q15)@, exc@, b_q14@, lag as int, bi as int),
            s_ltp_q15@ == ltp_synth_spec(
                old(s_ltp_q15)@,
                exc@,
                b_q14@,
                lag as int,
                bi as int,
                i as int,
            ),
            forall|k: int| 0 <= k < i ==> #[trigger] res_q14@[k] == res[k],
        decreases n - i,
    {
        let pred: i32 = ltp_pred(s_ltp_q15, b_q14, bi + i + 2 - lag);
        let r: i32 = add_lshift32(exc[i], pred, 1);
        res_q14[i] = r;
        s_ltp_q15[bi + i] = r.wrapping_shl(1);
        i = i + 1;
    }
    assert(res_q14@.subrange(0, n as int) =~= res);
}

// ---------------------------------------------------------------------
// The core decoder
// ---------------------------------------------------------------------

/// What the synthesis of a frame reads.
pub struct CoreInput {
    pub ctrl: CtrlView,
    pub exc: Seq<i32>,
    pub signal_type: i8,
    /// Whether the halves of the frame have filters of their own.
    pub interpolated: bool,
    pub frame: FrameInfo,
    pub loss_cnt: i32,
    pub prev_signal_type: i8,
    pub lag_prev: i32,
}

impl CoreInput {
    /// Subframes of an unvoiced frame after the loss of voiced ones that still
    /// get a soft long-term prediction with the previous lag.
    pub open spec fn eased(self, k: int) -> bool {
        self.loss_cnt != 0 && self.prev_signal_type == TYPE_VOICED && self.signal_type
            != TYPE_VOICED && k < 2
    }

    pub open spec fn voiced(self, k: int) -> bool {
        self.signal_type == TYPE_VOICED || self.eased(k)
    }

    /// Subframes that start from freshly whitened output.
    pub open spec fn rewhitens(self, k: int) -> bool {
        k == 0 || (k == 2 && self.interpolated)
    }

    pub open spec fn filter(self, k: int) -> Seq<i16> {
        if k < 2 {
            self.ctrl.pred0_q12
        } else {
            self.ctrl.pred1_q12
        }
    }

    pub open spec fn taps(self, k: int) -> Seq<i16> {
        if self.eased(k) {
            seq![0i16, 0i16, LTP_PLC_CENTER_Q14, 0i16, 0i16]
        } else {
            self.ctrl.ltp_coef_q14.subrange(5 * k, 5 * k + 5)
        }
    }

    pub open spec fn lag(self, k: int) -> int {
        if self.eased(k) {
            self.lag_prev as int
        } else {
            self.ctrl.pitch_l[k] as int
        }
    }

    /// Where subframe `k` starts in the long-term state.
    pub open spec fn start(self, k: int) -> int {
        self.frame.ltp_mem_length + k * self.frame.subfr_length
    }

    /// The lag of a voiced subframe reaches neither before the memory nor
    /// past the state.
    pub open spec fn lag_ok(self, k: int) -> bool {
        self.voiced(k) ==> {
            &&& 0 <= self.lag(k)
            &&& self.rewhitens(k) ==> self.lag(k) + self.frame.lpc_order + 2
                < self.frame.ltp_mem_length
            &&& self.lag(k) + 2 <= self.start(k)
            &&& self.start(k) + self.frame.subfr_length + 2 - self.lag(k) <= 640
        }
    }

    pub open spec fn wf(self) -> bool {
        &&& self.frame.wf()
        &&& self.ctrl.shaped()
        &&& self.exc.len() == self.frame.spec_frame_length()
        &&& forall|k: int|
            0 <= k < self.frame.nb_subfr ==> {
                &&& #[trigger] self.ctrl.gains_q16[k] != 0
                &&& self.ctrl.gains_q16[k] != i32::MIN
            }
        &&& forall|k: int| 0 <= k < self.frame.nb_subfr ==> #[trigger] self.lag_ok(k)
    }
}

/// The synthesis of a frame between two subframes.
#[verifier::ext_equal]
pub struct CoreView {
    pub s_lpc: Seq<i32>,
    pub ltp_q15: Seq<i32>,
    pub out_buf: Seq<i16>,
    pub prev_gain_q16: i32,
    pub xq: Seq<i16>,
}

/// How much the gain changed, in Q16.
pub open spec fn gain_adj_spec(prev_gain_q16: i32, gain_q16: i32) -> i32 {
    if gain_q16 != prev_gain_q16 {
        div32_varq_spec(prev_gain_q16, gain_q16, 16)
    } else {
        65536
    }
}

/// Filter state at the new gain.
pub open spec fn adjusted_lpc_spec(s_lpc: Seq<i32>, prev_gain_q16: i32, gain_q16: i32) -> Seq<i32> {
    if gain_q16 != prev_gain_q16 {
        Seq::new(16, |i: int| smulww_spec(gain_adj_spec(prev_gain_q16, gain_q16), s_lpc[i]))
    } else {
        s_lpc
    }
}

/// Output buffer with the first half of the frame behind the memory, as the
/// second half rewhitens it.
pub open spec fn core_out_buf_spec(inp: CoreInput, c: CoreView, k: int) -> Seq<i16> {
    let mem = inp.frame.ltp_mem_length as int;
    let n = 2 * inp.frame.subfr_length;
    if inp.voiced(k) && k == 2 && inp.rewhitens(k) {
        Seq::new(
            c.out_buf.len(),
            |i: int|
                if mem <= i < mem + n {
                    c.xq[i - mem]
                } else {
                    c.out_buf[i]
                },
        )
    } else {
        c.out_buf
    }
}

/// Long-term state at the start of a voiced subframe.
pub open spec fn core_ltp_spec(inp: CoreInput, c: CoreView, k: int) -> Seq<i32> {
    let gain = inp.ctrl.gains_q16[k];
    let inv = inverse32_varq_spec(gain, 47);
    let adj = gain_adj_spec(c.prev_gain_q16, gain);
    if inp.rewhitens(k) {
        rewhitened_spec(
            c.ltp_q15,
            core_out_buf_spec(inp, c, k),
            inp.filter(k),
            inp.frame.lpc_order as int,
            inp.lag(k),
            inp.start(k),
            if k == 0 {
                smulwb_spec(inv, inp.ctrl.ltp_scale_q14 as i32).wrapping_shl(2)
            } else {
                inv
            },
        )
    } else if adj != 65536 {
        rescaled_spec(c.ltp_q15, adj, inp.lag(k), inp.start(k))
    } else {
        c.ltp_q15
    }
}

/// Excitation of subframe `k`.
pub open spec fn core_exc_spec(inp: CoreInput, k: int) -> Seq<i32> {
    inp.exc.subrange(k * inp.frame.subfr_length, (k + 1) * inp.frame.subfr_length)
}

/// Input of the synthesis filter in subframe `k`.
pub open spec fn core_res_spec(inp: CoreInput, c: CoreView, k: int) -> Seq<i32> {
    if inp.voiced(k) {
        ltp_residuals_spec(
            core_ltp_spec(inp, c, k),
            core_exc_spec(inp, k),
            inp.taps(k),
            inp.lag(k),
            inp.start(k),
        )
    } else {
        core_exc_spec(inp, k)
    }
}

/// Filter history and outputs of subframe `k`.
pub open spec fn core_synth_spec(inp: CoreInput, c: CoreView, k: int) -> Seq<i32> {
    lpc_synth_spec(
        adjusted_lpc_spec(c.s_lpc, c.prev_gain_q16, inp.ctrl.gains_q16[k]),
        core_res_spec(inp, c, k),
        inp.filter(k),
        inp.frame.lpc_order as int,
        inp.frame.subfr_length as int,
    )
}

/// One subframe.
pub open spec fn core_step_spec(inp: CoreInput, c: CoreView, k: int) -> CoreView {
    let n = inp.frame.subfr_length as int;
    let synth = core_synth_spec(inp, c, k);
    let gain_q10 = inp.ctrl.gains_q16[k] >> 6u32;
    CoreView {
        s_lpc: synth.subrange(n, n + 16),
        ltp_q15: if inp.voiced(k) {
            ltp_synth_spec(
                core_ltp_spec(inp, c, k),
                core_exc_spec(inp, k),
                inp.taps(k),
                inp.lag(k),
                inp.start(k),
                n,
            )
        } else {
            c.ltp_q15
        },
        out_buf: core_out_buf_spec(inp, c, k),
        prev_gain_q16: inp.ctrl.gains_q16[k],
        xq: c.xq + Seq::new(n as nat, |i: int| scaled_sample_spec(synth[16 + i], gain_q10)),
    }
}

/// The synthesis after `k` subframes.
pub open spec fn core_spec(inp: CoreInput, st: SynthView, k: int) -> CoreView
    decreases k,
{
    if k <= 0 {
        CoreView {
            s_lpc: st.s_lpc_q14_buf,
            ltp_q15: zeros_i32(640),
            out_buf: st.out_buf,
            prev_gain_q16: st.prev_gain_q16,
            xq: Seq::empty(),
        }
    } else {
        core_step_spec(inp, core_spec(inp, st, k - 1), k - 1)
    }
}

/// The samples of a frame.
#[verifier::opaque]
pub open spec fn core_samples_spec(inp: CoreInput, st: SynthView) -> Seq<i16> {
    core_spec(inp, st, inp.frame.nb_subfr as int).xq
}

/// The synthesis state after a frame.
#[verifier::opaque]
pub open spec fn core_state_spec(inp: CoreInput, st: SynthView) -> SynthView {
    let c = core_spec(inp, st, inp.frame.nb_subfr as int);
    SynthView { s_lpc_q14_buf: c.s_lpc, out_buf: c.out_buf, prev_gain_q16: c.prev_gain_q16 }
}

/// The lags that were in force.
pub open spec fn core_pitch_spec(inp: CoreInput) -> Seq<i32> {
    Seq::new(
        4,
        |k: int|
            if k < inp.frame.nb_subfr && inp.eased(k) {
                inp.lag_prev
            } else {
                inp.ctrl.pitch_l[k]
            },
    )
}

/// What the synthesis of a frame reads, from the decoder's data.
pub open spec fn core_input_spec(
    ctrl: CtrlView,
    indices: IndicesView,
    pulses: Seq<i16>,
    frame: FrameInfo,
    loss_cnt: i32,
    prev_signal_type: i8,
    lag_prev: i32,
) -> CoreInput {
    CoreInput {
        ctrl,
        exc: excitation_spec(
            pulses,
            indices.seed,
            indices.signal_type,
            indices.quant_offset_type,
            frame.spec_frame_length(),
        ),
        signal_type: indices.signal_type,
        interpolated: indices.nlsf_interp_coef_q2 < 4,
        frame,
        loss_cnt,
        prev_signal_type,
        lag_prev,
    }
}

/// Rescales the filter history.
fn scale_lpc_state(s_lpc_q14: &mut [i32; 96], adj_q16: i32)
    ensures
        forall|i: int| 0 <= i < 16 ==> #[trigger] final(s_lpc_q14)@[i] == smulww_spec(adj_q16, old(s_lpc_q14)@[i]),
{
    let mut i: usize = 0;
    while i < 16
        invariant
            i <= 16,
            forall|k: int|
                0 <= k < i ==> #[trigger] s_lpc_q14@[k] == smulww_spec(adj_q16, old(s_lpc_q14)@[k]),
            forall|k: int| i <= k < 96 ==> #[trigger] s_lpc_q14@[k] == old(s_lpc_q14)@[k],
        decreases 16 - i,
    {
        s_lpc_q14[i] = smulww(adj_q16, s_lpc_q14[i]);
        i = i + 1;
    }
}

/// Moves the last 16 outputs to the front.
fn shift_lpc_state(s_lpc_q14: &mut [i32; 96], n: usize)
    requires
        n <= 80,
    ensures
        final(s_lpc_q14)@.subrange(0, 16) == old(s_lpc_q14)@.subrange(n as int, n + 16),
{
    let mut i: usize = 0;
    while i < 16
        invariant
            i <= 16,
            n <= 80,
            forall|k: int| 0 <= k < i ==> #[trigger] s_lpc_q14@[k] == old(s_lpc_q14)@[n + k],
            forall|k: int| i <= k < 96 ==> #[trigger] s_lpc_q14@[k] == old(s_lpc_q14)@[k],
        decreases 16 - i,
    {
        let v: i32 = s_lpc_q14[n + i];
        s_lpc_q14[i] = v;
        i = i + 1;
    }
    assert(s_lpc_q14@.subrange(0, 16) =~= old(s_lpc_q14)@.subrange(n as int, n + 16));
}

/// The buffers of a frame hold the synthesis `c` after `k` subframes.
spec fn core_holds(
    c: CoreView,
    k: int,
    n: int,
    s_lpc: Seq<i32>,
    ltp: Seq<i32>,
    st: SynthView,
    xq: Seq<i16>,
) -> bool {
    &&& c.s_lpc == s_lpc.subrange(0, 16)
    &&& c.ltp_q15 == ltp
    &&& c.out_buf == st.out_buf
    &&& c.prev_gain_q16 == st.prev_gain_q16
    &&& c.xq == xq.subrange(0, k * n)
}

/// Copies the first half of the frame behind the memory.
fn store_first_half(out_buf: &mut [i16; 480], xq: &[i16], mem: usize, n: usize)
    requires
        mem + n <= 480,
        n <= xq@.len(),
    ensures
        forall|i: int|
            0 <= i < 480 ==> #[trigger] final(out_buf)@[i] == (if mem <= i < mem + n {
                xq@[i - mem]
            } else {
                old(out_buf)@[i]
            }),
{
    let mut i: usize = 0;
    while i < n
        invariant
            i <= n,
            mem + n <= 480,
            n <= xq@.len(),
            forall|k: int|
                0 <= k < 480 ==> #[trigger] out_buf@[k] == (if mem <= k < mem + i {
                    xq@[k - mem]
                } else {
                    old(out_buf)@[k]
                }),
        decreases n - i,
    {
        out_buf[mem + i] = xq[i];
        i = i + 1;
    }
}

/// Synthesizes subframe `k`.
fn core_subframe(
    state: &mut SynthesisState,
    s_lpc_q14: &mut [i32; 96],
    s_ltp_q15: &mut [i32; 640],
    xq: &mut [i16],
    exc_q14: &[i32],
    ctrl: &DecoderControl,
    frame: &FrameInfo,
    k: usize,
    eased: bool,
    voiced: bool,
    rewhitens: bool,
    lag: i32,
    Ghost(inp): Ghost<CoreInput>,
    Ghost(c): Ghost<CoreView>,
)
    requires
        inp.wf(),
        inp.frame == *frame,
        inp.ctrl.gains_q16 == ctrl.gains_q16@,
        inp.ctrl.pred0_q12 == ctrl.pred_coef_q12@[0]@,
        inp.ctrl.pred1_q12 == ctrl.pred_coef_q12@[1]@,
        inp.ctrl.ltp_coef_q14 == ctrl.ltp_coef_q14@,
        inp.ctrl.ltp_scale_q14 == ctrl.ltp_scale_q14,
        exc_q14@.len() >= frame.spec_frame_length(),
        inp.exc == exc_q14@.subrange(0, frame.spec_frame_length()),
        old(xq)@.len() >= frame.spec_frame_length(),
        k < frame.nb_subfr,
        eased == inp.eased(k as int),
        voiced == inp.voiced(k as int),
        rewhitens == inp.rewhitens(k as int),
        voiced ==> lag == inp.lag(k as int),
        c.prev_gain_q16 != 0,
        c.prev_gain_q16 != i32::MIN,
        core_holds(
            c,
            k as int,
            frame.subfr_length as int,
            old(s_lpc_q14)@,
            old(s_ltp_q15)@,
            old(state)@,
            old(xq)@,
        ),
    ensures
        core_holds(
            core_step_spec(inp, c, k as int),
            k + 1,
            frame.subfr_length as int,
            final(s_lpc_q14)@,
            final(s_ltp_q15)@,
            final(state)@,
            final(xq)@,
        ),
        final(state).s_lpc_q14_buf == old(state).s_lpc_q14_buf,
        final(xq)@.len() == old(xq)@.len(),
        forall|i: int|
            (k + 1) * frame.subfr_length <= i < old(xq)@.len() ==> #[trigger] final(xq)@[i] == old(xq)@[i],
{
    let n: usize = frame.subfr_length;
    let mem: usize = frame.ltp_mem_length;
    let order: usize = frame.lpc_order;
    proof {
        frame.lemma_bounds();
        assert(inp.lag_ok(k as int));
        assert(inp.ctrl.gains_q16[k as int] != 0);
        assert(0 <= k * n && k * n + n == (k + 1) * n && (k + 1) * n <= frame.nb_subfr * n) by (nonlinear_arith)
            requires
                0 <= k < frame.nb_subfr,
                n >= 0,
        ;
        assert(frame.nb_subfr * n <= 4 * n) by (nonlinear_arith)
            requires
                frame.nb_subfr <= 4,
                n >= 0,
        ;
    }
    let base: usize = k * n;
    let bi: usize = mem + base;
    let gain: i32 = ctrl.gains_q16[k];
    let gain_q10: i32 = gain >> 6u32;
    let inv_gain_q31: i32 = inverse32_varq(gain, 47);
    let prev_gain: i32 = state.prev_gain_q16;
    let adj: i32 = if gain != prev_gain {
        let adj: i32 = div32_varq(prev_gain, gain, 16);
        scale_lpc_state(s_lpc_q14, adj);
        adj
    } else {
        65536
    };
    let ghost s_lpc1 = adjusted_lpc_spec(c.s_lpc, c.prev_gain_q16, gain);
    assert(s_lpc_q14@.subrange(0, 16) =~= s_lpc1);
    state.prev_gain_q16 = gain;
    let a_q12: &[i16; 16] = if k < 2 {
        &ctrl.pred_coef_q12[0]
    } else {
        &ctrl.pred_coef_q12[1]
    };
    assert(a_q12@ == inp.filter(k as int));
    let exc: &[i32] = &exc_q14[base..base + n];
    assert(exc@ =~= core_exc_spec(inp, k as int));
    let mut res_q14: [i32; 80] = [0; 80];
    let ghost out1 = core_out_buf_spec(inp, c, k as int);
    let ghost ltp1 = core_ltp_spec(inp, c, k as int);
    let ghost res = core_res_spec(inp, c, k as int);
    let ghost xq0 = xq@;
    if voiced {
        let lag: usize = lag as usize;
        let mut b_q14: [i16; 5] = [0, 0, LTP_PLC_CENTER_Q14, 0, 0];
        if !eased {
            let mut j: usize = 0;
            while j < 5
                invariant
                    j <= 5,
                    k < 4,
                    forall|t: int| 0 <= t < j ==> #[trigger] b_q14@[t] == ctrl.ltp_coef_q14@[5 * k + t],
                decreases 5 - j,
            {
                b_q14[j] = ctrl.ltp_coef_q14[5 * k + j];
                j = j + 1;
            }
        }
        assert(b_q14@ =~= inp.taps(k as int));
        if rewhitens {
            if k == 2 {
                store_first_half(&mut state.out_buf, xq, mem, 2 * n);
            }
            assert(state.out_buf@ =~= out1);
            let scaled: i32 = if k == 0 {
                smulwb(inv_gain_q31, ctrl.ltp_scale_q14 as i32).wrapping_shl(2)
            } else {
                inv_gain_q31
            };
            rewhiten(s_ltp_q15, &state.out_buf, a_q12, order, lag, bi, scaled);
        } else if adj != 65536 {
            rescale_ltp(s_ltp_q15, adj, lag, bi);
        }
        assert(s_ltp_q15@ == ltp1);
        ltp_synthesis(s_ltp_q15, exc, &b_q14, lag, bi, &mut res_q14);
        let res_slice: &[i32] = &res_q14[0..n];
        assert(res_slice@ =~= res);
        lpc_synthesis_subframe(s_lpc_q14, res_slice, a_q12, order, gain_q10, xq, base);
    } else {
        lpc_synthesis_subframe(s_lpc_q14, exc, a_q12, order, gain_q10, xq, base);
    }
    let ghost synth = core_synth_spec(inp, c, k as int);
    proof {
        assert(res.len() == n);
        assert(s_lpc_q14@.subrange(0, 16 + n) == synth);
        assert forall|i: int| 0 <= i < 16 + n implies #[trigger] s_lpc_q14@[i] == synth[i] by {
            assert(s_lpc_q14@.subrange(0, 16 + n)[i] == s_lpc_q14@[i]);
        }
        assert(s_lpc_q14@.subrange(n as int, n + 16) =~= synth.subrange(n as int, n + 16));
    }
    shift_lpc_state(s_lpc_q14, n);
    proof {
        let step = core_step_spec(inp, c, k as int);
        assert(step.xq =~= xq@.subrange(0, (k + 1) * n)) by {
            assert(c.xq.len() == k * n);
            assert forall|i: int| 0 <= i < (k + 1) * n implies step.xq[i] == xq@[i] by {
                if i < k * n {
                    assert(xq0.subrange(0, k * n)[i] == xq0[i]);
                }
            }
        }
    }
}

/// Decodes a frame: the excitation of the pulses, then subframe by subframe
/// long-term prediction where it is voiced, and short-term synthesis.
pub fn decode_core(
    state: &mut SynthesisState,
    ctrl: &mut DecoderControl,
    indices: &SideInfoIndices,
    pulses: &[i16],
    xq: &mut [i16],
    exc_q14: &mut [i32],
    frame: &FrameInfo,
    loss_cnt: i32,
    prev_signal_type: i8,
    lag_prev: i32,
)
    requires
        core_input_spec(
            old(ctrl)@,
            indices@,
            pulses@,
            *frame,
            loss_cnt,
            prev_signal_type,
            lag_prev,
        ).wf(),
        0 <= indices.signal_type <= 2,
        0 <= indices.quant_offset_type <= 1,
        pulses@.len() >= frame.spec_frame_length(),
        old(xq)@.len() >= frame.spec_frame_length(),
        old(exc_q14)@.len() >= frame.spec_frame_length(),
        old(state).prev_gain_q16 != 0,
        old(state).prev_gain_q16 != i32::MIN,
    ensures
        ({
            let inp = core_input_spec(
                old(ctrl)@,
                indices@,
                pulses@,
                *frame,
                loss_cnt,
                prev_signal_type,
                lag_prev,
            );
            let n = frame.spec_frame_length();
            &&& final(state)@ == core_state_spec(inp, old(state)@)
            &&& final(ctrl)@ == (CtrlView { pitch_l: core_pitch_spec(inp), ..old(ctrl)@ })
            &&& final(xq)@ == core_samples_spec(inp, old(state)@) + old(xq)@.subrange(
                n,
                old(xq)@.len() as int,
            )
            &&& final(exc_q14)@ == inp.exc + old(exc_q14)@.subrange(n, old(exc_q14)@.len() as int)
            &&& core_samples_spec(inp, old(state)@).len() == n
            &&& final(state).prev_gain_q16 == old(ctrl)@.gains_q16[frame.nb_subfr - 1]
        }),
{
    let ghost inp = core_input_spec(
        ctrl@,
        indices@,
        pulses@,
        *frame,
        loss_cnt,
        prev_signal_type,
        lag_prev,
    );
    let ghost st0 = state@;
    let n: usize = frame.subfr_length;
    let nb: usize = frame.nb_subfr;
    let frame_length: usize = frame.frame_length();
    proof {
        frame.lemma_bounds();
    }
    let (exc, exc_rest) = exc_q14.split_at_mut(frame_length);
    reconstruct_excitation(
        exc,
        pulses,
        indices.seed,
        indices.signal_type,
        indices.quant_offset_type,
    );
    assert(exc@.subrange(0, frame_length as int) =~= exc@);
    assert(exc@ == inp.exc);
    let mut s_ltp_q15: [i32; 640] = [0; 640];
    let mut s_lpc_q14: [i32; 96] = [0; 96];
    let mut i: usize = 0;
    while i < 16
        invariant
            i <= 16,
            forall|k: int| 0 <= k < i ==> #[trigger] s_lpc_q14@[k] == state.s_lpc_q14_buf@[k],
        decreases 16 - i,
    {
        s_lpc_q14[i] = state.s_lpc_q14_buf[i];
        i = i + 1;
    }
    proof {
        let c = core_spec(inp, st0, 0);
        assert(c.s_lpc =~= s_lpc_q14@.subrange(0, 16));
        assert(c.ltp_q15 =~= s_ltp_q15@);
        assert(c.xq =~= xq@.subrange(0, 0 * n));
    }
    let interpolated: bool = indices.nlsf_interp_coef_q2 < 4;
    let mut k: usize = 0;
    while k < nb
        invariant
            inp.wf(),
            inp.frame == *frame,
            nb == frame.nb_subfr,
            n == frame.subfr_length,
            frame_length == frame.spec_frame_length(),
            frame_length == nb * n,
            k <= nb,
            nb == 2 || nb == 4,
            inp == core_input_spec(
                old(ctrl)@,
                indices@,
                pulses@,
                *frame,
                loss_cnt,
                prev_signal_type,
                lag_prev,
            ),
            interpolated == (indices.nlsf_interp_coef_q2 < 4),
            ctrl.gains_q16 == old(ctrl).gains_q16,
            ctrl.pred_coef_q12 == old(ctrl).pred_coef_q12,
            ctrl.ltp_coef_q14 == old(ctrl).ltp_coef_q14,
            ctrl.ltp_scale_q14 == old(ctrl).ltp_scale_q14,
            forall|t: int|
                0 <= t < 4 ==> #[trigger] ctrl.pitch_l@[t] == (if t < k {
                    core_pitch_spec(inp)[t]
                } else {
                    old(ctrl).pitch_l@[t]
                }),
            exc@ == inp.exc,
            exc@.len() == frame_length,
            state.s_lpc_q14_buf == old(state).s_lpc_q14_buf,
            state.prev_gain_q16 != 0,
            state.prev_gain_q16 != i32::MIN,
            xq@.len() == old(xq)@.len(),
            xq@.len() >= frame_length,
            core_holds(
                core_spec(inp, st0, k as int),
                k as int,
                n as int,
                s_lpc_q14@,
                s_ltp_q15@,
                state@,
                xq@,
            ),
            forall|t: int| k * n <= t < xq@.len() ==> #[trigger] xq@[t] == old(xq)@[t],
        decreases nb - k,
    {
        let eased: bool = loss_cnt != 0 && prev_signal_type == TYPE_VOICED && indices.signal_type
            != TYPE_VOICED && k < MAX_NB_SUBFR / 2;
        if eased {
            ctrl.pitch_l[k] = lag_prev;
        }
        let voiced: bool = indices.signal_type == TYPE_VOICED || eased;
        let rewhitens: bool = k == 0 || (k == 2 && interpolated);
        let ghost c = core_spec(inp, st0, k as int);
        let ghost xq0 = xq@;
        proof {
            assert(inp.ctrl.gains_q16[k as int] != 0);
            assert(exc@.subrange(0, frame_length as int) =~= inp.exc);
            assert(k * n <= (k + 1) * n) by (nonlinear_arith)
                requires
                    n >= 0,
                    k >= 0,
            ;
        }
        core_subframe(
            state,
            &mut s_lpc_q14,
            &mut s_ltp_q15,
            xq,
            exc,
            ctrl,
            frame,
            k,
            eased,
            voiced,
            rewhitens,
            ctrl.pitch_l[k],
            Ghost(inp),
            Ghost(c),
        );
        k = k + 1;
    }
    let ghost out_after = state.out_buf;
    let ghost gain_after = state.prev_gain_q16;
    let mut i: usize = 0;
    while i < 16
        invariant
            i <= 16,
            state.out_buf == out_after,
            state.prev_gain_q16 == gain_after,
            forall|k: int| 0 <= k < i ==> #[trigger] state.s_lpc_q14_buf@[k] == s_lpc_q14@[k],
        decreases 16 - i,
    {
        state.s_lpc_q14_buf[i] = s_lpc_q14[i];
        i = i + 1;
    }
    proof {
        reveal(core_state_spec);
        reveal(core_samples_spec);
        let c = core_spec(inp, st0, nb as int);
        assert(state@ =~= core_state_spec(inp, st0)) by {
            assert(state.s_lpc_q14_buf@ =~= s_lpc_q14@.subrange(0, 16));
        }
        assert(ctrl@ =~= (CtrlView { pitch_l: core_pitch_spec(inp), ..old(ctrl)@ }));
        assert(xq@ =~= c.xq + old(xq)@.subrange(frame_length as int, old(xq)@.len() as int)) by {
            assert forall|t: int| 0 <= t < frame_length implies xq@[t] == c.xq[t] by {
                assert(xq@.subrange(0, nb * n)[t] == xq@[t]);
            }
        }
    }
}

/// Lags between 2 and 18 ms suit the synthesis.
pub proof fn lemma_core_input(inp: CoreInput, fs_khz: int)
    requires
        valid_fs(fs_khz),
        valid_nb(inp.frame.nb_subfr as int),
        inp.frame == FrameInfo::spec_new(fs_khz, inp.frame.nb_subfr as int),
        inp.ctrl.shaped(),
        inp.exc.len() == inp.frame.spec_frame_length(),
        forall|k: int|
            0 <= k < inp.frame.nb_subfr ==> {
                &&& #[trigger] inp.ctrl.gains_q16[k] != 0
                &&& inp.ctrl.gains_q16[k] != i32::MIN
            },
        inp.signal_type == TYPE_VOICED ==> forall|k: int|
            0 <= k < inp.frame.nb_subfr ==> 2 * fs_khz <= #[trigger] inp.ctrl.pitch_l[k] <= 18
                * fs_khz,
        inp.prev_signal_type == TYPE_VOICED ==> 2 <= inp.lag_prev <= 18 * fs_khz,
    ensures
        inp.wf(),
{
    assert forall|k: int| 0 <= k < inp.frame.nb_subfr implies #[trigger] inp.lag_ok(k) by {
        assert(0 <= k * (5 * fs_khz) <= 15 * fs_khz) by (nonlinear_arith)
            requires
                0 <= k <= 3,
                fs_khz >= 8,
        ;
        assert(k <= 1 ==> k * (5 * fs_khz) <= 5 * fs_khz) by (nonlinear_arith)
            requires
                0 <= k <= 3,
                fs_khz >= 8,
        ;
        if inp.signal_type == TYPE_VOICED {
            assert(2 * fs_khz <= inp.ctrl.pitch_l[k] <= 18 * fs_khz);
        }
    }
}

/// The sum of products that a predictor stands for.
pub open spec fn weighted(s: Seq<i32>, a_q12: Seq<i16>, pos: int, j: int) -> int
    decreases j,
{
    if j <= 0 {
        0
    } else {
        weighted(s, a_q12, pos, j - 1) + s[pos - j] * a_q12[j - 1]
    }
}

/// A prediction is the sum over the samples before, each times its weight, in
/// units of 2^16; each product is rounded down, and half the order evens that
/// out.
pub proof fn lemma_lpc_pred_is_a_sum(s: Seq<i32>, a_q12: Seq<i16>, order: int, pos: int, j: int)
    requires
        0 <= j <= order <= 16,
        order <= pos <= s.len(),
        order <= a_q12.len(),
        forall|i: int| pos - order <= i < pos ==> -0x400_0000 <= #[trigger] s[i] <= 0x400_0000,
    ensures
        ({
            let p = lpc_pred_spec(s, a_q12, order, pos, j) - order / 2;
            let w = weighted(s, a_q12, pos, j);
            &&& w - 65536 * j <= 65536 * p <= w
            &&& -0x400_0000 * j <= p <= 0x400_0000 * j
        }),
    decreases j,
{
    if j > 0 {
        lemma_lpc_pred_is_a_sum(s, a_q12, order, pos, j - 1);
        reveal(smulwb_spec);
        let x = s[pos - j];
        let c = a_q12[j - 1];
        assert(-0x400_0000 <= x <= 0x400_0000);
        assert((c as i32) as i16 == c);
        let y = x * c;
        assert(-0x200_0000_0000 <= y <= 0x200_0000_0000) by (nonlinear_arith)
            requires
                y == x * c,
                -0x400_0000 <= x <= 0x400_0000,
                -32768 <= c <= 32767,
        ;
        assert(smulwb_spec(x, c as i32) == y / 0x1_0000);
    }
}

/// The same of the five taps of the long-term predictor, with two to even
/// the rounding out: the first tap meets the latest sample.
pub proof fn lemma_ltp_pred_is_a_sum(ltp: Seq<i32>, b_q14: Seq<i16>, tap: int)
    requires
        4 <= tap < ltp.len(),
        b_q14.len() == 5,
        forall|i: int| tap - 4 <= i <= tap ==> -0x400_0000 <= #[trigger] ltp[i] <= 0x400_0000,
    ensures
        ({
            let p = ltp_pred_spec(ltp, b_q14, tap) - 2;
            let w = ltp[tap] * b_q14[0] + ltp[tap - 1] * b_q14[1] + ltp[tap - 2] * b_q14[2]
                + ltp[tap - 3] * b_q14[3] + ltp[tap - 4] * b_q14[4];
            w - 5 * 65536 <= 65536 * p <= w
        }),
{
    lemma_tap(ltp[tap], b_q14[0]);
    lemma_tap(ltp[tap - 1], b_q14[1]);
    lemma_tap(ltp[tap - 2], b_q14[2]);
    lemma_tap(ltp[tap - 3], b_q14[3]);
    lemma_tap(ltp[tap - 4], b_q14[4]);
}

proof fn lemma_tap(x: i32, c: i16)
    requires
        -0x400_0000 <= x <= 0x400_0000,
    ensures
        x * c - 65536 <= 65536 * smulwb_spec(x, c as i32) <= x * c,
        -0x200_0000 <= smulwb_spec(x, c as i32) <= 0x200_0000,
{
    reveal(smulwb_spec);
    assert((c as i32) as i16 == c);
    let y = x * c;
    assert(-0x200_0000_0000 <= y <= 0x200_0000_0000) by (nonlinear_arith)
        requires
            y == x * c,
            -0x400_0000 <= x <= 0x400_0000,
            -32768 <= c <= 32767,
    ;
}

/// An output sample is the product of filter output and gain, in units of
/// 2^24 and within one, where it is not clipped.
pub proof fn lemma_scaled_sample_is_a_product(v: i32, gain_q10: i32)
    requires
        -0x7fff_ffff_0000 <= v * gain_q10 <= 0x7fff_ffff_0000,
    ensures
        ({
            let x = scaled_sample_spec(v, gain_q10);
            &&& -32768 < x < 32767 ==> -0x100_0000 <= x * 0x100_0000 - v * gain_q10 <= 0x100_0000
            &&& v * gain_q10 >= 0x8000 * 0x100_0000 ==> x == 32767
            &&& v * gain_q10 < -0x8000 * 0x100_0000 ==> x == -32768
        }),
{
    reveal(smulww_spec);
    let y = v * gain_q10;
    let t = smulww_spec(v, gain_q10);
    assert(t == y / 0x1_0000);
    lemma_rshift_round_bounds(t, 8);
    vstd::arithmetic::power2::lemma2_to64();
    assert(rshift_round_spec(t, 8) == (t + 128) / 256);
}

} // verus!
