//! Mid/side stereo.
//!
//! Each frame carries two predictors of the side channel: a weight on the
//! low-passed mid channel and one on the mid channel itself. They move from
//! the last frame's values to the new ones over the first 8 ms. The predicted
//! side channel is added to the coded residual, and sum and difference are
//! left and right, one sample late.
use crate::error::Result;
use crate::range::{icdf_next, icdf_symbol, lemma_icdf_next_wf, lemma_symbol_bound, RangeDecoder, RangeState};
use crate::sigproc::{
    lemma_rshift_round_bounds, lemma_smulwb_bound, rshift_round, rshift_round_spec, sat16,
    sat16_spec, smlabb, smlawb, smlawb_spec, smulbb, smulbb_spec, smulwb, smulwb_spec,
};
use crate::tables::{
    STEREO_ONLY_CODE_MID_ICDF, STEREO_PRED_JOINT_ICDF, STEREO_PRED_QUANT_Q13, UNIFORM3_ICDF,
    UNIFORM5_ICDF,
};
use vstd::arithmetic::power2::lemma2_to64;
use vstd::prelude::*;

verus! {

/// Length of the move from one pair of predictors to the next.
pub const STEREO_INTERP_LEN_MS: i32 = 8;

/// A tenth in Q16.
pub const PRED_SUBSTEP_WEIGHT_Q16: i32 = 6554;

/// Largest magnitude of a single predictor in Q13.
pub const MAX_PRED_Q13: i32 = 13732;

/// What stereo decoding carries from frame to frame.
#[derive(Debug, Clone, Copy, PartialEq, Eq)]
pub struct StereoDecState {
    /// Predictors of the last frame in Q13; the first is the difference of
    /// the coded two, cut to 16 bits.
    pub pred_prev_q13: [i16; 2],
    /// Last two mid samples.
    pub s_mid: [i16; 2],
    /// Last two side samples.
    pub s_side: [i16; 2],
}

#[verifier::ext_equal]
pub struct StereoView {
    pub pred_prev_q13: Seq<i16>,
    pub s_mid: Seq<i16>,
    pub s_side: Seq<i16>,
}

impl View for StereoDecState {
    type V = StereoView;

    open spec fn view(&self) -> StereoView {
        StereoView {
            pred_prev_q13: self.pred_prev_q13@,
            s_mid: self.s_mid@,
            s_side: self.s_side@,
        }
    }
}

impl StereoView {
    /// Before the first frame.
    pub open spec fn zero() -> StereoView {
        StereoView {
            pred_prev_q13: seq![0i16, 0i16],
            s_mid: seq![0i16, 0i16],
            s_side: seq![0i16, 0i16],
        }
    }
}

impl Default for StereoDecState {
    fn default() -> (r: StereoDecState)
        ensures
            r@ == StereoView::zero(),
    {
        let r = StereoDecState { pred_prev_q13: [0; 2], s_mid: [0; 2], s_side: [0; 2] };
        assert(r@ =~= StereoView::zero());
        r
    }
}

// ---------------------------------------------------------------------
// Predictors
// ---------------------------------------------------------------------

/// The predictor `2 * sub + 1` tenths of the way into a cell of the table.
pub open spec fn pred_value_spec(low: int, sub: int) -> int {
    let a = STEREO_PRED_QUANT_Q13@[low] as int;
    let b = STEREO_PRED_QUANT_Q13@[low + 1] as int;
    a + ((b - a) * PRED_SUBSTEP_WEIGHT_Q16) / 65536 * (2 * sub + 1)
}

/// A predictor stays in its cell.
proof fn lemma_pred_value(low: int, sub: int)
    requires
        0 <= low < 15,
        0 <= sub < 5,
    ensures
        STEREO_PRED_QUANT_Q13@[low] <= pred_value_spec(low, sub) <= STEREO_PRED_QUANT_Q13@[low + 1],
        -MAX_PRED_Q13 <= pred_value_spec(low, sub) <= MAX_PRED_Q13,
{
    let a = STEREO_PRED_QUANT_Q13@[low] as int;
    let b = STEREO_PRED_QUANT_Q13@[low + 1] as int;
    assert(-13732 <= a < b <= 13732);
    let s = ((b - a) * PRED_SUBSTEP_WEIGHT_Q16) / 65536;
    assert(0 <= s && 9 * s <= b - a);
    assert(0 <= s * (2 * sub + 1) <= 9 * s) by (nonlinear_arith)
        requires
            0 <= s,
            0 <= sub < 5,
    ;
}

/// The state behind the five symbols of a pair of predictors, and the pair:
/// the first is what the mid channel's low-passed part weighs more than the
/// second.
#[verifier::opaque]
pub open spec fn decode_pred_spec(st: RangeState) -> (RangeState, int, int) {
    let joint = icdf_symbol(st, STEREO_PRED_JOINT_ICDF@, 8);
    let s1 = icdf_next(st, STEREO_PRED_JOINT_ICDF@, 8);
    let low0 = icdf_symbol(s1, UNIFORM3_ICDF@, 8) + 3 * (joint / 5);
    let s2 = icdf_next(s1, UNIFORM3_ICDF@, 8);
    let sub0 = icdf_symbol(s2, UNIFORM5_ICDF@, 8);
    let s3 = icdf_next(s2, UNIFORM5_ICDF@, 8);
    let low1 = icdf_symbol(s3, UNIFORM3_ICDF@, 8) + 3 * (joint % 5);
    let s4 = icdf_next(s3, UNIFORM3_ICDF@, 8);
    let sub1 = icdf_symbol(s4, UNIFORM5_ICDF@, 8);
    let s5 = icdf_next(s4, UNIFORM5_ICDF@, 8);
    let w1 = pred_value_spec(low1, sub1);
    (s5, pred_value_spec(low0, sub0) - w1, w1)
}

/// Looks a predictor up.
fn pred_value(low: usize, sub: i32) -> (r: i32)
    requires
        low < 15,
        0 <= sub < 5,
    ensures
        r == pred_value_spec(low as int, sub as int),
        -MAX_PRED_Q13 <= r <= MAX_PRED_Q13,
{
    let a: i32 = STEREO_PRED_QUANT_Q13[low] as i32;
    let b: i32 = STEREO_PRED_QUANT_Q13[low + 1] as i32;
    let step: i32 = smulwb(b - a, PRED_SUBSTEP_WEIGHT_Q16);
    proof {
        lemma_pred_value(low as int, sub as int);
        assert(-13732 <= a < b <= 13732);
        lemma_smulwb_bound((b - a) as i32, PRED_SUBSTEP_WEIGHT_Q16, 27464);
        assert(0 <= step <= 2747);
        reveal(smulbb_spec);
        assert(0 <= step * (2 * sub + 1) <= 9 * step) by (nonlinear_arith)
            requires
                0 <= step,
                0 <= sub < 5,
        ;
    }
    smlabb(a, step, 2 * sub + 1)
}

/// Decodes the predictors of a frame in Q13.
pub fn decode_pred(dec: &mut RangeDecoder) -> (r: Result<[i32; 2]>)
    requires
        old(dec)@.wf(),
    ensures
        r is Ok,
        final(dec)@ == decode_pred_spec(old(dec)@).0,
        r->Ok_0@ == seq![
            decode_pred_spec(old(dec)@).1 as i32,
            decode_pred_spec(old(dec)@).2 as i32,
        ],
        -MAX_PRED_Q13 <= r->Ok_0@[1] <= MAX_PRED_Q13,
        -2 * MAX_PRED_Q13 <= r->Ok_0@[0] <= 2 * MAX_PRED_Q13,
        final(dec)@.wf(),
        final(dec)@.buf == old(dec)@.buf,
{
    reveal(decode_pred_spec);
    assert(STEREO_PRED_JOINT_ICDF@[24] == 0);
    assert(UNIFORM3_ICDF@[2] == 0);
    assert(UNIFORM5_ICDF@[4] == 0);
    let joint: u32 = dec.decode_icdf(&STEREO_PRED_JOINT_ICDF, 8)?;
    let low0: usize = (dec.decode_icdf(&UNIFORM3_ICDF, 8)? + 3 * (joint / 5)) as usize;
    let sub0: i32 = dec.decode_icdf(&UNIFORM5_ICDF, 8)? as i32;
    let low1: usize = (dec.decode_icdf(&UNIFORM3_ICDF, 8)? + 3 * (joint % 5)) as usize;
    let sub1: i32 = dec.decode_icdf(&UNIFORM5_ICDF, 8)? as i32;
    let w0: i32 = pred_value(low0, sub0);
    let w1: i32 = pred_value(low1, sub1);
    let r: [i32; 2] = [w0 - w1, w1];
    assert(r@ =~= seq![decode_pred_spec(old(dec)@).1 as i32, decode_pred_spec(old(dec)@).2 as i32]);
    Ok(r)
}

/// The predictors stay in the range of the table, whatever the bits.
pub proof fn lemma_decode_pred(st: RangeState)
    requires
        st.wf(),
    ensures
        decode_pred_spec(st).0.wf(),
        decode_pred_spec(st).0.buf == st.buf,
        -MAX_PRED_Q13 <= decode_pred_spec(st).2 <= MAX_PRED_Q13,
        -2 * MAX_PRED_Q13 <= decode_pred_spec(st).1 <= 2 * MAX_PRED_Q13,
{
    reveal(decode_pred_spec);
    assert(STEREO_PRED_JOINT_ICDF@[24] == 0);
    assert(UNIFORM3_ICDF@[2] == 0);
    assert(UNIFORM5_ICDF@[4] == 0);
    let joint = icdf_symbol(st, STEREO_PRED_JOINT_ICDF@, 8);
    lemma_symbol_bound(st, STEREO_PRED_JOINT_ICDF@, 8, 24);
    lemma_icdf_next_wf(st, STEREO_PRED_JOINT_ICDF@, 8);
    let s1 = icdf_next(st, STEREO_PRED_JOINT_ICDF@, 8);
    lemma_symbol_bound(s1, UNIFORM3_ICDF@, 8, 2);
    lemma_icdf_next_wf(s1, UNIFORM3_ICDF@, 8);
    let s2 = icdf_next(s1, UNIFORM3_ICDF@, 8);
    lemma_symbol_bound(s2, UNIFORM5_ICDF@, 8, 4);
    lemma_icdf_next_wf(s2, UNIFORM5_ICDF@, 8);
    let s3 = icdf_next(s2, UNIFORM5_ICDF@, 8);
    lemma_symbol_bound(s3, UNIFORM3_ICDF@, 8, 2);
    lemma_icdf_next_wf(s3, UNIFORM3_ICDF@, 8);
    let s4 = icdf_next(s3, UNIFORM3_ICDF@, 8);
    lemma_symbol_bound(s4, UNIFORM5_ICDF@, 8, 4);
    lemma_icdf_next_wf(s4, UNIFORM5_ICDF@, 8);
    lemma_pred_value(
        icdf_symbol(s1, UNIFORM3_ICDF@, 8) + 3 * (joint / 5),
        icdf_symbol(s2, UNIFORM5_ICDF@, 8),
    );
    lemma_pred_value(
        icdf_symbol(s3, UNIFORM3_ICDF@, 8) + 3 * (joint % 5),
        icdf_symbol(s4, UNIFORM5_ICDF@, 8),
    );
}

/// Decodes whether only the mid channel is coded.
pub fn decode_mid_only(dec: &mut RangeDecoder) -> (r: Result<bool>)
    requires
        old(dec)@.wf(),
    ensures
        r is Ok,
        final(dec)@ == icdf_next(old(dec)@, STEREO_ONLY_CODE_MID_ICDF@, 8),
        r->Ok_0 == (icdf_symbol(old(dec)@, STEREO_ONLY_CODE_MID_ICDF@, 8) != 0),
        final(dec)@.wf(),
        final(dec)@.buf == old(dec)@.buf,
{
    assert(STEREO_ONLY_CODE_MID_ICDF@[1] == 0);
    let symbol: u32 = dec.decode_icdf(&STEREO_ONLY_CODE_MID_ICDF, 8)?;
    Ok(symbol != 0)
}

// ---------------------------------------------------------------------
// Unmixing
// ---------------------------------------------------------------------

/// A predictor's change per sample while it moves from `prev` to `next`.
pub open spec fn pred_step_spec(prev: int, next: int, fs_khz: int) -> int {
    rshift_round_spec(smulbb_spec((next - prev) as i32, (65536int / (8 * fs_khz)) as i32), 16) as int
}

/// The predictor of sample `n`.
pub open spec fn pred_at_spec(prev: int, next: int, fs_khz: int, n: int) -> i32 {
    if n < 8 * fs_khz {
        (prev + (n + 1) * pred_step_spec(prev, next, fs_khz)) as i32
    } else {
        next as i32
    }
}

/// The side sample in the middle of three mid samples, with its prediction.
pub open spec fn predicted_side_spec(m0: i16, m1: i16, m2: i16, s: i16, w0: i32, w1: i32) -> i16 {
    let sum_q11 = ((m0 + 2 * m1 + m2) * 512) as i32;
    let a = smlawb_spec((s * 256) as i32, sum_q11, w0);
    let b = smlawb_spec(a, (m1 * 2048) as i32, w1);
    sat16_spec(rshift_round_spec(b, 8))
}

/// A channel with the last two samples of the frame before in front.
pub open spec fn with_history(hist: Seq<i16>, samples: Seq<i16>) -> Seq<i16> {
    hist + samples.subrange(2, samples.len() as int)
}

/// The predicted side sample `n` of a frame whose channels carry two samples
/// of history.
pub open spec fn side_at_spec(
    prev: Seq<i16>,
    m: Seq<i16>,
    s: Seq<i16>,
    pred: Seq<i32>,
    fs_khz: int,
    n: int,
) -> i16 {
    predicted_side_spec(
        m[n],
        m[n + 1],
        m[n + 2],
        s[n + 1],
        pred_at_spec(prev[0] as int, pred[0] as int, fs_khz, n),
        pred_at_spec(prev[1] as int, pred[1] as int, fs_khz, n),
    )
}

/// The left channel or the right one: samples 1 to `frame_length` are new,
/// one sample late.
pub open spec fn unmixed_spec(
    prev: Seq<i16>,
    m: Seq<i16>,
    s: Seq<i16>,
    pred: Seq<i32>,
    fs_khz: int,
    frame_length: int,
    left: bool,
) -> Seq<i16> {
    Seq::new(
        if left {
            m.len()
        } else {
            s.len()
        },
        |i: int|
            if 1 <= i <= frame_length {
                let side = side_at_spec(prev, m, s, pred, fs_khz, i - 1);
                sat16_spec(
                    (if left {
                        m[i] + side
                    } else {
                        m[i] - side
                    }) as i32,
                )
            } else if left {
                m[i]
            } else {
                s[i]
            },
    )
}

/// The state behind a frame.
pub open spec fn stereo_next_spec(
    m: Seq<i16>,
    s: Seq<i16>,
    pred: Seq<i32>,
    frame_length: int,
) -> StereoView {
    StereoView {
        pred_prev_q13: seq![pred[0] as i16, pred[1] as i16],
        s_mid: m.subrange(frame_length, frame_length + 2),
        s_side: s.subrange(frame_length, frame_length + 2),
    }
}

fn predict_side_sample(mid: &[i16], side: &mut [i16], n: usize, pred0_q13: i32, pred1_q13: i32)
    requires
        n + 2 < mid@.len(),
        n + 1 < old(side)@.len(),
    ensures
        final(side)@ == old(side)@.update(
            n + 1,
            predicted_side_spec(
                mid@[n as int],
                mid@[n + 1],
                mid@[n + 2],
                old(side)@[n + 1],
                pred0_q13,
                pred1_q13,
            ),
        ),
{
    let len: usize = mid.len();
    let sum_q11: i32 = (mid[n] as i32 + mid[n + 2] as i32 + (mid[n + 1] as i32) * 2) * 512;
    let mut sum_q8: i32 = smlawb((side[n + 1] as i32) * 256, sum_q11, pred0_q13);
    sum_q8 = smlawb(sum_q8, (mid[n + 1] as i32) * 2048, pred1_q13);
    side[n + 1] = sat16(rshift_round(sum_q8, 8));
}

/// A predictor's change per sample is small.
proof fn lemma_pred_step(prev: int, next: int, fs_khz: int)
    requires
        i32::MIN <= next - prev <= i32::MAX,
        1 <= fs_khz <= 0x0fff_ffff,
    ensures
        0 <= 65536int / (8 * fs_khz) <= 8192,
        -(65536int / (8 * fs_khz)) <= pred_step_spec(prev, next, fs_khz) <= 65536int / (8 * fs_khz),
        8 * fs_khz * (65536int / (8 * fs_khz)) <= 65536,
{
    let q = 65536int / (8 * fs_khz);
    assert(0 <= q <= 8192 && 8 * fs_khz * q <= 65536) by (nonlinear_arith)
        requires
            1 <= fs_khz,
            q == 65536int / (8 * fs_khz),
    ;
    let d = q as i32;
    let x = (next - prev) as i32;
    let p = smulbb_spec(x, d);
    reveal(smulbb_spec);
    let y = (x as i16) as int;
    assert(-0x8000 * q <= y * q <= 0x8000 * q) by (nonlinear_arith)
        requires
            -0x8000 <= y <= 0x7fff,
            q >= 0,
    ;
    lemma_rshift_round_bounds(p, 16);
    lemma2_to64();
}

/// A ramp of at most `8 * fs_khz` steps stays in range.
proof fn lemma_ramp(n: int, step: int, q: int, fs_khz: int)
    requires
        0 <= n <= 8 * fs_khz,
        -q <= step <= q,
        0 <= q,
        8 * fs_khz * q <= 65536,
    ensures
        -65536 <= n * step <= 65536,
{
    assert(-65536 <= n * step <= 65536) by (nonlinear_arith)
        requires
            0 <= n <= 8 * fs_khz,
            -q <= step <= q,
            0 <= q,
            8 * fs_khz * q <= 65536,
    ;
}

/// Turns mid and side of a frame into left and right.
///
/// Both buffers hold two entries for the history in front of the frame. On
/// return entries 1 to `frame_length` are the frame's left and right samples.
pub fn ms_to_lr(
    state: &mut StereoDecState,
    mid: &mut [i16],
    side: &mut [i16],
    pred_q13: &[i32; 2],
    fs_khz: u32,
    frame_length: usize,
)
    requires
        1 <= fs_khz <= 0x0fff_ffff,
        8 * fs_khz <= frame_length,
        frame_length + 2 <= old(mid)@.len(),
        frame_length + 2 <= old(side)@.len(),
        i32::MIN <= pred_q13@[0] - old(state).pred_prev_q13@[0] <= i32::MAX,
        i32::MIN <= pred_q13@[1] - old(state).pred_prev_q13@[1] <= i32::MAX,
    ensures
        ({
            let m = with_history(old(state)@.s_mid, old(mid)@);
            let s = with_history(old(state)@.s_side, old(side)@);
            let prev = old(state)@.pred_prev_q13;
            let n = frame_length as int;
            &&& final(mid)@ == unmixed_spec(prev, m, s, pred_q13@, fs_khz as int, n, true)
            &&& final(side)@ == unmixed_spec(prev, m, s, pred_q13@, fs_khz as int, n, false)
            &&& final(state)@ == stereo_next_spec(m, s, pred_q13@, n)
        }),
        final(mid)@.len() == old(mid)@.len(),
        final(side)@.len() == old(side)@.len(),
{
    let mid_len: usize = mid.len();
    let side_len: usize = side.len();
    let ghost m = with_history(state@.s_mid, mid@);
    let ghost s = with_history(state@.s_side, side@);
    let ghost prev = state@.pred_prev_q13;
    mid[0] = state.s_mid[0];
    mid[1] = state.s_mid[1];
    side[0] = state.s_side[0];
    side[1] = state.s_side[1];
    assert(mid@ =~= m);
    assert(side@ =~= s);
    state.s_mid[0] = mid[frame_length];
    state.s_mid[1] = mid[frame_length + 1];
    state.s_side[0] = side[frame_length];
    state.s_side[1] = side[frame_length + 1];
    let interp_len: usize = (STEREO_INTERP_LEN_MS * fs_khz as i32) as usize;
    let denom_q16: i32 = 65536 / (STEREO_INTERP_LEN_MS * fs_khz as i32);
    let start0: i32 = state.pred_prev_q13[0] as i32;
    let start1: i32 = state.pred_prev_q13[1] as i32;
    let ghost f = fs_khz as int;
    proof {
        lemma_pred_step(start0 as int, pred_q13@[0] as int, f);
        lemma_pred_step(start1 as int, pred_q13@[1] as int, f);
    }
    let delta0: i32 = rshift_round(smulbb(pred_q13[0] - start0, denom_q16), 16);
    let delta1: i32 = rshift_round(smulbb(pred_q13[1] - start1, denom_q16), 16);
    let mut pred0: i32 = start0;
    let mut pred1: i32 = start1;
    let mut n: usize = 0;
    while n < frame_length
        invariant
            n <= frame_length,
            frame_length + 2 <= mid_len,
            frame_length + 2 <= side_len,
            mid_len == mid@.len(),
            side_len == side@.len(),
            s.len() == side_len,
            mid@ == m,
            f == fs_khz,
            1 <= fs_khz <= 0x0fff_ffff,
            interp_len == 8 * fs_khz,
            interp_len <= frame_length,
            start0 == prev[0],
            start1 == prev[1],
            -0x8000 <= start0 <= 0x7fff,
            -0x8000 <= start1 <= 0x7fff,
            0 <= denom_q16,
            8 * f * denom_q16 <= 65536,
            -denom_q16 <= delta0 <= denom_q16,
            -denom_q16 <= delta1 <= denom_q16,
            delta0 == pred_step_spec(prev[0] as int, pred_q13@[0] as int, f),
            delta1 == pred_step_spec(prev[1] as int, pred_q13@[1] as int, f),
            n <= interp_len ==> pred0 == start0 + n * delta0,
            n <= interp_len ==> pred1 == start1 + n * delta1,
            forall|i: int|
                0 <= i < side_len ==> #[trigger] side@[i] == (if 1 <= i <= n {
                    side_at_spec(prev, m, s, pred_q13@, f, i - 1)
                } else {
                    s[i]
                }),
        decreases frame_length - n,
    {
        if n < interp_len {
            proof {
                assert((n + 1) * delta0 == n * delta0 + delta0) by (nonlinear_arith);
                assert((n + 1) * delta1 == n * delta1 + delta1) by (nonlinear_arith);
                lemma_ramp(n + 1, delta0 as int, denom_q16 as int, f);
                lemma_ramp(n + 1, delta1 as int, denom_q16 as int, f);
            }
            pred0 = pred0 + delta0;
            pred1 = pred1 + delta1;
        } else {
            pred0 = pred_q13[0];
            pred1 = pred_q13[1];
        }
        proof {
            assert(pred0 == pred_at_spec(prev[0] as int, pred_q13@[0] as int, f, n as int));
            assert(pred1 == pred_at_spec(prev[1] as int, pred_q13@[1] as int, f, n as int));
        }
        predict_side_sample(mid, side, n, pred0, pred1);
        n = n + 1;
    }
    state.pred_prev_q13 = [pred_q13[0] as i16, pred_q13[1] as i16];
    let ghost predicted = side@;
    let mut n: usize = 0;
    while n < frame_length
        invariant
            n <= frame_length,
            frame_length + 2 <= mid_len,
            frame_length + 2 <= side_len,
            mid_len == mid@.len(),
            side_len == side@.len(),
            m.len() == mid_len,
            s.len() == side_len,
            predicted.len() == side_len,
            forall|i: int|
                0 <= i < mid_len ==> #[trigger] mid@[i] == (if 1 <= i <= n {
                    sat16_spec((m[i] + predicted[i]) as i32)
                } else {
                    m[i]
                }),
            forall|i: int|
                0 <= i < side_len ==> #[trigger] side@[i] == (if 1 <= i <= n {
                    sat16_spec((m[i] - predicted[i]) as i32)
                } else {
                    predicted[i]
                }),
        decreases frame_length - n,
    {
        let a: i32 = mid[n + 1] as i32;
        let b: i32 = side[n + 1] as i32;
        mid[n + 1] = sat16(a + b);
        side[n + 1] = sat16(a - b);
        n = n + 1;
    }
    proof {
        assert(mid@ =~= unmixed_spec(prev, m, s, pred_q13@, f, frame_length as int, true));
        assert(side@ =~= unmixed_spec(prev, m, s, pred_q13@, f, frame_length as int, false));
        assert(state@ =~= stereo_next_spec(m, s, pred_q13@, frame_length as int));
    }
}

/// Without predictors, before and now, left and right are sum and difference
/// of the two channels.
pub proof fn lemma_zero_predictors(
    m: Seq<i16>,
    s: Seq<i16>,
    fs_khz: int,
    frame_length: int,
    i: int,
)
    requires
        1 <= fs_khz <= 0x0fff_ffff,
        1 <= i <= frame_length,
        frame_length + 2 <= m.len(),
        frame_length + 2 <= s.len(),
    ensures
        ({
            let z = seq![0i16, 0i16];
            let p = seq![0i32, 0i32];
            &&& unmixed_spec(z, m, s, p, fs_khz, frame_length, true)[i] == sat16_spec(
                (m[i] + s[i]) as i32,
            )
            &&& unmixed_spec(z, m, s, p, fs_khz, frame_length, false)[i] == sat16_spec(
                (m[i] - s[i]) as i32,
            )
        }),
{
    let z = seq![0i16, 0i16];
    let p = seq![0i32, 0i32];
    reveal(smulbb_spec);
    reveal(smulwb_spec);
    let d = (65536int / (8 * fs_khz)) as i32;
    assert(smulbb_spec(0, d) == 0) by {
        assert(0 * ((d as i16) as int) == 0);
    }
    lemma_rshift_round_bounds(0, 16);
    assert(pred_step_spec(0, 0, fs_khz) == 0);
    assert(i * 0 == 0);
    assert(pred_at_spec(0, 0, fs_khz, i - 1) == 0);
    let side = side_at_spec(z, m, s, p, fs_khz, i - 1);
    lemma_unpredicted(m[i - 1], m[i], m[i + 1], s[i]);
    assert(side == s[i]);
}

/// A side sample without weights stays as it is.
proof fn lemma_unpredicted(m0: i16, m1: i16, m2: i16, s: i16)
    ensures
        predicted_side_spec(m0, m1, m2, s, 0, 0) == s,
{
    reveal(smulwb_spec);
    let a = (s * 256) as i32;
    let q = ((m0 + 2 * m1 + m2) * 512) as i32;
    let r = (m1 * 2048) as i32;
    assert(q * ((0i32 as i16) as int) == 0);
    assert(r * ((0i32 as i16) as int) == 0);
    assert(smulwb_spec(q, 0) == 0);
    assert(smulwb_spec(r, 0) == 0);
    lemma_rshift_round_bounds(a, 8);
    vstd::arithmetic::power2::lemma2_to64();
    assert(rshift_round_spec(a, 8) == s);
}

/// Left and right lie around the middle: where neither is clipped, they add up
/// to twice the mid sample, whatever the predictors are.
pub proof fn lemma_middle_is_kept(
    prev: Seq<i16>,
    m: Seq<i16>,
    s: Seq<i16>,
    pred: Seq<i32>,
    fs_khz: int,
    frame_length: int,
    i: int,
)
    requires
        1 <= i <= frame_length,
        frame_length + 2 <= m.len(),
        frame_length + 2 <= s.len(),
    ensures
        ({
            let left = unmixed_spec(prev, m, s, pred, fs_khz, frame_length, true)[i];
            let right = unmixed_spec(prev, m, s, pred, fs_khz, frame_length, false)[i];
            -32768 < left < 32767 && -32768 < right < 32767 ==> left + right == 2 * m[i]
        }),
{
    let side = side_at_spec(prev, m, s, pred, fs_khz, i - 1);
    assert(unmixed_spec(prev, m, s, pred, fs_khz, frame_length, true)[i] == sat16_spec(
        (m[i] + side) as i32,
    ));
    assert(unmixed_spec(prev, m, s, pred, fs_khz, frame_length, false)[i] == sat16_spec(
        (m[i] - side) as i32,
    ));
}

/// The prediction of a side sample: the first weight, in Q13, times the
/// smoothed mid signal plus the second times the mid sample, within one.
pub proof fn lemma_side_prediction(m0: i16, m1: i16, m2: i16, s: i16, w0: i32, w1: i32)
    requires
        -32768 <= w0 <= 32767,
        -32768 <= w1 <= 32767,
    ensures
        ({
            let side = predicted_side_spec(m0, m1, m2, s, w0, w1);
            let rest = (side - s) * 32768 - (m0 + 2 * m1 + m2) * w0 - 4 * (m1 * w1);
            -32768 < side < 32767 ==> -32768 <= rest <= 32768
        }),
{
    reveal(smulwb_spec);
    let sum = m0 + 2 * m1 + m2;
    let q = (sum * 512) as i32;
    let r = (m1 * 2048) as i32;
    assert(w0 as i16 == w0 && w1 as i16 == w1);
    let x = sum * w0;
    let y = m1 * w1;
    assert(q * w0 == 512 * x && r * w1 == 2048 * y) by (nonlinear_arith)
        requires
            q == sum * 512,
            r == m1 * 2048,
            x == sum * w0,
            y == m1 * w1,
    ;
    assert(-0x1_0000_0000 <= x <= 0x1_0000_0000 && -0x4000_0000 <= y <= 0x4000_0000)
        by (nonlinear_arith)
        requires
            x == sum * w0,
            y == m1 * w1,
            -131072 <= sum <= 131072,
            -32768 <= m1 <= 32767,
            -32768 <= w0 <= 32767,
            -32768 <= w1 <= 32767,
    ;
    let a = (512 * x) / 0x1_0000;
    let b = (2048 * y) / 0x1_0000;
    assert(smulwb_spec(q, w0) == a);
    assert(smulwb_spec(r, w1) == b);
    let t = smlawb_spec(smlawb_spec((s * 256) as i32, q, w0), r, w1);
    assert(t == s * 256 + a + b);
    lemma_rshift_round_bounds(t, 8);
    vstd::arithmetic::power2::lemma2_to64();
    let side = rshift_round_spec(t, 8);
    assert(side == (t + 128) / 256);
}

/// Predictors arrive after 8 ms, and one that does not change stays.
pub proof fn lemma_predictors_arrive(prev: int, next: int, fs_khz: int, n: int)
    requires
        1 <= fs_khz <= 0x0fff_ffff,
        n >= 0,
        -32768 <= next <= 32767,
    ensures
        n >= 8 * fs_khz ==> pred_at_spec(prev, next, fs_khz, n) == next,
        prev == next ==> pred_at_spec(prev, next, fs_khz, n) == next,
{
    if prev == next {
        reveal(smulbb_spec);
        let d = (65536int / (8 * fs_khz)) as i32;
        assert(smulbb_spec(0, d) == 0) by {
            assert(0 * ((d as i16) as int) == 0);
        }
        lemma_rshift_round_bounds(0, 16);
        assert(pred_step_spec(prev, next, fs_khz) == 0);
        assert((n + 1) * 0 == 0);
    }
}

} // verus!
