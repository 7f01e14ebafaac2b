//! Until the first frame arrives, lost frames are silent.
use crate::channel::{lemma_at_rate_wf, lemma_rates, ChannelView};
use crate::decode_indices::TYPE_NO_VOICE_ACTIVITY;
use crate::decoder::{
    api_rate_bad, internal_khz_spec, laid_out, layout_spec, DecControl, LostFlag, SilkView,
};
use crate::nlsf::{bwexpander_spec, chirp_spec};
use crate::output::{lemma_frame_ms, lemma_out_len, out_len_spec};
use crate::plc::{
    cng_gain_spec, cng_spec, conceal_input_spec, conceal_lpc_spec, conceal_ltp_spec,
    conceal_start_spec, conceal_step_spec, conceal_subframes_spec, glue_spec, lemma_masked,
    plc_conceal_spec, rand_n_spec, CngView, ConcealInput, ConcealView, PlcView,
};
use crate::range::RangeState;
use crate::resampler::{any_rate, lemma_resample_len, lemma_resample_silence, lemma_start_wf};
use crate::sigproc::{
    lemma_shl_i32, lshift_sat32_spec, rshift_round_spec, smulbb_spec, smulwb_spec, smulww_spec,
};
use crate::stereo::StereoView;
use crate::synthesis::{
    lemma_lpc_synth_len, lpc_pred_spec, lpc_synth_spec, scaled_sample_spec, valid_fs, zeros_i16,
    zeros_i32, FrameInfo,
};
use vstd::arithmetic::power2::lemma2_to64;
use vstd::prelude::*;

verus! {

/// Concealment that no frame has set up.
pub open spec fn quiet_plc(p: PlcView) -> bool {
    &&& p.ltp_coef_q14 == zeros_i16(5)
    &&& p.fs_khz != 0 ==> {
        &&& p.prev_gain_q16[1] == 65536
        &&& p.nb_subfr == 2
        &&& p.subfr_length == 20
    }
}

/// Comfort noise that no frame has set up.
pub open spec fn quiet_cng(c: CngView) -> bool {
    c.fs_khz != 0 ==> c.cng_smth_gain_q16 == 0
}

impl ChannelView {
    /// No frame was decoded yet.
    pub open spec fn untouched(self) -> bool {
        &&& self.exc_q14 == zeros_i32(320)
        &&& self.synth.out_buf == zeros_i16(480)
        &&& self.synth.s_lpc_q14_buf.len() == 16
        &&& self.first_frame_after_reset
        &&& self.prev_signal_type == TYPE_NO_VOICE_ACTIVITY
        &&& quiet_plc(self.plc)
        &&& quiet_cng(self.cng)
    }
}

/// Products with zero.
proof fn lemma_zero_products()
    ensures
        forall|x: i32| #[trigger] smulwb_spec(0, x) == 0,
        forall|x: i32| #[trigger] smulwb_spec(x, 0) == 0,
        forall|x: i32| #[trigger] smulbb_spec(x, 0) == 0,
        forall|x: i32| #[trigger] smulww_spec(x, 0) == 0,
{
    reveal(smulwb_spec);
    reveal(smulbb_spec);
    reveal(smulww_spec);
    assert(0i32 as i16 == 0);
    assert forall|x: i32| #[trigger] smulwb_spec(0, x) == 0 by {
        assert(0 * (x as i16) == 0);
    }
    assert forall|x: i32| #[trigger] smulwb_spec(x, 0) == 0 by {
        assert(x * 0 == 0);
    }
}

/// The filter of a channel without history has no coefficients.
proof fn lemma_no_filter(p: PlcView, order: int, i: int)
    requires
        0 <= order <= 16,
        0 <= i < 16,
    ensures
        conceal_lpc_spec(p, order, true)[i] == 0,
        conceal_lpc_spec(p, order, true).len() == 16,
{
    lemma2_to64();
    reveal(rshift_round_spec);
    let z = zeros_i16(16);
    if i < order {
        let a = z.subrange(0, order);
        assert(a[i] == 0);
        assert(chirp_spec(crate::plc::BWE_COEF_Q16, i).wrapping_mul(0) == 0);
        assert(bwexpander_spec(a, crate::plc::BWE_COEF_Q16)[i] == 0);
    }
}

/// Without taps and noise, only the rounding of the prediction is left.
proof fn lemma_conceal_ltp(
    ltp: Seq<i32>,
    noise: Seq<i32>,
    b: Seq<i16>,
    scale: i16,
    seed: i32,
    lag: int,
    bi: int,
    n: int,
)
    requires
        b == zeros_i16(5),
        noise == zeros_i32(128),
        0 <= bi,
        0 <= n,
        bi + n <= ltp.len(),
    ensures
        conceal_ltp_spec(ltp, noise, b, scale, seed, lag, bi, n).len() == ltp.len(),
        forall|t: int|
            bi <= t < bi + n ==> #[trigger] conceal_ltp_spec(
                ltp,
                noise,
                b,
                scale,
                seed,
                lag,
                bi,
                n,
            )[t] == 8,
        forall|t: int|
            0 <= t < bi ==> #[trigger] conceal_ltp_spec(
                ltp,
                noise,
                b,
                scale,
                seed,
                lag,
                bi,
                n,
            )[t] == ltp[t],
    decreases n,
{
    if n > 0 {
        lemma_conceal_ltp(ltp, noise, b, scale, seed, lag, bi, n - 1);
        lemma_zero_products();
        lemma2_to64();
        lemma_shl_i32(2, 2);
        lemma_masked(rand_n_spec(seed, n) >> 25u32, 127);
    }
}

/// All subframes of a lost frame of an untouched channel.
proof fn lemma_conceal_subframes(inp: ConcealInput, c: ConcealView, k: int)
    requires
        inp.noise == zeros_i32(128),
        c.b_q14 == zeros_i16(5),
        0 <= k <= 4,
        1 <= inp.subfr_length <= 80,
        0 <= inp.ltp_mem_length <= 320,
        c.ltp_q14.len() == 640,
    ensures
        ({
            let d = conceal_subframes_spec(inp, c, k);
            &&& d.b_q14 == zeros_i16(5)
            &&& d.ltp_q14.len() == 640
            &&& forall|t: int|
                inp.ltp_mem_length <= t < inp.ltp_mem_length + k * inp.subfr_length
                    ==> #[trigger] d.ltp_q14[t] == 8
        }),
    decreases k,
{
    if k > 0 {
        lemma_conceal_subframes(inp, c, k - 1);
        let d = conceal_subframes_spec(inp, c, k - 1);
        let bi = inp.ltp_mem_length + (k - 1) * inp.subfr_length;
        assert(k * inp.subfr_length == (k - 1) * inp.subfr_length + inp.subfr_length && 0 <= (k - 1)
            * inp.subfr_length <= 240) by (nonlinear_arith)
            requires
                1 <= k <= 4,
                1 <= inp.subfr_length <= 80,
        ;
        lemma_conceal_ltp(
            d.ltp_q14,
            inp.noise,
            d.b_q14,
            d.scale_q14,
            d.seed,
            rshift_round_spec(d.pitch_l_q8, 8) as int,
            bi,
            inp.subfr_length,
        );
        lemma_zero_products();
        assert(0i32 >> 15u32 == 0) by (bit_vector);
        assert(conceal_step_spec(inp, d, k - 1).b_q14 =~= zeros_i16(5));
    }
}

proof fn lemma_no_prediction(s: Seq<i32>, a: Seq<i16>, order: int, pos: int, j: int)
    requires
        0 <= j <= a.len(),
        forall|i: int| 0 <= i < a.len() ==> #[trigger] a[i] == 0,
    ensures
        lpc_pred_spec(s, a, order, pos, j) == (order / 2) as i32,
    decreases j,
{
    if j > 0 {
        lemma_no_prediction(s, a, order, pos, j - 1);
        lemma_zero_products();
        assert(a[j - 1] == 0);
    }
}

/// A filter without coefficients hands its input on, up to rounding.
proof fn lemma_flat_synth(hist: Seq<i32>, res: Seq<i32>, a: Seq<i16>, order: int, n: int)
    requires
        order == 10 || order == 16,
        order <= a.len(),
        forall|i: int| 0 <= i < a.len() ==> #[trigger] a[i] == 0,
        0 <= n <= res.len(),
        forall|i: int| 0 <= i < n ==> #[trigger] res[i] == 8,
    ensures
        forall|i: int|
            0 <= i < n ==> #[trigger] lpc_synth_spec(hist, res, a, order, n)[hist.len() + i] == 8
                + 16 * (order / 2),
    decreases n,
{
    if n > 0 {
        lemma_flat_synth(hist, res, a, order, n - 1);
        lemma_lpc_synth_len(hist, res, a, order, n - 1);
        let s = lpc_synth_spec(hist, res, a, order, n - 1);
        lemma_no_prediction(s, a, order, s.len() as int, order);
        lemma2_to64();
        reveal(lshift_sat32_spec);
        assert(lshift_sat32_spec((order / 2) as i32, 4) == 16 * (order / 2));
        assert(res[n - 1] == 8);
    }
}

/// What is left of the rounding is too small for a sample.
proof fn lemma_rounding_is_inaudible()
    ensures
        scaled_sample_spec(88, 65536i32 >> 6u32) == 0,
        scaled_sample_spec(136, 65536i32 >> 6u32) == 0,
        forall|v: i32| #[trigger] scaled_sample_spec(v, 0) == 0,
{
    assert(65536i32 >> 6u32 == 1024) by (bit_vector);
    lemma2_to64();
    lemma_zero_products();
    reveal(smulww_spec);
    reveal(rshift_round_spec);
}

/// Without a noise estimate the comfort noise has no gain.
proof fn lemma_no_comfort_noise(c: CngView, p: PlcView)
    requires
        c.cng_smth_gain_q16 == 0,
        p.prev_gain_q16[1] == 65536,
    ensures
        cng_gain_spec(c, p) == 0,
{
    reveal(smulww_spec);
    let r = p.rand_scale_q14 as int;
    let g = smulww_spec(p.rand_scale_q14 as i32, p.prev_gain_q16[1]);
    assert((r * 65536) / 65536 == r);
    assert(0 <= g * g <= 0x4000_0000) by (nonlinear_arith)
        requires
            -0x8000 <= g <= 0x7fff,
    ;
    lemma2_to64();
    lemma_shl_i32(smulww_spec(g, g), 5);
    lemma_shl_i32(0, 8);
    assert(0i32 >> 6u32 == 0) by (bit_vector);
}

/// The concealed frame of an untouched channel.
proof fn lemma_silent_conceal(c: ChannelView, p: PlcView)
    requires
        c.untouched(),
        c.wf(),
        c.ready(),
        quiet_plc(p),
        p.fs_khz == c.fs_khz,
    ensures
        ({
            let r = plc_conceal_spec(
                p,
                c.synth,
                c.exc_q14,
                c.geometry(),
                c.fs_khz,
                c.loss_cnt,
                c.prev_signal_type,
                true,
            );
            &&& r.frame == zeros_i16(c.frame_length as nat)
            &&& quiet_plc(r.plc)
            &&& r.plc.fs_khz == c.fs_khz
            &&& r.s_lpc_q14_buf.len() == 16
        }),
{
    reveal(plc_conceal_spec);
    lemma_geometry(c);
    let frame = c.geometry();
    let order = frame.lpc_order as int;
    let mem = frame.ltp_mem_length as int;
    let n = c.frame_length as int;
    let lpc = conceal_lpc_spec(p, order, true);
    assert forall|i: int| 0 <= i < lpc.len() implies #[trigger] lpc[i] == 0 by {
        lemma_no_filter(p, order, i);
    }
    lemma_no_filter(p, order, 0);
    let inp = conceal_input_spec(
        p,
        c.exc_q14,
        frame,
        c.fs_khz,
        c.loss_cnt,
        c.prev_signal_type,
        lpc,
    );
    assert(inp.noise =~= zeros_i32(128));
    let start = conceal_start_spec(p, c.synth, frame, c.loss_cnt, c.prev_signal_type, lpc);
    lemma_conceal_subframes(inp, start, frame.nb_subfr as int);
    let d = conceal_subframes_spec(inp, start, frame.nb_subfr as int);
    let res = d.ltp_q14.subrange(mem, mem + n);
    assert forall|i: int| 0 <= i < n implies #[trigger] res[i] == 8 by {
        assert(d.ltp_q14[mem + i] == 8);
    }
    lemma_flat_synth(c.synth.s_lpc_q14_buf, res, lpc, order, n);
    lemma_lpc_synth_len(c.synth.s_lpc_q14_buf, res, lpc, order, n);
    lemma_rounding_is_inaudible();
    let r = plc_conceal_spec(
        p,
        c.synth,
        c.exc_q14,
        frame,
        c.fs_khz,
        c.loss_cnt,
        c.prev_signal_type,
        true,
    );
    let synth = lpc_synth_spec(c.synth.s_lpc_q14_buf, res, lpc, order, n);
    assert forall|i: int| 0 <= i < n implies #[trigger] r.frame[i] == 0 by {
        assert(synth[16 + i] == 8 + 16 * (order / 2));
    }
    assert(r.frame =~= zeros_i16(n as nat));
}

proof fn lemma_geometry(c: ChannelView)
    requires
        c.wf(),
        c.ready(),
    ensures
        ({
            let frame = c.geometry();
            &&& frame.lpc_order == 10 || frame.lpc_order == 16
            &&& frame.ltp_mem_length == 20 * c.fs_khz
            &&& frame.ltp_mem_length == c.ltp_mem_length
            &&& frame.spec_frame_length() == c.frame_length
            &&& frame.nb_subfr * frame.subfr_length == c.frame_length
            &&& 2 <= frame.nb_subfr <= 4
            &&& 40 <= frame.subfr_length <= 80
            &&& c.frame_length <= c.ltp_mem_length <= 320
        }),
{
    reveal(ChannelView::wf);
    let g = c.geometry();
    assert(g == FrameInfo::spec_new(c.fs_khz as int, c.nb_subfr as int));
    g.lemma_bounds();
}

/// A lost frame of a channel that has decoded none yet is silent, and leaves
/// the channel as one that has decoded none yet.
pub proof fn lemma_lost_frame_is_silent(c: ChannelView)
    requires
        c.untouched(),
        c.wf(),
        c.ready(),
        c.loss_cnt < i32::MAX,
    ensures
        c.lost_frame().1 == zeros_i16(c.frame_length as nat),
        c.lost_frame().0.untouched(),
{
    reveal(ChannelView::lost_frame);
    lemma_geometry(c);
    let frame = c.geometry();
    let n = c.frame_length as int;
    let p = c.plc.at_rate(c.fs_khz, n);
    assert(quiet_plc(p));
    lemma_silent_conceal(c, p);
    let r = plc_conceal_spec(
        p,
        c.synth,
        c.exc_q14,
        frame,
        c.fs_khz,
        c.loss_cnt,
        c.prev_signal_type,
        true,
    );
    reveal(cng_spec);
    reveal(glue_spec);
    assert(c.loss_cnt + 1 != 0) by {
        reveal(ChannelView::wf);
    }
    let c1 = c.cng.at_rate(c.fs_khz, frame.lpc_order as int);
    assert(c1.cng_smth_gain_q16 == 0);
    lemma_no_comfort_noise(c1, r.plc);
    lemma_rounding_is_inaudible();
    assert(c.lost_frame().1 =~= zeros_i16(n as nat));
    assert(c.lost_frame().0.synth.out_buf =~= zeros_i16(480));
}

// ---------------------------------------------------------------------
// The decoder
// ---------------------------------------------------------------------

impl SilkView {
    /// No frame was decoded yet, and none has left a trace in the output.
    pub open spec fn untouched(self) -> bool {
        &&& self.ch0.untouched()
        &&& self.ch1.untouched()
        &&& self.ch0.resampler.silent()
        &&& self.ch1.resampler.silent()
        &&& self.stereo.s_mid == zeros_i16(2)
        &&& self.stereo.s_side == zeros_i16(2)
    }
}

proof fn lemma_zero_channel()
    ensures
        ChannelView::zero().untouched(),
        ChannelView::zero().resampler.silent(),
        ChannelView::reset_state().untouched(),
        ChannelView::reset_state().resampler.silent(),
        ChannelView::reset_state().wf(),
{
    reveal(ChannelView::wf);
    lemma_start_wf(8000, 8000, false);
    assert(ChannelView::zero().synth.out_buf =~= zeros_i16(480));
}

/// A new decoder has decoded nothing, nor has one that was reset.
pub proof fn lemma_start_untouched(d: SilkView, n_api: usize)
    ensures
        SilkView::start(n_api).untouched(),
        d.reset_state().untouched(),
{
    lemma_zero_channel();
    assert(StereoView::zero().s_mid =~= zeros_i16(2));
    assert(StereoView::zero().s_side =~= zeros_i16(2));
}

proof fn lemma_begun_untouched(d: SilkView, ctrl: DecControl, new_packet: bool)
    requires
        d.untouched(),
        d.wf(),
    ensures
        d.begun(ctrl, new_packet).untouched(),
        d.begun(ctrl, new_packet).ch0.wf(),
        d.begun(ctrl, new_packet).ch1.wf(),
{
    reveal(SilkView::begun);
    reveal(ChannelView::wf);
    lemma_zero_channel();
}

proof fn lemma_at_rate_untouched(c: ChannelView, layout: (usize, usize), khz: u32, api_hz: i32)
    requires
        c.untouched(),
        c.resampler.silent(),
        c.wf(),
        valid_fs(khz as int),
        layout.1 == 2 || layout.1 == 4,
        any_rate(api_hz),
    ensures
        ({
            let a = laid_out(c, layout).at_rate(khz, api_hz);
            &&& a.untouched()
            &&& a.resampler.silent()
            &&& a.wf()
            &&& a.ready()
        }),
{
    let b = laid_out(c, layout);
    assert(b.wf()) by {
        reveal(ChannelView::wf);
    }
    lemma_at_rate_wf(b, khz, api_hz);
}

/// A call sets an untouched decoder up and leaves it untouched.
proof fn lemma_set_up_untouched(
    d: SilkView,
    present: bool,
    ctrl: DecControl,
    new_packet: bool,
    out_len: int,
)
    requires
        d.untouched(),
        d.decodable(present, ctrl, LostFlag::PacketLost, new_packet, out_len),
        !d.size_refused(ctrl, new_packet),
    ensures
        ({
            let b = d.begun(ctrl, new_packet);
            let p = b.set_up(ctrl).joined(ctrl);
            &&& b.set_up(ctrl).untouched()
            &&& p.ch0 == b.set_up(ctrl).ch0
            &&& p.n_api == ctrl.n_channels_api
            &&& b.set_up_error(ctrl) is None ==> {
                &&& p.untouched()
                &&& p.ch0.wf()
                &&& p.ch1.wf()
                &&& p.ch0.ready()
                &&& p.ch0.loss_cnt < i32::MAX
                &&& p.n_int == 2 ==> p.ch1.ready() && p.ch1.fs_khz == p.ch0.fs_khz
                    && p.ch1.nb_subfr == p.ch0.nb_subfr && p.ch1.loss_cnt < i32::MAX
                &&& d.collapses(ctrl) ==> p.ch1.fs_khz == p.ch0.fs_khz
            }
        }),
{
    let b = d.begun(ctrl, new_packet);
    lemma_begun_untouched(d, ctrl, new_packet);
    reveal(SilkView::begun);
    reveal(SilkView::set_up);
    reveal(SilkView::joined);
    let khz = internal_khz_spec(ctrl.internal_sample_rate);
    let layout = layout_spec(ctrl.payload_size_ms);
    if b.ch0.n_frames_decoded == 0 && layout is Some && valid_fs(khz) && any_rate(
        ctrl.api_sample_rate,
    ) {
        lemma_at_rate_untouched(b.ch0, layout->Some_0, khz as u32, ctrl.api_sample_rate);
        lemma_at_rate_untouched(b.ch1, layout->Some_0, khz as u32, ctrl.api_sample_rate);
    }
    let q = b.set_up(ctrl);
    let p = q.joined(ctrl);
    if b.set_up_error(ctrl) is None {
        assert(p.ch1.wf()) by {
            lemma_rates(q.ch0);
            lemma_rates(q.ch1);
            reveal(ChannelView::wf);
        }
        assert(p.stereo.s_side =~= zeros_i16(2));
    }
}

proof fn lemma_unmixed_silence(d: SilkView, n: int, pred: Seq<i32>)
    requires
        d.untouched(),
        n >= 0,
    ensures
        ({
            let z = zeros_i16(n as nat);
            let (e, left, right) = d.unmixed(z, z, pred);
            &&& e.untouched()
            &&& left == z
            &&& right == z
            &&& e == (SilkView { stereo: e.stereo, ..d })
        }),
{
    reveal(SilkView::unmixed);
    let z = zeros_i16(n as nat);
    let (e, left, right) = d.unmixed(z, z, pred);
    lemma_zero_products();
    lemma2_to64();
    reveal(rshift_round_spec);
    assert(left =~= z);
    assert(right =~= z);
    assert(e.stereo.s_mid =~= zeros_i16(2));
    assert(e.stereo.s_side =~= zeros_i16(2));
}

/// Silent frames make a silent output.
proof fn lemma_resampled_silence(d: SilkView, n: int, collapses: bool, n_out: int, out: Seq<i16>)
    requires
        d.untouched(),
        d.ch0.resampler.wf(),
        d.ch1.resampler.wf(),
        n >= 0,
        n % d.ch0.resampler.fs_in == 0,
        d.n_int == 2 || collapses ==> n % d.ch1.resampler.fs_in == 0,
        d.n_api == 1 || d.n_api == 2,
        0 <= n_out <= usize::MAX,
        d.room(n, collapses, n_out) <= out.len(),
    ensures
        ({
            let z = zeros_i16(n as nat);
            let (e, r, o) = d.resampled(z, z, collapses, n_out, out);
            &&& e.untouched()
            &&& r matches Ok(k) ==> k == n_out && forall|j: int|
                0 <= j < d.n_api * n_out ==> #[trigger] o[j] == 0
        }),
{
    reveal(SilkView::resampled);
    let z = zeros_i16(n as nat);
    lemma_resample_silence(d.ch0.resampler, z);
    lemma_resample_len(d.ch0.resampler, z);
    if d.n_int == 2 || collapses {
        lemma_resample_silence(d.ch1.resampler, z);
        lemma_resample_len(d.ch1.resampler, z);
    }
}

/// What a lost frame leaves as it is.
proof fn lemma_lost_keeps(c: ChannelView)
    ensures
        c.lost_frame().0.resampler == c.resampler,
        c.lost_frame().0.frame_length == c.frame_length,
        c.lost_frame().0.fs_khz == c.fs_khz,
{
    reveal(ChannelView::lost_frame);
}

/// The frames of an untouched decoder.
proof fn lemma_frames_silence(q: SilkView, st: RangeState, present: bool, only_middle: bool)
    requires
        q.untouched(),
        q.ch0.wf(),
        q.ch1.wf(),
        q.ch0.ready(),
        q.ch0.loss_cnt < i32::MAX,
        q.n_int == 2 ==> q.ch1.ready() && q.ch1.fs_khz == q.ch0.fs_khz && q.ch1.nb_subfr
            == q.ch0.nb_subfr && q.ch1.loss_cnt < i32::MAX,
    ensures
        ({
            let f = q.frames(st, present, LostFlag::PacketLost, only_middle);
            &&& f.complete
            &&& f.mid == zeros_i16(q.ch0.frame_length as nat)
            &&& f.side == zeros_i16(q.ch0.frame_length as nat)
            &&& f.d.untouched()
            &&& f.d == (SilkView { ch0: f.d.ch0, ch1: f.d.ch1, ..q })
            &&& f.d.ch0.resampler == q.ch0.resampler
            &&& f.d.ch1.resampler == q.ch1.resampler
            &&& f.d.ch0.frame_length == q.ch0.frame_length
            &&& f.d.ch0.fs_khz == q.ch0.fs_khz
        }),
{
    reveal(SilkView::frames);
    reveal(ChannelView::next_frame);
    lemma_lost_keeps(q.ch0);
    lemma_lost_keeps(q.ch1);
    lemma_lost_frame_is_silent(q.ch0);
    if q.n_int == 2 {
        lemma_lost_frame_is_silent(q.ch1);
    }
}

/// The end of a call on an untouched decoder.
proof fn lemma_finished_silence(
    d: SilkView,
    st: RangeState,
    ctrl: DecControl,
    n: int,
    pred: Seq<i32>,
    only_middle: bool,
    collapses: bool,
    out: Seq<i16>,
)
    requires
        d.untouched(),
        d.ch0.resampler.wf(),
        d.ch1.resampler.wf(),
        n == d.ch0.frame_length,
        n % d.ch0.resampler.fs_in == 0,
        d.n_int == 2 || collapses ==> n % d.ch1.resampler.fs_in == 0,
        d.n_api == 1 || d.n_api == 2,
        0 <= out_len_spec(n, ctrl.api_sample_rate as int, d.ch0.fs_khz as int) <= 960,
        d.frame_room(ctrl, collapses) <= out.len(),
    ensures
        ({
            let z = zeros_i16(n as nat);
            let x = d.finished(
                st,
                ctrl,
                LostFlag::PacketLost,
                z,
                z,
                pred,
                only_middle,
                collapses,
                out,
            );
            &&& x.d.untouched()
            &&& x.r matches Ok(k) ==> forall|j: int|
                0 <= j < d.n_api * k ==> #[trigger] x.out[j] == 0
        }),
{
    reveal(SilkView::finished);
    reveal(SilkView::frame_room);
    lemma_unmixed_silence(d, n, pred);
    let z = zeros_i16(n as nat);
    let e = d.unmixed(z, z, pred).0;
    let n_out = out_len_spec(n, ctrl.api_sample_rate as int, d.ch0.fs_khz as int);
    lemma_resampled_silence(e, n, collapses, n_out, out);
}

/// A call on an untouched decoder that is set up.
proof fn lemma_read_silence(
    p: SilkView,
    st: RangeState,
    present: bool,
    ctrl: DecControl,
    collapses: bool,
    out: Seq<i16>,
)
    requires
        p.untouched(),
        p.ch0.wf(),
        p.ch1.wf(),
        p.ch0.ready(),
        p.ch0.loss_cnt < i32::MAX,
        p.n_int == 2 ==> p.ch1.ready() && p.ch1.fs_khz == p.ch0.fs_khz && p.ch1.nb_subfr
            == p.ch0.nb_subfr && p.ch1.loss_cnt < i32::MAX,
        collapses ==> p.ch1.fs_khz == p.ch0.fs_khz,
        p.n_api == 1 || p.n_api == 2,
        !api_rate_bad(ctrl) ==> p.frame_room(ctrl, collapses) <= out.len(),
    ensures
        ({
            let x = p.read(st, present, ctrl, LostFlag::PacketLost, collapses, out);
            &&& x.d.untouched()
            &&& x.r matches Ok(k) ==> forall|j: int|
                0 <= j < p.n_api * k ==> #[trigger] x.out[j] == 0
        }),
{
    reveal(SilkView::read);
    reveal(SilkView::opened);
    let lost = LostFlag::PacketLost;
    if !api_rate_bad(ctrl) {
        let (s, pred, only_middle) = p.predictors(st, lost);
        let q = p.side_restored(only_middle);
        assert(q.ch1.wf()) by {
            reveal(ChannelView::wf);
        }
        let n = q.ch0.frame_length as int;
        let f = q.frames(s, present, lost, only_middle);
        lemma_frames_silence(q, s, present, only_middle);
        lemma_rates(q.ch0);
        lemma_rates(q.ch1);
        lemma_out_len(q.ch0, ctrl.api_sample_rate as int);
        lemma_frame_ms(n, q.ch0.fs_khz as int, q.ch0.nb_subfr as int);
        assert(f.d.frame_room(ctrl, collapses) == p.frame_room(ctrl, collapses)) by {
            reveal(SilkView::frame_room);
        }
        lemma_finished_silence(f.d, f.st, ctrl, n, pred, only_middle, collapses, out);
    }
}

/// Until the first frame arrives, what a lost one is filled with is silence:
/// a call on a decoder that has decoded none leaves it as such, and if it
/// succeeds, every sample that it gives is zero.
pub proof fn lemma_lost_is_silent(
    d: SilkView,
    st: RangeState,
    present: bool,
    ctrl: DecControl,
    new_packet: bool,
    out: Seq<i16>,
)
    requires
        d.untouched(),
        d.decodable(present, ctrl, LostFlag::PacketLost, new_packet, out.len() as int),
    ensures
        ({
            let x = d.decoded(st, present, ctrl, LostFlag::PacketLost, new_packet, out);
            &&& x.d.untouched()
            &&& x.r matches Ok(k) ==> forall|j: int|
                0 <= j < ctrl.n_channels_api * k ==> #[trigger] x.out[j] == 0
        }),
{
    if !d.size_refused(ctrl, new_packet) {
        lemma_set_up_untouched(d, present, ctrl, new_packet, out.len() as int);
        let b = d.begun(ctrl, new_packet);
        let p = b.set_up(ctrl).joined(ctrl);
        if b.set_up_error(ctrl) is None {
            assert(!p.lacks_decoder(present, LostFlag::PacketLost)) by {
                reveal(SilkView::lacks_decoder);
            }
            lemma_read_silence(p, st, present, ctrl, d.collapses(ctrl), out);
        }
    }
}

} // verus!
