//! When a call on the decoder succeeds.
use crate::channel::{lemma_at_rate_wf, lemma_rates, ChannelView};
use crate::decode_indices::CondCoding;
use crate::decoder::{internal_khz_spec, laid_out, layout_spec, DecControl, LostFlag, SilkView};
use crate::error::{CadenceError, Corruption};
use crate::output::{lemma_frame_ms, resampled_len};
use crate::payload::lemma_frame_duration;
use crate::plc::{cng_spec, faded_spec, glue_spec, lemma_faded_len, plc_conceal_spec};
use crate::range::RangeState;
use crate::resampler::{any_rate, lemma_start_wf};
use crate::synthesis::{core_samples_spec, core_spec, valid_fs, CoreInput, CtrlView, SynthView};
use vstd::prelude::*;

verus! {

impl ChannelView {
    /// The same frames go the same way out.
    pub open spec fn same_output(self, c: ChannelView) -> bool {
        &&& self.fs_khz == c.fs_khz
        &&& self.nb_subfr == c.nb_subfr
        &&& self.subfr_length == c.subfr_length
        &&& self.frame_length == c.frame_length
        &&& self.resampler == c.resampler
    }
}

impl SilkView {
    pub open spec fn same_output(self, d: SilkView) -> bool {
        &&& self.n_int == d.n_int
        &&& self.n_api == d.n_api
        &&& self.stereo == d.stereo
        &&& self.ch0.same_output(d.ch0)
        &&& self.ch1.same_output(d.ch1)
    }
}

/// A frame does not touch the way out.
pub proof fn lemma_next_frame_output(c: ChannelView, st: RangeState, lost_flag: LostFlag, coding: CondCoding)
    ensures
        c.next_frame(st, lost_flag, coding).0.same_output(c),
{
    reveal(ChannelView::next_frame);
    reveal(ChannelView::coded_frame);
    reveal(ChannelView::lost_frame);
    reveal(ChannelView::with_indices);
}

/// The samples of `k` subframes.
pub proof fn lemma_core_len(inp: CoreInput, st: SynthView, k: int)
    requires
        k >= 0,
    ensures
        core_spec(inp, st, k).xq.len() == k * inp.frame.subfr_length,
    decreases k,
{
    let n = inp.frame.subfr_length as int;
    if k > 0 {
        lemma_core_len(inp, st, k - 1);
        assert(k * n == (k - 1) * n + n) by (nonlinear_arith);
    } else {
        assert(0 * n == 0) by (nonlinear_arith);
    }
}

/// A frame has the length of a frame, whether it is read or made up.
pub proof fn lemma_next_frame_len(
    c: ChannelView,
    st: RangeState,
    lost_flag: LostFlag,
    coding: CondCoding,
)
    requires
        c.ready(),
    ensures
        c.next_frame(st, lost_flag, coding).2.len() == c.frame_length,
{
    reveal(ChannelView::next_frame);
    reveal(ChannelView::coded_frame);
    reveal(ChannelView::lost_frame);
    reveal(plc_conceal_spec);
    reveal(cng_spec);
    reveal(glue_spec);
    if c.reads(lost_flag) {
        let c1 = c.with_indices(st, c.params(lost_flag, coding)).0;
        assert(c1.same_output(c)) by {
            reveal(ChannelView::with_indices);
        }
        let conditional = coding == CondCoding::Conditionally;
        let ctrl = c1.parameters(CtrlView::zero(), conditional);
        let c2 = c1.with_parameters(conditional);
        let inp = c2.core_input(ctrl);
        reveal(core_samples_spec);
        lemma_core_len(inp, c2.synth, inp.frame.nb_subfr as int);
        let xq = c2.samples(ctrl);
        assert(xq.len() == c.frame_length);
        assert forall|g: i32, r: i32| #[trigger] faded_spec(xq, g, r, 0).len() == xq.len() by {
            lemma_faded_len(xq, g, r, 0);
        }
    }
}

proof fn lemma_skipped_output(d: SilkView, st: RangeState, n: int)
    ensures
        d.skipped(st, n).0.same_output(d),
    decreases n,
{
    if n > 0 {
        lemma_skipped_output(d, st, n - 1);
        reveal(ChannelView::with_indices);
    }
}

/// Opening a payload does not touch the way out.
pub proof fn lemma_opened_output(d: SilkView, st: RangeState, lost_flag: LostFlag)
    ensures
        d.opened(st, lost_flag).0.same_output(d),
{
    reveal(SilkView::opened);
    let (e, s) = d.flagged(st);
    assert(e.same_output(d)) by {
        reveal(SilkView::flagged);
    }
    lemma_skipped_output(e, s, e.ch0.n_frames_per_packet as int);
}

proof fn lemma_frames_output(
    d: SilkView,
    st: RangeState,
    present: bool,
    lost_flag: LostFlag,
    only_middle: bool,
)
    requires
        present || lost_flag == LostFlag::PacketLost,
        d.ch0.ready(),
        d.n_int == 2 ==> d.ch1.ready() && d.ch1.frame_length == d.ch0.frame_length,
    ensures
        ({
            let f = d.frames(st, present, lost_flag, only_middle);
            &&& f.complete
            &&& f.d.same_output(d)
            &&& f.mid.len() == d.ch0.frame_length
            &&& f.side.len() == d.ch0.frame_length
        }),
{
    reveal(SilkView::frames);
    let k = d.ch0.n_frames_decoded as int;
    lemma_next_frame_output(d.ch0, st, lost_flag, d.coding(d.ch0, false, lost_flag, k));
    lemma_next_frame_len(d.ch0, st, lost_flag, d.coding(d.ch0, false, lost_flag, k));
    let e = d.past_mid(st, lost_flag);
    let s = d.mid_frame(st, lost_flag).1;
    lemma_next_frame_output(e.ch1, s, lost_flag, e.coding(e.ch1, true, lost_flag, k));
    if d.n_int == 2 {
        lemma_next_frame_len(e.ch1, s, lost_flag, e.coding(e.ch1, true, lost_flag, k));
    }
}

/// The resamplers of a decoder take its frames to `api_khz`.
pub open spec fn goes_out(d: SilkView, collapses: bool, api_khz: int) -> bool {
    &&& d.ch0.ready()
    &&& d.ch0.resampler.fs_in == d.ch0.fs_khz
    &&& d.ch0.resampler.fs_out == api_khz
    &&& d.n_int == 2 || collapses ==> {
        &&& d.ch1.resampler.fs_in == d.ch0.fs_khz
        &&& d.ch1.resampler.fs_out == api_khz
    }
    &&& d.n_int == 2 ==> d.ch1.ready() && d.ch1.frame_length == d.ch0.frame_length
    &&& d.stereo.s_mid.len() == 2
    &&& d.stereo.s_side.len() == 2
}

proof fn lemma_unmixed_output(d: SilkView, mid: Seq<i16>, side: Seq<i16>, pred: Seq<i32>)
    requires
        d.stereo.s_mid.len() == 2,
        d.stereo.s_side.len() == 2,
        side.len() == mid.len(),
    ensures
        d.unmixed(mid, side, pred).0 == (SilkView {
            stereo: d.unmixed(mid, side, pred).0.stereo,
            ..d
        }),
        d.unmixed(mid, side, pred).1.len() == mid.len(),
        d.unmixed(mid, side, pred).2.len() == mid.len(),
{
    reveal(SilkView::unmixed);
}

proof fn lemma_resampled_succeeds(
    d: SilkView,
    left: Seq<i16>,
    right: Seq<i16>,
    collapses: bool,
    n_out: int,
    out: Seq<i16>,
)
    requires
        resampled_len(d.ch0.resampler, left.len() as int) == n_out,
        d.n_int == 2 || collapses ==> resampled_len(d.ch1.resampler, left.len() as int) == n_out,
    ensures
        d.resampled(left, right, collapses, n_out, out).1 == Ok::<usize, CadenceError>(
            n_out as usize,
        ),
{
    reveal(SilkView::resampled);
}

proof fn lemma_finished_succeeds(
    d: SilkView,
    st: RangeState,
    ctrl: DecControl,
    lost_flag: LostFlag,
    mid: Seq<i16>,
    side: Seq<i16>,
    pred: Seq<i32>,
    only_middle: bool,
    collapses: bool,
    out: Seq<i16>,
    api_khz: int,
)
    requires
        goes_out(d, collapses, api_khz),
        8 <= api_khz <= 48,
        ctrl.api_sample_rate == 1000 * api_khz,
        mid.len() == d.ch0.frame_length,
        side.len() == d.ch0.frame_length,
    ensures
        d.finished(
            st,
            ctrl,
            lost_flag,
            mid,
            side,
            pred,
            only_middle,
            collapses,
            out,
        ).r == Ok::<usize, CadenceError>((5 * d.ch0.nb_subfr * api_khz) as usize),
{
    reveal(SilkView::finished);
    lemma_frame_duration(d.ch0, api_khz);
    lemma_frame_ms(d.ch0.frame_length as int, d.ch0.fs_khz as int, d.ch0.nb_subfr as int);
    lemma_unmixed_output(d, mid, side, pred);
    let (e, left, right) = d.unmixed(mid, side, pred);
    lemma_resampled_succeeds(e, left, right, collapses, 5 * d.ch0.nb_subfr * api_khz, out);
}

/// What it takes to decode a frame that is set up.
pub proof fn lemma_read_succeeds(
    d: SilkView,
    st: RangeState,
    present: bool,
    ctrl: DecControl,
    lost_flag: LostFlag,
    collapses: bool,
    out: Seq<i16>,
    api_khz: int,
)
    requires
        present || lost_flag == LostFlag::PacketLost,
        goes_out(d, collapses, api_khz),
        8 <= api_khz <= 48,
        ctrl.api_sample_rate == 1000 * api_khz,
    ensures
        d.read(st, present, ctrl, lost_flag, collapses, out).r == Ok::<usize, CadenceError>(
            (5 * d.ch0.nb_subfr * api_khz) as usize,
        ),
{
    reveal(SilkView::read);
    lemma_opened_output(d, st, lost_flag);
    let (d0, s0) = d.opened(st, lost_flag);
    let (s1, pred, only_middle) = d0.predictors(s0, lost_flag);
    let q = d0.side_restored(only_middle);
    assert(q.same_output(d));
    lemma_frames_output(q, s1, present, lost_flag, only_middle);
    let f = q.frames(s1, present, lost_flag, only_middle);
    lemma_finished_succeeds(
        f.d,
        f.st,
        ctrl,
        lost_flag,
        f.mid,
        f.side,
        pred,
        only_middle,
        collapses,
        out,
        api_khz,
    );
}

/// What becomes of the first frame of a payload: a payload that cannot be set
/// up is refused, so is one that should be read and is not there, and every
/// other gives five samples per subframe and kHz, whatever it holds. The
/// second resampler of a stream that has just turned mono must be set to the
/// output rate already.
pub proof fn lemma_first_frame_outcome(
    d: SilkView,
    st: RangeState,
    present: bool,
    ctrl: DecControl,
    lost_flag: LostFlag,
    out: Seq<i16>,
)
    requires
        d.wf(),
        ctrl.n_channels_internal == 1 || ctrl.n_channels_internal == 2,
        d.collapses(ctrl) ==> d.ch1.fs_api_hz == ctrl.api_sample_rate,
    ensures
        ({
            let r = d.decoded(st, present, ctrl, lost_flag, true, out).r;
            match d.begun(ctrl, true).set_up_error(ctrl) {
                Some(e) => r == Err::<usize, CadenceError>(e),
                None => if present || lost_flag == LostFlag::PacketLost {
                    r == Ok::<usize, CadenceError>(
                        (5 * layout_spec(ctrl.payload_size_ms)->Some_0.1 * (
                        ctrl.api_sample_rate as int / 1000)) as usize,
                    )
                } else {
                    r == Err::<usize, CadenceError>(
                        CadenceError::CorruptData(Corruption::NoRangeDecoder),
                    )
                },
            }
        }),
{
    let b = d.begun(ctrl, true);
    lemma_begun_wf(d, ctrl);
    if b.set_up_error(ctrl) is None {
        lemma_set_up_goes_out(d, ctrl);
        let p = b.set_up(ctrl).joined(ctrl);
        if present || lost_flag == LostFlag::PacketLost {
            lemma_read_succeeds(
                p,
                st,
                present,
                ctrl,
                lost_flag,
                d.collapses(ctrl),
                out,
                ctrl.api_sample_rate as int / 1000,
            );
        } else {
            reveal(SilkView::read);
        }
    }
}

/// A payload that begins keeps the channels well formed.
pub proof fn lemma_begun_wf(d: SilkView, ctrl: DecControl)
    requires
        d.wf(),
    ensures
        d.begun(ctrl, true).ch0.wf(),
        d.begun(ctrl, true).ch1.wf(),
        d.begun(ctrl, true).ch0.n_frames_decoded == 0,
        d.begun(ctrl, true) == (SilkView {
            ch0: d.begun(ctrl, true).ch0,
            ch1: d.begun(ctrl, true).ch1,
            ..d
        }),
        ctrl.n_channels_internal <= d.n_int && ctrl.n_channels_internal != 2 ==> d.begun(
            ctrl,
            true,
        ).ch1 == d.ch1,
{
    reveal(SilkView::begun);
    reveal(ChannelView::wf);
    lemma_start_wf(8000, 8000, false);
}

/// A payload that can be set up can go out.
proof fn lemma_set_up_goes_out(d: SilkView, ctrl: DecControl)
    requires
        d.wf(),
        ctrl.n_channels_internal == 1 || ctrl.n_channels_internal == 2,
        d.collapses(ctrl) ==> d.ch1.fs_api_hz == ctrl.api_sample_rate,
        d.begun(ctrl, true).set_up_error(ctrl) is None,
    ensures
        ({
            let p = d.begun(ctrl, true).set_up(ctrl).joined(ctrl);
            &&& goes_out(p, d.collapses(ctrl), ctrl.api_sample_rate as int / 1000)
            &&& p.ch0.nb_subfr == layout_spec(ctrl.payload_size_ms)->Some_0.1
            &&& p.ch0.n_frames_decoded == 0
            &&& any_rate(ctrl.api_sample_rate)
        }),
{
    let b = d.begun(ctrl, true);
    lemma_begun_wf(d, ctrl);
    let khz = internal_khz_spec(ctrl.internal_sample_rate) as u32;
    let layout = layout_spec(ctrl.payload_size_ms)->Some_0;
    lemma_set_up_channel(b.ch0, layout, khz, ctrl.api_sample_rate);
    lemma_set_up_channel(b.ch1, layout, khz, ctrl.api_sample_rate);
    lemma_rates(d.ch1);
    reveal(SilkView::set_up);
    reveal(SilkView::joined);
}

/// A channel at new rates.
proof fn lemma_set_up_channel(c: ChannelView, layout: (usize, usize), khz: u32, api_hz: i32)
    requires
        c.wf(),
        valid_fs(khz as int),
        layout.1 == 2 || layout.1 == 4,
        any_rate(api_hz),
    ensures
        ({
            let a = laid_out(c, layout).at_rate(khz, api_hz);
            &&& a.ready()
            &&& a.fs_khz == khz
            &&& a.nb_subfr == layout.1
            &&& a.resampler.fs_in == khz
            &&& a.resampler.fs_out * 1000 == api_hz
        }),
{
    let b = laid_out(c, layout);
    assert(b.wf()) by {
        reveal(ChannelView::wf);
    }
    lemma_at_rate_wf(b, khz, api_hz);
    lemma_rates(b.at_rate(khz, api_hz));
}

} // verus!
