//! A decoder that was reset decodes as a new one.
use crate::channel::ChannelView;
use crate::decode_indices::{CondCoding, ParamsView};
use crate::decoder::{lbrr_coding, past_copy, with_lbrr, with_vad, DecControl, LostFlag, SilkView};
use crate::output::{out_len_spec, Decoded};
use crate::plc::{CngView, PlcView};
use crate::range::RangeState;
use crate::stereo::StereoView;
use vstd::prelude::*;

verus! {

/// Concealment that has not seen a frame.
pub open spec fn unused_plc(p: PlcView) -> bool {
    p == PlcView::zero() || p == PlcView::zero().reset(0)
}

/// Comfort noise that has not seen a frame.
pub open spec fn unused_cng(c: CngView) -> bool {
    c == CngView::zero() || c == CngView::zero().reset(0)
}

/// Two channels alike but for concealment and comfort noise that have not
/// seen a frame.
pub open spec fn alike(a: ChannelView, b: ChannelView) -> bool {
    &&& b == (ChannelView { plc: b.plc, cng: b.cng, ..a })
    &&& a.plc == b.plc || (unused_plc(a.plc) && unused_plc(b.plc))
    &&& a.cng == b.cng || (unused_cng(a.cng) && unused_cng(b.cng))
}

/// Unused concealment and comfort noise start alike.
proof fn lemma_unused(a: ChannelView, b: ChannelView, n: int, order: int)
    requires
        alike(a, b),
        a.fs_khz != 0,
    ensures
        a.plc.at_rate(a.fs_khz, n) == b.plc.at_rate(a.fs_khz, n),
        a.cng.at_rate(a.fs_khz, order) == b.cng.at_rate(a.fs_khz, order),
{
    let c = a.cng.at_rate(a.fs_khz, order);
    let d = b.cng.at_rate(a.fs_khz, order);
    assert(c.cng_smth_nlsf_q15 =~= d.cng_smth_nlsf_q15);
}

/// Reading indices does not touch them.
proof fn lemma_indices_alike(a: ChannelView, b: ChannelView, st: RangeState, p: ParamsView)
    requires
        alike(a, b),
    ensures
        alike(a.with_indices(st, p).0, b.with_indices(st, p).0),
        a.with_indices(st, p).1 == b.with_indices(st, p).1,
{
    reveal(ChannelView::with_indices);
    assert(a.with_indices(st, p).0.pulses =~= b.with_indices(st, p).0.pulses);
}

/// A channel that was reset decodes its first frame as a new one, and is the
/// same from there on.
pub proof fn lemma_first_frame(
    a: ChannelView,
    b: ChannelView,
    st: RangeState,
    lost_flag: LostFlag,
    coding: CondCoding,
)
    requires
        alike(a, b),
        a.fs_khz != 0,
    ensures
        a.next_frame(st, lost_flag, coding) == b.next_frame(st, lost_flag, coding),
{
    reveal(ChannelView::next_frame);
    reveal(crate::plc::cng_spec);
    if a.reads(lost_flag) {
        reveal(ChannelView::coded_frame);
        let p = a.params(lost_flag, coding);
        lemma_indices_alike(a, b, st, p);
        let c = a.with_indices(st, p).0;
        let d = b.with_indices(st, p).0;
        assert(c.fs_khz == a.fs_khz) by {
            reveal(ChannelView::with_indices);
        }
        lemma_unused(c, d, c.frame_length as int, c.geometry().lpc_order as int);
    } else {
        reveal(ChannelView::lost_frame);
        lemma_unused(a, b, a.frame_length as int, a.geometry().lpc_order as int);
    }
}

/// Two decoders whose channels are alike.
pub open spec fn twins(a: SilkView, b: SilkView) -> bool {
    &&& b == (SilkView { ch0: b.ch0, ch1: b.ch1, ..a })
    &&& alike(a.ch0, b.ch0)
    &&& alike(a.ch1, b.ch1)
}

proof fn lemma_flags_alike(a: ChannelView, b: ChannelView, st: RangeState)
    requires
        alike(a, b),
    ensures
        alike(with_vad(a, st).0, with_vad(b, st).0),
        with_vad(a, st).1 == with_vad(b, st).1,
        alike(with_lbrr(a, st).0, with_lbrr(b, st).0),
        with_lbrr(a, st).1 == with_lbrr(b, st).1,
{
    assert(with_vad(a, st).0.vad_flags =~= with_vad(b, st).0.vad_flags);
    assert(with_lbrr(a, st).0.lbrr_flags =~= with_lbrr(b, st).0.lbrr_flags);
}

proof fn lemma_flagged_twins(a: SilkView, b: SilkView, st: RangeState)
    requires
        twins(a, b),
    ensures
        twins(a.flagged(st).0, b.flagged(st).0),
        a.flagged(st).1 == b.flagged(st).1,
{
    reveal(SilkView::flagged);
    lemma_flags_alike(a.ch0, b.ch0, st);
    let (a0, s0) = with_vad(a.ch0, st);
    let b0 = with_vad(b.ch0, st).0;
    if a.n_int == 2 {
        lemma_flags_alike(a.ch1, b.ch1, s0);
        let (a1, s1) = with_vad(a.ch1, s0);
        let b1 = with_vad(b.ch1, s0).0;
        lemma_flags_alike(a0, b0, s1);
        let s2 = with_lbrr(a0, s1).1;
        lemma_flags_alike(a1, b1, s2);
    } else {
        lemma_flags_alike(a0, b0, s0);
    }
}

proof fn lemma_copy_alike(a: ChannelView, b: ChannelView, st: RangeState, i: int)
    requires
        alike(a, b),
    ensures
        alike(past_copy(a, st, i).0, past_copy(b, st, i).0),
        past_copy(a, st, i).1 == past_copy(b, st, i).1,
{
    if a.lbrr_flags[i] {
        lemma_indices_alike(
            a,
            b,
            st,
            ParamsView {
                nlsf_cb: a.nlsf_cb,
                fs_khz: a.fs_khz,
                nb_subfr: a.nb_subfr,
                vad_flag: a.vad_flags[i],
                decode_lbrr: true,
                cond_coding: lbrr_coding(a, i),
            },
        );
    }
}

proof fn lemma_skipped_twins(a: SilkView, b: SilkView, st: RangeState, n: int)
    requires
        twins(a, b),
    ensures
        twins(a.skipped(st, n).0, b.skipped(st, n).0),
        a.skipped(st, n).1 == b.skipped(st, n).1,
    decreases n,
{
    if n > 0 {
        lemma_skipped_twins(a, b, st, n - 1);
        let (c, s) = a.skipped(st, n - 1);
        let d = b.skipped(st, n - 1).0;
        let s0 = c.past_copied_pred(s, n - 1);
        lemma_copy_alike(c.ch0, d.ch0, s0, n - 1);
        lemma_copy_alike(c.ch1, d.ch1, past_copy(c.ch0, s0, n - 1).1, n - 1);
    }
}

proof fn lemma_opened_twins(a: SilkView, b: SilkView, st: RangeState, lost_flag: LostFlag)
    requires
        twins(a, b),
    ensures
        twins(a.opened(st, lost_flag).0, b.opened(st, lost_flag).0),
        a.opened(st, lost_flag).1 == b.opened(st, lost_flag).1,
        a.opened(st, lost_flag).0.same_rates(a),
{
    reveal(SilkView::opened);
    lemma_flagged_twins(a, b, st);
    let (c, s) = a.flagged(st);
    let d = b.flagged(st).0;
    lemma_skipped_twins(c, d, s, c.ch0.n_frames_per_packet as int);
    assert(c.same_rates(a)) by {
        reveal(SilkView::flagged);
    }
    lemma_skipped_rates(c, s, c.ch0.n_frames_per_packet as int);
}

impl SilkView {
    /// The same channels at the same rates.
    pub open spec fn same_rates(self, d: SilkView) -> bool {
        &&& self.n_int == d.n_int
        &&& self.n_api == d.n_api
        &&& self.ch0.fs_khz == d.ch0.fs_khz
        &&& self.ch1.fs_khz == d.ch1.fs_khz
    }
}

proof fn lemma_skipped_rates(d: SilkView, st: RangeState, n: int)
    ensures
        d.skipped(st, n).0.same_rates(d),
    decreases n,
{
    if n > 0 {
        lemma_skipped_rates(d, st, n - 1);
        reveal(ChannelView::with_indices);
    }
}

proof fn lemma_frames_twins(
    a: SilkView,
    b: SilkView,
    st: RangeState,
    present: bool,
    lost_flag: LostFlag,
    only_middle: bool,
)
    requires
        twins(a, b),
        a.ch0.fs_khz != 0,
        a.n_int == 2 ==> a.ch1.fs_khz != 0,
    ensures
        ({
            let f = a.frames(st, present, lost_flag, only_middle);
            let g = b.frames(st, present, lost_flag, only_middle);
            &&& twins(f.d, g.d)
            &&& f.st == g.st
            &&& f.complete == g.complete
            &&& f.mid == g.mid
            &&& f.side == g.side
        }),
{
    reveal(SilkView::frames);
    let k = a.ch0.n_frames_decoded as int;
    let coding = a.coding(a.ch0, false, lost_flag, k);
    lemma_first_frame(a.ch0, b.ch0, st, lost_flag, coding);
    if a.n_int == 2 {
        let s0 = a.mid_frame(st, lost_flag).1;
        lemma_first_frame(a.ch1, b.ch1, s0, lost_flag, a.coding(a.ch1, true, lost_flag, k));
    }
}

proof fn lemma_unmixed_twins(a: SilkView, b: SilkView, mid: Seq<i16>, side: Seq<i16>, pred: Seq<i32>)
    requires
        twins(a, b),
    ensures
        twins(a.unmixed(mid, side, pred).0, b.unmixed(mid, side, pred).0),
        a.unmixed(mid, side, pred).1 == b.unmixed(mid, side, pred).1,
        a.unmixed(mid, side, pred).2 == b.unmixed(mid, side, pred).2,
{
    reveal(SilkView::unmixed);
}

proof fn lemma_first_out_twins(a: SilkView, b: SilkView, left: Seq<i16>, out: Seq<i16>)
    requires
        twins(a, b),
    ensures
        twins(a.first_out(left, out).0, b.first_out(left, out).0),
        a.first_out(left, out).1 == b.first_out(left, out).1,
{
}

proof fn lemma_second_out_twins(a: SilkView, b: SilkView, right: Seq<i16>, out: Seq<i16>)
    requires
        twins(a, b),
    ensures
        twins(a.second_out(right, out).0, b.second_out(right, out).0),
        a.second_out(right, out).1 == b.second_out(right, out).1,
{
}

proof fn lemma_resampled_twins(
    a: SilkView,
    b: SilkView,
    left: Seq<i16>,
    right: Seq<i16>,
    collapses: bool,
    n_out: int,
    out: Seq<i16>,
)
    requires
        twins(a, b),
    ensures
        ({
            let x = a.resampled(left, right, collapses, n_out, out);
            let y = b.resampled(left, right, collapses, n_out, out);
            twins(x.0, y.0) && x.1 == y.1 && x.2 == y.2
        }),
{
    reveal(SilkView::resampled);
    lemma_first_out_twins(a, b, left, out);
    let (c, o) = a.first_out(left, out);
    let d = b.first_out(left, out).0;
    lemma_second_out_twins(c, d, right, o);
}

proof fn lemma_closed_twins(a: SilkView, b: SilkView, lost_flag: LostFlag, only_middle: bool)
    requires
        twins(a, b),
    ensures
        twins(a.closed(lost_flag, only_middle), b.closed(lost_flag, only_middle)),
{
}

proof fn lemma_finished_twins(
    a: SilkView,
    b: SilkView,
    st: RangeState,
    ctrl: DecControl,
    lost_flag: LostFlag,
    mid: Seq<i16>,
    side: Seq<i16>,
    pred: Seq<i32>,
    only_middle: bool,
    collapses: bool,
    out: Seq<i16>,
)
    requires
        twins(a, b),
    ensures
        ({
            let x = a.finished(
                st,
                ctrl,
                lost_flag,
                mid,
                side,
                pred,
                only_middle,
                collapses,
                out,
            );
            let y = b.finished(
                st,
                ctrl,
                lost_flag,
                mid,
                side,
                pred,
                only_middle,
                collapses,
                out,
            );
            same_result(x, y) && twins(x.d, y.d)
        }),
{
    reveal(SilkView::finished);
    lemma_unmixed_twins(a, b, mid, side, pred);
    let (c, left, right) = a.unmixed(mid, side, pred);
    let d = b.unmixed(mid, side, pred).0;
    let n_out = out_len_spec(
        a.ch0.frame_length as int,
        ctrl.api_sample_rate as int,
        a.ch0.fs_khz as int,
    );
    lemma_resampled_twins(c, d, left, right, collapses, n_out, out);
    let e = c.resampled(left, right, collapses, n_out, out).0;
    let g = d.resampled(left, right, collapses, n_out, out).0;
    lemma_closed_twins(e, g, lost_flag, only_middle);
}

/// Two calls that give back the same.
pub open spec fn same_result(x: Decoded, y: Decoded) -> bool {
    &&& x.st == y.st
    &&& x.r == y.r
    &&& x.out == y.out
    &&& x.lag == y.lag
}

proof fn lemma_read_twins(
    a: SilkView,
    b: SilkView,
    st: RangeState,
    present: bool,
    ctrl: DecControl,
    lost_flag: LostFlag,
    collapses: bool,
    out: Seq<i16>,
)
    requires
        twins(a, b),
        a.ch0.fs_khz != 0,
        a.n_int == 2 ==> a.ch1.fs_khz != 0,
    ensures
        ({
            let x = a.read(st, present, ctrl, lost_flag, collapses, out);
            let y = b.read(st, present, ctrl, lost_flag, collapses, out);
            same_result(x, y) && twins(x.d, y.d)
        }),
{
    reveal(SilkView::read);
    lemma_opened_twins(a, b, st, lost_flag);
    let (c, s) = a.opened(st, lost_flag);
    let d = b.opened(st, lost_flag).0;
    let (s1, pred, only_middle) = c.predictors(s, lost_flag);
    assert(d.predictors(s, lost_flag) == c.predictors(s, lost_flag)) by {
        reveal(SilkView::predictors);
    }
    let e = c.side_restored(only_middle);
    let g = d.side_restored(only_middle);
    assert(twins(e, g));
    lemma_frames_twins(e, g, s1, present, lost_flag, only_middle);
    let x = e.frames(s1, present, lost_flag, only_middle);
    let y = g.frames(s1, present, lost_flag, only_middle);
    lemma_finished_twins(
        x.d,
        y.d,
        x.st,
        ctrl,
        lost_flag,
        x.mid,
        x.side,
        pred,
        only_middle,
        collapses,
        out,
    );
}

proof fn lemma_set_up_twins(a: SilkView, b: SilkView, ctrl: DecControl, new_packet: bool)
    requires
        twins(a, b),
        a.wf(),
        ctrl.n_channels_internal == 1 || ctrl.n_channels_internal == 2,
        a.begun(ctrl, new_packet).ch0.n_frames_decoded > 0 ==> ctrl.n_channels_internal <= a.n_int,
    ensures
        ({
            let c = a.begun(ctrl, new_packet);
            let d = b.begun(ctrl, new_packet);
            let p = c.set_up(ctrl).joined(ctrl);
            let q = d.set_up(ctrl).joined(ctrl);
            &&& c.set_up_error(ctrl) == d.set_up_error(ctrl)
            &&& twins(c.set_up(ctrl), d.set_up(ctrl))
            &&& twins(p, q)
            &&& c.set_up_error(ctrl) is None ==> p.ch0.fs_khz != 0 && (p.n_int == 2
                ==> p.ch1.fs_khz != 0)
        }),
{
    let c = a.begun(ctrl, new_packet);
    let d = b.begun(ctrl, new_packet);
    assert(twins(c, d) && c.n_int == a.n_int) by {
        reveal(SilkView::begun);
    }
    assert(c.ch0.n_frames_decoded > 0 ==> c.ch0.fs_khz != 0 && (ctrl.n_channels_internal == 2
        ==> c.ch1.fs_khz != 0)) by {
        reveal(SilkView::begun);
    }
    assert(twins(c.set_up(ctrl), d.set_up(ctrl))) by {
        reveal(SilkView::set_up);
    }
    assert(c.set_up_error(ctrl) is None ==> c.set_up(ctrl).ch0.fs_khz != 0 && (
    ctrl.n_channels_internal == 2 ==> c.set_up(ctrl).ch1.fs_khz != 0)) by {
        reveal(SilkView::set_up);
    }
    reveal(SilkView::joined);
}

/// Decoders that differ only in concealment and comfort noise without a
/// frame stay such, and decode alike.
pub proof fn lemma_twins_decode_alike(
    a: SilkView,
    b: SilkView,
    st: RangeState,
    present: bool,
    ctrl: DecControl,
    lost_flag: LostFlag,
    new_packet: bool,
    out: Seq<i16>,
)
    requires
        twins(a, b),
        a.decodable(present, ctrl, lost_flag, new_packet, out.len() as int),
    ensures
        ({
            let x = a.decoded(st, present, ctrl, lost_flag, new_packet, out);
            let y = b.decoded(st, present, ctrl, lost_flag, new_packet, out);
            same_result(x, y) && twins(x.d, y.d)
        }),
{
    if !a.size_refused(ctrl, new_packet) {
        lemma_set_up_twins(a, b, ctrl, new_packet);
        let c = a.begun(ctrl, new_packet);
        if c.set_up_error(ctrl) is None {
            lemma_read_twins(
                c.set_up(ctrl).joined(ctrl),
                b.begun(ctrl, new_packet).set_up(ctrl).joined(ctrl),
                st,
                present,
                ctrl,
                lost_flag,
                a.collapses(ctrl),
                out,
            );
        }
    }
}

/// A first channel that was never set up. A refused call may have left it the
/// layout of its payload.
pub open spec fn blank(c: ChannelView) -> bool {
    alike(
        ChannelView {
            n_frames_per_packet: c.n_frames_per_packet,
            nb_subfr: c.nb_subfr,
            ..ChannelView::zero()
        },
        c,
    )
}

/// A decoder on which no call has got behind its set up.
pub open spec fn untried(d: SilkView) -> bool {
    &&& blank(d.ch0)
    &&& alike(ChannelView::zero(), d.ch1)
    &&& d.stereo == StereoView::zero()
    &&& !d.prev_only_middle
}

/// Two decoders that cannot be told apart.
pub open spec fn interchangeable(a: SilkView, b: SilkView) -> bool {
    twins(a, b) || (untried(a) && untried(b))
}

/// The set up of untried decoders: refused it leaves them untried, else it
/// makes them alike.
proof fn lemma_set_up_untried(a: SilkView, b: SilkView, ctrl: DecControl, new_packet: bool)
    requires
        untried(a),
        untried(b),
        ctrl.n_channels_internal == 1 || ctrl.n_channels_internal == 2,
    ensures
        ({
            let c = a.begun(ctrl, new_packet);
            let d = b.begun(ctrl, new_packet);
            let p = c.set_up(ctrl).joined(ctrl);
            let q = d.set_up(ctrl).joined(ctrl);
            &&& c.set_up_error(ctrl) == d.set_up_error(ctrl)
            &&& c.set_up_error(ctrl) is Some ==> untried(c.set_up(ctrl)) && untried(d.set_up(ctrl))
            &&& c.set_up_error(ctrl) is None ==> {
                &&& twins(p, q)
                &&& p.ch0.fs_khz != 0
                &&& p.n_int == 2 ==> p.ch1.fs_khz != 0
                &&& !a.collapses(ctrl)
                &&& !b.collapses(ctrl)
            }
        }),
{
    let c = a.begun(ctrl, new_packet);
    let d = b.begun(ctrl, new_packet);
    assert(untried(c) && untried(d)) by {
        reveal(SilkView::begun);
    }
    let p = c.set_up(ctrl);
    let q = d.set_up(ctrl);
    if c.set_up_error(ctrl) is Some {
        assert(untried(p) && untried(q)) by {
            reveal(SilkView::set_up);
        }
    } else {
        assert(alike(p.ch0, q.ch0) && alike(p.ch1, q.ch1) && p.stereo == StereoView::zero()
            && q.stereo == StereoView::zero() && !p.prev_only_middle && !q.prev_only_middle
            && p.ch0.fs_khz != 0 && (ctrl.n_channels_internal == 2 ==> p.ch1.fs_khz != 0
            && p.ch1.resampler == p.ch0.resampler)) by {
            reveal(SilkView::set_up);
        }
        reveal(SilkView::joined);
        assert(p.joined(ctrl).stereo.pred_prev_q13 =~= q.joined(ctrl).stereo.pred_prev_q13);
        assert(p.joined(ctrl).stereo.s_side =~= q.joined(ctrl).stereo.s_side);
    }
}

/// Every call on untried decoders gives back the same, whatever numbers of
/// channels they last had.
proof fn lemma_untried_decode_alike(
    a: SilkView,
    b: SilkView,
    st: RangeState,
    present: bool,
    ctrl: DecControl,
    lost_flag: LostFlag,
    new_packet: bool,
    out: Seq<i16>,
)
    requires
        untried(a),
        untried(b),
        ctrl.n_channels_internal == 1 || ctrl.n_channels_internal == 2,
    ensures
        ({
            let x = a.decoded(st, present, ctrl, lost_flag, new_packet, out);
            let y = b.decoded(st, present, ctrl, lost_flag, new_packet, out);
            same_result(x, y) && interchangeable(x.d, y.d)
        }),
{
    if !a.size_refused(ctrl, new_packet) {
        lemma_set_up_untried(a, b, ctrl, new_packet);
        let c = a.begun(ctrl, new_packet);
        if c.set_up_error(ctrl) is None {
            lemma_read_twins(
                c.set_up(ctrl).joined(ctrl),
                b.begun(ctrl, new_packet).set_up(ctrl).joined(ctrl),
                st,
                present,
                ctrl,
                lost_flag,
                false,
                out,
            );
        }
    }
}

/// The arguments of a call.
pub struct Call {
    pub st: RangeState,
    pub present: bool,
    pub ctrl: DecControl,
    pub lost_flag: LostFlag,
    pub new_packet: bool,
    pub out: Seq<i16>,
}

impl SilkView {
    /// What a call gives back.
    pub open spec fn answer(self, c: Call) -> Decoded {
        self.decoded(c.st, c.present, c.ctrl, c.lost_flag, c.new_packet, c.out)
    }

    /// The decoder behind the first `n` of some calls.
    pub open spec fn after(self, calls: Seq<Call>, n: int) -> SilkView
        decreases n,
    {
        if n <= 0 {
            self
        } else {
            self.after(calls, n - 1).answer(calls[n - 1]).d
        }
    }

    /// Whether every one of some calls may be made.
    pub open spec fn takes(self, calls: Seq<Call>) -> bool {
        forall|i: int|
            0 <= i < calls.len() ==> {
                let c = calls[i];
                (#[trigger] self.after(calls, i)).decodable(
                    c.present,
                    c.ctrl,
                    c.lost_flag,
                    c.new_packet,
                    c.out.len() as int,
                )
            }
    }
}

/// Decoders that cannot be told apart stay so.
proof fn lemma_interchangeable(a: SilkView, b: SilkView, calls: Seq<Call>, n: int)
    requires
        interchangeable(a, b),
        a.takes(calls),
        0 <= n <= calls.len(),
    ensures
        interchangeable(a.after(calls, n), b.after(calls, n)),
        n < calls.len() ==> same_result(
            a.after(calls, n).answer(calls[n]),
            b.after(calls, n).answer(calls[n]),
        ),
    decreases n,
{
    if n > 0 {
        lemma_interchangeable(a, b, calls, n - 1);
        lemma_one_answer(a.after(calls, n - 1), b.after(calls, n - 1), calls[n - 1]);
    }
    if n < calls.len() {
        lemma_one_answer(a.after(calls, n), b.after(calls, n), calls[n]);
    }
}

proof fn lemma_one_answer(a: SilkView, b: SilkView, c: Call)
    requires
        interchangeable(a, b),
        a.decodable(c.present, c.ctrl, c.lost_flag, c.new_packet, c.out.len() as int),
    ensures
        same_result(a.answer(c), b.answer(c)),
        interchangeable(a.answer(c).d, b.answer(c).d),
{
    if twins(a, b) {
        lemma_twins_decode_alike(
            a,
            b,
            c.st,
            c.present,
            c.ctrl,
            c.lost_flag,
            c.new_packet,
            c.out,
        );
    } else {
        lemma_untried_decode_alike(
            a,
            b,
            c.st,
            c.present,
            c.ctrl,
            c.lost_flag,
            c.new_packet,
            c.out,
        );
    }
}

/// A decoder that was reset decodes as a new one: whatever calls a new decoder
/// may get, refused ones among them, each gives back the same on both.
pub proof fn lemma_reset_decodes_as_new(d: SilkView, n_api: usize, calls: Seq<Call>, i: int)
    requires
        SilkView::start(n_api).takes(calls),
        0 <= i < calls.len(),
    ensures
        same_result(
            SilkView::start(n_api).after(calls, i).answer(calls[i]),
            d.reset_state().after(calls, i).answer(calls[i]),
        ),
{
    assert(untried(SilkView::start(n_api)));
    assert(untried(d.reset_state()));
    lemma_interchangeable(SilkView::start(n_api), d.reset_state(), calls, i);
}

} // verus!
