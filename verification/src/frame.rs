//! One frame of one channel: decoded if it is there, concealed if not.
use crate::channel::{
    codebook_of, decode_parameters, lemma_rates, order_spec, ChannelState, ChannelView,
};
use crate::decode_indices::{
    decode_indices, decode_indices_spec, CondCoding, EcPrevState, FrameParams, ParamsView,
    SideInfoIndices, SideState, TYPE_VOICED,
};
use crate::decoder::LostFlag;
use crate::error::{CadenceError, Corruption, Result};
use crate::excitation::{decode_pulses, decode_pulses_spec};
use crate::gains::{MAX_GAIN_Q16, MIN_GAIN_Q16};
use crate::plc::{
    cng, cng_spec, glue_spec, lemma_plc_at_rate, lemma_plc_update, lemma_usable_concealable, plc,
    plc_conceal_spec,
    plc_glue_frames, plc_update_spec, tap_sum_spec, CngState, PlcState,
};
use crate::range::{RangeDecoder, RangeState};
use crate::synthesis::{
    core_input_spec, core_pitch_spec, core_samples_spec, core_state_spec, decode_core,
    lemma_core_input, zeros_i16, CoreInput, CtrlView, DecoderControl, FrameInfo, SynthView,
};
use vstd::prelude::*;

verus! {

impl ChannelView {
    /// What decoding the indices of the next frame depends on.
    pub open spec fn params(self, lost_flag: LostFlag, cond_coding: CondCoding) -> ParamsView {
        ParamsView {
            nlsf_cb: self.nlsf_cb,
            fs_khz: self.fs_khz,
            nb_subfr: self.nb_subfr,
            vad_flag: self.vad_flags[self.n_frames_decoded as int],
            decode_lbrr: lost_flag == LostFlag::DecodeLbrr,
            cond_coding,
        }
    }

    /// Whether the next frame is read from the payload.
    pub open spec fn reads(self, lost_flag: LostFlag) -> bool {
        lost_flag == LostFlag::Normal || (lost_flag == LostFlag::DecodeLbrr
            && self.lbrr_flags[self.n_frames_decoded as int])
    }

    /// Indices and pulses of a frame, and the state of the range decoder
    /// behind them.
    #[verifier::opaque]
    pub open spec fn with_indices(self, st: RangeState, p: ParamsView) -> (ChannelView, RangeState) {
        let s = decode_indices_spec(SideState { st, ix: self.indices, ec: self.ec_prev }, p);
        let (q, st1) = decode_pulses_spec(
            s.st,
            s.ix.signal_type as int,
            s.ix.quant_offset_type as int,
            self.frame_length as int,
        );
        (
            ChannelView {
                indices: s.ix,
                ec_prev: s.ec,
                pulses: Seq::new(
                    320,
                    |i: int|
                        if i < q.len() {
                            q[i] as i16
                        } else {
                            self.pulses[i]
                        },
                ),
                ..self
            },
            st1,
        )
    }

    /// What the synthesis of the frame reads.
    pub open spec fn core_input(self, ctrl: CtrlView) -> CoreInput {
        core_input_spec(
            ctrl,
            self.indices,
            self.pulses,
            self.geometry(),
            self.loss_cnt,
            self.prev_signal_type,
            self.lag_prev,
        )
    }

    /// The samples of the frame.
    pub open spec fn samples(self, ctrl: CtrlView) -> Seq<i16> {
        core_samples_spec(self.core_input(ctrl), self.synth)
    }

    /// The channel behind the synthesis.
    pub open spec fn synthesized(self, ctrl: CtrlView) -> ChannelView {
        let inp = self.core_input(ctrl);
        ChannelView {
            synth: core_state_spec(inp, self.synth).with_frame(
                self.samples(ctrl),
                self.ltp_mem_length as int,
            ),
            exc_q14: inp.exc + self.exc_q14.subrange(self.frame_length as int, 320),
            ..self
        }
    }

    /// Concealment, noise estimate and transition behind a good frame with
    /// the samples `xq`: the channel, and the samples as they go out.
    pub open spec fn settled(self, ctrl: CtrlView, xq: Seq<i16>) -> (ChannelView, Seq<i16>) {
        let frame = self.geometry();
        let n = self.frame_length as int;
        let plc = plc_update_spec(
            self.plc.at_rate(self.fs_khz, n),
            ctrl,
            frame,
            self.fs_khz,
            self.indices.signal_type,
        );
        let (cng, noisy) = cng_spec(
            self.cng,
            plc,
            ctrl,
            self.exc_q14,
            xq,
            frame,
            self.fs_khz,
            0,
            self.indices.signal_type,
            self.prev_nlsf_q15,
        );
        let (glued, out) = glue_spec(plc, noisy, false);
        (
            ChannelView {
                plc: glued,
                cng,
                loss_cnt: 0,
                prev_signal_type: self.indices.signal_type,
                first_frame_after_reset: false,
                lag_prev: ctrl.pitch_l[self.nb_subfr - 1],
                ..self
            },
            out,
        )
    }

    /// A frame that is read from the payload.
    #[verifier::opaque]
    pub open spec fn coded_frame(
        self,
        st: RangeState,
        lost_flag: LostFlag,
        cond_coding: CondCoding,
    ) -> (ChannelView, RangeState, Seq<i16>) {
        let (c1, st1) = self.with_indices(st, self.params(lost_flag, cond_coding));
        let conditional = cond_coding == CondCoding::Conditionally;
        let ctrl = c1.parameters(CtrlView::zero(), conditional);
        let c2 = c1.with_parameters(conditional);
        let lags = CtrlView { pitch_l: core_pitch_spec(c2.core_input(ctrl)), ..ctrl };
        let (c3, out) = c2.synthesized(ctrl).settled(lags, c2.samples(ctrl));
        (c3, st1, out)
    }

    /// A frame that is made up from what went before.
    #[verifier::opaque]
    pub open spec fn lost_frame(self) -> (ChannelView, Seq<i16>) {
        let frame = self.geometry();
        let r = plc_conceal_spec(
            self.plc.at_rate(self.fs_khz, self.frame_length as int),
            self.synth,
            self.exc_q14,
            frame,
            self.fs_khz,
            self.loss_cnt,
            self.prev_signal_type,
            self.first_frame_after_reset,
        );
        let (cng, noisy) = cng_spec(
            self.cng,
            r.plc,
            CtrlView { pitch_l: Seq::new(4, |i: int| r.lag), ..CtrlView::zero() },
            self.exc_q14,
            r.frame,
            frame,
            self.fs_khz,
            (self.loss_cnt + 1) as i32,
            self.prev_signal_type,
            self.prev_nlsf_q15,
        );
        let (glued, out) = glue_spec(r.plc, noisy, true);
        (
            ChannelView {
                synth: SynthView { s_lpc_q14_buf: r.s_lpc_q14_buf, ..self.synth }.with_frame(
                    r.frame,
                    self.ltp_mem_length as int,
                ),
                plc: glued,
                cng,
                loss_cnt: (self.loss_cnt + 1) as i32,
                lag_prev: r.lag,
                ..self
            },
            out,
        )
    }

    /// The next frame, read or made up.
    #[verifier::opaque]
    pub open spec fn next_frame(
        self,
        st: RangeState,
        lost_flag: LostFlag,
        cond_coding: CondCoding,
    ) -> (ChannelView, RangeState, Seq<i16>) {
        if self.reads(lost_flag) {
            self.coded_frame(st, lost_flag, cond_coding)
        } else {
            let (c, out) = self.lost_frame();
            (c, st, out)
        }
    }
}

/// Behind a good frame the concealment holds that frame: its own lag and taps
/// if it is voiced, else a lag of 18 ms and no taps.
pub proof fn lemma_good_frame_is_remembered(
    c: ChannelView,
    st: RangeState,
    lost_flag: LostFlag,
    cond_coding: CondCoding,
)
    requires
        c.reads(lost_flag),
    ensures
        ({
            let d = c.next_frame(st, lost_flag, cond_coding).0;
            &&& d.prev_signal_type == d.indices.signal_type
            &&& d.loss_cnt == 0
            &&& !d.first_frame_after_reset
            &&& !d.plc.last_frame_lost
            &&& d.indices.signal_type != TYPE_VOICED ==> {
                &&& d.plc.pitch_l_q8 == (c.fs_khz * 18 * 256) as i32
                &&& d.plc.ltp_coef_q14 == zeros_i16(5)
            }
        }),
{
    reveal(ChannelView::next_frame);
    reveal(ChannelView::coded_frame);
    reveal(ChannelView::with_indices);
    reveal(plc_update_spec);
    reveal(glue_spec);
}

/// A redundant copy that is not there is made up like a lost frame, and takes
/// nothing from the payload.
pub proof fn lemma_missing_copy_is_lost(
    c: ChannelView,
    st1: RangeState,
    st2: RangeState,
    coding1: CondCoding,
    coding2: CondCoding,
)
    requires
        !c.lbrr_flags[c.n_frames_decoded as int],
    ensures
        ({
            let a = c.next_frame(st1, LostFlag::DecodeLbrr, coding1);
            let b = c.next_frame(st2, LostFlag::PacketLost, coding2);
            a.0 == b.0 && a.1 == st1 && b.1 == st2 && a.2 == b.2
        }),
{
    reveal(ChannelView::next_frame);
}

/// A frame keeps the invariant if its own part of the state does.
proof fn lemma_wf_frame(a: ChannelView, b: ChannelView)
    requires
        a.wf(),
        a.ready(),
        b == (ChannelView {
            synth: b.synth,
            exc_q14: b.exc_q14,
            lag_prev: b.lag_prev,
            first_frame_after_reset: b.first_frame_after_reset,
            ec_prev: b.ec_prev,
            indices: b.indices,
            cng: b.cng,
            loss_cnt: b.loss_cnt,
            prev_signal_type: b.prev_signal_type,
            plc: b.plc,
            pulses: b.pulses,
            ..a
        }),
        0 <= b.loss_cnt,
        0 <= b.prev_signal_type <= 2,
        b.prev_signal_type == TYPE_VOICED ==> 2 <= b.lag_prev <= 18 * b.fs_khz,
        b.synth.prev_gain_q16 > 0,
        b.plc_wf(),
        b.cng_wf(),
    ensures
        b.wf(),
{
    reveal(ChannelView::wf);
}

/// What a frame relies on.
proof fn lemma_frame_parts(c: ChannelView)
    requires
        c.wf(),
        c.ready(),
    ensures
        0 <= c.loss_cnt,
        0 <= c.prev_signal_type <= 2,
        c.prev_signal_type == TYPE_VOICED ==> 2 <= c.lag_prev <= 18 * c.fs_khz,
        c.synth.prev_gain_q16 > 0,
        c.plc_wf(),
        c.cng_wf(),
        c.lpc_order == order_spec(c.fs_khz as int),
        c.ltp_mem_length == 20 * c.fs_khz,
        forall|i: int| 0 <= i < 16 ==> 0 <= #[trigger] c.prev_nlsf_q15[i],
        c.geometry().wf(),
        c.geometry().spec_frame_length() == c.frame_length,
        c.geometry().subfr_length == c.subfr_length,
        c.geometry().lpc_order == c.lpc_order,
        c.geometry().ltp_mem_length == c.ltp_mem_length,
        c.frame_length <= c.ltp_mem_length,
        80 <= c.frame_length <= 320,
        c.frame_length % 16 == 0 || c.frame_length == 120,
{
    reveal(ChannelView::wf);
    let g = c.geometry();
    assert(g == FrameInfo::spec_new(c.fs_khz as int, c.nb_subfr as int));
    g.lemma_bounds();
}

impl ChannelState {
    /// Reads indices and pulses of a frame.
    #[verifier::rlimit(60)]
    pub fn read_indices(
        &mut self,
        dec: &mut RangeDecoder<'_>,
        frame_index: usize,
        decode_lbrr: bool,
        cond_coding: CondCoding,
    )
        requires
            old(self).wf(),
            old(self)@.ready(),
            old(dec)@.wf(),
            frame_index < 3,
        ensures
            ({
                let p = ParamsView {
                    nlsf_cb: old(self)@.nlsf_cb,
                    fs_khz: old(self).fs_khz,
                    nb_subfr: old(self).nb_subfr,
                    vad_flag: old(self)@.vad_flags[frame_index as int],
                    decode_lbrr,
                    cond_coding,
                };
                let (c, st) = old(self)@.with_indices(old(dec)@, p);
                &&& final(self)@ == c
                &&& final(dec)@ == st
            }),
            final(self)@.indices.usable(final(self).fs_khz as int, final(self).nb_subfr as int),
            final(self)@.same_setup(old(self)@),
            final(self).loss_cnt == old(self).loss_cnt,
            final(self).wf(),
            final(self)@.ready(),
            final(dec)@.wf(),
    {
        let ghost c0 = self@;
        let ghost st0 = dec@;
        proof {
            lemma_frame_parts(c0);
            lemma_rates(c0);
        }
        assert(self.nlsf_cb@.wf()) by {
            reveal(codebook_of);
        }
        let params = FrameParams {
            nlsf_cb: self.nlsf_cb,
            fs_khz: self.fs_khz,
            nb_subfr: self.nb_subfr,
            frame_index,
            vad_flag: self.vad_flags[frame_index],
            decode_lbrr,
            cond_coding,
        };
        let mut indices: SideInfoIndices = self.indices;
        let mut ec_prev: EcPrevState = self.ec_prev;
        let r = decode_indices(dec, &mut indices, &mut ec_prev, &params);
        assert(r is Ok);
        self.indices = indices;
        self.ec_prev = ec_prev;
        let frame_length: usize = self.frame_length;
        let r = decode_pulses(
            dec,
            &mut self.pulses,
            indices.signal_type as i32,
            indices.quant_offset_type as i32,
            frame_length,
        );
        proof {
            reveal(ChannelView::with_indices);
            let (c, st) = c0.with_indices(st0, params@);
            assert(self.pulses@ =~= c.pulses);
            assert(self@ =~= c);
            lemma_wf_frame(c0, self@);
        }
    }
}

impl ChannelState {
    /// Synthesizes the frame whose parameters are decoded.
    #[verifier::rlimit(60)]
    fn synthesize(&mut self, ctrl: &mut DecoderControl, frame: &mut [i16])
        requires
            old(self).wf(),
            old(self)@.ready(),
            old(self)@.indices.usable(old(self).fs_khz as int, old(self).nb_subfr as int),
            old(frame)@.len() == old(self).frame_length,
            forall|k: int|
                0 <= k < old(self).nb_subfr ==> MIN_GAIN_Q16 <= #[trigger] old(ctrl)@.gains_q16[k]
                    <= MAX_GAIN_Q16,
            old(self).indices.signal_type == TYPE_VOICED ==> forall|k: int|
                0 <= k < old(self).nb_subfr ==> 2 * old(self).fs_khz
                    <= #[trigger] old(ctrl)@.pitch_l[k] <= 18 * old(self).fs_khz,
        ensures
            final(self)@ == old(self)@.synthesized(old(ctrl)@),
            final(frame)@ == old(self)@.samples(old(ctrl)@),
            final(frame)@.len() == old(frame)@.len(),
            final(ctrl)@ == (CtrlView {
                pitch_l: core_pitch_spec(old(self)@.core_input(old(ctrl)@)),
                ..old(ctrl)@
            }),
            final(self).wf(),
    {
        let ghost c0 = self@;
        let ghost k0 = ctrl@;
        proof {
            lemma_frame_parts(c0);
            lemma_core_input(c0.core_input(k0), c0.fs_khz as int);
        }
        let frame_info = FrameInfo::new(self.fs_khz, self.nb_subfr);
        decode_core(
            &mut self.synth,
            ctrl,
            &self.indices,
            &self.pulses,
            frame,
            &mut self.exc_q14,
            &frame_info,
            self.loss_cnt,
            self.prev_signal_type,
            self.lag_prev,
        );
        assert(frame@ =~= c0.samples(k0));
        let mem: usize = self.ltp_mem_length;
        self.synth.update_out_buf(frame, mem);
        proof {
            assert(self@ =~= c0.synthesized(k0));
            lemma_wf_frame(c0, self@);
        }
    }

    /// Concealment, noise estimate and transition behind a good frame.
    #[verifier::rlimit(60)]
    fn settle(&mut self, ctrl: &mut DecoderControl, frame: &mut [i16])
        requires
            old(self).wf(),
            old(self)@.ready(),
            old(self)@.indices.usable(old(self).fs_khz as int, old(self).nb_subfr as int),
            old(frame)@.len() == old(self).frame_length,
            forall|k: int|
                0 <= k < old(self).nb_subfr ==> MIN_GAIN_Q16 <= #[trigger] old(ctrl)@.gains_q16[k]
                    <= MAX_GAIN_Q16,
            forall|k: int|
                0 <= k < old(self).nb_subfr ==> 2 <= #[trigger] old(ctrl)@.pitch_l[k] <= 18
                    * old(self).fs_khz || tap_sum_spec(old(ctrl)@.ltp_coef_q14, k) <= 0,
            old(self).indices.signal_type == TYPE_VOICED ==> 2 <= old(ctrl)@.pitch_l[old(
                self,
            ).nb_subfr - 1] <= 18 * old(self).fs_khz,
        ensures
            ({
                let (c, out) = old(self)@.settled(old(ctrl)@, old(frame)@);
                final(self)@ == c && final(frame)@ == out
            }),
            final(frame)@.len() == old(frame)@.len(),
            final(self).wf(),
    {
        let ghost c0 = self@;
        let ghost k0 = ctrl@;
        let ghost xq = frame@;
        proof {
            lemma_frame_parts(c0);
            lemma_plc_at_rate(c0.plc, c0.fs_khz, c0.frame_length as int);
            lemma_plc_update(
                c0.plc.at_rate(c0.fs_khz, c0.frame_length as int),
                k0,
                c0.geometry(),
                c0.fs_khz,
                c0.indices.signal_type,
            );
        }
        let frame_info = FrameInfo::new(self.fs_khz, self.nb_subfr);
        let frame_length: usize = self.frame_length;
        let mut plc_state: PlcState = self.plc;
        plc(
            &mut plc_state,
            &mut self.synth,
            ctrl,
            &self.exc_q14,
            frame,
            &frame_info,
            self.fs_khz,
            self.loss_cnt,
            self.indices.signal_type,
            self.first_frame_after_reset,
            false,
        );
        let ghost plc1 = plc_state@;
        self.loss_cnt = 0;
        self.prev_signal_type = self.indices.signal_type;
        self.first_frame_after_reset = false;
        let mut cng_state: CngState = self.cng;
        cng(
            &mut cng_state,
            &plc_state,
            ctrl,
            &self.exc_q14,
            frame,
            frame_length,
            &frame_info,
            self.fs_khz,
            0,
            self.prev_signal_type,
            &self.prev_nlsf_q15,
        );
        self.cng = cng_state;
        let ghost noisy = frame@;
        assert(xq.subrange(0, frame_length as int) =~= xq);
        assert(noisy.subrange(0, frame_length as int) =~= noisy);
        plc_glue_frames(&mut plc_state, frame, frame_length, false);
        self.plc = plc_state;
        self.lag_prev = ctrl.pitch_l[self.nb_subfr - 1];
        proof {
            let (c, out) = c0.settled(k0, xq);
            assert(frame@ =~= out);
            assert(self@ =~= c);
            assert(self.plc@.usable(c0.fs_khz as int, 320));
            lemma_wf_frame(c0, self@);
        }
    }

    /// Makes up a frame.
    #[verifier::rlimit(60)]
    fn conceal(&mut self, frame: &mut [i16])
        requires
            old(self).wf(),
            old(self)@.ready(),
            old(frame)@.len() == old(self).frame_length,
            old(self).loss_cnt < i32::MAX,
        ensures
            ({
                let (c, out) = old(self)@.lost_frame();
                final(self)@ == c && final(frame)@ == out
            }),
            final(frame)@.len() == old(frame)@.len(),
            final(self)@.same_setup(old(self)@),
            final(self)@.ready(),
            final(self).wf(),
    {
        let ghost c0 = self@;
        proof {
            lemma_frame_parts(c0);
            lemma_plc_at_rate(c0.plc, c0.fs_khz, c0.frame_length as int);
            lemma_usable_concealable(
                c0.plc.at_rate(c0.fs_khz, c0.frame_length as int),
                c0.geometry(),
                c0.fs_khz as int,
                320,
            );
        }
        let frame_info = FrameInfo::new(self.fs_khz, self.nb_subfr);
        let frame_length: usize = self.frame_length;
        let mut ctrl: DecoderControl = DecoderControl::default();
        let mut plc_state: PlcState = self.plc;
        plc(
            &mut plc_state,
            &mut self.synth,
            &mut ctrl,
            &self.exc_q14,
            frame,
            &frame_info,
            self.fs_khz,
            self.loss_cnt,
            self.prev_signal_type,
            self.first_frame_after_reset,
            true,
        );
        self.loss_cnt = self.loss_cnt + 1;
        let ghost r = plc_conceal_spec(
            c0.plc.at_rate(c0.fs_khz, c0.frame_length as int),
            c0.synth,
            c0.exc_q14,
            c0.geometry(),
            c0.fs_khz,
            c0.loss_cnt,
            c0.prev_signal_type,
            c0.first_frame_after_reset,
        );
        assert(frame@ =~= r.frame);
        let mem: usize = self.ltp_mem_length;
        self.synth.update_out_buf(frame, mem);
        let mut cng_state: CngState = self.cng;
        cng(
            &mut cng_state,
            &plc_state,
            &ctrl,
            &self.exc_q14,
            frame,
            frame_length,
            &frame_info,
            self.fs_khz,
            self.loss_cnt,
            self.prev_signal_type,
            &self.prev_nlsf_q15,
        );
        self.cng = cng_state;
        let ghost noisy = frame@;
        assert(r.frame.subrange(0, frame_length as int) =~= r.frame);
        assert(noisy.subrange(0, frame_length as int) =~= noisy);
        let ghost plc1 = plc_state@;
        plc_glue_frames(&mut plc_state, frame, frame_length, true);
        self.plc = plc_state;
        self.lag_prev = ctrl.pitch_l[self.nb_subfr - 1];
        proof {
            reveal(ChannelView::lost_frame);
            let (c, out) = c0.lost_frame();
            assert(frame@ =~= out);
            assert(self@ =~= c);
            assert(self.plc@.usable(c0.fs_khz as int, 320));
            lemma_wf_frame(c0, self@);
        }
    }
}

impl ChannelState {
    /// Decodes a frame from the payload into `frame`.
    #[verifier::rlimit(60)]
    fn decode_coded_frame(
        &mut self,
        dec: &mut RangeDecoder<'_>,
        frame: &mut [i16],
        lost_flag: LostFlag,
        cond_coding: CondCoding,
    )
        requires
            old(self).wf(),
            old(self)@.ready(),
            old(self).n_frames_decoded < 3,
            old(dec)@.wf(),
            old(frame)@.len() == old(self).frame_length,
        ensures
            ({
                let (c, st, out) = old(self)@.coded_frame(old(dec)@, lost_flag, cond_coding);
                final(self)@ == c && final(dec)@ == st && final(frame)@ == out
            }),
            final(frame)@.len() == old(frame)@.len(),
            final(self)@.same_setup(old(self)@),
            final(self)@.ready(),
            final(self).wf(),
            final(dec)@.wf(),
    {
        let ghost c0 = self@;
        let ghost st0 = dec@;
        let frame_index: usize = self.n_frames_decoded;
        self.read_indices(dec, frame_index, lost_flag == LostFlag::DecodeLbrr, cond_coding);
        let ghost c1 = self@;
        let mut ctrl: DecoderControl = DecoderControl::default();
        decode_parameters(self, &mut ctrl, cond_coding);
        let ghost k = ctrl@;
        let ghost c2 = self@;
        proof {
            assert(c2.indices.usable(c2.fs_khz as int, c2.nb_subfr as int));
        }
        self.synthesize(&mut ctrl, frame);
        proof {
            let lags = ctrl@;
            let inp = c2.core_input(k);
            assert forall|j: int| 0 <= j < c2.nb_subfr implies 2 <= #[trigger] lags.pitch_l[j] <= 18
                * c2.fs_khz || tap_sum_spec(lags.ltp_coef_q14, j) <= 0 by {
                if c1.indices.signal_type == TYPE_VOICED {
                    assert(2 * c1.fs_khz <= k.pitch_l[j] <= 18 * c1.fs_khz);
                    assert(lags.pitch_l[j] == k.pitch_l[j]);
                } else {
                    assert(lags.ltp_coef_q14[5 * j] == 0);
                }
            }
        }
        self.settle(&mut ctrl, frame);
        reveal(ChannelView::coded_frame);
    }

    /// Decodes the next frame into the first `frame_length` samples of
    /// `frame`, or makes it up if it is lost or its redundant copy is missing.
    /// Without a range decoder nothing can be read.
    #[verifier::rlimit(60)]
    pub fn decode_frame(
        &mut self,
        dec: Option<&mut RangeDecoder<'_>>,
        frame: &mut [i16],
        lost_flag: LostFlag,
        cond_coding: CondCoding,
    ) -> (r: Result<usize>)
        requires
            old(self).wf(),
            old(self)@.ready(),
            lost_flag == LostFlag::DecodeLbrr || (lost_flag == LostFlag::Normal && dec is Some)
                ==> old(self).n_frames_decoded < 3,
            old(self).loss_cnt < i32::MAX,
            dec matches Some(d) ==> d@.wf(),
            old(frame)@.len() >= old(self).frame_length,
        ensures
            old(self)@.reads(lost_flag) && dec is None ==> {
                &&& r == Err::<usize, CadenceError>(
                    CadenceError::CorruptData(Corruption::NoRangeDecoder),
                )
                &&& *final(self) == *old(self)
                &&& final(frame)@ == old(frame)@
            },
            dec matches Some(d) ==> {
                let (c, st, out) = old(self)@.next_frame(d@, lost_flag, cond_coding);
                &&& r == Ok::<usize, CadenceError>(old(self).frame_length)
                &&& final(self)@ == c
                &&& final(d)@ == st
                &&& final(d)@.wf()
                &&& final(frame)@ == out + old(frame)@.subrange(
                    old(self).frame_length as int,
                    old(frame)@.len() as int,
                )
                &&& out.len() == old(self).frame_length
            },
            dec is None && !old(self)@.reads(lost_flag) ==> {
                let (c, out) = old(self)@.lost_frame();
                &&& r == Ok::<usize, CadenceError>(old(self).frame_length)
                &&& final(self)@ == c
                &&& final(frame)@ == out + old(frame)@.subrange(
                    old(self).frame_length as int,
                    old(frame)@.len() as int,
                )
                &&& out.len() == old(self).frame_length
            },
            final(frame)@.len() == old(frame)@.len(),
            final(self)@.same_setup(old(self)@),
            final(self)@.ready(),
            final(self).wf(),
    {
        reveal(ChannelView::next_frame);
        let frame_length: usize = self.frame_length;
        let reads: bool = lost_flag == LostFlag::Normal || (lost_flag == LostFlag::DecodeLbrr
            && self.lbrr_flags[self.n_frames_decoded]);
        if reads {
            match dec {
                Some(d) => {
                    let (head, _tail) = frame.split_at_mut(frame_length);
                    self.decode_coded_frame(d, head, lost_flag, cond_coding);
                },
                None => {
                    return Err(CadenceError::CorruptData(Corruption::NoRangeDecoder));
                },
            }
        } else {
            let (head, _tail) = frame.split_at_mut(frame_length);
            self.conceal(head);
        }
        Ok(frame_length)
    }
}

} // verus!
