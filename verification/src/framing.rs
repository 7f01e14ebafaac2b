//! How a frame is laid out in a payload, and what becomes of it.
//!
//! The words of a frame are written down here as a coder would write them,
//! from the values that it codes. A range decoder that holds these words is
//! shown to give the values back, and the samples of the frame to be those
//! that the values stand for.
use crate::channel::{codebook_of, lemma_rates, ChannelView, BWE_AFTER_LOSS_Q16};
use crate::decode_indices::{
    CondCoding, EcPrevState, IndicesView, ParamsView, SideState, TYPE_VOICED,
};
use crate::decoder::LostFlag;
use crate::excitation::{excitation_spec, lemma_excitation_ext, shell_blocks};
use crate::gains::{lemma_level_range, level_gain_spec, level_spec};
use crate::nlsf::{
    bwexpander_spec, lemma_nlsf2a_len, lemma_stabilized_spaced, nlsf2a_spec, nlsf_decode_spec,
    nlsf_interpolate_spec, nlsf_raw_spec, MAX_LOOPS,
};
use crate::pitch::{lag_spec, ltp_tap_spec};
use crate::plc::{
    cng_gain_spec, cng_spec, cng_synth_spec, glue_spec, plc_conceal_spec, plc_update_spec,
    rand_n_spec, CngView, PlcView,
};
use crate::outcome::lemma_core_len;
use crate::output::lemma_frame_length;
use crate::range::RangeState;
use crate::sigproc::{sat16_spec, sum_sqr_shift_spec};
use crate::spelling::{
    amplitudes, behind, block_sums, codable, frame_words, lemma_indices_come_back,
    lemma_pulses_come_back, pulse_words, replaced, spells, Word,
};
use crate::synthesis::{
    adjusted_lpc_spec, core_pitch_spec, core_res_spec, core_samples_spec, core_spec,
    core_state_spec, lemma_lpc_synth_len, scaled_sample_spec, CoreInput, CtrlView, FrameInfo,
    SynthView,
};
use crate::tables::LTPSCALES_TABLE_Q14;
use vstd::prelude::*;

verus! {

/// What a coder writes for one frame of one channel.
pub struct Coded {
    pub ix: IndicesView,
    /// Whether the lag is written as a difference, where it may be.
    pub delta: bool,
    /// The pulses, padded to whole blocks.
    pub q: Seq<i16>,
    /// Low bits of each block that are written on their own.
    pub shifts: Seq<int>,
    /// Rate level of the counts.
    pub rate: int,
}

pub open spec fn widened(q: Seq<i16>) -> Seq<int> {
    Seq::new(q.len(), |i: int| q[i] as int)
}

impl Coded {
    /// The words of the frame.
    #[verifier::opaque]
    pub open spec fn words(self, p: ParamsView, ec: EcPrevState, length: int) -> Seq<Word> {
        frame_words(self.ix, p, ec, self.delta) + pulse_words(
            widened(self.q),
            self.shifts,
            self.rate,
            self.ix.signal_type as int,
            self.ix.quant_offset_type as int,
            shell_blocks(length),
        )
    }

    /// Values that can be written.
    #[verifier::opaque]
    pub open spec fn fits(self, p: ParamsView, ec: EcPrevState, length: int) -> bool {
        let n = shell_blocks(length);
        &&& codable(self.ix, p, ec, self.delta)
        &&& self.q.len() == 16 * n
        &&& self.shifts.len() == n
        &&& forall|b: int| 0 <= b < n ==> 0 <= #[trigger] self.shifts[b] <= 10
        &&& forall|b: int|
            0 <= b < n ==> #[trigger] block_sums(amplitudes(widened(self.q), self.shifts), n)[b]
                <= 16
    }

    /// What later frames may refer to.
    pub open spec fn context(self, ec: EcPrevState) -> EcPrevState {
        EcPrevState {
            ec_prev_signal_type: self.ix.signal_type,
            ec_prev_lag_index: if self.ix.signal_type == TYPE_VOICED {
                self.ix.lag_index
            } else {
                ec.ec_prev_lag_index
            },
        }
    }
}

/// A channel holds what was written: pulses, indices and context.
#[verifier::opaque]
pub open spec fn carries(c: ChannelView, f: Coded, p: ParamsView, ec: EcPrevState) -> bool {
    let voiced = f.ix.signal_type == TYPE_VOICED;
    &&& forall|i: int| 0 <= i < f.q.len() ==> #[trigger] c.pulses[i] == f.q[i]
    &&& c.indices.signal_type == f.ix.signal_type
    &&& c.indices.quant_offset_type == f.ix.quant_offset_type
    &&& c.indices.seed == f.ix.seed
    &&& forall|k: int|
        0 <= k < p.nb_subfr ==> #[trigger] c.indices.gains_indices[k] == f.ix.gains_indices[k]
    &&& forall|k: int|
        0 <= k <= p.nlsf_cb.order ==> #[trigger] c.indices.nlsf_indices[k] == f.ix.nlsf_indices[k]
    &&& voiced ==> {
        &&& c.indices.lag_index == f.ix.lag_index
        &&& c.indices.contour_index == f.ix.contour_index
        &&& c.indices.per_index == f.ix.per_index
        &&& forall|k: int|
            0 <= k < p.nb_subfr ==> #[trigger] c.indices.ltp_index[k] == f.ix.ltp_index[k]
        &&& c.indices.ltp_scale_index == (if p.cond_coding == CondCoding::Independently {
            f.ix.ltp_scale_index
        } else {
            0
        })
    }
    &&& c.ec_prev == f.context(ec)
}

impl ChannelView {
    /// A view of arrays has their lengths.
    pub open spec fn shaped(self) -> bool {
        &&& self.indices.shaped()
        &&& self.pulses.len() == 320
        &&& self.exc_q14.len() == 320
        &&& self.synth.out_buf.len() == 480
        &&& self.synth.s_lpc_q14_buf.len() == 16
        &&& self.prev_nlsf_q15.len() == 16
    }
}

/// The channel behind the words of a frame.
pub open spec fn told(c: ChannelView, f: Coded, p: ParamsView) -> ChannelView {
    ChannelView {
        indices: replaced(c.indices, f.ix, p),
        ec_prev: f.context(c.ec_prev),
        pulses: Seq::new(
            320,
            |i: int|
                if i < f.q.len() {
                    f.q[i]
                } else {
                    c.pulses[i]
                },
        ),
        ..c
    }
}

/// Reading the words of a frame leaves what was written.
pub proof fn lemma_told(c: ChannelView, st: RangeState, f: Coded, p: ParamsView)
    requires
        c.shaped(),
        c.frame_length <= 320,
        p.wf(),
        f.fits(p, c.ec_prev, c.frame_length as int),
        spells(st, f.words(p, c.ec_prev, c.frame_length as int)),
    ensures
        c.with_indices(st, p) == (
            told(c, f, p),
            behind(st, f.words(p, c.ec_prev, c.frame_length as int)),
        ),
        told(c, f, p).shaped(),
        carries(told(c, f, p), f, p, c.ec_prev),
{
    reveal(Coded::words);
    reveal(Coded::fits);
    reveal(carries);
    let n = c.frame_length as int;
    let w0 = frame_words(f.ix, p, c.ec_prev, f.delta);
    let w1 = pulse_words(
        widened(f.q),
        f.shifts,
        f.rate,
        f.ix.signal_type as int,
        f.ix.quant_offset_type as int,
        shell_blocks(n),
    );
    crate::spelling::lemma_concat(st, w0, w1);
    let s = SideState { st, ix: c.indices, ec: c.ec_prev };
    lemma_indices_come_back(s, f.ix, p, f.delta);
    lemma_pulses_come_back(
        behind(st, w0),
        widened(f.q),
        f.shifts,
        f.rate,
        f.ix.signal_type as int,
        f.ix.quant_offset_type as int,
        n,
    );
    reveal(ChannelView::with_indices);
    assert(c.with_indices(st, p).0.pulses =~= told(c, f, p).pulses);
}

/// What the words of a frame depend on: rates, activity, and how it is coded.
pub open spec fn written(c: ChannelView, vad: bool, copy: bool, cond_coding: CondCoding) -> ParamsView {
    ParamsView {
        nlsf_cb: c.nlsf_cb,
        fs_khz: c.fs_khz,
        nb_subfr: c.nb_subfr,
        vad_flag: vad,
        decode_lbrr: copy,
        cond_coding,
    }
}

/// The words of a channel's frame depend on a usable codebook.
pub proof fn lemma_written(c: ChannelView, vad: bool, copy: bool, cond_coding: CondCoding)
    requires
        c.wf(),
        c.ready(),
    ensures
        written(c, vad, copy, cond_coding).wf(),
{
    lemma_rates(c);
    reveal(codebook_of);
}

// ---------------------------------------------------------------------
// The samples of a frame
// ---------------------------------------------------------------------

/// The envelope that a frame's indices stand for.
pub open spec fn envelope(c: ChannelView, f: Coded) -> Seq<i16> {
    nlsf_decode_spec(f.ix.nlsf_indices.subrange(0, c.lpc_order + 1), c.nlsf_cb)
}

/// How far the first half of a frame has gone from the envelope before to its
/// own, in quarters: all the way in a short frame, and in the first frame of
/// all.
pub open spec fn quarters(c: ChannelView, f: Coded) -> int {
    if c.nb_subfr != 4 || c.first_frame_after_reset {
        4
    } else {
        f.ix.nlsf_interp_coef_q2 as int
    }
}

/// A filter, expanded behind lost frames, in 16 coefficients.
pub open spec fn filter_of(c: ChannelView, nlsf: Seq<i16>) -> Seq<i16> {
    (if c.loss_cnt != 0 {
        bwexpander_spec(nlsf2a_spec(nlsf), BWE_AFTER_LOSS_Q16)
    } else {
        nlsf2a_spec(nlsf)
    }) + Seq::new((16 - c.lpc_order) as nat, |i: int| 0i16)
}

/// What a frame's values mean for its synthesis.
#[verifier::opaque]
pub open spec fn meaning(c: ChannelView, f: Coded, cond_coding: CondCoding) -> CtrlView {
    let nb = c.nb_subfr as int;
    let voiced = f.ix.signal_type == TYPE_VOICED;
    let own = envelope(c, f);
    CtrlView {
        gains_q16: Seq::new(
            4,
            |k: int|
                if k < nb {
                    level_gain_spec(
                        level_spec(
                            f.ix.gains_indices,
                            c.last_gain_index as int,
                            cond_coding == CondCoding::Conditionally,
                            k + 1,
                        ),
                    ) as i32
                } else {
                    0
                },
        ),
        pred0_q12: filter_of(
            c,
            if quarters(c, f) < 4 {
                nlsf_interpolate_spec(
                    c.prev_nlsf_q15.subrange(0, c.lpc_order as int),
                    own,
                    quarters(c, f),
                )
            } else {
                own
            },
        ),
        pred1_q12: filter_of(c, own),
        pitch_l: Seq::new(
            4,
            |k: int|
                if voiced && k < nb {
                    lag_spec(
                        f.ix.lag_index as int,
                        f.ix.contour_index as int,
                        c.fs_khz as int,
                        nb,
                        k,
                    ) as i32
                } else {
                    0
                },
        ),
        ltp_coef_q14: Seq::new(
            20,
            |j: int|
                if voiced && j < 5 * nb {
                    (128 * ltp_tap_spec(
                        f.ix.per_index as int,
                        f.ix.ltp_index[j / 5] as int,
                        j % 5,
                    )) as i16
                } else {
                    0
                },
        ),
        ltp_scale_q14: if !voiced {
            0
        } else if cond_coding == CondCoding::Independently {
            LTPSCALES_TABLE_Q14@[f.ix.ltp_scale_index as int]
        } else {
            LTPSCALES_TABLE_Q14@[0]
        },
    }
}

/// What the synthesis of a frame is made of: its values, and what the frames
/// before have left.
#[verifier::opaque]
pub open spec fn material(c: ChannelView, f: Coded, cond_coding: CondCoding) -> CoreInput {
    CoreInput {
        ctrl: meaning(c, f, cond_coding),
        exc: excitation_spec(
            f.q,
            f.ix.seed,
            f.ix.signal_type,
            f.ix.quant_offset_type,
            c.frame_length as int,
        ),
        signal_type: f.ix.signal_type,
        interpolated: quarters(c, f) < 4,
        frame: FrameInfo::spec_new(c.fs_khz as int, c.nb_subfr as int),
        loss_cnt: c.loss_cnt,
        prev_signal_type: c.prev_signal_type,
        lag_prev: c.lag_prev,
    }
}

proof fn lemma_level_ext(a: Seq<i8>, b: Seq<i8>, prev: int, conditional: bool, k: int)
    requires
        forall|i: int| 0 <= i < k ==> #[trigger] a[i] == b[i],
    ensures
        level_spec(a, prev, conditional, k) == level_spec(b, prev, conditional, k),
    decreases k,
{
    if k > 0 {
        lemma_level_ext(a, b, prev, conditional, k - 1);
    }
}

proof fn lemma_envelope_len(c: ChannelView, f: Coded)
    requires
        c.nlsf_cb.wf(),
    ensures
        envelope(c, f).len() == c.nlsf_cb.order,
{
    let ix = f.ix.nlsf_indices.subrange(0, c.lpc_order + 1);
    lemma_stabilized_spaced(
        Seq::new(c.nlsf_cb.order as nat, |i: int| nlsf_raw_spec(ix, c.nlsf_cb, i)),
        c.nlsf_cb.delta_min_q15,
        MAX_LOOPS as int,
    );
}

/// What a channel makes of a frame that it was told is what its values mean.
proof fn lemma_meaning(c: ChannelView, f: Coded, p: ParamsView)
    requires
        c.wf(),
        c.ready(),
        c.shaped(),
        p.nlsf_cb == c.nlsf_cb,
        p.nb_subfr == c.nb_subfr,
        f.fits(p, c.ec_prev, c.frame_length as int),
    ensures
        ({
            let conditional = p.cond_coding == CondCoding::Conditionally;
            let d = told(c, f, p);
            let e = d.with_parameters(conditional);
            &&& d.parameters(CtrlView::zero(), conditional) == meaning(c, f, p.cond_coding)
            &&& e.core_input(meaning(c, f, p.cond_coding)) == material(c, f, p.cond_coding)
            &&& e.prev_nlsf_q15 == envelope(c, f) + c.prev_nlsf_q15.subrange(
                c.lpc_order as int,
                16,
            )
            &&& e.last_gain_index == level_spec(
                f.ix.gains_indices,
                c.last_gain_index as int,
                conditional,
                c.nb_subfr as int,
            )
        }),
{
    reveal(Coded::fits);
    reveal(meaning);
    reveal(material);
    let conditional = p.cond_coding == CondCoding::Conditionally;
    let d = told(c, f, p);
    let e = d.with_parameters(conditional);
    let nb = c.nb_subfr as int;
    let order = c.lpc_order as int;
    lemma_rates(c);
    reveal(codebook_of);
    assert(d.indices.nlsf_indices.subrange(0, order + 1) =~= f.ix.nlsf_indices.subrange(
        0,
        order + 1,
    ));
    let m = meaning(c, f, p.cond_coding);
    let k = d.parameters(CtrlView::zero(), conditional);
    assert forall|j: int| 0 <= j <= nb implies #[trigger] level_spec(
        d.indices.gains_indices,
        c.last_gain_index as int,
        conditional,
        j,
    ) == level_spec(f.ix.gains_indices, c.last_gain_index as int, conditional, j) by {
        lemma_level_ext(
            d.indices.gains_indices,
            f.ix.gains_indices,
            c.last_gain_index as int,
            conditional,
            j,
        );
    }
    lemma_level_range(f.ix.gains_indices, c.last_gain_index as int, conditional, nb);
    assert(k.gains_q16 =~= m.gains_q16);
    assert(k.pitch_l =~= m.pitch_l);
    assert(k.ltp_coef_q14 =~= m.ltp_coef_q14);
    lemma_envelope_len(c, f);
    let own = envelope(c, f);
    let mid = nlsf_interpolate_spec(c.prev_nlsf_q15.subrange(0, order), own, quarters(c, f));
    lemma_nlsf2a_len(own);
    lemma_nlsf2a_len(mid);
    let tail = CtrlView::zero().pred1_q12.subrange(order, 16);
    assert(tail =~= Seq::new((16 - order) as nat, |i: int| 0i16));
    assert((nlsf2a_spec(own) + tail).subrange(0, order) =~= nlsf2a_spec(own));
    assert((nlsf2a_spec(own) + tail).subrange(order, 16) =~= tail);
    assert((nlsf2a_spec(mid) + tail).subrange(0, order) =~= nlsf2a_spec(mid));
    assert((nlsf2a_spec(mid) + tail).subrange(order, 16) =~= tail);
    assert(k.pred0_q12 =~= m.pred0_q12);
    assert(k.pred1_q12 =~= m.pred1_q12);
    assert(k =~= m);
    lemma_excitation_ext(
        d.pulses,
        f.q,
        f.ix.seed,
        f.ix.signal_type,
        f.ix.quant_offset_type,
        c.frame_length as int,
    );
}

/// A frame that is there sounds as its values mean: behind a frame that was
/// there its samples go out as they are synthesized, else under the fade of
/// the transition. The channel keeps the values, the samples, the envelope,
/// the gain level, the type and the last lag for the next frame.
pub proof fn lemma_coded_frame_sounds(
    c: ChannelView,
    st: RangeState,
    f: Coded,
    lost_flag: LostFlag,
    cond_coding: CondCoding,
)
    requires
        c.wf(),
        c.ready(),
        c.shaped(),
        c.n_frames_decoded < 3,
        lost_flag == LostFlag::Normal || (lost_flag == LostFlag::DecodeLbrr
            && c.lbrr_flags[c.n_frames_decoded as int]),
        ({
            let p = written(
                c,
                c.vad_flags[c.n_frames_decoded as int],
                lost_flag == LostFlag::DecodeLbrr,
                cond_coding,
            );
            &&& f.fits(p, c.ec_prev, c.frame_length as int)
            &&& spells(st, f.words(p, c.ec_prev, c.frame_length as int))
        }),
    ensures
        ({
            let p = written(
                c,
                c.vad_flags[c.n_frames_decoded as int],
                lost_flag == LostFlag::DecodeLbrr,
                cond_coding,
            );
            let (d, st1, out) = c.next_frame(st, lost_flag, cond_coding);
            let m = material(c, f, cond_coding);
            let xq = core_samples_spec(m, c.synth);
            let mem = c.ltp_mem_length as int;
            let n = c.frame_length as int;
            let nb = c.nb_subfr as int;
            let conditional = cond_coding == CondCoding::Conditionally;
            let lags = CtrlView { pitch_l: core_pitch_spec(m), ..m.ctrl };
            let plc = plc_update_spec(
                c.plc.at_rate(c.fs_khz, n),
                lags,
                m.frame,
                c.fs_khz,
                f.ix.signal_type,
            );
            &&& st1 == behind(st, f.words(p, c.ec_prev, n))
            &&& carries(d, f, p, c.ec_prev)
            &&& d.shaped()
            &&& xq.len() == n
            &&& out == glue_spec(plc, xq, false).1
            &&& !c.plc.last_frame_lost ==> out == xq
            &&& forall|i: int| 0 <= i < n ==> #[trigger] d.synth.out_buf[mem - n + i] == xq[i]
            &&& d.exc_q14.subrange(0, n) == m.exc
            &&& d.last_gain_index == level_spec(
                f.ix.gains_indices,
                c.last_gain_index as int,
                conditional,
                nb,
            )
            &&& d.prev_nlsf_q15.subrange(0, c.lpc_order as int) == envelope(c, f)
            &&& d.lag_prev == core_pitch_spec(m)[nb - 1]
            &&& d.prev_signal_type == f.ix.signal_type
            &&& d.loss_cnt == 0
            &&& !d.first_frame_after_reset
            &&& d.plc == glue_spec(plc, xq, false).0
            &&& d.cng == cng_spec(
                c.cng,
                plc,
                lags,
                m.exc + c.exc_q14.subrange(n, 320),
                xq,
                m.frame,
                c.fs_khz,
                0,
                f.ix.signal_type,
                envelope(c, f) + c.prev_nlsf_q15.subrange(c.lpc_order as int, 16),
            ).0
            &&& d.synth.s_lpc_q14_buf == core_state_spec(m, c.synth).s_lpc_q14_buf
            &&& d.synth.prev_gain_q16 == core_state_spec(m, c.synth).prev_gain_q16
            &&& forall|i: int|
                0 <= i < mem - n ==> #[trigger] d.synth.out_buf[i] == core_state_spec(
                    m,
                    c.synth,
                ).out_buf[n + i]
            &&& d.n_frames_decoded == c.n_frames_decoded
            &&& d.same_setup(c)
        }),
{
    reveal(material);
    let i = c.n_frames_decoded as int;
    let p = written(c, c.vad_flags[i], lost_flag == LostFlag::DecodeLbrr, cond_coding);
    let n = c.frame_length as int;
    let conditional = cond_coding == CondCoding::Conditionally;
    lemma_frame_length(c);
    lemma_rates(c);
    lemma_written(c, c.vad_flags[i], lost_flag == LostFlag::DecodeLbrr, cond_coding);
    lemma_told(c, st, f, p);
    lemma_meaning(c, f, p);
    lemma_envelope_len(c, f);
    assert(c.nlsf_cb.order == c.lpc_order) by {
        reveal(codebook_of);
    }
    reveal(ChannelView::next_frame);
    reveal(ChannelView::coded_frame);
    assert(c.params(lost_flag, cond_coding) == p);
    let m = material(c, f, cond_coding);
    let xq = core_samples_spec(m, c.synth);
    lemma_core_len(m, c.synth, m.frame.nb_subfr as int);
    reveal(core_state_spec);
    assert(xq.len() == n) by {
        reveal(core_samples_spec);
    }
    lemma_core_out_buf(m, c.synth, m.frame.nb_subfr as int);
    let e = told(c, f, p).with_parameters(conditional);
    let lags = CtrlView { pitch_l: core_pitch_spec(m), ..m.ctrl };
    lemma_settled(e, m, lags, xq);
    assert(e.plc == c.plc && e.synth == c.synth);
    lemma_carries(
        told(c, f, p),
        c.next_frame(st, lost_flag, cond_coding).0,
        f,
        p,
        c.ec_prev,
    );
}

/// A channel holds what was written, whatever else it holds.
pub proof fn lemma_carries(a: ChannelView, b: ChannelView, f: Coded, p: ParamsView, ec: EcPrevState)
    requires
        carries(a, f, p, ec),
        b.pulses == a.pulses,
        b.ec_prev == a.ec_prev,
        b.indices == (IndicesView {
            nlsf_interp_coef_q2: b.indices.nlsf_interp_coef_q2,
            per_index: b.indices.per_index,
            ..a.indices
        }),
        f.ix.signal_type == TYPE_VOICED ==> b.indices.per_index == a.indices.per_index,
    ensures
        carries(b, f, p, ec),
{
    reveal(carries);
}

/// What stands behind a frame of the material `m`.
proof fn lemma_settled(e: ChannelView, m: CoreInput, lags: CtrlView, xq: Seq<i16>)
    requires
        e.core_input(m.ctrl) == m,
        lags.pitch_l.len() == 4,
        xq == core_samples_spec(m, e.synth),
        xq.len() == e.frame_length,
        m.exc.len() == e.frame_length,
        e.shaped(),
        e.frame_length <= e.ltp_mem_length <= 320,
        core_state_spec(m, e.synth).out_buf.len() == 480,
        core_state_spec(m, e.synth).s_lpc_q14_buf.len() == 16,
    ensures
        ({
            let (d, out) = e.synthesized(m.ctrl).settled(lags, xq);
            let n = e.frame_length as int;
            let mem = e.ltp_mem_length as int;
            let plc = plc_update_spec(
                e.plc.at_rate(e.fs_khz, n),
                lags,
                e.geometry(),
                e.fs_khz,
                e.indices.signal_type,
            );
            &&& out == glue_spec(plc, xq, false).1
            &&& !e.plc.last_frame_lost ==> out == xq
            &&& forall|i: int| 0 <= i < n ==> #[trigger] d.synth.out_buf[mem - n + i] == xq[i]
            &&& d.exc_q14.subrange(0, n) == m.exc
            &&& d.plc == glue_spec(plc, xq, false).0
            &&& d.cng == cng_spec(
                e.cng,
                plc,
                lags,
                m.exc + e.exc_q14.subrange(n, 320),
                xq,
                e.geometry(),
                e.fs_khz,
                0,
                e.indices.signal_type,
                e.prev_nlsf_q15,
            ).0
            &&& d.synth.s_lpc_q14_buf == core_state_spec(m, e.synth).s_lpc_q14_buf
            &&& d.synth.prev_gain_q16 == core_state_spec(m, e.synth).prev_gain_q16
            &&& forall|i: int|
                0 <= i < mem - n ==> #[trigger] d.synth.out_buf[i] == core_state_spec(
                    m,
                    e.synth,
                ).out_buf[n + i]
            &&& d.lag_prev == lags.pitch_l[e.nb_subfr - 1]
            &&& d.prev_signal_type == e.indices.signal_type
            &&& d.loss_cnt == 0
            &&& !d.first_frame_after_reset
            &&& d.shaped()
            &&& d == (ChannelView {
                synth: d.synth,
                exc_q14: d.exc_q14,
                plc: d.plc,
                cng: d.cng,
                lag_prev: d.lag_prev,
                prev_signal_type: d.prev_signal_type,
                loss_cnt: d.loss_cnt,
                first_frame_after_reset: false,
                ..e
            })
        }),
{
    reveal(cng_spec);
    reveal(plc_update_spec);
    reveal(glue_spec);
    let d = e.synthesized(m.ctrl).settled(lags, xq).0;
    assert(d.exc_q14.subrange(0, e.frame_length as int) =~= m.exc);
}

/// The synthesis leaves the length of the output buffer.
proof fn lemma_core_out_buf(inp: CoreInput, st: SynthView, k: int)
    requires
        k >= 0,
        st.out_buf.len() == 480,
        st.s_lpc_q14_buf.len() == 16,
    ensures
        core_spec(inp, st, k).out_buf.len() == 480,
        core_spec(inp, st, k).s_lpc.len() == 16,
    decreases k,
{
    if k > 0 {
        lemma_core_out_buf(inp, st, k - 1);
        let c = core_spec(inp, st, k - 1);
        lemma_lpc_synth_len(
            adjusted_lpc_spec(c.s_lpc, c.prev_gain_q16, inp.ctrl.gains_q16[k - 1]),
            core_res_spec(inp, c, k - 1),
            inp.filter(k - 1),
            inp.frame.lpc_order as int,
            inp.frame.subfr_length as int,
        );
    }
}

/// A frame that is lost sounds like the frames before it go on: each sample is
/// the one that concealment makes up, with the comfort noise added, and
/// nothing else. The channel keeps what was made up, without the noise, and
/// counts the loss; the type of the last frame that was there stays.
pub proof fn lemma_lost_frame_sounds(c: ChannelView, i: int)
    requires
        c.wf(),
        c.ready(),
        c.shaped(),
        c.loss_cnt < i32::MAX,
        0 <= i < c.frame_length,
    ensures
        ({
            let (d, out) = c.lost_frame();
            let frame = FrameInfo::spec_new(c.fs_khz as int, c.nb_subfr as int);
            let n = c.frame_length as int;
            let r = plc_conceal_spec(
                c.plc.at_rate(c.fs_khz, n),
                c.synth,
                c.exc_q14,
                frame,
                c.fs_khz,
                c.loss_cnt,
                c.prev_signal_type,
                c.first_frame_after_reset,
            );
            let estimate = c.cng.at_rate(c.fs_khz, frame.lpc_order as int);
            let noise = scaled_sample_spec(
                cng_synth_spec(estimate, frame.lpc_order as int, n)[16 + i],
                cng_gain_spec(estimate, r.plc),
            );
            &&& out.len() == n
            &&& out[i] == sat16_spec((r.frame[i] + noise) as i32)
            &&& d.synth.out_buf[c.ltp_mem_length - n + i] == r.frame[i]
            &&& d.synth.s_lpc_q14_buf == r.s_lpc_q14_buf
            &&& d.synth.prev_gain_q16 == c.synth.prev_gain_q16
            &&& d.cng == (CngView {
                cng_synth_state: cng_synth_spec(estimate, frame.lpc_order as int, n).subrange(
                    n,
                    n + 16,
                ),
                rand_seed: rand_n_spec(estimate.rand_seed, n),
                ..estimate
            })
            &&& d.loss_cnt == c.loss_cnt + 1
            &&& d.lag_prev == r.lag
            &&& d.plc.last_frame_lost
            &&& d.plc == (PlcView {
                last_frame_lost: true,
                conc_energy: d.plc.conc_energy,
                conc_energy_shift: d.plc.conc_energy_shift,
                ..r.plc
            })
            &&& (d.plc.conc_energy, d.plc.conc_energy_shift as u32) == sum_sqr_shift_spec(out)
            &&& d == (ChannelView {
                synth: d.synth,
                plc: d.plc,
                cng: d.cng,
                loss_cnt: d.loss_cnt,
                lag_prev: d.lag_prev,
                ..c
            })
        }),
{
    reveal(ChannelView::lost_frame);
    reveal(plc_conceal_spec);
    reveal(cng_spec);
    reveal(glue_spec);
    lemma_rates(c);
    lemma_frame_length(c);
    assert(c.loss_cnt >= 0) by {
        reveal(ChannelView::wf);
    }
    let n = c.frame_length as int;
    assert(FrameInfo::spec_new(c.fs_khz as int, c.nb_subfr as int).spec_frame_length() == n);
}

} // verus!
