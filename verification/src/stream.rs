//! What a payload holds is what comes out of it.
//!
//! A payload is written down here as a coder writes it: the flags of its
//! frames, the redundant copies of earlier frames, then frame by frame the
//! stereo weights and the words of the channels. The decoder is shown to give
//! back what was written, call by call.
use crate::channel::{lemma_at_rate_wf, lemma_rates, no_flags, ChannelView};
use crate::decode_indices::{bits_stage, CondCoding, EcPrevState, ParamsView, TYPE_VOICED};
use crate::decoder::{
    internal_khz_spec, laid_out, layout_spec, lemma_shared_resampler_wf, past_copy, with_lbrr, with_vad,
    DecControl, LostFlag, SilkView,
};
use crate::error::CadenceError;
use crate::framing::{
    carries, lemma_carries, lemma_coded_frame_sounds, lemma_lost_frame_sounds, lemma_told, lemma_written, written,
    Coded,
};
use crate::gains::level_spec;
use crate::outcome::{lemma_begun_wf, lemma_read_succeeds};
use crate::output::{
    exported_lag, interleaved, lemma_frame_length, lemma_frame_ms, lemma_out_len, out_len_spec, resampled_len, Decoded,
};
use crate::range::{bit_next, bit_value, RangeState};
use crate::resampler::{any_rate, lemma_resample_len, ResamplerView};
use crate::sigproc::sat16_spec;
use crate::spelling::{behind, lemma_concat, lemma_one, one, spells, Word};
use crate::stereo::{decode_pred_spec, pred_value_spec, side_at_spec, StereoView};
use crate::synthesis::{valid_fs, zeros_i16, zeros_i32, SynthView};
use crate::tables::{
    nlsf_cb_spec, LBRR_FLAGS_2_ICDF, LBRR_FLAGS_3_ICDF, STEREO_ONLY_CODE_MID_ICDF, STEREO_PRED_JOINT_ICDF,
    UNIFORM3_ICDF, UNIFORM5_ICDF,
};
use vstd::prelude::*;

verus! {

// ---------------------------------------------------------------------
// Bits and weights
// ---------------------------------------------------------------------

/// The range decoder behind some even bits.
pub open spec fn past_bits(st: RangeState, bits: Seq<bool>) -> RangeState
    decreases bits.len(),
{
    if bits.len() == 0 {
        st
    } else {
        bit_next(past_bits(st, bits.drop_last()), 1)
    }
}

/// Whether a range decoder holds some even bits next.
pub open spec fn bits_spelled(st: RangeState, bits: Seq<bool>) -> bool
    decreases bits.len(),
{
    bits.len() == 0 || (bits_spelled(st, bits.drop_last()) && bit_value(
        past_bits(st, bits.drop_last()),
        1,
    ) == bits.last())
}

proof fn lemma_past_bits(st: RangeState, bits: Seq<bool>)
    ensures
        past_bits(st, bits) == bits_stage(st, bits.len() as int),
    decreases bits.len(),
{
    if bits.len() > 0 {
        lemma_past_bits(st, bits.drop_last());
    }
}

proof fn lemma_bits_spelled(st: RangeState, bits: Seq<bool>, i: int)
    requires
        bits_spelled(st, bits),
        0 <= i < bits.len(),
    ensures
        bit_value(bits_stage(st, i), 1) == bits[i],
    decreases bits.len(),
{
    lemma_past_bits(st, bits.drop_last());
    if i < bits.len() - 1 {
        lemma_bits_spelled(st, bits.drop_last(), i);
    }
}

/// The symbols of a pair of stereo weights.
pub struct Weights {
    pub joint: int,
    pub low0: int,
    pub sub0: int,
    pub low1: int,
    pub sub1: int,
}

impl Weights {
    #[verifier::opaque]
    pub open spec fn words(self) -> Seq<Word> {
        one(STEREO_PRED_JOINT_ICDF@, self.joint) + (one(UNIFORM3_ICDF@, self.low0) + (one(
            UNIFORM5_ICDF@,
            self.sub0,
        ) + (one(UNIFORM3_ICDF@, self.low1) + one(UNIFORM5_ICDF@, self.sub1))))
    }

    /// The weight of the mid channel on top of the second one.
    pub open spec fn first(self) -> int {
        pred_value_spec(self.low0 + 3 * (self.joint / 5), self.sub0) - self.second()
    }

    pub open spec fn second(self) -> int {
        pred_value_spec(self.low1 + 3 * (self.joint % 5), self.sub1)
    }
}

proof fn lemma_weights(st: RangeState, w: Weights)
    requires
        spells(st, w.words()),
    ensures
        decode_pred_spec(st) == (behind(st, w.words()), w.first(), w.second()),
{
    reveal(Weights::words);
    reveal(decode_pred_spec);
    let w0 = one(STEREO_PRED_JOINT_ICDF@, w.joint);
    let w1 = one(UNIFORM3_ICDF@, w.low0);
    let w2 = one(UNIFORM5_ICDF@, w.sub0);
    let w3 = one(UNIFORM3_ICDF@, w.low1);
    let w4 = one(UNIFORM5_ICDF@, w.sub1);
    crate::spelling::lemma_five(st, w0, w1, w2, w3, w4);
    lemma_one(st, STEREO_PRED_JOINT_ICDF@, w.joint);
    let s0 = behind(st, w0);
    lemma_one(s0, UNIFORM3_ICDF@, w.low0);
    let s1 = behind(s0, w1);
    lemma_one(s1, UNIFORM5_ICDF@, w.sub0);
    let s2 = behind(s1, w2);
    lemma_one(s2, UNIFORM3_ICDF@, w.low1);
    let s3 = behind(s2, w3);
    lemma_one(s3, UNIFORM5_ICDF@, w.sub1);
}

// ---------------------------------------------------------------------
// Flags
// ---------------------------------------------------------------------

/// The flags of one channel's frames: which are active, and which have a
/// redundant copy in the payload.
pub struct Flags {
    pub vad: Seq<bool>,
    pub copy: Seq<bool>,
}

/// The flags as a channel keeps them.
pub open spec fn kept(flags: Seq<bool>) -> Seq<bool> {
    Seq::new(3, |i: int| i < flags.len() && flags[i])
}

impl Flags {
    pub open spec fn any_copy(self) -> bool {
        exists|i: int| 0 <= i < self.copy.len() && #[trigger] self.copy[i]
    }

    /// The bits: one for each frame, and one that tells of copies.
    pub open spec fn bits(self) -> Seq<bool> {
        self.vad.push(self.any_copy())
    }

    /// Which frames have a copy, as a number.
    pub open spec fn pattern(self) -> int {
        (if self.copy[0] {
            1int
        } else {
            0
        }) + (if self.copy[1] {
            2int
        } else {
            0
        }) + (if self.copy.len() > 2 && self.copy[2] {
            4int
        } else {
            0
        })
    }

    /// Where there are copies of more than one frame, one word tells which.
    pub open spec fn words(self) -> Seq<Word> {
        if !self.any_copy() || self.copy.len() == 1 {
            Seq::empty()
        } else if self.copy.len() == 2 {
            one(LBRR_FLAGS_2_ICDF@, self.pattern() - 1)
        } else {
            one(LBRR_FLAGS_3_ICDF@, self.pattern() - 1)
        }
    }

    pub open spec fn of(self, n: int) -> bool {
        self.vad.len() == n && self.copy.len() == n
    }
}

/// A channel with its flags.
pub open spec fn flagged_channel(c: ChannelView, f: Flags) -> ChannelView {
    ChannelView {
        vad_flags: kept(f.vad),
        lbrr_flag: f.any_copy(),
        lbrr_flags: kept(f.copy),
        ..c
    }
}

proof fn lemma_vad(c: ChannelView, st: RangeState, f: Flags)
    requires
        f.of(c.n_frames_per_packet as int),
        bits_spelled(st, f.bits()),
    ensures
        with_vad(c, st) == (
            ChannelView { vad_flags: kept(f.vad), lbrr_flag: f.any_copy(), ..c },
            past_bits(st, f.bits()),
        ),
{
    let n = c.n_frames_per_packet as int;
    lemma_past_bits(st, f.bits());
    assert forall|i: int| 0 <= i <= n implies bit_value(#[trigger] bits_stage(st, i), 1)
        == f.bits()[i] by {
        lemma_bits_spelled(st, f.bits(), i);
    }
    assert(with_vad(c, st).0.vad_flags =~= kept(f.vad));
}

proof fn lemma_copy_flags(c: ChannelView, st: RangeState, f: Flags)
    requires
        1 <= c.n_frames_per_packet <= 3,
        f.of(c.n_frames_per_packet as int),
        c.lbrr_flag == f.any_copy(),
        spells(st, f.words()),
    ensures
        with_lbrr(c, st) == (
            ChannelView { lbrr_flags: kept(f.copy), ..c },
            behind(st, f.words()),
        ),
{
    lemma_one(st, LBRR_FLAGS_2_ICDF@, f.pattern() - 1);
    lemma_one(st, LBRR_FLAGS_3_ICDF@, f.pattern() - 1);
    let n = c.n_frames_per_packet as int;
    if f.any_copy() {
        let i = choose|i: int| 0 <= i < n && #[trigger] f.copy[i];
        assert(f.copy[i]);
        assert(n == 1 ==> i == 0);
        assert(with_lbrr(c, st).0.lbrr_flags =~= kept(f.copy));
    } else {
        assert forall|i: int| 0 <= i < n implies !(#[trigger] f.copy[i]) by {}
        assert(no_flags() =~= kept(f.copy));
    }
}

/// The flags of a payload are those that were written.
proof fn lemma_flags(d: SilkView, st: RangeState, f0: Flags, f1: Flags)
    requires
        1 <= d.ch0.n_frames_per_packet <= 3,
        f0.of(d.ch0.n_frames_per_packet as int),
        d.n_int == 2 ==> d.ch1.n_frames_per_packet == d.ch0.n_frames_per_packet && f1.of(
            d.ch0.n_frames_per_packet as int,
        ),
        bits_spelled(st, f0.bits()),
        d.n_int == 2 ==> bits_spelled(past_bits(st, f0.bits()), f1.bits()),
        d.n_int == 2 ==> spells(
            past_bits(past_bits(st, f0.bits()), f1.bits()),
            f0.words() + f1.words(),
        ),
        d.n_int != 2 ==> spells(past_bits(st, f0.bits()), f0.words()),
    ensures
        d.flagged(st) == (
            SilkView {
                ch0: flagged_channel(d.ch0, f0),
                ch1: if d.n_int == 2 {
                    flagged_channel(d.ch1, f1)
                } else {
                    d.ch1
                },
                ..d
            },
            if d.n_int == 2 {
                behind(
                    past_bits(past_bits(st, f0.bits()), f1.bits()),
                    f0.words() + f1.words(),
                )
            } else {
                behind(past_bits(st, f0.bits()), f0.words())
            },
        ),
{
    reveal(SilkView::flagged);
    lemma_vad(d.ch0, st, f0);
    let s0 = past_bits(st, f0.bits());
    let a0 = with_vad(d.ch0, st).0;
    if d.n_int == 2 {
        lemma_vad(d.ch1, s0, f1);
        let a1 = with_vad(d.ch1, s0).0;
        let s1 = past_bits(s0, f1.bits());
        lemma_concat(s1, f0.words(), f1.words());
        lemma_copy_flags(a0, s1, f0);
        lemma_copy_flags(a1, behind(s1, f0.words()), f1);
    } else {
        lemma_copy_flags(a0, s0, f0);
    }
}

// ---------------------------------------------------------------------
// Copies
// ---------------------------------------------------------------------

/// The redundant copies of a payload, one entry for each frame; those of
/// frames without a copy do not count.
pub struct Copies {
    pub mid: Seq<Coded>,
    pub side: Seq<Coded>,
    pub weights: Seq<Weights>,
    pub only: Seq<int>,
}

/// A copy is coded on top of the copy of the frame before, if there is one.
pub open spec fn copy_coding(copy: Seq<bool>, i: int) -> CondCoding {
    if i > 0 && copy[i - 1] {
        CondCoding::Conditionally
    } else {
        CondCoding::Independently
    }
}

/// What the copy of frame `n` may refer to.
pub open spec fn copies_context(copy: Seq<bool>, cs: Seq<Coded>, ec: EcPrevState, n: int) -> EcPrevState
    decreases n,
{
    if n <= 0 {
        ec
    } else {
        let e = copies_context(copy, cs, ec, n - 1);
        if copy[n - 1] {
            cs[n - 1].context(e)
        } else {
            e
        }
    }
}

/// How the copy of frame `i` is written.
pub open spec fn copy_params(c: ChannelView, f: Flags, i: int) -> ParamsView {
    written(c, f.vad[i], true, copy_coding(f.copy, i))
}

/// The words of the copy of frame `i`.
pub open spec fn copy_words(c: ChannelView, f: Flags, cs: Seq<Coded>, i: int) -> Seq<Word> {
    if f.copy[i] {
        cs[i].words(
            copy_params(c, f, i),
            copies_context(f.copy, cs, c.ec_prev, i),
            c.frame_length as int,
        )
    } else {
        Seq::empty()
    }
}

pub open spec fn copies_fit(c: ChannelView, f: Flags, cs: Seq<Coded>) -> bool {
    forall|i: int|
        0 <= i < f.copy.len() && #[trigger] f.copy[i] ==> cs[i].fits(
            copy_params(c, f, i),
            copies_context(f.copy, cs, c.ec_prev, i),
            c.frame_length as int,
        )
}

/// In front of the copy of a stereo frame stand its weights, and, where the
/// side channel has no copy, whether it is left out.
pub open spec fn copy_front(stereo: bool, f0: Flags, f1: Flags, cp: Copies, i: int) -> Seq<Word> {
    if stereo && f0.copy[i] {
        cp.weights[i].words() + if f1.copy[i] {
            Seq::empty()
        } else {
            one(STEREO_ONLY_CODE_MID_ICDF@, cp.only[i])
        }
    } else {
        Seq::empty()
    }
}

/// The copies of the first `n` frames.
pub open spec fn copies_words(d: SilkView, f0: Flags, f1: Flags, cp: Copies, n: int) -> Seq<Word>
    decreases n,
{
    if n <= 0 {
        Seq::empty()
    } else {
        copies_words(d, f0, f1, cp, n - 1) + (copy_front(d.n_int == 2, f0, f1, cp, n - 1) + (
        copy_words(d.ch0, f0, cp.mid, n - 1) + if d.n_int == 2 {
            copy_words(d.ch1, f1, cp.side, n - 1)
        } else {
            Seq::empty()
        }))
    }
}

/// A channel that has read copies only.
pub open spec fn past_reading(c: ChannelView, d: ChannelView, ec: EcPrevState) -> bool {
    &&& d == (ChannelView { indices: d.indices, pulses: d.pulses, ec_prev: ec, ..c })
    &&& d.shaped()
}

proof fn lemma_one_copy(
    c: ChannelView,
    e: ChannelView,
    st: RangeState,
    f: Flags,
    cs: Seq<Coded>,
    i: int,
)
    requires
        c.wf(),
        c.ready(),
        past_reading(
            flagged_channel(c, f),
            e,
            copies_context(f.copy, cs, c.ec_prev, i),
        ),
        f.vad.len() == f.copy.len(),
        0 <= i < f.copy.len() <= 3,
        copies_fit(c, f, cs),
        spells(st, copy_words(c, f, cs, i)),
    ensures
        past_reading(
            flagged_channel(c, f),
            past_copy(e, st, i).0,
            copies_context(f.copy, cs, c.ec_prev, i + 1),
        ),
        past_copy(e, st, i).1 == behind(st, copy_words(c, f, cs, i)),
{
    if f.copy[i] {
        let p = copy_params(c, f, i);
        lemma_written(c, f.vad[i], true, copy_coding(f.copy, i));
        lemma_frame_length(c);
        lemma_told(e, st, cs[i], p);
    }
}

/// Passing over the copies takes exactly their words.
proof fn lemma_copies(
    d: SilkView,
    e: SilkView,
    st: RangeState,
    f0: Flags,
    f1: Flags,
    cp: Copies,
    n: int,
)
    requires
        d.ch0.wf(),
        d.ch0.ready(),
        d.ch0.shaped(),
        d.n_int == 2 ==> d.ch1.wf() && d.ch1.ready() && d.ch1.shaped(),
        f0.vad.len() == f0.copy.len(),
        d.n_int == 2 ==> f1.vad.len() == f1.copy.len() == f0.copy.len(),
        0 <= n <= f0.copy.len() <= 3,
        copies_fit(d.ch0, f0, cp.mid),
        d.n_int == 2 ==> copies_fit(d.ch1, f1, cp.side),
        e == (SilkView {
            ch0: flagged_channel(d.ch0, f0),
            ch1: if d.n_int == 2 {
                flagged_channel(d.ch1, f1)
            } else {
                d.ch1
            },
            ..d
        }),
        spells(st, copies_words(d, f0, f1, cp, n)),
    ensures
        ({
            let (g, s) = e.skipped(st, n);
            &&& g == (SilkView { ch0: g.ch0, ch1: g.ch1, ..d })
            &&& past_reading(
                flagged_channel(d.ch0, f0),
                g.ch0,
                copies_context(f0.copy, cp.mid, d.ch0.ec_prev, n),
            )
            &&& d.n_int == 2 ==> past_reading(
                flagged_channel(d.ch1, f1),
                g.ch1,
                copies_context(f1.copy, cp.side, d.ch1.ec_prev, n),
            )
            &&& d.n_int != 2 ==> g.ch1 == d.ch1
            &&& s == behind(st, copies_words(d, f0, f1, cp, n))
        }),
    decreases n,
{
    if n > 0 {
        let i = n - 1;
        let a = copies_words(d, f0, f1, cp, i);
        let w0 = copy_front(d.n_int == 2, f0, f1, cp, i);
        let w1 = copy_words(d.ch0, f0, cp.mid, i);
        let w2 = if d.n_int == 2 {
            copy_words(d.ch1, f1, cp.side, i)
        } else {
            Seq::empty()
        };
        lemma_concat(st, a, w0 + (w1 + w2));
        lemma_copies(d, e, st, f0, f1, cp, i);
        let (g, s) = e.skipped(st, i);
        lemma_concat(s, w0, w1 + w2);
        let s0 = behind(s, w0);
        assert(g.past_copied_pred(s, i) == s0) by {
            if d.n_int == 2 && f0.copy[i] {
                let tail = if f1.copy[i] {
                    Seq::empty()
                } else {
                    one(STEREO_ONLY_CODE_MID_ICDF@, cp.only[i])
                };
                lemma_concat(s, cp.weights[i].words(), tail);
                lemma_weights(s, cp.weights[i]);
                lemma_one(
                    behind(s, cp.weights[i].words()),
                    STEREO_ONLY_CODE_MID_ICDF@,
                    cp.only[i],
                );
            }
        }
        lemma_concat(s0, w1, w2);
        lemma_one_copy(d.ch0, g.ch0, s0, f0, cp.mid, i);
        if d.n_int == 2 {
            lemma_one_copy(d.ch1, g.ch1, behind(s0, w1), f1, cp.side, i);
        }
    }
}

// ---------------------------------------------------------------------
// The way out
// ---------------------------------------------------------------------

/// Left and right sample `i` of a stereo frame behind two samples of history:
/// sum and difference of mid and predicted side.
#[verifier::opaque]
pub open spec fn mixed(
    d: SilkView,
    mid: Seq<i16>,
    side: Seq<i16>,
    pred: Seq<i32>,
    right: bool,
) -> Seq<i16> {
    let m = d.stereo.s_mid + mid;
    let s = d.stereo.s_side + side;
    Seq::new(
        mid.len(),
        |i: int|
            {
                let p = side_at_spec(d.stereo.pred_prev_q13, m, s, pred, d.ch0.fs_khz as int, i);
                sat16_spec(
                    (if right {
                        m[i + 1] - p
                    } else {
                        m[i + 1] + p
                    }) as i32,
                )
            },
    )
}

/// A mono frame, one sample late.
#[verifier::opaque]
pub open spec fn late(d: SilkView, mid: Seq<i16>) -> Seq<i16> {
    Seq::new(
        mid.len(),
        |i: int|
            if i == 0 {
                d.stereo.s_mid[1]
            } else {
                mid[i - 1]
            },
    )
}

/// The output holds the frames of the channels, each through its resampler:
/// left and right in turn if there are two, else the one, on every output
/// channel. Where stereo has just turned mono the second output goes through
/// its own resampler once more.
#[verifier::opaque]
pub open spec fn sounds(
    d: SilkView,
    mid: Seq<i16>,
    side: Seq<i16>,
    pred: Seq<i32>,
    collapses: bool,
    count: int,
    out: Seq<i16>,
) -> bool {
    let two = d.n_api == 2 && d.n_int == 2;
    let a = through(
        d.ch0.resampler,
        if two {
            mixed(d, mid, side, pred, false)
        } else {
            late(d, mid)
        },
    );
    let b = through(
        d.ch1.resampler,
        if two {
            mixed(d, mid, side, pred, true)
        } else {
            late(d, mid)
        },
    );
    placed(
        out,
        a,
        if d.n_api == 1 || d.n_int == 2 || collapses {
            b
        } else {
            a
        },
        d.n_api == 2,
        d.n_int == 2 || collapses,
        count,
    )
}

/// Samples in their places: one after the other, or, with two outputs, in
/// turn, where the second one has samples of its own or repeats the first.
#[verifier::opaque]
pub open spec fn placed(
    out: Seq<i16>,
    a: Seq<i16>,
    b: Seq<i16>,
    two: bool,
    own: bool,
    count: int,
) -> bool {
    if !two {
        forall|j: int| 0 <= j < count ==> #[trigger] out[j] == a[j]
    } else {
        forall|j: int|
            0 <= j < count ==> {
                &&& #[trigger] out[2 * j] == a[j]
                &&& out[2 * j + 1] == (if own {
                    b[j]
                } else {
                    a[j]
                })
            }
    }
}

/// What stands behind the samples of a call stays as it was.
pub open spec fn same_from(before: Seq<i16>, out: Seq<i16>, n: int) -> bool {
    &&& out.len() == before.len()
    &&& forall|j: int| n <= j < out.len() ==> #[trigger] out[j] == before[j]
}

/// Samples through a resampler.
#[verifier::opaque]
pub open spec fn through(r: ResamplerView, samples: Seq<i16>) -> Seq<i16> {
    r.resample_out(samples)
}

/// The decoder behind the way out: only the history, the resamplers and what
/// the end of a call sets are new.
pub open spec fn went_out(d: SilkView, e: SilkView, mid: Seq<i16>, side: Seq<i16>, pred: Seq<i32>) -> bool {
    let n = mid.len() as int;
    &&& e.ch0 == (ChannelView {
        resampler: e.ch0.resampler,
        last_gain_index: e.ch0.last_gain_index,
        ..d.ch0
    })
    &&& e.ch1 == (ChannelView {
        resampler: e.ch1.resampler,
        last_gain_index: e.ch1.last_gain_index,
        ..d.ch1
    })
    &&& e.n_api == d.n_api
    &&& e.n_int == d.n_int
    &&& n >= 2 ==> e.stereo.s_mid == seq![mid[n - 2], mid[n - 1]]
    &&& n >= 2 && d.n_api == 2 && d.n_int == 2 ==> {
        &&& e.stereo.s_side == seq![side[n - 2], side[n - 1]]
        &&& e.stereo.pred_prev_q13 == seq![pred[0] as i16, pred[1] as i16]
    }
    &&& !(d.n_api == 2 && d.n_int == 2) ==> {
        &&& e.stereo.s_side == d.stereo.s_side
        &&& e.stereo.pred_prev_q13 == d.stereo.pred_prev_q13
    }
}

/// How the frames of a call come out.
proof fn lemma_way_out(
    d: SilkView,
    st: RangeState,
    ctrl: DecControl,
    lost_flag: LostFlag,
    mid: Seq<i16>,
    side: Seq<i16>,
    pred: Seq<i32>,
    only_middle: bool,
    collapses: bool,
    out: Seq<i16>,
)
    requires
        d.ch0.resampler.wf(),
        d.ch1.resampler.wf(),
        d.ch0.resampler.fs_in == d.ch0.fs_khz,
        d.n_int == 2 || collapses ==> d.ch1.resampler.fs_in == d.ch0.fs_khz,
        d.ch0.ready(),
        mid.len() == d.ch0.frame_length,
        side.len() == d.ch0.frame_length,
        d.stereo.s_mid.len() == 2,
        d.stereo.s_side.len() == 2,
        d.n_api == 1 || d.n_api == 2,
        8000 <= ctrl.api_sample_rate <= 48000,
        out.len() >= d.frame_room(ctrl, collapses),
    ensures
        ({
            let x = d.finished(
                st,
                ctrl,
                lost_flag,
                mid,
                side,
                pred,
                only_middle,
                collapses,
                out,
            );
            &&& x.st == st
            &&& went_out(d, x.d, mid, side, pred)
            &&& lost_flag != LostFlag::PacketLost ==> x.d.ch0.last_gain_index
                == d.ch0.last_gain_index && x.d.ch1.last_gain_index == d.ch1.last_gain_index
            &&& x.r matches Ok(k) ==> {
                &&& same_from(out, x.out, d.n_api * k)
                &&& sounds(d, mid, side, pred, collapses, k as int, x.out)
                &&& lost_flag != LostFlag::PacketLost ==> x.d.prev_only_middle == only_middle
                &&& lag_told(d.ch0, x.lag)
            }
            &&& x.r is Err ==> x.d.prev_only_middle == d.prev_only_middle
        }),
{
    let n = mid.len() as int;
    let n_out = out_len_spec(n, ctrl.api_sample_rate as int, d.ch0.fs_khz as int);
    lemma_frame_ms(n, d.ch0.fs_khz as int, d.ch0.nb_subfr as int);
    lemma_out_len(d.ch0, ctrl.api_sample_rate as int);
    lemma_unmixed(d, mid, side, pred);
    let (e, left, right) = d.unmixed(mid, side, pred);
    assert(e.room(n, collapses, n_out) == d.frame_room(ctrl, collapses)) by {
        reveal(SilkView::frame_room);
    }
    lemma_resampled(e, left, right, collapses, n_out, out);
    lemma_lag_at_48(d.ch0);
    let (g, r, o) = e.resampled(left, right, collapses, n_out, out);
    lemma_closed(g, lost_flag, only_middle);
    let x = d.finished(st, ctrl, lost_flag, mid, side, pred, only_middle, collapses, out);
    assert(x.st == st && x.r == r && x.out == o && (r is Ok ==> x.d == g.closed(
        lost_flag,
        only_middle,
    ) && x.lag == exported_lag(g.ch0)) && (r is Err ==> x.d == g)) by {
        reveal(SilkView::finished);
    }
    if r is Ok {
        reveal(sounds);
        assert(r->Ok_0 == n_out);
        assert(sounds(d, mid, side, pred, collapses, n_out, o));
    }
}

/// The lag that a call tells is the last one of a voiced frame at 48 kHz, and
/// zero behind any other.
pub open spec fn lag_told(c: ChannelView, lag: i32) -> bool {
    &&& c.prev_signal_type != TYPE_VOICED ==> lag == 0
    &&& c.prev_signal_type == TYPE_VOICED && 0 <= c.lag_prev <= 18 * c.fs_khz ==> lag * c.fs_khz
        == 48 * c.lag_prev
}

proof fn lemma_lag_at_48(c: ChannelView)
    requires
        c.ready(),
    ensures
        lag_told(c, exported_lag(c)),
{
    let l = exported_lag(c) as int;
    let f = c.fs_khz as int;
    if f == 8 {
        assert(l * f == 8 * l) by (nonlinear_arith)
            requires
                f == 8,
        ;
    } else if f == 12 {
        assert(l * f == 12 * l) by (nonlinear_arith)
            requires
                f == 12,
        ;
    } else {
        assert(l * f == 16 * l) by (nonlinear_arith)
            requires
                f == 16,
        ;
    }
}

proof fn lemma_closed(d: SilkView, lost_flag: LostFlag, only_middle: bool)
    ensures
        ({
            let e = d.closed(lost_flag, only_middle);
            &&& e == (SilkView {
                ch0: ChannelView { last_gain_index: e.ch0.last_gain_index, ..d.ch0 },
                ch1: ChannelView { last_gain_index: e.ch1.last_gain_index, ..d.ch1 },
                prev_only_middle: e.prev_only_middle,
                ..d
            })
            &&& lost_flag != LostFlag::PacketLost ==> {
                &&& e.prev_only_middle == only_middle
                &&& e.ch0 == d.ch0
                &&& e.ch1 == d.ch1
            }
        }),
{
}

proof fn lemma_unmixed(d: SilkView, mid: Seq<i16>, side: Seq<i16>, pred: Seq<i32>)
    requires
        mid.len() >= 2,
        side.len() == mid.len(),
        d.stereo.s_mid.len() == 2,
        d.stereo.s_side.len() == 2,
    ensures
        ({
            let (e, left, right) = d.unmixed(mid, side, pred);
            let two = d.n_api == 2 && d.n_int == 2;
            &&& went_out(d, e, mid, side, pred)
            &&& e == (SilkView { stereo: e.stereo, ..d })
            &&& left.len() == mid.len()
            &&& right.len() == mid.len()
            &&& left == (if two {
                mixed(d, mid, side, pred, false)
            } else {
                late(d, mid)
            })
            &&& right == (if two {
                mixed(d, mid, side, pred, true)
            } else {
                late(d, mid)
            })
        }),
{
    reveal(mixed);
    reveal(late);
    reveal(SilkView::unmixed);
    let n = mid.len() as int;
    let (e, left, right) = d.unmixed(mid, side, pred);
    let m = d.stereo.s_mid + mid;
    let s = d.stereo.s_side + side;
    assert(m.subrange(n, n + 2) =~= seq![mid[n - 2], mid[n - 1]]);
    assert(s.subrange(n, n + 2) =~= seq![side[n - 2], side[n - 1]]);
    if d.n_api == 2 && d.n_int == 2 {
        assert(left =~= mixed(d, mid, side, pred, false));
        assert(right =~= mixed(d, mid, side, pred, true));
    } else {
        assert(left =~= late(d, mid));
        assert(right =~= late(d, mid));
    }
}

proof fn lemma_resampled(
    e: SilkView,
    left: Seq<i16>,
    right: Seq<i16>,
    collapses: bool,
    n_out: int,
    out: Seq<i16>,
)
    requires
        e.ch0.resampler.wf(),
        e.ch1.resampler.wf(),
        left.len() as int % e.ch0.resampler.fs_in == 0,
        right.len() == left.len(),
        e.n_int == 2 || collapses ==> right.len() as int % e.ch1.resampler.fs_in == 0,
        e.n_api == 1 || e.n_api == 2,
        0 <= n_out <= 960,
        out.len() >= e.room(left.len() as int, collapses, n_out),
    ensures
        ({
            let (g, r, o) = e.resampled(left, right, collapses, n_out, out);
            let a = through(e.ch0.resampler, left);
            let b = through(e.ch1.resampler, right);
            &&& g == (SilkView {
                ch0: ChannelView { resampler: g.ch0.resampler, ..e.ch0 },
                ch1: ChannelView { resampler: g.ch1.resampler, ..e.ch1 },
                ..e
            })
            &&& r matches Ok(k) ==> {
                &&& k == n_out
                &&& same_from(out, o, e.n_api * n_out)
                &&& placed(
                    o,
                    a,
                    if e.n_api == 1 || e.n_int == 2 || collapses {
                        b
                    } else {
                        a
                    },
                    e.n_api == 2,
                    e.n_int == 2 || collapses,
                    n_out,
                )
            }
        }),
{
    let a = through(e.ch0.resampler, left);
    let b = through(e.ch1.resampler, right);
    lemma_resample_len(e.ch0.resampler, left);
    assert(a.len() == resampled_len(e.ch0.resampler, left.len() as int)) by {
        reveal(through);
    }
    if e.n_int == 2 || collapses {
        lemma_resample_len(e.ch1.resampler, right);
        assert(b.len() == resampled_len(e.ch1.resampler, right.len() as int)) by {
            reveal(through);
        }
    }
    if e.n_api == 2 && a.len() == n_out && 2 * n_out <= out.len() {
        if e.n_int == 2 || collapses {
            if b.len() == n_out {
                lemma_interleaved(out, a, b, true);
            }
        } else {
            lemma_interleaved(out, a, a, false);
        }
    } else if e.n_api == 1 && a.len() == n_out {
        lemma_plain(out, a, b);
    }
    lemma_resampled_shape(e, left, right, collapses, n_out, out);
}

proof fn lemma_interleaved(out: Seq<i16>, a: Seq<i16>, b: Seq<i16>, own: bool)
    requires
        a.len() == b.len(),
        !own ==> b == a,
        2 * a.len() <= out.len(),
    ensures
        placed(interleaved(interleaved(out, a, 0), b, 1), a, b, true, own, a.len() as int),
        same_from(out, interleaved(interleaved(out, a, 0), b, 1), 2 * a.len() as int),
{
    reveal(placed);
    let o = interleaved(interleaved(out, a, 0), b, 1);
    assert forall|j: int| 0 <= j < a.len() implies {
        &&& #[trigger] o[2 * j] == a[j]
        &&& o[2 * j + 1] == b[j]
    } by {
        assert((2 * j) / 2 == j && (2 * j + 1) / 2 == j);
    }
}

proof fn lemma_plain(out: Seq<i16>, a: Seq<i16>, b: Seq<i16>)
    requires
        a.len() <= out.len(),
    ensures
        forall|own: bool| #[trigger] placed(
            a + out.subrange(a.len() as int, out.len() as int),
            a,
            b,
            false,
            own,
            a.len() as int,
        ),
        same_from(
            out,
            a + out.subrange(a.len() as int, out.len() as int),
            a.len() as int,
        ),
{
    reveal(placed);
}

/// What the resamplers make of a frame, in turn.
proof fn lemma_resampled_shape(
    e: SilkView,
    left: Seq<i16>,
    right: Seq<i16>,
    collapses: bool,
    n_out: int,
    out: Seq<i16>,
)
    requires
        e.n_api == 1 || e.n_api == 2,
        0 <= n_out <= 960,
    ensures
        ({
            let (g, r, o) = e.resampled(left, right, collapses, n_out, out);
            let a = through(e.ch0.resampler, left);
            let b = through(e.ch1.resampler, right);
            let n = left.len() as int;
            &&& g == (SilkView {
                ch0: ChannelView { resampler: g.ch0.resampler, ..e.ch0 },
                ch1: ChannelView { resampler: g.ch1.resampler, ..e.ch1 },
                ..e
            })
            &&& r matches Ok(k) ==> {
                &&& k == n_out
                &&& n_out == resampled_len(e.ch0.resampler, n)
                &&& e.n_api == 2 && (e.n_int == 2 || collapses) ==> n_out == resampled_len(
                    e.ch1.resampler,
                    n,
                )
                &&& o == (if e.n_api == 1 {
                    a + out.subrange(a.len() as int, out.len() as int)
                } else if e.n_int == 2 || collapses {
                    interleaved(interleaved(out, a, 0), b, 1)
                } else {
                    interleaved(interleaved(out, a, 0), a, 1)
                })
            }
        }),
{
    reveal(SilkView::resampled);
    reveal(through);
}

// ---------------------------------------------------------------------
// Frames
// ---------------------------------------------------------------------

/// What a coder writes for one frame of all channels. The second half counts
/// where the stream is stereo.
pub struct Turn {
    pub mid: Coded,
    pub side: Coded,
    pub weights: Weights,
    /// 1 if the side channel is left out, where that is told.
    pub only: int,
}

/// Whether a call finds a frame of a channel in the payload: the frame itself,
/// or, where the copies are asked for, its copy.
pub open spec fn there(c: ChannelView, lost_flag: LostFlag) -> bool {
    lost_flag == LostFlag::Normal || (lost_flag == LostFlag::DecodeLbrr
        && c.lbrr_flags[c.n_frames_decoded as int])
}

/// How frame `k` of a payload is coded. The first one stands for itself, and
/// every other goes on from the one before, but for the frame of a side
/// channel that was left out before, and for a copy behind a frame without
/// one.
pub open spec fn frame_coding(c: ChannelView, lost_flag: LostFlag, k: int, comes_back: bool) -> CondCoding {
    if lost_flag == LostFlag::DecodeLbrr {
        copy_coding(c.lbrr_flags, k)
    } else if k == 0 {
        CondCoding::Independently
    } else if comes_back {
        CondCoding::IndependentlyNoLtpScaling
    } else {
        CondCoding::Conditionally
    }
}

/// How the next frame of a channel is written.
pub open spec fn frame_params(c: ChannelView, lost_flag: LostFlag, comes_back: bool) -> ParamsView {
    let k = c.n_frames_decoded as int;
    written(
        c,
        c.vad_flags[k],
        lost_flag == LostFlag::DecodeLbrr,
        frame_coding(c, lost_flag, k, comes_back),
    )
}

/// Whether the payload tells if the side channel is left out: in stereo, where
/// the side channel is not active, or has no copy.
pub open spec fn tells_only(d: SilkView, lost_flag: LostFlag) -> bool {
    let k = d.ch0.n_frames_decoded as int;
    &&& d.n_int == 2
    &&& there(d.ch0, lost_flag)
    &&& !(if lost_flag == LostFlag::Normal {
        d.ch1.vad_flags[k]
    } else {
        d.ch1.lbrr_flags[k]
    })
}

pub open spec fn left_out(d: SilkView, lost_flag: LostFlag, t: Turn) -> bool {
    tells_only(d, lost_flag) && t.only == 1
}

/// Whether the side channel has a frame in the payload.
pub open spec fn side_there(d: SilkView, lost_flag: LostFlag, t: Turn) -> bool {
    &&& d.n_int == 2
    &&& there(d.ch1, lost_flag)
    &&& lost_flag == LostFlag::Normal ==> !left_out(d, lost_flag, t)
}

/// What stands in front of the channels of a stereo frame.
pub open spec fn turn_front(d: SilkView, lost_flag: LostFlag, t: Turn) -> Seq<Word> {
    if d.n_int == 2 && there(d.ch0, lost_flag) {
        t.weights.words() + if tells_only(d, lost_flag) {
            one(STEREO_ONLY_CODE_MID_ICDF@, t.only)
        } else {
            Seq::empty()
        }
    } else {
        Seq::empty()
    }
}

pub open spec fn mid_words(d: SilkView, lost_flag: LostFlag, t: Turn) -> Seq<Word> {
    if there(d.ch0, lost_flag) {
        t.mid.words(
            frame_params(d.ch0, lost_flag, false),
            d.ch0.ec_prev,
            d.ch0.frame_length as int,
        )
    } else {
        Seq::empty()
    }
}

pub open spec fn side_words(d: SilkView, lost_flag: LostFlag, t: Turn) -> Seq<Word> {
    if side_there(d, lost_flag, t) {
        t.side.words(
            frame_params(d.ch1, lost_flag, d.prev_only_middle),
            d.ch1.ec_prev,
            d.ch1.frame_length as int,
        )
    } else {
        Seq::empty()
    }
}

/// The words of a frame of all channels: the mid channel's and, unless it is
/// left out, the side channel's.
pub open spec fn turn_words(d: SilkView, lost_flag: LostFlag, t: Turn) -> Seq<Word> {
    turn_front(d, lost_flag, t) + (mid_words(d, lost_flag, t) + side_words(d, lost_flag, t))
}

/// Values that can be written.
pub open spec fn turn_fits(d: SilkView, lost_flag: LostFlag, t: Turn) -> bool {
    &&& there(d.ch0, lost_flag) ==> t.mid.fits(
        frame_params(d.ch0, lost_flag, false),
        d.ch0.ec_prev,
        d.ch0.frame_length as int,
    )
    &&& side_there(d, lost_flag, t) ==> t.side.fits(
        frame_params(d.ch1, lost_flag, d.prev_only_middle),
        d.ch1.ec_prev,
        d.ch1.frame_length as int,
    )
    &&& tells_only(d, lost_flag) ==> t.only == 0 || t.only == 1
}

/// A decoder in the middle of a payload, its channels in step.
pub open spec fn in_step(d: SilkView) -> bool {
    &&& d.wf()
    &&& d.ch0.ready()
    &&& d.ch0.shaped()
    &&& d.ch0.n_frames_decoded < 3
    &&& d.ch0.loss_cnt < i32::MAX
    &&& d.n_api == 1 || d.n_api == 2
    &&& d.n_int == 2 ==> {
        &&& d.paired()
        &&& d.ch1.shaped()
        &&& d.ch1.n_frames_decoded == d.ch0.n_frames_decoded
        &&& d.ch1.loss_cnt < i32::MAX
    }
}

/// The weights in force.
pub open spec fn weights_of(d: SilkView, lost_flag: LostFlag, t: Turn) -> Seq<i32> {
    if d.n_int != 2 {
        seq![0i32, 0i32]
    } else if there(d.ch0, lost_flag) {
        seq![t.weights.first() as i32, t.weights.second() as i32]
    } else {
        seq![d.stereo.pred_prev_q13[0] as i32, d.stereo.pred_prev_q13[1] as i32]
    }
}

/// Weights and the mark of a side channel that is left out are read as they
/// were written.
proof fn lemma_front(d: SilkView, st: RangeState, lost_flag: LostFlag, t: Turn)
    requires
        lost_flag == LostFlag::Normal || lost_flag == LostFlag::DecodeLbrr,
        d.stereo.pred_prev_q13.len() == 2,
        turn_fits(d, lost_flag, t),
        spells(st, turn_front(d, lost_flag, t)),
    ensures
        d.predictors(st, lost_flag) == (
            behind(st, turn_front(d, lost_flag, t)),
            weights_of(d, lost_flag, t),
            left_out(d, lost_flag, t),
        ),
{
    reveal(SilkView::predictors);
    if d.n_int == 2 && there(d.ch0, lost_flag) {
        let tail = if tells_only(d, lost_flag) {
            one(STEREO_ONLY_CODE_MID_ICDF@, t.only)
        } else {
            Seq::empty()
        };
        lemma_concat(st, t.weights.words(), tail);
        lemma_weights(st, t.weights);
        lemma_one(behind(st, t.weights.words()), STEREO_ONLY_CODE_MID_ICDF@, t.only);
    }
}

/// The samples that a channel gives for its next frame, from `st` on.
pub open spec fn channel_samples(
    c: ChannelView,
    st: RangeState,
    lost_flag: LostFlag,
    comes_back: bool,
) -> Seq<i16> {
    c.next_frame(
        st,
        lost_flag,
        frame_coding(c, lost_flag, c.n_frames_decoded as int, comes_back),
    ).2
}

/// The side channel when its frame is decoded: it starts without history where
/// it was left out before and comes back.
pub open spec fn side_channel(d: SilkView, lost_flag: LostFlag, t: Turn) -> ChannelView {
    if d.n_int == 2 && !left_out(d, lost_flag, t) && d.prev_only_middle {
        d.ch1.without_history()
    } else {
        d.ch1
    }
}

/// Whether the side channel gives no frame at all: it is left out, or it was
/// before and there is no copy of it.
pub open spec fn side_silent(d: SilkView, lost_flag: LostFlag, t: Turn) -> bool {
    if lost_flag == LostFlag::Normal {
        left_out(d, lost_flag, t)
    } else {
        d.prev_only_middle && !there(d.ch1, lost_flag)
    }
}

/// The side channel's samples.
pub open spec fn side_samples(d: SilkView, st: RangeState, lost_flag: LostFlag, t: Turn) -> Seq<i16> {
    if d.n_int != 2 || side_silent(d, lost_flag, t) {
        Seq::new(d.ch0.frame_length as nat, |i: int| 0i16)
    } else {
        channel_samples(side_channel(d, lost_flag, t), st, lost_flag, d.prev_only_middle)
    }
}

/// The gain level that a frame ends with: its first gain is a step from the
/// last level of the frame before, where the frame goes on from it, or else a
/// level of its own, and every other gain is a step.
pub open spec fn last_level(c: ChannelView, f: Coded, lost_flag: LostFlag, comes_back: bool) -> int {
    level_spec(
        f.ix.gains_indices,
        c.last_gain_index as int,
        frame_coding(c, lost_flag, c.n_frames_decoded as int, comes_back)
            == CondCoding::Conditionally,
        c.nb_subfr as int,
    )
}

pub open spec fn same_flags(a: ChannelView, b: ChannelView) -> bool {
    &&& a.vad_flags == b.vad_flags
    &&& a.lbrr_flag == b.lbrr_flag
    &&& a.lbrr_flags == b.lbrr_flags
    &&& a.n_frames_per_packet == b.n_frames_per_packet
}

/// A call has decoded what was written.
pub open spec fn taken(
    d: SilkView,
    st: RangeState,
    lost_flag: LostFlag,
    t: Turn,
    collapses: bool,
    before: Seq<i16>,
    x: Decoded,
) -> bool {
    let s1 = behind(st, turn_front(d, lost_flag, t));
    let s2 = behind(s1, mid_words(d, lost_flag, t));
    let mid = channel_samples(d.ch0, s1, lost_flag, false);
    let side = side_samples(d, s2, lost_flag, t);
    let k = d.ch0.n_frames_decoded;
    &&& x.st == behind(st, turn_words(d, lost_flag, t))
    &&& there(d.ch0, lost_flag) ==> carries(
        x.d.ch0,
        t.mid,
        frame_params(d.ch0, lost_flag, false),
        d.ch0.ec_prev,
    )
    &&& side_there(d, lost_flag, t) ==> carries(
        x.d.ch1,
        t.side,
        frame_params(d.ch1, lost_flag, d.prev_only_middle),
        d.ch1.ec_prev,
    )
    &&& d.n_int == 2 && side_silent(d, lost_flag, t) ==> x.d.ch1 == (ChannelView {
        n_frames_decoded: (k + 1) as usize,
        resampler: x.d.ch1.resampler,
        ..side_channel(d, lost_flag, t)
    })
    &&& d.n_int != 2 ==> x.d.ch1 == (ChannelView { resampler: x.d.ch1.resampler, ..d.ch1 })
    &&& x.d.ch0.n_frames_decoded == k + 1
    &&& d.n_int == 2 ==> x.d.ch1.n_frames_decoded == k + 1
    &&& same_flags(x.d.ch0, d.ch0)
    &&& same_flags(x.d.ch1, d.ch1)
    &&& there(d.ch0, lost_flag) ==> x.d.ch0.last_gain_index == last_level(
        d.ch0,
        t.mid,
        lost_flag,
        false,
    )
    &&& side_there(d, lost_flag, t) ==> x.d.ch1.last_gain_index == last_level(
        side_channel(d, lost_flag, t),
        t.side,
        lost_flag,
        d.prev_only_middle,
    )
    &&& mid.len() == d.ch0.frame_length
    &&& side.len() == d.ch0.frame_length
    &&& went_out_to(d, x.d, mid, side, weights_of(d, lost_flag, t))
    &&& x.r matches Ok(count) ==> {
        &&& sounds(d, mid, side, weights_of(d, lost_flag, t), collapses, count as int, x.out)
        &&& same_from(before, x.out, d.n_api * count)
        &&& x.d.prev_only_middle == left_out(d, lost_flag, t)
        &&& lag_told(x.d.ch0, x.lag)
    }
}

/// The stereo history behind a call.
pub open spec fn went_out_to(
    d: SilkView,
    e: SilkView,
    mid: Seq<i16>,
    side: Seq<i16>,
    pred: Seq<i32>,
) -> bool {
    let n = mid.len() as int;
    &&& e.n_api == d.n_api
    &&& e.n_int == d.n_int
    &&& e.stereo.s_mid == seq![mid[n - 2], mid[n - 1]]
    &&& d.n_api == 2 && d.n_int == 2 ==> {
        &&& e.stereo.s_side == seq![side[n - 2], side[n - 1]]
        &&& e.stereo.pred_prev_q13 == seq![pred[0] as i16, pred[1] as i16]
    }
}

/// One channel's frame: it holds what was written, or is made up.
proof fn lemma_channel_turn(
    c: ChannelView,
    st: RangeState,
    lost_flag: LostFlag,
    comes_back: bool,
    f: Coded,
)
    requires
        lost_flag == LostFlag::Normal || lost_flag == LostFlag::DecodeLbrr,
        c.wf(),
        c.ready(),
        c.shaped(),
        c.n_frames_decoded < 3,
        c.loss_cnt < i32::MAX,
        there(c, lost_flag) ==> {
            let p = frame_params(c, lost_flag, comes_back);
            &&& f.fits(p, c.ec_prev, c.frame_length as int)
            &&& spells(st, f.words(p, c.ec_prev, c.frame_length as int))
        },
    ensures
        ({
            let coding = frame_coding(c, lost_flag, c.n_frames_decoded as int, comes_back);
            let p = frame_params(c, lost_flag, comes_back);
            let (d, s, q) = c.next_frame(st, lost_flag, coding);
            &&& q.len() == c.frame_length
            &&& d.same_setup(c)
            &&& there(c, lost_flag) ==> {
                &&& carries(d, f, p, c.ec_prev)
                &&& s == behind(st, f.words(p, c.ec_prev, c.frame_length as int))
                &&& d.last_gain_index == last_level(c, f, lost_flag, comes_back)
            }
            &&& !there(c, lost_flag) ==> s == st
        }),
{
    let coding = frame_coding(c, lost_flag, c.n_frames_decoded as int, comes_back);
    crate::outcome::lemma_next_frame_len(c, st, lost_flag, coding);
    if there(c, lost_flag) {
        lemma_coded_frame_sounds(c, st, f, lost_flag, coding);
    } else {
        reveal(ChannelView::next_frame);
        lemma_frame_length(c);
        lemma_lost_frame_sounds(c, 0);
    }
}

/// The frames of a call.
proof fn lemma_turn_frames(d: SilkView, st: RangeState, lost_flag: LostFlag, t: Turn)
    requires
        lost_flag == LostFlag::Normal || lost_flag == LostFlag::DecodeLbrr,
        in_step(d),
        turn_fits(d, lost_flag, t),
        spells(st, mid_words(d, lost_flag, t) + side_words(d, lost_flag, t)),
    ensures
        ({
            let q = d.side_restored(left_out(d, lost_flag, t));
            let f = q.frames(st, true, lost_flag, left_out(d, lost_flag, t));
            let s2 = behind(st, mid_words(d, lost_flag, t));
            let k = d.ch0.n_frames_decoded;
            &&& f.complete
            &&& f.st == behind(st, mid_words(d, lost_flag, t) + side_words(d, lost_flag, t))
            &&& f.mid == channel_samples(d.ch0, st, lost_flag, false)
            &&& f.side == side_samples(d, s2, lost_flag, t)
            &&& f.mid.len() == d.ch0.frame_length
            &&& f.side.len() == d.ch0.frame_length
            &&& f.d == (SilkView { ch0: f.d.ch0, ch1: f.d.ch1, ..d })
            &&& f.d.ch0.n_frames_decoded == k + 1
            &&& f.d.ch0.same_output(d.ch0)
            &&& f.d.ch1.same_output(d.ch1)
            &&& same_flags(f.d.ch0, d.ch0)
            &&& same_flags(f.d.ch1, d.ch1)
            &&& there(d.ch0, lost_flag) ==> f.d.ch0.last_gain_index == last_level(
                d.ch0,
                t.mid,
                lost_flag,
                false,
            )
            &&& side_there(d, lost_flag, t) ==> f.d.ch1.last_gain_index == last_level(
                side_channel(d, lost_flag, t),
                t.side,
                lost_flag,
                d.prev_only_middle,
            )
            &&& there(d.ch0, lost_flag) ==> carries(
                f.d.ch0,
                t.mid,
                frame_params(d.ch0, lost_flag, false),
                d.ch0.ec_prev,
            )
            &&& side_there(d, lost_flag, t) ==> carries(
                f.d.ch1,
                t.side,
                frame_params(d.ch1, lost_flag, d.prev_only_middle),
                d.ch1.ec_prev,
            )
            &&& d.n_int == 2 ==> f.d.ch1.n_frames_decoded == k + 1
            &&& d.n_int == 2 && side_silent(d, lost_flag, t) ==> f.d.ch1 == (ChannelView {
                n_frames_decoded: (k + 1) as usize,
                ..side_channel(d, lost_flag, t)
            })
            &&& d.n_int != 2 ==> f.d.ch1 == d.ch1
        }),
{
    let only = left_out(d, lost_flag, t);
    let q = d.side_restored(only);
    let w0 = mid_words(d, lost_flag, t);
    let w1 = side_words(d, lost_flag, t);
    let k = d.ch0.n_frames_decoded as int;
    lemma_concat(st, w0, w1);
    lemma_channel_turn(d.ch0, st, lost_flag, false, t.mid);
    let s2 = behind(st, w0);
    assert(q.mid_frame(st, lost_flag) == d.ch0.next_frame(
        st,
        lost_flag,
        frame_coding(d.ch0, lost_flag, k, false),
    ));
    crate::outcome::lemma_next_frame_output(
        d.ch0,
        st,
        lost_flag,
        frame_coding(d.ch0, lost_flag, k, false),
    );
    if d.n_int == 2 && !side_silent(d, lost_flag, t) {
        let c = side_channel(d, lost_flag, t);
        assert(c.wf()) by {
            reveal(ChannelView::wf);
        }
        lemma_channel_turn(c, s2, lost_flag, d.prev_only_middle, t.side);
        crate::outcome::lemma_next_frame_output(
            c,
            s2,
            lost_flag,
            frame_coding(c, lost_flag, k, d.prev_only_middle),
        );
        let e = c.next_frame(
            s2,
            lost_flag,
            frame_coding(c, lost_flag, k, d.prev_only_middle),
        ).0;
        if side_there(d, lost_flag, t) {
            lemma_carries(
                e,
                ChannelView { n_frames_decoded: (k + 1) as usize, ..e },
                t.side,
                frame_params(d.ch1, lost_flag, d.prev_only_middle),
                d.ch1.ec_prev,
            );
        }
    }
    let m = d.ch0.next_frame(st, lost_flag, frame_coding(d.ch0, lost_flag, k, false)).0;
    if there(d.ch0, lost_flag) {
        lemma_carries(
            m,
            ChannelView { n_frames_decoded: (k + 1) as usize, ..m },
            t.mid,
            frame_params(d.ch0, lost_flag, false),
            d.ch0.ec_prev,
        );
    }
    assert(zeros_i16(d.ch0.frame_length as nat) =~= Seq::new(
        d.ch0.frame_length as nat,
        |i: int| 0i16,
    ));
    reveal(SilkView::frames);
}

/// The sound of frames depends on the way out alone.
proof fn lemma_same_sound(
    a: SilkView,
    b: SilkView,
    mid: Seq<i16>,
    side: Seq<i16>,
    pred: Seq<i32>,
    collapses: bool,
    count: int,
    out: Seq<i16>,
)
    requires
        a.stereo == b.stereo,
        a.n_api == b.n_api,
        a.n_int == b.n_int,
        a.ch0.fs_khz == b.ch0.fs_khz,
        a.ch0.resampler == b.ch0.resampler,
        a.ch1.resampler == b.ch1.resampler,
    ensures
        sounds(a, mid, side, pred, collapses, count, out) == sounds(
            b,
            mid,
            side,
            pred,
            collapses,
            count,
            out,
        ),
{
    reveal(sounds);
    reveal(mixed);
    reveal(late);
    assert(late(a, mid) =~= late(b, mid));
    assert(mixed(a, mid, side, pred, false) =~= mixed(b, mid, side, pred, false));
    assert(mixed(a, mid, side, pred, true) =~= mixed(b, mid, side, pred, true));
}

/// A call that finds its frame decodes what was written.
proof fn lemma_turn(
    p: SilkView,
    e: SilkView,
    st: RangeState,
    s0: RangeState,
    ctrl: DecControl,
    lost_flag: LostFlag,
    collapses: bool,
    out: Seq<i16>,
    t: Turn,
)
    requires
        lost_flag == LostFlag::Normal || lost_flag == LostFlag::DecodeLbrr,
        p.opened(st, lost_flag) == (e, s0),
        8000 <= ctrl.api_sample_rate <= 48000,
        in_step(e),
        collapses ==> e.n_int == 1 && e.ch1.resampler.fs_in == e.ch0.fs_khz,
        out.len() >= e.frame_room(ctrl, collapses),
        turn_fits(e, lost_flag, t),
        spells(s0, turn_words(e, lost_flag, t)),
    ensures
        taken(e, s0, lost_flag, t, collapses, out, p.read(st, true, ctrl, lost_flag, collapses, out)),
{
    let w0 = turn_front(e, lost_flag, t);
    let w1 = mid_words(e, lost_flag, t);
    let w2 = side_words(e, lost_flag, t);
    lemma_concat(s0, w0, w1 + w2);
    lemma_front(e, s0, lost_flag, t);
    let s1 = behind(s0, w0);
    let only = left_out(e, lost_flag, t);
    let pred = weights_of(e, lost_flag, t);
    lemma_turn_frames(e, s1, lost_flag, t);
    let q = e.side_restored(only);
    let f = q.frames(s1, true, lost_flag, only);
    let x = p.read(st, true, ctrl, lost_flag, collapses, out);
    assert(x == f.d.finished(
        f.st,
        ctrl,
        lost_flag,
        f.mid,
        f.side,
        pred,
        only,
        collapses,
        out,
    )) by {
        reveal(SilkView::read);
    }
    lemma_rates(e.ch0);
    lemma_rates(e.ch1);
    assert(f.d.frame_room(ctrl, collapses) == e.frame_room(ctrl, collapses)) by {
        reveal(SilkView::frame_room);
    }
    lemma_way_out(f.d, f.st, ctrl, lost_flag, f.mid, f.side, pred, only, collapses, out);
    if x.r is Ok {
        lemma_same_sound(
            e,
            f.d,
            f.mid,
            f.side,
            pred,
            collapses,
            x.r->Ok_0 as int,
            x.out,
        );
    }
    if there(e.ch0, lost_flag) {
        lemma_carries(
            f.d.ch0,
            x.d.ch0,
            t.mid,
            frame_params(e.ch0, lost_flag, false),
            e.ch0.ec_prev,
        );
    }
    if side_there(e, lost_flag, t) {
        lemma_carries(
            f.d.ch1,
            x.d.ch1,
            t.side,
            frame_params(e.ch1, lost_flag, e.prev_only_middle),
            e.ch1.ec_prev,
        );
    }
}

// ---------------------------------------------------------------------
// Calls
// ---------------------------------------------------------------------

/// A later frame of a payload comes back as it was written: its words are
/// those of a frame that goes on from the one before, the decoder reads them
/// and no others, and the channels hold the indices and pulses that they
/// spell.
pub proof fn lemma_later_frame_comes_back(
    d: SilkView,
    st: RangeState,
    ctrl: DecControl,
    lost_flag: LostFlag,
    out: Seq<i16>,
    t: Turn,
)
    requires
        lost_flag == LostFlag::Normal || lost_flag == LostFlag::DecodeLbrr,
        d.decodable(true, ctrl, lost_flag, false, out.len() as int),
        d.ch0.n_frames_decoded > 0,
        in_step(d),
        ctrl.n_channels_api == d.n_api,
        ctrl.n_channels_internal == d.n_int,
        8000 <= ctrl.api_sample_rate <= 48000,
        turn_fits(d, lost_flag, t),
        spells(st, turn_words(d, lost_flag, t)),
    ensures
        taken(
            d,
            st,
            lost_flag,
            t,
            false,
            out,
            d.decoded(st, true, ctrl, lost_flag, false, out),
        ),
        ctrl.api_sample_rate == d.ch0.fs_api_hz ==> d.decoded(
            st,
            true,
            ctrl,
            lost_flag,
            false,
            out,
        ).r == Ok::<usize, CadenceError>(
            (5 * d.ch0.nb_subfr * (ctrl.api_sample_rate as int / 1000)) as usize,
        ),
{
    assert(d.begun(ctrl, false) == d) by {
        reveal(SilkView::begun);
    }
    assert(d.set_up(ctrl) == d) by {
        reveal(SilkView::set_up);
    }
    assert(d.joined(ctrl) == d) by {
        reveal(SilkView::joined);
    }
    assert(d.opened(st, lost_flag) == (d, st)) by {
        reveal(SilkView::opened);
    }
    assert(!d.lacks_decoder(true, lost_flag)) by {
        reveal(SilkView::lacks_decoder);
    }
    lemma_turn(d, d, st, st, ctrl, lost_flag, false, out, t);
    if ctrl.api_sample_rate == d.ch0.fs_api_hz {
        lemma_rates(d.ch0);
        lemma_rates(d.ch1);
        lemma_read_succeeds(
            d,
            st,
            true,
            ctrl,
            lost_flag,
            false,
            out,
            ctrl.api_sample_rate as int / 1000,
        );
    }
}

/// Whether a stereo stream turns mono at the same internal rate.
pub open spec fn turned_mono(d: SilkView, ctrl: DecControl) -> bool {
    d.n_int == 2 && ctrl.n_channels_internal == 1 && 1000 * d.ch0.fs_khz
        == ctrl.internal_sample_rate
}

/// The decoder that a payload's first call works on.
pub open spec fn prepared_for(d: SilkView, ctrl: DecControl) -> SilkView {
    d.begun(ctrl, true).set_up(ctrl).joined(ctrl)
}

/// The decoder behind flags and, if they are passed over, copies, but for what
/// the copies leave in fields that only an older frame could have set.
pub open spec fn at_first_frame(
    p: SilkView,
    lost_flag: LostFlag,
    f0: Flags,
    f1: Flags,
    cp: Copies,
    e: SilkView,
) -> bool {
    let n = p.ch0.n_frames_per_packet as int;
    &&& e == (SilkView { ch0: e.ch0, ch1: e.ch1, ..p })
    &&& past_reading(
        flagged_channel(p.ch0, f0),
        e.ch0,
        if lost_flag == LostFlag::Normal {
            copies_context(f0.copy, cp.mid, p.ch0.ec_prev, n)
        } else {
            p.ch0.ec_prev
        },
    )
    &&& if p.n_int == 2 {
        past_reading(
            flagged_channel(p.ch1, f1),
            e.ch1,
            if lost_flag == LostFlag::Normal {
                copies_context(f1.copy, cp.side, p.ch1.ec_prev, n)
            } else {
                p.ch1.ec_prev
            },
        )
    } else {
        e.ch1 == p.ch1
    }
}

/// The words in front of the first frame: which frames have copies, and, in
/// front of the frame itself, all the copies. The copy of the first frame
/// stands right behind the flags.
pub open spec fn head_words(
    p: SilkView,
    lost_flag: LostFlag,
    f0: Flags,
    f1: Flags,
    cp: Copies,
) -> Seq<Word> {
    (f0.words() + if p.n_int == 2 {
        f1.words()
    } else {
        Seq::empty()
    }) + if lost_flag == LostFlag::Normal {
        copies_words(p, f0, f1, cp, p.ch0.n_frames_per_packet as int)
    } else {
        Seq::empty()
    }
}

/// The range decoder behind the flag bits of a payload.
pub open spec fn past_flag_bits(stereo: bool, st: RangeState, f0: Flags, f1: Flags) -> RangeState {
    let s = past_bits(st, f0.bits());
    if stereo {
        past_bits(s, f1.bits())
    } else {
        s
    }
}

pub open spec fn flag_bits_spelled(stereo: bool, st: RangeState, f0: Flags, f1: Flags) -> bool {
    &&& bits_spelled(st, f0.bits())
    &&& stereo ==> bits_spelled(past_bits(st, f0.bits()), f1.bits())
}

proof fn lemma_opened(
    p: SilkView,
    st: RangeState,
    lost_flag: LostFlag,
    f0: Flags,
    f1: Flags,
    cp: Copies,
)
    requires
        lost_flag == LostFlag::Normal || lost_flag == LostFlag::DecodeLbrr,
        in_step(p),
        p.ch0.n_frames_decoded == 0,
        1 <= p.ch0.n_frames_per_packet <= 3,
        f0.of(p.ch0.n_frames_per_packet as int),
        p.n_int == 2 ==> p.ch1.n_frames_per_packet == p.ch0.n_frames_per_packet && f1.of(
            p.ch0.n_frames_per_packet as int,
        ),
        copies_fit(p.ch0, f0, cp.mid),
        p.n_int == 2 ==> copies_fit(p.ch1, f1, cp.side),
        flag_bits_spelled(p.n_int == 2, st, f0, f1),
        spells(
            past_flag_bits(p.n_int == 2, st, f0, f1),
            head_words(p, lost_flag, f0, f1, cp),
        ),
    ensures
        at_first_frame(p, lost_flag, f0, f1, cp, p.opened(st, lost_flag).0),
        p.opened(st, lost_flag).1 == behind(
            past_flag_bits(p.n_int == 2, st, f0, f1),
            head_words(p, lost_flag, f0, f1, cp),
        ),
{
    let n = p.ch0.n_frames_per_packet as int;
    let s0 = past_flag_bits(p.n_int == 2, st, f0, f1);
    let w0 = f0.words() + if p.n_int == 2 {
        f1.words()
    } else {
        Seq::empty()
    };
    let w1 = if lost_flag == LostFlag::Normal {
        copies_words(p, f0, f1, cp, n)
    } else {
        Seq::empty()
    };
    assert(f0.words() + Seq::<Word>::empty() =~= f0.words());
    assert(w0 + Seq::<Word>::empty() =~= w0);
    lemma_concat(s0, w0, w1);
    lemma_flags(p, st, f0, f1);
    let g = p.flagged(st).0;
    let s1 = behind(s0, w0);
    if lost_flag == LostFlag::Normal {
        lemma_copies(p, g, s1, f0, f1, cp, n);
    }
    reveal(SilkView::opened);
}

/// The first frame of a payload comes back as it was written, and so does the
/// copy of the first frame where the copies are asked for: behind the flags,
/// and behind all copies if the frame itself is asked for, the decoder reads
/// the words of the frame and no others, and the channels hold the indices and
/// pulses that they spell. The result is the decoder when its frame begins.
pub proof fn lemma_first_frame_comes_back(
    d: SilkView,
    st: RangeState,
    ctrl: DecControl,
    lost_flag: LostFlag,
    out: Seq<i16>,
    f0: Flags,
    f1: Flags,
    cp: Copies,
    w: SilkView,
    t: Turn,
) -> (e: SilkView)
    requires
        lost_flag == LostFlag::Normal || lost_flag == LostFlag::DecodeLbrr,
        d.decodable(true, ctrl, lost_flag, true, out.len() as int),
        d.begun(ctrl, true).set_up_error(ctrl) is None,
        d.ch0.shaped(),
        d.ch1.shaped(),
        ({
            let p = prepared_for(d, ctrl);
            let n = p.ch0.n_frames_per_packet as int;
            &&& f0.of(n)
            &&& p.n_int == 2 ==> f1.of(n)
            &&& copies_fit(p.ch0, f0, cp.mid)
            &&& p.n_int == 2 ==> copies_fit(p.ch1, f1, cp.side)
            &&& flag_bits_spelled(p.n_int == 2, st, f0, f1)
            &&& at_first_frame(p, lost_flag, f0, f1, cp, w)
            &&& turn_fits(w, lost_flag, t)
            &&& spells(
                past_flag_bits(p.n_int == 2, st, f0, f1),
                head_words(p, lost_flag, f0, f1, cp) + turn_words(w, lost_flag, t),
            )
        }),
    ensures
        ({
            let p = prepared_for(d, ctrl);
            let head = head_words(p, lost_flag, f0, f1, cp);
            let s = past_flag_bits(p.n_int == 2, st, f0, f1);
            let x = d.decoded(st, true, ctrl, lost_flag, true, out);
            &&& at_first_frame(p, lost_flag, f0, f1, cp, e)
            &&& taken(e, behind(s, head), lost_flag, t, turned_mono(d, ctrl), out, x)
            &&& x.st == behind(s, head + turn_words(w, lost_flag, t))
            &&& x.d.ch0.vad_flags == kept(f0.vad)
            &&& x.d.ch0.lbrr_flags == kept(f0.copy)
        }),
{
    let p = prepared_for(d, ctrl);
    let head = head_words(p, lost_flag, f0, f1, cp);
    let s = past_flag_bits(p.n_int == 2, st, f0, f1);
    lemma_prepared_in_step(d, ctrl, lost_flag, out.len() as int);
    lemma_concat(s, head, turn_words(w, lost_flag, t));
    lemma_opened(p, st, lost_flag, f0, f1, cp);
    let e = p.opened(st, lost_flag).0;
    lemma_same_turn(w, e, lost_flag, t);
    lemma_opened_in_step(p, e, lost_flag, f0, f1, cp);
    assert(!p.lacks_decoder(true, lost_flag)) by {
        reveal(SilkView::lacks_decoder);
    }
    assert(e.frame_room(ctrl, d.collapses(ctrl)) == p.frame_room(ctrl, d.collapses(ctrl))) by {
        reveal(SilkView::frame_room);
    }
    lemma_turn(p, e, st, behind(s, head), ctrl, lost_flag, d.collapses(ctrl), out, t);
    e
}

/// The words of a frame depend on flags, rates and context alone.
proof fn lemma_same_turn(a: SilkView, b: SilkView, lost_flag: LostFlag, t: Turn)
    requires
        a == (SilkView { ch0: a.ch0, ch1: a.ch1, ..b }),
        a.ch0 == (ChannelView { indices: a.ch0.indices, pulses: a.ch0.pulses, ..b.ch0 }),
        a.ch1 == (ChannelView { indices: a.ch1.indices, pulses: a.ch1.pulses, ..b.ch1 }),
    ensures
        turn_words(a, lost_flag, t) == turn_words(b, lost_flag, t),
        turn_fits(a, lost_flag, t) == turn_fits(b, lost_flag, t),
{
}

proof fn lemma_set_up_shape(c: ChannelView, layout: (usize, usize), khz: u32, api_hz: i32)
    requires
        c.wf(),
        c.shaped(),
        valid_fs(khz as int),
        layout.1 == 2 || layout.1 == 4,
        any_rate(api_hz),
    ensures
        ({
            let a = laid_out(c, layout).at_rate(khz, api_hz);
            &&& a.wf()
            &&& a.ready()
            &&& a.shaped()
            &&& a.fs_khz == khz
            &&& a.fs_api_hz == api_hz
            &&& a.nb_subfr == layout.1
            &&& a.n_frames_per_packet == layout.0
            &&& a.n_frames_decoded == c.n_frames_decoded
            &&& a.loss_cnt == c.loss_cnt
        }),
{
    let b = laid_out(c, layout);
    assert(b.wf()) by {
        reveal(ChannelView::wf);
    }
    lemma_at_rate_wf(b, khz, api_hz);
}

/// A payload that can be set up finds the decoder ready for its first frame.
proof fn lemma_prepared_in_step(d: SilkView, ctrl: DecControl, lost_flag: LostFlag, out_len: int)
    requires
        d.decodable(true, ctrl, lost_flag, true, out_len),
        d.begun(ctrl, true).set_up_error(ctrl) is None,
        d.ch0.shaped(),
        d.ch1.shaped(),
    ensures
        ({
            let p = prepared_for(d, ctrl);
            &&& in_step(p)
            &&& p.ch0.n_frames_decoded == 0
            &&& 1 <= p.ch0.n_frames_per_packet <= 3
            &&& p.n_int == 2 ==> p.ch1.n_frames_per_packet == p.ch0.n_frames_per_packet
            &&& d.collapses(ctrl) ==> p.n_int == 1 && p.ch1.resampler.fs_in == p.ch0.fs_khz
            &&& 8000 <= ctrl.api_sample_rate <= 48000
            &&& out_len >= p.frame_room(ctrl, d.collapses(ctrl))
            &&& !d.size_refused(ctrl, true)
        }),
{
    let b = d.begun(ctrl, true);
    lemma_begun_wf(d, ctrl);
    let khz = internal_khz_spec(ctrl.internal_sample_rate) as u32;
    let layout = layout_spec(ctrl.payload_size_ms)->Some_0;
    assert(b.ch0.shaped() && b.ch1.shaped() && (ctrl.n_channels_internal == 2
        ==> b.ch1.n_frames_decoded == 0) && (ctrl.n_channels_internal == 1 ==> b.ch1 == d.ch1)) by {
        reveal(SilkView::begun);
    }
    lemma_set_up_shape(b.ch0, layout, khz, ctrl.api_sample_rate);
    lemma_set_up_shape(b.ch1, layout, khz, ctrl.api_sample_rate);
    let q = b.set_up(ctrl);
    assert(q == (SilkView { ch0: q.ch0, ch1: q.ch1, ..d }) && q.ch0 == laid_out(
        b.ch0,
        layout,
    ).at_rate(khz, ctrl.api_sample_rate) && (ctrl.n_channels_internal == 2 ==> q.ch1 == laid_out(
        b.ch1,
        layout,
    ).at_rate(khz, ctrl.api_sample_rate)) && (ctrl.n_channels_internal == 1 ==> q.ch1 == d.ch1)) by {
        reveal(SilkView::set_up);
    }
    if ctrl.n_channels_internal == 2 {
        lemma_shared_resampler_wf(q.ch0, q.ch1);
    }
    lemma_rates(d.ch1);
    let p = q.joined(ctrl);
    assert(p.stereo.pred_prev_q13.len() == 2 && p.stereo.s_mid.len() == 2 && p.stereo.s_side.len()
        == 2 && p.ch0 == q.ch0 && p.n_api == ctrl.n_channels_api && p.n_int
        == ctrl.n_channels_internal && p.ch1 == (ChannelView {
        resampler: p.ch1.resampler,
        ..q.ch1
    }) && (p.ch1.resampler == q.ch1.resampler || (p.n_int == 2 && p.ch1.resampler
        == q.ch0.resampler))) by {
        reveal(SilkView::joined);
    }
    assert(!p.lacks_decoder(true, lost_flag)) by {
        reveal(SilkView::lacks_decoder);
    }
}

/// Flags and copies leave the decoder in step.
proof fn lemma_opened_in_step(
    p: SilkView,
    e: SilkView,
    lost_flag: LostFlag,
    f0: Flags,
    f1: Flags,
    cp: Copies,
)
    requires
        in_step(p),
        at_first_frame(p, lost_flag, f0, f1, cp, e),
    ensures
        in_step(e),
{
    reveal(ChannelView::wf);
}

/// A channel that takes up a payload at some rates. One that keeps its rates
/// keeps everything but the counts and lengths of its frames. A new output
/// rate takes a new resampler, and a new internal rate also a channel without
/// history: buffers and filters are empty, and nothing is left to go on from.
pub open spec fn takes_up(c: ChannelView, a: ChannelView, khz: u32, api_hz: i32) -> bool {
    let kept = ChannelView {
        n_frames_decoded: 0,
        n_frames_per_packet: a.n_frames_per_packet,
        nb_subfr: a.nb_subfr,
        subfr_length: (5 * khz) as usize,
        frame_length: a.frame_length,
        fs_khz: khz,
        fs_api_hz: api_hz,
        resampler: if c.fs_khz == khz && c.fs_api_hz == api_hz {
            c.resampler
        } else {
            ResamplerView::start((1000 * khz) as i32, api_hz, false)
        },
        ..c
    };
    a == (if c.fs_khz == khz {
        kept
    } else {
        ChannelView {
            lpc_order: if khz == 16 {
                16
            } else {
                10
            },
            ltp_mem_length: (20 * khz) as usize,
            nlsf_cb: nlsf_cb_spec(khz),
            first_frame_after_reset: true,
            lag_prev: 100,
            last_gain_index: 10,
            prev_signal_type: 0,
            synth: SynthView {
                out_buf: zeros_i16(480),
                s_lpc_q14_buf: zeros_i32(16),
                ..c.synth
            },
            ..kept
        }
    })
}

/// What a payload's first call sets up. Frames and subframes last as long as
/// the payload, the rates are those that were asked for, and each channel that
/// is coded takes them up. A side channel that comes in starts anew, and where
/// a second output channel comes in its output goes on from the first one's.
pub proof fn lemma_set_up(d: SilkView, ctrl: DecControl)
    requires
        d.wf(),
        d.begun(ctrl, true).set_up_error(ctrl) is None,
        ctrl.n_channels_internal == 1 || ctrl.n_channels_internal == 2,
    ensures
        ({
            let p = prepared_for(d, ctrl);
            let c = p.ch0;
            let comes_in = ctrl.n_channels_api == 2 && ctrl.n_channels_internal == 2 && (d.n_api
                == 1 || d.n_int == 1);
            &&& 5 * c.nb_subfr * c.n_frames_per_packet == (if ctrl.payload_size_ms == 0 {
                10
            } else {
                ctrl.payload_size_ms as int
            })
            &&& c.nb_subfr == 2 || c.nb_subfr == 4
            &&& c.n_frames_per_packet > 1 ==> c.nb_subfr == 4
            &&& ctrl.internal_sample_rate == 8000 || ctrl.internal_sample_rate == 12000
                || ctrl.internal_sample_rate == 16000 ==> 1000 * c.fs_khz
                == ctrl.internal_sample_rate
            &&& c.frame_length == 5 * c.nb_subfr * c.fs_khz
            &&& takes_up(d.ch0, c, c.fs_khz, ctrl.api_sample_rate)
            &&& ctrl.n_channels_internal == 1 ==> p.ch1 == d.ch1
            &&& ctrl.n_channels_internal == 2 ==> {
                let own = ChannelView {
                    resampler: if comes_in {
                        if d.n_int == 2 && d.ch1.fs_khz == c.fs_khz && d.ch1.fs_api_hz
                            == ctrl.api_sample_rate {
                            d.ch1.resampler
                        } else {
                            ResamplerView::start(
                                (1000 * c.fs_khz) as i32,
                                ctrl.api_sample_rate,
                                false,
                            )
                        }
                    } else {
                        p.ch1.resampler
                    },
                    ..p.ch1
                };
                &&& takes_up(
                    if d.n_int == 2 {
                        d.ch1
                    } else {
                        ChannelView::reset_state()
                    },
                    own,
                    c.fs_khz,
                    ctrl.api_sample_rate,
                )
                &&& p.ch1.nb_subfr == c.nb_subfr
                &&& p.ch1.n_frames_per_packet == c.n_frames_per_packet
                &&& p.ch1.frame_length == c.frame_length
                &&& comes_in ==> p.ch1.resampler == c.resampler
            }
            &&& p == (SilkView {
                ch0: p.ch0,
                ch1: p.ch1,
                stereo: StereoView {
                    pred_prev_q13: if comes_in {
                        seq![0i16, 0i16]
                    } else {
                        d.stereo.pred_prev_q13
                    },
                    s_side: if comes_in {
                        seq![0i16, 0i16]
                    } else {
                        d.stereo.s_side
                    },
                    ..d.stereo
                },
                n_api: ctrl.n_channels_api,
                n_int: ctrl.n_channels_internal,
                ..d
            })
        }),
{
    let b = d.begun(ctrl, true);
    let khz = internal_khz_spec(ctrl.internal_sample_rate) as u32;
    let layout = layout_spec(ctrl.payload_size_ms)->Some_0;
    lemma_begun_wf(d, ctrl);
    assert(b.ch0 == (ChannelView { n_frames_decoded: 0, ..d.ch0 }) && (ctrl.n_channels_internal == 1
        ==> b.ch1 == d.ch1) && (ctrl.n_channels_internal == 2 ==> b.ch1 == (if d.n_int == 2 {
        ChannelView { n_frames_decoded: 0, ..d.ch1 }
    } else {
        ChannelView::reset_state()
    }))) by {
        reveal(SilkView::begun);
    }
    lemma_takes_up(b.ch0, layout, khz, ctrl.api_sample_rate);
    if ctrl.n_channels_internal == 2 {
        lemma_takes_up(b.ch1, layout, khz, ctrl.api_sample_rate);
    }
    let q = b.set_up(ctrl);
    assert(q == (SilkView {
        ch0: laid_out(b.ch0, layout).at_rate(khz, ctrl.api_sample_rate),
        ch1: if ctrl.n_channels_internal == 2 {
            laid_out(b.ch1, layout).at_rate(khz, ctrl.api_sample_rate)
        } else {
            b.ch1
        },
        ..b
    })) by {
        reveal(SilkView::set_up);
    }
    reveal(SilkView::joined);
    let nb = layout.1 as int;
    let n = layout.0 as int;
    assert(5 * nb * n == (if nb == 2 {
        10 * n
    } else {
        20 * n
    })) by (nonlinear_arith)
        requires
            nb == 2 || nb == 4,
    ;
}

proof fn lemma_takes_up(b: ChannelView, layout: (usize, usize), khz: u32, api_hz: i32)
    requires
        b.n_frames_decoded == 0,
        valid_fs(khz as int),
        layout.1 == 2 || layout.1 == 4,
    ensures
        ({
            let a = laid_out(b, layout).at_rate(khz, api_hz);
            &&& forall|n: usize| #[trigger] takes_up(
                ChannelView { n_frames_decoded: n, ..b },
                a,
                khz,
                api_hz,
            )
            &&& a.n_frames_per_packet == layout.0
            &&& a.nb_subfr == layout.1
            &&& a.fs_khz == khz
            &&& a.frame_length == 5 * layout.1 * khz
        }),
{
    let nb = layout.1 as int;
    let f = khz as int;
    assert(nb * (5 * f) == 5 * nb * f) by (nonlinear_arith);
    assert(0 <= nb * (5 * f) <= 320) by (nonlinear_arith)
        requires
            0 <= nb <= 4,
            0 <= f <= 16,
    ;
    let a = laid_out(b, layout).at_rate(khz, api_hz);
    assert forall|n: usize| #[trigger] takes_up(
        ChannelView { n_frames_decoded: n, ..b },
        a,
        khz,
        api_hz,
    ) by {}
}

// ---------------------------------------------------------------------
// Losses
// ---------------------------------------------------------------------

/// What a lost frame of a decoder goes on from.
pub open spec fn going_on(d: SilkView) -> bool {
    &&& d.ch0.wf()
    &&& d.ch1.wf()
    &&& d.ch0.ready()
    &&& d.ch0.shaped()
    &&& d.ch0.loss_cnt < i32::MAX
    &&& d.ch0.n_frames_decoded < usize::MAX
    &&& d.n_api == 1 || d.n_api == 2
    &&& d.stereo.pred_prev_q13.len() == 2
    &&& d.stereo.s_mid.len() == 2
    &&& d.stereo.s_side.len() == 2
    &&& d.n_int == 2 ==> {
        &&& d.paired()
        &&& d.ch1.shaped()
        &&& d.ch1.loss_cnt < i32::MAX
        &&& d.ch1.n_frames_decoded < usize::MAX
    }
}

/// The side channel's samples of a lost frame: it goes on too, unless it was
/// left out before.
pub open spec fn lost_side(d: SilkView) -> Seq<i16> {
    if d.n_int == 2 && !d.prev_only_middle {
        d.ch1.lost_frame().1
    } else {
        Seq::new(d.ch0.frame_length as nat, |i: int| 0i16)
    }
}

/// The weights of a lost frame are those of the frame before.
pub open spec fn lost_weights(d: SilkView) -> Seq<i32> {
    if d.n_int == 2 {
        seq![d.stereo.pred_prev_q13[0] as i32, d.stereo.pred_prev_q13[1] as i32]
    } else {
        seq![0i32, 0i32]
    }
}

/// A call for a lost frame gives what its channels make up.
pub open spec fn made_up(
    d: SilkView,
    st: RangeState,
    collapses: bool,
    before: Seq<i16>,
    x: Decoded,
) -> bool {
    let mid = d.ch0.lost_frame().1;
    let side = lost_side(d);
    &&& x.st == st
    &&& x.d.ch0 == (ChannelView {
        n_frames_decoded: (d.ch0.n_frames_decoded + 1) as usize,
        resampler: x.d.ch0.resampler,
        last_gain_index: x.d.ch0.last_gain_index,
        ..d.ch0.lost_frame().0
    })
    &&& d.n_int == 2 ==> x.d.ch1 == (ChannelView {
        n_frames_decoded: (d.ch1.n_frames_decoded + 1) as usize,
        resampler: x.d.ch1.resampler,
        last_gain_index: x.d.ch1.last_gain_index,
        ..if d.prev_only_middle {
            d.ch1.without_history()
        } else {
            d.ch1.lost_frame().0
        }
    })
    &&& mid.len() == d.ch0.frame_length
    &&& side.len() == d.ch0.frame_length
    &&& went_out_to(d, x.d, mid, side, lost_weights(d))
    &&& x.d.prev_only_middle == d.prev_only_middle
    &&& x.r matches Ok(count) ==> {
        &&& sounds(d, mid, side, lost_weights(d), collapses, count as int, x.out)
        &&& same_from(before, x.out, d.n_api * count)
        &&& x.d.ch0.last_gain_index == 10
        &&& d.n_int == 2 ==> x.d.ch1.last_gain_index == 10
        &&& lag_told(x.d.ch0, x.lag)
    }
}

proof fn lemma_lost_call(
    p: SilkView,
    st: RangeState,
    present: bool,
    ctrl: DecControl,
    collapses: bool,
    out: Seq<i16>,
)
    requires
        going_on(p),
        8000 <= ctrl.api_sample_rate <= 48000,
        collapses ==> p.n_int == 1 && p.ch1.resampler.fs_in == p.ch0.fs_khz,
        out.len() >= p.frame_room(ctrl, collapses),
    ensures
        made_up(p, st, collapses, out, p.read(st, present, ctrl, LostFlag::PacketLost, collapses, out)),
{
    let lost = LostFlag::PacketLost;
    let q = p.side_restored(false);
    let pred = lost_weights(p);
    assert(p.opened(st, lost) == (p, st)) by {
        reveal(SilkView::opened);
    }
    assert(p.predictors(st, lost) == (st, pred, false)) by {
        reveal(SilkView::predictors);
    }
    lemma_frame_length(p.ch0);
    lemma_lost_frame_sounds(p.ch0, 0);
    if p.n_int == 2 && !p.prev_only_middle {
        lemma_lost_frame_sounds(p.ch1, 0);
    }
    let f = q.frames(st, present, lost, false);
    let mid = p.ch0.lost_frame().1;
    let side = lost_side(p);
    assert(zeros_i16(p.ch0.frame_length as nat) =~= Seq::new(
        p.ch0.frame_length as nat,
        |i: int| 0i16,
    ));
    assert(f.complete && f.st == st && f.mid == mid && f.side == side && f.d == (SilkView {
        ch0: ChannelView {
            n_frames_decoded: (p.ch0.n_frames_decoded + 1) as usize,
            ..p.ch0.lost_frame().0
        },
        ch1: if p.n_int == 2 {
            ChannelView {
                n_frames_decoded: (p.ch1.n_frames_decoded + 1) as usize,
                ..if p.prev_only_middle {
                    p.ch1.without_history()
                } else {
                    p.ch1.lost_frame().0
                }
            }
        } else {
            p.ch1
        },
        ..p
    })) by {
        reveal(SilkView::frames);
        reveal(ChannelView::next_frame);
    }
    let x = p.read(st, present, ctrl, lost, collapses, out);
    assert(x == f.d.finished(st, ctrl, lost, mid, side, pred, false, collapses, out)) by {
        reveal(SilkView::read);
    }
    lemma_rates(p.ch0);
    lemma_rates(p.ch1);
    assert(f.d.frame_room(ctrl, collapses) == p.frame_room(ctrl, collapses)) by {
        reveal(SilkView::frame_room);
    }
    lemma_way_out(f.d, st, ctrl, lost, mid, side, pred, false, collapses, out);
    lemma_lost_levels(f.d, st, ctrl, mid, side, pred, collapses, out);
    if x.r is Ok {
        lemma_same_sound(p, f.d, mid, side, pred, collapses, x.r->Ok_0 as int, x.out);
    }
}

/// A loss sets the gain levels back, and leaves the mark of a side channel
/// that is left out.
proof fn lemma_lost_levels(
    d: SilkView,
    st: RangeState,
    ctrl: DecControl,
    mid: Seq<i16>,
    side: Seq<i16>,
    pred: Seq<i32>,
    collapses: bool,
    out: Seq<i16>,
)
    requires
        d.n_api == 1 || d.n_api == 2,
        d.ch0.ready(),
        mid.len() == d.ch0.frame_length,
        side.len() == d.ch0.frame_length,
        d.stereo.s_mid.len() == 2,
        d.stereo.s_side.len() == 2,
        8000 <= ctrl.api_sample_rate <= 48000,
    ensures
        ({
            let x = d.finished(
                st,
                ctrl,
                LostFlag::PacketLost,
                mid,
                side,
                pred,
                false,
                collapses,
                out,
            );
            &&& x.d.prev_only_middle == d.prev_only_middle
            &&& x.r is Ok ==> x.d.ch0.last_gain_index == 10
            &&& x.r is Ok && d.n_int == 2 ==> x.d.ch1.last_gain_index == 10
        }),
{
    let n_out = out_len_spec(
        mid.len() as int,
        ctrl.api_sample_rate as int,
        d.ch0.fs_khz as int,
    );
    lemma_frame_length(d.ch0);
    lemma_out_len(d.ch0, ctrl.api_sample_rate as int);
    lemma_unmixed(d, mid, side, pred);
    let (e, left, right) = d.unmixed(mid, side, pred);
    lemma_resampled_shape(e, left, right, collapses, n_out, out);
    reveal(SilkView::finished);
}

/// A frame that is lost is made up by its channels, from what they go on from:
/// the call takes nothing from the payload, and its output is the sound of
/// what the channels make up, which [`lemma_lost_frame_sounds`] says sample by
/// sample. A loss sets the gain levels back.
pub proof fn lemma_lost_call_sounds(
    d: SilkView,
    st: RangeState,
    present: bool,
    ctrl: DecControl,
    new_packet: bool,
    out: Seq<i16>,
)
    requires
        d.decodable(present, ctrl, LostFlag::PacketLost, new_packet, out.len() as int),
        d.ch0.shaped(),
        d.ch1.shaped(),
        new_packet ==> d.begun(ctrl, true).set_up_error(ctrl) is None,
        !new_packet ==> {
            &&& d.ch0.n_frames_decoded > 0
            &&& ctrl.n_channels_api == d.n_api
            &&& ctrl.n_channels_internal == d.n_int
            &&& 8000 <= ctrl.api_sample_rate <= 48000
        },
    ensures
        made_up(
            if new_packet {
                prepared_for(d, ctrl)
            } else {
                d
            },
            st,
            new_packet && turned_mono(d, ctrl),
            out,
            d.decoded(st, present, ctrl, LostFlag::PacketLost, new_packet, out),
        ),
        !new_packet && ctrl.api_sample_rate == d.ch0.fs_api_hz ==> d.decoded(
            st,
            present,
            ctrl,
            LostFlag::PacketLost,
            new_packet,
            out,
        ).r == Ok::<usize, CadenceError>(
            (5 * d.ch0.nb_subfr * (ctrl.api_sample_rate as int / 1000)) as usize,
        ),
{
    let lost = LostFlag::PacketLost;
    if new_packet {
        let p = prepared_for(d, ctrl);
        assert(!p.lacks_decoder(present, lost)) by {
            reveal(SilkView::lacks_decoder);
        }
        assert(d.decodable(true, ctrl, lost, true, out.len() as int)) by {
            reveal(SilkView::lacks_decoder);
        }
        lemma_prepared_in_step(d, ctrl, lost, out.len() as int);
        lemma_lost_call(p, st, present, ctrl, d.collapses(ctrl), out);
    } else {
        assert(d.begun(ctrl, false) == d) by {
            reveal(SilkView::begun);
        }
        assert(d.set_up(ctrl) == d) by {
            reveal(SilkView::set_up);
        }
        assert(d.joined(ctrl) == d) by {
            reveal(SilkView::joined);
        }
        assert(!d.lacks_decoder(present, lost)) by {
            reveal(SilkView::lacks_decoder);
        }
        lemma_lost_call(d, st, present, ctrl, false, out);
        if ctrl.api_sample_rate == d.ch0.fs_api_hz {
            lemma_rates(d.ch0);
            lemma_rates(d.ch1);
            lemma_read_succeeds(
                d,
                st,
                present,
                ctrl,
                lost,
                false,
                out,
                ctrl.api_sample_rate as int / 1000,
            );
        }
    }
}

/// Where no frame of a payload was decoded yet, the mark of a new one changes
/// nothing.
pub proof fn lemma_mark_of_a_new_payload(
    d: SilkView,
    st: RangeState,
    present: bool,
    ctrl: DecControl,
    lost_flag: LostFlag,
    out: Seq<i16>,
)
    requires
        d.ch0.n_frames_decoded == 0,
        d.ch1.n_frames_decoded == 0,
    ensures
        d.decoded(st, present, ctrl, lost_flag, true, out) == d.decoded(
            st,
            present,
            ctrl,
            lost_flag,
            false,
            out,
        ),
{
    assert(d.begun(ctrl, true) == d.begun(ctrl, false)) by {
        reveal(SilkView::begun);
    }
}

/// A call that fails tells no lag: the caller's stays.
pub proof fn lemma_failure_tells_no_lag(
    d: SilkView,
    st: RangeState,
    present: bool,
    ctrl: DecControl,
    lost_flag: LostFlag,
    new_packet: bool,
    out: Seq<i16>,
)
    ensures
        ({
            let x = d.decoded(st, present, ctrl, lost_flag, new_packet, out);
            x.r is Err ==> x.lag == ctrl.prev_pitch_lag
        }),
{
    reveal(SilkView::read);
    reveal(SilkView::finished);
}

} // verus!
