//! From decoded frames to output samples.
use crate::channel::{lemma_rates, ChannelView};
use crate::decode_indices::TYPE_VOICED;
use crate::decoder::{DecControl, LostFlag, SilkDecoder, SilkView};
use crate::error::{CadenceError, Result};
use crate::gains::LAST_GAIN_INDEX_ON_PACKET_LOSS;
use crate::range::RangeState;
use crate::resampler::ResamplerView;
use crate::stereo::{ms_to_lr, stereo_next_spec, unmixed_spec, StereoView};
use vstd::prelude::*;

verus! {

/// Output samples per channel for a frame.
pub open spec fn out_len_spec(frame_length: int, api_sample_rate: int, fs_khz: int) -> int {
    (frame_length * api_sample_rate) / (fs_khz * 1000)
}

/// What a resampler makes of `n` input samples.
pub open spec fn resampled_len(r: ResamplerView, n: int) -> int {
    n / r.fs_in * r.fs_out
}

/// Interleaved samples with one channel replaced.
pub open spec fn interleaved(out: Seq<i16>, samples: Seq<i16>, channel: int) -> Seq<i16> {
    Seq::new(
        out.len(),
        |j: int|
            if j < 2 * samples.len() && j % 2 == channel {
                samples[j / 2]
            } else {
                out[j]
            },
    )
}

/// The pitch lag of the last frame at 48 kHz, 0 if it was not voiced.
pub open spec fn exported_lag(c: ChannelView) -> i32 {
    if c.prev_signal_type == TYPE_VOICED {
        (c.lag_prev * (if c.fs_khz == 8 {
            6int
        } else if c.fs_khz == 12 {
            4
        } else {
            3
        })) as i32
    } else {
        0
    }
}

/// What a call gives back.
pub struct Decoded {
    pub d: SilkView,
    pub st: RangeState,
    pub r: Result<usize>,
    pub out: Seq<i16>,
    pub lag: i32,
}

impl SilkView {
    /// Unmixes the frame: the decoder, and the inputs of the two resamplers.
    #[verifier::opaque]
    pub open spec fn unmixed(self, mid: Seq<i16>, side: Seq<i16>, pred: Seq<i32>) -> (
        SilkView,
        Seq<i16>,
        Seq<i16>,
    ) {
        let n = mid.len() as int;
        let fs = self.ch0.fs_khz as int;
        let prev = self.stereo.pred_prev_q13;
        let m = self.stereo.s_mid + mid;
        let s = self.stereo.s_side + side;
        if self.n_api == 2 && self.n_int == 2 {
            (
                SilkView { stereo: stereo_next_spec(m, s, pred, n), ..self },
                unmixed_spec(prev, m, s, pred, fs, n, true).subrange(1, n + 1),
                unmixed_spec(prev, m, s, pred, fs, n, false).subrange(1, n + 1),
            )
        } else {
            (
                SilkView {
                    stereo: StereoView { s_mid: m.subrange(n, n + 2), ..self.stereo },
                    ..self
                },
                m.subrange(1, n + 1),
                m.subrange(1, n + 1),
            )
        }
    }

    /// Resamples the first channel into the output.
    pub open spec fn first_out(self, left: Seq<i16>, out: Seq<i16>) -> (SilkView, Seq<i16>) {
        let o = self.ch0.resampler.resample_out(left);
        (
            SilkView {
                ch0: ChannelView {
                    resampler: self.ch0.resampler.resample_next(left),
                    ..self.ch0
                },
                ..self
            },
            if self.n_api == 2 {
                interleaved(out, o, 0)
            } else {
                o + out.subrange(o.len() as int, out.len() as int)
            },
        )
    }

    /// Resamples the second channel into the output.
    pub open spec fn second_out(self, right: Seq<i16>, out: Seq<i16>) -> (SilkView, Seq<i16>) {
        let o = self.ch1.resampler.resample_out(right);
        (
            SilkView {
                ch1: ChannelView {
                    resampler: self.ch1.resampler.resample_next(right),
                    ..self.ch1
                },
                ..self
            },
            interleaved(out, o, 1),
        )
    }

    /// Resamples a frame into the output: the decoder, the result and the
    /// output. A second output channel without a second coded one repeats
    /// the first, or goes through its own resampler once more when the
    /// stream has just turned mono.
    #[verifier::opaque]
    pub open spec fn resampled(
        self,
        left: Seq<i16>,
        right: Seq<i16>,
        collapses: bool,
        n_out: int,
        out: Seq<i16>,
    ) -> (SilkView, Result<usize>, Seq<i16>) {
        let n = left.len() as int;
        let need0 = resampled_len(self.ch0.resampler, n);
        let need1 = resampled_len(self.ch1.resampler, n);
        if need0 != n_out {
            (
                self,
                Err(
                    CadenceError::BufferTooSmall {
                        needed: need0 as usize,
                        provided: n_out as usize,
                    },
                ),
                out,
            )
        } else {
            let (d, o) = self.first_out(left, out);
            if self.n_api == 1 {
                (d, Ok(n_out as usize), o)
            } else if self.n_int == 2 || collapses {
                if need1 != n_out {
                    (
                        d,
                        Err(
                            CadenceError::BufferTooSmall {
                                needed: need1 as usize,
                                provided: n_out as usize,
                            },
                        ),
                        o,
                    )
                } else {
                    let (e, p) = d.second_out(right, o);
                    (e, Ok(n_out as usize), p)
                }
            } else {
                (
                    d,
                    Ok(n_out as usize),
                    interleaved(o, self.ch0.resampler.resample_out(left), 1),
                )
            }
        }
    }

    /// How many samples the output of a frame of `n` must have room for. The
    /// resamplers may refuse before any sample is written, or before the last
    /// one.
    pub open spec fn room(self, n: int, collapses: bool, n_out: int) -> int {
        if self.n_api == 1 {
            n_out
        } else if resampled_len(self.ch0.resampler, n) != n_out {
            0
        } else if (self.n_int == 2 || collapses) && resampled_len(self.ch1.resampler, n) != n_out {
            2 * n_out - 1
        } else {
            2 * n_out
        }
    }

    /// The decoder at the end of a call.
    pub open spec fn closed(self, lost_flag: LostFlag, only_middle: bool) -> SilkView {
        if lost_flag == LostFlag::PacketLost {
            SilkView {
                ch0: ChannelView { last_gain_index: LAST_GAIN_INDEX_ON_PACKET_LOSS, ..self.ch0 },
                ch1: if self.n_int == 2 {
                    ChannelView { last_gain_index: LAST_GAIN_INDEX_ON_PACKET_LOSS, ..self.ch1 }
                } else {
                    self.ch1
                },
                ..self
            }
        } else {
            SilkView { prev_only_middle: only_middle, ..self }
        }
    }
}

impl SilkDecoder {
    /// Unmixes a frame that stands behind two samples of room in `mid` and
    /// `side`.
    #[verifier::rlimit(60)]
    pub(crate) fn unmix(
        &mut self,
        mid: &mut [i16],
        side: &mut [i16],
        pred_q13: &[i32; 2],
        frame_length: usize,
        Ghost(ctrl): Ghost<DecControl>,
    )
        requires
            old(self).wf(),
            old(self)@.prepared(ctrl),
            frame_length == old(self)@.ch0.frame_length,
            old(mid)@.len() == frame_length + 2,
            old(side)@.len() == frame_length + 2,
            -32768 <= pred_q13@[0] <= 32767,
            -32768 <= pred_q13@[1] <= 32767,
        ensures
            final(self).wf(),
            final(self)@.prepared(ctrl),
            final(mid)@.len() == frame_length + 2,
            final(side)@.len() == frame_length + 2,
            ({
                let n = frame_length as int;
                let (d, left, right) = old(self)@.unmixed(
                    old(mid)@.subrange(2, n + 2),
                    old(side)@.subrange(2, n + 2),
                    pred_q13@,
                );
                &&& final(self)@ == d
                &&& final(mid)@.subrange(1, n + 1) == left
                &&& old(self)@.n_api == 2 && old(self)@.n_int == 2 ==> final(side)@.subrange(
                    1,
                    n + 1,
                ) == right
            }),
            final(self).channel == old(self).channel,
    {
        reveal(SilkView::unmixed);
        let ghost d0 = self@;
        let ghost n = frame_length as int;
        let ghost m0 = mid@;
        let ghost s0 = side@;
        proof {
            lemma_frame_length(d0.ch0);
        }
        if self.n_channels_api == 2 && self.n_channels_internal == 2 {
            let fs_khz: u32 = self.channel[0].fs_khz;
            ms_to_lr(&mut self.stereo, mid, side, pred_q13, fs_khz, frame_length);
            assert(m0.subrange(2, n + 2) =~= m0.subrange(2, m0.len() as int));
            assert(s0.subrange(2, n + 2) =~= s0.subrange(2, s0.len() as int));
        } else {
            mid[0] = self.stereo.s_mid[0];
            mid[1] = self.stereo.s_mid[1];
            assert(mid@ =~= d0.stereo.s_mid + m0.subrange(2, n + 2));
            self.stereo.s_mid = [mid[frame_length], mid[frame_length + 1]];
            assert(self.stereo@.s_mid =~= mid@.subrange(n, n + 2));
        }
        proof {
            let (d, left, right) = d0.unmixed(
                m0.subrange(2, n + 2),
                s0.subrange(2, n + 2),
                pred_q13@,
            );
            assert(self@ == d);
        }
    }
}

/// Lengths of a frame that is set up.
pub proof fn lemma_frame_length(c: ChannelView)
    requires
        c.ready(),
    ensures
        c.frame_length == c.nb_subfr * (5 * c.fs_khz),
        c.nb_subfr == 2 ==> c.frame_length == 10 * c.fs_khz,
        c.nb_subfr == 4 ==> c.frame_length == 20 * c.fs_khz,
        80 <= c.frame_length <= 320,
{
}

/// A resampler that goes on keeps the channel's invariant.
proof fn lemma_resampled_wf(c: ChannelView, r: ResamplerView)
    requires
        c.wf(),
        r.wf(),
        r.fs_in == c.resampler.fs_in,
        r.fs_out == c.resampler.fs_out,
    ensures
        (ChannelView { resampler: r, ..c }).wf(),
{
    reveal(ChannelView::wf);
}

/// The length of the output.
pub proof fn lemma_out_len(c: ChannelView, api_sample_rate: int)
    requires
        c.ready(),
        8000 <= api_sample_rate <= 48000,
    ensures
        0 <= out_len_spec(c.frame_length as int, api_sample_rate, c.fs_khz as int) <= 960,
{
    lemma_frame_length(c);
    let n = c.frame_length as int;
    let fs = c.fs_khz as int;
    assert(0 <= n * api_sample_rate <= 960 * (fs * 1000)) by (nonlinear_arith)
        requires
            0 <= n <= 20 * fs,
            0 <= api_sample_rate <= 48000,
            fs >= 8,
    ;
    let q = (n * api_sample_rate) / (fs * 1000);
    assert(0 <= q <= 960) by (nonlinear_arith)
        requires
            0 <= n * api_sample_rate <= 960 * (fs * 1000),
            q == (n * api_sample_rate) / (fs * 1000),
            fs >= 8,
    ;
}

/// A frame is a whole number of milliseconds for its resampler.
pub proof fn lemma_frame_ms(n: int, fs: int, nb: int)
    requires
        fs >= 8,
        nb == 2 || nb == 4,
        n == nb * (5 * fs),
    ensures
        n % fs == 0,
        n / fs == 5 * nb,
        n >= fs,
{
    assert(n == fs * (5 * nb) + 0) by (nonlinear_arith)
        requires
            n == nb * (5 * fs),
    ;
    let q = 5 * nb;
    assert(n == q * fs + 0) by (nonlinear_arith)
        requires
            n == nb * (5 * fs),
            q == 5 * nb,
    ;
    vstd::arithmetic::div_mod::lemma_fundamental_div_mod_converse(n, fs, q, 0);
    assert(fs * (5 * nb) >= fs) by (nonlinear_arith)
        requires
            nb >= 2,
            fs >= 8,
    ;
}

/// Writes one channel into interleaved samples.
fn interleave(out: &mut [i16], samples: &[i16], channel: usize)
    requires
        channel < 2,
        2 * samples@.len() + channel <= old(out)@.len() + 1,
    ensures
        final(out)@ == interleaved(old(out)@, samples@, channel as int),
{
    let n: usize = samples.len();
    let out_len: usize = out.len();
    let mut i: usize = 0;
    while i < n
        invariant
            i <= n,
            n == samples@.len(),
            channel < 2,
            2 * n + channel <= out_len + 1,
            out_len == out@.len(),
            out@.len() == old(out)@.len(),
            forall|j: int|
                0 <= j < out_len ==> #[trigger] out@[j] == (if j < 2 * i && j % 2 == channel {
                    samples@[j / 2]
                } else {
                    old(out)@[j]
                }),
        decreases n - i,
    {
        out[2 * i + channel] = samples[i];
        i = i + 1;
    }
    assert(out@ =~= interleaved(old(out)@, samples@, channel as int));
}

impl SilkDecoder {
    /// Resamples the first channel into the output.
    #[verifier::rlimit(60)]
    fn resample_first(
        &mut self,
        left: &[i16],
        n_out: usize,
        samples_out: &mut [i16],
        scratch: &mut [i16; 960],
        Ghost(ctrl): Ghost<DecControl>,
    ) -> (r: Result<()>)
        requires
            old(self).wf(),
            old(self)@.prepared(ctrl),
            left@.len() == old(self)@.ch0.frame_length,
            n_out <= 960,
            old(self)@.n_api == 1 || old(self)@.n_api == 2,
            old(self)@.n_api == 1 ==> n_out <= old(samples_out)@.len(),
            old(self)@.n_api == 2 && resampled_len(
                old(self)@.ch0.resampler,
                left@.len() as int,
            ) == n_out ==> 2 * n_out - 1 <= old(samples_out)@.len(),
        ensures
            final(self).wf(),
            final(self)@.prepared(ctrl),
            final(samples_out)@.len() == old(samples_out)@.len(),
            final(self).channel@[1] == old(self).channel@[1],
            ({
                let need = resampled_len(old(self)@.ch0.resampler, left@.len() as int);
                if need != n_out {
                    &&& r == Err::<(), CadenceError>(
                        CadenceError::BufferTooSmall { needed: need as usize, provided: n_out },
                    )
                    &&& final(self)@ == old(self)@
                    &&& final(samples_out)@ == old(samples_out)@
                } else {
                    let o = old(self)@.ch0.resampler.resample_out(left@);
                    let (d, out) = old(self)@.first_out(left@, old(samples_out)@);
                    &&& r is Ok
                    &&& o.len() == n_out
                    &&& final(self)@ == d
                    &&& final(samples_out)@ == out
                    &&& old(self)@.n_api == 2 ==> final(scratch)@.subrange(0, n_out as int) == o
                }
            }),
    {
        let ghost d0 = self@;
        let ghost out0 = samples_out@;
        proof {
            lemma_rates(d0.ch0);
            lemma_frame_length(d0.ch0);
            lemma_frame_ms(left@.len() as int, d0.ch0.fs_khz as int, d0.ch0.nb_subfr as int);
        }
        if self.n_channels_api == 2 {
            let (o, _) = scratch.split_at_mut(n_out);
            match self.channel[0].resampler.resample(o, left) {
                Ok(()) => {},
                Err(e) => {
                    assert(self@ == d0);
                    return Err(e);
                },
            }
            assert(scratch@.subrange(0, n_out as int) =~= d0.ch0.resampler.resample_out(left@));
            interleave(samples_out, &scratch[0..n_out], 0);
        } else {
            let (o, _) = samples_out.split_at_mut(n_out);
            match self.channel[0].resampler.resample(o, left) {
                Ok(()) => {},
                Err(e) => {
                    assert(self@ == d0);
                    assert(samples_out@ =~= out0);
                    return Err(e);
                },
            }
        }
        proof {
            lemma_resampled_wf(d0.ch0, self.channel@[0].resampler@);
            let (d, out) = d0.first_out(left@, out0);
            assert(samples_out@ =~= out);
            assert(self@ == d);
        }
        Ok(())
    }

    /// Resamples the second channel into the output.
    #[verifier::rlimit(60)]
    fn resample_second(
        &mut self,
        right: &[i16],
        n_out: usize,
        samples_out: &mut [i16],
        Ghost(ctrl): Ghost<DecControl>,
    ) -> (r: Result<()>)
        requires
            old(self).wf(),
            old(self)@.prepared(ctrl),
            right@.len() == old(self)@.ch0.frame_length,
            old(self)@.ch1.fs_khz == old(self)@.ch0.fs_khz,
            n_out <= 960,
            resampled_len(old(self)@.ch1.resampler, right@.len() as int) == n_out ==> 2 * n_out
                <= old(samples_out)@.len(),
        ensures
            final(self).wf(),
            final(self)@.prepared(ctrl),
            final(samples_out)@.len() == old(samples_out)@.len(),
            ({
                let need = resampled_len(old(self)@.ch1.resampler, right@.len() as int);
                if need != n_out {
                    &&& r == Err::<(), CadenceError>(
                        CadenceError::BufferTooSmall { needed: need as usize, provided: n_out },
                    )
                    &&& final(self)@ == old(self)@
                    &&& final(samples_out)@ == old(samples_out)@
                } else {
                    let (d, out) = old(self)@.second_out(right@, old(samples_out)@);
                    &&& r is Ok
                    &&& final(self)@ == d
                    &&& final(samples_out)@ == out
                }
            }),
    {
        let ghost d0 = self@;
        let ghost out0 = samples_out@;
        proof {
            lemma_rates(d0.ch1);
            lemma_frame_length(d0.ch0);
            lemma_frame_ms(right@.len() as int, d0.ch0.fs_khz as int, d0.ch0.nb_subfr as int);
        }
        let mut scratch: [i16; 960] = [0; 960];
        let (o, _) = scratch.split_at_mut(n_out);
        match self.channel[1].resampler.resample(o, right) {
            Ok(()) => {},
            Err(e) => {
                assert(self@ == d0);
                return Err(e);
            },
        }
        assert(scratch@.subrange(0, n_out as int) =~= d0.ch1.resampler.resample_out(right@));
        interleave(samples_out, &scratch[0..n_out], 1);
        proof {
            lemma_resampled_wf(d0.ch1, self.channel@[1].resampler@);
            let (d, out) = d0.second_out(right@, out0);
            assert(samples_out@ =~= out);
            assert(self@ == d);
        }
        Ok(())
    }
}

impl SilkDecoder {
    /// Resamples a frame into the output.
    #[verifier::rlimit(60)]
    pub(crate) fn write_out(
        &mut self,
        left: &[i16],
        right: &[i16],
        collapses: bool,
        n_out: usize,
        samples_out: &mut [i16],
        Ghost(ctrl): Ghost<DecControl>,
    ) -> (r: Result<usize>)
        requires
            old(self).wf(),
            old(self)@.prepared(ctrl),
            left@.len() == old(self)@.ch0.frame_length,
            right@.len() == old(self)@.ch0.frame_length,
            collapses ==> old(self)@.ch1.fs_khz == old(self)@.ch0.fs_khz,
            n_out <= 960,
            old(self)@.n_api == 1 || old(self)@.n_api == 2,
            old(self)@.room(left@.len() as int, collapses, n_out as int) <= old(samples_out)@.len(),
        ensures
            final(self).wf(),
            final(self)@.prepared(ctrl),
            final(samples_out)@.len() == old(samples_out)@.len(),
            old(self)@.resampled(left@, right@, collapses, n_out as int, old(samples_out)@) == (
                final(self)@,
                r,
                final(samples_out)@,
            ),
    {
        reveal(SilkView::resampled);
        let mut scratch: [i16; 960] = [0; 960];
        match self.resample_first(left, n_out, samples_out, &mut scratch, Ghost(ctrl)) {
            Ok(()) => {},
            Err(e) => {
                return Err(e);
            },
        }
        if self.n_channels_api == 2 {
            if self.n_channels_internal == 2 || collapses {
                match self.resample_second(right, n_out, samples_out, Ghost(ctrl)) {
                    Ok(()) => {},
                    Err(e) => {
                        return Err(e);
                    },
                }
            } else {
                interleave(samples_out, &scratch[0..n_out], 1);
            }
        }
        Ok(n_out)
    }

    /// Ends a call: exports the lag, and prepares the next frame.
    pub(crate) fn close(
        &mut self,
        lost_flag: LostFlag,
        only_middle: bool,
        Ghost(ctrl): Ghost<DecControl>,
    ) -> (lag: i32)
        requires
            old(self).wf(),
            old(self)@.prepared(ctrl),
        ensures
            final(self)@ == old(self)@.closed(lost_flag, only_middle),
            lag == exported_lag(old(self)@.ch0),
            final(self).wf(),
    {
        let ghost d0 = self@;
        proof {
            lemma_rates(d0.ch0);
            lemma_gain_level_wf(d0.ch0, LAST_GAIN_INDEX_ON_PACKET_LOSS);
            lemma_gain_level_wf(d0.ch1, LAST_GAIN_INDEX_ON_PACKET_LOSS);
        }
        let lag: i32 = if self.channel[0].prev_signal_type == TYPE_VOICED {
            let fs_khz: u32 = self.channel[0].fs_khz;
            self.channel[0].lag_prev * (if fs_khz == 8 {
                6
            } else if fs_khz == 12 {
                4
            } else {
                3
            })
        } else {
            0
        };
        if lost_flag == LostFlag::PacketLost {
            self.channel[0].last_gain_index = LAST_GAIN_INDEX_ON_PACKET_LOSS;
            if self.n_channels_internal == 2 {
                self.channel[1].last_gain_index = LAST_GAIN_INDEX_ON_PACKET_LOSS;
            }
        } else {
            self.prev_decode_only_middle = only_middle;
        }
        assert(self@ == d0.closed(lost_flag, only_middle));
        lag
    }
}

/// The gain level has no part in the invariant.
proof fn lemma_gain_level_wf(c: ChannelView, level: i8)
    requires
        c.wf(),
    ensures
        (ChannelView { last_gain_index: level, ..c }).wf(),
{
    reveal(ChannelView::wf);
}

} // verus!
