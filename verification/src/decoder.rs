//! The SILK decoder.
//!
//! A payload is decoded frame by frame. The first call of a payload sets the
//! rates up and reads the flags of all its frames; redundant copies of
//! earlier frames are skipped or decoded in place of lost ones. Each frame is
//! decoded once for the mid channel and once for the side channel, unmixed
//! and resampled to the output rate.
use crate::channel::{no_flags, ChannelState, ChannelView};
use crate::decode_indices::{
    bits_stage, decode_lbrr_flags, decode_vad_flags_and_lbrr_flag, lbrr_flag_spec, lbrr_stage,
    CondCoding, ParamsView,
};
use crate::error::{CadenceError, Corruption, Result, Unsupported};
use crate::gains::LAST_GAIN_INDEX_ON_PACKET_LOSS;
use crate::range::{bit_value, icdf_next, icdf_symbol, RangeDecoder, RangeState};
use crate::resampler::any_rate;
use crate::sigproc::lemma_shr_i32;
use crate::stereo::{decode_mid_only, decode_pred, decode_pred_spec, StereoDecState, StereoView};
use crate::synthesis::{valid_fs, zeros_i16};
use crate::tables::STEREO_ONLY_CODE_MID_ICDF;
use vstd::prelude::*;

verus! {

/// Highest output rate.
pub const MAX_API_FS_KHZ: i32 = 48;

/// What is known of the next frame.
#[derive(Clone, Copy, Debug, PartialEq, Eq, Structural)]
pub enum LostFlag {
    /// The frame is there.
    Normal,
    /// The frame is lost: it is made up from what went before.
    PacketLost,
    /// The redundant copy of the frame is decoded, if there is one.
    DecodeLbrr,
}

/// What a caller says of the payload, and what it learns of the frame.
#[derive(Clone, Copy, Debug, PartialEq, Eq, Structural)]
pub struct DecControl {
    /// Output channels: 1 or 2.
    pub n_channels_api: usize,
    /// Coded channels: 1 or 2.
    pub n_channels_internal: usize,
    /// Output rate in Hz.
    pub api_sample_rate: i32,
    /// Internal rate in Hz.
    pub internal_sample_rate: i32,
    /// Duration of the payload: 0, 10, 20, 40 or 60 ms.
    pub payload_size_ms: i32,
    /// Lag of the last frame at 48 kHz, 0 unless it was voiced. Written by
    /// the decoder.
    pub prev_pitch_lag: i32,
}

/// The decoder: two channels and what mixes them.
#[derive(Clone, Copy, Debug)]
pub struct SilkDecoder {
    pub channel: [ChannelState; 2],
    pub stereo: StereoDecState,
    pub n_channels_api: usize,
    pub n_channels_internal: usize,
    /// Whether the last frame had no side channel.
    pub prev_decode_only_middle: bool,
}

/// The contents of [`SilkDecoder`].
pub struct SilkView {
    pub ch0: ChannelView,
    pub ch1: ChannelView,
    pub stereo: StereoView,
    pub n_api: usize,
    pub n_int: usize,
    pub prev_only_middle: bool,
}

impl View for SilkDecoder {
    type V = SilkView;

    open spec fn view(&self) -> SilkView {
        SilkView {
            ch0: self.channel@[0]@,
            ch1: self.channel@[1]@,
            stereo: self.stereo@,
            n_api: self.n_channels_api,
            n_int: self.n_channels_internal,
            prev_only_middle: self.prev_decode_only_middle,
        }
    }
}

/// Frames and subframes per frame of a payload duration.
pub open spec fn layout_spec(payload_size_ms: i32) -> Option<(usize, usize)> {
    if payload_size_ms == 0 || payload_size_ms == 10 {
        Some((1, 2))
    } else if payload_size_ms == 20 {
        Some((1, 4))
    } else if payload_size_ms == 40 {
        Some((2, 4))
    } else if payload_size_ms == 60 {
        Some((3, 4))
    } else {
        None
    }
}

/// The internal rate in kHz that a rate in Hz stands for.
pub open spec fn internal_khz_spec(internal_sample_rate: i32) -> int {
    internal_sample_rate as int / 1024 + 1
}

impl SilkView {
    /// The two channels run alike.
    pub open spec fn paired(self) -> bool {
        &&& self.ch1.fs_khz == self.ch0.fs_khz
        &&& self.ch1.fs_api_hz == self.ch0.fs_api_hz
        &&& self.ch1.nb_subfr == self.ch0.nb_subfr
        &&& self.ch1.ready()
    }

    /// What every operation keeps: once a frame of a payload was decoded, the
    /// channels in use are set up, and alike.
    pub open spec fn wf(self) -> bool {
        &&& self.ch0.wf()
        &&& self.ch1.wf()
        &&& self.n_int == 1 || self.n_int == 2
        &&& self.stereo.pred_prev_q13.len() == 2
        &&& self.stereo.s_mid.len() == 2
        &&& self.stereo.s_side.len() == 2
        &&& self.ch0.n_frames_decoded > 0 ==> self.ch0.ready()
        &&& self.n_int == 2 ==> self.ch1.fs_khz == self.ch0.fs_khz && self.ch1.fs_api_hz
            == self.ch0.fs_api_hz
        &&& self.n_int == 2 && self.ch0.n_frames_decoded > 0 ==> self.paired()
    }

    /// A new decoder.
    pub open spec fn start(n_api: usize) -> SilkView {
        SilkView {
            ch0: ChannelView::zero(),
            ch1: ChannelView::zero(),
            stereo: StereoView::zero(),
            n_api,
            n_int: 1,
            prev_only_middle: false,
        }
    }

    /// The decoder after a reset.
    pub open spec fn reset_state(self) -> SilkView {
        SilkView {
            ch0: ChannelView::reset_state(),
            ch1: ChannelView::reset_state(),
            stereo: StereoView::zero(),
            prev_only_middle: false,
            ..self
        }
    }
}

impl SilkDecoder {
    /// What every operation keeps.
    pub open spec fn wf(self) -> bool {
        self@.wf() && self.channel@[0].wf() && self.channel@[1].wf()
    }

    /// A decoder for one or two output channels.
    pub fn new(n_channels_api: usize) -> (r: Result<SilkDecoder>)
        ensures
            r is Ok <==> n_channels_api == 1 || n_channels_api == 2,
            r is Ok ==> r->Ok_0.wf() && r->Ok_0@ == SilkView::start(n_channels_api),
            r is Err ==> r->Err_0 == CadenceError::UnsupportedFeature(
                Unsupported::OutputChannels(n_channels_api),
            ),
    {
        if n_channels_api != 1 && n_channels_api != 2 {
            return Err(
                CadenceError::UnsupportedFeature(Unsupported::OutputChannels(n_channels_api)),
            );
        }
        let d = SilkDecoder {
            channel: [ChannelState::default(), ChannelState::default()],
            stereo: StereoDecState::default(),
            n_channels_api,
            n_channels_internal: 1,
            prev_decode_only_middle: false,
        };
        assert(d@ == SilkView::start(n_channels_api));
        Ok(d)
    }

    /// Forgets everything that was decoded.
    pub fn reset(&mut self)
        requires
            old(self).wf(),
        ensures
            final(self)@ == old(self)@.reset_state(),
            final(self).wf(),
    {
        self.channel[0].reset();
        self.channel[1].reset();
        self.stereo = StereoDecState::default();
        self.prev_decode_only_middle = false;
        assert(self@ == old(self)@.reset_state());
    }

    /// Frames in a payload and subframes in a frame.
    pub fn frames_per_packet(payload_size_ms: i32) -> (r: Result<(usize, usize)>)
        ensures
            match layout_spec(payload_size_ms) {
                Some(l) => r == Ok::<(usize, usize), CadenceError>(l),
                None => r == Err::<(usize, usize), CadenceError>(
                    CadenceError::UnsupportedFeature(Unsupported::PayloadMs(payload_size_ms)),
                ),
            },
    {
        match payload_size_ms {
            0 => Ok((1, 2)),
            10 => Ok((1, 2)),
            20 => Ok((1, 4)),
            40 => Ok((2, 4)),
            60 => Ok((3, 4)),
            _ => Err(CadenceError::UnsupportedFeature(Unsupported::PayloadMs(payload_size_ms))),
        }
    }
}

// ---------------------------------------------------------------------
// Setting up
// ---------------------------------------------------------------------

/// A channel at the start of a payload's first frame.
pub open spec fn counted(c: ChannelView, restart: bool) -> ChannelView {
    if restart {
        ChannelView { n_frames_decoded: 0, ..c }
    } else {
        c
    }
}

/// A channel with the layout of a payload.
pub open spec fn laid_out(c: ChannelView, layout: (usize, usize)) -> ChannelView {
    ChannelView { n_frames_per_packet: layout.0, nb_subfr: layout.1, ..c }
}

impl SilkView {
    /// The decoder when a call begins: a new payload counts its frames anew,
    /// and a side channel that comes in starts anew.
    #[verifier::opaque]
    pub open spec fn begun(self, ctrl: DecControl, new_packet: bool) -> SilkView {
        SilkView {
            ch0: counted(self.ch0, new_packet),
            ch1: if ctrl.n_channels_internal > self.n_int {
                ChannelView::reset_state()
            } else {
                counted(self.ch1, new_packet && ctrl.n_channels_internal == 2)
            },
            ..self
        }
    }

    /// Whether a stereo stream turns mono without a change of rate.
    pub open spec fn collapses(self, ctrl: DecControl) -> bool {
        &&& ctrl.n_channels_internal == 1
        &&& self.n_int == 2
        &&& ctrl.internal_sample_rate == 1000 * self.ch0.fs_khz
    }

    /// Why a payload cannot be set up.
    pub open spec fn set_up_error(self, ctrl: DecControl) -> Option<CadenceError> {
        let khz = internal_khz_spec(ctrl.internal_sample_rate);
        if self.ch0.n_frames_decoded != 0 {
            None
        } else if layout_spec(ctrl.payload_size_ms) is None {
            Some(CadenceError::UnsupportedFeature(Unsupported::PayloadMs(ctrl.payload_size_ms)))
        } else if !valid_fs(khz) {
            Some(
                CadenceError::CorruptData(Corruption::InternalRateHz(ctrl.internal_sample_rate)),
            )
        } else if !any_rate(ctrl.api_sample_rate) {
            Some(
                CadenceError::UnsupportedFeature(
                    Unsupported::RatePair((khz * 1000) as i32, ctrl.api_sample_rate),
                ),
            )
        } else {
            None
        }
    }

    /// The decoder behind the set up of a payload's first frame. If no
    /// resampler fits, only the first channel has taken the layout.
    #[verifier::opaque]
    pub open spec fn set_up(self, ctrl: DecControl) -> SilkView {
        let khz = internal_khz_spec(ctrl.internal_sample_rate);
        let layout = layout_spec(ctrl.payload_size_ms);
        if self.ch0.n_frames_decoded != 0 || layout is None || !valid_fs(khz) {
            self
        } else if !any_rate(ctrl.api_sample_rate) {
            SilkView { ch0: laid_out(self.ch0, layout->Some_0), ..self }
        } else {
            SilkView {
                ch0: laid_out(self.ch0, layout->Some_0).at_rate(khz as u32, ctrl.api_sample_rate),
                ch1: if ctrl.n_channels_internal == 2 {
                    laid_out(self.ch1, layout->Some_0).at_rate(khz as u32, ctrl.api_sample_rate)
                } else {
                    self.ch1
                },
                ..self
            }
        }
    }

    /// The decoder with the channels of the call. When a second channel comes
    /// in on either side, its output goes on from the first one's.
    #[verifier::opaque]
    pub open spec fn joined(self, ctrl: DecControl) -> SilkView {
        let comes_in = ctrl.n_channels_api == 2 && ctrl.n_channels_internal == 2 && (self.n_api == 1
            || self.n_int == 1);
        SilkView {
            stereo: if comes_in {
                StereoView {
                    pred_prev_q13: seq![0i16, 0i16],
                    s_side: seq![0i16, 0i16],
                    ..self.stereo
                }
            } else {
                self.stereo
            },
            ch1: if comes_in {
                ChannelView { resampler: self.ch0.resampler, ..self.ch1 }
            } else {
                self.ch1
            },
            n_api: ctrl.n_channels_api,
            n_int: ctrl.n_channels_internal,
            ..self
        }
    }

    /// Set up, joined and ready to decode the frames of `ctrl`.
    pub open spec fn prepared(self, ctrl: DecControl) -> bool {
        &&& self.wf()
        &&& self.n_api == ctrl.n_channels_api
        &&& self.n_int == ctrl.n_channels_internal
        &&& self.ch0.ready()
        &&& self.n_int == 2 ==> self.paired()
        &&& self.ch0.n_frames_decoded == 0 ==> {
            &&& 1 <= self.ch0.n_frames_per_packet <= 3
            &&& self.n_int == 2 ==> self.ch1.n_frames_per_packet == self.ch0.n_frames_per_packet
        }
    }
}

/// Whether a call looks a frame's flags up: it does not if the frame is lost,
/// or if there is nothing to read it from.
pub open spec fn looks_up_flags(lost_flag: LostFlag, present: bool) -> bool {
    lost_flag == LostFlag::DecodeLbrr || (lost_flag == LostFlag::Normal && present)
}

/// Whether an output rate lies outside the range that is served.
pub open spec fn api_rate_bad(ctrl: DecControl) -> bool {
    ctrl.api_sample_rate > 48000 || ctrl.api_sample_rate < 8000
}

proof fn lemma_counted_wf(c: ChannelView, restart: bool)
    requires
        c.wf(),
    ensures
        counted(c, restart).wf(),
{
    reveal(ChannelView::wf);
}

proof fn lemma_laid_out_wf(c: ChannelView, layout: (usize, usize))
    requires
        c.wf(),
    ensures
        laid_out(c, layout).wf(),
{
    reveal(ChannelView::wf);
}

/// A side channel's resampler may be the one of the main channel.
pub proof fn lemma_shared_resampler_wf(a: ChannelView, c: ChannelView)
    requires
        a.wf(),
        c.wf(),
        valid_fs(a.fs_khz as int),
        a.fs_khz == c.fs_khz,
        a.fs_api_hz == c.fs_api_hz,
    ensures
        (ChannelView { resampler: a.resampler, ..c }).wf(),
{
    reveal(ChannelView::wf);
}

impl SilkDecoder {
    /// Begins a call.
    pub(crate) fn begin(&mut self, ctrl: &DecControl, new_packet: bool)
        requires
            old(self).wf(),
            ctrl.n_channels_internal == 1 || ctrl.n_channels_internal == 2,
        ensures
            final(self)@ == old(self)@.begun(*ctrl, new_packet),
            final(self).channel@[0].wf(),
            final(self).channel@[1].wf(),
            final(self)@.n_int == old(self)@.n_int,
            ctrl.n_channels_internal <= old(self)@.n_int || final(self)@.ch0.n_frames_decoded == 0
                ==> final(self).wf(),
    {
        reveal(SilkView::begun);
        proof {
            lemma_counted_wf(self@.ch0, new_packet);
            lemma_counted_wf(self@.ch1, new_packet && ctrl.n_channels_internal == 2);
        }
        if new_packet {
            self.channel[0].n_frames_decoded = 0;
            if ctrl.n_channels_internal == 2 {
                self.channel[1].n_frames_decoded = 0;
            }
        }
        if ctrl.n_channels_internal > self.n_channels_internal {
            self.channel[1].reset();
        }
        assert(self@ == old(self)@.begun(*ctrl, new_packet));
    }

    /// Sets a payload up if its first frame comes.
    #[verifier::rlimit(60)]
    pub(crate) fn set_up(&mut self, ctrl: &DecControl) -> (r: Result<()>)
        requires
            old(self).wf(),
            ctrl.n_channels_internal == 1 || ctrl.n_channels_internal == 2,
            ctrl.n_channels_internal > old(self).n_channels_internal ==> old(self)@.ch0.n_frames_decoded
                == 0,
        ensures
            match old(self)@.set_up_error(*ctrl) {
                Some(e) => r == Err::<(), CadenceError>(e) && final(self).wf(),
                None => r is Ok,
            },
            final(self)@ == old(self)@.set_up(*ctrl),
            final(self).channel@[0].wf(),
            final(self).channel@[1].wf(),
            r is Ok ==> final(self)@.ch0.ready(),
            r is Ok && ctrl.n_channels_internal == 2 ==> final(self)@.paired(),
    {
        reveal(SilkView::set_up);
        if self.channel[0].n_frames_decoded == 0 {
            let layout: (usize, usize) = match SilkDecoder::frames_per_packet(
                ctrl.payload_size_ms,
            ) {
                Ok(l) => l,
                Err(e) => {
                    return Err(e);
                },
            };
            proof {
                lemma_shr_i32(ctrl.internal_sample_rate, 10);
                vstd::arithmetic::power2::lemma2_to64();
            }
            let khz: i32 = (ctrl.internal_sample_rate >> 10u32) + 1;
            if khz != 8 && khz != 12 && khz != 16 {
                return Err(
                    CadenceError::CorruptData(
                        Corruption::InternalRateHz(ctrl.internal_sample_rate),
                    ),
                );
            }
            let ghost d0 = self@;
            proof {
                lemma_laid_out_wf(d0.ch0, layout);
                lemma_laid_out_wf(d0.ch1, layout);
            }
            self.channel[0].n_frames_per_packet = layout.0;
            self.channel[0].nb_subfr = layout.1;
            assert(self.channel@[0]@ =~= laid_out(d0.ch0, layout));
            match self.channel[0].set_fs(khz as u32, ctrl.api_sample_rate) {
                Ok(()) => {},
                Err(e) => {
                    assert(self@ == d0.set_up(*ctrl));
                    return Err(e);
                },
            }
            if ctrl.n_channels_internal == 2 {
                self.channel[1].n_frames_per_packet = layout.0;
                self.channel[1].nb_subfr = layout.1;
                assert(self.channel@[1]@ =~= laid_out(d0.ch1, layout));
                let r = self.channel[1].set_fs(khz as u32, ctrl.api_sample_rate);
                assert(r is Ok);
            }
            assert(self@ == d0.set_up(*ctrl));
        }
        Ok(())
    }

    /// Takes over the channels of the call.
    #[verifier::rlimit(60)]
    pub(crate) fn join(&mut self, ctrl: &DecControl)
        requires
            old(self)@.ch0.wf(),
            old(self)@.ch1.wf(),
            old(self).channel@[0].wf(),
            old(self).channel@[1].wf(),
            old(self)@.ch0.ready(),
            ctrl.n_channels_internal == 1 || ctrl.n_channels_internal == 2,
            ctrl.n_channels_internal == 2 ==> old(self)@.paired(),
        ensures
            final(self)@ == old(self)@.joined(*ctrl),
            final(self).wf(),
    {
        reveal(SilkView::joined);
        if ctrl.n_channels_api == 2 && ctrl.n_channels_internal == 2 && (self.n_channels_api == 1
            || self.n_channels_internal == 1) {
            proof {
                lemma_shared_resampler_wf(self@.ch0, self@.ch1);
            }
            self.stereo.pred_prev_q13 = [0; 2];
            self.stereo.s_side = [0; 2];
            self.channel[1].resampler = self.channel[0].resampler;
            assert(self.stereo@.pred_prev_q13 =~= seq![0i16, 0i16]);
            assert(self.stereo@.s_side =~= seq![0i16, 0i16]);
            assert(self@.ch1 =~= (ChannelView {
                resampler: old(self)@.ch0.resampler,
                ..old(self)@.ch1
            }));
        }
        self.n_channels_api = ctrl.n_channels_api;
        self.n_channels_internal = ctrl.n_channels_internal;
        assert(self@ == old(self)@.joined(*ctrl));
    }
}

// ---------------------------------------------------------------------
// Flags and redundant frames
// ---------------------------------------------------------------------

/// A channel with the activity flags of its payload and the flag of
/// redundant frames.
pub open spec fn with_vad(c: ChannelView, st: RangeState) -> (ChannelView, RangeState) {
    let n = c.n_frames_per_packet as int;
    (
        ChannelView {
            vad_flags: Seq::new(3, |i: int| i < n && bit_value(bits_stage(st, i), 1)),
            lbrr_flag: bit_value(bits_stage(st, n), 1),
            ..c
        },
        bits_stage(st, n + 1),
    )
}

/// A channel with the flags of its redundant frames.
pub open spec fn with_lbrr(c: ChannelView, st: RangeState) -> (ChannelView, RangeState) {
    let n = c.n_frames_per_packet as int;
    if c.lbrr_flag {
        (
            ChannelView { lbrr_flags: Seq::new(3, |i: int| lbrr_flag_spec(st, n, i)), ..c },
            lbrr_stage(st, n),
        )
    } else {
        (ChannelView { lbrr_flags: no_flags(), ..c }, st)
    }
}

/// How the redundant copy of frame `i` is coded.
pub open spec fn lbrr_coding(c: ChannelView, i: int) -> CondCoding {
    if i > 0 && c.lbrr_flags[i - 1] {
        CondCoding::Conditionally
    } else {
        CondCoding::Independently
    }
}

/// A channel behind the redundant copy of frame `i`, if there is one.
pub open spec fn past_copy(c: ChannelView, st: RangeState, i: int) -> (ChannelView, RangeState) {
    if c.lbrr_flags[i] {
        c.with_indices(
            st,
            ParamsView {
                nlsf_cb: c.nlsf_cb,
                fs_khz: c.fs_khz,
                nb_subfr: c.nb_subfr,
                vad_flag: c.vad_flags[i],
                decode_lbrr: true,
                cond_coding: lbrr_coding(c, i),
            },
        )
    } else {
        (c, st)
    }
}

impl SilkView {
    /// The flags of a payload.
    #[verifier::opaque]
    pub open spec fn flagged(self, st: RangeState) -> (SilkView, RangeState) {
        let (a0, s0) = with_vad(self.ch0, st);
        if self.n_int == 2 {
            let (a1, s1) = with_vad(self.ch1, s0);
            let (b0, s2) = with_lbrr(a0, s1);
            let (b1, s3) = with_lbrr(a1, s2);
            (SilkView { ch0: b0, ch1: b1, ..self }, s3)
        } else {
            let (b0, s2) = with_lbrr(a0, s0);
            (SilkView { ch0: b0, ..self }, s2)
        }
    }

    /// The state behind the predictors in front of the redundant copy of
    /// frame `i`.
    pub open spec fn past_copied_pred(self, st: RangeState, i: int) -> RangeState {
        if self.n_int == 2 && self.ch0.lbrr_flags[i] {
            let s = decode_pred_spec(st).0;
            if !self.ch1.lbrr_flags[i] {
                icdf_next(s, STEREO_ONLY_CODE_MID_ICDF@, 8)
            } else {
                s
            }
        } else {
            st
        }
    }

    /// The decoder behind the redundant copies of frame `i`.
    pub open spec fn past_copies(self, st: RangeState, i: int) -> (SilkView, RangeState) {
        let (c0, s0) = past_copy(self.ch0, self.past_copied_pred(st, i), i);
        if self.n_int == 2 {
            let (c1, s1) = past_copy(self.ch1, s0, i);
            (SilkView { ch0: c0, ch1: c1, ..self }, s1)
        } else {
            (SilkView { ch0: c0, ..self }, s0)
        }
    }

    /// The decoder behind the redundant copies of the first `n` frames.
    pub open spec fn skipped(self, st: RangeState, n: int) -> (SilkView, RangeState)
        decreases n,
    {
        if n <= 0 {
            (self, st)
        } else {
            let (d, s) = self.skipped(st, n - 1);
            d.past_copies(s, n - 1)
        }
    }

    /// The decoder behind the flags of a payload and, if its frames are
    /// there, behind all redundant copies.
    #[verifier::opaque]
    pub open spec fn opened(self, st: RangeState, lost_flag: LostFlag) -> (SilkView, RangeState) {
        if lost_flag != LostFlag::PacketLost && self.ch0.n_frames_decoded == 0 {
            let (d, s) = self.flagged(st);
            if lost_flag == LostFlag::Normal {
                d.skipped(s, d.ch0.n_frames_per_packet as int)
            } else {
                (d, s)
            }
        } else {
            (self, st)
        }
    }
}

/// Flags have no part in the invariant.
proof fn lemma_flags_wf(a: ChannelView, b: ChannelView)
    requires
        a.wf(),
        b == (ChannelView {
            vad_flags: b.vad_flags,
            lbrr_flag: b.lbrr_flag,
            lbrr_flags: b.lbrr_flags,
            ..a
        }),
    ensures
        b.wf(),
{
    reveal(ChannelView::wf);
}

fn read_vad(ch: &mut ChannelState, dec: &mut RangeDecoder<'_>)
    requires
        old(ch).wf(),
        old(dec)@.wf(),
        1 <= old(ch).n_frames_per_packet <= 3,
    ensures
        with_vad(old(ch)@, old(dec)@) == (final(ch)@, final(dec)@),
        final(ch).wf(),
        final(dec)@.wf(),
{
    let ghost c0 = ch@;
    let ghost st = dec@;
    let r = decode_vad_flags_and_lbrr_flag(dec, ch.n_frames_per_packet);
    if let Ok((vad_flags, lbrr_flag)) = r {
        ch.vad_flags = vad_flags;
        ch.lbrr_flag = lbrr_flag;
    }
    proof {
        let (c, s) = with_vad(c0, st);
        assert(ch.vad_flags@ =~= c.vad_flags);
        assert(ch@ =~= c);
        lemma_flags_wf(c0, ch@);
    }
}

fn read_lbrr(ch: &mut ChannelState, dec: &mut RangeDecoder<'_>)
    requires
        old(ch).wf(),
        old(dec)@.wf(),
        1 <= old(ch).n_frames_per_packet <= 3,
    ensures
        with_lbrr(old(ch)@, old(dec)@) == (final(ch)@, final(dec)@),
        final(ch).wf(),
        final(dec)@.wf(),
{
    let ghost c0 = ch@;
    let ghost st = dec@;
    ch.lbrr_flags = [false; 3];
    if ch.lbrr_flag {
        let r = decode_lbrr_flags(dec, ch.n_frames_per_packet);
        if let Ok(flags) = r {
            ch.lbrr_flags = flags;
        }
    }
    proof {
        let (c, s) = with_lbrr(c0, st);
        assert(ch.lbrr_flags@ =~= c.lbrr_flags);
        assert(ch@ =~= c);
        lemma_flags_wf(c0, ch@);
    }
}

fn skip_copy(ch: &mut ChannelState, dec: &mut RangeDecoder<'_>, i: usize)
    requires
        old(ch).wf(),
        old(ch)@.ready(),
        old(dec)@.wf(),
        i < 3,
    ensures
        past_copy(old(ch)@, old(dec)@, i as int) == (final(ch)@, final(dec)@),
        final(ch)@.same_setup(old(ch)@),
        final(ch).loss_cnt == old(ch).loss_cnt,
        final(ch)@.ready(),
        final(ch).wf(),
        final(dec)@.wf(),
{
    if ch.lbrr_flags[i] {
        let cond_coding: CondCoding = if i > 0 && ch.lbrr_flags[i - 1] {
            CondCoding::Conditionally
        } else {
            CondCoding::Independently
        };
        ch.read_indices(dec, i, true, cond_coding);
    }
}

impl SilkDecoder {
    fn read_flags(&mut self, dec: &mut RangeDecoder<'_>, Ghost(ctrl): Ghost<DecControl>)
        requires
            old(self).wf(),
            old(self)@.prepared(ctrl),
            old(self)@.ch0.n_frames_decoded == 0,
            old(dec)@.wf(),
        ensures
            old(self)@.flagged(old(dec)@) == (final(self)@, final(dec)@),
            final(self).wf(),
            final(self)@.prepared(ctrl),
            final(self)@.ch0.n_frames_decoded == 0,
            final(self)@.ch1.n_frames_decoded == old(self)@.ch1.n_frames_decoded,
            final(self)@.ch0.frame_length == old(self)@.ch0.frame_length,
            final(self)@.ch0.fs_khz == old(self)@.ch0.fs_khz,
            final(self)@.ch1.fs_khz == old(self)@.ch1.fs_khz,
            final(self).channel@[0].loss_cnt == old(self).channel@[0].loss_cnt,
            final(self).channel@[1].loss_cnt == old(self).channel@[1].loss_cnt,
            final(dec)@.wf(),
    {
        reveal(SilkView::flagged);
        let stereo: bool = self.n_channels_internal == 2;
        read_vad(&mut self.channel[0], dec);
        if stereo {
            read_vad(&mut self.channel[1], dec);
        }
        read_lbrr(&mut self.channel[0], dec);
        if stereo {
            read_lbrr(&mut self.channel[1], dec);
        }
    }

    #[verifier::rlimit(60)]
    fn skip_copies(&mut self, dec: &mut RangeDecoder<'_>, Ghost(ctrl): Ghost<DecControl>)
        requires
            old(self).wf(),
            old(self)@.prepared(ctrl),
            old(self)@.ch0.n_frames_decoded == 0,
            old(dec)@.wf(),
        ensures
            old(self)@.skipped(old(dec)@, old(self)@.ch0.n_frames_per_packet as int) == (
                final(self)@,
                final(dec)@,
            ),
            final(self).wf(),
            final(self)@.prepared(ctrl),
            final(self)@.ch0.n_frames_decoded == 0,
            final(self)@.ch1.n_frames_decoded == old(self)@.ch1.n_frames_decoded,
            final(self)@.ch0.same_setup(old(self)@.ch0),
            final(self)@.ch1.same_setup(old(self)@.ch1),
            final(self).channel@[0].loss_cnt == old(self).channel@[0].loss_cnt,
            final(self).channel@[1].loss_cnt == old(self).channel@[1].loss_cnt,
            final(dec)@.wf(),
    {
        let n: usize = self.channel[0].n_frames_per_packet;
        let stereo: bool = self.n_channels_internal == 2;
        let ghost d0 = self@;
        let ghost st0 = dec@;
        let mut i: usize = 0;
        while i < n
            invariant
                i <= n <= 3,
                n == d0.ch0.n_frames_per_packet,
                d0 == old(self)@,
                stereo == (d0.n_int == 2),
                d0.prepared(ctrl),
                d0.ch0.n_frames_decoded == 0,
                d0.skipped(st0, i as int) == (self@, dec@),
                self.wf(),
                self@.prepared(ctrl),
                self@.n_int == d0.n_int,
                self@.ch0.same_setup(d0.ch0),
                self@.ch1.same_setup(d0.ch1),
                self.channel@[0].loss_cnt == old(self).channel@[0].loss_cnt,
                self.channel@[1].loss_cnt == old(self).channel@[1].loss_cnt,
                dec@.wf(),
            decreases n - i,
        {
            if stereo && self.channel[0].lbrr_flags[i] {
                let _ = decode_pred(dec);
                if !self.channel[1].lbrr_flags[i] {
                    let _ = decode_mid_only(dec);
                }
            }
            skip_copy(&mut self.channel[0], dec, i);
            if stereo {
                skip_copy(&mut self.channel[1], dec, i);
            }
            i = i + 1;
        }
    }
}

impl SilkDecoder {
    /// Reads the flags of a payload and passes over its redundant copies, if
    /// its first frame comes.
    pub(crate) fn open_payload(
        &mut self,
        dec: &mut RangeDecoder<'_>,
        lost_flag: LostFlag,
        Ghost(ctrl): Ghost<DecControl>,
    )
        requires
            old(self).wf(),
            old(self)@.prepared(ctrl),
            old(dec)@.wf(),
        ensures
            old(self)@.opened(old(dec)@, lost_flag) == (final(self)@, final(dec)@),
            final(self).wf(),
            final(self)@.prepared(ctrl),
            final(self)@.ch0.n_frames_decoded == old(self)@.ch0.n_frames_decoded,
            final(self)@.ch1.n_frames_decoded == old(self)@.ch1.n_frames_decoded,
            final(self)@.ch0.frame_length == old(self)@.ch0.frame_length,
            final(self)@.ch0.fs_khz == old(self)@.ch0.fs_khz,
            final(self)@.ch1.fs_khz == old(self)@.ch1.fs_khz,
            final(self)@.ch0.loss_cnt == old(self)@.ch0.loss_cnt,
            final(self)@.ch1.loss_cnt == old(self)@.ch1.loss_cnt,
            final(dec)@.wf(),
    {
        reveal(SilkView::opened);
        if lost_flag != LostFlag::PacketLost && self.channel[0].n_frames_decoded == 0 {
            self.read_flags(dec, Ghost(ctrl));
            if lost_flag == LostFlag::Normal {
                self.skip_copies(dec, Ghost(ctrl));
            }
        }
    }
}

// ---------------------------------------------------------------------
// Frames
// ---------------------------------------------------------------------

impl SilkView {
    /// Whether the flag that leaves the side channel out is coded.
    pub open spec fn codes_mid_only(self, lost_flag: LostFlag) -> bool {
        let k = self.ch0.n_frames_decoded as int;
        if lost_flag == LostFlag::Normal {
            !self.ch1.vad_flags[k]
        } else {
            !self.ch1.lbrr_flags[k]
        }
    }

    /// The predictors of the frame and whether the side channel is left out,
    /// with the state behind them. A frame that is not read keeps the
    /// predictors.
    #[verifier::opaque]
    pub open spec fn predictors(self, st: RangeState, lost_flag: LostFlag) -> (
        RangeState,
        Seq<i32>,
        bool,
    ) {
        if self.n_int != 2 {
            (st, seq![0i32, 0i32], false)
        } else if self.ch0.reads(lost_flag) {
            let (s, w0, w1) = decode_pred_spec(st);
            let w = seq![w0 as i32, w1 as i32];
            if self.codes_mid_only(lost_flag) {
                (
                    icdf_next(s, STEREO_ONLY_CODE_MID_ICDF@, 8),
                    w,
                    icdf_symbol(s, STEREO_ONLY_CODE_MID_ICDF@, 8) != 0,
                )
            } else {
                (s, w, false)
            }
        } else {
            (
                st,
                seq![
                    self.stereo.pred_prev_q13[0] as i32,
                    self.stereo.pred_prev_q13[1] as i32,
                ],
                false,
            )
        }
    }

    /// The side channel starts without history when it comes back.
    pub open spec fn side_restored(self, only_middle: bool) -> SilkView {
        if self.n_int == 2 && !only_middle && self.prev_only_middle {
            SilkView { ch1: self.ch1.without_history(), ..self }
        } else {
            self
        }
    }

    /// Whether the side channel has a frame.
    pub open spec fn has_side(self, lost_flag: LostFlag, only_middle: bool) -> bool {
        if lost_flag == LostFlag::Normal {
            !only_middle
        } else {
            !self.prev_only_middle || (self.n_int == 2 && lost_flag == LostFlag::DecodeLbrr
                && self.ch1.lbrr_flags[self.ch1.n_frames_decoded as int])
        }
    }

    /// How frame `k` of a channel is coded.
    pub open spec fn coding(self, c: ChannelView, side: bool, lost_flag: LostFlag, k: int) -> CondCoding {
        if k <= 0 {
            CondCoding::Independently
        } else if lost_flag == LostFlag::DecodeLbrr {
            if c.lbrr_flags[k - 1] {
                CondCoding::Conditionally
            } else {
                CondCoding::Independently
            }
        } else if side && self.prev_only_middle {
            CondCoding::IndependentlyNoLtpScaling
        } else {
            CondCoding::Conditionally
        }
    }

    /// The frame of the mid channel.
    pub open spec fn mid_frame(self, st: RangeState, lost_flag: LostFlag) -> (
        ChannelView,
        RangeState,
        Seq<i16>,
    ) {
        self.ch0.next_frame(
            st,
            lost_flag,
            self.coding(self.ch0, false, lost_flag, self.ch0.n_frames_decoded as int),
        )
    }

    /// The decoder behind the frame of the mid channel.
    pub open spec fn past_mid(self, st: RangeState, lost_flag: LostFlag) -> SilkView {
        let c = self.mid_frame(st, lost_flag).0;
        SilkView {
            ch0: ChannelView { n_frames_decoded: (c.n_frames_decoded + 1) as usize, ..c },
            ..self
        }
    }

    /// The frame of the side channel; frame `k` of the payload. Silence if
    /// it has none.
    pub open spec fn side_frame(
        self,
        st: RangeState,
        lost_flag: LostFlag,
        has_side: bool,
        k: int,
        length: int,
    ) -> (ChannelView, RangeState, Seq<i16>) {
        if has_side {
            self.ch1.next_frame(st, lost_flag, self.coding(self.ch1, true, lost_flag, k))
        } else {
            (self.ch1, st, zeros_i16(length as nat))
        }
    }

    /// The decoder behind the frame of the side channel.
    pub open spec fn past_side(
        self,
        st: RangeState,
        lost_flag: LostFlag,
        has_side: bool,
        k: int,
        length: int,
    ) -> SilkView {
        let c = self.side_frame(st, lost_flag, has_side, k, length).0;
        SilkView {
            ch1: ChannelView { n_frames_decoded: (c.n_frames_decoded + 1) as usize, ..c },
            ..self
        }
    }
}

/// Counting a frame keeps the invariant.
proof fn lemma_count_wf(c: ChannelView, n: usize)
    requires
        c.wf(),
    ensures
        (ChannelView { n_frames_decoded: n, ..c }).wf(),
{
    reveal(ChannelView::wf);
}

proof fn lemma_without_history_wf(c: ChannelView)
    requires
        c.wf(),
    ensures
        c.without_history().wf(),
{
    reveal(ChannelView::wf);
}

impl SilkDecoder {
    /// Reads the predictors of a frame.
    pub(crate) fn read_predictors(&mut self, dec: &mut RangeDecoder<'_>, present: bool, lost_flag: LostFlag) -> (r:
        Result<([i32; 2], bool)>)
        requires
            old(self).wf(),
            old(dec)@.wf(),
            looks_up_flags(lost_flag, present) ==> old(self)@.ch0.n_frames_decoded < 3,
        ensures
            *final(self) == *old(self),
            final(dec)@.wf(),
            if old(self)@.n_int == 2 && old(self)@.ch0.reads(lost_flag) && !present {
                &&& r == Err::<([i32; 2], bool), CadenceError>(
                    CadenceError::CorruptData(Corruption::NoRangeDecoder),
                )
                &&& final(dec)@ == old(dec)@
            } else {
                let (st, w, only_middle) = old(self)@.predictors(old(dec)@, lost_flag);
                &&& r is Ok
                &&& final(dec)@ == st
                &&& r->Ok_0.0@ == w
                &&& r->Ok_0.1 == only_middle
                &&& -32768 <= w[0] <= 32767
                &&& -32768 <= w[1] <= 32767
            },
    {
        reveal(SilkView::predictors);
        if self.n_channels_internal != 2 {
            let w: [i32; 2] = [0; 2];
            assert(w@ =~= seq![0i32, 0i32]);
            return Ok((w, false));
        }
        let k: usize = self.channel[0].n_frames_decoded;
        let reads: bool = lost_flag == LostFlag::Normal || (lost_flag == LostFlag::DecodeLbrr
            && self.channel[0].lbrr_flags[k]);
        if reads {
            if !present {
                return Err(CadenceError::CorruptData(Corruption::NoRangeDecoder));
            }
            let w: [i32; 2] = decode_pred(dec)?;
            let coded: bool = if lost_flag == LostFlag::Normal {
                !self.channel[1].vad_flags[k]
            } else {
                !self.channel[1].lbrr_flags[k]
            };
            let only_middle: bool = if coded {
                decode_mid_only(dec)?
            } else {
                false
            };
            Ok((w, only_middle))
        } else {
            let w: [i32; 2] = [
                self.stereo.pred_prev_q13[0] as i32,
                self.stereo.pred_prev_q13[1] as i32,
            ];
            assert(w@ =~= seq![
                self@.stereo.pred_prev_q13[0] as i32,
                self@.stereo.pred_prev_q13[1] as i32,
            ]);
            Ok((w, false))
        }
    }

    /// Clears the side channel's history when the channel comes back.
    #[verifier::rlimit(60)]
    pub(crate) fn restore_side(&mut self, only_middle: bool, Ghost(ctrl): Ghost<DecControl>)
        requires
            old(self).wf(),
            old(self)@.prepared(ctrl),
        ensures
            final(self)@ == old(self)@.side_restored(only_middle),
            final(self).wf(),
            final(self)@.prepared(ctrl),
            final(self)@.ch1.same_setup(old(self)@.ch1),
            final(self).channel@[0] == old(self).channel@[0],
            final(self).channel@[1].loss_cnt == old(self).channel@[1].loss_cnt,
    {
        if self.n_channels_internal == 2 && !only_middle && self.prev_decode_only_middle {
            proof {
                lemma_without_history_wf(self@.ch1);
            }
            self.channel[1].synth.out_buf = [0; 480];
            self.channel[1].synth.s_lpc_q14_buf = [0; 16];
            self.channel[1].lag_prev = 100;
            self.channel[1].last_gain_index = LAST_GAIN_INDEX_ON_PACKET_LOSS;
            self.channel[1].prev_signal_type = crate::decode_indices::TYPE_NO_VOICE_ACTIVITY;
            self.channel[1].first_frame_after_reset = true;
            assert(self.channel@[1]@.synth =~= old(self)@.ch1.without_history().synth);
            assert(self.channel@[1]@ =~= old(self)@.ch1.without_history());
        }
    }

    /// Chooses how frame `k` of a channel is coded.
    fn choose_coding(&self, side: bool, lost_flag: LostFlag, k: usize) -> (r: CondCoding)
        requires
            lost_flag == LostFlag::DecodeLbrr ==> k < 4,
        ensures
            r == self@.coding(
                if side {
                    self@.ch1
                } else {
                    self@.ch0
                },
                side,
                lost_flag,
                k as int,
            ),
    {
        if k == 0 {
            CondCoding::Independently
        } else if lost_flag == LostFlag::DecodeLbrr {
            let flag: bool = if side {
                self.channel[1].lbrr_flags[k - 1]
            } else {
                self.channel[0].lbrr_flags[k - 1]
            };
            if flag {
                CondCoding::Conditionally
            } else {
                CondCoding::Independently
            }
        } else if side && self.prev_decode_only_middle {
            CondCoding::IndependentlyNoLtpScaling
        } else {
            CondCoding::Conditionally
        }
    }

    /// Decodes the frame of the mid channel.
    #[verifier::rlimit(60)]
    pub(crate) fn decode_mid(
        &mut self,
        dec: &mut RangeDecoder<'_>,
        present: bool,
        lost_flag: LostFlag,
        frame: &mut [i16],
        Ghost(ctrl): Ghost<DecControl>,
    ) -> (r: Result<()>)
        requires
            old(self).wf(),
            old(self)@.prepared(ctrl),
            old(dec)@.wf(),
            looks_up_flags(lost_flag, present) ==> old(self)@.ch0.n_frames_decoded < 3,
            old(self)@.ch0.n_frames_decoded < usize::MAX,
            old(self)@.ch0.loss_cnt < i32::MAX,
            old(frame)@.len() == old(self)@.ch0.frame_length,
        ensures
            final(self).wf(),
            final(dec)@.wf(),
            final(frame)@.len() == old(frame)@.len(),
            final(self).channel@[1] == old(self).channel@[1],
            final(self)@.n_int == old(self)@.n_int,
            if old(self)@.ch0.reads(lost_flag) && !present {
                &&& r == Err::<(), CadenceError>(
                    CadenceError::CorruptData(Corruption::NoRangeDecoder),
                )
                &&& final(self)@ == old(self)@
                &&& final(dec)@ == old(dec)@
            } else {
                let (c, st, out) = old(self)@.mid_frame(old(dec)@, lost_flag);
                &&& r is Ok
                &&& final(self)@ == old(self)@.past_mid(old(dec)@, lost_flag)
                &&& final(dec)@ == st
                &&& final(frame)@ == out
                &&& final(self)@.prepared(ctrl)
                &&& final(self)@.ch0.frame_length == old(self)@.ch0.frame_length
                &&& final(self)@.ch0.fs_khz == old(self)@.ch0.fs_khz
                &&& final(self)@.ch0.resampler == old(self)@.ch0.resampler
            },
    {
        let k: usize = self.channel[0].n_frames_decoded;
        let cond_coding: CondCoding = self.choose_coding(false, lost_flag, k);
        let ghost d0 = self@;
        let ghost st0 = dec@;
        let r: Result<usize> = if present && lost_flag != LostFlag::PacketLost {
            self.channel[0].decode_frame(Some(dec), frame, lost_flag, cond_coding)
        } else {
            self.channel[0].decode_frame(None, frame, lost_flag, cond_coding)
        };
        match r {
            Ok(_) => {},
            Err(e) => {
                return Err(e);
            },
        }
        proof {
            reveal(ChannelView::next_frame);
            let (c, st, out) = d0.mid_frame(st0, lost_flag);
            assert(frame@ =~= out);
            assert(self.channel@[0]@ == c);
            lemma_count_wf(c, (c.n_frames_decoded + 1) as usize);
        }
        self.channel[0].n_frames_decoded = k + 1;
        assert(self@ == d0.past_mid(st0, lost_flag));
        Ok(())
    }

    /// Decodes the frame of the side channel, frame `k` of the payload.
    #[verifier::rlimit(60)]
    pub(crate) fn decode_side(
        &mut self,
        dec: &mut RangeDecoder<'_>,
        present: bool,
        lost_flag: LostFlag,
        has_side: bool,
        k: usize,
        frame: &mut [i16],
        Ghost(ctrl): Ghost<DecControl>,
    ) -> (r: Result<()>)
        requires
            old(self).wf(),
            old(self)@.prepared(ctrl),
            old(self)@.n_int == 2,
            old(dec)@.wf(),
            looks_up_flags(lost_flag, present) ==> k < 3 && old(self)@.ch1.n_frames_decoded < 3,
            old(self)@.ch1.n_frames_decoded < usize::MAX,
            old(self)@.ch1.loss_cnt < i32::MAX,
            old(frame)@.len() == old(self)@.ch1.frame_length,
        ensures
            final(self).wf(),
            final(dec)@.wf(),
            final(frame)@.len() == old(frame)@.len(),
            final(self).channel@[0] == old(self).channel@[0],
            if has_side && old(self)@.ch1.reads(lost_flag) && !present {
                &&& r == Err::<(), CadenceError>(
                    CadenceError::CorruptData(Corruption::NoRangeDecoder),
                )
                &&& final(self)@ == old(self)@
                &&& final(dec)@ == old(dec)@
            } else {
                let n = old(frame)@.len() as int;
                let (c, st, out) = old(self)@.side_frame(
                    old(dec)@,
                    lost_flag,
                    has_side,
                    k as int,
                    n,
                );
                &&& r is Ok
                &&& final(self)@ == old(self)@.past_side(
                    old(dec)@,
                    lost_flag,
                    has_side,
                    k as int,
                    n,
                )
                &&& final(dec)@ == st
                &&& final(frame)@ == out
                &&& final(self)@.prepared(ctrl)
                &&& final(self)@.ch1.resampler == old(self)@.ch1.resampler
            },
    {
        let ghost d0 = self@;
        let ghost st0 = dec@;
        let ghost n = frame@.len() as int;
        let count: usize = self.channel[1].n_frames_decoded;
        if has_side {
            let cond_coding: CondCoding = self.choose_coding(true, lost_flag, k);
            let r: Result<usize> = if present && lost_flag != LostFlag::PacketLost {
                self.channel[1].decode_frame(Some(dec), frame, lost_flag, cond_coding)
            } else {
                self.channel[1].decode_frame(None, frame, lost_flag, cond_coding)
            };
            match r {
                Ok(_) => {},
                Err(e) => {
                    return Err(e);
                },
            }
        } else {
            let len: usize = frame.len();
            let mut i: usize = 0;
            while i < len
                invariant
                    i <= len,
                    len == frame@.len(),
                    forall|j: int| 0 <= j < i ==> #[trigger] frame@[j] == 0,
                decreases len - i,
            {
                frame[i] = 0;
                i = i + 1;
            }
            assert(frame@ =~= zeros_i16(n as nat));
        }
        proof {
            reveal(ChannelView::next_frame);
            let (c, st, out) = d0.side_frame(st0, lost_flag, has_side, k as int, n);
            assert(frame@ =~= out);
            assert(self.channel@[1]@ == c);
            lemma_count_wf(c, (c.n_frames_decoded + 1) as usize);
        }
        self.channel[1].n_frames_decoded = count + 1;
        assert(self@ == d0.past_side(st0, lost_flag, has_side, k as int, n));
        Ok(())
    }
}

/// The frames of a payload last as long as the payload, at 5 ms for each
/// subframe. Without a duration it lasts 10 ms.
pub proof fn lemma_layout_lasts(payload_size_ms: i32)
    ensures
        match layout_spec(payload_size_ms) {
            Some(l) => {
                &&& 5 * (l.0 * l.1) == (if payload_size_ms == 0 {
                    10
                } else {
                    payload_size_ms as int
                })
                &&& l.1 == 2 || l.1 == 4
                &&& l.0 > 1 ==> l.1 == 4
            },
            None => payload_size_ms != 0 && payload_size_ms != 10 && (payload_size_ms % 20 != 0
                || payload_size_ms < 20 || payload_size_ms > 60),
        },
{
    assert(1int * 2 == 2 && 1int * 4 == 4 && 2int * 4 == 8 && 3int * 4 == 12);
    if let Some(l) = layout_spec(payload_size_ms) {
        assert(l.0 * l.1 == 2 || l.0 * l.1 == 4 || l.0 * l.1 == 8 || l.0 * l.1 == 12);
    }
}

} // verus!
