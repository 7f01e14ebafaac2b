//! Decoding the next frame of a payload.
use crate::channel::{lemma_at_rate_wf, lemma_rates, ChannelView};
use crate::decode_indices::CondCoding;
use crate::decoder::{
    api_rate_bad, internal_khz_spec, laid_out, layout_spec, looks_up_flags, DecControl,
    LostFlag, SilkDecoder, SilkView, MAX_API_FS_KHZ,
};
use crate::error::{CadenceError, Corruption, Result, Unsupported};
use crate::outcome::lemma_opened_output;
use crate::output::{exported_lag, lemma_frame_length, lemma_out_len, out_len_spec, Decoded};
use crate::range::{RangeDecoder, RangeState};
use crate::resampler::lemma_resample_len;
use crate::synthesis::zeros_i16;
use vstd::prelude::*;

verus! {

/// The frames of the channels, complete unless a range decoder was missing.
pub struct Frames {
    pub d: SilkView,
    pub st: RangeState,
    pub complete: bool,
    pub mid: Seq<i16>,
    pub side: Seq<i16>,
}

impl SilkView {
    /// A call that ends with an error.
    pub open spec fn refused(
        self,
        st: RangeState,
        e: CadenceError,
        out: Seq<i16>,
        ctrl: DecControl,
    ) -> Decoded {
        Decoded { d: self, st, r: Err(e), out, lag: ctrl.prev_pitch_lag }
    }

    /// Unmixes and resamples the frames of the channels, and ends the call.
    #[verifier::opaque]
    pub open spec fn finished(
        self,
        st: RangeState,
        ctrl: DecControl,
        lost_flag: LostFlag,
        mid: Seq<i16>,
        side: Seq<i16>,
        pred: Seq<i32>,
        only_middle: bool,
        collapses: bool,
        out: Seq<i16>,
    ) -> Decoded {
        let (d, left, right) = self.unmixed(mid, side, pred);
        let n_out = out_len_spec(
            self.ch0.frame_length as int,
            ctrl.api_sample_rate as int,
            self.ch0.fs_khz as int,
        );
        let (e, r, o) = d.resampled(left, right, collapses, n_out, out);
        if r is Ok {
            Decoded {
                d: e.closed(lost_flag, only_middle),
                st,
                r,
                out: o,
                lag: exported_lag(e.ch0),
            }
        } else {
            Decoded { d: e, st, r, out: o, lag: ctrl.prev_pitch_lag }
        }
    }

    /// Decodes the frames of the channels. Without a second channel the side
    /// is silent.
    #[verifier::opaque]
    pub open spec fn frames(
        self,
        st: RangeState,
        present: bool,
        lost_flag: LostFlag,
        only_middle: bool,
    ) -> Frames {
        let none = Seq::<i16>::empty();
        let has_side = self.has_side(lost_flag, only_middle);
        let k = self.ch0.n_frames_decoded as int;
        let n = self.ch0.frame_length as int;
        if self.ch0.reads(lost_flag) && !present {
            Frames { d: self, st, complete: false, mid: none, side: none }
        } else {
            let (_, s0, mid) = self.mid_frame(st, lost_flag);
            let d0 = self.past_mid(st, lost_flag);
            if self.n_int != 2 {
                Frames { d: d0, st: s0, complete: true, mid, side: zeros_i16(n as nat) }
            } else if has_side && d0.ch1.reads(lost_flag) && !present {
                Frames { d: d0, st: s0, complete: false, mid, side: none }
            } else {
                let (_, s1, side) = d0.side_frame(s0, lost_flag, has_side, k, n);
                Frames {
                    d: d0.past_side(s0, lost_flag, has_side, k, n),
                    st: s1,
                    complete: true,
                    mid,
                    side,
                }
            }
        }
    }

    /// Decodes the frames of the channels, and ends the call.
    pub open spec fn framed(
        self,
        st: RangeState,
        present: bool,
        ctrl: DecControl,
        lost_flag: LostFlag,
        pred: Seq<i32>,
        only_middle: bool,
        collapses: bool,
        out: Seq<i16>,
    ) -> Decoded {
        let f = self.frames(st, present, lost_flag, only_middle);
        if f.complete {
            f.d.finished(
                f.st,
                ctrl,
                lost_flag,
                f.mid,
                f.side,
                pred,
                only_middle,
                collapses,
                out,
            )
        } else {
            f.d.refused(f.st, CadenceError::CorruptData(Corruption::NoRangeDecoder), out, ctrl)
        }
    }

    /// Reads what stands in front of the frame, and decodes it.
    #[verifier::opaque]
    pub open spec fn read(
        self,
        st: RangeState,
        present: bool,
        ctrl: DecControl,
        lost_flag: LostFlag,
        collapses: bool,
        out: Seq<i16>,
    ) -> Decoded {
        let no_decoder = CadenceError::CorruptData(Corruption::NoRangeDecoder);
        if api_rate_bad(ctrl) {
            self.refused(
                st,
                CadenceError::CorruptData(Corruption::ApiRateHz(ctrl.api_sample_rate)),
                out,
                ctrl,
            )
        } else if lost_flag != LostFlag::PacketLost && self.ch0.n_frames_decoded == 0 && !present {
            self.refused(st, no_decoder, out, ctrl)
        } else {
            let (d0, s0) = self.opened(st, lost_flag);
            if d0.n_int == 2 && d0.ch0.reads(lost_flag) && !present {
                d0.refused(s0, no_decoder, out, ctrl)
            } else {
                let (s1, pred, only_middle) = d0.predictors(s0, lost_flag);
                d0.side_restored(only_middle).framed(
                    s1,
                    present,
                    ctrl,
                    lost_flag,
                    pred,
                    only_middle,
                    collapses,
                    out,
                )
            }
        }
    }

    /// Whether a call is refused for the size of its payload: the size counts
    /// at the first frame.
    pub open spec fn size_refused(self, ctrl: DecControl, new_packet: bool) -> bool {
        (new_packet || self.ch0.n_frames_decoded == 0) && layout_spec(ctrl.payload_size_ms) is None
    }

    /// Decodes the next frame of a payload. A payload of a size that there is
    /// not changes nothing.
    pub open spec fn decoded(
        self,
        st: RangeState,
        present: bool,
        ctrl: DecControl,
        lost_flag: LostFlag,
        new_packet: bool,
        out: Seq<i16>,
    ) -> Decoded {
        let b = self.begun(ctrl, new_packet);
        if self.size_refused(ctrl, new_packet) {
            self.refused(
                st,
                CadenceError::UnsupportedFeature(Unsupported::PayloadMs(ctrl.payload_size_ms)),
                out,
                ctrl,
            )
        } else {
            match b.set_up_error(ctrl) {
                Some(e) => b.set_up(ctrl).refused(st, e, out, ctrl),
                None => b.set_up(ctrl).joined(ctrl).read(
                    st,
                    present,
                    ctrl,
                    lost_flag,
                    self.collapses(ctrl),
                    out,
                ),
            }
        }
    }

    /// Whether a call that is set up ends for want of a range decoder.
    #[verifier::opaque]
    pub open spec fn lacks_decoder(self, present: bool, lost_flag: LostFlag) -> bool {
        &&& !present
        &&& lost_flag != LostFlag::PacketLost
        &&& {
            ||| self.ch0.n_frames_decoded == 0
            ||| self.ch0.reads(lost_flag)
            ||| self.n_int == 2 && self.has_side(lost_flag, false) && self.ch1.reads(lost_flag)
        }
    }

    /// How many samples the output must have room for when a frame is written.
    #[verifier::opaque]
    pub open spec fn frame_room(self, ctrl: DecControl, collapses: bool) -> int {
        let n = self.ch0.frame_length as int;
        self.room(
            n,
            collapses,
            out_len_spec(n, ctrl.api_sample_rate as int, self.ch0.fs_khz as int),
        )
    }

    /// What a call relies on, unless the size of its payload is refused. The
    /// channels of a payload stay the same or become fewer from one of its
    /// frames to the next, a payload has at most three frames that can be
    /// read, and the output has room for a frame that is written.
    pub open spec fn decodable(
        self,
        present: bool,
        ctrl: DecControl,
        lost_flag: LostFlag,
        new_packet: bool,
        out_len: int,
    ) -> bool {
        let b = self.begun(ctrl, new_packet);
        let p = b.set_up(ctrl).joined(ctrl);
        &&& self.wf()
        &&& ctrl.n_channels_api == 1 || ctrl.n_channels_api == 2
        &&& ctrl.n_channels_internal == 1 || ctrl.n_channels_internal == 2
        &&& !self.size_refused(ctrl, new_packet) ==> {
            &&& b.ch0.n_frames_decoded > 0 ==> ctrl.n_channels_internal <= self.n_int
            &&& b.ch0.n_frames_decoded < usize::MAX
            &&& b.ch0.loss_cnt < i32::MAX
            &&& ctrl.n_channels_internal == 2 ==> b.ch1.n_frames_decoded < usize::MAX
                && b.ch1.loss_cnt < i32::MAX
            &&& looks_up_flags(lost_flag, present) ==> {
                &&& b.ch0.n_frames_decoded < 3
                &&& ctrl.n_channels_internal == 2 ==> b.ch1.n_frames_decoded < 3
            }
            &&& b.set_up_error(ctrl) is None && !api_rate_bad(ctrl) && !p.lacks_decoder(
                present,
                lost_flag,
            ) ==> out_len >= p.frame_room(ctrl, self.collapses(ctrl))
        }
    }
}

impl SilkDecoder {
    /// Unmixes and resamples the frames behind two samples of room in `mid`
    /// and `side`, and ends the call.
    #[verifier::rlimit(60)]
    fn finish(
        &mut self,
        ctrl: &mut DecControl,
        lost_flag: LostFlag,
        mid: &mut [i16],
        side: &mut [i16],
        pred_q13: &[i32; 2],
        only_middle: bool,
        collapses: bool,
        samples_out: &mut [i16],
        Ghost(st): Ghost<RangeState>,
    ) -> (r: Result<usize>)
        requires
            old(self).wf(),
            old(self)@.prepared(*old(ctrl)),
            !api_rate_bad(*old(ctrl)),
            old(self)@.n_api == 1 || old(self)@.n_api == 2,
            old(mid)@.len() == old(self)@.ch0.frame_length + 2,
            old(side)@.len() == old(self)@.ch0.frame_length + 2,
            -32768 <= pred_q13@[0] <= 32767,
            -32768 <= pred_q13@[1] <= 32767,
            collapses ==> old(self)@.n_int == 1 && old(self)@.ch1.fs_khz == old(self)@.ch0.fs_khz,
            old(samples_out)@.len() >= old(self)@.frame_room(*old(ctrl), collapses),
        ensures
            ({
                let n = old(self)@.ch0.frame_length as int;
                let m = old(mid)@.subrange(2, n + 2);
                let s = old(side)@.subrange(2, n + 2);
                let o = old(self)@.finished(
                    st,
                    *old(ctrl),
                    lost_flag,
                    m,
                    s,
                    pred_q13@,
                    only_middle,
                    collapses,
                    old(samples_out)@,
                );
                &&& r == o.r
                &&& final(self)@ == o.d
                &&& o.st == st
                &&& final(samples_out)@ == o.out
                &&& *final(ctrl) == (DecControl { prev_pitch_lag: o.lag, ..*old(ctrl) })
            }),
            final(self).wf(),
            final(samples_out)@.len() == old(samples_out)@.len(),
    {
        reveal(SilkView::finished);
        reveal(SilkView::frame_room);
        reveal(SilkView::unmixed);
        reveal(SilkView::resampled);
        let ghost d0 = self@;
        let ghost c0 = *ctrl;
        let ghost m0 = mid@;
        let ghost s0 = side@;
        let n: usize = self.channel[0].frame_length;
        let fs_khz: usize = self.channel[0].fs_khz as usize;
        proof {
            lemma_frame_length(d0.ch0);
            lemma_out_len(d0.ch0, c0.api_sample_rate as int);
            assert(0 <= n * c0.api_sample_rate <= 320 * 48000) by (nonlinear_arith)
                requires
                    0 <= n <= 320,
                    0 <= c0.api_sample_rate <= 48000,
            ;
        }
        self.unmix(mid, side, pred_q13, n, Ghost(c0));
        let n_out: usize = n * ctrl.api_sample_rate as usize / (fs_khz * 1000);
        let ghost (d, left, right) = d0.unmixed(
            m0.subrange(2, n + 2),
            s0.subrange(2, n + 2),
            pred_q13@,
        );
        let two: bool = self.n_channels_api == 2 && self.n_channels_internal == 2;
        let r: Result<usize> = if two {
            self.write_out(
                &mid[1..n + 1],
                &side[1..n + 1],
                collapses,
                n_out,
                samples_out,
                Ghost(c0),
            )
        } else {
            self.write_out(&mid[1..n + 1], &mid[1..n + 1], collapses, n_out, samples_out, Ghost(c0))
        };
        match r {
            Ok(count) => {
                ctrl.prev_pitch_lag = self.close(lost_flag, only_middle, Ghost(c0));
                Ok(count)
            },
            Err(e) => Err(e),
        }
    }
}

impl SilkDecoder {
    /// Decodes the frames of the channels, behind two samples of room.
    #[verifier::rlimit(60)]
    fn decode_frames(
        &mut self,
        dec: &mut RangeDecoder<'_>,
        present: bool,
        lost_flag: LostFlag,
        only_middle: bool,
        mid: &mut [i16; 322],
        side: &mut [i16; 322],
        Ghost(ctrl): Ghost<DecControl>,
    ) -> (r: Result<()>)
        requires
            old(self).wf(),
            old(self)@.prepared(ctrl),
            old(dec)@.wf(),
            old(self)@.ch0.n_frames_decoded < usize::MAX,
            old(self)@.ch0.loss_cnt < i32::MAX,
            old(self)@.n_int == 2 ==> old(self)@.ch1.n_frames_decoded < usize::MAX && old(
                self,
            )@.ch1.loss_cnt < i32::MAX,
            looks_up_flags(lost_flag, present) ==> {
                &&& old(self)@.ch0.n_frames_decoded < 3
                &&& old(self)@.n_int == 2 ==> old(self)@.ch1.n_frames_decoded < 3
            },
            old(side)@ == zeros_i16(322),
        ensures
            ({
                let f = old(self)@.frames(old(dec)@, present, lost_flag, only_middle);
                let n = old(self)@.ch0.frame_length as int;
                &&& final(self)@ == f.d
                &&& final(dec)@ == f.st
                &&& r is Ok <==> f.complete
                &&& r is Err ==> r->Err_0 == CadenceError::CorruptData(Corruption::NoRangeDecoder)
                &&& r is Ok ==> {
                    &&& final(mid)@.subrange(2, n + 2) == f.mid
                    &&& final(side)@.subrange(2, n + 2) == f.side
                    &&& final(self)@.prepared(ctrl)
                    &&& final(self)@.ch0.frame_length == n
                    &&& final(self)@.ch0.fs_khz == old(self)@.ch0.fs_khz
                    &&& final(self)@.ch0.resampler == old(self)@.ch0.resampler
                    &&& final(self)@.ch1.resampler == old(self)@.ch1.resampler
                    &&& final(self)@.n_int == 1 ==> final(self)@.ch1 == old(self)@.ch1
                }
            }),
            final(self).wf(),
            final(dec)@.wf(),
    {
        reveal(SilkView::frames);
        let ghost d0 = self@;
        let ghost st0 = dec@;
        let n: usize = self.channel[0].frame_length;
        let k: usize = self.channel[0].n_frames_decoded;
        proof {
            lemma_frame_length(d0.ch0);
        }
        let stereo: bool = self.n_channels_internal == 2;
        let has_side: bool = if lost_flag == LostFlag::Normal {
            !only_middle
        } else {
            !self.prev_decode_only_middle || (stereo && lost_flag == LostFlag::DecodeLbrr
                && self.channel[1].lbrr_flags[self.channel[1].n_frames_decoded])
        };
        let (_, tail) = mid.split_at_mut(2);
        let (frame, _) = tail.split_at_mut(n);
        match self.decode_mid(dec, present, lost_flag, frame, Ghost(ctrl)) {
            Ok(()) => {},
            Err(e) => {
                return Err(e);
            },
        }
        let ghost d1 = self@;
        let ghost st1 = dec@;
        assert(mid@.subrange(2, n + 2) =~= d0.mid_frame(st0, lost_flag).2);
        if stereo {
            let (_, tail) = side.split_at_mut(2);
            let (frame, _) = tail.split_at_mut(n);
            match self.decode_side(dec, present, lost_flag, has_side, k, frame, Ghost(ctrl)) {
                Ok(()) => {},
                Err(e) => {
                    return Err(e);
                },
            }
            assert(side@.subrange(2, n + 2) =~= d1.side_frame(
                st1,
                lost_flag,
                has_side,
                k as int,
                n as int,
            ).2);
        } else {
            assert(side@.subrange(2, n + 2) =~= zeros_i16(n as nat));
        }
        Ok(())
    }

    /// Decodes the frames of the channels, and ends the call.
    #[verifier::rlimit(60)]
    fn decode_channels(
        &mut self,
        ctrl: &mut DecControl,
        dec: &mut RangeDecoder<'_>,
        present: bool,
        lost_flag: LostFlag,
        pred_q13: &[i32; 2],
        only_middle: bool,
        collapses: bool,
        samples_out: &mut [i16],
    ) -> (r: Result<usize>)
        requires
            old(self).wf(),
            old(self)@.prepared(*old(ctrl)),
            old(dec)@.wf(),
            old(self)@.ch0.n_frames_decoded < usize::MAX,
            old(self)@.ch0.loss_cnt < i32::MAX,
            old(self)@.n_int == 2 ==> old(self)@.ch1.n_frames_decoded < usize::MAX && old(
                self,
            )@.ch1.loss_cnt < i32::MAX,
            looks_up_flags(lost_flag, present) ==> {
                &&& old(self)@.ch0.n_frames_decoded < 3
                &&& old(self)@.n_int == 2 ==> old(self)@.ch1.n_frames_decoded < 3
            },
            !api_rate_bad(*old(ctrl)),
            old(self)@.n_api == 1 || old(self)@.n_api == 2,
            -32768 <= pred_q13@[0] <= 32767,
            -32768 <= pred_q13@[1] <= 32767,
            collapses ==> old(self)@.n_int == 1 && old(self)@.ch1.fs_khz == old(self)@.ch0.fs_khz,
            old(self)@.frames(old(dec)@, present, lost_flag, only_middle).complete ==> old(
                samples_out,
            )@.len() >= old(self)@.frame_room(*old(ctrl), collapses),
        ensures
            ({
                let o = old(self)@.framed(
                    old(dec)@,
                    present,
                    *old(ctrl),
                    lost_flag,
                    pred_q13@,
                    only_middle,
                    collapses,
                    old(samples_out)@,
                );
                &&& r == o.r
                &&& final(self)@ == o.d
                &&& final(dec)@ == o.st
                &&& final(samples_out)@ == o.out
                &&& *final(ctrl) == (DecControl { prev_pitch_lag: o.lag, ..*old(ctrl) })
            }),
            final(self).wf(),
            final(dec)@.wf(),
            final(samples_out)@.len() == old(samples_out)@.len(),
    {
        let ghost c0 = *ctrl;
        let ghost d0 = self@;
        let n: usize = self.channel[0].frame_length;
        proof {
            lemma_frame_length(self@.ch0);
        }
        let mut mid: [i16; 322] = [0; 322];
        let mut side: [i16; 322] = [0; 322];
        assert(side@ =~= zeros_i16(322));
        match self.decode_frames(
            dec,
            present,
            lost_flag,
            only_middle,
            &mut mid,
            &mut side,
            Ghost(c0),
        ) {
            Ok(()) => {},
            Err(e) => {
                return Err(e);
            },
        }
        let ghost st = dec@;
        proof {
            lemma_same_room(d0, self@, c0, collapses);
        }
        let ghost m0 = mid@;
        let ghost s0 = side@;
        let (m, _) = mid.split_at_mut(n + 2);
        let (s, _) = side.split_at_mut(n + 2);
        assert(m@.subrange(2, n + 2) =~= m0.subrange(2, n + 2));
        assert(s@.subrange(2, n + 2) =~= s0.subrange(2, n + 2));
        self.finish(
            ctrl,
            lost_flag,
            m,
            s,
            pred_q13,
            only_middle,
            collapses,
            samples_out,
            Ghost(st),
        )
    }

    /// Reads what stands in front of the frame, and decodes it.
    #[verifier::rlimit(60)]
    fn read_and_decode(
        &mut self,
        ctrl: &mut DecControl,
        dec: &mut RangeDecoder<'_>,
        present: bool,
        lost_flag: LostFlag,
        collapses: bool,
        samples_out: &mut [i16],
    ) -> (r: Result<usize>)
        requires
            old(self).wf(),
            old(self)@.prepared(*old(ctrl)),
            old(dec)@.wf(),
            old(self)@.n_api == 1 || old(self)@.n_api == 2,
            collapses ==> old(self)@.n_int == 1 && old(self)@.ch1.fs_khz == old(self)@.ch0.fs_khz,
            old(self)@.ch0.n_frames_decoded < usize::MAX,
            old(self)@.ch0.loss_cnt < i32::MAX,
            old(self)@.n_int == 2 ==> old(self)@.ch1.n_frames_decoded < usize::MAX && old(
                self,
            )@.ch1.loss_cnt < i32::MAX,
            looks_up_flags(lost_flag, present) ==> {
                &&& old(self)@.ch0.n_frames_decoded < 3
                &&& old(self)@.n_int == 2 ==> old(self)@.ch1.n_frames_decoded < 3
            },
            !api_rate_bad(*old(ctrl)) && !old(self)@.lacks_decoder(present, lost_flag) ==> old(
                samples_out,
            )@.len() >= old(self)@.frame_room(*old(ctrl), collapses),
        ensures
            ({
                let o = old(self)@.read(
                    old(dec)@,
                    present,
                    *old(ctrl),
                    lost_flag,
                    collapses,
                    old(samples_out)@,
                );
                &&& r == o.r
                &&& final(self)@ == o.d
                &&& final(dec)@ == o.st
                &&& final(samples_out)@ == o.out
                &&& *final(ctrl) == (DecControl { prev_pitch_lag: o.lag, ..*old(ctrl) })
            }),
            final(self).wf(),
            final(dec)@.wf(),
            final(samples_out)@.len() == old(samples_out)@.len(),
    {
        reveal(SilkView::read);
        let ghost c0 = *ctrl;
        let ghost d0 = self@;
        let ghost st0 = dec@;
        if ctrl.api_sample_rate > MAX_API_FS_KHZ * 1000 || ctrl.api_sample_rate < 8000 {
            return Err(CadenceError::CorruptData(Corruption::ApiRateHz(ctrl.api_sample_rate)));
        }
        if lost_flag != LostFlag::PacketLost && self.channel[0].n_frames_decoded == 0 && !present {
            return Err(CadenceError::CorruptData(Corruption::NoRangeDecoder));
        }
        self.open_payload(dec, lost_flag, Ghost(c0));
        let (pred_q13, only_middle): ([i32; 2], bool) = match self.read_predictors(
            dec,
            present,
            lost_flag,
        ) {
            Ok(x) => x,
            Err(e) => {
                return Err(e);
            },
        };
        self.restore_side(only_middle, Ghost(c0));
        proof {
            lemma_read_room(d0, self@, st0, dec@, present, c0, lost_flag, only_middle, collapses);
        }
        self.decode_channels(
            ctrl,
            dec,
            present,
            lost_flag,
            &pred_q13,
            only_middle,
            collapses,
            samples_out,
        )
    }

    #[verifier::rlimit(60)]
    fn decode_payload(
        &mut self,
        ctrl: &mut DecControl,
        dec: &mut RangeDecoder<'_>,
        present: bool,
        lost_flag: LostFlag,
        new_packet_flag: bool,
        samples_out: &mut [i16],
    ) -> (r: Result<usize>)
        requires
            old(self).wf(),
            old(dec)@.wf(),
            old(self)@.decodable(
                present,
                *old(ctrl),
                lost_flag,
                new_packet_flag,
                old(samples_out)@.len() as int,
            ),
        ensures
            ({
                let o = old(self)@.decoded(
                    old(dec)@,
                    present,
                    *old(ctrl),
                    lost_flag,
                    new_packet_flag,
                    old(samples_out)@,
                );
                &&& r == o.r
                &&& final(self)@ == o.d
                &&& final(dec)@ == o.st
                &&& final(samples_out)@ == o.out
                &&& *final(ctrl) == (DecControl { prev_pitch_lag: o.lag, ..*old(ctrl) })
            }),
            final(self).wf(),
            final(dec)@.wf(),
            final(samples_out)@.len() == old(samples_out)@.len(),
    {
        let ghost d0 = self@;
        if new_packet_flag || self.channel[0].n_frames_decoded == 0 {
            match SilkDecoder::frames_per_packet(ctrl.payload_size_ms) {
                Ok(_) => {},
                Err(e) => {
                    return Err(e);
                },
            }
        }
        proof {
            lemma_rates(d0.ch0);
        }
        let collapses: bool = ctrl.n_channels_internal == 1 && self.n_channels_internal == 2
            && ctrl.internal_sample_rate == 1000 * self.channel[0].fs_khz as i32;
        self.begin(ctrl, new_packet_flag);
        let ghost b = self@;
        match self.set_up(ctrl) {
            Ok(()) => {},
            Err(e) => {
                return Err(e);
            },
        }
        self.join(ctrl);
        proof {
            lemma_prepared(d0, *ctrl, new_packet_flag);
        }
        self.read_and_decode(ctrl, dec, present, lost_flag, collapses, samples_out)
    }

    /// Decodes the next frame of a payload into `samples_out`, interleaved,
    /// and gives the number of samples per channel.
    ///
    /// A range decoder is needed unless the frame is lost, or its redundant
    /// copy is asked for and there is none. `new_packet_flag` marks the first
    /// frame of a payload.
    pub fn decode(
        &mut self,
        ctrl: &mut DecControl,
        dec: Option<&mut RangeDecoder<'_>>,
        lost_flag: LostFlag,
        new_packet_flag: bool,
        samples_out: &mut [i16],
    ) -> (r: Result<usize>)
        requires
            old(self).wf(),
            dec matches Some(d) ==> d@.wf(),
            old(self)@.decodable(
                dec is Some,
                *old(ctrl),
                lost_flag,
                new_packet_flag,
                old(samples_out)@.len() as int,
            ),
        ensures
            ({
                let o = old(self)@.decoded(
                    match dec {
                        Some(d) => d@,
                        None => RangeState::start(Seq::empty()),
                    },
                    dec is Some,
                    *old(ctrl),
                    lost_flag,
                    new_packet_flag,
                    old(samples_out)@,
                );
                &&& r == o.r
                &&& final(self)@ == o.d
                &&& dec matches Some(d) ==> final(d)@ == o.st && final(d)@.wf()
                &&& final(samples_out)@ == o.out
                &&& *final(ctrl) == (DecControl { prev_pitch_lag: o.lag, ..*old(ctrl) })
            }),
            final(self).wf(),
    {
        match dec {
            Some(d) => self.decode_payload(ctrl, d, true, lost_flag, new_packet_flag, samples_out),
            None => {
                let nothing: [u8; 0] = [];
                let mut d: RangeDecoder<'_> = RangeDecoder::new(&nothing);
                assert(nothing@ =~= Seq::empty());
                self.decode_payload(
                    ctrl,
                    &mut d,
                    false,
                    lost_flag,
                    new_packet_flag,
                    samples_out,
                )
            },
        }
    }
}

/// The room that a frame needs depends on the way out alone.
proof fn lemma_same_room(a: SilkView, b: SilkView, ctrl: DecControl, collapses: bool)
    requires
        a.n_int == b.n_int,
        a.n_api == b.n_api,
        a.ch0.frame_length == b.ch0.frame_length,
        a.ch0.fs_khz == b.ch0.fs_khz,
        a.ch0.resampler == b.ch0.resampler,
        a.ch1.resampler == b.ch1.resampler,
    ensures
        a.frame_room(ctrl, collapses) == b.frame_room(ctrl, collapses),
{
    reveal(SilkView::frame_room);
}

/// Without the range decoder that they need, the frames are not complete.
proof fn lemma_lacking(
    d: SilkView,
    st: RangeState,
    present: bool,
    lost_flag: LostFlag,
    only_middle: bool,
)
    requires
        d.lacks_decoder(present, lost_flag),
        d.ch0.n_frames_decoded != 0,
    ensures
        !d.frames(st, present, lost_flag, only_middle).complete,
{
    reveal(SilkView::frames);
    reveal(SilkView::lacks_decoder);
}

/// What is read in front of a frame does not change the room that it needs.
proof fn lemma_read_room(
    d: SilkView,
    e: SilkView,
    st: RangeState,
    st1: RangeState,
    present: bool,
    ctrl: DecControl,
    lost_flag: LostFlag,
    only_middle: bool,
    collapses: bool,
)
    requires
        e == d.opened(st, lost_flag).0.side_restored(only_middle),
        lost_flag == LostFlag::PacketLost || d.ch0.n_frames_decoded != 0 || present,
    ensures
        e.frame_room(ctrl, collapses) == d.frame_room(ctrl, collapses),
        d.lacks_decoder(present, lost_flag) ==> !e.frames(
            st1,
            present,
            lost_flag,
            only_middle,
        ).complete,
{
    lemma_opened_output(d, st, lost_flag);
    lemma_same_room(d, e, ctrl, collapses);
    if d.lacks_decoder(present, lost_flag) {
        reveal(SilkView::opened);
        reveal(SilkView::lacks_decoder);
        lemma_lacking(e, st1, present, lost_flag, only_middle);
    }
}

/// A payload that is set up is prepared.
proof fn lemma_prepared(d: SilkView, ctrl: DecControl, new_packet: bool)
    requires
        ({
            let b = d.begun(ctrl, new_packet);
            let p = b.set_up(ctrl).joined(ctrl);
            &&& d.wf()
            &&& p.wf()
            &&& ctrl.n_channels_internal == 1 || ctrl.n_channels_internal == 2
            &&& b.ch0.n_frames_decoded > 0 ==> ctrl.n_channels_internal <= d.n_int
            &&& b.set_up_error(ctrl) is None
            &&& b.set_up(ctrl).ch0.ready()
            &&& ctrl.n_channels_internal == 2 ==> b.set_up(ctrl).paired()
        }),
    ensures
        ({
            let b = d.begun(ctrl, new_packet);
            let p = b.set_up(ctrl).joined(ctrl);
            &&& p.prepared(ctrl)
            &&& d.collapses(ctrl) ==> p.ch1.fs_khz == p.ch0.fs_khz
            &&& p.ch0.n_frames_decoded == b.ch0.n_frames_decoded
            &&& p.ch1.n_frames_decoded == b.ch1.n_frames_decoded
            &&& p.ch0.loss_cnt == b.ch0.loss_cnt
            &&& p.ch1.loss_cnt == b.ch1.loss_cnt
            &&& p.ch0.frame_length == b.set_up(ctrl).ch0.frame_length
            &&& p.ch0.fs_khz == b.set_up(ctrl).ch0.fs_khz
            &&& p.n_api == ctrl.n_channels_api
        }),
{
    reveal(SilkView::begun);
    reveal(SilkView::set_up);
    reveal(SilkView::joined);
}

// ---------------------------------------------------------------------
// Laws
// ---------------------------------------------------------------------

/// What suffices for a call: the first frame of a payload can always be
/// decoded, and the later ones as long as no channel comes in, into 960
/// samples per output channel.
pub proof fn lemma_decodable(
    d: SilkView,
    present: bool,
    ctrl: DecControl,
    lost_flag: LostFlag,
    new_packet: bool,
    out_len: int,
)
    requires
        d.wf(),
        ctrl.n_channels_api == 1 || ctrl.n_channels_api == 2,
        ctrl.n_channels_internal == 1 || ctrl.n_channels_internal == 2,
        d.ch0.loss_cnt < i32::MAX,
        d.ch1.loss_cnt < i32::MAX,
        new_packet || (ctrl.n_channels_internal <= d.n_int && d.ch0.n_frames_decoded < 3
            && d.ch1.n_frames_decoded < 3),
        out_len >= ctrl.n_channels_api * 960,
    ensures
        d.decodable(present, ctrl, lost_flag, new_packet, out_len),
{
    reveal(SilkView::begun);
    reveal(SilkView::set_up);
    let b = d.begun(ctrl, new_packet);
    let p = b.set_up(ctrl);
    if b.set_up_error(ctrl) is None && !api_rate_bad(ctrl) {
        if b.ch0.n_frames_decoded == 0 {
            let c = laid_out(b.ch0, layout_spec(ctrl.payload_size_ms)->Some_0);
            assert(c.wf()) by {
                reveal(ChannelView::wf);
            }
            let khz = internal_khz_spec(ctrl.internal_sample_rate);
            lemma_at_rate_wf(c, khz as u32, ctrl.api_sample_rate);
        }
        lemma_out_len(p.ch0, ctrl.api_sample_rate as int);
        reveal(SilkView::joined);
        reveal(SilkView::frame_room);
    }
}

/// A payload of a size that there is not changes nothing: what comes later is
/// decoded as if it had not been.
pub proof fn lemma_bad_size_changes_nothing(
    d: SilkView,
    st: RangeState,
    present: bool,
    ctrl: DecControl,
    lost_flag: LostFlag,
    out: Seq<i16>,
)
    requires
        layout_spec(ctrl.payload_size_ms) is None,
    ensures
        d.decoded(st, present, ctrl, lost_flag, true, out) == (Decoded {
            d,
            st,
            r: Err(
                CadenceError::UnsupportedFeature(Unsupported::PayloadMs(ctrl.payload_size_ms)),
            ),
            out,
            lag: ctrl.prev_pitch_lag,
        }),
{
}

/// A lost frame takes nothing from the payload.
pub proof fn lemma_lost_reads_nothing(
    d: SilkView,
    st: RangeState,
    present: bool,
    ctrl: DecControl,
    new_packet: bool,
    out: Seq<i16>,
)
    ensures
        d.decoded(st, present, ctrl, LostFlag::PacketLost, new_packet, out).st == st,
{
    reveal(SilkView::read);
    reveal(SilkView::opened);
    reveal(SilkView::predictors);
    reveal(SilkView::frames);
    reveal(SilkView::finished);
    reveal(ChannelView::next_frame);
}

/// What a lost frame becomes does not depend on the payload.
pub proof fn lemma_lost_ignores_payload(
    d: SilkView,
    st1: RangeState,
    st2: RangeState,
    p1: bool,
    p2: bool,
    ctrl: DecControl,
    new_packet: bool,
    out: Seq<i16>,
)
    ensures
        ({
            let a = d.decoded(st1, p1, ctrl, LostFlag::PacketLost, new_packet, out);
            let b = d.decoded(st2, p2, ctrl, LostFlag::PacketLost, new_packet, out);
            &&& a.d == b.d
            &&& a.r == b.r
            &&& a.out == b.out
            &&& a.lag == b.lag
        }),
{
    reveal(SilkView::read);
    reveal(SilkView::opened);
    reveal(SilkView::predictors);
    reveal(SilkView::frames);
    reveal(SilkView::finished);
    reveal(ChannelView::next_frame);
}

/// A mono stream on two output channels sounds the same on both.
pub proof fn lemma_mono_repeats(
    d: SilkView,
    left: Seq<i16>,
    right: Seq<i16>,
    n_out: int,
    out: Seq<i16>,
    i: int,
)
    requires
        d.ch0.resampler.wf(),
        left.len() as int % d.ch0.resampler.fs_in == 0,
        d.n_api == 2,
        d.n_int == 1,
        d.resampled(left, right, false, n_out, out).1 is Ok,
        2 * n_out <= out.len(),
        0 <= i < n_out,
    ensures
        ({
            let o = d.resampled(left, right, false, n_out, out).2;
            &&& o[2 * i] == o[2 * i + 1]
            &&& o[2 * i] == d.ch0.resampler.resample_out(left)[i]
        }),
{
    reveal(SilkView::resampled);
    lemma_resample_len(d.ch0.resampler, left);
}

/// A frame of 5 ms subframes comes out as long as it is: at a rate of whole
/// kHz, five samples per subframe and kHz.
pub proof fn lemma_frame_duration(c: ChannelView, api_khz: int)
    requires
        c.ready(),
        api_khz >= 0,
    ensures
        out_len_spec(c.frame_length as int, 1000 * api_khz, c.fs_khz as int) == 5 * c.nb_subfr
            * api_khz,
{
    lemma_frame_length(c);
    let fs = c.fs_khz as int;
    let nb = c.nb_subfr as int;
    let n = c.frame_length as int;
    let q = 5 * nb * api_khz;
    let d = fs * 1000;
    assert(n * (1000 * api_khz) == q * d + 0) by (nonlinear_arith)
        requires
            n == nb * (5 * fs),
            q == 5 * nb * api_khz,
            d == fs * 1000,
    ;
    vstd::arithmetic::div_mod::lemma_fundamental_div_mod_converse(
        n * (1000 * api_khz),
        d,
        q,
        0,
    );
}

/// A frame that is there ends a run of losses; a lost one makes it longer.
pub proof fn lemma_loss_count(c: ChannelView, st: RangeState, lost_flag: LostFlag, coding: CondCoding)
    requires
        c.loss_cnt < i32::MAX,
    ensures
        c.next_frame(st, lost_flag, coding).0.loss_cnt == (if c.reads(lost_flag) {
            0
        } else {
            c.loss_cnt + 1
        }),
{
    reveal(ChannelView::next_frame);
    reveal(ChannelView::coded_frame);
    reveal(ChannelView::lost_frame);
}

} // verus!
