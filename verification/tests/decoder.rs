//! The decoder as a whole.
use cadence::channel::{decode_parameters, ChannelState};
use cadence::decode_indices::{CondCoding, TYPE_UNVOICED, TYPE_VOICED};
use cadence::decoder::{DecControl, LostFlag, SilkDecoder};
use cadence::error::{CadenceError, Corruption, Unsupported};
use cadence::excitation::SHELL_CODEC_FRAME_LENGTH;
use cadence::fuzz::Rng;
use cadence::gains::LAST_GAIN_INDEX_ON_PACKET_LOSS;
use cadence::nlsf::{nlsf2a, nlsf_decode};
use cadence::range::RangeDecoder;
use cadence::synthesis::{DecoderControl, MAX_FRAME_LENGTH};

fn ctrl(api: usize, internal: usize, api_rate: i32, internal_rate: i32, ms: i32) -> DecControl {
    DecControl {
        n_channels_api: api,
        n_channels_internal: internal,
        api_sample_rate: api_rate,
        internal_sample_rate: internal_rate,
        payload_size_ms: ms,
        prev_pitch_lag: 0,
    }
}

#[test]
fn set_fs_geometry() {
    for &(fs, nb_subfr, subfr, ltp_mem, order) in &[
        (8u32, 4usize, 40usize, 160usize, 10usize),
        (8, 2, 40, 160, 10),
        (12, 4, 60, 240, 10),
        (12, 2, 60, 240, 10),
        (16, 4, 80, 320, 16),
        (16, 2, 80, 320, 16),
    ] {
        let mut ch = ChannelState {
            nb_subfr,
            ..ChannelState::default()
        };
        ch.set_fs(fs, 48000).unwrap();
        assert_eq!(ch.subfr_length, subfr, "fs {fs}");
        assert_eq!(ch.frame_length, nb_subfr * subfr, "fs {fs}");
        assert_eq!(ch.ltp_mem_length, ltp_mem, "fs {fs}");
        assert_eq!(ch.lpc_order, order, "fs {fs}");
        assert_eq!(
            ch.nlsf_cb.order as usize, order,
            "NLSF codebook order for fs {fs}"
        );
        assert_eq!(ch.fs_api_hz, 48000);
        assert!(ch.first_frame_after_reset, "fs switch forces reset flag");
        assert_eq!(ch.lag_prev, 100);
        assert_eq!(ch.last_gain_index, LAST_GAIN_INDEX_ON_PACKET_LOSS);
    }
}

#[test]
fn set_fs_resampler_reinit() {
    let mut ch = ChannelState {
        nb_subfr: 4,
        ..ChannelState::default()
    };
    ch.set_fs(16, 48000).unwrap();
    let mut out = [0i16; 960];
    ch.resampler
        .resample(&mut out[..960], &[0i16; 320])
        .unwrap();

    ch.set_fs(16, 48000).unwrap();
    ch.resampler
        .resample(&mut out[..960], &[0i16; 320])
        .unwrap();

    ch.set_fs(16, 24000).unwrap();
    ch.resampler
        .resample(&mut out[..480], &[0i16; 320])
        .unwrap();

    ch.set_fs(8, 24000).unwrap();
    ch.resampler.resample(&mut out[..240], &[0i16; 80]).unwrap();
}

#[test]
fn invalid_rates_rejected() {
    let mut ch = ChannelState {
        nb_subfr: 4,
        ..ChannelState::default()
    };
    assert!(ch.set_fs(24, 48000).is_err());
    assert!(ch.set_fs(16, 96000).is_err());

    let mut dec = SilkDecoder::new(1).unwrap();
    let mut c = ctrl(1, 1, 48000, 44100, 20);
    let mut out = [0i16; 1920];
    assert!(dec
        .decode(&mut c, None, LostFlag::PacketLost, true, &mut out)
        .is_err());

    let mut c = ctrl(1, 1, 4000, 16000, 20);
    assert!(dec
        .decode(&mut c, None, LostFlag::PacketLost, true, &mut out)
        .is_err());
    let mut c = ctrl(1, 1, 96000, 16000, 20);
    assert!(dec
        .decode(&mut c, None, LostFlag::PacketLost, true, &mut out)
        .is_err());
}

#[test]
fn frames_per_packet_table() {
    assert_eq!(SilkDecoder::frames_per_packet(0).unwrap(), (1, 2));
    assert_eq!(SilkDecoder::frames_per_packet(10).unwrap(), (1, 2));
    assert_eq!(SilkDecoder::frames_per_packet(20).unwrap(), (1, 4));
    assert_eq!(SilkDecoder::frames_per_packet(40).unwrap(), (2, 4));
    assert_eq!(SilkDecoder::frames_per_packet(60).unwrap(), (3, 4));
    assert!(SilkDecoder::frames_per_packet(30).is_err());
}

#[test]
fn internal_rate_formula() {
    for &(hz, khz) in &[(8000i32, 8u32), (12000, 12), (16000, 16)] {
        assert_eq!((hz >> 10) + 1, khz as i32);
    }
}

#[test]
fn packet_loss_plumbing() {
    let mut dec = SilkDecoder::new(1).unwrap();
    let mut c = ctrl(1, 1, 48000, 16000, 20);
    let mut out = [0i16; 960];

    let n = dec
        .decode(&mut c, None, LostFlag::PacketLost, true, &mut out)
        .unwrap();
    assert_eq!(n, 960);
    assert_eq!(dec.channel[0].frame_length, 320);
    assert_eq!(dec.channel[0].nb_subfr, 4);
    assert_eq!(dec.channel[0].n_frames_per_packet, 1);
    assert_eq!(dec.channel[0].loss_cnt, 1);
    assert_eq!(
        dec.channel[0].last_gain_index,
        LAST_GAIN_INDEX_ON_PACKET_LOSS
    );

    assert!(
        out[..n].iter().all(|&v| v == 0),
        "cold-start conceal is silent"
    );

    let n = dec
        .decode(&mut c, None, LostFlag::PacketLost, false, &mut out)
        .unwrap();
    assert_eq!(n, 960);
    assert_eq!(dec.channel[0].loss_cnt, 2);

    let mut c10 = ctrl(1, 1, 48000, 12000, 10);
    let n = dec
        .decode(&mut c10, None, LostFlag::PacketLost, true, &mut out)
        .unwrap();
    assert_eq!(n, 480);
    assert_eq!(dec.channel[0].frame_length, 120);
    assert_eq!(dec.channel[0].nb_subfr, 2);
    assert_eq!(dec.channel[0].fs_khz, 12);

    let mut c8 = ctrl(1, 1, 16000, 8000, 10);
    let n = dec
        .decode(&mut c8, None, LostFlag::PacketLost, true, &mut out)
        .unwrap();
    assert_eq!(n, 160);
    assert_eq!(c8.prev_pitch_lag, 0, "concealed unvoiced frames export 0");
}

#[test]
fn loss_determinism_and_pitch_drift() {
    let run = || {
        let mut dec = SilkDecoder::new(1).unwrap();
        let mut c = ctrl(1, 1, 48000, 16000, 20);
        let mut out = [0i16; 960];
        let mut blob = Vec::new();
        for i in 0..12 {
            let n = dec
                .decode(&mut c, None, LostFlag::PacketLost, i == 0, &mut out)
                .unwrap();
            for &v in &out[..n] {
                blob.extend_from_slice(&v.to_le_bytes());
            }
        }
        (blob, dec.channel[0].plc.pitch_l_q8)
    };
    let (blob_a, lag_a) = run();
    let (blob_b, lag_b) = run();
    assert_eq!(blob_a, blob_b);
    assert_eq!(lag_a, lag_b);

    let max_q8 = (18 * 16) << 8;
    assert!(lag_a <= max_q8);
    assert!(
        lag_a > 320 << 7,
        "drift should have moved off the reset value"
    );
}

#[test]
fn mono_to_stereo_duplication() {
    let mut dec = SilkDecoder::new(2).unwrap();
    let mut c = ctrl(2, 1, 48000, 16000, 20);
    let mut out = [0i16; 1920];
    let n = dec
        .decode(&mut c, None, LostFlag::PacketLost, true, &mut out)
        .unwrap();
    assert_eq!(n, 960);
    for i in 0..n {
        assert_eq!(out[2 * i], out[2 * i + 1], "sample {i}");
    }
}

#[test]
fn stereo_internal_loss() {
    let mut dec = SilkDecoder::new(2).unwrap();
    let mut c = ctrl(2, 2, 48000, 16000, 20);
    let mut out = [0i16; 1920];
    let n = dec
        .decode(&mut c, None, LostFlag::PacketLost, true, &mut out)
        .unwrap();
    assert_eq!(n, 960);
    assert_eq!(dec.channel[0].loss_cnt, 1);
    assert_eq!(dec.channel[1].loss_cnt, 1);

    assert!(out[..2 * n]
        .iter()
        .all(|&v| (i16::MIN..=i16::MAX).contains(&v)));
}

#[test]
fn decode_parameters_paths() {
    
    let mut ch = ChannelState {
        nb_subfr: 4,
        ..ChannelState::default()
    };
    ch.set_fs(16, 48000).unwrap();
    ch.indices.signal_type = TYPE_UNVOICED;
    ch.indices.nlsf_interp_coef_q2 = 4;

    ch.indices.nlsf_indices[0] = 0;
    let mut ctrl = DecoderControl::default();
    decode_parameters(&mut ch, &mut ctrl, CondCoding::Independently);
    assert!(ctrl.pitch_l[..4].iter().all(|&v| v == 0));
    assert!(ctrl.ltp_coef_q14[..20].iter().all(|&v| v == 0));
    assert_eq!(ctrl.ltp_scale_q14, 0);
    assert_eq!(ch.indices.per_index, 0);

    assert_eq!(ctrl.pred_coef_q12[0][..16], ctrl.pred_coef_q12[1][..16]);
    assert!(ctrl.pred_coef_q12[1][..16].iter().any(|&v| v != 0));

    assert!(!ch.prev_nlsf_q15[..16].iter().all(|&v| v == 0));
    assert_eq!(ch.last_gain_index, 0, "gains dequant starts from reset");
}

#[test]
fn nlsf_interpolation_gate() {
    let mut ch = ChannelState {
        nb_subfr: 4,
        ..ChannelState::default()
    };
    ch.set_fs(16, 48000).unwrap();
    ch.indices.signal_type = TYPE_UNVOICED;
    ch.indices.nlsf_indices[0] = 0;
    ch.indices.nlsf_interp_coef_q2 = 0;
    let mut ctrl = DecoderControl::default();
    decode_parameters(&mut ch, &mut ctrl, CondCoding::Independently);

    assert_eq!(ctrl.pred_coef_q12[0][..16], ctrl.pred_coef_q12[1][..16]);
    assert_eq!(ch.indices.nlsf_interp_coef_q2, 4);
    ch.first_frame_after_reset = false;
    ch.indices.nlsf_interp_coef_q2 = 0;
    ch.indices.nlsf_indices[1] = 2;
    let mut ctrl = DecoderControl::default();
    decode_parameters(&mut ch, &mut ctrl, CondCoding::Independently);

    assert_ne!(ctrl.pred_coef_q12[0][..16], ctrl.pred_coef_q12[1][..16]);
}

#[test]
fn post_loss_bwe() {
    let mut ch = ChannelState {
        nb_subfr: 4,
        ..ChannelState::default()
    };
    ch.set_fs(16, 48000).unwrap();
    ch.first_frame_after_reset = false;
    ch.indices.signal_type = TYPE_UNVOICED;
    ch.indices.nlsf_indices[0] = 0;
    ch.indices.nlsf_interp_coef_q2 = 4;
    ch.loss_cnt = 1;
    let mut ctrl = DecoderControl::default();
    decode_parameters(&mut ch, &mut ctrl, CondCoding::Independently);

    let mut direct = [0i16; 16];
    let mut nlsf = [0i16; 16];
    nlsf_decode(&mut nlsf, &ch.indices.nlsf_indices, &ch.nlsf_cb);
    nlsf2a(&mut direct, &nlsf, 16);
    assert_ne!(ctrl.pred_coef_q12[1][..16], direct[..16]);
}

#[test]
fn invalid_payload_size() {
    let mut dec = SilkDecoder::new(1).unwrap();
    let mut c = ctrl(1, 1, 48000, 16000, 30);
    let mut out = [0i16; 1920];
    let err = dec
        .decode(&mut c, None, LostFlag::PacketLost, true, &mut out)
        .unwrap_err();
    assert!(matches!(err, CadenceError::UnsupportedFeature(_)));
}

#[test]
fn pulses_scratch_size() {
    for fs in [8u32, 12, 16] {
        for nb_subfr in [2usize, 4] {
            let l = nb_subfr * 5 * fs as usize;
            let rounded = (l + SHELL_CODEC_FRAME_LENGTH - 1) & !(SHELL_CODEC_FRAME_LENGTH - 1);
            assert!(rounded <= MAX_FRAME_LENGTH, "fs {fs} nb {nb_subfr}");
        }
    }
}

fn payload(seed: u64, len: usize) -> Vec<u8> {
    let mut data = vec![0u8; len];
    Rng::new(seed).fill_bytes(&mut data);
    data
}

fn silk(channels: usize) -> SilkDecoder {
    SilkDecoder::new(channels).unwrap()
}

#[test]
fn output_channels_are_checked() {
    assert!(SilkDecoder::new(1).is_ok());
    assert!(SilkDecoder::new(2).is_ok());
    for n in [0usize, 3] {
        assert_eq!(
            SilkDecoder::new(n).err(),
            Some(CadenceError::UnsupportedFeature(Unsupported::OutputChannels(n)))
        );
    }
}

#[test]
fn every_error_of_a_payload() {
    let mut out = [0i16; 1920];
    let cases = [
        (
            ctrl(1, 1, 48000, 16000, 30),
            CadenceError::UnsupportedFeature(Unsupported::PayloadMs(30)),
        ),
        (
            ctrl(1, 1, 48000, 44100, 20),
            CadenceError::CorruptData(Corruption::InternalRateHz(44100)),
        ),
        (
            ctrl(1, 1, 44100, 16000, 20),
            CadenceError::UnsupportedFeature(Unsupported::RatePair(16000, 44100)),
        ),
    ];
    for (mut c, want) in cases {
        let mut dec = silk(1);
        let r = dec.decode(&mut c, None, LostFlag::PacketLost, true, &mut out);
        assert_eq!(r, Err(want));
    }
    let mut dec = silk(1);
    let mut c = ctrl(1, 1, 48000, 16000, 20);
    for flag in [LostFlag::Normal, LostFlag::DecodeLbrr] {
        assert_eq!(
            dec.decode(&mut c, None, flag, true, &mut out),
            Err(CadenceError::CorruptData(Corruption::NoRangeDecoder))
        );
    }
    dec.decode(&mut c, None, LostFlag::PacketLost, true, &mut out).unwrap();
    c.api_sample_rate = 96000;
    assert_eq!(
        dec.decode(&mut c, None, LostFlag::PacketLost, false, &mut out),
        Err(CadenceError::CorruptData(Corruption::ApiRateHz(96000)))
    );
    c.api_sample_rate = 24000;
    assert_eq!(
        dec.decode(&mut c, None, LostFlag::PacketLost, false, &mut out),
        Err(CadenceError::BufferTooSmall {
            needed: 960,
            provided: 480
        })
    );
}

#[test]
fn arbitrary_payloads_give_whole_frames() {
    let mut out = [0i16; 1920];
    for seed in 0..40u64 {
        let channels = 1 + (seed % 2) as usize;
        let internal = 1 + (seed / 2 % 2) as usize;
        let rate = [8000, 12000, 16000][(seed % 3) as usize];
        let api = [8000, 12000, 16000, 24000, 48000][(seed % 5) as usize];
        let ms = [10, 20, 40, 60][(seed / 3 % 4) as usize];
        let frames = [1, 1, 2, 3][(seed / 3 % 4) as usize];
        let subframes = if ms == 10 { 2 } else { 4 };
        let mut dec = silk(channels);
        for packet in 0..6u64 {
            let data = payload(1000 * seed + packet, 40 + 10 * packet as usize);
            let mut range = RangeDecoder::new(&data);
            let flag = if packet % 3 == 2 {
                LostFlag::DecodeLbrr
            } else {
                LostFlag::Normal
            };
            let mut c = ctrl(channels, internal, api, rate, ms);
            for frame in 0..frames {
                let n = dec
                    .decode(&mut c, Some(&mut range), flag, frame == 0, &mut out)
                    .unwrap();
                assert_eq!(n, 5 * subframes * api as usize / 1000);
                assert!(c.prev_pitch_lag == 0 || (96..=864).contains(&c.prev_pitch_lag));
                if channels == 2 && internal == 1 {
                    for i in 0..n {
                        assert_eq!(out[2 * i], out[2 * i + 1]);
                    }
                }
            }
        }
    }
}

#[test]
fn lost_frames_take_nothing_from_the_payload() {
    let data = payload(5, 80);
    let mut range = RangeDecoder::new(&data);
    let mut a = silk(1);
    let mut b = silk(1);
    let mut out_a = [0i16; 960];
    let mut out_b = [0i16; 960];
    let mut c = ctrl(1, 1, 48000, 16000, 20);
    let mut range_b = RangeDecoder::new(&data);
    a.decode(&mut c, Some(&mut range), LostFlag::Normal, true, &mut out_a).unwrap();
    b.decode(&mut c, Some(&mut range_b), LostFlag::Normal, true, &mut out_b).unwrap();
    assert_eq!(out_a, out_b);
    assert!(out_a.iter().any(|&v| v != 0));
    let tell = range.tell();
    a.decode(&mut c, Some(&mut range), LostFlag::PacketLost, true, &mut out_a).unwrap();
    b.decode(&mut c, None, LostFlag::PacketLost, true, &mut out_b).unwrap();
    assert_eq!(range.tell(), tell);
    assert_eq!(out_a, out_b);
    assert_eq!(a.channel[0].loss_cnt, 1);
    a.decode(&mut c, Some(&mut range), LostFlag::Normal, true, &mut out_a).unwrap();
    assert_eq!(a.channel[0].loss_cnt, 0);
}

#[test]
fn reset_decodes_like_new() {
    let first = payload(11, 100);
    let second = payload(12, 100);
    let mut used = silk(2);
    let mut fresh = silk(2);
    let mut out_used = [0i16; 1920];
    let mut out_fresh = [0i16; 1920];
    let mut c = ctrl(2, 2, 48000, 12000, 20);
    let mut range = RangeDecoder::new(&first);
    used.decode(&mut c, Some(&mut range), LostFlag::Normal, true, &mut out_used).unwrap();
    used.reset();
    let mut range = RangeDecoder::new(&second);
    used.decode(&mut c, Some(&mut range), LostFlag::Normal, true, &mut out_used).unwrap();
    let mut range = RangeDecoder::new(&second);
    fresh.decode(&mut c, Some(&mut range), LostFlag::Normal, true, &mut out_fresh).unwrap();
    assert_eq!(out_used, out_fresh);
}

#[test]
fn stereo_turns_mono_and_back() {
    let mut dec = silk(2);
    let mut out = [0i16; 1920];
    for (packet, internal) in [2usize, 2, 1, 1, 2, 1].iter().enumerate() {
        let data = payload(300 + packet as u64, 90);
        let mut range = RangeDecoder::new(&data);
        let mut c = ctrl(2, *internal, 48000, 16000, 20);
        let n = dec
            .decode(&mut c, Some(&mut range), LostFlag::Normal, true, &mut out)
            .unwrap();
        assert_eq!(n, 960);
        assert_eq!(dec.n_channels_internal, *internal);
        if packet == 3 {
            assert!((0..n).all(|i| out[2 * i] == out[2 * i + 1]));
        }
    }
}

#[test]
fn mono_output_of_a_stereo_stream_is_the_middle() {
    let data = payload(77, 120);
    let mut out = [0i16; 960];
    let mut dec = silk(1);
    let mut range = RangeDecoder::new(&data);
    let mut c = ctrl(1, 2, 48000, 16000, 20);
    let n = dec
        .decode(&mut c, Some(&mut range), LostFlag::Normal, true, &mut out)
        .unwrap();
    assert_eq!(n, 960);
    assert_eq!(dec.channel[0].n_frames_decoded, 1);
    assert_eq!(dec.channel[1].n_frames_decoded, 1);
}

#[test]
fn losses_before_the_first_frame_are_silent() {
    for channels in [1usize, 2] {
        for internal in [1usize, 2] {
            for rate in [8000, 12000, 16000] {
                for api in [8000, 12000, 16000, 24000, 48000] {
                    let mut dec = silk(channels);
                    for round in 0..4 {
                        let mut out = [99i16; 1920];
                        let mut c = ctrl(channels, internal, api, rate, 20);
                        let n = dec
                            .decode(&mut c, None, LostFlag::PacketLost, round != 2, &mut out)
                            .unwrap();
                        assert!(out[..channels * n].iter().all(|&v| v == 0));
                        assert!(out[channels * n..].iter().all(|&v| v == 99));
                    }
                }
            }
        }
    }
}

#[test]
fn mono_at_another_output_rate_right_after_stereo_is_refused() {
    let mut dec = silk(2);
    let mut out = [0i16; 1920];
    let mut c = ctrl(2, 2, 48000, 16000, 20);
    dec.decode(&mut c, None, LostFlag::PacketLost, true, &mut out).unwrap();
    let mut c = ctrl(2, 1, 24000, 16000, 20);
    assert_eq!(
        dec.decode(&mut c, None, LostFlag::PacketLost, true, &mut out),
        Err(CadenceError::BufferTooSmall {
            needed: 960,
            provided: 480
        })
    );
}

#[test]
fn bad_payload_sizes_leave_no_trace() {
    let data = payload(41, 200);
    for (channels, internal) in [(1usize, 1usize), (2, 2), (2, 1)] {
        let mut a = silk(channels);
        let mut b = silk(channels);
        let mut range_a = RangeDecoder::new(&data);
        let mut range_b = RangeDecoder::new(&data);
        let mut out_a = [0i16; 1920];
        let mut out_b = [0i16; 1920];
        let mut c = ctrl(channels, internal, 48000, 16000, 60);
        for frame in 0..3 {
            let n = a
                .decode(&mut c, Some(&mut range_a), LostFlag::Normal, frame == 0, &mut out_a)
                .unwrap();
            let m = b
                .decode(&mut c, Some(&mut range_b), LostFlag::Normal, frame == 0, &mut out_b)
                .unwrap();
            assert_eq!(n, m);
            assert_eq!(out_a, out_b);
            for grown in [1usize, 2] {
                let mut bad = ctrl(channels, grown, 48000, 16000, 30);
                bad.prev_pitch_lag = 7;
                assert_eq!(
                    a.decode(&mut bad, Some(&mut range_a), LostFlag::Normal, true, &mut out_a),
                    Err(CadenceError::UnsupportedFeature(Unsupported::PayloadMs(30)))
                );
                assert_eq!(bad.prev_pitch_lag, 7);
            }
        }
    }
}

#[test]
fn reading_on_without_a_range_decoder_is_an_error() {
    for internal in [1usize, 2] {
        let mut dec = silk(1);
        let mut out = [0i16; 960];
        let mut c = ctrl(1, internal, 48000, 16000, 20);
        for _ in 0..5 {
            dec.decode(&mut c, None, LostFlag::PacketLost, false, &mut out).unwrap();
        }
        assert_eq!(dec.channel[0].n_frames_decoded, 5);
        assert_eq!(
            dec.decode(&mut c, None, LostFlag::Normal, false, &mut out),
            Err(CadenceError::CorruptData(Corruption::NoRangeDecoder))
        );
    }
}

#[test]
fn reset_decodes_like_new_behind_refused_calls() {
    let data = payload(12, 100);
    let mut used = silk(2);
    let mut fresh = silk(2);
    let mut out_used = [0i16; 1920];
    let mut out_fresh = [0i16; 1920];
    let mut c = ctrl(2, 2, 48000, 12000, 20);
    let mut range = RangeDecoder::new(&data);
    used.decode(&mut c, Some(&mut range), LostFlag::Normal, true, &mut out_used).unwrap();
    used.reset();
    for bad in [
        ctrl(2, 2, 48000, 12000, 30),
        ctrl(2, 2, 48000, 44100, 20),
        ctrl(2, 2, 44100, 12000, 10),
        ctrl(2, 1, 48000, 0, 20),
    ] {
        let x = used.decode(&mut { bad }, None, LostFlag::PacketLost, true, &mut out_used);
        let y = fresh.decode(&mut { bad }, None, LostFlag::PacketLost, true, &mut out_fresh);
        assert!(x.is_err());
        assert_eq!(x, y);
    }
    let mut range_used = RangeDecoder::new(&data);
    let mut range_fresh = RangeDecoder::new(&data);
    for _ in 0..3 {
        used.decode(&mut c, Some(&mut range_used), LostFlag::Normal, true, &mut out_used).unwrap();
        fresh.decode(&mut c, Some(&mut range_fresh), LostFlag::Normal, true, &mut out_fresh).unwrap();
        assert_eq!(out_used, out_fresh);
    }
}

#[test]
fn frames_leave_the_rest_of_the_slice_and_are_remembered() {
    let mut seen = [false; 2];
    for seed in 0..40u64 {
        let data = payload(seed, 60);
        let mut range = RangeDecoder::new(&data);
        let mut ch = ChannelState {
            nb_subfr: 4,
            vad_flags: [true; 3],
            ..ChannelState::default()
        };
        ch.set_fs(16, 48000).unwrap();
        ch.prev_signal_type = TYPE_VOICED;
        let mut frame = [5i16; 400];
        let n = ch
            .decode_frame(Some(&mut range), &mut frame, LostFlag::Normal, CondCoding::Independently)
            .unwrap();
        assert_eq!(n, 320);
        assert_eq!(frame[320..], [5i16; 80]);
        assert_eq!(ch.prev_signal_type, ch.indices.signal_type);
        if ch.indices.signal_type == TYPE_VOICED {
            assert_ne!(ch.plc.ltp_coef_q14, [0; 5]);
            seen[0] = true;
        } else {
            assert_eq!(ch.plc.pitch_l_q8, (18 * 16) << 8);
            assert_eq!(ch.plc.ltp_coef_q14, [0; 5]);
            seen[1] = true;
        }
        let mut copy = ch;
        let mut a = [6i16; 330];
        let mut b = [6i16; 330];
        let tell = range.tell();
        ch.decode_frame(Some(&mut range), &mut a, LostFlag::DecodeLbrr, CondCoding::Conditionally)
            .unwrap();
        copy.decode_frame(None, &mut b, LostFlag::PacketLost, CondCoding::Independently)
            .unwrap();
        assert_eq!(range.tell(), tell);
        assert_eq!(a, b);
        assert_eq!(a[320..], [6i16; 10]);
        assert_eq!(ch.loss_cnt, 1);
    }
    assert_eq!(seen, [true; 2]);
}

#[test]
fn errors_need_no_room_in_the_output() {
    let mut none: [i16; 0] = [];
    for channels in [1usize, 2] {
        for flag in [LostFlag::Normal, LostFlag::DecodeLbrr] {
            let mut dec = silk(channels);
            let mut c = ctrl(channels, channels, 48000, 16000, 20);
            c.prev_pitch_lag = 9;
            assert_eq!(
                dec.decode(&mut c, None, flag, true, &mut none),
                Err(CadenceError::CorruptData(Corruption::NoRangeDecoder))
            );
            assert_eq!(c.prev_pitch_lag, 9);
        }
    }
    let mut dec = silk(2);
    let mut out = [0i16; 1920];
    let mut c = ctrl(2, 1, 48000, 16000, 40);
    dec.decode(&mut c, None, LostFlag::PacketLost, true, &mut out).unwrap();
    c.api_sample_rate = 24000;
    assert_eq!(
        dec.decode(&mut c, None, LostFlag::PacketLost, false, &mut none),
        Err(CadenceError::BufferTooSmall {
            needed: 960,
            provided: 480
        })
    );
}

#[test]
fn exactly_enough_room_is_enough() {
    for channels in [1usize, 2] {
        let mut dec = silk(channels);
        let mut out = vec![7i16; 960 * channels];
        let mut c = ctrl(channels, channels, 48000, 16000, 20);
        assert_eq!(
            dec.decode(&mut c, None, LostFlag::PacketLost, true, &mut out),
            Ok(960)
        );
        assert!(out.iter().all(|&v| v == 0));
    }
}
