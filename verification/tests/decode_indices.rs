//! Side information.
use cadence::decode_indices::{
    decode_indices, decode_lbrr_flags, decode_vad_flags_and_lbrr_flag, nlsf_unpack, CondCoding,
    EcPrevState, FrameParams, SideInfoIndices, MAX_FRAMES_PER_PACKET, MAX_LPC_ORDER, MAX_NB_SUBFR,
    NLSF_QUANT_MAX_AMPLITUDE, TYPE_NO_VOICE_ACTIVITY, TYPE_UNVOICED, TYPE_VOICED,
};
use cadence::error::{CadenceError, Corruption};
use cadence::range::RangeDecoder;
use cadence::tables::{
    nlsf_cb_nb_mb, nlsf_cb_wb, NlsfCbStruct, DELTA_GAIN_ICDF, GAIN_ICDF, LBRR_FLAGS_2_ICDF,
    LBRR_FLAGS_3_ICDF, LTPSCALE_ICDF, LTP_GAIN_ICDF_0, LTP_GAIN_ICDF_1, LTP_GAIN_ICDF_2,
    LTP_PER_INDEX_ICDF, NLSF_EXT_ICDF, NLSF_INTERPOLATION_FACTOR_ICDF, PITCH_CONTOUR_10_MS_ICDF,
    PITCH_CONTOUR_10_MS_NB_ICDF, PITCH_CONTOUR_ICDF, PITCH_CONTOUR_NB_ICDF, PITCH_DELTA_ICDF,
    PITCH_LAG_ICDF, TYPE_OFFSET_NO_VAD_ICDF, TYPE_OFFSET_VAD_ICDF, UNIFORM4_ICDF, UNIFORM6_ICDF,
    UNIFORM8_ICDF,
};

fn ltp_table(per_index: usize) -> &'static [u8] {
    match per_index {
        0 => &LTP_GAIN_ICDF_0,
        1 => &LTP_GAIN_ICDF_1,
        _ => &LTP_GAIN_ICDF_2,
    }
}

fn low_bits_table(fs_khz: u32) -> &'static [u8] {
    match fs_khz {
        8 => &UNIFORM4_ICDF,
        12 => &UNIFORM6_ICDF,
        _ => &UNIFORM8_ICDF,
    }
}

fn contour_table(fs_khz: u32, nb_subfr: usize) -> &'static [u8] {
    match (fs_khz, nb_subfr) {
        (8, 4) => &PITCH_CONTOUR_NB_ICDF,
        (8, _) => &PITCH_CONTOUR_10_MS_NB_ICDF,
        (_, 4) => &PITCH_CONTOUR_ICDF,
        _ => &PITCH_CONTOUR_10_MS_ICDF,
    }
}

fn lbrr_table(n_frames: usize) -> &'static [u8] {
    match n_frames {
        2 => &LBRR_FLAGS_2_ICDF,
        _ => &LBRR_FLAGS_3_ICDF,
    }
}

/// Range encoder, the counterpart of the decoder.
struct RangeEncoder {
    buf: Vec<u8>,
    rng: u32,
    val: u32,
    rem: i32,
    ext: u32,
    nbits_total: u32,
}

impl RangeEncoder {
    fn new() -> Self {
        RangeEncoder {
            buf: Vec::new(),
            rng: 0x8000_0000,
            val: 0,
            rem: -1,
            ext: 0,
            nbits_total: 33,
        }
    }

    fn carry_out(&mut self, c: u32) {
        if c != 0xff {
            let carry: u32 = c >> 8;
            if self.rem >= 0 {
                self.buf.push((self.rem as u32 + carry) as u8);
            }
            let sym: u8 = (0xff + carry) as u8;
            while self.ext > 0 {
                self.buf.push(sym);
                self.ext -= 1;
            }
            self.rem = (c & 0xff) as i32;
        } else {
            self.ext += 1;
        }
    }

    fn normalize(&mut self) {
        while self.rng <= 0x80_0000 {
            self.carry_out(self.val >> 23);
            self.val = (self.val << 8) & 0x7fff_ffff;
            self.rng <<= 8;
            self.nbits_total += 8;
        }
    }

    fn encode_icdf(&mut self, symbol: u32, icdf: &[u8], ftb: u32) {
        let s: usize = symbol as usize;
        let r: u32 = self.rng >> ftb;
        if s > 0 {
            self.val += self.rng - r * icdf[s - 1] as u32;
            self.rng = r * (icdf[s - 1] as u32 - icdf[s] as u32);
        } else {
            self.rng -= r * icdf[s] as u32;
        }
        self.normalize();
    }

    fn encode_bit_logp(&mut self, bit: bool, logp: u32) {
        let s: u32 = self.rng >> logp;
        let r: u32 = self.rng - s;
        if bit {
            self.val += r;
            self.rng = s;
        } else {
            self.rng = r;
        }
        self.normalize();
    }

    fn done(mut self) -> Vec<u8> {
        let mut l: i32 = self.rng.leading_zeros() as i32;
        let mut mask: u32 = 0x7fff_ffff >> l;
        let mut end: u32 = (self.val + mask) & !mask;
        if (end | mask) >= self.val + self.rng {
            l += 1;
            mask >>= 1;
            end = (self.val + mask) & !mask;
        }
        while l > 0 {
            self.carry_out(end >> 23);
            end = (end << 8) & 0x7fff_ffff;
            l -= 8;
        }
        if self.rem >= 0 || self.ext > 0 {
            self.carry_out(0);
        }
        self.buf
    }
}

struct XorShift(u32);

impl XorShift {
    fn next_u32(&mut self) -> u32 {
        let mut x = self.0;
        x ^= x << 13;
        x ^= x >> 17;
        x ^= x << 5;
        self.0 = x;
        x
    }

    fn below(&mut self, n: u32) -> u32 {
        self.next_u32() % n
    }
}

fn max_symbol(icdf: &[u8]) -> u32 {
    icdf.len() as u32 - 1
}

#[test]
fn nlsf_unpack_matches_reference_spot_checks() {
    let (ec_ix, pred_q8) = nlsf_unpack(&nlsf_cb_nb_mb(), 0);
    assert_eq!(ec_ix, [0; MAX_LPC_ORDER]);
    assert_eq!(
        &pred_q8[..10],
        &[179, 67, 140, 148, 151, 149, 153, 151, 163, 116]
    );

    let (ec_ix, pred_q8) = nlsf_unpack(&nlsf_cb_wb(), 1);
    assert_eq!(
        ec_ix,
        [18, 27, 27, 27, 27, 27, 18, 18, 18, 18, 18, 9, 9, 9, 0, 27]
    );
    assert_eq!(
        &pred_q8[..16],
        &[175, 148, 160, 176, 178, 173, 174, 164, 177, 174, 196, 182, 198, 192, 182, 68]
    );
}

#[test]
fn nlsf_unpack_ec_offsets_stay_in_bounds_for_all_cb1_indices() {
    let row = 2 * NLSF_QUANT_MAX_AMPLITUDE as usize + 1;
    for cb in &[nlsf_cb_nb_mb(), nlsf_cb_wb()] {
        let order = cb.order as usize;
        for cb1_index in 0..cb.n_vectors as usize {
            let (ec_ix, _) = nlsf_unpack(cb, cb1_index);
            for &off in ec_ix.iter().take(order) {
                assert!(off % row == 0);
                assert!(off + row <= cb.ec_icdf.len());
            }
        }
    }
}

#[derive(Clone, Copy, Debug)]
struct FrameSpec {
    vad_flag: bool,
    cond: CondCoding,
    signal_type: i8,
    quant_offset_type: i8,
    gains: [i8; MAX_NB_SUBFR],
    cb1_index: usize,

    nlsf: [i8; MAX_LPC_ORDER],

    interp: i8,

    lag: i16,
    lag_is_delta: bool,
    contour: i8,
    per_index: i8,
    ltp: [i8; MAX_NB_SUBFR],
    ltp_scale: i8,
    seed: i8,
}

fn apply_spec(
    spec: &FrameSpec,
    ix: &mut SideInfoIndices,
    order: usize,
    nb_subfr: usize,
    prev_lag: i16,
) {
    ix.signal_type = spec.signal_type;
    ix.quant_offset_type = spec.quant_offset_type;
    ix.gains_indices[..nb_subfr].copy_from_slice(&spec.gains[..nb_subfr]);
    ix.nlsf_indices[0] = spec.cb1_index as i8;
    ix.nlsf_indices[1..=order].copy_from_slice(&spec.nlsf[..order]);
    ix.nlsf_interp_coef_q2 = if nb_subfr == MAX_NB_SUBFR {
        spec.interp
    } else {
        4
    };
    if spec.signal_type == TYPE_VOICED {
        ix.lag_index = if spec.lag_is_delta {
            prev_lag + spec.lag - 9
        } else {
            spec.lag
        };
        ix.contour_index = spec.contour;
        ix.per_index = spec.per_index;
        ix.ltp_index[..nb_subfr].copy_from_slice(&spec.ltp[..nb_subfr]);
        ix.ltp_scale_index = if spec.cond == CondCoding::Independently {
            spec.ltp_scale
        } else {
            0
        };
    }
    ix.seed = spec.seed;
}

fn encode_frame(
    enc: &mut RangeEncoder,
    cb: &NlsfCbStruct,
    fs_khz: u32,
    nb_subfr: usize,
    delta_possible: bool,
    spec: &FrameSpec,
) {
    let order = cb.order as usize;

    let ix = ((spec.signal_type as u32) << 1) | spec.quant_offset_type as u32;
    if spec.vad_flag {
        enc.encode_icdf(ix - 2, &TYPE_OFFSET_VAD_ICDF, 8);
    } else {
        enc.encode_icdf(ix, &TYPE_OFFSET_NO_VAD_ICDF, 8);
    }

    if spec.cond == CondCoding::Conditionally {
        enc.encode_icdf(spec.gains[0] as u32, &DELTA_GAIN_ICDF, 8);
    } else {
        enc.encode_icdf(
            (spec.gains[0] >> 3) as u32,
            &GAIN_ICDF[spec.signal_type as usize],
            8,
        );
        enc.encode_icdf((spec.gains[0] & 7) as u32, &UNIFORM8_ICDF, 8);
    }
    for g in spec.gains.iter().take(nb_subfr).skip(1) {
        enc.encode_icdf(*g as u32, &DELTA_GAIN_ICDF, 8);
    }

    enc.encode_icdf(
        spec.cb1_index as u32,
        &cb.cb1_icdf[(spec.signal_type as usize >> 1) * cb.n_vectors as usize..],
        8,
    );
    let (ec_ix, _) = nlsf_unpack(cb, spec.cb1_index);
    for (i, &residual) in spec.nlsf.iter().enumerate().take(order) {
        let s = residual as i32 + NLSF_QUANT_MAX_AMPLITUDE;
        if s <= 0 {
            enc.encode_icdf(0, &cb.ec_icdf[ec_ix[i]..], 8);
            enc.encode_icdf((-s) as u32, &NLSF_EXT_ICDF, 8);
        } else if s >= 2 * NLSF_QUANT_MAX_AMPLITUDE {
            enc.encode_icdf(
                2 * NLSF_QUANT_MAX_AMPLITUDE as u32,
                &cb.ec_icdf[ec_ix[i]..],
                8,
            );
            enc.encode_icdf((s - 2 * NLSF_QUANT_MAX_AMPLITUDE) as u32, &NLSF_EXT_ICDF, 8);
        } else {
            enc.encode_icdf(s as u32, &cb.ec_icdf[ec_ix[i]..], 8);
        }
    }

    if nb_subfr == MAX_NB_SUBFR {
        enc.encode_icdf(spec.interp as u32, &NLSF_INTERPOLATION_FACTOR_ICDF, 8);
    }

    if spec.signal_type == TYPE_VOICED {
        let mult = fs_khz >> 1;
        let encode_absolute = |enc: &mut RangeEncoder, lag: i16| {
            enc.encode_icdf(lag as u32 / mult, &PITCH_LAG_ICDF, 8);
            enc.encode_icdf(
                lag as u32 % mult,
                low_bits_table(fs_khz),
                8,
            );
        };
        if delta_possible {
            if spec.lag_is_delta {
                enc.encode_icdf(spec.lag as u32, &PITCH_DELTA_ICDF, 8);
            } else {
                enc.encode_icdf(0, &PITCH_DELTA_ICDF, 8);
                encode_absolute(enc, spec.lag);
            }
        } else {
            encode_absolute(enc, spec.lag);
        }

        enc.encode_icdf(
            spec.contour as u32,
            contour_table(fs_khz, nb_subfr),
            8,
        );
        enc.encode_icdf(spec.per_index as u32, &LTP_PER_INDEX_ICDF, 8);
        for ltp in spec.ltp.iter().take(nb_subfr) {
            enc.encode_icdf(*ltp as u32, ltp_table(spec.per_index as usize), 8);
        }
        if spec.cond == CondCoding::Independently {
            enc.encode_icdf(spec.ltp_scale as u32, &LTPSCALE_ICDF, 8);
        }
    }

    enc.encode_icdf(spec.seed as u32, &UNIFORM4_ICDF, 8);
}

fn round_trip_frames(
    specs: &[FrameSpec],
    cb: &NlsfCbStruct,
    fs_khz: u32,
    nb_subfr: usize,
) {
    let mut enc = RangeEncoder::new();
    let mut enc_prev_signal_type = TYPE_NO_VOICE_ACTIVITY;
    for spec in specs {
        let delta_possible =
            spec.cond == CondCoding::Conditionally && enc_prev_signal_type == TYPE_VOICED;
        encode_frame(&mut enc, cb, fs_khz, nb_subfr, delta_possible, spec);
        enc_prev_signal_type = spec.signal_type;
    }
    let data = enc.done();

    let mut dec = RangeDecoder::new(&data);
    let mut ec_state = EcPrevState::default();
    let mut current = SideInfoIndices::default();
    for (frame_index, spec) in specs.iter().enumerate() {
        let mut expected = current;
        apply_spec(
            spec,
            &mut expected,
            cb.order as usize,
            nb_subfr,
            ec_state.ec_prev_lag_index,
        );
        let params = FrameParams {
            nlsf_cb: *cb,
            fs_khz,
            nb_subfr,
            frame_index,
            vad_flag: spec.vad_flag,
            decode_lbrr: false,
            cond_coding: spec.cond,
        };
        decode_indices(&mut dec, &mut current, &mut ec_state, &params)
            .unwrap_or_else(|e| panic!("frame {frame_index}: {e:?}"));
        assert_eq!(current, expected, "frame {frame_index} mismatch");
    }
}

#[test]
fn round_trip_independent_voiced_wb() {
    let specs = [
        FrameSpec {
            vad_flag: true,
            cond: CondCoding::Independently,
            signal_type: TYPE_VOICED,
            quant_offset_type: 1,
            gains: [63, 39, 0, 17],
            cb1_index: 7,

            nlsf: [-10, -5, -4, -1, 0, 1, 4, 5, 10, 3, -9, 9, 2, -2, 6, -6],
            interp: 4,
            lag: 16 * 8 + 7,
            lag_is_delta: false,
            contour: 33,
            per_index: 2,
            ltp: [31, 0, 15, 8],
            ltp_scale: 2,
            seed: 3,
        },
        FrameSpec {
            vad_flag: true,
            cond: CondCoding::Independently,
            signal_type: TYPE_UNVOICED,
            quant_offset_type: 0,
            gains: [45, 12, 30, 1],
            cb1_index: 20,
            nlsf: [0; MAX_LPC_ORDER],
            interp: 0,
            lag: 0,
            lag_is_delta: false,
            contour: 0,
            per_index: 0,
            ltp: [0; MAX_NB_SUBFR],
            ltp_scale: 0,
            seed: 1,
        },
    ];
    round_trip_frames(&specs, &nlsf_cb_wb(), 16, MAX_NB_SUBFR);
}

#[test]
fn round_trip_conditional_voiced_nb() {
    let specs = [

        FrameSpec {
            vad_flag: true,
            cond: CondCoding::Independently,
            signal_type: TYPE_VOICED,
            quant_offset_type: 0,
            gains: [20, 5, 5, 5],
            cb1_index: 3,
            nlsf: [1, -1, 2, -2, 3, -3, 0, 4, -4, 0, 2, -2, 1, -1, 3, -3],
            interp: 2,
            lag: 4 * 10 + 3,
            lag_is_delta: false,
            contour: 10,
            per_index: 1,
            ltp: [7, 3, 9, 14],
            ltp_scale: 1,
            seed: 2,
        },

        FrameSpec {
            vad_flag: true,
            cond: CondCoding::Conditionally,
            signal_type: TYPE_VOICED,
            quant_offset_type: 1,
            gains: [11, 8, 39, 2],
            cb1_index: 30,
            nlsf: [0; MAX_LPC_ORDER],
            interp: 3,
            lag: 12,
            lag_is_delta: true,
            contour: 5,
            per_index: 0,
            ltp: [5, 6, 7, 2],
            ltp_scale: 0,
            seed: 0,
        },

        FrameSpec {
            vad_flag: false,
            cond: CondCoding::Conditionally,
            signal_type: TYPE_NO_VOICE_ACTIVITY,
            quant_offset_type: 0,
            gains: [7, 7, 7, 7],
            cb1_index: 0,
            nlsf: [1, 1, 1, 1, 1, 1, 1, 1, 1, 1, 1, 1, 1, 1, 1, 1],
            interp: 1,
            lag: 0,
            lag_is_delta: false,
            contour: 0,
            per_index: 0,
            ltp: [0; MAX_NB_SUBFR],
            ltp_scale: 0,
            seed: 2,
        },
    ];
    round_trip_frames(&specs, &nlsf_cb_nb_mb(), 8, MAX_NB_SUBFR);
}

#[test]
fn round_trip_10ms_mb() {
    let specs = [FrameSpec {
        vad_flag: true,
        cond: CondCoding::Independently,
        signal_type: TYPE_VOICED,
        quant_offset_type: 1,
        gains: [30, 20, 0, 0],
        cb1_index: 11,
        nlsf: [2, -2, 5, -5, 8, -8, 10, -10, 1, 0, -1, 0, 3, -3, 4, -4],
        interp: 0,
        lag: 6 * 4 + 2,
        lag_is_delta: false,
        contour: 11,
        per_index: 2,
        ltp: [20, 4, 0, 0],
        ltp_scale: 2,
        seed: 1,
    }];
    round_trip_frames(&specs, &nlsf_cb_nb_mb(), 12, MAX_NB_SUBFR / 2);
}

#[test]
fn random_round_trip_property() {
    let configs: [(NlsfCbStruct, u32, usize); 3] = [
        (nlsf_cb_nb_mb(), 8, MAX_NB_SUBFR),
        (nlsf_cb_nb_mb(), 12, MAX_NB_SUBFR / 2),
        (nlsf_cb_wb(), 16, MAX_NB_SUBFR),
    ];
    for (cb, fs_khz, nb_subfr) in configs {
        let mut rng = XorShift(0x2545_F491 ^ (fs_khz << 16));
        let mult = fs_khz >> 1;
        for _ in 0..12 {
            let mut specs = Vec::new();

            let mut prev_signal_type = TYPE_NO_VOICE_ACTIVITY;
            for frame in 0..3 {
                let vad_flag = rng.next_u32() & 1 != 0;
                let signal_type = if vad_flag {
                    TYPE_UNVOICED + rng.below(2) as i8
                } else {
                    TYPE_NO_VOICE_ACTIVITY
                };
                let cond = if frame > 0 && rng.below(2) == 0 {
                    CondCoding::Conditionally
                } else {
                    CondCoding::Independently
                };
                let mut gains = [0i8; MAX_NB_SUBFR];
                gains[0] = if cond == CondCoding::Conditionally {
                    rng.below(40) as i8
                } else {
                    rng.below(64) as i8
                };
                for g in gains.iter_mut().skip(1) {
                    *g = rng.below(40) as i8;
                }
                let cb1_index = rng.below(cb.n_vectors as u32) as usize;
                let mut nlsf = [0i8; MAX_LPC_ORDER];
                for r in nlsf.iter_mut().take(cb.order as usize) {
                    *r = rng.below(21) as i8 - 10;
                }

                let (lag, lag_is_delta) = if signal_type == TYPE_VOICED {
                    if cond == CondCoding::Conditionally
                        && prev_signal_type == TYPE_VOICED
                        && rng.below(2) == 1
                    {
                        (1 + rng.below(20) as i16, true)
                    } else {
                        let low = rng.below(mult) as i16;
                        ((2 + rng.below(30) as i16) * mult as i16 + low, false)
                    }
                } else {
                    (0, false)
                };
                let per_index = rng.below(3) as usize;
                let mut ltp = [0i8; MAX_NB_SUBFR];
                if signal_type == TYPE_VOICED {
                    for l in ltp.iter_mut().take(nb_subfr) {
                        *l = rng.below(max_symbol(ltp_table(per_index))) as i8;
                    }
                }
                let spec = FrameSpec {
                    vad_flag,
                    cond,
                    signal_type,
                    quant_offset_type: rng.below(2) as i8,
                    gains,
                    cb1_index,
                    nlsf,
                    interp: rng.below(5) as i8,
                    lag,
                    lag_is_delta,
                    contour: if signal_type == TYPE_VOICED {
                        rng.below(contour_table(fs_khz, nb_subfr).len() as u32)
                            as i8
                    } else {
                        0
                    },
                    per_index: per_index as i8,
                    ltp,
                    ltp_scale: rng.below(3) as i8,
                    seed: rng.below(4) as i8,
                };
                prev_signal_type = signal_type;
                specs.push(spec);
            }
            round_trip_frames(&specs, &cb, fs_khz, nb_subfr);
        }
    }
}

#[test]
fn vad_flags_and_lbrr_flag_round_trip() {
    for n_frames in 1..=MAX_FRAMES_PER_PACKET {
        let mut enc = RangeEncoder::new();
        let mut expected_vad = [false; MAX_FRAMES_PER_PACKET];
        for (i, flag) in expected_vad.iter_mut().take(n_frames).enumerate() {
            *flag = (i % 2 == 1) || n_frames == 1;
            enc.encode_bit_logp(*flag, 1);
        }
        let expected_lbrr = n_frames != 2;
        enc.encode_bit_logp(expected_lbrr, 1);
        let data = enc.done();

        let (vad, lbrr) =
            decode_vad_flags_and_lbrr_flag(&mut RangeDecoder::new(&data), n_frames).unwrap();
        assert_eq!(vad, expected_vad);
        assert_eq!(lbrr, expected_lbrr);
    }
}

#[test]
fn lbrr_flags_pattern_decoding() {
    let flags = decode_lbrr_flags(&mut RangeDecoder::new(&[]), 1).unwrap();
    assert_eq!(flags, [true, false, false]);

    for n_frames in 2..=MAX_FRAMES_PER_PACKET {
        let table = lbrr_table(n_frames);
        for symbol in 0..table.len() - 1 {
            let mut enc = RangeEncoder::new();
            enc.encode_icdf(symbol as u32, table, 8);
            let data = enc.done();
            let flags = decode_lbrr_flags(&mut RangeDecoder::new(&data), n_frames).unwrap();
            for (i, flag) in flags.iter().take(n_frames).enumerate() {
                assert_eq!(*flag, (symbol as u32 + 1) >> i & 1 != 0);
            }
            assert!(!flags[n_frames..].iter().any(|f| *f));
        }
    }
}

#[test]
fn voiced_frame_at_an_unknown_rate_is_refused() {
    let mut enc = RangeEncoder::new();
    enc.encode_icdf(2, &TYPE_OFFSET_VAD_ICDF, 8);
    let data = enc.done();
    let params = FrameParams {
        nlsf_cb: nlsf_cb_wb(),
        fs_khz: 24,
        nb_subfr: 4,
        frame_index: 0,
        vad_flag: true,
        decode_lbrr: false,
        cond_coding: CondCoding::Independently,
    };
    let mut indices = SideInfoIndices::default();
    let mut ec_state = EcPrevState::default();
    let err = decode_indices(
        &mut RangeDecoder::new(&data),
        &mut indices,
        &mut ec_state,
        &params,
    )
    .unwrap_err();
    assert_eq!(err, CadenceError::CorruptData(Corruption::InternalRateKhz(24)));
}
