//! Mid/side stereo.
use cadence::range::RangeDecoder;
use cadence::sigproc::sat16;
use cadence::stereo::{decode_mid_only, decode_pred, ms_to_lr, StereoDecState};
use cadence::tables::{
    STEREO_ONLY_CODE_MID_ICDF, STEREO_PRED_JOINT_ICDF, STEREO_PRED_QUANT_Q13, UNIFORM3_ICDF,
    UNIFORM5_ICDF,
};

/// Range encoder, the counterpart of the decoder.
struct RangeEncoder {
    buf: Vec<u8>,
    rng: u32,
    val: u32,
    rem: i32,
    ext: u32,
    nbits_total: u32,
}

impl RangeEncoder {
    fn new() -> Self {
        RangeEncoder {
            buf: Vec::new(),
            rng: 0x8000_0000,
            val: 0,
            rem: -1,
            ext: 0,
            nbits_total: 33,
        }
    }

    fn carry_out(&mut self, c: u32) {
        if c != 0xff {
            let carry: u32 = c >> 8;
            if self.rem >= 0 {
                self.buf.push((self.rem as u32 + carry) as u8);
            }
            let sym: u8 = (0xff + carry) as u8;
            while self.ext > 0 {
                self.buf.push(sym);
                self.ext -= 1;
            }
            self.rem = (c & 0xff) as i32;
        } else {
            self.ext += 1;
        }
    }

    fn normalize(&mut self) {
        while self.rng <= 0x80_0000 {
            self.carry_out(self.val >> 23);
            self.val = (self.val << 8) & 0x7fff_ffff;
            self.rng <<= 8;
            self.nbits_total += 8;
        }
    }

    fn encode_icdf(&mut self, symbol: u32, icdf: &[u8], ftb: u32) {
        let s: usize = symbol as usize;
        let r: u32 = self.rng >> ftb;
        if s > 0 {
            self.val += self.rng - r * icdf[s - 1] as u32;
            self.rng = r * (icdf[s - 1] as u32 - icdf[s] as u32);
        } else {
            self.rng -= r * icdf[s] as u32;
        }
        self.normalize();
    }

    fn done(mut self) -> Vec<u8> {
        let mut l: i32 = self.rng.leading_zeros() as i32;
        let mut mask: u32 = 0x7fff_ffff >> l;
        let mut end: u32 = (self.val + mask) & !mask;
        if (end | mask) >= self.val + self.rng {
            l += 1;
            mask >>= 1;
            end = (self.val + mask) & !mask;
        }
        while l > 0 {
            self.carry_out(end >> 23);
            end = (end << 8) & 0x7fff_ffff;
            l -= 8;
        }
        if self.rem >= 0 || self.ext > 0 {
            self.carry_out(0);
        }
        self.buf
    }
}

fn lcg(state: &mut u32) -> u32 {
    *state = state.wrapping_mul(1664525).wrapping_add(1013904223);
    *state
}

fn lcg_i16(state: &mut u32, bound: i32) -> i16 {
    ((lcg(state) % (2 * bound as u32 + 1)) as i32 - bound) as i16
}

fn dequantized(joint: u32, low: [u32; 2], sub: [u32; 2]) -> [i32; 2] {
    let wi = [
        (low[0] + 3 * (joint / 5)) as usize,
        (low[1] + 3 * (joint % 5)) as usize,
    ];
    let tab = &STEREO_PRED_QUANT_Q13;
    let step = |k: usize| (((tab[k + 1] as i64 - tab[k] as i64) * 6554) >> 16) as i32;
    let w1 = tab[wi[1]] as i32 + step(wi[1]) * (2 * sub[1] as i32 + 1);
    let w0 = tab[wi[0]] as i32 + step(wi[0]) * (2 * sub[0] as i32 + 1) - w1;
    [w0, w1]
}

fn encode_pred_indices(joint: u32, low: [u32; 2], sub: [u32; 2]) -> Vec<u8> {
    let mut enc = RangeEncoder::new();
    enc.encode_icdf(joint, &STEREO_PRED_JOINT_ICDF, 8);
    enc.encode_icdf(low[0], &UNIFORM3_ICDF, 8);
    enc.encode_icdf(sub[0], &UNIFORM5_ICDF, 8);
    enc.encode_icdf(low[1], &UNIFORM3_ICDF, 8);
    enc.encode_icdf(sub[1], &UNIFORM5_ICDF, 8);
    enc.done()
}

#[test]
fn decode_pred_round_trips_exhaustively() {
    for joint in 0..25u32 {
        for low0 in 0..3u32 {
            for sub0 in 0..5u32 {
                for low1 in 0..3u32 {
                    for sub1 in 0..5u32 {
                        let bytes = encode_pred_indices(joint, [low0, low1], [sub0, sub1]);
                        let mut dec = RangeDecoder::new(&bytes);
                        let pred = decode_pred(&mut dec).unwrap();
                        assert_eq!(
                            pred,
                            dequantized(joint, [low0, low1], [sub0, sub1]),
                            "joint={joint} low={low0}/{low1} sub={sub0}/{sub1}"
                        );
                    }
                }
            }
        }
    }
}

#[test]
fn decode_mid_only_round_trips() {
    for flag in [false, true] {
        let mut enc = RangeEncoder::new();
        enc.encode_icdf(flag as u32, &STEREO_ONLY_CODE_MID_ICDF, 8);
        let bytes = enc.done();
        let mut dec = RangeDecoder::new(&bytes);
        assert_eq!(decode_mid_only(&mut dec).unwrap(), flag);
    }
}

#[test]
fn decode_empty_frame_reads_zero_fill() {
    let mut dec = RangeDecoder::new(&[]);
    let pred = decode_pred(&mut dec).unwrap();
    assert!(pred[1].abs() <= 13732, "pred1={}", pred[1]);
    assert!(pred[0].abs() <= 2 * 13732, "pred0={}", pred[0]);
    let mut dec = RangeDecoder::new(&[]);
    decode_mid_only(&mut dec).unwrap();
}

#[test]
fn ms_to_lr_zero_predictors_is_sum_and_difference() {
    const FRAME: usize = 160;
    let mut rng = 42u32;
    let mut mid_in = [0i16; FRAME + 2];
    let mut side_in = [0i16; FRAME + 2];
    for k in 2..FRAME + 2 {
        mid_in[k] = lcg_i16(&mut rng, 15000);
        side_in[k] = lcg_i16(&mut rng, 15000);
    }
    let mut state = StereoDecState::default();
    let mut mid = mid_in;
    let mut side = side_in;
    ms_to_lr(&mut state, &mut mid, &mut side, &[0, 0], 16, FRAME);

    assert_eq!(mid[1], 0);
    assert_eq!(side[1], 0);
    for n in 1..FRAME {
        let m = mid_in[n + 1] as i32;
        let s = side_in[n + 1] as i32;
        assert_eq!(mid[n + 1], sat16(m + s), "n={n}");
        assert_eq!(side[n + 1], sat16(m - s), "n={n}");
    }

    assert_eq!(state.s_mid, [mid_in[FRAME], mid_in[FRAME + 1]]);
    assert_eq!(state.s_side, [side_in[FRAME], side_in[FRAME + 1]]);
    assert_eq!(state.pred_prev_q13, [0, 0]);
}

#[test]
fn ms_to_lr_side_prediction_matches_reference_formula() {
    const FRAME: usize = 160;
    let fs_khz = 16u32;
    let w = [6000i32, -9000i32];
    let mut rng = 7u32;
    let mut mid_in = [0i16; FRAME + 2];
    let mut side_in = [0i16; FRAME + 2];
    for k in 2..FRAME + 2 {
        mid_in[k] = lcg_i16(&mut rng, 1500);
        side_in[k] = lcg_i16(&mut rng, 1500);
    }
    let mut state = StereoDecState {
        pred_prev_q13: [w[0] as i16, w[1] as i16],
        ..StereoDecState::default()
    };
    let mut mid = mid_in;
    let mut side = side_in;
    ms_to_lr(&mut state, &mut mid, &mut side, &w, fs_khz, FRAME);

    for n in 1..FRAME {
        let m_sum = (mid_in[n] as i64) + 2 * (mid_in[n + 1] as i64) + (mid_in[n + 2] as i64);
        let side_q8 = (side_in[n + 1] as i64) * 256
            + (((m_sum << 9) * w[0] as i64) >> 16)
            + ((((mid_in[n + 1] as i64) << 11) * w[1] as i64) >> 16);
        let want_side = (((side_q8 >> 7) + 1) >> 1).clamp(-32768, 32767);
        let want_left = (mid_in[n + 1] as i64 + want_side).clamp(-32768, 32767);
        let want_right = (mid_in[n + 1] as i64 - want_side).clamp(-32768, 32767);
        assert_eq!(mid[n + 1] as i64, want_left, "n={n}");
        assert_eq!(side[n + 1] as i64, want_right, "n={n}");
    }
}

#[test]
fn ms_to_lr_ramps_predictors_over_first_8ms() {
    const FRAME: usize = 80;
    let fs_khz = 8u32;
    let pred = [4000i32, 8192i32];
    let mut rng = 99u32;
    let mut mid_in = [0i16; FRAME + 2];
    for slot in mid_in[2..].iter_mut() {
        *slot = lcg_i16(&mut rng, 1000);
    }
    let mut state = StereoDecState::default();
    let mut mid = mid_in;
    let mut side = [0i16; FRAME + 2];
    ms_to_lr(&mut state, &mut mid, &mut side, &pred, fs_khz, FRAME);

    let w0_at = |n: usize| {
        if n < 64 {
            63 * (n as i32 + 1)
        } else {
            4000
        }
    };
    let w1_at = |n: usize| {
        if n < 64 {
            128 * (n as i32 + 1)
        } else {
            8192
        }
    };
    for n in 1..FRAME {
        let m_sum = (mid_in[n] as i64) + 2 * (mid_in[n + 1] as i64) + (mid_in[n + 2] as i64);
        let side_q8 = (((m_sum << 9) * w0_at(n) as i64) >> 16)
            + ((((mid_in[n + 1] as i64) << 11) * w1_at(n) as i64) >> 16);
        let want_side = (((side_q8 >> 7) + 1) >> 1).clamp(-32768, 32767);
        let want_left = (mid_in[n + 1] as i64 + want_side).clamp(-32768, 32767);
        let want_right = (mid_in[n + 1] as i64 - want_side).clamp(-32768, 32767);
        assert_eq!(mid[n + 1] as i64, want_left, "n={n}");
        assert_eq!(side[n + 1] as i64, want_right, "n={n}");
    }

    let m_sum =
        |n: usize| (mid_in[n] as i64) + 2 * (mid_in[n + 1] as i64) + (mid_in[n + 2] as i64);
    assert_ne!(
        ((m_sum(63) << 9) * 4032) >> 16,
        ((m_sum(63) << 9) * 4000) >> 16
    );
}

#[test]
fn ms_to_lr_history_carries_across_frames() {
    const FRAME: usize = 80;
    let fs_khz = 8u32;
    let mut rng = 1234u32;
    let mut frame1_mid = [0i16; FRAME + 2];
    let mut frame1_side = [0i16; FRAME + 2];
    for k in 2..FRAME + 2 {
        frame1_mid[k] = lcg_i16(&mut rng, 9000);
        frame1_side[k] = lcg_i16(&mut rng, 9000);
    }
    let mut state = StereoDecState::default();
    ms_to_lr(
        &mut state,
        &mut frame1_mid,
        &mut frame1_side,
        &[0, 0],
        fs_khz,
        FRAME,
    );

    let mut frame2_mid = [0i16; FRAME + 2];
    let mut frame2_side = [0i16; FRAME + 2];
    for k in 2..FRAME + 2 {
        frame2_mid[k] = lcg_i16(&mut rng, 9000);
        frame2_side[k] = lcg_i16(&mut rng, 9000);
    }
    let mid2_in = frame2_mid;
    let side2_in = frame2_side;
    ms_to_lr(
        &mut state,
        &mut frame2_mid,
        &mut frame2_side,
        &[0, 0],
        fs_khz,
        FRAME,
    );
    let m1_last = frame1_mid[FRAME + 1] as i32;
    let r1_last = frame1_side[FRAME + 1] as i32;
    assert_eq!(frame2_mid[1], sat16(m1_last + r1_last));
    assert_eq!(frame2_side[1], sat16(m1_last - r1_last));

    for n in 1..FRAME {
        let m = mid2_in[n + 1] as i32;
        let s = side2_in[n + 1] as i32;
        assert_eq!(frame2_mid[n + 1], sat16(m + s), "n={n}");
        assert_eq!(frame2_side[n + 1], sat16(m - s), "n={n}");
    }
}

#[test]
fn ms_to_lr_saturates_extreme_inputs() {
    const FRAME: usize = 80;
    let all_mid = [i16::MAX; FRAME + 2];
    for side_val in [i16::MAX, i16::MIN] {
        let mut state = StereoDecState::default();
        let mut mid = all_mid;
        let mut side = [side_val; FRAME + 2];
        ms_to_lr(&mut state, &mut mid, &mut side, &[0, 0], 8, FRAME);
        for n in 1..FRAME {
            let m = i16::MAX as i32;
            let s = side_val as i32;
            assert_eq!(mid[n + 1], sat16(m + s), "side={side_val} n={n}");
            assert_eq!(side[n + 1], sat16(m - s), "side={side_val} n={n}");
        }
    }
}

#[test]
fn ms_to_lr_recovers_synthetic_stereo() {
    const FRAMES: usize = 3;
    const FRAME: usize = 160;
    const TOTAL: usize = FRAMES * FRAME;
    let fs_khz = 8u32;
    let w = [6000i32, 9000i32];

    let mut mid_in = [0i32; TOTAL];
    let (mut p1, mut p2) = (300i32, 100i32);
    let mut rng = 20250917u32;
    for slot in mid_in.iter_mut() {
        let e = lcg_i16(&mut rng, 400) as i32;
        let m = ((3 * p1 + p2) / 4 + e).clamp(-2000, 2000);
        *slot = m;
        p2 = p1;
        p1 = m;
    }

    let mut mid_d = [0i64; TOTAL + 1];
    for k in 1..=TOTAL {
        mid_d[k] = mid_in[k - 1] as i64;
    }

    let side_desired: Vec<i64> = (0..TOTAL)
        .map(|k| ((k * 941) % 6001) as i64 - 3000)
        .collect();

    let mut residual = [0i16; TOTAL];
    for r in 0..TOTAL - 1 {
        let k = r + 1;
        let m_sum = mid_d[r] + 2 * mid_d[r + 1] + mid_d[r + 2];
        let t0 = ((m_sum << 9) * w[0] as i64) >> 16;
        let t1 = ((mid_d[r + 1] << 11) * w[1] as i64) >> 16;
        residual[r] = (((side_desired[k] * 256 - t0 - t1 + 128) >> 8) as i32) as i16;
    }

    let mut state = StereoDecState {
        pred_prev_q13: [w[0] as i16, w[1] as i16],
        ..StereoDecState::default()
    };
    for f in 0..FRAMES {
        let mut mid = [0i16; FRAME + 2];
        let mut side = [0i16; FRAME + 2];
        let mid_frame: Vec<i16> = mid_in[f * FRAME..(f + 1) * FRAME]
            .iter()
            .map(|&m| m as i16)
            .collect();
        mid[2..FRAME + 2].copy_from_slice(&mid_frame);
        side[2..FRAME + 2].copy_from_slice(&residual[f * FRAME..(f + 1) * FRAME]);
        ms_to_lr(&mut state, &mut mid, &mut side, &w, fs_khz, FRAME);
        for n in 0..FRAME {
            let k = f * FRAME + n;
            if k == 0 {
                continue;
            }
            let want_left = mid_d[k] + side_desired[k];
            let want_right = mid_d[k] - side_desired[k];
            assert!(
                (mid[n + 1] as i64 - want_left).abs() <= 1,
                "left k={k}: {} vs {want_left}",
                mid[n + 1]
            );
            assert!(
                (side[n + 1] as i64 - want_right).abs() <= 1,
                "right k={k}: {} vs {want_right}",
                side[n + 1]
            );
        }
    }
}

#[test]
fn decode_pred_fuzz_never_panics() {
    let mut rng = 0xC0FFEEu32;
    for _ in 0..2000 {
        let len = (lcg(&mut rng) % 24 + 1) as usize;
        let buf: Vec<u8> = (0..len).map(|_| lcg(&mut rng) as u8).collect();
        let mut dec = RangeDecoder::new(&buf);
        if let Ok(pred) = decode_pred(&mut dec) {
            assert!(pred[1].abs() <= 13732, "pred1={}", pred[1]);
            assert!(pred[0].abs() <= 2 * 13732, "pred0={}", pred[0]);
        }
    }
}

#[test]
fn ms_to_lr_fuzz_never_panics() {
    let mut rng = 0xDEADBEEFu32;
    for _ in 0..500 {
        let fs_khz = [8u32, 12, 16, 24][lcg(&mut rng) as usize % 4];
        let frame_length = (10 * fs_khz as usize) << (lcg(&mut rng) % 2);
        let mut mid = [0i16; 482];
        let mut side = [0i16; 482];
        for k in 0..frame_length + 2 {
            mid[k] = lcg(&mut rng) as u16 as i16;
            side[k] = lcg(&mut rng) as u16 as i16;
        }
        let w0 = (lcg(&mut rng) as i16 as i32) * 2;
        let w1 = (lcg(&mut rng) as i16 as i32) * 2;
        let mut state = StereoDecState::default();
        ms_to_lr(
            &mut state,
            &mut mid[..frame_length + 2],
            &mut side[..frame_length + 2],
            &[w0, w1],
            fs_khz,
            frame_length,
        );
    }
}
