//! Synthesis.
use cadence::decode_indices::{
    SideInfoIndices, MAX_LPC_ORDER, MAX_NB_SUBFR, TYPE_UNVOICED, TYPE_VOICED,
};
use cadence::excitation::reconstruct_excitation;
use cadence::nlsf::inverse32_varq;
use cadence::sigproc::sat16;
use cadence::synthesis::{
    decode_core, DecoderControl, FrameInfo, SynthesisState, LTP_ORDER, MAX_FRAME_LENGTH,
    MAX_SUB_FRAME_LENGTH,
};

struct XorShift(u32);

impl XorShift {
    fn next_u32(&mut self) -> u32 {
        let mut x = self.0;
        x ^= x << 13;
        x ^= x >> 17;
        x ^= x << 5;
        self.0 = x;
        x
    }
}

const SEED_BASE: u32 = 0x5EED_C0DE;
const N_CASES: usize = 48;

struct FrameCase {
    indices: SideInfoIndices,
    loss_cnt: i32,
    prev_signal_type: i8,
    lag_prev: i32,
    ctrl: DecoderControl,
    pulses: Vec<i16>,
}

fn gen_case(
    rng: &mut XorShift,
    case_idx: usize,
) -> (FrameInfo, SynthesisState, Vec<FrameCase>) {
    let fs_khz = [8usize, 12, 16][(rng.next_u32() % 3) as usize];
    let nb_subfr = 2 + 2 * (rng.next_u32() % 2) as usize;
    let subfr_length = 5 * fs_khz;
    let frame_length = nb_subfr * subfr_length;
    let lpc_order = if fs_khz == 16 { 16 } else { 10 };

    let mut state = SynthesisState::default();
    if case_idx % 4 == 3 {
        for v in state.s_lpc_q14_buf.iter_mut() {
            *v = rng.next_u32() as i32;
        }
        for v in state.out_buf.iter_mut() {
            let u = (rng.next_u32() % 65536) as i32;
            *v = if u >= 1 << 15 {
                (u - (1 << 16)) as i16
            } else {
                u as i16
            };
        }
        state.prev_gain_q16 = 81920 + (rng.next_u32() % (1 << 24)) as i32;
    }

    let mut frames = Vec::new();
    for _ in 0..3 {
        let signal_type = (rng.next_u32() % 3) as i8;
        let quant_offset_type = (rng.next_u32() % 2) as i8;
        let nlsf_interp_coef_q2 = (if nb_subfr == 4 { rng.next_u32() % 5 } else { 4 }) as i8;
        let seed = (rng.next_u32() % 4) as i8;
        let loss_cnt = (rng.next_u32() % 3) as i32;
        let prev_signal_type = (rng.next_u32() % 3) as i8;
        let lag_prev = 2 * fs_khz as i32 + (rng.next_u32() % (16 * fs_khz as u32 + 1)) as i32;
        let ltp_scale_q14 = [8192i16, 12288, 15565][(rng.next_u32() % 3) as usize];

        let mut gains_q16 = [0i32; MAX_NB_SUBFR];
        let mut prev_g: Option<i32> = None;
        for g in gains_q16.iter_mut().take(nb_subfr) {
            *g = match prev_g {
                Some(prev) if rng.next_u32() % 2 == 0 => prev,
                _ => 81920 + (rng.next_u32() % (1 << 26)) as i32,
            };
            prev_g = Some(*g);
        }

        let mut pred_coef_q12 = [[0i16; MAX_LPC_ORDER]; 2];

        let coef_max = if case_idx % 3 == 0 { 32768 } else { 8192 } as u32;
        for half in pred_coef_q12.iter_mut().take(2) {
            for v in half.iter_mut().take(lpc_order) {
                *v = ((rng.next_u32() % (2 * coef_max)) as i32 - coef_max as i32) as i16;
            }
        }

        let mut ltp_coef_q14 = [0i16; LTP_ORDER * MAX_NB_SUBFR];
        for v in ltp_coef_q14[..nb_subfr * LTP_ORDER].iter_mut() {
            let u = (rng.next_u32() % 65536) as i32;
            *v = if u >= 1 << 15 {
                (u - (1 << 16)) as i16
            } else {
                u as i16
            };
        }

        let mut pitch_l = [0i32; MAX_NB_SUBFR];
        for p in pitch_l.iter_mut().take(nb_subfr) {
            if signal_type == TYPE_VOICED {
                *p = 2 * fs_khz as i32 + (rng.next_u32() % (16 * fs_khz as u32 + 1)) as i32;
            }
        }

        let mut pulses = Vec::with_capacity(frame_length);
        for _ in 0..frame_length {
            let r = rng.next_u32() % 16;
            let p: i32 = if r < 8 {
                0
            } else if r < 12 {
                let v = (rng.next_u32() % 9) as i32;
                if rng.next_u32() % 2 == 1 {
                    -v
                } else {
                    v
                }
            } else if r < 14 {
                let v = 1 + (rng.next_u32() % 128) as i32;
                if rng.next_u32() % 2 == 1 {
                    -v
                } else {
                    v
                }
            } else {
                (rng.next_u32() % 65536) as i32 - 32768
            };
            pulses.push(p as i16);
        }

        frames.push(FrameCase {
            indices: SideInfoIndices {
                signal_type,
                quant_offset_type,
                nlsf_interp_coef_q2,
                seed,
                ..SideInfoIndices::default()
            },
            loss_cnt,
            prev_signal_type,
            lag_prev,
            ctrl: DecoderControl {
                pitch_l,
                gains_q16,
                pred_coef_q12,
                ltp_coef_q14,
                ltp_scale_q14,
            },
            pulses,
        });
    }
    (FrameInfo::new(fs_khz as u32, nb_subfr), state, frames)
}

fn fnv1a64(data: &[u8]) -> u64 {
    let mut h = 0xCBF2_9CE4_8422_2325u64;
    for &b in data {
        h ^= b as u64;
        h = h.wrapping_mul(0x0000_0100_0000_01B3);
    }
    h
}

#[test]
fn decode_core_matches_libopus_oracle() {
    let table: [(u32, u64); N_CASES] = [
        (SEED_BASE, 0x550EEC856B0CD577),
        (SEED_BASE + 1, 0xAFC6057AE3948E80),
        (SEED_BASE + 2, 0x06E878123DF51A24),
        (SEED_BASE + 3, 0x030596A0A4E77D0A),
        (SEED_BASE + 4, 0xF3D6D88CAF57AE4D),
        (SEED_BASE + 5, 0x9C4450A77DC964B9),
        (SEED_BASE + 6, 0x655D1980CFFC42FD),
        (SEED_BASE + 7, 0xF4119164D478853D),
        (SEED_BASE + 8, 0x88898A92EC5A7A03),
        (SEED_BASE + 9, 0xFC77CB484A4B53BB),
        (SEED_BASE + 10, 0xD9E550880BA2A9C4),
        (SEED_BASE + 11, 0xA412543731FE710C),
        (SEED_BASE + 12, 0x2F718AA1C108A803),
        (SEED_BASE + 13, 0xAD98058E9297B543),
        (SEED_BASE + 14, 0xBF4BF9574BEA0C3E),
        (SEED_BASE + 15, 0x6AB42E283FF07287),
        (SEED_BASE + 16, 0x29B1DEA4D046D8A8),
        (SEED_BASE + 17, 0x9CB1A3ADC47B5593),
        (SEED_BASE + 18, 0xA478CDCE6413E6B7),
        (SEED_BASE + 19, 0xB4DCADB2910F8899),
        (SEED_BASE + 20, 0x5093B87F3EC7E912),
        (SEED_BASE + 21, 0x0DF392383E1F1D46),
        (SEED_BASE + 22, 0x09B639E294DBC2B1),
        (SEED_BASE + 23, 0x8C2A6F0F5CC66831),
        (SEED_BASE + 24, 0xC6B9907B221F7EC3),
        (SEED_BASE + 25, 0x048C95E307C8CA67),
        (SEED_BASE + 26, 0xB70368C3000ED44E),
        (SEED_BASE + 27, 0x52D684334E5AC01C),
        (SEED_BASE + 28, 0x5A2EB1D7979F9E8F),
        (SEED_BASE + 29, 0xAAF823733AB4651D),
        (SEED_BASE + 30, 0x46CAD4CD76E388AD),
        (SEED_BASE + 31, 0x3845A5844EA667FD),
        (SEED_BASE + 32, 0x0FDCBB2B8BA0B367),
        (SEED_BASE + 33, 0xB9B10ED092B54A9D),
        (SEED_BASE + 34, 0x703AD900AADC4B2C),
        (SEED_BASE + 35, 0xDB35DEFF26FF7200),
        (SEED_BASE + 36, 0x4D33471C89F83A10),
        (SEED_BASE + 37, 0xB72F38CA3CFEE485),
        (SEED_BASE + 38, 0xA7766E59AC0332F8),
        (SEED_BASE + 39, 0x4F916ADE0701DEBB),
        (SEED_BASE + 40, 0x973D3C6843129DF1),
        (SEED_BASE + 41, 0x147C5FED3662580F),
        (SEED_BASE + 42, 0x51F0F884ACDF0401),
        (SEED_BASE + 43, 0xD3B0BE28817C3E7B),
        (SEED_BASE + 44, 0x769242A9CEC136E8),
        (SEED_BASE + 45, 0x0F813DB264C7DAC2),
        (SEED_BASE + 46, 0x7FEF9F4A9F5DE2B4),
        (SEED_BASE + 47, 0x0EE89754F2F76AB6),
    ];
    for (seed, want) in table {
        let case_idx = (seed - SEED_BASE) as usize;
        let mut rng = XorShift(seed);
        let (frame, mut state, frames) = gen_case(&mut rng, case_idx);
        let mut blob = Vec::new();
        for fc in &frames {
            let mut ctrl = fc.ctrl;
            let mut xq = vec![0i16; frame.frame_length()];
            let mut exc = vec![0i32; frame.frame_length()];
            decode_core(
                &mut state,
                &mut ctrl,
                &fc.indices,
                &fc.pulses,
                &mut xq,
                &mut exc,
                &frame,
                fc.loss_cnt,
                fc.prev_signal_type,
                fc.lag_prev,
            );
            state.update_out_buf(&xq, frame.ltp_mem_length);
            for &v in &xq {
                blob.extend_from_slice(&v.to_le_bytes());
            }
            for &v in &ctrl.pitch_l[..frame.nb_subfr] {
                blob.extend_from_slice(&v.to_le_bytes());
            }
        }
        for &v in &state.s_lpc_q14_buf {
            blob.extend_from_slice(&v.to_le_bytes());
        }
        for &v in &state.out_buf {
            blob.extend_from_slice(&v.to_le_bytes());
        }
        blob.extend_from_slice(&state.prev_gain_q16.to_le_bytes());
        assert_eq!(fnv1a64(&blob), want, "case index {case_idx}");
    }
}

fn mul_shift16(a: i32, b: i32) -> i32 {
    ((a as i64 * b as i64) >> 16) as i32
}
fn round_shift8(v: i32) -> i32 {
    ((v >> 7) + 1) >> 1
}

#[test]
fn unvoiced_zero_lpc_matches_closed_form() {
    let frame = FrameInfo::new(16, 2);
    let n = frame.frame_length();
    let mut state = SynthesisState::default();
    let indices = SideInfoIndices {
        signal_type: TYPE_UNVOICED,
        quant_offset_type: 1,
        nlsf_interp_coef_q2: 4,
        seed: 2,
        ..SideInfoIndices::default()
    };
    let mut ctrl = DecoderControl {
        gains_q16: [65536; MAX_NB_SUBFR],
        ..DecoderControl::default()
    };
    let pulses = vec![0i16; n];
    let mut xq = vec![0i16; n];
    let mut exc = vec![0i32; n];
    decode_core(
        &mut state,
        &mut ctrl,
        &indices,
        &pulses,
        &mut xq,
        &mut exc,
        &frame,
        0,
        TYPE_UNVOICED,
        100,
    );

    let mut exc_exp = vec![0i32; n];
    reconstruct_excitation(
        &mut exc_exp,
        &pulses,
        indices.seed,
        indices.signal_type,
        indices.quant_offset_type,
    );
    for i in 0..n {
        let s_lpc = exc_exp[i].saturating_add(128);
        let want = sat16(round_shift8(mul_shift16(s_lpc, 1024)));
        assert_eq!(xq[i], want, "sample {i}");
    }

    let tail: Vec<i32> = (n - MAX_LPC_ORDER..n)
        .map(|i| exc_exp[i].saturating_add(128))
        .collect();
    assert_eq!(&state.s_lpc_q14_buf[..], &tail[..]);

    assert_eq!(state.prev_gain_q16, 65536);
}

fn pattern_state() -> SynthesisState {
    let mut st = SynthesisState::default();
    for (i, v) in st.out_buf.iter_mut().enumerate() {
        *v = ((i * 37) % 251) as i16 - 125;
    }
    st
}

#[test]
fn voiced_center_tap_ltp_hand_traced() {
    let frame = FrameInfo::new(16, 4);
    let n = frame.frame_length();
    let lag = 64usize;
    let mut state = pattern_state();
    let indices = SideInfoIndices {
        signal_type: TYPE_VOICED,
        quant_offset_type: 0,
        nlsf_interp_coef_q2: 4,
        seed: 0,
        ..SideInfoIndices::default()
    };
    let mut ctrl = DecoderControl {
        pitch_l: [lag as i32; MAX_NB_SUBFR],
        gains_q16: [65536; MAX_NB_SUBFR],
        pred_coef_q12: [[0; MAX_LPC_ORDER]; 2],
        ltp_coef_q14: [
            0, 0, 4096, 0, 0,
            0, 0, 4096, 0, 0,
            0, 0, 4096, 0, 0,
            0, 0, 4096, 0, 0,
        ],
        ltp_scale_q14: 8192,
    };
    let pulses = vec![0i16; n];
    let mut xq = vec![0i16; n];
    let mut exc = vec![0i32; n];
    decode_core(
        &mut state,
        &mut ctrl,
        &indices,
        &pulses,
        &mut xq,
        &mut exc,
        &frame,
        0,
        TYPE_VOICED,
        100,
    );

    let mut exc_exp = vec![0i32; n];
    reconstruct_excitation(
        &mut exc_exp,
        &pulses,
        indices.seed,
        indices.signal_type,
        indices.quant_offset_type,
    );
    let inv = inverse32_varq(65536, 47);

    let inv_scaled = mul_shift16(inv, 8192).wrapping_shl(2);
    let mut s_ltp_q15 = vec![0i32; frame.ltp_mem_length + n];
    let mut s_lpc = vec![0i32; MAX_LPC_ORDER + n];
    for i in 0..lag + LTP_ORDER / 2 {
        let idx = frame.ltp_mem_length - i - 1;
        s_ltp_q15[idx] = mul_shift16(inv_scaled, state.out_buf[idx] as i32);
    }
    for k in 0..frame.nb_subfr {
        let base = k * frame.subfr_length;
        for i in 0..frame.subfr_length {
            let cursor = frame.ltp_mem_length + base + i;

            let ltp_pred = 2 + mul_shift16(s_ltp_q15[cursor - lag], 4096);
            let res = exc_exp[base + i].wrapping_add(ltp_pred.wrapping_shl(1));
            s_ltp_q15[cursor] = res.wrapping_shl(1);
            let s_val = res.saturating_add(128);
            s_lpc[MAX_LPC_ORDER + base + i] = s_val;
            let want = sat16(round_shift8(mul_shift16(s_val, 1024)));
            assert_eq!(xq[base + i], want, "subframe {k} sample {i}");
        }
    }

    assert_eq!(
        &state.s_lpc_q14_buf[..],
        &s_lpc[s_lpc.len() - MAX_LPC_ORDER..]
    );

    let mut state2 = pattern_state();
    let mut ctrl2 = ctrl;
    ctrl2.ltp_scale_q14 = 15565;
    let mut xq2 = vec![0i16; n];
    let mut exc2 = vec![0i32; n];
    decode_core(
        &mut state2,
        &mut ctrl2,
        &indices,
        &pulses,
        &mut xq2,
        &mut exc2,
        &frame,
        0,
        TYPE_VOICED,
        100,
    );
    assert_ne!(xq[0], xq2[0], "LTP scale must affect subframe 0");
}

#[test]
fn voiced_plc_transition_overrides_pitch_l() {
    let frame = FrameInfo::new(8, 4);
    let n = frame.frame_length();
    let indices = SideInfoIndices {
        signal_type: TYPE_UNVOICED,
        ..SideInfoIndices::default()
    };
    let pulses = vec![0i16; n];

    let run = |loss_cnt: i32, prev_signal_type: i8, lag_prev: i32| {
        let mut state = SynthesisState::default();

        let mut ctrl = DecoderControl {
            gains_q16: [65536; MAX_NB_SUBFR],
            ..DecoderControl::default()
        };
        let mut xq = vec![0i16; n];
        let mut exc = vec![0i32; n];
        decode_core(
            &mut state,
            &mut ctrl,
            &indices,
            &pulses,
            &mut xq,
            &mut exc,
            &frame,
            loss_cnt,
            prev_signal_type,
            lag_prev,
        );
        ctrl.pitch_l
    };

    assert_eq!(run(3, TYPE_VOICED, 123), [123, 123, 0, 0]);

    assert_eq!(run(1, TYPE_VOICED, 88), [88, 88, 0, 0]);
    assert_eq!(run(0, TYPE_VOICED, 123), [0, 0, 0, 0]);
    assert_eq!(run(3, TYPE_UNVOICED, 123), [0, 0, 0, 0]);

    let indices_v = SideInfoIndices {
        signal_type: TYPE_VOICED,
        ..SideInfoIndices::default()
    };
    let mut state = SynthesisState::default();
    let mut ctrl = DecoderControl {
        pitch_l: [31, 32, 33, 34],
        gains_q16: [65536; MAX_NB_SUBFR],
        ..DecoderControl::default()
    };
    let mut xq = vec![0i16; n];
    let mut exc = vec![0i32; n];
    decode_core(
        &mut state,
        &mut ctrl,
        &indices_v,
        &pulses,
        &mut xq,
        &mut exc,
        &frame,
        3,
        TYPE_VOICED,
        99,
    );
    assert_eq!(ctrl.pitch_l, [31, 32, 33, 34]);
}

#[test]
fn update_out_buf_slides_and_appends() {
    let mut st = SynthesisState::default();
    for (i, v) in st.out_buf.iter_mut().enumerate() {
        *v = (i as i16).wrapping_mul(3) - 1000;
    }
    let before: Vec<i16> = st.out_buf.to_vec();
    let ltp_mem = 240;
    let xq: Vec<i16> = (0..80).map(|i| 5000 + i as i16).collect();
    st.update_out_buf(&xq, ltp_mem);
    assert_eq!(&st.out_buf[..ltp_mem - 80], &before[80..ltp_mem]);
    assert_eq!(&st.out_buf[ltp_mem - 80..ltp_mem], &xq[..]);

    assert_eq!(&st.out_buf[ltp_mem..], &before[ltp_mem..]);

    let xq_full: Vec<i16> = (0..ltp_mem).map(|i| -7 - i as i16).collect();
    st.update_out_buf(&xq_full, ltp_mem);
    assert_eq!(&st.out_buf[..ltp_mem], &xq_full[..]);
}

#[test]
fn default_state_is_reset_state() {
    let mut st = SynthesisState::default();
    assert_eq!(st.prev_gain_q16, 65536);
    assert!(st.s_lpc_q14_buf == [0; MAX_LPC_ORDER]);
    assert!(st.out_buf == [0; MAX_FRAME_LENGTH + 2 * MAX_SUB_FRAME_LENGTH]);
    st.prev_gain_q16 = 1;
    st.reset();
    assert_eq!(st.prev_gain_q16, 65536);
}

#[test]
fn frame_info_geometry() {
    let f = FrameInfo::new(8, 4);
    assert_eq!(
        (
            f.subfr_length,
            f.frame_length(),
            f.lpc_order,
            f.ltp_mem_length
        ),
        (40, 160, 10, 160)
    );
    let f = FrameInfo::new(12, 2);
    assert_eq!(
        (
            f.subfr_length,
            f.frame_length(),
            f.lpc_order,
            f.ltp_mem_length
        ),
        (60, 120, 10, 240)
    );
    let f = FrameInfo::new(16, 4);
    assert_eq!(
        (
            f.subfr_length,
            f.frame_length(),
            f.lpc_order,
            f.ltp_mem_length
        ),
        (80, 320, 16, 320)
    );
}

#[test]
fn never_panics_on_garbage() {
    let mut rng = XorShift(0xAB1E_C0DE);
    for &fs_khz in &[8u32, 12, 16] {
        for nb_subfr in [2usize, 4] {
            let frame = FrameInfo::new(fs_khz, nb_subfr);
            let n = frame.frame_length();
            let mut state = SynthesisState::default();
            for frame_no in 0..4 {
                let mut ctrl = DecoderControl {
                    ltp_scale_q14: 15565,
                    ..DecoderControl::default()
                };

                for g in ctrl.gains_q16.iter_mut() {
                    *g = 81920 + (rng.next_u32() % (1 << 26)) as i32;
                }
                for p in ctrl.pitch_l.iter_mut() {
                    *p = (rng.next_u32() % (18 * fs_khz)) as i32;
                }
                for v in ctrl.pred_coef_q12.iter_mut().flatten() {
                    *v = rng.next_u32() as i16;
                }
                for v in ctrl.ltp_coef_q14.iter_mut() {
                    *v = rng.next_u32() as i16;
                }
                let indices = SideInfoIndices {
                    signal_type: (rng.next_u32() % 3) as i8,
                    quant_offset_type: (rng.next_u32() % 2) as i8,
                    nlsf_interp_coef_q2: (rng.next_u32() % 5) as i8,
                    seed: (rng.next_u32() % 4) as i8,
                    ..SideInfoIndices::default()
                };
                let pulses: Vec<i16> = (0..n).map(|_| rng.next_u32() as i16).collect();
                let mut xq = vec![0i16; n];
                let mut exc = vec![0i32; n];
                let loss_cnt = if frame_no % 2 == 0 { 0 } else { 5 };
                let prev_signal_type = (rng.next_u32() % 3) as i8;
                let lag_prev = (rng.next_u32() % (18 * fs_khz)) as i32;
                decode_core(
                    &mut state,
                    &mut ctrl,
                    &indices,
                    &pulses,
                    &mut xq,
                    &mut exc,
                    &frame,
                    loss_cnt,
                    prev_signal_type,
                    lag_prev,
                );
                state.update_out_buf(&xq, frame.ltp_mem_length);
            }
        }
    }
}
