//! Gains.
use cadence::decode_indices::MAX_NB_SUBFR;
use cadence::gains::{
    gains_dequant, log2lin, INV_SCALE_Q16, LAST_GAIN_INDEX_ON_PACKET_LOSS, LOG_GAIN_MAX_Q7,
    MAX_DELTA_GAIN_QUANT, MIN_DELTA_GAIN_QUANT, N_LEVELS_QGAIN, OFFSET, SCALE_Q16,
};
use cadence::sigproc::{smlawb, smulwb};

struct XorShift(u32);

impl XorShift {
    fn next_u32(&mut self) -> u32 {
        let mut x = self.0;
        x ^= x << 13;
        x ^= x >> 17;
        x ^= x << 5;
        self.0 = x;
        x
    }

    fn below(&mut self, n: u32) -> u32 {
        self.next_u32() % n
    }
}

const LOWEST_GAIN_Q16: i32 = 81920;
const HIGHEST_GAIN_Q16: i32 = 1686110208;

fn absolute_level(gain_index: i32, previous: i32) -> i32 {
    gain_index.max(previous - 16)
}

fn delta_level(delta_gain_index: i32, previous: i32) -> i32 {
    (2 * delta_gain_index - 16)
        .max(previous + delta_gain_index - 4)
        .clamp(0, N_LEVELS_QGAIN - 1)
}

fn level_gain_q16(log_gain: i32) -> i32 {
    let in_log = (((0x1D1C71u32 as i64) * log_gain as i64) >> 16) as i32 + OFFSET;
    let i = in_log >> 7;
    let f = in_log & 127;
    let t = ((-174 * f * (128 - f)) >> 16) + f;
    (1 << i) + t * ((1 << i) >> 7)
}

fn dequant_one(ind0: i8, prev: i8, conditional: bool) -> (i8, i32) {
    let ind = [ind0, 4, 0, 0];
    let mut gain = [0i32; MAX_NB_SUBFR];
    let mut prev = prev;
    gains_dequant(&mut gain, &ind, &mut prev, conditional, 2);
    (prev, gain[0])
}

#[test]
fn delta_path_matches_rfc_formula_exhaustively() {
    for prev in 0..N_LEVELS_QGAIN {
        for delta_symbol in 0..=40i32 {
            let (prev_out, gain) = dequant_one(delta_symbol as i8, prev as i8, true);
            let expected_log = delta_level(delta_symbol, prev);
            assert_eq!(
                i32::from(prev_out),
                expected_log,
                "prev {prev}, delta {delta_symbol}"
            );
            assert_eq!(
                gain,
                level_gain_q16(expected_log),
                "prev {prev}, delta {delta_symbol}"
            );
        }
    }
}

#[test]
fn absolute_path_matches_rfc_formula_exhaustively() {
    for prev in 0..N_LEVELS_QGAIN {
        for index in 0..N_LEVELS_QGAIN {
            let (prev_out, gain) = dequant_one(index as i8, prev as i8, false);
            let expected_log = absolute_level(index, prev);
            assert_eq!(
                i32::from(prev_out),
                expected_log,
                "prev {prev}, index {index}"
            );
            assert_eq!(
                gain,
                level_gain_q16(expected_log),
                "prev {prev}, index {index}"
            );
        }
    }
}

#[test]
fn log2lin_endpoints_and_sentinels() {
    assert_eq!(log2lin(2090), LOWEST_GAIN_Q16);
    assert_eq!(log2lin(3923), HIGHEST_GAIN_Q16);

    assert_eq!(log2lin(-1), 0);
    assert_eq!(log2lin(LOG_GAIN_MAX_Q7), i32::MAX);
    assert_eq!(log2lin(i32::MAX), i32::MAX);

    assert_eq!(log2lin(LOG_GAIN_MAX_Q7 - 1), 2122317824);

    assert_eq!(log2lin(0), 1);
    assert_eq!(log2lin(128), 2);
    assert_eq!(log2lin(15 * 128), 1 << 15);
    assert_eq!(log2lin(2048), 1 << 16);
}

#[test]
fn log2lin_monotonic_and_close_to_exact_exponential() {
    let mut prev = 0;
    for x in 0..LOG_GAIN_MAX_Q7 {
        let out = log2lin(x);
        assert!(out >= prev, "not monotonic at {x}");
        prev = out;

        if x >= 896 {
            let exact = 2.0f64.powf(x as f64 / 128.0);
            let rel_err = (out as f64 / exact - 1.0).abs();
            assert!(
                rel_err < 0.01,
                "{x}: {out} vs exact {exact} (rel err {rel_err})"
            );
        }
    }
}

#[test]
fn gains_stay_within_rfc_bounds_for_all_states() {
    let mut gain = [0i32; MAX_NB_SUBFR];
    for prev in 0..N_LEVELS_QGAIN {
        let mut prev_ind = prev as i8;
        let ind = [40, 40, 40, 40];
        gains_dequant(&mut gain, &ind, &mut prev_ind, false, MAX_NB_SUBFR);
        for g in gain.iter() {
            assert!((LOWEST_GAIN_Q16..=HIGHEST_GAIN_Q16).contains(g));
        }
    }
    let mut prev_ind = 0i8;
    let ind = [0; MAX_NB_SUBFR];
    gains_dequant(&mut gain, &ind, &mut prev_ind, false, MAX_NB_SUBFR);
    assert_eq!(gain[..MAX_NB_SUBFR], [LOWEST_GAIN_Q16; MAX_NB_SUBFR]);
}

#[test]
fn hand_traced_reference_vectors() {
    let mut gain = [0i32; MAX_NB_SUBFR];
    let mut prev_ind = 63i8;

    let ind = [63, 0, 40, 20];
    gains_dequant(&mut gain, &ind, &mut prev_ind, false, MAX_NB_SUBFR);
    assert_eq!(prev_ind, 63);

    assert_eq!(gain[0], HIGHEST_GAIN_Q16);

    assert_eq!(gain[1], level_gain_q16(59));

    assert_eq!(gain[2], HIGHEST_GAIN_Q16);

    assert_eq!(gain[3], HIGHEST_GAIN_Q16);

    let mut prev_ind = 0i8;
    let ind = [40, 4, 0, 0];
    gains_dequant(&mut gain, &ind, &mut prev_ind, true, 2);
    assert_eq!(prev_ind, 63);
    assert_eq!(gain[0], HIGHEST_GAIN_Q16);

    let (prev_out, _) = dequant_one(32, 20, true);
    assert_eq!(prev_out, 48);
    let (prev_out, _) = dequant_one(33, 20, true);
    assert_eq!(prev_out, 50);
}

#[test]
fn inter_frame_clamp_path_dependence() {
    let (prev_out, _) = dequant_one(0, 63, false);
    assert_eq!(prev_out, 47);
    let (prev_out, _) = dequant_one(0, 63, true);
    assert_eq!(prev_out, 59);

    let (prev_out, gain) = dequant_one(0, LAST_GAIN_INDEX_ON_PACKET_LOSS, false);
    assert_eq!(prev_out, 0);
    assert_eq!(gain, LOWEST_GAIN_Q16);
}

#[test]
fn multi_subframe_chaining_and_nb_subfr_scoping() {
    let ind = [30, 5, 40, 10];
    let mut prev_ind = 10i8;
    let mut gain = [-1i32; MAX_NB_SUBFR];
    gains_dequant(&mut gain, &ind, &mut prev_ind, true, 4);

    let mut expected_prev = 10i32;
    let mut expected = [0i32; MAX_NB_SUBFR];
    for k in 0..4 {
        expected_prev = delta_level(ind[k] as i32, expected_prev);
        expected[k] = level_gain_q16(expected_prev);
    }
    assert_eq!(prev_ind as i32, expected_prev);
    assert_eq!(gain, expected);

    let mut prev_ind = 10i8;
    let mut gain = [-1i32; MAX_NB_SUBFR];
    let ind = [20, 20, 99, 99];
    gains_dequant(&mut gain, &ind, &mut prev_ind, false, 2);
    assert_eq!(gain[2], -1);
    assert_eq!(gain[3], -1);

    assert_eq!(prev_ind, 36);
    assert_eq!(gain[0], level_gain_q16(20));
    assert_eq!(gain[1], level_gain_q16(36));
}

#[test]
fn total_over_adversarial_symbols() {
    let mut gain = [0i32; MAX_NB_SUBFR];
    for &conditional in &[false, true] {
        for symbol in i8::MIN..=i8::MAX {
            for prev in [0i8, 10, 63] {
                let ind = [symbol, symbol.wrapping_add(7), 40, -100];
                let mut prev_ind = prev;
                gains_dequant(&mut gain, &ind, &mut prev_ind, conditional, 4);
                assert!((0..=63).contains(&prev_ind));
                for g in gain.iter() {
                    assert!((LOWEST_GAIN_Q16..=HIGHEST_GAIN_Q16).contains(g));
                }
            }
        }
    }
}

fn lin2log(in_lin: i32) -> i32 {
    assert!(in_lin > 0);
    let lz = in_lin.leading_zeros() as i32;
    let frac_q7 = ((in_lin << lz) >> 24) & 0x7f;
    smlawb(frac_q7, frac_q7 * (128 - frac_q7), 179) + ((31 - lz) << 7)
}

fn gains_quant(
    ind: &mut [i8; MAX_NB_SUBFR],
    gain_q16: &mut [i32; MAX_NB_SUBFR],
    prev_ind: &mut i8,
    conditional: bool,
    nb_subfr: usize,
) {
    let mut prev = i32::from(*prev_ind);
    for k in 0..nb_subfr {
        let mut ix = smulwb(SCALE_Q16, lin2log(gain_q16[k]) - OFFSET);

        if ix < prev {
            ix += 1;
        }
        ix = ix.clamp(0, N_LEVELS_QGAIN - 1);

        if k == 0 && !conditional {
            ix = ix.clamp(prev + MIN_DELTA_GAIN_QUANT, N_LEVELS_QGAIN - 1);
            prev = ix;
        } else {
            ix -= prev;

            let double_step_size_threshold = 2 * MAX_DELTA_GAIN_QUANT - N_LEVELS_QGAIN + prev;
            if ix > double_step_size_threshold {
                ix = double_step_size_threshold + ((ix - double_step_size_threshold + 1) >> 1);
            }
            ix = ix.clamp(MIN_DELTA_GAIN_QUANT, MAX_DELTA_GAIN_QUANT);

            if ix > double_step_size_threshold {
                prev = (prev + ix * 2 - double_step_size_threshold).min(N_LEVELS_QGAIN - 1);
            } else {
                prev += ix;
            }

            ix -= MIN_DELTA_GAIN_QUANT;
        }

        ind[k] = ix as i8;

        gain_q16[k] = log2lin((smulwb(INV_SCALE_Q16, prev) + OFFSET).min(LOG_GAIN_MAX_Q7));
    }
    *prev_ind = prev as i8;
}

#[test]
fn encoder_decoder_round_trip() {
    assert_eq!(lin2log(65536), 2048);
    assert_eq!(lin2log(1 << 17), 2176);

    assert_eq!(lin2log(81920), 2088);

    let mut rng = XorShift(0x5EED_1A17);
    for _ in 0..200 {
        let nb_subfr = if rng.below(2) == 0 {
            MAX_NB_SUBFR
        } else {
            MAX_NB_SUBFR / 2
        };
        let conditional = rng.below(2) == 1;
        let mut prev_ind = rng.below(N_LEVELS_QGAIN as u32) as i8;
        let mut gain = [0i32; MAX_NB_SUBFR];
        for g in gain.iter_mut().take(nb_subfr) {
            *g = LOWEST_GAIN_Q16
                + (rng.next_u32() as i64 % ((HIGHEST_GAIN_Q16 - LOWEST_GAIN_Q16) as i64))
                    as i32;
        }

        let initial_prev = prev_ind;
        let mut ind = [0i8; MAX_NB_SUBFR];
        gains_quant(&mut ind, &mut gain, &mut prev_ind, conditional, nb_subfr);
        let (quant_inds, quant_gains, quant_prev) = (ind, gain, prev_ind);

        let mut decoded_gain = [0i32; MAX_NB_SUBFR];
        let mut decoded_prev = initial_prev;
        gains_dequant(
            &mut decoded_gain,
            &quant_inds,
            &mut decoded_prev,
            conditional,
            nb_subfr,
        );

        assert_eq!(
            decoded_gain[..nb_subfr],
            quant_gains[..nb_subfr],
            "gains diverged (conditional={conditional})"
        );
        assert_eq!(decoded_prev, quant_prev);
        for symbol in quant_inds.iter().take(nb_subfr) {
            if conditional {
                assert!((0..=40).contains(symbol));
            }
        }
    }
}
