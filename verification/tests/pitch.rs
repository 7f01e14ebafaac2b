//! Pitch lags and long-term filters.
use cadence::decode_indices::MAX_NB_SUBFR;
use cadence::error::{CadenceError, Corruption};
use cadence::pitch::{decode_pitch, ltp_coefs_q14, ltp_scale_q14};
use cadence::synthesis::LTP_ORDER;

const CONTOUR_NB_20_MS: &[&[i8]] = &[
    &[0, 0, 0, 0],
    &[2, 1, 0, -1],
    &[-1, 0, 1, 2],
    &[-1, 0, 0, 1],
    &[-1, 0, 0, 0],
    &[0, 0, 0, 1],
    &[0, 0, 1, 1],
    &[1, 1, 0, 0],
    &[1, 0, 0, 0],
    &[0, 0, 0, -1],
    &[1, 0, 0, -1],
];
const CONTOUR_NB_10_MS: &[&[i8]] = &[&[0, 0], &[1, 0], &[0, 1]];
const CONTOUR_MB_WB_20_MS: &[&[i8]] = &[
    &[0, 0, 0, 0],
    &[0, 0, 1, 1],
    &[1, 1, 0, 0],
    &[-1, 0, 0, 0],
    &[0, 0, 0, 1],
    &[1, 0, 0, 0],
    &[-1, 0, 0, 1],
    &[0, 0, 0, -1],
    &[-1, 0, 1, 2],
    &[1, 0, 0, -1],
    &[-2, -1, 1, 2],
    &[2, 1, 0, -1],
    &[-2, 0, 0, 2],
    &[-2, 0, 1, 3],
    &[2, 1, -1, -2],
    &[-3, -1, 1, 3],
    &[2, 0, 0, -2],
    &[3, 1, 0, -2],
    &[-3, -1, 2, 4],
    &[-4, -1, 1, 4],
    &[3, 1, -1, -3],
    &[-4, -1, 2, 5],
    &[4, 2, -1, -3],
    &[4, 1, -1, -4],
    &[-5, -1, 2, 6],
    &[5, 2, -1, -4],
    &[-6, -2, 2, 6],
    &[-5, -2, 2, 5],
    &[6, 2, -1, -5],
    &[-7, -2, 3, 8],
    &[6, 2, -2, -6],
    &[5, 2, -2, -5],
    &[8, 3, -2, -7],
    &[-9, -3, 3, 9],
];
const CONTOUR_MB_WB_10_MS: &[&[i8]] = &[
    &[0, 0],
    &[0, 1],
    &[1, 0],
    &[-1, 1],
    &[1, -1],
    &[-1, 2],
    &[2, -1],
    &[-2, 2],
    &[2, -2],
    &[-2, 3],
    &[3, -2],
    &[-3, 3],
];

fn expected_lags(
    lag_index: i16,
    contour_index: usize,
    fs_khz: u32,
    nb_subfr: usize,
) -> [i32; MAX_NB_SUBFR] {
    let table: &[&[i8]] = match (fs_khz, nb_subfr) {
        (8, 4) => CONTOUR_NB_20_MS,
        (8, 2) => CONTOUR_NB_10_MS,
        (_, 4) => CONTOUR_MB_WB_20_MS,
        (_, 2) => CONTOUR_MB_WB_10_MS,
        _ => unreachable!(),
    };
    let lag_min = 2 * fs_khz as i32;
    let lag_max = 18 * fs_khz as i32;
    let lag = lag_min + i32::from(lag_index);
    let mut lags = [0; MAX_NB_SUBFR];
    for (k, out) in lags.iter_mut().enumerate().take(nb_subfr) {
        *out = (lag + i32::from(table[contour_index][k])).clamp(lag_min, lag_max);
    }
    lags
}

#[test]
fn decode_pitch_matches_rfc_oracle_exhaustively() {
    let configs: [(u32, usize, usize); 4] = [
        (8, MAX_NB_SUBFR, CONTOUR_NB_20_MS.len()),
        (8, MAX_NB_SUBFR / 2, CONTOUR_NB_10_MS.len()),
        (12, MAX_NB_SUBFR, CONTOUR_MB_WB_20_MS.len()),
        (16, MAX_NB_SUBFR / 2, CONTOUR_MB_WB_10_MS.len()),
    ];
    for (fs_khz, nb_subfr, n_contours) in configs {
        let mult = fs_khz >> 1;
        let max_reachable = 31 * mult + mult - 1;
        let lag_sweep = (-300..=max_reachable as i32 + 300).map(|l| l as i16);
        for lag_index in lag_sweep {
            for contour in 0..n_contours {
                let mut lags = [i32::MIN; MAX_NB_SUBFR];
                decode_pitch(lag_index, contour as i8, &mut lags, fs_khz, nb_subfr).unwrap();
                let expected = expected_lags(lag_index, contour, fs_khz, nb_subfr);

                assert_eq!(
                    &lags[..nb_subfr],
                    &expected[..nb_subfr],
                    "fs {fs_khz}, nb_subfr {nb_subfr}, lag_index {lag_index}, contour {contour}"
                );
            }
        }
    }
}

#[test]
fn decode_pitch_clamps_to_search_range() {
    for fs_khz in [8u32, 12, 16] {
        let (min_lag, max_lag) = (2 * fs_khz as i32, 18 * fs_khz as i32);
        for lag_index in [i16::MIN, -1000, i16::MAX / 2, i16::MAX - 1] {
            let mut lags = [0; MAX_NB_SUBFR];
            decode_pitch(lag_index, 0, &mut lags, fs_khz, MAX_NB_SUBFR).unwrap();
            assert!(lags[..MAX_NB_SUBFR]
                .iter()
                .all(|&l| (min_lag..=max_lag).contains(&l)));
            assert!(lags[..MAX_NB_SUBFR]
                .iter()
                .all(|&l| l == min_lag || l == max_lag));
        }

        let mut lags = [0; MAX_NB_SUBFR];
        decode_pitch(0, 0, &mut lags, fs_khz, MAX_NB_SUBFR).unwrap();
        assert_eq!(lags, [min_lag; MAX_NB_SUBFR]);
    }
}

#[test]
fn decode_pitch_hand_traced_nb_20ms() {
    let mut lags = [0; MAX_NB_SUBFR];
    let lag_index = 10 * 4 + 3;
    decode_pitch(lag_index, 1, &mut lags, 8, MAX_NB_SUBFR).unwrap();
    assert_eq!(lags, [16 + 43 + 2, 16 + 43 + 1, 16 + 43, 16 + 43 - 1]);
}

#[test]
fn decode_pitch_10ms_writes_only_two_subframes() {
    let mut lags = [-1; MAX_NB_SUBFR];
    decode_pitch(50, 1, &mut lags, 16, MAX_NB_SUBFR / 2).unwrap();

    assert_eq!(&lags[..2], &[82, 83]);
    assert_eq!(&lags[2..], &[-1; 2]);
}

#[test]
fn ltp_coefs_q14_matches_rfc_codebooks_exhaustively() {
    const TAPS_0: [[i8; 5]; 8] = [
        [4, 6, 24, 7, 5],
        [0, 0, 2, 0, 0],
        [12, 28, 41, 13, -4],
        [-9, 15, 42, 25, 14],
        [1, -2, 62, 41, -9],
        [-10, 37, 65, -4, 3],
        [-6, 4, 66, 7, -8],
        [16, 14, 38, -3, 33],
    ];
    const TAPS_1: [[i8; 5]; 16] = [
        [13, 22, 39, 23, 12],
        [-1, 36, 64, 27, -6],
        [-7, 10, 55, 43, 17],
        [1, 1, 8, 1, 1],
        [6, -11, 74, 53, -9],
        [-12, 55, 76, -12, 8],
        [-3, 3, 93, 27, -4],
        [26, 39, 59, 3, -8],
        [2, 0, 77, 11, 9],
        [-8, 22, 44, -6, 7],
        [40, 9, 26, 3, 9],
        [-7, 20, 101, -7, 4],
        [3, -8, 42, 26, 0],
        [-15, 33, 68, 2, 23],
        [-2, 55, 46, -2, 15],
        [3, -1, 21, 16, 41],
    ];
    const TAPS_2: [[i8; 5]; 32] = [
        [-6, 27, 61, 39, 5],
        [-11, 42, 88, 4, 1],
        [-2, 60, 65, 6, -4],
        [-1, -5, 73, 56, 1],
        [-9, 19, 94, 29, -9],
        [0, 12, 99, 6, 4],
        [8, -19, 102, 46, -13],
        [3, 2, 13, 3, 2],
        [9, -21, 84, 72, -18],
        [-11, 46, 104, -22, 8],
        [18, 38, 48, 23, 0],
        [-16, 70, 83, -21, 11],
        [5, -11, 117, 22, -8],
        [-6, 23, 117, -12, 3],
        [3, -8, 95, 28, 4],
        [-10, 15, 77, 60, -15],
        [-1, 4, 124, 2, -4],
        [3, 38, 84, 24, -25],
        [2, 13, 42, 13, 31],
        [21, -4, 56, 46, -1],
        [-1, 35, 79, -13, 19],
        [-7, 65, 88, -9, -14],
        [20, 4, 81, 49, -29],
        [20, 0, 75, 3, -17],
        [5, -9, 44, 92, -8],
        [1, -3, 22, 69, 31],
        [-6, 95, 41, -12, 5],
        [39, 67, 16, -4, 1],
        [0, -6, 120, 55, -36],
        [-13, 44, 122, 4, -24],
        [81, 5, 11, 3, 7],
        [2, 0, 9, 10, 88],
    ];
    let codebooks: [(i8, &[[i8; 5]]); 3] = [(0, &TAPS_0), (1, &TAPS_1), (2, &TAPS_2)];
    for (per_index, taps) in codebooks {
        for (ix, taps) in taps.iter().enumerate() {
            let mut coefs = [0i16; MAX_NB_SUBFR * LTP_ORDER];
            let ltp_index = [ix as i8; MAX_NB_SUBFR];
            ltp_coefs_q14(per_index, &ltp_index, &mut coefs, MAX_NB_SUBFR);
            for k in 0..MAX_NB_SUBFR {
                for i in 0..LTP_ORDER {
                    let expected = (taps[i] as i32) << 7;
                    assert_eq!(
                        coefs[k * LTP_ORDER + i] as i32,
                        expected,
                        "per {per_index}, ix {ix}, subframe {k}, tap {i}"
                    );
                }
            }
        }
    }
}

#[test]
fn ltp_coefs_q14_10ms_leaves_tail_untouched() {
    let mut coefs = [7777i16; MAX_NB_SUBFR * LTP_ORDER];
    let ltp_index = [3, 7, 0, 0];
    ltp_coefs_q14(1, &ltp_index, &mut coefs, MAX_NB_SUBFR / 2);

    assert_eq!(&coefs[..LTP_ORDER], &[128, 128, 1024, 128, 128]);
    assert_eq!(
        &coefs[LTP_ORDER..2 * LTP_ORDER],
        &[3328, 4992, 7552, 384, -1024]
    );
    assert_eq!(&coefs[2 * LTP_ORDER..], &[7777; 2 * LTP_ORDER]);
}

#[test]
fn ltp_scale_q14_rfc_values() {
    assert_eq!(ltp_scale_q14(0), 15565);
    assert_eq!(ltp_scale_q14(1), 12288);
    assert_eq!(ltp_scale_q14(2), 8192);
}

#[test]
fn decode_pitch_rejects_unsupported_fs_khz() {
    let mut lags = [0; MAX_NB_SUBFR];
    let err = decode_pitch(0, 0, &mut lags, 24, MAX_NB_SUBFR).unwrap_err();
    assert!(err.message().contains("sample rate"));
    assert_eq!(err, CadenceError::CorruptData(Corruption::InternalRateKhz(24)));
}
