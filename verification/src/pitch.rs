//! Pitch lags and long-term prediction filters.
//!
//! The lag of a voiced frame counts samples above 2 ms. Each subframe's lag
//! is that lag plus an offset of the contour codebook of the rate and the
//! frame length, kept between 2 and 18 ms. The five taps of each subframe's
//! predictor stand in one of three codebooks.
use crate::error::{CadenceError, Corruption, Result};
use crate::sigproc::{smulbb, smulbb_spec};
use crate::synthesis::{valid_fs, valid_nb};
use crate::tables::{
    CB_LAGS_STAGE2, CB_LAGS_STAGE2_10_MS, CB_LAGS_STAGE3, CB_LAGS_STAGE3_10_MS, LTPSCALES_TABLE_Q14,
    LTP_VQ_0_Q7, LTP_VQ_1_Q7, LTP_VQ_2_Q7,
};
use vstd::prelude::*;

verus! {

/// Shortest and longest lag in milliseconds.
pub const PE_MIN_LAG_MS: i32 = 2;

pub const PE_MAX_LAG_MS: i32 = 18;

/// Number of contours of a rate and a frame length.
pub open spec fn contour_count(fs_khz: int, nb_subfr: int) -> int {
    if fs_khz == 8 {
        if nb_subfr == 4 {
            11
        } else {
            3
        }
    } else if nb_subfr == 4 {
        34
    } else {
        12
    }
}

/// Offset of subframe `k` in a contour.
pub open spec fn contour_offset_spec(fs_khz: int, nb_subfr: int, contour: int, k: int) -> i8 {
    if fs_khz == 8 {
        if nb_subfr == 4 {
            CB_LAGS_STAGE2@[k]@[contour]
        } else {
            CB_LAGS_STAGE2_10_MS@[k]@[contour]
        }
    } else if nb_subfr == 4 {
        CB_LAGS_STAGE3@[k]@[contour]
    } else {
        CB_LAGS_STAGE3_10_MS@[k]@[contour]
    }
}

/// The lag of subframe `k`.
pub open spec fn lag_spec(
    lag_index: int,
    contour: int,
    fs_khz: int,
    nb_subfr: int,
    k: int,
) -> int {
    let lag = 2 * fs_khz + lag_index + contour_offset_spec(fs_khz, nb_subfr, contour, k);
    if lag < 2 * fs_khz {
        2 * fs_khz
    } else if lag > 18 * fs_khz {
        18 * fs_khz
    } else {
        lag
    }
}

/// The lags after decoding: those of the first `nb_subfr` subframes are new.
pub open spec fn lags_spec(
    lags: Seq<i32>,
    lag_index: int,
    contour: int,
    fs_khz: int,
    nb_subfr: int,
) -> Seq<i32> {
    Seq::new(
        lags.len(),
        |k: int|
            if k < nb_subfr {
                lag_spec(lag_index, contour, fs_khz, nb_subfr, k) as i32
            } else {
                lags[k]
            },
    )
}

/// Reconstructs the lags of a frame in samples.
pub fn decode_pitch(
    lag_index: i16,
    contour_index: i8,
    pitch_lags: &mut [i32; 4],
    fs_khz: u32,
    nb_subfr: usize,
) -> (r: Result<()>)
    requires
        valid_nb(nb_subfr as int),
        valid_fs(fs_khz as int) ==> 0 <= contour_index < contour_count(
            fs_khz as int,
            nb_subfr as int,
        ),
    ensures
        r is Ok <==> valid_fs(fs_khz as int),
        r is Err ==> r->Err_0 == CadenceError::CorruptData(Corruption::InternalRateKhz(fs_khz))
            && final(pitch_lags)@ == old(pitch_lags)@,
        r is Ok ==> final(pitch_lags)@ == lags_spec(
            old(pitch_lags)@,
            lag_index as int,
            contour_index as int,
            fs_khz as int,
            nb_subfr as int,
        ),
        r is Ok ==> forall|k: int|
            0 <= k < nb_subfr ==> 2 * fs_khz <= #[trigger] final(pitch_lags)@[k] <= 18 * fs_khz,
{
    if fs_khz != 8 && fs_khz != 12 && fs_khz != 16 {
        return Err(CadenceError::CorruptData(Corruption::InternalRateKhz(fs_khz)));
    }
    proof {
        reveal(smulbb_spec);
    }
    let ci: usize = contour_index as usize;
    let min_lag: i32 = smulbb(PE_MIN_LAG_MS, fs_khz as i32);
    let max_lag: i32 = smulbb(PE_MAX_LAG_MS, fs_khz as i32);
    assert(min_lag == 2 * fs_khz && max_lag == 18 * fs_khz);
    let lag: i32 = min_lag + lag_index as i32;
    let mut k: usize = 0;
    while k < nb_subfr
        invariant
            valid_nb(nb_subfr as int),
            valid_fs(fs_khz as int),
            k <= nb_subfr,
            ci == contour_index,
            0 <= contour_index < contour_count(fs_khz as int, nb_subfr as int),
            min_lag == 2 * fs_khz,
            max_lag == 18 * fs_khz,
            lag == min_lag + lag_index,
            forall|i: int|
                0 <= i < k ==> #[trigger] pitch_lags@[i] == lag_spec(
                    lag_index as int,
                    contour_index as int,
                    fs_khz as int,
                    nb_subfr as int,
                    i,
                ),
            forall|i: int| k <= i < 4 ==> #[trigger] pitch_lags@[i] == old(pitch_lags)@[i],
        decreases nb_subfr - k,
    {
        let offset: i8 = if fs_khz == 8 {
            if nb_subfr == 4 {
                CB_LAGS_STAGE2[k][ci]
            } else {
                CB_LAGS_STAGE2_10_MS[k][ci]
            }
        } else if nb_subfr == 4 {
            CB_LAGS_STAGE3[k][ci]
        } else {
            CB_LAGS_STAGE3_10_MS[k][ci]
        };
        let moved: i32 = lag + offset as i32;
        pitch_lags[k] = if moved < min_lag {
            min_lag
        } else if moved > max_lag {
            max_lag
        } else {
            moved
        };
        k = k + 1;
    }
    assert(pitch_lags@ =~= lags_spec(
        old(pitch_lags)@,
        lag_index as int,
        contour_index as int,
        fs_khz as int,
        nb_subfr as int,
    ));
    Ok(())
}

/// Number of filters in a codebook.
pub open spec fn ltp_count(per_index: int) -> int {
    if per_index == 0 {
        8
    } else if per_index == 1 {
        16
    } else {
        32
    }
}

/// Tap `i` of a filter in Q7.
pub open spec fn ltp_tap_spec(per_index: int, ix: int, i: int) -> i8 {
    if per_index == 0 {
        LTP_VQ_0_Q7@[ix]@[i]
    } else if per_index == 1 {
        LTP_VQ_1_Q7@[ix]@[i]
    } else {
        LTP_VQ_2_Q7@[ix]@[i]
    }
}

/// The taps after decoding, five for each subframe: those of the first
/// `nb_subfr` subframes are new.
pub open spec fn ltp_coefs_spec(
    coefs: Seq<i16>,
    per_index: int,
    ltp_index: Seq<i8>,
    nb_subfr: int,
) -> Seq<i16> {
    Seq::new(
        coefs.len(),
        |j: int|
            if j < 5 * nb_subfr {
                (128 * ltp_tap_spec(per_index, ltp_index[j / 5] as int, j % 5)) as i16
            } else {
                coefs[j]
            },
    )
}

/// Looks up the predictor taps of a frame, in Q14.
pub fn ltp_coefs_q14(
    per_index: i8,
    ltp_index: &[i8; 4],
    ltp_coefs_q14: &mut [i16; 20],
    nb_subfr: usize,
)
    requires
        valid_nb(nb_subfr as int),
        0 <= per_index <= 2,
        forall|k: int|
            0 <= k < nb_subfr ==> 0 <= #[trigger] ltp_index@[k] < ltp_count(per_index as int),
    ensures
        final(ltp_coefs_q14)@ == ltp_coefs_spec(
            old(ltp_coefs_q14)@,
            per_index as int,
            ltp_index@,
            nb_subfr as int,
        ),
{
    let mut j: usize = 0;
    while j < 5 * nb_subfr
        invariant
            valid_nb(nb_subfr as int),
            0 <= per_index <= 2,
            j <= 5 * nb_subfr,
            forall|k: int|
                0 <= k < nb_subfr ==> 0 <= #[trigger] ltp_index@[k] < ltp_count(per_index as int),
            forall|i: int|
                0 <= i < j ==> #[trigger] ltp_coefs_q14@[i] == (128 * ltp_tap_spec(
                    per_index as int,
                    ltp_index@[i / 5] as int,
                    i % 5,
                )) as i16,
            forall|i: int| j <= i < 20 ==> #[trigger] ltp_coefs_q14@[i] == old(ltp_coefs_q14)@[i],
        decreases 5 * nb_subfr - j,
    {
        let k: usize = j / 5;
        let i: usize = j % 5;
        assert(0 <= ltp_index@[k as int] < ltp_count(per_index as int));
        let ix: usize = ltp_index[k] as usize;
        let tap: i8 = if per_index == 0 {
            LTP_VQ_0_Q7[ix][i]
        } else if per_index == 1 {
            LTP_VQ_1_Q7[ix][i]
        } else {
            LTP_VQ_2_Q7[ix][i]
        };
        ltp_coefs_q14[j] = (tap as i16) * 128;
        j = j + 1;
    }
    assert(ltp_coefs_q14@ =~= ltp_coefs_spec(
        old(ltp_coefs_q14)@,
        per_index as int,
        ltp_index@,
        nb_subfr as int,
    ));
}

/// The scale of the long-term prediction in Q14.
pub fn ltp_scale_q14(ltp_scale_index: i8) -> (r: i16)
    requires
        0 <= ltp_scale_index <= 2,
    ensures
        r == LTPSCALES_TABLE_Q14@[ltp_scale_index as int],
{
    LTPSCALES_TABLE_Q14[ltp_scale_index as usize]
}

/// The lag of a subframe is the allowed one that is nearest to the frame's lag
/// plus the contour's offset.
pub proof fn lemma_lag_is_nearest(
    lag_index: int,
    contour: int,
    fs_khz: int,
    nb_subfr: int,
    k: int,
    other: int,
)
    requires
        fs_khz > 0,
        2 * fs_khz <= other <= 18 * fs_khz,
    ensures
        ({
            let lag = lag_spec(lag_index, contour, fs_khz, nb_subfr, k);
            let aim = 2 * fs_khz + lag_index + contour_offset_spec(fs_khz, nb_subfr, contour, k);
            &&& 2 * fs_khz <= lag <= 18 * fs_khz
            &&& aim <= lag ==> lag - aim <= (if other < aim {
                aim - other
            } else {
                other - aim
            })
            &&& aim >= lag ==> aim - lag <= (if other < aim {
                aim - other
            } else {
                other - aim
            })
        }),
{
}

/// The first contour is flat: every subframe has the frame's own lag.
pub proof fn lemma_flat_contour(lag_index: int, fs_khz: int, nb_subfr: int, k: int)
    requires
        valid_fs(fs_khz),
        valid_nb(nb_subfr),
        0 <= k < nb_subfr,
        0 <= lag_index <= 16 * fs_khz,
    ensures
        lag_spec(lag_index, 0, fs_khz, nb_subfr, k) == 2 * fs_khz + lag_index,
{
    assert(CB_LAGS_STAGE2@[k]@[0] == 0 || nb_subfr == 2 || fs_khz != 8);
    assert(CB_LAGS_STAGE2_10_MS@[k]@[0] == 0 || nb_subfr == 4 || fs_khz != 8);
    assert(CB_LAGS_STAGE3@[k]@[0] == 0 || nb_subfr == 2 || fs_khz == 8);
    assert(CB_LAGS_STAGE3_10_MS@[k]@[0] == 0 || nb_subfr == 4 || fs_khz == 8);
}

} // verus!
