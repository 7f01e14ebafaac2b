//! Subframe gains.
//!
//! A gain is coded as one of 64 levels, uniform in the log domain from 2 to
//! 88 dB. The first subframe of an independently coded frame carries its
//! level, which may not fall more than 16 below the level before it; every
//! other subframe carries a step from the level before it, with the step
//! size doubled for large increases so that the top level stays in reach.
//! Levels become linear Q16 gains through a piece-wise parabolic power of
//! two.
use crate::sigproc::{
    lemma_shl_i32, lemma_smulwb_bound, smlawb, smulbb, smulbb_spec, smulwb,
};
use vstd::arithmetic::power2::{lemma2_to64, lemma_pow2_pos, lemma_pow2_strictly_increases, lemma_pow2_unfold, pow2};
use vstd::prelude::*;

verus! {

/// Number of gain levels.
pub const N_LEVELS_QGAIN: i32 = 64;

/// Largest and smallest step between levels.
pub const MAX_DELTA_GAIN_QUANT: i32 = 36;

pub const MIN_DELTA_GAIN_QUANT: i32 = -4;

/// Log gain of level 0 in Q7.
pub const OFFSET: i32 = 2090;

/// Levels per Q7 log gain, in Q16.
pub const SCALE_Q16: i32 = 2251;

/// Q7 log gain per level, in Q16.
pub const INV_SCALE_Q16: i32 = 1907825;

/// The log gain from which on the linear gain saturates.
pub const LOG_GAIN_MAX_Q7: i32 = 3967;

/// The level that stands for the last one after a lost packet: low enough
/// for the limit on falling levels not to apply.
pub const LAST_GAIN_INDEX_ON_PACKET_LOSS: i8 = 10;

/// The smallest and the largest gain of a level, in Q16.
pub const MIN_GAIN_Q16: i32 = 81920;

pub const MAX_GAIN_Q16: i32 = 1686110208;

/// The parabola between two powers of two, in Q7.
pub open spec fn parabola_spec(f: int) -> int {
    f + (f * (128 - f) * (-174)) / 65536
}

/// Two to the power of `x / 128`, approximately.
pub open spec fn log2lin_spec(x: int) -> int {
    if x < 0 {
        0
    } else if x >= LOG_GAIN_MAX_Q7 {
        i32::MAX as int
    } else {
        let octave = pow2((x / 128) as nat) as int;
        let c = parabola_spec(x % 128);
        if x < 2048 {
            octave + (octave * c) / 128
        } else {
            octave + (octave / 128) * c
        }
    }
}

/// The parabola rises from one sample to the next.
proof fn lemma_parabola_step(g: int)
    requires
        1 <= g < 128,
    ensures
        parabola_spec(g - 1) <= parabola_spec(g) <= g - 1,
{
    let r = g * (128 - g);
    let s = (g - 1) * (128 - (g - 1));
    assert(r - s == 129 - 2 * g) by (nonlinear_arith)
        requires
            r == g * (128 - g),
            s == (g - 1) * (128 - (g - 1)),
    ;
    assert(r >= 127) by (nonlinear_arith)
        requires
            r == g * (128 - g),
            1 <= g < 128,
    ;
}

/// The parabola rises from 0 to 126.
proof fn lemma_parabola(f: int, g: int)
    requires
        0 <= f <= g < 128,
    ensures
        0 <= parabola_spec(f) <= parabola_spec(g) <= 126,
    decreases g,
{
    if g == 0 {
        assert(0int * (128 - 0) == 0);
        assert(f * (128 - f) == 0) by (nonlinear_arith)
            requires
                f == 0,
        ;
    } else {
        lemma_parabola_step(g);
        if f == g {
            lemma_parabola(g - 1, g - 1);
        } else {
            lemma_parabola(f, g - 1);
        }
    }
}

/// The power of two of an octave below 31.
proof fn lemma_octave(n: nat)
    requires
        n < 31,
    ensures
        1 <= pow2(n) <= 0x4000_0000,
        pow2(n + 1) == 2 * pow2(n),
        n <= 15 ==> pow2(n) <= 0x8000,
        n >= 16 ==> pow2(n) as int % 128 == 0,
{
    lemma2_to64();
    lemma_pow2_pos(n);
    lemma_pow2_unfold(n + 1);
    if n < 30 {
        lemma_pow2_strictly_increases(n, 30);
    }
    if n < 15 {
        lemma_pow2_strictly_increases(n, 15);
    }
    if n >= 16 {
        vstd::arithmetic::power2::lemma_pow2_adds(7, (n - 7) as nat);
        vstd::arithmetic::div_mod::lemma_mod_multiples_basic(pow2((n - 7) as nat) as int, 128);
        assert(pow2((n - 7) as nat) * 128 == 128 * pow2((n - 7) as nat));
    }
}

/// One octave of the conversion: from its power of two to below the next.
proof fn lemma_within_octave(x: int)
    requires
        0 <= x < LOG_GAIN_MAX_Q7,
    ensures
        pow2((x / 128) as nat) <= log2lin_spec(x) <= 2 * pow2((x / 128) as nat),
{
    let p = pow2((x / 128) as nat) as int;
    let c = parabola_spec(x % 128);
    lemma_octave((x / 128) as nat);
    lemma_parabola(x % 128, x % 128);
    assert(0 <= p * c <= p * 128) by (nonlinear_arith)
        requires
            p >= 1,
            0 <= c <= 126,
    ;
    assert(0 <= (p / 128) * c <= (p / 128) * 128) by (nonlinear_arith)
        requires
            p / 128 >= 0,
            0 <= c <= 126,
    ;
}

/// A larger logarithm never gives a smaller number.
pub proof fn lemma_log2lin_monotone(x: int, y: int)
    requires
        x <= y,
    ensures
        0 <= log2lin_spec(x) <= log2lin_spec(y) <= i32::MAX,
    decreases y - x,
{
    if 0 <= x < LOG_GAIN_MAX_Q7 {
        lemma_within_octave(x);
        lemma_octave((x / 128) as nat);
    }
    if 0 <= y < LOG_GAIN_MAX_Q7 {
        lemma_within_octave(y);
        lemma_octave((y / 128) as nat);
        lemma_top(y);
    }
    if 0 <= x < LOG_GAIN_MAX_Q7 {
        lemma_top(x);
    }
    if 0 <= x && y < LOG_GAIN_MAX_Q7 {
        let m = x / 128;
        let n = y / 128;
        let p = pow2(m as nat) as int;
        if m == n {
            let c = parabola_spec(x % 128);
            let d = parabola_spec(y % 128);
            lemma_parabola(x % 128, y % 128);
            assert(p * c <= p * d && (p / 128) * c <= (p / 128) * d) by (nonlinear_arith)
                requires
                    p >= 1,
                    p / 128 >= 0,
                    c <= d,
            ;
            assert(x < 2048 <==> y < 2048);
        } else {
            if m + 1 < n {
                lemma_pow2_strictly_increases((m + 1) as nat, n as nat);
            }
            assert(pow2((m + 1) as nat) == 2 * p);
        }
    }
}

/// Below saturation the result fits.
proof fn lemma_top(x: int)
    requires
        0 <= x < LOG_GAIN_MAX_Q7,
    ensures
        0 <= log2lin_spec(x) <= i32::MAX,
{
    let p = pow2((x / 128) as nat) as int;
    let c = parabola_spec(x % 128);
    lemma_octave((x / 128) as nat);
    lemma_parabola(x % 128, x % 128);
    assert(0 <= p * c <= p * 126 && 0 <= (p / 128) * c <= (p / 128) * 126) by (nonlinear_arith)
        requires
            p >= 1,
            p / 128 >= 0,
            0 <= c <= 126,
    ;
}

/// Two to the power of `in_log_q7 / 128`, approximately; saturating at both
/// ends.
pub fn log2lin(in_log_q7: i32) -> (r: i32)
    ensures
        r == log2lin_spec(in_log_q7 as int),
{
    if in_log_q7 < 0 {
        return 0;
    }
    if in_log_q7 >= LOG_GAIN_MAX_Q7 {
        return i32::MAX;
    }
    let n: u32 = (in_log_q7 / 128) as u32;
    proof {
        lemma_octave(n as nat);
        lemma_shl_i32(1, n);
        assert(1 * pow2(n as nat) == pow2(n as nat));
    }
    let octave: i32 = 1i32 << n;
    let frac_q7: i32 = in_log_q7 % 128;
    let square: i32 = smulbb(frac_q7, 128 - frac_q7);
    let c: i32 = smlawb(frac_q7, square, -174);
    proof {
        let f = frac_q7 as int;
        assert(0 <= f * (128 - f) <= 127 * 128) by (nonlinear_arith)
            requires
                0 <= f < 128,
        ;
        assert(square == f * (128 - f)) by {
            reveal(smulbb_spec);
        }
        lemma_smulwb_bound(square, -174i32, 16256);
        lemma_parabola(f, f);
        assert(c == parabola_spec(f));
        lemma_top(in_log_q7 as int);
        assert(0 <= octave * c <= octave * 126 && 0 <= (octave as int / 128) * c <= (octave as int
            / 128) * 126) by (nonlinear_arith)
            requires
                octave >= 1,
                0 <= c <= 126,
        ;
    }
    if in_log_q7 < 2048 {
        octave + (octave * c) / 128
    } else {
        octave + (octave / 128) * c
    }
}

// ---------------------------------------------------------------------
// Levels
// ---------------------------------------------------------------------

pub open spec fn clamped_level(level: int) -> int {
    if level < 0 {
        0
    } else if level > 63 {
        63
    } else {
        level
    }
}

/// The level of an absolute index behind level `prev`.
pub open spec fn absolute_level_spec(index: int, prev: int) -> int {
    clamped_level(
        if index > prev - 16 {
            index
        } else {
            prev - 16
        },
    )
}

/// The level of a coded step behind level `prev`.
pub open spec fn delta_level_spec(delta: int, prev: int) -> int {
    clamped_level(
        if 2 * delta - 16 > prev + delta - 4 {
            2 * delta - 16
        } else {
            prev + delta - 4
        },
    )
}

/// The level of subframe `k - 1`, or `prev` in front of the first.
pub open spec fn level_spec(ind: Seq<i8>, prev: int, conditional: bool, k: int) -> int
    decreases k,
{
    if k <= 0 {
        prev
    } else if k == 1 && !conditional {
        absolute_level_spec(ind[0] as int, prev)
    } else {
        delta_level_spec(ind[k - 1] as int, level_spec(ind, prev, conditional, k - 1))
    }
}

/// The Q16 gain of a level.
pub open spec fn level_gain_spec(level: int) -> int {
    log2lin_spec((INV_SCALE_Q16 * level) / 65536 + OFFSET)
}

/// The gains after dequantization: those of the first `nb_subfr` subframes
/// are new.
pub open spec fn gains_spec(
    gains: Seq<i32>,
    ind: Seq<i8>,
    prev: int,
    conditional: bool,
    nb_subfr: int,
) -> Seq<i32> {
    Seq::new(
        gains.len(),
        |k: int|
            if k < nb_subfr {
                level_gain_spec(level_spec(ind, prev, conditional, k + 1)) as i32
            } else {
                gains[k]
            },
    )
}

/// Every level lies from 0 to 63, whatever was coded.
pub proof fn lemma_level_range(ind: Seq<i8>, prev: int, conditional: bool, k: int)
    requires
        k >= 1,
    ensures
        0 <= level_spec(ind, prev, conditional, k) <= 63,
{
}

/// The gains of the 64 levels rise from 1.25 to 25728.
pub proof fn lemma_level_gain(a: int, b: int)
    requires
        0 <= a <= b <= 63,
    ensures
        MIN_GAIN_Q16 <= level_gain_spec(a) <= level_gain_spec(b) <= MAX_GAIN_Q16,
        level_gain_spec(0) == MIN_GAIN_Q16,
        level_gain_spec(63) == MAX_GAIN_Q16,
{
    let la = (INV_SCALE_Q16 * a) / 65536 + OFFSET;
    let lb = (INV_SCALE_Q16 * b) / 65536 + OFFSET;
    assert(OFFSET <= la <= lb <= 3923);
    lemma_log2lin_monotone(OFFSET as int, la);
    lemma_log2lin_monotone(la, lb);
    lemma_log2lin_monotone(lb, 3923);
    lemma2_to64();
    assert(log2lin_spec(2090) == MIN_GAIN_Q16) by {
        assert(2090int / 128 == 16 && 2090int % 128 == 42);
        assert(parabola_spec(42) == 32);
    }
    assert(log2lin_spec(3923) == MAX_GAIN_Q16) by {
        assert(3923int / 128 == 30 && 3923int % 128 == 83);
        assert(parabola_spec(83) == 73);
    }
}

/// Right after a reset (level 0) or a lost packet (level 10) an absolute
/// index is the level, whatever it is.
pub proof fn lemma_falling_limit_inert(index: int, prev: int)
    requires
        0 <= index <= 63,
        prev == 0 || prev == LAST_GAIN_INDEX_ON_PACKET_LOSS,
    ensures
        absolute_level_spec(index, prev) == index,
{
}

/// Turns the coded indices of a frame into Q16 gains. `prev_ind` is the last
/// level, of the frame before and then of this one.
pub fn gains_dequant(
    gain_q16: &mut [i32; 4],
    ind: &[i8; 4],
    prev_ind: &mut i8,
    conditional: bool,
    nb_subfr: usize,
)
    requires
        nb_subfr == 4 || nb_subfr == 2,
    ensures
        *final(prev_ind) == level_spec(ind@, *old(prev_ind) as int, conditional, nb_subfr as int),
        final(gain_q16)@ == gains_spec(
            old(gain_q16)@,
            ind@,
            *old(prev_ind) as int,
            conditional,
            nb_subfr as int,
        ),
        0 <= *final(prev_ind) <= 63,
        forall|k: int|
            0 <= k < nb_subfr ==> MIN_GAIN_Q16 <= #[trigger] final(gain_q16)@[k] <= MAX_GAIN_Q16,
{
    let ghost p0 = *prev_ind as int;
    let mut prev: i32 = *prev_ind as i32;
    let mut k: usize = 0;
    while k < nb_subfr
        invariant
            nb_subfr == 4 || nb_subfr == 2,
            k <= nb_subfr,
            -128 <= prev <= 127,
            k > 0 ==> 0 <= prev <= 63,
            prev == level_spec(ind@, p0, conditional, k as int),
            forall|i: int|
                0 <= i < k ==> #[trigger] gain_q16@[i] == level_gain_spec(
                    level_spec(ind@, p0, conditional, i + 1),
                ),
            forall|i: int| 0 <= i < k ==> MIN_GAIN_Q16 <= #[trigger] gain_q16@[i] <= MAX_GAIN_Q16,
            forall|i: int| k <= i < 4 ==> #[trigger] gain_q16@[i] == old(gain_q16)@[i],
        decreases nb_subfr - k,
    {
        let x: i32 = ind[k] as i32;
        if k == 0 && !conditional {
            prev = if x > prev - 16 {
                x
            } else {
                prev - 16
            };
        } else {
            let step: i32 = x + MIN_DELTA_GAIN_QUANT;
            let threshold: i32 = 2 * MAX_DELTA_GAIN_QUANT - N_LEVELS_QGAIN + prev;
            if step > threshold {
                prev = prev + (step * 2 - threshold);
            } else {
                prev = prev + step;
            }
        }
        if prev < 0 {
            prev = 0;
        } else if prev > N_LEVELS_QGAIN - 1 {
            prev = N_LEVELS_QGAIN - 1;
        }
        let scaled: i32 = smulwb(INV_SCALE_Q16, prev);
        proof {
            lemma_smulwb_bound(INV_SCALE_Q16, prev, INV_SCALE_Q16 as int);
            assert(scaled == (INV_SCALE_Q16 * prev) / 65536);
            lemma_level_gain(prev as int, prev as int);
        }
        let log_gain: i32 = scaled + OFFSET;
        gain_q16[k] = log2lin(log_gain);
        k = k + 1;
    }
    proof {
        assert(gain_q16@ =~= gains_spec(
            old(gain_q16)@,
            ind@,
            p0,
            conditional,
            nb_subfr as int,
        ));
    }
    *prev_ind = prev as i8;
}

/// A whole number of octaves is a power of two, and the exponential of one
/// octave more is twice as large.
pub proof fn lemma_log2lin_octaves(k: int)
    requires
        0 <= k <= 30,
    ensures
        log2lin_spec(128 * k) == pow2(k as nat),
        k < 30 ==> log2lin_spec(128 * (k + 1)) == 2 * log2lin_spec(128 * k),
{
    assert((128 * k) / 128 == k && (128 * k) % 128 == 0);
    assert((128 * (k + 1)) / 128 == k + 1 && (128 * (k + 1)) % 128 == 0);
    assert(parabola_spec(0) == 0);
    let a = pow2(k as nat) as int;
    let b = pow2((k + 1) as nat) as int;
    assert(a * 0 == 0 && b * 0 == 0 && (a / 128) * 0 == 0 && (b / 128) * 0 == 0);
    vstd::arithmetic::power2::lemma_pow2_unfold((k + 1) as nat);
}

} // verus!
