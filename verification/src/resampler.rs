//! Conversion between sampling rates.
//!
//! The resampler is a stream filter. Input passes a delay line of
//! `input_delay` samples; what leaves the line feeds one of four kernels.
//! The two fractional kernels interpolate a filtered signal at equidistant
//! positions: output `j` of a stream lies `j * step` phases after its start,
//! where a feed sample is `phases` phases long.
use crate::error::{CadenceError, Result, Unsupported};
use crate::sigproc::{
    lemma_shl_i32, rshift_round, rshift_round_spec, sat16, sat16_spec, smlabb, smlabb_spec,
    smlawb, smlawb_spec, smulbb_spec, smulwb, smulwb_spec, smulww, smulww_spec,
};
use vstd::arithmetic::power2::lemma2_to64;
use vstd::prelude::*;

verus! {

/// Longest batch in input samples: 10 ms at 48 kHz.
pub const RESAMPLER_MAX_BATCH_SIZE_IN: usize = 480;

pub const RESAMPLER_MAX_BATCH_SIZE_MS: usize = 10;

pub const MAX_IIR_ORDER: usize = 6;

pub const DOWN_ORDER_FIR0: usize = 18;

pub const DOWN_ORDER_FIR1: usize = 24;

pub const DOWN_ORDER_FIR2: usize = 36;

pub const RESAMPLER_DOWN2_0: i16 = 9872;

pub const RESAMPLER_DOWN2_1: i16 = -25727;

/// Allpass coefficients of the even output phase.
pub const RESAMPLER_UP2_HQ_0: [i16; 3] = [1746, 14986, -26453];

/// Allpass coefficients of the odd output phase.
pub const RESAMPLER_UP2_HQ_1: [i16; 3] = [6854, 25769, -9994];

/// Ratio 3:4: two recursive coefficients, then three phases of nine.
pub const RESAMPLER_3_4_COEFS: [i16; 29] = [
    -20694, -13867, -49, 64, 17, -157, 353, -496, 163, 11047, 22205, -39, 6, 91, -170, 186, 23, -896,
    6336, 19928, -19, -36, 102, -89, -24, 328, -951, 2568, 15909,
];

/// Ratio 2:3: two recursive coefficients, then two phases of nine.
pub const RESAMPLER_2_3_COEFS: [i16; 20] = [
    -14457, -14019, 64, 128, -122, 36, 310, -768, 584, 9267, 17733, 12, 128, 18, -142, 288, -117,
    -865, 4123, 14459,
];

/// Ratio 1:2: two recursive coefficients, then half of a symmetric filter.
pub const RESAMPLER_1_2_COEFS: [i16; 14] = [
    616, -14323, -10, 39, 58, -46, -84, 120, 184, -315, -541, 1284, 5380, 9024,
];

/// Ratio 1:3.
pub const RESAMPLER_1_3_COEFS: [i16; 20] = [
    16102, -15162, -13, 0, 20, 26, 5, -31, -43, -4, 65, 90, 7, -157, -248, -44, 593, 1583, 2612,
    3271,
];

/// Ratio 1:4.
pub const RESAMPLER_1_4_COEFS: [i16; 20] = [
    22500, -15099, 3, -14, -20, -15, 2, 25, 37, 25, -16, -71, -107, -79, 50, 292, 623, 982, 1288,
    1464,
];

/// Ratio 1:6.
pub const RESAMPLER_1_6_COEFS: [i16; 20] = [
    27540, -15257, 17, 12, 8, 1, -10, -22, -30, -32, -22, 3, 44, 100, 168, 243, 317, 381, 429, 455,
];

/// Ratio 2:3 at low quality: two recursive coefficients, then two phases of
/// two.
pub const RESAMPLER_2_3_COEFS_LQ: [i16; 6] = [-2797, -6507, 4697, 10739, 1567, 8276];

/// Half of the eight taps at twelve fractions of a sample.
pub const RESAMPLER_FRAC_FIR_12: [[i16; 4]; 12] = [
    [189, -600, 617, 30567],
    [117, -159, -1070, 29704],
    [52, 221, -2392, 28276],
    [-4, 529, -3350, 26341],
    [-48, 758, -3956, 23973],
    [-80, 905, -4235, 21254],
    [-99, 972, -4222, 18278],
    [-107, 967, -3957, 15143],
    [-103, 896, -3487, 11950],
    [-91, 773, -2865, 8798],
    [-71, 611, -2143, 5784],
    [-46, 425, -1375, 2996],
];

/// Delay in input samples of an encoder, from 8, 12, 16, 24 and 48 kHz to 8,
/// 12 and 16 kHz.
pub const DELAY_MATRIX_ENC: [[i8; 3]; 5] = [[6, 0, 3], [0, 7, 3], [0, 1, 10], [0, 2, 6], [18, 10, 12]];

/// Delay in input samples of a decoder, from 8, 12 and 16 kHz to 8, 12, 16,
/// 24 and 48 kHz.
pub const DELAY_MATRIX_DEC: [[i8; 5]; 3] = [[4, 0, 2, 0, 0], [0, 9, 4, 7, 4], [0, 3, 12, 7, 7]];

// ---------------------------------------------------------------------
// Doubling the rate
// ---------------------------------------------------------------------

/// Outputs and states of the three allpass sections of one output phase, for
/// an input in Q10: the sections' states, then the output.
pub open spec fn allpass3_spec(s: (i32, i32, i32), c: Seq<i16>, in32: i32) -> (i32, i32, i32, i32) {
    let x0 = smulwb_spec(in32.wrapping_sub(s.0), c[0] as i32);
    let o0 = s.0.wrapping_add(x0);
    let x1 = smulwb_spec(o0.wrapping_sub(s.1), c[1] as i32);
    let o1 = s.1.wrapping_add(x1);
    let y2 = o1.wrapping_sub(s.2);
    let x2 = smlawb_spec(y2, y2, c[2] as i32);
    (in32.wrapping_add(x0), o0.wrapping_add(x1), o1.wrapping_add(x2), s.2.wrapping_add(x2))
}

pub open spec fn up2_even_spec(s: Seq<i32>, x: i16) -> (i32, i32, i32, i32) {
    allpass3_spec((s[0], s[1], s[2]), RESAMPLER_UP2_HQ_0@, (x as i32).wrapping_shl(10))
}

pub open spec fn up2_odd_spec(s: Seq<i32>, x: i16) -> (i32, i32, i32, i32) {
    allpass3_spec((s[3], s[4], s[5]), RESAMPLER_UP2_HQ_1@, (x as i32).wrapping_shl(10))
}

/// The filter state after one input sample.
pub open spec fn up2_step_spec(s: Seq<i32>, x: i16) -> Seq<i32> {
    let e = up2_even_spec(s, x);
    let o = up2_odd_spec(s, x);
    seq![e.0, e.1, e.2, o.0, o.1, o.2]
}

/// The filter state after the first `n` samples.
pub open spec fn up2_run_spec(s: Seq<i32>, input: Seq<i16>, n: int) -> Seq<i32>
    decreases n,
{
    if n <= 0 {
        s
    } else {
        up2_step_spec(up2_run_spec(s, input, n - 1), input[n - 1])
    }
}

/// Two outputs for each of the first `n` samples.
pub open spec fn up2_out_spec(s: Seq<i32>, input: Seq<i16>, n: int) -> Seq<i16>
    decreases n,
{
    if n <= 0 {
        Seq::empty()
    } else {
        let t = up2_run_spec(s, input, n - 1);
        up2_out_spec(s, input, n - 1).push(
            sat16_spec(rshift_round_spec(up2_even_spec(t, input[n - 1]).3, 10)),
        ).push(sat16_spec(rshift_round_spec(up2_odd_spec(t, input[n - 1]).3, 10)))
    }
}

proof fn lemma_up2_len(s: Seq<i32>, input: Seq<i16>, n: int)
    requires
        n >= 0,
        s.len() == 6,
    ensures
        up2_out_spec(s, input, n).len() == 2 * n,
        up2_run_spec(s, input, n).len() == 6,
    decreases n,
{
    if n > 0 {
        lemma_up2_len(s, input, n - 1);
    }
}

/// Doubling the rate of two pieces in turn is doubling that of both.
proof fn lemma_up2_concat(s: Seq<i32>, a: Seq<i16>, b: Seq<i16>, k: int)
    requires
        0 <= k <= b.len(),
        s.len() == 6,
    ensures
        up2_run_spec(s, a + b, a.len() + k) == up2_run_spec(
            up2_run_spec(s, a, a.len() as int),
            b,
            k,
        ),
        up2_out_spec(s, a + b, a.len() + k) == up2_out_spec(s, a, a.len() as int) + up2_out_spec(
            up2_run_spec(s, a, a.len() as int),
            b,
            k,
        ),
    decreases k,
{
    let t = up2_run_spec(s, a, a.len() as int);
    if k == 0 {
        lemma_up2_prefix(s, a, b, a.len() as int);
        assert(up2_out_spec(s, a, a.len() as int) + up2_out_spec(t, b, 0) =~= up2_out_spec(
            s,
            a,
            a.len() as int,
        ));
    } else {
        lemma_up2_concat(s, a, b, k - 1);
        assert((a + b)[a.len() + k - 1] == b[k - 1]);
        assert(up2_out_spec(s, a + b, a.len() + k) =~= up2_out_spec(s, a, a.len() as int)
            + up2_out_spec(t, b, k));
    }
}

proof fn lemma_up2_prefix(s: Seq<i32>, a: Seq<i16>, b: Seq<i16>, k: int)
    requires
        0 <= k <= a.len(),
    ensures
        up2_run_spec(s, a + b, k) == up2_run_spec(s, a, k),
        up2_out_spec(s, a + b, k) == up2_out_spec(s, a, k),
    decreases k,
{
    if k > 0 {
        lemma_up2_prefix(s, a, b, k - 1);
        assert((a + b)[k - 1] == a[k - 1]);
    }
}

/// Doubles the rate of `input` into `out`.
pub fn up2_hq(s: &mut [i32; 6], out: &mut [i16], input: &[i16])
    requires
        old(out)@.len() == 2 * input@.len(),
    ensures
        final(s)@ == up2_run_spec(old(s)@, input@, input@.len() as int),
        final(out)@ == up2_out_spec(old(s)@, input@, input@.len() as int),
        final(out)@.len() == old(out)@.len(),
{
    let n: usize = input.len();
    let out_len: usize = out.len();
    let ghost s0 = s@;
    let mut k: usize = 0;
    while k < n
        invariant
            n == input@.len(),
            out@.len() == 2 * n,
            out@.len() == out_len,
            k <= n,
            s0.len() == 6,
            s@ == up2_run_spec(s0, input@, k as int),
            out@.subrange(0, 2 * k) == up2_out_spec(s0, input@, k as int),
        decreases n - k,
    {
        let ghost before = s@;
        let ghost out_before = out@;
        let in32: i32 = (input[k] as i32).wrapping_shl(10);
        let x0: i32 = smulwb(in32.wrapping_sub(s[0]), RESAMPLER_UP2_HQ_0[0] as i32);
        let o0: i32 = s[0].wrapping_add(x0);
        s[0] = in32.wrapping_add(x0);
        let x1: i32 = smulwb(o0.wrapping_sub(s[1]), RESAMPLER_UP2_HQ_0[1] as i32);
        let o1: i32 = s[1].wrapping_add(x1);
        s[1] = o0.wrapping_add(x1);
        let y2: i32 = o1.wrapping_sub(s[2]);
        let x2: i32 = smlawb(y2, y2, RESAMPLER_UP2_HQ_0[2] as i32);
        let o2: i32 = s[2].wrapping_add(x2);
        s[2] = o1.wrapping_add(x2);
        let e: i16 = sat16(rshift_round(o2, 10));
        let x0: i32 = smulwb(in32.wrapping_sub(s[3]), RESAMPLER_UP2_HQ_1[0] as i32);
        let o0: i32 = s[3].wrapping_add(x0);
        s[3] = in32.wrapping_add(x0);
        let x1: i32 = smulwb(o0.wrapping_sub(s[4]), RESAMPLER_UP2_HQ_1[1] as i32);
        let o1: i32 = s[4].wrapping_add(x1);
        s[4] = o0.wrapping_add(x1);
        let y2: i32 = o1.wrapping_sub(s[5]);
        let x2: i32 = smlawb(y2, y2, RESAMPLER_UP2_HQ_1[2] as i32);
        let o2: i32 = s[5].wrapping_add(x2);
        s[5] = o1.wrapping_add(x2);
        let o: i16 = sat16(rshift_round(o2, 10));
        out[2 * k] = e;
        out[2 * k + 1] = o;
        proof {
            assert(s@ =~= up2_step_spec(before, input@[k as int]));
            assert(out@.subrange(0, 2 * (k + 1)) =~= out_before.subrange(0, 2 * k).push(e).push(o));
        }
        k = k + 1;
    }
    assert(out@.subrange(0, 2 * n) =~= out@);
}

// ---------------------------------------------------------------------
// Second-order recursive filter
// ---------------------------------------------------------------------

/// The two filter states after the first `n` samples.
pub open spec fn ar2_run_spec(s: (i32, i32), input: Seq<i16>, a_q14: Seq<i16>, n: int) -> (i32, i32)
    decreases n,
{
    if n <= 0 {
        s
    } else {
        let t = ar2_run_spec(s, input, a_q14, n - 1);
        let o = t.0.wrapping_add((input[n - 1] as i32).wrapping_shl(8)).wrapping_shl(2);
        (smlawb_spec(t.1, o, a_q14[0] as i32), smulwb_spec(o, a_q14[1] as i32))
    }
}

/// The outputs in Q8.
pub open spec fn ar2_out_spec(s: (i32, i32), input: Seq<i16>, a_q14: Seq<i16>, n: int) -> Seq<i32> {
    Seq::new(
        n as nat,
        |i: int|
            ar2_run_spec(s, input, a_q14, i).0.wrapping_add((input[i] as i32).wrapping_shl(8)),
    )
}

proof fn lemma_ar2_prefix(s: (i32, i32), a: Seq<i16>, b: Seq<i16>, c: Seq<i16>, k: int)
    requires
        0 <= k <= a.len(),
    ensures
        ar2_run_spec(s, a + b, c, k) == ar2_run_spec(s, a, c, k),
    decreases k,
{
    if k > 0 {
        lemma_ar2_prefix(s, a, b, c, k - 1);
        assert((a + b)[k - 1] == a[k - 1]);
    }
}

proof fn lemma_ar2_run_concat(s: (i32, i32), a: Seq<i16>, b: Seq<i16>, c: Seq<i16>, k: int)
    requires
        0 <= k <= b.len(),
    ensures
        ar2_run_spec(s, a + b, c, a.len() + k) == ar2_run_spec(
            ar2_run_spec(s, a, c, a.len() as int),
            b,
            c,
            k,
        ),
    decreases k,
{
    if k == 0 {
        lemma_ar2_prefix(s, a, b, c, a.len() as int);
    } else {
        lemma_ar2_run_concat(s, a, b, c, k - 1);
        assert((a + b)[a.len() + k - 1] == b[k - 1]);
    }
}

/// Filtering two pieces in turn is filtering both.
proof fn lemma_ar2_out_concat(s: (i32, i32), a: Seq<i16>, b: Seq<i16>, c: Seq<i16>)
    ensures
        ar2_out_spec(s, a + b, c, (a.len() + b.len()) as int) == ar2_out_spec(
            s,
            a,
            c,
            a.len() as int,
        ) + ar2_out_spec(ar2_run_spec(s, a, c, a.len() as int), b, c, b.len() as int),
{
    let l = ar2_out_spec(s, a + b, c, (a.len() + b.len()) as int);
    let r = ar2_out_spec(s, a, c, a.len() as int) + ar2_out_spec(
        ar2_run_spec(s, a, c, a.len() as int),
        b,
        c,
        b.len() as int,
    );
    assert forall|i: int| 0 <= i < l.len() implies l[i] == r[i] by {
        if i < a.len() {
            lemma_ar2_prefix(s, a, b, c, i);
            assert((a + b)[i] == a[i]);
        } else {
            lemma_ar2_run_concat(s, a, b, c, i - a.len());
            assert((a + b)[i] == b[i - a.len()]);
        }
    }
    assert(l =~= r);
}

/// Filters `input` into `out_q8`; only the first two states take part.
pub fn ar2(s: &mut [i32], out_q8: &mut [i32], input: &[i16], a_q14: &[i16])
    requires
        old(s)@.len() >= 2,
        a_q14@.len() >= 2,
        old(out_q8)@.len() == input@.len(),
    ensures
        final(out_q8)@ == ar2_out_spec(
            (old(s)@[0], old(s)@[1]),
            input@,
            a_q14@,
            input@.len() as int,
        ),
        ({
            let t = ar2_run_spec(
                (old(s)@[0], old(s)@[1]),
                input@,
                a_q14@,
                input@.len() as int,
            );
            final(s)@ == old(s)@.update(0, t.0).update(1, t.1)
        }),
{
    let n: usize = input.len();
    let ghost s0 = (s@[0], s@[1]);
    let ghost spec = ar2_out_spec(s0, input@, a_q14@, n as int);
    let mut k: usize = 0;
    assert(s@ =~= old(s)@.update(0, s0.0).update(1, s0.1));
    while k < n
        invariant
            n == input@.len(),
            out_q8@.len() == n,
            k <= n,
            old(s)@.len() >= 2,
            a_q14@.len() >= 2,
            s0 == (old(s)@[0], old(s)@[1]),
            spec == ar2_out_spec(s0, input@, a_q14@, n as int),
            ({
                let t = ar2_run_spec(s0, input@, a_q14@, k as int);
                s@ == old(s)@.update(0, t.0).update(1, t.1)
            }),
            forall|i: int| 0 <= i < k ==> #[trigger] out_q8@[i] == spec[i],
        decreases n - k,
    {
        let out32: i32 = s[0].wrapping_add((input[k] as i32).wrapping_shl(8));
        out_q8[k] = out32;
        let o: i32 = out32.wrapping_shl(2);
        let s1: i32 = s[1];
        s[0] = smlawb(s1, o, a_q14[0] as i32);
        s[1] = smulwb(o, a_q14[1] as i32);
        proof {
            let t = ar2_run_spec(s0, input@, a_q14@, k + 1);
            assert(s@ =~= old(s)@.update(0, t.0).update(1, t.1));
        }
        k = k + 1;
    }
    assert(out_q8@ =~= spec);
}

// ---------------------------------------------------------------------
// The resampler as a stream filter
// ---------------------------------------------------------------------

/// The kernel of a rate pair.
#[derive(Clone, Copy, Debug, PartialEq, Eq, Structural)]
pub enum ResamplerFn {
    /// Equal rates.
    Copy,
    /// Twice the rate.
    Up2Hq,
    /// Up by another factor: doubling, then interpolation.
    IirFir,
    /// Down: a recursive filter, then interpolation.
    DownFir,
}

pub open spec fn widened_spec(s: Seq<i16>) -> Seq<i32> {
    s.map_values(|x: i16| x as i32)
}

/// Eight-tap interpolation at phase `t` of twelve; the second half of the
/// taps mirrors those of the opposite phase.
pub open spec fn interp12_spec(u: Seq<i32>, p: int, t: int) -> i16 {
    let a = RESAMPLER_FRAC_FIR_12@[t]@;
    let b = RESAMPLER_FRAC_FIR_12@[11 - t]@;
    let r0 = smulbb_spec(u[p], a[0] as i32);
    let r1 = smlabb_spec(r0, u[p + 1], a[1] as i32);
    let r2 = smlabb_spec(r1, u[p + 2], a[2] as i32);
    let r3 = smlabb_spec(r2, u[p + 3], a[3] as i32);
    let r4 = smlabb_spec(r3, u[p + 4], b[3] as i32);
    let r5 = smlabb_spec(r4, u[p + 5], b[2] as i32);
    let r6 = smlabb_spec(r5, u[p + 6], b[1] as i32);
    let r7 = smlabb_spec(r6, u[p + 7], b[0] as i32);
    sat16_spec(rshift_round_spec(r7, 15))
}

/// The first `k` of 18 taps at phase `t` of `fracs`; the second half mirrors
/// the opposite phase.
pub open spec fn down18_spec(u: Seq<i32>, coefs: Seq<i16>, fracs: int, p: int, t: int, k: int) -> i32
    decreases k,
{
    if k <= 0 {
        0
    } else if k <= 9 {
        smlawb_spec(
            down18_spec(u, coefs, fracs, p, t, k - 1),
            u[p + k - 1],
            coefs[2 + 9 * t + k - 1] as i32,
        )
    } else {
        smlawb_spec(
            down18_spec(u, coefs, fracs, p, t, k - 1),
            u[p + 17 - (k - 10)],
            coefs[2 + 9 * (fracs - 1 - t) + (k - 10)] as i32,
        )
    }
}

/// The first `k` pairs of a symmetric filter of `order` taps.
pub open spec fn down_folded_spec(u: Seq<i32>, coefs: Seq<i16>, order: int, p: int, k: int) -> i32
    decreases k,
{
    if k <= 0 {
        0
    } else {
        smlawb_spec(
            down_folded_spec(u, coefs, order, p, k - 1),
            u[p + k - 1].wrapping_add(u[p + order - k]),
            coefs[2 + k - 1] as i32,
        )
    }
}

/// Configuration and state of a resampler.
#[verifier::ext_equal]
pub struct ResamplerView {
    pub function: ResamplerFn,
    pub fs_in: int,
    pub fs_out: int,
    /// Taps and phases of the downsampling filter.
    pub fir_order: int,
    pub fir_fracs: int,
    pub coefs: Seq<i16>,
    /// State of the recursive filters.
    pub iir: Seq<i32>,
    /// The last feed samples, as many as the interpolation has taps.
    pub hist: Seq<i32>,
    /// The samples in the delay line.
    pub delay: Seq<i16>,
}

impl ResamplerView {
    /// Phases of a feed sample.
    pub open spec fn phases(self) -> int {
        if self.function == ResamplerFn::IirFir {
            12
        } else {
            self.fir_fracs
        }
    }

    /// Taps of the interpolation.
    pub open spec fn taps(self) -> int {
        if self.function == ResamplerFn::IirFir {
            8
        } else {
            self.fir_order
        }
    }

    /// Feed samples per millisecond.
    pub open spec fn feed_rate(self) -> int {
        if self.function == ResamplerFn::IirFir {
            2 * self.fs_in
        } else {
            self.fs_in
        }
    }

    /// Phases from one output to the next.
    pub open spec fn step(self) -> int {
        self.phases() * self.feed_rate() / self.fs_out
    }

    pub open spec fn fractional(self) -> bool {
        self.function == ResamplerFn::IirFir || self.function == ResamplerFn::DownFir
    }

    /// Interpolation of `u` from position `p` on at phase `t`.
    pub open spec fn interp(self, u: Seq<i32>, p: int, t: int) -> i16 {
        if self.function == ResamplerFn::IirFir {
            interp12_spec(u, p, t)
        } else if self.fir_order == 18 {
            sat16_spec(
                rshift_round_spec(down18_spec(u, self.coefs, self.fir_fracs, p, t, 18), 6),
            )
        } else {
            sat16_spec(
                rshift_round_spec(
                    down_folded_spec(u, self.coefs, self.fir_order, p, self.fir_order / 2),
                    6,
                ),
            )
        }
    }

    /// The filtered signal that interpolation works on.
    pub open spec fn feed(self, input: Seq<i16>) -> Seq<i32> {
        if self.function == ResamplerFn::IirFir {
            widened_spec(up2_out_spec(self.iir, input, input.len() as int))
        } else {
            ar2_out_spec((self.iir[0], self.iir[1]), input, self.coefs, input.len() as int)
        }
    }

    /// The recursive filters after `input`.
    pub open spec fn next_iir(self, input: Seq<i16>) -> Seq<i32> {
        if self.function == ResamplerFn::DownFir {
            let t = ar2_run_spec(
                (self.iir[0], self.iir[1]),
                input,
                self.coefs,
                input.len() as int,
            );
            self.iir.update(0, t.0).update(1, t.1)
        } else if self.function == ResamplerFn::Copy {
            self.iir
        } else {
            up2_run_spec(self.iir, input, input.len() as int)
        }
    }

    /// `n` interpolated outputs of a feed with the history in front of it.
    pub open spec fn interpolated(self, hist: Seq<i32>, feed: Seq<i32>, n: int) -> Seq<i16> {
        Seq::new(
            n as nat,
            |j: int|
                self.interp(
                    hist + feed,
                    (j * self.step()) / self.phases(),
                    (j * self.step()) % self.phases(),
                ),
        )
    }

    /// What the kernel makes of a whole number of milliseconds.
    pub open spec fn kernel_out(self, input: Seq<i16>) -> Seq<i16> {
        if self.function == ResamplerFn::Copy {
            input
        } else if self.function == ResamplerFn::Up2Hq {
            up2_out_spec(self.iir, input, input.len() as int)
        } else {
            self.interpolated(
                self.hist,
                self.feed(input),
                (input.len() as int / self.fs_in) * self.fs_out,
            )
        }
    }

    /// The kernel's state behind `input`.
    pub open spec fn kernel_next(self, input: Seq<i16>) -> ResamplerView {
        ResamplerView {
            iir: self.next_iir(input),
            hist: if self.fractional() {
                let f = self.feed(input);
                (self.hist + f).subrange(f.len() as int, f.len() + self.taps())
            } else {
                self.hist
            },
            ..self
        }
    }

    /// The delay line with `input` behind it.
    pub open spec fn line(self, input: Seq<i16>) -> Seq<i16> {
        self.delay + input
    }

    /// The samples that leave the delay line when `input` enters it.
    pub open spec fn delayed(self, input: Seq<i16>) -> Seq<i16> {
        self.line(input).subrange(0, input.len() as int)
    }

    /// The output for a whole number of milliseconds.
    pub open spec fn resample_out(self, input: Seq<i16>) -> Seq<i16> {
        self.kernel_out(self.delayed(input))
    }

    /// The state behind it.
    pub open spec fn resample_next(self, input: Seq<i16>) -> ResamplerView {
        ResamplerView {
            delay: self.line(input).subrange(
                input.len() as int,
                (input.len() + self.delay.len()) as int,
            ),
            ..self.kernel_next(self.delayed(input))
        }
    }

    /// A configuration that a rate pair has.
    pub open spec fn wf(self) -> bool {
        &&& self.iir.len() == 6
        &&& self.delay.len() <= self.fs_in
        &&& 8 <= self.fs_in <= 48
        &&& 8 <= self.fs_out <= 48
        &&& match self.function {
            ResamplerFn::Copy => self.fs_in == self.fs_out,
            ResamplerFn::Up2Hq => self.fs_out == 2 * self.fs_in,
            ResamplerFn::IirFir => {
                &&& self.hist.len() == 8
                &&& self.fs_in <= 16
                &&& self.step() * self.fs_out == 24 * self.fs_in
            },
            ResamplerFn::DownFir => {
                &&& self.hist.len() == self.fir_order
                &&& self.step() * self.fs_out == self.fir_fracs * self.fs_in
                &&& {
                    ||| self.fir_order == 18 && self.fir_fracs == 3 && self.coefs.len() == 29
                    ||| self.fir_order == 18 && self.fir_fracs == 2 && self.coefs.len() == 20
                    ||| self.fir_order == 24 && self.fir_fracs == 1 && self.coefs.len() == 14
                    ||| self.fir_order == 36 && self.fir_fracs == 1 && self.coefs.len() == 20
                }
            },
        }
    }
}

proof fn lemma_down18_ext(
    u: Seq<i32>,
    v: Seq<i32>,
    coefs: Seq<i16>,
    fracs: int,
    p: int,
    q: int,
    t: int,
    k: int,
)
    requires
        k <= 18,
        forall|i: int| 0 <= i < 18 ==> #[trigger] u[p + i] == v[q + i],
    ensures
        down18_spec(u, coefs, fracs, p, t, k) == down18_spec(v, coefs, fracs, q, t, k),
    decreases k,
{
    if k > 0 {
        lemma_down18_ext(u, v, coefs, fracs, p, q, t, k - 1);
        if k <= 9 {
            assert(u[p + (k - 1)] == v[q + (k - 1)]);
        } else {
            assert(u[p + (17 - (k - 10))] == v[q + (17 - (k - 10))]);
        }
    }
}

proof fn lemma_down_folded_ext(
    u: Seq<i32>,
    v: Seq<i32>,
    coefs: Seq<i16>,
    order: int,
    p: int,
    q: int,
    k: int,
)
    requires
        2 * k <= order,
        forall|i: int| 0 <= i < order ==> #[trigger] u[p + i] == v[q + i],
    ensures
        down_folded_spec(u, coefs, order, p, k) == down_folded_spec(v, coefs, order, q, k),
    decreases k,
{
    if k > 0 {
        lemma_down_folded_ext(u, v, coefs, order, p, q, k - 1);
        assert(u[p + (k - 1)] == v[q + (k - 1)]);
        assert(u[p + (order - k)] == v[q + (order - k)]);
    }
}

/// Interpolation only looks at as many samples as it has taps.
proof fn lemma_interp_ext(r: ResamplerView, u: Seq<i32>, v: Seq<i32>, p: int, q: int, t: int)
    requires
        r.wf(),
        r.fractional(),
        forall|i: int| 0 <= i < r.taps() ==> #[trigger] u[p + i] == v[q + i],
    ensures
        r.interp(u, p, t) == r.interp(v, q, t),
{
    if r.function == ResamplerFn::IirFir {
        assert(u[p + 0] == v[q + 0]);
        assert(u[p + 1] == v[q + 1]);
        assert(u[p + 2] == v[q + 2]);
        assert(u[p + 3] == v[q + 3]);
        assert(u[p + 4] == v[q + 4]);
        assert(u[p + 5] == v[q + 5]);
        assert(u[p + 6] == v[q + 6]);
        assert(u[p + 7] == v[q + 7]);
    } else if r.fir_order == 18 {
        lemma_down18_ext(u, v, r.coefs, r.fir_fracs, p, q, t, 18);
    } else {
        lemma_down_folded_ext(u, v, r.coefs, r.fir_order, p, q, r.fir_order / 2);
    }
}

/// Feed of `m` milliseconds, and where the outputs of the next ones start.
proof fn lemma_phase_origin(r: ResamplerView, m: int, j: int)
    requires
        r.wf(),
        r.fractional(),
        m >= 0,
    ensures
        r.phases() >= 1,
        ((m * r.fs_out + j) * r.step()) / r.phases() == m * r.feed_rate() + (j * r.step())
            / r.phases(),
        ((m * r.fs_out + j) * r.step()) % r.phases() == (j * r.step()) % r.phases(),
{
    let d = r.phases();
    let k = r.step();
    let f = r.feed_rate();
    let o = r.fs_out;
    assert(k * o == d * f) by {
        if r.function == ResamplerFn::IirFir {
            assert(12 * (2 * r.fs_in) == 24 * r.fs_in);
        }
    }
    assert((m * o + j) * k == d * (m * f) + j * k) by (nonlinear_arith)
        requires
            k * o == d * f,
    ;
    vstd::arithmetic::div_mod::lemma_hoist_over_denominator(j * k, m * f, d as nat);
    vstd::arithmetic::div_mod::lemma_mod_multiples_vanish(m * f, j * k, d);
    assert(d * (m * f) == (m * f) * d) by (nonlinear_arith);
    vstd::arithmetic::mul::lemma_mul_is_commutative(d, m * f);
}

/// Output `j` of `m` milliseconds looks only at feed that is there.
proof fn lemma_window(r: ResamplerView, m: int, j: int)
    requires
        r.wf(),
        r.fractional(),
        0 <= j < m * r.fs_out,
    ensures
        0 <= (j * r.step()) / r.phases() < m * r.feed_rate(),
        0 <= (j * r.step()) % r.phases() < r.phases(),
{
    let d = r.phases();
    let k = r.step();
    let f = r.feed_rate();
    let o = r.fs_out;
    assert(k * o == d * f) by {
        if r.function == ResamplerFn::IirFir {
            assert(12 * (2 * r.fs_in) == 24 * r.fs_in);
        }
    }
    assert(k > 0) by (nonlinear_arith)
        requires
            k * o == d * f,
            d >= 1,
            f >= 8,
            o >= 8,
    ;
    assert(0 <= j * k < d * (m * f)) by (nonlinear_arith)
        requires
            0 <= j < m * o,
            k * o == d * f,
            k > 0,
    ;
    vstd::arithmetic::div_mod::lemma_fundamental_div_mod(j * k, d);
    vstd::arithmetic::div_mod::lemma_mod_bound(j * k, d);
    let q = (j * k) / d;
    assert(0 <= q < m * f) by (nonlinear_arith)
        requires
            j * k == d * q + (j * k) % d,
            0 <= (j * k) % d < d,
            0 <= j * k < d * (m * f),
            d >= 1,
    ;
}

/// Interpolating two feeds in turn, each a whole number of milliseconds, is
/// interpolating both at once.
proof fn lemma_interpolated_concat(
    r: ResamplerView,
    hist: Seq<i32>,
    f1: Seq<i32>,
    f2: Seq<i32>,
    m1: int,
    m2: int,
)
    requires
        r.wf(),
        r.fractional(),
        hist.len() == r.taps(),
        m1 >= 0,
        m2 >= 0,
        f1.len() == m1 * r.feed_rate(),
        f2.len() == m2 * r.feed_rate(),
    ensures
        r.interpolated(hist, f1 + f2, (m1 + m2) * r.fs_out) == r.interpolated(
            hist,
            f1,
            m1 * r.fs_out,
        ) + r.interpolated(
            (hist + f1).subrange(f1.len() as int, f1.len() + r.taps()),
            f2,
            m2 * r.fs_out,
        ),
{
    let o = r.fs_out;
    let h2 = (hist + f1).subrange(f1.len() as int, f1.len() + r.taps());
    let u = hist + (f1 + f2);
    let l = r.interpolated(hist, f1 + f2, (m1 + m2) * o);
    let a = r.interpolated(hist, f1, m1 * o);
    let b = r.interpolated(h2, f2, m2 * o);
    assert((m1 + m2) * o == m1 * o + m2 * o && m1 * o >= 0 && m2 * o >= 0) by (nonlinear_arith)
        requires
            m1 >= 0,
            m2 >= 0,
            o >= 8,
    ;
    assert forall|j: int| 0 <= j < l.len() implies l[j] == (a + b)[j] by {
        if j < m1 * o {
            lemma_window(r, m1, j);
            let p = (j * r.step()) / r.phases();
            assert forall|i: int| 0 <= i < r.taps() implies #[trigger] u[p + i] == (hist + f1)[p + i] by {
            }
            lemma_interp_ext(r, u, hist + f1, p, p, (j * r.step()) % r.phases());
        } else {
            let i2 = j - m1 * o;
            lemma_phase_origin(r, m1, i2);
            lemma_window(r, m2, i2);
            let p = (i2 * r.step()) / r.phases();
            let p1 = (j * r.step()) / r.phases();
            assert(p1 == f1.len() + p);
            assert forall|i: int| 0 <= i < r.taps() implies #[trigger] u[p1 + i] == (h2 + f2)[p + i] by {
            }
            lemma_interp_ext(r, u, h2 + f2, p1, p, (j * r.step()) % r.phases());
        }
    }
    assert(l =~= a + b);
}

/// Feed and filter state of two pieces.
proof fn lemma_feed_concat(r: ResamplerView, a: Seq<i16>, b: Seq<i16>)
    requires
        r.wf(),
        r.function != ResamplerFn::Copy,
    ensures
        r.fractional() ==> r.feed(a + b) == r.feed(a) + r.kernel_next(a).feed(b),
        r.next_iir(a + b) == r.kernel_next(a).next_iir(b),
        r.fractional() ==> r.feed(a).len() == (if r.function == ResamplerFn::IirFir {
            2 * a.len()
        } else {
            a.len()
        }),
        r.kernel_next(a).iir.len() == 6,
{
    let s = r.iir;
    if r.function == ResamplerFn::DownFir {
        let t = (s[0], s[1]);
        lemma_ar2_out_concat(t, a, b, r.coefs);
        lemma_ar2_run_concat(t, a, b, r.coefs, b.len() as int);
        let n = r.kernel_next(a);
        let ta = ar2_run_spec(t, a, r.coefs, a.len() as int);
        assert(n.iir[0] == ta.0 && n.iir[1] == ta.1);
        assert((a + b).len() == a.len() + b.len());
        assert(r.next_iir(a + b) =~= n.next_iir(b));
    } else {
        lemma_up2_len(s, a, a.len() as int);
        lemma_up2_concat(s, a, b, b.len() as int);
        let x = up2_out_spec(s, a, a.len() as int);
        let y = up2_out_spec(up2_run_spec(s, a, a.len() as int), b, b.len() as int);
        assert((a + b).len() == a.len() + b.len());
        assert(widened_spec(x + y) =~= widened_spec(x) + widened_spec(y));
    }
}

/// The kernel keeps the configuration.
proof fn lemma_kernel_next_wf(r: ResamplerView, a: Seq<i16>)
    requires
        r.wf(),
    ensures
        r.kernel_next(a).wf(),
{
    if r.function != ResamplerFn::Copy {
        lemma_feed_concat(r, a, Seq::empty());
        let n = r.kernel_next(a);
        assert(n.step() == r.step());
    }
}

/// Whole milliseconds split into whole milliseconds.
proof fn lemma_ms(n: int, fs: int)
    requires
        fs >= 1,
        n >= 0,
        n % fs == 0,
    ensures
        n == (n / fs) * fs,
        n / fs >= 0,
{
    vstd::arithmetic::div_mod::lemma_fundamental_div_mod(n, fs);
    assert(fs * (n / fs) == (n / fs) * fs) by (nonlinear_arith);
    assert(n / fs >= 0) by (nonlinear_arith)
        requires
            n >= 0,
            fs >= 1,
    ;
}

proof fn lemma_ms_sum(a: int, b: int, fs: int)
    requires
        fs >= 1,
        a >= 0,
        b >= 0,
        a % fs == 0,
        b % fs == 0,
    ensures
        (a + b) % fs == 0,
        (a + b) / fs == a / fs + b / fs,
{
    lemma_ms(a, fs);
    lemma_ms(b, fs);
    assert(a + b == fs * (a / fs + b / fs) + 0) by (nonlinear_arith)
        requires
            a == (a / fs) * fs,
            b == (b / fs) * fs,
    ;
    vstd::arithmetic::div_mod::lemma_fundamental_div_mod_converse(a + b, fs, a / fs + b / fs, 0);
}

/// The kernel on two pieces of whole milliseconds in turn gives what it gives
/// on both at once.
pub proof fn lemma_kernel_concat(r: ResamplerView, a: Seq<i16>, b: Seq<i16>)
    requires
        r.wf(),
        a.len() as int % r.fs_in == 0,
        b.len() as int % r.fs_in == 0,
    ensures
        r.kernel_out(a + b) == r.kernel_out(a) + r.kernel_next(a).kernel_out(b),
        r.kernel_next(a + b) == r.kernel_next(a).kernel_next(b),
{
    let n = r.kernel_next(a);
    lemma_kernel_next_wf(r, a);
    if r.function == ResamplerFn::Copy {
        assert(r.kernel_next(a + b) =~= n.kernel_next(b));
    } else if r.function == ResamplerFn::Up2Hq {
        lemma_feed_concat(r, a, b);
        lemma_up2_concat(r.iir, a, b, b.len() as int);
        assert((a + b).len() == a.len() + b.len());
        assert(r.kernel_next(a + b) =~= n.kernel_next(b));
    } else {
        lemma_feed_concat(r, a, b);
        lemma_feed_concat(n, b, Seq::empty());
        assert(n.step() == r.step());
        let fs = r.fs_in;
        let m1 = a.len() as int / fs;
        let m2 = b.len() as int / fs;
        lemma_ms(a.len() as int, fs);
        lemma_ms(b.len() as int, fs);
        lemma_ms_sum(a.len() as int, b.len() as int, fs);
        assert((a + b).len() == a.len() + b.len());
        let f1 = r.feed(a);
        let f2 = n.feed(b);
        assert(f1.len() == m1 * r.feed_rate() && f2.len() == m2 * r.feed_rate()) by {
            if r.function == ResamplerFn::IirFir {
                assert(m1 * (2 * fs) == 2 * (m1 * fs)) by (nonlinear_arith);
                assert(m2 * (2 * fs) == 2 * (m2 * fs)) by (nonlinear_arith);
            }
        }
        lemma_interpolated_concat(r, r.hist, f1, f2, m1, m2);
        let h2 = (r.hist + f1).subrange(f1.len() as int, f1.len() + r.taps());
        assert(n.interpolated(h2, f2, m2 * r.fs_out) =~= r.interpolated(h2, f2, m2 * r.fs_out));
        let f = f1 + f2;
        assert((r.hist + f).subrange(f.len() as int, f.len() + r.taps()) =~= (h2 + f2).subrange(
            f2.len() as int,
            f2.len() + r.taps(),
        ));
        assert(r.kernel_next(a + b) =~= n.kernel_next(b));
    }
}

/// Resampling in pieces of whole milliseconds, whatever their lengths, gives
/// bit for bit what resampling all at once gives, and leaves the same state.
pub proof fn lemma_resample_concat(r: ResamplerView, a: Seq<i16>, b: Seq<i16>)
    requires
        r.wf(),
        a.len() as int % r.fs_in == 0,
        b.len() as int % r.fs_in == 0,
    ensures
        r.resample_out(a + b) == r.resample_out(a) + r.resample_next(a).resample_out(b),
        r.resample_next(a + b) == r.resample_next(a).resample_next(b),
{
    let n = r.resample_next(a);
    let k = r.kernel_next(r.delayed(a));
    lemma_kernel_next_wf(r, r.delayed(a));
    lemma_kernel_concat(r, r.delayed(a), n.delayed(b));
    assert(r.delayed(a + b) =~= r.delayed(a) + n.delayed(b));
    assert(n.kernel_out(n.delayed(b)) == k.kernel_out(n.delayed(b)));
    assert(r.resample_next(a + b) =~= n.resample_next(b));
}

/// Whole milliseconds come out as exactly as many.
pub proof fn lemma_resample_len(r: ResamplerView, input: Seq<i16>)
    requires
        r.wf(),
        input.len() as int % r.fs_in == 0,
    ensures
        r.resample_out(input).len() == input.len() as int / r.fs_in * r.fs_out,
{
    let n = input.len() as int;
    let d = r.delayed(input);
    assert(d.len() == n);
    lemma_ms(n, r.fs_in);
    let m = n / r.fs_in;
    if r.function == ResamplerFn::Up2Hq {
        lemma_up2_len(r.iir, d, n);
        assert(m * (2 * r.fs_in) == 2 * (m * r.fs_in)) by (nonlinear_arith);
    } else if r.fractional() {
        assert(m * r.fs_out >= 0) by (nonlinear_arith)
            requires
                m >= 0,
                r.fs_out >= 8,
        ;
    }
}

/// Between equal rates the output is the input behind the delay line.
pub proof fn lemma_copy_is_delay(r: ResamplerView, input: Seq<i16>, i: int)
    requires
        r.wf(),
        r.function == ResamplerFn::Copy,
        0 <= i < input.len(),
    ensures
        r.resample_out(input).len() == input.len(),
        i < r.delay.len() ==> r.resample_out(input)[i] == r.delay[i],
        i >= r.delay.len() ==> r.resample_out(input)[i] == input[i - r.delay.len()],
{
}

impl ResamplerView {
    /// Nothing but zeros went in.
    pub open spec fn silent(self) -> bool {
        &&& self.iir == Seq::new(6, |i: int| 0i32)
        &&& forall|i: int| 0 <= i < self.hist.len() ==> #[trigger] self.hist[i] == 0
        &&& forall|i: int| 0 <= i < self.delay.len() ==> #[trigger] self.delay[i] == 0
    }
}

/// Products with zero, and zero rounded.
proof fn lemma_zero_terms()
    ensures
        forall|c: i32| #[trigger] smulwb_spec(0, c) == 0,
        forall|c: i32| #[trigger] smulbb_spec(0, c) == 0,
        0i32.wrapping_shl(2) == 0,
        0i32.wrapping_shl(8) == 0,
        0i32.wrapping_shl(10) == 0,
        sat16_spec(rshift_round_spec(0, 6)) == 0,
        sat16_spec(rshift_round_spec(0, 10)) == 0,
        sat16_spec(rshift_round_spec(0, 15)) == 0,
{
    lemma2_to64();
    reveal(rshift_round_spec);
    lemma_shl_i32(0, 2);
    lemma_shl_i32(0, 8);
    lemma_shl_i32(0, 10);
    assert forall|c: i32| #[trigger] smulwb_spec(0, c) == 0 by {
        reveal(smulwb_spec);
        assert(0 * (c as i16) == 0);
    }
    assert forall|c: i32| #[trigger] smulbb_spec(0, c) == 0 by {
        reveal(smulbb_spec);
        assert(0 * (c as i16) == 0);
    }
}

proof fn lemma_up2_silence(z: Seq<i32>, input: Seq<i16>, n: int)
    requires
        z == Seq::new(6, |i: int| 0i32),
        0 <= n <= input.len(),
        forall|i: int| 0 <= i < input.len() ==> #[trigger] input[i] == 0,
    ensures
        up2_run_spec(z, input, n) == z,
        forall|i: int| 0 <= i < 2 * n ==> #[trigger] up2_out_spec(z, input, n)[i] == 0,
    decreases n,
{
    if n > 0 {
        lemma_up2_silence(z, input, n - 1);
        lemma_up2_len(z, input, n - 1);
        lemma_zero_terms();
        assert(input[n - 1] == 0);
        assert(up2_run_spec(z, input, n) =~= z);
    }
}

proof fn lemma_ar2_silence(input: Seq<i16>, c: Seq<i16>, n: int)
    requires
        0 <= n <= input.len(),
        forall|i: int| 0 <= i < input.len() ==> #[trigger] input[i] == 0,
    ensures
        ar2_run_spec((0, 0), input, c, n) == (0i32, 0i32),
    decreases n,
{
    if n > 0 {
        lemma_ar2_silence(input, c, n - 1);
        lemma_zero_terms();
        assert(input[n - 1] == 0);
    }
}

proof fn lemma_down18_silence(u: Seq<i32>, coefs: Seq<i16>, fracs: int, p: int, t: int, k: int)
    requires
        k <= 18,
        forall|i: int| p <= i < p + 18 ==> #[trigger] u[i] == 0,
    ensures
        down18_spec(u, coefs, fracs, p, t, k) == 0,
    decreases k,
{
    if k > 0 {
        lemma_down18_silence(u, coefs, fracs, p, t, k - 1);
        lemma_zero_terms();
        if k <= 9 {
            assert(u[p + k - 1] == 0);
        } else {
            assert(u[p + 17 - (k - 10)] == 0);
        }
    }
}

proof fn lemma_down_folded_silence(u: Seq<i32>, coefs: Seq<i16>, order: int, p: int, k: int)
    requires
        2 * k <= order,
        forall|i: int| p <= i < p + order ==> #[trigger] u[i] == 0,
    ensures
        down_folded_spec(u, coefs, order, p, k) == 0,
    decreases k,
{
    if k > 0 {
        lemma_down_folded_silence(u, coefs, order, p, k - 1);
        lemma_zero_terms();
        assert(u[p + k - 1] == 0);
        assert(u[p + order - k] == 0);
    }
}

proof fn lemma_interp_silence(r: ResamplerView, u: Seq<i32>, p: int, t: int)
    requires
        r.wf(),
        r.fractional(),
        forall|i: int| p <= i < p + r.taps() ==> #[trigger] u[i] == 0,
    ensures
        r.interp(u, p, t) == 0,
{
    lemma_zero_terms();
    if r.function == ResamplerFn::IirFir {
        assert(u[p] == 0 && u[p + 1] == 0 && u[p + 2] == 0 && u[p + 3] == 0);
        assert(u[p + 4] == 0 && u[p + 5] == 0 && u[p + 6] == 0 && u[p + 7] == 0);
    } else if r.fir_order == 18 {
        lemma_down18_silence(u, r.coefs, r.fir_fracs, p, t, 18);
    } else {
        lemma_down_folded_silence(u, r.coefs, r.fir_order, p, r.fir_order / 2);
    }
}

/// Silence comes out as silence.
pub proof fn lemma_resample_silence(r: ResamplerView, input: Seq<i16>)
    requires
        r.wf(),
        r.silent(),
        input.len() as int % r.fs_in == 0,
        forall|i: int| 0 <= i < input.len() ==> #[trigger] input[i] == 0,
    ensures
        r.resample_next(input).silent(),
        forall|i: int|
            0 <= i < r.resample_out(input).len() ==> #[trigger] r.resample_out(input)[i] == 0,
{
    let d = r.delayed(input);
    let n = d.len() as int;
    let m = n / r.fs_in;
    lemma_ms(n, r.fs_in);
    assert forall|i: int| 0 <= i < n implies #[trigger] d[i] == 0 by {}
    if r.function == ResamplerFn::DownFir {
        let z = (r.iir[0], r.iir[1]);
        assert(z == (0i32, 0i32));
        lemma_ar2_silence(d, r.coefs, n);
        assert(r.next_iir(d) =~= r.iir);
    } else if r.function != ResamplerFn::Copy {
        lemma_up2_silence(r.iir, d, n);
        lemma_up2_len(r.iir, d, n);
    }
    if r.fractional() {
        let f = r.feed(d);
        lemma_feed_concat(r, d, Seq::empty());
        assert(m * r.feed_rate() == f.len()) by (nonlinear_arith)
            requires
                n == m * r.fs_in,
                (r.feed_rate() == 2 * r.fs_in && f.len() == 2 * n) || (r.feed_rate() == r.fs_in
                    && f.len() == n),
        ;
        assert forall|i: int| 0 <= i < f.len() implies #[trigger] f[i] == 0 by {
            lemma_zero_terms();
            if r.function == ResamplerFn::DownFir {
                lemma_ar2_silence(d, r.coefs, i);
                assert(d[i] == 0);
            }
        }
        let u = r.hist + f;
        assert forall|j: int| 0 <= j < m * r.fs_out implies #[trigger] r.interpolated(
            r.hist,
            f,
            m * r.fs_out,
        )[j] == 0 by {
            lemma_window(r, m, j);
            lemma_interp_silence(r, u, (j * r.step()) / r.phases(), (j * r.step()) % r.phases());
        }
    }
}

// ---------------------------------------------------------------------
// The resampler
// ---------------------------------------------------------------------

/// A resampler for one pair of rates.
#[derive(Clone, Copy, Debug)]
pub struct Resampler {
    /// Six allpass states, or the two states of the recursive filter.
    pub s_iir: [i32; 6],
    /// Filtered history of the downsampler.
    pub s_fir_i32: [i32; 36],
    /// Filtered history of the upsampler.
    pub s_fir_i16: [i16; 8],
    /// The delay line in the first `input_delay` entries.
    pub delay_buf: [i16; 48],
    pub resampler_function: ResamplerFn,
    /// Input samples in 10 ms.
    pub batch_size: usize,
    /// Feed samples per output in Q16, rounded up.
    pub inv_ratio_q16: i32,
    pub fir_order: usize,
    pub fir_fracs: i32,
    pub fs_in_khz: usize,
    pub fs_out_khz: usize,
    pub input_delay: usize,
    pub coefs: &'static [i16],
}

impl View for Resampler {
    type V = ResamplerView;

    open spec fn view(&self) -> ResamplerView {
        ResamplerView {
            function: self.resampler_function,
            fs_in: self.fs_in_khz as int,
            fs_out: self.fs_out_khz as int,
            fir_order: self.fir_order as int,
            fir_fracs: self.fir_fracs as int,
            coefs: self.coefs@,
            iir: self.s_iir@,
            hist: match self.resampler_function {
                ResamplerFn::IirFir => widened_spec(self.s_fir_i16@),
                ResamplerFn::DownFir => self.s_fir_i32@.subrange(0, self.fir_order as int),
                _ => Seq::empty(),
            },
            delay: self.delay_buf@.subrange(0, self.input_delay as int),
        }
    }
}

/// `inc` feed samples in Q16 per output of `o` outputs for `f` feed samples,
/// rounded up.
pub open spec fn rounded_up_ratio(inc: int, f: int, o: int) -> bool {
    65536 * f <= inc * o < 65536 * f + o
}

impl Resampler {
    /// The configuration of a rate pair.
    pub open spec fn wf(self) -> bool {
        &&& self@.wf()
        &&& self.input_delay <= self.fs_in_khz <= 48
        &&& self.fir_order <= 36
        &&& self.batch_size == 10 * self.fs_in_khz
        &&& self@.fractional() ==> rounded_up_ratio(
            self.inv_ratio_q16 as int,
            self@.feed_rate(),
            self.fs_out_khz as int,
        )
    }
}

/// The rates that a converter takes in its two directions.
pub open spec fn any_rate(fs_hz: i32) -> bool {
    fs_hz == 8000 || fs_hz == 12000 || fs_hz == 16000 || fs_hz == 24000 || fs_hz == 48000
}

pub open spec fn internal_rate(fs_hz: i32) -> bool {
    fs_hz == 8000 || fs_hz == 12000 || fs_hz == 16000
}

/// A decoder comes from an internal rate, an encoder goes to one.
pub open spec fn valid_pair(fs_hz_in: i32, fs_hz_out: i32, for_enc: bool) -> bool {
    if for_enc {
        any_rate(fs_hz_in) && internal_rate(fs_hz_out)
    } else {
        internal_rate(fs_hz_in) && any_rate(fs_hz_out)
    }
}

pub open spec fn rate_id_spec(fs_hz: i32) -> int {
    if fs_hz == 8000 {
        0
    } else if fs_hz == 12000 {
        1
    } else if fs_hz == 16000 {
        2
    } else if fs_hz == 24000 {
        3
    } else {
        4
    }
}

/// Number of a rate, counted from 8 kHz up.
pub fn rate_id(fs_hz: i32) -> (r: usize)
    requires
        any_rate(fs_hz),
    ensures
        r == rate_id_spec(fs_hz),
{
    let a: i32 = fs_hz / 4096 - (if fs_hz > 16000 {
        1
    } else {
        0
    });
    let b: i32 = if fs_hz > 24000 {
        a / 2
    } else {
        a
    };
    (b - 1) as usize
}

/// Samples that the delay line of a rate pair holds.
pub open spec fn delay_spec(fs_hz_in: i32, fs_hz_out: i32, for_enc: bool) -> int {
    let i = rate_id_spec(fs_hz_in);
    let o = rate_id_spec(fs_hz_out);
    if for_enc {
        DELAY_MATRIX_ENC@[i]@[o] as int
    } else {
        DELAY_MATRIX_DEC@[i]@[o] as int
    }
}

/// The kernel of a rate pair.
pub open spec fn function_spec(fs_hz_in: i32, fs_hz_out: i32) -> ResamplerFn {
    if fs_hz_out == fs_hz_in {
        ResamplerFn::Copy
    } else if fs_hz_out == 2 * fs_hz_in {
        ResamplerFn::Up2Hq
    } else if fs_hz_out > fs_hz_in {
        ResamplerFn::IirFir
    } else {
        ResamplerFn::DownFir
    }
}

/// Taps, phases and coefficients of a downsampling filter.
pub open spec fn down_filter_spec(fs_hz_in: i32, fs_hz_out: i32) -> (int, int, Seq<i16>) {
    if fs_hz_out * 4 == fs_hz_in * 3 {
        (18, 3, RESAMPLER_3_4_COEFS@)
    } else if fs_hz_out * 3 == fs_hz_in * 2 {
        (18, 2, RESAMPLER_2_3_COEFS@)
    } else if fs_hz_out * 2 == fs_hz_in {
        (24, 1, RESAMPLER_1_2_COEFS@)
    } else if fs_hz_out * 3 == fs_hz_in {
        (36, 1, RESAMPLER_1_3_COEFS@)
    } else if fs_hz_out * 4 == fs_hz_in {
        (36, 1, RESAMPLER_1_4_COEFS@)
    } else {
        (36, 1, RESAMPLER_1_6_COEFS@)
    }
}

impl ResamplerView {
    /// A new resampler: the configuration of its rate pair, and zeros.
    pub open spec fn start(fs_hz_in: i32, fs_hz_out: i32, for_enc: bool) -> ResamplerView {
        let function = function_spec(fs_hz_in, fs_hz_out);
        let (order, fracs, coefs) = if function == ResamplerFn::DownFir {
            down_filter_spec(fs_hz_in, fs_hz_out)
        } else {
            (0, 0, Seq::empty())
        };
        ResamplerView {
            function,
            fs_in: fs_hz_in as int / 1000,
            fs_out: fs_hz_out as int / 1000,
            fir_order: order,
            fir_fracs: fracs,
            coefs,
            iir: Seq::new(6, |i: int| 0i32),
            hist: Seq::new(
                (if function == ResamplerFn::IirFir {
                    8
                } else {
                    order
                }) as nat,
                |i: int| 0i32,
            ),
            delay: Seq::new(delay_spec(fs_hz_in, fs_hz_out, for_enc) as nat, |i: int| 0i16),
        }
    }
}

/// Feed samples per output in Q16, rounded up.
fn inverse_ratio(fs_hz_in: i32, fs_hz_out: i32, up2x: i32) -> (inc: i32)
    requires
        any_rate(fs_hz_in),
        any_rate(fs_hz_out),
        up2x == 1 || up2x == 2,
        up2x == 2 ==> fs_hz_in <= 16000,
    ensures
        rounded_up_ratio(inc as int, up2x * fs_hz_in, fs_hz_out as int),
{
    let x: i32 = fs_hz_in * up2x;
    let mut inc: i32 = ((x * 16384) / fs_hz_out) * 4;
    let ghost n: int = x * 16384;
    let ghost o: int = fs_hz_out as int;
    let ghost q = n / o;
    let ghost rest = n % o;
    proof {
        vstd::arithmetic::div_mod::lemma_fundamental_div_mod(n, o);
        assert(0 <= rest < o);
        assert(q * fs_hz_out <= x * 16384 && (q + 1) * fs_hz_out > x * 16384) by (nonlinear_arith)
            requires
                n == x * 16384,
                o == fs_hz_out,
                n == o * q + rest,
                0 <= rest < o,
        ;
        assert(inc * fs_hz_out <= 65536 * x) by (nonlinear_arith)
            requires
                inc == 4 * q,
                q * fs_hz_out <= x * 16384,
        ;
        assert(0 <= q <= 100000) by (nonlinear_arith)
            requires
                q * fs_hz_out <= x * 16384,
                (q + 1) * fs_hz_out > x * 16384,
                8000 <= x <= 48000,
                8000 <= fs_hz_out <= 48000,
        ;
    }
    while smulww(inc, fs_hz_out) < x
        invariant
            8000 <= x <= 48000,
            8000 <= fs_hz_out <= 48000,
            0 <= inc <= 400004,
            (inc - 1) * fs_hz_out < 65536 * x,
        decreases 400004 - inc,
    {
        proof {
            lemma_smulww_small(inc, fs_hz_out, x);
        }
        assert((inc + 1 - 1) * fs_hz_out < 65536 * x);
        assert(inc <= 400000) by (nonlinear_arith)
            requires
                inc * fs_hz_out < 65536 * x,
                x <= 48000,
                fs_hz_out >= 8000,
        ;
        assert((inc + 1) * fs_hz_out == inc * fs_hz_out + fs_hz_out) by (nonlinear_arith);
        inc = inc + 1;
    }
    proof {
        lemma_smulww_small(inc, fs_hz_out, x);
        assert((inc - 1) * fs_hz_out == inc * fs_hz_out - fs_hz_out) by (nonlinear_arith);
    }
    inc
}

proof fn lemma_smulww_small(inc: i32, o: i32, x: i32)
    requires
        0 <= inc <= 400004,
        8000 <= o <= 48000,
        8000 <= x <= 48000,
    ensures
        smulww_spec(inc, o) < x <==> inc * o < 65536 * x,
{
    reveal(smulww_spec);
    assert(0 <= inc * o <= 400004 * 48000) by (nonlinear_arith)
        requires
            0 <= inc <= 400004,
            8000 <= o <= 48000,
    ;
}

/// Positions and phases in Q16 steps: with the step rounded up, output `j`
/// still falls on the feed sample and the phase that exact steps give.
proof fn lemma_q16_position(inc: int, d: int, k: int, f: int, o: int, j: int)
    requires
        rounded_up_ratio(inc, f, o),
        k * o == d * f,
        1 <= d <= 12,
        8 <= o <= 48,
        8 <= f <= 48,
        0 <= j <= 480,
    ensures
        (j * inc) / 65536 == (j * k) / d,
        (((j * inc) % 65536) * d) / 65536 == (j * k) % d,
        0 <= (j * inc) % 65536 < 65536,
        j * inc >= 0,
{
    let e = inc * o - 65536 * f;
    let c = d * inc - 65536 * k;
    assert(c * o == d * e) by (nonlinear_arith)
        requires
            e == inc * o - 65536 * f,
            c == d * inc - 65536 * k,
            k * o == d * f,
    ;
    assert(0 <= c < 12) by (nonlinear_arith)
        requires
            c * o == d * e,
            0 <= e < o,
            1 <= d <= 12,
            o >= 8,
    ;
    assert(inc > 0) by (nonlinear_arith)
        requires
            inc * o >= 65536 * f,
            f >= 8,
            o >= 8,
    ;
    let x = j * inc;
    assert(x >= 0) by (nonlinear_arith)
        requires
            x == j * inc,
            j >= 0,
            inc > 0,
    ;
    assert(0 <= j * c < 65536) by (nonlinear_arith)
        requires
            0 <= j <= 480,
            0 <= c < 12,
    ;
    assert(d * x == 65536 * (j * k) + j * c) by (nonlinear_arith)
        requires
            x == j * inc,
            c == d * inc - 65536 * k,
    ;
    let p = x / 65536;
    let r = x % 65536;
    assert(x == 65536 * p + r);
    let t = (r * d) / 65536;
    assert(0 <= r * d < 65536 * d) by (nonlinear_arith)
        requires
            0 <= r < 65536,
            1 <= d,
    ;
    assert(0 <= t < d);
    assert(d * x == 65536 * (d * p) + r * d) by (nonlinear_arith)
        requires
            x == 65536 * p + r,
    ;
    assert(j * k == d * p + t);
    vstd::arithmetic::div_mod::lemma_fundamental_div_mod_converse(j * k, d, p, t);
}

/// `m` milliseconds of feed are walked through in exactly as many steps as
/// there are outputs.
proof fn lemma_q16_count(inc: int, f: int, o: int, m: int, j: int)
    requires
        rounded_up_ratio(inc, f, o),
        8 <= o <= 48,
        8 <= f <= 48,
        0 <= m <= 10,
        0 <= j,
    ensures
        j * inc < m * f * 65536 <==> j < m * o,
        0 < inc <= 400000,
{
    assert(10922 <= inc <= 400000) by (nonlinear_arith)
        requires
            inc * o >= 65536 * f,
            inc * o < 65536 * f + o,
            8 <= f <= 48,
            8 <= o <= 48,
    ;
    let e = inc * o - 65536 * f;
    if j < m * o {
        assert(j * inc <= (m * o - 1) * inc) by (nonlinear_arith)
            requires
                j <= m * o - 1,
                inc >= 0,
        ;
        assert((m * o - 1) * inc == m * f * 65536 + m * e - inc) by (nonlinear_arith)
            requires
                e == inc * o - 65536 * f,
        ;
        assert(m * e < 481) by (nonlinear_arith)
            requires
                0 <= m <= 10,
                0 <= e < 48,
        ;
    } else {
        assert(j * inc >= m * f * 65536) by (nonlinear_arith)
            requires
                j >= m * o,
                inc >= 0,
                inc * o >= 65536 * f,
                m >= 0,
        ;
    }
}

/// Interpolates the doubled signal at Q16 positions up to `max_index_q16`
/// into `out` from `base` on, and returns the number of outputs.
fn iir_fir_interpol(
    out: &mut [i16],
    base: usize,
    buf: &[i16],
    max_index_q16: i32,
    index_increment_q16: i32,
    Ghost(r): Ghost<ResamplerView>,
    Ghost(m): Ghost<int>,
) -> (produced: usize)
    requires
        r.wf(),
        r.function == ResamplerFn::IirFir,
        1 <= m <= 10,
        max_index_q16 == m * r.feed_rate() * 65536,
        rounded_up_ratio(index_increment_q16 as int, r.feed_rate(), r.fs_out),
        buf@.len() >= m * r.feed_rate() + 8,
        base + m * r.fs_out <= old(out)@.len(),
    ensures
        produced == m * r.fs_out,
        final(out)@.len() == old(out)@.len(),
        forall|i: int|
            0 <= i < old(out)@.len() ==> #[trigger] final(out)@[i] == (if base <= i < base + m
                * r.fs_out {
                interp12_spec(
                    widened_spec(buf@),
                    ((i - base) * r.step()) / 12,
                    ((i - base) * r.step()) % 12,
                )
            } else {
                old(out)@[i]
            }),
{
    let out_len: usize = out.len();
    let ghost u = widened_spec(buf@);
    let ghost inc = index_increment_q16 as int;
    let ghost total = m * r.fs_out;
    let mut produced: usize = 0;
    let mut index_q16: i32 = 0;
    proof {
        assert(0 <= total <= 480) by (nonlinear_arith)
            requires
                total == m * r.fs_out,
                1 <= m <= 10,
                8 <= r.fs_out <= 48,
        ;
        assert(m * r.feed_rate() * 65536 <= 10 * 32 * 65536) by (nonlinear_arith)
            requires
                1 <= m <= 10,
                0 <= r.feed_rate() <= 32,
        ;
        assert(0 * inc == 0);
        lemma_q16_count(inc, r.feed_rate(), r.fs_out, m, 0);
    }
    while index_q16 < max_index_q16
        invariant
            r.wf(),
            r.function == ResamplerFn::IirFir,
            1 <= m <= 10,
            max_index_q16 == m * r.feed_rate() * 65536,
            max_index_q16 <= 10 * 32 * 65536,
            inc == index_increment_q16,
            rounded_up_ratio(inc, r.feed_rate(), r.fs_out),
            0 < inc <= 400000,
            total == m * r.fs_out,
            0 <= total <= 480,
            u == widened_spec(buf@),
            buf@.len() >= m * r.feed_rate() + 8,
            base + total <= out_len,
            out@.len() == out_len,
            out@.len() == old(out)@.len(),
            0 <= produced <= total,
            index_q16 == produced * inc,
            forall|i: int|
                0 <= i < old(out)@.len() ==> #[trigger] out@[i] == (if base <= i < base + produced {
                    interp12_spec(u, ((i - base) * r.step()) / 12, ((i - base) * r.step()) % 12)
                } else {
                    old(out)@[i]
                }),
        decreases total - produced,
    {
        proof {
            lemma_q16_count(inc, r.feed_rate(), r.fs_out, m, produced as int);
            assert(12 * (2 * r.fs_in) == 24 * r.fs_in);
            lemma_q16_position(inc, 12, r.step(), r.feed_rate(), r.fs_out, produced as int);
            lemma_window(r, m, produced as int);
            reveal(smulwb_spec);
        }
        let frac: i32 = index_q16 % 65536;
        let t: usize = smulwb(frac, 12) as usize;
        let p: usize = (index_q16 / 65536) as usize;
        assert(t == (produced * r.step()) % 12);
        assert(p == (produced * r.step()) / 12);
        let a: [i16; 4] = RESAMPLER_FRAC_FIR_12[t];
        let b: [i16; 4] = RESAMPLER_FRAC_FIR_12[11 - t];
        let mut res_q15: i32 = crate::sigproc::smulbb(buf[p] as i32, a[0] as i32);
        res_q15 = smlabb(res_q15, buf[p + 1] as i32, a[1] as i32);
        res_q15 = smlabb(res_q15, buf[p + 2] as i32, a[2] as i32);
        res_q15 = smlabb(res_q15, buf[p + 3] as i32, a[3] as i32);
        res_q15 = smlabb(res_q15, buf[p + 4] as i32, b[3] as i32);
        res_q15 = smlabb(res_q15, buf[p + 5] as i32, b[2] as i32);
        res_q15 = smlabb(res_q15, buf[p + 6] as i32, b[1] as i32);
        res_q15 = smlabb(res_q15, buf[p + 7] as i32, b[0] as i32);
        out[base + produced] = sat16(rshift_round(res_q15, 15));
        assert((produced + 1) * inc == produced * inc + inc) by (nonlinear_arith);
        produced = produced + 1;
        index_q16 = index_q16 + index_increment_q16;
    }
    proof {
        lemma_q16_count(inc, r.feed_rate(), r.fs_out, m, produced as int);
    }
    produced
}

/// Interpolates the filtered signal at Q16 positions up to `max_index_q16`
/// into `out` from `base` on, and returns the number of outputs.
fn down_fir_interpol(
    out: &mut [i16],
    base: usize,
    buf: &[i32],
    coefs: &[i16],
    fir_order: usize,
    fir_fracs: i32,
    max_index_q16: i32,
    index_increment_q16: i32,
    Ghost(r): Ghost<ResamplerView>,
    Ghost(m): Ghost<int>,
) -> (produced: usize)
    requires
        r.wf(),
        r.function == ResamplerFn::DownFir,
        r.fir_order == fir_order,
        r.fir_fracs == fir_fracs,
        r.coefs == coefs@,
        1 <= m <= 10,
        max_index_q16 == m * r.fs_in * 65536,
        rounded_up_ratio(index_increment_q16 as int, r.fs_in, r.fs_out),
        buf@.len() >= m * r.fs_in + fir_order,
        base + m * r.fs_out <= old(out)@.len(),
    ensures
        produced == m * r.fs_out,
        final(out)@.len() == old(out)@.len(),
        forall|i: int|
            0 <= i < old(out)@.len() ==> #[trigger] final(out)@[i] == (if base <= i < base + m
                * r.fs_out {
                r.interp(
                    buf@,
                    ((i - base) * r.step()) / r.fir_fracs,
                    ((i - base) * r.step()) % r.fir_fracs,
                )
            } else {
                old(out)@[i]
            }),
{
    let out_len: usize = out.len();
    let ghost inc = index_increment_q16 as int;
    let ghost total = m * r.fs_out;
    let mut produced: usize = 0;
    let mut index_q16: i32 = 0;
    proof {
        assert(0 <= total <= 480) by (nonlinear_arith)
            requires
                total == m * r.fs_out,
                1 <= m <= 10,
                8 <= r.fs_out <= 48,
        ;
        assert(m * r.fs_in * 65536 <= 10 * 48 * 65536) by (nonlinear_arith)
            requires
                1 <= m <= 10,
                0 <= r.fs_in <= 48,
        ;
        assert(0 * inc == 0);
        lemma_q16_count(inc, r.fs_in, r.fs_out, m, 0);
    }
    while index_q16 < max_index_q16
        invariant
            r.wf(),
            r.function == ResamplerFn::DownFir,
            r.fir_order == fir_order,
            r.fir_fracs == fir_fracs,
            r.coefs == coefs@,
            1 <= m <= 10,
            max_index_q16 == m * r.fs_in * 65536,
            max_index_q16 <= 10 * 48 * 65536,
            inc == index_increment_q16,
            rounded_up_ratio(inc, r.fs_in, r.fs_out),
            0 < inc <= 400000,
            total == m * r.fs_out,
            0 <= total <= 480,
            buf@.len() >= m * r.fs_in + fir_order,
            base + total <= out_len,
            out@.len() == out_len,
            out@.len() == old(out)@.len(),
            0 <= produced <= total,
            index_q16 == produced * inc,
            forall|i: int|
                0 <= i < old(out)@.len() ==> #[trigger] out@[i] == (if base <= i < base + produced {
                    r.interp(
                        buf@,
                        ((i - base) * r.step()) / r.fir_fracs,
                        ((i - base) * r.step()) % r.fir_fracs,
                    )
                } else {
                    old(out)@[i]
                }),
        decreases total - produced,
    {
        proof {
            lemma_q16_count(inc, r.fs_in, r.fs_out, m, produced as int);
            lemma_q16_position(inc, r.fir_fracs, r.step(), r.fs_in, r.fs_out, produced as int);
            lemma_window(r, m, produced as int);
            reveal(smulwb_spec);
        }
        let frac: i32 = index_q16 % 65536;
        let t: usize = smulwb(frac, fir_fracs) as usize;
        let p: usize = (index_q16 / 65536) as usize;
        assert(t == (produced * r.step()) % r.fir_fracs);
        assert(p == (produced * r.step()) / r.fir_fracs);
        let mut res_q6: i32 = 0;
        if fir_order == DOWN_ORDER_FIR0 {
            let mut k: usize = 0;
            while k < 18
                invariant
                    k <= 18,
                    fir_order == 18,
                    (fir_fracs == 3 && coefs@.len() == 29) || (fir_fracs == 2 && coefs@.len() == 20),
                    0 <= t < fir_fracs,
                    p + 18 <= buf@.len(),
                    p <= 480,
                    res_q6 == down18_spec(
                        buf@,
                        coefs@,
                        fir_fracs as int,
                        p as int,
                        t as int,
                        k as int,
                    ),
                decreases 18 - k,
            {
                res_q6 = if k < 9 {
                    smlawb(res_q6, buf[p + k], coefs[2 + 9 * t + k] as i32)
                } else {
                    smlawb(
                        res_q6,
                        buf[p + 17 - (k - 9)],
                        coefs[2 + 9 * (fir_fracs as usize - 1 - t) + (k - 9)] as i32,
                    )
                };
                k = k + 1;
            }
        } else {
            let half: usize = fir_order / 2;
            let mut k: usize = 0;
            while k < half
                invariant
                    k <= half,
                    half == fir_order / 2,
                    fir_order == 24 || fir_order == 36,
                    coefs@.len() >= 2 + half,
                    p + fir_order <= buf@.len(),
                    p <= 480,
                    res_q6 == down_folded_spec(
                        buf@,
                        coefs@,
                        fir_order as int,
                        p as int,
                        k as int,
                    ),
                decreases half - k,
            {
                res_q6 = smlawb(
                    res_q6,
                    buf[p + k].wrapping_add(buf[p + fir_order - 1 - k]),
                    coefs[2 + k] as i32,
                );
                k = k + 1;
            }
        }
        out[base + produced] = sat16(rshift_round(res_q6, 6));
        assert((produced + 1) * inc == produced * inc + inc) by (nonlinear_arith);
        produced = produced + 1;
        index_q16 = index_q16 + index_increment_q16;
    }
    proof {
        lemma_q16_count(inc, r.fs_in, r.fs_out, m, produced as int);
    }
    produced
}

/// Nothing in, nothing out.
proof fn lemma_kernel_empty(r: ResamplerView)
    requires
        r.wf(),
    ensures
        r.kernel_next(Seq::empty()) == r,
        r.kernel_out(Seq::empty()) == Seq::<i16>::empty(),
{
    let e = Seq::<i16>::empty();
    assert(0int / r.fs_in == 0) by (nonlinear_arith)
        requires
            r.fs_in >= 8,
    ;
    if r.fractional() {
        lemma_feed_concat(r, e, e);
        assert((r.hist + r.feed(e)).subrange(0, r.taps()) =~= r.hist);
    }
    assert(r.next_iir(e) =~= r.iir);
    assert(r.kernel_next(e) =~= r);
    assert(r.kernel_out(e) =~= e);
}

impl Resampler {
    /// A resampler between two rates in Hz. A decoder's resampler comes from
    /// an internal rate, an encoder's goes to one.
    pub fn new(fs_hz_in: i32, fs_hz_out: i32, for_enc: bool) -> (r: Result<Self>)
        ensures
            r is Ok <==> valid_pair(fs_hz_in, fs_hz_out, for_enc),
            r is Err ==> r->Err_0 == CadenceError::UnsupportedFeature(
                Unsupported::RatePair(fs_hz_in, fs_hz_out),
            ),
            r is Ok ==> r->Ok_0.wf() && r->Ok_0@ == ResamplerView::start(
                fs_hz_in,
                fs_hz_out,
                for_enc,
            ),
    {
        let in_any: bool = fs_hz_in == 8000 || fs_hz_in == 12000 || fs_hz_in == 16000 || fs_hz_in
            == 24000 || fs_hz_in == 48000;
        let out_any: bool = fs_hz_out == 8000 || fs_hz_out == 12000 || fs_hz_out == 16000
            || fs_hz_out == 24000 || fs_hz_out == 48000;
        let valid: bool = if for_enc {
            in_any && out_any && fs_hz_out <= 16000
        } else {
            in_any && out_any && fs_hz_in <= 16000
        };
        if !valid {
            return Err(CadenceError::UnsupportedFeature(Unsupported::RatePair(fs_hz_in, fs_hz_out)));
        }
        let input_delay: usize = if for_enc {
            DELAY_MATRIX_ENC[rate_id(fs_hz_in)][rate_id(fs_hz_out)] as usize
        } else {
            DELAY_MATRIX_DEC[rate_id(fs_hz_in)][rate_id(fs_hz_out)] as usize
        };
        let fs_in_khz: usize = (fs_hz_in / 1000) as usize;
        let fs_out_khz: usize = (fs_hz_out / 1000) as usize;
        let mut resampler_function: ResamplerFn = ResamplerFn::Copy;
        let mut up2x: i32 = 1;
        let mut fir_order: usize = 0;
        let mut fir_fracs: i32 = 0;
        let mut coefs: &'static [i16] = &[];
        assert(coefs@ =~= Seq::empty());
        if fs_hz_out > fs_hz_in {
            if fs_hz_out == fs_hz_in * 2 {
                resampler_function = ResamplerFn::Up2Hq;
            } else {
                resampler_function = ResamplerFn::IirFir;
                up2x = 2;
            }
        } else if fs_hz_out < fs_hz_in {
            resampler_function = ResamplerFn::DownFir;
            if fs_hz_out * 4 == fs_hz_in * 3 {
                fir_fracs = 3;
                fir_order = DOWN_ORDER_FIR0;
                coefs = &RESAMPLER_3_4_COEFS;
            } else if fs_hz_out * 3 == fs_hz_in * 2 {
                fir_fracs = 2;
                fir_order = DOWN_ORDER_FIR0;
                coefs = &RESAMPLER_2_3_COEFS;
            } else if fs_hz_out * 2 == fs_hz_in {
                fir_fracs = 1;
                fir_order = DOWN_ORDER_FIR1;
                coefs = &RESAMPLER_1_2_COEFS;
            } else if fs_hz_out * 3 == fs_hz_in {
                fir_fracs = 1;
                fir_order = DOWN_ORDER_FIR2;
                coefs = &RESAMPLER_1_3_COEFS;
            } else if fs_hz_out * 4 == fs_hz_in {
                fir_fracs = 1;
                fir_order = DOWN_ORDER_FIR2;
                coefs = &RESAMPLER_1_4_COEFS;
            } else {
                fir_fracs = 1;
                fir_order = DOWN_ORDER_FIR2;
                coefs = &RESAMPLER_1_6_COEFS;
            }
        }
        let inv_ratio_q16: i32 = inverse_ratio(fs_hz_in, fs_hz_out, up2x);
        let r = Resampler {
            s_iir: [0; 6],
            s_fir_i32: [0; 36],
            s_fir_i16: [0; 8],
            delay_buf: [0; 48],
            resampler_function,
            batch_size: fs_in_khz * RESAMPLER_MAX_BATCH_SIZE_MS,
            inv_ratio_q16,
            fir_order,
            fir_fracs,
            fs_in_khz,
            fs_out_khz,
            input_delay,
            coefs,
        };
        proof {
            let s = ResamplerView::start(fs_hz_in, fs_hz_out, for_enc);
            assert(r@.iir =~= s.iir);
            assert(r@.hist =~= s.hist);
            assert(r@.delay =~= s.delay);
            assert(r@.coefs =~= s.coefs);
            assert(r@ =~= s);
            assert(fs_hz_in == 1000 * fs_in_khz && fs_hz_out == 1000 * fs_out_khz);
            assert(rounded_up_ratio(inv_ratio_q16 as int, up2x * fs_in_khz, fs_out_khz as int)) by {
                let x = inv_ratio_q16 as int;
                assert(x * fs_hz_out == 1000 * (x * fs_out_khz)) by (nonlinear_arith)
                    requires
                        fs_hz_out == 1000 * fs_out_khz,
                ;
                assert(up2x * fs_hz_in == 1000 * (up2x * fs_in_khz)) by (nonlinear_arith)
                    requires
                        fs_hz_in == 1000 * fs_in_khz,
                ;
            }
            lemma_start_wf(fs_hz_in, fs_hz_out, for_enc);
        }
        Ok(r)
    }

    /// Samples that the delay line carries from call to call.
    pub fn input_delay(&self) -> (d: usize)
        requires
            self.wf(),
        ensures
            d == self@.delay.len(),
            d <= self@.fs_in,
    {
        self.input_delay
    }
}

/// A new resampler is well formed.
pub proof fn lemma_start_wf(fs_hz_in: i32, fs_hz_out: i32, for_enc: bool)
    requires
        valid_pair(fs_hz_in, fs_hz_out, for_enc),
    ensures
        ResamplerView::start(fs_hz_in, fs_hz_out, for_enc).wf(),
        ResamplerView::start(fs_hz_in, fs_hz_out, for_enc).delay.len() <= 18,
{
    let s = ResamplerView::start(fs_hz_in, fs_hz_out, for_enc);
    if s.fractional() {
        if fs_hz_in == 8000 {
            if fs_hz_out == 12000 {
                lemma_exact_step(s, 12, 16, 12, 16);
            } else if fs_hz_out == 24000 {
                lemma_exact_step(s, 12, 16, 24, 8);
            } else {
                lemma_exact_step(s, 12, 16, 48, 4);
            }
        } else if fs_hz_in == 12000 {
            if fs_hz_out == 8000 {
                lemma_exact_step(s, 2, 12, 8, 3);
            } else if fs_hz_out == 16000 {
                lemma_exact_step(s, 12, 24, 16, 18);
            } else {
                lemma_exact_step(s, 12, 24, 48, 6);
            }
        } else if fs_hz_in == 16000 {
            if fs_hz_out == 8000 {
                lemma_exact_step(s, 1, 16, 8, 2);
            } else if fs_hz_out == 12000 {
                lemma_exact_step(s, 3, 16, 12, 4);
            } else if fs_hz_out == 24000 {
                lemma_exact_step(s, 12, 32, 24, 16);
            } else {
                lemma_exact_step(s, 12, 32, 48, 8);
            }
        } else if fs_hz_in == 24000 {
            if fs_hz_out == 8000 {
                lemma_exact_step(s, 1, 24, 8, 3);
            } else if fs_hz_out == 12000 {
                lemma_exact_step(s, 1, 24, 12, 2);
            } else {
                lemma_exact_step(s, 2, 24, 16, 3);
            }
        } else {
            if fs_hz_out == 8000 {
                lemma_exact_step(s, 1, 48, 8, 6);
            } else if fs_hz_out == 12000 {
                lemma_exact_step(s, 1, 48, 12, 4);
            } else {
                lemma_exact_step(s, 1, 48, 16, 3);
            }
        }
    }
}

/// The phases of a millisecond of feed are a multiple of the outputs.
proof fn lemma_exact_step(s: ResamplerView, p: int, f: int, o: int, k: int)
    requires
        s.phases() == p,
        s.feed_rate() == f,
        s.fs_out == o,
        p * f == k * o,
        o > 0,
    ensures
        s.step() * s.fs_out == s.phases() * s.feed_rate(),
{
    assert(o * k == k * o) by (nonlinear_arith);
    vstd::arithmetic::div_mod::lemma_fundamental_div_mod_converse(p * f, o, k, 0);
}

impl Resampler {
    /// One batch of the fractional upsampler.
    fn iir_fir(&mut self, out: &mut [i16], base: usize, input: &[i16], Ghost(m): Ghost<int>)
        requires
            old(self).wf(),
            old(self)@.function == ResamplerFn::IirFir,
            1 <= m <= 10,
            input@.len() == m * old(self)@.fs_in,
            base + m * old(self)@.fs_out <= old(out)@.len(),
        ensures
            final(self).wf(),
            final(self)@ == old(self)@.kernel_next(input@),
            old(self)@.kernel_out(input@).len() == m * old(self)@.fs_out,
            final(out)@.len() == old(out)@.len(),
            forall|i: int|
                0 <= i < old(out)@.len() ==> #[trigger] final(out)@[i] == (if base <= i < base + m
                    * old(self)@.fs_out {
                    old(self)@.kernel_out(input@)[i - base]
                } else {
                    old(out)@[i]
                }),
    {
        let n: usize = input.len();
        let ghost v0 = self@;
        let ghost feed = v0.feed(input@);
        proof {
            assert(m * v0.fs_in <= 10 * 48) by (nonlinear_arith)
                requires
                    1 <= m <= 10,
                    8 <= v0.fs_in <= 48,
            ;
            assert(input@.len() as int / v0.fs_in == m) by (nonlinear_arith)
                requires
                    input@.len() == m * v0.fs_in,
                    v0.fs_in >= 8,
            ;
            assert(m * v0.fs_out >= 0) by (nonlinear_arith)
                requires
                    1 <= m,
                    8 <= v0.fs_out,
            ;
        }
        proof {
            assert(m * (2 * v0.fs_in) == 2 * (m * v0.fs_in)) by (nonlinear_arith);
            lemma_up2_len(v0.iir, input@, n as int);
            assert(n <= 160) by (nonlinear_arith)
                requires
                    n == m * v0.fs_in,
                    m <= 10,
                    0 <= v0.fs_in <= 16,
            ;
        }
        let mut buf: [i16; 968] = [0; 968];
        let mut k: usize = 0;
        while k < 8
            invariant
                k <= 8,
                forall|i: int| 0 <= i < k ==> buf@[i] == self.s_fir_i16@[i],
            decreases 8 - k,
        {
            buf[k] = self.s_fir_i16[k];
            k = k + 1;
        }
        let (_, tail) = buf.split_at_mut(8);
        let (doubled, _) = tail.split_at_mut(2 * n);
        up2_hq(&mut self.s_iir, doubled, input);
        assert(widened_spec(buf@.subrange(0, 8 + 2 * n)) =~= v0.hist + feed);
        let max_index_q16: i32 = (n as i32) * 131072;
        let increment: i32 = self.inv_ratio_q16;
        let _ = iir_fir_interpol(
            out,
            base,
            &buf[0..8 + 2 * n],
            max_index_q16,
            increment,
            Ghost(v0),
            Ghost(m),
        );
        let mut k: usize = 0;
        let ghost mid = *self;
        while k < 8
            invariant
                k <= 8,
                n <= 160,
                *self == (Resampler { s_fir_i16: self.s_fir_i16, ..mid }),
                forall|i: int| 0 <= i < k ==> self.s_fir_i16@[i] == buf@[2 * n + i],
            decreases 8 - k,
        {
            self.s_fir_i16[k] = buf[2 * n + k];
            k = k + 1;
        }
        proof {
            let next = v0.kernel_next(input@);
            assert(self@.hist =~= next.hist);
            assert(self@ =~= next);
            lemma_kernel_next_wf(v0, input@);
        }
    }

    /// One batch of the downsampler.
    fn down_fir(&mut self, out: &mut [i16], base: usize, input: &[i16], Ghost(m): Ghost<int>)
        requires
            old(self).wf(),
            old(self)@.function == ResamplerFn::DownFir,
            1 <= m <= 10,
            input@.len() == m * old(self)@.fs_in,
            base + m * old(self)@.fs_out <= old(out)@.len(),
        ensures
            final(self).wf(),
            final(self)@ == old(self)@.kernel_next(input@),
            old(self)@.kernel_out(input@).len() == m * old(self)@.fs_out,
            final(out)@.len() == old(out)@.len(),
            forall|i: int|
                0 <= i < old(out)@.len() ==> #[trigger] final(out)@[i] == (if base <= i < base + m
                    * old(self)@.fs_out {
                    old(self)@.kernel_out(input@)[i - base]
                } else {
                    old(out)@[i]
                }),
    {
        let n: usize = input.len();
        let ghost v0 = self@;
        let ghost feed = v0.feed(input@);
        proof {
            assert(m * v0.fs_in <= 10 * 48) by (nonlinear_arith)
                requires
                    1 <= m <= 10,
                    8 <= v0.fs_in <= 48,
            ;
            assert(input@.len() as int / v0.fs_in == m) by (nonlinear_arith)
                requires
                    input@.len() == m * v0.fs_in,
                    v0.fs_in >= 8,
            ;
            assert(m * v0.fs_out >= 0) by (nonlinear_arith)
                requires
                    1 <= m,
                    8 <= v0.fs_out,
            ;
        }
        let order: usize = self.fir_order;
        let mut buf: [i32; 516] = [0; 516];
        let mut k: usize = 0;
        while k < order
            invariant
                k <= order <= 36,
                forall|i: int| 0 <= i < k ==> buf@[i] == self.s_fir_i32@[i],
            decreases order - k,
        {
            buf[k] = self.s_fir_i32[k];
            k = k + 1;
        }
        let (_, tail) = buf.split_at_mut(order);
        let (filtered, _) = tail.split_at_mut(n);
        ar2(&mut self.s_iir, filtered, input, self.coefs);
        assert(buf@.subrange(0, order + n) =~= v0.hist + feed);
        let max_index_q16: i32 = (n as i32) * 65536;
        let increment: i32 = self.inv_ratio_q16;
        let _ = down_fir_interpol(
            out,
            base,
            &buf[0..order + n],
            self.coefs,
            order,
            self.fir_fracs,
            max_index_q16,
            increment,
            Ghost(v0),
            Ghost(m),
        );
        let mut k: usize = 0;
        let ghost mid = *self;
        while k < order
            invariant
                k <= order <= 36,
                n <= 480,
                *self == (Resampler { s_fir_i32: self.s_fir_i32, ..mid }),
                forall|i: int| 0 <= i < k ==> self.s_fir_i32@[i] == buf@[n + i],
            decreases order - k,
        {
            self.s_fir_i32[k] = buf[n + k];
            k = k + 1;
        }
        proof {
            let next = v0.kernel_next(input@);
            assert(self@.hist =~= next.hist);
            assert(self@ =~= next);
            lemma_kernel_next_wf(v0, input@);
        }
    }

    /// A fractional kernel on whole milliseconds, in batches of at most 10 ms.
    fn fractional(&mut self, out: &mut [i16], input: &[i16])
        requires
            old(self).wf(),
            old(self)@.fractional(),
            input@.len() as int % old(self)@.fs_in == 0,
            old(out)@.len() == (input@.len() as int / old(self)@.fs_in) * old(self)@.fs_out,
        ensures
            final(self).wf(),
            final(self)@ == old(self)@.kernel_next(input@),
            final(out)@ == old(self)@.kernel_out(input@),
            final(out)@.len() == old(out)@.len(),
    {
        let ghost v0 = self@;
        let ghost total = input@.len() as int / v0.fs_in;
        let len: usize = input.len();
        let out_len: usize = out.len();
        let batch_size: usize = self.batch_size;
        let fs_in: usize = self.fs_in_khz;
        let fs_out: usize = self.fs_out_khz;
        let mut in_pos: usize = 0;
        let mut out_pos: usize = 0;
        let ghost mut ms: int = 0;
        proof {
            lemma_ms(len as int, v0.fs_in);
            lemma_kernel_empty(v0);
            assert(input@.subrange(0, 0) =~= Seq::empty());
            assert(out@.subrange(0, 0) =~= Seq::empty());
        }
        while in_pos < len
            invariant
                v0 == old(self)@,
                v0.wf(),
                v0.fractional(),
                self.wf(),
                fs_in == v0.fs_in,
                fs_out == v0.fs_out,
                batch_size == 10 * fs_in,
                len == input@.len(),
                out_len == out@.len(),
                len == total * v0.fs_in,
                out_len == total * v0.fs_out,
                0 <= ms <= total,
                in_pos == ms * v0.fs_in,
                out_pos == ms * v0.fs_out,
                in_pos <= len,
                out_pos <= out_len,
                self@ == v0.kernel_next(input@.subrange(0, in_pos as int)),
                out@.subrange(0, out_pos as int) == v0.kernel_out(
                    input@.subrange(0, in_pos as int),
                ),
            decreases len - in_pos,
        {
            let rest: usize = len - in_pos;
            let n: usize = if rest < batch_size {
                rest
            } else {
                batch_size
            };
            let ghost m: int = if total - ms < 10 {
                total - ms
            } else {
                10
            };
            let ghost before = input@.subrange(0, in_pos as int);
            let ghost chunk = input@.subrange(in_pos as int, in_pos + n);
            let ghost out_before = out@;
            let ghost v = self@;
            proof {
                lemma_batch(len as int, ms, total, v0.fs_in);
                lemma_batch(out_len as int, ms, total, v0.fs_out);
                lemma_multiple(ms, v0.fs_in);
                lemma_multiple(m, v0.fs_in);
                lemma_kernel_concat(v0, before, chunk);
                assert(before + chunk =~= input@.subrange(0, in_pos + n));
            }
            let produced: usize = n / fs_in * fs_out;
            match self.resampler_function {
                ResamplerFn::IirFir => {
                    self.iir_fir(out, out_pos, &input[in_pos..in_pos + n], Ghost(m));
                },
                _ => {
                    self.down_fir(out, out_pos, &input[in_pos..in_pos + n], Ghost(m));
                },
            }
            proof {
                assert(out@.subrange(0, out_pos + m * v0.fs_out) =~= out_before.subrange(
                    0,
                    out_pos as int,
                ) + v.kernel_out(chunk));
                assert((ms + m) * v0.fs_in == ms * v0.fs_in + m * v0.fs_in) by (nonlinear_arith);
                assert((ms + m) * v0.fs_out == ms * v0.fs_out + m * v0.fs_out) by (nonlinear_arith);
                ms = ms + m;
            }
            in_pos = in_pos + n;
            out_pos = out_pos + produced;
        }
        proof {
            assert(ms == total) by (nonlinear_arith)
                requires
                    ms * v0.fs_in == total * v0.fs_in,
                    v0.fs_in >= 8,
            ;
            assert(input@.subrange(0, len as int) =~= input@);
            assert(out@.subrange(0, out_len as int) =~= out@);
        }
    }

    /// Resamples whole milliseconds, at least one, into exactly as many.
    pub fn resample(&mut self, out: &mut [i16], input: &[i16]) -> (r: Result<()>)
        requires
            old(self).wf(),
            6 * input@.len() <= usize::MAX,
        ensures
            final(self).wf(),
            final(out)@.len() == old(out)@.len(),
            ({
                let fs_in = old(self)@.fs_in;
                let n = input@.len() as int;
                let expected = n / fs_in * old(self)@.fs_out;
                if n < fs_in {
                    r == Err::<(), CadenceError>(
                        CadenceError::BufferTooSmall {
                            needed: fs_in as usize,
                            provided: n as usize,
                        },
                    )
                } else if n % fs_in != 0 {
                    r == Err::<(), CadenceError>(
                        CadenceError::UnsupportedFeature(
                            Unsupported::PartialMillisecond(n as usize),
                        ),
                    )
                } else if old(out)@.len() != expected {
                    r == Err::<(), CadenceError>(
                        CadenceError::BufferTooSmall {
                            needed: expected as usize,
                            provided: old(out)@.len() as usize,
                        },
                    )
                } else {
                    &&& r is Ok
                    &&& final(out)@ == old(self)@.resample_out(input@)
                    &&& final(self)@ == old(self)@.resample_next(input@)
                }
            }),
            r is Err ==> final(out)@ == old(out)@ && *final(self) == *old(self),
    {
        let len: usize = input.len();
        let out_len: usize = out.len();
        let fs_in: usize = self.fs_in_khz;
        let fs_out: usize = self.fs_out_khz;
        let delay: usize = self.input_delay;
        if len < fs_in {
            return Err(CadenceError::BufferTooSmall { needed: fs_in, provided: len });
        }
        if len % fs_in != 0 {
            return Err(CadenceError::UnsupportedFeature(Unsupported::PartialMillisecond(len)));
        }
        let ghost v0 = self@;
        let ghost total = len as int / v0.fs_in;
        proof {
            lemma_ms(len as int, v0.fs_in);
            assert(total * v0.fs_out <= 6 * (total * v0.fs_in)) by (nonlinear_arith)
                requires
                    total >= 0,
                    v0.fs_out <= 48,
                    v0.fs_in >= 8,
            ;
            assert(total * v0.fs_out >= 0) by (nonlinear_arith)
                requires
                    total >= 0,
                    v0.fs_out >= 8,
            ;
        }
        let expected: usize = len / fs_in * fs_out;
        if out_len != expected {
            return Err(CadenceError::BufferTooSmall { needed: expected, provided: out_len });
        }
        let n: usize = fs_in - delay;
        let mut k: usize = 0;
        let ghost start = *self;
        while k < n
            invariant
                k <= n,
                n == fs_in - delay,
                delay <= fs_in <= 48,
                n <= input@.len(),
                *self == (Resampler { delay_buf: self.delay_buf, ..start }),
                forall|i: int| 0 <= i < delay ==> self.delay_buf@[i] == start.delay_buf@[i],
                forall|i: int| 0 <= i < k ==> self.delay_buf@[delay + i] == input@[i],
            decreases n - k,
        {
            self.delay_buf[delay + k] = input[k];
            k = k + 1;
        }
        let head: [i16; 48] = self.delay_buf;
        let ghost first = head@.subrange(0, fs_in as int);
        let ghost rest = input@.subrange(n as int, len - delay);
        proof {
            assert(self@ =~= v0);
            assert(first + rest =~= v0.delayed(input@));
            lemma_first_ms(len as int, total, v0.fs_in, v0.fs_out);
            lemma_kernel_concat(v0, first, rest);
        }
        match self.resampler_function {
            ResamplerFn::Up2Hq => {
                let (out_head, out_rest) = out.split_at_mut(fs_out);
                proof {
                    assert(2 * (len - fs_in) == expected - fs_out) by (nonlinear_arith)
                        requires
                            len == total * v0.fs_in,
                            expected == total * v0.fs_out,
                            v0.fs_out == 2 * v0.fs_in,
                            fs_in == v0.fs_in,
                            fs_out == v0.fs_out,
                    ;
                }
                up2_hq(&mut self.s_iir, out_head, &head[0..fs_in]);
                assert(self@ =~= v0.kernel_next(first));
                up2_hq(&mut self.s_iir, out_rest, &input[n..len - delay]);
                assert(self@ =~= v0.kernel_next(first).kernel_next(rest));
            },
            ResamplerFn::Copy => {
                let mut k: usize = 0;
                let ghost joined = v0.delayed(input@);
                assert(expected == len);
                assert(joined.len() == len);
                while k < out_len
                    invariant
                        k <= out_len,
                        out_len == out@.len(),
                        out_len == len,
                        len == input@.len(),
                        n == fs_in - delay,
                        delay <= fs_in <= 48,
                        fs_in <= len,
                        joined == head@.subrange(0, fs_in as int) + input@.subrange(
                            n as int,
                            len - delay,
                        ),
                        forall|i: int| 0 <= i < k ==> out@[i] == joined[i],
                    decreases out_len - k,
                {
                    out[k] = if k < fs_in {
                        head[k]
                    } else {
                        input[k - delay]
                    };
                    k = k + 1;
                }
                assert(out@ =~= joined);
                assert(self@ =~= v0.kernel_next(first).kernel_next(rest));
            },
            _ => {
                let (out_head, out_rest) = out.split_at_mut(fs_out);
                self.fractional(out_head, &head[0..fs_in]);
                self.fractional(out_rest, &input[n..len - delay]);
            },
        }
        proof {
            assert(self@ == v0.kernel_next(v0.delayed(input@)));
            assert(out@ =~= v0.resample_out(input@));
        }
        let mut k: usize = 0;
        let ghost mid = *self;
        assert(mid@ == v0.kernel_next(v0.delayed(input@)));
        assert(mid.input_delay == delay) by {
            assert(mid@.delay.len() == v0.delay.len());
        }
        while k < delay
            invariant
                k <= delay,
                delay <= 48,
                delay <= len,
                len == input@.len(),
                *self == (Resampler { delay_buf: self.delay_buf, ..mid }),
                forall|i: int| 0 <= i < k ==> self.delay_buf@[i] == input@[len - delay + i],
            decreases delay - k,
        {
            self.delay_buf[k] = input[len - delay + k];
            k = k + 1;
        }
        proof {
            let next = v0.resample_next(input@);
            assert(self@.delay =~= next.delay);
            assert(self@ =~= next);
            lemma_kernel_next_wf(v0, v0.delayed(input@));
            assert(next.step() == mid@.step());
        }
        Ok(())
    }
}

/// The samples from millisecond `ms` on, of which a batch takes at most ten.
proof fn lemma_batch(len: int, ms: int, total: int, fs: int)
    requires
        len == total * fs,
        fs >= 8,
        0 <= ms <= total,
    ensures
        ms * fs < len ==> ms < total,
        len - ms * fs == (total - ms) * fs,
        total - ms < 10 ==> (total - ms) * fs < 10 * fs,
        total - ms >= 10 ==> (total - ms) * fs >= 10 * fs,
        ms * fs >= 0,
{
    assert(len - ms * fs == (total - ms) * fs) by (nonlinear_arith)
        requires
            len == total * fs,
    ;
    assert(ms * fs < len ==> ms < total) by (nonlinear_arith)
        requires
            len == total * fs,
            fs >= 8,
            0 <= ms <= total,
    ;
    assert(total - ms < 10 ==> (total - ms) * fs < 10 * fs) by (nonlinear_arith)
        requires
            fs >= 8,
    ;
    assert(total - ms >= 10 ==> (total - ms) * fs >= 10 * fs) by (nonlinear_arith)
        requires
            fs >= 8,
    ;
    assert(ms * fs >= 0) by (nonlinear_arith)
        requires
            fs >= 8,
            ms >= 0,
    ;
}

proof fn lemma_multiple(m: int, fs: int)
    requires
        fs >= 1,
        m >= 0,
    ensures
        (m * fs) % fs == 0,
        (m * fs) / fs == m,
        m * fs >= 0,
{
    assert(fs * m == m * fs) by (nonlinear_arith);
    vstd::arithmetic::div_mod::lemma_fundamental_div_mod_converse(m * fs, fs, m, 0);
    assert(m * fs >= 0) by (nonlinear_arith)
        requires
            fs >= 1,
            m >= 0,
    ;
}

/// The first of at least one millisecond, and the others.
proof fn lemma_first_ms(len: int, total: int, fs_in: int, fs_out: int)
    requires
        len == total * fs_in,
        len >= fs_in,
        fs_in >= 8,
        fs_out >= 8,
    ensures
        total >= 1,
        fs_in % fs_in == 0,
        fs_in / fs_in == 1,
        (len - fs_in) % fs_in == 0,
        (len - fs_in) / fs_in == total - 1,
        total * fs_out == fs_out + (total - 1) * fs_out,
        (total - 1) * fs_out >= 0,
        ((len - fs_in) / fs_in) * fs_out == total * fs_out - fs_out,
{
    assert(total >= 1) by (nonlinear_arith)
        requires
            len == total * fs_in,
            len >= fs_in,
            fs_in >= 8,
    ;
    assert((total - 1) * fs_in == total * fs_in - fs_in) by (nonlinear_arith);
    assert((total - 1) * fs_out == total * fs_out - fs_out) by (nonlinear_arith);
    lemma_multiple(total - 1, fs_in);
    lemma_multiple(total - 1, fs_out);
    lemma_multiple(1, fs_in);
}

// ---------------------------------------------------------------------
// Halving and two thirds
// ---------------------------------------------------------------------

/// One pair of input samples through the two allpass sections: the states
/// behind it and the output.
pub open spec fn down2_step_spec(s: (i32, i32), even: i16, odd: i16) -> (i32, i32, i16) {
    let e = (even as i32).wrapping_shl(10);
    let y = e.wrapping_sub(s.0);
    let x = smlawb_spec(y, y, RESAMPLER_DOWN2_1 as i32);
    let o = (odd as i32).wrapping_shl(10);
    let z = smulwb_spec(o.wrapping_sub(s.1), RESAMPLER_DOWN2_0 as i32);
    (
        e.wrapping_add(x),
        o.wrapping_add(z),
        sat16_spec(
            rshift_round_spec(s.0.wrapping_add(x).wrapping_add(s.1).wrapping_add(z), 11),
        ),
    )
}

/// The states after `n` pairs.
pub open spec fn down2_run_spec(s: (i32, i32), input: Seq<i16>, n: int) -> (i32, i32)
    decreases n,
{
    if n <= 0 {
        s
    } else {
        let t = down2_run_spec(s, input, n - 1);
        let r = down2_step_spec(t, input[2 * n - 2], input[2 * n - 1]);
        (r.0, r.1)
    }
}

/// The outputs of `n` pairs.
pub open spec fn down2_out_spec(s: (i32, i32), input: Seq<i16>, n: int) -> Seq<i16> {
    Seq::new(
        n as nat,
        |k: int| down2_step_spec(down2_run_spec(s, input, k), input[2 * k], input[2 * k + 1]).2,
    )
}

/// Halves the rate of `input` into the front of `out`. An odd last sample is
/// left out.
pub fn down2(s: &mut [i32; 2], out: &mut [i16], input: &[i16])
    requires
        old(out)@.len() >= input@.len() as int / 2,
    ensures
        ({
            let n = input@.len() as int / 2;
            let s0 = (old(s)@[0], old(s)@[1]);
            let t = down2_run_spec(s0, input@, n);
            &&& final(s)@ == seq![t.0, t.1]
            &&& final(out)@ == down2_out_spec(s0, input@, n) + old(out)@.subrange(
                n,
                old(out)@.len() as int,
            )
        }),
{
    let len: usize = input.len();
    let len2: usize = len / 2;
    let ghost s0 = (s@[0], s@[1]);
    let mut k: usize = 0;
    while k < len2
        invariant
            k <= len2,
            len == input@.len(),
            len2 == len / 2,
            out@.len() == old(out)@.len(),
            out@.len() >= len2,
            (s@[0], s@[1]) == down2_run_spec(s0, input@, k as int),
            forall|i: int|
                0 <= i < k ==> #[trigger] out@[i] == down2_out_spec(s0, input@, len2 as int)[i],
            forall|i: int| k <= i < out@.len() ==> #[trigger] out@[i] == old(out)@[i],
        decreases len2 - k,
    {
        let e: i32 = (input[2 * k] as i32).wrapping_shl(10);
        let y: i32 = e.wrapping_sub(s[0]);
        let x: i32 = smlawb(y, y, RESAMPLER_DOWN2_1 as i32);
        let mut out32: i32 = s[0].wrapping_add(x);
        s[0] = e.wrapping_add(x);
        let o: i32 = (input[2 * k + 1] as i32).wrapping_shl(10);
        let z: i32 = smulwb(o.wrapping_sub(s[1]), RESAMPLER_DOWN2_0 as i32);
        out32 = out32.wrapping_add(s[1]);
        out32 = out32.wrapping_add(z);
        s[1] = o.wrapping_add(z);
        out[k] = sat16(rshift_round(out32, 11));
        k = k + 1;
    }
    proof {
        let n = len2 as int;
        let t = down2_run_spec(s0, input@, n);
        assert(s@ =~= seq![t.0, t.1]);
        assert(out@ =~= down2_out_spec(s0, input@, n) + old(out)@.subrange(
            n,
            old(out)@.len() as int,
        ));
    }
}

/// The four last filtered samples with the filtered `input` behind them.
pub open spec fn down2_3_signal_spec(s: Seq<i32>, input: Seq<i16>) -> Seq<i32> {
    s.subrange(0, 4) + ar2_out_spec(
        (s[4], s[5]),
        input,
        RESAMPLER_2_3_COEFS_LQ@,
        input.len() as int,
    )
}

/// The two outputs for three filtered samples from `p` on.
pub open spec fn down2_3_even_spec(u: Seq<i32>, p: int) -> i16 {
    let c = RESAMPLER_2_3_COEFS_LQ@;
    let a = smulwb_spec(u[p], c[2] as i32);
    let a = smlawb_spec(a, u[p + 1], c[3] as i32);
    let a = smlawb_spec(a, u[p + 2], c[5] as i32);
    let a = smlawb_spec(a, u[p + 3], c[4] as i32);
    sat16_spec(rshift_round_spec(a, 6))
}

pub open spec fn down2_3_odd_spec(u: Seq<i32>, p: int) -> i16 {
    let c = RESAMPLER_2_3_COEFS_LQ@;
    let a = smulwb_spec(u[p + 1], c[4] as i32);
    let a = smlawb_spec(a, u[p + 2], c[5] as i32);
    let a = smlawb_spec(a, u[p + 3], c[3] as i32);
    let a = smlawb_spec(a, u[p + 4], c[2] as i32);
    sat16_spec(rshift_round_spec(a, 6))
}

/// Two outputs for each whole triple of input samples.
pub open spec fn down2_3_out_spec(s: Seq<i32>, input: Seq<i16>) -> Seq<i16> {
    let u = down2_3_signal_spec(s, input);
    Seq::new(
        (2 * (input.len() as int / 3)) as nat,
        |j: int|
            if j % 2 == 0 {
                down2_3_even_spec(u, 3 * (j / 2))
            } else {
                down2_3_odd_spec(u, 3 * (j / 2))
            },
    )
}

/// The state behind `input`.
pub open spec fn down2_3_next_spec(s: Seq<i32>, input: Seq<i16>) -> Seq<i32> {
    let n = input.len() as int;
    let t = ar2_run_spec((s[4], s[5]), input, RESAMPLER_2_3_COEFS_LQ@, n);
    down2_3_signal_spec(s, input).subrange(n, n + 4).push(t.0).push(t.1)
}

/// Pieces of whole triples give in turn what they give at once.
pub proof fn lemma_down2_3_concat(s: Seq<i32>, a: Seq<i16>, b: Seq<i16>)
    requires
        s.len() == 6,
        a.len() as int % 3 == 0,
    ensures
        down2_3_out_spec(s, a + b) == down2_3_out_spec(s, a) + down2_3_out_spec(
            down2_3_next_spec(s, a),
            b,
        ),
        down2_3_next_spec(s, a + b) == down2_3_next_spec(down2_3_next_spec(s, a), b),
{
    let c = RESAMPLER_2_3_COEFS_LQ@;
    let na = a.len() as int;
    let nb = b.len() as int;
    let s2 = down2_3_next_spec(s, a);
    lemma_ar2_out_concat((s[4], s[5]), a, b, c);
    lemma_ar2_run_concat((s[4], s[5]), a, b, c, nb);
    let u = down2_3_signal_spec(s, a + b);
    let v = down2_3_signal_spec(s, a);
    let w = down2_3_signal_spec(s2, b);
    assert(forall|i: int| 0 <= i < na + 4 ==> #[trigger] v[i] == u[i]);
    assert(forall|i: int| 0 <= i < nb + 4 ==> #[trigger] w[i] == u[na + i]);
    assert((na + nb) / 3 == na / 3 + nb / 3);
    let l = down2_3_out_spec(s, a + b);
    let r = down2_3_out_spec(s, a) + down2_3_out_spec(s2, b);
    assert forall|j: int| 0 <= j < l.len() implies l[j] == r[j] by {
        let p = 3 * (j / 2);
        if j < 2 * (na / 3) {
            assert(p + 4 < na + 4);
        } else {
            let i = j - 2 * (na / 3);
            let q = 3 * (i / 2);
            assert(j / 2 == na / 3 + i / 2);
            assert(p == na + q);
            assert(q + 4 < nb + 4);
            assert(w[q] == u[na + q] && w[q + 1] == u[na + (q + 1)] && w[q + 2] == u[na + (q + 2)]
                && w[q + 3] == u[na + (q + 3)] && w[q + 4] == u[na + (q + 4)]);
        }
    }
    assert(l =~= r);
    assert(u.subrange(na + nb, na + nb + 4) =~= w.subrange(nb, nb + 4));
    assert(down2_3_next_spec(s, a + b) =~= down2_3_next_spec(s2, b));
}

/// One batch into `out` from `base` on.
fn down2_3_batch(s: &mut [i32; 6], out: &mut [i16], base: usize, input: &[i16])
    requires
        input@.len() <= 480,
        base + 2 * (input@.len() as int / 3) <= old(out)@.len(),
    ensures
        final(s)@ == down2_3_next_spec(old(s)@, input@),
        final(out)@.len() == old(out)@.len(),
        forall|i: int|
            0 <= i < old(out)@.len() ==> #[trigger] final(out)@[i] == (if base <= i < base + 2 * (
            input@.len() as int / 3) {
                down2_3_out_spec(old(s)@, input@)[i - base]
            } else {
                old(out)@[i]
            }),
{
    let n: usize = input.len();
    let out_len: usize = out.len();
    let mut buf: [i32; 484] = [0; 484];
    let mut k: usize = 0;
    while k < 4
        invariant
            k <= 4,
            forall|i: int| 0 <= i < k ==> buf@[i] == s@[i],
        decreases 4 - k,
    {
        buf[k] = s[k];
        k = k + 1;
    }
    let mut ar: [i32; 2] = [s[4], s[5]];
    let (_, tail) = buf.split_at_mut(4);
    let (filtered, _) = tail.split_at_mut(n);
    ar2(&mut ar, filtered, input, &RESAMPLER_2_3_COEFS_LQ);
    let ghost u = down2_3_signal_spec(s@, input@);
    let ghost spec = down2_3_out_spec(s@, input@);
    assert(buf@.subrange(0, n + 4) =~= u);
    assert(forall|i: int| 0 <= i < n + 4 ==> buf@[i] == #[trigger] u[i]) by {
        assert(forall|i: int| 0 <= i < n + 4 ==> buf@[i] == #[trigger] buf@.subrange(0, n + 4)[i]);
    }
    let mut p: usize = 0;
    let mut pos: usize = base;
    while p + 2 < n
        invariant
            n == input@.len(),
            n <= 480,
            p <= n,
            p % 3 == 0,
            pos == base + 2 * (p / 3),
            base + 2 * (n / 3) <= out_len,
            out_len == out@.len(),
            out@.len() == old(out)@.len(),
            u == down2_3_signal_spec(s@, input@),
            spec == down2_3_out_spec(s@, input@),
            u.len() == n + 4,
            forall|i: int| 0 <= i < n + 4 ==> buf@[i] == #[trigger] u[i],
            forall|i: int|
                0 <= i < old(out)@.len() ==> #[trigger] out@[i] == (if base <= i < pos {
                    spec[i - base]
                } else {
                    old(out)@[i]
                }),
        decreases n - p,
    {
        let mut res_q6: i32 = smulwb(buf[p], RESAMPLER_2_3_COEFS_LQ[2] as i32);
        res_q6 = smlawb(res_q6, buf[p + 1], RESAMPLER_2_3_COEFS_LQ[3] as i32);
        res_q6 = smlawb(res_q6, buf[p + 2], RESAMPLER_2_3_COEFS_LQ[5] as i32);
        res_q6 = smlawb(res_q6, buf[p + 3], RESAMPLER_2_3_COEFS_LQ[4] as i32);
        let first: i16 = sat16(rshift_round(res_q6, 6));
        res_q6 = smulwb(buf[p + 1], RESAMPLER_2_3_COEFS_LQ[4] as i32);
        res_q6 = smlawb(res_q6, buf[p + 2], RESAMPLER_2_3_COEFS_LQ[5] as i32);
        res_q6 = smlawb(res_q6, buf[p + 3], RESAMPLER_2_3_COEFS_LQ[3] as i32);
        res_q6 = smlawb(res_q6, buf[p + 4], RESAMPLER_2_3_COEFS_LQ[2] as i32);
        let second: i16 = sat16(rshift_round(res_q6, 6));
        proof {
            let j = pos - base;
            assert(j / 2 == p as int / 3 && j % 2 == 0 && (j + 1) / 2 == p as int / 3 && (j + 1) % 2
                == 1);
            assert(spec[j] == down2_3_even_spec(u, p as int));
            assert(spec[j + 1] == down2_3_odd_spec(u, p as int));
            assert(first == down2_3_even_spec(u, p as int));
            assert(second == down2_3_odd_spec(u, p as int));
        }
        out[pos] = first;
        out[pos + 1] = second;
        pos = pos + 2;
        p = p + 3;
    }
    let ghost s0 = s@;
    let mut k: usize = 0;
    while k < 4
        invariant
            k <= 4,
            n <= 480,
            forall|i: int| 0 <= i < k ==> s@[i] == buf@[n + i],
        decreases 4 - k,
    {
        s[k] = buf[n + k];
        k = k + 1;
    }
    s[4] = ar[0];
    s[5] = ar[1];
    proof {
        assert(p as int / 3 == n as int / 3);
        assert(forall|i: int| 0 <= i < 4 ==> buf@[n + i] == #[trigger] u[n + i]);
        assert(s@ =~= down2_3_next_spec(s0, input@));
    }
}

/// Takes `input` to two thirds of its rate, into the front of `out`, at low
/// quality. The state is four filtered samples and two filter states.
pub fn down2_3(s: &mut [i32; 6], out: &mut [i16], input: &[i16])
    requires
        old(out)@.len() >= 2 * (input@.len() as int / 3),
    ensures
        final(s)@ == down2_3_next_spec(old(s)@, input@),
        final(out)@ == down2_3_out_spec(old(s)@, input@) + old(out)@.subrange(
            2 * (input@.len() as int / 3),
            old(out)@.len() as int,
        ),
{
    let len: usize = input.len();
    let ghost s0 = s@;
    let mut in_pos: usize = 0;
    let mut out_pos: usize = 0;
    proof {
        let e = input@.subrange(0, 0);
        assert(down2_3_next_spec(s0, e) =~= s0);
        assert(out@.subrange(0, 0) =~= down2_3_out_spec(s0, e));
    }
    while in_pos < len
        invariant
            len == input@.len(),
            s0.len() == 6,
            in_pos <= len,
            in_pos < len ==> in_pos % 480 == 0,
            out_pos == 2 * (in_pos / 3),
            out@.len() == old(out)@.len(),
            out@.len() >= 2 * (len / 3),
            s@ == down2_3_next_spec(s0, input@.subrange(0, in_pos as int)),
            out@.subrange(0, out_pos as int) == down2_3_out_spec(
                s0,
                input@.subrange(0, in_pos as int),
            ),
            forall|i: int| out_pos <= i < out@.len() ==> #[trigger] out@[i] == old(out)@[i],
        decreases len - in_pos,
    {
        let rest: usize = len - in_pos;
        let n: usize = if rest < RESAMPLER_MAX_BATCH_SIZE_IN {
            rest
        } else {
            RESAMPLER_MAX_BATCH_SIZE_IN
        };
        let ghost before = input@.subrange(0, in_pos as int);
        let ghost chunk = input@.subrange(in_pos as int, in_pos + n);
        let ghost out_before = out@;
        let ghost s_before = s@;
        proof {
            lemma_down2_3_concat(s0, before, chunk);
            assert(before + chunk =~= input@.subrange(0, in_pos + n));
            assert((in_pos + n) / 3 == in_pos as int / 3 + n as int / 3);
        }
        down2_3_batch(s, out, out_pos, &input[in_pos..in_pos + n]);
        proof {
            assert(out@.subrange(0, out_pos + 2 * (n as int / 3)) =~= out_before.subrange(
                0,
                out_pos as int,
            ) + down2_3_out_spec(s_before, chunk));
        }
        in_pos = in_pos + n;
        out_pos = out_pos + 2 * (n / 3);
    }
    proof {
        assert(input@.subrange(0, len as int) =~= input@);
        let spec = down2_3_out_spec(s0, input@);
        assert(forall|i: int| 0 <= i < out_pos ==> #[trigger] out@[i] == spec[i]) by {
            assert(forall|i: int|
                0 <= i < out_pos ==> #[trigger] out@[i] == out@.subrange(0, out_pos as int)[i]);
        }
        assert(out@ =~= spec + old(out)@.subrange(
            2 * (input@.len() as int / 3),
            old(out)@.len() as int,
        ));
    }
}

} // verus!
