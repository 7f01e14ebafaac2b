//! Normalized line spectral frequencies and their conversion to short-term
//! prediction filters.
use crate::decode_indices::{nlsf_unpack, unpack_pred_spec};
use crate::sigproc::{
    add_sat16, clz, clz_spec, div32, div32_16, headroom, headroom_spec,
    insertion_sort_increasing_all_values_int16, is_sorted, lemma_clz, lemma_normalized,
    lemma_product_bound, lemma_rshift_round_bounds, lemma_shl_i32, lemma_trunc_div_bound,
    rshift_round, rshift_round64, rshift_round64_spec, rshift_round_spec, sat32_spec, smlawb,
    smlawb_spec, smlaww, smlaww_spec, smmul, smmul_spec, smulbb, smulbb_spec, smull, smulwb,
    smulwb_spec, smulww, smulww_spec, sub_sat32, trunc_div,
};
use crate::tables::{delta_sum, spacing_ok, NlsfCbStruct, NlsfCbView, LSF_COS_TAB_FIX_Q12};
use vstd::arithmetic::power2::{lemma2_to64, lemma_pow2_adds, lemma_pow2_pos, pow2};
use vstd::prelude::*;

verus! {

/// Repairs that the stabilizer tries before it sorts.
pub const MAX_LOOPS: u32 = 20;

/// Bandwidth expansions that the conversion tries to make a filter stable.
pub const MAX_LPC_STABILIZE_ITERATIONS: u32 = 16;

/// Expansions that the fit into 16 bits tries before it clips.
pub const MAX_FIT_ITERATIONS: u32 = 10;

/// Pull of a nonzero residual toward zero, 0.1 in Q10.
pub const NLSF_QUANT_LEVEL_ADJ_Q10: i32 = 102;

/// 0.999 in Q16.
pub const FIT_CHIRP_BIAS_Q16: i32 = 65470;

/// 0.99975 in Q24: the largest reflection coefficient of a stable filter.
pub const A_LIMIT_QA24: i32 = 16_773_022;

/// 1e-4 in Q30: the smallest inverse prediction gain of a stable filter.
pub const MIN_INVERSE_PRED_GAIN_Q30: i32 = 107_374;

/// Order in which the cosines of a 16th-order vector enter the polynomials.
pub const NLSF2A_ORDERING16: [u8; 16] = [0, 15, 8, 7, 4, 11, 12, 3, 2, 13, 10, 5, 6, 9, 14, 1];

/// Order in which the cosines of a 10th-order vector enter the polynomials.
pub const NLSF2A_ORDERING10: [u8; 10] = [0, 9, 6, 3, 4, 5, 8, 1, 2, 7];

// ---------------------------------------------------------------------
// Reciprocal
// ---------------------------------------------------------------------

/// Approximation of `(1 << qres) / b32`.
#[verifier::opaque]
pub open spec fn inverse32_varq_spec(b32: i32, qres: u32) -> i32 {
    let b_headrm = headroom_spec(b32);
    let b_nrm = b32.wrapping_shl(b_headrm);
    let b_inv = trunc_div(0x1fff_ffff, (b_nrm >> 16u32) as int) as i32;
    let err_q32 = 0x2000_0000i32.wrapping_sub(smulwb_spec(b_nrm, b_inv)).wrapping_shl(3);
    let refined = smlaww_spec(b_inv.wrapping_shl(16), err_q32, b_inv);
    let lshift = 61 - b_headrm - qres;
    if lshift <= 0 {
        refined.wrapping_shl((-lshift) as u32)
    } else if lshift < 32 {
        refined >> (lshift as u32)
    } else {
        0
    }
}

pub fn inverse32_varq(b32: i32, qres: u32) -> (r: i32)
    requires
        b32 != 0,
        b32 != i32::MIN,
        qres < 0x4000_0000,
    ensures
        r == inverse32_varq_spec(b32, qres),
{
    let b_headrm: u32 = headroom(b32);
    let b_nrm: i32 = b32.wrapping_shl(b_headrm);
    proof {
        reveal(inverse32_varq_spec);
        lemma_normalized(b32);
        lemma_trunc_div_bound(0x1fff_ffff, (b_nrm >> 16u32) as int);
    }
    let b_inv: i32 = div32_16(0x1fff_ffff, b_nrm >> 16u32);
    let err_q32: i32 = 0x2000_0000i32.wrapping_sub(smulwb(b_nrm, b_inv)).wrapping_shl(3);
    let refined: i32 = smlaww(b_inv.wrapping_shl(16), err_q32, b_inv);
    let lshift: i32 = 61 - b_headrm as i32 - qres as i32;
    if lshift <= 0 {
        refined.wrapping_shl((-lshift) as u32)
    } else if lshift < 32 {
        refined >> (lshift as u32)
    } else {
        0
    }
}

// ---------------------------------------------------------------------
// Residual dequantization
// ---------------------------------------------------------------------

/// A residual index in Q10, pulled toward zero.
pub open spec fn residual_level_spec(index: i8) -> i32 {
    if index > 0 {
        (index * 1024 - NLSF_QUANT_LEVEL_ADJ_Q10) as i32
    } else if index < 0 {
        (index * 1024 + NLSF_QUANT_LEVEL_ADJ_Q10) as i32
    } else {
        0
    }
}

/// Residual `i` in Q10: its own level plus the prediction from residual
/// `i + 1`.
pub open spec fn residual_spec(indices: Seq<i8>, pred_q8: Seq<u8>, step_q16: i32, i: int) -> i32
    decreases indices.len() - i,
{
    if i < 0 || i >= indices.len() {
        0
    } else {
        smlawb_spec(
            smulbb_spec(residual_spec(indices, pred_q8, step_q16, i + 1), pred_q8[i] as i32) >> 8u32,
            residual_level_spec(indices[i]),
            step_q16,
        )
    }
}

/// Dequantizes the residuals from the last to the first.
pub fn nlsf_residual_dequant(
    x_q10: &mut [i16],
    indices: &[i8],
    pred_coef_q8: &[u8],
    quant_step_size_q16: i32,
)
    requires
        old(x_q10)@.len() == indices@.len(),
        pred_coef_q8@.len() >= indices@.len(),
    ensures
        final(x_q10)@.len() == indices@.len(),
        forall|i: int|
            0 <= i < indices@.len() ==> #[trigger] final(x_q10)@[i] == residual_spec(
                indices@,
                pred_coef_q8@,
                quant_step_size_q16,
                i,
            ) as i16,
{
    let order: usize = indices.len();
    let mut out_q10: i32 = 0;
    let mut i: usize = order;
    while i > 0
        invariant
            order == indices@.len(),
            x_q10@.len() == order,
            pred_coef_q8@.len() >= order,
            i <= order,
            out_q10 == residual_spec(indices@, pred_coef_q8@, quant_step_size_q16, i as int),
            forall|k: int|
                i <= k < order ==> #[trigger] x_q10@[k] == residual_spec(
                    indices@,
                    pred_coef_q8@,
                    quant_step_size_q16,
                    k,
                ) as i16,
        decreases i,
    {
        i = i - 1;
        let pred_q10: i32 = smulbb(out_q10, pred_coef_q8[i] as i32) >> 8u32;
        let index: i8 = indices[i];
        let level: i32 = if index > 0 {
            index as i32 * 1024 - NLSF_QUANT_LEVEL_ADJ_Q10
        } else if index < 0 {
            index as i32 * 1024 + NLSF_QUANT_LEVEL_ADJ_Q10
        } else {
            0
        };
        out_q10 = smlawb(pred_q10, level, quant_step_size_q16);
        x_q10[i] = out_q10 as i16;
    }
}

// ---------------------------------------------------------------------
// Stabilization
// ---------------------------------------------------------------------

/// Room between coefficient `i` and its lower neighbour beyond the minimum
/// spacing; the borders count as neighbours.
pub open spec fn gap(n: Seq<i16>, d: Seq<i16>, i: int) -> int {
    let l = n.len() as int;
    if i == 0 {
        n[0] - d[0]
    } else if i == l {
        32768 - (n[l - 1] + d[l])
    } else {
        n[i] - (n[i - 1] + d[i])
    }
}

/// Every coefficient keeps its minimum distance.
pub open spec fn spaced(n: Seq<i16>, d: Seq<i16>) -> bool {
    forall|i: int| 0 <= i <= n.len() ==> #[trigger] gap(n, d, i) >= 0
}

/// The first of the smallest gaps among the first `k + 1`.
pub open spec fn smallest_gap(n: Seq<i16>, d: Seq<i16>, k: int) -> int
    decreases k,
{
    if k <= 0 {
        0
    } else {
        let p = smallest_gap(n, d, k - 1);
        if gap(n, d, k) < gap(n, d, p) {
            k
        } else {
            p
        }
    }
}

/// The place around which two crowded coefficients are moved apart: their
/// mean, kept where all other spacings still fit.
pub open spec fn repaired_center(n: Seq<i16>, d: Seq<i16>, i: int) -> int {
    let l = n.len() as int;
    let lo = delta_sum(d, i) + d[i] as int / 2;
    let hi = 32768 - (delta_sum(d, l + 1) - delta_sum(d, i + 1)) - d[i] as int / 2;
    let mean = (n[i - 1] + n[i] + 1) / 2;
    if mean < lo {
        lo
    } else if mean > hi {
        hi
    } else {
        mean
    }
}

/// Widens gap `i` to its minimum.
pub open spec fn repaired(n: Seq<i16>, d: Seq<i16>, i: int) -> Seq<i16> {
    let l = n.len() as int;
    if i == 0 {
        n.update(0, d[0])
    } else if i == l {
        n.update(l - 1, (32768 - d[l]) as i16)
    } else {
        let lower = (repaired_center(n, d, i) - d[i] as int / 2) as i16;
        n.update(i - 1, lower).update(i, (lower + d[i]) as i16)
    }
}

pub open spec fn leq_i16() -> spec_fn(i16, i16) -> bool {
    |a: i16, b: i16| a <= b
}

/// The values in increasing order.
pub open spec fn sorted_spec(n: Seq<i16>) -> Seq<i16> {
    n.sort_by(leq_i16())
}

/// Lowest place of coefficient `i` above its lower neighbours.
pub open spec fn pushed_up(s: Seq<i16>, d: Seq<i16>, i: int) -> int
    decreases i,
{
    if i <= 0 {
        if s[0] > d[0] {
            s[0] as int
        } else {
            d[0] as int
        }
    } else {
        let p = pushed_up(s, d, i - 1) + d[i];
        let floor = if p > 32767 {
            32767
        } else {
            p
        };
        if s[i] > floor {
            s[i] as int
        } else {
            floor
        }
    }
}

/// Place of coefficient `i` below its upper neighbours.
pub open spec fn pushed_down(s: Seq<i16>, d: Seq<i16>, i: int) -> int
    decreases s.len() - i,
{
    let l = s.len() as int;
    let ceiling = if i >= l - 1 {
        32768 - d[l]
    } else {
        pushed_down(s, d, i + 1) - d[i + 1]
    };
    let up = pushed_up(s, d, i);
    if up < ceiling {
        up
    } else {
        ceiling
    }
}

/// Sorts and pushes all coefficients into their limits.
pub open spec fn sorted_and_pushed(n: Seq<i16>, d: Seq<i16>) -> Seq<i16> {
    let s = sorted_spec(n);
    Seq::new(n.len(), |i: int| pushed_down(s, d, i) as i16)
}

/// Up to `loops` repairs of the smallest gap, then the sort.
pub open spec fn stabilized_spec(n: Seq<i16>, d: Seq<i16>, loops: int) -> Seq<i16>
    decreases loops,
{
    let i = smallest_gap(n, d, n.len() as int);
    if loops <= 0 {
        sorted_and_pushed(n, d)
    } else if gap(n, d, i) >= 0 {
        n
    } else {
        stabilized_spec(repaired(n, d, i), d, loops - 1)
    }
}

proof fn lemma_smallest_gap(n: Seq<i16>, d: Seq<i16>, k: int)
    requires
        0 <= k,
    ensures
        0 <= smallest_gap(n, d, k) <= k,
        forall|i: int| 0 <= i <= k ==> gap(n, d, smallest_gap(n, d, k)) <= #[trigger] gap(n, d, i),
    decreases k,
{
    if k > 0 {
        lemma_smallest_gap(n, d, k - 1);
    }
}

/// Partial sums of spacings grow.
pub proof fn lemma_delta_sum_mono(d: Seq<i16>, a: int, b: int)
    requires
        0 <= a <= b <= d.len(),
        forall|i: int| 0 <= i < d.len() ==> 0 <= #[trigger] d[i],
    ensures
        0 <= delta_sum(d, a) <= delta_sum(d, b),
    decreases b,
{
    if a < b {
        lemma_delta_sum_mono(d, a, b - 1);
    } else if a > 0 {
        lemma_delta_sum_mono(d, a - 1, a - 1);
    }
}

proof fn lemma_pushed_up(s: Seq<i16>, d: Seq<i16>, i: int)
    requires
        s.len() >= 1,
        spacing_ok(d, s.len() as int),
        0 <= i < s.len(),
    ensures
        delta_sum(d, i + 1) <= pushed_up(s, d, i) <= 32767,
    decreases i,
{
    lemma_delta_sum_mono(d, i + 1, s.len() as int);
    if i > 0 {
        lemma_pushed_up(s, d, i - 1);
    } else {
        assert(delta_sum(d, 1) == d[0]) by {
            reveal_with_fuel(delta_sum, 2);
        }
    }
}

proof fn lemma_pushed_down(s: Seq<i16>, d: Seq<i16>, i: int)
    requires
        s.len() >= 1,
        spacing_ok(d, s.len() as int),
        0 <= i < s.len(),
    ensures
        delta_sum(d, i + 1) <= pushed_down(s, d, i) <= 32767,
        i == s.len() - 1 ==> pushed_down(s, d, i) <= 32768 - d[s.len() as int],
        i < s.len() - 1 ==> pushed_down(s, d, i) <= pushed_down(s, d, i + 1) - d[i + 1],
    decreases s.len() - i,
{
    lemma_pushed_up(s, d, i);
    if i < s.len() - 1 {
        lemma_pushed_down(s, d, i + 1);
    }
}

/// The sorting fallback leaves every coefficient its minimum distance.
proof fn lemma_sorted_and_pushed_spaced(n: Seq<i16>, d: Seq<i16>)
    requires
        n.len() >= 1,
        spacing_ok(d, n.len() as int),
    ensures
        spaced(sorted_and_pushed(n, d), d),
        sorted_and_pushed(n, d).len() == n.len(),
{
    let s = sorted_spec(n);
    lemma_sorted_len(n);
    let r = sorted_and_pushed(n, d);
    assert forall|i: int| 0 <= i <= r.len() implies #[trigger] gap(r, d, i) >= 0 by {
        if i < r.len() {
            lemma_pushed_down(s, d, i);
            lemma_delta_sum_mono(d, 0, i + 1);
        }
        if i > 0 {
            lemma_pushed_down(s, d, i - 1);
            lemma_delta_sum_mono(d, 0, i);
        }
        if i == 0 {
            assert(delta_sum(d, 1) == d[0]) by {
                reveal_with_fuel(delta_sum, 2);
            }
        }
    }
}

proof fn lemma_leq_total()
    ensures
        vstd::relations::total_ordering(leq_i16()),
{
}

proof fn lemma_sorted_len(n: Seq<i16>)
    ensures
        sorted_spec(n).len() == n.len(),
{
    lemma_leq_total();
    n.lemma_sort_by_ensures(leq_i16());
    sorted_spec(n).to_multiset_ensures();
    n.to_multiset_ensures();
}

/// Whatever vector it starts from, the stabilizer returns one in which every
/// coefficient keeps its minimum distance to its neighbours and the borders.
pub proof fn lemma_stabilized_spaced(n: Seq<i16>, d: Seq<i16>, loops: int)
    requires
        n.len() >= 1,
        spacing_ok(d, n.len() as int),
    ensures
        spaced(stabilized_spec(n, d, loops), d),
        stabilized_spec(n, d, loops).len() == n.len(),
    decreases loops,
{
    let i = smallest_gap(n, d, n.len() as int);
    lemma_smallest_gap(n, d, n.len() as int);
    if loops <= 0 {
        lemma_sorted_and_pushed_spaced(n, d);
    } else if gap(n, d, i) < 0 {
        lemma_stabilized_spaced(repaired(n, d, i), d, loops - 1);
    }
}

/// A vector that keeps its distances is left alone, so that stabilizing it
/// once more changes nothing.
pub proof fn lemma_stable_is_left_alone(n: Seq<i16>, d: Seq<i16>, loops: int)
    requires
        n.len() >= 1,
        spacing_ok(d, n.len() as int),
        loops >= 1,
    ensures
        spaced(n, d) ==> stabilized_spec(n, d, loops) == n,
        stabilized_spec(stabilized_spec(n, d, loops), d, loops) == stabilized_spec(n, d, loops),
{
    lemma_stabilized_spaced(n, d, loops);
    lemma_smallest_gap(n, d, n.len() as int);
    let m = stabilized_spec(n, d, loops);
    lemma_smallest_gap(m, d, m.len() as int);
}

/// Coefficients that keep their distances are not negative and increase.
pub proof fn lemma_spaced_nonnegative(n: Seq<i16>, d: Seq<i16>, i: int)
    requires
        spaced(n, d),
        spacing_ok(d, n.len() as int),
        0 <= i < n.len(),
    ensures
        0 <= n[i],
        d[i] <= n[i],
    decreases i,
{
    assert(gap(n, d, i) >= 0);
    if i > 0 {
        lemma_spaced_nonnegative(n, d, i - 1);
    }
}

/// Moves coefficients apart that are too close to each other or to a border.
pub fn nlsf_stabilize(nlsf_q15: &mut [i16], n_delta_min_q15: &[i16])
    requires
        1 <= old(nlsf_q15)@.len(),
        spacing_ok(n_delta_min_q15@, old(nlsf_q15)@.len() as int),
    ensures
        final(nlsf_q15)@ == stabilized_spec(old(nlsf_q15)@, n_delta_min_q15@, MAX_LOOPS as int),
        final(nlsf_q15)@.len() == old(nlsf_q15)@.len(),
        spaced(final(nlsf_q15)@, n_delta_min_q15@),
        forall|i: int| 0 <= i < final(nlsf_q15)@.len() ==> 0 <= #[trigger] final(nlsf_q15)@[i],
{
    let l: usize = nlsf_q15.len();
    let borders: usize = n_delta_min_q15.len();
    let ghost start = nlsf_q15@;
    let ghost d = n_delta_min_q15@;
    proof {
        lemma_stabilized_spaced(start, d, MAX_LOOPS as int);
        let r = stabilized_spec(start, d, MAX_LOOPS as int);
        assert forall|i: int| 0 <= i < r.len() implies 0 <= #[trigger] r[i] by {
            lemma_spaced_nonnegative(r, d, i);
        }
    }
    let mut loops: u32 = MAX_LOOPS;
    while loops > 0
        invariant
            l == nlsf_q15@.len(),
            l == old(nlsf_q15)@.len(),
            1 <= l < borders,
            borders == d.len(),
            d == n_delta_min_q15@,
            spacing_ok(d, l as int),
            loops <= MAX_LOOPS,
            stabilized_spec(nlsf_q15@, d, loops as int) == stabilized_spec(
                old(nlsf_q15)@,
                d,
                MAX_LOOPS as int,
            ),
            spaced(stabilized_spec(old(nlsf_q15)@, d, MAX_LOOPS as int), d),
            ({
                let r = stabilized_spec(old(nlsf_q15)@, d, MAX_LOOPS as int);
                &&& r.len() == l
                &&& forall|i: int| 0 <= i < r.len() ==> 0 <= #[trigger] r[i]
            }),
        decreases loops,
    {
        // Find the smallest gap.
        let mut min_diff_q15: i32 = nlsf_q15[0] as i32 - n_delta_min_q15[0] as i32;
        let mut i_min: usize = 0;
        let mut i: usize = 1;
        while i < l
            invariant
                l == nlsf_q15@.len(),
                l >= 1,
                d == n_delta_min_q15@,
                d.len() == l + 1,
                1 <= i <= l,
                i_min == smallest_gap(nlsf_q15@, d, i - 1),
                i_min < i,
                min_diff_q15 == gap(nlsf_q15@, d, i_min as int),
            decreases l - i,
        {
            let diff_q15: i32 = nlsf_q15[i] as i32 - (nlsf_q15[i - 1] as i32
                + n_delta_min_q15[i] as i32);
            if diff_q15 < min_diff_q15 {
                min_diff_q15 = diff_q15;
                i_min = i;
            }
            i = i + 1;
        }
        let diff_q15: i32 = 32768 - (nlsf_q15[l - 1] as i32 + n_delta_min_q15[l] as i32);
        if diff_q15 < min_diff_q15 {
            min_diff_q15 = diff_q15;
            i_min = l;
        }
        assert(i_min == smallest_gap(nlsf_q15@, d, l as int));
        if min_diff_q15 >= 0 {
            return;
        }
        let ghost before = nlsf_q15@;
        if i_min == 0 {
            nlsf_q15[0] = n_delta_min_q15[0];
        } else if i_min == l {
            nlsf_q15[l - 1] = (32768 - n_delta_min_q15[l] as i32) as i16;
        } else {
            let mut min_center_q15: i32 = 0;
            let mut k: usize = 0;
            while k < i_min
                invariant
                    d == n_delta_min_q15@,
                    spacing_ok(d, l as int),
                    k <= i_min < l,
                    min_center_q15 == delta_sum(d, k as int),
                decreases i_min - k,
            {
                proof {
                    lemma_delta_sum_mono(d, k as int, l as int);
                }
                min_center_q15 = min_center_q15 + n_delta_min_q15[k] as i32;
                k = k + 1;
            }
            let half: i32 = n_delta_min_q15[i_min] as i32 / 2;
            proof {
                lemma_delta_sum_mono(d, i_min as int, l as int);
            }
            min_center_q15 = min_center_q15 + half;
            let mut above: i32 = 0;
            let mut k: usize = i_min + 1;
            while k <= l
                invariant
                    d == n_delta_min_q15@,
                    spacing_ok(d, l as int),
                    i_min < k <= l + 1,
                    l < borders,
                    borders == d.len(),
                    above == delta_sum(d, k as int) - delta_sum(d, i_min + 1),
                decreases l + 1 - k,
            {
                proof {
                    lemma_delta_sum_mono(d, i_min + 1, k as int);
                    lemma_delta_sum_mono(d, 0, i_min + 1);
                    lemma_delta_sum_mono(d, k as int, l as int);
                }
                above = above + n_delta_min_q15[k] as i32;
                k = k + 1;
            }
            proof {
                lemma_delta_sum_mono(d, i_min + 1, l + 1);
                lemma_delta_sum_mono(d, 0, i_min as int);
                lemma_delta_sum_mono(d, i_min as int, l as int);
                assert(delta_sum(d, l + 1) == delta_sum(d, l as int) + d[l as int]);
                assert(delta_sum(d, i_min + 1) == delta_sum(d, i_min as int) + d[i_min as int]);
            }
            let max_center_q15: i32 = 32768 - above - half;
            let sum: i32 = nlsf_q15[i_min - 1] as i32 + nlsf_q15[i_min] as i32;
            let mean: i32 = rshift_round(sum, 1);
            proof {
                lemma2_to64();
                lemma_rshift_round_bounds(sum, 1);
                lemma_delta_sum_mono(d, i_min + 1, l as int);
            }
            let center: i32 = if mean < min_center_q15 {
                min_center_q15
            } else if mean > max_center_q15 {
                max_center_q15
            } else {
                mean
            };
            let lower: i16 = (center - half) as i16;
            nlsf_q15[i_min - 1] = lower;
            nlsf_q15[i_min] = (lower as i32 + n_delta_min_q15[i_min] as i32) as i16;
            assert(center == repaired_center(before, d, i_min as int));
        }
        assert(nlsf_q15@ =~= repaired(before, d, i_min as int));
        loops = loops - 1;
    }
    let ghost unsorted = nlsf_q15@;
    insertion_sort_increasing_all_values_int16(nlsf_q15);
    let ghost s = nlsf_q15@;
    proof {
        lemma_sort_is_sorted_spec(unsorted, s);
    }
    if nlsf_q15[0] < n_delta_min_q15[0] {
        nlsf_q15[0] = n_delta_min_q15[0];
    }
    let mut i: usize = 1;
    while i < l
        invariant
            l == nlsf_q15@.len(),
            l == s.len(),
            d == n_delta_min_q15@,
            spacing_ok(d, l as int),
            1 <= i <= l,
            forall|k: int| 0 <= k < i ==> #[trigger] nlsf_q15@[k] == pushed_up(s, d, k),
            forall|k: int| i <= k < l ==> #[trigger] nlsf_q15@[k] == s[k],
        decreases l - i,
    {
        proof {
            lemma_pushed_up(s, d, i - 1);
            lemma_delta_sum_mono(d, 0, i as int);
        }
        let floor: i16 = add_sat16(nlsf_q15[i - 1] as i32, n_delta_min_q15[i] as i32);
        if nlsf_q15[i] < floor {
            nlsf_q15[i] = floor;
        }
        i = i + 1;
    }
    let ceiling: i32 = 32768 - n_delta_min_q15[l] as i32;
    if nlsf_q15[l - 1] as i32 > ceiling {
        nlsf_q15[l - 1] = ceiling as i16;
    }
    let mut i: usize = l - 1;
    while i > 0
        invariant
            l == nlsf_q15@.len(),
            l == s.len(),
            d == n_delta_min_q15@,
            spacing_ok(d, l as int),
            i <= l - 1,
            forall|k: int| 0 <= k < i ==> #[trigger] nlsf_q15@[k] == pushed_up(s, d, k),
            forall|k: int| i <= k < l ==> #[trigger] nlsf_q15@[k] == pushed_down(s, d, k),
        decreases i,
    {
        i = i - 1;
        proof {
            lemma_pushed_down(s, d, i + 1);
            lemma_pushed_down(s, d, i as int);
            lemma_delta_sum_mono(d, 0, i + 1);
        }
        let ceiling: i32 = nlsf_q15[i + 1] as i32 - n_delta_min_q15[i + 1] as i32;
        if nlsf_q15[i] as i32 > ceiling {
            nlsf_q15[i] = ceiling as i16;
        }
    }
    proof {
        assert forall|k: int| 0 <= k < l implies nlsf_q15@[k] == sorted_and_pushed(unsorted, d)[k] by {
            lemma_pushed_down(s, d, k);
            lemma_delta_sum_mono(d, 0, k + 1);
        }
        assert(nlsf_q15@ =~= sorted_and_pushed(unsorted, d));
    }
}

/// A sorted rearrangement is the sorted sequence.
proof fn lemma_sort_is_sorted_spec(n: Seq<i16>, s: Seq<i16>)
    requires
        is_sorted(s),
        s.to_multiset() == n.to_multiset(),
    ensures
        s == sorted_spec(n),
{
    lemma_leq_total();
    n.lemma_sort_by_ensures(leq_i16());
    vstd::seq_lib::lemma_sorted_unique(s, sorted_spec(n), leq_i16());
}

// ---------------------------------------------------------------------
// Decoding
// ---------------------------------------------------------------------

/// Predictors of all coefficients under the first-stage vector `v`.
pub open spec fn unpack_pred_seq(cb: NlsfCbView, v: int) -> Seq<u8> {
    Seq::new(cb.order as nat, |i: int| unpack_pred_spec(cb, v, i))
}

/// Coefficient `i` before stabilization: the first-stage value plus the
/// residual over its weight, kept in range.
pub open spec fn nlsf_raw_spec(indices: Seq<i8>, cb: NlsfCbView, i: int) -> i16 {
    let v = indices[0] as int;
    let res = residual_spec(
        indices.subrange(1, cb.order + 1),
        unpack_pred_seq(cb, v),
        cb.quant_step_size_q16,
        i,
    ) as i16;
    let x = trunc_div(res * 16384, cb.cb1_wght_q9[v * cb.order + i] as int) + cb.cb1_nlsf_q8[v
        * cb.order + i] * 128;
    if x < 0 {
        0
    } else if x > 32767 {
        32767
    } else {
        x as i16
    }
}

/// The quantized vector in Q15 that a first-stage index and its residuals
/// stand for.
pub open spec fn nlsf_decode_spec(indices: Seq<i8>, cb: NlsfCbView) -> Seq<i16> {
    stabilized_spec(
        Seq::new(cb.order as nat, |i: int| nlsf_raw_spec(indices, cb, i)),
        cb.delta_min_q15,
        MAX_LOOPS as int,
    )
}

pub fn nlsf_decode(p_nlsf_q15: &mut [i16], nlsf_indices: &[i8], cb: &NlsfCbStruct)
    requires
        cb@.wf(),
        old(p_nlsf_q15)@.len() == cb@.order,
        nlsf_indices@.len() == cb@.order + 1,
        0 <= nlsf_indices@[0] < 32,
    ensures
        final(p_nlsf_q15)@ == nlsf_decode_spec(nlsf_indices@, cb@),
        final(p_nlsf_q15)@.len() == cb@.order,
        spaced(final(p_nlsf_q15)@, cb@.delta_min_q15),
        forall|i: int| 0 <= i < cb@.order ==> 0 <= #[trigger] final(p_nlsf_q15)@[i],
{
    let order: usize = cb.order as usize;
    let v: usize = nlsf_indices[0] as usize;
    let (_ec_ix, pred_q8) = nlsf_unpack(cb, v);
    let mut res_q10: [i16; 16] = [0; 16];
    let pred: &[u8] = &pred_q8[0..order];
    let residuals: &[i8] = &nlsf_indices[1..order + 1];
    let (res, _tail) = res_q10.split_at_mut(order);
    nlsf_residual_dequant(res, residuals, pred, cb.quant_step_size_q16 as i32);
    proof {
        assert(pred@ =~= unpack_pred_seq(cb@, v as int));
        assert(residuals@ =~= nlsf_indices@.subrange(1, order + 1));
    }
    assert(0 <= v * order <= 31 * order) by (nonlinear_arith)
        requires
            0 <= v <= 31,
            order >= 0,
    ;
    let mut i: usize = 0;
    while i < order
        invariant
            cb@.wf(),
            order == cb@.order,
            p_nlsf_q15@.len() == order,
            res@.len() == order,
            nlsf_indices@.len() == order + 1,
            v == nlsf_indices@[0],
            v < 32,
            0 <= v * order <= 31 * order,
            i <= order,
            forall|k: int|
                0 <= k < order ==> #[trigger] res@[k] == residual_spec(
                    nlsf_indices@.subrange(1, order + 1),
                    unpack_pred_seq(cb@, v as int),
                    cb@.quant_step_size_q16,
                    k,
                ) as i16,
            forall|k: int|
                0 <= k < i ==> #[trigger] p_nlsf_q15@[k] == nlsf_raw_spec(nlsf_indices@, cb@, k),
        decreases order - i,
    {
        let w: i16 = cb.cb1_wght_q9[v * order + i];
        let num: i32 = res[i] as i32 * 16384;
        proof {
            assert(cb@.cb1_wght_q9[v * order + i] > 0);
            lemma_trunc_div_bound(num as int, w as int);
        }
        let x: i32 = div32_16(num, w as i32) + cb.cb1_nlsf_q8[v * order + i] as i32 * 128;
        p_nlsf_q15[i] = if x < 0 {
            0
        } else if x > 32767 {
            32767
        } else {
            x as i16
        };
        i = i + 1;
    }
    assert(p_nlsf_q15@ =~= Seq::new(order as nat, |k: int| nlsf_raw_spec(nlsf_indices@, cb@, k)));
    nlsf_stabilize(p_nlsf_q15, cb.delta_min_q15);
}

/// One interpolated coefficient: `coef_q2` quarters of the way from the
/// previous to the current one.
pub open spec fn interpolated_spec(prev: i16, cur: i16, coef_q2: int) -> i16 {
    (prev + (coef_q2 * (cur - prev)) / 4) as i16
}

pub open spec fn nlsf_interpolate_spec(prev: Seq<i16>, cur: Seq<i16>, coef_q2: int) -> Seq<i16> {
    Seq::new(prev.len(), |i: int| interpolated_spec(prev[i], cur[i], coef_q2))
}

/// An interpolated coefficient lies between its ends; a factor of 0 gives the
/// previous one and 4 the current one.
pub proof fn lemma_interpolated(prev: i16, cur: i16, coef_q2: int)
    requires
        0 <= coef_q2 <= 4,
    ensures
        interpolated_spec(prev, cur, coef_q2) == prev + (coef_q2 * (cur - prev)) / 4,
        prev <= cur ==> prev <= interpolated_spec(prev, cur, coef_q2) <= cur,
        prev >= cur ==> cur <= interpolated_spec(prev, cur, coef_q2) <= prev,
        coef_q2 == 0 ==> interpolated_spec(prev, cur, coef_q2) == prev,
        coef_q2 == 4 ==> interpolated_spec(prev, cur, coef_q2) == cur,
{
    let t = cur - prev;
    if t >= 0 {
        assert(0 <= coef_q2 * t <= 4 * t) by (nonlinear_arith)
            requires
                0 <= coef_q2 <= 4,
                t >= 0,
        ;
    } else {
        assert(4 * t <= coef_q2 * t <= 0) by (nonlinear_arith)
            requires
                0 <= coef_q2 <= 4,
                t < 0,
        ;
    }
    if coef_q2 == 0 {
        assert(coef_q2 * t == 0) by (nonlinear_arith)
            requires
                coef_q2 == 0,
        ;
    }
    if coef_q2 == 4 {
        assert(coef_q2 * t == 4 * t) by (nonlinear_arith)
            requires
                coef_q2 == 4,
        ;
    }
}

/// Interpolates between the vectors of two frames.
pub fn nlsf_interpolate(dst: &mut [i16], prev_nlsf_q15: &[i16], cur_nlsf_q15: &[i16], coef_q2: i32)
    requires
        0 <= coef_q2 <= 4,
        old(dst)@.len() == prev_nlsf_q15@.len(),
        old(dst)@.len() == cur_nlsf_q15@.len(),
    ensures
        final(dst)@ == nlsf_interpolate_spec(prev_nlsf_q15@, cur_nlsf_q15@, coef_q2 as int),
{
    let n: usize = dst.len();
    let mut i: usize = 0;
    while i < n
        invariant
            0 <= coef_q2 <= 4,
            n == dst@.len(),
            n == prev_nlsf_q15@.len(),
            n == cur_nlsf_q15@.len(),
            i <= n,
            forall|k: int|
                0 <= k < i ==> #[trigger] dst@[k] == interpolated_spec(
                    prev_nlsf_q15@[k],
                    cur_nlsf_q15@[k],
                    coef_q2 as int,
                ),
        decreases n - i,
    {
        let prev: i16 = prev_nlsf_q15[i];
        let cur: i16 = cur_nlsf_q15[i];
        let t: i32 = cur as i32 - prev as i32;
        proof {
            lemma_product_bound(coef_q2 as int, t as int, 4, 65535);
            lemma_interpolated(prev, cur, coef_q2 as int);
        }
        let y: i32 = coef_q2 * t;
        proof {
            lemma2_to64();
            crate::sigproc::lemma_shr_i32(y, 2);
        }
        dst[i] = (prev as i32 + (y >> 2u32)) as i16;
        i = i + 1;
    }
    assert(dst@ =~= nlsf_interpolate_spec(prev_nlsf_q15@, cur_nlsf_q15@, coef_q2 as int));
}

// ---------------------------------------------------------------------
// Bandwidth expansion
// ---------------------------------------------------------------------

/// The factor that coefficient `i` is scaled by, in Q16: a rounded power of
/// the chirp.
pub open spec fn chirp_spec(chirp_q16: i32, i: int) -> i32
    decreases i,
{
    if i <= 0 {
        chirp_q16
    } else {
        let c = chirp_spec(chirp_q16, i - 1);
        c.wrapping_add(rshift_round_spec(c.wrapping_mul((chirp_q16 - 65536) as i32), 16))
    }
}

pub open spec fn bwexpander_spec(ar: Seq<i16>, chirp_q16: i32) -> Seq<i16> {
    Seq::new(
        ar.len(),
        |i: int| rshift_round_spec(chirp_spec(chirp_q16, i).wrapping_mul(ar[i] as i32), 16) as i16,
    )
}

pub open spec fn bwexpander_32_spec(ar: Seq<i32>, chirp_q16: i32) -> Seq<i32> {
    Seq::new(ar.len(), |i: int| smulww_spec(chirp_spec(chirp_q16, i), ar[i]))
}

/// Chirps a prediction filter, with rounded products.
pub fn bwexpander(ar: &mut [i16], chirp_q16: i32)
    requires
        old(ar)@.len() >= 1,
        chirp_q16 >= i32::MIN + 65536,
    ensures
        final(ar)@ == bwexpander_spec(old(ar)@, chirp_q16),
{
    let d: usize = ar.len();
    let mut chirp: i32 = chirp_q16;
    let chirp_minus_one_q16: i32 = chirp_q16 - 65536;
    let mut i: usize = 0;
    while i + 1 < d
        invariant
            d == ar@.len(),
            d == old(ar)@.len(),
            chirp_minus_one_q16 == chirp_q16 - 65536,
            d >= 1,
            i < d,
            chirp == chirp_spec(chirp_q16, i as int),
            forall|k: int| 0 <= k < i ==> #[trigger] ar@[k] == bwexpander_spec(old(ar)@, chirp_q16)[k],
            forall|k: int| i <= k < d ==> #[trigger] ar@[k] == old(ar)@[k],
        decreases d - i,
    {
        let a: i32 = ar[i] as i32;
        ar[i] = rshift_round(chirp.wrapping_mul(a), 16) as i16;
        chirp = chirp.wrapping_add(rshift_round(chirp.wrapping_mul(chirp_minus_one_q16), 16));
        i = i + 1;
    }
    let a: i32 = ar[d - 1] as i32;
    ar[d - 1] = rshift_round(chirp.wrapping_mul(a), 16) as i16;
    assert(ar@ =~= bwexpander_spec(old(ar)@, chirp_q16));
}

/// Chirps a filter of 32-bit coefficients.
pub fn bwexpander_32(ar: &mut [i32], chirp_q16: i32)
    requires
        old(ar)@.len() >= 1,
        chirp_q16 >= i32::MIN + 65536,
    ensures
        final(ar)@ == bwexpander_32_spec(old(ar)@, chirp_q16),
{
    let d: usize = ar.len();
    let mut chirp: i32 = chirp_q16;
    let chirp_minus_one_q16: i32 = chirp_q16 - 65536;
    let mut i: usize = 0;
    while i + 1 < d
        invariant
            d == ar@.len(),
            d == old(ar)@.len(),
            chirp_minus_one_q16 == chirp_q16 - 65536,
            d >= 1,
            i < d,
            chirp == chirp_spec(chirp_q16, i as int),
            forall|k: int|
                0 <= k < i ==> #[trigger] ar@[k] == bwexpander_32_spec(old(ar)@, chirp_q16)[k],
            forall|k: int| i <= k < d ==> #[trigger] ar@[k] == old(ar)@[k],
        decreases d - i,
    {
        let a: i32 = ar[i];
        ar[i] = smulww(chirp, a);
        chirp = chirp.wrapping_add(rshift_round(chirp.wrapping_mul(chirp_minus_one_q16), 16));
        i = i + 1;
    }
    let a: i32 = ar[d - 1];
    ar[d - 1] = smulww(chirp, a);
    assert(ar@ =~= bwexpander_32_spec(old(ar)@, chirp_q16));
}

// ---------------------------------------------------------------------
// Inverse prediction gain
// ---------------------------------------------------------------------

/// Rounded product in units of 2^q, cut to 32 bits.
pub open spec fn mul32_frac_q_spec(a: i32, b: i32, q: u32) -> i32 {
    rshift_round64_spec((a * b) as i64, q) as i32
}

pub fn mul32_frac_q(a: i32, b: i32, q: u32) -> (r: i32)
    requires
        1 <= q < 64,
    ensures
        r == mul32_frac_q_spec(a, b, q),
{
    rshift_round64(smull(a, b), q) as i32
}

/// The reflection coefficient of the last filter coefficient, in Q31.
pub open spec fn reflection_spec(a: i32) -> i32 {
    (-(a * 128)) as i32
}

/// One minus the squared reflection coefficient, in Q30.
pub open spec fn rc_mult1_spec(a: i32) -> i32 {
    (0x4000_0000 - smmul_spec(reflection_spec(a), reflection_spec(a))) as i32
}

/// Bits of the normalization factor.
pub open spec fn rc_mult2q_spec(a: i32) -> u32 {
    (32 - clz_spec(rc_mult1_spec(a))) as u32
}

/// A coefficient after removing the last section: `x` corrected by its mirror
/// image `y` and normalized.
#[verifier::opaque]
pub open spec fn levinson_step_spec(x: i32, y: i32, last: i32) -> i64 {
    let mult2q = rc_mult2q_spec(last);
    let mult2 = inverse32_varq_spec(rc_mult1_spec(last), (mult2q + 30) as u32);
    rshift_round64_spec(
        (sat32_spec(x - mul32_frac_q_spec(y, reflection_spec(last), 31)) * mult2) as i64,
        mult2q,
    )
}

/// All coefficients below `k` after removing section `k`.
pub open spec fn levinson_down_spec(a: Seq<i32>, k: int) -> Seq<i32> {
    Seq::new(
        a.len(),
        |i: int|
            if i < k {
                levinson_step_spec(a[i], a[k - 1 - i], a[k]) as i32
            } else {
                a[i]
            },
    )
}

/// Whether removing section `k` leaves the 32-bit range.
pub open spec fn levinson_overflows(a: Seq<i32>, k: int) -> bool {
    exists|i: int|
        0 <= i < k && !(i32::MIN <= #[trigger] levinson_step_spec(a[i], a[k - 1 - i], a[k])
            <= i32::MAX)
}

/// Inverse prediction gain of the sections up to `k`, times `gain`; zero for
/// an unstable filter.
pub open spec fn inverse_gain_spec(a: Seq<i32>, k: int, gain: i32) -> i32
    decreases k,
{
    if a[k] > A_LIMIT_QA24 || a[k] < -A_LIMIT_QA24 {
        0
    } else {
        let g = smmul_spec(gain, rc_mult1_spec(a[k])).wrapping_shl(2);
        if g < MIN_INVERSE_PRED_GAIN_Q30 {
            0
        } else if k <= 0 {
            g
        } else if levinson_overflows(a, k) {
            0
        } else {
            inverse_gain_spec(levinson_down_spec(a, k), k - 1, g)
        }
    }
}

/// A reflection coefficient within the limit leaves a positive factor.
proof fn lemma_rc_mult1(a: i32)
    requires
        -A_LIMIT_QA24 <= a <= A_LIMIT_QA24,
    ensures
        reflection_spec(a) == -(a * 128),
        0 < rc_mult1_spec(a) <= 0x4000_0000,
        0 <= smmul_spec(reflection_spec(a), reflection_spec(a)) < 0x4000_0000,
        1 <= rc_mult2q_spec(a) <= 31,
{
    reveal(smmul_spec);
    let rc: int = reflection_spec(a) as int;
    assert(0 <= rc * rc <= 2146946816 * 2146946816) by (nonlinear_arith)
        requires
            -2146946816 <= rc <= 2146946816,
    ;
    lemma_clz(rc_mult1_spec(a) as u32);
    lemma2_to64();
}

/// One coefficient after removing a section.
fn levinson_step(
    x: i32,
    y: i32,
    rc_q31: i32,
    rc_mult2: i32,
    mult2q: u32,
    Ghost(last): Ghost<i32>,
) -> (t: i64)
    requires
        rc_q31 == reflection_spec(last),
        mult2q == rc_mult2q_spec(last),
        1 <= mult2q <= 31,
        rc_mult2 == inverse32_varq_spec(rc_mult1_spec(last), (mult2q + 30) as u32),
    ensures
        t == levinson_step_spec(x, y, last),
{
    reveal(levinson_step_spec);
    rshift_round64(smull(sub_sat32(x, mul32_frac_q(y, rc_q31, 31)), rc_mult2), mult2q)
}

/// Works through the sections of a Q24 filter from the last to the first,
/// with the filter as scratch space.
/// Whether coefficient `i` has been taken behind the removal of section `k`,
/// within the 32-bit range.
spec fn stepped(a: Seq<i32>, before: Seq<i32>, k: int, i: int) -> bool {
    let t = levinson_step_spec(before[i], before[k - 1 - i], before[k]);
    a[i] == t as i32 && i32::MIN <= t <= i32::MAX
}

/// Removes section `k`, unless that leaves the 32-bit range.
fn levinson_pass(a_qa: &mut [i32], k: usize, rc_q31: i32, rc_mult2: i32, mult2q: u32) -> (ok: bool)
    requires
        0 < k < old(a_qa)@.len(),
        -A_LIMIT_QA24 <= old(a_qa)@[k as int] <= A_LIMIT_QA24,
        rc_q31 == reflection_spec(old(a_qa)@[k as int]),
        mult2q == rc_mult2q_spec(old(a_qa)@[k as int]),
        1 <= mult2q <= 31,
        rc_mult2 == inverse32_varq_spec(
            rc_mult1_spec(old(a_qa)@[k as int]),
            (mult2q + 30) as u32,
        ),
    ensures
        final(a_qa)@.len() == old(a_qa)@.len(),
        ok == !levinson_overflows(old(a_qa)@, k as int),
        ok ==> final(a_qa)@ == levinson_down_spec(old(a_qa)@, k as int),
{
    let ghost before = a_qa@;
    let ghost last = before[k as int];
    let len: usize = a_qa.len();
    assert(k < len);
    let half: usize = (k + 1) / 2;
    let mut n: usize = 0;
    while n < half
        invariant
            before == old(a_qa)@,
            last == before[k as int],
            a_qa@.len() == before.len(),
            0 < k < before.len(),
            half == (k + 1) / 2,
            n <= half,
            -A_LIMIT_QA24 <= last <= A_LIMIT_QA24,
            rc_q31 == reflection_spec(last),
            mult2q == rc_mult2q_spec(last),
            1 <= mult2q <= 31,
            rc_mult2 == inverse32_varq_spec(rc_mult1_spec(last), (mult2q + 30) as u32),
            forall|i: int|
                (0 <= i < n || k - n <= i < k) ==> #[trigger] stepped(a_qa@, before, k as int, i),
            forall|i: int| n <= i < k - n ==> #[trigger] a_qa@[i] == before[i],
            forall|i: int| k <= i < before.len() ==> #[trigger] a_qa@[i] == before[i],
        decreases half - n,
    {
        let tmp1: i32 = a_qa[n];
        let tmp2: i32 = a_qa[k - n - 1];
        let m: usize = k - n - 1;
        let t: i64 = levinson_step(tmp1, tmp2, rc_q31, rc_mult2, mult2q, Ghost(last));
        assert(t == levinson_step_spec(before[n as int], before[k - 1 - n], last));
        if t > i32::MAX as i64 || t < i32::MIN as i64 {
            return false;
        }
        let u: i64 = levinson_step(tmp2, tmp1, rc_q31, rc_mult2, mult2q, Ghost(last));
        assert(u == levinson_step_spec(before[m as int], before[k - 1 - m], last));
        if u > i32::MAX as i64 || u < i32::MIN as i64 {
            return false;
        }
        let ghost prev = a_qa@;
        a_qa[n] = t as i32;
        a_qa[m] = u as i32;
        let ghost next = a_qa@;
        assert(stepped(next, before, k as int, n as int));
        assert(stepped(next, before, k as int, m as int));
        assert forall|i: int| (0 <= i < n + 1 || k - (n + 1) <= i < k) implies #[trigger] stepped(
            next,
            before,
            k as int,
            i,
        ) by {
            if i != n && i != m {
                assert(stepped(prev, before, k as int, i));
                assert(next[i] == prev[i]);
            }
        }
        n = n + 1;
    }
    assert forall|i: int| 0 <= i < k implies #[trigger] stepped(a_qa@, before, k as int, i) by {}
    assert forall|i: int| 0 <= i < k implies i32::MIN <= #[trigger] levinson_step_spec(
        before[i],
        before[k - 1 - i],
        before[k as int],
    ) <= i32::MAX by {
        assert(stepped(a_qa@, before, k as int, i));
    }
    assert forall|i: int| 0 <= i < before.len() implies #[trigger] a_qa@[i] == levinson_down_spec(
        before,
        k as int,
    )[i] by {
        if i < k {
            assert(stepped(a_qa@, before, k as int, i));
        }
    }
    assert(a_qa@ =~= levinson_down_spec(before, k as int));
    true
}

fn lpc_inverse_pred_gain_qa(a_qa: &mut [i32], order: usize) -> (r: i32)
    requires
        1 <= order <= old(a_qa)@.len(),
    ensures
        r == inverse_gain_spec(old(a_qa)@, order - 1, 0x4000_0000),
        final(a_qa)@.len() == old(a_qa)@.len(),
{
    let mut gain: i32 = 0x4000_0000;
    let mut k: usize = order - 1;
    loop
        invariant
            1 <= order <= a_qa@.len(),
            a_qa@.len() == old(a_qa)@.len(),
            k < order,
            inverse_gain_spec(a_qa@, k as int, gain) == inverse_gain_spec(
                old(a_qa)@,
                order - 1,
                0x4000_0000,
            ),
        decreases k,
    {
        let last: i32 = a_qa[k];
        if last > A_LIMIT_QA24 || last < -A_LIMIT_QA24 {
            return 0;
        }
        proof {
            lemma_rc_mult1(last);
        }
        let rc_q31: i32 = -(last * 128);
        let rc_mult1_q30: i32 = 0x4000_0000 - smmul(rc_q31, rc_q31);
        gain = smmul(gain, rc_mult1_q30).wrapping_shl(2);
        if gain < MIN_INVERSE_PRED_GAIN_Q30 {
            return 0;
        }
        if k == 0 {
            return gain;
        }
        let mult2q: u32 = 32 - clz(rc_mult1_q30);
        let rc_mult2: i32 = inverse32_varq(rc_mult1_q30, mult2q + 30);
        if !levinson_pass(a_qa, k, rc_q31, rc_mult2, mult2q) {
            return 0;
        }
        k = k - 1;
    }
}

/// Sum of the first `n` coefficients.
pub open spec fn dc_response_spec(a: Seq<i16>, n: int) -> int
    decreases n,
{
    if n <= 0 {
        0
    } else {
        dc_response_spec(a, n - 1) + a[n - 1]
    }
}

/// Inverse prediction gain of a Q12 filter in Q30; zero if the filter is not
/// safely stable.
pub open spec fn lpc_inverse_pred_gain_spec(a_q12: Seq<i16>, order: int) -> i32 {
    if dc_response_spec(a_q12, order) >= 4096 {
        0
    } else {
        inverse_gain_spec(
            Seq::new(order as nat, |i: int| (a_q12[i] * 4096) as i32),
            order - 1,
            0x4000_0000,
        )
    }
}

pub fn lpc_inverse_pred_gain(a_q12: &[i16], order: usize) -> (r: i32)
    requires
        1 <= order <= 16,
        order <= a_q12@.len(),
    ensures
        r == lpc_inverse_pred_gain_spec(a_q12@, order as int),
{
    let mut dc_resp: i32 = 0;
    let mut atmp_qa: [i32; 16] = [0; 16];
    let mut i: usize = 0;
    while i < order
        invariant
            1 <= order <= 16,
            order <= a_q12@.len(),
            i <= order,
            dc_resp == dc_response_spec(a_q12@, i as int),
            -32768 * i <= dc_resp <= 32768 * i,
            forall|k: int| 0 <= k < i ==> #[trigger] atmp_qa@[k] == a_q12@[k] * 4096,
        decreases order - i,
    {
        dc_resp = dc_resp + a_q12[i] as i32;
        atmp_qa[i] = a_q12[i] as i32 * 4096;
        i = i + 1;
    }
    if dc_resp >= 4096 {
        return 0;
    }
    let (head, _tail) = atmp_qa.split_at_mut(order);
    assert(head@ =~= Seq::new(order as nat, |i: int| (a_q12@[i] * 4096) as i32));
    lpc_inverse_pred_gain_qa(head, order)
}

// ---------------------------------------------------------------------
// Fit into 16 bits
// ---------------------------------------------------------------------

/// Magnitude of a coefficient; the minimum, which has none in 32 bits, counts
/// as negative.
pub open spec fn magnitude_spec(a: i32) -> i32 {
    if a < 0 {
        0i32.wrapping_sub(a)
    } else {
        a
    }
}

fn magnitude(a: i32) -> (r: i32)
    ensures
        r == magnitude_spec(a),
{
    if a < 0 {
        0i32.wrapping_sub(a)
    } else {
        a
    }
}

/// The largest magnitude among the first `n` coefficients, and the first
/// index that has it.
pub open spec fn largest_spec(a: Seq<i32>, n: int) -> (i32, int)
    decreases n,
{
    if n <= 0 {
        (0, 0)
    } else {
        let (m, i) = largest_spec(a, n - 1);
        if magnitude_spec(a[n - 1]) > m {
            (magnitude_spec(a[n - 1]), n - 1)
        } else {
            (m, i)
        }
    }
}

/// The chirp that pulls a largest magnitude `m` at index `i` toward 16 bits.
pub open spec fn fit_chirp_spec(m: i32, i: int) -> i32 {
    let c: int = if m > 163838 {
        163838
    } else {
        m as int
    };
    (FIT_CHIRP_BIAS_Q16 - trunc_div((c - 32767) * 16384, (c * (i + 1)) / 4)) as i32
}

/// Expands until the coefficients fit, at most `tries` times; the flag tells
/// whether they still have to be clipped.
pub open spec fn fitted_spec(a: Seq<i32>, shift: u32, tries: int) -> (Seq<i32>, bool)
    decreases tries,
{
    let (m, i) = largest_spec(a, a.len() as int);
    let r = rshift_round_spec(m, shift);
    if tries <= 0 {
        (a, true)
    } else if r <= 32767 {
        (a, false)
    } else {
        fitted_spec(bwexpander_32_spec(a, fit_chirp_spec(r, i)), shift, tries - 1)
    }
}

/// The coefficients in 16 bits.
pub open spec fn lpc_fit_out_spec(a: Seq<i32>, shift: u32) -> Seq<i16> {
    let (b, clip) = fitted_spec(a, shift, MAX_FIT_ITERATIONS as int);
    Seq::new(
        a.len(),
        |i: int|
            if clip {
                crate::sigproc::sat16_spec(rshift_round_spec(b[i], shift))
            } else {
                rshift_round_spec(b[i], shift) as i16
            },
    )
}

/// The coefficients at full precision that belong to the fitted ones.
pub open spec fn lpc_fit_in_spec(a: Seq<i32>, shift: u32) -> Seq<i32> {
    let (b, clip) = fitted_spec(a, shift, MAX_FIT_ITERATIONS as int);
    if clip {
        Seq::new(a.len(), |i: int| (lpc_fit_out_spec(a, shift)[i] as i32) << shift)
    } else {
        b
    }
}

proof fn lemma_largest(a: Seq<i32>, n: int)
    requires
        0 <= n <= a.len(),
    ensures
        0 <= largest_spec(a, n).0,
        n > 0 ==> 0 <= largest_spec(a, n).1 < n,
    decreases n,
{
    if n > 0 {
        lemma_largest(a, n - 1);
    }
}

proof fn lemma_fitted_len(a: Seq<i32>, shift: u32, tries: int)
    ensures
        fitted_spec(a, shift, tries).0.len() == a.len(),
    decreases tries,
{
    let (m, i) = largest_spec(a, a.len() as int);
    let r = rshift_round_spec(m, shift);
    if tries > 0 && r > 32767 {
        lemma_fitted_len(bwexpander_32_spec(a, fit_chirp_spec(r, i)), shift, tries - 1);
    }
}

/// Converts the first `d` coefficients from Q`qin` to 16-bit Q`qout`: expands
/// the bandwidth until they fit and clips what still does not. The bound on
/// `d` keeps the product of a magnitude and a position in 32 bits.
pub fn lpc_fit(a_qout: &mut [i16], a_qin: &mut [i32], qout: u32, qin: u32, d: usize)
    requires
        d <= 13107,
        old(a_qout)@.len() == d,
        old(a_qin)@.len() >= d,
        qout < qin,
        qin - qout < 32,
    ensures
        final(a_qout)@ == lpc_fit_out_spec(
            old(a_qin)@.subrange(0, d as int),
            (qin - qout) as u32,
        ),
        final(a_qin)@ == lpc_fit_in_spec(old(a_qin)@.subrange(0, d as int), (qin - qout) as u32)
            + old(a_qin)@.subrange(d as int, old(a_qin)@.len() as int),
        lpc_fit_in_spec(old(a_qin)@.subrange(0, d as int), (qin - qout) as u32).len() == d,
{
    let (head, _tail) = a_qin.split_at_mut(d);
    proof {
        lemma_fitted_len(head@, (qin - qout) as u32, MAX_FIT_ITERATIONS as int);
    }
    fit_all(a_qout, head, qin - qout, d);
}

/// Converts coefficients to 16 bits, all of them.
fn fit_all(a_qout: &mut [i16], a_qin: &mut [i32], shift: u32, d: usize)
    requires
        d <= 13107,
        old(a_qout)@.len() == d,
        old(a_qin)@.len() == d,
        1 <= shift < 32,
    ensures
        final(a_qout)@ == lpc_fit_out_spec(old(a_qin)@, shift),
        final(a_qin)@ == lpc_fit_in_spec(old(a_qin)@, shift),
{
    let ghost start = a_qin@;
    let mut tries: u32 = MAX_FIT_ITERATIONS;
    let mut clip: bool = true;
    while tries > 0
        invariant_except_break
            clip,
        invariant
            d <= 13107,
            a_qin@.len() == d,
            a_qout@.len() == d,
            1 <= shift < 32,
            tries <= MAX_FIT_ITERATIONS,
            fitted_spec(a_qin@, shift, tries as int) == fitted_spec(
                start,
                shift,
                MAX_FIT_ITERATIONS as int,
            ),
        ensures
            fitted_spec(start, shift, MAX_FIT_ITERATIONS as int) == (a_qin@, clip),
        decreases tries,
    {
        let mut maxabs: i32 = 0;
        let mut idx: usize = 0;
        let mut k: usize = 0;
        while k < d
            invariant
                a_qin@.len() == d,
                k <= d,
                maxabs >= 0,
                idx <= k,
                k > 0 ==> idx < k,
                largest_spec(a_qin@, k as int) == (maxabs, idx as int),
            decreases d - k,
        {
            let m: i32 = magnitude(a_qin[k]);
            if m > maxabs {
                maxabs = m;
                idx = k;
            }
            k = k + 1;
        }
        let r: i32 = rshift_round(maxabs, shift);
        if r <= 32767 {
            clip = false;
            break;
        }
        let c: i32 = if r > 163838 {
            163838
        } else {
            r
        };
        let i1: i32 = idx as i32 + 1;
        assert(4 <= c * i1 <= 163838 * 13107) by (nonlinear_arith)
            requires
                32768 <= c <= 163838,
                1 <= i1 <= 13107,
        ;
        let num: i32 = (c - 32767) * 16384;
        let den: i32 = (c * i1) / 4;
        proof {
            lemma_fit_quotient(c as int, i1 as int);
        }
        let chirp_q16: i32 = FIT_CHIRP_BIAS_Q16 - div32(num, den);
        bwexpander_32(a_qin, chirp_q16);
        tries = tries - 1;
    }
    let ghost b = a_qin@;
    let ghost out = lpc_fit_out_spec(start, shift);
    proof {
        lemma_fitted_len(start, shift, MAX_FIT_ITERATIONS as int);
    }
    let mut k: usize = 0;
    while k < d
        invariant
            a_qin@.len() == d,
            a_qout@.len() == d,
            b.len() == d,
            start.len() == d,
            1 <= shift < 32,
            fitted_spec(start, shift, MAX_FIT_ITERATIONS as int) == (b, clip),
            out == lpc_fit_out_spec(start, shift),
            k <= d,
            forall|t: int| 0 <= t < k ==> #[trigger] a_qout@[t] == out[t],
            forall|t: int| k <= t < d ==> #[trigger] a_qin@[t] == b[t],
            forall|t: int|
                0 <= t < k ==> #[trigger] a_qin@[t] == (if clip {
                    (out[t] as i32) << shift
                } else {
                    b[t]
                }),
        decreases d - k,
    {
        let v: i32 = rshift_round(a_qin[k], shift);
        if clip {
            let w: i16 = crate::sigproc::sat16(v);
            a_qout[k] = w;
            a_qin[k] = (w as i32) << shift;
        } else {
            a_qout[k] = v as i16;
        }
        k = k + 1;
    }
    assert(a_qout@ =~= out);
    assert(a_qin@ =~= lpc_fit_in_spec(start, shift));
}

/// The chirps of a fit do not grow.
proof fn lemma_chirp_range(c: i32, i: int)
    requires
        -82 <= c <= 65470,
        i >= 0,
    ensures
        -82 <= chirp_spec(c, i) <= 65536,
        c >= 0 ==> 0 <= chirp_spec(c, i) <= c,
        c < 0 && i > 0 ==> chirp_spec(c, i) == 0,
    decreases i,
{
    if i > 0 {
        lemma_chirp_range(c, i - 1);
        let x = chirp_spec(c, i - 1);
        let p: int = x * (c - 65536);
        if c >= 0 {
            assert(-65536 * x <= p <= 0 && p >= -0x4000_0000) by (nonlinear_arith)
                requires
                    p == x * (c - 65536),
                    0 <= x <= c <= 65470,
            ;
        } else if i == 1 {
            assert(p == c * c - 65536 * c && 0 <= c * c <= 6724) by (nonlinear_arith)
                requires
                    p == c * (c - 65536),
                    -82 <= c < 0,
            ;
        } else {
            assert(p == 0) by (nonlinear_arith)
                requires
                    p == x * (c - 65536),
                    x == 0,
            ;
        }
        lemma2_to64();
        reveal(rshift_round_spec);
    }
}

/// A fit chirp on its own.
proof fn lemma_fit_chirp(r: i32, i: int)
    requires
        r > 32767,
        0 <= i < 13107,
    ensures
        -82 <= fit_chirp_spec(r, i) <= 65470,
{
    lemma_fit_quotient(
        if r > 163838 {
            163838
        } else {
            r as int
        },
        i + 1,
    );
}

/// No coefficient is the minimum, which has no magnitude.
spec fn balanced(a: Seq<i32>) -> bool {
    forall|i: int| 0 <= i < a.len() ==> #[trigger] a[i] > i32::MIN
}

proof fn lemma_chirped_balanced(a: Seq<i32>, c: i32)
    requires
        balanced(a),
        -82 <= c <= 65470,
    ensures
        balanced(bwexpander_32_spec(a, c)),
{
    assert forall|i: int| 0 <= i < a.len() implies #[trigger] bwexpander_32_spec(a, c)[i]
        > i32::MIN by {
        lemma_chirp_range(c, i);
        reveal(smulww_spec);
        let k = chirp_spec(c, i);
        let x = a[i];
        assert(-0x7fff_ffff * 65536 <= k * x <= 0x7fff_ffff * 65536) by (nonlinear_arith)
            requires
                -82 <= k <= 65536,
                -0x7fff_ffff <= x <= 0x7fff_ffff,
        ;
    }
}

proof fn lemma_fitted(a: Seq<i32>, shift: u32, tries: int)
    requires
        balanced(a),
        a.len() <= 13107,
        1 <= shift < 32,
        0 <= tries,
    ensures
        ({
            let (b, clip) = fitted_spec(a, shift, tries);
            &&& balanced(b)
            &&& !clip ==> rshift_round_spec(largest_spec(b, b.len() as int).0, shift) <= 32767
            &&& tries > 0 && shift > 16 ==> !clip
        }),
    decreases tries,
{
    let (m, i) = largest_spec(a, a.len() as int);
    let r = rshift_round_spec(m, shift);
    lemma_largest(a, a.len() as int);
    lemma_round_range(m as int, shift);
    if tries > 0 && r > 32767 {
        if a.len() == 0 {
            lemma_round_zero(shift);
        }
        lemma_fit_chirp(r, i);
        lemma_chirped_balanced(a, fit_chirp_spec(r, i));
        lemma_fitted(bwexpander_32_spec(a, fit_chirp_spec(r, i)), shift, tries - 1);
    }
}

/// Rounding by more than 16 bits leaves less than 16 bits.
proof fn lemma_round_range(m: int, shift: u32)
    requires
        0 <= m <= i32::MAX,
        1 <= shift < 32,
    ensures
        shift > 16 ==> rshift_round_spec(m as i32, shift) <= 32767,
{
    lemma_rshift_round_bounds(m as i32, shift);
    if shift > 16 {
        reveal(rshift_round_spec);
        lemma_pow2_adds(17, (shift - 17) as nat);
        lemma2_to64();
        lemma_pow2_pos((shift - 17) as nat);
        vstd::arithmetic::power2::lemma_pow2_unfold(shift as nat);
        let p = pow2(shift as nat) as int;
        let h = pow2((shift - 1) as nat) as int;
        let z = pow2((shift - 17) as nat) as int;
        assert(p >= 131072) by (nonlinear_arith)
            requires
                p == 131072 * z,
                z >= 1,
        ;
        assert((m + h) / p <= 16384) by (nonlinear_arith)
            requires
                p == 2 * h,
                p >= 131072,
                m <= 0x7fff_ffff,
        ;
    }
}

/// Every coefficient lies within the largest magnitude.
proof fn lemma_within_largest(a: Seq<i32>, n: int, k: int)
    requires
        balanced(a),
        0 <= k < n <= a.len(),
    ensures
        -largest_spec(a, n).0 <= a[k] <= largest_spec(a, n).0,
    decreases n,
{
    lemma_largest(a, n - 1);
    assert(a[n - 1] > i32::MIN);
    if k < n - 1 {
        lemma_within_largest(a, n - 1, k);
    }
}

/// Rounding keeps the order, and is odd up to halves.
proof fn lemma_round_within(v: i32, m: i32, shift: u32)
    requires
        -m <= v <= m,
        1 <= shift < 32,
        rshift_round_spec(m, shift) <= 32767,
    ensures
        -32767 <= rshift_round_spec(v, shift) <= 32767,
{
    lemma_rshift_round_bounds(v, shift);
    lemma_rshift_round_bounds(m, shift);
    lemma_pow2_pos((shift - 1) as nat);
    vstd::arithmetic::power2::lemma_pow2_unfold(shift as nat);
    let p = pow2(shift as nat) as int;
    let h = pow2((shift - 1) as nat) as int;
    assert(-((m + h) / p) <= (v + h) / p <= (m + h) / p) by (nonlinear_arith)
        requires
            p == 2 * h,
            h >= 1,
            -m <= v <= m,
    ;
}

/// Shifting up and rounding down again changes nothing.
proof fn lemma_round_of_shifted(w: i16, shift: u32)
    requires
        1 <= shift <= 16,
    ensures
        rshift_round_spec((w as i32) << shift, shift) == w,
{
    lemma2_to64();
    lemma_pow2_pos(shift as nat);
    lemma_pow2_adds(shift as nat, (16 - shift) as nat);
    lemma_pow2_pos((16 - shift) as nat);
    vstd::arithmetic::power2::lemma_pow2_unfold(shift as nat);
    let p = pow2(shift as nat) as int;
    let h = pow2((shift - 1) as nat) as int;
    let z = pow2((16 - shift) as nat) as int;
    assert(1 <= p <= 65536) by (nonlinear_arith)
        requires
            p * z == 65536,
            p >= 1,
            z >= 1,
    ;
    assert(-0x8000_0000 <= w * p <= 0x7fff_0000) by (nonlinear_arith)
        requires
            -32768 <= w <= 32767,
            1 <= p <= 65536,
    ;
    lemma_shl_i32(w as i32, shift);
    let v = (w as i32) << shift;
    lemma_rshift_round_bounds(v, shift);
    vstd::arithmetic::div_mod::lemma_fundamental_div_mod_converse(v + h, p, w as int, h);
}

/// What comes out of a fit are the fitted coefficients, rounded: nothing wraps,
/// clipped or not. Coefficients that fit are left alone.
pub proof fn lemma_fit_agrees(a: Seq<i32>, shift: u32, k: int)
    requires
        forall|i: int| 0 <= i < a.len() ==> #[trigger] a[i] > i32::MIN,
        a.len() <= 13107,
        1 <= shift < 32,
        0 <= k < a.len(),
    ensures
        lpc_fit_out_spec(a, shift)[k] == rshift_round_spec(lpc_fit_in_spec(a, shift)[k], shift),
        rshift_round_spec(largest_spec(a, a.len() as int).0, shift) <= 32767 ==> lpc_fit_in_spec(
            a,
            shift,
        ) == a,
{
    let tries = MAX_FIT_ITERATIONS as int;
    let (b, clip) = fitted_spec(a, shift, tries);
    lemma_fitted(a, shift, tries);
    lemma_fitted_len(a, shift, tries);
    if clip {
        lemma_round_of_shifted(lpc_fit_out_spec(a, shift)[k], shift);
    } else {
        lemma_within_largest(b, b.len() as int, k);
        lemma_round_within(b[k], largest_spec(b, b.len() as int).0, shift);
    }
}

/// The quotient of the fit chirp stays below 16 bits.
proof fn lemma_fit_quotient(c: int, i1: int)
    requires
        32768 <= c <= 163838,
        1 <= i1 <= 13107,
    ensures
        0 <= trunc_div((c - 32767) * 16384, (c * i1) / 4) <= 65552,
        (c * i1) / 4 >= 8192,
{
    let den = (c * i1) / 4;
    let num = (c - 32767) * 16384;
    assert(c * i1 >= c) by (nonlinear_arith)
        requires
            c >= 0,
            i1 >= 1,
    ;
    let q = num / den;
    vstd::arithmetic::div_mod::lemma_fundamental_div_mod(num, den);
    vstd::arithmetic::div_mod::lemma_mod_bound(num, den);
    assert(0 <= q <= 65552) by (nonlinear_arith)
        requires
            num == den * q + num % den,
            0 <= num % den < den,
            den >= c / 4,
            den >= 8192,
            num == (c - 32767) * 16384,
            32768 <= c <= 163838,
    ;
}

// ---------------------------------------------------------------------
// Conversion to a prediction filter
// ---------------------------------------------------------------------

/// Place of coefficient `k` in the vector of cosines.
pub open spec fn ordering_spec(d: int, k: int) -> int {
    if d == 16 {
        NLSF2A_ORDERING16@[k] as int
    } else {
        NLSF2A_ORDERING10@[k] as int
    }
}

/// Twice the cosine of a frequency in Q16, interpolated in the table.
pub open spec fn cos_lsf_spec(nlsf: i16) -> i32 {
    let i = nlsf as int / 256;
    let f = nlsf as int % 256;
    let c = LSF_COS_TAB_FIX_Q12@[i] as int;
    rshift_round_spec((c * 256 + (LSF_COS_TAB_FIX_Q12@[i + 1] - c) * f) as i32, 4)
}

/// The cosines of the first `k` coefficients at their places.
pub open spec fn cos_lsf_seq(nlsf: Seq<i16>, k: int) -> Seq<i32>
    decreases k,
{
    if k <= 0 {
        Seq::new(16, |i: int| 0i32)
    } else {
        cos_lsf_seq(nlsf, k - 1).update(
            ordering_spec(nlsf.len() as int, k - 1),
            cos_lsf_spec(nlsf[k - 1]),
        )
    }
}

/// Rounded product of a cosine and a polynomial coefficient.
pub open spec fn poly_product_spec(f: i32, x: i32) -> i32 {
    rshift_round64_spec((f * x) as i64, 16) as i32
}

/// The polynomial after multiplying in factor `k`, whose cosine is `f`.
pub open spec fn poly_step_spec(p: Seq<i32>, f: i32, k: int) -> Seq<i32> {
    Seq::new(
        p.len(),
        |n: int|
            if n == k + 1 {
                p[k - 1].wrapping_shl(1).wrapping_sub(poly_product_spec(f, p[k]))
            } else if 2 <= n <= k {
                p[n].wrapping_add(p[n - 2]).wrapping_sub(poly_product_spec(f, p[n - 1]))
            } else if n == 1 {
                p[1].wrapping_sub(f)
            } else {
                p[n]
            },
    )
}

/// The product of the first `k` factors `1 - c z + z^2`, whose cosines stand
/// in every second entry of `cos` from `off` on.
pub open spec fn find_poly_spec(cos: Seq<i32>, off: int, k: int) -> Seq<i32>
    decreases k,
{
    if k <= 1 {
        Seq::new(9, |i: int| 0i32).update(0, 65536).update(1, 0i32.wrapping_sub(cos[off]))
    } else {
        poly_step_spec(find_poly_spec(cos, off, k - 1), cos[off + 2 * (k - 1)], k - 1)
    }
}

fn nlsf2a_find_poly(cos_lsf_qa: &[i32; 16], clsf_off: usize, dd: usize) -> (out: [i32; 9])
    requires
        clsf_off <= 1,
        1 <= dd <= 8,
    ensures
        out@ == find_poly_spec(cos_lsf_qa@, clsf_off as int, dd as int),
{
    let mut out: [i32; 9] = [0; 9];
    out[0] = 65536;
    out[1] = 0i32.wrapping_sub(cos_lsf_qa[clsf_off]);
    assert(out@ =~= find_poly_spec(cos_lsf_qa@, clsf_off as int, 1));
    let mut k: usize = 1;
    while k < dd
        invariant
            clsf_off <= 1,
            1 <= k <= dd <= 8,
            out@ == find_poly_spec(cos_lsf_qa@, clsf_off as int, k as int),
        decreases dd - k,
    {
        let ghost p = out@;
        let ftmp: i32 = cos_lsf_qa[clsf_off + 2 * k];
        let ghost stepped = poly_step_spec(p, ftmp, k as int);
        out[k + 1] = out[k - 1].wrapping_shl(1).wrapping_sub(
            rshift_round64(smull(ftmp, out[k]), 16) as i32,
        );
        let mut n: usize = k;
        while n >= 2
            invariant
                1 <= k < 8,
                1 <= n <= k,
                p.len() == 9,
                stepped == poly_step_spec(p, ftmp, k as int),
                forall|t: int| 0 <= t <= n ==> #[trigger] out@[t] == p[t],
                forall|t: int| n < t < 9 ==> #[trigger] out@[t] == stepped[t],
            decreases n,
        {
            out[n] = out[n].wrapping_add(out[n - 2]).wrapping_sub(
                rshift_round64(smull(ftmp, out[n - 1]), 16) as i32,
            );
            n = n - 1;
        }
        out[1] = out[1].wrapping_sub(ftmp);
        assert(out@ =~= stepped);
        k = k + 1;
    }
    out
}

/// The filter at full precision: sum and difference of the even and odd
/// polynomials.
pub open spec fn lpc_from_cos_spec(cos: Seq<i32>, d: int) -> Seq<i32> {
    let p = find_poly_spec(cos, 0, d / 2);
    let q = find_poly_spec(cos, 1, d / 2);
    Seq::new(
        d as nat,
        |i: int|
            {
                let k = if i < d / 2 {
                    i
                } else {
                    d - 1 - i
                };
                let pt = p[k + 1].wrapping_add(p[k]);
                let qt = q[k + 1].wrapping_sub(q[k]);
                if i < d / 2 {
                    0i32.wrapping_sub(qt).wrapping_sub(pt)
                } else {
                    qt.wrapping_sub(pt)
                }
            },
    )
}

/// Rounds full-precision coefficients to Q12.
pub open spec fn to_q12_spec(a: Seq<i32>) -> Seq<i16> {
    Seq::new(a.len(), |i: int| rshift_round_spec(a[i], 5) as i16)
}

/// Chirp of expansion number `i`: ever further below one.
pub open spec fn stabilize_chirp_spec(i: int) -> i32 {
    (65536 - pow2((i + 1) as nat)) as i32
}

/// Expands from expansion number `i` on until the Q12 filter `a` is stable.
pub open spec fn stable_lpc_spec(a32: Seq<i32>, a: Seq<i16>, i: int) -> Seq<i16>
    decreases MAX_LPC_STABILIZE_ITERATIONS - i,
{
    if i >= MAX_LPC_STABILIZE_ITERATIONS || lpc_inverse_pred_gain_spec(a, a.len() as int) != 0 {
        a
    } else {
        let b = bwexpander_32_spec(a32, stabilize_chirp_spec(i));
        stable_lpc_spec(b, to_q12_spec(b), i + 1)
    }
}

/// The Q12 prediction filter of a vector of line spectral frequencies.
pub open spec fn nlsf2a_spec(nlsf: Seq<i16>) -> Seq<i16> {
    let d = nlsf.len() as int;
    let a32 = lpc_from_cos_spec(cos_lsf_seq(nlsf, d), d);
    stable_lpc_spec(lpc_fit_in_spec(a32, 5), lpc_fit_out_spec(a32, 5), 0)
}

pub proof fn lemma_stable_lpc_len(a32: Seq<i32>, a: Seq<i16>, i: int)
    requires
        a32.len() == a.len(),
    ensures
        stable_lpc_spec(a32, a, i).len() == a.len(),
    decreases MAX_LPC_STABILIZE_ITERATIONS - i,
{
    if i < MAX_LPC_STABILIZE_ITERATIONS && lpc_inverse_pred_gain_spec(a, a.len() as int) == 0 {
        let b = bwexpander_32_spec(a32, stabilize_chirp_spec(i));
        lemma_stable_lpc_len(b, to_q12_spec(b), i + 1);
    }
}

pub proof fn lemma_nlsf2a_len(nlsf: Seq<i16>)
    ensures
        nlsf2a_spec(nlsf).len() == nlsf.len(),
{
    let d = nlsf.len() as int;
    let a32 = lpc_from_cos_spec(cos_lsf_seq(nlsf, d), d);
    lemma_fitted_len(a32, 5, MAX_FIT_ITERATIONS as int);
    lemma_stable_lpc_len(lpc_fit_in_spec(a32, 5), lpc_fit_out_spec(a32, 5), 0);
}

/// Zero rounds to zero.
proof fn lemma_round_zero(shift: u32)
    requires
        1 <= shift,
    ensures
        rshift_round_spec(0, shift) == 0,
        rshift_round64_spec(0, shift) == 0,
{
    reveal(rshift_round_spec);
    reveal(rshift_round64_spec);
    lemma_pow2_pos((shift - 1) as nat);
    vstd::arithmetic::power2::lemma_pow2_unfold(shift as nat);
    vstd::arithmetic::div_mod::lemma_basic_div(
        pow2((shift - 1) as nat) as int,
        pow2(shift as nat) as int,
    );
}

/// A chirp of zero is zero throughout.
proof fn lemma_chirp_zero(i: int)
    ensures
        chirp_spec(0, i) == 0,
    decreases i,
{
    if i > 0 {
        lemma_chirp_zero(i - 1);
        lemma_round_zero(16);
    }
}

proof fn lemma_smmul_units()
    ensures
        smmul_spec(0x4000_0000, 0x4000_0000) == 0x1000_0000,
{
    reveal(smmul_spec);
    let a: int = 0x4000_0000;
    assert(a * a == 0x1000_0000_0000_0000) by (nonlinear_arith)
        requires
            a == 0x4000_0000,
    ;
    assert(0x1000_0000_0000_0000int / 0x1_0000_0000 == 0x1000_0000);
}

/// The filter without coefficients has unit gain.
proof fn lemma_flat_gain(a: Seq<i32>, k: int)
    requires
        0 <= k < a.len(),
        forall|i: int| 0 <= i < a.len() ==> #[trigger] a[i] == 0,
    ensures
        inverse_gain_spec(a, k, 0x4000_0000) == 0x4000_0000,
    decreases k,
{
    lemma_rc_mult1(0);
    assert(rc_mult1_spec(0) == 0x4000_0000) by {
        reveal(smmul_spec);
    }
    lemma_smmul_units();
    lemma2_to64();
    lemma_shl_i32(0x1000_0000, 2);
    assert(levinson_step_spec(0, 0, 0) == 0) by {
        reveal(levinson_step_spec);
        lemma_round_zero(31);
        lemma_round_zero(rc_mult2q_spec(0));
        let mult2 = inverse32_varq_spec(rc_mult1_spec(0), (rc_mult2q_spec(0) + 30) as u32);
        assert(reflection_spec(0) == 0);
        assert(mul32_frac_q_spec(0, 0, 31) == 0);
        assert(0 * mult2 == 0);
    }
    if k > 0 {
        lemma_flat_gain(levinson_down_spec(a, k), k - 1);
    }
}

/// Expansion ends with a stable filter: the last chirp leaves nothing of it.
proof fn lemma_stable_lpc(a32: Seq<i32>, a: Seq<i16>, i: int)
    requires
        a32.len() == a.len(),
        1 <= a.len(),
        0 <= i <= MAX_LPC_STABILIZE_ITERATIONS,
        i == MAX_LPC_STABILIZE_ITERATIONS ==> lpc_inverse_pred_gain_spec(a, a.len() as int) != 0,
    ensures
        lpc_inverse_pred_gain_spec(stable_lpc_spec(a32, a, i), a.len() as int) != 0,
    decreases MAX_LPC_STABILIZE_ITERATIONS - i,
{
    if i < MAX_LPC_STABILIZE_ITERATIONS && lpc_inverse_pred_gain_spec(a, a.len() as int) == 0 {
        let b = bwexpander_32_spec(a32, stabilize_chirp_spec(i));
        let q = to_q12_spec(b);
        let n = a.len() as int;
        if i == MAX_LPC_STABILIZE_ITERATIONS - 1 {
            lemma2_to64();
            assert(stabilize_chirp_spec(i) == 0);
            assert forall|k: int| 0 <= k < n implies #[trigger] q[k] == 0 by {
                lemma_chirp_zero(k);
                reveal(smulww_spec);
                assert(b[k] == 0);
                lemma_round_zero(5);
            }
            lemma_dc_zero(q, n);
            lemma_flat_gain(Seq::new(n as nat, |i: int| (q[i] * 4096) as i32), n - 1);
        }
        lemma_stable_lpc(b, q, i + 1);
    }
}

proof fn lemma_dc_zero(a: Seq<i16>, n: int)
    requires
        n <= a.len(),
        forall|i: int| 0 <= i < a.len() ==> #[trigger] a[i] == 0,
    ensures
        dc_response_spec(a, n) == 0,
    decreases n,
{
    if n > 0 {
        lemma_dc_zero(a, n - 1);
    }
}

/// Every prediction filter that comes from line spectral frequencies is
/// stable: its inverse prediction gain is not zero.
pub proof fn lemma_nlsf2a_stable(nlsf: Seq<i16>)
    requires
        1 <= nlsf.len(),
    ensures
        lpc_inverse_pred_gain_spec(nlsf2a_spec(nlsf), nlsf.len() as int) != 0,
{
    let d = nlsf.len() as int;
    let a32 = lpc_from_cos_spec(cos_lsf_seq(nlsf, d), d);
    lemma_fitted_len(a32, 5, MAX_FIT_ITERATIONS as int);
    lemma_stable_lpc(lpc_fit_in_spec(a32, 5), lpc_fit_out_spec(a32, 5), 0);
}

/// Converts line spectral frequencies in Q15 to a Q12 prediction filter.
pub fn nlsf2a(a_q12: &mut [i16], nlsf: &[i16], d: usize)
    requires
        d == 10 || d == 16,
        old(a_q12)@.len() == d,
        nlsf@.len() == d,
        forall|i: int| 0 <= i < d ==> 0 <= #[trigger] nlsf@[i],
    ensures
        final(a_q12)@ == nlsf2a_spec(nlsf@),
        final(a_q12)@.len() == d,
{
    let mut cos_lsf_qa: [i32; 16] = [0; 16];
    assert(cos_lsf_qa@ =~= cos_lsf_seq(nlsf@, 0));
    let mut k: usize = 0;
    while k < d
        invariant
            d == 10 || d == 16,
            nlsf@.len() == d,
            forall|i: int| 0 <= i < d ==> 0 <= #[trigger] nlsf@[i],
            k <= d,
            cos_lsf_qa@ == cos_lsf_seq(nlsf@, k as int),
        decreases d - k,
    {
        let x: i16 = nlsf[k];
        let f_int: usize = (x / 256) as usize;
        let f_frac: i32 = (x % 256) as i32;
        let cos_val: i32 = LSF_COS_TAB_FIX_Q12[f_int] as i32;
        let delta: i32 = LSF_COS_TAB_FIX_Q12[f_int + 1] as i32 - cos_val;
        proof {
            lemma_product_bound(delta as int, f_frac as int, 65536, 255);
        }
        let place: usize = if d == 16 {
            NLSF2A_ORDERING16[k] as usize
        } else {
            NLSF2A_ORDERING10[k] as usize
        };
        cos_lsf_qa[place] = rshift_round(cos_val * 256 + delta * f_frac, 4);
        k = k + 1;
    }
    let dd: usize = d / 2;
    let p_poly: [i32; 9] = nlsf2a_find_poly(&cos_lsf_qa, 0, dd);
    let q_poly: [i32; 9] = nlsf2a_find_poly(&cos_lsf_qa, 1, dd);
    let ghost a32 = lpc_from_cos_spec(cos_lsf_qa@, d as int);
    let mut a32_qa1: [i32; 16] = [0; 16];
    let mut k: usize = 0;
    while k < dd
        invariant
            d == 10 || d == 16,
            dd == d / 2,
            k <= dd,
            p_poly@ == find_poly_spec(cos_lsf_qa@, 0, dd as int),
            q_poly@ == find_poly_spec(cos_lsf_qa@, 1, dd as int),
            a32 == lpc_from_cos_spec(cos_lsf_qa@, d as int),
            forall|t: int| 0 <= t < k ==> #[trigger] a32_qa1@[t] == a32[t],
            forall|t: int| d - k <= t < d ==> #[trigger] a32_qa1@[t] == a32[t],
        decreases dd - k,
    {
        let ptmp: i32 = p_poly[k + 1].wrapping_add(p_poly[k]);
        let qtmp: i32 = q_poly[k + 1].wrapping_sub(q_poly[k]);
        a32_qa1[k] = 0i32.wrapping_sub(qtmp).wrapping_sub(ptmp);
        a32_qa1[d - k - 1] = qtmp.wrapping_sub(ptmp);
        k = k + 1;
    }
    let (a, _tail) = a32_qa1.split_at_mut(d);
    assert(a@ =~= a32);
    lpc_fit(a_q12, a, 12, 17, d);
    proof {
        assert(a32.subrange(0, d as int) =~= a32);
        assert(a@ =~= lpc_fit_in_spec(a32, 5));
        lemma_nlsf2a_len(nlsf@);
        lemma_fitted_len(a32, 5, MAX_FIT_ITERATIONS as int);
    }
    let mut i: u32 = 0;
    while i < MAX_LPC_STABILIZE_ITERATIONS && lpc_inverse_pred_gain(a_q12, d) == 0
        invariant
            d == 10 || d == 16,
            a_q12@.len() == d,
            a@.len() == d,
            i <= MAX_LPC_STABILIZE_ITERATIONS,
            stable_lpc_spec(a@, a_q12@, i as int) == nlsf2a_spec(nlsf@),
        decreases MAX_LPC_STABILIZE_ITERATIONS - i,
    {
        proof {
            lemma2_to64();
            vstd::arithmetic::power2::lemma_pow2_unfold((i + 1) as nat);
            lemma_pow2_adds((i + 1) as nat, (15 - i) as nat);
            lemma_pow2_pos((15 - i) as nat);
            assert(pow2((i + 1) as nat) <= 65536) by (nonlinear_arith)
                requires
                    pow2((i + 1) as nat) * pow2((15 - i) as nat) == 65536,
                    pow2((15 - i) as nat) >= 1,
                    pow2((i + 1) as nat) >= 0,
            ;
            lemma_shl_i32(2, i);
        }
        let ghost spec_before = stable_lpc_spec(a@, a_q12@, i as int);
        bwexpander_32(a, 65536 - (2i32 << i));
        let ghost b = a@;
        let mut k: usize = 0;
        while k < d
            invariant
                a_q12@.len() == d,
                a@.len() == d,
                b == a@,
                k <= d,
                forall|t: int| 0 <= t < k ==> #[trigger] a_q12@[t] == rshift_round_spec(b[t], 5) as i16,
            decreases d - k,
        {
            a_q12[k] = rshift_round(a[k], 5) as i16;
            k = k + 1;
        }
        assert(a_q12@ =~= to_q12_spec(b));
        i = i + 1;
    }
}

/// Residual levels: mirrored below zero, one apart, and the first on either
/// side nearer to zero by the level adjustment.
pub proof fn lemma_residual_levels(index: i8)
    requires
        -127 <= index < 127,
    ensures
        residual_level_spec((-index) as i8) == -residual_level_spec(index),
        residual_level_spec((index + 1) as i8) - residual_level_spec(index) == (if index == 0
            || index == -1 {
            1024 - 102
        } else {
            1024int
        }),
{
}

/// The factors of a chirp never grow and stay positive; a chirp of one has
/// none but ones.
pub proof fn lemma_chirp_falls(chirp_q16: i32, i: int)
    requires
        32768 <= chirp_q16 <= 65536,
        i >= 0,
    ensures
        0 <= chirp_spec(chirp_q16, i) <= chirp_q16,
        chirp_spec(chirp_q16, i + 1) <= chirp_spec(chirp_q16, i),
        chirp_q16 == 65536 ==> chirp_spec(chirp_q16, i) == 65536,
    decreases i,
{
    if i > 0 {
        lemma_chirp_falls(chirp_q16, i - 1);
    }
    let c0 = chirp_spec(chirp_q16, i - 1);
    if i > 0 {
        lemma_chirp_step(c0, chirp_q16);
    }
    lemma_chirp_step(chirp_spec(chirp_q16, i), chirp_q16);
}

proof fn lemma_chirp_step(c: i32, chirp_q16: i32)
    requires
        32768 <= chirp_q16 <= 65536,
        0 <= c <= 65536,
    ensures
        ({
            let n = c.wrapping_add(
                rshift_round_spec(c.wrapping_mul((chirp_q16 - 65536) as i32), 16),
            );
            &&& 0 <= n <= c
            &&& chirp_q16 == 65536 ==> n == c
        }),
{
    let d = (chirp_q16 - 65536) as i32;
    let y = c * d;
    assert(-32768 * c <= y <= 0 && (d == 0 ==> y == 0)) by (nonlinear_arith)
        requires
            y == c * d,
            0 <= c,
            -32768 <= d <= 0,
    ;
    assert(c.wrapping_mul(d) == y);
    lemma_rshift_round_bounds(y as i32, 16);
    vstd::arithmetic::power2::lemma2_to64();
}

/// A chirp of one leaves a filter as it is.
pub proof fn lemma_chirp_of_one(ar: Seq<i16>)
    ensures
        bwexpander_spec(ar, 65536) == ar,
{
    assert forall|i: int| 0 <= i < ar.len() implies #[trigger] bwexpander_spec(ar, 65536)[i]
        == ar[i] by {
        lemma_chirp_falls(65536, i);
        let a = ar[i] as i32;
        assert((65536i32).wrapping_mul(a) == 65536 * a);
        lemma_rshift_round_bounds((65536 * a) as i32, 16);
        vstd::arithmetic::power2::lemma2_to64();
    }
    assert(bwexpander_spec(ar, 65536) =~= ar);
}

} // verus!
