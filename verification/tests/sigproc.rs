//! Fixed-point arithmetic.
use cadence::sigproc::{
    add_lshift32, add_sat16, div32, div32_16, insertion_sort_increasing_all_values_int16,
    lpc_analysis_filter, lshift_sat32, rand, rshift_round, rshift_round64, sat16, smlawb, smlaww,
    smmul, smulbb, smultt, smulwb, smulww, sqrt_approx, sub_lshift32, sub_sat32, sum_sqr_shift,
    RAND_INCREMENT, RAND_MULTIPLIER,
};

#[test]
fn smulbb_uses_bottom_halves() {
    assert_eq!(smulbb(0x1_0001, 3), 3);
    assert_eq!(smulbb(-5, 7), -35);
    assert_eq!(smulbb(i16::MIN as i32, i16::MIN as i32), 1_073_741_824);
}

#[test]
fn smulwb_smlawb_q16_products() {
    assert_eq!(smulwb(65536, 3), 3);
    assert_eq!(smulwb(1 << 20, 1 << 14), 1 << 18);
    assert_eq!(smulwb(-65536 * 2, 5), -10);
    assert_eq!(smlawb(100, 65536, 7), 107);

    assert_eq!(smulwb(65536, 2 + 65536), 2);

    assert_eq!(
        smlawb(i32::MAX, 65536, 32767),
        (i32::MAX as i64 + 32767) as i32
    );
}

#[test]
fn rshift_round_matches_definition() {
    assert_eq!(rshift_round(5, 1), 3);
    assert_eq!(rshift_round(4, 1), 2);
    assert_eq!(rshift_round(-3, 1), -1);
    assert_eq!(rshift_round(383, 8), 1);
    assert_eq!(rshift_round(384, 8), 2);
    assert_eq!(rshift_round(255, 8), 1);
    assert_eq!(rshift_round(-129, 8), -1);
    assert_eq!(rshift_round(-1, 8), 0);
}

#[test]
fn sat16_clamps() {
    assert_eq!(sat16(32767), 32767);
    assert_eq!(sat16(40000), 32767);
    assert_eq!(sat16(-32768), -32768);
    assert_eq!(sat16(-40000), -32768);
}

#[test]
fn wide_product_helpers() {
    assert_eq!(smulww(65536, 65536), 65536);
    assert_eq!(smulww(-65536, 65536), -65536);
    assert_eq!(
        smulww(i32::MAX, i32::MAX),
        ((i32::MAX as i64 * i32::MAX as i64) >> 16) as i32
    );
    assert_eq!(smlaww(100, 65536, 65536), 100 + 65536);
    assert_eq!(smmul(1 << 20, 1 << 20), 1 << 8);
    assert_eq!(smmul(-65536, 65536), -1);
    assert_eq!(smmul(i32::MIN, i32::MIN), 1 << 30);
}

#[test]
fn rshift_round64_matches_definition() {
    assert_eq!(rshift_round64(5, 1), 3);
    assert_eq!(rshift_round64(-3, 1), -1);
    assert_eq!(rshift_round64(383, 8), 1);
    assert_eq!(rshift_round64(-129, 8), -1);
    assert_eq!(
        rshift_round64((1 << 40) + 123, 33),
        128
    );
}

#[test]
fn div32_16_truncates_toward_zero() {
    assert_eq!(div32_16(7, 2), 3);
    assert_eq!(div32_16(-7, 2), -3);
    assert_eq!(div32_16(7, -2), -3);

    assert_eq!(div32_16(100, 65536 + 5), 20);
}

#[test]
fn saturating_add_sub() {
    assert_eq!(add_sat16(30000, 30000), 32767);
    assert_eq!(add_sat16(-30000, -30000), -32768);
    assert_eq!(add_sat16(100, -200), -100);
    assert_eq!(sub_sat32(i32::MIN, 1), i32::MIN);
    assert_eq!(sub_sat32(i32::MAX, -1), i32::MAX);
    assert_eq!(sub_sat32(100, 150), -50);
}

#[test]
fn insertion_sort_sorts_and_keeps_duplicates() {
    let mut a = [3i16, -1, 2, -1, 0, i16::MIN, i16::MAX];
    insertion_sort_increasing_all_values_int16(&mut a);
    assert_eq!(a, [i16::MIN, -1, -1, 0, 2, 3, i16::MAX]);

    let mut b = [1i16, 2, 3];
    insertion_sort_increasing_all_values_int16(&mut b);
    assert_eq!(b, [1, 2, 3]);

    let mut c = [7i16];
    insertion_sort_increasing_all_values_int16(&mut c);
    assert_eq!(c, [7]);
    let mut d: [i16; 0] = [];
    insertion_sort_increasing_all_values_int16(&mut d);
}

#[test]
fn add_lshift32_and_div32() {
    assert_eq!(add_lshift32(100, 3, 7), 100 + 384);
    assert_eq!(add_lshift32(i32::MAX, 1, 0), i32::MIN);
    assert_eq!(div32(7, 2), 3);
    assert_eq!(div32(-7, 2), -3);
}

#[test]
fn rand_lcg_matches_silk_rand() {
    let s0: i32 = 3176576;
    let s1 = s0.wrapping_mul(RAND_MULTIPLIER).wrapping_add(RAND_INCREMENT);
    let s2 = s1.wrapping_mul(RAND_MULTIPLIER).wrapping_add(RAND_INCREMENT);
    assert_eq!(rand(s0), s1);
    assert_eq!(rand(s1), s2);

    assert_eq!(rand(i32::MAX), (i32::MAX as i64 * RAND_MULTIPLIER as i64 + RAND_INCREMENT as i64) as i32);
}

#[test]
fn sqrt_approx_accuracy() {
    assert_eq!(sqrt_approx(0), 0);
    assert_eq!(sqrt_approx(-5), 0);

    assert_eq!(sqrt_approx(1 << 30), 32768);

    assert_eq!(sqrt_approx(1 << 28), 16384);
    for &x in &[1i32, 7, 100, 250, 1 << 14, (1 << 20) + 123, i32::MAX, 303700049] {
        let y = sqrt_approx(x) as f64;
        let r = (x as f64).sqrt();
        if r >= 15.0 {
            assert!(
                (y - r).abs() / r < 0.10,
                "x={x}: got {y}, want ~{r}"
            );
        }
        assert!(y >= 0.0);
    }
}

#[test]
fn energy_of_short_signals_is_exact() {
    assert_eq!(sum_sqr_shift(&[3, -4]), (25, 0));
    let (e, shift) = sum_sqr_shift(&[7; 10]);
    assert_eq!((e as i64) << shift, 49 * 10);
    let (e, shift) = sum_sqr_shift(&[2, 3, 4]);
    assert_eq!((e as i64) << shift, 4 + 9 + 16);
}

#[test]
fn energy_of_loud_signals_is_shifted() {
    assert_eq!(sum_sqr_shift(&[i16::MAX; 320]), (306_764_653, 3));
}

#[test]
fn top_halves_and_left_shifts() {
    assert_eq!(smultt(0x1234_5678, 0x8765_4321u32 as i32), 0x1234 * -30875);
    assert_eq!(sub_lshift32(1000, 3, 5), 1000 - 96);
    assert_eq!(sub_lshift32(0, i32::MAX, 1), 2);
    assert_eq!(lshift_sat32(1 << 20, 16), 0x7fff_0000);
    assert_eq!(lshift_sat32(-(1 << 20), 16), i32::MIN);
    assert_eq!(lshift_sat32(5, 4), 80);
}

#[test]
fn analysis_filter_subtracts_the_prediction() {
    let x: [i16; 10] = [100, 200, 300, 400, 500, 600, 700, 800, 900, 1000];
    let mut out = [7i16; 10];
    lpc_analysis_filter(&mut out, &x, &[2048, 0, 0, 0, 0, 0], 6);
    assert_eq!(out, [0, 0, 0, 0, 0, 0, 400, 450, 500, 550]);
}
