//! Resampling.
use cadence::resampler::{
    ar2, down2, down2_3, rate_id, up2_hq, Resampler, MAX_IIR_ORDER, RESAMPLER_1_2_COEFS,
    RESAMPLER_1_3_COEFS, RESAMPLER_1_4_COEFS, RESAMPLER_1_6_COEFS, RESAMPLER_2_3_COEFS,
    RESAMPLER_2_3_COEFS_LQ, RESAMPLER_3_4_COEFS, RESAMPLER_DOWN2_0, RESAMPLER_DOWN2_1,
    RESAMPLER_FRAC_FIR_12, RESAMPLER_UP2_HQ_0, RESAMPLER_UP2_HQ_1,
};
use cadence::sigproc::smulww;

const DEC_PAIRS: [(i32, i32); 15] = [
    (8000, 8000),
    (8000, 12000),
    (8000, 16000),
    (8000, 24000),
    (8000, 48000),
    (12000, 8000),
    (12000, 12000),
    (12000, 16000),
    (12000, 24000),
    (12000, 48000),
    (16000, 8000),
    (16000, 12000),
    (16000, 16000),
    (16000, 24000),
    (16000, 48000),
];

const ENC_PAIRS: [(i32, i32); 6] = [
    (24000, 8000),
    (24000, 12000),
    (24000, 16000),
    (48000, 8000),
    (48000, 12000),
    (48000, 16000),
];

fn lcg_noise(n: usize, seed: u32) -> Vec<i16> {
    let mut x = seed;
    (0..n)
        .map(|_| {
            x = x.wrapping_mul(1664525).wrapping_add(1013904223);
            let v = (((x >> 16) as u16 as i32 & 0x3FFF) | 1) - 8192;
            v as i16
        })
        .collect()
}

fn sine(freq: f64, fs_hz: i32, len: usize, amp: f64) -> Vec<i16> {
    (0..len)
        .map(|n| {
            (amp * (2.0 * std::f64::consts::PI * freq * n as f64 / fs_hz as f64).sin()).round()
                as i16
        })
        .collect()
}

fn goertzel_amplitude(x: &[i16], freq: f64, fs_hz: f64) -> f64 {
    let w = 2.0 * std::f64::consts::PI * freq / fs_hz;
    let coeff = 2.0 * w.cos();
    let (mut s1, mut s2) = (0.0f64, 0.0f64);
    for &sample in x {
        let s0 = sample as f64 + coeff * s1 - s2;
        s2 = s1;
        s1 = s0;
    }
    let power = s1 * s1 + s2 * s2 - coeff * s1 * s2;
    power.max(0.0).sqrt() * 2.0 / x.len() as f64
}

fn resample_all(fs_in: i32, fs_out: i32, input: &[i16], for_enc: bool) -> Vec<i16> {
    let mut r = Resampler::new(fs_in, fs_out, for_enc).unwrap();
    let out_len = input.len() / (fs_in as usize / 1000) * (fs_out as usize / 1000);
    let mut out = vec![0i16; out_len];
    r.resample(&mut out, input).unwrap();
    out
}

#[test]
fn coefficient_table_spot_checks() {
    assert_eq!(RESAMPLER_DOWN2_0, 9872);
    assert_eq!(RESAMPLER_DOWN2_1, -25727);
    assert_eq!(RESAMPLER_UP2_HQ_0, [1746, 14986, -26453]);
    assert_eq!(RESAMPLER_UP2_HQ_1, [6854, 25769, -9994]);
    assert_eq!(RESAMPLER_3_4_COEFS.len(), 29);
    assert_eq!(RESAMPLER_2_3_COEFS.len(), 20);
    assert_eq!(RESAMPLER_1_2_COEFS.len(), 14);
    assert_eq!(RESAMPLER_1_3_COEFS.len(), 20);
    assert_eq!(RESAMPLER_1_4_COEFS.len(), 20);
    assert_eq!(RESAMPLER_1_6_COEFS.len(), 20);
    assert_eq!(&RESAMPLER_3_4_COEFS[..2], &[-20694, -13867]);
    assert_eq!(
        RESAMPLER_3_4_COEFS[2..9],
        [-49, 64, 17, -157, 353, -496, 163]
    );
    assert_eq!(RESAMPLER_3_4_COEFS[27..], [2568, 15909]);
    assert_eq!(&RESAMPLER_1_2_COEFS[..2], &[616, -14323]);
    assert_eq!(RESAMPLER_1_2_COEFS[12..], [5380, 9024]);
    assert_eq!(&RESAMPLER_1_6_COEFS[2..8], &[17, 12, 8, 1, -10, -22]);
    assert_eq!(RESAMPLER_1_6_COEFS[19], 455);
    assert_eq!(
        RESAMPLER_2_3_COEFS_LQ,
        [-2797, -6507, 4697, 10739, 1567, 8276]
    );
    assert_eq!(RESAMPLER_FRAC_FIR_12.len(), 12);
    assert_eq!(RESAMPLER_FRAC_FIR_12[0], [189, -600, 617, 30567]);
    assert_eq!(RESAMPLER_FRAC_FIR_12[5], [-80, 905, -4235, 21254]);
    assert_eq!(RESAMPLER_FRAC_FIR_12[11], [-46, 425, -1375, 2996]);
}

#[test]
fn rate_id_mapping() {
    assert_eq!(rate_id(8000), 0);
    assert_eq!(rate_id(12000), 1);
    assert_eq!(rate_id(16000), 2);
    assert_eq!(rate_id(24000), 3);
    assert_eq!(rate_id(48000), 4);
}

#[test]
fn init_delay_matches_reference_matrices() {
    let cases = [
        ((8000, 8000), 4),
        ((8000, 48000), 0),
        ((12000, 12000), 9),
        ((12000, 48000), 4),
        ((16000, 12000), 3),
        ((16000, 48000), 7),
    ];
    for &((fs_in, fs_out), delay) in &cases {
        let r = Resampler::new(fs_in, fs_out, false).unwrap();
        assert_eq!(r.input_delay(), delay, "{fs_in} -> {fs_out}");
    }

    assert_eq!(Resampler::new(48000, 8000, true).unwrap().input_delay(), 18);
    assert_eq!(
        Resampler::new(16000, 16000, true).unwrap().input_delay(),
        10
    );
}

#[test]
fn init_rejects_unsupported_rate_pairs() {
    assert!(Resampler::new(24000, 48000, false).is_err());
    assert!(Resampler::new(11000, 48000, false).is_err());

    assert!(Resampler::new(16000, 44100, false).is_err());
    assert!(Resampler::new(16000, 32000, false).is_err());

    assert!(Resampler::new(48000, 48000, true).is_err());
    assert!(Resampler::new(44100, 16000, true).is_err());
}

#[test]
fn inv_ratio_q16_values() {
    for &(fs_in, fs_out, up2x, want) in &[
        (8000, 48000, 1, 21846),
        (16000, 48000, 1, 43691),
        (8000, 12000, 1, 87382),
        (16000, 12000, 0, 87382),
        (16000, 8000, 0, 131072),
        (8000, 8000, 0, 65536),
        (24000, 16000, 0, 98304),
    ] {
        let r = Resampler::new(fs_in, fs_out, fs_out <= fs_in).unwrap();

        let mut q16 = ((fs_in << (14 + up2x)) / fs_out) << 2;
        while smulww(q16, fs_out) < (fs_in << up2x) {
            q16 += 1;
        }
        assert_eq!(r.inv_ratio_q16, q16, "{fs_in} -> {fs_out}");
        assert_eq!(r.inv_ratio_q16, want, "{fs_in} -> {fs_out}");
    }
}

#[test]
fn output_length_is_exact_for_all_supported_pairs() {
    const MS: usize = 137;
    for &(fs_in, fs_out) in DEC_PAIRS.iter().chain(ENC_PAIRS.iter()) {
        let for_enc = ENC_PAIRS.contains(&(fs_in, fs_out));
        let input = lcg_noise(MS * (fs_in as usize) / 1000, 1);
        let mut r = Resampler::new(fs_in, fs_out, for_enc).unwrap();

        let mut out = vec![i16::MIN; MS * (fs_out as usize) / 1000];
        r.resample(&mut out, &input).unwrap();
        assert!(
            out.iter().all(|&s| s != i16::MIN),
            "{fs_in} -> {fs_out}: underproduced output samples"
        );
    }
}

#[test]
fn chunked_resampling_is_bit_exact_vs_monolithic() {
    const MS: usize = 137;
    for &(fs_in, fs_out) in DEC_PAIRS.iter().chain(ENC_PAIRS.iter()) {
        let for_enc = ENC_PAIRS.contains(&(fs_in, fs_out));
        let input = lcg_noise(MS * (fs_in as usize) / 1000, 42);

        let want = resample_all(fs_in, fs_out, &input, for_enc);

        let ms_in = (fs_in as usize) / 1000;
        let ms_out = (fs_out as usize) / 1000;
        let mut r = Resampler::new(fs_in, fs_out, for_enc).unwrap();
        let mut got1 = Vec::with_capacity(want.len());
        for chunk in input.chunks(ms_in) {
            let mut out = vec![0i16; ms_out];
            r.resample(&mut out, chunk).unwrap();
            got1.extend_from_slice(&out);
        }
        assert_eq!(got1, want, "1 ms chunks, {fs_in} -> {fs_out}");

        let mut r = Resampler::new(fs_in, fs_out, for_enc).unwrap();
        let mut got2 = Vec::with_capacity(want.len());
        let pattern = [7usize, 3, 5, 2, 11, 1];
        let mut pos = 0;
        let mut pat = 0;
        while pos < input.len() {
            let ms = pattern[pat % pattern.len()];
            pat += 1;
            let end = (pos + ms * ms_in).min(input.len());
            let chunk = &input[pos..end];
            let mut out = vec![0i16; chunk.len() / ms_in * ms_out];
            r.resample(&mut out, chunk).unwrap();
            got2.extend_from_slice(&out);
            pos = end;
        }
        assert_eq!(got2, want, "irregular chunks, {fs_in} -> {fs_out}");
    }
}

#[test]
fn up2_hq_dc_settles_exactly() {
    let mut s = [0i32; MAX_IIR_ORDER];
    let input = vec![1000i16; 200];
    let mut out = vec![0i16; 400];
    up2_hq(&mut s, &mut out, &input);

    assert!(
        out[300..].iter().all(|&o| o == 1000),
        "out = {:?}",
        &out[300..]
    );
}

#[test]
fn down2_dc_settles_exactly() {
    let mut s = [0i32; 2];
    let input = vec![2000i16; 200];
    let mut out = vec![0i16; 100];
    down2(&mut s, &mut out, &input);
    assert!(
        out[40..].iter().all(|&o| o == 2000),
        "out = {:?}",
        &out[40..]
    );
}

#[test]
fn down2_3_length_and_dc() {
    let mut s = [0i32; 6];
    let input = vec![8000i16; 300];
    let mut out = vec![0i16; 200];
    down2_3(&mut s, &mut out, &input);

    let steady = &out[100..];
    assert!(steady.iter().all(|&o| o == steady[0]), "out = {:?}", steady);
    assert!((steady[0] - 8000).abs() < 130, "steady = {}", steady[0]);

    let mut s2 = [0i32; 6];
    let mut out2 = Vec::with_capacity(200);
    for chunk in input.chunks(96) {
        let mut o = vec![0i16; chunk.len() * 2 / 3];
        down2_3(&mut s2, &mut o, chunk);
        out2.extend_from_slice(&o);
    }
    assert_eq!(out2, out);
}

#[test]
fn ar2_identity_and_full_scale_smoke() {
    let mut s = [0i32; 2];
    let input = lcg_noise(100, 7);
    let mut out_q8 = vec![0i32; 100];
    ar2(&mut s, &mut out_q8, &input, &[0, 0]);
    assert_eq!(
        &out_q8[..],
        &input[..]
            .iter()
            .map(|&x| (x as i32) << 8)
            .collect::<Vec<_>>()
    );

    let mut s = [0i32; 2];
    let input = [32767i16, -32768].repeat(500);
    let mut out_q8 = vec![0i32; 1000];
    ar2(&mut s, &mut out_q8, &input, &RESAMPLER_1_2_COEFS[..2]);
}

#[test]
fn step_response_settles_at_input_level() {
    for &(fs_in, fs_out) in &[
        (8000, 48000),
        (16000, 48000),
        (16000, 8000),
        (8000, 12000),
        (12000, 8000),
        (16000, 12000),
    ] {
        let for_enc = ENC_PAIRS.contains(&(fs_in, fs_out));

        let mut input = vec![0i16; (fs_in as usize) / 100];
        input.extend(vec![12000i16; 50 * (fs_in as usize) / 1000]);
        let out = resample_all(fs_in, fs_out, &input, for_enc);

        let tail = &out[out.len() - (fs_out as usize) / 100..];
        let lo = tail.iter().min().unwrap();
        let hi = tail.iter().max().unwrap();
        assert!(hi - lo <= 4, "{fs_in} -> {fs_out}: tail ripple {lo}..{hi}");
        let mean = tail.iter().map(|&o| o as i64).sum::<i64>() as f64 / tail.len() as f64;
        assert!(
            (mean - 12000.0).abs() <= 120.0,
            "{fs_in} -> {fs_out}: step tail mean {mean}"
        );
    }
}

#[test]
fn sine_passband_gain_across_pairs() {
    for &(fs_in, fs_out) in DEC_PAIRS.iter().chain(ENC_PAIRS.iter()) {
        let for_enc = ENC_PAIRS.contains(&(fs_in, fs_out));
        let amp = 8000.0;
        let mut freqs = [100.0, 500.0, 1000.0, 2000.0, 3000.0].to_vec();
        freqs.push(0.4 * (fs_in.min(fs_out)) as f64);
        for &freq in &freqs {
            let input = sine(freq, fs_in, 40 * (fs_in as usize) / 1000, amp);
            let out = resample_all(fs_in, fs_out, &input, for_enc);

            let skip = 10 * (fs_out as usize) / 1000;
            let gain = goertzel_amplitude(&out[skip..], freq, fs_out as f64) / amp;
            assert!(
                (gain - 1.0).abs() < 0.15,
                "{fs_in} -> {fs_out} @ {freq} Hz: gain {gain}"
            );
        }
    }
}

#[test]
fn downsample_rejects_out_of_band_tones() {
    let cases = [
        (12000, 8000, 5500.0),
        (16000, 8000, 6500.0),
        (16000, 12000, 7300.0),
        (24000, 8000, 9000.0),
        (24000, 16000, 11000.0),
        (48000, 8000, 20000.0),
        (48000, 16000, 20000.0),
    ];
    for &(fs_in, fs_out, freq) in &cases {
        let for_enc = ENC_PAIRS.contains(&(fs_in, fs_out));
        let amp = 12000.0;
        let input = sine(freq, fs_in, 60 * (fs_in as usize) / 1000, amp);
        let out = resample_all(fs_in, fs_out, &input, for_enc);
        let skip = 15 * (fs_out as usize) / 1000;
        let gain = goertzel_amplitude(&out[skip..], freq, fs_out as f64) / amp;
        assert!(gain < 0.1, "{fs_in} -> {fs_out} @ {freq} Hz: gain {gain}");
    }
}

#[test]
fn upsample_suppresses_images() {
    let cases = [
        ((8000, 48000), 17000.0),
        ((12000, 48000), 13000.0),
        ((16000, 48000), 17000.0),
        ((8000, 16000), 9000.0),
        ((8000, 24000), 9000.0),
    ];
    for &((fs_in, fs_out), image) in &cases {
        let amp = 12000.0;
        let input = sine(1000.0, fs_in, 60 * (fs_in as usize) / 1000, amp);
        let out = resample_all(fs_in, fs_out, &input, false);
        let skip = 15 * (fs_out as usize) / 1000;
        let main = goertzel_amplitude(&out[skip..], 1000.0, fs_out as f64);
        let image_gain = goertzel_amplitude(&out[skip..], image, fs_out as f64);
        assert!(
            image_gain < 0.12 * main,
            "{fs_in} -> {fs_out}: image @ {image} Hz {image_gain} vs main {main}"
        );
    }
}

#[test]
fn copy_path_reproduces_input_with_reference_delay() {
    let input = lcg_noise(400, 9);
    let out = resample_all(8000, 8000, &input, false);
    let delay = Resampler::new(8000, 8000, false).unwrap().input_delay();
    assert_eq!(delay, 4);
    assert_eq!(&out[..delay], &[0i16; 4]);
    assert_eq!(&out[delay..], &input[..input.len() - delay]);

    let out = resample_all(16000, 16000, &input, false);
    let delay = Resampler::new(16000, 16000, false).unwrap().input_delay();
    assert_eq!(delay, 12);
    assert!(out[..delay].iter().all(|&s| s == 0));
    assert_eq!(&out[delay..], &input[..input.len() - delay]);
}

#[test]
fn resample_enforces_input_contract() {
    let mut r = Resampler::new(16000, 48000, false).unwrap();
    let mut out = vec![0i16; 48];

    assert!(r.resample(&mut out, &[1, 2, 3]).is_err());

    assert!(r.resample(&mut out, &[0i16; 17]).is_err());

    let mut bad = vec![0i16; 47];
    assert!(r.resample(&mut bad, &[0i16; 16]).is_err());
    assert_eq!(out.len(), 48);
    r.resample(&mut out, &[0i16; 16]).unwrap();
}

#[test]
fn down2_3_in_pieces_of_whole_triples() {
    let input = lcg_noise(1200, 9);
    let mut s = [0i32; 6];
    let mut whole = vec![0i16; 800];
    down2_3(&mut s, &mut whole, &input);
    let mut t = [0i32; 6];
    let mut parts = Vec::new();
    let mut start = 0usize;
    for len in [3usize, 297, 600, 300] {
        let mut out = vec![0i16; 2 * len / 3];
        down2_3(&mut t, &mut out, &input[start..start + len]);
        parts.extend_from_slice(&out);
        start += len;
    }
    assert_eq!(parts, whole);
    assert_eq!(s, t);
}
