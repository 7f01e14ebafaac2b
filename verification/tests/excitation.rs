//! Excitation coding.
use cadence::excitation::{
    decode_pulses, reconstruct_excitation, shell_decoder, N_RATE_LEVELS, QUANT_LEVEL_ADJUST_Q10,
    SHELL_CODEC_FRAME_LENGTH, SILK_MAX_PULSES,
};
use cadence::range::RangeDecoder;
use cadence::sigproc::{RAND_INCREMENT, RAND_MULTIPLIER};
use cadence::tables::{
    LSB_ICDF, MAX_PULSES_TABLE, PULSES_PER_BLOCK_ICDF, RATE_LEVELS_ICDF, SHELL_CODE_TABLE0,
    SHELL_CODE_TABLE1, SHELL_CODE_TABLE2, SHELL_CODE_TABLE3, SHELL_CODE_TABLE_OFFSETS, SIGN_ICDF,
};

const LOG2_SHELL_CODEC_FRAME_LENGTH: usize = 4;

/// Range encoder, the counterpart of the decoder.
struct RangeEncoder {
    buf: Vec<u8>,
    rng: u32,
    val: u32,
    rem: i32,
    ext: u32,
    nbits_total: u32,
}

impl RangeEncoder {
    fn new() -> Self {
        RangeEncoder {
            buf: Vec::new(),
            rng: 0x8000_0000,
            val: 0,
            rem: -1,
            ext: 0,
            nbits_total: 33,
        }
    }

    fn carry_out(&mut self, c: u32) {
        if c != 0xff {
            let carry: u32 = c >> 8;
            if self.rem >= 0 {
                self.buf.push((self.rem as u32 + carry) as u8);
            }
            let sym: u8 = (0xff + carry) as u8;
            while self.ext > 0 {
                self.buf.push(sym);
                self.ext -= 1;
            }
            self.rem = (c & 0xff) as i32;
        } else {
            self.ext += 1;
        }
    }

    fn normalize(&mut self) {
        while self.rng <= 0x80_0000 {
            self.carry_out(self.val >> 23);
            self.val = (self.val << 8) & 0x7fff_ffff;
            self.rng <<= 8;
            self.nbits_total += 8;
        }
    }

    fn encode_icdf(&mut self, symbol: u32, icdf: &[u8], ftb: u32) {
        let s: usize = symbol as usize;
        let r: u32 = self.rng >> ftb;
        if s > 0 {
            self.val += self.rng - r * icdf[s - 1] as u32;
            self.rng = r * (icdf[s - 1] as u32 - icdf[s] as u32);
        } else {
            self.rng -= r * icdf[s] as u32;
        }
        self.normalize();
    }

    fn tell(&self) -> u32 {
        self.nbits_total - (32 - self.rng.leading_zeros())
    }

    fn done(mut self) -> Vec<u8> {
        let mut l: i32 = self.rng.leading_zeros() as i32;
        let mut mask: u32 = 0x7fff_ffff >> l;
        let mut end: u32 = (self.val + mask) & !mask;
        if (end | mask) >= self.val + self.rng {
            l += 1;
            mask >>= 1;
            end = (self.val + mask) & !mask;
        }
        while l > 0 {
            self.carry_out(end >> 23);
            end = (end << 8) & 0x7fff_ffff;
            l -= 8;
        }
        if self.rem >= 0 || self.ext > 0 {
            self.carry_out(0);
        }
        self.buf
    }
}

struct XorShift(u32);

impl XorShift {
    fn next_u32(&mut self) -> u32 {
        let mut x = self.0;
        x ^= x << 13;
        x ^= x >> 17;
        x ^= x << 5;
        self.0 = x;
        x
    }
    fn next_range(&mut self, lo: i32, hi: i32) -> i32 {
        lo + (self.next_u32() % (hi - lo + 1) as u32) as i32
    }
}

fn encode_split(enc: &mut RangeEncoder, p_child1: i32, p: i32, shell_table: &[u8]) {
    if p > 0 {
        let offset = SHELL_CODE_TABLE_OFFSETS[p as usize] as usize;
        enc.encode_icdf(p_child1 as u32, &shell_table[offset..], 8);
    }
}

fn shell_encoder(enc: &mut RangeEncoder, pulses0: &[i32]) {
    assert_eq!(pulses0.len(), SHELL_CODEC_FRAME_LENGTH);
    let pulses1: Vec<i32> = (0..8)
        .map(|k| pulses0[2 * k] + pulses0[2 * k + 1])
        .collect();
    let pulses2: Vec<i32> = (0..4)
        .map(|k| pulses1[2 * k] + pulses1[2 * k + 1])
        .collect();
    let pulses3: Vec<i32> = (0..2)
        .map(|k| pulses2[2 * k] + pulses2[2 * k + 1])
        .collect();
    let pulses4 = pulses3[0] + pulses3[1];

    encode_split(enc, pulses3[0], pulses4, &SHELL_CODE_TABLE3);

    encode_split(enc, pulses2[0], pulses3[0], &SHELL_CODE_TABLE2);

    encode_split(enc, pulses1[0], pulses2[0], &SHELL_CODE_TABLE1);
    encode_split(enc, pulses0[0], pulses1[0], &SHELL_CODE_TABLE0);
    encode_split(enc, pulses0[2], pulses1[1], &SHELL_CODE_TABLE0);

    encode_split(enc, pulses1[2], pulses2[1], &SHELL_CODE_TABLE1);
    encode_split(enc, pulses0[4], pulses1[2], &SHELL_CODE_TABLE0);
    encode_split(enc, pulses0[6], pulses1[3], &SHELL_CODE_TABLE0);

    encode_split(enc, pulses2[2], pulses3[1], &SHELL_CODE_TABLE2);

    encode_split(enc, pulses1[4], pulses2[2], &SHELL_CODE_TABLE1);
    encode_split(enc, pulses0[8], pulses1[4], &SHELL_CODE_TABLE0);
    encode_split(enc, pulses0[10], pulses1[5], &SHELL_CODE_TABLE0);

    encode_split(enc, pulses1[6], pulses2[3], &SHELL_CODE_TABLE1);
    encode_split(enc, pulses0[12], pulses1[6], &SHELL_CODE_TABLE0);
    encode_split(enc, pulses0[14], pulses1[7], &SHELL_CODE_TABLE0);
}

fn combine_level(input: &[i32], max_pulses: i32) -> Option<Vec<i32>> {
    let mut out = vec![0i32; input.len() / 2];
    for (k, o) in out.iter_mut().enumerate() {
        let sum = input[2 * k] + input[2 * k + 1];
        if sum > max_pulses {
            return None;
        }
        *o = sum;
    }
    Some(out)
}

fn encode_signs(
    enc: &mut RangeEncoder,
    pulses: &[i16],
    length: usize,
    signal_type: i32,
    quant_offset_type: i32,
    sum_pulses: &[i32],
) {
    let mut icdf = [0u8; 2];
    let row = 7 * (quant_offset_type + (signal_type << 1)) as usize;
    let icdf_ptr = &SIGN_ICDF[row..];
    let n_blocks = (length + SHELL_CODEC_FRAME_LENGTH / 2) >> LOG2_SHELL_CODEC_FRAME_LENGTH;
    for i in 0..n_blocks {
        let p = sum_pulses[i];
        if p > 0 {
            icdf[0] = icdf_ptr[(p & 0x1F).min(6) as usize];
            for &q in &pulses[i * SHELL_CODEC_FRAME_LENGTH..(i + 1) * SHELL_CODEC_FRAME_LENGTH]
            {
                if q != 0 {
                    let sym = if q > 0 { 1u32 } else { 0u32 };
                    enc.encode_icdf(sym, &icdf, 8);
                }
            }
        }
    }
}

fn encode_pulses(
    enc: &mut RangeEncoder,
    signal_type: i32,
    quant_offset_type: i32,
    rate_level: usize,
    pulses: &mut Vec<i16>,
    frame_length: usize,
) -> u32 {
    let mut iter = frame_length >> LOG2_SHELL_CODEC_FRAME_LENGTH;
    if iter << LOG2_SHELL_CODEC_FRAME_LENGTH < frame_length {
        iter += 1;
        pulses.resize(iter * SHELL_CODEC_FRAME_LENGTH, 0);
    }

    let mut abs_pulses: Vec<i32> = pulses.iter().map(|&q| q.unsigned_abs() as i32).collect();
    let mut sum_pulses = vec![0i32; iter];
    let mut n_rshifts = vec![0i32; iter];
    for i in 0..iter {
        let block =
            &mut abs_pulses[i * SHELL_CODEC_FRAME_LENGTH..(i + 1) * SHELL_CODEC_FRAME_LENGTH];
        loop {
            let mut scale_down = false;
            let stage1 = combine_level(block, MAX_PULSES_TABLE[0] as i32);
            let stage2 = stage1
                .as_ref()
                .and_then(|v| combine_level(v, MAX_PULSES_TABLE[1] as i32));
            let stage3 = stage2
                .as_ref()
                .and_then(|v| combine_level(v, MAX_PULSES_TABLE[2] as i32));
            let stage4 = stage3
                .as_ref()
                .and_then(|v| combine_level(v, MAX_PULSES_TABLE[3] as i32));
            scale_down |=
                stage1.is_none() || stage2.is_none() || stage3.is_none() || stage4.is_none();
            if scale_down {
                n_rshifts[i] += 1;
                for v in block.iter_mut() {
                    *v >>= 1;
                }
            } else {
                sum_pulses[i] = stage4.unwrap()[0];
                break;
            }
        }
    }

    enc.encode_icdf(
        rate_level as u32,
        &RATE_LEVELS_ICDF[(signal_type >> 1) as usize],
        8,
    );

    for i in 0..iter {
        if n_rshifts[i] == 0 {
            enc.encode_icdf(sum_pulses[i] as u32, &PULSES_PER_BLOCK_ICDF[rate_level], 8);
        } else {
            enc.encode_icdf(
                (SILK_MAX_PULSES + 1) as u32,
                &PULSES_PER_BLOCK_ICDF[rate_level],
                8,
            );
            for _ in 0..n_rshifts[i] - 1 {
                enc.encode_icdf(
                    (SILK_MAX_PULSES + 1) as u32,
                    &PULSES_PER_BLOCK_ICDF[N_RATE_LEVELS - 1],
                    8,
                );
            }
            enc.encode_icdf(
                sum_pulses[i] as u32,
                &PULSES_PER_BLOCK_ICDF[N_RATE_LEVELS - 1],
                8,
            );
        }
    }

    for i in 0..iter {
        if sum_pulses[i] > 0 {
            shell_encoder(
                enc,
                &abs_pulses[i * SHELL_CODEC_FRAME_LENGTH..(i + 1) * SHELL_CODEC_FRAME_LENGTH],
            );
        }
    }

    for i in 0..iter {
        if n_rshifts[i] > 0 {
            let n_ls = n_rshifts[i] - 1;
            for k in 0..SHELL_CODEC_FRAME_LENGTH {
                let abs_q = pulses[i * SHELL_CODEC_FRAME_LENGTH + k].unsigned_abs() as i32;
                for j in (1..=n_ls).rev() {
                    let bit = (abs_q >> j) & 1;
                    enc.encode_icdf(bit as u32, &LSB_ICDF, 8);
                }
                enc.encode_icdf((abs_q & 1) as u32, &LSB_ICDF, 8);
            }
        }
    }

    encode_signs(
        enc,
        pulses,
        frame_length,
        signal_type,
        quant_offset_type,
        &sum_pulses,
    );

    enc.tell()
}

fn assert_round_trip(
    pulses: &[i16],
    frame_length: usize,
    signal_type: i32,
    quant_offset_type: i32,
    rate_level: usize,
) {
    let mut padded = pulses.to_vec();
    let mut enc = RangeEncoder::new();
    let enc_tell = encode_pulses(
        &mut enc,
        signal_type,
        quant_offset_type,
        rate_level,
        &mut padded,
        frame_length,
    );
    let bytes = enc.done();

    let iter = (frame_length + SHELL_CODEC_FRAME_LENGTH - 1) >> LOG2_SHELL_CODEC_FRAME_LENGTH;
    let mut out = vec![0i16; iter * SHELL_CODEC_FRAME_LENGTH];
    let mut dec = RangeDecoder::new(&bytes);
    decode_pulses(
        &mut dec,
        &mut out,
        signal_type,
        quant_offset_type,
        frame_length,
    )
    .expect("decode_pulses failed on a valid encoding");
    assert_eq!(
        dec.tell(),
        enc_tell,
        "decoder consumed a different number of symbols than the encoder wrote"
    );
    assert_eq!(&out[..frame_length], &padded[..frame_length]);

    assert!(out[frame_length..].iter().all(|&q| q == 0));
}

fn distribute(idx: usize, left: usize, cur: &mut Vec<usize>, out: &mut Vec<Vec<i32>>) {
    if idx + 1 == cur.len() {
        cur[idx] = left;
        out.push(cur.iter().map(|&c| c as i32).collect());
        return;
    }
    for v in 0..=left {
        cur[idx] = v;
        distribute(idx + 1, left - v, cur, out);
    }
}

fn all_compositions(k: usize, len: usize) -> Vec<Vec<i32>> {
    let mut out = Vec::new();
    let mut cur = vec![0usize; len];
    if k == 0 {
        out.push(vec![0i32; len]);
    } else {
        distribute(0, k, &mut cur, &mut out);
    }
    out
}

#[test]
fn shell_round_trip_exhaustive_small_sums() {
    for k in 0..=4usize {
        for pulses in all_compositions(k, SHELL_CODEC_FRAME_LENGTH) {
            let mut enc = RangeEncoder::new();
            shell_encoder(&mut enc, &pulses);
            let bytes = enc.done();

            let mut out = vec![0i16; SHELL_CODEC_FRAME_LENGTH];
            let mut dec = RangeDecoder::new(&bytes);
            if k == 0 {
                continue;
            }
            shell_decoder(&mut dec, &mut out, k as i32)
                .unwrap_or_else(|e| panic!("shell decode failed for {pulses:?}: {e:?}"));
            let got: Vec<i32> = out.iter().map(|&v| v as i32).collect();
            assert_eq!(got, pulses, "k={k}");
        }
    }
}

#[test]
fn shell_round_trip_random_up_to_max_pulses() {
    let mut rng = XorShift(0x5EED_1A2B);
    for k in 5..=16 {
        for _ in 0..150 {
            let mut pulses = vec![0i32; SHELL_CODEC_FRAME_LENGTH];
            for _ in 0..k {
                pulses[rng.next_u32() as usize % SHELL_CODEC_FRAME_LENGTH] += 1;
            }
            let mut enc = RangeEncoder::new();
            shell_encoder(&mut enc, &pulses);
            let bytes = enc.done();

            let mut out = vec![0i16; SHELL_CODEC_FRAME_LENGTH];
            let mut dec = RangeDecoder::new(&bytes);
            shell_decoder(&mut dec, &mut out, k).unwrap();
            let got: Vec<i32> = out.iter().map(|&v| v as i32).collect();
            assert_eq!(got, pulses, "k={k}");
        }
    }
}

#[test]
fn decode_pulses_round_trip_all_frame_lengths_and_types() {
    let frame_lengths = [80, 120, 160, 240, 320];
    let mut rng = XorShift(0xC0FF_EE01);
    for &frame_length in &frame_lengths {
        for signal_type in 0..3i32 {
            for quant_offset_type in 0..2i32 {
                for case in 0..12 {
                    let mut pulses = vec![0i16; frame_length];
                    let density = 1 + (case % 3);
                    for p in pulses.iter_mut() {
                        if rng.next_range(0, density * 3) == 0 {
                            let mag = rng.next_range(1, if case % 4 == 3 { 128 } else { 8 });
                            *p = if rng.next_u32() & 1 == 0 { mag } else { -mag } as i16;
                        }
                    }
                    let rate_level = rng.next_range(0, (N_RATE_LEVELS - 2) as i32) as usize;
                    assert_round_trip(
                        &pulses,
                        frame_length,
                        signal_type,
                        quant_offset_type,
                        rate_level,
                    );
                }
            }
        }
    }
}

#[test]
fn decode_pulses_round_trip_saturated_block() {
    for signal_type in 0..3i32 {
        for sign_flip in [false, true] {
            let pulses: Vec<i16> = (0..320)
                .map(|i| {
                    let mag = 128 - (i % 5) as i16;
                    if (i / 7) % 2 == 0 && !sign_flip {
                        mag
                    } else {
                        -mag
                    }
                })
                .collect();
            assert_round_trip(&pulses, 320, signal_type, 0, 4);
            assert_round_trip(&pulses, 160, signal_type, 1, 0);
        }
    }
}

#[test]
fn zero_pulse_blocks_are_memset() {
    let mut enc = RangeEncoder::new();
    enc.encode_icdf(0, &RATE_LEVELS_ICDF[0], 8);
    for _ in 0..20 {
        enc.encode_icdf(0, &PULSES_PER_BLOCK_ICDF[0], 8);
    }
    let enc_tell = enc.tell();
    let bytes = enc.done();

    let mut out = [1234i16; 320];
    let mut dec = RangeDecoder::new(&bytes);
    decode_pulses(&mut dec, &mut out, 0, 0, 320).unwrap();
    assert_eq!(dec.tell(), enc_tell);
    assert!(out.iter().all(|&q| q == 0));
}

#[test]
fn lsb_escape_then_zero_consumes_lsb_bits_but_no_signs() {
    let mut enc = RangeEncoder::new();
    enc.encode_icdf(0, &RATE_LEVELS_ICDF[0], 8);
    enc.encode_icdf(17, &PULSES_PER_BLOCK_ICDF[0], 8);
    enc.encode_icdf(0, &PULSES_PER_BLOCK_ICDF[9], 8);
    for _ in 0..16 {
        enc.encode_icdf(0, &LSB_ICDF, 8);
    }
    let enc_tell = enc.tell();
    let bytes = enc.done();

    let mut out = [77i16; 16];
    let mut dec = RangeDecoder::new(&bytes);
    decode_pulses(&mut dec, &mut out, 0, 0, 16).unwrap();
    assert_eq!(dec.tell(), enc_tell, "sign symbols must not be consumed");
    assert!(out.iter().all(|&q| q == 0));
}

#[test]
fn tenth_lsb_shift_reads_offset_table() {
    for final_count in [0u32, 1, 16] {
        let mut enc = RangeEncoder::new();
        enc.encode_icdf(3, &RATE_LEVELS_ICDF[0], 8);
        enc.encode_icdf(17, &PULSES_PER_BLOCK_ICDF[3], 8);
        for _ in 0..9 {
            enc.encode_icdf(17, &PULSES_PER_BLOCK_ICDF[9], 8);
        }

        enc.encode_icdf(final_count, &PULSES_PER_BLOCK_ICDF[9][1..], 8);

        if final_count > 0 {
            let mut pulses = vec![0i32; 16];
            for p in pulses.iter_mut().take(final_count as usize) {
                *p = 1;
            }
            shell_encoder(&mut enc, &pulses);
        }

        for _ in 0..16 {
            for _ in 0..10 {
                enc.encode_icdf(0, &LSB_ICDF, 8);
            }
        }

        if final_count > 0 {
            let icdf = [SIGN_ICDF[(final_count as usize & 0x1F).min(6)], 0];
            let n_signs = if final_count == 16 { 16 } else { 1 };
            for _ in 0..n_signs {
                enc.encode_icdf(1, &icdf, 8);
            }
        }
        let enc_tell = enc.tell();
        let bytes = enc.done();

        let mut out = vec![0i16; 16];
        let mut dec = RangeDecoder::new(&bytes);
        decode_pulses(&mut dec, &mut out, 0, 0, 16).unwrap();
        assert_eq!(dec.tell(), enc_tell);

        let total: i32 = out.iter().map(|&q| q.unsigned_abs() as i32).sum();
        assert_eq!(total, final_count as i32 * (1 << 10));
    }
}

#[test]
fn lsb_refinement_restores_magnitude_and_sign() {
    let mut pulses = vec![0i16; 16];
    for (i, p) in pulses.iter_mut().enumerate() {
        *p = if i % 2 == 0 { 3 } else { -3 };
    }
    assert_round_trip(&pulses, 16, 2, 0, 5);
}

fn dithered(pulses: &[i16], seed: i8, offset_q10: i32) -> Vec<i32> {
    let adjust = QUANT_LEVEL_ADJUST_Q10 << 4;
    let mut s = seed as u32;
    pulses
        .iter()
        .map(|&q| {
            s = s
                .wrapping_mul(RAND_MULTIPLIER as u32)
                .wrapping_add(RAND_INCREMENT as u32);
            let mut e = (q as i32) << 14;
            if q > 0 {
                e -= adjust;
            } else if q < 0 {
                e += adjust;
            }
            e += offset_q10 << 4;
            if s & 0x8000_0000 != 0 {
                e = -e;
            }
            s = s.wrapping_add(q as i32 as u32);
            e
        })
        .collect()
}

#[test]
fn reconstruct_excitation_hand_computed_vector() {
    let pulses = [1i16, -1, 0, 3];
    let mut exc = [0i32; 4];
    reconstruct_excitation(&mut exc, &pulses, 0, 2, 0);
    assert_eq!(exc, [15616, 14592, -512, 48384]);
}

#[test]
fn reconstruct_excitation_matches_rfc_lcg_formulation() {
    let mut rng = XorShift(0x0D17_ED01);
    let offsets: [[i16; 2]; 2] = [[100, 240], [32, 100]];
    for case in 0..40 {
        let len = 80 + (case % 5) * 60;
        let pulses: Vec<i16> = (0..len)
            .map(|_| {
                if rng.next_range(0, 2) == 0 {
                    0
                } else {
                    rng.next_range(-9, 9) as i16
                }
            })
            .collect();
        let seed = rng.next_range(0, 3) as i8;
        let signal_type = rng.next_range(0, 2) as i8;
        let quant_offset_type = rng.next_range(0, 1) as i8;
        let offset_q10 =
            offsets[(signal_type >> 1) as usize][quant_offset_type as usize] as i32;

        let mut exc = vec![0i32; len];
        reconstruct_excitation(&mut exc, &pulses, seed, signal_type, quant_offset_type);
        assert_eq!(exc, dithered(&pulses, seed, offset_q10));
    }
}

#[test]
fn reconstruct_excitation_dither_signs_follow_lcg() {
    let mut exc = [0i32; 4];
    reconstruct_excitation(&mut exc, &[0i16; 4], 0, 0, 1);
    let expect = |neg: bool| if neg { -(240 << 4) } else { 240 << 4 };
    assert_eq!(
        exc,
        [expect(false), expect(true), expect(true), expect(true)]
    );

    let mut a = [0i32; 1];
    let mut b = [0i32; 1];
    reconstruct_excitation(&mut a, &[0i16], 1, 0, 0);
    reconstruct_excitation(&mut b, &[0i16], 3, 0, 0);

    assert_eq!(a[0], 100 << 4);
    assert_eq!(b[0], 100 << 4);
}

#[test]
fn reconstruct_excitation_offset_and_adjust_by_type() {
    let cases = [
        (0i8, 0i8, 100i32),
        (0, 1, 240),
        (2, 0, 32),
        (2, 1, 100),
    ];
    for (st, qot, offset) in cases {
        let mut exc = [0i32; 3];
        reconstruct_excitation(&mut exc, &[0, 1, -1], 0, st, qot);

        assert_eq!(exc[0], offset << 4, "zero pulse: st={st} qot={qot}");
        assert_eq!(
            exc[1],
            -((1 << 14) - (QUANT_LEVEL_ADJUST_Q10 << 4) + (offset << 4))
        );
        assert_eq!(
            exc[2],
            -(1 << 14) + (QUANT_LEVEL_ADJUST_Q10 << 4) + (offset << 4)
        );
    }
}
