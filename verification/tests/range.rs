//! Range decoding.
use cadence::error::{CadenceError, Corruption};
use cadence::range::RangeDecoder;

/// Range encoder, the counterpart of the decoder.
struct RangeEncoder {
    buf: Vec<u8>,
    rng: u32,
    val: u32,
    rem: i32,
    ext: u32,
    nbits_total: u32,
}

impl RangeEncoder {
    fn new() -> Self {
        RangeEncoder {
            buf: Vec::new(),
            rng: 0x8000_0000,
            val: 0,
            rem: -1,
            ext: 0,
            nbits_total: 33,
        }
    }

    fn carry_out(&mut self, c: u32) {
        if c != 0xff {
            let carry: u32 = c >> 8;
            if self.rem >= 0 {
                self.buf.push((self.rem as u32 + carry) as u8);
            }
            let sym: u8 = (0xff + carry) as u8;
            while self.ext > 0 {
                self.buf.push(sym);
                self.ext -= 1;
            }
            self.rem = (c & 0xff) as i32;
        } else {
            self.ext += 1;
        }
    }

    fn normalize(&mut self) {
        while self.rng <= 0x80_0000 {
            self.carry_out(self.val >> 23);
            self.val = (self.val << 8) & 0x7fff_ffff;
            self.rng <<= 8;
            self.nbits_total += 8;
        }
    }

    fn encode_icdf(&mut self, symbol: u32, icdf: &[u8], ftb: u32) {
        let s: usize = symbol as usize;
        let r: u32 = self.rng >> ftb;
        if s > 0 {
            self.val += self.rng - r * icdf[s - 1] as u32;
            self.rng = r * (icdf[s - 1] as u32 - icdf[s] as u32);
        } else {
            self.rng -= r * icdf[s] as u32;
        }
        self.normalize();
    }

    fn encode_bit_logp(&mut self, bit: bool, logp: u32) {
        let s: u32 = self.rng >> logp;
        let r: u32 = self.rng - s;
        if bit {
            self.val += r;
            self.rng = s;
        } else {
            self.rng = r;
        }
        self.normalize();
    }

    fn tell(&self) -> u32 {
        self.nbits_total - (32 - self.rng.leading_zeros())
    }

    fn done(mut self) -> Vec<u8> {
        let mut l: i32 = self.rng.leading_zeros() as i32;
        let mut mask: u32 = 0x7fff_ffff >> l;
        let mut end: u32 = (self.val + mask) & !mask;
        if (end | mask) >= self.val + self.rng {
            l += 1;
            mask >>= 1;
            end = (self.val + mask) & !mask;
        }
        while l > 0 {
            self.carry_out(end >> 23);
            end = (end << 8) & 0x7fff_ffff;
            l -= 8;
        }
        if self.rem >= 0 || self.ext > 0 {
            self.carry_out(0);
        }
        self.buf
    }
}

#[test]
fn symbols_and_bits_come_back() {
    let table = [200u8, 120, 40, 7, 0];
    let symbols: Vec<u32> = (0..300u32).map(|i| (i * 7 + i / 5) % 5).collect();
    let mut enc = RangeEncoder::new();
    for (i, &s) in symbols.iter().enumerate() {
        enc.encode_icdf(s, &table, 8);
        enc.encode_bit_logp(i % 3 == 0, 1 + (i % 15) as u32);
    }
    let tell = enc.tell();
    let bytes = enc.done();
    let mut dec = RangeDecoder::new(&bytes);
    for (i, &s) in symbols.iter().enumerate() {
        assert_eq!(dec.decode_icdf(&table, 8), Ok(s), "symbol {i}");
        assert_eq!(dec.decode_bit_logp(1 + (i % 15) as u32), Ok(i % 3 == 0), "bit {i}");
    }
    assert_eq!(dec.tell(), tell);
}

#[test]
fn reading_past_the_end_gives_zeros() {
    let mut dec = RangeDecoder::new(&[]);
    for _ in 0..100 {
        assert!(dec.decode_icdf(&[128, 0], 8).is_ok());
    }
    assert!(dec.tell() > 90);
}

#[test]
fn table_without_a_zero_is_refused() {
    let mut enc = RangeEncoder::new();
    enc.encode_icdf(1, &[200, 0], 8);
    let bytes = enc.done();
    let mut dec = RangeDecoder::new(&bytes);
    let before = dec.tell();
    assert_eq!(
        dec.decode_icdf(&[255, 250], 8),
        Err(CadenceError::CorruptData(Corruption::UnterminatedTable))
    );
    assert_eq!(dec.tell(), before);
}
