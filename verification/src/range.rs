//! The range decoder that all SILK symbols are read through.
//!
//! The decoder keeps an interval `[0, rng)` and an offset `val` in it. A
//! symbol is coded by an inverse cumulative table `icdf`: symbol `k` owns the
//! offsets from `r * icdf[k]` up to `r * icdf[k - 1]`, where `r` is the width
//! of one probability unit. Reading past the end of the data yields zero
//! bytes.
use crate::error::{CadenceError, Corruption, Result};
use crate::sigproc::lemma_clz;
use vstd::prelude::*;

verus! {

/// The interval is renormalized while it is no wider than this.
pub const RNG_FLOOR: u32 = 0x80_0000;

/// The state of a range decoder.
#[verifier::ext_equal]
pub struct RangeState {
    pub buf: Seq<u8>,
    /// Bytes read so far.
    pub offs: nat,
    /// The last byte read; its bottom bit has not been consumed.
    pub rem: u8,
    pub rng: u32,
    pub val: u32,
    /// Bits accounted for, modulo 2^32.
    pub nbits_total: u32,
}

impl RangeState {
    /// The next byte, zero past the end.
    pub open spec fn next_byte(self) -> u8 {
        if self.offs < self.buf.len() {
            self.buf[self.offs as int]
        } else {
            0
        }
    }

    pub open spec fn next_offs(self) -> nat {
        if self.offs < self.buf.len() {
            self.offs + 1
        } else {
            self.offs
        }
    }

    /// Widens the interval by one byte: the offset takes in the last bit of
    /// the byte read before and seven bits of the next one, complemented.
    pub open spec fn widened(self) -> RangeState {
        let bits = ((self.rem % 2) * 128 + self.next_byte() / 2) as int;
        RangeState {
            buf: self.buf,
            offs: self.next_offs(),
            rem: self.next_byte(),
            rng: (self.rng * 256) as u32,
            val: (self.val * 256 + (255 - bits)) as u32,
            nbits_total: self.nbits_total.wrapping_add(8),
        }
    }

    /// Widens until the interval is wider than the floor.
    pub open spec fn normalized(self) -> RangeState
        decreases 0x1_0000_0000 - self.rng,
    {
        if 0 < self.rng <= RNG_FLOOR {
            self.widened().normalized()
        } else {
            self
        }
    }

    /// Offset inside an interval of the width that decoding leaves.
    pub open spec fn wf(self) -> bool {
        &&& RNG_FLOOR < self.rng <= 0x8000_0000
        &&& self.val < self.rng
        &&& self.offs <= self.buf.len()
    }

    /// The state at the start of `data`.
    pub open spec fn start(data: Seq<u8>) -> RangeState {
        let b: u8 = if data.len() > 0 {
            data[0]
        } else {
            0
        };
        RangeState {
            buf: data,
            offs: if data.len() > 0 {
                1
            } else {
                0
            },
            rem: b,
            rng: 128,
            val: (127 - b / 2) as u32,
            nbits_total: 9,
        }.normalized()
    }

    /// Width of one unit of a table whose probabilities sum to 2^ftb.
    pub open spec fn unit(self, ftb: u32) -> int {
        (self.rng >> ftb) as int
    }
}

/// The first symbol from `k` on whose lower end is at or below `val`; the
/// table's length if there is none.
pub open spec fn first_symbol(val: int, r: int, icdf: Seq<u8>, k: int) -> int
    decreases icdf.len() - k,
{
    if k < 0 || k >= icdf.len() {
        icdf.len() as int
    } else if val >= r * icdf[k] {
        k
    } else {
        first_symbol(val, r, icdf, k + 1)
    }
}

/// The symbol coded at the current position.
#[verifier::opaque]
pub open spec fn icdf_symbol(st: RangeState, icdf: Seq<u8>, ftb: u32) -> int {
    first_symbol(st.val as int, st.unit(ftb), icdf, 0)
}

/// The state after the symbol: its own interval, renormalized. Without a
/// symbol the state stays.
#[verifier::opaque]
pub open spec fn icdf_next(st: RangeState, icdf: Seq<u8>, ftb: u32) -> RangeState {
    let k = icdf_symbol(st, icdf, ftb);
    if k >= icdf.len() {
        st
    } else {
        let low = st.unit(ftb) * icdf[k];
        let high = if k == 0 {
            st.rng as int
        } else {
            st.unit(ftb) * icdf[k - 1]
        };
        RangeState { rng: (high - low) as u32, val: (st.val - low) as u32, ..st }.normalized()
    }
}

/// A bit that is one with probability 2^-logp.
#[verifier::opaque]
pub open spec fn bit_value(st: RangeState, logp: u32) -> bool {
    st.val < st.rng >> logp
}

#[verifier::opaque]
pub open spec fn bit_next(st: RangeState, logp: u32) -> RangeState {
    let s = st.rng >> logp;
    (if bit_value(st, logp) {
        RangeState { rng: s, ..st }
    } else {
        RangeState { rng: (st.rng - s) as u32, val: (st.val - s) as u32, ..st }
    }).normalized()
}

/// A symbol is no larger than the index of any zero in its table.
pub proof fn lemma_first_symbol(val: int, r: int, icdf: Seq<u8>, k: int)
    requires
        0 <= k <= icdf.len(),
        val >= 0,
    ensures
        k <= first_symbol(val, r, icdf, k) <= icdf.len(),
        forall|n: int| k <= n < icdf.len() && #[trigger] icdf[n] == 0 ==> first_symbol(val, r, icdf, k) <= n,
        forall|n: int| k <= n < first_symbol(val, r, icdf, k) ==> val < r * #[trigger] icdf[n],
    decreases icdf.len() - k,
{
    if k < icdf.len() {
        if icdf[k] == 0 {
            assert(r * icdf[k] == 0) by (nonlinear_arith)
                requires
                    icdf[k] == 0,
            ;
        }
        if val < r * icdf[k] {
            lemma_first_symbol(val, r, icdf, k + 1);
        }
    }
}

/// The bound on a symbol that a zero at index `n` gives.
pub proof fn lemma_symbol_bound(st: RangeState, icdf: Seq<u8>, ftb: u32, n: int)
    requires
        0 <= n < icdf.len(),
        icdf[n] == 0,
    ensures
        0 <= icdf_symbol(st, icdf, ftb) <= n,
{
    reveal(icdf_symbol);
    lemma_first_symbol(st.val as int, st.unit(ftb), icdf, 0);
}

/// Decoding a symbol keeps the state well formed.
pub proof fn lemma_icdf_next_wf(st: RangeState, icdf: Seq<u8>, ftb: u32)
    requires
        st.wf(),
        8 <= ftb < 32,
    ensures
        icdf_next(st, icdf, ftb).wf(),
        icdf_next(st, icdf, ftb).buf == st.buf,
{
    reveal(icdf_symbol);
    reveal(icdf_next);
    lemma_first_symbol(st.val as int, st.unit(ftb), icdf, 0);
    let k = icdf_symbol(st, icdf, ftb);
    if k < icdf.len() {
        lemma_unit_bound(st, ftb, icdf[k]);
        if k > 0 {
            lemma_unit_bound(st, ftb, icdf[k - 1]);
        }
        lemma_first_symbol_reached(st.val as int, st.unit(ftb), icdf, 0);
        let low = st.unit(ftb) * icdf[k];
        let high = if k == 0 {
            st.rng as int
        } else {
            st.unit(ftb) * icdf[k - 1]
        };
        lemma_normalized_wf(
            RangeState { rng: (high - low) as u32, val: (st.val - low) as u32, ..st },
        );
    }
}

proof fn lemma_first_symbol_reached(val: int, r: int, icdf: Seq<u8>, k: int)
    requires
        0 <= k <= icdf.len(),
    ensures
        ({
            let s = first_symbol(val, r, icdf, k);
            s < icdf.len() ==> val >= r * icdf[s]
        }),
    decreases icdf.len() - k,
{
    if k < icdf.len() && val < r * icdf[k] {
        lemma_first_symbol_reached(val, r, icdf, k + 1);
    }
}

/// No boundary of a table lies above the interval.
proof fn lemma_unit_bound(st: RangeState, ftb: u32, c: u8)
    requires
        8 <= ftb < 32,
    ensures
        0 <= st.unit(ftb) * c <= st.rng,
        0 <= st.unit(ftb) <= 0xff_ffff,
{
    let rng: u32 = st.rng;
    let u: u32 = rng >> ftb;
    assert(u <= rng >> 8u32) by (bit_vector)
        requires
            u == rng >> ftb,
            8 <= ftb < 32,
    ;
    let w: u32 = rng >> 8u32;
    assert(w == rng / 256) by (bit_vector)
        requires
            w == rng >> 8u32,
    ;
    assert(0 <= u * c <= rng) by (nonlinear_arith)
        requires
            0 <= u <= rng / 256,
            0 <= c <= 255,
    ;
}

/// Renormalizing keeps the offset inside the interval.
pub proof fn lemma_normalized_wf(st: RangeState)
    requires
        0 < st.rng <= 0x8000_0000,
        st.val < st.rng,
        st.offs <= st.buf.len(),
    ensures
        st.normalized().wf(),
        st.normalized().buf == st.buf,
    decreases 0x1_0000_0000 - st.rng,
{
    if st.rng <= RNG_FLOOR {
        lemma_normalized_wf(st.widened());
    }
}

/// Decoding a bit keeps the state well formed.
pub proof fn lemma_bit_next_wf(st: RangeState, logp: u32)
    requires
        st.wf(),
        1 <= logp <= 23,
    ensures
        bit_next(st, logp).wf(),
        bit_next(st, logp).buf == st.buf,
        0 < st.rng >> logp < st.rng,
{
    reveal(bit_value);
    reveal(bit_next);
    let rng: u32 = st.rng;
    assert(0 < rng >> logp < rng) by (bit_vector)
        requires
            1 <= logp <= 23,
            rng > 0x80_0000,
    ;
    let s = st.rng >> logp;
    if bit_value(st, logp) {
        lemma_normalized_wf(RangeState { rng: s, ..st });
    } else {
        lemma_normalized_wf(RangeState { rng: (st.rng - s) as u32, val: (st.val - s) as u32, ..st });
    }
}

/// A range decoder over a byte slice.
#[derive(Clone, Copy, Debug)]
pub struct RangeDecoder<'a> {
    buf: &'a [u8],
    offs: usize,
    rem: u8,
    rng: u32,
    val: u32,
    nbits_total: u32,
}

impl<'a> View for RangeDecoder<'a> {
    type V = RangeState;

    closed spec fn view(&self) -> RangeState {
        RangeState {
            buf: self.buf@,
            offs: self.offs as nat,
            rem: self.rem,
            rng: self.rng,
            val: self.val,
            nbits_total: self.nbits_total,
        }
    }
}

impl<'a> RangeDecoder<'a> {
    /// Starts decoding `data`.
    pub fn new(data: &'a [u8]) -> (dec: RangeDecoder<'a>)
        ensures
            dec@ == RangeState::start(data@),
            dec@.wf(),
    {
        let (b, offs): (u8, usize) = if data.len() > 0 {
            (data[0], 1)
        } else {
            (0, 0)
        };
        let mut dec: RangeDecoder<'a> = RangeDecoder {
            buf: data,
            offs,
            rem: b,
            rng: 128,
            val: 127 - (b / 2) as u32,
            nbits_total: 9,
        };
        dec.normalize();
        dec
    }

    fn normalize(&mut self)
        requires
            0 < old(self)@.rng <= 0x8000_0000,
            old(self)@.val < old(self)@.rng,
            old(self)@.offs <= old(self)@.buf.len(),
        ensures
            final(self)@ == old(self)@.normalized(),
            final(self)@.wf(),
    {
        while self.rng <= RNG_FLOOR
            invariant
                0 < self@.rng <= 0x8000_0000,
                self@.val < self@.rng,
                self@.offs <= self@.buf.len(),
                self@.normalized() == old(self)@.normalized(),
            decreases 0x1_0000_0000 - self.rng,
        {
            let ghost before = self@;
            let b: u8 = if self.offs < self.buf.len() {
                let b: u8 = self.buf[self.offs];
                self.offs = self.offs + 1;
                b
            } else {
                0
            };
            let bits: u32 = (self.rem % 2) as u32 * 128 + (b / 2) as u32;
            self.rem = b;
            self.rng = self.rng * 256;
            self.val = self.val * 256 + (255 - bits);
            self.nbits_total = self.nbits_total.wrapping_add(8);
            assert(self@ =~= before.widened());
        }
    }

    /// Decodes one symbol of an inverse cumulative table whose probabilities
    /// sum to 2^ftb. Fails only on a table that does not end in a zero.
    pub fn decode_icdf(&mut self, icdf: &[u8], ftb: u32) -> (r: Result<u32>)
        requires
            old(self)@.wf(),
            8 <= ftb < 32,
            icdf@.len() <= u32::MAX,
        ensures
            final(self)@.wf(),
            final(self)@ == icdf_next(old(self)@, icdf@, ftb),
            final(self)@.buf == old(self)@.buf,
            match r {
                Ok(k) => k == icdf_symbol(old(self)@, icdf@, ftb) && k < icdf@.len(),
                Err(e) => icdf_symbol(old(self)@, icdf@, ftb) == icdf@.len() && e
                    == CadenceError::CorruptData(Corruption::UnterminatedTable),
            },
            forall|n: int| 0 <= n < icdf@.len() && #[trigger] icdf@[n] == 0 ==> r is Ok && r->Ok_0 <= n,
    {
        let ghost st = self@;
        let unit: u32 = self.rng >> ftb;
        let mut high: u32 = self.rng;
        let mut k: usize = 0;
        proof {
            reveal(icdf_symbol);
            reveal(icdf_next);
            lemma_first_symbol(st.val as int, st.unit(ftb), icdf@, 0);
            lemma_icdf_next_wf(st, icdf@, ftb);
        }
        while k < icdf.len()
            invariant
                st.wf(),
                self@ == st,
                8 <= ftb < 32,
                unit == st.unit(ftb),
                k <= icdf@.len(),
                icdf@.len() <= u32::MAX,
                st.val < high,
                high <= st.rng,
                high == (if k == 0 {
                    st.rng as int
                } else {
                    unit * icdf@[k - 1]
                }),
                icdf_symbol(st, icdf@, ftb) == first_symbol(
                    st.val as int,
                    unit as int,
                    icdf@,
                    k as int,
                ),
                icdf_next(st, icdf@, ftb).wf(),
                icdf_next(st, icdf@, ftb).buf == st.buf,
                st == old(self)@,
                forall|n: int| 0 <= n < icdf@.len() && #[trigger] icdf@[n] == 0 ==> icdf_symbol(
                    st,
                    icdf@,
                    ftb,
                ) <= n,
            decreases icdf@.len() - k,
        {
            proof {
                lemma_unit_bound(st, ftb, icdf@[k as int]);
            }
            let low: u32 = unit * icdf[k] as u32;
            if self.val >= low {
                self.val = self.val - low;
                self.rng = high - low;
                proof {
                    reveal(icdf_next);
                    assert(self@ =~= (RangeState {
                        rng: (high - low) as u32,
                        val: (st.val - low) as u32,
                        ..st
                    }));
                }
                self.normalize();
                return Ok(k as u32);
            }
            high = low;
            k = k + 1;
        }
        proof {
            reveal(icdf_next);
            assert(icdf_symbol(st, icdf@, ftb) == icdf@.len());
        }
        Err(CadenceError::CorruptData(Corruption::UnterminatedTable))
    }

    /// Decodes a bit that is one with probability 2^-logp.
    pub fn decode_bit_logp(&mut self, logp: u32) -> (r: Result<bool>)
        requires
            old(self)@.wf(),
            1 <= logp <= 23,
        ensures
            r == Ok::<bool, CadenceError>(bit_value(old(self)@, logp)),
            final(self)@ == bit_next(old(self)@, logp),
            final(self)@.wf(),
            final(self)@.buf == old(self)@.buf,
    {
        let ghost st = self@;
        proof {
            lemma_bit_next_wf(st, logp);
            reveal(bit_value);
            reveal(bit_next);
        }
        let s: u32 = self.rng >> logp;
        let bit: bool = self.val < s;
        if bit {
            self.rng = s;
        } else {
            self.val = self.val - s;
            self.rng = self.rng - s;
        }
        proof {
            assert(self@ =~= (if bit {
                RangeState { rng: s, ..st }
            } else {
                RangeState { rng: (st.rng - s) as u32, val: (st.val - s) as u32, ..st }
            }));
        }
        self.normalize();
        Ok(bit)
    }

    /// Bits consumed so far, rounded up.
    pub fn tell(&self) -> (r: u32)
        requires
            self@.wf(),
        ensures
            r == self@.nbits_total.wrapping_sub((32 - self@.rng.leading_zeros()) as u32),
    {
        proof {
            lemma_clz(self.rng);
        }
        self.nbits_total.wrapping_sub(32 - self.rng.leading_zeros())
    }
}

/// A bit is a symbol of two: one has a share of 2^-logp, zero has the rest.
pub proof fn lemma_bit_is_a_symbol(st: RangeState, logp: u32)
    requires
        st.wf(),
        1 <= logp < 16,
    ensures
        ({
            let table = seq![1u8, 0u8];
            &&& bit_value(st, logp) == (icdf_symbol(st, table, logp) == 1)
            &&& bit_next(st, logp) == icdf_next(st, table, logp)
        }),
{
    reveal(bit_value);
    reveal(bit_next);
    reveal(icdf_symbol);
    reveal(icdf_next);
    reveal_with_fuel(first_symbol, 3);
    let table = seq![1u8, 0u8];
    let u = st.unit(logp);
    let rng = st.rng;
    assert(rng >> logp <= rng) by (bit_vector);
    assert(u * 1 == u && u * 0 == 0);
    assert(table[0] == 1 && table[1] == 0);
    if bit_value(st, logp) {
        assert(icdf_symbol(st, table, logp) == 1);
    } else {
        assert(icdf_symbol(st, table, logp) == 0);
    }
}

} // verus!
