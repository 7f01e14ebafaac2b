//! Every spelling has a payload.
//!
//! A payload is built from its end: from what the range decoder must hold
//! behind a symbol follows what it must hold in front of it.
use crate::decode_indices::{
    after_symbol, decode_indices_spec, lag_fails, next_symbol, EcPrevState, IndicesView, ParamsView,
    SideState,
};
use crate::excitation::{decode_pulses_spec, shell_blocks};
use crate::range::{first_symbol, icdf_next, icdf_symbol, RangeState, RNG_FLOOR};
use crate::spelling::{
    amplitudes, behind, block_sums, codable, frame_words, lemma_indices_come_back,
    lemma_pulses_come_back, pulse_words, replaced, spells, Word,
};
use vstd::prelude::*;

verus! {

/// What a range decoder must hold: its offset, the bit of the last byte that
/// is not consumed yet, and the bytes to come.
pub struct Holding {
    pub val: int,
    pub bit: int,
    pub rest: Seq<u8>,
}

/// Whether a range decoder with an interval of `rng` holds that.
pub open spec fn holds(st: RangeState, rng: int, h: Holding) -> bool {
    &&& st.rng == rng
    &&& st.val == h.val
    &&& st.rem as int % 2 == h.bit
    &&& st.offs <= st.buf.len()
    &&& st.buf.subrange(st.offs as int, st.buf.len() as int) == h.rest
}

/// Something that an interval of `rng` can hold.
pub open spec fn sound(h: Holding, rng: int) -> bool {
    0 <= h.val < rng && (h.bit == 0 || h.bit == 1)
}

/// An interval after renormalization.
pub open spec fn widened_rng(rng: int) -> int
    decreases 0x1_0000_0000 - rng,
{
    if 0 < rng <= RNG_FLOOR {
        widened_rng(rng * 256)
    } else {
        rng
    }
}

/// What an interval of `rng` must hold to hold `h` after renormalization: each
/// byte that is taken in stands in `h`.
pub open spec fn before_widening(rng: int, h: Holding) -> Holding
    decreases 0x1_0000_0000 - rng,
{
    if 0 < rng <= RNG_FLOOR {
        let g = before_widening(rng * 256, h);
        let bits = 255 - g.val % 256;
        Holding {
            val: g.val / 256,
            bit: bits / 128,
            rest: seq![(2 * (bits % 128) + g.bit) as u8] + g.rest,
        }
    } else {
        h
    }
}

proof fn lemma_widened_rng(rng: int)
    requires
        0 < rng <= 0x8000_0000,
    ensures
        RNG_FLOOR < widened_rng(rng) <= 0x8000_0000,
    decreases 0x1_0000_0000 - rng,
{
    if rng <= RNG_FLOOR {
        lemma_widened_rng(rng * 256);
    }
}

proof fn lemma_before_widening(rng: int, h: Holding)
    requires
        0 < rng <= 0x8000_0000,
        sound(h, widened_rng(rng)),
    ensures
        sound(before_widening(rng, h), rng),
    decreases 0x1_0000_0000 - rng,
{
    if rng <= RNG_FLOOR {
        lemma_before_widening(rng * 256, h);
    }
}

/// Renormalization takes in what stands in front of it.
proof fn lemma_widening(st: RangeState, rng: int, h: Holding)
    requires
        0 < rng <= 0x8000_0000,
        sound(h, widened_rng(rng)),
        holds(st, rng, before_widening(rng, h)),
    ensures
        holds(st.normalized(), widened_rng(rng), h),
    decreases 0x1_0000_0000 - rng,
{
    if rng <= RNG_FLOOR {
        let g = before_widening(rng * 256, h);
        let b = before_widening(rng, h);
        lemma_before_widening(rng * 256, h);
        let bits = 255 - g.val % 256;
        let byte = (2 * (bits % 128) + g.bit) as u8;
        let tail = st.buf.subrange(st.offs as int, st.buf.len() as int);
        assert(tail == b.rest);
        assert(tail.len() == 1 + g.rest.len());
        assert(tail[0] == byte);
        assert(st.offs < st.buf.len());
        assert(st.buf[st.offs as int] == tail[0]);
        assert(st.next_byte() == byte);
        assert(byte as int / 2 == bits % 128 && byte as int % 2 == g.bit);
        let w = st.widened();
        assert(w.val == g.val);
        assert(w.buf.subrange(w.offs as int, w.buf.len() as int) =~= g.rest) by {
            assert(tail.subrange(1, tail.len() as int) =~= g.rest);
        }
        lemma_widening(w, rng * 256, h);
    }
}

/// A symbol that its table leaves room for.
pub open spec fn possible(w: Word) -> bool {
    let k = w.symbol;
    &&& 0 <= k < w.icdf.len()
    &&& k > 0 ==> w.icdf[k] < w.icdf[k - 1]
    &&& forall|j: int| 0 <= j < k ==> w.icdf[k - 1] <= #[trigger] w.icdf[j]
}

/// The lower end of a symbol in an interval.
pub open spec fn lower(rng: int, w: Word) -> int {
    rng / 256 * w.icdf[w.symbol]
}

/// The width of a symbol in an interval.
pub open spec fn width(rng: int, w: Word) -> int {
    (if w.symbol == 0 {
        rng
    } else {
        rng / 256 * w.icdf[w.symbol - 1]
    }) - lower(rng, w)
}

/// What an interval must hold to spell some words.
pub open spec fn holding(rng: int, words: Seq<Word>) -> Holding
    decreases words.len(),
{
    if words.len() == 0 {
        Holding { val: 0, bit: 0, rest: Seq::empty() }
    } else {
        let d = width(rng, words[0]);
        let h = before_widening(
            d,
            holding(widened_rng(d), words.subrange(1, words.len() as int)),
        );
        Holding { val: lower(rng, words[0]) + h.val, ..h }
    }
}

proof fn lemma_width(rng: int, w: Word)
    requires
        RNG_FLOOR < rng <= 0x8000_0000,
        possible(w),
    ensures
        0 < width(rng, w) <= 0x8000_0000,
        0 <= lower(rng, w),
        lower(rng, w) + width(rng, w) <= rng,
{
    let r = rng / 256;
    let a = w.icdf[w.symbol] as int;
    let c = if w.symbol == 0 {
        256
    } else {
        w.icdf[w.symbol - 1] as int
    };
    assert(0 <= r * a && r * a < r * c && r * c <= r * 256) by (nonlinear_arith)
        requires
            r > 0,
            0 <= a < c <= 256,
    ;
}

/// The symbol at an offset inside its own part of the interval.
proof fn lemma_first(val: int, r: int, w: Word, j: int)
    requires
        possible(w),
        r > 0,
        0 <= j <= w.symbol,
        val >= r * w.icdf[w.symbol],
        w.symbol > 0 ==> val < r * w.icdf[w.symbol - 1],
    ensures
        first_symbol(val, r, w.icdf, j) == w.symbol,
    decreases w.symbol - j,
{
    if j < w.symbol {
        let a = w.icdf[j] as int;
        let c = w.icdf[w.symbol - 1] as int;
        assert(val < r * a) by (nonlinear_arith)
            requires
                val < r * c,
                c <= a,
                r > 0,
        ;
        lemma_first(val, r, w, j + 1);
    }
}

proof fn lemma_holding(rng: int, words: Seq<Word>)
    requires
        RNG_FLOOR < rng <= 0x8000_0000,
        forall|i: int| 0 <= i < words.len() ==> possible(#[trigger] words[i]),
    ensures
        sound(holding(rng, words), rng),
    decreases words.len(),
{
    if words.len() > 0 {
        let d = width(rng, words[0]);
        let rest = words.subrange(1, words.len() as int);
        assert forall|i: int| 0 <= i < rest.len() implies possible(#[trigger] rest[i]) by {
            assert(rest[i] == words[i + 1]);
        }
        lemma_width(rng, words[0]);
        lemma_widened_rng(d);
        lemma_holding(widened_rng(d), rest);
        lemma_before_widening(d, holding(widened_rng(d), rest));
    }
}

/// A range decoder that holds what some words ask for spells them.
proof fn lemma_holding_spells(st: RangeState, rng: int, words: Seq<Word>)
    requires
        RNG_FLOOR < rng <= 0x8000_0000,
        forall|i: int| 0 <= i < words.len() ==> possible(#[trigger] words[i]),
        holds(st, rng, holding(rng, words)),
    ensures
        spells(st, words),
    decreases words.len(),
{
    if words.len() > 0 {
        let w = words[0];
        let d = width(rng, w);
        let rest = words.subrange(1, words.len() as int);
        assert forall|i: int| 0 <= i < rest.len() implies possible(#[trigger] rest[i]) by {
            assert(rest[i] == words[i + 1]);
        }
        assert(possible(w));
        lemma_width(rng, w);
        lemma_widened_rng(d);
        lemma_holding(widened_rng(d), rest);
        let after = holding(widened_rng(d), rest);
        lemma_before_widening(d, after);
        let h = before_widening(d, after);
        let r: u32 = st.rng >> 8u32;
        let x: u32 = st.rng;
        assert(r == x / 256) by (bit_vector)
            requires
                r == x >> 8u32,
        ;
        lemma_first(st.val as int, st.unit(8), w, 0);
        reveal(icdf_symbol);
        reveal(icdf_next);
        assert(next_symbol(st, w.icdf) == w.symbol);
        let cut = RangeState {
            rng: d as u32,
            val: (st.val - lower(rng, w)) as u32,
            ..st
        };
        assert(holds(cut, d, h));
        lemma_widening(cut, d, after);
        assert(after_symbol(st, w.icdf) == cut.normalized());
        lemma_holding_spells(after_symbol(st, w.icdf), widened_rng(d), rest);
    }
}

/// The payload that spells some words.
pub open spec fn payload_of(words: Seq<Word>) -> Seq<u8> {
    let h = before_widening(128, holding(0x8000_0000, words));
    seq![(2 * (127 - h.val) + h.bit) as u8] + h.rest
}

/// Whatever symbols their tables leave room for, there is a payload that
/// spells them.
pub proof fn lemma_every_spelling_has_a_payload(words: Seq<Word>)
    requires
        forall|i: int| 0 <= i < words.len() ==> possible(#[trigger] words[i]),
    ensures
        spells(RangeState::start(payload_of(words)), words),
{
    let rng = 0x8000_0000int;
    assert(widened_rng(128) == rng) by {
        reveal_with_fuel(widened_rng, 4);
    }
    lemma_holding(rng, words);
    let target = holding(rng, words);
    lemma_before_widening(128, target);
    let h = before_widening(128, target);
    let data = payload_of(words);
    let b = data[0];
    assert(b as int / 2 == 127 - h.val && b as int % 2 == h.bit);
    let first = RangeState {
        buf: data,
        offs: 1,
        rem: b,
        rng: 128,
        val: (127 - b / 2) as u32,
        nbits_total: 9,
    };
    assert(data.subrange(1, data.len() as int) =~= h.rest);
    assert(holds(first, 128, h));
    lemma_widening(first, 128, target);
    assert(RangeState::start(data) == first.normalized());
    lemma_holding_spells(first.normalized(), rng, words);
}

/// The indices of a frame, coded and decoded, come back: from the payload of
/// their words, exactly the coded indices are read, and the rest stays.
pub proof fn lemma_indices_round_trip(
    old_ix: IndicesView,
    ec: EcPrevState,
    ix: IndicesView,
    p: ParamsView,
    delta: bool,
)
    requires
        old_ix.shaped(),
        p.wf(),
        codable(ix, p, ec, delta),
        forall|i: int|
            0 <= i < frame_words(ix, p, ec, delta).len() ==> possible(
                #[trigger] frame_words(ix, p, ec, delta)[i],
            ),
    ensures
        ({
            let words = frame_words(ix, p, ec, delta);
            let st = RangeState::start(payload_of(words));
            let s = SideState { st, ix: old_ix, ec };
            &&& !lag_fails(s, p)
            &&& decode_indices_spec(s, p).ix == replaced(old_ix, ix, p)
            &&& decode_indices_spec(s, p).st == behind(st, words)
        }),
{
    let words = frame_words(ix, p, ec, delta);
    let st = RangeState::start(payload_of(words));
    lemma_every_spelling_has_a_payload(words);
    lemma_indices_come_back(SideState { st, ix: old_ix, ec }, ix, p, delta);
}

/// The pulses of a frame, coded and decoded, come back, magnitudes and signs.
pub proof fn lemma_pulses_round_trip(
    q: Seq<int>,
    shifts: Seq<int>,
    rate: int,
    signal_type: int,
    offset: int,
    frame_length: int,
)
    requires
        frame_length >= 0,
        q.len() == 16 * shell_blocks(frame_length),
        shifts.len() == shell_blocks(frame_length),
        forall|b: int| 0 <= b < shifts.len() ==> 0 <= #[trigger] shifts[b] <= 10,
        forall|b: int|
            0 <= b < shifts.len() ==> #[trigger] block_sums(
                amplitudes(q, shifts),
                shell_blocks(frame_length),
            )[b] <= 16,
        ({
            let words = pulse_words(
                q,
                shifts,
                rate,
                signal_type,
                offset,
                shell_blocks(frame_length),
            );
            forall|i: int| 0 <= i < words.len() ==> possible(#[trigger] words[i])
        }),
    ensures
        ({
            let words = pulse_words(
                q,
                shifts,
                rate,
                signal_type,
                offset,
                shell_blocks(frame_length),
            );
            let st = RangeState::start(payload_of(words));
            decode_pulses_spec(st, signal_type, offset, frame_length) == (q, behind(st, words))
        }),
{
    let words = pulse_words(q, shifts, rate, signal_type, offset, shell_blocks(frame_length));
    let st = RangeState::start(payload_of(words));
    lemma_every_spelling_has_a_payload(words);
    lemma_pulses_come_back(st, q, shifts, rate, signal_type, offset, frame_length);
}

} // verus!
