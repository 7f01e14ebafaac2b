//! What a payload spells is what is decoded from it.
//!
//! A payload is read symbol by symbol, each with a table of its own. Here the
//! symbols of a frame's indices and pulses are listed in the order in which
//! they are coded, and a range decoder that holds these symbols is shown to
//! give the indices and pulses back.
use crate::decode_indices::{
    after_symbol, cb1_table, common_stage, contour_stage, contour_table_spec,
    decode_indices_spec, gain_stage, interp_stage, lag_fails, lag_stage, low_bits_spec,
    ltp_stage, ltp_table_spec, next_symbol, nlsf_stage, residual_stage, type_stage,
    unpack_ec_spec, vector_stage, voiced_stage, CondCoding, EcPrevState, IndicesView,
    ParamsView, SideState, TYPE_VOICED,
};
use crate::excitation::{
    block_counts, decode_pulses_spec, escape_row, escaped_count, lemma_total_concat, lsb_pass,
    lsb_value, shell_blocks, shell_blocks_spec, shell_table, shell_tree, sign_pass, sign_row,
    split_row, total,
};
use crate::range::RangeState;
use crate::synthesis::valid_fs;
use crate::tables::{
    NlsfCbView, DELTA_GAIN_ICDF, GAIN_ICDF, LSB_ICDF, LTPSCALE_ICDF, LTP_PER_INDEX_ICDF,
    NLSF_EXT_ICDF, NLSF_INTERPOLATION_FACTOR_ICDF, PITCH_DELTA_ICDF, PITCH_LAG_ICDF,
    PULSES_PER_BLOCK_ICDF, RATE_LEVELS_ICDF, TYPE_OFFSET_NO_VAD_ICDF, TYPE_OFFSET_VAD_ICDF, UNIFORM4_ICDF, UNIFORM8_ICDF,
};
use vstd::prelude::*;

verus! {

/// A symbol and the table that it is coded with.
pub struct Word {
    pub icdf: Seq<u8>,
    pub symbol: int,
}

/// Whether a range decoder holds some symbols next.
pub open spec fn spells(st: RangeState, words: Seq<Word>) -> bool
    decreases words.len(),
{
    words.len() == 0 || (next_symbol(st, words[0].icdf) == words[0].symbol && spells(
        after_symbol(st, words[0].icdf),
        words.subrange(1, words.len() as int),
    ))
}

/// The range decoder behind some symbols.
pub open spec fn behind(st: RangeState, words: Seq<Word>) -> RangeState
    decreases words.len(),
{
    if words.len() == 0 {
        st
    } else {
        behind(after_symbol(st, words[0].icdf), words.subrange(1, words.len() as int))
    }
}

/// Words in front of words.
pub proof fn lemma_concat(st: RangeState, a: Seq<Word>, b: Seq<Word>)
    ensures
        spells(st, a + b) == (spells(st, a) && spells(behind(st, a), b)),
        behind(st, a + b) == behind(behind(st, a), b),
    decreases a.len(),
{
    if a.len() == 0 {
        assert(a + b =~= b);
    } else {
        let rest = a.subrange(1, a.len() as int);
        assert((a + b).subrange(1, (a + b).len() as int) =~= rest + b);
        assert((a + b)[0] == a[0]);
        lemma_concat(after_symbol(st, a[0].icdf), rest, b);
    }
}

/// A single word.
pub open spec fn one(icdf: Seq<u8>, symbol: int) -> Seq<Word> {
    seq![Word { icdf, symbol }]
}

pub proof fn lemma_one(st: RangeState, icdf: Seq<u8>, symbol: int)
    ensures
        spells(st, one(icdf, symbol)) == (next_symbol(st, icdf) == symbol),
        behind(st, one(icdf, symbol)) == after_symbol(st, icdf),
{
    let w = one(icdf, symbol);
    assert(w.subrange(1, 1) =~= Seq::<Word>::empty());
    reveal_with_fuel(spells, 2);
    reveal_with_fuel(behind, 2);
}

/// Two words.
proof fn lemma_two(st: RangeState, t0: Seq<u8>, s0: int, t1: Seq<u8>, s1: int)
    ensures
        spells(st, one(t0, s0) + one(t1, s1)) == (next_symbol(st, t0) == s0 && next_symbol(
            after_symbol(st, t0),
            t1,
        ) == s1),
        behind(st, one(t0, s0) + one(t1, s1)) == after_symbol(after_symbol(st, t0), t1),
{
    lemma_concat(st, one(t0, s0), one(t1, s1));
    lemma_one(st, t0, s0);
    lemma_one(after_symbol(st, t0), t1, s1);
}

// ---------------------------------------------------------------------
// The words of a frame's indices
// ---------------------------------------------------------------------

pub open spec fn type_words(ix: IndicesView, p: ParamsView) -> Seq<Word> {
    let x = 2 * ix.signal_type + ix.quant_offset_type;
    if p.decode_lbrr || p.vad_flag {
        one(TYPE_OFFSET_VAD_ICDF@, x - 2)
    } else {
        one(TYPE_OFFSET_NO_VAD_ICDF@, x)
    }
}

pub open spec fn gain_words(ix: IndicesView, p: ParamsView, n: int) -> Seq<Word>
    decreases n,
{
    if n <= 0 {
        Seq::empty()
    } else if n == 1 && !p.conditional() {
        one(GAIN_ICDF@[ix.signal_type as int]@, ix.gains_indices[0] as int / 8) + one(
            UNIFORM8_ICDF@,
            ix.gains_indices[0] as int % 8,
        )
    } else {
        gain_words(ix, p, n - 1) + one(DELTA_GAIN_ICDF@, ix.gains_indices[n - 1] as int)
    }
}

pub open spec fn vector_words(ix: IndicesView, cb: NlsfCbView) -> Seq<Word> {
    one(cb1_table(cb, ix.signal_type as int), ix.nlsf_indices[0] as int)
}

/// A residual; the largest ones are extended by a second symbol.
pub open spec fn residual_word(value: int, table: Seq<u8>) -> Seq<Word> {
    if value <= -4 {
        one(table, 0) + one(NLSF_EXT_ICDF@, -4 - value)
    } else if value >= 4 {
        one(table, 8) + one(NLSF_EXT_ICDF@, value - 4)
    } else {
        one(table, value + 4)
    }
}

pub open spec fn residual_words(ix: IndicesView, cb: NlsfCbView, n: int) -> Seq<Word>
    decreases n,
{
    if n <= 0 {
        Seq::empty()
    } else {
        residual_words(ix, cb, n - 1) + residual_word(
            ix.nlsf_indices[n] as int,
            cb.ec_icdf.subrange(unpack_ec_spec(cb, ix.nlsf_indices[0] as int, n - 1), 72),
        )
    }
}

pub open spec fn interp_words(ix: IndicesView, p: ParamsView) -> Seq<Word> {
    if p.nb_subfr == 4 {
        one(NLSF_INTERPOLATION_FACTOR_ICDF@, ix.nlsf_interp_coef_q2 as int)
    } else {
        Seq::empty()
    }
}

/// What every frame codes in front of the voiced part.
pub open spec fn common_words(ix: IndicesView, p: ParamsView) -> Seq<Word> {
    type_words(ix, p) + (gain_words(ix, p, p.nb_subfr as int) + (vector_words(ix, p.nlsf_cb) + (
    residual_words(ix, p.nlsf_cb, p.nlsf_cb.order) + interp_words(ix, p))))
}

/// Whether the lag may be coded as a difference to the last one.
pub open spec fn may_differ(p: ParamsView, ec: EcPrevState) -> bool {
    p.conditional() && ec.ec_prev_signal_type == TYPE_VOICED
}

/// The lag on its own.
pub open spec fn lag_alone(ix: IndicesView, p: ParamsView) -> Seq<Word> {
    let half = p.fs_khz as int / 2;
    one(PITCH_LAG_ICDF@, ix.lag_index as int / half) + one(
        low_bits_spec(p.fs_khz as int),
        ix.lag_index as int % half,
    )
}

/// The lag, as a difference if `delta` says so.
pub open spec fn lag_words(ix: IndicesView, p: ParamsView, ec: EcPrevState, delta: bool) -> Seq<Word> {
    if !may_differ(p, ec) {
        lag_alone(ix, p)
    } else if delta {
        one(PITCH_DELTA_ICDF@, ix.lag_index - ec.ec_prev_lag_index + 9)
    } else {
        one(PITCH_DELTA_ICDF@, 0) + lag_alone(ix, p)
    }
}

pub open spec fn contour_words(ix: IndicesView, p: ParamsView) -> Seq<Word> {
    one(contour_table_spec(p.fs_khz as int, p.nb_subfr as int), ix.contour_index as int) + one(
        LTP_PER_INDEX_ICDF@,
        ix.per_index as int,
    )
}

pub open spec fn ltp_words(ix: IndicesView, n: int) -> Seq<Word>
    decreases n,
{
    if n <= 0 {
        Seq::empty()
    } else {
        ltp_words(ix, n - 1) + one(ltp_table_spec(ix.per_index as int), ix.ltp_index[n - 1] as int)
    }
}

pub open spec fn scale_words(ix: IndicesView, p: ParamsView) -> Seq<Word> {
    if p.cond_coding == CondCoding::Independently {
        one(LTPSCALE_ICDF@, ix.ltp_scale_index as int)
    } else {
        Seq::empty()
    }
}

/// What only voiced frames code.
pub open spec fn voiced_words(ix: IndicesView, p: ParamsView, ec: EcPrevState, delta: bool) -> Seq<Word> {
    if ix.signal_type == TYPE_VOICED {
        lag_words(ix, p, ec, delta) + (contour_words(ix, p) + (ltp_words(ix, p.nb_subfr as int)
            + scale_words(ix, p)))
    } else {
        Seq::empty()
    }
}

/// The words of a frame's indices, in their order.
pub open spec fn frame_words(ix: IndicesView, p: ParamsView, ec: EcPrevState, delta: bool) -> Seq<Word> {
    common_words(ix, p) + (voiced_words(ix, p, ec, delta) + one(UNIFORM4_ICDF@, ix.seed as int))
}

/// Indices that can be coded.
pub open spec fn codable(ix: IndicesView, p: ParamsView, ec: EcPrevState, delta: bool) -> bool {
    &&& ix.shaped()
    &&& 0 <= ix.quant_offset_type <= 1
    &&& valid_fs(p.fs_khz as int)
    &&& ix.signal_type == TYPE_VOICED && may_differ(p, ec) && delta ==> ix.lag_index
        - ec.ec_prev_lag_index + 9 > 0
}

/// Old indices with those that a frame codes in their place.
pub open spec fn replaced(old_ix: IndicesView, ix: IndicesView, p: ParamsView) -> IndicesView {
    let voiced = ix.signal_type == TYPE_VOICED;
    IndicesView {
        signal_type: ix.signal_type,
        quant_offset_type: ix.quant_offset_type,
        gains_indices: merged(old_ix.gains_indices, ix.gains_indices, p.nb_subfr as int),
        nlsf_indices: merged(old_ix.nlsf_indices, ix.nlsf_indices, p.nlsf_cb.order + 1),
        nlsf_interp_coef_q2: if p.nb_subfr == 4 {
            ix.nlsf_interp_coef_q2
        } else {
            4
        },
        lag_index: if voiced {
            ix.lag_index
        } else {
            old_ix.lag_index
        },
        contour_index: if voiced {
            ix.contour_index
        } else {
            old_ix.contour_index
        },
        per_index: if voiced {
            ix.per_index
        } else {
            old_ix.per_index
        },
        ltp_index: if voiced {
            merged(old_ix.ltp_index, ix.ltp_index, p.nb_subfr as int)
        } else {
            old_ix.ltp_index
        },
        ltp_scale_index: if !voiced {
            old_ix.ltp_scale_index
        } else if p.cond_coding == CondCoding::Independently {
            ix.ltp_scale_index
        } else {
            0
        },
        seed: ix.seed,
    }
}

/// The first `n` of `b`, then the rest of `a`.
pub open spec fn merged(a: Seq<i8>, b: Seq<i8>, n: int) -> Seq<i8> {
    Seq::new(
        a.len(),
        |i: int|
            if i < n {
                b[i]
            } else {
                a[i]
            },
    )
}

// ---------------------------------------------------------------------
// Reading them back
// ---------------------------------------------------------------------

proof fn lemma_type(s: SideState, ix: IndicesView, p: ParamsView)
    requires
        spells(s.st, type_words(ix, p)),
        0 <= ix.quant_offset_type <= 1,
    ensures
        type_stage(s, p) == (SideState {
            st: behind(s.st, type_words(ix, p)),
            ix: IndicesView {
                signal_type: ix.signal_type,
                quant_offset_type: ix.quant_offset_type,
                ..s.ix
            },
            ..s
        }),
{
    let x = 2 * ix.signal_type + ix.quant_offset_type;
    lemma_one(s.st, TYPE_OFFSET_VAD_ICDF@, x - 2);
    lemma_one(s.st, TYPE_OFFSET_NO_VAD_ICDF@, x);
    assert(x / 2 == ix.signal_type && x % 2 == ix.quant_offset_type);
}

proof fn lemma_gains(s: SideState, ix: IndicesView, p: ParamsView, n: int)
    requires
        spells(s.st, gain_words(ix, p, n)),
        s.ix.signal_type == ix.signal_type,
        s.ix.gains_indices.len() == 4,
        0 <= n <= 4,
    ensures
        gain_stage(s, p, n) == (SideState {
            st: behind(s.st, gain_words(ix, p, n)),
            ix: IndicesView {
                gains_indices: merged(s.ix.gains_indices, ix.gains_indices, n),
                ..s.ix
            },
            ..s
        }),
    decreases n,
{
    let want = merged(s.ix.gains_indices, ix.gains_indices, n);
    if n <= 0 {
        assert(want =~= s.ix.gains_indices);
    } else if n == 1 && !p.conditional() {
        let g = ix.gains_indices[0] as int;
        lemma_two(s.st, GAIN_ICDF@[ix.signal_type as int]@, g / 8, UNIFORM8_ICDF@, g % 8);
        assert(8 * (g / 8) + g % 8 == g);
        assert(want =~= s.ix.gains_indices.update(0, g as i8));
    } else {
        let a = gain_words(ix, p, n - 1);
        let g = ix.gains_indices[n - 1] as int;
        lemma_concat(s.st, a, one(DELTA_GAIN_ICDF@, g));
        lemma_gains(s, ix, p, n - 1);
        lemma_one(behind(s.st, a), DELTA_GAIN_ICDF@, g);
        assert(want =~= merged(s.ix.gains_indices, ix.gains_indices, n - 1).update(n - 1, g as i8));
    }
}

proof fn lemma_vector(s: SideState, ix: IndicesView, cb: NlsfCbView)
    requires
        spells(s.st, vector_words(ix, cb)),
        s.ix.signal_type == ix.signal_type,
        s.ix.nlsf_indices.len() == 17,
    ensures
        vector_stage(s, cb) == (SideState {
            st: behind(s.st, vector_words(ix, cb)),
            ix: IndicesView {
                nlsf_indices: merged(s.ix.nlsf_indices, ix.nlsf_indices, 1),
                ..s.ix
            },
            ..s
        }),
{
    let v = ix.nlsf_indices[0];
    lemma_one(s.st, cb1_table(cb, ix.signal_type as int), v as int);
    assert(merged(s.ix.nlsf_indices, ix.nlsf_indices, 1) =~= s.ix.nlsf_indices.update(0, v));
}

proof fn lemma_residuals(s: SideState, ix: IndicesView, cb: NlsfCbView, n: int)
    requires
        spells(s.st, residual_words(ix, cb, n)),
        s.ix.nlsf_indices.len() == 17,
        s.ix.nlsf_indices[0] == ix.nlsf_indices[0],
        0 <= n <= 16,
    ensures
        residual_stage(s, cb, ix.nlsf_indices[0] as int, n) == (SideState {
            st: behind(s.st, residual_words(ix, cb, n)),
            ix: IndicesView {
                nlsf_indices: merged(s.ix.nlsf_indices, ix.nlsf_indices, n + 1),
                ..s.ix
            },
            ..s
        }),
    decreases n,
{
    let want = merged(s.ix.nlsf_indices, ix.nlsf_indices, n + 1);
    if n <= 0 {
        assert(want =~= s.ix.nlsf_indices);
    } else {
        let v = ix.nlsf_indices[0] as int;
        let a = residual_words(ix, cb, n - 1);
        let r = ix.nlsf_indices[n] as int;
        let table = cb.ec_icdf.subrange(unpack_ec_spec(cb, v, n - 1), 72);
        lemma_concat(s.st, a, residual_word(r, table));
        lemma_residuals(s, ix, cb, n - 1);
        let st = behind(s.st, a);
        lemma_two(st, table, 0, NLSF_EXT_ICDF@, -4 - r);
        lemma_two(st, table, 8, NLSF_EXT_ICDF@, r - 4);
        lemma_one(st, table, r + 4);
        assert(want =~= merged(s.ix.nlsf_indices, ix.nlsf_indices, n).update(n, r as i8));
    }
}

proof fn lemma_interp(s: SideState, ix: IndicesView, p: ParamsView)
    requires
        spells(s.st, interp_words(ix, p)),
    ensures
        interp_stage(s, p) == (SideState {
            st: behind(s.st, interp_words(ix, p)),
            ix: IndicesView {
                nlsf_interp_coef_q2: if p.nb_subfr == 4 {
                    ix.nlsf_interp_coef_q2
                } else {
                    4
                },
                ..s.ix
            },
            ..s
        }),
{
    lemma_one(s.st, NLSF_INTERPOLATION_FACTOR_ICDF@, ix.nlsf_interp_coef_q2 as int);
}

/// Old indices with those that every frame codes.
spec fn common_replaced(old_ix: IndicesView, ix: IndicesView, p: ParamsView) -> IndicesView {
    IndicesView {
        signal_type: ix.signal_type,
        quant_offset_type: ix.quant_offset_type,
        gains_indices: merged(old_ix.gains_indices, ix.gains_indices, p.nb_subfr as int),
        nlsf_indices: merged(old_ix.nlsf_indices, ix.nlsf_indices, p.nlsf_cb.order + 1),
        nlsf_interp_coef_q2: if p.nb_subfr == 4 {
            ix.nlsf_interp_coef_q2
        } else {
            4
        },
        ..old_ix
    }
}

proof fn lemma_common(s: SideState, ix: IndicesView, p: ParamsView)
    requires
        spells(s.st, common_words(ix, p)),
        s.ix.shaped(),
        0 <= ix.quant_offset_type <= 1,
        0 <= p.nb_subfr <= 4,
        0 <= p.nlsf_cb.order <= 16,
    ensures
        common_stage(s, p) == (SideState {
            st: behind(s.st, common_words(ix, p)),
            ix: common_replaced(s.ix, ix, p),
            ..s
        }),
{
    let cb = p.nlsf_cb;
    let w0 = type_words(ix, p);
    let w1 = gain_words(ix, p, p.nb_subfr as int);
    let w2 = vector_words(ix, cb);
    let w3 = residual_words(ix, cb, cb.order);
    let w4 = interp_words(ix, p);
    lemma_concat(s.st, w0, w1 + (w2 + (w3 + w4)));
    lemma_type(s, ix, p);
    let s0 = type_stage(s, p);
    lemma_concat(s0.st, w1, w2 + (w3 + w4));
    lemma_gains(s0, ix, p, p.nb_subfr as int);
    let s1 = gain_stage(s0, p, p.nb_subfr as int);
    lemma_concat(s1.st, w2, w3 + w4);
    lemma_vector(s1, ix, cb);
    let s2 = vector_stage(s1, cb);
    assert(s2.ix.nlsf_indices[0] == ix.nlsf_indices[0]);
    lemma_concat(s2.st, w3, w4);
    lemma_residuals(s2, ix, cb, cb.order);
    let s3 = nlsf_stage(s1, cb);
    assert(merged(s2.ix.nlsf_indices, ix.nlsf_indices, cb.order + 1) =~= merged(
        s.ix.nlsf_indices,
        ix.nlsf_indices,
        cb.order + 1,
    ));
    lemma_interp(s3, ix, p);
}

proof fn lemma_lag(s: SideState, ix: IndicesView, p: ParamsView, delta: bool)
    requires
        spells(s.st, lag_words(ix, p, s.ec, delta)),
        valid_fs(p.fs_khz as int),
        may_differ(p, s.ec) && delta ==> ix.lag_index - s.ec.ec_prev_lag_index + 9 > 0,
    ensures
        lag_stage(s, p) == (SideState {
            st: behind(s.st, lag_words(ix, p, s.ec, delta)),
            ix: IndicesView { lag_index: ix.lag_index, ..s.ix },
            ec: EcPrevState { ec_prev_lag_index: ix.lag_index, ..s.ec },
        }),
{
    let half = p.fs_khz as int / 2;
    let lag = ix.lag_index as int;
    let low = low_bits_spec(p.fs_khz as int);
    let d = lag - s.ec.ec_prev_lag_index + 9;
    vstd::arithmetic::div_mod::lemma_fundamental_div_mod(lag, half);
    assert(lag / half * half + lag % half == lag) by (nonlinear_arith)
        requires
            lag == half * (lag / half) + lag % half,
    ;
    lemma_one(s.st, PITCH_DELTA_ICDF@, d);
    lemma_one(s.st, PITCH_DELTA_ICDF@, 0);
    lemma_concat(s.st, one(PITCH_DELTA_ICDF@, 0), lag_alone(ix, p));
    lemma_two(s.st, PITCH_LAG_ICDF@, lag / half, low, lag % half);
    lemma_two(
        after_symbol(s.st, PITCH_DELTA_ICDF@),
        PITCH_LAG_ICDF@,
        lag / half,
        low,
        lag % half,
    );
}

proof fn lemma_ltp(s: SideState, ix: IndicesView, n: int)
    requires
        spells(s.st, ltp_words(ix, n)),
        s.ix.per_index == ix.per_index,
        s.ix.ltp_index.len() == 4,
        0 <= n <= 4,
    ensures
        ltp_stage(s, n) == (SideState {
            st: behind(s.st, ltp_words(ix, n)),
            ix: IndicesView { ltp_index: merged(s.ix.ltp_index, ix.ltp_index, n), ..s.ix },
            ..s
        }),
    decreases n,
{
    let want = merged(s.ix.ltp_index, ix.ltp_index, n);
    if n <= 0 {
        assert(want =~= s.ix.ltp_index);
    } else {
        let a = ltp_words(ix, n - 1);
        let table = ltp_table_spec(ix.per_index as int);
        let v = ix.ltp_index[n - 1];
        lemma_concat(s.st, a, one(table, v as int));
        lemma_ltp(s, ix, n - 1);
        lemma_one(behind(s.st, a), table, v as int);
        assert(want =~= merged(s.ix.ltp_index, ix.ltp_index, n - 1).update(n - 1, v));
    }
}

proof fn lemma_voiced(s: SideState, ix: IndicesView, p: ParamsView, delta: bool)
    requires
        ix.signal_type == TYPE_VOICED,
        spells(s.st, voiced_words(ix, p, s.ec, delta)),
        s.ix.ltp_index.len() == 4,
        valid_fs(p.fs_khz as int),
        0 <= p.nb_subfr <= 4,
        may_differ(p, s.ec) && delta ==> ix.lag_index - s.ec.ec_prev_lag_index + 9 > 0,
    ensures
        voiced_stage(s, p) == (SideState {
            st: behind(s.st, voiced_words(ix, p, s.ec, delta)),
            ix: IndicesView {
                lag_index: ix.lag_index,
                contour_index: ix.contour_index,
                per_index: ix.per_index,
                ltp_index: merged(s.ix.ltp_index, ix.ltp_index, p.nb_subfr as int),
                ltp_scale_index: if p.cond_coding == CondCoding::Independently {
                    ix.ltp_scale_index
                } else {
                    0
                },
                ..s.ix
            },
            ec: EcPrevState { ec_prev_lag_index: ix.lag_index, ..s.ec },
        }),
{
    let nb = p.nb_subfr as int;
    let w0 = lag_words(ix, p, s.ec, delta);
    let w1 = contour_words(ix, p);
    let w2 = ltp_words(ix, nb);
    let w3 = scale_words(ix, p);
    lemma_concat(s.st, w0, w1 + (w2 + w3));
    lemma_lag(s, ix, p, delta);
    let s0 = lag_stage(s, p);
    lemma_concat(s0.st, w1, w2 + w3);
    lemma_two(
        s0.st,
        contour_table_spec(p.fs_khz as int, nb),
        ix.contour_index as int,
        LTP_PER_INDEX_ICDF@,
        ix.per_index as int,
    );
    let s1 = contour_stage(s0, p);
    lemma_concat(s1.st, w2, w3);
    lemma_ltp(s1, ix, nb);
    let s2 = ltp_stage(s1, nb);
    lemma_one(s2.st, LTPSCALE_ICDF@, ix.ltp_scale_index as int);
}

/// A payload that spells the indices of a frame in their order is decoded to
/// these indices. What the frame does not code stays as it was, but for the
/// interpolation of a short frame, which is 4, and the scale of a voiced frame
/// that is not coded independently, which is 0. The payload is read up to the
/// end of what it spells.
pub proof fn lemma_indices_come_back(s: SideState, ix: IndicesView, p: ParamsView, delta: bool)
    requires
        codable(ix, p, s.ec, delta),
        s.ix.shaped(),
        p.wf(),
        spells(s.st, frame_words(ix, p, s.ec, delta)),
    ensures
        !lag_fails(s, p),
        decode_indices_spec(s, p) == (SideState {
            st: behind(s.st, frame_words(ix, p, s.ec, delta)),
            ix: replaced(s.ix, ix, p),
            ec: EcPrevState {
                ec_prev_signal_type: ix.signal_type,
                ec_prev_lag_index: if ix.signal_type == TYPE_VOICED {
                    ix.lag_index
                } else {
                    s.ec.ec_prev_lag_index
                },
            },
        }),
{
    reveal(decode_indices_spec);
    reveal(lag_fails);
    let w0 = common_words(ix, p);
    let w1 = voiced_words(ix, p, s.ec, delta);
    let w2 = one(UNIFORM4_ICDF@, ix.seed as int);
    lemma_concat(s.st, w0, w1 + w2);
    lemma_common(s, ix, p);
    let c = common_stage(s, p);
    lemma_concat(c.st, w1, w2);
    if ix.signal_type == TYPE_VOICED {
        lemma_voiced(c, ix, p, delta);
    }
    lemma_one(behind(c.st, w1), UNIFORM4_ICDF@, ix.seed as int);
}

// ---------------------------------------------------------------------
// The words of a frame's pulses
// ---------------------------------------------------------------------

/// A magnitude without its last `n` bits.
pub open spec fn halved(m: int, n: int) -> int
    decreases n,
{
    if n <= 0 {
        m
    } else {
        halved(m / 2, n - 1)
    }
}

pub open spec fn magnitude(q: int) -> int {
    if q < 0 {
        -q
    } else {
        q
    }
}

/// The amplitudes that the shells hold: magnitudes without the bits that are
/// coded on their own, as many as `shifts` says for each block of 16.
pub open spec fn amplitudes(q: Seq<int>, shifts: Seq<int>) -> Seq<int> {
    Seq::new(q.len(), |i: int| halved(magnitude(q[i]), shifts[i / 16]))
}

/// Sums of the first `n` blocks.
pub open spec fn block_sums(a: Seq<int>, n: int) -> Seq<int> {
    Seq::new(n as nat, |b: int| total(a.subrange(16 * b, 16 * b + 16)))
}

/// A count behind `m` escapes, of `shift` in all.
pub open spec fn escaped_words(m: int, shift: int, sum: int) -> Seq<Word>
    decreases shift - m,
{
    if m >= shift {
        one(escape_row(m), sum)
    } else {
        one(escape_row(m), 17) + escaped_words(m + 1, shift, sum)
    }
}

pub open spec fn count_word(rate: int, shift: int, sum: int) -> Seq<Word> {
    if shift <= 0 {
        one(PULSES_PER_BLOCK_ICDF@[rate]@, sum)
    } else {
        one(PULSES_PER_BLOCK_ICDF@[rate]@, 17) + escaped_words(1, shift, sum)
    }
}

/// The counts of the first `n` blocks.
pub open spec fn count_words(rate: int, shifts: Seq<int>, sums: Seq<int>, n: int) -> Seq<Word>
    decreases n,
{
    if n <= 0 {
        Seq::empty()
    } else {
        count_words(rate, shifts, sums, n - 1) + count_word(rate, shifts[n - 1], sums[n - 1])
    }
}

/// How many leaves a tree of `level` levels has.
pub open spec fn leaves(level: int) -> int
    decreases level,
{
    if level <= 0 {
        1
    } else {
        2 * leaves(level - 1)
    }
}

/// The splits of a tree: a node's own, then those of its first half, then
/// those of its second. Nothing is split into nothing without a word.
pub open spec fn tree_words(a: Seq<int>, level: int) -> Seq<Word>
    decreases level,
{
    if level <= 0 {
        Seq::empty()
    } else {
        let h = leaves(level - 1);
        let left = a.subrange(0, h);
        let right = a.subrange(h, 2 * h);
        let split = if total(a) > 0 {
            one(split_row(shell_table(level - 1), total(a)), total(left))
        } else {
            Seq::empty()
        };
        split + (tree_words(left, level - 1) + tree_words(right, level - 1))
    }
}

/// The shells of the first `n` blocks.
pub open spec fn shell_words(a: Seq<int>, n: int) -> Seq<Word>
    decreases n,
{
    if n <= 0 {
        Seq::empty()
    } else {
        let block = a.subrange(16 * (n - 1), 16 * n);
        shell_words(a, n - 1) + if total(block) > 0 {
            tree_words(block, 4)
        } else {
            Seq::empty()
        }
    }
}

/// The last `n` bits of a magnitude, the highest first.
pub open spec fn bit_words(m: int, n: int) -> Seq<Word>
    decreases n,
{
    if n <= 0 {
        Seq::empty()
    } else {
        bit_words(m / 2, n - 1) + one(LSB_ICDF@, m % 2)
    }
}

/// The bits of the first `k` samples that are coded on their own.
pub open spec fn lsb_words(q: Seq<int>, shifts: Seq<int>, k: int) -> Seq<Word>
    decreases k,
{
    if k <= 0 {
        Seq::empty()
    } else {
        lsb_words(q, shifts, k - 1) + bit_words(magnitude(q[k - 1]), shifts[(k - 1) / 16])
    }
}

/// The signs of the first `k` samples that are not zero.
pub open spec fn sign_words(q: Seq<int>, sums: Seq<int>, signal_type: int, offset: int, k: int) -> Seq<Word>
    decreases k,
{
    if k <= 0 {
        Seq::empty()
    } else {
        let row = sign_row(signal_type, offset, sums[(k - 1) / 16]);
        sign_words(q, sums, signal_type, offset, k - 1) + if q[k - 1] > 0 {
            one(row, 1)
        } else if q[k - 1] < 0 {
            one(row, 0)
        } else {
            Seq::empty()
        }
    }
}

/// The words of a frame's pulses, in their order: rate level, counts, shells,
/// low bits, signs. There are `n` blocks.
pub open spec fn pulse_words(
    q: Seq<int>,
    shifts: Seq<int>,
    rate: int,
    signal_type: int,
    offset: int,
    n: int,
) -> Seq<Word> {
    let a = amplitudes(q, shifts);
    let sums = block_sums(a, n);
    one(RATE_LEVELS_ICDF@[signal_type / 2]@, rate) + (count_words(rate, shifts, sums, n) + (
    shell_words(a, n) + (lsb_words(q, shifts, 16 * n) + sign_words(
        q,
        sums,
        signal_type,
        offset,
        16 * n,
    ))))
}

proof fn lemma_halved(m: int, n: int)
    requires
        m >= 0,
    ensures
        0 <= halved(m, n) <= m,
    decreases n,
{
    if n > 0 {
        lemma_halved(m / 2, n - 1);
    }
}

proof fn lemma_escaped(st: RangeState, m: int, shift: int, sum: int)
    requires
        1 <= m <= shift <= 10,
        0 <= sum <= 16,
        spells(st, escaped_words(m, shift, sum)),
    ensures
        escaped_count(st, m) == (sum, shift, behind(st, escaped_words(m, shift, sum))),
    decreases shift - m,
{
    if m >= shift {
        lemma_one(st, escape_row(m), sum);
    } else {
        let rest = escaped_words(m + 1, shift, sum);
        lemma_concat(st, one(escape_row(m), 17), rest);
        lemma_one(st, escape_row(m), 17);
        lemma_escaped(after_symbol(st, escape_row(m)), m + 1, shift, sum);
    }
}

proof fn lemma_counts(st: RangeState, rate: int, shifts: Seq<int>, sums: Seq<int>, n: int)
    requires
        0 <= n <= sums.len(),
        shifts.len() == sums.len(),
        forall|b: int| 0 <= b < n ==> 0 <= #[trigger] shifts[b] <= 10,
        forall|b: int| 0 <= b < n ==> 0 <= #[trigger] sums[b] <= 16,
        spells(st, count_words(rate, shifts, sums, n)),
    ensures
        block_counts(st, rate, n) == (
            sums.subrange(0, n),
            shifts.subrange(0, n),
            behind(st, count_words(rate, shifts, sums, n)),
        ),
    decreases n,
{
    if n > 0 {
        let a = count_words(rate, shifts, sums, n - 1);
        let (h, s) = (shifts[n - 1], sums[n - 1]);
        lemma_concat(st, a, count_word(rate, h, s));
        lemma_counts(st, rate, shifts, sums, n - 1);
        let st1 = behind(st, a);
        let row = PULSES_PER_BLOCK_ICDF@[rate]@;
        if h <= 0 {
            lemma_one(st1, row, s);
        } else {
            lemma_concat(st1, one(row, 17), escaped_words(1, h, s));
            lemma_one(st1, row, 17);
            lemma_escaped(after_symbol(st1, row), 1, h, s);
        }
        assert(sums.subrange(0, n) =~= sums.subrange(0, n - 1).push(s));
        assert(shifts.subrange(0, n) =~= shifts.subrange(0, n - 1).push(h));
    } else {
        assert(sums.subrange(0, 0) =~= Seq::<int>::empty());
        assert(shifts.subrange(0, 0) =~= Seq::<int>::empty());
    }
}

/// Amplitudes whose sum is zero are zero.
proof fn lemma_total_zero(a: Seq<int>)
    requires
        forall|i: int| 0 <= i < a.len() ==> 0 <= #[trigger] a[i],
    ensures
        0 <= total(a),
        total(a) == 0 ==> forall|i: int| 0 <= i < a.len() ==> #[trigger] a[i] == 0,
    decreases a.len(),
{
    if a.len() > 0 {
        lemma_total_zero(a.drop_last());
        assert(a.last() >= 0);
        if total(a) == 0 {
            assert forall|i: int| 0 <= i < a.len() implies #[trigger] a[i] == 0 by {
                if i < a.len() - 1 {
                    assert(a.drop_last()[i] == a[i]);
                }
            }
        }
    }
}

proof fn lemma_tree(st: RangeState, a: Seq<int>, level: int)
    requires
        level >= 0,
        a.len() == leaves(level),
        forall|i: int| 0 <= i < a.len() ==> 0 <= #[trigger] a[i],
        spells(st, tree_words(a, level)),
    ensures
        shell_tree(st, level, total(a)) == (a, behind(st, tree_words(a, level))),
    decreases level,
{
    if level <= 0 {
        assert(a =~= seq![a[0]]);
        assert(a.drop_last() =~= Seq::<int>::empty());
        assert(total(a) == a[0]) by {
            reveal_with_fuel(total, 2);
        }
    } else {
        let h = leaves(level - 1);
        let left = a.subrange(0, h);
        let right = a.subrange(h, 2 * h);
        assert(a =~= left + right);
        lemma_total_concat(left, right);
        lemma_total_zero(left);
        lemma_total_zero(right);
        let p = total(a);
        let row = split_row(shell_table(level - 1), p);
        let split = if p > 0 {
            one(row, total(left))
        } else {
            Seq::empty()
        };
        let wl = tree_words(left, level - 1);
        let wr = tree_words(right, level - 1);
        lemma_concat(st, split, wl + wr);
        lemma_one(st, row, total(left));
        let st0 = behind(st, split);
        lemma_concat(st0, wl, wr);
        lemma_tree(st0, left, level - 1);
        lemma_tree(behind(st0, wl), right, level - 1);
    }
}

proof fn lemma_shells(st: RangeState, a: Seq<int>, sums: Seq<int>, n: int)
    requires
        0 <= n <= sums.len(),
        16 * n <= a.len(),
        forall|i: int| 0 <= i < a.len() ==> 0 <= #[trigger] a[i],
        forall|b: int|
            0 <= b < n ==> #[trigger] sums[b] == total(a.subrange(16 * b, 16 * b + 16)),
        spells(st, shell_words(a, n)),
    ensures
        shell_blocks_spec(st, sums, n) == (
            a.subrange(0, 16 * n),
            behind(st, shell_words(a, n)),
        ),
    decreases n,
{
    if n > 0 {
        let block = a.subrange(16 * (n - 1), 16 * n);
        let w = if total(block) > 0 {
            tree_words(block, 4)
        } else {
            Seq::empty()
        };
        lemma_concat(st, shell_words(a, n - 1), w);
        lemma_shells(st, a, sums, n - 1);
        assert(sums[n - 1] == total(block));
        let st1 = behind(st, shell_words(a, n - 1));
        assert(leaves(4) == 16) by {
            reveal_with_fuel(leaves, 6);
        }
        lemma_total_zero(block);
        if total(block) > 0 {
            lemma_tree(st1, block, 4);
        } else {
            assert(block =~= Seq::new(16, |i: int| 0int));
        }
        assert(a.subrange(0, 16 * n) =~= a.subrange(0, 16 * (n - 1)) + block);
    } else {
        assert(a.subrange(0, 0) =~= Seq::<int>::empty());
    }
}

proof fn lemma_bits(st: RangeState, m: int, n: int)
    requires
        m >= 0,
        spells(st, bit_words(m, n)),
    ensures
        lsb_value(st, halved(m, n), n) == (m, behind(st, bit_words(m, n))),
    decreases n,
{
    if n > 0 {
        let a = bit_words(m / 2, n - 1);
        lemma_concat(st, a, one(LSB_ICDF@, m % 2));
        lemma_bits(st, m / 2, n - 1);
        lemma_one(behind(st, a), LSB_ICDF@, m % 2);
    }
}

/// Magnitudes of the first `k` samples, then amplitudes.
spec fn partly(q: Seq<int>, shifts: Seq<int>, k: int) -> Seq<int> {
    Seq::new(
        q.len(),
        |i: int|
            if i < k {
                magnitude(q[i])
            } else {
                halved(magnitude(q[i]), shifts[i / 16])
            },
    )
}

proof fn lemma_lsbs(st: RangeState, q: Seq<int>, shifts: Seq<int>, k: int)
    requires
        0 <= k <= q.len(),
        spells(st, lsb_words(q, shifts, k)),
    ensures
        lsb_pass(st, amplitudes(q, shifts), shifts, k) == (
            partly(q, shifts, k),
            behind(st, lsb_words(q, shifts, k)),
        ),
    decreases k,
{
    if k > 0 {
        let a = lsb_words(q, shifts, k - 1);
        let m = magnitude(q[k - 1]);
        let h = shifts[(k - 1) / 16];
        lemma_concat(st, a, bit_words(m, h));
        lemma_lsbs(st, q, shifts, k - 1);
        lemma_bits(behind(st, a), m, h);
        assert(partly(q, shifts, k) =~= partly(q, shifts, k - 1).update(k - 1, m));
    } else {
        assert(partly(q, shifts, 0) =~= amplitudes(q, shifts));
    }
}

/// Signed values of the first `k` samples, then magnitudes.
spec fn signed(q: Seq<int>, k: int) -> Seq<int> {
    Seq::new(
        q.len(),
        |i: int|
            if i < k {
                q[i]
            } else {
                magnitude(q[i])
            },
    )
}

proof fn lemma_signs(st: RangeState, q: Seq<int>, sums: Seq<int>, signal_type: int, offset: int, k: int)
    requires
        0 <= k <= q.len(),
        spells(st, sign_words(q, sums, signal_type, offset, k)),
    ensures
        sign_pass(st, signed(q, 0), sums, signal_type, offset, k) == (
            signed(q, k),
            behind(st, sign_words(q, sums, signal_type, offset, k)),
        ),
    decreases k,
{
    if k > 0 {
        let a = sign_words(q, sums, signal_type, offset, k - 1);
        let row = sign_row(signal_type, offset, sums[(k - 1) / 16]);
        let w = if q[k - 1] > 0 {
            one(row, 1)
        } else if q[k - 1] < 0 {
            one(row, 0)
        } else {
            Seq::empty()
        };
        lemma_concat(st, a, w);
        lemma_signs(st, q, sums, signal_type, offset, k - 1);
        let st1 = behind(st, a);
        lemma_one(st1, row, 1);
        lemma_one(st1, row, 0);
        let m = magnitude(q[k - 1]);
        let f = 2 * next_symbol(st1, row) - 1;
        assert((f == 1 ==> m * f == m) && (f == -1 ==> m * f == -m)) by (nonlinear_arith);
        assert(signed(q, k) =~= signed(q, k - 1).update(k - 1, q[k - 1]));
    }
}

/// Five runs of words.
pub proof fn lemma_five(st: RangeState, w0: Seq<Word>, w1: Seq<Word>, w2: Seq<Word>, w3: Seq<Word>, w4: Seq<Word>)
    requires
        spells(st, w0 + (w1 + (w2 + (w3 + w4)))),
    ensures
        ({
            let s0 = behind(st, w0);
            let s1 = behind(s0, w1);
            let s2 = behind(s1, w2);
            let s3 = behind(s2, w3);
            &&& spells(st, w0)
            &&& spells(s0, w1)
            &&& spells(s1, w2)
            &&& spells(s2, w3)
            &&& spells(s3, w4)
            &&& behind(st, w0 + (w1 + (w2 + (w3 + w4)))) == behind(s3, w4)
        }),
{
    lemma_concat(st, w0, w1 + (w2 + (w3 + w4)));
    let s0 = behind(st, w0);
    lemma_concat(s0, w1, w2 + (w3 + w4));
    let s1 = behind(s0, w1);
    lemma_concat(s1, w2, w3 + w4);
    lemma_concat(behind(s1, w2), w3, w4);
}

/// What the shells hold is not negative.
proof fn lemma_amplitudes(q: Seq<int>, shifts: Seq<int>, n: int)
    requires
        q.len() == 16 * n,
        n >= 0,
    ensures
        forall|i: int| 0 <= i < q.len() ==> 0 <= #[trigger] amplitudes(q, shifts)[i],
        forall|b: int| 0 <= b < n ==> 0 <= #[trigger] block_sums(amplitudes(q, shifts), n)[b],
{
    let a = amplitudes(q, shifts);
    assert forall|i: int| 0 <= i < a.len() implies 0 <= #[trigger] a[i] by {
        lemma_halved(magnitude(q[i]), shifts[i / 16]);
    }
    assert forall|b: int| 0 <= b < n implies 0 <= #[trigger] block_sums(a, n)[b] by {
        lemma_total_zero(a.subrange(16 * b, 16 * b + 16));
    }
}

/// A payload that spells the pulses of a frame in their order is decoded to
/// these pulses, magnitudes and signs, and is read up to the end of what it
/// spells. Each block of 16 pulses may be coded with up to ten low bits on
/// their own, as long as what is left of its magnitudes adds up to 16 at most.
pub proof fn lemma_pulses_come_back(
    st: RangeState,
    q: Seq<int>,
    shifts: Seq<int>,
    rate: int,
    signal_type: int,
    offset: int,
    frame_length: int,
)
    requires
        frame_length >= 0,
        q.len() == 16 * shell_blocks(frame_length),
        shifts.len() == shell_blocks(frame_length),
        forall|b: int| 0 <= b < shifts.len() ==> 0 <= #[trigger] shifts[b] <= 10,
        forall|b: int|
            0 <= b < shifts.len() ==> #[trigger] block_sums(
                amplitudes(q, shifts),
                shell_blocks(frame_length),
            )[b] <= 16,
        spells(
            st,
            pulse_words(q, shifts, rate, signal_type, offset, shell_blocks(frame_length)),
        ),
    ensures
        decode_pulses_spec(st, signal_type, offset, frame_length) == (
            q,
            behind(
                st,
                pulse_words(q, shifts, rate, signal_type, offset, shell_blocks(frame_length)),
            ),
        ),
{
    let n = shell_blocks(frame_length);
    let a = amplitudes(q, shifts);
    let sums = block_sums(a, n);
    lemma_amplitudes(q, shifts, n);
    let rates = RATE_LEVELS_ICDF@[signal_type / 2]@;
    let w0 = one(rates, rate);
    let w1 = count_words(rate, shifts, sums, n);
    let w2 = shell_words(a, n);
    let w3 = lsb_words(q, shifts, 16 * n);
    let w4 = sign_words(q, sums, signal_type, offset, 16 * n);
    lemma_five(st, w0, w1, w2, w3, w4);
    lemma_one(st, rates, rate);
    let s0 = behind(st, w0);
    let s1 = behind(s0, w1);
    let s2 = behind(s1, w2);
    let s3 = behind(s2, w3);
    assert(block_counts(s0, rate, n) == (sums, shifts, s1)) by {
        lemma_counts(s0, rate, shifts, sums, n);
        assert(sums.subrange(0, n) =~= sums);
        assert(shifts.subrange(0, n) =~= shifts);
    }
    assert(shell_blocks_spec(s1, sums, n) == (a, s2)) by {
        lemma_shells(s1, a, sums, n);
        assert(a.subrange(0, 16 * n) =~= a);
    }
    assert(lsb_pass(s2, a, shifts, 16 * n) == (signed(q, 0), s3)) by {
        lemma_lsbs(s2, q, shifts, 16 * n);
        assert(partly(q, shifts, 16 * n) =~= signed(q, 0));
    }
    lemma_signs(s3, q, sums, signal_type, offset, 16 * n);
    assert(signed(q, 16 * n) =~= q);
    reveal(decode_pulses_spec);
}

} // verus!
