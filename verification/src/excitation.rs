//! The quantized excitation: pulse counts, shell code, signs and the
//! reconstruction of the excitation signal.
use crate::error::Result;
use crate::range::{icdf_next, icdf_symbol, RangeDecoder, RangeState};
use crate::sigproc::{rand, rand_spec};
use crate::tables::{
    LSB_ICDF, PULSES_PER_BLOCK_ICDF, QUANTIZATION_OFFSETS_Q10, RATE_LEVELS_ICDF, SHELL_CODE_TABLE0,
    SHELL_CODE_TABLE1, SHELL_CODE_TABLE2, SHELL_CODE_TABLE3, SHELL_CODE_TABLE_OFFSETS, SIGN_ICDF,
};
use vstd::arithmetic::power2::{lemma2_to64, lemma_pow2_adds, lemma_pow2_pos, lemma_pow2_unfold, pow2};
use vstd::prelude::*;

verus! {

/// Samples per shell-coded block.
pub const SHELL_CODEC_FRAME_LENGTH: usize = 16;

pub const N_RATE_LEVELS: usize = 10;

/// Largest pulse count of a block; one more is the shift escape.
pub const SILK_MAX_PULSES: i32 = 16;

/// Pull of a nonzero excitation value toward zero in Q10.
pub const QUANT_LEVEL_ADJUST_Q10: i32 = 80;

/// Shifts after which the escape is no longer coded.
pub const MAX_LSB_SHIFTS: i32 = 10;

// ---------------------------------------------------------------------
// Shell code
// ---------------------------------------------------------------------

/// The table row for splitting `p` pulses.
pub open spec fn split_row(table: Seq<u8>, p: int) -> Seq<u8> {
    let o = SHELL_CODE_TABLE_OFFSETS@[p] as int;
    table.subrange(o, o + p + 1)
}

/// Pulses of the first child of a node with `p` pulses.
pub open spec fn split_first(st: RangeState, table: Seq<u8>, p: int) -> int {
    if p > 0 {
        icdf_symbol(st, split_row(table, p), 8)
    } else {
        0
    }
}

pub open spec fn split_next(st: RangeState, table: Seq<u8>, p: int) -> RangeState {
    if p > 0 {
        icdf_next(st, split_row(table, p), 8)
    } else {
        st
    }
}

/// The split table of a level of the tree; level 0 holds the leaves.
pub open spec fn shell_table(level: int) -> Seq<u8> {
    if level == 0 {
        SHELL_CODE_TABLE0@
    } else if level == 1 {
        SHELL_CODE_TABLE1@
    } else if level == 2 {
        SHELL_CODE_TABLE2@
    } else {
        SHELL_CODE_TABLE3@
    }
}

/// Pulses of the leaves below a node of `level` levels that holds `p`
/// pulses, and the decoder state behind them: the node is split, then its
/// first subtree is read, then its second.
pub open spec fn shell_tree(st: RangeState, level: int, p: int) -> (Seq<int>, RangeState)
    decreases level,
{
    if level <= 0 {
        (seq![p], st)
    } else {
        let table = shell_table(level - 1);
        let a = split_first(st, table, p);
        let (left, st1) = shell_tree(split_next(st, table, p), level - 1, a);
        let (right, st2) = shell_tree(st1, level - 1, p - a);
        (left + right, st2)
    }
}

/// The 16 pulse amplitudes of a block.
pub open spec fn shell_pulses_spec(st: RangeState, p: int) -> Seq<int> {
    shell_tree(st, 4, p).0
}

pub open spec fn shell_next_spec(st: RangeState, p: int) -> RangeState {
    shell_tree(st, 4, p).1
}

/// Sum of a sequence of amplitudes.
pub open spec fn total(s: Seq<int>) -> int
    decreases s.len(),
{
    if s.len() == 0 {
        0
    } else {
        total(s.drop_last()) + s.last()
    }
}

pub proof fn lemma_total_concat(a: Seq<int>, b: Seq<int>)
    ensures
        total(a + b) == total(a) + total(b),
    decreases b.len(),
{
    if b.len() == 0 {
        assert(a + b =~= a);
    } else {
        assert((a + b).drop_last() =~= a + b.drop_last());
        lemma_total_concat(a, b.drop_last());
    }
}

/// A row for splitting `p` pulses ends in a zero, so that no child gets more
/// pulses than its parent.
proof fn lemma_split_row(level: int, p: int)
    requires
        0 <= level <= 3,
        1 <= p <= 16,
    ensures
        split_row(shell_table(level), p).len() == p + 1,
        split_row(shell_table(level), p)[p] == 0,
        0 <= SHELL_CODE_TABLE_OFFSETS@[p] <= 135,
        SHELL_CODE_TABLE_OFFSETS@[p] + p + 1 <= 152,
{
    let t = shell_table(level);
    assert(t[SHELL_CODE_TABLE_OFFSETS@[p] + p] == 0);
}

/// Decoding a block gives as many leaves as the tree has, none negative, and
/// the amplitudes add up to the block's pulse count.
pub proof fn lemma_shell_tree(st: RangeState, level: int, p: int)
    requires
        0 <= level <= 4,
        0 <= p <= 16,
    ensures
        total(shell_tree(st, level, p).0) == p,
        shell_tree(st, level, p).0.len() == pow2(level as nat),
        forall|i: int|
            0 <= i < shell_tree(st, level, p).0.len() ==> 0 <= #[trigger] shell_tree(
                st,
                level,
                p,
            ).0[i] <= p,
    decreases level,
{
    lemma2_to64();
    if level == 0 {
        assert(total(seq![p]) == p) by {
            reveal_with_fuel(total, 2);
            assert(seq![p].drop_last() =~= Seq::<int>::empty());
        }
    } else {
        let table = shell_table(level - 1);
        let a = split_first(st, table, p);
        if p > 0 {
            lemma_split_row(level - 1, p);
            crate::range::lemma_symbol_bound(st, split_row(table, p), 8, p);
        }
        assert(0 <= a <= p);
        let st0 = split_next(st, table, p);
        lemma_shell_tree(st0, level - 1, a);
        let (left, st1) = shell_tree(st0, level - 1, a);
        lemma_shell_tree(st1, level - 1, p - a);
        let (right, st2) = shell_tree(st1, level - 1, p - a);
        lemma_total_concat(left, right);
        lemma_pow2_unfold(level as nat);
        assert forall|i: int| 0 <= i < (left + right).len() implies 0 <= #[trigger] (left + right)[i]
            <= p by {
            if i < left.len() {
                assert((left + right)[i] == left[i]);
            } else {
                assert((left + right)[i] == right[i - left.len()]);
            }
        }
    }
}

/// Splits `p` pulses between two children.
pub fn decode_split(dec: &mut RangeDecoder<'_>, level: usize, p: i16) -> (r: Result<(i16, i16)>)
    requires
        old(dec)@.wf(),
        level <= 3,
        0 <= p <= 16,
    ensures
        final(dec)@.wf(),
        final(dec)@ == split_next(old(dec)@, shell_table(level as int), p as int),
        r is Ok,
        r->Ok_0.0 == split_first(old(dec)@, shell_table(level as int), p as int),
        0 <= r->Ok_0.0 <= p,
        r->Ok_0.1 == p - r->Ok_0.0,
{
    if p > 0 {
        let o: usize = SHELL_CODE_TABLE_OFFSETS[p as usize] as usize;
        let n: usize = p as usize + 1;
        proof {
            lemma_split_row(level as int, p as int);
        }
        let row: &[u8] = if level == 0 {
            &SHELL_CODE_TABLE0[o..o + n]
        } else if level == 1 {
            &SHELL_CODE_TABLE1[o..o + n]
        } else if level == 2 {
            &SHELL_CODE_TABLE2[o..o + n]
        } else {
            &SHELL_CODE_TABLE3[o..o + n]
        };
        assert(row@ =~= split_row(shell_table(level as int), p as int));
        assert(row@[p as int] == 0);
        let child1: i16 = dec.decode_icdf(row, 8)? as i16;
        Ok((child1, p - child1))
    } else {
        Ok((0, 0))
    }
}

/// Reads the `size` leaves below a node of `p` pulses into `pulses0[at..]`.
fn decode_subtree(
    dec: &mut RangeDecoder<'_>,
    pulses0: &mut [i16],
    at: usize,
    level: usize,
    size: usize,
    p: i16,
) -> (r: Result<()>)
    requires
        old(dec)@.wf(),
        level <= 4,
        0 <= p <= 16,
        size == pow2(level as nat),
        at + size <= old(pulses0)@.len(),
    ensures
        final(dec)@.wf(),
        r is Ok,
        final(dec)@ == shell_tree(old(dec)@, level as int, p as int).1,
        final(pulses0)@.len() == old(pulses0)@.len(),
        forall|i: int|
            at <= i < at + size ==> #[trigger] final(pulses0)@[i] == shell_tree(
                old(dec)@,
                level as int,
                p as int,
            ).0[i - at],
        forall|i: int|
            0 <= i < old(pulses0)@.len() && !(at <= i < at + size)
                ==> #[trigger] final(pulses0)@[i] == old(pulses0)@[i],
    decreases level,
{
    proof {
        lemma2_to64();
        lemma_shell_tree(dec@, level as int, p as int);
    }
    if level == 0 {
        pulses0[at] = p;
    } else {
        let ghost st = dec@;
        let half: usize = size / 2;
        let len: usize = pulses0.len();
        proof {
            lemma_pow2_unfold(level as nat);
            assert(at + half <= len);
        }
        let (a, b) = decode_split(dec, level - 1, p)?;
        let ghost st0 = dec@;
        proof {
            lemma_shell_tree(st0, level - 1, a as int);
        }
        decode_subtree(dec, pulses0, at, level - 1, half, a)?;
        let ghost st1 = dec@;
        proof {
            lemma_shell_tree(st1, level - 1, b as int);
        }
        decode_subtree(dec, pulses0, at + half, level - 1, half, b)?;
        proof {
            let left = shell_tree(st0, level - 1, a as int).0;
            let right = shell_tree(st1, level - 1, b as int).0;
            assert(shell_tree(st, level as int, p as int).0 == left + right);
        }
    }
    Ok(())
}

/// Decodes the 16 amplitudes of a block that holds `pulses4` pulses.
pub fn shell_decoder(dec: &mut RangeDecoder<'_>, pulses0: &mut [i16], pulses4: i32) -> (r: Result<()>)
    requires
        old(dec)@.wf(),
        old(pulses0)@.len() >= 16,
        1 <= pulses4 <= 16,
    ensures
        r is Ok,
        final(dec)@.wf(),
        final(dec)@ == shell_next_spec(old(dec)@, pulses4 as int),
        final(pulses0)@.len() == old(pulses0)@.len(),
        forall|i: int|
            0 <= i < 16 ==> #[trigger] final(pulses0)@[i] == shell_pulses_spec(
                old(dec)@,
                pulses4 as int,
            )[i],
        forall|i: int|
            16 <= i < old(pulses0)@.len() ==> #[trigger] final(pulses0)@[i] == old(pulses0)@[i],
{
    proof {
        lemma2_to64();
    }
    decode_subtree(dec, pulses0, 0, 4, 16, pulses4 as i16)
}

// ---------------------------------------------------------------------
// Pulse counts
// ---------------------------------------------------------------------

/// Number of blocks of a frame.
pub open spec fn shell_blocks(frame_length: int) -> int {
    (frame_length + 15) / 16
}

/// The count table after `n` shifts: from the last shift on without escape.
pub open spec fn escape_row(n: int) -> Seq<u8> {
    if n == MAX_LSB_SHIFTS {
        PULSES_PER_BLOCK_ICDF@[9]@.subrange(1, 18)
    } else {
        PULSES_PER_BLOCK_ICDF@[9]@
    }
}

/// Count and shifts of a block whose escape number `n` was just read.
pub open spec fn escaped_count(st: RangeState, n: int) -> (int, int, RangeState)
    decreases MAX_LSB_SHIFTS - n,
{
    let s = icdf_symbol(st, escape_row(n), 8);
    let next = icdf_next(st, escape_row(n), 8);
    if s == SILK_MAX_PULSES + 1 && n < MAX_LSB_SHIFTS {
        escaped_count(next, n + 1)
    } else {
        (s, n, next)
    }
}

/// Pulse count and number of least significant bits of one block.
pub open spec fn block_count(st: RangeState, rate: int) -> (int, int, RangeState) {
    let row = PULSES_PER_BLOCK_ICDF@[rate]@;
    let s = icdf_symbol(st, row, 8);
    let next = icdf_next(st, row, 8);
    if s == SILK_MAX_PULSES + 1 {
        escaped_count(next, 1)
    } else {
        (s, 0, next)
    }
}

/// Counts and shifts of the first `n` blocks.
pub open spec fn block_counts(st: RangeState, rate: int, n: int) -> (Seq<int>, Seq<int>, RangeState)
    decreases n,
{
    if n <= 0 {
        (Seq::empty(), Seq::empty(), st)
    } else {
        let (sums, shifts, st1) = block_counts(st, rate, n - 1);
        let (s, h, st2) = block_count(st1, rate);
        (sums.push(s), shifts.push(h), st2)
    }
}

/// Amplitudes of the first `n` blocks.
pub open spec fn shell_blocks_spec(st: RangeState, sums: Seq<int>, n: int) -> (Seq<int>, RangeState)
    decreases n,
{
    if n <= 0 {
        (Seq::empty(), st)
    } else {
        let (q, st1) = shell_blocks_spec(st, sums, n - 1);
        if sums[n - 1] > 0 {
            (q + shell_pulses_spec(st1, sums[n - 1]), shell_next_spec(st1, sums[n - 1]))
        } else {
            (q + Seq::new(16, |i: int| 0int), st1)
        }
    }
}

/// An amplitude with `n` least significant bits appended.
pub open spec fn lsb_value(st: RangeState, q: int, n: int) -> (int, RangeState)
    decreases n,
{
    if n <= 0 {
        (q, st)
    } else {
        let (v, st1) = lsb_value(st, q, n - 1);
        (2 * v + icdf_symbol(st1, LSB_ICDF@, 8), icdf_next(st1, LSB_ICDF@, 8))
    }
}

/// Appends the least significant bits of the first `k` samples.
pub open spec fn lsb_pass(st: RangeState, q: Seq<int>, shifts: Seq<int>, k: int) -> (Seq<int>, RangeState)
    decreases k,
{
    if k <= 0 {
        (q, st)
    } else {
        let (q1, st1) = lsb_pass(st, q, shifts, k - 1);
        let (v, st2) = lsb_value(st1, q1[k - 1], shifts[(k - 1) / 16]);
        (q1.update(k - 1, v), st2)
    }
}

/// The sign table of a block: rare signs first.
pub open spec fn sign_row(signal_type: int, quant_offset_type: int, sum: int) -> Seq<u8> {
    let m = if sum < 6 {
        sum
    } else {
        6
    };
    seq![SIGN_ICDF@[7 * (quant_offset_type + 2 * signal_type) + m], 0u8]
}

/// Attaches the signs of the first `k` samples: one for every nonzero
/// amplitude.
pub open spec fn sign_pass(
    st: RangeState,
    q: Seq<int>,
    sums: Seq<int>,
    signal_type: int,
    quant_offset_type: int,
    k: int,
) -> (Seq<int>, RangeState)
    decreases k,
{
    if k <= 0 {
        (q, st)
    } else {
        let (q1, st1) = sign_pass(st, q, sums, signal_type, quant_offset_type, k - 1);
        if q1[k - 1] > 0 {
            let row = sign_row(signal_type, quant_offset_type, sums[(k - 1) / 16]);
            (
                q1.update(k - 1, q1[k - 1] * (2 * icdf_symbol(st1, row, 8) - 1)),
                icdf_next(st1, row, 8),
            )
        } else {
            (q1, st1)
        }
    }
}

/// The signed quantization indices of a frame, padded to whole blocks, and
/// the decoder state behind them.
#[verifier::opaque]
pub open spec fn decode_pulses_spec(
    st: RangeState,
    signal_type: int,
    quant_offset_type: int,
    frame_length: int,
) -> (Seq<int>, RangeState) {
    let n = shell_blocks(frame_length);
    let rates = RATE_LEVELS_ICDF@[signal_type / 2]@;
    let rate = icdf_symbol(st, rates, 8);
    let (sums, shifts, st1) = block_counts(icdf_next(st, rates, 8), rate, n);
    let (shell, st2) = shell_blocks_spec(st1, sums, n);
    let (magnitudes, st3) = lsb_pass(st2, shell, shifts, 16 * n);
    sign_pass(st3, magnitudes, sums, signal_type, quant_offset_type, 16 * n)
}

/// Reads the count of one block.
fn decode_block_count(dec: &mut RangeDecoder<'_>, rate: usize) -> (r: Result<(i32, i32)>)
    requires
        old(dec)@.wf(),
        rate < 9,
    ensures
        r is Ok,
        final(dec)@.wf(),
        block_count(old(dec)@, rate as int) == (r->Ok_0.0 as int, r->Ok_0.1 as int, final(dec)@),
        0 <= r->Ok_0.0 <= 16,
        0 <= r->Ok_0.1 <= 10,
{
    let ghost st = dec@;
    let mut n: i32 = 0;
    assert(PULSES_PER_BLOCK_ICDF@[rate as int]@[17] == 0);
    let mut s: i32 = dec.decode_icdf(&PULSES_PER_BLOCK_ICDF[rate], 8)? as i32;
    while s == SILK_MAX_PULSES + 1
        invariant
            dec@.wf(),
            0 <= n <= 10,
            0 <= s <= 17,
            n == 10 ==> s <= 16,
            s == 17 ==> block_count(st, rate as int) == escaped_count(dec@, n + 1),
            s != 17 ==> block_count(st, rate as int) == (s as int, n as int, dec@),
        decreases MAX_LSB_SHIFTS - n,
    {
        n = n + 1;
        assert(PULSES_PER_BLOCK_ICDF@[9]@[17] == 0);
        if n == MAX_LSB_SHIFTS {
            let row: &[u8] = &PULSES_PER_BLOCK_ICDF[9][1..18];
            assert(row@ =~= escape_row(n as int));
            assert(row@[16] == 0);
            s = dec.decode_icdf(row, 8)? as i32;
        } else {
            s = dec.decode_icdf(&PULSES_PER_BLOCK_ICDF[9], 8)? as i32;
        }
    }
    Ok((s, n))
}

proof fn lemma_block_counts_len(st: RangeState, rate: int, n: int)
    requires
        n >= 0,
    ensures
        block_counts(st, rate, n).0.len() == n,
        block_counts(st, rate, n).1.len() == n,
    decreases n,
{
    if n > 0 {
        lemma_block_counts_len(st, rate, n - 1);
    }
}

/// Appends `n` least significant bits to an amplitude.
fn decode_lsbs(dec: &mut RangeDecoder<'_>, q: i16, n: i32) -> (r: Result<i16>)
    requires
        old(dec)@.wf(),
        0 <= q <= 16,
        0 <= n <= 10,
    ensures
        r is Ok,
        final(dec)@.wf(),
        lsb_value(old(dec)@, q as int, n as int) == (r->Ok_0 as int, final(dec)@),
        0 <= r->Ok_0 <= 17407,
{
    let ghost st = dec@;
    let mut v: i32 = q as i32;
    let mut j: i32 = 0;
    proof {
        lemma2_to64();
    }
    while j < n
        invariant
            dec@.wf(),
            0 <= j <= n <= 10,
            0 <= v,
            v + 1 <= 17 * pow2(j as nat),
            v <= 17407,
            lsb_value(st, q as int, j as int) == (v as int, dec@),
        decreases n - j,
    {
        assert(LSB_ICDF@[1] == 0);
        let b: i32 = dec.decode_icdf(&LSB_ICDF, 8)? as i32;
        proof {
            lemma_pow2_unfold((j + 1) as nat);
            lemma_pow2_adds((j + 1) as nat, (9 - j) as nat);
            lemma2_to64();
            lemma_pow2_pos((9 - j) as nat);
            assert(pow2((j + 1) as nat) <= 1024) by (nonlinear_arith)
                requires
                    pow2((j + 1) as nat) * pow2((9 - j) as nat) == 1024,
                    pow2((9 - j) as nat) >= 1,
                    pow2((j + 1) as nat) >= 0,
            ;
        }
        v = 2 * v + b;
        j = j + 1;
    }
    Ok(v as i16)
}

/// Attaches a sign to every nonzero amplitude. A block's sign probability
/// depends on its pulse count.
fn decode_signs(
    dec: &mut RangeDecoder<'_>,
    pulses: &mut [i16],
    length: usize,
    signal_type: i32,
    quant_offset_type: i32,
    sum_pulses: &[i32; 20],
) -> (r: Result<()>)
    requires
        old(dec)@.wf(),
        0 <= signal_type <= 2,
        0 <= quant_offset_type <= 1,
        length % 16 == 0,
        length <= 320,
        length <= old(pulses)@.len(),
        forall|i: int| 0 <= i < 20 ==> 0 <= #[trigger] sum_pulses@[i] <= 16,
        forall|i: int| 0 <= i < length ==> 0 <= #[trigger] old(pulses)@[i] <= 17407,
    ensures
        r is Ok,
        final(dec)@.wf(),
        final(pulses)@.len() == old(pulses)@.len(),
        ({
            let (q, st) = sign_pass(
                old(dec)@,
                old(pulses)@.subrange(0, length as int).map_values(|x: i16| x as int),
                sum_pulses@.map_values(|x: i32| x as int),
                signal_type as int,
                quant_offset_type as int,
                length as int,
            );
            &&& final(dec)@ == st
            &&& q.len() == length
            &&& forall|i: int| 0 <= i < length ==> #[trigger] final(pulses)@[i] == q[i]
        }),
        forall|i: int|
            length <= i < old(pulses)@.len() ==> #[trigger] final(pulses)@[i] == old(pulses)@[i],
{
    let ghost st = dec@;
    let ghost q0 = pulses@.subrange(0, length as int).map_values(|x: i16| x as int);
    let ghost sums = sum_pulses@.map_values(|x: i32| x as int);
    let base: usize = 7 * (quant_offset_type + 2 * signal_type) as usize;
    let mut k: usize = 0;
    while k < length
        invariant
            dec@.wf(),
            0 <= signal_type <= 2,
            0 <= quant_offset_type <= 1,
            base == 7 * (quant_offset_type + 2 * signal_type),
            length % 16 == 0,
            length <= 320,
            length <= pulses@.len(),
            pulses@.len() == old(pulses)@.len(),
            k <= length,
            forall|i: int| 0 <= i < 20 ==> 0 <= #[trigger] sum_pulses@[i] <= 16,
            forall|i: int| 0 <= i < length ==> 0 <= #[trigger] old(pulses)@[i] <= 17407,
            q0 == old(pulses)@.subrange(0, length as int).map_values(|x: i16| x as int),
            sums == sum_pulses@.map_values(|x: i32| x as int),
            ({
                let (q, s) = sign_pass(
                    st,
                    q0,
                    sums,
                    signal_type as int,
                    quant_offset_type as int,
                    k as int,
                );
                &&& dec@ == s
                &&& q.len() == length
                &&& forall|i: int| 0 <= i < length ==> #[trigger] pulses@[i] == q[i]
            }),
            forall|i: int| k <= i < pulses@.len() ==> #[trigger] pulses@[i] == old(pulses)@[i],
        decreases length - k,
    {
        let v: i16 = pulses[k];
        if v > 0 {
            let sum: i32 = sum_pulses[k / 16];
            let m: usize = if sum < 6 {
                sum as usize
            } else {
                6
            };
            let icdf: [u8; 2] = [SIGN_ICDF[base + m], 0];
            proof {
                assert(sums[k as int / 16] == sum);
                assert(icdf@ =~= sign_row(signal_type as int, quant_offset_type as int, sum as int));
                assert(icdf@[1] == 0);
                assert(v == old(pulses)@[k as int]);
            }
            let s: i16 = dec.decode_icdf(&icdf, 8)? as i16;
            proof {
                assert(s == 0 || s == 1);
                if s == 0 {
                    assert(v * (2 * s - 1) == -v) by (nonlinear_arith)
                        requires
                            s == 0,
                    ;
                } else {
                    assert(v * (2 * s - 1) == v) by (nonlinear_arith)
                        requires
                            s == 1,
                    ;
                }
            }
            pulses[k] = if s == 0 {
                -v
            } else {
                v
            };
        }
        k = k + 1;
    }
    Ok(())
}

/// Decodes the signed quantization indices of a frame into the front of
/// `pulses`, padded to whole blocks: rate level, pulse counts, shell codes,
/// least significant bits and signs, in this order.
pub fn decode_pulses(
    dec: &mut RangeDecoder<'_>,
    pulses: &mut [i16],
    signal_type: i32,
    quant_offset_type: i32,
    frame_length: usize,
) -> (r: Result<()>)
    requires
        old(dec)@.wf(),
        0 <= signal_type <= 2,
        0 <= quant_offset_type <= 1,
        frame_length % 16 == 0 || frame_length == 120,
        frame_length <= 320,
        16 * shell_blocks(frame_length as int) <= old(pulses)@.len(),
    ensures
        r is Ok,
        final(dec)@.wf(),
        final(pulses)@.len() == old(pulses)@.len(),
        ({
            let (q, st) = decode_pulses_spec(
                old(dec)@,
                signal_type as int,
                quant_offset_type as int,
                frame_length as int,
            );
            &&& final(dec)@ == st
            &&& q.len() == 16 * shell_blocks(frame_length as int)
            &&& forall|i: int| 0 <= i < q.len() ==> #[trigger] final(pulses)@[i] == q[i]
        }),
        forall|i: int|
            16 * shell_blocks(frame_length as int) <= i < old(pulses)@.len()
                ==> #[trigger] final(pulses)@[i] == old(pulses)@[i],
{
    reveal(decode_pulses_spec);
    let n: usize = (frame_length + 15) / 16;
    let table: usize = if signal_type == 2 {
        1
    } else {
        0
    };
    let ghost st = dec@;
    let ghost old_pulses = pulses@;
    assert(RATE_LEVELS_ICDF@[table as int]@[8] == 0);
    let rate: usize = dec.decode_icdf(&RATE_LEVELS_ICDF[table], 8)? as usize;
    let ghost st0 = dec@;
    let mut sum_pulses: [i32; 20] = [0; 20];
    let mut n_lshifts: [i32; 20] = [0; 20];
    let mut i: usize = 0;
    while i < n
        invariant
            dec@.wf(),
            n <= 20,
            i <= n,
            rate < 9,
            ({
                let (sums, shifts, s) = block_counts(st0, rate as int, i as int);
                &&& s == dec@
                &&& sums.len() == i
                &&& shifts.len() == i
                &&& forall|j: int| 0 <= j < i ==> #[trigger] sum_pulses@[j] == sums[j]
                &&& forall|j: int| 0 <= j < i ==> #[trigger] n_lshifts@[j] == shifts[j]
            }),
            forall|j: int| 0 <= j < 20 ==> 0 <= #[trigger] sum_pulses@[j] <= 16,
            forall|j: int| 0 <= j < 20 ==> 0 <= #[trigger] n_lshifts@[j] <= 10,
        decreases n - i,
    {
        let (s, h) = decode_block_count(dec, rate)?;
        sum_pulses[i] = s;
        n_lshifts[i] = h;
        i = i + 1;
    }
    let ghost st1 = dec@;
    let ghost sums = block_counts(st0, rate as int, n as int).0;
    let ghost shifts = block_counts(st0, rate as int, n as int).1;
    let mut i: usize = 0;
    while i < n
        invariant
            dec@.wf(),
            n <= 20,
            i <= n,
            16 * n <= pulses@.len(),
            pulses@.len() == old_pulses.len(),
            sums.len() == n,
            forall|j: int| 0 <= j < n ==> #[trigger] sum_pulses@[j] == sums[j],
            forall|j: int| 0 <= j < 20 ==> 0 <= #[trigger] sum_pulses@[j] <= 16,
            ({
                let (q, s) = shell_blocks_spec(st1, sums, i as int);
                &&& s == dec@
                &&& q.len() == 16 * i
                &&& forall|j: int| 0 <= j < 16 * i ==> #[trigger] pulses@[j] == q[j]
                &&& forall|j: int| 0 <= j < 16 * i ==> 0 <= #[trigger] pulses@[j] <= 16
            }),
            forall|j: int| 16 * i <= j < old_pulses.len() ==> #[trigger] pulses@[j] == old_pulses[j],
        decreases n - i,
    {
        let ghost before = pulses@;
        let ghost stb = dec@;
        let ghost qb = shell_blocks_spec(st1, sums, i as int).0;
        let p: i32 = sum_pulses[i];
        let len: usize = pulses.len();
        if p > 0 {
            proof {
                lemma_shell_tree(stb, 4, p as int);
                lemma2_to64();
            }
            let (_front, block) = pulses.split_at_mut(16 * i);
            shell_decoder(dec, block, p)?;
        } else {
            let mut k: usize = 0;
            while k < 16
                invariant
                    k <= 16,
                    16 * i + 16 <= pulses@.len(),
                    pulses@.len() == len,
                    pulses@.len() == before.len(),
                    forall|j: int| 0 <= j < 16 * i ==> #[trigger] pulses@[j] == before[j],
                    forall|j: int| 16 * i <= j < 16 * i + k ==> #[trigger] pulses@[j] == 0,
                    forall|j: int|
                        16 * i + k <= j < before.len() ==> #[trigger] pulses@[j] == before[j],
                decreases 16 - k,
            {
                pulses[16 * i + k] = 0;
                k = k + 1;
            }
        }
        proof {
            let add: Seq<int> = if p > 0 {
                shell_pulses_spec(stb, p as int)
            } else {
                Seq::new(16, |t: int| 0int)
            };
            let q2 = shell_blocks_spec(st1, sums, i + 1).0;
            assert(q2 == qb + add);
            assert forall|j: int| 0 <= j < 16 * i + 16 implies #[trigger] pulses@[j] == q2[j] && 0
                <= pulses@[j] <= 16 by {
                if j < 16 * i {
                    assert(pulses@[j] == before[j]);
                    assert(q2[j] == qb[j]);
                } else {
                    assert(q2[j] == add[j - 16 * i]);
                }
            }
        }
        i = i + 1;
    }
    let ghost st2 = dec@;
    let ghost shell = shell_blocks_spec(st1, sums, n as int).0;
    let m: usize = 16 * n;
    let mut k: usize = 0;
    while k < m
        invariant
            dec@.wf(),
            n <= 20,
            m == 16 * n,
            k <= m,
            m <= pulses@.len(),
            pulses@.len() == old_pulses.len(),
            shifts.len() == n,
            forall|j: int| 0 <= j < n ==> #[trigger] n_lshifts@[j] == shifts[j],
            forall|j: int| 0 <= j < 20 ==> 0 <= #[trigger] n_lshifts@[j] <= 10,
            ({
                let (q, s) = lsb_pass(st2, shell, shifts, k as int);
                &&& s == dec@
                &&& q.len() == m
                &&& forall|j: int| 0 <= j < m ==> #[trigger] pulses@[j] == q[j]
            }),
            forall|j: int| 0 <= j < k ==> 0 <= #[trigger] pulses@[j] <= 17407,
            forall|j: int| k <= j < m ==> 0 <= #[trigger] pulses@[j] <= 16,
            forall|j: int| m <= j < old_pulses.len() ==> #[trigger] pulses@[j] == old_pulses[j],
        decreases m - k,
    {
        let h: i32 = n_lshifts[k / 16];
        assert(shifts[k as int / 16] == h);
        if h > 0 {
            let v: i16 = decode_lsbs(dec, pulses[k], h)?;
            pulses[k] = v;
        } else {
            assert(lsb_value(dec@, pulses@[k as int] as int, h as int) == (
                pulses@[k as int] as int,
                dec@,
            ));
        }
        k = k + 1;
    }
    let ghost magnitudes = lsb_pass(st2, shell, shifts, m as int).0;
    let ghost st3 = dec@;
    proof {
        assert(pulses@.subrange(0, m as int).map_values(|x: i16| x as int) =~= magnitudes);
        lemma_sign_pass_sums(
            st3,
            magnitudes,
            sums,
            sum_pulses@.map_values(|x: i32| x as int),
            signal_type as int,
            quant_offset_type as int,
            m as int,
        );
    }
    decode_signs(dec, pulses, m, signal_type, quant_offset_type, &sum_pulses)
}

/// Only the counts of the blocks at hand matter for the signs.
proof fn lemma_sign_pass_sums(
    st: RangeState,
    q: Seq<int>,
    a: Seq<int>,
    b: Seq<int>,
    signal_type: int,
    quant_offset_type: int,
    k: int,
)
    requires
        0 <= k <= 16 * a.len(),
        a.len() <= b.len(),
        forall|i: int| 0 <= i < a.len() ==> #[trigger] a[i] == b[i],
    ensures
        sign_pass(st, q, a, signal_type, quant_offset_type, k) == sign_pass(
            st,
            q,
            b,
            signal_type,
            quant_offset_type,
            k,
        ),
    decreases k,
{
    if k > 0 {
        lemma_sign_pass_sums(st, q, a, b, signal_type, quant_offset_type, k - 1);
        assert(a[(k - 1) / 16] == b[(k - 1) / 16]);
    }
}

// ---------------------------------------------------------------------
// Reconstruction
// ---------------------------------------------------------------------

/// The generator's value for sample `i`: advanced once per sample, with the
/// pulses before it added in.
pub open spec fn dither_spec(pulses: Seq<i16>, seed: i32, i: int) -> i32
    decreases i,
{
    if i <= 0 {
        rand_spec(seed)
    } else {
        rand_spec(dither_spec(pulses, seed, i - 1).wrapping_add(pulses[i - 1] as i32))
    }
}

/// An excitation value in Q14: the pulse, pulled toward zero, plus the
/// offset, negated where the generator is negative.
pub open spec fn exc_value_spec(pulse: i16, offset_q10: i16, dither: i32) -> i32 {
    let pull: int = if pulse > 0 {
        -QUANT_LEVEL_ADJUST_Q10 * 16
    } else if pulse < 0 {
        QUANT_LEVEL_ADJUST_Q10 * 16
    } else {
        0
    };
    let e = pulse * 16384 + pull + offset_q10 * 16;
    (if dither < 0 {
        -e
    } else {
        e
    }) as i32
}

/// The first `n` excitation values of a frame.
pub open spec fn excitation_spec(
    pulses: Seq<i16>,
    seed: i8,
    signal_type: i8,
    quant_offset_type: i8,
    n: int,
) -> Seq<i32> {
    let offset = QUANTIZATION_OFFSETS_Q10@[signal_type as int / 2]@[quant_offset_type as int];
    Seq::new(
        n as nat,
        |i: int| exc_value_spec(pulses[i], offset, dither_spec(pulses, seed as i32, i)),
    )
}

proof fn lemma_dither_ext(a: Seq<i16>, b: Seq<i16>, seed: i32, i: int, n: int)
    requires
        forall|j: int| 0 <= j < n ==> #[trigger] a[j] == b[j],
        i < n,
    ensures
        dither_spec(a, seed, i) == dither_spec(b, seed, i),
    decreases i,
{
    if i > 0 {
        lemma_dither_ext(a, b, seed, i - 1, n);
    }
}

/// Excitation depends on the pulses of its samples alone.
pub proof fn lemma_excitation_ext(a: Seq<i16>, b: Seq<i16>, seed: i8, t: i8, o: i8, n: int)
    requires
        n >= 0,
        forall|i: int| 0 <= i < n ==> #[trigger] a[i] == b[i],
    ensures
        excitation_spec(a, seed, t, o, n) == excitation_spec(b, seed, t, o, n),
{
    let x = excitation_spec(a, seed, t, o, n);
    let y = excitation_spec(b, seed, t, o, n);
    assert forall|i: int| 0 <= i < n implies #[trigger] x[i] == y[i] by {
        lemma_value_ext(a, b, seed, t, o, n, i);
    }
    assert(x =~= y);
}

proof fn lemma_value_ext(a: Seq<i16>, b: Seq<i16>, seed: i8, t: i8, o: i8, n: int, i: int)
    requires
        forall|i: int| 0 <= i < n ==> #[trigger] a[i] == b[i],
        0 <= i < n,
    ensures
        excitation_spec(a, seed, t, o, n)[i] == excitation_spec(b, seed, t, o, n)[i],
{
    lemma_dither_ext(a, b, seed as i32, i, n);
    let off = QUANTIZATION_OFFSETS_Q10@[t as int / 2]@[o as int];
    let d = dither_spec(a, seed as i32, i);
    let e = dither_spec(b, seed as i32, i);
    assert(d == e);
    assert(excitation_spec(a, seed, t, o, n)[i] == exc_value_spec(a[i], off, d));
    assert(excitation_spec(b, seed, t, o, n)[i] == exc_value_spec(b[i], off, e));
}

/// Turns quantization indices into the Q14 excitation of as many samples as
/// `exc_q14` holds.
pub fn reconstruct_excitation(
    exc_q14: &mut [i32],
    pulses: &[i16],
    seed: i8,
    signal_type: i8,
    quant_offset_type: i8,
)
    requires
        0 <= signal_type <= 2,
        0 <= quant_offset_type <= 1,
        old(exc_q14)@.len() <= pulses@.len(),
    ensures
        final(exc_q14)@ == excitation_spec(
            pulses@,
            seed,
            signal_type,
            quant_offset_type,
            old(exc_q14)@.len() as int,
        ),
{
    let n: usize = exc_q14.len();
    let row: usize = if signal_type == 2 {
        1
    } else {
        0
    };
    let offset_q10: i16 = QUANTIZATION_OFFSETS_Q10[row][quant_offset_type as usize];
    let ghost spec = excitation_spec(pulses@, seed, signal_type, quant_offset_type, n as int);
    let mut state: i32 = seed as i32;
    let mut i: usize = 0;
    while i < n
        invariant
            n == exc_q14@.len(),
            n <= pulses@.len(),
            i <= n,
            spec == excitation_spec(pulses@, seed, signal_type, quant_offset_type, n as int),
            offset_q10 == QUANTIZATION_OFFSETS_Q10@[signal_type as int / 2]@[quant_offset_type as int],
            rand_spec(state) == dither_spec(pulses@, seed as i32, i as int),
            forall|k: int| 0 <= k < i ==> #[trigger] exc_q14@[k] == spec[k],
        decreases n - i,
    {
        let dither: i32 = rand(state);
        let pulse: i16 = pulses[i];
        let pull: i32 = if pulse > 0 {
            -QUANT_LEVEL_ADJUST_Q10 * 16
        } else if pulse < 0 {
            QUANT_LEVEL_ADJUST_Q10 * 16
        } else {
            0
        };
        let e: i32 = pulse as i32 * 16384 + pull + offset_q10 as i32 * 16;
        exc_q14[i] = if dither < 0 {
            -e
        } else {
            e
        };
        state = dither.wrapping_add(pulse as i32);
        i = i + 1;
    }
    assert(exc_q14@ =~= spec);
}

/// Excitation values: a negative generator mirrors them, one more pulse is a
/// step of one, and the first pulse on either side a step that falls short of
/// one by the level adjustment.
pub proof fn lemma_excitation_levels(pulse: i16, offset_q10: i16, dither: i32)
    requires
        -0x7000 <= pulse <= 0x7000,
    ensures
        ({
            let e = exc_value_spec(pulse, offset_q10, 0);
            let up = exc_value_spec((pulse + 1) as i16, offset_q10, 0);
            &&& exc_value_spec(pulse, offset_q10, dither) == (if dither < 0 {
                -e
            } else {
                e as int
            })
            &&& pulse == 0 ==> e == 16 * offset_q10
            &&& up - e == (if pulse == 0 || pulse == -1 {
                16384 - 1280
            } else {
                16384int
            })
        }),
{
}

} // verus!
