//! Reproducible pseudo-random bytes and mutations of byte strings, for tests
//! that feed decoders with arbitrary input.
use vstd::arithmetic::power::{lemma_pow0, lemma_pow_adds, lemma_pow_positive, pow};
use vstd::prelude::*;
use vstd::string::StringSliceAdditionalSpecFns;

verus! {

/// A counter whose values are scrambled: a seed always gives the same
/// stream.
pub struct Rng(u64);

/// The state behind `s`.
pub open spec fn step_spec(s: u64) -> u64 {
    s.wrapping_add(0x9E37_79B9_7F4A_7C15)
}

/// The state `n` steps behind `s`.
pub open spec fn steps_spec(s: u64, n: int) -> u64
    decreases n,
{
    if n <= 0 {
        s
    } else {
        step_spec(steps_spec(s, n - 1))
    }
}

/// The value that belongs to a state.
pub open spec fn scramble_spec(s: u64) -> u64 {
    let a = (s ^ (s >> 30u64)).wrapping_mul(0xBF58_476D_1CE4_E5B9);
    let b = (a ^ (a >> 27u64)).wrapping_mul(0x94D0_49BB_1331_11EB);
    b ^ (b >> 31u64)
}

/// The `n`-th value of the stream from `s` on, counted from 0.
pub open spec fn value_spec(s: u64, n: int) -> u64 {
    scramble_spec(steps_spec(s, n + 1))
}

/// Hash of the first `n` bytes of a name.
pub open spec fn name_hash_spec(name: Seq<u8>, n: int) -> u64
    decreases n,
{
    if n <= 0 {
        0xcbf2_9ce4_8422_2325
    } else {
        (name_hash_spec(name, n - 1) ^ (name[n - 1] as u64)).wrapping_mul(0x100_0000_01b3)
    }
}

/// Byte `i` of a value, from the least significant one.
pub open spec fn byte_of(v: u64, i: int) -> u8 {
    ((v as int / pow(256, i as nat)) % 256) as u8
}

impl Rng {
    /// The state of the generator.
    pub closed spec fn state(&self) -> u64 {
        self.0
    }

    /// A generator with a seed.
    pub fn new(seed: u64) -> (r: Rng)
        ensures
            r.state() == seed,
    {
        Rng(seed)
    }

    /// A generator whose seed is the hash of a name.
    pub fn from_name(name: &str) -> (r: Rng)
        ensures
            r.state() == name_hash_spec(name.spec_bytes(), name.spec_bytes().len() as int),
    {
        let bytes: &[u8] = name.as_bytes();
        let n: usize = bytes.len();
        let mut h: u64 = 0xcbf2_9ce4_8422_2325;
        let mut i: usize = 0;
        while i < n
            invariant
                i <= n,
                n == bytes@.len(),
                h == name_hash_spec(bytes@, i as int),
            decreases n - i,
        {
            h = (h ^ (bytes[i] as u64)).wrapping_mul(0x100_0000_01b3);
            i = i + 1;
        }
        Rng(h)
    }

    /// The next value of the stream.
    pub fn next_u64(&mut self) -> (v: u64)
        ensures
            v == value_spec(old(self).state(), 0),
            final(self).state() == step_spec(old(self).state()),
    {
        reveal_with_fuel(steps_spec, 2);
        self.0 = self.0.wrapping_add(0x9E37_79B9_7F4A_7C15);
        let mut z: u64 = self.0;
        z = (z ^ (z >> 30u64)).wrapping_mul(0xBF58_476D_1CE4_E5B9);
        z = (z ^ (z >> 27u64)).wrapping_mul(0x94D0_49BB_1331_11EB);
        z ^ (z >> 31u64)
    }

    /// A value below `bound`.
    pub fn below(&mut self, bound: usize) -> (v: usize)
        requires
            bound > 0,
        ensures
            v == value_spec(old(self).state(), 0) as int % bound as int,
            v < bound,
            final(self).state() == step_spec(old(self).state()),
    {
        (self.next_u64() % (bound as u64)) as usize
    }

    /// Fills `out` with the bytes of as many values as it takes.
    pub fn fill_bytes(&mut self, out: &mut [u8])
        ensures
            final(out)@.len() == old(out)@.len(),
            forall|i: int|
                0 <= i < old(out)@.len() ==> #[trigger] final(out)@[i] == byte_of(
                    value_spec(old(self).state(), i / 8),
                    i % 8,
                ),
            final(self).state() == steps_spec(
                old(self).state(),
                (old(out)@.len() as int + 7) / 8,
            ),
    {
        let n: usize = out.len();
        let ghost s0 = self.state();
        let mut i: usize = 0;
        let mut rest: u64 = 0;
        let ghost mut v: u64 = 0;
        while i < n
            invariant
                i <= n,
                n == out@.len(),
                out@.len() == old(out)@.len(),
                s0 == old(self).state(),
                self.state() == steps_spec(s0, (i + 7) / 8),
                i % 8 != 0 ==> v == value_spec(s0, i as int / 8),
                rest == v as int / pow(256, (i % 8) as nat) || i % 8 == 0,
                forall|j: int|
                    0 <= j < i ==> #[trigger] out@[j] == byte_of(value_spec(s0, j / 8), j % 8),
            decreases n - i,
        {
            if i % 8 == 0 {
                let ghost s = self.state();
                rest = self.next_u64();
                proof {
                    v = rest;
                    reveal_with_fuel(steps_spec, 2);
                    assert((i + 7) / 8 == i as int / 8);
                    assert(v == value_spec(s0, i as int / 8));
                    lemma_pow0(256);
                }
            }
            assert(rest == v as int / pow(256, (i % 8) as nat));
            out[i] = (rest % 256) as u8;
            proof {
                assert(out@[i as int] == byte_of(v, i as int % 8));
                lemma_next_byte(v, i as int % 8);
                reveal_with_fuel(steps_spec, 2);
            }
            rest = rest / 256;
            i = i + 1;
        }
    }
}

proof fn lemma_next_byte(v: u64, i: int)
    requires
        0 <= i < 8,
    ensures
        (v as int / pow(256, i as nat)) / 256 == v as int / pow(256, (i + 1) as nat),
{
    let p = pow(256, i as nat);
    lemma_pow_positive(256, i as nat);
    lemma_pow_adds(256, i as nat, 1);
    vstd::arithmetic::power::lemma_pow1(256);
    vstd::arithmetic::div_mod::lemma_div_denominator(v as int, p, 256);
}

/// The `n`-th value of the stream, below `bound`.
pub open spec fn pick_spec(s: u64, n: int, bound: int) -> int {
    value_spec(s, n) as int % bound
}

/// The first `n` values from the `from`-th on, each cut to a byte.
pub open spec fn random_bytes_spec(s: u64, from: int, n: int) -> Seq<u8> {
    Seq::new(n as nat, |j: int| value_spec(s, from + j) as u8)
}

/// `data` with `ins` put in front of position `at`.
pub open spec fn spliced_spec(data: Seq<u8>, at: int, ins: Seq<u8>) -> Seq<u8> {
    data.subrange(0, at) + ins + data.subrange(at, data.len() as int)
}

pub open spec fn min_spec(a: int, b: int) -> int {
    if a < b {
        a
    } else {
        b
    }
}

/// The mutation of `data` that the stream from `s` on chooses, and the number
/// of values that it takes: cut off, one bit flipped, up to eight bytes
/// replaced, up to sixteen bytes put in, or up to 64 of its own bytes put in
/// again.
pub open spec fn mutate_spec(data: Seq<u8>, s: u64) -> (Seq<u8>, int) {
    let len = data.len() as int;
    let strategy = pick_spec(s, 0, 5);
    if len == 0 {
        (seq![value_spec(s, 0) as u8], 1)
    } else if strategy == 0 {
        (data.subrange(0, pick_spec(s, 1, len)), 2)
    } else if strategy == 1 {
        let i = pick_spec(s, 1, len);
        (data.update(i, data[i] ^ (1u8 << (pick_spec(s, 2, 8) as u32))), 3)
    } else if strategy == 2 {
        let run = min_spec(1 + pick_spec(s, 1, 8), len);
        let start = pick_spec(s, 2, len - run + 1);
        (
            data.subrange(0, start) + random_bytes_spec(s, 3, run) + data.subrange(
                start + run,
                len,
            ),
            3 + run,
        )
    } else if strategy == 3 {
        let at = pick_spec(s, 1, len + 1);
        let n = 1 + pick_spec(s, 2, 16);
        (spliced_spec(data, at, random_bytes_spec(s, 3, n)), 3 + n)
    } else {
        let start = pick_spec(s, 1, len);
        let end = min_spec(start + 1 + pick_spec(s, 2, 64), len);
        let at = pick_spec(s, 3, len + 1);
        (spliced_spec(data, at, data.subrange(start, end)), 4)
    }
}

/// The first value behind `n` steps is the `n`-th one.
proof fn lemma_value(s: u64, n: int)
    requires
        n >= 0,
    ensures
        value_spec(steps_spec(s, n), 0) == value_spec(s, n),
        step_spec(steps_spec(s, n)) == steps_spec(s, n + 1),
{
    reveal_with_fuel(steps_spec, 2);
}

/// Draws `n` bytes.
fn random_bytes(rng: &mut Rng, n: usize, Ghost(s): Ghost<u64>, Ghost(from): Ghost<int>) -> (r: Vec<u8>)
    requires
        from >= 0,
        old(rng).state() == steps_spec(s, from),
    ensures
        r@ == random_bytes_spec(s, from, n as int),
        final(rng).state() == steps_spec(s, from + n),
{
    let mut out: Vec<u8> = Vec::new();
    let mut i: usize = 0;
    while i < n
        invariant
            i <= n,
            from >= 0,
            rng.state() == steps_spec(s, from + i),
            out@ == random_bytes_spec(s, from, i as int),
        decreases n - i,
    {
        proof {
            lemma_value(s, from + i);
        }
        let v: u64 = rng.next_u64();
        out.push(#[verifier::truncate] (v as u8));
        assert(out@ =~= random_bytes_spec(s, from, i + 1));
        i = i + 1;
    }
    out
}

/// Puts `ins` in front of position `at` of `data`.
fn spliced(data: &[u8], at: usize, ins: &[u8]) -> (r: Vec<u8>)
    requires
        at <= data@.len(),
        data@.len() + ins@.len() <= usize::MAX,
    ensures
        r@ == spliced_spec(data@, at as int, ins@),
{
    let len: usize = data.len();
    let mut out: Vec<u8> = Vec::new();
    out.extend_from_slice(&data[0..at]);
    out.extend_from_slice(ins);
    out.extend_from_slice(&data[at..len]);
    assert(out@ =~= spliced_spec(data@, at as int, ins@));
    out
}

/// Applies one mutation to `data`.
pub fn mutate(data: &[u8], rng: &mut Rng) -> (r: Vec<u8>)
    requires
        data@.len() + 64 <= usize::MAX,
    ensures
        r@ == mutate_spec(data@, old(rng).state()).0,
        final(rng).state() == steps_spec(
            old(rng).state(),
            mutate_spec(data@, old(rng).state()).1,
        ),
{
    let ghost s = rng.state();
    let len: usize = data.len();
    proof {
        assert(steps_spec(s, 0) == s);
        lemma_value(s, 0);
        lemma_value(s, 1);
        lemma_value(s, 2);
        lemma_value(s, 3);
    }
    if len == 0 {
        let v: u64 = rng.next_u64();
        let mut out: Vec<u8> = Vec::new();
        out.push(#[verifier::truncate] (v as u8));
        assert(out@ =~= seq![value_spec(s, 0) as u8]);
        return out;
    }
    let strategy: usize = rng.below(5);
    if strategy == 0 {
        let at: usize = rng.below(len);
        let mut out: Vec<u8> = Vec::new();
        out.extend_from_slice(&data[0..at]);
        assert(out@ =~= data@.subrange(0, at as int));
        out
    } else if strategy == 1 {
        let i: usize = rng.below(len);
        let bit: usize = rng.below(8);
        let flipped: u8 = data[i] ^ (1u8 << (bit as u32));
        let mut out: Vec<u8> = Vec::new();
        out.extend_from_slice(data);
        out.set(i, flipped);
        assert(out@ =~= data@.update(i as int, flipped));
        out
    } else if strategy == 2 {
        let mut run: usize = 1 + rng.below(8);
        if len < run {
            run = len;
        }
        let start: usize = rng.below(len - run + 1);
        let bytes: Vec<u8> = random_bytes(rng, run, Ghost(s), Ghost(3));
        let mut out: Vec<u8> = Vec::new();
        out.extend_from_slice(&data[0..start]);
        out.extend_from_slice(bytes.as_slice());
        out.extend_from_slice(&data[start + run..len]);
        assert(out@ =~= data@.subrange(0, start as int) + bytes@ + data@.subrange(
            start + run,
            len as int,
        ));
        out
    } else if strategy == 3 {
        let at: usize = rng.below(len + 1);
        let n: usize = 1 + rng.below(16);
        let bytes: Vec<u8> = random_bytes(rng, n, Ghost(s), Ghost(3));
        spliced(data, at, bytes.as_slice())
    } else {
        let start: usize = rng.below(len);
        let mut end: usize = start + 1 + rng.below(64);
        if len < end {
            end = len;
        }
        let at: usize = rng.below(len + 1);
        spliced(data, at, &data[start..end])
    }
}

/// A mutation changes the length by at most what its strategy puts in: it
/// never loses anything but by cutting off, and never adds more than 64
/// bytes.
pub proof fn lemma_mutate_len(data: Seq<u8>, s: u64)
    ensures
        ({
            let n = mutate_spec(data, s).0.len();
            &&& data.len() == 0 ==> n == 1
            &&& n <= data.len() + 64
            &&& n < data.len() ==> pick_spec(s, 0, 5) == 0
            &&& data.len() > 0 && pick_spec(s, 0, 5) == 0 ==> n < data.len()
        }),
{
}

/// One byte of a byte string is off by one bit.
pub open spec fn bit_flipped(a: Seq<u8>, b: Seq<u8>) -> bool {
    exists|i: int, k: int|
        0 <= i < a.len() && 0 <= k < 8 && b == #[trigger] a.update(
            i,
            a[i] ^ (1u8 << (k as u32)),
        )
}

/// Two byte strings differ in a run of at most eight bytes.
pub open spec fn run_replaced(a: Seq<u8>, b: Seq<u8>) -> bool {
    &&& a.len() == b.len()
    &&& exists|start: int, run: int|
        0 <= start && 1 <= run <= 8 && start + run <= a.len() && #[trigger] differ_within(
            a,
            b,
            start,
            start + run,
        )
}

pub open spec fn differ_within(a: Seq<u8>, b: Seq<u8>, start: int, end: int) -> bool {
    forall|i: int| 0 <= i < a.len() && !(start <= i < end) ==> #[trigger] b[i] == a[i]
}

/// Byte string `b` is `a` with `ins` put in somewhere.
pub open spec fn put_in(a: Seq<u8>, b: Seq<u8>, ins: Seq<u8>) -> bool {
    exists|at: int|
        0 <= at <= a.len() && b == #[trigger] a.subrange(0, at) + ins + a.subrange(
            at,
            a.len() as int,
        )
}

/// A block of at most 64 bytes of a byte string.
pub open spec fn block_of(a: Seq<u8>, block: Seq<u8>) -> bool {
    exists|start: int|
        0 <= start && 1 <= block.len() <= 64 && start + block.len() <= a.len() && block
            == #[trigger] a.subrange(start, start + block.len())
}

/// A mutation is one of five: the end is cut off, one bit is flipped, a run of
/// up to eight bytes is replaced, up to sixteen bytes are put in, or a block of
/// up to 64 of the bytes is put in once more. Nothing else changes.
pub proof fn lemma_mutation(data: Seq<u8>, s: u64)
    requires
        data.len() > 0,
    ensures
        ({
            let r = mutate_spec(data, s).0;
            let k = value_spec(s, 0) as int % 5;
            &&& k == 0 ==> r.len() < data.len() && r == data.subrange(0, r.len() as int)
            &&& k == 1 ==> bit_flipped(data, r)
            &&& k == 2 ==> run_replaced(data, r)
            &&& k == 3 ==> exists|ins: Seq<u8>|
                1 <= ins.len() <= 16 && #[trigger] put_in(data, r, ins)
            &&& k == 4 ==> exists|ins: Seq<u8>| block_of(data, ins) && #[trigger] put_in(data, r, ins)
        }),
{
    let len = data.len() as int;
    let r = mutate_spec(data, s).0;
    let k = value_spec(s, 0) as int % 5;
    if k == 1 {
        let i = pick_spec(s, 1, len);
        let b = pick_spec(s, 2, 8);
        assert(r == data.update(i, data[i] ^ (1u8 << (b as u32))));
    } else if k == 2 {
        let run = min_spec(1 + pick_spec(s, 1, 8), len);
        let start = pick_spec(s, 2, len - run + 1);
        assert(differ_within(data, r, start, start + run));
    } else if k == 3 {
        let at = pick_spec(s, 1, len + 1);
        let n = 1 + pick_spec(s, 2, 16);
        let ins = random_bytes_spec(s, 3, n);
        assert(r == data.subrange(0, at) + ins + data.subrange(at, len));
        assert(put_in(data, r, ins));
    } else if k == 4 {
        let start = pick_spec(s, 1, len);
        let end = min_spec(start + 1 + pick_spec(s, 2, 64), len);
        let at = pick_spec(s, 3, len + 1);
        let ins = data.subrange(start, end);
        assert(ins == data.subrange(start, start + ins.len()));
        assert(block_of(data, ins));
        assert(r == data.subrange(0, at) + ins + data.subrange(at, len));
        assert(put_in(data, r, ins));
    }
}

/// Every byte of a name counts: one more byte is taken into the hash of the
/// name before it.
pub proof fn lemma_name_hash(name: Seq<u8>, b: u8)
    ensures
        name_hash_spec(Seq::empty(), 0) == 0xcbf2_9ce4_8422_2325,
        name_hash_spec(name.push(b), name.len() as int + 1) == (name_hash_spec(name, name.len() as int) ^ (
        b as u64)).wrapping_mul(0x100_0000_01b3),
{
    lemma_name_hash_prefix(name, b, name.len() as int);
}

proof fn lemma_name_hash_prefix(name: Seq<u8>, b: u8, n: int)
    requires
        n <= name.len(),
    ensures
        name_hash_spec(name.push(b), n) == name_hash_spec(name, n),
    decreases n,
{
    if n > 0 {
        lemma_name_hash_prefix(name, b, n - 1);
    }
}

/// The stream goes on: what comes behind `n` values of a stream is the stream
/// of the state behind them, and a state is the seed plus as many steps.
pub proof fn lemma_stream_goes_on(s: u64, n: int, m: int)
    requires
        n >= 0,
        m >= 0,
    ensures
        value_spec(steps_spec(s, n), m) == value_spec(s, n + m),
        steps_spec(steps_spec(s, n), m) == steps_spec(s, n + m),
    decreases m,
{
    reveal_with_fuel(steps_spec, 2);
    if m > 0 {
        lemma_stream_goes_on(s, n, m - 1);
    }
}

} // verus!
