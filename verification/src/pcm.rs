//! Headerless PCM streams.
//!
//! Such a stream carries no description of itself: sample format, byte order,
//! channel count and rate come from the caller. Samples are interleaved, and
//! a frame holds one sample of each channel. Decoding gives integers with
//! their sign, and the bit patterns of floating-point samples.
use crate::error::{BadFormat, CadenceError, Result};
use vstd::prelude::*;

verus! {

/// Byte order of the samples.
#[derive(Debug, Clone, Copy, PartialEq, Eq, Structural)]
pub enum ByteOrder {
    Little,
    Big,
}

/// Encoding of a sample.
#[derive(Debug, Clone, Copy, PartialEq, Eq, Structural)]
pub enum SampleFormat {
    Int8,
    Int16,
    Int24,
    Int32,
    Float32,
    Float64,
}

impl SampleFormat {
    pub open spec fn width(self) -> int {
        match self {
            SampleFormat::Int8 => 1,
            SampleFormat::Int16 => 2,
            SampleFormat::Int24 => 3,
            SampleFormat::Int32 => 4,
            SampleFormat::Float32 => 4,
            SampleFormat::Float64 => 8,
        }
    }

    pub fn bytes_per_sample(&self) -> (n: u16)
        ensures
            n == self.width(),
    {
        match self {
            SampleFormat::Int8 => 1,
            SampleFormat::Int16 => 2,
            SampleFormat::Int24 => 3,
            SampleFormat::Int32 => 4,
            SampleFormat::Float32 => 4,
            SampleFormat::Float64 => 8,
        }
    }

    pub fn bit_depth(&self) -> (n: u16)
        ensures
            n == 8 * self.width(),
    {
        8 * self.bytes_per_sample()
    }
}

/// A decoded sample.
#[derive(Debug, Clone, Copy, PartialEq, Eq, Structural)]
pub enum Sample {
    /// A signed integer of the format's width.
    Int(i32),
    /// The bits of a single-precision number.
    Float32(u32),
    /// The bits of a double-precision number.
    Float64(u64),
}

/// The number that bytes stand for, the most significant one first.
pub open spec fn big_value(bytes: Seq<u8>) -> int
    decreases bytes.len(),
{
    if bytes.len() == 0 {
        0
    } else {
        256 * big_value(bytes.drop_last()) + bytes.last()
    }
}

/// The number that a sample's bytes stand for.
pub open spec fn unsigned_value(bytes: Seq<u8>, order: ByteOrder) -> int {
    match order {
        ByteOrder::Big => big_value(bytes),
        ByteOrder::Little => big_value(bytes.reverse()),
    }
}

/// The largest positive number of a width in bytes, plus one.
pub open spec fn half_range(width: int) -> int {
    if width == 1 {
        0x80
    } else if width == 2 {
        0x8000
    } else if width == 3 {
        0x80_0000
    } else {
        0x8000_0000
    }
}

/// A number in two's complement.
pub open spec fn signed_value(v: int, width: int) -> int {
    if v >= half_range(width) {
        v - 2 * half_range(width)
    } else {
        v
    }
}

/// The sample that bytes stand for.
pub open spec fn sample_spec(bytes: Seq<u8>, format: SampleFormat, order: ByteOrder) -> Sample {
    let v = unsigned_value(bytes, order);
    match format {
        SampleFormat::Float32 => Sample::Float32(v as u32),
        SampleFormat::Float64 => Sample::Float64(v as u64),
        _ => Sample::Int(signed_value(v, format.width()) as i32),
    }
}

/// Numbers of up to eight bytes.
proof fn lemma_big_value(bytes: Seq<u8>)
    requires
        bytes.len() <= 8,
    ensures
        0 <= big_value(bytes),
        bytes.len() <= 1 ==> big_value(bytes) < 0x100,
        bytes.len() <= 2 ==> big_value(bytes) < 0x1_0000,
        bytes.len() <= 3 ==> big_value(bytes) < 0x100_0000,
        bytes.len() <= 4 ==> big_value(bytes) < 0x1_0000_0000,
        bytes.len() <= 5 ==> big_value(bytes) < 0x100_0000_0000,
        bytes.len() <= 6 ==> big_value(bytes) < 0x1_0000_0000_0000,
        bytes.len() <= 7 ==> big_value(bytes) < 0x100_0000_0000_0000,
        big_value(bytes) < 0x1_0000_0000_0000_0000,
    decreases bytes.len(),
{
    if bytes.len() > 0 {
        lemma_big_value(bytes.drop_last());
    }
}

/// Puts the bytes of a sample together.
fn assemble(bytes: &[u8], order: ByteOrder) -> (v: u64)
    requires
        bytes@.len() <= 8,
    ensures
        v == unsigned_value(bytes@, order),
{
    let n: usize = bytes.len();
    let ghost s = match order {
        ByteOrder::Big => bytes@,
        ByteOrder::Little => bytes@.reverse(),
    };
    let mut v: u64 = 0;
    let mut i: usize = 0;
    assert(s.take(0) =~= Seq::empty());
    while i < n
        invariant
            i <= n <= 8,
            n == bytes@.len(),
            s == (match order {
                ByteOrder::Big => bytes@,
                ByteOrder::Little => bytes@.reverse(),
            }),
            v == big_value(s.take(i as int)),
        decreases n - i,
    {
        let b: u8 = match order {
            ByteOrder::Big => bytes[i],
            ByteOrder::Little => bytes[n - 1 - i],
        };
        proof {
            assert(b == s[i as int]);
            assert(s.take(i + 1).drop_last() =~= s.take(i as int));
            lemma_big_value(s.take(i + 1));
        }
        v = v * 256 + b as u64;
        i = i + 1;
    }
    assert(s.take(n as int) =~= s);
    v
}

/// Reads one sample.
pub fn convert_sample(bytes: &[u8], format: SampleFormat, order: ByteOrder) -> (r: Sample)
    requires
        bytes@.len() == format.width(),
    ensures
        r == sample_spec(bytes@, format, order),
{
    let v: u64 = assemble(bytes, order);
    proof {
        lemma_big_value(bytes@);
        lemma_big_value(bytes@.reverse());
    }
    match format {
        SampleFormat::Int8 => Sample::Int(
            if v >= 0x80 {
                v as i32 - 0x100
            } else {
                v as i32
            },
        ),
        SampleFormat::Int16 => Sample::Int(
            if v >= 0x8000 {
                v as i32 - 0x1_0000
            } else {
                v as i32
            },
        ),
        SampleFormat::Int24 => Sample::Int(
            if v >= 0x80_0000 {
                v as i32 - 0x100_0000
            } else {
                v as i32
            },
        ),
        SampleFormat::Int32 => Sample::Int(
            if v >= 0x8000_0000 {
                (v as i64 - 0x1_0000_0000) as i32
            } else {
                v as i32
            },
        ),
        SampleFormat::Float32 => Sample::Float32(v as u32),
        SampleFormat::Float64 => Sample::Float64(v),
    }
}

/// The byte at a place of a number in two's complement, the lowest at 0.
pub open spec fn byte_at(v: int, place: int) -> u8
    decreases place,
{
    if place <= 0 {
        (v % 256) as u8
    } else {
        byte_at(v / 256, place - 1)
    }
}

/// The bytes of a number, the least significant one first.
pub open spec fn little_bytes(v: int, width: int) -> Seq<u8> {
    Seq::new(width as nat, |i: int| byte_at(v, i))
}

/// The bytes of a number, the most significant one first.
pub open spec fn big_bytes(v: int, width: int) -> Seq<u8> {
    Seq::new(width as nat, |i: int| byte_at(v, width - 1 - i))
}

/// How many numbers a width in bytes has.
pub open spec fn span(width: int) -> int
    decreases width,
{
    if width <= 0 {
        1
    } else {
        256 * span(width - 1)
    }
}

/// Bytes of a number stand for it, up to multiples of the span.
proof fn lemma_bytes_stand_for(v: int, width: int) -> (t: int)
    requires
        0 <= width,
    ensures
        big_value(big_bytes(v, width)) == v + span(width) * t,
        0 <= big_value(big_bytes(v, width)) < span(width),
    decreases width,
{
    let b = big_bytes(v, width);
    if width == 0 {
        -v
    } else {
        let t = lemma_bytes_stand_for(v / 256, width - 1);
        assert(b.drop_last() =~= big_bytes(v / 256, width - 1)) by {
            assert forall|i: int| 0 <= i < width - 1 implies b[i] == big_bytes(
                v / 256,
                width - 1,
            )[i] by {
                assert(byte_at(v, width - 1 - i) == byte_at(v / 256, width - 2 - i));
            }
        }
        assert(b.last() == byte_at(v, 0));
        let m = span(width - 1);
        assert(256 * (v / 256 + m * t) + v % 256 == v + (256 * m) * t) by (nonlinear_arith)
            requires
                v == 256 * (v / 256) + v % 256,
        ;
        t
    }
}

/// The bytes of every number of a format's range decode to that number, in
/// either order, and the bits of a floating-point number to those bits.
pub proof fn lemma_numbers_come_back(v: int, format: SampleFormat)
    ensures
        format is Int8 && -0x80 <= v < 0x80 || format is Int16 && -0x8000 <= v < 0x8000
            || format is Int24 && -0x80_0000 <= v < 0x80_0000 || format is Int32 && -0x8000_0000
            <= v < 0x8000_0000 ==> {
            &&& sample_spec(little_bytes(v, format.width()), format, ByteOrder::Little)
                == Sample::Int(v as i32)
            &&& sample_spec(big_bytes(v, format.width()), format, ByteOrder::Big) == Sample::Int(
                v as i32,
            )
        },
        format is Float32 && 0 <= v < 0x1_0000_0000 ==> {
            &&& sample_spec(little_bytes(v, 4), format, ByteOrder::Little) == Sample::Float32(
                v as u32,
            )
            &&& sample_spec(big_bytes(v, 4), format, ByteOrder::Big) == Sample::Float32(v as u32)
        },
        format is Float64 && 0 <= v < 0x1_0000_0000_0000_0000 ==> {
            &&& sample_spec(little_bytes(v, 8), format, ByteOrder::Little) == Sample::Float64(
                v as u64,
            )
            &&& sample_spec(big_bytes(v, 8), format, ByteOrder::Big) == Sample::Float64(v as u64)
        },
{
    let w = match format {
        SampleFormat::Int8 => 1int,
        SampleFormat::Int16 => 2,
        SampleFormat::Int24 => 3,
        SampleFormat::Int32 => 4,
        SampleFormat::Float32 => 4,
        SampleFormat::Float64 => 8,
    };
    assert(little_bytes(v, w).reverse() =~= big_bytes(v, w));
    reveal_with_fuel(span, 10);
    let t = lemma_bytes_stand_for(v, w);
    let m = span(w);
    assert(-m <= v < m && 0 <= v + m * t < m ==> t == 0 || t == 1) by (nonlinear_arith)
        requires
            m >= 256,
    ;
}

/// An integer sample is the number of its bytes in two's complement: it lies
/// in the range of its width and differs from their value by a multiple of
/// what the width can hold.
pub proof fn lemma_twos_complement(bytes: Seq<u8>, format: SampleFormat, order: ByteOrder)
    requires
        bytes.len() == format.width(),
    ensures
        sample_spec(bytes, format, order) matches Sample::Int(v) ==> {
            &&& (v - unsigned_value(bytes, order)) % span(bytes.len() as int) == 0
            &&& -span(bytes.len() as int) <= 2 * v < span(bytes.len() as int)
        },
        sample_spec(bytes, format, order) is Int <==> !(format is Float32 || format is Float64),
{
    reveal_with_fuel(span, 10);
    lemma_big_value(bytes);
    lemma_big_value(bytes.reverse());
    let w = bytes.len() as int;
    let m = span(w);
    assert(w <= 4 ==> m == 2 * half_range(w) && m > 0);
    assert(m > 0 ==> 0int % m == 0 && (-m) % m == 0) by (nonlinear_arith);
}

/// An integer sample lies in the range of its width.
pub proof fn lemma_sample_range(bytes: Seq<u8>, format: SampleFormat, order: ByteOrder)
    requires
        bytes.len() == format.width(),
    ensures
        sample_spec(bytes, format, order) matches Sample::Int(v) ==> -half_range(format.width())
            <= v < half_range(format.width()),
{
    lemma_big_value(bytes);
    lemma_big_value(bytes.reverse());
}

/// The two byte orders are mirror images of each other.
pub proof fn lemma_byte_orders(bytes: Seq<u8>, format: SampleFormat)
    ensures
        sample_spec(bytes.reverse(), format, ByteOrder::Little) == sample_spec(
            bytes,
            format,
            ByteOrder::Big,
        ),
{
    assert(bytes.reverse().reverse() =~= bytes);
}

/// The name of a sample format: `s` or `f`, the bits of a sample and, if it
/// has more than one byte, the byte order.
pub open spec fn format_name(format: SampleFormat, order: ByteOrder) -> Seq<u8> {
    let tail = match order {
        ByteOrder::Little => seq![108u8, 101u8],
        ByteOrder::Big => seq![98u8, 101u8],
    };
    match format {
        SampleFormat::Int8 => seq![115u8, 56u8],
        SampleFormat::Int16 => seq![115u8, 49u8, 54u8] + tail,
        SampleFormat::Int24 => seq![115u8, 50u8, 52u8] + tail,
        SampleFormat::Int32 => seq![115u8, 51u8, 50u8] + tail,
        SampleFormat::Float32 => seq![102u8, 51u8, 50u8] + tail,
        SampleFormat::Float64 => seq![102u8, 54u8, 52u8] + tail,
    }
}

/// The sample format of a name such as `s16le`, in ASCII.
pub fn parse_format_name(name: &[u8]) -> (r: Option<(SampleFormat, ByteOrder)>)
    ensures
        r matches Some(x) ==> name@ == format_name(x.0, x.1),
        r matches Some(x) ==> x.0 == SampleFormat::Int8 ==> x.1 == ByteOrder::Little,
        r is None ==> forall|f: SampleFormat, o: ByteOrder| name@ != #[trigger] format_name(f, o),
{
    let n: usize = name.len();
    if n == 2 && name[0] == 115 && name[1] == 56 {
        assert(name@ =~= format_name(SampleFormat::Int8, ByteOrder::Little));
        return Some((SampleFormat::Int8, ByteOrder::Little));
    }
    if n != 5 || name[4] != 101 {
        proof {
            assert forall|f: SampleFormat, o: ByteOrder| name@ != #[trigger] format_name(f, o) by {
                let x = format_name(f, o);
                assert(x.len() == 2 ==> x[0] == 115 && x[1] == 56);
                assert(x.len() == 5 || x.len() == 2);
                assert(x.len() == 5 ==> x[4] == 101);
            }
        }
        return None;
    }
    let order: Option<ByteOrder> = if name[3] == 108 {
        Some(ByteOrder::Little)
    } else if name[3] == 98 {
        Some(ByteOrder::Big)
    } else {
        None
    };
    let format: Option<SampleFormat> = if name[0] == 115 && name[1] == 49 && name[2] == 54 {
        Some(SampleFormat::Int16)
    } else if name[0] == 115 && name[1] == 50 && name[2] == 52 {
        Some(SampleFormat::Int24)
    } else if name[0] == 115 && name[1] == 51 && name[2] == 50 {
        Some(SampleFormat::Int32)
    } else if name[0] == 102 && name[1] == 51 && name[2] == 50 {
        Some(SampleFormat::Float32)
    } else if name[0] == 102 && name[1] == 54 && name[2] == 52 {
        Some(SampleFormat::Float64)
    } else {
        None
    };
    match (format, order) {
        (Some(f), Some(o)) => {
            assert(name@ =~= format_name(f, o));
            Some((f, o))
        },
        _ => {
            proof {
                assert forall|f: SampleFormat, o: ByteOrder|
                    name@ != #[trigger] format_name(f, o) by {
                    let x = format_name(f, o);
                    assert(x.len() == 5 ==> (x[3] == 108 || x[3] == 98));
                    assert(x.len() == 5 ==> {
                        ||| x[0] == 115 && x[1] == 49 && x[2] == 54
                        ||| x[0] == 115 && x[1] == 50 && x[2] == 52
                        ||| x[0] == 115 && x[1] == 51 && x[2] == 50
                        ||| x[0] == 102 && x[1] == 51 && x[2] == 50
                        ||| x[0] == 102 && x[1] == 54 && x[2] == 52
                    });
                }
            }
            None
        },
    }
}

// ---------------------------------------------------------------------
// Streams
// ---------------------------------------------------------------------

/// The description of a stream.
#[derive(Debug, Clone, Copy, PartialEq, Eq, Structural)]
pub struct PcmFormat {
    pub sample_format: SampleFormat,
    pub byte_order: ByteOrder,
    /// Number of interleaved channels.
    pub channels: u16,
    /// Frames per second.
    pub sample_rate: u32,
}

/// What is known of an open stream.
#[derive(Debug, Clone, Copy, PartialEq, Eq, Structural)]
pub struct StreamInfo {
    pub sample_rate: u32,
    pub channels: u16,
    pub bit_depth: u16,
    /// Length in frames, if it is known.
    pub total_frames: Option<u64>,
}

/// How many frames of `block` bytes there are in `bytes` bytes, at most as
/// many as a buffer of `len` samples takes.
pub open spec fn frames_spec(bytes: int, block: int, len: int, channels: int) -> int {
    if bytes / block < len / channels {
        bytes / block
    } else {
        len / channels
    }
}

impl PcmFormat {
    pub open spec fn block(self) -> int {
        self.channels * self.sample_format.width()
    }

    /// At least one channel, and a rate.
    pub open spec fn valid(self) -> bool {
        self.channels > 0 && self.sample_rate > 0
    }

    /// Sample `i` of a stream's bytes.
    pub open spec fn sample_at(self, bytes: Seq<u8>, i: int) -> Sample {
        let w = self.sample_format.width();
        sample_spec(bytes.subrange(i * w, i * w + w), self.sample_format, self.byte_order)
    }

    /// A buffer with the first `frames` frames of `bytes` in front.
    pub open spec fn decoded(self, bytes: Seq<u8>, frames: int, buffer: Seq<Sample>) -> Seq<Sample> {
        Seq::new(
            buffer.len(),
            |i: int|
                if i < frames * self.channels {
                    self.sample_at(bytes, i)
                } else {
                    buffer[i]
                },
        )
    }

    /// Bytes of a frame.
    pub fn block_align(&self) -> (n: usize)
        ensures
            n == self.block(),
            n <= 0x7_fff8,
    {
        proof {
            let c = self.channels as int;
            let w = self.sample_format.width();
            assert(0 <= c * w <= 0x7_fff8) by (nonlinear_arith)
                requires
                    0 <= c <= 0xffff,
                    0 <= w <= 8,
            ;
        }
        self.channels as usize * self.sample_format.bytes_per_sample() as usize
    }

    /// Refuses a stream without channels or without a rate.
    pub fn validate(&self) -> (r: Result<()>)
        ensures
            r is Ok <==> self.valid(),
            self.channels == 0 ==> r == Err::<(), CadenceError>(
                CadenceError::InvalidFormat(BadFormat::NoChannels),
            ),
            self.channels != 0 && self.sample_rate == 0 ==> r == Err::<(), CadenceError>(
                CadenceError::InvalidFormat(BadFormat::NoSampleRate),
            ),
    {
        if self.channels == 0 {
            return Err(CadenceError::InvalidFormat(BadFormat::NoChannels));
        }
        if self.sample_rate == 0 {
            return Err(CadenceError::InvalidFormat(BadFormat::NoSampleRate));
        }
        Ok(())
    }

    /// Where a frame starts, in bytes.
    pub fn frame_offset(&self, frame: u64) -> (r: Result<u64>)
        ensures
            frame * self.block() <= u64::MAX ==> r == Ok::<u64, CadenceError>(
                (frame * self.block()) as u64,
            ),
            frame * self.block() > u64::MAX ==> r == Err::<u64, CadenceError>(
                CadenceError::SeekOutOfRange { requested: frame, total: u64::MAX },
            ),
    {
        let block: usize = self.block_align();
        match frame.checked_mul(block as u64) {
            Some(byte) => Ok(byte),
            None => Err(CadenceError::SeekOutOfRange { requested: frame, total: u64::MAX }),
        }
    }

    /// Decodes whole frames from the front of `bytes`, as many as `buffer`
    /// takes, and gives their number. Bytes behind the last whole frame are
    /// left alone.
    pub fn decode_bytes(&self, bytes: &[u8], buffer: &mut [Sample]) -> (r: Result<usize>)
        requires
            self.valid(),
        ensures
            final(buffer)@.len() == old(buffer)@.len(),
            ({
                let len = old(buffer)@.len() as int;
                if len % self.channels as int != 0 {
                    &&& r == Err::<usize, CadenceError>(
                        CadenceError::InvalidFormat(
                            BadFormat::RaggedBuffer {
                                len: len as usize,
                                channels: self.channels as usize,
                            },
                        ),
                    )
                    &&& final(buffer)@ == old(buffer)@
                } else {
                    let n = frames_spec(
                        bytes@.len() as int,
                        self.block(),
                        len,
                        self.channels as int,
                    );
                    &&& r == Ok::<usize, CadenceError>(n as usize)
                    &&& n * self.block() <= bytes@.len()
                    &&& final(buffer)@ == self.decoded(bytes@, n, old(buffer)@)
                }
            }),
    {
        let channels: usize = self.channels as usize;
        let len: usize = buffer.len();
        let n_bytes: usize = bytes.len();
        if len % channels != 0 {
            return Err(CadenceError::InvalidFormat(BadFormat::RaggedBuffer { len, channels }));
        }
        let block: usize = self.block_align();
        let width: usize = self.sample_format.bytes_per_sample() as usize;
        assert(block >= 1) by (nonlinear_arith)
            requires
                block == channels * width,
                channels >= 1,
                width >= 1,
        ;
        let want: usize = len / channels;
        let there: usize = n_bytes / block;
        let frames: usize = if there < want {
            there
        } else {
            want
        };
        proof {
            lemma_counts(
                n_bytes as int,
                block as int,
                len as int,
                channels as int,
                width as int,
                frames as int,
            );
        }
        let total: usize = frames * channels;
        let mut i: usize = 0;
        let mut pos: usize = 0;
        while i < total
            invariant
                i <= total <= len,
                len == buffer@.len(),
                buffer@.len() == old(buffer)@.len(),
                n_bytes == bytes@.len(),
                width == self.sample_format.width(),
                pos == i * width,
                total * width <= n_bytes,
                forall|j: int| 0 <= j < i ==> #[trigger] buffer@[j] == self.sample_at(bytes@, j),
                forall|j: int| i <= j < len ==> #[trigger] buffer@[j] == old(buffer)@[j],
            decreases total - i,
        {
            assert(i * width + width <= total * width && (i + 1) * width == i * width + width)
                by (nonlinear_arith)
                requires
                    i + 1 <= total,
                    width >= 0,
            ;
            buffer[i] = convert_sample(
                &bytes[pos..pos + width],
                self.sample_format,
                self.byte_order,
            );
            i = i + 1;
            pos = pos + width;
        }
        assert(buffer@ =~= self.decoded(bytes@, frames as int, old(buffer)@));
        Ok(frames)
    }
}

/// As many frames as fit on both sides.
proof fn lemma_counts(n_bytes: int, block: int, len: int, channels: int, width: int, frames: int)
    requires
        block >= 1,
        channels >= 1,
        block == channels * width,
        n_bytes >= 0,
        len >= 0,
        frames == frames_spec(n_bytes, block, len, channels),
    ensures
        0 <= frames * channels <= len,
        frames * block <= n_bytes,
        frames * channels * width == frames * block,
{
    vstd::arithmetic::div_mod::lemma_fundamental_div_mod(n_bytes, block);
    vstd::arithmetic::div_mod::lemma_fundamental_div_mod(len, channels);
    let a = n_bytes / block;
    let b = len / channels;
    assert(a >= 0 && b >= 0) by (nonlinear_arith)
        requires
            n_bytes >= 0,
            len >= 0,
            block >= 1,
            channels >= 1,
            a == n_bytes / block,
            b == len / channels,
    ;
    assert(frames * block <= block * a && 0 <= frames * channels <= channels * b)
        by (nonlinear_arith)
        requires
            0 <= frames,
            frames <= a,
            frames <= b,
            block >= 1,
            channels >= 1,
    ;
    assert(frames * channels * width == frames * block) by (nonlinear_arith)
        requires
            block == channels * width,
    ;
}

/// Decoding goes on where it stopped: behind `k` frames, sample `i` is the one
/// that stands `k` frames later in the stream.
pub proof fn lemma_decode_in_turn(f: PcmFormat, bytes: Seq<u8>, k: int, i: int)
    requires
        f.valid(),
        k >= 0,
        i >= 0,
        k * f.block() + (i + 1) * f.sample_format.width() <= bytes.len(),
    ensures
        f.sample_at(bytes.subrange(k * f.block(), bytes.len() as int), i) == f.sample_at(
            bytes,
            k * f.channels + i,
        ),
{
    let w = f.sample_format.width();
    let c = f.channels as int;
    let a = k * f.block();
    let j = k * c + i;
    assert(a >= 0 && i * w >= 0 && j * w == a + i * w && (i + 1) * w == i * w + w)
        by (nonlinear_arith)
        requires
            a == k * (c * w),
            j == k * c + i,
            k >= 0,
            i >= 0,
            c >= 0,
            w >= 0,
    ;
    assert(bytes.subrange(a, bytes.len() as int).subrange(i * w, i * w + w) =~= bytes.subrange(
        j * w,
        j * w + w,
    ));
}

/// A stream in memory and the position in it.
pub struct PcmDecoder {
    data: Vec<u8>,
    pos: u64,
    format: PcmFormat,
    info: StreamInfo,
}

impl PcmDecoder {
    /// The bytes of the stream.
    pub closed spec fn data(&self) -> Seq<u8> {
        self.data@
    }

    /// Bytes in front of the next frame; may lie behind the end.
    pub closed spec fn pos(&self) -> int {
        self.pos as int
    }

    pub closed spec fn format(&self) -> PcmFormat {
        self.format
    }

    /// The bytes from the position on.
    pub open spec fn rest(&self) -> Seq<u8> {
        if self.pos() < self.data().len() {
            self.data().subrange(self.pos(), self.data().len() as int)
        } else {
            Seq::empty()
        }
    }

    pub closed spec fn wf(&self) -> bool {
        &&& self.format.valid()
        &&& self.info == (StreamInfo {
            sample_rate: self.format.sample_rate,
            channels: self.format.channels,
            bit_depth: (8 * self.format.sample_format.width()) as u16,
            total_frames: None,
        })
    }

    /// A decoder at the start of a stream.
    pub fn from_source(data: Vec<u8>, format: PcmFormat) -> (r: Result<PcmDecoder>)
        ensures
            r is Ok <==> format.valid(),
            r is Ok ==> {
                &&& r->Ok_0.wf()
                &&& r->Ok_0.data() == data@
                &&& r->Ok_0.pos() == 0
                &&& r->Ok_0.format() == format
            },
            format.channels == 0 ==> r == Err::<PcmDecoder, CadenceError>(
                CadenceError::InvalidFormat(BadFormat::NoChannels),
            ),
            format.channels != 0 && format.sample_rate == 0 ==> r == Err::<
                PcmDecoder,
                CadenceError,
            >(CadenceError::InvalidFormat(BadFormat::NoSampleRate)),
    {
        match format.validate() {
            Ok(()) => {},
            Err(e) => {
                return Err(e);
            },
        }
        let info = StreamInfo {
            sample_rate: format.sample_rate,
            channels: format.channels,
            bit_depth: format.sample_format.bit_depth(),
            total_frames: None,
        };
        Ok(PcmDecoder { data, pos: 0, format, info })
    }

    pub fn info(&self) -> (r: &StreamInfo)
        requires
            self.wf(),
        ensures
            r.sample_rate == self.format().sample_rate,
            r.channels == self.format().channels,
            r.bit_depth == 8 * self.format().sample_format.width(),
            r.total_frames == None::<u64>,
    {
        &self.info
    }

    /// Moves to a frame. A position behind the end has no frames.
    pub fn seek(&mut self, frame: u64) -> (r: Result<()>)
        requires
            old(self).wf(),
        ensures
            final(self).wf(),
            final(self).data() == old(self).data(),
            final(self).format() == old(self).format(),
            ({
                let byte = frame * old(self).format().block();
                if byte <= u64::MAX {
                    r is Ok && final(self).pos() == byte
                } else {
                    &&& r == Err::<(), CadenceError>(
                        CadenceError::SeekOutOfRange { requested: frame, total: u64::MAX },
                    )
                    &&& final(self).pos() == old(self).pos()
                }
            }),
    {
        match self.format.frame_offset(frame) {
            Ok(byte) => {
                self.pos = byte;
                Ok(())
            },
            Err(e) => Err(e),
        }
    }

    /// Decodes the next frames into `buffer`, as many as it takes and the
    /// stream has, and gives their number. A last frame that is cut off is
    /// dropped.
    pub fn decode(&mut self, buffer: &mut [Sample]) -> (r: Result<usize>)
        requires
            old(self).wf(),
        ensures
            final(self).wf(),
            final(self).data() == old(self).data(),
            final(self).format() == old(self).format(),
            final(buffer)@.len() == old(buffer)@.len(),
            ({
                let f = old(self).format();
                let len = old(buffer)@.len() as int;
                if len % f.channels as int != 0 {
                    &&& r == Err::<usize, CadenceError>(
                        CadenceError::InvalidFormat(
                            BadFormat::RaggedBuffer {
                                len: len as usize,
                                channels: f.channels as usize,
                            },
                        ),
                    )
                    &&& final(buffer)@ == old(buffer)@
                    &&& final(self).pos() == old(self).pos()
                } else {
                    let n = frames_spec(
                        old(self).rest().len() as int,
                        f.block(),
                        len,
                        f.channels as int,
                    );
                    &&& r == Ok::<usize, CadenceError>(n as usize)
                    &&& final(buffer)@ == f.decoded(old(self).rest(), n, old(buffer)@)
                    &&& final(self).pos() == old(self).pos() + n * f.block()
                }
            }),
    {
        let len: usize = self.data.len();
        let ghost rest = self.rest();
        let start: usize = if self.pos < len as u64 {
            self.pos as usize
        } else {
            len
        };
        assert(self.data@.subrange(start as int, len as int) =~= rest);
        let block: usize = self.format.block_align();
        let r: Result<usize> = self.format.decode_bytes(
            &self.data.as_slice()[start..len],
            buffer,
        );
        match r {
            Ok(n) => {
                proof {
                    assert(n * block <= rest.len());
                    assert(n * block >= 0) by (nonlinear_arith)
                        requires
                            n >= 0,
                            block >= 0,
                    ;
                }
                let used: usize = n * block;
                self.pos = self.pos + used as u64;
                Ok(n)
            },
            Err(e) => Err(e),
        }
    }
}

/// The bytes of a number as a stream holds them.
pub open spec fn stream_bytes(v: int, f: PcmFormat) -> Seq<u8> {
    if f.byte_order == ByteOrder::Little {
        little_bytes(v, f.sample_format.width())
    } else {
        big_bytes(v, f.sample_format.width())
    }
}

/// The bytes of some numbers, one behind the other.
pub open spec fn stream_of(v: Seq<int>, f: PcmFormat) -> Seq<u8>
    decreases v.len(),
{
    if v.len() == 0 {
        Seq::empty()
    } else {
        stream_of(v.drop_last(), f) + stream_bytes(v.last(), f)
    }
}

/// A number that a format can hold; that of a floating-point number is its
/// bits.
pub open spec fn in_range(v: int, format: SampleFormat) -> bool {
    match format {
        SampleFormat::Int8 => -0x80 <= v < 0x80,
        SampleFormat::Int16 => -0x8000 <= v < 0x8000,
        SampleFormat::Int24 => -0x80_0000 <= v < 0x80_0000,
        SampleFormat::Int32 => -0x8000_0000 <= v < 0x8000_0000,
        SampleFormat::Float32 => 0 <= v < 0x1_0000_0000,
        SampleFormat::Float64 => 0 <= v < 0x1_0000_0000_0000_0000,
    }
}

/// The sample that a number stands for.
pub open spec fn sample_of(v: int, format: SampleFormat) -> Sample {
    match format {
        SampleFormat::Float32 => Sample::Float32(v as u32),
        SampleFormat::Float64 => Sample::Float64(v as u64),
        _ => Sample::Int(v as i32),
    }
}

proof fn lemma_stream_at(v: Seq<int>, f: PcmFormat, i: int)
    requires
        0 <= i < v.len(),
    ensures
        stream_of(v, f).len() == v.len() * f.sample_format.width(),
        (i + 1) * f.sample_format.width() <= stream_of(v, f).len(),
        0 <= i * f.sample_format.width(),
        stream_of(v, f).subrange(
            i * f.sample_format.width(),
            i * f.sample_format.width() + f.sample_format.width(),
        ) == stream_bytes(v[i], f),
    decreases v.len(),
{
    let w = f.sample_format.width();
    let n = v.len() as int;
    let a = stream_of(v.drop_last(), f);
    lemma_stream_len(v.drop_last(), f);
    assert(n * w == (n - 1) * w + w && 0 <= i * w && (i + 1) * w == i * w + w && (i < n - 1 ==> (i
        + 1) * w <= (n - 1) * w)) by (nonlinear_arith)
        requires
            0 <= i < n,
            w >= 0,
    ;
    if i < n - 1 {
        lemma_stream_at(v.drop_last(), f, i);
        assert(stream_of(v, f).subrange(i * w, i * w + w) =~= a.subrange(i * w, i * w + w));
    } else {
        assert(stream_of(v, f).subrange(i * w, i * w + w) =~= stream_bytes(v[i], f));
    }
}

proof fn lemma_stream_len(v: Seq<int>, f: PcmFormat)
    ensures
        stream_of(v, f).len() == v.len() * f.sample_format.width(),
    decreases v.len(),
{
    let w = f.sample_format.width();
    let n = v.len() as int;
    if n > 0 {
        lemma_stream_len(v.drop_last(), f);
        assert(n * w == (n - 1) * w + w) by (nonlinear_arith);
    } else {
        assert(0 * w == 0) by (nonlinear_arith);
    }
}

/// A stream of numbers is decoded to these numbers, in their order, as many
/// whole frames as there are and as the buffer takes; the rest of the buffer
/// stays.
pub proof fn lemma_stream_comes_back(f: PcmFormat, v: Seq<int>, buffer: Seq<Sample>, n: int)
    requires
        f.valid(),
        forall|i: int| 0 <= i < v.len() ==> in_range(#[trigger] v[i], f.sample_format),
        0 <= n,
        n * f.channels <= v.len(),
        n * f.channels <= buffer.len(),
    ensures
        f.decoded(stream_of(v, f), n, buffer).len() == buffer.len(),
        forall|i: int|
            0 <= i < n * f.channels ==> #[trigger] f.decoded(stream_of(v, f), n, buffer)[i]
                == sample_of(v[i], f.sample_format),
        forall|i: int|
            n * f.channels <= i < buffer.len() ==> #[trigger] f.decoded(
                stream_of(v, f),
                n,
                buffer,
            )[i] == buffer[i],
{
    let d = f.decoded(stream_of(v, f), n, buffer);
    assert forall|i: int| 0 <= i < n * f.channels implies #[trigger] d[i] == sample_of(
        v[i],
        f.sample_format,
    ) by {
        lemma_stream_at(v, f, i);
        assert(in_range(v[i], f.sample_format));
        lemma_numbers_come_back(v[i], f.sample_format);
    }
}

/// A call decodes whole frames: as many as the buffer takes, unless the bytes
/// end before.
pub proof fn lemma_frame_count(bytes: int, f: PcmFormat, len: int)
    requires
        f.valid(),
        bytes >= 0,
        len >= 0,
        len % f.channels as int == 0,
    ensures
        ({
            let n = frames_spec(bytes, f.block(), len, f.channels as int);
            &&& 0 <= n
            &&& n * f.channels <= len
            &&& n * f.block() <= bytes
            &&& n * f.channels == len || bytes < (n + 1) * f.block()
            &&& f.block() == f.channels * f.sample_format.width()
        }),
{
    let b = f.block();
    let c = f.channels as int;
    assert(b > 0) by (nonlinear_arith)
        requires
            b == c * f.sample_format.width(),
            c > 0,
            f.sample_format.width() > 0,
    ;
    let p = bytes / b;
    let q = len / c;
    vstd::arithmetic::div_mod::lemma_fundamental_div_mod(bytes, b);
    vstd::arithmetic::div_mod::lemma_fundamental_div_mod(len, c);
    let n = frames_spec(bytes, b, len, c);
    assert(n == p || n == q);
    assert(0 <= p && 0 <= q) by (nonlinear_arith)
        requires
            p == bytes / b,
            q == len / c,
            b > 0,
            c > 0,
            bytes >= 0,
            len >= 0,
    ;
    assert(n * c <= len && n * b <= bytes && (n * c == len || bytes < (n + 1) * b))
        by (nonlinear_arith)
        requires
            n <= p,
            n <= q,
            n == p || n == q,
            b * p <= bytes < b * p + b,
            len == c * q,
            b > 0,
            c > 0,
    ;
}

/// A name tells its format, and its byte order if a sample has more than one
/// byte.
pub proof fn lemma_names_differ(f: SampleFormat, o: ByteOrder, g: SampleFormat, p: ByteOrder)
    requires
        format_name(f, o) == format_name(g, p),
    ensures
        f == g,
        f.width() > 1 ==> o == p,
{
    let x = format_name(f, o);
    let y = format_name(g, p);
    assert(x.len() == y.len());
    assert(x[0] == y[0] && x[1] == y[1]);
    if x.len() == 5 {
        assert(x[2] == y[2] && x[3] == y[3]);
    }
}

} // verus!
