//! The error type of the library.
use vstd::prelude::*;

verus! {

/// What made a stream or a call inconsistent.
#[derive(Clone, Copy, Debug, PartialEq, Eq, Structural)]
pub enum Corruption {
    /// An internal rate in kHz other than 8, 12 or 16.
    InternalRateKhz(u32),
    /// An internal rate in Hz that maps to none of 8, 12 and 16 kHz.
    InternalRateHz(i32),
    /// An output rate outside 8 to 48 kHz.
    ApiRateHz(i32),
    /// Coded data was announced but no range decoder was handed over.
    NoRangeDecoder,
    /// A probability table without a terminating zero.
    UnterminatedTable,
}

/// What the library does not do.
#[derive(Clone, Copy, Debug, PartialEq, Eq, Structural)]
pub enum Unsupported {
    /// An output channel count other than 1 or 2.
    OutputChannels(usize),
    /// A payload duration other than 0, 10, 20, 40 or 60 ms.
    PayloadMs(i32),
    /// A pair of input and output rates without a resampling kernel.
    RatePair(i32, i32),
    /// An input that is not a whole number of milliseconds long.
    PartialMillisecond(usize),
}

/// What is wrong with a stream description.
#[derive(Clone, Copy, Debug, PartialEq, Eq, Structural)]
pub enum BadFormat {
    /// A stream without channels.
    NoChannels,
    /// A stream with a sample rate of zero.
    NoSampleRate,
    /// A buffer whose length is no multiple of the channel count.
    RaggedBuffer { len: usize, channels: usize },
}

#[derive(Clone, Copy, Debug, PartialEq, Eq, Structural)]
pub enum CadenceError {
    CorruptData(Corruption),
    UnsupportedFeature(Unsupported),
    InvalidFormat(BadFormat),
    BufferTooSmall { needed: usize, provided: usize },
    SeekOutOfRange { requested: u64, total: u64 },
}

pub type Result<T> = core::result::Result<T, CadenceError>;

impl CadenceError {
    /// The text of an error, without the values that it carries.
    pub open spec fn message_spec(self) -> Seq<char> {
        match self {
            CadenceError::CorruptData(c) => match c {
                Corruption::InternalRateKhz(_) => "unsupported SILK internal sample rate"@,
                Corruption::InternalRateHz(_) => "invalid SILK internal sample rate"@,
                Corruption::ApiRateHz(_) => "invalid SILK API sample rate"@,
                Corruption::NoRangeDecoder => "SILK decode requires a range decoder"@,
                Corruption::UnterminatedTable => "probability table without terminator"@,
            },
            CadenceError::UnsupportedFeature(u) => match u {
                Unsupported::OutputChannels(_) => "SILK decoder needs 1 or 2 output channels"@,
                Unsupported::PayloadMs(_) => "unsupported SILK payload size"@,
                Unsupported::RatePair(_, _) => "SILK resampler rate pair not supported"@,
                Unsupported::PartialMillisecond(_) =>
                    "SILK resampler input length must be a whole number of milliseconds"@,
            },
            CadenceError::InvalidFormat(f) => match f {
                BadFormat::NoChannels => "PCM stream must have at least 1 channel"@,
                BadFormat::NoSampleRate => "PCM stream must have a non-zero sample rate"@,
                BadFormat::RaggedBuffer { .. } =>
                    "buffer length is not a multiple of the channel count"@,
            },
            CadenceError::BufferTooSmall { .. } => "buffer too small"@,
            CadenceError::SeekOutOfRange { .. } => "seek out of range"@,
        }
    }

    pub fn message(&self) -> (s: &'static str)
        ensures
            s@ == self.message_spec(),
    {
        match self {
            CadenceError::CorruptData(c) => match c {
                Corruption::InternalRateKhz(_) => "unsupported SILK internal sample rate",
                Corruption::InternalRateHz(_) => "invalid SILK internal sample rate",
                Corruption::ApiRateHz(_) => "invalid SILK API sample rate",
                Corruption::NoRangeDecoder => "SILK decode requires a range decoder",
                Corruption::UnterminatedTable => "probability table without terminator",
            },
            CadenceError::UnsupportedFeature(u) => match u {
                Unsupported::OutputChannels(_) => "SILK decoder needs 1 or 2 output channels",
                Unsupported::PayloadMs(_) => "unsupported SILK payload size",
                Unsupported::RatePair(_, _) => "SILK resampler rate pair not supported",
                Unsupported::PartialMillisecond(_) =>
                    "SILK resampler input length must be a whole number of milliseconds",
            },
            CadenceError::InvalidFormat(f) => match f {
                BadFormat::NoChannels => "PCM stream must have at least 1 channel",
                BadFormat::NoSampleRate => "PCM stream must have a non-zero sample rate",
                BadFormat::RaggedBuffer { .. } =>
                    "buffer length is not a multiple of the channel count",
            },
            CadenceError::BufferTooSmall { .. } => "buffer too small",
            CadenceError::SeekOutOfRange { .. } => "seek out of range",
        }
    }
}

} // verus!
