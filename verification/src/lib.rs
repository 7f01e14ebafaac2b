//! Fixed-point SILK speech decoding, raw PCM interpretation and a
//! deterministic generator for corruption tests, with every function
//! proved against its contract.
pub mod channel;
pub mod coding;
pub mod decode_indices;
pub mod decoder;
pub mod error;
pub mod excitation;
pub mod frame;
pub mod framing;
pub mod fuzz;
pub mod gains;
pub mod nlsf;
pub mod outcome;
pub mod output;
pub mod payload;
pub mod pcm;
pub mod pitch;
pub mod plc;
pub mod range;
pub mod resampler;
pub mod restart;
pub mod sigproc;
pub mod silence;
pub mod spelling;
pub mod stereo;
pub mod stream;
pub mod synthesis;
pub mod tables;
