//! Raw PCM streams.
use cadence::error::{BadFormat, CadenceError};
use cadence::pcm::{
    convert_sample, parse_format_name, ByteOrder, PcmDecoder, PcmFormat, Sample, SampleFormat,
};

const SILENCE: Sample = Sample::Int(0);

/// A sample on the scale from -1 to 1.
fn scaled(sample: Sample, bits: u16) -> f32 {
    match sample {
        Sample::Int(v) => (v as f64 / (1i64 << (bits - 1)) as f64) as f32,
        Sample::Float32(v) => f32::from_bits(v),
        Sample::Float64(v) => f64::from_bits(v) as f32,
    }
}

fn decode_all(mut dec: PcmDecoder, cap_frames: usize) -> Vec<f32> {
    let ch = dec.info().channels as usize;
    let bits = dec.info().bit_depth;
    let mut out = Vec::new();
    let mut buf = vec![SILENCE; cap_frames * ch];
    loop {
        let frames = dec.decode(&mut buf).expect("decode must not fail");
        if frames == 0 {
            break;
        }
        out.extend(buf[..frames * ch].iter().map(|&s| scaled(s, bits)));
    }
    out
}

#[test]
fn int16_little_endian_mono() {
    let data: Vec<u8> = [0i16, 16384, -16384, -32768, 32767]
        .iter()
        .flat_map(|v| v.to_le_bytes())
        .collect();
    let fmt = PcmFormat {
        sample_format: SampleFormat::Int16,
        byte_order: ByteOrder::Little,
        channels: 1,
        sample_rate: 44_100,
    };
    let dec = PcmDecoder::from_source(data, fmt).unwrap();
    assert_eq!(dec.info().bit_depth, 16);
    let got = decode_all(dec, 4);
    let want = [0.0, 0.5, -0.5, -1.0, 32767.0 / 32768.0];
    assert_eq!(got, want);
}

#[test]
fn int24_big_endian_stereo() {
    let data = vec![0x40, 0x00, 0x00, 0xC0, 0x00, 0x00];
    let fmt = PcmFormat {
        sample_format: SampleFormat::Int24,
        byte_order: ByteOrder::Big,
        channels: 2,
        sample_rate: 48_000,
    };
    let dec = PcmDecoder::from_source(data, fmt).unwrap();
    let got = decode_all(dec, 8);
    assert_eq!(got, vec![0.5, -0.5]);
}

#[test]
fn float32_big_endian() {
    let data = 0.25f32.to_be_bytes().to_vec();
    let fmt = PcmFormat {
        sample_format: SampleFormat::Float32,
        byte_order: ByteOrder::Big,
        channels: 1,
        sample_rate: 48_000,
    };
    let dec = PcmDecoder::from_source(data, fmt).unwrap();
    assert_eq!(decode_all(dec, 4), vec![0.25]);
}

#[test]
fn truncated_frame_is_dropped() {
    let mut data = vec![0u8; 5];
    data[0] = 0x01;
    let fmt = PcmFormat {
        sample_format: SampleFormat::Int16,
        byte_order: ByteOrder::Little,
        channels: 1,
        sample_rate: 8_000,
    };
    let dec = PcmDecoder::from_source(data, fmt).unwrap();
    assert_eq!(decode_all(dec, 16).len(), 2);
}

#[test]
fn seek_then_decode() {
    let data: Vec<u8> = (0i16..16).flat_map(|v| v.to_le_bytes()).collect();
    let fmt = PcmFormat {
        sample_format: SampleFormat::Int16,
        byte_order: ByteOrder::Little,
        channels: 1,
        sample_rate: 8_000,
    };
    let mut dec = PcmDecoder::from_source(data, fmt).unwrap();
    dec.seek(10).unwrap();
    let mut buf = [SILENCE; 2];
    assert_eq!(dec.decode(&mut buf).unwrap(), 2);
    assert_eq!(scaled(buf[0], 16), 10.0 / 32768.0);
    assert_eq!(scaled(buf[1], 16), 11.0 / 32768.0);
}

#[test]
fn buffer_not_multiple_of_channels_is_error() {
    let fmt = PcmFormat {
        sample_format: SampleFormat::Int16,
        byte_order: ByteOrder::Little,
        channels: 2,
        sample_rate: 8_000,
    };
    let mut dec = PcmDecoder::from_source(vec![0u8; 64], fmt).unwrap();
    let mut buf = [SILENCE; 3];
    assert!(dec.decode(&mut buf).is_err());
}

#[test]
fn empty_stream_decodes_zero_frames() {
    let fmt = PcmFormat {
        sample_format: SampleFormat::Int16,
        byte_order: ByteOrder::Little,
        channels: 1,
        sample_rate: 8_000,
    };
    let mut dec = PcmDecoder::from_source(Vec::new(), fmt).unwrap();
    let mut buf = [SILENCE; 8];
    assert_eq!(dec.decode(&mut buf).unwrap(), 0);
}

#[test]
fn zero_channel_format_rejected() {
    let fmt = PcmFormat {
        sample_format: SampleFormat::Int16,
        byte_order: ByteOrder::Little,
        channels: 0,
        sample_rate: 8_000,
    };
    assert!(PcmDecoder::from_source(Vec::new(), fmt).is_err());
}

fn format_of(sample_format: SampleFormat, byte_order: ByteOrder) -> PcmFormat {
    PcmFormat {
        sample_format,
        byte_order,
        channels: 1,
        sample_rate: 8_000,
    }
}

#[test]
fn every_width_and_order() {
    let bytes = [0x80u8, 0x01, 0x02, 0x03, 0x04, 0x05, 0x06, 0xff];
    let cases = [
        (SampleFormat::Int8, 1, Sample::Int(-128), Sample::Int(-128)),
        (SampleFormat::Int16, 2, Sample::Int(0x0180), Sample::Int(-0x7fff)),
        (SampleFormat::Int24, 3, Sample::Int(0x02_0180), Sample::Int(-0x7f_fefe)),
        (
            SampleFormat::Int32,
            4,
            Sample::Int(0x0302_0180),
            Sample::Int(-0x7ffe_fdfd),
        ),
        (
            SampleFormat::Float32,
            4,
            Sample::Float32(0x0302_0180),
            Sample::Float32(0x8001_0203),
        ),
        (
            SampleFormat::Float64,
            8,
            Sample::Float64(0xff06_0504_0302_0180),
            Sample::Float64(0x8001_0203_0405_06ff),
        ),
    ];
    for (format, width, little, big) in cases {
        assert_eq!(format.bytes_per_sample() as usize, width);
        assert_eq!(format.bit_depth() as usize, 8 * width);
        assert_eq!(convert_sample(&bytes[..width], format, ByteOrder::Little), little);
        assert_eq!(convert_sample(&bytes[..width], format, ByteOrder::Big), big);
        let mut mirrored = bytes[..width].to_vec();
        mirrored.reverse();
        assert_eq!(convert_sample(&mirrored, format, ByteOrder::Little), big);
    }
}

#[test]
fn names_of_sample_formats() {
    for (name, format, order) in [
        ("s8", SampleFormat::Int8, ByteOrder::Little),
        ("s16le", SampleFormat::Int16, ByteOrder::Little),
        ("s16be", SampleFormat::Int16, ByteOrder::Big),
        ("s24le", SampleFormat::Int24, ByteOrder::Little),
        ("s24be", SampleFormat::Int24, ByteOrder::Big),
        ("s32le", SampleFormat::Int32, ByteOrder::Little),
        ("s32be", SampleFormat::Int32, ByteOrder::Big),
        ("f32le", SampleFormat::Float32, ByteOrder::Little),
        ("f32be", SampleFormat::Float32, ByteOrder::Big),
        ("f64le", SampleFormat::Float64, ByteOrder::Little),
        ("f64be", SampleFormat::Float64, ByteOrder::Big),
    ] {
        assert_eq!(parse_format_name(name.as_bytes()), Some((format, order)));
    }
    for name in ["", "s", "s8le", "s16", "s16xe", "u16le", "f16le", "s64le", "S16LE", "s16lee"] {
        assert_eq!(parse_format_name(name.as_bytes()), None, "{name}");
    }
}

#[test]
fn errors_of_streams() {
    let mut format = format_of(SampleFormat::Int16, ByteOrder::Little);
    assert_eq!(format.block_align(), 2);
    assert_eq!(format.validate(), Ok(()));
    format.sample_rate = 0;
    assert_eq!(
        format.validate(),
        Err(CadenceError::InvalidFormat(BadFormat::NoSampleRate))
    );
    format.channels = 0;
    assert_eq!(
        format.validate(),
        Err(CadenceError::InvalidFormat(BadFormat::NoChannels))
    );
    format.channels = 2;
    format.sample_rate = 8_000;
    let mut dec = PcmDecoder::from_source(vec![1, 2, 3, 4], format).unwrap();
    let mut buf = [SILENCE; 3];
    assert_eq!(
        dec.decode(&mut buf),
        Err(CadenceError::InvalidFormat(BadFormat::RaggedBuffer {
            len: 3,
            channels: 2
        }))
    );
    assert_eq!(
        dec.seek(u64::MAX),
        Err(CadenceError::SeekOutOfRange {
            requested: u64::MAX,
            total: u64::MAX
        })
    );
    assert_eq!(dec.decode(&mut buf[..2]), Ok(1));
    assert_eq!(buf, [Sample::Int(0x0201), Sample::Int(0x0403), SILENCE]);
}

#[test]
fn seeking_behind_the_end_gives_no_frames() {
    let format = format_of(SampleFormat::Int16, ByteOrder::Big);
    let mut dec = PcmDecoder::from_source(vec![1, 2, 3, 4], format).unwrap();
    let mut buf = [SILENCE; 4];
    dec.seek(7).unwrap();
    assert_eq!(dec.decode(&mut buf), Ok(0));
    dec.seek(1).unwrap();
    assert_eq!(dec.decode(&mut buf), Ok(1));
    assert_eq!(buf[0], Sample::Int(0x0304));
}

#[test]
fn decoding_goes_on_where_it_stopped() {
    let data: Vec<u8> = (0..60u8).collect();
    let mut format = format_of(SampleFormat::Int24, ByteOrder::Big);
    format.channels = 2;
    let mut at_once = PcmDecoder::from_source(data.clone(), format).unwrap();
    let mut all = vec![SILENCE; 40];
    assert_eq!(at_once.decode(&mut all), Ok(10));
    let mut in_turn = PcmDecoder::from_source(data, format).unwrap();
    let mut parts = Vec::new();
    for frames in [1usize, 4, 2, 8] {
        let mut buf = vec![SILENCE; 2 * frames];
        let n = in_turn.decode(&mut buf).unwrap();
        parts.extend_from_slice(&buf[..2 * n]);
    }
    assert_eq!(parts, all[..20]);
}

#[test]
fn frames_start_at_whole_blocks() {
    let mut format = format_of(SampleFormat::Int24, ByteOrder::Big);
    format.channels = 2;
    assert_eq!(format.frame_offset(7), Ok(42));
    assert_eq!(
        format.frame_offset(u64::MAX / 3),
        Err(CadenceError::SeekOutOfRange {
            requested: u64::MAX / 3,
            total: u64::MAX
        })
    );
}
