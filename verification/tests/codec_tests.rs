//! End-to-end encode/decode tests over the 16-bit integer sample interface,
//! with float conversion done here at the edge as an application would.

use libflo_audio::{Decoder, Encoder, FloError, FrameType, Reader};

fn quantize(samples: &[f32]) -> Vec<i32> {
    samples
        .iter()
        .map(|&s| (s * 32767.0).clamp(-32768.0, 32767.0).round() as i32)
        .collect()
}

fn dequantize(samples: &[i32]) -> Vec<f32> {
    samples.iter().map(|&s| s as f32 / 32767.0).collect()
}

fn verify_lossless(original: &[f32], decoded: &[f32]) {
    let max_quantization_error = 1.0 / 32767.0 + 0.000001;
    for (orig, dec) in original.iter().zip(decoded.iter()) {
        assert!(
            (orig - dec).abs() <= max_quantization_error,
            "error {} exceeds quantization limit",
            (orig - dec).abs()
        );
    }
}

#[test]
fn test_encoder_new() {
    let encoder = Encoder::new(44100, 2, 16);
    let samples: Vec<f32> = vec![0.5; 44100 * 2];
    let result = encoder.encode(&quantize(&samples), &[]);
    assert!(result.is_ok());
}

#[test]
fn test_encoder_with_compression() {
    let encoder = Encoder::new(44100, 1, 16).with_compression(9);
    let samples: Vec<f32> = vec![0.5; 44100];
    let result = encoder.encode(&quantize(&samples), &[]);
    assert!(result.is_ok());
}

#[test]
fn test_encoder_with_metadata() {
    let encoder = Encoder::new(44100, 1, 16);
    let samples: Vec<f32> = vec![0.1; 44100];
    let metadata = b"test metadata bytes";
    let flo_data = encoder.encode(&quantize(&samples), metadata).unwrap();
    assert!(!flo_data.is_empty());
}

#[test]
fn test_decoder_roundtrip_mono() {
    let sample_rate = 44100u32;
    let samples: Vec<f32> = (0..sample_rate as usize)
        .map(|i| (i as f32 * 0.01).sin() * 0.5)
        .collect();

    let encoder = Encoder::new(sample_rate, 1, 16);
    let flo_data = encoder.encode(&quantize(&samples), &[]).expect("encoding failed");
    let decoder = Decoder::new();
    let decoded = dequantize(&decoder.decode(&flo_data).expect("decoding failed"));

    assert_eq!(decoded.len(), samples.len());
    verify_lossless(&samples, &decoded);
}

#[test]
fn test_decoder_roundtrip_stereo() {
    let sample_rate = 44100u32;
    let mut samples = Vec::with_capacity(sample_rate as usize * 2);
    for i in 0..sample_rate as usize {
        samples.push((i as f32 * 0.01).sin() * 0.5);
        samples.push((i as f32 * 0.01).cos() * 0.5);
    }

    let encoder = Encoder::new(sample_rate, 2, 16);
    let flo_data = encoder.encode(&quantize(&samples), &[]).expect("encoding failed");
    let decoder = Decoder::new();
    let decoded = dequantize(&decoder.decode(&flo_data).expect("decoding failed"));

    assert_eq!(decoded.len(), samples.len());
    verify_lossless(&samples, &decoded);
}

#[test]
fn test_integer_roundtrip_exact() {
    // For samples already representable in 16 bits the round trip is
    // bit-exact.
    let samples: Vec<i32> = (0..44100).map(|i| ((i * 31) % 65536) - 32768).collect();
    let encoder = Encoder::new(44100, 1, 16);
    let flo_data = encoder.encode(&samples, &[]).unwrap();
    let decoded = Decoder::new().decode(&flo_data).unwrap();
    assert_eq!(decoded, samples);
}

#[test]
fn test_silent_mono() {
    // 44100 samples of silence: one silence frame, total_frames = 1, all
    // decoded samples zero, and the file size adds up exactly: magic,
    // header, TOC, and a frame that is only its envelope.
    let samples: Vec<i32> = vec![0; 44100];
    let encoder = Encoder::new(44100, 1, 16);
    let flo_data = encoder.encode(&samples, &[]).unwrap();

    let file = Reader::new().read(&flo_data).unwrap();
    assert_eq!(file.header.total_frames, 1);
    assert_eq!(file.frames.len(), 1);
    assert_eq!(file.frames[0].frame_type, 0);
    // frame envelope: 6 bytes + one 4-byte empty channel prefix
    let frame_overhead = 6 + 4;
    assert_eq!(flo_data.len(), 4 + 66 + 24 + frame_overhead);

    let decoded = Decoder::new().decode(&flo_data).unwrap();
    assert_eq!(decoded.len(), 44100);
    assert!(decoded.iter().all(|&s| s == 0));
}

#[test]
fn test_constant_mono() {
    // 44100 samples of 0.5 decode back within one quantization step.
    let samples: Vec<f32> = vec![0.5; 44100];
    let encoder = Encoder::new(44100, 1, 16);
    let flo_data = encoder.encode(&quantize(&samples), &[]).unwrap();
    let decoded = dequantize(&Decoder::new().decode(&flo_data).unwrap());
    for &y in &decoded {
        assert!((y - 0.5).abs() < 1.0 / 32767.0 + 1e-6);
    }
}

#[test]
fn test_stereo_sine_roundtrip() {
    // A sine/cosine stereo second at level 5 round trips within
    // quantization error. (Its side channel is as energetic as its
    // channels, so the variance rule leaves it in left/right coding.)
    let sample_rate = 44100usize;
    let mut samples = Vec::with_capacity(sample_rate * 2);
    for i in 0..sample_rate {
        let t = i as f32 / sample_rate as f32;
        samples.push((2.0 * std::f32::consts::PI * 440.0 * t).sin() * 0.5);
        samples.push((2.0 * std::f32::consts::PI * 440.0 * t).cos() * 0.5);
    }
    let encoder = Encoder::new(44100, 2, 16).with_compression(5);
    let flo_data = encoder.encode(&quantize(&samples), &[]).unwrap();

    let decoded = dequantize(&Decoder::new().decode(&flo_data).unwrap());
    verify_lossless(&samples, &decoded);
}

#[test]
fn test_stereo_correlated_mid_side() {
    // Strongly correlated channels make the side channel quiet, so the
    // encoder chooses mid-side coding, and the round trip is unharmed.
    let sample_rate = 44100usize;
    let mut samples = Vec::with_capacity(sample_rate * 2);
    for i in 0..sample_rate {
        let t = i as f32 / sample_rate as f32;
        let v = (2.0 * std::f32::consts::PI * 440.0 * t).sin() * 0.5;
        samples.push(v);
        samples.push(v * 0.9);
    }
    let encoder = Encoder::new(44100, 2, 16).with_compression(5);
    let flo_data = encoder.encode(&quantize(&samples), &[]).unwrap();

    let file = Reader::new().read(&flo_data).unwrap();
    assert_eq!(file.frames[0].flags & 1, 1, "mid-side flag not set");

    let decoded = dequantize(&Decoder::new().decode(&flo_data).unwrap());
    verify_lossless(&samples, &decoded);
}

#[test]
fn test_single_sample() {
    // A single-sample input encodes and decodes back to the same sample.
    let samples: Vec<i32> = vec![12345];
    let encoder = Encoder::new(44100, 1, 16);
    let flo_data = encoder.encode(&samples, &[]).unwrap();
    let decoded = Decoder::new().decode(&flo_data).unwrap();
    assert_eq!(decoded, samples);
}

#[test]
fn test_zero_channels_rejected() {
    // A file whose header declares zero channels is rejected at decode.
    let samples: Vec<i32> = vec![0; 100];
    let encoder = Encoder::new(44100, 1, 16);
    let mut flo_data = encoder.encode(&samples, &[]).unwrap();
    flo_data[12] = 0; // the channel-count byte of the header
    let r = Reader::new().read(&flo_data);
    assert_eq!(r.unwrap_err(), FloError::ZeroChannels);
}

#[test]
fn test_crc_failure_validate_false_decode_ok() {
    // Corrupting a data byte makes validate false, but decoding still
    // succeeds as long as the frames parse.
    let samples: Vec<i32> = (0..44100).map(|i| (i % 3000) - 1500).collect();
    let encoder = Encoder::new(44100, 1, 16);
    let mut flo_data = encoder.encode(&samples, &[]).unwrap();
    assert!(libflo_audio::validate(&flo_data));

    // flip one bit deep inside the DATA chunk (after header + TOC + frame
    // header) without touching structure-critical bytes
    let file = Reader::new().read(&flo_data).unwrap();
    let data_start = 70 + file.header.toc_size as usize;
    let target = data_start + 40;
    flo_data[target] ^= 0x01;

    assert!(!libflo_audio::validate(&flo_data));
    let decoded = Decoder::new().decode(&flo_data);
    assert!(decoded.is_ok());
}

#[test]
fn test_truncation_fails_parsing() {
    // Truncation anywhere before the final metadata byte fails parsing;
    // trailing bytes after the metadata are ignored.
    let samples: Vec<i32> = (0..4410).map(|i| (i % 100) - 50).collect();
    let encoder = Encoder::new(4410, 1, 16);
    let flo_data = encoder.encode(&samples, b"metadata tail").unwrap();
    let reader = Reader::new();

    for cut in [1, 4, 69, 70, flo_data.len() / 2, flo_data.len() - 1] {
        let truncated = &flo_data[..cut];
        assert!(reader.read(truncated).is_err(), "cut at {} parsed", cut);
    }

    let mut extended = flo_data.clone();
    extended.extend_from_slice(b"trailing junk");
    let file = reader.read(&extended).unwrap();
    assert_eq!(file.metadata, b"metadata tail".to_vec());
}

#[test]
fn test_validate_encoded_files() {
    // validate is true for every file the encoder produces.
    let cases: Vec<Vec<i32>> = vec![
        vec![0; 1000],
        (0..44100).map(|i| (i % 200) - 100).collect(),
        vec![32767, -32768, 0, 1, -1],
    ];
    for samples in cases {
        let encoder = Encoder::new(44100, 1, 16);
        let flo_data = encoder.encode(&samples, b"m").unwrap();
        assert!(libflo_audio::validate(&flo_data));
    }
}

#[test]
fn test_multi_frame_roundtrip() {
    // More than one second of audio spans several frames and still round
    // trips exactly.
    let samples: Vec<i32> = (0..10000).map(|i| ((i * 119) % 30000) - 15000).collect();
    let encoder = Encoder::new(4000, 1, 16);
    let flo_data = encoder.encode(&samples, &[]).unwrap();
    let file = Reader::new().read(&flo_data).unwrap();
    assert_eq!(file.header.total_frames, 3);
    let decoded = Decoder::new().decode(&flo_data).unwrap();
    assert_eq!(decoded, samples);
}

#[test]
fn test_compression_levels_roundtrip() {
    let samples: Vec<i32> = (0..8000)
        .map(|i| (((i as f64) * 0.05).sin() * 12000.0) as i32)
        .collect();
    for level in [0u8, 1, 3, 5, 9] {
        let encoder = Encoder::new(8000, 1, 16).with_compression(level);
        let flo_data = encoder.encode(&samples, &[]).unwrap();
        let decoded = Decoder::new().decode(&flo_data).unwrap();
        assert_eq!(decoded, samples, "level {}", level);
    }
}

#[test]
fn test_header_fields() {
    let samples: Vec<i32> = vec![100; 4410];
    let encoder = Encoder::new(44100, 1, 16).with_compression(7);
    let flo_data = encoder.encode(&samples, &[]).unwrap();
    let file = Reader::new().read(&flo_data).unwrap();
    assert_eq!(file.header.version_major, 1);
    assert_eq!(file.header.sample_rate, 44100);
    assert_eq!(file.header.channels, 1);
    assert_eq!(file.header.bit_depth, 16);
    assert_eq!(file.header.compression_level, 7);
    assert_eq!(file.header.header_size, 66);
    assert_eq!(file.header.meta_size, 0);
    assert_eq!(file.header.extra_size, 0);
}

#[test]
fn test_bad_magic_rejected() {
    let samples: Vec<i32> = vec![0; 100];
    let encoder = Encoder::new(44100, 1, 16);
    let mut flo_data = encoder.encode(&samples, &[]).unwrap();
    flo_data[0] = b'X';
    assert_eq!(Reader::new().read(&flo_data).unwrap_err(), FloError::BadMagic);
}

#[test]
fn test_frame_type_conversion() {
    assert_eq!(FrameType::from_byte(0), FrameType::Silence);
    assert_eq!(FrameType::from_byte(8), FrameType::Alpc8);
    assert_eq!(FrameType::from_byte(254), FrameType::Raw);
    assert!(FrameType::Alpc8.is_alpc());
    assert!(!FrameType::Silence.is_alpc());
    assert_eq!(FrameType::Alpc8.lpc_order(), Some(8));
}
