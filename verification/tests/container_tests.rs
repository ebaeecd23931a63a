//! Tests of the metadata operations, quality presets, and the transform
//! frame serialization.

use libflo_audio::{
    deserialize_frame, deserialize_sparse, has_metadata, serialize_frame, serialize_sparse,
    strip_metadata_bytes, update_metadata_bytes, validate, BlockSize, ChannelData, Decoder,
    Encoder, Frame, QualityPreset, Reader, TransformFrame, Writer,
};

#[test]
fn test_quality_preset_roundtrip() {
    for preset in [
        QualityPreset::Low,
        QualityPreset::Medium,
        QualityPreset::High,
        QualityPreset::VeryHigh,
        QualityPreset::Transparent,
    ] {
        let v: u8 = preset.level();
        let back: QualityPreset = QualityPreset::from_level(v);
        assert_eq!(preset, back);
    }
}

#[test]
fn test_quality_preset_bitrates() {
    assert!(QualityPreset::Low.equivalent_bitrate() < QualityPreset::Transparent.equivalent_bitrate());
    assert_eq!(QualityPreset::from_bitrate(48, 44100, 2), QualityPreset::Low);
    assert_eq!(QualityPreset::from_bitrate(320, 44100, 2), QualityPreset::VeryHigh);
    assert_eq!(QualityPreset::from_bitrate(400, 44100, 2), QualityPreset::Transparent);
}

#[test]
fn test_update_metadata_preserves_audio() {
    // Encode with one metadata chunk, replace it with a longer one: the new
    // metadata reads back, the size field follows, the data checksum is
    // untouched, and decoding is unchanged.
    let samples: Vec<i32> = (0..4410)
        .map(|i| (((i as f32) * 0.01).sin() * 16000.0) as i32)
        .collect();
    let encoder = Encoder::new(44100, 1, 16);
    let original_meta = b"original metadata";
    let flo_data = encoder.encode(&samples, original_meta).unwrap();

    let new_meta = b"new metadata that is longer!";
    let updated = update_metadata_bytes(&flo_data, new_meta).unwrap();

    let reader = Reader::new();
    let file = reader.read(&updated).unwrap();

    assert_eq!(file.metadata, new_meta.to_vec());
    assert_eq!(file.header.meta_size, new_meta.len() as u64);

    let original_file = reader.read(&flo_data).unwrap();
    assert_eq!(file.header.data_crc32, original_file.header.data_crc32);

    let decoder = Decoder::new();
    let original_samples = decoder.decode(&flo_data).unwrap();
    let updated_samples = decoder.decode(&updated).unwrap();
    assert_eq!(original_samples, updated_samples);
    assert!(libflo_audio::validate(&updated));
}

#[test]
fn test_strip_metadata() {
    let samples: Vec<i32> = vec![16384; 1000];
    let encoder = Encoder::new(44100, 1, 16);
    let flo_with_meta = encoder.encode(&samples, b"some metadata here").unwrap();

    let stripped = strip_metadata_bytes(&flo_with_meta).unwrap();

    let reader = Reader::new();
    let file = reader.read(&stripped).unwrap();
    assert!(file.metadata.is_empty());
    assert_eq!(file.header.meta_size, 0);

    assert!(stripped.len() < flo_with_meta.len());
}

#[test]
fn test_has_metadata() {
    let samples: Vec<i32> = vec![16384; 1000];
    let encoder = Encoder::new(44100, 1, 16);

    let with_meta = encoder.encode(&samples, b"metadata").unwrap();
    let without_meta = encoder.encode(&samples, &[]).unwrap();

    assert!(has_metadata(&with_meta));
    assert!(!has_metadata(&without_meta));
}

#[test]
fn test_metadata_size_field_zero_when_absent() {
    // When has_metadata is false on a buffer that holds the field, the
    // 8-byte metadata-size field at offset 62 is zero.
    let samples: Vec<i32> = vec![0; 500];
    let encoder = Encoder::new(44100, 1, 16);
    let flo_data = encoder.encode(&samples, &[]).unwrap();
    assert!(!has_metadata(&flo_data));
    let field = u64::from_le_bytes(flo_data[62..70].try_into().unwrap());
    assert_eq!(field, 0);
}

#[test]
fn test_get_metadata_bytes() {
    let samples: Vec<i32> = vec![1; 100];
    let encoder = Encoder::new(44100, 1, 16);
    let flo_data = encoder.encode(&samples, b"hello tags").unwrap();
    let meta = libflo_audio::get_metadata_bytes_native(&flo_data).unwrap();
    assert_eq!(meta, b"hello tags".to_vec());
}

#[test]
fn test_sparse_roundtrip() {
    let cases: Vec<Vec<i16>> = vec![
        vec![],
        vec![0; 32],
        vec![1, 2, 3],
        vec![0, 0, 5, 0, 0, 0, -7, 9, 0],
        vec![100; 300],
        (0..1024).map(|i| if i % 7 == 0 { (i % 100) as i16 } else { 0 }).collect(),
    ];
    for coeffs in cases {
        let bytes = serialize_sparse(&coeffs);
        let back = deserialize_sparse(&bytes, coeffs.len());
        assert_eq!(back, coeffs);
    }
}

#[test]
fn test_sparse_empty_payload() {
    let back = deserialize_sparse(&[], 16);
    assert_eq!(back, vec![0i16; 16]);
}

#[test]
fn test_varint_roundtrip() {
    for v in [0u32, 1, 127, 128, 300, 16383, 16384, 1_000_000, u32::MAX] {
        let mut bytes: Vec<u8> = Vec::new();
        libflo_audio::transform::encode_varint(&mut bytes, v);
        let (back, used) = libflo_audio::transform::decode_varint(&bytes, 0);
        assert_eq!(back, v);
        assert_eq!(used, bytes.len());
    }
}

#[test]
fn test_block_size_values() {
    assert_eq!(BlockSize::Long.samples(), 2048);
    assert_eq!(BlockSize::Long.coefficients(), 1024);
    assert_eq!(BlockSize::Short.samples(), 256);
    assert_eq!(BlockSize::Short.coefficients(), 128);
}

#[test]
fn test_transform_frame_roundtrip() {
    // Two channels of mostly sparse coefficients survive serialization.
    let mut coeffs0 = vec![0i16; 1024];
    coeffs0[3] = 17;
    coeffs0[512] = -300;
    let mut coeffs1 = vec![0i16; 1024];
    coeffs1[0] = 1;
    coeffs1[1023] = 2;
    let frame = TransformFrame {
        block_size: BlockSize::Long,
        num_channels: 2,
        scale_factors: vec![vec![32768u16; 25], vec![40000u16; 25]],
        coefficients: vec![coeffs0.clone(), coeffs1.clone()],
    };
    let bytes = serialize_frame(&frame).unwrap();
    let back = deserialize_frame(&bytes).unwrap();
    assert_eq!(back.block_size, BlockSize::Long);
    assert_eq!(back.num_channels, 2);
    assert_eq!(back.scale_factors, frame.scale_factors);
    assert_eq!(back.coefficients[0], coeffs0);
    assert_eq!(back.coefficients[1], coeffs1);
}

#[test]
fn test_deserialize_frame_rejects_garbage() {
    assert!(deserialize_frame(&[]).is_none());
    assert!(deserialize_frame(&[9, 1]).is_none());
    // declared channel but truncated scale factors
    assert!(deserialize_frame(&[0, 1, 5]).is_none());
}

#[test]
fn test_update_metadata_rejects_bad_file() {
    let r = update_metadata_bytes(b"not a flo file at all", b"meta");
    assert!(r.is_err());
}

#[test]
fn test_from_bitrate_threshold_boundaries() {
    // Raw 44.1 kHz stereo 16-bit is 1411 kbit/s, so the tenfold ratio is
    // 14110 / bitrate: 141 kbit/s sits exactly at ratio 100 and falls to
    // High, while 100 kbit/s gives 141 and stays Medium.
    assert_eq!(QualityPreset::from_bitrate(141, 44100, 2), QualityPreset::High);
    assert_eq!(QualityPreset::from_bitrate(100, 44100, 2), QualityPreset::Medium);
    assert_eq!(QualityPreset::from_bitrate(70, 44100, 2), QualityPreset::Low);
    assert_eq!(QualityPreset::from_bitrate(71, 44100, 2), QualityPreset::Medium);
}

#[test]
fn test_validate_lossy_file() {
    // A written lossy file parses back and carries a matching checksum.
    let mut coeffs = vec![0i16; 1024];
    coeffs[3] = 11;
    let tf = TransformFrame {
        block_size: BlockSize::Long,
        num_channels: 1,
        scale_factors: vec![vec![32768u16; 25]],
        coefficients: vec![coeffs],
    };
    let blob = serialize_frame(&tf).unwrap();
    let mut frame = Frame::new(253, 1024);
    frame.channels.push(ChannelData::new_transform(blob.clone()));
    let bytes = Writer::new()
        .write_ex(44100, 2, 16, 5, true, 4, &[frame].to_vec(), b"meta")
        .unwrap();
    assert!(validate(&bytes));
    let file = Reader::new().read(&bytes).unwrap();
    assert!(file.header.flags & 1 == 1);
    assert_eq!(file.frames.len(), 1);
    assert_eq!(file.frames[0].frame_type, 253);
    assert_eq!(file.frames[0].channels.len(), 1);
    assert_eq!(file.frames[0].channels[0].residuals, blob);
}

#[test]
fn test_decode_ignores_stored_checksum() {
    // Corrupting the checksum field makes validate false but decoding
    // still returns the same samples: nothing but validate reads it.
    let samples: Vec<i32> = (0..800).map(|i| (i * 31 % 2000) - 1000).collect();
    let encoder = libflo_audio::Encoder::new(800, 1, 16);
    let mut data = encoder.encode(&samples, b"tag").unwrap();
    assert!(validate(&data));
    data[26] ^= 0xff;
    data[27] ^= 0x5a;
    assert!(!validate(&data));
    let decoded = libflo_audio::Decoder::new().decode(&data).unwrap();
    assert_eq!(decoded, samples);
}
