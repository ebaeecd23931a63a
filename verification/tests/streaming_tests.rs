//! Streaming decoder and encoder tests.

use libflo_audio::{
    serialize_frame, validate, BlockSize, ChannelData, Decoder, DecoderState, Encoder, Frame,
    StreamingDecoder, StreamingEncoder, TransformFrame, Writer,
};

fn make_file(samples: &[i32], rate: u32, channels: u8) -> Vec<u8> {
    let encoder = Encoder::new(rate, channels, 16);
    encoder.encode(samples, &[]).unwrap()
}

#[test]
fn test_streaming_decoder_basic() {
    let samples: Vec<i32> = (0..8000).map(|i| ((i * 13) % 20000) - 10000).collect();
    let flo_data = make_file(&samples, 8000, 1);

    let mut dec = StreamingDecoder::new();
    assert_eq!(dec.state(), DecoderState::WaitingForHeader);
    dec.feed(&flo_data).unwrap();
    assert_eq!(dec.state(), DecoderState::Ready);

    let mut all: Vec<i32> = Vec::new();
    while let Some(frame_samples) = dec.next_frame().unwrap() {
        all.extend_from_slice(&frame_samples);
    }
    assert_eq!(all, samples);
}

#[test]
fn test_streaming_decoder_chunked() {
    // Feeding a file in 50-byte chunks ends in the ready state, and the
    // frames drained afterwards equal the one-shot decode.
    let samples: Vec<i32> = (0..12000).map(|i| ((i * 7) % 3000) - 1500).collect();
    let flo_data = make_file(&samples, 4000, 1);

    let mut dec = StreamingDecoder::new();
    for chunk in flo_data.chunks(50) {
        dec.feed(chunk).unwrap();
    }
    assert_eq!(dec.state(), DecoderState::Ready);

    let mut all: Vec<i32> = Vec::new();
    while let Some(frame_samples) = dec.next_frame().unwrap() {
        all.extend_from_slice(&frame_samples);
    }
    let oneshot = Decoder::new().decode(&flo_data).unwrap();
    assert_eq!(all, oneshot);
    assert_eq!(all, samples);
}

#[test]
fn test_streaming_decoder_stereo() {
    let mut samples: Vec<i32> = Vec::new();
    for i in 0..6000 {
        samples.push(((i * 11) % 8000) - 4000);
        samples.push(((i * 5) % 6000) - 3000);
    }
    let flo_data = make_file(&samples, 3000, 2);

    let mut dec = StreamingDecoder::new();
    dec.feed(&flo_data).unwrap();
    let mut all: Vec<i32> = Vec::new();
    while let Some(frame_samples) = dec.next_frame().unwrap() {
        all.extend_from_slice(&frame_samples);
    }
    assert_eq!(all, samples);
}

#[test]
fn test_streaming_decoder_info() {
    let samples: Vec<i32> = vec![100; 2000];
    let flo_data = make_file(&samples, 1000, 1);

    let mut dec = StreamingDecoder::new();
    assert!(dec.info().is_none());
    dec.feed(&flo_data).unwrap();
    let info = dec.info().unwrap();
    assert_eq!(info.sample_rate, 1000);
    assert_eq!(info.channels, 1);
    assert_eq!(info.bit_depth, 16);
    assert_eq!(info.total_frames, 2);
    assert!(!info.is_lossy);
    assert_eq!(info.total_samples(), 2000);
}

#[test]
fn test_streaming_decoder_reset() {
    let samples: Vec<i32> = vec![5; 1000];
    let flo_data = make_file(&samples, 1000, 1);

    let mut dec = StreamingDecoder::new();
    dec.feed(&flo_data).unwrap();
    assert_eq!(dec.state(), DecoderState::Ready);
    dec.reset();
    assert_eq!(dec.state(), DecoderState::WaitingForHeader);
    assert_eq!(dec.buffered_bytes(), 0);

    dec.feed(&flo_data).unwrap();
    assert_eq!(dec.state(), DecoderState::Ready);
    let mut all: Vec<i32> = Vec::new();
    while let Some(frame_samples) = dec.next_frame().unwrap() {
        all.extend_from_slice(&frame_samples);
    }
    assert_eq!(all, samples);
}

#[test]
fn test_streaming_partial_data() {
    // With only part of the file buffered, the ready decoder hands out the
    // complete frames and reports the incomplete one as not ready.
    let samples: Vec<i32> = (0..3000).map(|i| (i % 500) - 250).collect();
    let flo_data = make_file(&samples, 1000, 1);

    let mut dec = StreamingDecoder::new();
    let keep = flo_data.len() - 10;
    dec.feed(&flo_data[..keep]).unwrap();
    assert_eq!(dec.state(), DecoderState::Ready);
    let mut drained: Vec<i32> = Vec::new();
    loop {
        match dec.next_frame().unwrap() {
            Some(frame_samples) => drained.extend_from_slice(&frame_samples),
            None => break,
        }
    }
    assert!(drained.len() < samples.len());
    assert_eq!(&samples[..drained.len()], &drained[..]);

    // the rest arrives and the remaining frames decode
    dec.feed(&flo_data[keep..]).unwrap();
    while let Some(frame_samples) = dec.next_frame().unwrap() {
        drained.extend_from_slice(&frame_samples);
    }
    assert_eq!(drained, samples);
}

#[test]
fn test_streaming_decode_available() {
    let samples: Vec<i32> = (0..5000).map(|i| (i % 256) - 128).collect();
    let flo_data = make_file(&samples, 1000, 1);

    let mut dec = StreamingDecoder::new();
    dec.feed(&flo_data).unwrap();
    let all = dec.decode_available().unwrap();
    assert_eq!(all, samples);
    assert_eq!(dec.state(), DecoderState::Finished);
}

#[test]
fn test_streaming_bad_magic_errors() {
    let mut dec = StreamingDecoder::new();
    let garbage = vec![0u8; 100];
    assert!(dec.feed(&garbage).is_err());
    assert_eq!(dec.state(), DecoderState::Error);
    // further feeding is ignored
    assert_eq!(dec.feed(&[1, 2, 3]).unwrap(), false);
}

#[test]
fn test_streaming_available_frames() {
    let samples: Vec<i32> = vec![9; 3000];
    let flo_data = make_file(&samples, 1000, 1);

    let mut dec = StreamingDecoder::new();
    dec.feed(&flo_data).unwrap();
    assert_eq!(dec.available_frames(), 3);
    assert_eq!(dec.current_frame_index(), 0);
    dec.next_frame().unwrap();
    assert_eq!(dec.available_frames(), 2);
    assert_eq!(dec.current_frame_index(), 1);
}

#[test]
fn test_streaming_encoder_frame_output() {
    let mut enc = StreamingEncoder::new(1000, 1, 16);
    assert_eq!(enc.pending_frames(), 0);
    let chunk: Vec<i32> = (0..2500).map(|i| (i % 100) - 50).collect();
    enc.push_samples(&chunk).unwrap();
    // two whole seconds buffered and framed, half a second pending
    assert_eq!(enc.pending_frames(), 2);
    assert_eq!(enc.pending_samples(), 500);
    let f0 = enc.next_frame().unwrap();
    assert_eq!(f0.index, 0);
    assert_eq!(f0.samples, 1000);
    let f1 = enc.next_frame().unwrap();
    assert_eq!(f1.index, 1);
    assert!(enc.next_frame().is_none());
}

#[test]
fn test_streaming_encode_decode_roundtrip() {
    // Samples pushed in odd-sized pieces and finalized give a file whose
    // decode is the input.
    let samples: Vec<i32> = (0..2750).map(|i| ((i * 17) % 4000) - 2000).collect();
    let mut enc = StreamingEncoder::new(1000, 1, 16);
    for chunk in samples.chunks(137) {
        enc.push_samples(chunk).unwrap();
    }
    let flo_data = enc.finalize(b"tags").unwrap();

    let decoded = Decoder::new().decode(&flo_data).unwrap();
    assert_eq!(decoded, samples);
    assert!(libflo_audio::validate(&flo_data));
}

#[test]
fn test_streaming_incremental_feed() {
    // Feed the streaming decoder one byte at a time.
    let samples: Vec<i32> = (0..1000).map(|i| (i % 64) - 32).collect();
    let flo_data = make_file(&samples, 1000, 1);

    let mut dec = StreamingDecoder::new();
    for &b in &flo_data {
        dec.feed(&[b]).unwrap();
    }
    assert_eq!(dec.state(), DecoderState::Ready);
    let all = dec.decode_available().unwrap();
    assert_eq!(all, samples);
}

#[test]
fn test_streaming_lossy_frame_handout() {
    // A lossy file streamed in small chunks hands its transform frames
    // out intact through next_transform_frame.
    let mut coeffs = vec![0i16; 1024];
    coeffs[0] = 7;
    coeffs[100] = -3;
    let tf = TransformFrame {
        block_size: BlockSize::Long,
        num_channels: 1,
        scale_factors: vec![vec![33000u16; 25]],
        coefficients: vec![coeffs.clone()],
    };
    let blob = serialize_frame(&tf).unwrap();
    let mut frames = Vec::new();
    for _ in 0..3 {
        let mut f = Frame::new(253, 1024);
        f.channels.push(ChannelData::new_transform(blob.clone()));
        frames.push(f);
    }
    let bytes = Writer::new()
        .write_ex(48000, 1, 16, 5, true, 3, &frames, b"")
        .unwrap();
    assert!(validate(&bytes));

    let mut dec = StreamingDecoder::new();
    for chunk in bytes.chunks(7) {
        dec.feed(chunk).unwrap();
    }
    assert_eq!(dec.state(), DecoderState::Ready);
    let mut seen = 0;
    while let Some(got) = dec.next_transform_frame().unwrap() {
        assert_eq!(got.block_size, BlockSize::Long);
        assert_eq!(got.num_channels, 1);
        assert_eq!(got.scale_factors, tf.scale_factors);
        assert_eq!(got.coefficients[0], coeffs);
        seen += 1;
    }
    assert_eq!(seen, 3);
    assert_eq!(dec.state(), DecoderState::Finished);
}

#[test]
fn test_streaming_lossless_frame_refused_as_transform() {
    // next_transform_frame refuses a lossless frame, mirroring
    // next_frame's refusal of transform frames.
    let samples: Vec<i32> = (0..500).map(|i| (i % 50) - 25).collect();
    let flo_data = make_file(&samples, 500, 1);
    let mut dec = StreamingDecoder::new();
    dec.feed(&flo_data).unwrap();
    assert!(dec.next_transform_frame().is_err());
}
