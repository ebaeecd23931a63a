//! Tests of the bit, CRC, Rice, and predictor layers.

use libflo_audio::lpc::{fixed_predictor_residuals, reconstruct_fixed};
use libflo_audio::rice::{decode_i32, encode_i32, estimate_rice_parameter_i32};
use libflo_audio::{compute_crc32, BitReader, BitWriter};

#[test]
fn test_crc32_empty() {
    assert_eq!(compute_crc32(&[]), 0x00000000);
}

#[test]
fn test_crc32_known() {
    // "123456789" should produce 0xCBF43926
    let data = b"123456789";
    assert_eq!(compute_crc32(data), 0xCBF43926);
}

#[test]
fn test_rice_roundtrip_i32() {
    let residuals: Vec<i32> = vec![100, -200, 50, -10, 0, 150, -300];
    let k = estimate_rice_parameter_i32(&residuals);
    let encoded = encode_i32(&residuals, k);
    let decoded = decode_i32(&encoded, k, residuals.len());

    assert_eq!(residuals, decoded);
}

#[test]
fn test_rice_parameter_range() {
    // r = [100, -200, 50, -10, 0, 150, -300]: k lies in [4, 12] and keeps
    // the largest quotient under the cap: (2*300) >> k <= 255 needs k >= 2.
    let r: Vec<i32> = vec![100, -200, 50, -10, 0, 150, -300];
    let k = estimate_rice_parameter_i32(&r);
    assert!(k >= 4 && k <= 12, "k = {}", k);
    assert!((2u32 * 300) >> k <= 255);
    let encoded = encode_i32(&r, k);
    let decoded = decode_i32(&encoded, k, 7);
    assert_eq!(decoded, r);
}

#[test]
fn test_rice_roundtrip_all_parameters() {
    // Rice round trip holds for every parameter in [0, 15] as long as the
    // unary quotients stay under the cap.
    let residuals: Vec<i32> = vec![0, 1, -1, 2, -2, 3, -3, 100, -100, 127, -127];
    for k in 0u8..=15 {
        let encoded = encode_i32(&residuals, k);
        let decoded = decode_i32(&encoded, k, residuals.len());
        assert_eq!(residuals, decoded, "k = {}", k);
    }
}

#[test]
fn test_rice_empty_input() {
    assert_eq!(estimate_rice_parameter_i32(&[]), 4);
    let encoded = encode_i32(&[], 4);
    assert!(encoded.is_empty());
    assert_eq!(decode_i32(&encoded, 4, 0), Vec::<i32>::new());
}

#[test]
fn test_rice_all_zero_input() {
    let zeros = vec![0i32; 64];
    assert_eq!(estimate_rice_parameter_i32(&zeros), 0);
    let encoded = encode_i32(&zeros, 0);
    assert_eq!(decode_i32(&encoded, 0, 64), zeros);
}

#[test]
fn test_zigzag() {
    let values = vec![0, 1, -1, 2, -2, 100, -100];
    for &v in &values {
        let unsigned = if v >= 0 {
            (v as u32) << 1
        } else {
            ((-v as u32) << 1) - 1
        };
        let back = if (unsigned & 1) == 0 {
            (unsigned >> 1) as i32
        } else {
            -(((unsigned >> 1) + 1) as i32)
        };
        assert_eq!(v, back);
        assert_eq!(libflo_audio::rice::zigzag_u32(v), unsigned);
        assert_eq!(libflo_audio::rice::unzigzag_i32(unsigned), v);
    }
}

#[test]
fn test_bit_writer_reader() {
    let mut writer = BitWriter::new();
    writer.write_bits(0b10110, 5);
    writer.write_bits(0b001, 3);
    let bytes = writer.into_bytes();

    let mut reader = BitReader::new(&bytes);
    assert_eq!(reader.read_bits(5), 0b10110);
    assert_eq!(reader.read_bits(3), 0b001);
}

#[test]
fn test_bit_writer_padding() {
    let mut writer = BitWriter::new();
    writer.write_bit(1);
    writer.write_bit(0);
    writer.write_bit(1);
    let bytes = writer.into_bytes();
    // three bits 101, padded with zeros: 1010_0000
    assert_eq!(bytes, vec![0b1010_0000]);
}

#[test]
fn test_bit_reader_past_end() {
    let bytes = vec![0xffu8];
    let mut reader = BitReader::new(&bytes);
    for _ in 0..8 {
        assert_eq!(reader.read_bit(), 1);
    }
    assert!(reader.is_exhausted());
    assert_eq!(reader.read_bit(), 0);
    assert_eq!(reader.read_bits(5), 0);
}

#[test]
fn test_fixed_predictor_order_0() {
    let samples = vec![100i32, 200, 300, 400, 500];
    let residuals = fixed_predictor_residuals(&samples, 0);

    // Order 0: residuals == samples
    assert_eq!(residuals, samples);
}

#[test]
fn test_fixed_predictor_order_1() {
    let samples = vec![100i32, 200, 300, 400, 500];
    let residuals = fixed_predictor_residuals(&samples, 1);

    // Order 1: residuals[i] = samples[i] - samples[i-1]
    assert_eq!(residuals[0], 100); // First sample unchanged
    assert_eq!(residuals[1], 100); // 200 - 100
    assert_eq!(residuals[2], 100); // 300 - 200
}

#[test]
fn test_rice_parameter_estimation() {
    // Small residuals should give small k
    let small: Vec<i32> = vec![0, 1, -1, 2, -2, 1, 0, -1];
    let k_small = estimate_rice_parameter_i32(&small);

    // Large residuals should give larger k
    let large: Vec<i32> = vec![1000, -2000, 1500, -1800, 2200];
    let k_large = estimate_rice_parameter_i32(&large);

    assert!(k_large > k_small);
}

#[test]
fn test_fixed_predictor_roundtrip_all_orders() {
    // Residual computation and reconstruction invert each other exactly in
    // integer arithmetic for every order 0..=4.
    let samples: Vec<i32> = vec![
        17, -300, 4096, 4095, 4094, 0, 0, 12345, -12345, 32767, -32768, 1, 2, 3, 5, 8, 13,
    ];
    for order in 0usize..=4 {
        let residuals = fixed_predictor_residuals(&samples, order);
        let back = reconstruct_fixed(order, &residuals, samples.len());
        assert_eq!(back, samples, "order = {}", order);
    }
}

#[test]
fn test_fixed_predictor_roundtrip_extreme_values() {
    // The wrap-around arithmetic makes the round trip exact even at the
    // edges of the 32-bit range.
    let samples: Vec<i32> = vec![i32::MAX, i32::MIN, i32::MAX, i32::MIN, 0, -1, 1];
    for order in 0usize..=4 {
        let residuals = fixed_predictor_residuals(&samples, order);
        let back = reconstruct_fixed(order, &residuals, samples.len());
        assert_eq!(back, samples, "order = {}", order);
    }
}

#[test]
fn test_lpc_roundtrip() {
    // calc_residuals_int and reconstruct_lpc_int invert for any quantized
    // coefficients and shift.
    let samples: Vec<i32> = (0..256).map(|i| ((i * 37) % 1000) - 500).collect();
    let coeffs: Vec<i32> = vec![16384, -8192, 4096];
    let shift = 14u8;
    let residuals = libflo_audio::lpc::calc_residuals_int(&samples, &coeffs, shift, coeffs.len());
    let back =
        libflo_audio::lpc::reconstruct_lpc_int(&coeffs, &residuals, shift, coeffs.len(), samples.len());
    assert_eq!(back, samples);
}

#[test]
fn test_mid_side_bijection() {
    // (L, R) -> (L+R, L-R) -> back is the identity over the 16-bit range.
    let pairs: Vec<(i32, i32)> = vec![
        (0, 0),
        (1, -1),
        (32767, -32768),
        (-32768, 32767),
        (123, 456),
        (-1, -1),
        (32767, 32767),
    ];
    let left: Vec<i32> = pairs.iter().map(|p| p.0).collect();
    let right: Vec<i32> = pairs.iter().map(|p| p.1).collect();
    let (mid, side) = libflo_audio::stereo::to_mid_side(&left, &right);
    let (l2, r2) = libflo_audio::stereo::decode_mid_side(&mid, &side);
    assert_eq!(l2, left);
    assert_eq!(r2, right);
}

#[test]
fn test_autocorrelation_values() {
    let samples: Vec<i32> = vec![1, 2, 3, 4];
    let ac = libflo_audio::lpc::autocorr_int(&samples, 2);
    assert_eq!(ac.len(), 3);
    assert_eq!(ac[0], 1 + 4 + 9 + 16);
    assert_eq!(ac[1], 1 * 2 + 2 * 3 + 3 * 4);
    assert_eq!(ac[2], 1 * 3 + 2 * 4);
}

#[test]
fn test_levinson_durbin_shape() {
    // A decaying tonal signal gives a usable predictor of the asked order.
    let samples: Vec<i32> = (0..512)
        .map(|i| (((i as f64) * 0.2).sin() * 1000.0) as i32)
        .collect();
    let ac = libflo_audio::lpc::autocorr_int(&samples, 8);
    let got = libflo_audio::lpc::levinson_durbin_int(&ac, 8);
    match got {
        Some((coeffs, shift)) => {
            assert_eq!(coeffs.len(), 8);
            assert!(shift <= 15);
        }
        None => panic!("predictor solve failed on a well-behaved signal"),
    }
}

#[test]
fn test_estimate_rice_parameter_mean_rule() {
    // Constant magnitude 100: the correctness rule is satisfied at k = 0
    // (2 * 100 <= 255), so the bit length of the mean magnitude wins:
    // 100 halves to zero in 7 steps.
    let r = vec![100i32; 4];
    assert_eq!(estimate_rice_parameter_i32(&r), 7);
    // Constant magnitude 1: mean bit length 1, correctness 0.
    let ones = vec![1i32; 8];
    assert_eq!(estimate_rice_parameter_i32(&ones), 1);
}
