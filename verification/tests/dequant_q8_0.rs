use half::f16;
use rsllm::gguf::dequant::q8_0::{BYTES_PER_BLOCK, ELEMENTS_PER_BLOCK};
use rsllm::gguf::error::Error;

fn dequant_q8_0(src: &[u8], dst: &mut [f32]) -> Result<(), Error> {
    let mut out: Vec<u32> = dst.iter().map(|v| v.to_bits()).collect();
    let r = rsllm::gguf::dequant::q8_0::dequant_q8_0(src, &mut out);
    for (d, o) in dst.iter_mut().zip(out) {
        *d = f32::from_bits(o);
    }
    r
}


/// Build one Q8_0 block (34 bytes) given `d` (scale) and 32 signed bytes.
fn pack_block(d: f32, qs: [i8; 32]) -> Vec<u8> {
    let mut out = f16::from_f32(d).to_le_bytes().to_vec();
    out.extend(qs.iter().map(|&v| v as u8));
    out
}

#[test]
fn q8_0_block_size_matches_ds4_table() {
    assert_eq!(BYTES_PER_BLOCK, 34);
    assert_eq!(ELEMENTS_PER_BLOCK, 32);
}

#[test]
fn single_block_identity_scale() {
    let qs: [i8; 32] = std::array::from_fn(|i| i as i8 - 16);
    // d = 1.0 → dst[i] = qs[i] as f32
    let block = pack_block(1.0, qs);
    let mut dst = vec![0.0f32; 32];
    dequant_q8_0(&block, &mut dst).unwrap();
    for (i, &v) in dst.iter().enumerate() {
        assert!((v - f32::from(qs[i])).abs() < 1e-4);
    }
}

#[test]
fn single_block_scaled() {
    let qs: [i8; 32] = std::array::from_fn(|i| i as i8 + 1);
    let block = pack_block(2.0, qs);
    let mut dst = vec![0.0f32; 32];
    dequant_q8_0(&block, &mut dst).unwrap();
    // f16(2.0) is exact; dst[i] should equal 2 * (i+1).
    for (i, v) in dst.iter().enumerate() {
        assert!((v - (2.0 * (i as f32 + 1.0))).abs() < 1e-4);
    }
}

#[test]
fn negative_scale_and_values() {
    let mut qs = [0i8; 32];
    let pattern = [-128i8, -64, -1, 0, 1, 64, 127, 0];
    for (i, slot) in qs.iter_mut().enumerate() {
        *slot = pattern[i % pattern.len()];
    }
    let block = pack_block(-0.5, qs);
    let mut dst = vec![0.0f32; 32];
    dequant_q8_0(&block, &mut dst).unwrap();
    for (i, &v) in dst.iter().enumerate() {
        let want = -0.5 * f32::from(qs[i]);
        assert!((v - want).abs() < 1e-3, "got {v}, want {want}");
    }
}

#[test]
fn multiple_blocks() {
    let qs1: [i8; 32] = std::array::from_fn(|i| i as i8);
    let qs2: [i8; 32] = std::array::from_fn(|i| -(i as i8));
    let mut src = pack_block(1.0, qs1);
    src.extend(pack_block(2.0, qs2));
    let mut dst = vec![0.0f32; 64];
    dequant_q8_0(&src, &mut dst).unwrap();
    for i in 0..32 {
        assert!((dst[i] - f32::from(qs1[i])).abs() < 1e-4);
    }
    for i in 0..32 {
        assert!((dst[32 + i] - 2.0 * f32::from(qs2[i])).abs() < 1e-4);
    }
}

#[test]
fn q8_0_partial_block_dst_errors() {
    // dst.len() = 16 is not a multiple of 32.
    let src = vec![0u8; 34];
    let mut dst = vec![0.0f32; 16];
    match dequant_q8_0(&src, &mut dst) {
        Err(Error::DequantSizeMismatch { .. }) => {}
        other => panic!("expected DequantSizeMismatch, got {other:?}"),
    }
}

#[test]
fn q8_0_wrong_src_size_errors() {
    let src = vec![0u8; 33]; // missing 1 byte for one block
    let mut dst = vec![0.0f32; 32];
    match dequant_q8_0(&src, &mut dst) {
        Err(Error::DequantSizeMismatch {
            src_bytes,
            expected_bytes,
        }) => {
            assert_eq!(src_bytes, 33);
            assert_eq!(expected_bytes, 34);
        }
        other => panic!("expected DequantSizeMismatch, got {other:?}"),
    }
}

#[test]
fn empty_buffers_ok() {
    let src: Vec<u8> = vec![];
    let mut dst: Vec<f32> = vec![];
    dequant_q8_0(&src, &mut dst).unwrap();
}
