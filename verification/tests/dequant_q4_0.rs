use half::f16;
use rsllm::gguf::dequant::q4_0::{ELEMENTS_PER_BLOCK, Q4_0_BYTES, Q4_1_BYTES};
use rsllm::gguf::error::Error;

fn dequant_q4_0(src: &[u8], dst: &mut [f32]) -> Result<(), Error> {
    let mut out: Vec<u32> = dst.iter().map(|v| v.to_bits()).collect();
    let r = rsllm::gguf::dequant::q4_0::dequant_q4_0(src, &mut out);
    for (d, o) in dst.iter_mut().zip(out) {
        *d = f32::from_bits(o);
    }
    r
}

fn dequant_q4_1(src: &[u8], dst: &mut [f32]) -> Result<(), Error> {
    let mut out: Vec<u32> = dst.iter().map(|v| v.to_bits()).collect();
    let r = rsllm::gguf::dequant::q4_0::dequant_q4_1(src, &mut out);
    for (d, o) in dst.iter_mut().zip(out) {
        *d = f32::from_bits(o);
    }
    r
}


/// Pack one Q4_0 block: `d` scale, plus 32 raw nibbles (each value in 0..16).
fn pack_q4_0(d: f32, nibbles: [u8; 32]) -> Vec<u8> {
    let mut out = f16::from_f32(d).to_le_bytes().to_vec();
    for j in 0..16 {
        // Low nibble = element j; high nibble = element j+16.
        let lo = nibbles[j] & 0x0F;
        let hi = nibbles[j + 16] & 0x0F;
        out.push((hi << 4) | lo);
    }
    out
}

/// Pack one Q4_1 block: `d` scale, `m` min, plus 32 raw nibbles.
fn pack_q4_1(d: f32, m: f32, nibbles: [u8; 32]) -> Vec<u8> {
    let mut out = f16::from_f32(d).to_le_bytes().to_vec();
    out.extend_from_slice(&f16::from_f32(m).to_le_bytes());
    for j in 0..16 {
        let lo = nibbles[j] & 0x0F;
        let hi = nibbles[j + 16] & 0x0F;
        out.push((hi << 4) | lo);
    }
    out
}

#[test]
fn q4_0_sizes_match_ds4_table() {
    assert_eq!(Q4_0_BYTES, 18);
    assert_eq!(Q4_1_BYTES, 20);
}

#[test]
fn q4_0_zero_block_yields_negative_eight_times_scale() {
    // All nibbles = 0; dequant = d * (0 - 8) = -8 * d.
    let block = pack_q4_0(1.0, [0u8; 32]);
    let mut dst = vec![0.0f32; 32];
    dequant_q4_0(&block, &mut dst).unwrap();
    for v in &dst {
        assert!((v - (-8.0)).abs() < 1e-4);
    }
}

#[test]
fn q4_0_full_range_block() {
    // Nibbles 0..16 across the 32 element layout.
    let mut nibbles = [0u8; 32];
    for (i, n) in nibbles.iter_mut().enumerate() {
        *n = (i % 16) as u8;
    }
    let block = pack_q4_0(1.0, nibbles);
    let mut dst = vec![0.0f32; 32];
    dequant_q4_0(&block, &mut dst).unwrap();
    for i in 0..32 {
        let want = (nibbles[i] as f32) - 8.0;
        assert!(
            (dst[i] - want).abs() < 1e-4,
            "i={i}, got {}, want {want}",
            dst[i]
        );
    }
}

#[test]
fn q4_0_low_high_nibble_ordering() {
    // Distinct values on low vs high nibbles to confirm element indexing.
    let mut nibbles = [0u8; 32];
    nibbles[0] = 1; // element 0 → low nibble of qs[0]
    nibbles[16] = 15; // element 16 → high nibble of qs[0]
    let block = pack_q4_0(0.5, nibbles);
    let mut dst = vec![0.0f32; 32];
    dequant_q4_0(&block, &mut dst).unwrap();
    assert!((dst[0] - (0.5 * (1.0 - 8.0))).abs() < 1e-4);
    assert!((dst[16] - (0.5 * (15.0 - 8.0))).abs() < 1e-4);
}

#[test]
fn q4_1_min_only_offset() {
    // d = 0 → dst = m everywhere. Equivalent to a constant tensor.
    let block = pack_q4_1(0.0, 3.5, [7u8; 32]);
    let mut dst = vec![0.0f32; 32];
    dequant_q4_1(&block, &mut dst).unwrap();
    for v in &dst {
        assert!((v - 3.5).abs() < 1e-3);
    }
}

#[test]
fn q4_1_linear_with_offset() {
    // d = 0.5, m = 1.0; nibble n → 0.5*n + 1.0.
    let mut nibbles = [0u8; 32];
    for (i, n) in nibbles.iter_mut().enumerate() {
        *n = (i % 16) as u8;
    }
    let block = pack_q4_1(0.5, 1.0, nibbles);
    let mut dst = vec![0.0f32; 32];
    dequant_q4_1(&block, &mut dst).unwrap();
    for i in 0..32 {
        let want = 0.5 * (nibbles[i] as f32) + 1.0;
        assert!(
            (dst[i] - want).abs() < 1e-3,
            "i={i}, got {}, want {want}",
            dst[i]
        );
    }
}

#[test]
fn q4_0_multiple_blocks() {
    let mut src = pack_q4_0(1.0, [0u8; 32]);
    src.extend(pack_q4_0(2.0, [15u8; 32]));
    let mut dst = vec![0.0f32; 64];
    dequant_q4_0(&src, &mut dst).unwrap();
    // Block 0: -8 * 1 = -8
    // Block 1: (15 - 8) * 2 = 14
    for v in &dst[..32] {
        assert!((v - (-8.0)).abs() < 1e-4);
    }
    for v in &dst[32..64] {
        assert!((v - 14.0).abs() < 1e-4);
    }
}

#[test]
fn q4_0_wrong_src_size_errors() {
    let src = vec![0u8; 17]; // Q4_0 needs 18
    let mut dst = vec![0.0f32; 32];
    assert!(matches!(
        dequant_q4_0(&src, &mut dst),
        Err(Error::DequantSizeMismatch { .. })
    ));
}

#[test]
fn q4_0_partial_block_dst_errors() {
    let src = vec![0u8; 18];
    let mut dst = vec![0.0f32; 16];
    assert!(matches!(
        dequant_q4_0(&src, &mut dst),
        Err(Error::DequantSizeMismatch { .. })
    ));
}
