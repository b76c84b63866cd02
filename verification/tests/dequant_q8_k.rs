use rsllm::gguf::dequant::q8_k::{BYTES_PER_BLOCK, ELEMENTS_PER_BLOCK};
use rsllm::gguf::error::Error;

fn dequant_q8_k(src: &[u8], dst: &mut [f32]) -> Result<(), Error> {
    let mut out: Vec<u32> = dst.iter().map(|v| v.to_bits()).collect();
    let r = rsllm::gguf::dequant::q8_k::dequant_q8_k(src, &mut out);
    for (d, o) in dst.iter_mut().zip(out) {
        *d = f32::from_bits(o);
    }
    r
}


/// Pack one Q8_K block. `bsums` are filled with zero — they are not used by
/// the dequant path.
fn pack_block(d: f32, qs: [i8; 256]) -> Vec<u8> {
    let mut out = d.to_le_bytes().to_vec();
    for q in &qs {
        out.push(*q as u8);
    }
    // 32 bytes of bsums (16 × i16), filled with 0.
    out.extend(std::iter::repeat_n(0u8, 32));
    out
}

#[test]
fn q8_k_block_size_matches_spec() {
    assert_eq!(BYTES_PER_BLOCK, 292);
    assert_eq!(ELEMENTS_PER_BLOCK, 256);
}

#[test]
fn unit_scale_passes_through_qs() {
    // d = 1, every qs = its index mod 127.
    let qs: [i8; 256] = std::array::from_fn(|i| (i % 127) as i8);
    let block = pack_block(1.0, qs);
    let mut dst = vec![0.0f32; 256];
    dequant_q8_k(&block, &mut dst).unwrap();
    for (i, v) in dst.iter().enumerate() {
        assert!(
            (v - f32::from(qs[i])).abs() < 1e-4,
            "i={i}: got {v}, want {}",
            qs[i]
        );
    }
}

#[test]
fn negative_scale_inverts_sign() {
    let qs = [5i8; 256];
    let block = pack_block(-0.5, qs);
    let mut dst = vec![0.0f32; 256];
    dequant_q8_k(&block, &mut dst).unwrap();
    for v in &dst {
        assert!((v - (-2.5)).abs() < 1e-4, "got {v}, want -2.5");
    }
}

#[test]
fn boundary_quant_values() {
    let mut qs = [0i8; 256];
    qs[0] = i8::MIN;
    qs[1] = i8::MAX;
    qs[2] = 0;
    qs[3] = -1;
    let block = pack_block(0.01, qs);
    let mut dst = vec![0.0f32; 256];
    dequant_q8_k(&block, &mut dst).unwrap();
    assert!((dst[0] - 0.01 * -128.0).abs() < 1e-4);
    assert!((dst[1] - 0.01 * 127.0).abs() < 1e-4);
    assert!(dst[2].abs() < 1e-4);
    assert!((dst[3] - -0.01).abs() < 1e-4);
}

#[test]
fn q8_k_wrong_src_size_errors() {
    let src = vec![0u8; 291];
    let mut dst = vec![0.0f32; 256];
    assert!(matches!(
        dequant_q8_k(&src, &mut dst),
        Err(Error::DequantSizeMismatch { .. })
    ));
}

#[test]
fn multi_block_decode() {
    // qs_a wraps through i8 range; qs_b is the wrapping-negation to avoid
    // i8::MIN negation overflow.
    let qs_a: [i8; 256] = std::array::from_fn(|i| i as i8);
    let qs_b: [i8; 256] = std::array::from_fn(|i| (i as i8).wrapping_neg());
    let mut src = pack_block(2.0, qs_a);
    src.extend(pack_block(-1.0, qs_b));
    let mut dst = vec![0.0f32; 512];
    dequant_q8_k(&src, &mut dst).unwrap();
    for (i, v) in dst[..256].iter().enumerate() {
        assert!((v - (2.0 * f32::from(qs_a[i]))).abs() < 1e-4);
    }
    for (i, v) in dst[256..].iter().enumerate() {
        assert!((v - (-f32::from(qs_b[i]))).abs() < 1e-4);
    }
}
