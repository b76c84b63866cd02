use half::{bf16, f16};
use rsllm::gguf::error::Error;
use rsllm::gguf::tensor::GgmlType;

fn dequant_f32(src: &[u8], dst: &mut [f32]) -> Result<(), Error> {
    let mut out: Vec<u32> = dst.iter().map(|v| v.to_bits()).collect();
    let r = rsllm::gguf::dequant::float::dequant_f32(src, &mut out);
    for (d, o) in dst.iter_mut().zip(out) {
        *d = f32::from_bits(o);
    }
    r
}

fn dequant_f16(src: &[u8], dst: &mut [f32]) -> Result<(), Error> {
    let mut out: Vec<u32> = dst.iter().map(|v| v.to_bits()).collect();
    let r = rsllm::gguf::dequant::float::dequant_f16(src, &mut out);
    for (d, o) in dst.iter_mut().zip(out) {
        *d = f32::from_bits(o);
    }
    r
}

fn dequant_bf16(src: &[u8], dst: &mut [f32]) -> Result<(), Error> {
    let mut out: Vec<u32> = dst.iter().map(|v| v.to_bits()).collect();
    let r = rsllm::gguf::dequant::float::dequant_bf16(src, &mut out);
    for (d, o) in dst.iter_mut().zip(out) {
        *d = f32::from_bits(o);
    }
    r
}


fn f32_to_bytes(values: &[f32]) -> Vec<u8> {
    values.iter().flat_map(|v| v.to_le_bytes()).collect()
}

fn f16_to_bytes(values: &[f32]) -> Vec<u8> {
    values
        .iter()
        .flat_map(|v| f16::from_f32(*v).to_le_bytes())
        .collect()
}

fn bf16_to_bytes(values: &[f32]) -> Vec<u8> {
    values
        .iter()
        .flat_map(|v| bf16::from_f32(*v).to_le_bytes())
        .collect()
}

#[test]
fn f32_roundtrip_exact() {
    let values = [0.0_f32, 1.0, -1.0, 1.5, f32::MIN, f32::MAX];
    let src = f32_to_bytes(&values);
    let mut dst = vec![0.0; values.len()];
    dequant_f32(&src, &mut dst).unwrap();
    for (got, want) in dst.iter().zip(values.iter()) {
        assert_eq!(got.to_bits(), want.to_bits());
    }
}

#[test]
fn f16_roundtrip_low_precision() {
    // f16 has only ~3 decimal digits of precision; pick values that
    // are exactly representable.
    let values = [0.0_f32, 1.0, -1.0, 0.5, 2048.0];
    let src = f16_to_bytes(&values);
    let mut dst = vec![0.0; values.len()];
    dequant_f16(&src, &mut dst).unwrap();
    for (got, want) in dst.iter().zip(values.iter()) {
        assert!((got - want).abs() < 1e-3, "got {got}, want {want}");
    }
}

#[test]
fn bf16_roundtrip_low_precision() {
    // bf16 has ~2-3 decimal digits, same f32 exponent range.
    let values = [0.0_f32, 1.0, -1.0, 0.5, 2.0, 100.0];
    let src = bf16_to_bytes(&values);
    let mut dst = vec![0.0; values.len()];
    dequant_bf16(&src, &mut dst).unwrap();
    for (got, want) in dst.iter().zip(values.iter()) {
        assert!((got - want).abs() < (want.abs() * 0.01) + 1e-3);
    }
}

#[test]
fn f32_size_mismatch_reports_error() {
    let src = vec![0u8; 6]; // not a multiple of 4
    let mut dst = vec![0.0; 2]; // expects 8 bytes
    match dequant_f32(&src, &mut dst) {
        Err(Error::DequantSizeMismatch {
            src_bytes,
            expected_bytes,
        }) => {
            assert_eq!(src_bytes, 6);
            assert_eq!(expected_bytes, 8);
        }
        other => panic!("expected DequantSizeMismatch, got {other:?}"),
    }
}

#[test]
fn empty_buffers_are_ok() {
    let src: Vec<u8> = vec![];
    let mut dst: Vec<f32> = vec![];
    dequant_f32(&src, &mut dst).unwrap();
    dequant_f16(&src, &mut dst).unwrap();
    dequant_bf16(&src, &mut dst).unwrap();
}

#[test]
fn every_half_decodes_to_itself() {
    for bits in 0..=u16::MAX {
        let mut dst = [0.0f32];
        dequant_f16(&bits.to_le_bytes(), &mut dst).unwrap();
        let want = f16::from_bits(bits).to_f32();
        assert_eq!(dst[0].to_bits(), want.to_bits(), "{bits:04x}");
        dequant_bf16(&bits.to_le_bytes(), &mut dst).unwrap();
        assert_eq!(dst[0].to_bits(), bf16::from_bits(bits).to_f32().to_bits());
    }
}
fn dequant_to_f32(dtype: GgmlType, src: &[u8], dst: &mut [f32]) -> Result<(), Error> {
    let mut out: Vec<u32> = dst.iter().map(|v| v.to_bits()).collect();
    let r = rsllm::gguf::dequant::dequant_to_f32(dtype, src, &mut out);
    for (d, o) in dst.iter_mut().zip(out) {
        *d = f32::from_bits(o);
    }
    r
}


#[test]
fn unsupported_dtype_reports_error() {
    let src = vec![0u8; 84]; // 1 block of Q2_K
    let mut dst = vec![0.0f32; 256];
    match dequant_to_f32(GgmlType::Q2_K, &src, &mut dst) {
        Err(Error::UnsupportedDequant(name)) => assert_eq!(name, "q2_k"),
        other => panic!("expected UnsupportedDequant, got {other:?}"),
    }
}

#[test]
fn f32_dispatch_roundtrips() {
    let src: Vec<u8> = [1.0f32, -2.5, 1.5, 0.0]
        .iter()
        .flat_map(|v| v.to_le_bytes())
        .collect();
    let mut dst = vec![0.0f32; 4];
    dequant_to_f32(GgmlType::F32, &src, &mut dst).unwrap();
    assert_eq!(dst, vec![1.0, -2.5, 1.5, 0.0]);
}

#[test]
fn decodable_types_are_decoded() {
    for id in 0..31 {
        if let Some(t) = GgmlType::from_u32(id) {
            let n = t.block_elements() as usize;
            let src = vec![0u8; t.block_bytes() as usize];
            let mut dst = vec![1.0f32; n];
            let r = dequant_to_f32(t, &src, &mut dst);
            if t.is_decodable_v0_1_0() {
                assert_eq!(r, Ok(()));
                assert!(dst.iter().all(|v| *v == 0.0), "{}", t.name());
            } else {
                assert_eq!(r, Err(Error::UnsupportedDequant(t.name())));
                assert!(dst.iter().all(|v| *v == 1.0), "{}", t.name());
            }
        }
    }
}

#[test]
fn unsupported_types_are_refused_whatever_the_lengths() {
    for (src, n) in [(0usize, 0usize), (3, 7), (84, 256)] {
        let mut dst = vec![2.0f32; n];
        match dequant_to_f32(GgmlType::IQ2_XXS, &vec![0u8; src], &mut dst) {
            Err(Error::UnsupportedDequant(name)) => assert_eq!(name, "iq2_xxs"),
            other => panic!("expected UnsupportedDequant, got {other:?}"),
        }
        assert!(dst.iter().all(|v| *v == 2.0));
    }
}
