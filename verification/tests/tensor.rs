use rsllm::gguf::error::Error;
use rsllm::gguf::reader::Reader;
use rsllm::gguf::supported_gguf_version;
use rsllm::gguf::tensor::{parse_tensor_directory, GgmlType, TensorInfo, MAX_DIMS};

#[test]
fn ggml_type_roundtrip_known_ids() {
    for raw in [0u32, 1, 2, 3, 6, 7, 8, 12, 14, 30] {
        let ty = GgmlType::from_u32(raw).expect("known");
        assert_eq!(ty.id(), raw);
    }
}

#[test]
fn ggml_type_unknown_id_returns_none() {
    assert!(GgmlType::from_u32(99).is_none());
    // Gaps in the table (e.g. 4, 5) are also unrecognized.
    assert!(GgmlType::from_u32(4).is_none());
    assert!(GgmlType::from_u32(5).is_none());
}

#[test]
fn block_layout_matches_ds4_table() {
    assert_eq!(GgmlType::F32.block_elements(), 1);
    assert_eq!(GgmlType::F32.block_bytes(), 4);

    assert_eq!(GgmlType::Q4_0.block_elements(), 32);
    assert_eq!(GgmlType::Q4_0.block_bytes(), 18);

    assert_eq!(GgmlType::Q4_K.block_elements(), 256);
    assert_eq!(GgmlType::Q4_K.block_bytes(), 144);

    assert_eq!(GgmlType::Q6_K.block_elements(), 256);
    assert_eq!(GgmlType::Q6_K.block_bytes(), 210);

    assert_eq!(GgmlType::IQ2_XXS.block_elements(), 256);
    assert_eq!(GgmlType::IQ2_XXS.block_bytes(), 66);

    assert_eq!(GgmlType::BF16.block_elements(), 1);
    assert_eq!(GgmlType::BF16.block_bytes(), 2);
}

#[test]
fn byte_size_basic() {
    // 4096 f32 elements = 4096 blocks of 4 bytes = 16384 bytes.
    assert_eq!(GgmlType::F32.byte_size(4096), Some(16_384));
    // 4096 q4_0 elements = ceil(4096/32) = 128 blocks of 18 bytes = 2304 bytes.
    assert_eq!(GgmlType::Q4_0.byte_size(4096), Some(2_304));
    // Non-multiple-of-32 element count rounds up.
    assert_eq!(GgmlType::Q4_0.byte_size(33), Some(36)); // 2 blocks
    // Q4_K: 4096 elements = 16 blocks of 144 bytes = 2304 bytes.
    assert_eq!(GgmlType::Q4_K.byte_size(4096), Some(2_304));
}

#[test]
fn decodable_v010_set() {
    for t in [
        GgmlType::F32,
        GgmlType::F16,
        GgmlType::BF16,
        GgmlType::Q4_0,
        GgmlType::Q4_1,
        GgmlType::Q4_K,
        GgmlType::Q5_K,
        GgmlType::Q6_K,
        GgmlType::Q8_0,
    ] {
        assert!(t.is_decodable_v0_1_0(), "{} should be decodable", t.name());
    }
    for t in [
        GgmlType::Q2_K,
        GgmlType::Q3_K,
        GgmlType::IQ2_XXS,
        GgmlType::IQ3_XXS,
        GgmlType::Q5_0,
        GgmlType::Q5_1,
    ] {
        assert!(
            !t.is_decodable_v0_1_0(),
            "{} should not yet be decodable",
            t.name()
        );
    }
}

/// Encode a single tensor directory entry for tests:
/// `len u64 + name bytes + ndim u32 + dim u64* + type u32 + rel_offset u64`.
fn pack_tensor(name: &str, ttype: u32, shape: &[u64], rel_offset: u64) -> Vec<u8> {
    let mut out = (name.len() as u64).to_le_bytes().to_vec();
    out.extend_from_slice(name.as_bytes());
    out.extend_from_slice(&(shape.len() as u32).to_le_bytes());
    for &d in shape {
        out.extend_from_slice(&d.to_le_bytes());
    }
    out.extend_from_slice(&ttype.to_le_bytes());
    out.extend_from_slice(&rel_offset.to_le_bytes());
    out
}

#[test]
fn parse_single_tensor() {
    let bytes = pack_tensor("blk.0.attn_q.weight", 12 /* Q4_K */, &[4096, 4096], 0);
    let mut reader = Reader::new(&bytes);
    let info = TensorInfo::parse(&mut reader).unwrap();
    assert_eq!(info.name, "blk.0.attn_q.weight");
    assert_eq!(info.dtype, Some(GgmlType::Q4_K));
    assert_eq!(info.raw_type, 12);
    assert_eq!(info.shape, vec![4096, 4096]);
    assert_eq!(info.elements, 4096 * 4096);
    assert_eq!(info.relative_offset, 0);
    // 4096*4096 = 16_777_216 elements; / 256 = 65_536 blocks; * 144 = 9_437_184 bytes.
    assert_eq!(info.byte_size, Some(9_437_184));
}

#[test]
fn parse_unknown_type_preserves_raw_id() {
    let bytes = pack_tensor("weird.tensor", 999, &[16], 0);
    let mut reader = Reader::new(&bytes);
    let info = TensorInfo::parse(&mut reader).unwrap();
    assert_eq!(info.dtype, None);
    assert_eq!(info.raw_type, 999);
    assert_eq!(info.byte_size, None);
}

#[test]
fn parse_tensor_directory_multiple() {
    let mut bytes = pack_tensor("t1", 0 /* F32 */, &[4], 0);
    bytes.extend(pack_tensor("t2", 1 /* F16 */, &[8, 8], 16));
    bytes.extend(pack_tensor("t3", 8 /* Q8_0 */, &[32], 144));

    let mut reader = Reader::new(&bytes);
    let dir = parse_tensor_directory(&mut reader, 3).unwrap();
    assert_eq!(dir.len(), 3);
    assert_eq!(dir[0].name, "t1");
    assert_eq!(dir[0].dtype, Some(GgmlType::F32));
    assert_eq!(dir[1].name, "t2");
    assert_eq!(dir[1].dtype, Some(GgmlType::F16));
    assert_eq!(dir[2].name, "t3");
    assert_eq!(dir[2].dtype, Some(GgmlType::Q8_0));
}

#[test]
fn rejects_zero_ndim() {
    let mut bytes = (b"x".len() as u64).to_le_bytes().to_vec();
    bytes.extend_from_slice(b"x");
    bytes.extend_from_slice(&0u32.to_le_bytes()); // ndim = 0
    bytes.extend_from_slice(&0u32.to_le_bytes()); // type
    bytes.extend_from_slice(&0u64.to_le_bytes()); // offset

    let mut reader = Reader::new(&bytes);
    assert!(TensorInfo::parse(&mut reader).is_err());
}

#[test]
fn rejects_too_many_dims() {
    let mut bytes = (b"x".len() as u64).to_le_bytes().to_vec();
    bytes.extend_from_slice(b"x");
    bytes.extend_from_slice(&((MAX_DIMS as u32) + 1).to_le_bytes()); // ndim > MAX
    let mut reader = Reader::new(&bytes);
    assert!(TensorInfo::parse(&mut reader).is_err());
}

#[test]
fn every_code_is_read_back() {
    let mut known = 0;
    for raw in 0u32..64 {
        if let Some(ty) = GgmlType::from_u32(raw) {
            assert_eq!(ty.id(), raw);
            known += 1;
        }
    }
    assert_eq!(known, 29);
}

#[test]
fn sizes_that_do_not_fit() {
    assert_eq!(GgmlType::F64.byte_size(u64::MAX), None);
    assert_eq!(GgmlType::Q4_0.byte_size(u64::MAX), None);
    assert_eq!(GgmlType::I8.byte_size(u64::MAX), Some(u64::MAX));
    assert_eq!(GgmlType::Q4_K.byte_size(0), Some(0));
    assert_eq!(GgmlType::Q4_K.byte_size(1), Some(144));
}

#[test]
fn wrong_number_of_dimensions_is_named() {
    let mut bytes = 1u64.to_le_bytes().to_vec();
    bytes.extend_from_slice(b"x");
    bytes.extend_from_slice(&5u32.to_le_bytes());
    let mut reader = Reader::new(&bytes);
    assert_eq!(
        TensorInfo::parse(&mut reader),
        Err(Error::InvalidTensorDims { name: "x".to_string(), ndim: 5, max: 4 })
    );
}

#[test]
fn element_counts_that_do_not_fit() {
    let bytes = pack_tensor("x", 0, &[u64::MAX, 2], 0);
    let mut reader = Reader::new(&bytes);
    assert!(matches!(
        TensorInfo::parse(&mut reader),
        Err(Error::ArrayTooLarge { .. })
    ));
}

#[test]
fn empty_dimension_makes_an_empty_tensor() {
    let bytes = pack_tensor("x", 0, &[3, 0], 0);
    let mut reader = Reader::new(&bytes);
    let info = TensorInfo::parse(&mut reader).unwrap();
    assert_eq!(info.elements, 0);
    assert_eq!(info.byte_size, Some(0));
}

#[test]
fn supported_version_is_v3() {
    assert_eq!(supported_gguf_version(), 3);
}
